//! Voice-session tracking and daily activity statistics for a community bot.
//!
//! The crate keeps the stateful and algorithmic core of the bot: tracking
//! overlapping voice sessions per channel from full occupancy snapshots,
//! accumulating per-guild per-day voice time, tallying message activity,
//! and composing the activity reports. Transport, storage I/O and timers
//! live outside this crate; they hand plain values in and take plain
//! values back.

pub mod strutil;
pub mod daykey;
pub mod duration;
pub mod tracker;
pub mod store;
pub mod schedule;
pub mod tally;
pub mod report;
