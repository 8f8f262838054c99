//! Decisions of the daily reporting job.
//!
//! The job itself is driven by an outside timer, fetches message history
//! page by page from an outside source and sends the finished report over
//! an outside transport; none of that runs here. What the crate owns are
//! the decisions: which messages fall inside the one-day window (the fetch
//! loop keeps paging while the oldest message seen is still inside it, and
//! drops the rest before tallying), and what the report says for a day
//! whose counter row does not exist — zero voice time, never an error.

use vstd::prelude::*;
use crate::duration::{format_from_seconds, spec_format_tenths};

verus! {

/// Seconds in one day: the width of the report's message window.
pub const DAY_SECONDS: i64 = 86400;

/// Whether a message timestamp lies within the last day before `now`,
/// both in seconds since the epoch: no older than one day, and not after
/// `now`. A timestamp ahead of the clock is outside the window. The
/// bounds keep the difference representable; every realistic clock
/// reading satisfies them.
pub fn within_window(now: i64, timestamp: i64) -> (r: bool)
    requires
        -0x2000_0000_0000_0000 < now < 0x2000_0000_0000_0000,
        -0x2000_0000_0000_0000 < timestamp < 0x2000_0000_0000_0000,
    ensures
        r == (0 <= now - timestamp <= 86400),
{
    let diff = now - timestamp;
    0 <= diff && diff <= DAY_SECONDS
}

/// The report's voice-time text for one day's counter: an absent row
/// counts as zero elapsed time. The total is in tenths of a second.
pub fn voice_time_field(total: Option<u64>) -> (r: String)
    ensures
        r@ == spec_format_tenths(
            (match total {
                Some(t) => t,
                None => 0,
            }) as nat,
        ),
{
    match total {
        Some(t) => format_from_seconds(t),
        None => format_from_seconds(0),
    }
}

/// What the interaction handler does with one slash command.
#[derive(Clone, Copy, Debug, PartialEq, Eq, Structural)]
pub enum Action {
    SetDailyLogChannel,
    SetVcLogChannel,
    DisableDailyLog,
    DisableVcLogs,
    RefusePermission,
    Unknown,
}

/// The dispatch decision: each of the four configuration commands runs
/// only for a member who may manage the guild; a known command without
/// that permission is refused, anything else is unknown.
pub open spec fn spec_dispatch(name: Seq<char>, can_manage: bool) -> Action {
    if name == "set-daily-log-channel"@ {
        if can_manage {
            Action::SetDailyLogChannel
        } else {
            Action::RefusePermission
        }
    } else if name == "set-vc-session-log-channel"@ {
        if can_manage {
            Action::SetVcLogChannel
        } else {
            Action::RefusePermission
        }
    } else if name == "disable-daily-message-logs"@ {
        if can_manage {
            Action::DisableDailyLog
        } else {
            Action::RefusePermission
        }
    } else if name == "disable-vc-session-logs"@ {
        if can_manage {
            Action::DisableVcLogs
        } else {
            Action::RefusePermission
        }
    } else {
        Action::Unknown
    }
}

/// Decides what to do with one slash command, from its name and the
/// caller's permission bit alone.
pub fn dispatch(name: &String, can_manage: bool) -> (a: Action)
    ensures
        a == spec_dispatch(name@, can_manage),
{
    let refused = if can_manage {
        None
    } else {
        Some(Action::RefusePermission)
    };
    if *name == "set-daily-log-channel".to_owned() {
        match refused {
            Some(r) => r,
            None => Action::SetDailyLogChannel,
        }
    } else if *name == "set-vc-session-log-channel".to_owned() {
        match refused {
            Some(r) => r,
            None => Action::SetVcLogChannel,
        }
    } else if *name == "disable-daily-message-logs".to_owned() {
        match refused {
            Some(r) => r,
            None => Action::DisableDailyLog,
        }
    } else if *name == "disable-vc-session-logs".to_owned() {
        match refused {
            Some(r) => r,
            None => Action::DisableVcLogs,
        }
    } else {
        Action::Unknown
    }
}

/// The channel identifiers and names of a guild, by their characters.
pub open spec fn chan_views(channels: Seq<(u64, String)>) -> Seq<(u64, Seq<char>)> {
    channels.map_values(|p: (u64, String)| (p.0, p.1@))
}

/// The channel a greeting goes to: the first channel named `general`, or
/// the given fallback when none is.
pub open spec fn spec_welcome(channels: Seq<(u64, Seq<char>)>, fallback: u64) -> u64
    decreases channels.len(),
{
    if channels.len() == 0 {
        fallback
    } else if channels[0].1 == "general"@ {
        channels[0].0
    } else {
        spec_welcome(channels.drop_first(), fallback)
    }
}

/// Picks the channel a greeting goes to.
pub fn welcome_channel(channels: &Vec<(u64, String)>, fallback: u64) -> (r: u64)
    ensures
        r == spec_welcome(chan_views(channels@), fallback),
{
    let ghost cv = chan_views(channels@);
    proof {
        assert(cv.skip(0) =~= cv);
    }
    let mut i: usize = 0;
    while i < channels.len()
        invariant
            0 <= i <= channels@.len(),
            cv == chan_views(channels@),
            spec_welcome(cv, fallback) == spec_welcome(cv.skip(i as int), fallback),
        decreases channels.len() - i,
    {
        proof {
            assert(cv.skip(i as int)[0] == cv[i as int]);
            assert(cv[i as int] == (channels@[i as int].0, channels@[i as int].1@));
            assert(cv.skip(i as int).drop_first() =~= cv.skip(i as int + 1));
        }
        if channels[i].1 == "general".to_owned() {
            return channels[i].0;
        }
        i = i + 1;
    }
    proof {
        assert(cv.skip(cv.len() as int).len() == 0);
    }
    fallback
}

} // verus!
