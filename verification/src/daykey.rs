//! Calendar-day bucket keys.
//!
//! Accumulated voice time is partitioned by calendar day in the local time
//! zone. The partition key is the literal string `month-day-year` with the
//! month and day not zero-padded and the year rendered with four digits
//! (for example `3-7-2024`). The accumulator and the daily job must derive
//! the key identically, so the key is an opaque value type with a single
//! constructor and a single renderer.

use vstd::prelude::*;
use crate::strutil::{spec_dec, u64_to_string};
use chrono::Datelike;

verus! {

/// One calendar day in the local time zone.
#[derive(Clone, Copy, PartialEq, Eq, Structural, Debug)]
pub struct DayKey {
    pub year: u64,
    pub month: u64,
    pub day: u64,
}

/// A four-digit zero-padded decimal year, as the key format renders it.
pub open spec fn spec_pad4(y: nat) -> Seq<char> {
    if y < 10 {
        seq!['0', '0', '0'] + spec_dec(y)
    } else if y < 100 {
        seq!['0', '0'] + spec_dec(y)
    } else if y < 1000 {
        seq!['0'] + spec_dec(y)
    } else {
        spec_dec(y)
    }
}

/// The exact day-bucket string: non-padded month, non-padded day,
/// four-digit year, separated by `-`.
pub open spec fn spec_day_key(month: nat, day: nat, year: nat) -> Seq<char> {
    spec_dec(month) + seq!['-'] + spec_dec(day) + seq!['-'] + spec_pad4(year)
}

impl DayKey {
    /// A well-formed key holds a plausible calendar date with a year the
    /// four-digit rendering can carry.
    pub open spec fn wf(self) -> bool {
        &&& 1 <= self.month <= 12
        &&& 1 <= self.day <= 31
        &&& self.year <= 9999
    }

    /// The only constructor: clamping is left to the caller; out-of-range
    /// components are refused here.
    pub fn from_ymd(year: u64, month: u64, day: u64) -> (r: DayKey)
        requires
            1 <= month <= 12,
            1 <= day <= 31,
            year <= 9999,
        ensures
            r == (DayKey { year, month, day }),
            r.wf(),
    {
        DayKey { year, month, day }
    }

    /// The literal partition-key string for this day.
    pub fn render(&self) -> (r: String)
        requires
            self.wf(),
        ensures
            r@ == spec_day_key(self.month as nat, self.day as nat, self.year as nat),
    {
        let mut s = u64_to_string(self.month);
        s.push('-');
        let d = u64_to_string(self.day);
        s.append(d.as_str());
        s.push('-');
        if self.year < 10 {
            s.push('0');
            s.push('0');
            s.push('0');
        } else if self.year < 100 {
            s.push('0');
            s.push('0');
        } else if self.year < 1000 {
            s.push('0');
        }
        let y = u64_to_string(self.year);
        s.append(y.as_str());
        proof {
            assert(s@ =~= spec_day_key(self.month as nat, self.day as nat, self.year as nat));
        }
        s
    }
}

/// Relies on `chrono::Local::now` and the `Datelike` accessors: the month
/// ranges over 1 to 12 and the day of month over 1 to 31, as chrono
/// documents; nothing more is assumed of the clock or the time zone.
#[verifier::external_body]
fn today_local() -> (r: (i64, u64, u64))
    ensures
        1 <= r.1 <= 12,
        1 <= r.2 <= 31,
{
    let now = chrono::Local::now();
    (now.year() as i64, now.month() as u64, now.day() as u64)
}

/// The key for a clock reading: the year is clamped into the four-digit
/// range the key format can carry; for any realistic clock it passes
/// through unchanged.
pub fn key_of_parts(year: i64, month: u64, day: u64) -> (r: DayKey)
    requires
        1 <= month <= 12,
        1 <= day <= 31,
    ensures
        r.wf(),
        r.month == month,
        r.day == day,
        r.year == (if year < 0 {
            0
        } else if year > 9999 {
            9999
        } else {
            year as u64
        }),
{
    let y: u64 = if year < 0 {
        0
    } else if year > 9999 {
        9999
    } else {
        year as u64
    };
    DayKey::from_ymd(y, month, day)
}

/// The day-bucket key for the current local day.
pub fn today_key() -> (r: DayKey)
    ensures
        r.wf(),
{
    let (year, month, day) = today_local();
    key_of_parts(year, month, day)
}

/// The day-bucket string for the current local day.
pub fn get_timestamp() -> (r: String)
    ensures
        exists|k: DayKey|
            k.wf() && r@ == spec_day_key(k.month as nat, k.day as nat, k.year as nat),
{
    let k = today_key();
    let r = k.render();
    proof {
        assert(k.wf() && r@ == spec_day_key(k.month as nat, k.day as nat, k.year as nat));
    }
    r
}

} // verus!
