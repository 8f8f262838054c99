//! Rendering of elapsed voice time.
//!
//! Durations are carried as whole tenths of a second, the finest grain the
//! rendered text ever shows: every numeric component is printed either as
//! an integer (when its value is whole) or with exactly one decimal digit.
//! A component that is a sixtieth of the carried grain (the minutes shown
//! beside whole hours) is rounded half-up to the nearest tenth.

use vstd::prelude::*;
use crate::strutil::{digit_char, digit_of, spec_dec, u64_to_string};

verus! {

/// Tenths of a second in one minute.
pub const TENTHS_PER_MINUTE: u64 = 600;

/// Tenths of a second in one hour.
pub const TENTHS_PER_HOUR: u64 = 36000;

/// `<n> <name>` with the unit pluralized unless the value is exactly one.
pub open spec fn spec_unit_whole(name: Seq<char>, n: nat) -> Seq<char> {
    spec_dec(n) + seq![' '] + name + if n == 1 {
        Seq::<char>::empty()
    } else {
        seq!['s']
    }
}

/// `<d/10>.<d%10> <name>s`: a value in tenths printed with one decimal
/// digit; such a value is never exactly one, so the unit is plural.
pub open spec fn spec_unit_decimal(name: Seq<char>, d: nat) -> Seq<char> {
    spec_dec(d / 10) + seq!['.'] + seq![digit_char(d % 10)] + seq![' '] + name + seq!['s']
}

/// A value carried exactly in tenths: whole values print as integers,
/// others with their one exact decimal digit.
pub open spec fn spec_unit_tenths(name: Seq<char>, t: nat) -> Seq<char> {
    if t % 10 == 0 {
        spec_unit_whole(name, t / 10)
    } else {
        spec_unit_decimal(name, t)
    }
}

/// The full rendering of a duration of `t` tenths of a second:
/// above an hour, whole hours and (rounded) minutes; above a minute,
/// whole minutes and exact seconds; otherwise seconds alone.
pub open spec fn spec_format_tenths(t: nat) -> Seq<char> {
    if t > 36000 {
        spec_unit_whole("hour"@, t / 36000) + " and "@ + if (t % 36000) % 600 == 0 {
            spec_unit_whole("minute"@, (t % 36000) / 600)
        } else {
            spec_unit_decimal("minute"@, ((t % 36000) + 30) / 60)
        }
    } else if t > 600 {
        spec_unit_whole("minute"@, t / 600) + " and "@ + spec_unit_tenths("second"@, t % 600)
    } else {
        spec_unit_tenths("second"@, t)
    }
}

fn unit_whole(name: &str, n: u64) -> (r: String)
    ensures
        r@ == spec_unit_whole(name@, n as nat),
{
    let mut s = u64_to_string(n);
    s.push(' ');
    s.append(name);
    if n != 1 {
        s.push('s');
    }
    proof {
        assert(s@ =~= spec_unit_whole(name@, n as nat));
    }
    s
}

fn unit_decimal(name: &str, d: u64) -> (r: String)
    ensures
        r@ == spec_unit_decimal(name@, d as nat),
{
    let mut s = u64_to_string(d / 10);
    s.push('.');
    s.push(digit_of(d % 10));
    s.push(' ');
    s.append(name);
    s.push('s');
    proof {
        assert(s@ =~= spec_unit_decimal(name@, d as nat));
    }
    s
}

fn unit_tenths(name: &str, t: u64) -> (r: String)
    ensures
        r@ == spec_unit_tenths(name@, t as nat),
{
    if t % 10 == 0 {
        unit_whole(name, t / 10)
    } else {
        unit_decimal(name, t)
    }
}

/// Renders `tenths` tenths of a second as the human-readable duration the
/// session and daily reports carry, for example `1 hour and 1 minute`,
/// `1 minute and 30 seconds` or `45.5 seconds`.
pub fn format_from_seconds(tenths: u64) -> (r: String)
    ensures
        r@ == spec_format_tenths(tenths as nat),
{
    if tenths > TENTHS_PER_HOUR {
        let hours = tenths / TENTHS_PER_HOUR;
        let rem = tenths % TENTHS_PER_HOUR;
        let h = unit_whole("hour", hours);
        let m = if rem % TENTHS_PER_MINUTE == 0 {
            unit_whole("minute", rem / TENTHS_PER_MINUTE)
        } else {
            unit_decimal("minute", (rem + 30) / 60)
        };
        let joined = h.concat(" and ");
        let joined = joined.concat(m.as_str());
        proof {
            assert(joined@ =~= spec_format_tenths(tenths as nat));
        }
        joined
    } else if tenths > TENTHS_PER_MINUTE {
        let m = unit_whole("minute", tenths / TENTHS_PER_MINUTE);
        let s = unit_tenths("second", tenths % TENTHS_PER_MINUTE);
        let joined = m.concat(" and ");
        let joined = joined.concat(s.as_str());
        proof {
            assert(joined@ =~= spec_format_tenths(tenths as nat));
        }
        joined
    } else {
        unit_tenths("second", tenths)
    }
}

} // verus!
