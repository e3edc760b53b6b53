//! Rendering of an uptime duration as text: years, days, hours, minutes and
//! seconds, with larger units omitted when zero.
use vstd::prelude::*;
use crate::numfmt::{dec_rep, dec_string};

verus! {

pub const SECONDS_IN_YEAR: u64 = 31_536_000;

pub const SECONDS_IN_DAY: u64 = 86_400;

pub const SECONDS_IN_HOUR: u64 = 3_600;

pub const SECONDS_IN_MINUTE: u64 = 60;

/// One unit part appended to the text so far: a separating space when text
/// is already there, the value, the unit letter; nothing for a zero value.
pub open spec fn spec_part(acc: Seq<char>, value: int, unit: char) -> Seq<char> {
    if value > 0 {
        (if acc.len() > 0 {
            acc + seq![' ']
        } else {
            acc
        }) + dec_rep(value as nat) + seq![unit]
    } else {
        acc
    }
}

/// The rendering of a duration: years, days, hours and minutes, each
/// omitted when zero, then the seconds when non-zero or alone; a zero or
/// negative duration is "0s".
pub open spec fn spec_format_duration(total_seconds: i64) -> Seq<char> {
    if total_seconds <= 0 {
        seq!['0', 's']
    } else {
        let years = total_seconds as int / (SECONDS_IN_YEAR as int);
        let r1 = total_seconds as int % (SECONDS_IN_YEAR as int);
        let days = r1 / (SECONDS_IN_DAY as int);
        let r2 = r1 % (SECONDS_IN_DAY as int);
        let hours = r2 / (SECONDS_IN_HOUR as int);
        let r3 = r2 % (SECONDS_IN_HOUR as int);
        let minutes = r3 / (SECONDS_IN_MINUTE as int);
        let seconds = r3 % (SECONDS_IN_MINUTE as int);
        let a = spec_part(
            spec_part(spec_part(spec_part(Seq::empty(), years, 'y'), days, 'd'), hours, 'h'),
            minutes,
            'm',
        );
        if seconds > 0 || a.len() == 0 {
            (if a.len() > 0 {
                a + seq![' ']
            } else {
                a
            }) + dec_rep(seconds as nat) + seq!['s']
        } else {
            a
        }
    }
}

/// Appends one unit part to the text so far.
fn append_part(result: &mut String, value: u64, unit: &str)
    requires
        unit@.len() == 1,
    ensures
        final(result)@ == spec_part(old(result)@, value as int, unit@[0]),
{
    proof {
        reveal_strlit(" ");
    }
    if value > 0 {
        if result.as_str().unicode_len() > 0 {
            result.append(" ");
        }
        let d = dec_string(value);
        result.append(d.as_str());
        result.append(unit);
        proof {
            assert(unit@ =~= seq![unit@[0]]);
        }
    }
}

/// Renders a duration in seconds as text, as the statistics page shows it.
pub fn format_duration(total_seconds: i64) -> (r: String)
    ensures
        r@ == spec_format_duration(total_seconds),
{
    proof {
        reveal_strlit("0s");
        reveal_strlit(" ");
        reveal_strlit("s");
        reveal_strlit("y");
        reveal_strlit("d");
        reveal_strlit("h");
        reveal_strlit("m");
    }
    if total_seconds <= 0 {
        let r = "0s".to_owned();
        proof {
            assert(r@ =~= seq!['0', 's']);
        }
        return r;
    }
    let mut t: u64 = total_seconds as u64;
    let years: u64 = t / SECONDS_IN_YEAR;
    t = t % SECONDS_IN_YEAR;
    let days: u64 = t / SECONDS_IN_DAY;
    t = t % SECONDS_IN_DAY;
    let hours: u64 = t / SECONDS_IN_HOUR;
    t = t % SECONDS_IN_HOUR;
    let minutes: u64 = t / SECONDS_IN_MINUTE;
    let seconds: u64 = t % SECONDS_IN_MINUTE;
    let mut result = String::new();
    append_part(&mut result, years, "y");
    append_part(&mut result, days, "d");
    append_part(&mut result, hours, "h");
    append_part(&mut result, minutes, "m");
    if seconds > 0 || result.as_str().unicode_len() == 0 {
        if result.as_str().unicode_len() > 0 {
            result.append(" ");
        }
        let d = dec_string(seconds);
        result.append(d.as_str());
        result.append("s");
    }
    result
}

} // verus!
