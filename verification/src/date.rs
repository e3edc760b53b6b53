//! Calendar dates as plain values: validity, the `dd-mm-yyyy` textual form
//! used in document headers, and a total order for sorting by date.
use vstd::prelude::*;
use crate::numfmt::digit_char;

verus! {

/// A calendar date. Valid dates (see [`date_valid`]) have a real month and a
/// day that exists in that month, leap years included.
#[derive(Clone, Copy, PartialEq, Eq, Structural, Debug)]
pub struct Date {
    pub day: u8,
    pub month: u8,
    pub year: u16,
}

pub open spec fn is_leap_year(y: int) -> bool {
    (y % 4 == 0 && y % 100 != 0) || y % 400 == 0
}

pub open spec fn days_in_month(y: int, m: int) -> int {
    if m == 2 {
        if is_leap_year(y) {
            29
        } else {
            28
        }
    } else if m == 4 || m == 6 || m == 9 || m == 11 {
        30
    } else {
        31
    }
}

pub open spec fn date_valid(d: Date) -> bool {
    &&& 1 <= d.month <= 12
    &&& 1 <= d.day <= days_in_month(d.year as int, d.month as int)
}

/// Encodes the date as an integer that orders dates chronologically.
pub open spec fn date_num(d: Date) -> int {
    d.year * 10000 + d.month * 100 + d.day
}

pub open spec fn is_digit(c: char) -> bool {
    48 <= c as u32 <= 57
}

pub open spec fn digit_val(c: char) -> int {
    c as u32 - 48
}

/// The date denoted by a `dd-mm-yyyy` string, if it is one and is valid.
pub open spec fn spec_parse_date(s: Seq<char>) -> Option<Date> {
    if s.len() == 10 && is_digit(s[0]) && is_digit(s[1]) && s[2] == '-' && is_digit(s[3])
        && is_digit(s[4]) && s[5] == '-' && is_digit(s[6]) && is_digit(s[7]) && is_digit(s[8])
        && is_digit(s[9]) {
        let d = digit_val(s[0]) * 10 + digit_val(s[1]);
        let m = digit_val(s[3]) * 10 + digit_val(s[4]);
        let y = digit_val(s[6]) * 1000 + digit_val(s[7]) * 100 + digit_val(s[8]) * 10 + digit_val(
            s[9],
        );
        let date = Date { day: d as u8, month: m as u8, year: y as u16 };
        if date_valid(date) {
            Some(date)
        } else {
            None
        }
    } else {
        None
    }
}

/// The `dd-mm-yyyy` form of a date whose year is below 10000.
pub open spec fn spec_format_date(d: Date) -> Seq<char> {
    seq![
        digit_char(d.day as int / 10),
        digit_char(d.day as int % 10),
        '-',
        digit_char(d.month as int / 10),
        digit_char(d.month as int % 10),
        '-',
        digit_char(d.year as int / 1000),
        digit_char((d.year as int / 100) % 10),
        digit_char((d.year as int / 10) % 10),
        digit_char(d.year as int % 10),
    ]
}

pub fn is_leap_year_exec(y: u16) -> (r: bool)
    ensures
        r == is_leap_year(y as int),
{
    (y % 4 == 0 && y % 100 != 0) || y % 400 == 0
}

pub fn days_in_month_exec(y: u16, m: u8) -> (r: u8)
    ensures
        r == days_in_month(y as int, m as int),
{
    if m == 2 {
        if is_leap_year_exec(y) {
            29
        } else {
            28
        }
    } else if m == 4 || m == 6 || m == 9 || m == 11 {
        30
    } else {
        31
    }
}

impl Date {
    /// Whether this is a real calendar date.
    pub fn valid(&self) -> (r: bool)
        ensures
            r == date_valid(*self),
    {
        1 <= self.month && self.month <= 12 && 1 <= self.day && self.day <= days_in_month_exec(
            self.year,
            self.month,
        )
    }

    /// The chronological key of this date: later dates have larger keys.
    pub fn key(&self) -> (r: u32)
        ensures
            r == date_num(*self),
    {
        self.year as u32 * 10000 + self.month as u32 * 100 + self.day as u32
    }
}

/// Parses a `dd-mm-yyyy` string into a valid date.
pub fn parse_date(s: &str) -> (r: Option<Date>)
    ensures
        r == spec_parse_date(s@),
{
    let n = s.unicode_len();
    if n != 10 {
        return None;
    }
    let c0 = s.get_char(0);
    let c1 = s.get_char(1);
    let c2 = s.get_char(2);
    let c3 = s.get_char(3);
    let c4 = s.get_char(4);
    let c5 = s.get_char(5);
    let c6 = s.get_char(6);
    let c7 = s.get_char(7);
    let c8 = s.get_char(8);
    let c9 = s.get_char(9);
    if !(is_digit_char(c0) && is_digit_char(c1) && c2 == '-' && is_digit_char(c3) && is_digit_char(
        c4,
    ) && c5 == '-' && is_digit_char(c6) && is_digit_char(c7) && is_digit_char(c8) && is_digit_char(
        c9,
    )) {
        return None;
    }
    let d: u8 = (digit_val_char(c0) * 10 + digit_val_char(c1)) as u8;
    let m: u8 = (digit_val_char(c3) * 10 + digit_val_char(c4)) as u8;
    let y: u16 = (digit_val_char(c6) as u16 * 1000 + digit_val_char(c7) as u16 * 100
        + digit_val_char(c8) as u16 * 10 + digit_val_char(c9) as u16);
    let date = Date { day: d, month: m, year: y };
    if date.valid() {
        Some(date)
    } else {
        None
    }
}

/// Whether the character is a decimal digit.
pub fn is_digit_char(c: char) -> (r: bool)
    ensures
        r == is_digit(c),
{
    let v = c as u32;
    48 <= v && v <= 57
}

/// The value of a decimal digit character.
pub fn digit_val_char(c: char) -> (r: u32)
    requires
        is_digit(c),
    ensures
        r == digit_val(c),
{
    c as u32 - 48
}

/// Renders a valid date with year below 10000 in its `dd-mm-yyyy` form.
pub fn format_date(d: &Date) -> (r: String)
    requires
        date_valid(*d),
        d.year < 10000,
    ensures
        r@ == spec_format_date(*d),
{
    proof {
        reveal_strlit("-");
    }
    let mut s = String::new();
    s.append(crate::numfmt::digit_str(d.day as u64 / 10));
    s.append(crate::numfmt::digit_str(d.day as u64 % 10));
    s.append("-");
    s.append(crate::numfmt::digit_str(d.month as u64 / 10));
    s.append(crate::numfmt::digit_str(d.month as u64 % 10));
    s.append("-");
    s.append(crate::numfmt::digit_str(d.year as u64 / 1000));
    s.append(crate::numfmt::digit_str((d.year as u64 / 100) % 10));
    s.append(crate::numfmt::digit_str((d.year as u64 / 10) % 10));
    s.append(crate::numfmt::digit_str(d.year as u64 % 10));
    proof {
        assert(s@ =~= spec_format_date(*d));
    }
    s
}

/// A valid date with year below 10000, rendered to text and parsed back, is
/// returned unchanged: the two textual conversions invert each other.
pub proof fn lemma_date_round_trip(d: Date)
    requires
        date_valid(d),
        d.year < 10000,
    ensures
        spec_parse_date(spec_format_date(d)) == Some(d),
{
    let s = spec_format_date(d);
    assert(s.len() == 10);
    assert(digit_val(digit_char(d.day as int / 10)) == d.day as int / 10);
    assert(digit_val(digit_char(d.day as int % 10)) == d.day as int % 10);
    assert(digit_val(digit_char(d.month as int / 10)) == d.month as int / 10);
    assert(digit_val(digit_char(d.month as int % 10)) == d.month as int % 10);
    assert(digit_val(digit_char(d.year as int / 1000)) == d.year as int / 1000);
    assert(digit_val(digit_char((d.year as int / 100) % 10)) == (d.year as int / 100) % 10);
    assert(digit_val(digit_char((d.year as int / 10) % 10)) == (d.year as int / 10) % 10);
    assert(digit_val(digit_char(d.year as int % 10)) == d.year as int % 10);
    assert(d.day as int / 10 * 10 + d.day as int % 10 == d.day as int);
    assert(d.month as int / 10 * 10 + d.month as int % 10 == d.month as int);
    assert((d.year as int / 1000) * 1000 + ((d.year as int / 100) % 10) * 100 + ((d.year as int
        / 10) % 10) * 10 + d.year as int % 10 == d.year as int) by (nonlinear_arith)
        requires
            d.year < 10000,
    ;
}

} // verus!
