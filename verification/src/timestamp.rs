//! Commit timestamps: a plain-value date-time with timezone offset, parsed
//! from the ISO-8601-strict form that the history feed emits, and ordered by
//! the instant it denotes.

use vstd::prelude::*;
use chrono::Datelike;
use chrono::Timelike;

verus! {

/// A date-time with timezone offset, held as plain calendar fields.
#[derive(Clone, Copy, Debug, PartialEq, Eq, Structural)]
pub struct Timestamp {
    pub year: u32,
    pub month: u32,
    pub day: u32,
    pub hour: u32,
    pub minute: u32,
    pub second: u32,
    /// Signed offset from UTC, in minutes.
    pub offset_minutes: i32,
}

impl Timestamp {
    /// Field ranges every timestamp in the engine satisfies.
    pub open spec fn wf(self) -> bool {
        &&& self.year <= 9999
        &&& 1 <= self.month <= 12
        &&& 1 <= self.day <= 31
        &&& self.hour <= 23
        &&& self.minute <= 59
        &&& self.second <= 59
        &&& -1440 < self.offset_minutes < 1440
    }

    /// Day count of the date part on a proleptic Gregorian calendar
    /// (offset by a fixed constant); strictly increasing in (year, month, day).
    pub open spec fn civil_days(self) -> int {
        let y: int = if self.month <= 2 {
            self.year + 399
        } else {
            self.year + 400
        };
        let era: int = y / 400;
        let yoe: int = y % 400;
        let mp: int = if self.month > 2 {
            self.month - 3
        } else {
            self.month + 9
        };
        let doy: int = (153 * mp + 2) / 5 + self.day - 1;
        let doe: int = yoe * 365 + yoe / 4 - yoe / 100 + doy;
        era * 146097 + doe
    }

    /// The UTC instant this timestamp denotes, in seconds on an arbitrary
    /// fixed origin: the total order used for release bucketing.
    pub open spec fn instant(self) -> int {
        self.civil_days() * 86400 + self.hour * 3600 + self.minute * 60 + self.second
            - self.offset_minutes * 60
    }

    /// Computes the instant of a well-formed timestamp.
    pub fn instant_val(&self) -> (r: i64)
        requires
            self.wf(),
        ensures
            r == self.instant(),
    {
        let y: u64 = if self.month <= 2 {
            self.year as u64 + 399
        } else {
            self.year as u64 + 400
        };
        let era: u64 = y / 400;
        let yoe: u64 = y % 400;
        let mp: u64 = if self.month > 2 {
            self.month as u64 - 3
        } else {
            self.month as u64 + 9
        };
        let doy: u64 = (153 * mp + 2) / 5 + self.day as u64 - 1;
        let doe: u64 = yoe * 365 + yoe / 4 - yoe / 100 + doy;
        let days: u64 = era * 146097 + doe;
        let secs: u64 = days * 86400 + self.hour as u64 * 3600 + self.minute as u64 * 60
            + self.second as u64;
        proof {
            assert(days == self.civil_days());
            assert(secs <= 3_300_000_000_000);
        }
        secs as i64 - (self.offset_minutes as i64) * 60
    }
}

/// True for the ten decimal digit characters.
pub open spec fn is_digit(c: char) -> bool {
    c == '0' || c == '1' || c == '2' || c == '3' || c == '4' || c == '5' || c == '6' || c == '7'
        || c == '8' || c == '9'
}

/// Numeric value of a decimal digit character (0 for non-digits).
pub open spec fn digit_val(c: char) -> int {
    if c == '0' {
        0
    } else if c == '1' {
        1
    } else if c == '2' {
        2
    } else if c == '3' {
        3
    } else if c == '4' {
        4
    } else if c == '5' {
        5
    } else if c == '6' {
        6
    } else if c == '7' {
        7
    } else if c == '8' {
        8
    } else if c == '9' {
        9
    } else {
        0
    }
}

/// Decides whether `c` is a decimal digit.
pub fn is_digit_exec(c: char) -> (r: bool)
    ensures
        r == is_digit(c),
{
    c == '0' || c == '1' || c == '2' || c == '3' || c == '4' || c == '5' || c == '6' || c == '7'
        || c == '8' || c == '9'
}

/// Numeric value of a decimal digit character.
pub fn digit_val_exec(c: char) -> (r: u32)
    requires
        is_digit(c),
    ensures
        r == digit_val(c),
{
    if c == '0' {
        0
    } else if c == '1' {
        1
    } else if c == '2' {
        2
    } else if c == '3' {
        3
    } else if c == '4' {
        4
    } else if c == '5' {
        5
    } else if c == '6' {
        6
    } else if c == '7' {
        7
    } else if c == '8' {
        8
    } else {
        9
    }
}

/// Value of the two digits of `s` at `i` and `i + 1`.
pub open spec fn two_digit_val(s: Seq<char>, i: int) -> int {
    digit_val(s[i]) * 10 + digit_val(s[i + 1])
}

/// Value of the four digits of `s` starting at `i`.
pub open spec fn four_digit_val(s: Seq<char>, i: int) -> int {
    digit_val(s[i]) * 1000 + digit_val(s[i + 1]) * 100 + digit_val(s[i + 2]) * 10 + digit_val(
        s[i + 3],
    )
}

/// True when `s` has digits at all the date-time positions and the fixed
/// separators `-`, `-`, `T`, `:`, `:` where the strict form puts them.
pub open spec fn iso_core_shape(s: Seq<char>) -> bool {
    &&& s.len() >= 19
    &&& is_digit(s[0]) && is_digit(s[1]) && is_digit(s[2]) && is_digit(s[3])
    &&& s[4] == '-'
    &&& is_digit(s[5]) && is_digit(s[6])
    &&& s[7] == '-'
    &&& is_digit(s[8]) && is_digit(s[9])
    &&& s[10] == 'T'
    &&& is_digit(s[11]) && is_digit(s[12])
    &&& s[13] == ':'
    &&& is_digit(s[14]) && is_digit(s[15])
    &&& s[16] == ':'
    &&& is_digit(s[17]) && is_digit(s[18])
}

/// The timezone offset encoded by the tail of `s`, in minutes: `Z` for UTC,
/// or a signed `HH:MM`; `None` when the tail is not one of those.
pub open spec fn iso_offset_minutes(s: Seq<char>) -> Option<int> {
    if s.len() == 20 && s[19] == 'Z' {
        Some(0)
    } else if s.len() == 25 && (s[19] == '+' || s[19] == '-') && is_digit(s[20]) && is_digit(s[21])
        && s[22] == ':' && is_digit(s[23]) && is_digit(s[24]) && two_digit_val(s, 20) <= 23
        && two_digit_val(s, 23) <= 59 {
        if s[19] == '+' {
            Some(two_digit_val(s, 20) * 60 + two_digit_val(s, 23))
        } else {
            Some(-(two_digit_val(s, 20) * 60 + two_digit_val(s, 23)))
        }
    } else {
        None
    }
}

/// The timestamp an ISO-8601-strict string denotes: `YYYY-MM-DDTHH:MM:SS`
/// followed by `Z` or a signed `HH:MM` offset, with all fields in range.
pub open spec fn iso_spec(s: Seq<char>) -> Option<Timestamp> {
    if iso_core_shape(s) && iso_offset_minutes(s) is Some {
        let t = Timestamp {
            year: four_digit_val(s, 0) as u32,
            month: two_digit_val(s, 5) as u32,
            day: two_digit_val(s, 8) as u32,
            hour: two_digit_val(s, 11) as u32,
            minute: two_digit_val(s, 14) as u32,
            second: two_digit_val(s, 17) as u32,
            offset_minutes: iso_offset_minutes(s).unwrap() as i32,
        };
        if t.wf() {
            Some(t)
        } else {
            None
        }
    } else {
        None
    }
}

/// Reads the two digits of `v` at `i` and `i + 1`.
fn read_two(v: &Vec<char>, i: usize) -> (r: u32)
    requires
        i + 2 <= v@.len(),
        is_digit(v@[i as int]),
        is_digit(v@[i as int + 1]),
    ensures
        r == two_digit_val(v@, i as int),
        r <= 99,
{
    let n = v.len();
    proof {
        assert(i + 1 < n);
    }
    digit_val_exec(v[i]) * 10 + digit_val_exec(v[i + 1])
}

/// Parses an ISO-8601-strict date-time with offset; returns exactly what
/// `iso_spec` denotes for the input.
pub fn parse_iso_timestamp(v: &Vec<char>) -> (r: Option<Timestamp>)
    ensures
        r == iso_spec(v@),
        r matches Some(t) ==> t.wf(),
{
    if v.len() != 20 && v.len() != 25 {
        return None;
    }
    let shape = is_digit_exec(v[0]) && is_digit_exec(v[1]) && is_digit_exec(v[2]) && is_digit_exec(
        v[3],
    ) && v[4] == '-' && is_digit_exec(v[5]) && is_digit_exec(v[6]) && v[7] == '-' && is_digit_exec(
        v[8],
    ) && is_digit_exec(v[9]) && v[10] == 'T' && is_digit_exec(v[11]) && is_digit_exec(v[12])
        && v[13] == ':' && is_digit_exec(v[14]) && is_digit_exec(v[15]) && v[16] == ':'
        && is_digit_exec(v[17]) && is_digit_exec(v[18]);
    if !shape {
        return None;
    }
    let offset_minutes: i32 = if v.len() == 20 {
        if v[19] != 'Z' {
            return None;
        }
        0
    } else {
        let sign_char = v[19];
        if sign_char != '+' && sign_char != '-' {
            return None;
        }
        if !(is_digit_exec(v[20]) && is_digit_exec(v[21]) && v[22] == ':' && is_digit_exec(v[23])
            && is_digit_exec(v[24])) {
            return None;
        }
        let oh = read_two(v, 20);
        let om = read_two(v, 23);
        if oh > 23 || om > 59 {
            return None;
        }
        let total = (oh * 60 + om) as i32;
        if sign_char == '+' {
            total
        } else {
            -total
        }
    };
    let year = digit_val_exec(v[0]) * 1000 + digit_val_exec(v[1]) * 100 + digit_val_exec(v[2]) * 10
        + digit_val_exec(v[3]);
    let month = read_two(v, 5);
    let day = read_two(v, 8);
    let hour = read_two(v, 11);
    let minute = read_two(v, 14);
    let second = read_two(v, 17);
    let t = Timestamp { year, month, day, hour, minute, second, offset_minutes };
    if 1 <= month && month <= 12 && 1 <= day && day <= 31 && hour <= 23 && minute <= 59 && second
        <= 59 {
        Some(t)
    } else {
        None
    }
}

/// Relies on `chrono::Local::now`, the `Datelike`/`Timelike` field accessors
/// on its local representation, and `FixedOffset::local_minus_utc`, for the
/// current wall-clock time; chrono documents the field ranges stated here.
/// The year is passed through raw and bounded by verified code afterwards.
#[verifier::external_body]
fn now_parts() -> (r: (i32, u32, u32, u32, u32, u32, i32))
    ensures
        1 <= r.1 <= 12,
        1 <= r.2 <= 31,
        r.3 <= 23,
        r.4 <= 59,
        r.5 <= 59,
        -86400 < r.6 < 86400,
{
    let now = chrono::Local::now();
    let t = now.naive_local();
    (
        t.year(),
        t.month(),
        t.day(),
        t.hour(),
        t.minute(),
        t.second(),
        now.offset().local_minus_utc(),
    )
}

/// The current wall-clock time as a well-formed timestamp; years outside the
/// engine's range are clamped to it.
pub fn now_timestamp() -> (r: Timestamp)
    ensures
        r.wf(),
{
    let (y, month, day, hour, minute, second, off_secs) = now_parts();
    let year: u32 = if y < 0 {
        0
    } else if y > 9999 {
        9999
    } else {
        y as u32
    };
    Timestamp { year, month, day, hour, minute, second, offset_minutes: off_secs / 60 }
}

} // verus!
