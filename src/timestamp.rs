//! The timestamp of an access-log line: `DD/Mon/YYYY:HH:MM:SS +ZZZZ`.
use vstd::prelude::*;

use crate::text::is_digit;

verus! {

pub const SLASH: u8 = 0x2F;
pub const COLON: u8 = 0x3A;
pub const SPACE: u8 = 0x20;
pub const PLUS: u8 = 0x2B;
pub const MINUS: u8 = 0x2D;

/// A calendar date and time of day together with its offset from UTC.
#[derive(Clone, Copy, Debug, PartialEq, Eq, Structural)]
pub struct Timestamp {
    pub year: i32,
    /// 1 for January through 12 for December.
    pub month: u8,
    pub day: u8,
    pub hour: u8,
    pub minute: u8,
    pub second: u8,
    /// Offset from UTC in minutes, east positive.
    pub offset_minutes: i16,
}

impl Timestamp {
    /// The fields name an instant: a day of the given month and year
    /// (years -9999 through 9999), a time of day without leap second, and
    /// an offset of at most 25 hours 59 minutes either way.
    pub open spec fn valid(&self) -> bool {
        -9999 <= self.year <= 9999
        && 1 <= self.month <= 12
        && 1 <= self.day <= days_in_month(self.month as nat, leap_year(self.year as int))
        && self.hour < 24
        && self.minute < 60
        && self.second < 60
        && -1559 <= self.offset_minutes <= 1559
    }
}

/// The part of a timestamp that a parse error is about.
#[derive(Clone, Copy, Debug, PartialEq, Eq, Structural)]
pub enum TimestampField {
    Day,
    Month,
    Year,
    Hour,
    Minute,
    Second,
    OffsetHour,
    OffsetMinute,
}

/// Why a timestamp did not parse.
#[derive(Clone, Copy, Debug, PartialEq, Eq, Structural)]
pub enum TimestampError {
    /// The field is missing, is not of its fixed form, or is out of its range.
    Malformed(TimestampField),
    /// The separator that follows the field is missing.
    MissingSeparator(TimestampField),
    /// Bytes follow the UTC offset.
    TrailingData,
    /// Every field is well-formed, but they name no instant (the 31st of
    /// a 30-day month, a leap second).
    NotADate,
}

/// Leap years of the proleptic Gregorian calendar, counted astronomically.
pub open spec fn leap_year(year: int) -> bool {
    year % 4 == 0 && (year % 100 != 0 || year % 400 == 0)
}

/// Number of days in `month` (1 to 12).
pub open spec fn days_in_month(month: nat, leap: bool) -> nat {
    if month == 2 {
        if leap { 29 } else { 28 }
    } else if month == 4 || month == 6 || month == 9 || month == 11 {
        30
    } else {
        31
    }
}

/// Month number of an English three-letter month abbreviation, 0 for none.
pub open spec fn month_number(a: u8, b: u8, c: u8) -> u8 {
    if a == 0x4A && b == 0x61 && c == 0x6E { 1 } // Jan
    else if a == 0x46 && b == 0x65 && c == 0x62 { 2 } // Feb
    else if a == 0x4D && b == 0x61 && c == 0x72 { 3 } // Mar
    else if a == 0x41 && b == 0x70 && c == 0x72 { 4 } // Apr
    else if a == 0x4D && b == 0x61 && c == 0x79 { 5 } // May
    else if a == 0x4A && b == 0x75 && c == 0x6E { 6 } // Jun
    else if a == 0x4A && b == 0x75 && c == 0x6C { 7 } // Jul
    else if a == 0x41 && b == 0x75 && c == 0x67 { 8 } // Aug
    else if a == 0x53 && b == 0x65 && c == 0x70 { 9 } // Sep
    else if a == 0x4F && b == 0x63 && c == 0x74 { 10 } // Oct
    else if a == 0x4E && b == 0x6F && c == 0x76 { 11 } // Nov
    else if a == 0x44 && b == 0x65 && c == 0x63 { 12 } // Dec
    else { 0 }
}

/// The two ASCII digits at `s[i..i + 2]` as a number.
pub open spec fn two_digits(s: Seq<u8>, i: int) -> Option<nat> {
    if 0 <= i && i + 2 <= s.len() && is_digit(s[i]) && is_digit(s[i + 1]) {
        Some(((s[i] - 0x30) * 10 + (s[i + 1] - 0x30)) as nat)
    } else {
        None
    }
}

/// The four ASCII digits at `s[i..i + 4]` as a number.
pub open spec fn four_digits(s: Seq<u8>, i: int) -> Option<nat> {
    match (two_digits(s, i), two_digits(s, i + 2)) {
        (Some(hi), Some(lo)) => Some(hi * 100 + lo),
        _ => None,
    }
}

/// `s[i]` is the byte `c`.
pub open spec fn byte_at(s: Seq<u8>, i: int, c: u8) -> bool {
    0 <= i < s.len() && s[i] == c
}

/// Length of an optional `+` or `-` at `s[i]`.
pub open spec fn sign_len(s: Seq<u8>, i: int) -> int {
    if byte_at(s, i, PLUS) || byte_at(s, i, MINUS) { 1 } else { 0 }
}

/// What the timestamp text `s` denotes, or the first field in reading order
/// that is wrong.
pub open spec fn timestamp_of(s: Seq<u8>) -> Result<Timestamp, TimestampError> {
    let day = two_digits(s, 0);
    let month = if s.len() >= 6 { month_number(s[3], s[4], s[5]) } else { 0 };
    let y = 7 + sign_len(s, 7);
    let year = four_digits(s, y);
    let hour = two_digits(s, y + 5);
    let minute = two_digits(s, y + 8);
    let second = two_digits(s, y + 11);
    let o = y + 14 + sign_len(s, y + 14);
    let oh = two_digits(s, o);
    let om = two_digits(s, o + 2);
    if day is None || day->0 < 1 || day->0 > 31 {
        Err(TimestampError::Malformed(TimestampField::Day))
    } else if !byte_at(s, 2, SLASH) {
        Err(TimestampError::MissingSeparator(TimestampField::Day))
    } else if month == 0 {
        Err(TimestampError::Malformed(TimestampField::Month))
    } else if !byte_at(s, 6, SLASH) {
        Err(TimestampError::MissingSeparator(TimestampField::Month))
    } else if year is None {
        Err(TimestampError::Malformed(TimestampField::Year))
    } else if !byte_at(s, y + 4, COLON) {
        Err(TimestampError::MissingSeparator(TimestampField::Year))
    } else if hour is None || hour->0 > 23 {
        Err(TimestampError::Malformed(TimestampField::Hour))
    } else if !byte_at(s, y + 7, COLON) {
        Err(TimestampError::MissingSeparator(TimestampField::Hour))
    } else if minute is None || minute->0 > 59 {
        Err(TimestampError::Malformed(TimestampField::Minute))
    } else if !byte_at(s, y + 10, COLON) {
        Err(TimestampError::MissingSeparator(TimestampField::Minute))
    } else if second is None || second->0 > 60 {
        Err(TimestampError::Malformed(TimestampField::Second))
    } else if !byte_at(s, y + 13, SPACE) {
        Err(TimestampError::MissingSeparator(TimestampField::Second))
    } else if oh is None || oh->0 > 25 {
        Err(TimestampError::Malformed(TimestampField::OffsetHour))
    } else if om is None || om->0 > 59 {
        Err(TimestampError::Malformed(TimestampField::OffsetMinute))
    } else if s.len() > o + 4 {
        Err(TimestampError::TrailingData)
    } else {
        let year_value: int = if byte_at(s, 7, MINUS) { -year->0 } else { year->0 as int };
        if second->0 > 59 || day->0 > days_in_month(month as nat, leap_year(year_value)) {
            Err(TimestampError::NotADate)
        } else {
            let magnitude: int = (oh->0 * 60 + om->0) as int;
            Ok(Timestamp {
                year: year_value as i32,
                month,
                day: day->0 as u8,
                hour: hour->0 as u8,
                minute: minute->0 as u8,
                second: second->0 as u8,
                offset_minutes: (if byte_at(s, y + 14, MINUS) { -magnitude } else { magnitude }) as i16,
            })
        }
    }
}

/// Every timestamp that parses is valid.
pub proof fn lemma_parsed_timestamp_is_valid(s: Seq<u8>)
    ensures
        timestamp_of(s) matches Ok(t) ==> t.valid(),
{
}

/// Relies on time::util::is_leap_year: whether a year is a leap year of the
/// proleptic Gregorian calendar.
#[verifier::external_body]
fn is_leap_year(year: i32) -> (r: bool)
    ensures
        r == leap_year(year as int),
{
    time::util::is_leap_year(year)
}

fn month_of(a: u8, b: u8, c: u8) -> (r: u8)
    ensures
        r == month_number(a, b, c),
{
    if a == 0x4A && b == 0x61 && c == 0x6E { 1 } // Jan
    else if a == 0x46 && b == 0x65 && c == 0x62 { 2 } // Feb
    else if a == 0x4D && b == 0x61 && c == 0x72 { 3 } // Mar
    else if a == 0x41 && b == 0x70 && c == 0x72 { 4 } // Apr
    else if a == 0x4D && b == 0x61 && c == 0x79 { 5 } // May
    else if a == 0x4A && b == 0x75 && c == 0x6E { 6 } // Jun
    else if a == 0x4A && b == 0x75 && c == 0x6C { 7 } // Jul
    else if a == 0x41 && b == 0x75 && c == 0x67 { 8 } // Aug
    else if a == 0x53 && b == 0x65 && c == 0x70 { 9 } // Sep
    else if a == 0x4F && b == 0x63 && c == 0x74 { 10 } // Oct
    else if a == 0x4E && b == 0x6F && c == 0x76 { 11 } // Nov
    else if a == 0x44 && b == 0x65 && c == 0x63 { 12 } // Dec
    else { 0 }
}

fn days_in_month_of(month: u8, leap: bool) -> (r: u8)
    ensures
        r as nat == days_in_month(month as nat, leap),
{
    if month == 2 {
        if leap { 29 } else { 28 }
    } else if month == 4 || month == 6 || month == 9 || month == 11 {
        30
    } else {
        31
    }
}

fn two_digits_at(s: &[u8], i: usize) -> (r: Option<u8>)
    ensures
        r matches Some(v) ==> two_digits(s@, i as int) == Some(v as nat) && v <= 99,
        r is None ==> two_digits(s@, i as int) is None,
{
    if i < s.len() && s.len() - i >= 2 && 0x30 <= s[i] && s[i] <= 0x39 && 0x30 <= s[i + 1] && s[i + 1] <= 0x39 {
        Some((s[i] - 0x30) * 10 + (s[i + 1] - 0x30))
    } else {
        None
    }
}

fn byte_is(s: &[u8], i: usize, c: u8) -> (r: bool)
    ensures
        r == byte_at(s@, i as int, c),
{
    i < s.len() && s[i] == c
}

fn sign_len_at(s: &[u8], i: usize) -> (r: usize)
    ensures
        r as int == sign_len(s@, i as int),
{
    if byte_is(s, i, PLUS) || byte_is(s, i, MINUS) { 1 } else { 0 }
}

/// Reads a log timestamp, `DD/Mon/YYYY:HH:MM:SS +ZZZZ`: a two-digit day,
/// an English three-letter month, a four-digit year with an optional sign,
/// two-digit hour, minute and second, then the offset from UTC as an
/// optionally signed two-digit hour and a two-digit minute.
pub fn parse_log_date(s: &[u8]) -> (r: Result<Timestamp, TimestampError>)
    ensures
        r == timestamp_of(s@),
        r matches Ok(t) ==> t.valid(),
{
    proof {
        lemma_parsed_timestamp_is_valid(s@);
    }
    let day = two_digits_at(s, 0);
    let day = match day {
        Some(d) if 1 <= d && d <= 31 => d,
        _ => return Err(TimestampError::Malformed(TimestampField::Day)),
    };
    if !byte_is(s, 2, SLASH) {
        return Err(TimestampError::MissingSeparator(TimestampField::Day));
    }
    let month = if s.len() >= 6 { month_of(s[3], s[4], s[5]) } else { 0 };
    if month == 0 {
        return Err(TimestampError::Malformed(TimestampField::Month));
    }
    if !byte_is(s, 6, SLASH) {
        return Err(TimestampError::MissingSeparator(TimestampField::Month));
    }
    let y = 7 + sign_len_at(s, 7);
    let year = match (two_digits_at(s, y), two_digits_at(s, y + 2)) {
        (Some(hi), Some(lo)) => hi as i32 * 100 + lo as i32,
        _ => return Err(TimestampError::Malformed(TimestampField::Year)),
    };
    if !byte_is(s, y + 4, COLON) {
        return Err(TimestampError::MissingSeparator(TimestampField::Year));
    }
    let hour = match two_digits_at(s, y + 5) {
        Some(h) if h <= 23 => h,
        _ => return Err(TimestampError::Malformed(TimestampField::Hour)),
    };
    if !byte_is(s, y + 7, COLON) {
        return Err(TimestampError::MissingSeparator(TimestampField::Hour));
    }
    let minute = match two_digits_at(s, y + 8) {
        Some(m) if m <= 59 => m,
        _ => return Err(TimestampError::Malformed(TimestampField::Minute)),
    };
    if !byte_is(s, y + 10, COLON) {
        return Err(TimestampError::MissingSeparator(TimestampField::Minute));
    }
    let second = match two_digits_at(s, y + 11) {
        Some(sec) if sec <= 60 => sec,
        _ => return Err(TimestampError::Malformed(TimestampField::Second)),
    };
    if !byte_is(s, y + 13, SPACE) {
        return Err(TimestampError::MissingSeparator(TimestampField::Second));
    }
    let o = y + 14 + sign_len_at(s, y + 14);
    let offset_hour = match two_digits_at(s, o) {
        Some(h) if h <= 25 => h,
        _ => return Err(TimestampError::Malformed(TimestampField::OffsetHour)),
    };
    let offset_minute = match two_digits_at(s, o + 2) {
        Some(m) if m <= 59 => m,
        _ => return Err(TimestampError::Malformed(TimestampField::OffsetMinute)),
    };
    if s.len() > o + 4 {
        return Err(TimestampError::TrailingData);
    }
    let year = if byte_is(s, 7, MINUS) { -year } else { year };
    if second > 59 || day > days_in_month_of(month, is_leap_year(year)) {
        return Err(TimestampError::NotADate);
    }
    let magnitude = offset_hour as i16 * 60 + offset_minute as i16;
    Ok(Timestamp {
        year,
        month,
        day,
        hour,
        minute,
        second,
        offset_minutes: if byte_is(s, y + 14, MINUS) { -magnitude } else { magnitude },
    })
}

} // verus!
