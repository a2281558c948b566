//! Dates and times, as far as a calendar is needed for them.

use chrono::Datelike;
use vstd::prelude::*;

use crate::chars::{push_all, push_text, to_text};
use crate::numbers::{dec2, decimal2, decimal_signed, signed_dec};

verus! {

/// The year, the month counted from zero, and the day of a moment given in
/// milliseconds since 1970, in UTC; nothing where the calendar ends before it.
pub uninterp spec fn utc_date(ms: int) -> Option<(int, nat, nat)>;

/// `chrono::DateTime::from_timestamp_millis` and the date of what it returns: a
/// month is below twelve and a day from one to thirty-one.
#[verifier::external_body]
pub(crate) fn date_of(ms: i64) -> (r: Option<(i32, u32, u32)>)
    ensures
        match r {
            Some((year, month, day)) => utc_date(ms as int) == Some(
                (year as int, month as nat, day as nat),
            ) && month < 12 && 1 <= day <= 31,
            None => utc_date(ms as int) is None,
        },
{
    let date = chrono::DateTime::from_timestamp_millis(ms)?;
    Some((date.year(), date.month0(), date.day()))
}

pub open spec fn month_name(month: nat) -> Seq<char> {
    if month == 0 {
        "Jan"@
    } else if month == 1 {
        "Feb"@
    } else if month == 2 {
        "Mar"@
    } else if month == 3 {
        "Apr"@
    } else if month == 4 {
        "May"@
    } else if month == 5 {
        "Jun"@
    } else if month == 6 {
        "Jul"@
    } else if month == 7 {
        "Aug"@
    } else if month == 8 {
        "Sep"@
    } else if month == 9 {
        "Oct"@
    } else if month == 10 {
        "Nov"@
    } else {
        "Dec"@
    }
}

fn month_name_of(month: u32) -> (r: &'static str)
    ensures
        r@ == month_name(month as nat),
{
    match month {
        0 => "Jan",
        1 => "Feb",
        2 => "Mar",
        3 => "Apr",
        4 => "May",
        5 => "Jun",
        6 => "Jul",
        7 => "Aug",
        8 => "Sep",
        9 => "Oct",
        10 => "Nov",
        _ => "Dec",
    }
}

/// A date as `dd-Mon-yyyy`.
pub open spec fn dashed(date: (int, nat, nat)) -> Seq<char> {
    dec2(date.2) + "-"@ + month_name(date.1) + "-"@ + signed_dec(date.0)
}

/// Writes a date as `dd-Mon-yyyy`, its month counted from zero.
#[must_use]
pub fn dashed_date(year: i32, month: u32, day: u32) -> (r: String)
    ensures
        r@ == dashed((year as int, month as nat, day as nat)),
{
    let mut out: Vec<char> = decimal2(day as u64);
    push_text(&mut out, "-");
    push_text(&mut out, month_name_of(month));
    push_text(&mut out, "-");
    let y: Vec<char> = decimal_signed(year as i64);
    push_all(&mut out, &y);
    to_text(&out)
}

/// The moment an RFC 3339 date and time names, in milliseconds since 1970.
pub uninterp spec fn rfc3339(text: Seq<char>) -> Option<int>;

/// `chrono::DateTime::parse_from_rfc3339`, and the milliseconds since 1970 of
/// what it returns.
#[verifier::external_body]
pub(crate) fn rfc3339_ms(text: &str) -> (r: Option<i64>)
    ensures
        match r {
            Some(ms) => rfc3339(text@) == Some(ms as int),
            None => rfc3339(text@) is None,
        },
{
    chrono::DateTime::parse_from_rfc3339(text).ok().map(|at| at.timestamp_millis())
}

/// The moment a date and time without a zone names in UTC, read by a pattern,
/// in milliseconds since 1970.
pub uninterp spec fn zoneless(text: Seq<char>, pattern: Seq<char>) -> Option<int>;

/// `chrono::NaiveDateTime::parse_from_str`, and the milliseconds since 1970 of
/// what it returns, taken as UTC.
#[verifier::external_body]
pub(crate) fn zoneless_ms(text: &str, pattern: &str) -> (r: Option<i64>)
    ensures
        match r {
            Some(ms) => zoneless(text@, pattern@) == Some(ms as int),
            None => zoneless(text@, pattern@) is None,
        },
{
    let at = chrono::NaiveDateTime::parse_from_str(text, pattern).ok()?;
    Some(at.and_utc().timestamp_millis())
}

/// Is this many seconds since 1970 a moment of the calendar?
pub uninterp spec fn on_calendar(secs: int) -> bool;

/// `chrono::DateTime::from_timestamp` with no fraction of a second: whether it
/// returns a date. One that it returns is at most 2^31 days from year 1.
#[verifier::external_body]
pub(crate) fn is_on_calendar(secs: i64) -> (r: bool)
    ensures
        r == on_calendar(secs as int),
        r ==> -200_000_000_000_000 < secs < 200_000_000_000_000,
{
    chrono::DateTime::from_timestamp(secs, 0).is_some()
}

/// The notation of an mbox envelope line.
pub const ASCTIME: &'static str = "%a %b %e %H:%M:%S %Y";

/// The notation of a date in an attribution line.
pub const ATTRIBUTION: &'static str = "%-d %b %Y at %H:%M";

/// A moment written in one of the notations above, in UTC.
pub uninterp spec fn written(secs: int, notation: Seq<char>) -> Seq<char>;

/// `chrono::DateTime::format` of a moment given in seconds since 1970, in UTC.
#[verifier::external_body]
pub(crate) fn write_date(secs: i64, notation: &str) -> (r: Option<String>)
    requires
        notation@ == ASCTIME@ || notation@ == ATTRIBUTION@,
    ensures
        match r {
            Some(text) => on_calendar(secs as int) && text@ == written(secs as int, notation@),
            None => !on_calendar(secs as int),
        },
{
    let at = chrono::DateTime::from_timestamp(secs, 0)?;
    Some(at.format(notation).to_string())
}

/// The months by their names, and a date as its day, month and year.
pub proof fn how_a_date_is_written(year: int, day: nat)
    ensures
        dashed((year, 0, day)) == dec2(day) + "-"@ + "Jan"@ + "-"@ + signed_dec(year),
        dashed((year, 1, day)) == dec2(day) + "-"@ + "Feb"@ + "-"@ + signed_dec(year),
        dashed((year, 2, day)) == dec2(day) + "-"@ + "Mar"@ + "-"@ + signed_dec(year),
        dashed((year, 3, day)) == dec2(day) + "-"@ + "Apr"@ + "-"@ + signed_dec(year),
        dashed((year, 4, day)) == dec2(day) + "-"@ + "May"@ + "-"@ + signed_dec(year),
        dashed((year, 5, day)) == dec2(day) + "-"@ + "Jun"@ + "-"@ + signed_dec(year),
        dashed((year, 6, day)) == dec2(day) + "-"@ + "Jul"@ + "-"@ + signed_dec(year),
        dashed((year, 7, day)) == dec2(day) + "-"@ + "Aug"@ + "-"@ + signed_dec(year),
        dashed((year, 8, day)) == dec2(day) + "-"@ + "Sep"@ + "-"@ + signed_dec(year),
        dashed((year, 9, day)) == dec2(day) + "-"@ + "Oct"@ + "-"@ + signed_dec(year),
        dashed((year, 10, day)) == dec2(day) + "-"@ + "Nov"@ + "-"@ + signed_dec(year),
        dashed((year, 11, day)) == dec2(day) + "-"@ + "Dec"@ + "-"@ + signed_dec(year),
{
}

} // verus!
