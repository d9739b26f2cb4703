//! Days of the calendar, counted from 1970-01-01.
use crate::time::{FIRST_SECOND, LAST_SECOND, SECS_PER_DAY};
use vstd::prelude::*;

verus! {

/// Whether a day is within the calendar.
pub open spec fn calendar_day(day: int) -> bool {
    FIRST_SECOND <= day * SECS_PER_DAY <= LAST_SECOND
}

/// What `chrono::NaiveDate::parse_from_str` reads from a text in a format.
pub uninterp spec fn date_read(s: Seq<char>, format: Seq<char>) -> Option<i64>;

/// Calls `chrono::NaiveDate::parse_from_str`. Claimed: the outcome depends on the text and the
/// format alone, and a date is within the calendar.
#[verifier::external_body]
pub(crate) fn read_date(s: &str, format: &str) -> (r: Option<i64>)
    ensures
        r == date_read(s@, format@),
        r matches Some(d) ==> calendar_day(d as int),
{
    chrono::NaiveDate::parse_from_str(s, format).ok().map(|d| d.to_epoch_days() as i64)
}

/// What `chrono::NaiveDate::from_str` reads from a text.
pub uninterp spec fn plain_date(s: Seq<char>) -> Option<i64>;

/// Calls `chrono::NaiveDate::from_str`. Claimed: the outcome depends on the text alone, and a date
/// is within the calendar.
#[verifier::external_body]
pub(crate) fn parse_date(s: &str) -> (r: Option<i64>)
    ensures
        r == plain_date(s@),
        r matches Some(d) ==> calendar_day(d as int),
{
    s.parse::<chrono::NaiveDate>().ok().map(|d| d.to_epoch_days() as i64)
}

/// What `chrono::NaiveDate::from_ymd_opt` has as the day of a year, month and day of the month.
pub uninterp spec fn date_on(year: i32, month: u32, day: u32) -> Option<i64>;

/// The last day that every month with this number has, February aside.
pub open spec fn month_length(month: u32) -> int {
    if month == 4 || month == 6 || month == 9 || month == 11 {
        30
    } else if month == 2 {
        28
    } else {
        31
    }
}

/// Calls `chrono::NaiveDate::from_ymd_opt`. Claimed: the outcome depends on the three numbers
/// alone, a date is within the calendar, and there is one for each day that every year has, in the
/// years of the calendar.
#[verifier::external_body]
pub(crate) fn date_from(year: i32, month: u32, day: u32) -> (r: Option<i64>)
    ensures
        r == date_on(year, month, day),
        r matches Some(d) ==> calendar_day(d as int),
        -262_143 <= year <= 262_142 && 1 <= month <= 12 && 1 <= day <= month_length(month) ==> r is Some,
{
    chrono::NaiveDate::from_ymd_opt(year, month, day).map(|d| d.to_epoch_days() as i64)
}

/// What `chrono::NaiveDate::format` prints of a day in a format.
pub uninterp spec fn date_shown(day: i64, format: Seq<char>) -> Seq<char>;

/// Calls `chrono::NaiveDate::format`. Claimed: the text depends on the day and the format alone.
#[verifier::external_body]
pub(crate) fn show_date(day: i64, format: &str) -> (r: String)
    requires
        calendar_day(day as int),
        format@ == "%Y"@ || format@ == "%Y%m%d"@ || format@ == "%Y-%m-%d"@,
    ensures
        r@ == date_shown(day, format@),
{
    chrono::NaiveDate::from_epoch_days(day as i32).expect("the day is within the calendar").format(format).to_string()
}

/// What `chrono::Datelike::month` has as the month of a day.
pub uninterp spec fn month_of(day: i64) -> u32;

/// Calls `chrono::Datelike::month`. Claimed: the month depends on the day alone and is one of
/// twelve.
#[verifier::external_body]
pub(crate) fn month(day: i64) -> (r: u32)
    requires
        calendar_day(day as int),
    ensures
        r == month_of(day),
        1 <= r <= 12,
{
    chrono::Datelike::month(&chrono::NaiveDate::from_epoch_days(day as i32).expect("the day is within the calendar"))
}

/// What `chrono::NaiveDateTime::parse_from_str` reads from a text in a format, as a second of local
/// time, or the error it prints.
pub uninterp spec fn local_read(s: Seq<char>, format: Seq<char>) -> Result<i64, Seq<char>>;

/// Calls `chrono::NaiveDateTime::parse_from_str`. Claimed: the outcome depends on the text and the
/// format alone, and a second is within the calendar. The part of a second is dropped.
#[verifier::external_body]
pub(crate) fn read_local(s: &str, format: &str) -> (r: Result<i64, String>)
    ensures
        match local_read(s@, format@) {
            Ok(t) => r == Ok::<i64, String>(t) && FIRST_SECOND <= t <= LAST_SECOND,
            Err(m) => r is Err && (r->Err_0)@ == m,
        },
{
    match chrono::NaiveDateTime::parse_from_str(s, format) {
        Ok(t) => Ok(t.and_utc().timestamp()),
        Err(e) => Err(e.to_string()),
    }
}

} // verus!
