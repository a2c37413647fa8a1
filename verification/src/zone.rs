//! What the library takes from chrono and chrono-tz: the Europe/Rome zone,
//! the calendar names of a day, and RFC 3339 text. Everything here is
//! trusted; the calendar arithmetic built on it lives in `time`.
use chrono::{DateTime, Datelike, NaiveDate, Offset, TimeZone};
use vstd::prelude::*;

use crate::models::Date;

verus! {

/// chrono's first date, 1 January of year -262143, as a day count.
pub const MIN_DAYS_FROM_CE: i32 = -95746129;

/// chrono's last date, 31 December of year 262142, as a day count.
pub const MAX_DAYS_FROM_CE: i32 = 95745399;

/// 1970-01-01 as a day count.
pub const UNIX_EPOCH_DAY: i64 = 719163;

/// Seconds in one day.
pub const SECONDS_PER_DAY: i64 = 86400;

/// A day count that chrono can hold as a date.
pub open spec fn is_valid_day(days: int) -> bool {
    MIN_DAYS_FROM_CE <= days <= MAX_DAYS_FROM_CE
}

/// The day count of the day in which the second `secs` falls.
pub open spec fn day_of_seconds(secs: int) -> int {
    secs / 86400 + 719163
}

/// A second that chrono can hold as a date and time.
pub open spec fn is_valid_instant(secs: int) -> bool {
    is_valid_day(day_of_seconds(secs))
}

/// A second at least one day away from the ends of chrono's range, so that
/// any wall-clock time within a day of it is a valid date and time too.
pub open spec fn is_plannable_instant(secs: int) -> bool {
    is_valid_instant(secs - 86400) && is_valid_instant(secs + 86400)
}

/// Whether the day count `days` is a date that chrono can hold.
pub fn day_is_valid(days: i64) -> (res: bool)
    ensures
        res == is_valid_day(days as int),
{
    MIN_DAYS_FROM_CE as i64 <= days && days <= MAX_DAYS_FROM_CE as i64
}

/// Whether the second `secs` is at least one day away from the ends of
/// chrono's range.
pub fn instant_is_plannable(secs: i64) -> (res: bool)
    ensures
        res == is_plannable_instant(secs as int),
{
    if secs < i64::MIN + SECONDS_PER_DAY || secs > i64::MAX - SECONDS_PER_DAY {
        return false;
    }
    let before = (secs - SECONDS_PER_DAY).checked_div_euclid(SECONDS_PER_DAY).unwrap() + UNIX_EPOCH_DAY;
    let after = (secs + SECONDS_PER_DAY).checked_div_euclid(SECONDS_PER_DAY).unwrap() + UNIX_EPOCH_DAY;
    day_is_valid(before) && day_is_valid(after)
}

/// What Europe/Rome makes of a wall-clock time.
#[derive(Debug, Clone, Copy, PartialEq, Eq, Structural)]
pub enum LocalResolution {
    /// The wall-clock time names exactly one instant.
    Single(i64),
    /// The wall-clock time occurs twice (the autumn change); the earlier
    /// instant comes first.
    Ambiguous(i64, i64),
    /// The wall-clock time is skipped (the spring change).
    Missing,
}

/// The offset of Europe/Rome from UTC, in seconds, at the instant `utc`, as
/// chrono-tz's zone data gives it.
pub uninterp spec fn rome_offset(utc: i64) -> i32;

/// What chrono-tz's `from_local_datetime` on Europe/Rome gives for the
/// wall-clock time `local`, as seconds.
pub uninterp spec fn rome_resolution(local: i64) -> LocalResolution;

/// The day of the month and the month (both counted from 1) of a day count.
pub uninterp spec fn day_and_month(days_from_ce: i32) -> (u32, u32);

/// chrono's `Display` of the naive date and time `local`
/// (`YYYY-MM-DD HH:MM:SS`).
pub uninterp spec fn naive_datetime_text(local: i64) -> Seq<char>;

/// chrono's `Display` of a date (`YYYY-MM-DD`).
pub uninterp spec fn date_display_text(days_from_ce: i32) -> Seq<char>;

/// chrono's RFC 3339 text of the UTC instant `utc`.
pub uninterp spec fn rfc3339_text(utc: i64) -> Seq<char>;

/// What chrono's `DateTime::parse_from_rfc3339` makes of a text: the instant
/// in whole seconds (any fraction dropped), or the text of its error.
pub uninterp spec fn rfc3339_reading(text: Seq<char>) -> Result<i64, Seq<char>>;

/// A successful reading of the instant `t`.
pub open spec fn read_as(t: i64) -> Result<i64, Seq<char>> {
    Ok(t)
}

/// A failed reading with the error text `e`.
pub open spec fn read_failure(e: Seq<char>) -> Result<i64, Seq<char>> {
    Err(e)
}

/// A second whose date has a four-digit year (0000 to 9999), the years that
/// RFC 3339 can write.
pub open spec fn has_four_digit_year(secs: int) -> bool {
    -365 <= day_of_seconds(secs) <= 3652059
}

/// chrono-tz: `Europe::Rome.offset_from_utc_datetime(..).fix()`, the offset
/// of Rome at the instant `utc`. Claimed: it is the named `rome_offset(utc)`
/// and lies strictly within one day, as every `FixedOffset` does.
#[verifier::external_body]
pub(crate) fn rome_offset_at(utc: i64) -> (offset: i32)
    requires
        is_valid_instant(utc as int),
    ensures
        offset == rome_offset(utc),
        -86400 < offset < 86400,
{
    let naive = DateTime::from_timestamp(utc, 0).unwrap().naive_utc();
    chrono_tz::Europe::Rome.offset_from_utc_datetime(&naive).fix().local_minus_utc()
}

/// chrono-tz: `Europe::Rome.from_local_datetime` on the wall-clock time
/// `local`, each resulting `DateTime` taken by its timestamp. Claimed: it is
/// the named `rome_resolution(local)`; each instant in it is one that chrono
/// can hold and lies within a day of `local` (chrono subtracts an offset of
/// less than a day, with a range check).
#[verifier::external_body]
pub(crate) fn resolve_rome_local(local: i64) -> (res: LocalResolution)
    requires
        is_valid_instant(local as int),
    ensures
        res == rome_resolution(local),
        match res {
            LocalResolution::Single(u) => is_valid_instant(u as int) && local - 86400 < u < local + 86400,
            LocalResolution::Ambiguous(e, l) => is_valid_instant(e as int) && local - 86400 < e < local + 86400
                && is_valid_instant(l as int) && local - 86400 < l < local + 86400,
            LocalResolution::Missing => true,
        },
{
    let naive = DateTime::from_timestamp(local, 0).unwrap().naive_utc();
    match chrono_tz::Europe::Rome.from_local_datetime(&naive) {
        chrono::LocalResult::Single(dt) => LocalResolution::Single(dt.timestamp()),
        chrono::LocalResult::Ambiguous(a, b) => LocalResolution::Ambiguous(a.timestamp(), b.timestamp()),
        chrono::LocalResult::None => LocalResolution::Missing,
    }
}

/// chrono: `Datelike::day` and `Datelike::month` of a date. Claimed: they are
/// the named `day_and_month(days)`, a day in `1..=31` and a month in `1..=12`.
#[verifier::external_body]
pub(crate) fn date_day_month(date: Date) -> (res: (u32, u32))
    requires
        is_valid_day(date.days_from_ce as int),
    ensures
        res == day_and_month(date.days_from_ce),
        1 <= res.0 <= 31,
        1 <= res.1 <= 12,
{
    let d = NaiveDate::from_num_days_from_ce_opt(date.days_from_ce).unwrap();
    (d.day(), d.month())
}

/// chrono: the `Display` text of a date. Claimed: it is the named
/// `date_display_text(days)`.
#[verifier::external_body]
pub fn date_text(date: Date) -> (res: String)
    requires
        is_valid_day(date.days_from_ce as int),
    ensures
        res@ == date_display_text(date.days_from_ce),
{
    NaiveDate::from_num_days_from_ce_opt(date.days_from_ce).unwrap().to_string()
}

/// chrono: the `Display` text of the naive date and time `local`. Claimed: it
/// is the named `naive_datetime_text(local)`.
#[verifier::external_body]
pub(crate) fn naive_local_text(local: i64) -> (res: String)
    requires
        is_valid_instant(local as int),
    ensures
        res@ == naive_datetime_text(local),
{
    DateTime::from_timestamp(local, 0).unwrap().naive_utc().to_string()
}

/// The RFC 3339 text of an instant (chrono's `DateTime::<Utc>::to_rfc3339`).
/// Claimed: it is the named `rfc3339_text(dt)`, and for a four-digit year
/// chrono's RFC 3339 reader gives back the same instant, since the writer
/// then prints `YYYY-MM-DDTHH:MM:SS+00:00`.
#[verifier::external_body]
pub fn iso_utc(dt: i64) -> (res: String)
    requires
        is_valid_instant(dt as int),
    ensures
        res@ == rfc3339_text(dt),
        has_four_digit_year(dt as int) ==> rfc3339_reading(res@) == read_as(dt),
{
    DateTime::from_timestamp(dt, 0).unwrap().to_rfc3339()
}

/// chrono: `DateTime::parse_from_rfc3339`, the instant taken by its timestamp
/// and the error by its text. Claimed: the outcome is the named
/// `rfc3339_reading(s)`, and an instant read is one chrono can hold.
#[verifier::external_body]
pub(crate) fn read_rfc3339(s: &str) -> (res: Result<i64, String>)
    ensures
        match res {
            Ok(t) => rfc3339_reading(s@) == read_as(t) && is_valid_instant(t as int),
            Err(e) => rfc3339_reading(s@) == read_failure(e@),
        },
{
    match DateTime::parse_from_rfc3339(s) {
        Ok(dt) => Ok(dt.timestamp()),
        Err(e) => Err(e.to_string()),
    }
}

} // verus!
