//! The calendar and the cron grammar, as the `chrono` and `cron` crates
//! have them. Nothing in this file is proved: each function states what it
//! takes from the crate it calls.

use chrono::{Datelike, TimeZone};
use std::str::FromStr;
use vstd::prelude::*;

verus! {

/// The last instant that the scheduler reckons with: the end of the year
/// 9999, in seconds since the epoch, UTC.
pub const MAX_INSTANT: u64 = 253_402_300_799;

/// Whether the `cron` crate parses `expr` into a schedule.
pub uninterp spec fn cron_accepts(expr: Seq<char>) -> bool;

/// The instant that the `cron` crate finds next for the schedule written
/// as `expr` when it searches from `after` on, reckoning in the zone `east`
/// seconds east of UTC; `None` where its search finds none.
pub uninterp spec fn cron_upcoming(expr: Seq<char>, after: u64, east: i32) -> Option<u64>;

/// The instant at which the zone `east` seconds east of UTC shows the given
/// date and time of day on the proleptic Gregorian calendar; `None` where
/// the calendar has no such date or the day no such time.
pub uninterp spec fn civil_instant(
    year: i32,
    month: u32,
    day: u32,
    hour: u32,
    min: u32,
    sec: u32,
    east: i32,
) -> Option<i64>;

/// The date that the zone `east` seconds east of UTC shows at `instant`.
pub uninterp spec fn civil_date_at(instant: u64, east: i32) -> (i32, u32, u32);

/// `cron::Schedule::from_str` parses a cron expression, or fails. Whether
/// it succeeds is a matter of the expression alone.
#[verifier::external_body]
pub(crate) fn cron_is_valid(expr: &str) -> (valid: bool)
    ensures
        valid == cron_accepts(expr@),
{
    cron::Schedule::from_str(expr).is_ok()
}

/// `cron::Schedule::after` starts an iterator over instants of a schedule
/// that lie after a given one; this is its first item. The search starts
/// one second after the given instant and tries no earlier date or time,
/// so what comes back is strictly later.
#[verifier::external_body]
pub(crate) fn cron_next_after(expr: &str, after: u64, east: i32) -> (next: Option<u64>)
    requires
        cron_accepts(expr@),
        after <= MAX_INSTANT,
        -86_400 < east < 86_400,
    ensures
        next == cron_upcoming(expr@, after, east),
        next matches Some(t) ==> t > after,
{
    let schedule = cron::Schedule::from_str(expr).unwrap();
    let zone = chrono::FixedOffset::east_opt(east).unwrap();
    let start = zone.timestamp_opt(after as i64, 0).unwrap();
    match schedule.after(&start).next() {
        Some(found) => Some(found.timestamp() as u64),
        None => None,
    }
}

/// `chrono::TimeZone::with_ymd_and_hms`, on a fixed offset, finds the one
/// instant with the given local date and time, or none on input that is no
/// date and time; `chrono::DateTime::timestamp` gives its seconds since the
/// epoch.
#[verifier::external_body]
pub(crate) fn civil_timestamp(
    year: i32,
    month: u32,
    day: u32,
    hour: u32,
    min: u32,
    sec: u32,
    east: i32,
) -> (instant: Option<i64>)
    requires
        -86_400 < east < 86_400,
    ensures
        instant == civil_instant(year, month, day, hour, min, sec, east),
{
    let zone = chrono::FixedOffset::east_opt(east).unwrap();
    match zone.with_ymd_and_hms(year, month, day, hour, min, sec).single() {
        Some(found) => Some(found.timestamp()),
        None => None,
    }
}

/// `chrono::TimeZone::timestamp_opt`, on a fixed offset, gives the local
/// date and time of an instant; `year`, `month` and `day` of
/// `chrono::Datelike` read its date.
#[verifier::external_body]
pub(crate) fn civil_date(instant: u64, east: i32) -> (date: (i32, u32, u32))
    requires
        instant <= MAX_INSTANT,
        -86_400 < east < 86_400,
    ensures
        date == civil_date_at(instant, east),
{
    let zone = chrono::FixedOffset::east_opt(east).unwrap();
    let local = zone.timestamp_opt(instant as i64, 0).unwrap();
    (local.year(), local.month(), local.day())
}

/// `chrono::Local::now` reads the clock in the zone of the host, and
/// `chrono::FixedOffset::local_minus_utc` gives the offset in force: less
/// than a day either way. It depends on the host and on the moment. On a
/// host whose clock stands before the epoch, or whose zone data cannot be
/// used, the call does not return.
#[verifier::external_body]
pub(crate) fn local_offset_seconds() -> (east: i32)
    ensures
        -86_400 < east < 86_400,
{
    chrono::Local::now().offset().local_minus_utc()
}

/// `chrono::Utc::now` reads the clock, and `chrono::DateTime::timestamp`
/// gives its seconds since the epoch. Nothing is known of the value. On a
/// host whose clock stands before the epoch the call does not return.
#[verifier::external_body]
pub(crate) fn utc_now_seconds() -> (now: i64) {
    chrono::Utc::now().timestamp()
}

} // verus!
