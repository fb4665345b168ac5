//! Civil dates and their relation to absolute time.
//!
//! The crate models a calendar date as a plain (year, month, day) triple with
//! the Gregorian validity rules spelled out. Everything the logic computes on
//! dates is verified; the two places where calendar arithmetic has to leave
//! the crate - finding the weekday of a date and the Unix timestamp of its
//! midnight - go through trusted wrappers around chrono, whose results are
//! only ever named, never restated.

use vstd::prelude::*;

verus! {

/// A civil (proleptic Gregorian) calendar date.
#[derive(Clone, Copy, Debug, Hash, PartialEq, Eq, Structural)]
pub struct Date {
    pub year: i32,
    pub month: u8,
    pub day: u8,
}

pub open spec fn is_leap_year(y: int) -> bool {
    y % 4 == 0 && (y % 100 != 0 || y % 400 == 0)
}

pub open spec fn days_in_month(y: int, m: int) -> int {
    if m == 2 {
        if is_leap_year(y) {
            29
        } else {
            28
        }
    } else if m == 4 || m == 6 || m == 9 || m == 11 {
        30
    } else {
        31
    }
}

/// The dates the library works on: four-digit years, Gregorian month lengths.
pub open spec fn valid_date(d: Date) -> bool {
    &&& 1 <= d.year <= 9999
    &&& 1 <= d.month <= 12
    &&& 1 <= d.day <= days_in_month(d.year as int, d.month as int)
}

impl Date {
    /// Gregorian validity of this date, decided in executable code.
    pub fn is_valid(&self) -> (r: bool)
        ensures
            r == valid_date(*self),
    {
        if self.year < 1 || self.year > 9999 || self.month < 1 || self.month > 12 {
            return false;
        }
        let dim: u8 = if self.month == 2 {
            if self.year % 4 == 0 && (self.year % 100 != 0 || self.year % 400 == 0) {
                29
            } else {
                28
            }
        } else if self.month == 4 || self.month == 6 || self.month == 9 || self.month == 11 {
            30
        } else {
            31
        };
        1 <= self.day && self.day <= dim
    }
}

/// Weekday (days since Monday, 0 = Monday .. 6 = Sunday) of a valid civil
/// date. The calendar rule behind it lives outside the crate; the name pins
/// only that equal dates give equal weekdays.
pub uninterp spec fn weekday_of(year: int, month: int, day: int) -> int;

/// Unix timestamp of midnight (UTC) at the start of a valid civil date.
pub uninterp spec fn epoch_of_civil(year: int, month: int, day: int) -> int;

/// Relies on chrono::NaiveDate::from_ymd_opt and Datelike::weekday:
/// num_days_from_monday returns the weekday as 0 (Monday) .. 6 (Sunday),
/// a function of the date alone.
#[verifier::external_body]
pub fn weekday_from_date(d: &Date) -> (r: u8)
    requires
        valid_date(*d),
    ensures
        r as int == weekday_of(d.year as int, d.month as int, d.day as int),
        r < 7,
{
    let nd = chrono::NaiveDate::from_ymd_opt(d.year, d.month as u32, d.day as u32).unwrap();
    chrono::Datelike::weekday(&nd).num_days_from_monday() as u8
}

/// Relies on chrono::NaiveDate::and_hms_opt and chrono::NaiveDateTime::and_utc:
/// the result counts the seconds from the Unix epoch to midnight (UTC) of the
/// given date, a function of the date alone; for four-digit years it lies
/// well within the stated band.
#[verifier::external_body]
pub fn epoch_seconds_from_date(d: &Date) -> (r: i64)
    requires
        valid_date(*d),
    ensures
        r as int == epoch_of_civil(d.year as int, d.month as int, d.day as int),
        -62_200_000_000 <= r <= 253_500_000_000,
{
    let nd = chrono::NaiveDate::from_ymd_opt(d.year, d.month as u32, d.day as u32).unwrap();
    let ndt = nd.and_hms_opt(0, 0, 0).unwrap();
    ndt.and_utc().timestamp()
}

/// Splits a signed count of seconds relative to a date's midnight into whole
/// days and a nonnegative second-of-day, as floor division does.
pub fn split_day_seconds(time: i32) -> (r: (i32, u32))
    ensures
        time as int == r.0 as int * 86400 + r.1 as int,
        0 <= r.1 < 86400,
{
    let q: i32 = time / 86400;
    let rem: i32 = time % 86400;
    if rem < 0 {
        (q - 1, (rem + 86400) as u32)
    } else {
        (q, rem as u32)
    }
}

/// The weekday of the moment `time` seconds after midnight of `d`; `time` may
/// be negative or beyond one day, as scheduled stop times are.
pub open spec fn moment_weekday(d: Date, time: int) -> int {
    (weekday_of(d.year as int, d.month as int, d.day as int) + time / 86400) % 7
}

/// The hour of day of the moment `time` seconds after midnight of `d`.
pub open spec fn moment_hour(d: Date, time: int) -> int {
    (time % 86400) / 3600
}

/// The minute of hour of the moment `time` seconds after midnight of `d`.
pub open spec fn moment_minute(d: Date, time: int) -> int {
    ((time % 86400) % 3600) / 60
}

/// The wall-clock moment reached `time` seconds after midnight of date `d`,
/// for use with the time-slot classifier.
pub fn moment_of_date_and_time(d: &Date, time: i32) -> (t: crate::time_slots::TimeOfWeek)
    requires
        valid_date(*d),
    ensures
        t.weekday as int == moment_weekday(*d, time as int),
        t.hour as int == moment_hour(*d, time as int),
        t.minute as int == moment_minute(*d, time as int),
        t.wf(),
{
    let wd = weekday_from_date(d);
    let (days, sec_of_day) = split_day_seconds(time);
    proof {
        vstd::arithmetic::div_mod::lemma_fundamental_div_mod_converse(
            time as int, 86400, days as int, sec_of_day as int);
    }
    // `days` lies within +-24856; shifting by a multiple of 7 makes the
    // remainder computation nonnegative without moving it modulo 7.
    let shifted: i64 = days as i64 + 173_999;
    let weekday = (((wd as i64) + shifted % 7) % 7) as u8;
    let hour = (sec_of_day / 3600) as u8;
    let minute = ((sec_of_day % 3600) / 60) as u8;
    proof {
        let w = weekday_of(d.year as int, d.month as int, d.day as int);
        let q = time as int / 86400;
        assert(days as int == q);
        assert(shifted as int % 7 == q % 7) by {
            vstd::arithmetic::div_mod::lemma_mod_multiples_vanish(24857, q, 7);
        }
        assert((w + q % 7) % 7 == (w + q) % 7) by {
            vstd::arithmetic::div_mod::lemma_add_mod_noop_right(w, q, 7);
        }
    }
    crate::time_slots::TimeOfWeek { weekday, hour, minute }
}

} // verus!
