//! A calendar date held as plain year, month and day numbers, with the
//! lexicographic order that coincides with chronological order on valid
//! dates, and the two places where the library consults chrono: calendar
//! validity and the current local date.

use chrono::Datelike;
use vstd::prelude::*;

verus! {

/// A proleptic Gregorian calendar date as plain numbers. The library compares
/// dates lexicographically on `(year, month, day)`, which agrees with
/// chronological order whenever both dates name real calendar days.
#[derive(Clone, Copy, Debug, PartialEq, Eq, Structural)]
pub struct Date {
    pub year: i32,
    pub month: u32,
    pub day: u32,
}

/// Strict lexicographic order on `(year, month, day)`.
pub open spec fn date_lt(a: Date, b: Date) -> bool {
    a.year < b.year || (a.year == b.year && (a.month < b.month || (a.month == b.month
        && a.day < b.day)))
}

/// Reflexive closure of [`date_lt`].
pub open spec fn date_le(a: Date, b: Date) -> bool {
    date_lt(a, b) || a == b
}

impl Date {
    pub fn new(year: i32, month: u32, day: u32) -> (d: Date)
        ensures
            d == (Date { year, month, day }),
    {
        Date { year, month, day }
    }

    pub fn lt(&self, other: &Date) -> (r: bool)
        ensures
            r == date_lt(*self, *other),
    {
        self.year < other.year || (self.year == other.year && (self.month < other.month || (
        self.month == other.month && self.day < other.day)))
    }

    pub fn le(&self, other: &Date) -> (r: bool)
        ensures
            r == date_le(*self, *other),
    {
        self.lt(other) || (self.year == other.year && self.month == other.month && self.day
            == other.day)
    }
}

/// Whether `(y, m, d)` names a real proleptic Gregorian calendar day that
/// chrono's `NaiveDate` can represent. The predicate is deliberately left
/// without a definition: chrono is the authority on calendar validity
/// (leap years and the representable year range included).
pub uninterp spec fn valid_ymd(y: int, m: int, d: int) -> bool;

/// Relies on `chrono::NaiveDate::from_ymd_opt`, which returns `Some` exactly
/// when the calendar day exists: the month and day are in range for that
/// month and year, and the year is within the range `NaiveDate` supports
/// (about plus or minus 262000 years around the common era).
#[verifier::external_body]
pub(crate) fn ymd_is_valid(y: i32, m: u32, d: u32) -> (r: bool)
    ensures
        r == valid_ymd(y as int, m as int, d as int),
        r ==> 1 <= m <= 12 && 1 <= d <= 31 && -262143 <= y <= 262142,
{
    chrono::NaiveDate::from_ymd_opt(y, m, d).is_some()
}

/// Relies on `chrono::Local::now` and `DateTime::date_naive`: the current
/// local calendar date. Only what holds of every `NaiveDate` is stated: the
/// month, day and year accessors stay within the documented ranges.
#[verifier::external_body]
pub(crate) fn current_date() -> (d: Date)
    ensures
        1 <= d.month <= 12 && 1 <= d.day <= 31 && -262143 <= d.year <= 262142,
{
    let now = chrono::Local::now().date_naive();
    Date { year: now.year(), month: now.month(), day: now.day() }
}

} // verus!
