//! Calendar dates as day numbers: day 1 is 0001-01-01 of the proleptic
//! Gregorian calendar, and consecutive days have consecutive numbers.
use chrono::Datelike;
use vstd::prelude::*;

verus! {

/// A calendar date, held as its day number.
#[derive(Clone, Copy, Debug, PartialEq, Eq, Structural)]
pub struct Date {
    pub days: i32,
}

/// The day number of the date that a text spells as `YYYY-MM-DD`, if it
/// spells one.
pub uninterp spec fn parsed_day(s: Seq<char>) -> Option<i32>;

/// The `YYYY-MM-DD` spelling of the date with a day number, if the calendar
/// reaches that far.
pub uninterp spec fn day_text(days: i32) -> Option<Seq<char>>;

/// Relies on chrono's `NaiveDate::parse_from_str` with the format
/// `%Y-%m-%d`, and `Datelike::num_days_from_ce`: the day number of the date
/// that the text spells, or `None` where it spells none.
#[verifier::external_body]
fn parse_day(s: &str) -> (r: Option<i32>)
    ensures
        r == parsed_day(s@),
{
    chrono::NaiveDate::parse_from_str(s, "%Y-%m-%d").ok().map(|d| d.num_days_from_ce())
}

/// Relies on chrono's `NaiveDate::from_num_days_from_ce_opt` and its
/// `format("%Y-%m-%d")`: the spelling of a day number, `None` outside the
/// range of dates that chrono represents.
#[verifier::external_body]
fn format_day(days: i32) -> (r: Option<String>)
    ensures
        match r {
            Some(t) => day_text(days) == Some(t@),
            None => day_text(days).is_none(),
        },
{
    chrono::NaiveDate::from_num_days_from_ce_opt(days).map(|d| d.format("%Y-%m-%d").to_string())
}

impl Date {
    /// The date `n` days after this one, `None` where its day number would
    /// not fit in an `i32`.
    pub fn add_days(self, n: u32) -> (r: Option<Date>)
        ensures
            self.days + n <= i32::MAX ==> r == Some(Date { days: (self.days + n) as i32 }),
            self.days + n > i32::MAX ==> r.is_none(),
    {
        if n as i64 <= i32::MAX as i64 - self.days as i64 {
            Some(Date { days: (self.days as i64 + n as i64) as i32 })
        } else {
            None
        }
    }

    /// Reads a date written as `YYYY-MM-DD`.
    pub fn parse(text: &str) -> (r: Option<Date>)
        ensures
            match parsed_day(text@) {
                Some(d) => r == Some(Date { days: d }),
                None => r.is_none(),
            },
    {
        match parse_day(text) {
            Some(d) => Some(Date { days: d }),
            None => None,
        }
    }

    /// Writes the date as `YYYY-MM-DD`, `None` outside the calendar's range.
    pub fn text(&self) -> (r: Option<String>)
        ensures
            match r {
                Some(t) => day_text(self.days) == Some(t@),
                None => day_text(self.days).is_none(),
            },
    {
        format_day(self.days)
    }
}

} // verus!
