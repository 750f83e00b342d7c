//! Days of the proleptic Gregorian calendar: the length of a month, dates
//! that exist and their text. Whether a day exists, and how a date is
//! written, is asked of the chrono crate.

use chrono::{Datelike, NaiveDate};
use vstd::prelude::*;
use crate::numeral::{decimal, decimal_padded, push_decimal, push_padded};

verus! {

/// The first year that a date can have.
pub const MIN_YEAR: i32 = -262143;

/// The last year that a date can have.
pub const MAX_YEAR: i32 = 262142;

/// Whether `year` has a 29th of February.
pub open spec fn is_leap_year(year: int) -> bool {
    (year % 4 == 0 && year % 100 != 0) || year % 400 == 0
}

/// Number of days of month `month` in `year`. A month number outside
/// `1..=12` counts thirty days.
pub open spec fn month_length(year: int, month: int) -> int {
    if month == 1 || month == 3 || month == 5 || month == 7 || month == 8 || month == 10
        || month == 12 {
        31
    } else if month == 2 {
        if is_leap_year(year) {
            29
        } else {
            28
        }
    } else {
        30
    }
}

/// Number of days in the given month of the given year.
pub fn days_in_month(year: i32, month: u32) -> (days: u32)
    ensures
        days == month_length(year as int, month as int),
        28 <= days <= 31,
{
    match month {
        1 | 3 | 5 | 7 | 8 | 10 | 12 => 31,
        4 | 6 | 9 | 11 => 30,
        2 => {
            if (year % 4 == 0 && year % 100 != 0) || (year % 400 == 0) {
                29
            } else {
                28
            }
        },
        _ => 30,
    }
}

/// Whether there is a day `day` of month `month` in year `year`, with the
/// year among those that a date can have.
pub open spec fn valid_ymd(year: int, month: int, day: int) -> bool {
    &&& MIN_YEAR <= year <= MAX_YEAR
    &&& 1 <= month <= 12
    &&& 1 <= day <= month_length(year, month)
}

/// A calendar day as plain mathematical values.
pub ghost struct Day {
    pub year: int,
    pub month: int,
    pub day: int,
}

impl Day {
    /// Whether there is such a day.
    pub open spec fn is_date(self) -> bool {
        valid_ymd(self.year, self.month, self.day)
    }

    /// The day as text, `YYYY-MM-DD`.
    pub open spec fn text(self) -> Seq<char> {
        iso_text(self.year, self.month, self.day)
    }
}

/// A calendar day that exists.
#[derive(Debug, Clone, Copy, PartialEq, Eq, Structural)]
pub struct Date {
    year: i32,
    month: u32,
    day: u32,
}

impl View for Date {
    type V = Day;

    closed spec fn view(&self) -> Day {
        Day { year: self.year as int, month: self.month as int, day: self.day as int }
    }
}

/// The year of a date as text: four digits for the years 0 to 9999, and a
/// sign and at least four digits for the others.
pub open spec fn year_text(year: int) -> Seq<char> {
    if 0 <= year <= 9999 {
        decimal_padded(year as nat, 4)
    } else if year < 0 {
        seq!['-'] + decimal_padded((-year) as nat, 4)
    } else {
        seq!['+'] + decimal_padded(year as nat, 4)
    }
}

/// A date as text: year, month and day with hyphens between, month and day
/// in two digits.
pub open spec fn iso_text(year: int, month: int, day: int) -> Seq<char> {
    year_text(year) + seq!['-'] + decimal_padded(month as nat, 2) + seq!['-'] + decimal_padded(
        day as nat,
        2,
    )
}

/// The text by which the records of a month are found: the year in plain
/// decimal, a hyphen, and the month in at least two digits.
pub open spec fn month_key_text(year: int, month: int) -> Seq<char> {
    (if year < 0 {
        seq!['-'] + decimal((-year) as nat)
    } else {
        decimal(year as nat)
    }) + seq!['-'] + decimal_padded(month as nat, 2)
}

/// `chrono::NaiveDate::from_ymd_opt`, with the date that it makes handed
/// back as year, month and day. Claimed of it: it makes a date exactly when
/// the year lies within chrono's range and the day exists in that month of
/// that year, and the date it makes has the year, month and day given.
#[verifier::external_body]
fn naive_date(year: i32, month: u32, day: u32) -> (date: Option<(i32, u32, u32)>)
    ensures
        date is Some <==> valid_ymd(year as int, month as int, day as int),
        date matches Some(d) ==> d == (year, month, day),
{
    match NaiveDate::from_ymd_opt(year, month, day) {
        Some(d) => Some((d.year(), d.month(), d.day())),
        None => None,
    }
}

/// `chrono::NaiveDate::format` with the pattern `%Y-%m-%d`, on the date of
/// the year, month and day given. Claimed of it: the text is the year in
/// four digits (with a sign in front outside 0 to 9999), a hyphen, the month
/// in two digits, a hyphen and the day in two digits.
#[verifier::external_body]
fn naive_date_text(year: i32, month: u32, day: u32) -> (text: String)
    requires
        valid_ymd(year as int, month as int, day as int),
    ensures
        text@ == iso_text(year as int, month as int, day as int),
{
    match NaiveDate::from_ymd_opt(year, month, day) {
        Some(d) => d.format("%Y-%m-%d").to_string(),
        None => String::new(),
    }
}

impl Date {
    #[verifier::type_invariant]
    spec fn is_real(self) -> bool {
        valid_ymd(self.year as int, self.month as int, self.day as int)
    }

    /// The date of the given year, month and day, if there is one.
    pub fn from_ymd(year: i32, month: u32, day: u32) -> (date: Option<Date>)
        ensures
            match date {
                Some(d) => d@ == (Day { year: year as int, month: month as int, day: day as int })
                    && d@.is_date(),
                None => !valid_ymd(year as int, month as int, day as int),
            },
    {
        match naive_date(year, month, day) {
            Some((year, month, day)) => Some(Date { year, month, day }),
            None => None,
        }
    }

    /// The year.
    pub fn year(&self) -> (year: i32)
        ensures
            year == self@.year,
            self@.is_date(),
    {
        proof {
            use_type_invariant(self);
        }
        self.year
    }

    /// The month, from 1 to 12.
    pub fn month(&self) -> (month: u32)
        ensures
            month == self@.month,
            self@.is_date(),
    {
        proof {
            use_type_invariant(self);
        }
        self.month
    }

    /// The day of the month, from 1.
    pub fn day(&self) -> (day: u32)
        ensures
            day == self@.day,
            self@.is_date(),
    {
        proof {
            use_type_invariant(self);
        }
        self.day
    }

    /// The date as text, `YYYY-MM-DD`.
    pub fn iso(&self) -> (text: String)
        ensures
            text@ == self@.text(),
            self@.is_date(),
    {
        proof {
            use_type_invariant(self);
        }
        naive_date_text(self.year, self.month, self.day)
    }

    /// The date picked by year, month and day, where the day is taken back
    /// to the last of the month if the month is shorter; `self` where even
    /// then there is no such date.
    pub fn picked(self, year: i32, month: u32, day: u32) -> (date: Date)
        ensures
            date@ == {
                let last = month_length(year as int, month as int);
                let picked = Day {
                    year: year as int,
                    month: month as int,
                    day: if day <= last {
                        day as int
                    } else {
                        last
                    },
                };
                if picked.is_date() {
                    picked
                } else {
                    self@
                }
            },
            date@.is_date(),
    {
        proof {
            use_type_invariant(self);
        }
        let last = days_in_month(year, month);
        let d = if day <= last {
            day
        } else {
            last
        };
        match Date::from_ymd(year, month, d) {
            Some(date) => date,
            None => self,
        }
    }
}

/// The text by which the records of month `month` of year `year` are found
/// among dates written as `YYYY-MM-DD`.
pub fn month_key(year: i32, month: u32) -> (key: String)
    ensures
        key@ == month_key_text(year as int, month as int),
{
    let mut key = String::new();
    if year < 0 {
        key.push('-');
        push_decimal(&mut key, (-(year as i64)) as u128);
    } else {
        push_decimal(&mut key, year as u128);
    }
    key.push('-');
    push_padded(&mut key, month as u128);
    proof {
        assert(key@ =~= month_key_text(year as int, month as int));
    }
    key
}

} // verus!
