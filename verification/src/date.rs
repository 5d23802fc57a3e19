//! Calendar dates as the rest of the library sees them: a year, a month and
//! a day, with chrono behind the questions that need a calendar.

use vstd::prelude::*;
use vstd::string::*;
use chrono::{Datelike, NaiveDate};
use crate::text::push_char;

verus! {

/// A day of the proleptic Gregorian calendar.
#[derive(Debug, Clone, Copy, PartialEq, Eq, Structural)]
pub struct Date {
    pub year: i32,
    pub month: u32,
    pub day: u32,
}

/// The error that chrono reports for a text that is no date.
#[verifier::external_type_specification]
#[verifier::external_body]
pub struct ExParseError(chrono::format::ParseError);

/// Whether the year has a 29th of February.
pub open spec fn is_leap_year(year: int) -> bool {
    year % 4 == 0 && (year % 100 != 0 || year % 400 == 0)
}

/// How many days the month of the year has; 0 for a month that does not
/// exist.
pub open spec fn days_in_month(year: int, month: int) -> int {
    if month == 2 {
        if is_leap_year(year) {
            29
        } else {
            28
        }
    } else if month == 4 || month == 6 || month == 9 || month == 11 {
        30
    } else if 1 <= month <= 12 {
        31
    } else {
        0
    }
}

/// Whether the day exists and lies in the years that chrono can hold.
pub open spec fn is_date(year: int, month: int, day: int) -> bool {
    &&& -262143 <= year <= 262142
    &&& 1 <= month <= 12
    &&& 1 <= day <= days_in_month(year, month)
}

/// The decimal digits of a number.
pub open spec fn digits(value: nat) -> Seq<char>
    decreases value,
{
    if value < 10 {
        seq![digit(value)]
    } else {
        digits(value / 10).push(digit(value % 10))
    }
}

/// The character of a digit.
pub open spec fn digit(value: nat) -> char {
    if value == 0 {
        '0'
    } else if value == 1 {
        '1'
    } else if value == 2 {
        '2'
    } else if value == 3 {
        '3'
    } else if value == 4 {
        '4'
    } else if value == 5 {
        '5'
    } else if value == 6 {
        '6'
    } else if value == 7 {
        '7'
    } else if value == 8 {
        '8'
    } else {
        '9'
    }
}

/// The digits of a number, with a zero in front of a single one.
pub open spec fn two_digits(value: nat) -> Seq<char> {
    if value < 10 {
        seq!['0'] + digits(value)
    } else {
        digits(value)
    }
}

/// The digits of a number, after a minus sign if it is negative.
pub open spec fn signed_digits(value: int) -> Seq<char> {
    if value < 0 {
        seq!['-'] + digits((-value) as nat)
    } else {
        digits(value as nat)
    }
}

/// A date as `YYYY-MM-DD`: the year as it is, the month and the day with
/// two digits.
pub open spec fn date_text(date: Date) -> Seq<char> {
    signed_digits(date.year as int) + seq!['-'] + two_digits(date.month as nat) + seq!['-'] + two_digits(
        date.day as nat,
    )
}

/// The character of a digit.
fn digit_char(value: u64) -> (c: char)
    requires
        value < 10,
    ensures
        c == digit(value as nat),
{
    if value == 0 {
        '0'
    } else if value == 1 {
        '1'
    } else if value == 2 {
        '2'
    } else if value == 3 {
        '3'
    } else if value == 4 {
        '4'
    } else if value == 5 {
        '5'
    } else if value == 6 {
        '6'
    } else if value == 7 {
        '7'
    } else if value == 8 {
        '8'
    } else {
        '9'
    }
}

/// Appends the decimal digits of `value` to `text`.
pub fn push_digits(text: &mut String, value: u64)
    ensures
        final(text)@ == old(text)@ + digits(value as nat),
    decreases value,
{
    if value >= 10 {
        push_digits(text, value / 10);
    }
    push_char(text, digit_char(value % 10));
    assert(text@ =~= old(text)@ + digits(value as nat));
}

/// Appends the digits of `value` to `text`, with a zero in front of a
/// single one.
pub fn push_two_digits(text: &mut String, value: u32)
    ensures
        final(text)@ == old(text)@ + two_digits(value as nat),
{
    if value < 10 {
        push_char(text, '0');
    }
    push_digits(text, value as u64);
    assert(text@ =~= old(text)@ + two_digits(value as nat));
}

impl Date {
    /// Whether the date exists and lies in the years that chrono can hold.
    pub open spec fn is_valid(self) -> bool {
        is_date(self.year as int, self.month as int, self.day as int)
    }

    /// Appends the date as `YYYY-MM-DD` to `text`.
    pub fn push_to(&self, text: &mut String)
        ensures
            final(text)@ == old(text)@ + date_text(*self),
    {
        if self.year < 0 {
            push_char(text, '-');
            push_digits(text, (-(self.year as i64)) as u64);
        } else {
            push_digits(text, self.year as u64);
        }
        push_char(text, '-');
        push_two_digits(text, self.month);
        push_char(text, '-');
        push_two_digits(text, self.day);
        assert(text@ =~= old(text)@ + date_text(*self));
    }

    /// The date with the given year, month and day, if there is such a day
    /// within the years that chrono can hold.
    pub fn from_ymd_opt(year: i32, month: u32, day: u32) -> (date: Option<Date>)
        ensures
            date == if is_date(year as int, month as int, day as int) {
                Some((Date { year, month, day }))
            } else {
                None
            },
    {
        ymd_opt(year, month, day)
    }

    /// The date with another day of the month, if the month has that day.
    pub fn with_day(&self, day: u32) -> (date: Option<Date>)
        ensures
            date == if self.is_valid() && is_date(self.year as int, self.month as int, day as int) {
                Some((Date { year: self.year, month: self.month, day }))
            } else {
                None
            },
    {
        replace_day(self, day)
    }

    /// The date with another month, if that month has the date's day.
    pub fn with_month(&self, month: u32) -> (date: Option<Date>)
        ensures
            date == if self.is_valid() && is_date(self.year as int, month as int, self.day as int) {
                Some((Date { year: self.year, month, day: self.day }))
            } else {
                None
            },
    {
        replace_month(self, month)
    }

    /// The number of the date's day, where the first of January of the year
    /// 1 has the number 1.
    pub open spec fn day_number(self) -> int {
        days_before_year(self.year as int) + days_before_month(self.year as int, self.month as int)
            + self.day
    }

    /// How many days lie between the two dates, whichever comes first.
    pub open spec fn spec_distance(self, other: Date) -> int {
        if self.day_number() >= other.day_number() {
            self.day_number() - other.day_number()
        } else {
            other.day_number() - self.day_number()
        }
    }

    /// How many days this date lies after `earlier`; negative where it lies
    /// before. Nothing where one of the two is no date.
    pub fn days_since(&self, earlier: &Date) -> (days: Option<i64>)
        ensures
            days == if self.is_valid() && earlier.is_valid() {
                Some((self.day_number() - earlier.day_number()) as i64)
            } else {
                None
            },
    {
        days_between(self, earlier)
    }

    /// The date that lies `days` days before this one, if chrono can hold
    /// it.
    pub fn days_earlier(&self, days: u16) -> (date: Option<Date>)
        ensures
            match date {
                Some(found) => lies_before(found, *self, days),
                None => none_before(*self, days),
            },
    {
        sub_days(self, days)
    }

    /// How many days lie between the two dates, whichever comes first.
    pub fn distance(&self, other: &Date) -> (days: u64)
        requires
            self.is_valid(),
            other.is_valid(),
        ensures
            days == self.spec_distance(*other),
    {
        proof {
            lemma_day_number_bounds(*self);
            lemma_day_number_bounds(*other);
        }
        match days_between(self, other) {
            Some(days) => if days >= 0 {
                days as u64
            } else {
                (-(days + 1)) as u64 + 1
            },
            None => 0,
        }
    }
}

/// The day numbers of the dates that chrono can hold stay far inside the
/// range of a 64-bit integer.
pub proof fn lemma_day_number_bounds(date: Date)
    requires
        date.is_valid(),
    ensures
        -100_000_000 < date.day_number() < 100_000_000,
{
}

/// The days of the years before `year`, counted from the year 1.
pub open spec fn days_before_year(year: int) -> int {
    365 * (year - 1) + (year - 1) / 4 - (year - 1) / 100 + (year - 1) / 400
}

/// The days of the months of `year` before `month`.
pub open spec fn days_before_month(year: int, month: int) -> int {
    let leap: int = if month > 2 && is_leap_year(year) {
        1
    } else {
        0
    };
    leap + if month <= 1 {
        0int
    } else if month == 2 {
        31
    } else if month == 3 {
        59
    } else if month == 4 {
        90
    } else if month == 5 {
        120
    } else if month == 6 {
        151
    } else if month == 7 {
        181
    } else if month == 8 {
        212
    } else if month == 9 {
        243
    } else if month == 10 {
        273
    } else if month == 11 {
        304
    } else {
        334
    }
}

/// The first day that chrono can hold.
pub open spec fn first_date() -> Date {
    Date { year: -262143i32, month: 1, day: 1 }
}

/// Whether `found` lies `days` days before `date`.
pub open spec fn lies_before(found: Date, date: Date, days: u16) -> bool {
    date.is_valid() && found.is_valid() && found.day_number() == date.day_number() - days
}

/// Whether no date that chrono can hold lies `days` days before `date`.
pub open spec fn none_before(date: Date, days: u16) -> bool {
    !date.is_valid() || date.day_number() - days < first_date().day_number()
}

/// `NaiveDate::checked_sub_signed` with a `TimeDelta` of whole days: the
/// date that many days earlier, unless it lies before the first day that
/// chrono can hold.
#[verifier::external_body]
fn sub_days(date: &Date, days: u16) -> (earlier: Option<Date>)
    ensures
        match earlier {
            Some(found) => lies_before(found, *date, days),
            None => none_before(*date, days),
        },
{
    NaiveDate::from_ymd_opt(date.year, date.month, date.day)?.checked_sub_signed(
        chrono::TimeDelta::days(days.into()),
    ).map(|date| Date { year: date.year(), month: date.month(), day: date.day() })
}

/// What chrono reads from `text` by the format `format`, if it reads a
/// date at all.
pub uninterp spec fn parsed_date(text: Seq<char>, format: Seq<char>) -> Option<Date>;

/// `NaiveDate::from_ymd_opt`: the date, unless the day does not exist or
/// the year is outside the years that chrono can hold.
#[verifier::external_body]
fn ymd_opt(year: i32, month: u32, day: u32) -> (date: Option<Date>)
    ensures
        date == if is_date(year as int, month as int, day as int) {
            Some((Date { year, month, day }))
        } else {
            None
        },
{
    NaiveDate::from_ymd_opt(year, month, day).map(
        |date| Date { year: date.year(), month: date.month(), day: date.day() },
    )
}

/// `NaiveDate::with_day`: the date with the day of the month changed,
/// unless the month has no such day.
#[verifier::external_body]
fn replace_day(date: &Date, day: u32) -> (changed: Option<Date>)
    ensures
        changed == (if date.is_valid() && is_date(date.year as int, date.month as int, day as int) {
            Some((Date { year: date.year, month: date.month, day }))
        } else {
            None
        }),
{
    NaiveDate::from_ymd_opt(date.year, date.month, date.day)?.with_day(day).map(
        |date| Date { year: date.year(), month: date.month(), day: date.day() },
    )
}

/// `NaiveDate::with_month`: the date with the month changed, unless that
/// month has no such day.
#[verifier::external_body]
fn replace_month(date: &Date, month: u32) -> (changed: Option<Date>)
    ensures
        changed == (if date.is_valid() && is_date(date.year as int, month as int, date.day as int) {
            Some((Date { year: date.year, month, day: date.day }))
        } else {
            None
        }),
{
    NaiveDate::from_ymd_opt(date.year, date.month, date.day)?.with_month(month).map(
        |date| Date { year: date.year(), month: date.month(), day: date.day() },
    )
}

/// The difference of two `NaiveDate`s, in whole days by `num_days`: the
/// days from `earlier` to `later`, negative where `later` comes first.
/// Nothing where one of the two is no date.
#[verifier::external_body]
fn days_between(later: &Date, earlier: &Date) -> (days: Option<i64>)
    ensures
        days == (if later.is_valid() && earlier.is_valid() {
            Some((later.day_number() - earlier.day_number()) as i64)
        } else {
            None
        }),
{
    let later = NaiveDate::from_ymd_opt(later.year, later.month, later.day)?;
    let earlier = NaiveDate::from_ymd_opt(earlier.year, earlier.month, earlier.day)?;
    Some((later - earlier).num_days())
}

/// `NaiveDate::parse_from_str`: the date that chrono reads from the text
/// by the format, or chrono's error. A date that was read exists.
#[verifier::external_body]
pub(crate) fn parse_from_str(text: &str, format: &str) -> (result: Result<Date, chrono::format::ParseError>)
    ensures
        match result {
            Ok(date) => parsed_date(text@, format@) == Some(date) && date.is_valid(),
            Err(_) => parsed_date(text@, format@) is None,
        },
{
    NaiveDate::parse_from_str(text, format).map(
        |date| Date { year: date.year(), month: date.month(), day: date.day() },
    )
}

} // verus!
