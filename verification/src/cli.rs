//! What the command line asks for, and how a date given there is read.

use vstd::prelude::*;
use vstd::string::*;
use crate::date::{is_date, parse_from_str, parsed_date, Date};
use crate::text::push_char;

verus! {

/// The arguments of the program.
#[derive(Debug)]
pub struct Args {
    /// The config file to use.
    pub config: Option<String>,
    /// Show the config file in use.
    pub current_config: bool,
    /// The date whose notes are wanted.
    pub date: Option<String>,
    /// How many days to go back from today.
    pub previous: u16,
    /// List the files closest to the date.
    pub list: bool,
    /// How many files to list.
    pub number: usize,
    /// List all files.
    pub list_all: bool,
    /// How often `-v` was given.
    pub verbose: u8,
}

/// The format of a full date.
pub const FULL_DATE_FORMAT: &'static str = "%Y-%m-%d";

/// The pieces of a text between the occurrences of a separator.
pub open spec fn pieces(text: Seq<char>, separator: char) -> Seq<Seq<char>>
    decreases text.len(),
{
    if text.len() == 0 {
        seq![Seq::empty()]
    } else {
        let init = pieces(text.drop_last(), separator);
        if text.last() == separator {
            init.push(Seq::empty())
        } else {
            init.update(init.len() - 1, init.last().push(text.last()))
        }
    }
}

/// Whether the text is made of the digits `0` to `9`.
pub open spec fn all_digits(text: Seq<char>) -> bool {
    forall|i: int| 0 <= i < text.len() ==> '0' <= #[trigger] text[i] <= '9'
}

/// The number that a run of digits stands for.
pub open spec fn digits_value(text: Seq<char>) -> int
    decreases text.len(),
{
    if text.len() == 0 {
        0
    } else {
        digits_value(text.drop_last()) * 10 + (text.last() as int - '0' as int)
    }
}

/// The number that a text stands for: digits, at least one, after an
/// optional `+`, or after a `-` where a sign is allowed.
pub open spec fn number_value(text: Seq<char>, signed: bool) -> Option<int> {
    let negative = signed && text.len() > 0 && text[0] == '-';
    let body = if text.len() > 0 && (text[0] == '+' || negative) {
        text.drop_first()
    } else {
        text
    };
    if body.len() > 0 && all_digits(body) {
        if negative {
            Some(-digits_value(body))
        } else {
            Some(digits_value(body))
        }
    } else {
        None
    }
}

/// The `u32` that a text stands for, if it stands for one.
pub open spec fn u32_value(text: Seq<char>) -> Option<u32> {
    match number_value(text, false) {
        Some(value) => if value <= u32::MAX {
            Some(value as u32)
        } else {
            None
        },
        None => None,
    }
}

/// The `i32` that a text stands for, if it stands for one.
pub open spec fn i32_value(text: Seq<char>) -> Option<i32> {
    match number_value(text, true) {
        Some(value) => if i32::MIN <= value <= i32::MAX {
            Some(value as i32)
        } else {
            None
        },
        None => None,
    }
}

/// `str::parse` to a `u32`: the number that the text stands for, which is
/// written as decimal digits after an optional `+`. Nothing for any other
/// text and for a number that is too large.
#[verifier::external_body]
fn parse_u32(text: &str) -> (value: Option<u32>)
    ensures
        value == u32_value(text@),
{
    text.parse().ok()
}

/// `str::parse` to an `i32`: the number that the text stands for, which is
/// written as decimal digits after an optional `+` or `-`. Nothing for any
/// other text and for a number that does not fit.
#[verifier::external_body]
fn parse_i32(text: &str) -> (value: Option<i32>)
    ensures
        value == i32_value(text@),
{
    text.parse().ok()
}

/// The date with the given year, month and day, if there is one.
pub open spec fn date_of(year: int, month: int, day: int) -> Option<Date> {
    if is_date(year, month, day) && i32::MIN <= year <= i32::MAX && month <= u32::MAX && day <= u32::MAX {
        Some(Date { year: year as i32, month: month as u32, day: day as u32 })
    } else {
        None
    }
}

/// The number that the text stands for, or `fallback` if it stands for
/// none.
pub open spec fn u32_or(text: Seq<char>, fallback: u32) -> u32 {
    match u32_value(text) {
        Some(value) => value,
        None => fallback,
    }
}

/// The date that the pieces of a text mean, seen from the date `today`.
///
/// The text is taken apart at its hyphens. One piece is a day of today's
/// month. Two pieces are a month and a day of today's year. Three pieces
/// are a year, a month and a day. A piece that is no number stands for
/// today's value where there are one or two pieces; among three pieces it
/// leaves the text without a meaning, as does a day that does not exist
/// and any other number of pieces.
pub open spec fn pieced_date(text: Seq<char>, today: Date) -> Option<Date> {
    let parts = pieces(text, '-');
    if !today.is_valid() && parts.len() <= 2 {
        None
    } else if parts.len() == 1 {
        date_of(today.year as int, today.month as int, u32_or(parts[0], today.day) as int)
    } else if parts.len() == 2 {
        match date_of(today.year as int, today.month as int, u32_or(parts[1], today.day) as int) {
            Some(date) => date_of(date.year as int, u32_or(parts[0], today.month) as int, date.day as int),
            None => None,
        }
    } else if parts.len() == 3 {
        match (i32_value(parts[0]), u32_value(parts[1]), u32_value(parts[2])) {
            (Some(year), Some(month), Some(day)) => date_of(year as int, month as int, day as int),
            _ => None,
        }
    } else {
        None
    }
}

/// The date that a text given on the command line means, seen from the
/// date `today`: the date that chrono reads from it as a full date, and
/// failing that the date that its pieces mean.
pub open spec fn smart_date(text: Seq<char>, today: Date) -> Option<Date> {
    match parsed_date(text, FULL_DATE_FORMAT@) {
        Some(date) => Some(date),
        None => pieced_date(text, today),
    }
}

/// The views of a list of strings.
pub open spec fn texts_of(parts: Seq<String>) -> Seq<Seq<char>> {
    Seq::new(parts.len(), |i: int| parts[i]@)
}

/// Takes a text apart at the occurrences of a separator.
pub fn split(text: &str, separator: char) -> (parts: Vec<String>)
    ensures
        texts_of(parts@) == pieces(text@, separator),
{
    let mut parts: Vec<String> = Vec::new();
    let mut current = String::new();
    let length = text.unicode_len();
    let mut i: usize = 0;
    proof {
        assert(text@.take(0) =~= Seq::empty());
        assert(texts_of(parts@).push(current@) =~= pieces(text@.take(0), separator));
    }
    while i < length
        invariant
            i <= length,
            length == text@.len(),
            texts_of(parts@).push(current@) == pieces(text@.take(i as int), separator),
        decreases length - i,
    {
        let c = text.get_char(i);
        let ghost done = texts_of(parts@);
        let ghost open = current@;
        proof {
            assert(text@.take(i + 1).drop_last() =~= text@.take(i as int));
            assert(text@.take(i + 1).last() == c);
            assert(done.push(open).last() == open);
        }
        if c == separator {
            parts.push(current);
            current = String::new();
            proof {
                assert(texts_of(parts@) =~= done.push(open));
            }
        } else {
            push_char(&mut current, c);
            proof {
                assert(done.push(current@) =~= done.push(open).update(done.len() as int, open.push(c)));
            }
        }
        i += 1;
    }
    let ghost done = texts_of(parts@);
    parts.push(current);
    proof {
        assert(text@.take(i as int) =~= text@);
        assert(texts_of(parts@) =~= done.push(current@));
    }
    parts
}

/// Reads a date from the pieces of a text between its hyphens, seen from
/// the date `cur_date`.
pub fn date_from_pieces(date_str: &str, cur_date: &Date) -> (date: Option<Date>)
    ensures
        date == pieced_date(date_str@, *cur_date),
        date matches Some(found) ==> found.is_valid(),
{
    let parts = split(date_str, '-');
    if parts.len() == 1 {
        let day = match parse_u32(parts[0].as_str()) {
            Some(day) => day,
            None => cur_date.day,
        };
        cur_date.with_day(day)
    } else if parts.len() == 2 {
        let day = match parse_u32(parts[1].as_str()) {
            Some(day) => day,
            None => cur_date.day,
        };
        let month = match parse_u32(parts[0].as_str()) {
            Some(month) => month,
            None => cur_date.month,
        };
        match cur_date.with_day(day) {
            Some(date) => date.with_month(month),
            None => None,
        }
    } else if parts.len() == 3 {
        let year = match parse_i32(parts[0].as_str()) {
            Some(year) => year,
            None => {
                return None;
            },
        };
        let month = match parse_u32(parts[1].as_str()) {
            Some(month) => month,
            None => {
                return None;
            },
        };
        let day = match parse_u32(parts[2].as_str()) {
            Some(day) => day,
            None => {
                return None;
            },
        };
        Date::from_ymd_opt(year, month, day)
    } else {
        None
    }
}

/// Reads a date given on the command line, seen from the date `cur_date`.
pub fn smart_parse_date(date_str: &str, cur_date: &Date) -> (date: Option<Date>)
    ensures
        date == smart_date(date_str@, *cur_date),
        date matches Some(found) ==> found.is_valid(),
{
    match parse_from_str(date_str, FULL_DATE_FORMAT) {
        Ok(date) => Some(date),
        Err(_) => date_from_pieces(date_str, cur_date),
    }
}

} // verus!
