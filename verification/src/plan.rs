//! What the program does once it knows the note files: which config file
//! it reads, and whether it opens a note, carries one forward or starts an
//! empty one.

use vstd::prelude::*;
use vstd::string::*;
use crate::date::Date;
use crate::file::File;
use crate::tasks::{GroupView, TaskGroup};

verus! {

/// What to do about today's note.
#[derive(Debug, Clone, Copy, PartialEq, Eq, Structural)]
pub enum Step {
    /// Carry the unfinished tasks of the latest note into a note for today.
    CarryForward,
    /// Open the note that was found.
    OpenExisting,
    /// Start a note for today with empty sections.
    CreateEmpty,
}

/// Whether the first date comes before the second in the calendar.
pub open spec fn comes_before(first: Date, second: Date) -> bool {
    first.year < second.year || (first.year == second.year && (first.month < second.month || (first.month
        == second.month && first.day < second.day)))
}

/// What to do about today's note, given the note closest to the day that
/// was asked for: a note from before today is carried forward when today's
/// note was asked for; any other note is opened; without a note an empty
/// one is started.
pub open spec fn step_for(latest: Option<Date>, today: Date, previous: u16) -> Step {
    match latest {
        Some(date) => if comes_before(date, today) && previous == 0 {
            Step::CarryForward
        } else {
            Step::OpenExisting
        },
        None => Step::CreateEmpty,
    }
}

/// The date of the file, if there is a file.
pub open spec fn date_of_file(latest: Option<&File>) -> Option<Date> {
    match latest {
        Some(file) => Some(file.date),
        None => None,
    }
}

/// The config file to read: the one that was asked for; failing that, the
/// last of the config files that exist; failing that, the first of the
/// places where one is expected.
pub open spec fn config_choice(given: Option<Seq<char>>, existing: Seq<Seq<char>>, fallback: Seq<char>) -> Seq<char> {
    match given {
        Some(file) => file,
        None => if existing.len() > 0 {
            existing.last()
        } else {
            fallback
        },
    }
}

/// The views of a list of strings.
pub open spec fn text_views(list: Seq<String>) -> Seq<Seq<char>> {
    Seq::new(list.len(), |i: int| list[i]@)
}

/// The view of a string that may be missing.
pub open spec fn text_view(text: Option<String>) -> Option<Seq<char>> {
    match text {
        Some(text) => Some(text@),
        None => None,
    }
}

impl Date {
    /// Whether this date comes before the other in the calendar.
    pub fn is_before(&self, other: &Date) -> (before: bool)
        ensures
            before == comes_before(*self, *other),
    {
        self.year < other.year || (self.year == other.year && (self.month < other.month || (self.month
            == other.month && self.day < other.day)))
    }
}

/// What to do about today's note, given the note closest to the day that
/// was asked for and the number of days to go back.
pub fn next_step(latest: Option<&File>, today: &Date, previous: u16) -> (step: Step)
    ensures
        step == step_for(date_of_file(latest), *today, previous),
{
    match latest {
        Some(file) => if file.date.is_before(today) && previous == 0 {
            Step::CarryForward
        } else {
            Step::OpenExisting
        },
        None => Step::CreateEmpty,
    }
}

/// Whether the default config has to be written first: no config file
/// exists and none was asked for.
pub fn needs_default_config(existing: &Vec<String>, given: &Option<String>) -> (needed: bool)
    ensures
        needed == (existing@.len() == 0 && given is None),
{
    existing.len() == 0 && given.is_none()
}

/// The config file to read.
pub fn choose_config(given: Option<String>, existing: &Vec<String>, fallback: String) -> (file: String)
    ensures
        file@ == config_choice(text_view(given), text_views(existing@), fallback@),
{
    match given {
        Some(file) => file,
        None => if existing.len() > 0 {
            existing[existing.len() - 1].clone()
        } else {
            fallback
        },
    }
}

/// The groups of a fresh note: one group without tasks for each section,
/// at level 2.
pub fn empty_groups(sections: &Vec<String>) -> (groups: Vec<TaskGroup>)
    ensures
        groups@.len() == sections@.len(),
        forall|i: int|
            0 <= i < sections@.len() ==> (#[trigger] groups@[i])@ == (GroupView {
                name: sections@[i]@,
                tasks: Seq::empty(),
                level: 2,
            }),
{
    let mut groups: Vec<TaskGroup> = Vec::new();
    let mut i: usize = 0;
    while i < sections.len()
        invariant
            i <= sections.len(),
            groups@.len() == i,
            forall|j: int|
                0 <= j < i ==> (#[trigger] groups@[j])@ == (GroupView {
                    name: sections@[j]@,
                    tasks: Seq::empty(),
                    level: 2,
                }),
        decreases sections.len() - i,
    {
        groups.push(TaskGroup::empty(sections[i].clone(), 2));
        i += 1;
    }
    groups
}

/// Of two dates that exist, the one that comes first in the calendar is
/// the one with the smaller day number.
pub proof fn lemma_comes_before(first: Date, second: Date)
    requires
        first.is_valid(),
        second.is_valid(),
    ensures
        comes_before(first, second) <==> first.day_number() < second.day_number(),
{
}

} // verus!
