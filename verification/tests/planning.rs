use rusty_task::date::Date;
use rusty_task::file::File;
use rusty_task::plan::{choose_config, empty_groups, needs_default_config, next_step, Step};
use rusty_task::tasks::{Status, Task, TaskGroup};
use std::path::PathBuf;

fn on(year: i32, month: u32, day: u32) -> Date {
    Date::from_ymd_opt(year, month, day).unwrap()
}

fn note(name: &str) -> File {
    File::try_from(PathBuf::from(name)).unwrap()
}

#[test]
fn older_note_is_carried_forward_when_today_is_asked_for() {
    let today = on(2024, 1, 3);
    assert_eq!(next_step(Some(&note("2024-01-02.md")), &today, 0), Step::CarryForward);
    assert_eq!(next_step(Some(&note("2023-12-31.md")), &today, 0), Step::CarryForward);
    assert_eq!(next_step(Some(&note("2023-02-28.md")), &today, 0), Step::CarryForward);
}

#[test]
fn note_is_opened_when_it_is_todays_or_an_earlier_day_was_asked_for() {
    let today = on(2024, 1, 3);
    assert_eq!(next_step(Some(&note("2024-01-03.md")), &today, 0), Step::OpenExisting);
    assert_eq!(next_step(Some(&note("2024-01-04.md")), &today, 0), Step::OpenExisting);
    assert_eq!(next_step(Some(&note("2024-02-01.md")), &today, 0), Step::OpenExisting);
    assert_eq!(next_step(Some(&note("2024-01-02.md")), &today, 1), Step::OpenExisting);
}

#[test]
fn empty_note_is_started_without_any_note() {
    assert_eq!(next_step(None, &on(2024, 1, 3), 0), Step::CreateEmpty);
    assert_eq!(next_step(None, &on(2024, 1, 3), 7), Step::CreateEmpty);
}

#[test]
fn dates_are_ordered_by_the_calendar() {
    assert!(on(2023, 12, 31).is_before(&on(2024, 1, 1)));
    assert!(on(2024, 1, 31).is_before(&on(2024, 2, 1)));
    assert!(on(2024, 2, 1).is_before(&on(2024, 2, 2)));
    assert!(!on(2024, 2, 2).is_before(&on(2024, 2, 2)));
    assert!(!on(2024, 2, 2).is_before(&on(2023, 12, 31)));
    assert!(on(-1, 12, 31).is_before(&on(1, 1, 1)));
}

#[test]
fn days_are_counted_back_and_between() {
    assert_eq!(on(2024, 3, 1).days_earlier(0), Some(on(2024, 3, 1)));
    assert_eq!(on(2024, 3, 1).days_earlier(1), Some(on(2024, 2, 29)));
    assert_eq!(on(2024, 1, 1).days_earlier(366), Some(on(2022, 12, 31)));
    assert_eq!(on(-262143, 1, 2).days_earlier(1), Some(on(-262143, 1, 1)));
    assert_eq!(on(-262143, 1, 2).days_earlier(2), None);
    assert_eq!(Date { year: 2024, month: 2, day: 30 }.days_earlier(1), None);
    assert_eq!(on(2024, 1, 3).days_since(&on(2024, 1, 1)), Some(2));
    assert_eq!(on(2024, 1, 1).days_since(&on(2024, 1, 3)), Some(-2));
    assert_eq!(on(2024, 1, 1).days_since(&Date { year: 2024, month: 0, day: 1 }), None);
}

#[test]
fn config_file_is_the_one_asked_for_or_the_last_that_exists() {
    let existing = vec!["a.json".to_string(), "b.json".to_string()];
    assert_eq!(choose_config(Some("mine.json".to_string()), &existing, "first.json".to_string()), "mine.json");
    assert_eq!(choose_config(None, &existing, "first.json".to_string()), "b.json");
    assert_eq!(choose_config(None, &vec![], "first.json".to_string()), "first.json");
    assert!(needs_default_config(&vec![], &None));
    assert!(!needs_default_config(&existing, &None));
    assert!(!needs_default_config(&vec![], &Some("mine.json".to_string())));
}

#[test]
fn fresh_note_has_an_empty_group_for_each_section() {
    let groups = empty_groups(&vec!["Daily".to_string(), "Weekly".to_string()]);
    assert_eq!(
        groups,
        vec![TaskGroup::empty("Daily".to_string(), 2), TaskGroup::empty("Weekly".to_string(), 2)]
    );
    assert!(empty_groups(&vec![]).is_empty());
}

#[test]
fn copy_of_a_task_equals_the_task() {
    let task = Task {
        status: Status::Todo('!'),
        text: "parent".to_string(),
        subtasks: Some(vec![
            Task { status: Status::Done('x'), text: "child".to_string(), subtasks: Some(vec![]) },
            Task { status: Status::Empty, text: "other".to_string(), subtasks: None },
        ]),
    };
    assert_eq!(task.clone(), task);
    let group = TaskGroup { name: "Group".to_string(), tasks: vec![task], level: 3 };
    assert_eq!(group.clone(), group);
}
