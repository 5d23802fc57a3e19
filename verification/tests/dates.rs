use rusty_task::date::Date;
use rusty_task::file::{date_of_name, file_name, get_filepath, try_get_date, File, FileNameParseError};
use std::path::PathBuf;

fn day(year: i32, month: u32, day: u32) -> Date {
    Date::from_ymd_opt(year, month, day).unwrap()
}

fn dated(name: &str) -> File {
    File::try_from(PathBuf::from(name)).unwrap()
}

#[test]
fn only_days_that_exist_are_dates() {
    assert_eq!(Date::from_ymd_opt(2024, 1, 3), Some(Date { year: 2024, month: 1, day: 3 }));
    assert_eq!(Date::from_ymd_opt(2024, 2, 29), Some(Date { year: 2024, month: 2, day: 29 }));
    assert_eq!(Date::from_ymd_opt(2023, 2, 29), None);
    assert_eq!(Date::from_ymd_opt(1900, 2, 29), None);
    assert_eq!(Date::from_ymd_opt(2000, 2, 29), Some(Date { year: 2000, month: 2, day: 29 }));
    assert_eq!(Date::from_ymd_opt(-4, 2, 29), Some(Date { year: -4, month: 2, day: 29 }));
    assert_eq!(Date::from_ymd_opt(2024, 4, 31), None);
    assert_eq!(Date::from_ymd_opt(2024, 0, 1), None);
    assert_eq!(Date::from_ymd_opt(2024, 13, 1), None);
    assert_eq!(Date::from_ymd_opt(2024, 1, 0), None);
    assert_eq!(Date::from_ymd_opt(2024, 12, 32), None);
}

#[test]
fn years_end_where_chrono_ends() {
    assert!(Date::from_ymd_opt(262142, 12, 31).is_some());
    assert!(Date::from_ymd_opt(262143, 1, 1).is_none());
    assert!(Date::from_ymd_opt(-262143, 1, 1).is_some());
    assert!(Date::from_ymd_opt(-262144, 12, 31).is_none());
}

#[test]
fn day_and_month_are_replaced_where_the_date_exists() {
    let date = day(2024, 1, 31);
    assert_eq!(date.with_day(1), Some(day(2024, 1, 1)));
    assert_eq!(date.with_day(32), None);
    assert_eq!(date.with_day(0), None);
    assert_eq!(date.with_month(3), Some(day(2024, 3, 31)));
    assert_eq!(date.with_month(2), None);
    assert_eq!(date.with_month(13), None);
    let no_date = Date { year: 2024, month: 2, day: 31 };
    assert_eq!(no_date.with_day(1), None);
    assert_eq!(no_date.with_month(1), None);
}

#[test]
fn distance_counts_the_days_between() {
    assert_eq!(day(2024, 1, 1).distance(&day(2024, 1, 1)), 0);
    assert_eq!(day(2023, 12, 30).distance(&day(2024, 1, 1)), 2);
    assert_eq!(day(2024, 1, 1).distance(&day(2023, 12, 30)), 2);
    assert_eq!(day(2024, 2, 1).distance(&day(2024, 3, 1)), 29);
    assert_eq!(day(2023, 2, 1).distance(&day(2023, 3, 1)), 28);
    assert_eq!(day(2000, 1, 1).distance(&day(2100, 1, 1)), 36525);
    assert_eq!(day(1, 1, 1).distance(&day(-1, 12, 31)), 367);
    assert_eq!(day(1, 1, 1).distance(&day(0, 12, 31)), 1);
}

#[test]
fn date_is_written_with_two_digits_for_month_and_day() {
    let mut text = String::from("on ");
    day(2024, 1, 3).push_to(&mut text);
    assert_eq!(text, "on 2024-01-03");
    assert_eq!(file_name(&day(2024, 11, 30)), "2024-11-30.md");
    assert_eq!(file_name(&day(987, 6, 5)), "987-06-05.md");
    assert_eq!(file_name(&day(0, 1, 1)), "0-01-01.md");
    assert_eq!(file_name(&day(-12, 10, 9)), "-12-10-09.md");
    assert_eq!(file_name(&day(262142, 12, 31)), "262142-12-31.md");
}

#[test]
fn note_stands_in_the_data_directory() {
    let path = get_filepath(&PathBuf::from("notes"), &day(2024, 1, 3));
    assert_eq!(path, PathBuf::from("notes").join("2024-01-03.md"));
    assert_eq!(path.file_name().unwrap().to_str(), Some("2024-01-03.md"));
}

#[test]
fn file_name_gives_the_date() {
    assert_eq!(date_of_name("2024-01-03.md").ok(), Some(day(2024, 1, 3)));
    assert_eq!(try_get_date(&PathBuf::from("./notes/2024-02-29.md")).ok(), Some(day(2024, 2, 29)));
    assert_eq!(dated("./2024-01-01.md").date, day(2024, 1, 1));
    assert_eq!(dated("./2024-01-01.md").file, PathBuf::from("./2024-01-01.md"));
}

#[test]
fn other_file_names_are_refused() {
    assert!(matches!(date_of_name("notes.md"), Err(FileNameParseError::ParseError(_))));
    assert!(matches!(date_of_name("2024-01-03.txt"), Err(FileNameParseError::ParseError(_))));
    assert!(matches!(date_of_name("2023-02-29.md"), Err(FileNameParseError::ParseError(_))));
    assert!(matches!(
        try_get_date(&PathBuf::from("/")),
        Err(FileNameParseError::TypeConversionError("Could not get filename from path: {:?}"))
    ));
    assert!(matches!(
        try_get_date(&PathBuf::from("notes/..")),
        Err(FileNameParseError::TypeConversionError(_))
    ));
    assert!(matches!(
        File::try_from(PathBuf::from("readme.md")),
        Err(FileNameParseError::ParseError(_))
    ));
}

#[test]
fn files_without_a_date_are_passed_over() {
    let files = vec![
        PathBuf::from("readme.md"),
        PathBuf::from("2024-01-05.md"),
        PathBuf::from("/"),
        PathBuf::from("dir/2024-01-01.md"),
    ];
    assert_eq!(
        File::dated_files(files.clone()),
        vec![dated("2024-01-05.md"), dated("dir/2024-01-01.md")]
    );
    assert_eq!(
        File::get_closest_files(files, day(2024, 1, 2), 5),
        vec![dated("dir/2024-01-01.md"), dated("2024-01-05.md")]
    );
}

#[test]
fn files_at_the_same_distance_keep_their_order() {
    let files = vec![dated("2024-01-05.md"), dated("2024-01-01.md"), dated("b/2024-01-05.md"), dated("2024-01-03.md")];
    let target = day(2024, 1, 3);
    assert_eq!(
        File::closest(files, &target, 10),
        vec![dated("2024-01-03.md"), dated("2024-01-05.md"), dated("2024-01-01.md"), dated("b/2024-01-05.md")]
    );
}

#[test]
fn no_more_files_than_asked_for() {
    let files = vec![dated("2024-01-05.md"), dated("2024-01-01.md")];
    assert_eq!(File::closest(files, &day(2024, 1, 1), 0), vec![]);
    let files = vec![dated("2024-01-05.md"), dated("2024-01-01.md")];
    assert_eq!(File::closest(files, &day(2024, 1, 1), 1), vec![dated("2024-01-01.md")]);
    assert_eq!(File::closest(vec![], &day(2024, 1, 1), 3), vec![]);
}
