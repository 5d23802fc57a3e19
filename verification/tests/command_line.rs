use rusty_task::cli::{date_from_pieces, smart_parse_date, split, Args};
use rusty_task::config::{Config, ConfigError};
use rusty_task::date::Date;

fn today() -> Date {
    Date::from_ymd_opt(2024, 1, 31).unwrap()
}

fn date(year: i32, month: u32, day: u32) -> Option<Date> {
    Date::from_ymd_opt(year, month, day)
}

#[test]
fn text_is_taken_apart_at_the_separator() {
    assert_eq!(split("2024-01-03", '-'), vec!["2024", "01", "03"]);
    assert_eq!(split("", '-'), vec![""]);
    assert_eq!(split("-", '-'), vec!["", ""]);
    assert_eq!(split("a--b-", '-'), vec!["a", "", "b", ""]);
    assert_eq!(split("no separator", '-'), vec!["no separator"]);
    assert_eq!(split("ä/ö", '/'), vec!["ä", "ö"]);
}

#[test]
fn full_date_is_read_by_chrono() {
    assert_eq!(smart_parse_date("2023-12-24", &today()), date(2023, 12, 24));
    assert_eq!(smart_parse_date("2023-2-4", &today()), date(2023, 2, 4));
}

#[test]
fn day_alone_is_a_day_of_this_month() {
    assert_eq!(smart_parse_date("7", &today()), date(2024, 1, 7));
    assert_eq!(smart_parse_date("+7", &today()), date(2024, 1, 7));
    assert_eq!(smart_parse_date("007", &today()), date(2024, 1, 7));
    assert_eq!(smart_parse_date("32", &today()), None);
    assert_eq!(smart_parse_date("0", &today()), None);
}

#[test]
fn piece_that_is_no_number_stands_for_today() {
    assert_eq!(smart_parse_date("", &today()), Some(today()));
    assert_eq!(smart_parse_date("soon", &today()), Some(today()));
    assert_eq!(smart_parse_date(" 7", &today()), Some(today()));
    assert_eq!(smart_parse_date("4294967296", &today()), Some(today()));
    assert_eq!(smart_parse_date("x-05", &today()), date(2024, 1, 5));
    assert_eq!(smart_parse_date("03-x", &today()), date(2024, 3, 31));
    assert_eq!(smart_parse_date("-", &today()), Some(today()));
}

#[test]
fn month_and_day_are_a_day_of_this_year() {
    assert_eq!(smart_parse_date("03-15", &today()), date(2024, 3, 15));
    assert_eq!(smart_parse_date("2-29", &today()), date(2024, 2, 29));
    assert_eq!(smart_parse_date("2-30", &today()), None);
    assert_eq!(smart_parse_date("04-x", &today()), None);
}

#[test]
fn three_pieces_have_to_be_numbers() {
    assert_eq!(smart_parse_date("2024-x-03", &today()), None);
    assert_eq!(smart_parse_date("x-01-03", &today()), None);
    assert_eq!(smart_parse_date("2024-01-", &today()), None);
    assert_eq!(smart_parse_date("2147483648-01-03", &today()), None);
}

#[test]
fn pieces_alone_give_a_date() {
    assert_eq!(date_from_pieces("01-03", &today()), date(2024, 1, 3));
    assert_eq!(date_from_pieces("2024-14", &today()), None);
    assert_eq!(date_from_pieces("15", &today()), date(2024, 1, 15));
    assert_eq!(date_from_pieces("2023-12-24", &today()), date(2023, 12, 24));
    assert_eq!(date_from_pieces("2023-12-24-1", &today()), None);
    let no_date = Date { year: 2024, month: 2, day: 30 };
    assert_eq!(date_from_pieces("15", &no_date), None);
    assert_eq!(date_from_pieces("2023-12-24", &no_date), date(2023, 12, 24));
}

#[test]
fn more_pieces_mean_nothing() {
    assert_eq!(smart_parse_date("2024-01-03-04", &today()), None);
    assert_eq!(smart_parse_date("1-2-3-4-5", &today()), None);
}

#[test]
fn arguments_hold_what_was_asked_for() {
    let args = Args {
        config: None,
        current_config: false,
        date: Some("01-03".to_string()),
        previous: 0,
        list: true,
        number: 5,
        list_all: false,
        verbose: 2,
    };
    assert_eq!(args.date.as_deref(), Some("01-03"));
    assert_eq!(args.number, 5);
    assert!(format!("{:?}", args).contains("verbose: 2"));
}

#[test]
fn settings_have_defaults() {
    let config = Config::default();
    assert_eq!(config.editor.as_deref(), Some("nano"));
    assert_eq!(
        config.sections,
        Some(vec!["Daily".to_string(), "Weekly".to_string(), "Monthly".to_string()])
    );
    assert_eq!(config.notes_dir.as_deref(), Some("Notes"));
    assert!(format!("{:?}", ConfigError::EnvError("unset")).contains("unset"));
}
