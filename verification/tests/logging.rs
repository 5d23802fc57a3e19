use rusty_task::logging::{get_logging_level, Level};

#[test]
fn test_get_logging_level() {
    assert_eq!(get_logging_level(0), Level::Error);
    assert_eq!(get_logging_level(1), Level::Warn);
    assert_eq!(get_logging_level(2), Level::Info);
    assert_eq!(get_logging_level(3), Level::Debug);
    assert_eq!(get_logging_level(4), Level::Trace);
    assert_eq!(get_logging_level(5), Level::Trace);
}
