use rusty_task::date::Date;
use rusty_task::file::File;
use std::path::PathBuf;

#[test]
fn test_get_closest_date() {
    let files = vec![
        PathBuf::from("./2024-01-01.md"),
        PathBuf::from("./2024-01-02.md"),
        PathBuf::from("./2024-01-03.md"),
        PathBuf::from("./2024-02-01.md"),
        PathBuf::from("./2024-03-01.md"),
        PathBuf::from("./2024-04-01.md"),
        PathBuf::from("./2024-04-02.md"),
        PathBuf::from("./2024-04-03.md"),
        PathBuf::from("./2024-04-04.md"),
    ];

    let res = File::get_closest_files(
        files.clone(),
        Date::from_ymd_opt(2023, 12, 30).unwrap(),
        3,
    );
    let expected_res = vec![
        File::try_from(PathBuf::from("./2024-01-01.md")).unwrap(),
        File::try_from(PathBuf::from("./2024-01-02.md")).unwrap(),
        File::try_from(PathBuf::from("./2024-01-03.md")).unwrap(),
    ];
    assert_eq!(res, expected_res);

    let res = File::get_closest_files(
        files.clone(),
        Date::from_ymd_opt(2024, 2, 1).unwrap(),
        3,
    );
    let expected_res = vec![
        File::try_from(PathBuf::from("./2024-02-01.md")).unwrap(),
        File::try_from(PathBuf::from("./2024-01-03.md")).unwrap(),
        File::try_from(PathBuf::from("./2024-03-01.md")).unwrap(),
    ];
    assert_eq!(res, expected_res);

    let res = File::get_closest_files(
        files.clone(),
        Date::from_ymd_opt(2024, 5, 2).unwrap(),
        3,
    );
    let expected_res = vec![
        File::try_from(PathBuf::from("./2024-04-04.md")).unwrap(),
        File::try_from(PathBuf::from("./2024-04-03.md")).unwrap(),
        File::try_from(PathBuf::from("./2024-04-02.md")).unwrap(),
    ];
    assert_eq!(res, expected_res);

    let res = File::get_closest_files(
        files[..1].to_vec(),
        Date::from_ymd_opt(2023, 12, 30).unwrap(),
        3,
    );
    let expected_res = vec![File::try_from(PathBuf::from("./2024-01-01.md")).unwrap()];
    assert_eq!(res, expected_res);
}
