use timesheet::entry::Entry;
use timesheet::timelog::Log;
use timesheet::Date;

fn date(y: u16, m: u8, d: u8) -> Date {
    Date::new(y, m, d).unwrap()
}

#[test]
fn mod_by_date_empty() {
    let log = Log::parse("");
    let report = Log::by_date(&log);
    assert!(report.is_empty());
}

#[test]
fn mod_by_date_one_date() {
    let log = Log::parse("## 2024-02-13\n* 9-10 ABC\n* 10-11 DEF\n* 11-12 ABC\n");
    let report = Log::by_date(&log);
    let e1 = Entry::parse("9-10 ABC", &date(2024, 2, 13)).unwrap();
    let e2 = Entry::parse("10-11 DEF", &date(2024, 2, 13)).unwrap();
    let e3 = Entry::parse("11-12 ABC", &date(2024, 2, 13)).unwrap();
    let expected = vec![(date(2024, 2, 13), Log(vec![e1, e2, e3]))];
    assert_eq!(expected, report);
}

#[test]
fn mod_by_date_multiple_dates() {
    let log = Log::parse(
        "## 2024-02-13\n* 9-10 ABC\n* 10-11 DEF\n* 11-12 ABC\n## 2024-02-14\n* 9-10 ABC\n* 10-11 DEF\n",
    );
    let report = Log::by_date(&log);
    let e1 = Entry::parse("9-10 ABC", &date(2024, 2, 13)).unwrap();
    let e2 = Entry::parse("10-11 DEF", &date(2024, 2, 13)).unwrap();
    let e3 = Entry::parse("11-12 ABC", &date(2024, 2, 13)).unwrap();
    let e4 = Entry::parse("9-10 ABC", &date(2024, 2, 14)).unwrap();
    let e5 = Entry::parse("10-11 DEF", &date(2024, 2, 14)).unwrap();
    let expected = vec![
        (date(2024, 2, 13), Log(vec![e1, e2, e3])),
        (date(2024, 2, 14), Log(vec![e4, e5])),
    ];
    assert_eq!(expected, report);
}

#[test]
fn mod_by_project_empty() {
    let log = Log::parse("");
    let report = Log::by_project(&log);
    assert!(report.is_empty());
}

#[test]
fn by_project_one_date() {
    let log = Log::parse("## 2024-02-13\n* 9-10 ABC\n* 10-11 DEF\n* 11-12 ABC\n");
    let report = Log::by_project(&log);
    let e1 = Entry::parse("9-10 ABC", &date(2024, 2, 13)).unwrap();
    let e2 = Entry::parse("10-11 DEF", &date(2024, 2, 13)).unwrap();
    let e3 = Entry::parse("11-12 ABC", &date(2024, 2, 13)).unwrap();
    let expected = vec![
        ("ABC".to_owned(), Log(vec![e1, e3])),
        ("DEF".to_owned(), Log(vec![e2])),
    ];
    assert_eq!(expected, report);
}

#[test]
fn by_project_multiple_dates() {
    let log = Log::parse(
        "## 2024-02-13\n* 9-10 ABC\n* 10-11 DEF\n* 11-12 ABC\n## 2024-02-14\n* 9-10 ABC\n* 10-11 DEF\n",
    );
    let report = Log::by_project(&log);
    let e1 = Entry::parse("9-10 ABC", &date(2024, 2, 13)).unwrap();
    let e2 = Entry::parse("10-11 DEF", &date(2024, 2, 13)).unwrap();
    let e3 = Entry::parse("11-12 ABC", &date(2024, 2, 13)).unwrap();
    let e4 = Entry::parse("9-10 ABC", &date(2024, 2, 14)).unwrap();
    let e5 = Entry::parse("10-11 DEF", &date(2024, 2, 14)).unwrap();
    let expected = vec![
        ("ABC".to_owned(), Log(vec![e1, e3, e4])),
        ("DEF".to_owned(), Log(vec![e2, e5])),
    ];
    assert_eq!(expected, report);
}

#[test]
fn sum_duration_empty() {
    let log = Log::parse("");
    let duration = log.sum_duration();
    let expected: u64 = 0;
    assert_eq!(expected, duration);
}

#[test]
fn sum_duration_entries() {
    let log = Log::parse(
        "## 2024-02-13\n* 9-10 ABC\n* 10-11 DEF\n* 11-12 ABC\n## 2024-02-14\n* 9-10 ABC\n* 10-11 DEF\n",
    );
    let duration = log.sum_duration();
    let expected: u64 = 5 * 60;
    assert_eq!(expected, duration);
}
