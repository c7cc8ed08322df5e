use timesheet::report::{Fill, Report};
use timesheet::timelog::Log;
use timesheet::Date;

fn date(y: u16, m: u8, d: u8) -> Date {
    Date::new(y, m, d).unwrap()
}

fn hours(h: u64) -> u64 {
    h * 60
}

#[test]
fn report_by_date_empty() {
    let log = Log(vec![]);
    let report = Report::by_date(&log, Fill::Sparse);
    assert_eq!(
        Report { title: "By date".to_owned(), entries: Some(vec![]), total: None },
        report
    );
    let report = Report::by_date(&log, Fill::Padded);
    assert_eq!(
        Report { title: "By date".to_owned(), entries: Some(vec![]), total: None },
        report
    );
}

#[test]
fn report_by_date_one_date() {
    let log = Log::parse("## 2024-02-13\n* 9-10 ABC\n* 10-11 DEF\n* 11-12 ABC\n");
    let report = Report::by_date(&log, Fill::Sparse);
    assert_eq!(
        Report {
            title: "By date".to_owned(),
            entries: Some(vec![(date(2024, 2, 13).text(), hours(3))]),
            total: None
        },
        report
    );
}

#[test]
fn report_by_date_multiple_dates() {
    let log = Log::parse(
        "## 2024-02-13\n* 9-10 ABC\n* 10-11 DEF\n* 11-12 ABC\n## 2024-02-14\n* 9-10 ABC\n* 10-11 DEF\n",
    );
    let report = Report::by_date(&log, Fill::Sparse);
    assert_eq!(
        Report {
            title: "By date".to_owned(),
            entries: Some(vec![
                (date(2024, 2, 13).text(), hours(3)),
                (date(2024, 2, 14).text(), hours(2)),
            ]),
            total: None
        },
        report
    );
}

#[test]
fn by_date_multiple_dates_sparse() {
    let log = Log::parse(
        "## 2024-02-13\n* 9-10 ABC\n* 10-11 DEF\n* 11-12 ABC\n## 2024-02-17\n* 9-10 ABC\n* 10-11 DEF\n",
    );
    let report = Report::by_date(&log, Fill::Sparse);
    assert_eq!(
        Report {
            title: "By date".to_owned(),
            entries: Some(vec![
                (date(2024, 2, 13).text(), hours(3)),
                (date(2024, 2, 17).text(), hours(2)),
            ]),
            total: None
        },
        report
    );
}

#[test]
fn by_date_multiple_dates_padded() {
    let log = Log::parse(
        "## 2024-02-13\n* 9-10 ABC\n* 10-11 DEF\n* 11-12 ABC\n## 2024-02-17\n* 9-10 ABC\n* 10-11 DEF\n",
    );
    let report = Report::by_date(&log, Fill::Padded);
    assert_eq!(
        Report {
            title: "By date".to_owned(),
            entries: Some(vec![
                (date(2024, 2, 13).text(), hours(3)),
                (date(2024, 2, 14).text(), 0),
                (date(2024, 2, 15).text(), 0),
                (date(2024, 2, 16).text(), 0),
                (date(2024, 2, 17).text(), hours(2)),
            ]),
            total: None
        },
        report
    );
}

#[test]
fn report_by_project_empty() {
    let log = Log(vec![]);
    let report = Report::by_project(&log);
    assert_eq!(
        Report { title: "By project".to_owned(), entries: Some(vec![]), total: None },
        report
    );
    let report = Report::by_project(&log);
    assert_eq!(
        Report { title: "By project".to_owned(), entries: Some(vec![]), total: None },
        report
    );
}

#[test]
fn by_project_one_project() {
    let log = Log::parse("## 2024-02-13\n* 9-10 ABC\n* 10-11 ABC\n## 2024-02-14\n* 9-10 ABC\n");
    let report = Report::by_project(&log);
    assert_eq!(
        Report {
            title: "By project".to_owned(),
            entries: Some(vec![("ABC".to_string(), hours(3))]),
            total: None
        },
        report
    );
}

#[test]
fn by_project_multiple_projects() {
    let log = Log::parse("## 2024-02-13\n* 9-10 ABC\n* 10-11 DEF\n## 2024-02-14\n* 9-10 ABC\n");
    let report = Report::by_project(&log);
    assert_eq!(
        Report {
            title: "By project".to_owned(),
            entries: Some(vec![
                ("ABC".to_string(), hours(2)),
                ("DEF".to_string(), hours(1)),
            ]),
            total: None
        },
        report
    );
}

#[test]
fn total() {
    let log = Log::parse("## 2024-02-13\n* 9-10 ABC\n* 10-11 DEF\n## 2024-02-14\n* 9-10 ABC\n");
    let report = Report::total(&log);
    assert_eq!(
        Report { title: "Total".to_owned(), entries: None, total: Some(hours(3)) },
        report
    );
}

#[test]
fn by_date_by_project_sparse() {
    let log = Log::parse("## 2024-02-13\n* 9-10 ABC\n* 10-11 DEF\n## 2024-02-16\n* 9-10 ABC\n");
    let report = Report::by_date_by_project(&log, Fill::Sparse);
    assert_eq!(
        vec![
            Report {
                title: "2024-02-13".to_owned(),
                entries: Some(vec![
                    ("ABC".to_string(), hours(1)),
                    ("DEF".to_string(), hours(1)),
                ]),
                total: Some(hours(2))
            },
            Report {
                title: "2024-02-16".to_owned(),
                entries: Some(vec![("ABC".to_string(), hours(1))]),
                total: Some(hours(1))
            },
        ],
        report
    );
}

#[test]
fn by_date_by_project_padded() {
    let log = Log::parse("## 2024-02-13\n* 9-10 ABC\n* 10-11 DEF\n## 2024-02-16\n* 9-10 ABC\n");
    let report = Report::by_date_by_project(&log, Fill::Padded);
    assert_eq!(
        vec![
            Report {
                title: "2024-02-13".to_owned(),
                entries: Some(vec![
                    ("ABC".to_string(), hours(1)),
                    ("DEF".to_string(), hours(1)),
                ]),
                total: Some(hours(2))
            },
            Report {
                title: "2024-02-14".to_owned(),
                entries: Some(vec![]),
                total: Some(0)
            },
            Report {
                title: "2024-02-15".to_owned(),
                entries: Some(vec![]),
                total: Some(0)
            },
            Report {
                title: "2024-02-16".to_owned(),
                entries: Some(vec![("ABC".to_string(), hours(1))]),
                total: Some(hours(1))
            },
        ],
        report
    );
}

#[test]
fn fmt_as_text_emtpy() {
    colored::control::set_override(true);
    let report = Report { title: "By project".to_owned(), entries: None, total: None };
    let result = report.text().to_text();
    let expected = "\u{1b}[1mBy project\u{1b}[0m\n";
    assert_eq!(expected, result);
}

#[test]
fn fmt_as_text_with_entries() {
    colored::control::set_override(true);
    let report = Report {
        title: "By project".to_owned(),
        entries: Some(vec![
            ("ABC".to_string(), hours(2)),
            ("DEF".to_string(), hours(1)),
        ]),
        total: None,
    };
    let result = report.text().to_text();
    let expected = "\u{1b}[1mBy project\u{1b}[0m\nABC: 2\nDEF: 1\n";
    assert_eq!(expected, result);
}

#[test]
fn fmt_as_text_with_total() {
    colored::control::set_override(true);
    let report = Report { title: "Total".to_owned(), entries: None, total: Some(hours(3)) };
    let result = report.text().to_text();
    let expected = "\u{1b}[1mTotal\u{1b}[0m: 3\n";
    assert_eq!(expected, result);
}

#[test]
fn fmt_as_text_with_entries_and_total() {
    colored::control::set_override(true);
    let report = Report {
        title: "By project".to_owned(),
        entries: Some(vec![
            ("ABC".to_string(), hours(2)),
            ("DEF".to_string(), hours(1)),
        ]),
        total: Some(hours(3)),
    };
    let result = report.text().to_text();
    let expected = "\u{1b}[1mBy project\u{1b}[0m: 3\nABC: 2\nDEF: 1\n";
    assert_eq!(expected, result);
}
