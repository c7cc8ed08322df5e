use timesheet::entry::{DateTime, Entry, Time};
use timesheet::timelog::Log;
use timesheet::Date;

fn datetime(y: u16, mo: u8, d: u8, hours: u8, minutes: u8) -> DateTime {
    DateTime {
        date: Date::new(y, mo, d).unwrap(),
        time: Time { hour: hours, minute: minutes },
    }
}

fn entry(y: u16, mo: u8, d: u8, fh: u8, uh: u8, project: &str) -> Entry {
    Entry {
        from: datetime(y, mo, d, fh, 0),
        until: datetime(y, mo, d, uh, 0),
        project: project.into(),
        notes: None,
    }
}

#[test]
fn parse_empty_file() {
    let log = Log::parse("");
    assert!(log.0.is_empty());
}

#[test]
fn parse_unrelated_list() {
    let log = Log::parse("## Just some list\n* A list\n* But no timelog entries\n");
    assert!(log.0.is_empty());
}

#[test]
fn parse_list_empty_items() {
    let log = Log::parse("## 2024-02-13\n*\n*\n");
    assert!(log.0.is_empty());
}

#[test]
fn parse_no_list() {
    let log = Log::parse("## 2024-02-13\nJust some notes, no list of timelog entries\n");
    assert!(log.0.is_empty());
}

#[test]
fn parse_list_without_entries() {
    let log = Log::parse("## 2024-02-13\n* A list\n* But no timelog entries\n");
    assert!(log.0.is_empty());
}

#[test]
fn parse_simple_list() {
    let log = Log::parse("## 2024-02-13\n* 9-10 ABC\n* 10-11 DEF\n");
    let expected = Log(vec![
        entry(2024, 2, 13, 9, 10, "ABC"),
        entry(2024, 2, 13, 10, 11, "DEF"),
    ]);
    assert_eq!(expected, log);
}

#[test]
fn parse_unrelated_paragraph_and_simple_list() {
    let log = Log::parse(
        "## 2024-02-13\nSome unrelated text, followed by list with entries:\n* 9-10 ABC\n* 10-11 DEF\n",
    );
    let expected = Log(vec![
        entry(2024, 2, 13, 9, 10, "ABC"),
        entry(2024, 2, 13, 10, 11, "DEF"),
    ]);
    assert_eq!(expected, log);
}

#[test]
fn parse_mixed_list() {
    let log = Log::parse(
        "## 2024-02-13\nSome unrelated text, followed by list with entries mixed with notes:\n* 9-10 ABC\n  * Notes about this entry\n* Some unrelated list item\n* 10-11 DEF\n",
    );
    let expected = Log(vec![
        entry(2024, 2, 13, 9, 10, "ABC"),
        entry(2024, 2, 13, 10, 11, "DEF"),
    ]);
    assert_eq!(expected, log);
}

#[test]
fn parse_multiple_dates_mixed_content() {
    let log = Log::parse(
        "## 2024-02-13\nSome unrelated text, followed by list with entries mixed with notes:\n* 9-10 ABC\n  * Notes about this entry\n* Some unrelated list item\n* 10-11 DEF\n## 2024-02-14\n* 9-10 ABC\n",
    );
    let expected = Log(vec![
        entry(2024, 2, 13, 9, 10, "ABC"),
        entry(2024, 2, 13, 10, 11, "DEF"),
        entry(2024, 2, 14, 9, 10, "ABC"),
    ]);
    assert_eq!(expected, log);
}

#[test]
fn parse_multiple_dates_unordered_and_repeating() {
    let log = Log::parse(
        "## 2024-02-13\n* 9-10 ABC\n* 10-11 DEF\n## 2024-02-14\n* 9-10 ABC\n## 2024-02-13\n* 11-12 GHI\n",
    );
    let expected = Log(vec![
        entry(2024, 2, 13, 9, 10, "ABC"),
        entry(2024, 2, 13, 10, 11, "DEF"),
        entry(2024, 2, 13, 11, 12, "GHI"),
        entry(2024, 2, 14, 9, 10, "ABC"),
    ]);
    assert_eq!(expected, log);
}
