use timesheet::entry::{DateTime, Entry, Time};
use timesheet::Date;

fn date() -> Date {
    Date::new(2024, 2, 13).unwrap()
}

fn datetime(h: u8, m: u8) -> DateTime {
    DateTime { date: date(), time: Time { hour: h, minute: m } }
}

#[test]
fn unrelated() {
    let result = Entry::parse("some unrelated list item", &date());
    assert_eq!(None, result);
}

#[test]
fn simple() {
    let result = Entry::parse("9:00 - 10:45: ABC", &date());
    assert_eq!(
        Some(Entry {
            from: datetime(9, 0),
            until: datetime(10, 45),
            project: "ABC".into(),
            notes: None
        }),
        result
    );
}

#[test]
fn with_note() {
    let result = Entry::parse("9:00 - 10:45: DEF some notes here", &date());
    assert_eq!(
        Some(Entry {
            from: datetime(9, 0),
            until: datetime(10, 45),
            project: "DEF".into(),
            notes: Some("some notes here".into())
        }),
        result
    );
}

#[test]
fn minimal() {
    let result = Entry::parse("9 1045 GHI", &date());
    assert_eq!(
        Some(Entry {
            from: datetime(9, 0),
            until: datetime(10, 45),
            project: "GHI".into(),
            notes: None
        }),
        result
    );
}

#[test]
fn minimal_with_syntax() {
    let result = Entry::parse("9-1045:JKL", &date());
    assert_eq!(
        Some(Entry {
            from: datetime(9, 0),
            until: datetime(10, 45),
            project: "JKL".into(),
            notes: None
        }),
        result
    );
}

#[test]
fn extra_whitespace() {
    let result = Entry::parse("   09:00  \t- \t10:45  :MNO", &date());
    assert_eq!(
        Some(Entry {
            from: datetime(9, 0),
            until: datetime(10, 45),
            project: "MNO".into(),
            notes: None
        }),
        result
    );
}

#[test]
fn quoted_project() {
    let result = Entry::parse("0900 1045 \"Some project\" with notes", &date());
    assert_eq!(
        Some(Entry {
            from: datetime(9, 0),
            until: datetime(10, 45),
            project: "Some project".into(),
            notes: Some("with notes".into())
        }),
        result
    );
}

#[test]
fn invalid_time() {
    let result = Entry::parse("9:00 - 24:15: ABC", &date());
    assert_eq!(None, result);
}

#[test]
fn no_project() {
    let result = Entry::parse("9:00 - 10:45", &date());
    assert_eq!(None, result);
}

#[test]
fn no_until() {
    let result = Entry::parse("9:00: ABC", &date());
    assert_eq!(None, result);
}

#[test]
fn project_name_too_short() {
    let result = Entry::parse("9-10:AB", &date());
    assert_eq!(None, result);
}

#[test]
fn cmp_from() {
    let a = Entry::parse("9-10:ABC", &date()).unwrap();
    let b = Entry::parse("10-11:ABC", &date()).unwrap();
    assert!(a < b);
    assert!(a <= b);
}

#[test]
fn cmp_until() {
    let a = Entry::parse("9-10:ABC", &date()).unwrap();
    let b = Entry::parse("9-11:ABC", &date()).unwrap();
    assert!(a < b);
    assert!(a <= b);
}

#[test]
fn cmp_project() {
    let a = Entry::parse("9-10:ABC", &date()).unwrap();
    let b = Entry::parse("9-10:DEF", &date()).unwrap();
    assert!(a < b);
    assert!(a <= b);
}

#[test]
fn eq() {
    let a = Entry::parse("9-10:ABC", &date()).unwrap();
    let b = Entry::parse("9-10:ABC", &date()).unwrap();
    assert!(a == b);
    let a = Entry::parse("9-10:ABC", &date()).unwrap();
    let b = Entry::parse("9:00 - 10:00: ABC", &date()).unwrap();
    assert!(a == b);
    let a = Entry::parse("9-10:ABC", &date()).unwrap();
    let b = Entry::parse("9-10:ABC notes are not taken into account", &date()).unwrap();
    assert!(a == b);
}
