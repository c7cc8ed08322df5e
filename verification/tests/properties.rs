use timesheet::entry::Entry;
use timesheet::parse_file_path;
use timesheet::report::{format_hours, sum_pairs, Fill, Report};
use timesheet::timelog::{parse_heading, Log};
use timesheet::Date;

fn date(y: u16, m: u8, d: u8) -> Date {
    Date::new(y, m, d).unwrap()
}

#[test]
fn scenario_three_entries() {
    let log = Log::parse("## 2024-02-13\n* 9-10 ABC\n* 10-11 DEF\n* 11-12 ABC\n");
    assert_eq!(3, log.0.len());
    let by_project = Report::by_project(&log);
    assert_eq!(
        Some(vec![("ABC".to_string(), 120), ("DEF".to_string(), 60)]),
        by_project.entries
    );
    assert_eq!(180, log.sum_duration());
}

#[test]
fn quoting_overrides_length_floor() {
    let result = Entry::parse("9-10 \"AB\"", &date(2024, 2, 13)).unwrap();
    assert_eq!("AB", result.project);
    assert_eq!(None, result.notes);
}

#[test]
fn zero_length_span_rejected() {
    assert_eq!(None, Entry::parse("9-9 ABC", &date(2024, 2, 13)));
    assert_eq!(None, Entry::parse("10:30 - 10:30: ABC", &date(2024, 2, 13)));
    assert_eq!(None, Entry::parse("11-10 ABC", &date(2024, 2, 13)));
}

#[test]
fn equal_entries_sort_adjacent() {
    let log = Log::parse("## 2024-02-13\n* 9-10 ABC first note\n* 9-10 ABC second note\n");
    assert_eq!(2, log.0.len());
    assert!(log.0[0] == log.0[1]);
    let notes: Vec<Option<String>> = log.0.iter().map(|e| e.notes.clone()).collect();
    assert!(notes.contains(&Some("first note".to_string())));
    assert!(notes.contains(&Some("second note".to_string())));
}

#[test]
fn canonical_form_reparses() {
    let d = date(2024, 2, 13);
    let original = Entry::parse("9:00 - 10:45: \"A B\" some note", &d).unwrap();
    let canonical = original.canonical_text();
    assert_eq!("09:00 - 10:45: \"A B\"", canonical);
    let reparsed = Entry::parse(&canonical, &d).unwrap();
    assert!(original == reparsed);
    assert_eq!(original.project, reparsed.project);
    assert_eq!(None, reparsed.notes);
}

#[test]
fn display_text_round() {
    let d = date(2024, 2, 13);
    let e = Entry::parse("9:00 - 10:45: ABC some note", &d).unwrap();
    assert_eq!("2024-02-13 | 09:00 - 10:45: ABC - some note", e.to_text());
    let plain = Entry::parse("9-10 DEF", &d).unwrap();
    assert_eq!("2024-02-13 | 09:00 - 10:00: DEF", plain.to_text());
    // the display form with its date prefix is not itself an entry line
    assert_eq!(None, Entry::parse(&e.to_text(), &d));
}

#[test]
fn display_tail_reparses_for_bare_projects() {
    // the display text after its date prefix is itself an entry line
    // whenever the project is a bare word
    let d = date(2024, 2, 13);
    let e = Entry::parse("9-10 ABC", &d).unwrap();
    let text = e.to_text();
    let tail = &text["2024-02-13 | ".len()..];
    assert_eq!("09:00 - 10:00: ABC", tail);
    let reparsed = Entry::parse(tail, &d).unwrap();
    assert!(e == reparsed);
    assert_eq!(e.project, reparsed.project);
}

#[test]
fn heading_dates() {
    assert_eq!(Some(date(2024, 2, 13)), parse_heading("2024-02-13"));
    assert_eq!(Some(date(2024, 2, 13)), parse_heading("week of 2024-02-13, continued"));
    // no extractable date leaves the scope unset
    assert_eq!(None, parse_heading("just a heading"));
    // the first candidate counts, even when it is not a real day
    assert_eq!(None, parse_heading("2024-13-99"));
    assert_eq!(None, parse_heading("2024-02-31"));
    // word boundaries are respected
    assert_eq!(None, parse_heading("x2024-02-13"));
    assert_eq!(None, parse_heading("2024-02-135"));
}

#[test]
fn heading_without_date_suppresses_list() {
    let log = Log::parse(
        "## 2024-02-13\n* 9-10 ABC\n## not a date\n* 10-11 DEF\n## 2024-02-14\n* 11-12 GHI\n",
    );
    let projects: Vec<String> = log.0.iter().map(|e| e.project.clone()).collect();
    assert_eq!(vec!["ABC".to_string(), "GHI".to_string()], projects);
}

#[test]
fn format_hours_rounding() {
    assert_eq!("0", format_hours(0));
    assert_eq!("3", format_hours(180));
    assert_eq!("1.5", format_hours(90));
    assert_eq!("0.17", format_hours(10));
    assert_eq!("1.67", format_hours(100));
    assert_eq!("0.02", format_hours(1));
    assert_eq!("24", format_hours(1440));
}

#[test]
fn grand_total_matches_by_date_rows() {
    let log = Log::parse(
        "## 2024-02-13\n* 9-10 ABC\n* 10-11 DEF\n## 2024-02-17\n* 9:00 - 10:30 ABC\n",
    );
    let by_date = Report::by_date(&log, Fill::Padded);
    let rows = by_date.entries.unwrap();
    let total = Report::total(&log);
    assert_eq!(Some(sum_pairs(&rows)), total.total);
    assert_eq!(Some(210), total.total);
}

#[test]
fn flattened_groups_reproduce_the_log() {
    let log = Log::parse(
        "## 2024-02-14\n* 9-10 ABC\n## 2024-02-13\n* 9-10 DEF\n* 10-11 ABC\n",
    );
    let mut flattened: Vec<Entry> = Vec::new();
    for (_, sub) in Log::by_date(&log) {
        for e in sub.0 {
            flattened.push(e);
        }
    }
    assert_eq!(log.0.len(), flattened.len());
    assert_eq!(Log::parse("## 2024-02-14\n* 9-10 ABC\n## 2024-02-13\n* 9-10 DEF\n* 10-11 ABC\n").0,
        flattened);
}

#[test]
fn colon_minutes_can_become_project() {
    // nothing valid follows "9:00", so the colon serves as the separator
    // and the digits begin the project
    let d = date(2024, 2, 13);
    let e = Entry::parse("5-9:00xyz", &d).unwrap();
    assert_eq!("00xyz", e.project);
    assert_eq!(5, e.from.time.hour);
    assert_eq!(0, e.from.time.minute);
    assert_eq!(9, e.until.time.hour);
    assert_eq!(0, e.until.time.minute);
    // with a well-formed tail the colon minutes stay minutes
    let f = Entry::parse("5-9:15 xyz", &d).unwrap();
    assert_eq!("xyz", f.project);
    assert_eq!(15, f.until.time.minute);
}

#[test]
fn any_heading_level_sets_the_date() {
    let log = Log::parse("# 2024-02-13\n* 9-10 ABC\n");
    assert_eq!(1, log.0.len());
    assert_eq!("ABC", log.0[0].project);
}

#[test]
fn sum_pairs_empty() {
    assert_eq!(0, sum_pairs(&vec![]));
    assert_eq!(90, sum_pairs(&vec![("ABC".to_string(), 60), ("DEF".to_string(), 30)]));
}

#[test]
fn file_path_validation() {
    assert_eq!(Ok("notes.md".to_string()), parse_file_path("notes.md", true));
    let denied = parse_file_path("missing.md", false);
    assert!(denied.is_err());
    assert_eq!("no such file", denied.unwrap_err().text());
}
