use timesheet::timelog::Log;
use timesheet::utils::pad_dates;
use timesheet::{Date, DateRange, Entry};

fn date(y: u16, m: u8, d: u8) -> Date {
    Date::new(y, m, d).unwrap()
}

fn empty_log() -> Log {
    Log(vec![])
}

#[test]
fn contains() {
    let range = DateRange(date(2024, 2, 12), date(2024, 2, 16));
    assert!(!range.contains(&date(2024, 2, 11)));
    assert!(range.contains(&date(2024, 2, 12)));
    assert!(range.contains(&date(2024, 2, 14)));
    assert!(range.contains(&date(2024, 2, 16)));
    assert!(!range.contains(&date(2024, 2, 17)));
}

#[test]
fn iterator() {
    let range = DateRange(date(2024, 2, 12), date(2024, 2, 16));
    let result: Vec<String> = range.days().iter().map(|d| d.text()).collect();
    let expected = vec![
        "2024-02-12",
        "2024-02-13",
        "2024-02-14",
        "2024-02-15",
        "2024-02-16",
    ];
    assert_eq!(expected, result);
}

#[test]
fn pad_dates_empty() {
    let mut map: Vec<(Date, Log)> = vec![];
    let expected: Vec<(Date, Log)> = vec![];
    pad_dates(&mut map, None);
    assert_eq!(expected, map)
}

#[test]
fn pad_dates_consecutive() {
    let mut map = vec![
        (date(2024, 2, 13), empty_log()),
        (date(2024, 2, 14), empty_log()),
        (date(2024, 2, 15), empty_log()),
    ];
    let expected = vec![
        (date(2024, 2, 13), empty_log()),
        (date(2024, 2, 14), empty_log()),
        (date(2024, 2, 15), empty_log()),
    ];
    pad_dates(&mut map, None);
    assert_eq!(expected, map)
}

#[test]
fn pad_dates_gap() {
    let mut map = vec![
        (date(2024, 2, 13), empty_log()),
        // 2024-02-14 is missing
        (date(2024, 2, 15), empty_log()),
    ];
    let expected = vec![
        (date(2024, 2, 13), empty_log()),
        (date(2024, 2, 14), empty_log()),
        (date(2024, 2, 15), empty_log()),
    ];
    pad_dates(&mut map, None);
    assert_eq!(expected, map)
}

#[test]
fn pad_dates_multiple_gaps() {
    let mut map = vec![
        // 2024-02-12 is missing
        (date(2024, 2, 13), empty_log()),
        // 2024-02-14 is missing
        (date(2024, 2, 15), empty_log()),
        // 2024-02-16 is missing
        // 2024-02-17 is missing
        (date(2024, 2, 18), empty_log()),
    ];
    let expected = vec![
        // 2024-02-12 is not expected
        (date(2024, 2, 13), empty_log()),
        (date(2024, 2, 14), empty_log()),
        (date(2024, 2, 15), empty_log()),
        (date(2024, 2, 16), empty_log()),
        (date(2024, 2, 17), empty_log()),
        (date(2024, 2, 18), empty_log()),
    ];
    pad_dates(&mut map, None);
    assert_eq!(expected, map)
}

#[test]
fn pad_dates_default_range_is_min_max() {
    // keys out of order: the default range is still the span of the
    // smallest and largest key, and each key keeps its own log
    let d13 = date(2024, 2, 13);
    let d15 = date(2024, 2, 15);
    let e15 = Entry::parse("9-10 ABC", &d15).unwrap();
    let e13 = Entry::parse("10-11 DEF", &d13).unwrap();
    let mut map = vec![(d15, Log(vec![e15])), (d13, Log(vec![e13]))];
    pad_dates(&mut map, None);
    let keys: Vec<Date> = map.iter().map(|(d, _)| *d).collect();
    assert_eq!(vec![d13, date(2024, 2, 14), d15], keys);
    assert_eq!("DEF", map[0].1 .0[0].project);
    assert!(map[1].1 .0.is_empty());
    assert_eq!("ABC", map[2].1 .0[0].project);
}

#[test]
fn pad_dates_custom_range() {
    let range = DateRange(date(2024, 2, 12), date(2024, 2, 18));
    let mut map = vec![
        // 2024-02-12 is missing
        (date(2024, 2, 13), empty_log()),
        // 2024-02-14 is missing
        (date(2024, 2, 15), empty_log()),
        // 2024-02-16 is missing
        // 2024-02-17 is missing
        // 2024-02-18 is missing
        (date(2024, 2, 18), empty_log()),
    ];
    let expected = vec![
        (date(2024, 2, 12), empty_log()),
        (date(2024, 2, 13), empty_log()),
        (date(2024, 2, 14), empty_log()),
        (date(2024, 2, 15), empty_log()),
        (date(2024, 2, 16), empty_log()),
        (date(2024, 2, 17), empty_log()),
        (date(2024, 2, 18), empty_log()),
    ];
    pad_dates(&mut map, Some(range));
    assert_eq!(expected, map)
}

#[test]
fn pad_dates_input_outside_custom_range() {
    let range = DateRange(date(2024, 2, 12), date(2024, 2, 16));
    let mut map = vec![
        (date(2024, 2, 11), empty_log()), // outside range
        // 2024-02-12 is missing
        (date(2024, 2, 13), empty_log()),
        // 2024-02-14 is missing
        (date(2024, 2, 15), empty_log()),
        // 2024-02-16 is missing
        // 2024-02-17 is outside range
        // 2024-02-18 is outside range
        (date(2024, 2, 18), empty_log()), // outside range
    ];
    let expected = vec![
        (date(2024, 2, 12), empty_log()),
        (date(2024, 2, 13), empty_log()),
        (date(2024, 2, 14), empty_log()),
        (date(2024, 2, 15), empty_log()),
        (date(2024, 2, 16), empty_log()),
    ];
    pad_dates(&mut map, Some(range));
    assert_eq!(expected, map)
}
