use data_sculptor::data_containers::{
    parse, parse_and_sort_by_date, CalendarDate, DateKey, DayDataParsed, DayDataUnparsed, EntryKey,
    EntryValue, ParseError,
};

fn unparsed(date: &str, entries: &[(&str, &str)]) -> DayDataUnparsed {
    DayDataUnparsed {
        date: date.to_string(),
        entries: entries.iter().map(|(k, v)| (k.to_string(), v.to_string())).collect(),
    }
}

fn check_invalid_dates() {
    let invalid_dates: [&str; 5] = ["ew", "", "2024-02-31", "2024--02-02", "2024.02.02"];
    for date in invalid_dates {
        let parsed = parse(unparsed(date, &[]));
        assert_eq!(parsed.unwrap_err(), ParseError::InvalidDate(date.to_string()));
    }
}

fn check_valid_parse() {
    let date = String::from("2024-02-02");
    let parsed = parse(unparsed(&date, &[("key :)", "value :)")]));
    assert!(parsed.is_ok());
    assert_eq!(
        parsed.as_ref().unwrap().date,
        DateKey { naive_date: CalendarDate { year: 2024, month: 2, day: 2 }, date_string: date }
    );
    let valid_entries = vec![(
        EntryKey { title: String::from("key :)") },
        EntryValue { string_value: String::from("value :)") },
    )];
    assert_eq!(parsed.unwrap().entries, valid_entries);
}

fn check_empty_vec() {
    let empty: Vec<DayDataUnparsed> = Vec::new();
    let parsed = parse_and_sort_by_date(empty).unwrap();
    assert_eq!(parsed.len(), 0);
}

fn check_valid_vec() {
    let entries = [("some", "thing"), ("some other", "thing")];
    let days = vec![unparsed("2024-01-08", &entries), unparsed("2023-01-09", &entries)];
    let parsed = parse_and_sort_by_date(days).unwrap();
    assert_eq!(parsed.len(), 2);
    let manual_parse1: Result<DayDataParsed, ParseError> = parse(unparsed("2023-01-09", &entries));
    let manual_parse2: Result<DayDataParsed, ParseError> = parse(unparsed("2024-01-08", &entries));
    assert_eq!(*(parsed.get(0).unwrap()), manual_parse1.unwrap());
    assert_eq!(*(parsed.get(1).unwrap()), manual_parse2.unwrap());
}

fn check_shared_dates_vec() {
    let entries = [("some", "thing"), ("some other", "thing")];
    let days = vec![unparsed("2024-01-09", &entries), unparsed("2024-01-09", &entries)];
    assert!(parse_and_sort_by_date(days).is_err());
}

fn check_cascades_parse_error() {
    let days = vec![unparsed("WRONG", &[])];
    let error = parse(unparsed("WRONG", &[])).unwrap_err();
    assert_eq!(parse_and_sort_by_date(days).unwrap_err(), error);
}

#[test]
fn data_containers_tests_test_parse_invalid_date() {
    check_invalid_dates();
}

#[test]
fn data_containers_tests_test_parse_valid() {
    check_valid_parse();
}

#[test]
fn data_containers_tests_test_empty_vec() {
    check_empty_vec();
}

#[test]
fn data_containers_tests_test_valid_vec() {
    check_valid_vec();
}

#[test]
fn data_containers_tests_test_shared_dates_vec() {
    check_shared_dates_vec();
}

#[test]
fn data_containers_tests_test_cascades_parse_error() {
    check_cascades_parse_error();
}

#[test]
fn data__containers_tests_test_parse_invalid_date() {
    check_invalid_dates();
}

#[test]
fn data__containers_tests_test_parse_valid() {
    check_valid_parse();
}

#[test]
fn data__containers_tests_test_empty_vec() {
    check_empty_vec();
}

#[test]
fn data__containers_tests_test_valid_vec() {
    check_valid_vec();
}

#[test]
fn data__containers_tests_test_shared_dates_vec() {
    check_shared_dates_vec();
}

#[test]
fn data__containers_tests_test_cascades_parse_error() {
    check_cascades_parse_error();
}

#[test]
fn data_tests_test_empty_vec() {
    check_empty_vec();
}

#[test]
fn duplicate_date_is_reported_with_its_text() {
    let days = vec![
        unparsed("2024-01-09", &[]),
        unparsed("2024-01-10", &[]),
        unparsed("2024-01-09", &[]),
        unparsed("WRONG", &[]),
    ];
    assert_eq!(
        parse_and_sort_by_date(days).unwrap_err(),
        ParseError::DuplicateDate("2024-01-09".to_string())
    );
    let days = vec![unparsed("2024-01-09", &[]), unparsed("nope", &[]), unparsed("2024-01-09", &[])];
    assert_eq!(parse_and_sort_by_date(days).unwrap_err(), ParseError::InvalidDate("nope".to_string()));
}

#[test]
fn sorting_orders_by_calendar_date() {
    let days = vec![
        unparsed("2024-03-01", &[]),
        unparsed("2023-12-31", &[]),
        unparsed("2024-02-29", &[]),
        unparsed("2024-01-15", &[]),
    ];
    let parsed = parse_and_sort_by_date(days).unwrap();
    let order: Vec<&str> = parsed.iter().map(|d| d.date.date_string.as_str()).collect();
    assert_eq!(order, vec!["2023-12-31", "2024-01-15", "2024-02-29", "2024-03-01"]);
}

#[test]
fn parse_error_messages_name_the_date() {
    assert_eq!(
        ParseError::InvalidDate("WRONG".to_string()).message(),
        "The date 'WRONG' is unparseable!"
    );
    assert_eq!(
        ParseError::DuplicateDate("2024-01-09".to_string()).message(),
        "The date '2024-01-09' is contained multiple times!"
    );
}

#[test]
fn repeated_title_keeps_its_place_and_takes_the_last_value() {
    let parsed = parse(unparsed("2024-01-01", &[("a", "1"), ("b", "2"), ("a", "3")])).unwrap();
    let got: Vec<(&str, &str)> = parsed
        .entries
        .iter()
        .map(|(k, v)| (k.title.as_str(), v.string_value.as_str()))
        .collect();
    assert_eq!(got, vec![("a", "3"), ("b", "2")]);
}
