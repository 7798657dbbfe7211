use data_sculptor::command_parser;
use data_sculptor::data_containers::{CalendarDate, DateKey, DayDataParsed, EntryKey, EntryValue};
use data_sculptor::expression_parser::{self, infix_to_postfix, tokenize, Token};
use data_sculptor::filter::{filter_data, filter_day, filter_key, Filter, FilterID, FilterType};
use data_sculptor::filter_commands::{DateOp, FilterCommand};
use data_sculptor::filter_expression::{EvalData, FilterExpression};
use data_sculptor::number::CompareOp;
use indexmap::IndexMap;

fn day(date: (i32, u32, u32), date_text: &str, entries: &[(&str, &str)]) -> DayDataParsed {
    DayDataParsed {
        date: DateKey {
            naive_date: CalendarDate { year: date.0, month: date.1, day: date.2 },
            date_string: date_text.to_string(),
        },
        entries: entries
            .iter()
            .map(|(k, v)| {
                (EntryKey { title: k.to_string() }, EntryValue { string_value: v.to_string() })
            })
            .collect(),
    }
}

fn eval(expr: &FilterExpression, record: &DayDataParsed, key: &str, ft: FilterType) -> bool {
    let key = EntryKey { title: key.to_string() };
    expr.evaluate(&EvalData { day: record, key: &key, filter_type: &ft })
}

fn contains_text(expr: &FilterExpression) -> Option<&str> {
    match expr {
        FilterExpression::SingleCommand(FilterCommand::Contains(t)) => Some(t.as_str()),
        _ => None,
    }
}

fn filter_map(list: Vec<Filter>) -> IndexMap<FilterID, Filter> {
    let mut map = IndexMap::new();
    for f in list {
        map.insert(FilterID::from_expression(&f.expression), f);
    }
    map
}

fn filter(text: &str, ft: FilterType) -> Filter {
    Filter {
        title: text.to_string(),
        expression: expression_parser::parse(&ft, text).expect("filter should parse"),
        filter_type: ft,
    }
}

#[test]
fn and_binds_tighter_than_or() {
    let e = expression_parser::parse(
        &FilterType::Key,
        "{contains \"a\"} or {contains \"b\"} and {contains \"c\"}",
    )
    .unwrap();
    match e {
        FilterExpression::Or(a, bc) => {
            assert_eq!(contains_text(&a), Some("a"));
            match *bc {
                FilterExpression::And(b, c) => {
                    assert_eq!(contains_text(&b), Some("b"));
                    assert_eq!(contains_text(&c), Some("c"));
                }
                other => panic!("expected and, got {:?}", other),
            }
        }
        other => panic!("expected or, got {:?}", other),
    }
}

#[test]
fn equal_precedence_groups_to_the_left() {
    let e = expression_parser::parse(
        &FilterType::Key,
        "{contains \"a\"} and {contains \"b\"} nand {contains \"c\"}",
    )
    .unwrap();
    match e {
        FilterExpression::Nand(ab, c) => {
            assert!(matches!(*ab, FilterExpression::And(_, _)));
            assert_eq!(contains_text(&c), Some("c"));
        }
        other => panic!("expected nand, got {:?}", other),
    }
}

#[test]
fn text_after_the_closing_quote_is_rejected() {
    assert!(command_parser::parse(&FilterType::Key, "contains \"a\" \"b\"".to_string()).is_none());
    assert!(command_parser::parse(&FilterType::Key, "contains \"a\"x".to_string()).is_none());
    match command_parser::parse(&FilterType::Key, "contains \"a\"".to_string()) {
        Some(FilterCommand::Contains(t)) => assert_eq!(t, "a"),
        other => panic!("unexpected {:?}", other),
    }
    assert!(command_parser::parse(&FilterType::Key, "contains  \"a\"".to_string()).is_none());
    assert!(command_parser::parse(&FilterType::Key, "contains\"a\"".to_string()).is_none());
}

#[test]
fn keywords_follow_the_filter_type() {
    assert!(command_parser::parse(&FilterType::Value, "contains \"a\"".to_string()).is_none());
    assert!(command_parser::parse(&FilterType::Key, "kv-contains \"k\" \"a\"".to_string()).is_none());
    match command_parser::parse(&FilterType::Value, "kv-contains \"k\" \"a\"".to_string()) {
        Some(FilterCommand::KeyValueContains(k, t)) => {
            assert_eq!(k, "k");
            assert_eq!(t, "a");
        }
        other => panic!("unexpected {:?}", other),
    }
    assert!(command_parser::parse(&FilterType::Key, "date after \"2024-01-01\"".to_string()).is_none());
    match command_parser::parse(&FilterType::Value, "kv-numop \"speed\" \"<\" \"12\"".to_string()) {
        Some(FilterCommand::KeyValueNumOp(k, CompareOp::Less, n)) => {
            assert_eq!(k, "speed");
            assert_eq!((n.negative, n.mantissa, n.scale), (false, 12, 0));
        }
        other => panic!("unexpected {:?}", other),
    }
}

#[test]
fn numop_reads_the_digits_of_a_value() {
    let e = expression_parser::parse(&FilterType::Key, "numop \">\" \"5\"").unwrap();
    let record = day((2024, 1, 1), "2024-01-01", &[("12kg", "x")]);
    assert!(eval(&e, &record, "12kg", FilterType::Key));
    assert!(!eval(&e, &record, "abc", FilterType::Key));
    assert!(!eval(&e, &record, "3kg", FilterType::Key));
    assert!(!eval(&e, &record, "5", FilterType::Key));
    assert!(!eval(&e, &record, "1.2.3", FilterType::Key));
    let less = expression_parser::parse(&FilterType::Key, "numop \"<\" \"-1.5\"").unwrap();
    assert!(!eval(&less, &record, "0.5", FilterType::Key));
    let frac = expression_parser::parse(&FilterType::Key, "numop \">\" \"2.25\"").unwrap();
    assert!(eval(&frac, &record, "w 2.3", FilterType::Key));
    assert!(!eval(&frac, &record, "2.25", FilterType::Key));
    assert!(command_parser::parse(&FilterType::Key, "numop \"=\" \"5\"".to_string()).is_none());
    assert!(command_parser::parse(&FilterType::Key, "numop \">\" \"five\"".to_string()).is_none());
}

#[test]
fn kv_numop_compares_the_named_value() {
    let e = expression_parser::parse(&FilterType::Value, "kv-numop \"speed\" \"<\" \"12\"").unwrap();
    let slow = day((2024, 1, 1), "2024-01-01", &[("speed", "10 km/h")]);
    let fast = day((2024, 1, 1), "2024-01-01", &[("speed", "15 km/h")]);
    let other = day((2024, 1, 1), "2024-01-01", &[("weight", "15")]);
    assert!(eval(&e, &slow, "speed", FilterType::Value));
    assert!(!eval(&e, &fast, "speed", FilterType::Value));
    assert!(eval(&e, &other, "weight", FilterType::Value));
}

#[test]
fn date_after_accepts_only_later_days() {
    let e = expression_parser::parse(&FilterType::Date, "date after \"2024-01-01\"").unwrap();
    match &e {
        FilterExpression::SingleCommand(FilterCommand::Date(DateOp::After, d)) => {
            assert_eq!(*d, CalendarDate { year: 2024, month: 1, day: 1 });
        }
        other => panic!("unexpected {:?}", other),
    }
    let earlier = day((2023, 12, 31), "2023-12-31", &[("k", "v")]);
    let same = day((2024, 1, 1), "2024-01-01", &[("k", "v")]);
    let later = day((2024, 1, 2), "2024-01-02", &[("k", "v")]);
    assert!(!eval(&e, &earlier, "k", FilterType::Date));
    assert!(!eval(&e, &same, "k", FilterType::Date));
    assert!(eval(&e, &later, "k", FilterType::Date));
    let before = expression_parser::parse(&FilterType::Date, "date before \"2024-01-01\"").unwrap();
    assert!(eval(&before, &earlier, "k", FilterType::Date));
    assert!(!eval(&before, &same, "k", FilterType::Date));
}

#[test]
fn malformed_dates_do_not_parse() {
    for text in ["date after \"2024-02-31\"", "date after \"2024.02.02\"", "date after \"soon\"", "date during \"2024-01-01\""] {
        assert!(command_parser::parse(&FilterType::Date, text.to_string()).is_none(), "{}", text);
        assert!(expression_parser::parse(&FilterType::Date, text).is_none(), "{}", text);
    }
}

#[test]
fn combinators_follow_truth_tables() {
    let record = day((2024, 1, 1), "2024-01-01", &[("key", "v")]);
    let t = "{contains \"k\"}";
    let f = "{contains \"z\"}";
    for (a, x) in [(t, true), (f, false)] {
        for (b, y) in [(t, true), (f, false)] {
            for (op, want) in [
                ("and", x && y),
                ("or", x || y),
                ("xor", x != y),
                ("nor", !(x || y)),
                ("nand", !(x && y)),
                ("xnor", x == y),
            ] {
                let text = format!("{} {} {}", a, op, b);
                let e = expression_parser::parse(&FilterType::Key, &text).unwrap();
                assert_eq!(eval(&e, &record, "key", FilterType::Key), want, "{}", text);
            }
        }
    }
}

#[test]
fn negated_conjunction_excludes_matching_key() {
    let f = filter("not ({contains \"x\"} and {contains \"y\"})", FilterType::Key);
    let record = day((2024, 1, 1), "2024-01-01", &[("xy", "v")]);
    assert!(!eval(&f.expression, &record, "xy", FilterType::Key));
    let key = EntryKey { title: "xy".to_string() };
    assert!(!filter_key(&record, &key, &filter_map(vec![f])));
    let f = filter("not ({contains \"x\"} and {contains \"y\"})", FilterType::Key);
    let g = filter("contains \"xy\"", FilterType::Key);
    assert!(filter_key(&record, &key, &filter_map(vec![f, g])));
    assert!(filter_key(&record, &key, &filter_map(vec![])));
}

#[test]
fn failing_date_filter_hides_the_whole_day() {
    let record = day((2024, 1, 1), "2024-01-01", &[("speed", "10"), ("mood", "good")]);
    let pass_value = filter("kv-contains \"mood\" \"good\"", FilterType::Value);
    let fail_date = filter("date after \"2024-06-01\"", FilterType::Date);
    let pass_date = filter("contains \"2024\"", FilterType::Date);
    assert!(!filter_day(&record, &filter_map(vec![pass_date, fail_date]), &filter_map(vec![pass_value])));
    let pass_value = filter("kv-contains \"mood\" \"good\"", FilterType::Value);
    let pass_date = filter("contains \"2024\"", FilterType::Date);
    assert!(filter_day(&record, &filter_map(vec![pass_date]), &filter_map(vec![pass_value])));
    let fail_value = filter("kv-contains \"mood\" \"bad\"", FilterType::Value);
    assert!(!filter_day(&record, &filter_map(vec![]), &filter_map(vec![fail_value])));
    assert!(filter_day(&record, &filter_map(vec![]), &filter_map(vec![])));
}

#[test]
fn unbalanced_parenthesis_does_not_parse() {
    assert!(expression_parser::parse(&FilterType::Key, "( {contains \"a\"}").is_none());
    assert!(expression_parser::parse(&FilterType::Key, "{contains \"a\"} )").is_none());
    assert!(expression_parser::parse(&FilterType::Key, "() and {contains \"a\"}").is_none());
    assert!(expression_parser::parse(&FilterType::Key, "({contains \"a\"})").is_some());
}

#[test]
fn bare_command_reads_as_braced_command() {
    let bare = expression_parser::parse(&FilterType::Key, "contains \"a\"").unwrap();
    let braced = expression_parser::parse(&FilterType::Key, "{contains \"a\"}").unwrap();
    assert_eq!(contains_text(&bare), Some("a"));
    assert_eq!(contains_text(&braced), Some("a"));
    assert!(expression_parser::parse(&FilterType::Key, "contains \"a\" and").is_none());
    assert!(expression_parser::parse(&FilterType::Key, "{contains \"a\"").is_some());
}

#[test]
fn structural_errors_do_not_parse() {
    for text in [
        "",
        "and",
        "{contains \"a\"} and",
        "{contains \"a\"} {contains \"b\"}",
        "{contains \"a\"} implies {contains \"b\"}",
        "{contains \"a\"} & {contains \"b\"}",
        "not",
    ] {
        assert!(expression_parser::parse(&FilterType::Key, text).is_none(), "{}", text);
    }
    assert!(expression_parser::parse(&FilterType::Key, "not {contains \"a\"}").is_some());
}

#[test]
fn value_filters_fail_open_for_other_commands() {
    let record = day((2024, 1, 1), "2024-01-01", &[("k", "v")]);
    let key_cmd = expression_parser::parse(&FilterType::Key, "contains \"zzz\"").unwrap();
    assert!(eval(&key_cmd, &record, "k", FilterType::Value));
    let date_cmd = expression_parser::parse(&FilterType::Date, "date after \"2030-01-01\"").unwrap();
    assert!(eval(&date_cmd, &record, "k", FilterType::Key));
    assert!(!eval(&date_cmd, &record, "k", FilterType::Date));
}

#[test]
fn filter_data_keeps_shown_days_and_listed_entries() {
    let days = vec![
        day((2024, 1, 1), "2024-01-01", &[("speed", "10"), ("mood", "good")]),
        day((2024, 1, 2), "2024-01-02", &[("speed", "30"), ("mood", "bad")]),
        day((2024, 1, 3), "2024-01-03", &[("speed", "5"), ("mood", "good")]),
    ];
    let date_filters = filter_map(vec![filter("date after \"2024-01-01\"", FilterType::Date)]);
    let key_filters = filter_map(vec![filter("contains \"spe\"", FilterType::Key)]);
    let value_filters =
        filter_map(vec![filter("kv-numop \"speed\" \"<\" \"20\"", FilterType::Value)]);
    let out = filter_data(&days, &date_filters, &key_filters, &value_filters);
    assert_eq!(
        out,
        vec![("2024-01-03".to_string(), vec![("speed".to_string(), "5".to_string())])]
    );
    let none = filter_map(vec![]);
    let all = filter_data(&days, &none, &none, &none);
    assert_eq!(all.len(), 3);
    assert_eq!(all[1].1.len(), 2);
}

#[test]
fn compile_keeps_the_title_and_identifies_the_tree() {
    let (id, f) = Filter::compile(FilterType::Value, "kv-contains \"mood\" \"good\"").unwrap();
    assert_eq!(f.title, "kv-contains \"mood\" \"good\"");
    assert_eq!(f.filter_type, FilterType::Value);
    assert_eq!(id, FilterID::from_expression(&f.expression));
    let (same, _) = Filter::compile(FilterType::Value, "{kv-contains \"mood\" \"good\"}").unwrap();
    assert_eq!(id, same);
    assert!(Filter::compile(FilterType::Key, "kv-contains \"mood\" \"good\"").is_none());
}

#[test]
fn filter_id_follows_the_tree() {
    let a = expression_parser::parse(&FilterType::Key, "contains \"a\"").unwrap();
    let b = expression_parser::parse(&FilterType::Key, "{contains \"a\"}").unwrap();
    let c = expression_parser::parse(&FilterType::Key, "{contains \"b\"}").unwrap();
    let d = expression_parser::parse(&FilterType::Key, "not {contains \"a\"}").unwrap();
    let ida = FilterID::from_expression(&a);
    assert_eq!(ida, FilterID::from_expression(&b));
    assert_ne!(ida, FilterID::from_expression(&c));
    assert_ne!(ida, FilterID::from_expression(&d));
    assert_eq!(FilterID::from(7u64), FilterID { numeric_id: 7 });
}

#[test]
fn numop_is_exact_for_long_values_and_signs() {
    let record = day((2024, 1, 1), "2024-01-01", &[("k", "v")]);
    let gt5 = expression_parser::parse(&FilterType::Key, "numop \">\" \"5\"").unwrap();
    assert!(eval(&gt5, &record, "12345678901234567890123 units", FilterType::Key));
    assert!(!eval(&gt5, &record, "4.99999999999999999999999", FilterType::Key));
    assert!(eval(&gt5, &record, "5.00000000000000000000001", FilterType::Key));
    assert!(!eval(&gt5, &record, "5.000000000000000000000000", FilterType::Key));
    let lt_small = expression_parser::parse(&FilterType::Key, "numop \"<\" \"0.0000001\"").unwrap();
    assert!(eval(&lt_small, &record, "0.00000000000000000000001", FilterType::Key));
    assert!(!eval(&lt_small, &record, "0.0000001", FilterType::Key));
    let gt_neg = expression_parser::parse(&FilterType::Key, "numop \">\" \"-1\"").unwrap();
    assert!(eval(&gt_neg, &record, "0", FilterType::Key));
    assert!(!eval(&gt_neg, &record, "none", FilterType::Key));
    let gt_neg_zero = expression_parser::parse(&FilterType::Key, "numop \">\" \"-0\"").unwrap();
    assert!(!eval(&gt_neg_zero, &record, "0.000", FilterType::Key));
    assert!(eval(&gt_neg_zero, &record, "0.001", FilterType::Key));
    let lt_neg = expression_parser::parse(&FilterType::Key, "numop \"<\" \"-1\"").unwrap();
    assert!(!eval(&lt_neg, &record, "-5", FilterType::Key));
    let dot_only = expression_parser::parse(&FilterType::Key, "numop \"<\" \"100\"").unwrap();
    assert!(!eval(&dot_only, &record, "v.", FilterType::Key));
    assert!(eval(&dot_only, &record, ".5", FilterType::Key));
    assert!(eval(&dot_only, &record, "7.", FilterType::Key));
}

fn token_names(tokens: &[Token]) -> Vec<String> {
    tokens
        .iter()
        .map(|t| match t {
            Token::Operator(s) => format!("op:{}", s),
            Token::FilterCommand(s) => format!("cmd:{}", s),
            Token::LeftParenthesis => "(".to_string(),
            Token::RightParenthesis => ")".to_string(),
            Token::Invalid => "invalid".to_string(),
        })
        .collect()
}

#[test]
fn tokens_and_postfix_order() {
    let chars: Vec<char> = "not ({a} or {b}) and {c} )".chars().collect();
    let tokens = tokenize(&chars);
    assert_eq!(
        token_names(&tokens),
        vec!["op:not", "(", "cmd:a", "op:or", "cmd:b", ")", "op:and", "cmd:c", "invalid"]
    );
    let postfix = infix_to_postfix(tokens);
    assert_eq!(
        token_names(&postfix),
        vec!["cmd:a", "cmd:b", "op:or", "op:not", "cmd:c", "invalid", "op:and"]
    );
    let chars: Vec<char> = "() {x".chars().collect();
    assert_eq!(token_names(&tokenize(&chars)), vec!["(", "invalid", ")", "cmd:x"]);
    let chars: Vec<char> = "((x".chars().collect();
    assert_eq!(token_names(&tokenize(&chars)), vec!["(", "(", "op:x", "invalid"]);
}

#[test]
fn date_filters_apply_to_records_without_entries() {
    let empty = day((2023, 6, 1), "2023-06-01", &[]);
    let not_2023 = filter_map(vec![filter("not {contains \"2023\"}", FilterType::Date)]);
    let none = filter_map(vec![]);
    assert!(!filter_day(&empty, &not_2023, &none));
    let after = filter_map(vec![filter("date after \"2024-01-01\"", FilterType::Date)]);
    assert!(!filter_day(&empty, &after, &none));
    let before = filter_map(vec![filter("date before \"2024-01-01\"", FilterType::Date)]);
    assert!(filter_day(&empty, &before, &none));
    assert!(filter_day(&empty, &none, &none));
}
