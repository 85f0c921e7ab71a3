use chrono::{Datelike, NaiveDate, Timelike};
use trainlog::error::{Field, ParseError};
use trainlog::time::{parse_time, Timestamp};
use trainlog::tokens::TokenMap;
use trainlog::train::{
    assemble_train_record, build_train_record, check_train_line, collect_fields,
    parse_train_line, parse_train_log, split_bracket, split_key_value, TrainPositionRecord,
};

fn chars(s: &str) -> Vec<char> {
    s.chars().collect()
}

fn stamp(y: i32, mo: u32, d: u32, h: u32, mi: u32, s: u32, ms: u32) -> Timestamp {
    let t = NaiveDate::from_ymd_opt(y, mo, d).unwrap().and_hms_milli_opt(h, mi, s, ms).unwrap();
    Timestamp {
        days: t.num_days_from_ce(),
        secs: t.num_seconds_from_midnight(),
        nanos: t.nanosecond(),
    }
}

fn line(time: &str, number: &str, head: &str, tail: &str, height: &str, pos: &str) -> String {
    format!("[{time}] train number:{number} head:{head} tail:{tail} height:{height} pos:{pos}")
}

#[test]
fn test_parse_data() {
    let text = "[2025-10-31 14:02:03.125] INFO train state number:7 head:12.5 tail:3.2 height:1.1 pos:44.0 ok\n\
                [2025-10-31 14:02:03.225] INFO heartbeat\n\
                [2025-10-31 14:02:04.125] INFO train state number:7 head:12.9 tail:3.6 height:1.1 pos:44.4 ok\n\
                [2025-10-31 14:02:04.130] INFO train state number:8 head:2.5 tail:0.2 height:1.0 pos:4.0 ok\n";
    let data = parse_train_log(text).unwrap();

    assert!(!data.is_empty());
}

#[test]
fn single_line_gives_one_record() {
    let text = "[2025-01-01 00:00:00.000] train number:3 head:1.0 tail:2.0 height:3.0 pos:4.0";
    let log = parse_train_log(text).unwrap();
    assert_eq!(log.len(), 1);
    assert_eq!(log.groups[0].key, "3");
    let records = log.get("3").unwrap();
    assert_eq!(records.len(), 1);
    let r = &records[0];
    assert_eq!(r.time, Timestamp { days: 739252, secs: 0, nanos: 0 });
    assert_eq!(r.time, stamp(2025, 1, 1, 0, 0, 0, 0));
    assert_eq!(r.number, "3");
    assert_eq!(r.head, "1.0");
    assert_eq!(r.tail, "2.0");
    assert_eq!(r.height, "3.0");
    assert_eq!(r.pos, "4.0");
    assert_eq!(r.head.parse::<f64>(), Ok(1.0));
    assert_eq!(r.tail.parse::<f64>(), Ok(2.0));
    assert_eq!(r.height.parse::<f64>(), Ok(3.0));
    assert_eq!(r.pos.parse::<f64>(), Ok(4.0));
    assert!(log.get("4").is_none());
}

#[test]
fn fields_are_taken_from_the_tokens_of_the_line() {
    let text = "[2025-10-31 14:02:03.125] car train up number:7 x head:12.5 tail:3.2 height:1.1 pos:44.0 done";
    let log = parse_train_log(text).unwrap();
    let r = &log.get("7").unwrap()[0];
    assert_eq!(r.time, stamp(2025, 10, 31, 14, 2, 3, 125));
    assert_eq!(r.time.secs, 14 * 3600 + 2 * 60 + 3);
    assert_eq!(r.time.nanos, 125_000_000);
    assert_eq!(r.number, "7");
    assert_eq!(r.head.parse::<f64>(), Ok(12.5));
    assert_eq!(r.tail.parse::<f64>(), Ok(3.2));
    assert_eq!(r.height.parse::<f64>(), Ok(1.1));
    assert_eq!(r.pos.parse::<f64>(), Ok(44.0));
}

#[test]
fn an_empty_file_gives_an_empty_log() {
    let log = parse_train_log("").unwrap();
    assert!(log.is_empty());
    assert_eq!(log.len(), 0);
    let log = parse_train_log("nothing here\nnor here\n").unwrap();
    assert!(log.is_empty());
}

#[test]
fn lines_without_the_four_words_are_passed_over() {
    assert!(!check_train_line(&chars("[t] number:1 head:1 tail:1 height:1 pos:1")));
    assert!(!check_train_line(&chars("[t] train number:1 head:1 height:1 pos:1")));
    assert!(check_train_line(&chars("trainheadtailnumber")));
    let text = "not a bracket line at all with head and tail\n\
                [2025-01-01 00:00:00.000] train number:3 head:1.0 tail:2.0 height:3.0 pos:4.0\n\
                [broken number:3 head:1.0 tail\n";
    let log = parse_train_log(text).unwrap();
    assert_eq!(log.len(), 1);
    assert_eq!(log.get("3").unwrap().len(), 1);
}

#[test]
fn records_are_grouped_by_train_in_order_of_first_appearance() {
    let text = [
        line("2025-01-01 00:00:01.000", "b", "1", "1", "1", "1"),
        line("2025-01-01 00:00:02.000", "a", "2", "2", "2", "2"),
        line("2025-01-01 00:00:03.000", "b", "3", "3", "3", "3"),
        line("2025-01-01 00:00:04.000", "", "4", "4", "4", "4"),
        line("2025-01-01 00:00:05.000", "a", "5", "5", "5", "5"),
    ]
    .join("\n");
    let log = parse_train_log(&text).unwrap();
    assert_eq!(log.len(), 3);
    let keys: Vec<&str> = log.groups.iter().map(|g| g.key.as_str()).collect();
    assert_eq!(keys, vec!["b", "a", ""]);
    let heads = |n: &str| -> Vec<String> {
        log.get(n).unwrap().iter().map(|r| r.head.clone()).collect()
    };
    assert_eq!(heads("b"), vec!["1", "3"]);
    assert_eq!(heads("a"), vec!["2", "5"]);
    assert_eq!(heads(""), vec!["4"]);
    for g in &log.groups {
        for r in &g.items {
            assert_eq!(r.number, g.key);
        }
    }
}

#[test]
fn records_of_a_train_are_sorted_by_time_and_ties_keep_file_order() {
    let text = [
        line("2025-01-02 00:00:00.000", "1", "1", "0", "0", "0"),
        line("2025-01-01 12:00:00.500", "1", "2", "0", "0", "0"),
        line("2025-01-01 12:00:00.499", "1", "3", "0", "0", "0"),
        line("2025-01-02 00:00:00.000", "1", "4", "0", "0", "0"),
        line("2024-12-31 23:59:59.999", "1", "5", "0", "0", "0"),
        line("2025-01-01 12:00:00.500", "1", "6", "0", "0", "0"),
    ]
    .join("\r\n");
    let log = parse_train_log(&text).unwrap();
    let records = log.get("1").unwrap();
    let heads: Vec<&str> = records.iter().map(|r| r.head.as_str()).collect();
    assert_eq!(heads, vec!["5", "3", "2", "6", "1", "4"]);
    for pair in records.windows(2) {
        assert!(pair[0].time.is_at_or_before(&pair[1].time));
    }
}

#[test]
fn a_later_token_takes_the_place_of_an_earlier_one_with_its_name() {
    let text = "[2025-01-01 00:00:00.000] train number:3 head:1.0 tail:2.0 height:3.0 pos:4.0 head:9.5 number:5";
    let log = parse_train_log(text).unwrap();
    assert!(log.get("3").is_none());
    let r = &log.get("5").unwrap()[0];
    assert_eq!(r.head, "9.5");
}

#[test]
fn the_time_stamp_is_what_the_brackets_hold() {
    let text = "[2025-01-01 00:00:00.000] train time:pos9 number:3 head:1.0 tail:2.0 height:3.0 pos:4.0";
    let log = parse_train_log(text).unwrap();
    assert_eq!(log.get("3").unwrap()[0].time, stamp(2025, 1, 1, 0, 0, 0, 0));
}

fn missing(text: &str) -> (usize, Field) {
    match parse_train_log(text).unwrap_err() {
        ParseError::MissingField { line, field } => (line, field),
        other => panic!("{:?}", other),
    }
}

#[test]
fn a_line_that_lacks_a_field_fails_the_parse() {
    let t = "2025-01-01 00:00:00.000";
    assert_eq!(
        missing(&format!("[{t}] train number head:1 tail:2 height:3 pos:4")),
        (1, Field::Number)
    );
    assert_eq!(
        missing(&format!("[{t}] train number:3 head tail:2 height:3 pos:4")),
        (1, Field::Head)
    );
    assert_eq!(
        missing(&format!("[{t}] train number:3 head:1 tail height:3 pos:4")),
        (1, Field::Tail)
    );
    assert_eq!(
        missing(&format!("[{t}] train number:3 head:1 tail:2 pos:4")),
        (1, Field::Height)
    );
    assert_eq!(
        missing(&format!("[{t}] train number:3 head:1 tail:2 height:3")),
        (1, Field::Pos)
    );
    assert_eq!(
        missing(&format!("[{t}] train number:3 head tail height:3")),
        (1, Field::Head)
    );
    assert_eq!(
        missing(&format!("[bad time] train number:3 head:x tail:2 height:3")),
        (1, Field::Pos)
    );
}

#[test]
fn one_line_without_a_field_fails_a_file_of_a_thousand() {
    let mut lines: Vec<String> = Vec::new();
    for i in 0..999 {
        let ms = i % 1000;
        lines.push(line(&format!("2025-01-01 00:00:00.{ms:03}"), "3", "1.0", "2.0", "3.0", "4.0"));
    }
    assert_eq!(parse_train_log(&lines.join("\n")).unwrap().get("3").unwrap().len(), 999);
    for (at, field) in [(0, Field::Number), (500, Field::Tail), (999, Field::Pos)] {
        let mut with_bad = lines.clone();
        let bad = match field {
            Field::Number => "[2025-01-01 00:00:00.000] train number head:1 tail:2 height:3 pos:4",
            Field::Tail => "[2025-01-01 00:00:00.000] train number:3 head:1 tail height:3 pos:4",
            _ => "[2025-01-01 00:00:00.000] train number:3 head:1 tail:2 height:3",
        };
        with_bad.insert(at, bad.to_string());
        assert_eq!(missing(&with_bad.join("\n")), (at + 1, field));
    }
}

#[test]
fn a_line_without_its_bracket_fails_the_parse() {
    let good = line("2025-01-01 00:00:00.000", "3", "1", "2", "3", "4");
    let unclosed = "[2025-01-01 00:00:00.000 train number:3 head:1 tail:2 height:3 pos:4";
    let unopened = "2025-01-01 00:00:00.000] train number:3 head:1 tail:2 height:3 pos:4";
    let indented = " [2025-01-01 00:00:00.000] train number:3 head:1 tail:2 height:3 pos:4";
    for bad in [unclosed, unopened, indented] {
        let e = parse_train_log(bad).unwrap_err();
        assert!(matches!(e, ParseError::MalformedLine { line: 1 }), "{:?}", e);
        let text = format!("{good}\nskip me\n{bad}\n{good}");
        let e = parse_train_log(&text).unwrap_err();
        assert!(matches!(e, ParseError::MalformedLine { line: 3 }), "{:?}", e);
        assert_eq!(e.line(), 3);
    }
    assert!(split_bracket(&chars(unclosed)).is_none());
    let c = chars("[a]b]c");
    let (time, message) = split_bracket(&c).unwrap();
    assert_eq!(time.iter().collect::<String>(), "a");
    assert_eq!(message.iter().collect::<String>(), "b]c");
}

#[test]
fn the_first_line_that_fails_is_the_one_reported() {
    let good = line("2025-01-01 00:00:00.000", "3", "1", "2", "3", "4");
    let lacking = "[2025-01-01 00:00:00.000] train number:3 head tail:2 height:3 pos:4";
    let unclosed = "[2025-01-01 00:00:00.000 train number:3 head:1 tail:2 height:3 pos:4";
    let e = parse_train_log(&format!("{good}\n{lacking}\n{unclosed}")).unwrap_err();
    assert!(matches!(e, ParseError::MissingField { line: 2, field: Field::Head }), "{:?}", e);
    let e = parse_train_log(&format!("{good}\n{unclosed}\n{lacking}")).unwrap_err();
    assert!(matches!(e, ParseError::MalformedLine { line: 2 }), "{:?}", e);
}

fn invalid(text: &str) -> (usize, Field, String) {
    match parse_train_log(text).unwrap_err() {
        ParseError::InvalidFieldValue { line, field, value } => (line, field, value),
        other => panic!("{:?}", other),
    }
}

#[test]
fn a_value_that_is_not_of_its_type_fails_the_parse() {
    let t = "2025-01-01 00:00:00.000";
    assert_eq!(
        invalid(&line("2025-13-01 00:00:00.000", "3", "1", "2", "3", "4")),
        (1, Field::Time, "2025-13-01 00:00:00.000".to_string())
    );
    assert_eq!(
        invalid(&line("yesterday", "3", "x", "2", "3", "4")),
        (1, Field::Time, "yesterday".to_string())
    );
    assert_eq!(invalid(&line(t, "3", "1,5", "2", "3", "4")), (1, Field::Head, "1,5".to_string()));
    assert_eq!(invalid(&line(t, "3", "1", "", "3", "4")), (1, Field::Tail, "".to_string()));
    assert_eq!(invalid(&line(t, "3", "1", "2", "3m", "4")), (1, Field::Height, "3m".to_string()));
    assert_eq!(invalid(&line(t, "3", "1", "2", "3", "1e")), (1, Field::Pos, "1e".to_string()));
    assert_eq!(invalid(&line(t, "3", "a", "b", "c", "d")), (1, Field::Head, "a".to_string()));
    let text = format!("{}\n\n{}", line(t, "3", "1", "2", "3", "4"), line(t, "3", "1", "2", "3", "-"));
    assert_eq!(invalid(&text), (3, Field::Pos, "-".to_string()));
}

#[test]
fn measures_may_be_written_in_any_form_that_is_a_float() {
    let t = "2025-01-01 00:00:00.000";
    let log = parse_train_log(&line(t, "3", "-1e3", "+.5", "inf", "NaN")).unwrap();
    let r = &log.get("3").unwrap()[0];
    assert_eq!(r.head.parse::<f64>(), Ok(-1000.0));
    assert_eq!(r.tail.parse::<f64>(), Ok(0.5));
    assert_eq!(r.height.parse::<f64>(), Ok(f64::INFINITY));
    assert!(r.pos.parse::<f64>().unwrap().is_nan());
}

#[test]
fn a_line_built_from_a_record_reads_back_as_that_record() {
    let values: [(f64, f64, f64, f64); 4] = [
        (1.0, 2.0, 3.0, 4.0),
        (12.5, 3.2, 1.1, 44.0),
        (-0.1, 1e-7, 123456789.125, 0.30000000000000004),
        (f64::MAX, f64::MIN_POSITIVE, -1e300, 5e-324),
    ];
    for (n, (head, tail, height, pos)) in values.into_iter().enumerate() {
        let time = NaiveDate::from_ymd_opt(2025, 10, 31)
            .unwrap()
            .and_hms_milli_opt(14, 2, 3, 125 + n as u32)
            .unwrap();
        let number = format!("car{n}");
        let text = format!(
            "[{}] train number:{} head:{} tail:{} height:{} pos:{}",
            time.format("%Y-%m-%d %H:%M:%S%.3f"),
            number,
            head,
            tail,
            height,
            pos
        );
        let log = parse_train_log(&text).unwrap();
        let r = &log.get(&number).unwrap()[0];
        assert_eq!(r.number, number);
        assert_eq!(r.time.days, time.num_days_from_ce());
        assert_eq!(r.time.secs, time.num_seconds_from_midnight());
        assert_eq!(r.time.nanos, time.nanosecond());
        assert_eq!(r.head.parse::<f64>(), Ok(head));
        assert_eq!(r.tail.parse::<f64>(), Ok(tail));
        assert_eq!(r.height.parse::<f64>(), Ok(height));
        assert_eq!(r.pos.parse::<f64>(), Ok(pos));
    }
}

#[test]
fn time_stamps_are_read_by_their_form() {
    assert_eq!(parse_time("2025-01-01 00:00:00.000"), Some(stamp(2025, 1, 1, 0, 0, 0, 0)));
    assert_eq!(parse_time("2025-10-31 14:02:03.125"), Some(stamp(2025, 10, 31, 14, 2, 3, 125)));
    assert_eq!(parse_time("1970-01-01 00:00:00.001"), Some(Timestamp { days: 719163, secs: 0, nanos: 1_000_000 }));
    assert_eq!(parse_time("0001-01-01 23:59:59.999"), Some(Timestamp { days: 1, secs: 86399, nanos: 999_000_000 }));
    assert_eq!(parse_time("2025-10-31 14:02:03"), Some(stamp(2025, 10, 31, 14, 2, 3, 0)));
    assert_eq!(
        parse_time("2016-12-31 23:59:60.250"),
        Some(Timestamp { days: stamp(2016, 12, 31, 0, 0, 0, 0).days, secs: 86399, nanos: 1_250_000_000 })
    );
    for bad in [
        "",
        "2025-10-31",
        "14:02:03.125",
        "2025-10-31T14:02:03.125",
        "2025-02-30 00:00:00.000",
        "2025-10-31 24:00:00.000",
        "2025-10-31 14:02:03.1",
        "2025-10-31 14:02:03.1255",
        "2025-10-31 14:02:03.125 ",
        "2025/10/31 14:02:03.125",
        "%Y-%m-%d %H:%M:%S%.3f",
    ] {
        assert_eq!(parse_time(bad), None, "{:?}", bad);
    }
}

#[test]
fn instants_compare_by_day_then_second_then_nanosecond() {
    let a = Timestamp { days: 1, secs: 5, nanos: 7 };
    for (b, a_first, b_first) in [
        (Timestamp { days: 1, secs: 5, nanos: 7 }, true, true),
        (Timestamp { days: 1, secs: 5, nanos: 8 }, true, false),
        (Timestamp { days: 1, secs: 6, nanos: 0 }, true, false),
        (Timestamp { days: 2, secs: 0, nanos: 0 }, true, false),
        (Timestamp { days: 0, secs: 9, nanos: 9 }, false, true),
        (Timestamp { days: 1, secs: 4, nanos: 9 }, false, true),
        (Timestamp { days: -1, secs: 4, nanos: 9 }, false, true),
    ] {
        assert_eq!(a.is_at_or_before(&b), a_first);
        assert_eq!(b.is_at_or_before(&a), b_first);
    }
    let leap = parse_time("2016-12-31 23:59:60.500").unwrap();
    let next = parse_time("2017-01-01 00:00:00.000").unwrap();
    assert!(leap.is_at_or_before(&next));
    assert!(!next.is_at_or_before(&leap));
}

#[test]
fn a_token_gives_a_field_if_it_names_one_and_holds_a_colon() {
    let kv = |s: &str| -> Option<(String, String)> {
        let c = chars(s);
        split_key_value(&c).map(|(k, v)| (k.iter().collect(), v.iter().collect()))
    };
    assert_eq!(kv("head:1.5"), Some(("head".to_string(), "1.5".to_string())));
    assert_eq!(kv("pos:"), Some(("pos".to_string(), "".to_string())));
    assert_eq!(kv("a:pos:b"), Some(("a".to_string(), "pos:b".to_string())));
    assert_eq!(kv("xheight:2"), Some(("xheight".to_string(), "2".to_string())));
    assert_eq!(kv(":tail"), Some(("".to_string(), "tail".to_string())));
    assert_eq!(kv("head"), None);
    assert_eq!(kv("speed:3"), None);
    assert_eq!(kv("train:3"), None);
}

#[test]
fn the_fields_of_a_line_are_those_of_its_tokens_and_the_time() {
    let time = chars("T");
    let message = chars(" train number:3 note head:1 head:2 other:5 tail:");
    let fields = collect_fields(&time, &message);
    assert_eq!(fields.get("time").map(|s| s.as_str()), Some("T"));
    assert_eq!(fields.get("number").map(|s| s.as_str()), Some("3"));
    assert_eq!(fields.get("head").map(|s| s.as_str()), Some("2"));
    assert_eq!(fields.get("tail").map(|s| s.as_str()), Some(""));
    assert!(fields.get("other").is_none());
    assert!(fields.get("train").is_none());
    assert!(fields.get("pos").is_none());
}

#[test]
fn a_token_map_keeps_the_last_value_of_each_name() {
    let mut m = TokenMap::new();
    assert!(m.get("a").is_none());
    m.insert("a".to_string(), "1".to_string());
    m.insert("b".to_string(), "2".to_string());
    m.insert("a".to_string(), "3".to_string());
    assert_eq!(m.get("a").map(|s| s.as_str()), Some("3"));
    assert_eq!(m.get("b").map(|s| s.as_str()), Some("2"));
    assert!(m.get("c").is_none());
    assert!(m.get("").is_none());
}

fn fields_of(pairs: &[(&str, &str)]) -> TokenMap {
    let mut m = TokenMap::new();
    for (k, v) in pairs {
        m.insert(k.to_string(), v.to_string());
    }
    m
}

#[test]
fn a_record_is_built_only_from_all_six_fields() {
    let all = [
        ("time", "2025-01-01 00:00:00.000"),
        ("number", "3"),
        ("head", "1.0"),
        ("tail", "2.0"),
        ("height", "3.0"),
        ("pos", "4.0"),
    ];
    let r: TrainPositionRecord = build_train_record(9, &fields_of(&all)).unwrap();
    assert_eq!(r.time, stamp(2025, 1, 1, 0, 0, 0, 0));
    assert_eq!((r.number.as_str(), r.head.as_str(), r.tail.as_str()), ("3", "1.0", "2.0"));
    assert_eq!((r.height.as_str(), r.pos.as_str()), ("3.0", "4.0"));
    let names = [Field::Time, Field::Number, Field::Head, Field::Tail, Field::Height, Field::Pos];
    for skip in 0..6 {
        let mut part: Vec<(&str, &str)> = all.to_vec();
        part.remove(skip);
        match build_train_record(9, &fields_of(&part)).unwrap_err() {
            ParseError::MissingField { line, field } => {
                assert_eq!(line, 9);
                assert_eq!(field, names[skip]);
            },
            other => panic!("{:?}", other),
        }
    }
    match build_train_record(2, &fields_of(&[])).unwrap_err() {
        ParseError::MissingField { line: 2, field: Field::Time } => {},
        other => panic!("{:?}", other),
    }
}

#[test]
fn a_record_is_assembled_from_values_that_are_of_their_types() {
    let s = |x: &str| x.to_string();
    let t = Some(Timestamp { days: 5, secs: 6, nanos: 7 });
    let r = assemble_train_record(1, &s("tt"), t, &s("n"), &s("1"), &s("2"), &s("3"), &s("4"))
        .unwrap();
    assert_eq!(r.time, Timestamp { days: 5, secs: 6, nanos: 7 });
    assert_eq!(r.number, "n");
    assert_eq!((r.head.as_str(), r.tail.as_str()), ("1", "2"));
    assert_eq!((r.height.as_str(), r.pos.as_str()), ("3", "4"));
    let e = assemble_train_record(4, &s("tt"), None, &s("n"), &s("x"), &s("2"), &s("3"), &s("4"))
        .unwrap_err();
    assert!(
        matches!(&e, ParseError::InvalidFieldValue { line: 4, field: Field::Time, value } if value == "tt"),
        "{:?}",
        e
    );
    let e = assemble_train_record(4, &s("tt"), t, &s("n"), &s("1"), &s("2"), &s("z"), &s("y"))
        .unwrap_err();
    assert!(
        matches!(&e, ParseError::InvalidFieldValue { line: 4, field: Field::Height, value } if value == "z"),
        "{:?}",
        e
    );
}

#[test]
fn a_line_is_read_into_a_record_or_passed_over() {
    let c = chars("no such thing");
    assert!(parse_train_line(1, &c).unwrap().is_none());
    let c = chars(&line("2025-01-01 00:00:00.000", "3", "1", "2", "3", "4"));
    let r = parse_train_line(7, &c).unwrap().unwrap();
    assert_eq!(r.number, "3");
    let c = chars("train head tail number");
    assert!(matches!(parse_train_line(7, &c).unwrap_err(), ParseError::MalformedLine { line: 7 }));
}

#[test]
fn a_long_log_in_falling_order_is_read_and_sorted() {
    let count = 20_000;
    let mut text = String::new();
    for n in 0..count {
        let left = count - 1 - n;
        text.push_str(&format!(
            "[2025-01-01 {:02}:{:02}:{:02}.000] train number:{} head:{} tail:2 height:3 pos:4\n",
            left / 3600,
            left / 60 % 60,
            left % 60,
            n % 7,
            n
        ));
    }
    let log = parse_train_log(&text).unwrap();
    assert_eq!(log.len(), 7);
    let mut seen = 0;
    for g in &log.groups {
        for pair in g.items.windows(2) {
            assert!(pair[0].time.is_at_or_before(&pair[1].time));
            assert!(pair[0].head.parse::<u32>().unwrap() > pair[1].head.parse::<u32>().unwrap());
        }
        seen += g.items.len();
    }
    assert_eq!(seen, count);
}
