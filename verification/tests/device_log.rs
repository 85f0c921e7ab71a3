use trainlog::device::{
    assemble_device_event, classify_device_line, parse_device_line, parse_device_log,
    parse_direction, parse_telemetry, read_measure, split_device_line, DeviceEvent, DeviceSchema,
    DEVICE_LINE_LIMIT,
};
use trainlog::error::{Field, ParseError};
use trainlog::time::{parse_time, Timestamp};

fn letters(s: &str) -> Vec<char> {
    s.chars().collect()
}

fn at(text: &str) -> Timestamp {
    parse_time(text).unwrap()
}

#[test]
fn test_parse_mupian_data() {
    let text = "[2025-11-13 09:00:00.000] [INFO] [device-3] cpu usage:12.3%, mem usage:40.1%, total:8192MB, mem used:3284MB\n\
                [2025-11-13 09:00:00.100] [INFO] [device-3] belt started\n\
                [2025-11-13 09:00:01.000] [WARN] [device-4] unload direction 2 not match with 1\n\
                [2025-11-13 09:00:02.000] [INFO] [device-3] send replenish finish\n";
    let data = parse_device_log(text).unwrap();

    assert!(!data.is_empty());
}

#[test]
fn one_telemetry_line_gives_one_sample() {
    let text = "[2025-01-01 00:00:00.000] [INFO] [dev1] cpu usage:10.0%, mem usage:20.0%, total:1000MB, mem used:200.0MB";
    let log = parse_device_log(text).unwrap();
    assert_eq!(log.len(), 1);
    let events = log.get("dev1").unwrap();
    assert_eq!(events.len(), 1);
    let e = &events[0];
    assert!(e.direction_mismatch.is_none());
    assert!(e.replenish.is_none());
    let sample = e.telemetry.as_ref().unwrap();
    assert_eq!(sample.time, at("2025-01-01 00:00:00.000"));
    assert_eq!(sample.cpu_usage_pct.parse::<f32>(), Ok(10.0));
    assert_eq!(sample.mem_usage_pct.parse::<f32>(), Ok(20.0));
    assert_eq!(sample.mem_used_mb.parse::<f32>(), Ok(200.0));
}

#[test]
fn the_three_kinds_of_line_give_the_three_kinds_of_event() {
    let text = "[2025-11-13 09:00:00.000] [INFO] [device-3] cpu usage:12.3%, mem usage:40.1%, total:8192MB, mem used:3284MB\n\
                [2025-11-13 09:00:00.100] [INFO] [device-3] belt started\n\
                [2025-11-13 09:00:01.000] [WARN] [device-4] unload direction -2 not match with 1\n\
                [2025-11-13 09:00:02.000] [INFO] [device-3] send replenish finish\n\
                [2025-11-13 09:00:03.000] [INFO] [ device-4 ]   send replenish finish, again  \n";
    let log = parse_device_log(text).unwrap();
    assert_eq!(log.len(), 2);
    let keys: Vec<&str> = log.groups.iter().map(|g| g.key.as_str()).collect();
    assert_eq!(keys, vec!["device-3", "device-4"]);

    let third = log.get("device-3").unwrap();
    assert_eq!(third.len(), 2);
    let sample = third[0].telemetry.as_ref().unwrap();
    assert_eq!(sample.time, at("2025-11-13 09:00:00.000"));
    assert_eq!(sample.cpu_usage_pct, "12.3");
    assert_eq!(sample.mem_usage_pct, "40.1");
    assert_eq!(sample.mem_used_mb, "3284");
    assert_eq!(sample.cpu_usage_pct.parse::<f32>(), Ok(12.3));
    assert_eq!(sample.mem_usage_pct.parse::<f32>(), Ok(40.1));
    assert_eq!(sample.mem_used_mb.parse::<f32>(), Ok(3284.0));
    let done = third[1].replenish.as_ref().unwrap();
    assert_eq!(done.time, at("2025-11-13 09:00:02.000"));
    assert_eq!(done.device, "device-3");
    assert!(third[1].telemetry.is_none() && third[1].direction_mismatch.is_none());

    let fourth = log.get("device-4").unwrap();
    assert_eq!(fourth.len(), 2);
    let wrong = fourth[0].direction_mismatch.as_ref().unwrap();
    assert_eq!(wrong.time, at("2025-11-13 09:00:01.000"));
    assert_eq!(wrong.direction, -2);
    assert_eq!(wrong.device, "device-4");
    assert!(fourth[0].telemetry.is_none() && fourth[0].replenish.is_none());
    assert_eq!(fourth[1].replenish.as_ref().unwrap().device, "device-4");
}

fn populated(e: &DeviceEvent) -> usize {
    e.telemetry.is_some() as usize
        + e.direction_mismatch.is_some() as usize
        + e.replenish.is_some() as usize
}

#[test]
fn an_event_read_from_a_line_holds_exactly_one_kind() {
    assert_eq!(populated(&DeviceEvent::new()), 0);
    let text = "[2025-11-13 09:00:00.000] [I] [a] cpu usage:1%, mem usage:2%, total:3MB, mem used:4MB, unload direction match with send replenish finish\n\
                [2025-11-13 09:00:01.000] [I] [a] unload direction 2 match with send replenish finish\n\
                [2025-11-13 09:00:02.000] [I] [b] send replenish finish unload direction\n";
    let log = parse_device_log(text).unwrap();
    let mut seen = 0;
    for g in &log.groups {
        for e in &g.items {
            assert_eq!(populated(e), 1);
            seen += 1;
        }
    }
    assert_eq!(seen, 3);
    assert!(log.get("a").unwrap()[0].telemetry.is_some());
    assert!(log.get("a").unwrap()[1].direction_mismatch.is_some());
    assert!(log.get("b").unwrap()[0].replenish.is_some());
}

#[test]
fn events_of_a_device_stand_in_the_order_of_their_lines() {
    let text = "[2025-11-13 09:00:05.000] [I] [a] unload direction 5 match with 0\n\
                [2025-11-13 09:00:03.000] [I] [a] unload direction 3 match with 0\n\
                [2025-11-13 09:00:04.000] [I] [a] unload direction 4 match with 0\n";
    let log = parse_device_log(text).unwrap();
    let directions: Vec<i32> = log
        .get("a")
        .unwrap()
        .iter()
        .map(|e| e.direction_mismatch.as_ref().unwrap().direction)
        .collect();
    assert_eq!(directions, vec![5, 3, 4]);
}

#[test]
fn only_the_first_thousand_lines_are_read() {
    assert_eq!(DEVICE_LINE_LIMIT, 1000);
    let mut text = String::new();
    for i in 0..5000 {
        text.push_str(&format!(
            "[2025-11-13 09:00:00.000] [INFO] [dev] unload direction {i} not match with 0\n"
        ));
    }
    let log = parse_device_log(&text).unwrap();
    let events = log.get("dev").unwrap();
    assert_eq!(events.len(), 1000);
    for (i, e) in events.iter().enumerate() {
        assert_eq!(e.direction_mismatch.as_ref().unwrap().direction, i as i32);
    }
}

#[test]
fn a_failure_after_the_thousandth_line_is_not_seen() {
    let good = "[2025-11-13 09:00:00.000] [INFO] [dev] send replenish finish\n";
    let bad = "send replenish finish without brackets\n";
    let mut text = String::new();
    for _ in 0..1000 {
        text.push_str("filler\n");
    }
    text.push_str(bad);
    assert!(parse_device_log(&text).unwrap().is_empty());
    let mut text = String::new();
    for _ in 0..999 {
        text.push_str(good);
    }
    text.push_str(bad);
    let e = parse_device_log(&text).unwrap_err();
    assert!(matches!(e, ParseError::MalformedLine { line: 1000 }), "{:?}", e);
}

#[test]
fn an_empty_file_gives_no_device() {
    assert!(parse_device_log("").unwrap().is_empty());
    assert!(parse_device_log("[t] [INFO] [dev] nothing of note\n").unwrap().is_empty());
}

#[test]
fn a_line_without_three_brackets_is_malformed() {
    for bad in [
        "cpu usage:1%, mem usage:2%, total:3MB, mem used:4MB",
        "[2025-11-13 09:00:00.000] cpu usage:1%, mem usage:2%, total:3MB, mem used:4MB",
        "[2025-11-13 09:00:00.000] [INFO] cpu usage:1%, mem usage:2%, total:3MB, mem used:4MB",
        "[2025-11-13 09:00:00.000] [INFO] [dev cpu usage:1%, mem usage:2%, total:3MB, mem used:4MB",
        "2025-11-13 09:00:00.000] [INFO] [dev] send replenish finish",
        "[2025-11-13 09:00:00.000][INFO] [dev] send replenish finish",
        "[2025-11-13 09:00:00.000] [INFO]  [dev] send replenish finish",
        "[2025-11-13 09:00:00.000] INFO] [dev] send replenish finish",
    ] {
        let e = parse_device_log(&format!("skip\n{bad}\n")).unwrap_err();
        assert!(matches!(e, ParseError::MalformedLine { line: 2 }), "{:?} for {:?}", e, bad);
        assert!(split_device_line(&letters(bad)).is_none());
    }
}

#[test]
fn the_parts_of_a_line_are_cut_at_the_first_three_brackets() {
    let c = letters("[ t ] [ level ] [ dev 1 ]  a ] b [c]  ");
    let (time, device, message) = split_device_line(&c).unwrap();
    assert_eq!(time.iter().collect::<String>(), "t");
    assert_eq!(device.iter().collect::<String>(), "dev 1");
    assert_eq!(message.iter().collect::<String>(), "a ] b [c]");
    let c = letters("[] [] []");
    let (time, device, message) = split_device_line(&c).unwrap();
    assert!(time.is_empty() && device.is_empty() && message.is_empty());
}

#[test]
fn a_line_is_classified_by_the_words_it_holds() {
    let kind = |s: &str| classify_device_line(&letters(s));
    assert_eq!(kind("x cpu usage y"), Some(DeviceSchema::Telemetry));
    assert_eq!(kind("unload direction 1 not match with 2"), Some(DeviceSchema::DirectionMismatch));
    assert_eq!(kind("match with unload direction"), Some(DeviceSchema::DirectionMismatch));
    assert_eq!(kind("send replenish finish"), Some(DeviceSchema::Replenish));
    assert_eq!(kind("unload direction 1 send replenish finish"), Some(DeviceSchema::Replenish));
    assert_eq!(kind("unload direction 1 cpu usage match with"), Some(DeviceSchema::Telemetry));
    assert_eq!(kind("unload direction 1"), None);
    assert_eq!(kind("match with"), None);
    assert_eq!(kind("cpu  usage"), None);
    assert_eq!(kind(""), None);
}

fn telemetry_failure(message: &str) -> Field {
    let text = format!("[2025-11-13 09:00:00.000] [INFO] [dev] {message}");
    match parse_device_log(&text).unwrap_err() {
        ParseError::InvalidTelemetryField { line: 1, field } => field,
        other => panic!("{:?}", other),
    }
}

#[test]
fn a_telemetry_part_that_is_absent_or_no_number_fails_the_parse() {
    assert_eq!(telemetry_failure("cpu usage"), Field::CpuUsage);
    assert_eq!(telemetry_failure("cpu usage:%, mem usage:2%, total:3MB, mem used:4MB"), Field::CpuUsage);
    assert_eq!(telemetry_failure("cpu usage: 1%, mem usage:2%, total:3MB, mem used:4MB"), Field::CpuUsage);
    assert_eq!(telemetry_failure("cpu usage:1%"), Field::MemUsage);
    assert_eq!(telemetry_failure("cpu usage:1%,mem usage:2%, total:3MB, mem used:4MB"), Field::CpuUsage);
    assert_eq!(telemetry_failure("cpu usage:1%, mem usage 2%, total:3MB, mem used:4MB"), Field::MemUsage);
    assert_eq!(telemetry_failure("cpu usage:1%, mem usage:2MB, total:3MB, mem used:4MB"), Field::MemUsage);
    assert_eq!(telemetry_failure("cpu usage:1%, mem usage:2%"), Field::MemTotal);
    assert_eq!(telemetry_failure("cpu usage:1%, mem usage:2%, total:3MB"), Field::MemUsed);
    assert_eq!(telemetry_failure("cpu usage:1%, mem usage:2%, total:3MB, mem used:4GB"), Field::MemUsed);
    assert_eq!(telemetry_failure("cpu usage:1%, mem usage:2%, total:3MB, mem used"), Field::MemUsed);
}

#[test]
fn a_telemetry_message_gives_three_measures() {
    let t = Timestamp { days: 1, secs: 2, nanos: 3 };
    let m = letters("a:1.5%%, b:+2e1%, whatever, c:7MBMB, more, and more");
    let sample = parse_telemetry(3, t, &m).unwrap();
    assert_eq!(sample.time, t);
    assert_eq!(sample.cpu_usage_pct, "1.5");
    assert_eq!(sample.mem_usage_pct, "+2e1");
    assert_eq!(sample.mem_used_mb, "7");
    let m = letters("a:1%, b:2%, , c:inf");
    let sample = parse_telemetry(3, t, &m).unwrap();
    assert_eq!(sample.mem_used_mb.parse::<f32>(), Ok(f32::INFINITY));
    let m = letters("a:1%, b:2%, c:x");
    assert!(matches!(
        parse_telemetry(3, t, &m).unwrap_err(),
        ParseError::InvalidTelemetryField { line: 3, field: Field::MemUsed }
    ));
}

#[test]
fn a_measure_is_what_follows_the_colon_without_its_unit() {
    let measure = |s: &str, unit: &str| -> Option<String> {
        let c = letters(s);
        read_measure(&c, unit).map(|v| v.iter().collect())
    };
    assert_eq!(measure("cpu usage:10.0%", "%"), Some("10.0".to_string()));
    assert_eq!(measure("mem used:200.0MB", "MB"), Some("200.0".to_string()));
    assert_eq!(measure("x:1:2", "%"), None);
    assert_eq!(measure(":5", "%"), Some("5".to_string()));
    assert_eq!(measure("x:5", ""), Some("5".to_string()));
    assert_eq!(measure("x:5%", "MB"), None);
    assert_eq!(measure("x5%", "%"), None);
    assert_eq!(measure("x:%", "%"), None);
}

#[test]
fn the_direction_is_the_first_word_after_the_prefix() {
    let direction = |s: &str| parse_direction(5, &letters(s));
    assert_eq!(direction("unload direction 3 not match with 1").unwrap(), 3);
    assert_eq!(direction("unload direction   -17\tx").unwrap(), -17);
    assert_eq!(direction("unload direction +0").unwrap(), 0);
    assert_eq!(direction("unload direction 2147483647").unwrap(), i32::MAX);
    for lacking in ["", "unload direction", "unload direction ", "unload direction   ", "x unload direction 3", "unload  direction 3", "Unload direction 3"] {
        let e = direction(lacking).unwrap_err();
        assert!(
            matches!(e, ParseError::MissingField { line: 5, field: Field::Direction }),
            "{:?} for {:?}",
            e,
            lacking
        );
    }
    for (wrong, word) in [
        ("unload direction left", "left"),
        ("unload direction 3.0 x", "3.0"),
        ("unload direction 2147483648", "2147483648"),
        ("unload direction 3, match with", "3,"),
    ] {
        let e = direction(wrong).unwrap_err();
        assert!(
            matches!(&e, ParseError::InvalidFieldValue { line: 5, field: Field::Direction, value } if value == word),
            "{:?} for {:?}",
            e,
            wrong
        );
    }
}

#[test]
fn a_direction_line_that_lacks_its_direction_fails_the_parse() {
    let e = parse_device_log("[2025-11-13 09:00:00.000] [I] [d] the unload direction 2 does not match with 1")
        .unwrap_err();
    assert!(matches!(e, ParseError::MissingField { line: 1, field: Field::Direction }), "{:?}", e);
    let e = parse_device_log("[2025-11-13 09:00:00.000] [I] [d] unload direction up does not match with down")
        .unwrap_err();
    assert!(
        matches!(&e, ParseError::InvalidFieldValue { line: 1, field: Field::Direction, value } if value == "up"),
        "{:?}",
        e
    );
}

#[test]
fn a_time_stamp_that_is_none_fails_the_parse() {
    for message in [
        "cpu usage:1%, mem usage:2%, total:3MB, mem used:4MB",
        "cpu usage",
        "unload direction 1 match with 2",
        "send replenish finish",
    ] {
        let e = parse_device_log(&format!("\n[ 13 Nov ] [I] [d] {message}")).unwrap_err();
        assert!(
            matches!(&e, ParseError::InvalidFieldValue { line: 2, field: Field::Time, value } if value == "13 Nov"),
            "{:?}",
            e
        );
    }
}

#[test]
fn an_event_is_assembled_from_the_parts_of_its_line() {
    let t = Timestamp { days: 1, secs: 2, nanos: 3 };
    let tt = letters("tt");
    let dev = letters("dev");
    let e = assemble_device_event(1, DeviceSchema::Replenish, &tt, Some(t), &dev, &letters("anything"))
        .unwrap();
    let done = e.replenish.unwrap();
    assert_eq!((done.time, done.device.as_str()), (t, "dev"));
    let e = assemble_device_event(
        1,
        DeviceSchema::DirectionMismatch,
        &tt,
        Some(t),
        &dev,
        &letters("unload direction 4"),
    )
    .unwrap();
    let wrong = e.direction_mismatch.unwrap();
    assert_eq!((wrong.time, wrong.direction, wrong.device.as_str()), (t, 4, "dev"));
    let e = assemble_device_event(
        1,
        DeviceSchema::Telemetry,
        &tt,
        Some(t),
        &dev,
        &letters("a:1%, b:2%, c, d:4MB"),
    )
    .unwrap();
    assert_eq!(e.telemetry.unwrap().mem_used_mb, "4");
    for schema in [DeviceSchema::Telemetry, DeviceSchema::DirectionMismatch, DeviceSchema::Replenish] {
        let e = assemble_device_event(8, schema, &tt, None, &dev, &letters("a:1%, b:2%, c, d:4MB"))
            .unwrap_err();
        assert!(
            matches!(&e, ParseError::InvalidFieldValue { line: 8, field: Field::Time, value } if value == "tt"),
            "{:?}",
            e
        );
    }
}

#[test]
fn a_device_line_is_read_into_an_event_under_its_device() {
    assert!(parse_device_line(1, &letters("nothing")).unwrap().is_none());
    let entry = parse_device_line(1, &letters("[2025-11-13 09:00:00.000] [I] [ d1 ] send replenish finish"))
        .unwrap()
        .unwrap();
    assert_eq!(entry.key, "d1");
    assert_eq!(entry.item.replenish.unwrap().device, "d1");
}
