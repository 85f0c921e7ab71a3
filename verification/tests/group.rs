use trainlog::group::{group_by_key, Group, Grouped, Keyed};
use trainlog::sort::sort_by_time;
use trainlog::time::Timestamp;
use trainlog::train::TrainPositionRecord;

fn keyed(key: &str, item: u32) -> Keyed<u32> {
    Keyed { key: key.to_string(), item }
}

#[test]
fn items_are_grouped_by_key_in_order() {
    let groups: Vec<Group<u32>> = group_by_key(vec![
        keyed("x", (1)),
        keyed("y", (2)),
        keyed("x", (3)),
        keyed("", (4)),
        keyed("y", (5)),
        keyed("x", (6)),
    ]);
    let shape: Vec<(&str, Vec<u32>)> = groups
        .iter()
        .map(|g| (g.key.as_str(), g.items.clone()))
        .collect();
    assert_eq!(
        shape,
        vec![("x", vec![1, 3, 6]), ("y", vec![2, 5]), ("", vec![4])]
    );
    let none: Vec<Group<u32>> = group_by_key(Vec::new());
    assert!(none.is_empty());
}

#[test]
fn a_grouped_log_is_looked_up_by_key() {
    let log = Grouped { groups: group_by_key(vec![keyed("x", (1)), keyed("y", (2))]) };
    assert_eq!(log.len(), 2);
    assert!(!log.is_empty());
    assert_eq!(log.get("y").unwrap()[0], 2);
    assert_eq!(log.get("x").unwrap().len(), 1);
    assert!(log.get("z").is_none());
    let empty: Grouped<u32> = Grouped { groups: Vec::new() };
    assert_eq!(empty.len(), 0);
    assert!(empty.is_empty());
    assert!(empty.get("x").is_none());
}

fn record(head: &str, days: i32, secs: u32, nanos: u32) -> TrainPositionRecord {
    TrainPositionRecord {
        time: Timestamp { days, secs, nanos },
        number: "n".to_string(),
        head: head.to_string(),
        tail: "0".to_string(),
        height: "0".to_string(),
        pos: "0".to_string(),
    }
}

fn heads(records: &[TrainPositionRecord]) -> Vec<String> {
    records.iter().map(|r| r.head.clone()).collect()
}

#[test]
fn sorting_is_by_time_and_keeps_ties_in_order() {
    let sorted = sort_by_time(vec![
        record("a", 2, 0, 0),
        record("b", 1, 5, 0),
        record("c", 1, 5, 0),
        record("d", 1, 4, 9),
        record("e", 2, 0, 0),
        record("f", -3, 0, 0),
        record("g", 1, 5, 1),
        record("h", 1, 5, 0),
    ]);
    assert_eq!(heads(&sorted), vec!["f", "d", "b", "c", "h", "g", "a", "e"]);
    assert!(sort_by_time(Vec::new()).is_empty());
    assert_eq!(heads(&sort_by_time(vec![record("x", 1, 1, 1)])), vec!["x"]);
}

#[test]
fn sorting_twice_gives_what_sorting_once_gives() {
    let once = sort_by_time(vec![
        record("a", 3, 0, 0),
        record("b", 1, 0, 0),
        record("c", 3, 0, 0),
        record("d", 2, 0, 0),
        record("e", 1, 0, 0),
    ]);
    let first = heads(&once);
    let twice = sort_by_time(once);
    assert_eq!(first, vec!["b", "e", "d", "a", "c"]);
    assert_eq!(heads(&twice), first);
}

#[test]
fn sorting_agrees_with_a_stable_sort_by_the_three_fields() {
    let mut seed: u64 = 12345;
    let mut next = move || {
        seed = seed.wrapping_mul(6364136223846793005).wrapping_add(1442695040888963407);
        (seed >> 33) as u32
    };
    for size in [0usize, 1, 2, 3, 7, 64, 1000, 4097] {
        let mut input: Vec<(String, i32, u32, u32)> = Vec::new();
        for n in 0..size {
            input.push((format!("r{n}"), (next() % 5) as i32 - 2, next() % 3, next() % 4));
        }
        let sorted = sort_by_time(
            input.iter().map(|(h, d, s, n)| record(h, *d, *s, *n)).collect(),
        );
        let mut expected = input.clone();
        expected.sort_by_key(|(_, d, s, n)| (*d, *s, *n));
        let expected: Vec<String> = expected.into_iter().map(|(h, _, _, _)| h).collect();
        assert_eq!(heads(&sorted), expected, "size {size}");
    }
}

#[test]
fn sorting_many_records_in_falling_order_ends() {
    let count: u32 = 200_000;
    let input: Vec<TrainPositionRecord> =
        (0..count).map(|n| record("x", 9, count - n, 0)).collect();
    let sorted = sort_by_time(input);
    assert_eq!(sorted.len(), count as usize);
    for (n, r) in sorted.iter().enumerate() {
        assert_eq!(r.time.secs, n as u32 + 1);
    }
}
