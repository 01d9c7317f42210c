use std::collections::VecDeque;

use chrono::DateTime;
use logmerge::{merge, Item};

fn source(records: Vec<(u64, &str)>) -> VecDeque<Item> {
    let mut q: VecDeque<Item> = VecDeque::new();
    for (key, data) in records {
        q.push_back(Item::new(String::from(data), key));
    }
    q
}

fn strings(texts: Vec<&str>) -> VecDeque<String> {
    texts.into_iter().map(String::from).collect()
}

#[test]
fn it_works() {
    let data = String::from("92.254.10.150 - - [01/Jul/2022:10:53:49 +0000] \"POST /wp-content/tag/explore HTTP/2\" 500 434 \"-\" \"Mozilla/5.0 (Macintosh; U; Intel Mac OS X 10_10_4; rv:1.9.5.20) Gecko/2971-11-13 11:20:46 Firefox/11.0\"");

    let timestamp: u64 =
        DateTime::parse_from_str("[01/Jul/2022:10:53:49 +0000]", "[%d/%b/%Y:%H:%M:%S %z]")
            .unwrap()
            .timestamp() as u64;

    let log_line1 = Item::new(data.clone(), timestamp);

    let data = String::from("92.254.10.150 - - [02/Jul/2022:12:53:49 +0000] \"POST /wp-content/tag/explore HTTP/2\" 500 434 \"-\" \"Mozilla/5.0 (Macintosh; U; Intel Mac OS X 10_10_4; rv:1.9.5.20) Gecko/2971-11-13 11:20:46 Firefox/11.0\"");
    let timestamp: u64 =
        DateTime::parse_from_str("[02/Jul/2022:12:53:49 +0000]", "[%d/%b/%Y:%H:%M:%S %z]")
            .unwrap()
            .timestamp() as u64;

    let log_line2 = Item::new(data.clone(), timestamp);

    assert_eq!(
        log_line1.partial_cmp(&log_line2),
        Some(std::cmp::Ordering::Less)
    );
    assert!(log_line1 < log_line2);
    assert_eq!(log_line1.key(), 1656672829);
    assert_eq!(log_line2.key(), 1656766429);
}

#[test]
fn tie_break_lowest_source_first() {
    let sources = vec![source(vec![(100, "A")]), source(vec![(100, "B")])];
    assert_eq!(merge(sources), strings(vec!["A", "B"]));
}

#[test]
fn interleaving_three_records() {
    let sources = vec![
        source(vec![(50, "A1"), (150, "A2")]),
        source(vec![(100, "B1")]),
    ];
    assert_eq!(merge(sources), strings(vec!["A1", "B1", "A2"]));
}

#[test]
fn empty_source_is_skipped() {
    let sources = vec![source(vec![]), source(vec![(10, "X")])];
    assert_eq!(merge(sources), strings(vec!["X"]));
}

#[test]
fn merging_only_empty_sources_yields_nothing() {
    let sources = vec![source(vec![]), source(vec![])];
    assert_eq!(merge(sources), strings(vec![]));
    assert_eq!(merge(vec![]), strings(vec![]));
}

#[test]
fn length_is_conserved() {
    let sources = vec![
        source(vec![(1, "a"), (4, "b")]),
        source(vec![]),
        source(vec![(2, "c"), (3, "d"), (9, "e")]),
    ];
    let out = merge(sources);
    assert_eq!(out.len(), 2 + 0 + 3);
}

#[test]
fn output_is_globally_ordered() {
    let sources = vec![
        source(vec![(1, "t1"), (4, "t4"), (8, "t8")]),
        source(vec![(2, "t2"), (4, "t4b")]),
        source(vec![(3, "t3"), (7, "t7")]),
    ];
    let out = merge(sources);
    // Re-look-up each payload's timestamp by the digits in its name.
    let keys: Vec<u64> = out
        .iter()
        .map(|p| p[1..].trim_end_matches('b').parse::<u64>().unwrap())
        .collect();
    for w in keys.windows(2) {
        assert!(w[0] <= w[1]);
    }
    assert_eq!(out.len(), 7);
}

#[test]
fn merge_is_deterministic() {
    let build = || {
        vec![
            source(vec![(5, "p"), (6, "q")]),
            source(vec![(5, "r")]),
            source(vec![(6, "s"), (6, "t")]),
        ]
    };
    let first = merge(build());
    let second = merge(build());
    assert_eq!(first, second);
    assert_eq!(first, strings(vec!["p", "r", "q", "s", "t"]));
}
