use std::collections::VecDeque;

use logmerge::{merge, parse_logs, MalformedReason};

fn lines(texts: Vec<&str>) -> VecDeque<String> {
    texts.into_iter().map(String::from).collect()
}

const VALID_LINE: &str =
    "92.254.10.150 - - [01/Jul/2022:10:53:49 +0000] \"GET /index.html HTTP/1.1\" 200 434";

#[test]
fn empty_lines_are_skipped() {
    let items = parse_logs(lines(vec!["", VALID_LINE, ""])).unwrap();
    assert_eq!(items.len(), 1);
    assert_eq!(items[0].data(), VALID_LINE);
}

#[test]
fn parse_extracts_the_expected_timestamp() {
    let items = parse_logs(lines(vec![VALID_LINE])).unwrap();
    // 2022-07-01 10:53:49 UTC in Unix seconds.
    assert_eq!(items[0].key(), 1656672829);
}

#[test]
fn timezone_offset_shifts_the_timestamp() {
    let west = "h - - [01/Jul/2022:10:53:49 -0200] \"GET / HTTP/1.1\" 200 1";
    let items = parse_logs(lines(vec![west])).unwrap();
    assert_eq!(items[0].key(), 1656672829 + 2 * 3600);
}

#[test]
fn too_few_tokens_is_missing_fields() {
    let e = parse_logs(lines(vec!["one two three"])).unwrap_err();
    assert_eq!(e.reason, MalformedReason::MissingFields);
    assert_eq!(e.line, "one two three");
}

#[test]
fn bad_timestamp_tokens_are_invalid_format() {
    let e = parse_logs(lines(vec!["a b c d e f"])).unwrap_err();
    assert_eq!(e.reason, MalformedReason::InvalidTimestampFormat);
    assert_eq!(e.line, "a b c d e f");
}

#[test]
fn first_malformed_line_aborts_the_batch() {
    let e = parse_logs(lines(vec![VALID_LINE, "short line", "a b c d e f"])).unwrap_err();
    assert_eq!(e.reason, MalformedReason::MissingFields);
    assert_eq!(e.line, "short line");
}

#[test]
fn parsing_preserves_input_order() {
    let second = "h - - [02/Jul/2022:12:53:49 +0000] \"GET /two HTTP/1.1\" 200 2";
    let items = parse_logs(lines(vec![VALID_LINE, second])).unwrap();
    assert_eq!(items.len(), 2);
    assert_eq!(items[0].data(), VALID_LINE);
    assert_eq!(items[1].data(), second);
    assert!(items[0].key() < items[1].key());
}

#[test]
fn parse_then_merge_orders_across_sources() {
    let host1 = lines(vec![
        "h1 - - [01/Jul/2022:10:00:00 +0000] \"GET /a HTTP/1.1\" 200 1",
        "h1 - - [01/Jul/2022:12:00:00 +0000] \"GET /c HTTP/1.1\" 200 1",
    ]);
    let host2 = lines(vec![
        "h2 - - [01/Jul/2022:11:00:00 +0000] \"GET /b HTTP/1.1\" 200 1",
        "h2 - - [01/Jul/2022:13:00:00 +0000] \"GET /d HTTP/1.1\" 200 1",
    ]);
    let merged = merge(vec![parse_logs(host1).unwrap(), parse_logs(host2).unwrap()]);
    let paths: Vec<String> = merged
        .iter()
        .map(|l| l.split(' ').nth(6).unwrap().to_string())
        .collect();
    assert_eq!(paths, vec!["/a", "/b", "/c", "/d"]);
}
