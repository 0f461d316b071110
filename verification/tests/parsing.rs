use hosts::Address;
use hosts::Parser;
use hosts::Record;
use hosts::text::split_lines;
use hosts::text::tokenize;

fn parse_fresh(content: &str) -> Vec<Record> {
    let mut parser: Parser = Default::default();
    parser.parse(content).unwrap()
}

#[test]
fn test_parser() {
    let content = "127.0.0.1 localhost\n# a comment\n192.168.0.2 printer\n";
    let mut parser: Parser = Default::default();
    match parser.parse(content) {
        Ok(records) => assert_eq!(records.len(), 2),
        Err(e) => panic!("{e:?}"),
    }
}

#[test]
fn only_comments_and_blanks() {
    let records = parse_fresh("# first comment\n\n# second comment\n\n");
    assert!(records.is_empty());
}

#[test]
fn global_address_line_dropped() {
    let records = parse_fresh("8.8.8.8 dns.google");
    assert!(records.is_empty());
}

#[test]
fn tab_separated_loopback_line() {
    let records = parse_fresh("127.0.0.1\tlocalhost");
    assert_eq!(records.len(), 1);
    assert_eq!(records[0].addr(), Address::V4(127, 0, 0, 1));
    let expected: Vec<String> = vec!["localhost".to_string()];
    assert_eq!(records[0].names(), &expected);
}

#[test]
fn private_line_with_two_names() {
    let records = parse_fresh("192.168.10.42 core.naus core");
    assert_eq!(records.len(), 1);
    assert_eq!(records[0].addr(), Address::V4(192, 168, 10, 42));
    let expected: Vec<String> = vec!["core.naus".to_string(), "core".to_string()];
    assert_eq!(records[0].names(), &expected);
}

#[test]
fn bad_address_does_not_abort_later_lines() {
    let records = parse_fresh("not-an-ip somehost\n127.0.0.1 localhost\n");
    assert_eq!(records.len(), 1);
    assert_eq!(records[0].addr(), Address::V4(127, 0, 0, 1));
}

#[test]
fn address_without_names() {
    let records = parse_fresh("10.0.0.7\n");
    assert_eq!(records.len(), 1);
    assert_eq!(records[0].addr(), Address::V4(10, 0, 0, 7));
    assert!(records[0].names().is_empty());
}

#[test]
fn grouped_hex_loopback_line() {
    let records = parse_fresh("::1 localhost ip6-localhost\n");
    assert_eq!(records.len(), 1);
    assert_eq!(records[0].addr(), Address::V6(0, 0, 0, 0, 0, 0, 0, 1));
    let expected: Vec<String> = vec!["localhost".to_string(), "ip6-localhost".to_string()];
    assert_eq!(records[0].names(), &expected);
}

#[test]
fn crlf_line_endings() {
    let records = parse_fresh("127.0.0.1 localhost\r\n192.168.0.9 nas\r\n");
    assert_eq!(records.len(), 2);
    assert_eq!(records[1].addr(), Address::V4(192, 168, 0, 9));
}

#[test]
fn records_keep_file_order() {
    let content = "127.0.0.1 a\n10.0.0.1 b\n8.8.8.8 dropped\n172.16.5.5 c\n";
    let records = parse_fresh(content);
    assert_eq!(records.len(), 3);
    let names: Vec<String> =
        records.iter().map(|r| r.names()[0].clone()).collect();
    assert_eq!(names, vec!["a".to_string(), "b".to_string(), "c".to_string()]);
}

#[test]
fn parse_twice_is_identical() {
    let content = "# static entries\n127.0.0.1\tlocalhost\n\n192.168.10.42 core.naus core\n::1 six\n";
    let first = parse_fresh(content);
    let second = parse_fresh(content);
    assert_eq!(first, second);
}

#[test]
fn reuse_appends_to_accumulator() {
    let mut parser: Parser = Default::default();
    let first = parser.parse("127.0.0.1 a\n").unwrap();
    assert_eq!(first.len(), 1);
    let second = parser.parse("10.0.0.1 b\n").unwrap();
    assert_eq!(second.len(), 2);
    assert_eq!(second[0].names()[0], "a");
    assert_eq!(second[1].names()[0], "b");
}

#[test]
fn split_lines_handles_endings() {
    let lines = split_lines("a\r\nb\nc");
    assert_eq!(lines, vec!["a".to_string(), "b".to_string(), "c".to_string()]);
    let lines = split_lines("a\n\nb\n");
    assert_eq!(lines, vec!["a".to_string(), "".to_string(), "b".to_string()]);
    let empty = split_lines("");
    assert!(empty.is_empty());
}

#[test]
fn tokenize_collapses_whitespace() {
    let tokens = tokenize(" \t 127.0.0.1\t\tlocalhost  alias ");
    assert_eq!(
        tokens,
        vec!["127.0.0.1".to_string(), "localhost".to_string(), "alias".to_string()]
    );
    let none = tokenize(" \t ");
    assert!(none.is_empty());
}
