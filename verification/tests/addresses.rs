use hosts::Address;

#[test]
fn parse_dotted_decimal() {
    assert_eq!(Address::parse("0.0.0.0").unwrap(), Address::V4(0, 0, 0, 0));
    assert_eq!(Address::parse("255.255.255.255").unwrap(), Address::V4(255, 255, 255, 255));
    assert_eq!(Address::parse("127.0.0.1").unwrap(), Address::V4(127, 0, 0, 1));
}

#[test]
fn parse_dotted_decimal_rejects() {
    assert!(Address::parse("").is_err());
    assert!(Address::parse("1.2.3").is_err());
    assert!(Address::parse("1.2.3.4.5").is_err());
    assert!(Address::parse("256.0.0.1").is_err());
    assert!(Address::parse("01.2.3.4").is_err());
    assert!(Address::parse("1..2.3").is_err());
    assert!(Address::parse("1.2.3.x").is_err());
    assert!(Address::parse("not-an-ip").is_err());
    assert!(Address::parse("1.2.3.4 ").is_err());
}

#[test]
fn parse_grouped_hex() {
    assert_eq!(Address::parse("1:2:3:4:5:6:7:8").unwrap(), Address::V6(1, 2, 3, 4, 5, 6, 7, 8));
    assert_eq!(
        Address::parse("fe80:0:0:0:0:0:0:1").unwrap(),
        Address::V6(0xfe80, 0, 0, 0, 0, 0, 0, 1)
    );
    assert_eq!(Address::parse("ABCD:0:0:0:0:0:0:DCBA").unwrap(),
        Address::V6(0xabcd, 0, 0, 0, 0, 0, 0, 0xdcba));
}

#[test]
fn parse_grouped_hex_compressed() {
    assert_eq!(Address::parse("::").unwrap(), Address::V6(0, 0, 0, 0, 0, 0, 0, 0));
    assert_eq!(Address::parse("::1").unwrap(), Address::V6(0, 0, 0, 0, 0, 0, 0, 1));
    assert_eq!(Address::parse("1::").unwrap(), Address::V6(1, 0, 0, 0, 0, 0, 0, 0));
    assert_eq!(Address::parse("1::2").unwrap(), Address::V6(1, 0, 0, 0, 0, 0, 0, 2));
    assert_eq!(
        Address::parse("fc00::a:b").unwrap(),
        Address::V6(0xfc00, 0, 0, 0, 0, 0, 0xa, 0xb)
    );
    assert_eq!(
        Address::parse("1:2:3:4:5:6:7::").unwrap(),
        Address::V6(1, 2, 3, 4, 5, 6, 7, 0)
    );
}

#[test]
fn parse_grouped_hex_rejects() {
    assert!(Address::parse(":").is_err());
    assert!(Address::parse(":::").is_err());
    assert!(Address::parse("1:2:3:4:5:6:7").is_err());
    assert!(Address::parse("1:2:3:4:5:6:7:8:9").is_err());
    assert!(Address::parse("1:2:3:4:5:6:7:8::").is_err());
    assert!(Address::parse("1::2::3").is_err());
    assert!(Address::parse("12345::").is_err());
    assert!(Address::parse("g::1").is_err());
    assert!(Address::parse("1:").is_err());
    assert!(Address::parse(":1").is_err());
}

#[test]
fn classify_loopback() {
    assert!(Address::V4(127, 0, 0, 1).is_loopback());
    assert!(Address::V4(127, 255, 0, 3).is_loopback());
    assert!(!Address::V4(128, 0, 0, 1).is_loopback());
    assert!(Address::V6(0, 0, 0, 0, 0, 0, 0, 1).is_loopback());
    assert!(!Address::V6(0, 0, 0, 0, 0, 0, 0, 2).is_loopback());
}

#[test]
fn classify_private() {
    assert!(Address::V4(10, 0, 0, 1).is_private());
    assert!(Address::V4(172, 16, 0, 1).is_private());
    assert!(Address::V4(172, 31, 255, 255).is_private());
    assert!(!Address::V4(172, 15, 0, 1).is_private());
    assert!(!Address::V4(172, 32, 0, 1).is_private());
    assert!(Address::V4(192, 168, 10, 42).is_private());
    assert!(!Address::V4(192, 169, 0, 1).is_private());
    assert!(Address::V6(0xfc00, 0, 0, 0, 0, 0, 0, 1).is_private());
    assert!(Address::V6(0xfdff, 0, 0, 0, 0, 0, 0, 1).is_private());
    assert!(!Address::V6(0xfe00, 0, 0, 0, 0, 0, 0, 1).is_private());
}

#[test]
fn classify_global() {
    assert!(Address::V4(8, 8, 8, 8).is_global());
    assert!(!Address::V4(127, 0, 0, 1).is_global());
    assert!(!Address::V4(10, 0, 0, 1).is_global());
    assert!(Address::V6(0x2001, 0xdb8, 0, 0, 0, 0, 0, 1).is_global());
    assert!(!Address::V6(0, 0, 0, 0, 0, 0, 0, 1).is_global());
}

#[test]
fn canonical_text() {
    assert_eq!(Address::V4(127, 0, 0, 1).text(), "127.0.0.1");
    assert_eq!(Address::V4(8, 8, 8, 8).text(), "8.8.8.8");
    assert_eq!(Address::V4(255, 0, 10, 200).text(), "255.0.10.200");
    assert_eq!(
        Address::V6(0xfc00, 0, 0, 0, 0, 0, 0, 1).text(),
        "fc00:0:0:0:0:0:0:1"
    );
    assert_eq!(Address::parse("ABCD::").unwrap().text(), "abcd:0:0:0:0:0:0:0");
}

#[test]
fn acceptable_for_static_records() {
    assert!(Address::parse("127.0.0.1").unwrap().is_acceptable());
    assert!(Address::parse("192.168.10.42").unwrap().is_acceptable());
    assert!(Address::parse("fc00::1").unwrap().is_acceptable());
    assert!(!Address::parse("8.8.8.8").unwrap().is_acceptable());
    assert!(!Address::parse("2001:db8::1").unwrap().is_acceptable());
}
