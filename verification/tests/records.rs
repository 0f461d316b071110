use hosts::Address;
use hosts::Record;
use hosts::RecordError;

#[test]
fn create_loopback() {
    let addr = Address::parse("127.0.0.1").unwrap();
    let names: Vec<String> = vec!["localhost".to_string()];
    let record = Record::new(addr, names);
    assert!(record.is_ok())
}

#[test]
fn create_private() {
    let addr = Address::parse("192.168.10.42").unwrap();
    let names: Vec<String> = vec!["core.naus".to_string()];
    let record = Record::new(addr, names);
    assert!(record.is_ok())
}

#[test]
fn create_keeps_address_and_names() {
    let addr = Address::parse("10.1.2.3").unwrap();
    let names: Vec<String> = vec!["a".to_string(), "b".to_string(), "a".to_string()];
    let record = Record::new(addr, names).unwrap();
    assert_eq!(record.addr(), Address::V4(10, 1, 2, 3));
    let expected: Vec<String> = vec!["a".to_string(), "b".to_string(), "a".to_string()];
    assert_eq!(record.names(), &expected);
}

#[test]
fn create_empty_names() {
    let addr = Address::parse("::1").unwrap();
    let names: Vec<String> = Vec::new();
    let record = Record::new(addr, names).unwrap();
    assert_eq!(record.addr(), Address::V6(0, 0, 0, 0, 0, 0, 0, 1));
    assert!(record.names().is_empty());
}

#[test]
fn create_global_fails() {
    let addr = Address::parse("8.8.8.8").unwrap();
    assert!(addr.is_global());
    let names: Vec<String> = vec!["dns.google".to_string()];
    match Record::new(addr, names) {
        Ok(_) => panic!("a global address must be rejected"),
        Err(RecordError::InvalidAddress(text)) => assert_eq!(text, "8.8.8.8"),
    }
}

#[test]
fn create_global_six_groups_fails() {
    let addr = Address::parse("2001:db8::1").unwrap();
    assert!(addr.is_global());
    let names: Vec<String> = vec!["example".to_string()];
    match Record::new(addr, names) {
        Ok(_) => panic!("a global address must be rejected"),
        Err(RecordError::InvalidAddress(text)) => {
            assert_eq!(text, "2001:db8:0:0:0:0:0:1");
        },
    }
}

#[test]
fn duplicate_equals_original() {
    let addr = Address::parse("192.168.0.1").unwrap();
    let names: Vec<String> = vec!["router".to_string()];
    let record = Record::new(addr, names).unwrap();
    let copy = record.duplicate();
    assert_eq!(copy, record);
}
