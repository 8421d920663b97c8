use dns_codec::error::DecodeError;
use dns_codec::question::{write_questions, DnsQuestion};

fn question(name: &str, qtype: u16, qclass: u16) -> DnsQuestion {
    DnsQuestion { qname: name.to_string(), qtype, qclass }
}

#[test]
fn question_to_bytes_exact() {
    let q = question("a.bc", 0x0102, 0x0304);
    assert_eq!(q.to_bytes(), vec![1, b'a', 2, b'b', b'c', 0, 1, 2, 3, 4]);
}

#[test]
fn question_parse_one_exact() {
    let bytes = [0xEE, 1, b'A', 2, b'b', b'C', 0, 0, 1, 0, 255, 0xEE];
    assert_eq!(DnsQuestion::parse_one(&bytes, 1), Ok((question("a.bc", 1, 255), 11)));
}

#[test]
fn question_parse_one_truncated() {
    assert_eq!(DnsQuestion::parse_one(&[1, b'a', 0, 0, 1, 0], 0), Err(DecodeError::TruncatedMessage));
    assert_eq!(DnsQuestion::parse_one(&[1, b'a'], 0), Err(DecodeError::TruncatedMessage));
}

#[test]
fn question_try_parse_none() {
    assert_eq!(DnsQuestion::try_parse(&[1, 2, 3], 1, 0), Ok((vec![], 1)));
    assert_eq!(DnsQuestion::try_parse(&[], 0, 0), Ok((vec![], 0)));
}

#[test]
fn question_try_parse_many_in_order() {
    let list = vec![question("one.io", 1, 1), question("two.io", 28, 1), question("", 2, 3)];
    let mut bytes = vec![0xAA; 12];
    write_questions(&mut bytes, &list);
    let end = bytes.len();
    bytes.extend_from_slice(&[0xBB, 0xBB]);
    assert_eq!(DnsQuestion::try_parse(&bytes, 12, 3), Ok((list.clone(), end)));
    assert_eq!(DnsQuestion::parse(&bytes, 12, 3), (list.clone(), end));
    let (two, after_two) = DnsQuestion::parse(&bytes, 12, 2);
    assert_eq!(two, list[..2].to_vec());
    assert_eq!(after_two, 12 + list[0].to_bytes().len() + list[1].to_bytes().len());
}

#[test]
fn question_try_parse_truncated() {
    let list = vec![question("one.io", 1, 1), question("two.io", 28, 1)];
    let mut bytes = Vec::new();
    write_questions(&mut bytes, &list);
    assert_eq!(DnsQuestion::try_parse(&bytes, 0, 3), Err(DecodeError::TruncatedMessage));
    bytes.pop();
    assert_eq!(DnsQuestion::try_parse(&bytes, 0, 2), Err(DecodeError::TruncatedMessage));
    assert!(DnsQuestion::try_parse(&bytes, 0, 1).is_ok());
}

#[test]
fn question_write_appends() {
    let list = vec![question("a", 1, 2), question("b", 3, 4)];
    let mut out = vec![0x55];
    write_questions(&mut out, &list);
    assert_eq!(out, vec![0x55, 1, b'a', 0, 0, 1, 0, 2, 1, b'b', 0, 0, 3, 0, 4]);
}

#[test]
fn question_duplicate_is_equal() {
    let q = question("Codecrafters.io", 1, 1);
    assert_eq!(q.duplicate(), q);
}
