use dns_codec::answer::{write_answers, DnsAnswer};
use dns_codec::error::DecodeError;

fn record(name: &str, data: &[u8]) -> DnsAnswer {
    DnsAnswer::new(name.to_string(), 1, 1, 60, data.len() as u16, data.to_vec())
}

#[test]
fn answer_new_keeps_fields() {
    let a = DnsAnswer::new("x.y".to_string(), 5, 3, 0xDEADBEEF, 9, vec![1, 2]);
    assert_eq!(a.name, "x.y");
    assert_eq!(a.rtype, 5);
    assert_eq!(a.class, 3);
    assert_eq!(a.ttl, 0xDEADBEEF);
    assert_eq!(a.rdlength, 9);
    assert_eq!(a.rdata, vec![1, 2]);
}

#[test]
fn answer_to_bytes_exact() {
    let a = DnsAnswer::new("a.io".to_string(), 1, 1, 60, 4, vec![8, 8, 8, 8]);
    assert_eq!(
        a.to_bytes(),
        vec![1, b'a', 2, b'i', b'o', 0, 0, 1, 0, 1, 0, 0, 0, 60, 0, 4, 8, 8, 8, 8]
    );
}

#[test]
fn answer_to_bytes_writes_stated_length() {
    let a = DnsAnswer::new("a".to_string(), 0x0102, 0x0304, 0x05060708, 0x090A, vec![7]);
    assert_eq!(a.to_bytes(), vec![1, b'a', 0, 1, 2, 3, 4, 5, 6, 7, 8, 9, 10, 7]);
}

#[test]
fn answer_parse_one_exact() {
    let bytes = [0xEE, 1, b'A', 0, 0, 16, 0, 3, 1, 2, 3, 4, 0, 2, 0xAB, 0xCD, 0xEE];
    let expected = DnsAnswer::new("a".to_string(), 16, 3, 0x01020304, 2, vec![0xAB, 0xCD]);
    assert_eq!(DnsAnswer::parse_one(&bytes, 1), Ok((expected, 16)));
}

#[test]
fn answer_parse_one_truncated() {
    let full = record("a.io", &[8, 8, 8, 8]).to_bytes();
    for cut in 0..full.len() {
        assert_eq!(DnsAnswer::parse_one(&full[..cut], 0), Err(DecodeError::TruncatedMessage));
    }
    assert!(DnsAnswer::parse_one(&full, 0).is_ok());
}

#[test]
fn answer_roundtrip() {
    for a in [
        record("codecrafters.io", &[8, 8, 8, 8]),
        record("", &[]),
        DnsAnswer::new("x.y.z".to_string(), 0xFFFF, 0xFFFF, u32::MAX, 3, vec![0, 255, 0]),
        record("big", &[0x5A; 65535]),
    ] {
        let bytes = a.to_bytes();
        assert_eq!(DnsAnswer::parse_one(&bytes, 0), Ok((a, bytes.len())));
    }
}

#[test]
fn answer_try_parse_many_in_order() {
    let list = vec![record("one.io", &[1, 2, 3, 4]), record("two.io", &[]), record("three.io", &[9])];
    let mut bytes = vec![0xAA; 5];
    write_answers(&mut bytes, &list);
    let end = bytes.len();
    bytes.push(0xBB);
    assert_eq!(DnsAnswer::try_parse(&bytes, 5, 3), Ok((list.clone(), end)));
    assert_eq!(DnsAnswer::parse(&bytes, 5, 3), (list.clone(), end));
    assert_eq!(DnsAnswer::try_parse(&bytes, 5, 0), Ok((vec![], 5)));
    assert_eq!(DnsAnswer::try_parse(&bytes, 5, 4), Err(DecodeError::TruncatedMessage));
}

#[test]
fn answer_write_appends() {
    let list = vec![record("a", &[1]), record("b", &[])];
    let mut out = vec![0x55];
    write_answers(&mut out, &list);
    let mut expected = vec![0x55];
    expected.extend_from_slice(&list[0].to_bytes());
    expected.extend_from_slice(&list[1].to_bytes());
    assert_eq!(out, expected);
}
