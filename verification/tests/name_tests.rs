use dns_codec::error::DecodeError;
use dns_codec::name::{decode_name, encode_name, push_label};
use dns_codec::octets::{extend_bytes, read_u16, read_u32, write_u16, write_u32};

#[test]
fn encode_name_exact() {
    assert_eq!(
        encode_name("codecrafters.io"),
        vec![12, b'c', b'o', b'd', b'e', b'c', b'r', b'a', b'f', b't', b'e', b'r', b's', 2, b'i', b'o', 0]
    );
}

#[test]
fn encode_name_empty_is_root() {
    assert_eq!(encode_name(""), vec![0]);
}

#[test]
fn encode_name_skips_empty_segments() {
    assert_eq!(encode_name("a..b"), vec![1, b'a', 1, b'b', 0]);
    assert_eq!(encode_name(".a."), vec![1, b'a', 0]);
    assert_eq!(encode_name("..."), vec![0]);
}

#[test]
fn encode_name_keeps_case() {
    assert_eq!(encode_name("Ab.C"), vec![2, b'A', b'b', 1, b'C', 0]);
}

#[test]
fn encode_name_does_not_reject_long_labels() {
    let label = "x".repeat(300);
    let bytes = encode_name(&label);
    assert_eq!(bytes.len(), 302);
    assert_eq!(bytes[0], 44);
    assert!(bytes[1..301].iter().all(|b| *b == b'x'));
    assert_eq!(bytes[301], 0);
}

#[test]
fn encode_name_counts_bytes_not_characters() {
    assert_eq!(encode_name("\u{e9}.x"), vec![2, 0xC3, 0xA9, 1, b'x', 0]);
}

#[test]
fn decode_name_exact() {
    let bytes = [3, b'w', b'w', b'w', 7, b'e', b'x', b'a', b'm', b'p', b'l', b'e', 3, b'c', b'o', b'm', 0, 9, 9];
    assert_eq!(decode_name(&bytes, 0), Ok(("www.example.com".to_string(), 17)));
}

#[test]
fn decode_name_at_offset() {
    let bytes = [0xFF, 0xFF, 1, b'a', 2, b'b', b'c', 0, 0xFF];
    assert_eq!(decode_name(&bytes, 2), Ok(("a.bc".to_string(), 8)));
}

#[test]
fn decode_name_lowercases() {
    let bytes = [3, b'W', b'w', b'W', 2, b'I', b'O', 0];
    assert_eq!(decode_name(&bytes, 0), Ok(("www.io".to_string(), 8)));
}

#[test]
fn decode_name_keeps_digits_and_hyphens() {
    let bytes = [4, b'A', b'-', b'1', b'_', 0];
    assert_eq!(decode_name(&bytes, 0), Ok(("a-1_".to_string(), 6)));
}

#[test]
fn decode_name_root() {
    assert_eq!(decode_name(&[0], 0), Ok((String::new(), 1)));
}

#[test]
fn decode_name_replaces_invalid_utf8() {
    let bytes = [2, 0xFF, b'A', 0];
    assert_eq!(decode_name(&bytes, 0), Ok(("\u{fffd}a".to_string(), 4)));
}

#[test]
fn decode_name_lowercases_beyond_ascii() {
    let bytes = [2, 0xC3, 0x89, 0];
    assert_eq!(decode_name(&bytes, 0), Ok(("\u{e9}".to_string(), 4)));
}

#[test]
fn decode_name_takes_pointer_byte_as_length() {
    let mut bytes = vec![0xC0];
    bytes.extend(std::iter::repeat(b'a').take(0xC0));
    bytes.push(0);
    let (name, next) = decode_name(&bytes, 0).unwrap();
    assert_eq!(name, "a".repeat(0xC0));
    assert_eq!(next, 0xC0 + 2);
    assert_eq!(decode_name(&[0xC0, 0x0C], 0), Err(DecodeError::TruncatedMessage));
}

#[test]
fn decode_name_truncated() {
    assert_eq!(decode_name(&[], 0), Err(DecodeError::TruncatedMessage));
    assert_eq!(decode_name(&[0], 1), Err(DecodeError::TruncatedMessage));
    assert_eq!(decode_name(&[0], 5), Err(DecodeError::TruncatedMessage));
    assert_eq!(decode_name(&[3, b'a', b'b'], 0), Err(DecodeError::TruncatedMessage));
    assert_eq!(decode_name(&[3, b'a', b'b', b'c'], 0), Err(DecodeError::TruncatedMessage));
    assert_eq!(decode_name(&[1, b'a', 1], 0), Err(DecodeError::TruncatedMessage));
}

#[test]
fn name_roundtrip_gives_lowercase() {
    for name in ["codecrafters.io", "A.B.C", "x", "", "Example.COM", "a-b.c_d.e9"] {
        let bytes = encode_name(name);
        assert_eq!(decode_name(&bytes, 0), Ok((name.to_ascii_lowercase(), bytes.len())));
    }
}

#[test]
fn name_roundtrip_longest_labels() {
    let name = format!("{}.{}", "a".repeat(63), "B".repeat(255));
    let bytes = encode_name(&name);
    assert_eq!(bytes.len(), 1 + 63 + 1 + 255 + 1);
    assert_eq!(decode_name(&bytes, 0), Ok((name.to_ascii_lowercase(), bytes.len())));
}

#[test]
fn big_endian_integers() {
    assert_eq!(read_u16(0x12, 0x34), 0x1234);
    assert_eq!(read_u32(0x12, 0x34, 0x56, 0x78), 0x12345678);
    assert_eq!(read_u32(0xFF, 0xFF, 0xFF, 0xFF), u32::MAX);
    let mut out = vec![9];
    write_u16(&mut out, 0xABCD);
    write_u32(&mut out, 0x01020304);
    extend_bytes(&mut out, &[7, 8]);
    assert_eq!(out, vec![9, 0xAB, 0xCD, 1, 2, 3, 4, 7, 8]);
}

#[test]
fn push_label_joins_with_dots() {
    let mut name = String::new();
    push_label(&mut name, "www");
    assert_eq!(name, "www");
    push_label(&mut name, "example");
    assert_eq!(name, "www.example");
    push_label(&mut name, "");
    assert_eq!(name, "www.example.");
    let mut empty = String::new();
    push_label(&mut empty, "");
    assert_eq!(empty, "");
}
