use dns_codec::header::DnsHeader;

fn sample() -> DnsHeader {
    DnsHeader {
        id: 0xBEEF,
        qr: 1,
        opcode: 0b1010,
        aa: 1,
        tc: 0,
        rd: 1,
        ra: 1,
        z: 0,
        rcode: 0b0101,
        qdcount: 0x0102,
        ancount: 0x0304,
        nscount: 0x0506,
        arcount: 0x0708,
    }
}

#[test]
fn header_new_response_fields() {
    let h = DnsHeader::new(0x1234, true, 1, 1);
    assert_eq!(h.id, 0x1234);
    assert_eq!(h.qr, 1);
    assert_eq!(h.opcode, 0);
    assert_eq!(h.aa, 0);
    assert_eq!(h.tc, 0);
    assert_eq!(h.rd, 1);
    assert_eq!(h.ra, 0);
    assert_eq!(h.z, 0);
    assert_eq!(h.rcode, 0);
    assert_eq!(h.qdcount, 1);
    assert_eq!(h.ancount, 1);
    assert_eq!(h.nscount, 0);
    assert_eq!(h.arcount, 0);
}

#[test]
fn header_new_query_has_qr_clear() {
    let h = DnsHeader::new(7, false, 2, 0);
    assert_eq!(h.qr, 0);
    assert_eq!(h.rd, 1);
    assert_eq!(h.qdcount, 2);
    assert_eq!(h.ancount, 0);
}

#[test]
fn header_to_bytes_exact() {
    let h = DnsHeader::new(0x1234, true, 1, 1);
    assert_eq!(h.to_bytes(), [0x12, 0x34, 0x81, 0x00, 0x00, 0x01, 0x00, 0x01, 0, 0, 0, 0]);
}

#[test]
fn header_to_bytes_packs_every_field() {
    assert_eq!(
        sample().to_bytes(),
        [0xBE, 0xEF, 0b1101_0101, 0b1000_0101, 0x01, 0x02, 0x03, 0x04, 0x05, 0x06, 0x07, 0x08]
    );
}

#[test]
fn header_parse_exact() {
    let bytes = [0xBE, 0xEF, 0b1101_0101, 0b1111_0101, 0x01, 0x02, 0x03, 0x04, 0x05, 0x06, 0x07, 0x08];
    let h = DnsHeader::parse(&bytes);
    assert_eq!(h, DnsHeader { z: 7, ..sample() });
}

#[test]
fn header_parse_reads_only_first_twelve_bytes() {
    let mut bytes = sample().to_bytes().to_vec();
    bytes.extend_from_slice(&[0xFF, 0xFF, 0xFF]);
    assert_eq!(DnsHeader::parse(&bytes), sample());
}

#[test]
fn header_roundtrip() {
    let h = sample();
    assert_eq!(DnsHeader::parse(&h.to_bytes()), h);
    let q = DnsHeader::new(0xFFFF, false, 0xFFFF, 0xFFFF);
    assert_eq!(DnsHeader::parse(&q.to_bytes()), q);
    let zero = DnsHeader { id: 0, qr: 0, opcode: 0, aa: 0, tc: 0, rd: 0, ra: 0, z: 0, rcode: 0, qdcount: 0, ancount: 0, nscount: 0, arcount: 0 };
    assert_eq!(zero.to_bytes(), [0u8; 12]);
    assert_eq!(DnsHeader::parse(&[0u8; 12]), zero);
}

#[test]
fn header_roundtrip_every_flag_alone() {
    for bit in 0..7 {
        let mut h = DnsHeader::new(1, false, 0, 0);
        h.rd = 0;
        match bit {
            0 => h.qr = 1,
            1 => h.opcode = 15,
            2 => h.aa = 1,
            3 => h.tc = 1,
            4 => h.rd = 1,
            5 => h.ra = 1,
            _ => h.rcode = 15,
        }
        assert_eq!(DnsHeader::parse(&h.to_bytes()), h);
    }
}

#[test]
fn header_reserved_field_is_written_as_zero() {
    let h = DnsHeader { z: 5, ..sample() };
    let bytes = h.to_bytes();
    assert_eq!(bytes[3], 0b1000_0101);
    assert_eq!(DnsHeader::parse(&bytes), sample());
}

#[test]
fn header_fields_are_cut_to_their_width() {
    let h = DnsHeader { qr: 3, opcode: 0x1F, rcode: 0xF5, ra: 2, ..sample() };
    let back = DnsHeader::parse(&h.to_bytes());
    assert_eq!(back.qr, 1);
    assert_eq!(back.opcode, 15);
    assert_eq!(back.rcode, 5);
    assert_eq!(back.ra, 0);
    assert_eq!(back.z, 0);
}
