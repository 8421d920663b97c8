//! The fixed twelve-byte header that opens every DNS message.

use crate::octets::{be16, be16_bytes, read_u16};
use vstd::prelude::*;

verus! {

/// Number of bytes a header occupies on the wire.
pub const HEADER_LEN: usize = 12;

/// The header of a DNS message. Each flag is kept in a byte of its own; on the
/// wire it occupies the number of bits given with the field.
#[derive(Clone, Copy, Debug, PartialEq, Eq, Structural)]
pub struct DnsHeader {
    /// Transaction identifier, 16 bits. A response repeats the identifier of its query.
    pub id: u16,
    /// Query/response flag, 1 bit: 0 for a query, 1 for a response.
    pub qr: u8,
    /// Operation code, 4 bits.
    pub opcode: u8,
    /// Authoritative-answer flag, 1 bit.
    pub aa: u8,
    /// Truncation flag, 1 bit.
    pub tc: u8,
    /// Recursion-desired flag, 1 bit.
    pub rd: u8,
    /// Recursion-available flag, 1 bit.
    pub ra: u8,
    /// Reserved field, 3 bits. Never written to the wire.
    pub z: u8,
    /// Response code, 4 bits.
    pub rcode: u8,
    /// Number of entries in the question section.
    pub qdcount: u16,
    /// Number of records in the answer section.
    pub ancount: u16,
    /// Number of records in the authority section.
    pub nscount: u16,
    /// Number of records in the additional section.
    pub arcount: u16,
}

/// The third header byte: QR, OPCODE, AA, TC and RD from the most significant bit down.
pub open spec fn flags_hi(h: DnsHeader) -> u8 {
    ((h.qr & 1) << 7) | ((h.opcode & 15) << 3) | ((h.aa & 1) << 2) | ((h.tc & 1) << 1) | (h.rd & 1)
}

/// The fourth header byte: RA, three zero bits where the reserved field lies, and RCODE.
pub open spec fn flags_lo(h: DnsHeader) -> u8 {
    ((h.ra & 1) << 7) | (h.rcode & 15)
}

impl DnsHeader {
    /// Every field fits the number of bits it has on the wire.
    pub open spec fn valid(self) -> bool {
        &&& self.qr <= 1
        &&& self.opcode <= 15
        &&& self.aa <= 1
        &&& self.tc <= 1
        &&& self.rd <= 1
        &&& self.ra <= 1
        &&& self.z <= 7
        &&& self.rcode <= 15
    }

    /// The header as `to_bytes` followed by `parse` gives it back: each field
    /// cut to its width, and the reserved field cleared.
    pub open spec fn normalized(self) -> DnsHeader {
        DnsHeader {
            id: self.id,
            qr: self.qr & 1,
            opcode: self.opcode & 15,
            aa: self.aa & 1,
            tc: self.tc & 1,
            rd: self.rd & 1,
            ra: self.ra & 1,
            z: 0,
            rcode: self.rcode & 15,
            qdcount: self.qdcount,
            ancount: self.ancount,
            nscount: self.nscount,
            arcount: self.arcount,
        }
    }

    /// The twelve bytes that stand for this header on the wire.
    pub open spec fn wire(self) -> Seq<u8> {
        be16_bytes(self.id) + seq![flags_hi(self), flags_lo(self)] + be16_bytes(self.qdcount)
            + be16_bytes(self.ancount) + be16_bytes(self.nscount) + be16_bytes(self.arcount)
    }

    /// The header that the first twelve bytes of `b` stand for.
    pub open spec fn from_wire(b: Seq<u8>) -> DnsHeader
        recommends
            b.len() >= HEADER_LEN,
    {
        DnsHeader {
            id: be16(b[0], b[1]),
            qr: b[2] >> 7,
            opcode: (b[2] >> 3) & 15,
            aa: (b[2] >> 2) & 1,
            tc: (b[2] >> 1) & 1,
            rd: b[2] & 1,
            ra: b[3] >> 7,
            z: (b[3] >> 4) & 7,
            rcode: b[3] & 15,
            qdcount: be16(b[4], b[5]),
            ancount: be16(b[6], b[7]),
            nscount: be16(b[8], b[9]),
            arcount: be16(b[10], b[11]),
        }
    }

    /// The header of a standard query or response that asks for recursion: every
    /// other flag and code is zero, and so are the authority and additional counts.
    pub open spec fn fresh(id: u16, response: bool, qdcount: u16, ancount: u16) -> DnsHeader {
        DnsHeader {
            id,
            qr: if response { 1u8 } else { 0u8 },
            opcode: 0,
            aa: 0,
            tc: 0,
            rd: 1,
            ra: 0,
            z: 0,
            rcode: 0,
            qdcount,
            ancount,
            nscount: 0,
            arcount: 0,
        }
    }

    /// A fresh header for a standard query or response that asks for recursion.
    pub fn new(id: u16, response: bool, qdcount: u16, ancount: u16) -> (h: DnsHeader)
        ensures
            h == DnsHeader::fresh(id, response, qdcount, ancount),
            h.valid(),
    {
        DnsHeader {
            id,
            qr: if response { 1 } else { 0 },
            opcode: 0,
            aa: 0,
            tc: 0,
            rd: 1,
            ra: 0,
            z: 0,
            rcode: 0,
            qdcount,
            ancount,
            nscount: 0,
            arcount: 0,
        }
    }

    /// Decodes the header at the start of `bytes`.
    pub fn parse(bytes: &[u8]) -> (h: DnsHeader)
        requires
            bytes@.len() >= HEADER_LEN,
        ensures
            h == DnsHeader::from_wire(bytes@),
            h.valid(),
    {
        let b2: u8 = bytes[2];
        let b3: u8 = bytes[3];
        let h = DnsHeader {
            id: read_u16(bytes[0], bytes[1]),
            qr: b2 >> 7,
            opcode: (b2 >> 3) & 15,
            aa: (b2 >> 2) & 1,
            tc: (b2 >> 1) & 1,
            rd: b2 & 1,
            ra: b3 >> 7,
            z: (b3 >> 4) & 7,
            rcode: b3 & 15,
            qdcount: read_u16(bytes[4], bytes[5]),
            ancount: read_u16(bytes[6], bytes[7]),
            nscount: read_u16(bytes[8], bytes[9]),
            arcount: read_u16(bytes[10], bytes[11]),
        };
        proof {
            lemma_unpacked_flags_fit(b2, b3);
        }
        h
    }

    /// Encodes the header. The reserved field is written as zero whatever it holds.
    pub fn to_bytes(&self) -> (bytes: [u8; 12])
        ensures
            bytes@ == self.wire(),
    {
        let hi: u8 = ((self.qr & 1) << 7) | ((self.opcode & 15) << 3) | ((self.aa & 1) << 2) | ((
        self.tc & 1) << 1) | (self.rd & 1);
        let lo: u8 = ((self.ra & 1) << 7) | (self.rcode & 15);
        let bytes: [u8; 12] = [
            (self.id / 256) as u8,
            (self.id % 256) as u8,
            hi,
            lo,
            (self.qdcount / 256) as u8,
            (self.qdcount % 256) as u8,
            (self.ancount / 256) as u8,
            (self.ancount % 256) as u8,
            (self.nscount / 256) as u8,
            (self.nscount % 256) as u8,
            (self.arcount / 256) as u8,
            (self.arcount % 256) as u8,
        ];
        assert(bytes@ =~= self.wire());
        bytes
    }
}

/// The fields unpacked from the two flag bytes fit their widths.
proof fn lemma_unpacked_flags_fit(b2: u8, b3: u8)
    ensures
        b2 >> 7 <= 1,
        (b2 >> 3) & 15 <= 15,
        (b2 >> 2) & 1 <= 1,
        (b2 >> 1) & 1 <= 1,
        b2 & 1 <= 1,
        b3 >> 7 <= 1,
        (b3 >> 4) & 7 <= 7,
        b3 & 15 <= 15,
{
    assert(b2 >> 7 <= 1) by (bit_vector);
    assert((b2 >> 3) & 15 <= 15) by (bit_vector);
    assert((b2 >> 2) & 1 <= 1) by (bit_vector);
    assert((b2 >> 1) & 1 <= 1) by (bit_vector);
    assert(b2 & 1 <= 1) by (bit_vector);
    assert(b3 >> 7 <= 1) by (bit_vector);
    assert((b3 >> 4) & 7 <= 7) by (bit_vector);
    assert(b3 & 15 <= 15) by (bit_vector);
}

/// Packing five flag fields into a byte and unpacking them gives each field cut to its width.
proof fn lemma_flags_hi_unpack(qr: u8, opcode: u8, aa: u8, tc: u8, rd: u8)
    ensures
        ({
            let b = ((qr & 1) << 7) | ((opcode & 15) << 3) | ((aa & 1) << 2) | ((tc & 1) << 1) | (rd
                & 1);
            &&& b >> 7 == qr & 1
            &&& (b >> 3) & 15 == opcode & 15
            &&& (b >> 2) & 1 == aa & 1
            &&& (b >> 1) & 1 == tc & 1
            &&& b & 1 == rd & 1
        }),
{
    let b = ((qr & 1) << 7) | ((opcode & 15) << 3) | ((aa & 1) << 2) | ((tc & 1) << 1) | (rd & 1);
    assert({
        &&& b >> 7 == qr & 1
        &&& (b >> 3) & 15 == opcode & 15
        &&& (b >> 2) & 1 == aa & 1
        &&& (b >> 1) & 1 == tc & 1
        &&& b & 1 == rd & 1
    }) by (bit_vector)
        requires
            b == ((qr & 1) << 7) | ((opcode & 15) << 3) | ((aa & 1) << 2) | ((tc & 1) << 1) | (rd
                & 1),
    ;
}

/// Packing RA and RCODE into a byte and unpacking them gives each cut to its width,
/// with the reserved bits clear.
proof fn lemma_flags_lo_unpack(ra: u8, rcode: u8)
    ensures
        ({
            let b = ((ra & 1) << 7) | (rcode & 15);
            &&& b >> 7 == ra & 1
            &&& (b >> 4) & 7 == 0
            &&& b & 15 == rcode & 15
        }),
{
    let b = ((ra & 1) << 7) | (rcode & 15);
    assert({
        &&& b >> 7 == ra & 1
        &&& (b >> 4) & 7 == 0
        &&& b & 15 == rcode & 15
    }) by (bit_vector)
        requires
            b == ((ra & 1) << 7) | (rcode & 15),
    ;
}

/// A field that fits its width is left alone by the mask of that width.
proof fn lemma_masks_keep(x: u8)
    ensures
        x <= 1 ==> x & 1 == x,
        x <= 15 ==> x & 15 == x,
{
    assert(x <= 1 ==> x & 1 == x) by (bit_vector);
    assert(x <= 15 ==> x & 15 == x) by (bit_vector);
}

/// A decoded header is valid.
pub proof fn lemma_from_wire_valid(b: Seq<u8>)
    ensures
        DnsHeader::from_wire(b).valid(),
{
    lemma_unpacked_flags_fit(b[2], b[3]);
}

/// Cutting the fields of a valid header to their widths changes nothing but
/// the reserved field, which is cleared.
pub proof fn lemma_valid_normalized(h: DnsHeader)
    requires
        h.valid(),
    ensures
        h.normalized() == (DnsHeader { z: 0, ..h }),
{
    lemma_masks_keep(h.qr);
    lemma_masks_keep(h.opcode);
    lemma_masks_keep(h.aa);
    lemma_masks_keep(h.tc);
    lemma_masks_keep(h.rd);
    lemma_masks_keep(h.ra);
    lemma_masks_keep(h.rcode);
}

/// Decoding an encoded header gives the header back, each field cut to its
/// width and the reserved field cleared: a valid header comes back as it was
/// but for the reserved field.
pub proof fn lemma_header_roundtrip(h: DnsHeader, b: Seq<u8>)
    requires
        b.len() >= HEADER_LEN,
        b.subrange(0, HEADER_LEN as int) == h.wire(),
    ensures
        DnsHeader::from_wire(b) == h.normalized(),
        h.valid() ==> DnsHeader::from_wire(b) == (DnsHeader { z: 0, ..h }),
{
    let w = h.wire();
    assert(w.len() == 12);
    assert forall|i: int| 0 <= i < 12 implies b[i] == w[i] by {
        assert(b.subrange(0, 12)[i] == b[i]);
    }
    lemma_flags_hi_unpack(h.qr, h.opcode, h.aa, h.tc, h.rd);
    lemma_flags_lo_unpack(h.ra, h.rcode);
    if h.valid() {
        lemma_valid_normalized(h);
    }
}

} // verus!
