//! The answer section: resource records.

use crate::error::DecodeError;
use crate::name::{
    ascii_lower_text, decode_name, encode_name, lemma_name_at_bounds, lemma_name_roundtrip,
    name_at, name_wire, plain_name,
};
use crate::octets::{
    be16, be16_bytes, be32, be32_bytes, extend_bytes, lemma_be16_roundtrip, lemma_be32_roundtrip,
    read_u16, read_u32, write_u16, write_u32,
};
use vstd::prelude::*;
use vstd::slice::{slice_subrange, slice_to_vec};

verus! {

/// A resource record: data bound to a name, with a type, a class and a time
/// for which it may be cached.
#[derive(Clone, Debug, PartialEq, Eq)]
pub struct DnsAnswer {
    /// The name the record belongs to, its labels joined by dots.
    pub name: String,
    /// The type of the record.
    pub rtype: u16,
    /// The class of the record.
    pub class: u16,
    /// The number of seconds for which the record may be cached.
    pub ttl: u32,
    /// The length of the record's data as the wire states it.
    pub rdlength: u16,
    /// The record's data; what it means depends on type and class.
    pub rdata: Vec<u8>,
}

/// What a resource record holds, as mathematical values.
pub struct AnswerView {
    /// The name the record belongs to.
    pub name: Seq<char>,
    /// The type of the record.
    pub rtype: u16,
    /// The class of the record.
    pub class: u16,
    /// The number of seconds for which the record may be cached.
    pub ttl: u32,
    /// The length of the record's data as the wire states it.
    pub rdlength: u16,
    /// The record's data.
    pub rdata: Seq<u8>,
}

impl View for DnsAnswer {
    type V = AnswerView;

    open spec fn view(&self) -> AnswerView {
        AnswerView {
            name: self.name@,
            rtype: self.rtype,
            class: self.class,
            ttl: self.ttl,
            rdlength: self.rdlength,
            rdata: self.rdata@,
        }
    }
}

impl AnswerView {
    /// The record on the wire: the name, type, class, time to live and stated
    /// data length, all big-endian, then the data.
    pub open spec fn wire(self) -> Seq<u8> {
        name_wire(self.name) + be16_bytes(self.rtype) + be16_bytes(self.class) + be32_bytes(
            self.ttl,
        ) + be16_bytes(self.rdlength) + self.rdata
    }

    /// The stated data length is the length of the data.
    pub open spec fn consistent(self) -> bool {
        self.rdlength == self.rdata.len()
    }

    /// The record as decoding its encoding gives it back: the name in lower case.
    pub open spec fn normalized(self) -> AnswerView {
        AnswerView { name: ascii_lower_text(self.name), ..self }
    }
}

/// The views of a list of records, in order.
pub open spec fn answer_views(list: Seq<DnsAnswer>) -> Seq<AnswerView> {
    Seq::new(list.len(), |j: int| list[j]@)
}

/// The record that starts at `b[i]` and the position just behind it; `None`
/// where `b` ends before the record does.
pub open spec fn answer_at(b: Seq<u8>, i: int) -> Option<(AnswerView, int)> {
    match name_at(b, i, Seq::empty()) {
        Some((name, j)) => if j + 10 <= b.len() && j + 10 + be16(b[j + 8], b[j + 9]) <= b.len() {
            let rdlength = be16(b[j + 8], b[j + 9]);
            Some(
                (
                    AnswerView {
                        name,
                        rtype: be16(b[j], b[j + 1]),
                        class: be16(b[j + 2], b[j + 3]),
                        ttl: be32(b[j + 4], b[j + 5], b[j + 6], b[j + 7]),
                        rdlength,
                        rdata: b.subrange(j + 10, j + 10 + rdlength),
                    },
                    j + 10 + rdlength,
                ),
            )
        } else {
            None
        },
        None => None,
    }
}

/// The `count` records that follow one another from `b[i]` on, and the position
/// just behind the last; `None` where `b` ends before they do.
pub open spec fn answers_at(b: Seq<u8>, i: int, count: nat) -> Option<(Seq<AnswerView>, int)>
    decreases count,
{
    if count == 0 {
        Some((Seq::empty(), i))
    } else {
        match answers_at(b, i, (count - 1) as nat) {
            Some((rs, j)) => match answer_at(b, j) {
                Some((r, k)) => Some((rs.push(r), k)),
                None => None,
            },
            None => None,
        }
    }
}

/// A run of records on the wire: each record's bytes, in order.
pub open spec fn answers_wire(rs: Seq<AnswerView>) -> Seq<u8>
    decreases rs.len(),
{
    if rs.len() == 0 {
        Seq::empty()
    } else {
        answers_wire(rs.drop_last()) + rs.last().wire()
    }
}

impl DnsAnswer {
    /// A record of the fields given. Nothing is checked: the stated data
    /// length need not be the length of the data.
    pub fn new(name: String, rtype: u16, class: u16, ttl: u32, rdlength: u16, rdata: Vec<u8>) -> (a:
        DnsAnswer)
        ensures
            a == (DnsAnswer { name, rtype, class, ttl, rdlength, rdata }),
    {
        DnsAnswer { name, rtype, class, ttl, rdlength, rdata }
    }

    /// Decodes the one record that starts at `bytes[start]`.
    pub fn parse_one(bytes: &[u8], start: usize) -> (r: Result<(DnsAnswer, usize), DecodeError>)
        ensures
            match answer_at(bytes@, start as int) {
                Some((a, end)) => r matches Ok((answer, next)) && answer@ == a && next == end
                    && a.consistent(),
                None => r == Err::<(DnsAnswer, usize), DecodeError>(DecodeError::TruncatedMessage),
            },
    {
        match decode_name(bytes, start) {
            Err(e) => Err(e),
            Ok((name, i)) => {
                if bytes.len() - i < 10 {
                    return Err(DecodeError::TruncatedMessage);
                }
                let rtype = read_u16(bytes[i], bytes[i + 1]);
                let class = read_u16(bytes[i + 2], bytes[i + 3]);
                let ttl = read_u32(bytes[i + 4], bytes[i + 5], bytes[i + 6], bytes[i + 7]);
                let rdlength = read_u16(bytes[i + 8], bytes[i + 9]);
                let len: usize = rdlength as usize;
                if bytes.len() - i - 10 < len {
                    return Err(DecodeError::TruncatedMessage);
                }
                let rdata = slice_to_vec(slice_subrange(bytes, i + 10, i + 10 + len));
                Ok((DnsAnswer::new(name, rtype, class, ttl, rdlength, rdata), i + 10 + len))
            },
        }
    }

    /// Decodes `ancount` records that follow one another from `bytes[start]` on.
    /// Gives them in order, with the position just behind the last.
    pub fn try_parse(bytes: &[u8], start: usize, ancount: u16) -> (r: Result<
        (Vec<DnsAnswer>, usize),
        DecodeError,
    >)
        ensures
            match answers_at(bytes@, start as int, ancount as nat) {
                Some((rs, end)) => r matches Ok((list, next)) && answer_views(list@) == rs
                    && list@.len() == ancount && next == end,
                None => r == Err::<(Vec<DnsAnswer>, usize), DecodeError>(
                    DecodeError::TruncatedMessage,
                ),
            },
    {
        let mut list: Vec<DnsAnswer> = Vec::new();
        let mut i: usize = start;
        let mut n: u16 = 0;
        assert(answer_views(list@) =~= Seq::empty());
        while n < ancount
            invariant
                n <= ancount,
                list@.len() == n,
                answers_at(bytes@, start as int, n as nat) == Some((answer_views(list@), i as int)),
            decreases ancount - n,
        {
            let ghost before = answer_views(list@);
            match DnsAnswer::parse_one(bytes, i) {
                Err(e) => {
                    proof {
                        lemma_answers_at_stays_none(
                            bytes@,
                            start as int,
                            (n + 1) as nat,
                            ancount as nat,
                        );
                    }
                    return Err(e);
                },
                Ok((answer, next)) => {
                    list.push(answer);
                    assert(answer_views(list@) =~= before.push(answer@));
                    i = next;
                    n = n + 1;
                },
            }
        }
        Ok((list, i))
    }

    /// Decodes `ancount` records that follow one another from `bytes[start]` on,
    /// where the input is known to hold them.
    pub fn parse(bytes: &[u8], start: usize, ancount: u16) -> (r: (Vec<DnsAnswer>, usize))
        requires
            answers_at(bytes@, start as int, ancount as nat) is Some,
        ensures
            answers_at(bytes@, start as int, ancount as nat) == Some(
                (answer_views(r.0@), r.1 as int),
            ),
            r.0@.len() == ancount,
    {
        match DnsAnswer::try_parse(bytes, start, ancount) {
            Ok(r) => r,
            Err(_) => unreached(),
        }
    }

    /// Encodes the record: the name, type, class, time to live and stated data
    /// length, all big-endian, then the data.
    pub fn to_bytes(&self) -> (bytes: Vec<u8>)
        ensures
            bytes@ == self@.wire(),
    {
        let mut bytes = encode_name(self.name.as_str());
        write_u16(&mut bytes, self.rtype);
        write_u16(&mut bytes, self.class);
        write_u32(&mut bytes, self.ttl);
        write_u16(&mut bytes, self.rdlength);
        extend_bytes(&mut bytes, self.rdata.as_slice());
        bytes
    }
}

/// Appends the encoding of each record of `list`, in order, to `out`.
pub fn write_answers(out: &mut Vec<u8>, list: &Vec<DnsAnswer>)
    ensures
        final(out)@ == old(out)@ + answers_wire(answer_views(list@)),
{
    let ghost views = answer_views(list@);
    let mut n: usize = 0;
    assert(views.take(0) =~= Seq::empty());
    assert(out@ =~= old(out)@ + answers_wire(views.take(0)));
    while n < list.len()
        invariant
            n <= list@.len(),
            views == answer_views(list@),
            out@ == old(out)@ + answers_wire(views.take(n as int)),
        decreases list@.len() - n,
    {
        let bytes = list[n].to_bytes();
        extend_bytes(out, bytes.as_slice());
        proof {
            let next = views.take(n + 1);
            assert(next.drop_last() =~= views.take(n as int));
            assert(next.last() == list@[n as int]@);
            assert(out@ =~= old(out)@ + answers_wire(next));
        }
        n = n + 1;
    }
    assert(views.take(n as int) =~= views);
}

/// Once a run of records does not fit, no longer run from the same place does.
pub proof fn lemma_answers_at_stays_none(b: Seq<u8>, i: int, n: nat, m: nat)
    requires
        answers_at(b, i, n) is None,
        n <= m,
    ensures
        answers_at(b, i, m) is None,
    decreases m,
{
    if n < m {
        lemma_answers_at_stays_none(b, i, n, (m - 1) as nat);
    }
}

/// Each record of `rs` with its name in lower case.
pub open spec fn normalized_answers(rs: Seq<AnswerView>) -> Seq<AnswerView> {
    Seq::new(rs.len(), |j: int| rs[j].normalized())
}

/// A run of `count` records, where it fits, holds exactly `count` records,
/// each with as much data as it states, and ends within `b`, at or behind the
/// place it started.
pub proof fn lemma_answers_at_count(b: Seq<u8>, i: int, count: nat)
    requires
        0 <= i <= b.len(),
    ensures
        answers_at(b, i, count) matches Some((rs, end)) ==> rs.len() == count && i <= end
            <= b.len() && forall|j: int| 0 <= j < rs.len() ==> (#[trigger] rs[j]).consistent(),
    decreases count,
{
    if count > 0 {
        lemma_answers_at_count(b, i, (count - 1) as nat);
        if let Some((rs, j)) = answers_at(b, i, (count - 1) as nat) {
            lemma_name_at_bounds(b, j, Seq::empty());
        }
    }
}

/// Decoding an encoded record with a plain name and as much data as it states,
/// wherever it lies in `b`, gives the record back with its name in lower case
/// and reads exactly its bytes: a record whose name is in lower case comes back
/// as it was, every field and every byte of its data.
pub proof fn lemma_answer_roundtrip(r: AnswerView, b: Seq<u8>, i: int)
    requires
        plain_name(r.name),
        r.consistent(),
        0 <= i,
        i + r.wire().len() <= b.len(),
        b.subrange(i, i + r.wire().len()) == r.wire(),
    ensures
        answer_at(b, i) == Some((r.normalized(), i + r.wire().len())),
        ascii_lower_text(r.name) == r.name ==> answer_at(b, i) == Some((r, i + r.wire().len())),
{
    let w = r.wire();
    let n = name_wire(r.name).len() as int;
    assert(w.len() == n + 10 + r.rdata.len());
    assert forall|j: int| 0 <= j < w.len() implies b[i + j] == w[j] by {
        assert(b.subrange(i, i + w.len())[j] == b[i + j]);
    }
    assert(b.subrange(i, i + n) =~= name_wire(r.name));
    lemma_name_roundtrip(r.name, b, i);
    lemma_be16_roundtrip(r.rtype);
    lemma_be16_roundtrip(r.class);
    lemma_be32_roundtrip(r.ttl);
    lemma_be16_roundtrip(r.rdlength);
    assert(b[i + n] == w[n] && b[i + n + 1] == w[n + 1]);
    assert(b[i + n + 2] == w[n + 2] && b[i + n + 3] == w[n + 3]);
    assert(b[i + n + 4] == w[n + 4] && b[i + n + 5] == w[n + 5]);
    assert(b[i + n + 6] == w[n + 6] && b[i + n + 7] == w[n + 7]);
    assert(b[i + n + 8] == w[n + 8] && b[i + n + 9] == w[n + 9]);
    assert(b.subrange(i + n + 10, i + n + 10 + r.rdlength) =~= r.rdata) by {
        assert forall|j: int| 0 <= j < r.rdata.len() implies b[i + n + 10 + j] == r.rdata[j] by {
            assert(w[n + 10 + j] == r.rdata[j]);
        }
    }
}

/// Decoding `rs.len()` records from the encoding of the records `rs`, all with
/// plain names and as much data as they state, gives exactly those records
/// back, names in lower case, and reads exactly the bytes that they occupy.
pub proof fn lemma_answers_roundtrip(rs: Seq<AnswerView>, b: Seq<u8>, i: int)
    requires
        forall|j: int| 0 <= j < rs.len() ==> plain_name(#[trigger] rs[j].name),
        forall|j: int| 0 <= j < rs.len() ==> (#[trigger] rs[j]).consistent(),
        0 <= i,
        i + answers_wire(rs).len() <= b.len(),
        b.subrange(i, i + answers_wire(rs).len()) == answers_wire(rs),
    ensures
        answers_at(b, i, rs.len()) == Some((normalized_answers(rs), i + answers_wire(rs).len())),
    decreases rs.len(),
{
    if rs.len() == 0 {
        assert(normalized_answers(rs) =~= Seq::empty());
    } else {
        let init = rs.drop_last();
        let last = rs.last();
        let w = answers_wire(rs);
        let w0 = answers_wire(init);
        assert(w == w0 + last.wire());
        assert forall|j: int| 0 <= j < w.len() implies b[i + j] == w[j] by {
            assert(b.subrange(i, i + w.len())[j] == b[i + j]);
        }
        assert(b.subrange(i, i + w0.len()) =~= w0);
        assert(b.subrange(i + w0.len(), i + w0.len() + last.wire().len()) =~= last.wire()) by {
            assert forall|j: int| 0 <= j < last.wire().len() implies b[i + w0.len() + j]
                == last.wire()[j] by {
                assert(w[w0.len() + j] == last.wire()[j]);
            }
        }
        lemma_answers_roundtrip(init, b, i);
        lemma_answer_roundtrip(last, b, i + w0.len());
        assert(normalized_answers(init).push(last.normalized()) =~= normalized_answers(rs));
    }
}

} // verus!
