//! The question section: entries of a name, a type and a class.

use crate::error::DecodeError;
use crate::octets::{
    be16, be16_bytes, extend_bytes, lemma_be16_roundtrip, read_u16, write_u16,
};
use crate::name::{
    ascii_lower_text, decode_name, encode_name, lemma_name_at_bounds, lemma_name_roundtrip,
    name_at, name_wire, plain_name,
};
use vstd::prelude::*;

verus! {

/// One entry of the question section.
#[derive(Clone, Debug, PartialEq, Eq)]
pub struct DnsQuestion {
    /// The name asked about, its labels joined by dots.
    pub qname: String,
    /// The type of record asked for.
    pub qtype: u16,
    /// The class of record asked for.
    pub qclass: u16,
}

/// What a question holds, as mathematical values.
pub struct QuestionView {
    /// The name asked about.
    pub qname: Seq<char>,
    /// The type of record asked for.
    pub qtype: u16,
    /// The class of record asked for.
    pub qclass: u16,
}

impl View for DnsQuestion {
    type V = QuestionView;

    open spec fn view(&self) -> QuestionView {
        QuestionView { qname: self.qname@, qtype: self.qtype, qclass: self.qclass }
    }
}

impl QuestionView {
    /// The entry on the wire: the name, then type and class, both big-endian.
    pub open spec fn wire(self) -> Seq<u8> {
        name_wire(self.qname) + be16_bytes(self.qtype) + be16_bytes(self.qclass)
    }

    /// The entry as decoding its encoding gives it back: the name in lower case.
    pub open spec fn normalized(self) -> QuestionView {
        QuestionView { qname: ascii_lower_text(self.qname), ..self }
    }
}

/// The views of a list of questions, in order.
pub open spec fn question_views(list: Seq<DnsQuestion>) -> Seq<QuestionView> {
    Seq::new(list.len(), |j: int| list[j]@)
}

/// The entry that starts at `b[i]` and the position just behind it; `None`
/// where `b` ends before the entry does.
pub open spec fn question_at(b: Seq<u8>, i: int) -> Option<(QuestionView, int)> {
    match name_at(b, i, Seq::empty()) {
        Some((qname, j)) => if j + 4 <= b.len() {
            Some(
                (
                    QuestionView {
                        qname,
                        qtype: be16(b[j], b[j + 1]),
                        qclass: be16(b[j + 2], b[j + 3]),
                    },
                    j + 4,
                ),
            )
        } else {
            None
        },
        None => None,
    }
}

/// The `count` entries that follow one another from `b[i]` on, and the position
/// just behind the last; `None` where `b` ends before they do.
pub open spec fn questions_at(b: Seq<u8>, i: int, count: nat) -> Option<(Seq<QuestionView>, int)>
    decreases count,
{
    if count == 0 {
        Some((Seq::empty(), i))
    } else {
        match questions_at(b, i, (count - 1) as nat) {
            Some((qs, j)) => match question_at(b, j) {
                Some((q, k)) => Some((qs.push(q), k)),
                None => None,
            },
            None => None,
        }
    }
}

/// A run of entries on the wire: each entry's bytes, in order.
pub open spec fn questions_wire(qs: Seq<QuestionView>) -> Seq<u8>
    decreases qs.len(),
{
    if qs.len() == 0 {
        Seq::empty()
    } else {
        questions_wire(qs.drop_last()) + qs.last().wire()
    }
}

impl DnsQuestion {
    /// Decodes the one entry that starts at `bytes[start]`.
    pub fn parse_one(bytes: &[u8], start: usize) -> (r: Result<(DnsQuestion, usize), DecodeError>)
        ensures
            match question_at(bytes@, start as int) {
                Some((q, end)) => r matches Ok((question, next)) && question@ == q && next == end,
                None => r == Err::<(DnsQuestion, usize), DecodeError>(
                    DecodeError::TruncatedMessage,
                ),
            },
    {
        match decode_name(bytes, start) {
            Err(e) => Err(e),
            Ok((qname, i)) => {
                if bytes.len() - i < 4 {
                    return Err(DecodeError::TruncatedMessage);
                }
                let qtype = read_u16(bytes[i], bytes[i + 1]);
                let qclass = read_u16(bytes[i + 2], bytes[i + 3]);
                Ok((DnsQuestion { qname, qtype, qclass }, i + 4))
            },
        }
    }

    /// Decodes `qdcount` entries that follow one another from `bytes[start]` on.
    /// Gives them in order, with the position just behind the last.
    pub fn try_parse(bytes: &[u8], start: usize, qdcount: u16) -> (r: Result<
        (Vec<DnsQuestion>, usize),
        DecodeError,
    >)
        ensures
            match questions_at(bytes@, start as int, qdcount as nat) {
                Some((qs, end)) => r matches Ok((list, next)) && question_views(list@) == qs
                    && list@.len() == qdcount && next == end,
                None => r == Err::<(Vec<DnsQuestion>, usize), DecodeError>(
                    DecodeError::TruncatedMessage,
                ),
            },
    {
        let mut list: Vec<DnsQuestion> = Vec::new();
        let mut i: usize = start;
        let mut n: u16 = 0;
        assert(question_views(list@) =~= Seq::empty());
        while n < qdcount
            invariant
                n <= qdcount,
                list@.len() == n,
                questions_at(bytes@, start as int, n as nat) == Some(
                    (question_views(list@), i as int),
                ),
            decreases qdcount - n,
        {
            let ghost before = question_views(list@);
            match DnsQuestion::parse_one(bytes, i) {
                Err(e) => {
                    proof {
                        lemma_questions_at_stays_none(
                            bytes@,
                            start as int,
                            (n + 1) as nat,
                            qdcount as nat,
                        );
                    }
                    return Err(e);
                },
                Ok((question, next)) => {
                    list.push(question);
                    assert(question_views(list@) =~= before.push(question@));
                    i = next;
                    n = n + 1;
                },
            }
        }
        Ok((list, i))
    }

    /// Decodes `qdcount` entries that follow one another from `bytes[start]` on,
    /// where the input is known to hold them.
    pub fn parse(bytes: &[u8], start: usize, qdcount: u16) -> (r: (Vec<DnsQuestion>, usize))
        requires
            questions_at(bytes@, start as int, qdcount as nat) is Some,
        ensures
            questions_at(bytes@, start as int, qdcount as nat) == Some(
                (question_views(r.0@), r.1 as int),
            ),
            r.0@.len() == qdcount,
    {
        match DnsQuestion::try_parse(bytes, start, qdcount) {
            Ok(r) => r,
            Err(_) => unreached(),
        }
    }

    /// Encodes the entry: the name, then type and class, both big-endian.
    pub fn to_bytes(&self) -> (bytes: Vec<u8>)
        ensures
            bytes@ == self@.wire(),
    {
        let mut bytes = encode_name(self.qname.as_str());
        write_u16(&mut bytes, self.qtype);
        write_u16(&mut bytes, self.qclass);
        bytes
    }

    /// A copy of the entry.
    pub fn duplicate(&self) -> (copy: DnsQuestion)
        ensures
            copy@ == self@,
    {
        DnsQuestion { qname: self.qname.clone(), qtype: self.qtype, qclass: self.qclass }
    }
}

/// Appends the encoding of each entry of `list`, in order, to `out`.
pub fn write_questions(out: &mut Vec<u8>, list: &Vec<DnsQuestion>)
    ensures
        final(out)@ == old(out)@ + questions_wire(question_views(list@)),
{
    let ghost views = question_views(list@);
    let mut n: usize = 0;
    assert(views.take(0) =~= Seq::empty());
    assert(out@ =~= old(out)@ + questions_wire(views.take(0)));
    while n < list.len()
        invariant
            n <= list@.len(),
            views == question_views(list@),
            out@ == old(out)@ + questions_wire(views.take(n as int)),
        decreases list@.len() - n,
    {
        let bytes = list[n].to_bytes();
        extend_bytes(out, bytes.as_slice());
        proof {
            let next = views.take(n + 1);
            assert(next.drop_last() =~= views.take(n as int));
            assert(next.last() == list@[n as int]@);
            assert(out@ =~= old(out)@ + questions_wire(next));
        }
        n = n + 1;
    }
    assert(views.take(n as int) =~= views);
}

/// Once a run of entries does not fit, no longer run from the same place does.
pub proof fn lemma_questions_at_stays_none(b: Seq<u8>, i: int, n: nat, m: nat)
    requires
        questions_at(b, i, n) is None,
        n <= m,
    ensures
        questions_at(b, i, m) is None,
    decreases m,
{
    if n < m {
        lemma_questions_at_stays_none(b, i, n, (m - 1) as nat);
    }
}

/// Each entry of `qs` with its name in lower case.
pub open spec fn normalized_questions(qs: Seq<QuestionView>) -> Seq<QuestionView> {
    Seq::new(qs.len(), |j: int| qs[j].normalized())
}

/// A run of `count` entries, where it fits, holds exactly `count` entries and
/// ends within `b`, at or behind the place it started.
pub proof fn lemma_questions_at_count(b: Seq<u8>, i: int, count: nat)
    requires
        0 <= i <= b.len(),
    ensures
        questions_at(b, i, count) matches Some((qs, end)) ==> qs.len() == count && i <= end
            <= b.len(),
    decreases count,
{
    if count > 0 {
        lemma_questions_at_count(b, i, (count - 1) as nat);
        if let Some((qs, j)) = questions_at(b, i, (count - 1) as nat) {
            lemma_name_at_bounds(b, j, Seq::empty());
        }
    }
}

/// Decoding an encoded entry with a plain name, wherever it lies in `b`, gives
/// the entry back with its name in lower case and reads exactly its bytes: an
/// entry whose name is in lower case comes back as it was.
pub proof fn lemma_question_roundtrip(q: QuestionView, b: Seq<u8>, i: int)
    requires
        plain_name(q.qname),
        0 <= i,
        i + q.wire().len() <= b.len(),
        b.subrange(i, i + q.wire().len()) == q.wire(),
    ensures
        question_at(b, i) == Some((q.normalized(), i + q.wire().len())),
        ascii_lower_text(q.qname) == q.qname ==> question_at(b, i) == Some(
            (q, i + q.wire().len()),
        ),
{
    let w = q.wire();
    let n = name_wire(q.qname).len() as int;
    assert(w.len() == n + 4);
    assert forall|j: int| 0 <= j < w.len() implies b[i + j] == w[j] by {
        assert(b.subrange(i, i + w.len())[j] == b[i + j]);
    }
    assert(b.subrange(i, i + n) =~= name_wire(q.qname));
    lemma_name_roundtrip(q.qname, b, i);
    assert(b[i + n] == w[n] && b[i + n + 1] == w[n + 1] && b[i + n + 2] == w[n + 2] && b[i + n
        + 3] == w[n + 3]);
    lemma_be16_roundtrip(q.qtype);
    lemma_be16_roundtrip(q.qclass);
}

/// Decoding `qs.len()` entries from the encoding of the entries `qs`, all with
/// plain names, gives exactly those entries back, names in lower case, and
/// reads exactly the bytes that they occupy.
pub proof fn lemma_questions_roundtrip(qs: Seq<QuestionView>, b: Seq<u8>, i: int)
    requires
        forall|j: int| 0 <= j < qs.len() ==> plain_name(#[trigger] qs[j].qname),
        0 <= i,
        i + questions_wire(qs).len() <= b.len(),
        b.subrange(i, i + questions_wire(qs).len()) == questions_wire(qs),
    ensures
        questions_at(b, i, qs.len()) == Some(
            (normalized_questions(qs), i + questions_wire(qs).len()),
        ),
    decreases qs.len(),
{
    if qs.len() == 0 {
        assert(normalized_questions(qs) =~= Seq::empty());
    } else {
        let init = qs.drop_last();
        let last = qs.last();
        let w = questions_wire(qs);
        let w0 = questions_wire(init);
        assert(w == w0 + last.wire());
        assert forall|j: int| 0 <= j < w.len() implies b[i + j] == w[j] by {
            assert(b.subrange(i, i + w.len())[j] == b[i + j]);
        }
        assert(b.subrange(i, i + w0.len()) =~= w0);
        assert(b.subrange(i + w0.len(), i + w0.len() + last.wire().len()) =~= last.wire()) by {
            assert forall|j: int| 0 <= j < last.wire().len() implies b[i + w0.len() + j]
                == last.wire()[j] by {
                assert(w[w0.len() + j] == last.wire()[j]);
            }
        }
        lemma_questions_roundtrip(init, b, i);
        lemma_question_roundtrip(last, b, i + w0.len());
        assert(normalized_questions(init).push(last.normalized()) =~= normalized_questions(qs));
    }
}

} // verus!
