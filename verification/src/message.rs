//! Whole messages: a header, the question section and the answer section, in
//! that order on the wire.

use crate::answer::{
    answer_views, answers_at, answers_wire, lemma_answers_at_count, lemma_answers_roundtrip,
    normalized_answers, write_answers, AnswerView, DnsAnswer,
};
use crate::error::DecodeError;
use crate::header::{
    lemma_from_wire_valid, lemma_header_roundtrip, lemma_valid_normalized, DnsHeader, HEADER_LEN,
};
use crate::name::{ascii_lower_text, plain_name};
use crate::octets::extend_bytes;
use crate::question::{
    lemma_questions_at_count, lemma_questions_roundtrip, normalized_questions, question_views,
    questions_at, questions_wire, write_questions, DnsQuestion, QuestionView,
};
use vstd::prelude::*;

verus! {

/// Record type of the answers that `build_response` makes: a host address.
pub const ANSWER_TYPE: u16 = 1;

/// Record class of the answers that `build_response` makes: the Internet.
pub const ANSWER_CLASS: u16 = 1;

/// Seconds for which the answers that `build_response` makes may be cached.
pub const ANSWER_TTL: u32 = 60;

/// Length of the data of the answers that `build_response` makes.
pub const ANSWER_DATA_LEN: u16 = 4;

/// Each byte of the data of the answers that `build_response` makes.
pub const ANSWER_DATA_BYTE: u8 = 8;

/// The largest number of entries that a section's 16-bit count can state.
pub const MAX_COUNT: usize = 65535;

/// A DNS message.
#[derive(Clone, Debug, PartialEq, Eq)]
pub struct Dns {
    /// The header. Its counts are not kept in step with the two lists.
    pub header: DnsHeader,
    /// The question section, in wire order.
    pub questions: Vec<DnsQuestion>,
    /// The answer section, in wire order.
    pub answers: Vec<DnsAnswer>,
}

/// What a message holds, as mathematical values.
pub struct DnsView {
    /// The header.
    pub header: DnsHeader,
    /// The question section, in wire order.
    pub questions: Seq<QuestionView>,
    /// The answer section, in wire order.
    pub answers: Seq<AnswerView>,
}

impl View for Dns {
    type V = DnsView;

    open spec fn view(&self) -> DnsView {
        DnsView {
            header: self.header,
            questions: question_views(self.questions@),
            answers: answer_views(self.answers@),
        }
    }
}

/// The answer made up for a question: an address record for the name asked about.
pub open spec fn answer_for(q: QuestionView) -> AnswerView {
    AnswerView {
        name: q.qname,
        rtype: ANSWER_TYPE,
        class: ANSWER_CLASS,
        ttl: ANSWER_TTL,
        rdlength: ANSWER_DATA_LEN,
        rdata: seq![ANSWER_DATA_BYTE, ANSWER_DATA_BYTE, ANSWER_DATA_BYTE, ANSWER_DATA_BYTE],
    }
}

impl DnsView {
    /// The sections hold as many entries as the header counts.
    pub open spec fn counted(self) -> bool {
        &&& self.questions.len() == self.header.qdcount
        &&& self.answers.len() == self.header.ancount
    }

    /// Every name in the message is plain.
    pub open spec fn plain_names(self) -> bool {
        &&& forall|j: int|
            0 <= j < self.questions.len() ==> plain_name(#[trigger] self.questions[j].qname)
        &&& forall|j: int|
            0 <= j < self.answers.len() ==> plain_name(#[trigger] self.answers[j].name)
    }

    /// Every name in the message is in lower case.
    pub open spec fn lower_case(self) -> bool {
        &&& forall|j: int|
            0 <= j < self.questions.len() ==> ascii_lower_text(#[trigger] self.questions[j].qname)
                == self.questions[j].qname
        &&& forall|j: int|
            0 <= j < self.answers.len() ==> ascii_lower_text(#[trigger] self.answers[j].name)
                == self.answers[j].name
    }

    /// Every answer holds as much data as it states.
    pub open spec fn consistent(self) -> bool {
        forall|j: int| 0 <= j < self.answers.len() ==> (#[trigger] self.answers[j]).consistent()
    }

    /// The message as decoding its encoding gives it back: the header's fields
    /// cut to their widths, its reserved field cleared, every name in lower case.
    pub open spec fn normalized(self) -> DnsView {
        DnsView {
            header: self.header.normalized(),
            questions: normalized_questions(self.questions),
            answers: normalized_answers(self.answers),
        }
    }

    /// The message on the wire: the header, each question in order, each answer in order.
    pub open spec fn wire(self) -> Seq<u8> {
        self.header.wire() + questions_wire(self.questions) + answers_wire(self.answers)
    }

    /// The response to this message taken as a request: a response header with
    /// the request's identifier and question count, the request's questions,
    /// and one made-up answer for each of them.
    pub open spec fn response(self) -> DnsView
        recommends
            self.questions.len() <= MAX_COUNT,
    {
        DnsView {
            header: DnsHeader::fresh(
                self.header.id,
                true,
                self.header.qdcount,
                self.questions.len() as u16,
            ),
            questions: self.questions,
            answers: Seq::new(self.questions.len(), |j: int| answer_for(self.questions[j])),
        }
    }
}

/// The message that `b` holds: the header in its first twelve bytes, then as
/// many questions and as many answers as the header counts. `None` where `b`
/// ends before they do.
pub open spec fn message_at(b: Seq<u8>) -> Option<DnsView> {
    if b.len() < HEADER_LEN {
        None
    } else {
        let header = DnsHeader::from_wire(b);
        match questions_at(b, HEADER_LEN as int, header.qdcount as nat) {
            Some((questions, j)) => match answers_at(b, j, header.ancount as nat) {
                Some((answers, _)) => Some(DnsView { header, questions, answers }),
                None => None,
            },
            None => None,
        }
    }
}

impl Dns {
    /// A message with a fresh header of the counts given and no entries yet.
    pub fn new(id: u16, response: bool, qdcount: u16, ancount: u16) -> (dns: Dns)
        ensures
            dns.header == DnsHeader::fresh(id, response, qdcount, ancount),
            dns.questions@.len() == 0,
            dns.answers@.len() == 0,
    {
        Dns {
            header: DnsHeader::new(id, response, qdcount, ancount),
            questions: Vec::with_capacity(qdcount as usize),
            answers: Vec::with_capacity(ancount as usize),
        }
    }

    /// Adds a question behind those the message holds. The header stays as it is.
    pub fn add_question(&mut self, question: DnsQuestion)
        ensures
            final(self).questions@ == old(self).questions@.push(question),
            final(self).header == old(self).header,
            final(self).answers == old(self).answers,
    {
        self.questions.push(question);
    }

    /// Adds an answer behind those the message holds. The header stays as it is.
    pub fn add_answer(&mut self, answer: DnsAnswer)
        ensures
            final(self).answers@ == old(self).answers@.push(answer),
            final(self).header == old(self).header,
            final(self).questions == old(self).questions,
    {
        self.answers.push(answer);
    }

    /// Decodes as many questions as the header counts, from `bytes[start]` on,
    /// and adds them behind those the message holds. Gives the position just
    /// behind the last. On failure the message is left as it was.
    pub fn parse_questions(&mut self, bytes: &[u8], start: usize) -> (r: Result<usize, DecodeError>)
        ensures
            final(self).header == old(self).header,
            final(self).answers == old(self).answers,
            match questions_at(bytes@, start as int, old(self).header.qdcount as nat) {
                Some((qs, end)) => {
                    &&& r matches Ok(next) && next == end
                    &&& final(self)@.questions == old(self)@.questions + qs
                    &&& final(self).questions@.len() == old(self).questions@.len()
                        + old(self).header.qdcount
                },
                None => {
                    &&& r == Err::<usize, DecodeError>(DecodeError::TruncatedMessage)
                    &&& final(self).questions == old(self).questions
                },
            },
    {
        match DnsQuestion::try_parse(bytes, start, self.header.qdcount) {
            Err(e) => Err(e),
            Ok((mut list, next)) => {
                let ghost added = question_views(list@);
                self.questions.append(&mut list);
                assert(question_views(self.questions@) =~= question_views(old(self).questions@)
                    + added);
                Ok(next)
            },
        }
    }

    /// Decodes as many answers as the header counts, from `bytes[start]` on, and
    /// adds them behind those the message holds. Gives the position just behind
    /// the last. On failure the message is left as it was.
    pub fn parse_answers(&mut self, bytes: &[u8], start: usize) -> (r: Result<usize, DecodeError>)
        ensures
            final(self).header == old(self).header,
            final(self).questions == old(self).questions,
            match answers_at(bytes@, start as int, old(self).header.ancount as nat) {
                Some((rs, end)) => {
                    &&& r matches Ok(next) && next == end
                    &&& final(self)@.answers == old(self)@.answers + rs
                    &&& final(self).answers@.len() == old(self).answers@.len()
                        + old(self).header.ancount
                },
                None => {
                    &&& r == Err::<usize, DecodeError>(DecodeError::TruncatedMessage)
                    &&& final(self).answers == old(self).answers
                },
            },
    {
        match DnsAnswer::try_parse(bytes, start, self.header.ancount) {
            Err(e) => Err(e),
            Ok((mut list, next)) => {
                let ghost added = answer_views(list@);
                self.answers.append(&mut list);
                assert(answer_views(self.answers@) =~= answer_views(old(self).answers@) + added);
                Ok(next)
            },
        }
    }

    /// Decodes a message: the header, then as many questions and as many
    /// answers as the header counts.
    pub fn try_parse(bytes: &[u8]) -> (r: Result<Dns, DecodeError>)
        ensures
            match message_at(bytes@) {
                Some(m) => r matches Ok(dns) && dns@ == m && dns.questions@.len()
                    == m.header.qdcount && dns.answers@.len() == m.header.ancount,
                None => r == Err::<Dns, DecodeError>(DecodeError::TruncatedMessage),
            },
    {
        if bytes.len() < HEADER_LEN {
            return Err(DecodeError::TruncatedMessage);
        }
        let mut dns = Dns {
            header: DnsHeader::parse(bytes),
            questions: Vec::new(),
            answers: Vec::new(),
        };
        assert(dns@.questions =~= Seq::empty());
        assert(dns@.answers =~= Seq::empty());
        match dns.parse_questions(bytes, HEADER_LEN) {
            Err(e) => Err(e),
            Ok(i) => {
                assert(questions_at(bytes@, HEADER_LEN as int, dns.header.qdcount as nat)
                    matches Some((qs, _)) && dns@.questions =~= qs);
                match dns.parse_answers(bytes, i) {
                    Err(e) => Err(e),
                    Ok(_) => {
                        assert(answers_at(bytes@, i as int, dns.header.ancount as nat)
                            matches Some((rs, _)) && dns@.answers =~= rs);
                        Ok(dns)
                    },
                }
            },
        }
    }

    /// Decodes a message, where the input is known to hold one.
    pub fn parse(bytes: &[u8]) -> (dns: Dns)
        requires
            message_at(bytes@) is Some,
        ensures
            message_at(bytes@) == Some(dns@),
            dns.questions@.len() == dns.header.qdcount,
            dns.answers@.len() == dns.header.ancount,
    {
        match Dns::try_parse(bytes) {
            Ok(dns) => dns,
            Err(_) => unreached(),
        }
    }

    /// The response to this message taken as a request.
    pub fn build_response(&self) -> (reply: Dns)
        requires
            self.questions@.len() <= MAX_COUNT,
        ensures
            reply@ == self@.response(),
            reply.header == DnsHeader::fresh(
                self.header.id,
                true,
                self.header.qdcount,
                self.questions@.len() as u16,
            ),
            reply.questions@.len() == self.questions@.len(),
            reply.answers@.len() == self.questions@.len(),
            forall|j: int|
                0 <= j < self.questions@.len() ==> (#[trigger] reply.questions@[j])@
                    == self.questions@[j]@,
            forall|j: int|
                0 <= j < self.questions@.len() ==> (#[trigger] reply.answers@[j])@ == answer_for(
                    self.questions@[j]@,
                ),
    {
        let count: usize = self.questions.len();
        let mut questions: Vec<DnsQuestion> = Vec::new();
        let mut answers: Vec<DnsAnswer> = Vec::new();
        let mut n: usize = 0;
        while n < count
            invariant
                n <= count,
                count == self.questions@.len(),
                questions@.len() == n,
                answers@.len() == n,
                forall|j: int| 0 <= j < n ==> questions@[j]@ == self.questions@[j]@,
                forall|j: int| 0 <= j < n ==> answers@[j]@ == answer_for(self.questions@[j]@),
            decreases count - n,
        {
            let question = &self.questions[n];
            let mut rdata: Vec<u8> = Vec::new();
            rdata.push(ANSWER_DATA_BYTE);
            rdata.push(ANSWER_DATA_BYTE);
            rdata.push(ANSWER_DATA_BYTE);
            rdata.push(ANSWER_DATA_BYTE);
            let answer = DnsAnswer::new(
                question.qname.clone(),
                ANSWER_TYPE,
                ANSWER_CLASS,
                ANSWER_TTL,
                ANSWER_DATA_LEN,
                rdata,
            );
            assert(answer@.rdata =~= answer_for(question@).rdata);
            questions.push(question.duplicate());
            answers.push(answer);
            n = n + 1;
        }
        let header = DnsHeader::new(self.header.id, true, self.header.qdcount, count as u16);
        let reply = Dns { header, questions, answers };
        assert(reply@.questions =~= self@.response().questions);
        assert(reply@.answers =~= self@.response().answers);
        reply
    }

    /// Encodes the message: the header, each question in order, each answer in order.
    pub fn to_bytes(&self) -> (bytes: Vec<u8>)
        ensures
            bytes@ == self@.wire(),
    {
        let mut bytes: Vec<u8> = Vec::new();
        let header = self.header.to_bytes();
        extend_bytes(&mut bytes, header.as_slice());
        write_questions(&mut bytes, &self.questions);
        write_answers(&mut bytes, &self.answers);
        bytes
    }

    /// The encoded response to this message taken as a request.
    pub fn response(&self) -> (bytes: Vec<u8>)
        requires
            self.questions@.len() <= MAX_COUNT,
        ensures
            bytes@ == self@.response().wire(),
    {
        self.build_response().to_bytes()
    }
}

/// Decoding the encoding of a message whose sections are as long as its
/// header counts, whose names are plain and whose answers hold as much data as
/// they state gives the message back, normalized. Bytes behind the encoding
/// are not read.
pub proof fn lemma_message_roundtrip(m: DnsView, b: Seq<u8>)
    requires
        m.counted(),
        m.plain_names(),
        m.consistent(),
        m.wire().len() <= b.len(),
        b.subrange(0, m.wire().len() as int) == m.wire(),
    ensures
        message_at(b) == Some(m.normalized()),
{
    let w = m.wire();
    let hw = m.header.wire();
    let qw = questions_wire(m.questions);
    let aw = answers_wire(m.answers);
    let qn = qw.len() as int;
    let an = aw.len() as int;
    assert(hw.len() == 12);
    assert forall|j: int| 0 <= j < w.len() implies b[j] == w[j] by {
        assert(b.subrange(0, w.len() as int)[j] == b[j]);
    }
    assert(b.subrange(0, 12) =~= hw);
    lemma_header_roundtrip(m.header, b);
    assert(b.subrange(12, 12 + qn) =~= qw) by {
        assert forall|j: int| 0 <= j < qn implies b[12 + j] == qw[j] by {
            assert(w[12 + j] == qw[j]);
        }
    }
    lemma_questions_roundtrip(m.questions, b, 12);
    assert(b.subrange(12 + qn, 12 + qn + an) =~= aw) by {
        assert forall|j: int| 0 <= j < an implies b[12 + qn + j] == aw[j] by {
            assert(w[12 + qn + j] == aw[j]);
        }
    }
    lemma_answers_roundtrip(m.answers, b, 12 + qn);
}

/// What decoding yields has sections as long as its header counts, a valid
/// header, and answers that hold as much data as they state.
pub proof fn lemma_decoded_message(b: Seq<u8>)
    ensures
        message_at(b) matches Some(m) ==> m.counted() && m.consistent() && m.header.valid(),
{
    if b.len() >= 12 {
        let header = DnsHeader::from_wire(b);
        lemma_from_wire_valid(b);
        lemma_questions_at_count(b, 12, header.qdcount as nat);
        if let Some((questions, j)) = questions_at(b, 12, header.qdcount as nat) {
            lemma_answers_at_count(b, j, header.ancount as nat);
        }
    }
}

/// Decoding, encoding and decoding again gives what the first decoding gave,
/// for a message whose reserved header field is clear and whose names are
/// plain and in lower case.
pub proof fn lemma_redecoding_is_stable(b: Seq<u8>, m: DnsView)
    requires
        message_at(b) == Some(m),
        m.header.z == 0,
        m.plain_names(),
        m.lower_case(),
    ensures
        message_at(m.wire()) == Some(m),
{
    lemma_decoded_message(b);
    let w = m.wire();
    assert(w.subrange(0, w.len() as int) =~= w);
    lemma_message_roundtrip(m, w);
    lemma_valid_normalized(m.header);
    assert(normalized_questions(m.questions) =~= m.questions);
    assert(normalized_answers(m.answers) =~= m.answers);
}

/// The encoded response to a request with as many questions as its header
/// counts, all with plain names, decodes to that response, names in lower case.
pub proof fn lemma_response_decodes(request: DnsView)
    requires
        request.questions.len() == request.header.qdcount,
        forall|j: int|
            0 <= j < request.questions.len() ==> plain_name(#[trigger] request.questions[j].qname),
    ensures
        message_at(request.response().wire()) == Some(request.response().normalized()),
        request.response().normalized().header == request.response().header,
{
    let reply = request.response();
    assert(reply.counted());
    assert(reply.consistent()) by {
        assert forall|j: int| 0 <= j < reply.answers.len() implies (
        #[trigger] reply.answers[j]).consistent() by {
            assert(reply.answers[j] == answer_for(request.questions[j]));
            assert(answer_for(request.questions[j]).rdata.len() == 4);
        }
    }
    assert(reply.plain_names()) by {
        assert forall|j: int| 0 <= j < reply.answers.len() implies plain_name(
            #[trigger] reply.answers[j].name,
        ) by {
            assert(reply.answers[j] == answer_for(request.questions[j]));
            assert(plain_name(request.questions[j].qname));
        }
    }
    let w = reply.wire();
    assert(w.subrange(0, w.len() as int) =~= w);
    lemma_message_roundtrip(reply, w);
    assert(reply.header.valid());
    lemma_valid_normalized(reply.header);
}

} // verus!
