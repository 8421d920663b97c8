//! Domain names on the wire: a run of labels, each a length byte followed by
//! that many bytes, closed by a zero byte. Compression pointers are not
//! recognised: a length byte with its top two bits set counts as a length.

use crate::error::DecodeError;
use crate::octets::extend_bytes;
use vstd::prelude::*;
use vstd::slice::slice_subrange;
use vstd::string::StringExecFns;
use vstd::utf8::*;

verus! {

/// The byte that separates the labels of a name in its text form.
pub const DOT: u8 = 46;

/// The text that `String::from_utf8_lossy` makes of bytes that are not valid UTF-8.
pub uninterp spec fn lossy_text(bytes: Seq<u8>) -> Seq<char>;

/// The text that `str::to_lowercase` makes of a text with characters outside ASCII.
pub uninterp spec fn unicode_lower(text: Seq<char>) -> Seq<char>;

/// An ASCII capital letter becomes its small letter; any other character stays.
pub open spec fn ascii_lower(c: char) -> char {
    if 'A' <= c <= 'Z' {
        ((c as u8) + 32) as u8 as char
    } else {
        c
    }
}

/// `ascii_lower` applied to each character.
pub open spec fn ascii_lower_text(text: Seq<char>) -> Seq<char> {
    Seq::new(text.len(), |j: int| ascii_lower(text[j]))
}

/// The characters that a run of bytes is read as.
pub open spec fn text_of(bytes: Seq<u8>) -> Seq<char> {
    if valid_utf8(bytes) {
        decode_utf8(bytes)
    } else {
        lossy_text(bytes)
    }
}

/// A text in lower case.
pub open spec fn lower_text(text: Seq<char>) -> Seq<char> {
    if is_ascii_chars(text) {
        ascii_lower_text(text)
    } else {
        unicode_lower(text)
    }
}

/// The text of one label: its bytes read as characters, in lower case.
pub open spec fn label_text(bytes: Seq<u8>) -> Seq<char> {
    lower_text(text_of(bytes))
}

/// A name with one more label at its end, set off by a dot unless the name was empty.
pub open spec fn join_label(acc: Seq<char>, label: Seq<char>) -> Seq<char> {
    if acc.len() == 0 {
        label
    } else {
        acc + seq!['.'] + label
    }
}

/// The name whose labels start at `b[i]`, joined to the labels `acc` read so
/// far, with the position just behind its closing zero byte. `None` where `b`
/// ends before the name does.
pub open spec fn name_at(b: Seq<u8>, i: int, acc: Seq<char>) -> Option<(Seq<char>, int)>
    decreases b.len() - i,
{
    if i < 0 || i >= b.len() {
        None
    } else if b[i] == 0 {
        Some((acc, i + 1))
    } else if i + 1 + b[i] > b.len() {
        None
    } else {
        name_at(b, i + 1 + b[i], join_label(acc, label_text(b.subrange(i + 1, i + 1 + b[i]))))
    }
}

/// The number of bytes of `s` before its first dot, or the length of `s` if it has none.
pub open spec fn first_dot(s: Seq<u8>) -> int
    decreases s.len(),
{
    if s.len() == 0 || s[0] == DOT {
        0
    } else {
        1 + first_dot(s.skip(1))
    }
}

/// The labels of the dotted text `s` on the wire, without the closing zero
/// byte. An empty stretch between dots gives no label. The length byte holds
/// the label's length modulo 256.
pub open spec fn labels_wire(s: Seq<u8>) -> Seq<u8>
    decreases s.len(),
{
    if s.len() == 0 {
        Seq::empty()
    } else {
        let k = first_dot(s);
        let head = if k <= 0 {
            Seq::empty()
        } else {
            seq![(k % 256) as u8] + s.take(k)
        };
        if 0 <= k < s.len() {
            head + labels_wire(s.skip(k + 1))
        } else {
            head
        }
    }
}

/// A name on the wire: its labels, then a zero byte.
pub open spec fn name_wire(name: Seq<char>) -> Seq<u8> {
    labels_wire(encode_utf8(name)) + seq![0u8]
}

/// `String::from_utf8_lossy`: valid UTF-8 is read as the characters it
/// encodes; of other input the result is only named.
#[verifier::external_body]
fn read_text(bytes: &[u8]) -> (text: String)
    ensures
        valid_utf8(bytes@) ==> text@ == decode_utf8(bytes@),
        !valid_utf8(bytes@) ==> text@ == lossy_text(bytes@),
{
    String::from_utf8_lossy(bytes).into_owned()
}

/// `str::to_lowercase`: in an ASCII text each capital letter becomes its small
/// letter and nothing else changes; of other input the result is only named.
#[verifier::external_body]
fn to_lower(text: &str) -> (lower: String)
    ensures
        is_ascii_chars(text@) ==> lower@ == ascii_lower_text(text@),
        !is_ascii_chars(text@) ==> lower@ == unicode_lower(text@),
{
    text.to_lowercase()
}

/// Adds a label to the end of a name, set off by a dot unless the name was empty.
pub fn push_label(name: &mut String, label: &str)
    ensures
        final(name)@ == join_label(old(name)@, label@),
{
    if !name.as_str().is_empty() {
        proof {
            reveal_strlit(".");
        }
        name.append(".");
    }
    name.append(label);
    assert(name@ =~= join_label(old(name)@, label@));
}

/// Decodes the name that starts at `bytes[start]`. Gives the name, its labels
/// in lower case and joined by dots, and the position just behind it.
pub fn decode_name(bytes: &[u8], start: usize) -> (r: Result<(String, usize), DecodeError>)
    ensures
        match name_at(bytes@, start as int, Seq::empty()) {
            Some((text, end)) => r matches Ok((name, next)) && name@ == text && next == end,
            None => r == Err::<(String, usize), DecodeError>(DecodeError::TruncatedMessage),
        },
        r matches Ok((_, next)) ==> start < next <= bytes@.len(),
{
    let mut name = String::new();
    let mut i: usize = start;
    loop
        invariant
            start <= i,
            name_at(bytes@, i as int, name@) == name_at(bytes@, start as int, Seq::empty()),
        decreases bytes@.len() - i,
    {
        if i >= bytes.len() {
            return Err(DecodeError::TruncatedMessage);
        }
        let len: usize = bytes[i] as usize;
        if len == 0 {
            return Ok((name, i + 1));
        }
        if len > bytes.len() - i - 1 {
            return Err(DecodeError::TruncatedMessage);
        }
        let text = read_text(slice_subrange(bytes, i + 1, i + 1 + len));
        let lower = to_lower(text.as_str());
        push_label(&mut name, lower.as_str());
        i = i + 1 + len;
    }
}

/// Encodes a name given in text form, labels separated by dots.
pub fn encode_name(name: &str) -> (out: Vec<u8>)
    ensures
        out@ == name_wire(name@),
{
    let s = name.as_bytes();
    let mut out: Vec<u8> = Vec::new();
    let mut start: usize = 0;
    assert(s@.skip(0) =~= s@);
    assert(out@ + labels_wire(s@) =~= labels_wire(s@));
    while start < s.len()
        invariant
            start <= s@.len(),
            out@ + labels_wire(s@.skip(start as int)) == labels_wire(s@),
        decreases s@.len() - start,
    {
        let mut end: usize = start;
        while end < s.len() && s[end] != DOT
            invariant
                start <= end <= s@.len(),
                forall|j: int| start <= j < end ==> s@[j] != DOT,
            decreases s@.len() - end,
        {
            end = end + 1;
        }
        let ghost before = out@;
        let ghost tail = s@.skip(start as int);
        proof {
            lemma_first_dot_is(tail, end - start);
            assert(tail.take(end - start) =~= s@.subrange(start as int, end as int));
            if end < s@.len() {
                assert(tail.skip(end - start + 1) =~= s@.skip(end + 1));
            } else {
                assert(s@.skip(end as int) =~= Seq::<u8>::empty());
            }
        }
        if end > start {
            out.push(((end - start) % 256) as u8);
            extend_bytes(&mut out, slice_subrange(s, start, end));
            assert(out@ =~= before + (seq![((end - start) % 256) as u8] + tail.take(end - start)));
        }
        if end < s.len() {
            start = end + 1;
        } else {
            start = end;
        }
        assert(out@ + labels_wire(s@.skip(start as int)) =~= before + labels_wire(tail));
    }
    assert(s@.skip(start as int) =~= Seq::<u8>::empty());
    out.push(0);
    assert(out@ =~= name_wire(name@));
    out
}

/// `first_dot(s)` is the one position `k` with no dot before it that is a dot
/// or the end of `s`.
pub proof fn lemma_first_dot_is(s: Seq<u8>, k: int)
    requires
        0 <= k <= s.len(),
        forall|j: int| 0 <= j < k ==> s[j] != DOT,
        k == s.len() || s[k] == DOT,
    ensures
        first_dot(s) == k,
    decreases s.len(),
{
    if k > 0 {
        lemma_first_dot_is(s.skip(1), k - 1);
    }
}

/// What `first_dot` finds: a position within `s`, with no dot before it, that
/// holds a dot unless it is the end of `s`.
pub proof fn lemma_first_dot(s: Seq<u8>)
    ensures
        0 <= first_dot(s) <= s.len(),
        forall|j: int| 0 <= j < first_dot(s) ==> s[j] != DOT,
        first_dot(s) < s.len() ==> s[first_dot(s)] == DOT,
    decreases s.len(),
{
    if s.len() == 0 || s[0] == DOT {
    } else {
        let t = s.skip(1);
        lemma_first_dot(t);
        assert forall|j: int| 0 <= j < first_dot(s) implies s[j] != DOT by {
            if j > 0 {
                assert(s[j] == t[j - 1]);
            }
        }
        assert(first_dot(t) < t.len() ==> t[first_dot(t)] == s[first_dot(s)]);
    }
}

/// The longest label whose length its length byte can hold.
pub const MAX_LABEL: usize = 255;

/// The characters that a run of ASCII bytes stands for, in lower case.
pub open spec fn lower_of_bytes(s: Seq<u8>) -> Seq<char> {
    Seq::new(s.len(), |j: int| ascii_lower(s[j] as char))
}

/// `s` is one or more labels separated by single dots, each of 1 to 255 ASCII bytes.
pub open spec fn dotted_labels(s: Seq<u8>) -> bool
    decreases s.len(),
{
    let k = first_dot(s);
    if 1 <= k <= MAX_LABEL && k <= s.len() && (forall|j: int| 0 <= j < k ==> s[j] < 128) {
        k == s.len() || dotted_labels(s.skip(k + 1))
    } else {
        false
    }
}

/// A name that survives encoding and decoding but for the case of its letters:
/// the empty name, or labels of 1 to 255 ASCII characters separated by single dots.
pub open spec fn plain_name(name: Seq<char>) -> bool {
    encode_utf8(name).len() == 0 || dotted_labels(encode_utf8(name))
}

/// A label of ASCII bytes is read as those bytes, capital letters made small.
pub proof fn lemma_ascii_label(l: Seq<u8>)
    requires
        forall|j: int| 0 <= j < l.len() ==> l[j] < 128,
    ensures
        valid_utf8(l),
        decode_utf8(l) == Seq::new(l.len(), |j: int| l[j] as char),
        label_text(l) == lower_of_bytes(l),
{
    let c = Seq::new(l.len(), |j: int| l[j] as char);
    assert(is_ascii_chars(c));
    is_ascii_chars_encode_utf8(c);
    assert(encode_utf8(c) =~= l);
    encode_utf8_valid_utf8(c);
    encode_utf8_decode_utf8(c);
    assert(ascii_lower_text(c) =~= lower_of_bytes(l));
}

/// Every byte of a run of plain labels is ASCII.
pub proof fn lemma_dotted_labels_ascii(s: Seq<u8>)
    requires
        dotted_labels(s),
    ensures
        s.len() > 0,
        forall|j: int| 0 <= j < s.len() ==> s[j] < 128,
    decreases s.len(),
{
    let k = first_dot(s);
    lemma_first_dot(s);
    if k < s.len() {
        let rest = s.skip(k + 1);
        lemma_dotted_labels_ascii(rest);
        assert forall|j: int| 0 <= j < s.len() implies s[j] < 128 by {
            if j > k {
                assert(s[j] == rest[j - k - 1]);
            }
        }
    }
}

/// Decoding the encoding of plain labels, wherever it lies in `b`, adds the
/// labels in lower case to what was read before and stops just behind the
/// closing zero byte.
pub proof fn lemma_labels_roundtrip(s: Seq<u8>, b: Seq<u8>, i: int, acc: Seq<char>)
    requires
        dotted_labels(s),
        0 <= i,
        i + labels_wire(s).len() + 1 <= b.len(),
        b.subrange(i, i + labels_wire(s).len() + 1) == labels_wire(s) + seq![0u8],
    ensures
        name_at(b, i, acc) == Some(
            (join_label(acc, lower_of_bytes(s)), i + labels_wire(s).len() + 1),
        ),
    decreases s.len(),
{
    let k = first_dot(s);
    lemma_first_dot(s);
    let w = labels_wire(s) + seq![0u8];
    let l = s.take(k);
    assert forall|j: int| 0 <= j < w.len() implies b[i + j] == w[j] by {
        assert(b.subrange(i, i + labels_wire(s).len() + 1)[j] == b[i + j]);
    }
    assert(w[0] == k);
    assert(b[i] == k);
    assert(b.subrange(i + 1, i + 1 + k) =~= l) by {
        assert forall|j: int| 0 <= j < k implies b[i + 1 + j] == l[j] by {
            assert(w[1 + j] == l[j]);
        }
    }
    lemma_ascii_label(l);
    let acc2 = join_label(acc, lower_of_bytes(l));
    assert(name_at(b, i, acc) == name_at(b, i + 1 + k, acc2));
    if k == s.len() {
        assert(s =~= l);
        assert(w[k + 1] == 0);
        assert(b[i + 1 + k] == 0);
    } else {
        let rest = s.skip(k + 1);
        let wr = labels_wire(rest) + seq![0u8];
        assert(labels_wire(s) == seq![(k % 256) as u8] + l + labels_wire(rest));
        assert(b.subrange(i + 1 + k, i + 1 + k + labels_wire(rest).len() + 1) =~= wr) by {
            assert forall|j: int| 0 <= j < wr.len() implies b[i + 1 + k + j] == wr[j] by {
                assert(w[1 + k + j] == wr[j]);
            }
        }
        lemma_labels_roundtrip(rest, b, i + 1 + k, acc2);
        lemma_dotted_labels_ascii(rest);
        assert(lower_of_bytes(s) =~= lower_of_bytes(l) + seq!['.'] + lower_of_bytes(rest)) by {
            assert(s[k] == DOT);
            assert forall|j: int| k < j < s.len() implies s[j] == rest[j - k - 1] by { }
        }
        assert(join_label(acc2, lower_of_bytes(rest)) =~= join_label(acc, lower_of_bytes(s)));
    }
}

/// Decoding an encoded plain name gives the name back in lower case and reads
/// exactly the bytes of its encoding.
pub proof fn lemma_name_roundtrip(name: Seq<char>, b: Seq<u8>, i: int)
    requires
        plain_name(name),
        0 <= i,
        i + name_wire(name).len() <= b.len(),
        b.subrange(i, i + name_wire(name).len()) == name_wire(name),
    ensures
        name_at(b, i, Seq::empty()) == Some((ascii_lower_text(name), i + name_wire(name).len())),
        is_ascii_chars(name),
{
    let s = encode_utf8(name);
    encode_utf8_decode_utf8(name);
    if s.len() == 0 {
        assert(valid_utf8(s));
        assert(decode_utf8(s) =~= Seq::<char>::empty());
        assert(name_wire(name) =~= seq![0u8]);
        assert(b.subrange(i, i + 1)[0] == b[i]);
        assert(ascii_lower_text(name) =~= Seq::<char>::empty());
    } else {
        lemma_dotted_labels_ascii(s);
        lemma_ascii_label(s);
        lemma_labels_roundtrip(s, b, i, Seq::empty());
        assert(lower_of_bytes(s) =~= ascii_lower_text(name));
    }
}

/// A name, where `b` holds one from `b[i]` on, ends within `b` and behind `i`.
pub proof fn lemma_name_at_bounds(b: Seq<u8>, i: int, acc: Seq<char>)
    ensures
        name_at(b, i, acc) matches Some((_, end)) ==> 0 <= i < end <= b.len(),
    decreases b.len() - i,
{
    if 0 <= i < b.len() && b[i] != 0 && i + 1 + b[i] <= b.len() {
        lemma_name_at_bounds(
            b,
            i + 1 + b[i],
            join_label(acc, label_text(b.subrange(i + 1, i + 1 + b[i]))),
        );
    }
}

} // verus!
