//! DNS names as label sequences: the cover domain's labels, the payload labels in
//! front of them, and the wire form (length-prefixed labels, a zero at the end).

use vstd::prelude::*;
use crate::base32::{encoded, enc_len, encode};
use crate::mtu::mtu_for;
use vstd::string::StringSliceAdditionalSpecFns;

verus! {

#[derive(Debug, Clone, Copy, PartialEq, Eq, Structural)]
pub enum CodecErrorKind {
    ShortBuffer,
    BadLabel,
    QnameTooLong,
    BadPointer,
    DomainMismatch,
    CountMismatch,
    TrailingGarbage,
    UnsupportedClassType,
    WrongDirection,
    PayloadTooLong,
}

/// A codec failure and the byte offset it concerns.
#[derive(Debug, Clone, Copy, PartialEq, Eq, Structural)]
pub struct CodecError {
    pub kind: CodecErrorKind,
    pub offset: usize,
}

pub open spec fn err(kind: CodecErrorKind, offset: int) -> CodecError {
    CodecError { kind, offset: offset as usize }
}

/// Longest payload label; five of them hold any payload that fits a name.
pub const PAYLOAD_LABEL_LEN: usize = 57;

/// The labels of a name, each preceded by its length (no terminating zero).
pub open spec fn labels_wire(ls: Seq<Seq<u8>>) -> Seq<u8>
    decreases ls.len(),
{
    if ls.len() == 0 {
        Seq::empty()
    } else {
        seq![ls[0].len() as u8] + ls[0] + labels_wire(ls.drop_first())
    }
}

/// Wire form of a name.
pub open spec fn name_wire(ls: Seq<Seq<u8>>) -> Seq<u8> {
    labels_wire(ls).push(0u8)
}

pub open spec fn valid_label(l: Seq<u8>) -> bool {
    1 <= l.len() <= 63
}

/// Every label is 1..=63 octets and the wire form is at most 255 octets.
pub open spec fn valid_name(ls: Seq<Seq<u8>>) -> bool {
    &&& forall|i: int| 0 <= i < ls.len() ==> valid_label(#[trigger] ls[i])
    &&& name_wire(ls).len() <= 255
}

pub proof fn lemma_labels_wire_concat(a: Seq<Seq<u8>>, b: Seq<Seq<u8>>)
    ensures
        labels_wire(a + b) == labels_wire(a) + labels_wire(b),
    decreases a.len(),
{
    if a.len() == 0 {
        assert(a + b =~= b);
        assert(labels_wire(a) + labels_wire(b) =~= labels_wire(b));
    } else {
        assert((a + b).drop_first() =~= a.drop_first() + b);
        lemma_labels_wire_concat(a.drop_first(), b);
        assert(labels_wire(a + b) =~= labels_wire(a) + labels_wire(b));
    }
}

pub proof fn lemma_labels_wire_single(l: Seq<u8>)
    ensures
        labels_wire(seq![l]) == seq![l.len() as u8] + l,
{
    let one = seq![l];
    assert(one.drop_first() =~= Seq::<Seq<u8>>::empty());
    assert(labels_wire(one.drop_first()) == Seq::<u8>::empty());
    assert(one[0] == l);
    assert(labels_wire(one) == seq![one[0].len() as u8] + one[0] + labels_wire(one.drop_first()));
    assert(labels_wire(one) =~= seq![l.len() as u8] + l);
}

pub proof fn lemma_labels_wire_push(ls: Seq<Seq<u8>>, l: Seq<u8>)
    ensures
        labels_wire(ls.push(l)) == labels_wire(ls) + seq![l.len() as u8] + l,
{
    lemma_labels_wire_concat(ls, seq![l]);
    assert(ls.push(l) =~= ls + seq![l]);
    lemma_labels_wire_single(l);
    assert(labels_wire(ls) + (seq![l.len() as u8] + l) =~= labels_wire(ls) + seq![l.len() as u8] + l);
}

// ---------------------------------------------------------------------------
// Cover domain
// ---------------------------------------------------------------------------

/// Index of the first `c` in `s` at or after `i`, or `s.len()`.
pub open spec fn find_byte(s: Seq<u8>, c: u8, i: int) -> int
    decreases s.len() - i,
{
    if i < 0 || i >= s.len() {
        s.len() as int
    } else if s[i] == c {
        i
    } else {
        find_byte(s, c, i + 1)
    }
}

proof fn lemma_find_byte(s: Seq<u8>, c: u8, i: int)
    requires
        0 <= i <= s.len(),
    ensures
        i <= find_byte(s, c, i) <= s.len(),
    decreases s.len() - i,
{
    if i < s.len() && s[i] != c {
        lemma_find_byte(s, c, i + 1);
    }
}

/// The dot-separated labels of `d` from offset `start` on.
pub open spec fn split_from(d: Seq<u8>, start: int) -> Seq<Seq<u8>>
    decreases d.len() - start,
{
    let i = find_byte(d, 46u8, start);
    if start < 0 || start > d.len() || i >= d.len() || i < start {
        seq![d.subrange(start, d.len() as int)]
    } else {
        seq![d.subrange(start, i)] + split_from(d, i + 1)
    }
}

/// The labels of a cover domain written as `d`.
pub open spec fn domain_labels(d: Seq<u8>) -> Seq<Seq<u8>> {
    split_from(d, 0)
}

/// `d` can serve as a cover domain: shorter than 240 octets, every label 1..=63.
pub open spec fn domain_ok(d: Seq<u8>) -> bool {
    &&& d.len() < 240
    &&& forall|i: int| 0 <= i < domain_labels(d).len() ==> valid_label(#[trigger] domain_labels(d)[i])
}

proof fn lemma_split_wire_len(d: Seq<u8>, start: int)
    requires
        0 <= start <= d.len(),
    ensures
        labels_wire(split_from(d, start)).len() == d.len() - start + 1,
        split_from(d, start).len() >= 1,
    decreases d.len() - start,
{
    let i = find_byte(d, 46u8, start);
    lemma_find_byte(d, 46u8, start);
    let l = d.subrange(start, if i >= d.len() { d.len() as int } else { i });
    lemma_labels_wire_single(l);
    if i < d.len() {
        lemma_split_wire_len(d, i + 1);
        lemma_labels_wire_concat(seq![l], split_from(d, i + 1));
    }
}

fn find_dot(d: &[u8], start: usize) -> (r: usize)
    requires
        start <= d@.len(),
    ensures
        r as int == find_byte(d@, 46u8, start as int),
        start <= r <= d@.len(),
{
    let mut i = start;
    while i < d.len() && d[i] != 46u8
        invariant
            start <= i <= d@.len(),
            find_byte(d@, 46u8, start as int) == find_byte(d@, 46u8, i as int),
        decreases d@.len() - i,
    {
        i += 1;
    }
    i
}

pub(crate) fn copy_range(d: &[u8], a: usize, b: usize) -> (r: Vec<u8>)
    requires
        a <= b <= d@.len(),
    ensures
        r@ == d@.subrange(a as int, b as int),
{
    let mut r: Vec<u8> = Vec::with_capacity(b - a);
    let mut i = a;
    while i < b
        invariant
            a <= i <= b <= d@.len(),
            r@ =~= d@.subrange(a as int, i as int),
        decreases b - i,
    {
        r.push(d[i]);
        i += 1;
    }
    r
}

pub open spec fn labels_view(v: Seq<Vec<u8>>) -> Seq<Seq<u8>> {
    v.map_values(|l: Vec<u8>| l@)
}

pub proof fn lemma_labels_view_push(v: Seq<Vec<u8>>, l: Vec<u8>)
    ensures
        labels_view(v.push(l)) == labels_view(v).push(l@),
{
    assert(labels_view(v.push(l)) =~= labels_view(v).push(l@));
}

/// The labels of the cover domain `d`, appended to `out`.
pub(crate) fn push_domain_labels(d: &[u8], out: &mut Vec<Vec<u8>>)
    ensures
        labels_view(final(out)@) == labels_view(old(out)@) + domain_labels(d@),
{
    let ghost base = labels_view(out@);
    let mut start: usize = 0;
    assert(domain_labels(d@) =~= Seq::<Seq<u8>>::empty() + split_from(d@, 0));
    loop
        invariant
            start <= d@.len(),
            base == labels_view(old(out)@),
            base + domain_labels(d@) == labels_view(out@) + split_from(d@, start as int),
        decreases d@.len() - start,
    {
        let i = find_dot(d, start);
        let l = copy_range(d, start, i);
        proof {
            lemma_labels_view_push(out@, l);
        }
        let ghost before = labels_view(out@);
        out.push(l);
        if i >= d.len() {
            assert(before + split_from(d@, start as int) =~= labels_view(out@));
            return;
        }
        assert(before + split_from(d@, start as int) =~= labels_view(out@) + split_from(d@, i + 1));
        start = i + 1;
    }
}


// ---------------------------------------------------------------------------
// Payload labels
// ---------------------------------------------------------------------------

/// `e` from offset `s` on, cut into labels of 57 symbols (the last may be shorter).
pub open spec fn chunks_from(e: Seq<u8>, s: int) -> Seq<Seq<u8>>
    decreases e.len() - s,
{
    if s < 0 || s >= e.len() {
        Seq::empty()
    } else {
        let end = if s + 57 < e.len() {
            s + 57
        } else {
            e.len() as int
        };
        seq![e.subrange(s, end)] + chunks_from(e, end)
    }
}

/// The labels concatenated.
pub open spec fn concat_labels(ls: Seq<Seq<u8>>) -> Seq<u8>
    decreases ls.len(),
{
    if ls.len() == 0 {
        Seq::empty()
    } else {
        ls[0] + concat_labels(ls.drop_first())
    }
}

/// The name that carries `p` under the cover domain `d`.
pub open spec fn qname_of(p: Seq<u8>, d: Seq<u8>) -> Seq<Seq<u8>> {
    chunks_from(encoded(p), 0) + domain_labels(d)
}

/// Result of packing payload `p` under the cover domain `d`.
pub open spec fn build_outcome(p: Seq<u8>, d: Seq<u8>) -> Result<Seq<Seq<u8>>, CodecError> {
    if d.len() >= 240 {
        Err(err(CodecErrorKind::QnameTooLong, 0))
    } else if !domain_ok(d) {
        Err(err(CodecErrorKind::BadLabel, 0))
    } else if p.len() > mtu_for(d.len()) {
        Err(err(CodecErrorKind::QnameTooLong, 0))
    } else {
        Ok(qname_of(p, d))
    }
}

pub proof fn lemma_chunks(e: Seq<u8>, s: int)
    requires
        0 <= s <= e.len(),
    ensures
        labels_wire(chunks_from(e, s)).len() == (e.len() - s) + (e.len() - s + 56) / 57,
        forall|i: int| 0 <= i < chunks_from(e, s).len() ==> valid_label(#[trigger] chunks_from(e, s)[i]),
        concat_labels(chunks_from(e, s)) == e.subrange(s, e.len() as int),
    decreases e.len() - s,
{
    if s < e.len() {
        let end = if s + 57 < e.len() {
            s + 57
        } else {
            e.len() as int
        };
        let l = e.subrange(s, end);
        lemma_chunks(e, end);
        lemma_labels_wire_single(l);
        lemma_labels_wire_concat(seq![l], chunks_from(e, end));
        let c = chunks_from(e, s);
        assert(c.drop_first() =~= chunks_from(e, end));
        assert(c[0] == l);
        assert(e.subrange(s, e.len() as int) =~= l + e.subrange(end, e.len() as int));
    } else {
        assert(e.subrange(s, e.len() as int) =~= Seq::<u8>::empty());
    }
}

proof fn lemma_payload_fits(n: nat, dl: nat)
    requires
        dl < 240,
        n <= mtu_for(dl),
    ensures
        enc_len(n) <= 240 - dl,
{
    assert(8 * n <= 5 * (240 - dl)) by (nonlinear_arith)
        requires
            n <= (240 - dl) * 5 / 8,
            dl < 240,
    ;
}

/// Every label that `build_qname` produces is 1..=63 octets, and the whole
/// name is at most 255 octets on the wire.
pub proof fn lemma_qname_legal(p: Seq<u8>, d: Seq<u8>)
    ensures
        build_outcome(p, d) matches Ok(ls) ==> valid_name(ls),
{
    if build_outcome(p, d) is Ok {
        let e = encoded(p);
        let c = chunks_from(e, 0);
        let dl = domain_labels(d);
        lemma_chunks(e, 0);
        lemma_split_wire_len(d, 0);
        lemma_labels_wire_concat(c, dl);
        lemma_payload_fits(p.len(), d.len());
        let ls = c + dl;
        assert forall|i: int| 0 <= i < ls.len() implies valid_label(#[trigger] ls[i]) by {
            if i >= c.len() {
                assert(ls[i] == dl[i - c.len()]);
            }
        }
    }
}

/// The largest payload that `build_qname` packs under the cover domain
/// `domain`; an error when the domain is 240 octets or longer or has a label
/// that is empty or longer than 63 octets.
pub fn max_payload_len_for_domain(domain: &str) -> (r: Result<usize, CodecError>)
    ensures
        domain.spec_bytes().len() >= 240 ==> r == Err::<usize, CodecError>(
            err(CodecErrorKind::QnameTooLong, 0),
        ),
        domain.spec_bytes().len() < 240 && !domain_ok(domain.spec_bytes()) ==> r == Err::<
            usize,
            CodecError,
        >(err(CodecErrorKind::BadLabel, 0)),
        domain_ok(domain.spec_bytes()) ==> r == Ok::<usize, CodecError>(
            mtu_for(domain.spec_bytes().len()) as usize,
        ),
{
    let d = domain.as_bytes();
    let n = d.len();
    if n >= 240 {
        return Err(CodecError { kind: CodecErrorKind::QnameTooLong, offset: 0 });
    }
    let mut dl: Vec<Vec<u8>> = Vec::new();
    push_domain_labels(d, &mut dl);
    assert(labels_view(dl@) =~= domain_labels(d@));
    if !labels_valid(&dl) {
        return Err(CodecError { kind: CodecErrorKind::BadLabel, offset: 0 });
    }
    Ok((240 - n) * 5 / 8)
}

/// `max_payload_len_for_domain` is the largest payload that `build_qname`
/// packs: every payload up to it succeeds, every longer one fails.
pub proof fn lemma_max_payload_is_largest(p: Seq<u8>, d: Seq<u8>)
    requires
        domain_ok(d),
    ensures
        build_outcome(p, d) is Ok <==> p.len() <= mtu_for(d.len()),
{
}

/// Payload capacity never grows as the cover domain gets longer.
pub proof fn lemma_max_payload_monotone(a: nat, b: nat)
    requires
        a <= b,
    ensures
        mtu_for(b) <= mtu_for(a),
{
    if b < 240 {
        assert((240 - b) * 5 / 8 <= (240 - a) * 5 / 8) by (nonlinear_arith)
            requires
                a <= b < 240,
        ;
    }
}

pub(crate) fn labels_valid(ls: &Vec<Vec<u8>>) -> (r: bool)
    ensures
        r == forall|i: int| 0 <= i < ls@.len() ==> valid_label(#[trigger] labels_view(ls@)[i]),
{
    let mut i: usize = 0;
    while i < ls.len()
        invariant
            i <= ls@.len(),
            forall|k: int| 0 <= k < i ==> valid_label(#[trigger] labels_view(ls@)[k]),
        decreases ls@.len() - i,
    {
        let n = ls[i].len();
        if n == 0 || n > 63 {
            assert(!valid_label(labels_view(ls@)[i as int]));
            return false;
        }
        i += 1;
    }
    true
}

/// `e` cut into labels of `PAYLOAD_LABEL_LEN` symbols, the last one shorter.
pub(crate) fn payload_labels(e: &Vec<u8>) -> (r: Vec<Vec<u8>>)
    ensures
        labels_view(r@) == chunks_from(e@, 0),
{
    let mut out: Vec<Vec<u8>> = Vec::new();
    let mut s: usize = 0;
    assert(chunks_from(e@, 0) =~= labels_view(out@) + chunks_from(e@, 0));
    while s < e.len()
        invariant
            s <= e@.len(),
            chunks_from(e@, 0) == labels_view(out@) + chunks_from(e@, s as int),
        decreases e@.len() - s,
    {
        let end = if e.len() - s > PAYLOAD_LABEL_LEN {
            s + PAYLOAD_LABEL_LEN
        } else {
            e.len()
        };
        let l = copy_range(e.as_slice(), s, end);
        proof {
            lemma_labels_view_push(out@, l);
        }
        let ghost before = labels_view(out@);
        out.push(l);
        assert(before + chunks_from(e@, s as int) =~= labels_view(out@) + chunks_from(e@, end as int));
        s = end;
    }
    assert(chunks_from(e@, s as int) =~= Seq::<Seq<u8>>::empty());
    assert(labels_view(out@) =~= chunks_from(e@, 0));
    out
}

/// Packs `payload` into labels in front of the labels of the cover domain.
pub fn build_qname(payload: &[u8], domain: &str) -> (r: Result<Vec<Vec<u8>>, CodecError>)
    ensures
        match build_outcome(payload@, domain.spec_bytes()) {
            Ok(ls) => r matches Ok(v) && labels_view(v@) == ls,
            Err(e) => r == Err::<Vec<Vec<u8>>, CodecError>(e),
        },
{
    let d = domain.as_bytes();
    if d.len() >= 240 {
        return Err(CodecError { kind: CodecErrorKind::QnameTooLong, offset: 0 });
    }
    let mut dl: Vec<Vec<u8>> = Vec::new();
    push_domain_labels(d, &mut dl);
    assert(labels_view(dl@) =~= domain_labels(d@));
    if !labels_valid(&dl) {
        return Err(CodecError { kind: CodecErrorKind::BadLabel, offset: 0 });
    }
    if payload.len() > (240 - d.len()) * 5 / 8 {
        return Err(CodecError { kind: CodecErrorKind::QnameTooLong, offset: 0 });
    }
    let e = encode(payload);
    let mut out = payload_labels(&e);
    push_domain_labels(d, &mut out);
    Ok(out)
}

} // verus!
