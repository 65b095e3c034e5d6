//! DNS messages: the header, queries that carry payload in their name, and
//! responses that carry payload in one TXT answer.

use vstd::prelude::*;
use crate::base32::{decode, decoded, encode, encoded, lemma_round_trip};
use crate::mtu::mtu_for;
use crate::name::{
    domain_ok, qname_of, build_outcome, chunks_from, concat_labels, domain_labels, lemma_chunks, lemma_qname_legal,
    labels_valid, payload_labels, push_domain_labels, valid_name, copy_range, err, labels_view, labels_wire, lemma_labels_view_push, lemma_labels_wire_concat,
    lemma_labels_wire_push, name_wire, valid_label, CodecError, CodecErrorKind,
};
use vstd::string::StringSliceAdditionalSpecFns;

verus! {

pub const RR_TXT: u16 = 16;

pub const CLASS_IN: u16 = 1;

/// Offset of the question name in every message.
pub const HEADER_LEN: usize = 12;

pub open spec fn be16(v: u16) -> Seq<u8> {
    seq![(v / 256) as u8, (v % 256) as u8]
}

/// The big-endian 16-bit value at `i`.
pub open spec fn read16(b: Seq<u8>, i: int) -> u16 {
    (b[i] as int * 256 + b[i + 1] as int) as u16
}

/// The flags word: QR, RD, CD and the response code; every other bit zero.
pub open spec fn flags_of(qr: bool, rd: bool, cd: bool, rcode: u8) -> u16 {
    ((if qr {
        0x8000int
    } else {
        0
    }) + (if rd {
        0x100int
    } else {
        0
    }) + (if cd {
        0x10int
    } else {
        0
    }) + (rcode % 16) as int) as u16
}

pub open spec fn flag_qr(f: u16) -> bool {
    f >= 0x8000
}

pub open spec fn flag_rd(f: u16) -> bool {
    (f / 256) % 2 == 1
}

pub open spec fn flag_cd(f: u16) -> bool {
    (f / 16) % 2 == 1
}

pub open spec fn flag_rcode(f: u16) -> u8 {
    (f % 16) as u8
}

pub open spec fn header_wire(id: u16, flags: u16, qd: u16, an: u16, ns: u16, ar: u16) -> Seq<u8> {
    be16(id) + be16(flags) + be16(qd) + be16(an) + be16(ns) + be16(ar)
}

proof fn lemma_flags(qr: bool, rd: bool, cd: bool, rcode: u8)
    ensures
        flag_qr(flags_of(qr, rd, cd, rcode)) == qr,
        flag_rd(flags_of(qr, rd, cd, rcode)) == rd,
        flag_cd(flags_of(qr, rd, cd, rcode)) == cd,
        flag_rcode(flags_of(qr, rd, cd, rcode)) == rcode % 16,
{
}

proof fn lemma_read16(b: Seq<u8>, i: int, v: u16)
    requires
        0 <= i,
        i + 2 <= b.len(),
        b.subrange(i, i + 2) == be16(v),
    ensures
        read16(b, i) == v,
{
    assert(b[i] == b.subrange(i, i + 2)[0]);
    assert(b[i + 1] == b.subrange(i, i + 2)[1]);
}

fn push16(out: &mut Vec<u8>, v: u16)
    ensures
        final(out)@ == old(out)@ + be16(v),
{
    out.push((v / 256) as u8);
    out.push((v % 256) as u8);
    assert(final(out)@ =~= old(out)@ + be16(v));
}

fn get16(b: &[u8], i: usize) -> (r: u16)
    requires
        i + 2 <= b@.len(),
    ensures
        r == read16(b@, i as int),
{
    (b[i] as u16) * 256 + b[i + 1] as u16
}

fn flags_exec(qr: bool, rd: bool, cd: bool, rcode: u8) -> (r: u16)
    ensures
        r == flags_of(qr, rd, cd, rcode),
{
    let mut f: u16 = (rcode % 16) as u16;
    if qr {
        f = f + 0x8000;
    }
    if rd {
        f = f + 0x100;
    }
    if cd {
        f = f + 0x10;
    }
    f
}

// ---------------------------------------------------------------------------
// Names on the wire
// ---------------------------------------------------------------------------

/// Parses length-prefixed labels at `pos` up to a zero octet; compression
/// pointers are refused. Gives the labels and the offset after the zero.
pub open spec fn parse_labels(b: Seq<u8>, pos: int) -> Result<(Seq<Seq<u8>>, int), CodecError>
    decreases b.len() - pos,
{
    if pos < 0 || pos >= b.len() {
        Err(err(CodecErrorKind::ShortBuffer, pos))
    } else if b[pos] == 0 {
        Ok((Seq::empty(), pos + 1))
    } else if b[pos] >= 0xc0 {
        Err(err(CodecErrorKind::BadPointer, pos))
    } else if b[pos] > 63 {
        Err(err(CodecErrorKind::BadLabel, pos))
    } else if pos + 1 + b[pos] > b.len() {
        Err(err(CodecErrorKind::ShortBuffer, pos))
    } else {
        let next = pos + 1 + b[pos];
        match parse_labels(b, next) {
            Ok((rest, end)) => Ok((seq![b.subrange(pos + 1, next)] + rest, end)),
            Err(e) => Err(e),
        }
    }
}

pub open spec fn prepend(
    acc: Seq<Seq<u8>>,
    r: Result<(Seq<Seq<u8>>, int), CodecError>,
) -> Result<(Seq<Seq<u8>>, int), CodecError> {
    match r {
        Ok((rest, end)) => Ok((acc + rest, end)),
        Err(e) => Err(e),
    }
}

proof fn lemma_parse_wire(b: Seq<u8>, pos: int, ls: Seq<Seq<u8>>)
    requires
        0 <= pos,
        pos + labels_wire(ls).len() < b.len(),
        b.subrange(pos, pos + labels_wire(ls).len()) == labels_wire(ls),
        b[pos + labels_wire(ls).len()] == 0,
        forall|i: int| 0 <= i < ls.len() ==> valid_label(#[trigger] ls[i]),
    ensures
        parse_labels(b, pos) == Ok::<(Seq<Seq<u8>>, int), CodecError>(
            (ls, pos + labels_wire(ls).len() + 1),
        ),
    decreases ls.len(),
{
    let w = labels_wire(ls);
    if ls.len() == 0 {
        assert(w.len() == 0);
        assert(ls =~= Seq::<Seq<u8>>::empty());
    } else {
        let l = ls[0];
        let rest = ls.drop_first();
        let next = pos + 1 + l.len();
        assert(valid_label(ls[0]));
        assert(w == seq![l.len() as u8] + l + labels_wire(rest));
        assert(b[pos] == b.subrange(pos, pos + w.len())[0]);
        assert(b[pos] as int == l.len());
        assert forall|k: int| 0 <= k < l.len() implies b[pos + 1 + k] == l[k] by {
            assert(b[pos + 1 + k] == b.subrange(pos, pos + w.len())[1 + k]);
        }
        assert(b.subrange(pos + 1, next) =~= l);
        assert forall|i: int| 0 <= i < rest.len() implies valid_label(#[trigger] rest[i]) by {
            assert(rest[i] == ls[i + 1]);
        }
        let wr = labels_wire(rest);
        assert forall|k: int| 0 <= k < wr.len() implies b[next + k] == wr[k] by {
            assert(b[next + k] == b.subrange(pos, pos + w.len())[1 + l.len() + k]);
        }
        assert(b.subrange(next, next + wr.len()) =~= wr);
        assert(b[next + wr.len()] == 0);
        lemma_parse_wire(b, next, rest);
        assert(seq![l] + rest =~= ls);
        assert(b.subrange(pos + 1, pos + 1 + b[pos]) == l);
        assert(parse_labels(b, next) == Ok::<(Seq<Seq<u8>>, int), CodecError>((rest, next + wr.len() + 1)));
        assert(b[pos] != 0 && b[pos] < 0xc0 && b[pos] <= 63);
        assert(pos + 1 + b[pos] <= b.len());
    }
}

/// Parses the question name at `HEADER_LEN`.
fn parse_question_name(b: &[u8]) -> (r: Result<(Vec<Vec<u8>>, usize), CodecError>)
    ensures
        match parse_labels(b@, HEADER_LEN as int) {
            Ok((ls, end)) => r matches Ok((v, e)) && labels_view(v@) == ls && e == end,
            Err(x) => r == Err::<(Vec<Vec<u8>>, usize), CodecError>(x),
        },
{
    let mut out: Vec<Vec<u8>> = Vec::new();
    let mut pos: usize = HEADER_LEN;
    assert(parse_labels(b@, 12) == prepend(labels_view(out@), parse_labels(b@, 12)))
        by {
        assert(labels_view(out@) =~= Seq::<Seq<u8>>::empty());
        match parse_labels(b@, 12) {
            Ok((rest, end)) => {
                assert(Seq::<Seq<u8>>::empty() + rest =~= rest);
            },
            Err(_) => {},
        }
    }
    loop
        invariant
            HEADER_LEN <= pos,
            parse_labels(b@, 12) == prepend(labels_view(out@), parse_labels(b@, pos as int)),
        decreases b@.len() - pos,
    {
        if pos >= b.len() {
            return Err(CodecError { kind: CodecErrorKind::ShortBuffer, offset: pos });
        }
        let l = b[pos];
        if l == 0 {
            proof {
                assert(labels_view(out@) + Seq::<Seq<u8>>::empty() =~= labels_view(out@));
            }
            return Ok((out, pos + 1));
        }
        if l >= 0xc0 {
            return Err(CodecError { kind: CodecErrorKind::BadPointer, offset: pos });
        }
        if l > 63 {
            return Err(CodecError { kind: CodecErrorKind::BadLabel, offset: pos });
        }
        if b.len() - pos - 1 < l as usize {
            return Err(CodecError { kind: CodecErrorKind::ShortBuffer, offset: pos });
        }
        let next = pos + 1 + l as usize;
        let label = copy_range(b, pos + 1, next);
        let ghost before = labels_view(out@);
        proof {
            lemma_labels_view_push(out@, label);
            match parse_labels(b@, next as int) {
                Ok((rest, end)) => {
                    assert(before + (seq![label@] + rest) =~= before.push(label@) + rest);
                },
                Err(_) => {},
            }
        }
        out.push(label);
        pos = next;
    }
}

fn write_name(out: &mut Vec<u8>, ls: &Vec<Vec<u8>>)
    ensures
        final(out)@ == old(out)@ + name_wire(labels_view(ls@)),
{
    let mut i: usize = 0;
    while i < ls.len()
        invariant
            i <= ls@.len(),
            out@ == old(out)@ + labels_wire(labels_view(ls@).subrange(0, i as int)),
        decreases ls@.len() - i,
    {
        let l = &ls[i];
        proof {
            let v = labels_view(ls@);
            assert(v.subrange(0, i + 1) =~= v.subrange(0, i as int).push(l@));
            lemma_labels_wire_push(v.subrange(0, i as int), l@);
        }
        let ghost mid = out@;
        out.push(l.len() as u8);
        let mut k: usize = 0;
        while k < l.len()
            invariant
                k <= l@.len(),
                out@ == mid.push(l.len() as u8) + l@.subrange(0, k as int),
            decreases l@.len() - k,
        {
            out.push(l[k]);
            assert(out@ =~= mid.push(l.len() as u8) + l@.subrange(0, k + 1));
            k += 1;
        }
        assert(out@ =~= old(out)@ + labels_wire(labels_view(ls@).subrange(0, i + 1)));
        i += 1;
    }
    assert(labels_view(ls@).subrange(0, i as int) =~= labels_view(ls@));
    out.push(0u8);
    assert(out@ =~= old(out)@ + name_wire(labels_view(ls@)));
}

fn name_wire_len(ls: &Vec<Vec<u8>>) -> (r: usize)
    requires
        forall|i: int| 0 <= i < ls@.len() ==> valid_label(#[trigger] labels_view(ls@)[i]),
    ensures
        r as int == name_wire(labels_view(ls@)).len() || (r == 256 && name_wire(labels_view(ls@)).len() > 255),
{
    let mut total: usize = 1;
    let mut i: usize = 0;
    while i < ls.len()
        invariant
            i <= ls@.len(),
            forall|k: int| 0 <= k < ls@.len() ==> valid_label(#[trigger] labels_view(ls@)[k]),
            total <= 255,
            total as int == labels_wire(labels_view(ls@).subrange(0, i as int)).len() + 1,
        decreases ls@.len() - i,
    {
        proof {
            let v = labels_view(ls@);
            assert(v.subrange(0, i + 1) =~= v.subrange(0, i as int).push(v[i as int]));
            lemma_labels_wire_push(v.subrange(0, i as int), v[i as int]);
            assert(valid_label(v[i as int]));
        }
        let n = ls[i].len();
        if total + 1 + n > 255 {
            proof {
                lemma_wire_prefix_len(labels_view(ls@), i as int + 1);
            }
            return 256;
        }
        total = total + 1 + n;
        i += 1;
    }
    assert(labels_view(ls@).subrange(0, i as int) =~= labels_view(ls@));
    total
}

proof fn lemma_wire_prefix_len(ls: Seq<Seq<u8>>, k: int)
    requires
        0 <= k <= ls.len(),
    ensures
        labels_wire(ls.subrange(0, k)).len() <= labels_wire(ls).len(),
{
    lemma_labels_wire_concat(ls.subrange(0, k), ls.subrange(k, ls.len() as int));
    assert(ls.subrange(0, k) + ls.subrange(k, ls.len() as int) =~= ls);
}


// ---------------------------------------------------------------------------
// Queries
// ---------------------------------------------------------------------------

/// What goes into a query message.
#[derive(Debug, Clone)]
pub struct QueryParams {
    pub id: u16,
    pub qname: Vec<Vec<u8>>,
    pub qtype: u16,
    pub qclass: u16,
    pub rd: bool,
    pub cd: bool,
    pub qdcount: u16,
    pub is_query: bool,
}

/// A question: a name, its type and its class.
#[derive(Debug, Clone)]
pub struct Question {
    pub name: Vec<Vec<u8>>,
    pub qtype: u16,
    pub qclass: u16,
}

pub open spec fn question_view(q: Question) -> (Seq<Seq<u8>>, u16, u16) {
    (labels_view(q.name@), q.qtype, q.qclass)
}

impl Question {
    /// A copy of this question.
    pub fn clone_question(&self) -> (r: Question)
        ensures
            question_view(r) == question_view(*self),
    {
        let mut name: Vec<Vec<u8>> = Vec::with_capacity(self.name.len());
        let mut i: usize = 0;
        while i < self.name.len()
            invariant
                i <= self.name@.len(),
                labels_view(name@) == labels_view(self.name@).subrange(0, i as int),
            decreases self.name@.len() - i,
        {
            let l = copy_range(self.name[i].as_slice(), 0, self.name[i].len());
            proof {
                lemma_labels_view_push(name@, l);
                assert(self.name[i as int]@.subrange(0, self.name[i as int]@.len() as int) =~= self.name[i as int]@);
                assert(labels_view(self.name@).subrange(0, i + 1) =~= labels_view(self.name@).subrange(0, i as int).push(l@));
            }
            name.push(l);
            i += 1;
        }
        assert(labels_view(self.name@).subrange(0, i as int) =~= labels_view(self.name@));
        Question { name, qtype: self.qtype, qclass: self.qclass }
    }
}

/// The bytes of a query: header, one question, no other sections.
pub open spec fn query_wire(
    id: u16,
    is_query: bool,
    rd: bool,
    cd: bool,
    qdcount: u16,
    name: Seq<Seq<u8>>,
    qtype: u16,
    qclass: u16,
) -> Seq<u8> {
    header_wire(id, flags_of(!is_query, rd, cd, 0), qdcount, 0, 0, 0) + name_wire(name) + be16(
        qtype,
    ) + be16(qclass)
}

pub open spec fn name_check(name: Seq<Seq<u8>>) -> Option<CodecError> {
    if !(forall|i: int| 0 <= i < name.len() ==> valid_label(#[trigger] name[i])) {
        Some(err(CodecErrorKind::BadLabel, HEADER_LEN as int))
    } else if name_wire(name).len() > 255 {
        Some(err(CodecErrorKind::QnameTooLong, HEADER_LEN as int))
    } else {
        None
    }
}

/// Writes `p` as a query; the name must be legal.
pub fn encode_query(p: &QueryParams) -> (r: Result<Vec<u8>, CodecError>)
    ensures
        match name_check(labels_view(p.qname@)) {
            Some(e) => r == Err::<Vec<u8>, CodecError>(e),
            None => r matches Ok(v) && v@ == query_wire(
                p.id,
                p.is_query,
                p.rd,
                p.cd,
                p.qdcount,
                labels_view(p.qname@),
                p.qtype,
                p.qclass,
            ),
        },
{
    if !labels_valid(&p.qname) {
        return Err(CodecError { kind: CodecErrorKind::BadLabel, offset: HEADER_LEN });
    }
    if name_wire_len(&p.qname) > 255 {
        return Err(CodecError { kind: CodecErrorKind::QnameTooLong, offset: HEADER_LEN });
    }
    let mut out: Vec<u8> = Vec::new();
    push16(&mut out, p.id);
    push16(&mut out, flags_exec(!p.is_query, p.rd, p.cd, 0));
    push16(&mut out, p.qdcount);
    push16(&mut out, 0);
    push16(&mut out, 0);
    push16(&mut out, 0);
    write_name(&mut out, &p.qname);
    push16(&mut out, p.qtype);
    push16(&mut out, p.qclass);
    assert(out@ =~= query_wire(
        p.id,
        p.is_query,
        p.rd,
        p.cd,
        p.qdcount,
        labels_view(p.qname@),
        p.qtype,
        p.qclass,
    ));
    Ok(out)
}

pub open spec fn lower(c: u8) -> u8 {
    if 65 <= c <= 90 {
        (c + 32) as u8
    } else {
        c
    }
}

/// The two labels are equal but for the case of ASCII letters.
pub open spec fn label_eq_ci(a: Seq<u8>, b: Seq<u8>) -> bool {
    a.len() == b.len() && forall|j: int| 0 <= j < a.len() ==> lower(#[trigger] a[j]) == lower(b[j])
}

/// `name` ends with the labels `dl`, ignoring the case of ASCII letters.
pub open spec fn ends_with_domain(name: Seq<Seq<u8>>, dl: Seq<Seq<u8>>) -> bool {
    name.len() >= dl.len() && forall|i: int|
        0 <= i < dl.len() ==> label_eq_ci(#[trigger] name[name.len() - dl.len() + i], dl[i])
}

/// The two label sequences are equal but for the case of ASCII letters.
pub open spec fn labels_eq_ci(a: Seq<Seq<u8>>, b: Seq<Seq<u8>>) -> bool {
    a.len() == b.len() && forall|i: int| 0 <= i < a.len() ==> label_eq_ci(#[trigger] a[i], b[i])
}

/// A decoded query: id, RD, CD, question name, type, class and payload.
pub type QueryView = (u16, bool, bool, Seq<Seq<u8>>, u16, u16, Seq<u8>);

/// What a query received for the cover domain `d` holds.
pub open spec fn decode_query_outcome(b: Seq<u8>, d: Seq<u8>) -> Result<QueryView, CodecError> {
    if b.len() < 12 {
        Err(err(CodecErrorKind::ShortBuffer, b.len() as int))
    } else if flag_qr(read16(b, 2)) {
        Err(err(CodecErrorKind::WrongDirection, 2))
    } else if read16(b, 4) != 1 {
        Err(err(CodecErrorKind::CountMismatch, 4))
    } else {
        match parse_labels(b, 12) {
            Err(e) => Err(e),
            Ok((name, end)) => if end - 12 > 255 {
                Err(err(CodecErrorKind::QnameTooLong, 12))
            } else if end + 4 > b.len() {
                Err(err(CodecErrorKind::ShortBuffer, end))
            } else if end + 4 < b.len() {
                Err(err(CodecErrorKind::TrailingGarbage, end + 4))
            } else if read16(b, end) != RR_TXT || read16(b, end + 2) != CLASS_IN {
                Err(err(CodecErrorKind::UnsupportedClassType, end))
            } else if !ends_with_domain(name, domain_labels(d)) {
                Err(err(CodecErrorKind::DomainMismatch, 12))
            } else {
                match decoded(
                    concat_labels(name.subrange(0, name.len() - domain_labels(d).len())),
                ) {
                    None => Err(err(CodecErrorKind::BadLabel, 12)),
                    Some(p) => if !labels_eq_ci(
                        name.subrange(0, name.len() - domain_labels(d).len()),
                        chunks_from(encoded(p), 0),
                    ) {
                        Err(err(CodecErrorKind::BadLabel, 12))
                    } else {
                        Ok(
                        (
                            read16(b, 0),
                            flag_rd(read16(b, 2)),
                            flag_cd(read16(b, 2)),
                            name,
                            read16(b, end),
                            read16(b, end + 2),
                            p,
                        ),
                    )
                    },
                }
            },
        }
    }
}

/// A query as the server receives it.
#[derive(Debug, Clone)]
pub struct DecodedQuery {
    pub id: u16,
    pub rd: bool,
    pub cd: bool,
    pub question: Question,
    pub payload: Vec<u8>,
}

pub open spec fn decoded_query_view(q: DecodedQuery) -> QueryView {
    (
        q.id,
        q.rd,
        q.cd,
        labels_view(q.question.name@),
        q.question.qtype,
        q.question.qclass,
        q.payload@,
    )
}

fn lower_exec(c: u8) -> (r: u8)
    ensures
        r == lower(c),
{
    if 65 <= c && c <= 90 {
        c + 32
    } else {
        c
    }
}

fn label_eq_ci_exec(a: &Vec<u8>, b: &Vec<u8>) -> (r: bool)
    ensures
        r == label_eq_ci(a@, b@),
{
    if a.len() != b.len() {
        return false;
    }
    let mut j: usize = 0;
    while j < a.len()
        invariant
            a@.len() == b@.len(),
            j <= a@.len(),
            forall|k: int| 0 <= k < j ==> lower(#[trigger] a@[k]) == lower(b@[k]),
        decreases a@.len() - j,
    {
        if lower_exec(a[j]) != lower_exec(b[j]) {
            return false;
        }
        j += 1;
    }
    true
}

fn ends_with_domain_exec(name: &Vec<Vec<u8>>, dl: &Vec<Vec<u8>>) -> (r: bool)
    ensures
        r == ends_with_domain(labels_view(name@), labels_view(dl@)),
{
    if name.len() < dl.len() {
        return false;
    }
    let nl = name.len();
    let off = nl - dl.len();
    let mut i: usize = 0;
    while i < dl.len()
        invariant
            off + dl@.len() == name@.len(),
            nl == name@.len(),
            name@.len() >= dl@.len(),
            i <= dl@.len(),
            forall|k: int|
                0 <= k < i ==> label_eq_ci(
                    #[trigger] labels_view(name@)[name@.len() - dl@.len() + k],
                    labels_view(dl@)[k],
                ),
        decreases dl@.len() - i,
    {
        if !label_eq_ci_exec(&name[off + i], &dl[i]) {
            assert(labels_view(name@)[name@.len() - dl@.len() + i] == name@[off + i]@);
            assert(!label_eq_ci(
                labels_view(name@)[name@.len() - dl@.len() + i],
                labels_view(dl@)[i as int],
            ));
            return false;
        }
        i += 1;
    }
    true
}

proof fn lemma_concat_push(ls: Seq<Seq<u8>>, l: Seq<u8>)
    ensures
        concat_labels(ls.push(l)) == concat_labels(ls) + l,
    decreases ls.len(),
{
    if ls.len() == 0 {
        assert(ls.push(l).drop_first() =~= Seq::<Seq<u8>>::empty());
        assert(ls.push(l)[0] == l);
        assert(concat_labels(ls.push(l).drop_first()) == Seq::<u8>::empty());
        assert(concat_labels(ls.push(l)) =~= l + Seq::<u8>::empty());
        assert(concat_labels(ls) + l =~= l);
    } else {
        assert(ls.push(l).drop_first() =~= ls.drop_first().push(l));
        lemma_concat_push(ls.drop_first(), l);
        assert(concat_labels(ls.push(l)) =~= concat_labels(ls) + l);
    }
}

/// The first `n` labels, concatenated.
fn concat_prefix(ls: &Vec<Vec<u8>>, n: usize) -> (r: Vec<u8>)
    requires
        n <= ls@.len(),
    ensures
        r@ == concat_labels(labels_view(ls@).subrange(0, n as int)),
{
    let mut r: Vec<u8> = Vec::new();
    let mut i: usize = 0;
    assert(labels_view(ls@).subrange(0, 0) =~= Seq::<Seq<u8>>::empty());
    while i < n
        invariant
            n <= ls@.len(),
            i <= n,
            r@ == concat_labels(labels_view(ls@).subrange(0, i as int)),
        decreases n - i,
    {
        let l = &ls[i];
        proof {
            let v = labels_view(ls@);
            assert(v.subrange(0, i + 1) =~= v.subrange(0, i as int).push(l@));
            lemma_concat_push(v.subrange(0, i as int), l@);
        }
        let mut k: usize = 0;
        let ghost mid = r@;
        while k < l.len()
            invariant
                k <= l@.len(),
                r@ == mid + l@.subrange(0, k as int),
            decreases l@.len() - k,
        {
            r.push(l[k]);
            assert(r@ =~= mid + l@.subrange(0, k + 1));
            k += 1;
        }
        assert(l@.subrange(0, k as int) =~= l@);
        i += 1;
    }
    r
}

proof fn lemma_parse_len(b: Seq<u8>, pos: int)
    ensures
        parse_labels(b, pos) matches Ok((ls, end)) ==> end == pos + labels_wire(ls).len() + 1
            && end <= b.len(),
    decreases b.len() - pos,
{
    if 0 <= pos < b.len() && b[pos] != 0 && b[pos] < 0xc0 && b[pos] <= 63 && pos + 1 + b[pos]
        <= b.len() {
        let next = pos + 1 + b[pos];
        lemma_parse_len(b, next);
        if let Ok((rest, end)) = parse_labels(b, next) {
            let l = b.subrange(pos + 1, next);
            lemma_labels_wire_concat(seq![l], rest);
            crate::name::lemma_labels_wire_single(l);
        }
    } else if 0 <= pos < b.len() && b[pos] == 0 {
        assert(labels_wire(Seq::<Seq<u8>>::empty()).len() == 0);
    }
}

proof fn lemma_concat_len(ls: Seq<Seq<u8>>)
    ensures
        concat_labels(ls).len() <= labels_wire(ls).len(),
    decreases ls.len(),
{
    if ls.len() > 0 {
        lemma_concat_len(ls.drop_first());
    }
}

/// The first `n` labels of `name` equal `want`, but for ASCII case.
fn prefix_eq_ci(name: &Vec<Vec<u8>>, n: usize, want: &Vec<Vec<u8>>) -> (r: bool)
    requires
        n <= name@.len(),
    ensures
        r == labels_eq_ci(labels_view(name@).subrange(0, n as int), labels_view(want@)),
{
    if want.len() != n {
        return false;
    }
    let ghost a = labels_view(name@).subrange(0, n as int);
    let ghost b = labels_view(want@);
    let mut i: usize = 0;
    while i < n
        invariant
            n <= name@.len(),
            want@.len() == n,
            a == labels_view(name@).subrange(0, n as int),
            b == labels_view(want@),
            i <= n,
            forall|k: int| 0 <= k < i ==> label_eq_ci(#[trigger] a[k], b[k]),
        decreases n - i,
    {
        if !label_eq_ci_exec(&name[i], &want[i]) {
            assert(!label_eq_ci(a[i as int], b[i as int]));
            return false;
        }
        i += 1;
    }
    true
}

/// Reads a query sent under the cover domain `domain` and recovers its payload.
pub fn decode_query(b: &[u8], domain: &str) -> (r: Result<DecodedQuery, CodecError>)
    ensures
        match decode_query_outcome(b@, domain.spec_bytes()) {
            Ok(v) => r matches Ok(q) && decoded_query_view(q) == v,
            Err(e) => r == Err::<DecodedQuery, CodecError>(e),
        },
{
    if b.len() < HEADER_LEN {
        return Err(CodecError { kind: CodecErrorKind::ShortBuffer, offset: b.len() });
    }
    let flags = get16(b, 2);
    if flags >= 0x8000 {
        return Err(CodecError { kind: CodecErrorKind::WrongDirection, offset: 2 });
    }
    if get16(b, 4) != 1 {
        return Err(CodecError { kind: CodecErrorKind::CountMismatch, offset: 4 });
    }
    let (name, end) = match parse_question_name(b) {
        Ok(x) => x,
        Err(e) => return Err(e),
    };
    proof {
        lemma_parse_len(b@, 12);
    }
    if end - HEADER_LEN > 255 {
        return Err(CodecError { kind: CodecErrorKind::QnameTooLong, offset: HEADER_LEN });
    }
    if b.len() - end < 4 {
        return Err(CodecError { kind: CodecErrorKind::ShortBuffer, offset: end });
    }
    if b.len() - end > 4 {
        return Err(CodecError { kind: CodecErrorKind::TrailingGarbage, offset: end + 4 });
    }
    let qtype = get16(b, end);
    let qclass = get16(b, end + 2);
    if qtype != RR_TXT || qclass != CLASS_IN {
        return Err(CodecError { kind: CodecErrorKind::UnsupportedClassType, offset: end });
    }
    let mut dl: Vec<Vec<u8>> = Vec::new();
    push_domain_labels(domain.as_bytes(), &mut dl);
    assert(labels_view(dl@) =~= domain_labels(domain.spec_bytes()));
    if !ends_with_domain_exec(&name, &dl) {
        return Err(CodecError { kind: CodecErrorKind::DomainMismatch, offset: HEADER_LEN });
    }
    let symbols = concat_prefix(&name, name.len() - dl.len());
    proof {
        let nv = labels_view(name@);
        let pre = nv.subrange(0, name@.len() - dl@.len());
        lemma_parse_len(b@, 12);
        lemma_concat_len(pre);
        lemma_wire_prefix_len(nv, name@.len() - dl@.len());
    }
    let payload = match decode(symbols.as_slice()) {
        Some(p) => p,
        None => return Err(CodecError { kind: CodecErrorKind::BadLabel, offset: HEADER_LEN }),
    };
    let canonical = payload_labels(&encode(payload.as_slice()));
    if !prefix_eq_ci(&name, name.len() - dl.len(), &canonical) {
        return Err(CodecError { kind: CodecErrorKind::BadLabel, offset: HEADER_LEN });
    }
    Ok(DecodedQuery {
        id: get16(b, 0),
        rd: (flags / 256) % 2 == 1,
        cd: (flags / 16) % 2 == 1,
        question: Question { name, qtype, qclass },
        payload,
    })
}


/// A query that carries payload `p` under the cover domain `d` decodes, with
/// that domain, to the same header fields, name and payload.
pub proof fn lemma_query_round_trip(p: Seq<u8>, d: Seq<u8>, id: u16, rd: bool, cd: bool)
    requires
        domain_ok(d),
        p.len() <= mtu_for(d.len()),
    ensures
        build_outcome(p, d) == Ok::<Seq<Seq<u8>>, CodecError>(qname_of(p, d)),
        name_check(qname_of(p, d)) is None,
        decode_query_outcome(
            query_wire(id, true, rd, cd, 1, qname_of(p, d), RR_TXT, CLASS_IN),
            d,
        ) == Ok::<QueryView, CodecError>((id, rd, cd, qname_of(p, d), RR_TXT, CLASS_IN, p)),
{
    let ls = qname_of(p, d);
    let e = encoded(p);
    let c = chunks_from(e, 0);
    let dl = domain_labels(d);
    lemma_qname_legal(p, d);
    assert(valid_name(ls));
    let lw = labels_wire(ls);
    let n: int = lw.len() as int;
    let b = query_wire(id, true, rd, cd, 1, ls, RR_TXT, CLASS_IN);
    let f = flags_of(false, rd, cd, 0);
    lemma_flags(false, rd, cd, 0);
    assert(b.subrange(0, 2) =~= be16(id));
    assert(b.subrange(2, 4) =~= be16(f));
    assert(b.subrange(4, 6) =~= be16(1));
    lemma_read16(b, 0, id);
    lemma_read16(b, 2, f);
    lemma_read16(b, 4, 1);
    assert(b.subrange(12, 12 + n) =~= lw);
    assert(b[12 + n] == 0);
    lemma_parse_wire(b, 12, ls);
    let end: int = 12 + n + 1;
    assert(b.subrange(end, end + 2) =~= be16(RR_TXT));
    assert(b.subrange(end + 2, end + 4) =~= be16(CLASS_IN));
    lemma_read16(b, end, RR_TXT);
    lemma_read16(b, end + 2, CLASS_IN);
    assert forall|i: int| 0 <= i < dl.len() implies label_eq_ci(
        #[trigger] ls[ls.len() - dl.len() + i],
        dl[i],
    ) by {
        assert(ls[ls.len() - dl.len() + i] == dl[i]);
    }
    assert(ends_with_domain(ls, dl));
    assert(ls.subrange(0, ls.len() - dl.len()) =~= c);
    lemma_chunks(e, 0);
    assert(e.subrange(0, e.len() as int) =~= e);
    lemma_round_trip(p);
}


// ---------------------------------------------------------------------------
// Responses
// ---------------------------------------------------------------------------

/// What goes into a response message.
#[derive(Debug, Clone)]
pub struct ResponseParams {
    pub id: u16,
    pub rd: bool,
    pub cd: bool,
    pub question: Question,
    pub payload: Option<Vec<u8>>,
    pub rcode: Option<u8>,
}

/// `p` from offset `s` on as TXT character-strings of at most 255 octets.
pub open spec fn txt_segments(p: Seq<u8>, s: int) -> Seq<u8>
    decreases p.len() - s,
{
    if s < 0 || s >= p.len() {
        Seq::empty()
    } else {
        let end = if s + 255 < p.len() {
            s + 255
        } else {
            p.len() as int
        };
        seq![(end - s) as u8] + p.subrange(s, end) + txt_segments(p, end)
    }
}

/// RDATA of the TXT record that carries `p`; an empty payload is one empty string.
pub open spec fn txt_rdata(p: Seq<u8>) -> Seq<u8> {
    if p.len() == 0 {
        seq![0u8]
    } else {
        txt_segments(p, 0)
    }
}

/// The answer record that carries `p`: its name points at the question name.
pub open spec fn answer_wire(p: Seq<u8>) -> Seq<u8> {
    seq![0xc0u8, 0x0cu8] + be16(RR_TXT) + be16(CLASS_IN) + seq![0u8, 0u8, 0u8, 0u8] + be16(
        txt_rdata(p).len() as u16,
    ) + txt_rdata(p)
}

pub open spec fn payload_view(o: Option<Vec<u8>>) -> Option<Seq<u8>> {
    match o {
        Some(v) => Some(v@),
        None => None,
    }
}

pub open spec fn rcode_or_zero(rcode: Option<u8>) -> u8 {
    match rcode {
        Some(c) => c,
        None => 0,
    }
}

/// The bytes of a response: header, the echoed question, and one TXT answer
/// when there is a payload. Only the low four bits of the response code are sent.
pub open spec fn response_wire(
    id: u16,
    rd: bool,
    cd: bool,
    q: (Seq<Seq<u8>>, u16, u16),
    payload: Option<Seq<u8>>,
    rcode: Option<u8>,
) -> Seq<u8> {
    header_wire(
        id,
        flags_of(true, rd, cd, rcode_or_zero(rcode)),
        1,
        if payload is Some {
            1
        } else {
            0
        },
        0,
        0,
    ) + name_wire(q.0) + be16(q.1) + be16(q.2) + match payload {
        Some(p) => answer_wire(p),
        None => Seq::empty(),
    }
}

pub open spec fn encode_response_outcome(
    id: u16,
    rd: bool,
    cd: bool,
    q: (Seq<Seq<u8>>, u16, u16),
    payload: Option<Seq<u8>>,
    rcode: Option<u8>,
) -> Result<Seq<u8>, CodecError> {
    match name_check(q.0) {
        Some(e) => Err(e),
        None => if payload matches Some(p) && txt_rdata(p).len() > 65535 {
            Err(err(CodecErrorKind::PayloadTooLong, 12 + name_wire(q.0).len() as int + 14))
        } else {
            Ok(response_wire(id, rd, cd, q, payload, rcode))
        },
    }
}

proof fn lemma_txt_len(p: Seq<u8>, s: int)
    requires
        0 <= s <= p.len(),
    ensures
        txt_segments(p, s).len() == (p.len() - s) + (p.len() - s + 254) / 255,
    decreases p.len() - s,
{
    if s < p.len() {
        let end = if s + 255 < p.len() {
            s + 255
        } else {
            p.len() as int
        };
        lemma_txt_len(p, end);
    }
}

fn write_txt(out: &mut Vec<u8>, p: &Vec<u8>)
    ensures
        final(out)@ == old(out)@ + txt_rdata(p@),
{
    if p.len() == 0 {
        out.push(0u8);
        assert(final(out)@ =~= old(out)@ + txt_rdata(p@));
        return;
    }
    let mut s: usize = 0;
    assert(txt_segments(p@, 0) =~= Seq::<u8>::empty() + txt_segments(p@, 0));
    while s < p.len()
        invariant
            s <= p@.len(),
            p@.len() > 0,
            old(out)@ + txt_segments(p@, 0) == out@ + txt_segments(p@, s as int),
        decreases p@.len() - s,
    {
        let end = if p.len() - s > 255 {
            s + 255
        } else {
            p.len()
        };
        let ghost mid = out@;
        out.push((end - s) as u8);
        let mut k: usize = s;
        while k < end
            invariant
                s <= k <= end <= p@.len(),
                out@ == mid.push((end - s) as u8) + p@.subrange(s as int, k as int),
            decreases end - k,
        {
            out.push(p[k]);
            assert(out@ =~= mid.push((end - s) as u8) + p@.subrange(s as int, k + 1));
            k += 1;
        }
        assert(mid + txt_segments(p@, s as int) =~= out@ + txt_segments(p@, end as int));
        s = end;
    }
    assert(out@ =~= old(out)@ + txt_rdata(p@));
}

/// Length of the TXT data that carries `p`, when it fits 16 bits.
fn rdata_len(p: &Vec<u8>) -> (r: Option<u16>)
    ensures
        txt_rdata(p@).len() <= 65535 ==> r == Some(txt_rdata(p@).len() as u16),
        txt_rdata(p@).len() > 65535 ==> r is None,
{
    let n = p.len();
    if n == 0 {
        return Some(1);
    }
    proof {
        lemma_txt_len(p@, 0);
    }
    if n > 65535 {
        return None;
    }
    let total = n + (n + 254) / 255;
    if total > 65535 {
        None
    } else {
        Some(total as u16)
    }
}

fn write_answer(out: &mut Vec<u8>, payload: &Vec<u8>, rdlen: u16)
    requires
        rdlen == txt_rdata(payload@).len(),
    ensures
        final(out)@ == old(out)@ + answer_wire(payload@),
{
    out.push(0xc0u8);
    out.push(0x0cu8);
    push16(out, RR_TXT);
    push16(out, CLASS_IN);
    out.push(0u8);
    out.push(0u8);
    out.push(0u8);
    out.push(0u8);
    push16(out, rdlen);
    write_txt(out, payload);
    assert(final(out)@ =~= old(out)@ + answer_wire(payload@));
}

/// Writes `p` as a response; the question name must be legal and the TXT data
/// must fit a 16-bit length.
pub fn encode_response(p: &ResponseParams) -> (r: Result<Vec<u8>, CodecError>)
    ensures
        match encode_response_outcome(
            p.id,
            p.rd,
            p.cd,
            question_view(p.question),
            payload_view(p.payload),
            p.rcode,
        ) {
            Ok(w) => r matches Ok(v) && v@ == w,
            Err(e) => r == Err::<Vec<u8>, CodecError>(e),
        },
{
    let q = &p.question;
    if !labels_valid(&q.name) {
        return Err(CodecError { kind: CodecErrorKind::BadLabel, offset: HEADER_LEN });
    }
    let nlen = name_wire_len(&q.name);
    if nlen > 255 {
        return Err(CodecError { kind: CodecErrorKind::QnameTooLong, offset: HEADER_LEN });
    }
    let mut rdlen: u16 = 0;
    if let Some(payload) = &p.payload {
        match rdata_len(payload) {
            Some(l) => {
                rdlen = l;
            },
            None => {
                return Err(CodecError { kind: CodecErrorKind::PayloadTooLong, offset: HEADER_LEN + nlen + 14 });
            },
        }
    }
    let rc: u8 = match p.rcode {
        Some(c) => c,
        None => 0,
    };
    let mut out: Vec<u8> = Vec::new();
    push16(&mut out, p.id);
    push16(&mut out, flags_exec(true, p.rd, p.cd, rc));
    push16(&mut out, 1);
    push16(&mut out, if p.payload.is_some() { 1 } else { 0 });
    push16(&mut out, 0);
    push16(&mut out, 0);
    write_name(&mut out, &q.name);
    push16(&mut out, q.qtype);
    push16(&mut out, q.qclass);
    let ghost before = out@;
    if let Some(payload) = &p.payload {
        write_answer(&mut out, payload, rdlen);
    } else {
        assert(out@ =~= before + Seq::<u8>::empty());
    }
    assert(out@ =~= response_wire(p.id, p.rd, p.cd, question_view(p.question), payload_view(p.payload), p.rcode));
    Ok(out)
}


/// Skips the owner name of an answer record at `pos`: labels ending in a zero
/// octet or in a compression pointer, which must point before `start`.
pub open spec fn skip_answer_name(b: Seq<u8>, pos: int, start: int) -> Result<int, CodecError>
    decreases b.len() - pos,
{
    if pos < 0 || pos >= b.len() {
        Err(err(CodecErrorKind::ShortBuffer, pos))
    } else if b[pos] == 0 {
        Ok(pos + 1)
    } else if b[pos] >= 0xc0 {
        if pos + 2 > b.len() {
            Err(err(CodecErrorKind::ShortBuffer, pos))
        } else if (b[pos] - 0xc0) * 256 + b[pos + 1] >= start {
            Err(err(CodecErrorKind::BadPointer, pos))
        } else {
            Ok(pos + 2)
        }
    } else if b[pos] > 63 {
        Err(err(CodecErrorKind::BadLabel, pos))
    } else if pos + 1 + b[pos] > b.len() {
        Err(err(CodecErrorKind::ShortBuffer, pos))
    } else {
        skip_answer_name(b, pos + 1 + b[pos], start)
    }
}

/// The TXT character-strings between `pos` and `stop`, concatenated; `None`
/// when one runs past `stop`.
pub open spec fn txt_strings(b: Seq<u8>, pos: int, stop: int) -> Option<Seq<u8>>
    decreases stop - pos,
{
    if pos >= stop {
        Some(Seq::empty())
    } else if pos + 1 + b[pos] > stop {
        None
    } else {
        match txt_strings(b, pos + 1 + b[pos], stop) {
            Some(rest) => Some(b.subrange(pos + 1, pos + 1 + b[pos]) + rest),
            None => None,
        }
    }
}

/// A decoded response: id, RD, CD, response code, question and payload.
pub type ResponseView = (u16, bool, bool, u8, (Seq<Seq<u8>>, u16, u16), Option<Seq<u8>>);

/// What a response holds. Only the first answer is read, and only a TXT/IN one
/// carries payload; later records are ignored.
pub open spec fn decode_response_outcome(b: Seq<u8>) -> Result<ResponseView, CodecError> {
    if b.len() < 12 {
        Err(err(CodecErrorKind::ShortBuffer, b.len() as int))
    } else if !flag_qr(read16(b, 2)) {
        Err(err(CodecErrorKind::WrongDirection, 2))
    } else if read16(b, 4) != 1 {
        Err(err(CodecErrorKind::CountMismatch, 4))
    } else {
        match parse_labels(b, 12) {
            Err(e) => Err(e),
            Ok((name, end)) => if end - 12 > 255 {
                Err(err(CodecErrorKind::QnameTooLong, 12))
            } else if end + 4 > b.len() {
                Err(err(CodecErrorKind::ShortBuffer, end))
            } else {
                let f = read16(b, 2);
                let q = (name, read16(b, end), read16(b, end + 2));
                let a = end + 4;
                if read16(b, 6) == 0 {
                    Ok((read16(b, 0), flag_rd(f), flag_cd(f), flag_rcode(f), q, None))
                } else {
                    match skip_answer_name(b, a, a) {
                        Err(e) => Err(e),
                        Ok(n) => if n + 10 > b.len() {
                            Err(err(CodecErrorKind::ShortBuffer, n))
                        } else if n + 10 + read16(b, n + 8) > b.len() {
                            Err(err(CodecErrorKind::ShortBuffer, n + 10))
                        } else if read16(b, n) != RR_TXT || read16(b, n + 2) != CLASS_IN {
                            Ok((read16(b, 0), flag_rd(f), flag_cd(f), flag_rcode(f), q, None))
                        } else {
                            match txt_strings(b, n + 10, n + 10 + read16(b, n + 8)) {
                                None => Err(err(CodecErrorKind::ShortBuffer, n + 10)),
                                Some(p) => Ok(
                                    (read16(b, 0), flag_rd(f), flag_cd(f), flag_rcode(f), q, Some(p)),
                                ),
                            }
                        },
                    }
                }
            },
        }
    }
}

/// A response as the client receives it.
#[derive(Debug, Clone)]
pub struct DecodedResponse {
    pub id: u16,
    pub rd: bool,
    pub cd: bool,
    pub rcode: u8,
    pub question: Question,
    pub payload: Option<Vec<u8>>,
}

pub open spec fn decoded_response_view(r: DecodedResponse) -> ResponseView {
    (r.id, r.rd, r.cd, r.rcode, question_view(r.question), payload_view(r.payload))
}

fn skip_answer_name_exec(b: &[u8], start: usize) -> (r: Result<usize, CodecError>)
    ensures
        match skip_answer_name(b@, start as int, start as int) {
            Ok(n) => r == Ok::<usize, CodecError>(n as usize) && start < n <= b@.len(),
            Err(e) => r == Err::<usize, CodecError>(e),
        },
{
    let mut pos = start;
    loop
        invariant
            start <= pos,
            skip_answer_name(b@, start as int, start as int) == skip_answer_name(b@, pos as int, start as int),
        decreases b@.len() - pos,
    {
        if pos >= b.len() {
            return Err(CodecError { kind: CodecErrorKind::ShortBuffer, offset: pos });
        }
        let l = b[pos];
        if l == 0 {
            return Ok(pos + 1);
        }
        if l >= 0xc0 {
            if b.len() - pos < 2 {
                return Err(CodecError { kind: CodecErrorKind::ShortBuffer, offset: pos });
            }
            let target: usize = ((l - 0xc0) as usize) * 256 + b[pos + 1] as usize;
            if target >= start {
                return Err(CodecError { kind: CodecErrorKind::BadPointer, offset: pos });
            }
            return Ok(pos + 2);
        }
        if l > 63 {
            return Err(CodecError { kind: CodecErrorKind::BadLabel, offset: pos });
        }
        if b.len() - pos - 1 < l as usize {
            return Err(CodecError { kind: CodecErrorKind::ShortBuffer, offset: pos });
        }
        pos = pos + 1 + l as usize;
    }
}

pub open spec fn prepend_bytes(acc: Seq<u8>, r: Option<Seq<u8>>) -> Option<Seq<u8>> {
    match r {
        Some(rest) => Some(acc + rest),
        None => None,
    }
}

fn txt_strings_exec(b: &[u8], start: usize, stop: usize) -> (r: Option<Vec<u8>>)
    requires
        start <= stop <= b@.len(),
    ensures
        match txt_strings(b@, start as int, stop as int) {
            Some(p) => r matches Some(v) && v@ == p,
            None => r is None,
        },
{
    let mut out: Vec<u8> = Vec::new();
    let mut pos = start;
    assert(txt_strings(b@, start as int, stop as int) == prepend_bytes(out@, txt_strings(b@, start as int, stop as int))) by {
        if let Some(rest) = txt_strings(b@, start as int, stop as int) {
            assert(Seq::<u8>::empty() + rest =~= rest);
        }
    }
    while pos < stop
        invariant
            start <= pos <= stop <= b@.len(),
            txt_strings(b@, start as int, stop as int) == prepend_bytes(out@, txt_strings(b@, pos as int, stop as int)),
        decreases stop - pos,
    {
        let l = b[pos] as usize;
        if stop - pos - 1 < l {
            return None;
        }
        let ghost before = out@;
        let mut k: usize = pos + 1;
        while k < pos + 1 + l
            invariant
                pos + 1 <= k <= pos + 1 + l <= stop <= b@.len(),
                out@ == before + b@.subrange(pos + 1, k as int),
            decreases pos + 1 + l - k,
        {
            out.push(b[k]);
            assert(out@ =~= before + b@.subrange(pos + 1, k + 1));
            k += 1;
        }
        proof {
            if let Some(rest) = txt_strings(b@, pos + 1 + l, stop as int) {
                assert(before + (b@.subrange(pos + 1, pos + 1 + l) + rest) =~= out@ + rest);
            }
        }
        pos = pos + 1 + l;
    }
    assert(out@ + Seq::<u8>::empty() =~= out@);
    Some(out)
}


/// Reads a response and recovers the payload of its first answer.
pub fn decode_response(b: &[u8]) -> (r: Result<DecodedResponse, CodecError>)
    ensures
        match decode_response_outcome(b@) {
            Ok(v) => r matches Ok(d) && decoded_response_view(d) == v,
            Err(e) => r == Err::<DecodedResponse, CodecError>(e),
        },
{
    if b.len() < HEADER_LEN {
        return Err(CodecError { kind: CodecErrorKind::ShortBuffer, offset: b.len() });
    }
    let flags = get16(b, 2);
    if flags < 0x8000 {
        return Err(CodecError { kind: CodecErrorKind::WrongDirection, offset: 2 });
    }
    if get16(b, 4) != 1 {
        return Err(CodecError { kind: CodecErrorKind::CountMismatch, offset: 4 });
    }
    let (name, end) = match parse_question_name(b) {
        Ok(x) => x,
        Err(e) => return Err(e),
    };
    proof {
        lemma_parse_len(b@, 12);
    }
    if end - HEADER_LEN > 255 {
        return Err(CodecError { kind: CodecErrorKind::QnameTooLong, offset: HEADER_LEN });
    }
    if b.len() - end < 4 {
        return Err(CodecError { kind: CodecErrorKind::ShortBuffer, offset: end });
    }
    let question = Question { name, qtype: get16(b, end), qclass: get16(b, end + 2) };
    let id = get16(b, 0);
    let rd = (flags / 256) % 2 == 1;
    let cd = (flags / 16) % 2 == 1;
    let rcode = (flags % 16) as u8;
    let a = end + 4;
    if get16(b, 6) == 0 {
        return Ok(DecodedResponse { id, rd, cd, rcode, question, payload: None });
    }
    let n = match skip_answer_name_exec(b, a) {
        Ok(n) => n,
        Err(e) => return Err(e),
    };
    if b.len() - n < 10 {
        return Err(CodecError { kind: CodecErrorKind::ShortBuffer, offset: n });
    }
    let rdlen = get16(b, n + 8) as usize;
    if b.len() - n - 10 < rdlen {
        return Err(CodecError { kind: CodecErrorKind::ShortBuffer, offset: n + 10 });
    }
    if get16(b, n) != RR_TXT || get16(b, n + 2) != CLASS_IN {
        return Ok(DecodedResponse { id, rd, cd, rcode, question, payload: None });
    }
    match txt_strings_exec(b, n + 10, n + 10 + rdlen) {
        None => Err(CodecError { kind: CodecErrorKind::ShortBuffer, offset: n + 10 }),
        Some(p) => Ok(DecodedResponse { id, rd, cd, rcode, question, payload: Some(p) }),
    }
}


proof fn lemma_window(b: Seq<u8>, x: int, w: Seq<u8>, i: int, j: int)
    requires
        0 <= x,
        x + w.len() <= b.len(),
        b.subrange(x, x + w.len()) == w,
        0 <= i <= j <= w.len(),
    ensures
        b.subrange(x + i, x + j) == w.subrange(i, j),
{
    assert forall|k: int| 0 <= k < j - i implies #[trigger] b.subrange(x + i, x + j)[k] == w.subrange(
        i,
        j,
    )[k] by {
        assert(b[x + i + k] == b.subrange(x, x + w.len())[i + k]);
    }
    assert(b.subrange(x + i, x + j) =~= w.subrange(i, j));
}

proof fn lemma_txt_strings(b: Seq<u8>, x: int, p: Seq<u8>, s: int)
    requires
        0 <= s <= p.len(),
        0 <= x,
        x + txt_segments(p, s).len() <= b.len(),
        b.subrange(x, x + txt_segments(p, s).len()) == txt_segments(p, s),
    ensures
        txt_strings(b, x, x + txt_segments(p, s).len()) == Some(p.subrange(s, p.len() as int)),
    decreases p.len() - s,
{
    let t = txt_segments(p, s);
    if s < p.len() {
        let end = if s + 255 < p.len() {
            s + 255
        } else {
            p.len() as int
        };
        let l = end - s;
        let rest = txt_segments(p, end);
        assert(t == seq![l as u8] + p.subrange(s, end) + rest);
        assert(b[x] == t[0]);
        assert(b[x] as int == l);
        lemma_window(b, x, t, 1, 1 + l);
        assert(t.subrange(1, 1 + l) =~= p.subrange(s, end));
        lemma_window(b, x, t, 1 + l, t.len() as int);
        assert(t.subrange(1 + l, t.len() as int) =~= rest);
        lemma_txt_strings(b, x + 1 + l, p, end);
        assert(p.subrange(s, end) + p.subrange(end, p.len() as int) =~= p.subrange(s, p.len() as int));
    } else {
        assert(p.subrange(s, p.len() as int) =~= Seq::<u8>::empty());
    }
}

/// A response written with a legal question and a payload whose TXT data fits
/// 16 bits is accepted by `encode_response` and decodes to the same question,
/// payload and header fields (the response code to its low four bits).
pub proof fn lemma_response_round_trip(
    id: u16,
    rd: bool,
    cd: bool,
    q: (Seq<Seq<u8>>, u16, u16),
    payload: Option<Seq<u8>>,
    rcode: Option<u8>,
)
    requires
        name_check(q.0) is None,
        payload matches Some(p) ==> txt_rdata(p).len() <= 65535,
    ensures
        encode_response_outcome(id, rd, cd, q, payload, rcode) == Ok::<Seq<u8>, CodecError>(
            response_wire(id, rd, cd, q, payload, rcode),
        ),
        decode_response_outcome(response_wire(id, rd, cd, q, payload, rcode)) == Ok::<
            ResponseView,
            CodecError,
        >((id, rd, cd, rcode_or_zero(rcode) % 16, q, payload)),
{
    let b = response_wire(id, rd, cd, q, payload, rcode);
    lemma_response_head(id, rd, cd, q, payload, rcode);
    let end: int = 12 + labels_wire(q.0).len() as int + 1;
    let a = end + 4;
    if let Some(p) = payload {
        lemma_answer(b, a, p);
    }
    lemma_decode_response_facts(b, end, q, payload, id, rd, cd, rcode_or_zero(rcode) % 16);
}

proof fn lemma_decode_response_facts(
    b: Seq<u8>,
    end: int,
    q: (Seq<Seq<u8>>, u16, u16),
    payload: Option<Seq<u8>>,
    id: u16,
    rd: bool,
    cd: bool,
    rc: u8,
)
    requires
        b.len() >= 12,
        read16(b, 0) == id,
        flag_qr(read16(b, 2)),
        flag_rd(read16(b, 2)) == rd,
        flag_cd(read16(b, 2)) == cd,
        flag_rcode(read16(b, 2)) == rc,
        read16(b, 4) == 1,
        parse_labels(b, 12) == Ok::<(Seq<Seq<u8>>, int), CodecError>((q.0, end)),
        end - 12 <= 255,
        end + 4 <= b.len(),
        read16(b, end) == q.1,
        read16(b, end + 2) == q.2,
        payload is None ==> read16(b, 6) == 0,
        payload matches Some(p) ==> {
            let a = end + 4;
            let t = txt_rdata(p).len();
            &&& read16(b, 6) == 1
            &&& skip_answer_name(b, a, a) == Ok::<int, CodecError>(a + 2)
            &&& read16(b, a + 2) == RR_TXT
            &&& read16(b, a + 4) == CLASS_IN
            &&& read16(b, a + 10) == t
            &&& b.len() == a + 12 + t
            &&& txt_strings(b, a + 12, a + 12 + t) == Some(p)
        },
    ensures
        decode_response_outcome(b) == Ok::<ResponseView, CodecError>((id, rd, cd, rc, q, payload)),
{
}

proof fn lemma_response_head(
    id: u16,
    rd: bool,
    cd: bool,
    q: (Seq<Seq<u8>>, u16, u16),
    payload: Option<Seq<u8>>,
    rcode: Option<u8>,
)
    requires
        name_check(q.0) is None,
    ensures
        ({
            let b = response_wire(id, rd, cd, q, payload, rcode);
            let f = flags_of(true, rd, cd, rcode_or_zero(rcode));
            let end: int = 12 + labels_wire(q.0).len() as int + 1;
            &&& b.len() >= 12
            &&& read16(b, 0) == id
            &&& read16(b, 2) == f
            &&& flag_qr(f) && flag_rd(f) == rd && flag_cd(f) == cd && flag_rcode(f) == rcode_or_zero(rcode) % 16
            &&& read16(b, 4) == 1
            &&& read16(b, 6) == (if payload is Some { 1u16 } else { 0u16 })
            &&& parse_labels(b, 12) == Ok::<(Seq<Seq<u8>>, int), CodecError>((q.0, end))
            &&& end - 12 <= 255
            &&& end + 4 <= b.len()
            &&& read16(b, end) == q.1
            &&& read16(b, end + 2) == q.2
            &&& payload is None ==> b.len() == end + 4
            &&& payload matches Some(p) ==> b.len() == end + 4 + answer_wire(p).len()
                && b.subrange(end + 4, b.len() as int) == answer_wire(p)
        }),
{
    let b = response_wire(id, rd, cd, q, payload, rcode);
    let f = flags_of(true, rd, cd, rcode_or_zero(rcode));
    let an: u16 = if payload is Some {
        1
    } else {
        0
    };
    let h = header_wire(id, f, 1, an, 0, 0);
    let ls = q.0;
    let lw = labels_wire(ls);
    let n: int = lw.len() as int;
    let qw = name_wire(ls) + be16(q.1) + be16(q.2);
    let tail = match payload {
        Some(p) => answer_wire(p),
        None => Seq::empty(),
    };
    assert(b =~= h + qw + tail);
    lemma_flags(true, rd, cd, rcode_or_zero(rcode));
    assert(b.subrange(0, b.len() as int) =~= b);
    lemma_window(b, 0, b, 0, 2);
    lemma_window(b, 0, b, 2, 4);
    lemma_window(b, 0, b, 4, 6);
    lemma_window(b, 0, b, 6, 8);
    assert(b.subrange(0, 2) =~= be16(id));
    assert(b.subrange(2, 4) =~= be16(f));
    assert(b.subrange(4, 6) =~= be16(1));
    assert(b.subrange(6, 8) =~= be16(an));
    lemma_read16(b, 0, id);
    lemma_read16(b, 2, f);
    lemma_read16(b, 4, 1);
    lemma_read16(b, 6, an);
    assert(b.subrange(12, 12 + n) =~= lw);
    assert(b[12 + n] == 0);
    lemma_parse_wire(b, 12, ls);
    let end: int = 12 + n + 1;
    assert(b.subrange(end, end + 2) =~= be16(q.1));
    assert(b.subrange(end + 2, end + 4) =~= be16(q.2));
    lemma_read16(b, end, q.1);
    lemma_read16(b, end + 2, q.2);
    let a = end + 4;
    if let Some(p) = payload {
        assert(b.subrange(a, b.len() as int) =~= answer_wire(p));
    } else {
        assert(b.len() == a);
    }
}

proof fn lemma_answer(b: Seq<u8>, a: int, p: Seq<u8>)
    requires
        12 < a,
        b.len() == a + answer_wire(p).len(),
        b.subrange(a, b.len() as int) == answer_wire(p),
        txt_rdata(p).len() <= 65535,
    ensures
        skip_answer_name(b, a, a) == Ok::<int, CodecError>(a + 2),
        read16(b, a + 2) == RR_TXT,
        read16(b, a + 4) == CLASS_IN,
        read16(b, a + 10) == txt_rdata(p).len(),
        b.len() == a + 12 + txt_rdata(p).len(),
        txt_strings(b, a + 12, a + 12 + txt_rdata(p).len()) == Some(p),
{
    let t = txt_rdata(p);
    let w = answer_wire(p);
    assert(b[a] == w[0]);
    assert(b[a + 1] == w[1]);
    assert(skip_answer_name(b, a, a) == Ok::<int, CodecError>(a + 2));
    let m = a + 2;
    lemma_window(b, a, w, 2, 4);
    lemma_window(b, a, w, 4, 6);
    lemma_window(b, a, w, 10, 12);
    lemma_window(b, a, w, 12, w.len() as int);
    assert(w.subrange(2, 4) =~= be16(RR_TXT));
    assert(w.subrange(4, 6) =~= be16(CLASS_IN));
    assert(w.subrange(10, 12) =~= be16(t.len() as u16));
    assert(w.subrange(12, w.len() as int) =~= t);
    lemma_read16(b, m, RR_TXT);
    lemma_read16(b, m + 2, CLASS_IN);
    lemma_read16(b, m + 8, t.len() as u16);
    if p.len() == 0 {
        assert(b[m + 10] == t[0]);
        assert(txt_strings(b, m + 11, m + 11) == Some(Seq::<u8>::empty()));
        assert(b.subrange(m + 11, m + 11) =~= Seq::<u8>::empty());
        assert(txt_strings(b, m + 10, m + 11) == Some(Seq::<u8>::empty() + Seq::<u8>::empty()));
        assert(Seq::<u8>::empty() + Seq::<u8>::empty() =~= p);
    } else {
        lemma_txt_strings(b, m + 10, p, 0);
        assert(p.subrange(0, p.len() as int) =~= p);
    }
}

} // verus!
