//! The conversions between transport packets and DNS messages, in both
//! directions, and the count of datagrams dropped because they did not decode.

use vstd::prelude::*;
use crate::message::{
    decode_query, decode_query_outcome, decode_response, decode_response_outcome,
    decoded_query_view, decoded_response_view, encode_query, encode_response,
    encode_response_outcome, query_wire, question_view, DecodedQuery, DecodedResponse, QueryParams,
    ResponseParams, CLASS_IN, RR_TXT,
};
use crate::name::{build_outcome, build_qname, copy_range, CodecError, CodecErrorKind};
use vstd::string::StringSliceAdditionalSpecFns;

verus! {

/// Wire bytes of the query that carries a client packet, or why there are none.
pub open spec fn client_query_outcome(id: u16, packet: Seq<u8>, domain: Seq<u8>) -> Result<
    Seq<u8>,
    CodecError,
> {
    match build_outcome(packet, domain) {
        Err(e) => Err(e),
        Ok(ls) => Ok(query_wire(id, true, true, false, 1, ls, RR_TXT, CLASS_IN)),
    }
}

/// Turns a client packet into a query: TXT/IN, recursion desired, one question.
pub fn client_packet_to_query(id: u16, packet: &[u8], domain: &str) -> (r: Result<Vec<u8>, CodecError>)
    ensures
        match client_query_outcome(id, packet@, domain.spec_bytes()) {
            Ok(w) => r matches Ok(v) && v@ == w,
            Err(e) => r == Err::<Vec<u8>, CodecError>(e),
        },
{
    let qname = match build_qname(packet, domain) {
        Ok(q) => q,
        Err(e) => return Err(e),
    };
    proof {
        crate::name::lemma_qname_legal(packet@, domain.spec_bytes());
    }
    let params = QueryParams {
        id,
        qname,
        qtype: RR_TXT,
        qclass: CLASS_IN,
        rd: true,
        cd: false,
        qdcount: 1,
        is_query: true,
    };
    encode_query(&params)
}

/// The payload a server packet travels as: none for an empty packet.
pub open spec fn packet_payload(packet: Seq<u8>) -> Option<Seq<u8>> {
    if packet.len() == 0 {
        None
    } else {
        Some(packet)
    }
}

/// Turns a server packet into the response to `query`: its id and question are
/// echoed; an empty packet becomes an answerless response with code 0.
pub fn server_packet_to_response(query: &DecodedQuery, packet: &[u8]) -> (r: Result<
    Vec<u8>,
    CodecError,
>)
    ensures
        match encode_response_outcome(
            query.id,
            true,
            false,
            question_view(query.question),
            packet_payload(packet@),
            Some(0u8),
        ) {
            Ok(w) => r matches Ok(v) && v@ == w,
            Err(e) => r == Err::<Vec<u8>, CodecError>(e),
        },
{
    let payload = if packet.len() == 0 {
        None
    } else {
        Some(copy_range(packet, 0, packet.len()))
    };
    assert(packet@.subrange(0, packet@.len() as int) =~= packet@);
    let params = ResponseParams {
        id: query.id,
        rd: true,
        cd: false,
        question: query.question.clone_question(),
        payload,
        rcode: Some(0),
    };
    encode_response(&params)
}

/// Number of codec error kinds.
pub const KIND_COUNT: usize = 10;

pub open spec fn kind_index(k: CodecErrorKind) -> int {
    match k {
        CodecErrorKind::ShortBuffer => 0,
        CodecErrorKind::BadLabel => 1,
        CodecErrorKind::QnameTooLong => 2,
        CodecErrorKind::BadPointer => 3,
        CodecErrorKind::DomainMismatch => 4,
        CodecErrorKind::CountMismatch => 5,
        CodecErrorKind::TrailingGarbage => 6,
        CodecErrorKind::UnsupportedClassType => 7,
        CodecErrorKind::WrongDirection => 8,
        CodecErrorKind::PayloadTooLong => 9,
    }
}

fn kind_slot(k: CodecErrorKind) -> (r: usize)
    ensures
        r == kind_index(k),
{
    match k {
        CodecErrorKind::ShortBuffer => 0,
        CodecErrorKind::BadLabel => 1,
        CodecErrorKind::QnameTooLong => 2,
        CodecErrorKind::BadPointer => 3,
        CodecErrorKind::DomainMismatch => 4,
        CodecErrorKind::CountMismatch => 5,
        CodecErrorKind::TrailingGarbage => 6,
        CodecErrorKind::UnsupportedClassType => 7,
        CodecErrorKind::WrongDirection => 8,
        CodecErrorKind::PayloadTooLong => 9,
    }
}

/// `v` with the counter of kind `k` raised by one, stopping at `u64::MAX`.
pub open spec fn bumped(v: Seq<u64>, k: CodecErrorKind) -> Seq<u64> {
    v.update(
        kind_index(k),
        if v[kind_index(k)] == u64::MAX {
            u64::MAX
        } else {
            (v[kind_index(k)] + 1) as u64
        },
    )
}

/// Datagrams dropped, one counter per codec error kind (saturating).
pub struct DropCounters {
    counts: Vec<u64>,
}

impl DropCounters {
    pub closed spec fn view(&self) -> Seq<u64> {
        self.counts@
    }

    pub open spec fn wf(&self) -> bool {
        self.view().len() == KIND_COUNT
    }

    pub fn new() -> (r: DropCounters)
        ensures
            r.wf(),
            forall|i: int| 0 <= i < KIND_COUNT ==> r.view()[i] == 0,
    {
        DropCounters { counts: vec![0u64; KIND_COUNT] }
    }

    /// Datagrams dropped for errors of kind `k`.
    pub fn count(&self, k: CodecErrorKind) -> (r: u64)
        requires
            self.wf(),
        ensures
            r == self.view()[kind_index(k)],
    {
        self.counts[kind_slot(k)]
    }

    /// Counts one dropped datagram of kind `k`.
    pub fn record(&mut self, k: CodecErrorKind)
        requires
            old(self).wf(),
        ensures
            final(self).wf(),
            final(self).view() == bumped(old(self).view(), k),
    {
        let i = kind_slot(k);
        let c = self.counts[i];
        let next = if c == u64::MAX {
            c
        } else {
            c + 1
        };
        self.counts.set(i, next);
    }
}

/// A datagram received by the server: the decoded query, or `None` after
/// counting why it was dropped.
pub fn accept_query(b: &[u8], domain: &str, drops: &mut DropCounters) -> (r: Option<DecodedQuery>)
    requires
        old(drops).wf(),
    ensures
        final(drops).wf(),
        match decode_query_outcome(b@, domain.spec_bytes()) {
            Ok(v) => r matches Some(q) && decoded_query_view(q) == v && final(drops).view() == old(
                drops,
            ).view(),
            Err(e) => r is None && final(drops).view() == bumped(old(drops).view(), e.kind),
        },
{
    match decode_query(b, domain) {
        Ok(q) => Some(q),
        Err(e) => {
            drops.record(e.kind);
            None
        },
    }
}

/// A datagram received by the client: the decoded response, or `None` after
/// counting why it was dropped.
pub fn accept_response(b: &[u8], drops: &mut DropCounters) -> (r: Option<DecodedResponse>)
    requires
        old(drops).wf(),
    ensures
        final(drops).wf(),
        match decode_response_outcome(b@) {
            Ok(v) => r matches Some(d) && decoded_response_view(d) == v && final(drops).view()
                == old(drops).view(),
            Err(e) => r is None && final(drops).view() == bumped(old(drops).view(), e.kind),
        },
{
    match decode_response(b) {
        Ok(d) => Some(d),
        Err(e) => {
            drops.record(e.kind);
            None
        },
    }
}

} // verus!
