use slipstream::base32::{decode, encode};
use slipstream::message::DecodedResponse;
use slipstream::{
    build_qname, decode_query, decode_response, encode_query, encode_response,
    max_payload_len_for_domain, CodecError, CodecErrorKind, QueryParams, Question, ResponseParams,
    CLASS_IN, RR_TXT,
};

fn query_for(id: u16, payload: &[u8], domain: &str) -> Vec<u8> {
    let qname = build_qname(payload, domain).unwrap();
    let params = QueryParams {
        id,
        qname,
        qtype: RR_TXT,
        qclass: CLASS_IN,
        rd: true,
        cd: false,
        qdcount: 1,
        is_query: true,
    };
    encode_query(&params).unwrap()
}

fn kind_of<T: std::fmt::Debug>(r: Result<T, CodecError>) -> CodecErrorKind {
    r.expect_err("expected an error").kind
}

#[test]
fn base32_known_vectors() {
    assert_eq!(encode(b""), b"".to_vec());
    assert_eq!(encode(b"f"), b"my".to_vec());
    assert_eq!(encode(b"fo"), b"mzxq".to_vec());
    assert_eq!(encode(b"foo"), b"mzxw6".to_vec());
    assert_eq!(encode(b"foob"), b"mzxw6yq".to_vec());
    assert_eq!(encode(b"fooba"), b"mzxw6ytb".to_vec());
    assert_eq!(encode(b"foobar"), b"mzxw6ytboi".to_vec());
}

#[test]
fn base32_decodes_either_case() {
    assert_eq!(decode(b"MZXW6YTBOI").unwrap(), b"foobar".to_vec());
    assert_eq!(decode(b"mZxW6yTbOi").unwrap(), b"foobar".to_vec());
    assert_eq!(decode(b"m1"), None);
    assert_eq!(decode(b"mzx"), None);
}

#[test]
fn base32_round_trip_all_bytes() {
    let p: Vec<u8> = (0..=255u8).collect();
    assert_eq!(decode(&encode(&p)).unwrap(), p);
}

#[test]
fn max_payload_for_test_com() {
    assert_eq!(max_payload_len_for_domain("test.com").unwrap(), 145);
}

/// A legal cover domain of `n` octets: labels of 62 letters joined by dots, the last
/// one up to 63.
fn domain_of_len(n: usize) -> String {
    (0..n)
        .map(|i| if (i + 1) % 63 == 0 && i + 1 != n { '.' } else { 'a' })
        .collect()
}

#[test]
fn max_payload_domain_lengths() {
    let d239 = domain_of_len(239);
    let d240 = domain_of_len(240);
    assert_eq!(d239.len(), 239);
    assert_eq!(max_payload_len_for_domain(&d239).unwrap(), 0);
    assert_eq!(kind_of(max_payload_len_for_domain(&d240)), CodecErrorKind::QnameTooLong);
}

#[test]
fn max_payload_is_non_increasing() {
    let mut last = usize::MAX;
    for n in 1..240 {
        let d = domain_of_len(n);
        let m = max_payload_len_for_domain(&d).unwrap();
        assert!(m <= last);
        last = m;
    }
}

#[test]
fn qname_labels_are_legal() {
    for n in [0usize, 1, 5, 36, 100, 145] {
        let p: Vec<u8> = (0..n).map(|i| (i * 7) as u8).collect();
        let ls = build_qname(&p, "test.com").unwrap();
        let mut wire = 1;
        for l in &ls {
            assert!(!l.is_empty() && l.len() <= 63);
            wire += 1 + l.len();
        }
        assert!(wire <= 255);
        assert_eq!(&ls[ls.len() - 2], &b"test".to_vec());
        assert_eq!(&ls[ls.len() - 1], &b"com".to_vec());
    }
}

#[test]
fn qname_of_empty_payload_is_the_domain() {
    let ls = build_qname(&[], "test.com").unwrap();
    assert_eq!(ls, vec![b"test".to_vec(), b"com".to_vec()]);
}

#[test]
fn qname_payload_over_limit() {
    let p = vec![0u8; 146];
    assert_eq!(kind_of(build_qname(&p, "test.com")), CodecErrorKind::QnameTooLong);
}

#[test]
fn qname_bad_domain_label() {
    assert_eq!(kind_of(build_qname(b"x", "a..b")), CodecErrorKind::BadLabel);
    let long = format!("{}.com", "x".repeat(64));
    assert_eq!(kind_of(build_qname(b"x", &long)), CodecErrorKind::BadLabel);
}

#[test]
fn query_round_trip_scenario() {
    let payload: Vec<u8> = (0..0x80u8).collect();
    let bytes = query_for(0x1234, &payload, "test.com");
    let q = decode_query(&bytes, "test.com").unwrap();
    assert_eq!(q.id, 0x1234);
    assert_eq!(q.question.qtype, RR_TXT);
    assert_eq!(q.question.qclass, CLASS_IN);
    assert!(q.rd);
    assert!(!q.cd);
    assert_eq!(q.payload, payload);
}

#[test]
fn query_header_bytes() {
    let bytes = query_for(0xabcd, b"", "t.co");
    assert_eq!(&bytes[..12], &[0xab, 0xcd, 0x01, 0x00, 0, 1, 0, 0, 0, 0, 0, 0]);
    assert_eq!(&bytes[12..], &[1, b't', 2, b'c', b'o', 0, 0, 16, 0, 1]);
}

#[test]
fn query_round_trip_edges() {
    for n in [0usize, 1, 4, 5, 6, 145] {
        let p: Vec<u8> = (0..n).map(|i| (255 - i) as u8).collect();
        let bytes = query_for(7, &p, "test.com");
        assert_eq!(decode_query(&bytes, "test.com").unwrap().payload, p);
    }
}

#[test]
fn query_domain_match_ignores_case() {
    let bytes = query_for(1, b"hello", "test.com");
    assert_eq!(decode_query(&bytes, "TeSt.CoM").unwrap().payload, b"hello".to_vec());
}

#[test]
fn query_payload_labels_ignore_case() {
    let mut bytes = query_for(1, b"hello", "test.com");
    for b in bytes[13..21].iter_mut() {
        b.make_ascii_uppercase();
    }
    assert_eq!(decode_query(&bytes, "test.com").unwrap().payload, b"hello".to_vec());
}

#[test]
fn query_other_domain_is_rejected() {
    let bytes = query_for(1, b"hello", "test.com");
    assert_eq!(kind_of(decode_query(&bytes, "other.com")), CodecErrorKind::DomainMismatch);
}

#[test]
fn query_truncated_header() {
    assert_eq!(kind_of(decode_query(&[0u8; 11], "test.com")), CodecErrorKind::ShortBuffer);
    assert_eq!(kind_of(decode_response(&[0x80u8; 5])), CodecErrorKind::ShortBuffer);
}

#[test]
fn query_label_of_64_octets() {
    let mut bytes = vec![0, 1, 1, 0, 0, 1, 0, 0, 0, 0, 0, 0, 64];
    bytes.extend(std::iter::repeat(b'a').take(64));
    bytes.extend([0, 0, 16, 0, 1]);
    let e = decode_query(&bytes, "test.com").unwrap_err();
    assert_eq!(e.kind, CodecErrorKind::BadLabel);
    assert_eq!(e.offset, 12);
}

#[test]
fn query_with_pointer_is_rejected() {
    let bytes = vec![0, 1, 1, 0, 0, 1, 0, 0, 0, 0, 0, 0, 0xc0, 12, 0, 16, 0, 1];
    assert_eq!(kind_of(decode_query(&bytes, "test.com")), CodecErrorKind::BadPointer);
}

#[test]
fn query_trailing_garbage() {
    let mut bytes = query_for(1, b"x", "test.com");
    bytes.push(0);
    assert_eq!(kind_of(decode_query(&bytes, "test.com")), CodecErrorKind::TrailingGarbage);
}

#[test]
fn query_count_and_direction() {
    let mut bytes = query_for(1, b"x", "test.com");
    bytes[5] = 2;
    assert_eq!(kind_of(decode_query(&bytes, "test.com")), CodecErrorKind::CountMismatch);
    let mut bytes = query_for(1, b"x", "test.com");
    bytes[2] |= 0x80;
    assert_eq!(kind_of(decode_query(&bytes, "test.com")), CodecErrorKind::WrongDirection);
}

#[test]
fn query_wrong_type() {
    let mut bytes = query_for(1, b"x", "test.com");
    let n = bytes.len();
    bytes[n - 3] = 1;
    assert_eq!(kind_of(decode_query(&bytes, "test.com")), CodecErrorKind::UnsupportedClassType);
}

#[test]
fn query_bad_payload_symbol() {
    let mut bytes = query_for(1, b"hello", "test.com");
    bytes[13] = b'1';
    assert_eq!(kind_of(decode_query(&bytes, "test.com")), CodecErrorKind::BadLabel);
}

#[test]
fn encode_query_rejects_bad_names() {
    let mut params = QueryParams {
        id: 1,
        qname: vec![vec![b'a'; 64]],
        qtype: RR_TXT,
        qclass: CLASS_IN,
        rd: true,
        cd: false,
        qdcount: 1,
        is_query: true,
    };
    assert_eq!(kind_of(encode_query(&params)), CodecErrorKind::BadLabel);
    params.qname = vec![vec![b'a'; 63]; 4];
    assert_eq!(kind_of(encode_query(&params)), CodecErrorKind::QnameTooLong);
    params.qname = vec![vec![b'a'; 63], vec![b'a'; 63], vec![b'a'; 63], vec![b'a'; 61]];
    assert_eq!(encode_query(&params).unwrap().len(), 12 + 255 + 4);
}

fn response_for(payload: Option<Vec<u8>>, rcode: Option<u8>) -> (Question, Vec<u8>) {
    let question = Question {
        name: build_qname(b"ping", "test.com").unwrap(),
        qtype: RR_TXT,
        qclass: CLASS_IN,
    };
    let params = ResponseParams { id: 0x4321, rd: true, cd: false, question: question.clone(), payload, rcode };
    (question, encode_response(&params).unwrap())
}

fn same_question(a: &Question, d: &DecodedResponse) {
    assert_eq!(a.name, d.question.name);
    assert_eq!(a.qtype, d.question.qtype);
    assert_eq!(a.qclass, d.question.qclass);
}

#[test]
fn response_round_trip() {
    for n in [0usize, 1, 254, 255, 256, 1000, 5000] {
        let p: Vec<u8> = (0..n).map(|i| (i % 251) as u8).collect();
        let (q, bytes) = response_for(Some(p.clone()), None);
        let d = decode_response(&bytes).unwrap();
        same_question(&q, &d);
        assert_eq!(d.id, 0x4321);
        assert!(d.rd);
        assert_eq!(d.rcode, 0);
        assert_eq!(d.payload, Some(p));
    }
}

#[test]
fn response_answer_layout() {
    let (q, bytes) = response_for(Some(b"hi".to_vec()), None);
    let qlen = 1 + q.name.iter().map(|l| 1 + l.len()).sum::<usize>() + 4;
    let a = 12 + qlen;
    assert_eq!(&bytes[6..8], &[0, 1]);
    assert_eq!(&bytes[a..], &[0xc0, 0x0c, 0, 16, 0, 1, 0, 0, 0, 0, 0, 3, 2, b'h', b'i']);
}

#[test]
fn response_largest_payload() {
    let p = vec![9u8; 65279];
    let (_, bytes) = response_for(Some(p.clone()), None);
    assert_eq!(decode_response(&bytes).unwrap().payload, Some(p));
    let question = Question { name: vec![b"x".to_vec()], qtype: RR_TXT, qclass: CLASS_IN };
    let params = ResponseParams { id: 1, rd: true, cd: false, question, payload: Some(vec![0u8; 65280]), rcode: None };
    assert_eq!(kind_of(encode_response(&params)), CodecErrorKind::PayloadTooLong);
}

#[test]
fn response_without_answer_keeps_rcode() {
    let (q, bytes) = response_for(None, Some(3));
    let d = decode_response(&bytes).unwrap();
    same_question(&q, &d);
    assert_eq!(d.rcode, 3);
    assert_eq!(d.payload, None);
    assert_eq!(&bytes[6..8], &[0, 0]);
}

#[test]
fn response_empty_packet_is_nodata() {
    let (_, bytes) = response_for(None, Some(0));
    let d = decode_response(&bytes).unwrap();
    assert_eq!(d.rcode, 0);
    assert_eq!(d.payload, None);
}

#[test]
fn response_rejects_query_and_forward_pointer() {
    let bytes = query_for(1, b"x", "test.com");
    assert_eq!(kind_of(decode_response(&bytes)), CodecErrorKind::WrongDirection);
    let (_, mut bytes) = response_for(Some(b"x".to_vec()), None);
    let n = bytes.len();
    let a = n - 14;
    assert_eq!(bytes[a], 0xc0);
    bytes[a + 1] = 0xff;
    assert_eq!(kind_of(decode_response(&bytes)), CodecErrorKind::BadPointer);
}

#[test]
fn response_truncated_rdata() {
    let (_, mut bytes) = response_for(Some(b"abc".to_vec()), None);
    bytes.pop();
    assert_eq!(kind_of(decode_response(&bytes)), CodecErrorKind::ShortBuffer);
}

#[test]
fn max_payload_bad_domain_label() {
    assert_eq!(kind_of(max_payload_len_for_domain("a..b")), CodecErrorKind::BadLabel);
    assert_eq!(kind_of(max_payload_len_for_domain("")), CodecErrorKind::BadLabel);
}

#[test]
fn query_non_canonical_symbols_are_rejected() {
    // "mz" would decode to "f", whose encoding is "my"
    let mut bytes = query_for(1, b"f", "test.com");
    assert_eq!(&bytes[12..15], &[2, b'm', b'y']);
    bytes[14] = b'z';
    assert_eq!(kind_of(decode_query(&bytes, "test.com")), CodecErrorKind::BadLabel);
}

#[test]
fn query_payload_split_elsewhere_is_rejected() {
    let bytes = query_for(1, b"hello", "test.com");
    // the eight symbols of "hello" as two labels of four
    let mut split = bytes[..12].to_vec();
    split.push(4);
    split.extend_from_slice(&bytes[13..17]);
    split.push(4);
    split.extend_from_slice(&bytes[17..]);
    assert_eq!(kind_of(decode_query(&split, "test.com")), CodecErrorKind::BadLabel);
}
