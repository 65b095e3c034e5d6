use slipstream::adapter::{
    accept_query, accept_response, client_packet_to_query, server_packet_to_response, DropCounters,
};
use slipstream::CodecErrorKind;

#[test]
fn client_packet_round_trips_through_server() {
    let packet: Vec<u8> = (0..100u8).collect();
    let query = client_packet_to_query(0x0102, &packet, "tunnel.example").unwrap();
    let mut drops = DropCounters::new();
    let q = accept_query(&query, "tunnel.example", &mut drops).unwrap();
    assert_eq!(q.id, 0x0102);
    assert!(q.rd);
    assert!(!q.cd);
    assert_eq!(q.payload, packet);

    let reply: Vec<u8> = (0..200u8).rev().collect();
    let response = server_packet_to_response(&q, &reply).unwrap();
    let d = accept_response(&response, &mut drops).unwrap();
    assert_eq!(d.id, 0x0102);
    assert_eq!(d.question.name, q.question.name);
    assert_eq!(d.payload, Some(reply));
    assert_eq!(drops.count(CodecErrorKind::ShortBuffer), 0);
}

#[test]
fn empty_server_packet_is_nodata() {
    let query = client_packet_to_query(9, b"x", "t.io").unwrap();
    let mut drops = DropCounters::new();
    let q = accept_query(&query, "t.io", &mut drops).unwrap();
    let response = server_packet_to_response(&q, &[]).unwrap();
    let d = accept_response(&response, &mut drops).unwrap();
    assert_eq!(d.payload, None);
    assert_eq!(d.rcode, 0);
}

#[test]
fn oversized_client_packet_is_refused() {
    let packet = vec![1u8; 146];
    assert_eq!(
        client_packet_to_query(1, &packet, "test.com").unwrap_err().kind,
        CodecErrorKind::QnameTooLong
    );
}

#[test]
fn bad_datagrams_are_counted_by_kind() {
    let mut drops = DropCounters::new();
    assert!(accept_query(&[1, 2, 3], "test.com", &mut drops).is_none());
    assert!(accept_response(&[1, 2], &mut drops).is_none());
    let query = client_packet_to_query(3, b"abc", "test.com").unwrap();
    assert!(accept_query(&query, "other.org", &mut drops).is_none());
    assert!(accept_response(&query, &mut drops).is_none());
    assert_eq!(drops.count(CodecErrorKind::ShortBuffer), 2);
    assert_eq!(drops.count(CodecErrorKind::DomainMismatch), 1);
    assert_eq!(drops.count(CodecErrorKind::WrongDirection), 1);
    assert_eq!(drops.count(CodecErrorKind::BadLabel), 0);
}
