use cjdns::decode;
use cjdns::errors::{ApiError, Error};
use cjdns::structs::{
    CjdnsMsg, CjdnsMsgArgs, CjdnsPage, CjdnsResult, EncodingScheme, Node, NodeStore, Parent, Peer,
    PeerStats, Pong, Route,
};

#[test]
fn it_works() {}

#[test]
fn ping_request_encodes_to_literal_bytes() {
    let msg = CjdnsMsg::new(b"ping");
    let buf = msg.encode().unwrap();
    assert_eq!(buf, b"d1:q4:pinge".to_vec());
}

#[test]
fn request_with_page_encodes_args_before_q() {
    let mut msg = CjdnsMsg::new(b"stats");
    msg.with_args(CjdnsMsgArgs::new().with_page(7));
    let buf = msg.encode().unwrap();
    assert_eq!(buf, b"d4:argsd4:pagei7ee1:q5:statse".to_vec());
}

#[test]
fn new_with_args_encodes_like_with_args() {
    let a = CjdnsMsg::new_with_args(b"stats", CjdnsMsgArgs::new().with_page(0));
    let mut b = CjdnsMsg::new(b"stats");
    b.with_args(CjdnsMsgArgs::new().with_page(0));
    assert_eq!(a.encode().unwrap(), b.encode().unwrap());
    assert_eq!(a.encode().unwrap(), b"d4:argsd4:pagei0ee1:q5:statse".to_vec());
}

#[test]
fn pong_decodes_from_literal_bytes() {
    let x: Pong = decode(b"d1:q4:ponge".to_vec()).unwrap();
    assert_eq!(x.q, b"pong".to_vec());
}

#[test]
fn pong_without_q_fails_with_decode_error() {
    let r: Result<Pong, Error> = decode(b"d4:morei1ee".to_vec());
    assert_eq!(r.unwrap_err(), Error::Decode);
    let r: Result<Pong, Error> = decode(b"de".to_vec());
    assert_eq!(r.unwrap_err(), Error::Decode);
}

#[test]
fn pong_with_wrong_q_type_fails() {
    let r: Result<Pong, Error> = decode(b"d1:qi3ee".to_vec());
    assert_eq!(r.unwrap_err(), Error::Decode);
}

#[test]
fn trailing_bytes_fail() {
    let r: Result<Pong, Error> = decode(b"d1:q4:pongee".to_vec());
    assert_eq!(r.unwrap_err(), Error::Decode);
}

#[test]
fn unknown_keys_are_skipped_in_any_order() {
    let x: Pong = decode(b"d5:extrali1ei2ee1:q4:ponge".to_vec()).unwrap();
    assert_eq!(x.q, b"pong".to_vec());
    let x: Pong = decode(b"d1:q4:pong5:extrad1:ai1eee".to_vec()).unwrap();
    assert_eq!(x.q, b"pong".to_vec());
}

#[test]
fn first_occurrence_of_a_key_wins() {
    let x: Pong = decode(b"d1:q4:pong1:q3:xyze".to_vec()).unwrap();
    assert_eq!(x.q, b"pong".to_vec());
}

#[test]
fn page_marker_reads_more_independently_of_value() {
    let p: CjdnsPage = decode(b"d4:morei0ee".to_vec()).unwrap();
    assert!(p.has_more());
    assert_eq!(p.more, Some(0));
    let p: CjdnsPage = decode(b"d4:morei7ee".to_vec()).unwrap();
    assert!(p.has_more());
    let p: CjdnsPage = decode(b"d1:q4:ponge".to_vec()).unwrap();
    assert!(!p.has_more());
    assert_eq!(p.more, None);
}

#[test]
fn page_marker_with_string_more_fails() {
    let r: Result<CjdnsPage, Error> = decode(b"d4:more3:yese".to_vec());
    assert_eq!(r.unwrap_err(), Error::Decode);
}

#[test]
fn route_round_trips_through_bytes() {
    let buf = b"d4:addr2:ab6:bucketi1e4:linki2e4:timei3ee".to_vec();
    let r: Route = decode(buf).unwrap();
    assert_eq!(r.addr, b"ab".to_vec());
    assert_eq!(r.bucket, 1);
    assert_eq!(r.link, 2);
    assert_eq!(r.time, 3);
}

#[test]
fn route_with_missing_field_fails() {
    let r: Result<Route, Error> = decode(b"d4:addr2:ab6:bucketi1e4:linki2ee".to_vec());
    assert_eq!(r.unwrap_err(), Error::Decode);
}

#[test]
fn nodestore_decodes_routing_table() {
    let buf = b"d12:routingTableld4:addr1:a6:bucketi1e4:linki2e4:timei3eed4:addr1:b6:bucketi4e4:linki5e4:timei6eeee".to_vec();
    let ns: NodeStore = decode(buf).unwrap();
    assert_eq!(ns.routingTable.len(), 2);
    assert_eq!(ns.routingTable[0].addr, b"a".to_vec());
    assert_eq!(ns.routingTable[1].time, 6);
}

#[test]
fn nodestore_empty_table_decodes() {
    let ns: NodeStore = decode(b"d12:routingTablelee".to_vec()).unwrap();
    assert_eq!(ns.routingTable.len(), 0);
}

#[test]
fn nodestore_with_bad_row_fails() {
    let r: Result<NodeStore, Error> = decode(b"d12:routingTableld4:addr1:aeee".to_vec());
    assert_eq!(r.unwrap_err(), Error::Decode);
}

fn peer_bytes() -> Vec<u8> {
    let mut s = String::from("d");
    s.push_str("4:addr4:fc00");
    s.push_str("7:bytesIni1e");
    s.push_str("8:bytesOuti2e");
    s.push_str("10:duplicatesi3e");
    s.push_str("10:isIncomingi4e");
    s.push_str("4:lasti5e");
    s.push_str("11:lostPacketsi6e");
    s.push_str("18:receivedOutOfRangei7e");
    s.push_str("8:recvKbpsi8e");
    s.push_str("8:sendKbpsi9e");
    s.push_str("5:state11:ESTABLISHED");
    s.push_str("4:user2:me");
    s.push('e');
    s.into_bytes()
}

#[test]
fn peer_decodes_every_field() {
    let p: Peer = decode(peer_bytes()).unwrap();
    assert_eq!(p.addr, b"fc00".to_vec());
    assert_eq!(p.bytesIn, 1);
    assert_eq!(p.bytesOut, 2);
    assert_eq!(p.duplicates, 3);
    assert_eq!(p.isIncoming, 4);
    assert_eq!(p.last, 5);
    assert_eq!(p.lostPackets, 6);
    assert_eq!(p.receivedOutOfRange, 7);
    assert_eq!(p.recvKbps, 8);
    assert_eq!(p.sendKbps, 9);
    assert_eq!(p.state, b"ESTABLISHED".to_vec());
    assert_eq!(p.user, b"me".to_vec());
}

#[test]
fn peer_stats_decodes_peer_list() {
    let mut buf = b"d5:peersl".to_vec();
    buf.extend_from_slice(&peer_bytes());
    buf.extend_from_slice(&peer_bytes());
    buf.extend_from_slice(b"ee");
    let ps: PeerStats = decode(buf).unwrap();
    assert_eq!(ps.peers.len(), 2);
    assert_eq!(ps.peers[1].sendKbps, 9);
}

#[test]
fn peer_integer_span_covers_u64_range() {
    let buf = b"d4:addr0:7:bytesIni18446744073709551615e8:bytesOuti0e10:duplicatesi0e10:isIncomingi0e4:lasti0e11:lostPacketsi0e18:receivedOutOfRangei0e8:recvKbpsi0e8:sendKbpsi0e5:state0:4:user0:e".to_vec();
    let p: Peer = decode(buf).unwrap();
    assert_eq!(p.bytesIn, u64::MAX);
    assert_eq!(p.addr, Vec::<u8>::new());
}

#[test]
fn integer_above_u64_range_fails() {
    let r: Result<CjdnsPage, Error> = decode(b"d4:morei18446744073709551616ee".to_vec());
    assert_eq!(r.unwrap_err(), Error::Decode);
}

fn node_result_bytes(error: &str) -> Vec<u8> {
    let mut s = String::from("d");
    s.push_str(&format!("5:error{}:{}", error.len(), error));
    s.push_str("6:result");
    s.push_str("d");
    s.push_str("10:bestParentd2:ip4:fc018:isOneHopi1e16:parentChildLabel4:0000e");
    s.push_str("4:costi10e");
    s.push_str("14:encodingSchemeld8:bitCounti3e6:prefix2:019:prefixLeni4eee");
    s.push_str("3:key3:abc");
    s.push_str("9:linkCounti2e");
    s.push_str("15:protocolVersioni17e");
    s.push_str("10:routeLabel6:0.0.01");
    s.push_str("e");
    s.push('e');
    s.into_bytes()
}

#[test]
fn node_envelope_decodes_and_translates() {
    let env: CjdnsResult<Node> = decode(node_result_bytes("none")).unwrap();
    assert_eq!(env.error, b"none".to_vec());
    let node = env.to_result().unwrap();
    assert_eq!(node.bestParent.ip, b"fc01".to_vec());
    assert_eq!(node.bestParent.isOneHop, 1);
    assert_eq!(node.bestParent.parentChildLabel, b"0000".to_vec());
    assert_eq!(node.encodingScheme.len(), 1);
    assert_eq!(node.encodingScheme[0].bitCount, 3);
    assert_eq!(node.encodingScheme[0].prefix, b"01".to_vec());
    assert_eq!(node.encodingScheme[0].prefixLen, 4);
    assert_eq!(node.cost, 10);
    assert_eq!(node.key, b"abc".to_vec());
    assert_eq!(node.linkCount, 2);
    assert_eq!(node.protocolVersion, 17);
    assert_eq!(node.routeLabel, b"0.0.01".to_vec());
}

#[test]
fn envelope_sentinel_success_yields_result() {
    let env: CjdnsResult<u64> = CjdnsResult { error: b"none".to_vec(), result: 5 };
    assert_eq!(env.to_result().unwrap(), 5);
}

#[test]
fn envelope_other_error_yields_failure_with_message() {
    let env: CjdnsResult<u64> = CjdnsResult { error: b"timeout".to_vec(), result: 0 };
    let err = env.to_result().unwrap_err();
    assert_eq!(err, ApiError::new(b"timeout".to_vec()));
    assert_eq!(err.error, b"timeout".to_vec());
}

#[test]
fn envelope_sentinel_is_exact_and_case_sensitive() {
    let env: CjdnsResult<u64> = CjdnsResult { error: b"None".to_vec(), result: 1 };
    assert!(env.to_result().is_err());
    let env: CjdnsResult<u64> = CjdnsResult { error: b"none ".to_vec(), result: 1 };
    assert!(env.to_result().is_err());
    let env: CjdnsResult<u64> = CjdnsResult { error: b"".to_vec(), result: 1 };
    assert!(env.to_result().is_err());
}

#[test]
fn envelope_decode_requires_both_fields() {
    let r: Result<CjdnsResult<Pong>, Error> = decode(b"d5:error4:nonee".to_vec());
    assert_eq!(r.unwrap_err(), Error::Decode);
    let r: Result<CjdnsResult<Pong>, Error> = decode(b"d6:resultd1:q4:pongeee".to_vec());
    assert_eq!(r.unwrap_err(), Error::Decode);
}

#[test]
fn decoders_accept_unsorted_dictionaries() {
    let r: Route = decode(b"d4:timei3e4:linki2e6:bucketi1e4:addr2:abe".to_vec()).unwrap();
    assert_eq!(r.addr, b"ab".to_vec());
    assert_eq!(r.time, 3);
}

#[test]
fn strings_may_hold_arbitrary_bytes() {
    let mut buf = b"d1:q4:".to_vec();
    buf.extend_from_slice(&[0u8, 255, 254, 10]);
    buf.push(b'e');
    let x: Pong = decode(buf).unwrap();
    assert_eq!(x.q, vec![0u8, 255, 254, 10]);
}

#[test]
fn encoding_scheme_decodes_alone() {
    let e: EncodingScheme = decode(b"d8:bitCounti3e6:prefix2:019:prefixLeni4ee".to_vec()).unwrap();
    assert_eq!(e.bitCount, 3);
    assert_eq!(e.prefix, b"01".to_vec());
    assert_eq!(e.prefixLen, 4);
}

#[test]
fn parent_decodes_alone() {
    let p: Parent = decode(b"d2:ip4:fc018:isOneHopi0e16:parentChildLabel2:abe".to_vec()).unwrap();
    assert_eq!(p.ip, b"fc01".to_vec());
    assert_eq!(p.isOneHop, 0);
    assert_eq!(p.parentChildLabel, b"ab".to_vec());
}

#[test]
fn integers_with_leading_zeros_are_read_by_value() {
    let p: CjdnsPage = decode(b"d4:morei007ee".to_vec()).unwrap();
    assert_eq!(p.more, Some(7));
}

#[test]
fn negative_integers_are_not_part_of_the_wire_format() {
    let r: Result<CjdnsPage, Error> = decode(b"d4:morei-3ee".to_vec());
    assert_eq!(r.unwrap_err(), Error::Decode);
}

#[test]
fn empty_buffer_fails_to_decode() {
    let r: Result<Pong, Error> = decode(Vec::new());
    assert_eq!(r.unwrap_err(), Error::Decode);
}
