use std::cell::RefCell;

use cjdns::errors::{ApiError, Error};
use cjdns::net::CjdnsNetSocket;
use cjdns::structs::{CjdnsMsg, CjdnsPage, PeerStats};
use cjdns::Socket;

/// A transport double: hands back scripted responses in order and records
/// every datagram sent through it.
struct ScriptedSocket {
    sent: RefCell<Vec<Vec<u8>>>,
    responses: RefCell<Vec<Vec<u8>>>,
}

impl ScriptedSocket {
    fn new(responses: Vec<Vec<u8>>) -> ScriptedSocket {
        ScriptedSocket { sent: RefCell::new(Vec::new()), responses: RefCell::new(responses) }
    }
}

impl CjdnsNetSocket for &ScriptedSocket {
    fn send(&self, buf: &[u8]) -> Result<usize, Error> {
        self.sent.borrow_mut().push(buf.to_vec());
        Ok(buf.len())
    }

    fn recv(&self) -> Result<Vec<u8>, Error> {
        let mut rs = self.responses.borrow_mut();
        if rs.is_empty() {
            Err(Error::Io(b"no response scripted".to_vec()))
        } else {
            Ok(rs.remove(0))
        }
    }
}

fn node_result_bytes(error: &str) -> Vec<u8> {
    let mut s = String::from("d");
    s.push_str(&format!("5:error{}:{}", error.len(), error));
    s.push_str("6:result");
    s.push_str("d");
    s.push_str("10:bestParentd2:ip4:fc018:isOneHopi1e16:parentChildLabel4:0000e");
    s.push_str("4:costi10e");
    s.push_str("14:encodingSchemeld8:bitCounti3e6:prefix2:019:prefixLeni4eee");
    s.push_str("3:key3:abc");
    s.push_str("9:linkCounti2e");
    s.push_str("15:protocolVersioni17e");
    s.push_str("10:routeLabel6:0.0.01");
    s.push_str("e");
    s.push('e');
    s.into_bytes()
}

#[test]
fn pagination_terminates_after_three_pages() {
    let transport = ScriptedSocket::new(vec![
        b"d4:morei1ee".to_vec(),
        b"d4:morei1ee".to_vec(),
        b"de".to_vec(),
    ]);
    let sock = Socket::new(&transport);
    let mut msg = CjdnsMsg::new(b"stats");
    let pages: Vec<CjdnsPage> = sock.recv_all(&mut msg).unwrap();
    assert_eq!(pages.len(), 3);
    assert!(pages[0].has_more());
    assert!(pages[1].has_more());
    assert!(!pages[2].has_more());
    let sent = transport.sent.borrow();
    assert_eq!(sent.len(), 3);
    assert_eq!(sent[0], b"d4:argsd4:pagei0ee1:q5:statse".to_vec());
    assert_eq!(sent[1], b"d4:argsd4:pagei1ee1:q5:statse".to_vec());
    assert_eq!(sent[2], b"d4:argsd4:pagei2ee1:q5:statse".to_vec());
}

#[test]
fn pagination_single_page_sends_one_request() {
    let transport = ScriptedSocket::new(vec![b"d1:q4:ponge".to_vec()]);
    let sock = Socket::new(&transport);
    let mut msg = CjdnsMsg::new(b"stats");
    let pages: Vec<CjdnsPage> = sock.recv_all(&mut msg).unwrap();
    assert_eq!(pages.len(), 1);
    assert!(!pages[0].has_more());
    let sent = transport.sent.borrow();
    assert_eq!(sent.len(), 1);
    assert_eq!(sent[0], b"d4:argsd4:pagei0ee1:q5:statse".to_vec());
}

#[test]
fn pagination_keeps_first_page_even_when_empty() {
    let transport = ScriptedSocket::new(vec![b"d5:peerslee".to_vec()]);
    let sock = Socket::new(&transport);
    let mut msg = CjdnsMsg::new(b"stats");
    let pages: Vec<PeerStats> = sock.recv_all(&mut msg).unwrap();
    assert_eq!(pages.len(), 1);
    assert_eq!(pages[0].peers.len(), 0);
}

#[test]
fn pagination_aborts_on_decode_failure() {
    let transport = ScriptedSocket::new(vec![
        b"d4:morei1ee".to_vec(),
        b"not bencode".to_vec(),
    ]);
    let sock = Socket::new(&transport);
    let mut msg = CjdnsMsg::new(b"stats");
    let r: Result<Vec<CjdnsPage>, Error> = sock.recv_all(&mut msg);
    assert_eq!(r.unwrap_err(), Error::Decode);
}

#[test]
fn pagination_aborts_on_transport_failure() {
    let transport = ScriptedSocket::new(vec![b"d4:morei1ee".to_vec()]);
    let sock = Socket::new(&transport);
    let mut msg = CjdnsMsg::new(b"stats");
    let r: Result<Vec<CjdnsPage>, Error> = sock.recv_all(&mut msg);
    assert_eq!(r.unwrap_err(), Error::Io(b"no response scripted".to_vec()));
}

#[test]
fn ping_sends_literal_request_and_decodes_pong() {
    let transport = ScriptedSocket::new(vec![b"d1:q4:ponge".to_vec()]);
    let sock = Socket::new(&transport);
    let pong = sock.ping().unwrap();
    assert_eq!(pong.q, b"pong".to_vec());
    assert_eq!(*transport.sent.borrow(), vec![b"d1:q4:pinge".to_vec()]);
}

#[test]
fn node_for_addr_returns_node_on_success_envelope() {
    let transport = ScriptedSocket::new(vec![node_result_bytes("none")]);
    let sock = Socket::new(&transport);
    let node = sock.nodestore_node_for_addr().unwrap();
    assert_eq!(node.cost, 10);
    assert_eq!(node.bestParent.ip, b"fc01".to_vec());
    assert_eq!(
        *transport.sent.borrow(),
        vec![b"d1:q21:NodeStore_nodeForAddre".to_vec()]
    );
}

#[test]
fn node_for_addr_translates_error_envelope() {
    let transport = ScriptedSocket::new(vec![node_result_bytes("timeout")]);
    let sock = Socket::new(&transport);
    let r = sock.nodestore_node_for_addr();
    assert_eq!(
        r.unwrap_err(),
        Error::Api(ApiError::new(b"timeout".to_vec()))
    );
}

#[test]
fn interfacecontroller_peer_stats_sends_its_method_name() {
    let transport = ScriptedSocket::new(vec![b"d5:peerslee".to_vec()]);
    let sock = Socket::new(&transport);
    let page = sock.interfacecontroller_peer_stats().unwrap();
    assert_eq!(page.peers.len(), 0);
    assert_eq!(
        *transport.sent.borrow(),
        vec![b"d1:q29:InterfaceController_peerStatse".to_vec()]
    );
}

#[test]
fn dump_table_accumulates_route_pages() {
    let transport = ScriptedSocket::new(vec![
        b"d4:morei1e12:routingTableld4:addr1:a6:bucketi1e4:linki2e4:timei3eeee".to_vec(),
        b"d12:routingTablelee".to_vec(),
    ]);
    let sock = Socket::new(&transport);
    let pages = sock.dump_table().unwrap();
    assert_eq!(pages.len(), 2);
    assert_eq!(pages[0].routingTable.len(), 1);
    assert_eq!(pages[0].routingTable[0].addr, b"a".to_vec());
    assert_eq!(pages[1].routingTable.len(), 0);
    let sent = transport.sent.borrow();
    assert_eq!(sent[0], b"d4:argsd4:pagei0ee1:q19:NodeStore_dumpTablee".to_vec());
    assert_eq!(sent[1], b"d4:argsd4:pagei1ee1:q19:NodeStore_dumpTablee".to_vec());
}

#[test]
fn peer_stats_accumulates_pages_of_peers() {
    let page = |more: bool| {
        let mut s = String::from("d");
        if more {
            s.push_str("4:morei1e");
        }
        s.push_str("5:peersl");
        s.push_str("d4:addr4:fc007:bytesIni1e8:bytesOuti2e10:duplicatesi3e10:isIncomingi4e");
        s.push_str("4:lasti5e11:lostPacketsi6e18:receivedOutOfRangei7e8:recvKbpsi8e");
        s.push_str("8:sendKbpsi9e5:state11:ESTABLISHED4:user2:me");
        s.push('e');
        s.push('e');
        s.push('e');
        s.into_bytes()
    };
    let transport = ScriptedSocket::new(vec![page(true), page(false)]);
    let sock = Socket::new(&transport);
    let pages = sock.peer_stats().unwrap();
    assert_eq!(pages.len(), 2);
    assert_eq!(pages[0].peers.len(), 1);
    assert_eq!(pages[0].peers[0].addr, b"fc00".to_vec());
    let sent = transport.sent.borrow();
    assert_eq!(sent.len(), 2);
    assert!(sent[0].starts_with(b"d4:argsd4:pagei0ee"));
    assert!(sent[1].starts_with(b"d4:argsd4:pagei1ee"));
}

#[test]
fn send_raw_and_recv_raw_pass_bytes_unchanged() {
    let transport = ScriptedSocket::new(vec![b"raw reply".to_vec()]);
    let sock = Socket::new(&transport);
    let n = sock.send_raw(b"raw bytes".to_vec()).unwrap();
    assert_eq!(n, 9);
    assert_eq!(sock.recv_raw().unwrap(), b"raw reply".to_vec());
    assert_eq!(*transport.sent.borrow(), vec![b"raw bytes".to_vec()]);
}

#[test]
fn recv_decodes_one_datagram() {
    let transport = ScriptedSocket::new(vec![b"d1:q4:ponge".to_vec()]);
    let sock = Socket::new(&transport);
    let pong: cjdns::structs::Pong = sock.recv().unwrap();
    assert_eq!(pong.q, b"pong".to_vec());
}
