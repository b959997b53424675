//! Client for the cjdns admin RPC protocol: a verified bencode wire codec,
//! a result envelope translator, a pagination engine, and a small message
//! catalog, spoken over a caller-supplied datagram transport.
use vstd::prelude::*;

pub mod bencode;
pub mod errors;
pub mod net;
pub mod structs;

pub use errors::{ApiError, Error};
pub use structs::decode;

use net::CjdnsNetSocket;
use structs::{
    CjdnsMsg, CjdnsMsgArgs, CjdnsPage, CjdnsResult, Node, NodeStore, PeerStats, Pong, WireDecode,
    decode_ref, spec_decode, sentinel_none,
};

verus! {

/// The views of the accumulated pages.
pub open spec fn page_views<T: View>(xs: Seq<T>) -> Seq<T::V> {
    xs.map_values(|x: T| x@)
}

/// A buffer that decodes as a page marker whose `more` field is present.
pub open spec fn page_has_more(s: Seq<u8>) -> bool {
    spec_decode::<CjdnsPage>(s) matches Some(p) && p.more is Some
}

/// What a finished pagination run looks like: one received buffer per
/// accumulated page, each buffer decoding both as a page marker and as the
/// page type, `more` present on every page but the last, and absent there.
pub open spec fn paged_run<T: WireDecode>(bufs: Seq<Seq<u8>>, views: Seq<T::V>) -> bool {
    &&& bufs.len() == views.len()
    &&& bufs.len() >= 1
    &&& forall|k: int| 0 <= k < bufs.len() ==> spec_decode::<T>(#[trigger] bufs[k]) == Some(
        views[k],
    )
    &&& forall|k: int| 0 <= k < bufs.len() ==> spec_decode::<CjdnsPage>(#[trigger] bufs[k]) is Some
    &&& forall|k: int| 0 <= k < bufs.len() - 1 ==> page_has_more(#[trigger] bufs[k])
    &&& !page_has_more(bufs[bufs.len() - 1])
}

/// The socket that talks to the admin API over a caller-supplied transport.
pub struct Socket<S: CjdnsNetSocket> {
    socket: S,
}

impl<S: CjdnsNetSocket> Socket<S> {
    /// Wraps a connected transport.
    pub fn new(socket: S) -> (r: Socket<S>) {
        Socket { socket }
    }

    /// Encodes a request and sends it as one datagram; the byte count is
    /// whatever the transport reports.
    pub fn send(&self, msg: &CjdnsMsg) -> Result<usize, Error> {
        let buf = match msg.encode() {
            Ok(b) => b,
            Err(e) => {
                return Err(e);
            },
        };
        self.socket.send(buf.as_slice())
    }

    /// Sends raw bytes unchanged.
    pub fn send_raw(&self, buf: Vec<u8>) -> Result<usize, Error> {
        self.socket.send(buf.as_slice())
    }

    /// Receives raw bytes unchanged.
    pub fn recv_raw(&self) -> Result<Vec<u8>, Error> {
        self.socket.recv()
    }

    /// Receives one datagram and decodes it as `T`. Whatever the transport
    /// returned, a value is handed back only if its buffer decoded to it.
    pub fn recv<T: WireDecode>(&self) -> (r: Result<T, Error>)
        ensures
            r matches Ok(v) ==> exists|s: Seq<u8>| spec_decode::<T>(s) == Some(v@),
    {
        let buf = match self.socket.recv() {
            Ok(b) => b,
            Err(e) => {
                return Err(e);
            },
        };
        let r = decode_ref::<T>(&buf);
        proof {
            if r is Ok {
                assert(spec_decode::<T>(buf@) == Some(r->Ok_0@));
            }
        }
        r
    }

    /// Receives one enveloped datagram and translates it: a value comes back
    /// only from a buffer that decoded to an envelope carrying the success
    /// sentinel and that value; any other envelope becomes an API error.
    pub fn recv_result<T: WireDecode>(&self) -> (r: Result<T, Error>)
        ensures
            r matches Ok(v) ==> exists|s: Seq<u8>|
                ((#[trigger] spec_decode::<CjdnsResult<T>>(s)) matches Some(env) && env.error
                    == sentinel_none() && env.result == v@),
    {
        let x: CjdnsResult<T> = match self.recv::<CjdnsResult<T>>() {
            Ok(x) => x,
            Err(e) => {
                return Err(e);
            },
        };
        let ghost xv = x@;
        match x.to_result() {
            Ok(v) => {
                proof {
                    let s = choose|s: Seq<u8>|
                        spec_decode::<CjdnsResult<T>>(s) == Some(xv);
                    assert(spec_decode::<CjdnsResult<T>>(s) matches Some(env) && env.error
                        == sentinel_none() && env.result == v@);
                }
                Ok(v)
            },
            Err(a) => Err(Error::Api(a)),
        }
    }

    /// Drives the pagination engine: reissues `msg` with page indices 0, 1,
    /// 2, ... until a response's page marker lacks `more`, keeping one
    /// decoded page per response. Every page's buffer is decoded twice,
    /// independently: once as the page marker, once as the page itself. The
    /// whole run is abandoned on the first transport or decode failure, and
    /// a server that always reports `more` is never cut off.
    pub fn recv_all<T: WireDecode>(&self, msg: &mut CjdnsMsg) -> (r: Result<Vec<T>, Error>)
        ensures
            final(msg)@.q == old(msg)@.q,
            r matches Ok(pages) ==> pages@.len() >= 1 && exists|bufs: Seq<Seq<u8>>|
                paged_run::<T>(bufs, page_views(pages@)),
    {
        let mut ctr: u64 = 0;
        let mut pages: Vec<T> = Vec::new();
        let ghost mut bufs: Seq<Seq<u8>> = Seq::empty();
        loop
            invariant
                msg@.q == old(msg)@.q,
                ctr as int == bufs.len(),
                pages@.len() == bufs.len(),
                forall|k: int| 0 <= k < bufs.len() ==> spec_decode::<T>(#[trigger] bufs[k]) == Some(
                    pages@[k]@,
                ),
                forall|k: int| 0 <= k < bufs.len() ==> spec_decode::<CjdnsPage>(
                    #[trigger] bufs[k],
                ) is Some && page_has_more(bufs[k]),
            decreases u64::MAX - ctr,
        {
            msg.with_args(CjdnsMsgArgs::new().with_page(ctr));
            match self.send(msg) {
                Ok(_) => {},
                Err(e) => {
                    return Err(e);
                },
            }
            let buf = match self.socket.recv() {
                Ok(b) => b,
                Err(e) => {
                    return Err(e);
                },
            };
            let page: CjdnsPage = match decode_ref::<CjdnsPage>(&buf) {
                Ok(p) => p,
                Err(e) => {
                    return Err(e);
                },
            };
            let obj: T = match decode_ref::<T>(&buf) {
                Ok(o) => o,
                Err(e) => {
                    return Err(e);
                },
            };
            let ghost oldpages = pages@;
            let ghost oldbufs = bufs;
            pages.push(obj);
            proof {
                bufs = bufs.push(buf@);
            }
            if !page.has_more() {
                proof {
                    assert forall|k: int| 0 <= k < bufs.len() implies spec_decode::<T>(
                        #[trigger] bufs[k],
                    ) == Some(page_views(pages@)[k]) by {
                        if k < bufs.len() - 1 {
                            assert(bufs[k] == oldbufs[k]);
                            assert(pages@[k] == oldpages[k]);
                        }
                    }
                    assert(paged_run::<T>(bufs, page_views(pages@)));
                }
                return Ok(pages);
            }
            if ctr == u64::MAX {
                return Err(Error::PageLimit);
            }
            proof {
                assert forall|k: int| 0 <= k < bufs.len() implies spec_decode::<T>(
                    #[trigger] bufs[k],
                ) == Some(pages@[k]@) && spec_decode::<CjdnsPage>(bufs[k]) is Some
                    && page_has_more(bufs[k]) by {
                    if k < bufs.len() - 1 {
                        assert(bufs[k] == oldbufs[k]);
                        assert(pages@[k] == oldpages[k]);
                    }
                }
            }
            ctr = ctr + 1;
        }
    }

    /// Sends `ping` and decodes the reply.
    pub fn ping(&self) -> (r: Result<Pong, Error>)
        ensures
            r matches Ok(v) ==> exists|s: Seq<u8>| spec_decode::<Pong>(s) == Some(v@),
    {
        let name: [u8; 4] = [112, 105, 110, 103];
        let msg = CjdnsMsg::new(name.as_slice());
        match self.send(&msg) {
            Ok(_) => {},
            Err(e) => {
                return Err(e);
            },
        }
        self.recv()
    }

    /// Fetches a single page of peer statistics.
    pub fn interfacecontroller_peer_stats(&self) -> (r: Result<PeerStats, Error>)
        ensures
            r matches Ok(v) ==> exists|s: Seq<u8>| spec_decode::<PeerStats>(s) == Some(v@),
    {
        let name: [u8; 29] = [
            73, 110, 116, 101, 114, 102, 97, 99, 101, 67, 111, 110, 116, 114, 111, 108, 108, 101,
            114, 95, 112, 101, 101, 114, 83, 116, 97, 116, 115,
        ];
        let msg = CjdnsMsg::new(name.as_slice());
        match self.send(&msg) {
            Ok(_) => {},
            Err(e) => {
                return Err(e);
            },
        }
        self.recv()
    }

    /// Fetches every page of peer statistics through the pagination engine.
    pub fn peer_stats(&self) -> (r: Result<Vec<PeerStats>, Error>)
        ensures
            r matches Ok(pages) ==> pages@.len() >= 1 && exists|bufs: Seq<Seq<u8>>|
                paged_run::<PeerStats>(bufs, page_views(pages@)),
    {
        let name: [u8; 29] = [
            73, 110, 116, 101, 114, 102, 97, 99, 101, 67, 111, 110, 116, 114, 111, 108, 108, 101,
            114, 95, 112, 101, 101, 114, 83, 116, 97, 116, 115,
        ];
        let mut msg = CjdnsMsg::new(name.as_slice());
        self.recv_all(&mut msg)
    }

    /// Fetches a single page of the routing table dump.
    pub fn nodestore_dump_table(&self) -> (r: Result<NodeStore, Error>)
        ensures
            r matches Ok(v) ==> exists|s: Seq<u8>| spec_decode::<NodeStore>(s) == Some(v@),
    {
        let name: [u8; 19] = [
            78, 111, 100, 101, 83, 116, 111, 114, 101, 95, 100, 117, 109, 112, 84, 97, 98, 108,
            101,
        ];
        let msg = CjdnsMsg::new(name.as_slice());
        match self.send(&msg) {
            Ok(_) => {},
            Err(e) => {
                return Err(e);
            },
        }
        self.recv()
    }

    /// Fetches every page of the routing table dump.
    pub fn dump_table(&self) -> (r: Result<Vec<NodeStore>, Error>)
        ensures
            r matches Ok(pages) ==> pages@.len() >= 1 && exists|bufs: Seq<Seq<u8>>|
                paged_run::<NodeStore>(bufs, page_views(pages@)),
    {
        let name: [u8; 19] = [
            78, 111, 100, 101, 83, 116, 111, 114, 101, 95, 100, 117, 109, 112, 84, 97, 98, 108,
            101,
        ];
        let mut msg = CjdnsMsg::new(name.as_slice());
        self.recv_all(&mut msg)
    }

    /// Looks a node up; the endpoint reports success or failure through the
    /// result envelope, so the reply runs through the envelope translator.
    pub fn nodestore_node_for_addr(&self) -> (r: Result<Node, Error>)
        ensures
            r matches Ok(v) ==> exists|s: Seq<u8>|
                ((#[trigger] spec_decode::<CjdnsResult<Node>>(s)) matches Some(env) && env.error
                    == sentinel_none() && env.result == v@),
    {
        let name: [u8; 21] = [
            78, 111, 100, 101, 83, 116, 111, 114, 101, 95, 110, 111, 100, 101, 70, 111, 114, 65,
            100, 100, 114,
        ];
        let msg = CjdnsMsg::new(name.as_slice());
        match self.send(&msg) {
            Ok(_) => {},
            Err(e) => {
                return Err(e);
            },
        }
        self.recv_result()
    }
}

} // verus!
