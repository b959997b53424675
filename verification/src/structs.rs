//! The message catalog: typed request and response shapes, their wire
//! models, the generic decoder entry point and the result envelope.
use vstd::prelude::*;
use crate::bencode::{
    BVal, spec_parse, spec_enc, spec_enc_bytes, spec_enc_pairs, dict_get,
    parse_dict_at, get_bytes, get_u64, get_opt_u64, get_pos, entries_match, bytes_eq, push_int,
    push_bytes,
};
use crate::errors::{ApiError, Error};

verus! {

pub open spec fn key_q() -> Seq<u8> {
    seq![113u8]
}

pub open spec fn key_args() -> Seq<u8> {
    seq![97u8, 114, 103, 115]
}

pub open spec fn key_page() -> Seq<u8> {
    seq![112u8, 97, 103, 101]
}

pub open spec fn key_more() -> Seq<u8> {
    seq![109u8, 111, 114, 101]
}

pub open spec fn key_error() -> Seq<u8> {
    seq![101u8, 114, 114, 111, 114]
}

pub open spec fn key_result() -> Seq<u8> {
    seq![114u8, 101, 115, 117, 108, 116]
}

/// The success sentinel of the result envelope: the exact bytes `none`.
pub open spec fn sentinel_none() -> Seq<u8> {
    seq![110u8, 111, 110, 101]
}

/// A decodable message shape: a ghost reading of wire values into the
/// type's view, and an executable decoder proved to agree with it.
pub trait WireDecode: View + Sized {
    /// Which view, if any, the given wire value decodes to.
    spec fn of_bval(v: BVal) -> Option<Self::V>;

    /// Decodes the wire value starting at `i`; fails exactly where no wire
    /// value sits there or where it does not have this type's shape.
    fn wire_decode_at(s: &[u8], i: usize) -> (r: Result<(Self, usize), Error>)
        requires
            i <= s@.len(),
        ensures
            (match r {
                Ok((x, j)) => (spec_parse(s@, i as int) matches Some(p) && p.1 == j as int
                    && Self::of_bval(p.0) == Some(x@)) && i < j <= s@.len(),
                Err(e) => e == Error::Decode && !(spec_parse(s@, i as int) matches Some(p)
                    && Self::of_bval(p.0) is Some),
            }),
    ;
}

/// The view a whole buffer decodes to: one wire value spanning every byte,
/// read as `A`.
pub open spec fn spec_decode<A: WireDecode>(s: Seq<u8>) -> Option<A::V> {
    match spec_parse(s, 0) {
        Some((v, j)) => if j == s.len() {
            A::of_bval(v)
        } else {
            None
        },
        None => None,
    }
}

/// Decodes a wire-encoded message. Succeeds if and only if the buffer holds
/// exactly one wire value of the requested shape.
pub fn decode<A: WireDecode>(bytes: Vec<u8>) -> (r: Result<A, Error>)
    ensures
        match r {
            Ok(v) => spec_decode::<A>(bytes@) == Some(v@),
            Err(e) => e == Error::Decode && spec_decode::<A>(bytes@) is None,
        },
{
    decode_ref(&bytes)
}

/// Decodes a wire-encoded message from a borrowed buffer, so that one
/// received buffer can be decoded twice independently.
pub fn decode_ref<A: WireDecode>(bytes: &Vec<u8>) -> (r: Result<A, Error>)
    ensures
        match r {
            Ok(v) => spec_decode::<A>(bytes@) == Some(v@),
            Err(e) => e == Error::Decode && spec_decode::<A>(bytes@) is None,
        },
{
    match A::wire_decode_at(bytes.as_slice(), 0) {
        Ok((v, j)) => if j == bytes.len() {
            Ok(v)
        } else {
            Err(Error::Decode)
        },
        Err(e) => Err(e),
    }
}

/// Optional request arguments; today only the page index of a paginated
/// query.
#[derive(Debug, Clone, Copy, PartialEq, Eq)]
pub struct CjdnsMsgArgs {
    pub page: Option<u64>,
}

impl CjdnsMsgArgs {
    pub fn new() -> (r: CjdnsMsgArgs)
        ensures
            r.page is None,
    {
        CjdnsMsgArgs { page: None }
    }

    pub fn with_page(self, page: u64) -> (r: CjdnsMsgArgs)
        ensures
            r.page == Some(page),
    {
        CjdnsMsgArgs { page: Some(page) }
    }
}

/// The ghost shape of a request: method name bytes and optional arguments.
pub struct CjdnsMsgV {
    pub q: Seq<u8>,
    pub args: Option<CjdnsMsgArgs>,
}

/// A request: a method name under `q`, and `args` omitted entirely from the
/// wire (not sent as an empty dictionary) where absent.
#[derive(Debug, Clone, PartialEq, Eq)]
pub struct CjdnsMsg {
    pub q: Vec<u8>,
    pub args: Option<CjdnsMsgArgs>,
}

impl View for CjdnsMsg {
    type V = CjdnsMsgV;

    open spec fn view(&self) -> CjdnsMsgV {
        CjdnsMsgV { q: self.q@, args: self.args }
    }
}

/// The wire value of the argument dictionary: `page` present only when set.
pub open spec fn args_bval(a: CjdnsMsgArgs) -> BVal {
    BVal::Dict(
        match a.page {
            Some(p) => seq![(key_page(), BVal::Int(p))],
            None => Seq::empty(),
        },
    )
}

/// The wire value of a request: keys in byte-sorted order (`args` before
/// `q`), and no `args` pair at all where the request has no arguments.
pub open spec fn msg_bval(m: CjdnsMsgV) -> BVal {
    BVal::Dict(
        match m.args {
            Some(a) => seq![(key_args(), args_bval(a)), (key_q(), BVal::Bytes(m.q))],
            None => seq![(key_q(), BVal::Bytes(m.q))],
        },
    )
}

impl CjdnsMsg {
    pub fn new(q: &[u8]) -> (r: CjdnsMsg)
        ensures
            r@.q == q@,
            r@.args is None,
    {
        CjdnsMsg { q: vstd::slice::slice_to_vec(q), args: None }
    }

    pub fn new_with_args(q: &[u8], args: CjdnsMsgArgs) -> (r: CjdnsMsg)
        ensures
            r@.q == q@,
            r@.args == Some(args),
    {
        CjdnsMsg { q: vstd::slice::slice_to_vec(q), args: Some(args) }
    }

    pub fn with_args(&mut self, args: CjdnsMsgArgs)
        ensures
            final(self)@.q == old(self)@.q,
            final(self)@.args == Some(args),
    {
        self.args = Some(args);
    }

    /// Encodes the request: exactly the bytes of its wire value, whose
    /// dictionary keys are emitted in byte-sorted order.
    pub fn encode(&self) -> (r: Result<Vec<u8>, Error>)
        ensures
            r matches Ok(buf) && buf@ == spec_enc(msg_bval(self@)),
    {
        let mut out: Vec<u8> = Vec::new();
        out.push(100);
        if let Some(args) = &self.args {
            let ka: [u8; 4] = [97, 114, 103, 115];
            proof {
                assert(ka@ =~= key_args());
            }
            push_bytes(&mut out, ka.as_slice());
            out.push(100);
            if let Some(p) = args.page {
                let kp: [u8; 4] = [112, 97, 103, 101];
                proof {
                    assert(kp@ =~= key_page());
                }
                push_bytes(&mut out, kp.as_slice());
                push_int(&mut out, p);
                proof {
                    let apairs = seq![(key_page(), BVal::Int(p))];
                    assert(apairs.drop_first() =~= Seq::<(Seq<u8>, BVal)>::empty());
                    assert(spec_enc_pairs(Seq::<(Seq<u8>, BVal)>::empty())
                        == Seq::<u8>::empty());
                    assert(spec_enc_pairs(apairs) =~= spec_enc_bytes(key_page()) + spec_enc(
                        BVal::Int(p),
                    ));
                }
            } else {
                proof {
                    assert(spec_enc_pairs(Seq::<(Seq<u8>, BVal)>::empty()) =~= Seq::<
                        u8,
                    >::empty());
                }
            }
            out.push(101);
            proof {
                assert(out@ =~= seq![100u8] + spec_enc_bytes(key_args()) + spec_enc(args_bval(
                    *args,
                )));
            }
        }
        let kq: [u8; 1] = [113];
        proof {
            assert(kq@ =~= key_q());
        }
        push_bytes(&mut out, kq.as_slice());
        push_bytes(&mut out, self.q.as_slice());
        out.push(101);
        proof {
            let qpair = (key_q(), BVal::Bytes(self.q@));
            match self@.args {
                Some(a) => {
                    let pairs = seq![(key_args(), args_bval(a)), qpair];
                    assert(pairs.drop_first() =~= seq![qpair]);
                    assert(seq![qpair].drop_first() =~= Seq::<(Seq<u8>, BVal)>::empty());
                    assert(spec_enc_pairs(Seq::<(Seq<u8>, BVal)>::empty())
                        == Seq::<u8>::empty());
                    assert(spec_enc_pairs(seq![qpair]) =~= spec_enc_bytes(key_q()) + spec_enc(
                        BVal::Bytes(self.q@),
                    ));
                    assert(spec_enc_pairs(pairs) =~= spec_enc_bytes(key_args()) + spec_enc(
                        args_bval(a),
                    ) + (spec_enc_bytes(key_q()) + spec_enc(BVal::Bytes(self.q@))));
                    assert(out@ =~= spec_enc(msg_bval(self@)));
                },
                None => {
                    let pairs = seq![qpair];
                    assert(pairs.drop_first() =~= Seq::<(Seq<u8>, BVal)>::empty());
                    assert(spec_enc_pairs(Seq::<(Seq<u8>, BVal)>::empty())
                        == Seq::<u8>::empty());
                    assert(spec_enc_pairs(pairs) =~= spec_enc_bytes(key_q()) + spec_enc(
                        BVal::Bytes(self.q@),
                    ));
                    assert(out@ =~= spec_enc(msg_bval(self@)));
                },
            }
        }
        Ok(out)
    }
}

/// The page marker read independently from every paginated response: the
/// presence of `more`, whatever its value, signals a further page.
#[derive(Debug, Clone, Copy, PartialEq, Eq)]
pub struct CjdnsPage {
    pub more: Option<u64>,
}

impl View for CjdnsPage {
    type V = CjdnsPage;

    open spec fn view(&self) -> CjdnsPage {
        *self
    }
}

impl CjdnsPage {
    /// Whether another page exists: a pure existence check on `more`.
    pub fn has_more(&self) -> (r: bool)
        ensures
            r == (self.more is Some),
    {
        self.more.is_some()
    }
}

impl WireDecode for CjdnsPage {
    open spec fn of_bval(v: BVal) -> Option<CjdnsPage> {
        match v {
            BVal::Dict(pairs) => match dict_get(pairs, key_more()) {
                Some(BVal::Int(n)) => Some(CjdnsPage { more: Some(n) }),
                Some(_) => None,
                None => Some(CjdnsPage { more: None }),
            },
            _ => None,
        }
    }

    fn wire_decode_at(s: &[u8], i: usize) -> (r: Result<(Self, usize), Error>) {
        let (dres, pg) = parse_dict_at(s, i);
        let ghost pairs = pg@;
        match dres {
            Err(e) => Err(e),
            Ok((entries, j)) => {
                let km: [u8; 4] = [109, 111, 114, 101];
                proof {
                    assert(km@ =~= key_more());
                }
                let more = get_opt_u64(s, &entries, Ghost(pairs), km.as_slice())?;
                Ok((CjdnsPage { more }, j))
            },
        }
    }
}

/// The reply to `ping`.
#[derive(Debug, Clone, PartialEq, Eq)]
pub struct Pong {
    pub q: Vec<u8>,
}

/// The ghost shape of a `Pong`.
pub struct PongV {
    pub q: Seq<u8>,
}

impl View for Pong {
    type V = PongV;

    open spec fn view(&self) -> PongV {
        PongV { q: self.q@ }
    }
}

impl WireDecode for Pong {
    open spec fn of_bval(v: BVal) -> Option<PongV> {
        match v {
            BVal::Dict(pairs) => match dict_get(pairs, key_q()) {
                Some(BVal::Bytes(b)) => Some(PongV { q: b }),
                _ => None,
            },
            _ => None,
        }
    }

    fn wire_decode_at(s: &[u8], i: usize) -> (r: Result<(Self, usize), Error>) {
        let (dres, pg) = parse_dict_at(s, i);
        let ghost pairs = pg@;
        match dres {
            Err(e) => Err(e),
            Ok((entries, j)) => {
                let kq: [u8; 1] = [113];
                proof {
                    assert(kq@ =~= key_q());
                }
                let q = get_bytes(s, &entries, Ghost(pairs), kq.as_slice())?;
                Ok((Pong { q }, j))
            },
        }
    }
}

/// The byte string held by a dictionary value, if it is one.
pub open spec fn as_bytes(o: Option<BVal>) -> Option<Seq<u8>> {
    match o {
        Some(BVal::Bytes(b)) => Some(b),
        _ => None,
    }
}

/// The integer held by a dictionary value, if it is one.
pub open spec fn as_int(o: Option<BVal>) -> Option<u64> {
    match o {
        Some(BVal::Int(n)) => Some(n),
        _ => None,
    }
}

pub open spec fn key_addr() -> Seq<u8> {
    seq![97u8, 100, 100, 114]
}

pub open spec fn key_bucket() -> Seq<u8> {
    seq![98u8, 117, 99, 107, 101, 116]
}

pub open spec fn key_link() -> Seq<u8> {
    seq![108u8, 105, 110, 107]
}

pub open spec fn key_time() -> Seq<u8> {
    seq![116u8, 105, 109, 101]
}

pub open spec fn key_routing_table() -> Seq<u8> {
    seq![114u8, 111, 117, 116, 105, 110, 103, 84, 97, 98, 108, 101]
}

/// One row of the routing table dump.
#[derive(Debug, Clone, PartialEq, Eq)]
pub struct Route {
    pub addr: Vec<u8>,
    pub bucket: u64,
    pub link: u64,
    pub time: u64,
}

/// The ghost shape of a `Route`.
pub struct RouteV {
    pub addr: Seq<u8>,
    pub bucket: u64,
    pub link: u64,
    pub time: u64,
}

impl View for Route {
    type V = RouteV;

    open spec fn view(&self) -> RouteV {
        RouteV { addr: self.addr@, bucket: self.bucket, link: self.link, time: self.time }
    }
}

pub open spec fn route_of_pairs(pairs: Seq<(Seq<u8>, BVal)>) -> Option<RouteV> {
    let addr = as_bytes(dict_get(pairs, key_addr()));
    let bucket = as_int(dict_get(pairs, key_bucket()));
    let link = as_int(dict_get(pairs, key_link()));
    let time = as_int(dict_get(pairs, key_time()));
    if addr is Some && bucket is Some && link is Some && time is Some {
        Some(
            (RouteV {
                addr: addr.unwrap(),
                bucket: bucket.unwrap(),
                link: link.unwrap(),
                time: time.unwrap(),
            }),
        )
    } else {
        None
    }
}

impl WireDecode for Route {
    open spec fn of_bval(v: BVal) -> Option<RouteV> {
        match v {
            BVal::Dict(pairs) => route_of_pairs(pairs),
            _ => None,
        }
    }

    fn wire_decode_at(s: &[u8], i: usize) -> (r: Result<(Self, usize), Error>) {
        let (dres, pg) = parse_dict_at(s, i);
        let ghost pairs = pg@;
        match dres {
            Err(e) => Err(e),
            Ok((entries, j)) => {
                let k_addr: [u8; 4] = [97, 100, 100, 114];
                let k_bucket: [u8; 6] = [98, 117, 99, 107, 101, 116];
                let k_link: [u8; 4] = [108, 105, 110, 107];
                let k_time: [u8; 4] = [116, 105, 109, 101];
                proof {
                    assert(k_addr@ =~= key_addr());
                    assert(k_bucket@ =~= key_bucket());
                    assert(k_link@ =~= key_link());
                    assert(k_time@ =~= key_time());
                }
                let addr = get_bytes(s, &entries, Ghost(pairs), k_addr.as_slice())?;
                let bucket = get_u64(s, &entries, Ghost(pairs), k_bucket.as_slice())?;
                let link = get_u64(s, &entries, Ghost(pairs), k_link.as_slice())?;
                let time = get_u64(s, &entries, Ghost(pairs), k_time.as_slice())?;
                Ok((Route { addr, bucket, link, time }, j))
            },
        }
    }
}

/// The views of a sequence of routes.
pub open spec fn route_views(xs: Seq<Route>) -> Seq<RouteV> {
    xs.map_values(|x: Route| x@)
}

/// The routes a sequence of wire values decodes to, where every one of them
/// is a route dictionary.
pub open spec fn route_items(items: Seq<BVal>) -> Option<Seq<RouteV>>
    decreases items.len(),
{
    if items.len() == 0 {
        Some(Seq::empty())
    } else {
        match Route::of_bval(items[0]) {
            Some(x) => match route_items(items.drop_first()) {
                Some(rest) => Some(seq![x] + rest),
                None => None,
            },
            None => None,
        }
    }
}

pub proof fn lemma_route_items_append(a: Seq<BVal>, b: Seq<BVal>)
    requires
        route_items(a) is Some,
    ensures
        route_items(a + b) == (match route_items(b) {
            Some(y) => Some(route_items(a).unwrap() + y),
            None => None::<Seq<RouteV>>,
        }),
    decreases a.len(),
{
    if a.len() == 0 {
        assert(a + b =~= b);
        match route_items(b) {
            Some(y) => {
                assert(route_items(a).unwrap() + y =~= y);
            },
            None => {},
        }
    } else {
        assert((a + b)[0] == a[0]);
        assert((a + b).drop_first() =~= a.drop_first() + b);
        lemma_route_items_append(a.drop_first(), b);
        if (a + b).len() > 0 {
            match Route::of_bval(a[0]) {
                Some(x) => {
                    match route_items(b) {
                        Some(y) => {
                            assert(seq![x] + (route_items(a.drop_first()).unwrap() + y) =~= (seq![x]
                                + route_items(a.drop_first()).unwrap()) + y);
                        },
                        None => {},
                    }
                },
                None => {},
            }
        }
    }
}

/// Reads the wire list of route dictionaries starting at `i`.
fn parse_routes_at(s: &[u8], i: usize) -> (r: Result<(Vec<Route>, usize), Error>)
    requires
        i <= s@.len(),
    ensures
        match r {
            Ok((xs, j)) => (spec_parse(s@, i as int) matches Some(p) && p.1 == j as int && (
            p.0 matches BVal::List(items)
                && route_items(items) == Some(route_views(xs@)))) && i < j <= s@.len(),
            Err(e) => e == Error::Decode && !(spec_parse(s@, i as int) matches Some(p)
                && p.0 matches BVal::List(items) && route_items(items) is Some),
        },
{
    if i == s.len() || s[i] != 108 {
        return Err(Error::Decode);
    }
    let mut xs: Vec<Route> = Vec::new();
    let ghost mut items: Seq<BVal> = Seq::empty();
    let mut j: usize = i + 1;
    loop
        invariant
            i + 1 <= j <= s@.len(),
            i < s@.len(),
            s@[i as int] == 108,
            route_items(items) == Some(route_views(xs@)),
            (match crate::bencode::spec_parse_items(s@, j as int) {
                Some((rest, end)) => crate::bencode::spec_parse_items(s@, i + 1) == Some(
                    (items + rest, end),
                ),
                None => crate::bencode::spec_parse_items(s@, i + 1) is None,
            }),
        decreases s@.len() - j,
    {
        if j == s.len() {
            return Err(Error::Decode);
        }
        if s[j] == 101 {
            proof {
                assert(items + Seq::<BVal>::empty() =~= items);
            }
            return Ok((xs, j + 1));
        }
        match Route::wire_decode_at(s, j) {
            Err(e) => {
                proof {
                    crate::bencode::lemma_parse_bounds(s@, j as int);
                    match spec_parse(s@, j as int) {
                        Some((v, j2)) => {
                            match crate::bencode::spec_parse_items(s@, j2) {
                                Some((rest2, end)) => {
                                    assert((seq![v] + rest2)[0] == v);
                                    assert(route_items(seq![v] + rest2) is None);
                                    lemma_route_items_append(items, seq![v] + rest2);
                                },
                                None => {},
                            }
                        },
                        None => {},
                    }
                }
                return Err(Error::Decode);
            },
            Ok((x, j2)) => {
                let ghost v = spec_parse(s@, j as int)->Some_0.0;
                let ghost olditems = items;
                let ghost oldxs = xs@;
                proof {
                    items = items.push(v);
                }
                xs.push(x);
                proof {
                    assert(seq![v].drop_first() =~= Seq::<BVal>::empty());
                    assert(route_items(Seq::<BVal>::empty()) == Some(Seq::<RouteV>::empty()));
                    assert(seq![x@] + Seq::<RouteV>::empty() =~= seq![x@]);
                    assert(route_items(seq![v]) == Some(seq![x@]));
                    lemma_route_items_append(olditems, seq![v]);
                    assert(olditems + seq![v] =~= items);
                    assert(route_views(oldxs) + seq![x@] =~= route_views(xs@));
                    match crate::bencode::spec_parse_items(s@, j2 as int) {
                        Some((rest, end)) => {
                            assert(crate::bencode::spec_parse_items(s@, j as int) == Some(
                                (seq![v] + rest, end),
                            ));
                            assert(olditems + (seq![v] + rest) =~= items + rest);
                        },
                        None => {},
                    }
                }
                j = j2;
            },
        }
    }
}

pub open spec fn key_peers() -> Seq<u8> {
    seq![112u8, 101, 101, 114, 115]
}

/// One page of the routing table dump.
#[allow(non_snake_case)]
#[derive(Debug, Clone, PartialEq, Eq)]
pub struct NodeStore {
    pub routingTable: Vec<Route>,
}

/// The ghost shape of a `NodeStore` page.
#[allow(non_snake_case)]
pub struct NodeStoreV {
    pub routingTable: Seq<RouteV>,
}

impl View for NodeStore {
    type V = NodeStoreV;

    open spec fn view(&self) -> NodeStoreV {
        NodeStoreV { routingTable: route_views(self.routingTable@) }
    }
}

impl WireDecode for NodeStore {
    open spec fn of_bval(v: BVal) -> Option<NodeStoreV> {
        match v {
            BVal::Dict(pairs) => match dict_get(pairs, key_routing_table()) {
                Some(BVal::List(items)) => match route_items(items) {
                    Some(rs) => Some((NodeStoreV { routingTable: rs })),
                    None => None,
                },
                _ => None,
            },
            _ => None,
        }
    }

    fn wire_decode_at(s: &[u8], i: usize) -> (r: Result<(Self, usize), Error>) {
        let (dres, pg) = parse_dict_at(s, i);
        let ghost pairs = pg@;
        match dres {
            Err(e) => Err(e),
            Ok((entries, j)) => {
                let k_rt: [u8; 12] = [114, 111, 117, 116, 105, 110, 103, 84, 97, 98, 108, 101];
                proof {
                    assert(k_rt@ =~= key_routing_table());
                }
                let pos = get_pos(s, &entries, Ghost(pairs), k_rt.as_slice())?;
                match parse_routes_at(s, pos) {
                    Err(e) => Err(e),
                    Ok((routes, _)) => Ok((NodeStore { routingTable: routes }, j)),
                }
            },
        }
    }
}

/// The generic result envelope `{error, result}` returned by endpoints that
/// report success or failure explicitly.
#[derive(Debug, Clone, PartialEq, Eq)]
pub struct CjdnsResult<T> {
    pub error: Vec<u8>,
    pub result: T,
}

/// The ghost shape of a result envelope.
pub struct CjdnsResultV<V> {
    pub error: Seq<u8>,
    pub result: V,
}

impl<T: View> View for CjdnsResult<T> {
    type V = CjdnsResultV<T::V>;

    open spec fn view(&self) -> CjdnsResultV<T::V> {
        CjdnsResultV { error: self.error@, result: self.result@ }
    }
}

impl<T: WireDecode> WireDecode for CjdnsResult<T> {
    open spec fn of_bval(v: BVal) -> Option<CjdnsResultV<T::V>> {
        match v {
            BVal::Dict(pairs) => match (as_bytes(dict_get(pairs, key_error())), dict_get(
                pairs,
                key_result(),
            )) {
                (Some(e), Some(rv)) => match T::of_bval(rv) {
                    Some(res) => Some((CjdnsResultV { error: e, result: res })),
                    None => None,
                },
                _ => None,
            },
            _ => None,
        }
    }

    fn wire_decode_at(s: &[u8], i: usize) -> (r: Result<(Self, usize), Error>) {
        let (dres, pg) = parse_dict_at(s, i);
        let ghost pairs = pg@;
        match dres {
            Err(e) => Err(e),
            Ok((entries, j)) => {
                let k_error: [u8; 5] = [101, 114, 114, 111, 114];
                let k_result: [u8; 6] = [114, 101, 115, 117, 108, 116];
                proof {
                    assert(k_error@ =~= key_error());
                    assert(k_result@ =~= key_result());
                }
                let error = get_bytes(s, &entries, Ghost(pairs), k_error.as_slice())?;
                let pos = get_pos(s, &entries, Ghost(pairs), k_result.as_slice())?;
                match T::wire_decode_at(s, pos) {
                    Err(e) => Err(e),
                    Ok((result, _)) => Ok((CjdnsResult { error, result }, j)),
                }
            },
        }
    }
}

impl<T> CjdnsResult<T> {
    /// Translates the envelope: the exact byte string `none` in `error` is
    /// the only success sentinel; any other value is an API failure carrying
    /// the server's message verbatim, and `result` is not to be trusted.
    pub fn to_result(self) -> (r: Result<T, ApiError>)
        ensures
            self.error@ == sentinel_none() ==> r == Ok::<T, ApiError>(self.result),
            self.error@ != sentinel_none() ==> (r matches Err(a) && a.error@ == self.error@),
    {
        let sentinel: [u8; 4] = [110, 111, 110, 101];
        proof {
            assert(sentinel@ =~= sentinel_none());
        }
        if bytes_eq(self.error.as_slice(), sentinel.as_slice()) {
            Ok(self.result)
        } else {
            Err(ApiError::new(self.error))
        }
    }
}

pub open spec fn key_bytes_in() -> Seq<u8> {
    seq![98u8, 121, 116, 101, 115, 73, 110]
}

pub open spec fn key_bytes_out() -> Seq<u8> {
    seq![98u8, 121, 116, 101, 115, 79, 117, 116]
}

pub open spec fn key_duplicates() -> Seq<u8> {
    seq![100u8, 117, 112, 108, 105, 99, 97, 116, 101, 115]
}

pub open spec fn key_is_incoming() -> Seq<u8> {
    seq![105u8, 115, 73, 110, 99, 111, 109, 105, 110, 103]
}

pub open spec fn key_last() -> Seq<u8> {
    seq![108u8, 97, 115, 116]
}

pub open spec fn key_lost_packets() -> Seq<u8> {
    seq![108u8, 111, 115, 116, 80, 97, 99, 107, 101, 116, 115]
}

pub open spec fn key_received_out_of_range() -> Seq<u8> {
    seq![114u8, 101, 99, 101, 105, 118, 101, 100, 79, 117, 116, 79, 102, 82, 97, 110, 103, 101]
}

pub open spec fn key_recv_kbps() -> Seq<u8> {
    seq![114u8, 101, 99, 118, 75, 98, 112, 115]
}

pub open spec fn key_send_kbps() -> Seq<u8> {
    seq![115u8, 101, 110, 100, 75, 98, 112, 115]
}

pub open spec fn key_state() -> Seq<u8> {
    seq![115u8, 116, 97, 116, 101]
}

pub open spec fn key_user() -> Seq<u8> {
    seq![117u8, 115, 101, 114]
}

/// Connection counters, throughput, state and identity of one peer.
#[allow(non_snake_case)]
#[derive(Debug, Clone, PartialEq, Eq)]
pub struct Peer {
    pub addr: Vec<u8>,
    pub bytesIn: u64,
    pub bytesOut: u64,
    pub duplicates: u64,
    pub isIncoming: u64,
    pub last: u64,
    pub lostPackets: u64,
    pub receivedOutOfRange: u64,
    pub recvKbps: u64,
    pub sendKbps: u64,
    pub state: Vec<u8>,
    pub user: Vec<u8>,
}

/// The ghost shape of a `Peer`.
#[allow(non_snake_case)]
pub struct PeerV {
    pub addr: Seq<u8>,
    pub bytesIn: u64,
    pub bytesOut: u64,
    pub duplicates: u64,
    pub isIncoming: u64,
    pub last: u64,
    pub lostPackets: u64,
    pub receivedOutOfRange: u64,
    pub recvKbps: u64,
    pub sendKbps: u64,
    pub state: Seq<u8>,
    pub user: Seq<u8>,
}

impl View for Peer {
    type V = PeerV;

    open spec fn view(&self) -> PeerV {
        PeerV { addr: self.addr@, bytesIn: self.bytesIn, bytesOut: self.bytesOut, duplicates: self.duplicates, isIncoming: self.isIncoming, last: self.last, lostPackets: self.lostPackets, receivedOutOfRange: self.receivedOutOfRange, recvKbps: self.recvKbps, sendKbps: self.sendKbps, state: self.state@, user: self.user@ }
    }
}

pub open spec fn peer_of_pairs(pairs: Seq<(Seq<u8>, BVal)>) -> Option<PeerV> {
    let addr = as_bytes(dict_get(pairs, key_addr()));
    let bytesIn = as_int(dict_get(pairs, key_bytes_in()));
    let bytesOut = as_int(dict_get(pairs, key_bytes_out()));
    let duplicates = as_int(dict_get(pairs, key_duplicates()));
    let isIncoming = as_int(dict_get(pairs, key_is_incoming()));
    let last = as_int(dict_get(pairs, key_last()));
    let lostPackets = as_int(dict_get(pairs, key_lost_packets()));
    let receivedOutOfRange = as_int(dict_get(pairs, key_received_out_of_range()));
    let recvKbps = as_int(dict_get(pairs, key_recv_kbps()));
    let sendKbps = as_int(dict_get(pairs, key_send_kbps()));
    let state = as_bytes(dict_get(pairs, key_state()));
    let user = as_bytes(dict_get(pairs, key_user()));
    if addr is Some && bytesIn is Some && bytesOut is Some && duplicates is Some && isIncoming is Some && last is Some && lostPackets is Some && receivedOutOfRange is Some && recvKbps is Some && sendKbps is Some && state is Some && user is Some {
        Some((PeerV { addr: addr.unwrap(), bytesIn: bytesIn.unwrap(), bytesOut: bytesOut.unwrap(), duplicates: duplicates.unwrap(), isIncoming: isIncoming.unwrap(), last: last.unwrap(), lostPackets: lostPackets.unwrap(), receivedOutOfRange: receivedOutOfRange.unwrap(), recvKbps: recvKbps.unwrap(), sendKbps: sendKbps.unwrap(), state: state.unwrap(), user: user.unwrap() }))
    } else {
        None
    }
}

impl WireDecode for Peer {
    open spec fn of_bval(v: BVal) -> Option<PeerV> {
        match v {
            BVal::Dict(pairs) => peer_of_pairs(pairs),
            _ => None,
        }
    }

    #[allow(non_snake_case)]
    fn wire_decode_at(s: &[u8], i: usize) -> (r: Result<(Self, usize), Error>) {
        let (dres, pg) = parse_dict_at(s, i);
        let ghost pairs = pg@;
        match dres {
            Err(e) => Err(e),
            Ok((entries, j)) => {
                let k_addr: [u8; 4] = [97, 100, 100, 114];
                let k_bytesIn: [u8; 7] = [98, 121, 116, 101, 115, 73, 110];
                let k_bytesOut: [u8; 8] = [98, 121, 116, 101, 115, 79, 117, 116];
                let k_duplicates: [u8; 10] = [100, 117, 112, 108, 105, 99, 97, 116, 101, 115];
                let k_isIncoming: [u8; 10] = [105, 115, 73, 110, 99, 111, 109, 105, 110, 103];
                let k_last: [u8; 4] = [108, 97, 115, 116];
                let k_lostPackets: [u8; 11] = [108, 111, 115, 116, 80, 97, 99, 107, 101, 116, 115];
                let k_receivedOutOfRange: [u8; 18] = [114, 101, 99, 101, 105, 118, 101, 100, 79, 117, 116, 79, 102, 82, 97, 110, 103, 101];
                let k_recvKbps: [u8; 8] = [114, 101, 99, 118, 75, 98, 112, 115];
                let k_sendKbps: [u8; 8] = [115, 101, 110, 100, 75, 98, 112, 115];
                let k_state: [u8; 5] = [115, 116, 97, 116, 101];
                let k_user: [u8; 4] = [117, 115, 101, 114];
                proof {
                    assert(k_addr@ =~= key_addr());
                    assert(k_bytesIn@ =~= key_bytes_in());
                    assert(k_bytesOut@ =~= key_bytes_out());
                    assert(k_duplicates@ =~= key_duplicates());
                    assert(k_isIncoming@ =~= key_is_incoming());
                    assert(k_last@ =~= key_last());
                    assert(k_lostPackets@ =~= key_lost_packets());
                    assert(k_receivedOutOfRange@ =~= key_received_out_of_range());
                    assert(k_recvKbps@ =~= key_recv_kbps());
                    assert(k_sendKbps@ =~= key_send_kbps());
                    assert(k_state@ =~= key_state());
                    assert(k_user@ =~= key_user());
                }
                let addr = get_bytes(s, &entries, Ghost(pairs), k_addr.as_slice())?;
                let bytesIn = get_u64(s, &entries, Ghost(pairs), k_bytesIn.as_slice())?;
                let bytesOut = get_u64(s, &entries, Ghost(pairs), k_bytesOut.as_slice())?;
                let duplicates = get_u64(s, &entries, Ghost(pairs), k_duplicates.as_slice())?;
                let isIncoming = get_u64(s, &entries, Ghost(pairs), k_isIncoming.as_slice())?;
                let last = get_u64(s, &entries, Ghost(pairs), k_last.as_slice())?;
                let lostPackets = get_u64(s, &entries, Ghost(pairs), k_lostPackets.as_slice())?;
                let receivedOutOfRange = get_u64(s, &entries, Ghost(pairs), k_receivedOutOfRange.as_slice())?;
                let recvKbps = get_u64(s, &entries, Ghost(pairs), k_recvKbps.as_slice())?;
                let sendKbps = get_u64(s, &entries, Ghost(pairs), k_sendKbps.as_slice())?;
                let state = get_bytes(s, &entries, Ghost(pairs), k_state.as_slice())?;
                let user = get_bytes(s, &entries, Ghost(pairs), k_user.as_slice())?;
                Ok((Peer { addr, bytesIn, bytesOut, duplicates, isIncoming, last, lostPackets, receivedOutOfRange, recvKbps, sendKbps, state, user }, j))
            },
        }
    }
}

/// The views of a sequence of `Peer` values.
pub open spec fn peer_views(xs: Seq<Peer>) -> Seq<PeerV> {
    xs.map_values(|x: Peer| x@)
}

/// The `Peer` values a sequence of wire values decodes to, where every
/// one of them has that shape.
pub open spec fn peer_items(items: Seq<BVal>) -> Option<Seq<PeerV>>
    decreases items.len(),
{
    if items.len() == 0 {
        Some(Seq::empty())
    } else {
        match Peer::of_bval(items[0]) {
            Some(x) => match peer_items(items.drop_first()) {
                Some(rest) => Some(seq![x] + rest),
                None => None,
            },
            None => None,
        }
    }
}

pub proof fn lemma_peer_items_append(a: Seq<BVal>, b: Seq<BVal>)
    requires
        peer_items(a) is Some,
    ensures
        peer_items(a + b) == (match peer_items(b) {
            Some(y) => Some(peer_items(a).unwrap() + y),
            None => None::<Seq<PeerV>>,
        }),
    decreases a.len(),
{
    if a.len() == 0 {
        assert(a + b =~= b);
        match peer_items(b) {
            Some(y) => {
                assert(peer_items(a).unwrap() + y =~= y);
            },
            None => {},
        }
    } else {
        assert((a + b)[0] == a[0]);
        assert((a + b).drop_first() =~= a.drop_first() + b);
        lemma_peer_items_append(a.drop_first(), b);
        if (a + b).len() > 0 {
            match Peer::of_bval(a[0]) {
                Some(x) => {
                    match peer_items(b) {
                        Some(y) => {
                            assert(seq![x] + (peer_items(a.drop_first()).unwrap() + y) =~= (seq![x]
                                + peer_items(a.drop_first()).unwrap()) + y);
                        },
                        None => {},
                    }
                },
                None => {},
            }
        }
    }
}

/// Reads the wire list of `Peer` dictionaries starting at `i`.
fn parse_peer_list_at(s: &[u8], i: usize) -> (r: Result<(Vec<Peer>, usize), Error>)
    requires
        i <= s@.len(),
    ensures
        match r {
            Ok((xs, j)) => (spec_parse(s@, i as int) matches Some(p) && p.1 == j as int && (
            p.0 matches BVal::List(items)
                && peer_items(items) == Some(peer_views(xs@)))) && i < j <= s@.len(),
            Err(e) => e == Error::Decode && !(spec_parse(s@, i as int) matches Some(p)
                && p.0 matches BVal::List(items) && peer_items(items) is Some),
        },
{
    if i == s.len() || s[i] != 108 {
        return Err(Error::Decode);
    }
    let mut xs: Vec<Peer> = Vec::new();
    let ghost mut items: Seq<BVal> = Seq::empty();
    let mut j: usize = i + 1;
    loop
        invariant
            i + 1 <= j <= s@.len(),
            i < s@.len(),
            s@[i as int] == 108,
            peer_items(items) == Some(peer_views(xs@)),
            (match crate::bencode::spec_parse_items(s@, j as int) {
                Some((rest, end)) => crate::bencode::spec_parse_items(s@, i + 1) == Some(
                    (items + rest, end),
                ),
                None => crate::bencode::spec_parse_items(s@, i + 1) is None,
            }),
        decreases s@.len() - j,
    {
        if j == s.len() {
            return Err(Error::Decode);
        }
        if s[j] == 101 {
            proof {
                assert(items + Seq::<BVal>::empty() =~= items);
            }
            return Ok((xs, j + 1));
        }
        match Peer::wire_decode_at(s, j) {
            Err(e) => {
                proof {
                    crate::bencode::lemma_parse_bounds(s@, j as int);
                    match spec_parse(s@, j as int) {
                        Some((v, j2)) => {
                            match crate::bencode::spec_parse_items(s@, j2) {
                                Some((rest2, end)) => {
                                    assert((seq![v] + rest2)[0] == v);
                                    assert(peer_items(seq![v] + rest2) is None);
                                    lemma_peer_items_append(items, seq![v] + rest2);
                                },
                                None => {},
                            }
                        },
                        None => {},
                    }
                }
                return Err(Error::Decode);
            },
            Ok((x, j2)) => {
                let ghost v = spec_parse(s@, j as int)->Some_0.0;
                let ghost olditems = items;
                let ghost oldxs = xs@;
                proof {
                    items = items.push(v);
                }
                xs.push(x);
                proof {
                    assert(seq![v].drop_first() =~= Seq::<BVal>::empty());
                    assert(peer_items(Seq::<BVal>::empty()) == Some(Seq::<PeerV>::empty()));
                    assert(seq![x@] + Seq::<PeerV>::empty() =~= seq![x@]);
                    assert(peer_items(seq![v]) == Some(seq![x@]));
                    lemma_peer_items_append(olditems, seq![v]);
                    assert(olditems + seq![v] =~= items);
                    assert(peer_views(oldxs) + seq![x@] =~= peer_views(xs@));
                    match crate::bencode::spec_parse_items(s@, j2 as int) {
                        Some((rest, end)) => {
                            assert(crate::bencode::spec_parse_items(s@, j as int) == Some(
                                (seq![v] + rest, end),
                            ));
                            assert(olditems + (seq![v] + rest) =~= items + rest);
                        },
                        None => {},
                    }
                }
                j = j2;
            },
        }
    }
}

/// One page of peer statistics.
#[derive(Debug, Clone, PartialEq, Eq)]
pub struct PeerStats {
    pub peers: Vec<Peer>,
}

/// The ghost shape of a `PeerStats` page.
pub struct PeerStatsV {
    pub peers: Seq<PeerV>,
}

impl View for PeerStats {
    type V = PeerStatsV;

    open spec fn view(&self) -> PeerStatsV {
        PeerStatsV { peers: peer_views(self.peers@) }
    }
}

impl WireDecode for PeerStats {
    open spec fn of_bval(v: BVal) -> Option<PeerStatsV> {
        match v {
            BVal::Dict(pairs) => match dict_get(pairs, key_peers()) {
                Some(BVal::List(items)) => match peer_items(items) {
                    Some(ps) => Some((PeerStatsV { peers: ps })),
                    None => None,
                },
                _ => None,
            },
            _ => None,
        }
    }

    fn wire_decode_at(s: &[u8], i: usize) -> (r: Result<(Self, usize), Error>) {
        let (dres, pg) = parse_dict_at(s, i);
        let ghost pairs = pg@;
        match dres {
            Err(e) => Err(e),
            Ok((entries, j)) => {
                let k_peers: [u8; 5] = [112, 101, 101, 114, 115];
                proof {
                    assert(k_peers@ =~= key_peers());
                }
                let pos = get_pos(s, &entries, Ghost(pairs), k_peers.as_slice())?;
                match parse_peer_list_at(s, pos) {
                    Err(e) => Err(e),
                    Ok((peers, _)) => Ok((PeerStats { peers }, j)),
                }
            },
        }
    }
}

pub open spec fn key_bit_count() -> Seq<u8> {
    seq![98u8, 105, 116, 67, 111, 117, 110, 116]
}

pub open spec fn key_prefix() -> Seq<u8> {
    seq![112u8, 114, 101, 102, 105, 120]
}

pub open spec fn key_prefix_len() -> Seq<u8> {
    seq![112u8, 114, 101, 102, 105, 120, 76, 101, 110]
}

/// One entry of a node's encoding scheme.
#[allow(non_snake_case)]
#[derive(Debug, Clone, PartialEq, Eq)]
pub struct EncodingScheme {
    pub bitCount: u64,
    pub prefix: Vec<u8>,
    pub prefixLen: u64,
}

/// The ghost shape of a `EncodingScheme`.
#[allow(non_snake_case)]
pub struct EncodingSchemeV {
    pub bitCount: u64,
    pub prefix: Seq<u8>,
    pub prefixLen: u64,
}

impl View for EncodingScheme {
    type V = EncodingSchemeV;

    open spec fn view(&self) -> EncodingSchemeV {
        EncodingSchemeV { bitCount: self.bitCount, prefix: self.prefix@, prefixLen: self.prefixLen }
    }
}

pub open spec fn encodingscheme_of_pairs(pairs: Seq<(Seq<u8>, BVal)>) -> Option<EncodingSchemeV> {
    let bitCount = as_int(dict_get(pairs, key_bit_count()));
    let prefix = as_bytes(dict_get(pairs, key_prefix()));
    let prefixLen = as_int(dict_get(pairs, key_prefix_len()));
    if bitCount is Some && prefix is Some && prefixLen is Some {
        Some((EncodingSchemeV { bitCount: bitCount.unwrap(), prefix: prefix.unwrap(), prefixLen: prefixLen.unwrap() }))
    } else {
        None
    }
}

impl WireDecode for EncodingScheme {
    open spec fn of_bval(v: BVal) -> Option<EncodingSchemeV> {
        match v {
            BVal::Dict(pairs) => encodingscheme_of_pairs(pairs),
            _ => None,
        }
    }

    #[allow(non_snake_case)]
    fn wire_decode_at(s: &[u8], i: usize) -> (r: Result<(Self, usize), Error>) {
        let (dres, pg) = parse_dict_at(s, i);
        let ghost pairs = pg@;
        match dres {
            Err(e) => Err(e),
            Ok((entries, j)) => {
                let k_bitCount: [u8; 8] = [98, 105, 116, 67, 111, 117, 110, 116];
                let k_prefix: [u8; 6] = [112, 114, 101, 102, 105, 120];
                let k_prefixLen: [u8; 9] = [112, 114, 101, 102, 105, 120, 76, 101, 110];
                proof {
                    assert(k_bitCount@ =~= key_bit_count());
                    assert(k_prefix@ =~= key_prefix());
                    assert(k_prefixLen@ =~= key_prefix_len());
                }
                let bitCount = get_u64(s, &entries, Ghost(pairs), k_bitCount.as_slice())?;
                let prefix = get_bytes(s, &entries, Ghost(pairs), k_prefix.as_slice())?;
                let prefixLen = get_u64(s, &entries, Ghost(pairs), k_prefixLen.as_slice())?;
                Ok((EncodingScheme { bitCount, prefix, prefixLen }, j))
            },
        }
    }
}

/// The views of a sequence of `EncodingScheme` values.
pub open spec fn scheme_views(xs: Seq<EncodingScheme>) -> Seq<EncodingSchemeV> {
    xs.map_values(|x: EncodingScheme| x@)
}

/// The `EncodingScheme` values a sequence of wire values decodes to, where every
/// one of them has that shape.
pub open spec fn scheme_items(items: Seq<BVal>) -> Option<Seq<EncodingSchemeV>>
    decreases items.len(),
{
    if items.len() == 0 {
        Some(Seq::empty())
    } else {
        match EncodingScheme::of_bval(items[0]) {
            Some(x) => match scheme_items(items.drop_first()) {
                Some(rest) => Some(seq![x] + rest),
                None => None,
            },
            None => None,
        }
    }
}

pub proof fn lemma_scheme_items_append(a: Seq<BVal>, b: Seq<BVal>)
    requires
        scheme_items(a) is Some,
    ensures
        scheme_items(a + b) == (match scheme_items(b) {
            Some(y) => Some(scheme_items(a).unwrap() + y),
            None => None::<Seq<EncodingSchemeV>>,
        }),
    decreases a.len(),
{
    if a.len() == 0 {
        assert(a + b =~= b);
        match scheme_items(b) {
            Some(y) => {
                assert(scheme_items(a).unwrap() + y =~= y);
            },
            None => {},
        }
    } else {
        assert((a + b)[0] == a[0]);
        assert((a + b).drop_first() =~= a.drop_first() + b);
        lemma_scheme_items_append(a.drop_first(), b);
        if (a + b).len() > 0 {
            match EncodingScheme::of_bval(a[0]) {
                Some(x) => {
                    match scheme_items(b) {
                        Some(y) => {
                            assert(seq![x] + (scheme_items(a.drop_first()).unwrap() + y) =~= (seq![x]
                                + scheme_items(a.drop_first()).unwrap()) + y);
                        },
                        None => {},
                    }
                },
                None => {},
            }
        }
    }
}

/// Reads the wire list of `EncodingScheme` dictionaries starting at `i`.
fn parse_scheme_list_at(s: &[u8], i: usize) -> (r: Result<(Vec<EncodingScheme>, usize), Error>)
    requires
        i <= s@.len(),
    ensures
        match r {
            Ok((xs, j)) => (spec_parse(s@, i as int) matches Some(p) && p.1 == j as int && (
            p.0 matches BVal::List(items)
                && scheme_items(items) == Some(scheme_views(xs@)))) && i < j <= s@.len(),
            Err(e) => e == Error::Decode && !(spec_parse(s@, i as int) matches Some(p)
                && p.0 matches BVal::List(items) && scheme_items(items) is Some),
        },
{
    if i == s.len() || s[i] != 108 {
        return Err(Error::Decode);
    }
    let mut xs: Vec<EncodingScheme> = Vec::new();
    let ghost mut items: Seq<BVal> = Seq::empty();
    let mut j: usize = i + 1;
    loop
        invariant
            i + 1 <= j <= s@.len(),
            i < s@.len(),
            s@[i as int] == 108,
            scheme_items(items) == Some(scheme_views(xs@)),
            (match crate::bencode::spec_parse_items(s@, j as int) {
                Some((rest, end)) => crate::bencode::spec_parse_items(s@, i + 1) == Some(
                    (items + rest, end),
                ),
                None => crate::bencode::spec_parse_items(s@, i + 1) is None,
            }),
        decreases s@.len() - j,
    {
        if j == s.len() {
            return Err(Error::Decode);
        }
        if s[j] == 101 {
            proof {
                assert(items + Seq::<BVal>::empty() =~= items);
            }
            return Ok((xs, j + 1));
        }
        match EncodingScheme::wire_decode_at(s, j) {
            Err(e) => {
                proof {
                    crate::bencode::lemma_parse_bounds(s@, j as int);
                    match spec_parse(s@, j as int) {
                        Some((v, j2)) => {
                            match crate::bencode::spec_parse_items(s@, j2) {
                                Some((rest2, end)) => {
                                    assert((seq![v] + rest2)[0] == v);
                                    assert(scheme_items(seq![v] + rest2) is None);
                                    lemma_scheme_items_append(items, seq![v] + rest2);
                                },
                                None => {},
                            }
                        },
                        None => {},
                    }
                }
                return Err(Error::Decode);
            },
            Ok((x, j2)) => {
                let ghost v = spec_parse(s@, j as int)->Some_0.0;
                let ghost olditems = items;
                let ghost oldxs = xs@;
                proof {
                    items = items.push(v);
                }
                xs.push(x);
                proof {
                    assert(seq![v].drop_first() =~= Seq::<BVal>::empty());
                    assert(scheme_items(Seq::<BVal>::empty()) == Some(Seq::<EncodingSchemeV>::empty()));
                    assert(seq![x@] + Seq::<EncodingSchemeV>::empty() =~= seq![x@]);
                    assert(scheme_items(seq![v]) == Some(seq![x@]));
                    lemma_scheme_items_append(olditems, seq![v]);
                    assert(olditems + seq![v] =~= items);
                    assert(scheme_views(oldxs) + seq![x@] =~= scheme_views(xs@));
                    match crate::bencode::spec_parse_items(s@, j2 as int) {
                        Some((rest, end)) => {
                            assert(crate::bencode::spec_parse_items(s@, j as int) == Some(
                                (seq![v] + rest, end),
                            ));
                            assert(olditems + (seq![v] + rest) =~= items + rest);
                        },
                        None => {},
                    }
                }
                j = j2;
            },
        }
    }
}

pub open spec fn key_ip() -> Seq<u8> {
    seq![105u8, 112]
}

pub open spec fn key_is_one_hop() -> Seq<u8> {
    seq![105u8, 115, 79, 110, 101, 72, 111, 112]
}

pub open spec fn key_parent_child_label() -> Seq<u8> {
    seq![112u8, 97, 114, 101, 110, 116, 67, 104, 105, 108, 100, 76, 97, 98, 101, 108]
}

/// The best parent of a looked-up node.
#[allow(non_snake_case)]
#[derive(Debug, Clone, PartialEq, Eq)]
pub struct Parent {
    pub ip: Vec<u8>,
    pub isOneHop: u64,
    pub parentChildLabel: Vec<u8>,
}

/// The ghost shape of a `Parent`.
#[allow(non_snake_case)]
pub struct ParentV {
    pub ip: Seq<u8>,
    pub isOneHop: u64,
    pub parentChildLabel: Seq<u8>,
}

impl View for Parent {
    type V = ParentV;

    open spec fn view(&self) -> ParentV {
        ParentV { ip: self.ip@, isOneHop: self.isOneHop, parentChildLabel: self.parentChildLabel@ }
    }
}

pub open spec fn parent_of_pairs(pairs: Seq<(Seq<u8>, BVal)>) -> Option<ParentV> {
    let ip = as_bytes(dict_get(pairs, key_ip()));
    let isOneHop = as_int(dict_get(pairs, key_is_one_hop()));
    let parentChildLabel = as_bytes(dict_get(pairs, key_parent_child_label()));
    if ip is Some && isOneHop is Some && parentChildLabel is Some {
        Some((ParentV { ip: ip.unwrap(), isOneHop: isOneHop.unwrap(), parentChildLabel: parentChildLabel.unwrap() }))
    } else {
        None
    }
}

impl WireDecode for Parent {
    open spec fn of_bval(v: BVal) -> Option<ParentV> {
        match v {
            BVal::Dict(pairs) => parent_of_pairs(pairs),
            _ => None,
        }
    }

    #[allow(non_snake_case)]
    fn wire_decode_at(s: &[u8], i: usize) -> (r: Result<(Self, usize), Error>) {
        let (dres, pg) = parse_dict_at(s, i);
        let ghost pairs = pg@;
        match dres {
            Err(e) => Err(e),
            Ok((entries, j)) => {
                let k_ip: [u8; 2] = [105, 112];
                let k_isOneHop: [u8; 8] = [105, 115, 79, 110, 101, 72, 111, 112];
                let k_parentChildLabel: [u8; 16] = [112, 97, 114, 101, 110, 116, 67, 104, 105, 108, 100, 76, 97, 98, 101, 108];
                proof {
                    assert(k_ip@ =~= key_ip());
                    assert(k_isOneHop@ =~= key_is_one_hop());
                    assert(k_parentChildLabel@ =~= key_parent_child_label());
                }
                let ip = get_bytes(s, &entries, Ghost(pairs), k_ip.as_slice())?;
                let isOneHop = get_u64(s, &entries, Ghost(pairs), k_isOneHop.as_slice())?;
                let parentChildLabel = get_bytes(s, &entries, Ghost(pairs), k_parentChildLabel.as_slice())?;
                Ok((Parent { ip, isOneHop, parentChildLabel }, j))
            },
        }
    }
}


pub open spec fn key_best_parent() -> Seq<u8> {
    seq![98u8, 101, 115, 116, 80, 97, 114, 101, 110, 116]
}

pub open spec fn key_encoding_scheme() -> Seq<u8> {
    seq![101u8, 110, 99, 111, 100, 105, 110, 103, 83, 99, 104, 101, 109, 101]
}

pub open spec fn key_cost() -> Seq<u8> {
    seq![99u8, 111, 115, 116]
}

pub open spec fn key_key() -> Seq<u8> {
    seq![107u8, 101, 121]
}

pub open spec fn key_link_count() -> Seq<u8> {
    seq![108u8, 105, 110, 107, 67, 111, 117, 110, 116]
}

pub open spec fn key_protocol_version() -> Seq<u8> {
    seq![112u8, 114, 111, 116, 111, 99, 111, 108, 86, 101, 114, 115, 105, 111, 110]
}

pub open spec fn key_route_label() -> Seq<u8> {
    seq![114u8, 111, 117, 116, 101, 76, 97, 98, 101, 108]
}

/// A looked-up node: its best parent, encoding scheme and route identity.
#[allow(non_snake_case)]
#[derive(Debug, Clone, PartialEq, Eq)]
pub struct Node {
    pub bestParent: Parent,
    pub encodingScheme: Vec<EncodingScheme>,
    pub cost: u64,
    pub key: Vec<u8>,
    pub linkCount: u64,
    pub protocolVersion: u64,
    pub routeLabel: Vec<u8>,
}

/// The ghost shape of a `Node`.
#[allow(non_snake_case)]
pub struct NodeV {
    pub bestParent: ParentV,
    pub encodingScheme: Seq<EncodingSchemeV>,
    pub cost: u64,
    pub key: Seq<u8>,
    pub linkCount: u64,
    pub protocolVersion: u64,
    pub routeLabel: Seq<u8>,
}

impl View for Node {
    type V = NodeV;

    open spec fn view(&self) -> NodeV {
        NodeV {
            bestParent: self.bestParent@,
            encodingScheme: scheme_views(self.encodingScheme@),
            cost: self.cost,
            key: self.key@,
            linkCount: self.linkCount,
            protocolVersion: self.protocolVersion,
            routeLabel: self.routeLabel@,
        }
    }
}

pub open spec fn node_of_pairs(pairs: Seq<(Seq<u8>, BVal)>) -> Option<NodeV> {
    let cost = as_int(dict_get(pairs, key_cost()));
    let key = as_bytes(dict_get(pairs, key_key()));
    let link_count = as_int(dict_get(pairs, key_link_count()));
    let protocol_version = as_int(dict_get(pairs, key_protocol_version()));
    let route_label = as_bytes(dict_get(pairs, key_route_label()));
    match (dict_get(pairs, key_best_parent()), dict_get(pairs, key_encoding_scheme())) {
        (Some(bpv), Some(BVal::List(esitems))) => match (
            Parent::of_bval(bpv),
            scheme_items(esitems),
        ) {
            (Some(bp), Some(ss)) => if cost is Some && key is Some && link_count is Some
                && protocol_version is Some && route_label is Some {
                Some(
                    (NodeV {
                        bestParent: bp,
                        encodingScheme: ss,
                        cost: cost.unwrap(),
                        key: key.unwrap(),
                        linkCount: link_count.unwrap(),
                        protocolVersion: protocol_version.unwrap(),
                        routeLabel: route_label.unwrap(),
                    }),
                )
            } else {
                None
            },
            _ => None,
        },
        _ => None,
    }
}

impl WireDecode for Node {
    open spec fn of_bval(v: BVal) -> Option<NodeV> {
        match v {
            BVal::Dict(pairs) => node_of_pairs(pairs),
            _ => None,
        }
    }

    #[allow(non_snake_case)]
    fn wire_decode_at(s: &[u8], i: usize) -> (r: Result<(Self, usize), Error>) {
        let (dres, pg) = parse_dict_at(s, i);
        let ghost pairs = pg@;
        match dres {
            Err(e) => Err(e),
            Ok((entries, j)) => {
                let k_bp: [u8; 10] = [98, 101, 115, 116, 80, 97, 114, 101, 110, 116];
                let k_es: [u8; 14] = [101, 110, 99, 111, 100, 105, 110, 103, 83, 99, 104, 101, 109, 101];
                let k_cost: [u8; 4] = [99, 111, 115, 116];
                let k_key: [u8; 3] = [107, 101, 121];
                let k_lc: [u8; 9] = [108, 105, 110, 107, 67, 111, 117, 110, 116];
                let k_pv: [u8; 15] = [112, 114, 111, 116, 111, 99, 111, 108, 86, 101, 114, 115, 105, 111, 110];
                let k_rl: [u8; 10] = [114, 111, 117, 116, 101, 76, 97, 98, 101, 108];
                proof {
                    assert(k_bp@ =~= key_best_parent());
                    assert(k_es@ =~= key_encoding_scheme());
                    assert(k_cost@ =~= key_cost());
                    assert(k_key@ =~= key_key());
                    assert(k_lc@ =~= key_link_count());
                    assert(k_pv@ =~= key_protocol_version());
                    assert(k_rl@ =~= key_route_label());
                }
                let bp_pos = get_pos(s, &entries, Ghost(pairs), k_bp.as_slice())?;
                let bp = match Parent::wire_decode_at(s, bp_pos) {
                    Err(e) => {
                        return Err(e);
                    },
                    Ok((bp, _)) => bp,
                };
                let es_pos = get_pos(s, &entries, Ghost(pairs), k_es.as_slice())?;
                let es = match parse_scheme_list_at(s, es_pos) {
                    Err(e) => {
                        return Err(e);
                    },
                    Ok((es, _)) => es,
                };
                let cost = get_u64(s, &entries, Ghost(pairs), k_cost.as_slice())?;
                let key = get_bytes(s, &entries, Ghost(pairs), k_key.as_slice())?;
                let linkCount = get_u64(s, &entries, Ghost(pairs), k_lc.as_slice())?;
                let protocolVersion = get_u64(s, &entries, Ghost(pairs), k_pv.as_slice())?;
                let routeLabel = get_bytes(s, &entries, Ghost(pairs), k_rl.as_slice())?;
                Ok(
                    (
                        Node {
                            bestParent: bp,
                            encodingScheme: es,
                            cost,
                            key,
                            linkCount,
                            protocolVersion,
                            routeLabel,
                        },
                        j,
                    ),
                )
            },
        }
    }
}

/// Lexicographic byte order on byte strings.
pub open spec fn bytes_lt(a: Seq<u8>, b: Seq<u8>) -> bool
    decreases a.len(),
{
    if b.len() == 0 {
        false
    } else if a.len() == 0 {
        true
    } else if a[0] < b[0] {
        true
    } else if a[0] > b[0] {
        false
    } else {
        bytes_lt(a.drop_first(), b.drop_first())
    }
}

/// Every key strictly precedes every later key in byte order.
pub open spec fn dict_keys_sorted(pairs: Seq<(Seq<u8>, BVal)>) -> bool {
    forall|i: int, j: int|
        0 <= i < j < pairs.len() ==> bytes_lt(#[trigger] pairs[i].0, #[trigger] pairs[j].0)
}

/// Sorted-key law: the wire value of any request carries its dictionary
/// keys in byte-sorted order, in the outer dictionary and in the argument
/// dictionary alike, however the request was put together.
pub proof fn lemma_msg_keys_sorted(m: CjdnsMsgV)
    ensures
        msg_bval(m) matches BVal::Dict(pairs) && dict_keys_sorted(pairs),
        m.args matches Some(a) ==> (args_bval(a) matches BVal::Dict(ap) && dict_keys_sorted(ap)),
{
    assert(bytes_lt(key_args(), key_q()));
}

/// The wire value this crate's model assigns to a `Route`: its fields
/// under their keys, in byte-sorted key order.
pub open spec fn route_bval(x: RouteV) -> BVal {
    BVal::Dict(seq![(key_addr(), BVal::Bytes(x.addr)), (key_bucket(), BVal::Int(x.bucket)), (key_link(), BVal::Int(x.link)), (key_time(), BVal::Int(x.time))])
}

pub proof fn lemma_of_bval_route(x: RouteV)
    ensures
        Route::of_bval(route_bval(x)) == Some(x),
{
    let p0 = seq![(key_addr(), BVal::Bytes(x.addr)), (key_bucket(), BVal::Int(x.bucket)), (key_link(), BVal::Int(x.link)), (key_time(), BVal::Int(x.time))];
    let p1 = seq![(key_bucket(), BVal::Int(x.bucket)), (key_link(), BVal::Int(x.link)), (key_time(), BVal::Int(x.time))];
    let p2 = seq![(key_link(), BVal::Int(x.link)), (key_time(), BVal::Int(x.time))];
    let p3 = seq![(key_time(), BVal::Int(x.time))];
    assert(p0.drop_first() =~= p1);
    assert(p1.drop_first() =~= p2);
    assert(p2.drop_first() =~= p3);
    assert(dict_get(p0, key_addr()) == Some(BVal::Bytes(x.addr)));
    assert(key_addr() != key_bucket()) by { assert(key_addr().len() == 4); assert(key_bucket().len() == 6); };
    assert(dict_get(p0, key_bucket()) == dict_get(p1, key_bucket()));
    assert(dict_get(p0, key_bucket()) == Some(BVal::Int(x.bucket)));
    assert(key_addr() != key_link()) by { assert(key_addr()[0] == 97); assert(key_link()[0] == 108); };
    assert(key_bucket() != key_link()) by { assert(key_bucket().len() == 6); assert(key_link().len() == 4); };
    assert(dict_get(p0, key_link()) == dict_get(p1, key_link()));
    assert(dict_get(p1, key_link()) == dict_get(p2, key_link()));
    assert(dict_get(p0, key_link()) == Some(BVal::Int(x.link)));
    assert(key_addr() != key_time()) by { assert(key_addr()[0] == 97); assert(key_time()[0] == 116); };
    assert(key_bucket() != key_time()) by { assert(key_bucket().len() == 6); assert(key_time().len() == 4); };
    assert(key_link() != key_time()) by { assert(key_link()[0] == 108); assert(key_time()[0] == 116); };
    assert(dict_get(p0, key_time()) == dict_get(p1, key_time()));
    assert(dict_get(p1, key_time()) == dict_get(p2, key_time()));
    assert(dict_get(p2, key_time()) == dict_get(p3, key_time()));
    assert(dict_get(p0, key_time()) == Some(BVal::Int(x.time)));
}

/// The wire value this crate's model assigns to a `Peer`: its fields
/// under their keys, in byte-sorted key order.
pub open spec fn peer_bval(x: PeerV) -> BVal {
    BVal::Dict(seq![(key_addr(), BVal::Bytes(x.addr)), (key_bytes_in(), BVal::Int(x.bytesIn)), (key_bytes_out(), BVal::Int(x.bytesOut)), (key_duplicates(), BVal::Int(x.duplicates)), (key_is_incoming(), BVal::Int(x.isIncoming)), (key_last(), BVal::Int(x.last)), (key_lost_packets(), BVal::Int(x.lostPackets)), (key_received_out_of_range(), BVal::Int(x.receivedOutOfRange)), (key_recv_kbps(), BVal::Int(x.recvKbps)), (key_send_kbps(), BVal::Int(x.sendKbps)), (key_state(), BVal::Bytes(x.state)), (key_user(), BVal::Bytes(x.user))])
}

pub proof fn lemma_of_bval_peer(x: PeerV)
    ensures
        Peer::of_bval(peer_bval(x)) == Some(x),
{
    let p0 = seq![(key_addr(), BVal::Bytes(x.addr)), (key_bytes_in(), BVal::Int(x.bytesIn)), (key_bytes_out(), BVal::Int(x.bytesOut)), (key_duplicates(), BVal::Int(x.duplicates)), (key_is_incoming(), BVal::Int(x.isIncoming)), (key_last(), BVal::Int(x.last)), (key_lost_packets(), BVal::Int(x.lostPackets)), (key_received_out_of_range(), BVal::Int(x.receivedOutOfRange)), (key_recv_kbps(), BVal::Int(x.recvKbps)), (key_send_kbps(), BVal::Int(x.sendKbps)), (key_state(), BVal::Bytes(x.state)), (key_user(), BVal::Bytes(x.user))];
    let p1 = seq![(key_bytes_in(), BVal::Int(x.bytesIn)), (key_bytes_out(), BVal::Int(x.bytesOut)), (key_duplicates(), BVal::Int(x.duplicates)), (key_is_incoming(), BVal::Int(x.isIncoming)), (key_last(), BVal::Int(x.last)), (key_lost_packets(), BVal::Int(x.lostPackets)), (key_received_out_of_range(), BVal::Int(x.receivedOutOfRange)), (key_recv_kbps(), BVal::Int(x.recvKbps)), (key_send_kbps(), BVal::Int(x.sendKbps)), (key_state(), BVal::Bytes(x.state)), (key_user(), BVal::Bytes(x.user))];
    let p2 = seq![(key_bytes_out(), BVal::Int(x.bytesOut)), (key_duplicates(), BVal::Int(x.duplicates)), (key_is_incoming(), BVal::Int(x.isIncoming)), (key_last(), BVal::Int(x.last)), (key_lost_packets(), BVal::Int(x.lostPackets)), (key_received_out_of_range(), BVal::Int(x.receivedOutOfRange)), (key_recv_kbps(), BVal::Int(x.recvKbps)), (key_send_kbps(), BVal::Int(x.sendKbps)), (key_state(), BVal::Bytes(x.state)), (key_user(), BVal::Bytes(x.user))];
    let p3 = seq![(key_duplicates(), BVal::Int(x.duplicates)), (key_is_incoming(), BVal::Int(x.isIncoming)), (key_last(), BVal::Int(x.last)), (key_lost_packets(), BVal::Int(x.lostPackets)), (key_received_out_of_range(), BVal::Int(x.receivedOutOfRange)), (key_recv_kbps(), BVal::Int(x.recvKbps)), (key_send_kbps(), BVal::Int(x.sendKbps)), (key_state(), BVal::Bytes(x.state)), (key_user(), BVal::Bytes(x.user))];
    let p4 = seq![(key_is_incoming(), BVal::Int(x.isIncoming)), (key_last(), BVal::Int(x.last)), (key_lost_packets(), BVal::Int(x.lostPackets)), (key_received_out_of_range(), BVal::Int(x.receivedOutOfRange)), (key_recv_kbps(), BVal::Int(x.recvKbps)), (key_send_kbps(), BVal::Int(x.sendKbps)), (key_state(), BVal::Bytes(x.state)), (key_user(), BVal::Bytes(x.user))];
    let p5 = seq![(key_last(), BVal::Int(x.last)), (key_lost_packets(), BVal::Int(x.lostPackets)), (key_received_out_of_range(), BVal::Int(x.receivedOutOfRange)), (key_recv_kbps(), BVal::Int(x.recvKbps)), (key_send_kbps(), BVal::Int(x.sendKbps)), (key_state(), BVal::Bytes(x.state)), (key_user(), BVal::Bytes(x.user))];
    let p6 = seq![(key_lost_packets(), BVal::Int(x.lostPackets)), (key_received_out_of_range(), BVal::Int(x.receivedOutOfRange)), (key_recv_kbps(), BVal::Int(x.recvKbps)), (key_send_kbps(), BVal::Int(x.sendKbps)), (key_state(), BVal::Bytes(x.state)), (key_user(), BVal::Bytes(x.user))];
    let p7 = seq![(key_received_out_of_range(), BVal::Int(x.receivedOutOfRange)), (key_recv_kbps(), BVal::Int(x.recvKbps)), (key_send_kbps(), BVal::Int(x.sendKbps)), (key_state(), BVal::Bytes(x.state)), (key_user(), BVal::Bytes(x.user))];
    let p8 = seq![(key_recv_kbps(), BVal::Int(x.recvKbps)), (key_send_kbps(), BVal::Int(x.sendKbps)), (key_state(), BVal::Bytes(x.state)), (key_user(), BVal::Bytes(x.user))];
    let p9 = seq![(key_send_kbps(), BVal::Int(x.sendKbps)), (key_state(), BVal::Bytes(x.state)), (key_user(), BVal::Bytes(x.user))];
    let p10 = seq![(key_state(), BVal::Bytes(x.state)), (key_user(), BVal::Bytes(x.user))];
    let p11 = seq![(key_user(), BVal::Bytes(x.user))];
    assert(p0.drop_first() =~= p1);
    assert(p1.drop_first() =~= p2);
    assert(p2.drop_first() =~= p3);
    assert(p3.drop_first() =~= p4);
    assert(p4.drop_first() =~= p5);
    assert(p5.drop_first() =~= p6);
    assert(p6.drop_first() =~= p7);
    assert(p7.drop_first() =~= p8);
    assert(p8.drop_first() =~= p9);
    assert(p9.drop_first() =~= p10);
    assert(p10.drop_first() =~= p11);
    assert(dict_get(p0, key_addr()) == Some(BVal::Bytes(x.addr)));
    assert(key_addr() != key_bytes_in()) by { assert(key_addr().len() == 4); assert(key_bytes_in().len() == 7); };
    assert(dict_get(p0, key_bytes_in()) == dict_get(p1, key_bytes_in()));
    assert(dict_get(p0, key_bytes_in()) == Some(BVal::Int(x.bytesIn)));
    assert(key_addr() != key_bytes_out()) by { assert(key_addr().len() == 4); assert(key_bytes_out().len() == 8); };
    assert(key_bytes_in() != key_bytes_out()) by { assert(key_bytes_in().len() == 7); assert(key_bytes_out().len() == 8); };
    assert(dict_get(p0, key_bytes_out()) == dict_get(p1, key_bytes_out()));
    assert(dict_get(p1, key_bytes_out()) == dict_get(p2, key_bytes_out()));
    assert(dict_get(p0, key_bytes_out()) == Some(BVal::Int(x.bytesOut)));
    assert(key_addr() != key_duplicates()) by { assert(key_addr().len() == 4); assert(key_duplicates().len() == 10); };
    assert(key_bytes_in() != key_duplicates()) by { assert(key_bytes_in().len() == 7); assert(key_duplicates().len() == 10); };
    assert(key_bytes_out() != key_duplicates()) by { assert(key_bytes_out().len() == 8); assert(key_duplicates().len() == 10); };
    assert(dict_get(p0, key_duplicates()) == dict_get(p1, key_duplicates()));
    assert(dict_get(p1, key_duplicates()) == dict_get(p2, key_duplicates()));
    assert(dict_get(p2, key_duplicates()) == dict_get(p3, key_duplicates()));
    assert(dict_get(p0, key_duplicates()) == Some(BVal::Int(x.duplicates)));
    assert(key_addr() != key_is_incoming()) by { assert(key_addr().len() == 4); assert(key_is_incoming().len() == 10); };
    assert(key_bytes_in() != key_is_incoming()) by { assert(key_bytes_in().len() == 7); assert(key_is_incoming().len() == 10); };
    assert(key_bytes_out() != key_is_incoming()) by { assert(key_bytes_out().len() == 8); assert(key_is_incoming().len() == 10); };
    assert(key_duplicates() != key_is_incoming()) by { assert(key_duplicates()[0] == 100); assert(key_is_incoming()[0] == 105); };
    assert(dict_get(p0, key_is_incoming()) == dict_get(p1, key_is_incoming()));
    assert(dict_get(p1, key_is_incoming()) == dict_get(p2, key_is_incoming()));
    assert(dict_get(p2, key_is_incoming()) == dict_get(p3, key_is_incoming()));
    assert(dict_get(p3, key_is_incoming()) == dict_get(p4, key_is_incoming()));
    assert(dict_get(p0, key_is_incoming()) == Some(BVal::Int(x.isIncoming)));
    assert(key_addr() != key_last()) by { assert(key_addr()[0] == 97); assert(key_last()[0] == 108); };
    assert(key_bytes_in() != key_last()) by { assert(key_bytes_in().len() == 7); assert(key_last().len() == 4); };
    assert(key_bytes_out() != key_last()) by { assert(key_bytes_out().len() == 8); assert(key_last().len() == 4); };
    assert(key_duplicates() != key_last()) by { assert(key_duplicates().len() == 10); assert(key_last().len() == 4); };
    assert(key_is_incoming() != key_last()) by { assert(key_is_incoming().len() == 10); assert(key_last().len() == 4); };
    assert(dict_get(p0, key_last()) == dict_get(p1, key_last()));
    assert(dict_get(p1, key_last()) == dict_get(p2, key_last()));
    assert(dict_get(p2, key_last()) == dict_get(p3, key_last()));
    assert(dict_get(p3, key_last()) == dict_get(p4, key_last()));
    assert(dict_get(p4, key_last()) == dict_get(p5, key_last()));
    assert(dict_get(p0, key_last()) == Some(BVal::Int(x.last)));
    assert(key_addr() != key_lost_packets()) by { assert(key_addr().len() == 4); assert(key_lost_packets().len() == 11); };
    assert(key_bytes_in() != key_lost_packets()) by { assert(key_bytes_in().len() == 7); assert(key_lost_packets().len() == 11); };
    assert(key_bytes_out() != key_lost_packets()) by { assert(key_bytes_out().len() == 8); assert(key_lost_packets().len() == 11); };
    assert(key_duplicates() != key_lost_packets()) by { assert(key_duplicates().len() == 10); assert(key_lost_packets().len() == 11); };
    assert(key_is_incoming() != key_lost_packets()) by { assert(key_is_incoming().len() == 10); assert(key_lost_packets().len() == 11); };
    assert(key_last() != key_lost_packets()) by { assert(key_last().len() == 4); assert(key_lost_packets().len() == 11); };
    assert(dict_get(p0, key_lost_packets()) == dict_get(p1, key_lost_packets()));
    assert(dict_get(p1, key_lost_packets()) == dict_get(p2, key_lost_packets()));
    assert(dict_get(p2, key_lost_packets()) == dict_get(p3, key_lost_packets()));
    assert(dict_get(p3, key_lost_packets()) == dict_get(p4, key_lost_packets()));
    assert(dict_get(p4, key_lost_packets()) == dict_get(p5, key_lost_packets()));
    assert(dict_get(p5, key_lost_packets()) == dict_get(p6, key_lost_packets()));
    assert(dict_get(p0, key_lost_packets()) == Some(BVal::Int(x.lostPackets)));
    assert(key_addr() != key_received_out_of_range()) by { assert(key_addr().len() == 4); assert(key_received_out_of_range().len() == 18); };
    assert(key_bytes_in() != key_received_out_of_range()) by { assert(key_bytes_in().len() == 7); assert(key_received_out_of_range().len() == 18); };
    assert(key_bytes_out() != key_received_out_of_range()) by { assert(key_bytes_out().len() == 8); assert(key_received_out_of_range().len() == 18); };
    assert(key_duplicates() != key_received_out_of_range()) by { assert(key_duplicates().len() == 10); assert(key_received_out_of_range().len() == 18); };
    assert(key_is_incoming() != key_received_out_of_range()) by { assert(key_is_incoming().len() == 10); assert(key_received_out_of_range().len() == 18); };
    assert(key_last() != key_received_out_of_range()) by { assert(key_last().len() == 4); assert(key_received_out_of_range().len() == 18); };
    assert(key_lost_packets() != key_received_out_of_range()) by { assert(key_lost_packets().len() == 11); assert(key_received_out_of_range().len() == 18); };
    assert(dict_get(p0, key_received_out_of_range()) == dict_get(p1, key_received_out_of_range()));
    assert(dict_get(p1, key_received_out_of_range()) == dict_get(p2, key_received_out_of_range()));
    assert(dict_get(p2, key_received_out_of_range()) == dict_get(p3, key_received_out_of_range()));
    assert(dict_get(p3, key_received_out_of_range()) == dict_get(p4, key_received_out_of_range()));
    assert(dict_get(p4, key_received_out_of_range()) == dict_get(p5, key_received_out_of_range()));
    assert(dict_get(p5, key_received_out_of_range()) == dict_get(p6, key_received_out_of_range()));
    assert(dict_get(p6, key_received_out_of_range()) == dict_get(p7, key_received_out_of_range()));
    assert(dict_get(p0, key_received_out_of_range()) == Some(BVal::Int(x.receivedOutOfRange)));
    assert(key_addr() != key_recv_kbps()) by { assert(key_addr().len() == 4); assert(key_recv_kbps().len() == 8); };
    assert(key_bytes_in() != key_recv_kbps()) by { assert(key_bytes_in().len() == 7); assert(key_recv_kbps().len() == 8); };
    assert(key_bytes_out() != key_recv_kbps()) by { assert(key_bytes_out()[0] == 98); assert(key_recv_kbps()[0] == 114); };
    assert(key_duplicates() != key_recv_kbps()) by { assert(key_duplicates().len() == 10); assert(key_recv_kbps().len() == 8); };
    assert(key_is_incoming() != key_recv_kbps()) by { assert(key_is_incoming().len() == 10); assert(key_recv_kbps().len() == 8); };
    assert(key_last() != key_recv_kbps()) by { assert(key_last().len() == 4); assert(key_recv_kbps().len() == 8); };
    assert(key_lost_packets() != key_recv_kbps()) by { assert(key_lost_packets().len() == 11); assert(key_recv_kbps().len() == 8); };
    assert(key_received_out_of_range() != key_recv_kbps()) by { assert(key_received_out_of_range().len() == 18); assert(key_recv_kbps().len() == 8); };
    assert(dict_get(p0, key_recv_kbps()) == dict_get(p1, key_recv_kbps()));
    assert(dict_get(p1, key_recv_kbps()) == dict_get(p2, key_recv_kbps()));
    assert(dict_get(p2, key_recv_kbps()) == dict_get(p3, key_recv_kbps()));
    assert(dict_get(p3, key_recv_kbps()) == dict_get(p4, key_recv_kbps()));
    assert(dict_get(p4, key_recv_kbps()) == dict_get(p5, key_recv_kbps()));
    assert(dict_get(p5, key_recv_kbps()) == dict_get(p6, key_recv_kbps()));
    assert(dict_get(p6, key_recv_kbps()) == dict_get(p7, key_recv_kbps()));
    assert(dict_get(p7, key_recv_kbps()) == dict_get(p8, key_recv_kbps()));
    assert(dict_get(p0, key_recv_kbps()) == Some(BVal::Int(x.recvKbps)));
    assert(key_addr() != key_send_kbps()) by { assert(key_addr().len() == 4); assert(key_send_kbps().len() == 8); };
    assert(key_bytes_in() != key_send_kbps()) by { assert(key_bytes_in().len() == 7); assert(key_send_kbps().len() == 8); };
    assert(key_bytes_out() != key_send_kbps()) by { assert(key_bytes_out()[0] == 98); assert(key_send_kbps()[0] == 115); };
    assert(key_duplicates() != key_send_kbps()) by { assert(key_duplicates().len() == 10); assert(key_send_kbps().len() == 8); };
    assert(key_is_incoming() != key_send_kbps()) by { assert(key_is_incoming().len() == 10); assert(key_send_kbps().len() == 8); };
    assert(key_last() != key_send_kbps()) by { assert(key_last().len() == 4); assert(key_send_kbps().len() == 8); };
    assert(key_lost_packets() != key_send_kbps()) by { assert(key_lost_packets().len() == 11); assert(key_send_kbps().len() == 8); };
    assert(key_received_out_of_range() != key_send_kbps()) by { assert(key_received_out_of_range().len() == 18); assert(key_send_kbps().len() == 8); };
    assert(key_recv_kbps() != key_send_kbps()) by { assert(key_recv_kbps()[0] == 114); assert(key_send_kbps()[0] == 115); };
    assert(dict_get(p0, key_send_kbps()) == dict_get(p1, key_send_kbps()));
    assert(dict_get(p1, key_send_kbps()) == dict_get(p2, key_send_kbps()));
    assert(dict_get(p2, key_send_kbps()) == dict_get(p3, key_send_kbps()));
    assert(dict_get(p3, key_send_kbps()) == dict_get(p4, key_send_kbps()));
    assert(dict_get(p4, key_send_kbps()) == dict_get(p5, key_send_kbps()));
    assert(dict_get(p5, key_send_kbps()) == dict_get(p6, key_send_kbps()));
    assert(dict_get(p6, key_send_kbps()) == dict_get(p7, key_send_kbps()));
    assert(dict_get(p7, key_send_kbps()) == dict_get(p8, key_send_kbps()));
    assert(dict_get(p8, key_send_kbps()) == dict_get(p9, key_send_kbps()));
    assert(dict_get(p0, key_send_kbps()) == Some(BVal::Int(x.sendKbps)));
    assert(key_addr() != key_state()) by { assert(key_addr().len() == 4); assert(key_state().len() == 5); };
    assert(key_bytes_in() != key_state()) by { assert(key_bytes_in().len() == 7); assert(key_state().len() == 5); };
    assert(key_bytes_out() != key_state()) by { assert(key_bytes_out().len() == 8); assert(key_state().len() == 5); };
    assert(key_duplicates() != key_state()) by { assert(key_duplicates().len() == 10); assert(key_state().len() == 5); };
    assert(key_is_incoming() != key_state()) by { assert(key_is_incoming().len() == 10); assert(key_state().len() == 5); };
    assert(key_last() != key_state()) by { assert(key_last().len() == 4); assert(key_state().len() == 5); };
    assert(key_lost_packets() != key_state()) by { assert(key_lost_packets().len() == 11); assert(key_state().len() == 5); };
    assert(key_received_out_of_range() != key_state()) by { assert(key_received_out_of_range().len() == 18); assert(key_state().len() == 5); };
    assert(key_recv_kbps() != key_state()) by { assert(key_recv_kbps().len() == 8); assert(key_state().len() == 5); };
    assert(key_send_kbps() != key_state()) by { assert(key_send_kbps().len() == 8); assert(key_state().len() == 5); };
    assert(dict_get(p0, key_state()) == dict_get(p1, key_state()));
    assert(dict_get(p1, key_state()) == dict_get(p2, key_state()));
    assert(dict_get(p2, key_state()) == dict_get(p3, key_state()));
    assert(dict_get(p3, key_state()) == dict_get(p4, key_state()));
    assert(dict_get(p4, key_state()) == dict_get(p5, key_state()));
    assert(dict_get(p5, key_state()) == dict_get(p6, key_state()));
    assert(dict_get(p6, key_state()) == dict_get(p7, key_state()));
    assert(dict_get(p7, key_state()) == dict_get(p8, key_state()));
    assert(dict_get(p8, key_state()) == dict_get(p9, key_state()));
    assert(dict_get(p9, key_state()) == dict_get(p10, key_state()));
    assert(dict_get(p0, key_state()) == Some(BVal::Bytes(x.state)));
    assert(key_addr() != key_user()) by { assert(key_addr()[0] == 97); assert(key_user()[0] == 117); };
    assert(key_bytes_in() != key_user()) by { assert(key_bytes_in().len() == 7); assert(key_user().len() == 4); };
    assert(key_bytes_out() != key_user()) by { assert(key_bytes_out().len() == 8); assert(key_user().len() == 4); };
    assert(key_duplicates() != key_user()) by { assert(key_duplicates().len() == 10); assert(key_user().len() == 4); };
    assert(key_is_incoming() != key_user()) by { assert(key_is_incoming().len() == 10); assert(key_user().len() == 4); };
    assert(key_last() != key_user()) by { assert(key_last()[0] == 108); assert(key_user()[0] == 117); };
    assert(key_lost_packets() != key_user()) by { assert(key_lost_packets().len() == 11); assert(key_user().len() == 4); };
    assert(key_received_out_of_range() != key_user()) by { assert(key_received_out_of_range().len() == 18); assert(key_user().len() == 4); };
    assert(key_recv_kbps() != key_user()) by { assert(key_recv_kbps().len() == 8); assert(key_user().len() == 4); };
    assert(key_send_kbps() != key_user()) by { assert(key_send_kbps().len() == 8); assert(key_user().len() == 4); };
    assert(key_state() != key_user()) by { assert(key_state().len() == 5); assert(key_user().len() == 4); };
    assert(dict_get(p0, key_user()) == dict_get(p1, key_user()));
    assert(dict_get(p1, key_user()) == dict_get(p2, key_user()));
    assert(dict_get(p2, key_user()) == dict_get(p3, key_user()));
    assert(dict_get(p3, key_user()) == dict_get(p4, key_user()));
    assert(dict_get(p4, key_user()) == dict_get(p5, key_user()));
    assert(dict_get(p5, key_user()) == dict_get(p6, key_user()));
    assert(dict_get(p6, key_user()) == dict_get(p7, key_user()));
    assert(dict_get(p7, key_user()) == dict_get(p8, key_user()));
    assert(dict_get(p8, key_user()) == dict_get(p9, key_user()));
    assert(dict_get(p9, key_user()) == dict_get(p10, key_user()));
    assert(dict_get(p10, key_user()) == dict_get(p11, key_user()));
    assert(dict_get(p0, key_user()) == Some(BVal::Bytes(x.user)));
}

/// The wire value this crate's model assigns to a `EncodingScheme`: its fields
/// under their keys, in byte-sorted key order.
pub open spec fn scheme_bval(x: EncodingSchemeV) -> BVal {
    BVal::Dict(seq![(key_bit_count(), BVal::Int(x.bitCount)), (key_prefix(), BVal::Bytes(x.prefix)), (key_prefix_len(), BVal::Int(x.prefixLen))])
}

pub proof fn lemma_of_bval_scheme(x: EncodingSchemeV)
    ensures
        EncodingScheme::of_bval(scheme_bval(x)) == Some(x),
{
    let p0 = seq![(key_bit_count(), BVal::Int(x.bitCount)), (key_prefix(), BVal::Bytes(x.prefix)), (key_prefix_len(), BVal::Int(x.prefixLen))];
    let p1 = seq![(key_prefix(), BVal::Bytes(x.prefix)), (key_prefix_len(), BVal::Int(x.prefixLen))];
    let p2 = seq![(key_prefix_len(), BVal::Int(x.prefixLen))];
    assert(p0.drop_first() =~= p1);
    assert(p1.drop_first() =~= p2);
    assert(dict_get(p0, key_bit_count()) == Some(BVal::Int(x.bitCount)));
    assert(key_bit_count() != key_prefix()) by { assert(key_bit_count().len() == 8); assert(key_prefix().len() == 6); };
    assert(dict_get(p0, key_prefix()) == dict_get(p1, key_prefix()));
    assert(dict_get(p0, key_prefix()) == Some(BVal::Bytes(x.prefix)));
    assert(key_bit_count() != key_prefix_len()) by { assert(key_bit_count().len() == 8); assert(key_prefix_len().len() == 9); };
    assert(key_prefix() != key_prefix_len()) by { assert(key_prefix().len() == 6); assert(key_prefix_len().len() == 9); };
    assert(dict_get(p0, key_prefix_len()) == dict_get(p1, key_prefix_len()));
    assert(dict_get(p1, key_prefix_len()) == dict_get(p2, key_prefix_len()));
    assert(dict_get(p0, key_prefix_len()) == Some(BVal::Int(x.prefixLen)));
}

/// The wire value this crate's model assigns to a `Parent`: its fields
/// under their keys, in byte-sorted key order.
pub open spec fn parent_bval(x: ParentV) -> BVal {
    BVal::Dict(seq![(key_ip(), BVal::Bytes(x.ip)), (key_is_one_hop(), BVal::Int(x.isOneHop)), (key_parent_child_label(), BVal::Bytes(x.parentChildLabel))])
}

pub proof fn lemma_of_bval_parent(x: ParentV)
    ensures
        Parent::of_bval(parent_bval(x)) == Some(x),
{
    let p0 = seq![(key_ip(), BVal::Bytes(x.ip)), (key_is_one_hop(), BVal::Int(x.isOneHop)), (key_parent_child_label(), BVal::Bytes(x.parentChildLabel))];
    let p1 = seq![(key_is_one_hop(), BVal::Int(x.isOneHop)), (key_parent_child_label(), BVal::Bytes(x.parentChildLabel))];
    let p2 = seq![(key_parent_child_label(), BVal::Bytes(x.parentChildLabel))];
    assert(p0.drop_first() =~= p1);
    assert(p1.drop_first() =~= p2);
    assert(dict_get(p0, key_ip()) == Some(BVal::Bytes(x.ip)));
    assert(key_ip() != key_is_one_hop()) by { assert(key_ip().len() == 2); assert(key_is_one_hop().len() == 8); };
    assert(dict_get(p0, key_is_one_hop()) == dict_get(p1, key_is_one_hop()));
    assert(dict_get(p0, key_is_one_hop()) == Some(BVal::Int(x.isOneHop)));
    assert(key_ip() != key_parent_child_label()) by { assert(key_ip().len() == 2); assert(key_parent_child_label().len() == 16); };
    assert(key_is_one_hop() != key_parent_child_label()) by { assert(key_is_one_hop().len() == 8); assert(key_parent_child_label().len() == 16); };
    assert(dict_get(p0, key_parent_child_label()) == dict_get(p1, key_parent_child_label()));
    assert(dict_get(p1, key_parent_child_label()) == dict_get(p2, key_parent_child_label()));
    assert(dict_get(p0, key_parent_child_label()) == Some(BVal::Bytes(x.parentChildLabel)));
}

pub proof fn lemma_peer_items_of_bvals(xs: Seq<PeerV>)
    ensures
        peer_items(xs.map_values(|x: PeerV| peer_bval(x))) == Some(xs),
    decreases xs.len(),
{
    let bs = xs.map_values(|x: PeerV| peer_bval(x));
    if xs.len() == 0 {
        assert(bs.len() == 0);
        assert(Seq::<PeerV>::empty() =~= xs);
    } else {
        lemma_of_bval_peer(xs[0]);
        assert(bs[0] == peer_bval(xs[0]));
        assert(bs.drop_first() =~= xs.drop_first().map_values(|x: PeerV| peer_bval(x)));
        lemma_peer_items_of_bvals(xs.drop_first());
        assert(seq![xs[0]] + xs.drop_first() =~= xs);
    }
}

pub proof fn lemma_scheme_items_of_bvals(xs: Seq<EncodingSchemeV>)
    ensures
        scheme_items(xs.map_values(|x: EncodingSchemeV| scheme_bval(x))) == Some(xs),
    decreases xs.len(),
{
    let bs = xs.map_values(|x: EncodingSchemeV| scheme_bval(x));
    if xs.len() == 0 {
        assert(bs.len() == 0);
        assert(Seq::<EncodingSchemeV>::empty() =~= xs);
    } else {
        lemma_of_bval_scheme(xs[0]);
        assert(bs[0] == scheme_bval(xs[0]));
        assert(bs.drop_first() =~= xs.drop_first().map_values(|x: EncodingSchemeV| scheme_bval(x)));
        lemma_scheme_items_of_bvals(xs.drop_first());
        assert(seq![xs[0]] + xs.drop_first() =~= xs);
    }
}

pub proof fn lemma_route_items_of_bvals(xs: Seq<RouteV>)
    ensures
        route_items(xs.map_values(|x: RouteV| route_bval(x))) == Some(xs),
    decreases xs.len(),
{
    let bs = xs.map_values(|x: RouteV| route_bval(x));
    if xs.len() == 0 {
        assert(bs.len() == 0);
        assert(Seq::<RouteV>::empty() =~= xs);
    } else {
        lemma_of_bval_route(xs[0]);
        assert(bs[0] == route_bval(xs[0]));
        assert(bs.drop_first() =~= xs.drop_first().map_values(|x: RouteV| route_bval(x)));
        lemma_route_items_of_bvals(xs.drop_first());
        assert(seq![xs[0]] + xs.drop_first() =~= xs);
    }
}

/// The wire value of a `Pong`.
pub open spec fn pong_bval(x: PongV) -> BVal {
    BVal::Dict(seq![(key_q(), BVal::Bytes(x.q))])
}

pub proof fn lemma_of_bval_pong(x: PongV)
    ensures
        Pong::of_bval(pong_bval(x)) == Some(x),
{
    assert(dict_get(seq![(key_q(), BVal::Bytes(x.q))], key_q()) == Some(BVal::Bytes(x.q)));
}

/// The wire value of a page marker: `more` present exactly when set.
pub open spec fn page_bval(x: CjdnsPage) -> BVal {
    BVal::Dict(
        match x.more {
            Some(n) => seq![(key_more(), BVal::Int(n))],
            None => Seq::empty(),
        },
    )
}

pub proof fn lemma_of_bval_page(x: CjdnsPage)
    ensures
        CjdnsPage::of_bval(page_bval(x)) == Some(x),
{
    match x.more {
        Some(n) => {
            assert(dict_get(seq![(key_more(), BVal::Int(n))], key_more()) == Some(BVal::Int(n)));
        },
        None => {
            assert(dict_get(Seq::<(Seq<u8>, BVal)>::empty(), key_more()) is None);
        },
    }
}

/// The wire value of a `PeerStats` page.
pub open spec fn peerstats_bval(x: PeerStatsV) -> BVal {
    BVal::Dict(seq![(key_peers(), BVal::List(x.peers.map_values(|p: PeerV| peer_bval(p))))])
}

pub proof fn lemma_of_bval_peerstats(x: PeerStatsV)
    ensures
        PeerStats::of_bval(peerstats_bval(x)) == Some(x),
{
    let items = x.peers.map_values(|p: PeerV| peer_bval(p));
    assert(dict_get(seq![(key_peers(), BVal::List(items))], key_peers()) == Some(
        BVal::List(items),
    ));
    lemma_peer_items_of_bvals(x.peers);
}

/// The wire value of a `NodeStore` page.
pub open spec fn nodestore_bval(x: NodeStoreV) -> BVal {
    BVal::Dict(
        seq![
            (key_routing_table(), BVal::List(x.routingTable.map_values(|p: RouteV| route_bval(p)))),
        ],
    )
}

pub proof fn lemma_of_bval_nodestore(x: NodeStoreV)
    ensures
        NodeStore::of_bval(nodestore_bval(x)) == Some(x),
{
    let items = x.routingTable.map_values(|p: RouteV| route_bval(p));
    assert(dict_get(seq![(key_routing_table(), BVal::List(items))], key_routing_table()) == Some(
        BVal::List(items),
    ));
    lemma_route_items_of_bvals(x.routingTable);
}

/// The wire value of a `Node`, its keys in byte-sorted order.
pub open spec fn node_bval(x: NodeV) -> BVal {
    BVal::Dict(
        seq![
            (key_best_parent(), parent_bval(x.bestParent)),
            (key_cost(), BVal::Int(x.cost)),
            (
                key_encoding_scheme(),
                BVal::List(x.encodingScheme.map_values(|p: EncodingSchemeV| scheme_bval(p))),
            ),
            (key_key(), BVal::Bytes(x.key)),
            (key_link_count(), BVal::Int(x.linkCount)),
            (key_protocol_version(), BVal::Int(x.protocolVersion)),
            (key_route_label(), BVal::Bytes(x.routeLabel)),
        ],
    )
}

pub proof fn lemma_of_bval_node(x: NodeV)
    ensures
        Node::of_bval(node_bval(x)) == Some(x),
{
    let p0 = seq![(key_best_parent(), parent_bval(x.bestParent)), (key_cost(), BVal::Int(x.cost)), (key_encoding_scheme(), BVal::List(x.encodingScheme.map_values(|p: EncodingSchemeV| scheme_bval(p)))), (key_key(), BVal::Bytes(x.key)), (key_link_count(), BVal::Int(x.linkCount)), (key_protocol_version(), BVal::Int(x.protocolVersion)), (key_route_label(), BVal::Bytes(x.routeLabel))];
    let p1 = seq![(key_cost(), BVal::Int(x.cost)), (key_encoding_scheme(), BVal::List(x.encodingScheme.map_values(|p: EncodingSchemeV| scheme_bval(p)))), (key_key(), BVal::Bytes(x.key)), (key_link_count(), BVal::Int(x.linkCount)), (key_protocol_version(), BVal::Int(x.protocolVersion)), (key_route_label(), BVal::Bytes(x.routeLabel))];
    let p2 = seq![(key_encoding_scheme(), BVal::List(x.encodingScheme.map_values(|p: EncodingSchemeV| scheme_bval(p)))), (key_key(), BVal::Bytes(x.key)), (key_link_count(), BVal::Int(x.linkCount)), (key_protocol_version(), BVal::Int(x.protocolVersion)), (key_route_label(), BVal::Bytes(x.routeLabel))];
    let p3 = seq![(key_key(), BVal::Bytes(x.key)), (key_link_count(), BVal::Int(x.linkCount)), (key_protocol_version(), BVal::Int(x.protocolVersion)), (key_route_label(), BVal::Bytes(x.routeLabel))];
    let p4 = seq![(key_link_count(), BVal::Int(x.linkCount)), (key_protocol_version(), BVal::Int(x.protocolVersion)), (key_route_label(), BVal::Bytes(x.routeLabel))];
    let p5 = seq![(key_protocol_version(), BVal::Int(x.protocolVersion)), (key_route_label(), BVal::Bytes(x.routeLabel))];
    let p6 = seq![(key_route_label(), BVal::Bytes(x.routeLabel))];
    assert(p0.drop_first() =~= p1);
    assert(p1.drop_first() =~= p2);
    assert(p2.drop_first() =~= p3);
    assert(p3.drop_first() =~= p4);
    assert(p4.drop_first() =~= p5);
    assert(p5.drop_first() =~= p6);
    assert(dict_get(p0, key_best_parent()) == Some(parent_bval(x.bestParent)));
    assert(key_best_parent() != key_cost()) by { assert(key_best_parent().len() == 10); assert(key_cost().len() == 4); };
    assert(dict_get(p0, key_cost()) == dict_get(p1, key_cost()));
    assert(dict_get(p0, key_cost()) == Some(BVal::Int(x.cost)));
    assert(key_best_parent() != key_encoding_scheme()) by { assert(key_best_parent().len() == 10); assert(key_encoding_scheme().len() == 14); };
    assert(key_cost() != key_encoding_scheme()) by { assert(key_cost().len() == 4); assert(key_encoding_scheme().len() == 14); };
    assert(dict_get(p0, key_encoding_scheme()) == dict_get(p1, key_encoding_scheme()));
    assert(dict_get(p1, key_encoding_scheme()) == dict_get(p2, key_encoding_scheme()));
    assert(dict_get(p0, key_encoding_scheme()) == Some(BVal::List(x.encodingScheme.map_values(|p: EncodingSchemeV| scheme_bval(p)))));
    assert(key_best_parent() != key_key()) by { assert(key_best_parent().len() == 10); assert(key_key().len() == 3); };
    assert(key_cost() != key_key()) by { assert(key_cost().len() == 4); assert(key_key().len() == 3); };
    assert(key_encoding_scheme() != key_key()) by { assert(key_encoding_scheme().len() == 14); assert(key_key().len() == 3); };
    assert(dict_get(p0, key_key()) == dict_get(p1, key_key()));
    assert(dict_get(p1, key_key()) == dict_get(p2, key_key()));
    assert(dict_get(p2, key_key()) == dict_get(p3, key_key()));
    assert(dict_get(p0, key_key()) == Some(BVal::Bytes(x.key)));
    assert(key_best_parent() != key_link_count()) by { assert(key_best_parent().len() == 10); assert(key_link_count().len() == 9); };
    assert(key_cost() != key_link_count()) by { assert(key_cost().len() == 4); assert(key_link_count().len() == 9); };
    assert(key_encoding_scheme() != key_link_count()) by { assert(key_encoding_scheme().len() == 14); assert(key_link_count().len() == 9); };
    assert(key_key() != key_link_count()) by { assert(key_key().len() == 3); assert(key_link_count().len() == 9); };
    assert(dict_get(p0, key_link_count()) == dict_get(p1, key_link_count()));
    assert(dict_get(p1, key_link_count()) == dict_get(p2, key_link_count()));
    assert(dict_get(p2, key_link_count()) == dict_get(p3, key_link_count()));
    assert(dict_get(p3, key_link_count()) == dict_get(p4, key_link_count()));
    assert(dict_get(p0, key_link_count()) == Some(BVal::Int(x.linkCount)));
    assert(key_best_parent() != key_protocol_version()) by { assert(key_best_parent().len() == 10); assert(key_protocol_version().len() == 15); };
    assert(key_cost() != key_protocol_version()) by { assert(key_cost().len() == 4); assert(key_protocol_version().len() == 15); };
    assert(key_encoding_scheme() != key_protocol_version()) by { assert(key_encoding_scheme().len() == 14); assert(key_protocol_version().len() == 15); };
    assert(key_key() != key_protocol_version()) by { assert(key_key().len() == 3); assert(key_protocol_version().len() == 15); };
    assert(key_link_count() != key_protocol_version()) by { assert(key_link_count().len() == 9); assert(key_protocol_version().len() == 15); };
    assert(dict_get(p0, key_protocol_version()) == dict_get(p1, key_protocol_version()));
    assert(dict_get(p1, key_protocol_version()) == dict_get(p2, key_protocol_version()));
    assert(dict_get(p2, key_protocol_version()) == dict_get(p3, key_protocol_version()));
    assert(dict_get(p3, key_protocol_version()) == dict_get(p4, key_protocol_version()));
    assert(dict_get(p4, key_protocol_version()) == dict_get(p5, key_protocol_version()));
    assert(dict_get(p0, key_protocol_version()) == Some(BVal::Int(x.protocolVersion)));
    assert(key_best_parent() != key_route_label()) by { assert(key_best_parent()[0] == 98); assert(key_route_label()[0] == 114); };
    assert(key_cost() != key_route_label()) by { assert(key_cost().len() == 4); assert(key_route_label().len() == 10); };
    assert(key_encoding_scheme() != key_route_label()) by { assert(key_encoding_scheme().len() == 14); assert(key_route_label().len() == 10); };
    assert(key_key() != key_route_label()) by { assert(key_key().len() == 3); assert(key_route_label().len() == 10); };
    assert(key_link_count() != key_route_label()) by { assert(key_link_count().len() == 9); assert(key_route_label().len() == 10); };
    assert(key_protocol_version() != key_route_label()) by { assert(key_protocol_version().len() == 15); assert(key_route_label().len() == 10); };
    assert(dict_get(p0, key_route_label()) == dict_get(p1, key_route_label()));
    assert(dict_get(p1, key_route_label()) == dict_get(p2, key_route_label()));
    assert(dict_get(p2, key_route_label()) == dict_get(p3, key_route_label()));
    assert(dict_get(p3, key_route_label()) == dict_get(p4, key_route_label()));
    assert(dict_get(p4, key_route_label()) == dict_get(p5, key_route_label()));
    assert(dict_get(p5, key_route_label()) == dict_get(p6, key_route_label()));
    assert(dict_get(p0, key_route_label()) == Some(BVal::Bytes(x.routeLabel)));
    lemma_of_bval_parent(x.bestParent);
    lemma_scheme_items_of_bvals(x.encodingScheme);
}

/// The wire value of a result envelope around any inner wire value.
pub open spec fn result_bval(error: Seq<u8>, rv: BVal) -> BVal {
    BVal::Dict(seq![(key_error(), BVal::Bytes(error)), (key_result(), rv)])
}

pub proof fn lemma_of_bval_result<T: WireDecode>(error: Seq<u8>, rv: BVal, res: T::V)
    ensures
        T::of_bval(rv) == Some(res) ==> CjdnsResult::<T>::of_bval(result_bval(error, rv)) == Some(
            (CjdnsResultV { error, result: res }),
        ),
{
    let p0 = seq![(key_error(), BVal::Bytes(error)), (key_result(), rv)];
    let p1 = seq![(key_result(), rv)];
    assert(p0.drop_first() =~= p1);
    assert(key_error() != key_result()) by { assert(key_error().len() == 5); assert(key_result().len() == 6); };
    assert(dict_get(p0, key_error()) == Some(BVal::Bytes(error)));
    assert(dict_get(p0, key_result()) == dict_get(p1, key_result()));
    assert(dict_get(p0, key_result()) == Some(rv));
}

/// Round trip: decoding the encoding of any `Pong` wire value yields
/// the value back.
pub proof fn lemma_roundtrip_pong(x: PongV)
    ensures
        spec_decode::<Pong>(spec_enc(pong_bval(x))) == Some(x),
{
    lemma_of_bval_pong(x);
    let v = pong_bval(x);
    let e = spec_enc(v);
    assert(e.subrange(0, e.len() as int) =~= e);
    crate::bencode::lemma_parse_enc(v, e, 0);
}

/// Round trip: decoding the encoding of any `CjdnsPage` wire value yields
/// the value back.
pub proof fn lemma_roundtrip_page(x: CjdnsPage)
    ensures
        spec_decode::<CjdnsPage>(spec_enc(page_bval(x))) == Some(x),
{
    lemma_of_bval_page(x);
    let v = page_bval(x);
    let e = spec_enc(v);
    assert(e.subrange(0, e.len() as int) =~= e);
    crate::bencode::lemma_parse_enc(v, e, 0);
}

/// Round trip: decoding the encoding of any `Route` wire value yields
/// the value back.
pub proof fn lemma_roundtrip_route(x: RouteV)
    ensures
        spec_decode::<Route>(spec_enc(route_bval(x))) == Some(x),
{
    lemma_of_bval_route(x);
    let v = route_bval(x);
    let e = spec_enc(v);
    assert(e.subrange(0, e.len() as int) =~= e);
    crate::bencode::lemma_parse_enc(v, e, 0);
}

/// Round trip: decoding the encoding of any `Peer` wire value yields
/// the value back.
pub proof fn lemma_roundtrip_peer(x: PeerV)
    ensures
        spec_decode::<Peer>(spec_enc(peer_bval(x))) == Some(x),
{
    lemma_of_bval_peer(x);
    let v = peer_bval(x);
    let e = spec_enc(v);
    assert(e.subrange(0, e.len() as int) =~= e);
    crate::bencode::lemma_parse_enc(v, e, 0);
}

/// Round trip: decoding the encoding of any `EncodingScheme` wire value yields
/// the value back.
pub proof fn lemma_roundtrip_scheme(x: EncodingSchemeV)
    ensures
        spec_decode::<EncodingScheme>(spec_enc(scheme_bval(x))) == Some(x),
{
    lemma_of_bval_scheme(x);
    let v = scheme_bval(x);
    let e = spec_enc(v);
    assert(e.subrange(0, e.len() as int) =~= e);
    crate::bencode::lemma_parse_enc(v, e, 0);
}

/// Round trip: decoding the encoding of any `Parent` wire value yields
/// the value back.
pub proof fn lemma_roundtrip_parent(x: ParentV)
    ensures
        spec_decode::<Parent>(spec_enc(parent_bval(x))) == Some(x),
{
    lemma_of_bval_parent(x);
    let v = parent_bval(x);
    let e = spec_enc(v);
    assert(e.subrange(0, e.len() as int) =~= e);
    crate::bencode::lemma_parse_enc(v, e, 0);
}

/// Round trip: decoding the encoding of any `PeerStats` wire value yields
/// the value back.
pub proof fn lemma_roundtrip_peerstats(x: PeerStatsV)
    ensures
        spec_decode::<PeerStats>(spec_enc(peerstats_bval(x))) == Some(x),
{
    lemma_of_bval_peerstats(x);
    let v = peerstats_bval(x);
    let e = spec_enc(v);
    assert(e.subrange(0, e.len() as int) =~= e);
    crate::bencode::lemma_parse_enc(v, e, 0);
}

/// Round trip: decoding the encoding of any `NodeStore` wire value yields
/// the value back.
pub proof fn lemma_roundtrip_nodestore(x: NodeStoreV)
    ensures
        spec_decode::<NodeStore>(spec_enc(nodestore_bval(x))) == Some(x),
{
    lemma_of_bval_nodestore(x);
    let v = nodestore_bval(x);
    let e = spec_enc(v);
    assert(e.subrange(0, e.len() as int) =~= e);
    crate::bencode::lemma_parse_enc(v, e, 0);
}

/// Round trip: decoding the encoding of any `Node` wire value yields
/// the value back.
pub proof fn lemma_roundtrip_node(x: NodeV)
    ensures
        spec_decode::<Node>(spec_enc(node_bval(x))) == Some(x),
{
    lemma_of_bval_node(x);
    let v = node_bval(x);
    let e = spec_enc(v);
    assert(e.subrange(0, e.len() as int) =~= e);
    crate::bencode::lemma_parse_enc(v, e, 0);
}

/// Round trip for the result envelope: decoding the encoding of an
/// envelope around any decodable inner value yields both back.
pub proof fn lemma_roundtrip_result<T: WireDecode>(error: Seq<u8>, rv: BVal, res: T::V)
    requires
        T::of_bval(rv) == Some(res),
    ensures
        spec_decode::<CjdnsResult<T>>(spec_enc(result_bval(error, rv))) == Some(
            (CjdnsResultV { error, result: res }),
        ),
{
    lemma_of_bval_result::<T>(error, rv, res);
    let v = result_bval(error, rv);
    let e = spec_enc(v);
    assert(e.subrange(0, e.len() as int) =~= e);
    crate::bencode::lemma_parse_enc(v, e, 0);
}

/// Round trip on the request side: the bytes a request encodes to parse
/// back to exactly its wire value, spanning the whole buffer.
pub proof fn lemma_roundtrip_msg(m: CjdnsMsgV)
    ensures
        spec_parse(spec_enc(msg_bval(m)), 0) == Some(
            (msg_bval(m), spec_enc(msg_bval(m)).len() as int),
        ),
{
    let v = msg_bval(m);
    let e = spec_enc(v);
    assert(e.subrange(0, e.len() as int) =~= e);
    crate::bencode::lemma_parse_enc(v, e, 0);
}

} // verus!
