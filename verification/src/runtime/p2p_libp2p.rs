//! The decisions of a networked content node: the bitswap wire format, and a state machine from
//! commands and network events to actions.
//!
//! The swarm itself (routing queries, streams, timers) runs outside: it performs the action and
//! hands back the event. Queries, requests, response channels and waiting callers are numbered by
//! the one who runs the loop.
use crate::runtime::content::{hex, hex_digit, hex_of, id_of, ContentId, ContentStore};
use crate::runtime::p2p::{
    block_view, ContentSourceError, PeerId, Provider, ProviderView, SourceErrorView,
};
use crate::runtime::string_map::{bytes_in, StringMap};
use std::collections::HashMap;
use vstd::prelude::*;
use vstd::string::*;
use vstd::utf8::encode_utf8;

verus! {

broadcast use vstd::std_specs::hash::group_hash_axioms;

/// A number as four bytes, the highest first.
pub open spec fn be_bytes(n: int) -> Seq<u8> {
    seq![
        (n / 0x100_0000) as u8,
        (n / 0x1_0000 % 0x100) as u8,
        (n / 0x100 % 0x100) as u8,
        (n % 0x100) as u8,
    ]
}

/// The number that the first four bytes stand for.
pub open spec fn be_value(b: Seq<u8>) -> int {
    b[0] * 0x100_0000 + b[1] * 0x1_0000 + b[2] * 0x100 + b[3]
}

/// Bytes behind their length.
pub open spec fn framed(body: Seq<u8>) -> Seq<u8> {
    be_bytes(body.len() as int) + body
}

/// What stands behind a length at the start, where all of it is there.
pub open spec fn unframed(b: Seq<u8>) -> Option<Seq<u8>> {
    if b.len() < 4 || b.len() < 4 + be_value(b) {
        None
    } else {
        Some(b.subrange(4, 4 + be_value(b)))
    }
}

/// Bitswap wire request: "do you have this content id? send me the bytes."
#[derive(Debug, Clone, PartialEq, Eq)]
pub struct BitswapRequest {
    pub content_id: Vec<u8>,
}

/// Bitswap wire response: the requested bytes, or `None` if not held.
#[derive(Debug, Clone, PartialEq, Eq)]
pub struct BitswapResponse {
    pub result: Option<Vec<u8>>,
}

/// A response on the wire: a zero, or a one and the bytes behind their length.
pub open spec fn response_bytes(result: Option<Seq<u8>>) -> Seq<u8> {
    match result {
        None => seq![0u8],
        Some(b) => seq![1u8] + framed(b),
    }
}

/// The response at the start of wire bytes, where all of it is there.
pub open spec fn response_in(b: Seq<u8>) -> Option<Option<Seq<u8>>> {
    if b.len() == 0 {
        None
    } else if b[0] == 0 {
        Some(None)
    } else {
        match unframed(b.skip(1)) {
            Some(body) => Some(Some(body)),
            None => None,
        }
    }
}

/// The length that four header bytes announce.
pub fn frame_length(header: &[u8]) -> (n: u32)
    requires
        header@.len() == 4,
    ensures
        n == be_value(header@),
{
    (header[0] as u32) * 0x100_0000 + (header[1] as u32) * 0x1_0000 + (header[2] as u32) * 0x100 + (
    header[3] as u32)
}

fn push_framed(out: &mut Vec<u8>, body: &[u8])
    requires
        body@.len() <= u32::MAX,
    ensures
        final(out)@ == old(out)@ + framed(body@),
{
    let ghost was = out@;
    let n = body.len() as u32;
    out.push((n / 0x100_0000) as u8);
    out.push((n / 0x1_0000 % 0x100) as u8);
    out.push((n / 0x100 % 0x100) as u8);
    out.push((n % 0x100) as u8);
    let mut rest = vstd::slice::slice_to_vec(body);
    out.append(&mut rest);
    assert(out@ =~= was + framed(body@));
}

fn read_framed(b: &[u8]) -> (r: Option<Vec<u8>>)
    ensures
        r.deep_view() == unframed(b@),
{
    if b.len() < 4 {
        return None;
    }
    let header = vstd::slice::slice_subrange(b, 0, 4);
    assert(be_value(header@) == be_value(b@));
    let n = frame_length(header);
    if b.len() as u64 >= 4 + n as u64 {
        let body = vstd::slice::slice_to_vec(vstd::slice::slice_subrange(b, 4, 4 + n as usize));
        assert(body.deep_view() =~= body@);
        Some(body)
    } else {
        None
    }
}

/// A request on the wire.
pub fn encode_request(req: &BitswapRequest) -> (b: Vec<u8>)
    requires
        req.content_id@.len() <= u32::MAX,
    ensures
        b@ == framed(req.content_id@),
{
    let mut out: Vec<u8> = Vec::new();
    push_framed(&mut out, &req.content_id);
    assert(out@ =~= framed(req.content_id@));
    out
}

/// The request at the start of wire bytes, where all of it is there.
pub fn decode_request(b: &[u8]) -> (r: Option<BitswapRequest>)
    ensures
        match (r, unframed(b@)) {
            (Some(x), Some(body)) => x.content_id@ == body,
            (None, None) => true,
            _ => false,
        },
{
    match read_framed(b) {
        Some(content_id) => {
            assert(content_id.deep_view() =~= content_id@);
            Some(BitswapRequest { content_id })
        },
        None => None,
    }
}

/// A response on the wire.
pub fn encode_response(res: &BitswapResponse) -> (b: Vec<u8>)
    requires
        res.result matches Some(x) ==> x@.len() <= u32::MAX,
    ensures
        b@ == response_bytes(
            match res.result {
                Some(x) => Some(x@),
                None => None,
            },
        ),
{
    let mut out: Vec<u8> = Vec::new();
    match &res.result {
        None => {
            out.push(0);
            assert(out@ =~= seq![0u8]);
        },
        Some(x) => {
            out.push(1);
            assert(out@ =~= seq![1u8]);
            push_framed(&mut out, x);
        },
    }
    out
}

/// The response at the start of wire bytes, where all of it is there.
pub fn decode_response(b: &[u8]) -> (r: Option<BitswapResponse>)
    ensures
        match (r, response_in(b@)) {
            (Some(x), Some(v)) => x.result.deep_view() == v,
            (None, None) => true,
            _ => false,
        },
{
    if b.len() == 0 {
        return None;
    }
    if b[0] == 0 {
        return Some(BitswapResponse { result: None });
    }
    let n = b.len();
    let rest = vstd::slice::slice_subrange(b, 1, n);
    assert(rest@ =~= b@.skip(1));
    match read_framed(rest) {
        Some(x) => Some(BitswapResponse { result: Some(x) }),
        None => None,
    }
}

proof fn lemma_be_value(n: int, rest: Seq<u8>)
    requires
        0 <= n <= u32::MAX,
    ensures
        be_value(be_bytes(n) + rest) == n,
{
    let (a, b, c, d) = (n / 0x100_0000, n / 0x1_0000 % 0x100, n / 0x100 % 0x100, n % 0x100);
    assert(0 <= a < 256 && 0 <= b < 256 && 0 <= c < 256 && 0 <= d < 256);
    assert(n == a * 0x100_0000 + b * 0x1_0000 + c * 0x100 + d);
}

/// What was encoded is decoded, whatever follows it on the stream.
pub proof fn law_frames_round_trip(body: Seq<u8>, rest: Seq<u8>)
    requires
        body.len() <= u32::MAX,
    ensures
        unframed(framed(body) + rest) == Some(body),
        response_in(response_bytes(Some(body)) + rest) == Some(Some(body)),
        response_in(response_bytes(None) + rest) == Some(None::<Seq<u8>>),
{
    let n = body.len() as int;
    lemma_be_value(n, body + rest);
    let b = framed(body) + rest;
    assert(b =~= be_bytes(n) + (body + rest));
    assert(b.subrange(4, 4 + n) =~= body);
    assert((response_bytes(Some(body)) + rest).skip(1) =~= b);
}

/// The value of a hex digit of either case.
pub open spec fn hex_value(b: u8) -> Option<int> {
    if 48 <= b <= 57 {
        Some(b - 48)
    } else if 97 <= b <= 102 {
        Some(b - 87)
    } else if 65 <= b <= 70 {
        Some(b - 55)
    } else {
        None
    }
}

/// The byte that one or two characters stand for in hex. A plus sign may stand before a single
/// digit.
pub open spec fn pair_value(c: Seq<u8>) -> Option<u8> {
    if c.len() == 1 {
        match hex_value(c[0]) {
            Some(a) => Some(a as u8),
            None => None,
        }
    } else {
        match (hex_value(c[0]), hex_value(c[1])) {
            (Some(a), Some(b)) => Some((16 * a + b) as u8),
            (None, Some(b)) => if c[0] == 43 {
                Some(b as u8)
            } else {
                None
            },
            _ => None,
        }
    }
}

/// The bytes that hex text stands for, pair by pair; pairs that are no hex are passed over.
pub open spec fn bytes_of_hex(t: Seq<u8>) -> Seq<u8>
    decreases t.len(),
{
    if t.len() == 0 {
        Seq::empty()
    } else {
        let k = if t.len() == 1 {
            1int
        } else {
            2
        };
        match pair_value(t.take(k)) {
            Some(b) => seq![b] + bytes_of_hex(t.skip(k)),
            None => bytes_of_hex(t.skip(k)),
        }
    }
}

fn digit_value(b: u8) -> (r: Option<u8>)
    ensures
        match (r, hex_value(b)) {
            (Some(x), Some(v)) => x == v && x < 16,
            (None, None) => true,
            _ => false,
        },
{
    if 48 <= b && b <= 57 {
        Some(b - 48)
    } else if 97 <= b && b <= 102 {
        Some(b - 87)
    } else if 65 <= b && b <= 70 {
        Some(b - 55)
    } else {
        None
    }
}

/// The bytes that hex text stands for.
pub fn hex_to_bytes(hex: &str) -> (r: Vec<u8>)
    ensures
        r@ == bytes_of_hex(encode_utf8(hex@)),
{
    let t = hex.as_bytes_vec();
    let n = t.len();
    let mut out: Vec<u8> = Vec::new();
    let mut i: usize = 0;
    assert(t@.skip(0) =~= t@);
    assert(out@ + bytes_of_hex(t@.skip(0)) =~= bytes_of_hex(t@));
    while i < n
        invariant
            0 <= i <= n,
            n == t@.len(),
            out@ + bytes_of_hex(t@.skip(i as int)) == bytes_of_hex(t@),
        decreases n - i,
    {
        let ghost was = out@;
        let ghost rest = t@.skip(i as int);
        let k: usize = if n - i == 1 {
            1
        } else {
            2
        };
        proof {
            assert(rest.skip(k as int) =~= t@.skip(i + k));
            assert(rest.take(k as int)[0] == t@[i as int]);
            if k == 2 {
                assert(rest.take(k as int)[1] == t@[i + 1]);
            }
        }
        let value: Option<u8> = if k == 1 {
            digit_value(t[i])
        } else {
            match (digit_value(t[i]), digit_value(t[i + 1])) {
                (Some(a), Some(b)) => Some(16 * a + b),
                (None, Some(b)) => if t[i] == 43 {
                    Some(b)
                } else {
                    None
                },
                _ => None,
            }
        };
        assert(value == pair_value(rest.take(k as int)));
        if let Some(b) = value {
            out.push(b);
            assert(was + (seq![b] + bytes_of_hex(rest.skip(k as int))) =~= out@ + bytes_of_hex(
                rest.skip(k as int),
            ));
        }
        i = i + k;
    }
    assert(bytes_of_hex(t@.skip(i as int)) =~= Seq::<u8>::empty());
    assert(out@ =~= bytes_of_hex(t@));
    out
}

/// The identifier whose hex stands for the bytes.
pub fn content_id_from_bytes(bytes: &[u8]) -> (id: ContentId)
    ensures
        id@ == hex_of(bytes@),
{
    ContentId(hex(bytes))
}

proof fn lemma_hex_is_ascii(d: int)
    requires
        0 <= d < 16,
    ensures
        '\0' <= hex_digit(d) <= '\u{7f}',
        hex_value(hex_digit(d) as u8) == Some(d),
{
    if d < 10 {
        assert(hex_digit(d) as int == 48 + d);
    } else {
        assert(hex_digit(d) as int == 87 + d);
    }
}

proof fn lemma_hex_pairs(bytes: Seq<u8>, t: Seq<u8>)
    requires
        t.len() == 2 * bytes.len(),
        forall|i: int|
            0 <= i < bytes.len() ==> hex_value(t[2 * i]) == Some(#[trigger] bytes[i] as int / 16)
                && hex_value(t[2 * i + 1]) == Some(bytes[i] as int % 16),
    ensures
        bytes_of_hex(t) == bytes,
    decreases bytes.len(),
{
    if bytes.len() > 0 {
        let rest = bytes.skip(1);
        let u = t.skip(2);
        assert forall|i: int| 0 <= i < rest.len() implies hex_value(u[2 * i]) == Some(
            #[trigger] rest[i] as int / 16,
        ) && hex_value(u[2 * i + 1]) == Some(rest[i] as int % 16) by {
            assert(rest[i] == bytes[i + 1]);
            assert(u[2 * i] == t[2 * (i + 1)]);
            assert(u[2 * i + 1] == t[2 * (i + 1) + 1]);
        }
        lemma_hex_pairs(rest, u);
        assert(bytes[0] as int == 16 * (bytes[0] as int / 16) + bytes[0] as int % 16);
        assert(hex_value(t[2 * 0int]) == Some(bytes[0] as int / 16));
        assert(t.take(2)[0] == t[0] && t.take(2)[1] == t[1]);
        assert(pair_value(t.take(2)) == Some(bytes[0]));
        assert(seq![bytes[0]] + rest =~= bytes);
    } else {
        assert(bytes_of_hex(t) =~= bytes);
    }
}

/// An identifier goes over the wire and comes back: the bytes of its hex, in hex again, are the
/// identifier.
pub proof fn law_hex_round_trips(bytes: Seq<u8>)
    ensures
        bytes_of_hex(encode_utf8(hex_of(bytes))) == bytes,
        hex_of(bytes_of_hex(encode_utf8(hex_of(bytes)))) == hex_of(bytes),
{
    let s = hex_of(bytes);
    assert forall|i: int| 0 <= i < s.len() implies '\0' <= #[trigger] s[i] <= '\u{7f}' by {
        let b = bytes[i / 2] as int;
        let d = if i % 2 == 0 {
            b / 16
        } else {
            b % 16
        };
        assert(s[i] == hex_digit(d));
        lemma_hex_is_ascii(d);
    }
    vstd::utf8::is_ascii_chars_encode_utf8(s);
    let t = encode_utf8(s);
    assert forall|i: int| 0 <= i < bytes.len() implies hex_value(t[2 * i]) == Some(
        #[trigger] bytes[i] as int / 16,
    ) && hex_value(t[2 * i + 1]) == Some(bytes[i] as int % 16) by {
        assert((2 * i) / 2 == i && (2 * i) % 2 == 0);
        assert((2 * i + 1) / 2 == i && (2 * i + 1) % 2 == 1);
        assert(s[2 * i] == hex_digit(bytes[i] as int / 16));
        assert(s[2 * i + 1] == hex_digit(bytes[i] as int % 16));
        lemma_hex_is_ascii(bytes[i] as int / 16);
        lemma_hex_is_ascii(bytes[i] as int % 16);
        assert(t[2 * i] == s[2 * i] as u8);
        assert(t[2 * i + 1] == s[2 * i + 1] as u8);
    }
    lemma_hex_pairs(bytes, t);
}

/// What a node is told: by its callers, by the loop that runs it, or by the network.
#[derive(Debug)]
pub enum NodeEvent {
    /// Announce and serve bytes under an id.
    Provide { id: ContentId, bytes: Vec<u8>, reply: u64 },
    /// Find the providers of an id.
    GetProviders { id: ContentId, reply: u64 },
    /// A routing query was started for a caller.
    QueryStarted { query: u64, reply: u64 },
    /// Fetch a block from a peer.
    Fetch { peer: PeerId, id: ContentId, reply: u64 },
    /// A bitswap request was sent for a caller.
    FetchStarted { request: u64, id: ContentId, reply: u64 },
    /// A routing query found peers; the last step ends it.
    ProvidersFound { query: u64, found: Vec<PeerId>, last: bool },
    /// A peer asks for a block.
    BlockRequested { content_id: Vec<u8>, channel: u64 },
    /// A peer answered a bitswap request.
    BlockReceived { request: u64, result: Option<Vec<u8>> },
    /// There are no more callers.
    Closed,
}

/// What a node wants done.
#[derive(Debug)]
pub enum NodeAction {
    /// Announce a key to the network, and answer the caller with the id.
    Announce { key: String, id: ContentId, reply: u64 },
    /// Start a routing query for a key.
    Query { key: String, reply: u64 },
    /// Send a bitswap request to a peer.
    Send { peer: PeerId, request: BitswapRequest, id: ContentId, reply: u64 },
    /// Answer a caller with the providers found.
    Providers { reply: u64, providers: Vec<Provider> },
    /// Answer a peer.
    Respond { channel: u64, response: BitswapResponse },
    /// Answer a caller with a block or an error.
    Block { reply: u64, result: Result<Vec<u8>, ContentSourceError> },
    /// Nothing.
    Idle,
    /// Stop.
    Stop,
}

/// The mathematical form of an event.
pub enum EventView {
    Provide { id: Seq<char>, bytes: Seq<u8>, reply: u64 },
    GetProviders { id: Seq<char>, reply: u64 },
    QueryStarted { query: u64, reply: u64 },
    Fetch { peer: Seq<char>, id: Seq<char>, reply: u64 },
    FetchStarted { request: u64, id: Seq<char>, reply: u64 },
    ProvidersFound { query: u64, found: Seq<Seq<char>>, last: bool },
    BlockRequested { content_id: Seq<u8>, channel: u64 },
    BlockReceived { request: u64, result: Option<Seq<u8>> },
    Closed,
}

impl View for NodeEvent {
    type V = EventView;

    open spec fn view(&self) -> EventView {
        match *self {
            NodeEvent::Provide { id, bytes, reply } => EventView::Provide {
                id: id@,
                bytes: bytes@,
                reply,
            },
            NodeEvent::GetProviders { id, reply } => EventView::GetProviders { id: id@, reply },
            NodeEvent::QueryStarted { query, reply } => EventView::QueryStarted { query, reply },
            NodeEvent::Fetch { peer, id, reply } => EventView::Fetch {
                peer: peer.0@,
                id: id@,
                reply,
            },
            NodeEvent::FetchStarted { request, id, reply } => EventView::FetchStarted {
                request,
                id: id@,
                reply,
            },
            NodeEvent::ProvidersFound { query, found, last } => EventView::ProvidersFound {
                query,
                found: found.deep_view(),
                last,
            },
            NodeEvent::BlockRequested { content_id, channel } => EventView::BlockRequested {
                content_id: content_id@,
                channel,
            },
            NodeEvent::BlockReceived { request, result } => EventView::BlockReceived {
                request,
                result: match result {
                    Some(b) => Some(b@),
                    None => None,
                },
            },
            NodeEvent::Closed => EventView::Closed,
        }
    }
}

/// The mathematical form of an action.
pub enum ActionView {
    Announce { key: Seq<char>, id: Seq<char>, reply: u64 },
    Query { key: Seq<char>, reply: u64 },
    Send { peer: Seq<char>, content_id: Seq<u8>, id: Seq<char>, reply: u64 },
    Providers { reply: u64, providers: Seq<ProviderView> },
    Respond { channel: u64, result: Option<Seq<u8>> },
    Block { reply: u64, result: Result<Seq<u8>, SourceErrorView> },
    Idle,
    Stop,
}

impl View for NodeAction {
    type V = ActionView;

    open spec fn view(&self) -> ActionView {
        match *self {
            NodeAction::Announce { key, id, reply } => ActionView::Announce {
                key: key@,
                id: id@,
                reply,
            },
            NodeAction::Query { key, reply } => ActionView::Query { key: key@, reply },
            NodeAction::Send { peer, request, id, reply } => ActionView::Send {
                peer: peer.0@,
                content_id: request.content_id@,
                id: id@,
                reply,
            },
            NodeAction::Providers { reply, providers } => ActionView::Providers {
                reply,
                providers: providers.deep_view(),
            },
            NodeAction::Respond { channel, response } => ActionView::Respond {
                channel,
                result: match response.result {
                    Some(b) => Some(b@),
                    None => None,
                },
            },
            NodeAction::Block { reply, result } => ActionView::Block {
                reply,
                result: block_view(result),
            },
            NodeAction::Idle => ActionView::Idle,
            NodeAction::Stop => ActionView::Stop,
        }
    }
}

/// The mathematical form of a node: the blocks it serves, the queries and the fetches under way.
pub struct NodeView {
    pub store: Map<Seq<char>, Seq<u8>>,
    pub queries: Map<u64, (Seq<ProviderView>, u64)>,
    pub fetches: Map<u64, (Seq<char>, u64)>,
}

/// The records of found peers, of unknown size.
pub open spec fn found_records(found: Seq<Seq<char>>) -> Seq<ProviderView>
    decreases found.len(),
{
    if found.len() == 0 {
        Seq::empty()
    } else {
        found_records(found.drop_last()).push(ProviderView { peer: found.last(), size: 0 })
    }
}

/// What a received answer comes to: the block, verified, or an error.
pub open spec fn received(id: Seq<char>, result: Option<Seq<u8>>) -> Result<
    Seq<u8>,
    SourceErrorView,
> {
    match result {
        Some(b) => if id_of(b) == id {
            Ok(b)
        } else {
            Err(SourceErrorView::Integrity(id))
        },
        None => Err(SourceErrorView::Unavailable(id)),
    }
}

/// The next state of a node and what it wants done.
pub open spec fn node_step(n: NodeView, e: EventView) -> (NodeView, ActionView) {
    match e {
        EventView::Provide { id, bytes, reply } => (
            NodeView { store: n.store.insert(id, bytes), ..n },
            ActionView::Announce { key: id, id, reply },
        ),
        EventView::GetProviders { id, reply } => (n, ActionView::Query { key: id, reply }),
        EventView::QueryStarted { query, reply } => (
            NodeView { queries: n.queries.insert(query, (Seq::empty(), reply)), ..n },
            ActionView::Idle,
        ),
        EventView::Fetch { peer, id, reply } => (
            n,
            ActionView::Send { peer, content_id: bytes_of_hex(encode_utf8(id)), id, reply },
        ),
        EventView::FetchStarted { request, id, reply } => (
            NodeView { fetches: n.fetches.insert(request, (id, reply)), ..n },
            ActionView::Idle,
        ),
        EventView::ProvidersFound { query, found, last } => if n.queries.dom().contains(query) {
            let (known, reply) = n.queries[query];
            let all = known + found_records(found);
            if last {
                (
                    NodeView { queries: n.queries.remove(query), ..n },
                    ActionView::Providers { reply, providers: all },
                )
            } else {
                (
                    NodeView { queries: n.queries.insert(query, (all, reply)), ..n },
                    ActionView::Idle,
                )
            }
        } else {
            (n, ActionView::Idle)
        },
        EventView::BlockRequested { content_id, channel } => (
            n,
            ActionView::Respond {
                channel,
                result: if n.store.dom().contains(hex_of(content_id)) {
                    Some(n.store[hex_of(content_id)])
                } else {
                    None
                },
            },
        ),
        EventView::BlockReceived { request, result } => if n.fetches.dom().contains(request) {
            let (id, reply) = n.fetches[request];
            (
                NodeView { fetches: n.fetches.remove(request), ..n },
                ActionView::Block { reply, result: received(id, result) },
            )
        } else {
            (n, ActionView::Idle)
        },
        EventView::Closed => (n, ActionView::Stop),
    }
}

/// A map of running queries as mathematical values.
pub open spec fn queries_in(m: Map<u64, (Vec<Provider>, u64)>) -> Map<
    u64,
    (Seq<ProviderView>, u64),
> {
    Map::new(|k: u64| m.dom().contains(k), |k: u64| (m[k].0.deep_view(), m[k].1))
}

/// A map of running fetches as mathematical values.
pub open spec fn fetches_in(m: Map<u64, (ContentId, u64)>) -> Map<u64, (Seq<char>, u64)> {
    Map::new(|k: u64| m.dom().contains(k), |k: u64| (m[k].0@, m[k].1))
}

/// The state of a networked content node.
#[derive(Debug)]
pub struct SwarmNode {
    store: StringMap<Vec<u8>>,
    queries: HashMap<u64, (Vec<Provider>, u64)>,
    fetches: HashMap<u64, (ContentId, u64)>,
}

impl View for SwarmNode {
    type V = NodeView;

    closed spec fn view(&self) -> NodeView {
        NodeView {
            store: bytes_in(self.store@),
            queries: queries_in(self.queries@),
            fetches: fetches_in(self.fetches@),
        }
    }
}

impl SwarmNode {
    /// The store is well formed.
    pub closed spec fn wf(&self) -> bool {
        self.store.wf()
    }

    /// A node that serves nothing and waits for nothing.
    pub fn new() -> (n: Self)
        ensures
            n.wf(),
            n@ == (NodeView { store: Map::empty(), queries: Map::empty(), fetches: Map::empty() }),
    {
        let n = SwarmNode {
            store: StringMap::new(),
            queries: HashMap::new(),
            fetches: HashMap::new(),
        };
        assert(n@.store =~= Map::<Seq<char>, Seq<u8>>::empty());
        assert(n@.queries =~= Map::<u64, (Seq<ProviderView>, u64)>::empty());
        assert(n@.fetches =~= Map::<u64, (Seq<char>, u64)>::empty());
        n
    }

    fn found(&mut self, query: u64, found: Vec<PeerId>, last: bool) -> (a: NodeAction)
        requires
            old(self).wf(),
        ensures
            final(self).wf(),
            (final(self)@, a@) == node_step(
                old(self)@,
                EventView::ProvidersFound { query, found: found.deep_view(), last },
            ),
    {
        let ghost was = self@;
        let (mut providers, reply) = match self.queries.remove(&query) {
            Some(q) => q,
            None => {
                assert(self@.queries =~= was.queries);
                return NodeAction::Idle;
            },
        };
        assert(self@.queries =~= was.queries.remove(query));
        let ghost known = providers.deep_view();
        let ghost fv = found.deep_view();
        let mut i: usize = 0;
        assert(fv.take(0) =~= Seq::<Seq<char>>::empty());
        assert(known + found_records(fv.take(0)) =~= known);
        while i < found.len()
            invariant
                0 <= i <= found@.len(),
                fv == found.deep_view(),
                providers.deep_view() == known + found_records(fv.take(i as int)),
            decreases found@.len() - i,
        {
            assert(fv.take(i + 1).drop_last() =~= fv.take(i as int));
            assert(fv.take(i + 1).last() == found@[i as int].0@);
            let ghost before = providers.deep_view();
            let p = Provider { peer: found[i].copy(), size: 0 };
            let ghost x = p.deep_view();
            providers.push(p);
            assert(providers.deep_view() =~= before.push(x));
            assert(providers.deep_view() =~= known + found_records(fv.take(i + 1)));
            i = i + 1;
        }
        assert(fv.take(fv.len() as int) =~= fv);
        if last {
            NodeAction::Providers { reply, providers }
        } else {
            let ghost all = providers.deep_view();
            self.queries.insert(query, (providers, reply));
            assert(self@.queries =~= was.queries.insert(query, (all, reply)));
            NodeAction::Idle
        }
    }

    fn answered(&mut self, request: u64, result: Option<Vec<u8>>) -> (a: NodeAction)
        requires
            old(self).wf(),
        ensures
            final(self).wf(),
            (final(self)@, a@) == node_step(
                old(self)@,
                (NodeEvent::BlockReceived { request, result })@,
            ),
    {
        let ghost was = self@;
        let (id, reply) = match self.fetches.remove(&request) {
            Some(f) => f,
            None => {
                assert(self@.fetches =~= was.fetches);
                return NodeAction::Idle;
            },
        };
        assert(self@.fetches =~= was.fetches.remove(request));
        let result = match result {
            Some(bytes) => if ContentStore::verify(&id, &bytes) {
                Ok(bytes)
            } else {
                Err(ContentSourceError::Integrity(id))
            },
            None => Err(ContentSourceError::Unavailable(id)),
        };
        NodeAction::Block { reply, result }
    }

    fn requested(&self, content_id: &[u8], channel: u64) -> (a: NodeAction)
        requires
            self.wf(),
        ensures
            (self@, a@) == node_step(
                self@,
                EventView::BlockRequested { content_id: content_id@, channel },
            ),
    {
        let id = content_id_from_bytes(content_id);
        let result = match self.store.get(&id.0) {
            Some(b) => {
                let c = b.clone();
                assert(c@ =~= b@);
                Some(c)
            },
            None => None,
        };
        NodeAction::Respond { channel, response: BitswapResponse { result } }
    }

    /// Takes an event in: the next state, and what is to be done.
    pub fn step(&mut self, event: NodeEvent) -> (a: NodeAction)
        requires
            old(self).wf(),
        ensures
            final(self).wf(),
            (final(self)@, a@) == node_step(old(self)@, event@),
    {
        let ghost was = self@;
        match event {
            NodeEvent::Provide { id, bytes, reply } => {
                self.store.insert(id.0.clone(), bytes);
                assert(self@.store =~= was.store.insert(id@, bytes@));
                NodeAction::Announce { key: id.0.clone(), id, reply }
            },
            NodeEvent::GetProviders { id, reply } => NodeAction::Query { key: id.0, reply },
            NodeEvent::QueryStarted { query, reply } => {
                let none: Vec<Provider> = Vec::new();
                assert(none.deep_view() =~= Seq::<ProviderView>::empty());
                self.queries.insert(query, (none, reply));
                assert(self@.queries =~= was.queries.insert(query, (Seq::empty(), reply)));
                NodeAction::Idle
            },
            NodeEvent::Fetch { peer, id, reply } => {
                let request = BitswapRequest { content_id: hex_to_bytes(&id.0) };
                NodeAction::Send { peer, request, id, reply }
            },
            NodeEvent::FetchStarted { request, id, reply } => {
                self.fetches.insert(request, (id, reply));
                assert(self@.fetches =~= was.fetches.insert(request, (id@, reply)));
                NodeAction::Idle
            },
            NodeEvent::ProvidersFound { query, found, last } => self.found(query, found, last),
            NodeEvent::BlockRequested { content_id, channel } => self.requested(
                &content_id,
                channel,
            ),
            NodeEvent::BlockReceived { request, result } => self.answered(request, result),
            NodeEvent::Closed => NodeAction::Stop,
        }
    }
}

/// A caller is never handed a block that does not hash to the id it asked for.
pub proof fn law_received_is_verified(n: NodeView, request: u64, result: Option<Seq<u8>>)
    requires
        n.fetches.dom().contains(request),
    ensures
        ({
            let (after, a) = node_step(n, EventView::BlockReceived { request, result });
            &&& a matches ActionView::Block { reply, result: r }
            &&& reply == n.fetches[request].1
            &&& r matches Ok(b) ==> id_of(b) == n.fetches[request].0 && result == Some(b)
            &&& !after.fetches.dom().contains(request)
        }),
{
}

/// What a node provides, it serves to a peer that asks for it by the bytes of its id.
pub proof fn law_provided_is_served(n: NodeView, bytes: Seq<u8>, reply: u64, channel: u64)
    ensures
        ({
            let id = id_of(bytes);
            let (after, _) = node_step(n, EventView::Provide { id, bytes, reply });
            node_step(
                after,
                EventView::BlockRequested {
                    content_id: bytes_of_hex(encode_utf8(id)),
                    channel,
                },
            ).1 == (ActionView::Respond { channel, result: Some(bytes) })
        }),
{
    law_hex_round_trips(crate::runtime::content::sha256_of(bytes));
}

} // verus!
