//! How peers talk: what they write on the wire, how a conversation of a node goes, and what a swarm
//! gives back.
use crate::appfront::style_laws::hex_byte;
use crate::runtime::content::{hex_digit, hex_of, id_of};
use crate::runtime::p2p::{
    announced, fallback_block, fallback_providers, fetched_from, held_by, joined, records,
    resolved_from, FallbackView, ProviderView, SourceErrorView, SwarmView,
};
use crate::runtime::p2p_libp2p::{
    bytes_of_hex, found_records, pair_value, framed, node_step, response_bytes, response_in,
    ActionView, EventView, NodeView,
};
use crate::runtime::tokens::{mixed, step, token_state};
use vstd::prelude::*;

verus! {

/// A length is written as four bytes, the most significant first, and what it counts behind it.
pub proof fn law_frames_start_with_their_length(body: Seq<u8>)
    requires
        body.len() <= u32::MAX,
    ensures
        framed(body).len() == body.len() + 4,
        framed(body)[0] * 16_777_216 + framed(body)[1] * 65_536 + framed(body)[2] * 256 + framed(body)[3]
            == body.len(),
        framed(body).skip(4) == body,
{
    let n = body.len() as int;
    assert(0 <= n / 0x100_0000 < 256);
    assert(framed(body).skip(4) =~= body);
}

/// A refusal is a zero, and an answer a one with its bytes behind their length. Whatever starts with
/// a zero is read as a refusal, and nothing is read where nothing stands.
pub proof fn law_responses(body: Seq<u8>, rest: Seq<u8>)
    ensures
        response_bytes(None) == seq![0u8],
        response_bytes(Some(body)) == seq![1u8] + framed(body),
        response_in(seq![0u8] + rest) == Some(None::<Seq<u8>>),
        response_in(Seq::empty()) is None,
{
    assert((seq![0u8] + rest)[0] == 0);
}

/// A byte in hexadecimal is two small digits, and bytes are written one behind the other.
pub proof fn law_hex_text(bytes: Seq<u8>, b: u8)
    ensures
        hex_of(Seq::empty()) == Seq::<char>::empty(),
        hex_of(bytes.push(b)) == hex_of(bytes) + hex_byte(b),
{
    let n = bytes.len() as int;
    let h = hex_of(bytes.push(b));
    assert(h.len() == 2 * n + 2);
    assert((2 * n) / 2 == n && (2 * n) % 2 == 0);
    assert((2 * n + 1) / 2 == n && (2 * n + 1) % 2 == 1);
    assert(h[2 * n] == hex_digit(b as int / 16));
    assert(h[2 * n + 1] == hex_digit(b as int % 16));
    assert forall|i: int| 0 <= i < 2 * n implies h[i] == hex_of(bytes)[i] by {
        assert(0 <= i / 2 < n);
        assert(bytes.push(b)[i / 2] == bytes[i / 2]);
    }
    assert(h =~= hex_of(bytes) + hex_byte(b));
    assert(hex_of(Seq::<u8>::empty()) =~= Seq::<char>::empty());
}

/// A search for providers answers the one who asked with all peers that were found while it ran, in
/// order, and is then over.
pub proof fn law_searches(
    n: NodeView,
    id: Seq<char>,
    query: u64,
    reply: u64,
    first: Seq<Seq<char>>,
    second: Seq<Seq<char>>,
)
    ensures
        ({
            let asked = node_step(n, EventView::GetProviders { id, reply });
            let a = node_step(n, EventView::QueryStarted { query, reply });
            let b = node_step(a.0, EventView::ProvidersFound { query, found: first, last: false });
            let c = node_step(b.0, EventView::ProvidersFound { query, found: second, last: true });
            let d = node_step(c.0, EventView::ProvidersFound { query, found: second, last: true });
            &&& asked == (n, ActionView::Query { key: id, reply })
            &&& a.1 is Idle && b.1 is Idle
            &&& c.1 == (ActionView::Providers {
                reply,
                providers: (first + second).map_values(
                    |p: Seq<char>| ProviderView { peer: p, size: 0 },
                ),
            })
            &&& !c.0.queries.dom().contains(query)
            &&& d.1 is Idle && d.0 == c.0
            &&& c.0.store == n.store && c.0.fetches == n.fetches
        }),
{
    lemma_found(first);
    lemma_found(second);
    let of = |p: Seq<char>| ProviderView { peer: p, size: 0 };
    assert(Seq::<ProviderView>::empty() + found_records(first) =~= found_records(first));
    assert(found_records(first) + found_records(second) =~= (first + second).map_values(of));
}

proof fn lemma_found(found: Seq<Seq<char>>)
    ensures
        found_records(found) == found.map_values(|p: Seq<char>| ProviderView { peer: p, size: 0 }),
    decreases found.len(),
{
    if found.len() > 0 {
        lemma_found(found.drop_last());
    }
    assert(found_records(found) =~= found.map_values(
        |p: Seq<char>| ProviderView { peer: p, size: 0 },
    ));
}

/// A fetch answers the one who asked, once: with the bytes where they are what was asked for, with a
/// failed check where they are not, and as unavailable where there are none.
pub proof fn law_fetches(n: NodeView, id: Seq<char>, request: u64, reply: u64, bytes: Seq<u8>)
    ensures
        ({
            let a = node_step(n, EventView::FetchStarted { request, id, reply });
            let some = node_step(a.0, EventView::BlockReceived { request, result: Some(bytes) });
            let none = node_step(a.0, EventView::BlockReceived { request, result: None });
            let again = node_step(some.0, EventView::BlockReceived { request, result: Some(bytes) });
            &&& a.1 is Idle
            &&& id_of(bytes) == id ==> some.1 == (ActionView::Block {
                reply,
                result: Ok::<Seq<u8>, SourceErrorView>(bytes),
            })
            &&& id_of(bytes) != id ==> some.1 == (ActionView::Block {
                reply,
                result: Err::<Seq<u8>, SourceErrorView>(SourceErrorView::Integrity(id)),
            })
            &&& none.1 == (ActionView::Block {
                reply,
                result: Err::<Seq<u8>, SourceErrorView>(SourceErrorView::Unavailable(id)),
            })
            &&& again.1 is Idle && again.0 == some.0
            &&& some.0.store == n.store && some.0.queries == n.queries
        }),
{
}

/// A node answers a request for a block with what it has under that identifier, and with nothing where
/// it has nothing; a request changes nothing. It stops when it is closed.
pub proof fn law_requests(n: NodeView, content: Seq<u8>, channel: u64)
    ensures
        ({
            let r = node_step(n, EventView::BlockRequested { content_id: content, channel });
            &&& r.0 == n
            &&& n.store.dom().contains(hex_of(content)) ==> r.1 == (ActionView::Respond {
                channel,
                result: Some(n.store[hex_of(content)]),
            })
            &&& !n.store.dom().contains(hex_of(content)) ==> r.1 == (ActionView::Respond {
                channel,
                result: None,
            })
        }),
        node_step(n, EventView::Closed) == (n, ActionView::Stop),
{
}

/// The swarm gives a block where one of the peers that announced it has it, and only bytes that are
/// what was asked for; where nobody announced it, it is not found.
#[verifier::rlimit(40)]
pub proof fn law_resolution(s: SwarmView, peers: Seq<Seq<char>>, id: Seq<char>)
    ensures
        resolved_from(s, peers, id) matches Ok(b) ==> id_of(b) == id && exists|k: int|
            0 <= k < peers.len() && (#[trigger] held_by(s, peers[k])).dom().contains(id) && held_by(
                s,
                peers[k],
            )[id] == b,
        (exists|k: int|
            0 <= k < peers.len() && (#[trigger] held_by(s, peers[k])).dom().contains(id) && id_of(
                held_by(s, peers[k])[id],
            ) == id) ==> resolved_from(s, peers, id) is Ok,
        peers.len() == 0 ==> resolved_from(s, peers, id) == Err::<Seq<u8>, SourceErrorView>(
            SourceErrorView::NotFound(id),
        ),
        peers.len() > 0 && resolved_from(s, peers, id) is Err ==> resolved_from(s, peers, id) == Err::<
            Seq<u8>,
            SourceErrorView,
        >(SourceErrorView::Unavailable(id)),
    decreases peers.len(),
{
    if peers.len() > 0 {
        let rest = peers.skip(1);
        law_resolution(s, rest, id);
        if resolved_from(s, peers, id) is Ok {
            if fetched_from(s, peers[0], id) is Ok {
                assert(held_by(s, peers[0]).dom().contains(id));
            } else {
                let k = choose|k: int|
                    0 <= k < rest.len() && (#[trigger] held_by(s, rest[k])).dom().contains(id)
                        && held_by(s, rest[k])[id] == resolved_from(s, rest, id)->Ok_0;
                assert(peers[k + 1] == rest[k]);
            }
        }
        if exists|k: int|
            0 <= k < peers.len() && (#[trigger] held_by(s, peers[k])).dom().contains(id) && id_of(
                held_by(s, peers[k])[id],
            ) == id {
            let k = choose|k: int|
                0 <= k < peers.len() && (#[trigger] held_by(s, peers[k])).dom().contains(id) && id_of(
                    held_by(s, peers[k])[id],
                ) == id;
            if k > 0 {
                assert(rest[k - 1] == peers[k]);
                assert(held_by(s, rest[k - 1]).dom().contains(id));
            }
        }
    }
}

/// A provider is recorded with the size of what it holds, each peer once and in order.
pub proof fn law_records(s: SwarmView, peers: Seq<Seq<char>>, id: Seq<char>)
    ensures
        records(s, peers, id).len() == peers.len(),
        forall|k: int|
            0 <= k < peers.len() ==> (#[trigger] records(s, peers, id)[k]).peer == peers[k],
        forall|k: int|
            0 <= k < peers.len() && s.stores.dom().contains(peers[k]) && s.stores[peers[k]].dom().contains(
                id,
            ) ==> (#[trigger] records(s, peers, id)[k]).size == s.stores[peers[k]][id].len() as u64,
    decreases peers.len(),
{
    if peers.len() > 0 {
        let f = peers.drop_last();
        law_records(s, f, id);
        let all = records(s, peers, id);
        let front = records(s, f, id);
        assert forall|k: int| 0 <= k < f.len() implies #[trigger] all[k] == front[k] && f[k] == peers[k] by {}
    }
}

/// The local cache is asked where nobody in the swarm has announced a block, and only there; it is
/// fetched from under its own name.
pub proof fn law_fallback(v: FallbackView, peer: Seq<char>, id: Seq<char>)
    ensures
        announced(v.network, id).len() > 0 ==> fallback_providers(v, id) == records(
            v.network,
            announced(v.network, id),
            id,
        ),
        announced(v.network, id).len() == 0 && !v.local.dom().contains(id) ==> fallback_providers(v, id)
            == Seq::<ProviderView>::empty(),
        peer != "local-cache"@ ==> fallback_block(v, peer, id) == fetched_from(v.network, peer, id),
        !v.local.dom().contains(id) ==> fallback_block(v, "local-cache"@, id) == Err::<
            Seq<u8>,
            SourceErrorView,
        >(SourceErrorView::Unavailable(id)),
{
}

/// A peer that joins keeps what it has, and has nothing where it is new; nobody else changes.
pub proof fn law_joining(s: SwarmView, peer: Seq<char>, other: Seq<char>)
    ensures
        held_by(joined(s, peer), peer) == held_by(s, peer),
        joined(s, peer).stores.dom().contains(peer),
        other != peer ==> held_by(joined(s, peer), other) == held_by(s, other),
        joined(s, peer).routing == s.routing,
{
}

/// Tokens are mixed as the SplitMix64 generator mixes: the state moves by the golden ratio, is folded
/// on itself three times and multiplied twice between; a grant enters by an odd multiple.
pub proof fn law_token_mixing(z: u64, secret: u64, grant: u64)
    ensures
        step(z) == z.wrapping_add(11400714819323198485u64),
        ({
            let a = (z ^ (z >> 30)).wrapping_mul(13787848793156543929u64);
            let b = (a ^ (a >> 27)).wrapping_mul(10723151780598845931u64);
            mixed(z) == b ^ (b >> 31)
        }),
        token_state(secret, grant) == secret ^ grant.wrapping_mul(2685821657736338717u64),
{
}

/// Text is read back as bytes pair by pair: two digits are one byte, in either case; a digit behind a
/// plus sign and a digit alone at the end are one too; a pair that is neither gives nothing.
pub proof fn law_hex_is_read(a: u8, b: u8, rest: Seq<u8>)
    ensures
        ({
            let digit = |c: u8| (48 <= c <= 57) || (97 <= c <= 102) || (65 <= c <= 70);
            let worth = |c: u8|
                if c <= 57 {
                    c - 48
                } else if c >= 97 {
                    c - 97 + 10
                } else {
                    c - 65 + 10
                };
            let more = bytes_of_hex(rest);
            &&& digit(a) && digit(b) ==> bytes_of_hex(seq![a, b] + rest) == seq![
                (16 * worth(a) + worth(b)) as u8,
            ] + more
            &&& a == 43 && digit(b) ==> bytes_of_hex(seq![a, b] + rest) == seq![worth(b) as u8] + more
            &&& !digit(b) || (!digit(a) && a != 43) ==> bytes_of_hex(seq![a, b] + rest) == more
            &&& digit(a) ==> bytes_of_hex(seq![a]) == seq![worth(a) as u8]
            &&& bytes_of_hex(Seq::empty()).len() == 0
        }),
{
    let t = seq![a, b] + rest;
    assert(t.take(2) =~= seq![a, b]);
    assert(t.skip(2) =~= rest);
    assert(t.take(2)[0] == a && t.take(2)[1] == b);
    let one = seq![a];
    assert(one.take(1) =~= one);
    assert(one.skip(1) =~= Seq::<u8>::empty());
    assert(bytes_of_hex(Seq::<u8>::empty()) =~= Seq::<u8>::empty());
    assert(bytes_of_hex(one) =~= match pair_value(one) {
        Some(x) => seq![x],
        None => Seq::empty(),
    });
}

} // verus!
