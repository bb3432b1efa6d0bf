//! Content-addressed distribution: content routing and retrieval.
//!
//! The content store owns the local blocks and their integrity checks. This module owns the network
//! half: turning a [`ContentId`] into bytes by asking the swarm. It models two primitives:
//!
//! * `provide` / `findproviders`: announce that a peer holds a block, and discover which peers hold
//!   a given id (content routing).
//! * bitswap: pull the actual block bytes from a provider, verifying the SHA-256 against the
//!   requested id on receipt (content retrieval).
//!
//! [`PeerNetwork`] is an in-process swarm. [`ContentSource`] is the seam where another transport
//! plugs in.
use crate::runtime::content::{
    after_put, digest, id_of, sound, verified_block, ContentId, ContentStore,
};
use crate::runtime::string_map::StringMap;
use crate::strings::str_eq;
use vstd::prelude::*;
use vstd::string::*;

verus! {

/// A peer in the content swarm, identified by an opaque multiaddr-like string.
#[derive(Debug, Clone, PartialEq, Eq, Hash)]
pub struct PeerId(pub String);

impl DeepView for PeerId {
    type V = Seq<char>;

    open spec fn deep_view(&self) -> Seq<char> {
        self.0@
    }
}

impl PeerId {
    pub fn new(s: &str) -> (p: Self)
        ensures
            p.0@ == s@,
    {
        PeerId(String::from_str(s))
    }

    /// A copy of the peer id.
    pub fn copy(&self) -> (r: Self)
        ensures
            r.0@ == self.0@,
    {
        PeerId(self.0.clone())
    }
}

/// A provider record returned by content routing (`findproviders`).
#[derive(Debug, Clone, PartialEq, Eq)]
pub struct Provider {
    pub peer: PeerId,
    /// Approximate byte size advertised by the provider (0 = unknown).
    pub size: u64,
}

/// The mathematical form of a provider record.
pub struct ProviderView {
    pub peer: Seq<char>,
    pub size: u64,
}

impl DeepView for Provider {
    type V = ProviderView;

    open spec fn deep_view(&self) -> ProviderView {
        ProviderView { peer: self.peer.0@, size: self.size }
    }
}

/// Errors from the content resolution / retrieval path.
#[derive(Debug, Clone, PartialEq, Eq)]
pub enum ContentSourceError {
    /// No provider was found for the content id (DHT miss).
    NotFound(ContentId),
    /// A provider answered but the returned bytes failed integrity verification.
    Integrity(ContentId),
    /// The fetch could not be completed (provider unreachable / empty).
    Unavailable(ContentId),
}

/// The mathematical form of an error.
pub enum SourceErrorView {
    NotFound(Seq<char>),
    Integrity(Seq<char>),
    Unavailable(Seq<char>),
}

impl DeepView for ContentSourceError {
    type V = SourceErrorView;

    open spec fn deep_view(&self) -> SourceErrorView {
        match *self {
            ContentSourceError::NotFound(id) => SourceErrorView::NotFound(id@),
            ContentSourceError::Integrity(id) => SourceErrorView::Integrity(id@),
            ContentSourceError::Unavailable(id) => SourceErrorView::Unavailable(id@),
        }
    }
}

/// A block or an error, as a mathematical value.
pub open spec fn block_view(r: Result<Vec<u8>, ContentSourceError>) -> Result<
    Seq<u8>,
    SourceErrorView,
> {
    match r {
        Ok(b) => Ok(b@),
        Err(e) => Err(e.deep_view()),
    }
}

/// A content-addressable block source: content routing + retrieval.
///
/// This trait is the single seam between the runtime and the network transport.
pub trait ContentSource {
    /// Whether the source is in a valid state.
    spec fn valid(&self) -> bool;

    /// Content routing: list peers that have announced `id`.
    fn find_providers(&self, id: &ContentId) -> Vec<Provider>
        requires
            self.valid(),
    ;

    /// Retrieval: fetch the bytes for `id` from `provider`, verifying the content hash on receipt.
    /// Returns the verified bytes, or an error.
    fn fetch_block(&self, provider: &Provider, id: &ContentId) -> (r: Result<
        Vec<u8>,
        ContentSourceError,
    >)
        requires
            self.valid(),
        ensures
            r matches Ok(b) ==> id_of(b@) == id@,
    ;

    /// Convenience: resolve-and-fetch from any known provider, returning the first verified block
    /// (or the first error if none succeed).
    fn get(&self, id: &ContentId) -> (r: Result<Vec<u8>, ContentSourceError>)
        requires
            self.valid(),
        ensures
            r matches Ok(b) ==> id_of(b@) == id@,
            exists|providers: Vec<Provider>|
                {
                    &&& #[trigger] call_ensures(Self::find_providers, (self, id), providers)
                    &&& match r {
                        Ok(b) => exists|k: int|
                            {
                                &&& 0 <= k < providers@.len()
                                &&& call_ensures(
                                    Self::fetch_block,
                                    (self, &(#[trigger] providers@[k]), id),
                                    r,
                                )
                                &&& forall|j: int|
                                    #![trigger providers@[j]]
                                    0 <= j < k ==> exists|x: ContentSourceError|
                                        #[trigger] call_ensures(
                                            Self::fetch_block,
                                            (self, &providers@[j], id),
                                            Err(x),
                                        )
                            },
                        Err(e) => if providers@.len() == 0 {
                            e.deep_view() == SourceErrorView::NotFound(id@)
                        } else {
                            &&& call_ensures(Self::fetch_block, (self, &providers@[0], id), r)
                            &&& forall|j: int|
                                #![trigger providers@[j]]
                                0 <= j < providers@.len() ==> exists|x: ContentSourceError|
                                    #[trigger] call_ensures(
                                        Self::fetch_block,
                                        (self, &providers@[j], id),
                                        Err(x),
                                    )
                        },
                    }
                },
    {
        let providers = self.find_providers(id);
        let n = providers.len();
        if n == 0 {
            return Err(ContentSourceError::NotFound(id.copy()));
        }
        let mut first_err = ContentSourceError::Unavailable(id.copy());
        let mut i: usize = 0;
        while i < n
            invariant
                self.valid(),
                0 <= i <= n,
                n == providers@.len(),
                n > 0,
                call_ensures(Self::find_providers, (self, id), providers),
                i > 0 ==> call_ensures(
                    Self::fetch_block,
                    (self, &providers@[0], id),
                    Err(first_err),
                ),
                forall|j: int|
                    #![trigger providers@[j]]
                    0 <= j < i ==> exists|x: ContentSourceError|
                        #[trigger] call_ensures(
                            Self::fetch_block,
                            (self, &providers@[j], id),
                            Err(x),
                        ),
            decreases n - i,
        {
            match self.fetch_block(&providers[i], id) {
                Ok(bytes) => {
                    return Ok(bytes);
                },
                Err(e) => {
                    assert(call_ensures(
                        Self::fetch_block,
                        (self, &providers@[i as int], id),
                        Err(e),
                    ));
                    if i == 0 {
                        first_err = e;
                    }
                },
            }
            i = i + 1;
        }
        Err(first_err)
    }
}

/// The mathematical form of a swarm: what each peer holds, and who has announced what, in order of
/// announcement.
pub struct SwarmView {
    pub stores: Map<Seq<char>, Map<Seq<char>, Seq<u8>>>,
    pub routing: Map<Seq<char>, Seq<Seq<char>>>,
}

/// What every swarm keeps: a peer announces a block once, and holds what it has announced.
pub open spec fn swarm_sound(s: SwarmView) -> bool {
    &&& forall|p: Seq<char>| #[trigger] s.stores.dom().contains(p) ==> sound(s.stores[p])
    &&& forall|id: Seq<char>|
        #[trigger] s.routing.dom().contains(id) ==> {
            &&& s.routing[id].no_duplicates()
            &&& forall|k: int|
                0 <= k < s.routing[id].len() ==> holds(s, #[trigger] s.routing[id][k], id)
        }
}

/// Whether a peer holds a block.
pub open spec fn holds(s: SwarmView, peer: Seq<char>, id: Seq<char>) -> bool {
    s.stores.dom().contains(peer) && s.stores[peer].dom().contains(id)
}

/// What a peer holds; a peer that never joined holds nothing.
pub open spec fn held_by(s: SwarmView, peer: Seq<char>) -> Map<Seq<char>, Seq<u8>> {
    if s.stores.dom().contains(peer) {
        s.stores[peer]
    } else {
        Map::empty()
    }
}

/// Who has announced an id.
pub open spec fn announced(s: SwarmView, id: Seq<char>) -> Seq<Seq<char>> {
    if s.routing.dom().contains(id) {
        s.routing[id]
    } else {
        Seq::empty()
    }
}

/// The swarm after a peer joined.
pub open spec fn joined(s: SwarmView, peer: Seq<char>) -> SwarmView {
    SwarmView { stores: s.stores.insert(peer, held_by(s, peer)), ..s }
}

/// The swarm after a peer announced bytes.
pub open spec fn provided(s: SwarmView, peer: Seq<char>, bytes: Seq<u8>) -> SwarmView {
    let id = id_of(bytes);
    let peers = announced(s, id);
    SwarmView {
        stores: s.stores.insert(peer, after_put(held_by(s, peer), bytes)),
        routing: s.routing.insert(
            id,
            if peers.contains(peer) {
                peers
            } else {
                peers.push(peer)
            },
        ),
    }
}

/// The provider record of a peer for a block.
pub open spec fn record(s: SwarmView, peer: Seq<char>, id: Seq<char>) -> ProviderView {
    ProviderView {
        peer,
        size: if holds(s, peer, id) {
            s.stores[peer][id].len() as u64
        } else {
            0
        },
    }
}

/// The provider records of peers for a block.
pub open spec fn records(s: SwarmView, peers: Seq<Seq<char>>, id: Seq<char>) -> Seq<ProviderView>
    decreases peers.len(),
{
    if peers.len() == 0 {
        Seq::empty()
    } else {
        records(s, peers.drop_last(), id).push(record(s, peers.last(), id))
    }
}

/// What a fetch from a peer returns.
pub open spec fn fetched_from(s: SwarmView, peer: Seq<char>, id: Seq<char>) -> Result<
    Seq<u8>,
    SourceErrorView,
> {
    match verified_block(held_by(s, peer), id) {
        Some(b) => Ok(b),
        None => Err(SourceErrorView::Unavailable(id)),
    }
}

/// What the resolution of an id returns: the block of the first of the peers that gives it, or the
/// first error.
pub open spec fn resolved_from(s: SwarmView, peers: Seq<Seq<char>>, id: Seq<char>) -> Result<
    Seq<u8>,
    SourceErrorView,
>
    decreases peers.len(),
{
    if peers.len() == 0 {
        Err(SourceErrorView::NotFound(id))
    } else {
        match fetched_from(s, peers[0], id) {
            Ok(b) => Ok(b),
            Err(e) => match resolved_from(s, peers.skip(1), id) {
                Ok(b) => Ok(b),
                Err(_) => Err(e),
            },
        }
    }
}

/// A map of stores as mathematical values.
pub open spec fn stores_in(m: Map<Seq<char>, ContentStore>) -> Map<
    Seq<char>,
    Map<Seq<char>, Seq<u8>>,
> {
    Map::new(|k: Seq<char>| m.dom().contains(k), |k: Seq<char>| m[k]@)
}

/// A map of peer lists as mathematical values.
pub open spec fn peers_in(m: Map<Seq<char>, Vec<PeerId>>) -> Map<Seq<char>, Seq<Seq<char>>> {
    Map::new(|k: Seq<char>| m.dom().contains(k), |k: Seq<char>| m[k].deep_view())
}

/// An in-process content swarm: peers announce blocks they hold and serve fetched bytes with
/// integrity checks.
#[derive(Debug)]
pub struct PeerNetwork {
    stores: StringMap<ContentStore>,
    routing: StringMap<Vec<PeerId>>,
}

impl View for PeerNetwork {
    type V = SwarmView;

    closed spec fn view(&self) -> SwarmView {
        SwarmView { stores: stores_in(self.stores@), routing: peers_in(self.routing@) }
    }
}

impl Default for PeerNetwork {
    fn default() -> (n: Self)
        ensures
            n.wf(),
            n@ == (SwarmView { stores: Map::empty(), routing: Map::empty() }),
    {
        let n = PeerNetwork { stores: StringMap::new(), routing: StringMap::new() };
        assert(n@.stores =~= Map::<Seq<char>, Map<Seq<char>, Seq<u8>>>::empty());
        assert(n@.routing =~= Map::<Seq<char>, Seq<Seq<char>>>::empty());
        n
    }
}

/// Where a peer stands in a list.
fn listed(peers: &Vec<PeerId>, peer: &PeerId) -> (b: bool)
    ensures
        b == peers.deep_view().contains(peer.0@),
{
    let ghost all = peers.deep_view();
    let mut i: usize = 0;
    while i < peers.len()
        invariant
            0 <= i <= peers@.len(),
            all == peers.deep_view(),
            forall|k: int| 0 <= k < i ==> all[k] != peer.0@,
        decreases peers@.len() - i,
    {
        assert(all[i as int] == peers@[i as int].0@);
        if str_eq(&peers[i].0, &peer.0) {
            assert(all.contains(peer.0@));
            return true;
        }
        i = i + 1;
    }
    false
}

impl PeerNetwork {
    /// The parts are well formed, and the swarm is sound.
    pub closed spec fn wf(&self) -> bool {
        &&& self.stores.wf()
        &&& self.routing.wf()
        &&& forall|p: Seq<char>|
            #[trigger] self.stores@.dom().contains(p) ==> self.stores@[p].wf()
        &&& swarm_sound(self@)
    }

    /// Every swarm is sound: a peer announces a block once, holds what it has announced, and holds
    /// every block under its own identifier.
    pub proof fn law_sound(&self)
        requires
            self.wf(),
        ensures
            swarm_sound(self@),
    {
    }

    pub fn new() -> (n: Self)
        ensures
            n.wf(),
            n@ == (SwarmView { stores: Map::empty(), routing: Map::empty() }),
    {
        PeerNetwork::default()
    }

    fn take_store(&mut self, peer: &PeerId) -> (s: ContentStore)
        requires
            old(self).wf(),
        ensures
            s.wf(),
            s@ == held_by(old(self)@, peer.0@),
            final(self).stores.wf(),
            final(self).routing == old(self).routing,
            forall|p: Seq<char>|
                #[trigger] final(self).stores@.dom().contains(p) ==> final(self).stores@[p].wf(),
            stores_in(final(self).stores@) == old(self)@.stores.remove(peer.0@),
    {
        let ghost was = self.stores@;
        let s = match self.stores.remove(&peer.0) {
            Some(s) => s,
            None => ContentStore::new(),
        };
        assert forall|p: Seq<char>| #[trigger] self.stores@.dom().contains(p) implies self.stores@[p].wf() by {
            assert(was.dom().contains(p));
        }
        assert(stores_in(self.stores@) =~= stores_in(was).remove(peer.0@));
        s
    }

    /// Register a peer with an empty store (e.g. a freshly-connected node).
    pub fn join(&mut self, peer: PeerId)
        requires
            old(self).wf(),
        ensures
            final(self).wf(),
            final(self)@ == joined(old(self)@, peer.0@),
    {
        let ghost was = self@;
        let store = self.take_store(&peer);
        let ghost less = self.stores@;
        self.stores.insert(peer.0, store);
        proof {
            assert(stores_in(self.stores@) =~= stores_in(less).insert(peer.0@, store@));
            assert(was.stores.remove(peer.0@).insert(peer.0@, store@) =~= joined(
                was,
                peer.0@,
            ).stores);
            assert forall|p: Seq<char>| #[trigger] self.stores@.dom().contains(p) implies self.stores@[p].wf() by {
                if p != peer.0@ {
                    assert(less.dom().contains(p));
                }
            }
            lemma_joined(was, peer.0@);
        }
    }

    /// `provide`: a peer announces it holds `bytes`, returning the assigned id.
    pub fn provide(&mut self, peer: &PeerId, bytes: &[u8]) -> (id: ContentId)
        requires
            old(self).wf(),
        ensures
            final(self).wf(),
            id@ == id_of(bytes@),
            final(self)@ == provided(old(self)@, peer.0@, bytes@),
    {
        let ghost was = self@;
        let mut store = self.take_store(peer);
        let ghost less = self.stores@;
        let id = store.put(bytes);
        let ghost held = store@;
        self.stores.insert(peer.0.clone(), store);
        let mut peers = match self.routing.remove(&id.0) {
            Some(p) => p,
            None => {
                let none: Vec<PeerId> = Vec::new();
                assert(none.deep_view() =~= Seq::<Seq<char>>::empty());
                none
            },
        };
        assert(peers.deep_view() == announced(was, id@));
        if !listed(&peers, peer) {
            let ghost before = peers.deep_view();
            peers.push(peer.copy());
            assert(peers.deep_view() =~= before.push(peer.0@));
        }
        self.routing.insert(id.0.clone(), peers);
        proof {
            assert(stores_in(self.stores@) =~= stores_in(less).insert(peer.0@, held));
            assert(was.stores.remove(peer.0@).insert(peer.0@, held) =~= provided(
                was,
                peer.0@,
                bytes@,
            ).stores);
            assert(self@.routing =~= provided(was, peer.0@, bytes@).routing);
            assert forall|p: Seq<char>| #[trigger] self.stores@.dom().contains(p) implies self.stores@[p].wf() by {
                if p != peer.0@ {
                    assert(less.dom().contains(p));
                }
            }
            lemma_provided(was, peer.0@, bytes@);
        }
        id
    }

    fn record_of(&self, peer: &PeerId, id: &ContentId) -> (r: Provider)
        requires
            self.wf(),
        ensures
            r.deep_view() == record(self@, peer.0@, id@),
    {
        let size = match self.stores.get(&peer.0) {
            Some(s) => match s.get(id) {
                Some(b) => b.len() as u64,
                None => 0,
            },
            None => 0,
        };
        Provider { peer: peer.copy(), size }
    }

    /// `findproviders`: content routing lookup.
    pub fn providers_of(&self, id: &ContentId) -> (r: Vec<Provider>)
        requires
            self.wf(),
        ensures
            r.deep_view() == records(self@, announced(self@, id@), id@),
    {
        let mut out: Vec<Provider> = Vec::new();
        assert(out.deep_view() =~= Seq::<ProviderView>::empty());
        match self.routing.get(&id.0) {
            Some(peers) => {
                let ghost pv = peers.deep_view();
                let mut i: usize = 0;
                assert(pv.take(0) =~= Seq::<Seq<char>>::empty());
                while i < peers.len()
                    invariant
                        self.wf(),
                        0 <= i <= peers@.len(),
                        pv == peers.deep_view(),
                        out.deep_view() == records(self@, pv.take(i as int), id@),
                    decreases peers@.len() - i,
                {
                    assert(pv.take(i + 1).drop_last() =~= pv.take(i as int));
                    assert(pv.take(i + 1).last() == peers@[i as int].0@);
                    let ghost was = out.deep_view();
                    let r = self.record_of(&peers[i], id);
                    let ghost x = r.deep_view();
                    out.push(r);
                    assert(out.deep_view() =~= was.push(x));
                    i = i + 1;
                }
                assert(pv.take(pv.len() as int) =~= pv);
                out
            },
            None => out,
        }
    }

    /// `bitswap` fetch: pull a block from a specific peer, verifying the hash.
    pub fn fetch_from(&self, provider: &PeerId, id: &ContentId) -> (r: Result<
        Vec<u8>,
        ContentSourceError,
    >)
        requires
            self.wf(),
        ensures
            block_view(r) == fetched_from(self@, provider.0@, id@),
            r matches Ok(b) ==> id_of(b@) == id@,
    {
        let found = match self.stores.get(&provider.0) {
            Some(s) => s.get_verified(id),
            None => None,
        };
        match found {
            Some(bytes) => {
                assert(bytes.deep_view() =~= bytes@);
                if ContentStore::verify(id, &bytes) {
                    Ok(bytes)
                } else {
                    Err(ContentSourceError::Integrity(id.copy()))
                }
            },
            None => Err(ContentSourceError::Unavailable(id.copy())),
        }
    }

    /// Resolve-and-fetch across all known providers (see [`ContentSource::get`]).
    pub fn resolve(&self, id: &ContentId) -> (r: Result<Vec<u8>, ContentSourceError>)
        requires
            self.wf(),
        ensures
            block_view(r) == resolved_from(self@, announced(self@, id@), id@),
            r matches Ok(b) ==> id_of(b@) == id@,
    {
        let providers = self.providers_of(id);
        let ghost peers = announced(self@, id@);
        let n = providers.len();
        proof {
            lemma_records(self@, peers, id@);
            assert forall|k: int| 0 <= k < n implies (#[trigger] providers@[k]).peer.0@
                == peers[k] by {
                assert(providers.deep_view()[k] == providers@[k].deep_view());
            }
        }
        if n == 0 {
            return Err(ContentSourceError::NotFound(id.copy()));
        }
        let mut first_err = ContentSourceError::Unavailable(id.copy());
        let mut i: usize = 0;
        assert(peers.skip(0) =~= peers);
        while i < n
            invariant
                self.wf(),
                0 <= i <= n,
                n == providers@.len(),
                peers == announced(self@, id@),
                n == peers.len(),
                n > 0,
                forall|k: int| 0 <= k < n ==> (#[trigger] providers@[k]).peer.0@ == peers[k],
                resolved_from(self@, peers, id@) == (match resolved_from(
                    self@,
                    peers.skip(i as int),
                    id@,
                ) {
                    Ok(b) => Ok::<Seq<u8>, SourceErrorView>(b),
                    Err(e) => Err(
                        if i == 0 {
                            e
                        } else {
                            first_err.deep_view()
                        },
                    ),
                }),
            decreases n - i,
        {
            let ghost rest = peers.skip(i as int);
            assert(rest[0] == peers[i as int]);
            assert(rest.skip(1) =~= peers.skip(i + 1));
            match self.fetch_from(&providers[i].peer, id) {
                Ok(bytes) => {
                    return Ok(bytes);
                },
                Err(e) => {
                    if i == 0 {
                        first_err = e;
                    }
                },
            }
            i = i + 1;
        }
        Err(first_err)
    }
}

proof fn lemma_records(s: SwarmView, peers: Seq<Seq<char>>, id: Seq<char>)
    ensures
        records(s, peers, id).len() == peers.len(),
        forall|k: int|
            0 <= k < peers.len() ==> #[trigger] records(s, peers, id)[k] == record(s, peers[k], id),
    decreases peers.len(),
{
    if peers.len() > 0 {
        lemma_records(s, peers.drop_last(), id);
    }
}

proof fn lemma_joined(s: SwarmView, peer: Seq<char>)
    requires
        swarm_sound(s),
    ensures
        swarm_sound(joined(s, peer)),
{
    let after = joined(s, peer);
    assert forall|id: Seq<char>| #[trigger] after.routing.dom().contains(id) implies {
        &&& after.routing[id].no_duplicates()
        &&& forall|k: int|
            0 <= k < after.routing[id].len() ==> holds(after, #[trigger] after.routing[id][k], id)
    } by {
        assert(s.routing.dom().contains(id));
        assert forall|k: int| 0 <= k < after.routing[id].len() implies holds(
            after,
            #[trigger] after.routing[id][k],
            id,
        ) by {
            assert(holds(s, s.routing[id][k], id));
        }
    }
}

proof fn lemma_provided(s: SwarmView, peer: Seq<char>, bytes: Seq<u8>)
    requires
        swarm_sound(s),
    ensures
        swarm_sound(provided(s, peer, bytes)),
{
    let after = provided(s, peer, bytes);
    let new = id_of(bytes);
    assert(sound(held_by(s, peer)));
    assert(sound(after.stores[peer])) by {
        let blocks = held_by(s, peer);
        let put = after_put(blocks, bytes);
        assert forall|id: Seq<char>| #[trigger] put.dom().contains(id) implies id_of(put[id]) == id by {
            if id != new {
                assert(blocks.dom().contains(id));
            }
        }
    }
    assert forall|id: Seq<char>| #[trigger] after.routing.dom().contains(id) implies {
        &&& after.routing[id].no_duplicates()
        &&& forall|k: int|
            0 <= k < after.routing[id].len() ==> holds(after, #[trigger] after.routing[id][k], id)
    } by {
        let peers = announced(s, id);
        assert(peers.no_duplicates());
        assert forall|k: int| 0 <= k < after.routing[id].len() implies holds(
            after,
            #[trigger] after.routing[id][k],
            id,
        ) by {
            if k < peers.len() {
                assert(after.routing[id][k] == peers[k]);
                assert(s.routing.dom().contains(id));
                assert(holds(s, s.routing[id][k], id));
            }
        }
    }
}

impl ContentSource for PeerNetwork {
    open spec fn valid(&self) -> bool {
        self.wf()
    }

    fn find_providers(&self, id: &ContentId) -> (r: Vec<Provider>)
        ensures
            r.deep_view() == records(self@, announced(self@, id@), id@),
    {
        self.providers_of(id)
    }

    fn fetch_block(&self, provider: &Provider, id: &ContentId) -> (r: Result<
        Vec<u8>,
        ContentSourceError,
    >)
        ensures
            block_view(r) == fetched_from(self@, provider.peer.0@, id@),
    {
        self.fetch_from(&provider.peer, id)
    }
}

/// A [`ContentSource`] adapter that layers network retrieval on top of a local [`ContentStore`]
/// fallback: an id not found in the swarm is served from the local cache. This is how the runtime
/// satisfies a fetch when the asset was previously cached (offline-first).
#[derive(Debug)]
pub struct LocalFallbackSource {
    network: PeerNetwork,
    local: ContentStore,
}

/// The mathematical form of a source with a local fallback.
pub struct FallbackView {
    pub network: SwarmView,
    pub local: Map<Seq<char>, Seq<u8>>,
}

impl View for LocalFallbackSource {
    type V = FallbackView;

    closed spec fn view(&self) -> FallbackView {
        FallbackView { network: self.network@, local: self.local@ }
    }
}

/// The providers of an id: those of the swarm, or else the local cache.
pub open spec fn fallback_providers(v: FallbackView, id: Seq<char>) -> Seq<ProviderView> {
    if announced(v.network, id).len() > 0 {
        records(v.network, announced(v.network, id), id)
    } else {
        match verified_block(v.local, id) {
            Some(b) => seq![ProviderView { peer: "local-cache"@, size: b.len() as u64 }],
            None => Seq::empty(),
        }
    }
}

/// What a fetch returns: from the local cache under its own name, else from the swarm.
pub open spec fn fallback_block(v: FallbackView, peer: Seq<char>, id: Seq<char>) -> Result<
    Seq<u8>,
    SourceErrorView,
> {
    if peer == "local-cache"@ {
        match verified_block(v.local, id) {
            Some(b) => Ok(b),
            None => Err(SourceErrorView::Unavailable(id)),
        }
    } else {
        fetched_from(v.network, peer, id)
    }
}

impl LocalFallbackSource {
    /// The parts are well formed.
    pub closed spec fn wf(&self) -> bool {
        self.network.wf() && self.local.wf()
    }

    pub fn new(network: PeerNetwork) -> (s: Self)
        requires
            network.wf(),
        ensures
            s.wf(),
            s@ == (FallbackView { network: network@, local: Map::empty() }),
    {
        LocalFallbackSource { network, local: ContentStore::new() }
    }

    /// Seed the local cache (e.g. from a packaged/offline content bundle).
    pub fn cache(&mut self, bytes: &[u8]) -> (id: ContentId)
        requires
            old(self).wf(),
        ensures
            final(self).wf(),
            id@ == id_of(bytes@),
            final(self)@ == (FallbackView {
                local: after_put(old(self)@.local, bytes@),
                ..old(self)@
            }),
    {
        self.local.put(bytes)
    }
}

impl ContentSource for LocalFallbackSource {
    open spec fn valid(&self) -> bool {
        self.wf()
    }

    fn find_providers(&self, id: &ContentId) -> (r: Vec<Provider>)
        ensures
            r.deep_view() == fallback_providers(self@, id@),
    {
        let mut providers = self.network.find_providers(id);
        proof {
            lemma_records(self.network@, announced(self.network@, id@), id@);
        }
        if providers.len() == 0 {
            assert(providers.deep_view() =~= Seq::<ProviderView>::empty());
            if let Some(b) = self.local.get_verified(id) {
                assert(b.deep_view() =~= b@);
                let p = Provider { peer: PeerId::new("local-cache"), size: b.len() as u64 };
                let ghost x = p.deep_view();
                providers.push(p);
                assert(providers.deep_view() =~= seq![x]);
            }
        }
        providers
    }

    fn fetch_block(&self, provider: &Provider, id: &ContentId) -> (r: Result<
        Vec<u8>,
        ContentSourceError,
    >)
        ensures
            block_view(r) == fallback_block(self@, provider.peer.0@, id@),
    {
        if str_eq(&provider.peer.0, "local-cache") {
            match self.local.get_verified(id) {
                Some(b) => {
                    assert(b.deep_view() =~= b@);
                    Ok(b)
                },
                None => Err(ContentSourceError::Unavailable(id.copy())),
            }
        } else {
            self.network.fetch_block(provider, id)
        }
    }
}

/// Helper: compute a `ContentId` for bytes (re-exported convenience).
pub fn content_id(bytes: &[u8]) -> (id: ContentId)
    ensures
        id@ == id_of(bytes@),
{
    digest(bytes)
}

/// What a peer has provided can be found and fetched from it, verified, and resolved. Two different
/// blocks of one peer with one digest are left out.
pub proof fn law_provided_is_found(s: SwarmView, peer: Seq<char>, bytes: Seq<u8>)
    requires
        swarm_sound(s),
        holds(s, peer, id_of(bytes)) ==> s.stores[peer][id_of(bytes)] == bytes,
    ensures
        announced(provided(s, peer, bytes), id_of(bytes)).contains(peer),
        fetched_from(provided(s, peer, bytes), peer, id_of(bytes)) == Ok::<Seq<u8>, SourceErrorView>(
            bytes,
        ),
        resolved_from(
            provided(s, peer, bytes),
            announced(provided(s, peer, bytes), id_of(bytes)),
            id_of(bytes),
        ) is Ok,
{
    let after = provided(s, peer, bytes);
    let id = id_of(bytes);
    lemma_provided(s, peer, bytes);
    let peers = announced(s, id);
    assert(sound(held_by(s, peer)));
    if !peers.contains(peer) {
        assert(peers.push(peer).last() == peer);
        assert(peers.push(peer).contains(peer));
    }
    law_announced_is_resolved(after, id);
}

/// Whatever has been announced in a sound swarm is resolved, to a block that hashes to the id; and
/// what nobody has announced is not found.
pub proof fn law_announced_is_resolved(s: SwarmView, id: Seq<char>)
    requires
        swarm_sound(s),
    ensures
        announced(s, id).len() > 0 ==> (resolved_from(s, announced(s, id), id) matches Ok(b)
            && id_of(b) == id),
        announced(s, id).len() == 0 ==> resolved_from(s, announced(s, id), id) == Err::<
            Seq<u8>,
            SourceErrorView,
        >(SourceErrorView::NotFound(id)),
        forall|k: int|
            0 <= k < announced(s, id).len() ==> (fetched_from(
                s,
                #[trigger] announced(s, id)[k],
                id,
            ) matches Ok(b) && id_of(b) == id),
{
    let peers = announced(s, id);
    assert forall|k: int| 0 <= k < peers.len() implies (fetched_from(
        s,
        #[trigger] peers[k],
        id,
    ) matches Ok(b) && id_of(b) == id) by {
        assert(s.routing.dom().contains(id));
        assert(holds(s, s.routing[id][k], id));
        assert(sound(s.stores[peers[k]]));
    }
}

/// An asset in the local cache is served when the swarm does not know it.
pub proof fn law_cached_is_served(v: FallbackView, bytes: Seq<u8>)
    requires
        sound(v.local),
        v.local.dom().contains(id_of(bytes)) ==> v.local[id_of(bytes)] == bytes,
        announced(v.network, id_of(bytes)).len() == 0,
    ensures
        ({
            let after = FallbackView { local: after_put(v.local, bytes), ..v };
            &&& fallback_providers(after, id_of(bytes)) == seq![
                ProviderView { peer: "local-cache"@, size: bytes.len() as u64 },
            ]
            &&& fallback_block(after, "local-cache"@, id_of(bytes)) == Ok::<
                Seq<u8>,
                SourceErrorView,
            >(bytes)
        }),
{
}

/// Providing bytes announces them: under their digest the peer's record is listed exactly once, with
/// the number of bytes, behind the records that were there before; the records of every other id,
/// and what is fetched under it, stay as they were; and providing the same bytes again changes
/// nothing. Two different blocks with one digest are left out: the first one stays.
pub proof fn law_provide(s: SwarmView, peer: Seq<char>, bytes: Seq<u8>)
    requires
        swarm_sound(s),
        holds(s, peer, id_of(bytes)) ==> s.stores[peer][id_of(bytes)] == bytes,
    ensures
        ({
            let id = id_of(bytes);
            let after = provided(s, peer, bytes);
            let was = records(s, announced(s, id), id);
            let now = records(after, announced(after, id), id);
            &&& fetched_from(after, peer, id) == Ok::<Seq<u8>, SourceErrorView>(bytes)
            &&& was.is_prefix_of(now)
            &&& now.len() <= was.len() + 1
            &&& now.contains(ProviderView { peer, size: bytes.len() as u64 })
            &&& forall|j: int, k: int|
                0 <= j < k < now.len() ==> (#[trigger] now[j]).peer != (#[trigger] now[k]).peer
            &&& forall|other: Seq<char>|
                other != id ==> #[trigger] records(after, announced(after, other), other)
                    == records(s, announced(s, other), other)
            &&& forall|p: Seq<char>, other: Seq<char>|
                other != id ==> #[trigger] fetched_from(after, p, other) == fetched_from(s, p, other)
            &&& provided(after, peer, bytes) == after
        }),
{
    let id = id_of(bytes);
    let after = provided(s, peer, bytes);
    let old_peers = announced(s, id);
    let new_peers = announced(after, id);
    law_provided_is_found(s, peer, bytes);
    lemma_provided(s, peer, bytes);
    let was = records(s, old_peers, id);
    let now = records(after, new_peers, id);
    lemma_records(s, old_peers, id);
    lemma_records(after, new_peers, id);
    assert forall|k: int| 0 <= k < old_peers.len() implies was[k] == now[k] by {
        assert(new_peers[k] == old_peers[k]);
        assert(holds(s, s.routing[id][k], id));
    }
    assert(was =~= now.take(was.len() as int));
    assert(was.is_prefix_of(now));
    let at = choose|at: int| 0 <= at < new_peers.len() && new_peers[at] == peer;
    assert(now[at] == ProviderView { peer, size: bytes.len() as u64 });
    assert forall|j: int, k: int| 0 <= j < k < now.len() implies (#[trigger] now[j]).peer != (
    #[trigger] now[k]).peer by {
        assert(after.routing[id].no_duplicates());
        assert(new_peers[j] != new_peers[k]);
    }
    assert forall|other: Seq<char>| other != id implies #[trigger] records(
        after,
        announced(after, other),
        other,
    ) == records(s, announced(s, other), other) by {
        let peers = announced(s, other);
        assert(announced(after, other) == peers);
        lemma_records(s, peers, other);
        lemma_records(after, peers, other);
        assert(records(after, peers, other) =~= records(s, peers, other));
    }
    let twice = provided(after, peer, bytes);
    assert(twice.stores =~= after.stores);
    assert(twice.routing =~= after.routing);
}

} // verus!
