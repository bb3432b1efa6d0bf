//! The host state behind the capability interfaces (`network`, `storage`, `dom`, `media`).
//!
//! [`RuntimeState`] is the single source of truth for the capability behaviour: the in-memory
//! [`RuntimeStub`] and the component host hold one by value and delegate to the same methods, so
//! they cannot drift. With a broker every operation is checked against the live grants of the
//! app; without one the state is permissive.
use crate::runtime::capability::{
    authorized, clock, clock_reads, host_in, host_of, issued, next_token, with_grant, BrokerView, CapView,
    Capability, CapabilityBroker, CapabilityToken, DomScope, HostPattern, HostView, StorageScope,
    StorageView,
};
use crate::runtime::string_map::{bytes_in, copy_texts, texts_in, StringMap};
use crate::strings::decimal;
use std::collections::HashMap;
use vstd::prelude::*;
use vstd::string::*;

verus! {

broadcast use vstd::std_specs::hash::group_hash_axioms;

/// A handle of an element.
#[derive(Debug, Clone, Copy, PartialEq, Eq, Structural)]
pub struct ElementId {
    pub id: u64,
}

/// A request of the `network` interface.
#[derive(Debug, Clone)]
pub struct Request {
    pub method: String,
    pub url: String,
    pub headers: Vec<(String, String)>,
    pub body: Option<Vec<u8>>,
}

/// A response of the `network` interface.
#[derive(Debug, Clone)]
pub struct Response {
    pub status: u16,
    pub headers: Vec<(String, String)>,
    pub body: Vec<u8>,
}

/// The mathematical form of a response.
pub struct ResponseView {
    pub status: u16,
    pub headers: Seq<(Seq<char>, Seq<char>)>,
    pub body: Seq<u8>,
}

impl View for Response {
    type V = ResponseView;

    open spec fn view(&self) -> ResponseView {
        ResponseView { status: self.status, headers: self.headers.deep_view(), body: self.body@ }
    }
}

/// What a player is to decode.
#[derive(Debug, Clone)]
pub struct VideoConfig {
    pub codec: String,
    pub width: u32,
    pub height: u32,
    pub bitrate: u32,
}

/// The mathematical form of a player's configuration.
pub struct VideoView {
    pub codec: Seq<char>,
    pub width: u32,
    pub height: u32,
    pub bitrate: u32,
}

impl View for VideoConfig {
    type V = VideoView;

    open spec fn view(&self) -> VideoView {
        VideoView {
            codec: self.codec@,
            width: self.width,
            height: self.height,
            bitrate: self.bitrate,
        }
    }
}

/// A media player of the host.
#[derive(Debug, Clone)]
pub struct Player {
    pub config: VideoConfig,
    pub playing: bool,
    pub position_ms: u64,
}

/// The mathematical form of a player.
pub struct PlayerView {
    pub config: VideoView,
    pub playing: bool,
    pub position_ms: u64,
}

impl DeepView for Player {
    type V = PlayerView;

    open spec fn deep_view(&self) -> PlayerView {
        PlayerView {
            config: self.config@,
            playing: self.playing,
            position_ms: self.position_ms,
        }
    }
}

/// A node in the host's element tree.
#[derive(Debug, Clone)]
pub struct Element {
    pub tag: String,
    pub text: String,
    pub attributes: StringMap<String>,
    pub children: Vec<ElementId>,
}

/// The mathematical form of an element.
pub struct ElementView {
    pub tag: Seq<char>,
    pub text: Seq<char>,
    pub attributes: Map<Seq<char>, Seq<char>>,
    pub children: Seq<ElementId>,
}

impl DeepView for Element {
    type V = ElementView;

    open spec fn deep_view(&self) -> ElementView {
        ElementView {
            tag: self.tag@,
            text: self.text@,
            attributes: texts_in(self.attributes@),
            children: self.children@,
        }
    }
}

/// A copy of an element.
fn copy_element(e: &Element) -> (r: Element)
    requires
        e.attributes.wf(),
    ensures
        r.attributes.wf(),
        r.deep_view() == e.deep_view(),
{
    let children = e.children.clone();
    assert(children@ =~= e.children@);
    Element {
        tag: e.tag.clone(),
        text: e.text.clone(),
        attributes: copy_texts(&e.attributes),
        children,
    }
}

/// A copy of a response.
fn copy_response(r: &Response) -> (c: Response)
    ensures
        c@ == r@,
{
    let ghost hv = r.headers.deep_view();
    let mut headers: Vec<(String, String)> = Vec::new();
    let mut i: usize = 0;
    while i < r.headers.len()
        invariant
            0 <= i <= r.headers@.len(),
            hv == r.headers.deep_view(),
            headers.deep_view() == hv.take(i as int),
        decreases r.headers@.len() - i,
    {
        let ghost was = headers.deep_view();
        let h = (r.headers[i].0.clone(), r.headers[i].1.clone());
        let ghost x = h.deep_view();
        headers.push(h);
        assert(headers.deep_view() =~= was.push(x));
        assert(hv.take(i + 1) =~= hv.take(i as int).push(hv[i as int]));
        i = i + 1;
    }
    assert(hv.take(hv.len() as int) =~= hv);
    let body = r.body.clone();
    assert(body@ =~= r.body@);
    Response { status: r.status, headers, body }
}

/// The mathematical form of the host state.
pub struct StateView {
    /// The app and its broker, where every operation is checked.
    pub guard: Option<(Seq<char>, BrokerView)>,
    /// The elements; a handle is a position.
    pub elements: Seq<ElementView>,
    /// Click handlers by element handle, in order of registration.
    pub clicks: Map<u64, Seq<u64>>,
    /// The store.
    pub store: Map<Seq<char>, Seq<u8>>,
    /// Canned responses by exact URL.
    pub routes: Map<Seq<char>, ResponseView>,
    /// The players; a handle is a position.
    pub players: Seq<PlayerView>,
}

/// A host state with nothing in it.
pub open spec fn blank(guard: Option<(Seq<char>, BrokerView)>) -> StateView {
    StateView {
        guard,
        elements: Seq::empty(),
        clicks: Map::empty(),
        store: Map::empty(),
        routes: Map::empty(),
        players: Seq::empty(),
    }
}

/// Whether an operation is allowed: without a broker always, with one if a live grant of the app
/// covers what it needs.
pub open spec fn allowed(s: StateView, needed: CapView, now: u64) -> bool {
    match s.guard {
        None => true,
        Some((app, b)) => authorized(b.grants, app, needed, now),
    }
}

/// What a fetch of a URL needs.
pub open spec fn network_needed(url: Seq<char>) -> CapView {
    CapView::Network { hosts: seq![HostView::Exact(host_in(url))] }
}

/// What access to a key needs.
pub open spec fn storage_needed(key: Seq<char>) -> CapView {
    CapView::Storage { scope: StorageView::Namespace(key) }
}

/// What creating an element needs.
pub open spec fn create_needed() -> CapView {
    CapView::Dom { scope: DomScope::Full }
}

/// What changing an element needs.
pub open spec fn change_needed(id: u64) -> CapView {
    CapView::Dom { scope: DomScope::Subtree(id) }
}

/// What a player of a size needs.
pub open spec fn media_needed(c: VideoView) -> CapView {
    CapView::Media { max_resolution: Some((c.width, c.height)) }
}

/// The response to a fetch, where there is one.
pub open spec fn fetched(s: StateView, url: Seq<char>, now: u64) -> Option<ResponseView> {
    if allowed(s, network_needed(url), now) && s.routes.dom().contains(url) {
        Some(s.routes[url])
    } else {
        None
    }
}

/// What stands in the store under a key.
pub open spec fn in_store(s: StateView, key: Seq<char>) -> Option<Seq<u8>> {
    if s.store.dom().contains(key) {
        Some(s.store[key])
    } else {
        None
    }
}

/// What a read of a key returns.
pub open spec fn read_back(s: StateView, key: Seq<char>, now: u64) -> Option<Seq<u8>> {
    if allowed(s, storage_needed(key), now) {
        in_store(s, key)
    } else {
        None
    }
}

/// The state after a write.
pub open spec fn written(s: StateView, key: Seq<char>, value: Seq<u8>, now: u64) -> StateView {
    if allowed(s, storage_needed(key), now) {
        StateView { store: s.store.insert(key, value), ..s }
    } else {
        s
    }
}

/// The state after a removal.
pub open spec fn erased(s: StateView, key: Seq<char>, now: u64) -> StateView {
    if allowed(s, storage_needed(key), now) {
        StateView { store: s.store.remove(key), ..s }
    } else {
        s
    }
}

/// A fresh element.
pub open spec fn fresh(tag: Seq<char>) -> ElementView {
    ElementView { tag, text: Seq::empty(), attributes: Map::empty(), children: Seq::empty() }
}

/// The state after an element is created, and its handle; the largest number is no handle.
pub open spec fn created(s: StateView, tag: Seq<char>, now: u64) -> (StateView, u64) {
    if allowed(s, create_needed(), now) {
        (StateView { elements: s.elements.push(fresh(tag)), ..s }, s.elements.len() as u64)
    } else {
        (s, u64::MAX)
    }
}

/// Whether an element exists and may be changed.
pub open spec fn changeable(s: StateView, id: u64, now: u64) -> bool {
    id < s.elements.len() && allowed(s, change_needed(id), now)
}

/// The state with an element replaced, if it may be changed.
pub open spec fn changed(s: StateView, id: u64, e: ElementView, now: u64) -> StateView {
    if changeable(s, id, now) {
        StateView { elements: s.elements.update(id as int, e), ..s }
    } else {
        s
    }
}

/// The state after an element's text is set.
pub open spec fn text_set(s: StateView, id: u64, text: Seq<char>, now: u64) -> StateView {
    changed(s, id, ElementView { text, ..s.elements[id as int] }, now)
}

/// The state after an attribute is set.
pub open spec fn attribute_set(
    s: StateView,
    id: u64,
    name: Seq<char>,
    value: Seq<char>,
    now: u64,
) -> StateView {
    let e = s.elements[id as int];
    changed(s, id, ElementView { attributes: e.attributes.insert(name, value), ..e }, now)
}

/// The state after a child is appended.
pub open spec fn child_appended(s: StateView, parent: u64, child: ElementId, now: u64) -> StateView {
    let e = s.elements[parent as int];
    changed(s, parent, ElementView { children: e.children.push(child), ..e }, now)
}

/// The click handlers of an element.
pub open spec fn clicks_of(s: StateView, id: u64) -> Seq<u64> {
    if s.clicks.dom().contains(id) {
        s.clicks[id]
    } else {
        Seq::empty()
    }
}

/// The state after a click handler is registered. The element need not exist.
pub open spec fn click_added(s: StateView, id: u64, handler: u64, now: u64) -> StateView {
    if allowed(s, change_needed(id), now) {
        StateView { clicks: s.clicks.insert(id, clicks_of(s, id).push(handler)), ..s }
    } else {
        s
    }
}

/// The state after a player is created.
pub open spec fn player_created(s: StateView, config: VideoView) -> StateView {
    StateView {
        players: s.players.push(PlayerView { config, playing: false, position_ms: 0 }),
        ..s
    }
}

/// The state with a player replaced, if its media may be used.
pub open spec fn player_changed(s: StateView, id: u64, p: PlayerView, now: u64) -> StateView {
    if id < s.players.len() && allowed(s, media_needed(s.players[id as int].config), now) {
        StateView { players: s.players.update(id as int, p), ..s }
    } else {
        s
    }
}

/// The state after a player is started or stopped.
pub open spec fn playing_set(s: StateView, id: u64, playing: bool, now: u64) -> StateView {
    player_changed(s, id, PlayerView { playing, ..s.players[id as int] }, now)
}

/// The state after a player is moved.
pub open spec fn position_set(s: StateView, id: u64, position_ms: u64, now: u64) -> StateView {
    player_changed(s, id, PlayerView { position_ms, ..s.players[id as int] }, now)
}

/// The message of a refused fetch.
pub open spec fn fetch_refusal(url: Seq<char>) -> Seq<char> {
    "network capability denied or no route for "@ + url
}

/// The message of a refused access to a key.
pub open spec fn storage_refusal(key: Seq<char>) -> Seq<char> {
    "storage capability denied for "@ + key
}

/// The message of a refused player.
pub open spec fn media_refusal(c: VideoView) -> Seq<char> {
    "media capability denied for "@ + crate::strings::dec(c.width as nat) + "x"@
        + crate::strings::dec(c.height as nat)
}

/// A map of responses as mathematical values.
pub open spec fn responses_in(m: Map<Seq<char>, Response>) -> Map<Seq<char>, ResponseView> {
    Map::new(|k: Seq<char>| m.dom().contains(k), |k: Seq<char>| m[k]@)
}

/// A map of handler lists as mathematical values.
pub open spec fn handlers_in(m: Map<u64, Vec<u64>>) -> Map<u64, Seq<u64>> {
    Map::new(|k: u64| m.dom().contains(k), |k: u64| m[k]@)
}

/// Mutable host state for the capability interfaces.
pub struct RuntimeState {
    app: String,
    broker: Option<CapabilityBroker>,
    elements: Vec<Element>,
    clicks: HashMap<u64, Vec<u64>>,
    store: StringMap<Vec<u8>>,
    routes: StringMap<Response>,
    players: Vec<Player>,
}

impl View for RuntimeState {
    type V = StateView;

    closed spec fn view(&self) -> StateView {
        StateView {
            guard: match self.broker {
                Some(b) => Some((self.app@, b@)),
                None => None,
            },
            elements: self.elements.deep_view(),
            clicks: handlers_in(self.clicks@),
            store: bytes_in(self.store@),
            routes: responses_in(self.routes@),
            players: self.players.deep_view(),
        }
    }
}

impl Default for RuntimeState {
    /// A state without a broker: everything is allowed.
    fn default() -> (s: Self)
        ensures
            s.wf(),
            s@ == blank(None),
    {
        let s = RuntimeState {
            app: String::from_str(""),
            broker: None,
            elements: Vec::new(),
            clicks: HashMap::new(),
            store: StringMap::new(),
            routes: StringMap::new(),
            players: Vec::new(),
        };
        assert(s@.elements =~= Seq::<ElementView>::empty());
        assert(s@.clicks =~= Map::<u64, Seq<u64>>::empty());
        assert(s@.store =~= Map::<Seq<char>, Seq<u8>>::empty());
        assert(s@.routes =~= Map::<Seq<char>, ResponseView>::empty());
        assert(s@.players =~= Seq::<PlayerView>::empty());
        s
    }
}

impl RuntimeState {
    /// What every state keeps.
    pub closed spec fn wf(&self) -> bool {
        &&& self.store.wf()
        &&& self.routes.wf()
        &&& forall|i: int|
            0 <= i < self.elements@.len() ==> (#[trigger] self.elements@[i]).attributes.wf()
        &&& self.broker matches Some(b) ==> b.wf()
    }

    /// A state whose every operation is checked against an app's grants.
    pub fn with_broker(app: String, broker: CapabilityBroker) -> (s: Self)
        requires
            broker.wf(),
        ensures
            s.wf(),
            s@ == blank(Some((app@, broker@))),
    {
        let mut s = RuntimeState::default();
        s.app = app;
        s.broker = Some(broker);
        s
    }

    /// Records a grant for the app at an instant.
    pub fn grant_at(&mut self, capability: Capability, now: u64) -> (t: CapabilityToken)
        requires
            old(self).wf(),
            old(self)@.guard matches Some(g) && g.1.grants.len() + 1 < u64::MAX,
        ensures
            final(self).wf(),
            ({
                let (app, b) = old(self)@.guard->0;
                &&& final(self)@ == (StateView {
                    guard: Some(
                        (app, with_grant(b, issued(app, capability.deep_view(), None, None, now))),
                    ),
                    ..old(self)@
                })
                &&& t.0 == next_token(b)
            }),
    {
        let app = self.app.clone();
        match &mut self.broker {
            Some(b) => b.grant_at(app, capability, None, now),
            None => CapabilityToken(0),
        }
    }

    /// Records a grant for the app.
    pub fn grant(&mut self, capability: Capability) -> (t: CapabilityToken)
        requires
            old(self).wf(),
            old(self)@.guard matches Some(g) && g.1.grants.len() + 1 < u64::MAX,
        ensures
            final(self).wf(),
            ({
                let (app, b) = old(self)@.guard->0;
                &&& exists|now: u64|
                    clock_reads(now) && final(self)@ == (StateView {
                        guard: Some(
                            (
                                app,
                                with_grant(
                                    b,
                                    #[trigger] issued(app, capability.deep_view(), None, None, now),
                                ),
                            ),
                        ),
                        ..old(self)@
                    })
                &&& t.0 == next_token(b)
            }),
    {
        let now = clock();
        self.grant_at(capability, now)
    }

    /// The broker, where there is one.
    pub fn broker(&self) -> (r: Option<&CapabilityBroker>)
        requires
            self.wf(),
        ensures
            match (r, self@.guard) {
                (Some(b), Some(g)) => b.wf() && b@ == g.1,
                (None, None) => true,
                _ => false,
            },
    {
        match &self.broker {
            Some(b) => Some(b),
            None => None,
        }
    }

    /// The broker, to be changed, where there is one.
    pub fn broker_mut(&mut self) -> (r: Option<&mut CapabilityBroker>)
        requires
            old(self).wf(),
        ensures
            match (r, old(self)@.guard) {
                (Some(b), Some(g)) => {
                    &&& b.wf()
                    &&& b@ == g.1
                    &&& final(b).wf() ==> final(self).wf()
                    &&& final(self)@ == (StateView {
                        guard: Some((g.0, final(b)@)),
                        ..old(self)@
                    })
                },
                (None, None) => final(self).wf() && final(self)@ == old(self)@,
                _ => false,
            },
    {
        match &mut self.broker {
            Some(b) => Some(b),
            None => None,
        }
    }

    /// Whether an operation is allowed at an instant.
    fn permits(&self, needed: &Capability, now: u64) -> (b: bool)
        requires
            self.wf(),
        ensures
            b == allowed(self@, needed.deep_view(), now),
    {
        match &self.broker {
            Some(b) => b.authorizes(&self.app, needed, now),
            None => true,
        }
    }

    fn permits_key(&self, key: &String, now: u64) -> (b: bool)
        requires
            self.wf(),
        ensures
            b == allowed(self@, storage_needed(key@), now),
    {
        self.permits(&Capability::Storage { scope: StorageScope::Namespace(key.clone()) }, now)
    }

    fn permits_change(&self, id: u64, now: u64) -> (b: bool)
        requires
            self.wf(),
        ensures
            b == allowed(self@, change_needed(id), now),
    {
        self.permits(&Capability::Dom { scope: DomScope::Subtree(id) }, now)
    }

    fn permits_media(&self, config: &VideoConfig, now: u64) -> (b: bool)
        requires
            self.wf(),
        ensures
            b == allowed(self@, media_needed(config@), now),
    {
        self.permits(
            &Capability::Media { max_resolution: Some((config.width, config.height)) },
            now,
        )
    }

    /// Creates an element at an instant. The largest number is returned where that is denied.
    pub fn create_element_at(&mut self, tag: String, now: u64) -> (id: u64)
        requires
            old(self).wf(),
            old(self)@.elements.len() < u64::MAX,
        ensures
            final(self).wf(),
            (final(self)@, id) == created(old(self)@, tag@, now),
    {
        if !self.permits(&Capability::Dom { scope: DomScope::Full }, now) {
            return u64::MAX;
        }
        let ghost was = self@;
        let id = self.elements.len() as u64;
        let e = Element {
            tag,
            text: String::from_str(""),
            attributes: StringMap::new(),
            children: Vec::new(),
        };
        proof {
            reveal_strlit("");
            assert(e.text@ =~= Seq::<char>::empty());
            assert(texts_in(e.attributes@) =~= Map::<Seq<char>, Seq<char>>::empty());
        }
        let ghost v = e.deep_view();
        self.elements.push(e);
        assert(self@.elements =~= was.elements.push(v));
        id
    }

    /// Sets an element's text at an instant; nothing happens where that is denied or there is no
    /// such element.
    pub fn set_text_at(&mut self, el: u64, text: String, now: u64)
        requires
            old(self).wf(),
        ensures
            final(self).wf(),
            final(self)@ == text_set(old(self)@, el, text@, now),
    {
        let n = self.elements.len();
        if el < n as u64 && self.permits_change(el, now) {
            let ghost was = self@;
            let i: usize = el as usize;
            assert(was.elements[i as int] == self.elements@[i as int].deep_view());
            self.elements[i].text = text;
            assert(self@.elements =~= text_set(was, el, text@, now).elements);
        }
    }

    /// Sets an attribute of an element at an instant; nothing happens where that is denied or
    /// there is no such element.
    pub fn set_attribute_at(&mut self, el: u64, name: String, value: String, now: u64)
        requires
            old(self).wf(),
        ensures
            final(self).wf(),
            final(self)@ == attribute_set(old(self)@, el, name@, value@, now),
    {
        let n = self.elements.len();
        if el < n as u64 && self.permits_change(el, now) {
            let ghost was = self@;
            let ghost olds = self.elements@;
            let i: usize = el as usize;
            assert(was.elements[i as int] == self.elements@[i as int].deep_view());
            self.elements[i].attributes.insert(name, value);
            assert(texts_in(self.elements@[i as int].attributes@) =~= texts_in(
                olds[i as int].attributes@,
            ).insert(name@, value@));
            assert(self@.elements =~= attribute_set(was, el, name@, value@, now).elements);
        }
    }

    /// Appends a child to an element at an instant; nothing happens where that is denied or there
    /// is no such parent.
    pub fn append_child_at(&mut self, parent: u64, child: u64, now: u64)
        requires
            old(self).wf(),
        ensures
            final(self).wf(),
            final(self)@ == child_appended(old(self)@, parent, (ElementId { id: child }), now),
    {
        let n = self.elements.len();
        if parent < n as u64 && self.permits_change(parent, now) {
            let ghost was = self@;
            let i: usize = parent as usize;
            assert(was.elements[i as int] == self.elements@[i as int].deep_view());
            self.elements[i].children.push(ElementId { id: child });
            assert(self@.elements =~= child_appended(
                was,
                parent,
                ElementId { id: child },
                now,
            ).elements);
        }
    }

    /// Registers a click handler at an instant; nothing happens where that is denied.
    pub fn on_click_at(&mut self, el: u64, handler_id: u64, now: u64)
        requires
            old(self).wf(),
        ensures
            final(self).wf(),
            final(self)@ == click_added(old(self)@, el, handler_id, now),
    {
        if self.permits_change(el, now) {
            let ghost was = self@;
            let mut handlers = match self.clicks.remove(&el) {
                Some(hs) => hs,
                None => Vec::new(),
            };
            assert(handlers@ =~= clicks_of(was, el));
            handlers.push(handler_id);
            self.clicks.insert(el, handlers);
            assert(self@.clicks =~= was.clicks.insert(el, clicks_of(was, el).push(handler_id)));
        }
    }

    /// Fetches a URL at an instant.
    pub fn fetch_at(&self, req: &Request, now: u64) -> (r: Result<Response, String>)
        requires
            self.wf(),
        ensures
            match (r, fetched(self@, req.url@, now)) {
                (Ok(x), Some(v)) => x@ == v,
                (Err(e), None) => e@ == fetch_refusal(req.url@),
                _ => false,
            },
    {
        let mut hosts: Vec<HostPattern> = Vec::new();
        hosts.push(HostPattern::Exact(host_of(&req.url)));
        assert(hosts.deep_view() =~= seq![HostView::Exact(host_in(req.url@))]);
        if self.permits(&Capability::Network { hosts }, now) {
            if let Some(r) = self.routes.get(&req.url) {
                return Ok(copy_response(r));
            }
        }
        let mut message = String::from_str("network capability denied or no route for ");
        message.append(&req.url);
        Err(message)
    }

    /// Reads a key at an instant.
    pub fn get_at(&self, key: &String, now: u64) -> (r: Option<Vec<u8>>)
        requires
            self.wf(),
        ensures
            r.deep_view() == read_back(self@, key@, now),
    {
        if self.permits_key(key, now) {
            self.stored(key)
        } else {
            None
        }
    }

    /// What stands in the store under a key.
    pub fn stored(&self, key: &str) -> (r: Option<Vec<u8>>)
        requires
            self.wf(),
        ensures
            r.deep_view() == in_store(self@, key@),
    {
        match self.store.get(key) {
            Some(v) => {
                let c = v.clone();
                assert(c@ =~= v@);
                assert(c.deep_view() =~= v@);
                Some(c)
            },
            None => None,
        }
    }

    /// Writes a key at an instant.
    pub fn set_at(&mut self, key: String, value: Vec<u8>, now: u64) -> (r: Result<(), String>)
        requires
            old(self).wf(),
        ensures
            final(self).wf(),
            final(self)@ == written(old(self)@, key@, value@, now),
            r is Ok <==> allowed(old(self)@, storage_needed(key@), now),
            r matches Err(e) ==> e@ == storage_refusal(key@),
    {
        if !self.permits_key(&key, now) {
            return Err(storage_denied(&key));
        }
        let ghost was = self@;
        self.store.insert(key, value);
        assert(self@.store =~= was.store.insert(key@, value@));
        Ok(())
    }

    /// Removes a key at an instant.
    pub fn delete_at(&mut self, key: String, now: u64) -> (r: Result<(), String>)
        requires
            old(self).wf(),
        ensures
            final(self).wf(),
            final(self)@ == erased(old(self)@, key@, now),
            r is Ok <==> allowed(old(self)@, storage_needed(key@), now),
            r matches Err(e) ==> e@ == storage_refusal(key@),
    {
        if !self.permits_key(&key, now) {
            return Err(storage_denied(&key));
        }
        let ghost was = self@;
        let removed = self.store.remove(&key);
        assert(self@.store =~= was.store.remove(key@));
        Ok(())
    }

    /// Creates a player at an instant.
    pub fn create_player_at(&mut self, config: VideoConfig, now: u64) -> (r: Result<u64, String>)
        requires
            old(self).wf(),
        ensures
            final(self).wf(),
            match r {
                Ok(id) => {
                    &&& allowed(old(self)@, media_needed(config@), now)
                    &&& id == old(self)@.players.len()
                    &&& final(self)@ == player_created(old(self)@, config@)
                },
                Err(e) => {
                    &&& !allowed(old(self)@, media_needed(config@), now)
                    &&& e@ == media_refusal(config@)
                    &&& final(self)@ == old(self)@
                },
            },
    {
        if !self.permits_media(&config, now) {
            let mut message = String::from_str("media capability denied for ");
            message.append(&decimal(config.width as u64));
            message.append("x");
            message.append(&decimal(config.height as u64));
            return Err(message);
        }
        let ghost was = self@;
        let id = self.players.len() as u64;
        let p = Player { config, playing: false, position_ms: 0 };
        let ghost v = p.deep_view();
        self.players.push(p);
        assert(self@.players =~= was.players.push(v));
        Ok(id)
    }

    fn set_playing(&mut self, id: u64, playing: bool, now: u64)
        requires
            old(self).wf(),
        ensures
            final(self).wf(),
            final(self)@ == playing_set(old(self)@, id, playing, now),
    {
        let n = self.players.len();
        if id < n as u64 {
            let ghost was = self@;
            let i: usize = id as usize;
            assert(was.players[i as int] == self.players@[i as int].deep_view());
            if self.permits_media(&self.players[i].config, now) {
                self.players[i].playing = playing;
                assert(self@.players =~= playing_set(was, id, playing, now).players);
            }
        }
    }

    /// Starts a player at an instant; nothing happens where that is denied or there is no such
    /// player.
    pub fn play_at(&mut self, id: u64, now: u64)
        requires
            old(self).wf(),
        ensures
            final(self).wf(),
            final(self)@ == playing_set(old(self)@, id, true, now),
    {
        self.set_playing(id, true, now);
    }

    /// Stops a player at an instant; nothing happens where that is denied or there is no such
    /// player.
    pub fn pause_at(&mut self, id: u64, now: u64)
        requires
            old(self).wf(),
        ensures
            final(self).wf(),
            final(self)@ == playing_set(old(self)@, id, false, now),
    {
        self.set_playing(id, false, now);
    }

    /// Moves a player at an instant; nothing happens where that is denied or there is no such
    /// player.
    pub fn seek_at(&mut self, id: u64, position_ms: u64, now: u64)
        requires
            old(self).wf(),
        ensures
            final(self).wf(),
            final(self)@ == position_set(old(self)@, id, position_ms, now),
    {
        let n = self.players.len();
        if id < n as u64 {
            let ghost was = self@;
            let i: usize = id as usize;
            assert(was.players[i as int] == self.players@[i as int].deep_view());
            if self.permits_media(&self.players[i].config, now) {
                self.players[i].position_ms = position_ms;
                assert(self@.players =~= position_set(was, id, position_ms, now).players);
            }
        }
    }

    /// A player, where there is one.
    pub fn player(&self, id: u64) -> (r: Option<Player>)
        ensures
            r.deep_view() == (if id < self@.players.len() {
                Some(self@.players[id as int])
            } else {
                None
            }),
    {
        let n = self.players.len();
        if id < n as u64 {
            let p = &self.players[id as usize];
            assert(self@.players[id as int] == p.deep_view());
            Some(
                Player {
                    config: VideoConfig {
                        codec: p.config.codec.clone(),
                        width: p.config.width,
                        height: p.config.height,
                        bitrate: p.config.bitrate,
                    },
                    playing: p.playing,
                    position_ms: p.position_ms,
                },
            )
        } else {
            None
        }
    }

    /// Registers a canned `fetch` response for an exact URL.
    pub fn register_fetch(&mut self, url: &str, response: Response)
        requires
            old(self).wf(),
        ensures
            final(self).wf(),
            final(self)@ == (StateView {
                routes: old(self)@.routes.insert(url@, response@),
                ..old(self)@
            }),
    {
        let ghost was = self@;
        self.routes.insert(String::from_str(url), response);
        assert(self@.routes =~= was.routes.insert(url@, response@));
    }

    /// An element, where there is one.
    pub fn element(&self, id: u64) -> (r: Option<Element>)
        requires
            self.wf(),
        ensures
            r.deep_view() == (if id < self@.elements.len() {
                Some(self@.elements[id as int])
            } else {
                None
            }),
            r matches Some(e) ==> e.attributes.wf(),
    {
        let n = self.elements.len();
        if id < n as u64 {
            let e = &self.elements[id as usize];
            assert(self@.elements[id as int] == e.deep_view());
            Some(copy_element(e))
        } else {
            None
        }
    }

    /// How many click handlers an element has.
    pub fn click_count(&self, id: u64) -> (n: usize)
        ensures
            n == clicks_of(self@, id).len(),
    {
        match self.clicks.get(&id) {
            Some(hs) => hs.len(),
            None => 0,
        }
    }

    /// The click handlers of an element, where any were registered.
    pub fn click_handler_ids(&self, id: u64) -> (r: Option<Vec<u64>>)
        ensures
            r.deep_view() == (if self@.clicks.dom().contains(id) {
                Some(self@.clicks[id])
            } else {
                None
            }),
    {
        match self.clicks.get(&id) {
            Some(hs) => {
                let c = hs.clone();
                assert(c.deep_view() =~= hs@);
                Some(c)
            },
            None => None,
        }
    }

    /// Creates an element. The largest number is returned where that is denied.
    pub fn create_element(&mut self, tag: String) -> (id: u64)
        requires
            old(self).wf(),
            old(self)@.elements.len() < u64::MAX,
        ensures
            final(self).wf(),
            exists|now: u64| clock_reads(now) && (final(self)@, id) == #[trigger] created(old(self)@, tag@, now),
    {
        let now = clock();
        self.create_element_at(tag, now)
    }

    /// Sets an element's text.
    pub fn set_text(&mut self, el: u64, text: String)
        requires
            old(self).wf(),
        ensures
            final(self).wf(),
            exists|now: u64| clock_reads(now) && final(self)@ == #[trigger] text_set(old(self)@, el, text@, now),
    {
        let now = clock();
        self.set_text_at(el, text, now);
    }

    /// Sets an attribute of an element.
    pub fn set_attribute(&mut self, el: u64, name: String, value: String)
        requires
            old(self).wf(),
        ensures
            final(self).wf(),
            exists|now: u64|
                clock_reads(now) && final(self)@ == #[trigger] attribute_set(old(self)@, el, name@, value@, now),
    {
        let now = clock();
        self.set_attribute_at(el, name, value, now);
    }

    /// Appends a child to an element.
    pub fn append_child(&mut self, parent: u64, child: u64)
        requires
            old(self).wf(),
        ensures
            final(self).wf(),
            exists|now: u64|
                clock_reads(now) && final(self)@ == #[trigger] child_appended(
                    old(self)@,
                    parent,
                    (ElementId { id: child }),
                    now,
                ),
    {
        let now = clock();
        self.append_child_at(parent, child, now);
    }

    /// Registers a click handler.
    pub fn on_click(&mut self, el: u64, handler_id: u64)
        requires
            old(self).wf(),
        ensures
            final(self).wf(),
            exists|now: u64| clock_reads(now) && final(self)@ == #[trigger] click_added(old(self)@, el, handler_id, now),
    {
        let now = clock();
        self.on_click_at(el, handler_id, now);
    }

    /// Fetches a URL.
    pub fn fetch(&self, req: Request) -> (r: Result<Response, String>)
        requires
            self.wf(),
        ensures
            exists|now: u64|
                clock_reads(now) && match (r, #[trigger] fetched(self@, req.url@, now)) {
                    (Ok(x), Some(v)) => x@ == v,
                    (Err(e), None) => e@ == fetch_refusal(req.url@),
                    _ => false,
                },
    {
        let now = clock();
        self.fetch_at(&req, now)
    }

    /// Reads a key.
    pub fn get(&self, key: String) -> (r: Option<Vec<u8>>)
        requires
            self.wf(),
        ensures
            exists|now: u64| clock_reads(now) && r.deep_view() == #[trigger] read_back(self@, key@, now),
    {
        let now = clock();
        self.get_at(&key, now)
    }

    /// Writes a key.
    pub fn set(&mut self, key: String, value: Vec<u8>) -> (r: Result<(), String>)
        requires
            old(self).wf(),
        ensures
            final(self).wf(),
            exists|now: u64|
                clock_reads(now) && final(self)@ == #[trigger] written(old(self)@, key@, value@, now) && (r is Ok <==> allowed(
                    old(self)@,
                    storage_needed(key@),
                    now,
                )),
            r matches Err(e) ==> e@ == storage_refusal(key@),
    {
        let now = clock();
        self.set_at(key, value, now)
    }

    /// Removes a key.
    pub fn delete(&mut self, key: String) -> (r: Result<(), String>)
        requires
            old(self).wf(),
        ensures
            final(self).wf(),
            exists|now: u64|
                clock_reads(now) && final(self)@ == #[trigger] erased(old(self)@, key@, now) && (r is Ok <==> allowed(
                    old(self)@,
                    storage_needed(key@),
                    now,
                )),
            r matches Err(e) ==> e@ == storage_refusal(key@),
    {
        let now = clock();
        self.delete_at(key, now)
    }

    /// Creates a player.
    pub fn create_player(&mut self, config: VideoConfig) -> (r: Result<u64, String>)
        requires
            old(self).wf(),
        ensures
            final(self).wf(),
            exists|now: u64|
                clock_reads(now) && (r is Ok <==> #[trigger] allowed(old(self)@, media_needed(config@), now)),
            match r {
                Ok(id) => id == old(self)@.players.len() && final(self)@ == player_created(
                    old(self)@,
                    config@,
                ),
                Err(e) => e@ == media_refusal(config@) && final(self)@ == old(self)@,
            },
    {
        let now = clock();
        self.create_player_at(config, now)
    }

    /// Starts a player.
    pub fn play(&mut self, id: u64)
        requires
            old(self).wf(),
        ensures
            final(self).wf(),
            exists|now: u64| clock_reads(now) && final(self)@ == #[trigger] playing_set(old(self)@, id, true, now),
    {
        let now = clock();
        self.play_at(id, now);
    }

    /// Stops a player.
    pub fn pause(&mut self, id: u64)
        requires
            old(self).wf(),
        ensures
            final(self).wf(),
            exists|now: u64| clock_reads(now) && final(self)@ == #[trigger] playing_set(old(self)@, id, false, now),
    {
        let now = clock();
        self.pause_at(id, now);
    }

    /// Moves a player.
    pub fn seek(&mut self, id: u64, position_ms: u64)
        requires
            old(self).wf(),
        ensures
            final(self).wf(),
            exists|now: u64|
                clock_reads(now) && final(self)@ == #[trigger] position_set(old(self)@, id, position_ms, now),
    {
        let now = clock();
        self.seek_at(id, position_ms, now);
    }
}

/// The message of a refused access to a key.
fn storage_denied(key: &str) -> (m: String)
    ensures
        m@ == storage_refusal(key@),
{
    let mut message = String::from_str("storage capability denied for ");
    message.append(key);
    message
}

/// An in-memory stand-in for the runtime host: a permissive state behind element handles.
pub struct RuntimeStub {
    state: RuntimeState,
}

impl View for RuntimeStub {
    type V = StateView;

    closed spec fn view(&self) -> StateView {
        self.state@
    }
}

impl Default for RuntimeStub {
    fn default() -> (s: Self)
        ensures
            s.wf(),
            s@ == blank(None),
    {
        Self::new()
    }
}

impl RuntimeStub {
    /// The state is well formed, and there is no broker.
    pub closed spec fn wf(&self) -> bool {
        self.state.wf() && self.state@.guard is None
    }

    /// Creates a fresh host instance.
    pub fn new() -> (s: Self)
        ensures
            s.wf(),
            s@ == blank(None),
    {
        RuntimeStub { state: RuntimeState::default() }
    }

    /// Creates an element.
    pub fn create_element(&mut self, tag: String) -> (el: ElementId)
        requires
            old(self).wf(),
            old(self)@.elements.len() < u64::MAX,
        ensures
            final(self).wf(),
            (final(self)@, el.id) == created(old(self)@, tag@, 0),
    {
        ElementId { id: self.state.create_element(tag) }
    }

    /// Sets an element's text.
    pub fn set_text(&mut self, el: ElementId, text: String)
        requires
            old(self).wf(),
        ensures
            final(self).wf(),
            final(self)@ == text_set(old(self)@, el.id, text@, 0),
    {
        self.state.set_text(el.id, text);
    }

    /// Sets an attribute of an element.
    pub fn set_attribute(&mut self, el: ElementId, name: String, value: String)
        requires
            old(self).wf(),
        ensures
            final(self).wf(),
            final(self)@ == attribute_set(old(self)@, el.id, name@, value@, 0),
    {
        self.state.set_attribute(el.id, name, value);
    }

    /// Appends a child to an element.
    pub fn append_child(&mut self, parent: ElementId, child: ElementId)
        requires
            old(self).wf(),
        ensures
            final(self).wf(),
            final(self)@ == child_appended(old(self)@, parent.id, child, 0),
    {
        self.state.append_child(parent.id, child.id);
    }

    /// Registers a click handler.
    pub fn on_click(&mut self, el: ElementId, handler_id: u64)
        requires
            old(self).wf(),
        ensures
            final(self).wf(),
            final(self)@ == click_added(old(self)@, el.id, handler_id, 0),
    {
        self.state.on_click(el.id, handler_id);
    }

    /// Fetches a URL.
    pub fn fetch(&self, req: Request) -> (r: Result<Response, String>)
        requires
            self.wf(),
        ensures
            match (r, fetched(self@, req.url@, 0)) {
                (Ok(x), Some(v)) => x@ == v,
                (Err(e), None) => e@ == fetch_refusal(req.url@),
                _ => false,
            },
    {
        self.state.fetch(req)
    }

    /// Reads a key.
    pub fn get(&self, key: String) -> (r: Option<Vec<u8>>)
        requires
            self.wf(),
        ensures
            r.deep_view() == read_back(self@, key@, 0),
    {
        self.state.get(key)
    }

    /// Writes a key.
    pub fn set(&mut self, key: String, value: Vec<u8>) -> (r: Result<(), String>)
        requires
            old(self).wf(),
        ensures
            final(self).wf(),
            final(self)@ == written(old(self)@, key@, value@, 0),
            r is Ok,
    {
        self.state.set(key, value)
    }

    /// Removes a key.
    pub fn delete(&mut self, key: String) -> (r: Result<(), String>)
        requires
            old(self).wf(),
        ensures
            final(self).wf(),
            final(self)@ == erased(old(self)@, key@, 0),
            r is Ok,
    {
        self.state.delete(key)
    }

    /// Creates a player.
    pub fn create_player(&mut self, config: VideoConfig) -> (r: Result<u64, String>)
        requires
            old(self).wf(),
        ensures
            final(self).wf(),
            r == Ok::<u64, String>(old(self)@.players.len() as u64),
            final(self)@ == player_created(old(self)@, config@),
    {
        self.state.create_player(config)
    }

    /// Starts a player.
    pub fn play(&mut self, id: u64)
        requires
            old(self).wf(),
        ensures
            final(self).wf(),
            final(self)@ == playing_set(old(self)@, id, true, 0),
    {
        self.state.play(id);
    }

    /// Stops a player.
    pub fn pause(&mut self, id: u64)
        requires
            old(self).wf(),
        ensures
            final(self).wf(),
            final(self)@ == playing_set(old(self)@, id, false, 0),
    {
        self.state.pause(id);
    }

    /// Moves a player.
    pub fn seek(&mut self, id: u64, position_ms: u64)
        requires
            old(self).wf(),
        ensures
            final(self).wf(),
            final(self)@ == position_set(old(self)@, id, position_ms, 0),
    {
        self.state.seek(id, position_ms);
    }

    /// An element, where there is one.
    pub fn element(&self, id: ElementId) -> (r: Option<Element>)
        requires
            self.wf(),
        ensures
            r.deep_view() == (if id.id < self@.elements.len() {
                Some(self@.elements[id.id as int])
            } else {
                None
            }),
            r matches Some(e) ==> e.attributes.wf(),
    {
        self.state.element(id.id)
    }

    /// How many click handlers an element has.
    pub fn click_count(&self, id: ElementId) -> (n: usize)
        ensures
            n == clicks_of(self@, id.id).len(),
    {
        self.state.click_count(id.id)
    }

    /// The click handlers of an element, where any were registered.
    pub fn click_handler_ids(&self, id: ElementId) -> (r: Option<Vec<u64>>)
        ensures
            r.deep_view() == (if self@.clicks.dom().contains(id.id) {
                Some(self@.clicks[id.id])
            } else {
                None
            }),
    {
        self.state.click_handler_ids(id.id)
    }

    /// A player, where there is one.
    pub fn player(&self, id: u64) -> (r: Option<Player>)
        ensures
            r.deep_view() == (if id < self@.players.len() {
                Some(self@.players[id as int])
            } else {
                None
            }),
    {
        self.state.player(id)
    }

    /// Registers a canned `fetch` response for an exact URL.
    pub fn register_fetch(&mut self, url: &str, response: Response)
        requires
            old(self).wf(),
        ensures
            final(self).wf(),
            final(self)@ == (StateView {
                routes: old(self)@.routes.insert(url@, response@),
                ..old(self)@
            }),
    {
        self.state.register_fetch(url, response);
    }
}

/// No ambient authority: an app without a live grant can do nothing, whatever it asks for.
pub proof fn law_no_grant_no_access(s: StateView, needed: CapView, now: u64)
    requires
        s.guard matches Some(g) && forall|i: int|
            0 <= i < g.1.grants.len() ==> !crate::runtime::capability::live(
                #[trigger] g.1.grants[i],
                g.0,
                now,
            ),
    ensures
        !allowed(s, needed, now),
{
}

/// A read gives back what was written last, other keys keep what they held, and a removed key is
/// gone.
pub proof fn law_reads_give_back_writes(
    s: StateView,
    key: Seq<char>,
    other: Seq<char>,
    value: Seq<u8>,
    now: u64,
)
    requires
        allowed(s, storage_needed(key), now),
        other != key,
    ensures
        read_back(written(s, key, value, now), key, now) == Some(value),
        read_back(written(s, key, value, now), other, now) == read_back(s, other, now),
        read_back(erased(s, key, now), key, now) is None,
        read_back(erased(s, key, now), other, now) == read_back(s, other, now),
        erased(written(s, key, value, now), key, now) == erased(s, key, now),
{
    assert(s.store.insert(key, value).remove(key) =~= s.store.remove(key));
}

/// A refused operation changes nothing.
pub proof fn law_refusals_change_nothing(
    s: StateView,
    key: Seq<char>,
    value: Seq<u8>,
    id: u64,
    text: Seq<char>,
    child: ElementId,
    now: u64,
)
    ensures
        !allowed(s, storage_needed(key), now) ==> written(s, key, value, now) == s && erased(
            s,
            key,
            now,
        ) == s && read_back(s, key, now) is None,
        !allowed(s, create_needed(), now) ==> created(s, text, now) == (s, u64::MAX),
        !allowed(s, change_needed(id), now) ==> {
            &&& text_set(s, id, text, now) == s
            &&& attribute_set(s, id, key, text, now) == s
            &&& child_appended(s, id, child, now) == s
            &&& click_added(s, id, child.id, now) == s
        },
        !allowed(s, network_needed(text), now) ==> fetched(s, text, now) is None,
{
}

/// Handles are unique: each created element has a handle that no element had before, and existing
/// elements keep theirs.
pub proof fn law_handles_are_unique(s: StateView, tag: Seq<char>, now: u64, other: u64)
    requires
        allowed(s, create_needed(), now),
        s.elements.len() < u64::MAX,
        other < s.elements.len(),
    ensures
        created(s, tag, now).1 != other,
        created(s, tag, now).1 != u64::MAX,
        created(s, tag, now).0.elements[created(s, tag, now).1 as int] == fresh(tag),
        created(s, tag, now).0.elements[other as int] == s.elements[other as int],
{
}

} // verus!
