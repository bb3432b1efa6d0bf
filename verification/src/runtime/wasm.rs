//! The host that a component guest runs against: the capability interfaces over one
//! [`RuntimeState`].
use crate::runtime::capability::clock_reads;
use crate::runtime::stub::{
    allowed, attribute_set, blank, child_appended, click_added, clicks_of, created, erased,
    fetch_refusal, fetched, in_store, media_needed, media_refusal, player_created, playing_set,
    position_set, read_back, storage_needed, storage_refusal, text_set, written, Element, ElementId,
    Request, Response, RuntimeState, VideoConfig,
};
use vstd::prelude::*;

verus! {

/// Host state handed to a guest component.
pub struct Host {
    pub state: RuntimeState,
}

impl Default for Host {
    fn default() -> (h: Self)
        ensures
            h.wf(),
            h.state@ == blank(None),
    {
        Self::new()
    }
}

impl Host {
    /// The state is well formed.
    pub open spec fn wf(&self) -> bool {
        self.state.wf()
    }

    /// A host without a broker: everything is allowed.
    pub fn new() -> (h: Self)
        ensures
            h.wf(),
            h.state@ == blank(None),
    {
        Host { state: RuntimeState::default() }
    }

    /// Creates an element. The largest number is no handle: it is returned where creation is denied.
    pub fn create_element(&mut self, tag: String) -> (el: ElementId)
        requires
            old(self).wf(),
            old(self).state@.elements.len() < u64::MAX,
        ensures
            final(self).wf(),
            exists|now: u64| clock_reads(now) && (final(self).state@, el.id) == #[trigger] created(old(self).state@, tag@, now),
    {
        ElementId { id: self.state.create_element(tag) }
    }

    /// Sets an element's text.
    pub fn set_text(&mut self, el: ElementId, text: String)
        requires
            old(self).wf(),
        ensures
            final(self).wf(),
            exists|now: u64| clock_reads(now) && final(self).state@ == #[trigger] text_set(old(self).state@, el.id, text@, now),
    {
        self.state.set_text(el.id, text);
    }

    /// Sets an attribute of an element.
    pub fn set_attribute(&mut self, el: ElementId, name: String, value: String)
        requires
            old(self).wf(),
        ensures
            final(self).wf(),
            exists|now: u64| clock_reads(now) && final(self).state@ == #[trigger] attribute_set(old(self).state@, el.id, name@, value@, now),
    {
        self.state.set_attribute(el.id, name, value);
    }

    /// Appends a child to an element.
    pub fn append_child(&mut self, parent: ElementId, child: ElementId)
        requires
            old(self).wf(),
        ensures
            final(self).wf(),
            exists|now: u64| clock_reads(now) && final(self).state@ == #[trigger] child_appended(old(self).state@, parent.id, child, now),
    {
        self.state.append_child(parent.id, child.id);
    }

    /// Registers a click handler.
    pub fn on_click(&mut self, el: ElementId, handler_id: u64)
        requires
            old(self).wf(),
        ensures
            final(self).wf(),
            exists|now: u64| clock_reads(now) && final(self).state@ == #[trigger] click_added(old(self).state@, el.id, handler_id, now),
    {
        self.state.on_click(el.id, handler_id);
    }

    /// Fetches a URL.
    pub fn fetch(&self, req: Request) -> (r: Result<Response, String>)
        requires
            self.wf(),
        ensures
            exists|now: u64| clock_reads(now) && match (r, #[trigger] fetched(self.state@, req.url@, now)) {
                (Ok(x), Some(v)) => x@ == v,
                (Err(e), None) => e@ == fetch_refusal(req.url@),
                _ => false,
            },
    {
        self.state.fetch(req)
    }

    /// Reads a key.
    pub fn get(&self, key: String) -> (r: Option<Vec<u8>>)
        requires
            self.wf(),
        ensures
            exists|now: u64| clock_reads(now) && r.deep_view() == #[trigger] read_back(self.state@, key@, now),
    {
        self.state.get(key)
    }

    /// Writes a key.
    pub fn set(&mut self, key: String, value: Vec<u8>) -> (r: Result<(), String>)
        requires
            old(self).wf(),
        ensures
            final(self).wf(),
            exists|now: u64|
                clock_reads(now) && final(self).state@ == #[trigger] written(old(self).state@, key@, value@, now) && (r is Ok <==> allowed(
                    old(self).state@,
                    storage_needed(key@),
                    now,
                )),
            r matches Err(e) ==> e@ == storage_refusal(key@),
    {
        self.state.set(key, value)
    }

    /// Removes a key.
    pub fn delete(&mut self, key: String) -> (r: Result<(), String>)
        requires
            old(self).wf(),
        ensures
            final(self).wf(),
            exists|now: u64|
                clock_reads(now) && final(self).state@ == #[trigger] erased(old(self).state@, key@, now) && (r is Ok <==> allowed(
                    old(self).state@,
                    storage_needed(key@),
                    now,
                )),
            r matches Err(e) ==> e@ == storage_refusal(key@),
    {
        self.state.delete(key)
    }

    /// Creates a player.
    pub fn create_player(&mut self, config: VideoConfig) -> (r: Result<u64, String>)
        requires
            old(self).wf(),
        ensures
            final(self).wf(),
            exists|now: u64|
                clock_reads(now) && (r is Ok <==> #[trigger] allowed(old(self).state@, media_needed(config@), now)),
            match r {
                Ok(id) => id == old(self).state@.players.len() && final(self).state@ == player_created(
                    old(self).state@,
                    config@,
                ),
                Err(e) => e@ == media_refusal(config@) && final(self).state@ == old(self).state@,
            },
    {
        self.state.create_player(config)
    }

    /// Starts a player.
    pub fn play(&mut self, id: u64)
        requires
            old(self).wf(),
        ensures
            final(self).wf(),
            exists|now: u64| clock_reads(now) && final(self).state@ == #[trigger] playing_set(old(self).state@, id, true, now),
    {
        self.state.play(id);
    }

    /// Stops a player.
    pub fn pause(&mut self, id: u64)
        requires
            old(self).wf(),
        ensures
            final(self).wf(),
            exists|now: u64| clock_reads(now) && final(self).state@ == #[trigger] playing_set(old(self).state@, id, false, now),
    {
        self.state.pause(id);
    }

    /// Moves a player.
    pub fn seek(&mut self, id: u64, position_ms: u64)
        requires
            old(self).wf(),
        ensures
            final(self).wf(),
            exists|now: u64| clock_reads(now) && final(self).state@ == #[trigger] position_set(old(self).state@, id, position_ms, now),
    {
        self.state.seek(id, position_ms);
    }

    /// An element, where there is one.
    pub fn element(&self, id: ElementId) -> (r: Option<Element>)
        requires
            self.wf(),
        ensures
            r.deep_view() == (if id.id < self.state@.elements.len() {
                Some(self.state@.elements[id.id as int])
            } else {
                None
            }),
            r matches Some(e) ==> e.attributes.wf(),
    {
        self.state.element(id.id)
    }

    /// How many click handlers an element has.
    pub fn click_count(&self, id: ElementId) -> (n: usize)
        ensures
            n == clicks_of(self.state@, id.id).len(),
    {
        self.state.click_count(id.id)
    }

    /// The click handlers of an element, where any were registered.
    pub fn click_handler_ids(&self, id: ElementId) -> (r: Option<Vec<u64>>)
        ensures
            r.deep_view() == (if self.state@.clicks.dom().contains(id.id) {
                Some(self.state@.clicks[id.id])
            } else {
                None
            }),
    {
        self.state.click_handler_ids(id.id)
    }

    /// What stands in the store under a key.
    pub fn stored(&self, key: &str) -> (r: Option<Vec<u8>>)
        requires
            self.wf(),
        ensures
            r.deep_view() == in_store(self.state@, key@),
    {
        self.state.stored(key)
    }
}

/// A compiler and its settings, which are carried and not looked into.
#[verifier::external_type_specification]
#[verifier::external_body]
pub struct ExEngine(wasmtime::Engine);

/// A compiled component, which is carried and not looked into.
#[verifier::external_type_specification]
#[verifier::external_body]
pub struct ExComponent(wasmtime::component::Component);

/// An error of the compiler, which is carried and not looked into.
#[verifier::external_type_specification]
#[verifier::external_body]
pub struct ExError(wasmtime::Error);

/// The preamble of a component: the magic number, and the version and layer of the component format.
pub open spec fn component_preamble() -> Seq<u8> {
    seq![0x00u8, 0x61, 0x73, 0x6d, 0x0d, 0x00, 0x01, 0x00]
}

/// `wasmtime::component::Component::new`: only bytes that start with the preamble of a component are
/// compiled. Which of those compile is left unsaid: it rests on the engine's settings and on the
/// machine.
#[verifier::external_body]
fn compile(engine: &wasmtime::Engine, bytes: &[u8]) -> (r: Result<
    wasmtime::component::Component,
    wasmtime::Error,
>)
    ensures
        r is Ok ==> component_preamble().is_prefix_of(bytes@),
{
    wasmtime::component::Component::new(engine, bytes)
}

/// A guest module compiled and ready to instantiate.
pub struct Module {
    pub component: wasmtime::component::Component,
    pub source_len: usize,
}

/// Whether compiling bytes on an engine can come out so.
pub closed spec fn compiles_to(
    engine: &wasmtime::Engine,
    bytes: &[u8],
    compiled: Result<wasmtime::component::Component, wasmtime::Error>,
) -> bool {
    call_ensures(compile, (engine, bytes), compiled)
}

/// What loading bytes comes to: the module of what they compile to, or the compiler's error.
pub open spec fn load_result(
    compiled: Result<wasmtime::component::Component, wasmtime::Error>,
    bytes: Seq<u8>,
) -> Result<Module, wasmtime::Error> {
    match compiled {
        Ok(component) => Ok(Module { component, source_len: bytes.len() as usize }),
        Err(e) => Err(e),
    }
}

impl Module {
    /// Loads and validates `bytes` as a WASM component, compiling it for JIT execution on `engine`.
    /// Bytes that do not start like a component are refused; of others the compiler decides.
    pub fn load(engine: &wasmtime::Engine, bytes: &[u8]) -> (r: Result<Module, wasmtime::Error>)
        ensures
            exists|compiled: Result<wasmtime::component::Component, wasmtime::Error>|
                #[trigger] compiles_to(engine, bytes, compiled) && r == load_result(
                    compiled,
                    bytes@,
                ),
            r matches Ok(m) ==> m.source_len == bytes@.len(),
            !component_preamble().is_prefix_of(bytes@) ==> r is Err,
    {
        let compiled = compile(engine, bytes);
        assert(compiles_to(engine, bytes, compiled));
        Module::loaded(compiled, bytes)
    }

    /// What loading `bytes` comes to, given what they were compiled to.
    pub fn loaded(
        compiled: Result<wasmtime::component::Component, wasmtime::Error>,
        bytes: &[u8],
    ) -> (r: Result<Module, wasmtime::Error>)
        ensures
            r == load_result(compiled, bytes@),
            r matches Ok(m) ==> m.source_len == bytes@.len(),
    {
        match compiled {
            Ok(component) => Ok(Module::of(component, bytes)),
            Err(e) => Err(e),
        }
    }

    /// The module of a component that was compiled from `bytes`.
    pub fn of(component: wasmtime::component::Component, bytes: &[u8]) -> (m: Module)
        ensures
            m.component == component,
            m.source_len == bytes@.len(),
    {
        Module { component, source_len: bytes.len() }
    }

    /// Number of bytes in the source the module was loaded from.
    pub fn source_len(&self) -> (n: usize)
        ensures
            n == self.source_len,
    {
        self.source_len
    }
}

} // verus!
