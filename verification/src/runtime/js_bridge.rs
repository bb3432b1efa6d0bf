//! The bridge that lets scripts reach the capability interfaces: storage and network calls on
//! text, and DOM changes recorded in a batch and replayed in one pass.
use crate::runtime::stub::{
    attribute_set, child_appended, click_added, created, erased, fetched, read_back, text_set,
    written, ElementId, Request, RuntimeStub, StateView,
};
use crate::strings::{lossy_text, text_lossy};
use std::collections::HashMap;
use vstd::prelude::*;
use vstd::string::*;
use vstd::utf8::{decode_utf8, encode_utf8, encode_utf8_decode_utf8, encode_utf8_valid_utf8, valid_utf8};

verus! {

broadcast use vstd::std_specs::hash::group_hash_axioms;

/// A pending DOM mutation recorded by the batched bridge before a commit.
///
/// Elements are referenced by a batch-local `handle`, so that a tree can be built up across
/// several calls without each one allocating a real id immediately.
#[derive(Debug, Clone)]
pub enum DomBatchOp {
    CreateElement { handle: u64, tag: String },
    SetText { handle: u64, text: String },
    SetAttribute { handle: u64, name: String, value: String },
    AppendChild { parent: u64, child: u64 },
    OnClick { handle: u64, handler: u64 },
}

/// The mathematical form of a pending mutation.
pub enum BatchOp {
    CreateElement { handle: u64, tag: Seq<char> },
    SetText { handle: u64, text: Seq<char> },
    SetAttribute { handle: u64, name: Seq<char>, value: Seq<char> },
    AppendChild { parent: u64, child: u64 },
    OnClick { handle: u64, handler: u64 },
}

impl DeepView for DomBatchOp {
    type V = BatchOp;

    open spec fn deep_view(&self) -> BatchOp {
        match *self {
            DomBatchOp::CreateElement { handle, tag } => BatchOp::CreateElement { handle, tag: tag@ },
            DomBatchOp::SetText { handle, text } => BatchOp::SetText { handle, text: text@ },
            DomBatchOp::SetAttribute { handle, name, value } => BatchOp::SetAttribute {
                handle,
                name: name@,
                value: value@,
            },
            DomBatchOp::AppendChild { parent, child } => BatchOp::AppendChild { parent, child },
            DomBatchOp::OnClick { handle, handler } => BatchOp::OnClick { handle, handler },
        }
    }
}

/// How many elements the operations create.
pub open spec fn creations(ops: Seq<BatchOp>) -> nat
    decreases ops.len(),
{
    if ops.len() == 0 {
        0
    } else if ops.last() is CreateElement {
        creations(ops.drop_last()) + 1
    } else {
        creations(ops.drop_last())
    }
}

/// Whether the handles of the created elements count up from zero.
pub open spec fn counted(ops: Seq<BatchOp>) -> bool
    decreases ops.len(),
{
    ops.len() == 0 || (counted(ops.drop_last()) && (ops.last() matches BatchOp::CreateElement {
        handle,
        ..
    } ==> handle == creations(ops.drop_last())))
}

/// Whether an operation can be applied where `n` elements were created: each handle it names is
/// known.
pub open spec fn applicable(n: nat, op: BatchOp) -> bool {
    match op {
        BatchOp::CreateElement { .. } => true,
        BatchOp::SetText { handle, .. } => handle < n,
        BatchOp::SetAttribute { handle, .. } => handle < n,
        BatchOp::AppendChild { parent, child } => parent < n && child < n,
        BatchOp::OnClick { handle, .. } => handle < n,
    }
}

/// How many operations are applied: those that name a handle not created before them are not.
pub open spec fn applied(ops: Seq<BatchOp>) -> nat
    decreases ops.len(),
{
    if ops.len() == 0 {
        0
    } else if applicable(creations(ops.drop_last()), ops.last()) {
        applied(ops.drop_last()) + 1
    } else {
        applied(ops.drop_last())
    }
}

proof fn lemma_counted_prefix(ops: Seq<BatchOp>, k: int)
    requires
        counted(ops),
        0 <= k <= ops.len(),
    ensures
        counted(ops.take(k)),
    decreases ops.len(),
{
    if k == ops.len() {
        assert(ops.take(k) =~= ops);
    } else {
        lemma_counted_prefix(ops.drop_last(), k);
        assert(ops.drop_last().take(k) =~= ops.take(k));
    }
}

/// The host state and the real ids by handle.
pub type Replay = (StateView, Map<u64, u64>);

/// One operation replayed on a permissive host. An operation on an unknown handle is passed over.
pub open spec fn replay_op(r: Replay, op: BatchOp) -> Replay {
    let (s, ids) = r;
    match op {
        BatchOp::CreateElement { handle, tag } => {
            let (after, id) = created(s, tag, 0);
            (after, ids.insert(handle, id))
        },
        BatchOp::SetText { handle, text } => if ids.dom().contains(handle) {
            (text_set(s, ids[handle], text, 0), ids)
        } else {
            r
        },
        BatchOp::SetAttribute { handle, name, value } => if ids.dom().contains(handle) {
            (attribute_set(s, ids[handle], name, value, 0), ids)
        } else {
            r
        },
        BatchOp::AppendChild { parent, child } => if ids.dom().contains(parent)
            && ids.dom().contains(child) {
            (child_appended(s, ids[parent], ElementId { id: ids[child] }, 0), ids)
        } else {
            r
        },
        BatchOp::OnClick { handle, handler } => if ids.dom().contains(handle) {
            (click_added(s, ids[handle], handler, 0), ids)
        } else {
            r
        },
    }
}

/// The operations replayed in order.
pub open spec fn replayed(s: StateView, ops: Seq<BatchOp>) -> Replay
    decreases ops.len(),
{
    if ops.len() == 0 {
        (s, Map::empty())
    } else {
        replay_op(replayed(s, ops.drop_last()), ops.last())
    }
}

/// Accumulated DOM operations and the next free handle.
pub struct DomBatch {
    next: u64,
    ops: Vec<DomBatchOp>,
}

impl View for DomBatch {
    type V = Seq<BatchOp>;

    closed spec fn view(&self) -> Seq<BatchOp> {
        self.ops.deep_view()
    }
}

impl Default for DomBatch {
    fn default() -> (b: Self)
        ensures
            b.wf(),
            b@ == Seq::<BatchOp>::empty(),
    {
        let b = DomBatch { next: 0, ops: Vec::new() };
        assert(b@ =~= Seq::<BatchOp>::empty());
        b
    }
}

impl DomBatch {
    /// The next handle counts the created elements.
    pub closed spec fn wf(&self) -> bool {
        counted(self@) && self.next == creations(self@)
    }

    /// The handles of a batch count the elements that it creates, from zero up.
    pub proof fn law_counted(&self)
        requires
            self.wf(),
        ensures
            counted(self@),
    {
    }

    fn record(&mut self, op: DomBatchOp)
        requires
            old(self).wf(),
            !(op is CreateElement),
        ensures
            final(self).wf(),
            final(self)@ == old(self)@.push(op.deep_view()),
    {
        let ghost was = self@;
        let ghost v = op.deep_view();
        self.ops.push(op);
        assert(self@ =~= was.push(v));
        assert(self@.drop_last() =~= was);
    }

    /// Records the creation of an element and returns its handle.
    pub fn create_element(&mut self, tag: String) -> (handle: u64)
        requires
            old(self).wf(),
            creations(old(self)@) < u64::MAX,
        ensures
            final(self).wf(),
            handle == creations(old(self)@),
            final(self)@ == old(self)@.push(BatchOp::CreateElement { handle, tag: tag@ }),
    {
        let ghost was = self@;
        let handle = self.next;
        self.next = self.next + 1;
        self.ops.push(DomBatchOp::CreateElement { handle, tag });
        assert(self@ =~= was.push(BatchOp::CreateElement { handle, tag: tag@ }));
        assert(self@.drop_last() =~= was);
        handle
    }

    /// Records a text.
    pub fn set_text(&mut self, handle: u64, text: String)
        requires
            old(self).wf(),
        ensures
            final(self).wf(),
            final(self)@ == old(self)@.push(BatchOp::SetText { handle, text: text@ }),
    {
        self.record(DomBatchOp::SetText { handle, text });
    }

    /// Records an attribute.
    pub fn set_attribute(&mut self, handle: u64, name: String, value: String)
        requires
            old(self).wf(),
        ensures
            final(self).wf(),
            final(self)@ == old(self)@.push(
                BatchOp::SetAttribute { handle, name: name@, value: value@ },
            ),
    {
        self.record(DomBatchOp::SetAttribute { handle, name, value });
    }

    /// Records a child.
    pub fn append_child(&mut self, parent: u64, child: u64)
        requires
            old(self).wf(),
        ensures
            final(self).wf(),
            final(self)@ == old(self)@.push(BatchOp::AppendChild { parent, child }),
    {
        self.record(DomBatchOp::AppendChild { parent, child });
    }

    /// Records a click handler.
    pub fn on_click(&mut self, handle: u64, handler: u64)
        requires
            old(self).wf(),
        ensures
            final(self).wf(),
            final(self)@ == old(self)@.push(BatchOp::OnClick { handle, handler }),
    {
        self.record(DomBatchOp::OnClick { handle, handler });
    }
}

/// Applies the accumulated batched ops to the host in one pass, then clears the buffer. Returns the
/// number of ops applied.
///
/// Batch-local handles are resolved to real element ids as the creations are replayed, so later
/// operations in the batch that reference an earlier handle observe the correct real id.
pub fn commit_dom_batch(batch: &mut DomBatch, stub: &mut RuntimeStub) -> (count: usize)
    requires
        old(batch).wf(),
        old(stub).wf(),
        old(stub)@.elements.len() + old(batch)@.len() < u64::MAX,
    ensures
        final(batch).wf(),
        final(batch)@ == Seq::<BatchOp>::empty(),
        final(stub).wf(),
        final(stub)@ == replayed(old(stub)@, old(batch)@).0,
        count == applied(old(batch)@),
{
    let ghost ops = batch@;
    let ghost before = stub@;
    let n = batch.ops.len();
    let mut count: usize = 0;
    let mut real_ids: HashMap<u64, u64> = HashMap::new();
    let mut i: usize = 0;
    assert(ops.take(0) =~= Seq::<BatchOp>::empty());
    assert(real_ids@ =~= Map::<u64, u64>::empty());
    while i < n
        invariant
            0 <= count <= i <= n,
            n == ops.len(),
            counted(ops),
            count == applied(ops.take(i as int)),
            forall|h: u64|
                #[trigger] real_ids@.dom().contains(h) <==> h < creations(ops.take(i as int)),
            ops == batch.ops.deep_view(),
            stub.wf(),
            stub@.elements.len() <= before.elements.len() + i,
            before.elements.len() + n < u64::MAX,
            (stub@, real_ids@) == replayed(before, ops.take(i as int)),
        decreases n - i,
    {
        assert(ops.take(i + 1).drop_last() =~= ops.take(i as int));
        proof {
            lemma_counted_prefix(ops, i + 1);
        }
        assert(ops.take(i + 1).last() == batch.ops@[i as int].deep_view());
        match &batch.ops[i] {
            DomBatchOp::CreateElement { handle, tag } => {
                let el = stub.create_element(tag.clone());
                real_ids.insert(*handle, el.id);
                count = count + 1;
            },
            DomBatchOp::SetText { handle, text } => {
                if let Some(id) = real_ids.get(handle) {
                    stub.set_text(ElementId { id: *id }, text.clone());
                    count = count + 1;
                }
            },
            DomBatchOp::SetAttribute { handle, name, value } => {
                if let Some(id) = real_ids.get(handle) {
                    stub.set_attribute(ElementId { id: *id }, name.clone(), value.clone());
                    count = count + 1;
                }
            },
            DomBatchOp::AppendChild { parent, child } => {
                if let Some(p) = real_ids.get(parent) {
                    if let Some(c) = real_ids.get(child) {
                        stub.append_child(ElementId { id: *p }, ElementId { id: *c });
                        count = count + 1;
                    }
                }
            },
            DomBatchOp::OnClick { handle, handler } => {
                if let Some(id) = real_ids.get(handle) {
                    stub.on_click(ElementId { id: *id }, *handler);
                    count = count + 1;
                }
            },
        }
        i = i + 1;
    }
    assert(ops.take(ops.len() as int) =~= ops);
    clear_dom_batch(batch);
    count
}

/// Discard any accumulated operations without applying them.
pub fn clear_dom_batch(batch: &mut DomBatch)
    ensures
        final(batch).wf(),
        final(batch)@ == Seq::<BatchOp>::empty(),
{
    *batch = DomBatch::default();
}

/// One operation issued directly, on elements numbered from `base`, of which `n` exist.
pub open spec fn issue_op(s: StateView, base: int, n: nat, op: BatchOp) -> StateView {
    match op {
        BatchOp::CreateElement { tag, .. } => created(s, tag, 0).0,
        BatchOp::SetText { handle, text } => if handle < n {
            text_set(s, (base + handle) as u64, text, 0)
        } else {
            s
        },
        BatchOp::SetAttribute { handle, name, value } => if handle < n {
            attribute_set(s, (base + handle) as u64, name, value, 0)
        } else {
            s
        },
        BatchOp::AppendChild { parent, child } => if parent < n && child < n {
            child_appended(s, (base + parent) as u64, ElementId { id: (base + child) as u64 }, 0)
        } else {
            s
        },
        BatchOp::OnClick { handle, handler } => if handle < n {
            click_added(s, (base + handle) as u64, handler, 0)
        } else {
            s
        },
    }
}

/// The operations issued directly, one after the other.
pub open spec fn issued_directly(s: StateView, ops: Seq<BatchOp>) -> StateView
    decreases ops.len(),
{
    if ops.len() == 0 {
        s
    } else {
        issue_op(
            issued_directly(s, ops.drop_last()),
            s.elements.len() as int,
            creations(ops.drop_last()),
            ops.last(),
        )
    }
}

proof fn lemma_replayed(s: StateView, ops: Seq<BatchOp>)
    requires
        s.guard is None,
        counted(ops),
        s.elements.len() + ops.len() < u64::MAX,
    ensures
        ({
            let (after, ids) = replayed(s, ops);
            let base = s.elements.len();
            &&& after == issued_directly(s, ops)
            &&& after.guard is None
            &&& after.elements.len() == base + creations(ops)
            &&& creations(ops) <= ops.len()
            &&& forall|h: u64| #[trigger] ids.dom().contains(h) <==> h < creations(ops)
            &&& forall|h: u64| h < creations(ops) ==> #[trigger] ids[h] == base + h
        }),
    decreases ops.len(),
{
    if ops.len() > 0 {
        lemma_replayed(s, ops.drop_last());
    }
}

/// A commit does what issuing the same operations directly would have done: handle `h` of the
/// batch is the `h`-th element that the batch creates.
pub proof fn law_commit_is_direct(s: StateView, ops: Seq<BatchOp>)
    requires
        s.guard is None,
        counted(ops),
        s.elements.len() + ops.len() < u64::MAX,
    ensures
        replayed(s, ops).0 == issued_directly(s, ops),
        replayed(s, ops).0.elements.len() == s.elements.len() + creations(ops),
{
    lemma_replayed(s, ops);
}

/// What a commit of any batch comes to on a permissive host: the operations are applied in order as
/// if issued directly, those on unknown handles do nothing and are not counted, and a second commit,
/// of the batch then empty, applies nothing and changes nothing.
pub proof fn law_commit(batch: DomBatch, s: StateView)
    requires
        batch.wf(),
        s.guard is None,
        s.elements.len() + batch@.len() < u64::MAX,
    ensures
        replayed(s, batch@).0 == issued_directly(s, batch@),
        applied(batch@) <= batch@.len(),
        batch@.len() > 0 && !applicable(creations(batch@.drop_last()), batch@.last()) ==> applied(
            batch@,
        ) == applied(batch@.drop_last()) && issued_directly(s, batch@) == issued_directly(
            s,
            batch@.drop_last(),
        ),
        batch@.len() > 0 && applicable(creations(batch@.drop_last()), batch@.last()) ==> applied(
            batch@,
        ) == applied(batch@.drop_last()) + 1,
        applied(Seq::empty()) == 0,
        replayed(replayed(s, batch@).0, Seq::empty()).0 == replayed(s, batch@).0,
{
    batch.law_counted();
    law_commit_is_direct(s, batch@);
    lemma_applied_bound(batch@);
}

proof fn lemma_applied_bound(ops: Seq<BatchOp>)
    ensures
        applied(ops) <= ops.len(),
    decreases ops.len(),
{
    if ops.len() > 0 {
        lemma_applied_bound(ops.drop_last());
    }
}

/// Writes text under a key; whether that succeeded.
pub fn storage_set(stub: &mut RuntimeStub, key: String, value: &str) -> (ok: bool)
    requires
        old(stub).wf(),
    ensures
        final(stub).wf(),
        final(stub)@ == written(old(stub)@, key@, encode_utf8(value@), 0),
        ok,
{
    stub.set(key, value.as_bytes_vec()).is_ok()
}

/// Reads the text under a key, where there is any.
pub fn storage_get(stub: &RuntimeStub, key: String) -> (r: Option<String>)
    requires
        stub.wf(),
    ensures
        match (r, read_back(stub@, key@, 0)) {
            (Some(t), Some(b)) => t@ == lossy_text(b) && (valid_utf8(b) ==> t@ == decode_utf8(b)),
            (None, None) => true,
            _ => false,
        },
{
    match stub.get(key) {
        Some(b) => {
            assert(b.deep_view() =~= b@);
            Some(text_lossy(&b))
        },
        None => None,
    }
}

/// Removes a key; whether that succeeded.
pub fn storage_delete(stub: &mut RuntimeStub, key: String) -> (ok: bool)
    requires
        old(stub).wf(),
    ensures
        final(stub).wf(),
        final(stub)@ == erased(old(stub)@, key@, 0),
        ok,
{
    stub.delete(key).is_ok()
}

/// Fetches a URL with a `GET` without headers or body; the text of the response, where there is
/// one.
pub fn fetch_text(stub: &RuntimeStub, url: String) -> (r: Option<String>)
    requires
        stub.wf(),
    ensures
        match (r, fetched(stub@, url@, 0)) {
            (Some(t), Some(v)) => t@ == lossy_text(v.body) && (valid_utf8(v.body) ==> t@
                == decode_utf8(v.body)),
            (None, None) => true,
            _ => false,
        },
{
    let req = Request { method: String::from_str("GET"), url, headers: Vec::new(), body: None };
    match stub.fetch(req) {
        Ok(response) => Some(text_lossy(&response.body)),
        Err(_) => None,
    }
}

/// What a script writes, it reads back.
pub proof fn law_text_round_trips(s: StateView, key: Seq<char>, value: Seq<char>)
    requires
        s.guard is None,
    ensures
        ({
            let after = written(s, key, encode_utf8(value), 0);
            &&& read_back(after, key, 0) == Some(encode_utf8(value))
            &&& valid_utf8(encode_utf8(value))
            &&& decode_utf8(encode_utf8(value)) == value
        }),
{
    encode_utf8_valid_utf8(value);
    encode_utf8_decode_utf8(value);
}

} // verus!
