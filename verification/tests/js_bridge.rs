use helix::runtime::js_bridge::{
    clear_dom_batch, commit_dom_batch, fetch_text, storage_delete, storage_get, storage_set,
    DomBatch,
};
use helix::runtime::stub::{ElementId, Response, RuntimeStub};

#[test]
fn js_storage_bridge_roundtrips_through_stub() {
    let mut stub = RuntimeStub::new();
    assert!(storage_set(&mut stub, "k".to_string(), "v"));
    assert_eq!(storage_get(&stub, "k".to_string()), Some("v".to_string()));
    // Missing key maps to null in JS (None through the bridge).
    assert_eq!(storage_get(&stub, "absent".to_string()), None);
    assert!(storage_delete(&mut stub, "k".to_string()));
    assert_eq!(storage_get(&stub, "k".to_string()), None);
}

#[test]
fn js_network_bridge_fetches_registered_route() {
    let mut stub = RuntimeStub::new();
    stub.register_fetch(
        "https://example.com/",
        Response { status: 200, headers: vec![], body: b"hello from net".to_vec() },
    );
    let body = fetch_text(&stub, "https://example.com/".to_string()).expect("response body");
    assert_eq!(body, "hello from net");

    // Unregistered route yields null.
    assert_eq!(fetch_text(&stub, "https://missing.test/".to_string()), None);
}

#[test]
fn bodies_that_are_no_utf8_are_read_with_replacements() {
    let mut stub = RuntimeStub::new();
    let body = vec![b'a', 0xff];
    stub.register_fetch("u", Response { status: 200, headers: vec![], body });
    assert_eq!(fetch_text(&stub, "u".to_string()), Some("a\u{fffd}".to_string()));
}

#[test]
fn js_batched_dom_bridge_builds_tree_on_commit() {
    let mut stub = RuntimeStub::new();
    let mut batch = DomBatch::default();

    // Build a parent/child tree entirely in the buffer, then commit once.
    let parent = batch.create_element("ul".to_string());
    let child = batch.create_element("li".to_string());
    batch.set_text(child, "item".to_string());
    batch.set_attribute(child, "class".to_string(), "row".to_string());
    batch.append_child(parent, child);
    batch.on_click(child, 7);
    assert_eq!(commit_dom_batch(&mut batch, &mut stub), 6);

    let parent = stub.element(ElementId { id: parent }).unwrap();
    assert_eq!(parent.tag, "ul");
    assert_eq!(parent.children.len(), 1);
    let child_id = parent.children[0];
    let child = stub.element(child_id).unwrap();
    assert_eq!(child.tag, "li");
    assert_eq!(child.text, "item");
    assert_eq!(child.attributes.get("class"), Some(&"row".to_string()));
    assert_eq!(stub.click_handler_ids(child_id), Some(vec![7]));
}

#[test]
fn js_batched_dom_bridge_commit_returns_op_count() {
    let mut stub = RuntimeStub::new();
    let mut batch = DomBatch::default();
    let p = batch.create_element("div".to_string());
    batch.set_text(p, "x".to_string());
    batch.set_attribute(p, "id".to_string(), "a".to_string());
    let applied = commit_dom_batch(&mut batch, &mut stub);
    // create + set_text + set_attribute = 3 ops replayed.
    assert_eq!(applied, 3);
    assert_eq!(commit_dom_batch(&mut batch, &mut stub), 0);
}

#[test]
fn js_batched_dom_bridge_is_noop_before_commit() {
    let mut stub = RuntimeStub::new();
    let mut batch = DomBatch::default();

    // Accumulate ops but never commit; the host tree must stay empty.
    let p = batch.create_element("div".to_string());
    batch.set_text(p, "x".to_string());
    let next = stub.create_element("probe".to_string()).id;
    // Only the probe element exists (id 0); batched ops did not apply.
    assert_eq!(next, 0);
    clear_dom_batch(&mut batch);
    assert_eq!(commit_dom_batch(&mut batch, &mut stub), 0);
}

#[test]
fn storage_roundtrip_through_bridge() {
    let mut stub = RuntimeStub::new();
    storage_set(&mut stub, "k".to_string(), "v");
    storage_get(&stub, "k".to_string());
    // The bridge wrote real host state; assert via the stub.
    assert_eq!(stub.get("k".to_string()).as_deref(), Some(&b"v"[..]));
    storage_delete(&mut stub, "k".to_string());
    assert!(stub.get("k".to_string()).is_none());
}

#[test]
fn network_fetch_through_bridge() {
    let mut stub = RuntimeStub::new();
    stub.register_fetch(
        "https://example.com/",
        Response { status: 200, headers: vec![], body: b"hello".to_vec() },
    );
    let body = fetch_text(&stub, "https://example.com/".to_string()).unwrap_or_default();
    assert_eq!(body, "hello");
}

#[test]
fn ops_on_unknown_handles_are_not_counted() {
    let mut stub = RuntimeStub::new();
    let mut batch = DomBatch::default();
    batch.set_text(0, "too early".to_string());
    let p = batch.create_element("div".to_string());
    batch.set_text(p + 7, "nowhere".to_string());
    batch.append_child(p, p + 1);
    batch.set_text(p, "x".to_string());
    assert_eq!(commit_dom_batch(&mut batch, &mut stub), 2);
    assert_eq!(commit_dom_batch(&mut batch, &mut stub), 0);
}
