use helix::runtime::stub::{Request, Response, RuntimeStub, VideoConfig};

fn req(url: &str) -> Request {
    Request {
        method: "GET".to_string(),
        url: url.to_string(),
        headers: vec![],
        body: None,
    }
}

// --- network -------------------------------------------------------------

#[test]
fn network_fetch_returns_registered_response() {
    let mut stub = RuntimeStub::new();
    stub.register_fetch(
        "https://example.com/",
        Response {
            status: 200,
            headers: vec![],
            body: b"hello".to_vec(),
        },
    );

    let res = stub.fetch(req("https://example.com/")).expect("fetch ok");
    assert_eq!(res.status, 200);
    assert_eq!(res.body, b"hello");
}

#[test]
fn network_fetch_errors_for_unregistered_url() {
    let stub = RuntimeStub::new();
    let err = stub.fetch(req("https://missing.test/")).expect_err("no route");
    assert!(err.contains("missing.test"));
}

// --- storage -------------------------------------------------------------

#[test]
fn storage_roundtrip_set_get_delete() {
    let mut stub = RuntimeStub::new();

    assert!(stub.get("k".to_string()).is_none());

    stub.set("k".to_string(), b"v".to_vec()).expect("set ok");
    assert_eq!(
        stub.get("k".to_string()).as_deref(),
        Some(&b"v"[..])
    );

    stub.delete("k".to_string()).expect("delete ok");
    assert!(stub.get("k".to_string()).is_none());
}

#[test]
fn storage_delete_missing_key_is_ok() {
    let mut stub = RuntimeStub::new();
    assert!(stub.delete("absent".to_string()).is_ok());
}

// --- dom -----------------------------------------------------------------

#[test]
fn conformance_dom_create_element_assigns_unique_ids() {
    let mut stub = RuntimeStub::new();
    let a = stub.create_element("div".to_string());
    let b = stub.create_element("span".to_string());
    assert_ne!(a.id, b.id);
    assert_eq!(stub.element(a).unwrap().tag, "div");
    assert_eq!(stub.element(b).unwrap().tag, "span");
}

#[test]
fn conformance_dom_set_text_and_attribute() {
    let mut stub = RuntimeStub::new();
    let el = stub.create_element("p".to_string());
    stub.set_text(el, "hi".to_string());
    stub.set_attribute(el, "class".to_string(), "lead".to_string());

    let node = stub.element(el).unwrap();
    assert_eq!(node.text, "hi");
    assert_eq!(
        node.attributes.get("class").map(String::as_str),
        Some("lead")
    );
}

#[test]
fn conformance_dom_append_child_builds_tree() {
    let mut stub = RuntimeStub::new();
    let parent = stub.create_element("ul".to_string());
    let child = stub.create_element("li".to_string());
    stub.append_child(parent, child);

    let node = stub.element(parent).unwrap();
    assert_eq!(node.children, vec![child]);
}

#[test]
fn dom_on_click_registers_handler() {
    let mut stub = RuntimeStub::new();
    let el = stub.create_element("button".to_string());

    stub.on_click(el, 7);
    stub.on_click(el, 9);

    assert_eq!(stub.click_count(el), 2);
    assert_eq!(stub.click_handler_ids(el), Some(vec![7u64, 9]));
}

// --- media --------------------------------------------------------------

#[test]
fn media_player_lifecycle_via_stub() {
    let mut stub = RuntimeStub::new();
    let handle = stub.create_player(VideoConfig {
        codec: "h264".to_string(),
        width: 640,
        height: 480,
        bitrate: 1_000_000,
    })
    .expect("create player");

    assert!(stub.player(handle).is_some());
    assert!(!stub.player(handle).unwrap().playing);

    stub.play(handle);
    assert!(stub.player(handle).unwrap().playing);

    stub.seek(handle, 5000);
    assert_eq!(stub.player(handle).unwrap().position_ms, 5000);

    stub.pause(handle);
    assert!(!stub.player(handle).unwrap().playing);
}
