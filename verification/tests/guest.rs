use helix::runtime::guest::run;
use helix::runtime::stub::{ElementId, Response, RuntimeStub};

#[test]
fn a_guest_run_builds_stores_and_fetches() {
    let mut host = RuntimeStub::new();
    host.register_fetch(
        "https://example.com/",
        Response { status: 204, headers: vec![], body: vec![] },
    );
    assert_eq!(run(&mut host).unwrap().status, 204);
    let root = ElementId { id: 0 };
    let e = host.element(root).unwrap();
    assert_eq!(e.tag, "div");
    assert_eq!(e.attributes.get("class"), Some(&"greeting".to_string()));
    assert_eq!(e.children, vec![ElementId { id: 1 }]);
    let child = host.element(ElementId { id: 1 }).unwrap();
    assert_eq!((child.tag.as_str(), child.text.as_str()), ("span", "hello from guest"));
    assert_eq!(host.click_handler_ids(root), Some(vec![1]));
    assert_eq!(host.get("seen".to_string()), Some(b"yes".to_vec()));
}

#[test]
fn a_guest_run_without_the_route_still_builds() {
    let mut host = RuntimeStub::new();
    assert!(run(&mut host).is_err());
    assert!(host.element(ElementId { id: 1 }).is_some());
}
