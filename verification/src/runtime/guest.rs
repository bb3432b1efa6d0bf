//! An example guest: what a component does with the capability interfaces when it is run.
use crate::runtime::stub::{
    clicks_of, fetch_refusal, fetched, fresh, ElementId, ElementView, Request, Response,
    RuntimeStub, StateView,
};
use vstd::prelude::*;
use vstd::string::*;

verus! {

/// The bytes of `yes`.
pub open spec fn yes() -> Seq<u8> {
    seq![121u8, 101, 115]
}

/// The URL that is fetched.
pub open spec fn example_url() -> Seq<char> {
    "https://example.com/"@
}

/// The state after a run: a greeting `div` around a `span`, a click handler on the `div`, and a
/// value in the store.
pub open spec fn greeted(s: StateView) -> StateView {
    let root = s.elements.len() as u64;
    let child = ElementId { id: (s.elements.len() + 1) as u64 };
    StateView {
        elements: s.elements.push(
            ElementView {
                attributes: fresh("div"@).attributes.insert("class"@, "greeting"@),
                children: seq![child],
                ..fresh("div"@)
            },
        ).push(ElementView { text: "hello from guest"@, ..fresh("span"@) }),
        clicks: s.clicks.insert(root, clicks_of(s, root).push(1)),
        store: s.store.insert("seen"@, yes()),
        ..s
    }
}

/// Entry point the host invokes after instantiating the component.
///
/// Exercises the imported capability interfaces: builds a tiny DOM tree, persists a value, and
/// issues a fetch, whose response is returned.
pub fn run(host: &mut RuntimeStub) -> (r: Result<Response, String>)
    requires
        old(host).wf(),
        old(host)@.guard is None,
        old(host)@.elements.len() + 2 <= u64::MAX,
    ensures
        final(host).wf(),
        final(host)@ == greeted(old(host)@),
        match (r, fetched(greeted(old(host)@), example_url(), 0)) {
            (Ok(x), Some(v)) => x@ == v,
            (Err(e), None) => e@ == fetch_refusal(example_url()),
            _ => false,
        },
{
    let ghost s = host@;
    let root = host.create_element(String::from_str("div"));
    let child = host.create_element(String::from_str("span"));
    host.set_text(child, String::from_str("hello from guest"));
    host.set_attribute(root, String::from_str("class"), String::from_str("greeting"));
    host.append_child(root, child);
    host.on_click(root, 1);
    let mut value: Vec<u8> = Vec::new();
    value.push(121);
    value.push(101);
    value.push(115);
    assert(value@ =~= yes());
    let _ = host.set(String::from_str("seen"), value);
    assert(host@.elements =~= greeted(s).elements);
    host.fetch(
        Request {
            method: String::from_str("GET"),
            url: String::from_str("https://example.com/"),
            headers: Vec::new(),
            body: None,
        },
    )
}

} // verus!
