use helix::runtime::wasm::{Host, Module};
use wasmtime::Engine;

fn loads(bytes: &[u8]) -> Result<Module, wasmtime::Error> {
    Module::load(&Engine::default(), bytes)
}

#[test]
fn empty_bytes_are_rejected_cleanly() {
    assert!(loads(&[]).is_err());
}

#[test]
fn arbitrary_garbage_is_rejected_cleanly() {
    // 4 KiB of pseudo-random non-WASM bytes.
    let mut bytes = Vec::with_capacity(4096);
    let mut x: u64 = 0x1234_5678_9abc_def0;
    while bytes.len() < 4096 {
        x ^= x << 13;
        x ^= x >> 7;
        x ^= x << 17;
        bytes.extend_from_slice(&x.to_le_bytes());
    }
    assert!(loads(&bytes).is_err());
}

#[test]
fn wrong_magic_number_is_rejected_cleanly() {
    // First byte is not the WASM magic 0x00.
    let mut bytes = vec![0xde, 0xad, 0xbe, 0xef];
    bytes.extend(std::iter::repeat_n(0u8, 64));
    assert!(loads(&bytes).is_err());
}

#[test]
fn truncated_component_is_rejected_cleanly() {
    // Right magic, then cut off before a valid component body.
    let mut bytes = vec![0x00, 0x61, 0x73, 0x6d, 0x0d, 0x00, 0x01, 0x00];
    bytes.extend(std::iter::repeat_n(0xabu8, 32));
    // Chop it mid-stream so it cannot parse as a complete component.
    bytes.truncate(bytes.len() / 2);
    assert!(loads(&bytes).is_err());
}

#[test]
fn valid_wasm_magic_but_not_a_component_is_rejected() {
    // A classic core-wasm "hello" header (magic + version) with a tiny valid
    // core module section. Components and core modules validate differently;
    // `Module::load` expects a *component*, so a bare core module must fail.
    let bytes: &[u8] = &[
        0x00, 0x61, 0x73, 0x6d, // \0asm
        0x01, 0x00, 0x00, 0x00, // version 1
        0x01, 0x04, 0x01, 0x60, 0x00, 0x00, // type section: () -> ()
    ];
    assert!(
        loads(bytes).is_err(),
        "core wasm must not load as a component"
    );
}

#[test]
fn loaded_module_drops_without_panic() {
    // A malformed module that fails to load must still drop cleanly; this
    // guards the teardown half of the lifecycle against resource leaks.
    let module = Module::load(&Engine::default(), &[]);
    assert!(module.is_err());
    drop(module);
}

#[test]
fn source_len_is_recorded_for_loadable_blobs() {
    // A genuinely loadable blob records its length: the smallest component is its
    // preamble alone.
    let empty: &[u8] = &[0x00, 0x61, 0x73, 0x6d, 0x0d, 0x00, 0x01, 0x00];
    assert_eq!(loads(empty).map(|m| m.source_len()).ok(), Some(8));
    let tiny = vec![0u8; 1];
    let res = loads(&tiny);
    // A single byte is not a valid component.
    assert!(res.is_err());
}

#[test]
fn a_host_without_a_broker_allows_everything() {
    let mut host = Host::new();
    let el = host.create_element("div".to_string());
    host.set_text(el, "hi".to_string());
    host.on_click(el, 3);
    assert_eq!(host.element(el).unwrap().text, "hi");
    assert_eq!(host.click_count(el), 1);
    assert_eq!(host.click_handler_ids(el), Some(vec![3]));
    assert!(host.set("k".to_string(), b"v".to_vec()).is_ok());
    assert_eq!(host.stored("k"), Some(b"v".to_vec()));
    assert_eq!(host.get("k".to_string()), Some(b"v".to_vec()));
    assert!(host.delete("k".to_string()).is_ok());
    assert_eq!(host.stored("k"), None);
}

#[test]
fn a_component_that_compiled_is_loaded_with_its_length() {
    let bytes: &[u8] = &[0x00, 0x61, 0x73, 0x6d, 0x0d, 0x00, 0x01, 0x00];
    let compiled = wasmtime::component::Component::new(&Engine::default(), bytes);
    assert_eq!(Module::loaded(compiled, bytes).map(|m| m.source_len()).ok(), Some(8));
    let failed = wasmtime::component::Component::new(&Engine::default(), &bytes[..7]);
    assert!(Module::loaded(failed, &bytes[..7]).is_err());
}
