use helix::runtime::content::{digest, hex, ContentStore};

#[test]
fn digest_is_deterministic_and_hex() {
    let a = digest(b"hello helix");
    let b = digest(b"hello helix");
    assert_eq!(a, b);
    assert_eq!(a.0.len(), 64);
    assert!(a.0.chars().all(|c| c.is_ascii_hexdigit()));
}

#[test]
fn digest_is_sha256() {
    assert_eq!(
        digest(b"abc").0,
        "ba7816bf8f01cfea414140de5dae2223b00361a396177a9cb410ff61f20015ad"
    );
    assert_ne!(digest(b"a"), digest(b"b"));
}

#[test]
fn hex_writes_two_lower_case_digits_per_byte() {
    assert_eq!(hex(&[0x00, 0x0f, 0xab, 0xff]), "000fabff");
    assert_eq!(hex(&[]), "");
}

#[test]
fn put_get_roundtrip_and_idempotent() {
    let mut store = ContentStore::new();
    let id = store.put(b"immutable asset");
    assert_eq!(store.len(), 1);
    // re-putting same bytes does not duplicate
    let id2 = store.put(b"immutable asset");
    assert_eq!(id, id2);
    assert_eq!(store.len(), 1);
    assert_eq!(store.get(&id), Some(&b"immutable asset"[..]));
}

#[test]
fn verify_rejects_tampered_bytes() {
    assert!(ContentStore::verify(&digest(b"a"), b"a"));
    assert!(!ContentStore::verify(&digest(b"a"), b"b"));
}

#[test]
fn get_verified_returns_none_for_missing() {
    let store = ContentStore::new();
    assert!(store
        .get_verified(&digest(b"never stored"))
        .is_none());
}

#[test]
fn removed_content_is_gone() {
    let mut store = ContentStore::new();
    assert!(store.is_empty());
    let id = store.put(b"asset");
    assert!(!store.is_empty());
    assert_eq!(store.get_verified(&id), Some(b"asset".to_vec()));
    assert!(store.remove(&id));
    assert!(!store.remove(&id));
    assert_eq!(store.get(&id), None);
    assert!(store.is_empty());
}
