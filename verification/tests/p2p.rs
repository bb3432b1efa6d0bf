use helix::runtime::content::{digest, ContentId};
use helix::runtime::p2p::{
    content_id, ContentSource, ContentSourceError, LocalFallbackSource, PeerId, PeerNetwork,
    Provider,
};

#[test]
fn provide_then_resolve_via_dht_bitswap() {
    let mut net = PeerNetwork::new();
    let peer = PeerId::new("peer-a");
    net.join(peer.clone());
    let id = net.provide(&peer, b"immutable video segment");
    // DHT routing resolves the provider.
    let providers = net.find_providers(&id);
    assert_eq!(providers.len(), 1);
    assert_eq!(providers[0].peer, peer);
    // bitswap fetch returns integrity-verified bytes.
    let bytes = net.fetch_from(&peer, &id).unwrap();
    assert_eq!(bytes, b"immutable video segment");
}

#[test]
fn missing_content_is_not_found() {
    let net = PeerNetwork::new();
    let id = digest(b"nobody has this");
    assert!(matches!(
        net.resolve(&id),
        Err(ContentSourceError::NotFound(_))
    ));
}

#[test]
fn multiple_providers_all_serve_verified_bytes() {
    let mut net = PeerNetwork::new();
    let a = PeerId::new("a");
    let b = PeerId::new("b");
    net.join(a.clone());
    net.join(b.clone());
    let id = net.provide(&a, b"shared");
    net.provide(&b, b"shared");
    let providers = net.find_providers(&id);
    assert_eq!(providers.len(), 2);
    for p in providers {
        assert_eq!(net.fetch_block(&p, &id).unwrap(), b"shared");
    }
}

#[test]
fn local_fallback_serves_cached_content() {
    let net = PeerNetwork::new();
    let mut src = LocalFallbackSource::new(net);
    let id = src.cache(b"offline asset");
    assert!(matches!(
        src.find_providers(&id).as_slice(),
        [Provider { peer, .. }] if *peer == PeerId::new("local-cache")
    ));
    assert_eq!(src.get(&id).unwrap(), b"offline asset");
}

#[test]
fn a_peer_without_the_block_is_an_error() {
    let mut net = PeerNetwork::new();
    let a = PeerId::new("a");
    let b = PeerId::new("b");
    net.join(a.clone());
    net.join(b.clone());
    let id = net.provide(&a, b"only a");
    assert!(net.fetch_from(&b, &id).is_err());
    assert!(net.fetch_from(&PeerId::new("nobody"), &id).is_err());
    assert_eq!(net.resolve(&id).unwrap(), b"only a");
    assert_eq!(id, content_id(b"only a"));
}

/// A source whose providers fail in their own ways.
struct Failing(Vec<ContentSourceError>);

impl ContentSource for Failing {
    fn valid(&self) -> bool {
        true
    }

    fn find_providers(&self, _id: &ContentId) -> Vec<Provider> {
        (0..self.0.len()).map(|i| Provider { peer: PeerId::new("p"), size: i as u64 }).collect()
    }

    fn fetch_block(
        &self,
        provider: &Provider,
        _id: &ContentId,
    ) -> Result<Vec<u8>, ContentSourceError> {
        Err(self.0[provider.size as usize].clone())
    }
}

#[test]
fn the_first_error_is_reported() {
    let id = digest(b"x");
    let first = ContentSourceError::Integrity(id.clone());
    let source = Failing(vec![first.clone(), ContentSourceError::Unavailable(id.clone())]);
    assert_eq!(source.get(&id), Err(first));
    assert_eq!(Failing(vec![]).get(&id), Err(ContentSourceError::NotFound(id.clone())));
}

#[test]
fn providing_again_changes_nothing() {
    let mut net = PeerNetwork::new();
    let (a, b) = (PeerId::new("a"), PeerId::new("b"));
    let other = net.provide(&b, b"other");
    let id = net.provide(&a, b"x");
    net.provide(&b, b"x");
    let listed = net.providers_of(&id);
    assert_eq!(listed, vec![
        Provider { peer: a.clone(), size: 1 },
        Provider { peer: b.clone(), size: 1 },
    ]);
    assert_eq!(net.provide(&a, b"x"), id);
    assert_eq!(net.providers_of(&id), listed);
    assert_eq!(net.providers_of(&other), vec![Provider { peer: b, size: 5 }]);
    assert_eq!(net.fetch_from(&a, &id).unwrap(), b"x");
}
