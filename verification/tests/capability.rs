use helix::runtime::capability::{
    host_of, AllowAllPrompter, AppId, Capability, CapabilityBroker, CapabilityError,
    DenyAllPrompter, GrantDecision, GrantPrompter, HostPattern, StorageScope,
};

fn network(hosts: &[&str]) -> Capability {
    Capability::Network {
        hosts: hosts.iter().map(|h| HostPattern::Exact(h.to_string())).collect(),
    }
}

#[test]
fn grant_allows_matching_request() {
    let mut b = CapabilityBroker::new();
    let tok = b.grant("app".into(), network(&["api.example.com"]));
    assert!(b.check(tok, &network(&["api.example.com"])).is_ok());
}

#[test]
fn deny_unregistered_host() {
    let mut b = CapabilityBroker::new();
    let tok = b.grant("app".into(), network(&["api.example.com"]));
    let err = b.check(tok, &network(&["evil.test"])).unwrap_err();
    assert!(matches!(err, CapabilityError::Denied { .. }));
}

#[test]
fn suffix_pattern_covers_subdomain() {
    let mut b = CapabilityBroker::new();
    let tok = b.grant(
        "app".into(),
        Capability::Network {
            hosts: vec![HostPattern::Suffix(".example.com".into())],
        },
    );
    assert!(b.check(tok, &network(&["api.example.com"])).is_ok());
    assert!(b.check(tok, &network(&["cdn.example.com"])).is_ok());
    assert!(b.check(tok, &network(&["example.com.evil.test"])).is_err());
}

#[test]
fn revocation_denies_after_revoke() {
    let mut b = CapabilityBroker::new();
    let tok = b.grant("app".into(), network(&["api.example.com"]));
    let id = b.resolve(tok).unwrap();
    assert!(b.revoke(id));
    let err = b.check(tok, &network(&["api.example.com"])).unwrap_err();
    assert!(matches!(err, CapabilityError::Revoked { .. }));
}

#[test]
fn revoke_app_cascades() {
    let mut b = CapabilityBroker::new();
    b.grant("app".into(), network(&["api.example.com"]));
    b.grant("app".into(), Capability::Storage {
        scope: StorageScope::Global,
    });
    assert_eq!(b.revoke_app(&"app".into()), 2);
    assert!(b.list_grants(&"app".into()).is_empty());
}

#[test]
fn delegation_is_scoped_and_revocable_via_parent() {
    let mut b = CapabilityBroker::new();
    let parent = b.grant(
        "parent".into(),
        Capability::Network {
            hosts: vec![HostPattern::Suffix(".example.com".into())],
        },
    );
    let child = b
        .delegate(
            parent,
            "child".into(),
            network(&["api.example.com"]),
        )
        .unwrap();
    assert!(b.check(child, &network(&["api.example.com"])).is_ok());
    // child cannot exceed parent scope
    assert!(b.delegate(parent, "child".into(), network(&["other.test"])).is_err());

    // revoking the parent revokes the child
    let pid = b.resolve(parent).unwrap();
    b.revoke(pid);
    assert!(matches!(
        b.check(child, &network(&["api.example.com"])),
        Err(CapabilityError::Revoked { .. })
    ));
}

#[test]
fn storage_namespace_scoping() {
    let mut b = CapabilityBroker::new();
    let tok = b.grant(
        "app".into(),
        Capability::Storage {
            scope: StorageScope::Namespace("app:notes:".into()),
        },
    );
    assert!(b
        .check(
            tok,
            &Capability::Storage {
                scope: StorageScope::Namespace("app:notes:2024".into())
            }
        )
        .is_ok());
    assert!(b
        .check(
            tok,
            &Capability::Storage {
                scope: StorageScope::Namespace("other:".into())
            }
        )
        .is_err());
}

#[test]
fn media_resolution_cap() {
    let mut b = CapabilityBroker::new();
    let tok = b.grant(
        "app".into(),
        Capability::Media {
            max_resolution: Some((1280, 720)),
        },
    );
    assert!(b
        .check(
            tok,
            &Capability::Media {
                max_resolution: Some((640, 480))
            }
        )
        .is_ok());
    assert!(b
        .check(
            tok,
            &Capability::Media {
                max_resolution: Some((1920, 1080))
            }
        )
        .is_err());
}

#[test]
fn prompt_flow_allows_and_denies() {
    let mut b = CapabilityBroker::new();
    let tok = b
        .request_capability(&"app".into(), network(&["api.example.com"]), &AllowAllPrompter)
        .unwrap();
    assert!(b.check(tok, &network(&["api.example.com"])).is_ok());

    let mut b2 = CapabilityBroker::new();
    let err = b2
        .request_capability(&"app".into(), network(&["api.example.com"]), &DenyAllPrompter)
        .unwrap_err();
    assert!(matches!(err, CapabilityError::Denied { .. }));
}

#[test]
fn prompt_flow_modify_narrows_scope() {
    struct Narrow;
    impl GrantPrompter for Narrow {
        fn request(&self, _app: &AppId, _requested: &Capability) -> GrantDecision {
            GrantDecision::Modify(Capability::Storage {
                scope: StorageScope::Namespace("app:".into()),
            })
        }
    }
    let mut b = CapabilityBroker::new();
    let tok = b
        .request_capability(
            &"app".into(),
            Capability::Storage {
                scope: StorageScope::Global,
            },
            &Narrow,
        )
        .unwrap();
    assert!(b
        .check(
            tok,
            &Capability::Storage {
                scope: StorageScope::Namespace("app:x".into())
            }
        )
        .is_ok());
    assert!(b
        .check(
            tok,
            &Capability::Storage {
                scope: StorageScope::Global
            }
        )
        .is_err());
}

#[test]
fn host_of_parses_urls() {
    assert_eq!(host_of("https://api.example.com/path?q=1"), "api.example.com");
    assert_eq!(host_of("http://cdn.example.com"), "cdn.example.com");
    assert_eq!(host_of("api.example.com"), "api.example.com");
}

#[test]
fn suffix_patterns_match_what_ends_with_them() {
    let dotted = HostPattern::Suffix(".Example.com".into());
    assert!(dotted.matches("api.example.com"));
    assert!(dotted.matches(".example.com"));
    assert!(!dotted.matches("example.com"));
    assert!(!dotted.matches("example.com.evil.test"));
    let domain = HostPattern::Suffix("example.com".into());
    assert!(domain.matches("example.com"));
    assert!(domain.matches("api.EXAMPLE.com"));
    assert!(!domain.matches("badexample.com"));
}

#[test]
fn tokens_resolve_while_their_grants_live() {
    let mut b = CapabilityBroker::with_seed(5);
    let t = b.grant_at("app".into(), network(&["a.test"]), Some(100), 50);
    let id = b.resolve_at(t, 60).unwrap();
    assert_eq!(b.resolve_at(t, 200), None);
    let kept = b.grant("app".into(), network(&["b.test"]));
    assert!(b.resolve(kept).is_some());
    assert!(b.revoke(id));
    assert_eq!(b.resolve_at(t, 60), None);
    assert!(matches!(
        b.check_at(t, &network(&["a.test"]), 60),
        Err(CapabilityError::Revoked { .. })
    ));
    let gone = b.resolve(kept).unwrap();
    b.revoke(gone);
    assert_eq!(b.resolve(kept), None);
}

#[test]
fn live_grants_are_listed_once_by_number() {
    let mut b = CapabilityBroker::with_seed(5);
    let app: AppId = "app".into();
    b.grant_at(app.clone(), network(&["a.test"]), None, 1);
    b.grant_at("other".into(), network(&["a.test"]), None, 1);
    let short = b.grant_at(app.clone(), network(&["b.test"]), Some(10), 1);
    b.grant_at(app.clone(), network(&["c.test"]), None, 1);
    let ids: Vec<u64> = b.list_grants_at(&app, 5).iter().map(|g| g.id.0).collect();
    assert_eq!(ids, vec![1, 3, 4]);
    let id = b.resolve_at(short, 5).unwrap();
    assert_eq!(id.0, 3);
    b.revoke(id);
    let ids: Vec<u64> = b.list_grants_at(&app, 5).iter().map(|g| g.id.0).collect();
    assert_eq!(ids, vec![1, 4]);
}

#[test]
fn revoking_an_app_reaches_what_it_delegated_and_nothing_else() {
    let mut b = CapabilityBroker::with_seed(5);
    let parent = b.grant("a".into(), network(&["x.test"]));
    let child = b.delegate(parent, "b".into(), network(&["x.test"])).unwrap();
    let own = b.grant("b".into(), network(&["y.test"]));
    assert_eq!(b.revoke_app(&"a".into()), 1);
    assert!(b.check(parent, &network(&["x.test"])).is_err());
    assert!(b.check(child, &network(&["x.test"])).is_err());
    assert!(b.check(own, &network(&["y.test"])).is_ok());
    assert_eq!(b.revoke_app(&"a".into()), 0);
    assert_eq!(b.grant_count(), 3);
}
