use helix::migrate::deploy::{
    generate_deploy_config, generate_feature_flags, DeployConfig, FeatureFlag, TargetPlatform,
};
use helix::migrate::discovery::is_readable;
use helix::migrate::equivalence::validate_equivalence;
use helix::migrate::js_transform::transpile_js_to_rust;
use helix::migrate::optimize::{eliminate_dead_code, public_call_graph};
use helix::migrate::syntax::SourceLang;
use helix::migrate::transpile::{transpile_form_app, transpile_static_site, DomOp};
use helix::migrate::type_infer::{infer_types, read_declarations, InferredType};
use helix::runtime::capability::{
    Capability, CapabilityBroker, CapabilityError, DomScope, HostPattern, StorageScope,
};
use helix::runtime::string_map::StringMap;
use helix::runtime::xml::{find_all, find_element, without};

fn network(host: &str) -> Capability {
    Capability::Network { hosts: vec![HostPattern::Exact(host.to_string())] }
}

#[test]
fn a_grant_ends_at_its_expiry() {
    let mut b = CapabilityBroker::with_seed(7);
    let t = b.grant_until("app".into(), network("a.test"), u64::MAX);
    assert!(b.check(t, &network("a.test")).is_ok());
    let short = b.grant_at("app".into(), network("b.test"), Some(100), 50);
    assert!(b.check_at(short, &network("b.test"), 99).is_ok());
    assert!(b.check_at(short, &network("b.test"), 101).is_err());
    assert_eq!(b.list_grants_at(&"app".into(), 200).len(), 1);
}

#[test]
fn revocation_reaches_delegated_grants() {
    let mut b = CapabilityBroker::with_seed(1);
    let wide = Capability::Network { hosts: vec![HostPattern::Suffix("test".into())] };
    let parent = b.grant("a".into(), wide.clone());
    let child = b.delegate(parent, "b".into(), network("x.test")).unwrap();
    assert!(b.delegate(child, "c".into(), wide).is_err());
    assert!(b.check(child, &network("x.test")).is_ok());
    let id = b.resolve(parent).unwrap();
    b.revoke(id);
    assert!(matches!(b.check(parent, &network("x.test")), Err(CapabilityError::Revoked { .. })));
    assert!(matches!(b.check(child, &network("x.test")), Err(CapabilityError::Revoked { .. })));
}

#[test]
fn tokens_are_distinct_and_unknown_ones_are_refused() {
    let mut b = CapabilityBroker::with_seed(3);
    let caps = [
        Capability::Dom { scope: DomScope::Full },
        Capability::Storage { scope: StorageScope::Global },
        network("n.test"),
    ];
    let tokens: Vec<_> = caps.iter().map(|c| b.grant("a".into(), c.clone())).collect();
    assert_ne!(tokens[0], tokens[1]);
    assert_ne!(tokens[1], tokens[2]);
    assert_ne!(tokens[0], tokens[2]);
    let mut other = CapabilityBroker::with_seed(99);
    let foreign = other.grant("a".into(), network("n.test"));
    assert!(matches!(
        b.check(foreign, &network("n.test")),
        Err(CapabilityError::InvalidToken(_))
    ));
}

#[test]
fn transpiled_documents_are_equivalent() {
    let mut site = transpile_static_site("<div class=\"a\"><p>x</p>y</div>");
    assert!(validate_equivalence(&site));
    let tags: Vec<&str> = site
        .ops
        .iter()
        .filter_map(|o| match o {
            DomOp::Create { tag, .. } => Some(tag.as_str()),
            _ => None,
        })
        .collect();
    assert!(tags.contains(&"div") && tags.contains(&"p"));
    site.ops.retain(|o| !matches!(o, DomOp::Create { .. }));
    assert!(!validate_equivalence(&site));
}

#[test]
fn form_fields_are_bound() {
    let site = transpile_form_app("<form action=\"/s\"><input name=\"q\" type=\"text\"></form>");
    let bindings = site.crud.field_bindings();
    assert_eq!(bindings.len(), 1);
    let form = &site.crud.forms[0];
    assert_eq!(bindings[0], (form.var.clone(), form.fields[0].var.clone()));
    assert_ne!(bindings[0].0, bindings[0].1);
}

#[test]
fn text_before_the_first_edit_is_kept() {
    let out = transpile_js_to_rust("/* é */ a; const x = 1;", SourceLang::JavaScript);
    assert_eq!(out, "/* é */ a; let x = 1;");
}

#[test]
fn the_call_graph_lists_every_called_function() {
    let src = "function a() { b(); }\nfunction b() {}\nfunction c() {}\na();\n";
    let names: Vec<String> = ["a", "b", "c"].iter().map(|s| s.to_string()).collect();
    let graph = public_call_graph(src, &names);
    let calls = |n: &str| graph.iter().find(|g| g.0 == n).map(|g| g.1.clone()).unwrap();
    assert_eq!(calls("a"), vec!["b"]);
    assert!(calls("b").is_empty());
    assert!(calls("c").is_empty());
}

#[test]
fn every_name_is_bound_once() {
    let types = infer_types("let a = 1;\nlet a = \"x\";\nlet b = true;");
    assert_eq!(types.iter().filter(|t| t.name == "a").count(), 1);
    let decls = read_declarations("declare const n: number\ndeclare const n: string\n");
    assert_eq!(decls.len(), 1);
    assert_eq!(decls[0].ty, InferredType::Float);
}

#[test]
fn deployment_documents_list_every_target() {
    let config = DeployConfig {
        app_name: "shop".into(),
        version: "1.2.0".into(),
        targets: vec![TargetPlatform::LinuxX86_64, TargetPlatform::Wasm32],
    };
    let doc = generate_deploy_config(&config);
    assert!(doc.contains("shop") && doc.contains("1.2.0"));
    assert!(doc.ends_with(
        "\n[[target]]\nname = \"linux-x86_64\"\ntriple = \"x86_64-unknown-linux-gnu\"\n\n[[target]]\nname = \"wasm32\"\ntriple = \"wasm32-wasip2\"\n"
    ));
    let none = DeployConfig { targets: vec![], ..config };
    assert_eq!(generate_deploy_config(&none), "");
    assert_eq!(TargetPlatform::Wasm32.name(), "wasm32");
    assert_eq!(TargetPlatform::Wasm32.triple(), "wasm32-wasip2");
}

#[test]
fn feature_flags_are_generated() {
    let flags = vec![FeatureFlag {
        name: "fast_path".into(),
        enabled: true,
        description: "speed".into(),
    }];
    let code = generate_feature_flags(&flags);
    assert!(code.contains("    /// speed\n    pub const FAST_PATH_ENABLED: bool = true;\n"));
    assert!(code.contains("            \"fast_path\" => FAST_PATH_ENABLED,\n"));
}

#[test]
fn a_lone_quote_is_not_readable() {
    assert!(is_readable("import a from \"m\";"));
    assert!(is_readable("no imports at all"));
    assert!(!is_readable("import a from \"'\";"));
    assert!(!is_readable("export { a } from '\"';"));
}

#[test]
fn xml_elements_are_found_in_order() {
    let v: Vec<char> = "<r><s k=\"1\">x</s><s k='2'/></r>".chars().collect();
    let all = find_all(&v, "s");
    assert_eq!(all.len(), 2);
    assert_eq!(all[0].attrs.get("k"), Some(&"1".to_string()));
    assert_eq!(all[1].attrs.get("k"), Some(&"2".to_string()));
    assert!(find_element(&v, "t").is_none());
    let rest: String = without(&v, "s").into_iter().collect();
    assert!(!rest.contains("<s"));
}

#[test]
fn string_maps_keep_the_last_value() {
    let mut m: StringMap<u64> = StringMap::new();
    m.insert("a".to_string(), 1);
    m.insert("a".to_string(), 2);
    assert_eq!(m.get("a"), Some(&2));
    assert_eq!(m.get("b"), None);
}

#[test]
fn dead_code_goes_and_live_code_stays() {
    let src = "export function a() { b(); }\nfunction b() {}\nfunction c() {}\n";
    let kept = eliminate_dead_code(src, &["a"]);
    assert!(kept.functions.contains(&"b".to_string()));
    assert!(!kept.functions.contains(&"c".to_string()));
}
