use helix::migrate::coverage::Pattern;
use helix::migrate::deploy::TargetPlatform;
use helix::migrate::equivalence::validate_equivalence;
use helix::migrate::eve::{detect_pattern, orchestrate, Fit, PlanRequest};
use helix::migrate::transpile::{DomOp, TranspiledSite};

#[test]
fn classifies_static_site() {
    let html = r#"<html><body><h1>Docs</h1><p>Welcome</p></body></html>"#;
    let (p, fit) = detect_pattern(html);
    assert_eq!(p, Pattern::P1StaticSite);
    assert_eq!(fit, Fit::Strong);
}

#[test]
fn classifies_form_crud() {
    let html = r#"
        <form onsubmit="add()">
            <input type="text" name="name" />
            <button type="submit">Add</button>
        </form>
        <table><tr><td>a</td></tr></table>"#;
    let (p, fit) = detect_pattern(html);
    assert_eq!(p, Pattern::P2FormCrud);
    assert_eq!(fit, Fit::Strong);
}

#[test]
fn classifies_data_viz() {
    let html = r#"<canvas id="c" width="800" height="600" data-series-0="rev"></canvas>"#;
    let (p, fit) = detect_pattern(html);
    assert_eq!(p, Pattern::P3DataViz);
    assert_eq!(fit, Fit::Strong);
}

#[test]
fn classifies_media_player() {
    let html = r#"<video src="m.mp4" controls></video>"#;
    let (p, fit) = detect_pattern(html);
    assert_eq!(p, Pattern::P4MediaPlayer);
    assert_eq!(fit, Fit::Strong);
}

#[test]
fn equivalence_check_fails_on_dangling_append() {
    // Hand-crafted op list with a forward reference that must fail.
    let site = TranspiledSite {
        ops: vec![
            DomOp::Create {
                var: "el0".into(),
                tag: "div".into(),
            },
            DomOp::Append {
                parent: "el0".into(),
                child: "el1".into(),
            },
        ],
        rust_source: String::new(),
        wit_world: String::new(),
        crud: Default::default(),
        dataviz: Default::default(),
        media: Default::default(),
    };
    assert!(!validate_equivalence(&site));
}

#[test]
fn orchestrate_runs_full_pipeline_for_static_site() {
    let req = PlanRequest {
        app_name: "docs".into(),
        version: "0.1.0".into(),
        html: r#"<h1>Title</h1><p>Body text</p>"#.into(),
        js: None,
        targets: vec![TargetPlatform::LinuxX86_64, TargetPlatform::Wasm32],
    };
    let m = orchestrate(&req);
    assert_eq!(m.plan.detected, Pattern::P1StaticSite);
    assert!(m.equivalence_ok, "static site must pass S3");
    assert!(m.deploy_config.contains("linux-x86_64"));
    assert!(m.feature_flags.contains("pub const HELIX_RUNTIME_ENABLED"));
    // Stage S5 enabled with two targets.
    let s5 = m.plan.stages.iter().find(|s| s.stage == 5).unwrap();
    assert!(s5.enabled);
}

#[test]
fn orchestrate_marks_deploy_disabled_without_targets() {
    let req = PlanRequest {
        app_name: "docs".into(),
        version: "0.1.0".into(),
        html: r#"<p>hi</p>"#.into(),
        js: None,
        targets: vec![],
    };
    let m = orchestrate(&req);
    let s5 = m.plan.stages.iter().find(|s| s.stage == 5).unwrap();
    assert!(!s5.enabled);
    assert!(m.deploy_config.is_empty());
}
