use helix::migrate::optimize::{
    eliminate_dead_code, public_call_graph, suggest_parallel_loops, suggest_struct_packing,
    SuggestionKind,
};

#[test]
fn removes_unreferenced_non_exported_functions() {
    // `used` is called by `main` (a root); `orphan` is never referenced.
    let src = r#"
        export function main() { used(); }
        function used() {}
        function orphan() {}
    "#;
    let kept = eliminate_dead_code(src, &["main"]);
    assert!(kept.functions.contains(&"used".to_string()));
    assert!(!kept.functions.contains(&"orphan".to_string()));
    // Exports are always retained even if unreferenced.
    assert!(kept.exports.iter().any(|e| e.name == "main"));
}

#[test]
fn keeps_roots_even_when_not_exported_and_follows_calls() {
    let src = r#"
        function entry() { mid(); }
        function mid() { leaf(); }
        function leaf() {}
        function unused() {}
    "#;
    let kept = eliminate_dead_code(src, &["entry"]);
    for f in ["entry", "mid", "leaf"] {
        assert!(kept.functions.contains(&f.to_string()), "expected {f} kept");
    }
    assert!(!kept.functions.contains(&"unused".to_string()));
}

#[test]
fn suggests_reorder_for_padding() {
    // bool(1) then u64(8) → padded; reordering helps.
    let sug = suggest_struct_packing(&vec![("flag".into(), 1), ("count".into(), 8)]);
    assert_eq!(sug.len(), 1);
    assert_eq!(sug[0].category, SuggestionKind::StructPacking);
    assert!(sug[0].message.contains("count, flag"));
}

#[test]
fn detects_loops_for_parallelization() {
    let src = "for (let i = 0; i < n; i++) { sum += a[i]; }\nconst x = 1;\nwhile (running) { step(); }";
    let sug = suggest_parallel_loops(src);
    assert_eq!(sug.len(), 2);
    assert!(
        sug.iter()
            .all(|s| s.category == SuggestionKind::LoopParallel)
    );
    assert!(sug[0].location.is_some());
}

fn live(src: &str, roots: &[&str]) -> Vec<String> {
    eliminate_dead_code(src, roots).functions
}

#[test]
fn what_the_default_export_calls_is_kept() {
    let src = "export default function main() { used(); }\nfunction used() {}\nfunction dead() {}\n";
    assert_eq!(live(src, &[]), vec!["used"]);
    let by_name = "function main() { used(); }\nfunction used() {}\nexport default main;\n";
    assert_eq!(live(by_name, &[]), vec!["main", "used"]);
    let arrow = "export default () => { used(); };\nfunction used() {}\nfunction dead() {}\n";
    assert_eq!(live(arrow, &[]), vec!["used"]);
}

#[test]
fn what_exported_variables_call_is_kept() {
    for kw in ["const", "let", "var", "const  "] {
        let src = format!("export {kw} f = () => {{ used(); }};\nfunction used() {{}}\nfunction dead() {{}}\n");
        assert_eq!(live(&src, &[]), vec!["used"], "{kw}");
    }
}

#[test]
fn brackets_in_text_and_comments_end_nothing() {
    for inner in [
        "log(\":)\");",
        "log('}');",
        "log(`}${ [')'].map(x => `}${x}`) }`);",
        "/* } */",
        "// }\n",
        "log(\"\\\"}\");",
        "x = a / b; y = /}/.test(z);",
        "return <p>it's</p>;",
    ] {
        let src = format!(
            "export function f() {{ {inner} used(); }}\nfunction used() {{}}\nfunction dead() {{}}\n"
        );
        assert_eq!(live(&src, &[]), vec!["used"], "{inner}");
    }
}

#[test]
fn a_declaration_reads_on_past_its_types_and_values() {
    let types = "export function f(): { a: number } { used(); }\nfunction used() {}\n";
    assert_eq!(live(types, &[]), vec!["used"]);
    let value = "export const f = c ? { a: 1 } : used();\nfunction used() {}\n";
    assert_eq!(live(value, &[]), vec!["used"]);
    let overloads = "export function f(a: string): void;\nexport function f(a) { used(); }\nfunction used() {}\n";
    assert_eq!(live(overloads, &[]), vec!["used"]);
}

#[test]
fn what_code_outside_of_functions_names_is_kept() {
    let src = "export const k = 1;\nfunction init() { deep(); }\nfunction deep() {}\nfunction tick() {}\nfunction dead() { gone(); }\nfunction gone() {}\ninit();\nsetTimeout(tick, 5);\n";
    assert_eq!(live(src, &[]), vec!["init", "deep", "tick"]);
    let handed_on = "export function f() { xs.map(helper); }\nfunction helper() { used(); }\nfunction used() {}\n";
    assert_eq!(live(handed_on, &[]), vec!["helper", "used"]);
}

#[test]
fn roots_are_kept_and_lead_on() {
    let src = "function a() { b(); }\nfunction b() {}\nfunction c() {}\n";
    assert_eq!(live(src, &["a"]), vec!["a", "b"]);
    assert!(live(src, &[]).is_empty());
}

#[test]
fn the_call_graph_counts_in_each_declaration() {
    let src = "function a() { b(\"}\"); c(); } function b() {} function c() { b(); }";
    let names: Vec<String> = ["a", "b", "c"].iter().map(|s| s.to_string()).collect();
    let graph = public_call_graph(src, &names);
    let calls = |n: &str| graph.iter().find(|g| g.0 == n).map(|g| g.1.clone()).unwrap();
    assert_eq!(calls("a"), vec!["b", "c"]);
    assert!(calls("b").is_empty());
    assert_eq!(calls("c"), vec!["b"]);
}
