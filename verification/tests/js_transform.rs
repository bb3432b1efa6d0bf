use helix::migrate::js_transform::{transpile_js_to_rust, Transformer};
use helix::migrate::syntax::{SourceLang, Syntax};

#[test]
fn function_keyword_becomes_fn() {
    let src = "function add(a, b) { return a + b; }";
    assert_eq!(transpile_js_to_rust(src, SourceLang::JavaScript), "fn add(a, b) { return a + b; }");
}

#[test]
fn const_becomes_let() {
    let src = "const x = 1;";
    assert_eq!(transpile_js_to_rust(src, SourceLang::JavaScript), "let x = 1;");
}

#[test]
fn var_becomes_let() {
    let src = "var y = 2;";
    assert_eq!(transpile_js_to_rust(src, SourceLang::JavaScript), "let y = 2;");
}

#[test]
fn console_log_becomes_println() {
    let src = "console.log(x);";
    assert_eq!(transpile_js_to_rust(src, SourceLang::JavaScript), "println!(x);");
}

#[test]
fn combined_transform() {
    let src = "function greet(name) { const msg = 'hi ' + name; console.log(msg); }";
    assert_eq!(
        transpile_js_to_rust(src, SourceLang::JavaScript),
        "fn greet(name) { let msg = 'hi ' + name; println!(msg); }"
    );
}

#[test]
fn leaves_unhandled_syntax_intact() {
    // `let` is already the Rust keyword (no rewrite), and array/template
    // literals are not in the starter set, so the source passes through
    // unchanged rather than being mis-transformed.
    let src = "let arr = [1, 2, 3];";
    assert_eq!(transpile_js_to_rust(src, SourceLang::JavaScript), src);
}

#[test]
fn the_order_of_the_edits_makes_no_difference() {
    let node = |start: usize, end: usize| Syntax {
        kind: "x".to_string(),
        named: true,
        field: None,
        start,
        end,
        children: vec![],
    };
    let source = "one two three";
    let mut forth = Transformer::new(source);
    forth.replace_node(&node(0, 3), "1");
    forth.replace_node(&node(8, 13), "drei");
    let mut back = Transformer::new(source);
    back.replace_node(&node(8, 13), "drei");
    back.replace_node(&node(0, 3), "1");
    assert_eq!(forth.apply(), "1 two drei");
    assert_eq!(back.apply(), "1 two drei");
    assert_eq!(Transformer::new(source).apply(), source);
}
