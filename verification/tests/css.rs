use helix::runtime::css::{parse_stylesheet, rules_from, supported_rules, DomElement, Listed};
use helix::runtime::nesting::is_shallow;
use helix::runtime::html::{parse_html, HtmlData, HtmlDocument};

fn find<'a>(dom: &'a HtmlDocument, tag: &str) -> DomElement<'a> {
    let node = dom
        .nodes
        .iter()
        .position(|(_, d)| matches!(d, HtmlData::Tag(name, _, _) if name == tag))
        .expect("an element");
    DomElement { document: dom, node }
}

#[test]
fn parses_stylesheet_rules() {
    let rules = parse_stylesheet("div.card { color: red; } #main p { color: blue; }");
    assert_eq!(rules.len(), 2);
}

#[test]
fn rules_keep_selectors_and_declarations() {
    let rules = parse_stylesheet("div.card { width: 10px; }");
    assert_eq!(rules[0].selectors_css, "div.card");
    assert!(rules[0].declarations_css.contains("width"));
    assert!(rules[0].declarations_css.contains("10px"));
}

#[test]
fn malformed_css_yields_no_rules() {
    // Unbalanced braces / garbage must degrade to no rules, not panic.
    assert!(parse_stylesheet("{ color: red;;; @@@ not css {").is_empty());
    assert!(parse_stylesheet("div { color: }").is_empty());
}

#[test]
fn elements_answer_what_selectors_ask() {
    let dom = parse_html(
        r#"<html><body><div id="main" class="card wide"><p>a</p><a href="x">b</a></div></body></html>"#,
    );
    let div = find(&dom, "div");
    assert!(div.has_local_name("div"));
    assert!(div.has_class("card", false));
    assert!(div.has_class("WIDE", true));
    assert!(!div.has_class("WIDE", false));
    assert!(!div.has_class("car", false));
    assert!(div.has_id("main", false));
    assert!(!div.has_id("other", false));
    assert_eq!(div.attr("class").map(|s| s.as_str()), Some("card wide"));
    assert!(div.attr("style").is_none());
    assert!(!div.is_link());
    assert!(find(&dom, "a").is_link());
    assert!(!div.is_empty());
    assert!(find(&dom, "head").is_empty());
}

#[test]
fn element_relations_fit() {
    let dom = parse_html("<html><body><ul><li>a</li><li>b</li></ul></body></html>");
    let ul = find(&dom, "ul");
    let first = ul.first_element_child().unwrap();
    let second = first.next_sibling_element().unwrap();
    assert!(second.next_sibling_element().is_none());
    assert_eq!(second.prev_sibling_element().unwrap().node, first.node);
    assert!(first.prev_sibling_element().is_none());
    assert_eq!(first.parent_element().unwrap().node, ul.node);
    assert_eq!(ul.element_children(), vec![first.node, second.node]);
    assert!(first.is_same_type(&second));
    assert!(!first.is_same_type(&ul));
    assert!(find(&dom, "html").is_root());
    assert!(!ul.is_root());
    assert!(find(&dom, "html").parent_element().is_none());
}

#[test]
fn rules_that_give_no_value_are_left_out() {
    let style = |s: &str, d: &str| Listed::Style(s.to_string(), d.to_string());
    let listed = Ok(vec![
        style("a", "color: "),
        Listed::Other,
        style("b", "color: ; width: 1px"),
        style("i", ""),
    ]);
    let kept: Vec<String> = rules_from(&listed).into_iter().map(|r| r.selectors_css).collect();
    assert_eq!(kept, vec!["b", "i"]);
    assert!(rules_from(&Err(())).is_empty());
}

#[test]
fn rules_of_other_kinds_are_left_out() {
    let rules = parse_stylesheet("@media print { p { width: 1px } } b { width: 2px }");
    assert_eq!(rules.len(), 1);
    assert_eq!(rules[0].selectors_css, "b");
    assert_eq!(rules[0].declarations_css, "width: 2px");
}

#[test]
fn deeply_nested_text_is_not_parsed() {
    let deep = |n: usize| format!("a {{ width: {}1px{} }}", "calc(".repeat(n), ")".repeat(n));
    assert!(is_shallow(&deep(11)));
    assert!(!is_shallow(&deep(12)));
    assert!(parse_stylesheet(&deep(100_000)).is_empty());
    assert_eq!(parse_stylesheet(&deep(10)).len(), 1);
    assert!(!is_shallow(&"{".repeat(100_000)));
    assert!(!is_shallow(&format!("a {{ width: calc({}1px) }}", "min(1px,2em) + ".repeat(200))));
    // Brackets in comments, strings and addresses do not nest.
    let many = "(".repeat(1000);
    assert!(is_shallow(&format!("/* {many} */ a {{ content: \"{many}\" }}")));
    assert!(is_shallow("a { background: url(x.png) } b { background: url( 'y(.png' ) }"));
    assert!(!is_shallow("a { background: url(x(y.png) }"));
    assert!(!is_shallow("a { width: \\63 alc(1px) }"));
    // Each declaration starts anew.
    assert!(is_shallow(&"a { width: calc(1px) } ".repeat(1000)));
}

#[test]
fn a_custom_property_may_be_empty() {
    let style = |s: &str, d: &str| Listed::Style(s.to_string(), d.to_string());
    let listed = Ok(vec![style(":root", "--x: "), style("a", "color: ")]);
    let kept: Vec<String> = rules_from(&listed).into_iter().map(|r| r.selectors_css).collect();
    assert_eq!(kept, vec![":root"]);
    assert_eq!(parse_stylesheet(":root { --x: ; }").len(), 1);
}

#[test]
fn rules_with_unsupported_selectors_are_discarded() {
    let rules = parse_stylesheet("a { width: 1px } a:hover { width: 2px } b { width: 3px }");
    assert_eq!(rules.len(), 3);
    let kept = supported_rules(&rules, &vec![true, false, true]);
    let selectors: Vec<&str> = kept.iter().map(|r| r.selectors_css.as_str()).collect();
    assert_eq!(selectors, vec!["a", "b"]);
}
