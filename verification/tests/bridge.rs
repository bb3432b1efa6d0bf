use helix::appfront::css::{
    extract_style_blocks, merge_props, parse_color, parse_inline, parse_stylesheet,
    resolve_element_props, selector_matches, DisplayKind, FlexDir, Length, Selector, StyleProps,
};
use helix::appfront::layout::{element_style, Extent, HelixDocument, PlanKind, PlanNode};

fn plan(source: &str) -> Vec<PlanNode> {
    HelixDocument::parse(source).build().unwrap().nodes
}

fn filled(nodes: &[PlanNode], c: [u8; 4]) -> usize {
    nodes
        .iter()
        .filter(|n| matches!(&n.kind, PlanKind::Element(_, p) if p.background == Some(c)))
        .count()
}

fn px(t: &str) -> Option<Length> {
    Some(Length::Px(t.to_string()))
}

#[test]
fn static_html_plans_boxes_and_text() {
    let nodes = plan(
        r#"<html><body>
             <div style="background:#ff0000; width:100px; height:40px;"></div>
             <p>Hello</p>
           </body></html>"#,
    );
    assert_eq!(filled(&nodes, [255, 0, 0, 255]), 1);
    assert!(nodes.iter().any(|n| n.kind == PlanKind::Text("Hello".to_string())));
}

#[test]
fn stylesheet_rules_color_matching_elements() {
    let nodes = plan(
        r#"<style>.card { background:#123456; }</style>
           <div class="card" style="width:50px; height:20px;"></div>"#,
    );
    assert_eq!(filled(&nodes, [0x12, 0x34, 0x56, 255]), 1);
}

#[test]
fn border_and_radius_are_planned() {
    let nodes = plan(
        r#"<div style="background:#ffffff; width:80px; height:40px; border:3px solid #000000; border-radius:6px;"></div>"#,
    );
    let paint = nodes
        .iter()
        .find_map(|n| match &n.kind {
            PlanKind::Element(_, p) if p.background == Some([255, 255, 255, 255]) => Some(p.clone()),
            _ => None,
        })
        .expect("white box present");
    assert_eq!(paint.border_width, px("3"));
    assert_eq!(paint.border_color, Some([0, 0, 0, 255]));
    assert_eq!(paint.radius, px("6"));
}

#[test]
fn tree_has_at_least_root_and_one_node() {
    let doc = HelixDocument::parse(r#"<p>x</p>"#);
    let built = doc.build().unwrap();
    assert!(built.node_count() >= 2, "root + content node");
    assert_eq!(built.node_count(), built.nodes.len() + 1);
}

#[test]
fn text_inherits_the_nearest_color() {
    let nodes = plan(
        r#"<div style="color:#010203">a<p style="color:red">b</p><b>c</b></div><i>d</i>"#,
    );
    let color = |t: &str| {
        nodes
            .iter()
            .find(|n| n.kind == PlanKind::Text(t.to_string()))
            .map(|n| n.color)
            .unwrap()
    };
    assert_eq!(color("a"), [1, 2, 3, 255]);
    assert_eq!(color("b"), [220, 50, 47, 255]);
    assert_eq!(color("c"), [1, 2, 3, 255]);
    assert_eq!(color("d"), [0, 0, 0, 255]);
}

#[test]
fn colors_are_parsed() {
    assert_eq!(parse_color(" #F0a "), Some([255, 0, 170, 255]));
    assert_eq!(parse_color("#102030"), Some([16, 32, 48, 255]));
    assert_eq!(parse_color("#+f0000"), Some([15, 0, 0, 255]));
    assert_eq!(parse_color("LightGrey"), Some([200, 200, 200, 255]));
    for bad in ["", "transparent", "#12", "#ggg", "mauve", "#é1234"] {
        assert_eq!(parse_color(bad), None, "{}", bad);
    }
}

#[test]
fn inline_declarations_are_parsed() {
    let p = parse_inline(
        "Display: flex; flex-direction: column; width: 50 %; height: 10pxpx; padding: auto; margin: -2; font-size: 1.5em; border: solid",
    );
    assert_eq!(p.display, Some(DisplayKind::Flex));
    assert_eq!(p.flex_direction, Some(FlexDir::Column));
    assert_eq!(p.width, Some(Length::Percent("50".into())));
    assert_eq!(p.height, px("10"));
    assert_eq!(p.padding, None);
    assert_eq!(p.margin, px("-2"));
    assert_eq!(p.font_size, None);
    assert_eq!(p.border_color, None);
}

#[test]
fn a_later_meaningless_value_unsets_a_property() {
    assert_eq!(parse_inline("width: 5px; width: wide").width, None);
    assert_eq!(parse_inline("display: block; display: inline").display, None);
}

#[test]
fn borders_take_lengths_that_are_not_negative() {
    let width = |t: &str| parse_inline(&format!("border: {} red", t)).border_width;
    assert_eq!(width("2px"), px("2"));
    assert_eq!(width("-2px"), px("1"));
    assert_eq!(width("-0.0px"), px("-0.0"));
    assert_eq!(width("nan"), px("1"));
    assert_eq!(width("5%"), px("1"));
    assert_eq!(width("0%"), Some(Length::Percent("0".into())));
    assert_eq!(width("dashed"), px("1"));
}

#[test]
fn stylesheets_list_rules_in_order() {
    let rules = parse_stylesheet("DIV, .a , { color: red } * { width: 1px } junk }");
    let sels: Vec<Selector> = rules.iter().map(|r| r.0.clone()).collect();
    assert_eq!(
        sels,
        vec![
            Selector::Tag("div".into()),
            Selector::Class("a".into()),
            Selector::Universal
        ]
    );
    assert_eq!(rules[1].1.color, Some([220, 50, 47, 255]));
}

#[test]
fn style_blocks_are_collected() {
    assert_eq!(
        extract_style_blocks("<style>a</style>x<style media=y>b</style><style>c"),
        "a\nb\n"
    );
    assert_eq!(extract_style_blocks("<p>none</p>"), "");
}

#[test]
fn selectors_match_tags_and_classes() {
    let classes = vec!["a".to_string(), "b".to_string()];
    assert!(selector_matches(&Selector::Universal, "p", &classes));
    assert!(selector_matches(&Selector::Tag("p".into()), "p", &classes));
    assert!(!selector_matches(&Selector::Tag("p".into()), "div", &classes));
    assert!(selector_matches(&Selector::Class("b".into()), "p", &classes));
    assert!(!selector_matches(&Selector::Class("c".into()), "p", &classes));
}

#[test]
fn later_rules_win_and_inline_overrides_everything() {
    let sheet = parse_stylesheet("p { width: 1px; height: 1px; margin: 1px } .x { width: 2px; height: 2px } i { width: 9px }");
    let p = resolve_element_props("p", &["x".to_string()], &sheet, "width: 3px");
    assert_eq!((p.width, p.height, p.margin), (px("3"), px("2"), px("1")));
    assert_eq!(merge_props(&[]), StyleProps::default());
}

#[test]
fn boxes_follow_display_and_tag() {
    let none = StyleProps::default();
    let block = element_style(&none, true);
    assert!(!block.flex);
    assert_eq!((block.width, block.height), (Extent::Full, Extent::Auto));
    let inline = element_style(&none, false);
    assert!(inline.flex);
    assert_eq!(inline.width, Extent::Auto);
    let grid = element_style(&parse_inline("display: grid; width: 5px"), true);
    assert!(grid.flex);
    assert_eq!(grid.width, Extent::Given(Length::Px("5".into())));
}
