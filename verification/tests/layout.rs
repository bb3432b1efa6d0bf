use helix::runtime::css::StyleRule;
use helix::runtime::layout::{
    apply_declarations, matched_rules, number, resolve_style, BoxStyle, Dimension, Display, MatchedRule,
};

fn plain() -> BoxStyle {
    BoxStyle { display: Display::Block, width: Dimension::Auto, height: Dimension::Auto }
}

fn rule(specificity: u32, index: usize, css: &str) -> MatchedRule {
    MatchedRule { specificity, index, declarations_css: css.to_string() }
}

#[test]
fn declarations_set_display_and_size() {
    let mut s = plain();
    apply_declarations(&mut s, "display: flex; width: 50%; height: 20px; color: red");
    assert_eq!(s.display, Display::Flex);
    assert_eq!(s.width, Dimension::Percent("50".into()));
    assert_eq!(s.height, Dimension::Px("20".into()));
    apply_declarations(&mut s, "display: none; width: auto; height: tall");
    assert_eq!(s.display, Display::Hidden);
    assert_eq!(s.width, Dimension::Auto);
    assert_eq!(s.height, Dimension::Px("20".into()));
}

#[test]
fn the_cascade_orders_by_specificity_then_source() {
    let rules = vec![
        rule(10, 0, "width: 1px"),
        rule(1, 2, "width: 2px; display: grid"),
        rule(10, 1, "height: 4px"),
        rule(1, 1, "display: flex; height: 3px"),
    ];
    let s = resolve_style(&rules);
    assert_eq!(s.width, Dimension::Px("1".into()));
    assert_eq!(s.display, Display::Grid);
    assert_eq!(s.height, Dimension::Px("4".into()));
    assert_eq!(resolve_style(&vec![]), plain());
}

#[test]
fn numbers_are_told_from_other_text() {
    for ok in ["1", "-1.5", "+.5", "5.", "1e3", "1E-3", "inf", "NaN"] {
        assert!(number(&ok.chars().collect::<Vec<char>>()), "{}", ok);
        assert!(ok.parse::<f32>().is_ok());
    }
    for bad in ["", ".", "-", "1e", "1 2", "px", "e5", "--1"] {
        assert!(!number(&bad.chars().collect::<Vec<char>>()), "{}", bad);
        assert!(bad.parse::<f32>().is_err());
    }
}

#[test]
fn a_rule_matches_by_any_selector_and_weighs_as_its_most_specific() {
    let rules = vec![
        StyleRule { selectors_css: "a, #x".into(), declarations_css: "width: 1px".into() },
        StyleRule { selectors_css: "b".into(), declarations_css: "width: 2px".into() },
        StyleRule { selectors_css: "a".into(), declarations_css: "width: 3px".into() },
    ];
    let answers = vec![vec![(true, 1), (false, 100)], vec![(false, 1)], vec![(true, 1)]];
    let matched = matched_rules(&rules, &answers);
    assert_eq!(matched, vec![rule(100, 0, "width: 1px"), rule(1, 2, "width: 3px")]);
    assert_eq!(resolve_style(&matched).width, Dimension::Px("1".into()));
}
