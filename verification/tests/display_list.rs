use helix::runtime::display_list::{background_color, paint_order, Color};
use helix::runtime::html::{parse_html, HtmlData};

#[test]
fn parses_css_colors() {
    assert_eq!(
        Color::parse_css("#ff0000"),
        Some(Color { r: 255, g: 0, b: 0, a: 255 })
    );
    assert_eq!(
        Color::parse_css("#0f0"),
        Some(Color { r: 0, g: 255, b: 0, a: 255 })
    );
    assert_eq!(
        Color::parse_css("red"),
        Some(Color { r: 255, g: 0, b: 0, a: 255 })
    );
    assert_eq!(Color::parse_css("not-a-color"), None);
}

#[test]
fn the_last_background_wins() {
    let blocks = vec![
        "background-color: red; width: 1px".to_string(),
        "background-color: #00ff00".to_string(),
        "color: blue".to_string(),
    ];
    assert_eq!(background_color(&blocks), Some(Color { r: 0, g: 255, b: 0, a: 255 }));
    assert_eq!(background_color(&vec![]), None);
}

#[test]
fn only_colored_boxes_are_painted_in_document_order() {
    let dom = parse_html("<html><body><div></div><p>x</p></body></html>");
    let red = Color { r: 255, g: 0, b: 0, a: 255 };
    let blue = Color { r: 0, g: 0, b: 255, a: 255 };
    let colors: Vec<Option<Color>> = dom
        .nodes
        .iter()
        .map(|(_, d)| match d {
            HtmlData::Tag(n, _, _) if n == "div" => Some(red),
            HtmlData::Tag(n, _, _) if n == "p" => Some(blue),
            _ => None,
        })
        .collect();
    let painted: Vec<Color> = paint_order(&dom, &colors).into_iter().map(|x| x.1).collect();
    assert_eq!(painted, vec![red, blue]);
}

#[test]
fn colors_are_read_by_their_bytes() {
    assert_eq!(Color::parse_css("#1A2b3C"), Some(Color { r: 0x1a, g: 0x2b, b: 0x3c, a: 255 }));
    assert_eq!(Color::parse_css("rgb(1, 2, 3)"), Some(Color { r: 1, g: 2, b: 3, a: 255 }));
    assert_eq!(Color::parse_css("transparent"), Some(Color { r: 0, g: 0, b: 0, a: 0 }));
    assert_eq!(Color::parse_css("currentColor"), None);
    let deep = format!("rgb({}1{}, 2, 3)", "calc(".repeat(100_000), ")".repeat(100_000));
    assert_eq!(Color::parse_css(&deep), None);
}

#[test]
fn a_value_that_is_no_color_changes_nothing() {
    let blocks = vec![
        "background-color: #00ff00".to_string(),
        "background-color: nonsense".to_string(),
    ];
    assert_eq!(background_color(&blocks), Some(Color { r: 0, g: 255, b: 0, a: 255 }));
}
