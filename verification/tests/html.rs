use helix::runtime::html::{
    decode_html_bytes, document_of, is_parseable, parse_html, parse_html_bytes, root_element,
    root_element_name, scan_charset, sniff_encoding, HtmlData, HtmlDocument, HtmlItem,
};

/// All element local names in document order (depth-first, pre-order).
fn tags(dom: &HtmlDocument) -> Vec<String> {
    dom.nodes
        .iter()
        .filter_map(|(_, d)| match d {
            HtmlData::Tag(name, _, _) => Some(name.clone()),
            HtmlData::Run(_) => None,
        })
        .collect()
}

/// All non-whitespace text content in document order.
fn text(dom: &HtmlDocument) -> Vec<String> {
    let mut out = Vec::new();
    for (_, d) in &dom.nodes {
        if let HtmlData::Run(t) = d {
            let trimmed: String = t.split_whitespace().collect();
            if !trimmed.is_empty() {
                out.push(trimmed);
            }
        }
    }
    out
}

fn find_attr(dom: &HtmlDocument, name: &str) -> Option<String> {
    dom.nodes.iter().find_map(|(_, d)| match d {
        HtmlData::Tag(_, _, attrs) => {
            attrs.iter().find(|(n, _)| n == name).map(|(_, v)| v.clone())
        }
        HtmlData::Run(_) => None,
    })
}

#[test]
fn parses_minimal_document() {
    let dom = parse_html("<html><body><p>hi</p></body></html>");
    let name = root_element_name(&dom).expect("root element");
    assert_eq!(name, "html");
    assert_eq!(root_element(&dom), Some(0));
}

#[test]
fn parses_nested_elements_and_text() {
    let dom = parse_html("<html><body><h1>Title</h1><p>Hello <b>world</b></p></body></html>");
    assert_eq!(tags(&dom), vec!["html", "head", "body", "h1", "p", "b"]);
    assert_eq!(text(&dom), vec!["Title", "Hello", "world"]);
}

#[test]
fn nodes_carry_their_depth() {
    let dom = parse_html("<html><body><p>a<b>c</b></p></body></html>");
    let depths: Vec<usize> = dom.nodes.iter().map(|n| n.0 - dom.nodes[0].0).collect();
    assert_eq!(depths, vec![0, 1, 1, 2, 3, 3, 4]);
}

#[test]
fn recovers_from_unclosed_tags() {
    // Missing closing </p> and </body>: html5ever recovers by closing open
    // elements at end-of-input, so the tree is still well-formed (not a panic).
    let dom = parse_html("<html><body><div>orphan text<p>unclosed");
    assert_eq!(tags(&dom), vec!["html", "head", "body", "div", "p"]);
    assert_eq!(text(&dom), vec!["orphantext", "unclosed"]);
}

#[test]
fn parses_attributes() {
    let dom =
        parse_html(r#"<html><body><a href="https://x.test" class="link">go</a></body></html>"#);
    let tags = tags(&dom);
    assert_eq!(tags, vec!["html", "head", "body", "a"]);
    let href = find_attr(&dom, "href").expect("href attr");
    assert_eq!(href, "https://x.test");
    assert_eq!(find_attr(&dom, "class"), Some("link".to_string()));
}

#[test]
fn ignores_doctype_and_comments() {
    // Doctype and comments are non-element nodes and must not appear as tags.
    let dom =
        parse_html("<!doctype html><!-- a comment --><html><body><p>real</p></body></html>");
    assert_eq!(tags(&dom), vec!["html", "head", "body", "p"]);
    assert_eq!(text(&dom), vec!["real"]);
}

#[test]
fn handles_void_and_self_closing_elements() {
    let dom = parse_html(
        r#"<html><body><img src="a.png"/><br><input type="text" value="x"></body></html>"#,
    );
    assert_eq!(
        tags(&dom),
        vec!["html", "head", "body", "img", "br", "input"]
    );
}

/// UTF-8 input (with a leading BOM) must decode and parse normally.
#[test]
fn detects_utf8_with_bom() {
    let bom = [0xEFu8, 0xBB, 0xBF];
    let mut bytes = bom.to_vec();
    bytes.extend_from_slice(b"<html><body><p>caf\xc3\xa9</p></body></html>");
    let dom = parse_html_bytes(&bytes).unwrap();
    assert_eq!(text(&dom), vec!["café"]);
}

/// Raw windows-1252 bytes (no meta, no BOM) decode via the HTML default
/// encoding: the high byte 0xE9 maps to U+00E9 (é), not the UTF-8 sequence.
#[test]
fn detects_windows_1252_default() {
    let mut bytes = b"<html><body><p>caf".to_vec();
    bytes.push(0xE9); // é in windows-1252
    bytes.extend_from_slice(b"</p></body></html>");
    let dom = parse_html_bytes(&bytes).unwrap();
    assert_eq!(text(&dom), vec!["café"]);
}

/// A leading UTF-16LE BOM selects UTF-16 decoding.
#[test]
fn detects_utf16le_via_bom() {
    let mut bytes = vec![0xFFu8, 0xFE]; // UTF-16LE BOM
    for unit in "<html><body><p>naïve</p></body></html>".encode_utf16() {
        bytes.extend_from_slice(&unit.to_le_bytes());
    }
    let dom = parse_html_bytes(&bytes).unwrap();
    assert_eq!(text(&dom), vec!["naïve"]);
}

/// A `<meta charset>` declaration overrides the default decoding, so the
/// same high bytes are read as ISO-8859-1 rather than windows-1252.
#[test]
fn meta_charset_overrides_default() {
    let mut bytes =
        b"<html><head><meta charset=\"iso-8859-1\"></head><body><p>caf".to_vec();
    bytes.push(0xE9); // é in iso-8859-1
    bytes.extend_from_slice(b"</p></body></html>");
    let dom = parse_html_bytes(&bytes).unwrap();
    assert_eq!(text(&dom), vec!["café"]);
}

#[test]
fn a_byte_order_mark_wins_over_meta() {
    let mut bytes = vec![0xEFu8, 0xBB, 0xBF];
    bytes.extend_from_slice(b"<meta charset=\"windows-1252\">caf\xc3\xa9");
    assert_eq!(sniff_encoding(&bytes), "utf-8");
    assert!(decode_html_bytes(&bytes).ends_with("café"));
    assert_eq!(scan_charset("<meta charset=utf-8>"), Some("utf-8".to_string()));
    assert_eq!(scan_charset("<p>no declaration</p>"), None);
}

#[test]
fn only_elements_and_text_are_kept() {
    let items = vec![
        (0, HtmlItem::Other),
        (1, HtmlItem::Tag("p".to_string(), "ns".to_string(), vec![])),
        (2, HtmlItem::Other),
        (2, HtmlItem::Run("x".to_string())),
    ];
    assert_eq!(
        document_of(items).nodes,
        vec![
            (1, HtmlData::Tag("p".to_string(), "ns".to_string(), vec![])),
            (2, HtmlData::Run("x".to_string())),
        ]
    );
}

#[test]
fn null_characters_are_read() {
    assert!(is_parseable("<p>\0</p>"));
    let dom = parse_html("<p a='\0'>x</p>");
    assert!(dom.nodes.iter().any(|(_, d)| matches!(
        d,
        HtmlData::Tag(n, _, attrs) if n == "p" && attrs == &vec![("a".to_string(), "\u{fffd}".to_string())]
    )));
}
