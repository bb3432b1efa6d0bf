//! HTML5 documents: character encoding sniffing, and the parsed document as a list of nodes.
use crate::strings::{
    blank, chars_of, find_from, is_blank, lemma_find_from, lossy_text, lower_seq, search,
    slice_string, text_lossy, to_lower,
};
use html5ever::parse_document;
use html5ever::tendril::TendrilSink;
use markup5ever_rcdom::NodeData::{Element, Text};
use markup5ever_rcdom::RcDom;
use self::HtmlItem::{Other, Run, Tag};
use vstd::prelude::*;
use vstd::string::*;
use vstd::utf8::encode_utf8;

verus! {

/// The longest source without null characters, in bytes, that can be parsed. The parser keeps a run
/// of text in at most `2^31` bytes, and a character reference of five bytes can stand for six.
pub const MAX_SOURCE: usize = 0x6666_6666;

/// The longest source with null characters, in bytes, that can be parsed: each of them can become a
/// replacement character of three bytes.
pub const MAX_WITH_NULLS: usize = 0x2AAA_AAAA;

/// Whether a source is short enough to be parsed.
pub open spec fn parseable(source: Seq<char>) -> bool {
    let n = encode_utf8(source).len();
    n <= MAX_WITH_NULLS || (n <= MAX_SOURCE && !source.contains('\0'))
}

/// Whether a source is short enough to be parsed.
pub fn is_parseable(source: &str) -> (b: bool)
    ensures
        b == parseable(source@),
{
    let n = source.as_bytes().len();
    if n <= MAX_WITH_NULLS {
        return true;
    }
    if n > MAX_SOURCE {
        return false;
    }
    let v = chars_of(source);
    let mut i: usize = 0;
    while i < v.len()
        invariant
            0 <= i <= v@.len(),
            v@ == source@,
            n == encode_utf8(source@).len(),
            n > MAX_WITH_NULLS,
            forall|k: int| 0 <= k < i ==> v@[k] != '\0',
        decreases v@.len() - i,
    {
        if v[i] == '\0' {
            return false;
        }
        i = i + 1;
    }
    true
}

/// What a node is: an element with its name, its namespace and its attributes, or a run of text.
#[derive(Debug, Clone, PartialEq, Eq)]
pub enum HtmlData {
    Tag(String, String, Vec<(String, String)>),
    Run(String),
}

/// The mathematical form of a node's data.
pub enum DataView {
    Tag { name: Seq<char>, ns: Seq<char>, attrs: Seq<(Seq<char>, Seq<char>)> },
    Run(Seq<char>),
}

impl DeepView for HtmlData {
    type V = DataView;

    open spec fn deep_view(&self) -> DataView {
        match *self {
            HtmlData::Tag(name, ns, attrs) => DataView::Tag {
                name: name@,
                ns: ns@,
                attrs: attrs.deep_view(),
            },
            HtmlData::Run(t) => DataView::Run(t@),
        }
    }
}

/// How deep a node stands, and what it is.
pub type NodeView = (usize, DataView);

/// A parsed document: its elements and runs of text in document order, parents before children,
/// each with its depth.
#[derive(Debug, Clone, PartialEq, Eq)]
pub struct HtmlDocument {
    pub nodes: Vec<(usize, HtmlData)>,
}

impl View for HtmlDocument {
    type V = Seq<NodeView>;

    open spec fn view(&self) -> Seq<NodeView> {
        self.nodes.deep_view()
    }
}

/// A node of a tree: an element with its name, its namespace and its attributes, a run of text, or
/// anything else (the document itself, a doctype, a comment, a processing instruction).
#[derive(Debug, Clone, PartialEq, Eq)]
pub enum HtmlItem {
    Tag(String, String, Vec<(String, String)>),
    Run(String),
    Other,
}

impl DeepView for HtmlItem {
    type V = Option<DataView>;

    open spec fn deep_view(&self) -> Option<DataView> {
        match *self {
            HtmlItem::Tag(name, ns, attrs) => Some(
                DataView::Tag { name: name@, ns: ns@, attrs: attrs.deep_view() },
            ),
            HtmlItem::Run(t) => Some(DataView::Run(t@)),
            HtmlItem::Other => None,
        }
    }
}

/// The tree that the HTML5 parsing algorithm builds of a source, in document order: how deep each
/// node stands and what it is, where it is an element or a run of text.
pub uninterp spec fn html_tree(source: Seq<char>) -> Seq<(usize, Option<DataView>)>;

/// `html5ever::parse_document` into a `markup5ever_rcdom::RcDom`, its tree walked from the root in
/// document order, each node one level below its parent. The tree depends on the source alone; the
/// contents of `template` elements are not part of it.
#[verifier::external_body]
fn list_html(source: &str) -> (r: Vec<(usize, HtmlItem)>)
    requires
        parseable(source@),
    ensures
        r.deep_view() == html_tree(source@),
{
    let mut open = vec![(0, parse_document(RcDom::default(), Default::default()).one(source).document)];
    let mut out = vec![];
    while let Some((depth, h)) = open.pop() {
        while let Some(c) = h.children.borrow_mut().pop() { open.push((depth + 1, c)) }
        out.push((depth, match &h.data {
            Element { name, attrs, .. } => Tag(name.local.to_string(), name.ns.to_string(), attrs.take().into_iter().map(|a| (a.name.local.to_string(), a.value.to_string())).collect()),
            Text { contents } => Run(contents.take().to_string()),
            _ => Other
        }))
    }
    out
}

/// The elements and runs of text of a tree, in order.
pub open spec fn kept(tree: Seq<(usize, Option<DataView>)>) -> Seq<NodeView>
    decreases tree.len(),
{
    if tree.len() == 0 {
        Seq::empty()
    } else {
        let front = kept(tree.drop_last());
        match tree.last().1 {
            Some(d) => front.push((tree.last().0, d)),
            None => front,
        }
    }
}

/// The elements and runs of text of a source, in document order.
pub open spec fn html_listing(source: Seq<char>) -> Seq<NodeView> {
    kept(html_tree(source))
}

/// The document of a tree: its elements and runs of text. Doctypes, comments and processing
/// instructions are passed over.
pub fn document_of(items: Vec<(usize, HtmlItem)>) -> (d: HtmlDocument)
    ensures
        d@ == kept(items.deep_view()),
{
    let ghost iv = items.deep_view();
    let mut nodes: Vec<(usize, HtmlData)> = Vec::new();
    let mut i: usize = 0;
    assert(iv.take(0) =~= Seq::<(usize, Option<DataView>)>::empty());
    assert(nodes.deep_view() =~= kept(iv.take(0)));
    while i < items.len()
        invariant
            0 <= i <= items@.len(),
            iv == items.deep_view(),
            nodes.deep_view() == kept(iv.take(i as int)),
        decreases items@.len() - i,
    {
        assert(iv.take(i + 1).drop_last() =~= iv.take(i as int));
        assert(iv.take(i + 1).last() == items@[i as int].deep_view());
        let depth = items[i].0;
        let data = match &items[i].1 {
            HtmlItem::Tag(name, ns, attrs) => Some(
                HtmlData::Tag(name.clone(), ns.clone(), copy_attrs(attrs)),
            ),
            HtmlItem::Run(t) => Some(HtmlData::Run(t.clone())),
            HtmlItem::Other => None,
        };
        if let Some(x) = data {
            let ghost was = nodes.deep_view();
            let ghost dv = x.deep_view();
            nodes.push((depth, x));
            assert(nodes.deep_view() =~= was.push((depth, dv)));
        }
        i = i + 1;
    }
    assert(iv.take(iv.len() as int) =~= iv);
    HtmlDocument { nodes }
}

fn copy_attrs(attrs: &Vec<(String, String)>) -> (r: Vec<(String, String)>)
    ensures
        r.deep_view() == attrs.deep_view(),
{
    let mut out: Vec<(String, String)> = Vec::new();
    let mut i: usize = 0;
    while i < attrs.len()
        invariant
            0 <= i <= attrs@.len(),
            out@.len() == i,
            forall|k: int| 0 <= k < i ==> (#[trigger] out@[k]).deep_view() == attrs@[k].deep_view(),
        decreases attrs@.len() - i,
    {
        out.push((attrs[i].0.clone(), attrs[i].1.clone()));
        i = i + 1;
    }
    assert(out.deep_view() =~= attrs.deep_view());
    out
}

/// Parses a UTF-8 HTML5 document string into its nodes.
pub fn parse_html(source: &str) -> (d: HtmlDocument)
    requires
        parseable(source@),
    ensures
        d@ == html_listing(source@),
{
    document_of(list_html(source))
}

/// The text that bytes stand for in the encoding with a label, where there is such an encoding.
pub uninterp spec fn decoded(source: Seq<u8>, label: Seq<char>) -> Option<Seq<char>>;

/// `encoding_rs::Encoding::for_label`, then `decode_without_bom_handling` with that encoding:
/// malformed sequences become replacement characters. The result depends on the bytes and the label
/// alone; the labels of the encodings that are sniffed are known ones.
#[verifier::external_body]
fn decode_as(source: &[u8], label: &str) -> (r: Option<String>)
    ensures
        r.deep_view() == decoded(source@, label@),
        label@ == "utf-8"@ || label@ == "utf-16le"@ || label@ == "utf-16be"@ || label@
            == "windows-1252"@ ==> r is Some,
{
    let encoding = encoding_rs::Encoding::for_label(label.as_bytes())?;
    Some(encoding.decode_without_bom_handling(source).0.into_owned())
}

/// Space and tab.
pub open spec fn gap(c: char) -> bool {
    c == ' ' || c == '\t'
}

/// What ends a label: white space, the end of the tag, or a quote.
pub open spec fn label_end(s: Seq<char>, i: int) -> int
    decreases s.len() - i,
{
    if 0 <= i < s.len() && !blank(s[i]) && s[i] != '>' && s[i] != '"' && s[i] != '\'' {
        label_end(s, i + 1)
    } else {
        i
    }
}

/// The first character from a position on that is neither space nor tab.
pub open spec fn past_gaps(s: Seq<char>, i: int) -> int
    decreases s.len() - i,
{
    if 0 <= i < s.len() && gap(s[i]) {
        past_gaps(s, i + 1)
    } else {
        i
    }
}

/// The label of a declaration whose name ends at a position: after an equals sign, and a quote if
/// there is one; where any.
pub open spec fn label_after(s: Seq<char>, i: int) -> Option<Seq<char>> {
    let eq = past_gaps(s, i);
    if eq < s.len() && s[eq] == '=' {
        let v = past_gaps(s, eq + 1);
        let from = if v < s.len() && (s[v] == '"' || s[v] == '\'') {
            v + 1
        } else {
            v
        };
        let to = label_end(s, from);
        if to > from {
            Some(s.subrange(from, to))
        } else {
            None
        }
    } else {
        None
    }
}

/// The first label that a `charset` declaration gives, from a position on.
pub open spec fn charset_from(s: Seq<char>, i: int) -> Option<Seq<char>>
    decreases s.len() - i,
{
    if i < 0 {
        None
    } else {
        match find_from(lower_seq(s), "charset"@, i) {
            None => None,
            Some(at) => if at < i || at + 7 > s.len() {
                None
            } else {
                match label_after(s, at + 7) {
                    Some(l) => Some(l),
                    None => charset_from(s, at + 7),
                }
            },
        }
    }
}

fn scan_gaps(v: &[char], from: usize) -> (i: usize)
    requires
        from <= v@.len(),
    ensures
        i == past_gaps(v@, from as int),
        from <= i <= v@.len(),
{
    let mut i: usize = from;
    while i < v.len() && (v[i] == ' ' || v[i] == '\t')
        invariant
            from <= i <= v@.len(),
            past_gaps(v@, from as int) == past_gaps(v@, i as int),
        decreases v@.len() - i,
    {
        i = i + 1;
    }
    i
}

fn scan_label(v: &[char], from: usize) -> (i: usize)
    requires
        from <= v@.len(),
    ensures
        i == label_end(v@, from as int),
        from <= i <= v@.len(),
{
    let mut i: usize = from;
    while i < v.len() && !is_blank(v[i]) && v[i] != '>' && v[i] != '"' && v[i] != '\''
        invariant
            from <= i <= v@.len(),
            label_end(v@, from as int) == label_end(v@, i as int),
        decreases v@.len() - i,
    {
        i = i + 1;
    }
    i
}

fn read_label(v: &[char], i: usize) -> (r: Option<String>)
    requires
        i <= v@.len(),
    ensures
        r.deep_view() == label_after(v@, i as int),
{
    let n = v.len();
    let eq = scan_gaps(v, i);
    if eq < n && v[eq] == '=' {
        let q = scan_gaps(v, eq + 1);
        let from: usize = if q < n && (v[q] == '"' || v[q] == '\'') {
            q + 1
        } else {
            q
        };
        let to = scan_label(v, from);
        if to > from {
            return Some(slice_string(v, from, to));
        }
    }
    None
}

fn lowered(v: &[char]) -> (r: Vec<char>)
    ensures
        r@ == lower_seq(v@),
{
    let mut r: Vec<char> = Vec::new();
    let n = v.len();
    let mut i: usize = 0;
    while i < n
        invariant
            0 <= i <= n,
            n == v@.len(),
            r@ == lower_seq(v@).take(i as int),
        decreases n - i,
    {
        r.push(to_lower(v[i]));
        assert(lower_seq(v@).take(i + 1) =~= lower_seq(v@).take(i as int).push(
            lower_seq(v@)[i as int],
        ));
        i = i + 1;
    }
    assert(lower_seq(v@).take(n as int) =~= lower_seq(v@));
    r
}

/// The first label that a `charset` declaration in a text gives. Handles both
/// `<meta charset="...">` and `<meta http-equiv="content-type" ...>` forms.
pub fn scan_charset(text: &str) -> (r: Option<String>)
    ensures
        r.deep_view() == charset_from(text@, 0),
{
    let v = chars_of(text);
    let low = lowered(&v);
    let name = chars_of("charset");
    proof {
        reveal_strlit("charset");
    }
    let mut i: usize = 0;
    let n = v.len();
    loop
        invariant
            0 <= i <= n,
            n == v@.len(),
            v@ == text@,
            low@ == lower_seq(v@),
            low@.len() == n,
            name@ == "charset"@,
            name@.len() == 7,
            charset_from(text@, 0) == charset_from(text@, i as int),
        decreases n - i,
    {
        let at = match search(&low, &name, i) {
            Some(at) => at,
            None => {
                return None;
            },
        };
        proof {
            lemma_find_from(low@, name@, i as int);
            assert(at + 7 <= n);
        }
        if let Some(label) = read_label(&v, at + 7) {
            return Some(label);
        }
        i = at + 7;
    }
}

/// The first bytes, as far as they are searched for a declaration.
pub open spec fn head_of(source: Seq<u8>) -> Seq<u8> {
    if source.len() <= 1024 {
        source
    } else {
        source.take(1024)
    }
}

/// Whether bytes start with others.
pub open spec fn begins(source: Seq<u8>, mark: Seq<u8>) -> bool {
    source.len() >= mark.len() && source.take(mark.len() as int) == mark
}

/// The label of the encoding that bytes declare: a byte order mark, else a declaration near the
/// start, else the default.
pub open spec fn sniffed(source: Seq<u8>) -> Seq<char> {
    if begins(source, seq![0xEFu8, 0xBBu8, 0xBFu8]) {
        "utf-8"@
    } else if begins(source, seq![0xFFu8, 0xFEu8]) {
        "utf-16le"@
    } else if begins(source, seq![0xFEu8, 0xFFu8]) {
        "utf-16be"@
    } else {
        match charset_from(lossy_text(head_of(source)), 0) {
            Some(label) => label,
            None => "windows-1252"@,
        }
    }
}

/// The text of a byte stream, in the encoding that it declares; in the default encoding where it
/// declares one that does not exist.
pub open spec fn html_text(source: Seq<u8>) -> Seq<char> {
    match decoded(source, sniffed(source)) {
        Some(t) => t,
        None => decoded(source, "windows-1252"@)->0,
    }
}

fn has_prefix(source: &[u8], mark: &[u8]) -> (b: bool)
    ensures
        b == begins(source@, mark@),
{
    let n = mark.len();
    if source.len() < n {
        return false;
    }
    let mut i: usize = 0;
    while i < n
        invariant
            0 <= i <= n,
            n == mark@.len(),
            n <= source@.len(),
            source@.take(i as int) == mark@.take(i as int),
        decreases n - i,
    {
        if source[i] != mark[i] {
            assert(source@.take(n as int)[i as int] != mark@[i as int]);
            return false;
        }
        assert(source@.take(i + 1) =~= source@.take(i as int).push(source@[i as int]));
        assert(mark@.take(i + 1) =~= mark@.take(i as int).push(mark@[i as int]));
        i = i + 1;
    }
    assert(mark@.take(n as int) =~= mark@);
    true
}

/// Scan a leading slice of bytes for a `charset` declaration, returning the raw encoding label
/// (e.g. `utf-8`, `iso-8859-1`).
pub fn scan_meta_charset(head: &[u8]) -> (r: Option<String>)
    ensures
        r.deep_view() == charset_from(lossy_text(head@), 0),
{
    scan_charset(&text_lossy(head))
}

/// The label of the encoding that bytes declare.
pub fn sniff_encoding(source: &[u8]) -> (label: String)
    ensures
        label@ == sniffed(source@),
{
    let utf8 = [0xEFu8, 0xBBu8, 0xBFu8];
    let utf16le = [0xFFu8, 0xFEu8];
    let utf16be = [0xFEu8, 0xFFu8];
    assert(utf8@ =~= seq![0xEFu8, 0xBBu8, 0xBFu8]);
    assert(utf16le@ =~= seq![0xFFu8, 0xFEu8]);
    assert(utf16be@ =~= seq![0xFEu8, 0xFFu8]);
    if has_prefix(source, &utf8) {
        return String::from_str("utf-8");
    }
    if has_prefix(source, &utf16le) {
        return String::from_str("utf-16le");
    }
    if has_prefix(source, &utf16be) {
        return String::from_str("utf-16be");
    }
    let found = if source.len() <= 1024 {
        scan_meta_charset(source)
    } else {
        let head = vstd::slice::slice_subrange(source, 0, 1024);
        assert(head@ =~= source@.take(1024));
        scan_meta_charset(head)
    };
    match found {
        Some(label) => label,
        None => String::from_str("windows-1252"),
    }
}

/// Detect the character encoding of a raw HTML byte stream per the HTML standard's encoding
/// sniffing algorithm (BOM, `<meta charset>`, then the windows-1252 default) and decode it to a
/// `String`.
pub fn decode_html_bytes(source: &[u8]) -> (text: String)
    ensures
        text@ == html_text(source@),
{
    let label = sniff_encoding(source);
    match decode_as(source, &label) {
        Some(t) => t,
        None => match decode_as(source, "windows-1252") {
            Some(t) => t,
            None => label,
        },
    }
}

/// Parses an HTML5 document from raw bytes, performing the same character encoding sniffing the
/// HTML standard prescribes (BOM, `<meta charset>`, and the windows-1252 default) before decoding
/// to UTF-8 and parsing. Unlike [`parse_html`] which requires valid UTF-8 input up front, this
/// accepts any byte stream a real web server might send; `None` where the decoded text is longer
/// than can be parsed.
pub fn parse_html_bytes(source: &[u8]) -> (r: Option<HtmlDocument>)
    ensures
        match r {
            Some(d) => parseable(html_text(source@)) && d@ == html_listing(html_text(source@)),
            None => !parseable(html_text(source@)),
        },
{
    let text = decode_html_bytes(source);
    if is_parseable(&text) {
        Some(parse_html(&text))
    } else {
        None
    }
}

/// The first element of a document, where there is one.
pub open spec fn first_element_at(nodes: Seq<NodeView>, from: int) -> Option<int>
    decreases nodes.len() - from,
{
    if from < 0 || from >= nodes.len() {
        None
    } else if nodes[from].1 is Tag {
        Some(from)
    } else {
        first_element_at(nodes, from + 1)
    }
}

/// The position of the root element, if present.
pub fn root_element(dom: &HtmlDocument) -> (r: Option<usize>)
    ensures
        match r {
            Some(i) => first_element_at(dom@, 0) == Some(i as int) && i < dom@.len()
                && dom@[i as int].1 is Tag,
            None => first_element_at(dom@, 0) is None,
        },
{
    let mut i: usize = 0;
    while i < dom.nodes.len()
        invariant
            0 <= i <= dom.nodes@.len(),
            first_element_at(dom@, 0) == first_element_at(dom@, i as int),
        decreases dom.nodes@.len() - i,
    {
        assert(dom@[i as int].1 == dom.nodes@[i as int].1.deep_view());
        if let HtmlData::Tag(..) = &dom.nodes[i].1 {
            return Some(i);
        }
        i = i + 1;
    }
    None
}

/// Returns the name of the root `<html>` element, if present.
pub fn root_element_name(dom: &HtmlDocument) -> (r: Option<String>)
    ensures
        r.deep_view() == (match first_element_at(dom@, 0) {
            Some(i) => Some(dom@[i].1->name),
            None => None,
        }),
{
    match root_element(dom) {
        Some(i) => {
            assert(dom@[i as int].1 == dom.nodes@[i as int].1.deep_view());
            match &dom.nodes[i].1 {
                HtmlData::Tag(name, ..) => Some(name.clone()),
                _ => None,
            }
        },
        None => None,
    }
}

/// A byte order mark decides, whatever a declaration says.
pub proof fn law_byte_order_mark_wins(source: Seq<u8>)
    ensures
        begins(source, seq![0xEFu8, 0xBBu8, 0xBFu8]) ==> sniffed(source) == "utf-8"@,
        begins(source, seq![0xFFu8, 0xFEu8]) ==> sniffed(source) == "utf-16le"@,
        begins(source, seq![0xFEu8, 0xFFu8]) ==> sniffed(source) == "utf-16be"@,
{
    let a = seq![0xEFu8, 0xBBu8, 0xBFu8];
    let b = seq![0xFFu8, 0xFEu8];
    let c = seq![0xFEu8, 0xFFu8];
    if begins(source, a) {
        assert(source.take(3)[0] == a[0]);
        assert(source[0] == 0xEFu8);
    }
    if begins(source, b) {
        assert(source.take(2)[0] == b[0]);
        assert(source[0] == 0xFFu8);
    }
    if begins(source, c) {
        assert(source.take(2)[0] == c[0]);
        assert(source[0] == 0xFEu8);
    }
}

} // verus!
