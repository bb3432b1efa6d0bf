//! The tolerant HTML reader of the transpiler: a document becomes a forest of nodes.
use crate::strings::{
    chars_of, eq_ignore_case, find_from, lemma_find_from, lemma_run_end, occurs, part, run_end,
    same_ignoring_case, scan_run, search, slice_string, stands_at, str_eq, string_of, trim, trimmed,
    white_space, Class,
};
use vstd::prelude::*;

verus! {

/// A node in the parsed static HTML tree.
#[derive(Debug, PartialEq, Eq)]
pub enum Node {
    Element(Element),
    /// Non-whitespace text run (whitespace-only runs are dropped on parse).
    Text(String),
}

/// An element with its attributes and children, in document order.
#[derive(Debug, PartialEq, Eq)]
pub struct Element {
    pub tag: String,
    pub attrs: Vec<(String, String)>,
    pub children: Vec<Node>,
}

/// An attribute: its name and its value.
pub type Attr = (Seq<char>, Seq<char>);

/// The mathematical form of a node.
pub enum Tree {
    Element { tag: Seq<char>, attrs: Seq<Attr>, children: Seq<Tree> },
    Text(Seq<char>),
}

/// The tree that a node stands for.
pub open spec fn tree_of(n: Node) -> Tree
    decreases n,
{
    match n {
        Node::Element(el) => Tree::Element {
            tag: el.tag@,
            attrs: el.attrs.deep_view(),
            children: forest_of(el.children@),
        },
        Node::Text(t) => Tree::Text(t@),
    }
}

/// The forest that a sequence of nodes stands for.
pub open spec fn forest_of(nodes: Seq<Node>) -> Seq<Tree>
    decreases nodes,
{
    if nodes.len() == 0 {
        Seq::empty()
    } else {
        forest_of(nodes.drop_last()).push(tree_of(nodes.last()))
    }
}

/// A forest has one tree per node, in order.
pub proof fn lemma_forest_of(nodes: Seq<Node>)
    ensures
        forest_of(nodes).len() == nodes.len(),
        forall|i: int|
            0 <= i < nodes.len() ==> #[trigger] forest_of(nodes)[i] == tree_of(nodes[i]),
    decreases nodes.len(),
{
    if nodes.len() > 0 {
        lemma_forest_of(nodes.drop_last());
    }
}

/// The forest of a prefix grows by one tree per node.
pub proof fn lemma_forest_step(nodes: Seq<Node>, i: int)
    requires
        0 <= i < nodes.len(),
    ensures
        forest_of(nodes.take(i + 1)) == forest_of(nodes.take(i)).push(tree_of(nodes[i])),
{
    assert(nodes.take(i + 1).drop_last() =~= nodes.take(i));
}

/// Tags whose elements have no content.
pub open spec fn void_tag(t: Seq<char>) -> bool {
    ||| t == "area"@
    ||| t == "base"@
    ||| t == "br"@
    ||| t == "col"@
    ||| t == "embed"@
    ||| t == "hr"@
    ||| t == "img"@
    ||| t == "input"@
    ||| t == "link"@
    ||| t == "meta"@
    ||| t == "param"@
    ||| t == "source"@
    ||| t == "track"@
    ||| t == "wbr"@
}

fn is_void(tag: &str) -> (b: bool)
    ensures
        b == void_tag(tag@),
{
    str_eq(tag, "area") || str_eq(tag, "base") || str_eq(tag, "br") || str_eq(tag, "col")
        || str_eq(tag, "embed") || str_eq(tag, "hr") || str_eq(tag, "img") || str_eq(tag, "input")
        || str_eq(tag, "link") || str_eq(tag, "meta") || str_eq(tag, "param") || str_eq(
        tag,
        "source",
    ) || str_eq(tag, "track") || str_eq(tag, "wbr")
}

/// A tag name from `start` on: white space is passed over, then the name runs to white space, `>`
/// or `/`. With it, where it ends.
pub open spec fn tag_name(s: Seq<char>, start: int) -> (Seq<char>, int) {
    let begin = run_end(s, start, Class::White);
    let end = run_end(s, begin, Class::TagName);
    (s.subrange(begin, end), end)
}

fn read_tag_name(chars: &[char], start: usize) -> (r: (String, usize))
    requires
        start <= chars@.len(),
    ensures
        (r.0@, r.1 as int) == tag_name(chars@, start as int),
        start <= r.1 <= chars@.len(),
{
    let begin = scan_run(chars, start, Class::White);
    let end = scan_run(chars, begin, Class::TagName);
    (slice_string(chars, begin, end), end)
}

/// An attribute from `start` on, and where it ends. A value is quoted by either quote, or runs to
/// white space, `>` or `/`; without `=` the value is empty.
pub open spec fn attribute(s: Seq<char>, start: int) -> (Attr, int) {
    let name_end = run_end(s, start, Class::AttrName);
    let name = s.subrange(start, name_end);
    let eq = run_end(s, name_end, Class::White);
    if eq < s.len() && s[eq] == '=' {
        let begin = run_end(s, eq + 1, Class::White);
        if begin < s.len() && (s[begin] == '"' || s[begin] == '\'') {
            let end = run_end(s, begin + 1, Class::Not(s[begin]));
            ((name, s.subrange(begin + 1, end)), if end < s.len() {
                end + 1
            } else {
                end
            })
        } else {
            let end = run_end(s, begin, Class::AttrValue);
            ((name, s.subrange(begin, end)), end)
        }
    } else {
        ((name, Seq::empty()), eq)
    }
}

/// An attribute ends within the text, past its start where it has a name or a `=`.
pub proof fn lemma_attribute(s: Seq<char>, start: int)
    requires
        0 <= start <= s.len(),
    ensures
        start <= attribute(s, start).1 <= s.len(),
        start < s.len() && !white_space(s[start]) && s[start] != '>' && s[start] != '/' ==> start
            < attribute(s, start).1,
{
    let name_end = run_end(s, start, Class::AttrName);
    lemma_run_end(s, start, Class::AttrName);
    let eq = run_end(s, name_end, Class::White);
    lemma_run_end(s, name_end, Class::White);
    if eq < s.len() && s[eq] == '=' {
        let begin = run_end(s, eq + 1, Class::White);
        lemma_run_end(s, eq + 1, Class::White);
        if begin < s.len() && (s[begin] == '"' || s[begin] == '\'') {
            lemma_run_end(s, begin + 1, Class::Not(s[begin]));
        } else {
            lemma_run_end(s, begin, Class::AttrValue);
        }
    }
}

fn read_attr(chars: &[char], start: usize) -> (r: (String, String, usize))
    requires
        start <= chars@.len(),
    ensures
        ((r.0@, r.1@), r.2 as int) == attribute(chars@, start as int),
        start <= r.2 <= chars@.len(),
{
    proof {
        lemma_attribute(chars@, start as int);
    }
    let name_end = scan_run(chars, start, Class::AttrName);
    let name = slice_string(chars, start, name_end);
    let eq = scan_run(chars, name_end, Class::White);
    if eq < chars.len() && chars[eq] == '=' {
        let begin = scan_run(chars, eq + 1, Class::White);
        if begin < chars.len() && (chars[begin] == '"' || chars[begin] == '\'') {
            let end = scan_run(chars, begin + 1, Class::Not(chars[begin]));
            let value = slice_string(chars, begin + 1, end);
            if end < chars.len() {
                (name, value, end + 1)
            } else {
                (name, value, end)
            }
        } else {
            let end = scan_run(chars, begin, Class::AttrValue);
            (name, slice_string(chars, begin, end), end)
        }
    } else {
        (name, String::new(), eq)
    }
}

/// The rest of an opening tag from `pos` on: its attributes, where it ends, and whether a `/`
/// closes it.
pub open spec fn tag_rest(s: Seq<char>, pos: int) -> (Seq<Attr>, int, bool)
    decreases s.len() - pos,
{
    if pos < 0 || pos >= s.len() {
        (Seq::empty(), pos, false)
    } else if s[pos] == '>' {
        (Seq::empty(), pos + 1, false)
    } else if s[pos] == '/' {
        if pos + 1 < s.len() && s[pos + 1] == '>' {
            (Seq::empty(), pos + 2, true)
        } else {
            let r = tag_rest(s, pos + 1);
            (r.0, r.1, true)
        }
    } else if white_space(s[pos]) {
        tag_rest(s, pos + 1)
    } else {
        proof {
            lemma_attribute(s, pos);
        }
        let a = attribute(s, pos);
        let r = tag_rest(s, a.1);
        (seq![a.0] + r.0, r.1, r.2)
    }
}

/// An opening tag ends within the text.
pub proof fn lemma_tag_rest(s: Seq<char>, pos: int)
    requires
        0 <= pos <= s.len(),
    ensures
        pos <= tag_rest(s, pos).1 <= s.len(),
    decreases s.len() - pos,
{
    if pos < s.len() {
        lemma_attribute(s, pos);
        if s[pos] == '>' {
        } else if s[pos] == '/' {
            if !(pos + 1 < s.len() && s[pos + 1] == '>') {
                lemma_tag_rest(s, pos + 1);
            }
        } else if white_space(s[pos]) {
            lemma_tag_rest(s, pos + 1);
        } else {
            lemma_tag_rest(s, attribute(s, pos).1);
        }
    }
}

/// An opening tag that starts at `<`: its tag, then what `tag_rest` says.
pub open spec fn opening_tag(s: Seq<char>, start: int) -> (Seq<char>, Seq<Attr>, int, bool) {
    let t = tag_name(s, start + 1);
    let r = tag_rest(s, t.1);
    (t.0, r.0, r.1, r.2)
}

pub proof fn lemma_opening_tag(s: Seq<char>, start: int)
    requires
        0 <= start < s.len(),
    ensures
        start < opening_tag(s, start).2 <= s.len(),
{
    let begin = run_end(s, start + 1, Class::White);
    lemma_run_end(s, start + 1, Class::White);
    lemma_run_end(s, begin, Class::TagName);
    lemma_tag_rest(s, run_end(s, begin, Class::TagName));
}

fn parse_element(chars: &[char], start: usize) -> (r: (Element, usize, bool))
    requires
        start < chars@.len(),
    ensures
        opening_tag(chars@, start as int) == (
            r.0.tag@,
            r.0.attrs.deep_view(),
            r.1 as int,
            r.2,
        ),
        r.0.children@ == Seq::<Node>::empty(),
        start < r.1 <= chars@.len(),
{
    let n = chars.len();
    let (tag, after) = read_tag_name(chars, start + 1);
    let mut pos: usize = after;
    let mut attrs: Vec<(String, String)> = Vec::new();
    let mut self_close = false;
    let mut done = false;
    let ghost whole = tag_rest(chars@, after as int);
    assert(attrs.deep_view() =~= Seq::<Attr>::empty());
    assert(attrs.deep_view() + whole.0 =~= whole.0);
    while !done && pos < chars.len()
        invariant
            start < after <= pos <= chars@.len(),
            whole == tag_rest(chars@, after as int),
            !done ==> whole == (
                attrs.deep_view() + tag_rest(chars@, pos as int).0,
                tag_rest(chars@, pos as int).1,
                self_close || tag_rest(chars@, pos as int).2,
            ),
            done ==> whole == (attrs.deep_view(), pos as int, self_close),
        decreases chars@.len() - pos + (if done {
            0int
        } else {
            1
        }),
    {
        let c: char = chars[pos];
        assert(attrs.deep_view() + Seq::<Attr>::empty() =~= attrs.deep_view());
        if c == '>' {
            pos = pos + 1;
            done = true;
        } else if c == '/' {
            self_close = true;
            if pos + 1 < chars.len() && chars[pos + 1] == '>' {
                pos = pos + 2;
                done = true;
            } else {
                pos = pos + 1;
            }
        } else if Class::White.has(c) {
            pos = pos + 1;
        } else {
            proof {
                lemma_attribute(chars@, pos as int);
            }
            let ghost before = attrs.deep_view();
            let ghost rest = tag_rest(chars@, attribute(chars@, pos as int).1).0;
            let (name, value, end) = read_attr(chars, pos);
            let ghost a = (name@, value@);
            attrs.push((name, value));
            assert(attrs.deep_view() =~= before.push(a));
            assert(before + (seq![a] + rest) =~= before.push(a) + rest);
            pos = end;
        }
    }
    assert(attrs.deep_view() + Seq::<Attr>::empty() =~= attrs.deep_view());
    (Element { tag, attrs, children: Vec::new() }, pos, self_close)
}

/// Where a comment, doctype or declaration that starts at `pos` ends.
pub open spec fn markup_end(s: Seq<char>, pos: int) -> int {
    let close = if occurs(s, "<!--"@, pos) {
        find_from(s, "-->"@, pos + 4)
    } else {
        None
    };
    match close {
        Some(i) => i + 3,
        None => {
            let gt = run_end(s, pos + 1, Class::Not('>'));
            if gt < s.len() {
                gt + 1
            } else {
                pos + 1
            }
        },
    }
}

pub proof fn lemma_markup_end(s: Seq<char>, pos: int)
    requires
        0 <= pos < s.len(),
    ensures
        pos < markup_end(s, pos) <= s.len(),
{
    reveal_strlit("<!--");
    reveal_strlit("-->");
    lemma_find_from(s, "-->"@, pos + 4);
    lemma_run_end(s, pos + 1, Class::Not('>'));
}

fn skip_markup(chars: &[char], pos: usize) -> (end: usize)
    requires
        pos < chars@.len(),
    ensures
        end == markup_end(chars@, pos as int),
        pos < end <= chars@.len(),
{
    proof {
        reveal_strlit("<!--");
        reveal_strlit("-->");
        lemma_markup_end(chars@, pos as int);
    }
    let n = chars.len();
    let open = chars_of("<!--");
    if stands_at(chars, &open, pos) {
        let close = chars_of("-->");
        if let Some(i) = search(chars, &close, pos + 4) {
            return i + 3;
        }
    }
    let gt = scan_run(chars, pos + 1, Class::Not('>'));
    if gt < chars.len() {
        gt + 1
    } else {
        pos + 1
    }
}

/// Past the `>` of a closing tag whose name ends at `end`.
pub open spec fn past(s: Seq<char>, end: int) -> int {
    if end < s.len() {
        end + 1
    } else {
        end
    }
}

/// The nodes from `pos` on, up to a closing tag that names `stop` or to the end, and where they
/// end. A closing tag that names something else is passed over.
pub open spec fn parse_from(s: Seq<char>, pos: int, stop: Option<Seq<char>>) -> (Seq<Tree>, int)
    decreases s.len() - pos,
{
    if pos < 0 || pos >= s.len() {
        (Seq::empty(), pos)
    } else if s[pos] != '<' {
        proof {
            lemma_run_end(s, pos, Class::Not('<'));
        }
        let end = run_end(s, pos, Class::Not('<'));
        let text = trim(s.subrange(pos, end));
        let r = parse_from(s, end, stop);
        (if text.len() > 0 {
            seq![Tree::Text(text)] + r.0
        } else {
            r.0
        }, r.1)
    } else if pos + 1 < s.len() && (s[pos + 1] == '!' || s[pos + 1] == '?') {
        proof {
            lemma_markup_end(s, pos);
        }
        parse_from(s, markup_end(s, pos), stop)
    } else if pos + 1 < s.len() && s[pos + 1] == '/' {
        proof {
            lemma_closing(s, pos);
        }
        let t = tag_name(s, pos + 2);
        if stop is Some && same_ignoring_case(t.0, stop->0) {
            (Seq::empty(), past(s, t.1))
        } else {
            parse_from(s, past(s, t.1), stop)
        }
    } else {
        proof {
            lemma_opening_tag(s, pos);
        }
        let t = opening_tag(s, pos);
        if t.3 || void_tag(t.0) {
            let r = parse_from(s, t.2, stop);
            (seq![Tree::Element { tag: t.0, attrs: t.1, children: Seq::empty() }] + r.0, r.1)
        } else {
            let inner = parse_from(s, t.2, Some(t.0));
            let after = if t.2 <= inner.1 <= s.len() {
                inner.1
            } else {
                s.len() as int
            };
            let r = parse_from(s, after, stop);
            (seq![Tree::Element { tag: t.0, attrs: t.1, children: inner.0 }] + r.0, r.1)
        }
    }
}

pub proof fn lemma_closing(s: Seq<char>, pos: int)
    requires
        0 <= pos,
        pos + 1 < s.len(),
    ensures
        pos < past(s, tag_name(s, pos + 2).1) <= s.len(),
{
    let begin = run_end(s, pos + 2, Class::White);
    lemma_run_end(s, pos + 2, Class::White);
    lemma_run_end(s, begin, Class::TagName);
}

/// Parsing ends within the text, not before it started.
pub proof fn lemma_parse_from(s: Seq<char>, pos: int, stop: Option<Seq<char>>)
    requires
        0 <= pos <= s.len(),
    ensures
        pos <= parse_from(s, pos, stop).1 <= s.len(),
    decreases s.len() - pos,
{
    if pos < s.len() {
        if s[pos] != '<' {
            lemma_run_end(s, pos, Class::Not('<'));
            lemma_parse_from(s, run_end(s, pos, Class::Not('<')), stop);
        } else if pos + 1 < s.len() && (s[pos + 1] == '!' || s[pos + 1] == '?') {
            lemma_markup_end(s, pos);
            lemma_parse_from(s, markup_end(s, pos), stop);
        } else if pos + 1 < s.len() && s[pos + 1] == '/' {
            lemma_closing(s, pos);
            lemma_parse_from(s, past(s, tag_name(s, pos + 2).1), stop);
        } else {
            lemma_opening_tag(s, pos);
            let t = opening_tag(s, pos);
            if t.3 || void_tag(t.0) {
                lemma_parse_from(s, t.2, stop);
            } else {
                lemma_parse_from(s, t.2, Some(t.0));
                lemma_parse_from(s, parse_from(s, t.2, Some(t.0)).1, stop);
            }
        }
    }
}

/// The name that ends a run of nodes, where one does.
pub open spec fn stop_name(stop: Option<&str>) -> Option<Seq<char>> {
    match stop {
        Some(t) => Some(t@),
        None => None,
    }
}

fn parse_nodes(chars: &[char], start: usize, stop: Option<&str>) -> (r: (Vec<Node>, usize))
    requires
        start <= chars@.len(),
    ensures
        parse_from(chars@, start as int, stop_name(stop)) == (forest_of(r.0@), r.1 as int),
        start <= r.1 <= chars@.len(),
    decreases chars@.len() - start,
{
    let ghost s = chars@;
    let ghost st = stop_name(stop);
    let ghost whole = parse_from(s, start as int, st);
    proof {
        lemma_parse_from(s, start as int, st);
    }
    let mut pos: usize = start;
    let mut nodes: Vec<Node> = Vec::new();
    assert(forest_of(nodes@) + whole.0 =~= whole.0);
    while pos < chars.len()
        invariant
            s == chars@,
            start <= pos <= s.len(),
            st == stop_name(stop),
            whole == parse_from(s, start as int, st),
            whole == (
                forest_of(nodes@) + parse_from(s, pos as int, st).0,
                parse_from(s, pos as int, st).1,
            ),
        decreases s.len() - pos,
    {
        let ghost before = nodes@;
        if chars[pos] == '<' {
            if pos + 1 < chars.len() && (chars[pos + 1] == '!' || chars[pos + 1] == '?') {
                pos = skip_markup(chars, pos);
            } else if pos + 1 < chars.len() && chars[pos + 1] == '/' {
                let (name, end) = read_tag_name(chars, pos + 2);
                let next: usize = if end < chars.len() {
                    end + 1
                } else {
                    end
                };
                if let Some(t) = stop {
                    if eq_ignore_case(&name, t) {
                        assert(forest_of(nodes@) + Seq::<Tree>::empty() =~= forest_of(nodes@));
                        return (nodes, next);
                    }
                }
                pos = next;
            } else {
                let (mut el, end, self_close) = parse_element(chars, pos);
                if self_close || is_void(&el.tag) {
                    let ghost rest = parse_from(s, end as int, st).0;
                    let ghost t = tree_of(Node::Element(el));
                    proof {
                        lemma_forest_of(el.children@);
                        assert(forest_of(el.children@) =~= Seq::<Tree>::empty());
                    }
                    nodes.push(Node::Element(el));
                    assert(nodes@.drop_last() =~= before);
                    assert(forest_of(before) + (seq![t] + rest) =~= forest_of(nodes@) + rest);
                    pos = end;
                } else {
                    proof {
                        lemma_parse_from(s, end as int, Some(el.tag@));
                    }
                    let (children, after) = parse_nodes(chars, end, Some(&el.tag));
                    let ghost rest = parse_from(s, after as int, st).0;
                    el.children = children;
                    let ghost t = tree_of(Node::Element(el));
                    nodes.push(Node::Element(el));
                    assert(nodes@.drop_last() =~= before);
                    assert(forest_of(before) + (seq![t] + rest) =~= forest_of(nodes@) + rest);
                    pos = after;
                }
            }
        } else {
            proof {
                lemma_run_end(s, pos as int, Class::Not('<'));
            }
            let end = scan_run(chars, pos, Class::Not('<'));
            let text = string_of(&trimmed(&part(chars, pos, end)));
            if !is_blank(&text) {
                let ghost rest = parse_from(s, end as int, st).0;
                let ghost t = tree_of(Node::Text(text));
                nodes.push(Node::Text(text));
                assert(nodes@.drop_last() =~= before);
                assert(forest_of(before) + (seq![t] + rest) =~= forest_of(nodes@) + rest);
            }
            pos = end;
        }
    }
    assert(forest_of(nodes@) + Seq::<Tree>::empty() =~= forest_of(nodes@));
    (nodes, pos)
}

fn is_blank(s: &str) -> (b: bool)
    ensures
        b == (s@.len() == 0),
{
    chars_of(s).len() == 0
}

/// The forest that a document stands for.
pub open spec fn document(s: Seq<char>) -> Seq<Tree> {
    parse_from(s, 0, None).0
}

/// Parse a static HTML document into a node forest (top-level nodes).
///
/// Tolerant of comments and doctype declarations (skipped). Whitespace-only text runs are discarded
/// so equivalence checks operate on meaningful content; other runs lose the white space around
/// them.
pub fn parse_html(input: &str) -> (nodes: Vec<Node>)
    ensures
        forest_of(nodes@) == document(input@),
{
    let chars = chars_of(input);
    let (nodes, _) = parse_nodes(&chars, 0, None);
    nodes
}

/// How much of the text a node stands for at least: one for itself and one for each attribute.
pub open spec fn tree_weight(t: Tree) -> nat
    decreases t,
{
    match t {
        Tree::Text(_) => 1,
        Tree::Element { tag, attrs, children } => 1 + attrs.len() + forest_weight(children),
    }
}

/// How much of the text a forest stands for at least.
pub open spec fn forest_weight(f: Seq<Tree>) -> nat
    decreases f,
{
    if f.len() == 0 {
        0
    } else {
        forest_weight(f.drop_last()) + tree_weight(f.last())
    }
}

proof fn lemma_weight_cons(t: Tree, f: Seq<Tree>)
    ensures
        forest_weight(seq![t] + f) == tree_weight(t) + forest_weight(f),
    decreases f.len(),
{
    if f.len() == 0 {
        assert(seq![t] + f =~= seq![t]);
        assert(seq![t].drop_last() =~= f);
    } else {
        lemma_weight_cons(t, f.drop_last());
        assert((seq![t] + f).drop_last() =~= seq![t] + f.drop_last());
        assert((seq![t] + f).last() == f.last());
    }
}

proof fn lemma_tag_rest_attrs(s: Seq<char>, pos: int)
    requires
        0 <= pos <= s.len(),
    ensures
        tag_rest(s, pos).0.len() <= tag_rest(s, pos).1 - pos,
    decreases s.len() - pos,
{
    if pos < s.len() {
        lemma_attribute(s, pos);
        if s[pos] == '>' {
        } else if s[pos] == '/' {
            if !(pos + 1 < s.len() && s[pos + 1] == '>') {
                lemma_tag_rest_attrs(s, pos + 1);
            }
        } else if white_space(s[pos]) {
            lemma_tag_rest_attrs(s, pos + 1);
        } else {
            lemma_tag_rest_attrs(s, attribute(s, pos).1);
        }
    }
}

/// A document's nodes and attributes are no more than its characters.
pub proof fn lemma_parse_weight(s: Seq<char>, pos: int, stop: Option<Seq<char>>)
    requires
        0 <= pos <= s.len(),
    ensures
        forest_weight(parse_from(s, pos, stop).0) <= parse_from(s, pos, stop).1 - pos,
    decreases s.len() - pos,
{
    lemma_parse_from(s, pos, stop);
    if pos < s.len() {
        if s[pos] != '<' {
            lemma_run_end(s, pos, Class::Not('<'));
            let end = run_end(s, pos, Class::Not('<'));
            lemma_parse_weight(s, end, stop);
            let text = trim(s.subrange(pos, end));
            lemma_weight_cons(Tree::Text(text), parse_from(s, end, stop).0);
        } else if pos + 1 < s.len() && (s[pos + 1] == '!' || s[pos + 1] == '?') {
            lemma_markup_end(s, pos);
            lemma_parse_weight(s, markup_end(s, pos), stop);
        } else if pos + 1 < s.len() && s[pos + 1] == '/' {
            lemma_closing(s, pos);
            lemma_parse_weight(s, past(s, tag_name(s, pos + 2).1), stop);
        } else {
            lemma_opening_tag(s, pos);
            let t = opening_tag(s, pos);
            let begin = run_end(s, pos + 1, Class::White);
            lemma_run_end(s, pos + 1, Class::White);
            lemma_run_end(s, begin, Class::TagName);
            lemma_tag_rest_attrs(s, tag_name(s, pos + 1).1);
            if t.3 || void_tag(t.0) {
                lemma_parse_weight(s, t.2, stop);
                let none = Seq::<Tree>::empty();
                assert(forest_weight(none) == 0);
                let el = Tree::Element { tag: t.0, attrs: t.1, children: none };
                lemma_weight_cons(el, parse_from(s, t.2, stop).0);
            } else {
                lemma_parse_weight(s, t.2, Some(t.0));
                lemma_parse_from(s, t.2, Some(t.0));
                let inner = parse_from(s, t.2, Some(t.0));
                lemma_parse_weight(s, inner.1, stop);
                let el = Tree::Element { tag: t.0, attrs: t.1, children: inner.0 };
                lemma_weight_cons(el, parse_from(s, inner.1, stop).0);
            }
        }
    } else {
        assert(forest_weight(parse_from(s, pos, stop).0) == 0);
    }
}

/// How many elements and how many text runs a node holds.
pub open spec fn tree_count(t: Tree) -> (nat, nat)
    decreases t,
{
    match t {
        Tree::Text(_) => (0, 1),
        Tree::Element { tag, attrs, children } => (
            forest_count(children).0 + 1,
            forest_count(children).1,
        ),
    }
}

/// How many elements and how many text runs a forest holds.
pub open spec fn forest_count(f: Seq<Tree>) -> (nat, nat)
    decreases f,
{
    if f.len() == 0 {
        (0, 0)
    } else {
        let a = forest_count(f.drop_last());
        let b = tree_count(f.last());
        (a.0 + b.0, a.1 + b.1)
    }
}

/// The text runs of a node, in document order.
pub open spec fn tree_text(t: Tree) -> Seq<Seq<char>>
    decreases t,
{
    match t {
        Tree::Text(s) => seq![s],
        Tree::Element { tag, attrs, children } => forest_text(children),
    }
}

/// The text runs of a forest, in document order.
pub open spec fn forest_text(f: Seq<Tree>) -> Seq<Seq<char>>
    decreases f,
{
    if f.len() == 0 {
        Seq::empty()
    } else {
        forest_text(f.drop_last()) + tree_text(f.last())
    }
}

/// A forest counts no more nodes than it weighs.
pub proof fn lemma_count_weight(f: Seq<Tree>)
    ensures
        forest_count(f).0 + forest_count(f).1 <= forest_weight(f),
    decreases f,
{
    if f.len() > 0 {
        lemma_count_weight(f.drop_last());
        assert(forest_weight(f) == forest_weight(f.drop_last()) + tree_weight(f.last()));
        assert(forest_count(f).0 == forest_count(f.drop_last()).0 + tree_count(f.last()).0);
        if let Tree::Element { tag, attrs, children } = f.last() {
            lemma_count_weight(children);
        }
    }
}

proof fn lemma_count_take(f: Seq<Tree>, k: int)
    requires
        0 <= k <= f.len(),
    ensures
        forest_count(f.take(k)).0 <= forest_count(f).0,
        forest_count(f.take(k)).1 <= forest_count(f).1,
    decreases f.len(),
{
    if k == f.len() {
        assert(f.take(k) =~= f);
    } else {
        assert(f.drop_last().take(k) =~= f.take(k));
        lemma_count_take(f.drop_last(), k);
    }
}

/// Count element and text nodes in a parsed forest.
pub fn count_nodes(nodes: &[Node]) -> (r: (usize, usize))
    requires
        forest_count(forest_of(nodes@)).0 <= usize::MAX,
        forest_count(forest_of(nodes@)).1 <= usize::MAX,
    ensures
        r.0 == forest_count(forest_of(nodes@)).0,
        r.1 == forest_count(forest_of(nodes@)).1,
    decreases nodes@,
{
    let ghost f = forest_of(nodes@);
    let mut elements: usize = 0;
    let mut texts: usize = 0;
    let mut i: usize = 0;
    assert(nodes@.take(0) =~= Seq::<Node>::empty());
    while i < nodes.len()
        invariant
            0 <= i <= nodes@.len(),
            f == forest_of(nodes@),
            forest_count(f).0 <= usize::MAX,
            forest_count(f).1 <= usize::MAX,
            elements == forest_count(forest_of(nodes@.take(i as int))).0,
            texts == forest_count(forest_of(nodes@.take(i as int))).1,
        decreases nodes@.len() - i,
    {
        let ghost fi = forest_of(nodes@.take(i as int));
        let ghost t = tree_of(nodes@[i as int]);
        proof {
            lemma_forest_of(nodes@);
            lemma_forest_of(nodes@.take(i + 1));
            lemma_forest_step(nodes@, i as int);
            assert(f.take(i + 1) =~= forest_of(nodes@.take(i + 1)));
            lemma_count_take(f, i + 1);
            assert(fi.push(t).drop_last() =~= fi);
            assert(fi.push(t).last() == t);
            assert(forest_count(fi.push(t)).0 == forest_count(fi).0 + tree_count(t).0);
            assert(forest_count(fi.push(t)).1 == forest_count(fi).1 + tree_count(t).1);
        }
        match &nodes[i] {
            Node::Element(el) => {
                let (e, t) = count_nodes(el.children.as_slice());
                elements = elements + (e + 1);
                texts = texts + t;
            },
            Node::Text(_) => {
                texts = texts + 1;
            },
        }
        i = i + 1;
    }
    assert(nodes@.take(nodes@.len() as int) =~= nodes@);
    (elements, texts)
}

/// Collect text runs in document order.
pub fn collect_text(nodes: &[Node]) -> (out: Vec<String>)
    ensures
        out.deep_view() == forest_text(forest_of(nodes@)),
    decreases nodes@,
{
    let mut out: Vec<String> = Vec::new();
    let mut i: usize = 0;
    assert(nodes@.take(0) =~= Seq::<Node>::empty());
    assert(out.deep_view() =~= forest_text(forest_of(nodes@.take(0))));
    while i < nodes.len()
        invariant
            0 <= i <= nodes@.len(),
            out.deep_view() == forest_text(forest_of(nodes@.take(i as int))),
        decreases nodes@.len() - i,
    {
        let ghost fi = forest_of(nodes@.take(i as int));
        let ghost t = tree_of(nodes@[i as int]);
        let ghost before = out.deep_view();
        proof {
            lemma_forest_step(nodes@, i as int);
            assert(fi.push(t).drop_last() =~= fi);
            assert(fi.push(t).last() == t);
            assert(forest_text(fi.push(t)) == forest_text(fi) + tree_text(t));
        }
        match &nodes[i] {
            Node::Element(el) => {
                let mut inner = collect_text(el.children.as_slice());
                let ghost more = inner.deep_view();
                out.append(&mut inner);
                assert(out.deep_view() =~= before + more);
            },
            Node::Text(text) => {
                out.push(text.clone());
                assert(out.deep_view() =~= before + seq![text@]);
            },
        }
        i = i + 1;
    }
    assert(nodes@.take(nodes@.len() as int) =~= nodes@);
    out
}

} // verus!
