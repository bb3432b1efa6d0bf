//! What the parser makes of markup: it reads back every document that is written out, tag by tag.
use crate::migrate::html_tree::{
    attribute, document, markup_end, opening_tag, parse_from, tag_name, tag_rest, void_tag, Attr,
    Tree,
};
use crate::string_laws::{
    all_white, law_trim_takes_white_space, lemma_find_stops, lemma_run_reaches, tight,
};
use crate::strings::{lower_seq, occurs, run_end, white_space, Class};
use vstd::prelude::*;

verus! {

/// The tags of elements that have no content and no closing tag.
pub open spec fn has_no_content(tag: Seq<char>) -> bool {
    seq![
        "area"@,
        "base"@,
        "br"@,
        "col"@,
        "embed"@,
        "hr"@,
        "img"@,
        "input"@,
        "link"@,
        "meta"@,
        "param"@,
        "source"@,
        "track"@,
        "wbr"@,
    ].contains(tag)
}

/// An attribute, written out.
pub open spec fn attr_markup(a: Attr) -> Seq<char> {
    seq![' '] + a.0 + seq!['=', '"'] + a.1 + seq!['"']
}

/// Attributes, written out.
pub open spec fn attrs_markup(attrs: Seq<Attr>) -> Seq<char>
    decreases attrs.len(),
{
    if attrs.len() == 0 {
        Seq::empty()
    } else {
        attr_markup(attrs[0]) + attrs_markup(attrs.skip(1))
    }
}

/// A node, written out.
pub open spec fn markup(t: Tree) -> Seq<char>
    decreases t, 0nat,
{
    match t {
        Tree::Text(text) => text,
        Tree::Element { tag, attrs, children } => {
            let open = seq!['<'] + tag + attrs_markup(attrs) + seq!['>'];
            if has_no_content(tag) {
                open
            } else {
                open + all_markup(children) + (seq!['<', '/'] + tag + seq!['>'])
            }
        },
    }
}

/// Nodes, written out one behind the other.
pub open spec fn all_markup(f: Seq<Tree>) -> Seq<char>
    decreases f, 1nat,
{
    if f.len() == 0 {
        Seq::empty()
    } else {
        markup(f[0]) + all_markup(f.skip(1))
    }
}

/// Whether a tag can be written: it is made of what tag names are made of, and does not start like
/// a declaration.
pub open spec fn tag_fits(tag: Seq<char>) -> bool {
    tag.len() > 0 && tag[0] != '!' && tag[0] != '?' && forall|i: int|
        0 <= i < tag.len() ==> !white_space(#[trigger] tag[i]) && tag[i] != '>' && tag[i] != '/'
}

/// Whether an attribute can be written in double quotes.
pub open spec fn attr_fits(a: Attr) -> bool {
    &&& a.0.len() > 0
    &&& forall|i: int|
        0 <= i < a.0.len() ==> !white_space(#[trigger] a.0[i]) && a.0[i] != '=' && a.0[i] != '>'
            && a.0[i] != '/'
    &&& !a.1.contains('"')
}

/// Whether a node can be written: text stands without white space around it, and what has no content
/// has no children.
pub open spec fn fits(t: Tree) -> bool
    decreases t, 0nat,
{
    match t {
        Tree::Text(text) => text.len() > 0 && tight(text) && !text.contains('<'),
        Tree::Element { tag, attrs, children } => {
            &&& tag_fits(tag)
            &&& forall|i: int| 0 <= i < attrs.len() ==> attr_fits(#[trigger] attrs[i])
            &&& has_no_content(tag) ==> children.len() == 0
            &&& all_fit(children)
        },
    }
}

/// Whether nodes can be written one behind the other: no two runs of text touch.
pub open spec fn all_fit(f: Seq<Tree>) -> bool
    decreases f, 1nat,
{
    f.len() > 0 ==> {
        &&& fits(f[0])
        &&& all_fit(f.skip(1))
        &&& f[0] is Text && f.len() > 1 ==> f[1] is Element
    }
}

proof fn lemma_void(t: Seq<char>)
    ensures
        void_tag(t) == has_no_content(t),
{
    let l = seq![
        "area"@,
        "base"@,
        "br"@,
        "col"@,
        "embed"@,
        "hr"@,
        "img"@,
        "input"@,
        "link"@,
        "meta"@,
        "param"@,
        "source"@,
        "track"@,
        "wbr"@,
    ];
    assert(l[0] == "area"@ && l[1] == "base"@ && l[2] == "br"@ && l[3] == "col"@ && l[4] == "embed"@);
    assert(l[5] == "hr"@ && l[6] == "img"@ && l[7] == "input"@ && l[8] == "link"@ && l[9] == "meta"@);
    assert(l[10] == "param"@ && l[11] == "source"@ && l[12] == "track"@ && l[13] == "wbr"@);
}

/// What a text that stands in another is made of.
pub proof fn lemma_inside(s: Seq<char>, w: Seq<char>, pos: int, i: int)
    requires
        occurs(s, w, pos),
        0 <= i < w.len(),
    ensures
        s[pos + i] == w[i],
{
    assert(s.subrange(pos, pos + w.len())[i] == s[pos + i]);
}

/// A part of a text that stands in another stands there too.
pub proof fn lemma_part(s: Seq<char>, a: Seq<char>, b: Seq<char>, pos: int)
    requires
        occurs(s, a + b, pos),
    ensures
        occurs(s, a, pos),
        occurs(s, b, (pos + a.len()) as int),
{
    let w = a + b;
    assert(s.subrange(pos, pos + a.len()) =~= a) by {
        assert forall|i: int| 0 <= i < a.len() implies s.subrange(pos, pos + a.len())[i] == a[i] by {
            lemma_inside(s, w, pos, i);
        }
    }
    let q = pos + a.len();
    assert(s.subrange(q, q + b.len()) =~= b) by {
        assert forall|i: int| 0 <= i < b.len() implies s.subrange(q, q + b.len())[i] == b[i] by {
            lemma_inside(s, w, pos, a.len() + i);
        }
    }
}

/// A run that stands in a text ends where the class ends.
pub proof fn lemma_run_in(s: Seq<char>, w: Seq<char>, pos: int, k: Class)
    requires
        occurs(s, w, pos),
        forall|i: int| 0 <= i < w.len() ==> k.holds(#[trigger] w[i]),
        pos + w.len() < s.len() ==> !k.holds(s[(pos + w.len()) as int]),
    ensures
        run_end(s, pos, k) == pos + w.len(),
{
    assert forall|i: int| pos <= i < pos + w.len() implies k.holds(#[trigger] s[i]) by {
        lemma_inside(s, w, pos, i - pos);
    }
    lemma_run_reaches(s, pos, (pos + w.len()) as int, k);
}

/// An attribute in double quotes is read as it is written.
proof fn lemma_attr(s: Seq<char>, pos: int, a: Attr)
    requires
        attr_fits(a),
        occurs(s, a.0 + seq!['=', '"'] + a.1 + seq!['"'], pos),
    ensures
        attribute(s, pos) == (a, (pos + a.0.len() + a.1.len() + 3) as int),
{
    let w = a.0 + seq!['=', '"'] + a.1 + seq!['"'];
    let n = a.0.len() as int;
    lemma_part(s, a.0 + seq!['=', '"'] + a.1, seq!['"'], pos);
    lemma_part(s, a.0 + seq!['=', '"'], a.1, pos);
    lemma_part(s, a.0, seq!['=', '"'], pos);
    lemma_inside(s, w, pos, n);
    lemma_inside(s, w, pos, n + 1);
    lemma_inside(s, w, pos, n + 2 + a.1.len());
    assert(w[n] == '=');
    assert(w[n + 1] == '"');
    assert(w[n + 2 + a.1.len()] == '"');
    lemma_run_in(s, a.0, pos, Class::AttrName);
    lemma_run_reaches(s, pos + n, pos + n, Class::White);
    lemma_run_reaches(s, pos + n + 1, pos + n + 1, Class::White);
    assert forall|i: int| 0 <= i < a.1.len() implies Class::Not('"').holds(#[trigger] a.1[i]) by {
        assert(a.1.contains(a.1[i]));
    }
    lemma_run_in(s, a.1, pos + n + 2, Class::Not('"'));
    assert(s.subrange(pos, pos + n) =~= a.0);
    assert(s.subrange(pos + n + 2, pos + n + 2 + a.1.len()) =~= a.1);
}

/// The attributes of a tag are read as they are written.
#[verifier::rlimit(40)]
proof fn lemma_attrs(s: Seq<char>, pos: int, attrs: Seq<Attr>)
    requires
        forall|i: int| 0 <= i < attrs.len() ==> attr_fits(#[trigger] attrs[i]),
        occurs(s, attrs_markup(attrs) + seq!['>'], pos),
    ensures
        tag_rest(s, pos) == (attrs, (pos + attrs_markup(attrs).len() + 1) as int, false),
    decreases attrs.len(),
{
    let w = attrs_markup(attrs) + seq!['>'];
    if attrs.len() == 0 {
        lemma_inside(s, w, pos, 0);
        assert(attrs =~= Seq::<Attr>::empty());
    } else {
        let a = attrs[0];
        let rest = attrs.skip(1);
        let quoted = a.0 + seq!['=', '"'] + a.1 + seq!['"'];
        assert(w =~= seq![' '] + (quoted + (attrs_markup(rest) + seq!['>'])));
        lemma_part(s, seq![' '], quoted + (attrs_markup(rest) + seq!['>']), pos);
        lemma_part(s, quoted, attrs_markup(rest) + seq!['>'], pos + 1);
        lemma_inside(s, w, pos, 0);
        assert(w[0] == ' ');
        lemma_attr(s, pos + 1, a);
        lemma_inside(s, quoted, pos + 1, 0);
        assert(quoted[0] == a.0[0]);
        let next = pos + 1 + quoted.len();
        assert forall|i: int| 0 <= i < rest.len() implies attr_fits(#[trigger] rest[i]) by {
            assert(rest[i] == attrs[i + 1]);
        }
        lemma_attrs(s, next, rest);
        assert(seq![a] + rest =~= attrs);
        assert(tag_rest(s, pos) == tag_rest(s, pos + 1));
        assert(attribute(s, pos + 1).1 == next);
    }
}

/// A tag name is read as it is written.
proof fn lemma_tag(s: Seq<char>, pos: int, tag: Seq<char>)
    requires
        tag_fits(tag),
        occurs(s, tag, pos),
        pos + tag.len() < s.len(),
        !Class::TagName.holds(s[(pos + tag.len()) as int]),
    ensures
        tag_name(s, pos) == (tag, (pos + tag.len()) as int),
{
    lemma_inside(s, tag, pos, 0);
    lemma_run_reaches(s, pos, pos, Class::White);
    lemma_run_in(s, tag, pos, Class::TagName);
    assert(s.subrange(pos, pos + tag.len()) =~= tag);
}

/// An opening tag is read as it is written.
proof fn lemma_open(s: Seq<char>, pos: int, tag: Seq<char>, attrs: Seq<Attr>)
    requires
        tag_fits(tag),
        forall|i: int| 0 <= i < attrs.len() ==> attr_fits(#[trigger] attrs[i]),
        occurs(s, seq!['<'] + tag + attrs_markup(attrs) + seq!['>'], pos),
    ensures
        s[pos] == '<',
        pos + 1 < s.len(),
        s[pos + 1] == tag[0],
        opening_tag(s, pos) == (
            tag,
            attrs,
            (pos + tag.len() + attrs_markup(attrs).len() + 2) as int,
            false,
        ),
{
    let m = attrs_markup(attrs);
    let w = seq!['<'] + tag + m + seq!['>'];
    assert(w =~= seq!['<'] + (tag + (m + seq!['>'])));
    lemma_part(s, seq!['<'], tag + (m + seq!['>']), pos);
    lemma_part(s, tag, m + seq!['>'], pos + 1);
    lemma_inside(s, w, pos, 0);
    lemma_inside(s, w, pos, 1);
    let q = pos + 1 + tag.len();
    lemma_inside(s, m + seq!['>'], q, 0);
    if attrs.len() > 0 {
        assert(m[0] == ' ');
    }
    lemma_tag(s, pos + 1, tag);
    lemma_attrs(s, q, attrs);
}

/// A node is read as it is written.
#[verifier::rlimit(40)]
proof fn lemma_node(s: Seq<char>, pos: int, t: Tree, stop: Option<Seq<char>>)
    requires
        fits(t),
        occurs(s, markup(t), pos),
        t is Text ==> pos + markup(t).len() == s.len() || s[(pos + markup(t).len()) as int] == '<',
    ensures
        ({
            let r = parse_from(s, (pos + markup(t).len()) as int, stop);
            parse_from(s, pos, stop) == (seq![t] + r.0, r.1)
        }),
    decreases t, 0nat,
{
    match t {
        Tree::Text(text) => {
            assert(text[0] != '<') by {
                assert(text.contains(text[0]));
            }
            lemma_inside(s, text, pos, 0);
            assert forall|i: int| 0 <= i < text.len() implies Class::Not('<').holds(
                #[trigger] text[i],
            ) by {
                assert(text.contains(text[i]));
            }
            lemma_run_in(s, text, pos, Class::Not('<'));
            assert(s.subrange(pos, pos + text.len()) =~= text);
            let e = Seq::<char>::empty();
            law_trim_takes_white_space(e, text, e);
            assert(e + text + e =~= text);
        },
        Tree::Element { tag, attrs, children } => {
            let open = seq!['<'] + tag + attrs_markup(attrs) + seq!['>'];
            lemma_void(tag);
            if has_no_content(tag) {
                lemma_open(s, pos, tag, attrs);
                assert(children =~= Seq::<Tree>::empty());
            } else {
                let close = seq!['<', '/'] + tag + seq!['>'];
                let body = all_markup(children);
                assert(markup(t) =~= open + (body + close));
                lemma_part(s, open, body + close, pos);
                lemma_open(s, pos, tag, attrs);
                let o = pos + open.len();
                lemma_part(s, body, close, o);
                let c = o + body.len();
                lemma_inside(s, close, c, 0);
                lemma_inside(s, close, c, 1);
                lemma_inside(s, close, c, 2 + tag.len() as int);
                assert(close[0] == '<' && close[1] == '/');
                assert(close[2 + tag.len() as int] == '>');
                lemma_forest(s, o, children, Some(tag));
                assert(close =~= seq!['<', '/'] + (tag + seq!['>']));
                lemma_part(s, seq!['<', '/'], tag + seq!['>'], c);
                lemma_part(s, tag, seq!['>'], c + 2);
                lemma_tag(s, c + 2, tag);
                let inner = parse_from(s, o, Some(tag));
                let after = c + close.len();
                assert(parse_from(s, c, Some(tag)) == (Seq::<Tree>::empty(), after));
                assert(inner.0 =~= children);
                assert(inner.1 == after);
                assert(pos + markup(t).len() == after);
            }
        },
    }
}

/// Nodes are read as they are written.
#[verifier::rlimit(40)]
proof fn lemma_forest(s: Seq<char>, pos: int, f: Seq<Tree>, stop: Option<Seq<char>>)
    requires
        all_fit(f),
        0 <= pos,
        occurs(s, all_markup(f), pos),
        pos + all_markup(f).len() == s.len() || s[(pos + all_markup(f).len()) as int] == '<',
    ensures
        ({
            let r = parse_from(s, (pos + all_markup(f).len()) as int, stop);
            parse_from(s, pos, stop) == (f + r.0, r.1)
        }),
    decreases f, 1nat,
{
    let r = parse_from(s, (pos + all_markup(f).len()) as int, stop);
    if f.len() == 0 {
        assert(f + r.0 =~= r.0);
    } else {
        let t = f[0];
        let rest = f.skip(1);
        lemma_part(s, markup(t), all_markup(rest), pos);
        let q = pos + markup(t).len();
        if t is Text {
            if rest.len() > 0 {
                assert(rest[0] == f[1]);
                assert(rest[0] is Element);
                let w = markup(rest[0]);
                assert(w[0] == '<');
                assert(all_markup(rest)[0] == '<');
                lemma_inside(s, all_markup(rest), q, 0);
            } else {
                assert(all_markup(rest).len() == 0);
            }
        }
        lemma_node(s, pos, t, stop);
        lemma_forest(s, q, rest, stop);
        assert(seq![t] + (rest + r.0) =~= f + r.0);
    }
}

/// A document that is written out is read back: every element with its tag, its attributes in order
/// and its content, every run of text, nested as they were. Elements without content need no closing
/// tag.
pub proof fn law_documents_are_read_back(f: Seq<Tree>)
    requires
        all_fit(f),
    ensures
        document(all_markup(f)) == f,
{
    let s = all_markup(f);
    assert(s.subrange(0, s.len() as int) =~= s);
    lemma_forest(s, 0, f, None);
    let r = parse_from(s, s.len() as int, None);
    assert(f + r.0 =~= f);
}

/// An attribute is read alike in either quotes, without quotes up to white space or the end of the
/// tag, and with white space around its equals sign; one without an equals sign has an empty value.
#[verifier::rlimit(40)]
pub proof fn law_attribute_forms(
    pre: Seq<char>,
    name: Seq<char>,
    a: Seq<char>,
    b: Seq<char>,
    value: Seq<char>,
    rest: Seq<char>,
)
    requires
        name.len() > 0,
        forall|i: int|
            0 <= i < name.len() ==> !white_space(#[trigger] name[i]) && name[i] != '=' && name[i]
                != '>' && name[i] != '/',
        forall|i: int| 0 <= i < a.len() ==> white_space(#[trigger] a[i]),
        forall|i: int| 0 <= i < b.len() ==> white_space(#[trigger] b[i]),
        rest.len() > 0,
        rest[0] == '>',
    ensures
        ({
            let p = pre.len() as int;
            let head = pre + name + a + seq!['='] + b;
            let end = (head.len() + value.len() + 2) as int;
            &&& !value.contains('"') ==> attribute(head + seq!['"'] + value + seq!['"'] + rest, p) == (
                (name, value),
                end,
            )
            &&& !value.contains('\'') ==> attribute(head + seq!['\''] + value + seq!['\''] + rest, p)
                == ((name, value), end)
            &&& value.len() > 0 && value[0] != '"' && value[0] != '\'' && (forall|i: int|
                0 <= i < value.len() ==> !white_space(#[trigger] value[i]) && value[i] != '>' && value[i]
                    != '/') ==> attribute(head + value + rest, p) == ((name, value), end - 2)
            &&& attribute(pre + name + rest, p) == (
                (name, Seq::<char>::empty()),
                (p + name.len()) as int,
            )
        }),
{
    let p = pre.len() as int;
    let head = pre + name + a + seq!['='] + b;
    if !value.contains('"') {
        lemma_quoted_form(pre, name, a, b, '"', value, rest);
    }
    if !value.contains('\'') {
        lemma_quoted_form(pre, name, a, b, '\'', value, rest);
    }
    if value.len() > 0 && value[0] != '"' && value[0] != '\'' && (forall|i: int|
        0 <= i < value.len() ==> !white_space(#[trigger] value[i]) && value[i] != '>' && value[i]
            != '/') {
        let s = head + value + rest;
        assert(s =~= head + (value + rest));
        lemma_named_form(s, pre, name, a, b, value + rest);
        let begin = head.len() as int;
        assert forall|i: int| begin <= i < begin + value.len() implies Class::AttrValue.holds(
            #[trigger] s[i],
        ) by {
            assert(s[i] == value[i - begin]);
        }
        assert(s[begin + value.len()] == rest[0]);
        lemma_run_reaches(s, begin, (begin + value.len()) as int, Class::AttrValue);
        assert(s[begin] == value[0]);
        assert(s.subrange(begin, begin + value.len()) =~= value);
    }
    let s = pre + name + rest;
    let n = p + name.len();
    assert forall|i: int| p <= i < n implies Class::AttrName.holds(#[trigger] s[i]) by {
        assert(s[i] == name[i - p]);
    }
    assert(s[n as int] == rest[0]);
    lemma_run_reaches(s, p, n as int, Class::AttrName);
    lemma_run_reaches(s, n as int, n as int, Class::White);
    assert(s.subrange(p, n as int) =~= name);
}

/// An attribute's name and its equals sign.
#[verifier::rlimit(40)]
proof fn lemma_named_form(
    s: Seq<char>,
    pre: Seq<char>,
    name: Seq<char>,
    a: Seq<char>,
    b: Seq<char>,
    tail: Seq<char>,
)
    requires
        s == pre + name + a + seq!['='] + b + tail,
        name.len() > 0,
        forall|i: int|
            0 <= i < name.len() ==> !white_space(#[trigger] name[i]) && name[i] != '=' && name[i]
                != '>' && name[i] != '/',
        forall|i: int| 0 <= i < a.len() ==> white_space(#[trigger] a[i]),
        forall|i: int| 0 <= i < b.len() ==> white_space(#[trigger] b[i]),
        tail.len() > 0,
        !white_space(tail[0]),
    ensures
        ({
            let p = pre.len() as int;
            let n = p + name.len();
            let eq = n + a.len();
            &&& run_end(s, p, Class::AttrName) == n
            &&& s.subrange(p, n as int) == name
            &&& run_end(s, n as int, Class::White) == eq
            &&& s[eq as int] == '='
            &&& run_end(s, eq + 1, Class::White) == eq + 1 + b.len()
        }),
{
    let p = pre.len() as int;
    let n = (p + name.len()) as int;
    let eq = (n + a.len()) as int;
    let begin = (eq + 1 + b.len()) as int;
    assert forall|i: int| p <= i < n implies Class::AttrName.holds(#[trigger] s[i]) by {
        assert(s[i] == name[i - p]);
    }
    if a.len() > 0 {
        assert(s[n] == a[0]);
    } else {
        assert(s[n] == '=');
    }
    lemma_run_reaches(s, p, n, Class::AttrName);
    assert(s.subrange(p, n) =~= name);
    assert forall|i: int| n <= i < eq implies Class::White.holds(#[trigger] s[i]) by {
        assert(s[i] == a[i - n]);
    }
    assert(s[eq] == '=');
    lemma_run_reaches(s, n, eq, Class::White);
    assert forall|i: int| eq + 1 <= i < begin implies Class::White.holds(#[trigger] s[i]) by {
        assert(s[i] == b[i - eq - 1]);
    }
    assert(s[begin] == tail[0]);
    lemma_run_reaches(s, eq + 1, begin, Class::White);
}

proof fn lemma_quoted_form(
    pre: Seq<char>,
    name: Seq<char>,
    a: Seq<char>,
    b: Seq<char>,
    q: char,
    value: Seq<char>,
    rest: Seq<char>,
)
    requires
        name.len() > 0,
        forall|i: int|
            0 <= i < name.len() ==> !white_space(#[trigger] name[i]) && name[i] != '=' && name[i]
                != '>' && name[i] != '/',
        forall|i: int| 0 <= i < a.len() ==> white_space(#[trigger] a[i]),
        forall|i: int| 0 <= i < b.len() ==> white_space(#[trigger] b[i]),
        q == '"' || q == '\'',
        !value.contains(q),
    ensures
        ({
            let head = pre + name + a + seq!['='] + b;
            attribute(head + seq![q] + value + seq![q] + rest, pre.len() as int) == (
                (name, value),
                (head.len() + value.len() + 2) as int,
            )
        }),
{
    let head = pre + name + a + seq!['='] + b;
    let s = head + seq![q] + value + seq![q] + rest;
    let tail = seq![q] + value + seq![q] + rest;
    assert(s =~= head + tail);
    assert(tail[0] == q);
    lemma_named_form(s, pre, name, a, b, tail);
    let begin = head.len() as int;
    let end = (begin + 1 + value.len()) as int;
    assert(s[begin] == q);
    assert forall|i: int| begin + 1 <= i < end implies Class::Not(q).holds(#[trigger] s[i]) by {
        assert(s[i] == value[i - begin - 1]);
        assert(value.contains(value[i - begin - 1]));
    }
    assert(s[end] == q);
    lemma_run_reaches(s, begin + 1, end, Class::Not(q));
    assert(s.subrange(begin + 1, end) =~= value);
}

/// Comments, doctypes and processing instructions are passed over, and so is a closing tag that closes
/// nothing.
pub proof fn law_markup_is_passed_over(
    pre: Seq<char>,
    text: Seq<char>,
    rest: Seq<char>,
    stop: Option<Seq<char>>,
)
    ensures
        ({
            let p = pre.len() as int;
            let note = seq!['<', '!', '-', '-'] + text + seq!['-', '-', '>'];
            let kind = seq!['<', '!'] + text + seq!['>'];
            let other = seq!['<', '?'] + text + seq!['>'];
            let close = seq!['<', '/'] + text + seq!['>'];
            &&& !text.contains('-') ==> parse_from(pre + note + rest, p, stop) == parse_from(
                pre + note + rest,
                (p + note.len()) as int,
                stop,
            )
            &&& !text.contains('>') && (text.len() == 0 || text[0] != '-') ==> parse_from(
                pre + kind + rest,
                p,
                stop,
            ) == parse_from(pre + kind + rest, (p + kind.len()) as int, stop)
            &&& !text.contains('>') ==> parse_from(pre + other + rest, p, stop) == parse_from(
                pre + other + rest,
                (p + other.len()) as int,
                stop,
            )
            &&& tag_fits(text) && (stop matches Some(t) ==> lower_seq(t) != lower_seq(text))
                ==> parse_from(pre + close + rest, p, stop) == parse_from(
                pre + close + rest,
                (p + close.len()) as int,
                stop,
            )
        }),
{
    if !text.contains('-') {
        lemma_comment(pre, text, rest, stop);
    }
    if !text.contains('>') && (text.len() == 0 || text[0] != '-') {
        lemma_doctype(pre, text, rest, stop);
    }
    if !text.contains('>') {
        lemma_instruction(pre, text, rest, stop);
    }
    if tag_fits(text) {
        lemma_close(pre, text, rest, stop);
    }
}

proof fn lemma_comment(pre: Seq<char>, text: Seq<char>, rest: Seq<char>, stop: Option<Seq<char>>)
    requires
        !text.contains('-'),
    ensures
        ({
            let p = pre.len() as int;
            let note = seq!['<', '!', '-', '-'] + text + seq!['-', '-', '>'];
            parse_from(pre + note + rest, p, stop) == parse_from(
                pre + note + rest,
                (p + note.len()) as int,
                stop,
            )
        }),
{
    let p = pre.len() as int;
    reveal_strlit("<!--");
    reveal_strlit("-->");
    let note = seq!['<', '!', '-', '-'] + text + seq!['-', '-', '>'];
    let s = pre + note + rest;
    assert(s.subrange(p, p + 4) =~= "<!--"@);
    let e = (p + 4 + text.len()) as int;
    assert(s.subrange(e, e + 3) =~= "-->"@);
    assert forall|i: int| p + 4 <= i < e implies !#[trigger] occurs(s, "-->"@, i) by {
        if occurs(s, "-->"@, i) {
            lemma_inside(s, "-->"@, i, 0);
            assert(s[i] == text[i - p - 4]);
            assert(text.contains('-'));
        }
    }
    lemma_find_stops(s, "-->"@, p + 4, e);
    assert(s[p] == '<' && s[p + 1] == '!');
    assert(markup_end(s, p) == p + note.len());
}

proof fn lemma_doctype(pre: Seq<char>, text: Seq<char>, rest: Seq<char>, stop: Option<Seq<char>>)
    requires
        !text.contains('>'),
        text.len() == 0 || text[0] != '-',
    ensures
        ({
            let p = pre.len() as int;
            let kind = seq!['<', '!'] + text + seq!['>'];
            parse_from(pre + kind + rest, p, stop) == parse_from(
                pre + kind + rest,
                (p + kind.len()) as int,
                stop,
            )
        }),
{
    let p = pre.len() as int;
    reveal_strlit("<!--");
    let kind = seq!['<', '!'] + text + seq!['>'];
    let s = pre + kind + rest;
    assert(s[p] == '<' && s[p + 1] == '!');
    if occurs(s, "<!--"@, p) {
        lemma_inside(s, "<!--"@, p, 2);
        if text.len() > 0 {
            assert(s[p + 2] == text[0]);
        } else {
            assert(s[p + 2] == '>');
        }
    }
    assert(s.subrange(p + 2, p + 2 + text.len()) =~= text);
    lemma_to_bracket(s, p, '!', text);
}

proof fn lemma_instruction(pre: Seq<char>, text: Seq<char>, rest: Seq<char>, stop: Option<Seq<char>>)
    requires
        !text.contains('>'),
    ensures
        ({
            let p = pre.len() as int;
            let other = seq!['<', '?'] + text + seq!['>'];
            parse_from(pre + other + rest, p, stop) == parse_from(
                pre + other + rest,
                (p + other.len()) as int,
                stop,
            )
        }),
{
    let p = pre.len() as int;
    reveal_strlit("<!--");
    let other = seq!['<', '?'] + text + seq!['>'];
    let s = pre + other + rest;
    assert(s[p] == '<' && s[p + 1] == '?');
    if occurs(s, "<!--"@, p) {
        lemma_inside(s, "<!--"@, p, 1);
    }
    assert(s.subrange(p + 2, p + 2 + text.len()) =~= text);
    lemma_to_bracket(s, p, '?', text);
}

proof fn lemma_close(pre: Seq<char>, text: Seq<char>, rest: Seq<char>, stop: Option<Seq<char>>)
    requires
        tag_fits(text),
    ensures
        ({
            let p = pre.len() as int;
            let close = seq!['<', '/'] + text + seq!['>'];
            let s = pre + close + rest;
            let after = (p + close.len()) as int;
            &&& (stop matches Some(t) ==> lower_seq(t) != lower_seq(text)) ==> parse_from(s, p, stop)
                == parse_from(s, after, stop)
            &&& (stop matches Some(t) && lower_seq(t) == lower_seq(text)) ==> parse_from(s, p, stop) == (
                Seq::<Tree>::empty(),
                after,
            )
        }),
{
    let p = pre.len() as int;
    let close = seq!['<', '/'] + text + seq!['>'];
    let s = pre + close + rest;
    assert(s[p] == '<' && s[p + 1] == '/');
    assert(s.subrange(p + 2, p + 2 + text.len()) =~= text);
    assert(s[p + 2 + text.len()] == '>');
    lemma_tag(s, p + 2, text);
}

/// A closing tag ends the element of its name, in whatever case.
pub proof fn law_closing_tags_end_elements(
    pre: Seq<char>,
    name: Seq<char>,
    rest: Seq<char>,
    open: Seq<char>,
)
    requires
        tag_fits(name),
        lower_seq(name) == lower_seq(open),
    ensures
        parse_from(pre + (seq!['<', '/'] + name + seq!['>']) + rest, pre.len() as int, Some(open)) == (
            Seq::<Tree>::empty(),
            (pre.len() + name.len() + 3) as int,
        ),
{
    lemma_close(pre, name, rest, Some(open));
}

/// Text becomes one node, without the white space around it; white space alone becomes none.
#[verifier::rlimit(40)]
pub proof fn law_text_is_trimmed(
    pre: Seq<char>,
    a: Seq<char>,
    t: Seq<char>,
    b: Seq<char>,
    rest: Seq<char>,
    stop: Option<Seq<char>>,
)
    requires
        all_white(a),
        tight(t),
        !t.contains('<'),
        all_white(b),
        (a + t + b).len() > 0,
        rest.len() == 0 || rest[0] == '<',
    ensures
        ({
            let s = pre + (a + t + b) + rest;
            let p = pre.len() as int;
            let more = parse_from(s, (p + (a + t + b).len()) as int, stop);
            parse_from(s, p, stop) == (if t.len() > 0 {
                seq![Tree::Text(t)] + more.0
            } else {
                more.0
            }, more.1)
        }),
{
    let u = a + t + b;
    let s = pre + u + rest;
    let p = pre.len() as int;
    let e = (p + u.len()) as int;
    assert forall|i: int| p <= i < e implies Class::Not('<').holds(#[trigger] s[i]) by {
        let k = i - p;
        assert(s[i] == u[k]);
        if k < a.len() {
            assert(u[k] == a[k]);
        } else if k < a.len() + t.len() {
            assert(u[k] == t[k - a.len()]);
            assert(t.contains(t[k - a.len()]));
        } else {
            assert(u[k] == b[k - a.len() - t.len()]);
        }
    }
    if rest.len() > 0 {
        assert(s[e] == rest[0]);
    }
    lemma_run_reaches(s, p, e, Class::Not('<'));
    assert(Class::Not('<').holds(s[p]));
    assert(s.subrange(p, e) =~= u);
    law_trim_takes_white_space(a, t, b);
}

/// A tag with a slash in it, at its end or before other white space, is an element without content.
#[verifier::rlimit(40)]
pub proof fn law_slashes_close_elements(
    pre: Seq<char>,
    tag: Seq<char>,
    a: Seq<char>,
    b: Seq<char>,
    rest: Seq<char>,
    stop: Option<Seq<char>>,
)
    requires
        tag_fits(tag),
        tag[0] != '!' && tag[0] != '?' && tag[0] != '/',
        all_white(a),
        all_white(b),
    ensures
        ({
            let mark = seq!['<'] + tag + a + seq!['/'] + b + seq!['>'];
            let s = pre + mark + rest;
            let p = pre.len() as int;
            let more = parse_from(s, (p + mark.len()) as int, stop);
            parse_from(s, p, stop) == (
                seq![Tree::Element { tag, attrs: Seq::empty(), children: Seq::empty() }] + more.0,
                more.1,
            )
        }),
{
    let mark = seq!['<'] + tag + a + seq!['/'] + b + seq!['>'];
    let s = pre + mark + rest;
    let p = pre.len() as int;
    let n = (p + 1 + tag.len()) as int;
    assert(s.subrange(p + 1, n) =~= tag);
    assert(s[p] == '<');
    assert(s[p + 1] == tag[0]);
    if a.len() > 0 {
        assert(s[n] == a[0]);
    } else {
        assert(s[n] == '/');
    }
    lemma_tag(s, p + 1, tag);
    let k = (n + a.len()) as int;
    assert(s[k] == '/');
    let e = (k + 1 + b.len()) as int;
    assert(s[e] == '>');
    assert forall|i: int| n <= i < k implies white_space(#[trigger] s[i]) by {
        assert(s[i] == a[i - n]);
    }
    assert forall|i: int| k < i < e implies white_space(#[trigger] s[i]) by {
        assert(s[i] == b[i - k - 1]);
    }
    lemma_tag_white(s, n, k);
    lemma_tag_white(s, k + 1, e);
    assert(tag_rest(s, e) == (Seq::<Attr>::empty(), e + 1, false));
    assert(tag_rest(s, k) == (Seq::<Attr>::empty(), e + 1, true));
}

proof fn lemma_tag_white(s: Seq<char>, i: int, j: int)
    requires
        0 <= i <= j < s.len(),
        forall|k: int| i <= k < j ==> white_space(#[trigger] s[k]),
    ensures
        tag_rest(s, i) == tag_rest(s, j),
    decreases j - i,
{
    if i < j {
        assert(white_space(s[i]));
        lemma_tag_white(s, i + 1, j);
    }
}

proof fn lemma_to_bracket(s: Seq<char>, p: int, c: char, text: Seq<char>)
    requires
        0 <= p,
        p + text.len() + 2 < s.len(),
        s[p + 1] == c,
        c != '>',
        s.subrange(p + 2, p + 2 + text.len()) == text,
        s[p + 2 + text.len()] == '>',
        !text.contains('>'),
    ensures
        run_end(s, p + 1, Class::Not('>')) == p + 2 + text.len(),
{
    assert forall|i: int| p + 1 <= i < p + 2 + text.len() implies Class::Not('>').holds(
        #[trigger] s[i],
    ) by {
        if i > p + 1 {
            assert(s.subrange(p + 2, p + 2 + text.len())[i - p - 2] == s[i]);
            assert(text.contains(text[i - p - 2]));
        }
    }
    lemma_run_reaches(s, p + 1, (p + 2 + text.len()) as int, Class::Not('>'));
}

} // verus!
