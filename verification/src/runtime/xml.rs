//! A tolerant reader of markup: elements found by name, with their attributes and inner text.
use crate::runtime::string_map::{texts_in, StringMap};
use crate::strings::{
    ascii_letter, chars_of, find_from, is_ascii_letter, lemma_find_from, lemma_run_end, part,
    run_end, scan_run, search, slice_string, tail, Class,
};
use vstd::prelude::*;
use vstd::string::*;

verus! {

/// The next `>` outside quotes, from a position on, inside the quote given if any.
pub open spec fn tag_close(s: Seq<char>, i: int, quote: Option<char>) -> Option<int>
    decreases s.len() - i,
{
    if i < 0 || i >= s.len() {
        None
    } else {
        match quote {
            Some(q) => tag_close(
                s,
                i + 1,
                if s[i] == q {
                    None
                } else {
                    Some(q)
                },
            ),
            None => if s[i] == '"' || s[i] == '\'' {
                tag_close(s, i + 1, Some(s[i]))
            } else if s[i] == '>' {
                Some(i)
            } else {
                tag_close(s, i + 1, None)
            },
        }
    }
}

proof fn lemma_tag_close(s: Seq<char>, i: int, quote: Option<char>)
    requires
        0 <= i,
    ensures
        tag_close(s, i, quote) matches Some(k) ==> i <= k < s.len() && s[k] == '>',
    decreases s.len() - i,
{
    if i < s.len() {
        match quote {
            Some(q) => lemma_tag_close(
                s,
                i + 1,
                if s[i] == q {
                    None
                } else {
                    Some(q)
                },
            ),
            None => if s[i] == '"' || s[i] == '\'' {
                lemma_tag_close(s, i + 1, Some(s[i]));
            } else if s[i] != '>' {
                lemma_tag_close(s, i + 1, None);
            },
        }
    }
}

/// Where an element stands: its start, the `>` of its opening tag, the end of its inner text, and
/// its end.
pub struct Place {
    pub start: int,
    pub close: int,
    pub inner_end: int,
    pub end: int,
}

/// What an opening tag starts with.
pub open spec fn opening(tag: Seq<char>) -> Seq<char> {
    "<"@ + tag
}

/// A closing tag.
pub open spec fn closing(tag: Seq<char>) -> Seq<char> {
    "</"@ + tag + ">"@
}

/// Where the first element with a name stands. A self-closing element has no inner text; one that
/// is never closed is none.
pub open spec fn place(s: Seq<char>, tag: Seq<char>) -> Option<Place> {
    match find_from(s, opening(tag), 0) {
        None => None,
        Some(start) => match tag_close(s, start + opening(tag).len(), None) {
            None => None,
            Some(close) => if s[close - 1] == '/' {
                Some(Place { start, close, inner_end: close + 1, end: close + 1 })
            } else {
                match find_from(s, closing(tag), close + 1) {
                    None => None,
                    Some(e) => Some(
                        Place { start, close, inner_end: e, end: e + closing(tag).len() },
                    ),
                }
            },
        },
    }
}

/// An element stands within the text, and is not empty.
pub proof fn lemma_place(s: Seq<char>, tag: Seq<char>)
    ensures
        place(s, tag) matches Some(p) ==> 0 <= p.start < p.close < p.inner_end <= p.end <= s.len(),
{
    reveal_strlit("<");
    reveal_strlit("</");
    reveal_strlit(">");
    lemma_find_from(s, opening(tag), 0);
    if let Some(start) = find_from(s, opening(tag), 0) {
        lemma_tag_close(s, start + opening(tag).len(), None);
        if let Some(close) = tag_close(s, start + opening(tag).len(), None) {
            lemma_find_from(s, closing(tag), close + 1);
        }
    }
}

/// The attributes in a tag's text from a position on, added to those given. A later value of a
/// name replaces an earlier one.
pub open spec fn attributes_from(
    s: Seq<char>,
    i: int,
    m: Map<Seq<char>, Seq<char>>,
) -> Map<Seq<char>, Seq<char>>
    decreases s.len() - i,
    when 0 <= i <= s.len()
    via attributes_decrease
{
    if i >= s.len() {
        m
    } else if !(ascii_letter(s[i]) || s[i] == '_') {
        attributes_from(s, i + 1, m)
    } else {
        let name_end = run_end(s, i, Class::MarkupName);
        let name = s.subrange(i, name_end);
        let eq = run_end(s, name_end, Class::Blank);
        if eq >= s.len() || s[eq] != '=' {
            attributes_from(s, eq, m)
        } else {
            let from = run_end(s, eq + 1, Class::Blank);
            if from >= s.len() {
                m
            } else if s[from] == '"' || s[from] == '\'' {
                let to = run_end(s, from + 1, Class::Not(s[from]));
                attributes_from(
                    s,
                    if to < s.len() {
                        to + 1
                    } else {
                        to
                    },
                    m.insert(name, s.subrange(from + 1, to)),
                )
            } else {
                let to = run_end(s, from, Class::MarkupValue);
                attributes_from(s, to, m.insert(name, s.subrange(from, to)))
            }
        }
    }
}

#[via_fn]
proof fn attributes_decrease(s: Seq<char>, i: int, m: Map<Seq<char>, Seq<char>>) {
    lemma_attribute_steps(s, i);
}

proof fn lemma_attribute_steps(s: Seq<char>, i: int)
    requires
        0 <= i <= s.len(),
    ensures
        i < s.len() && (ascii_letter(s[i]) || s[i] == '_') ==> {
            let name_end = run_end(s, i, Class::MarkupName);
            let eq = run_end(s, name_end, Class::Blank);
            &&& i < name_end <= eq <= s.len()
            &&& eq < s.len() ==> {
                let from = run_end(s, eq + 1, Class::Blank);
                &&& eq + 1 <= from <= s.len()
                &&& from < s.len() ==> from + 1 <= run_end(s, from + 1, Class::Not(s[from]))
                    <= s.len()
                &&& from < s.len() ==> from <= run_end(s, from, Class::MarkupValue) <= s.len()
            }
        },
{
    if i < s.len() && (ascii_letter(s[i]) || s[i] == '_') {
        lemma_run_end(s, i + 1, Class::MarkupName);
        let name_end = run_end(s, i, Class::MarkupName);
        lemma_run_end(s, name_end, Class::Blank);
        let eq = run_end(s, name_end, Class::Blank);
        if eq < s.len() {
            lemma_run_end(s, eq + 1, Class::Blank);
            let from = run_end(s, eq + 1, Class::Blank);
            if from < s.len() {
                lemma_run_end(s, from + 1, Class::Not(s[from]));
                lemma_run_end(s, from, Class::MarkupValue);
            }
        }
    }
}

/// The attributes in a tag's text.
pub open spec fn attributes(s: Seq<char>) -> Map<Seq<char>, Seq<char>> {
    attributes_from(s, 0, Map::empty())
}

/// An element: its attributes and its inner text.
pub struct Found {
    pub attrs: Map<Seq<char>, Seq<char>>,
    pub inner: Seq<char>,
}

/// The element at a place.
pub open spec fn found_at(s: Seq<char>, p: Place) -> Found {
    Found {
        attrs: attributes(s.subrange(p.start, p.close + 1)),
        inner: s.subrange(p.close + 1, p.inner_end),
    }
}

/// The first element with a name.
pub open spec fn first_element(s: Seq<char>, tag: Seq<char>) -> Option<Found> {
    match place(s, tag) {
        Some(p) => Some(found_at(s, p)),
        None => None,
    }
}

/// All elements with a name, one after the other; none inside another.
pub open spec fn elements(s: Seq<char>, tag: Seq<char>) -> Seq<Found>
    decreases s.len(),
{
    match place(s, tag) {
        Some(p) => {
            proof {
                lemma_place(s, tag);
            }
            seq![found_at(s, p)] + elements(s.skip(p.end), tag)
        },
        None => Seq::empty(),
    }
}

/// The text outside the elements with a name.
pub open spec fn outside(s: Seq<char>, tag: Seq<char>) -> Seq<char>
    decreases s.len(),
{
    match place(s, tag) {
        Some(p) => {
            proof {
                lemma_place(s, tag);
            }
            s.take(p.start) + outside(s.skip(p.end), tag)
        },
        None => s,
    }
}

/// An element: its attributes and its inner text.
#[derive(Debug)]
pub struct XmlElement {
    pub attrs: StringMap<String>,
    pub inner: Vec<char>,
}

impl DeepView for XmlElement {
    type V = Found;

    open spec fn deep_view(&self) -> Found {
        Found { attrs: texts_in(self.attrs@), inner: self.inner@ }
    }
}

fn find_tag_close(v: &[char], from: usize) -> (r: Option<usize>)
    requires
        from <= v@.len(),
    ensures
        match r {
            Some(k) => tag_close(v@, from as int, None) == Some(k as int) && k < v@.len() && from <= k,
            None => tag_close(v@, from as int, None) is None,
        },
{
    let mut quote: Option<char> = None;
    let mut i: usize = from;
    while i < v.len()
        invariant
            from <= i <= v@.len(),
            tag_close(v@, from as int, None) == tag_close(v@, i as int, quote),
        decreases v@.len() - i,
    {
        let c = v[i];
        match quote {
            Some(q) => {
                if c == q {
                    quote = None;
                }
            },
            None => {
                if c == '"' || c == '\'' {
                    quote = Some(c);
                } else if c == '>' {
                    return Some(i);
                }
            },
        }
        i = i + 1;
    }
    None
}

fn joined(a: &str, b: &str, c: &str) -> (r: Vec<char>)
    ensures
        r@ == a@ + b@ + c@,
{
    let mut r = chars_of(a);
    let mut x = chars_of(b);
    let mut y = chars_of(c);
    r.append(&mut x);
    r.append(&mut y);
    assert(r@ =~= a@ + b@ + c@);
    r
}

struct Span {
    start: usize,
    close: usize,
    inner_end: usize,
    end: usize,
}

impl Span {
    spec fn is(self, p: Place) -> bool {
        &&& self.start == p.start
        &&& self.close == p.close
        &&& self.inner_end == p.inner_end
        &&& self.end == p.end
    }
}

/// Where the first element with a name stands.
fn element_span(v: &[char], tag: &str) -> (r: Option<Span>)
    ensures
        match (r, place(v@, tag@)) {
            (Some(x), Some(p)) => x.is(p) && x.start < x.close < x.inner_end <= x.end <= v@.len(),
            (None, None) => true,
            _ => false,
        },
{
    let n = v.len();
    let open = joined("<", tag, "");
    let shut = joined("</", tag, ">");
    proof {
        reveal_strlit("");
        assert(open@ =~= opening(tag@));
        reveal_strlit("<");
        lemma_place(v@, tag@);
    }
    let start = match search(v, &open, 0) {
        Some(i) => i,
        None => {
            return None;
        },
    };
    assert(start + open@.len() <= n);
    let close = match find_tag_close(v, start + open.len()) {
        Some(i) => i,
        None => {
            return None;
        },
    };
    if v[close - 1] == '/' {
        return Some(Span { start, close, inner_end: close + 1, end: close + 1 });
    }
    match search(v, &shut, close + 1) {
        Some(e) => {
            assert(e + shut@.len() <= n);
            Some(Span { start, close, inner_end: e, end: e + shut.len() })
        },
        None => None,
    }
}

/// Parse attributes from a tag's raw text (handles `"` and `'` quoting).
fn parse_attrs(v: &[char]) -> (m: StringMap<String>)
    ensures
        m.wf(),
        texts_in(m@) == attributes(v@),
{
    let mut m: StringMap<String> = StringMap::new();
    let mut i: usize = 0;
    let n = v.len();
    assert(texts_in(m@) =~= Map::<Seq<char>, Seq<char>>::empty());
    while i < n
        invariant
            n == v@.len(),
            0 <= i <= n,
            m.wf(),
            attributes_from(v@, i as int, texts_in(m@)) == attributes(v@),
        decreases n - i,
    {
        proof {
            lemma_attribute_steps(v@, i as int);
        }
        if !(is_ascii_letter(v[i]) || v[i] == '_') {
            i = i + 1;
            continue ;
        }
        let ghost was = texts_in(m@);
        let name_end = scan_run(v, i, Class::MarkupName);
        let eq = scan_run(v, name_end, Class::Blank);
        if eq >= n || v[eq] != '=' {
            i = eq;
            continue ;
        }
        let from = scan_run(v, eq + 1, Class::Blank);
        if from >= n {
            return m;
        }
        let name = slice_string(v, i, name_end);
        let q = v[from];
        if q == '"' || q == '\'' {
            let to = scan_run(v, from + 1, Class::Not(q));
            let value = slice_string(v, from + 1, to);
            m.insert(name, value);
            assert(texts_in(m@) =~= was.insert(name@, value@));
            i = if to < n {
                to + 1
            } else {
                to
            };
        } else {
            let to = scan_run(v, from, Class::MarkupValue);
            let value = slice_string(v, from, to);
            m.insert(name, value);
            assert(texts_in(m@) =~= was.insert(name@, value@));
            i = to;
        }
    }
    m
}

fn element_at(v: &[char], x: &Span) -> (e: XmlElement)
    requires
        x.start < x.close < x.inner_end <= x.end <= v@.len(),
    ensures
        e.attrs.wf(),
        forall|p: Place| x.is(p) ==> e.deep_view() == #[trigger] found_at(v@, p),
{
    let text = part(v, x.start, x.close + 1);
    XmlElement { attrs: parse_attrs(&text), inner: part(v, x.close + 1, x.inner_end) }
}

/// Find the first occurrence of `tag` and return its attributes and inner text.
pub fn find_element(v: &[char], tag: &str) -> (r: Option<XmlElement>)
    ensures
        r.deep_view() == first_element(v@, tag@),
        r matches Some(e) ==> e.attrs.wf(),
{
    match element_span(v, tag) {
        Some(x) => {
            let e = element_at(v, &x);
            assert(e.deep_view() == found_at(v@, place(v@, tag@)->0));
            Some(e)
        },
        None => None,
    }
}

/// Find all non-nested occurrences of `tag`.
pub fn find_all(v: &[char], tag: &str) -> (r: Vec<XmlElement>)
    ensures
        r.deep_view() == elements(v@, tag@),
        forall|i: int| 0 <= i < r@.len() ==> (#[trigger] r@[i]).attrs.wf(),
{
    let mut out: Vec<XmlElement> = Vec::new();
    let mut rest = tail(v, 0);
    assert(rest@ =~= v@);
    assert(out.deep_view() + elements(rest@, tag@) =~= elements(v@, tag@));
    loop
        invariant
            out.deep_view() + elements(rest@, tag@) == elements(v@, tag@),
            forall|i: int| 0 <= i < out@.len() ==> (#[trigger] out@[i]).attrs.wf(),
        ensures
            place(rest@, tag@) is None,
        decreases rest@.len(),
    {
        let x = match element_span(&rest, tag) {
            Some(x) => x,
            None => {
                break;
            },
        };
        let ghost was = out.deep_view();
        let e = element_at(&rest, &x);
        let ghost f = e.deep_view();
        assert(f == found_at(rest@, place(rest@, tag@)->0));
        out.push(e);
        let next = tail(&rest, x.end);
        assert(out.deep_view() =~= was.push(f));
        assert(was.push(f) + elements(next@, tag@) =~= was + (seq![f] + elements(next@, tag@)));
        rest = next;
    }
    assert(elements(rest@, tag@) =~= Seq::<Found>::empty());
    assert(out.deep_view() =~= elements(v@, tag@));
    out
}

/// The text outside every non-nested occurrence of `tag`.
pub fn without(v: &[char], tag: &str) -> (r: Vec<char>)
    ensures
        r@ == outside(v@, tag@),
{
    let mut out: Vec<char> = Vec::new();
    let mut rest = tail(v, 0);
    assert(rest@ =~= v@);
    assert(out@ + outside(rest@, tag@) =~= outside(v@, tag@));
    loop
        invariant
            out@ + outside(rest@, tag@) == outside(v@, tag@),
        ensures
            place(rest@, tag@) is None,
        decreases rest@.len(),
    {
        let x = match element_span(&rest, tag) {
            Some(x) => x,
            None => {
                break;
            },
        };
        let ghost was = out@;
        let mut head = part(&rest, 0, x.start);
        assert(head@ =~= rest@.take(x.start as int));
        out.append(&mut head);
        let next = tail(&rest, x.end);
        assert(out@ + outside(next@, tag@) =~= was + (rest@.take(x.start as int) + outside(
            next@,
            tag@,
        )));
        rest = next;
    }
    let ghost was = out@;
    let ghost end = rest@;
    out.append(&mut rest);
    assert(out@ =~= was + end);
    out
}

} // verus!
