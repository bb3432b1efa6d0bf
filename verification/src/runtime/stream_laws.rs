//! What streaming comes to: how markup and manifests are read, what segment addresses are made of,
//! and what is chosen to be played and to decode it.
use crate::migrate::html_laws::{attr_markup, attrs_markup, lemma_inside, lemma_part, lemma_run_in};
use crate::runtime::dash::{
    best_at, capped, duration_nanos, first_number, listed_segments, manifest, number_attr, of_type,
    rep_of, reps_of, segment_seconds, set_of, sets_of, substituted, template_of, templated_segment,
    type_of_mime, AbrPolicy, RepView, SetView, TemplateView,
};
use crate::runtime::media_decode::{frames_in, suitability, usable, BackendKind};
use crate::runtime::xml::{
    attributes, attributes_from, closing, elements, first_element, opening, outside, place, tag_close,
    Found,
};
use crate::string_laws::{
    law_decimal_reads_back, lemma_find_mark, lemma_find_moves, lemma_find_stops, lemma_run_reaches,
};
use crate::strings::{
    ascii_letter, dec, ends, find_from, is_digit, lemma_find_from, lower_seq, occurs, replaced,
    trim, Class,
};
use vstd::prelude::*;

verus! {

/// Whether a text can be the name of an attribute or an element.
pub open spec fn is_markup_name(n: Seq<char>) -> bool {
    n.len() > 0 && (ascii_letter(n[0]) || n[0] == '_') && forall|i: int|
        0 <= i < n.len() ==> Class::MarkupName.holds(#[trigger] n[i])
}

/// Whether attributes can be written in double quotes.
pub open spec fn writable(attrs: Seq<(Seq<char>, Seq<char>)>) -> bool {
    forall|i: int|
        0 <= i < attrs.len() ==> is_markup_name((#[trigger] attrs[i]).0) && !attrs[i].1.contains('"')
}

/// Whether a text stands nowhere in another.
pub open spec fn free_of(s: Seq<char>, p: Seq<char>) -> bool {
    forall|i: int| !#[trigger] occurs(s, p, i)
}

/// The values of attributes by name; of several of one name the last holds.
pub open spec fn by_name(
    m: Map<Seq<char>, Seq<char>>,
    attrs: Seq<(Seq<char>, Seq<char>)>,
) -> Map<Seq<char>, Seq<char>>
    decreases attrs.len(),
{
    if attrs.len() == 0 {
        m
    } else {
        by_name(m.insert(attrs[0].0, attrs[0].1), attrs.skip(1))
    }
}

/// An element, written out.
pub open spec fn element_markup(
    tag: Seq<char>,
    attrs: Seq<(Seq<char>, Seq<char>)>,
    inner: Seq<char>,
) -> Seq<char> {
    (seq!['<'] + tag + attrs_markup(attrs) + seq!['>']) + inner + (seq!['<', '/'] + tag + seq!['>'])
}

#[verifier::rlimit(40)]
proof fn lemma_attributes(
    s: Seq<char>,
    pos: int,
    attrs: Seq<(Seq<char>, Seq<char>)>,
    m: Map<Seq<char>, Seq<char>>,
)
    requires
        writable(attrs),
        occurs(s, attrs_markup(attrs) + seq!['>'], pos),
        s.len() == pos + attrs_markup(attrs).len() + 1,
    ensures
        attributes_from(s, pos, m) == by_name(m, attrs),
    decreases attrs.len(),
{
    let w = attrs_markup(attrs) + seq!['>'];
    if attrs.len() == 0 {
        lemma_inside(s, w, pos, 0);
        assert(attributes_from(s, pos + 1, m) == m);
    } else {
        let a = attrs[0];
        let rest = attrs.skip(1);
        let quoted = a.0 + seq!['=', '"'] + a.1 + seq!['"'];
        let more = attrs_markup(rest) + seq!['>'];
        assert(w =~= seq![' '] + (quoted + more));
        lemma_part(s, seq![' '], quoted + more, pos);
        lemma_part(s, quoted, more, pos + 1);
        lemma_inside(s, w, pos, 0);
        assert(w[0] == ' ');
        assert(attributes_from(s, pos, m) == attributes_from(s, pos + 1, m));
        let p = pos + 1;
        let n = a.0.len() as int;
        lemma_part(s, a.0 + seq!['=', '"'] + a.1, seq!['"'], p);
        lemma_part(s, a.0 + seq!['=', '"'], a.1, p);
        lemma_part(s, a.0, seq!['=', '"'], p);
        lemma_inside(s, quoted, p, 0);
        lemma_inside(s, quoted, p, n);
        lemma_inside(s, quoted, p, n + 1);
        lemma_inside(s, quoted, p, n + 2 + a.1.len());
        assert(quoted[0] == a.0[0]);
        assert(quoted[n] == '=');
        assert(quoted[n + 1] == '"');
        assert(quoted[n + 2 + a.1.len()] == '"');
        lemma_run_in(s, a.0, p, Class::MarkupName);
        lemma_run_reaches(s, p + n, p + n, Class::Blank);
        lemma_run_reaches(s, p + n + 1, p + n + 1, Class::Blank);
        assert forall|i: int| 0 <= i < a.1.len() implies Class::Not('"').holds(#[trigger] a.1[i]) by {
            assert(a.1.contains(a.1[i]));
        }
        lemma_run_in(s, a.1, p + n + 2, Class::Not('"'));
        assert(s.subrange(p, p + n) =~= a.0);
        assert(s.subrange(p + n + 2, p + n + 2 + a.1.len()) =~= a.1);
        let next = p + quoted.len();
        assert forall|i: int| 0 <= i < rest.len() implies is_markup_name((#[trigger] rest[i]).0)
            && !rest[i].1.contains('"') by {
            assert(rest[i] == attrs[i + 1]);
        }
        lemma_attributes(s, next, rest, m.insert(a.0, a.1));
    }
}

/// The attributes of an opening tag are read by name.
#[verifier::rlimit(40)]
proof fn lemma_tag_attributes(tag: Seq<char>, attrs: Seq<(Seq<char>, Seq<char>)>)
    requires
        is_markup_name(tag),
        writable(attrs),
    ensures
        attributes(seq!['<'] + tag + attrs_markup(attrs) + seq!['>']) == by_name(Map::empty(), attrs),
{
    let more = attrs_markup(attrs) + seq!['>'];
    let s = seq!['<'] + tag + attrs_markup(attrs) + seq!['>'];
    let n = tag.len() as int;
    assert(s =~= seq!['<'] + (tag + more));
    assert(s.subrange(0, s.len() as int) =~= s);
    lemma_part(s, seq!['<'], tag + more, 0);
    lemma_part(s, tag, more, 1);
    lemma_inside(s, tag, 1, 0);
    lemma_inside(s, more, 1 + n, 0);
    let m = Map::<Seq<char>, Seq<char>>::empty();
    assert(s[0] == '<');
    assert(attributes_from(s, 0, m) == attributes_from(s, 1, m));
    if attrs.len() == 0 {
        assert(more[0] == '>');
        lemma_run_in(s, tag, 1, Class::MarkupName);
        lemma_run_reaches(s, 1 + n, 1 + n, Class::Blank);
        lemma_attributes(s, 1 + n, attrs, m);
    } else {
        assert(attr_markup(attrs[0])[0] == ' ');
        assert(more[0] == ' ');
        assert(more[1] == attrs[0].0[0]) by {
            assert(attr_markup(attrs[0])[1] == attrs[0].0[0]);
        }
        lemma_inside(s, more, 1 + n, 1);
        lemma_run_in(s, tag, 1, Class::MarkupName);
        assert(is_markup_name(attrs[0].0));
        lemma_run_reaches(s, 1 + n, 2 + n, Class::Blank);
        lemma_attributes(s, 1 + n, attrs, m);
        assert(attributes_from(s, 1 + n, m) == attributes_from(s, 2 + n, m));
    }
}

proof fn lemma_close_plain(s: Seq<char>, i: int, j: int)
    requires
        0 <= i <= j <= s.len(),
        forall|k: int| i <= k < j ==> #[trigger] s[k] != '"' && s[k] != '\'' && s[k] != '>',
    ensures
        tag_close(s, i, None) == tag_close(s, j, None),
    decreases j - i,
{
    if i < j {
        assert(s[i] != '"');
        lemma_close_plain(s, i + 1, j);
    }
}

proof fn lemma_close_quoted(s: Seq<char>, i: int, j: int, q: char)
    requires
        0 <= i <= j <= s.len(),
        forall|k: int| i <= k < j ==> #[trigger] s[k] != q,
    ensures
        tag_close(s, i, Some(q)) == tag_close(s, j, Some(q)),
    decreases j - i,
{
    if i < j {
        assert(s[i] != q);
        lemma_close_quoted(s, i + 1, j, q);
    }
}

/// A tag ends at the `>` behind its attributes, not at one in a value.
#[verifier::rlimit(40)]
proof fn lemma_close(s: Seq<char>, pos: int, attrs: Seq<(Seq<char>, Seq<char>)>)
    requires
        writable(attrs),
        occurs(s, attrs_markup(attrs) + seq!['>'], pos),
    ensures
        tag_close(s, pos, None) == Some((pos + attrs_markup(attrs).len()) as int),
    decreases attrs.len(),
{
    let w = attrs_markup(attrs) + seq!['>'];
    if attrs.len() == 0 {
        lemma_inside(s, w, pos, 0);
    } else {
        let a = attrs[0];
        let rest = attrs.skip(1);
        let one = attr_markup(a);
        let more = attrs_markup(rest) + seq!['>'];
        assert(w =~= one + more);
        lemma_part(s, one, more, pos);
        let n = a.0.len() as int;
        let v = a.1.len() as int;
        assert(is_markup_name(a.0));
        assert forall|k: int| pos <= k < pos + n + 2 implies #[trigger] s[k] != '"' && s[k] != '\''
            && s[k] != '>' by {
            lemma_inside(s, one, pos, k - pos);
            if k == pos {
                assert(one[0] == ' ');
            } else if k < pos + 1 + n {
                assert(one[k - pos] == a.0[k - pos - 1]);
                assert(Class::MarkupName.holds(a.0[k - pos - 1]));
            } else {
                assert(one[n + 1] == '=');
            }
        }
        lemma_close_plain(s, pos, pos + n + 2);
        lemma_inside(s, one, pos, n + 2);
        assert(one[n + 2] == '"');
        assert(tag_close(s, pos + n + 2, None) == tag_close(s, pos + n + 3, Some('"')));
        assert forall|k: int| pos + n + 3 <= k < pos + n + 3 + v implies #[trigger] s[k] != '"' by {
            lemma_inside(s, one, pos, k - pos);
            assert(one[k - pos] == a.1[k - pos - n - 3]);
            assert(a.1.contains(a.1[k - pos - n - 3]));
        }
        lemma_close_quoted(s, pos + n + 3, pos + n + 3 + v, '"');
        lemma_inside(s, one, pos, n + 3 + v);
        assert(one[n + 3 + v] == '"');
        let next = pos + n + 4 + v;
        assert(one.len() == n + 4 + v);
        assert(tag_close(s, pos + n + 3 + v, Some('"')) == tag_close(s, next, None));
        assert forall|i: int| 0 <= i < rest.len() implies is_markup_name((#[trigger] rest[i]).0)
            && !rest[i].1.contains('"') by {
            assert(rest[i] == attrs[i + 1]);
        }
        lemma_close(s, next, rest);
    }
}

/// An element that is written out is found: with its attributes by name and what stands in it, in
/// front of those that follow, and what stands outside it is what stands around it.
#[verifier::rlimit(40)]
pub proof fn law_elements_are_found(
    pre: Seq<char>,
    tag: Seq<char>,
    attrs: Seq<(Seq<char>, Seq<char>)>,
    inner: Seq<char>,
    rest: Seq<char>,
)
    requires
        is_markup_name(tag),
        writable(attrs),
        free_of(pre, seq!['<'] + tag),
        free_of(inner, seq!['<', '/'] + tag + seq!['>']),
    ensures
        ({
            let s = pre + element_markup(tag, attrs, inner) + rest;
            let own = Found { attrs: by_name(Map::empty(), attrs), inner };
            &&& first_element(s, tag) == Some(own)
            &&& elements(s, tag) == seq![own] + elements(rest, tag)
            &&& outside(s, tag) == pre + outside(rest, tag)
        }),
{
    let open = seq!['<'] + tag + attrs_markup(attrs) + seq!['>'];
    let close = seq!['<', '/'] + tag + seq!['>'];
    let s = pre + element_markup(tag, attrs, inner) + rest;
    reveal_strlit("<");
    reveal_strlit("</");
    reveal_strlit(">");
    let mark = seq!['<'] + tag;
    assert(opening(tag) =~= mark);
    assert(closing(tag) =~= close);
    assert forall|k: int| 0 < k < mark.len() implies #[trigger] mark[k] != mark[0] by {
        assert(mark[k] == tag[k - 1]);
        assert(Class::MarkupName.holds(tag[k - 1]));
    }
    assert forall|k: int| 0 < k < close.len() implies #[trigger] close[k] != close[0] by {
        if 2 <= k < 2 + tag.len() {
            assert(close[k] == tag[k - 2]);
            assert(Class::MarkupName.holds(tag[k - 2]));
        }
    }
    let body = attrs_markup(attrs) + seq!['>'];
    assert(s =~= pre + mark + (body + inner + close + rest));
    lemma_find_mark(pre, mark, body + inner + close + rest);
    let p = pre.len() as int;
    let at = p + mark.len();
    let head = pre + mark;
    assert(s =~= head + (body + (inner + close + rest)));
    assert(s.subrange(at, at + body.len()) =~= body);
    lemma_close(s, at, attrs);
    let gt = at + attrs_markup(attrs).len();
    let front = pre + open;
    assert(front.len() == gt + 1);
    assert(s =~= front + (inner + close + rest));
    lemma_find_mark(inner, close, rest);
    lemma_find_moves(front, inner + close + rest, close, 0);
    assert(s[gt - 1] != '/') by {
        if attrs.len() == 0 {
            assert(s[gt - 1] == tag[tag.len() - 1]);
            assert(Class::MarkupName.holds(tag[tag.len() - 1]));
        } else {
            lemma_attrs_end(attrs);
            assert(s[gt - 1] == attrs_markup(attrs).last());
        }
    }
    let pl = place(s, tag)->0;
    assert(pl.start == p && pl.close == gt && pl.inner_end == gt + 1 + inner.len());
    assert(s.subrange(p, gt + 1) =~= open);
    lemma_tag_attributes(tag, attrs);
    assert(s.subrange(gt + 1, gt + 1 + inner.len()) =~= inner);
    assert(s.skip(pl.end) =~= rest);
    assert(s.take(pl.start) =~= pre);
}

proof fn lemma_attrs_end(attrs: Seq<(Seq<char>, Seq<char>)>)
    requires
        attrs.len() > 0,
    ensures
        attrs_markup(attrs).len() > 0,
        attrs_markup(attrs).last() == '"',
    decreases attrs.len(),
{
    let one = attr_markup(attrs[0]);
    assert(one.last() == '"');
    let rest = attrs.skip(1);
    if rest.len() > 0 {
        lemma_attrs_end(rest);
        assert((one + attrs_markup(rest)).last() == attrs_markup(rest).last());
    } else {
        assert(one + attrs_markup(rest) =~= one);
    }
}

/// A text without a pattern stays as it is.
proof fn lemma_replaced_none(s: Seq<char>, p: Seq<char>, w: Seq<char>)
    requires
        forall|i: int| !#[trigger] occurs(s, p, i),
    ensures
        replaced(s, p, w) == s,
{
    lemma_find_from(s, p, 0);
    if let Some(i) = find_from(s, p, 0) {
        assert(occurs(s, p, i));
    }
}

/// A placeholder: a name between dollar signs.
pub open spec fn placeholder(name: Seq<char>) -> Seq<char> {
    seq!['$'] + name + seq!['$']
}

proof fn lemma_other_placeholder(a: Seq<char>, k: Seq<char>, b: Seq<char>, j: Seq<char>)
    requires
        !a.contains('$'),
        !k.contains('$'),
        !b.contains('$'),
        !j.contains('$'),
        j != k,
    ensures
        forall|i: int| !#[trigger] occurs(a + placeholder(k) + b, placeholder(j), i),
{
    let s = a + placeholder(k) + b;
    let p = placeholder(j);
    assert forall|i: int| !#[trigger] occurs(s, p, i) by {
        if occurs(s, p, i) {
            lemma_inside(s, p, i, 0);
            lemma_inside(s, p, i, j.len() as int + 1);
            assert(p[0] == '$');
            assert(p[j.len() as int + 1] == '$');
            lemma_dollars(a, k, b, i);
            lemma_dollars(a, k, b, i + j.len() + 1);
            assert(i == a.len());
            assert(j.len() == k.len());
            assert(j =~= k) by {
                assert forall|x: int| 0 <= x < j.len() implies j[x] == k[x] by {
                    lemma_inside(s, p, i, x + 1);
                    assert(p[x + 1] == j[x]);
                    assert(s[i + x + 1] == k[x]);
                }
            }
        }
    }
}

/// Where the dollar signs stand.
proof fn lemma_dollars(a: Seq<char>, k: Seq<char>, b: Seq<char>, i: int)
    requires
        !a.contains('$'),
        !k.contains('$'),
        !b.contains('$'),
        0 <= i < (a + placeholder(k) + b).len(),
        (a + placeholder(k) + b)[i] == '$',
    ensures
        i == a.len() || i == a.len() + k.len() + 1,
{
    let s = a + placeholder(k) + b;
    if i < a.len() {
        assert(s[i] == a[i]);
        assert(a.contains('$'));
    } else if a.len() < i < a.len() + k.len() + 1 {
        assert(s[i] == k[i - a.len() - 1]);
        assert(k.contains('$'));
    } else if i > a.len() + k.len() + 1 {
        assert(s[i] == b[i - a.len() - k.len() - 2]);
        assert(b.contains('$'));
    }
}

proof fn lemma_own_placeholder(a: Seq<char>, k: Seq<char>, b: Seq<char>, w: Seq<char>)
    requires
        !a.contains('$'),
        !k.contains('$'),
        !b.contains('$'),
    ensures
        replaced(a + placeholder(k) + b, placeholder(k), w) == a + w + b,
{
    let p = placeholder(k);
    let s = a + p + b;
    let n = a.len() as int;
    assert(s.subrange(n, n + p.len()) =~= p);
    assert forall|i: int| 0 <= i < n implies !#[trigger] occurs(s, p, i) by {
        if occurs(s, p, i) {
            lemma_inside(s, p, i, 0);
            assert(s[i] == a[i]);
            assert(a.contains('$'));
        }
    }
    lemma_find_stops(s, p, 0, n);
    assert(s.take(n) =~= a);
    assert(s.skip(n + p.len()) =~= b);
    lemma_no_dollar(b, p);
    lemma_replaced_none(b, p, w);
}

/// A text without a dollar sign holds no placeholder.
proof fn lemma_no_dollar(s: Seq<char>, p: Seq<char>)
    requires
        !s.contains('$'),
        p.len() > 0,
        p[0] == '$',
    ensures
        forall|i: int| !#[trigger] occurs(s, p, i),
{
    assert forall|i: int| !#[trigger] occurs(s, p, i) by {
        if occurs(s, p, i) {
            lemma_inside(s, p, i, 0);
            assert(s.contains('$'));
        }
    }
}

/// The placeholders, as texts.
proof fn lemma_placeholders()
    ensures
        "$RepresentationID$"@ == placeholder("RepresentationID"@),
        "$Number%01d$"@ == placeholder("Number%01d"@),
        "$Number$"@ == placeholder("Number"@),
        "$Bandwidth%01d$"@ == placeholder("Bandwidth%01d"@),
        "$Bandwidth$"@ == placeholder("Bandwidth"@),
        "$Time$"@ == placeholder("Time"@),
        !"RepresentationID"@.contains('$'),
        !"Number%01d"@.contains('$'),
        !"Number"@.contains('$'),
        !"Bandwidth%01d"@.contains('$'),
        !"Bandwidth"@.contains('$'),
        !"Time"@.contains('$'),
        "RepresentationID"@.len() == 16,
        "Number%01d"@.len() == 10,
        "Number"@.len() == 6,
        "Bandwidth%01d"@.len() == 13,
        "Bandwidth"@.len() == 9,
        "Time"@.len() == 4,
{
    reveal_strlit("$RepresentationID$");
    reveal_strlit("$Number%01d$");
    reveal_strlit("$Number$");
    reveal_strlit("$Bandwidth%01d$");
    reveal_strlit("$Bandwidth$");
    reveal_strlit("$Time$");
    reveal_strlit("RepresentationID");
    reveal_strlit("Number%01d");
    reveal_strlit("Number");
    reveal_strlit("Bandwidth%01d");
    reveal_strlit("Bandwidth");
    reveal_strlit("Time");
    assert("$RepresentationID$"@ =~= placeholder("RepresentationID"@));
    assert("$Number%01d$"@ =~= placeholder("Number%01d"@));
    assert("$Number$"@ =~= placeholder("Number"@));
    assert("$Bandwidth%01d$"@ =~= placeholder("Bandwidth%01d"@));
    assert("$Bandwidth$"@ =~= placeholder("Bandwidth"@));
    assert("$Time$"@ =~= placeholder("Time"@));
}

proof fn lemma_step(s: Seq<char>, a: Seq<char>, k: Seq<char>, b: Seq<char>, j: Seq<char>, w: Seq<char>)
    requires
        !a.contains('$'),
        !k.contains('$'),
        !b.contains('$'),
        !j.contains('$'),
        s == a + placeholder(k) + b,
    ensures
        replaced(s, placeholder(j), w) == (if j == k {
            a + w + b
        } else {
            s
        }),
{
    if j == k {
        lemma_own_placeholder(a, k, b, w);
    } else {
        lemma_other_placeholder(a, k, b, j);
        lemma_replaced_none(s, placeholder(j), w);
    }
}

proof fn lemma_done(s: Seq<char>, j: Seq<char>, w: Seq<char>)
    requires
        !s.contains('$'),
    ensures
        replaced(s, placeholder(j), w) == s,
        replaced(s, seq!['$'], Seq::empty()) == s,
{
    lemma_no_dollar(s, placeholder(j));
    lemma_replaced_none(s, placeholder(j), w);
    lemma_no_dollar(s, seq!['$']);
    lemma_replaced_none(s, seq!['$'], Seq::empty());
}

proof fn lemma_digits_plain(n: nat)
    ensures
        !dec(n).contains('$'),
{
    law_decimal_reads_back(n);
    if dec(n).contains('$') {
        let i = choose|i: int| 0 <= i < dec(n).len() && dec(n)[i] == '$';
        assert(is_digit(dec(n)[i]));
    }
}

proof fn lemma_joined_plain(a: Seq<char>, w: Seq<char>, b: Seq<char>)
    requires
        !a.contains('$'),
        !w.contains('$'),
        !b.contains('$'),
    ensures
        !(a + w + b).contains('$'),
{
    let s = a + w + b;
    if s.contains('$') {
        let i = choose|i: int| 0 <= i < s.len() && s[i] == '$';
        if i < a.len() {
            assert(a[i] == '$');
        } else if i < a.len() + w.len() {
            assert(w[i - a.len()] == '$');
        } else {
            assert(b[i - a.len() - w.len()] == '$');
        }
    }
}

/// What a placeholder stands for.
pub open spec fn stands_for(
    name: Seq<char>,
    id: Seq<char>,
    bandwidth: u64,
    number: int,
    time: int,
) -> Option<Seq<char>> {
    if name == "RepresentationID"@ {
        Some(id)
    } else if name == "Number"@ || name == "Number%01d"@ {
        Some(dec(number as nat))
    } else if name == "Bandwidth"@ || name == "Bandwidth%01d"@ {
        Some(dec(bandwidth as nat))
    } else if name == "Time"@ {
        Some(dec(time as nat))
    } else {
        None
    }
}

/// A template with one placeholder has it filled in: the identifier of the representation, the
/// number of the segment, the bandwidth or the time, and everything around it stays. A template
/// without a dollar sign stays as it is.
#[verifier::rlimit(40)]
pub proof fn law_placeholders_are_filled_in(
    a: Seq<char>,
    name: Seq<char>,
    b: Seq<char>,
    id: Seq<char>,
    bandwidth: u64,
    number: int,
    time: int,
)
    requires
        !a.contains('$'),
        !b.contains('$'),
        !id.contains('$'),
        stands_for(name, id, bandwidth, number, time) is Some,
    ensures
        substituted(a + placeholder(name) + b, id, bandwidth, number, time) == a + stands_for(
            name,
            id,
            bandwidth,
            number,
            time,
        )->0 + b,
        substituted(a, id, bandwidth, number, time) == a,
{
    lemma_placeholders();
    lemma_digits_plain(number as nat);
    lemma_digits_plain(bandwidth as nat);
    lemma_digits_plain(time as nat);
    let s = a + placeholder(name) + b;
    let w = stands_for(name, id, bandwidth, number, time)->0;
    let r = a + w + b;
    lemma_joined_plain(a, w, b);
    lemma_step(s, a, name, b, "RepresentationID"@, id);
    lemma_done(r, "RepresentationID"@, id);
    lemma_done(a, "RepresentationID"@, id);
    lemma_step(s, a, name, b, "Number%01d"@, dec(number as nat));
    lemma_done(r, "Number%01d"@, dec(number as nat));
    lemma_done(a, "Number%01d"@, dec(number as nat));
    lemma_step(s, a, name, b, "Number"@, dec(number as nat));
    lemma_done(r, "Number"@, dec(number as nat));
    lemma_done(a, "Number"@, dec(number as nat));
    lemma_step(s, a, name, b, "Bandwidth%01d"@, dec(bandwidth as nat));
    lemma_done(r, "Bandwidth%01d"@, dec(bandwidth as nat));
    lemma_done(a, "Bandwidth%01d"@, dec(bandwidth as nat));
    lemma_step(s, a, name, b, "Bandwidth"@, dec(bandwidth as nat));
    lemma_done(r, "Bandwidth"@, dec(bandwidth as nat));
    lemma_done(a, "Bandwidth"@, dec(bandwidth as nat));
    lemma_step(s, a, name, b, "Time"@, dec(time as nat));
    lemma_done(r, "Time"@, dec(time as nat));
    lemma_done(a, "Time"@, dec(time as nat));
}

/// The address of a segment is its name below the base address, with one slash between them; its
/// number counts from the template's first number, from one where that is zero, and its time is that
/// of all segments before it.
#[verifier::rlimit(40)]
pub proof fn law_segment_addresses(
    rep: RepView,
    t: TemplateView,
    count: int,
    i: int,
    a: Seq<char>,
    name: Seq<char>,
    b: Seq<char>,
)
    requires
        rep.segment_template == Some(t),
        0 <= i < count,
        !a.contains('$'),
        !b.contains('$'),
        !rep.id.contains('$'),
        t.media == a + placeholder(name) + b,
    ensures
        ({
            let start = if t.start_number == 0 {
                1
            } else {
                t.start_number as int
            };
            let below = if rep.base_url.len() == 0 || rep.base_url.last() == '/' {
                rep.base_url
            } else {
                rep.base_url.push('/')
            };
            match stands_for(name, rep.id, rep.bandwidth, start + i, i * t.duration) {
                Some(w) => templated_segment(rep, t, i).url == below + (a + w + b),
                None => true,
            }
        }),
{
    let start = first_number(t) as int;
    reveal_strlit("/");
    let u = rep.base_url;
    if u.len() > 0 {
        assert(u.skip(u.len() - 1)[0] == u.last());
        assert(u.skip(u.len() - 1) =~= seq![u.last()]);
        assert("/"@ =~= seq!['/']);
        if ends(u, "/"@) {
            assert(u.last() == '/') by {
                assert("/"@[0] == '/');
            }
        }
        assert(u + "/"@ =~= u.push('/'));
    }
    if stands_for(name, rep.id, rep.bandwidth, start + i, i * t.duration) is Some {
        law_placeholders_are_filled_in(
            a,
            name,
            b,
            rep.id,
            rep.bandwidth,
            start + i,
            i * t.duration,
        );
    }
}

/// A manifest's presentation time and buffer time are those that its root element gives under their
/// names, none where it gives none.
pub proof fn law_manifest_times(
    pre: Seq<char>,
    attrs: Seq<(Seq<char>, Seq<char>)>,
    inner: Seq<char>,
    rest: Seq<char>,
)
    requires
        writable(attrs),
        free_of(pre, seq!['<'] + "MPD"@),
        free_of(inner, seq!['<', '/'] + "MPD"@ + seq!['>']),
    ensures
        manifest(pre + element_markup("MPD"@, attrs, inner) + rest) matches Some(m) && {
            let given = by_name(Map::empty(), attrs);
            let ticks = |k: Seq<char>|
                if given.dom().contains(k) {
                    capped(duration_nanos(given[k]) as int)
                } else {
                    0u64
                };
            &&& m.duration_secs.ticks == ticks("mediaPresentationDuration"@)
            &&& m.duration_secs.per_second == 1_000_000_000
            &&& m.min_buffer_secs.ticks == ticks("minBufferTime"@)
            &&& m.min_buffer_secs.per_second == 1_000_000_000
        },
{
    reveal_strlit("MPD");
    law_elements_are_found(pre, "MPD"@, attrs, inner, rest);
}

proof fn lemma_number(m: Map<Seq<char>, Seq<char>>, k: Seq<char>, max: nat, default: nat, n: nat)
    requires
        n <= max,
    ensures
        m.dom().contains(k) && m[k] == dec(n) ==> number_attr(m, k, max, default) == n,
        !m.dom().contains(k) ==> number_attr(m, k, max, default) == default,
{
    law_decimal_reads_back(n);
    assert(is_digit(dec(n)[0]));
}

/// A representation has what its element says under each name: its identifier, its bandwidth, its
/// width and height, its codecs and its type, which it has from its set where it gives none itself.
pub proof fn law_representations(
    base: Seq<char>,
    set: Found,
    rep: Found,
    bandwidth: u64,
    width: u32,
    height: u32,
)
    ensures
        ({
            let r = rep_of(base, set, rep);
            let m = rep.attrs;
            &&& m.dom().contains("id"@) ==> r.id == m["id"@]
            &&& !m.dom().contains("id"@) ==> r.id == "<no-id>"@
            &&& m.dom().contains("bandwidth"@) && m["bandwidth"@] == dec(bandwidth as nat)
                ==> r.bandwidth == bandwidth
            &&& !m.dom().contains("bandwidth"@) ==> r.bandwidth == 0
            &&& m.dom().contains("width"@) && m["width"@] == dec(width as nat) ==> r.width == width
            &&& !m.dom().contains("width"@) ==> r.width == 0
            &&& m.dom().contains("height"@) && m["height"@] == dec(height as nat) ==> r.height
                == height
            &&& !m.dom().contains("height"@) ==> r.height == 0
            &&& m.dom().contains("codecs"@) ==> r.codecs == m["codecs"@]
            &&& m.dom().contains("mimeType"@) ==> r.mime_type == m["mimeType"@]
            &&& !m.dom().contains("mimeType"@) && set.attrs.dom().contains("mimeType"@)
                ==> r.mime_type == set.attrs["mimeType"@]
        }),
{
    lemma_number(rep.attrs, "bandwidth"@, u64::MAX as nat, 0, bandwidth as nat);
    lemma_number(rep.attrs, "width"@, u32::MAX as nat, 0, width as nat);
    lemma_number(rep.attrs, "height"@, u32::MAX as nat, 0, height as nat);
}

/// A template has what its element says under each name; without them it counts one tick to the
/// second, from segment one on, and has no length.
pub proof fn law_templates(m: Map<Seq<char>, Seq<char>>, scale: u64, start: u64, length: u64)
    ensures
        ({
            let t = template_of(m);
            &&& m.dom().contains("media"@) ==> t.media == m["media"@]
            &&& m.dom().contains("initialization"@) ==> t.initialization == m["initialization"@]
            &&& m.dom().contains("timescale"@) && m["timescale"@] == dec(scale as nat) ==> t.timescale
                == scale
            &&& !m.dom().contains("timescale"@) ==> t.timescale == 1
            &&& m.dom().contains("startNumber"@) && m["startNumber"@] == dec(start as nat)
                ==> t.start_number == start
            &&& !m.dom().contains("startNumber"@) ==> t.start_number == 1
            &&& m.dom().contains("duration"@) && m["duration"@] == dec(length as nat) ==> t.duration
                == length
            &&& !m.dom().contains("duration"@) ==> t.duration == 0
        }),
{
    lemma_number(m, "timescale"@, u64::MAX as nat, 1, scale as nat);
    lemma_number(m, "startNumber"@, u64::MAX as nat, 1, start as nat);
    lemma_number(m, "duration"@, u64::MAX as nat, 0, length as nat);
}

/// The content type of a MIME type is what stands before its slash; text for applications.
#[verifier::rlimit(40)]
pub proof fn law_mime_types(sub: Seq<char>)
    ensures
        type_of_mime("video/"@ + sub) == "video"@,
        type_of_mime("audio/"@ + sub) == "audio"@,
        type_of_mime("text/"@ + sub) == "text"@,
        type_of_mime("application/"@ + sub) == "text"@,
{
    reveal_strlit("video/");
    reveal_strlit("audio/");
    reveal_strlit("text/");
    reveal_strlit("application/");
    let v = "video/"@ + sub;
    let a = "audio/"@ + sub;
    let t = "text/"@ + sub;
    let p = "application/"@ + sub;
    assert(v.subrange(0, 6) =~= "video/"@);
    assert(a.subrange(0, 6) =~= "audio/"@);
    assert(t.subrange(0, 5) =~= "text/"@);
    assert(p.subrange(0, 12) =~= "application/"@);
    if occurs(a, "video/"@, 0) {
        assert(a.subrange(0, 6)[0] == 'v');
    }
    if occurs(t, "video/"@, 0) {
        assert(t.subrange(0, 6)[0] == 'v');
    }
    if occurs(t, "audio/"@, 0) {
        assert(t.subrange(0, 6)[0] == 'a');
    }
    if occurs(p, "video/"@, 0) {
        assert(p.subrange(0, 6)[0] == 'v');
    }
    if occurs(p, "audio/"@, 0) {
        assert(p.subrange(0, 6)[1] == 'u');
    }
}

/// A choice for quality may spend the whole budget, and a cautious one stays strictly below it;
/// either goes above only where nothing is there to stay within it.
pub proof fn law_budgets(reps: Seq<RepView>, budget: u64, k: int, j: int)
    requires
        0 <= j < reps.len(),
    ensures
        best_at(reps, budget, AbrPolicy::MaximizeQuality, k) ==> {
            ||| reps[k].bandwidth <= budget && (reps[j].bandwidth <= budget ==> reps[j].bandwidth
                <= reps[k].bandwidth)
            ||| reps[j].bandwidth > budget && reps[k].bandwidth <= reps[j].bandwidth
        },
        best_at(reps, budget, AbrPolicy::Conservative, k) ==> {
            ||| reps[k].bandwidth < budget && (reps[j].bandwidth < budget ==> reps[j].bandwidth
                <= reps[k].bandwidth)
            ||| reps[j].bandwidth >= budget && reps[k].bandwidth <= reps[j].bandwidth
        },
{
    assert(reps[j].bandwidth == reps[j].bandwidth);
}

/// The ladder of a content type is made of the representations of the sets of that type, in whatever
/// case, in order.
pub proof fn law_ladder(sets: Seq<SetView>, s: SetView, content_type: Seq<char>)
    ensures
        of_type(Seq::empty(), content_type) == Seq::<RepView>::empty(),
        of_type(sets.push(s), content_type) == of_type(sets, content_type) + (if lower_seq(
            s.content_type,
        ) == lower_seq(content_type) {
            s.representations
        } else {
            Seq::empty()
        }),
{
    assert(sets.push(s).drop_last() =~= sets);
    assert(of_type(sets, content_type) + Seq::<RepView>::empty() =~= of_type(sets, content_type));
}

/// A segment holds thirty frames to the second, to the nearest whole frame.
pub proof fn law_frames(rep: RepView)
    requires
        segment_seconds(rep).ticks > 0,
        segment_seconds(rep).per_second > 0,
    ensures
        ({
            let d = segment_seconds(rep);
            let n = frames_in(d);
            &&& 2 * n * d.per_second <= 60 * d.ticks + d.per_second
            &&& 60 * d.ticks + d.per_second < 2 * (n + 1) * d.per_second
        }),
{
    let d = segment_seconds(rep);
    let x = 60 * d.ticks + d.per_second;
    let y = 2 * d.per_second as int;
    let n = frames_in(d);
    assert(n == x / y);
    assert(n * y <= x < (n + 1) * y) by (nonlinear_arith)
        requires
            n == x / y,
            y > 0,
    ;
    assert(2 * n * d.per_second == n * y) by (nonlinear_arith)
        requires
            y == 2 * d.per_second,
    ;
    assert(2 * (n + 1) * d.per_second == (n + 1) * y) by (nonlinear_arith)
        requires
            y == 2 * d.per_second,
    ;
}

/// A backend is usable where it is software, or where hardware paths are built in and the platform
/// offers its own; a larger picture suits hardware better, and any picture better than software.
pub proof fn law_backends(
    built_in: bool,
    vaapi: bool,
    vulkan: bool,
    small: RepView,
    large: RepView,
    kind: BackendKind,
)
    ensures
        usable(built_in, vaapi, vulkan).contains(BackendKind::Software),
        usable(built_in, vaapi, vulkan).contains(BackendKind::Vaapi) <==> built_in && vaapi,
        usable(built_in, vaapi, vulkan).contains(BackendKind::Vulkan) <==> built_in && vulkan,
        kind != BackendKind::Software ==> (suitability(kind, small, built_in) is Some <==> built_in),
        kind != BackendKind::Software && built_in ==> suitability(kind, small, built_in)->0
            > suitability(BackendKind::Software, small, built_in)->0,
        kind != BackendKind::Software && built_in && small.width + 10 <= large.width && small.height
            <= large.height ==> suitability(kind, small, built_in)->0 < suitability(
            kind,
            large,
            built_in,
        )->0,
        kind != BackendKind::Software && built_in && small.width <= large.width && small.height + 10
            <= large.height ==> suitability(kind, small, built_in)->0 < suitability(
            kind,
            large,
            built_in,
        )->0,
{
    let u = usable(built_in, vaapi, vulkan);
    assert(u[0] == BackendKind::Software);
    if built_in && vaapi {
        assert(u[1] == BackendKind::Vaapi);
        if vulkan {
            assert(u[2] == BackendKind::Vulkan);
        }
    } else if built_in && vulkan {
        assert(u[1] == BackendKind::Vulkan);
    }
}

/// The segments that a list names are numbered from zero and have their times in thousandths of a
/// second. One that names no address of its own has it below the base address, with one slash
/// between them.
pub proof fn law_listed_segments(base: Seq<char>, es: Seq<Found>, e: Found, ticks: u64, inner: Seq<char>)
    requires
        es.len() <= u64::MAX,
    ensures
        ({
            let all = listed_segments(base, es.push(e));
            let s = all.last();
            let below = if base.len() > 0 && base.last() == '/' {
                base
            } else {
                base.push('/')
            };
            &&& all.len() == es.len() + 1
            &&& all.drop_last() == listed_segments(base, es)
            &&& s.number == es.len()
            &&& s.duration_secs.per_second == 1000
            &&& e.attrs.dom().contains("d"@) && e.attrs["d"@] == dec(ticks as nat)
                ==> s.duration_secs.ticks == ticks
            &&& !e.attrs.dom().contains("d"@) ==> s.duration_secs.ticks == 0
            &&& e.attrs.dom().contains("media"@) ==> s.url == e.attrs["media"@]
            &&& !e.attrs.dom().contains("media"@) && first_element(e.inner, "BaseURL"@) is None
                ==> s.url.len() == 0
            &&& !e.attrs.dom().contains("media"@) && (first_element(e.inner, "BaseURL"@) matches Some(b)
                && b.inner == inner && trim(inner) == inner) ==> s.url == below + inner
        }),
{
    assert(es.push(e).drop_last() =~= es);
    lemma_listed_len(base, es);
    let all = listed_segments(base, es.push(e));
    assert(all.drop_last() =~= listed_segments(base, es));
    lemma_number(e.attrs, "d"@, u64::MAX as nat, 0, ticks as nat);
    reveal_strlit("/");
    assert("/"@ =~= seq!['/']);
    if base.len() > 0 {
        assert(base.skip(base.len() - 1) =~= seq![base.last()]);
        assert(base.skip(base.len() - 1)[0] == base.last());
        assert(seq!['/'][0] == '/');
    }
    assert(base + "/"@ =~= base.push('/'));
}

proof fn lemma_listed_len(base: Seq<char>, es: Seq<Found>)
    ensures
        listed_segments(base, es).len() == es.len(),
    decreases es.len(),
{
    if es.len() > 0 {
        lemma_listed_len(base, es.drop_last());
    }
}

/// A set has the content type that it names, or else the one of its MIME type; its representations
/// are those that stand in it, in order. A set without representations is left out.
pub proof fn law_sets(base: Seq<char>, sets: Seq<Found>, set: Found)
    ensures
        ({
            let s = set_of(base, set);
            let m = set.attrs;
            let own = match first_element(outside(set.inner, "Representation"@), "BaseURL"@) {
                Some(b) => trim(b.inner),
                None => base,
            };
            let reps = elements(set.inner, "Representation"@);
            &&& m.dom().contains("contentType"@) ==> s.content_type == m["contentType"@]
            &&& !m.dom().contains("contentType"@) && m.dom().contains("mimeType"@) ==> s.content_type
                == type_of_mime(m["mimeType"@])
            &&& !m.dom().contains("contentType"@) && !m.dom().contains("mimeType"@)
                ==> s.content_type.len() == 0
            &&& s.representations == reps.map_values(|r: Found| rep_of(own, set, r))
            &&& sets_of(base, Seq::empty()).len() == 0
            &&& sets_of(base, sets.push(set)) == (if reps.len() > 0 {
                sets_of(base, sets).push(s)
            } else {
                sets_of(base, sets)
            })
        }),
{
    assert(sets.push(set).drop_last() =~= sets);
    let own = match first_element(outside(set.inner, "Representation"@), "BaseURL"@) {
        Some(b) => trim(b.inner),
        None => base,
    };
    lemma_reps(own, set, elements(set.inner, "Representation"@));
}

proof fn lemma_reps(base: Seq<char>, set: Found, reps: Seq<Found>)
    ensures
        reps_of(base, set, reps) == reps.map_values(|r: Found| rep_of(base, set, r)),
    decreases reps.len(),
{
    if reps.len() > 0 {
        lemma_reps(base, set, reps.drop_last());
    }
    assert(reps_of(base, set, reps) =~= reps.map_values(|r: Found| rep_of(base, set, r)));
}

/// A representation has its base address, its template and its list from itself where it has them,
/// and otherwise from its set, outside of the other representations.
pub proof fn law_representations_inherit(base: Seq<char>, set: Found, rep: Found)
    ensures
        ({
            let r = rep_of(base, set, rep);
            let shared = outside(set.inner, "Representation"@);
            let template = |s: Seq<char>| first_element(s, "SegmentTemplate"@);
            let list = |s: Seq<char>| first_element(s, "SegmentList"@);
            let own = first_element(outside(rep.inner, "SegmentList"@), "BaseURL"@);
            &&& own is None ==> r.base_url == base
            &&& own matches Some(b) ==> r.base_url == trim(b.inner)
            &&& template(rep.inner) matches Some(t) ==> r.segment_template == Some(template_of(t.attrs))
            &&& template(rep.inner) is None ==> (template(shared) matches Some(t) ==> r.segment_template
                == Some(template_of(t.attrs)))
            &&& template(rep.inner) is None && template(shared) is None ==> r.segment_template is None
            &&& list(rep.inner) matches Some(l) ==> r.segments == listed_segments(
                r.base_url,
                elements(l.inner, "SegmentURL"@),
            )
            &&& list(rep.inner) is None ==> (list(shared) matches Some(l) ==> r.segments
                == listed_segments(r.base_url, elements(l.inner, "SegmentURL"@)))
            &&& list(rep.inner) is None && list(shared) is None ==> r.segments.len() == 0
        }),
{
}

/// An element that closes itself has nothing in it and ends with its tag, whatever follows; one that
/// is never closed is none.
#[verifier::rlimit(40)]
pub proof fn law_elements_without_content(pre: Seq<char>, tag: Seq<char>, rest: Seq<char>)
    requires
        is_markup_name(tag),
        free_of(pre, seq!['<'] + tag),
    ensures
        ({
            let s = pre + (seq!['<'] + tag + seq!['/', '>']) + rest;
            &&& first_element(s, tag) matches Some(f) && f.inner.len() == 0 && elements(s, tag) == seq![f]
                + elements(rest, tag)
            &&& outside(s, tag) == pre + outside(rest, tag)
        }),
        free_of(pre + (seq!['<'] + tag + seq!['>']) + rest, seq!['<', '/'] + tag + seq!['>'])
            ==> first_element(pre + (seq!['<'] + tag + seq!['>']) + rest, tag) is None,
{
    reveal_strlit("<");
    reveal_strlit("</");
    reveal_strlit(">");
    let mark = seq!['<'] + tag;
    let close = seq!['<', '/'] + tag + seq!['>'];
    assert(opening(tag) =~= mark);
    assert(closing(tag) =~= close);
    assert forall|k: int| 0 < k < mark.len() implies #[trigger] mark[k] != mark[0] by {
        assert(mark[k] == tag[k - 1]);
        assert(Class::MarkupName.holds(tag[k - 1]));
    }
    let p = pre.len() as int;
    let at = (p + mark.len()) as int;
    let s = pre + (mark + seq!['/', '>']) + rest;
    assert(s =~= pre + mark + (seq!['/', '>'] + rest));
    lemma_find_mark(pre, mark, seq!['/', '>'] + rest);
    assert(s[at] == '/' && s[at + 1] == '>');
    assert(tag_close(s, at + 1, None) == Some(at + 1));
    assert(tag_close(s, at, None) == Some(at + 1));
    let pl = place(s, tag)->0;
    assert(pl.start == p && pl.end == at + 2);
    assert(s.skip(pl.end) =~= rest);
    assert(s.take(pl.start) =~= pre);
    let u = pre + (mark + seq!['>']) + rest;
    if free_of(u, close) {
        assert(u =~= pre + mark + (seq!['>'] + rest));
        lemma_find_mark(pre, mark, seq!['>'] + rest);
        assert(u[at] == '>');
        assert(tag_close(u, at, None) == Some(at));
        assert(u[at - 1] == tag[tag.len() - 1]);
        assert(Class::MarkupName.holds(tag[tag.len() - 1]));
        lemma_find_from(u, close, at + 1);
        if let Some(k) = find_from(u, close, at + 1) {
            assert(occurs(u, close, k));
        }
    }
}

} // verus!
