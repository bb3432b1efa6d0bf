//! What is read off a document: its encoding, its nodes, the words of its attributes, and the rules of
//! its style sheets.
use crate::runtime::css::{
    attr_in, child_elements, child_of, declaration, has_word, is_tag, rules_of, sound, substantial,
    supported_among, ListedView, RuleView,
};
use crate::runtime::html::{
    begins, charset_from, decoded, first_element_at, html_text, head_of, kept, label_end, past_gaps,
    sniffed, DataView, NodeView,
};
use crate::runtime::stream_laws::free_of;
use crate::string_laws::{
    law_pieces_are_between_separators, law_trim_takes_white_space, lemma_find_char, lemma_find_mark,
    lemma_run_moves, lemma_run_reaches, tight,
};
use crate::strings::{
    blank, find_from, lemma_find_from, lemma_run_end, pieces, lossy_text, lower_seq, run_end, Class,
};
use vstd::prelude::*;

verus! {

/// Whether a text is made of spaces and tabs.
pub open spec fn all_gaps(s: Seq<char>) -> bool {
    forall|i: int| 0 <= i < s.len() ==> #[trigger] s[i] == ' ' || s[i] == '\t'
}

/// Whether a text can be the label of an encoding.
pub open spec fn is_label(s: Seq<char>) -> bool {
    s.len() > 0 && forall|i: int|
        0 <= i < s.len() ==> !blank(#[trigger] s[i]) && s[i] != '>' && s[i] != '"' && s[i] != '\''
}

proof fn lemma_gaps(s: Seq<char>, i: int, j: int)
    requires
        0 <= i <= j <= s.len(),
        forall|k: int| i <= k < j ==> #[trigger] s[k] == ' ' || s[k] == '\t',
        j < s.len() ==> s[j] != ' ' && s[j] != '\t',
    ensures
        past_gaps(s, i) == j,
    decreases j - i,
{
    if i < j {
        assert(s[i] == ' ' || s[i] == '\t');
        lemma_gaps(s, i + 1, j);
    }
}

proof fn lemma_label(s: Seq<char>, i: int, j: int)
    requires
        0 <= i <= j <= s.len(),
        forall|k: int|
            i <= k < j ==> !blank(#[trigger] s[k]) && s[k] != '>' && s[k] != '"' && s[k] != '\'',
        j < s.len() ==> blank(s[j]) || s[j] == '>' || s[j] == '"' || s[j] == '\'',
    ensures
        label_end(s, i) == j,
    decreases j - i,
{
    if i < j {
        assert(!blank(s[i]));
        lemma_label(s, i + 1, j);
    }
}

/// The encoding that a document declares is what stands behind the first `charset`, in whatever case,
/// and its equals sign, with or without quotes, up to white space, the end of the tag or a quote.
#[verifier::rlimit(40)]
pub proof fn law_declared_encoding(
    a: Seq<char>,
    word: Seq<char>,
    b: Seq<char>,
    c: Seq<char>,
    q: Seq<char>,
    label: Seq<char>,
    rest: Seq<char>,
)
    requires
        free_of(lower_seq(a), "charset"@),
        lower_seq(word) == "charset"@,
        all_gaps(b),
        all_gaps(c),
        q.len() == 0 || (q.len() == 1 && (q[0] == '"' || q[0] == '\'')),
        is_label(label),
        rest.len() == 0 || blank(rest[0]) || rest[0] == '>' || rest[0] == '"' || rest[0] == '\'',
    ensures
        charset_from(a + word + b + seq!['='] + c + q + label + rest, 0) == Some(label),
{
    let s = a + word + b + seq!['='] + c + q + label + rest;
    let more = b + seq!['='] + c + q + label + rest;
    reveal_strlit("charset");
    let n = a.len() as int;
    assert(word.len() == 7) by {
        assert(lower_seq(word).len() == word.len());
    }
    assert(lower_seq(s) =~= lower_seq(a) + "charset"@ + lower_seq(more)) by {
        assert(lower_seq(s) =~= lower_seq(a) + lower_seq(word) + lower_seq(more));
    }
    assert(lower_seq(a).len() == n);
    lemma_find_mark(lower_seq(a), "charset"@, lower_seq(more));
    let i = n + 7;
    let eq = i + b.len();
    assert forall|k: int| i <= k < eq implies #[trigger] s[k] == ' ' || s[k] == '\t' by {
        assert(s[k] == b[k - i]);
    }
    assert(s[eq] == '=');
    lemma_gaps(s, i, eq);
    let v = eq + 1 + c.len();
    assert forall|k: int| eq + 1 <= k < v implies #[trigger] s[k] == ' ' || s[k] == '\t' by {
        assert(s[k] == c[k - eq - 1]);
    }
    let from = v + q.len();
    assert(s[from] == label[0]);
    if q.len() == 1 {
        assert(s[v] == q[0]);
    }
    assert(!blank(label[0]));
    lemma_gaps(s, eq + 1, v);
    let to = from + label.len();
    assert forall|k: int| from <= k < to implies !blank(#[trigger] s[k]) && s[k] != '>' && s[k] != '"'
        && s[k] != '\'' by {
        assert(s[k] == label[k - from]);
    }
    if to < s.len() {
        assert(s[to] == rest[0]);
    }
    lemma_label(s, from, to);
    assert(s.subrange(from, to) =~= label);
}

/// A document that starts with no byte order mark and declares nothing in its first bytes is taken as
/// Western text, and a declaration is looked for in the first 1024 bytes.
pub proof fn law_default_encoding(source: Seq<u8>, more: Seq<u8>)
    requires
        source.len() == 1024,
        !begins(source, seq![0xEFu8, 0xBBu8, 0xBFu8]),
        !begins(source, seq![0xFFu8, 0xFEu8]),
        !begins(source, seq![0xFEu8, 0xFFu8]),
    ensures
        charset_from(lossy_text(source), 0) is None ==> sniffed(source) == "windows-1252"@,
        charset_from(lossy_text(source), 0) matches Some(l) ==> sniffed(source) == l,
        sniffed(source + more) == sniffed(source),
{
    let s = source + more;
    assert(s.take(1024) =~= source);
    assert(head_of(s) =~= source);
    assert(s.take(3) =~= source.take(3));
    assert(s.take(2) =~= source.take(2));
}

/// A document keeps its elements and runs of text, in order and as deep as they stood, and nothing
/// else.
pub proof fn law_kept_nodes(tree: Seq<(usize, Option<DataView>)>)
    ensures
        kept(tree) == tree.filter(|n: (usize, Option<DataView>)| n.1 is Some).map_values(
            |n: (usize, Option<DataView>)| (n.0, n.1->0),
        ),
    decreases tree.len(),
{
    reveal(Seq::filter);
    if tree.len() > 0 {
        law_kept_nodes(tree.drop_last());
    }
    assert(kept(tree) =~= tree.filter(|n: (usize, Option<DataView>)| n.1 is Some).map_values(
        |n: (usize, Option<DataView>)| (n.0, n.1->0),
    ));
}

/// The root of a document is its first element.
pub proof fn law_root(nodes: Seq<NodeView>, from: int)
    requires
        0 <= from,
    ensures
        first_element_at(nodes, from) matches Some(i) ==> from <= i < nodes.len() && nodes[i].1 is Tag
            && forall|j: int| from <= j < i ==> (#[trigger] nodes[j]).1 is Run,
        first_element_at(nodes, from) is None ==> forall|j: int|
            from <= j < nodes.len() ==> (#[trigger] nodes[j]).1 is Run,
    decreases nodes.len() - from,
{
    if from < nodes.len() && nodes[from].1 is Run {
        law_root(nodes, from + 1);
    }
}

/// An attribute has the value that is given first.
pub proof fn law_attribute_values(
    attrs: Seq<(Seq<char>, Seq<char>)>,
    name: Seq<char>,
    i: int,
)
    requires
        0 <= i < attrs.len(),
        attrs[i].0 == name,
        forall|j: int| 0 <= j < i ==> (#[trigger] attrs[j]).0 != name,
    ensures
        attr_in(attrs, name) == Some(attrs[i].1),
    decreases attrs.len(),
{
    if i > 0 {
        assert(attrs[0].0 != name);
        let rest = attrs.skip(1);
        assert(rest[i - 1] == attrs[i]);
        assert forall|j: int| 0 <= j < i - 1 implies (#[trigger] rest[j]).0 != name by {
            assert(rest[j] == attrs[j + 1]);
        }
        law_attribute_values(rest, name, i - 1);
    }
}

/// A list of classes holds a word where one of the words between its blanks is that word, in whatever
/// case where case does not count.
pub proof fn law_class_words(
    a: Seq<char>,
    w: Seq<char>,
    rest: Seq<char>,
    word: Seq<char>,
    ignore_case: bool,
)
    requires
        forall|i: int| 0 <= i < a.len() ==> blank(#[trigger] a[i]),
        w.len() > 0,
        forall|i: int| 0 <= i < w.len() ==> !blank(#[trigger] w[i]),
        rest.len() == 0 || blank(rest[0]),
    ensures
        !has_word(a, 0, word, ignore_case),
        has_word(a + w + rest, 0, word, ignore_case) <==> (if ignore_case {
            lower_seq(w) == lower_seq(word)
        } else {
            w == word
        }) || has_word(rest, 0, word, ignore_case),
{
    let s = a + w + rest;
    let n = a.len() as int;
    let e = n + w.len();
    assert forall|i: int| 0 <= i < n implies Class::Blank.holds(#[trigger] s[i]) by {
        assert(s[i] == a[i]);
    }
    assert forall|i: int| 0 <= i < n implies Class::Blank.holds(#[trigger] a[i]) by {}
    lemma_run_reaches(a, 0, n, Class::Blank);
    assert(s[n] == w[0]);
    lemma_run_reaches(s, 0, n, Class::Blank);
    assert forall|i: int| n <= i < e implies Class::Solid.holds(#[trigger] s[i]) by {
        assert(s[i] == w[i - n]);
    }
    if e < s.len() {
        assert(s[e] == rest[0]);
    }
    lemma_run_reaches(s, n, e, Class::Solid);
    assert(s.subrange(n, e) =~= w);
    assert(s =~= (a + w) + rest);
    lemma_words_move(a + w, rest, 0, word, ignore_case);
}

proof fn lemma_words_move(
    p: Seq<char>,
    s: Seq<char>,
    i: int,
    word: Seq<char>,
    ignore_case: bool,
)
    requires
        0 <= i <= s.len(),
    ensures
        has_word(p + s, p.len() + i, word, ignore_case) == has_word(s, i, word, ignore_case),
    decreases s.len() - i,
{
    lemma_run_moves(p, s, i, Class::Blank);
    lemma_run_end(s, i, Class::Blank);
    let from = run_end(s, i, Class::Blank);
    if from < s.len() {
        lemma_run_moves(p, s, from, Class::Solid);
        assert(!Class::Blank.holds(s[from]));
        assert(Class::Solid.holds(s[from]));
        lemma_run_end(s, from + 1, Class::Solid);
        let to = run_end(s, from, Class::Solid);
        assert(from < to <= s.len());
        assert((p + s).subrange(p.len() + from, p.len() + to) =~= s.subrange(from, to));
        lemma_words_move(p, s, to, word, ignore_case);
    }
}

/// The rules of a style sheet are its style rules, but for those that declare something and give a
/// value for none of it.
pub proof fn law_style_rules(listing: Seq<ListedView>)
    ensures
        rules_of(listing) == listing.filter(|l: ListedView| l is Some && sound((l->0).1)).map_values(
            |l: ListedView| RuleView { selectors_css: (l->0).0, declarations_css: (l->0).1 },
        ),
    decreases listing.len(),
{
    reveal(Seq::filter);
    if listing.len() > 0 {
        law_style_rules(listing.drop_last());
    }
    assert(rules_of(listing) =~= listing.filter(
        |l: ListedView| l is Some && sound((l->0).1),
    ).map_values(|l: ListedView| RuleView { selectors_css: (l->0).0, declarations_css: (l->0).1 }));
}

/// A rule is kept where its selectors are supported, and the rules keep their order.
pub proof fn law_supported_rules(rules: Seq<RuleView>, supported: Seq<bool>, r: RuleView, ok: bool)
    requires
        rules.len() == supported.len(),
    ensures
        supported_among(rules.push(r), supported.push(ok)) == (if ok {
            supported_among(rules, supported).push(r)
        } else {
            supported_among(rules, supported)
        }),
{
    assert(rules.push(r).drop_last() =~= rules);
    lemma_supported_prefix(rules, supported, supported.push(ok));
}

proof fn lemma_supported_prefix(rules: Seq<RuleView>, a: Seq<bool>, b: Seq<bool>)
    requires
        rules.len() <= a.len(),
        rules.len() <= b.len(),
        forall|i: int| 0 <= i < rules.len() ==> a[i] == b[i],
    ensures
        supported_among(rules, a) == supported_among(rules, b),
    decreases rules.len(),
{
    if rules.len() > 0 {
        lemma_supported_prefix(rules.drop_last(), a, b);
        assert(a[rules.len() - 1] == b[rules.len() - 1]);
    }
}

/// A list of child elements holds every element that stands right below its parent, once and in
/// order.
pub proof fn law_child_elements(nodes: Seq<NodeView>, parent: int, to: int, k: int)
    requires
        0 <= to <= nodes.len() <= usize::MAX,
        0 <= k < nodes.len(),
    ensures
        child_elements(nodes, parent, to).contains(k as usize) <==> k < to && parent < k && 0 <= parent
            && nodes[k].1 is Tag && nodes[parent].0 < nodes[k].0 && forall|j: int|
            parent < j < k ==> (#[trigger] nodes[j]).0 >= nodes[k].0,
        forall|i: int, j: int|
            0 <= i < j < child_elements(nodes, parent, to).len() ==> child_elements(
                nodes,
                parent,
                to,
            )[i] < child_elements(nodes, parent, to)[j],
        forall|i: int|
            0 <= i < child_elements(nodes, parent, to).len() ==> #[trigger] child_elements(
                nodes,
                parent,
                to,
            )[i] < to,
    decreases to,
{
    if to > 0 {
        law_child_elements(nodes, parent, to - 1, k);
        let front = child_elements(nodes, parent, to - 1);
        let all = child_elements(nodes, parent, to);
        if child_of(nodes, parent, to - 1) && is_tag(nodes, to - 1) {
            assert(all == front.push((to - 1) as usize));
            if k == to - 1 {
                assert(all[front.len() as int] == k as usize);
            }
            if all.contains(k as usize) && k != to - 1 {
                let i = choose|i: int| 0 <= i < all.len() && all[i] == k as usize;
                assert(i < front.len());
                assert(front[i] == k as usize);
            }
            if front.contains(k as usize) {
                let i = choose|i: int| 0 <= i < front.len() && front[i] == k as usize;
                assert(all[i] == k as usize);
            }
        }
    }
}

/// A block of declarations stands unless it declares something and gives nothing a value; a custom
/// property may be empty.
#[verifier::rlimit(40)]
pub proof fn law_sound_blocks(name: Seq<char>, value: Seq<char>)
    requires
        !name.contains(':') && !name.contains(';'),
        !value.contains(';'),
        tight(name),
        tight(value),
    ensures
        sound(name + seq![':'] + value) <==> value.len() > 0 || (name.len() >= 2 && name[0] == '-'
            && name[1] == '-'),
        sound(name),
{
    let d = name + seq![':'] + value;
    let e = Seq::<char>::empty();
    reveal_strlit(":");
    assert(":"@ =~= seq![':']);
    assert(!d.contains(';')) by {
        if d.contains(';') {
            let i = choose|i: int| 0 <= i < d.len() && d[i] == ';';
            if i < name.len() {
                assert(name[i] == ';');
            } else if i > name.len() {
                assert(value[i - name.len() - 1] == ';');
            }
        }
    }
    law_pieces_are_between_separators(d, ';', e);
    law_pieces_are_between_separators(name, ';', e);
    lemma_find_char(name, ":"@, value);
    assert(d.take(name.len() as int) =~= name);
    assert(d.skip(name.len() as int + 1) =~= value);
    law_trim_takes_white_space(e, name, e);
    law_trim_takes_white_space(e, value, e);
    assert(e + name + e =~= name);
    assert(e + value + e =~= value);
    assert(declaration(d) == Some((name, value)));
    let ds = pieces(d, ';');
    assert(ds =~= seq![d]);
    assert(ds[0] == d);
    assert(declaration(ds[0]) is Some);
    lemma_find_from(name, ":"@, 0);
    if let Some(i) = find_from(name, ":"@, 0) {
        assert(name.subrange(i, i + 1)[0] == name[i]);
        assert(name.contains(name[i]));
    }
    let ns = pieces(name, ';');
    assert(ns =~= seq![name]);
}

/// What keeps an element from being empty: an element, or text that is not empty.
pub proof fn law_substance(n: NodeView)
    ensures
        n.1 is Tag ==> substantial(n),
        n.1 matches DataView::Run(t) ==> (substantial(n) <==> t.len() > 0),
{
}

/// A byte order mark at the start of a document tells its encoding, whatever the document declares.
pub proof fn law_byte_order_marks(rest: Seq<u8>)
    ensures
        sniffed(seq![0xEFu8, 0xBBu8, 0xBFu8] + rest) == "utf-8"@,
        sniffed(seq![0xFFu8, 0xFEu8] + rest) == "utf-16le"@,
        sniffed(seq![0xFEu8, 0xFFu8] + rest) == "utf-16be"@,
{
    let a = seq![0xEFu8, 0xBBu8, 0xBFu8];
    let b = seq![0xFFu8, 0xFEu8];
    let c = seq![0xFEu8, 0xFFu8];
    assert((a + rest).take(3) =~= a);
    assert((b + rest).take(2) =~= b);
    assert((c + rest).take(2) =~= c);
    if begins(b + rest, a) {
        assert((b + rest).take(3)[0] == a[0]);
    }
    if begins(c + rest, a) {
        assert((c + rest).take(3)[0] == a[0]);
    }
    assert(b[0] == 0xFFu8 && c[0] == 0xFEu8);
    if begins(c + rest, b) {
        assert((c + rest).take(2)[0] == b[0]);
    }
}

/// A document is read in its own encoding where that is known, and otherwise as Western text.
pub proof fn law_unknown_encodings(source: Seq<u8>)
    ensures
        decoded(source, sniffed(source)) matches Some(t) ==> html_text(source) == t,
        decoded(source, sniffed(source)) is None ==> (decoded(source, "windows-1252"@) matches Some(t)
            ==> html_text(source) == t),
{
}

} // verus!
