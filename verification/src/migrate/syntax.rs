//! Syntax trees of scripts, as plain values.
use crate::strings::{char_bytes, chars_of, chars_within, char_index, lemma_chars_within, slice_string, str_eq, utf8_len};
use vstd::prelude::*;

verus! {

/// Which grammar to parse a source with.
#[derive(Debug, Clone, Copy, PartialEq, Eq)]
pub enum SourceLang {
    JavaScript,
    TypeScript,
    Tsx,
}

/// A node as a parser lists it: how deep it stands, its kind, whether it is named, the field of its
/// parent that it fills, and the bytes it spans.
pub struct FlatNode {
    pub depth: u32,
    pub kind: String,
    pub named: bool,
    pub field: Option<String>,
    pub start: usize,
    pub end: usize,
}

/// The mathematical form of a listed node.
pub struct FlatView {
    pub depth: nat,
    pub kind: Seq<char>,
    pub named: bool,
    pub field: Option<Seq<char>>,
    pub start: nat,
    pub end: nat,
}

impl DeepView for FlatNode {
    type V = FlatView;

    open spec fn deep_view(&self) -> FlatView {
        FlatView {
            depth: self.depth as nat,
            kind: self.kind@,
            named: self.named,
            field: self.field.deep_view(),
            start: self.start as nat,
            end: self.end as nat,
        }
    }
}

/// The nodes that the grammar of a language finds in a source, parents before children.
pub uninterp spec fn listing(source: Seq<char>, lang: SourceLang) -> Option<Seq<FlatView>>;

/// `tree_sitter::Parser::parse` with the grammar of the language, each node of its tree visited in
/// document order by `TreeCursor::goto_descendant`. The tree depends on the source and the grammar
/// alone; `None` comes where the grammar does not fit the parser or nothing was parsed.
#[verifier::external_body]
fn list_syntax(source: &str, lang: SourceLang) -> (r: Option<Vec<FlatNode>>)
    ensures
        r.deep_view() == listing(source@, lang),
{
    let mut parser = tree_sitter::Parser::new();
    let grammar = match lang {
        SourceLang::JavaScript => tree_sitter_javascript::LANGUAGE,
        SourceLang::TypeScript => tree_sitter_typescript::LANGUAGE_TYPESCRIPT,
        SourceLang::Tsx => tree_sitter_typescript::LANGUAGE_TSX,
    };
    parser.set_language(&grammar.into()).ok()?;
    let tree = parser.parse(source, None)?;
    let mut at = tree.walk();
    Some((0..at.node().descendant_count()).map(|i| {
        at.goto_descendant(i);
        let (n, field) = (at.node(), at.field_name().map(str::to_string));
        FlatNode { depth: at.depth(), kind: n.kind().to_string(), named: n.is_named(), field, start: n.start_byte(), end: n.end_byte() }
    }).collect())
}

/// A node of a syntax tree: its kind, whether it is named, the field of its parent that it fills,
/// the characters it spans, and its children in order.
#[derive(Debug, PartialEq, Eq)]
pub struct Syntax {
    pub kind: String,
    pub named: bool,
    pub field: Option<String>,
    pub start: usize,
    pub end: usize,
    pub children: Vec<Syntax>,
}

/// The mathematical form of a syntax tree.
pub struct SyntaxView {
    pub kind: Seq<char>,
    pub named: bool,
    pub field: Option<Seq<char>>,
    pub start: nat,
    pub end: nat,
    pub children: Seq<SyntaxView>,
}

/// What a node stands for.
pub open spec fn syntax_of(n: Syntax) -> SyntaxView
    decreases n,
{
    SyntaxView {
        kind: n.kind@,
        named: n.named,
        field: n.field.deep_view(),
        start: n.start as nat,
        end: n.end as nat,
        children: syntaxes_of(n.children@),
    }
}

/// What a run of nodes stands for.
pub open spec fn syntaxes_of(ns: Seq<Syntax>) -> Seq<SyntaxView>
    decreases ns,
{
    if ns.len() == 0 {
        Seq::empty()
    } else {
        syntaxes_of(ns.drop_last()).push(syntax_of(ns.last()))
    }
}

/// One view per node, in order.
pub proof fn lemma_syntaxes_of(ns: Seq<Syntax>)
    ensures
        syntaxes_of(ns).len() == ns.len(),
        forall|i: int| 0 <= i < ns.len() ==> #[trigger] syntaxes_of(ns)[i] == syntax_of(ns[i]),
    decreases ns.len(),
{
    if ns.len() > 0 {
        lemma_syntaxes_of(ns.drop_last());
    }
}

/// The views of a prefix grow by one per node.
pub proof fn lemma_syntaxes_step(ns: Seq<Syntax>, i: int)
    requires
        0 <= i < ns.len(),
    ensures
        syntaxes_of(ns.take(i + 1)) == syntaxes_of(ns.take(i)).push(syntax_of(ns[i])),
{
    assert(ns.take(i + 1).drop_last() =~= ns.take(i));
}

/// The trees that a listing holds from `pos` on, as long as nodes stand at least `depth` deep, and
/// where they end. A node's children are what follows it and stands deeper. Spans are in
/// characters of the source.
pub open spec fn grown(s: Seq<char>, l: Seq<FlatView>, pos: int, depth: nat) -> (
    Seq<SyntaxView>,
    int,
)
    decreases l.len() - pos,
{
    if pos < 0 || pos >= l.len() || l[pos].depth < depth {
        (Seq::empty(), pos)
    } else {
        let n = l[pos];
        let inner = grown(s, l, pos + 1, n.depth + 1);
        let next = if pos + 1 <= inner.1 <= l.len() {
            inner.1
        } else {
            l.len() as int
        };
        let rest = grown(s, l, next, depth);
        (seq![node_of(s, n, inner.0)] + rest.0, rest.1)
    }
}

/// The tree node of a listed node.
pub open spec fn node_of(s: Seq<char>, n: FlatView, children: Seq<SyntaxView>) -> SyntaxView {
    let start = char_index(s, n.start);
    let end = char_index(s, n.end);
    SyntaxView {
        kind: n.kind,
        named: n.named,
        field: n.field,
        start,
        end: if end < start {
            start
        } else {
            end
        },
        children,
    }
}

/// Growing ends within the listing, not before it started.
pub proof fn lemma_grown(s: Seq<char>, l: Seq<FlatView>, pos: int, depth: nat)
    requires
        0 <= pos <= l.len(),
    ensures
        pos <= grown(s, l, pos, depth).1 <= l.len(),
    decreases l.len() - pos,
{
    if pos < l.len() && l[pos].depth >= depth {
        lemma_grown(s, l, pos + 1, l[pos].depth + 1);
        lemma_grown(s, l, grown(s, l, pos + 1, l[pos].depth + 1).1, depth);
    }
}

/// Whether every node spans characters of a text of that length.
pub open spec fn within(n: SyntaxView, len: nat) -> bool
    decreases n,
{
    n.start <= n.end <= len && all_within(n.children, len)
}

/// Whether every node of a run spans characters of a text of that length.
pub open spec fn all_within(ns: Seq<SyntaxView>, len: nat) -> bool
    decreases ns,
{
    ns.len() > 0 ==> all_within(ns.drop_last(), len) && within(ns.last(), len)
}

proof fn lemma_all_within_cons(n: SyntaxView, ns: Seq<SyntaxView>, len: nat)
    requires
        within(n, len),
        all_within(ns, len),
    ensures
        all_within(seq![n] + ns, len),
    decreases ns.len(),
{
    let all = seq![n] + ns;
    if ns.len() == 0 {
        let none = Seq::<SyntaxView>::empty();
        assert(all.drop_last() =~= none);
        assert(all_within(none, len));
        assert(all.last() == n);
    } else {
        lemma_all_within_cons(n, ns.drop_last(), len);
        assert(all.drop_last() =~= seq![n] + ns.drop_last());
        assert(all.last() == ns.last());
    }
}

/// What grows from a listing spans characters of the source.
pub proof fn lemma_grown_within(s: Seq<char>, l: Seq<FlatView>, pos: int, depth: nat)
    requires
        0 <= pos <= l.len(),
    ensures
        all_within(grown(s, l, pos, depth).0, s.len()),
    decreases l.len() - pos,
{
    if pos < l.len() && l[pos].depth >= depth {
        let n = l[pos];
        lemma_grown(s, l, pos + 1, n.depth + 1);
        lemma_grown_within(s, l, pos + 1, n.depth + 1);
        let inner = grown(s, l, pos + 1, n.depth + 1);
        lemma_grown_within(s, l, inner.1, depth);
        lemma_chars_within(s, 0, n.start, n.start);
        lemma_chars_within(s, 0, n.end, n.end);
        let node = node_of(s, n, inner.0);
        assert(within(node, s.len()));
        lemma_all_within_cons(node, grown(s, l, inner.1, depth).0, s.len());
    }
}

/// Each node of a run spans characters of the text.
pub proof fn lemma_within_at(ns: Seq<SyntaxView>, i: int, len: nat)
    requires
        all_within(ns, len),
        0 <= i < ns.len(),
    ensures
        within(ns[i], len),
    decreases ns.len(),
{
    if i < ns.len() - 1 {
        lemma_within_at(ns.drop_last(), i, len);
        assert(ns.drop_last()[i] == ns[i]);
    }
}

/// For each byte of a text, the character that it falls into; then the number of characters.
fn char_table(v: &[char]) -> (t: Vec<usize>)
    ensures
        t@.len() > 0,
        forall|b: int| 0 <= b < t@.len() ==> #[trigger] t@[b] == char_index(v@, b as nat),
        forall|b: nat| b >= t@.len() ==> #[trigger] char_index(v@, b) == v@.len(),
{
    let mut t: Vec<usize> = Vec::new();
    let mut i: usize = 0;
    let n = v.len();
    while i < n
        invariant
            0 <= i <= n,
            n == v@.len(),
            forall|b: int| 0 <= b < t@.len() ==> #[trigger] t@[b] == char_index(v@, b as nat),
            forall|b: nat|
                b >= t@.len() ==> #[trigger] char_index(v@, b) == i + chars_within(
                    v@,
                    i as int,
                    (b - t@.len()) as nat,
                ),
        decreases n - i,
    {
        let ghost t0 = t@;
        let k: usize = char_bytes(v[i]);
        let mut j: usize = 0;
        while j < k
            invariant
                0 <= j <= k,
                0 <= i < n,
                n == v@.len(),
                k == utf8_len(v@[i as int]),
                t@.len() == t0.len() + j,
                forall|b: int| 0 <= b < t@.len() ==> #[trigger] t@[b] == char_index(v@, b as nat),
                forall|b: nat|
                    b >= t0.len() ==> #[trigger] char_index(v@, b) == i + chars_within(
                        v@,
                        i as int,
                        (b - t0.len()) as nat,
                    ),
            decreases k - j,
        {
            assert(char_index(v@, t@.len()) == i + chars_within(v@, i as int, j as nat));
            assert(chars_within(v@, i as int, j as nat) == 0);
            t.push(i);
            j = j + 1;
        }
        assert forall|b: nat| b >= t@.len() implies #[trigger] char_index(v@, b) == i + 1
            + chars_within(v@, i + 1, (b - t@.len()) as nat) by {
            assert(char_index(v@, b) == i + chars_within(v@, i as int, (b - t0.len()) as nat));
        }
        i = i + 1;
    }
    assert forall|b: nat| b >= t@.len() implies #[trigger] char_index(v@, b) == v@.len() by {
        assert(chars_within(v@, n as int, (b - t@.len()) as nat) == 0);
    }
    t.push(n);
    t
}

/// The character that a byte offset falls into.
fn at_byte(t: &Vec<usize>, v: Ghost<Seq<char>>, n: usize, b: usize) -> (i: usize)
    requires
        n == v@.len(),
        forall|b: int| 0 <= b < t@.len() ==> #[trigger] t@[b] == char_index(v@, b as nat),
        forall|b: nat| b >= t@.len() ==> #[trigger] char_index(v@, b) == v@.len(),
    ensures
        i == char_index(v@, b as nat),
{
    if b < t.len() {
        t[b]
    } else {
        n
    }
}

fn grow(v: &Vec<char>, t: &Vec<usize>, l: &Vec<FlatNode>, start: usize, depth: u64) -> (r: (
    Vec<Syntax>,
    usize,
))
    requires
        start <= l@.len(),
        forall|b: int| 0 <= b < t@.len() ==> #[trigger] t@[b] == char_index(v@, b as nat),
        forall|b: nat| b >= t@.len() ==> #[trigger] char_index(v@, b) == v@.len(),
    ensures
        grown(v@, l.deep_view(), start as int, depth as nat) == (syntaxes_of(r.0@), r.1 as int),
        start <= r.1 <= l@.len(),
    decreases l@.len() - start,
{
    let ghost lv = l.deep_view();
    let ghost whole = grown(v@, lv, start as int, depth as nat);
    proof {
        lemma_grown(v@, lv, start as int, depth as nat);
    }
    let mut out: Vec<Syntax> = Vec::new();
    let mut pos: usize = start;
    assert(syntaxes_of(out@) + whole.0 =~= whole.0);
    while pos < l.len() && l[pos].depth as u64 >= depth
        invariant
            start <= pos <= l@.len(),
            lv == l.deep_view(),
            forall|b: int| 0 <= b < t@.len() ==> #[trigger] t@[b] == char_index(v@, b as nat),
            forall|b: nat| b >= t@.len() ==> #[trigger] char_index(v@, b) == v@.len(),
            whole == (
                syntaxes_of(out@) + grown(v@, lv, pos as int, depth as nat).0,
                grown(v@, lv, pos as int, depth as nat).1,
            ),
        decreases l@.len() - pos,
    {
        let n = &l[pos];
        let ghost nv = lv[pos as int];
        proof {
            lemma_grown(v@, lv, pos + 1, nv.depth + 1);
        }
        let inner_depth: u64 = n.depth as u64 + 1;
        let (children, next) = grow(v, t, l, pos + 1, inner_depth);
        let from = at_byte(t, Ghost(v@), v.len(), n.start);
        let upto = at_byte(t, Ghost(v@), v.len(), n.end);
        let field = match &n.field {
            Some(f) => Some(f.clone()),
            None => None,
        };
        let ghost before = out@;
        let ghost rest = grown(v@, lv, next as int, depth as nat).0;
        let node = Syntax {
            kind: n.kind.clone(),
            named: n.named,
            field,
            start: from,
            end: if upto < from {
                from
            } else {
                upto
            },
            children,
        };
        let ghost t = syntax_of(node);
        assert(t == node_of(v@, nv, syntaxes_of(children@)));
        out.push(node);
        assert(out@.drop_last() =~= before);
        assert(syntaxes_of(before) + (seq![t] + rest) =~= syntaxes_of(out@) + rest);
        pos = next;
    }
    assert(syntaxes_of(out@) + Seq::<SyntaxView>::empty() =~= syntaxes_of(out@));
    (out, pos)
}

/// The syntax trees of a source, where it parses.
pub open spec fn parsed(source: Seq<char>, lang: SourceLang) -> Option<Seq<SyntaxView>> {
    match listing(source, lang) {
        Some(l) => Some(grown(source, l, 0, 0).0),
        None => None,
    }
}

/// Builds the trees that a listing of a source stands for.
pub fn grow_trees(source: &str, l: &Vec<FlatNode>) -> (r: Vec<Syntax>)
    ensures
        syntaxes_of(r@) == grown(source@, l.deep_view(), 0, 0).0,
        all_within(syntaxes_of(r@), source@.len()),
{
    let v = chars_of(source);
    let t = char_table(&v);
    proof {
        lemma_grown_within(source@, l.deep_view(), 0, 0);
    }
    let (r, _) = grow(&v, &t, l, 0, 0);
    r
}

/// Parses a source with the grammar of a language.
pub fn parse_syntax(source: &str, lang: SourceLang) -> (r: Option<Vec<Syntax>>)
    ensures
        match r {
            Some(ns) => parsed(source@, lang) == Some(syntaxes_of(ns@)) && all_within(
                syntaxes_of(ns@),
                source@.len(),
            ),
            None => parsed(source@, lang) is None,
        },
{
    match list_syntax(source, lang) {
        Some(l) => Some(grow_trees(source, &l)),
        None => None,
    }
}

/// The text that a node spans.
pub open spec fn span(s: Seq<char>, n: SyntaxView) -> Seq<char> {
    s.subrange(n.start as int, n.end as int)
}

/// The text that a node spans.
pub fn span_text(v: &Vec<char>, n: &Syntax) -> (t: String)
    requires
        n.start <= n.end <= v@.len(),
    ensures
        t@ == span(v@, syntax_of(*n)),
{
    slice_string(v, n.start, n.end)
}

/// The position of the first child that fills a field.
pub open spec fn field_pos(ns: Seq<SyntaxView>, name: Seq<char>) -> Option<int>
    decreases ns.len(),
{
    if ns.len() == 0 {
        None
    } else if field_pos(ns.drop_last(), name) is Some {
        field_pos(ns.drop_last(), name)
    } else if ns.last().field == Some(name) {
        Some(ns.len() - 1)
    } else {
        None
    }
}

/// The first child that fills a field.
pub open spec fn field_child(n: SyntaxView, name: Seq<char>) -> Option<SyntaxView> {
    match field_pos(n.children, name) {
        Some(i) => Some(n.children[i]),
        None => None,
    }
}

proof fn lemma_field_pos_stays(ns: Seq<SyntaxView>, k: int, name: Seq<char>)
    requires
        0 <= k <= ns.len(),
        field_pos(ns.take(k), name) is Some,
    ensures
        field_pos(ns, name) == field_pos(ns.take(k), name),
    decreases ns.len(),
{
    if k == ns.len() {
        assert(ns.take(k) =~= ns);
    } else {
        assert(ns.drop_last().take(k) =~= ns.take(k));
        lemma_field_pos_stays(ns.drop_last(), k, name);
    }
}

/// Finds the first child that fills a field.
pub fn child_by_field<'a>(n: &'a Syntax, name: &str) -> (r: Option<&'a Syntax>)
    ensures
        match r {
            Some(c) => {
                &&& field_child(syntax_of(*n), name@) == Some(syntax_of(*c))
                &&& exists|i: int|
                    0 <= i < n.children@.len() && *c == #[trigger] n.children@[i]
            },
            None => field_child(syntax_of(*n), name@) is None,
        },
{
    let ghost ns = syntaxes_of(n.children@);
    proof {
        lemma_syntaxes_of(n.children@);
        assert(ns.take(0) =~= Seq::<SyntaxView>::empty());
    }
    let mut i: usize = 0;
    while i < n.children.len()
        invariant
            0 <= i <= n.children@.len(),
            ns == syntaxes_of(n.children@),
            ns.len() == n.children@.len(),
            forall|j: int|
                0 <= j < ns.len() ==> #[trigger] ns[j] == syntax_of(n.children@[j]),
            field_pos(ns.take(i as int), name@) is None,
        decreases n.children@.len() - i,
    {
        let c = &n.children[i];
        proof {
            assert(ns.take(i + 1).drop_last() =~= ns.take(i as int));
            assert(ns.take(i + 1).last() == ns[i as int]);
        }
        if let Some(f) = &c.field {
            if str_eq(f, name) {
                proof {
                    lemma_field_pos_stays(ns, i + 1, name@);
                }
                return Some(c);
            }
        }
        i = i + 1;
    }
    assert(ns.take(ns.len() as int) =~= ns);
    None
}

} // verus!
