//! What holds of the trees that are grown from a parser's listing.
use crate::migrate::syntax::{
    field_child, field_pos, grown, lemma_grown, node_of, FlatView, SyntaxView,
};
use crate::strings::{char_index, lemma_chars_within};
use vstd::prelude::*;

verus! {

/// One line of a listing, with its span in characters.
pub struct Entry {
    pub depth: nat,
    pub kind: Seq<char>,
    pub named: bool,
    pub field: Option<Seq<char>>,
    pub start: nat,
    pub end: nat,
}

/// The lines of a tree whose root stands at a depth: the root, then its children one deeper.
pub open spec fn tree_entries(n: SyntaxView, depth: nat) -> Seq<Entry>
    decreases n,
{
    seq![
        Entry {
            depth,
            kind: n.kind,
            named: n.named,
            field: n.field,
            start: n.start,
            end: n.end,
        },
    ] + forest_entries(n.children, depth + 1)
}

/// The lines of a run of trees whose roots stand at a depth.
pub open spec fn forest_entries(ns: Seq<SyntaxView>, depth: nat) -> Seq<Entry>
    decreases ns,
{
    if ns.len() == 0 {
        Seq::empty()
    } else {
        forest_entries(ns.drop_last(), depth) + tree_entries(ns.last(), depth)
    }
}

/// The lines of a listing of a source.
pub open spec fn listed(s: Seq<char>, l: Seq<FlatView>) -> Seq<Entry> {
    l.map_values(
        |f: FlatView|
            Entry {
                depth: f.depth,
                kind: f.kind,
                named: f.named,
                field: f.field,
                start: char_index(s, f.start),
                end: char_index(s, f.end),
            },
    )
}

/// Whether a listing is that of a tree: no node stands more than one deeper than the one before it,
/// the first stands at the top, and no node ends before it starts.
pub open spec fn is_listing(l: Seq<FlatView>) -> bool {
    &&& l.len() > 0 ==> l[0].depth == 0
    &&& forall|i: int| #![trigger l[i]] 0 < i < l.len() ==> l[i].depth <= l[i - 1].depth + 1
    &&& forall|i: int| 0 <= i < l.len() ==> (#[trigger] l[i]).start <= l[i].end
}

proof fn lemma_forest_front(n: SyntaxView, ns: Seq<SyntaxView>, depth: nat)
    ensures
        forest_entries(seq![n] + ns, depth) == tree_entries(n, depth) + forest_entries(ns, depth),
    decreases ns.len(),
{
    let all = seq![n] + ns;
    if ns.len() == 0 {
        let none = Seq::<SyntaxView>::empty();
        assert(all.drop_last() =~= none);
        assert(all.last() == n);
        assert(forest_entries(none, depth) =~= Seq::<Entry>::empty());
        assert(forest_entries(all, depth) == forest_entries(none, depth) + tree_entries(n, depth));
        assert(forest_entries(all, depth) =~= tree_entries(n, depth) + forest_entries(ns, depth));
    } else {
        lemma_forest_front(n, ns.drop_last(), depth);
        assert(all.drop_last() =~= seq![n] + ns.drop_last());
        assert(all.last() == ns.last());
        assert(forest_entries(all, depth) == forest_entries(all.drop_last(), depth) + tree_entries(
            ns.last(),
            depth,
        ));
        assert(forest_entries(ns, depth) == forest_entries(ns.drop_last(), depth) + tree_entries(
            ns.last(),
            depth,
        ));
        assert(forest_entries(all, depth) =~= tree_entries(n, depth) + forest_entries(ns, depth));
    }
}

proof fn lemma_entries(s: Seq<char>, l: Seq<FlatView>, pos: int, depth: nat)
    requires
        is_listing(l),
        0 <= pos <= l.len(),
        pos < l.len() ==> l[pos].depth <= depth,
    ensures
        ({
            let g = grown(s, l, pos, depth);
            &&& pos <= g.1 <= l.len()
            &&& g.1 < l.len() ==> l[g.1].depth < depth
            &&& forest_entries(g.0, depth) == listed(s, l).subrange(pos, g.1)
        }),
    decreases l.len() - pos,
{
    let e = listed(s, l);
    lemma_grown(s, l, pos, depth);
    if pos < l.len() && l[pos].depth >= depth {
        let n = l[pos];
        if pos + 1 < l.len() {
            assert(l[pos + 1].depth <= l[pos].depth + 1);
        }
        lemma_entries(s, l, pos + 1, depth + 1);
        let inner = grown(s, l, pos + 1, depth + 1);
        lemma_entries(s, l, inner.1, depth);
        let rest = grown(s, l, inner.1, depth);
        let node = node_of(s, n, inner.0);
        lemma_chars_within(s, 0, n.start, n.end);
        lemma_forest_front(node, rest.0, depth);
        assert(tree_entries(node, depth) =~= seq![e[pos]] + forest_entries(inner.0, depth + 1));
        assert(seq![e[pos]] + e.subrange(pos + 1, inner.1) + e.subrange(inner.1, rest.1)
            =~= e.subrange(pos, rest.1));
    } else {
        let none = Seq::<SyntaxView>::empty();
        assert(forest_entries(none, depth) =~= Seq::<Entry>::empty());
        assert(e.subrange(pos, pos) =~= Seq::<Entry>::empty());
    }
}

/// The trees that are grown from a listing hold every node of it, once, in its order and at its
/// depth, and nothing else: listing the trees gives the listing back, with spans in characters.
pub proof fn law_trees_hold_the_listing(s: Seq<char>, l: Seq<FlatView>)
    requires
        is_listing(l),
    ensures
        forest_entries(grown(s, l, 0, 0).0, 0) == listed(s, l),
{
    lemma_entries(s, l, 0, 0);
    let g = grown(s, l, 0, 0);
    assert(g.1 == l.len());
    assert(listed(s, l).subrange(0, l.len() as int) =~= listed(s, l));
}

/// The child that fills a field is the first that does; there is none where no child does.
pub proof fn law_fields_name_children(n: SyntaxView, name: Seq<char>)
    ensures
        field_child(n, name) matches Some(c) ==> exists|i: int|
            0 <= i < n.children.len() && c == #[trigger] n.children[i] && c.field == Some(name) && (
            forall|j: int| 0 <= j < i ==> (#[trigger] n.children[j]).field != Some(name)),
        field_child(n, name) is None ==> forall|j: int|
            0 <= j < n.children.len() ==> (#[trigger] n.children[j]).field != Some(name),
{
    lemma_field_pos(n.children, name);
    if let Some(i) = field_pos(n.children, name) {
        assert(n.children[i].field == Some(name));
    }
}

proof fn lemma_field_pos(ns: Seq<SyntaxView>, name: Seq<char>)
    ensures
        match field_pos(ns, name) {
            Some(i) => 0 <= i < ns.len() && ns[i].field == Some(name) && (forall|j: int|
                0 <= j < i ==> (#[trigger] ns[j]).field != Some(name)),
            None => forall|j: int| 0 <= j < ns.len() ==> (#[trigger] ns[j]).field != Some(name),
        },
    decreases ns.len(),
{
    if ns.len() > 0 {
        let m = ns.drop_last();
        lemma_field_pos(m, name);
        assert forall|j: int| 0 <= j < m.len() implies #[trigger] ns[j] == m[j] by {}
    }
}

} // verus!
