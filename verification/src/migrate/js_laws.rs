//! What the starter rules do to a script, said of its syntax trees: which words are replaced, and
//! by what.
use crate::migrate::js_transform::{
    disjoint, forest_edits, kind_pos, law_disjoint_splices, node_edits, rewritten, starter_rules,
    transformed, tree_edits, Both, ConsoleLogRule, EditView, FnKeywordRule, VarToLetRule,
};
use crate::migrate::syntax::{field_child, field_pos, SyntaxView};
use vstd::prelude::*;

verus! {

/// Whether a node stands anywhere in a forest.
pub open spec fn stands_in(ns: Seq<SyntaxView>, n: SyntaxView) -> bool
    decreases ns,
{
    ns.len() > 0 && (stands_in(ns.drop_last(), n) || ns.last() == n || stands_in(
        ns.last().children,
        n,
    ))
}

/// Whether a splice gives what a node spans another text.
pub open spec fn renames(e: EditView, n: SyntaxView, text: Seq<char>) -> bool {
    e.start == n.start && e.end == n.end && e.replacement == text
}

/// Whether a node is a function that is written with the word `function`, and a splice makes that
/// word `fn`.
pub open spec fn makes_fn(n: SyntaxView, e: EditView) -> bool {
    &&& n.kind == "function_declaration"@ || n.kind == "function_expression"@
    &&& exists|i: int|
        {
            &&& 0 <= i < n.children.len()
            &&& n.children[i].kind == "function"@
            &&& forall|j: int| 0 <= j < i ==> (#[trigger] n.children[j]).kind != "function"@
            &&& renames(e, #[trigger] n.children[i], "fn"@)
        }
}

/// Whether a node is a declaration that starts with `const` or `var`, and a splice makes that word
/// `let`.
pub open spec fn makes_let(n: SyntaxView, e: EditView) -> bool {
    &&& n.kind == "lexical_declaration"@ || n.kind == "variable_declaration"@
    &&& n.children.len() > 0
    &&& n.children[0].kind == "const"@ || n.children[0].kind == "var"@
    &&& renames(e, n.children[0], "let"@)
}

/// Whether a node is a call of `console.log`, and a splice makes its callee `println!`.
pub open spec fn makes_print(n: SyntaxView, source: Seq<char>, e: EditView) -> bool {
    &&& n.kind == "call_expression"@
    &&& exists|i: int|
        {
            let c = #[trigger] n.children[i];
            &&& 0 <= i < n.children.len()
            &&& c.field == Some("function"@)
            &&& forall|j: int|
                0 <= j < i ==> (#[trigger] n.children[j]).field != Some("function"@)
            &&& c.kind == "member_expression"@
            &&& source.subrange(c.start as int, c.end as int) == "console.log"@
            &&& renames(e, c, "println!"@)
        }
}

/// Whether a node calls for a splice.
pub open spec fn calls_for(n: SyntaxView, source: Seq<char>, e: EditView) -> bool {
    makes_fn(n, e) || makes_let(n, e) || makes_print(n, source, e)
}

/// Whether a splice is due in a forest: some node of it calls for it.
pub open spec fn due(ns: Seq<SyntaxView>, source: Seq<char>, e: EditView) -> bool {
    exists|n: SyntaxView| stands_in(ns, n) && #[trigger] calls_for(n, source, e)
}

/// How many splices a node calls for.
pub open spec fn calls_count(n: SyntaxView, source: Seq<char>) -> nat {
    (if exists|e: EditView| makes_fn(n, e) {
        1nat
    } else {
        0
    }) + (if exists|e: EditView| makes_let(n, e) {
        1nat
    } else {
        0
    }) + (if exists|e: EditView| makes_print(n, source, e) {
        1nat
    } else {
        0
    })
}

/// How many splices the nodes of a forest call for.
pub open spec fn due_count(ns: Seq<SyntaxView>, source: Seq<char>) -> nat
    decreases ns,
{
    if ns.len() == 0 {
        0
    } else {
        due_count(ns.drop_last(), source) + calls_count(ns.last(), source) + due_count(
            ns.last().children,
            source,
        )
    }
}

proof fn lemma_kind_pos(ns: Seq<SyntaxView>, kind: Seq<char>)
    ensures
        match kind_pos(ns, kind) {
            Some(i) => {
                &&& 0 <= i < ns.len()
                &&& ns[i].kind == kind
                &&& forall|j: int| 0 <= j < i ==> (#[trigger] ns[j]).kind != kind
            },
            None => forall|j: int| 0 <= j < ns.len() ==> (#[trigger] ns[j]).kind != kind,
        },
    decreases ns.len(),
{
    if ns.len() > 0 {
        let front = ns.drop_last();
        lemma_kind_pos(front, kind);
        assert forall|j: int| 0 <= j < front.len() implies #[trigger] ns[j] == front[j] by {}
        assert(ns.last() == ns[ns.len() - 1]);
    }
}

/// What the rules do at one node is what the node calls for.
#[verifier::rlimit(40)]
proof fn lemma_node_edits(n: SyntaxView, source: Seq<char>)
    ensures
        forall|e: EditView|
            #[trigger] node_edits(&starter_rules(), n, source).contains(e) <==> calls_for(
                n,
                source,
                e,
            ),
        node_edits(&starter_rules(), n, source).len() == calls_count(n, source),
{
    let rules = starter_rules();
    let f = node_edits(&FnKeywordRule, n, source);
    let l = node_edits(&VarToLetRule, n, source);
    let p = node_edits(&ConsoleLogRule, n, source);
    let fl = node_edits(&Both(FnKeywordRule, VarToLetRule), n, source);
    let all = node_edits(&rules, n, source);
    assert(fl =~= f + l);
    assert(all =~= fl + p);
    lemma_kind_pos(n.children, "function"@);
    lemma_field_child(n, "function"@);
    assert forall|e: EditView| #[trigger] f.contains(e) <==> makes_fn(n, e) by {
        if f.contains(e) {
            assert(f[0] == e);
            let i = kind_pos(n.children, "function"@)->0;
            assert(renames(e, n.children[i], "fn"@));
        }
        if makes_fn(n, e) {
            let i = choose|i: int|
                {
                    &&& 0 <= i < n.children.len()
                    &&& n.children[i].kind == "function"@
                    &&& forall|j: int| 0 <= j < i ==> (#[trigger] n.children[j]).kind != "function"@
                    &&& renames(e, #[trigger] n.children[i], "fn"@)
                };
            let k = kind_pos(n.children, "function"@)->0;
            assert(i == k);
            assert(f[0] == e);
        }
    }
    assert forall|e: EditView| #[trigger] l.contains(e) <==> makes_let(n, e) by {
        if l.contains(e) {
            assert(l[0] == e);
        }
        if makes_let(n, e) {
            assert(l[0] == e);
        }
    }
    assert forall|e: EditView| #[trigger] p.contains(e) <==> makes_print(n, source, e) by {
        if p.contains(e) {
            assert(p[0] == e);
            let i = choose|i: int|
                {
                    &&& 0 <= i < n.children.len()
                    &&& field_child(n, "function"@) == Some(#[trigger] n.children[i])
                    &&& n.children[i].field == Some("function"@)
                    &&& forall|j: int|
                        0 <= j < i ==> (#[trigger] n.children[j]).field != Some("function"@)
                };
            assert(renames(e, n.children[i], "println!"@));
        }
        if makes_print(n, source, e) {
            let i = choose|i: int|
                {
                    let c = #[trigger] n.children[i];
                    &&& 0 <= i < n.children.len()
                    &&& c.field == Some("function"@)
                    &&& forall|j: int|
                        0 <= j < i ==> (#[trigger] n.children[j]).field != Some("function"@)
                    &&& c.kind == "member_expression"@
                    &&& source.subrange(c.start as int, c.end as int) == "console.log"@
                    &&& renames(e, c, "println!"@)
                };
            assert(field_child(n, "function"@) == Some(n.children[i]));
            assert(p[0] == e);
        }
    }
    assert forall|e: EditView| #[trigger] all.contains(e) <==> calls_for(n, source, e) by {
        if all.contains(e) {
            let i = choose|i: int| 0 <= i < all.len() && all[i] == e;
            if i < f.len() {
                assert(f[i] == e);
                assert(f.contains(e));
            } else if i < fl.len() {
                assert(l[i - f.len()] == e);
                assert(l.contains(e));
            } else {
                assert(p[i - fl.len()] == e);
                assert(p.contains(e));
            }
        }
        if makes_fn(n, e) {
            assert(f.contains(e));
            assert(all[0] == e);
        }
        if makes_let(n, e) {
            assert(l.contains(e));
            assert(all[f.len() as int] == e);
        }
        if makes_print(n, source, e) {
            assert(p.contains(e));
            assert(all[fl.len() as int] == e);
        }
    }
    if f.len() > 0 {
        assert(f.contains(f[0]));
    }
    if l.len() > 0 {
        assert(l.contains(l[0]));
    }
    if p.len() > 0 {
        assert(p.contains(p[0]));
    }
    if exists|e: EditView| makes_fn(n, e) {
        let e = choose|e: EditView| makes_fn(n, e);
        assert(f.contains(e));
    }
    if exists|e: EditView| makes_let(n, e) {
        let e = choose|e: EditView| makes_let(n, e);
        assert(l.contains(e));
    }
    if exists|e: EditView| makes_print(n, source, e) {
        let e = choose|e: EditView| makes_print(n, source, e);
        assert(p.contains(e));
    }
}

/// The splices that the starter rules make in a forest are those that its nodes call for, as many as
/// they call for: each function that is written with the word `function` has that word made `fn`,
/// each declaration that starts with `const` or `var` has it made `let`, each call of `console.log`
/// has its callee made `println!`, wherever in the forest they stand, and nothing else is touched.
#[verifier::rlimit(40)]
pub proof fn law_splices_are_those_due(ns: Seq<SyntaxView>, source: Seq<char>)
    ensures
        forall|e: EditView|
            #[trigger] forest_edits(&starter_rules(), ns, source).contains(e) <==> due(
                ns,
                source,
                e,
            ),
        forest_edits(&starter_rules(), ns, source).len() == due_count(ns, source),
    decreases ns,
{
    let all = forest_edits(&starter_rules(), ns, source);
    if ns.len() == 0 {
        assert forall|e: EditView| !due(ns, source, e) by {}
    } else {
        let front = ns.drop_last();
        let n = ns.last();
        law_splices_are_those_due(front, source);
        law_splices_are_those_due(n.children, source);
        lemma_node_edits(n, source);
        let a = forest_edits(&starter_rules(), front, source);
        let b = node_edits(&starter_rules(), n, source);
        let c = forest_edits(&starter_rules(), n.children, source);
        let t = tree_edits(&starter_rules(), n, source);
        assert(t == b + c);
        assert(all == a + t);
        assert(all =~= a + (b + c));
        assert forall|e: EditView| #[trigger] all.contains(e) <==> due(ns, source, e) by {
            if all.contains(e) {
                let i = choose|i: int| 0 <= i < all.len() && all[i] == e;
                if i < a.len() {
                    assert(a[i] == e);
                    assert(a.contains(e));
                    let m = choose|m: SyntaxView|
                        stands_in(front, m) && #[trigger] calls_for(m, source, e);
                    assert(stands_in(ns, m));
                } else if i < a.len() + b.len() {
                    assert(b[i - a.len()] == e);
                    assert(b.contains(e));
                    assert(stands_in(ns, n));
                } else {
                    assert(c[i - a.len() - b.len()] == e);
                    assert(c.contains(e));
                    let m = choose|m: SyntaxView|
                        stands_in(n.children, m) && #[trigger] calls_for(m, source, e);
                    assert(stands_in(ns, m));
                }
            }
            if due(ns, source, e) {
                let m = choose|m: SyntaxView| stands_in(ns, m) && #[trigger] calls_for(m, source, e);
                if stands_in(front, m) {
                    assert(a.contains(e));
                    let i = choose|i: int| 0 <= i < a.len() && a[i] == e;
                    assert(all[i] == e);
                } else if m == n {
                    assert(b.contains(e));
                    let i = choose|i: int| 0 <= i < b.len() && b[i] == e;
                    assert(all[a.len() + i] == e);
                } else {
                    assert(c.contains(e));
                    let i = choose|i: int| 0 <= i < c.len() && c[i] == e;
                    assert(all[a.len() + b.len() + i] == e);
                }
            }
        }
    }
}

proof fn lemma_field_pos(ns: Seq<SyntaxView>, name: Seq<char>)
    ensures
        match field_pos(ns, name) {
            Some(i) => {
                &&& 0 <= i < ns.len()
                &&& ns[i].field == Some(name)
                &&& forall|j: int| 0 <= j < i ==> (#[trigger] ns[j]).field != Some(name)
            },
            None => forall|j: int| 0 <= j < ns.len() ==> (#[trigger] ns[j]).field != Some(name),
        },
    decreases ns.len(),
{
    if ns.len() > 0 {
        let front = ns.drop_last();
        lemma_field_pos(front, name);
        assert forall|j: int| 0 <= j < front.len() implies #[trigger] ns[j] == front[j] by {}
        assert(ns.last() == ns[ns.len() - 1]);
    }
}

proof fn lemma_field_child(n: SyntaxView, name: Seq<char>)
    ensures
        match field_child(n, name) {
            Some(c) => exists|i: int|
                {
                    &&& 0 <= i < n.children.len()
                    &&& c == #[trigger] n.children[i]
                    &&& n.children[i].field == Some(name)
                    &&& forall|j: int| 0 <= j < i ==> (#[trigger] n.children[j]).field != Some(name)
                },
            None => forall|j: int|
                0 <= j < n.children.len() ==> (#[trigger] n.children[j]).field != Some(name),
        },
{
    lemma_field_pos(n.children, name);
}

/// A script whose due splices are apart becomes itself with each of them made, and nothing else
/// changed: in particular a script without any due splice stays as it is.
pub proof fn law_script_is_rewritten(source: Seq<char>, trees: Seq<SyntaxView>)
    requires
        disjoint(source, forest_edits(&starter_rules(), trees, source)),
    ensures
        transformed(source, trees) == rewritten(
            source,
            Set::new(|e: EditView| due(trees, source, e)),
            0,
        ),
        (forall|e: EditView| !due(trees, source, e)) ==> transformed(source, trees) == source,
{
    let es = forest_edits(&starter_rules(), trees, source);
    law_splices_are_those_due(trees, source);
    law_disjoint_splices(source, es, es);
    assert(es.to_set() =~= Set::new(|e: EditView| due(trees, source, e)));
    if forall|e: EditView| !due(trees, source, e) {
        if es.len() > 0 {
            assert(es.contains(es[0]));
        }
        assert(es =~= Seq::<EditView>::empty());
    }
}

} // verus!
