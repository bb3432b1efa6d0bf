//! What holds of every transpiled document: its text is preserved, and its guest only refers to
//! what it created before.
use crate::migrate::html_tree::{forest_count, forest_text, tree_count, tree_text, Attr, Tree};
use crate::migrate::site_model::{
    append_op, attr_ops, folded, forest_handlers, forest_ops, forest_vars, handler_count,
    handler_kind, media_tag, node_handlers, node_ops, node_vars, text_leaf, var_name, OpView,
};
use crate::migrate::transpile::site_ops;
use crate::strings::{dec, lemma_dec_injective};
use vstd::prelude::*;

verus! {

/// The texts that a list of operations sets, in order.
pub open spec fn op_texts(ops: Seq<OpView>) -> Seq<Seq<char>>
    decreases ops.len(),
{
    if ops.len() == 0 {
        Seq::empty()
    } else {
        match ops.last() {
            OpView::Text { text, .. } => op_texts(ops.drop_last()).push(text),
            _ => op_texts(ops.drop_last()),
        }
    }
}

/// The variables that a list of operations creates, in order.
pub open spec fn op_creates(ops: Seq<OpView>) -> Seq<Seq<char>>
    decreases ops.len(),
{
    if ops.len() == 0 {
        Seq::empty()
    } else {
        match ops.last() {
            OpView::Create { var, .. } => op_creates(ops.drop_last()).push(var),
            _ => op_creates(ops.drop_last()),
        }
    }
}

/// The handlers that a list of operations binds, in order.
pub open spec fn op_handlers(ops: Seq<OpView>) -> Seq<nat>
    decreases ops.len(),
{
    if ops.len() == 0 {
        Seq::empty()
    } else {
        match ops.last() {
            OpView::On { handler, .. } => op_handlers(ops.drop_last()).push(handler),
            _ => op_handlers(ops.drop_last()),
        }
    }
}

/// Whether an operation refers to a variable that it does not create.
pub open spec fn refers(op: OpView, v: Seq<char>) -> bool {
    match op {
        OpView::Create { .. } => false,
        OpView::Text { var, .. } => var == v,
        OpView::Attr { var, .. } => var == v,
        OpView::Append { parent, child } => parent == v || child == v,
        OpView::On { var, .. } => var == v,
    }
}

/// Whether some operation before the one at `k` creates `v`.
pub open spec fn created_before(ops: Seq<OpView>, k: int, v: Seq<char>) -> bool {
    exists|j: int| 0 <= j < k && #[trigger] creates(ops[j], v)
}

/// Whether an operation creates a variable.
pub open spec fn creates(op: OpView, v: Seq<char>) -> bool {
    op matches OpView::Create { var, .. } && var == v
}

/// Every variable that an operation refers to was created before it, unless it is `outer`.
pub open spec fn well_founded(ops: Seq<OpView>, outer: Option<Seq<char>>) -> bool {
    forall|k: int, v: Seq<char>|
        0 <= k < ops.len() && #[trigger] refers(ops[k], v) ==> created_before(ops, k, v) || outer
            == Some(v)
}

/// The variables numbered from `c` up to `c + n`.
pub open spec fn vars_from(c: nat, n: nat) -> Seq<Seq<char>> {
    Seq::new(n, |i: int| var_name((c + i) as nat))
}

/// The numbers from `h` up to `h + n`.
pub open spec fn numbers_from(h: nat, n: nat) -> Seq<nat> {
    Seq::new(n, |i: int| (h + i) as nat)
}

/// No attribute that binds a handler is set as a plain attribute.
pub open spec fn no_handler_attrs(ops: Seq<OpView>) -> bool {
    forall|k: int|
        0 <= k < ops.len() ==> (#[trigger] ops[k] matches OpView::Attr { name, .. } ==> handler_kind(
            name,
        ) is None)
}

proof fn lemma_projections_add(a: Seq<OpView>, b: Seq<OpView>)
    ensures
        op_texts(a + b) == op_texts(a) + op_texts(b),
        op_creates(a + b) == op_creates(a) + op_creates(b),
        op_handlers(a + b) == op_handlers(a) + op_handlers(b),
    decreases b.len(),
{
    if b.len() == 0 {
        assert(a + b =~= a);
        assert(op_texts(a) + op_texts(b) =~= op_texts(a));
        assert(op_creates(a) + op_creates(b) =~= op_creates(a));
        assert(op_handlers(a) + op_handlers(b) =~= op_handlers(a));
    } else {
        lemma_projections_add(a, b.drop_last());
        assert((a + b).drop_last() =~= a + b.drop_last());
        assert((a + b).last() == b.last());
        assert(op_texts(a + b) =~= op_texts(a) + op_texts(b));
        assert(op_creates(a + b) =~= op_creates(a) + op_creates(b));
        assert(op_handlers(a + b) =~= op_handlers(a) + op_handlers(b));
    }
}

proof fn lemma_projections_one(op: OpView)
    ensures
        op_texts(seq![op]) == (match op {
            OpView::Text { text, .. } => seq![text],
            _ => Seq::empty(),
        }),
        op_creates(seq![op]) == (match op {
            OpView::Create { var, .. } => seq![var],
            _ => Seq::empty(),
        }),
        op_handlers(seq![op]) == (match op {
            OpView::On { handler, .. } => seq![handler],
            _ => Seq::empty(),
        }),
{
    let none = Seq::<OpView>::empty();
    assert(seq![op].drop_last() =~= none);
    assert(op_texts(none) =~= Seq::empty());
    assert(op_creates(none) =~= Seq::empty());
    assert(op_handlers(none) =~= Seq::empty());
    assert(seq![op].last() == op);
    match op {
        OpView::Text { text, .. } => {
            assert(op_texts(seq![op]) =~= seq![text]);
        },
        OpView::Create { var, .. } => {
            assert(op_creates(seq![op]) =~= seq![var]);
        },
        OpView::On { handler, .. } => {
            assert(op_handlers(seq![op]) =~= seq![handler]);
        },
        _ => {},
    }
}

proof fn lemma_attr_ops(attrs: Seq<Attr>, c: nat, h: nat)
    ensures
        op_texts(attr_ops(attrs, c, h)) == Seq::<Seq<char>>::empty(),
        op_creates(attr_ops(attrs, c, h)) == Seq::<Seq<char>>::empty(),
        op_handlers(attr_ops(attrs, c, h)) == numbers_from(h, handler_count(attrs)),
        no_handler_attrs(attr_ops(attrs, c, h)),
        forall|k: int, v: Seq<char>|
            0 <= k < attr_ops(attrs, c, h).len() && #[trigger] refers(attr_ops(attrs, c, h)[k], v)
                ==> v == var_name(c),
    decreases attrs.len(),
{
    let ops = attr_ops(attrs, c, h);
    if attrs.len() == 0 {
        assert(op_handlers(ops) =~= numbers_from(h, 0));
    } else {
        lemma_attr_ops(attrs.drop_last(), c, h);
        assert(ops.drop_last() =~= attr_ops(attrs.drop_last(), c, h));
        assert(op_handlers(ops) =~= numbers_from(h, handler_count(attrs)));
    }
}

proof fn lemma_append_op(parent: Option<nat>, child: nat)
    ensures
        op_texts(append_op(parent, child)) == Seq::<Seq<char>>::empty(),
        op_creates(append_op(parent, child)) == Seq::<Seq<char>>::empty(),
        op_handlers(append_op(parent, child)) == Seq::<nat>::empty(),
        no_handler_attrs(append_op(parent, child)),
{
    if let Some(p) = parent {
        lemma_projections_one(
            OpView::Append { parent: var_name(p), child: var_name(child) },
        );
    }
}

/// What holds of the operations of a node or a forest.
pub open spec fn lawful(
    ops: Seq<OpView>,
    texts: Seq<Seq<char>>,
    parent: Option<nat>,
    c: nat,
    vars: nat,
    h: nat,
    handlers: nat,
) -> bool {
    &&& op_texts(ops) == texts
    &&& op_creates(ops) == vars_from(c, vars)
    &&& op_handlers(ops) == numbers_from(h, handlers)
    &&& no_handler_attrs(ops)
    &&& well_founded(
        ops,
        match parent {
            Some(p) => Some(var_name(p)),
            None => None,
        },
    )
}

/// References that are sound in each of two runs are sound in the two together.
proof fn lemma_well_founded_add(a: Seq<OpView>, b: Seq<OpView>, outer: Option<Seq<char>>)
    requires
        well_founded(a, outer),
        forall|k: int, v: Seq<char>|
            0 <= k < b.len() && #[trigger] refers(b[k], v) ==> created_before(b, k, v) || outer
                == Some(v) || created_before(a, a.len() as int, v),
    ensures
        well_founded(a + b, outer),
{
    let ops = a + b;
    assert forall|k: int, v: Seq<char>|
        0 <= k < ops.len() && #[trigger] refers(ops[k], v) implies created_before(ops, k, v)
        || outer == Some(v) by {
        if k < a.len() {
            assert(refers(a[k], v));
            if created_before(a, k, v) {
                let j = choose|j: int| 0 <= j < k && #[trigger] creates(a[j], v);
                assert(creates(ops[j], v));
            }
        } else {
            assert(refers(b[k - a.len()], v));
            if created_before(b, k - a.len(), v) {
                let j = choose|j: int| 0 <= j < k - a.len() && #[trigger] creates(b[j], v);
                assert(creates(ops[j + a.len()], v));
            } else if created_before(a, a.len() as int, v) {
                let j = choose|j: int| 0 <= j < a.len() && #[trigger] creates(a[j], v);
                assert(creates(ops[j], v));
            }
        }
    }
}

#[verifier::rlimit(40)]
proof fn lemma_node_laws(t: Tree, media: bool, parent: Option<nat>, c: nat, h: nat)
    ensures
        lawful(
            node_ops(t, media, parent, c, h),
            tree_text(t),
            parent,
            c,
            node_vars(t, media),
            h,
            node_handlers(t, media),
        ),
    decreases t, 0nat,
{
    let ops = node_ops(t, media, parent, c, h);
    let outer = match parent {
        Some(p) => Some(var_name(p)),
        None => None,
    };
    let tail = append_op(parent, c);
    lemma_append_op(parent, c);
    let empty = Seq::<OpView>::empty();
    assert(op_texts(empty) =~= Seq::empty() && op_creates(empty) =~= Seq::empty() && op_handlers(
        empty,
    ) =~= Seq::empty());
    match t {
        Tree::Text(text) => {
            let a = OpView::Create { var: var_name(c), tag: "span"@ };
            let b = OpView::Text { var: var_name(c), text };
            lemma_projections_one(a);
            lemma_projections_one(b);
            assert(seq![a, b] =~= seq![a] + seq![b]);
            lemma_projections_add(seq![a], seq![b]);
            lemma_projections_add(seq![a, b], tail);
            assert(op_texts(ops) =~= seq![text]);
            assert(op_creates(ops) =~= vars_from(c, 1));
            assert(op_handlers(ops) =~= numbers_from(h, 0));
            assert(creates(ops[0], var_name(c)));
            assert forall|k: int, v: Seq<char>|
                0 <= k < ops.len() && #[trigger] refers(ops[k], v) implies created_before(
                ops,
                k,
                v,
            ) || outer == Some(v) by {
                if v == var_name(c) {
                    assert(k > 0);
                }
            }
        },
        Tree::Element { tag, attrs, children } => {
            if media && folded(t) {
                assert(forest_text(children) =~= Seq::empty());
                assert(op_creates(ops) =~= vars_from(c, 0));
                assert(op_handlers(ops) =~= numbers_from(h, 0));
            } else {
                let head = OpView::Create { var: var_name(c), tag };
                let inner = if text_leaf(children) {
                    seq![OpView::Text { var: var_name(c), text: children[0]->Text_0 }]
                } else {
                    forest_ops(children, media_tag(tag), Some(c), c + 1, h + handler_count(attrs))
                };
                let s1 = seq![head] + attr_ops(attrs, c, h);
                let s2 = s1 + inner;
                lemma_projections_one(head);
                lemma_attr_ops(attrs, c, h);
                lemma_projections_add(seq![head], attr_ops(attrs, c, h));
                lemma_projections_add(s1, inner);
                lemma_projections_add(s2, tail);
                assert(creates(s1[0], var_name(c)));
                assert(created_before(s1, s1.len() as int, var_name(c)));
                assert forall|k: int, v: Seq<char>|
                    0 <= k < s1.len() && #[trigger] refers(s1[k], v) implies created_before(
                    s1,
                    k,
                    v,
                ) || outer == Some(v) by {
                    assert(k > 0);
                    assert(refers(attr_ops(attrs, c, h)[k - 1], v));
                }
                if text_leaf(children) {
                    let text = children[0]->Text_0;
                    lemma_projections_one(OpView::Text { var: var_name(c), text });
                    let none = Seq::<Tree>::empty();
                    assert(children.drop_last() =~= none);
                    assert(forest_text(none) =~= Seq::empty());
                    assert(tree_text(children.last()) == seq![text]);
                    assert(forest_text(children) =~= seq![text]);
                    assert(forest_handlers(none, media_tag(tag)) == 0);
                    assert(node_handlers(children.last(), media_tag(tag)) == 0);
                    assert(forest_handlers(children, media_tag(tag)) == 0);
                    assert(op_texts(ops) =~= seq![text]);
                    assert(op_creates(ops) =~= vars_from(c, 1));
                    assert(op_handlers(ops) =~= numbers_from(h, handler_count(attrs)));
                } else {
                    lemma_forest_laws(
                        children,
                        media_tag(tag),
                        Some(c),
                        c + 1,
                        h + handler_count(attrs),
                    );
                    assert(op_texts(ops) =~= forest_text(children));
                    assert(op_creates(ops) =~= vars_from(c, node_vars(t, media)));
                    assert(op_handlers(ops) =~= numbers_from(h, node_handlers(t, media)));
                }
                lemma_well_founded_add(s1, inner, outer);
                let j = choose|j: int| 0 <= j < s1.len() && #[trigger] creates(s1[j], var_name(c));
                assert(creates(s2[j], var_name(c)));
                assert(created_before(s2, s2.len() as int, var_name(c)));
                lemma_well_founded_add(s2, tail, outer);
                assert(no_handler_attrs(ops));
            }
        },
    }
}

#[verifier::rlimit(40)]
proof fn lemma_forest_laws(f: Seq<Tree>, media: bool, parent: Option<nat>, c: nat, h: nat)
    ensures
        lawful(
            forest_ops(f, media, parent, c, h),
            forest_text(f),
            parent,
            c,
            forest_vars(f, media),
            h,
            forest_handlers(f, media),
        ),
    decreases f, 1nat,
{
    let ops = forest_ops(f, media, parent, c, h);
    if f.len() == 0 {
        assert(op_creates(ops) =~= vars_from(c, 0));
        assert(op_handlers(ops) =~= numbers_from(h, 0));
    } else {
        let front = f.drop_last();
        let c2 = c + forest_vars(front, media);
        let h2 = h + forest_handlers(front, media);
        lemma_forest_laws(front, media, parent, c, h);
        lemma_node_laws(f.last(), media, parent, c2, h2);
        let a = forest_ops(front, media, parent, c, h);
        let b = node_ops(f.last(), media, parent, c2, h2);
        lemma_projections_add(a, b);
        assert(op_creates(ops) =~= vars_from(c, forest_vars(f, media)));
        assert(op_handlers(ops) =~= numbers_from(h, forest_handlers(f, media)));
        lemma_well_founded_add(
            a,
            b,
            match parent {
                Some(p) => Some(var_name(p)),
                None => None,
            },
        );
        assert(no_handler_attrs(ops));
    }
}

/// Variables of different numbers differ.
pub proof fn lemma_variables_differ(i: nat, j: nat)
    requires
        var_name(i) == var_name(j),
    ensures
        i == j,
{
    let n = "el"@.len() as int;
    assert(var_name(i).skip(n) =~= dec(i));
    assert(var_name(j).skip(n) =~= dec(j));
    lemma_dec_injective(i, j);
}

/// The variables that the operations of a forest create are numbered one after the other.
pub proof fn lemma_variables_of(f: Seq<Tree>, media: bool, parent: Option<nat>, c: nat, h: nat)
    ensures
        op_creates(forest_ops(f, media, parent, c, h)) == vars_from(c, forest_vars(f, media)),
{
    lemma_forest_laws(f, media, parent, c, h);
}

/// Transpiling preserves the text of a document: the texts that the guest sets are the text runs of
/// the document, in document order.
pub proof fn law_text_is_preserved(html: Seq<char>)
    ensures
        op_texts(site_ops(html)) == forest_text(crate::migrate::html_tree::document(html)),
{
    lemma_forest_laws(crate::migrate::html_tree::document(html), false, None, 0, 0);
}

/// A guest refers only to variables that it created before.
pub proof fn law_references_are_created_first(html: Seq<char>, k: int, v: Seq<char>)
    requires
        0 <= k < site_ops(html).len(),
        refers(site_ops(html)[k], v),
    ensures
        created_before(site_ops(html), k, v),
{
    lemma_forest_laws(crate::migrate::html_tree::document(html), false, None, 0, 0);
}

/// No variable is created twice.
pub proof fn law_variables_are_unique(html: Seq<char>, i: int, j: int)
    requires
        0 <= i < j < op_creates(site_ops(html)).len(),
    ensures
        op_creates(site_ops(html))[i] != op_creates(site_ops(html))[j],
{
    lemma_forest_laws(crate::migrate::html_tree::document(html), false, None, 0, 0);
    if var_name(i as nat) == var_name(j as nat) {
        lemma_variables_differ(i as nat, j as nat);
    }
}

/// Handlers are numbered one after the other from zero, and none is left as a plain attribute.
pub proof fn law_handlers_are_wired(html: Seq<char>)
    ensures
        forall|i: int|
            0 <= i < op_handlers(site_ops(html)).len() ==> #[trigger] op_handlers(site_ops(html))[i]
                == i,
        no_handler_attrs(site_ops(html)),
{
    lemma_forest_laws(crate::migrate::html_tree::document(html), false, None, 0, 0);
}

/// How many `source` elements of a node are folded into players.
pub open spec fn node_folds(t: Tree, media: bool) -> nat
    decreases t,
{
    match t {
        Tree::Text(_) => 0,
        Tree::Element { tag, attrs, children } => if media && folded(t) {
            1
        } else {
            forest_folds(children, media_tag(tag))
        },
    }
}

/// How many `source` elements of a forest are folded into players.
pub open spec fn forest_folds(f: Seq<Tree>, media: bool) -> nat
    decreases f,
{
    if f.len() == 0 {
        0
    } else {
        forest_folds(f.drop_last(), media) + node_folds(f.last(), media)
    }
}

proof fn lemma_creates_cover(f: Seq<Tree>, media: bool)
    ensures
        forest_count(f).0 <= forest_vars(f, media) + forest_folds(f, media),
    decreases f,
{
    if f.len() > 0 {
        lemma_creates_cover(f.drop_last(), media);
        let t = f.last();
        assert(forest_count(f).0 == forest_count(f.drop_last()).0 + tree_count(t).0);
        assert(forest_vars(f, media) == forest_vars(f.drop_last(), media) + node_vars(t, media));
        assert(forest_folds(f, media) == forest_folds(f.drop_last(), media) + node_folds(t, media));
        if let Tree::Element { tag, attrs, children } = t {
            lemma_creates_cover(children, media_tag(tag));
            if media && folded(t) {
                assert(forest_count(children).0 == 0);
            } else if text_leaf(children) {
                let none = Seq::<Tree>::empty();
                assert(children.drop_last() =~= none);
                assert(forest_count(none).0 == 0 && tree_count(children.last()).0 == 0);
                assert(forest_count(children).0 == 0);
            }
        }
    }
}

/// Every element of a document is created, but for the `source` elements that its players fold in.
pub proof fn law_elements_are_created(html: Seq<char>)
    ensures
        forest_count(crate::migrate::html_tree::document(html)).0 <= op_creates(
            site_ops(html),
        ).len() + forest_folds(crate::migrate::html_tree::document(html), false),
{
    let f = crate::migrate::html_tree::document(html);
    lemma_forest_laws(f, false, None, 0, 0);
    lemma_creates_cover(f, false);
}

} // verus!
