//! What the operations of a transpiled document come to when a host performs them: the page that
//! they build is the document.
//!
//! The host is modelled on its own, by what each operation does to a page. That a page shows a
//! document is stated over the page and the document alone.
use crate::migrate::html_tree::{document, Attr, Tree};
use crate::migrate::site_laws::{lemma_variables_differ, lemma_variables_of, op_creates, vars_from};
use crate::migrate::site_model::{
    append_op, attr_ops, folded, forest_ops, forest_vars, handler_count, handler_kind, media_tag,
    node_ops, node_vars, text_leaf, var_name, HandlerKind, OpView,
};
use crate::migrate::transpile::site_ops;
use crate::strings::{lower_seq, same_ignoring_case};
use vstd::prelude::*;

verus! {

/// An element of a page: its tag, its attributes and event handlers in the order they were given,
/// its text, and the variables of its children in order.
pub struct Built {
    pub tag: Seq<char>,
    pub attrs: Seq<Attr>,
    pub events: Seq<(HandlerKind, nat)>,
    pub text: Option<Seq<char>>,
    pub children: Seq<Seq<char>>,
}

/// A page: what each variable is bound to.
pub type Page = Map<Seq<char>, Built>;

/// An element as it is created.
pub open spec fn bare(tag: Seq<char>) -> Built {
    Built {
        tag,
        attrs: Seq::empty(),
        events: Seq::empty(),
        text: None,
        children: Seq::empty(),
    }
}

/// A page after one operation.
pub open spec fn performed(p: Page, op: OpView) -> Page {
    match op {
        OpView::Create { var, tag } => p.insert(var, bare(tag)),
        OpView::Text { var, text } => p.insert(var, Built { text: Some(text), ..p[var] }),
        OpView::Attr { var, name, value } => p.insert(
            var,
            Built { attrs: p[var].attrs.push((name, value)), ..p[var] },
        ),
        OpView::Append { parent, child } => p.insert(
            parent,
            Built { children: p[parent].children.push(child), ..p[parent] },
        ),
        OpView::On { kind, var, handler } => p.insert(
            var,
            Built { events: p[var].events.push((kind, handler)), ..p[var] },
        ),
    }
}

/// A page after a list of operations.
pub open spec fn performed_all(p: Page, ops: Seq<OpView>) -> Page
    decreases ops.len(),
{
    if ops.len() == 0 {
        p
    } else {
        performed(performed_all(p, ops.drop_last()), ops.last())
    }
}

/// The page that a list of operations builds from nothing.
pub open spec fn page_of(ops: Seq<OpView>) -> Page {
    performed_all(Map::empty(), ops)
}

/// Whether some operation hangs a variable below another.
pub open spec fn appended(ops: Seq<OpView>, v: Seq<char>) -> bool {
    exists|k: int| 0 <= k < ops.len() && #[trigger] appends(ops[k], v)
}

/// Whether an operation hangs a variable below another.
pub open spec fn appends(op: OpView, v: Seq<char>) -> bool {
    op matches OpView::Append { child, .. } && child == v
}

/// The variables that stand at the top of a page: created, and hung below nothing.
pub open spec fn tops(ops: Seq<OpView>) -> Seq<Seq<char>> {
    op_creates(ops).filter(|v: Seq<char>| !appended(ops, v))
}

/// The attribute that binds a handler to an event.
pub open spec fn event_attr(kind: HandlerKind) -> Seq<char> {
    match kind {
        HandlerKind::Click => "onclick"@,
        HandlerKind::Submit => "onsubmit"@,
        HandlerKind::Change => "onchange"@,
        HandlerKind::Input => "oninput"@,
        HandlerKind::Play => "onplay"@,
        HandlerKind::Pause => "onpause"@,
        HandlerKind::Ended => "onended"@,
    }
}

/// Whether an attribute binds a handler to an event.
pub open spec fn names_event(name: Seq<char>, kind: HandlerKind) -> bool {
    same_ignoring_case(name, event_attr(kind))
}

/// Whether an attribute binds a handler to some event.
pub open spec fn binds(name: Seq<char>) -> bool {
    exists|kind: HandlerKind| #[trigger] names_event(name, kind)
}

/// Whether attributes and handlers are those that a tag gives: each attribute that names an event
/// is a handler of that event, each other is an attribute, all in order.
pub open spec fn attrs_shown(
    attrs: Seq<Attr>,
    events: Seq<(HandlerKind, nat)>,
    given: Seq<Attr>,
) -> bool
    decreases given.len(),
{
    if given.len() == 0 {
        attrs.len() == 0 && events.len() == 0
    } else if binds(given.last().0) {
        &&& events.len() > 0
        &&& names_event(given.last().0, events.last().0)
        &&& attrs_shown(attrs, events.drop_last(), given.drop_last())
    } else {
        &&& attrs.len() > 0
        &&& attrs.last() == given.last()
        &&& attrs_shown(attrs.drop_last(), events, given.drop_last())
    }
}

/// Whether a node is a `source` without content.
pub open spec fn is_source(t: Tree) -> bool {
    t matches Tree::Element { tag, children, .. } && same_ignoring_case(tag, "source"@)
        && children.len() == 0
}

/// Whether a tag plays media.
pub open spec fn plays(tag: Seq<char>) -> bool {
    same_ignoring_case(tag, "video"@) || same_ignoring_case(tag, "audio"@)
}

/// Whether what a variable is bound to on a page is a node of a document. An element has the node's
/// tag, attributes and handlers. Its content is the node's: a single run of text is its own text,
/// anything else are its children. A run of text among other nodes is a `span` with that text.
pub open spec fn shows(p: Page, v: Seq<char>, t: Tree) -> bool
    decreases t,
{
    p.dom().contains(v) && match t {
        Tree::Text(text) => p[v] == (Built { text: Some(text), ..bare("span"@) }),
        Tree::Element { tag, attrs, children } => {
            &&& p[v].tag == tag
            &&& attrs_shown(p[v].attrs, p[v].events, attrs)
            &&& if children.len() == 1 && children[0] is Text {
                p[v].text == Some(children[0]->Text_0) && p[v].children.len() == 0
            } else {
                p[v].text is None && shows_all(p, p[v].children, children, plays(tag))
            }
        },
    }
}

/// Whether variables are bound to the nodes of a forest, one for one and in order; in a player, a
/// `source` without content has no variable.
pub open spec fn shows_all(p: Page, vs: Seq<Seq<char>>, f: Seq<Tree>, player: bool) -> bool
    decreases f,
{
    if f.len() == 0 {
        vs.len() == 0
    } else if player && is_source(f.last()) {
        shows_all(p, vs, f.drop_last(), player)
    } else {
        &&& vs.len() > 0
        &&& shows_all(p, vs.drop_last(), f.drop_last(), player)
        &&& shows(p, vs.last(), f.last())
    }
}

/// Whether two pages agree on the variables numbered from `c` up to `c + n`.
spec fn agree(p: Page, q: Page, c: nat, n: nat) -> bool {
    forall|k: nat|
        c <= k < c + n ==> {
            &&& #[trigger] q.dom().contains(var_name(k)) == p.dom().contains(var_name(k))
            &&& q[var_name(k)] == p[var_name(k)]
        }
}

/// The variables of the nodes of a forest, numbered from `c` on.
spec fn node_names(f: Seq<Tree>, media: bool, c: nat) -> Seq<Seq<char>>
    decreases f.len(),
{
    if f.len() == 0 {
        Seq::empty()
    } else {
        let front = f.drop_last();
        let names = node_names(front, media, c);
        if media && folded(f.last()) {
            names
        } else {
            names.push(var_name(c + forest_vars(front, media)))
        }
    }
}

/// What operations do to a page that hold the variables from `c` up to `c + n` and hang the given
/// children below a parent.
spec fn extends(
    p: Page,
    q: Page,
    parent: Option<nat>,
    c: nat,
    n: nat,
    more: Seq<Seq<char>>,
) -> bool {
    &&& forall|k: nat|
        !(c <= k < c + n) && parent != Some(k) ==> {
            &&& #[trigger] q.dom().contains(var_name(k)) == p.dom().contains(var_name(k))
            &&& q[var_name(k)] == p[var_name(k)]
        }
    &&& parent matches Some(k) ==> q.dom().contains(var_name(k)) && q[var_name(k)] == (Built {
        children: p[var_name(k)].children + more,
        ..p[var_name(k)]
    })
}

proof fn lemma_performed_add(p: Page, a: Seq<OpView>, b: Seq<OpView>)
    ensures
        performed_all(p, a + b) == performed_all(performed_all(p, a), b),
    decreases b.len(),
{
    if b.len() == 0 {
        assert(a + b =~= a);
    } else {
        assert((a + b).drop_last() =~= a + b.drop_last());
        assert((a + b).last() == b.last());
        lemma_performed_add(p, a, b.drop_last());
    }
}

proof fn lemma_performed_one(p: Page, op: OpView)
    ensures
        performed_all(p, seq![op]) == performed(p, op),
{
    assert(seq![op].drop_last() =~= Seq::<OpView>::empty());
    assert(performed_all(p, Seq::<OpView>::empty()) == p);
}

/// The attributes that bind handlers are those that name an event.
#[verifier::rlimit(40)]
proof fn lemma_events(name: Seq<char>)
    ensures
        forall|kind: HandlerKind|
            #[trigger] names_event(name, kind) <==> handler_kind(name) == Some(kind),
        binds(name) <==> handler_kind(name) is Some,
{
    reveal_strlit("onclick");
    reveal_strlit("onsubmit");
    reveal_strlit("onchange");
    reveal_strlit("oninput");
    reveal_strlit("onplay");
    reveal_strlit("onpause");
    reveal_strlit("onended");
    assert(lower_seq("onclick"@) =~= "onclick"@);
    assert(lower_seq("onsubmit"@) =~= "onsubmit"@);
    assert(lower_seq("onchange"@) =~= "onchange"@);
    assert(lower_seq("oninput"@) =~= "oninput"@);
    assert(lower_seq("onplay"@) =~= "onplay"@);
    assert(lower_seq("onpause"@) =~= "onpause"@);
    assert(lower_seq("onended"@) =~= "onended"@);
    assert("onclick"@[2] == 'c' && "onsubmit"@[2] == 's' && "onchange"@[2] == 'c' && "oninput"@[2]
        == 'i' && "onplay"@[2] == 'p' && "onpause"@[2] == 'p' && "onended"@[2] == 'e');
    assert("onclick"@[3] == 'l' && "onchange"@[3] == 'h' && "onplay"@[3] == 'l' && "onpause"@[3]
        == 'a');
    match handler_kind(name) {
        Some(kind) => {
            assert(names_event(name, kind));
        },
        None => {},
    }
}

/// Attributes give a fresh element what they say, and touch nothing else.
proof fn lemma_attrs(p: Page, attrs: Seq<Attr>, c: nat, h: nat)
    requires
        p.dom().contains(var_name(c)),
        p[var_name(c)].attrs.len() == 0,
        p[var_name(c)].events.len() == 0,
    ensures
        ({
            let q = performed_all(p, attr_ops(attrs, c, h));
            let v = var_name(c);
            &&& q.dom() == p.dom()
            &&& forall|w: Seq<char>| w != v ==> #[trigger] q[w] == p[w]
            &&& attrs_shown(q[v].attrs, q[v].events, attrs)
            &&& q[v] == (Built { attrs: q[v].attrs, events: q[v].events, ..p[v] })
        }),
    decreases attrs.len(),
{
    let ops = attr_ops(attrs, c, h);
    let q = performed_all(p, ops);
    if attrs.len() > 0 {
        let front = attrs.drop_last();
        lemma_attrs(p, front, c, h);
        assert(ops.drop_last() =~= attr_ops(front, c, h));
        let m = performed_all(p, attr_ops(front, c, h));
        let v = var_name(c);
        lemma_events(attrs.last().0);
        match handler_kind(attrs.last().0) {
            Some(kind) => {
                assert(q[v].events.drop_last() =~= m[v].events);
            },
            None => {
                assert(q[v].attrs.drop_last() =~= m[v].attrs);
            },
        }
        assert(q.dom() =~= p.dom());
    }
}

/// Two pages that agree with a third each agree with each other.
proof fn lemma_agree(q: Page, p: Page, r: Page, c: nat, n: nat, d: nat, m: nat)
    requires
        agree(q, r, c, n),
        c <= d,
        d + m <= c + n,
        agree(p, q, d, m),
    ensures
        agree(p, r, d, m),
{
    assert forall|k: nat| d <= k < d + m implies {
        &&& #[trigger] r.dom().contains(var_name(k)) == p.dom().contains(var_name(k))
        &&& r[var_name(k)] == p[var_name(k)]
    } by {
        assert(q.dom().contains(var_name(k)) == p.dom().contains(var_name(k)));
        assert(r.dom().contains(var_name(k)) == q.dom().contains(var_name(k)));
    }
}

#[verifier::rlimit(40)]
proof fn lemma_node(t: Tree, media: bool, parent: Option<nat>, c: nat, h: nat, p: Page)
    requires
        parent matches Some(k) ==> k < c && p.dom().contains(var_name(k)),
        !(media && folded(t)),
    ensures
        ({
            let q = performed_all(p, node_ops(t, media, parent, c, h));
            &&& extends(p, q, parent, c, node_vars(t, media), seq![var_name(c)])
            &&& forall|r: Page|
                #[trigger] agree(q, r, c, node_vars(t, media)) ==> shows(r, var_name(c), t)
        }),
    decreases t, 0nat,
{
    let ops = node_ops(t, media, parent, c, h);
    let q = performed_all(p, ops);
    let v = var_name(c);
    let last = append_op(parent, c);
    lemma_names(c);
    if let Some(k) = parent {
        lemma_names(k);
    }
    match t {
        Tree::Text(text) => {
            let a = OpView::Create { var: v, tag: "span"@ };
            let b = OpView::Text { var: v, text };
            assert(seq![a, b] =~= seq![a] + seq![b]);
            lemma_performed_one(p, a);
            lemma_performed_one(performed(p, a), b);
            lemma_performed_add(p, seq![a], seq![b]);
            let m = performed(performed(p, a), b);
            lemma_performed_add(p, seq![a, b], last);
            lemma_append(m, parent, c);
            assert(m[v] == Built { text: Some(text), ..bare("span"@) });
            assert forall|r: Page| #[trigger] agree(q, r, c, 1) implies shows(r, v, t) by {
                assert(r.dom().contains(var_name(c)) == q.dom().contains(var_name(c)));
            }
        },
        Tree::Element { tag, attrs, children } => {
            let a = OpView::Create { var: v, tag };
            let inner_h = h + handler_count(attrs);
            let n = node_vars(t, media);
            lemma_performed_one(p, a);
            let p1 = performed(p, a);
            lemma_attrs(p1, attrs, c, h);
            let s1 = seq![a] + attr_ops(attrs, c, h);
            lemma_performed_add(p, seq![a], attr_ops(attrs, c, h));
            let p2 = performed_all(p, s1);
            assert(plays(tag) == media_tag(tag));
            let content = if text_leaf(children) {
                seq![OpView::Text { var: v, text: children[0]->Text_0 }]
            } else {
                forest_ops(children, media_tag(tag), Some(c), c + 1, inner_h)
            };
            lemma_performed_add(p, s1, content);
            let p3 = performed_all(p2, content);
            lemma_performed_add(p, s1 + content, last);
            lemma_append(p3, parent, c);
            if text_leaf(children) {
                lemma_performed_one(p2, OpView::Text { var: v, text: children[0]->Text_0 });
                assert forall|r: Page| #[trigger] agree(q, r, c, n) implies shows(r, v, t) by {
                    assert(r.dom().contains(var_name(c)) == q.dom().contains(var_name(c)));
                }
            } else {
                lemma_forest(children, media_tag(tag), Some(c), c + 1, inner_h, p2);
                let kids = node_names(children, media_tag(tag), c + 1);
                assert(p2[v].children + kids =~= kids);
                let inner = forest_vars(children, media_tag(tag));
                assert(agree(p3, q, c + 1, inner)) by {
                    assert forall|k: nat| c + 1 <= k < c + 1 + inner implies {
                        &&& #[trigger] q.dom().contains(var_name(k)) == p3.dom().contains(
                            var_name(k),
                        )
                        &&& q[var_name(k)] == p3[var_name(k)]
                    } by {
                        lemma_names(k);
                    }
                }
                assert forall|r: Page| #[trigger] agree(q, r, c, n) implies shows(r, v, t) by {
                    assert(r.dom().contains(var_name(c)) == q.dom().contains(var_name(c)));
                    lemma_agree(q, p3, r, c, n, c + 1, inner);
                    assert(agree(p3, r, c + 1, inner));
                }
            }
            assert forall|k: nat| !(c <= k < c + n) && parent != Some(k) implies {
                &&& #[trigger] q.dom().contains(var_name(k)) == p.dom().contains(var_name(k))
                &&& q[var_name(k)] == p[var_name(k)]
            } by {
                lemma_names(k);
                assert(p3.dom().contains(var_name(k)) == p2.dom().contains(var_name(k)));
                assert(q.dom().contains(var_name(k)) == p3.dom().contains(var_name(k)));
            }
            if let Some(k) = parent {
                lemma_names(k);
                assert(p3.dom().contains(var_name(k)) == p2.dom().contains(var_name(k)));
                assert(p3[var_name(k)] == p[var_name(k)]);
                assert(p[var_name(k)].children.push(v) =~= p[var_name(k)].children + seq![v]);
            }
        },
    }
    if let Some(k) = parent {
        assert(p[var_name(k)].children.push(v) =~= p[var_name(k)].children + seq![v]);
    }
}

#[verifier::rlimit(40)]
proof fn lemma_forest(f: Seq<Tree>, media: bool, parent: Option<nat>, c: nat, h: nat, p: Page)
    requires
        parent matches Some(k) ==> k < c && p.dom().contains(var_name(k)),
    ensures
        ({
            let q = performed_all(p, forest_ops(f, media, parent, c, h));
            let names = node_names(f, media, c);
            &&& extends(p, q, parent, c, forest_vars(f, media), names)
            &&& forall|r: Page|
                #[trigger] agree(q, r, c, forest_vars(f, media)) ==> shows_all(r, names, f, media)
        }),
    decreases f, 1nat,
{
    let ops = forest_ops(f, media, parent, c, h);
    let q = performed_all(p, ops);
    let names = node_names(f, media, c);
    if f.len() == 0 {
        if let Some(k) = parent {
            assert(p[var_name(k)].children + names =~= p[var_name(k)].children);
        }
    } else {
        let front = f.drop_last();
        let t = f.last();
        let n1 = forest_vars(front, media);
        let n2 = node_vars(t, media);
        let c2 = c + n1;
        let h2 = h + crate::migrate::site_model::forest_handlers(front, media);
        lemma_forest(front, media, parent, c, h, p);
        let m = performed_all(p, forest_ops(front, media, parent, c, h));
        let first = node_names(front, media, c);
        lemma_performed_add(
            p,
            forest_ops(front, media, parent, c, h),
            node_ops(t, media, parent, c2, h2),
        );
        assert(is_source(t) == folded(t));
        if media && folded(t) {
            assert(node_ops(t, media, parent, c2, h2) =~= Seq::<OpView>::empty());
            assert(q == m);
        } else {
            lemma_node(t, media, parent, c2, h2, m);
            assert forall|r: Page| #[trigger] agree(q, r, c, n1 + n2) implies shows_all(
                r,
                names,
                f,
                media,
            ) by {
                assert forall|k: nat| c <= k < c + n1 implies {
                    &&& #[trigger] r.dom().contains(var_name(k)) == m.dom().contains(var_name(k))
                    &&& r[var_name(k)] == m[var_name(k)]
                } by {
                    assert(q.dom().contains(var_name(k)) == m.dom().contains(var_name(k)));
                    assert(r.dom().contains(var_name(k)) == q.dom().contains(var_name(k)));
                }
                assert(agree(m, r, c, n1));
                assert forall|k: nat| c2 <= k < c2 + n2 implies {
                    &&& #[trigger] r.dom().contains(var_name(k)) == q.dom().contains(var_name(k))
                    &&& r[var_name(k)] == q[var_name(k)]
                } by {}
                assert(agree(q, r, c2, n2));
                assert(names.drop_last() =~= first);
            }
            assert forall|k: nat| !(c <= k < c + n1 + n2) && parent != Some(k) implies {
                &&& #[trigger] q.dom().contains(var_name(k)) == p.dom().contains(var_name(k))
                &&& q[var_name(k)] == p[var_name(k)]
            } by {
                assert(q.dom().contains(var_name(k)) == m.dom().contains(var_name(k)));
                assert(m.dom().contains(var_name(k)) == p.dom().contains(var_name(k)));
            }
            if let Some(k) = parent {
                let old = p[var_name(k)].children;
                assert(old + first + seq![var_name(c2)] =~= old + names);
            }
        }
    }
}

/// The variable of a number is that of no other.
proof fn lemma_names(c: nat)
    ensures
        forall|k: nat| #[trigger] var_name(k) == var_name(c) ==> k == c,
{
    assert forall|k: nat| #[trigger] var_name(k) == var_name(c) implies k == c by {
        lemma_variables_differ(k, c);
    }
}

proof fn lemma_append(p: Page, parent: Option<nat>, c: nat)
    ensures
        ({
            let q = performed_all(p, append_op(parent, c));
            match parent {
                Some(k) => q == p.insert(
                    var_name(k),
                    Built {
                        children: p[var_name(k)].children.push(var_name(c)),
                        ..p[var_name(k)]
                    },
                ),
                None => q == p,
            }
        }),
{
    if let Some(k) = parent {
        lemma_names(k);
        lemma_performed_one(p, OpView::Append { parent: var_name(k), child: var_name(c) });
    }
}

/// Whether a variable is one of those numbered from `c` up to `c + n`.
spec fn numbered(v: Seq<char>, c: nat, n: nat) -> bool {
    exists|k: nat| c <= k < c + n && v == #[trigger] var_name(k)
}

/// Whether no variable is hung below others twice.
pub open spec fn hung_once(ops: Seq<OpView>) -> bool {
    forall|i: int, j: int, v: Seq<char>|
        0 <= i < j < ops.len() && #[trigger] appends(ops[i], v) ==> !#[trigger] appends(ops[j], v)
}

/// Whether operations hang the variables from `c` up to `c + n` below others, each once, but for
/// some that stay free.
spec fn hung(ops: Seq<OpView>, c: nat, n: nat, free: Seq<Seq<char>>) -> bool {
    &&& forall|v: Seq<char>| #[trigger] appended(ops, v) ==> numbered(v, c, n)
    &&& forall|k: nat|
        c <= k < c + n ==> (appended(ops, #[trigger] var_name(k)) <==> !free.contains(var_name(k)))
    &&& hung_once(ops)
    &&& forall|i: int| 0 <= i < free.len() ==> numbered(#[trigger] free[i], c, n)
}

proof fn lemma_appended_add(a: Seq<OpView>, b: Seq<OpView>, v: Seq<char>)
    ensures
        appended(a + b, v) <==> appended(a, v) || appended(b, v),
{
    let s = a + b;
    if appended(s, v) {
        let k = choose|k: int| 0 <= k < s.len() && #[trigger] appends(s[k], v);
        if k < a.len() {
            assert(appends(a[k], v));
        } else {
            assert(appends(b[k - a.len()], v));
        }
    }
    if appended(a, v) {
        let k = choose|k: int| 0 <= k < a.len() && #[trigger] appends(a[k], v);
        assert(appends(s[k], v));
    }
    if appended(b, v) {
        let k = choose|k: int| 0 <= k < b.len() && #[trigger] appends(b[k], v);
        assert(appends(s[k + a.len()], v));
    }
}

#[verifier::rlimit(40)]
proof fn lemma_hung_add(
    a: Seq<OpView>,
    b: Seq<OpView>,
    c: nat,
    na: nat,
    nb: nat,
    fa: Seq<Seq<char>>,
    fb: Seq<Seq<char>>,
)
    requires
        hung(a, c, na, fa),
        hung(b, c + na, nb, fb),
    ensures
        hung(a + b, c, na + nb, fa + fb),
{
    let s = a + b;
    let f = fa + fb;
    assert forall|v: Seq<char>| #[trigger] appended(s, v) implies numbered(v, c, na + nb) by {
        lemma_appended_add(a, b, v);
        if appended(a, v) {
            let k = choose|k: nat| c <= k < c + na && v == #[trigger] var_name(k);
            assert(c <= k < c + (na + nb));
        } else {
            let k = choose|k: nat| c + na <= k < c + na + nb && v == #[trigger] var_name(k);
            assert(c <= k < c + (na + nb));
        }
    }
    assert forall|k: nat| c <= k < c + (na + nb) implies (appended(s, #[trigger] var_name(k))
        <==> !f.contains(var_name(k))) by {
        let v = var_name(k);
        lemma_names(k);
        lemma_appended_add(a, b, v);
        if f.contains(v) {
            let i = choose|i: int| 0 <= i < f.len() && f[i] == v;
            if i < fa.len() {
                assert(numbered(fa[i], c, na));
                assert(fa.contains(v));
            } else {
                assert(numbered(fb[i - fa.len()], c + na, nb));
                assert(fb.contains(v));
            }
        }
        if fa.contains(v) {
            let i = choose|i: int| 0 <= i < fa.len() && fa[i] == v;
            assert(f[i] == v);
        }
        if fb.contains(v) {
            let i = choose|i: int| 0 <= i < fb.len() && fb[i] == v;
            assert(f[fa.len() + i] == v);
        }
        if k < c + na {
            if appended(b, v) {
                assert(numbered(v, c + na, nb));
            }
        } else if appended(a, v) {
            assert(numbered(v, c, na));
        }
    }
    assert forall|i: int, j: int, v: Seq<char>|
        0 <= i < j < s.len() && #[trigger] appends(s[i], v) implies !#[trigger] appends(s[j], v) by {
        if j < a.len() {
            assert(appends(a[i], v));
            assert(!appends(a[j], v));
        } else if i >= a.len() {
            assert(appends(b[i - a.len()], v));
            assert(!appends(b[j - a.len()], v));
        } else {
            assert(appends(a[i], v));
            assert(appended(a, v));
            if appends(s[j], v) {
                assert(appends(b[j - a.len()], v));
                assert(appended(b, v));
                let k = choose|k: nat| c <= k < c + na && v == #[trigger] var_name(k);
                lemma_names(k);
            }
        }
    }
    assert forall|i: int| 0 <= i < f.len() implies numbered(#[trigger] f[i], c, na + nb) by {
        if i < fa.len() {
            assert(numbered(fa[i], c, na));
            let k = choose|k: nat| c <= k < c + na && fa[i] == #[trigger] var_name(k);
            assert(c <= k < c + (na + nb));
        } else {
            assert(numbered(fb[i - fa.len()], c + na, nb));
            let k = choose|k: nat|
                c + na <= k < c + na + nb && fb[i - fa.len()] == #[trigger] var_name(k);
            assert(c <= k < c + (na + nb));
        }
    }
}

/// The attributes of an element hang nothing below anything.
proof fn lemma_attrs_hang_nothing(attrs: Seq<Attr>, c: nat, h: nat)
    ensures
        forall|k: int, v: Seq<char>|
            0 <= k < attr_ops(attrs, c, h).len() ==> !#[trigger] appends(
                attr_ops(attrs, c, h)[k],
                v,
            ),
    decreases attrs.len(),
{
    let ops = attr_ops(attrs, c, h);
    if attrs.len() > 0 {
        let front = attr_ops(attrs.drop_last(), c, h);
        lemma_attrs_hang_nothing(attrs.drop_last(), c, h);
        assert forall|k: int, v: Seq<char>| 0 <= k < ops.len() implies !#[trigger] appends(
            ops[k],
            v,
        ) by {
            if k < front.len() {
                assert(ops[k] == front[k]);
                assert(!appends(front[k], v));
            }
        }
    }
}

#[verifier::rlimit(40)]
proof fn lemma_node_hangs(t: Tree, media: bool, parent: Option<nat>, c: nat, h: nat)
    requires
        !(media && folded(t)),
    ensures
        hung(
            node_ops(t, media, parent, c, h),
            c,
            node_vars(t, media),
            if parent is Some {
                Seq::empty()
            } else {
                seq![var_name(c)]
            },
        ),
    decreases t, 0nat,
{
    let ops = node_ops(t, media, parent, c, h);
    let last = append_op(parent, c);
    let v = var_name(c);
    let free = if parent is Some {
        Seq::empty()
    } else {
        seq![v]
    };
    lemma_names(c);
    // What stands before the content of the node, and hangs nothing.
    let (head, inner, n) = match t {
        Tree::Text(text) => (
            seq![OpView::Create { var: v, tag: "span"@ }, OpView::Text { var: v, text }],
            Seq::<OpView>::empty(),
            0nat,
        ),
        Tree::Element { tag, attrs, children } => if text_leaf(children) {
            (
                seq![OpView::Create { var: v, tag }] + attr_ops(attrs, c, h) + seq![
                    OpView::Text { var: v, text: children[0]->Text_0 },
                ],
                Seq::<OpView>::empty(),
                0nat,
            )
        } else {
            (
                seq![OpView::Create { var: v, tag }] + attr_ops(attrs, c, h),
                forest_ops(children, media_tag(tag), Some(c), c + 1, h + handler_count(attrs)),
                forest_vars(children, media_tag(tag)),
            )
        },
    };
    assert(ops =~= head + inner + last);
    assert forall|k: int, w: Seq<char>| 0 <= k < head.len() implies !#[trigger] appends(
        head[k],
        w,
    ) by {
        if let Tree::Element { tag, attrs, children } = t {
            lemma_attrs_hang_nothing(attrs, c, h);
            let a = attr_ops(attrs, c, h);
            if 1 <= k <= a.len() {
                assert(head[k] == a[k - 1]);
            }
        }
    }
    let none = Seq::<Seq<char>>::empty();
    match t {
        Tree::Element { tag, attrs, children } if !text_leaf(children) => {
            lemma_forest_hangs(
                children,
                media_tag(tag),
                Some(c),
                c + 1,
                h + handler_count(attrs),
            );
        },
        _ => {
            assert(hung(inner, c + 1, 0, none));
        },
    }
    assert(hung(inner, c + 1, n, none));
    assert forall|w: Seq<char>| #[trigger] appended(ops, w) <==> appended(inner, w) || appended(
        last,
        w,
    ) by {
        lemma_appended_add(head + inner, last, w);
        lemma_appended_add(head, inner, w);
        if appended(head, w) {
            let k = choose|k: int| 0 <= k < head.len() && #[trigger] appends(head[k], w);
            assert(false);
        }
    }
    assert forall|w: Seq<char>| #[trigger] appended(last, w) <==> parent is Some && w == v by {
        if parent is Some && w == v {
            assert(appends(last[0], w));
        }
    }
    assert forall|w: Seq<char>| #[trigger] appended(ops, w) implies numbered(w, c, 1 + n) by {
        if appended(inner, w) {
            let k = choose|k: nat| c + 1 <= k < c + 1 + n && w == #[trigger] var_name(k);
            assert(c <= k < c + (1 + n));
        } else {
            assert(appended(last, w));
            assert(c <= c < c + (1 + n));
        }
    }
    assert forall|k: nat| c <= k < c + (1 + n) implies (appended(ops, #[trigger] var_name(k))
        <==> !free.contains(var_name(k))) by {
        lemma_names(k);
        assert(seq![v][0] == v);
        if k == c {
            if appended(inner, v) {
                assert(numbered(v, c + 1, n));
            }
            assert(appended(last, v) <==> parent is Some);
        } else {
            assert(appended(inner, var_name(k)));
            if free.contains(var_name(k)) {
                let i = choose|i: int| 0 <= i < free.len() && free[i] == var_name(k);
                assert(free[i] == v);
            }
        }
    }
    assert forall|i: int, j: int, w: Seq<char>|
        0 <= i < j < ops.len() && #[trigger] appends(ops[i], w) implies !#[trigger] appends(
        ops[j],
        w,
    ) by {
        let a = head.len() as int;
        let b = a + inner.len();
        if i < a {
            assert(!appends(head[i], w));
        } else {
            assert(i < b);
            assert(appends(inner[i - a], w));
            assert(appended(inner, w));
            if j < b {
                assert(!appends(inner[j - a], w));
            } else {
                let k = choose|k: nat| c + 1 <= k < c + 1 + n && w == #[trigger] var_name(k);
                lemma_names(k);
            }
        }
    }
    assert forall|i: int| 0 <= i < free.len() implies numbered(#[trigger] free[i], c, 1 + n) by {
        assert(c <= c < c + (1 + n));
        assert(free[i] == var_name(c));
    }
    assert(node_vars(t, media) == 1 + n);
}

#[verifier::rlimit(40)]
proof fn lemma_forest_hangs(f: Seq<Tree>, media: bool, parent: Option<nat>, c: nat, h: nat)
    ensures
        hung(
            forest_ops(f, media, parent, c, h),
            c,
            forest_vars(f, media),
            if parent is Some {
                Seq::empty()
            } else {
                node_names(f, media, c)
            },
        ),
    decreases f, 1nat,
{
    let none = Seq::<Seq<char>>::empty();
    if f.len() > 0 {
        let front = f.drop_last();
        let t = f.last();
        let n1 = forest_vars(front, media);
        let n2 = node_vars(t, media);
        let h2 = h + crate::migrate::site_model::forest_handlers(front, media);
        lemma_forest_hangs(front, media, parent, c, h);
        let a = forest_ops(front, media, parent, c, h);
        let b = node_ops(t, media, parent, c + n1, h2);
        if media && folded(t) {
            assert(a + b =~= a);
        } else {
            lemma_node_hangs(t, media, parent, c + n1, h2);
            if parent is Some {
                lemma_hung_add(a, b, c, n1, n2, none, none);
                assert(none + none =~= none);
            } else {
                let names = node_names(front, media, c);
                lemma_hung_add(a, b, c, n1, n2, names, seq![var_name(c + n1)]);
                assert(names + seq![var_name(c + n1)] =~= node_names(f, media, c));
            }
        }
    }
}

/// A filter that lets nothing of a list through leaves nothing.
proof fn lemma_filter_none(s: Seq<Seq<char>>, pred: spec_fn(Seq<char>) -> bool)
    requires
        forall|i: int| 0 <= i < s.len() ==> !pred(#[trigger] s[i]),
    ensures
        s.filter(pred) == Seq::<Seq<char>>::empty(),
    decreases s.len(),
{
    reveal(Seq::filter);
    if s.len() > 0 {
        lemma_filter_none(s.drop_last(), pred);
    }
}

/// Of the variables of a forest, those of its nodes are the ones that a filter for them keeps.
#[verifier::rlimit(40)]
proof fn lemma_filter_names(
    f: Seq<Tree>,
    media: bool,
    c: nat,
    pred: spec_fn(Seq<char>) -> bool,
)
    requires
        forall|k: nat|
            c <= k < c + forest_vars(f, media) ==> (pred(#[trigger] var_name(k)) <==> node_names(
                f,
                media,
                c,
            ).contains(var_name(k))),
    ensures
        vars_from(c, forest_vars(f, media)).filter(pred) == node_names(f, media, c),
    decreases f.len(),
{
    reveal(Seq::filter);
    let names = node_names(f, media, c);
    let all = vars_from(c, forest_vars(f, media));
    if f.len() == 0 {
        assert(all =~= Seq::<Seq<char>>::empty());
    } else {
        let front = f.drop_last();
        let t = f.last();
        let n1 = forest_vars(front, media);
        let n2 = node_vars(t, media);
        let first = node_names(front, media, c);
        lemma_names_range(f, media, c);
        lemma_names_range(front, media, c);
        assert forall|k: nat| c <= k < c + n1 implies (pred(#[trigger] var_name(k))
            <==> first.contains(var_name(k))) by {
            lemma_names(k);
            if first.contains(var_name(k)) {
                let i = choose|i: int| 0 <= i < first.len() && first[i] == var_name(k);
                assert(names[i] == var_name(k));
            }
            if names.contains(var_name(k)) {
                let i = choose|i: int| 0 <= i < names.len() && names[i] == var_name(k);
                if i < first.len() {
                    assert(first[i] == var_name(k));
                }
            }
        }
        lemma_filter_names(front, media, c, pred);
        let a = vars_from(c, n1);
        let b = vars_from(c + n1, n2);
        assert(all =~= a + b);
        Seq::filter_distributes_over_add(a, b, pred);
        if media && folded(t) {
            assert(b =~= Seq::<Seq<char>>::empty());
            assert(b.filter(pred) =~= Seq::<Seq<char>>::empty());
            assert(first + Seq::<Seq<char>>::empty() =~= first);
        } else {
            let v = var_name(c + n1);
            let rest = vars_from(c + n1 + 1, (n2 - 1) as nat);
            assert(b =~= seq![v] + rest);
            Seq::filter_distributes_over_add(seq![v], rest, pred);
            assert(names[first.len() as int] == v);
            assert(pred(v));
            assert(seq![v].drop_last() =~= Seq::<Seq<char>>::empty());
            assert(seq![v].filter(pred) =~= seq![v]);
            assert forall|i: int| 0 <= i < rest.len() implies !pred(#[trigger] rest[i]) by {
                let k = (c + n1 + 1 + i) as nat;
                lemma_names(k);
                assert(rest[i] == var_name(k));
                if names.contains(var_name(k)) {
                    let j = choose|j: int| 0 <= j < names.len() && names[j] == var_name(k);
                    if j < first.len() {
                        assert(numbered(first[j], c, n1));
                    }
                }
            }
            lemma_filter_none(rest, pred);
            assert(first + (seq![v] + Seq::<Seq<char>>::empty()) =~= names);
        }
    }
}

proof fn lemma_names_range(f: Seq<Tree>, media: bool, c: nat)
    ensures
        forall|i: int|
            0 <= i < node_names(f, media, c).len() ==> numbered(
                #[trigger] node_names(f, media, c)[i],
                c,
                forest_vars(f, media),
            ),
{
    lemma_forest_hangs(f, media, None, c, 0);
}

/// Performing the operations of a transpiled document rebuilds the document: the variables at the
/// top of the page are bound to the nodes of the document, one for one and in order, each with its
/// tag, its attributes, its handlers and its content, down to the last run of text. No variable is
/// hung below others more than once.
pub proof fn law_page_is_the_document(html: Seq<char>)
    ensures
        shows_all(page_of(site_ops(html)), tops(site_ops(html)), document(html), false),
        hung_once(site_ops(html)),
{
    let f = document(html);
    let ops = site_ops(html);
    let n = forest_vars(f, false);
    lemma_forest(f, false, None, 0, 0, Map::empty());
    lemma_forest_hangs(f, false, None, 0, 0);
    lemma_variables_of(f, false, None, 0, 0);
    assert(agree(page_of(ops), page_of(ops), 0, n));
    lemma_filter_names(f, false, 0, |v: Seq<char>| !appended(ops, v));
}

} // verus!
