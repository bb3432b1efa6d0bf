//! What the transpiler records of a document: its forms and their fields, its tables and their rows,
//! its charts and its players, and the text of the guest that rebuilds it.
use crate::migrate::html_tree::{document, Attr, Tree};
use crate::migrate::site_model::{
    attr_ops, charts_at, charts_in, escaped, field_tag, field_view, first_attr, folded,
    forest_elements, forest_fields, forest_ops, forest_rows, forest_submits, forms_at, forms_in,
    handler_call, handler_kind, has_pair, last_attr, media_tag, node_elements, node_fields,
    node_ops, node_rows, node_submits, op_line, op_lines, players_at, players_in, series_of,
    sources_of, tables_at, tables_in, text_leaf, ChartView, FieldView, FormView, HandlerKind,
    OpView, PlayerView, SourceView, TableView,
};
use crate::migrate::transpile::{site_elements, site_ops};
use crate::string_laws::law_decimal_reads_back;
use crate::strings::{dec, is_digit, lower_seq, same_ignoring_case};
use vstd::prelude::*;

verus! {

/// The variables that a list of operations creates for elements of a kind, in order.
pub open spec fn created(ops: Seq<OpView>, kind: spec_fn(Seq<char>) -> bool) -> Seq<Seq<char>>
    decreases ops.len(),
{
    if ops.len() == 0 {
        Seq::empty()
    } else {
        let front = created(ops.drop_last(), kind);
        match ops.last() {
            OpView::Create { var, tag } => if kind(lower_seq(tag)) {
                front.push(var)
            } else {
                front
            },
            _ => front,
        }
    }
}

proof fn lemma_created_add(a: Seq<OpView>, b: Seq<OpView>, kind: spec_fn(Seq<char>) -> bool)
    ensures
        created(a + b, kind) == created(a, kind) + created(b, kind),
    decreases b.len(),
{
    if b.len() == 0 {
        assert(a + b =~= a);
        assert(created(a, kind) + created(b, kind) =~= created(a, kind));
    } else {
        lemma_created_add(a, b.drop_last(), kind);
        assert((a + b).drop_last() =~= a + b.drop_last());
        assert((a + b).last() == b.last());
        assert(created(a + b, kind) =~= created(a, kind) + created(b, kind));
    }
}

/// Operations that create nothing.
proof fn lemma_created_none(ops: Seq<OpView>, kind: spec_fn(Seq<char>) -> bool)
    requires
        forall|i: int| 0 <= i < ops.len() ==> !((#[trigger] ops[i]) is Create),
    ensures
        created(ops, kind) == Seq::<Seq<char>>::empty(),
    decreases ops.len(),
{
    if ops.len() > 0 {
        let f = ops.drop_last();
        assert forall|i: int| 0 <= i < f.len() implies !((#[trigger] f[i]) is Create) by {
            assert(f[i] == ops[i]);
        }
        lemma_created_none(f, kind);
        assert(!(ops[ops.len() - 1] is Create));
    }
}

proof fn lemma_attrs_create_nothing(attrs: Seq<Attr>, c: nat, h: nat)
    ensures
        forall|i: int|
            0 <= i < attr_ops(attrs, c, h).len() ==> !((#[trigger] attr_ops(attrs, c, h)[i]) is Create),
    decreases attrs.len(),
{
    if attrs.len() > 0 {
        let front = attr_ops(attrs.drop_last(), c, h);
        lemma_attrs_create_nothing(attrs.drop_last(), c, h);
        let all = attr_ops(attrs, c, h);
        assert forall|i: int| 0 <= i < all.len() implies !((#[trigger] all[i]) is Create) by {
            if i < front.len() {
                assert(all[i] == front[i]);
            }
        }
    }
}

/// The variables of elements of a kind, in document order.
spec fn chosen(es: Seq<(nat, Tree)>, kind: spec_fn(Seq<char>) -> bool) -> Seq<Seq<char>>
    decreases es.len(),
{
    if es.len() == 0 {
        Seq::empty()
    } else {
        let front = chosen(es.drop_last(), kind);
        match es.last().1 {
            Tree::Element { tag, .. } if kind(lower_seq(tag)) => front.push("el"@ + dec(es.last().0)),
            _ => front,
        }
    }
}

proof fn lemma_chosen_add(a: Seq<(nat, Tree)>, b: Seq<(nat, Tree)>, kind: spec_fn(Seq<char>) -> bool)
    ensures
        chosen(a + b, kind) == chosen(a, kind) + chosen(b, kind),
    decreases b.len(),
{
    if b.len() == 0 {
        assert(a + b =~= a);
        assert(chosen(a, kind) + chosen(b, kind) =~= chosen(a, kind));
    } else {
        lemma_chosen_add(a, b.drop_last(), kind);
        assert((a + b).drop_last() =~= a + b.drop_last());
        assert((a + b).last() == b.last());
        assert(chosen(a + b, kind) =~= chosen(a, kind) + chosen(b, kind));
    }
}

#[verifier::rlimit(40)]
proof fn lemma_node_created(
    t: Tree,
    media: bool,
    parent: Option<nat>,
    c: nat,
    h: nat,
    kind: spec_fn(Seq<char>) -> bool,
)
    requires
        !kind("span"@),
    ensures
        created(node_ops(t, media, parent, c, h), kind) == chosen(node_elements(t, media, c), kind),
    decreases t, 0nat,
{
    let none = Seq::<OpView>::empty();
    let hang = crate::migrate::site_model::append_op(parent, c);
    lemma_created_none(hang, kind);
    reveal_strlit("span");
    assert(lower_seq("span"@) =~= "span"@);
    match t {
        Tree::Text(text) => {
            let a = OpView::Create { var: crate::migrate::site_model::var_name(c), tag: "span"@ };
            let b = OpView::Text { var: crate::migrate::site_model::var_name(c), text };
            lemma_created_add(seq![a, b], hang, kind);
            assert(seq![a, b].drop_last() =~= seq![a]);
            assert(seq![a].drop_last() =~= none);
            assert(created(seq![a].drop_last(), kind) == Seq::<Seq<char>>::empty());
            assert(created(seq![a], kind) == Seq::<Seq<char>>::empty());
            assert(created(seq![a, b], kind) =~= Seq::<Seq<char>>::empty());
        },
        Tree::Element { tag, attrs, children } => {
            if !(media && folded(t)) {
                let a = OpView::Create { var: crate::migrate::site_model::var_name(c), tag };
                let own = attr_ops(attrs, c, h);
                lemma_attrs_create_nothing(attrs, c, h);
                lemma_created_none(own, kind);
                let hs = h + crate::migrate::site_model::handler_count(attrs);
                let body = if text_leaf(children) {
                    seq![
                        OpView::Text {
                            var: crate::migrate::site_model::var_name(c),
                            text: children[0]->Text_0,
                        },
                    ]
                } else {
                    forest_ops(children, media_tag(tag), Some(c), c + 1, hs)
                };
                let below = forest_elements(children, media_tag(tag), c + 1);
                if text_leaf(children) {
                    lemma_created_none(body, kind);
                    assert(children.drop_last() =~= Seq::<Tree>::empty());
                    assert(children.last() is Text);
                    assert(forest_elements(children.drop_last(), media_tag(tag), c + 1).len() == 0);
                    assert(node_elements(children.last(), media_tag(tag), c + 1).len() == 0);
                    assert(crate::migrate::site_model::forest_vars(children.drop_last(), media_tag(tag))
                        == 0);
                    assert(below =~= Seq::<(nat, Tree)>::empty());
                } else {
                    lemma_forest_created(children, media_tag(tag), Some(c), c + 1, hs, kind);
                }
                assert(created(body, kind) == chosen(below, kind));
                lemma_created_add(seq![a] + own + body, hang, kind);
                lemma_created_add(seq![a] + own, body, kind);
                lemma_created_add(seq![a], own, kind);
                assert(seq![a].drop_last() =~= none);
                assert(created(none, kind) == Seq::<Seq<char>>::empty());
                assert(seq![a].last() == a);
                lemma_chosen_add(seq![(c, t)], below, kind);
                assert(seq![(c, t)].drop_last() =~= Seq::<(nat, Tree)>::empty());
                assert(chosen(Seq::<(nat, Tree)>::empty(), kind) == Seq::<Seq<char>>::empty());
                assert(seq![(c, t)].last() == (c, t));
                assert(created(seq![a], kind) =~= chosen(seq![(c, t)], kind));
                assert(created(node_ops(t, media, parent, c, h), kind) =~= chosen(
                    node_elements(t, media, c),
                    kind,
                ));
            }
        },
    }
}

proof fn lemma_forest_created(
    f: Seq<Tree>,
    media: bool,
    parent: Option<nat>,
    c: nat,
    h: nat,
    kind: spec_fn(Seq<char>) -> bool,
)
    requires
        !kind("span"@),
    ensures
        created(forest_ops(f, media, parent, c, h), kind) == chosen(forest_elements(f, media, c), kind),
    decreases f, 1nat,
{
    if f.len() > 0 {
        let front = f.drop_last();
        let c2 = c + crate::migrate::site_model::forest_vars(front, media);
        let h2 = h + crate::migrate::site_model::forest_handlers(front, media);
        lemma_forest_created(front, media, parent, c, h, kind);
        lemma_node_created(f.last(), media, parent, c2, h2, kind);
        lemma_created_add(
            forest_ops(front, media, parent, c, h),
            node_ops(f.last(), media, parent, c2, h2),
            kind,
        );
        lemma_chosen_add(
            forest_elements(front, media, c),
            node_elements(f.last(), media, c2),
            kind,
        );
    }
}

/// The variables of a document's forms, tables, charts and players.
proof fn lemma_recorded(es: Seq<(nat, Tree)>)
    ensures
        forms_in(es).map_values(|x: FormView| x.var) == chosen(es, |t: Seq<char>| t == "form"@),
        tables_in(es).map_values(|x: TableView| x.var) == chosen(es, |t: Seq<char>| t == "table"@),
        charts_in(es).map_values(|x: ChartView| x.var) == chosen(
            es,
            |t: Seq<char>| t == "canvas"@ || t == "svg"@,
        ),
        players_in(es).map_values(|x: PlayerView| x.var) == chosen(
            es,
            |t: Seq<char>| t == "video"@ || t == "audio"@,
        ),
    decreases es.len(),
{
    if es.len() > 0 {
        lemma_recorded(es.drop_last());
        lemma_small_tags();
        assert(forms_in(es).map_values(|x: FormView| x.var) =~= chosen(
            es,
            |t: Seq<char>| t == "form"@,
        ));
        assert(tables_in(es).map_values(|x: TableView| x.var) =~= chosen(
            es,
            |t: Seq<char>| t == "table"@,
        ));
        assert(charts_in(es).map_values(|x: ChartView| x.var) =~= chosen(
            es,
            |t: Seq<char>| t == "canvas"@ || t == "svg"@,
        ));
        assert(players_in(es).map_values(|x: PlayerView| x.var) =~= chosen(
            es,
            |t: Seq<char>| t == "video"@ || t == "audio"@,
        ));
    }
}

/// The names that the models go by are in lower case.
#[verifier::rlimit(40)]
proof fn lemma_small_tags()
    ensures
        lower_seq("form"@) == "form"@,
        lower_seq("table"@) == "table"@,
        lower_seq("tr"@) == "tr"@,
        lower_seq("canvas"@) == "canvas"@,
        lower_seq("svg"@) == "svg"@,
        lower_seq("video"@) == "video"@,
        lower_seq("audio"@) == "audio"@,
        lower_seq("source"@) == "source"@,
        lower_seq("input"@) == "input"@,
        lower_seq("select"@) == "select"@,
        lower_seq("textarea"@) == "textarea"@,
        lower_seq("button"@) == "button"@,
        lower_seq("submit"@) == "submit"@,
        "form"@ != "input"@ && "form"@ != "select"@ && "form"@ != "textarea"@ && "form"@ != "button"@,
        "table"@ != "tr"@,
{
    reveal_strlit("form");
    reveal_strlit("table");
    reveal_strlit("tr");
    reveal_strlit("canvas");
    reveal_strlit("svg");
    reveal_strlit("video");
    reveal_strlit("audio");
    reveal_strlit("source");
    reveal_strlit("input");
    reveal_strlit("select");
    reveal_strlit("textarea");
    reveal_strlit("button");
    reveal_strlit("submit");
    assert(lower_seq("form"@) =~= "form"@);
    assert(lower_seq("table"@) =~= "table"@);
    assert(lower_seq("tr"@) =~= "tr"@);
    assert(lower_seq("canvas"@) =~= "canvas"@);
    assert(lower_seq("svg"@) =~= "svg"@);
    assert(lower_seq("video"@) =~= "video"@);
    assert(lower_seq("audio"@) =~= "audio"@);
    assert(lower_seq("source"@) =~= "source"@);
    assert(lower_seq("input"@) =~= "input"@);
    assert(lower_seq("select"@) =~= "select"@);
    assert(lower_seq("textarea"@) =~= "textarea"@);
    assert(lower_seq("button"@) =~= "button"@);
    assert(lower_seq("submit"@) =~= "submit"@);
    assert("form"@.len() == 4);
    assert("table"@.len() == 5 && "tr"@.len() == 2);
}

/// The models record what the operations create: a form for every `form` that is created, a table for
/// every `table`, a chart for every `canvas` and `svg`, a player for every `video` and `audio`, in
/// whatever case, under the same variables and in the same order, and nothing else.
pub proof fn law_models_record_what_is_created(html: Seq<char>)
    ensures
        ({
            let es = site_elements(html);
            let ops = site_ops(html);
            &&& forms_in(es).map_values(|x: FormView| x.var) == created(
                ops,
                |t: Seq<char>| t == "form"@,
            )
            &&& tables_in(es).map_values(|x: TableView| x.var) == created(
                ops,
                |t: Seq<char>| t == "table"@,
            )
            &&& charts_in(es).map_values(|x: ChartView| x.var) == created(
                ops,
                |t: Seq<char>| t == "canvas"@ || t == "svg"@,
            )
            &&& players_in(es).map_values(|x: PlayerView| x.var) == created(
                ops,
                |t: Seq<char>| t == "video"@ || t == "audio"@,
            )
        }),
{
    lemma_recorded(site_elements(html));
    let f = document(html);
    reveal_strlit("span");
    reveal_strlit("form");
    reveal_strlit("table");
    reveal_strlit("canvas");
    reveal_strlit("svg");
    reveal_strlit("video");
    reveal_strlit("audio");
    assert("span"@[0] == 's');
    assert("form"@[0] == 'f');
    assert("svg"@.len() == 3 && "span"@.len() == 4);
    lemma_forest_created(f, false, None, 0, 0, |t: Seq<char>| t == "form"@);
    lemma_forest_created(f, false, None, 0, 0, |t: Seq<char>| t == "table"@);
    lemma_forest_created(f, false, None, 0, 0, |t: Seq<char>| t == "canvas"@ || t == "svg"@);
    lemma_forest_created(f, false, None, 0, 0, |t: Seq<char>| t == "video"@ || t == "audio"@);
}

/// Whether an attribute is the first of a name, in whatever case.
pub open spec fn first_at(attrs: Seq<Attr>, name: Seq<char>, i: int) -> bool {
    0 <= i < attrs.len() && lower_seq(attrs[i].0) == name && forall|j: int|
        0 <= j < i ==> lower_seq(#[trigger] attrs[j].0) != name
}

/// Whether an attribute is the last of a name, in whatever case.
pub open spec fn last_at(attrs: Seq<Attr>, name: Seq<char>, i: int) -> bool {
    0 <= i < attrs.len() && lower_seq(attrs[i].0) == name && forall|j: int|
        i < j < attrs.len() ==> lower_seq(#[trigger] attrs[j].0) != name
}

/// The value of the first attribute of a name.
pub open spec fn first_value(attrs: Seq<Attr>, name: Seq<char>) -> Option<Seq<char>> {
    if exists|i: int| first_at(attrs, name, i) {
        Some(attrs[choose|i: int| first_at(attrs, name, i)].1)
    } else {
        None
    }
}

/// The value of the last attribute of a name.
pub open spec fn last_value(attrs: Seq<Attr>, name: Seq<char>) -> Option<Seq<char>> {
    if exists|i: int| last_at(attrs, name, i) {
        Some(attrs[choose|i: int| last_at(attrs, name, i)].1)
    } else {
        None
    }
}

/// Whether some attribute has a name, in whatever case.
pub open spec fn given(attrs: Seq<Attr>, name: Seq<char>) -> bool {
    exists|i: int| 0 <= i < attrs.len() && lower_seq(#[trigger] attrs[i].0) == name
}

#[verifier::rlimit(40)]
proof fn lemma_first_attr(attrs: Seq<Attr>, name: Seq<char>)
    requires
        lower_seq(name) == name,
    ensures
        first_attr(attrs, name) == first_value(attrs, name),
        first_attr(attrs, name) is Some <==> given(attrs, name),
        first_attr(attrs, name) is Some ==> exists|i: int|
            first_at(attrs, name, i) && first_attr(attrs, name) == Some(attrs[i].1),
    decreases attrs.len(),
{
    if attrs.len() > 0 {
        let front = attrs.drop_last();
        let n = attrs.len() - 1;
        lemma_first_attr(front, name);
        assert forall|j: int| 0 <= j < n implies #[trigger] attrs[j] == front[j] by {}
        if first_attr(front, name) is Some {
            let i = choose|i: int|
                first_at(front, name, i) && first_attr(front, name) == Some(front[i].1);
            assert(first_at(attrs, name, i));
        } else {
            assert forall|j: int| 0 <= j < n implies lower_seq(#[trigger] attrs[j].0) != name by {
                assert(attrs[j] == front[j]);
                assert(!given(front, name));
                assert(lower_seq(front[j].0) != name);
            }
            if lower_seq(attrs.last().0) == name {
                assert(first_at(attrs, name, n));
            } else {
                assert(!given(attrs, name));
            }
        }
        if exists|i: int| first_at(attrs, name, i) {
            let k = choose|i: int| first_at(attrs, name, i);
            assert(lower_seq(attrs[k].0) == name);
            assert(given(attrs, name));
            assert forall|a: int, b: int|
                first_at(attrs, name, a) && first_at(attrs, name, b) implies a == b by {
                if a < b {
                    assert(lower_seq(attrs[a].0) != name);
                }
                if b < a {
                    assert(lower_seq(attrs[b].0) != name);
                }
            }
        }
    }
}

#[verifier::rlimit(40)]
proof fn lemma_last_attr(attrs: Seq<Attr>, name: Seq<char>)
    requires
        lower_seq(name) == name,
    ensures
        last_attr(attrs, name) == last_value(attrs, name),
        last_attr(attrs, name) is Some <==> given(attrs, name),
        last_attr(attrs, name) is Some ==> exists|i: int|
            last_at(attrs, name, i) && last_attr(attrs, name) == Some(attrs[i].1),
    decreases attrs.len(),
{
    if attrs.len() > 0 {
        let front = attrs.drop_last();
        let n = attrs.len() - 1;
        lemma_last_attr(front, name);
        assert forall|j: int| 0 <= j < n implies #[trigger] attrs[j] == front[j] by {}
        if lower_seq(attrs.last().0) == name {
            assert(last_at(attrs, name, n));
        } else if last_attr(front, name) is Some {
            let i = choose|i: int|
                last_at(front, name, i) && last_attr(front, name) == Some(front[i].1);
            assert(last_at(attrs, name, i)) by {
                assert forall|j: int| i < j < attrs.len() implies lower_seq(#[trigger] attrs[j].0)
                    != name by {
                    if j < n {
                        assert(attrs[j] == front[j]);
                    }
                }
            }
        } else {
            assert forall|j: int| 0 <= j < attrs.len() implies lower_seq(#[trigger] attrs[j].0)
                != name by {
                if j < n {
                    assert(attrs[j] == front[j]);
                    assert(lower_seq(front[j].0) != name);
                }
            }
            assert(!given(attrs, name));
        }
        if exists|i: int| last_at(attrs, name, i) {
            let k = choose|i: int| last_at(attrs, name, i);
            assert(lower_seq(attrs[k].0) == name);
            assert(given(attrs, name));
            assert forall|a: int, b: int|
                last_at(attrs, name, a) && last_at(attrs, name, b) implies a == b by {
                if a < b {
                    assert(lower_seq(attrs[b].0) != name);
                }
                if b < a {
                    assert(lower_seq(attrs[a].0) != name);
                }
            }
        }
    }
}

/// A player knows what its element says: its first `src`, whether it has controls, plays by itself
/// and starts over, and its alternate streams: the `source` children with a `src`, in order, each
/// with its first `src` and its first `type`.
pub proof fn law_players(c: nat, tag: Seq<char>, attrs: Seq<Attr>, children: Seq<Tree>)
    requires
        lower_seq(tag) == "video"@ || lower_seq(tag) == "audio"@,
    ensures
        players_at((c, Tree::Element { tag, attrs, children })) == seq![
            PlayerView {
                var: "el"@ + dec(c),
                kind: tag,
                src: first_value(attrs, "src"@),
                has_controls: given(attrs, "controls"@),
                autoplay: given(attrs, "autoplay"@),
                loop_playback: given(attrs, "loop"@),
                sources: children.filter(|t: Tree| streams(t)).map_values(|t: Tree| stream(t)),
            },
        ],
{
    lemma_small_tags();
    lemma_attr_names();
    lemma_first_attr(attrs, "src"@);
    lemma_first_attr(attrs, "controls"@);
    lemma_first_attr(attrs, "autoplay"@);
    lemma_first_attr(attrs, "loop"@);
    lemma_sources(children);
}

/// Whether a node is an alternate stream: a `source` with a `src`.
pub open spec fn streams(t: Tree) -> bool {
    t matches Tree::Element { tag, attrs, .. } && lower_seq(tag) == "source"@ && given(attrs, "src"@)
}

/// The stream that a node is.
pub open spec fn stream(t: Tree) -> SourceView {
    SourceView {
        media_type: first_value(t->attrs, "type"@),
        src: first_value(t->attrs, "src"@)->0,
    }
}

proof fn lemma_sources(children: Seq<Tree>)
    ensures
        sources_of(children) == children.filter(|t: Tree| streams(t)).map_values(
            |t: Tree| stream(t),
        ),
    decreases children.len(),
{
    reveal(Seq::filter);
    if children.len() > 0 {
        lemma_sources(children.drop_last());
        lemma_small_tags();
        lemma_attr_names();
        if let Tree::Element { tag, attrs, .. } = children.last() {
            lemma_first_attr(attrs, "src"@);
            lemma_first_attr(attrs, "type"@);
        }
    }
    assert(sources_of(children) =~= children.filter(|t: Tree| streams(t)).map_values(
        |t: Tree| stream(t),
    ));
}

proof fn lemma_attr_names()
    ensures
        lower_seq("src"@) == "src"@,
        lower_seq("controls"@) == "controls"@,
        lower_seq("autoplay"@) == "autoplay"@,
        lower_seq("loop"@) == "loop"@,
        lower_seq("type"@) == "type"@,
        lower_seq("name"@) == "name"@,
        lower_seq("id"@) == "id"@,
        lower_seq("width"@) == "width"@,
        lower_seq("height"@) == "height"@,
        lower_seq("onsubmit"@) == "onsubmit"@,
{
    reveal_strlit("src");
    reveal_strlit("controls");
    reveal_strlit("autoplay");
    reveal_strlit("loop");
    reveal_strlit("type");
    reveal_strlit("name");
    reveal_strlit("id");
    reveal_strlit("width");
    reveal_strlit("height");
    reveal_strlit("onsubmit");
    assert(lower_seq("src"@) =~= "src"@);
    assert(lower_seq("controls"@) =~= "controls"@);
    assert(lower_seq("autoplay"@) =~= "autoplay"@);
    assert(lower_seq("loop"@) =~= "loop"@);
    assert(lower_seq("type"@) =~= "type"@);
    assert(lower_seq("name"@) =~= "name"@);
    assert(lower_seq("id"@) =~= "id"@);
    assert(lower_seq("width"@) =~= "width"@);
    assert(lower_seq("height"@) =~= "height"@);
    assert(lower_seq("onsubmit"@) =~= "onsubmit"@);
}

/// Whether an attribute carries data.
pub open spec fn carries_data(a: Attr) -> bool {
    a.0.len() >= 5 && lower_seq(a.0).take(5) == "data-"@
}

/// A chart knows what its element says: its tag, its first `id`, and its `data-` attributes in order.
pub proof fn law_charts(c: nat, tag: Seq<char>, attrs: Seq<Attr>, children: Seq<Tree>)
    requires
        lower_seq(tag) == "canvas"@ || lower_seq(tag) == "svg"@,
    ensures
        charts_at((c, Tree::Element { tag, attrs, children })).len() == 1,
        ({
            let chart = charts_at((c, Tree::Element { tag, attrs, children }))[0];
            &&& chart.var == "el"@ + dec(c)
            &&& chart.tag == tag
            &&& chart.id == first_value(attrs, "id"@)
            &&& chart.series == attrs.filter(|a: Attr| carries_data(a))
        }),
{
    lemma_small_tags();
    lemma_attr_names();
    lemma_first_attr(attrs, "id"@);
    lemma_series(attrs);
}

proof fn lemma_series(attrs: Seq<Attr>)
    ensures
        series_of(attrs) == attrs.filter(|a: Attr| carries_data(a)),
    decreases attrs.len(),
{
    reveal(Seq::filter);
    reveal_strlit("data-");
    if attrs.len() > 0 {
        lemma_series(attrs.drop_last());
        let n = lower_seq(attrs.last().0);
        assert(n.len() == attrs.last().0.len());
        if n.len() >= 5 {
            assert(n.subrange(0, 5) =~= n.take(5));
        }
    }
    assert(series_of(attrs) =~= attrs.filter(|a: Attr| carries_data(a)));
}

/// A chart whose `width` and `height` are whole numbers has that size; without them it has none.
pub proof fn law_chart_sizes(
    c: nat,
    tag: Seq<char>,
    attrs: Seq<Attr>,
    children: Seq<Tree>,
    w: nat,
    h: nat,
)
    requires
        lower_seq(tag) == "canvas"@ || lower_seq(tag) == "svg"@,
        w <= usize::MAX,
        h <= usize::MAX,
    ensures
        ({
            let chart = charts_at((c, Tree::Element { tag, attrs, children }))[0];
            &&& first_value(attrs, "width"@) == Some(dec(w)) ==> chart.width == Some(w)
            &&& first_value(attrs, "height"@) == Some(dec(h)) ==> chart.height == Some(h)
            &&& !given(attrs, "width"@) ==> chart.width is None
            &&& !given(attrs, "height"@) ==> chart.height is None
        }),
{
    lemma_small_tags();
    lemma_attr_names();
    lemma_first_attr(attrs, "width"@);
    lemma_first_attr(attrs, "height"@);
    law_decimal_reads_back(w);
    law_decimal_reads_back(h);
    assert(is_digit(dec(w)[0]));
    assert(is_digit(dec(h)[0]));
}

/// The fields of a form are the inputs, selections and text areas among what it holds, each under
/// its own variable with its last `type`, a text without one, and its last `name`; what stands in a
/// form within it is not its own.
#[verifier::rlimit(40)]
pub proof fn law_fields(
    f: Seq<Tree>,
    media: bool,
    c: nat,
    tag: Seq<char>,
    attrs: Seq<Attr>,
    children: Seq<Tree>,
)
    requires
        lower_seq(tag) != "source"@,
    ensures
        ({
            let t = Tree::Element { tag, attrs, children };
            let l = lower_seq(tag);
            let place = c + crate::migrate::site_model::forest_vars(f, media);
            let before = forest_fields(f, media, c);
            let all = forest_fields(f.push(t), media, c);
            let inside = forest_fields(children, l == "video"@ || l == "audio"@, place + 1);
            let own = FieldView {
                var: "el"@ + dec(place),
                input_type: match last_value(attrs, "type"@) {
                    Some(k) => k,
                    None => "text"@,
                },
                name: last_value(attrs, "name"@),
            };
            &&& l == "form"@ ==> all == before
            &&& l == "input"@ || l == "select"@ || l == "textarea"@ ==> all == before + (seq![own]
                + inside)
            &&& l != "form"@ && l != "input"@ && l != "select"@ && l != "textarea"@ ==> all == before
                + inside
        }),
{
    let t = Tree::Element { tag, attrs, children };
    lemma_small_tags();
    lemma_attr_names();
    lemma_last_attr(attrs, "type"@);
    lemma_last_attr(attrs, "name"@);
    assert(f.push(t).drop_last() =~= f);
    assert(f.push(t).last() == t);
    let place = c + crate::migrate::site_model::forest_vars(f, media);
    let inside = forest_fields(children, media_tag(tag), place + 1);
    let before = forest_fields(f, media, c);
    assert(before + Seq::<FieldView>::empty() =~= before);
    assert(Seq::<FieldView>::empty() + inside =~= inside);
    assert(forest_fields(f.push(t), media, c) == before + node_fields(t, media, place));
    assert(!folded(t));
    assert(node_fields(t, media, place) == (if lower_seq(tag) == "form"@ {
        Seq::empty()
    } else {
        (if field_tag(tag) {
            seq![field_view(place, attrs)]
        } else {
            Seq::empty()
        }) + inside
    }));
}

/// A form is under its own variable, has the fields of what it holds, and can be submitted where it
/// says so itself or holds a button of type `submit` that is not in a form within it.
pub proof fn law_forms(
    c: nat,
    tag: Seq<char>,
    attrs: Seq<Attr>,
    children: Seq<Tree>,
    inner: Seq<char>,
    marks: Seq<Attr>,
    below: Seq<Tree>,
)
    ensures
        lower_seq(tag) == "form"@ ==> forms_at((c, Tree::Element { tag, attrs, children })) == seq![
            FormView {
                var: "el"@ + dec(c),
                fields: forest_fields(children, false, c + 1),
                has_submit: given(attrs, "onsubmit"@) || forest_submits(children),
            },
        ],
        !forest_submits(Seq::empty()),
        ({
            let t = Tree::Element { tag: inner, attrs: marks, children: below };
            let l = lower_seq(inner);
            forest_submits(children.push(t)) <==> forest_submits(children) || (l != "form"@ && (
            forest_submits(below) || (l == "button"@ && exists|i: int|
                0 <= i < marks.len() && lower_seq(#[trigger] marks[i].0) == "type"@ && lower_seq(
                    marks[i].1,
                ) == "submit"@)))
        }),
{
    lemma_small_tags();
    lemma_attr_names();
    lemma_first_attr(attrs, "onsubmit"@);
    let t = Tree::Element { tag: inner, attrs: marks, children: below };
    assert(children.push(t).drop_last() =~= children);
    assert(children.push(t).last() == t);
    reveal_strlit("form");
    reveal_strlit("video");
    reveal_strlit("audio");
    assert("form"@.len() == 4 && "video"@.len() == 5 && "audio"@.len() == 5);
    if has_pair(marks, "type"@, "submit"@) {
        let i = choose|i: int|
            0 <= i < marks.len() && same_ignoring_case(#[trigger] marks[i].0, "type"@)
                && same_ignoring_case(marks[i].1, "submit"@);
        assert(lower_seq(marks[i].0) == "type"@);
    }
    assert(forest_submits(children.push(t)) == (forest_submits(children) || node_submits(t)));
}

/// A table counts the rows that it holds, but for those of tables within it.
pub proof fn law_rows(
    c: nat,
    tag: Seq<char>,
    attrs: Seq<Attr>,
    children: Seq<Tree>,
    inner: Seq<char>,
    marks: Seq<Attr>,
    below: Seq<Tree>,
)
    ensures
        lower_seq(tag) == "table"@ ==> tables_at((c, Tree::Element { tag, attrs, children })) == seq![
            TableView { var: "el"@ + dec(c), row_count: forest_rows(children) },
        ],
        forest_rows(Seq::empty()) == 0,
        ({
            let t = Tree::Element { tag: inner, attrs: marks, children: below };
            let l = lower_seq(inner);
            let all = forest_rows(children.push(t));
            &&& l == "table"@ ==> all == forest_rows(children)
            &&& l == "tr"@ ==> all == forest_rows(children) + 1 + forest_rows(below)
            &&& l != "table"@ && l != "tr"@ ==> all == forest_rows(children) + forest_rows(below)
        }),
{
    lemma_small_tags();
    let t = Tree::Element { tag: inner, attrs: marks, children: below };
    assert(children.push(t).drop_last() =~= children);
    assert(children.push(t).last() == t);
    assert(forest_rows(children.push(t)) == forest_rows(children) + node_rows(t));
}

/// What a string literal holds whose text starts at a position, up to the quote that ends it: a
/// backslash stands for the character behind it. With it, where that quote stands.
pub open spec fn literal_text(s: Seq<char>, i: int) -> (Seq<char>, int)
    decreases s.len() - i,
{
    if i < 0 || i >= s.len() || s[i] == '"' {
        (Seq::empty(), i)
    } else if s[i] == '\\' && i + 1 < s.len() {
        let r = literal_text(s, i + 2);
        (seq![s[i + 1]] + r.0, r.1)
    } else {
        let r = literal_text(s, i + 1);
        (seq![s[i]] + r.0, r.1)
    }
}

proof fn lemma_literal(p: Seq<char>, s: Seq<char>, rest: Seq<char>)
    requires
        rest.len() > 0,
        rest[0] == '"',
    ensures
        literal_text(p + escaped(s) + rest, p.len() as int) == (
            s,
            (p.len() + escaped(s).len()) as int,
        ),
    decreases s.len(),
{
    let t = p + escaped(s) + rest;
    if s.len() == 0 {
        assert(t[p.len() as int] == rest[0]);
        assert(s =~= Seq::<char>::empty());
    } else {
        lemma_escaped_front(s);
        let c = s[0];
        let tail = s.skip(1);
        if c == '\\' || c == '"' {
            let q = p + seq!['\\', c];
            assert(t =~= q + escaped(tail) + rest);
            assert(t[p.len() as int] == '\\');
            assert(t[p.len() as int + 1] == c);
            lemma_literal(q, tail, rest);
        } else {
            let q = p.push(c);
            assert(t =~= q + escaped(tail) + rest);
            assert(t[p.len() as int] == c);
            lemma_literal(q, tail, rest);
        }
        assert(seq![c] + tail =~= s);
    }
}

proof fn lemma_escaped_front(s: Seq<char>)
    requires
        s.len() > 0,
    ensures
        escaped(s) == (if s[0] == '\\' || s[0] == '"' {
            seq!['\\', s[0]]
        } else {
            seq![s[0]]
        }) + escaped(s.skip(1)),
    decreases s.len(),
{
    let e = Seq::<char>::empty();
    let f = s.drop_last();
    assert(escaped(e) == e);
    if s.len() == 1 {
        assert(f =~= e);
        assert(s.skip(1) =~= e);
        assert(s.last() == s[0]);
    } else {
        lemma_escaped_front(f);
        assert(f.skip(1) =~= s.skip(1).drop_last());
        assert(s.skip(1).last() == s.last());
        assert(f[0] == s[0]);
    }
    assert(escaped(s) =~= (if s[0] == '\\' || s[0] == '"' {
        seq!['\\', s[0]]
    } else {
        seq![s[0]]
    }) + escaped(s.skip(1)));
}

/// A text that is written into a string literal reads back as itself, and the literal ends where it
/// should.
pub proof fn law_literals_read_back(s: Seq<char>, rest: Seq<char>)
    ensures
        literal_text(escaped(s) + seq!['"'] + rest, 0) == (s, escaped(s).len() as int),
{
    let e = Seq::<char>::empty();
    lemma_literal(e, s, seq!['"'] + rest);
    assert(e + escaped(s) + (seq!['"'] + rest) =~= escaped(s) + seq!['"'] + rest);
}

/// The guest binds a handler with the function that is named like the attribute: `onclick` by
/// `on_click`, and so on.
pub proof fn law_handlers_are_bound_by_name(name: Seq<char>, kind: HandlerKind)
    requires
        handler_kind(name) == Some(kind),
    ensures
        handler_call(kind) == "    dom::on_"@ + lower_seq(name).skip(2) + "("@,
        lower_seq(name).take(2) == "on"@,
{
    let n = lower_seq(name);
    reveal_strlit("    dom::on_");
    reveal_strlit("(");
    reveal_strlit("on");
    reveal_strlit("onclick");
    reveal_strlit("onsubmit");
    reveal_strlit("onchange");
    reveal_strlit("oninput");
    reveal_strlit("onplay");
    reveal_strlit("onpause");
    reveal_strlit("onended");
    reveal_strlit("    dom::on_click(");
    reveal_strlit("    dom::on_submit(");
    reveal_strlit("    dom::on_change(");
    reveal_strlit("    dom::on_input(");
    reveal_strlit("    dom::on_play(");
    reveal_strlit("    dom::on_pause(");
    reveal_strlit("    dom::on_ended(");
    assert(handler_call(kind) =~= "    dom::on_"@ + n.skip(2) + "("@);
    assert(n.take(2) =~= "on"@);
}

/// A line of guest source that creates an element gives the variable and, as a literal, the tag.
pub proof fn law_created_lines(var: Seq<char>, tag: Seq<char>)
    ensures
        ({
            let line = op_line(OpView::Create { var, tag });
            let head = "    let "@ + var + " = dom::create_element(&\""@;
            let end = literal_text(line, head.len() as int).1;
            &&& line.take(head.len() as int) == head
            &&& literal_text(line, head.len() as int).0 == tag
            &&& line.skip(end) == "\");\n"@
        }),
{
    let line = op_line(OpView::Create { var, tag });
    let head = "    let "@ + var + " = dom::create_element(&\""@;
    reveal_strlit("\");\n");
    lemma_quoted_line(head, tag, "\");\n"@);
    assert(line =~= head + escaped(tag) + "\");\n"@);
}

/// A line of guest source that sets a text gives the variable and, as a literal, the text.
pub proof fn law_text_lines(var: Seq<char>, text: Seq<char>)
    ensures
        ({
            let line = op_line(OpView::Text { var, text });
            let head = "    dom::set_text("@ + var + ", &\""@;
            let end = literal_text(line, head.len() as int).1;
            &&& line.take(head.len() as int) == head
            &&& literal_text(line, head.len() as int).0 == text
            &&& line.skip(end) == "\");\n"@
        }),
{
    let line = op_line(OpView::Text { var, text });
    let head = "    dom::set_text("@ + var + ", &\""@;
    reveal_strlit("\");\n");
    lemma_quoted_line(head, text, "\");\n"@);
    assert(line =~= head + escaped(text) + "\");\n"@);
}

/// A line of guest source that sets an attribute gives the variable and, as literals, first the name
/// and then the value.
#[verifier::rlimit(50)]
pub proof fn law_attribute_lines(var: Seq<char>, name: Seq<char>, value: Seq<char>)
    ensures
        ({
            let line = op_line(OpView::Attr { var, name, value });
            let head = "    dom::set_attribute("@ + var + ", &\""@;
            let mid = "\", &\""@;
            let first = literal_text(line, head.len() as int);
            let next = (first.1 + mid.len()) as int;
            let second = literal_text(line, next);
            &&& line.take(head.len() as int) == head
            &&& first.0 == name
            &&& line.subrange(first.1, next) == mid
            &&& second.0 == value
            &&& line.skip(second.1) == "\");\n"@
        }),
{
    let line = op_line(OpView::Attr { var, name, value });
    let head = "    dom::set_attribute("@ + var + ", &\""@;
    let mid = "\", &\""@;
    let tail = "\");\n"@;
    reveal_strlit("\", &\"");
    reveal_strlit("\");\n");
    lemma_quoted_line(head, name, mid + escaped(value) + tail);
    assert(line =~= head + escaped(name) + (mid + escaped(value) + tail));
    lemma_quoted_line(head + escaped(name) + mid, value, tail);
    assert(line =~= (head + escaped(name) + mid) + escaped(value) + tail);
    let at = (head.len() + escaped(name).len()) as int;
    assert(line.subrange(at, (at + mid.len()) as int) =~= mid);
}

/// A line of guest source that appends an element gives the parent before the child; one that binds
/// a handler gives the variable before the handler's number.
pub proof fn law_plain_lines(a: Seq<char>, b: Seq<char>, kind: HandlerKind, n: nat)
    ensures
        op_line(OpView::Append { parent: a, child: b }) == "    dom::append_child("@ + a + ", "@ + b
            + ");\n"@,
        op_line(OpView::On { kind, var: a, handler: n }) == handler_call(kind) + a + ", "@ + dec(n)
            + ");\n"@,
{
}

proof fn lemma_quoted_line(head: Seq<char>, text: Seq<char>, tail: Seq<char>)
    requires
        tail.len() > 0,
        tail[0] == '"',
    ensures
        ({
            let line = head + escaped(text) + tail;
            &&& line.take(head.len() as int) == head
            &&& literal_text(line, head.len() as int) == (
                text,
                (head.len() + escaped(text).len()) as int,
            )
            &&& line.skip((head.len() + escaped(text).len()) as int) == tail
        }),
{
    let line = head + escaped(text) + tail;
    lemma_literal(head, text, tail);
    assert(line.take(head.len() as int) =~= head);
    assert(line.skip((head.len() + escaped(text).len()) as int) =~= tail);
}

/// The lines of guest source follow the operations, in order and each once: the lines of two lists
/// one after the other are those of both, and no operation gives no line.
pub proof fn law_lines_follow_operations(a: Seq<OpView>, b: Seq<OpView>)
    ensures
        op_lines(a + b) == op_lines(a) + op_lines(b),
        op_lines(Seq::empty()).len() == 0,
        forall|op: OpView| #[trigger] op_lines(a.push(op)) == op_lines(a) + op_line(op),
    decreases b.len(),
{
    if b.len() == 0 {
        assert(a + b =~= a);
        assert(op_lines(a) + op_lines(b) =~= op_lines(a));
    } else {
        law_lines_follow_operations(a, b.drop_last());
        assert((a + b).drop_last() =~= a + b.drop_last());
        assert(op_lines(a + b) =~= op_lines(a) + op_lines(b));
    }
    assert forall|op: OpView| #[trigger] op_lines(a.push(op)) == op_lines(a) + op_line(op) by {
        assert(a.push(op).drop_last() =~= a);
    }
}

} // verus!
