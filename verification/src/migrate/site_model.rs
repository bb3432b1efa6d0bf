//! What a document means to the transpiler: the operations that rebuild it, and the forms, tables,
//! charts and players that it declares.
use crate::migrate::html_tree::{forest_weight, tree_weight, Attr, Tree};
use crate::strings::{dec, lower_seq, occurs, same_ignoring_case, unsigned_value};
use vstd::prelude::*;

verus! {

/// An event that an attribute binds a handler to.
#[derive(Clone, Copy, Debug, PartialEq, Eq)]
pub enum HandlerKind {
    Click,
    Submit,
    Change,
    Input,
    Play,
    Pause,
    Ended,
}

/// The mathematical form of a DOM operation.
pub enum OpView {
    Create { var: Seq<char>, tag: Seq<char> },
    Text { var: Seq<char>, text: Seq<char> },
    Attr { var: Seq<char>, name: Seq<char>, value: Seq<char> },
    Append { parent: Seq<char>, child: Seq<char> },
    On { kind: HandlerKind, var: Seq<char>, handler: nat },
}

/// A form field: its variable, its type and its binding name.
pub struct FieldView {
    pub var: Seq<char>,
    pub input_type: Seq<char>,
    pub name: Option<Seq<char>>,
}

/// A form: its variable, its fields in document order, and whether it can be submitted.
pub struct FormView {
    pub var: Seq<char>,
    pub fields: Seq<FieldView>,
    pub has_submit: bool,
}

/// A table: its variable and how many rows it has.
pub struct TableView {
    pub var: Seq<char>,
    pub row_count: nat,
}

/// A chart: its variable, its tag, its mount point, its size and its series.
pub struct ChartView {
    pub var: Seq<char>,
    pub tag: Seq<char>,
    pub id: Option<Seq<char>>,
    pub width: Option<nat>,
    pub height: Option<nat>,
    pub series: Seq<Attr>,
}

/// An alternate stream of a player.
pub struct SourceView {
    pub media_type: Option<Seq<char>>,
    pub src: Seq<char>,
}

/// A media player.
pub struct PlayerView {
    pub var: Seq<char>,
    pub kind: Seq<char>,
    pub src: Option<Seq<char>>,
    pub has_controls: bool,
    pub autoplay: bool,
    pub loop_playback: bool,
    pub sources: Seq<SourceView>,
}

/// The variable that the element numbered `n` is bound to.
pub open spec fn var_name(n: nat) -> Seq<char> {
    "el"@ + dec(n)
}

/// Whether a tag is the one named, setting case aside.
pub open spec fn is_tag(tag: Seq<char>, name: Seq<char>) -> bool {
    same_ignoring_case(tag, name)
}

/// Elements whose `source` children are alternate streams.
pub open spec fn media_tag(tag: Seq<char>) -> bool {
    is_tag(tag, "video"@) || is_tag(tag, "audio"@)
}

/// Elements that a chart is drawn in.
pub open spec fn chart_tag(tag: Seq<char>) -> bool {
    is_tag(tag, "canvas"@) || is_tag(tag, "svg"@)
}

/// Elements that are form fields.
pub open spec fn field_tag(tag: Seq<char>) -> bool {
    is_tag(tag, "input"@) || is_tag(tag, "select"@) || is_tag(tag, "textarea"@)
}

/// The event that an attribute binds a handler to, if it does.
pub open spec fn handler_kind(name: Seq<char>) -> Option<HandlerKind> {
    let n = lower_seq(name);
    if n == "onclick"@ {
        Some(HandlerKind::Click)
    } else if n == "onsubmit"@ {
        Some(HandlerKind::Submit)
    } else if n == "onchange"@ {
        Some(HandlerKind::Change)
    } else if n == "oninput"@ {
        Some(HandlerKind::Input)
    } else if n == "onplay"@ {
        Some(HandlerKind::Play)
    } else if n == "onpause"@ {
        Some(HandlerKind::Pause)
    } else if n == "onended"@ {
        Some(HandlerKind::Ended)
    } else {
        None
    }
}

/// The value of the first attribute of that name.
pub open spec fn first_attr(attrs: Seq<Attr>, name: Seq<char>) -> Option<Seq<char>>
    decreases attrs.len(),
{
    if attrs.len() == 0 {
        None
    } else if first_attr(attrs.drop_last(), name) is Some {
        first_attr(attrs.drop_last(), name)
    } else if same_ignoring_case(attrs.last().0, name) {
        Some(attrs.last().1)
    } else {
        None
    }
}

/// The value of the last attribute of that name.
pub open spec fn last_attr(attrs: Seq<Attr>, name: Seq<char>) -> Option<Seq<char>>
    decreases attrs.len(),
{
    if attrs.len() == 0 {
        None
    } else if same_ignoring_case(attrs.last().0, name) {
        Some(attrs.last().1)
    } else {
        last_attr(attrs.drop_last(), name)
    }
}

/// Whether some attribute has that name and that value, setting case aside.
pub open spec fn has_pair(attrs: Seq<Attr>, name: Seq<char>, value: Seq<char>) -> bool {
    exists|i: int|
        0 <= i < attrs.len() && same_ignoring_case(#[trigger] attrs[i].0, name)
            && same_ignoring_case(attrs[i].1, value)
}

/// The `data-*` attributes, in order.
pub open spec fn series_of(attrs: Seq<Attr>) -> Seq<Attr>
    decreases attrs.len(),
{
    if attrs.len() == 0 {
        Seq::empty()
    } else if occurs(lower_seq(attrs.last().0), "data-"@, 0) {
        series_of(attrs.drop_last()).push(attrs.last())
    } else {
        series_of(attrs.drop_last())
    }
}

/// The number that an attribute value denotes.
pub open spec fn pixels(value: Option<Seq<char>>) -> Option<nat> {
    match value {
        Some(v) => unsigned_value(v, usize::MAX as nat),
        None => None,
    }
}

/// How many attributes bind a handler.
pub open spec fn handler_count(attrs: Seq<Attr>) -> nat
    decreases attrs.len(),
{
    if attrs.len() == 0 {
        0
    } else {
        handler_count(attrs.drop_last()) + if handler_kind(attrs.last().0) is Some {
            1nat
        } else {
            0
        }
    }
}

/// The operations of the attributes of element `c`, handlers numbered from `h` on.
pub open spec fn attr_ops(attrs: Seq<Attr>, c: nat, h: nat) -> Seq<OpView>
    decreases attrs.len(),
{
    if attrs.len() == 0 {
        Seq::empty()
    } else {
        let front = attrs.drop_last();
        let a = attrs.last();
        attr_ops(front, c, h).push(
            match handler_kind(a.0) {
                Some(kind) => OpView::On { kind, var: var_name(c), handler: h + handler_count(front) },
                None => OpView::Attr { var: var_name(c), name: a.0, value: a.1 },
            },
        )
    }
}

/// A `source` element without content: inside a player it is folded into the player's model.
pub open spec fn folded(t: Tree) -> bool {
    t matches Tree::Element { tag, children, .. } && is_tag(tag, "source"@) && children.len() == 0
}

/// Whether the content is one text run and nothing else.
pub open spec fn text_leaf(children: Seq<Tree>) -> bool {
    children.len() == 1 && children[0] is Text
}

/// How many variables a node takes.
pub open spec fn node_vars(t: Tree, media: bool) -> nat
    decreases t,
{
    match t {
        Tree::Text(_) => 1,
        Tree::Element { tag, attrs, children } => if media && folded(t) {
            0
        } else if text_leaf(children) {
            1
        } else {
            1 + forest_vars(children, media_tag(tag))
        },
    }
}

/// How many variables a forest takes; in a player, folded nodes take none.
pub open spec fn forest_vars(f: Seq<Tree>, media: bool) -> nat
    decreases f,
{
    if f.len() == 0 {
        0
    } else {
        forest_vars(f.drop_last(), media) + node_vars(f.last(), media)
    }
}

/// How many handlers a node binds.
pub open spec fn node_handlers(t: Tree, media: bool) -> nat
    decreases t,
{
    match t {
        Tree::Text(_) => 0,
        Tree::Element { tag, attrs, children } => if media && folded(t) {
            0
        } else {
            handler_count(attrs) + forest_handlers(children, media_tag(tag))
        },
    }
}

/// How many handlers a forest binds.
pub open spec fn forest_handlers(f: Seq<Tree>, media: bool) -> nat
    decreases f,
{
    if f.len() == 0 {
        0
    } else {
        forest_handlers(f.drop_last(), media) + node_handlers(f.last(), media)
    }
}

/// What hangs element `child` below `parent`.
pub open spec fn append_op(parent: Option<nat>, child: nat) -> Seq<OpView> {
    match parent {
        Some(p) => seq![OpView::Append { parent: var_name(p), child: var_name(child) }],
        None => Seq::empty(),
    }
}

/// The operations that rebuild a node below `parent`, variables numbered from `c` on and handlers
/// from `h` on. A text run that shares its parent is carried by a `span`.
pub open spec fn node_ops(t: Tree, media: bool, parent: Option<nat>, c: nat, h: nat) -> Seq<OpView>
    decreases t,
{
    match t {
        Tree::Text(text) => seq![
            OpView::Create { var: var_name(c), tag: "span"@ },
            OpView::Text { var: var_name(c), text },
        ] + append_op(parent, c),
        Tree::Element { tag, attrs, children } => if media && folded(t) {
            Seq::empty()
        } else {
            seq![OpView::Create { var: var_name(c), tag }] + attr_ops(attrs, c, h) + (if text_leaf(
                children,
            ) {
                seq![OpView::Text { var: var_name(c), text: children[0]->Text_0 }]
            } else {
                forest_ops(children, media_tag(tag), Some(c), c + 1, h + handler_count(attrs))
            }) + append_op(parent, c)
        },
    }
}

/// The operations that rebuild a forest, in document order.
pub open spec fn forest_ops(
    f: Seq<Tree>,
    media: bool,
    parent: Option<nat>,
    c: nat,
    h: nat,
) -> Seq<OpView>
    decreases f,
{
    if f.len() == 0 {
        Seq::empty()
    } else {
        let front = f.drop_last();
        forest_ops(front, media, parent, c, h) + node_ops(
            f.last(),
            media,
            parent,
            c + forest_vars(front, media),
            h + forest_handlers(front, media),
        )
    }
}

/// The elements of a node in document order, each with its variable's number.
pub open spec fn node_elements(t: Tree, media: bool, c: nat) -> Seq<(nat, Tree)>
    decreases t,
{
    match t {
        Tree::Text(_) => Seq::empty(),
        Tree::Element { tag, attrs, children } => if media && folded(t) {
            Seq::empty()
        } else {
            seq![(c, t)] + forest_elements(children, media_tag(tag), c + 1)
        },
    }
}

/// The elements of a forest in document order, each with its variable's number.
pub open spec fn forest_elements(f: Seq<Tree>, media: bool, c: nat) -> Seq<(nat, Tree)>
    decreases f,
{
    if f.len() == 0 {
        Seq::empty()
    } else {
        let front = f.drop_last();
        forest_elements(front, media, c) + node_elements(
            f.last(),
            media,
            c + forest_vars(front, media),
        )
    }
}

/// The field that an element is.
pub open spec fn field_view(c: nat, attrs: Seq<Attr>) -> FieldView {
    FieldView {
        var: var_name(c),
        input_type: match last_attr(attrs, "type"@) {
            Some(t) => t,
            None => "text"@,
        },
        name: last_attr(attrs, "name"@),
    }
}

/// The fields of a node that belong to the form around it.
pub open spec fn node_fields(t: Tree, media: bool, c: nat) -> Seq<FieldView>
    decreases t,
{
    match t {
        Tree::Text(_) => Seq::empty(),
        Tree::Element { tag, attrs, children } => if media && folded(t) || is_tag(tag, "form"@) {
            Seq::empty()
        } else {
            (if field_tag(tag) {
                seq![field_view(c, attrs)]
            } else {
                Seq::empty()
            }) + forest_fields(children, media_tag(tag), c + 1)
        },
    }
}

/// The fields of a forest that belong to the form around it.
pub open spec fn forest_fields(f: Seq<Tree>, media: bool, c: nat) -> Seq<FieldView>
    decreases f,
{
    if f.len() == 0 {
        Seq::empty()
    } else {
        let front = f.drop_last();
        forest_fields(front, media, c) + node_fields(f.last(), media, c + forest_vars(front, media))
    }
}

/// Whether a node holds a submit button of the form around it.
pub open spec fn node_submits(t: Tree) -> bool
    decreases t,
{
    match t {
        Tree::Text(_) => false,
        Tree::Element { tag, attrs, children } => !is_tag(tag, "form"@) && (is_tag(tag, "button"@)
            && has_pair(attrs, "type"@, "submit"@) || forest_submits(children)),
    }
}

/// Whether a forest holds a submit button of the form around it.
pub open spec fn forest_submits(f: Seq<Tree>) -> bool
    decreases f,
{
    f.len() > 0 && (forest_submits(f.drop_last()) || node_submits(f.last()))
}

/// How many rows a node adds to the table around it.
pub open spec fn node_rows(t: Tree) -> nat
    decreases t,
{
    match t {
        Tree::Text(_) => 0,
        Tree::Element { tag, attrs, children } => if is_tag(tag, "table"@) {
            0
        } else {
            (if is_tag(tag, "tr"@) {
                1nat
            } else {
                0
            }) + forest_rows(children)
        },
    }
}

/// How many rows a forest adds to the table around it.
pub open spec fn forest_rows(f: Seq<Tree>) -> nat
    decreases f,
{
    if f.len() == 0 {
        0
    } else {
        forest_rows(f.drop_last()) + node_rows(f.last())
    }
}

/// The alternate streams among the children of a player: `source` elements that name a `src`.
pub open spec fn sources_of(children: Seq<Tree>) -> Seq<SourceView>
    decreases children.len(),
{
    if children.len() == 0 {
        Seq::empty()
    } else {
        let rest = sources_of(children.drop_last());
        match children.last() {
            Tree::Element { tag, attrs, .. } => if is_tag(tag, "source"@) && first_attr(
                attrs,
                "src"@,
            ) is Some {
                rest.push(
                    SourceView {
                        media_type: first_attr(attrs, "type"@),
                        src: first_attr(attrs, "src"@)->0,
                    },
                )
            } else {
                rest
            },
            Tree::Text(_) => rest,
        }
    }
}

/// The form that element `e` declares, if it does.
pub open spec fn forms_at(e: (nat, Tree)) -> Seq<FormView> {
    match e.1 {
        Tree::Element { tag, attrs, children } if is_tag(tag, "form"@) => seq![
            FormView {
                var: var_name(e.0),
                fields: forest_fields(children, media_tag(tag), e.0 + 1),
                has_submit: first_attr(attrs, "onsubmit"@) is Some || forest_submits(children),
            },
        ],
        _ => Seq::empty(),
    }
}

/// The table that element `e` declares, if it does.
pub open spec fn tables_at(e: (nat, Tree)) -> Seq<TableView> {
    match e.1 {
        Tree::Element { tag, attrs, children } if is_tag(tag, "table"@) => seq![
            TableView { var: var_name(e.0), row_count: forest_rows(children) },
        ],
        _ => Seq::empty(),
    }
}

/// The chart that element `e` declares, if it does.
pub open spec fn charts_at(e: (nat, Tree)) -> Seq<ChartView> {
    match e.1 {
        Tree::Element { tag, attrs, children } if chart_tag(tag) => seq![
            ChartView {
                var: var_name(e.0),
                tag,
                id: first_attr(attrs, "id"@),
                width: pixels(first_attr(attrs, "width"@)),
                height: pixels(first_attr(attrs, "height"@)),
                series: series_of(attrs),
            },
        ],
        _ => Seq::empty(),
    }
}

/// The player that element `e` declares, if it does.
pub open spec fn players_at(e: (nat, Tree)) -> Seq<PlayerView> {
    match e.1 {
        Tree::Element { tag, attrs, children } if media_tag(tag) => seq![
            PlayerView {
                var: var_name(e.0),
                kind: tag,
                src: first_attr(attrs, "src"@),
                has_controls: first_attr(attrs, "controls"@) is Some,
                autoplay: first_attr(attrs, "autoplay"@) is Some,
                loop_playback: first_attr(attrs, "loop"@) is Some,
                sources: sources_of(children),
            },
        ],
        _ => Seq::empty(),
    }
}

/// The forms that a run of elements declares.
pub open spec fn forms_in(es: Seq<(nat, Tree)>) -> Seq<FormView>
    decreases es.len(),
{
    if es.len() == 0 {
        Seq::empty()
    } else {
        forms_in(es.drop_last()) + forms_at(es.last())
    }
}

/// The tables that a run of elements declares.
pub open spec fn tables_in(es: Seq<(nat, Tree)>) -> Seq<TableView>
    decreases es.len(),
{
    if es.len() == 0 {
        Seq::empty()
    } else {
        tables_in(es.drop_last()) + tables_at(es.last())
    }
}

/// The charts that a run of elements declares.
pub open spec fn charts_in(es: Seq<(nat, Tree)>) -> Seq<ChartView>
    decreases es.len(),
{
    if es.len() == 0 {
        Seq::empty()
    } else {
        charts_in(es.drop_last()) + charts_at(es.last())
    }
}

/// The players that a run of elements declares.
pub open spec fn players_in(es: Seq<(nat, Tree)>) -> Seq<PlayerView>
    decreases es.len(),
{
    if es.len() == 0 {
        Seq::empty()
    } else {
        players_in(es.drop_last()) + players_at(es.last())
    }
}

/// What two runs of elements declare is what the one declares, then what the other does.
pub proof fn lemma_in_add(a: Seq<(nat, Tree)>, b: Seq<(nat, Tree)>)
    ensures
        forms_in(a + b) == forms_in(a) + forms_in(b),
        tables_in(a + b) == tables_in(a) + tables_in(b),
        charts_in(a + b) == charts_in(a) + charts_in(b),
        players_in(a + b) == players_in(a) + players_in(b),
    decreases b.len(),
{
    if b.len() == 0 {
        assert(a + b =~= a);
        assert(forms_in(a) + forms_in(b) =~= forms_in(a));
        assert(tables_in(a) + tables_in(b) =~= tables_in(a));
        assert(charts_in(a) + charts_in(b) =~= charts_in(a));
        assert(players_in(a) + players_in(b) =~= players_in(a));
    } else {
        lemma_in_add(a, b.drop_last());
        assert((a + b).drop_last() =~= a + b.drop_last());
        assert((a + b).last() == b.last());
        assert(forms_in(a + b) =~= forms_in(a) + forms_in(b));
        assert(tables_in(a + b) =~= tables_in(a) + tables_in(b));
        assert(charts_in(a + b) =~= charts_in(a) + charts_in(b));
        assert(players_in(a + b) =~= players_in(a) + players_in(b));
    }
}

/// What one element declares.
pub proof fn lemma_in_one(e: (nat, Tree))
    ensures
        forms_in(seq![e]) == forms_at(e),
        tables_in(seq![e]) == tables_at(e),
        charts_in(seq![e]) == charts_at(e),
        players_in(seq![e]) == players_at(e),
{
    let s = seq![e];
    let none = Seq::<(nat, Tree)>::empty();
    assert(s.drop_last() =~= none);
    assert(forms_in(none).len() == 0 && tables_in(none).len() == 0);
    assert(charts_in(none).len() == 0 && players_in(none).len() == 0);
    assert(forms_in(s) =~= forms_at(e));
    assert(tables_in(s) =~= tables_at(e));
    assert(charts_in(s) =~= charts_at(e));
    assert(players_in(s) =~= players_at(e));
}

/// The forms with the fields and the submit button of a nested forest given to form `i`.
pub open spec fn grown_forms(
    forms: Seq<FormView>,
    i: Option<usize>,
    fields: Seq<FieldView>,
    submit: bool,
) -> Seq<FormView> {
    match i {
        Some(i) => forms.update(
            i as int,
            FormView {
                var: forms[i as int].var,
                fields: forms[i as int].fields + fields,
                has_submit: forms[i as int].has_submit || submit,
            },
        ),
        None => forms,
    }
}

/// The tables with the rows of a nested forest given to table `i`.
pub open spec fn grown_tables(
    tables: Seq<TableView>,
    i: Option<usize>,
    rows: nat,
) -> Seq<TableView> {
    match i {
        Some(i) => tables.update(
            i as int,
            TableView {
                var: tables[i as int].var,
                row_count: tables[i as int].row_count + rows,
            },
        ),
        None => tables,
    }
}

/// Whether an index, where there is one, is below a length.
pub open spec fn index_in(i: Option<usize>, len: nat) -> bool {
    i matches Some(k) ==> k < len
}

/// Growing a form twice, with forms declared after it in between, is growing it once.
pub proof fn lemma_grown_forms(
    forms: Seq<FormView>,
    i: Option<usize>,
    f1: Seq<FieldView>,
    s1: bool,
    d1: Seq<FormView>,
    f2: Seq<FieldView>,
    s2: bool,
)
    requires
        index_in(i, forms.len()),
    ensures
        grown_forms(grown_forms(forms, i, f1, s1) + d1, i, f2, s2) == grown_forms(
            forms,
            i,
            f1 + f2,
            s1 || s2,
        ) + d1,
        grown_forms(forms, i, Seq::empty(), false) == forms,
{
    if let Some(k) = i {
        assert(forms[k as int].fields + f1 + f2 =~= forms[k as int].fields + (f1 + f2));
        assert(forms[k as int].fields + Seq::<FieldView>::empty() =~= forms[k as int].fields);
    }
    assert(grown_forms(grown_forms(forms, i, f1, s1) + d1, i, f2, s2) =~= grown_forms(
        forms,
        i,
        f1 + f2,
        s1 || s2,
    ) + d1);
    assert(grown_forms(forms, i, Seq::empty(), false) =~= forms);
}

/// Growing a table twice, with tables declared after it in between, is growing it once.
pub proof fn lemma_grown_tables(
    tables: Seq<TableView>,
    i: Option<usize>,
    r1: nat,
    d1: Seq<TableView>,
    r2: nat,
)
    requires
        index_in(i, tables.len()),
    ensures
        grown_tables(grown_tables(tables, i, r1) + d1, i, r2) == grown_tables(tables, i, r1 + r2)
            + d1,
        grown_tables(tables, i, 0) == tables,
{
    assert(grown_tables(grown_tables(tables, i, r1) + d1, i, r2) =~= grown_tables(
        tables,
        i,
        r1 + r2,
    ) + d1);
    assert(grown_tables(tables, i, 0) =~= tables);
}

/// A form declared last, then grown, stands after the forms before it.
pub proof fn lemma_new_form(
    forms: Seq<FormView>,
    f: FormView,
    fields: Seq<FieldView>,
    submit: bool,
    more: Seq<FormView>,
)
    requires
        f.fields == Seq::<FieldView>::empty(),
        forms.len() <= usize::MAX,
    ensures
        grown_forms(forms.push(f), Some(forms.len() as usize), fields, submit) + more == forms + (
        seq![FormView { var: f.var, fields, has_submit: f.has_submit || submit }] + more),
{
    let n = forms.len() as int;
    assert(f.fields + fields =~= fields);
    assert(forms.push(f)[n] == f);
    assert(grown_forms(forms.push(f), Some(forms.len() as usize), fields, submit) + more =~= forms
        + (seq![FormView { var: f.var, fields, has_submit: f.has_submit || submit }] + more));
}

/// A table declared last, then grown, stands after the tables before it.
pub proof fn lemma_new_table(tables: Seq<TableView>, t: TableView, rows: nat, more: Seq<TableView>)
    requires
        t.row_count == 0,
        tables.len() <= usize::MAX,
    ensures
        grown_tables(tables.push(t), Some(tables.len() as usize), rows) + more == tables + (
        seq![TableView { var: t.var, row_count: rows }] + more),
{
    let n = tables.len() as int;
    assert(tables.push(t)[n] == t);
    assert(grown_tables(tables.push(t), Some(tables.len() as usize), rows) + more =~= tables + (
    seq![TableView { var: t.var, row_count: rows }] + more));
}

/// Each row takes a variable.
pub proof fn lemma_rows_bounded(f: Seq<Tree>, media: bool)
    ensures
        forest_rows(f) <= forest_vars(f, media),
    decreases f,
{
    if f.len() > 0 {
        lemma_rows_bounded(f.drop_last(), media);
        assert(forest_rows(f) == forest_rows(f.drop_last()) + node_rows(f.last()));
        assert(forest_vars(f, media) == forest_vars(f.drop_last(), media) + node_vars(
            f.last(),
            media,
        ));
        match f.last() {
            Tree::Text(_) => {},
            Tree::Element { tag, attrs, children } => {
                lemma_rows_bounded(children, media_tag(tag));
                if text_leaf(children) {
                    assert(children.drop_last() =~= Seq::<Tree>::empty());
                    assert(forest_rows(children) == 0) by {
                        assert(node_rows(children.last()) == 0);
                        assert(forest_rows(children.drop_last()) == 0);
                    }
                }
                if media && folded(f.last()) {
                    lemma_folded(f.last());
                }
            },
        }
    }
}

/// A form is neither a field nor a button, and a table is no row.
pub proof fn lemma_tags_differ(tag: Seq<char>)
    ensures
        is_tag(tag, "form"@) ==> !field_tag(tag) && !is_tag(tag, "button"@),
        is_tag(tag, "table"@) ==> !is_tag(tag, "tr"@),
{
    reveal_strlit("form");
    reveal_strlit("button");
    reveal_strlit("input");
    reveal_strlit("select");
    reveal_strlit("textarea");
    reveal_strlit("table");
    reveal_strlit("tr");
    assert(lower_seq("form"@).len() == 4);
    assert(lower_seq("button"@).len() == 6);
    assert(lower_seq("input"@).len() == 5);
    assert(lower_seq("select"@).len() == 6);
    assert(lower_seq("textarea"@).len() == 8);
    assert(lower_seq("table"@).len() == 5);
    assert(lower_seq("tr"@).len() == 2);
}

/// A folded node adds nothing to the form and the table around it.
pub proof fn lemma_folded(t: Tree)
    requires
        folded(t),
    ensures
        node_rows(t) == 0,
        !node_submits(t),
{
    reveal_strlit("source");
    reveal_strlit("tr");
    reveal_strlit("button");
    if let Tree::Element { tag, attrs, children } = t {
        assert(forest_rows(children) == 0);
        assert(!forest_submits(children));
        assert(lower_seq("tr"@).len() == 2);
        assert(lower_seq("source"@).len() == 6);
        assert(lower_seq("source"@)[0] == 's');
        assert(lower_seq("button"@)[0] == 'b');
    }
}

/// Content of one text run declares nothing and binds nothing.
pub proof fn lemma_text_leaf(children: Seq<Tree>, media: bool, c: nat)
    requires
        text_leaf(children),
    ensures
        forest_handlers(children, media) == 0,
        forest_elements(children, media, c) == Seq::<(nat, Tree)>::empty(),
        forest_fields(children, media, c) == Seq::<FieldView>::empty(),
        !forest_submits(children),
        forest_rows(children) == 0,
{
    let none = Seq::<Tree>::empty();
    let t = children.last();
    assert(children.drop_last() =~= none);
    assert(forest_handlers(none, media) == 0 && node_handlers(t, media) == 0);
    assert(forest_elements(none, media, c).len() == 0);
    assert(forest_fields(none, media, c).len() == 0);
    assert(!forest_submits(none) && !node_submits(t));
    assert(forest_rows(none) == 0 && node_rows(t) == 0);
    assert(node_elements(t, media, c + forest_vars(none, media)).len() == 0);
    assert(node_fields(t, media, c + forest_vars(none, media)).len() == 0);
    assert(forest_elements(children, media, c) =~= Seq::<(nat, Tree)>::empty());
    assert(forest_fields(children, media, c) =~= Seq::<FieldView>::empty());
}

/// Attributes bind at most one handler each.
pub proof fn lemma_handler_count_len(attrs: Seq<Attr>)
    ensures
        handler_count(attrs) <= attrs.len(),
    decreases attrs.len(),
{
    if attrs.len() > 0 {
        lemma_handler_count_len(attrs.drop_last());
    }
}

/// A forest takes no more variables and handlers than it weighs.
pub proof fn lemma_forest_bounds(f: Seq<Tree>, media: bool)
    ensures
        forest_vars(f, media) <= forest_weight(f),
        forest_handlers(f, media) <= forest_weight(f),
    decreases f,
{
    if f.len() > 0 {
        lemma_forest_bounds(f.drop_last(), media);
        assert(forest_weight(f) == forest_weight(f.drop_last()) + tree_weight(f.last()));
        assert(node_vars(f.last(), media) <= tree_weight(f.last()) && node_handlers(
            f.last(),
            media,
        ) <= tree_weight(f.last())) by {
            if let Tree::Element { tag, attrs, children } = f.last() {
                lemma_forest_bounds(children, media_tag(tag));
                lemma_handler_count_len(attrs);
            }
        }
    }
}

/// Text as a guest's string literal holds it: backslashes and quotes are escaped.
pub open spec fn escaped(s: Seq<char>) -> Seq<char>
    decreases s.len(),
{
    if s.len() == 0 {
        Seq::empty()
    } else if s.last() == '\\' {
        escaped(s.drop_last()) + seq!['\\', '\\']
    } else if s.last() == '"' {
        escaped(s.drop_last()) + seq!['\\', '"']
    } else {
        escaped(s.drop_last()).push(s.last())
    }
}

/// The name of the function that binds a handler.
pub open spec fn handler_call(kind: HandlerKind) -> Seq<char> {
    match kind {
        HandlerKind::Click => "    dom::on_click("@,
        HandlerKind::Submit => "    dom::on_submit("@,
        HandlerKind::Change => "    dom::on_change("@,
        HandlerKind::Input => "    dom::on_input("@,
        HandlerKind::Play => "    dom::on_play("@,
        HandlerKind::Pause => "    dom::on_pause("@,
        HandlerKind::Ended => "    dom::on_ended("@,
    }
}

/// The line of guest source that performs an operation.
pub open spec fn op_line(op: OpView) -> Seq<char> {
    match op {
        OpView::Create { var, tag } => "    let "@ + var + " = dom::create_element(&\""@ + escaped(
            tag,
        ) + "\");\n"@,
        OpView::Text { var, text } => "    dom::set_text("@ + var + ", &\""@ + escaped(text)
            + "\");\n"@,
        OpView::Attr { var, name, value } => "    dom::set_attribute("@ + var + ", &\""@ + escaped(
            name,
        ) + "\", &\""@ + escaped(value) + "\");\n"@,
        OpView::Append { parent, child } => "    dom::append_child("@ + parent + ", "@ + child
            + ");\n"@,
        OpView::On { kind, var, handler } => handler_call(kind) + var + ", "@ + dec(handler)
            + ");\n"@,
    }
}

/// The lines of guest source that perform a list of operations.
pub open spec fn op_lines(ops: Seq<OpView>) -> Seq<char>
    decreases ops.len(),
{
    if ops.len() == 0 {
        Seq::empty()
    } else {
        op_lines(ops.drop_last()) + op_line(ops.last())
    }
}

/// What guest source starts with.
pub open spec fn guest_head() -> Seq<char> {
    "wit_bindgen::generate!({\n    world: \"helix-guest\",\n    path: \"../helix-wit/wit\",\n});\n\n#[unsafe(no_mangle)]\npub extern \"C\" fn run() {\n    use helix::runtime::dom;\n"@
}

/// The guest source that performs a list of operations.
pub open spec fn guest_source(ops: Seq<OpView>) -> Seq<char> {
    guest_head() + op_lines(ops) + "}\n"@
}

/// The world that a guest is built from.
pub open spec fn guest_world() -> Seq<char> {
    "world helix-guest {\n    import dom;\n    export run: func();\n}\n"@
}

} // verus!
