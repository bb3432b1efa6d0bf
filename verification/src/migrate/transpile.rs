//! Transpilation of documents into guest components.
//!
//! A document (static content, a form-based dashboard, a data visualisation or a media player)
//! becomes a list of DOM operations that rebuild it, the guest source that runs them, and models
//! of the forms, tables, charts and players that it declares.
use crate::migrate::html_tree::{
    document, forest_of, lemma_forest_of, lemma_forest_step, lemma_parse_from,
    lemma_parse_weight, tree_of, Attr, Tree,
};
use crate::migrate::site_model::{
    append_op, attr_ops, chart_tag, charts_at, charts_in, field_tag, field_view, first_attr,
    folded, forest_elements, forest_fields, forest_handlers, forest_ops, forest_rows,
    forest_submits, forest_vars, escaped, forms_at, forms_in, grown_forms, grown_tables, guest_head, guest_source, guest_world, handler_count,
    handler_kind, has_pair, index_in, is_tag, last_attr, lemma_grown_forms, lemma_grown_tables,
    lemma_folded, lemma_forest_bounds, lemma_in_add, lemma_in_one, lemma_new_form, lemma_new_table, lemma_tags_differ, lemma_text_leaf, media_tag, node_elements,
    node_fields, node_handlers, node_ops, node_rows, node_submits, node_vars, op_line, op_lines, pixels, players_at,
    players_in, series_of, sources_of, tables_at, tables_in, text_leaf, var_name, ChartView,
    FieldView, FormView, OpView, PlayerView, SourceView, TableView,
};
use crate::strings::{
    chars_of, dec, decimal, eq_ignore_case, lower_string, parse_usize, same_ignoring_case,
    stands_at, str_eq,
};
use vstd::prelude::*;
use vstd::string::*;

pub use crate::migrate::html_tree::{collect_text, count_nodes, parse_html, Element, Node};
pub use crate::migrate::site_model::HandlerKind;

verus! {

/// A single DOM operation in the transpiled output, in execution order.
#[derive(Debug, Clone, PartialEq, Eq)]
pub enum DomOp {
    /// Binds a new element of a tag to a variable.
    Create { var: String, tag: String },
    /// Sets the text of an element.
    Text { var: String, text: String },
    /// Sets an attribute of an element.
    Attr { var: String, name: String, value: String },
    /// Appends one element to another.
    Append { parent: String, child: String },
    /// Binds a click handler.
    OnClick { var: String, handler: u64 },
    /// Binds a form submit handler.
    OnSubmit { var: String, handler: u64 },
    /// Binds a field change handler.
    OnChange { var: String, handler: u64 },
    /// Binds a live input handler.
    OnInput { var: String, handler: u64 },
    /// Binds a playback start handler.
    OnPlay { var: String, handler: u64 },
    /// Binds a playback pause handler.
    OnPause { var: String, handler: u64 },
    /// Binds a playback end handler.
    OnEnded { var: String, handler: u64 },
}

impl DeepView for DomOp {
    type V = OpView;

    open spec fn deep_view(&self) -> OpView {
        match *self {
            DomOp::Create { var, tag } => OpView::Create { var: var@, tag: tag@ },
            DomOp::Text { var, text } => OpView::Text { var: var@, text: text@ },
            DomOp::Attr { var, name, value } => OpView::Attr {
                var: var@,
                name: name@,
                value: value@,
            },
            DomOp::Append { parent, child } => OpView::Append { parent: parent@, child: child@ },
            DomOp::OnClick { var, handler } => OpView::On {
                kind: HandlerKind::Click,
                var: var@,
                handler: handler as nat,
            },
            DomOp::OnSubmit { var, handler } => OpView::On {
                kind: HandlerKind::Submit,
                var: var@,
                handler: handler as nat,
            },
            DomOp::OnChange { var, handler } => OpView::On {
                kind: HandlerKind::Change,
                var: var@,
                handler: handler as nat,
            },
            DomOp::OnInput { var, handler } => OpView::On {
                kind: HandlerKind::Input,
                var: var@,
                handler: handler as nat,
            },
            DomOp::OnPlay { var, handler } => OpView::On {
                kind: HandlerKind::Play,
                var: var@,
                handler: handler as nat,
            },
            DomOp::OnPause { var, handler } => OpView::On {
                kind: HandlerKind::Pause,
                var: var@,
                handler: handler as nat,
            },
            DomOp::OnEnded { var, handler } => OpView::On {
                kind: HandlerKind::Ended,
                var: var@,
                handler: handler as nat,
            },
        }
    }
}

/// A single field within a detected [`FormModel`].
#[derive(Debug, Clone, PartialEq, Eq)]
pub struct FormField {
    /// Variable the field's element is bound to in the generated guest.
    pub var: String,
    /// `type` attribute (e.g. `text`, `number`, `email`); defaults to `text`.
    pub input_type: String,
    /// `name` attribute, used as the data-binding key (if present).
    pub name: Option<String>,
}

impl DeepView for FormField {
    type V = FieldView;

    open spec fn deep_view(&self) -> FieldView {
        FieldView {
            var: self.var@,
            input_type: self.input_type@,
            name: self.name.deep_view(),
        }
    }
}

/// A form detected in the transpiled document.
#[derive(Debug, Clone, PartialEq, Eq)]
pub struct FormModel {
    /// Variable the `<form>` element is bound to.
    pub var: String,
    /// Fields making up the form.
    pub fields: Vec<FormField>,
    /// Whether the form carries a submit affordance (submit button / onsubmit).
    pub has_submit: bool,
}

impl DeepView for FormModel {
    type V = FormView;

    open spec fn deep_view(&self) -> FormView {
        FormView {
            var: self.var@,
            fields: self.fields.deep_view(),
            has_submit: self.has_submit,
        }
    }
}

/// A table detected in the transpiled document: an entity listing.
#[derive(Debug, Clone, PartialEq, Eq)]
pub struct TableModel {
    /// Variable the `<table>` element is bound to.
    pub var: String,
    /// Number of `<tr>` rows, header rows among them.
    pub row_count: usize,
}

impl DeepView for TableModel {
    type V = TableView;

    open spec fn deep_view(&self) -> TableView {
        TableView { var: self.var@, row_count: self.row_count as nat }
    }
}

/// The forms and tables of a document.
#[derive(Debug, Clone, PartialEq, Eq)]
pub struct CrudModel {
    /// Forms detected in document order.
    pub forms: Vec<FormModel>,
    /// Tables (entity listings) detected in document order.
    pub tables: Vec<TableModel>,
}

impl Default for CrudModel {
    fn default() -> (m: Self)
        ensures
            m.forms@.len() == 0,
            m.tables@.len() == 0,
    {
        CrudModel { forms: Vec::new(), tables: Vec::new() }
    }
}

/// A chart element detected in a data-visualisation document.
#[derive(Debug, Clone, PartialEq, Eq)]
pub struct ChartModel {
    /// Variable the `<canvas>`/`<svg>` element is bound to in the generated guest.
    pub var: String,
    /// Tag the chart is drawn in (`canvas` | `svg`).
    pub tag: String,
    /// `id` attribute (used as the chart handle / mount point).
    pub id: Option<String>,
    /// Pixel `width` — `None` when absent or non-numeric.
    pub width: Option<usize>,
    /// Pixel `height` — `None` when absent or non-numeric.
    pub height: Option<usize>,
    /// `data-*` series bindings (name, value), e.g. `data-series-0="revenue"`.
    pub series: Vec<(String, String)>,
}

/// A machine number as a mathematical one.
pub open spec fn opt_nat(n: Option<usize>) -> Option<nat> {
    match n {
        Some(n) => Some(n as nat),
        None => None,
    }
}

impl DeepView for ChartModel {
    type V = ChartView;

    open spec fn deep_view(&self) -> ChartView {
        ChartView {
            var: self.var@,
            tag: self.tag@,
            id: self.id.deep_view(),
            width: opt_nat(self.width),
            height: opt_nat(self.height),
            series: self.series.deep_view(),
        }
    }
}

/// The charts of a document.
#[derive(Debug, Clone, PartialEq, Eq)]
pub struct DataVizModel {
    /// Charts detected in document order.
    pub charts: Vec<ChartModel>,
}

impl Default for DataVizModel {
    fn default() -> (m: Self)
        ensures
            m.charts@.len() == 0,
    {
        DataVizModel { charts: Vec::new() }
    }
}

/// A `<source>` child of a [`MediaPlayerModel`].
#[derive(Debug, Clone, PartialEq, Eq)]
pub struct MediaSource {
    /// MIME type, e.g. `video/mp4` (from the `type` attribute).
    pub media_type: Option<String>,
    /// `src` of this alternate stream.
    pub src: String,
}

impl DeepView for MediaSource {
    type V = SourceView;

    open spec fn deep_view(&self) -> SourceView {
        SourceView { media_type: self.media_type.deep_view(), src: self.src@ }
    }
}

/// A media element detected in a media-player document.
#[derive(Debug, Clone, PartialEq, Eq)]
pub struct MediaPlayerModel {
    /// Variable the `<video>`/`<audio>` element is bound to.
    pub var: String,
    /// Kind of media (`video` | `audio`).
    pub kind: String,
    /// Primary `src` attribute (when the element carries one directly).
    pub src: Option<String>,
    /// Whether the native `controls` UI is requested.
    pub has_controls: bool,
    /// `autoplay` hint.
    pub autoplay: bool,
    /// `loop` hint.
    pub loop_playback: bool,
    /// Alternate streams declared via `<source>` children.
    pub sources: Vec<MediaSource>,
}

impl DeepView for MediaPlayerModel {
    type V = PlayerView;

    open spec fn deep_view(&self) -> PlayerView {
        PlayerView {
            var: self.var@,
            kind: self.kind@,
            src: self.src.deep_view(),
            has_controls: self.has_controls,
            autoplay: self.autoplay,
            loop_playback: self.loop_playback,
            sources: self.sources.deep_view(),
        }
    }
}

/// The players of a document.
#[derive(Debug, Clone, PartialEq, Eq)]
pub struct MediaModel {
    /// Players detected in document order.
    pub players: Vec<MediaPlayerModel>,
}

impl Default for MediaModel {
    fn default() -> (m: Self)
        ensures
            m.players@.len() == 0,
    {
        MediaModel { players: Vec::new() }
    }
}

/// Pushing a value pushes its view.
proof fn lemma_deep_push<T: DeepView>(before: Vec<T>, after: Vec<T>, x: T)
    requires
        after@ == before@.push(x),
    ensures
        after.deep_view() == before.deep_view().push(x.deep_view()),
{
    assert(after.deep_view() =~= before.deep_view().push(x.deep_view()));
}

/// The value of the first attribute of that name.
fn find_attr(attrs: &Vec<(String, String)>, name: &str) -> (r: Option<String>)
    ensures
        r.deep_view() == first_attr(attrs.deep_view(), name@),
{
    let ghost all = attrs.deep_view();
    let mut i: usize = 0;
    assert(all.take(0) =~= Seq::<Attr>::empty());
    while i < attrs.len()
        invariant
            0 <= i <= attrs@.len(),
            all == attrs.deep_view(),
            first_attr(all.take(i as int), name@) is None,
        decreases attrs@.len() - i,
    {
        assert(all.take(i + 1).drop_last() =~= all.take(i as int));
        assert(all.take(i + 1).last() == all[i as int]);
        if eq_ignore_case(&attrs[i].0, name) {
            let value = attrs[i].1.clone();
            proof {
                lemma_first_attr_stays(all, i + 1, name@);
            }
            return Some(value);
        }
        i = i + 1;
    }
    assert(all.take(all.len() as int) =~= all);
    None
}

/// Attributes that follow the first of a name do not change what it holds.
proof fn lemma_first_attr_stays(attrs: Seq<Attr>, k: int, name: Seq<char>)
    requires
        0 <= k <= attrs.len(),
        first_attr(attrs.take(k), name) is Some,
    ensures
        first_attr(attrs, name) == first_attr(attrs.take(k), name),
    decreases attrs.len(),
{
    if k == attrs.len() {
        assert(attrs.take(k) =~= attrs);
    } else {
        assert(attrs.drop_last().take(k) =~= attrs.take(k));
        lemma_first_attr_stays(attrs.drop_last(), k, name);
    }
}

/// Whether some attribute has that name.
fn has_attr(attrs: &Vec<(String, String)>, name: &str) -> (b: bool)
    ensures
        b == first_attr(attrs.deep_view(), name@) is Some,
{
    match find_attr(attrs, name) {
        Some(_) => true,
        None => false,
    }
}

/// The value of the last attribute of that name.
fn find_last_attr(attrs: &Vec<(String, String)>, name: &str) -> (r: Option<String>)
    ensures
        r.deep_view() == last_attr(attrs.deep_view(), name@),
{
    let ghost all = attrs.deep_view();
    let mut i: usize = attrs.len();
    assert(all.take(all.len() as int) =~= all);
    while i > 0
        invariant
            0 <= i <= attrs@.len(),
            all == attrs.deep_view(),
            last_attr(all, name@) == last_attr(all.take(i as int), name@),
        decreases i,
    {
        i = i - 1;
        assert(all.take(i + 1).drop_last() =~= all.take(i as int));
        assert(all.take(i + 1).last() == all[i as int]);
        if eq_ignore_case(&attrs[i].0, name) {
            return Some(attrs[i].1.clone());
        }
    }
    None
}

/// Whether some attribute has that name and that value.
fn has_attr_value(attrs: &Vec<(String, String)>, name: &str, value: &str) -> (b: bool)
    ensures
        b == has_pair(attrs.deep_view(), name@, value@),
{
    let ghost all = attrs.deep_view();
    let mut i: usize = 0;
    while i < attrs.len()
        invariant
            0 <= i <= attrs@.len(),
            all == attrs.deep_view(),
            forall|j: int|
                0 <= j < i ==> !(same_ignoring_case(#[trigger] all[j].0, name@)
                    && same_ignoring_case(all[j].1, value@)),
        decreases attrs@.len() - i,
    {
        assert(all[i as int] == (attrs[i as int].0@, attrs[i as int].1@));
        if eq_ignore_case(&attrs[i].0, name) && eq_ignore_case(&attrs[i].1, value) {
            assert(same_ignoring_case(all[i as int].0, name@));
            return true;
        }
        i = i + 1;
    }
    false
}

/// The `data-*` attributes.
fn data_series(attrs: &Vec<(String, String)>) -> (r: Vec<(String, String)>)
    ensures
        r.deep_view() == series_of(attrs.deep_view()),
{
    let ghost all = attrs.deep_view();
    let prefix = chars_of("data-");
    let mut out: Vec<(String, String)> = Vec::new();
    let mut i: usize = 0;
    assert(all.take(0) =~= Seq::<Attr>::empty());
    assert(out.deep_view() =~= series_of(all.take(0)));
    while i < attrs.len()
        invariant
            0 <= i <= attrs@.len(),
            all == attrs.deep_view(),
            prefix@ == "data-"@,
            out.deep_view() == series_of(all.take(i as int)),
        decreases attrs@.len() - i,
    {
        assert(all.take(i + 1).drop_last() =~= all.take(i as int));
        assert(all.take(i + 1).last() == all[i as int]);
        let name = chars_of(&lower_string(&attrs[i].0));
        if stands_at(&name, &prefix, 0) {
            let ghost before = out;
            let pair = (attrs[i].0.clone(), attrs[i].1.clone());
            out.push(pair);
            proof {
                lemma_deep_push(before, out, pair);
            }
        }
        i = i + 1;
    }
    assert(all.take(all.len() as int) =~= all);
    out
}

/// The number of pixels that an attribute gives.
fn pixel_attr(attrs: &Vec<(String, String)>, name: &str) -> (r: Option<usize>)
    ensures
        opt_nat(r) == pixels(first_attr(attrs.deep_view(), name@)),
{
    match find_attr(attrs, name) {
        Some(v) => parse_usize(&v),
        None => None,
    }
}

/// The variable numbered `n`.
fn var_string(n: usize) -> (s: String)
    ensures
        s@ == var_name(n as nat),
{
    let mut s = String::from_str("el");
    s.append(&decimal(n as u64));
    s
}

/// The chart that an element declares.
fn chart_model(el: &Element, n: usize) -> (m: ChartModel)
    requires
        chart_tag(el.tag@),
    ensures
        charts_at((n as nat, tree_of(Node::Element(*el)))) == seq![m.deep_view()],
{
    ChartModel {
        var: var_string(n),
        tag: el.tag.clone(),
        id: find_attr(&el.attrs, "id"),
        width: pixel_attr(&el.attrs, "width"),
        height: pixel_attr(&el.attrs, "height"),
        series: data_series(&el.attrs),
    }
}

/// The alternate streams among a player's children.
fn media_sources(children: &Vec<Node>) -> (r: Vec<MediaSource>)
    ensures
        r.deep_view() == sources_of(forest_of(children@)),
{
    let mut out: Vec<MediaSource> = Vec::new();
    let mut i: usize = 0;
    assert(children@.take(0) =~= Seq::<Node>::empty());
    assert(out.deep_view() =~= sources_of(forest_of(children@.take(0))));
    while i < children.len()
        invariant
            0 <= i <= children@.len(),
            out.deep_view() == sources_of(forest_of(children@.take(i as int))),
        decreases children@.len() - i,
    {
        proof {
            lemma_forest_step(children@, i as int);
            let next = forest_of(children@.take(i + 1));
            assert(next.drop_last() =~= forest_of(children@.take(i as int)));
            assert(next.last() == tree_of(children@[i as int]));
        }
        match &children[i] {
            Node::Element(child) => {
                if eq_ignore_case(&child.tag, "source") {
                    if let Some(src) = find_attr(&child.attrs, "src") {
                        let ghost before = out;
                        let m = MediaSource { media_type: find_attr(&child.attrs, "type"), src };
                        out.push(m);
                        proof {
                            lemma_deep_push(before, out, m);
                        }
                    }
                }
            },
            Node::Text(_) => {},
        }
        i = i + 1;
    }
    assert(children@.take(children@.len() as int) =~= children@);
    out
}

/// The player that an element declares.
fn player_model(el: &Element, n: usize) -> (m: MediaPlayerModel)
    requires
        media_tag(el.tag@),
    ensures
        players_at((n as nat, tree_of(Node::Element(*el)))) == seq![m.deep_view()],
{
    MediaPlayerModel {
        var: var_string(n),
        kind: el.tag.clone(),
        src: find_attr(&el.attrs, "src"),
        has_controls: has_attr(&el.attrs, "controls"),
        autoplay: has_attr(&el.attrs, "autoplay"),
        loop_playback: has_attr(&el.attrs, "loop"),
        sources: media_sources(&el.children),
    }
}

/// The field that an element is.
fn field_model(el: &Element, n: usize) -> (m: FormField)
    ensures
        m.deep_view() == field_view(n as nat, el.attrs.deep_view()),
{
    let input_type = match find_last_attr(&el.attrs, "type") {
        Some(t) => t,
        None => String::from_str("text"),
    };
    FormField { var: var_string(n), input_type, name: find_last_attr(&el.attrs, "name") }
}

/// The event that an attribute binds a handler to.
fn handler_attr(name: &str) -> (r: Option<HandlerKind>)
    ensures
        r == handler_kind(name@),
{
    let n = lower_string(name);
    if str_eq(&n, "onclick") {
        Some(HandlerKind::Click)
    } else if str_eq(&n, "onsubmit") {
        Some(HandlerKind::Submit)
    } else if str_eq(&n, "onchange") {
        Some(HandlerKind::Change)
    } else if str_eq(&n, "oninput") {
        Some(HandlerKind::Input)
    } else if str_eq(&n, "onplay") {
        Some(HandlerKind::Play)
    } else if str_eq(&n, "onpause") {
        Some(HandlerKind::Pause)
    } else if str_eq(&n, "onended") {
        Some(HandlerKind::Ended)
    } else {
        None
    }
}

/// The operation that binds a handler.
fn handler_op(kind: HandlerKind, var: String, handler: u64) -> (op: DomOp)
    ensures
        op.deep_view() == (OpView::On { kind, var: var@, handler: handler as nat }),
{
    match kind {
        HandlerKind::Click => DomOp::OnClick { var, handler },
        HandlerKind::Submit => DomOp::OnSubmit { var, handler },
        HandlerKind::Change => DomOp::OnChange { var, handler },
        HandlerKind::Input => DomOp::OnInput { var, handler },
        HandlerKind::Play => DomOp::OnPlay { var, handler },
        HandlerKind::Pause => DomOp::OnPause { var, handler },
        HandlerKind::Ended => DomOp::OnEnded { var, handler },
    }
}

/// Whether a node is folded into the player around it.
fn is_folded(n: &Node) -> (b: bool)
    ensures
        b == folded(tree_of(*n)),
{
    match n {
        Node::Element(el) => {
            proof {
                lemma_forest_of(el.children@);
            }
            eq_ignore_case(&el.tag, "source") && el.children.len() == 0
        },
        Node::Text(_) => false,
    }
}

/// The text of an element whose content is one text run and nothing else.
fn only_text(el: &Element) -> (r: Option<String>)
    ensures
        r is Some <==> text_leaf(forest_of(el.children@)),
        r matches Some(t) ==> forest_of(el.children@)[0] == Tree::Text(t@),
{
    proof {
        lemma_forest_of(el.children@);
    }
    if el.children.len() == 1 {
        match &el.children[0] {
            Node::Text(t) => Some(t.clone()),
            Node::Element(_) => None,
        }
    } else {
        None
    }
}

/// What transpilation has emitted so far.
struct Emitter {
    ops: Vec<DomOp>,
    counter: usize,
    handler_counter: u64,
    crud: CrudModel,
    dataviz: DataVizModel,
    media: MediaModel,
}

/// What emitting adds: operations, variables, handlers, elements, and what belongs to the form and
/// the table around.
struct Delta {
    ops: Seq<OpView>,
    vars: nat,
    handlers: nat,
    elements: Seq<(nat, Tree)>,
    fields: Seq<FieldView>,
    submits: bool,
    rows: nat,
}

spec fn node_delta(t: Tree, media: bool, parent: Option<nat>, c: nat, h: nat) -> Delta {
    Delta {
        ops: node_ops(t, media, parent, c, h),
        vars: node_vars(t, media),
        handlers: node_handlers(t, media),
        elements: node_elements(t, media, c),
        fields: node_fields(t, media, c),
        submits: node_submits(t),
        rows: node_rows(t),
    }
}

spec fn forest_delta(f: Seq<Tree>, media: bool, parent: Option<nat>, c: nat, h: nat) -> Delta {
    Delta {
        ops: forest_ops(f, media, parent, c, h),
        vars: forest_vars(f, media),
        handlers: forest_handlers(f, media),
        elements: forest_elements(f, media, c),
        fields: forest_fields(f, media, c),
        submits: forest_submits(f),
        rows: forest_rows(f),
    }
}

spec fn delta_add(a: Delta, b: Delta) -> Delta {
    Delta {
        ops: a.ops + b.ops,
        vars: a.vars + b.vars,
        handlers: a.handlers + b.handlers,
        elements: a.elements + b.elements,
        fields: a.fields + b.fields,
        submits: a.submits || b.submits,
        rows: a.rows + b.rows,
    }
}

impl Emitter {
    /// No table has more rows than there are variables.
    spec fn wf(self) -> bool {
        forall|i: int|
            0 <= i < self.crud.tables@.len() ==> #[trigger] self.crud.tables@[i].row_count
                <= self.counter
    }

    /// `self` is `before` with `d` added, below form `form` and table `table`.
    spec fn extends(self, before: Emitter, d: Delta, form: Option<usize>, table: Option<usize>) -> bool {
        &&& self.ops.deep_view() == before.ops.deep_view() + d.ops
        &&& self.counter == before.counter + d.vars
        &&& self.handler_counter == before.handler_counter + d.handlers
        &&& self.crud.forms.deep_view() == grown_forms(
            before.crud.forms.deep_view(),
            form,
            d.fields,
            d.submits,
        ) + forms_in(d.elements)
        &&& self.crud.tables.deep_view() == grown_tables(
            before.crud.tables.deep_view(),
            table,
            d.rows,
        ) + tables_in(d.elements)
        &&& self.dataviz.charts.deep_view() == before.dataviz.charts.deep_view() + charts_in(
            d.elements,
        )
        &&& self.media.players.deep_view() == before.media.players.deep_view() + players_in(
            d.elements,
        )
    }

    fn next_var(&mut self) -> (n: usize)
        requires
            old(self).counter < usize::MAX,
            old(self).wf(),
        ensures
            n == old(self).counter,
            *final(self) == (Emitter { counter: (old(self).counter + 1) as usize, ..*old(self) }),
            final(self).wf(),
    {
        let n = self.counter;
        self.counter = n + 1;
        n
    }

    fn next_handler(&mut self) -> (h: u64)
        requires
            old(self).handler_counter < u64::MAX,
        ensures
            h == old(self).handler_counter,
            *final(self) == (Emitter {
                handler_counter: (old(self).handler_counter + 1) as u64,
                ..*old(self)
            }),
    {
        let h = self.handler_counter;
        self.handler_counter = h + 1;
        h
    }

    fn push_op(&mut self, op: DomOp)
        ensures
            final(self).ops.deep_view() == old(self).ops.deep_view().push(op.deep_view()),
            *final(self) == (Emitter { ops: final(self).ops, ..*old(self) }),
    {
        self.ops.push(op);
        proof {
            lemma_deep_push(old(self).ops, self.ops, op);
        }
    }

    /// Emits the operations of an element's attributes.
    fn emit_attrs(&mut self, el: &Element, n: usize)
        requires
            old(self).handler_counter + handler_count(el.attrs.deep_view()) <= u64::MAX,
        ensures
            final(self).ops.deep_view() == old(self).ops.deep_view() + attr_ops(
                el.attrs.deep_view(),
                n as nat,
                old(self).handler_counter as nat,
            ),
            final(self).handler_counter == old(self).handler_counter + handler_count(
                el.attrs.deep_view(),
            ),
            *final(self) == (Emitter {
                ops: final(self).ops,
                handler_counter: final(self).handler_counter,
                ..*old(self)
            }),
    {
        let ghost all = el.attrs.deep_view();
        let ghost start = *self;
        let ghost h = self.handler_counter as nat;
        let mut i: usize = 0;
        assert(all.take(0) =~= Seq::<Attr>::empty());
        assert(start.ops.deep_view() + attr_ops(all.take(0), n as nat, h)
            =~= start.ops.deep_view());
        while i < el.attrs.len()
            invariant
                0 <= i <= el.attrs@.len(),
                all == el.attrs.deep_view(),
                h == start.handler_counter,
                h + handler_count(all) <= u64::MAX,
                self.ops.deep_view() == start.ops.deep_view() + attr_ops(
                    all.take(i as int),
                    n as nat,
                    h,
                ),
                self.handler_counter == h + handler_count(all.take(i as int)),
                *self == (Emitter {
                    ops: self.ops,
                    handler_counter: self.handler_counter,
                    ..start
                }),
            decreases el.attrs@.len() - i,
        {
            let ghost before = *self;
            proof {
                assert(all.take(i + 1).drop_last() =~= all.take(i as int));
                assert(all.take(i + 1).last() == all[i as int]);
                lemma_handler_count(all, i + 1);
            }
            let var = var_string(n);
            match handler_attr(&el.attrs[i].0) {
                Some(kind) => {
                    let id = self.next_handler();
                    self.push_op(handler_op(kind, var, id));
                },
                None => {
                    self.push_op(
                        DomOp::Attr {
                            var,
                            name: el.attrs[i].0.clone(),
                            value: el.attrs[i].1.clone(),
                        },
                    );
                },
            }
            assert(self.ops.deep_view() =~= start.ops.deep_view() + attr_ops(
                all.take(i + 1),
                n as nat,
                h,
            ));
            i = i + 1;
        }
        assert(all.take(all.len() as int) =~= all);
    }
}

/// A prefix of the attributes binds no more handlers than all of them.
proof fn lemma_handler_count(attrs: Seq<Attr>, k: int)
    requires
        0 <= k <= attrs.len(),
    ensures
        handler_count(attrs.take(k)) <= handler_count(attrs),
    decreases attrs.len(),
{
    if k == attrs.len() {
        assert(attrs.take(k) =~= attrs);
    } else {
        assert(attrs.drop_last().take(k) =~= attrs.take(k));
        lemma_handler_count(attrs.drop_last(), k);
    }
}

/// Adding twice is adding the sum.
proof fn lemma_extends(
    a: Emitter,
    b: Emitter,
    c: Emitter,
    d1: Delta,
    d2: Delta,
    form: Option<usize>,
    table: Option<usize>,
)
    requires
        b.extends(a, d1, form, table),
        c.extends(b, d2, form, table),
        index_in(form, a.crud.forms@.len()),
        index_in(table, a.crud.tables@.len()),
    ensures
        c.extends(a, delta_add(d1, d2), form, table),
{
    lemma_in_add(d1.elements, d2.elements);
    let af = a.crud.forms.deep_view();
    let at = a.crud.tables.deep_view();
    lemma_grown_forms(
        af,
        form,
        d1.fields,
        d1.submits,
        forms_in(d1.elements),
        d2.fields,
        d2.submits,
    );
    lemma_grown_tables(at, table, d1.rows, tables_in(d1.elements), d2.rows);
    let d = delta_add(d1, d2);
    assert(c.ops.deep_view() =~= a.ops.deep_view() + d.ops);
    assert(c.crud.forms.deep_view() =~= grown_forms(af, form, d.fields, d.submits) + forms_in(
        d.elements,
    ));
    assert(c.crud.tables.deep_view() =~= grown_tables(at, table, d.rows) + tables_in(d.elements));
    assert(c.dataviz.charts.deep_view() =~= a.dataviz.charts.deep_view() + charts_in(d.elements));
    assert(c.media.players.deep_view() =~= a.media.players.deep_view() + players_in(d.elements));
}

/// A forest with one more node adds what the forest adds, then what the node adds.
proof fn lemma_forest_delta(
    f: Seq<Tree>,
    t: Tree,
    media: bool,
    parent: Option<nat>,
    c: nat,
    h: nat,
)
    ensures
        forest_delta(f.push(t), media, parent, c, h) == delta_add(
            forest_delta(f, media, parent, c, h),
            node_delta(
                t,
                media,
                parent,
                c + forest_vars(f, media),
                h + forest_handlers(f, media),
            ),
        ),
{
    assert(f.push(t).drop_last() =~= f);
}

/// An empty forest adds nothing.
proof fn lemma_extends_none(
    e: Emitter,
    media: bool,
    parent: Option<nat>,
    form: Option<usize>,
    table: Option<usize>,
)
    requires
        index_in(form, e.crud.forms@.len()),
        index_in(table, e.crud.tables@.len()),
    ensures
        e.extends(
            e,
            forest_delta(Seq::empty(), media, parent, e.counter as nat, e.handler_counter as nat),
            form,
            table,
        ),
{
    let d = forest_delta(
        Seq::empty(),
        media,
        parent,
        e.counter as nat,
        e.handler_counter as nat,
    );
    lemma_grown_forms(
        e.crud.forms.deep_view(),
        form,
        Seq::empty(),
        false,
        Seq::empty(),
        Seq::empty(),
        false,
    );
    lemma_grown_tables(e.crud.tables.deep_view(), table, 0, Seq::empty(), 0);
    assert(d.elements =~= Seq::<(nat, Tree)>::empty());
    assert(e.ops.deep_view() + d.ops =~= e.ops.deep_view());
    assert(e.crud.forms.deep_view() + forms_in(d.elements) =~= e.crud.forms.deep_view());
    assert(e.crud.tables.deep_view() + tables_in(d.elements) =~= e.crud.tables.deep_view());
    assert(e.dataviz.charts.deep_view() + charts_in(d.elements) =~= e.dataviz.charts.deep_view());
    assert(e.media.players.deep_view() + players_in(d.elements) =~= e.media.players.deep_view());
}

/// A field as a list of at most one.
spec fn field_list(field: Option<FormField>) -> Seq<FieldView> {
    match field {
        Some(f) => seq![f.deep_view()],
        None => Seq::empty(),
    }
}

/// The fields that an element itself gives to the form around it.
spec fn own_fields(tag: Seq<char>, attrs: Seq<Attr>, c: nat) -> Seq<FieldView> {
    if field_tag(tag) {
        seq![field_view(c, attrs)]
    } else {
        Seq::empty()
    }
}

/// Whether an element is itself a submit button.
spec fn own_submit(tag: Seq<char>, attrs: Seq<Attr>) -> bool {
    is_tag(tag, "button"@) && has_pair(attrs, "type"@, "submit"@)
}

/// How many rows an element itself is.
spec fn own_rows(tag: Seq<char>) -> nat {
    if is_tag(tag, "tr"@) {
        1
    } else {
        0
    }
}

impl Emitter {
    /// Gives a field and a submit button to a form.
    fn grow_form(&mut self, form: usize, field: Option<FormField>, submit: bool)
        requires
            form < old(self).crud.forms@.len(),
        ensures
            final(self).crud.forms.deep_view() == grown_forms(
                old(self).crud.forms.deep_view(),
                Some(form),
                field_list(field),
                submit,
            ),
            final(self).crud.forms@.len() == old(self).crud.forms@.len(),
            *final(self) == (Emitter {
                crud: CrudModel { forms: final(self).crud.forms, ..old(self).crud },
                ..*old(self)
            }),
    {
        let ghost before = self.crud.forms;
        let ghost was = self.crud.forms@[form as int];
        let ghost added = field_list(field);
        if let Some(f) = field {
            self.crud.forms[form].fields.push(f);
            assert(self.crud.forms@[form as int].fields.deep_view() =~= was.fields.deep_view()
                + added);
        } else {
            assert(was.fields.deep_view() + added =~= was.fields.deep_view());
        }
        if submit {
            self.crud.forms[form].has_submit = true;
        }
        assert(self.crud.forms.deep_view() =~= grown_forms(
            before.deep_view(),
            Some(form),
            added,
            submit,
        ));
    }

    /// Records what an element declares, emits its attributes, and says which form and table its
    /// content belongs to.
    fn declare(&mut self, el: &Element, n: usize, form: Option<usize>, table: Option<usize>) -> (r: (
        Option<usize>,
        Option<usize>,
    ))
        requires
            old(self).wf(),
            n < old(self).counter,
            index_in(form, old(self).crud.forms@.len()),
            index_in(table, old(self).crud.tables@.len()),
            forall|i: int|
                0 <= i < old(self).crud.tables@.len() ==> #[trigger] old(
                    self,
                ).crud.tables@[i].row_count < old(self).counter,
            old(self).handler_counter + handler_count(el.attrs.deep_view()) <= u64::MAX,
        ensures
            final(self).wf(),
            index_in(r.0, final(self).crud.forms@.len()),
            index_in(r.1, final(self).crud.tables@.len()),
            declared(*old(self), *final(self), *el, n, form, table, r.0, r.1),
    {
        let ghost e0 = *self;
        let ghost t = tree_of(Node::Element(*el));
        proof {
            lemma_tags_differ(el.tag@);
            lemma_grown_forms(
                e0.crud.forms.deep_view(),
                form,
                Seq::empty(),
                false,
                Seq::empty(),
                Seq::empty(),
                false,
            );
            lemma_grown_tables(e0.crud.tables.deep_view(), table, 0, Seq::empty(), 0);
        }
        let mut this_form = form;
        if eq_ignore_case(&el.tag, "form") {
            this_form = Some(self.crud.forms.len());
            let m = FormModel {
                var: var_string(n),
                fields: Vec::new(),
                has_submit: has_attr(&el.attrs, "onsubmit"),
            };
            assert(m.fields.deep_view() =~= Seq::<FieldView>::empty());
            self.crud.forms.push(m);
            proof {
                lemma_deep_push(e0.crud.forms, self.crud.forms, m);
            }
        } else if let Some(f) = form {
            let field = if eq_ignore_case(&el.tag, "input") || eq_ignore_case(&el.tag, "select")
                || eq_ignore_case(&el.tag, "textarea") {
                Some(field_model(el, n))
            } else {
                None
            };
            let submit = eq_ignore_case(&el.tag, "button") && has_attr_value(
                &el.attrs,
                "type",
                "submit",
            );
            self.grow_form(f, field, submit);
        }
        let mut this_table = table;
        if eq_ignore_case(&el.tag, "table") {
            this_table = Some(self.crud.tables.len());
            let m = TableModel { var: var_string(n), row_count: 0 };
            self.crud.tables.push(m);
            proof {
                lemma_deep_push(e0.crud.tables, self.crud.tables, m);
            }
        } else if eq_ignore_case(&el.tag, "tr") {
            if let Some(k) = table {
                let rows: usize = self.crud.tables[k].row_count;
                self.crud.tables[k].row_count = rows + 1;
                assert(self.crud.tables.deep_view() =~= grown_tables(
                    e0.crud.tables.deep_view(),
                    table,
                    1,
                ));
            }
        }
        if eq_ignore_case(&el.tag, "canvas") || eq_ignore_case(&el.tag, "svg") {
            let m = chart_model(el, n);
            self.dataviz.charts.push(m);
            proof {
                lemma_deep_push(e0.dataviz.charts, self.dataviz.charts, m);
            }
            assert(self.dataviz.charts.deep_view() =~= e0.dataviz.charts.deep_view() + charts_at(
                (n as nat, t),
            ));
        } else {
            assert(e0.dataviz.charts.deep_view() + charts_at((n as nat, t))
                =~= e0.dataviz.charts.deep_view());
        }
        if eq_ignore_case(&el.tag, "video") || eq_ignore_case(&el.tag, "audio") {
            let m = player_model(el, n);
            self.media.players.push(m);
            proof {
                lemma_deep_push(e0.media.players, self.media.players, m);
            }
            assert(self.media.players.deep_view() =~= e0.media.players.deep_view() + players_at(
                (n as nat, t),
            ));
        } else {
            assert(e0.media.players.deep_view() + players_at((n as nat, t))
                =~= e0.media.players.deep_view());
        }
        self.emit_attrs(el, n);
        (this_form, this_table)
    }
}

impl Emitter {
    /// Emits what hangs element `n` below its parent.
    fn emit_append(&mut self, parent: Option<usize>, n: usize)
        ensures
            final(self).ops.deep_view() == old(self).ops.deep_view() + append_op(
                opt_nat(parent),
                n as nat,
            ),
            *final(self) == (Emitter { ops: final(self).ops, ..*old(self) }),
    {
        let ghost before = self.ops.deep_view();
        if let Some(p) = parent {
            self.push_op(DomOp::Append { parent: var_string(p), child: var_string(n) });
            assert(self.ops.deep_view() =~= before + append_op(opt_nat(parent), n as nat));
        } else {
            assert(before + append_op(opt_nat(parent), n as nat) =~= before);
        }
    }

    /// Emits a text run, carried by a `span`.
    fn emit_text(
        &mut self,
        text: &String,
        media: Ghost<bool>,
        parent: Option<usize>,
        form: Option<usize>,
        table: Option<usize>,
    )
        requires
            old(self).wf(),
            old(self).counter < usize::MAX,
            index_in(form, old(self).crud.forms@.len()),
            index_in(table, old(self).crud.tables@.len()),
        ensures
            final(self).wf(),
            final(self).extends(
                *old(self),
                node_delta(
                    Tree::Text(text@),
                    media@,
                    opt_nat(parent),
                    old(self).counter as nat,
                    old(self).handler_counter as nat,
                ),
                form,
                table,
            ),
    {
        let ghost e0 = *self;
        let n = self.next_var();
        self.push_op(DomOp::Create { var: var_string(n), tag: String::from_str("span") });
        self.push_op(DomOp::Text { var: var_string(n), text: text.clone() });
        self.emit_append(parent, n);
        proof {
            let d = node_delta(
                Tree::Text(text@),
                media@,
                opt_nat(parent),
                e0.counter as nat,
                e0.handler_counter as nat,
            );
            lemma_extends_none(e0, media@, opt_nat(parent), form, table);
            let z = forest_delta(
                Seq::empty(),
                media@,
                opt_nat(parent),
                e0.counter as nat,
                e0.handler_counter as nat,
            );
            assert(z.elements =~= d.elements && z.fields =~= d.fields);
            assert(self.ops.deep_view() =~= e0.ops.deep_view() + d.ops);
        }
    }

    /// Emits an element: its creation, its attributes, its content, and what hangs it below its
    /// parent.
    fn emit_element(
        &mut self,
        el: &Element,
        media: Ghost<bool>,
        parent: Option<usize>,
        form: Option<usize>,
        table: Option<usize>,
    )
        requires
            old(self).wf(),
            !(media@ && folded(tree_of(Node::Element(*el)))),
            old(self).counter + node_vars(tree_of(Node::Element(*el)), media@) <= usize::MAX,
            old(self).handler_counter + node_handlers(tree_of(Node::Element(*el)), media@)
                <= u64::MAX,
            index_in(form, old(self).crud.forms@.len()),
            index_in(table, old(self).crud.tables@.len()),
        ensures
            final(self).wf(),
            final(self).extends(
                *old(self),
                node_delta(
                    tree_of(Node::Element(*el)),
                    media@,
                    opt_nat(parent),
                    old(self).counter as nat,
                    old(self).handler_counter as nat,
                ),
                form,
                table,
            ),
        decreases el, 0nat,
    {
        let ghost e0 = *self;
        let ghost children = forest_of(el.children@);
        let n = self.next_var();
        self.push_op(DomOp::Create { var: var_string(n), tag: el.tag.clone() });
        let ghost created = *self;
        let forms_len = self.crud.forms.len();
        let tables_len = self.crud.tables.len();
        let (this_form, this_table) = self.declare(el, n, form, table);
        let ghost e1 = *self;
        let ghost content = content_delta(*el, n, e1.handler_counter as nat);
        match only_text(el) {
            Some(text) => {
                self.push_op(DomOp::Text { var: var_string(n), text });
                proof {
                    lemma_extends_none(e1, false, None, this_form, this_table);
                    let z = forest_delta(
                        Seq::empty(),
                        false,
                        None,
                        e1.counter as nat,
                        e1.handler_counter as nat,
                    );
                    assert(z.elements =~= content.elements && z.fields =~= content.fields);
                    assert(self.ops.deep_view() =~= e1.ops.deep_view() + content.ops);
                }
            },
            None => {
                let is_media = eq_ignore_case(&el.tag, "video") || eq_ignore_case(&el.tag, "audio");
                self.emit(&el.children, is_media, Some(n), this_form, this_table);
            },
        }
        let ghost e2 = *self;
        self.emit_append(parent, n);
        proof {
            lemma_element_delta(
                e0,
                created,
                e1,
                e2,
                *self,
                *el,
                media@,
                n,
                parent,
                content,
                form,
                table,
                this_form,
                this_table,
            );
        }
    }

    /// Emits a forest below `parent`, inside form `form` and table `table`.
    fn emit(
        &mut self,
        nodes: &Vec<Node>,
        media: bool,
        parent: Option<usize>,
        form: Option<usize>,
        table: Option<usize>,
    )
        requires
            old(self).wf(),
            old(self).counter + forest_vars(forest_of(nodes@), media) <= usize::MAX,
            old(self).handler_counter + forest_handlers(forest_of(nodes@), media) <= u64::MAX,
            index_in(form, old(self).crud.forms@.len()),
            index_in(table, old(self).crud.tables@.len()),
        ensures
            final(self).wf(),
            final(self).extends(
                *old(self),
                forest_delta(
                    forest_of(nodes@),
                    media,
                    opt_nat(parent),
                    old(self).counter as nat,
                    old(self).handler_counter as nat,
                ),
                form,
                table,
            ),
        decreases nodes,
    {
        let ghost e0 = *self;
        let ghost f = forest_of(nodes@);
        let ghost p = opt_nat(parent);
        let ghost c = self.counter as nat;
        let ghost h = self.handler_counter as nat;
        proof {
            lemma_extends_none(e0, media, p, form, table);
            assert(nodes@.take(0) =~= Seq::<Node>::empty());
        }
        let mut i: usize = 0;
        while i < nodes.len()
            invariant
                0 <= i <= nodes@.len(),
                f == forest_of(nodes@),
                p == opt_nat(parent),
                c == e0.counter,
                h == e0.handler_counter,
                c + forest_vars(f, media) <= usize::MAX,
                h + forest_handlers(f, media) <= u64::MAX,
                index_in(form, e0.crud.forms@.len()),
                index_in(table, e0.crud.tables@.len()),
                self.wf(),
                self.extends(
                    e0,
                    forest_delta(forest_of(nodes@.take(i as int)), media, p, c, h),
                    form,
                    table,
                ),
            decreases nodes@.len() - i,
        {
            let ghost ei = *self;
            let ghost fi = forest_of(nodes@.take(i as int));
            let ghost t = tree_of(nodes@[i as int]);
            let ghost d1 = forest_delta(fi, media, p, c, h);
            let ghost d2 = node_delta(t, media, p, ei.counter as nat, ei.handler_counter as nat);
            proof {
                lemma_forest_step(nodes@, i as int);
                lemma_forest_delta(fi, t, media, p, c, h);
                lemma_forest_of(nodes@);
                lemma_take_bounds(f, i + 1, media);
                assert(f.take(i + 1) =~= forest_of(nodes@.take(i + 1))) by {
                    lemma_forest_of(nodes@.take(i + 1));
                }
                assert(fi.push(t).drop_last() =~= fi);
                assert(e0.crud.forms.deep_view().len() == e0.crud.forms@.len());
                assert(ei.crud.forms.deep_view().len() == ei.crud.forms@.len());
                assert(e0.crud.tables.deep_view().len() == e0.crud.tables@.len());
                assert(ei.crud.tables.deep_view().len() == ei.crud.tables@.len());
            }
            if media && is_folded(&nodes[i]) {
                proof {
                    lemma_folded(t);
                    lemma_extends_none(ei, media, p, form, table);
                    let z = forest_delta(
                        Seq::empty(),
                        media,
                        p,
                        ei.counter as nat,
                        ei.handler_counter as nat,
                    );
                    assert(z.ops =~= d2.ops && z.elements =~= d2.elements && z.fields
                        =~= d2.fields);
                    assert(z == d2);
                }
            } else {
                match &nodes[i] {
                    Node::Element(el) => {
                        self.emit_element(el, Ghost(media), parent, form, table);
                    },
                    Node::Text(text) => {
                        self.emit_text(text, Ghost(media), parent, form, table);
                    },
                }
            }
            proof {
                lemma_extends(e0, ei, *self, d1, d2, form, table);
            }
            i = i + 1;
        }
        assert(nodes@.take(nodes@.len() as int) =~= nodes@);
    }
}

/// `after` is `before` once the element that took variable `n` has been declared.
spec fn declared(
    before: Emitter,
    after: Emitter,
    el: Element,
    n: usize,
    form: Option<usize>,
    table: Option<usize>,
    this_form: Option<usize>,
    this_table: Option<usize>,
) -> bool {
    let t = tree_of(Node::Element(el));
    let attrs = el.attrs.deep_view();
    &&& after.counter == before.counter
    &&& after.handler_counter == before.handler_counter + handler_count(attrs)
    &&& after.ops.deep_view() == before.ops.deep_view() + attr_ops(
        attrs,
        n as nat,
        before.handler_counter as nat,
    )
    &&& after.dataviz.charts.deep_view() == before.dataviz.charts.deep_view() + charts_at(
        (n as nat, t),
    )
    &&& after.media.players.deep_view() == before.media.players.deep_view() + players_at(
        (n as nat, t),
    )
    &&& if is_tag(el.tag@, "form"@) {
        &&& this_form == Some(before.crud.forms@.len() as usize)
        &&& after.crud.forms.deep_view() == before.crud.forms.deep_view().push(
            FormView {
                var: var_name(n as nat),
                fields: Seq::empty(),
                has_submit: first_attr(attrs, "onsubmit"@) is Some,
            },
        )
    } else {
        &&& this_form == form
        &&& after.crud.forms.deep_view() == grown_forms(
            before.crud.forms.deep_view(),
            form,
            own_fields(el.tag@, attrs, n as nat),
            own_submit(el.tag@, attrs),
        )
    }
    &&& if is_tag(el.tag@, "table"@) {
        &&& this_table == Some(before.crud.tables@.len() as usize)
        &&& after.crud.tables.deep_view() == before.crud.tables.deep_view().push(
            TableView { var: var_name(n as nat), row_count: 0 },
        )
    } else {
        &&& this_table == table
        &&& after.crud.tables.deep_view() == grown_tables(
            before.crud.tables.deep_view(),
            table,
            own_rows(el.tag@),
        )
    }
}

/// Creating an element, declaring it, emitting its content and hanging it below its parent adds
/// what the element adds.
#[verifier::rlimit(30)]
proof fn lemma_element_delta(
    e0: Emitter,
    created: Emitter,
    e1: Emitter,
    e2: Emitter,
    e3: Emitter,
    el: Element,
    media: bool,
    n: usize,
    parent: Option<usize>,
    content: Delta,
    form: Option<usize>,
    table: Option<usize>,
    this_form: Option<usize>,
    this_table: Option<usize>,
)
    requires
        !(media && folded(tree_of(Node::Element(el)))),
        n == e0.counter,
        created.ops.deep_view() == e0.ops.deep_view().push(
            OpView::Create { var: var_name(n as nat), tag: el.tag@ },
        ),
        created == (Emitter { ops: created.ops, counter: created.counter, ..e0 }),
        created.counter == e0.counter + 1,
        index_in(form, e0.crud.forms@.len()),
        index_in(table, e0.crud.tables@.len()),
        e0.crud.forms@.len() <= usize::MAX,
        e0.crud.tables@.len() <= usize::MAX,
        declared(created, e1, el, n, form, table, this_form, this_table),
        e2.extends(e1, content, this_form, this_table),
        content == content_delta(el, n, e1.handler_counter as nat),
        e3.ops.deep_view() == e2.ops.deep_view() + append_op(opt_nat(parent), n as nat),
        e3 == (Emitter { ops: e3.ops, ..e2 }),
    ensures
        e3.extends(
            e0,
            node_delta(
                tree_of(Node::Element(el)),
                media,
                opt_nat(parent),
                n as nat,
                e0.handler_counter as nat,
            ),
            form,
            table,
        ),
{
    let t = tree_of(Node::Element(el));
    let tag = el.tag@;
    let attrs = el.attrs.deep_view();
    let children = forest_of(el.children@);
    let d = node_delta(t, media, opt_nat(parent), n as nat, e0.handler_counter as nat);
    let e = (n as nat, t);
    lemma_in_one(e);
    lemma_in_add(seq![e], content.elements);
    if text_leaf(children) {
        lemma_text_leaf(children, media_tag(tag), (n + 1) as nat);
    }
    assert(d.elements =~= seq![e] + content.elements);
    let forms0 = e0.crud.forms.deep_view();
    let tables0 = e0.crud.tables.deep_view();
    lemma_tags_differ(tag);
    assert(e3.ops.deep_view() =~= e0.ops.deep_view() + d.ops);
    assert(e3.dataviz.charts.deep_view() =~= e0.dataviz.charts.deep_view() + charts_in(
        d.elements,
    ));
    assert(e3.media.players.deep_view() =~= e0.media.players.deep_view() + players_in(d.elements));
    assert(e3.crud.forms.deep_view() == grown_forms(forms0, form, d.fields, d.submits) + forms_in(
        d.elements,
    )) by {
        if is_tag(tag, "form"@) {
            let f = FormView {
                var: var_name(n as nat),
                fields: Seq::empty(),
                has_submit: first_attr(attrs, "onsubmit"@) is Some,
            };
            lemma_new_form(forms0, f, content.fields, content.submits, forms_in(content.elements));
            lemma_grown_forms(
                forms0,
                form,
                Seq::empty(),
                false,
                Seq::empty(),
                Seq::empty(),
                false,
            );
        } else {
            lemma_grown_forms(
                forms0,
                form,
                own_fields(tag, attrs, n as nat),
                own_submit(tag, attrs),
                Seq::empty(),
                content.fields,
                content.submits,
            );
            let g = grown_forms(
                forms0,
                form,
                own_fields(tag, attrs, n as nat),
                own_submit(tag, attrs),
            );
            assert(g + Seq::<FormView>::empty() =~= g);
            let g2 = grown_forms(forms0, form, d.fields, d.submits);
            assert(g2 + Seq::<FormView>::empty() =~= g2);
            assert(forms_at(e) + forms_in(content.elements) =~= forms_in(content.elements));
        }
    }
    assert(e3.crud.tables.deep_view() == grown_tables(tables0, table, d.rows) + tables_in(
        d.elements,
    )) by {
        if is_tag(tag, "table"@) {
            lemma_new_table(
                tables0,
                TableView { var: var_name(n as nat), row_count: 0 },
                content.rows,
                tables_in(content.elements),
            );
            lemma_grown_tables(tables0, table, 0, Seq::empty(), 0);
        } else {
            lemma_grown_tables(tables0, table, own_rows(tag), Seq::empty(), content.rows);
            let g = grown_tables(tables0, table, own_rows(tag));
            assert(g + Seq::<TableView>::empty() =~= g);
            let g2 = grown_tables(tables0, table, d.rows);
            assert(g2 + Seq::<TableView>::empty() =~= g2);
            assert(tables_at(e) + tables_in(content.elements) =~= tables_in(content.elements));
        }
    }
}

/// What the content of an element adds.
spec fn content_delta(el: Element, n: usize, h: nat) -> Delta {
    let children = forest_of(el.children@);
    if text_leaf(children) {
        Delta {
            ops: seq![OpView::Text { var: var_name(n as nat), text: children[0]->Text_0 }],
            vars: 0,
            handlers: 0,
            elements: Seq::empty(),
            fields: Seq::empty(),
            submits: false,
            rows: 0,
        }
    } else {
        forest_delta(children, media_tag(el.tag@), Some(n as nat), (n + 1) as nat, h)
    }
}

/// A prefix of a forest takes no more variables and handlers than all of it.
proof fn lemma_take_bounds(f: Seq<Tree>, k: int, media: bool)
    requires
        0 <= k <= f.len(),
    ensures
        forest_vars(f.take(k), media) <= forest_vars(f, media),
        forest_handlers(f.take(k), media) <= forest_handlers(f, media),
    decreases f.len(),
{
    if k == f.len() {
        assert(f.take(k) =~= f);
    } else {
        assert(f.drop_last().take(k) =~= f.take(k));
        lemma_take_bounds(f.drop_last(), k, media);
    }
}

/// Text with backslashes and quotes escaped.
pub fn rust_escape(text: &str) -> (s: String)
    ensures
        s@ == escaped(text@),
{
    let v = chars_of(text);
    let mut s = String::new();
    let mut i: usize = 0;
    assert(v@.take(0) =~= Seq::<char>::empty());
    while i < v.len()
        invariant
            0 <= i <= v@.len(),
            s@ == escaped(v@.take(i as int)),
        decreases v@.len() - i,
    {
        assert(v@.take(i + 1).drop_last() =~= v@.take(i as int));
        let ghost before = s@;
        let c: char = v[i];
        if c == '\\' || c == '"' {
            s.push('\\');
            s.push(c);
            assert(s@ =~= before + seq!['\\', c]);
        } else {
            s.push(c);
        }
        i = i + 1;
    }
    assert(v@.take(v@.len() as int) =~= v@);
    s
}

/// Appends a line that calls a function on a variable and one string.
fn push_line(s: &mut String, op: &DomOp)
    ensures
        final(s)@ == old(s)@ + op_line(op.deep_view()),
{
    let ghost before = s@;
    match op {
        DomOp::Create { var, tag } => {
            s.append("    let ");
            s.append(var);
            s.append(" = dom::create_element(&\"");
            s.append(&rust_escape(tag));
            s.append("\");\n");
        },
        DomOp::Text { var, text } => {
            s.append("    dom::set_text(");
            s.append(var);
            s.append(", &\"");
            s.append(&rust_escape(text));
            s.append("\");\n");
        },
        DomOp::Attr { var, name, value } => {
            s.append("    dom::set_attribute(");
            s.append(var);
            s.append(", &\"");
            s.append(&rust_escape(name));
            s.append("\", &\"");
            s.append(&rust_escape(value));
            s.append("\");\n");
        },
        DomOp::Append { parent, child } => {
            s.append("    dom::append_child(");
            s.append(parent);
            s.append(", ");
            s.append(child);
            s.append(");\n");
        },
        DomOp::OnClick { var, handler } => {
            push_handler_line(s, "    dom::on_click(", var, *handler);
        },
        DomOp::OnSubmit { var, handler } => {
            push_handler_line(s, "    dom::on_submit(", var, *handler);
        },
        DomOp::OnChange { var, handler } => {
            push_handler_line(s, "    dom::on_change(", var, *handler);
        },
        DomOp::OnInput { var, handler } => {
            push_handler_line(s, "    dom::on_input(", var, *handler);
        },
        DomOp::OnPlay { var, handler } => {
            push_handler_line(s, "    dom::on_play(", var, *handler);
        },
        DomOp::OnPause { var, handler } => {
            push_handler_line(s, "    dom::on_pause(", var, *handler);
        },
        DomOp::OnEnded { var, handler } => {
            push_handler_line(s, "    dom::on_ended(", var, *handler);
        },
    }
    assert(s@ =~= before + op_line(op.deep_view()));
}

/// Appends a line that binds a handler.
fn push_handler_line(s: &mut String, call: &str, var: &String, handler: u64)
    ensures
        final(s)@ == old(s)@ + (call@ + var@ + ", "@ + dec(handler as nat) + ");\n"@),
{
    let ghost before = s@;
    s.append(call);
    s.append(var);
    s.append(", ");
    s.append(&decimal(handler));
    s.append(");\n");
    assert(s@ =~= before + (call@ + var@ + ", "@ + dec(handler as nat) + ");\n"@));
}

impl Emitter {
    fn generate_rust(&self) -> (s: String)
        ensures
            s@ == guest_source(self.ops.deep_view()),
    {
        let ghost all = self.ops.deep_view();
        let mut s = String::from_str(
            "wit_bindgen::generate!({\n    world: \"helix-guest\",\n    path: \"../helix-wit/wit\",\n});\n\n#[unsafe(no_mangle)]\npub extern \"C\" fn run() {\n    use helix::runtime::dom;\n",
        );
        let mut i: usize = 0;
        assert(all.take(0) =~= Seq::<OpView>::empty());
        assert(s@ =~= guest_head() + op_lines(all.take(0)));
        while i < self.ops.len()
            invariant
                0 <= i <= self.ops@.len(),
                all == self.ops.deep_view(),
                s@ == guest_head() + op_lines(all.take(i as int)),
            decreases self.ops@.len() - i,
        {
            assert(all.take(i + 1).drop_last() =~= all.take(i as int));
            assert(all.take(i + 1).last() == self.ops@[i as int].deep_view());
            push_line(&mut s, &self.ops[i]);
            assert(s@ =~= guest_head() + op_lines(all.take(i + 1)));
            i = i + 1;
        }
        assert(all.take(all.len() as int) =~= all);
        s.append("}\n");
        s
    }
}

/// The full transpilation output for one document.
#[derive(Debug, Clone, PartialEq, Eq)]
pub struct TranspiledSite {
    /// Ordered DOM operations rebuilding the page.
    pub ops: Vec<DomOp>,
    /// Generated guest Rust source.
    pub rust_source: String,
    /// Generated `world` the guest is built from.
    pub wit_world: String,
    /// Forms and tables of the document.
    pub crud: CrudModel,
    /// Charts of the document.
    pub dataviz: DataVizModel,
    /// Players of the document.
    pub media: MediaModel,
}

/// The operations that rebuild a document.
pub open spec fn site_ops(html: Seq<char>) -> Seq<OpView> {
    forest_ops(document(html), false, None, 0, 0)
}

/// The elements of a document, each with its variable's number.
pub open spec fn site_elements(html: Seq<char>) -> Seq<(nat, Tree)> {
    forest_elements(document(html), false, 0)
}

impl TranspiledSite {
    /// The output is what the document stands for.
    pub open spec fn renders(self, html: Seq<char>) -> bool {
        &&& self.ops.deep_view() == site_ops(html)
        &&& self.rust_source@ == guest_source(site_ops(html))
        &&& self.wit_world@ == guest_world()
        &&& self.crud.forms.deep_view() == forms_in(site_elements(html))
        &&& self.crud.tables.deep_view() == tables_in(site_elements(html))
        &&& self.dataviz.charts.deep_view() == charts_in(site_elements(html))
        &&& self.media.players.deep_view() == players_in(site_elements(html))
    }
}

/// Transpile an HTML document into a guest component, capturing any structure it declares.
fn transpile_html(html: &str) -> (site: TranspiledSite)
    ensures
        site.renders(html@),
{
    let len = chars_of(html).len();
    let nodes = parse_html(html);
    let mut e = Emitter {
        ops: Vec::new(),
        counter: 0,
        handler_counter: 0,
        crud: CrudModel { forms: Vec::new(), tables: Vec::new() },
        dataviz: DataVizModel { charts: Vec::new() },
        media: MediaModel { players: Vec::new() },
    };
    let ghost e0 = e;
    proof {
        lemma_parse_weight(html@, 0, None);
        lemma_parse_from(html@, 0, None);
        lemma_forest_bounds(document(html@), false);
    }
    e.emit(&nodes, false, None, None, None);
    proof {
        let d = forest_delta(document(html@), false, None, 0, 0);
        assert(e0.ops.deep_view() + d.ops =~= d.ops);
        assert(e0.crud.forms.deep_view() + forms_in(d.elements) =~= forms_in(d.elements));
        assert(e0.crud.tables.deep_view() + tables_in(d.elements) =~= tables_in(d.elements));
        assert(e0.dataviz.charts.deep_view() + charts_in(d.elements) =~= charts_in(d.elements));
        assert(e0.media.players.deep_view() + players_in(d.elements) =~= players_in(d.elements));
    }
    let rust_source = e.generate_rust();
    let wit_world = String::from_str(
        "world helix-guest {\n    import dom;\n    export run: func();\n}\n",
    );
    TranspiledSite {
        ops: e.ops,
        rust_source,
        wit_world,
        crud: e.crud,
        dataviz: e.dataviz,
        media: e.media,
    }
}

/// Transpile a static HTML document into a guest component.
pub fn transpile_static_site(html: &str) -> (site: TranspiledSite)
    ensures
        site.renders(html@),
{
    transpile_html(html)
}

/// Transpile a form-based dashboard: its form fields, handlers and entity listings are captured.
pub fn transpile_form_app(html: &str) -> (site: TranspiledSite)
    ensures
        site.renders(html@),
{
    transpile_html(html)
}

/// Transpile a data-visualisation document: every chart mount is recorded with its `id`, its pixel
/// size and its `data-*` series.
pub fn transpile_data_viz(html: &str) -> (site: TranspiledSite)
    ensures
        site.renders(html@),
{
    transpile_html(html)
}

/// Transpile a media-player document: every player records its `src`, its hints and its alternate
/// streams.
pub fn transpile_media_player(html: &str) -> (site: TranspiledSite)
    ensures
        site.renders(html@),
{
    transpile_html(html)
}

/// The (form, field) variable pairs of a list of forms.
pub open spec fn bindings_of(forms: Seq<FormView>) -> Seq<(Seq<char>, Seq<char>)>
    decreases forms.len(),
{
    if forms.len() == 0 {
        Seq::empty()
    } else {
        bindings_of(forms.drop_last()) + forms.last().fields.map_values(
            |f: FieldView| (forms.last().var, f.var),
        )
    }
}

impl CrudModel {
    /// Every (form var, field var) binding discovered.
    pub fn field_bindings(&self) -> (out: Vec<(String, String)>)
        ensures
            out.deep_view() == bindings_of(self.forms.deep_view()),
    {
        let ghost all = self.forms.deep_view();
        let mut out: Vec<(String, String)> = Vec::new();
        let mut i: usize = 0;
        assert(all.take(0) =~= Seq::<FormView>::empty());
        assert(out.deep_view() =~= bindings_of(all.take(0)));
        while i < self.forms.len()
            invariant
                0 <= i <= self.forms@.len(),
                all == self.forms.deep_view(),
                out.deep_view() == bindings_of(all.take(i as int)),
            decreases self.forms@.len() - i,
        {
            let form = &self.forms[i];
            let ghost fields = form.fields.deep_view();
            let ghost before = out.deep_view();
            let ghost pair = |f: FieldView| (form.var@, f.var);
            let mut j: usize = 0;
            assert(before + fields.take(0).map_values(pair) =~= before);
            while j < form.fields.len()
                invariant
                    0 <= j <= form.fields@.len(),
                    fields == form.fields.deep_view(),
                    pair == (|f: FieldView| (form.var@, f.var)),
                    out.deep_view() == before + fields.take(j as int).map_values(pair),
                decreases form.fields@.len() - j,
            {
                let ghost was = out;
                let p = (form.var.clone(), form.fields[j].var.clone());
                out.push(p);
                proof {
                    lemma_deep_push(was, out, p);
                }
                assert(fields.take(j + 1).map_values(pair) =~= fields.take(j as int).map_values(
                    pair,
                ).push((form.var@, fields[j as int].var)));
                j = j + 1;
            }
            assert(fields.take(fields.len() as int) =~= fields);
            assert(all.take(i + 1).drop_last() =~= all.take(i as int));
            assert(all.take(i + 1).last() == form.deep_view());
            assert(fields.map_values(pair) =~= form.deep_view().fields.map_values(
                |f: FieldView| (form.deep_view().var, f.var),
            ));
            i = i + 1;
        }
        assert(all.take(all.len() as int) =~= all);
        out
    }

    /// Whether no form and no table was detected.
    pub fn is_empty(&self) -> (b: bool)
        ensures
            b == (self.forms@.len() == 0 && self.tables@.len() == 0),
    {
        self.forms.len() == 0 && self.tables.len() == 0
    }
}

impl DataVizModel {
    /// Whether no chart was detected.
    pub fn is_empty(&self) -> (b: bool)
        ensures
            b == (self.charts@.len() == 0),
    {
        self.charts.len() == 0
    }
}

impl MediaModel {
    /// Whether no player was detected.
    pub fn is_empty(&self) -> (b: bool)
        ensures
            b == (self.players@.len() == 0),
    {
        self.players.len() == 0
    }
}

} // verus!
