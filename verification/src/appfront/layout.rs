//! What each node of a document becomes in the layout tree: its box, what is painted for it, and
//! the color that its text inherits.
//!
//! A [`HelixDocument`] keeps its source and the rules of its `<style>` blocks. Its plan lists the
//! boxes of the layout tree in document order, each with its depth; the layout engine places them,
//! and what is painted comes out in the same order.
use crate::appfront::css::{
    channels, element_props, extract_style_blocks, parse_stylesheet, resolve_element_props,
    sheet_rules, style_blocks, DisplayKind, FlexDir, Length, LengthView, PropsView, Rgba, RuleView,
    Selector, StyleProps,
};
use crate::runtime::html::{
    html_listing, is_parseable, parse_html, parseable, DataView, HtmlData, HtmlDocument, NodeView,
};
use crate::strings::{
    chars_of, lower_seq, lower_string, split_words, str_eq, string_of, texts, trim, trimmed, words,
};
use vstd::prelude::*;
use vstd::string::*;

verus! {

/// Tags that default to block-level formatting if no `display` is set.
pub open spec fn block_tag(t: Seq<char>) -> bool {
    ||| t == "html"@
    ||| t == "body"@
    ||| t == "div"@
    ||| t == "p"@
    ||| t == "h1"@
    ||| t == "h2"@
    ||| t == "h3"@
    ||| t == "h4"@
    ||| t == "h5"@
    ||| t == "h6"@
    ||| t == "ul"@
    ||| t == "ol"@
    ||| t == "li"@
    ||| t == "header"@
    ||| t == "footer"@
    ||| t == "main"@
    ||| t == "section"@
    ||| t == "article"@
    ||| t == "nav"@
    ||| t == "blockquote"@
    ||| t == "pre"@
}

fn is_block_tag(t: &str) -> (b: bool)
    ensures
        b == block_tag(t@),
{
    str_eq(t, "html") || str_eq(t, "body") || str_eq(t, "div") || str_eq(t, "p") || str_eq(t, "h1")
        || str_eq(t, "h2") || str_eq(t, "h3") || str_eq(t, "h4") || str_eq(t, "h5") || str_eq(
        t,
        "h6",
    ) || str_eq(t, "ul") || str_eq(t, "ol") || str_eq(t, "li") || str_eq(t, "header") || str_eq(
        t,
        "footer",
    ) || str_eq(t, "main") || str_eq(t, "section") || str_eq(t, "article") || str_eq(t, "nav")
        || str_eq(t, "blockquote") || str_eq(t, "pre")
}

/// How far a box extends.
#[derive(Debug, Clone, PartialEq, Eq)]
pub enum Extent {
    /// As its contents ask for.
    Auto,
    /// As far as its container does.
    Full,
    Given(Length),
}

/// The mathematical form of an extent.
pub enum ExtentView {
    Auto,
    Full,
    Given(LengthView),
}

impl DeepView for Extent {
    type V = ExtentView;

    open spec fn deep_view(&self) -> ExtentView {
        match *self {
            Extent::Auto => ExtentView::Auto,
            Extent::Full => ExtentView::Full,
            Extent::Given(l) => ExtentView::Given(l.deep_view()),
        }
    }
}

/// The box of an element: laid out as a block or in flex fashion.
#[derive(Debug, Clone, PartialEq, Eq)]
pub struct ElementStyle {
    pub flex: bool,
    pub flex_direction: Option<FlexDir>,
    pub width: Extent,
    pub height: Extent,
    pub padding: Option<Length>,
    pub margin: Option<Length>,
}

/// The mathematical form of an element's box.
pub struct BoxView {
    pub flex: bool,
    pub flex_direction: Option<FlexDir>,
    pub width: ExtentView,
    pub height: ExtentView,
    pub padding: Option<LengthView>,
    pub margin: Option<LengthView>,
}

impl DeepView for ElementStyle {
    type V = BoxView;

    open spec fn deep_view(&self) -> BoxView {
        BoxView {
            flex: self.flex,
            flex_direction: self.flex_direction,
            width: self.width.deep_view(),
            height: self.height.deep_view(),
            padding: self.padding.deep_view(),
            margin: self.margin.deep_view(),
        }
    }
}

/// The box that properties give: a grid is laid out in flex fashion, and a block without a width
/// fills its container.
pub open spec fn box_of(p: PropsView, block: bool) -> BoxView {
    BoxView {
        flex: match p.display {
            Some(DisplayKind::Block) => false,
            Some(DisplayKind::Flex) => true,
            Some(DisplayKind::Grid) => true,
            None => !block,
        },
        flex_direction: p.flex_direction,
        width: match p.width {
            Some(w) => ExtentView::Given(w),
            None => if block {
                ExtentView::Full
            } else {
                ExtentView::Auto
            },
        },
        height: match p.height {
            Some(h) => ExtentView::Given(h),
            None => ExtentView::Auto,
        },
        padding: p.padding,
        margin: p.margin,
    }
}

fn copy_length(l: &Option<Length>) -> (r: Option<Length>)
    ensures
        r.deep_view() == l.deep_view(),
{
    match l {
        Some(l) => Some(l.copy()),
        None => None,
    }
}

/// Maps resolved CSS props to the box of an element.
pub fn element_style(props: &StyleProps, is_block: bool) -> (r: ElementStyle)
    ensures
        r.deep_view() == box_of(props.deep_view(), is_block),
{
    let flex = match props.display {
        Some(DisplayKind::Block) => false,
        Some(DisplayKind::Flex) => true,
        Some(DisplayKind::Grid) => true,
        None => !is_block,
    };
    let width = match &props.width {
        Some(w) => Extent::Given(w.copy()),
        None => if is_block {
            Extent::Full
        } else {
            Extent::Auto
        },
    };
    let height = match &props.height {
        Some(h) => Extent::Given(h.copy()),
        None => Extent::Auto,
    };
    ElementStyle {
        flex,
        flex_direction: props.flex_direction,
        width,
        height,
        padding: copy_length(&props.padding),
        margin: copy_length(&props.margin),
    }
}

/// What is painted for an element.
#[derive(Debug, Clone, PartialEq, Eq)]
pub struct Paint {
    pub background: Option<Rgba>,
    pub border_color: Option<Rgba>,
    pub border_width: Option<Length>,
    pub radius: Option<Length>,
}

/// The mathematical form of what is painted.
pub struct PaintView {
    pub background: Option<Seq<u8>>,
    pub border_color: Option<Seq<u8>>,
    pub border_width: Option<LengthView>,
    pub radius: Option<LengthView>,
}

impl DeepView for Paint {
    type V = PaintView;

    open spec fn deep_view(&self) -> PaintView {
        PaintView {
            background: channels(self.background),
            border_color: channels(self.border_color),
            border_width: self.border_width.deep_view(),
            radius: self.radius.deep_view(),
        }
    }
}

/// What properties have painted.
pub open spec fn paint_of(p: PropsView) -> PaintView {
    PaintView {
        background: p.background,
        border_color: p.border_color,
        border_width: p.border_width,
        radius: p.radius,
    }
}

/// A box of the layout tree: an element, or a run of text with its color.
#[derive(Debug, Clone, PartialEq, Eq)]
pub enum PlanKind {
    Element(ElementStyle, Paint),
    Text(String),
}

/// A node of the layout tree, with its depth and its color.
#[derive(Debug, Clone, PartialEq, Eq)]
pub struct PlanNode {
    pub depth: usize,
    pub color: Rgba,
    pub kind: PlanKind,
}

/// The mathematical form of a box.
pub enum KindView {
    Element(BoxView, PaintView),
    Text(Seq<char>),
}

/// The mathematical form of a node of the layout tree.
pub struct PlanView {
    pub depth: usize,
    pub color: Seq<u8>,
    pub kind: KindView,
}

impl DeepView for PlanKind {
    type V = KindView;

    open spec fn deep_view(&self) -> KindView {
        match *self {
            PlanKind::Element(s, p) => KindView::Element(s.deep_view(), p.deep_view()),
            PlanKind::Text(t) => KindView::Text(t@),
        }
    }
}

impl DeepView for PlanNode {
    type V = PlanView;

    open spec fn deep_view(&self) -> PlanView {
        PlanView { depth: self.depth, color: self.color@, kind: self.kind.deep_view() }
    }
}

/// The classes that attributes list: the words of every `class`.
pub open spec fn classes_in(attrs: Seq<(Seq<char>, Seq<char>)>) -> Seq<Seq<char>>
    decreases attrs.len(),
{
    if attrs.len() == 0 {
        Seq::empty()
    } else {
        let front = classes_in(attrs.drop_last());
        if lower_seq(attrs.last().0) == "class"@ {
            front + words(attrs.last().1)
        } else {
            front
        }
    }
}

/// The inline style that attributes give: the last `style`.
pub open spec fn inline_in(attrs: Seq<(Seq<char>, Seq<char>)>) -> Seq<char>
    decreases attrs.len(),
{
    if attrs.len() == 0 {
        Seq::empty()
    } else if lower_seq(attrs.last().0) == "style"@ {
        attrs.last().1
    } else {
        inline_in(attrs.drop_last())
    }
}

/// The properties of a node: those of an element; text has none of its own.
pub open spec fn props_at(n: NodeView, sheet: Seq<RuleView>) -> PropsView {
    match n.1 {
        DataView::Tag { name, ns, attrs } => element_props(
            lower_seq(name),
            classes_in(attrs),
            sheet,
            inline_in(attrs),
        ),
        DataView::Run(_) => crate::appfront::css::no_props(),
    }
}

/// The place of the last node before `k` that stands above a depth: a parent, if there is one.
pub open spec fn above(nodes: Seq<NodeView>, k: int, depth: usize) -> Option<int>
    decreases k,
{
    if k <= 0 {
        None
    } else if nodes[k - 1].0 < depth {
        Some(k - 1)
    } else {
        above(nodes, k - 1, depth)
    }
}

proof fn lemma_above(nodes: Seq<NodeView>, k: int, depth: usize)
    ensures
        above(nodes, k, depth) matches Some(p) ==> 0 <= p < k,
    decreases k,
{
    if k > 0 && nodes[k - 1].0 >= depth {
        lemma_above(nodes, k - 1, depth);
    }
}

/// The color of a node: its own, else the one of its parent; black at the top.
pub open spec fn color_at(nodes: Seq<NodeView>, sheet: Seq<RuleView>, i: int) -> Seq<u8>
    decreases i,
    when 0 <= i
    via color_at_decreases
{
    match props_at(nodes[i], sheet).color {
        Some(c) => c,
        None => match above(nodes, i, nodes[i].0) {
            Some(p) => color_at(nodes, sheet, p),
            None => seq![0u8, 0, 0, 255],
        },
    }
}

#[via_fn]
proof fn color_at_decreases(nodes: Seq<NodeView>, sheet: Seq<RuleView>, i: int) {
    lemma_above(nodes, i, nodes[i].0);
}

/// What a node becomes: an element a box with its paint, text a run without the white space around
/// it, and white space nothing.
pub open spec fn kind_at(n: NodeView, sheet: Seq<RuleView>) -> Option<KindView> {
    match n.1 {
        DataView::Tag { name, ns, attrs } => {
            let p = props_at(n, sheet);
            let block = block_tag(lower_seq(name)) || p.display == Some(DisplayKind::Block);
            Some(KindView::Element(box_of(p, block), paint_of(p)))
        },
        DataView::Run(t) => if trim(t).len() == 0 {
            None
        } else {
            Some(KindView::Text(trim(t)))
        },
    }
}

/// The nodes of the layout tree for the first nodes of a document, in order.
pub open spec fn planned(nodes: Seq<NodeView>, sheet: Seq<RuleView>, n: int) -> Seq<PlanView>
    decreases n,
{
    if n <= 0 {
        Seq::empty()
    } else {
        let front = planned(nodes, sheet, n - 1);
        match kind_at(nodes[n - 1], sheet) {
            Some(kind) => front.push(
                PlanView {
                    depth: nodes[n - 1].0,
                    color: color_at(nodes, sheet, n - 1),
                    kind,
                },
            ),
            None => front,
        }
    }
}

fn read_attrs(attrs: &Vec<(String, String)>) -> (r: (Vec<String>, String))
    ensures
        r.0.deep_view() == classes_in(attrs.deep_view()),
        r.1@ == inline_in(attrs.deep_view()),
{
    let ghost all = attrs.deep_view();
    let mut classes: Vec<String> = Vec::new();
    let mut inline = String::new();
    let mut i: usize = 0;
    assert(all.take(0) =~= Seq::<(Seq<char>, Seq<char>)>::empty());
    assert(classes.deep_view() =~= Seq::<Seq<char>>::empty());
    assert(inline@ =~= Seq::<char>::empty());
    while i < attrs.len()
        invariant
            0 <= i <= attrs@.len(),
            all == attrs.deep_view(),
            classes.deep_view() == classes_in(all.take(i as int)),
            inline@ == inline_in(all.take(i as int)),
        decreases attrs@.len() - i,
    {
        assert(all.take(i + 1).drop_last() =~= all.take(i as int));
        assert(all.take(i + 1).last() == all[i as int]);
        let attr = &attrs[i];
        assert(all[i as int] == (attr.0@, attr.1@));
        let name = lower_string(&attr.0);
        if str_eq(&name, "class") {
            assert("class"@ != "style"@) by {
                reveal_strlit("class");
                reveal_strlit("style");
                assert("class"@[0] != "style"@[0]);
            }
            push_words(&mut classes, &attr.1);
        } else if str_eq(&name, "style") {
            inline = String::from_str(attr.1.as_str());
        }
        i = i + 1;
    }
    assert(all.take(all.len() as int) =~= all);
    (classes, inline)
}

fn push_words(out: &mut Vec<String>, text: &str)
    ensures
        final(out).deep_view() == old(out).deep_view() + words(text@),
{
    let ws = split_words(&chars_of(text));
    let ghost all = texts(ws@);
    let ghost was = out.deep_view();
    let mut i: usize = 0;
    assert(was + all.take(0) =~= was);
    while i < ws.len()
        invariant
            0 <= i <= ws@.len(),
            all == texts(ws@),
            out.deep_view() == was + all.take(i as int),
        decreases ws@.len() - i,
    {
        let ghost before = out.deep_view();
        out.push(string_of(&ws[i]));
        assert(out.deep_view() =~= before.push(all[i as int]));
        assert(was + all.take(i + 1) =~= before.push(all[i as int]));
        i = i + 1;
    }
    assert(all.take(all.len() as int) =~= all);
}

fn find_above(nodes: &Vec<(usize, HtmlData)>, i: usize) -> (r: Option<usize>)
    requires
        i < nodes@.len(),
    ensures
        match (r, above(nodes.deep_view(), i as int, nodes@[i as int].0)) {
            (Some(p), Some(q)) => p == q && p < i,
            (None, None) => true,
            _ => false,
        },
{
    let ghost all = nodes.deep_view();
    let depth = nodes[i].0;
    let mut k: usize = i;
    while k > 0
        invariant
            0 <= k <= i,
            i < nodes@.len(),
            all == nodes.deep_view(),
            depth == nodes@[i as int].0,
            above(all, i as int, depth) == above(all, k as int, depth),
        decreases k,
    {
        assert(all[k - 1].0 == nodes@[k - 1].0);
        if nodes[k - 1].0 < depth {
            return Some(k - 1);
        }
        k = k - 1;
    }
    None
}

/// A parsed Helix document ready to be laid out and rendered.
#[derive(Debug, Clone, PartialEq, Eq)]
pub struct HelixDocument {
    source: String,
    stylesheet: Vec<(Selector, StyleProps)>,
}

/// A document's layout tree, before it is laid out: its nodes in document order.
#[derive(Debug, Clone, PartialEq, Eq)]
pub struct BuiltTree {
    pub nodes: Vec<PlanNode>,
}

impl HelixDocument {
    /// The source of the document.
    pub closed spec fn source(&self) -> Seq<char> {
        self.source@
    }

    /// The rules of the document's `<style>` blocks.
    pub closed spec fn rules(&self) -> Seq<RuleView> {
        self.stylesheet.deep_view()
    }

    /// Parses `source`, extracting any `<style>` blocks for the stylesheet.
    pub fn parse(source: &str) -> (d: HelixDocument)
        ensures
            d.source() == source@,
            d.rules() == sheet_rules(style_blocks(source@, 0)),
    {
        let css_body = extract_style_blocks(source);
        let stylesheet = parse_stylesheet(&css_body);
        HelixDocument { source: String::from_str(source), stylesheet }
    }

    /// Builds the layout tree, where the source is not too long to be parsed.
    pub fn build(&self) -> (r: Option<BuiltTree>)
        ensures
            match r {
                Some(t) => parseable(self.source()) && t.nodes.deep_view()
                    == planned(
                    html_listing(self.source()),
                    self.rules(),
                    html_listing(self.source()).len() as int,
                ),
                None => !parseable(self.source()),
            },
    {
        if !is_parseable(&self.source) {
            return None;
        }
        let dom = parse_html(&self.source);
        Some(BuiltTree { nodes: self.plan(&dom) })
    }

    /// The nodes of the layout tree of a parsed document.
    pub fn plan(&self, dom: &HtmlDocument) -> (out: Vec<PlanNode>)
        ensures
            out.deep_view() == planned(dom@, self.rules(), dom@.len() as int),
    {
        let ghost all = dom@;
        let ghost sheet = self.rules();
        let n = dom.nodes.len();
        let mut out: Vec<PlanNode> = Vec::new();
        let mut colors: Vec<Rgba> = Vec::new();
        let mut i: usize = 0;
        assert(out.deep_view() =~= Seq::<PlanView>::empty());
        while i < n
            invariant
                0 <= i <= n,
                n == dom.nodes@.len(),
                all == dom@,
                sheet == self.rules(),
                colors@.len() == i,
                forall|k: int|
                    0 <= k < i ==> (#[trigger] colors@[k])@ == color_at(all, sheet, k),
                out.deep_view() == planned(all, sheet, i as int),
            decreases n - i,
        {
            let node = &dom.nodes[i];
            assert(all[i as int] == (node.0, node.1.deep_view()));
            let mut color: Rgba = [0, 0, 0, 255];
            assert(color@ =~= seq![0u8, 0, 0, 255]);
            if let Some(p) = find_above(&dom.nodes, i) {
                color = colors[p];
            }
            let (own, kind) = self.plan_node(node);
            if let Some(c) = own {
                color = c;
            }
            assert(color@ == color_at(all, sheet, i as int));
            colors.push(color);
            if let Some(kind) = kind {
                let ghost was = out.deep_view();
                out.push(PlanNode { depth: node.0, color, kind });
                assert(out.deep_view() =~= was.push(
                    PlanView { depth: node.0, color: color@, kind: kind.deep_view() },
                ));
            }
            i = i + 1;
        }
        out
    }

    /// What one node sets as its color, and what it becomes.
    fn plan_node(&self, node: &(usize, HtmlData)) -> (r: (Option<Rgba>, Option<PlanKind>))
        ensures
            channels(r.0) == props_at((node.0, node.1.deep_view()), self.rules()).color,
            r.1.deep_view() == kind_at((node.0, node.1.deep_view()), self.rules()),
    {
        match &node.1 {
            HtmlData::Tag(name, _, attrs) => {
                let tag = lower_string(name);
                let (classes, inline) = read_attrs(attrs);
                let props = resolve_element_props(&tag, &classes, &self.stylesheet, &inline);
                let is_block = is_block_tag(&tag) || match props.display {
                    Some(DisplayKind::Block) => true,
                    _ => false,
                };
                let paint = Paint {
                    background: props.background,
                    border_color: props.border_color,
                    border_width: copy_length(&props.border_width),
                    radius: copy_length(&props.radius),
                };
                (props.color, Some(PlanKind::Element(element_style(&props, is_block), paint)))
            },
            HtmlData::Run(text) => {
                let t = trimmed(&chars_of(text));
                if t.len() == 0 {
                    (None, None)
                } else {
                    (None, Some(PlanKind::Text(string_of(&t))))
                }
            },
        }
    }
}

impl BuiltTree {
    /// The number of nodes in the built tree: those of the plan, and the root above them.
    pub fn node_count(&self) -> (n: usize)
        requires
            self.nodes@.len() < usize::MAX,
        ensures
            n == self.nodes@.len() + 1,
    {
        self.nodes.len() + 1
    }
}

/// Text has the color of the nearest element around it that sets one: a node without a color of its
/// own has its parent's.
pub proof fn law_color_is_inherited(nodes: Seq<NodeView>, sheet: Seq<RuleView>, i: int, p: int)
    requires
        0 <= i < nodes.len(),
        above(nodes, i, nodes[i].0) == Some(p),
    ensures
        nodes[i].1 is Run ==> color_at(nodes, sheet, i) == color_at(nodes, sheet, p),
        props_at(nodes[i], sheet).color is None ==> color_at(nodes, sheet, i) == color_at(
            nodes,
            sheet,
            p,
        ),
        props_at(nodes[i], sheet).color matches Some(c) ==> color_at(nodes, sheet, i) == c,
{
    lemma_above(nodes, i, nodes[i].0);
}

/// Every element becomes a node, and so does every run of text that is not white space; nothing else
/// does, and the order is kept.
pub proof fn law_plan_keeps_order(nodes: Seq<NodeView>, sheet: Seq<RuleView>, i: int)
    requires
        0 <= i < nodes.len(),
    ensures
        planned(nodes, sheet, i).len() <= planned(nodes, sheet, nodes.len() as int).len(),
        planned(nodes, sheet, i) == planned(nodes, sheet, nodes.len() as int).take(
            planned(nodes, sheet, i).len() as int,
        ),
        kind_at(nodes[i], sheet) matches Some(kind) ==> {
            let k = planned(nodes, sheet, i).len() as int;
            let all = planned(nodes, sheet, nodes.len() as int);
            k < all.len() && all[k].kind == kind && all[k].depth == nodes[i].0 && all[k].color
                == color_at(nodes, sheet, i)
        },
{
    lemma_planned_prefix(nodes, sheet, i, nodes.len() as int);
    lemma_planned_prefix(nodes, sheet, i + 1, nodes.len() as int);
    let all = planned(nodes, sheet, nodes.len() as int);
    let next = planned(nodes, sheet, i + 1);
    if let Some(kind) = kind_at(nodes[i], sheet) {
        let k = planned(nodes, sheet, i).len() as int;
        assert(all.take(next.len() as int)[k] == all[k]);
    }
}

proof fn lemma_planned_prefix(nodes: Seq<NodeView>, sheet: Seq<RuleView>, i: int, n: int)
    requires
        0 <= i <= n,
    ensures
        planned(nodes, sheet, i).len() <= planned(nodes, sheet, n).len(),
        planned(nodes, sheet, i) == planned(nodes, sheet, n).take(
            planned(nodes, sheet, i).len() as int,
        ),
    decreases n - i,
{
    let a = planned(nodes, sheet, i);
    if i < n {
        lemma_planned_prefix(nodes, sheet, i, n - 1);
        let b = planned(nodes, sheet, n - 1);
        assert(planned(nodes, sheet, n).take(a.len() as int) =~= b.take(a.len() as int));
    } else {
        assert(a.take(a.len() as int) =~= a);
    }
}

} // verus!
