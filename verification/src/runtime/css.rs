//! Style sheets, and the element relations that selector matching asks for.
//!
//! A style sheet is read into its rules: selector text and declaration text. Matching a selector
//! against an element asks for the element's relatives, its name, and its attributes; those
//! questions are answered here, on the parsed document.
use crate::runtime::html::{DataView, HtmlData, HtmlDocument, NodeView};
use crate::runtime::nesting::{is_shallow, shallow};
use crate::strings::{
    chars_of, eq_ignore_case, find_from, is_digit, lemma_run_end, part, pieces, run_end, same_ignoring_case,
    scan_run, search, slice_string, split_at_char, str_eq, tail, texts, trim, trimmed, Class,
};
use lightningcss::rules::CssRule;
use lightningcss::stylesheet::{ParserOptions, StyleSheet};
use lightningcss::traits::ToCss;
use vstd::prelude::*;

verus! {

/// One rule of a style sheet: the selector text and the declaration text of a style rule, or a rule
/// of another kind.
#[derive(Debug, Clone, PartialEq, Eq)]
pub enum Listed {
    Style(String, String),
    Other,
}

/// The mathematical form of a listed rule: nothing for a rule that is no style rule.
pub type ListedView = Option<(Seq<char>, Seq<char>)>;

impl DeepView for Listed {
    type V = ListedView;

    open spec fn deep_view(&self) -> ListedView {
        match *self {
            Listed::Style(selectors, declarations) => Some((selectors@, declarations@)),
            Listed::Other => None,
        }
    }
}

/// Whether CSS text holds no function and no number with an exponent, so that the numbers in it are
/// read and written by basic arithmetic alone.
pub open spec fn plain(s: Seq<char>) -> bool {
    &&& !s.contains('(')
    &&& forall|i: int| 0 <= i && i + 2 < s.len() ==> !#[trigger] exponent_at(s, i)
}

/// Whether the exponent of a number starts after a digit.
pub open spec fn exponent_at(s: Seq<char>, i: int) -> bool {
    &&& is_digit(s[i])
    &&& s[i + 1] == 'e' || s[i + 1] == 'E'
    &&& is_digit(s[i + 2]) || s[i + 2] == '+' || s[i + 2] == '-'
}

/// The rules of a plain style sheet, in order; nothing where it does not parse.
pub uninterp spec fn rule_listing(source: Seq<char>) -> Option<Seq<Option<(Seq<char>, Seq<char>)>>>;

/// A listing as a mathematical value.
pub open spec fn listing_of(listed: Result<Vec<Listed>, ()>) -> Option<Seq<ListedView>> {
    match listed {
        Ok(rules) => Some(rules.deep_view()),
        Err(_) => None,
    }
}

/// `lightningcss::stylesheet::StyleSheet::parse`: the rules at the top level in order, each style
/// rule written back as its selectors and its declarations with `ToCss::to_css_string`; an error
/// where the style sheet does not parse. Of a plain style sheet the result depends on the source
/// alone. Nothing is claimed of any other: its numbers go through `powf`, `cos` and the like, whose
/// last bits differ between machines. The parser descends with the nesting of the source, so the
/// source is to be shallow.
#[verifier::external_body]
fn list_rules(source: &str) -> (r: Result<Vec<Listed>, ()>)
    requires
        shallow(source@),
    ensures
        plain(source@) ==> listing_of(r) == rule_listing(source@),
{
    let sheet = StyleSheet::parse(source, ParserOptions::default()).map_err(|_| ())?;
    Ok(sheet.rules.0.iter().map(|rule| match rule {
        CssRule::Style(s) => Listed::Style(s.selectors.to_css_string(Default::default()).unwrap_or_default(), s.declarations.to_css_string(Default::default()).unwrap_or_default()),
        _ => Listed::Other,
    }).collect())
}

/// Whether a style sheet can be listed so.
pub closed spec fn lists_to(source: &str, listed: Result<Vec<Listed>, ()>) -> bool {
    call_ensures(list_rules, (source,), listed)
}

/// One CSS rule reduced to what matching and styling need: the text of its selectors and of its
/// declaration block.
#[derive(Debug, Clone, PartialEq, Eq)]
pub struct StyleRule {
    pub selectors_css: String,
    pub declarations_css: String,
}

/// The mathematical form of a rule.
pub struct RuleView {
    pub selectors_css: Seq<char>,
    pub declarations_css: Seq<char>,
}

impl DeepView for StyleRule {
    type V = RuleView;

    open spec fn deep_view(&self) -> RuleView {
        RuleView { selectors_css: self.selectors_css@, declarations_css: self.declarations_css@ }
    }
}

/// Whether a property is a custom one, whose value may be empty.
pub open spec fn custom(p: Seq<char>) -> bool {
    p.len() >= 2 && p[0] == '-' && p[1] == '-'
}

/// Whether a declaration gives a value.
pub open spec fn valued(d: Seq<char>) -> bool {
    declaration(d) matches Some((p, v)) && (v.len() > 0 || custom(p))
}

/// Whether a declaration block is sound: if it declares anything, it gives a value for something.
pub open spec fn sound(block: Seq<char>) -> bool {
    let ds = pieces(block, ';');
    (exists|i: int| 0 <= i < ds.len() && declaration(#[trigger] ds[i]) is Some) ==> exists|i: int|
        0 <= i < ds.len() && valued(#[trigger] ds[i])
}

/// The style rules of a listing whose declaration blocks are sound.
pub open spec fn rules_of(listing: Seq<ListedView>) -> Seq<RuleView>
    decreases listing.len(),
{
    if listing.len() == 0 {
        Seq::empty()
    } else {
        let front = rules_of(listing.drop_last());
        match listing.last() {
            Some((selectors_css, declarations_css)) => if sound(declarations_css) {
                front.push(RuleView { selectors_css, declarations_css })
            } else {
                front
            },
            None => front,
        }
    }
}

/// The rules of a style sheet by its listing; none where it does not parse.
pub open spec fn rules_in(listing: Option<Seq<ListedView>>) -> Seq<RuleView> {
    match listing {
        Some(ls) => rules_of(ls),
        None => Seq::empty(),
    }
}

fn is_sound(block: &str) -> (b: bool)
    ensures
        b == sound(block@),
{
    let ds = split_at_char(&chars_of(block), ';');
    let ghost all = texts(ds@);
    let mut declares = false;
    let mut i: usize = 0;
    while i < ds.len()
        invariant
            0 <= i <= ds@.len(),
            all == texts(ds@),
            all == pieces(block@, ';'),
            declares ==> exists|k: int| 0 <= k < all.len() && declaration(#[trigger] all[k]) is Some,
            !declares ==> forall|k: int| 0 <= k < i ==> declaration(#[trigger] all[k]) is None,
            forall|k: int| 0 <= k < i ==> !valued(#[trigger] all[k]),
        decreases ds@.len() - i,
    {
        assert(all[i as int] == ds@[i as int]@);
        if let Some((property, value)) = split_declaration(&ds[i]) {
            declares = true;
            let n = property.len();
            if value.len() > 0 || (n >= 2 && property[0] == '-' && property[1] == '-') {
                assert(valued(all[i as int]));
                return true;
            }
        }
        i = i + 1;
    }
    !declares
}

/// The rules of a style sheet by its listing: a style sheet that does not parse has none, a rule
/// that is no style rule is left out, and so is a malformed one that only names properties and
/// gives no value.
pub fn rules_from(listed: &Result<Vec<Listed>, ()>) -> (r: Vec<StyleRule>)
    ensures
        r.deep_view() == rules_in(listing_of(*listed)),
{
    let mut out: Vec<StyleRule> = Vec::new();
    assert(out.deep_view() =~= Seq::<RuleView>::empty());
    let rules = match listed {
        Ok(rules) => rules,
        Err(_) => {
            return out;
        },
    };
    let ghost lv = rules.deep_view();
    let mut i: usize = 0;
    assert(lv.take(0) =~= Seq::<ListedView>::empty());
    while i < rules.len()
        invariant
            0 <= i <= rules@.len(),
            lv == rules.deep_view(),
            out.deep_view() == rules_of(lv.take(i as int)),
        decreases rules@.len() - i,
    {
        assert(lv.take(i + 1).drop_last() =~= lv.take(i as int));
        assert(lv.take(i + 1).last() == rules@[i as int].deep_view());
        if let Listed::Style(selectors, declarations) = &rules[i] {
            if is_sound(declarations) {
                let ghost was = out.deep_view();
                let r = StyleRule {
                    selectors_css: selectors.clone(),
                    declarations_css: declarations.clone(),
                };
                let ghost x = r.deep_view();
                out.push(r);
                assert(out.deep_view() =~= was.push(x));
            }
        }
        i = i + 1;
    }
    assert(lv.take(lv.len() as int) =~= lv);
    out
}

/// Parses stylesheet source into its style rules. Malformed CSS must not take down the renderer: a
/// style sheet that does not parse contributes no styling, nor does one that nests too deeply to be
/// parsed, nor a rule that gives no value.
pub fn parse_stylesheet(source: &str) -> (r: Vec<StyleRule>)
    ensures
        shallow(source@) ==> exists|listed: Result<Vec<Listed>, ()>|
            #[trigger] lists_to(source, listed) && r.deep_view() == rules_in(listing_of(listed)),
        shallow(source@) && plain(source@) ==> r.deep_view() == rules_in(rule_listing(source@)),
        !shallow(source@) ==> r.deep_view() == Seq::<RuleView>::empty(),
{
    if !is_shallow(source) {
        let none: Vec<StyleRule> = Vec::new();
        assert(none.deep_view() =~= Seq::<RuleView>::empty());
        return none;
    }
    let listed = list_rules(source);
    assert(lists_to(source, listed));
    rules_from(&listed)
}

/// The rules of a list whose selectors are supported.
pub open spec fn supported_among(rules: Seq<RuleView>, supported: Seq<bool>) -> Seq<RuleView>
    decreases rules.len(),
{
    if rules.len() == 0 {
        Seq::empty()
    } else {
        let front = supported_among(rules.drop_last(), supported);
        if supported[rules.len() - 1] {
            front.push(rules.last())
        } else {
            front
        }
    }
}

/// Discards the rules whose selectors are not supported (e.g. pseudo-classes), given for each rule
/// whether its selectors parse.
pub fn supported_rules(rules: &Vec<StyleRule>, supported: &Vec<bool>) -> (r: Vec<StyleRule>)
    requires
        rules@.len() == supported@.len(),
    ensures
        r.deep_view() == supported_among(rules.deep_view(), supported@),
{
    let ghost rv = rules.deep_view();
    let mut out: Vec<StyleRule> = Vec::new();
    let mut i: usize = 0;
    assert(rv.take(0) =~= Seq::<RuleView>::empty());
    assert(out.deep_view() =~= supported_among(rv.take(0), supported@));
    while i < rules.len()
        invariant
            0 <= i <= rules@.len(),
            rules@.len() == supported@.len(),
            rv == rules.deep_view(),
            out.deep_view() == supported_among(rv.take(i as int), supported@),
        decreases rules@.len() - i,
    {
        assert(rv.take(i + 1).drop_last() =~= rv.take(i as int));
        assert(rv.take(i + 1).last() == rules@[i as int].deep_view());
        if supported[i] {
            let ghost was = out.deep_view();
            let rule = StyleRule {
                selectors_css: rules[i].selectors_css.clone(),
                declarations_css: rules[i].declarations_css.clone(),
            };
            let ghost x = rule.deep_view();
            out.push(rule);
            assert(out.deep_view() =~= was.push(x));
        }
        i = i + 1;
    }
    assert(rv.take(rv.len() as int) =~= rv);
    out
}

/// Whether a node is the child of another: it stands deeper, and nothing between them stands less
/// deep than it.
pub open spec fn child_of(nodes: Seq<NodeView>, parent: int, child: int) -> bool {
    &&& 0 <= parent < child < nodes.len()
    &&& nodes[parent].0 < nodes[child].0
    &&& forall|k: int| parent < k < child ==> (#[trigger] nodes[k]).0 >= nodes[child].0
}

/// Whether two nodes are children of one parent, or both of none.
pub open spec fn siblings(nodes: Seq<NodeView>, a: int, b: int) -> bool {
    forall|p: int| #[trigger] child_of(nodes, p, a) <==> child_of(nodes, p, b)
}

/// The value of the first attribute with a name.
pub open spec fn attr_in(attrs: Seq<(Seq<char>, Seq<char>)>, name: Seq<char>) -> Option<Seq<char>>
    decreases attrs.len(),
{
    if attrs.len() == 0 {
        None
    } else if attrs[0].0 == name {
        Some(attrs[0].1)
    } else {
        attr_in(attrs.skip(1), name)
    }
}

/// The value of an attribute of a node; a run of text has none.
pub open spec fn attr_at(n: NodeView, name: Seq<char>) -> Option<Seq<char>> {
    match n.1 {
        DataView::Tag { attrs, .. } => attr_in(attrs, name),
        DataView::Run(_) => None,
    }
}

/// The name of an element.
pub open spec fn name_at(n: NodeView) -> Option<Seq<char>> {
    match n.1 {
        DataView::Tag { name, .. } => Some(name),
        DataView::Run(_) => None,
    }
}

/// Whether an identifier is a given one.
pub open spec fn same_name(a: Seq<char>, b: Seq<char>, ignore_case: bool) -> bool {
    if ignore_case {
        same_ignoring_case(a, b)
    } else {
        a == b
    }
}

/// Whether one of the words from a position on is a given one.
pub open spec fn has_word(s: Seq<char>, i: int, word: Seq<char>, ignore_case: bool) -> bool
    decreases s.len() - i,
    when 0 <= i <= s.len()
    via has_word_decreases
{
    let from = run_end(s, i, Class::Blank);
    if from >= s.len() {
        false
    } else {
        let to = run_end(s, from, Class::Solid);
        same_name(s.subrange(from, to), word, ignore_case) || has_word(s, to, word, ignore_case)
    }
}

#[via_fn]
proof fn has_word_decreases(s: Seq<char>, i: int, word: Seq<char>, ignore_case: bool) {
    lemma_word_ends(s, i);
}

proof fn lemma_word_ends(s: Seq<char>, i: int)
    requires
        0 <= i <= s.len(),
    ensures
        i <= run_end(s, i, Class::Blank) <= s.len(),
        run_end(s, i, Class::Blank) < s.len() ==> run_end(s, i, Class::Blank) < run_end(
            s,
            run_end(s, i, Class::Blank),
            Class::Solid,
        ) <= s.len(),
{
    lemma_run_end(s, i, Class::Blank);
    let from = run_end(s, i, Class::Blank);
    if from < s.len() {
        assert(!Class::Blank.holds(s[from]));
        assert(Class::Solid.holds(s[from]));
        lemma_run_end(s, from + 1, Class::Solid);
    }
}

fn same(a: &str, b: &str, ignore_case: bool) -> (r: bool)
    ensures
        r == same_name(a@, b@, ignore_case),
{
    if ignore_case {
        eq_ignore_case(a, b)
    } else {
        str_eq(a, b)
    }
}

fn lists_word(text: &str, word: &str, ignore_case: bool) -> (b: bool)
    ensures
        b == has_word(text@, 0, word@, ignore_case),
{
    let v = chars_of(text);
    let n = v.len();
    let mut i: usize = 0;
    loop
        invariant
            0 <= i <= n,
            n == v@.len(),
            v@ == text@,
            has_word(text@, 0, word@, ignore_case) == has_word(
                text@,
                i as int,
                word@,
                ignore_case,
            ),
        decreases n - i,
    {
        proof {
            lemma_word_ends(v@, i as int);
        }
        let from = scan_run(&v, i, Class::Blank);
        if from >= n {
            return false;
        }
        let to = scan_run(&v, from, Class::Solid);
        if same(&slice_string(&v, from, to), word, ignore_case) {
            return true;
        }
        i = to;
    }
}

/// An element of a document.
#[derive(Debug, Clone, Copy)]
pub struct DomElement<'a> {
    pub document: &'a HtmlDocument,
    pub node: usize,
}

/// Whether a node is an element.
pub open spec fn is_tag(nodes: Seq<NodeView>, i: int) -> bool {
    nodes[i].1 is Tag
}

impl<'a> DomElement<'a> {
    /// The node is an element of the document.
    pub open spec fn wf(&self) -> bool {
        self.node < self.document@.len() && is_tag(self.document@, self.node as int)
    }

    /// The name of the element.
    pub fn local_name(&self) -> (r: &'a String)
        requires
            self.wf(),
        ensures
            Some(r@) == name_at(self.document@[self.node as int]),
    {
        assert(self.document@[self.node as int].1
            == self.document.nodes@[self.node as int].1.deep_view());
        match &self.document.nodes[self.node].1 {
            HtmlData::Tag(name, ..) => name,
            HtmlData::Run(t) => t,
        }
    }

    /// The value of an attribute.
    pub fn attr(&self, name: &str) -> (r: Option<&'a String>)
        requires
            self.wf(),
        ensures
            r.deep_view() == attr_at(self.document@[self.node as int], name@),
    {
        assert(self.document@[self.node as int].1
            == self.document.nodes@[self.node as int].1.deep_view());
        let attrs = match &self.document.nodes[self.node].1 {
            HtmlData::Tag(_, _, attrs) => attrs,
            HtmlData::Run(_) => {
                return None;
            },
        };
        let ghost av = attrs.deep_view();
        let mut i: usize = 0;
        assert(av.skip(0) =~= av);
        while i < attrs.len()
            invariant
                0 <= i <= attrs@.len(),
                av == attrs.deep_view(),
                attr_at(self.document@[self.node as int], name@) == attr_in(
                    av.skip(i as int),
                    name@,
                ),
            decreases attrs@.len() - i,
        {
            assert(av.skip(i as int)[0] == attrs@[i as int].deep_view());
            assert(av.skip(i as int).skip(1) =~= av.skip(i + 1));
            if str_eq(&attrs[i].0, name) {
                return Some(&attrs[i].1);
            }
            i = i + 1;
        }
        None
    }

    fn depth(&self, i: usize) -> (d: usize)
        requires
            i < self.document@.len(),
        ensures
            d == self.document@[i as int].0,
    {
        assert(self.document@[i as int] == self.document.nodes@[i as int].deep_view());
        self.document.nodes[i].0
    }

    fn is_element(&self, i: usize) -> (b: bool)
        requires
            i < self.document@.len(),
        ensures
            b == is_tag(self.document@, i as int),
    {
        assert(self.document@[i as int].1 == self.document.nodes@[i as int].1.deep_view());
        match &self.document.nodes[i].1 {
            HtmlData::Tag(..) => true,
            HtmlData::Run(_) => false,
        }
    }

    /// The position of the parent, where there is one.
    fn parent(&self) -> (r: Option<usize>)
        requires
            self.wf(),
        ensures
            match r {
                Some(p) => child_of(self.document@, p as int, self.node as int),
                None => forall|p: int| !#[trigger] child_of(self.document@, p, self.node as int),
            },
    {
        let ghost nodes = self.document@;
        let d = self.depth(self.node);
        let mut i: usize = self.node;
        while i > 0
            invariant
                0 <= i <= self.node,
                self.wf(),
                nodes == self.document@,
                d == nodes[self.node as int].0,
                forall|k: int| i <= k < self.node ==> (#[trigger] nodes[k]).0 >= d,
            decreases i,
        {
            i = i - 1;
            if self.depth(i) < d {
                return Some(i);
            }
        }
        None
    }

    /// The parent element, where the parent is one.
    pub fn parent_element(&self) -> (r: Option<DomElement<'a>>)
        requires
            self.wf(),
        ensures
            match r {
                Some(p) => p.wf() && p.document == self.document && child_of(
                    self.document@,
                    p.node as int,
                    self.node as int,
                ),
                None => forall|p: int|
                    #[trigger] child_of(self.document@, p, self.node as int) ==> !is_tag(
                        self.document@,
                        p,
                    ),
            },
    {
        match self.parent() {
            Some(p) => {
                proof {
                    assert forall|q: int|
                        #[trigger] child_of(self.document@, q, self.node as int) implies q
                        == p by {
                        lemma_one_parent(self.document@, p as int, q, self.node as int);
                    }
                }
                if self.is_element(p) {
                    Some(DomElement { document: self.document, node: p })
                } else {
                    None
                }
            },
            None => None,
        }
    }

    /// Whether the element is a root: its parent is no element.
    pub fn is_root(&self) -> (b: bool)
        requires
            self.wf(),
        ensures
            b == forall|p: int|
                #[trigger] child_of(self.document@, p, self.node as int) ==> !is_tag(
                    self.document@,
                    p,
                ),
    {
        match self.parent_element() {
            Some(_) => false,
            None => true,
        }
    }

    /// The nearest element before this one with the same parent.
    pub fn prev_sibling_element(&self) -> (r: Option<DomElement<'a>>)
        requires
            self.wf(),
        ensures
            match r {
                Some(s) => s.wf() && s.document == self.document && precedes(
                    self.document@,
                    s.node as int,
                    self.node as int,
                ),
                None => forall|s: int| !#[trigger] precedes(self.document@, s, self.node as int),
            },
    {
        let ghost nodes = self.document@;
        let ghost me = self.node as int;
        let d = self.depth(self.node);
        let mut i: usize = self.node;
        while i > 0
            invariant
                0 <= i <= self.node,
                self.wf(),
                nodes == self.document@,
                me == self.node as int,
                d == nodes[me].0,
                forall|k: int| i <= k < me ==> (#[trigger] nodes[k]).0 >= d,
                forall|k: int| i <= k < me ==> !((#[trigger] nodes[k]).0 == d && is_tag(nodes, k)),
            decreases i,
        {
            i = i - 1;
            let e = self.depth(i);
            if e < d {
                assert forall|s: int| !#[trigger] precedes(nodes, s, me) by {
                    if precedes(nodes, s, me) {
                        assert(s < i);
                        assert(nodes[i as int].0 >= d);
                    }
                }
                return None;
            }
            if e == d && self.is_element(i) {
                assert(precedes(nodes, i as int, me));
                return Some(DomElement { document: self.document, node: i });
            }
        }
        None
    }

    /// The nearest element after this one with the same parent.
    pub fn next_sibling_element(&self) -> (r: Option<DomElement<'a>>)
        requires
            self.wf(),
        ensures
            match r {
                Some(s) => s.wf() && s.document == self.document && precedes(
                    self.document@,
                    self.node as int,
                    s.node as int,
                ),
                None => forall|s: int| !#[trigger] precedes(self.document@, self.node as int, s),
            },
    {
        let ghost nodes = self.document@;
        let ghost me = self.node as int;
        let n = self.document.nodes.len();
        let d = self.depth(self.node);
        let mut i: usize = self.node + 1;
        while i < n
            invariant
                self.node < i <= n,
                n == nodes.len(),
                self.wf(),
                nodes == self.document@,
                me == self.node as int,
                d == nodes[me].0,
                forall|k: int| me < k < i ==> (#[trigger] nodes[k]).0 >= d,
                forall|k: int| me < k < i ==> !((#[trigger] nodes[k]).0 == d && is_tag(nodes, k)),
            decreases n - i,
        {
            let e = self.depth(i);
            if e < d {
                assert forall|s: int| !#[trigger] precedes(nodes, me, s) by {
                    if precedes(nodes, me, s) {
                        if s > i {
                            assert(nodes[i as int].0 >= nodes[s].0);
                        }
                    }
                }
                return None;
            }
            if e == d && self.is_element(i) {
                assert(precedes(nodes, me, i as int));
                return Some(DomElement { document: self.document, node: i });
            }
            i = i + 1;
        }
        None
    }

    /// The first child that is an element.
    pub fn first_element_child(&self) -> (r: Option<DomElement<'a>>)
        requires
            self.wf(),
        ensures
            match r {
                Some(c) => c.wf() && c.document == self.document && first_child(
                    self.document@,
                    self.node as int,
                    c.node as int,
                ),
                None => forall|c: int| !#[trigger] first_child(self.document@, self.node as int, c),
            },
    {
        let ghost nodes = self.document@;
        let ghost me = self.node as int;
        let n = self.document.nodes.len();
        let d = self.depth(self.node);
        let mut low: usize = usize::MAX;
        let mut i: usize = self.node + 1;
        while i < n
            invariant
                self.node < i <= n,
                n == nodes.len(),
                self.wf(),
                nodes == self.document@,
                me == self.node as int,
                d == nodes[me].0,
                forall|k: int| me < k < i ==> d < (#[trigger] nodes[k]).0,
                forall|k: int| me < k < i ==> low <= (#[trigger] nodes[k]).0,
                low == usize::MAX || exists|k: int| me < k < i && low == (#[trigger] nodes[k]).0,
                forall|k: int|
                    me < k < i && #[trigger] child_of(nodes, me, k) ==> !is_tag(nodes, k),
            decreases n - i,
        {
            let e = self.depth(i);
            if e <= d {
                assert forall|c: int| !#[trigger] first_child(nodes, me, c) by {
                    if child_of(nodes, me, c) && c > i {
                        assert(nodes[i as int].0 >= nodes[c].0);
                    }
                }
                return None;
            }
            if e <= low {
                assert(child_of(nodes, me, i as int));
                if self.is_element(i) {
                    assert(first_child(nodes, me, i as int));
                    return Some(DomElement { document: self.document, node: i });
                }
                low = e;
            } else {
                assert(!child_of(nodes, me, i as int));
            }
            i = i + 1;
        }
        None
    }

    /// Whether the element has a given name.
    pub fn has_local_name(&self, name: &str) -> (b: bool)
        requires
            self.wf(),
        ensures
            b == (name_at(self.document@[self.node as int]) == Some(name@)),
    {
        str_eq(self.local_name(), name)
    }

    /// Whether the element is in a given namespace.
    pub fn has_namespace(&self, ns: &str) -> (b: bool)
        requires
            self.wf(),
        ensures
            b == (self.document@[self.node as int].1->ns == ns@),
    {
        assert(self.document@[self.node as int].1
            == self.document.nodes@[self.node as int].1.deep_view());
        match &self.document.nodes[self.node].1 {
            HtmlData::Tag(_, space, _) => str_eq(space, ns),
            HtmlData::Run(_) => false,
        }
    }

    /// Whether two elements have the same name.
    pub fn is_same_type(&self, other: &DomElement<'a>) -> (b: bool)
        requires
            self.wf(),
            other.wf(),
        ensures
            b == (name_at(self.document@[self.node as int]) == name_at(
                other.document@[other.node as int],
            )),
    {
        str_eq(self.local_name(), other.local_name())
    }

    /// Whether the element is a link: an anchor with a target.
    pub fn is_link(&self) -> (b: bool)
        requires
            self.wf(),
        ensures
            b == (name_at(self.document@[self.node as int]) == Some("a"@) && attr_at(
                self.document@[self.node as int],
                "href"@,
            ) is Some),
    {
        self.has_local_name("a") && self.attr("href").is_some()
    }

    /// Whether the element has a given id.
    pub fn has_id(&self, id: &str, ignore_case: bool) -> (b: bool)
        requires
            self.wf(),
        ensures
            b == (attr_at(self.document@[self.node as int], "id"@) matches Some(v) && same_name(
                v,
                id@,
                ignore_case,
            )),
    {
        match self.attr("id") {
            Some(v) => same(v, id, ignore_case),
            None => false,
        }
    }

    /// Whether the element has a given class.
    pub fn has_class(&self, name: &str, ignore_case: bool) -> (b: bool)
        requires
            self.wf(),
        ensures
            b == (attr_at(self.document@[self.node as int], "class"@) matches Some(v) && has_word(
                v,
                0,
                name@,
                ignore_case,
            )),
    {
        match self.attr("class") {
            Some(v) => lists_word(v, name, ignore_case),
            None => false,
        }
    }

    /// Whether the element holds nothing: no child element, and no text that is not empty.
    pub fn is_empty(&self) -> (b: bool)
        requires
            self.wf(),
        ensures
            b == !exists|c: int|
                #[trigger] child_of(self.document@, self.node as int, c) && substantial(
                    self.document@[c],
                ),
    {
        let ghost nodes = self.document@;
        let ghost me = self.node as int;
        let n = self.document.nodes.len();
        let d = self.depth(self.node);
        let mut low: usize = usize::MAX;
        let mut i: usize = self.node + 1;
        while i < n
            invariant
                self.node < i <= n,
                n == nodes.len(),
                self.wf(),
                nodes == self.document@,
                me == self.node as int,
                d == nodes[me].0,
                forall|k: int| me < k < i ==> d < (#[trigger] nodes[k]).0,
                forall|k: int| me < k < i ==> low <= (#[trigger] nodes[k]).0,
                low == usize::MAX || exists|k: int| me < k < i && low == (#[trigger] nodes[k]).0,
                forall|k: int|
                    me < k < i && #[trigger] child_of(nodes, me, k) ==> !substantial(nodes[k]),
            decreases n - i,
        {
            let e = self.depth(i);
            if e <= d {
                assert forall|c: int| #[trigger] child_of(nodes, me, c) implies !substantial(
                    nodes[c],
                ) by {
                    if c > i {
                        assert(nodes[i as int].0 >= nodes[c].0);
                    }
                }
                return true;
            }
            if e <= low {
                assert(child_of(nodes, me, i as int));
                assert(nodes[i as int].1 == self.document.nodes@[i as int].1.deep_view());
                let full = match &self.document.nodes[i].1 {
                    HtmlData::Tag(..) => true,
                    HtmlData::Run(t) => chars_of(t).len() > 0,
                };
                if full {
                    assert(substantial(nodes[i as int]));
                    return false;
                }
                low = e;
            } else {
                assert(!child_of(nodes, me, i as int));
            }
            i = i + 1;
        }
        true
    }
}

/// Whether a node counts as content: an element, or text that is not empty.
pub open spec fn substantial(n: NodeView) -> bool {
    match n.1 {
        DataView::Tag { .. } => true,
        DataView::Run(t) => t.len() > 0,
    }
}

/// Whether an element comes right before another: both at one level, with nothing less deep and no
/// other element of that level between them.
pub open spec fn precedes(nodes: Seq<NodeView>, a: int, b: int) -> bool {
    &&& 0 <= a < b < nodes.len()
    &&& nodes[a].0 == nodes[b].0
    &&& is_tag(nodes, a)
    &&& is_tag(nodes, b)
    &&& forall|k: int|
        a < k < b ==> (#[trigger] nodes[k]).0 >= nodes[b].0 && !(nodes[k].0 == nodes[b].0 && is_tag(
            nodes,
            k,
        ))
}

/// Whether an element is the first child element of another.
pub open spec fn first_child(nodes: Seq<NodeView>, parent: int, child: int) -> bool {
    &&& child_of(nodes, parent, child)
    &&& is_tag(nodes, child)
    &&& forall|k: int| k < child && #[trigger] child_of(nodes, parent, k) ==> !is_tag(nodes, k)
}

/// A node has one parent at most.
proof fn lemma_one_parent(nodes: Seq<NodeView>, p: int, q: int, child: int)
    requires
        child_of(nodes, p, child),
        child_of(nodes, q, child),
    ensures
        p == q,
{
    if p < q {
        assert(nodes[q].0 >= nodes[child].0);
    }
    if q < p {
        assert(nodes[p].0 >= nodes[child].0);
    }
}

/// The relations fit together: a node has one parent; neighbours have the same parent; an element
/// has one neighbour on each side at most.
pub proof fn law_relations_fit(nodes: Seq<NodeView>, a: int, b: int, c: int)
    ensures
        child_of(nodes, a, c) && child_of(nodes, b, c) ==> a == b,
        precedes(nodes, a, b) ==> siblings(nodes, a, b),
        precedes(nodes, a, c) && precedes(nodes, b, c) ==> a == b,
        precedes(nodes, a, b) && precedes(nodes, a, c) ==> b == c,
        first_child(nodes, a, b) && first_child(nodes, a, c) ==> b == c,
{
    if child_of(nodes, a, c) && child_of(nodes, b, c) {
        lemma_one_parent(nodes, a, b, c);
    }
    if precedes(nodes, a, b) {
        assert forall|p: int| #[trigger] child_of(nodes, p, a) <==> child_of(nodes, p, b) by {
            if child_of(nodes, p, a) {
                assert forall|k: int| p < k < b implies (#[trigger] nodes[k]).0 >= nodes[b].0 by {}
            }
            if child_of(nodes, p, b) {
                if p >= a {
                    if p > a {
                        assert(nodes[p].0 >= nodes[b].0);
                    }
                }
                assert forall|k: int| p < k < a implies (#[trigger] nodes[k]).0 >= nodes[a].0 by {}
            }
        }
    }
    if precedes(nodes, a, c) && precedes(nodes, b, c) {
        if a < b {
            assert(!(nodes[b].0 == nodes[c].0 && is_tag(nodes, b)));
        }
        if b < a {
            assert(!(nodes[a].0 == nodes[c].0 && is_tag(nodes, a)));
        }
    }
    if precedes(nodes, a, b) && precedes(nodes, a, c) {
        if b < c {
            assert(!(nodes[b].0 == nodes[c].0 && is_tag(nodes, b)));
        }
        if c < b {
            assert(!(nodes[c].0 == nodes[b].0 && is_tag(nodes, c)));
        }
    }
}

/// The child elements of an element, in order.
pub open spec fn child_elements(nodes: Seq<NodeView>, parent: int, to: int) -> Seq<usize>
    decreases to,
{
    if to <= 0 {
        Seq::empty()
    } else {
        let front = child_elements(nodes, parent, to - 1);
        if child_of(nodes, parent, to - 1) && is_tag(nodes, to - 1) {
            front.push((to - 1) as usize)
        } else {
            front
        }
    }
}

impl<'a> DomElement<'a> {
    /// The child elements, in order.
    pub fn element_children(&self) -> (r: Vec<usize>)
        requires
            self.wf(),
        ensures
            r@ == child_elements(
                self.document@,
                self.node as int,
                self.document@.len() as int,
            ),
    {
        let ghost nodes = self.document@;
        let ghost me = self.node as int;
        let n = self.document.nodes.len();
        let d = self.depth(self.node);
        let mut low: usize = usize::MAX;
        let mut out: Vec<usize> = Vec::new();
        let mut i: usize = self.node + 1;
        let mut inside = true;
        proof {
            lemma_no_child_before(nodes, me, me + 1);
            assert(out@ =~= child_elements(nodes, me, me + 1));
        }
        while i < n
            invariant
                self.node < i <= n,
                n == nodes.len(),
                self.wf(),
                nodes == self.document@,
                me == self.node as int,
                d == nodes[me].0,
                inside ==> forall|k: int| me < k < i ==> d < (#[trigger] nodes[k]).0,
                inside ==> forall|k: int| me < k < i ==> low <= (#[trigger] nodes[k]).0,
                inside ==> low == usize::MAX || exists|k: int|
                    me < k < i && low == (#[trigger] nodes[k]).0,
                !inside ==> exists|k: int| me < k < i && (#[trigger] nodes[k]).0 <= d,
                out@ == child_elements(nodes, me, i as int),
            decreases n - i,
        {
            let e = self.depth(i);
            if inside && e <= d {
                inside = false;
            }
            if inside && e <= low {
                assert(child_of(nodes, me, i as int));
                if self.is_element(i) {
                    out.push(i);
                }
                low = e;
            } else {
                assert(!child_of(nodes, me, i as int));
            }
            i = i + 1;
        }
        out
    }
}

proof fn lemma_no_child_before(nodes: Seq<NodeView>, me: int, to: int)
    requires
        to <= me + 1,
    ensures
        child_elements(nodes, me, to) == Seq::<usize>::empty(),
    decreases to,
{
    if to > 0 {
        lemma_no_child_before(nodes, me, to - 1);
    }
}

/// A declaration's property and value, trimmed, where it has a colon.
pub open spec fn declaration(d: Seq<char>) -> Option<(Seq<char>, Seq<char>)> {
    match find_from(d, ":"@, 0) {
        Some(i) => Some((trim(d.take(i)), trim(d.skip(i + 1)))),
        None => None,
    }
}

/// Takes a declaration apart.
pub fn split_declaration(d: &[char]) -> (r: Option<(Vec<char>, Vec<char>)>)
    ensures
        match (r, declaration(d@)) {
            (Some(x), Some(v)) => x.0@ == v.0 && x.1@ == v.1,
            (None, None) => true,
            _ => false,
        },
{
    let n = d.len();
    let colon = chars_of(":");
    proof {
        reveal_strlit(":");
    }
    match search(d, &colon, 0) {
        Some(i) => {
            assert(i + 1 <= n);
            let property = part(d, 0, i);
            assert(property@ =~= d@.take(i as int));
            Some((trimmed(&property), trimmed(&tail(d, i + 1))))
        },
        None => None,
    }
}

} // verus!
