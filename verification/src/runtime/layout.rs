//! Layout inputs: the box style of an element, resolved from the rules that match it.
//!
//! Rules are applied in cascade order, so the highest-specificity (then, for ties,
//! latest-in-source) rule wins. Lengths stay as the number text that the declaration gives; the
//! layout engine reads them.
use crate::runtime::css::{declaration, split_declaration, RuleView, StyleRule};
use crate::strings::{
    chars_of, ends, ends_with, is_word, part, pieces, run_end, same_ignoring_case, scan_run,
    split_at_char, string_of, tail, texts, trim, trimmed, Class,
};
use vstd::prelude::*;
use vstd::string::*;

verus! {

/// How an element lays out its children.
#[derive(Debug, Clone, Copy, PartialEq, Eq, Structural)]
pub enum Display {
    Block,
    Flex,
    Grid,
    /// Not at all.
    Hidden,
}

/// A width or a height.
#[derive(Debug, Clone, PartialEq, Eq)]
pub enum Dimension {
    Auto,
    /// A number of pixels.
    Px(String),
    /// A percentage of the containing block.
    Percent(String),
}

/// The mathematical form of a dimension.
pub enum DimView {
    Auto,
    Px(Seq<char>),
    Percent(Seq<char>),
}

impl DeepView for Dimension {
    type V = DimView;

    open spec fn deep_view(&self) -> DimView {
        match *self {
            Dimension::Auto => DimView::Auto,
            Dimension::Px(t) => DimView::Px(t@),
            Dimension::Percent(t) => DimView::Percent(t@),
        }
    }
}

/// What layout needs to know of an element.
#[derive(Debug, Clone, PartialEq, Eq)]
pub struct BoxStyle {
    pub display: Display,
    pub width: Dimension,
    pub height: Dimension,
}

/// The mathematical form of a box style.
pub struct StyleView {
    pub display: Display,
    pub width: DimView,
    pub height: DimView,
}

impl View for BoxStyle {
    type V = StyleView;

    open spec fn view(&self) -> StyleView {
        StyleView {
            display: self.display,
            width: self.width.deep_view(),
            height: self.height.deep_view(),
        }
    }
}

/// A box with nothing declared: a block that fills its container.
pub open spec fn plain_style() -> StyleView {
    StyleView { display: Display::Block, width: DimView::Auto, height: DimView::Auto }
}

/// Text after a sign, if there is one.
pub open spec fn unsigned(s: Seq<char>) -> Seq<char> {
    if s.len() > 0 && (s[0] == '+' || s[0] == '-') {
        s.skip(1)
    } else {
        s
    }
}

/// Whether an exponent stands from a position to the end: an `e`, perhaps a sign, and digits.
pub open spec fn exponent_at(s: Seq<char>, i: int) -> bool {
    if i < s.len() && (s[i] == 'e' || s[i] == 'E') {
        let d = unsigned(s.skip(i + 1));
        d.len() > 0 && run_end(d, 0, Class::Digit) == d.len()
    } else {
        false
    }
}

/// Whether text is a number: digits with or without a decimal point and an exponent, perhaps
/// signed; or the name of an infinite number or of none.
pub open spec fn is_number(s: Seq<char>) -> bool {
    let b = unsigned(s);
    let k = run_end(b, 0, Class::Digit);
    let dotted = k < b.len() && b[k] == '.';
    let m = if dotted {
        run_end(b, k + 1, Class::Digit)
    } else {
        k
    };
    let digits = if dotted {
        m - 1
    } else {
        m
    };
    ||| same_ignoring_case(b, "inf"@)
    ||| same_ignoring_case(b, "infinity"@)
    ||| same_ignoring_case(b, "nan"@)
    ||| (digits > 0 && (m == b.len() || exponent_at(b, m)))
}

/// Text without its last characters.
pub open spec fn without_end(s: Seq<char>, n: nat) -> Seq<char> {
    s.take(s.len() - n)
}

/// The dimension that a value gives: a percentage, a number of pixels, or `auto`.
pub open spec fn dimension(v: Seq<char>) -> Option<DimView> {
    if ends(v, "%"@) {
        let t = trim(without_end(v, 1));
        if is_number(t) {
            Some(DimView::Percent(t))
        } else {
            None
        }
    } else if ends(v, "px"@) {
        let t = trim(without_end(v, 2));
        if is_number(t) {
            Some(DimView::Px(t))
        } else {
            None
        }
    } else if v == "auto"@ {
        Some(DimView::Auto)
    } else {
        None
    }
}

/// The style after one declaration; one that means nothing to layout changes nothing.
pub open spec fn declared(s: StyleView, d: Seq<char>) -> StyleView {
    match declaration(d) {
        None => s,
        Some((p, v)) => if p == "display"@ {
            StyleView {
                display: if v == "flex"@ {
                    Display::Flex
                } else if v == "grid"@ {
                    Display::Grid
                } else if v == "none"@ {
                    Display::Hidden
                } else {
                    s.display
                },
                ..s
            }
        } else if p == "width"@ {
            match dimension(v) {
                Some(width) => StyleView { width, ..s },
                None => s,
            }
        } else if p == "height"@ {
            match dimension(v) {
                Some(height) => StyleView { height, ..s },
                None => s,
            }
        } else {
            s
        },
    }
}

/// The style after declarations, in order.
pub open spec fn declared_all(s: StyleView, ds: Seq<Seq<char>>) -> StyleView
    decreases ds.len(),
{
    if ds.len() == 0 {
        s
    } else {
        declared(declared_all(s, ds.drop_last()), ds.last())
    }
}

/// The style after a declaration block.
pub open spec fn applied(s: StyleView, block: Seq<char>) -> StyleView {
    declared_all(s, pieces(block, ';'))
}

/// Text after a sign, if there is one.
pub fn after_sign(v: &[char]) -> (r: Vec<char>)
    ensures
        r@ == unsigned(v@),
{
    let n = v.len();
    if n > 0 && (v[0] == '+' || v[0] == '-') {
        tail(v, 1)
    } else {
        let r = tail(v, 0);
        assert(r@ =~= v@);
        r
    }
}

fn is_exponent(v: &[char], i: usize) -> (b: bool)
    requires
        i <= v@.len(),
    ensures
        b == exponent_at(v@, i as int),
{
    let n = v.len();
    if i < n && (v[i] == 'e' || v[i] == 'E') {
        let d = after_sign(&tail(v, i + 1));
        d.len() > 0 && scan_run(&d, 0, Class::Digit) == d.len()
    } else {
        false
    }
}

/// Whether text is a name, but for case.
pub fn is_named(v: &[char], name: &str) -> (b: bool)
    ensures
        b == same_ignoring_case(v@, name@),
{
    crate::strings::eq_ignore_case(&string_of(v), name)
}

/// Whether text is a number.
pub fn number(v: &[char]) -> (b: bool)
    ensures
        b == is_number(v@),
{
    let b = after_sign(v);
    let n = b.len();
    let k = scan_run(&b, 0, Class::Digit);
    let dotted = k < n && b[k] == '.';
    let m = if dotted {
        scan_run(&b, k + 1, Class::Digit)
    } else {
        k
    };
    let some = if dotted {
        m > 1
    } else {
        m > 0
    };
    is_named(&b, "inf") || is_named(&b, "infinity") || is_named(&b, "nan") || (some && (m == n
        || is_exponent(&b, m)))
}

fn parse_dimension(v: &[char]) -> (r: Option<Dimension>)
    ensures
        r.deep_view() == dimension(v@),
{
    proof {
        reveal_strlit("%");
        reveal_strlit("px");
    }
    if ends_with(v, &chars_of("%")) {
        let head = part(v, 0, v.len() - 1);
        assert(head@ =~= without_end(v@, 1));
        let t = trimmed(&head);
        return if number(&t) {
            Some(Dimension::Percent(string_of(&t)))
        } else {
            None
        };
    }
    if ends_with(v, &chars_of("px")) {
        let head = part(v, 0, v.len() - 2);
        assert(head@ =~= without_end(v@, 2));
        let t = trimmed(&head);
        return if number(&t) {
            Some(Dimension::Px(string_of(&t)))
        } else {
            None
        };
    }
    if is_word(v, "auto") {
        Some(Dimension::Auto)
    } else {
        None
    }
}

fn apply_declaration(style: &mut BoxStyle, d: &[char])
    ensures
        final(style)@ == declared(old(style)@, d@),
{
    if let Some((property, value)) = split_declaration(d) {
        if is_word(&property, "display") {
            if is_word(&value, "flex") {
                style.display = Display::Flex;
            } else if is_word(&value, "grid") {
                style.display = Display::Grid;
            } else if is_word(&value, "none") {
                style.display = Display::Hidden;
            }
        } else if is_word(&property, "width") {
            if let Some(width) = parse_dimension(&value) {
                style.width = width;
            }
        } else if is_word(&property, "height") {
            if let Some(height) = parse_dimension(&value) {
                style.height = height;
            }
        }
    }
}

/// Applies the layout-relevant CSS declarations (`display`, `width`, `height`) found in
/// `declarations_css` onto `style`. Declarations this runtime doesn't understand yet are ignored
/// rather than erroring, since most CSS properties (color, font, ...) aren't layout inputs.
pub fn apply_declarations(style: &mut BoxStyle, declarations_css: &str)
    ensures
        final(style)@ == applied(old(style)@, declarations_css@),
{
    let ghost first = style@;
    let ds = split_at_char(&chars_of(declarations_css), ';');
    let ghost all = texts(ds@);
    let mut i: usize = 0;
    assert(all.take(0) =~= Seq::<Seq<char>>::empty());
    while i < ds.len()
        invariant
            0 <= i <= ds@.len(),
            all == texts(ds@),
            style@ == declared_all(first, all.take(i as int)),
        decreases ds@.len() - i,
    {
        assert(all.take(i + 1).drop_last() =~= all.take(i as int));
        assert(all.take(i + 1).last() == ds@[i as int]@);
        apply_declaration(style, &ds[i]);
        i = i + 1;
    }
    assert(all.take(all.len() as int) =~= all);
}

/// A rule that matches an element: the specificity of its selectors, its place in the source, and
/// its declarations.
#[derive(Debug, Clone, PartialEq, Eq)]
pub struct MatchedRule {
    pub specificity: u32,
    pub index: usize,
    pub declarations_css: String,
}

/// The mathematical form of a matched rule.
pub struct MatchView {
    pub specificity: u32,
    pub index: usize,
    pub declarations_css: Seq<char>,
}

impl DeepView for MatchedRule {
    type V = MatchView;

    open spec fn deep_view(&self) -> MatchView {
        MatchView {
            specificity: self.specificity,
            index: self.index,
            declarations_css: self.declarations_css@,
        }
    }
}

/// Whether a rule is applied before another: lower specificity first, then earlier in the source.
pub open spec fn earlier(a: MatchView, b: MatchView) -> bool {
    a.specificity < b.specificity || (a.specificity == b.specificity && a.index < b.index)
}

/// A rule put into an ordered list behind everything that is not applied after it.
pub open spec fn inserted(order: Seq<MatchView>, m: MatchView) -> Seq<MatchView>
    decreases order.len(),
{
    if order.len() > 0 && earlier(m, order.last()) {
        inserted(order.drop_last(), m).push(order.last())
    } else {
        order.push(m)
    }
}

/// The matched rules in cascade order.
pub open spec fn cascade(ms: Seq<MatchView>) -> Seq<MatchView>
    decreases ms.len(),
{
    if ms.len() == 0 {
        Seq::empty()
    } else {
        inserted(cascade(ms.drop_last()), ms.last())
    }
}

/// The style after rules, in order.
pub open spec fn styled(order: Seq<MatchView>) -> StyleView
    decreases order.len(),
{
    if order.len() == 0 {
        plain_style()
    } else {
        applied(styled(order.drop_last()), order.last().declarations_css)
    }
}

fn is_earlier(a: &MatchedRule, b: &MatchedRule) -> (r: bool)
    ensures
        r == earlier(a.deep_view(), b.deep_view()),
{
    a.specificity < b.specificity || (a.specificity == b.specificity && a.index < b.index)
}

/// Where a rule goes in an ordered list.
fn place_for(order: &Vec<&MatchedRule>, m: &MatchedRule) -> (k: usize)
    ensures
        k <= order@.len(),
        inserted(order.deep_view(), m.deep_view()) == order.deep_view().insert(
            k as int,
            m.deep_view(),
        ),
{
    let ghost ov = order.deep_view();
    let ghost mv = m.deep_view();
    let mut k: usize = order.len();
    assert(ov.take(k as int) =~= ov);
    assert(ov.skip(k as int) =~= Seq::<MatchView>::empty());
    assert(inserted(ov, mv) =~= inserted(ov.take(k as int), mv) + ov.skip(k as int));
    while k > 0 && is_earlier(m, order[k - 1])
        invariant
            0 <= k <= order@.len(),
            ov == order.deep_view(),
            mv == m.deep_view(),
            inserted(ov, mv) == inserted(ov.take(k as int), mv) + ov.skip(k as int),
        decreases k,
    {
        proof {
            let t = ov.take(k as int);
            assert(t.last() == order@[k - 1].deep_view());
            assert(t.drop_last() =~= ov.take(k - 1));
            assert(inserted(ov.take(k - 1), mv).push(t.last()) + ov.skip(k as int) =~= inserted(
                ov.take(k - 1),
                mv,
            ) + ov.skip(k - 1));
        }
        k = k - 1;
    }
    proof {
        let t = ov.take(k as int);
        if k > 0 {
            assert(t.last() == order@[k - 1].deep_view());
        }
        assert(inserted(t, mv) == t.push(mv));
        assert(t.push(mv) + ov.skip(k as int) =~= ov.insert(k as int, mv));
    }
    k
}

/// Resolves the box style of an element from the rules that match it, ordered by CSS
/// cascade/specificity so the highest-specificity (then, for ties, latest-in-source) rule wins —
/// matching real CSS cascade ordering rather than raw source order. An element with nothing
/// declared is a block-level box.
pub fn resolve_style(matched: &Vec<MatchedRule>) -> (style: BoxStyle)
    ensures
        style@ == styled(cascade(matched.deep_view())),
{
    let ghost mv = matched.deep_view();
    let mut order: Vec<&MatchedRule> = Vec::new();
    let mut i: usize = 0;
    assert(mv.take(0) =~= Seq::<MatchView>::empty());
    assert(order.deep_view() =~= cascade(mv.take(0)));
    while i < matched.len()
        invariant
            0 <= i <= matched@.len(),
            mv == matched.deep_view(),
            order.deep_view() == cascade(mv.take(i as int)),
        decreases matched@.len() - i,
    {
        assert(mv.take(i + 1).drop_last() =~= mv.take(i as int));
        let m = &matched[i];
        assert(mv.take(i + 1).last() == m.deep_view());
        let ghost was = order.deep_view();
        let k = place_for(&order, m);
        order.insert(k, m);
        assert(order.deep_view() =~= was.insert(k as int, m.deep_view()));
        i = i + 1;
    }
    assert(mv.take(mv.len() as int) =~= mv);
    let ghost ov = order.deep_view();
    let mut style = BoxStyle {
        display: Display::Block,
        width: Dimension::Auto,
        height: Dimension::Auto,
    };
    let mut i: usize = 0;
    assert(ov.take(0) =~= Seq::<MatchView>::empty());
    while i < order.len()
        invariant
            0 <= i <= order@.len(),
            ov == order.deep_view(),
            style@ == styled(ov.take(i as int)),
        decreases order@.len() - i,
    {
        assert(ov.take(i + 1).drop_last() =~= ov.take(i as int));
        assert(ov.take(i + 1).last() == order@[i as int].deep_view());
        apply_declarations(&mut style, &order[i].declarations_css);
        i = i + 1;
    }
    assert(ov.take(ov.len() as int) =~= ov);
    style
}

/// Whether no rule of a list is applied after a later one.
pub open spec fn ordered(order: Seq<MatchView>) -> bool {
    forall|i: int, j: int|
        0 <= i < j < order.len() ==> !earlier(#[trigger] order[j], #[trigger] order[i])
}

proof fn lemma_inserted(order: Seq<MatchView>, m: MatchView)
    requires
        ordered(order),
    ensures
        ordered(inserted(order, m)),
        inserted(order, m).to_multiset() == order.to_multiset().insert(m),
        inserted(order, m).len() == order.len() + 1,
        forall|k: int|
            0 <= k < inserted(order, m).len() ==> (#[trigger] inserted(order, m)[k]) == m || exists|
                j: int,
            |
                0 <= j < order.len() && order[j] == inserted(order, m)[k],
    decreases order.len(),
{
    broadcast use vstd::seq_lib::group_to_multiset_ensures;

    let r = inserted(order, m);
    if order.len() > 0 && earlier(m, order.last()) {
        let front = order.drop_last();
        let last = order.last();
        assert(ordered(front));
        lemma_inserted(front, m);
        let f = inserted(front, m);
        assert(order =~= front.push(last));
        assert(r.to_multiset() =~= order.to_multiset().insert(m));
        assert forall|i: int, j: int| 0 <= i < j < r.len() implies !earlier(
            #[trigger] r[j],
            #[trigger] r[i],
        ) by {
            if j == r.len() - 1 {
                assert(r[i] == f[i]);
                if f[i] != m {
                    let q = choose|q: int| 0 <= q < front.len() && front[q] == f[i];
                    assert(order[q] == f[i]);
                    assert(!earlier(order[order.len() - 1], order[q]));
                }
            } else {
                assert(r[i] == f[i] && r[j] == f[j]);
            }
        }
        assert forall|k: int| 0 <= k < r.len() implies (#[trigger] r[k]) == m || exists|j: int|
            0 <= j < order.len() && order[j] == r[k] by {
            if k < f.len() {
                assert(r[k] == f[k]);
                if f[k] != m {
                    let q = choose|q: int| 0 <= q < front.len() && front[q] == f[k];
                    assert(order[q] == r[k]);
                }
            } else {
                assert(order[order.len() - 1] == r[k]);
            }
        }
    } else {
        assert forall|i: int, j: int| 0 <= i < j < r.len() implies !earlier(
            #[trigger] r[j],
            #[trigger] r[i],
        ) by {
            if j == r.len() - 1 && order.len() > 0 {
                let last = order[order.len() - 1];
                if i < order.len() - 1 {
                    assert(!earlier(order[order.len() - 1], order[i]));
                }
                assert(!earlier(m, last));
            }
        }
        assert forall|k: int| 0 <= k < r.len() implies (#[trigger] r[k]) == m || exists|j: int|
            0 <= j < order.len() && order[j] == r[k] by {
            if k < order.len() {
                assert(order[k] == r[k]);
            }
        }
    }
}

/// The cascade order holds every matched rule once, none before one that it yields to.
pub proof fn law_cascade_is_ordered(ms: Seq<MatchView>)
    ensures
        ordered(cascade(ms)),
        cascade(ms).to_multiset() == ms.to_multiset(),
    decreases ms.len(),
{
    broadcast use vstd::seq_lib::group_to_multiset_ensures;

    if ms.len() > 0 {
        law_cascade_is_ordered(ms.drop_last());
        lemma_inserted(cascade(ms.drop_last()), ms.last());
        assert(ms =~= ms.drop_last().push(ms.last()));
    } else {
        assert(cascade(ms) =~= ms);
    }
}

/// The rule that yields to no other has the last word: what it declares is applied to whatever the
/// others came to.
pub proof fn law_last_rule_wins(ms: Seq<MatchView>, k: int)
    requires
        0 <= k < ms.len(),
    ensures
        cascade(ms).len() == ms.len(),
        !earlier(cascade(ms).last(), ms[k]),
        styled(cascade(ms)) == applied(
            styled(cascade(ms).drop_last()),
            cascade(ms).last().declarations_css,
        ),
{
    broadcast use vstd::seq_lib::group_to_multiset_ensures;

    law_cascade_is_ordered(ms);
    let order = cascade(ms);
    assert(order.len() == order.to_multiset().len());
    assert(ms.len() == ms.to_multiset().len());
    assert(ms.contains(ms[k]));
    assert(ms.to_multiset().count(ms[k]) > 0);
    assert(order.contains(ms[k]));
    let j = choose|j: int| 0 <= j < order.len() && order[j] == ms[k];
    if j < order.len() - 1 {
        assert(!earlier(order[order.len() - 1], order[j]));
    }
}
/// Whether one of a rule's selectors matches; of each it is known whether it matches and how
/// specific it is.
pub open spec fn any_matches(selectors: Seq<(bool, u32)>) -> bool {
    exists|i: int| 0 <= i < selectors.len() && (#[trigger] selectors[i]).0
}

/// The specificity of a rule: the largest of its selectors.
pub open spec fn rule_specificity(selectors: Seq<(bool, u32)>) -> u32
    decreases selectors.len(),
{
    if selectors.len() == 0 {
        0
    } else {
        let front = rule_specificity(selectors.drop_last());
        if selectors.last().1 > front {
            selectors.last().1
        } else {
            front
        }
    }
}

/// The rules that match an element among the first ones, in source order.
pub open spec fn matches_among(
    rules: Seq<RuleView>,
    answers: Seq<Seq<(bool, u32)>>,
    n: int,
) -> Seq<MatchView>
    decreases n,
{
    if n <= 0 {
        Seq::empty()
    } else {
        let front = matches_among(rules, answers, n - 1);
        if any_matches(answers[n - 1]) {
            front.push(
                MatchView {
                    specificity: rule_specificity(answers[n - 1]),
                    index: (n - 1) as usize,
                    declarations_css: rules[n - 1].declarations_css,
                },
            )
        } else {
            front
        }
    }
}

fn weigh(selectors: &Vec<(bool, u32)>) -> (r: (bool, u32))
    ensures
        r.0 == any_matches(selectors@),
        r.1 == rule_specificity(selectors@),
{
    let mut any = false;
    let mut most: u32 = 0;
    let mut i: usize = 0;
    assert(selectors@.take(0) =~= Seq::<(bool, u32)>::empty());
    while i < selectors.len()
        invariant
            0 <= i <= selectors@.len(),
            any ==> any_matches(selectors@),
            !any ==> forall|k: int| 0 <= k < i ==> !(#[trigger] selectors@[k]).0,
            most == rule_specificity(selectors@.take(i as int)),
        decreases selectors@.len() - i,
    {
        assert(selectors@.take(i + 1).drop_last() =~= selectors@.take(i as int));
        let (matches, specificity) = selectors[i];
        assert(selectors@.take(i + 1).last() == selectors@[i as int]);
        if matches {
            any = true;
        }
        if specificity > most {
            most = specificity;
        }
        i = i + 1;
    }
    assert(selectors@.take(selectors@.len() as int) =~= selectors@);
    (any, most)
}

/// The rules that match an element, in source order, from what matching says of every selector of
/// every rule: whether it matches, and how specific it is. A rule may list several selectors; the
/// most specific of the list governs.
pub fn matched_rules(rules: &Vec<StyleRule>, answers: &Vec<Vec<(bool, u32)>>) -> (r: Vec<
    MatchedRule,
>)
    requires
        rules@.len() == answers@.len(),
    ensures
        r.deep_view() == matches_among(
            rules.deep_view(),
            answers.deep_view(),
            rules@.len() as int,
        ),
{
    let ghost rv = rules.deep_view();
    let ghost av = answers.deep_view();
    let mut out: Vec<MatchedRule> = Vec::new();
    let mut i: usize = 0;
    assert(out.deep_view() =~= Seq::<MatchView>::empty());
    while i < rules.len()
        invariant
            0 <= i <= rules@.len(),
            rules@.len() == answers@.len(),
            rv == rules.deep_view(),
            av == answers.deep_view(),
            out.deep_view() == matches_among(rv, av, i as int),
        decreases rules@.len() - i,
    {
        let (any, specificity) = weigh(&answers[i]);
        assert(av[i as int] =~= answers@[i as int]@);
        if any {
            let ghost was = out.deep_view();
            let m = MatchedRule {
                specificity,
                index: i,
                declarations_css: String::from_str(rules[i].declarations_css.as_str()),
            };
            let ghost x = m.deep_view();
            out.push(m);
            assert(out.deep_view() =~= was.push(x));
            assert(rv[i as int].declarations_css == rules@[i as int].declarations_css@);
        }
        i = i + 1;
    }
    out
}

} // verus!
