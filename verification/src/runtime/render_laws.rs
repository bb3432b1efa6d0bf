//! What rendering comes to: which box a declaration gives, which rules have the last word, what is
//! painted where, and how frames and fonts compare.
use crate::appfront::style_laws::{
    declared as declaration_text, hex_byte as hex_pair, hex_digit as small_digit, lemma_declared,
    lemma_hex_digit, lemma_plain_number,
};
use crate::runtime::css::RuleView;
use crate::runtime::html::NodeView;
use crate::runtime::display_list::{
    color_of, hex_bytes, hex_color, hex_digit, painted_nodes, values_in, Color,
};
use crate::runtime::fonts::{family_of, first_families, FaceView, FamilyView};
use crate::runtime::layout::{
    any_matches, applied, cascade, declared, declared_all, dimension, earlier,
    law_cascade_is_ordered, matches_among, ordered, rule_specificity, DimView, Display, MatchView,
    StyleView,
};
use crate::runtime::screenshot_diff::{
    changed_count, delta_total, marked, pixel_delta, pixel_sum, worst_delta,
};
use crate::runtime::gpu::padded_row;
use crate::runtime::software_raster::{alpha_over, channel_over, covers_place, over, raw_of, PaintRect};
use crate::string_laws::{
    all_white, law_last_piece, law_lower_case, law_pieces_are_between_separators,
    law_trim_takes_white_space, tight,
};
use crate::strings::{dec, ends, lower, lower_seq, pieces};
use vstd::arithmetic::div_mod::lemma_div_multiples_vanish;
use vstd::prelude::*;

verus! {

/// Layout goes by `display`, `width` and `height`, each by the declarations of its own name; a value
/// that means nothing leaves the box as it was.
pub proof fn law_layout_declarations(
    s: StyleView,
    a: Seq<char>,
    name: Seq<char>,
    b: Seq<char>,
    c: Seq<char>,
    v: Seq<char>,
    d: Seq<char>,
)
    requires
        all_white(a),
        all_white(b),
        all_white(c),
        all_white(d),
        tight(name),
        tight(v),
        !name.contains(':'),
    ensures
        ({
            let q = declared(s, declaration_text(a, name, b, c, v, d));
            let dim = dimension(v);
            &&& q.width == (if name == "width"@ && dim is Some {
                dim->0
            } else {
                s.width
            })
            &&& q.height == (if name == "height"@ && dim is Some {
                dim->0
            } else {
                s.height
            })
            &&& name == "display"@ && v == "flex"@ ==> q.display == Display::Flex
            &&& name == "display"@ && v == "grid"@ ==> q.display == Display::Grid
            &&& name == "display"@ && v == "none"@ ==> q.display == Display::Hidden
            &&& name != "display"@ || (v != "flex"@ && v != "grid"@ && v != "none"@) ==> q.display
                == s.display
        }),
{
    lemma_declared(a, name, b, c, v, d);
    reveal_strlit("display");
    reveal_strlit("width");
    reveal_strlit("height");
    reveal_strlit("flex");
    reveal_strlit("grid");
    reveal_strlit("none");
    assert("display"@.len() == 7 && "width"@.len() == 5 && "height"@.len() == 6);
    assert("flex"@[0] == 'f' && "grid"@[0] == 'g' && "none"@[0] == 'n');
}

/// Declarations of a block take effect in order.
pub proof fn law_layout_blocks(s: StyleView, block: Seq<char>, d: Seq<char>)
    requires
        !d.contains(';'),
    ensures
        applied(s, block + seq![';'] + d) == declared(applied(s, block), d),
        applied(s, d) == declared(s, d),
{
    law_last_piece(block, ';', d);
    assert(pieces(block, ';').push(d).drop_last() =~= pieces(block, ';'));
    law_pieces_are_between_separators(d, ';', Seq::empty());
    assert(seq![d].drop_last() =~= Seq::<Seq<char>>::empty());
    assert(declared_all(s, seq![d].drop_last()) == s);
    assert(seq![d].last() == d);
}

/// A whole number is a dimension in pixels with `px` behind it, and a percentage with `%`; alone it
/// is none. `auto` is one.
#[verifier::rlimit(40)]
pub proof fn law_dimensions(n: nat)
    ensures
        dimension(dec(n) + "px"@) == Some(DimView::Px(dec(n))),
        dimension(dec(n) + "%"@) == Some(DimView::Percent(dec(n))),
        dimension("auto"@) == Some(DimView::Auto),
        dimension(dec(n)) is None,
{
    let t = dec(n);
    let e = Seq::<char>::empty();
    lemma_plain_number(n);
    reveal_strlit("px");
    reveal_strlit("%");
    reveal_strlit("auto");
    law_trim_takes_white_space(e, t, e);
    assert(e + t + e =~= t);
    let u = t + "px"@;
    assert(u.skip(u.len() - 2) =~= "px"@);
    assert(u.skip(u.len() - 1)[0] == 'x');
    assert(!ends(u, "%"@));
    assert(u.take(u.len() - 2) =~= t);
    let w = t + "%"@;
    assert(w.skip(w.len() - 1) =~= "%"@);
    assert(w.take(w.len() - 1) =~= t);
    let v = "auto"@;
    assert(v.skip(v.len() - 1)[0] == 'o');
    assert(v.skip(v.len() - 2)[1] == 'o');
    assert(t.skip(t.len() - 1)[0] == t.last());
    if ends(t, "px"@) {
        assert(t.skip(t.len() - 2)[1] == t.last());
    }
    if t == v {
        assert(t[0] == 'a');
    }
}

/// In the cascade a less specific rule stands before a more specific one, and of two that are as
/// specific the one that comes first in the source.
pub proof fn law_cascade_order(ms: Seq<MatchView>, i: int, j: int)
    requires
        0 <= i < j < cascade(ms).len(),
    ensures
        ({
            let a = cascade(ms)[i];
            let b = cascade(ms)[j];
            a.specificity < b.specificity || (a.specificity == b.specificity && a.index <= b.index)
        }),
{
    law_cascade_is_ordered(ms);
    assert(ordered(cascade(ms)));
    assert(!earlier(cascade(ms)[j], cascade(ms)[i]));
}

/// A rule is as specific as the most specific of its selectors.
pub proof fn law_rule_specificity(selectors: Seq<(bool, u32)>)
    ensures
        forall|i: int|
            0 <= i < selectors.len() ==> (#[trigger] selectors[i]).1 <= rule_specificity(selectors),
        selectors.len() > 0 ==> exists|i: int|
            0 <= i < selectors.len() && (#[trigger] selectors[i]).1 == rule_specificity(selectors),
    decreases selectors.len(),
{
    if selectors.len() > 0 {
        let f = selectors.drop_last();
        let n = selectors.len() - 1;
        law_rule_specificity(f);
        assert forall|i: int| 0 <= i < selectors.len() implies (#[trigger] selectors[i]).1
            <= rule_specificity(selectors) by {
            if i < n {
                assert(selectors[i] == f[i]);
            }
        }
        if selectors.last().1 > rule_specificity(f) || f.len() == 0 {
            assert(selectors[n].1 == rule_specificity(selectors));
        } else {
            let i = choose|i: int| 0 <= i < f.len() && (#[trigger] f[i]).1 == rule_specificity(f);
            assert(selectors[i] == f[i]);
        }
    }
}

/// A rule is among those that apply to an element exactly where one of its selectors matches; it is
/// there once, with its own declarations.
pub proof fn law_matching_rules(
    rules: Seq<RuleView>,
    answers: Seq<Seq<(bool, u32)>>,
    n: int,
    k: int,
)
    requires
        0 <= k < n <= usize::MAX,
    ensures
        (exists|i: int| 0 <= i < answers[k].len() && (#[trigger] answers[k][i]).0) <==> exists|j: int|
            0 <= j < matches_among(rules, answers, n).len() && (#[trigger] matches_among(
                rules,
                answers,
                n,
            )[j]).index == k,
        forall|j: int|
            0 <= j < matches_among(rules, answers, n).len() && (#[trigger] matches_among(
                rules,
                answers,
                n,
            )[j]).index == k ==> matches_among(rules, answers, n)[j].declarations_css
                == rules[k].declarations_css && matches_among(rules, answers, n)[j].specificity
                == rule_specificity(answers[k]),
{
    lemma_matches(rules, answers, n, k);
}

proof fn lemma_matches(
    rules: Seq<RuleView>,
    answers: Seq<Seq<(bool, u32)>>,
    n: int,
    k: int,
)
    requires
        0 <= k,
        0 <= n <= usize::MAX,
    ensures
        k < n && any_matches(answers[k]) ==> exists|j: int|
            0 <= j < matches_among(rules, answers, n).len() && (#[trigger] matches_among(
                rules,
                answers,
                n,
            )[j]).index == k,
        forall|j: int|
            0 <= j < matches_among(rules, answers, n).len() && (#[trigger] matches_among(
                rules,
                answers,
                n,
            )[j]).index == k ==> k < n && any_matches(answers[k]) && matches_among(
                rules,
                answers,
                n,
            )[j].declarations_css == rules[k].declarations_css && matches_among(
                rules,
                answers,
                n,
            )[j].specificity == rule_specificity(answers[k]),
    decreases n,
{
    if n > 0 {
        lemma_matches(rules, answers, n - 1, k);
        let front = matches_among(rules, answers, n - 1);
        let all = matches_among(rules, answers, n);
        assert forall|j: int| 0 <= j < front.len() implies #[trigger] all[j] == front[j] by {}
        if k == n - 1 && any_matches(answers[k]) {
            assert(all[front.len() as int].index == k);
        } else if k < n - 1 && any_matches(answers[k]) {
            let j = choose|j: int| 0 <= j < front.len() && (#[trigger] front[j]).index == k;
            assert(all[j].index == k);
        }
        assert forall|j: int| 0 <= j < all.len() && (#[trigger] all[j]).index == k implies k < n
            && any_matches(answers[k]) && all[j].declarations_css == rules[k].declarations_css
            && all[j].specificity == rule_specificity(answers[k]) by {
            if j < front.len() {
                assert(all[j] == front[j]);
            }
        }
    }
}

/// A color in hexadecimal, of either case, is read channel by channel: `#rrggbb`, or `#rgb` with each
/// digit twice.
#[verifier::rlimit(40)]
pub proof fn law_hex_values(v: Seq<char>, red: u8, green: u8, blue: u8)
    ensures
        lower_seq(v) == seq!['#'] + hex_pair(red) + hex_pair(green) + hex_pair(blue) ==> hex_color(v)
            && hex_bytes(v) == (red, green, blue, 255u8),
        red < 16 && green < 16 && blue < 16 && lower_seq(v) == seq![
            '#',
            small_digit(red as nat),
            small_digit(green as nat),
            small_digit(blue as nat),
        ] ==> hex_color(v) && hex_bytes(v) == (
            (17 * red) as u8,
            (17 * green) as u8,
            (17 * blue) as u8,
            255u8,
        ),
{
    let l = lower_seq(v);
    law_lower_case(v);
    let long = seq!['#'] + hex_pair(red) + hex_pair(green) + hex_pair(blue);
    if l == long {
        assert(v.len() == 7);
        lemma_digit_at(v, 1, (red / 16) as nat);
        lemma_digit_at(v, 2, (red % 16) as nat);
        lemma_digit_at(v, 3, (green / 16) as nat);
        lemma_digit_at(v, 4, (green % 16) as nat);
        lemma_digit_at(v, 5, (blue / 16) as nat);
        lemma_digit_at(v, 6, (blue % 16) as nat);
        assert(l[0] == lower(v[0]));
        assert(l[0] == '#');
    }
    if red < 16 && green < 16 && blue < 16 && l == seq![
        '#',
        small_digit(red as nat),
        small_digit(green as nat),
        small_digit(blue as nat),
    ] {
        assert(v.len() == 4);
        lemma_digit_at(v, 1, red as nat);
        lemma_digit_at(v, 2, green as nat);
        lemma_digit_at(v, 3, blue as nat);
        assert(l[0] == lower(v[0]));
        assert(l[0] == '#');
    }
}

proof fn lemma_digit_at(v: Seq<char>, i: int, d: nat)
    requires
        0 <= i < v.len(),
        d < 16,
        lower_seq(v)[i] == small_digit(d),
    ensures
        hex_digit(v[i]) == Some(d as int),
{
    assert(lower_seq(v)[i] == lower(v[i]));
    lemma_hex_digit(d);
    if d < 10 {
        assert(small_digit(d) as nat == 48 + d);
    } else {
        assert(small_digit(d) as nat == 87 + d);
    }
}

/// The background goes by the declarations of `background-color` and of nothing else.
pub proof fn law_background_values(
    ds: Seq<Seq<char>>,
    a: Seq<char>,
    name: Seq<char>,
    b: Seq<char>,
    c: Seq<char>,
    v: Seq<char>,
    d: Seq<char>,
)
    requires
        all_white(a),
        all_white(b),
        all_white(c),
        all_white(d),
        tight(name),
        tight(v),
        !name.contains(':'),
    ensures
        values_in(ds.push(declaration_text(a, name, b, c, v, d))) == (if name == "background-color"@ {
            values_in(ds).push(v)
        } else {
            values_in(ds)
        }),
{
    lemma_declared(a, name, b, c, v, d);
    let t = declaration_text(a, name, b, c, v, d);
    assert(ds.push(t).drop_last() =~= ds);
    assert(ds.push(t).last() == t);
}

/// A rectangle covers the places from its left and top edges up to, but not including, its right and
/// bottom edges: cut in two, every place of it is covered by one of the halves and by one only.
pub proof fn law_rectangles_are_cut_cleanly(r: PaintRect, m: i64, x: int, y: int)
    ensures
        r.left <= m <= r.right ==> {
            let a = covers_place(PaintRect { right: m, ..r }, x, y);
            let b = covers_place(PaintRect { left: m, ..r }, x, y);
            !(a && b) && covers_place(r, x, y) == (a || b)
        },
        r.top <= m <= r.bottom ==> {
            let a = covers_place(PaintRect { bottom: m, ..r }, x, y);
            let b = covers_place(PaintRect { top: m, ..r }, x, y);
            !(a && b) && covers_place(r, x, y) == (a || b)
        },
        r.left < r.right && r.top < r.bottom ==> covers_place(r, r.left as int, r.top as int)
            && !covers_place(r, r.right as int, r.top as int) && !covers_place(
            r,
            r.left as int,
            r.bottom as int,
        ),
{
}

/// Painted over an opaque color, a color mixes with it by its alpha and the result is opaque: each
/// channel is the mean of the two, weighted by alpha and rounded down.
pub proof fn law_over_opaque(c: Color, d: Color)
    requires
        d.a == 255,
    ensures
        ({
            let o = over(c, d);
            let mean = |x: u8, y: u8| x * c.a + y * (255 - c.a);
            &&& o.a == 255
            &&& 255 * o.r <= mean(c.r, d.r) < 255 * o.r + 255
            &&& 255 * o.g <= mean(c.g, d.g) < 255 * o.g + 255
            &&& 255 * o.b <= mean(c.b, d.b) < 255 * o.b + 255
        }),
{
    lemma_mix(c.r, c.a, d.r);
    lemma_mix(c.g, c.a, d.g);
    lemma_mix(c.b, c.a, d.b);
}

proof fn lemma_mix(c: u8, ca: u8, d: u8)
    ensures
        alpha_over(ca as int, 255) == 255,
        ({
            let o = channel_over(c as int, ca as int, d as int, 255);
            255 * o <= c * ca + d * (255 - ca) < 255 * o + 255
        }),
{
    let k = 255 - ca;
    lemma_div_multiples_vanish(k, 255);
    let x = d * k;
    lemma_div_multiples_vanish(x, 255);
    assert(d * 255 * k == 255 * x) by (nonlinear_arith)
        requires
            x == d * k,
    ;
    let n = c * ca + x;
    assert(0 <= n <= 255 * 255) by (nonlinear_arith)
        requires
            n == c * ca + d * k,
            k == 255 - ca,
            0 <= c <= 255,
            0 <= d <= 255,
            0 <= ca <= 255,
    ;
    assert(alpha_over(ca as int, 255) == 255);
    assert(channel_over(c as int, ca as int, d as int, 255) == (n / 255 % 256) as u8);
}

/// A color without any alpha changes nothing that it is painted over.
pub proof fn law_transparent_over(c: Color, d: Color)
    requires
        c.a == 0,
        d.a > 0,
    ensures
        over(c, d) == d,
{
    lemma_clear(c.r, d.r, d.a);
    lemma_clear(c.g, d.g, d.a);
    lemma_clear(c.b, d.b, d.a);
}

proof fn lemma_clear(c: u8, d: u8, da: u8)
    requires
        da > 0,
    ensures
        alpha_over(0, da as int) == da,
        channel_over(c as int, 0, d as int, da as int) == d,
{
    let n = d * da;
    assert(n * 255 / 255 == n);
    assert(da * 255 / 255 == da as int);
    lemma_div_multiples_vanish(d as int, da as int);
    assert(da * d == n) by (nonlinear_arith)
        requires
            n == d * da,
    ;
    assert(c * 0 == 0);
}

/// The distance of two numbers.
pub open spec fn apart(a: u8, b: u8) -> int {
    if a < b {
        b - a
    } else {
        a - b
    }
}

/// Two pixels differ by the largest of the distances of their channels, and in sum by all four.
pub proof fn law_pixel_distances(a: Color, e: Color)
    ensures
        pixel_delta(a, e) >= apart(a.r, e.r),
        pixel_delta(a, e) >= apart(a.g, e.g),
        pixel_delta(a, e) >= apart(a.b, e.b),
        pixel_delta(a, e) >= apart(a.a, e.a),
        pixel_delta(a, e) == apart(a.r, e.r) || pixel_delta(a, e) == apart(a.g, e.g) || pixel_delta(
            a,
            e,
        ) == apart(a.b, e.b) || pixel_delta(a, e) == apart(a.a, e.a),
        pixel_sum(a, e) == apart(a.r, e.r) + apart(a.g, e.g) + apart(a.b, e.b) + apart(a.a, e.a),
{
}

/// Each pixel counts for itself: one more pixel adds one change where it differs and what it differs
/// by, and raises the largest distance to its own where that is larger.
pub proof fn law_each_pixel_counts(a: Seq<Color>, e: Seq<Color>, x: Color, y: Color)
    requires
        a.len() == e.len(),
    ensures
        changed_count(a.push(x), e.push(y)) == changed_count(a, e) + (if x == y {
            0nat
        } else {
            1nat
        }),
        delta_total(a.push(x), e.push(y)) == delta_total(a, e) + pixel_sum(x, y),
        worst_delta(a.push(x), e.push(y)) >= worst_delta(a, e),
        worst_delta(a.push(x), e.push(y)) >= pixel_delta(x, y),
        worst_delta(a.push(x), e.push(y)) == worst_delta(a, e) || worst_delta(a.push(x), e.push(y))
            == pixel_delta(x, y),
{
    assert(a.push(x).drop_last() =~= a);
    assert(e.push(y).drop_last() =~= e);
}

/// In the image of a difference a changed pixel is solid red, and an unchanged one is a third as
/// bright as it was.
pub proof fn law_difference_image(a: Color, e: Color)
    ensures
        a != e ==> marked(a, e) == color_of((255, 0, 0, 255)),
        a == e ==> {
            let m = marked(a, e);
            &&& 3 * m.r <= e.r < 3 * m.r + 3
            &&& 3 * m.g <= e.g < 3 * m.g + 3
            &&& 3 * m.b <= e.b < 3 * m.b + 3
            &&& m.a == e.a
        },
{
}

/// The five generic families go by their names; every other name asks for the family of that name.
pub proof fn law_families(name: Seq<char>)
    ensures
        name == "serif"@ <==> family_of(name) == FamilyView::Serif,
        name == "sans-serif"@ <==> family_of(name) == FamilyView::SansSerif,
        name == "monospace"@ <==> family_of(name) == FamilyView::Monospace,
        name == "cursive"@ <==> family_of(name) == FamilyView::Cursive,
        name == "fantasy"@ <==> family_of(name) == FamilyView::Fantasy,
        family_of(name) matches FamilyView::Name(n) ==> n == name,
{
    reveal_strlit("serif");
    reveal_strlit("sans-serif");
    reveal_strlit("monospace");
    reveal_strlit("cursive");
    reveal_strlit("fantasy");
    assert("serif"@.len() == 5 && "sans-serif"@.len() == 10 && "monospace"@.len() == 9);
    assert("cursive"@.len() == 7 && "fantasy"@.len() == 7);
    assert("cursive"@[0] == 'c' && "fantasy"@[0] == 'f');
}

/// Every face that has a family is listed by the first of them, in order, and no other is.
pub proof fn law_family_list(faces: Seq<FaceView>)
    ensures
        first_families(faces) == faces.filter(|f: FaceView| f.families.len() > 0).map_values(
            |f: FaceView| f.families[0],
        ),
    decreases faces.len(),
{
    reveal(Seq::filter);
    if faces.len() > 0 {
        law_family_list(faces.drop_last());
    }
    assert(first_families(faces) =~= faces.filter(|f: FaceView| f.families.len() > 0).map_values(
        |f: FaceView| f.families[0],
    ));
}

/// A node is painted where it is an element and has a background, with that color; nodes are painted
/// in the order in which they stand.
pub proof fn law_painted_nodes(
    nodes: Seq<NodeView>,
    backgrounds: Seq<Option<Color>>,
    to: int,
    k: usize,
    c: Color,
)
    requires
        0 <= to <= nodes.len() <= usize::MAX,
        backgrounds.len() == nodes.len(),
    ensures
        painted_nodes(nodes, backgrounds, to).contains((k, c)) <==> k < to && nodes[k as int].1 is Tag
            && backgrounds[k as int] == Some(c),
        forall|i: int, j: int|
            0 <= i < j < painted_nodes(nodes, backgrounds, to).len() ==> (#[trigger] painted_nodes(
                nodes,
                backgrounds,
                to,
            )[i]).0 < (#[trigger] painted_nodes(nodes, backgrounds, to)[j]).0,
        forall|i: int|
            0 <= i < painted_nodes(nodes, backgrounds, to).len() ==> (#[trigger] painted_nodes(
                nodes,
                backgrounds,
                to,
            )[i]).0 < to,
    decreases to,
{
    if to > 0 {
        law_painted_nodes(nodes, backgrounds, to - 1, k, c);
        let front = painted_nodes(nodes, backgrounds, to - 1);
        let all = painted_nodes(nodes, backgrounds, to);
        if front.contains((k, c)) {
            let i = choose|i: int| 0 <= i < front.len() && front[i] == (k, c);
            assert(all[i] == (k, c));
        }
        if all.contains((k, c)) {
            let i = choose|i: int| 0 <= i < all.len() && all[i] == (k, c);
            if i < front.len() {
                assert(front[i] == (k, c));
            }
        }
        if all.len() > front.len() {
            assert(all[front.len() as int] == all.last());
        }
    }
}

/// The bytes of an image are those of its pixels in order: red, green, blue and alpha of each.
pub proof fn law_raw_pixels(pixels: Seq<Color>, i: int)
    requires
        0 <= i < pixels.len(),
    ensures
        raw_of(pixels).len() == 4 * pixels.len(),
        raw_of(pixels)[4 * i] == pixels[i].r,
        raw_of(pixels)[4 * i + 1] == pixels[i].g,
        raw_of(pixels)[4 * i + 2] == pixels[i].b,
        raw_of(pixels)[4 * i + 3] == pixels[i].a,
    decreases pixels.len(),
{
    let f = pixels.drop_last();
    lemma_raw_len(f);
    let c = pixels.last();
    let own = seq![c.r, c.g, c.b, c.a];
    assert(raw_of(pixels) == raw_of(f) + own);
    if i < f.len() {
        law_raw_pixels(f, i);
        assert(f[i] == pixels[i]);
    } else {
        assert(own[0] == c.r && own[1] == c.g && own[2] == c.b && own[3] == c.a);
    }
}

proof fn lemma_raw_len(pixels: Seq<Color>)
    ensures
        raw_of(pixels).len() == 4 * pixels.len(),
    decreases pixels.len(),
{
    if pixels.len() > 0 {
        lemma_raw_len(pixels.drop_last());
    }
}

/// A row of a padded frame is the least multiple of 256 bytes that holds its pixels.
pub proof fn law_padded_rows(width: int)
    requires
        width >= 0,
    ensures
        padded_row(width) % 256 == 0,
        4 * width <= padded_row(width) < 4 * width + 256,
{
}

} // verus!
