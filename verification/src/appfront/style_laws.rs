//! What styles mean: which property a declaration sets, which of several settings holds, and what
//! box and paint an element ends up with.
use crate::appfront::css::{
    block_props, border_value, border_words, color_value, direction_value, display_value, hex_color,
    hex_pair, hex_value, length_value, matching, merged, no_props, overridden, with_declaration,
    with_declarations, without_px, DisplayKind, LengthView, PropsView, RuleView,
};
use crate::appfront::layout::{
    classes_in, inline_in, kind_at, props_at, BoxView, ExtentView, KindView, PaintView,
};
use crate::runtime::css::declaration;
use crate::runtime::html::{DataView, NodeView};
use crate::runtime::layout::{is_number, unsigned};
use crate::string_laws::{
    all_white, law_decimal_reads_back, law_last_piece, law_lower_case,
    law_pieces_are_between_separators, law_trim_takes_white_space, lemma_find_char, lemma_run_reaches,
    tight,
};
use crate::strings::{
    dec, ends, is_digit, lower, lower_seq, pieces, same_ignoring_case, white_space, words, Class,
};
use vstd::prelude::*;

verus! {

/// A declaration: a name and a value around a colon, with white space around each.
pub open spec fn declared(
    a: Seq<char>,
    name: Seq<char>,
    b: Seq<char>,
    c: Seq<char>,
    v: Seq<char>,
    d: Seq<char>,
) -> Seq<char> {
    (a + name + b) + seq![':'] + (c + v + d)
}

/// A setting, or what stood before where there is none.
pub open spec fn set_by<T>(own: bool, value: T, before: T) -> T {
    if own {
        value
    } else {
        before
    }
}

#[verifier::rlimit(40)]
pub proof fn lemma_declared(
    a: Seq<char>,
    name: Seq<char>,
    b: Seq<char>,
    c: Seq<char>,
    v: Seq<char>,
    d: Seq<char>,
)
    requires
        all_white(a),
        all_white(b),
        all_white(c),
        all_white(d),
        tight(name),
        tight(v),
        !name.contains(':'),
    ensures
        declaration(declared(a, name, b, c, v, d)) == Some((name, v)),
{
    let l = a + name + b;
    let r = c + v + d;
    reveal_strlit(":");
    assert(":"@ =~= seq![':']);
    assert(!l.contains(':')) by {
        if l.contains(':') {
            let i = choose|i: int| 0 <= i < l.len() && l[i] == ':';
            if i < a.len() {
                assert(white_space(a[i]));
            } else if i < a.len() + name.len() {
                assert(name[i - a.len()] == ':');
                assert(name.contains(':'));
            } else {
                assert(white_space(b[i - a.len() - name.len()]));
            }
        }
    }
    let s = declared(a, name, b, c, v, d);
    lemma_find_char(l, ":"@, r);
    assert(s.take(l.len() as int) =~= l);
    assert(s.skip(l.len() as int + 1) =~= r);
    law_trim_takes_white_space(a, name, b);
    law_trim_takes_white_space(c, v, d);
}

/// The names of the properties differ.
proof fn lemma_property_names()
    ensures
        "display"@.len() == 7 && "display"@[0] == 'd',
        "flex-direction"@.len() == 14,
        "width"@.len() == 5 && "width"@[0] == 'w',
        "height"@.len() == 6 && "height"@[0] == 'h',
        "padding"@.len() == 7 && "padding"@[0] == 'p',
        "margin"@.len() == 6 && "margin"@[0] == 'm',
        "font-size"@.len() == 9,
        "border-radius"@.len() == 13,
        "background"@.len() == 10,
        "background-color"@.len() == 16,
        "color"@.len() == 5 && "color"@[0] == 'c',
        "border"@.len() == 6 && "border"@[0] == 'b',
{
    reveal_strlit("display");
    reveal_strlit("flex-direction");
    reveal_strlit("width");
    reveal_strlit("height");
    reveal_strlit("padding");
    reveal_strlit("margin");
    reveal_strlit("font-size");
    reveal_strlit("border-radius");
    reveal_strlit("background");
    reveal_strlit("background-color");
    reveal_strlit("color");
    reveal_strlit("border");
}

/// Each property goes by the declarations of its own name, in whatever case, and by no other.
pub proof fn law_declaration_sets_its_property(
    p: PropsView,
    a: Seq<char>,
    name: Seq<char>,
    b: Seq<char>,
    c: Seq<char>,
    v: Seq<char>,
    d: Seq<char>,
)
    requires
        all_white(a),
        all_white(b),
        all_white(c),
        all_white(d),
        tight(name),
        tight(v),
        !name.contains(':'),
    ensures
        ({
            let n = lower_seq(name);
            let q = with_declaration(p, declared(a, name, b, c, v, d));
            &&& q.display == set_by(n == "display"@, display_value(v), p.display)
            &&& q.flex_direction == set_by(
                n == "flex-direction"@,
                direction_value(v),
                p.flex_direction,
            )
            &&& q.width == set_by(n == "width"@, length_value(v), p.width)
            &&& q.height == set_by(n == "height"@, length_value(v), p.height)
            &&& q.padding == set_by(n == "padding"@, length_value(v), p.padding)
            &&& q.margin == set_by(n == "margin"@, length_value(v), p.margin)
            &&& q.background == set_by(
                n == "background"@ || n == "background-color"@,
                color_value(v),
                p.background,
            )
            &&& q.color == set_by(n == "color"@, color_value(v), p.color)
            &&& q.font_size == set_by(n == "font-size"@, length_value(v), p.font_size)
            &&& q.border_width == match border_value(v) {
                Some((w, _)) => set_by(n == "border"@, Some(w), p.border_width),
                None => p.border_width,
            }
            &&& q.border_color == match border_value(v) {
                Some((_, k)) => set_by(n == "border"@, Some(k), p.border_color),
                None => p.border_color,
            }
            &&& q.radius == set_by(n == "border-radius"@, length_value(v), p.radius)
        }),
{
    lemma_declared(a, name, b, c, v, d);
    lemma_property_names();
}

/// The declarations of a block take effect in order: one more declaration at its end is made on top
/// of the ones before it.
pub proof fn law_declarations_in_order(block: Seq<char>, d: Seq<char>)
    requires
        !d.contains(';'),
    ensures
        block_props(block + seq![';'] + d) == with_declaration(block_props(block), d),
        block_props(d) == with_declaration(no_props(), d),
{
    law_last_piece(block, ';', d);
    assert(pieces(block, ';').push(d).drop_last() =~= pieces(block, ';'));
    law_pieces_are_between_separators(d, ';', Seq::empty());
    assert(seq![d].drop_last() =~= Seq::<Seq<char>>::empty());
    assert(with_declarations(seq![d].drop_last()) == no_props());
    assert(seq![d].last() == d);
}

/// Whether a value is the last one that is set in a list, or none where none is.
pub open spec fn last_set<T>(r: Option<T>, s: Seq<Option<T>>) -> bool {
    match r {
        Some(v) => exists|i: int|
            0 <= i < s.len() && #[trigger] s[i] == Some(v) && forall|j: int|
                i < j < s.len() ==> (#[trigger] s[j]) is None,
        None => forall|i: int| 0 <= i < s.len() ==> (#[trigger] s[i]) is None,
    }
}

proof fn lemma_last_set<T>(front: Option<T>, s: Seq<Option<T>>)
    requires
        s.len() > 0,
        last_set(front, s.drop_last()),
    ensures
        last_set(
            if s.last() is Some {
                s.last()
            } else {
                front
            },
            s,
        ),
{
    let f = s.drop_last();
    if s.last() is Some {
        assert(s[s.len() - 1] == s.last());
    } else if let Some(v) = front {
        let i = choose|i: int|
            0 <= i < f.len() && #[trigger] f[i] == Some(v) && forall|j: int|
                i < j < f.len() ==> (#[trigger] f[j]) is None;
        assert(s[i] == f[i]);
        assert forall|j: int| i < j < s.len() implies (#[trigger] s[j]) is None by {
            if j < f.len() {
                assert(s[j] == f[j]);
            }
        }
    } else {
        assert forall|j: int| 0 <= j < s.len() implies (#[trigger] s[j]) is None by {
            if j < f.len() {
                assert(s[j] == f[j]);
            }
        }
    }
}

/// Of several settings of a property the last holds, each property for itself.
pub proof fn law_last_setting_holds(rules: Seq<PropsView>)
    ensures
        ({
            let m = merged(rules);
            &&& last_set(m.display, rules.map_values(|p: PropsView| p.display))
            &&& last_set(m.flex_direction, rules.map_values(|p: PropsView| p.flex_direction))
            &&& last_set(m.width, rules.map_values(|p: PropsView| p.width))
            &&& last_set(m.height, rules.map_values(|p: PropsView| p.height))
            &&& last_set(m.padding, rules.map_values(|p: PropsView| p.padding))
            &&& last_set(m.margin, rules.map_values(|p: PropsView| p.margin))
            &&& last_set(m.background, rules.map_values(|p: PropsView| p.background))
            &&& last_set(m.color, rules.map_values(|p: PropsView| p.color))
            &&& last_set(m.font_size, rules.map_values(|p: PropsView| p.font_size))
            &&& last_set(m.border_width, rules.map_values(|p: PropsView| p.border_width))
            &&& last_set(m.border_color, rules.map_values(|p: PropsView| p.border_color))
            &&& last_set(m.radius, rules.map_values(|p: PropsView| p.radius))
        }),
    decreases rules.len(),
{
    if rules.len() > 0 {
        let f = rules.drop_last();
        law_last_setting_holds(f);
        let m = merged(f);
        lemma_setting(rules, |p: PropsView| p.display, m.display);
        lemma_setting(rules, |p: PropsView| p.flex_direction, m.flex_direction);
        lemma_setting(rules, |p: PropsView| p.width, m.width);
        lemma_setting(rules, |p: PropsView| p.height, m.height);
        lemma_setting(rules, |p: PropsView| p.padding, m.padding);
        lemma_setting(rules, |p: PropsView| p.margin, m.margin);
        lemma_setting(rules, |p: PropsView| p.background, m.background);
        lemma_setting(rules, |p: PropsView| p.color, m.color);
        lemma_setting(rules, |p: PropsView| p.font_size, m.font_size);
        lemma_setting(rules, |p: PropsView| p.border_width, m.border_width);
        lemma_setting(rules, |p: PropsView| p.border_color, m.border_color);
        lemma_setting(rules, |p: PropsView| p.radius, m.radius);
    }
}

proof fn lemma_setting<T>(
    rules: Seq<PropsView>,
    get: spec_fn(PropsView) -> Option<T>,
    front: Option<T>,
)
    requires
        rules.len() > 0,
        last_set(front, rules.drop_last().map_values(get)),
    ensures
        last_set(
            if get(rules.last()) is Some {
                get(rules.last())
            } else {
                front
            },
            rules.map_values(get),
        ),
{
    let s = rules.map_values(get);
    assert(s.drop_last() =~= rules.drop_last().map_values(get));
    assert(s.last() == get(rules.last()));
    lemma_last_set(front, s);
}

/// The box of an element holds each resolved value under its own name: a width or a height that is
/// set is given, padding is padding and margin is margin; and so does its paint.
pub proof fn law_box_holds_resolved_values(n: NodeView, sheet: Seq<RuleView>)
    requires
        n.1 is Tag,
    ensures
        kind_at(n, sheet) matches Some(KindView::Element(b, paint)) && {
            let p = props_at(n, sheet);
            &&& b.padding == p.padding
            &&& b.margin == p.margin
            &&& b.flex_direction == p.flex_direction
            &&& p.width matches Some(w) ==> b.width == ExtentView::Given(w)
            &&& p.height matches Some(h) ==> b.height == ExtentView::Given(h)
            &&& p.height is None ==> b.height == ExtentView::Auto
            &&& p.display == Some(DisplayKind::Block) ==> !b.flex
            &&& p.display == Some(DisplayKind::Flex) ==> b.flex
            &&& p.display == Some(DisplayKind::Grid) ==> b.flex
            &&& p.display is None && p.width is None ==> (b.flex <==> b.width == ExtentView::Auto)
            &&& paint.background == p.background
            &&& paint.border_color == p.border_color
            &&& paint.border_width == p.border_width
            &&& paint.radius == p.radius
        },
{
}

/// A number in decimal is a number, without white space, and no name of one.
pub proof fn lemma_plain_number(n: nat)
    ensures
        is_number(dec(n)),
        tight(dec(n)),
        dec(n).len() > 0,
        is_digit(dec(n)[0]),
        is_digit(dec(n).last()),
{
    law_decimal_reads_back(n);
    let t = dec(n);
    assert(is_digit(t[0]));
    assert(is_digit(t[t.len() - 1]));
    assert forall|i: int| 0 <= i < t.len() implies Class::Digit.holds(#[trigger] t[i]) by {}
    lemma_run_reaches(t, 0, t.len() as int, Class::Digit);
    assert(unsigned(t) == t);
}

/// A whole number is a length in pixels, with or without `px` behind it, and with `%` behind it a
/// percentage, whatever white space stands around it. `auto` is no length.
#[verifier::rlimit(40)]
pub proof fn law_lengths(a: Seq<char>, n: nat, b: Seq<char>)
    requires
        all_white(a),
        all_white(b),
    ensures
        length_value(a + dec(n) + b) == Some(LengthView::Px(dec(n))),
        length_value(a + (dec(n) + "px"@) + b) == Some(LengthView::Px(dec(n))),
        length_value(a + (dec(n) + "%"@) + b) == Some(LengthView::Percent(dec(n))),
        length_value(a + "auto"@ + b) is None,
{
    let t = dec(n);
    lemma_plain_number(n);
    reveal_strlit("px");
    reveal_strlit("%");
    reveal_strlit("auto");
    law_trim_takes_white_space(a, t, b);
    assert(!ends(t, "px"@)) by {
        if ends(t, "px"@) {
            assert(t.skip(t.len() - 2)[1] == 'x');
        }
    }
    assert(without_px(t) == t);
    assert(t != "auto"@) by {
        if t == "auto"@ {
            assert(t[0] == 'a');
        }
    }
    let u = t + "px"@;
    assert(u[0] == t[0]);
    assert(u.last() == 'x');
    law_trim_takes_white_space(a, u, b);
    assert(u.skip(u.len() - 2) =~= "px"@);
    assert(u.take(u.len() - 2) =~= t);
    assert(without_px(u) == without_px(t));
    assert(u != "auto"@) by {
        if u == "auto"@ {
            assert(u[0] == 'a');
        }
    }
    let w = t + "%"@;
    assert(w[0] == t[0]);
    assert(w.last() == '%');
    law_trim_takes_white_space(a, w, b);
    assert(w.drop_last() =~= t);
    let e = Seq::<char>::empty();
    law_trim_takes_white_space(e, t, e);
    assert(e + t + e =~= t);
    let v = "auto"@;
    assert(v[0] == 'a');
    assert(v.last() == 'o');
    law_trim_takes_white_space(a, v, b);
}

/// The hexadecimal digit of a number below sixteen.
pub open spec fn hex_digit(d: nat) -> char {
    if d < 10 {
        (48 + d) as char
    } else {
        (87 + d) as char
    }
}

/// A byte in hexadecimal.
pub open spec fn hex_byte(n: u8) -> Seq<char> {
    seq![hex_digit((n / 16) as nat), hex_digit((n % 16) as nat)]
}

pub proof fn lemma_hex_digit(d: nat)
    requires
        d < 16,
    ensures
        hex_value(hex_digit(d)) == Some(d),
        lower(hex_digit(d)) == hex_digit(d),
        !white_space(hex_digit(d)),
        hex_digit(d) != '+',
{
    if d < 10 {
        assert(hex_digit(d) as nat == 48 + d);
    } else {
        assert(hex_digit(d) as nat == 87 + d);
    }
}

/// Every opaque color can be written as `#rrggbb`, in hexadecimal of either case, and `#rgb` is short
/// for `#rrggbb` with each digit twice.
#[verifier::rlimit(40)]
pub proof fn law_hex_colors(
    a: Seq<char>,
    t: Seq<char>,
    b: Seq<char>,
    red: u8,
    green: u8,
    blue: u8,
)
    requires
        all_white(a),
        all_white(b),
    ensures
        lower_seq(t) == seq!['#'] + hex_byte(red) + hex_byte(green) + hex_byte(blue) ==> color_value(
            a + t + b,
        ) == Some(seq![red, green, blue, 255u8]),
        red < 16 && green < 16 && blue < 16 && lower_seq(t) == seq![
            '#',
            hex_digit(red as nat),
            hex_digit(green as nat),
            hex_digit(blue as nat),
        ] ==> color_value(a + t + b) == Some(
            seq![(17 * red) as u8, (17 * green) as u8, (17 * blue) as u8, 255u8],
        ),
{
    let l = lower_seq(t);
    law_lower_case(t);
    lemma_hex_digit((red / 16) as nat);
    lemma_hex_digit((red % 16) as nat);
    lemma_hex_digit((green / 16) as nat);
    lemma_hex_digit((green % 16) as nat);
    lemma_hex_digit((blue / 16) as nat);
    lemma_hex_digit((blue % 16) as nat);
    let long = seq!['#'] + hex_byte(red) + hex_byte(green) + hex_byte(blue);
    if l == long {
        assert(l[0] == '#');
        assert(l[6] == hex_digit((blue % 16) as nat));
        lemma_lower_tight(t);
        law_trim_takes_white_space(a, t, b);
        let h = l.skip(1);
        assert(h =~= seq![
            hex_digit((red / 16) as nat),
            hex_digit((red % 16) as nat),
            hex_digit((green / 16) as nat),
            hex_digit((green % 16) as nat),
            hex_digit((blue / 16) as nat),
            hex_digit((blue % 16) as nat),
        ]);
        assert(hex_pair(h[0], h[1]) == Some(red as nat));
        assert(hex_pair(h[2], h[3]) == Some(green as nat));
        assert(hex_pair(h[4], h[5]) == Some(blue as nat));
        assert(hex_color(h) == Some(seq![red, green, blue, 255u8]));
    }
    if red < 16 && green < 16 && blue < 16 {
        lemma_hex_digit(red as nat);
        lemma_hex_digit(green as nat);
        lemma_hex_digit(blue as nat);
        let short = seq![
            '#',
            hex_digit(red as nat),
            hex_digit(green as nat),
            hex_digit(blue as nat),
        ];
        if l == short {
            assert(l[0] == '#');
            assert(l[3] == hex_digit(blue as nat));
            lemma_lower_tight(t);
            law_trim_takes_white_space(a, t, b);
            assert(l.skip(1) =~= seq![
                hex_digit(red as nat),
                hex_digit(green as nat),
                hex_digit(blue as nat),
            ]);
        }
    }
}

/// Case does not turn white space into anything else.
proof fn lemma_lower_tight(t: Seq<char>)
    requires
        tight(lower_seq(t)),
    ensures
        tight(t),
{
    if t.len() > 0 {
        assert(lower_seq(t)[0] == lower(t[0]));
        assert(lower_seq(t)[t.len() - 1] == lower(t[t.len() - 1]));
    }
}

/// Colors have names, in whatever case and with whatever white space around them.
#[verifier::rlimit(40)]
pub proof fn law_named_colors(a: Seq<char>, t: Seq<char>, b: Seq<char>)
    requires
        all_white(a),
        all_white(b),
    ensures
        ({
            let n = lower_seq(t);
            let c = color_value(a + t + b);
            &&& n == "black"@ ==> c == Some(seq![0u8, 0, 0, 255])
            &&& n == "white"@ ==> c == Some(seq![255u8, 255, 255, 255])
            &&& n == "red"@ ==> c == Some(seq![220u8, 50, 47, 255])
            &&& n == "green"@ ==> c == Some(seq![50u8, 170, 70, 255])
            &&& n == "blue"@ ==> c == Some(seq![40u8, 90, 220, 255])
            &&& n == "gray"@ || n == "grey"@ ==> c == Some(seq![120u8, 120, 120, 255])
            &&& n == "darkgray"@ || n == "darkgrey"@ ==> c == Some(seq![80u8, 80, 80, 255])
            &&& n == "lightgray"@ || n == "lightgrey"@ ==> c == Some(seq![200u8, 200, 200, 255])
        }),
{
    reveal_strlit("black");
    reveal_strlit("white");
    reveal_strlit("red");
    reveal_strlit("green");
    reveal_strlit("blue");
    reveal_strlit("gray");
    reveal_strlit("grey");
    reveal_strlit("darkgray");
    reveal_strlit("darkgrey");
    reveal_strlit("lightgray");
    reveal_strlit("lightgrey");
    let n = lower_seq(t);
    if n == "black"@ || n == "white"@ || n == "red"@ || n == "green"@ || n == "blue"@ || n == "gray"@
        || n == "grey"@ || n == "darkgray"@ || n == "darkgrey"@ || n == "lightgray"@ || n
        == "lightgrey"@ {
        assert(n[0] == n.first());
        assert(n.last() == n[n.len() - 1]);
        assert("black"@[0] == 'b' && "black"@[1] == 'l' && "black"@[4] == 'k');
        assert("white"@[0] == 'w' && "white"@[4] == 'e');
        assert("red"@[0] == 'r' && "red"@[2] == 'd');
        assert("green"@[0] == 'g' && "green"@[4] == 'n');
        assert("blue"@[0] == 'b' && "blue"@[3] == 'e');
        assert("gray"@[0] == 'g' && "gray"@[2] == 'a' && "gray"@[3] == 'y');
        assert("grey"@[0] == 'g' && "grey"@[2] == 'e' && "grey"@[3] == 'y');
        assert("darkgray"@[0] == 'd' && "darkgray"@[7] == 'y');
        assert("darkgrey"@[0] == 'd' && "darkgrey"@[7] == 'y');
        assert("lightgray"@[0] == 'l' && "lightgray"@[8] == 'y');
        assert("lightgrey"@[0] == 'l' && "lightgrey"@[8] == 'y');
        lemma_lower_tight(t);
        law_trim_takes_white_space(a, t, b);
    }
}

/// The elements that are laid out as blocks unless they say otherwise.
pub open spec fn stands_as_block(tag: Seq<char>) -> bool {
    seq![
        "html"@,
        "body"@,
        "div"@,
        "p"@,
        "h1"@,
        "h2"@,
        "h3"@,
        "h4"@,
        "h5"@,
        "h6"@,
        "ul"@,
        "ol"@,
        "li"@,
        "header"@,
        "footer"@,
        "main"@,
        "section"@,
        "article"@,
        "nav"@,
        "blockquote"@,
        "pre"@,
    ].contains(tag)
}

/// The box of an element that declares nothing: a block fills the width, anything else is as wide as
/// its contents.
pub open spec fn bare_box(tag: Seq<char>) -> BoxView {
    BoxView {
        flex: !stands_as_block(tag),
        flex_direction: None,
        width: if stands_as_block(tag) {
            ExtentView::Full
        } else {
            ExtentView::Auto
        },
        height: ExtentView::Auto,
        padding: None,
        margin: None,
    }
}

/// An element whose only attribute is an inline style.
pub open spec fn styled(depth: usize, tag: Seq<char>, ns: Seq<char>, style: Seq<char>) -> NodeView {
    (depth, DataView::Tag { name: tag, ns, attrs: seq![("style"@, style)] })
}

#[verifier::rlimit(40)]
proof fn lemma_block_tags(t: Seq<char>)
    ensures
        crate::appfront::layout::block_tag(t) == stands_as_block(t),
{
    let l = seq![
        "html"@,
        "body"@,
        "div"@,
        "p"@,
        "h1"@,
        "h2"@,
        "h3"@,
        "h4"@,
        "h5"@,
        "h6"@,
        "ul"@,
        "ol"@,
        "li"@,
        "header"@,
        "footer"@,
        "main"@,
        "section"@,
        "article"@,
        "nav"@,
        "blockquote"@,
        "pre"@,
    ];
    assert(l[0] == "html"@ && l[1] == "body"@ && l[2] == "div"@ && l[3] == "p"@ && l[4] == "h1"@);
    assert(l[5] == "h2"@ && l[6] == "h3"@ && l[7] == "h4"@ && l[8] == "h5"@ && l[9] == "h6"@);
    assert(l[10] == "ul"@ && l[11] == "ol"@ && l[12] == "li"@ && l[13] == "header"@);
    assert(l[14] == "footer"@ && l[15] == "main"@ && l[16] == "section"@ && l[17] == "article"@);
    assert(l[18] == "nav"@ && l[19] == "blockquote"@ && l[20] == "pre"@);
}

/// An element whose inline style is one declaration has the properties of that declaration.
proof fn lemma_only_style(depth: usize, tag: Seq<char>, ns: Seq<char>, style: Seq<char>)
    requires
        !style.contains(';'),
    ensures
        props_at(styled(depth, tag, ns, style), Seq::empty()) == with_declaration(no_props(), style),
{
    law_declarations_in_order(Seq::empty(), style);
    let attrs = seq![("style"@, style)];
    reveal_strlit("style");
    assert(attrs.last().0 == "style"@);
    assert(lower_seq("style"@) =~= "style"@);
    assert(inline_in(attrs) == style);
    let none = Seq::<RuleView>::empty();
    assert(merged(matching(none, lower_seq(tag), classes_in(attrs))) == no_props());
    let p = block_props(style);
    assert(overridden(no_props(), p) =~= p);
}

/// A property name is tight, without a colon or a semicolon, and in lower case.
proof fn lemma_box_name(name: Seq<char>)
    requires
        name == "padding"@ || name == "margin"@ || name == "width"@ || name == "height"@,
    ensures
        tight(name),
        !name.contains(':'),
        !name.contains(';'),
        lower_seq(name) == name,
{
    reveal_strlit("padding");
    reveal_strlit("margin");
    reveal_strlit("width");
    reveal_strlit("height");
    if name == "padding"@ {
        assert(lower_seq(name) =~= name);
    } else if name == "margin"@ {
        assert(lower_seq(name) =~= name);
    } else if name == "width"@ {
        assert(lower_seq(name) =~= name);
    } else {
        assert(lower_seq(name) =~= name);
    }
}

/// The text of a declaration in pixels or percents sets its property and nothing else.
#[verifier::rlimit(40)]
proof fn lemma_box_declaration(name: Seq<char>, n: nat, percent: bool)
    requires
        name == "padding"@ || name == "margin"@ || name == "width"@ || name == "height"@,
    ensures
        ({
            let v = dec(n) + (if percent {
                "%"@
            } else {
                "px"@
            });
            let l = if percent {
                LengthView::Percent(dec(n))
            } else {
                LengthView::Px(dec(n))
            };
            let style = name + seq![':', ' '] + v;
            let p = with_declaration(no_props(), style);
            &&& !style.contains(';')
            &&& p == (if name == "padding"@ {
                PropsView { padding: Some(l), ..no_props() }
            } else if name == "margin"@ {
                PropsView { margin: Some(l), ..no_props() }
            } else if name == "width"@ {
                PropsView { width: Some(l), ..no_props() }
            } else {
                PropsView { height: Some(l), ..no_props() }
            })
        }),
{
    let e = Seq::<char>::empty();
    let space = seq![' '];
    let unit = if percent {
        "%"@
    } else {
        "px"@
    };
    let v = dec(n) + unit;
    let style = name + seq![':', ' '] + v;
    reveal_strlit("px");
    reveal_strlit("%");
    lemma_box_name(name);
    lemma_plain_number(n);
    law_decimal_reads_back(n);
    law_lengths(e, n, e);
    assert(e + v + e =~= v);
    assert(style =~= declared(e, name, e, space, v, e));
    assert(v[0] == dec(n)[0]);
    assert(v.last() == unit.last());
    law_declaration_sets_its_property(no_props(), e, name, e, space, v, e);
    lemma_property_names();
    if style.contains(';') {
        let i = choose|i: int| 0 <= i < style.len() && style[i] == ';';
        let k = i - name.len() - 2;
        if 0 <= k < dec(n).len() {
            assert(style[i] == dec(n)[k]);
            assert(is_digit(dec(n)[k]));
        } else if k >= 0 {
            assert(style[i] == unit[k - dec(n).len()]);
        } else if i < name.len() {
            assert(style[i] == name[i]);
            assert(name.contains(';'));
        }
    }
}

/// An element whose one declaration sets a property to a value of pixels or percents has the box
/// of a bare element but for that property: padding gives padding and no margin, margin gives margin
/// and no padding, a width and a height give its extents; and it is painted in no way.
#[verifier::rlimit(50)]
pub proof fn law_one_declaration_box(
    depth: usize,
    tag: Seq<char>,
    ns: Seq<char>,
    name: Seq<char>,
    n: nat,
    percent: bool,
)
    requires
        name == "padding"@ || name == "margin"@ || name == "width"@ || name == "height"@,
    ensures
        ({
            let value = dec(n) + (if percent {
                "%"@
            } else {
                "px"@
            });
            let length = if percent {
                LengthView::Percent(dec(n))
            } else {
                LengthView::Px(dec(n))
            };
            let bare = bare_box(lower_seq(tag));
            let expected = if name == "padding"@ {
                BoxView { padding: Some(length), ..bare }
            } else if name == "margin"@ {
                BoxView { margin: Some(length), ..bare }
            } else if name == "width"@ {
                BoxView { width: ExtentView::Given(length), ..bare }
            } else {
                BoxView { height: ExtentView::Given(length), ..bare }
            };
            kind_at(styled(depth, tag, ns, name + seq![':', ' '] + value), Seq::empty()) == Some(
                KindView::Element(
                    expected,
                    PaintView { background: None, border_color: None, border_width: None, radius: None },
                ),
            )
        }),
{
    let v = dec(n) + (if percent {
        "%"@
    } else {
        "px"@
    });
    let style = name + seq![':', ' '] + v;
    lemma_box_declaration(name, n, percent);
    lemma_only_style(depth, tag, ns, style);
    lemma_block_tags(lower_seq(tag));
}

/// A border has the color that a word of it gives and the width that another gives, a pixel where
/// none does; the last of each holds, and other words do not count. Without a color there is none.
pub proof fn law_borders(ws: Seq<Seq<char>>, w: Seq<char>, n: nat)
    ensures
        border_words(Seq::empty()) == (LengthView::Px("1"@), None::<Seq<u8>>),
        ({
            let was = border_words(ws);
            let now = border_words(ws.push(w));
            &&& w == dec(n) + "px"@ ==> now == (LengthView::Px(dec(n)), was.1)
            &&& length_value(w) is None ==> (color_value(w) matches Some(c) ==> now == (was.0, Some(c)))
            &&& length_value(w) is None && color_value(w) is None ==> now == was
            &&& now.1 is None ==> was.1 is None
        }),
{
    assert(ws.push(w).drop_last() =~= ws);
    if w == dec(n) + "px"@ {
        let e = Seq::<char>::empty();
        law_lengths(e, n, e);
        assert(e + (dec(n) + "px"@) + e =~= dec(n) + "px"@);
        lemma_plain_number(n);
        let t = dec(n);
        assert(unsigned(t) == t);
        assert(!same_ignoring_case(t, "nan"@)) by {
            if same_ignoring_case(t, "nan"@) {
                reveal_strlit("nan");
                assert(lower_seq(t)[0] == lower(t[0]));
                assert(lower_seq("nan"@)[0] == lower("nan"@[0]));
            }
        }
        assert(t[0] != '-');
    }
}

/// The border that a value gives is what its words give, where one of them is a color.
pub proof fn law_border_values(value: Seq<char>)
    ensures
        border_value(value) is Some <==> border_words(words(value)).1 is Some,
        border_value(value) matches Some(b) ==> b.0 == border_words(words(value)).0 && Some(b.1)
            == border_words(words(value)).1,
{
}

} // verus!
