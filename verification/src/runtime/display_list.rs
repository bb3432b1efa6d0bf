//! What to paint: colors, the background of an element, and the order in which elements are
//! painted.
use crate::runtime::css::{declaration, is_tag, plain, split_declaration};
use crate::runtime::html::{HtmlData, HtmlDocument, NodeView};
use crate::runtime::nesting::{is_shallow, lemma_flat, name_char, shallow};
use crate::strings::{
    chars_of, is_word, lower, lower_seq, pieces, same_ignoring_case, split_at_char, string_of, texts,
};
use lightningcss::traits::Parse;
use lightningcss::values::color::CssColor;
use vstd::prelude::*;

verus! {

/// The bytes of the sRGB color that a plain CSS `<color>` value stands for: red, green, blue and
/// alpha.
pub uninterp spec fn css_color(value: Seq<char>) -> Option<(u8, u8, u8, u8)>;

/// `lightningcss::values::color::CssColor::parse_string`, then `to_rgb`: the bytes of the color;
/// nothing where the value is no color, or one that depends on its context, such as `currentColor`.
/// A hash with six hex digits, or with three that each count twice, is the opaque color of those
/// bytes, and `transparent` is black without alpha. Of a plain value (hex digits and names) the result
/// depends on the value alone. Nothing is claimed of a function: its numbers go through `powf`,
/// `cos` and the like, whose last bits differ between machines. The parser descends with the
/// nesting of the value, so the value is to be shallow.
#[verifier::external_body]
fn css_rgba(value: &str) -> (r: Option<(u8, u8, u8, u8)>)
    requires
        shallow(value@),
    ensures
        plain(value@) ==> r == css_color(value@),
        hex_color(value@) ==> r == Some(hex_bytes(value@)),
        same_ignoring_case(value@, "transparent"@) ==> r == Some((0u8, 0u8, 0u8, 0u8)),
        same_ignoring_case(value@, "currentcolor"@) ==> r is None,
{
    let CssColor::RGBA(c) = CssColor::parse_string(value).ok()?.to_rgb().ok()? else {
        return None;
    };
    Some((c.red, c.green, c.blue, c.alpha))
}

/// The number that a hex digit stands for.
pub open spec fn hex_digit(c: char) -> Option<int> {
    if '0' <= c <= '9' {
        Some(c as int - '0' as int)
    } else if 'a' <= c <= 'f' {
        Some(c as int - 'a' as int + 10)
    } else if 'A' <= c <= 'F' {
        Some(c as int - 'A' as int + 10)
    } else {
        None
    }
}

/// Whether a value is a hash with three or six hex digits.
pub open spec fn hex_color(v: Seq<char>) -> bool {
    &&& (v.len() == 4 || v.len() == 7) && v[0] == '#'
    &&& forall|i: int| 1 <= i < v.len() ==> hex_digit(#[trigger] v[i]) is Some
}

/// The byte of two hex digits.
pub open spec fn hex_byte(high: char, low: char) -> u8 {
    (hex_digit(high)->0 * 16 + hex_digit(low)->0) as u8
}

/// The bytes of a hash with three or six hex digits, and full alpha.
pub open spec fn hex_bytes(v: Seq<char>) -> (u8, u8, u8, u8) {
    if v.len() == 4 {
        (hex_byte(v[1], v[1]), hex_byte(v[2], v[2]), hex_byte(v[3], v[3]), 255)
    } else {
        (hex_byte(v[1], v[2]), hex_byte(v[3], v[4]), hex_byte(v[5], v[6]), 255)
    }
}

/// Hashes and names nest not at all.
proof fn lemma_words_flat(v: Seq<char>)
    ensures
        hex_color(v) ==> shallow(v),
        same_ignoring_case(v, "transparent"@) ==> shallow(v),
        same_ignoring_case(v, "currentcolor"@) ==> shallow(v),
{
    if hex_color(v) {
        assert forall|i: int| 0 <= i < v.len() implies name_char(#[trigger] v[i]) || v[i] == '#' by {
            assert(i >= 1 ==> hex_digit(v[i]) is Some);
        }
        lemma_flat(v);
    }
    reveal_strlit("transparent");
    reveal_strlit("currentcolor");
    if same_ignoring_case(v, "transparent"@) {
        lemma_word_flat(v, "transparent"@);
    }
    if same_ignoring_case(v, "currentcolor"@) {
        lemma_word_flat(v, "currentcolor"@);
    }
}

proof fn lemma_word_flat(v: Seq<char>, word: Seq<char>)
    requires
        same_ignoring_case(v, word),
        forall|i: int| 0 <= i < word.len() ==> 'a' <= #[trigger] word[i] <= 'z',
    ensures
        shallow(v),
{
    assert(lower_seq(v).len() == v.len());
    assert(lower_seq(word).len() == word.len());
    assert forall|i: int| 0 <= i < v.len() implies name_char(#[trigger] v[i]) by {
        assert(lower_seq(v)[i] == lower(v[i]));
        assert(lower_seq(word)[i] == lower(word[i]));
        assert('a' <= word[i] <= 'z');
    }
    lemma_flat(v);
}

/// An RGBA color, a byte per channel.
#[derive(Debug, Clone, Copy, PartialEq, Eq, Structural)]
pub struct Color {
    pub r: u8,
    pub g: u8,
    pub b: u8,
    pub a: u8,
}

/// The color with the bytes given.
pub open spec fn color_of(c: (u8, u8, u8, u8)) -> Color {
    Color { r: c.0, g: c.1, b: c.2, a: c.3 }
}

/// The color of the bytes of a value, where it has any.
pub open spec fn color_from(c: Option<(u8, u8, u8, u8)>) -> Option<Color> {
    match c {
        Some(c) => Some(color_of(c)),
        None => None,
    }
}

/// Whether a value can be read as a color so. A value that nests too deeply is read as none.
pub closed spec fn reads_as(value: Seq<char>, color: Option<Color>) -> bool {
    if shallow(value) {
        exists|text: &str, c: Option<(u8, u8, u8, u8)>|
            text@ == value && #[trigger] call_ensures(css_rgba, (text,), c) && color == color_from(c)
    } else {
        color is None
    }
}

/// A plain value is read as one color only, a hash with hex digits as that of its bytes, and a
/// color that depends on its context as none.
pub proof fn law_plain_colors(value: Seq<char>, color: Option<Color>)
    requires
        reads_as(value, color),
    ensures
        shallow(value) && plain(value) ==> color == color_from(css_color(value)),
        hex_color(value) ==> color == Some(color_of(hex_bytes(value))),
        same_ignoring_case(value, "transparent"@) ==> color == Some(color_of((0, 0, 0, 0))),
        same_ignoring_case(value, "currentcolor"@) ==> color is None,
        !shallow(value) ==> color is None,
{
    lemma_words_flat(value);
}

impl Color {
    /// Transparent black.
    pub fn transparent() -> (c: Color)
        ensures
            c == color_of((0, 0, 0, 0)),
    {
        Color { r: 0, g: 0, b: 0, a: 0 }
    }

    /// Parses any CSS `<color>` value (hex, named colors like `red`, `rgb()`/`hsl()`, ...),
    /// converted to sRGB. `currentColor` and other context-dependent colors aren't resolvable
    /// without a cascade, so those yield `None`.
    pub fn parse_css(value: &str) -> (r: Option<Color>)
        ensures
            reads_as(value@, r),
            shallow(value@) && plain(value@) ==> r == color_from(css_color(value@)),
            hex_color(value@) ==> r == Some(color_of(hex_bytes(value@))),
            same_ignoring_case(value@, "transparent"@) ==> r == Some(color_of((0, 0, 0, 0))),
            same_ignoring_case(value@, "currentcolor"@) ==> r is None,
            !shallow(value@) ==> r is None,
    {
        proof {
            lemma_words_flat(value@);
        }
        if !is_shallow(value) {
            return None;
        }
        let c = css_rgba(value);
        assert(call_ensures(css_rgba, (value,), c));
        match c {
            Some((r, g, b, a)) => Some(Color { r, g, b, a }),
            None => None,
        }
    }
}

/// The values that declarations give the background, in order.
pub open spec fn values_in(ds: Seq<Seq<char>>) -> Seq<Seq<char>>
    decreases ds.len(),
{
    if ds.len() == 0 {
        Seq::empty()
    } else {
        let front = values_in(ds.drop_last());
        match declaration(ds.last()) {
            Some((p, v)) => if p == "background-color"@ {
                front.push(v)
            } else {
                front
            },
            None => front,
        }
    }
}

/// The values that declaration blocks give the background, in order.
pub open spec fn values_of(blocks: Seq<Seq<char>>) -> Seq<Seq<char>>
    decreases blocks.len(),
{
    if blocks.len() == 0 {
        Seq::empty()
    } else {
        values_of(blocks.drop_last()) + values_in(pieces(blocks.last(), ';'))
    }
}

/// The last color of a list, where there is one.
pub open spec fn last_of(colors: Seq<Option<Color>>) -> Option<Color>
    decreases colors.len(),
{
    if colors.len() == 0 {
        None
    } else if colors.last() is Some {
        colors.last()
    } else {
        last_of(colors.drop_last())
    }
}

/// Whether values can be read as these colors, one for one.
pub open spec fn read_as(values: Seq<Seq<char>>, colors: Seq<Option<Color>>) -> bool {
    &&& colors.len() == values.len()
    &&& forall|i: int| 0 <= i < values.len() ==> reads_as(#[trigger] values[i], colors[i])
}

fn push_values(out: &mut Vec<String>, block: &str)
    ensures
        final(out).deep_view() == old(out).deep_view() + values_in(pieces(block@, ';')),
{
    let ghost first = out.deep_view();
    let ds = split_at_char(&chars_of(block), ';');
    let ghost all = texts(ds@);
    let mut i: usize = 0;
    assert(all.take(0) =~= Seq::<Seq<char>>::empty());
    assert(first + values_in(all.take(0)) =~= first);
    while i < ds.len()
        invariant
            0 <= i <= ds@.len(),
            all == texts(ds@),
            out.deep_view() == first + values_in(all.take(i as int)),
        decreases ds@.len() - i,
    {
        assert(all.take(i + 1).drop_last() =~= all.take(i as int));
        assert(all.take(i + 1).last() == ds@[i as int]@);
        let ghost was = out.deep_view();
        if let Some((property, value)) = split_declaration(&ds[i]) {
            if is_word(&property, "background-color") {
                let text = string_of(&value);
                let ghost x = text@;
                out.push(text);
                assert(out.deep_view() =~= was.push(x));
                assert(was.push(x) =~= first + values_in(all.take(i + 1)));
            }
        }
        i = i + 1;
    }
    assert(all.take(all.len() as int) =~= all);
}

/// The values that declaration blocks give the background, in order.
pub fn background_values(blocks: &Vec<String>) -> (r: Vec<String>)
    ensures
        r.deep_view() == values_of(blocks.deep_view()),
{
    let ghost bv = blocks.deep_view();
    let mut out: Vec<String> = Vec::new();
    let mut i: usize = 0;
    assert(bv.take(0) =~= Seq::<Seq<char>>::empty());
    assert(out.deep_view() =~= values_of(bv.take(0)));
    while i < blocks.len()
        invariant
            0 <= i <= blocks@.len(),
            bv == blocks.deep_view(),
            out.deep_view() == values_of(bv.take(i as int)),
        decreases blocks@.len() - i,
    {
        assert(bv.take(i + 1).drop_last() =~= bv.take(i as int));
        assert(bv.take(i + 1).last() == blocks@[i as int]@);
        push_values(&mut out, &blocks[i]);
        i = i + 1;
    }
    assert(bv.take(bv.len() as int) =~= bv);
    out
}

/// The last color of a list, where there is one: a value that is no color leaves the one before it
/// in force.
pub fn last_color(colors: &Vec<Option<Color>>) -> (r: Option<Color>)
    ensures
        r == last_of(colors@),
{
    let mut i: usize = colors.len();
    assert(colors@.take(i as int) =~= colors@);
    while i > 0
        invariant
            0 <= i <= colors@.len(),
            last_of(colors@) == last_of(colors@.take(i as int)),
        decreases i,
    {
        i = i - 1;
        assert(colors@.take(i + 1).drop_last() =~= colors@.take(i as int));
        assert(colors@.take(i + 1).last() == colors@[i as int]);
        if colors[i].is_some() {
            return colors[i];
        }
    }
    None
}

/// The background color of an element, from the declaration blocks of the rules that match it, in
/// source order.
pub fn background_color(blocks: &Vec<String>) -> (r: Option<Color>)
    ensures
        exists|colors: Seq<Option<Color>>|
            #[trigger] read_as(values_of(blocks.deep_view()), colors) && r == last_of(colors),
{
    let values = background_values(blocks);
    let ghost vv = values.deep_view();
    let mut colors: Vec<Option<Color>> = Vec::new();
    let mut i: usize = 0;
    while i < values.len()
        invariant
            0 <= i <= values@.len(),
            vv == values.deep_view(),
            colors@.len() == i,
            forall|k: int| 0 <= k < i ==> reads_as(#[trigger] vv[k], colors@[k]),
        decreases values@.len() - i,
    {
        assert(vv[i as int] == values@[i as int]@);
        colors.push(Color::parse_css(&values[i]));
        i = i + 1;
    }
    assert(read_as(vv, colors@));
    last_color(&colors)
}

/// The elements with a background among the first nodes, in document order, each with its color.
pub open spec fn painted_nodes(
    nodes: Seq<NodeView>,
    backgrounds: Seq<Option<Color>>,
    to: int,
) -> Seq<(usize, Color)>
    decreases to,
{
    if to <= 0 {
        Seq::empty()
    } else {
        let front = painted_nodes(nodes, backgrounds, to - 1);
        match backgrounds[to - 1] {
            Some(c) => if is_tag(nodes, to - 1) {
                front.push(((to - 1) as usize, c))
            } else {
                front
            },
            None => front,
        }
    }
}

/// The elements to paint, in paint order (parents before children, matching source order for
/// siblings): every element that has a resolved background. Boxes with no background are
/// layout-only and contribute no paint.
pub fn paint_order(dom: &HtmlDocument, backgrounds: &Vec<Option<Color>>) -> (r: Vec<(usize, Color)>)
    requires
        backgrounds@.len() == dom@.len(),
    ensures
        r@ == painted_nodes(dom@, backgrounds@, dom@.len() as int),
{
    let mut out: Vec<(usize, Color)> = Vec::new();
    let mut i: usize = 0;
    while i < dom.nodes.len()
        invariant
            0 <= i <= dom.nodes@.len(),
            backgrounds@.len() == dom@.len(),
            out@ == painted_nodes(dom@, backgrounds@, i as int),
        decreases dom.nodes@.len() - i,
    {
        assert(dom@[i as int].1 == dom.nodes@[i as int].1.deep_view());
        if let HtmlData::Tag(..) = &dom.nodes[i].1 {
            if let Some(c) = backgrounds[i] {
                out.push((i, c));
            }
        }
        i = i + 1;
    }
    out
}

/// A later background replaces an earlier one, and a value that is no color changes nothing: with
/// one more declaration, of a value that is read as `color`, the colors are those before and that
/// one.
pub proof fn law_last_background_wins(
    blocks: Seq<Seq<char>>,
    d: Seq<char>,
    colors: Seq<Option<Color>>,
    color: Option<Color>,
)
    requires
        !d.contains(';'),
        declaration(d) matches Some((p, v)) && p == "background-color"@,
        read_as(values_of(blocks), colors),
        reads_as((declaration(d)->0).1, color),
    ensures
        read_as(values_of(blocks.push(d)), colors.push(color)),
        last_of(colors.push(color)) == (match color {
            Some(c) => Some(c),
            None => last_of(colors),
        }),
{
    assert(blocks.push(d).drop_last() =~= blocks);
    crate::strings::lemma_one_piece(d, ';');
    let ds = pieces(d, ';');
    let v = (declaration(d)->0).1;
    assert(ds =~= seq![d]);
    assert(ds.drop_last() =~= Seq::<Seq<char>>::empty());
    assert(values_in(ds) =~= seq![v]) by {
        assert(values_in(ds.drop_last()) =~= Seq::<Seq<char>>::empty());
    }
    assert(values_of(blocks.push(d)) =~= values_of(blocks).push(v));
    assert(colors.push(color).drop_last() =~= colors);
}

} // verus!
