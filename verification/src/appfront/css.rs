//! Minimal CSS subset parsing.
//!
//! A small, well-defined subset of CSS that is enough for real styled content:
//!
//! * inline `style="..."` attributes on elements
//! * `<style>` blocks with `tag`, `.class`, and `*` selectors
//!
//! Supported properties: `display`, `flex-direction`, `width`, `height`, `padding`, `margin`,
//! `background`, `color`, `font-size`, `border`, `border-radius`.
use crate::runtime::css::{declaration, split_declaration};
use crate::runtime::layout::{is_number, number, unsigned};
use crate::strings::{
    chars_of, ends, ends_with, find_from, is_word, lemma_find_from, lower_seq, lower_string, occurs,
    part, pieces, same_ignoring_case, search, slice_string, split_at_char, split_words, str_eq,
    string_of, tail, texts, trim, trimmed, words,
};
use vstd::prelude::*;
use vstd::string::*;

verus! {

/// A CSS selector supported by the minimal parser.
#[derive(Debug, Clone, PartialEq, Eq)]
pub enum Selector {
    Universal,
    Tag(String),
    Class(String),
}

/// The mathematical form of a selector.
pub enum SelectorView {
    Universal,
    Tag(Seq<char>),
    Class(Seq<char>),
}

impl DeepView for Selector {
    type V = SelectorView;

    open spec fn deep_view(&self) -> SelectorView {
        match *self {
            Selector::Universal => SelectorView::Universal,
            Selector::Tag(t) => SelectorView::Tag(t@),
            Selector::Class(c) => SelectorView::Class(c@),
        }
    }
}

#[derive(Debug, Clone, Copy, PartialEq, Eq, Structural)]
pub enum DisplayKind {
    Block,
    Flex,
    Grid,
}

#[derive(Debug, Clone, Copy, PartialEq, Eq, Structural)]
pub enum FlexDir {
    Row,
    Column,
}

/// A CSS length: the number of a number of pixels, or of a percentage. A percentage counts as
/// between none and all of the whole.
#[derive(Debug, Clone, PartialEq, Eq)]
pub enum Length {
    Px(String),
    Percent(String),
}

/// The mathematical form of a length.
pub enum LengthView {
    Px(Seq<char>),
    Percent(Seq<char>),
}

impl DeepView for Length {
    type V = LengthView;

    open spec fn deep_view(&self) -> LengthView {
        match *self {
            Length::Px(t) => LengthView::Px(t@),
            Length::Percent(t) => LengthView::Percent(t@),
        }
    }
}

/// A color: red, green, blue and alpha.
pub type Rgba = [u8; 4];

/// The channels of a color.
pub open spec fn channels(c: Option<Rgba>) -> Option<Seq<u8>> {
    match c {
        Some(c) => Some(c@),
        None => None,
    }
}

/// Resolved CSS property values for a single element (pre-layout).
#[derive(Debug, Clone, PartialEq, Eq)]
pub struct StyleProps {
    pub display: Option<DisplayKind>,
    pub flex_direction: Option<FlexDir>,
    pub width: Option<Length>,
    pub height: Option<Length>,
    pub padding: Option<Length>,
    pub margin: Option<Length>,
    pub background: Option<Rgba>,
    pub color: Option<Rgba>,
    pub font_size: Option<Length>,
    pub border_width: Option<Length>,
    pub border_color: Option<Rgba>,
    pub radius: Option<Length>,
}

/// The mathematical form of property values.
#[verifier::ext_equal]
pub struct PropsView {
    pub display: Option<DisplayKind>,
    pub flex_direction: Option<FlexDir>,
    pub width: Option<LengthView>,
    pub height: Option<LengthView>,
    pub padding: Option<LengthView>,
    pub margin: Option<LengthView>,
    pub background: Option<Seq<u8>>,
    pub color: Option<Seq<u8>>,
    pub font_size: Option<LengthView>,
    pub border_width: Option<LengthView>,
    pub border_color: Option<Seq<u8>>,
    pub radius: Option<LengthView>,
}

impl DeepView for StyleProps {
    type V = PropsView;

    open spec fn deep_view(&self) -> PropsView {
        PropsView {
            display: self.display,
            flex_direction: self.flex_direction,
            width: self.width.deep_view(),
            height: self.height.deep_view(),
            padding: self.padding.deep_view(),
            margin: self.margin.deep_view(),
            background: channels(self.background),
            color: channels(self.color),
            font_size: self.font_size.deep_view(),
            border_width: self.border_width.deep_view(),
            border_color: channels(self.border_color),
            radius: self.radius.deep_view(),
        }
    }
}

/// No property set.
pub open spec fn no_props() -> PropsView {
    PropsView {
        display: None,
        flex_direction: None,
        width: None,
        height: None,
        padding: None,
        margin: None,
        background: None,
        color: None,
        font_size: None,
        border_width: None,
        border_color: None,
        radius: None,
    }
}

impl Default for StyleProps {
    fn default() -> (r: Self)
        ensures
            r.deep_view() == no_props(),
    {
        StyleProps {
            display: None,
            flex_direction: None,
            width: None,
            height: None,
            padding: None,
            margin: None,
            background: None,
            color: None,
            font_size: None,
            border_width: None,
            border_color: None,
            radius: None,
        }
    }
}

/// The value of a hexadecimal digit, in lower case.
pub open spec fn hex_value(c: char) -> Option<nat> {
    if '0' <= c && c <= '9' {
        Some((c as nat - '0' as nat) as nat)
    } else if 'a' <= c && c <= 'f' {
        Some((c as nat - 'a' as nat + 10) as nat)
    } else {
        None
    }
}

/// The value of two hexadecimal digits; a plus sign may stand in place of the first.
pub open spec fn hex_pair(a: char, b: char) -> Option<nat> {
    match (hex_value(a), hex_value(b)) {
        (Some(x), Some(y)) => Some(16 * x + y),
        (None, Some(y)) => if a == '+' {
            Some(y)
        } else {
            None
        },
        _ => None,
    }
}

/// The opaque color of three channels, where all are known.
pub open spec fn opaque(r: Option<nat>, g: Option<nat>, b: Option<nat>) -> Option<Seq<u8>> {
    match (r, g, b) {
        (Some(r), Some(g), Some(b)) => Some(seq![r as u8, g as u8, b as u8, 255u8]),
        _ => None,
    }
}

/// A digit, doubled to a pair.
pub open spec fn doubled(c: char) -> Option<nat> {
    match hex_value(c) {
        Some(x) => Some(17 * x),
        None => None,
    }
}

/// The color of the digits of `#rgb` or `#rrggbb`.
pub open spec fn hex_color(h: Seq<char>) -> Option<Seq<u8>> {
    if h.len() == 3 {
        opaque(doubled(h[0]), doubled(h[1]), doubled(h[2]))
    } else if h.len() == 6 {
        opaque(hex_pair(h[0], h[1]), hex_pair(h[2], h[3]), hex_pair(h[4], h[5]))
    } else {
        None
    }
}

/// The color with a name.
pub open spec fn color_named(n: Seq<char>) -> Option<Seq<u8>> {
    if n == "black"@ {
        Some(seq![0u8, 0, 0, 255])
    } else if n == "white"@ {
        Some(seq![255u8, 255, 255, 255])
    } else if n == "red"@ {
        Some(seq![220u8, 50, 47, 255])
    } else if n == "green"@ {
        Some(seq![50u8, 170, 70, 255])
    } else if n == "blue"@ {
        Some(seq![40u8, 90, 220, 255])
    } else if n == "gray"@ || n == "grey"@ {
        Some(seq![120u8, 120, 120, 255])
    } else if n == "darkgray"@ || n == "darkgrey"@ {
        Some(seq![80u8, 80, 80, 255])
    } else if n == "lightgray"@ || n == "lightgrey"@ {
        Some(seq![200u8, 200, 200, 255])
    } else {
        None
    }
}

/// The color that a value gives.
pub open spec fn color_value(value: Seq<char>) -> Option<Seq<u8>> {
    let v = lower_seq(trim(value));
    if v.len() > 0 && v[0] == '#' {
        hex_color(v.skip(1))
    } else {
        color_named(v)
    }
}

fn digit_value(c: char) -> (r: Option<u8>)
    ensures
        match r {
            Some(x) => hex_value(c) == Some(x as nat) && x < 16,
            None => hex_value(c) is None,
        },
{
    if c >= '0' && c <= '9' {
        Some((c as u32 - 48) as u8)
    } else if c >= 'a' && c <= 'f' {
        Some((c as u32 - 87) as u8)
    } else {
        None
    }
}

fn pair_value(a: char, b: char) -> (r: Option<u8>)
    ensures
        match r {
            Some(x) => hex_pair(a, b) == Some(x as nat),
            None => hex_pair(a, b) is None,
        },
{
    match (digit_value(a), digit_value(b)) {
        (Some(x), Some(y)) => Some(16 * x + y),
        (None, Some(y)) => if a == '+' {
            Some(y)
        } else {
            None
        },
        _ => None,
    }
}

fn doubled_value(c: char) -> (r: Option<u8>)
    ensures
        match r {
            Some(x) => doubled(c) == Some(x as nat),
            None => doubled(c) is None,
        },
{
    match digit_value(c) {
        Some(x) => Some(17 * x),
        None => None,
    }
}

fn opaque_color(r: Option<u8>, g: Option<u8>, b: Option<u8>) -> (c: Option<Rgba>)
    ensures
        match (r, g, b) {
            (Some(r), Some(g), Some(b)) => channels(c) == Some(seq![r, g, b, 255u8]),
            _ => c is None,
        },
{
    match (r, g, b) {
        (Some(r), Some(g), Some(b)) => {
            let c: Rgba = [r, g, b, 255];
            assert(c@ =~= seq![r, g, b, 255u8]);
            Some(c)
        },
        _ => None,
    }
}

fn parse_hex(h: &[char]) -> (c: Option<Rgba>)
    ensures
        channels(c) == hex_color(h@),
{
    let n = h.len();
    if n == 3 {
        opaque_color(doubled_value(h[0]), doubled_value(h[1]), doubled_value(h[2]))
    } else if n == 6 {
        opaque_color(pair_value(h[0], h[1]), pair_value(h[2], h[3]), pair_value(h[4], h[5]))
    } else {
        None
    }
}

fn named_color(n: &str) -> (c: Option<Rgba>)
    ensures
        channels(c) == color_named(n@),
{
    if str_eq(n, "black") {
        opaque_color(Some(0), Some(0), Some(0))
    } else if str_eq(n, "white") {
        opaque_color(Some(255), Some(255), Some(255))
    } else if str_eq(n, "red") {
        opaque_color(Some(220), Some(50), Some(47))
    } else if str_eq(n, "green") {
        opaque_color(Some(50), Some(170), Some(70))
    } else if str_eq(n, "blue") {
        opaque_color(Some(40), Some(90), Some(220))
    } else if str_eq(n, "gray") || str_eq(n, "grey") {
        opaque_color(Some(120), Some(120), Some(120))
    } else if str_eq(n, "darkgray") || str_eq(n, "darkgrey") {
        opaque_color(Some(80), Some(80), Some(80))
    } else if str_eq(n, "lightgray") || str_eq(n, "lightgrey") {
        opaque_color(Some(200), Some(200), Some(200))
    } else {
        None
    }
}

/// Parses a color: `#rgb`, `#rrggbb`, or a small set of named colors.
pub fn parse_color(value: &str) -> (c: Option<Rgba>)
    ensures
        channels(c) == color_value(value@),
{
    let v = lower_string(&string_of(&trimmed(&chars_of(value))));
    let chars = chars_of(&v);
    let n = chars.len();
    if n > 0 && chars[0] == '#' {
        parse_hex(&tail(&chars, 1))
    } else {
        named_color(&v)
    }
}

/// Text without the marks of pixels behind it.
pub open spec fn without_px(s: Seq<char>) -> Seq<char>
    decreases s.len(),
{
    if s.len() >= 2 && ends(s, "px"@) {
        without_px(s.take(s.len() - 2))
    } else {
        s
    }
}

/// The length that a value gives: a percentage, or a number of pixels. `auto` is none.
pub open spec fn length_value(value: Seq<char>) -> Option<LengthView> {
    let v = trim(value);
    if v.len() > 0 && v.last() == '%' {
        let t = trim(v.drop_last());
        if is_number(t) {
            Some(LengthView::Percent(t))
        } else {
            None
        }
    } else {
        let t = without_px(v);
        if v.len() > 0 && v != "auto"@ && is_number(t) {
            Some(LengthView::Px(t))
        } else {
            None
        }
    }
}

fn strip_px(v: &[char]) -> (r: Vec<char>)
    ensures
        r@ == without_px(v@),
{
    proof {
        reveal_strlit("px");
    }
    let px = chars_of("px");
    let mut n: usize = v.len();
    assert(v@.take(n as int) =~= v@);
    loop
        invariant
            0 <= n <= v@.len(),
            px@ == "px"@,
            px@.len() == 2,
            without_px(v@) == without_px(v@.take(n as int)),
        decreases n,
    {
        let head = part(v, 0, n);
        assert(head@ =~= v@.take(n as int));
        if n >= 2 && ends_with(&head, &px) {
            assert(v@.take(n as int).take(n - 2) =~= v@.take(n - 2));
            n = n - 2;
        } else {
            return head;
        }
    }
}

fn parse_length(value: &[char]) -> (r: Option<Length>)
    ensures
        r.deep_view() == length_value(value@),
{
    let v = trimmed(value);
    let n = v.len();
    if n > 0 && v[n - 1] == '%' {
        let head = part(&v, 0, n - 1);
        assert(head@ =~= v@.drop_last());
        let t = trimmed(&head);
        if number(&t) {
            Some(Length::Percent(string_of(&t)))
        } else {
            None
        }
    } else {
        let t = strip_px(&v);
        if n > 0 && !is_word(&v, "auto") && number(&t) {
            Some(Length::Px(string_of(&t)))
        } else {
            None
        }
    }
}
/// Whether a number stands for none.
pub open spec fn is_nan(t: Seq<char>) -> bool {
    same_ignoring_case(unsigned(t), "nan"@)
}

/// Whether all digits of a number before its exponent are zeros.
pub open spec fn is_zero(t: Seq<char>) -> bool {
    let b = unsigned(t);
    exists|m: int|
        0 <= m <= b.len() && (m == b.len() || b[m] == 'e' || b[m] == 'E') && #[trigger] zeros(
            b,
            m,
        )
}

/// Whether the first characters are zeros and decimal points.
pub open spec fn zeros(s: Seq<char>, m: int) -> bool {
    forall|i: int| 0 <= i < m ==> (#[trigger] s[i] == '0' || s[i] == '.')
}

/// Whether a length can be the width of a border: it is not below zero. A percentage counts as the
/// part of the whole that is left out, so only an empty one can.
pub open spec fn can_border(l: LengthView) -> bool {
    match l {
        LengthView::Px(t) => !is_nan(t) && (t.len() == 0 || t[0] != '-' || is_zero(t)),
        LengthView::Percent(t) => !is_nan(t) && ((t.len() > 0 && t[0] == '-') || is_zero(t)),
    }
}

/// The width and the color that the words of a border shorthand give so far.
pub open spec fn border_words(ws: Seq<Seq<char>>) -> (LengthView, Option<Seq<u8>>)
    decreases ws.len(),
{
    if ws.len() == 0 {
        (LengthView::Px("1"@), None)
    } else {
        let (w, c) = border_words(ws.drop_last());
        match length_value(ws.last()) {
            Some(l) => if can_border(l) {
                (l, c)
            } else {
                (w, c)
            },
            None => match color_value(ws.last()) {
                Some(d) => (w, Some(d)),
                None => (w, c),
            },
        }
    }
}

/// The width and the color of a border shorthand, where it gives a color.
pub open spec fn border_value(value: Seq<char>) -> Option<(LengthView, Seq<u8>)> {
    match border_words(words(value)) {
        (w, Some(c)) => Some((w, c)),
        (_, None) => None,
    }
}

fn named_nan(t: &str) -> (b: bool)
    ensures
        b == is_nan(t@),
{
    let v = chars_of(t);
    let n = v.len();
    let body = if n > 0 && (v[0] == '+' || v[0] == '-') {
        tail(&v, 1)
    } else {
        v
    };
    crate::strings::eq_ignore_case(&string_of(&body), "nan")
}

fn all_zero(t: &str) -> (b: bool)
    ensures
        b == is_zero(t@),
{
    let v = chars_of(t);
    let n = v.len();
    let body = if n > 0 && (v[0] == '+' || v[0] == '-') {
        tail(&v, 1)
    } else {
        v
    };
    assert(body@ == unsigned(t@));
    let k = body.len();
    let mut i: usize = 0;
    while i < k
        invariant
            0 <= i <= k,
            k == body@.len(),
            body@ == unsigned(t@),
            zeros(body@, i as int),
            forall|m: int| 0 <= m < i ==> (#[trigger] body@[m] != 'e' && body@[m] != 'E'),
        decreases k - i,
    {
        let c = body[i];
        if c == 'e' || c == 'E' {
            assert(zeros(body@, i as int));
            return true;
        }
        if c != '0' && c != '.' {
            proof {
                if is_zero(t@) {
                    let b = unsigned(t@);
                    let m = choose|m: int|
                        0 <= m <= b.len() && (m == b.len() || b[m] == 'e' || b[m] == 'E')
                            && #[trigger] zeros(b, m);
                    assert(m <= i);
                    assert(m == i || body@[m] != 'e');
                }
            }
            return false;
        }
        i = i + 1;
    }
    assert(zeros(body@, k as int));
    true
}

fn fits_border(l: &Length) -> (b: bool)
    ensures
        b == can_border(l.deep_view()),
{
    match l {
        Length::Px(t) => {
            let v = chars_of(t);
            let n = v.len();
            !named_nan(t) && (n == 0 || v[0] != '-' || all_zero(t))
        },
        Length::Percent(t) => {
            let v = chars_of(t);
            let n = v.len();
            !named_nan(t) && ((n > 0 && v[0] == '-') || all_zero(t))
        },
    }
}

/// Parses a `1px solid #rrggbb` style border shorthand into (width, color).
fn parse_border_shorthand(value: &[char]) -> (r: Option<(Length, Rgba)>)
    ensures
        match (r, border_value(value@)) {
            (Some(x), Some(v)) => x.0.deep_view() == v.0 && x.1@ == v.1,
            (None, None) => true,
            _ => false,
        },
{
    let ws = split_words(value);
    let ghost all = texts(ws@);
    let mut width = Length::Px(String::from_str("1"));
    let mut color: Option<Rgba> = None;
    let mut i: usize = 0;
    assert(all.take(0) =~= Seq::<Seq<char>>::empty());
    while i < ws.len()
        invariant
            0 <= i <= ws@.len(),
            all == texts(ws@),
            (width.deep_view(), channels(color)) == border_words(all.take(i as int)),
        decreases ws@.len() - i,
    {
        assert(all.take(i + 1).drop_last() =~= all.take(i as int));
        assert(all.take(i + 1).last() == ws@[i as int]@);
        match parse_length(&ws[i]) {
            Some(l) => {
                if fits_border(&l) {
                    width = l;
                }
            },
            None => {
                let c = parse_color(&string_of(&ws[i]));
                if c.is_some() {
                    color = c;
                }
            },
        }
        i = i + 1;
    }
    assert(all.take(all.len() as int) =~= all);
    match color {
        Some(c) => Some((width, c)),
        None => None,
    }
}

/// The properties after one declaration; one that is not supported changes nothing, and a value that
/// means nothing unsets its property.
pub open spec fn with_declaration(p: PropsView, d: Seq<char>) -> PropsView {
    match declaration(d) {
        None => p,
        Some((raw, v)) => {
            let name = lower_seq(raw);
            if name == "display"@ {
                PropsView { display: display_value(v), ..p }
            } else if name == "flex-direction"@ {
                PropsView { flex_direction: direction_value(v), ..p }
            } else if name == "width"@ {
                PropsView { width: length_value(v), ..p }
            } else if name == "height"@ {
                PropsView { height: length_value(v), ..p }
            } else if name == "padding"@ {
                PropsView { padding: length_value(v), ..p }
            } else if name == "margin"@ {
                PropsView { margin: length_value(v), ..p }
            } else if name == "font-size"@ {
                PropsView { font_size: length_value(v), ..p }
            } else if name == "border-radius"@ {
                PropsView { radius: length_value(v), ..p }
            } else if name == "background"@ || name == "background-color"@ {
                PropsView { background: color_value(v), ..p }
            } else if name == "color"@ {
                PropsView { color: color_value(v), ..p }
            } else if name == "border"@ {
                match border_value(v) {
                    Some((w, c)) => PropsView { border_width: Some(w), border_color: Some(c), ..p },
                    None => p,
                }
            } else {
                p
            }
        },
    }
}

/// The display that a value gives.
pub open spec fn display_value(v: Seq<char>) -> Option<DisplayKind> {
    if v == "block"@ {
        Some(DisplayKind::Block)
    } else if v == "flex"@ {
        Some(DisplayKind::Flex)
    } else if v == "grid"@ {
        Some(DisplayKind::Grid)
    } else {
        None
    }
}

/// The direction that a value gives.
pub open spec fn direction_value(v: Seq<char>) -> Option<FlexDir> {
    if v == "row"@ {
        Some(FlexDir::Row)
    } else if v == "column"@ {
        Some(FlexDir::Column)
    } else {
        None
    }
}

fn parse_display(v: &[char]) -> (r: Option<DisplayKind>)
    ensures
        r == display_value(v@),
{
    if is_word(v, "block") {
        Some(DisplayKind::Block)
    } else if is_word(v, "flex") {
        Some(DisplayKind::Flex)
    } else if is_word(v, "grid") {
        Some(DisplayKind::Grid)
    } else {
        None
    }
}

fn parse_direction(v: &[char]) -> (r: Option<FlexDir>)
    ensures
        r == direction_value(v@),
{
    if is_word(v, "row") {
        Some(FlexDir::Row)
    } else if is_word(v, "column") {
        Some(FlexDir::Column)
    } else {
        None
    }
}

fn apply_decl(decl: &[char], props: &mut StyleProps)
    ensures
        final(props).deep_view() == with_declaration(old(props).deep_view(), decl@),
{
    let (raw, value) = match split_declaration(decl) {
        Some(x) => x,
        None => {
            return ;
        },
    };
    let name = lower_string(&string_of(&raw));
    if str_eq(&name, "display") {
        props.display = parse_display(&value);
    } else if str_eq(&name, "flex-direction") {
        props.flex_direction = parse_direction(&value);
    } else if str_eq(&name, "width") {
        props.width = parse_length(&value);
    } else if str_eq(&name, "height") {
        props.height = parse_length(&value);
    } else if str_eq(&name, "padding") {
        props.padding = parse_length(&value);
    } else if str_eq(&name, "margin") {
        props.margin = parse_length(&value);
    } else if str_eq(&name, "font-size") {
        props.font_size = parse_length(&value);
    } else if str_eq(&name, "border-radius") {
        props.radius = parse_length(&value);
    } else if str_eq(&name, "background") || str_eq(&name, "background-color") {
        props.background = parse_color(&string_of(&value));
    } else if str_eq(&name, "color") {
        props.color = parse_color(&string_of(&value));
    } else if str_eq(&name, "border") {
        if let Some((w, c)) = parse_border_shorthand(&value) {
            props.border_width = Some(w);
            props.border_color = Some(c);
        }
    }
}

/// The properties after declarations, in order.
pub open spec fn with_declarations(ds: Seq<Seq<char>>) -> PropsView
    decreases ds.len(),
{
    if ds.len() == 0 {
        no_props()
    } else {
        with_declaration(with_declarations(ds.drop_last()), ds.last())
    }
}

/// The properties that a declaration block gives.
pub open spec fn block_props(block: Seq<char>) -> PropsView {
    with_declarations(pieces(block, ';'))
}

fn parse_block(block: &[char]) -> (props: StyleProps)
    ensures
        props.deep_view() == block_props(block@),
{
    let ds = split_at_char(block, ';');
    let ghost all = texts(ds@);
    let mut props = StyleProps::default();
    let mut i: usize = 0;
    assert(all.take(0) =~= Seq::<Seq<char>>::empty());
    while i < ds.len()
        invariant
            0 <= i <= ds@.len(),
            all == texts(ds@),
            props.deep_view() == with_declarations(all.take(i as int)),
        decreases ds@.len() - i,
    {
        assert(all.take(i + 1).drop_last() =~= all.take(i as int));
        assert(all.take(i + 1).last() == ds@[i as int]@);
        apply_decl(&ds[i], &mut props);
        i = i + 1;
    }
    assert(all.take(all.len() as int) =~= all);
    props
}

/// Parses an inline `style="..."` attribute string.
pub fn parse_inline(input: &str) -> (props: StyleProps)
    ensures
        props.deep_view() == block_props(input@),
{
    parse_block(&chars_of(input))
}
/// The selector that a text stands for.
pub open spec fn selector_of(s: Seq<char>) -> SelectorView {
    if s == "*"@ {
        SelectorView::Universal
    } else if s.len() > 0 && s[0] == '.' {
        SelectorView::Class(s.skip(1))
    } else {
        SelectorView::Tag(lower_seq(s))
    }
}

/// A rule: what it applies to, and what it sets.
pub type RuleView = (SelectorView, PropsView);

/// The rules of a list of selectors that share properties; empty selectors are passed over.
pub open spec fn selector_rules(sels: Seq<Seq<char>>, p: PropsView) -> Seq<RuleView>
    decreases sels.len(),
{
    if sels.len() == 0 {
        Seq::empty()
    } else {
        let front = selector_rules(sels.drop_last(), p);
        let s = trim(sels.last());
        if s.len() == 0 {
            front
        } else {
            front.push((selector_of(s), p))
        }
    }
}

/// The rules of one block, `selectors { declarations`.
pub open spec fn rules_of_block(block: Seq<char>) -> Seq<RuleView> {
    let b = trim(block);
    match find_from(b, "{"@, 0) {
        Some(i) => selector_rules(pieces(b.take(i), ','), block_props(b.skip(i + 1))),
        None => Seq::empty(),
    }
}

/// The rules of blocks, in order.
pub open spec fn rules_of_blocks(blocks: Seq<Seq<char>>) -> Seq<RuleView>
    decreases blocks.len(),
{
    if blocks.len() == 0 {
        Seq::empty()
    } else {
        rules_of_blocks(blocks.drop_last()) + rules_of_block(blocks.last())
    }
}

/// The rules of a stylesheet.
pub open spec fn sheet_rules(input: Seq<char>) -> Seq<RuleView> {
    rules_of_blocks(pieces(input, '}'))
}

fn parse_selector(s: &[char]) -> (r: Selector)
    ensures
        r.deep_view() == selector_of(s@),
{
    let n = s.len();
    if is_word(s, "*") {
        Selector::Universal
    } else if n > 0 && s[0] == '.' {
        Selector::Class(string_of(&tail(s, 1)))
    } else {
        Selector::Tag(lower_string(&string_of(s)))
    }
}

impl Length {
    /// The same length.
    pub fn copy(&self) -> (r: Length)
        ensures
            r.deep_view() == self.deep_view(),
    {
        match self {
            Length::Px(t) => Length::Px(String::from_str(t.as_str())),
            Length::Percent(t) => Length::Percent(String::from_str(t.as_str())),
        }
    }
}

fn copy_length(l: &Option<Length>) -> (r: Option<Length>)
    ensures
        r.deep_view() == l.deep_view(),
{
    match l {
        Some(l) => Some(l.copy()),
        None => None,
    }
}

impl StyleProps {
    /// The same properties.
    pub fn copy(&self) -> (r: StyleProps)
        ensures
            r.deep_view() == self.deep_view(),
    {
        StyleProps {
            display: self.display,
            flex_direction: self.flex_direction,
            width: copy_length(&self.width),
            height: copy_length(&self.height),
            padding: copy_length(&self.padding),
            margin: copy_length(&self.margin),
            background: self.background,
            color: self.color,
            font_size: copy_length(&self.font_size),
            border_width: copy_length(&self.border_width),
            border_color: self.border_color,
            radius: copy_length(&self.radius),
        }
    }
}

fn push_rules(rules: &mut Vec<(Selector, StyleProps)>, block: &[char])
    ensures
        final(rules).deep_view() == old(rules).deep_view() + rules_of_block(block@),
{
    proof {
        reveal_strlit("{");
    }
    let ghost was = rules.deep_view();
    let b = trimmed(block);
    let i = match search(&b, &chars_of("{"), 0) {
        Some(i) => i,
        None => {
            assert(was + Seq::<RuleView>::empty() =~= was);
            return ;
        },
    };
    let n = b.len();
    let head = part(&b, 0, i);
    assert(head@ =~= b@.take(i as int));
    let props = parse_block(&tail(&b, i + 1));
    let ghost p = block_props(b@.skip(i + 1));
    let sels = split_at_char(&head, ',');
    let ghost all = texts(sels@);
    let mut k: usize = 0;
    assert(all.take(0) =~= Seq::<Seq<char>>::empty());
    assert(was + selector_rules(all.take(0), p) =~= was);
    while k < sels.len()
        invariant
            0 <= k <= sels@.len(),
            all == texts(sels@),
            props.deep_view() == p,
            rules.deep_view() == was + selector_rules(all.take(k as int), p),
        decreases sels@.len() - k,
    {
        assert(all.take(k + 1).drop_last() =~= all.take(k as int));
        assert(all.take(k + 1).last() == sels@[k as int]@);
        let s = trimmed(&sels[k]);
        if s.len() > 0 {
            let ghost before = rules.deep_view();
            rules.push((parse_selector(&s), props.copy()));
            assert(rules.deep_view() =~= before.push((selector_of(s@), p)));
            assert(before.push((selector_of(s@), p)) =~= was + selector_rules(
                all.take(k as int),
                p,
            ).push((selector_of(s@), p)));
        }
        k = k + 1;
    }
    assert(all.take(all.len() as int) =~= all);
}

/// Parses a `<style>` block body into `(selector, props)` rules.
pub fn parse_stylesheet(input: &str) -> (rules: Vec<(Selector, StyleProps)>)
    ensures
        rules.deep_view() == sheet_rules(input@),
{
    let blocks = split_at_char(&chars_of(input), '}');
    let ghost all = texts(blocks@);
    let mut rules: Vec<(Selector, StyleProps)> = Vec::new();
    let mut i: usize = 0;
    assert(all.take(0) =~= Seq::<Seq<char>>::empty());
    assert(rules.deep_view() =~= Seq::<RuleView>::empty());
    while i < blocks.len()
        invariant
            0 <= i <= blocks@.len(),
            all == texts(blocks@),
            rules.deep_view() == rules_of_blocks(all.take(i as int)),
        decreases blocks@.len() - i,
    {
        assert(all.take(i + 1).drop_last() =~= all.take(i as int));
        assert(all.take(i + 1).last() == blocks@[i as int]@);
        push_rules(&mut rules, &blocks[i]);
        i = i + 1;
    }
    assert(all.take(all.len() as int) =~= all);
    rules
}

/// The bodies of the `<style>` blocks from a position on, each followed by a line feed.
pub open spec fn style_blocks(s: Seq<char>, i: int) -> Seq<char>
    decreases s.len() - i,
    when 0 <= i <= s.len()
    via style_blocks_decreases
{
    match block_at(s, i) {
        Some((from, to)) => s.subrange(from, to).push('\n') + style_blocks(s, to + 8),
        None => Seq::empty(),
    }
}

/// Where the body of the first `<style>` block from a position on starts and ends.
pub open spec fn block_at(s: Seq<char>, i: int) -> Option<(int, int)> {
    match find_from(s, "<style"@, i) {
        Some(open) => match find_from(s, ">"@, open) {
            Some(end) => match find_from(s, "</style>"@, end + 1) {
                Some(close) => Some((end + 1, close)),
                None => None,
            },
            None => None,
        },
        None => None,
    }
}

#[via_fn]
proof fn style_blocks_decreases(s: Seq<char>, i: int) {
    lemma_block_at(s, i);
}

proof fn lemma_block_at(s: Seq<char>, i: int)
    requires
        0 <= i <= s.len(),
    ensures
        block_at(s, i) matches Some((from, to)) ==> i <= from <= to && to + 8 <= s.len(),
{
    reveal_strlit("<style");
    reveal_strlit(">");
    reveal_strlit("</style>");
    lemma_find_from(s, "<style"@, i);
    if let Some(open) = find_from(s, "<style"@, i) {
        assert(occurs(s, "<style"@, open));
        lemma_find_from(s, ">"@, open);
        if let Some(end) = find_from(s, ">"@, open) {
            assert(occurs(s, ">"@, end));
            lemma_find_from(s, "</style>"@, end + 1);
        }
    }
}

fn find_block(v: &[char], i: usize) -> (r: Option<(usize, usize)>)
    requires
        i <= v@.len(),
    ensures
        match (r, block_at(v@, i as int)) {
            (Some(x), Some(y)) => x.0 == y.0 && x.1 == y.1,
            (None, None) => true,
            _ => false,
        },
{
    proof {
        lemma_find_from(v@, "<style"@, i as int);
        reveal_strlit("<style");
        reveal_strlit(">");
    }
    let n = v.len();
    let open = match search(v, &chars_of("<style"), i) {
        Some(p) => p,
        None => {
            return None;
        },
    };
    proof {
        lemma_find_from(v@, ">"@, open as int);
    }
    let end = match search(v, &chars_of(">"), open) {
        Some(p) => p,
        None => {
            return None;
        },
    };
    match search(v, &chars_of("</style>"), end + 1) {
        Some(close) => Some((end + 1, close)),
        None => None,
    }
}

/// Collects all `<style>` blocks from a document's text content.
pub fn extract_style_blocks(source: &str) -> (out: String)
    ensures
        out@ == style_blocks(source@, 0),
{
    let v = chars_of(source);
    let n = v.len();
    let mut out = String::new();
    let mut i: usize = 0;
    assert(out@ + style_blocks(v@, 0) =~= style_blocks(v@, 0));
    loop
        invariant
            0 <= i <= n,
            n == v@.len(),
            v@ == source@,
            style_blocks(v@, 0) == out@ + style_blocks(v@, i as int),
        decreases n - i,
    {
        proof {
            lemma_block_at(v@, i as int);
        }
        match find_block(&v, i) {
            Some((from, to)) => {
                let ghost was = out@;
                let ghost body = v@.subrange(from as int, to as int);
                out.append(slice_string(&v, from, to).as_str());
                out.append("\n");
                proof {
                    reveal_strlit("\n");
                }
                assert(out@ =~= was + body.push('\n'));
                assert(was + (body.push('\n') + style_blocks(v@, to + 8)) =~= out@ + style_blocks(
                    v@,
                    to + 8,
                ));
                i = to + 8;
            },
            None => {
                assert(out@ + Seq::<char>::empty() =~= out@);
                return out;
            },
        }
    }
}

/// Whether an element with a tag and classes is one that a selector applies to.
pub open spec fn matches_element(
    sel: SelectorView,
    tag: Seq<char>,
    classes: Seq<Seq<char>>,
) -> bool {
    match sel {
        SelectorView::Universal => true,
        SelectorView::Tag(t) => t == tag,
        SelectorView::Class(c) => classes.contains(c),
    }
}

/// Matches an element (by tag + classes) against a parsed selector.
pub fn selector_matches(sel: &Selector, tag: &str, classes: &[String]) -> (b: bool)
    ensures
        b == matches_element(sel.deep_view(), tag@, classes.deep_view()),
{
    match sel {
        Selector::Universal => true,
        Selector::Tag(t) => str_eq(t, tag),
        Selector::Class(c) => lists_text(classes, c),
    }
}

fn lists_text(list: &[String], t: &str) -> (b: bool)
    ensures
        b == list.deep_view().contains(t@),
{
    let n = list.len();
    let mut i: usize = 0;
    while i < n
        invariant
            0 <= i <= n,
            n == list@.len(),
            forall|k: int| 0 <= k < i ==> #[trigger] list.deep_view()[k] != t@,
        decreases n - i,
    {
        if str_eq(&list[i], t) {
            assert(list.deep_view()[i as int] == t@);
            return true;
        }
        i = i + 1;
    }
    false
}

/// The later value, where it is set.
pub open spec fn pick<T>(earlier: Option<T>, later: Option<T>) -> Option<T> {
    if later is Some {
        later
    } else {
        earlier
    }
}

/// Properties, overridden by those that others set.
pub open spec fn overridden(a: PropsView, r: PropsView) -> PropsView {
    PropsView {
        display: pick(a.display, r.display),
        flex_direction: pick(a.flex_direction, r.flex_direction),
        width: pick(a.width, r.width),
        height: pick(a.height, r.height),
        padding: pick(a.padding, r.padding),
        margin: pick(a.margin, r.margin),
        background: pick(a.background, r.background),
        color: pick(a.color, r.color),
        font_size: pick(a.font_size, r.font_size),
        border_width: pick(a.border_width, r.border_width),
        border_color: pick(a.border_color, r.border_color),
        radius: pick(a.radius, r.radius),
    }
}

/// Properties merged, lowest priority first.
pub open spec fn merged(rules: Seq<PropsView>) -> PropsView
    decreases rules.len(),
{
    if rules.len() == 0 {
        no_props()
    } else {
        overridden(merged(rules.drop_last()), rules.last())
    }
}

fn pick_length(acc: &mut Option<Length>, later: &Option<Length>)
    ensures
        final(acc).deep_view() == pick(old(acc).deep_view(), later.deep_view()),
{
    if let Some(l) = later {
        *acc = Some(l.copy());
    }
}

fn pick_color(acc: &mut Option<Rgba>, later: Option<Rgba>)
    ensures
        channels(*final(acc)) == pick(channels(*old(acc)), channels(later)),
{
    if later.is_some() {
        *acc = later;
    }
}

fn override_props(acc: &mut StyleProps, r: &StyleProps)
    ensures
        final(acc).deep_view() == overridden(old(acc).deep_view(), r.deep_view()),
{
    if r.display.is_some() {
        acc.display = r.display;
    }
    if r.flex_direction.is_some() {
        acc.flex_direction = r.flex_direction;
    }
    pick_length(&mut acc.width, &r.width);
    pick_length(&mut acc.height, &r.height);
    pick_length(&mut acc.padding, &r.padding);
    pick_length(&mut acc.margin, &r.margin);
    pick_color(&mut acc.background, r.background);
    pick_color(&mut acc.color, r.color);
    pick_length(&mut acc.font_size, &r.font_size);
    pick_length(&mut acc.border_width, &r.border_width);
    pick_color(&mut acc.border_color, r.border_color);
    pick_length(&mut acc.radius, &r.radius);
}

/// Merges a list of `StyleProps` (lowest priority first) into one, returning the combined result.
/// Later entries win over earlier ones.
pub fn merge_props(rules: &[StyleProps]) -> (acc: StyleProps)
    ensures
        acc.deep_view() == merged(rules.deep_view()),
{
    let ghost all = rules.deep_view();
    let n = rules.len();
    let mut acc = StyleProps::default();
    let mut i: usize = 0;
    assert(all.take(0) =~= Seq::<PropsView>::empty());
    while i < n
        invariant
            0 <= i <= n,
            n == rules@.len(),
            all == rules.deep_view(),
            acc.deep_view() == merged(all.take(i as int)),
        decreases n - i,
    {
        assert(all.take(i + 1).drop_last() =~= all.take(i as int));
        assert(all.take(i + 1).last() == rules@[i as int].deep_view());
        override_props(&mut acc, &rules[i]);
        i = i + 1;
    }
    assert(all.take(n as int) =~= all);
    acc
}

/// The properties of the rules that apply to an element, in order.
pub open spec fn matching(
    sheet: Seq<RuleView>,
    tag: Seq<char>,
    classes: Seq<Seq<char>>,
) -> Seq<PropsView>
    decreases sheet.len(),
{
    if sheet.len() == 0 {
        Seq::empty()
    } else {
        let front = matching(sheet.drop_last(), tag, classes);
        if matches_element(sheet.last().0, tag, classes) {
            front.push(sheet.last().1)
        } else {
            front
        }
    }
}

/// The effective properties of an element.
pub open spec fn element_props(
    tag: Seq<char>,
    classes: Seq<Seq<char>>,
    sheet: Seq<RuleView>,
    inline: Seq<char>,
) -> PropsView {
    overridden(merged(matching(sheet, tag, classes)), block_props(inline))
}

/// Computes the effective `StyleProps` for an element given stylesheet rules and an inline style
/// override. Stylesheet rules are applied in order; the inline style overrides everything.
pub fn resolve_element_props(
    tag: &str,
    classes: &[String],
    stylesheet: &[(Selector, StyleProps)],
    inline: &str,
) -> (props: StyleProps)
    ensures
        props.deep_view() == element_props(
            tag@,
            classes.deep_view(),
            stylesheet.deep_view(),
            inline@,
        ),
{
    let ghost all = stylesheet.deep_view();
    let ghost cs = classes.deep_view();
    let n = stylesheet.len();
    let mut matched: Vec<StyleProps> = Vec::new();
    let mut i: usize = 0;
    assert(all.take(0) =~= Seq::<RuleView>::empty());
    assert(matched.deep_view() =~= Seq::<PropsView>::empty());
    while i < n
        invariant
            0 <= i <= n,
            n == stylesheet@.len(),
            all == stylesheet.deep_view(),
            cs == classes.deep_view(),
            matched.deep_view() == matching(all.take(i as int), tag@, cs),
        decreases n - i,
    {
        assert(all.take(i + 1).drop_last() =~= all.take(i as int));
        assert(all.take(i + 1).last() == all[i as int]);
        let rule = &stylesheet[i];
        assert(all[i as int] == (rule.0.deep_view(), rule.1.deep_view()));
        if selector_matches(&rule.0, tag, classes) {
            let ghost was = matched.deep_view();
            matched.push(rule.1.copy());
            assert(matched.deep_view() =~= was.push(rule.1.deep_view()));
        }
        i = i + 1;
    }
    assert(all.take(n as int) =~= all);
    let ghost was = matched.deep_view();
    matched.push(parse_inline(inline));
    assert(matched.deep_view() =~= was.push(block_props(inline@)));
    assert(matched.deep_view().drop_last() =~= was);
    merge_props(&matched)
}

/// Later entries win over earlier ones: what the last one sets holds, and what it leaves open stays
/// as it was.
pub proof fn law_later_wins(rules: Seq<PropsView>, last: PropsView)
    ensures
        merged(rules.push(last)) == overridden(merged(rules), last),
        overridden(merged(rules), no_props()) == merged(rules),
        overridden(merged(rules), last).background == (if last.background is Some {
            last.background
        } else {
            merged(rules).background
        }),
{
    assert(rules.push(last).drop_last() =~= rules);
}

/// The inline style overrides the stylesheet: a property that it sets holds whatever the rules set,
/// and without one the rules hold alone.
pub proof fn law_inline_overrides(
    tag: Seq<char>,
    classes: Seq<Seq<char>>,
    sheet: Seq<RuleView>,
    inline: Seq<char>,
)
    ensures
        ({
            let p = element_props(tag, classes, sheet, inline);
            let own = block_props(inline);
            let ruled = merged(matching(sheet, tag, classes));
            &&& own.width is Some ==> p.width == own.width
            &&& own.background is Some ==> p.background == own.background
            &&& own.color is Some ==> p.color == own.color
            &&& own.display is Some ==> p.display == own.display
            &&& own == no_props() ==> p == ruled
        }),
{
}

/// A rule whose selector does not apply to an element does not change it, and one that applies
/// overrides the rules before it.
pub proof fn law_rules_apply_to_matching_elements(
    tag: Seq<char>,
    classes: Seq<Seq<char>>,
    sheet: Seq<RuleView>,
    rule: RuleView,
)
    ensures
        !matches_element(rule.0, tag, classes) ==> matching(sheet.push(rule), tag, classes)
            == matching(sheet, tag, classes),
        matches_element(rule.0, tag, classes) ==> merged(matching(sheet.push(rule), tag, classes))
            == overridden(merged(matching(sheet, tag, classes)), rule.1),
{
    assert(sheet.push(rule).drop_last() =~= sheet);
    let front = matching(sheet, tag, classes);
    assert(front.push(rule.1).drop_last() =~= front);
}

} // verus!
