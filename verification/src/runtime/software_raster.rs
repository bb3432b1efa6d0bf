//! Headless software rasterization of colored rectangles, for visual regression testing.
//!
//! Rectangles are painted into an in-memory RGBA frame using plain alpha compositing (paint order =
//! stacking order). The frame can then be encoded to PNG and diffed against a baseline.
use crate::runtime::display_list::{color_of, Color};
use vstd::arithmetic::div_mod::{
    lemma_fundamental_div_mod, lemma_fundamental_div_mod_converse, lemma_mod_bound,
};
use vstd::prelude::*;

verus! {

/// A frame: rows of pixels, from the top.
#[derive(Debug, Clone, PartialEq, Eq)]
pub struct Frame {
    pub width: u32,
    pub height: u32,
    pub pixels: Vec<Color>,
}

impl Frame {
    /// There is a pixel for every place.
    pub open spec fn wf(&self) -> bool {
        self.pixels@.len() == self.width * self.height
    }

    /// The pixel at a place.
    pub open spec fn pixel(&self, x: int, y: int) -> Color {
        self.pixels@[y * self.width + x]
    }

    /// The pixel at a place.
    pub fn get_pixel(&self, x: u32, y: u32) -> (c: Color)
        requires
            self.wf(),
            x < self.width,
            y < self.height,
        ensures
            c == self.pixel(x as int, y as int),
    {
        proof {
            lemma_place(x as int, y as int, self.width as int, self.height as int);
        }
        let n = self.pixels.len();
        let w = self.width;
        assert(y * w <= y * w + x < n);
        self.pixels[y as usize * w as usize + x as usize]
    }
}

/// A place stands in its row and column, within the frame.
pub proof fn lemma_place(x: int, y: int, w: int, h: int)
    requires
        0 <= x < w,
        0 <= y < h,
    ensures
        0 <= y * w + x < w * h,
        (y * w + x) / w == y,
        (y * w + x) % w == x,
{
    assert(0 <= y * w) by (nonlinear_arith)
        requires
            0 <= y,
            0 < w,
    ;
    assert((y + 1) * w <= h * w) by (nonlinear_arith)
        requires
            y + 1 <= h,
            0 < w,
    ;
    assert((y + 1) * w == y * w + w) by (nonlinear_arith);
    assert(h * w == w * h) by (nonlinear_arith);
    lemma_fundamental_div_mod_converse(y * w + x, w, y, x);
}

/// A rectangle to paint, in whole pixels: from the left and top edges up to the right and bottom
/// edges.
#[derive(Debug, Clone, Copy, PartialEq, Eq)]
pub struct PaintRect {
    pub left: i64,
    pub top: i64,
    pub right: i64,
    pub bottom: i64,
    pub color: Color,
}

/// Whether a rectangle covers a place.
pub open spec fn covers_place(r: PaintRect, x: int, y: int) -> bool {
    r.left <= x < r.right && r.top <= y < r.bottom
}

/// The alpha of a color over another.
pub open spec fn alpha_over(c: int, d: int) -> int {
    c + d * (255 - c) / 255
}

/// A channel of a color over another, in straight (non-premultiplied) alpha.
pub open spec fn channel_over(c: int, ca: int, d: int, da: int) -> u8 {
    let a = alpha_over(ca, da);
    let n = c * ca + d * da * (255 - ca) / 255;
    (n / if a > 0 {
        a
    } else {
        1
    } % 256) as u8
}

/// A color painted over another: the "over" operator.
pub open spec fn over(c: Color, d: Color) -> Color {
    Color {
        r: channel_over(c.r as int, c.a as int, d.r as int, d.a as int),
        g: channel_over(c.g as int, c.a as int, d.g as int, d.a as int),
        b: channel_over(c.b as int, c.a as int, d.b as int, d.a as int),
        a: alpha_over(c.a as int, d.a as int) as u8,
    }
}

/// The color at a place after rectangles, in paint order, over transparent black.
pub open spec fn painted(items: Seq<PaintRect>, x: int, y: int) -> Color
    decreases items.len(),
{
    if items.len() == 0 {
        color_of((0, 0, 0, 0))
    } else {
        let under = painted(items.drop_last(), x, y);
        if covers_place(items.last(), x, y) {
            over(items.last().color, under)
        } else {
            under
        }
    }
}

proof fn lemma_products(c: int, ca: int, d: int, da: int)
    requires
        0 <= c <= 255,
        0 <= ca <= 255,
        0 <= d <= 255,
        0 <= da <= 255,
    ensures
        0 <= da * (255 - ca) <= 65025,
        0 <= da * (255 - ca) / 255 <= 255 - ca,
        0 <= alpha_over(ca, da) <= 255,
        0 <= c * ca <= 65025,
        0 <= d * da <= 65025,
        0 <= d * da * (255 - ca) <= 16581375,
        0 <= d * da * (255 - ca) / 255 <= 65025,
{
    assert(0 <= da * (255 - ca) <= 255 * (255 - ca) <= 65025) by (nonlinear_arith)
        requires
            0 <= ca <= 255,
            0 <= da <= 255,
    ;
    assert(0 <= c * ca <= 65025) by (nonlinear_arith)
        requires
            0 <= c <= 255,
            0 <= ca <= 255,
    ;
    assert(0 <= d * da <= 65025) by (nonlinear_arith)
        requires
            0 <= d <= 255,
            0 <= da <= 255,
    ;
    let p = d * da;
    assert(0 <= p * (255 - ca) <= 16581375) by (nonlinear_arith)
        requires
            0 <= p <= 65025,
            0 <= ca <= 255,
    ;
}

fn mix(c: u8, ca: u8, d: u8, da: u8) -> (r: u8)
    ensures
        r == channel_over(c as int, ca as int, d as int, da as int),
{
    proof {
        lemma_products(c as int, ca as int, d as int, da as int);
    }
    let rest: u32 = 255 - ca as u32;
    let a: u32 = ca as u32 + da as u32 * rest / 255;
    let n: u32 = c as u32 * ca as u32 + d as u32 * da as u32 * rest / 255;
    let q: u32 = if a > 0 {
        n / a
    } else {
        n / 1
    };
    (q % 256) as u8
}

/// Paints a color over another.
pub fn blend(c: Color, d: Color) -> (r: Color)
    ensures
        r == over(c, d),
{
    proof {
        lemma_products(0, c.a as int, 0, d.a as int);
    }
    let rest: u32 = 255 - c.a as u32;
    let a: u32 = c.a as u32 + d.a as u32 * rest / 255;
    Color {
        r: mix(c.r, c.a, d.r, d.a),
        g: mix(c.g, c.a, d.g, d.a),
        b: mix(c.b, c.a, d.b, d.a),
        a: a as u8,
    }
}

fn color_at(items: &Vec<PaintRect>, x: u32, y: u32) -> (c: Color)
    ensures
        c == painted(items@, x as int, y as int),
{
    let mut c = Color::transparent();
    let mut i: usize = 0;
    assert(items@.take(0) =~= Seq::<PaintRect>::empty());
    while i < items.len()
        invariant
            0 <= i <= items@.len(),
            c == painted(items@.take(i as int), x as int, y as int),
        decreases items@.len() - i,
    {
        assert(items@.take(i + 1).drop_last() =~= items@.take(i as int));
        let r = items[i];
        assert(items@.take(i + 1).last() == r);
        if r.left <= x as i64 && (x as i64) < r.right && r.top <= y as i64 && (y as i64)
            < r.bottom {
            c = blend(r.color, c);
        }
        i = i + 1;
    }
    assert(items@.take(items@.len() as int) =~= items@);
    c
}

/// Paint `items` (in the order they were emitted, which is paint order) onto a `width`x`height`
/// RGBA frame, starting from a transparent black canvas.
///
/// Each item's color is alpha-composited over whatever is already there, so a later item occludes
/// an earlier one where they overlap.
pub fn rasterize_display_list(items: &Vec<PaintRect>, width: u32, height: u32) -> (f: Frame)
    requires
        width * height <= usize::MAX,
    ensures
        f.wf(),
        f.width == width,
        f.height == height,
        forall|x: int, y: int|
            0 <= x < width && 0 <= y < height ==> #[trigger] f.pixel(x, y) == painted(
                items@,
                x,
                y,
            ),
{
    assert(0 <= width * height <= 0xffff_ffff * 0xffff_ffff) by (nonlinear_arith)
        requires
            0 <= width <= 0xffff_ffff,
            0 <= height <= 0xffff_ffff,
    ;
    let n: u64 = width as u64 * height as u64;
    let mut pixels: Vec<Color> = Vec::new();
    let mut i: u64 = 0;
    while i < n
        invariant
            0 <= i <= n,
            n == width * height,
            n <= usize::MAX,
            pixels@.len() == i,
            forall|k: int|
                0 <= k < i ==> #[trigger] pixels@[k] == painted(
                    items@,
                    k % (width as int),
                    k / (width as int),
                ),
        decreases n - i,
    {
        assert(width > 0) by (nonlinear_arith)
            requires
                0 < width * height,
                0 <= width,
        ;
        let w: u64 = width as u64;
        proof {
            lemma_mod_bound(i as int, w as int);
            lemma_fundamental_div_mod(i as int, w as int);
            let (q, h, v) = (i as int / w as int, height as int, w as int);
            assert(0 <= q < h) by (nonlinear_arith)
                requires
                    i == v * q + i as int % v,
                    0 <= i as int % v < v,
                    0 <= i < v * h,
                    v > 0,
            ;
        }
        let x = (i % w) as u32;
        let y = (i / w) as u32;
        pixels.push(color_at(items, x, y));
        i = i + 1;
    }
    let f = Frame { width, height, pixels };
    assert forall|x: int, y: int| 0 <= x < width && 0 <= y < height implies #[trigger] f.pixel(x, y)
        == painted(items@, x, y) by {
        lemma_place(x, y, width as int, height as int);
        assert(f.pixels@[y * width + x] == painted(
            items@,
            (y * width + x) % (width as int),
            (y * width + x) / (width as int),
        ));
    }
    f
}

/// An opaque item hides what is under it, and outside an item nothing changes.
pub proof fn law_later_items_occlude(items: Seq<PaintRect>, top: PaintRect, x: int, y: int)
    ensures
        covers_place(top, x, y) && top.color.a == 255 ==> painted(items.push(top), x, y) == top.color,
        !covers_place(top, x, y) ==> painted(items.push(top), x, y) == painted(items, x, y),
        painted(items.push(top), x, y) == (if covers_place(top, x, y) {
            over(top.color, painted(items, x, y))
        } else {
            painted(items, x, y)
        }),
{
    assert(items.push(top).drop_last() =~= items);
    let d = painted(items, x, y);
    let c = top.color;
    if c.a == 255 {
        lemma_opaque(c.r as int, d.r as int, d.a as int);
        lemma_opaque(c.g as int, d.g as int, d.a as int);
        lemma_opaque(c.b as int, d.b as int, d.a as int);
        assert(d.a * 0 / 255 == 0);
    }
}

proof fn lemma_opaque(c: int, d: int, da: int)
    requires
        0 <= c <= 255,
        0 <= d <= 255,
        0 <= da <= 255,
    ensures
        channel_over(c, 255, d, da) == c,
        alpha_over(255, da) == 255,
{
    let p = d * da;
    assert(p * (255 - 255) == 0) by (nonlinear_arith);
    assert(da * (255 - 255) == 0) by (nonlinear_arith);
    assert(c * 255 / 255 == c);
}

/// A half-transparent color over nothing keeps its channels and its alpha.
pub proof fn law_over_transparent(c: Color)
    requires
        c.a > 0,
    ensures
        over(c, color_of((0, 0, 0, 0))) == c,
{
    lemma_over_nothing(c.r as int, c.a as int);
    lemma_over_nothing(c.g as int, c.a as int);
    lemma_over_nothing(c.b as int, c.a as int);
}

proof fn lemma_over_nothing(c: int, ca: int)
    requires
        0 <= c <= 255,
        0 < ca <= 255,
    ensures
        channel_over(c, ca, 0, 0) == c,
        alpha_over(ca, 0) == ca,
{
    assert(0 * (255 - ca) == 0) by (nonlinear_arith);
    assert(0 * 0 * (255 - ca) == 0) by (nonlinear_arith);
    lemma_fundamental_div_mod_converse(c * ca, ca, c, 0);
}

/// The bytes of pixels: four per pixel.
pub open spec fn raw_of(pixels: Seq<Color>) -> Seq<u8>
    decreases pixels.len(),
{
    if pixels.len() == 0 {
        Seq::empty()
    } else {
        let c = pixels.last();
        raw_of(pixels.drop_last()) + seq![c.r, c.g, c.b, c.a]
    }
}

proof fn lemma_raw_len(pixels: Seq<Color>)
    ensures
        raw_of(pixels).len() == 4 * pixels.len(),
        forall|i: int|
            0 <= i < pixels.len() ==> {
                let c = #[trigger] pixels[i];
                &&& raw_of(pixels)[4 * i] == c.r
                &&& raw_of(pixels)[4 * i + 1] == c.g
                &&& raw_of(pixels)[4 * i + 2] == c.b
                &&& raw_of(pixels)[4 * i + 3] == c.a
            },
    decreases pixels.len(),
{
    if pixels.len() > 0 {
        let front = pixels.drop_last();
        lemma_raw_len(front);
        assert forall|i: int| 0 <= i < pixels.len() implies {
            let c = #[trigger] pixels[i];
            &&& raw_of(pixels)[4 * i] == c.r
            &&& raw_of(pixels)[4 * i + 1] == c.g
            &&& raw_of(pixels)[4 * i + 2] == c.b
            &&& raw_of(pixels)[4 * i + 3] == c.a
        } by {
            if i < front.len() {
                assert(front[i] == pixels[i]);
            }
        }
    }
}

impl Frame {
    /// The frame as tightly-packed RGBA8 rows.
    pub fn to_raw(&self) -> (r: Vec<u8>)
        ensures
            r@ == raw_of(self.pixels@),
    {
        let mut out: Vec<u8> = Vec::new();
        let mut i: usize = 0;
        assert(self.pixels@.take(0) =~= Seq::<Color>::empty());
        while i < self.pixels.len()
            invariant
                0 <= i <= self.pixels@.len(),
                out@ == raw_of(self.pixels@.take(i as int)),
            decreases self.pixels@.len() - i,
        {
            assert(self.pixels@.take(i + 1).drop_last() =~= self.pixels@.take(i as int));
            let ghost was = out@;
            let c = self.pixels[i];
            out.push(c.r);
            out.push(c.g);
            out.push(c.b);
            out.push(c.a);
            assert(out@ =~= was + seq![c.r, c.g, c.b, c.a]);
            i = i + 1;
        }
        assert(self.pixels@.take(self.pixels@.len() as int) =~= self.pixels@);
        out
    }

    /// The frame of tightly-packed RGBA8 rows, where there are as many bytes as its size asks for.
    pub fn from_raw(width: u32, height: u32, raw: &[u8]) -> (r: Option<Frame>)
        ensures
            match r {
                Some(f) => f.wf() && f.width == width && f.height == height && raw_of(f.pixels@)
                    == raw@,
                None => raw@.len() != 4 * (width * height),
            },
    {
        assert(0 <= width * height <= 0xffff_ffff * 0xffff_ffff) by (nonlinear_arith)
            requires
                0 <= width <= 0xffff_ffff,
                0 <= height <= 0xffff_ffff,
        ;
        let n: u128 = width as u128 * height as u128;
        let len = raw.len();
        if len as u128 != 4 * n {
            return None;
        }
        let mut pixels: Vec<Color> = Vec::new();
        let mut i: usize = 0;
        assert(raw@.take(0) =~= Seq::<u8>::empty());
        while i < len
            invariant
                0 <= i <= len,
                len == raw@.len(),
                len == 4 * n,
                i == 4 * pixels@.len(),
                raw_of(pixels@) == raw@.take(i as int),
            decreases len - i,
        {
            let ghost was = pixels@;
            let c = Color { r: raw[i], g: raw[i + 1], b: raw[i + 2], a: raw[i + 3] };
            pixels.push(c);
            assert(pixels@.drop_last() =~= was);
            assert(raw@.take(i + 4) =~= raw@.take(i as int) + seq![c.r, c.g, c.b, c.a]);
            i = i + 4;
        }
        assert(raw@.take(len as int) =~= raw@);
        Some(Frame { width, height, pixels })
    }
}

/// Raw bytes tell frames apart.
pub proof fn law_raw_is_injective(a: Seq<Color>, b: Seq<Color>)
    requires
        raw_of(a) == raw_of(b),
    ensures
        a == b,
{
    lemma_raw_len(a);
    lemma_raw_len(b);
    assert forall|i: int| 0 <= i < a.len() implies a[i] == b[i] by {
        let c = a[i];
        let d = b[i];
        assert(c.r == d.r && c.g == d.g && c.b == d.b && c.a == d.a);
    }
    assert(a =~= b);
}

/// What a PNG holds, where it can be decoded: width, height, and the bytes of its pixels.
pub uninterp spec fn png_contents(bytes: Seq<u8>) -> Option<(u32, u32, Seq<u8>)>;

/// The PNG of a frame of a size and the bytes of its pixels.
pub uninterp spec fn png_bytes(width: u32, height: u32, raw: Seq<u8>) -> Seq<u8>;

/// The most bytes of pixels that are sure to be decoded again: far below what the decoder is ready
/// to allocate.
pub const MAX_DECODED: usize = 0x400_0000;

/// `image::RgbaImage::write_to` with `ImageFormat::Png`: the PNG depends on the size and the bytes
/// alone. PNG keeps every pixel: what was encoded is decoded again, unless it is too large for the
/// decoder's own limit on memory.
#[verifier::external_body]
fn write_png(width: u32, height: u32, raw: Vec<u8>) -> (r: Vec<u8>)
    requires
        width > 0,
        height > 0,
        raw@.len() == 4 * (width * height),
    ensures
        r@ == png_bytes(width, height, raw@),
        raw@.len() <= MAX_DECODED ==> png_contents(r@) == Some((width, height, raw@)),
{
    let mut out = std::io::Cursor::new(Vec::new());
    let image = image::RgbaImage::from_raw(width, height, raw).unwrap();
    image.write_to(&mut out, image::ImageFormat::Png).unwrap();
    out.into_inner()
}

/// `image::load_from_memory_with_format` with `ImageFormat::Png`, converted with `to_rgba8`: four
/// bytes per pixel. The result depends on the bytes alone.
#[verifier::external_body]
fn read_png(bytes: &[u8]) -> (r: Option<(u32, u32, Vec<u8>)>)
    ensures
        match r {
            Some(x) => png_contents(bytes@) == Some((x.0, x.1, x.2@)) && x.2@.len() == 4 * (x.0
                * x.1),
            None => png_contents(bytes@) is None,
        },
{
    let image = image::load_from_memory_with_format(bytes, image::ImageFormat::Png).ok()?.to_rgba8();
    Some((image.width(), image.height(), image.into_raw()))
}

/// Encode an RGBA frame as PNG bytes (used to persist a baseline / artifact).
pub fn encode_png(frame: &Frame) -> (r: Vec<u8>)
    requires
        frame.wf(),
        frame.width > 0,
        frame.height > 0,
    ensures
        r@ == png_bytes(frame.width, frame.height, raw_of(frame.pixels@)),
        4 * frame.pixels@.len() <= MAX_DECODED ==> png_contents(r@) == Some(
            (frame.width, frame.height, raw_of(frame.pixels@)),
        ),
{
    proof {
        lemma_raw_len(frame.pixels@);
    }
    write_png(frame.width, frame.height, frame.to_raw())
}

/// Decode a PNG back into an RGBA frame (used to load a baseline).
pub fn decode_png(bytes: &[u8]) -> (r: Option<Frame>)
    ensures
        match r {
            Some(f) => f.wf() && png_contents(bytes@) == Some(
                (f.width, f.height, raw_of(f.pixels@)),
            ),
            None => png_contents(bytes@) is None,
        },
{
    match read_png(bytes) {
        Some((width, height, raw)) => Frame::from_raw(width, height, &raw),
        None => None,
    }
}

/// A frame comes back from PNG as it was: whatever decodes the encoded bytes has the same size and
/// the same pixels.
pub proof fn law_png_round_trips(frame: Frame, encoded: Seq<u8>, back: Frame)
    requires
        png_contents(encoded) == Some((frame.width, frame.height, raw_of(frame.pixels@))),
        png_contents(encoded) == Some((back.width, back.height, raw_of(back.pixels@))),
    ensures
        back.width == frame.width,
        back.height == frame.height,
        back.pixels@ == frame.pixels@,
{
    law_raw_is_injective(frame.pixels@, back.pixels@);
}

} // verus!
