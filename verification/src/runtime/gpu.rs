//! The layout of a frame that is read back from the GPU: rows are padded to an alignment, and are
//! packed tightly for the caller.
use vstd::arithmetic::div_mod::lemma_fundamental_div_mod;
use vstd::prelude::*;

verus! {

/// Row byte alignment the GPU requires for copies between buffers and textures.
pub const ROW_ALIGNMENT: u32 = 256;

/// The bytes of a row of RGBA8 pixels, padded to the alignment: the least multiple of it that holds
/// the row.
pub open spec fn padded_row(width: int) -> int {
    (4 * width + 255) / 256 * 256
}

/// The bytes of a row as the GPU copies it.
pub fn padded_bytes_per_row(width: u32) -> (r: u32)
    requires
        padded_row(width as int) <= u32::MAX,
    ensures
        r == padded_row(width as int),
        r % ROW_ALIGNMENT == 0,
        4 * width <= r < 4 * width + ROW_ALIGNMENT,
{
    let units: u64 = (width as u64 * 4 + 255) / 256;
    units as u32 * ROW_ALIGNMENT
}

/// The bytes that are to be reserved for reading a frame back.
pub fn readback_size(width: u32, height: u32) -> (r: u64)
    requires
        padded_row(width as int) <= u32::MAX,
    ensures
        r == padded_row(width as int) * height,
{
    let row = padded_bytes_per_row(width);
    assert(0 <= row * height <= 0xffff_ffff * 0xffff_ffff) by (nonlinear_arith)
        requires
            0 <= row <= 0xffff_ffff,
            0 <= height <= 0xffff_ffff,
    ;
    row as u64 * height as u64
}

/// The bytes of the first `rows` rows, without their padding.
pub open spec fn packed(padded: Seq<u8>, unpadded: int, stride: int, rows: int) -> Seq<u8>
    decreases rows,
{
    if rows <= 0 {
        Seq::empty()
    } else {
        packed(padded, unpadded, stride, rows - 1) + padded.subrange(
            (rows - 1) * stride,
            (rows - 1) * stride + unpadded,
        )
    }
}

/// The tightly-packed RGBA8 rows of a frame that was read back.
pub fn unpad_rows(padded: &[u8], width: u32, height: u32) -> (r: Vec<u8>)
    requires
        padded_row(width as int) <= u32::MAX,
        padded@.len() == padded_row(width as int) * height,
    ensures
        r@ == packed(padded@, 4 * width, padded_row(width as int), height as int),
{
    let stride = padded_bytes_per_row(width);
    let n = padded.len();
    let mut pixels: Vec<u8> = Vec::new();
    let mut start: usize = 0;
    let mut y: u32 = 0;
    while y < height
        invariant
            0 <= y <= height,
            n == padded@.len(),
            n == stride * height,
            stride == padded_row(width as int),
            4 * width <= stride,
            start == y * stride,
            pixels@ == packed(padded@, 4 * width, stride as int, y as int),
        decreases height - y,
    {
        assert((y + 1) * stride == y * stride + stride) by (nonlinear_arith);
        assert((y + 1) * stride <= stride * height) by (nonlinear_arith)
            requires
                y + 1 <= height,
                0 <= stride,
        ;
        let len: usize = width as usize * 4;
        push_row(&mut pixels, padded, start, len);
        start = start + stride as usize;
        y = y + 1;
    }
    pixels
}

fn push_row(out: &mut Vec<u8>, from: &[u8], start: usize, len: usize)
    requires
        start + len <= from@.len(),
    ensures
        final(out)@ == old(out)@ + from@.subrange(start as int, start + len),
{
    let ghost was = out@;
    let total = from.len();
    let mut i: usize = 0;
    while i < len
        invariant
            0 <= i <= len,
            start + len <= total,
            total == from@.len(),
            out@ == was + from@.subrange(start as int, start + i),
        decreases len - i,
    {
        out.push(from[start + i]);
        i = i + 1;
        assert(out@ =~= was + from@.subrange(start as int, start + i));
    }
}

/// Unpadding gives a tight frame: four bytes per pixel, each from its padded row.
pub proof fn law_packed_rows(padded: Seq<u8>, width: int, rows: int)
    requires
        width >= 0,
        rows >= 0,
        padded.len() >= rows * padded_row(width),
    ensures
        packed(padded, 4 * width, padded_row(width), rows).len() == rows * (4 * width),
        forall|y: int, i: int|
            0 <= y < rows && 0 <= i < 4 * width ==> packed(
                padded,
                4 * width,
                padded_row(width),
                rows,
            )[#[trigger] (y * (4 * width)) + i] == #[trigger] padded[y * padded_row(width) + i],
    decreases rows,
{
    let stride = padded_row(width);
    let w = 4 * width;
    assert(w <= stride) by {
        lemma_fundamental_div_mod(w + 255, 256);
    }
    if rows > 0 {
        let r = rows - 1;
        assert(rows * stride == r * stride + stride) by (nonlinear_arith)
            requires
                rows == r + 1,
        ;
        assert(rows * w == r * w + w) by (nonlinear_arith)
            requires
                rows == r + 1,
        ;
        assert(0 <= r * stride) by (nonlinear_arith)
            requires
                0 <= r,
                0 <= stride,
        ;
        law_packed_rows(padded, width, r);
        let p = packed(padded, w, stride, rows);
        assert forall|y: int, i: int| 0 <= y < rows && 0 <= i < w implies p[#[trigger] (y * w) + i]
            == #[trigger] padded[y * stride + i] by {
            if y < r {
                assert(y * w + w <= r * w) by (nonlinear_arith)
                    requires
                        y + 1 <= r,
                        0 <= w,
                ;
                assert(0 <= y * w) by (nonlinear_arith)
                    requires
                        0 <= y,
                        0 <= w,
                ;
                assert(packed(padded, w, stride, r)[y * w + i] == padded[y * stride + i]);
            } else {
                assert(p[y * w + i] == padded.subrange(r * stride, r * stride + w)[i]);
            }
        }
    } else {
        assert(0 * w == 0) by (nonlinear_arith);
    }
}

} // verus!
