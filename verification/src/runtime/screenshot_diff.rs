//! Visual regression checking.
//!
//! Given two RGBA frames, compute how different they are and, when they differ, produce a *diff
//! image* that highlights every changed pixel so a person can see what regressed. This is the
//! headless stand-in for pixel-comparing a real GPU-rendered frame against a committed baseline.
//!
//! The matching metric is deliberately simple and explainable: the number of pixels that changed in
//! any channel, plus the worst single-channel delta.
use crate::runtime::display_list::Color;
use crate::runtime::software_raster::Frame;
use vstd::prelude::*;

verus! {

/// Summary of comparing an `actual` frame against an `expected` baseline.
#[derive(Debug, Clone, Copy, PartialEq, Eq)]
pub struct DiffReport {
    /// Number of pixels that differ in at least one channel.
    pub changed: u64,
    /// Number of pixels.
    pub total: u64,
    /// Largest absolute single-channel difference across all pixels (0-255).
    pub max_channel_delta: u8,
    /// Sum of the absolute per-channel differences across all pixels.
    pub delta_sum: u128,
    /// `true` when no pixel differs.
    pub identical: bool,
}

/// The distance of two channel values.
pub open spec fn delta(a: u8, e: u8) -> u8 {
    if a > e {
        (a - e) as u8
    } else {
        (e - a) as u8
    }
}

/// The larger of two values.
pub open spec fn larger(a: u8, b: u8) -> u8 {
    if a > b {
        a
    } else {
        b
    }
}

/// The largest distance of two pixels' channels.
pub open spec fn pixel_delta(a: Color, e: Color) -> u8 {
    larger(larger(delta(a.r, e.r), delta(a.g, e.g)), larger(delta(a.b, e.b), delta(a.a, e.a)))
}

/// The sum of the distances of two pixels' channels.
pub open spec fn pixel_sum(a: Color, e: Color) -> nat {
    (delta(a.r, e.r) + delta(a.g, e.g) + delta(a.b, e.b) + delta(a.a, e.a)) as nat
}

/// How many pixels differ.
pub open spec fn changed_count(a: Seq<Color>, e: Seq<Color>) -> nat
    decreases a.len(),
{
    if a.len() == 0 {
        0
    } else {
        changed_count(a.drop_last(), e.drop_last()) + if a.last() != e.last() {
            1nat
        } else {
            0nat
        }
    }
}

/// The largest distance of any pixel's channel.
pub open spec fn worst_delta(a: Seq<Color>, e: Seq<Color>) -> u8
    decreases a.len(),
{
    if a.len() == 0 {
        0
    } else {
        larger(worst_delta(a.drop_last(), e.drop_last()), pixel_delta(a.last(), e.last()))
    }
}

/// The sum of the distances of all pixels' channels.
pub open spec fn delta_total(a: Seq<Color>, e: Seq<Color>) -> nat
    decreases a.len(),
{
    if a.len() == 0 {
        0
    } else {
        delta_total(a.drop_last(), e.drop_last()) + pixel_sum(a.last(), e.last())
    }
}

/// Whether two frames have one size.
pub open spec fn same_size(actual: Frame, expected: Frame) -> bool {
    actual.width == expected.width && actual.height == expected.height
}

fn abs_diff(a: u8, e: u8) -> (d: u8)
    ensures
        d == delta(a, e),
{
    if a > e {
        a - e
    } else {
        e - a
    }
}

fn max_of(a: u8, b: u8) -> (m: u8)
    ensures
        m == larger(a, b),
{
    if a > b {
        a
    } else {
        b
    }
}

fn differ(a: Color, e: Color) -> (r: bool)
    ensures
        r == (a != e),
{
    a.r != e.r || a.g != e.g || a.b != e.b || a.a != e.a
}

/// Compare `actual` to `expected`. Returns `None` if the frames differ in size (a size change is
/// itself a regression and should be handled by the caller).
pub fn compare(actual: &Frame, expected: &Frame) -> (r: Option<DiffReport>)
    requires
        actual.wf(),
        expected.wf(),
    ensures
        r is Some <==> same_size(*actual, *expected),
        r matches Some(report) ==> {
            let (a, e) = (actual.pixels@, expected.pixels@);
            &&& report.changed == changed_count(a, e)
            &&& report.total == actual.width * actual.height
            &&& report.max_channel_delta == worst_delta(a, e)
            &&& report.delta_sum == delta_total(a, e)
            &&& report.identical == (a == e)
        },
{
    if actual.width != expected.width || actual.height != expected.height {
        return None;
    }
    let ghost (pa, pe) = (actual.pixels@, expected.pixels@);
    let n = actual.pixels.len();
    let mut changed: u64 = 0;
    let mut max_delta: u8 = 0;
    let mut sum_delta: u128 = 0;
    let mut i: usize = 0;
    assert(pa.take(0) =~= pe.take(0));
    while i < n
        invariant
            0 <= i <= n,
            n == pa.len(),
            pa == actual.pixels@,
            pe == expected.pixels@,
            pa.len() == pe.len(),
            changed == changed_count(pa.take(i as int), pe.take(i as int)),
            changed <= i,
            max_delta == worst_delta(pa.take(i as int), pe.take(i as int)),
            sum_delta == delta_total(pa.take(i as int), pe.take(i as int)),
            sum_delta <= 1020 * i,
            (changed == 0) <==> pa.take(i as int) == pe.take(i as int),
        decreases n - i,
    {
        proof {
            assert(pa.take(i + 1).drop_last() =~= pa.take(i as int));
            assert(pe.take(i + 1).drop_last() =~= pe.take(i as int));
            assert(pa.take(i + 1) == pa.take(i as int).push(pa[i as int]));
            assert(pe.take(i + 1) == pe.take(i as int).push(pe[i as int]));
            assert(pa.take(i + 1) == pe.take(i + 1) ==> {
                &&& pa.take(i + 1).drop_last() == pe.take(i + 1).drop_last()
                &&& pa.take(i + 1).last() == pe.take(i + 1).last()
            });
        }
        let a = actual.pixels[i];
        let e = expected.pixels[i];
        let dr = abs_diff(a.r, e.r);
        let dg = abs_diff(a.g, e.g);
        let db = abs_diff(a.b, e.b);
        let da = abs_diff(a.a, e.a);
        max_delta = max_of(max_delta, max_of(max_of(dr, dg), max_of(db, da)));
        sum_delta = sum_delta + (dr as u128 + dg as u128 + db as u128 + da as u128);
        if differ(a, e) {
            changed = changed + 1;
        }
        i = i + 1;
    }
    assert(pa.take(n as int) =~= pa);
    assert(pe.take(n as int) =~= pe);
    Some(
        DiffReport {
            changed,
            total: n as u64,
            max_channel_delta: max_delta,
            delta_sum: sum_delta,
            identical: changed == 0,
        },
    )
}

/// What a pixel of the diff image is: solid red where the pixels differ, else the expected pixel,
/// dimmed.
pub open spec fn marked(a: Color, e: Color) -> Color {
    if a != e {
        Color { r: 255, g: 0, b: 0, a: 255 }
    } else {
        Color { r: e.r / 3, g: e.g / 3, b: e.b / 3, a: e.a }
    }
}

/// Build a diff image for people to look at: unchanged pixels are dimmed, changed pixels are painted
/// solid red. `expected` provides the dimmed backdrop.
pub fn diff_image(actual: &Frame, expected: &Frame) -> (r: Option<Frame>)
    requires
        actual.wf(),
        expected.wf(),
    ensures
        r is Some <==> same_size(*actual, *expected),
        r matches Some(f) ==> {
            &&& f.wf()
            &&& f.width == actual.width
            &&& f.height == actual.height
            &&& forall|i: int|
                0 <= i < f.pixels@.len() ==> #[trigger] f.pixels@[i] == marked(
                    actual.pixels@[i],
                    expected.pixels@[i],
                )
        },
{
    if actual.width != expected.width || actual.height != expected.height {
        return None;
    }
    let n = actual.pixels.len();
    let mut pixels: Vec<Color> = Vec::new();
    let mut i: usize = 0;
    while i < n
        invariant
            0 <= i <= n,
            n == actual.pixels@.len(),
            n == expected.pixels@.len(),
            pixels@.len() == i,
            forall|k: int|
                0 <= k < i ==> #[trigger] pixels@[k] == marked(
                    actual.pixels@[k],
                    expected.pixels@[k],
                ),
        decreases n - i,
    {
        let e = expected.pixels[i];
        if differ(actual.pixels[i], e) {
            // Changed: paint solid red.
            pixels.push(Color { r: 255, g: 0, b: 0, a: 255 });
        } else {
            // Dim the unchanged backdrop so the red pops.
            pixels.push(Color { r: e.r / 3, g: e.g / 3, b: e.b / 3, a: e.a });
        }
        i = i + 1;
    }
    Some(Frame { width: actual.width, height: actual.height, pixels })
}

/// A comparison says that frames are identical exactly if no pixel changed, and exactly if no
/// channel differs.
pub proof fn law_identical_means_no_change(a: Seq<Color>, e: Seq<Color>)
    requires
        a.len() == e.len(),
    ensures
        a == e <==> changed_count(a, e) == 0,
        a == e <==> worst_delta(a, e) == 0,
        a == e <==> delta_total(a, e) == 0,
        changed_count(a, e) <= a.len(),
    decreases a.len(),
{
    if a.len() > 0 {
        law_identical_means_no_change(a.drop_last(), e.drop_last());
        assert(a == a.drop_last().push(a.last()));
        assert(e == e.drop_last().push(e.last()));
        let (c, d) = (a.last(), e.last());
        assert(pixel_sum(c, d) == 0 <==> c == d);
        assert(pixel_delta(c, d) == 0 <==> c == d);
    } else {
        assert(a =~= e);
    }
}

/// Comparing is symmetric: it does not matter which frame is the baseline.
pub proof fn law_comparison_is_symmetric(a: Seq<Color>, e: Seq<Color>)
    requires
        a.len() == e.len(),
    ensures
        changed_count(a, e) == changed_count(e, a),
        worst_delta(a, e) == worst_delta(e, a),
        delta_total(a, e) == delta_total(e, a),
    decreases a.len(),
{
    if a.len() > 0 {
        law_comparison_is_symmetric(a.drop_last(), e.drop_last());
    }
}

} // verus!
