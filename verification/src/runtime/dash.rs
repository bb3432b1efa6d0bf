//! DASH adaptive streaming client.
//!
//! This module is the client-side half of DASH: parse an MPD manifest, model its adaptation sets,
//! representations and segments, and run an adaptive bitrate (ABR) selector that picks the best
//! representation for a given bandwidth budget. Durations are exact fractions of a second.
use crate::runtime::layout::{after_sign, is_named, is_number, number, unsigned};
use crate::runtime::string_map::{texts_in, StringMap};
use crate::runtime::xml::{
    elements, find_all, find_element, first_element, outside, without, Found, XmlElement,
};
use crate::strings::{
    after_prefix, all_digits, chars_of, dec, dec_value, decimal, ends, ends_with, eq_ignore_case,
    is_digit, lemma_replaced_gone, lemma_run_end, lower_seq, occurs, parse_unsigned, part, replace_all,
    replaced, run_end, same_ignoring_case, scan_run, starts, string_of, strip, tail, trim, trimmed,
    unsigned_value, Class,
};
use vstd::prelude::*;
use vstd::string::*;

verus! {

/// Nanoseconds in a second.
pub const NANOS: u64 = 1_000_000_000;

/// Errors produced while parsing an MPD manifest.
#[derive(Debug, Clone, PartialEq, Eq)]
pub enum DashError {
    /// A required element/attribute was missing or malformed.
    Malformed(String),
}

/// A length of time: a number of ticks, so many to the second.
#[derive(Debug, Clone, Copy, PartialEq, Eq, Structural)]
pub struct Seconds {
    pub ticks: u64,
    pub per_second: u64,
}

/// A single media segment as addressed by the manifest.
#[derive(Debug, Clone, PartialEq, Eq)]
pub struct Segment {
    /// Absolute (post-template-substitution) URL of the segment.
    pub url: String,
    /// Segment number (from `$Number$`, when templated; else zero-based).
    pub number: u64,
    /// Segment duration (from the template `duration`/`timescale`).
    pub duration_secs: Seconds,
}

/// The mathematical form of a segment.
pub struct SegmentView {
    pub url: Seq<char>,
    pub number: u64,
    pub duration_secs: Seconds,
}

impl DeepView for Segment {
    type V = SegmentView;

    open spec fn deep_view(&self) -> SegmentView {
        SegmentView { url: self.url@, number: self.number, duration_secs: self.duration_secs }
    }
}

/// `SegmentTemplate` parameters used to synthesize segment URLs.
#[derive(Debug, Clone, PartialEq, Eq)]
pub struct SegmentTemplate {
    /// URL template for media segments (`$RepresentationID$`, `$Number$`, `$Bandwidth$`, `$Time$`
    /// substitutions).
    pub media: String,
    /// URL template for the initialization segment.
    pub initialization: String,
    /// Ticks per second for `$Time$` substitution and duration math.
    pub timescale: u64,
    /// First segment number (defaults to 1).
    pub start_number: u64,
    /// Segment duration in `timescale` ticks.
    pub duration: u64,
}

/// The mathematical form of a template.
pub struct TemplateView {
    pub media: Seq<char>,
    pub initialization: Seq<char>,
    pub timescale: u64,
    pub start_number: u64,
    pub duration: u64,
}

impl DeepView for SegmentTemplate {
    type V = TemplateView;

    open spec fn deep_view(&self) -> TemplateView {
        TemplateView {
            media: self.media@,
            initialization: self.initialization@,
            timescale: self.timescale,
            start_number: self.start_number,
            duration: self.duration,
        }
    }
}

/// A playable representation (one bitrate/codec/resolution ladder rung).
#[derive(Debug, Clone, PartialEq, Eq)]
pub struct Representation {
    pub id: String,
    pub bandwidth: u64,
    pub codecs: String,
    pub mime_type: String,
    pub width: u32,
    pub height: u32,
    /// Base URL inherited from ancestor elements (`BaseURL`).
    pub base_url: String,
    pub segment_template: Option<SegmentTemplate>,
    /// Explicit segment list (SegmentList), if the manifest does not template.
    pub segments: Vec<Segment>,
}

/// The mathematical form of a representation.
pub struct RepView {
    pub id: Seq<char>,
    pub bandwidth: u64,
    pub codecs: Seq<char>,
    pub mime_type: Seq<char>,
    pub width: u32,
    pub height: u32,
    pub base_url: Seq<char>,
    pub segment_template: Option<TemplateView>,
    pub segments: Seq<SegmentView>,
}

impl DeepView for Representation {
    type V = RepView;

    open spec fn deep_view(&self) -> RepView {
        RepView {
            id: self.id@,
            bandwidth: self.bandwidth,
            codecs: self.codecs@,
            mime_type: self.mime_type@,
            width: self.width,
            height: self.height,
            base_url: self.base_url@,
            segment_template: self.segment_template.deep_view(),
            segments: self.segments.deep_view(),
        }
    }
}

/// A group of equivalent representations (e.g. the video ladder).
#[derive(Debug, Clone, PartialEq, Eq)]
pub struct AdaptationSet {
    pub content_type: String,
    pub representations: Vec<Representation>,
}

/// The mathematical form of an adaptation set.
pub struct SetView {
    pub content_type: Seq<char>,
    pub representations: Seq<RepView>,
}

impl DeepView for AdaptationSet {
    type V = SetView;

    open spec fn deep_view(&self) -> SetView {
        SetView {
            content_type: self.content_type@,
            representations: self.representations.deep_view(),
        }
    }
}

/// A parsed MPD manifest, in client-friendly form.
#[derive(Debug, Clone, PartialEq, Eq)]
pub struct Mpd {
    /// Media presentation duration.
    pub duration_secs: Seconds,
    /// Suggested client buffer.
    pub min_buffer_secs: Seconds,
    pub adaptation_sets: Vec<AdaptationSet>,
}

/// The mathematical form of a manifest.
pub struct MpdView {
    pub duration_secs: Seconds,
    pub min_buffer_secs: Seconds,
    pub adaptation_sets: Seq<SetView>,
}

impl View for Mpd {
    type V = MpdView;

    open spec fn view(&self) -> MpdView {
        MpdView {
            duration_secs: self.duration_secs,
            min_buffer_secs: self.min_buffer_secs,
            adaptation_sets: self.adaptation_sets.deep_view(),
        }
    }
}

/// A number, or the largest of its type where it is larger.
pub open spec fn capped(n: int) -> u64 {
    if n <= u64::MAX {
        n as u64
    } else {
        u64::MAX
    }
}

/// The nanoseconds of the first decimals of a second.
pub open spec fn fraction_nanos(f: Seq<char>, unit: nat) -> nat
    decreases f.len(),
{
    if f.len() == 0 {
        0
    } else {
        ((f[0] as int - '0' as int) * unit) as nat + fraction_nanos(f.skip(1), unit / 10)
    }
}

/// The nanoseconds of a decimal number of seconds, to the whole nanosecond below; none of a text
/// that is no such number.
pub open spec fn decimal_nanos(s: Seq<char>) -> nat {
    let k = run_end(s, 0, Class::Digit);
    let whole = s.take(k);
    if k == s.len() {
        if k > 0 {
            dec_value(whole) * NANOS as nat
        } else {
            0
        }
    } else if s[k] == '.' && all_digits(s.skip(k + 1)) && s.len() > 1 {
        dec_value(whole) * NANOS as nat + fraction_nanos(s.skip(k + 1), 100_000_000)
    } else {
        0
    }
}

/// A power of ten.
pub open spec fn tens(n: nat) -> nat
    decreases n,
{
    if n == 0 {
        1
    } else {
        10 * tens((n - 1) as nat)
    }
}

/// The whole part of the number whose digits are these and whose point stands after the first `p`.
pub open spec fn pointed(digits: Seq<char>, p: int) -> nat {
    if p <= 0 {
        0
    } else if p <= digits.len() {
        dec_value(digits.take(p))
    } else {
        dec_value(digits) * tens((p - digits.len()) as nat)
    }
}

/// The exponent of ten that stands from a position to the end, where one does.
pub open spec fn exponent_value(s: Seq<char>, i: int) -> int {
    if i >= s.len() {
        0
    } else {
        let e = s.skip(i + 1);
        if e.len() > 0 && e[0] == '-' {
            -(dec_value(unsigned(e)) as int)
        } else {
            dec_value(unsigned(e)) as int
        }
    }
}

/// The nanoseconds of a plain number of seconds, perhaps with a sign, a decimal point or an
/// exponent, to the whole nanosecond below. An infinite number is longer than any; a negative one,
/// and a text that is no number, is no time at all.
pub open spec fn plain_nanos(s: Seq<char>) -> nat {
    let b = unsigned(s);
    let k = run_end(b, 0, Class::Digit);
    let dotted = k < b.len() && b[k] == '.';
    let m = if dotted {
        run_end(b, k + 1, Class::Digit)
    } else {
        k
    };
    if !is_number(s) || s[0] == '-' || same_ignoring_case(b, "nan"@) {
        0
    } else if same_ignoring_case(b, "inf"@) || same_ignoring_case(b, "infinity"@) {
        u64::MAX as nat
    } else {
        let digits = b.take(k) + if dotted {
            b.subrange(k + 1, m)
        } else {
            Seq::empty()
        };
        pointed(digits, k + exponent_value(b, m) + 9)
    }
}

/// The seconds in a unit of an ISO-8601 duration.
pub open spec fn unit_seconds(c: char) -> nat {
    if c == 'H' {
        3600
    } else if c == 'M' {
        60
    } else if c == 'S' {
        1
    } else {
        0
    }
}

/// The nanoseconds of the numbers and units from a position on.
pub open spec fn iso_nanos(s: Seq<char>, i: int) -> nat
    decreases s.len() - i,
    when 0 <= i <= s.len()
    via iso_nanos_decreases
{
    let e = run_end(s, i, Class::Decimal);
    if e >= s.len() {
        0
    } else {
        unit_seconds(s[e]) * decimal_nanos(s.subrange(i, e)) + iso_nanos(s, e + 1)
    }
}

#[via_fn]
proof fn iso_nanos_decreases(s: Seq<char>, i: int) {
    lemma_run_end(s, i, Class::Decimal);
}

/// The nanoseconds of a duration: an ISO-8601 time duration (`PT1M30S`), or a plain number of
/// seconds.
pub open spec fn duration_nanos(text: Seq<char>) -> nat {
    let v = trim(text);
    match after_prefix(v, "PT"@) {
        Some(body) => iso_nanos(body, 0),
        None => plain_nanos(v),
    }
}

/// The duration that an attribute gives; none without it.
pub open spec fn duration_attr(m: Map<Seq<char>, Seq<char>>, k: Seq<char>) -> Seconds {
    Seconds {
        ticks: match attr_of(m, k) {
            Some(t) => capped(duration_nanos(t) as int),
            None => 0,
        },
        per_second: NANOS,
    }
}

/// The value of an attribute, where it is given.
pub open spec fn attr_of(m: Map<Seq<char>, Seq<char>>, k: Seq<char>) -> Option<Seq<char>> {
    if m.dom().contains(k) {
        Some(m[k])
    } else {
        None
    }
}

/// The value of an attribute, or nothing.
pub open spec fn text_attr(m: Map<Seq<char>, Seq<char>>, k: Seq<char>) -> Seq<char> {
    match attr_of(m, k) {
        Some(t) => t,
        None => Seq::empty(),
    }
}

/// The number that an attribute gives, or the default where it gives none.
pub open spec fn number_attr(
    m: Map<Seq<char>, Seq<char>>,
    k: Seq<char>,
    max: nat,
    default: nat,
) -> nat {
    match attr_of(m, k) {
        Some(t) => match unsigned_value(t, max) {
            Some(n) => n,
            None => default,
        },
        None => default,
    }
}

/// The parameters of a template element.
pub open spec fn template_of(m: Map<Seq<char>, Seq<char>>) -> TemplateView {
    TemplateView {
        media: text_attr(m, "media"@),
        initialization: text_attr(m, "initialization"@),
        timescale: number_attr(m, "timescale"@, u64::MAX as nat, 1) as u64,
        start_number: number_attr(m, "startNumber"@, u64::MAX as nat, 1) as u64,
        duration: number_attr(m, "duration"@, u64::MAX as nat, 0) as u64,
    }
}

/// A URL with a slash at its end.
pub open spec fn slashed(s: Seq<char>) -> Seq<char> {
    if ends(s, "/"@) {
        s
    } else {
        s + "/"@
    }
}

/// The content type that a MIME type stands for.
pub open spec fn type_of_mime(m: Seq<char>) -> Seq<char> {
    if occurs(m, "video/"@, 0) {
        "video"@
    } else if occurs(m, "audio/"@, 0) {
        "audio"@
    } else if occurs(m, "text/"@, 0) || occurs(m, "application/"@, 0) {
        "text"@
    } else {
        m
    }
}

/// The base URL that applies in an element: its own, or the inherited one.
pub open spec fn base_in(own: Seq<char>, inherited: Seq<char>) -> Seq<char> {
    match first_element(own, "BaseURL"@) {
        Some(b) => trim(b.inner),
        None => inherited,
    }
}

/// The segment that an entry of a segment list describes.
pub open spec fn listed_segment(base: Seq<char>, e: Found, number: int) -> SegmentView {
    SegmentView {
        url: match attr_of(e.attrs, "media"@) {
            Some(t) => t,
            None => match first_element(e.inner, "BaseURL"@) {
                Some(b) => slashed(base) + trim(b.inner),
                None => Seq::empty(),
            },
        },
        number: number as u64,
        duration_secs: Seconds {
            ticks: number_attr(e.attrs, "d"@, u64::MAX as nat, 0) as u64,
            per_second: 1000,
        },
    }
}

/// The segments of a segment list.
pub open spec fn listed_segments(base: Seq<char>, es: Seq<Found>) -> Seq<SegmentView>
    decreases es.len(),
{
    if es.len() == 0 {
        Seq::empty()
    } else {
        listed_segments(base, es.drop_last()).push(
            listed_segment(base, es.last(), es.len() - 1),
        )
    }
}

/// An element of the representation, or else of its adaptation set.
pub open spec fn own_or_shared(rep: Seq<char>, shared: Seq<char>, tag: Seq<char>) -> Option<Found> {
    match first_element(rep, tag) {
        Some(e) => Some(e),
        None => first_element(shared, tag),
    }
}

/// The representation that an element describes, within its adaptation set.
pub open spec fn rep_of(base: Seq<char>, set: Found, rep: Found) -> RepView {
    let shared = outside(set.inner, "Representation"@);
    let rep_base = base_in(outside(rep.inner, "SegmentList"@), base);
    RepView {
        id: match attr_of(rep.attrs, "id"@) {
            Some(t) => t,
            None => "<no-id>"@,
        },
        bandwidth: number_attr(rep.attrs, "bandwidth"@, u64::MAX as nat, 0) as u64,
        codecs: text_attr(rep.attrs, "codecs"@),
        mime_type: match attr_of(rep.attrs, "mimeType"@) {
            Some(t) => t,
            None => text_attr(set.attrs, "mimeType"@),
        },
        width: number_attr(rep.attrs, "width"@, u32::MAX as nat, 0) as u32,
        height: number_attr(rep.attrs, "height"@, u32::MAX as nat, 0) as u32,
        base_url: rep_base,
        segment_template: match own_or_shared(rep.inner, shared, "SegmentTemplate"@) {
            Some(t) => Some(template_of(t.attrs)),
            None => None,
        },
        segments: match own_or_shared(rep.inner, shared, "SegmentList"@) {
            Some(l) => listed_segments(rep_base, elements(l.inner, "SegmentURL"@)),
            None => Seq::empty(),
        },
    }
}

/// The representations that elements describe.
pub open spec fn reps_of(base: Seq<char>, set: Found, reps: Seq<Found>) -> Seq<RepView>
    decreases reps.len(),
{
    if reps.len() == 0 {
        Seq::empty()
    } else {
        reps_of(base, set, reps.drop_last()).push(rep_of(base, set, reps.last()))
    }
}

/// The adaptation set that an element describes.
pub open spec fn set_of(base: Seq<char>, set: Found) -> SetView {
    SetView {
        content_type: match attr_of(set.attrs, "contentType"@) {
            Some(t) => t,
            None => match attr_of(set.attrs, "mimeType"@) {
                Some(m) => type_of_mime(m),
                None => Seq::empty(),
            },
        },
        representations: reps_of(
            base_in(outside(set.inner, "Representation"@), base),
            set,
            elements(set.inner, "Representation"@),
        ),
    }
}

/// The adaptation sets that elements describe, as far as they hold a representation.
pub open spec fn sets_of(base: Seq<char>, sets: Seq<Found>) -> Seq<SetView>
    decreases sets.len(),
{
    if sets.len() == 0 {
        Seq::empty()
    } else {
        let front = sets_of(base, sets.drop_last());
        let last = set_of(base, sets.last());
        if last.representations.len() > 0 {
            front.push(last)
        } else {
            front
        }
    }
}

/// The manifest that a text describes, where it has an `MPD` element.
pub open spec fn manifest(xml: Seq<char>) -> Option<MpdView> {
    match first_element(xml, "MPD"@) {
        None => None,
        Some(root) => Some(
            MpdView {
                duration_secs: duration_attr(root.attrs, "mediaPresentationDuration"@),
                min_buffer_secs: duration_attr(root.attrs, "minBufferTime"@),
                adaptation_sets: sets_of(
                    base_in(outside(root.inner, "AdaptationSet"@), Seq::empty()),
                    elements(root.inner, "AdaptationSet"@),
                ),
            },
        ),
    }
}

fn attr(m: &StringMap<String>, k: &str) -> (r: Option<String>)
    requires
        m.wf(),
    ensures
        r.deep_view() == attr_of(texts_in(m@), k@),
{
    match m.get(k) {
        Some(t) => Some(t.clone()),
        None => None,
    }
}

fn text_or_empty(m: &StringMap<String>, k: &str) -> (r: String)
    requires
        m.wf(),
    ensures
        r@ == text_attr(texts_in(m@), k@),
{
    match attr(m, k) {
        Some(t) => t,
        None => empty_text(),
    }
}

fn empty_text() -> (r: String)
    ensures
        r@ == Seq::<char>::empty(),
{
    let r = String::from_str("");
    proof {
        reveal_strlit("");
        assert(r@ =~= Seq::<char>::empty());
    }
    r
}

fn number_or(m: &StringMap<String>, k: &str, max: u64, default: u64) -> (n: u64)
    requires
        m.wf(),
        default <= max,
    ensures
        n == number_attr(texts_in(m@), k@, max as nat, default as nat),
        n <= max,
{
    match m.get(k) {
        Some(t) => match parse_unsigned(t, max) {
            Some(n) => n,
            None => default,
        },
        None => default,
    }
}

fn parse_template(m: &StringMap<String>) -> (t: SegmentTemplate)
    requires
        m.wf(),
    ensures
        t.deep_view() == template_of(texts_in(m@)),
{
    SegmentTemplate {
        media: text_or_empty(m, "media"),
        initialization: text_or_empty(m, "initialization"),
        timescale: number_or(m, "timescale", u64::MAX, 1),
        start_number: number_or(m, "startNumber", u64::MAX, 1),
        duration: number_or(m, "duration", u64::MAX, 0),
    }
}

fn ensure_trailing_slash(s: &str) -> (r: String)
    ensures
        r@ == slashed(s@),
{
    if ends_with(&chars_of(s), &chars_of("/")) {
        String::from_str(s)
    } else {
        let mut r = String::from_str(s);
        r.append("/");
        r
    }
}

fn mime_to_type(mime: &str) -> (r: String)
    ensures
        r@ == type_of_mime(mime@),
{
    let m = chars_of(mime);
    if starts(&m, "video/") {
        String::from_str("video")
    } else if starts(&m, "audio/") {
        String::from_str("audio")
    } else if starts(&m, "text/") || starts(&m, "application/") {
        String::from_str("text")
    } else {
        String::from_str(mime)
    }
}

fn capped_sum(a: u64, b: u64) -> (r: u64)
    ensures
        r == capped(a + b),
{
    if a > u64::MAX - b {
        u64::MAX
    } else {
        a + b
    }
}

fn capped_product(a: u64, k: u64) -> (r: u64)
    ensures
        r == capped(a * k),
{
    assert(a * k <= 0xffff_ffff_ffff_ffff * 0xffff_ffff_ffff_ffff) by (nonlinear_arith)
        requires
            0 <= a <= 0xffff_ffff_ffff_ffff,
            0 <= k <= 0xffff_ffff_ffff_ffff,
    ;
    let p: u128 = (a as u128) * (k as u128);
    if p <= u64::MAX as u128 {
        p as u64
    } else {
        u64::MAX
    }
}

/// Capping a factor changes nothing of a capped product.
proof fn lemma_capped_product(n: int, k: int)
    requires
        0 <= n,
        0 <= k,
    ensures
        capped(capped(n) * k) == capped(n * k),
{
    if n > u64::MAX {
        if k == 0 {
            assert(n * k == 0) by (nonlinear_arith)
                requires
                    k == 0,
            ;
            assert(u64::MAX * k == 0) by (nonlinear_arith)
                requires
                    k == 0,
            ;
        } else {
            assert(n * k >= n) by (nonlinear_arith)
                requires
                    n >= 0,
                    k >= 1,
            ;
            assert(u64::MAX * k >= u64::MAX) by (nonlinear_arith)
                requires
                    k >= 1,
            ;
        }
    }
}

/// The value of a run of digits, capped.
fn digits_value(v: &[char], from: usize, to: usize) -> (n: u64)
    requires
        from <= to <= v@.len(),
        all_digits(v@.subrange(from as int, to as int)),
    ensures
        n == capped(dec_value(v@.subrange(from as int, to as int)) as int),
{
    let ghost s = v@.subrange(from as int, to as int);
    let mut n: u64 = 0;
    let mut i: usize = from;
    while i < to
        invariant
            from <= i <= to <= v@.len(),
            s == v@.subrange(from as int, to as int),
            all_digits(s),
            n == capped(dec_value(s.take(i - from)) as int),
        decreases to - i,
    {
        let c = v[i];
        assert(s[i - from] == c);
        assert(is_digit(s[i - from]));
        let d: u64 = ((c as u8) - 48) as u64;
        proof {
            let t = s.take(i - from + 1);
            assert(t.drop_last() =~= s.take(i - from));
            lemma_capped_product(dec_value(s.take(i - from)) as int, 10);
        }
        n = capped_sum(capped_product(n, 10), d);
        i = i + 1;
    }
    assert(s.take(to - from) =~= s);
    n
}

proof fn lemma_fraction(f: Seq<char>, unit: nat)
    requires
        all_digits(f),
    ensures
        fraction_nanos(f, unit) <= 10 * unit,
    decreases f.len(),
{
    if f.len() > 0 {
        assert(is_digit(f[0]));
        assert(all_digits(f.skip(1)));
        lemma_fraction(f.skip(1), unit / 10);
        let d = f[0] as int - '0' as int;
        assert(0 <= d * unit <= 9 * unit) by (nonlinear_arith)
            requires
                0 <= d <= 9,
                0 <= unit,
        ;
    }
}

/// The nanoseconds of the decimals of a second.
fn fraction_value(v: &[char], from: usize) -> (n: u64)
    requires
        from <= v@.len(),
        all_digits(v@.skip(from as int)),
    ensures
        n == fraction_nanos(v@.skip(from as int), 100_000_000),
        n <= 1_000_000_000,
{
    let mut n: u64 = 0;
    let mut unit: u64 = 100_000_000;
    let mut i: usize = from;
    proof {
        lemma_fraction(v@.skip(from as int), 100_000_000);
    }
    while i < v.len()
        invariant
            from <= i <= v@.len(),
            unit <= 100_000_000,
            all_digits(v@.skip(i as int)),
            n + fraction_nanos(v@.skip(i as int), unit as nat) == fraction_nanos(
                v@.skip(from as int),
                100_000_000,
            ),
            fraction_nanos(v@.skip(from as int), 100_000_000) <= 1_000_000_000,
        decreases v@.len() - i,
    {
        let c = v[i];
        let ghost f = v@.skip(i as int);
        assert(f[0] == c);
        assert(is_digit(f[0]));
        let d: u64 = ((c as u8) - 48) as u64;
        proof {
            assert(f.skip(1) =~= v@.skip(i + 1));
            assert(0 <= d * unit <= 900_000_000) by (nonlinear_arith)
                requires
                    0 <= d <= 9,
                    0 <= unit <= 100_000_000,
            ;
            assert(d == f[0] as int - '0' as int);
        }
        n = n + d * unit;
        unit = unit / 10;
        i = i + 1;
    }
    n
}

/// The nanoseconds of a decimal number of seconds, capped.
fn decimal_value(v: &[char]) -> (n: u64)
    ensures
        n == capped(decimal_nanos(v@) as int),
{
    let k = scan_run(v, 0, Class::Digit);
    proof {
        lemma_run_end(v@, 0, Class::Digit);
        assert(v@.subrange(0, k as int) =~= v@.take(k as int));
        lemma_capped_product(dec_value(v@.take(k as int)) as int, NANOS as int);
    }
    if k == v.len() {
        if k > 0 {
            return capped_product(digits_value(v, 0, k), NANOS);
        }
        return 0;
    }
    let e = scan_run(v, k + 1, Class::Digit);
    proof {
        lemma_run_end(v@, k + 1, Class::Digit);
        let f = v@.skip(k + 1);
        if e == v@.len() {
            assert forall|i: int| 0 <= i < f.len() implies is_digit(#[trigger] f[i]) by {
                assert(Class::Digit.holds(v@[i + k + 1]));
            }
        } else {
            assert(!is_digit(f[e - k - 1]));
        }
    }
    if v[k] == '.' && e == v.len() && v.len() > 1 {
        capped_sum(capped_product(digits_value(v, 0, k), NANOS), fraction_value(v, k + 1))
    } else {
        0
    }
}

proof fn lemma_dec_value_below(s: Seq<char>)
    requires
        all_digits(s),
    ensures
        dec_value(s) < tens(s.len()),
    decreases s.len(),
{
    if s.len() > 0 {
        assert(is_digit(s.last()));
        assert(all_digits(s.drop_last()));
        lemma_dec_value_below(s.drop_last());
    }
}

proof fn lemma_tens_grow(a: nat, b: nat)
    requires
        a <= b,
    ensures
        1 <= tens(a) <= tens(b),
    decreases b,
{
    if a < b {
        lemma_tens_grow(a, (b - 1) as nat);
    } else if a > 0 {
        lemma_tens_grow((a - 1) as nat, (a - 1) as nat);
    }
}

/// A number of digits with a point that stands far behind them is zero or past the cap.
proof fn lemma_pointed_far(digits: Seq<char>, p: int)
    requires
        p >= digits.len() + 20,
    ensures
        dec_value(digits) == 0 ==> pointed(digits, p) == 0,
        dec_value(digits) > 0 ==> pointed(digits, p) > u64::MAX,
{
    let d = dec_value(digits);
    let t = tens((p - digits.len()) as nat);
    lemma_tens_grow(20, (p - digits.len()) as nat);
    reveal_with_fuel(tens, 21);
    assert(d == 0 ==> d * t == 0) by (nonlinear_arith);
    assert(d > 0 && t >= 1 ==> d * t >= t) by (nonlinear_arith);
}

/// The whole part of a number by its digits and the place of its point, capped.
fn pointed_value(digits: &[char], p: i128) -> (n: u64)
    requires
        all_digits(digits@),
    ensures
        n == capped(pointed(digits@, p as int) as int),
{
    let len = digits.len();
    if p <= 0 {
        return 0;
    }
    if p <= len as i128 {
        assert(digits@.subrange(0, p as int) =~= digits@.take(p as int));
        return digits_value(digits, 0, p as usize);
    }
    assert(digits@.subrange(0, len as int) =~= digits@);
    let mut n = digits_value(digits, 0, len);
    let far: i128 = p - len as i128;
    if far >= 20 {
        proof {
            lemma_pointed_far(digits@, p as int);
        }
        return if n == 0 {
            0
        } else {
            u64::MAX
        };
    }
    let ghost d = dec_value(digits@);
    let mut i: i128 = 0;
    assert(d * tens(0) == d) by {
        assert(tens(0) == 1);
        assert(d * 1 == d) by (nonlinear_arith);
    }
    while i < far
        invariant
            0 <= i <= far,
            far < 20,
            n == capped((d * tens(i as nat)) as int),
        decreases far - i,
    {
        proof {
            let t = tens(i as nat);
            assert(tens((i + 1) as nat) == 10 * t);
            assert(d * (10 * t) == (d * t) * 10) by (nonlinear_arith);
            assert(d * t >= 0) by (nonlinear_arith);
            lemma_capped_product((d * t) as int, 10);
        }
        n = capped_product(n, 10);
        i = i + 1;
    }
    n
}

/// The nanoseconds of a plain number of seconds, capped.
fn plain_value(v: &[char]) -> (n: u64)
    ensures
        n == capped(plain_nanos(v@) as int),
{
    if !number(v) {
        return 0;
    }
    let b = after_sign(v);
    proof {
        reveal_strlit("nan");
        reveal_strlit("inf");
        reveal_strlit("infinity");
        if v@.len() == 0 {
            lemma_run_end(b@, 0, Class::Digit);
            assert(lower_seq(b@).len() == 0);
            assert(lower_seq("nan"@).len() == 3);
            assert(lower_seq("inf"@).len() == 3);
            assert(lower_seq("infinity"@).len() == 8);
        }
    }
    if v[0] == '-' || is_named(&b, "nan") {
        return 0;
    }
    if is_named(&b, "inf") || is_named(&b, "infinity") {
        return u64::MAX;
    }
    let n = b.len();
    let k = scan_run(&b, 0, Class::Digit);
    proof {
        lemma_run_end(b@, 0, Class::Digit);
    }
    let mut digits = part(&b, 0, k);
    assert(digits@ =~= b@.take(k as int));
    let dotted = k < n && b[k] == '.';
    let m = if dotted {
        let m = scan_run(&b, k + 1, Class::Digit);
        proof {
            lemma_run_end(b@, k + 1, Class::Digit);
        }
        let mut decimals = part(&b, k + 1, m);
        digits.append(&mut decimals);
        m
    } else {
        assert(digits@ =~= b@.take(k as int) + Seq::<char>::empty());
        k
    };
    let ghost all = digits@;
    proof {
        assert forall|i: int| 0 <= i < all.len() implies is_digit(#[trigger] all[i]) by {
            if i < k {
                assert(Class::Digit.holds(b@[i]));
            } else {
                assert(Class::Digit.holds(b@[i + 1]));
            }
        }
    }
    if m >= n {
        return pointed_value(&digits, k as i128 + 9);
    }
    let e = tail(&b, m + 1);
    let x = after_sign(&e);
    let count = x.len();
    assert(x@.subrange(0, count as int) =~= x@);
    proof {
        lemma_run_end(x@, 0, Class::Digit);
        assert forall|i: int| 0 <= i < x@.len() implies is_digit(#[trigger] x@[i]) by {
            assert(Class::Digit.holds(x@[i]));
        }
    }
    let size = digits_value(&x, 0, count);
    let down = e.len() > 0 && e[0] == '-';
    if size == u64::MAX {
        // An exponent of this size takes many digits, and the text has fewer digits than the
        // exponent says.
        proof {
            lemma_dec_value_below(x@);
            if count < 20 {
                lemma_tens_grow(count as nat, 19);
                reveal_with_fuel(tens, 20);
            }
            assert(all.len() <= m);
            assert(m + 1 + count <= n);
        }
        if down {
            return 0;
        }
        let value = digits_value(&digits, 0, digits.len());
        proof {
            assert(all.subrange(0, all.len() as int) =~= all);
            lemma_pointed_far(all, k + dec_value(x@) + 9);
        }
        return if value == 0 {
            0
        } else {
            u64::MAX
        };
    }
    let shift: i128 = if down {
        -(size as i128)
    } else {
        size as i128
    };
    pointed_value(&digits, k as i128 + shift + 9)
}

/// The seconds in a unit of an ISO-8601 duration.
fn unit_value(c: char) -> (n: u64)
    ensures
        n == unit_seconds(c),
{
    if c == 'H' {
        3600
    } else if c == 'M' {
        60
    } else if c == 'S' {
        1
    } else {
        0
    }
}

/// Parse an ISO-8601 duration used by DASH (`PT12.5S`, `PT1M30S`, `PT0H0M10S`), or a plain number
/// of seconds, in nanoseconds. Anything else is no time at all.
fn parse_duration(text: &str) -> (n: u64)
    ensures
        n == capped(duration_nanos(text@) as int),
{
    let v = trimmed(&chars_of(text));
    let body = match strip(&v, "PT") {
        Some(b) => b,
        None => {
            return plain_value(&v);
        },
    };
    let mut total: u64 = 0;
    let ghost mut exact: int = 0;
    let mut i: usize = 0;
    let n = body.len();
    loop
        invariant
            0 <= i <= n,
            n == body@.len(),
            0 <= exact,
            total == capped(exact),
            exact + iso_nanos(body@, i as int) == iso_nanos(body@, 0),
        ensures
            total == capped(iso_nanos(body@, 0) as int),
        decreases n - i,
    {
        let e = scan_run(&body, i, Class::Decimal);
        if e >= n {
            break;
        }
        let number = part(&body, i, e);
        let unit = unit_value(body[e]);
        let ghost value = decimal_nanos(number@) as int;
        proof {
            lemma_capped_product(value, unit as int);
            assert(unit * value == value * unit) by (nonlinear_arith);
            assert(value * unit >= 0) by (nonlinear_arith)
                requires
                    value >= 0,
                    unit >= 0,
            ;
            exact = exact + value * unit;
        }
        total = capped_sum(total, capped_product(decimal_value(&number), unit));
        i = e + 1;
    }
    total
}

fn duration_of(m: &StringMap<String>, k: &str) -> (d: Seconds)
    requires
        m.wf(),
    ensures
        d == duration_attr(texts_in(m@), k@),
{
    let ticks = match m.get(k) {
        Some(t) => parse_duration(t),
        None => 0,
    };
    Seconds { ticks, per_second: NANOS }
}

/// The base URL that applies in an element: its own, or the inherited one.
fn base_for(own: &[char], inherited: &String) -> (r: String)
    ensures
        r@ == base_in(own@, inherited@),
{
    match find_element(own, "BaseURL") {
        Some(b) => string_of(&trimmed(&b.inner)),
        None => inherited.clone(),
    }
}

fn read_segment(base: &str, e: &XmlElement, number: usize) -> (s: Segment)
    requires
        e.attrs.wf(),
    ensures
        s.deep_view() == listed_segment(base@, e.deep_view(), number as int),
{
    let url = match attr(&e.attrs, "media") {
        Some(t) => t,
        None => match find_element(&e.inner, "BaseURL") {
            Some(b) => {
                let mut u = ensure_trailing_slash(base);
                u.append(&string_of(&trimmed(&b.inner)));
                u
            },
            None => empty_text(),
        },
    };
    Segment {
        url,
        number: number as u64,
        duration_secs: Seconds {
            ticks: number_or(&e.attrs, "d", u64::MAX, 0),
            per_second: 1000,
        },
    }
}

fn read_segments(base: &str, list: &[char]) -> (r: Vec<Segment>)
    ensures
        r.deep_view() == listed_segments(base@, elements(list@, "SegmentURL"@)),
{
    let es = find_all(list, "SegmentURL");
    let ghost ev = es.deep_view();
    let mut out: Vec<Segment> = Vec::new();
    let mut i: usize = 0;
    assert(ev.take(0) =~= Seq::<Found>::empty());
    assert(out.deep_view() =~= listed_segments(base@, ev.take(0)));
    while i < es.len()
        invariant
            0 <= i <= es@.len(),
            ev == es.deep_view(),
            forall|j: int| 0 <= j < es@.len() ==> (#[trigger] es@[j]).attrs.wf(),
            out.deep_view() == listed_segments(base@, ev.take(i as int)),
        decreases es@.len() - i,
    {
        let ghost was = out.deep_view();
        assert(ev.take(i + 1).drop_last() =~= ev.take(i as int));
        assert(ev.take(i + 1).last() == es@[i as int].deep_view());
        let s = read_segment(base, &es[i], i);
        let ghost x = s.deep_view();
        out.push(s);
        assert(out.deep_view() =~= was.push(x));
        i = i + 1;
    }
    assert(ev.take(ev.len() as int) =~= ev);
    out
}

fn find_own_or_shared(rep: &[char], shared: &[char], tag: &str) -> (r: Option<XmlElement>)
    ensures
        r.deep_view() == own_or_shared(rep@, shared@, tag@),
        r matches Some(e) ==> e.attrs.wf(),
{
    match find_element(rep, tag) {
        Some(e) => Some(e),
        None => find_element(shared, tag),
    }
}

fn read_representation(base: &String, set: &XmlElement, shared: &[char], rep: &XmlElement) -> (r:
    Representation)
    requires
        set.attrs.wf(),
        rep.attrs.wf(),
        shared@ == outside(set.inner@, "Representation"@),
    ensures
        r.deep_view() == rep_of(base@, set.deep_view(), rep.deep_view()),
{
    let base_url = base_for(&without(&rep.inner, "SegmentList"), base);
    let segment_template = match find_own_or_shared(&rep.inner, shared, "SegmentTemplate") {
        Some(t) => Some(parse_template(&t.attrs)),
        None => None,
    };
    let segments = match find_own_or_shared(&rep.inner, shared, "SegmentList") {
        Some(l) => read_segments(&base_url, &l.inner),
        None => {
            let none: Vec<Segment> = Vec::new();
            assert(none.deep_view() =~= Seq::<SegmentView>::empty());
            none
        },
    };
    Representation {
        id: match attr(&rep.attrs, "id") {
            Some(t) => t,
            None => String::from_str("<no-id>"),
        },
        bandwidth: number_or(&rep.attrs, "bandwidth", u64::MAX, 0),
        codecs: text_or_empty(&rep.attrs, "codecs"),
        mime_type: match attr(&rep.attrs, "mimeType") {
            Some(t) => t,
            None => text_or_empty(&set.attrs, "mimeType"),
        },
        width: number_or(&rep.attrs, "width", u32::MAX as u64, 0) as u32,
        height: number_or(&rep.attrs, "height", u32::MAX as u64, 0) as u32,
        base_url,
        segment_template,
        segments,
    }
}

#[verifier::rlimit(50)]
#[verifier::spinoff_prover]
fn read_set(base: &String, set: &XmlElement) -> (r: AdaptationSet)
    requires
        set.attrs.wf(),
    ensures
        r.deep_view() == set_of(base@, set.deep_view()),
{
    let content_type = match attr(&set.attrs, "contentType") {
        Some(t) => t,
        None => match attr(&set.attrs, "mimeType") {
            Some(m) => mime_to_type(&m),
            None => empty_text(),
        },
    };
    let shared = without(&set.inner, "Representation");
    let set_base = base_for(&shared, base);
    let es = find_all(&set.inner, "Representation");
    let ghost ev = es.deep_view();
    let mut out: Vec<Representation> = Vec::new();
    let mut i: usize = 0;
    assert(ev.take(0) =~= Seq::<Found>::empty());
    assert(out.deep_view() =~= reps_of(set_base@, set.deep_view(), ev.take(0)));
    while i < es.len()
        invariant
            0 <= i <= es@.len(),
            ev == es.deep_view(),
            set.attrs.wf(),
            shared@ == outside(set.inner@, "Representation"@),
            forall|j: int| 0 <= j < es@.len() ==> (#[trigger] es@[j]).attrs.wf(),
            out.deep_view() == reps_of(set_base@, set.deep_view(), ev.take(i as int)),
        decreases es@.len() - i,
    {
        let ghost was = out.deep_view();
        assert(ev.take(i + 1).drop_last() =~= ev.take(i as int));
        assert(ev.take(i + 1).last() == es@[i as int].deep_view());
        let r = read_representation(&set_base, set, &shared, &es[i]);
        let ghost x = r.deep_view();
        out.push(r);
        assert(out.deep_view() =~= was.push(x));
        i = i + 1;
    }
    assert(ev.take(ev.len() as int) =~= ev);
    AdaptationSet { content_type, representations: out }
}

/// Parse an MPD manifest string into a client model.
///
/// Tolerant of the common DASH shapes (SegmentTemplate, SegmentList, BaseURL inheritance,
/// attribute-quoted with `"` or `'`). Unknown elements are skipped.
pub fn parse_mpd(xml: &str) -> (r: Result<Mpd, DashError>)
    ensures
        match (r, manifest(xml@)) {
            (Ok(m), Some(v)) => m@ == v,
            (Err(DashError::Malformed(e)), None) => e@ == "no MPD root element"@,
            _ => false,
        },
{
    let text = chars_of(xml);
    let root = match find_element(&text, "MPD") {
        Some(e) => e,
        None => {
            return Err(DashError::Malformed(String::from_str("no MPD root element")));
        },
    };
    let base = base_for(&without(&root.inner, "AdaptationSet"), &empty_text());
    let es = find_all(&root.inner, "AdaptationSet");
    let ghost ev = es.deep_view();
    let mut out: Vec<AdaptationSet> = Vec::new();
    let mut i: usize = 0;
    assert(ev.take(0) =~= Seq::<Found>::empty());
    assert(out.deep_view() =~= sets_of(base@, ev.take(0)));
    while i < es.len()
        invariant
            0 <= i <= es@.len(),
            ev == es.deep_view(),
            forall|j: int| 0 <= j < es@.len() ==> (#[trigger] es@[j]).attrs.wf(),
            out.deep_view() == sets_of(base@, ev.take(i as int)),
        decreases es@.len() - i,
    {
        let ghost was = out.deep_view();
        assert(ev.take(i + 1).drop_last() =~= ev.take(i as int));
        assert(ev.take(i + 1).last() == es@[i as int].deep_view());
        let s = read_set(&base, &es[i]);
        let ghost x = s.deep_view();
        assert(x.representations.len() == s.representations@.len());
        if s.representations.len() > 0 {
            out.push(s);
            assert(out.deep_view() =~= was.push(x));
        }
        i = i + 1;
    }
    assert(ev.take(ev.len() as int) =~= ev);
    Ok(
        Mpd {
            duration_secs: duration_of(&root.attrs, "mediaPresentationDuration"),
            min_buffer_secs: duration_of(&root.attrs, "minBufferTime"),
            adaptation_sets: out,
        },
    )
}

/// A template with its placeholders filled in; unresolved ones lose their dollar signs.
pub open spec fn substituted(
    template: Seq<char>,
    id: Seq<char>,
    bandwidth: u64,
    number: int,
    time: int,
) -> Seq<char> {
    let a = replaced(template, "$RepresentationID$"@, id);
    let b = replaced(a, "$Number%01d$"@, dec(number as nat));
    let c = replaced(b, "$Number$"@, dec(number as nat));
    let d = replaced(c, "$Bandwidth%01d$"@, dec(bandwidth as nat));
    let e = replaced(d, "$Bandwidth$"@, dec(bandwidth as nat));
    let f = replaced(e, "$Time$"@, dec(time as nat));
    replaced(f, seq!['$'], Seq::empty())
}

fn fill(v: &[char], placeholder: &str, value: &str) -> (r: Vec<char>)
    requires
        placeholder@.len() > 0,
    ensures
        r@ == replaced(v@, placeholder@, value@),
{
    replace_all(v, &chars_of(placeholder), &chars_of(value))
}

fn substitute(template: &str, rep_id: &str, bandwidth: u64, number: u64, time: u64) -> (r: String)
    ensures
        r@ == substituted(template@, rep_id@, bandwidth, number as int, time as int),
{
    proof {
        reveal_strlit("$RepresentationID$");
        reveal_strlit("$Number%01d$");
        reveal_strlit("$Number$");
        reveal_strlit("$Bandwidth%01d$");
        reveal_strlit("$Bandwidth$");
        reveal_strlit("$Time$");
        reveal_strlit("$");
        reveal_strlit("");
        assert("$"@ =~= seq!['$']);
        assert(""@ =~= Seq::<char>::empty());
    }
    let n = decimal(number);
    let b = decimal(bandwidth);
    let t = decimal(time);
    let v = fill(&chars_of(template), "$RepresentationID$", rep_id);
    let v = fill(&v, "$Number%01d$", &n);
    let v = fill(&v, "$Number$", &n);
    let v = fill(&v, "$Bandwidth%01d$", &b);
    let v = fill(&v, "$Bandwidth$", &b);
    let v = fill(&v, "$Time$", &t);
    let v = fill(&v, "$", "");
    string_of(&v)
}

/// The length of a templated segment; none where there is no template, or no time scale.
pub open spec fn segment_seconds(rep: RepView) -> Seconds {
    match rep.segment_template {
        Some(t) if t.timescale > 0 => Seconds { ticks: t.duration, per_second: t.timescale },
        _ => Seconds { ticks: 0, per_second: 1 },
    }
}

/// What URLs of a representation start with.
pub open spec fn url_prefix(base: Seq<char>) -> Seq<char> {
    if base.len() == 0 {
        base
    } else {
        slashed(base)
    }
}

/// The number of the first templated segment.
pub open spec fn first_number(t: TemplateView) -> u64 {
    if t.start_number == 0 {
        1
    } else {
        t.start_number
    }
}

/// The templated segment at a position.
pub open spec fn templated_segment(rep: RepView, t: TemplateView, i: int) -> SegmentView {
    SegmentView {
        url: url_prefix(rep.base_url) + substituted(
            t.media,
            rep.id,
            rep.bandwidth,
            first_number(t) + i,
            i * t.duration,
        ),
        number: (first_number(t) + i) as u64,
        duration_secs: segment_seconds(rep),
    }
}

/// The first templated segments.
pub open spec fn templated(rep: RepView, t: TemplateView, count: int) -> Seq<SegmentView>
    decreases count,
{
    if count <= 0 {
        Seq::empty()
    } else {
        templated(rep, t, count - 1).push(templated_segment(rep, t, count - 1))
    }
}

/// The first templated segments of a representation; none without a template.
pub open spec fn templated_of(rep: RepView, count: int) -> Seq<SegmentView> {
    match rep.segment_template {
        Some(t) => templated(rep, t, count),
        None => Seq::empty(),
    }
}

/// Whether the numbers and times of so many templated segments are machine numbers.
pub open spec fn countable(rep: RepView, count: int) -> bool {
    rep.segment_template matches Some(t) ==> count <= 0 || (first_number(t) + count - 1 <= u64::MAX
        && (count - 1) * t.duration <= u64::MAX)
}

fn copy_segment(s: &Segment) -> (r: Segment)
    ensures
        r.deep_view() == s.deep_view(),
{
    Segment { url: s.url.clone(), number: s.number, duration_secs: s.duration_secs }
}

fn copy_segments(v: &Vec<Segment>) -> (r: Vec<Segment>)
    ensures
        r.deep_view() == v.deep_view(),
{
    let ghost all = v.deep_view();
    let mut out: Vec<Segment> = Vec::new();
    let mut i: usize = 0;
    while i < v.len()
        invariant
            0 <= i <= v@.len(),
            all == v.deep_view(),
            out.deep_view() == all.take(i as int),
        decreases v@.len() - i,
    {
        let ghost was = out.deep_view();
        let s = copy_segment(&v[i]);
        let ghost x = s.deep_view();
        out.push(s);
        assert(out.deep_view() =~= was.push(x));
        assert(all.take(i + 1) =~= all.take(i as int).push(all[i as int]));
        i = i + 1;
    }
    assert(all.take(all.len() as int) =~= all);
    out
}

fn copy_representation(r: &Representation) -> (c: Representation)
    ensures
        c.deep_view() == r.deep_view(),
{
    Representation {
        id: r.id.clone(),
        bandwidth: r.bandwidth,
        codecs: r.codecs.clone(),
        mime_type: r.mime_type.clone(),
        width: r.width,
        height: r.height,
        base_url: r.base_url.clone(),
        segment_template: match &r.segment_template {
            Some(t) => Some(
                SegmentTemplate {
                    media: t.media.clone(),
                    initialization: t.initialization.clone(),
                    timescale: t.timescale,
                    start_number: t.start_number,
                    duration: t.duration,
                },
            ),
            None => None,
        },
        segments: copy_segments(&r.segments),
    }
}

fn prefix_of(base: &String) -> (r: String)
    ensures
        r@ == url_prefix(base@),
{
    if chars_of(base).len() == 0 {
        base.clone()
    } else {
        ensure_trailing_slash(base)
    }
}

impl Representation {
    /// The resolution as an `(width, height)` pair (0,0 if unspecified).
    pub fn resolution(&self) -> (r: (u32, u32))
        ensures
            r == (self.width, self.height),
    {
        (self.width, self.height)
    }

    /// Duration of one templated segment (none if not templated).
    pub fn segment_duration_secs(&self) -> (d: Seconds)
        ensures
            d == segment_seconds(self.deep_view()),
    {
        match &self.segment_template {
            Some(t) => if t.timescale > 0 {
                Seconds { ticks: t.duration, per_second: t.timescale }
            } else {
                Seconds { ticks: 0, per_second: 1 }
            },
            None => Seconds { ticks: 0, per_second: 1 },
        }
    }

    /// URL of the initialization segment, if templated.
    pub fn initialization_url(&self) -> (r: Option<String>)
        ensures
            r.deep_view() == (match self.deep_view().segment_template {
                Some(t) if t.initialization.len() > 0 => Some(
                    url_prefix(self.base_url@) + substituted(
                        t.initialization,
                        self.id@,
                        self.bandwidth,
                        t.start_number as int,
                        0,
                    ),
                ),
                _ => None,
            }),
    {
        match &self.segment_template {
            Some(t) => {
                if chars_of(&t.initialization).len() == 0 {
                    return None;
                }
                let mut url = prefix_of(&self.base_url);
                url.append(
                    &substitute(&t.initialization, &self.id, self.bandwidth, t.start_number, 0),
                );
                Some(url)
            },
            None => None,
        }
    }

    /// Synthesize the segment URLs for the templated portion of this representation, up to `count`
    /// segments starting at `start_number`.
    pub fn templated_segments(&self, count: u64) -> (r: Vec<Segment>)
        requires
            countable(self.deep_view(), count as int),
        ensures
            r.deep_view() == templated_of(self.deep_view(), count as int),
    {
        let mut out: Vec<Segment> = Vec::new();
        assert(out.deep_view() =~= Seq::<SegmentView>::empty());
        let t = match &self.segment_template {
            Some(t) => t,
            None => {
                return out;
            },
        };
        let ghost rep = self.deep_view();
        let ghost tv = t.deep_view();
        let start: u64 = if t.start_number == 0 {
            1
        } else {
            t.start_number
        };
        let mut i: u64 = 0;
        while i < count
            invariant
                0 <= i <= count,
                rep == self.deep_view(),
                rep.segment_template == Some(tv),
                tv == t.deep_view(),
                start == first_number(tv),
                countable(rep, count as int),
                out.deep_view() == templated(rep, tv, i as int),
            decreases count - i,
        {
            proof {
                let d = tv.duration as int;
                assert(0 <= i * d <= (count - 1) * d) by (nonlinear_arith)
                    requires
                        0 <= i <= count - 1,
                        0 <= d,
                ;
            }
            let ghost was = out.deep_view();
            let n: u64 = start + i;
            let time: u64 = i * t.duration;
            let mut url = prefix_of(&self.base_url);
            url.append(&substitute(&t.media, &self.id, self.bandwidth, n, time));
            let s = Segment { url, number: n, duration_secs: self.segment_duration_secs() };
            let ghost x = s.deep_view();
            out.push(s);
            assert(out.deep_view() =~= was.push(x));
            assert(x == templated_segment(rep, tv, i as int));
            i = i + 1;
        }
        out
    }
}

/// The representations of the sets of a content type, in order.
pub open spec fn of_type(sets: Seq<SetView>, content_type: Seq<char>) -> Seq<RepView>
    decreases sets.len(),
{
    if sets.len() == 0 {
        Seq::empty()
    } else if same_ignoring_case(sets.last().content_type, content_type) {
        of_type(sets.drop_last(), content_type) + sets.last().representations
    } else {
        of_type(sets.drop_last(), content_type)
    }
}

/// All representations, in order.
pub open spec fn all_reps(sets: Seq<SetView>) -> Seq<RepView>
    decreases sets.len(),
{
    if sets.len() == 0 {
        Seq::empty()
    } else {
        all_reps(sets.drop_last()) + sets.last().representations
    }
}

/// A quotient rounded up.
pub open spec fn rounded_up(a: int, b: int) -> int {
    a / b + if a % b == 0 {
        0int
    } else {
        1
    }
}

/// How many segments a presentation of a length has: as many templated segments as it takes to
/// cover it, or as many as are listed.
pub open spec fn segments_needed(total: Seconds, rep: RepView) -> int {
    let d = segment_seconds(rep);
    if d.ticks == 0 || total.ticks == 0 || total.per_second == 0 {
        rep.segments.len() as int
    } else {
        rounded_up(total.ticks * d.per_second, total.per_second * d.ticks)
    }
}

fn push_all<'a>(out: &mut Vec<&'a Representation>, reps: &'a Vec<Representation>)
    ensures
        final(out).deep_view() == old(out).deep_view() + reps.deep_view(),
{
    let ghost first = out.deep_view();
    let ghost all = reps.deep_view();
    let mut i: usize = 0;
    assert(first + all.take(0) =~= first);
    while i < reps.len()
        invariant
            0 <= i <= reps@.len(),
            all == reps.deep_view(),
            out.deep_view() == first + all.take(i as int),
        decreases reps@.len() - i,
    {
        let ghost was = out.deep_view();
        let r = &reps[i];
        out.push(r);
        assert(out.deep_view() =~= was.push(r.deep_view()));
        assert(all.take(i + 1) =~= all.take(i as int).push(all[i as int]));
        assert(out.deep_view() =~= first + all.take(i + 1));
        i = i + 1;
    }
    assert(all.take(all.len() as int) =~= all);
}

impl Mpd {
    /// All representations across all adaptation sets.
    pub fn representations(&self) -> (r: Vec<&Representation>)
        ensures
            r.deep_view() == all_reps(self@.adaptation_sets),
    {
        let ghost sets = self.adaptation_sets.deep_view();
        let mut out: Vec<&Representation> = Vec::new();
        let mut i: usize = 0;
        assert(sets.take(0) =~= Seq::<SetView>::empty());
        assert(out.deep_view() =~= all_reps(sets.take(0)));
        while i < self.adaptation_sets.len()
            invariant
                0 <= i <= self.adaptation_sets@.len(),
                sets == self.adaptation_sets.deep_view(),
                out.deep_view() == all_reps(sets.take(i as int)),
            decreases self.adaptation_sets@.len() - i,
        {
            let s = &self.adaptation_sets[i];
            assert(sets.take(i + 1).drop_last() =~= sets.take(i as int));
            assert(sets.take(i + 1).last() == s.deep_view());
            push_all(&mut out, &s.representations);
            i = i + 1;
        }
        assert(sets.take(sets.len() as int) =~= sets);
        out
    }

    /// Representations of a given content type (e.g. `"video"`).
    pub fn by_type(&self, content_type: &str) -> (r: Vec<&Representation>)
        ensures
            r.deep_view() == of_type(self@.adaptation_sets, content_type@),
    {
        let ghost sets = self.adaptation_sets.deep_view();
        let mut out: Vec<&Representation> = Vec::new();
        let mut i: usize = 0;
        assert(sets.take(0) =~= Seq::<SetView>::empty());
        assert(out.deep_view() =~= of_type(sets.take(0), content_type@));
        while i < self.adaptation_sets.len()
            invariant
                0 <= i <= self.adaptation_sets@.len(),
                sets == self.adaptation_sets.deep_view(),
                out.deep_view() == of_type(sets.take(i as int), content_type@),
            decreases self.adaptation_sets@.len() - i,
        {
            let s = &self.adaptation_sets[i];
            assert(sets.take(i + 1).drop_last() =~= sets.take(i as int));
            assert(sets.take(i + 1).last() == s.deep_view());
            if eq_ignore_case(&s.content_type, content_type) {
                push_all(&mut out, &s.representations);
            }
            i = i + 1;
        }
        assert(sets.take(sets.len() as int) =~= sets);
        out
    }

    /// Total segment count for a representation given the presentation duration.
    pub fn segment_count(&self, rep: &Representation) -> (n: u64)
        ensures
            n == capped(segments_needed(self.duration_secs, rep.deep_view())),
    {
        let d = rep.segment_duration_secs();
        let total = self.duration_secs;
        if d.ticks == 0 || total.ticks == 0 || total.per_second == 0 {
            return rep.segments.len() as u64;
        }
        proof {
            let (a, b, c, e) = (
                total.ticks as int,
                d.per_second as int,
                total.per_second as int,
                d.ticks as int,
            );
            assert(0 <= a * b <= 0xffff_ffff_ffff_ffff * 0xffff_ffff_ffff_ffff) by (nonlinear_arith)
                requires
                    0 <= a <= 0xffff_ffff_ffff_ffff,
                    0 <= b <= 0xffff_ffff_ffff_ffff,
            ;
            assert(0 < c * e <= 0xffff_ffff_ffff_ffff * 0xffff_ffff_ffff_ffff) by (nonlinear_arith)
                requires
                    0 < c <= 0xffff_ffff_ffff_ffff,
                    0 < e <= 0xffff_ffff_ffff_ffff,
            ;
        }
        let a: u128 = (total.ticks as u128) * (d.per_second as u128);
        let b: u128 = (total.per_second as u128) * (d.ticks as u128);
        let q: u128 = a / b;
        if q >= u64::MAX as u128 {
            u64::MAX
        } else if a % b == 0 {
            q as u64
        } else {
            (q + 1) as u64
        }
    }
}

/// Adaptive bitrate policy.
#[derive(Debug, Clone, Copy, PartialEq, Eq, Structural)]
pub enum AbrPolicy {
    /// Prefer the highest-representation that fits the budget (quality-first).
    MaximizeQuality,
    /// Safest representation strictly under the budget (stall-free).
    Conservative,
}

/// Whether a bandwidth is within a budget.
pub open spec fn within(bandwidth: u64, budget: u64, policy: AbrPolicy) -> bool {
    match policy {
        AbrPolicy::MaximizeQuality => bandwidth <= budget,
        AbrPolicy::Conservative => bandwidth < budget,
    }
}

/// Whether the representation at a position is the one to play: the highest within the budget, the
/// last of equals; or, where none is, the lowest, the first of equals.
pub open spec fn best_at(reps: Seq<RepView>, budget: u64, policy: AbrPolicy, k: int) -> bool {
    &&& 0 <= k < reps.len()
    &&& if within(reps[k].bandwidth, budget, policy) {
        forall|j: int|
            0 <= j < reps.len() && within((#[trigger] reps[j]).bandwidth, budget, policy)
                ==> reps[j].bandwidth < reps[k].bandwidth || (reps[j].bandwidth == reps[k].bandwidth
                && j <= k)
    } else {
        forall|j: int|
            0 <= j < reps.len() ==> !within((#[trigger] reps[j]).bandwidth, budget, policy) && (
            reps[k].bandwidth < reps[j].bandwidth || (reps[j].bandwidth == reps[k].bandwidth && k
                <= j))
    }
}

fn is_within(bandwidth: u64, budget: u64, policy: AbrPolicy) -> (b: bool)
    ensures
        b == within(bandwidth, budget, policy),
{
    match policy {
        AbrPolicy::MaximizeQuality => bandwidth <= budget,
        AbrPolicy::Conservative => bandwidth < budget,
    }
}

/// Pick the best representation for `content_type` given an available-bandwidth budget (bits/sec).
/// Returns `None` if there are no representations of that type.
pub fn select_representation<'a>(
    mpd: &'a Mpd,
    content_type: &str,
    bandwidth_budget: u64,
    policy: AbrPolicy,
) -> (r: Option<&'a Representation>)
    ensures
        ({
            let reps = of_type(mpd@.adaptation_sets, content_type@);
            match r {
                Some(x) => exists|k: int|
                    #[trigger] best_at(reps, bandwidth_budget, policy, k) && x.deep_view() == reps[k],
                None => reps.len() == 0,
            }
        }),
{
    let list = mpd.by_type(content_type);
    let ghost reps = list.deep_view();
    let n = list.len();
    if n == 0 {
        return None;
    }
    let mut best: usize = 0;
    let mut i: usize = 1;
    while i < n
        invariant
            0 <= best < i <= n,
            n == list@.len(),
            reps == list.deep_view(),
            best_at(reps.take(i as int), bandwidth_budget, policy, best as int),
        decreases n - i,
    {
        let ghost t = reps.take(i as int);
        let ghost u = reps.take(i + 1);
        let a = list[best].bandwidth;
        let b = list[i].bandwidth;
        assert(t[best as int].bandwidth == a);
        assert(u[i as int].bandwidth == b);
        assert(forall|j: int| 0 <= j < i ==> u[j] == t[j]);
        let fits_a = is_within(a, bandwidth_budget, policy);
        let fits_b = is_within(b, bandwidth_budget, policy);
        if fits_b {
            if !fits_a || b >= a {
                best = i;
            }
        } else if !fits_a && b < a {
            best = i;
        }
        assert(best_at(u, bandwidth_budget, policy, best as int));
        i = i + 1;
    }
    assert(reps.take(n as int) =~= reps);
    assert(best_at(reps, bandwidth_budget, policy, best as int));
    assert(list@[best as int].deep_view() == reps[best as int]);
    Some(list[best])
}

/// A DASH client driving ABR + segment enumeration for a single adaptation set.
#[derive(Debug, Clone)]
pub struct DashClient {
    mpd: Mpd,
    content_type: String,
    bandwidth_budget: u64,
    policy: AbrPolicy,
}

/// The mathematical form of a client.
pub struct ClientView {
    pub mpd: MpdView,
    pub content_type: Seq<char>,
    pub bandwidth_budget: u64,
    pub policy: AbrPolicy,
}

impl View for DashClient {
    type V = ClientView;

    closed spec fn view(&self) -> ClientView {
        ClientView {
            mpd: self.mpd@,
            content_type: self.content_type@,
            bandwidth_budget: self.bandwidth_budget,
            policy: self.policy,
        }
    }
}

impl ClientView {
    /// The representations that the client chooses from.
    pub open spec fn ladder(self) -> Seq<RepView> {
        of_type(self.mpd.adaptation_sets, self.content_type)
    }

    /// Whether a representation is the one to play.
    pub open spec fn plays(self, rep: RepView) -> bool {
        exists|k: int|
            #[trigger] best_at(self.ladder(), self.bandwidth_budget, self.policy, k) && rep
                == self.ladder()[k]
    }

    /// The segments of a representation: those that are listed, or else as many templated ones as
    /// it takes.
    pub open spec fn segments(self, rep: RepView) -> Seq<SegmentView> {
        if rep.segments.len() > 0 {
            rep.segments
        } else {
            templated_of(rep, capped(segments_needed(self.mpd.duration_secs, rep)) as int)
        }
    }

    /// Whether the segments of every representation of the ladder are numbered by machine numbers.
    pub open spec fn plannable(self) -> bool {
        forall|k: int|
            0 <= k < self.ladder().len() ==> (#[trigger] self.ladder()[k]).segments.len() > 0
                || countable(
                self.ladder()[k],
                capped(segments_needed(self.mpd.duration_secs, self.ladder()[k])) as int,
            )
    }
}

impl DashClient {
    pub fn new(mpd: Mpd, content_type: &str, bandwidth_budget: u64) -> (c: Self)
        ensures
            c@ == (ClientView {
                mpd: mpd@,
                content_type: content_type@,
                bandwidth_budget,
                policy: AbrPolicy::MaximizeQuality,
            }),
    {
        DashClient {
            mpd,
            content_type: String::from_str(content_type),
            bandwidth_budget,
            policy: AbrPolicy::MaximizeQuality,
        }
    }

    pub fn with_policy(self, policy: AbrPolicy) -> (c: Self)
        ensures
            c@ == (ClientView { policy, ..self@ }),
    {
        DashClient {
            mpd: self.mpd,
            content_type: self.content_type,
            bandwidth_budget: self.bandwidth_budget,
            policy,
        }
    }

    /// Re-evaluate the current network budget (called periodically by the host).
    pub fn set_bandwidth_budget(&mut self, budget: u64)
        ensures
            final(self)@ == (ClientView { bandwidth_budget: budget, ..old(self)@ }),
    {
        self.bandwidth_budget = budget;
    }

    /// The representation selected for the current budget.
    pub fn current(&self) -> (r: Option<Representation>)
        ensures
            match r {
                Some(x) => self@.plays(x.deep_view()),
                None => self@.ladder().len() == 0,
            },
    {
        let ghost ladder = self@.ladder();
        match select_representation(
            &self.mpd,
            &self.content_type,
            self.bandwidth_budget,
            self.policy,
        ) {
            Some(r) => {
                proof {
                    let k = choose|k: int|
                        #[trigger] best_at(ladder, self.bandwidth_budget, self.policy, k)
                            && r.deep_view() == ladder[k];
                    assert(best_at(self@.ladder(), self@.bandwidth_budget, self@.policy, k));
                }
                Some(copy_representation(r))
            },
            None => None,
        }
    }

    /// Whether every segment that a plan can name is numbered by machine numbers.
    pub fn is_plannable(&self) -> (b: bool)
        ensures
            b == self@.plannable(),
    {
        let list = self.mpd.by_type(&self.content_type);
        let ghost ladder = list.deep_view();
        let mut i: usize = 0;
        while i < list.len()
            invariant
                0 <= i <= list@.len(),
                ladder == list.deep_view(),
                ladder == self@.ladder(),
                forall|k: int|
                    0 <= k < i ==> (#[trigger] ladder[k]).segments.len() > 0 || countable(
                        ladder[k],
                        capped(segments_needed(self@.mpd.duration_secs, ladder[k])) as int,
                    ),
            decreases list@.len() - i,
        {
            let r = list[i];
            assert(ladder[i as int] == r.deep_view());
            let count = self.mpd.segment_count(r);
            let fits = r.segments.len() > 0 || is_countable(r, count);
            if !fits {
                assert(!(ladder[i as int].segments.len() > 0 || countable(
                    ladder[i as int],
                    capped(segments_needed(self@.mpd.duration_secs, ladder[i as int])) as int,
                )));
                return false;
            }
            i = i + 1;
        }
        true
    }

    /// All segment URLs for the currently-selected representation.
    pub fn segment_plan(&self) -> (r: Vec<Segment>)
        requires
            self@.plannable(),
        ensures
            if self@.ladder().len() == 0 {
                r@.len() == 0
            } else {
                exists|rep: RepView|
                    #[trigger] self@.plays(rep) && r.deep_view() == self@.segments(rep)
            },
    {
        let ghost ladder = self@.ladder();
        let rep = match select_representation(
            &self.mpd,
            &self.content_type,
            self.bandwidth_budget,
            self.policy,
        ) {
            Some(r) => r,
            None => {
                return Vec::new();
            },
        };
        let ghost rv = rep.deep_view();
        proof {
            let k = choose|k: int|
                #[trigger] best_at(ladder, self.bandwidth_budget, self.policy, k) && rv == ladder[k];
            assert(best_at(self@.ladder(), self@.bandwidth_budget, self@.policy, k));
        }
        assert(self@.plays(rv));
        if rep.segments.len() > 0 {
            let out = copy_segments(&rep.segments);
            assert(out.deep_view() == self@.segments(rv));
            return out;
        }
        let count = self.mpd.segment_count(rep);
        let out = rep.templated_segments(count);
        assert(out.deep_view() == self@.segments(rv));
        out
    }
}

/// Whether the numbers and times of so many templated segments are machine numbers.
fn is_countable(r: &Representation, count: u64) -> (b: bool)
    ensures
        b == countable(r.deep_view(), count as int),
{
    match &r.segment_template {
        Some(t) => {
            if count == 0 {
                return true;
            }
            let start: u64 = if t.start_number == 0 {
                1
            } else {
                t.start_number
            };
            let (a, d) = (count - 1, t.duration);
            assert(0 <= a * d <= 0xffff_ffff_ffff_ffff * 0xffff_ffff_ffff_ffff) by (nonlinear_arith)
                requires
                    0 <= a <= 0xffff_ffff_ffff_ffff,
                    0 <= d <= 0xffff_ffff_ffff_ffff,
            ;
            count - 1 <= u64::MAX - start && ((count - 1) as u128) * (t.duration as u128)
                <= u64::MAX as u128
        },
        None => true,
    }
}

/// One representation is the one to play, never two.
pub proof fn law_choice_is_unique(reps: Seq<RepView>, budget: u64, policy: AbrPolicy, j: int, k: int)
    requires
        best_at(reps, budget, policy, j),
        best_at(reps, budget, policy, k),
    ensures
        j == k,
{
    assert(reps[j].bandwidth == reps[j].bandwidth);
    assert(reps[k].bandwidth == reps[k].bandwidth);
}

/// The choice stays within the budget wherever anything does, nothing within the budget is better,
/// and otherwise it is the lowest of the ladder.
pub proof fn law_choice_is_best(reps: Seq<RepView>, budget: u64, policy: AbrPolicy, k: int, j: int)
    requires
        best_at(reps, budget, policy, k),
        0 <= j < reps.len(),
    ensures
        within(reps[j].bandwidth, budget, policy) ==> within(reps[k].bandwidth, budget, policy)
            && reps[j].bandwidth <= reps[k].bandwidth,
        !within(reps[k].bandwidth, budget, policy) ==> reps[k].bandwidth <= reps[j].bandwidth,
{
    assert(reps[j].bandwidth == reps[j].bandwidth);
}

/// A larger budget never gives a lower quality.
pub proof fn law_choice_grows_with_budget(
    reps: Seq<RepView>,
    less: u64,
    more: u64,
    policy: AbrPolicy,
    j: int,
    k: int,
)
    requires
        less <= more,
        best_at(reps, less, policy, j),
        best_at(reps, more, policy, k),
    ensures
        reps[j].bandwidth <= reps[k].bandwidth,
{
    law_choice_is_best(reps, more, policy, k, j);
    law_choice_is_best(reps, less, policy, j, k);
}

/// The templated segments cover the presentation, and one fewer would not.
pub proof fn law_segments_cover_presentation(total: Seconds, rep: RepView)
    requires
        segment_seconds(rep).ticks > 0,
        total.ticks > 0,
        total.per_second > 0,
    ensures
        ({
            let d = segment_seconds(rep);
            let n = segments_needed(total, rep);
            &&& n >= 1
            &&& total.ticks * d.per_second <= n * (total.per_second * d.ticks)
            &&& (n - 1) * (total.per_second * d.ticks) < total.ticks * d.per_second
        }),
{
    let d = segment_seconds(rep);
    let a = total.ticks * d.per_second;
    let b = total.per_second * d.ticks;
    assert(a > 0) by (nonlinear_arith)
        requires
            a == total.ticks * d.per_second,
            total.ticks > 0,
            d.per_second > 0,
    ;
    assert(b > 0) by (nonlinear_arith)
        requires
            b == total.per_second * d.ticks,
            total.per_second > 0,
            d.ticks > 0,
    ;
    let n = rounded_up(a, b);
    assert(n >= 1 && a <= n * b && (n - 1) * b < a) by (nonlinear_arith)
        requires
            a > 0,
            b > 0,
            n == a / b + if a % b == 0 {
                0int
            } else {
                1
            },
    ;
}

/// The templated segments are numbered one after the other, from the first number on.
pub proof fn law_segments_are_consecutive(rep: RepView, t: TemplateView, count: int, i: int)
    requires
        rep.segment_template == Some(t),
        countable(rep, count),
        0 <= i < count,
    ensures
        templated(rep, t, count).len() == count,
        templated(rep, t, count)[i].number == first_number(t) + i,
        templated(rep, t, count)[i] == templated_segment(rep, t, i),
    decreases count,
{
    lemma_templated_len(rep, t, count);
    lemma_templated_len(rep, t, count - 1);
    if i < count - 1 {
        assert((count - 2) * t.duration <= (count - 1) * t.duration) by (nonlinear_arith);
        law_segments_are_consecutive(rep, t, count - 1, i);
    }
}

proof fn lemma_templated_len(rep: RepView, t: TemplateView, count: int)
    requires
        count >= 0,
    ensures
        templated(rep, t, count).len() == count,
    decreases count,
{
    if count > 0 {
        lemma_templated_len(rep, t, count - 1);
    }
}

/// No placeholder is left in a substituted URL.
pub proof fn law_no_placeholder_is_left(
    template: Seq<char>,
    id: Seq<char>,
    bandwidth: u64,
    number: int,
    time: int,
)
    ensures
        !substituted(template, id, bandwidth, number, time).contains('$'),
{
    let a = replaced(template, "$RepresentationID$"@, id);
    let b = replaced(a, "$Number%01d$"@, dec(number as nat));
    let c = replaced(b, "$Number$"@, dec(number as nat));
    let d = replaced(c, "$Bandwidth%01d$"@, dec(bandwidth as nat));
    let e = replaced(d, "$Bandwidth$"@, dec(bandwidth as nat));
    lemma_replaced_gone(replaced(e, "$Time$"@, dec(time as nat)), '$');
}

} // verus!
