//! Media decode backends: hardware (VA-API / Vulkan video) and a software fallback.
//!
//! The DASH client produces segment URLs and an ABR ladder; the decode half turns a fetched
//! segment's bytes into frames. A [`DecoderBackend`] is what the pipeline drives; which one is
//! picked depends on what the platform offers and on the representation.
use crate::runtime::dash::{capped, segment_seconds, RepView, Representation, Seconds};
use vstd::prelude::*;
use vstd::string::*;

verus! {

/// Whether the hardware decode paths are built in.
pub const HARDWARE_DECODE: bool = false;

/// Outcome of decoding one segment (placeholder stats; real backends would report actual frame
/// counts / decode time).
#[derive(Debug, Clone, PartialEq, Eq)]
pub struct DecodeOutcome {
    pub frames: u64,
    pub bytes: usize,
}

/// The decode backends the runtime can select between.
#[derive(Debug, Clone, Copy, PartialEq, Eq, Structural)]
pub enum BackendKind {
    Software,
    /// VA-API (Linux/Intel/AMD).
    Vaapi,
    /// Vulkan Video (cross-platform GPU).
    Vulkan,
}

impl BackendKind {
    /// The name of a backend.
    pub open spec fn label(self) -> Seq<char> {
        match self {
            BackendKind::Software => "software"@,
            BackendKind::Vaapi => "vaapi"@,
            BackendKind::Vulkan => "vulkan"@,
        }
    }

    pub fn name(self) -> (s: &'static str)
        ensures
            s@ == self.label(),
    {
        match self {
            BackendKind::Software => "software",
            BackendKind::Vaapi => "vaapi",
            BackendKind::Vulkan => "vulkan",
        }
    }

    pub fn is_hardware(self) -> (b: bool)
        ensures
            b == (self != BackendKind::Software),
    {
        match self {
            BackendKind::Software => false,
            _ => true,
        }
    }
}

/// Thirty frames a second, to the nearest whole frame; one frame where the length is unknown.
pub open spec fn frames_in(d: Seconds) -> int {
    if d.ticks == 0 || d.per_second == 0 {
        1
    } else {
        (60 * d.ticks + d.per_second) / (2 * d.per_second as int)
    }
}

/// How well a backend suits a representation; a hardware backend that is not built in suits none.
pub open spec fn suitability(kind: BackendKind, rep: RepView, built_in: bool) -> Option<u32> {
    match kind {
        BackendKind::Software => Some(1),
        _ => if built_in {
            Some((100 + rep.width / 10 + rep.height / 10) as u32)
        } else {
            None
        },
    }
}

/// The estimated number of frames in a segment.
fn estimate_frames(rep: &Representation) -> (n: u64)
    ensures
        n == capped(frames_in(segment_seconds(rep.deep_view()))),
{
    let d = rep.segment_duration_secs();
    if d.ticks == 0 || d.per_second == 0 {
        1
    } else {
        let n: u128 = (60 * (d.ticks as u128) + (d.per_second as u128)) / (2 * (
        d.per_second as u128));
        if n <= u64::MAX as u128 {
            n as u64
        } else {
            u64::MAX
        }
    }
}

fn score_of(kind: BackendKind, rep: &Representation, built_in: bool) -> (s: Option<u32>)
    ensures
        s == suitability(kind, rep.deep_view(), built_in),
{
    match kind {
        BackendKind::Software => Some(1),
        _ => if built_in {
            let (w, h) = rep.resolution();
            Some(100 + w / 10 + h / 10)
        } else {
            None
        },
    }
}

/// A decoder backend the media pipeline can drive.
pub trait DecoderBackend {
    /// Which backend this is.
    spec fn kind_of(&self) -> BackendKind;

    /// Human-readable backend name (e.g. `"software"`, `"vaapi"`, `"vulkan"`).
    fn name(&self) -> (s: &'static str)
        ensures
            s@ == self.kind_of().label(),
    ;

    /// Whether this backend uses GPU-accelerated (hardware) decode.
    fn is_hardware(&self) -> (b: bool)
        ensures
            b == (self.kind_of() != BackendKind::Software),
    ;

    /// Suitability score for `rep` (higher = better). A backend that cannot decode `rep`'s codec
    /// returns `None`.
    fn score(&self, rep: &Representation) -> (s: Option<u32>)
        ensures
            s == suitability(self.kind_of(), rep.deep_view(), HARDWARE_DECODE),
    ;

    /// Begin decoding a segment of `len` bytes (placeholder for the real decode loop). Returns a
    /// frame count estimate for benchmarking.
    fn decode_segment(&mut self, rep: &Representation, len: usize) -> (o: DecodeOutcome)
        ensures
            final(self).kind_of() == old(self).kind_of(),
            o == (DecodeOutcome {
                frames: capped(frames_in(segment_seconds(rep.deep_view()))),
                bytes: len,
            }),
    ;
}

/// The default pure-Rust/CPU decoder. Always available; no GPU required.
pub struct Software;

impl DecoderBackend for Software {
    open spec fn kind_of(&self) -> BackendKind {
        BackendKind::Software
    }

    fn name(&self) -> &'static str {
        "software"
    }

    fn is_hardware(&self) -> bool {
        false
    }

    fn score(&self, rep: &Representation) -> Option<u32> {
        // Software can decode anything, but is the lowest-priority choice.
        Some(1)
    }

    fn decode_segment(&mut self, rep: &Representation, len: usize) -> DecodeOutcome {
        DecodeOutcome { frames: estimate_frames(rep), bytes: len }
    }
}

/// Hardware decode backend (VA-API / Vulkan Video). Where the hardware paths are not built in, it
/// records the intended path without touching GPU drivers.
pub struct HardwareBackend {
    kind: BackendKind,
}

impl HardwareBackend {
    /// It is a hardware backend.
    #[verifier::type_invariant]
    closed spec fn wf(self) -> bool {
        self.kind != BackendKind::Software
    }

    pub fn vaapi() -> (b: Self)
        ensures
            b.kind_of() == BackendKind::Vaapi,
    {
        HardwareBackend { kind: BackendKind::Vaapi }
    }

    pub fn vulkan() -> (b: Self)
        ensures
            b.kind_of() == BackendKind::Vulkan,
    {
        HardwareBackend { kind: BackendKind::Vulkan }
    }
}

impl DecoderBackend for HardwareBackend {
    closed spec fn kind_of(&self) -> BackendKind {
        self.kind
    }

    fn name(&self) -> &'static str {
        self.kind.name()
    }

    fn is_hardware(&self) -> bool {
        proof {
            use_type_invariant(self);
        }
        true
    }

    fn score(&self, rep: &Representation) -> Option<u32> {
        score_of(self.kind, rep, HARDWARE_DECODE)
    }

    fn decode_segment(&mut self, rep: &Representation, len: usize) -> DecodeOutcome {
        DecodeOutcome { frames: estimate_frames(rep), bytes: len }
    }
}

/// A selected backend.
pub enum Backend {
    Software(Software),
    Hardware(HardwareBackend),
}

impl DecoderBackend for Backend {
    open spec fn kind_of(&self) -> BackendKind {
        match *self {
            Backend::Software(b) => b.kind_of(),
            Backend::Hardware(b) => b.kind_of(),
        }
    }

    fn name(&self) -> &'static str {
        match self {
            Backend::Software(b) => b.name(),
            Backend::Hardware(b) => b.name(),
        }
    }

    fn is_hardware(&self) -> bool {
        match self {
            Backend::Software(b) => b.is_hardware(),
            Backend::Hardware(b) => b.is_hardware(),
        }
    }

    fn score(&self, rep: &Representation) -> Option<u32> {
        match self {
            Backend::Software(b) => b.score(rep),
            Backend::Hardware(b) => b.score(rep),
        }
    }

    fn decode_segment(&mut self, rep: &Representation, len: usize) -> DecodeOutcome {
        match self {
            Backend::Software(b) => b.decode_segment(rep, len),
            Backend::Hardware(b) => b.decode_segment(rep, len),
        }
    }
}

/// The backends that are usable: software always, each hardware path where it is built in and the
/// platform offers it.
pub open spec fn usable(built_in: bool, vaapi: bool, vulkan: bool) -> Seq<BackendKind> {
    let a = seq![BackendKind::Software];
    let b = if built_in && vaapi {
        a.push(BackendKind::Vaapi)
    } else {
        a
    };
    if built_in && vulkan {
        b.push(BackendKind::Vulkan)
    } else {
        b
    }
}

/// The backends that are usable, given what the platform offers.
pub fn usable_backends(built_in: bool, vaapi: bool, vulkan: bool) -> (r: Vec<BackendKind>)
    ensures
        r@ == usable(built_in, vaapi, vulkan),
{
    let mut r: Vec<BackendKind> = Vec::new();
    r.push(BackendKind::Software);
    assert(r@ =~= seq![BackendKind::Software]);
    if built_in && vaapi {
        r.push(BackendKind::Vaapi);
    }
    if built_in && vulkan {
        r.push(BackendKind::Vulkan);
    }
    r
}

/// True if a VA-API driver is resolved on this host. This build has no hardware paths and reports no
/// hardware decoders.
pub fn vaapi_available() -> (b: bool)
    ensures
        !b,
{
    HARDWARE_DECODE
}

/// True if a Vulkan instance exposes the video-decode extension. This build has no hardware paths and
/// reports no hardware decoders.
pub fn vulkan_video_available() -> (b: bool)
    ensures
        !b,
{
    HARDWARE_DECODE
}

/// Probe which decode backends are actually usable in this build/target.
///
/// Where the hardware paths are not built in, only [`BackendKind::Software`] is reported.
pub fn probe_backends() -> (r: Vec<BackendKind>)
    ensures
        r@ == usable(HARDWARE_DECODE, false, false),
{
    usable_backends(HARDWARE_DECODE, vaapi_available(), vulkan_video_available())
}

/// Whether one candidate is preferred to another: hardware first, then the higher score.
pub open spec fn preferred(a: BackendKind, x: u32, b: BackendKind, y: u32) -> bool {
    let ha = a != BackendKind::Software;
    let hb = b != BackendKind::Software;
    (ha && !hb) || (ha == hb && x > y)
}

/// Whether the candidate at a position is the one to pick: it suits, nothing that suits is
/// preferred to it, and among equals it comes first.
pub open spec fn picked_at(
    kinds: Seq<BackendKind>,
    rep: RepView,
    built_in: bool,
    k: int,
) -> bool {
    &&& 0 <= k < kinds.len()
    &&& suitability(kinds[k], rep, built_in) is Some
    &&& forall|j: int|
        0 <= j < kinds.len() && suitability(#[trigger] kinds[j], rep, built_in) is Some ==> {
            let x = suitability(kinds[k], rep, built_in)->0;
            let y = suitability(kinds[j], rep, built_in)->0;
            !preferred(kinds[j], y, kinds[k], x) && (j < k ==> preferred(kinds[k], x, kinds[j], y))
        }
}

fn is_preferred(a: BackendKind, x: u32, b: BackendKind, y: u32) -> (r: bool)
    ensures
        r == preferred(a, x, b, y),
{
    let ha = a.is_hardware();
    let hb = b.is_hardware();
    (ha && !hb) || (ha == hb && x > y)
}

/// Pick the best of the usable backends for `rep` (hardware wins, ties broken by capability score,
/// then by order); the software backend where none suits.
pub fn pick_backend(rep: &Representation, kinds: &Vec<BackendKind>, built_in: bool) -> (kind:
    BackendKind)
    ensures
        (exists|k: int| #[trigger] picked_at(kinds@, rep.deep_view(), built_in, k) && kind
            == kinds@[k]) || (kind == BackendKind::Software && forall|j: int|
            0 <= j < kinds@.len() ==> suitability(
                #[trigger] kinds@[j],
                rep.deep_view(),
                built_in,
            ) is None),
{
    let ghost rv = rep.deep_view();
    let mut best: Option<(usize, u32)> = None;
    let mut i: usize = 0;
    assert(kinds@.take(0) =~= Seq::<BackendKind>::empty());
    while i < kinds.len()
        invariant
            0 <= i <= kinds@.len(),
            rv == rep.deep_view(),
            match best {
                Some((k, x)) => picked_at(kinds@.take(i as int), rv, built_in, k as int)
                    && suitability(kinds@[k as int], rv, built_in) == Some(x),
                None => forall|j: int|
                    0 <= j < i ==> suitability(#[trigger] kinds@[j], rv, built_in) is None,
            },
        decreases kinds@.len() - i,
    {
        let ghost t = kinds@.take(i as int);
        let ghost u = kinds@.take(i + 1);
        assert(forall|j: int| 0 <= j < i ==> u[j] == t[j]);
        assert(forall|j: int| 0 <= j < i ==> t[j] == kinds@[j]);
        let kind = kinds[i];
        assert(u[i as int] == kind);
        if let Some(y) = score_of(kind, rep, built_in) {
            match best {
                Some((k, x)) => {
                    assert(t[k as int] == kinds@[k as int]);
                    if is_preferred(kind, y, kinds[k], x) {
                        best = Some((i, y));
                        assert(picked_at(u, rv, built_in, i as int));
                    } else {
                        assert(picked_at(u, rv, built_in, k as int));
                    }
                },
                None => {
                    best = Some((i, y));
                    assert(picked_at(u, rv, built_in, i as int));
                },
            }
        } else {
            if let Some((k, x)) = best {
                assert(picked_at(u, rv, built_in, k as int));
            }
        }
        i = i + 1;
    }
    assert(kinds@.take(kinds@.len() as int) =~= kinds@);
    match best {
        Some((k, _)) => {
            assert(picked_at(kinds@, rv, built_in, k as int));
            kinds[k]
        },
        None => BackendKind::Software,
    }
}

/// The backend of a kind.
pub fn backend_of(kind: BackendKind) -> (b: Backend)
    ensures
        b.kind_of() == kind,
{
    match kind {
        BackendKind::Software => Backend::Software(Software),
        BackendKind::Vaapi => Backend::Hardware(HardwareBackend::vaapi()),
        BackendKind::Vulkan => Backend::Hardware(HardwareBackend::vulkan()),
    }
}

/// Select the best backend for `rep` from the available set (hardware wins, ties broken by
/// capability score). Falls back to [`Software`] when nothing with higher priority is usable.
pub fn select_backend(rep: &Representation) -> (b: Backend)
    ensures
        exists|k: int|
            #[trigger] picked_at(
                usable(HARDWARE_DECODE, false, false),
                rep.deep_view(),
                HARDWARE_DECODE,
                k,
            ) && b.kind_of() == usable(HARDWARE_DECODE, false, false)[k],
{
    let kinds = probe_backends();
    assert(suitability(kinds@[0], rep.deep_view(), HARDWARE_DECODE) is Some);
    backend_of(pick_backend(rep, &kinds, HARDWARE_DECODE))
}

/// Hardware wins: where a hardware backend is usable and suits, software is not picked.
pub proof fn law_hardware_wins(
    kinds: Seq<BackendKind>,
    rep: RepView,
    built_in: bool,
    k: int,
    j: int,
)
    requires
        picked_at(kinds, rep, built_in, k),
        0 <= j < kinds.len(),
        kinds[j] != BackendKind::Software,
        suitability(kinds[j], rep, built_in) is Some,
    ensures
        kinds[k] != BackendKind::Software,
{
    assert(suitability(kinds[j], rep, built_in) is Some);
}

/// Software is always usable, and a pick is never ambiguous.
pub proof fn law_software_is_always_usable(
    built_in: bool,
    vaapi: bool,
    vulkan: bool,
    kinds: Seq<BackendKind>,
    rep: RepView,
    j: int,
    k: int,
)
    ensures
        usable(built_in, vaapi, vulkan)[0] == BackendKind::Software,
        suitability(BackendKind::Software, rep, built_in) == Some(1u32),
        picked_at(kinds, rep, built_in, j) && picked_at(kinds, rep, built_in, k) ==> j == k,
{
    if picked_at(kinds, rep, built_in, j) && picked_at(kinds, rep, built_in, k) {
        assert(suitability(kinds[j], rep, built_in) is Some);
        assert(suitability(kinds[k], rep, built_in) is Some);
    }
}

} // verus!
