use helix::runtime::dash::{parse_mpd, select_representation, AbrPolicy, DashClient};
use helix::runtime::media_decode::{
    pick_backend, probe_backends, select_backend, usable_backends, vaapi_available,
    vulkan_video_available, BackendKind, DecoderBackend, HardwareBackend, Software,
};

const MPD: &str = r#"<MPD mediaPresentationDuration="PT4S">
  <AdaptationSet contentType="video">
    <SegmentTemplate media="v/$Number$.m4s" timescale="1000" duration="2000"/>
    <Representation id="v2" bandwidth="1200000" codecs="avc1.4d4015" width="1280" height="720"/>
  </AdaptationSet>
</MPD>"#;

#[test]
fn software_backend_always_available_and_scores() {
    let mpd = parse_mpd(MPD).unwrap();
    let rep = select_representation(&mpd, "video", 2_000_000, AbrPolicy::MaximizeQuality).unwrap();
    let mut sw = Software;
    assert!(!sw.is_hardware());
    assert_eq!(sw.score(&rep), Some(1));
    let out = sw.decode_segment(&rep, 4096);
    assert_eq!(out.bytes, 4096);
    assert!(out.frames >= 1);
}

#[test]
fn select_backend_returns_software_without_hw_feature() {
    let mpd = parse_mpd(MPD).unwrap();
    let rep = select_representation(&mpd, "video", 2_000_000, AbrPolicy::MaximizeQuality).unwrap();
    let backend = select_backend(&rep);
    assert_eq!(backend.name(), "software");
    assert!(!backend.is_hardware());
    // Hardware backend scores None without the feature, so it is not picked.
    assert_eq!(HardwareBackend::vaapi().score(&rep), None);
}

#[test]
fn probe_backends_includes_software() {
    assert!(probe_backends().contains(&BackendKind::Software));
}

const MPD_720P: &str = r#"<MPD mediaPresentationDuration="PT20S">
  <AdaptationSet contentType="video" mimeType="video/mp4">
    <SegmentTemplate media="$RepresentationID$/$Number$.m4s" initialization="$RepresentationID$/init.mp4" timescale="1000" duration="2000" startNumber="1"/>
    <Representation id="v2" bandwidth="1200000" codecs="avc1.4d4015" width="1280" height="720"/>
  </AdaptationSet>
</MPD>"#;

/// Bounded number of decoded frames kept in flight on the CPU side. With
/// hardware decode the bulk of the frame store is on the GPU; this models only
/// the minimal CPU decode queue the design target assumes.
const IN_FLIGHT_FRAMES: usize = 8;

#[test]
fn video_player_720p_stays_within_200mb_target() {
    let mpd = parse_mpd(MPD_720P).expect("parse mpd");

    let client = DashClient::new(mpd.clone(), "video", 2_000_000)
        .with_policy(AbrPolicy::MaximizeQuality);
    let rep = client.current().expect("720p representation");
    assert_eq!((rep.width, rep.height), (1280, 720));

    assert!(client.is_plannable());
    let plan = client.segment_plan();
    let bytes_per_frame = (rep.width as usize) * (rep.height as usize) * 4;

    // Model a steady-state decode pass: each segment is decoded and only a
    // bounded number of frames are retained in the CPU queue at once.
    let mut decoder = Software;
    let mut peak_bytes: usize = 0;
    for _seg in &plan {
        let out = decoder.decode_segment(&rep, 1024 * 1024);
        let retained = (out.frames as usize).min(IN_FLIGHT_FRAMES) * bytes_per_frame;
        peak_bytes = peak_bytes.max(retained);
    }

    // Parsed-manifest state is small and dominated by the frame buffer.
    let total_estimate = peak_bytes;

    assert!(
        total_estimate < 200 * 1024 * 1024,
        "estimated {total_estimate} bytes exceeds the 200 MB target"
    );
}

#[test]
fn hardware_wins_where_it_is_built_in() {
    let mpd = parse_mpd(MPD).unwrap();
    let rep = select_representation(&mpd, "video", 2_000_000, AbrPolicy::MaximizeQuality).unwrap();
    let all = usable_backends(true, true, true);
    assert!(pick_backend(rep, &all, true).is_hardware());
    let none = usable_backends(false, true, true);
    assert_eq!(none, vec![BackendKind::Software]);
    assert_eq!(pick_backend(rep, &none, false), BackendKind::Software);
}

#[test]
fn backends_have_names() {
    assert_eq!(BackendKind::Software.name(), "software");
    assert_eq!(HardwareBackend::vaapi().name(), "vaapi");
    assert_eq!(HardwareBackend::vulkan().name(), "vulkan");
    assert!(HardwareBackend::vulkan().is_hardware());
}

#[test]
fn no_hardware_decoder_is_reported() {
    assert!(!vaapi_available());
    assert!(!vulkan_video_available());
    assert_eq!(probe_backends(), vec![BackendKind::Software]);
}
