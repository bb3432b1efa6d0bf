use helix::runtime::dash::{
    parse_mpd, select_representation, AbrPolicy, DashClient, DashError, Seconds,
};

const SAMPLE: &str = r#"<?xml version="1.0"?>
<MPD mediaPresentationDuration="PT10S" minBufferTime="PT2S">
  <BaseURL>https://cdn.example.com/vod/</BaseURL>
  <AdaptationSet contentType="video" mimeType="video/mp4">
    <SegmentTemplate media="$RepresentationID$/$Number$.m4s" initialization="$RepresentationID$/init.mp4" timescale="1000" duration="2000" startNumber="1"/>
    <Representation id="v1" bandwidth="500000" codecs="avc1.4d400c" width="640" height="360"/>
    <Representation id="v2" bandwidth="1200000" codecs="avc1.4d4015" width="1280" height="720"/>
    <Representation id="v3" bandwidth="3000000" codecs="avc1.4d401e" width="1920" height="1080"/>
  </AdaptationSet>
  <AdaptationSet contentType="audio" mimeType="audio/mp4">
    <Representation id="a1" bandwidth="96000" codecs="mp4a.40.2"/>
  </AdaptationSet>
</MPD>"#;

fn secs(s: Seconds) -> f64 {
    s.ticks as f64 / s.per_second as f64
}

#[test]
fn parses_manifest_structure() {
    let mpd = parse_mpd(SAMPLE).expect("parse");
    assert_eq!(secs(mpd.duration_secs), 10.0);
    assert_eq!(secs(mpd.min_buffer_secs), 2.0);
    assert_eq!(mpd.adaptation_sets.len(), 2);
    let video = mpd.by_type("video");
    assert_eq!(video.len(), 3);
    assert_eq!(video[0].bandwidth, 500_000);
    assert_eq!(video[2].resolution(), (1920, 1080));
}

#[test]
fn template_substitution_builds_segment_urls() {
    let mpd = parse_mpd(SAMPLE).unwrap();
    let v2 = mpd.by_type("video")[1].clone();
    let segs = v2.templated_segments(2);
    assert_eq!(segs.len(), 2);
    assert_eq!(segs[0].url, "https://cdn.example.com/vod/v2/1.m4s");
    assert_eq!(segs[1].url, "https://cdn.example.com/vod/v2/2.m4s");
    assert_eq!(secs(segs[0].duration_secs), 2.0);
    assert_eq!(v2.initialization_url(), Some("https://cdn.example.com/vod/v2/init.mp4".into()));
}

#[test]
fn abr_picks_best_within_budget() {
    let mpd = parse_mpd(SAMPLE).unwrap();
    let best = select_representation(&mpd, "video", 1_500_000, AbrPolicy::MaximizeQuality)
        .unwrap();
    assert_eq!(best.id, "v2");
    let cons = select_representation(&mpd, "video", 1_500_000, AbrPolicy::Conservative)
        .unwrap();
    assert_eq!(cons.id, "v2");
    let low = select_representation(&mpd, "video", 600_000, AbrPolicy::Conservative)
        .unwrap();
    assert_eq!(low.id, "v1");
}

#[test]
fn abr_falls_back_to_lowest_below_ladder() {
    let mpd = parse_mpd(SAMPLE).unwrap();
    let pick = select_representation(&mpd, "video", 100, AbrPolicy::MaximizeQuality)
        .unwrap();
    assert_eq!(pick.id, "v1");
}

#[test]
fn client_emits_segment_plan() {
    let mpd = parse_mpd(SAMPLE).unwrap();
    let client = DashClient::new(mpd, "video", 1_500_000);
    assert!(client.is_plannable());
    let plan = client.segment_plan();
    // 10s duration / 2s segments = 5 segments.
    assert_eq!(plan.len(), 5);
    assert!(plan[0].url.contains("v2/1.m4s"));
}

#[test]
fn segment_list_is_parsed() {
    let xml = r#"<MPD mediaPresentationDuration="PT4S">
        <AdaptationSet contentType="video">
          <Representation id="r" bandwidth="800000">
            <SegmentList timescale="1000" duration="2000">
              <SegmentURL media="seg1.m4s" d="2000"/>
              <SegmentURL media="seg2.m4s" d="2000"/>
            </SegmentList>
          </Representation>
        </AdaptationSet>
      </MPD>"#;
    let mpd = parse_mpd(xml).unwrap();
    let rep = mpd.representations()[0];
    assert_eq!(rep.segments.len(), 2);
    assert_eq!(rep.segments[0].url, "seg1.m4s");
    assert_eq!(secs(rep.segments[1].duration_secs), 2.0);
}

#[test]
fn a_document_without_mpd_is_an_error() {
    assert_eq!(parse_mpd("<html></html>"), Err(DashError::Malformed("no MPD root element".into())));
}

#[test]
fn conservative_stays_strictly_below_the_budget() {
    let mpd = parse_mpd(SAMPLE).unwrap();
    let best = select_representation(&mpd, "video", 1_200_000, AbrPolicy::MaximizeQuality).unwrap();
    assert_eq!(best.id, "v2");
    let cons = select_representation(&mpd, "video", 1_200_000, AbrPolicy::Conservative).unwrap();
    assert_eq!(cons.id, "v1");
    assert!(select_representation(&mpd, "text", 1_200_000, AbrPolicy::Conservative).is_none());
}

#[test]
fn choice_grows_with_the_budget() {
    let mpd = parse_mpd(SAMPLE).unwrap();
    let mut client = DashClient::new(mpd, "video", 100).with_policy(AbrPolicy::MaximizeQuality);
    assert_eq!(client.current().unwrap().id, "v1");
    client.set_bandwidth_budget(1_200_000);
    assert_eq!(client.current().unwrap().id, "v2");
    client.set_bandwidth_budget(9_000_000);
    assert_eq!(client.current().unwrap().id, "v3");
}

#[test]
fn segments_cover_the_presentation() {
    let mpd = parse_mpd(
        r#"<MPD mediaPresentationDuration="PT5S"><AdaptationSet contentType="video">
             <SegmentTemplate media="$Number$.m4s" timescale="1000" duration="2000" startNumber="7"/>
             <Representation id="v" bandwidth="1"/></AdaptationSet></MPD>"#,
    )
    .unwrap();
    let rep = mpd.representations()[0];
    assert_eq!(secs(rep.segment_duration_secs()), 2.0);
    assert_eq!(mpd.segment_count(rep), 3);
    let segs = rep.templated_segments(3);
    assert_eq!(segs[0].number, 7);
    assert_eq!(segs[2].number, 9);
    assert_eq!(segs[2].url, "9.m4s");
}

#[test]
fn durations_are_read_as_numbers_of_seconds_too() {
    let nanos = |text: &str| {
        parse_mpd(&format!("<MPD mediaPresentationDuration=\"{text}\"></MPD>"))
            .unwrap()
            .duration_secs
            .ticks
    };
    assert_eq!(nanos("1e3"), 1_000_000_000_000);
    assert_eq!(nanos("+12.5"), 12_500_000_000);
    assert_eq!(nanos("125E-1"), 12_500_000_000);
    assert_eq!(nanos(".25e+1"), 2_500_000_000);
    assert_eq!(nanos("7."), 7_000_000_000);
    assert_eq!(nanos("1e-10"), 0);
    assert_eq!(nanos("19e-10"), 1);
    assert_eq!(nanos("0e99999999999999999999"), 0);
    assert_eq!(nanos("1e99999999999999999999"), u64::MAX);
    assert_eq!(nanos("1e-99999999999999999999"), 0);
    assert_eq!(nanos("1e11"), u64::MAX);
    assert_eq!(nanos("Infinity"), u64::MAX);
    assert_eq!(nanos("NaN"), 0);
    assert_eq!(nanos("-5"), 0);
    assert_eq!(nanos("1e"), 0);
    assert_eq!(nanos("."), 0);
    assert_eq!(nanos("PT1M30.5S"), 90_500_000_000);
}
