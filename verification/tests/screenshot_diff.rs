use helix::runtime::display_list::Color;
use helix::runtime::screenshot_diff::{compare, diff_image, DiffReport};
use helix::runtime::software_raster::Frame;

fn px(c: [u8; 4]) -> Color {
    Color { r: c[0], g: c[1], b: c[2], a: c[3] }
}

fn solid(w: u32, h: u32, c: [u8; 4]) -> Frame {
    Frame { width: w, height: h, pixels: vec![px(c); (w * h) as usize] }
}

fn changed_ratio(r: &DiffReport) -> f32 {
    r.changed as f32 / r.total as f32
}

#[test]
fn identical_frames_report_zero() {
    let a = solid(4, 4, [10, 20, 30, 255]);
    let b = solid(4, 4, [10, 20, 30, 255]);
    let r = compare(&a, &b).expect("same size");
    assert!(r.identical);
    assert_eq!(changed_ratio(&r), 0.0);
    assert_eq!(r.max_channel_delta, 0);
}

#[test]
fn differing_frames_report_nonzero() {
    let a = solid(4, 4, [10, 20, 30, 255]);
    let b = solid(4, 4, [200, 20, 30, 255]);
    let r = compare(&a, &b).expect("same size");
    assert!(!r.identical);
    assert_eq!(changed_ratio(&r), 1.0);
    assert_eq!(r.max_channel_delta, 190);
    assert_eq!(r.delta_sum, 190 * 16);
    assert_eq!(compare(&b, &a), Some(r));
}

#[test]
fn size_mismatch_is_none() {
    assert!(compare(&solid(4, 4, [0, 0, 0, 0]), &solid(5, 5, [0, 0, 0, 0])).is_none());
    assert!(diff_image(&solid(4, 4, [0, 0, 0, 0]), &solid(5, 5, [0, 0, 0, 0])).is_none());
}

#[test]
fn diff_image_marks_changes_red() {
    let mut a = solid(2, 2, [0, 0, 0, 0]);
    a.pixels[0] = px([255, 0, 0, 255]);
    let b = solid(2, 2, [0, 0, 0, 0]);
    let d = diff_image(&a, &b).expect("same size");
    assert_eq!(d.get_pixel(0, 0), px([255, 0, 0, 255]));
    // Unchanged pixel is dimmed, not red.
    assert_ne!(d.get_pixel(1, 1), px([255, 0, 0, 255]));
}

#[test]
fn unchanged_pixels_are_dimmed_to_a_third() {
    let a = solid(1, 1, [90, 61, 30, 200]);
    assert_eq!(diff_image(&a, &a).unwrap().get_pixel(0, 0), px([30, 20, 10, 200]));
}
