use helix::runtime::display_list::Color;
use helix::runtime::software_raster::{
    blend, decode_png, encode_png, rasterize_display_list, Frame, PaintRect,
};

fn byte(c: f32) -> u8 {
    (c.clamp(0.0, 1.0) * 255.0) as u8
}

fn rgba(r: f32, g: f32, b: f32, a: f32) -> Color {
    Color { r: byte(r), g: byte(g), b: byte(b), a: byte(a) }
}

fn rect(x: f32, y: f32, w: f32, h: f32, color: Color) -> PaintRect {
    PaintRect {
        left: x.max(0.0).floor() as i64,
        top: y.max(0.0).floor() as i64,
        right: (x + w).ceil() as i64,
        bottom: (y + h).ceil() as i64,
        color,
    }
}

fn px(c: [u8; 4]) -> Color {
    Color { r: c[0], g: c[1], b: c[2], a: c[3] }
}

#[test]
fn paints_opaque_rect() {
    let items = vec![rect(0.0, 0.0, 10.0, 10.0, rgba(1.0, 0.0, 0.0, 1.0))];
    let img = rasterize_display_list(&items, 10, 10);
    assert_eq!(img.get_pixel(5, 5), px([255, 0, 0, 255]));
    assert_eq!(img.get_pixel(0, 0), px([255, 0, 0, 255]));
}

#[test]
fn outside_every_rect_stays_transparent() {
    let items = vec![rect(2.0, 3.0, 2.0, 1.0, rgba(1.0, 0.0, 0.0, 1.0))];
    let img = rasterize_display_list(&items, 6, 5);
    for y in 0..5 {
        for x in 0..6 {
            let inside = (2..4).contains(&x) && y == 3;
            let want = if inside { px([255, 0, 0, 255]) } else { px([0, 0, 0, 0]) };
            assert_eq!(img.get_pixel(x, y), want);
        }
    }
}

#[test]
fn later_items_occlude_earlier_ones() {
    let items = vec![
        rect(0.0, 0.0, 10.0, 10.0, rgba(1.0, 0.0, 0.0, 1.0)),
        rect(2.0, 2.0, 4.0, 4.0, rgba(0.0, 0.0, 1.0, 1.0)),
    ];
    let img = rasterize_display_list(&items, 10, 10);
    assert_eq!(img.get_pixel(4, 4), px([0, 0, 255, 255]), "blue on top");
    assert_eq!(img.get_pixel(0, 0), px([255, 0, 0, 255]), "red underneath");
}

#[test]
fn alpha_composites_over_transparent() {
    let items = vec![rect(0.0, 0.0, 10.0, 10.0, rgba(0.0, 0.0, 0.0, 0.5))];
    let img = rasterize_display_list(&items, 10, 10);
    // 50% black over transparent -> mid grey, 50% alpha.
    assert_eq!(img.get_pixel(5, 5), px([0, 0, 0, 127]), "half-alpha black");
}

#[test]
fn blending_follows_the_over_operator() {
    // 102 = 40% of 255: 102 + 255 * 153 / 255 = 255.
    let over = blend(px([200, 0, 0, 102]), px([0, 100, 0, 255]));
    assert_eq!(over, px([80, 60, 0, 255]));
    assert_eq!(blend(px([7, 8, 9, 0]), px([0, 0, 0, 0])), px([0, 0, 0, 0]));
}

#[test]
fn round_trips_through_png() {
    let items = vec![rect(0.0, 0.0, 4.0, 4.0, rgba(0.0, 1.0, 0.0, 1.0))];
    let img = rasterize_display_list(&items, 4, 4);
    let png = encode_png(&img);
    let back = decode_png(&png).expect("re-decode");
    assert_eq!(img, back);
    assert_eq!(&png[1..4], b"PNG");
    assert!(decode_png(b"no image").is_none());
}

#[test]
fn raw_bytes_round_trip() {
    let raw = vec![1u8, 2, 3, 4, 5, 6, 7, 8];
    let frame = Frame::from_raw(2, 1, &raw).unwrap();
    assert_eq!(frame.get_pixel(1, 0), px([5, 6, 7, 8]));
    assert_eq!(frame.to_raw(), raw);
    assert!(Frame::from_raw(2, 2, &raw).is_none());
}
