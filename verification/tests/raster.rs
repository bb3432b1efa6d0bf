use helix::runtime::raster::{decode_raster, to_decoded, DecodedImage};

fn png_of(w: u32, h: u32, c: [u8; 4]) -> Vec<u8> {
    let mut png_bytes = Vec::new();
    let img = image::RgbaImage::from_pixel(w, h, image::Rgba(c));
    image::DynamicImage::ImageRgba8(img)
        .write_to(&mut std::io::Cursor::new(&mut png_bytes), image::ImageFormat::Png)
        .unwrap();
    png_bytes
}

#[test]
fn decodes_a_1x1_png() {
    let decoded = decode_raster(&png_of(1, 1, [255, 0, 0, 255])).expect("valid PNG");
    assert_eq!((decoded.width, decoded.height), (1, 1));
    assert_eq!(decoded.rgba8, vec![255, 0, 0, 255]);
}

#[test]
fn decode_rejects_garbage_bytes() {
    // Random non-image bytes are not a recognized raster format.
    assert!(decode_raster(b"this is definitely not an image").is_err());
}

#[test]
fn decode_rejects_truncated_png() {
    // A valid PNG header but a truncated body fails to decode.
    let png = png_of(4, 4, [0, 0, 0, 255]);
    // Keep only the first 8 bytes (signature) — the rest is missing.
    let truncated = &png[..8];
    assert!(decode_raster(truncated).is_err());
}

#[test]
fn decoded_images_keep_their_parts() {
    assert_eq!(
        to_decoded((2, 1, vec![1, 2, 3, 4, 5, 6, 7, 8])),
        DecodedImage { width: 2, height: 1, rgba8: vec![1, 2, 3, 4, 5, 6, 7, 8] }
    );
}
