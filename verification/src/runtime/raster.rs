//! Decoding of raster images (PNG/JPEG/WebP/GIF) to RGBA8 pixels.
use vstd::prelude::*;

verus! {

/// A decoded image, normalized to tightly-packed RGBA8 rows.
#[derive(Debug, Clone, PartialEq, Eq)]
pub struct DecodedImage {
    pub width: u32,
    pub height: u32,
    pub rgba8: Vec<u8>,
}

/// The bytes are no image of a known format.
#[derive(Debug, Clone, Copy, PartialEq, Eq)]
pub struct DecodeError;

impl DecodedImage {
    /// There are four bytes for every pixel.
    pub open spec fn wf(&self) -> bool {
        self.rgba8@.len() == 4 * (self.width * self.height)
    }
}

/// The errors of the `image` crate, which are carried and not looked into.
#[verifier::external_type_specification]
#[verifier::external_body]
pub struct ExImageError(image::ImageError);

/// What the bytes of an image hold, where they can be decoded: width, height, and the bytes of its
/// pixels.
pub uninterp spec fn raster_contents(bytes: Seq<u8>) -> Option<(u32, u32, Seq<u8>)>;

/// Whether bytes start like a JPEG, whose decoder rounds as the machine's instructions do.
pub open spec fn is_jpeg(bytes: Seq<u8>) -> bool {
    bytes.len() >= 3 && bytes[0] == 0xff && bytes[1] == 0xd8 && bytes[2] == 0xff
}

/// `image::load_from_memory`, which tells the format from the bytes, converted with `to_rgba8`: four
/// bytes per pixel. The result depends on the bytes alone, but for JPEG: which pixels a JPEG has is
/// left unsaid, since its decoder picks its arithmetic by the machine.
#[verifier::external_body]
fn load_raster(bytes: &[u8]) -> (r: Result<(u32, u32, Vec<u8>), image::ImageError>)
    ensures
        r matches Ok(x) ==> x.2@.len() == 4 * (x.0 * x.1),
        !is_jpeg(bytes@) ==> match r {
            Ok(x) => raster_contents(bytes@) == Some((x.0, x.1, x.2@)),
            Err(_) => raster_contents(bytes@) is None,
        },
{
    let image = image::load_from_memory(bytes)?.to_rgba8();
    Ok((image.width(), image.height(), image.into_raw()))
}

/// Whether bytes can be loaded so.
pub closed spec fn loads_to(
    bytes: &[u8],
    loaded: Result<(u32, u32, Vec<u8>), image::ImageError>,
) -> bool {
    call_ensures(load_raster, (bytes,), loaded)
}

/// What decoding comes to: the image of what was loaded, or an error.
pub open spec fn decoded_of(loaded: Result<(u32, u32, Vec<u8>), image::ImageError>) -> Result<
    DecodedImage,
    DecodeError,
> {
    match loaded {
        Ok(x) => Ok(DecodedImage { width: x.0, height: x.1, rgba8: x.2 }),
        Err(_) => Err(DecodeError),
    }
}

/// Decodes PNG/JPEG/WebP/GIF (first frame) bytes into RGBA8, auto-detecting the format from the
/// data.
pub fn decode_raster(bytes: &[u8]) -> (r: Result<DecodedImage, DecodeError>)
    ensures
        exists|loaded: Result<(u32, u32, Vec<u8>), image::ImageError>|
            #[trigger] loads_to(bytes, loaded) && r == decoded_of(loaded),
        r matches Ok(i) ==> i.wf(),
        !is_jpeg(bytes@) ==> match r {
            Ok(i) => raster_contents(bytes@) == Some((i.width, i.height, i.rgba8@)),
            Err(_) => raster_contents(bytes@) is None,
        },
{
    let loaded = load_raster(bytes);
    assert(loads_to(bytes, loaded));
    match loaded {
        Ok(x) => Ok(to_decoded(x)),
        Err(_) => Err(DecodeError),
    }
}

/// The image of what a decoder gave: width, height, and the bytes of its pixels.
pub fn to_decoded(loaded: (u32, u32, Vec<u8>)) -> (r: DecodedImage)
    ensures
        r == (DecodedImage { width: loaded.0, height: loaded.1, rgba8: loaded.2 }),
{
    let (width, height, rgba8) = loaded;
    DecodedImage { width, height, rgba8 }
}

} // verus!
