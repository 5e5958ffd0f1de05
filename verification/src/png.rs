//! PNG images of eight-bit colour with transparency.
use vstd::prelude::*;

verus! {

/// An error of the image codec.
#[verifier::external_type_specification]
#[verifier::external_body]
pub struct ExImageError(image::ImageError);

/// An image: four bytes per pixel (red, green, blue, opacity), row by row.
#[derive(Debug)]
pub struct RgbaPixels {
    pub width: u32,
    pub height: u32,
    pub bytes: Vec<u8>,
}

impl RgbaPixels {
    /// There are bytes for every pixel.
    pub open spec fn complete(&self) -> bool {
        self.bytes@.len() >= 4 * self.width * self.height
    }

    /// What the image shows: width, height and bytes.
    pub open spec fn shown(&self) -> (u32, u32, Seq<u8>) {
        (self.width, self.height, self.bytes@)
    }
}

/// Width, height and bytes of the image that a PNG file holds, if it is one.
pub uninterp spec fn png_image(file: Seq<u8>) -> Option<(u32, u32, Seq<u8>)>;

/// The PNG file of an image, if it can be made.
pub uninterp spec fn png_file(width: u32, height: u32, bytes: Seq<u8>) -> Option<Seq<u8>>;

/// Calls `image::load_from_memory_with_format` for PNG and `to_rgba8`. What comes
/// back depends on the bytes of the file alone, and has at least four bytes for
/// every pixel.
#[verifier::external_body]
pub(crate) fn decode_png(file: &[u8]) -> (r: Result<RgbaPixels, image::ImageError>)
    ensures
        match r {
            Ok(img) => png_image(file@) == Some(img.shown()) && img.complete(),
            Err(_) => png_image(file@) is None,
        },
{
    let img = image::load_from_memory_with_format(file, image::ImageFormat::Png)?.to_rgba8();
    Ok(RgbaPixels { width: img.width(), height: img.height(), bytes: img.into_raw() })
}

/// Calls `image::RgbaImage::from_raw` and `write_to` for PNG. What comes back
/// depends on the image alone. An image of at most 16 MiB is encoded, since the
/// encoder refuses only sides of length 0 and writing to memory does not fail, and
/// `decode_png` reads it back unchanged. Neither is stated of a larger image: the
/// decoder refuses to allocate more than 512 MiB.
#[verifier::external_body]
pub(crate) fn encode_png(img: RgbaPixels) -> (r: Result<Vec<u8>, image::ImageError>)
    requires
        img.width > 0,
        img.height > 0,
        img.bytes@.len() == 4 * img.width * img.height,
    ensures
        img.bytes@.len() <= 0x100_0000 ==> r is Ok,
        match r {
            Ok(file) => {
                &&& png_file(img.width, img.height, img.bytes@) == Some(file@)
                &&& img.bytes@.len() <= 0x100_0000 ==> png_image(file@) == Some(img.shown())
            },
            Err(_) => png_file(img.width, img.height, img.bytes@) is None,
        },
{
    let img = image::RgbaImage::from_raw(img.width, img.height, img.bytes).unwrap();
    let mut out: Vec<u8> = Vec::new();
    img.write_to(&mut std::io::Cursor::new(&mut out), image::ImageFormat::Png)?;
    Ok(out)
}

} // verus!
