//! Reading and writing image files with the `image` and `jpeg-encoder`
//! crates: telling PNG from other formats, decoding to RGB pixels, and
//! encoding RGB pixels as PNG or JPEG.
use vstd::prelude::*;

use image::codecs::png::PngEncoder;
use image::ImageEncoder;

use crate::border::RgbImageData;

verus! {

#[verifier::external_type_specification]
#[verifier::external_body]
pub struct ExImageError(image::ImageError);

#[verifier::external_type_specification]
#[verifier::external_body]
pub struct ExJpegEncodingError(jpeg_encoder::EncodingError);

/// The eight bytes that every PNG file starts with.
pub open spec fn png_signature() -> Seq<u8> {
    seq![0x89u8, 0x50u8, 0x4eu8, 0x47u8, 0x0du8, 0x0au8, 0x1au8, 0x0au8]
}

pub open spec fn starts_png(bytes: Seq<u8>) -> bool {
    bytes.len() >= 8 && bytes.subrange(0, 8) == png_signature()
}

/// The PNG file that `PngEncoder` writes for an RGB image of the given size.
pub uninterp spec fn png_encoded(width: u32, height: u32, pixels: Seq<u8>) -> Seq<u8>;

/// The JPEG file, at quality 95, that `jpeg_encoder::Encoder` writes for an
/// RGB image of the given size.
pub uninterp spec fn jpeg_encoded(width: u16, height: u16, pixels: Seq<u8>) -> Seq<u8>;

/// Calls `image::guess_format` and tells whether it found PNG: its table of
/// signatures is tried in order, PNG's first, and a buffer is taken for PNG
/// exactly when it starts with the PNG signature.
#[verifier::external_body]
pub(crate) fn guess_is_png(bytes: &[u8]) -> (r: bool)
    ensures
        r == starts_png(bytes@),
{
    match image::guess_format(bytes) {
        Ok(image::ImageFormat::Png) => true,
        _ => false,
    }
}

#[verifier::external_type_specification]
#[verifier::external_body]
pub struct ExDynamicImage(image::DynamicImage);

/// Calls `image::load_from_memory`, which guesses the format from the first
/// bytes and decodes the picture. Nothing is stated of the picture: the
/// JPEG decoder may take other paths on other processors.
#[verifier::external_body]
pub(crate) fn load_image(bytes: &[u8]) -> Result<image::DynamicImage, image::ImageError> {
    image::load_from_memory(bytes)
}

/// Calls `DynamicImage::to_rgb8` and takes the width, height and bytes of
/// the RGB buffer it returns, which holds three bytes per pixel.
#[verifier::external_body]
pub(crate) fn rgb_pixels(picture: &image::DynamicImage) -> (r: RgbImageData)
    ensures
        r.well_formed(),
{
    let rgb = picture.to_rgb8();
    RgbImageData { width: rgb.width(), height: rgb.height(), pixels: rgb.into_raw() }
}

/// Writes the image with `PngEncoder::write_image` into a new buffer; the
/// encoder panics unless the buffer holds three bytes per pixel.  Writing into
/// a `Vec` cannot fail, so the encoder fails exactly when the `png` crate
/// refuses the header: a width or a height of zero.
#[verifier::external_body]
pub(crate) fn encode_png(img: &RgbImageData) -> (r: Result<Vec<u8>, image::ImageError>)
    requires
        img.well_formed(),
    ensures
        r is Ok <==> (img.width > 0 && img.height > 0),
        r matches Ok(bytes) ==> bytes@ == png_encoded(img.width, img.height, img.pixels@),
{
    let mut out: Vec<u8> = Vec::new();
    match PngEncoder::new(&mut out).write_image(
        img.pixels.as_slice(),
        img.width,
        img.height,
        image::ExtendedColorType::Rgb8,
    ) {
        Ok(()) => Ok(out),
        Err(e) => Err(e),
    }
}

/// Writes the image with `jpeg_encoder::Encoder` at quality 95 into a new
/// buffer.  Writing into a `Vec` cannot fail, so the encoder fails exactly
/// when the pixels are fewer than three bytes per pixel or a dimension is
/// zero.
#[verifier::external_body]
pub(crate) fn encode_jpeg(pixels: &[u8], width: u16, height: u16) -> (r: Result<
    Vec<u8>,
    jpeg_encoder::EncodingError,
>)
    ensures
        r is Ok <==> (width > 0 && height > 0 && pixels@.len() >= width as int * height as int * 3),
        r matches Ok(bytes) ==> bytes@ == jpeg_encoded(width, height, pixels@),
{
    let mut out: Vec<u8> = Vec::new();
    match jpeg_encoder::Encoder::new(&mut out, 95).encode(pixels, width, height, jpeg_encoder::ColorType::Rgb) {
        Ok(()) => Ok(out),
        Err(e) => Err(e),
    }
}

/// The text of an `image` error, as its `Display` writes it.
#[verifier::external_body]
pub(crate) fn image_error_text(e: &image::ImageError) -> String {
    format!("{}", e)
}

/// The text of a `jpeg-encoder` error, as its `Display` writes it.
#[verifier::external_body]
pub(crate) fn jpeg_error_text(e: &jpeg_encoder::EncodingError) -> String {
    format!("{}", e)
}

} // verus!
