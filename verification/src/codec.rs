//! Decoding and scaling of images.
//!
//! The `image` crate does the work. What is here declares its types, names what
//! its functions compute, and says of them what the rest of the library relies
//! on without proof.

use vstd::prelude::*;

verus! {

/// A decoded image of any colour type.
#[verifier::external_type_specification]
#[verifier::external_body]
pub struct ExDynamicImage(image::DynamicImage);

/// An image file format.
#[verifier::external_type_specification]
#[verifier::external_body]
pub struct ExImageFormat(image::ImageFormat);

/// A reason why an image could not be decoded.
#[verifier::external_type_specification]
#[verifier::external_body]
pub struct ExImageError(image::ImageError);

/// Upper bound on decoded image dimensions — guards against "decode bombs"
/// (a tiny file that expands into a huge buffer) when accepting untrusted
/// input in the PHP extension.
pub const MAX_IMAGE_DIM: u32 = 8192;

/// Upper bound on the memory that decoding may take.
pub const MAX_IMAGE_ALLOC: u64 = 134_217_728;

/// A luminance image, row by row from the top.
#[derive(Debug)]
pub struct Gray {
    pub width: u32,
    pub height: u32,
    pub pixels: Vec<u8>,
}

impl Gray {
    /// There is one byte for each pixel.
    pub open spec fn is_whole(&self) -> bool {
        self.pixels@.len() == self.width * self.height
    }
}

/// Width of a decoded image in pixels.
pub uninterp spec fn image_width(img: image::DynamicImage) -> nat;

/// Height of a decoded image in pixels.
pub uninterp spec fn image_height(img: image::DynamicImage) -> nat;

/// The luminance of each pixel of a decoded image, row by row.
pub uninterp spec fn image_luma(img: image::DynamicImage) -> Seq<u8>;

/// The red, green and blue of each pixel of a decoded image, row by row.
pub uninterp spec fn image_rgb(img: image::DynamicImage) -> Seq<[u8; 3]>;

/// The format whose magic bytes stand at the start of a file.
pub uninterp spec fn magic_format(bytes: Seq<u8>) -> Option<image::ImageFormat>;

/// The format that a file name extension stands for.
pub uninterp spec fn extension_format(extension: Seq<char>) -> Option<image::ImageFormat>;

/// What a file decodes to, read as `format` under the given limits.
pub uninterp spec fn decoded_image(
    bytes: Seq<u8>,
    format: Option<image::ImageFormat>,
    max_width: u32,
    max_height: u32,
    max_alloc: u64,
) -> Result<image::DynamicImage, image::ImageError>;

/// The error about a file name extension that stands for no format.
pub uninterp spec fn extension_error(extension: Seq<char>) -> image::ImageError;

/// The text of a decoding error.
pub uninterp spec fn image_error_text(e: image::ImageError) -> Seq<char>;

/// An image scaled to a size with a triangle filter.
pub uninterp spec fn scaled_image(
    img: image::DynamicImage,
    width: u32,
    height: u32,
) -> image::DynamicImage;

/// The pixels of a luminance image scaled to a size with a triangle filter.
pub uninterp spec fn scaled_luma(
    pixels: Seq<u8>,
    width: u32,
    height: u32,
    new_width: u32,
    new_height: u32,
) -> Seq<u8>;

/// The buffers that scaling fills fit into memory: one of the source's width and
/// the new height, and one of the new size, at up to sixteen bytes a pixel.
pub open spec fn scaling_fits(width: nat, new_width: nat, new_height: nat) -> bool {
    &&& 16 * (width * new_height) <= isize::MAX
    &&& 16 * (new_width * new_height) <= isize::MAX
}

/// `image::guess_format` looks for the magic bytes of each known format at the
/// start of the file, and nowhere else; it fails where none is found.
#[verifier::external_body]
pub(crate) fn guess_format(bytes: &[u8]) -> (r: Option<image::ImageFormat>)
    ensures
        r == magic_format(bytes@),
{
    image::guess_format(bytes).ok()
}

/// `image::ImageFormat::from_extension` looks the extension up in a table.
#[verifier::external_body]
pub(crate) fn format_of_extension(extension: &str) -> (r: Option<image::ImageFormat>)
    ensures
        r == extension_format(extension@),
{
    image::ImageFormat::from_extension(extension)
}

/// `image::ImageReader::decode` on a file in memory, read as `format` under the
/// given limits, is a function of these. Its limits on the dimensions are
/// strict: an image that it hands out is no wider and no higher. What the bytes
/// of each format stand for is left to the decoders.
#[verifier::external_body]
pub(crate) fn decode(
    bytes: &[u8],
    format: Option<image::ImageFormat>,
    max_width: u32,
    max_height: u32,
    max_alloc: u64,
) -> (r: Result<image::DynamicImage, image::ImageError>)
    ensures
        r == decoded_image(bytes@, format, max_width, max_height, max_alloc),
        r matches Ok(img) ==> image_width(img) <= max_width && image_height(img) <= max_height,
{
    let mut reader = image::ImageReader::new(std::io::Cursor::new(bytes));
    if let Some(format) = format {
        reader.set_format(format);
    }
    let mut limits = image::Limits::default();
    limits.max_image_width = Some(max_width);
    limits.max_image_height = Some(max_height);
    limits.max_alloc = Some(max_alloc);
    reader.limits(limits);
    reader.decode()
}

/// The `image::ImageError` about an extension is made of the extension alone.
#[verifier::external_body]
pub(crate) fn unknown_extension(extension: &str) -> (r: image::ImageError)
    ensures
        r == extension_error(extension@),
{
    let hint = image::error::ImageFormatHint::PathExtension(extension.into());
    image::ImageError::Unsupported(hint.into())
}

/// `Display` of `image::ImageError` is a function of the error.
#[verifier::external_body]
pub(crate) fn error_text(e: &image::ImageError) -> (r: String)
    ensures
        r@ == image_error_text(*e),
{
    format!("{e}")
}

/// `image::DynamicImage::width` and `image::DynamicImage::height` give the size
/// of an image.
#[verifier::external_body]
pub(crate) fn image_size(img: &image::DynamicImage) -> (r: (u32, u32))
    ensures
        r.0 == image_width(*img),
        r.1 == image_height(*img),
{
    (img.width(), img.height())
}

/// `image::DynamicImage::to_luma8` gives one byte for each pixel of an image of
/// the same size.
#[verifier::external_body]
pub(crate) fn to_luma(img: &image::DynamicImage) -> (r: Gray)
    ensures
        r.is_whole(),
        r.width == image_width(*img),
        r.height == image_height(*img),
        r.pixels@ == image_luma(*img),
{
    let gray = img.to_luma8();
    let pixels = gray.pixels().map(|p| p.0[0]).collect();
    Gray { width: gray.width(), height: gray.height(), pixels }
}

/// `image::DynamicImage::to_rgb8` gives three bytes for each pixel.
#[verifier::external_body]
pub(crate) fn to_rgb(img: &image::DynamicImage) -> (r: Vec<[u8; 3]>)
    ensures
        r@ == image_rgb(*img),
        r@.len() == image_width(*img) * image_height(*img),
{
    img.to_rgb8().pixels().map(|p| p.0).collect()
}

/// `image::DynamicImage::resize_exact` with a triangle filter gives an image of
/// the size asked for, and a copy where the image has that size already.
#[verifier::external_body]
pub(crate) fn scale(img: &image::DynamicImage, width: u32, height: u32) -> (r: image::DynamicImage)
    requires
        0 < width,
        0 < height,
        image_width(*img) <= MAX_IMAGE_DIM,
        image_height(*img) <= MAX_IMAGE_DIM,
        scaling_fits(image_width(*img), width as nat, height as nat),
    ensures
        r == scaled_image(*img, width, height),
        image_width(r) == width,
        image_height(r) == height,
        image_width(*img) == width && image_height(*img) == height ==> image_luma(r) == image_luma(
            *img,
        ),
{
    img.resize_exact(width, height, image::imageops::FilterType::Triangle)
}

/// `image::imageops::resize` of a luminance image with a triangle filter gives
/// an image of the size asked for, and a copy where the image has that size
/// already.
#[verifier::external_body]
pub(crate) fn scale_luma(gray: &Gray, width: u32, height: u32) -> (r: Gray)
    requires
        gray.is_whole(),
        0 < width,
        0 < height,
        gray.width <= MAX_IMAGE_DIM,
        gray.height <= MAX_IMAGE_DIM,
        scaling_fits(gray.width as nat, width as nat, height as nat),
    ensures
        r.is_whole(),
        r.width == width,
        r.height == height,
        r.pixels@ == scaled_luma(gray.pixels@, gray.width, gray.height, width, height),
        gray.width == width && gray.height == height ==> r.pixels@ == gray.pixels@,
{
    let source = image::GrayImage::from_raw(gray.width, gray.height, gray.pixels.clone()).unwrap();
    let out = image::imageops::resize(&source, width, height, image::imageops::FilterType::Triangle);
    Gray { width: out.width(), height: out.height(), pixels: out.into_raw() }
}

} // verus!
