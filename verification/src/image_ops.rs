//! Image preprocessing: convert to a fixed-size grayscale image.

use crate::canvas::{estimate_background, frame, inspect_pixels, ImageInfo};
use crate::codec::{
    decode, error_text, format_of_extension, guess_format, image_size, scale, scale_luma, to_luma,
    to_rgb, unknown_extension, MAX_IMAGE_ALLOC, MAX_IMAGE_DIM,
};
use crate::text::{
    chars_of, debug_str, find_char, folds_to, lowered, parse_number, show_usize, slice_of,
    string_of, trimmed,
};
use vstd::prelude::*;
use vstd::string::StringExecFns;

#[allow(unused_imports)]
use crate::canvas::{
    background, framed, info_of, law_background_between, lemma_place_in_frame,
};
#[allow(unused_imports)]
use crate::codec::{
    decoded_image, extension_error, extension_format, image_error_text, image_height, image_luma,
    image_rgb, image_width, magic_format, scaled_image, scaled_luma, scaling_fits,
};
#[allow(unused_imports)]
use crate::text::{
    decimal, first_index, lemma_decimal_reads_back, lemma_first_index, lemma_first_index_unique,
    lemma_lower_keeps, lemma_trim_keeps, lower, number, str_debug, trim,
};

verus! {

// Small input keeps training and CPU inference fast; captcha characters stay
// legible at this size. The width becomes the sequence axis after the CNN.
pub const IMG_WIDTH: usize = 128;

pub const IMG_HEIGHT: usize = 32;

/// How source images are mapped to the fixed model input size.
#[derive(Clone, Copy, Debug, PartialEq, Eq, Structural)]
pub enum PreprocessMode {
    /// Resize exactly to the input size. This is the historical behavior and
    /// keeps old models compatible.
    Stretch,
    /// Preserve source aspect ratio and center-pad to the input size.
    Fit,
}

/// The name of a mode.
pub open spec fn mode_name(mode: PreprocessMode) -> Seq<char> {
    match mode {
        PreprocessMode::Stretch => "stretch"@,
        PreprocessMode::Fit => "fit"@,
    }
}

/// The mode that a name denotes, ignoring ASCII case.
pub open spec fn mode_named(s: Seq<char>) -> Option<PreprocessMode> {
    if lower(s) == "stretch"@ {
        Some(PreprocessMode::Stretch)
    } else if lower(s) == "fit"@ {
        Some(PreprocessMode::Fit)
    } else {
        None
    }
}

/// The complaint about an unknown mode.
pub open spec fn unknown_mode(s: Seq<char>) -> Seq<char> {
    "unknown preprocess "@ + str_debug(lower(s)) + " (expected 'stretch' or 'fit')"@
}

impl PreprocessMode {
    pub fn parse(s: &str) -> (r: Result<Self, String>)
        ensures
            match r {
                Ok(mode) => mode_named(s@) == Some(mode),
                Err(e) => mode_named(s@) is None && e@ == unknown_mode(s@),
            },
    {
        if folds_to(s, "stretch") {
            Ok(PreprocessMode::Stretch)
        } else if folds_to(s, "fit") {
            Ok(PreprocessMode::Fit)
        } else {
            let mut e = String::from_str("unknown preprocess ");
            e.append(debug_str(string_of(&lowered(&chars_of(s))).as_str()).as_str());
            e.append(" (expected 'stretch' or 'fit')");
            Err(e)
        }
    }

    pub fn as_str(self) -> (r: &'static str)
        ensures
            r@ == mode_name(self),
    {
        match self {
            PreprocessMode::Stretch => "stretch",
            PreprocessMode::Fit => "fit",
        }
    }
}

/// The name of a mode reads back as that mode.
pub proof fn law_mode_roundtrip(mode: PreprocessMode)
    ensures
        mode_named(mode_name(mode)) == Some(mode),
{
    reveal_strlit("stretch");
    reveal_strlit("fit");
    lemma_lower_keeps("stretch"@);
    lemma_lower_keeps("fit"@);
}

/// A name denotes a mode whatever its ASCII case, only these two names do, and
/// any other is quoted in the complaint, folded to lower case.
pub proof fn law_mode_names(s: Seq<char>, t: Seq<char>)
    ensures
        mode_named(s) == Some(PreprocessMode::Stretch) <==> lower(s) == "stretch"@,
        mode_named(s) == Some(PreprocessMode::Fit) <==> lower(s) == "fit"@,
        lower(s) == lower(t) ==> mode_named(s) == mode_named(t),
        mode_name(PreprocessMode::Stretch) == "stretch"@,
        mode_name(PreprocessMode::Fit) == "fit"@,
        unknown_mode(s) == "unknown preprocess "@ + str_debug(lower(s))
            + " (expected 'stretch' or 'fit')"@,
{
    reveal_strlit("stretch");
    reveal_strlit("fit");
    assert("stretch"@.len() != "fit"@.len());
}

/// Size of the model input in pixels.
#[derive(Clone, Copy, Debug, PartialEq, Eq, Structural)]
pub struct InputSize {
    pub width: usize,
    pub height: usize,
}

impl Default for InputSize {
    fn default() -> (r: Self)
        ensures
            r == (InputSize { width: IMG_WIDTH, height: IMG_HEIGHT }),
    {
        InputSize { width: IMG_WIDTH, height: IMG_HEIGHT }
    }
}

/// The size that a `WIDTHxHEIGHT` text denotes.
pub open spec fn size_named(s: Seq<char>) -> Option<(int, int)> {
    let t = trim(s);
    let i = first_index(t, 'x');
    if i >= t.len() {
        None
    } else {
        match (number(t.take(i), usize::MAX as int), number(t.skip(i + 1), usize::MAX as int)) {
            (Some(w), Some(h)) => Some((w, h)),
            _ => None,
        }
    }
}

/// The `WIDTHxHEIGHT` text of a size.
pub open spec fn size_text(width: nat, height: nat) -> Seq<char> {
    decimal(width) + "x"@ + decimal(height)
}

/// Whether the backbone can process an input: it halves the width twice and the
/// height five times.
pub open spec fn size_is_usable(size: InputSize) -> bool {
    size.width >= 4 && size.height >= 32
}

impl InputSize {
    pub fn new(width: usize, height: usize) -> (r: Self)
        ensures
            r == (InputSize { width, height }),
    {
        InputSize { width, height }
    }

    /// Parse a `WIDTHxHEIGHT` value.
    pub fn parse(s: &str) -> (r: Result<Self, String>)
        ensures
            match r {
                Ok(size) => size_named(s@) == Some((size.width as int, size.height as int)),
                Err(e) => size_named(s@) is None && e@ == "invalid input size "@ + str_debug(s@)
                    + " (expected WIDTHxHEIGHT)"@,
            },
    {
        let t = trimmed(&chars_of(s));
        assert(t@.skip(0) == t@);
        let i = find_char(&t, 0, 'x');
        if i < t.len() {
            let w = parse_number(&slice_of(&t, 0, i), usize::MAX as u64);
            let h = parse_number(&slice_of(&t, i + 1, t.len()), usize::MAX as u64);
            assert(t@.subrange(0, i as int) == t@.take(i as int));
            assert(t@.subrange(i + 1, t@.len() as int) == t@.skip(i + 1));
            match (w, h) {
                (Some(width), Some(height)) => {
                    return Ok(InputSize { width: width as usize, height: height as usize });
                },
                _ => {},
            }
        }
        let mut e = String::from_str("invalid input size ");
        e.append(debug_str(s).as_str());
        e.append(" (expected WIDTHxHEIGHT)");
        Err(e)
    }

    /// Reject sizes that the backbone would shrink to nothing.
    pub fn validate(&self) -> (r: Result<(), String>)
        ensures
            match r {
                Ok(_) => size_is_usable(*self),
                Err(e) => !size_is_usable(*self) && e@ == "input size must be at least 4x32, got "@
                    + size_text(self.width as nat, self.height as nat),
            },
    {
        if self.width >= 4 && self.height >= 32 {
            return Ok(());
        }
        let mut e = String::from_str("input size must be at least 4x32, got ");
        e.append(self.as_string().as_str());
        Err(e)
    }

    /// The `WIDTHxHEIGHT` text.
    pub fn as_string(&self) -> (r: String)
        ensures
            r@ == size_text(self.width as nat, self.height as nat),
    {
        let mut s = show_usize(self.width);
        s.append("x");
        s.append(show_usize(self.height).as_str());
        s
    }

    /// Number of time steps the CTC head emits: the backbone halves the width
    /// twice and keeps it otherwise.
    pub fn ctc_time_steps(&self) -> (r: usize)
        ensures
            r == self.width / 4,
    {
        self.width / 4
    }
}

/// The text of a size reads back as that size.
pub proof fn law_size_roundtrip(width: usize, height: usize)
    ensures
        size_named(size_text(width as nat, height as nat)) == Some((width as int, height as int)),
{
    reveal_strlit("x");
    let w = decimal(width as nat);
    let h = decimal(height as nat);
    let t = size_text(width as nat, height as nat);
    lemma_decimal_reads_back(width as nat);
    lemma_decimal_reads_back(height as nat);
    assert(t[0] == w[0]);
    assert(t.last() == h.last());
    lemma_trim_keeps(t);
    assert forall|j: int| 0 <= j < w.len() implies t[j] != 'x' by {
        assert(t[j] == w[j]);
    }
    assert(t[w.len() as int] == 'x');
    lemma_first_index_unique(t, 'x', w.len() as int);
    assert(t.take(w.len() as int) == w);
    assert(t.skip(w.len() as int + 1) == h);
}

/// A size is read as the width before the first `x` and the height behind it,
/// white space around the whole text aside. A text without an `x`, or with
/// anything but a number on either side, is no size.
pub proof fn law_size_is_width_by_height(s: Seq<char>, a: Seq<char>, b: Seq<char>)
    ensures
        trim(s) == a + "x"@ + b && !a.contains('x') ==> size_named(s) == match (
            number(a, usize::MAX as int),
            number(b, usize::MAX as int),
        ) {
            (Some(width), Some(height)) => Some((width, height)),
            _ => None,
        },
        !trim(s).contains('x') ==> size_named(s) is None,
{
    reveal_strlit("x");
    let t = trim(s);
    if t == a + "x"@ + b && !a.contains('x') {
        assert forall|j: int| 0 <= j < a.len() implies t[j] != 'x' by {
            assert(a.contains(a[j]));
        }
        assert(t[a.len() as int] == 'x');
        lemma_first_index_unique(t, 'x', a.len() as int);
        assert(t.take(a.len() as int) =~= a);
        assert(t.skip(a.len() as int + 1) =~= b);
    }
    if !t.contains('x') {
        lemma_first_index(t, 'x');
        let i = first_index(t, 'x');
        if i < t.len() {
            assert(t.contains(t[i]));
        }
    }
}

/// The text of a size is its width, an `x` and its height.
pub proof fn law_size_text(width: nat, height: nat)
    ensures
        size_text(width, height) == decimal(width) + seq!['x'] + decimal(height),
{
    reveal_strlit("x");
    assert("x"@ =~= seq!['x']);
}

// ---------------------------------------------------------------------------
// Images to model input
// ---------------------------------------------------------------------------
/// What the contents of an image file decode to. The magic bytes decide on the
/// format; where there are none, the extension of the file name does.
pub open spec fn file_image(bytes: Seq<u8>, extension: Option<Seq<char>>) -> Result<
    image::DynamicImage,
    image::ImageError,
> {
    let magic = magic_format(bytes);
    match extension {
        Some(e) => if magic is None && e.len() > 0 {
            match extension_format(e) {
                Some(format) => limited_image(bytes, Some(format)),
                None => Err(extension_error(e)),
            }
        } else {
            limited_image(bytes, magic)
        },
        None => limited_image(bytes, magic),
    }
}

/// The text of an optional string.
pub open spec fn text_of(s: Option<&str>) -> Option<Seq<char>> {
    match s {
        Some(t) => Some(t@),
        None => None,
    }
}

/// What the contents of a file decode to under the library's limits.
pub open spec fn limited_image(bytes: Seq<u8>, format: Option<image::ImageFormat>) -> Result<
    image::DynamicImage,
    image::ImageError,
> {
    decoded_image(bytes, format, MAX_IMAGE_DIM, MAX_IMAGE_DIM, MAX_IMAGE_ALLOC)
}

/// Whether an image keeps within the limits on its dimensions.
pub open spec fn is_small(img: image::DynamicImage) -> bool {
    image_width(img) <= MAX_IMAGE_DIM && image_height(img) <= MAX_IMAGE_DIM
}

/// The message for a decoding error.
fn decoding_message(prefix: &str, e: &image::ImageError) -> (r: String)
    ensures
        r@ == prefix@ + image_error_text(*e),
{
    let mut message = String::from_str(prefix);
    message.append(error_text(e).as_str());
    message
}

/// Decode the contents of a file. Applies size limits to guard against decode
/// bombs. `extension` is that of the file name, if it has one.
pub fn decode_file(bytes: &[u8], extension: Option<&str>) -> (r: Result<
    image::DynamicImage,
    String,
>)
    ensures
        match r {
            Ok(img) => file_image(bytes@, text_of(extension)) == Ok::<
                image::DynamicImage,
                image::ImageError,
            >(img) && is_small(img),
            Err(message) => file_image(bytes@, text_of(extension)) matches Err(e) && message@
                == "cannot decode image: "@ + image_error_text(e),
        },
{
    let mut format = guess_format(bytes);
    if format.is_none() {
        if let Some(extension) = extension {
            if chars_of(extension).len() > 0 {
                format = format_of_extension(extension);
                if format.is_none() {
                    let e = unknown_extension(extension);
                    return Err(decoding_message("cannot decode image: ", &e));
                }
            }
        }
    }
    match decode(bytes, format, MAX_IMAGE_DIM, MAX_IMAGE_DIM, MAX_IMAGE_ALLOC) {
        Ok(img) => Ok(img),
        Err(e) => Err(decoding_message("cannot decode image: ", &e)),
    }
}

/// Decode an image from in-memory bytes (for the PHP extension). Applies size
/// limits to guard against decode bombs.
pub fn decode_bytes(bytes: &[u8]) -> (r: Result<image::DynamicImage, String>)
    ensures
        match r {
            Ok(img) => file_image(bytes@, None) == Ok::<image::DynamicImage, image::ImageError>(img)
                && is_small(img),
            Err(message) => file_image(bytes@, None) matches Err(e) && message@
                == "cannot decode image from bytes: "@ + image_error_text(e),
        },
{
    let format = guess_format(bytes);
    match decode(bytes, format, MAX_IMAGE_DIM, MAX_IMAGE_DIM, MAX_IMAGE_ALLOC) {
        Ok(img) => Ok(img),
        Err(e) => Err(decoding_message("cannot decode image from bytes: ", &e)),
    }
}

/// Whether images of any allowed size can be scaled to this size: both sides
/// are positive and the buffers fit into memory.
pub open spec fn size_is_possible(size: InputSize) -> bool {
    &&& 0 < size.width <= u32::MAX
    &&& 0 < size.height <= u32::MAX
    &&& scaling_fits(MAX_IMAGE_DIM as nat, size.width as nat, size.height as nat)
}

impl InputSize {
    /// Whether images of any allowed size can be scaled to this size.
    pub fn is_possible(&self) -> (r: bool)
        ensures
            r == size_is_possible(*self),
    {
        if self.width == 0 || self.height == 0 || self.width > u32::MAX as usize || self.height
            > u32::MAX as usize {
            return false;
        }
        let side: u128 = MAX_IMAGE_DIM as u128;
        let w: u128 = self.width as u128;
        let h: u128 = self.height as u128;
        assert(0 <= side * h <= 8192 * u32::MAX) by (nonlinear_arith)
            requires
                side == 8192,
                0 <= h <= u32::MAX,
        ;
        assert(w * h <= u32::MAX * u32::MAX) by (nonlinear_arith)
            requires
                w <= u32::MAX,
                h <= u32::MAX,
        ;
        16 * (side * h) <= isize::MAX as u128 && 16 * (w * h)
            <= isize::MAX as u128
    }
}

/// `n`, moved into `1..=max`.
pub open spec fn clamped(n: u32, max: int) -> u32 {
    if n < 1 {
        1
    } else if n > max {
        max as u32
    } else {
        n
    }
}

/// The luminance bytes of an image of the `fit` mode, once the picture has been
/// scaled to `width` by `height` pixels.
pub open spec fn fitted_pixels(
    img: image::DynamicImage,
    size: InputSize,
    width: u32,
    height: u32,
) -> Seq<u8> {
    let luma = image_luma(img);
    let w = image_width(img);
    let h = image_height(img);
    framed(
        background(luma, w as int, h as int) as u8,
        size.width as int,
        size.height as int,
        scaled_luma(luma, w as u32, h as u32, width, height),
        width as int,
        height as int,
    )
}

/// Whether `pixels` are the luminance bytes that an image is mapped to. `fit`
/// gives the size of the picture in the `fit` mode; it is moved into the input.
pub open spec fn is_model_input<F: Fn(u32, u32, InputSize) -> (u32, u32)>(
    img: image::DynamicImage,
    mode: PreprocessMode,
    size: InputSize,
    fit: F,
    pixels: Seq<u8>,
) -> bool {
    match mode {
        PreprocessMode::Stretch => pixels == image_luma(
            scaled_image(img, size.width as u32, size.height as u32),
        ),
        PreprocessMode::Fit => exists|scaled: (u32, u32)|
            #[trigger] call_ensures(
                fit,
                (image_width(img) as u32, image_height(img) as u32, size),
                scaled,
            ) && pixels == fitted_pixels(
                img,
                size,
                clamped(scaled.0, size.width as int),
                clamped(scaled.1, size.height as int),
            ),
    }
}

fn clamp_side(n: u32, max: usize) -> (r: u32)
    requires
        0 < max <= u32::MAX,
    ensures
        r == clamped(n, max as int),
        1 <= r <= max,
{
    if n < 1 {
        1
    } else if n as usize > max {
        max as u32
    } else {
        n
    }
}

proof fn lemma_scaling_fits(
    width: nat,
    new_width: nat,
    new_height: nat,
    less_width: nat,
    less_new_width: nat,
    less_new_height: nat,
)
    requires
        scaling_fits(width, new_width, new_height),
        less_width <= width,
        less_new_width <= new_width,
        less_new_height <= new_height,
    ensures
        scaling_fits(less_width, less_new_width, less_new_height),
{
    assert(less_width * less_new_height <= width * new_height) by (nonlinear_arith)
        requires
            less_width <= width,
            less_new_height <= new_height,
    ;
    assert(less_new_width * less_new_height <= new_width * new_height) by (nonlinear_arith)
        requires
            less_new_width <= new_width,
            less_new_height <= new_height,
    ;
}

/// Scale a picture to `width` by `height` pixels and pad it to the input size
/// with the colour of its background.
pub fn resize_fit(img: &image::DynamicImage, size: InputSize, width: u32, height: u32) -> (r: Vec<
    u8,
>)
    requires
        is_small(*img),
        size_is_possible(size),
        1 <= width <= size.width,
        1 <= height <= size.height,
    ensures
        r@ == fitted_pixels(*img, size, width, height),
        r@.len() == size.width * size.height,
{
    let gray = to_luma(img);
    proof {
        lemma_scaling_fits(
            MAX_IMAGE_DIM as nat,
            size.width as nat,
            size.height as nat,
            gray.width as nat,
            width as nat,
            height as nat,
        );
    }
    let resized = scale_luma(&gray, width, height);
    let bg = estimate_background(&gray);
    frame(bg, size.width, size.height, &resized)
}

/// Turn a decoded image into model input using the selected preprocessing mode:
/// one luminance byte for each pixel of the input, row by row. `fit` tells to
/// which size a picture of given width and height is scaled in the `fit` mode.
pub fn image_to_pixels_with_mode_and_size<F: Fn(u32, u32, InputSize) -> (u32, u32)>(
    img: &image::DynamicImage,
    mode: PreprocessMode,
    size: InputSize,
    fit: F,
) -> (r: Vec<u8>)
    requires
        is_small(*img),
        size_is_possible(size),
        forall|w: u32, h: u32, s: InputSize| call_requires(fit, (w, h, s)),
    ensures
        is_model_input(*img, mode, size, fit, r@),
        r@.len() == size.width * size.height,
        mode == PreprocessMode::Stretch && image_width(*img) == size.width && image_height(*img)
            == size.height ==> r@ == image_luma(*img),
{
    match mode {
        PreprocessMode::Stretch => {
            proof {
                lemma_scaling_fits(
                    MAX_IMAGE_DIM as nat,
                    size.width as nat,
                    size.height as nat,
                    image_width(*img),
                    size.width as nat,
                    size.height as nat,
                );
            }
            let gray = to_luma(&scale(img, size.width as u32, size.height as u32));
            gray.pixels
        },
        PreprocessMode::Fit => {
            let dims = image_size(img);
            let scaled = fit(dims.0, dims.1, size);
            let width = clamp_side(scaled.0, size.width);
            let height = clamp_side(scaled.1, size.height);
            resize_fit(img, size, width, height)
        },
    }
}

/// Decode an image from in-memory bytes and convert it with the selected mode.
pub fn load_image_from_bytes_with_mode_and_size<F: Fn(u32, u32, InputSize) -> (u32, u32)>(
    bytes: &[u8],
    mode: PreprocessMode,
    size: InputSize,
    fit: F,
) -> (r: Result<Vec<u8>, String>)
    requires
        size_is_possible(size),
        forall|w: u32, h: u32, s: InputSize| call_requires(fit, (w, h, s)),
    ensures
        match r {
            Ok(pixels) => file_image(bytes@, None) matches Ok(img) && is_model_input(
                img,
                mode,
                size,
                fit,
                pixels@,
            ) && pixels@.len() == size.width * size.height,
            Err(message) => file_image(bytes@, None) matches Err(e) && message@
                == "cannot decode image from bytes: "@ + image_error_text(e),
        },
{
    match decode_bytes(bytes) {
        Ok(img) => Ok(image_to_pixels_with_mode_and_size(&img, mode, size, fit)),
        Err(e) => Err(e),
    }
}

/// Convert the contents of an image file with the selected preprocessing mode.
/// `extension` is that of the file name, if it has one.
pub fn load_image_file_with_mode_and_size<F: Fn(u32, u32, InputSize) -> (u32, u32)>(
    bytes: &[u8],
    extension: Option<&str>,
    mode: PreprocessMode,
    size: InputSize,
    fit: F,
) -> (r: Result<Vec<u8>, String>)
    requires
        size_is_possible(size),
        forall|w: u32, h: u32, s: InputSize| call_requires(fit, (w, h, s)),
    ensures
        ({
            let decoded = file_image(bytes@, text_of(extension));
            match r {
                Ok(pixels) => decoded matches Ok(img) && is_model_input(
                    img,
                    mode,
                    size,
                    fit,
                    pixels@,
                ) && pixels@.len() == size.width * size.height,
                Err(message) => decoded matches Err(e) && message@ == "cannot decode image: "@
                    + image_error_text(e),
            }
        }),
{
    match decode_file(bytes, extension) {
        Ok(img) => Ok(image_to_pixels_with_mode_and_size(&img, mode, size, fit)),
        Err(e) => Err(e),
    }
}

/// Decode an image from in-memory bytes and stretch it to the default input
/// size.
pub fn load_image_from_bytes(bytes: &[u8]) -> (r: Result<Vec<u8>, String>)
    ensures
        match r {
            Ok(pixels) => file_image(bytes@, None) matches Ok(img) && pixels@ == image_luma(
                scaled_image(img, IMG_WIDTH as u32, IMG_HEIGHT as u32),
            ) && pixels@.len() == IMG_WIDTH * IMG_HEIGHT,
            Err(message) => file_image(bytes@, None) matches Err(e) && message@
                == "cannot decode image from bytes: "@ + image_error_text(e),
        },
{
    match decode_bytes(bytes) {
        Ok(img) => Ok(
            image_to_pixels_with_mode_and_size(
                &img,
                PreprocessMode::Stretch,
                InputSize { width: IMG_WIDTH, height: IMG_HEIGHT },
                same_size,
            ),
        ),
        Err(e) => Err(e),
    }
}

/// Leaves the size of a picture as it is.
fn same_size(width: u32, height: u32, size: InputSize) -> (r: (u32, u32))
    ensures
        r == (width, height),
{
    (width, height)
}

/// Inspect an image file without applying the model preprocessing. `extension`
/// is that of the file name, if it has one.
pub fn inspect_image(bytes: &[u8], extension: Option<&str>) -> (r: Result<ImageInfo, String>)
    ensures
        ({
            let decoded = file_image(bytes@, text_of(extension));
            match r {
                Ok(info) => decoded matches Ok(img) && info.width == image_width(img) && info.height
                    == image_height(img) && (
                    info.sampled as nat,
                    info.color as nat,
                    info.ink as nat,
                ) == info_of(image_rgb(img), image_luma(img), info.width, info.height),
                Err(message) => decoded matches Err(e) && message@ == "cannot decode image: "@
                    + image_error_text(e),
            }
        }),
{
    match decode_file(bytes, extension) {
        Ok(img) => {
            let rgb = to_rgb(&img);
            let gray = to_luma(&img);
            Ok(inspect_pixels(&rgb, &gray))
        },
        Err(e) => Err(e),
    }
}

/// In the `fit` mode the picture stands in the centre of the canvas, and every
/// pixel outside it has the colour of the source's border, bright or dark.
pub proof fn law_fit_pads_with_the_border(
    img: image::DynamicImage,
    size: InputSize,
    width: u32,
    height: u32,
    x: int,
    y: int,
)
    requires
        image_width(img) <= u32::MAX,
        image_height(img) <= u32::MAX,
        image_luma(img).len() == image_width(img) * image_height(img),
        width <= size.width,
        height <= size.height,
        0 <= x < size.width,
        0 <= y < size.height,
    ensures
        ({
            let left = (size.width - width) / 2;
            let top = (size.height - height) / 2;
            let canvas = fitted_pixels(img, size, width, height);
            let picture = scaled_luma(
                image_luma(img),
                image_width(img) as u32,
                image_height(img) as u32,
                width,
                height,
            );
            &&& canvas.len() == size.width * size.height
            &&& canvas[y * size.width + x] == if left <= x < left + width && top <= y < top
                + height {
                picture[(y - top) * width + (x - left)] as int
            } else {
                background(image_luma(img), image_width(img) as int, image_height(img) as int)
            }
        }),
{
    let w = size.width as int;
    let h = size.height as int;
    let luma = image_luma(img);
    let iw = image_width(img) as int;
    let ih = image_height(img) as int;
    if iw > 0 && ih > 0 {
        law_background_between(luma, iw, ih, 0, 255);
    }
    lemma_place_in_frame(
        background(luma, iw, ih) as u8,
        w,
        h,
        scaled_luma(luma, iw as u32, ih as u32, width, height),
        width as int,
        height as int,
        x,
        y,
    );
}

/// An image of one colour is padded with that colour, whichever it is.
pub proof fn law_fit_pads_one_colour_with_itself(
    img: image::DynamicImage,
    size: InputSize,
    width: u32,
    height: u32,
    color: u8,
    x: int,
    y: int,
)
    requires
        0 < image_width(img) <= u32::MAX,
        0 < image_height(img) <= u32::MAX,
        image_luma(img).len() == image_width(img) * image_height(img),
        forall|i: int| 0 <= i < image_luma(img).len() ==> #[trigger] image_luma(img)[i] == color,
        width <= size.width,
        height <= size.height,
        0 <= x < size.width,
        0 <= y < size.height,
        ({
            let left = (size.width - width) / 2;
            let top = (size.height - height) / 2;
            x < left || left + width <= x || y < top || top + height <= y
        }),
    ensures
        fitted_pixels(img, size, width, height)[y * size.width + x] == color,
{
    law_fit_pads_with_the_border(img, size, width, height, x, y);
    law_background_between(
        image_luma(img),
        image_width(img) as int,
        image_height(img) as int,
        color,
        color,
    );
}

/// What is laid out for the model. Stretched, it is the luminance of the image
/// scaled to the input size. Fitted, it is a canvas that holds the picture in the
/// size that the caller's rule gives; a side below one pixel counts as one, and a
/// side beyond the input as that of the input.
pub proof fn law_model_input_follows_the_mode<F: Fn(u32, u32, InputSize) -> (u32, u32)>(
    img: image::DynamicImage,
    size: InputSize,
    fit: F,
    pixels: Seq<u8>,
    width: u32,
    height: u32,
)
    requires
        1 <= size.width <= u32::MAX,
        1 <= size.height <= u32::MAX,
        forall|s: (u32, u32)|
            #[trigger] call_ensures(fit, (image_width(img) as u32, image_height(img) as u32, size), s)
                ==> s == (width, height),
    ensures
        is_model_input(img, PreprocessMode::Stretch, size, fit, pixels) <==> pixels == image_luma(
            scaled_image(img, size.width as u32, size.height as u32),
        ),
        is_model_input(img, PreprocessMode::Fit, size, fit, pixels) ==> ({
            let w = if width == 0 {
                1
            } else if width > size.width {
                size.width as u32
            } else {
                width
            };
            let h = if height == 0 {
                1
            } else if height > size.height {
                size.height as u32
            } else {
                height
            };
            pixels == fitted_pixels(img, size, w, h)
        }),
{
}

/// How a file's format is settled: magic bytes win over any extension, an
/// extension is looked at only where there are none, an unknown one is an error,
/// and without either the decoder is left to fail. Images are decoded within 8192
/// pixels a side and 128 MiB.
pub proof fn law_file_format_is_settled_by_magic(
    bytes: Seq<u8>,
    extension: Seq<char>,
    format: image::ImageFormat,
)
    ensures
        magic_format(bytes) == Some(format) ==> file_image(bytes, Some(extension)) == decoded_image(
            bytes,
            Some(format),
            8192,
            8192,
            134_217_728,
        ) && file_image(bytes, None) == decoded_image(
            bytes,
            Some(format),
            8192,
            8192,
            134_217_728,
        ),
        magic_format(bytes) is None ==> file_image(bytes, None) == decoded_image(
            bytes,
            None,
            8192,
            8192,
            134_217_728,
        ),
        magic_format(bytes) is None && extension.len() == 0 ==> file_image(bytes, Some(extension))
            == decoded_image(bytes, None, 8192, 8192, 134_217_728),
        magic_format(bytes) is None && extension.len() > 0 && extension_format(extension) == Some(
            format,
        ) ==> file_image(bytes, Some(extension)) == decoded_image(
            bytes,
            Some(format),
            8192,
            8192,
            134_217_728,
        ),
        magic_format(bytes) is None && extension.len() > 0 && extension_format(extension) is None
            ==> file_image(bytes, Some(extension)) == Err::<image::DynamicImage, image::ImageError>(
            extension_error(extension),
        ),
{
}

/// An extension is taken as it is spelled, and none as none.
pub proof fn law_extension_is_taken(extension: &str)
    ensures
        text_of(Some(extension)) == Some(extension@),
        text_of(None) is None,
{
}

/// The limits on sizes: images of up to 8192 pixels a side are taken in, and the
/// buffers for scaling them, at sixteen bytes a pixel, have to fit into memory. The
/// default input has 128 by 32 pixels.
pub proof fn law_size_limits(img: image::DynamicImage, size: InputSize)
    ensures
        IMG_WIDTH == 128 && IMG_HEIGHT == 32,
        is_small(img) <==> image_width(img) <= 8192 && image_height(img) <= 8192,
        size_is_possible(size) <==> 1 <= size.width <= u32::MAX && 1 <= size.height <= u32::MAX
            && 16 * (8192 * size.height) <= isize::MAX && 16 * (size.width * size.height)
            <= isize::MAX,
        size_is_usable(size) <==> size.width >= 4 && size.height >= 32,
{
}

} // verus!
