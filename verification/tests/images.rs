use capburn::canvas::{estimate_background, frame, inspect_pixels};
use capburn::codec::Gray;
use capburn::image_ops::{
    decode_bytes, image_to_pixels_with_mode_and_size, inspect_image, load_image_file_with_mode_and_size,
    load_image_from_bytes, load_image_from_bytes_with_mode_and_size, resize_fit, InputSize,
    PreprocessMode,
};
use capburn::inference::Recognizer;
use capburn::model::StoredModelConfig;
use std::io::Cursor;

fn encoded(img: image::DynamicImage, format: image::ImageFormat) -> Vec<u8> {
    let mut out = Cursor::new(Vec::new());
    img.write_to(&mut out, format).unwrap();
    out.into_inner()
}

fn gray_png(width: u32, height: u32, pixels: Vec<u8>) -> Vec<u8> {
    let img = image::GrayImage::from_raw(width, height, pixels).unwrap();
    encoded(image::DynamicImage::ImageLuma8(img), image::ImageFormat::Png)
}

fn rgb_png(width: u32, height: u32, color: [u8; 3]) -> Vec<u8> {
    let img = image::RgbImage::from_pixel(width, height, image::Rgb(color));
    encoded(image::DynamicImage::ImageRgb8(img), image::ImageFormat::Png)
}

fn gray(width: u32, height: u32, pixels: &[u8]) -> Gray {
    Gray { width, height, pixels: pixels.to_vec() }
}

#[test]
fn background_is_the_border_mean() {
    assert_eq!(estimate_background(&gray(0, 0, &[])), 255);
    assert_eq!(estimate_background(&gray(0, 3, &[])), 255);
    assert_eq!(estimate_background(&gray(1, 1, &[7])), 7);
    // the middle pixel does not count: (10 + 20 + 30 + 40 + 60 + 70 + 80 + 90) / 8
    assert_eq!(estimate_background(&gray(3, 3, &[10, 20, 30, 40, 255, 60, 70, 80, 90])), 50);
    // one row counts twice, and the mean is rounded down
    assert_eq!(estimate_background(&gray(2, 1, &[10, 15])), 12);
    assert_eq!(estimate_background(&gray(40, 40, &[200; 1600])), 200);
}

#[test]
fn frame_centres_the_picture() {
    let picture = gray(2, 1, &[1, 2]);
    assert_eq!(
        frame(9, 5, 4, &picture),
        vec![
            9, 9, 9, 9, 9, //
            9, 1, 2, 9, 9, //
            9, 9, 9, 9, 9, //
            9, 9, 9, 9, 9,
        ]
    );
    assert_eq!(frame(9, 2, 1, &picture), vec![1, 2]);
}

#[test]
fn inspection_counts_color_and_ink() {
    let rgb = [[0, 0, 0], [100, 118, 100], [100, 119, 100], [255, 0, 0]];
    // border: all four pixels, mean (100 + 100 + 100 + 200) / 4 = 125
    let info = inspect_pixels(&rgb, &gray(2, 2, &[100, 100, 100, 200]));
    assert_eq!((info.width, info.height), (2, 2));
    assert_eq!(info.sampled, 4);
    assert_eq!(info.color, 2);
    assert_eq!(info.ink, 1);
}

#[test]
fn inspection_samples_large_images() {
    let bytes = rgb_png(256, 128, [10, 10, 200]);
    let info = inspect_image(&bytes, Some("png")).unwrap();
    assert_eq!((info.width, info.height), (256, 128));
    // stride 256 * 128 / 8192 = 4
    assert_eq!(info.sampled, 8192);
    assert_eq!(info.color, 8192);
    assert_eq!(info.ink, 0);
}

#[test]
fn bytes_decode_to_default_input() {
    let bytes = gray_png(60, 20, vec![77; 1200]);
    let pixels = load_image_from_bytes(&bytes).unwrap();
    assert_eq!(pixels, vec![77; 128 * 32]);
}

#[test]
fn image_of_input_size_is_unchanged() {
    let source: Vec<u8> = (0..128 * 32).map(|i| (i % 251) as u8).collect();
    let bytes = gray_png(128, 32, source.clone());
    assert_eq!(load_image_from_bytes(&bytes).unwrap(), source);
    let fitted = load_image_from_bytes_with_mode_and_size(
        &bytes,
        PreprocessMode::Fit,
        InputSize::default(),
        |w, h, _size| (w, h),
    )
    .unwrap();
    assert_eq!(fitted, source);
}

#[test]
fn fit_pads_with_the_background() {
    let bytes = gray_png(2, 2, vec![50; 4]);
    let size = InputSize::new(8, 4);
    let pixels = load_image_from_bytes_with_mode_and_size(&bytes, PreprocessMode::Fit, size, |w, h, s| {
        assert_eq!((w, h), (2, 2));
        assert_eq!(s, InputSize::new(8, 4));
        (4, 4)
    })
    .unwrap();
    assert_eq!(pixels, vec![50; 32]);
}

#[test]
fn fit_clamps_the_scaled_size() {
    let mut source = vec![100; 16];
    source[5] = 0;
    let bytes = gray_png(4, 4, source.clone());
    let img = decode_bytes(&bytes).unwrap();
    let size = InputSize::new(6, 4);
    let too_large = image_to_pixels_with_mode_and_size(&img, PreprocessMode::Fit, size, |_, _, _| {
        (u32::MAX, u32::MAX)
    });
    assert_eq!(too_large, resize_fit(&img, size, 6, 4));
    let too_small =
        image_to_pixels_with_mode_and_size(&img, PreprocessMode::Fit, size, |_, _, _| (0, 0));
    assert_eq!(too_small, resize_fit(&img, size, 1, 1));
    // at its own size the picture stands in the middle, between columns of the
    // background: all twelve border pixels are 100
    let kept = resize_fit(&img, size, 4, 4);
    assert_eq!(kept.len(), 24);
    assert_eq!(kept[7], 100);
    assert_eq!(kept[8], 0);
    assert_eq!(kept.iter().filter(|p| **p == 100).count(), 23);
}

#[test]
fn stretch_scales() {
    // left half black, right half white
    let source: Vec<u8> = (0..64).map(|i| if i % 16 < 8 { 0 } else { 255 }).collect();
    let bytes = gray_png(16, 4, source);
    let pixels = load_image_file_with_mode_and_size(
        &bytes,
        None,
        PreprocessMode::Stretch,
        InputSize::new(8, 2),
        |w, h, _| (w, h),
    )
    .unwrap();
    assert_eq!(pixels.len(), 16);
    assert_eq!((pixels[0], pixels[7]), (0, 255));
}

#[test]
fn color_becomes_luminance() {
    let pixels = load_image_from_bytes(&rgb_png(128, 32, [255, 255, 255])).unwrap();
    assert_eq!(pixels, vec![255; 4096]);
    let red = load_image_from_bytes(&rgb_png(128, 32, [255, 0, 0])).unwrap();
    let green = load_image_from_bytes(&rgb_png(128, 32, [0, 255, 0])).unwrap();
    assert!(red[0] > 0 && red[0] < green[0] && green[0] < 255);
}

#[test]
fn magic_bytes_win_over_the_extension() {
    let bytes = gray_png(2, 2, vec![5; 4]);
    let info = inspect_image(&bytes, Some("jpg")).unwrap();
    assert_eq!((info.width, info.height), (2, 2));
    assert!(inspect_image(&bytes, Some("txt")).is_ok());
    assert!(inspect_image(&bytes, None).is_ok());
}

#[test]
fn other_formats_decode() {
    let img = image::DynamicImage::ImageRgb8(image::RgbImage::from_pixel(4, 4, image::Rgb([9, 9, 9])));
    for format in [image::ImageFormat::Bmp, image::ImageFormat::Gif] {
        let info = inspect_image(&encoded(img.clone(), format), None).unwrap();
        assert_eq!((info.width, info.height), (4, 4));
        assert_eq!(info.ink, 0);
    }
}

#[test]
fn undecodable_bytes_are_reported() {
    let unknown = "The image format could not be determined";
    assert_eq!(
        load_image_from_bytes(b"no image").unwrap_err(),
        format!("cannot decode image from bytes: {unknown}")
    );
    assert_eq!(
        inspect_image(b"no image", None).unwrap_err(),
        format!("cannot decode image: {unknown}")
    );
    assert_eq!(
        inspect_image(b"no image", Some("")).unwrap_err(),
        format!("cannot decode image: {unknown}")
    );
    // the extension decides where there are no magic bytes
    let by_extension = inspect_image(b"no image", Some("png")).unwrap_err();
    assert!(by_extension.starts_with("cannot decode image: "));
    assert_ne!(by_extension, format!("cannot decode image: {unknown}"));
    let unknown_extension = inspect_image(b"no image", Some("xyz")).unwrap_err();
    assert!(unknown_extension.contains("xyz"), "{unknown_extension}");
}

#[test]
fn huge_images_are_rejected() {
    let bytes = gray_png(8193, 1, vec![0; 8193]);
    assert!(load_image_from_bytes(&bytes).is_err());
    let bytes = gray_png(8192, 1, vec![3; 8192]);
    assert_eq!(load_image_from_bytes(&bytes).unwrap(), vec![3; 4096]);
}

fn recognizer(preprocess: &str, width: usize, height: usize) -> Recognizer {
    let stored = StoredModelConfig {
        charset: "0123456789".to_string(),
        num_chars: 5,
        arch: None,
        preprocess: Some(preprocess.to_string()),
        input_width: Some(width),
        input_height: Some(height),
        dropout: None,
        version: None,
    };
    Recognizer::load("model.json", stored).ok().unwrap().0
}

#[test]
fn recognizer_prepares_its_input() {
    let mut source = vec![90; 8];
    source[0] = 10;
    let bytes = gray_png(4, 2, source.clone());
    let stretch = recognizer("stretch", 4, 2);
    assert_eq!(stretch.input_of_bytes(&bytes, |w, h, _| (w, h)).unwrap(), source);
    assert_eq!(stretch.input_of_file(&bytes, Some("png"), |w, h, _| (w, h)).unwrap(), source);
    // border mean (10 + 7 * 90) / 8 = 80
    let fit = recognizer("fit", 6, 2);
    assert_eq!(
        fit.input_of_bytes(&bytes, |w, h, _| (w, h)).unwrap(),
        vec![80, 10, 90, 90, 90, 80, 80, 90, 90, 90, 90, 80]
    );
    assert!(fit.input_of_bytes(b"", |w, h, _| (w, h)).unwrap_err().starts_with("cannot decode image from bytes: "));
    assert!(fit.input_of_file(b"", None, |w, h, _| (w, h)).unwrap_err().starts_with("cannot decode image: "));
}

#[test]
fn fit_scales_the_picture() {
    // left half black, right half white
    let bytes = gray_png(4, 2, vec![0, 0, 255, 255, 0, 0, 255, 255]);
    let img = decode_bytes(&bytes).unwrap();
    let pixels = resize_fit(&img, InputSize::new(8, 4), 8, 4);
    assert_eq!(pixels.len(), 32);
    for row in pixels.chunks(8) {
        assert_eq!((row[0], row[7]), (0, 255));
    }
    // narrower than the canvas: the border mean (4 * 255) / 8 = 127 on both sides
    let pixels = resize_fit(&img, InputSize::new(8, 4), 4, 4);
    for row in pixels.chunks(8) {
        assert_eq!((row[0], row[1], row[2], row[5], row[6], row[7]), (127, 127, 0, 255, 127, 127));
    }
}
