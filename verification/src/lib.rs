//! Captcha recognition: alphabets, labels, image preprocessing, decoding of
//! network output, training decisions and evaluation statistics.

pub mod canvas;
pub mod charset;
pub mod codec;
pub mod counts;
pub mod data;
pub mod decode;
pub mod detect;
pub mod eval;
pub mod image_ops;
pub mod inference;
pub mod model;
pub mod plan;
pub mod request;
pub mod score;
pub mod text;
pub mod training;

pub use canvas::ImageInfo;
pub use charset::Charset;
pub use decode::{fixed_decode_indices, greedy_decode_indices};
pub use image_ops::{
    inspect_image, load_image_from_bytes, InputSize, PreprocessMode, IMG_HEIGHT, IMG_WIDTH,
};
pub use inference::Recognizer;
pub use model::{Arch, CaptchaModel, CaptchaModelConfig, CTC_TIME_STEPS};
