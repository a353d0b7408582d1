use capburn::image_ops::{InputSize, PreprocessMode};
use capburn::inference::Recognizer;
use capburn::model::{
    current_version, load_model_config, major_minor, Arch, CaptchaModelConfig, Dropout,
    StoredModelConfig, CNN_OUT, CTC_TIME_STEPS,
};

fn stored(version: Option<&str>) -> StoredModelConfig {
    StoredModelConfig {
        charset: "0123456789".to_string(),
        num_chars: 5,
        arch: None,
        preprocess: None,
        input_width: None,
        input_height: None,
        dropout: None,
        version: version.map(|v| v.to_string()),
    }
}

fn dropout(value: f64) -> Dropout {
    Dropout { bits: value.to_bits(), text: format!("{value}") }
}

#[test]
fn compares_major_minor_ignoring_patch() {
    // patch difference → equal
    assert_eq!(major_minor("0.1.1"), major_minor("0.1.99"));
    // minor newer
    assert!(major_minor("0.2.0") > major_minor("0.1.9"));
    // major newer
    assert!(major_minor("1.0.0") > major_minor("0.9.9"));
    // garbage → zeros
    assert_eq!(major_minor("x"), (0, 0));
}

#[test]
fn version_parts_are_lenient() {
    assert_eq!(major_minor(" 3.14.15 "), (3, 14));
    assert_eq!(major_minor("7"), (7, 0));
    assert_eq!(major_minor("1.x.3"), (1, 0));
    assert_eq!(major_minor("4294967295.4294967296"), (4294967295, 0));
    assert_eq!(major_minor(""), (0, 0));
    assert_eq!(current_version(), "0.1.1");
}

#[test]
fn arch_names() {
    for arch in [Arch::Fixed, Arch::FixedGlobal, Arch::FixedSeq, Arch::FixedSeqPool, Arch::Ctc] {
        assert_eq!(Arch::parse(arch.as_str()), Ok(arch));
    }
    assert_eq!(Arch::parse("GLOBAL"), Ok(Arch::FixedGlobal));
    assert_eq!(Arch::parse("fixed_global"), Ok(Arch::FixedGlobal));
    assert_eq!(
        Arch::parse("RNN").unwrap_err(),
        "unknown arch \"rnn\" (expected 'fixed', 'fixed-global' or 'ctc')"
    );
}

#[test]
fn every_arch_has_a_valid_config() {
    for arch in ["fixed", "fixed-global", "fixed-seq", "fixed-seq-pool", "ctc"] {
        let config = CaptchaModelConfig::new("0123456789".into(), 5).with_arch(arch.to_string());
        config.validate().unwrap();
        let model = config.init();
        assert_eq!(model.arch().as_str(), arch);
        assert_eq!(model.num_chars(), 5);
        assert_eq!(model.steps(), CTC_TIME_STEPS);
        if arch == "ctc" {
            assert_eq!(model.num_classes(), 11);
            assert_eq!(model.blank(), 10);
        } else {
            assert_eq!(model.num_classes(), 10);
        }
        if arch == "fixed-global" || arch == "fixed-seq" {
            assert_eq!(model.global(), Some((CNN_OUT * 32, 50)));
        } else {
            assert_eq!(model.global(), None);
        }
    }
}

#[test]
fn config_complaints_in_order() {
    let new = |charset: &str, n: usize| CaptchaModelConfig::new(charset.to_string(), n);
    assert!(new("01", 1).validate().is_ok());
    assert_eq!(
        new("", 0).with_arch("x".into()).validate().unwrap_err(),
        "unknown arch \"x\" (expected 'fixed', 'fixed-global' or 'ctc')"
    );
    assert_eq!(
        new("", 0).with_preprocess("crop".into()).validate().unwrap_err(),
        "unknown preprocess \"crop\" (expected 'stretch' or 'fit')"
    );
    assert_eq!(new("", 0).validate().unwrap_err(), "num_chars must be > 0");
    assert_eq!(new("", 1).validate().unwrap_err(), "charset is empty");
    assert_eq!(
        new("abcbac", 1).validate().unwrap_err(),
        "charset contains duplicate character 'b'"
    );
    assert_eq!(
        new("''", 1).validate().unwrap_err(),
        "charset contains duplicate character '\\''"
    );
    assert_eq!(
        new("ab", 1).with_dropout(dropout(1.0)).validate().unwrap_err(),
        "dropout must be in [0, 1), got 1"
    );
    assert_eq!(
        new("ab", 1).with_dropout(dropout(-0.5)).validate().unwrap_err(),
        "dropout must be in [0, 1), got -0.5"
    );
}

#[test]
fn dropout_bits_are_a_half_open_interval() {
    for value in [0.0, -0.0, 0.2, 0.999999, f64::MIN_POSITIVE, 1.0, -1e-300, 2.5, f64::NAN,
        f64::INFINITY, f64::NEG_INFINITY] {
        let config = CaptchaModelConfig::new("ab".into(), 1).with_dropout(dropout(value));
        assert_eq!(config.validate().is_ok(), (0.0..1.0).contains(&value), "{value}");
    }
    assert_eq!(CaptchaModelConfig::new("ab".into(), 1).dropout.bits, 0.2f64.to_bits());
}

#[test]
fn stored_defaults_are_filled() {
    let config = load_model_config("m/model.json", stored(None)).unwrap();
    assert_eq!(config.arch, "fixed");
    assert_eq!(config.preprocess, "stretch");
    assert_eq!(config.input_size(), InputSize::new(128, 32));
    assert_eq!(config.dropout.bits, 0.2f64.to_bits());
    assert_eq!(config.dropout.text, "0.2");
    assert_eq!(config.version, "0.1.1");
    assert_eq!(config.charset, "0123456789");
    assert_eq!(config.num_chars, 5);
}

#[test]
fn stored_values_are_kept() {
    let mut s = stored(Some("0.1.99"));
    s.arch = Some("ctc".into());
    s.preprocess = Some("fit".into());
    s.input_width = Some(256);
    s.input_height = Some(64);
    s.dropout = Some(dropout(0.5));
    let config = load_model_config("m", s).unwrap();
    assert_eq!(config.arch, "ctc");
    assert_eq!(config.preprocess, "fit");
    assert_eq!(config.input_size(), InputSize::new(256, 64));
    assert_eq!(config.dropout.text, "0.5");
}

#[test]
fn newer_model_is_rejected() {
    assert!(load_model_config("m", stored(Some("0.0.9"))).is_ok());
    assert!(load_model_config("m", stored(Some("garbage"))).is_ok());
    for version in ["0.2.0", "1.0"] {
        assert_eq!(
            load_model_config("a/model.json", stored(Some(version))).unwrap_err(),
            format!(
                "model a/model.json was trained by capburn {version} but this build is 0.1.1 — update the capburn extension (see install.sh)"
            )
        );
    }
}

#[test]
fn recognizer_of_stored_model() {
    let mut s = stored(Some("0.1.1"));
    s.arch = Some("CTC".into());
    s.preprocess = Some("Fit".into());
    let (recognizer, config) = Recognizer::load("m/model.json", s).ok().unwrap();
    assert_eq!(recognizer.num_chars(), 5);
    assert_eq!(recognizer.arch(), Arch::Ctc);
    assert_eq!(recognizer.input_size(), InputSize::new(128, 32));
    assert_eq!(config.charset, "0123456789");
}

#[test]
fn recognizer_rejects_bad_models() {
    let mut s = stored(None);
    s.charset = "00".into();
    assert_eq!(
        Recognizer::load("m/model.json", s).err().unwrap(),
        "invalid model config in m/model.json: charset contains duplicate character '0'"
    );
    assert!(Recognizer::load("m", stored(Some("9.9"))).is_err());
}

#[test]
fn preprocess_names() {
    for mode in [PreprocessMode::Stretch, PreprocessMode::Fit] {
        assert_eq!(PreprocessMode::parse(mode.as_str()), Ok(mode));
    }
    assert_eq!(PreprocessMode::parse("FIT"), Ok(PreprocessMode::Fit));
    assert_eq!(
        PreprocessMode::parse("Crop").unwrap_err(),
        "unknown preprocess \"crop\" (expected 'stretch' or 'fit')"
    );
}

#[test]
fn input_size_texts() {
    assert_eq!(InputSize::default(), InputSize::new(128, 32));
    assert_eq!(InputSize::parse(" 160x48 "), Ok(InputSize::new(160, 48)));
    assert_eq!(InputSize::new(160, 48).as_string(), "160x48");
    assert_eq!(
        InputSize::parse("160").unwrap_err(),
        "invalid input size \"160\" (expected WIDTHxHEIGHT)"
    );
    assert!(InputSize::parse("ax48").is_err());
    assert!(InputSize::parse("160x").is_err());
    assert_eq!(InputSize::new(160, 48).ctc_time_steps(), 40);
    assert!(InputSize::new(4, 32).validate().is_ok());
    assert!(InputSize::new(3, 32).validate().is_err());
    assert!(InputSize::new(128, 31).validate().is_err());
    assert!(InputSize::new(128, 32).is_possible());
    assert!(!InputSize::new(0, 32).is_possible());
    assert!(!InputSize::new(usize::MAX, 32).is_possible());
}
