use capburn::charset::Charset;
use capburn::data::{AugmentProfile, Example};
use capburn::detect::LengthSpec;
use capburn::image_ops::{InputSize, PreprocessMode};
use capburn::model::{Arch, CaptchaModelConfig, Dropout};
use capburn::plan::{
    build_config, check_request, choose_arch, choose_augment, choose_charset, choose_input_size,
    choose_preprocess, dataset_dir, is_auto, params_line, TrainRequest,
};
use capburn::training::{
    augment_seed, batches, check_examples, check_run, done_line, epoch_line, shuffle_seed, Gate, Rate,
    Step, Tally, TrainLoop, TrainingConfig,
};

const FIVE: LengthSpec = LengthSpec { min_chars: 5, max_chars: 5 };
const RANGE: LengthSpec = LengthSpec { min_chars: 4, max_chars: 7 };

fn request(arch: &str, length: LengthSpec) -> TrainRequest {
    TrainRequest {
        charset: Charset::from_spec("digits").unwrap(),
        length,
        arch: arch.to_string(),
        input_size: InputSize::default(),
        preprocess: PreprocessMode::Fit,
        epochs: 3,
        batch_size: 8,
        lr: Rate { bits: 0.001f64.to_bits(), text: "0.001".to_string() },
        dropout: Dropout { bits: 0.5f64.to_bits(), text: "0.5".to_string() },
        augment: true,
        augment_profile: AugmentProfile::Light,
    }
}

fn complaint(q: &TrainRequest) -> String {
    check_request(q).unwrap_err()
}

#[test]
fn requests_are_checked_in_order() {
    assert_eq!(check_request(&request("fixed", FIVE)), Ok(Arch::Fixed));
    assert_eq!(check_request(&request("CTC", RANGE)), Ok(Arch::Ctc));
    let mut q = request("fixed", RANGE);
    q.epochs = 0;
    q.batch_size = 0;
    assert_eq!(complaint(&q), "--epochs must be > 0");
    q.epochs = 1;
    assert_eq!(complaint(&q), "--batch-size must be > 0");
    q.batch_size = 1;
    assert_eq!(complaint(&q), "--arch fixed needs a single length, got 4..=7 — use --arch ctc for a range");
    assert_eq!(
        complaint(&request("lstm", FIVE)),
        "unknown arch \"lstm\" (expected 'fixed', 'fixed-global' or 'ctc')"
    );
}

#[test]
fn rates_must_be_positive_and_finite() {
    for lr in [0.0005f64, 1e-320, f64::MAX, 0.0, -0.0, -1.0, f64::INFINITY, f64::NAN] {
        let mut q = request("fixed", FIVE);
        q.lr = Rate { bits: lr.to_bits(), text: format!("{lr}") };
        if lr.is_finite() && lr > 0.0 {
            assert!(check_request(&q).is_ok());
        } else {
            assert_eq!(complaint(&q), format!("--lr must be a positive finite number, got {lr}"));
        }
    }
}

#[test]
fn dropout_must_be_a_probability() {
    for dropout in [0.0f64, 0.99, 1.0, -0.1, f64::NAN] {
        let mut q = request("fixed", FIVE);
        q.dropout = Dropout { bits: dropout.to_bits(), text: format!("{dropout}") };
        if dropout.is_finite() && (0.0..1.0).contains(&dropout) {
            assert!(check_request(&q).is_ok());
        } else {
            assert_eq!(
                complaint(&q),
                format!("--dropout must be a finite number in [0, 1), got {dropout}")
            );
        }
    }
}

#[test]
fn ctc_needs_room_for_repeats() {
    // 32 steps: 16 characters need 31 steps, 17 need 33
    let length = |max_chars| LengthSpec { min_chars: 1, max_chars };
    assert!(check_request(&request("ctc", length(16))).is_ok());
    assert_eq!(
        complaint(&request("ctc", length(17))),
        "--num-chars max 17 is too long for the CTC sequence length 32 (needs 2*len-1 ≤ 32)"
    );
    assert!(check_request(&request("ctc", length(usize::MAX))).is_err());
    // the fixed heads have no such limit
    assert!(check_request(&request("fixed", LengthSpec { min_chars: 99, max_chars: 99 })).is_ok());
}

#[test]
fn settings_are_chosen() {
    assert!(is_auto("AUTO") && !is_auto("auto "));
    assert_eq!(choose_arch("auto", FIVE), "fixed");
    assert_eq!(choose_arch("Auto", RANGE), "ctc");
    assert_eq!(choose_arch("fixed-seq", RANGE), "fixed-seq");
    assert_eq!(choose_augment("strong", false), Ok((true, AugmentProfile::Strong)));
    assert_eq!(choose_augment("auto", false), Ok((true, AugmentProfile::Medium)));
    assert_eq!(choose_augment("OFF", false), Ok((false, AugmentProfile::Medium)));
    assert_eq!(choose_augment("bogus", true), Ok((false, AugmentProfile::Medium)));
    assert!(choose_augment("bogus", false).is_err());
    assert!(choose_charset("auto").ok().unwrap().is_none());
    assert_eq!(choose_charset("digits").ok().unwrap().unwrap().len(), 10);
    assert!(choose_charset("+").is_err());
    assert_eq!(dataset_dir("./data", Some("digits5")), "./data/digits5");
    assert_eq!(dataset_dir("./data", None), "./data");
}

#[test]
fn sizes_and_modes_are_chosen() {
    let recommended = InputSize::new(160, 60);
    assert_eq!(choose_input_size("auto", Some(recommended)), Ok(recommended));
    assert_eq!(choose_input_size("auto", None), Ok(InputSize::new(128, 32)));
    assert_eq!(choose_input_size("64x32", Some(recommended)), Ok(InputSize::new(64, 32)));
    assert!(choose_input_size("64x31", None).is_err());
    assert!(choose_input_size("64", None).is_err());
    assert_eq!(choose_preprocess("auto", None), Ok(PreprocessMode::Stretch));
    assert_eq!(choose_preprocess("auto", Some(PreprocessMode::Fit)), Ok(PreprocessMode::Fit));
    assert_eq!(
        choose_preprocess("stretch", Some(PreprocessMode::Fit)),
        Ok(PreprocessMode::Stretch)
    );
    assert!(choose_preprocess("crop", None).is_err());
    assert_eq!(
        params_line("ctc", recommended, PreprocessMode::Fit, true, AugmentProfile::Light),
        "Auto params: arch=ctc, input-size=160x60, preprocess=fit, augment=light"
    );
    assert_eq!(
        params_line("ctc", recommended, PreprocessMode::Fit, false, AugmentProfile::Light),
        "Auto params: arch=ctc, input-size=160x60, preprocess=fit, augment=off"
    );
}

#[test]
fn checked_request_runs() {
    let q = request("ctc", RANGE);
    assert!(check_request(&q).is_ok());
    let config = build_config(q);
    assert_eq!(config.model.num_chars, 7);
    assert_eq!(config.model.preprocess, "fit");
    assert_eq!(config.model.version, "0.1.1");
    assert_eq!((config.min_chars, config.num_epochs, config.batch_size, config.seed), (4, 3, 8, 42));
    assert_eq!(config.augment_profile, "light");
    let setup = check_run(&config).ok().unwrap();
    assert_eq!(setup.arch, Arch::Ctc);
    assert_eq!(setup.length, RANGE);
    assert_eq!(
        setup.banner(),
        "Arch: ctc  |  charset: 10 chars (digits)  |  length: variable 4..=7"
    );
}

#[test]
fn default_training_config() {
    let config = TrainingConfig::new(CaptchaModelConfig::new("01".into(), 1));
    assert_eq!(config.learning_rate.bits, 5.0e-4f64.to_bits());
    assert_eq!(config.learning_rate.text, "0.0005");
    assert_eq!((config.min_chars, config.num_epochs, config.batch_size, config.seed), (1, 30, 64, 42));
    assert!(config.augment);
    let setup = check_run(&config).ok().unwrap();
    assert_eq!(setup.banner(), "Arch: fixed  |  charset: 2 chars (digits)  |  length: fixed 1");
}

#[test]
fn runs_are_checked() {
    let config = |n: usize, arch: &str| {
        TrainingConfig::new(CaptchaModelConfig::new("01".into(), n).with_arch(arch.into()))
    };
    assert_eq!(
        check_run(&config(0, "fixed")).err().unwrap(),
        "invalid model config: num_chars must be > 0"
    );
    assert_eq!(
        check_run(&config(5, "fixed")).err().unwrap(),
        "--arch fixed needs a single length (--num-chars N), got 1..=5 — use --arch ctc for variable length"
    );
    assert!(check_run(&config(32, "ctc")).is_ok());
    assert_eq!(
        check_run(&config(33, "ctc")).err().unwrap(),
        "--num-chars max 33 exceeds the CTC sequence length 32 — captchas this long are not supported"
    );
    assert!(check_examples(2, "d").is_ok());
    assert_eq!(
        check_examples(1, "d").unwrap_err(),
        "No suitable examples found in d — check --charset and --num-chars"
    );
}

#[test]
fn seeds_follow_the_epoch() {
    assert_eq!(shuffle_seed(42, 1), 43);
    assert_eq!(shuffle_seed(u64::MAX, 2), 1);
    assert_eq!(augment_seed(42, 0), 42);
    assert_eq!(augment_seed(42, 1), 42 ^ 0x9E3779B9);
    assert_eq!(augment_seed(7, u64::MAX), 7 ^ u64::MAX.wrapping_mul(0x9E3779B9));
    assert_ne!(shuffle_seed(42, 1), shuffle_seed(42, 2));
}

#[test]
fn tally_scores_batches() {
    let batch = [
        Example { image: vec![], labels: vec![1, 2, 3] },
        Example { image: vec![], labels: vec![4, 5] },
        Example { image: vec![], labels: vec![6] },
    ];
    let mut tally = Tally::new();
    tally.record_batch(&batch, &[vec![1, 2, 3], vec![4, 6, 5], vec![]]);
    assert_eq!((tally.full_correct, tally.total), (1, 3));
    assert_eq!((tally.char_correct, tally.char_total), (4, 6));
    tally.record(&[9], &[9]);
    assert_eq!((tally.full_correct, tally.total), (2, 4));
    assert_eq!((tally.char_correct, tally.char_total), (5, 7));
}

#[test]
fn gate_keeps_the_first_best_epoch() {
    let mut gate = Gate::new();
    assert_eq!(gate.best(), None);
    let accuracies = [0.0f32, 12.5, 12.5, 3.0, 50.0, 49.99, 50.0, 100.0];
    let saved: Vec<bool> = accuracies.iter().map(|acc| gate.pass(acc.to_bits())).collect();
    assert_eq!(saved, vec![true, true, false, false, true, false, false, true]);
    assert_eq!(gate.best(), Some(100.0f32.to_bits()));
}

#[test]
fn batches_cover_the_examples() {
    assert_eq!(batches(10, 4), vec![(0, 4), (4, 8), (8, 10)]);
    assert_eq!(batches(8, 4), vec![(0, 4), (4, 8)]);
    assert_eq!(batches(3, 64), vec![(0, 3)]);
    assert_eq!(batches(3, usize::MAX), vec![(0, 3)]);
    assert!(batches(0, 4).is_empty());
}

#[test]
fn loop_trains_all_epochs_and_keeps_the_best() {
    let mut state = TrainLoop::new(3, 42);
    let mut saved = Vec::new();
    let mut epochs = Vec::new();
    let accuracies = [10.0f32, 30.0, 20.0];
    while let Step::Train { epoch, shuffle_seed, augment_seed } = state.next() {
        assert_eq!(shuffle_seed, 42 + epoch);
        assert_eq!(augment_seed, 42 ^ (epoch * 0x9E3779B9));
        epochs.push(epoch);
        if state.finish_epoch(accuracies[epoch as usize - 1].to_bits()) {
            saved.push(epoch);
        }
    }
    assert_eq!(epochs, vec![1, 2, 3]);
    assert_eq!(saved, vec![1, 2]);
    assert_eq!(state.best(), Some(30.0f32.to_bits()));
    assert_eq!(state.next(), Step::Done);
    assert_eq!(TrainLoop::new(0, 1).next(), Step::Done);
}

#[test]
fn training_lines() {
    assert_eq!(
        epoch_line(7, 30, "0.1234", "88.1", "45.00", true),
        "Epoch   7/30  loss 0.1234  val char-acc 88.1%  full-captcha 45.00% *best"
    );
    assert_eq!(
        epoch_line(12, 30, "0.1", "1.0", "2.00", false),
        "Epoch  12/30  loss 0.1  val char-acc 1.0%  full-captcha 2.00%"
    );
    assert!(epoch_line(1234, 5000, "", "", "", false).starts_with("Epoch 1234/5000  loss "));
    assert_eq!(
        done_line("45.00", "out"),
        "Done. Best validation accuracy: 45.00%. Model saved to out/model.mpk (+ model.json)"
    );
}
