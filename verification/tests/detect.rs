use capburn::canvas::ImageInfo;
use capburn::charset::Charset;
use capburn::data::{AugmentProfile, Dataset};
use capburn::detect::{
    detect_format, detect_length, format_report, is_plausible_label, parse_length_spec,
    plausible_files, recommend_augment, recommend_input_size, recommend_preprocess,
    round_up_to_multiple, sample_indices, scan_folder, scan_images, ImageScan, LengthSpec, Scan,
};
use capburn::image_ops::{InputSize, PreprocessMode};

fn strings(items: &[&str]) -> Vec<String> {
    items.iter().map(|s| s.to_string()).collect()
}

fn info(width: u32, height: u32) -> Option<ImageInfo> {
    Some(ImageInfo { width, height, sampled: 1, color: 0, ink: 0 })
}

fn scan_of(dim: (u32, u32)) -> ImageScan {
    scan_images(1, &[info(dim.0, dim.1)])
}

fn hist(considered: usize, length_mode: usize, length_hist: &[(usize, usize)]) -> Scan {
    Scan { observed: vec![], length_mode, length_hist: length_hist.to_vec(), considered }
}

#[test]
fn detects_length_mode_and_families() {
    // three length-5 labels and one length-4 → mode 5; chars: digits + cyrillic
    let stems = strings(&["12345_a", "67890_b", "1а2б3", "12ц4"]);

    let scan = scan_folder(&stems);
    assert_eq!(scan.length_mode, 5);
    assert_eq!(scan.considered, 4);

    let cs = Charset::from_observed(scan.observed.iter().copied()).unwrap();
    assert!(cs.index_of('0').is_some(), "digits present");
    assert!(cs.index_of('а').is_some(), "cyrillic present");
    assert!(cs.index_of('A').is_none(), "no latin");
}

#[test]
fn parse_length_spec_fixed_and_range() {
    assert_eq!(
        parse_length_spec("5").unwrap(),
        LengthSpec {
            min_chars: 5,
            max_chars: 5
        }
    );
    assert_eq!(
        parse_length_spec("4-7").unwrap(),
        LengthSpec {
            min_chars: 4,
            max_chars: 7
        }
    );
    assert!(parse_length_spec("0").is_err());
    assert!(parse_length_spec("7-4").is_err());
    assert!(parse_length_spec("x").is_err());
}

#[test]
fn length_spec_messages() {
    assert_eq!(parse_length_spec(" 4 - 7 ").unwrap(), LengthSpec { min_chars: 4, max_chars: 7 });
    assert_eq!(parse_length_spec("0").unwrap_err(), "length must be > 0");
    assert_eq!(parse_length_spec(" x ").unwrap_err(), "invalid length: \"x\"");
    assert_eq!(parse_length_spec("4-x").unwrap_err(), "invalid range: \"4-x\"");
    assert_eq!(parse_length_spec("-5").unwrap_err(), "invalid range: \"-5\"");
    assert_eq!(parse_length_spec("1-2-3").unwrap_err(), "invalid range: \"1-2-3\"");
    assert_eq!(
        parse_length_spec("7-4").unwrap_err(),
        "invalid range: \"7-4\" (expected MIN-MAX, 1 ≤ MIN ≤ MAX)"
    );
    assert!(parse_length_spec("0-4").is_err());
    assert_eq!(parse_length_spec("+5").unwrap().max_chars, 5);
    assert!(parse_length_spec("99999999999999999999").is_err());
}

#[test]
fn plausible_labels_are_alphanumeric() {
    assert!(is_plausible_label("abcЯ9"));
    assert!(!is_plausible_label("README"));
    assert!(!is_plausible_label("thumbs"));
    assert!(!is_plausible_label(""));
    assert!(!is_plausible_label("thumbs.db"));
    assert!(is_plausible_label("README5"));
    assert!(!is_plausible_label("a b"));
    let stems = strings(&["a.b", "12_x", "", "_", "34"]);
    assert_eq!(plausible_files(&stems), vec![1, 4]);
}

#[test]
fn stray_files_are_ignored() {
    let clean = scan_folder(&strings(&["123", "456_x"]));
    let scan = scan_folder(&strings(&["README", "123", "thumbs", "456_x", "README_old"]));
    assert_eq!(scan.considered, clean.considered);
    assert_eq!(scan.observed, clean.observed);
    assert_eq!(scan.length_hist, clean.length_hist);
    assert_eq!(scan.length_mode, 3);
    assert_eq!(plausible_files(&strings(&["README", "12", "thumbs", "34_a"])), vec![1, 3]);
}

#[test]
fn scan_collects_labels() {
    let scan = scan_folder(&strings(&["aab_1", "bc_2", "a-b", "cb", "x_x"]));
    assert_eq!(scan.considered, 4);
    assert_eq!(scan.observed, vec!['a', 'b', 'c', 'x']);
    assert_eq!(scan.length_hist, vec![(1, 1), (2, 2), (3, 1)]);
    assert_eq!(scan.length_mode, 2);
    // ties go to the smaller length
    assert_eq!(scan_folder(&strings(&["abcd", "ab"])).length_mode, 2);
    let empty = scan_folder(&[]);
    assert_eq!((empty.length_mode, empty.considered), (0, 0));
    assert!(empty.length_hist.is_empty());
}

#[test]
fn significant_lengths_make_the_range() {
    // 140 files: 7 are exactly 5%, 6 are fewer
    let scan = hist(140, 5, &[(3, 6), (4, 7), (5, 120), (6, 7)]);
    assert_eq!(detect_length(&scan), LengthSpec { min_chars: 4, max_chars: 6 });
    assert_eq!(detect_length(&hist(4, 5, &[(4, 1), (5, 3)])), LengthSpec { min_chars: 4, max_chars: 5 });
    assert_eq!(detect_length(&hist(0, 0, &[])), LengthSpec { min_chars: 0, max_chars: 0 });
    // more than twenty equally frequent lengths: none covers 5%
    let flat: Vec<(usize, usize)> = (1..=21).map(|len| (len, 2)).collect();
    assert_eq!(detect_length(&hist(42, 1, &flat)), LengthSpec { min_chars: 1, max_chars: 1 });
}

#[test]
fn format_is_detected() {
    let scan = scan_folder(&strings(&["123", "456_x"]));
    let (charset, length) = detect_format(&scan, None, None, "data").ok().unwrap();
    assert_eq!(charset.as_chars(), "0123456789");
    assert_eq!(length, LengthSpec { min_chars: 3, max_chars: 3 });
    assert_eq!(
        format_report(&scan, &charset, length),
        vec![
            "Auto-detected format from 2 files:",
            "  label lengths: 3×2",
            "  chosen: length = fixed 3, charset = 10 chars (digits)",
        ]
    );
}

#[test]
fn format_overrides_win() {
    let scan = scan_folder(&strings(&["123"]));
    let length = LengthSpec { min_chars: 4, max_chars: 7 };
    let charset = Charset::from_spec("upper").unwrap();
    let (charset, chosen) = detect_format(&scan, Some(charset), Some(length), "d").ok().unwrap();
    assert_eq!(charset.len(), 26);
    assert_eq!(chosen, length);
    assert_eq!(length.describe(), "variable 4..=7");
    assert_eq!(
        format_report(&scan, &charset, chosen)[2],
        "  chosen: length = variable 4..=7, charset = 26 chars (latin uppercase)"
    );
}

#[test]
fn undetectable_formats_are_reported() {
    let empty = scan_folder(&[]);
    assert_eq!(
        detect_format(&empty, None, None, "data/x").err().unwrap(),
        "could not auto-detect charset — set --charset manually"
    );
    let charset = Charset::from_spec("digits").unwrap();
    assert_eq!(
        detect_format(&empty, Some(charset), None, "data/x").err().unwrap(),
        "could not determine captcha length (no labeled files in data/x) — set --num-chars"
    );
    let charset = Charset::from_spec("digits").unwrap();
    assert_eq!(format_report(&empty, &charset, LengthSpec { min_chars: 1, max_chars: 1 })[1], "  label lengths:");
}

#[test]
fn samples_are_spread() {
    assert_eq!(sample_indices(0), Vec::<usize>::new());
    assert_eq!(sample_indices(3), vec![0, 1, 2]);
    assert_eq!(sample_indices(256), (0..256).collect::<Vec<usize>>());
    let many = sample_indices(1000);
    assert_eq!(many.len(), 256);
    assert_eq!((many[0], many[1], many[255]), (0, 3, 996));
    assert!(many.windows(2).all(|w| w[0] < w[1]));
}

#[test]
fn image_scan_counts_dimensions() {
    let scan = scan_images(9, &[info(120, 40), None, info(100, 50), info(100, 50), info(120, 40)]);
    assert_eq!((scan.total, scan.sampled, scan.decoded, scan.decode_failed), (9, 5, 4, 1));
    assert_eq!(scan.dim_hist, vec![((100, 50), 2), ((120, 40), 2)]);
    // ties go to the larger size
    assert_eq!((scan.mode_dim, scan.mode_dim_count), ((120, 40), 2));
    let none = scan_images(2, &[None, None]);
    assert_eq!((none.mode_dim, none.mode_dim_count), ((0, 0), 0));
}

#[test]
fn preprocess_follows_the_aspect_ratio() {
    let scan = scan_of((100, 50));
    for (ratio, mode) in [
        (1.0f32, PreprocessMode::Stretch),
        (0.67, PreprocessMode::Stretch),
        (1.5, PreprocessMode::Stretch),
        (0.66, PreprocessMode::Fit),
        (1.51, PreprocessMode::Fit),
        (0.0, PreprocessMode::Fit),
        (f32::INFINITY, PreprocessMode::Fit),
        (f32::NAN, PreprocessMode::Fit),
    ] {
        assert_eq!(recommend_preprocess(&scan, ratio.to_bits()), mode, "{ratio}");
    }
    assert_eq!(recommend_preprocess(&scan_images(0, &[]), 0), PreprocessMode::Stretch);
}

#[test]
fn input_size_is_recommended() {
    let unused = |_: usize, _: usize| -> (usize, usize) { panic!("not oversized") };
    assert_eq!(recommend_input_size(&scan_of((0, 40)), unused), InputSize::new(128, 32));
    assert_eq!(recommend_input_size(&scan_of((101, 20)), unused), InputSize::new(104, 32));
    assert_eq!(recommend_input_size(&scan_of((160, 60)), unused), InputSize::new(160, 60));
    let shrunk = recommend_input_size(&scan_of((1000, 500)), |w, h| {
        assert_eq!((w, h), (1000, 500));
        (255, 128)
    });
    assert_eq!(shrunk, InputSize::new(256, 128));
    // whatever comes back is capped and usable
    assert_eq!(recommend_input_size(&scan_of((1000, 500)), |_, _| (usize::MAX, usize::MAX)), InputSize::new(512, 256));
    assert_eq!(recommend_input_size(&scan_of((1000, 500)), |_, _| (0, 0)), InputSize::new(32, 32));
}

#[test]
fn small_recommendations() {
    assert_eq!(round_up_to_multiple(0, 4), 0);
    assert_eq!(round_up_to_multiple(1, 4), 4);
    assert_eq!(round_up_to_multiple(8, 4), 8);
    assert_eq!(round_up_to_multiple(usize::MAX - 1, 2), usize::MAX - 1);
    assert_eq!(recommend_augment(), AugmentProfile::Medium);
}

#[test]
fn image_scan_is_told() {
    let scan = scan_images(4, &[info(120, 40), None, info(100, 50), info(120, 40)]);
    assert_eq!(
        scan.line("2.67", "1.5", "20.0"),
        "Image scan: sampled 4/4, 3 decoded, 1 decode failed, dims: 100x50×1 120x40×2, mode 120x40×2, aspect 2.67, color 1.5%, ink 20.0%"
    );
    let many: Vec<Option<ImageInfo>> = (1..=6).map(|w| info(w, 1)).collect();
    let line = scan_images(6, &many).line("a", "c", "i");
    assert_eq!(
        line,
        "Image scan: sampled 6/6, 6 decoded, dims: 1x1×1 2x1×1 3x1×1 4x1×1 5x1×1 …, mode 6x1×1, aspect a, color c%, ink i%"
    );
    let none = scan_images(0, &[]).line("a", "c", "i");
    assert_eq!(
        none,
        "Image scan: sampled 0/0, 0 decoded, dims:, mode 0x0×0, aspect a, color c%, ink i%"
    );
}

#[test]
fn many_decode_failures_are_warned_about() {
    let mut inspected = vec![info(1, 1); 19];
    inspected.push(None);
    // exactly 5% is no cause for a warning
    assert_eq!(scan_images(20, &inspected).warning("5.0"), None);
    inspected.pop();
    inspected.pop();
    inspected.push(None);
    assert_eq!(
        scan_images(19, &inspected).warning("5.3").unwrap(),
        "Warning: 5.3% of sampled images failed to decode; training will skip bad files"
    );
    assert_eq!(scan_images(0, &[]).warning("0.0"), None);
}

#[test]
fn detected_format_fits_the_dataset() {
    let stems = strings(&["12аб_x", "7я0Z", "абвг", "q1"]);
    let scan = scan_folder(&stems);
    let (charset, length) = detect_format(&scan, None, None, "d").ok().unwrap();
    assert_eq!(length, LengthSpec { min_chars: 2, max_chars: 4 });
    let selection = Dataset::select(&stems, &charset, length.min_chars, length.max_chars);
    assert_eq!(selection.picks.len(), 4);
    assert_eq!(selection.skipped, 0);
}
