use capburn::counts::{format_counts, format_top_counts, rank_rows, Counts};
use capburn::eval::{
    ensure_positions, label_for_path, labelled_files, load_validation_split, planned_files,
    progress_line, EvalStats, Percents,
};
use capburn::charset::Charset;
use capburn::data::{Dataset, Example};
use capburn::score::{matched_chars, matched_classes};

fn strings(items: &[&str]) -> Vec<String> {
    items.iter().map(|s| s.to_string()).collect()
}

fn record(stats: &mut EvalStats, label: &str, pred: &str, in_valid: bool) {
    let label: Vec<char> = label.chars().collect();
    let pred: Vec<char> = pred.chars().collect();
    assert!(stats.has_room(label.len(), pred.len()));
    stats.record(&label, &pred, in_valid);
}

#[test]
fn evaluation_counts() {
    let mut stats = EvalStats::new();
    record(&mut stats, "123", "123", true);
    record(&mut stats, "123", "143", false);
    record(&mut stats, "12", "143", true);
    record(&mut stats, "4321", "4", false);
    let all = stats.all();
    assert_eq!((all.total, all.full_correct), (4, 1));
    assert_eq!((all.char_correct, all.char_total), (3 + 2 + 1 + 1, 3 + 3 + 3 + 4));
    let valid = stats.valid();
    assert_eq!((valid.total, valid.full_correct), (2, 1));
    assert_eq!((valid.char_correct, valid.char_total), (4, 6));
    assert_eq!(stats.length_mismatch(), 2);
    assert_eq!(format_counts(stats.pred_lengths()), "1×1 3×3");
    assert_eq!(format_counts(stats.label_chars()), "1×4 2×4 3×3 4×1");
    assert_eq!(format_counts(stats.pred_chars()), "1×3 2×1 3×3 4×3");
}

#[test]
fn evaluation_by_position() {
    let mut stats = EvalStats::new();
    assert_eq!(stats.positions(), 0);
    record(&mut stats, "12", "12", false);
    record(&mut stats, "127", "137", false);
    record(&mut stats, "127", "149", false);
    record(&mut stats, "12789", "1", false);
    assert_eq!(stats.positions(), 3);
    let (right, total, confusions) = stats.position(0);
    assert_eq!((right, total), (3, 3));
    assert_eq!(format_top_counts(confusions, 10), "-");
    let (right, total, confusions) = stats.position(1);
    assert_eq!((right, total), (1, 3));
    assert_eq!(format_top_counts(confusions, 10), "2->3×1, 2->4×1");
    assert_eq!(format_top_counts(confusions, 1), "2->3×1");
    let (right, total, confusions) = stats.position(2);
    assert_eq!((right, total), (1, 2));
    assert_eq!(confusions, &[(('7', '9'), 1)]);
}

#[test]
fn failures_are_told_five_times() {
    let mut stats = EvalStats::new();
    let told: Vec<bool> = (0..7).map(|_| stats.record_failure()).collect();
    assert_eq!(told, vec![true, true, true, true, true, false, false]);
    assert_eq!(stats.decode_failed(), 7);
    assert_eq!(stats.all().total, 0);
    assert!(!stats.has_room(usize::MAX, 1));
}

#[test]
fn positions_grow() {
    let mut correct = vec![3];
    let mut total = vec![4];
    let mut confusions = vec![Counts::<(char, char)>::new()];
    confusions[0].add(('a', 'b'));
    ensure_positions(&mut correct, &mut total, &mut confusions, 3);
    assert_eq!(correct, vec![3, 0, 0]);
    assert_eq!(total, vec![4, 0, 0]);
    assert_eq!(confusions[0].as_slice(), &[(('a', 'b'), 1)]);
    assert!(confusions[2].as_slice().is_empty());
    ensure_positions(&mut correct, &mut total, &mut confusions, 1);
    assert_eq!(correct.len(), 3);
}

#[test]
fn tables_are_sorted() {
    let mut counts = Counts::<usize>::new();
    for key in [10, 9, 100, 9, 10, 9] {
        counts.add(key);
    }
    assert_eq!(counts.as_slice(), &[(9, 3), (10, 2), (100, 1)]);
    assert_eq!(format_counts(counts.as_slice()), "9×3 10×2 100×1");
    assert_eq!(format_counts::<char>(&[]), "");
    let mut dims = Counts::<(u32, u32)>::new();
    dims.add((120, 40));
    dims.add((90, 200));
    assert_eq!(format_counts(&dims.into_rows()), "90x200×1 120x40×1");
}

#[test]
fn tables_do_not_depend_on_the_order_of_counting() {
    let mut a = Counts::<char>::new();
    let mut b = Counts::<char>::new();
    for c in "banana".chars() {
        a.add(c);
    }
    for c in "banana".chars().rev() {
        b.add(c);
    }
    assert_eq!(a.as_slice(), b.as_slice());
    assert_eq!(format_counts(a.as_slice()), "a×3 b×1 n×2");
}

#[test]
fn rankings_put_high_counts_first() {
    let mut counts = Counts::<(char, char)>::new();
    for (expected, actual) in [('b', 'a'), ('a', 'z'), ('a', 'c'), ('b', 'a'), ('я', 'a')] {
        counts.add((expected, actual));
    }
    assert_eq!(
        rank_rows(counts.as_slice()),
        vec![(('b', 'a'), 2), (('a', 'c'), 1), (('a', 'z'), 1), (('я', 'a'), 1)]
    );
    assert_eq!(format_top_counts(counts.as_slice(), 2), "b->a×2, a->c×1");
    assert_eq!(format_top_counts(counts.as_slice(), 0), "-");
}

#[test]
fn matches_are_positional() {
    assert_eq!(matched_chars(&['a', 'b'], &['a', 'c', 'b']), 1);
    assert_eq!(matched_classes(&[1, 2, 3], &[1, 2, 3]), 3);
    assert_eq!(matched_classes(&[], &[1]), 0);
}

#[test]
fn files_with_labels_are_evaluated() {
    let stems = strings(&["12_a", "_b", "", "x.y", "3"]);
    assert_eq!(labelled_files(&stems), vec![0, 3, 4]);
    assert_eq!(planned_files(3, None), 3);
    assert_eq!(planned_files(3, Some(2)), 2);
    assert_eq!(planned_files(3, Some(9)), 3);
    assert_eq!(label_for_path("12_a"), "12");
}

#[test]
fn progress_is_told_now_and_then() {
    assert_eq!(
        progress_line(200, 250, 100, 190, "93.16").unwrap(),
        "Eval progress: 200/250 files, usable 190, full 93.16%"
    );
    assert!(progress_line(7, 9, 1, 7, "0.00").is_some());
    assert!(progress_line(150, 250, 100, 1, "").is_none());
    assert!(progress_line(0, 250, 100, 1, "").is_none());
    assert!(progress_line(5, 250, 0, 1, "").is_none());
}

fn percents(positions: usize) -> Percents {
    Percents {
        full: "33.33".into(),
        chars: "70.00".into(),
        valid_full: "0.00".into(),
        valid_chars: "50.00".into(),
        positions: (0..positions).map(|p| format!("{p}.50")).collect(),
    }
}

#[test]
fn report_of_an_evaluation() {
    let mut stats = EvalStats::new();
    record(&mut stats, "ab", "ab", false);
    record(&mut stats, "ab", "ac", true);
    record(&mut stats, "ab", "a", false);
    assert!(stats.record_failure());
    assert_eq!(
        stats.report(&percents(2), 3, Some(4), "art"),
        vec![
            "Evaluated: 3 examples",
            "Skipped decode failures: 1",
            "Full-captcha accuracy: 33.33%",
            "Character accuracy: 70.00%",
            "Held-out (training validation split, 1/4 files): full-captcha 0.00%, char 50.00%",
            "  note: decode failures can shift the reconstructed split — treat as approximate",
            "Prediction lengths: 1×1 2×2",
            "Label chars: a×3 b×3",
            "Pred chars:  a×3 b×1 c×1",
            "Length mismatches: 1 (excluded from per-position stats below)",
            "Position accuracy:",
            "  pos 1: 0.50%  top errors: -",
            "  pos 2: 1.50%  top errors: b->c×1",
        ]
    );
}

#[test]
fn report_without_held_out_files() {
    let mut stats = EvalStats::new();
    record(&mut stats, "a", "a", false);
    let lines = stats.report(&percents(1), 3, Some(4), "art");
    assert_eq!(lines[3], "Held-out: no validation-split files were evaluated (raise --limit)");
    assert_eq!(lines.len(), 9);
    let lines = stats.report(&percents(1), 3, None, "art");
    assert_eq!(
        lines[3],
        "Held-out: cannot reconstruct the training split (no readable config.json in art)"
    );
}

#[test]
fn validation_split_replays_training() {
    let stems: Vec<String> = (0..40).map(|i| format!("{:03}_{i}", i * 7)).collect();
    let mut names = stems.clone();
    names.push("12".to_string());
    names.push("12x".to_string());
    let cs = Charset::from_spec("digits").unwrap();

    // what the training run does
    let selection = Dataset::select(&names, &cs, 3, 3);
    assert_eq!(selection.skipped, 2);
    let examples = selection
        .picks
        .iter()
        .map(|p| Example { image: vec![p.index as u8], labels: p.labels.clone() })
        .collect();
    let mut dataset = Dataset::new(examples);
    dataset.shuffle(42);
    let (train, valid) = dataset.split(36);
    let validated: Vec<usize> = valid.examples().iter().map(|e| e.image[0] as usize).collect();

    let held_out = load_validation_split(&names, "0123456789", 3, 3, 42, |n| {
        assert_eq!(n, 40);
        36
    })
    .unwrap();
    assert_eq!(held_out, validated);
    assert_eq!(held_out.len(), 4);
    // no file is both trained on and held out
    assert!(train.examples().iter().all(|e| !held_out.contains(&(e.image[0] as usize))));
}

#[test]
fn validation_split_of_few_files() {
    // nine tenths of two to five files round to all of them: none is held out
    for n in 2..=5 {
        let stems: Vec<String> = (10..10 + n).map(|i| format!("{i}")).collect();
        let share = |len: usize| ((len as f32) * 0.9).round() as usize;
        assert_eq!(share(n), n);
        let held_out = load_validation_split(&stems, "0123456789", 2, 2, 1, share).unwrap();
        assert!(held_out.is_empty());

        let examples = (0..n).map(|i| Example { image: vec![], labels: vec![i] }).collect();
        let mut dataset = Dataset::new(examples);
        dataset.shuffle(1);
        let (train, valid) = dataset.split(share(n));
        assert_eq!((train.len(), valid.len()), (n, 0));
    }
    let stems = strings(&["12", "34"]);
    assert_eq!(load_validation_split(&stems, "01234", 2, 2, 1, |_| 1).unwrap().len(), 1);
    assert_eq!(load_validation_split(&stems, "01234", 2, 2, 1, |_| 0).unwrap().len(), 2);
    assert_eq!(load_validation_split(&stems, "01234", 2, 2, 1, |_| 9).unwrap().len(), 0);
    assert_eq!(load_validation_split(&stems, "012", 2, 2, 1, |n| n), None);
}
