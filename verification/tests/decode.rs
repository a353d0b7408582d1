use capburn::charset::Charset;
use capburn::data::encode_label;
use capburn::decode::{fixed_decode_indices, greedy_decode_indices};
use capburn::inference::{render, Recognizer};
use capburn::model::StoredModelConfig;

fn recognizer(charset: &str, arch: &str) -> Recognizer {
    let stored = StoredModelConfig {
        charset: charset.to_string(),
        num_chars: 5,
        arch: Some(arch.to_string()),
        preprocess: None,
        input_width: None,
        input_height: None,
        dropout: None,
        version: None,
    };
    Recognizer::load("model.json", stored).ok().unwrap().0
}

#[test]
fn ctc_collapses_repeats_and_drops_blanks() {
    // one example, blank = 9
    let steps = [9, 1, 1, 9, 1, 2, 2, 9, 9, 3];
    assert_eq!(greedy_decode_indices(&steps, 10, 1, 9), vec![vec![1, 1, 2, 3]]);
}

#[test]
fn ctc_reads_time_major() {
    // two examples, three steps: (1, 2), (1, 9), (2, 2)
    let flat = [1, 2, 1, 9, 2, 2];
    assert_eq!(greedy_decode_indices(&flat, 3, 2, 9), vec![vec![1, 2], vec![2, 2]]);
}

#[test]
fn ctc_of_nothing() {
    assert_eq!(greedy_decode_indices(&[], 0, 2, 9), vec![Vec::<usize>::new(), Vec::new()]);
    assert!(greedy_decode_indices(&[], 3, 0, 9).is_empty());
    assert_eq!(greedy_decode_indices(&[4, 4, 4], 3, 1, 4), vec![Vec::<usize>::new()]);
}

#[test]
fn ctc_ignores_duration_and_trailing_blanks() {
    let short = greedy_decode_indices(&[0, 9, 0, 5], 4, 1, 9);
    let long = greedy_decode_indices(&[0, 0, 0, 9, 9, 0, 5, 5, 9, 9], 10, 1, 9);
    assert_eq!(short, long);
    assert_eq!(short, vec![vec![0, 0, 5]]);
}

#[test]
fn ctc_worst_case_label_takes_two_steps_per_character() {
    // "00000" in 2 * 5 - 1 steps; in 5 steps it would collapse
    let steps = [0, 9, 0, 9, 0, 9, 0, 9, 0];
    assert_eq!(greedy_decode_indices(&steps, 9, 1, 9), vec![vec![0; 5]]);
    assert_eq!(greedy_decode_indices(&[0; 5], 5, 1, 9), vec![vec![0]]);
}

#[test]
fn fixed_cuts_rows() {
    let flat = [1, 2, 3, 4, 5, 6];
    assert_eq!(fixed_decode_indices(&flat, 2, 3), vec![vec![1, 2, 3], vec![4, 5, 6]]);
    assert_eq!(fixed_decode_indices(&flat, 3, 2), vec![vec![1, 2], vec![3, 4], vec![5, 6]]);
    assert_eq!(fixed_decode_indices(&[], 2, 0), vec![Vec::<usize>::new(), Vec::new()]);
}

#[test]
fn recognizer_reads_classes() {
    let fixed = recognizer("0123456789", "fixed");
    assert_eq!(fixed.read_classes(&[0, 0, 0, 7, 5]), "00075");
    // a class outside the charset is dropped
    assert_eq!(fixed.read_classes(&[0, 10, 1]), "01");
    let ctc = recognizer("0123456789", "ctc");
    assert_eq!(ctc.read_classes(&[10, 0, 10, 0, 0, 7, 7, 10]), "007");
    assert_eq!(ctc.read_classes(&[]), "");
}

#[test]
fn labels_read_back() {
    let cs = Charset::from_spec("cyrillic+digits").unwrap();
    for text in ["00075", "ёж12", ""] {
        let label: Vec<char> = text.chars().collect();
        let classes = encode_label(&cs, &label).unwrap();
        assert_eq!(classes.len(), label.len());
        assert_eq!(render(&cs, &classes), text);
    }
    assert_eq!(encode_label(&cs, &['1', 'z']), None);
}
