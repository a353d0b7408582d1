use capburn::charset::Charset;
use capburn::data::{
    build_images, build_targets, label_from_stem, skip_note, AugmentProfile, Dataset, Example,
};

fn strings(items: &[&str]) -> Vec<String> {
    items.iter().map(|s| s.to_string()).collect()
}

fn numbered(n: usize) -> Dataset {
    Dataset::new((0..n).map(|i| Example { image: vec![i as u8], labels: vec![i] }).collect())
}

fn order(dataset: &Dataset) -> Vec<usize> {
    dataset.examples().iter().map(|e| e.labels[0]).collect()
}

#[test]
fn label_before_underscore() {
    assert_eq!(label_from_stem("12345"), "12345");
    assert_eq!(label_from_stem("12345_a1b2c3"), "12345");
    assert_eq!(label_from_stem("абв_hash"), "абв");
    assert_eq!(label_from_stem("_x"), "");
}

#[test]
fn selection_filters_and_counts() {
    let cs = Charset::from_spec("digits").unwrap();
    let stems = strings(&["123_a", "12", "12345", "12x4", "0000", "_1", "9999_b_c"]);
    let selection = Dataset::select(&stems, &cs, 3, 4);
    let picked: Vec<usize> = selection.picks.iter().map(|p| p.index).collect();
    assert_eq!(picked, vec![0, 4, 6]);
    assert_eq!(selection.picks[0].labels, vec![1, 2, 3]);
    assert_eq!(selection.picks[2].labels, vec![9, 9, 9, 9]);
    assert_eq!(selection.skipped, 4);
    assert_eq!(
        skip_note(4, 3, 4).unwrap(),
        "Skipped 4 files (label length outside 3..=4 or a character outside the charset)"
    );
    assert_eq!(skip_note(0, 3, 4), None);
}

#[test]
fn shuffle_is_seeded() {
    let mut a = numbered(100);
    let mut b = numbered(100);
    let mut c = numbered(100);
    a.shuffle(42);
    b.shuffle(42);
    c.shuffle(43);
    assert_eq!(order(&a), order(&b));
    assert_ne!(order(&a), order(&c));
    assert_ne!(order(&a), (0..100).collect::<Vec<usize>>());
    let mut sorted = order(&a);
    sorted.sort();
    assert_eq!(sorted, (0..100).collect::<Vec<usize>>());
    // the image moves with its label
    assert!(a.examples().iter().all(|e| e.image[0] as usize == e.labels[0]));
}

#[test]
fn shuffle_of_few() {
    let mut none = numbered(0);
    none.shuffle(1);
    assert!(none.is_empty());
    let mut one = numbered(1);
    one.shuffle(1);
    assert_eq!(order(&one), vec![0]);
}

#[test]
fn split_keeps_order() {
    let (train, valid) = numbered(10).split(9);
    assert_eq!(order(&train), (0..9).collect::<Vec<usize>>());
    assert_eq!(order(&valid), vec![9]);
    let (train, valid) = numbered(3).split(7);
    assert_eq!((train.len(), valid.len()), (3, 0));
    let (train, valid) = numbered(3).split(0);
    assert_eq!((train.len(), valid.len()), (0, 3));
}

#[test]
fn clone_has_the_same_examples() {
    let dataset = numbered(4);
    let mut copy = dataset.clone();
    copy.shuffle(5);
    assert_eq!(order(&dataset), vec![0, 1, 2, 3]);
    assert_eq!(copy.len(), 4);
}

#[test]
fn batch_images_are_concatenated() {
    let batch = [
        Example { image: vec![1, 2], labels: vec![] },
        Example { image: vec![3], labels: vec![] },
    ];
    assert_eq!(build_images(&batch), vec![1, 2, 3]);
    assert!(build_images(&[]).is_empty());
}

#[test]
fn targets_are_padded() {
    let batch = [
        Example { image: vec![], labels: vec![4, 5] },
        Example { image: vec![], labels: vec![] },
        Example { image: vec![], labels: vec![7, 8, 9] },
    ];
    let targets = build_targets(&batch);
    assert_eq!(targets.width, 3);
    assert_eq!(targets.classes, vec![4, 5, 0, 0, 0, 0, 7, 8, 9]);
    assert_eq!(targets.lengths, vec![2, 0, 3]);
    let empty = build_targets(&[]);
    assert_eq!((empty.width, empty.classes.len(), empty.lengths.len()), (1, 0, 0));
}

#[test]
fn augment_names() {
    for profile in [AugmentProfile::Light, AugmentProfile::Medium, AugmentProfile::Strong] {
        assert_eq!(AugmentProfile::parse(profile.as_str()), Ok(profile));
    }
    assert_eq!(AugmentProfile::parse("STRONG"), Ok(AugmentProfile::Strong));
    assert_eq!(
        AugmentProfile::parse("Max").unwrap_err(),
        "unknown augment \"max\" (expected 'light', 'medium' or 'strong')"
    );
}

#[test]
fn undecodable_images_are_left_out() {
    let mut dataset = Dataset::new(Vec::new());
    assert!(dataset.load(vec![1], Some(vec![7])));
    assert!(!dataset.load(vec![2], None));
    assert!(dataset.load(vec![3], Some(vec![8])));
    assert_eq!(order(&dataset), vec![1, 3]);
    assert_eq!(build_images(dataset.examples()), vec![7, 8]);
}
