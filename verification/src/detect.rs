//! Auto-detect the captcha format from a dataset: labels, image geometry and
//! conservative training defaults.

use crate::canvas::ImageInfo;
use crate::charset::{append_new, Charset};
use crate::counts::{format_counts, show_row, CountKey, Counts};
use crate::data::{label_from_stem, AugmentProfile};
use crate::image_ops::{InputSize, PreprocessMode, IMG_HEIGHT, IMG_WIDTH};
use crate::text::{
    chars_of, debug_str, find_char, is_text, parse_number, show_usize, slice_of, string_of,
    trimmed,
};
use vstd::prelude::*;
use vstd::string::StringExecFns;

#[allow(unused_imports)]
use crate::charset::{
    dedup, family_names, law_dedup_members, law_family_is_whole, lemma_dedup_onto_append,
    observed_chars, same_family, CYRILLIC_LOWER, CYRILLIC_UPPER, DIGITS, LATIN_LOWER, LATIN_UPPER,
};
#[allow(unused_imports)]
use crate::counts::{
    count_in, law_table_lists_what_occurs, lemma_occurrences_bound, lemma_tally_grows, occurrences,
    row_text, row_texts, tallies,
};
#[allow(unused_imports)]
use crate::data::{is_usable, label_of};
#[allow(unused_imports)]
use crate::image_ops::size_is_usable;
#[allow(unused_imports)]
use crate::text::{
    decimal, first_index, join, lemma_decimal_reads_back, lemma_first_index,
    lemma_first_index_unique, lemma_number_range, lemma_trim_keeps, number, str_debug, texts, trim,
};

verus! {

// ---------------------------------------------------------------------------
// Labels
// ---------------------------------------------------------------------------
/// Whether a character is a letter or a number.
pub uninterp spec fn is_letter_or_number(c: char) -> bool;

/// `char::is_alphanumeric` depends on the character alone; which characters are
/// letters or numbers is left to the Unicode tables of std.
pub assume_specification[ char::is_alphanumeric ](c: char) -> (r: bool)
    ensures
        r == is_letter_or_number(c),
;

/// Stem of the notes that lie in many folders.
pub const README_STEM: &'static str = "README";

/// Stem of `thumbs.db`, a cache that file managers leave behind.
pub const THUMBS_STEM: &'static str = "thumbs";

/// Whether a label is that of a file which lies in many folders and is no
/// captcha.
pub open spec fn is_stray(label: Seq<char>) -> bool {
    label == README_STEM@ || label == THUMBS_STEM@
}

/// Whether a label is "plausible": non-empty, consisting of letters/digits only,
/// and not that of a stray file.
pub open spec fn plausible(label: Seq<char>) -> bool {
    &&& label.len() > 0
    &&& forall|i: int| 0 <= i < label.len() ==> is_letter_or_number(#[trigger] label[i])
    &&& !is_stray(label)
}

/// A label is plausible exactly when it is not empty, all of its characters are
/// letters or numbers, and it is neither `README` nor `thumbs`, in just this
/// spelling.
pub proof fn law_plausible_is_letters_and_numbers(label: Seq<char>)
    ensures
        plausible(label) <==> label.len() > 0 && (forall|i: int|
            0 <= i < label.len() ==> is_letter_or_number(#[trigger] label[i])) && label != "README"@
            && label != "thumbs"@,
        is_stray(label) <==> label == "README"@ || label == "thumbs"@,
{
}

/// Whether a label is "plausible": non-empty and consisting of letters/digits
/// only (skips files like `README`, `thumbs.db`, hashes with symbols).
pub fn is_plausible_label(label: &str) -> (r: bool)
    ensures
        r == plausible(label@),
{
    let chars = chars_of(label);
    let n: usize = chars.len();
    if n == 0 || is_text(&chars, README_STEM) || is_text(&chars, THUMBS_STEM) {
        return false;
    }
    for i in 0..n
        invariant
            n == chars@.len(),
            chars@ == label@,
            forall|j: int| 0 <= j < i ==> is_letter_or_number(#[trigger] chars@[j]),
    {
        if !chars[i].is_alphanumeric() {
            assert(!is_letter_or_number(label@[i as int]));
            return false;
        }
    }
    true
}

/// The plausible labels among file stems, in order.
pub open spec fn plausible_labels(stems: Seq<Seq<char>>) -> Seq<Seq<char>>
    decreases stems.len(),
{
    if stems.len() == 0 {
        Seq::empty()
    } else {
        let before = plausible_labels(stems.drop_last());
        if plausible(label_of(stems.last())) {
            before.push(label_of(stems.last()))
        } else {
            before
        }
    }
}

/// Files are looked at one by one: a file with a plausible label adds that label
/// at the end, and any other file adds nothing.
pub proof fn law_plausible_labels_are_by_file(
    a: Seq<Seq<char>>,
    b: Seq<Seq<char>>,
    stem: Seq<char>,
)
    ensures
        plausible_labels(a + b) == plausible_labels(a) + plausible_labels(b),
        plausible(label_of(stem)) ==> plausible_labels(seq![stem]) == seq![label_of(stem)],
        !plausible(label_of(stem)) ==> plausible_labels(seq![stem]) == Seq::<Seq<char>>::empty(),
        plausible_labels(Seq::<Seq<char>>::empty()) == Seq::<Seq<char>>::empty(),
    decreases b.len(),
{
    let one = seq![stem];
    assert(one.drop_last() =~= Seq::empty());
    assert(plausible_labels(one.drop_last()) =~= Seq::empty());
    assert(one.last() == stem);
    assert(Seq::<Seq<char>>::empty().push(label_of(stem)) =~= seq![label_of(stem)]);
    if b.len() == 0 {
        assert(a + b =~= a);
        assert(plausible_labels(a) + plausible_labels(b) =~= plausible_labels(a));
    } else {
        law_plausible_labels_are_by_file(a, b.drop_last(), stem);
        assert((a + b).drop_last() =~= a + b.drop_last());
        assert((a + b).last() == b.last());
        assert(plausible_labels(a + b) =~= plausible_labels(a) + plausible_labels(b));
    }
}

/// The characters of all labels, one label after the other.
pub open spec fn label_chars(labels: Seq<Seq<char>>) -> Seq<char>
    decreases labels.len(),
{
    if labels.len() == 0 {
        Seq::empty()
    } else {
        label_chars(labels.drop_last()) + labels.last()
    }
}

/// The lengths of labels.
pub open spec fn label_lengths(labels: Seq<Seq<char>>) -> Seq<usize> {
    Seq::new(labels.len(), |i: int| labels[i].len() as usize)
}

/// Each label adds all of its characters, in order, and its length.
pub proof fn law_labels_are_taken_whole(labels: Seq<Seq<char>>, label: Seq<char>)
    requires
        label.len() <= usize::MAX,
    ensures
        label_chars(labels.push(label)) == label_chars(labels) + label,
        label_lengths(labels.push(label)) == label_lengths(labels).push(label.len() as usize),
        label_chars(Seq::<Seq<char>>::empty()) == Seq::<char>::empty(),
        label_lengths(Seq::<Seq<char>>::empty()) == Seq::<usize>::empty(),
{
    assert(labels.push(label).drop_last() =~= labels);
    assert(label_lengths(labels.push(label)) =~= label_lengths(labels).push(label.len() as usize));
    assert(label_lengths(Seq::<Seq<char>>::empty()) =~= Seq::empty());
}

/// Position of the row with the highest count, the first of several.
pub open spec fn first_mode<K>(rows: Seq<(K, usize)>) -> int
    decreases rows.len(),
{
    if rows.len() <= 1 {
        0
    } else {
        let m = first_mode(rows.drop_last());
        if rows.last().1 > rows[m].1 {
            rows.len() - 1
        } else {
            m
        }
    }
}

/// Position of the row with the highest count, the last of several.
pub open spec fn last_mode<K>(rows: Seq<(K, usize)>) -> int
    decreases rows.len(),
{
    if rows.len() <= 1 {
        0
    } else {
        let m = last_mode(rows.drop_last());
        if rows.last().1 >= rows[m].1 {
            rows.len() - 1
        } else {
            m
        }
    }
}

/// No row has a higher count than the mode. On a tie the label length is the
/// smallest and the image size the largest.
pub proof fn law_mode_is_most_frequent<K>(rows: Seq<(K, usize)>, i: int)
    requires
        0 <= i < rows.len(),
    ensures
        0 <= first_mode(rows) < rows.len(),
        rows[i].1 <= rows[first_mode(rows)].1,
        i < first_mode(rows) ==> rows[i].1 < rows[first_mode(rows)].1,
        0 <= last_mode(rows) < rows.len(),
        rows[i].1 <= rows[last_mode(rows)].1,
        i > last_mode(rows) ==> rows[i].1 < rows[last_mode(rows)].1,
    decreases rows.len(),
{
    if rows.len() > 1 {
        let shorter = rows.drop_last();
        if i < shorter.len() {
            law_mode_is_most_frequent(shorter, i);
        } else {
            law_mode_is_most_frequent(shorter, 0);
        }
    }
}

fn find_first_mode<K: CountKey>(rows: &[(K, usize)]) -> (r: usize)
    requires
        rows@.len() > 0,
    ensures
        r == first_mode(rows@),
        r < rows@.len(),
{
    let n: usize = rows.len();
    let mut m: usize = 0;
    for i in 1..n
        invariant
            n == rows@.len(),
            m < i,
            1 <= i <= n,
            m == first_mode(rows@.take(i as int)),
    {
        proof {
            let next = rows@.take(i + 1);
            assert(next.drop_last() =~= rows@.take(i as int));
            assert(next[m as int] == rows@[m as int]);
        }
        if rows[i].1 > rows[m].1 {
            m = i;
        }
    }
    assert(rows@.take(n as int) =~= rows@);
    m
}

fn find_last_mode<K: CountKey>(rows: &[(K, usize)]) -> (r: usize)
    requires
        rows@.len() > 0,
    ensures
        r == last_mode(rows@),
        r < rows@.len(),
{
    let n: usize = rows.len();
    let mut m: usize = 0;
    for i in 1..n
        invariant
            n == rows@.len(),
            m < i,
            1 <= i <= n,
            m == last_mode(rows@.take(i as int)),
    {
        proof {
            let next = rows@.take(i + 1);
            assert(next.drop_last() =~= rows@.take(i as int));
            assert(next[m as int] == rows@[m as int]);
        }
        if rows[i].1 >= rows[m].1 {
            m = i;
        }
    }
    assert(rows@.take(n as int) =~= rows@);
    m
}

/// Result of scanning a dataset folder.
pub struct Scan {
    /// All unique characters seen in "plausible" labels.
    pub observed: Vec<char>,
    /// Most frequent label length (mode) — the `num_chars` candidate.
    pub length_mode: usize,
    /// Label length distribution: length → number of files.
    pub length_hist: Vec<(usize, usize)>,
    /// How many files were analyzed.
    pub considered: usize,
}

/// Whether a scan holds the statistics of labels: the characters by first
/// appearance, the number of labels of each length by ascending length, and the
/// most frequent length, the smallest of several (0 if there are no labels).
pub open spec fn is_scan(scan: Scan, labels: Seq<Seq<char>>) -> bool {
    &&& scan.considered == labels.len()
    &&& scan.observed@ == dedup(label_chars(labels))
    &&& tallies(scan.length_hist@, label_lengths(labels))
    &&& scan.length_mode == if scan.length_hist@.len() == 0 {
        0
    } else {
        scan.length_hist@[first_mode(scan.length_hist@)].0
    }
}

/// What a scan of labels holds: how many labels there are, their characters by
/// first appearance, how often each length occurs, and the length that occurs
/// most often, the smallest of several.
pub proof fn law_scan_describes_labels(scan: Scan, labels: Seq<Seq<char>>, i: int)
    ensures
        is_scan(scan, labels) <==> scan.considered == labels.len() && scan.observed@ == dedup(
            label_chars(labels),
        ) && tallies(scan.length_hist@, label_lengths(labels)) && scan.length_mode == if (
        scan.length_hist@.len() == 0) {
            0
        } else {
            scan.length_hist@[first_mode(scan.length_hist@)].0
        },
        is_scan(scan, labels) && 0 <= i < labels.len() && (forall|k: int|
            0 <= k < labels.len() ==> (#[trigger] labels[k]).len() <= usize::MAX) ==> occurrences(
            label_lengths(labels),
            labels[i].len() as usize,
        ) <= occurrences(label_lengths(labels), scan.length_mode),
{
    let lengths = label_lengths(labels);
    let rows = scan.length_hist@;
    if is_scan(scan, labels) && 0 <= i < labels.len() {
        law_table_lists_what_occurs(rows, lengths);
        let len = lengths[i];
        assert(lengths.contains(len));
        let k = choose|k: int| 0 <= k < rows.len() && (#[trigger] rows[k]).0 == len;
        law_mode_is_most_frequent(rows, k);
        let m = first_mode(rows);
        assert(rows[m].1 == occurrences(lengths, rows[m].0));
        assert(rows[k].1 == occurrences(lengths, rows[k].0));
    }
}

/// Collect statistics about labels from the file stems of a folder.
pub fn scan_folder(stems: &[String]) -> (r: Scan)
    ensures
        is_scan(r, plausible_labels(texts(stems@))),
{
    let n: usize = stems.len();
    let ghost all = texts(stems@);
    let mut observed: Vec<char> = Vec::new();
    let mut lengths: Counts<usize> = Counts::new();
    let mut considered: usize = 0;
    assert(all.take(0) =~= Seq::empty());
    assert(label_lengths(plausible_labels(all.take(0))) =~= Seq::empty());
    for i in 0..n
        invariant
            n == stems@.len(),
            all == texts(stems@),
            considered <= i,
            considered == plausible_labels(all.take(i as int)).len(),
            observed@.no_duplicates(),
            observed@ == dedup(label_chars(plausible_labels(all.take(i as int)))),
            tallies(lengths.rows(), label_lengths(plausible_labels(all.take(i as int)))),
    {
        let ghost labels = plausible_labels(all.take(i as int));
        proof {
            let next = all.take(i + 1);
            assert(next.drop_last() =~= all.take(i as int));
            assert(next.last() == stems@[i as int]@);
        }
        let label = label_from_stem(stems[i].as_str());
        if is_plausible_label(label) {
            let chars = chars_of(label);
            let ghost more = labels.push(chars@);
            let ghost rows = lengths.rows();
            let len: usize = chars.len();
            proof {
                assert(more.drop_last() =~= labels);
                assert(label_lengths(more) =~= label_lengths(labels).push(len));
                assert(count_in(rows, len) == occurrences(label_lengths(labels), len));
                lemma_occurrences_bound(label_lengths(labels), len);
                lemma_dedup_onto_append(Seq::empty(), label_chars(labels), chars@);
            }
            considered = considered + 1;
            lengths.add(len);
            append_new(&mut observed, &chars);
            proof {
                lemma_tally_grows(rows, lengths.rows(), label_lengths(labels), len);
            }
        }
    }
    assert(all.take(n as int) =~= all);
    let length_hist = lengths.into_rows();
    // Deterministic mode: highest frequency, ties broken toward the smaller
    // length.
    let length_mode: usize = if length_hist.len() == 0 {
        0
    } else {
        length_hist[find_first_mode(&length_hist)].0
    };
    Scan { observed, length_mode, length_hist, considered }
}

/// Whether a character belongs to a built-in family.
pub open spec fn has_family(c: char) -> bool {
    same_family(c, c)
}

/// Auto-detection fits the dataset: a file whose label is plausible, of a length
/// in the range and made of characters of the built-in families enters a dataset
/// with the detected charset.
pub proof fn law_detected_charset_fits(
    scan: Scan,
    stems: Seq<Seq<char>>,
    i: int,
    min_len: int,
    max_len: int,
)
    requires
        is_scan(scan, plausible_labels(stems)),
        0 <= i < stems.len(),
        plausible(label_of(stems[i])),
        min_len <= label_of(stems[i]).len() <= max_len,
        forall|k: int|
            0 <= k < label_of(stems[i]).len() ==> has_family(#[trigger] label_of(stems[i])[k]),
    ensures
        is_usable(stems[i], observed_chars(scan.observed@), min_len, max_len),
{
    let label = label_of(stems[i]);
    let labels = plausible_labels(stems);
    lemma_plausible_member(stems, i);
    let k = choose|k: int| 0 <= k < labels.len() && labels[k] == label;
    assert forall|j: int| 0 <= j < label.len() implies observed_chars(scan.observed@).contains(
        #[trigger] label[j],
    ) by {
        let c = label[j];
        lemma_label_char(labels, k, j);
        law_dedup_members(label_chars(labels));
        assert(scan.observed@.contains(c));
        let family = if DIGITS@.contains(c) {
            DIGITS@
        } else if LATIN_LOWER@.contains(c) {
            LATIN_LOWER@
        } else if LATIN_UPPER@.contains(c) {
            LATIN_UPPER@
        } else if CYRILLIC_LOWER@.contains(c) {
            CYRILLIC_LOWER@
        } else {
            CYRILLIC_UPPER@
        };
        law_family_is_whole(scan.observed@, family, c, c);
    }
}

/// Stray files do not matter: the labels of a folder are scanned as if `README`
/// and `thumbs.db` were not in it, wherever they are listed.
pub proof fn law_stray_files_are_ignored(
    before: Seq<Seq<char>>,
    stray: Seq<char>,
    after: Seq<Seq<char>>,
)
    requires
        is_stray(label_of(stray)),
    ensures
        plausible_labels(before + seq![stray] + after) == plausible_labels(before + after),
    decreases after.len(),
{
    let with = before + seq![stray] + after;
    let without = before + after;
    if after.len() == 0 {
        assert(with.drop_last() =~= before);
        assert(without =~= before);
    } else {
        law_stray_files_are_ignored(before, stray, after.drop_last());
        assert(with.drop_last() =~= before + seq![stray] + after.drop_last());
        assert(without.drop_last() =~= before + after.drop_last());
    }
}

proof fn lemma_plausible_member(stems: Seq<Seq<char>>, i: int)
    requires
        0 <= i < stems.len(),
        plausible(label_of(stems[i])),
    ensures
        exists|k: int|
            0 <= k < plausible_labels(stems).len() && plausible_labels(stems)[k] == label_of(
                stems[i],
            ),
    decreases stems.len(),
{
    let all = plausible_labels(stems);
    if i == stems.len() - 1 {
        assert(all[all.len() - 1] == label_of(stems[i]));
    } else {
        let shorter = stems.drop_last();
        assert(shorter[i] == stems[i]);
        lemma_plausible_member(shorter, i);
        let before = plausible_labels(shorter);
        let k = choose|k: int| 0 <= k < before.len() && before[k] == label_of(stems[i]);
        assert(all[k] == before[k]);
    }
}

proof fn lemma_label_char(labels: Seq<Seq<char>>, k: int, j: int)
    requires
        0 <= k < labels.len(),
        0 <= j < labels[k].len(),
    ensures
        label_chars(labels).contains(labels[k][j]),
    decreases labels.len(),
{
    let before = label_chars(labels.drop_last());
    let all = label_chars(labels);
    if k == labels.len() - 1 {
        assert(all[before.len() + j] == labels[k][j]);
    } else {
        lemma_label_char(labels.drop_last(), k, j);
        let i = choose|i: int| 0 <= i < before.len() && before[i] == labels[k][j];
        assert(all[i] == before[i]);
    }
}

// ---------------------------------------------------------------------------
// Images
// ---------------------------------------------------------------------------
/// At most this many images are decoded.
pub const IMAGE_SCAN_LIMIT: usize = 256;

/// Positions of the stems with a plausible label, in order.
pub open spec fn plausible_positions(stems: Seq<Seq<char>>) -> Seq<int>
    decreases stems.len(),
{
    if stems.len() == 0 {
        Seq::empty()
    } else {
        let before = plausible_positions(stems.drop_last());
        if plausible(label_of(stems.last())) {
            before.push(stems.len() - 1)
        } else {
            before
        }
    }
}

/// Positions as integers.
pub open spec fn as_ints(positions: Seq<usize>) -> Seq<int> {
    Seq::new(positions.len(), |i: int| positions[i] as int)
}

/// Positions are kept as they are.
pub proof fn law_as_ints_keeps_positions(positions: Seq<usize>, i: int)
    requires
        0 <= i < positions.len(),
    ensures
        as_ints(positions).len() == positions.len(),
        as_ints(positions)[i] == positions[i],
{
}

/// Exactly the files with a plausible label are chosen, each once and in order.
pub proof fn law_plausible_files_are_exact(stems: Seq<Seq<char>>, i: int)
    requires
        0 <= i < stems.len(),
    ensures
        plausible_positions(stems).contains(i) <==> plausible(label_of(stems[i])),
        forall|k: int|
            0 <= k < plausible_positions(stems).len() ==> 0 <= (
            #[trigger] plausible_positions(stems)[k]) < stems.len(),
        forall|a: int, b: int|
            0 <= a < b < plausible_positions(stems).len() ==> (
            #[trigger] plausible_positions(stems)[a]) < (#[trigger] plausible_positions(stems)[b]),
        plausible_labels(stems).len() == plausible_positions(stems).len(),
    decreases stems.len(),
{
    let shorter = stems.drop_last();
    let before = plausible_positions(shorter);
    let all = plausible_positions(stems);
    let n = shorter.len() as int;
    if n == 0 {
        assert(plausible_labels(shorter).len() == 0 && before.len() == 0);
    } else {
        law_plausible_files_are_exact(
            shorter,
            if i < n {
                i
            } else {
                0
            },
        );
    }
    if i < n {
        assert(shorter[i] == stems[i]);
        if before.contains(i) {
            let k = choose|k: int| 0 <= k < before.len() && before[k] == i;
            assert(all[k] == i);
        }
        if all.contains(i) {
            let k = choose|k: int| 0 <= k < all.len() && all[k] == i;
            assert(k < before.len());
            assert(before[k] == i);
        }
    } else {
        if plausible(label_of(stems.last())) {
            assert(all[before.len() as int] == i);
        } else if all.contains(i) {
            let k = choose|k: int| 0 <= k < all.len() && all[k] == i;
            assert(before[k] < n);
        }
    }
}

/// Choose the files with a plausible label.
pub fn plausible_files(stems: &[String]) -> (r: Vec<usize>)
    ensures
        as_ints(r@) == plausible_positions(texts(stems@)),
{
    let n: usize = stems.len();
    let ghost all = texts(stems@);
    let mut files: Vec<usize> = Vec::new();
    assert(all.take(0) =~= Seq::empty());
    assert(as_ints(files@) =~= Seq::empty());
    for i in 0..n
        invariant
            n == stems@.len(),
            all == texts(stems@),
            as_ints(files@) == plausible_positions(all.take(i as int)),
    {
        let ghost before = files@;
        proof {
            let next = all.take(i + 1);
            assert(next.drop_last() =~= all.take(i as int));
            assert(next.last() == stems@[i as int]@);
        }
        if is_plausible_label(label_from_stem(stems[i].as_str())) {
            files.push(i);
            assert(as_ints(files@) =~= as_ints(before).push(i as int));
        }
    }
    assert(all.take(n as int) =~= all);
    files
}

/// How many of `total` files are sampled.
pub open spec fn sample_len(total: int) -> int {
    if total < IMAGE_SCAN_LIMIT {
        total
    } else {
        IMAGE_SCAN_LIMIT as int
    }
}

/// The file that is sampled at step `i`: files are taken at even distances.
pub open spec fn sample_index(total: int, i: int) -> int {
    if total <= IMAGE_SCAN_LIMIT {
        i
    } else {
        i * total / IMAGE_SCAN_LIMIT as int
    }
}

/// The files that are sampled, out of `total`.
pub fn sample_indices(total: usize) -> (r: Vec<usize>)
    ensures
        r@.len() == sample_len(total as int),
        forall|i: int|
            0 <= i < r@.len() ==> #[trigger] r@[i] == sample_index(total as int, i) && r@[i] < total,
{
    let len: usize = if total < IMAGE_SCAN_LIMIT {
        total
    } else {
        IMAGE_SCAN_LIMIT
    };
    let mut out: Vec<usize> = Vec::new();
    for i in 0..len
        invariant
            len == sample_len(total as int),
            out@.len() == i,
            forall|j: int|
                0 <= j < i ==> #[trigger] out@[j] == sample_index(total as int, j) && out@[j]
                    < total,
    {
        if total <= IMAGE_SCAN_LIMIT {
            out.push(i);
        } else {
            assert(i * total < 256 * total && i * total >= 0) by (nonlinear_arith)
                requires
                    0 <= i < 256,
                    total > 0,
            ;
            let product: u128 = i as u128 * total as u128;
            out.push((product / 256) as usize);
        }
    }
    out
}

/// No file is sampled twice, and files are sampled in order.
pub proof fn law_samples_ascend(total: int, i: int, j: int)
    requires
        0 <= i < j < sample_len(total),
    ensures
        0 <= sample_index(total, i) < sample_index(total, j) < total,
{
    if total > IMAGE_SCAN_LIMIT {
        assert(i * total + total <= j * total && 0 <= i * total && j * total <= 255 * total)
            by (nonlinear_arith)
            requires
                0 <= i,
                i + 1 <= j,
                j <= 255,
                total > 0,
        ;
    }
}

/// Up to 256 files are all sampled. Of more, 256 are, at even distances: sample
/// `i` is the last file that lies within the first `i` of 256 equal parts.
pub proof fn law_samples_are_even(total: int, i: int)
    requires
        0 <= i,
    ensures
        total <= 256 ==> sample_len(total) == total && sample_index(total, i) == i,
        total > 256 ==> sample_len(total) == 256 && 256 * sample_index(total, i) <= i * total < 256
            * (sample_index(total, i) + 1),
{
}

/// Result of scanning decoded images.
pub struct ImageScan {
    /// How many plausible files were available for image scan.
    pub total: usize,
    /// How many files were sampled for image scan.
    pub sampled: usize,
    /// How many images were decoded and inspected.
    pub decoded: usize,
    /// How many plausible image files failed to decode.
    pub decode_failed: usize,
    /// Image dimension distribution: (width, height) → number of files.
    pub dim_hist: Vec<((u32, u32), usize)>,
    /// Dominant image dimensions.
    pub mode_dim: (u32, u32),
    /// Number of images with the dominant dimensions.
    pub mode_dim_count: usize,
}

/// The dimensions of the images that could be decoded.
pub open spec fn decoded_dims(inspected: Seq<Option<ImageInfo>>) -> Seq<(u32, u32)>
    decreases inspected.len(),
{
    if inspected.len() == 0 {
        Seq::empty()
    } else {
        let before = decoded_dims(inspected.drop_last());
        match inspected.last() {
            Some(info) => before.push((info.width, info.height)),
            None => before,
        }
    }
}

/// Each decoded image adds its width and height, and an image that could not be
/// decoded adds nothing.
pub proof fn law_decoded_images_add_dims(
    inspected: Seq<Option<ImageInfo>>,
    found: Option<ImageInfo>,
)
    ensures
        decoded_dims(inspected.push(found)) == match found {
            Some(info) => decoded_dims(inspected).push((info.width, info.height)),
            None => decoded_dims(inspected),
        },
        decoded_dims(Seq::<Option<ImageInfo>>::empty()) == Seq::<(u32, u32)>::empty(),
{
    assert(inspected.push(found).drop_last() =~= inspected);
}

/// Collect the geometry of the sampled images; `inspected` holds what was found
/// in each, if it could be decoded.
pub fn scan_images(total: usize, inspected: &[Option<ImageInfo>]) -> (r: ImageScan)
    ensures
        r.total == total,
        r.sampled == inspected@.len(),
        r.decoded == decoded_dims(inspected@).len(),
        r.decoded + r.decode_failed == r.sampled,
        tallies(r.dim_hist@, decoded_dims(inspected@)),
        r.dim_hist@.len() == 0 ==> r.mode_dim == (0u32, 0u32)
            && r.mode_dim_count == 0,
        r.dim_hist@.len() > 0 ==> (r.mode_dim, r.mode_dim_count) == r.dim_hist@[last_mode(
            r.dim_hist@,
        )],
{
    let n: usize = inspected.len();
    let mut dims: Counts<(u32, u32)> = Counts::new();
    let mut decoded: usize = 0;
    let mut decode_failed: usize = 0;
    assert(inspected@.take(0) =~= Seq::empty());
    for i in 0..n
        invariant
            n == inspected@.len(),
            decoded == decoded_dims(inspected@.take(i as int)).len(),
            decoded + decode_failed == i,
            tallies(dims.rows(), decoded_dims(inspected@.take(i as int))),
    {
        let ghost before = decoded_dims(inspected@.take(i as int));
        let ghost rows = dims.rows();
        proof {
            let next = inspected@.take(i + 1);
            assert(next.drop_last() =~= inspected@.take(i as int));
            assert(next.last() == inspected@[i as int]);
        }
        match inspected[i] {
            Some(info) => {
                let dim = (info.width, info.height);
                proof {
                    assert(count_in(rows, dim) == occurrences(before, dim));
                    lemma_occurrences_bound(before, dim);
                }
                decoded = decoded + 1;
                dims.add(dim);
                proof {
                    lemma_tally_grows(rows, dims.rows(), before, dim);
                }
            },
            None => {
                decode_failed = decode_failed + 1;
            },
        }
    }
    assert(inspected@.take(n as int) =~= inspected@);
    let dim_hist = dims.into_rows();
    let (mode_dim, mode_dim_count) = if dim_hist.len() == 0 {
        ((0u32, 0u32), 0)
    } else {
        dim_hist[find_last_mode(&dim_hist)]
    };
    ImageScan { total, sampled: n, decoded, decode_failed, dim_hist, mode_dim, mode_dim_count }
}

/// Number of image sizes that are listed.
pub const LISTED_DIMS: usize = 5;

/// The image sizes that are listed: the first few rows.
pub open spec fn listed_dims(hist: Seq<((u32, u32), usize)>) -> Seq<((u32, u32), usize)> {
    if hist.len() > LISTED_DIMS {
        hist.take(LISTED_DIMS as int)
    } else {
        hist
    }
}

/// The line about an image scan. `aspect`, `color` and `ink` are the averages as
/// texts, the latter two in percent.
pub open spec fn scan_line_text(
    scan: ImageScan,
    aspect: Seq<char>,
    color: Seq<char>,
    ink: Seq<char>,
) -> Seq<char> {
    "Image scan: sampled "@ + decimal(scan.sampled as nat) + "/"@ + decimal(scan.total as nat)
        + ", "@ + decimal(scan.decoded as nat) + " decoded"@ + (if scan.decode_failed > 0 {
        ", "@ + decimal(scan.decode_failed as nat) + " decode failed"@
    } else {
        Seq::empty()
    }) + ", dims:"@ + (if scan.dim_hist@.len() > 0 {
        " "@ + join(row_texts(listed_dims(scan.dim_hist@)), " "@)
    } else {
        Seq::empty()
    }) + (if scan.dim_hist@.len() > LISTED_DIMS {
        " …"@
    } else {
        Seq::empty()
    }) + ", mode "@ + row_text((scan.mode_dim, scan.mode_dim_count)) + ", aspect "@ + aspect
        + ", color "@ + color + "%, ink "@ + ink + "%"@
}

/// At most five image sizes are listed, from the front.
pub proof fn law_first_dims_are_listed(hist: Seq<((u32, u32), usize)>, i: int)
    ensures
        hist.len() <= 5 ==> listed_dims(hist) == hist,
        hist.len() > 5 ==> listed_dims(hist).len() == 5,
        hist.len() > 5 && 0 <= i < 5 ==> listed_dims(hist)[i] == hist[i],
{
}

/// What the line about an image scan says: failures only where there are any, and
/// a mark where not all sizes are listed.
pub proof fn law_scan_line(
    scan: ImageScan,
    aspect: Seq<char>,
    color: Seq<char>,
    ink: Seq<char>,
    failed: Seq<char>,
    dims: Seq<char>,
    more: Seq<char>,
)
    requires
        scan.decode_failed > 0 ==> failed == ", "@ + decimal(scan.decode_failed as nat)
            + " decode failed"@,
        scan.decode_failed == 0 ==> failed.len() == 0,
        scan.dim_hist@.len() > 0 ==> dims == " "@ + join(
            row_texts(listed_dims(scan.dim_hist@)),
            " "@,
        ),
        scan.dim_hist@.len() == 0 ==> dims.len() == 0,
        scan.dim_hist@.len() > 5 ==> more == " …"@,
        scan.dim_hist@.len() <= 5 ==> more.len() == 0,
    ensures
        scan_line_text(scan, aspect, color, ink) == "Image scan: sampled "@ + decimal(
            scan.sampled as nat,
        ) + "/"@ + decimal(scan.total as nat) + ", "@ + decimal(scan.decoded as nat) + " decoded"@
            + failed + ", dims:"@ + dims + more + ", mode "@ + row_text(
            (scan.mode_dim, scan.mode_dim_count),
        ) + ", aspect "@ + aspect + ", color "@ + color + "%, ink "@ + ink + "%"@,
{
    if scan.decode_failed == 0 {
        assert(failed =~= Seq::empty());
    }
    if scan.dim_hist@.len() == 0 {
        assert(dims =~= Seq::empty());
    }
    if scan.dim_hist@.len() <= 5 {
        assert(more =~= Seq::empty());
    }
}

impl ImageScan {
    /// The line about an image scan. `aspect`, `color` and `ink` are the averages
    /// as texts, the latter two in percent.
    pub fn line(&self, aspect: &str, color: &str, ink: &str) -> (r: String)
        ensures
            r@ == scan_line_text(*self, aspect@, color@, ink@),
    {
        let mut s = String::from_str("Image scan: sampled ");
        s.append(show_usize(self.sampled).as_str());
        s.append("/");
        s.append(show_usize(self.total).as_str());
        s.append(", ");
        s.append(show_usize(self.decoded).as_str());
        s.append(" decoded");
        let ghost part = s@;
        if self.decode_failed > 0 {
            s.append(", ");
            s.append(show_usize(self.decode_failed).as_str());
            s.append(" decode failed");
        }
        let ghost part = part + (if self.decode_failed > 0 {
            ", "@ + decimal(self.decode_failed as nat) + " decode failed"@
        } else {
            Seq::empty()
        });
        assert(s@ =~= part);
        s.append(", dims:");
        let n: usize = self.dim_hist.len();
        let ghost part = s@;
        if n > 0 {
            let listed: usize = if n > LISTED_DIMS {
                LISTED_DIMS
            } else {
                n
            };
            let rows = vstd::slice::slice_subrange(self.dim_hist.as_slice(), 0, listed);
            assert(rows@ =~= listed_dims(self.dim_hist@));
            s.append(" ");
            s.append(format_counts(rows).as_str());
        }
        let ghost part = part + (if n > 0 {
            " "@ + join(row_texts(listed_dims(self.dim_hist@)), " "@)
        } else {
            Seq::empty()
        });
        assert(s@ =~= part);
        if n > LISTED_DIMS {
            s.append(" …");
        }
        let ghost part = part + (if n > LISTED_DIMS {
            " …"@
        } else {
            Seq::empty()
        });
        assert(s@ =~= part);
        s.append(", mode ");
        s.append(show_row(&(self.mode_dim, self.mode_dim_count)).as_str());
        s.append(", aspect ");
        s.append(aspect);
        s.append(", color ");
        s.append(color);
        s.append("%, ink ");
        s.append(ink);
        s.append("%");
        s
    }

    /// The warning about images that failed to decode, if they are more than 5%
    /// of the sample. `percent` is how many they are.
    pub fn warning(&self, percent: &str) -> (r: Option<String>)
        ensures
            match r {
                Some(text) => self.decode_failed * 20 > self.sampled && text@ == "Warning: "@
                    + percent@
                    + "% of sampled images failed to decode; training will skip bad files"@,
                None => self.decode_failed * 20 <= self.sampled,
            },
    {
        if self.decode_failed as u128 * 20 <= self.sampled as u128 {
            return None;
        }
        let mut s = String::from_str("Warning: ");
        s.append(percent);
        s.append("% of sampled images failed to decode; training will skip bad files");
        Some(s)
    }
}

// ---------------------------------------------------------------------------
// Recommendations
// ---------------------------------------------------------------------------
/// Bit pattern of the single-precision number closest to 0.67.
pub const LOW_RATIO_BITS: u32 = 0x3f2b_851f;

/// Bit pattern of the single-precision number 1.5.
pub const HIGH_RATIO_BITS: u32 = 0x3fc0_0000;

/// Recommend preprocessing from source geometry. Historical exact resize is the
/// default; `fit` is selected only for extreme aspect-ratio mismatch.
/// `ratio_bits` is the bit pattern of the dominant source aspect ratio divided
/// by that of the input, in single precision: such numbers are not negative, so
/// they are ordered as their bit patterns, and what is no number lies above.
pub fn recommend_preprocess(scan: &ImageScan, ratio_bits: u32) -> (r: PreprocessMode)
    ensures
        r == PreprocessMode::Fit <==> scan.decoded > 0 && !(LOW_RATIO_BITS <= ratio_bits
            <= HIGH_RATIO_BITS),
        r == PreprocessMode::Fit <==> scan.decoded > 0 && (ratio_bits < 0x3f2b_851f || ratio_bits
            > 0x3fc0_0000),
{
    if scan.decoded == 0 {
        return PreprocessMode::Stretch;
    }
    if !(LOW_RATIO_BITS <= ratio_bits && ratio_bits <= HIGH_RATIO_BITS) {
        PreprocessMode::Fit
    } else {
        PreprocessMode::Stretch
    }
}

/// An automatic input size has at most about this many pixels.
pub const MAX_AUTO_PIXELS: usize = 32_768;

/// The larger of two numbers.
pub open spec fn larger(a: int, b: int) -> int {
    if a > b {
        a
    } else {
        b
    }
}

/// `value`, rounded up to a multiple of `step`.
pub open spec fn rounded_up(value: int, step: int) -> int {
    (value + step - 1) / step * step
}

/// `value`, but at most `max`.
pub open spec fn at_most(value: int, max: int) -> int {
    if value < max {
        value
    } else {
        max
    }
}

/// The input size for images of a size: the width is a multiple of 4, and both
/// sides are capped.
pub open spec fn capped_size(width: int, height: int) -> InputSize {
    InputSize {
        width: at_most(rounded_up(width, 4), 512) as usize,
        height: at_most(height, 256) as usize,
    }
}

/// Whether images of a size have too many pixels for an automatic input size.
pub open spec fn is_oversized(dim: (u32, u32)) -> bool {
    dim.0 * larger(dim.1 as int, 32) > MAX_AUTO_PIXELS
}

/// An automatic input size keeps to the size that it is made from: the width goes
/// up to the next multiple of 4 but not beyond 512, the height stays but for a
/// limit of 256. Images of more than 32768 pixels, their height counted as 32 at
/// least, are too large for it.
pub proof fn law_automatic_size_keeps_close(width: int, height: int, dim: (u32, u32))
    requires
        0 < width <= usize::MAX,
        0 < height <= usize::MAX,
    ensures
        capped_size(width, height).width % 4 == 0,
        width <= 512 ==> width <= capped_size(width, height).width < width + 4,
        width > 512 ==> capped_size(width, height).width == 512,
        height <= 256 ==> capped_size(width, height).height == height,
        height > 256 ==> capped_size(width, height).height == 256,
        is_oversized(dim) <==> (dim.1 >= 32 && dim.0 * dim.1 > 32768) || (dim.1 < 32 && dim.0 * 32
            > 32768),
        larger(width, height) >= width && larger(width, height) >= height,
        larger(width, height) == width || larger(width, height) == height,
        at_most(width, height) <= width && at_most(width, height) <= height,
        at_most(width, height) == width || at_most(width, height) == height,
{
    law_rounds_up(width, 4);
}

/// Recommend model input size from the dominant source image dimensions. Keeps
/// normal captcha sizes close to native resolution, but caps very large images
/// to avoid exploding memory and fixed-global parameter count. `shrink` scales a
/// size with too many pixels down to about the allowed number.
pub fn recommend_input_size<F: Fn(usize, usize) -> (usize, usize)>(scan: &ImageScan, shrink: F)
    -> (r: InputSize)
    requires
        forall|w: usize, h: usize| call_requires(shrink, (w, h)),
    ensures
        size_is_usable(r),
        r.width % 4 == 0,
        r.width <= 512,
        r.height <= 256,
        ({
            let dim = scan.mode_dim;
            let height = larger(dim.1 as int, 32);
            if dim.0 == 0 || dim.1 == 0 {
                r == (InputSize { width: IMG_WIDTH, height: IMG_HEIGHT })
            } else if is_oversized(dim) {
                exists|s: (usize, usize)|
                    #[trigger] call_ensures(shrink, (dim.0 as usize, height as usize), s) && r
                        == capped_size(larger(s.0 as int, 32), larger(s.1 as int, 32))
            } else {
                r == capped_size(dim.0 as int, height)
            }
        }),
{
    if scan.mode_dim.0 == 0 || scan.mode_dim.1 == 0 {
        return InputSize { width: IMG_WIDTH, height: IMG_HEIGHT };
    }
    let mut width: usize = scan.mode_dim.0 as usize;
    let mut height: usize = scan.mode_dim.1 as usize;
    if height < 32 {
        height = 32;
    }
    assert(width * height <= u32::MAX * u32::MAX) by (nonlinear_arith)
        requires
            0 <= width <= u32::MAX,
            0 <= height <= u32::MAX,
    ;
    let pixels: u64 = width as u64 * height as u64;
    if pixels > MAX_AUTO_PIXELS as u64 {
        let shrunk = shrink(width, height);
        width = if shrunk.0 < 32 {
            32
        } else {
            shrunk.0
        };
        height = if shrunk.1 < 32 {
            32
        } else {
            shrunk.1
        };
    }
    let width: usize = if width > 512 {
        512
    } else {
        let multiple: usize = round_up_to_multiple(width, 4);
        if multiple < 512 {
            multiple
        } else {
            512
        }
    };
    let height: usize = if height < 256 {
        height
    } else {
        256
    };
    InputSize { width, height }
}

/// The smallest multiple of `step` that is not below `value`.
pub fn round_up_to_multiple(value: usize, step: usize) -> (r: usize)
    requires
        step > 0,
        rounded_up(value as int, step as int) <= usize::MAX,
    ensures
        r == rounded_up(value as int, step as int),
{
    let rest: usize = value % step;
    proof {
        law_rounds_up(value as int, step as int);
        lemma_round_up(value as int, step as int);
    }
    if rest == 0 {
        value
    } else {
        value + (step - rest)
    }
}

proof fn lemma_round_up(value: int, step: int)
    requires
        step > 0,
        value >= 0,
    ensures
        rounded_up(value, step) == if value % step == 0 {
            value
        } else {
            value + (step - value % step)
        },
{
    let q = value / step;
    let rest = value % step;
    vstd::arithmetic::div_mod::lemma_fundamental_div_mod(value, step);
    if rest == 0 {
        assert(value + step - 1 == step * q + (step - 1));
        vstd::arithmetic::div_mod::lemma_fundamental_div_mod_converse(
            value + step - 1,
            step,
            q,
            step - 1,
        );
        assert(q * step == step * q) by (nonlinear_arith);
    } else {
        assert(step * (q + 1) == step * q + step) by (nonlinear_arith);
        vstd::arithmetic::div_mod::lemma_fundamental_div_mod_converse(
            value + step - 1,
            step,
            q + 1,
            rest - 1,
        );
        assert((q + 1) * step == step * (q + 1)) by (nonlinear_arith);
    }
}

/// Rounding up gives a multiple of the step, less than one step away.
pub proof fn law_rounds_up(value: int, step: int)
    requires
        step > 0,
        value >= 0,
    ensures
        rounded_up(value, step) % step == 0,
        value <= rounded_up(value, step) < value + step,
{
    lemma_round_up(value, step);
    vstd::arithmetic::div_mod::lemma_mod_multiples_basic((value + step - 1) / step, step);
    vstd::arithmetic::div_mod::lemma_mod_bound(value, step);
}

/// Conservative default until per-dataset A/B says otherwise.
pub fn recommend_augment() -> (r: AugmentProfile)
    ensures
        r == AugmentProfile::Medium,
{
    AugmentProfile::Medium
}

// ---------------------------------------------------------------------------
// Length
// ---------------------------------------------------------------------------
/// Chosen captcha length range. CTC handles variable length natively, so this is
/// only used to filter which files enter the dataset and to set the maximum.
#[derive(Copy, Clone, Debug, PartialEq, Eq, Structural)]
pub struct LengthSpec {
    pub min_chars: usize,
    pub max_chars: usize,
}

/// The length range that a text denotes, or what is wrong with the text.
pub open spec fn length_named(s: Seq<char>) -> Result<(int, int), Seq<char>> {
    let t = trim(s);
    let i = first_index(t, '-');
    if i < t.len() {
        match (
            number(trim(t.take(i)), usize::MAX as int),
            number(trim(t.skip(i + 1)), usize::MAX as int),
        ) {
            (Some(lo), Some(hi)) => if lo == 0 || hi == 0 || lo > hi {
                Err(
                    "invalid range: "@ + str_debug(t) + " (expected MIN-MAX, 1 ≤ MIN ≤ MAX)"@,
                )
            } else {
                Ok((lo, hi))
            },
            _ => Err("invalid range: "@ + str_debug(t)),
        }
    } else {
        match number(t, usize::MAX as int) {
            Some(n) => if n == 0 {
                Err("length must be > 0"@)
            } else {
                Ok((n, n))
            },
            None => Err("invalid length: "@ + str_debug(t)),
        }
    }
}

/// Parse a `--num-chars` value: `5` (fixed) or `4-7` (min-max range).
pub fn parse_length_spec(s: &str) -> (r: Result<LengthSpec, String>)
    ensures
        match r {
            Ok(length) => length_named(s@) == Ok::<(int, int), Seq<char>>(
                (length.min_chars as int, length.max_chars as int),
            ) && 1 <= length.min_chars <= length.max_chars,
            Err(e) => length_named(s@) == Err::<(int, int), Seq<char>>(e@),
        },
{
    let t = trimmed(&chars_of(s));
    assert(t@.skip(0) == t@);
    let i = find_char(&t, 0, '-');
    let end: usize = t.len();
    if i < end {
        let lo_part = trimmed(&slice_of(&t, 0, i));
        let hi_part = trimmed(&slice_of(&t, i + 1, end));
        assert(t@.subrange(0, i as int) == t@.take(i as int));
        assert(t@.subrange(i + 1, end as int) == t@.skip(i + 1));
        match (
            parse_number(&lo_part, usize::MAX as u64),
            parse_number(&hi_part, usize::MAX as u64),
        ) {
            (Some(lo), Some(hi)) => {
                if lo == 0 || hi == 0 || lo > hi {
                    let mut e = String::from_str("invalid range: ");
                    e.append(debug_str(string_of(&t).as_str()).as_str());
                    e.append(" (expected MIN-MAX, 1 ≤ MIN ≤ MAX)");
                    Err(e)
                } else {
                    Ok(LengthSpec { min_chars: lo as usize, max_chars: hi as usize })
                }
            },
            _ => {
                let mut e = String::from_str("invalid range: ");
                e.append(debug_str(string_of(&t).as_str()).as_str());
                Err(e)
            },
        }
    } else {
        match parse_number(&t, usize::MAX as u64) {
            Some(n) => {
                if n == 0 {
                    Err(String::from_str("length must be > 0"))
                } else {
                    Ok(LengthSpec { min_chars: n as usize, max_chars: n as usize })
                }
            },
            None => {
                let mut e = String::from_str("invalid length: ");
                e.append(debug_str(string_of(&t).as_str()).as_str());
                Err(e)
            },
        }
    }
}

/// Every range can be written: `MIN-MAX` reads as that range, and a single
/// number as a fixed length.
pub proof fn law_length_roundtrip(min: usize, max: usize)
    requires
        1 <= min <= max,
    ensures
        length_named(decimal(min as nat) + "-"@ + decimal(max as nat)) == Ok::<
            (int, int),
            Seq<char>,
        >((min as int, max as int)),
        length_named(decimal(min as nat)) == Ok::<(int, int), Seq<char>>((min as int, min as int)),
{
    reveal_strlit("-");
    let a = decimal(min as nat);
    let b = decimal(max as nat);
    let t = a + "-"@ + b;
    lemma_decimal_reads_back(min as nat);
    lemma_decimal_reads_back(max as nat);
    assert(t[0] == a[0] && t.last() == b.last());
    lemma_trim_keeps(t);
    lemma_trim_keeps(a);
    lemma_trim_keeps(b);
    assert forall|j: int| 0 <= j < a.len() implies t[j] != '-' by {
        assert(t[j] == a[j]);
    }
    assert(t[a.len() as int] == '-');
    lemma_first_index_unique(t, '-', a.len() as int);
    assert(t.take(a.len() as int) == a);
    assert(t.skip(a.len() as int + 1) == b);
    crate::text::lemma_first_index(a, '-');
}

/// How a length is read, white space around the whole text and around both ends
/// of a range aside. A text with a `-` is a range from the number before the first
/// one to the number behind it; both are at least 1 and in order. Any other text
/// is a single number of at least 1.
pub proof fn law_length_is_read(s: Seq<char>, a: Seq<char>, b: Seq<char>)
    ensures
        trim(s) == a + "-"@ + b && !a.contains('-') ==> match (
            number(trim(a), usize::MAX as int),
            number(trim(b), usize::MAX as int),
        ) {
            (Some(lo), Some(hi)) => if 1 <= lo && lo <= hi {
                length_named(s) == Ok::<(int, int), Seq<char>>((lo, hi))
            } else {
                length_named(s) == Err::<(int, int), Seq<char>>(
                    "invalid range: "@ + str_debug(trim(s)) + " (expected MIN-MAX, 1 ≤ MIN ≤ MAX)"@,
                )
            },
            _ => length_named(s) == Err::<(int, int), Seq<char>>(
                "invalid range: "@ + str_debug(trim(s)),
            ),
        },
        !trim(s).contains('-') ==> match number(trim(s), usize::MAX as int) {
            Some(n) => if n >= 1 {
                length_named(s) == Ok::<(int, int), Seq<char>>((n, n))
            } else {
                length_named(s) == Err::<(int, int), Seq<char>>("length must be > 0"@)
            },
            None => length_named(s) == Err::<(int, int), Seq<char>>(
                "invalid length: "@ + str_debug(trim(s)),
            ),
        },
{
    reveal_strlit("-");
    let t = trim(s);
    if t == a + "-"@ + b && !a.contains('-') {
        assert forall|j: int| 0 <= j < a.len() implies t[j] != '-' by {
            assert(a.contains(a[j]));
        }
        assert(t[a.len() as int] == '-');
        lemma_first_index_unique(t, '-', a.len() as int);
        assert(t.take(a.len() as int) =~= a);
        assert(t.skip(a.len() as int + 1) =~= b);
        lemma_number_range(trim(a), usize::MAX as int);
        lemma_number_range(trim(b), usize::MAX as int);
    }
    if !t.contains('-') {
        lemma_number_range(t, usize::MAX as int);
        lemma_first_index(t, '-');
        let i = first_index(t, '-');
        if i < t.len() {
            assert(t.contains(t[i]));
        }
    }
}

/// Whether a length covers at least 5% of the labeled files.
pub open spec fn is_significant(count: usize, considered: usize) -> bool {
    count >= 1 && count * 20 >= considered
}

/// The smallest significant length.
pub open spec fn least_significant(hist: Seq<(usize, usize)>, considered: usize) -> Option<usize>
    decreases hist.len(),
{
    if hist.len() == 0 {
        None
    } else {
        let before = least_significant(hist.drop_last(), considered);
        let row = hist.last();
        if !is_significant(row.1, considered) {
            before
        } else {
            match before {
                Some(lo) => if row.0 < lo {
                    Some(row.0)
                } else {
                    Some(lo)
                },
                None => Some(row.0),
            }
        }
    }
}

/// The largest significant length.
pub open spec fn greatest_significant(hist: Seq<(usize, usize)>, considered: usize) -> Option<
    usize,
>
    decreases hist.len(),
{
    if hist.len() == 0 {
        None
    } else {
        let before = greatest_significant(hist.drop_last(), considered);
        let row = hist.last();
        if !is_significant(row.1, considered) {
            before
        } else {
            match before {
                Some(hi) => if row.0 > hi {
                    Some(row.0)
                } else {
                    Some(hi)
                },
                None => Some(row.0),
            }
        }
    }
}

/// The length range of a scan: from the smallest to the largest significant
/// length, or else the most frequent length.
pub open spec fn detected_length(scan: Scan) -> LengthSpec {
    match (
        least_significant(scan.length_hist@, scan.considered),
        greatest_significant(scan.length_hist@, scan.considered),
    ) {
        (Some(lo), Some(hi)) => LengthSpec { min_chars: lo, max_chars: hi },
        _ => LengthSpec { min_chars: scan.length_mode, max_chars: scan.length_mode },
    }
}

/// Determine the length range from the scanned histogram. Lengths covering at
/// least 5% of the labeled files count; the range spans the smallest to the
/// largest such length.
pub fn detect_length(scan: &Scan) -> (r: LengthSpec)
    ensures
        r == detected_length(*scan),
{
    // A count covers at least 5% when it is not below a twentieth, rounded up.
    let mut threshold: usize = scan.considered / 20;
    if scan.considered % 20 != 0 {
        threshold = threshold + 1;
    }
    if threshold < 1 {
        threshold = 1;
    }
    let n: usize = scan.length_hist.len();
    let mut range: Option<(usize, usize)> = None;
    assert(scan.length_hist@.take(0) =~= Seq::empty());
    for i in 0..n
        invariant
            n == scan.length_hist@.len(),
            forall|c: usize| c >= threshold <==> #[trigger] is_significant(c, scan.considered),
            match range {
                Some((lo, hi)) => least_significant(
                    scan.length_hist@.take(i as int),
                    scan.considered,
                ) == Some(lo) && greatest_significant(
                    scan.length_hist@.take(i as int),
                    scan.considered,
                ) == Some(hi),
                None => least_significant(scan.length_hist@.take(i as int), scan.considered) is None
                    && greatest_significant(
                    scan.length_hist@.take(i as int),
                    scan.considered,
                ) is None,
            },
    {
        proof {
            let next = scan.length_hist@.take(i + 1);
            assert(next.drop_last() =~= scan.length_hist@.take(i as int));
            assert(next.last() == scan.length_hist@[i as int]);
        }
        let row = scan.length_hist[i];
        assert(row.1 >= threshold <==> is_significant(row.1, scan.considered));
        if row.1 >= threshold {
            range = match range {
                Some((lo, hi)) => Some(
                    (
                        if row.0 < lo {
                            row.0
                        } else {
                            lo
                        },
                        if row.0 > hi {
                            row.0
                        } else {
                            hi
                        },
                    ),
                ),
                None => Some((row.0, row.0)),
            };
        }
    }
    assert(scan.length_hist@.take(n as int) =~= scan.length_hist@);
    match range {
        Some((lo, hi)) => LengthSpec { min_chars: lo, max_chars: hi },
        None => LengthSpec { min_chars: scan.length_mode, max_chars: scan.length_mode },
    }
}

/// Every length that covers at least 5% of the files lies in the detected range,
/// and both ends of the range are such lengths.
pub proof fn law_detected_range_covers(hist: Seq<(usize, usize)>, considered: usize, i: int)
    requires
        0 <= i < hist.len(),
        is_significant(hist[i].1, considered),
    ensures
        least_significant(hist, considered) matches Some(lo) && lo <= hist[i].0 && exists|a: int|
            0 <= a < hist.len() && (#[trigger] hist[a]).0 == lo && is_significant(
                hist[a].1,
                considered,
            ),
        greatest_significant(hist, considered) matches Some(hi) && hist[i].0 <= hi && exists|a: int|
            0 <= a < hist.len() && (#[trigger] hist[a]).0 == hi && is_significant(
                hist[a].1,
                considered,
            ),
{
    lemma_range_ends(hist, considered);
    lemma_range_covers(hist, considered, i);
}

/// A length counts when it has one label in twenty, and one label at least. Where
/// no length does, the most frequent one is the whole range; where some do, the
/// range reaches from the smallest of them to the largest.
pub proof fn law_detected_range_is_of_frequent_lengths(scan: Scan, count: usize)
    ensures
        is_significant(count, scan.considered) <==> count > 0 && 20 * count >= scan.considered,
        (forall|i: int|
            0 <= i < scan.length_hist@.len() ==> 20 * (#[trigger] scan.length_hist@[i]).1
                < scan.considered || scan.length_hist@[i].1 == 0) ==> detected_length(scan)
            == (LengthSpec { min_chars: scan.length_mode, max_chars: scan.length_mode }),
        least_significant(scan.length_hist@, scan.considered) matches Some(lo)
            ==> detected_length(scan).min_chars == lo,
        greatest_significant(scan.length_hist@, scan.considered) matches Some(hi)
            ==> detected_length(scan).max_chars == hi,
{
    let hist = scan.length_hist@;
    lemma_range_ends(hist, scan.considered);
    if let Some(lo) = least_significant(hist, scan.considered) {
        let a = choose|a: int|
            0 <= a < hist.len() && (#[trigger] hist[a]).0 == lo && is_significant(
                hist[a].1,
                scan.considered,
            );
        lemma_range_covers(hist, scan.considered, a);
    }
    if let Some(hi) = greatest_significant(hist, scan.considered) {
        let a = choose|a: int|
            0 <= a < hist.len() && (#[trigger] hist[a]).0 == hi && is_significant(
                hist[a].1,
                scan.considered,
            );
        lemma_range_covers(hist, scan.considered, a);
    }
}

/// The most common label length always lies in the detected range.
pub proof fn law_detected_range_has_mode(scan: Scan)
    requires
        scan.length_hist@.len() > 0,
        scan.length_mode == scan.length_hist@[first_mode(scan.length_hist@)].0,
    ensures
        detected_length(scan).min_chars <= scan.length_mode <= detected_length(scan).max_chars,
{
    let hist = scan.length_hist@;
    law_mode_is_most_frequent(hist, 0);
    let m = first_mode(hist);
    lemma_range_ends(hist, scan.considered);
    if is_significant(hist[m].1, scan.considered) {
        lemma_range_covers(hist, scan.considered, m);
    } else {
        assert forall|a: int| 0 <= a < hist.len() implies !is_significant(
            (#[trigger] hist[a]).1,
            scan.considered,
        ) by {
            law_mode_is_most_frequent(hist, a);
        }
        assert(least_significant(hist, scan.considered) is None);
        assert(greatest_significant(hist, scan.considered) is None);
    }
}

proof fn lemma_range_covers(hist: Seq<(usize, usize)>, considered: usize, i: int)
    requires
        0 <= i < hist.len(),
        is_significant(hist[i].1, considered),
    ensures
        least_significant(hist, considered) matches Some(lo) && lo <= hist[i].0,
        greatest_significant(hist, considered) matches Some(hi) && hist[i].0 <= hi,
    decreases hist.len(),
{
    if i < hist.len() - 1 {
        assert(hist.drop_last()[i] == hist[i]);
        lemma_range_covers(hist.drop_last(), considered, i);
    }
}

proof fn lemma_range_ends(hist: Seq<(usize, usize)>, considered: usize)
    ensures
        least_significant(hist, considered) matches Some(lo) ==> exists|a: int|
            0 <= a < hist.len() && (#[trigger] hist[a]).0 == lo && is_significant(
                hist[a].1,
                considered,
            ),
        greatest_significant(hist, considered) matches Some(hi) ==> exists|a: int|
            0 <= a < hist.len() && (#[trigger] hist[a]).0 == hi && is_significant(
                hist[a].1,
                considered,
            ),
    decreases hist.len(),
{
    if hist.len() > 0 {
        let shorter = hist.drop_last();
        lemma_range_ends(shorter, considered);
        let last = hist.len() - 1;
        if let Some(lo) = least_significant(hist, considered) {
            if least_significant(shorter, considered) == Some(lo) {
                let a = choose|a: int|
                    0 <= a < shorter.len() && (#[trigger] shorter[a]).0 == lo && is_significant(
                        shorter[a].1,
                        considered,
                    );
                assert(hist[a] == shorter[a]);
            } else {
                assert(hist[last].0 == lo);
            }
        }
        if let Some(hi) = greatest_significant(hist, considered) {
            if greatest_significant(shorter, considered) == Some(hi) {
                let a = choose|a: int|
                    0 <= a < shorter.len() && (#[trigger] shorter[a]).0 == hi && is_significant(
                        shorter[a].1,
                        considered,
                    );
                assert(hist[a] == shorter[a]);
            } else {
                assert(hist[last].0 == hi);
            }
        }
    }
}

// ---------------------------------------------------------------------------
// Format
// ---------------------------------------------------------------------------
/// The text of a length range, such as `fixed 5` or `variable 4..=7`.
pub open spec fn length_text(length: LengthSpec) -> Seq<char> {
    if length.min_chars == length.max_chars {
        "fixed "@ + decimal(length.max_chars as nat)
    } else {
        "variable "@ + decimal(length.min_chars as nat) + "..="@ + decimal(length.max_chars as nat)
    }
}

impl LengthSpec {
    /// The text of a length range.
    pub fn describe(&self) -> (r: String)
        ensures
            r@ == length_text(*self),
    {
        if self.min_chars == self.max_chars {
            let mut s = String::from_str("fixed ");
            s.append(show_usize(self.max_chars).as_str());
            s
        } else {
            let mut s = String::from_str("variable ");
            s.append(show_usize(self.min_chars).as_str());
            s.append("..=");
            s.append(show_usize(self.max_chars).as_str());
            s
        }
    }
}

/// The families of an alphabet.
pub open spec fn families_text(chars: Seq<char>) -> Seq<char> {
    if family_names(chars).len() == 0 {
        "custom set"@
    } else {
        join(family_names(chars), ", "@)
    }
}

/// The length range of a dataset: the one asked for, or else the detected one.
pub open spec fn chosen_length(scan: Scan, length_override: Option<LengthSpec>) -> LengthSpec {
    match length_override {
        Some(length) => length,
        None => detected_length(scan),
    }
}

/// What is asked for is taken before what is detected, and the texts that tell of
/// it: a range of one length is fixed, and an alphabet of no family is custom.
pub proof fn law_format_is_told(scan: Scan, length: LengthSpec, chars: Seq<char>)
    ensures
        chosen_length(scan, Some(length)) == length,
        chosen_length(scan, None) == detected_length(scan),
        length.min_chars == length.max_chars ==> length_text(length) == "fixed "@ + decimal(
            length.min_chars as nat,
        ),
        length.min_chars != length.max_chars ==> length_text(length) == "variable "@ + decimal(
            length.min_chars as nat,
        ) + "..="@ + decimal(length.max_chars as nat),
        family_names(chars).len() == 0 ==> families_text(chars) == "custom set"@,
        family_names(chars).len() > 0 ==> families_text(chars) == join(family_names(chars), ", "@),
{
}

/// Detect the charset and captcha length of a dataset from the scan of its
/// labels.
///
/// `charset_override` — explicit charset from the CLI (when not "auto");
/// `length_override` — explicit length/range from the CLI (when set);
/// `folder` names the dataset in messages.
pub fn detect_format(
    scan: &Scan,
    charset_override: Option<Charset>,
    length_override: Option<LengthSpec>,
    folder: &str,
) -> (r: Result<(Charset, LengthSpec), String>)
    ensures
        ({
            let length = chosen_length(*scan, length_override);
            let undetected = charset_override is None && observed_chars(scan.observed@).len() == 0;
            match r {
                Ok((charset, chosen)) => !undetected && length.max_chars > 0 && chosen == length
                    && charset@ == match charset_override {
                    Some(cs) => cs@,
                    None => observed_chars(scan.observed@),
                },
                Err(e) => if undetected {
                    e@ == "could not auto-detect charset — set --charset manually"@
                } else {
                    length.max_chars == 0 && e@
                        == "could not determine captcha length (no labeled files in "@ + folder@
                        + ") — set --num-chars"@
                },
            }
        }),
{
    let charset = match charset_override {
        Some(cs) => cs,
        None => {
            let observed = string_of(&scan.observed);
            match Charset::from_observed(observed.as_str().chars()) {
                Ok(cs) => cs,
                Err(_) => {
                    return Err(
                        String::from_str("could not auto-detect charset — set --charset manually"),
                    );
                },
            }
        },
    };
    let length = match length_override {
        Some(length) => length,
        None => detect_length(scan),
    };
    if length.max_chars == 0 {
        let mut e = String::from_str("could not determine captcha length (no labeled files in ");
        e.append(folder);
        e.append(") — set --num-chars");
        return Err(e);
    }
    Ok((charset, length))
}

/// What is told about a detected format, line by line.
pub fn format_report(scan: &Scan, charset: &Charset, length: LengthSpec) -> (r: Vec<String>)
    ensures
        r@.len() == 3,
        r@[0]@ == "Auto-detected format from "@ + decimal(scan.considered as nat) + " files:"@,
        r@[1]@ == "  label lengths:"@ + (if scan.length_hist@.len() == 0 {
            Seq::empty()
        } else {
            " "@ + join(row_texts(scan.length_hist@), " "@)
        }),
        r@[2]@ == "  chosen: length = "@ + length_text(length) + ", charset = "@ + decimal(
            charset@.len(),
        ) + " chars ("@ + families_text(charset@) + ")"@,
{
    let mut first = String::from_str("Auto-detected format from ");
    first.append(show_usize(scan.considered).as_str());
    first.append(" files:");
    let mut second = String::from_str("  label lengths:");
    if scan.length_hist.len() > 0 {
        second.append(" ");
        second.append(format_counts(&scan.length_hist).as_str());
        assert(second@ =~= "  label lengths:"@ + (" "@ + join(
            row_texts(scan.length_hist@),
            " "@,
        )));
    }
    let mut third = String::from_str("  chosen: length = ");
    third.append(length.describe().as_str());
    third.append(", charset = ");
    third.append(show_usize(charset.len()).as_str());
    third.append(" chars (");
    third.append(charset.describe_families().as_str());
    third.append(")");
    let mut lines: Vec<String> = Vec::new();
    lines.push(first);
    lines.push(second);
    lines.push(third);
    lines
}

} // verus!
