//! Training dataset: labels from file names, which files enter the dataset,
//! seeded shuffling, the train/validation split and the data of a batch.

use crate::charset::Charset;
use crate::text::{chars_of, debug_str, find_char, folds_to, lowered, show_usize, string_of};
use rand::seq::SliceRandom;
use rand::SeedableRng;
use vstd::prelude::*;
use vstd::string::{StrSliceExecFns, StringExecFns};

#[allow(unused_imports)]
use crate::counts::lemma_insert_count;
#[allow(unused_imports)]
use crate::text::{
    decimal, first_index, lemma_first_index, lemma_first_index_unique, lemma_lower_keeps, lower,
    str_debug, texts,
};

verus! {

// ---------------------------------------------------------------------------
// Labels
// ---------------------------------------------------------------------------
/// The label in a file stem: the part before the first `_`.
pub open spec fn label_of(stem: Seq<char>) -> Seq<char> {
    stem.take(first_index(stem, '_'))
}

/// Extract the label from a file name — the part before the first `_`
/// (e.g. `12345_abcdef.png` → `12345`).
pub fn label_from_stem(stem: &str) -> (r: &str)
    ensures
        r@ == label_of(stem@),
{
    let chars = chars_of(stem);
    assert(chars@.skip(0) == chars@);
    let i = find_char(&chars, 0, '_');
    stem.substring_char(0, i)
}

/// What follows the first `_` of a file stem does not matter, and a stem
/// without one is a label as it stands.
pub proof fn law_label_ignores_suffix(label: Seq<char>, suffix: Seq<char>)
    requires
        !label.contains('_'),
    ensures
        label_of(label) == label,
        label_of(label + "_"@ + suffix) == label,
{
    reveal_strlit("_");
    let stem = label + "_"@ + suffix;
    lemma_first_index(label, '_');
    assert(label.take(label.len() as int) == label);
    assert forall|j: int| 0 <= j < label.len() implies stem[j] != '_' by {
        assert(stem[j] == label[j]);
    }
    assert(stem[label.len() as int] == '_');
    lemma_first_index_unique(stem, '_', label.len() as int);
    assert(stem.take(label.len() as int) == label);
}

/// Whether all characters of a label belong to an alphabet.
pub open spec fn in_alphabet(chars: Seq<char>, label: Seq<char>) -> bool {
    forall|i: int| 0 <= i < label.len() ==> chars.contains(#[trigger] label[i])
}

/// The class indices of a label.
pub open spec fn label_classes(chars: Seq<char>, label: Seq<char>) -> Seq<usize> {
    Seq::new(label.len(), |i: int| first_index(chars, label[i]) as usize)
}

/// The class indices of a label, if all of its characters belong to the charset.
pub fn encode_label(charset: &Charset, label: &[char]) -> (r: Option<Vec<usize>>)
    ensures
        match r {
            Some(classes) => in_alphabet(charset@, label@) && classes@ == label_classes(
                charset@,
                label@,
            ),
            None => !in_alphabet(charset@, label@),
        },
{
    let n: usize = label.len();
    let mut classes: Vec<usize> = Vec::new();
    for i in 0..n
        invariant
            n == label@.len(),
            in_alphabet(charset@, label@.take(i as int)),
            classes@ == label_classes(charset@, label@.take(i as int)),
    {
        assert(label@.take(i + 1) =~= label@.take(i as int).push(label@[i as int]));
        match charset.index_of(label[i]) {
            Some(class) => {
                classes.push(class);
                assert(classes@ =~= label_classes(charset@, label@.take(i + 1)));
                assert forall|k: int| 0 <= k < i + 1 implies charset@.contains(
                    #[trigger] label@.take(i + 1)[k],
                ) by {
                    if k < i {
                        assert(label@.take(i as int)[k] == label@.take(i + 1)[k]);
                    }
                }
            },
            None => {
                return None;
            },
        }
    }
    assert(label@.take(n as int) =~= label@);
    Some(classes)
}

/// The classes of a label are the places of its characters in the alphabet, one
/// for each character; a label belongs to an alphabet when each of its characters
/// does.
pub proof fn law_classes_point_at_characters(chars: Seq<char>, label: Seq<char>, i: int)
    requires
        chars.len() <= usize::MAX,
    ensures
        in_alphabet(chars, label) <==> (forall|k: int|
            0 <= k < label.len() ==> chars.contains(#[trigger] label[k])),
        label_classes(chars, label).len() == label.len(),
        0 <= i < label.len() && chars.contains(label[i]) ==> ({
            let class = label_classes(chars, label)[i];
            class < chars.len() && chars[class as int] == label[i] && (forall|c: int|
                0 <= c < class ==> #[trigger] chars[c] != label[i])
        }),
{
    if 0 <= i < label.len() {
        lemma_first_index(chars, label[i]);
    }
}

/// Whether a file with this stem enters the dataset: the length of its label is
/// in range and all characters are in the charset.
pub open spec fn is_usable(stem: Seq<char>, chars: Seq<char>, min_len: int, max_len: int) -> bool {
    let label = label_of(stem);
    min_len <= label.len() <= max_len && in_alphabet(chars, label)
}

/// A file enters the dataset for its label alone, the part of its stem before
/// the first `_`: when the label's length is in range, both ends included, and
/// the alphabet holds all of its characters.
pub proof fn law_usable_is_by_label(
    label: Seq<char>,
    suffix: Seq<char>,
    chars: Seq<char>,
    min_len: int,
    max_len: int,
)
    requires
        !label.contains('_'),
    ensures
        is_usable(label, chars, min_len, max_len) <==> min_len <= label.len() && label.len()
            <= max_len && (forall|i: int|
            0 <= i < label.len() ==> chars.contains(#[trigger] label[i])),
        is_usable(label + "_"@ + suffix, chars, min_len, max_len) == is_usable(
            label,
            chars,
            min_len,
            max_len,
        ),
{
    law_label_ignores_suffix(label, suffix);
}

/// Positions of the usable stems, in order.
pub open spec fn usable_stems(
    stems: Seq<Seq<char>>,
    chars: Seq<char>,
    min_len: int,
    max_len: int,
) -> Seq<int>
    decreases stems.len(),
{
    if stems.len() == 0 {
        Seq::empty()
    } else {
        let before = usable_stems(stems.drop_last(), chars, min_len, max_len);
        if is_usable(stems.last(), chars, min_len, max_len) {
            before.push(stems.len() - 1)
        } else {
            before
        }
    }
}

/// A file that enters the dataset.
pub struct Pick {
    /// Position of the file in the list.
    pub index: usize,
    /// Class indices of its label.
    pub labels: Vec<usize>,
}

/// Which files of a folder enter the dataset.
pub struct Selection {
    pub picks: Vec<Pick>,
    /// Number of files that do not.
    pub skipped: usize,
}

/// The positions of the picked files.
pub open spec fn pick_positions(picks: Seq<Pick>) -> Seq<int> {
    Seq::new(picks.len(), |k: int| picks[k].index as int)
}

impl Dataset {
    /// Choose the files of a folder that enter the dataset: those whose label
    /// length is in `min_len..=max_len` and whose characters are all in
    /// `charset`.
    pub fn select(stems: &[String], charset: &Charset, min_len: usize, max_len: usize) -> (r:
        Selection)
        ensures
            pick_positions(r.picks@) == usable_stems(
                texts(stems@),
                charset@,
                min_len as int,
                max_len as int,
            ),
            forall|k: int|
                0 <= k < r.picks@.len() ==> (#[trigger] r.picks@[k]).index < stems@.len()
                    && r.picks@[k].labels@ == label_classes(
                    charset@,
                    label_of(stems@[r.picks@[k].index as int]@),
                ),
            r.skipped == stems@.len() - r.picks@.len(),
    {
        let n: usize = stems.len();
        let ghost all = texts(stems@);
        let mut picks: Vec<Pick> = Vec::new();
        let mut skipped: usize = 0;
        assert(all.take(0) =~= Seq::empty());
        assert(pick_positions(picks@) =~= Seq::empty());
        for i in 0..n
            invariant
                n == stems@.len(),
                all == texts(stems@),
                pick_positions(picks@) == usable_stems(
                    all.take(i as int),
                    charset@,
                    min_len as int,
                    max_len as int,
                ),
                forall|k: int|
                    0 <= k < picks@.len() ==> (#[trigger] picks@[k]).index < stems@.len()
                        && picks@[k].labels@ == label_classes(
                        charset@,
                        label_of(stems@[picks@[k].index as int]@),
                    ),
                skipped == i - picks@.len(),
        {
            let label = chars_of(label_from_stem(stems[i].as_str()));
            let ghost before = picks@;
            proof {
                let next = all.take(i + 1);
                assert(next.drop_last() =~= all.take(i as int));
                assert(next.last() == stems@[i as int]@);
            }
            if label.len() < min_len || label.len() > max_len {
                skipped = skipped + 1;
            } else {
                match encode_label(charset, &label) {
                    Some(labels) => {
                        picks.push(Pick { index: i, labels });
                        assert(pick_positions(picks@) =~= pick_positions(before).push(i as int));
                    },
                    None => {
                        skipped = skipped + 1;
                    },
                }
            }
        }
        assert(all.take(n as int) =~= all);
        Selection { picks, skipped }
    }
}

/// The note about files that did not enter the dataset, if there are any.
pub fn skip_note(skipped: usize, min_len: usize, max_len: usize) -> (r: Option<String>)
    ensures
        match r {
            Some(note) => skipped > 0 && note@ == "Skipped "@ + decimal(skipped as nat)
                + " files (label length outside "@ + decimal(min_len as nat) + "..="@ + decimal(
                max_len as nat,
            ) + " or a character outside the charset)"@,
            None => skipped == 0,
        },
{
    if skipped == 0 {
        return None;
    }
    let mut note = String::from_str("Skipped ");
    note.append(show_usize(skipped).as_str());
    note.append(" files (label length outside ");
    note.append(show_usize(min_len).as_str());
    note.append("..=");
    note.append(show_usize(max_len).as_str());
    note.append(" or a character outside the charset)");
    Some(note)
}

/// A selection of picks has one position for each pick: the index that it holds.
pub proof fn law_pick_positions(picks: Seq<Pick>, k: int)
    requires
        0 <= k < picks.len(),
    ensures
        pick_positions(picks).len() == picks.len(),
        pick_positions(picks)[k] == picks[k].index,
{
}

/// Exactly the usable stems are chosen, each once and in order.
pub proof fn law_selection_is_exact(
    stems: Seq<Seq<char>>,
    chars: Seq<char>,
    min_len: int,
    max_len: int,
    i: int,
)
    requires
        0 <= i < stems.len(),
    ensures
        usable_stems(stems, chars, min_len, max_len).contains(i) <==> is_usable(
            stems[i],
            chars,
            min_len,
            max_len,
        ),
        forall|k: int|
            0 <= k < usable_stems(stems, chars, min_len, max_len).len() ==> 0 <= (
            #[trigger] usable_stems(stems, chars, min_len, max_len)[k]) < stems.len(),
        forall|a: int, b: int|
            0 <= a < b < usable_stems(stems, chars, min_len, max_len).len() ==> 0 <= (
            #[trigger] usable_stems(stems, chars, min_len, max_len)[a]) < (
            #[trigger] usable_stems(stems, chars, min_len, max_len)[b]) < stems.len(),
{
    lemma_usable_stems(stems, chars, min_len, max_len);
}

proof fn lemma_usable_stems(stems: Seq<Seq<char>>, chars: Seq<char>, min_len: int, max_len: int)
    ensures
        forall|i: int|
            0 <= i < stems.len() ==> (usable_stems(stems, chars, min_len, max_len).contains(i)
                <==> is_usable(#[trigger] stems[i], chars, min_len, max_len)),
        forall|a: int|
            0 <= a < usable_stems(stems, chars, min_len, max_len).len() ==> 0
                <= #[trigger] usable_stems(stems, chars, min_len, max_len)[a] < stems.len(),
        forall|a: int, b: int|
            0 <= a < b < usable_stems(stems, chars, min_len, max_len).len()
                ==> #[trigger] usable_stems(stems, chars, min_len, max_len)[a]
                < #[trigger] usable_stems(stems, chars, min_len, max_len)[b],
    decreases stems.len(),
{
    if stems.len() > 0 {
        let shorter = stems.drop_last();
        lemma_usable_stems(shorter, chars, min_len, max_len);
        let before = usable_stems(shorter, chars, min_len, max_len);
        let all = usable_stems(stems, chars, min_len, max_len);
        assert forall|i: int| 0 <= i < stems.len() implies (all.contains(i) <==> is_usable(
            #[trigger] stems[i],
            chars,
            min_len,
            max_len,
        )) by {
            if i < shorter.len() {
                assert(shorter[i] == stems[i]);
                if before.contains(i) {
                    let k = choose|k: int| 0 <= k < before.len() && before[k] == i;
                    assert(all[k] == i);
                }
                if all.contains(i) {
                    let k = choose|k: int| 0 <= k < all.len() && all[k] == i;
                    assert(k < before.len());
                    assert(before[k] == i);
                }
            } else {
                if is_usable(stems[i], chars, min_len, max_len) {
                    assert(all.last() == i);
                } else if all.contains(i) {
                    let k = choose|k: int| 0 <= k < all.len() && all[k] == i;
                    assert(before[k] < shorter.len());
                }
            }
        }
    }
}

// ---------------------------------------------------------------------------
// Dataset
// ---------------------------------------------------------------------------
/// One preloaded example: the luminance bytes of the image and the class indices
/// of the label.
#[derive(Debug)]
pub struct Example {
    pub image: Vec<u8>,
    pub labels: Vec<usize>,
}

impl Clone for Example {
    fn clone(&self) -> (r: Self)
        ensures
            r.image@ == self.image@,
            r.labels@ == self.labels@,
    {
        Example { image: self.image.clone(), labels: self.labels.clone() }
    }
}

/// Preloaded examples.
#[derive(Debug)]
pub struct Dataset {
    examples: Vec<Example>,
}

impl Clone for Dataset {
    fn clone(&self) -> (r: Self)
        ensures
            r@.len() == self@.len(),
            forall|i: int|
                0 <= i < self@.len() ==> (#[trigger] r@[i]).image@ == self@[i].image@
                    && r@[i].labels@ == self@[i].labels@,
    {
        let examples = self.examples.clone();
        assert forall|i: int| 0 <= i < self.examples@.len() implies (
        #[trigger] examples@[i]).image@ == self.examples@[i].image@ && examples@[i].labels@
            == self.examples@[i].labels@ by {
            assert(cloned(self.examples@[i], examples@[i]));
        }
        Dataset { examples }
    }
}

impl View for Dataset {
    type V = Seq<Example>;

    closed spec fn view(&self) -> Seq<Example> {
        self.examples@
    }
}

/// The order in which a seeded shuffle leaves `n` items: the item that comes to
/// position `i` was at position `shuffled_order(seed, n)[i]`.
pub uninterp spec fn shuffled_order(seed: u64, n: nat) -> Seq<int>;

/// Whether `order` lists every position of `n` items once.
pub open spec fn is_order(order: Seq<int>, n: nat) -> bool {
    &&& order.len() == n
    &&& order.no_duplicates()
    &&& forall|i: int| 0 <= i < n ==> 0 <= #[trigger] order[i] < n
}

/// Items in another order.
pub open spec fn permuted<T>(items: Seq<T>, order: Seq<int>) -> Seq<T> {
    Seq::new(items.len(), |i: int| items[order[i]])
}

/// `rand::seq::SliceRandom::shuffle`, driven by a `rand::rngs::StdRng` that
/// `seed_from_u64` has made. It swaps items at positions drawn from the seeded
/// stream, which depend on the seed and the number of items alone; so it leaves
/// the items in an order that these two fix, and loses none. Which order it is
/// is left to the generator.
#[verifier::external_body]
pub(crate) fn shuffle_items<T>(items: &mut Vec<T>, seed: u64)
    ensures
        final(items)@ == permuted(old(items)@, shuffled_order(seed, old(items)@.len())),
        is_order(shuffled_order(seed, old(items)@.len()), final(items)@.len()),
{
    let mut rng = rand::rngs::StdRng::seed_from_u64(seed);
    items.shuffle(&mut rng);
}

impl Dataset {
    /// A dataset of the given examples.
    pub fn new(examples: Vec<Example>) -> (r: Self)
        ensures
            r@ == examples@,
    {
        Dataset { examples }
    }

    /// Add the example of a picked file. A file whose image could not be decoded
    /// is left out. Returns whether the file has entered the dataset.
    pub fn load(&mut self, labels: Vec<usize>, image: Option<Vec<u8>>) -> (r: bool)
        ensures
            r == image.is_some(),
            final(self)@ == match image {
                Some(image) => old(self)@.push(Example { image, labels }),
                None => old(self)@,
            },
    {
        match image {
            Some(image) => {
                self.examples.push(Example { image, labels });
                true
            },
            None => false,
        }
    }

    pub fn len(&self) -> (r: usize)
        ensures
            r == self@.len(),
    {
        self.examples.len()
    }

    pub fn is_empty(&self) -> (r: bool)
        ensures
            r == (self@.len() == 0),
    {
        self.examples.len() == 0
    }

    pub fn examples(&self) -> (r: &[Example])
        ensures
            r@ == self@,
    {
        self.examples.as_slice()
    }

    /// Deterministic seeded shuffle — reproducible train/valid split and epochs.
    pub fn shuffle(&mut self, seed: u64)
        ensures
            final(self)@ == permuted(old(self)@, shuffled_order(seed, old(self)@.len())),
            is_order(shuffled_order(seed, old(self)@.len()), final(self)@.len()),
    {
        shuffle_items(&mut self.examples, seed);
    }

    /// Split into the first `n_train` examples, or all if there are fewer, and
    /// the rest.
    pub fn split(self, n_train: usize) -> (r: (Self, Self))
        ensures
            r.0@ == self@.take(split_point(n_train as int, self@.len() as int)),
            r.1@ == self@.skip(split_point(n_train as int, self@.len() as int)),
    {
        let mut train = self.examples;
        let n: usize = if n_train < train.len() {
            n_train
        } else {
            train.len()
        };
        let valid = train.split_off(n);
        (Dataset { examples: train }, Dataset { examples: valid })
    }
}

/// Where a list of `len` items is split.
pub open spec fn split_point(n_train: int, len: int) -> int {
    if n_train < len {
        n_train
    } else {
        len
    }
}

/// A split takes as many items as asked for, or all when there are fewer, from
/// the front; and an order puts at each place the item that it names.
pub proof fn law_split_and_order<T>(items: Seq<T>, n_train: int, order: Seq<int>, i: int)
    requires
        0 <= n_train,
    ensures
        n_train <= items.len() ==> split_point(n_train, items.len() as int) == n_train,
        n_train > items.len() ==> split_point(n_train, items.len() as int) == items.len(),
        permuted(items, order).len() == items.len(),
        0 <= i < items.len() ==> permuted(items, order)[i] == items[order[i]],
        is_order(order, items.len()) <==> order.len() == items.len() && (forall|a: int, b: int|
            0 <= a < b < order.len() ==> order[a] != order[b]) && (forall|a: int|
            0 <= a < order.len() ==> 0 <= #[trigger] order[a] < items.len()),
{
}

/// A shuffle keeps every item, as often as it was there.
pub proof fn law_shuffle_keeps_items<T>(items: Seq<T>, order: Seq<int>)
    requires
        is_order(order, items.len()),
    ensures
        permuted(items, order).to_multiset() == items.to_multiset(),
{
    lemma_permuted_multiset(items, order);
}

proof fn lemma_permuted_multiset<T>(items: Seq<T>, order: Seq<int>)
    requires
        is_order(order, items.len()),
    ensures
        permuted(items, order).to_multiset() == items.to_multiset(),
    decreases items.len(),
{
    broadcast use vstd::seq_lib::group_to_multiset_ensures;

    let out = permuted(items, order);
    if items.len() == 0 {
        assert(out =~= items);
    } else {
        // Take the item at the last position out of both.
        let n = items.len();
        let p = order.last();
        let rest = items.remove(p);
        let shorter = order.drop_last();
        let moved = Seq::new(
            shorter.len(),
            |i: int|
                if shorter[i] < p {
                    shorter[i]
                } else {
                    shorter[i] - 1
                },
        );
        assert forall|i: int| 0 <= i < n - 1 implies shorter[i] != p by {
            assert(order[i] != order[n - 1]);
        }
        assert forall|i: int, j: int| 0 <= i < j < n - 1 implies moved[i] != moved[j] by {
            assert(order[i] != order[j]);
            assert(shorter[i] != p && shorter[j] != p);
        }
        assert forall|i: int| 0 <= i < n - 1 implies 0 <= #[trigger] moved[i] < n - 1 by {
            assert(0 <= order[i] < n);
            assert(shorter[i] != p);
        }
        assert(is_order(moved, rest.len()));
        lemma_permuted_multiset(rest, moved);
        assert(out.drop_last() =~= permuted(rest, moved));
        assert(out =~= out.drop_last().push(items[p]));
        assert(items =~= rest.insert(p, items[p]));
        lemma_insert_count(rest, p, items[p]);
    }
}

/// A split loses nothing and keeps the order.
pub proof fn law_split_partitions<T>(items: Seq<T>, n_train: int)
    requires
        0 <= n_train,
    ensures
        ({
            let n = split_point(n_train, items.len() as int);
            items.take(n) + items.skip(n) == items
        }),
{
    let n = split_point(n_train, items.len() as int);
    assert(items.take(n) + items.skip(n) =~= items);
}

// ---------------------------------------------------------------------------
// Batches
// ---------------------------------------------------------------------------
/// The images of a batch, one after the other.
pub open spec fn batch_images(batch: Seq<Example>) -> Seq<u8>
    decreases batch.len(),
{
    if batch.len() == 0 {
        Seq::empty()
    } else {
        batch_images(batch.drop_last()) + batch.last().image@
    }
}

/// Build the image data `[B, 1, H, W]` for a slice of examples.
pub fn build_images(batch: &[Example]) -> (r: Vec<u8>)
    ensures
        r@ == batch_images(batch@),
{
    let n: usize = batch.len();
    let mut data: Vec<u8> = Vec::new();
    assert(batch@.take(0) =~= Seq::empty());
    for i in 0..n
        invariant
            n == batch@.len(),
            data@ == batch_images(batch@.take(i as int)),
    {
        proof {
            let next = batch@.take(i + 1);
            assert(next.drop_last() =~= batch@.take(i as int));
            assert(next.last() == batch@[i as int]);
        }
        data.extend_from_slice(&batch[i].image);
        assert(data@ =~= batch_images(batch@.take(i + 1)));
    }
    assert(batch@.take(n as int) =~= batch@);
    data
}

/// The images of a batch stand one after the other, each whole and in the order
/// of the examples.
pub proof fn law_batch_images_join(a: Seq<Example>, b: Seq<Example>, example: Example)
    ensures
        batch_images(a + b) == batch_images(a) + batch_images(b),
        batch_images(seq![example]) == example.image@,
        batch_images(Seq::<Example>::empty()) == Seq::<u8>::empty(),
    decreases b.len(),
{
    let one = seq![example];
    assert(one.drop_last() =~= Seq::empty());
    assert(batch_images(one.drop_last()) =~= Seq::empty());
    assert(one.last() == example);
    assert(batch_images(one) =~= example.image@);
    if b.len() == 0 {
        assert(a + b =~= a);
        assert(batch_images(a) + batch_images(b) =~= batch_images(a));
    } else {
        law_batch_images_join(a, b.drop_last(), example);
        assert((a + b).drop_last() =~= a + b.drop_last());
        assert((a + b).last() == b.last());
        assert(batch_images(a + b) =~= batch_images(a) + batch_images(b));
    }
}

/// In a batch of images of one size, pixel `k` of example `i` is found `i` images
/// and `k` pixels into the data.
pub proof fn law_batch_image_is_found(batch: Seq<Example>, size: nat, i: int, k: int)
    requires
        forall|e: int| 0 <= e < batch.len() ==> (#[trigger] batch[e]).image@.len() == size,
        0 <= i < batch.len(),
        0 <= k < size,
    ensures
        batch_images(batch).len() == batch.len() * size,
        0 <= i * size,
        i * size + k < batch_images(batch).len(),
        batch_images(batch)[i * size + k] == batch[i].image@[k],
    decreases batch.len(),
{
    let shorter = batch.drop_last();
    let n = shorter.len();
    assert forall|e: int| 0 <= e < shorter.len() implies (#[trigger] shorter[e]).image@.len()
        == size by {
        assert(shorter[e] == batch[e]);
    }
    assert(batch[batch.len() - 1].image@.len() == size);
    assert((n + 1) * size == n * size + size) by (nonlinear_arith);
    assert(0 <= i * size) by (nonlinear_arith)
        requires
            0 <= i,
    ;
    if n == 0 {
        assert(batch_images(shorter) =~= Seq::empty());
        assert(0 * size == 0) by (nonlinear_arith);
    } else {
        law_batch_image_is_found(
            shorter,
            size,
            if i < n {
                i
            } else {
                0
            },
            k,
        );
    }
    if i < n {
        assert(batch_images(batch)[i * size + k] == batch_images(shorter)[i * size + k]);
    }
}

/// Length of the longest label of a batch, and at least 1.
pub open spec fn target_width(batch: Seq<Example>) -> nat
    decreases batch.len(),
{
    if batch.len() == 0 {
        1
    } else {
        let before = target_width(batch.drop_last());
        if batch.last().labels@.len() > before {
            batch.last().labels@.len()
        } else {
            before
        }
    }
}

/// No label is longer than the target width.
pub proof fn law_targets_hold_labels(batch: Seq<Example>, i: int)
    requires
        0 <= i < batch.len(),
    ensures
        (#[trigger] batch[i]).labels@.len() <= target_width(batch),
    decreases batch.len(),
{
    if i < batch.len() - 1 {
        law_targets_hold_labels(batch.drop_last(), i);
        assert(batch.drop_last()[i] == batch[i]);
    }
}

/// The target class in column `j` of a label: padding is 0.
pub open spec fn target_at(labels: Seq<usize>, j: int) -> int {
    if j < labels.len() {
        labels[j] as int
    } else {
        0
    }
}

/// The CTC targets of a batch.
pub struct Targets {
    /// Padded targets, row-major `[B, width]`.
    pub classes: Vec<i64>,
    /// Number of columns.
    pub width: usize,
    /// Target lengths `[B]`.
    pub lengths: Vec<i64>,
}

fn longest_label(batch: &[Example]) -> (r: usize)
    ensures
        r == target_width(batch@),
{
    let n: usize = batch.len();
    let mut width: usize = 1;
    assert(batch@.take(0) =~= Seq::empty());
    for i in 0..n
        invariant
            n == batch@.len(),
            width == target_width(batch@.take(i as int)),
    {
        proof {
            let next = batch@.take(i + 1);
            assert(next.drop_last() =~= batch@.take(i as int));
            assert(next.last() == batch@[i as int]);
        }
        if batch[i].labels.len() > width {
            width = batch[i].labels.len();
        }
    }
    assert(batch@.take(n as int) =~= batch@);
    width
}

/// The targets of one label.
fn target_row(labels: &[usize], width: usize) -> (r: Vec<i64>)
    requires
        forall|j: int| 0 <= j < labels@.len() ==> #[trigger] labels@[j] <= i64::MAX,
    ensures
        r@.len() == width,
        forall|j: int| 0 <= j < width ==> #[trigger] r@[j] == target_at(labels@, j),
        forall|j: int| 0 <= j < width && j < labels@.len() ==> #[trigger] r@[j] == labels@[j],
        forall|j: int| labels@.len() <= j < width ==> #[trigger] r@[j] == 0,
{
    let n: usize = labels.len();
    let mut row: Vec<i64> = Vec::new();
    for j in 0..width
        invariant
            n == labels@.len(),
            row@.len() == j,
            forall|j: int| 0 <= j < labels@.len() ==> #[trigger] labels@[j] <= i64::MAX,
            forall|k: int| 0 <= k < j ==> #[trigger] row@[k] == target_at(labels@, k),
    {
        if j < n {
            row.push(labels[j] as i64);
        } else {
            row.push(0);
        }
    }
    row
}

/// Build the CTC target data: padded targets `[B, S]` and target lengths `[B]`.
/// Padding value is 0 (ignored via the per-sample lengths).
pub fn build_targets(batch: &[Example]) -> (r: Targets)
    requires
        batch@.len() * target_width(batch@) <= usize::MAX,
        forall|i: int, j: int|
            0 <= i < batch@.len() && 0 <= j < (#[trigger] batch@[i]).labels@.len() ==> (
            #[trigger] batch@[i].labels@[j]) <= i64::MAX,
        forall|i: int| 0 <= i < batch@.len() ==> (#[trigger] batch@[i]).labels@.len() <= i64::MAX,
    ensures
        r.width == target_width(batch@),
        r.classes@.len() == batch@.len() * r.width,
        forall|i: int, j: int|
            0 <= i < batch@.len() && 0 <= j < r.width ==> #[trigger] r.classes@[i * r.width + j]
                == target_at(batch@[i].labels@, j),
        forall|i: int, j: int|
            0 <= i < batch@.len() && 0 <= j < batch@[i].labels@.len() ==>
                #[trigger] r.classes@[i * r.width + j] == batch@[i].labels@[j],
        forall|i: int, j: int|
            0 <= i < batch@.len() && batch@[i].labels@.len() <= j < r.width ==>
                #[trigger] r.classes@[i * r.width + j] == 0,
        r.lengths@.len() == batch@.len(),
        forall|i: int|
            0 <= i < batch@.len() ==> #[trigger] r.lengths@[i] == batch@[i].labels@.len(),
{
    let n: usize = batch.len();
    let width: usize = longest_label(batch);
    let mut classes: Vec<i64> = Vec::new();
    let mut lengths: Vec<i64> = Vec::new();
    assert(0 * width == 0) by (nonlinear_arith);
    for i in 0..n
        invariant
            n == batch@.len(),
            forall|i: int, j: int|
                0 <= i < batch@.len() && 0 <= j < (#[trigger] batch@[i]).labels@.len() ==> (
                #[trigger] batch@[i].labels@[j]) <= i64::MAX,
            forall|i: int|
                0 <= i < batch@.len() ==> (#[trigger] batch@[i]).labels@.len() <= i64::MAX,
            classes@.len() == i * width,
            lengths@.len() == i,
            forall|k: int, j: int|
                0 <= k < i && 0 <= j < width ==> #[trigger] classes@[k * width + j] == target_at(
                    batch@[k].labels@,
                    j,
                ),
            forall|k: int| 0 <= k < i ==> #[trigger] lengths@[k] == batch@[k].labels@.len(),
    {
        let mut row = target_row(&batch[i].labels, width);
        let ghost before = classes@;
        let ghost added = row@;
        classes.append(&mut row);
        lengths.push(batch[i].labels.len() as i64);
        proof {
            assert((i + 1) * width == i * width + width) by (nonlinear_arith);
            assert forall|k: int, j: int| 0 <= k < i + 1 && 0 <= j < width implies
                #[trigger] classes@[k * width + j] == target_at(batch@[k].labels@, j) by {
                if k < i {
                    assert(k * width + j < i * width && 0 <= k * width) by (nonlinear_arith)
                        requires
                            0 <= k < i,
                            0 <= j < width,
                    ;
                    assert(classes@[k * width + j] == before[k * width + j]);
                } else {
                    assert(classes@[k * width + j] == added[j]);
                }
            }
        }
    }
    proof {
        assert forall|i: int, j: int| 0 <= i < n && 0 <= j < batch@[i].labels@.len() implies
            #[trigger] classes@[i * width + j] == batch@[i].labels@[j] by {
            law_targets_hold_labels(batch@, i);
        }
    }
    Targets { classes, width, lengths }
}

/// The targets spell the labels: row `i` starts with the classes of example `i`,
/// each as it stands in the label, and only what lies behind them is padding.
pub proof fn law_targets_spell_labels(
    batch: Seq<Example>,
    classes: Seq<int>,
    width: int,
    i: int,
    j: int,
)
    requires
        0 <= i < batch.len(),
        0 <= j < width,
        width == target_width(batch),
        forall|i: int, j: int|
            0 <= i < batch.len() && 0 <= j < width ==> #[trigger] classes[i * width + j]
                == target_at(batch[i].labels@, j),
    ensures
        batch[i].labels@.len() <= width,
        j < batch[i].labels@.len() ==> classes[i * width + j] == batch[i].labels@[j],
        j >= batch[i].labels@.len() ==> classes[i * width + j] == 0,
        j < batch[i].labels@.len() ==> target_at(batch[i].labels@, j) == batch[i].labels@[j],
        j >= batch[i].labels@.len() ==> target_at(batch[i].labels@, j) == 0,
{
    law_targets_hold_labels(batch, i);
}

/// Targets are no wider than they have to be: as wide as the longest label, or
/// one column where all labels are empty.
pub proof fn law_target_width_is_the_longest(batch: Seq<Example>)
    ensures
        target_width(batch) >= 1,
        target_width(batch) == 1 || exists|i: int|
            0 <= i < batch.len() && (#[trigger] batch[i]).labels@.len() == target_width(batch),
        forall|i: int|
            0 <= i < batch.len() ==> (#[trigger] batch[i]).labels@.len() <= target_width(batch),
    decreases batch.len(),
{
    if batch.len() > 0 {
        let shorter = batch.drop_last();
        law_target_width_is_the_longest(shorter);
        if target_width(batch) == target_width(shorter) {
            if target_width(shorter) != 1 {
                let i = choose|i: int|
                    0 <= i < shorter.len() && (#[trigger] shorter[i]).labels@.len()
                        == target_width(shorter);
                assert(batch[i] == shorter[i]);
            }
        } else {
            assert(batch[batch.len() - 1].labels@.len() == target_width(batch));
        }
        assert forall|i: int| 0 <= i < batch.len() implies (#[trigger] batch[i]).labels@.len()
            <= target_width(batch) by {
            law_targets_hold_labels(batch, i);
        }
    }
}

// ---------------------------------------------------------------------------
// Augmentation
// ---------------------------------------------------------------------------
/// Augmentation strength.
#[derive(Clone, Copy, Debug, PartialEq, Eq, Structural)]
pub enum AugmentProfile {
    Light,
    Medium,
    Strong,
}

/// The name of a strength.
pub open spec fn augment_name(profile: AugmentProfile) -> Seq<char> {
    match profile {
        AugmentProfile::Light => "light"@,
        AugmentProfile::Medium => "medium"@,
        AugmentProfile::Strong => "strong"@,
    }
}

/// The strength that a name denotes, ignoring ASCII case.
pub open spec fn augment_named(s: Seq<char>) -> Option<AugmentProfile> {
    let n = lower(s);
    if n == "light"@ {
        Some(AugmentProfile::Light)
    } else if n == "medium"@ {
        Some(AugmentProfile::Medium)
    } else if n == "strong"@ {
        Some(AugmentProfile::Strong)
    } else {
        None
    }
}

/// The complaint about an unknown strength.
pub open spec fn unknown_augment(s: Seq<char>) -> Seq<char> {
    "unknown augment "@ + str_debug(lower(s)) + " (expected 'light', 'medium' or 'strong')"@
}

impl AugmentProfile {
    pub fn parse(s: &str) -> (r: Result<Self, String>)
        ensures
            match r {
                Ok(profile) => augment_named(s@) == Some(profile),
                Err(e) => augment_named(s@) is None && e@ == unknown_augment(s@),
            },
    {
        if folds_to(s, "light") {
            Ok(AugmentProfile::Light)
        } else if folds_to(s, "medium") {
            Ok(AugmentProfile::Medium)
        } else if folds_to(s, "strong") {
            Ok(AugmentProfile::Strong)
        } else {
            let mut e = String::from_str("unknown augment ");
            e.append(debug_str(string_of(&lowered(&chars_of(s))).as_str()).as_str());
            e.append(" (expected 'light', 'medium' or 'strong')");
            Err(e)
        }
    }

    pub fn as_str(self) -> (r: &'static str)
        ensures
            r@ == augment_name(self),
    {
        match self {
            AugmentProfile::Light => "light",
            AugmentProfile::Medium => "medium",
            AugmentProfile::Strong => "strong",
        }
    }
}

/// The name of a strength reads back as that strength.
pub proof fn law_augment_roundtrip(profile: AugmentProfile)
    ensures
        augment_named(augment_name(profile)) == Some(profile),
{
    reveal_strlit("light");
    reveal_strlit("medium");
    reveal_strlit("strong");
    lemma_lower_keeps("light"@);
    lemma_lower_keeps("medium"@);
    lemma_lower_keeps("strong"@);
    assert("medium"@[0] != "strong"@[0]);
}

/// A name denotes a strength whatever its ASCII case, only these three names do,
/// and any other is quoted in the complaint, folded to lower case.
pub proof fn law_augment_names(s: Seq<char>, t: Seq<char>)
    ensures
        augment_named(s) == Some(AugmentProfile::Light) <==> lower(s) == "light"@,
        augment_named(s) == Some(AugmentProfile::Medium) <==> lower(s) == "medium"@,
        augment_named(s) == Some(AugmentProfile::Strong) <==> lower(s) == "strong"@,
        lower(s) == lower(t) ==> augment_named(s) == augment_named(t),
        augment_name(AugmentProfile::Light) == "light"@,
        augment_name(AugmentProfile::Medium) == "medium"@,
        augment_name(AugmentProfile::Strong) == "strong"@,
        unknown_augment(s) == "unknown augment "@ + str_debug(lower(s))
            + " (expected 'light', 'medium' or 'strong')"@,
{
    reveal_strlit("light");
    reveal_strlit("medium");
    reveal_strlit("strong");
    assert("medium"@[0] != "strong"@[0]);
    assert("light"@[0] != "strong"@[0]);
    assert("light"@[0] != "medium"@[0]);
}

} // verus!
