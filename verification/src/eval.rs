//! Statistics of an evaluation: accuracy over whole captchas, characters and
//! positions, for all files and for those that were held out of training.

use crate::charset::Charset;
use crate::counts::{format_counts, format_top_counts, CountKey, Counts};
use crate::data::{label_from_stem, shuffle_items, Dataset};
use crate::score::matched_chars;
use crate::text::{chars_of, show_usize};
use vstd::prelude::*;
use vstd::string::StringExecFns;

#[allow(unused_imports)]
use crate::charset::{dedup, law_dedup_members};
#[allow(unused_imports)]
use crate::counts::{
    count_in, lemma_occurrences_bound, lemma_table_of, lemma_tally_grows, occurrences, ranking_of,
    row_texts, table_of, tallies, top_text,
};
#[allow(unused_imports)]
use crate::data::{
    in_alphabet, is_order, label_of, permuted, pick_positions, shuffled_order, split_point,
    usable_stems,
};
#[allow(unused_imports)]
use crate::detect::as_ints;
#[allow(unused_imports)]
use crate::score::{law_full_match_is_equality, law_matches_are_positions, longer, matched};
#[allow(unused_imports)]
use crate::text::{decimal, join, lemma_first_index, texts};
#[allow(unused_imports)]
use vstd::arithmetic::div_mod::{lemma_fundamental_div_mod_converse, lemma_mod_multiples_basic};

verus! {

// ---------------------------------------------------------------------------
// What was evaluated
// ---------------------------------------------------------------------------
/// One evaluated file: its label, what was predicted, and whether it was held
/// out of training.
pub struct Record {
    pub label: Seq<char>,
    pub pred: Seq<char>,
    pub in_valid: bool,
}

/// The records of files that were held out of training.
pub open spec fn held_out(records: Seq<Record>) -> Seq<Record>
    decreases records.len(),
{
    if records.len() == 0 {
        Seq::empty()
    } else {
        let before = held_out(records.drop_last());
        if records.last().in_valid {
            before.push(records.last())
        } else {
            before
        }
    }
}

/// Number of files whose prediction is the label.
pub open spec fn full_correct(records: Seq<Record>) -> nat
    decreases records.len(),
{
    if records.len() == 0 {
        0
    } else {
        full_correct(records.drop_last()) + if records.last().pred == records.last().label {
            1nat
        } else {
            0nat
        }
    }
}

/// Number of predicted characters that stand where the label has them.
pub open spec fn char_correct(records: Seq<Record>) -> nat
    decreases records.len(),
{
    if records.len() == 0 {
        0
    } else {
        char_correct(records.drop_last()) + matched(records.last().pred, records.last().label)
    }
}

/// Number of characters that were to be predicted: of the longer of label and
/// prediction, so both missing and extra characters count as errors.
pub open spec fn char_total(records: Seq<Record>) -> nat
    decreases records.len(),
{
    if records.len() == 0 {
        0
    } else {
        char_total(records.drop_last()) + longer(records.last().pred, records.last().label)
    }
}

/// Number of files whose prediction has another length than the label.
pub open spec fn mismatched(records: Seq<Record>) -> nat
    decreases records.len(),
{
    if records.len() == 0 {
        0
    } else {
        let record = records.last();
        mismatched(records.drop_last()) + if record.pred.len() == record.label.len() {
            0nat
        } else {
            1nat
        }
    }
}

/// Lengths of the predictions.
pub open spec fn pred_lengths(records: Seq<Record>) -> Seq<usize> {
    Seq::new(records.len(), |i: int| records[i].pred.len() as usize)
}

/// The characters of all labels.
pub open spec fn label_chars(records: Seq<Record>) -> Seq<char>
    decreases records.len(),
{
    if records.len() == 0 {
        Seq::empty()
    } else {
        label_chars(records.drop_last()) + records.last().label
    }
}

/// The characters of all predictions.
pub open spec fn pred_chars(records: Seq<Record>) -> Seq<char>
    decreases records.len(),
{
    if records.len() == 0 {
        Seq::empty()
    } else {
        pred_chars(records.drop_last()) + records.last().pred
    }
}

/// Whether a record counts for a position: per-position statistics are only
/// meaningful when the prediction has the label's length.
pub open spec fn reaches(record: Record, p: int) -> bool {
    record.pred.len() == record.label.len() && 0 <= p < record.label.len()
}

/// Number of positions that some record counts for.
pub open spec fn positions(records: Seq<Record>) -> nat
    decreases records.len(),
{
    if records.len() == 0 {
        0
    } else {
        let before = positions(records.drop_last());
        let record = records.last();
        if record.pred.len() == record.label.len() && record.label.len() > before {
            record.label.len()
        } else {
            before
        }
    }
}

/// Number of records that count for a position.
pub open spec fn position_total(records: Seq<Record>, p: int) -> nat
    decreases records.len(),
{
    if records.len() == 0 {
        0
    } else {
        position_total(records.drop_last(), p) + if reaches(records.last(), p) {
            1nat
        } else {
            0nat
        }
    }
}

/// Number of records whose prediction is right at a position.
pub open spec fn position_correct(records: Seq<Record>, p: int) -> nat
    decreases records.len(),
{
    if records.len() == 0 {
        0
    } else {
        position_correct(records.drop_last(), p) + if reaches(records.last(), p)
            && records.last().pred[p] == records.last().label[p] {
            1nat
        } else {
            0nat
        }
    }
}

/// What was expected and predicted at a position where they differ.
pub open spec fn position_confusions(records: Seq<Record>, p: int) -> Seq<(char, char)>
    decreases records.len(),
{
    if records.len() == 0 {
        Seq::empty()
    } else {
        let before = position_confusions(records.drop_last(), p);
        let record = records.last();
        if reaches(record, p) && record.pred[p] != record.label[p] {
            before.push((record.label[p], record.pred[p]))
        } else {
            before
        }
    }
}

/// Number of characters of all labels and predictions.
pub open spec fn volume(records: Seq<Record>) -> nat
    decreases records.len(),
{
    if records.len() == 0 {
        0
    } else {
        volume(records.drop_last()) + records.last().label.len() + records.last().pred.len()
    }
}

// ---------------------------------------------------------------------------
// Laws
// ---------------------------------------------------------------------------
/// Counts never exceed what they are a part of: accuracies are fractions.
pub proof fn law_accuracies_are_fractions(records: Seq<Record>)
    ensures
        full_correct(records) <= records.len(),
        char_correct(records) <= char_total(records) <= volume(records),
        mismatched(records) <= records.len(),
        held_out(records).len() <= records.len(),
        label_chars(records).len() + pred_chars(records).len() == volume(records),
    decreases records.len(),
{
    if records.len() > 0 {
        law_accuracies_are_fractions(records.drop_last());
        law_full_match_is_equality(records.last().pred, records.last().label);
    }
}

/// All files are fully correct exactly when all characters are.
pub proof fn law_perfect_files_are_perfect_characters(records: Seq<Record>)
    ensures
        full_correct(records) == records.len() <==> char_correct(records) == char_total(records),
    decreases records.len(),
{
    if records.len() > 0 {
        law_perfect_files_are_perfect_characters(records.drop_last());
        law_accuracies_are_fractions(records.drop_last());
        law_full_match_is_equality(records.last().pred, records.last().label);
    }
}

/// A position's right and wrong predictions add up to those counted for it.
pub proof fn law_position_adds_up(records: Seq<Record>, p: int)
    ensures
        position_correct(records, p) + position_confusions(records, p).len() == position_total(
            records,
            p,
        ),
        position_total(records, p) + mismatched(records) <= records.len(),
        p >= positions(records) ==> position_total(records, p) == 0,
    decreases records.len(),
{
    if records.len() > 0 {
        law_position_adds_up(records.drop_last(), p);
        let record = records.last();
        let before = position_confusions(records.drop_last(), p);
        if reaches(record, p) && record.pred[p] != record.label[p] {
            let confusion = (record.label[p], record.pred[p]);
            assert(position_confusions(records, p) == before.push(confusion));
        } else {
            assert(position_confusions(records, p) == before);
        }
    }
}

/// What is counted for the held-out files is part of what is counted for all.
pub proof fn law_held_out_is_part(records: Seq<Record>)
    ensures
        held_out(records).len() <= records.len(),
        full_correct(held_out(records)) <= full_correct(records),
        char_correct(held_out(records)) <= char_correct(records),
        char_total(held_out(records)) <= char_total(records),
    decreases records.len(),
{
    if records.len() > 0 {
        law_held_out_is_part(records.drop_last());
        let before = held_out(records.drop_last());
        if records.last().in_valid {
            assert(before.push(records.last()).drop_last() =~= before);
        }
    }
}

/// A file is fully correct when its prediction is its label, character by
/// character and with nothing more or less: the number of such files is counted,
/// and it is the number of all files exactly when every prediction is its label.
pub proof fn law_full_correct_counts_equal_texts(records: Seq<Record>, files: Set<int>)
    requires
        forall|i: int| #[trigger]
            files.contains(i) <==> 0 <= i < records.len() && records[i].pred == records[i].label,
    ensures
        files.finite(),
        full_correct(records) == files.len(),
        full_correct(records) == records.len() <==> (forall|i: int|
            0 <= i < records.len() ==> (#[trigger] records[i]).pred == records[i].label),
    decreases records.len(),
{
    if records.len() == 0 {
        assert(files =~= Set::empty());
    } else {
        let n = records.len() - 1;
        let shorter = records.drop_last();
        let rest = files.remove(n);
        assert forall|i: int| #[trigger]
            rest.contains(i) <==> 0 <= i < shorter.len() && shorter[i].pred
                == shorter[i].label by {
            assert(files.contains(i) <==> 0 <= i < records.len() && records[i].pred
                == records[i].label);
        }
        law_full_correct_counts_equal_texts(shorter, rest);
        law_accuracies_are_fractions(shorter);
        if files.contains(n) {
            assert(files =~= rest.insert(n));
        } else {
            assert(files =~= rest);
        }
        if full_correct(records) == records.len() {
            assert forall|i: int| 0 <= i < records.len() implies (#[trigger] records[i]).pred
                == records[i].label by {
                if i < n {
                    assert(shorter[i] == records[i]);
                }
            }
        }
        if forall|i: int|
            0 <= i < records.len() ==> (#[trigger] records[i]).pred == records[i].label {
            assert forall|i: int| 0 <= i < shorter.len() implies (#[trigger] shorter[i]).pred
                == shorter[i].label by {
                assert(shorter[i] == records[i]);
            }
            assert(records[n].pred == records[n].label);
        }
    }
}

/// One more record adds, to the correct characters, the positions that
/// prediction and label share and at which they hold the same character; to the
/// characters in all, the length of the longer text.
pub proof fn law_record_adds_its_characters(
    records: Seq<Record>,
    record: Record,
    places: Set<int>,
)
    requires
        forall|i: int| #[trigger]
            places.contains(i) <==> 0 <= i < record.pred.len() && i < record.label.len()
                && record.pred[i] == record.label[i],
    ensures
        char_correct(records.push(record)) == char_correct(records) + places.len(),
        char_total(records.push(record)) == char_total(records) + if record.pred.len()
            > record.label.len() {
            record.pred.len()
        } else {
            record.label.len()
        },
        full_correct(records.push(record)) == full_correct(records) + if record.pred
            == record.label {
            1nat
        } else {
            0nat
        },
        mismatched(records.push(record)) == mismatched(records) + if record.pred.len()
            == record.label.len() {
            0nat
        } else {
            1nat
        },
        volume(records.push(record)) == volume(records) + record.label.len() + record.pred.len(),
{
    assert(records.push(record).drop_last() =~= records);
    law_matches_are_positions(record.pred, record.label, places);
}

/// What one record contributes to lists: its texts in full, the length of its
/// prediction, and itself to the held-out records when it is one.
pub proof fn law_record_adds_its_texts(records: Seq<Record>, record: Record)
    requires
        record.pred.len() <= usize::MAX,
    ensures
        label_chars(records.push(record)) == label_chars(records) + record.label,
        pred_chars(records.push(record)) == pred_chars(records) + record.pred,
        pred_lengths(records.push(record)) == pred_lengths(records).push(
            record.pred.len() as usize,
        ),
        record.in_valid ==> held_out(records.push(record)) == held_out(records).push(record),
        !record.in_valid ==> held_out(records.push(record)) == held_out(records),
{
    assert(records.push(record).drop_last() =~= records);
    assert(pred_lengths(records.push(record)) =~= pred_lengths(records).push(
        record.pred.len() as usize,
    ));
}

/// A record counts for the positions of its label when the prediction is as long
/// as the label, and for none otherwise; there it is right, or one more confusion
/// of what was expected with what was read.
pub proof fn law_record_adds_its_positions(records: Seq<Record>, record: Record, p: int)
    requires
        0 <= p,
    ensures
        ({
            let more = records.push(record);
            let same_length = record.pred.len() == record.label.len();
            let counted = same_length && p < record.label.len();
            &&& position_total(more, p) == position_total(records, p) + if counted {
                1nat
            } else {
                0nat
            }
            &&& position_correct(more, p) == position_correct(records, p) + if counted
                && record.pred[p] == record.label[p] {
                1nat
            } else {
                0nat
            }
            &&& position_confusions(more, p) == position_confusions(records, p) + if counted
                && record.pred[p] != record.label[p] {
                seq![(record.label[p], record.pred[p])]
            } else {
                Seq::<(char, char)>::empty()
            }
            &&& same_length && record.label.len() > positions(records) ==> positions(more)
                == record.label.len()
            &&& !same_length || record.label.len() <= positions(records) ==> positions(more)
                == positions(records)
        }),
{
    let more = records.push(record);
    assert(more.drop_last() =~= records);
    assert(more.last() == record);
    if reaches(record, p) && record.pred[p] != record.label[p] {
        let confusion = (record.label[p], record.pred[p]);
        assert(position_confusions(records, p).push(confusion) =~= position_confusions(records, p)
            + seq![confusion]);
    } else {
        assert(position_confusions(records, p) + Seq::<(char, char)>::empty()
            =~= position_confusions(records, p));
    }
}

/// Before the first record there is nothing to count.
pub proof fn law_nothing_evaluated(records: Seq<Record>, p: int)
    requires
        records.len() == 0,
    ensures
        full_correct(records) == 0,
        char_correct(records) == 0,
        char_total(records) == 0,
        mismatched(records) == 0,
        volume(records) == 0,
        positions(records) == 0,
        position_total(records, p) == 0,
        position_correct(records, p) == 0,
        position_confusions(records, p).len() == 0,
        label_chars(records).len() == 0,
        pred_chars(records).len() == 0,
        pred_lengths(records).len() == 0,
        held_out(records).len() == 0,
{
}

/// Two evaluations, one after the other, count together what each of them counts.
pub proof fn law_evaluations_add_up(a: Seq<Record>, b: Seq<Record>, p: int)
    ensures
        full_correct(a + b) == full_correct(a) + full_correct(b),
        char_correct(a + b) == char_correct(a) + char_correct(b),
        char_total(a + b) == char_total(a) + char_total(b),
        mismatched(a + b) == mismatched(a) + mismatched(b),
        position_total(a + b, p) == position_total(a, p) + position_total(b, p),
        position_correct(a + b, p) == position_correct(a, p) + position_correct(b, p),
        held_out(a + b) == held_out(a) + held_out(b),
    decreases b.len(),
{
    if b.len() == 0 {
        assert(a + b =~= a);
        assert(held_out(a) + held_out(b) =~= held_out(a));
    } else {
        law_evaluations_add_up(a, b.drop_last(), p);
        assert((a + b).drop_last() =~= a + b.drop_last());
        assert((a + b).last() == b.last());
        assert(held_out(a + b) =~= held_out(a) + held_out(b));
    }
}

// ---------------------------------------------------------------------------
// Statistics
// ---------------------------------------------------------------------------
/// Accuracy counts of a set of files.
#[derive(Clone, Copy, Debug, PartialEq, Eq, Structural)]
pub struct Score {
    pub total: usize,
    pub full_correct: usize,
    pub char_correct: usize,
    pub char_total: usize,
}

impl Score {
    /// Whether these are the counts of the records.
    pub open spec fn is_of(&self, records: Seq<Record>) -> bool {
        &&& self.total == records.len()
        &&& self.full_correct == full_correct(records)
        &&& self.char_correct == char_correct(records)
        &&& self.char_total == char_total(records)
    }

    fn add(&mut self, full: bool, matches: usize, chars: usize)
        requires
            old(self).total < usize::MAX,
            old(self).full_correct <= old(self).total,
            old(self).char_correct <= old(self).char_total,
            matches <= chars,
            old(self).char_total + chars <= usize::MAX,
        ensures
            final(self).total == old(self).total + 1,
            final(self).full_correct == old(self).full_correct + if full {
                1int
            } else {
                0int
            },
            final(self).char_correct == old(self).char_correct + matches,
            final(self).char_total == old(self).char_total + chars,
    {
        self.total = self.total + 1;
        if full {
            self.full_correct = self.full_correct + 1;
        }
        self.char_correct = self.char_correct + matches;
        self.char_total = self.char_total + chars;
    }
}

/// A score of records counts them all, the fully correct ones, and the correct
/// characters among all characters.
pub proof fn law_score_is_of_records(score: Score, records: Seq<Record>)
    ensures
        score.is_of(records) <==> score.total == records.len() && score.full_correct
            == full_correct(records) && score.char_correct == char_correct(records)
            && score.char_total == char_total(records),
{
}

/// Grow the per-position statistics to at least `len` positions.
pub fn ensure_positions(
    pos_correct: &mut Vec<usize>,
    pos_total: &mut Vec<usize>,
    pos_confusions: &mut Vec<Counts<(char, char)>>,
    len: usize,
)
    requires
        old(pos_correct)@.len() == old(pos_total)@.len(),
        old(pos_correct)@.len() == old(pos_confusions)@.len(),
    ensures
        final(pos_correct)@.len() == if old(pos_correct)@.len() < len {
            len as nat
        } else {
            old(pos_correct)@.len()
        },
        final(pos_total)@.len() == final(pos_correct)@.len(),
        final(pos_confusions)@.len() == final(pos_correct)@.len(),
        forall|i: int|
            0 <= i < final(pos_correct)@.len() ==> #[trigger] final(pos_correct)@[i] == if i < old(
                pos_correct,
            )@.len() {
                old(pos_correct)@[i]
            } else {
                0
            },
        forall|i: int|
            0 <= i < final(pos_total)@.len() ==> #[trigger] final(pos_total)@[i] == if i < old(
                pos_total,
            )@.len() {
                old(pos_total)@[i]
            } else {
                0
            },
        forall|i: int|
            0 <= i < final(pos_confusions)@.len() ==> if i < old(pos_confusions)@.len() {
                #[trigger] final(pos_confusions)@[i] == old(pos_confusions)@[i]
            } else {
                tallies(final(pos_confusions)@[i].rows(), Seq::empty())
            },
{
    let ghost correct = pos_correct@;
    let ghost total = pos_total@;
    let ghost confusions = pos_confusions@;
    while pos_correct.len() < len
        invariant
            pos_correct@.len() == pos_total@.len(),
            pos_correct@.len() == pos_confusions@.len(),
            correct.len() == total.len(),
            correct.len() == confusions.len(),
            correct.len() <= pos_correct@.len(),
            pos_correct@.len() <= correct.len() || pos_correct@.len() <= len,
            forall|i: int|
                0 <= i < pos_correct@.len() ==> #[trigger] pos_correct@[i] == if i
                    < correct.len() {
                    correct[i]
                } else {
                    0
                },
            forall|i: int|
                0 <= i < pos_total@.len() ==> #[trigger] pos_total@[i] == if i < total.len() {
                    total[i]
                } else {
                    0
                },
            forall|i: int|
                0 <= i < pos_confusions@.len() ==> if i < confusions.len() {
                    #[trigger] pos_confusions@[i] == confusions[i]
                } else {
                    tallies(pos_confusions@[i].rows(), Seq::empty())
                },
        decreases len - pos_correct@.len(),
    {
        pos_correct.push(0);
        pos_total.push(0);
        pos_confusions.push(Counts::new());
    }
}

/// The statistics of an evaluation.
pub struct EvalStats {
    all: Score,
    valid: Score,
    decode_failed: usize,
    length_mismatch: usize,
    volume: usize,
    pos_correct: Vec<usize>,
    pos_total: Vec<usize>,
    pos_confusions: Vec<Counts<(char, char)>>,
    pred_lengths: Counts<usize>,
    label_chars: Counts<char>,
    pred_chars: Counts<char>,
    records: Ghost<Seq<Record>>,
}

/// Whether per-position statistics are those of the records.
pub open spec fn positions_are_of(
    pos_correct: Seq<usize>,
    pos_total: Seq<usize>,
    pos_confusions: Seq<Counts<(char, char)>>,
    records: Seq<Record>,
) -> bool {
    &&& pos_correct.len() == positions(records)
    &&& pos_total.len() == positions(records)
    &&& pos_confusions.len() == positions(records)
    &&& forall|p: int|
        0 <= p < positions(records) ==> #[trigger] pos_correct[p] == position_correct(records, p)
    &&& forall|p: int|
        0 <= p < positions(records) ==> #[trigger] pos_total[p] == position_total(records, p)
    &&& forall|p: int|
        0 <= p < positions(records) ==> tallies(
            (#[trigger] pos_confusions[p]).rows(),
            position_confusions(records, p),
        )
}

/// Counts characters.
fn add_chars(counts: &mut Counts<char>, chars: &[char], Ghost(keys): Ghost<Seq<char>>)
    requires
        tallies(old(counts).rows(), keys),
        keys.len() + chars@.len() <= usize::MAX,
    ensures
        tallies(final(counts).rows(), keys + chars@),
{
    let n: usize = chars.len();
    assert(keys + chars@.take(0) =~= keys);
    for i in 0..n
        invariant
            n == chars@.len(),
            keys.len() + n <= usize::MAX,
            tallies(counts.rows(), keys + chars@.take(i as int)),
    {
        let c = chars[i];
        let ghost so_far = keys + chars@.take(i as int);
        let ghost rows = counts.rows();
        proof {
            lemma_occurrences_bound(so_far, c);
            assert(count_in(rows, c) == occurrences(so_far, c));
        }
        counts.add(c);
        proof {
            lemma_tally_grows(rows, counts.rows(), so_far, c);
            assert(so_far.push(c) =~= keys + chars@.take(i + 1));
        }
    }
    assert(chars@.take(n as int) =~= chars@);
}

/// Counts a prediction of the label's length, position by position.
fn add_positions(
    pos_correct: &mut Vec<usize>,
    pos_total: &mut Vec<usize>,
    pos_confusions: &mut Vec<Counts<(char, char)>>,
    label: &[char],
    pred: &[char],
    Ghost(records): Ghost<Seq<Record>>,
    Ghost(record): Ghost<Record>,
)
    requires
        positions_are_of(old(pos_correct)@, old(pos_total)@, old(pos_confusions)@, records),
        record.label == label@,
        record.pred == pred@,
        label@.len() == pred@.len(),
        records.len() < usize::MAX,
    ensures
        positions_are_of(
            final(pos_correct)@,
            final(pos_total)@,
            final(pos_confusions)@,
            records.push(record),
        ),
{
    let n: usize = label.len();
    let ghost more = records.push(record);
    ensure_positions(pos_correct, pos_total, pos_confusions, n);
    let ghost size = pos_correct@.len();
    proof {
        assert(more.drop_last() =~= records);
        assert(size == positions(more));
        assert forall|p: int| 0 <= p < size implies #[trigger] pos_correct@[p] == position_correct(
            records,
            p,
        ) by {
            law_position_adds_up(records, p);
        }
        assert forall|p: int| 0 <= p < size implies #[trigger] pos_total@[p] == position_total(
            records,
            p,
        ) by {
            law_position_adds_up(records, p);
        }
        assert forall|p: int| 0 <= p < size implies tallies(
            (#[trigger] pos_confusions@[p]).rows(),
            position_confusions(records, p),
        ) by {
            law_position_adds_up(records, p);
            if p >= positions(records) {
                assert(position_confusions(records, p) =~= Seq::empty());
            }
        }
    }
    for i in 0..n
        invariant
            n == label@.len(),
            n == pred@.len(),
            n <= size,
            size == positions(more),
            more == records.push(record),
            more.drop_last() == records,
            records.len() < usize::MAX,
            record.label == label@,
            record.pred == pred@,
            pos_correct@.len() == size,
            pos_total@.len() == size,
            pos_confusions@.len() == size,
            forall|p: int|
                0 <= p < size ==> #[trigger] pos_correct@[p] == position_correct(
                    if p < i {
                        more
                    } else {
                        records
                    },
                    p,
                ),
            forall|p: int|
                0 <= p < size ==> #[trigger] pos_total@[p] == position_total(
                    if p < i {
                        more
                    } else {
                        records
                    },
                    p,
                ),
            forall|p: int|
                0 <= p < size ==> tallies(
                    (#[trigger] pos_confusions@[p]).rows(),
                    position_confusions(
                        if p < i {
                            more
                        } else {
                            records
                        },
                        p,
                    ),
                ),
    {
        proof {
            law_position_adds_up(records, i as int);
            assert(pos_correct@[i as int] == position_correct(records, i as int));
            assert(pos_total@[i as int] == position_total(records, i as int));
            assert(tallies(
                pos_confusions@[i as int].rows(),
                position_confusions(records, i as int),
            ));
        }
        let ghost earlier = pos_confusions@;
        let expected = label[i];
        let actual = pred[i];
        let seen: usize = pos_total[i];
        pos_total.set(i, seen + 1);
        if actual == expected {
            let right: usize = pos_correct[i];
            pos_correct.set(i, right + 1);
        } else {
            let confusion = (expected, actual);
            let ghost rows = pos_confusions@[i as int].rows();
            let ghost keys = position_confusions(records, i as int);
            proof {
                lemma_occurrences_bound(keys, confusion);
                assert(count_in(rows, confusion) == occurrences(keys, confusion));
            }
            pos_confusions[i].add(confusion);
            proof {
                lemma_tally_grows(rows, pos_confusions@[i as int].rows(), keys, confusion);
            }
        }
        assert forall|p: int| 0 <= p < size implies tallies(
            (#[trigger] pos_confusions@[p]).rows(),
            position_confusions(
                if p < i + 1 {
                    more
                } else {
                    records
                },
                p,
            ),
        ) by {
            if p != i {
                assert(pos_confusions@[p] == earlier[p]);
            }
        }
    }
    proof {
        assert forall|p: int| 0 <= p < size implies #[trigger] pos_correct@[p] == position_correct(
            more,
            p,
        ) by {}
        assert forall|p: int| 0 <= p < size implies #[trigger] pos_total@[p] == position_total(
            more,
            p,
        ) by {}
        assert forall|p: int| 0 <= p < size implies tallies(
            (#[trigger] pos_confusions@[p]).rows(),
            position_confusions(more, p),
        ) by {}
    }
}

impl EvalStats {
    /// What was evaluated so far, in order.
    pub closed spec fn records(&self) -> Seq<Record> {
        self.records@
    }

    /// Number of files that could not be decoded so far.
    pub closed spec fn spec_decode_failed(&self) -> nat {
        self.decode_failed as nat
    }

    /// All numbers are those of the records.
    pub closed spec fn wf(&self) -> bool {
        let records = self.records@;
        &&& self.all.is_of(records)
        &&& self.valid.is_of(held_out(records))
        &&& self.length_mismatch == mismatched(records)
        &&& self.volume == volume(records)
        &&& positions_are_of(self.pos_correct@, self.pos_total@, self.pos_confusions@, records)
        &&& tallies(self.pred_lengths.rows(), pred_lengths(records))
        &&& tallies(self.label_chars.rows(), label_chars(records))
        &&& tallies(self.pred_chars.rows(), pred_chars(records))
    }

    /// Nothing evaluated yet.
    pub fn new() -> (r: Self)
        ensures
            r.wf(),
            r.records().len() == 0,
            r.spec_decode_failed() == 0,
    {
        let zero = Score { total: 0, full_correct: 0, char_correct: 0, char_total: 0 };
        assert(pred_lengths(Seq::<Record>::empty()) =~= Seq::empty());
        EvalStats {
            all: zero,
            valid: zero,
            decode_failed: 0,
            length_mismatch: 0,
            volume: 0,
            pos_correct: Vec::new(),
            pos_total: Vec::new(),
            pos_confusions: Vec::new(),
            pred_lengths: Counts::new(),
            label_chars: Counts::new(),
            pred_chars: Counts::new(),
            records: Ghost(Seq::empty()),
        }
    }

    /// Whether one more file with a label and a prediction of these lengths can
    /// be counted without exceeding what a counter holds.
    pub fn has_room(&self, label_len: usize, pred_len: usize) -> (r: bool)
        requires
            self.wf(),
        ensures
            r == (self.records().len() < usize::MAX && volume(self.records()) + label_len + pred_len
                <= usize::MAX),
    {
        self.all.total < usize::MAX && label_len <= usize::MAX - self.volume && pred_len
            <= usize::MAX - self.volume - label_len
    }

    /// Count a file that could not be decoded. Returns whether to tell about it:
    /// only the first few are.
    pub fn record_failure(&mut self) -> (r: bool)
        requires
            old(self).wf(),
            old(self).spec_decode_failed() < usize::MAX,
        ensures
            final(self).wf(),
            final(self).records() == old(self).records(),
            final(self).spec_decode_failed() == old(self).spec_decode_failed() + 1,
            r == (final(self).spec_decode_failed() <= 5),
    {
        self.decode_failed = self.decode_failed + 1;
        self.decode_failed <= 5
    }

    /// Count an evaluated file.
    pub fn record(&mut self, label: &[char], pred: &[char], in_valid: bool)
        requires
            old(self).wf(),
            old(self).records().len() < usize::MAX,
            volume(old(self).records()) + label@.len() + pred@.len() <= usize::MAX,
        ensures
            final(self).wf(),
            final(self).records() == old(self).records().push(
                Record { label: label@, pred: pred@, in_valid },
            ),
            final(self).spec_decode_failed() == old(self).spec_decode_failed(),
    {
        let ghost before = self.records@;
        let ghost record = Record { label: label@, pred: pred@, in_valid };
        let ghost after = before.push(record);
        let matches: usize = matched_chars(pred, label);
        let chars: usize = if pred.len() < label.len() {
            label.len()
        } else {
            pred.len()
        };
        proof {
            assert(after.drop_last() =~= before);
            law_full_match_is_equality(pred@, label@);
            law_accuracies_are_fractions(before);
            law_accuracies_are_fractions(held_out(before));
            law_held_out_is_part(before);
            if in_valid {
                assert(held_out(before).push(record).drop_last() =~= held_out(before));
            }
        }
        let full = pred.len() == label.len() && matches == label.len();
        self.all.add(full, matches, chars);
        if in_valid {
            self.valid.add(full, matches, chars);
        }
        self.volume = self.volume + label.len() + pred.len();

        let ghost keys = pred_lengths(before);
        let ghost rows = self.pred_lengths.rows();
        let pred_len: usize = pred.len();
        proof {
            lemma_occurrences_bound(keys, pred_len);
            assert(count_in(rows, pred_len) == occurrences(keys, pred_len));
        }
        self.pred_lengths.add(pred_len);
        proof {
            lemma_tally_grows(rows, self.pred_lengths.rows(), keys, pred_len);
            assert(keys.push(pred_len) =~= pred_lengths(after));
        }
        add_chars(&mut self.label_chars, label, Ghost(label_chars(before)));
        add_chars(&mut self.pred_chars, pred, Ghost(pred_chars(before)));

        if pred.len() == label.len() {
            add_positions(
                &mut self.pos_correct,
                &mut self.pos_total,
                &mut self.pos_confusions,
                label,
                pred,
                Ghost(before),
                Ghost(record),
            );
        } else {
            self.length_mismatch = self.length_mismatch + 1;
            proof {
                assert forall|p: int| position_correct(after, p) == position_correct(before, p)
                    && position_total(after, p) == position_total(before, p) && position_confusions(
                    after,
                    p,
                ) == position_confusions(before, p) by {}
            }
        }
        proof {
            self.records@ = after;
        }
    }

    /// The counts of all evaluated files.
    pub fn all(&self) -> (r: Score)
        requires
            self.wf(),
        ensures
            r.is_of(self.records()),
    {
        self.all
    }

    /// The counts of the files that were held out of training.
    pub fn valid(&self) -> (r: Score)
        requires
            self.wf(),
        ensures
            r.is_of(held_out(self.records())),
    {
        self.valid
    }

    /// Number of files that could not be decoded.
    pub fn decode_failed(&self) -> (r: usize)
        ensures
            r == self.spec_decode_failed(),
    {
        self.decode_failed
    }

    /// Number of files whose prediction has another length than the label.
    pub fn length_mismatch(&self) -> (r: usize)
        requires
            self.wf(),
        ensures
            r == mismatched(self.records()),
    {
        self.length_mismatch
    }

    /// How often each prediction length occurred.
    pub fn pred_lengths(&self) -> (r: &[(usize, usize)])
        requires
            self.wf(),
        ensures
            tallies(r@, pred_lengths(self.records())),
    {
        self.pred_lengths.as_slice()
    }

    /// How often each character occurred in labels.
    pub fn label_chars(&self) -> (r: &[(char, usize)])
        requires
            self.wf(),
        ensures
            tallies(r@, label_chars(self.records())),
    {
        self.label_chars.as_slice()
    }

    /// How often each character occurred in predictions.
    pub fn pred_chars(&self) -> (r: &[(char, usize)])
        requires
            self.wf(),
        ensures
            tallies(r@, pred_chars(self.records())),
    {
        self.pred_chars.as_slice()
    }

    /// Number of positions with statistics.
    pub fn positions(&self) -> (r: usize)
        requires
            self.wf(),
        ensures
            r == positions(self.records()),
    {
        self.pos_total.len()
    }

    /// Right predictions, all predictions and confusions at a position.
    pub fn position(&self, p: usize) -> (r: (usize, usize, &[((char, char), usize)]))
        requires
            self.wf(),
            p < positions(self.records()),
        ensures
            r.0 == position_correct(self.records(), p as int),
            r.1 == position_total(self.records(), p as int),
            tallies(r.2@, position_confusions(self.records(), p as int)),
    {
        assert(tallies(self.pos_confusions@[p as int].rows(), position_confusions(
            self.records@,
            p as int,
        )));
        (self.pos_correct[p], self.pos_total[p], self.pos_confusions[p].as_slice())
    }
}

// ---------------------------------------------------------------------------
// Report
// ---------------------------------------------------------------------------
/// Whether progress is told after `seen` files: every so many, and never if that
/// is 0.
pub open spec fn is_progress_due(seen: nat, progress_every: nat) -> bool {
    progress_every != 0 && seen != 0 && seen % progress_every == 0
}

/// The line about the progress of an evaluation, if it is due. `full` is the
/// percentage of fully correct files.
pub fn progress_line(
    seen: usize,
    planned: usize,
    progress_every: usize,
    total: usize,
    full: &str,
) -> (r: Option<String>)
    ensures
        match r {
            Some(line) => is_progress_due(seen as nat, progress_every as nat) && line@
                == "Eval progress: "@ + decimal(seen as nat) + "/"@ + decimal(planned as nat)
                + " files, usable "@ + decimal(total as nat) + ", full "@ + full@ + "%"@,
            None => !is_progress_due(seen as nat, progress_every as nat),
        },
{
    if progress_every == 0 || seen == 0 || seen % progress_every != 0 {
        return None;
    }
    let mut line = String::from_str("Eval progress: ");
    line.append(show_usize(seen).as_str());
    line.append("/");
    line.append(show_usize(planned).as_str());
    line.append(" files, usable ");
    line.append(show_usize(total).as_str());
    line.append(", full ");
    line.append(full);
    line.append("%");
    Some(line)
}

/// The percentages of a report, with two decimals.
pub struct Percents {
    pub full: String,
    pub chars: String,
    pub valid_full: String,
    pub valid_chars: String,
    pub positions: Vec<String>,
}

/// A line, if there is cause for it.
pub open spec fn line_if(cause: bool, line: Seq<char>) -> Seq<Seq<char>> {
    if cause {
        seq![line]
    } else {
        Seq::empty()
    }
}

/// The lines about the held-out files. `valid_files` is the number of files that
/// training held out, if they are known.
pub open spec fn held_out_lines(
    records: Seq<Record>,
    decode_failed: nat,
    percents: Percents,
    valid_files: Option<usize>,
    artifacts: Seq<char>,
) -> Seq<Seq<char>> {
    let evaluated = held_out(records).len();
    match valid_files {
        Some(files) => if evaluated > 0 {
            seq![
                "Held-out (training validation split, "@ + decimal(evaluated) + "/"@ + decimal(
                    files as nat,
                ) + " files): full-captcha "@ + percents.valid_full@ + "%, char "@
                    + percents.valid_chars@ + "%"@,
            ] + line_if(
                decode_failed > 0,
                "  note: decode failures can shift the reconstructed split — treat as approximate"@,
            )
        } else {
            seq!["Held-out: no validation-split files were evaluated (raise --limit)"@]
        },
        None => seq![
            "Held-out: cannot reconstruct the training split (no readable config.json in "@
                + artifacts + ")"@,
        ],
    }
}

/// The line about a position.
pub open spec fn position_line(records: Seq<Record>, p: int, percent: Seq<char>, top: nat) -> Seq<
    char,
> {
    "  pos "@ + decimal((p + 1) as nat) + ": "@ + percent + "%  top errors: "@ + top_text(
        ranking_of(table_of(position_confusions(records, p))),
        top,
    )
}

/// The lines about all positions.
pub open spec fn position_lines(records: Seq<Record>, percents: Seq<String>, top: nat) -> Seq<
    Seq<char>,
> {
    Seq::new(
        positions(records),
        |p: int| position_line(records, p, percents[p]@, top),
    )
}

/// The text of how often each key occurs.
pub open spec fn counts_text<K: CountKey>(keys: Seq<K>) -> Seq<char> {
    join(row_texts(table_of(keys)), " "@)
}

/// The report of an evaluation, line by line.
pub open spec fn report_lines(
    records: Seq<Record>,
    decode_failed: nat,
    percents: Percents,
    top: nat,
    valid_files: Option<usize>,
    artifacts: Seq<char>,
) -> Seq<Seq<char>> {
    seq!["Evaluated: "@ + decimal(records.len()) + " examples"@] + line_if(
        decode_failed > 0,
        "Skipped decode failures: "@ + decimal(decode_failed),
    ) + seq![
        "Full-captcha accuracy: "@ + percents.full@ + "%"@,
        "Character accuracy: "@ + percents.chars@ + "%"@,
    ] + held_out_lines(records, decode_failed, percents, valid_files, artifacts) + seq![
        "Prediction lengths: "@ + counts_text(pred_lengths(records)),
        "Label chars: "@ + counts_text(label_chars(records)),
        "Pred chars:  "@ + counts_text(pred_chars(records)),
    ] + line_if(
        mismatched(records) > 0,
        "Length mismatches: "@ + decimal(mismatched(records))
            + " (excluded from per-position stats below)"@,
    ) + seq!["Position accuracy:"@] + position_lines(records, percents.positions@, top)
}

/// Progress is told after every so many files: at the multiples of that number,
/// but not before the first file, and never when it is 0.
pub proof fn law_progress_is_told_at_multiples(seen: nat, progress_every: nat, k: nat)
    ensures
        progress_every == 0 ==> !is_progress_due(seen, progress_every),
        !is_progress_due(0, progress_every),
        progress_every > 0 && k > 0 ==> is_progress_due(k * progress_every, progress_every),
        progress_every > 0 && k * progress_every < seen < (k + 1) * progress_every
            ==> !is_progress_due(seen, progress_every),
{
    let every = progress_every as int;
    if every > 0 {
        lemma_mod_multiples_basic(k as int, every);
        assert(k * progress_every > 0 || k == 0) by (nonlinear_arith)
            requires
                progress_every > 0,
        ;
        if k * progress_every < seen < (k + 1) * progress_every {
            assert((k + 1) * progress_every == k * progress_every + progress_every)
                by (nonlinear_arith);
            let over = seen - k * progress_every;
            lemma_fundamental_div_mod_converse(seen as int, every, k as int, over);
        }
    }
}

/// What is said about the held-out files: how many of them were evaluated and how
/// well, and that failures to decode blur the split; that none were evaluated; or
/// that they are not known.
pub proof fn law_held_out_is_reported(
    records: Seq<Record>,
    decode_failed: nat,
    percents: Percents,
    files: usize,
    artifacts: Seq<char>,
)
    ensures
        ({
            let lines = held_out_lines(records, decode_failed, percents, Some(files), artifacts);
            &&& held_out(records).len() > 0 ==> lines.len() == if decode_failed > 0 {
                2nat
            } else {
                1nat
            } && lines[0] == "Held-out (training validation split, "@ + decimal(
                held_out(records).len(),
            ) + "/"@ + decimal(files as nat) + " files): full-captcha "@ + percents.valid_full@
                + "%, char "@ + percents.valid_chars@ + "%"@
            &&& held_out(records).len() > 0 && decode_failed > 0 ==> lines[1]
                == "  note: decode failures can shift the reconstructed split — treat as approximate"@
            &&& held_out(records).len() == 0 ==> lines
                == seq!["Held-out: no validation-split files were evaluated (raise --limit)"@]
        }),
        held_out_lines(records, decode_failed, percents, None, artifacts) == seq![
            "Held-out: cannot reconstruct the training split (no readable config.json in "@
                + artifacts + ")"@,
        ],
{
}

/// The lines of a report and their order: how many files were evaluated, how many
/// could not be decoded if any, the two accuracies, the held-out files, the three
/// tables, the mismatched lengths if any, and one line for each position.
pub proof fn law_report_is_in_order(
    records: Seq<Record>,
    decode_failed: nat,
    percents: Percents,
    top: nat,
    valid_files: Option<usize>,
    artifacts: Seq<char>,
    k: int,
)
    requires
        0 <= k,
    ensures
        ({
            let lines = report_lines(
                records,
                decode_failed,
                percents,
                top,
                valid_files,
                artifacts,
            );
            let held = held_out_lines(records, decode_failed, percents, valid_files, artifacts);
            let failed: int = if decode_failed > 0 {
                1
            } else {
                0
            };
            let uneven: int = if mismatched(records) > 0 {
                1
            } else {
                0
            };
            let tables = 3 + failed + held.len();
            let last = tables + 3 + uneven;
            &&& lines.len() == last + 1 + positions(records)
            &&& lines[0] == "Evaluated: "@ + decimal(records.len()) + " examples"@
            &&& decode_failed > 0 ==> lines[1] == "Skipped decode failures: "@ + decimal(
                decode_failed,
            )
            &&& lines[1 + failed] == "Full-captcha accuracy: "@ + percents.full@ + "%"@
            &&& lines[2 + failed] == "Character accuracy: "@ + percents.chars@ + "%"@
            &&& k < held.len() ==> lines[3 + failed + k] == held[k]
            &&& lines[tables] == "Prediction lengths: "@ + join(
                row_texts(table_of(pred_lengths(records))),
                " "@,
            )
            &&& lines[tables + 1] == "Label chars: "@ + join(
                row_texts(table_of(label_chars(records))),
                " "@,
            )
            &&& lines[tables + 2] == "Pred chars:  "@ + join(
                row_texts(table_of(pred_chars(records))),
                " "@,
            )
            &&& mismatched(records) > 0 ==> lines[tables + 3] == "Length mismatches: "@ + decimal(
                mismatched(records),
            ) + " (excluded from per-position stats below)"@
            &&& lines[last] == "Position accuracy:"@
            &&& k < positions(records) ==> lines[last + 1 + k] == "  pos "@ + decimal(
                (k + 1) as nat,
            ) + ": "@ + percents.positions@[k]@ + "%  top errors: "@ + top_text(
                ranking_of(table_of(position_confusions(records, k))),
                top,
            )
        }),
{
}

/// `before`, then a text, then `after`.
fn wrapped(before: &str, text: &str, after: &str) -> (r: String)
    ensures
        r@ == before@ + text@ + after@,
{
    let mut s = String::from_str(before);
    s.append(text);
    s.append(after);
    s
}

/// Adds a line.
fn push_line(lines: &mut Vec<String>, line: String)
    ensures
        texts(final(lines)@) == texts(old(lines)@).push(line@),
{
    let ghost before = lines@;
    lines.push(line);
    assert(texts(lines@) =~= texts(before).push(line@));
}

impl EvalStats {
    /// Adds the lines about the held-out files.
    fn push_held_out(
        &self,
        lines: &mut Vec<String>,
        percents: &Percents,
        valid_files: Option<usize>,
        artifacts: &str,
    )
        requires
            self.wf(),
        ensures
            texts(final(lines)@) == texts(old(lines)@) + held_out_lines(
                self.records(),
                self.spec_decode_failed(),
                *percents,
                valid_files,
                artifacts@,
            ),
    {
        let ghost before = texts(lines@);
        match valid_files {
            Some(files) => {
                if self.valid.total > 0 {
                    let mut s = String::from_str("Held-out (training validation split, ");
                    s.append(show_usize(self.valid.total).as_str());
                    s.append("/");
                    s.append(show_usize(files).as_str());
                    s.append(" files): full-captcha ");
                    s.append(percents.valid_full.as_str());
                    s.append("%, char ");
                    s.append(percents.valid_chars.as_str());
                    s.append("%");
                    let ghost line = s@;
                    push_line(lines, s);
                    if self.decode_failed > 0 {
                        push_line(
                            lines,
                            String::from_str(
                                "  note: decode failures can shift the reconstructed split — treat as approximate",
                            ),
                        );
                    }
                    assert(texts(lines@) =~= before + (seq![line] + line_if(
                        self.decode_failed > 0,
                        "  note: decode failures can shift the reconstructed split — treat as approximate"@,
                    )));
                } else {
                    push_line(
                        lines,
                        String::from_str(
                            "Held-out: no validation-split files were evaluated (raise --limit)",
                        ),
                    );
                    assert(texts(lines@) =~= before + seq![
                        "Held-out: no validation-split files were evaluated (raise --limit)"@,
                    ]);
                }
            },
            None => {
                let s = wrapped(
                    "Held-out: cannot reconstruct the training split (no readable config.json in ",
                    artifacts,
                    ")",
                );
                let ghost line = s@;
                push_line(lines, s);
                assert(texts(lines@) =~= before + seq![line]);
            },
        }
    }

    /// Adds the lines about all positions.
    fn push_positions(&self, lines: &mut Vec<String>, percents: &[String], top: usize)
        requires
            self.wf(),
            percents@.len() == positions(self.records()),
        ensures
            texts(final(lines)@) == texts(old(lines)@) + position_lines(
                self.records(),
                percents@,
                top as nat,
            ),
    {
        let ghost before = texts(lines@);
        let ghost all = position_lines(self.records(), percents@, top as nat);
        let n: usize = self.positions();
        assert(before + all.take(0) =~= before);
        for p in 0..n
            invariant
                self.wf(),
                n == positions(self.records()),
                n == percents@.len(),
                all == position_lines(self.records(), percents@, top as nat),
                texts(lines@) == before + all.take(p as int),
        {
            let (_correct, _total, confusions) = self.position(p);
            proof {
                lemma_table_of(confusions@, position_confusions(self.records(), p as int));
            }
            let mut s = String::from_str("  pos ");
            s.append(show_usize(p + 1).as_str());
            s.append(": ");
            s.append(percents[p].as_str());
            s.append("%  top errors: ");
            s.append(format_top_counts(confusions, top).as_str());
            assert(s@ == all[p as int]);
            push_line(lines, s);
            assert(texts(lines@) =~= before + all.take(p + 1));
        }
        assert(all.take(n as int) =~= all);
    }

    /// The report of an evaluation, line by line. `top` is the number of
    /// confusions to list per position; `valid_files` is the number of files
    /// that training held out, if they are known; `artifacts` names the folder of
    /// the model.
    pub fn report(
        &self,
        percents: &Percents,
        top: usize,
        valid_files: Option<usize>,
        artifacts: &str,
    ) -> (r: Vec<String>)
        requires
            self.wf(),
            percents.positions@.len() == positions(self.records()),
        ensures
            texts(r@) == report_lines(
                self.records(),
                self.spec_decode_failed(),
                *percents,
                top as nat,
                valid_files,
                artifacts@,
            ),
    {
        let mut lines: Vec<String> = Vec::new();
        let ghost records = self.records();
        let ghost failed = self.spec_decode_failed();
        assert(texts(lines@) =~= Seq::empty());
        push_line(
            &mut lines,
            wrapped("Evaluated: ", show_usize(self.all.total).as_str(), " examples"),
        );
        let ghost part = seq!["Evaluated: "@ + decimal(records.len()) + " examples"@];
        assert(texts(lines@) =~= part);
        if self.decode_failed > 0 {
            push_line(
                &mut lines,
                wrapped("Skipped decode failures: ", show_usize(self.decode_failed).as_str(), ""),
            );
            proof {
                reveal_strlit("");
                assert("Skipped decode failures: "@ + decimal(failed) + ""@
                    =~= "Skipped decode failures: "@ + decimal(failed));
            }
        }
        let ghost part = part + line_if(
            failed > 0,
            "Skipped decode failures: "@ + decimal(failed),
        );
        assert(texts(lines@) =~= part);
        push_line(&mut lines, wrapped("Full-captcha accuracy: ", percents.full.as_str(), "%"));
        push_line(&mut lines, wrapped("Character accuracy: ", percents.chars.as_str(), "%"));
        let ghost part = part + seq![
            "Full-captcha accuracy: "@ + percents.full@ + "%"@,
            "Character accuracy: "@ + percents.chars@ + "%"@,
        ];
        assert(texts(lines@) =~= part);
        self.push_held_out(&mut lines, percents, valid_files, artifacts);
        let ghost part = part + held_out_lines(records, failed, *percents, valid_files, artifacts@);
        assert(texts(lines@) == part);

        proof {
            lemma_table_of(self.pred_lengths.rows(), pred_lengths(records));
            lemma_table_of(self.label_chars.rows(), label_chars(records));
            lemma_table_of(self.pred_chars.rows(), pred_chars(records));
        }
        let mut s = String::from_str("Prediction lengths: ");
        s.append(format_counts(self.pred_lengths.as_slice()).as_str());
        push_line(&mut lines, s);
        let mut s = String::from_str("Label chars: ");
        s.append(format_counts(self.label_chars.as_slice()).as_str());
        push_line(&mut lines, s);
        let mut s = String::from_str("Pred chars:  ");
        s.append(format_counts(self.pred_chars.as_slice()).as_str());
        push_line(&mut lines, s);
        let ghost part = part + seq![
            "Prediction lengths: "@ + counts_text(pred_lengths(records)),
            "Label chars: "@ + counts_text(label_chars(records)),
            "Pred chars:  "@ + counts_text(pred_chars(records)),
        ];
        assert(texts(lines@) =~= part);
        if self.length_mismatch > 0 {
            push_line(
                &mut lines,
                wrapped(
                    "Length mismatches: ",
                    show_usize(self.length_mismatch).as_str(),
                    " (excluded from per-position stats below)",
                ),
            );
        }
        let ghost part = part + line_if(
            mismatched(records) > 0,
            "Length mismatches: "@ + decimal(mismatched(records))
                + " (excluded from per-position stats below)"@,
        );
        assert(texts(lines@) =~= part);
        push_line(&mut lines, String::from_str("Position accuracy:"));
        let ghost part = part + seq!["Position accuracy:"@];
        assert(texts(lines@) =~= part);
        self.push_positions(&mut lines, &percents.positions, top);
        lines
    }
}

// ---------------------------------------------------------------------------
// Files
// ---------------------------------------------------------------------------
/// Positions of the stems with a label, in order.
pub open spec fn labelled_positions(stems: Seq<Seq<char>>) -> Seq<int>
    decreases stems.len(),
{
    if stems.len() == 0 {
        Seq::empty()
    } else {
        let before = labelled_positions(stems.drop_last());
        if label_of(stems.last()).len() > 0 {
            before.push(stems.len() - 1)
        } else {
            before
        }
    }
}

/// The files with a label are those whose stem starts with something else than
/// `_`; each is listed once and in order.
pub proof fn law_labelled_files_are_exact(stems: Seq<Seq<char>>, i: int)
    requires
        0 <= i < stems.len(),
    ensures
        labelled_positions(stems).contains(i) <==> stems[i].len() > 0 && stems[i][0] != '_',
        forall|k: int|
            0 <= k < labelled_positions(stems).len() ==> 0 <= (
            #[trigger] labelled_positions(stems)[k]) < stems.len(),
        forall|a: int, b: int|
            0 <= a < b < labelled_positions(stems).len() ==> (
            #[trigger] labelled_positions(stems)[a]) < (#[trigger] labelled_positions(stems)[b]),
    decreases stems.len(),
{
    let shorter = stems.drop_last();
    let before = labelled_positions(shorter);
    let all = labelled_positions(stems);
    let n = shorter.len() as int;
    let stem = stems.last();
    lemma_first_index(stem, '_');
    assert(label_of(stem).len() > 0 <==> stem.len() > 0 && stem[0] != '_');
    if n > 0 {
        law_labelled_files_are_exact(
            shorter,
            if i < n {
                i
            } else {
                0
            },
        );
    }
    if i < n {
        assert(shorter[i] == stems[i]);
        if before.contains(i) {
            let k = choose|k: int| 0 <= k < before.len() && before[k] == i;
            assert(all[k] == i);
        }
        if all.contains(i) {
            let k = choose|k: int| 0 <= k < all.len() && all[k] == i;
            assert(k < before.len());
            assert(before[k] == i);
        }
    } else {
        if label_of(stem).len() > 0 {
            assert(all[before.len() as int] == i);
        } else if all.contains(i) {
            let k = choose|k: int| 0 <= k < all.len() && all[k] == i;
            assert(before[k] < n);
        }
    }
}

/// Choose the files with a label.
pub fn labelled_files(stems: &[String]) -> (r: Vec<usize>)
    ensures
        as_ints(r@) == labelled_positions(texts(stems@)),
{
    let n: usize = stems.len();
    let ghost all = texts(stems@);
    let mut files: Vec<usize> = Vec::new();
    assert(all.take(0) =~= Seq::empty());
    assert(as_ints(files@) =~= Seq::empty());
    for i in 0..n
        invariant
            n == stems@.len(),
            all == texts(stems@),
            as_ints(files@) == labelled_positions(all.take(i as int)),
    {
        let ghost before = files@;
        proof {
            let next = all.take(i + 1);
            assert(next.drop_last() =~= all.take(i as int));
            assert(next.last() == stems@[i as int]@);
        }
        if chars_of(label_from_stem(stems[i].as_str())).len() > 0 {
            files.push(i);
            assert(as_ints(files@) =~= as_ints(before).push(i as int));
        }
    }
    assert(all.take(n as int) =~= all);
    files
}

/// How many of the files are evaluated.
pub fn planned_files(files: usize, limit: Option<usize>) -> (r: usize)
    ensures
        r == match limit {
            Some(most) => if most < files {
                most
            } else {
                files
            },
            None => files,
        },
{
    match limit {
        Some(most) => if most < files {
            most
        } else {
            files
        },
        None => files,
    }
}

/// The label of a file with this stem.
pub fn label_for_path(stem: &str) -> (r: String)
    ensures
        r@ == label_of(stem@),
{
    String::from_str(label_from_stem(stem))
}

// ---------------------------------------------------------------------------
// Validation split
// ---------------------------------------------------------------------------
/// The files that a training run on the candidates validates on, if it is split
/// after `n_train` files.
pub open spec fn held_out_files(candidates: Seq<int>, seed: u64, n_train: int) -> Seq<int> {
    permuted(candidates, shuffled_order(seed, candidates.len())).skip(
        split_point(n_train, candidates.len() as int),
    )
}

proof fn lemma_same_alphabet(
    stems: Seq<Seq<char>>,
    a: Seq<char>,
    b: Seq<char>,
    min_len: int,
    max_len: int,
)
    requires
        forall|c: char| a.contains(c) <==> b.contains(c),
    ensures
        usable_stems(stems, a, min_len, max_len) == usable_stems(stems, b, min_len, max_len),
    decreases stems.len(),
{
    if stems.len() > 0 {
        lemma_same_alphabet(stems.drop_last(), a, b, min_len, max_len);
        let label = label_of(stems.last());
        assert(in_alphabet(a, label) == in_alphabet(b, label)) by {
            if in_alphabet(a, label) {
                assert forall|i: int| 0 <= i < label.len() implies b.contains(
                    #[trigger] label[i],
                ) by {
                    assert(a.contains(label[i]));
                }
            }
            if in_alphabet(b, label) {
                assert forall|i: int| 0 <= i < label.len() implies a.contains(
                    #[trigger] label[i],
                ) by {
                    assert(b.contains(label[i]));
                }
            }
        }
    }
}

/// Replay the training dataset pipeline (same filtering in folder order, seeded
/// shuffle, split) over file stems to recover which files were the validation
/// split. `share` tells how many of the given number of files are trained on.
/// Best effort: files that failed to decode during training shift the
/// permutation slightly.
pub fn load_validation_split<F: Fn(usize) -> usize>(
    stems: &[String],
    charset: &str,
    min_len: usize,
    max_len: usize,
    seed: u64,
    share: F,
) -> (r: Option<Vec<usize>>)
    requires
        forall|n: usize| call_requires(share, (n,)),
    ensures
        ({
            let candidates = usable_stems(
                texts(stems@),
                charset@,
                min_len as int,
                max_len as int,
            );
            match r {
                Some(files) => candidates.len() >= 2 && exists|n: usize|
                    #[trigger] call_ensures(share, (candidates.len() as usize,), n) && as_ints(
                        files@,
                    ) == held_out_files(candidates, seed, n as int),
                None => candidates.len() < 2,
            }
        }),
{
    let cs = Charset::from_chars(charset);
    let selection = Dataset::select(stems, &cs, min_len, max_len);
    let ghost candidates = usable_stems(texts(stems@), charset@, min_len as int, max_len as int);
    proof {
        law_dedup_members(charset@);
        lemma_same_alphabet(
            texts(stems@),
            dedup(charset@),
            charset@,
            min_len as int,
            max_len as int,
        );
        assert(pick_positions(selection.picks@) == candidates);
    }
    let len: usize = selection.picks.len();
    if len < 2 {
        return None;
    }
    let mut files: Vec<usize> = Vec::new();
    for i in 0..len
        invariant
            len == selection.picks@.len(),
            files@.len() == i,
            forall|k: int| 0 <= k < i ==> #[trigger] files@[k] == selection.picks@[k].index,
    {
        files.push(selection.picks[i].index);
    }
    assert(as_ints(files@) =~= candidates);
    let ghost unshuffled = files@;
    shuffle_items(&mut files, seed);
    let ghost order = shuffled_order(seed, len as nat);
    assert(as_ints(files@) =~= permuted(candidates, order)) by {
        assert forall|i: int| 0 <= i < len implies as_ints(files@)[i] == permuted(
            candidates,
            order,
        )[i] by {
            assert(0 <= order[i] < len);
            assert(as_ints(unshuffled)[order[i]] == candidates[order[i]]);
        }
    }
    // Mirrors the shuffle and split of the training run.
    let raw: usize = share(len);
    let n_train: usize = if raw < len {
        raw
    } else {
        len
    };
    let ghost shuffled = files@;
    let held = files.split_off(n_train);
    assert(as_ints(held@) =~= as_ints(shuffled).skip(n_train as int));
    Some(held)
}

/// Held-out files are exactly those whose examples the training run validates
/// on: where the dataset holds the example of each candidate in order, the
/// validation part of its shuffle and split holds the examples of the held-out
/// files. A run that trains on all of its files has no held-out ones.
pub proof fn law_validation_replays_training<T>(
    candidates: Seq<int>,
    examples: Seq<T>,
    example_of: spec_fn(int) -> T,
    seed: u64,
    n_train: int,
)
    requires
        examples.len() == candidates.len(),
        forall|i: int|
            0 <= i < examples.len() ==> #[trigger] examples[i] == example_of(candidates[i]),
        is_order(shuffled_order(seed, candidates.len()), candidates.len()),
        0 <= n_train,
    ensures
        ({
            let valid = permuted(examples, shuffled_order(seed, examples.len())).skip(
                split_point(n_train, examples.len() as int),
            );
            let files = held_out_files(candidates, seed, n_train);
            &&& valid.len() == files.len()
            &&& forall|k: int| 0 <= k < files.len() ==> #[trigger] valid[k] == example_of(files[k])
        }),
{
    let order = shuffled_order(seed, candidates.len());
    let valid = permuted(examples, order).skip(split_point(n_train, examples.len() as int));
    let files = held_out_files(candidates, seed, n_train);
    assert forall|k: int| 0 <= k < files.len() implies #[trigger] valid[k] == example_of(
        files[k],
    ) by {
        let i = k + split_point(n_train, candidates.len() as int);
        assert(0 <= order[i] < candidates.len());
        assert(examples[order[i]] == example_of(candidates[order[i]]));
    }
}

/// The held-out files are what the seeded order leaves behind the part that is
/// trained on.
pub proof fn law_held_out_files_follow_the_trained(
    candidates: Seq<int>,
    seed: u64,
    n_train: int,
    k: int,
)
    requires
        0 <= n_train,
        0 <= k,
    ensures
        n_train >= candidates.len() ==> held_out_files(candidates, seed, n_train).len() == 0,
        n_train <= candidates.len() ==> held_out_files(candidates, seed, n_train).len()
            == candidates.len() - n_train,
        n_train + k < candidates.len() ==> held_out_files(candidates, seed, n_train)[k]
            == candidates[shuffled_order(seed, candidates.len())[n_train + k]],
{
}

/// No file is both trained on and held out.
pub proof fn law_held_out_is_not_trained(
    candidates: Seq<int>,
    seed: u64,
    n_train: int,
    a: int,
    b: int,
)
    requires
        candidates.no_duplicates(),
        is_order(shuffled_order(seed, candidates.len()), candidates.len()),
        0 <= n_train,
        0 <= a < split_point(n_train, candidates.len() as int),
        0 <= b < held_out_files(candidates, seed, n_train).len(),
    ensures
        permuted(candidates, shuffled_order(seed, candidates.len()))[a] != held_out_files(
            candidates,
            seed,
            n_train,
        )[b],
{
    let order = shuffled_order(seed, candidates.len());
    let i = b + split_point(n_train, candidates.len() as int);
    assert(order[a] != order[i]);
    assert(0 <= order[a] < candidates.len() && 0 <= order[i] < candidates.len());
}

} // verus!
