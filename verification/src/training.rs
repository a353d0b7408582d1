//! Decisions of the training loop: what is trained on, how epochs are seeded,
//! how predictions are scored, and which epoch is kept.
//!
//! The loop implements a quality gate: only the epoch with the best validation
//! accuracy is written to disk.

use crate::charset::Charset;
use crate::data::{AugmentProfile, Example};
use crate::detect::LengthSpec;
use crate::model::{Arch, CaptchaModelConfig};
use crate::score::matched_classes;
use crate::text::{chars_of, show_usize};
use vstd::prelude::*;
use vstd::string::StringExecFns;

#[allow(unused_imports)]
use crate::charset::law_dedup_keeps_distinct;
#[allow(unused_imports)]
use crate::data::augment_name;
#[allow(unused_imports)]
use crate::detect::{families_text, length_text};
#[allow(unused_imports)]
use crate::model::{arch_name, arch_named, config_complaint, law_valid_charset_is_distinct};
#[allow(unused_imports)]
use crate::score::{law_full_match_is_equality, law_matches_are_positions, matched};
#[allow(unused_imports)]
use crate::text::{decimal, lemma_decimal_reads_back};

verus! {

/// A learning rate: the bit pattern of the IEEE 754 double, and its decimal
/// notation for messages.
#[derive(Debug)]
pub struct Rate {
    pub bits: u64,
    pub text: String,
}

/// Bit pattern of the double closest to 0.0005.
pub const DEFAULT_RATE_BITS: u64 = 0x3f40_624d_d2f1_a9fc;

/// Bit pattern of positive infinity.
pub const INFINITY_BITS: u64 = 0x7ff0_0000_0000_0000;

/// Whether a bit pattern stands for a positive finite number: such numbers lie
/// between zero and infinity, and all others have larger patterns.
pub open spec fn is_positive_finite(bits: u64) -> bool {
    0 < bits < INFINITY_BITS
}

/// What a training run is made with.
#[derive(Debug)]
pub struct TrainingConfig {
    pub model: CaptchaModelConfig,
    /// Minimum label length accepted from the dataset (maximum is
    /// `model.num_chars`).
    pub min_chars: usize,
    pub num_epochs: usize,
    pub batch_size: usize,
    pub seed: u64,
    pub learning_rate: Rate,
    /// Apply random affine + photometric augmentation to training images.
    pub augment: bool,
    /// Augmentation strength, see [`AugmentProfile`].
    pub augment_profile: String,
}

impl TrainingConfig {
    /// A configuration with default settings.
    pub fn new(model: CaptchaModelConfig) -> (r: Self)
        ensures
            r.model == model,
            r.min_chars == 1,
            r.num_epochs == 30,
            r.batch_size == 64,
            r.seed == 42,
            r.learning_rate.bits == DEFAULT_RATE_BITS,
            r.learning_rate.bits == 0x3f40_624d_d2f1_a9fc,
            r.learning_rate.text@ == "0.0005"@,
            r.augment,
            r.augment_profile@ == augment_name(AugmentProfile::Medium),
    {
        TrainingConfig {
            model,
            min_chars: 1,
            num_epochs: 30,
            batch_size: 64,
            seed: 42,
            learning_rate: Rate { bits: DEFAULT_RATE_BITS, text: String::from_str("0.0005") },
            augment: true,
            augment_profile: String::from_str(AugmentProfile::Medium.as_str()),
        }
    }
}

/// What is wrong with a training configuration: the first complaint, if any. The
/// fixed heads have exactly `num_chars` outputs, so they require a single
/// length; the CTC target length cannot exceed the sequence length that the
/// backbone emits.
pub open spec fn run_complaint(c: TrainingConfig) -> Option<Seq<char>> {
    let arch = arch_named(c.model.arch@)->0;
    let steps = c.model.input_width / 4;
    if config_complaint(c.model) is Some {
        Some("invalid model config: "@ + config_complaint(c.model)->0)
    } else if arch != Arch::Ctc && c.min_chars != c.model.num_chars {
        Some(
            "--arch "@ + arch_name(arch) + " needs a single length (--num-chars N), got "@
                + decimal(c.min_chars as nat) + "..="@ + decimal(c.model.num_chars as nat)
                + " — use --arch ctc for variable length"@,
        )
    } else if arch == Arch::Ctc && c.model.num_chars > steps {
        Some(
            "--num-chars max "@ + decimal(c.model.num_chars as nat)
                + " exceeds the CTC sequence length "@ + decimal(steps as nat)
                + " — captchas this long are not supported"@,
        )
    } else {
        None
    }
}

/// A training configuration can be run when its model is valid, a fixed head is
/// trained on a single length, and a CTC target is no longer than the steps that
/// the backbone emits. A learning rate is positive and finite when its bit pattern
/// lies between that of zero and that of infinity.
pub proof fn law_runnable_config(c: TrainingConfig)
    ensures
        run_complaint(c) is None <==> config_complaint(c.model) is None && if arch_named(
            c.model.arch@,
        ) == Some(Arch::Ctc) {
            c.model.num_chars <= c.model.input_width / 4
        } else {
            c.min_chars == c.model.num_chars
        },
        is_positive_finite(c.learning_rate.bits) <==> 0 < c.learning_rate.bits
            < 0x7ff0_0000_0000_0000,
{
}

/// What keeps a training configuration from being run is told in this order: what
/// is wrong with its model, then with its lengths.
pub proof fn law_run_complaints_in_order(c: TrainingConfig, arch: Arch)
    ensures
        config_complaint(c.model) matches Some(why) ==> run_complaint(c) == Some(
            "invalid model config: "@ + why,
        ),
        config_complaint(c.model) is None && arch_named(c.model.arch@) == Some(arch) ==> ({
            let steps = c.model.input_width / 4;
            &&& arch != Arch::Ctc && c.min_chars != c.model.num_chars ==> run_complaint(c) == Some(
                "--arch "@ + arch_name(arch) + " needs a single length (--num-chars N), got "@
                    + decimal(c.min_chars as nat) + "..="@ + decimal(c.model.num_chars as nat)
                    + " — use --arch ctc for variable length"@,
            )
            &&& arch == Arch::Ctc && c.model.num_chars > steps ==> run_complaint(c) == Some(
                "--num-chars max "@ + decimal(c.model.num_chars as nat)
                    + " exceeds the CTC sequence length "@ + decimal(steps as nat)
                    + " — captchas this long are not supported"@,
            )
        }),
{
}

/// What a training run works with.
pub struct RunSetup {
    pub arch: Arch,
    pub charset: Charset,
    pub length: LengthSpec,
}

/// The line that a training run starts with.
pub open spec fn run_banner(arch: Arch, chars: Seq<char>, length: LengthSpec) -> Seq<char> {
    "Arch: "@ + arch_name(arch) + "  |  charset: "@ + decimal(chars.len()) + " chars ("@
        + families_text(chars) + ")  |  length: "@ + length_text(length)
}

/// The line that a training run starts with names the head, the number of
/// characters and their families, and the length.
pub proof fn law_run_banner(arch: Arch, chars: Seq<char>, length: LengthSpec)
    ensures
        run_banner(arch, chars, length) == "Arch: "@ + arch_name(arch) + "  |  charset: "@
            + decimal(chars.len()) + " chars ("@ + families_text(chars) + ")  |  length: "@
            + length_text(length),
{
}

impl RunSetup {
    /// The line that a training run starts with.
    pub fn banner(&self) -> (r: String)
        ensures
            r@ == run_banner(self.arch, self.charset@, self.length),
    {
        let mut s = String::from_str("Arch: ");
        s.append(self.arch.as_str());
        s.append("  |  charset: ");
        s.append(show_usize(self.charset.len()).as_str());
        s.append(" chars (");
        s.append(self.charset.describe_families().as_str());
        s.append(")  |  length: ");
        s.append(self.length.describe().as_str());
        s
    }
}

/// Check a training configuration before anything is read.
pub fn check_run(config: &TrainingConfig) -> (r: Result<RunSetup, String>)
    ensures
        match r {
            Ok(setup) => run_complaint(*config) is None && Some(setup.arch) == arch_named(
                config.model.arch@,
            ) && setup.charset@ == config.model.charset@ && setup.length == (LengthSpec {
                min_chars: config.min_chars,
                max_chars: config.model.num_chars,
            }),
            Err(e) => run_complaint(*config) == Some(e@),
        },
{
    match config.model.validate() {
        Ok(_) => {},
        Err(why) => {
            let mut e = String::from_str("invalid model config: ");
            e.append(why.as_str());
            return Err(e);
        },
    }
    let arch = match Arch::parse(config.model.arch.as_str()) {
        Ok(a) => a,
        Err(e) => {
            return Err(e);
        },
    };
    let charset = Charset::from_chars(config.model.charset.as_str());
    proof {
        law_valid_charset_is_distinct(config.model);
        law_dedup_keeps_distinct(config.model.charset@);
    }
    let min_len: usize = config.min_chars;
    let max_len: usize = config.model.num_chars;
    if arch != Arch::Ctc && min_len != max_len {
        let mut e = String::from_str("--arch ");
        e.append(arch.as_str());
        e.append(" needs a single length (--num-chars N), got ");
        e.append(show_usize(min_len).as_str());
        e.append("..=");
        e.append(show_usize(max_len).as_str());
        e.append(" — use --arch ctc for variable length");
        return Err(e);
    }
    let steps: usize = config.model.input_size().ctc_time_steps();
    if arch == Arch::Ctc && max_len > steps {
        let mut e = String::from_str("--num-chars max ");
        e.append(show_usize(max_len).as_str());
        e.append(" exceeds the CTC sequence length ");
        e.append(show_usize(steps).as_str());
        e.append(" — captchas this long are not supported");
        return Err(e);
    }
    let length = LengthSpec { min_chars: min_len, max_chars: max_len };
    Ok(RunSetup { arch, charset, length })
}

/// A training run needs more than one example. `data_dir` names the dataset.
pub fn check_examples(examples: usize, data_dir: &str) -> (r: Result<(), String>)
    ensures
        match r {
            Ok(_) => examples > 1,
            Err(e) => examples <= 1 && e@ == "No suitable examples found in "@ + data_dir@
                + " — check --charset and --num-chars"@,
        },
{
    if examples > 1 {
        return Ok(());
    }
    let mut e = String::from_str("No suitable examples found in ");
    e.append(data_dir);
    e.append(" — check --charset and --num-chars");
    Err(e)
}

// ---------------------------------------------------------------------------
// Seeds
// ---------------------------------------------------------------------------
/// Seed of the shuffle of an epoch.
pub fn shuffle_seed(seed: u64, epoch: u64) -> (r: u64)
    ensures
        r == (seed + epoch) % 0x1_0000_0000_0000_0000,
{
    seed.wrapping_add(epoch)
}

/// Multiplier that spreads the epochs over the seeds of the augmentation.
pub const SEED_STEP: u64 = 0x9e37_79b9;

/// Seed of the augmentation of an epoch.
pub open spec fn augment_seed_of(seed: u64, epoch: u64) -> u64 {
    seed ^ (((epoch * SEED_STEP) % 0x1_0000_0000_0000_0000) as u64)
}

/// Seed of the augmentation of an epoch.
pub fn augment_seed(seed: u64, epoch: u64) -> (r: u64)
    ensures
        r == augment_seed_of(seed, epoch),
{
    seed ^ epoch.wrapping_mul(SEED_STEP)
}

/// The seed of the augmentation of an epoch differs from the seed of the run in the
/// bits of a multiple of the epoch: combining the two seeds gives that multiple.
pub proof fn law_augment_seed_is_spread(seed: u64, epoch: u64)
    ensures
        augment_seed_of(seed, epoch) ^ seed == (epoch * 0x9e37_79b9) % 0x1_0000_0000_0000_0000,
{
    let spread = ((epoch * SEED_STEP) % 0x1_0000_0000_0000_0000) as u64;
    assert((seed ^ spread) ^ seed == spread) by (bit_vector);
}

/// Two different epochs are shuffled with different seeds.
pub proof fn law_epochs_have_own_seeds(seed: u64, a: u64, b: u64)
    requires
        a != b,
    ensures
        (seed + a) % 0x1_0000_0000_0000_0000 != (seed + b) % 0x1_0000_0000_0000_0000,
{
}

// ---------------------------------------------------------------------------
// Scores
// ---------------------------------------------------------------------------
/// Validation counts.
#[derive(Clone, Copy, Debug, PartialEq, Eq, Structural)]
pub struct Tally {
    /// Examples whose decoded sequence exactly matches the label.
    pub full_correct: usize,
    pub total: usize,
    /// Matching characters, position-aligned up to the shorter length.
    pub char_correct: usize,
    pub char_total: usize,
}

/// A decoded sequence and the label that it should be.
pub struct Pair {
    pub decoded: Seq<usize>,
    pub label: Seq<usize>,
}

/// The counts of pairs: fully correct, all, matching characters, characters.
pub open spec fn tally_of(pairs: Seq<Pair>) -> (nat, nat, nat, nat)
    decreases pairs.len(),
{
    if pairs.len() == 0 {
        (0, 0, 0, 0)
    } else {
        let before = tally_of(pairs.drop_last());
        let pair = pairs.last();
        (
            before.0 + if pair.decoded == pair.label {
                1nat
            } else {
                0nat
            },
            before.1 + 1,
            before.2 + matched(pair.decoded, pair.label),
            before.3 + pair.label.len(),
        )
    }
}

/// One more pair adds to the counts: one example, a fully correct one when the
/// decoded sequence is the label, the positions that both have and at which they
/// hold the same, and the length of the label.
pub proof fn law_pair_adds_to_tally(pairs: Seq<Pair>, pair: Pair, places: Set<int>)
    requires
        forall|i: int| #[trigger]
            places.contains(i) <==> 0 <= i < pair.decoded.len() && i < pair.label.len()
                && pair.decoded[i] == pair.label[i],
    ensures
        tally_of(pairs.push(pair)).0 == tally_of(pairs).0 + if pair.decoded == pair.label {
            1nat
        } else {
            0nat
        },
        tally_of(pairs.push(pair)).1 == tally_of(pairs).1 + 1,
        tally_of(pairs.push(pair)).2 == tally_of(pairs).2 + places.len(),
        tally_of(pairs.push(pair)).3 == tally_of(pairs).3 + pair.label.len(),
        tally_of(Seq::<Pair>::empty()) == (0nat, 0nat, 0nat, 0nat),
{
    assert(pairs.push(pair).drop_last() =~= pairs);
    law_matches_are_positions(pair.decoded, pair.label, places);
}

/// What a batch of examples was decoded to.
pub open spec fn batch_pairs(batch: Seq<Example>, decoded: Seq<Vec<usize>>) -> Seq<Pair> {
    Seq::new(batch.len(), |i: int| Pair { decoded: decoded[i]@, label: batch[i].labels@ })
}

/// Each example of a batch is paired with what it was decoded to.
pub proof fn law_batch_is_paired(batch: Seq<Example>, decoded: Seq<Vec<usize>>, i: int)
    requires
        0 <= i < batch.len(),
    ensures
        batch_pairs(batch, decoded).len() == batch.len(),
        batch_pairs(batch, decoded)[i].decoded == decoded[i]@,
        batch_pairs(batch, decoded)[i].label == batch[i].labels@,
{
}

impl Tally {
    /// The four counts.
    pub open spec fn counts(&self) -> (nat, nat, nat, nat) {
        (
            self.full_correct as nat,
            self.total as nat,
            self.char_correct as nat,
            self.char_total as nat,
        )
    }

    /// Nothing counted yet.
    pub fn new() -> (r: Self)
        ensures
            r.counts() == tally_of(Seq::empty()),
    {
        Tally { full_correct: 0, total: 0, char_correct: 0, char_total: 0 }
    }

    /// Count one more decoded sequence.
    pub fn record(&mut self, decoded: &[usize], label: &[usize])
        requires
            old(self).total < usize::MAX,
            old(self).full_correct <= old(self).total,
            old(self).char_correct <= old(self).char_total,
            old(self).char_total + label@.len() <= usize::MAX,
        ensures
            forall|pairs: Seq<Pair>|
                old(self).counts() == #[trigger] tally_of(pairs) ==> final(self).counts()
                    == tally_of(pairs.push(Pair { decoded: decoded@, label: label@ })),
            final(self).full_correct == old(self).full_correct + if decoded@ == label@ {
                1int
            } else {
                0int
            },
            final(self).total == old(self).total + 1,
            final(self).char_correct == old(self).char_correct + matched(decoded@, label@),
            final(self).char_total == old(self).char_total + label@.len(),
            final(self).full_correct <= final(self).total,
            final(self).char_correct <= final(self).char_total,
    {
        let n = matched_classes(decoded, label);
        proof {
            law_full_match_is_equality(decoded@, label@);
        }
        if decoded.len() == label.len() && n == label.len() {
            self.full_correct = self.full_correct + 1;
        }
        self.total = self.total + 1;
        self.char_correct = self.char_correct + n;
        self.char_total = self.char_total + label.len();
        assert forall|pairs: Seq<Pair>|
            old(self).counts() == #[trigger] tally_of(pairs) implies self.counts() == tally_of(
            pairs.push(Pair { decoded: decoded@, label: label@ }),
        ) by {
            let more = pairs.push(Pair { decoded: decoded@, label: label@ });
            assert(more.drop_last() =~= pairs);
        }
    }

    /// Count what a batch of examples was decoded to.
    pub fn record_batch(&mut self, batch: &[Example], decoded: &[Vec<usize>])
        requires
            batch@.len() == decoded@.len(),
            old(self).full_correct <= old(self).total,
            old(self).char_correct <= old(self).char_total,
            old(self).total + batch@.len() <= usize::MAX,
            old(self).char_total + tally_of(batch_pairs(batch@, decoded@)).3 <= usize::MAX,
        ensures
            forall|pairs: Seq<Pair>|
                old(self).counts() == #[trigger] tally_of(pairs) ==> final(self).counts()
                    == tally_of(pairs + batch_pairs(batch@, decoded@)),
            ({
                let added = tally_of(batch_pairs(batch@, decoded@));
                &&& final(self).full_correct == old(self).full_correct + added.0
                &&& final(self).total == old(self).total + added.1
                &&& final(self).char_correct == old(self).char_correct + added.2
                &&& final(self).char_total == old(self).char_total + added.3
            }),
            final(self).full_correct <= final(self).total,
            final(self).char_correct <= final(self).char_total,
    {
        let n: usize = batch.len();
        let ghost all = batch_pairs(batch@, decoded@);
        let ghost start = *self;
        proof {
            assert forall|pairs: Seq<Pair>|
                start.counts() == #[trigger] tally_of(pairs) implies self.counts() == tally_of(
                pairs + all.take(0),
            ) by {
                assert(pairs + all.take(0) =~= pairs);
            }
            assert(tally_of(all.take(0)) == (0nat, 0nat, 0nat, 0nat));
        }
        for i in 0..n
            invariant
                n == batch@.len(),
                n == decoded@.len(),
                all == batch_pairs(batch@, decoded@),
                self.full_correct <= self.total,
                self.char_correct <= self.char_total,
                self.total == start.total + i,
                self.full_correct == start.full_correct + tally_of(all.take(i as int)).0,
                self.char_correct == start.char_correct + tally_of(all.take(i as int)).2,
                tally_of(all.take(i as int)).1 == i,
                start.total + n <= usize::MAX,
                self.char_total == start.char_total + tally_of(all.take(i as int)).3,
                start.char_total + tally_of(all).3 <= usize::MAX,
                forall|pairs: Seq<Pair>|
                    start.counts() == #[trigger] tally_of(pairs) ==> self.counts() == tally_of(
                        pairs + all.take(i as int),
                    ),
        {
            let ghost before = *self;
            proof {
                assert(all.take(i + 1).drop_last() =~= all.take(i as int));
                assert(all.take(i + 1).last() == all[i as int]);
                lemma_tally_prefix(all, i + 1);
            }
            self.record(&decoded[i], &batch[i].labels);
            proof {
                assert forall|pairs: Seq<Pair>|
                    start.counts() == #[trigger] tally_of(pairs) implies self.counts() == tally_of(
                    pairs + all.take(i + 1),
                ) by {
                    let so_far = pairs + all.take(i as int);
                    assert(before.counts() == tally_of(so_far));
                    assert(so_far.push(all[i as int]) =~= pairs + all.take(i + 1));
                }
            }
        }
        assert(all.take(n as int) =~= all);
    }
}

proof fn lemma_tally_prefix(pairs: Seq<Pair>, n: int)
    requires
        0 <= n <= pairs.len(),
    ensures
        tally_of(pairs.take(n)).3 <= tally_of(pairs).3,
    decreases pairs.len(),
{
    if n < pairs.len() {
        lemma_tally_prefix(pairs.drop_last(), n);
        assert(pairs.drop_last().take(n) =~= pairs.take(n));
    } else {
        assert(pairs.take(n) =~= pairs);
    }
}

/// Two lists of pairs count together what each of them counts, and a tally holds
/// its counts in this order: fully correct, all, matching characters, characters.
pub proof fn law_tallies_add_up(a: Seq<Pair>, b: Seq<Pair>, tally: Tally)
    ensures
        tally_of(a + b).0 == tally_of(a).0 + tally_of(b).0,
        tally_of(a + b).1 == tally_of(a).1 + tally_of(b).1,
        tally_of(a + b).2 == tally_of(a).2 + tally_of(b).2,
        tally_of(a + b).3 == tally_of(a).3 + tally_of(b).3,
        tally.counts().0 == tally.full_correct,
        tally.counts().1 == tally.total,
        tally.counts().2 == tally.char_correct,
        tally.counts().3 == tally.char_total,
    decreases b.len(),
{
    if b.len() == 0 {
        assert(a + b =~= a);
    } else {
        law_tallies_add_up(a, b.drop_last(), tally);
        assert((a + b).drop_last() =~= a + b.drop_last());
        assert((a + b).last() == b.last());
    }
}

/// No more than all examples are fully correct and, over decoded sequences as
/// long as their labels or not, no more than all label characters match.
pub proof fn law_tally_is_bounded(pairs: Seq<Pair>)
    ensures
        tally_of(pairs).0 <= tally_of(pairs).1,
        tally_of(pairs).1 == pairs.len(),
        tally_of(pairs).2 <= tally_of(pairs).3,
    decreases pairs.len(),
{
    if pairs.len() > 0 {
        law_tally_is_bounded(pairs.drop_last());
        let pair = pairs.last();
        law_full_match_is_equality(pair.decoded, pair.label);
    }
}

/// Every example is fully correct exactly when every decoded sequence is its
/// label; then every character matches too.
pub proof fn law_perfect_tally(pairs: Seq<Pair>)
    ensures
        tally_of(pairs).0 == pairs.len() <==> forall|i: int|
            0 <= i < pairs.len() ==> (#[trigger] pairs[i]).decoded == pairs[i].label,
        tally_of(pairs).0 == pairs.len() ==> tally_of(pairs).2 == tally_of(pairs).3,
    decreases pairs.len(),
{
    if pairs.len() > 0 {
        let shorter = pairs.drop_last();
        law_perfect_tally(shorter);
        law_tally_is_bounded(shorter);
        let pair = pairs.last();
        law_full_match_is_equality(pair.decoded, pair.label);
        assert(forall|i: int| 0 <= i < shorter.len() ==> #[trigger] shorter[i] == pairs[i]);
        if tally_of(pairs).0 == pairs.len() {
            assert forall|i: int| 0 <= i < pairs.len() implies (#[trigger] pairs[i]).decoded
                == pairs[i].label by {
                if i < shorter.len() {
                    assert(shorter[i] == pairs[i]);
                }
            }
        } else if forall|i: int|
            0 <= i < pairs.len() ==> (#[trigger] pairs[i]).decoded == pairs[i].label {
            assert(pairs[pairs.len() - 1].decoded == pairs[pairs.len() - 1].label);
        }
    }
}

// ---------------------------------------------------------------------------
// Quality gate
// ---------------------------------------------------------------------------
/// Keeps the epoch with the best validation accuracy. An accuracy is the bit
/// pattern of a single-precision number that is not negative; such numbers are
/// ordered as their bit patterns.
#[derive(Clone, Copy, Debug, PartialEq, Eq, Structural)]
pub struct Gate {
    best: Option<u32>,
}

/// Position of the accuracy that a gate keeps: the first of the highest.
pub open spec fn kept_epoch(accuracies: Seq<u32>) -> int
    decreases accuracies.len(),
{
    if accuracies.len() <= 1 {
        0
    } else {
        let kept = kept_epoch(accuracies.drop_last());
        if accuracies.last() > accuracies[kept] {
            accuracies.len() - 1
        } else {
            kept
        }
    }
}

/// The best of accuracies.
pub open spec fn best_accuracy(accuracies: Seq<u32>) -> Option<u32> {
    if accuracies.len() == 0 {
        None
    } else {
        Some(accuracies[kept_epoch(accuracies)])
    }
}

/// The best accuracy is one of the accuracies, and none is above it; before the
/// first epoch there is none.
pub proof fn law_best_accuracy_is_the_highest(accuracies: Seq<u32>)
    ensures
        best_accuracy(accuracies) is None <==> accuracies.len() == 0,
        best_accuracy(accuracies) matches Some(best) ==> accuracies.contains(best),
        best_accuracy(accuracies) matches Some(best) ==> forall|i: int|
            0 <= i < accuracies.len() ==> #[trigger] accuracies[i] <= best,
{
    if accuracies.len() > 0 {
        law_gate_keeps_best(accuracies, 0);
        assert forall|i: int| 0 <= i < accuracies.len() implies #[trigger] accuracies[i]
            <= accuracies[kept_epoch(accuracies)] by {
            law_gate_keeps_best(accuracies, i);
        }
        assert(accuracies.contains(accuracies[kept_epoch(accuracies)]));
    }
}

impl Gate {
    /// The best accuracy so far.
    pub closed spec fn spec_best(&self) -> Option<u32> {
        self.best
    }

    /// A gate that no epoch has passed yet.
    pub fn new() -> (r: Self)
        ensures
            r.spec_best() == best_accuracy(Seq::empty()),
    {
        Gate { best: None }
    }

    /// The best accuracy so far.
    pub fn best(&self) -> (r: Option<u32>)
        ensures
            r == self.spec_best(),
    {
        self.best
    }

    /// Whether an epoch of this accuracy is to be written to disk: it is if it
    /// beats all before it.
    pub fn pass(&mut self, accuracy: u32) -> (r: bool)
        ensures
            r == match old(self).spec_best() {
                Some(best) => accuracy > best,
                None => true,
            },
            forall|before: Seq<u32>|
                old(self).spec_best() == #[trigger] best_accuracy(before)
                    ==> final(self).spec_best() == best_accuracy(before.push(accuracy)) && r == (
                kept_epoch(before.push(accuracy)) == before.len()),
    {
        let better = match self.best {
            Some(best) => accuracy > best,
            None => true,
        };
        if better {
            self.best = Some(accuracy);
        }
        proof {
            assert forall|before: Seq<u32>|
                old(self).spec_best() == #[trigger] best_accuracy(before) implies self.spec_best()
                == best_accuracy(before.push(accuracy)) && better == (kept_epoch(
                before.push(accuracy),
            ) == before.len()) by {
                let all = before.push(accuracy);
                assert(all.drop_last() =~= before);
                if before.len() > 0 {
                    law_gate_keeps_best(before, 0);
                    assert(all[kept_epoch(before)] == before[kept_epoch(before)]);
                }
            }
        }
        better
    }
}

/// The epoch that is kept has the best accuracy of all, and is the first that
/// has it.
pub proof fn law_gate_keeps_best(accuracies: Seq<u32>, i: int)
    requires
        0 <= i < accuracies.len(),
    ensures
        0 <= kept_epoch(accuracies) < accuracies.len(),
        accuracies[i] <= accuracies[kept_epoch(accuracies)],
        i < kept_epoch(accuracies) ==> accuracies[i] < accuracies[kept_epoch(accuracies)],
    decreases accuracies.len(),
{
    if accuracies.len() > 1 {
        let shorter = accuracies.drop_last();
        if i < shorter.len() {
            law_gate_keeps_best(shorter, i);
        } else {
            law_gate_keeps_best(shorter, 0);
        }
    }
}

// ---------------------------------------------------------------------------
// Batches
// ---------------------------------------------------------------------------
/// Number of batches of `size` that `n` examples make.
pub open spec fn batch_count(n: int, size: int) -> int {
    (n + size - 1) / size
}

/// Where batch `k` of `n` examples ends: the last batch may be smaller.
pub open spec fn batch_end(n: int, size: int, k: int) -> int {
    if (k + 1) * size < n {
        (k + 1) * size
    } else {
        n
    }
}

/// Cut `n` examples into batches: start and end of each.
pub fn batches(n: usize, size: usize) -> (r: Vec<(usize, usize)>)
    requires
        size > 0,
    ensures
        r@.len() == batch_count(n as int, size as int),
        forall|k: int|
            0 <= k < r@.len() ==> (#[trigger] r@[k]).0 == k * size && r@[k].1 == batch_end(
                n as int,
                size as int,
                k,
            ) && r@[k].0 < r@[k].1 <= n,
{
    let mut out: Vec<(usize, usize)> = Vec::new();
    let mut start: usize = 0;
    assert(0 * size == 0) by (nonlinear_arith);
    while start < n
        invariant
            size > 0,
            start <= n,
            start < n ==> start == out@.len() * size,
            start == n ==> n <= out@.len() * size,
            out@.len() == 0 || (out@.len() - 1) * size < n,
            forall|k: int|
                0 <= k < out@.len() ==> (#[trigger] out@[k]).0 == k * size && out@[k].1
                    == batch_end(n as int, size as int, k) && out@[k].0 < out@[k].1 <= n,
        decreases n - start,
    {
        let end: usize = if n - start <= size {
            n
        } else {
            start + size
        };
        let ghost k = out@.len() as int;
        assert((k + 1) * size == k * size + size) by (nonlinear_arith);
        out.push((start, end));
        start = end;
    }
    proof {
        lemma_batch_count(n as int, size as int, out@.len() as int);
    }
    out
}

proof fn lemma_batch_count(n: int, size: int, count: int)
    requires
        size > 0,
        n >= 0,
        n <= count * size,
        count == 0 || (count - 1) * size < n,
        count >= 0,
    ensures
        batch_count(n, size) == count,
{
    if count == 0 {
        assert(0 * size == 0) by (nonlinear_arith);
        assert((size - 1) / size == 0) by (nonlinear_arith)
            requires
                size > 0,
        ;
    } else {
        let rest = n - (count - 1) * size - 1;
        assert(count * size == (count - 1) * size + size) by (nonlinear_arith);
        vstd::arithmetic::div_mod::lemma_fundamental_div_mod_converse(
            n + size - 1,
            size,
            count,
            rest,
        );
    }
}

/// There are as many batches as it takes to hold all examples, and no more.
pub proof fn law_batches_are_needed(n: int, size: int)
    requires
        size > 0,
        n >= 0,
    ensures
        n <= batch_count(n, size) * size,
        n > 0 ==> (batch_count(n, size) - 1) * size < n,
        n == 0 ==> batch_count(n, size) == 0,
{
    let count = batch_count(n, size);
    vstd::arithmetic::div_mod::lemma_fundamental_div_mod(n + size - 1, size);
    vstd::arithmetic::div_mod::lemma_mod_bound(n + size - 1, size);
    assert(size * count == count * size) by (nonlinear_arith);
    assert((count - 1) * size == count * size - size) by (nonlinear_arith);
    if n == 0 {
        lemma_batch_count(0, size, 0);
    }
}

/// The batches cover all examples: the first starts at the first example, each
/// starts where the one before it ends, and the last ends at the last example.
pub proof fn law_batches_cover(n: int, size: int, k: int)
    requires
        size > 0,
        n > 0,
        0 <= k < batch_count(n, size),
    ensures
        k + 1 < batch_count(n, size) ==> batch_end(n, size, k) == (k + 1) * size,
        k + 1 == batch_count(n, size) ==> batch_end(n, size, k) == n,
        0 < batch_end(n, size, k) - k * size <= size,
{
    let count = batch_count(n, size);
    let rest = (n + size - 1) % size;
    vstd::arithmetic::div_mod::lemma_fundamental_div_mod(n + size - 1, size);
    vstd::arithmetic::div_mod::lemma_mod_bound(n + size - 1, size);
    assert((k + 1) * size == k * size + size) by (nonlinear_arith);
    assert(size * count == count * size) by (nonlinear_arith);
    if k + 1 < count {
        assert((k + 1) * size + size <= count * size) by (nonlinear_arith)
            requires
                k + 2 <= count,
                size > 0,
        ;
    }
}

// ---------------------------------------------------------------------------
// Loop
// ---------------------------------------------------------------------------
/// What a training run does next.
#[derive(Clone, Copy, Debug, PartialEq, Eq, Structural)]
pub enum Step {
    /// Train one epoch on the examples shuffled with one seed, their images
    /// augmented with another.
    Train { epoch: u64, shuffle_seed: u64, augment_seed: u64 },
    /// All epochs are done.
    Done,
}

/// How far a training run is.
pub struct TrainLoop {
    num_epochs: u64,
    seed: u64,
    done: u64,
    gate: Gate,
    accuracies: Ghost<Seq<u32>>,
}

impl TrainLoop {
    /// The accuracy of each epoch so far.
    pub closed spec fn accuracies(&self) -> Seq<u32> {
        self.accuracies@
    }

    pub closed spec fn spec_num_epochs(&self) -> u64 {
        self.num_epochs
    }

    pub closed spec fn spec_seed(&self) -> u64 {
        self.seed
    }

    /// One accuracy for each epoch done, and the best of them all is known.
    pub closed spec fn wf(&self) -> bool {
        &&& self.done == self.accuracies@.len()
        &&& self.done <= self.num_epochs
        &&& self.gate.spec_best() == best_accuracy(self.accuracies@)
    }

    /// A run of so many epochs.
    pub fn new(num_epochs: u64, seed: u64) -> (r: Self)
        ensures
            r.wf(),
            r.accuracies().len() == 0,
            r.spec_num_epochs() == num_epochs,
            r.spec_seed() == seed,
    {
        TrainLoop { num_epochs, seed, done: 0, gate: Gate::new(), accuracies: Ghost(Seq::empty()) }
    }

    /// What to do next: the epochs are numbered from 1.
    pub fn next(&self) -> (r: Step)
        requires
            self.wf(),
        ensures
            r == if self.accuracies().len() < self.spec_num_epochs() {
                let epoch = (self.accuracies().len() + 1) as u64;
                Step::Train {
                    epoch,
                    shuffle_seed: ((self.spec_seed() + epoch) % 0x1_0000_0000_0000_0000) as u64,
                    augment_seed: augment_seed_of(self.spec_seed(), epoch),
                }
            } else {
                Step::Done
            },
            self.accuracies().len() <= self.spec_num_epochs(),
    {
        if self.done < self.num_epochs {
            let epoch: u64 = self.done + 1;
            Step::Train {
                epoch,
                shuffle_seed: shuffle_seed(self.seed, epoch),
                augment_seed: augment_seed(self.seed, epoch),
            }
        } else {
            Step::Done
        }
    }

    /// Take note of the validation accuracy of an epoch. Returns whether the
    /// model of this epoch is to be written to disk: it is if it is the one kept
    /// of all so far.
    pub fn finish_epoch(&mut self, accuracy: u32) -> (r: bool)
        requires
            old(self).wf(),
            old(self).accuracies().len() < old(self).spec_num_epochs(),
        ensures
            final(self).wf(),
            final(self).accuracies() == old(self).accuracies().push(accuracy),
            final(self).spec_num_epochs() == old(self).spec_num_epochs(),
            final(self).spec_seed() == old(self).spec_seed(),
            r == (kept_epoch(final(self).accuracies()) == old(self).accuracies().len()),
    {
        let ghost before = self.accuracies@;
        assert(self.gate.spec_best() == best_accuracy(before));
        let better = self.gate.pass(accuracy);
        self.done = self.done + 1;
        proof {
            self.accuracies@ = before.push(accuracy);
        }
        better
    }

    /// The best accuracy so far, if there is any.
    pub fn best(&self) -> (r: Option<u32>)
        requires
            self.wf(),
        ensures
            r == best_accuracy(self.accuracies()),
    {
        self.gate.best()
    }
}

/// Whether the model on disk after some epochs is that of epoch `i`: it was
/// written then, and none since.
pub open spec fn is_on_disk(accuracies: Seq<u32>, i: int) -> bool {
    &&& 0 <= i < accuracies.len()
    &&& kept_epoch(accuracies.take(i + 1)) == i
    &&& forall|j: int|
        i < j < accuracies.len() ==> kept_epoch(#[trigger] accuracies.take(j + 1)) != j
}

/// Only the best epoch's model is on disk: of all epochs so far it has the best
/// accuracy, and the first that has it is kept.
pub proof fn law_best_epoch_is_on_disk(accuracies: Seq<u32>, i: int)
    requires
        is_on_disk(accuracies, i),
    ensures
        i == kept_epoch(accuracies),
        forall|j: int| 0 <= j < accuracies.len() ==> #[trigger] accuracies[j] <= accuracies[i],
{
    lemma_kept_since(accuracies, i, accuracies.len() as int);
    assert(accuracies.take(accuracies.len() as int) =~= accuracies);
    assert forall|j: int| 0 <= j < accuracies.len() implies #[trigger] accuracies[j]
        <= accuracies[i] by {
        law_gate_keeps_best(accuracies, j);
    }
}

proof fn lemma_kept_since(accuracies: Seq<u32>, i: int, n: int)
    requires
        is_on_disk(accuracies, i),
        i < n <= accuracies.len(),
    ensures
        kept_epoch(accuracies.take(n)) == i,
    decreases n,
{
    if n > i + 1 {
        lemma_kept_since(accuracies, i, n - 1);
        let part = accuracies.take(n);
        assert(part.drop_last() =~= accuracies.take(n - 1));
        assert(kept_epoch(accuracies.take((n - 1) + 1)) != n - 1);
    }
}

/// A number, padded on the left to at least three characters.
pub open spec fn padded(n: nat) -> Seq<char> {
    let digits = decimal(n);
    if digits.len() == 1 {
        "  "@ + digits
    } else if digits.len() == 2 {
        " "@ + digits
    } else {
        digits
    }
}

/// A padded number ends in its digits, has nothing but spaces before them, and has
/// three characters, or as many as it has digits if these are more.
pub proof fn law_padding_is_spaces(n: nat, i: int)
    ensures
        ({
            let digits = decimal(n);
            let text = padded(n);
            &&& digits.len() <= 3 ==> text.len() == 3
            &&& digits.len() > 3 ==> text == digits
            &&& 0 <= i < digits.len() ==> text[text.len() - digits.len() + i] == digits[i]
            &&& 0 <= i < text.len() - digits.len() ==> text[i] == ' '
        }),
{
    reveal_strlit("  ");
    reveal_strlit(" ");
    lemma_decimal_reads_back(n);
    if 0 <= i < 2 {
        assert(i == 0 || i == 1);
    }
}

/// The line about an epoch. `loss`, `char_acc` and `full_acc` are the average
/// loss and the accuracies in percent.
pub fn epoch_line(
    epoch: usize,
    num_epochs: usize,
    loss: &str,
    char_acc: &str,
    full_acc: &str,
    best: bool,
) -> (r: String)
    ensures
        r@ == "Epoch "@ + padded(epoch as nat) + "/"@ + decimal(num_epochs as nat) + "  loss "@
            + loss@ + "  val char-acc "@ + char_acc@ + "%  full-captcha "@ + full_acc@ + if best {
            "% *best"@
        } else {
            "%"@
        },
{
    let mut s = String::from_str("Epoch ");
    let digits = show_usize(epoch);
    let len: usize = chars_of(digits.as_str()).len();
    let mut number = String::from_str("");
    proof {
        reveal_strlit("");
    }
    if len == 1 {
        number.append("  ");
    } else if len == 2 {
        number.append(" ");
    }
    number.append(digits.as_str());
    assert(number@ =~= padded(epoch as nat));
    s.append(number.as_str());
    s.append("/");
    s.append(show_usize(num_epochs).as_str());
    s.append("  loss ");
    s.append(loss);
    s.append("  val char-acc ");
    s.append(char_acc);
    s.append("%  full-captcha ");
    s.append(full_acc);
    if best {
        s.append("% *best");
    } else {
        s.append("%");
    }
    s
}

/// The line at the end of a training run.
pub fn done_line(best_acc: &str, artifact_dir: &str) -> (r: String)
    ensures
        r@ == "Done. Best validation accuracy: "@ + best_acc@ + "%. Model saved to "@
            + artifact_dir@ + "/model.mpk (+ model.json)"@,
{
    let mut s = String::from_str("Done. Best validation accuracy: ");
    s.append(best_acc);
    s.append("%. Model saved to ");
    s.append(artifact_dir);
    s.append("/model.mpk (+ model.json)");
    s
}

} // verus!
