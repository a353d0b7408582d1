//! What a training run is asked for, and what it makes of it.

use crate::charset::Charset;
use crate::data::AugmentProfile;
use crate::detect::{recommend_augment, LengthSpec};
use crate::image_ops::{InputSize, PreprocessMode};
use crate::model::{Arch, CaptchaModelConfig, Dropout, NEGATIVE_ZERO_BITS, ONE_BITS};
use crate::text::{folds_to, show_usize};
use crate::training::{Rate, TrainingConfig, INFINITY_BITS};
use vstd::prelude::*;
use vstd::string::StringExecFns;

#[allow(unused_imports)]
use crate::charset::spec_chars;
#[allow(unused_imports)]
use crate::data::{augment_name, augment_named, unknown_augment};
#[allow(unused_imports)]
use crate::decode::{ctc_collapse, law_ctc_label_fits, law_ctc_worst_case, repeats};
#[allow(unused_imports)]
use crate::image_ops::{
    law_mode_roundtrip, mode_name, mode_named, size_is_usable, size_named, size_text, unknown_mode,
};
#[allow(unused_imports)]
use crate::model::{arch_name, arch_named, is_probability, unknown_arch};
#[allow(unused_imports)]
use crate::text::{decimal, lower, str_debug};
#[allow(unused_imports)]
use crate::training::{is_positive_finite, run_complaint};

verus! {

/// Whether a setting is left to be chosen.
pub open spec fn says_auto(s: Seq<char>) -> bool {
    lower(s) == "auto"@
}

/// Whether a setting is left to be chosen.
pub fn is_auto(s: &str) -> (r: bool)
    ensures
        r == says_auto(s@),
{
    folds_to(s, "auto")
}

/// A setting is left to be chosen when it says `auto`, whatever its ASCII case, and
/// augmentation is off by its flag or when it says `off`.
pub proof fn law_auto_and_off(s: Seq<char>, no_augment: bool)
    ensures
        says_auto(s) <==> lower(s) == seq!['a', 'u', 't', 'o'],
        augment_is_off(s, no_augment) <==> no_augment || lower(s) == seq!['o', 'f', 'f'],
{
    reveal_strlit("auto");
    reveal_strlit("off");
    assert("auto"@ =~= seq!['a', 'u', 't', 'o']);
    assert("off"@ =~= seq!['o', 'f', 'f']);
}

/// The folder of a dataset: a subfolder of the root, or the root itself.
pub fn dataset_dir(root: &str, dataset: Option<&str>) -> (r: String)
    ensures
        r@ == match dataset {
            Some(name) => root@ + "/"@ + name@,
            None => root@,
        },
{
    let mut dir = String::from_str(root);
    match dataset {
        Some(name) => {
            dir.append("/");
            dir.append(name);
        },
        None => {},
    }
    dir
}

/// The charset that was asked for, unless it is to be detected.
pub fn choose_charset(charset: &str) -> (r: Result<Option<Charset>, String>)
    ensures
        match r {
            Ok(None) => says_auto(charset@),
            Ok(Some(cs)) => !says_auto(charset@) && cs@ == spec_chars(charset@) && cs@.len() > 0,
            Err(e) => !says_auto(charset@) && spec_chars(charset@).len() == 0 && e@
                == "empty charset from spec: "@ + str_debug(charset@),
        },
{
    if is_auto(charset) {
        return Ok(None);
    }
    match Charset::from_spec(charset) {
        Ok(cs) => Ok(Some(cs)),
        Err(e) => Err(e),
    }
}

/// The input size: the one that was asked for, or else the recommended one, or
/// else the default.
pub fn choose_input_size(input_size: &str, recommended: Option<InputSize>) -> (r: Result<
    InputSize,
    String,
>)
    ensures
        match r {
            Ok(size) => size_is_usable(size) && if says_auto(input_size@) {
                size == match recommended {
                    Some(s) => s,
                    None => InputSize { width: 128, height: 32 },
                }
            } else {
                size_named(input_size@) == Some((size.width as int, size.height as int))
            },
            Err(e) => if says_auto(input_size@) {
                recommended matches Some(size) && !size_is_usable(size) && e@
                    == "input size must be at least 4x32, got "@ + size_text(
                    size.width as nat,
                    size.height as nat,
                )
            } else {
                match size_named(input_size@) {
                    Some((w, h)) => !(w >= 4 && h >= 32) && e@
                        == "input size must be at least 4x32, got "@ + size_text(
                        w as nat,
                        h as nat,
                    ),
                    None => e@ == "invalid input size "@ + str_debug(input_size@)
                        + " (expected WIDTHxHEIGHT)"@,
                }
            },
        },
{
    let size = if is_auto(input_size) {
        match recommended {
            Some(s) => s,
            None => InputSize::default(),
        }
    } else {
        match InputSize::parse(input_size) {
            Ok(s) => s,
            Err(e) => {
                return Err(e);
            },
        }
    };
    match size.validate() {
        Ok(_) => Ok(size),
        Err(e) => Err(e),
    }
}

/// The preprocessing mode: the one that was asked for, or else the recommended
/// one, or else stretching.
pub fn choose_preprocess(preprocess: &str, recommended: Option<PreprocessMode>) -> (r: Result<
    PreprocessMode,
    String,
>)
    ensures
        match r {
            Ok(mode) => if says_auto(preprocess@) {
                mode == match recommended {
                    Some(m) => m,
                    None => PreprocessMode::Stretch,
                }
            } else {
                mode_named(preprocess@) == Some(mode)
            },
            Err(e) => !says_auto(preprocess@) && mode_named(preprocess@) is None && e@
                == unknown_mode(preprocess@),
        },
{
    if is_auto(preprocess) {
        match recommended {
            Some(m) => Ok(m),
            None => Ok(PreprocessMode::Stretch),
        }
    } else {
        PreprocessMode::parse(preprocess)
    }
}

/// The head: the one that was asked for, or else `fixed` for a single length and
/// `ctc` for a range. Ask for `ctc` explicitly to A/B alignment-free training on
/// a fixed-length dataset.
pub fn choose_arch(arch: &str, length: LengthSpec) -> (r: String)
    ensures
        r@ == if says_auto(arch@) {
            if length.min_chars != length.max_chars {
                "ctc"@
            } else {
                "fixed"@
            }
        } else {
            arch@
        },
{
    if is_auto(arch) {
        if length.min_chars != length.max_chars {
            String::from_str("ctc")
        } else {
            String::from_str("fixed")
        }
    } else {
        String::from_str(arch)
    }
}

/// Whether augmentation is switched off.
pub open spec fn augment_is_off(augment: Seq<char>, no_augment: bool) -> bool {
    no_augment || lower(augment) == "off"@
}

/// Whether training images are augmented, and how strongly.
pub fn choose_augment(augment: &str, no_augment: bool) -> (r: Result<
    (bool, AugmentProfile),
    String,
>)
    ensures
        match r {
            Ok((enabled, profile)) => enabled == !augment_is_off(augment@, no_augment) && if !enabled
                || says_auto(augment@) {
                profile == AugmentProfile::Medium
            } else {
                augment_named(augment@) == Some(profile)
            },
            Err(e) => !augment_is_off(augment@, no_augment) && !says_auto(augment@)
                && augment_named(augment@) is None && e@ == unknown_augment(augment@),
        },
{
    if no_augment || folds_to(augment, "off") {
        return Ok((false, AugmentProfile::Medium));
    }
    if is_auto(augment) {
        return Ok((true, recommend_augment()));
    }
    match AugmentProfile::parse(augment) {
        Ok(profile) => Ok((true, profile)),
        Err(e) => Err(e),
    }
}

/// What is told about the chosen parameters.
pub fn params_line(
    arch: &str,
    input_size: InputSize,
    preprocess: PreprocessMode,
    augment: bool,
    profile: AugmentProfile,
) -> (r: String)
    ensures
        r@ == "Auto params: arch="@ + arch@ + ", input-size="@ + size_text(
            input_size.width as nat,
            input_size.height as nat,
        ) + ", preprocess="@ + mode_name(preprocess) + ", augment="@ + if augment {
            augment_name(profile)
        } else {
            "off"@
        },
{
    let mut s = String::from_str("Auto params: arch=");
    s.append(arch);
    s.append(", input-size=");
    s.append(input_size.as_string().as_str());
    s.append(", preprocess=");
    s.append(preprocess.as_str());
    s.append(", augment=");
    if augment {
        s.append(profile.as_str());
    } else {
        s.append("off");
    }
    s
}

/// What a training run is asked for, once everything automatic is chosen.
pub struct TrainRequest {
    pub charset: Charset,
    pub length: LengthSpec,
    pub arch: String,
    pub input_size: InputSize,
    pub preprocess: PreprocessMode,
    pub epochs: usize,
    pub batch_size: usize,
    pub lr: Rate,
    pub dropout: Dropout,
    pub augment: bool,
    pub augment_profile: AugmentProfile,
}

/// Steps that the longest labels need when all of their characters are equal:
/// CTC needs a blank between adjacent equal characters.
pub open spec fn worst_case_steps(max_chars: int) -> int {
    if max_chars == 0 {
        0
    } else {
        2 * max_chars - 1
    }
}

/// What is wrong with a request: the first complaint, if any.
pub open spec fn request_complaint(q: TrainRequest) -> Option<Seq<char>> {
    let steps = q.input_size.width / 4;
    if arch_named(q.arch@) is None {
        Some(unknown_arch(q.arch@))
    } else if q.epochs == 0 {
        Some("--epochs must be > 0"@)
    } else if q.batch_size == 0 {
        Some("--batch-size must be > 0"@)
    } else if !is_positive_finite(q.lr.bits) {
        Some("--lr must be a positive finite number, got "@ + q.lr.text@)
    } else if !is_probability(q.dropout.bits) {
        Some("--dropout must be a finite number in [0, 1), got "@ + q.dropout.text@)
    } else if arch_named(q.arch@) != Some(Arch::Ctc) && q.length.min_chars != q.length.max_chars {
        Some(
            "--arch "@ + arch_name(arch_named(q.arch@)->0) + " needs a single length, got "@
                + decimal(q.length.min_chars as nat) + "..="@ + decimal(q.length.max_chars as nat)
                + " — use --arch ctc for a range"@,
        )
    } else if arch_named(q.arch@) == Some(Arch::Ctc) && worst_case_steps(q.length.max_chars as int)
        > steps {
        Some(
            "--num-chars max "@ + decimal(q.length.max_chars as nat)
                + " is too long for the CTC sequence length "@ + decimal(steps as nat)
                + " (needs 2*len-1 ≤ "@ + decimal(steps as nat) + ")"@,
        )
    } else {
        None
    }
}

/// A request is fine when its head is known, its numbers are positive, its learning
/// rate is finite and its dropout a probability below 1; a fixed head needs a single
/// length, and CTC twice as many steps as characters but one, so that any label
/// fits.
pub proof fn law_fine_request(q: TrainRequest)
    ensures
        request_complaint(q) is None <==> arch_named(q.arch@) is Some && q.epochs > 0
            && q.batch_size > 0 && 0 < q.lr.bits < 0x7ff0_0000_0000_0000 && (q.dropout.bits
            < 0x3ff0_0000_0000_0000 || q.dropout.bits == 0x8000_0000_0000_0000) && if arch_named(
            q.arch@,
        ) == Some(Arch::Ctc) {
            q.length.max_chars == 0 || 2 * q.length.max_chars - 1 <= q.input_size.width / 4
        } else {
            q.length.min_chars == q.length.max_chars
        },
        q.length.max_chars > 0 ==> worst_case_steps(q.length.max_chars as int) == 2
            * q.length.max_chars - 1,
        worst_case_steps(0) == 0,
{
}

/// What is wrong with a request is told one thing at a time: the head first, then
/// the epochs, the batch size, the learning rate, the dropout and the length.
pub proof fn law_request_complaints_in_order(q: TrainRequest, arch: Arch)
    ensures
        arch_named(q.arch@) is None ==> request_complaint(q) == Some(unknown_arch(q.arch@)),
        arch_named(q.arch@) == Some(arch) ==> ({
            let rate = 0 < q.lr.bits < 0x7ff0_0000_0000_0000;
            let dropout = q.dropout.bits < 0x3ff0_0000_0000_0000 || q.dropout.bits
                == 0x8000_0000_0000_0000;
            let counts = q.epochs > 0 && q.batch_size > 0;
            let steps = q.input_size.width / 4;
            &&& q.epochs == 0 ==> request_complaint(q) == Some("--epochs must be > 0"@)
            &&& q.epochs > 0 && q.batch_size == 0 ==> request_complaint(q) == Some(
                "--batch-size must be > 0"@,
            )
            &&& counts && !rate ==> request_complaint(q) == Some(
                "--lr must be a positive finite number, got "@ + q.lr.text@,
            )
            &&& counts && rate && !dropout ==> request_complaint(q) == Some(
                "--dropout must be a finite number in [0, 1), got "@ + q.dropout.text@,
            )
            &&& counts && rate && dropout && arch != Arch::Ctc && q.length.min_chars
                != q.length.max_chars ==> request_complaint(q) == Some(
                "--arch "@ + arch_name(arch) + " needs a single length, got "@ + decimal(
                    q.length.min_chars as nat,
                ) + "..="@ + decimal(q.length.max_chars as nat)
                    + " — use --arch ctc for a range"@,
            )
            &&& counts && rate && dropout && arch == Arch::Ctc && q.length.max_chars > 0 && 2
                * q.length.max_chars - 1 > steps ==> request_complaint(q) == Some(
                "--num-chars max "@ + decimal(q.length.max_chars as nat)
                    + " is too long for the CTC sequence length "@ + decimal(steps as nat)
                    + " (needs 2*len-1 ≤ "@ + decimal(steps as nat) + ")"@,
            )
        }),
{
}

/// Check a request.
pub fn check_request(q: &TrainRequest) -> (r: Result<Arch, String>)
    ensures
        match r {
            Ok(arch) => request_complaint(*q) is None && arch_named(q.arch@) == Some(arch),
            Err(e) => request_complaint(*q) == Some(e@),
        },
{
    let arch = match Arch::parse(q.arch.as_str()) {
        Ok(a) => a,
        Err(e) => {
            return Err(e);
        },
    };
    if q.epochs == 0 {
        return Err(String::from_str("--epochs must be > 0"));
    }
    if q.batch_size == 0 {
        return Err(String::from_str("--batch-size must be > 0"));
    }
    if !(0 < q.lr.bits && q.lr.bits < INFINITY_BITS) {
        let mut e = String::from_str("--lr must be a positive finite number, got ");
        e.append(q.lr.text.as_str());
        return Err(e);
    }
    if !(q.dropout.bits < ONE_BITS || q.dropout.bits == NEGATIVE_ZERO_BITS) {
        let mut e = String::from_str("--dropout must be a finite number in [0, 1), got ");
        e.append(q.dropout.text.as_str());
        return Err(e);
    }
    if arch != Arch::Ctc && q.length.min_chars != q.length.max_chars {
        let mut e = String::from_str("--arch ");
        e.append(arch.as_str());
        e.append(" needs a single length, got ");
        e.append(show_usize(q.length.min_chars).as_str());
        e.append("..=");
        e.append(show_usize(q.length.max_chars).as_str());
        e.append(" — use --arch ctc for a range");
        return Err(e);
    }
    let steps: usize = q.input_size.ctc_time_steps();
    // The worst case (all repeats, e.g. "00000") needs 2*len-1 time steps, that
    // is more than `steps` as soon as len exceeds (steps + 1) / 2.
    if arch == Arch::Ctc && q.length.max_chars > 0 && q.length.max_chars > (steps + 1) / 2 {
        let mut e = String::from_str("--num-chars max ");
        e.append(show_usize(q.length.max_chars).as_str());
        e.append(" is too long for the CTC sequence length ");
        e.append(show_usize(steps).as_str());
        e.append(" (needs 2*len-1 ≤ ");
        e.append(show_usize(steps).as_str());
        e.append(")");
        return Err(e);
    }
    Ok(arch)
}

/// The configuration of the training run that a request describes.
pub fn build_config(q: TrainRequest) -> (r: TrainingConfig)
    ensures
        r.model.charset@ == q.charset@,
        r.model.num_chars == q.length.max_chars,
        r.model.arch == q.arch,
        r.model.preprocess@ == mode_name(q.preprocess),
        r.model.input_width == q.input_size.width,
        r.model.input_height == q.input_size.height,
        r.model.dropout == q.dropout,
        r.model.version@ == crate::model::VERSION@,
        r.min_chars == q.length.min_chars,
        r.num_epochs == q.epochs,
        r.batch_size == q.batch_size,
        r.seed == 42,
        r.learning_rate == q.lr,
        r.augment == q.augment,
        r.augment_profile@ == augment_name(q.augment_profile),
        q.charset@.no_duplicates(),
{
    let chars = q.charset.as_chars();
    let model = CaptchaModelConfig::new(chars, q.length.max_chars).with_arch(
        q.arch,
    ).with_preprocess(String::from_str(q.preprocess.as_str())).with_input_width(
        q.input_size.width,
    ).with_input_height(q.input_size.height).with_dropout(q.dropout);
    let mut config = TrainingConfig::new(model);
    config.min_chars = q.length.min_chars;
    config.num_epochs = q.epochs;
    config.batch_size = q.batch_size;
    config.learning_rate = q.lr;
    config.augment = q.augment;
    config.augment_profile = String::from_str(q.augment_profile.as_str());
    config
}

/// A request without complaint, for a positive length and a charset with
/// characters, gives a configuration that a training run accepts.
pub proof fn law_checked_request_runs(q: TrainRequest, c: TrainingConfig)
    requires
        request_complaint(q) is None,
        q.length.max_chars > 0,
        q.charset@.len() > 0,
        q.charset@.no_duplicates(),
        c.model.charset@ == q.charset@,
        c.model.num_chars == q.length.max_chars,
        c.model.arch@ == q.arch@,
        c.model.preprocess@ == mode_name(q.preprocess),
        c.model.input_width == q.input_size.width,
        c.model.dropout == q.dropout,
        c.min_chars == q.length.min_chars,
    ensures
        run_complaint(c) is None,
{
    law_mode_roundtrip(q.preprocess);
    crate::model::lemma_distinct_no_repeat(c.model.charset@, 0);
}

/// With an accepted CTC request every label that is no longer than the maximum
/// can be read off the output steps, repeated characters included.
pub proof fn law_ctc_request_fits_all_labels(q: TrainRequest, label: Seq<usize>, blank: usize)
    requires
        request_complaint(q) is None,
        arch_named(q.arch@) == Some(Arch::Ctc),
        label.len() <= q.length.max_chars,
        !label.contains(blank),
    ensures
        exists|steps: Seq<usize>|
            steps.len() == q.input_size.width / 4 && #[trigger] ctc_collapse(steps, blank) == label,
{
    if label.len() > 0 {
        law_ctc_worst_case(label);
    }
    law_ctc_label_fits(label, blank, (q.input_size.width / 4) as nat);
}

} // verus!
