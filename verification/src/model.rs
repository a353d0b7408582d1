//! Recognition heads, the model configuration and its versions.
//!
//! * `fixed` — positional classifier: the CNN feature map is pooled into exactly
//!   `num_chars` width slots and each slot is classified independently with
//!   cross-entropy. Best for fixed-length captchas — trains stably, handles
//!   repeated characters (e.g. `00075`), and is fast at inference.
//! * `fixed-global` — fixed-length classifier over the whole width. Useful when
//!   characters are not aligned with equal-width slots.
//! * `fixed-seq`, `fixed-seq-pool` — fixed-length classifiers over a sequence
//!   that temporal blocks have processed first.
//! * `ctc`   — a per-width-column classifier trained with CTC loss. Handles
//!   variable length and shifting character positions without per-slot labels.

use crate::image_ops::{InputSize, PreprocessMode, IMG_HEIGHT, IMG_WIDTH};
use crate::text::{
    chars_of, debug_char, debug_str, find_char, folds_to, has_char, lowered, parse_number,
    slice_of, string_of, trimmed,
};
use vstd::prelude::*;
use vstd::string::StringExecFns;

#[allow(unused_imports)]
use crate::charset::class_of;
#[allow(unused_imports)]
use crate::image_ops::{mode_named, unknown_mode};
#[allow(unused_imports)]
use crate::text::{
    char_debug, law_digits_are_positional, law_number_is_digits, lemma_first_index,
    lemma_first_index_unique, lemma_lower_keeps, lemma_trim_keeps, lemma_trim_middle,
    lemma_trim_start_part, lower, number, split_on, str_debug, trim, trim_end, trim_start,
};

verus! {

/// Feature channels produced by the CNN backbone.
pub const CNN_OUT: usize = 128;

/// Number of time steps the CTC head emits at the default input width: the
/// backbone halves the width twice (two 2×2 pools) and keeps it otherwise, so
/// the sequence length is a quarter of the width. The CTC target length must
/// not exceed this.
pub const CTC_TIME_STEPS: usize = IMG_WIDTH / 4;

/// Recognition head / training objective.
#[derive(Clone, Copy, Debug, PartialEq, Eq, Structural)]
pub enum Arch {
    /// Positional classifier + cross-entropy (fixed length).
    Fixed,
    /// Whole-sequence classifier + cross-entropy (fixed length).
    FixedGlobal,
    /// Temporal blocks + whole-sequence classifier + cross-entropy (fixed length).
    FixedSeq,
    /// Temporal blocks + positional classifier + cross-entropy (fixed length).
    FixedSeqPool,
    /// Per-column classifier + CTC loss (variable length).
    Ctc,
}

/// The name of a head.
pub open spec fn arch_name(arch: Arch) -> Seq<char> {
    match arch {
        Arch::Fixed => "fixed"@,
        Arch::FixedGlobal => "fixed-global"@,
        Arch::FixedSeq => "fixed-seq"@,
        Arch::FixedSeqPool => "fixed-seq-pool"@,
        Arch::Ctc => "ctc"@,
    }
}

/// The head that a name denotes, ignoring ASCII case.
pub open spec fn arch_named(s: Seq<char>) -> Option<Arch> {
    let n = lower(s);
    if n == "fixed"@ {
        Some(Arch::Fixed)
    } else if n == "fixed-global"@ || n == "fixed_global"@ || n == "global"@ {
        Some(Arch::FixedGlobal)
    } else if n == "fixed-seq"@ {
        Some(Arch::FixedSeq)
    } else if n == "fixed-seq-pool"@ {
        Some(Arch::FixedSeqPool)
    } else if n == "ctc"@ {
        Some(Arch::Ctc)
    } else {
        None
    }
}

/// The complaint about an unknown head.
pub open spec fn unknown_arch(s: Seq<char>) -> Seq<char> {
    "unknown arch "@ + str_debug(lower(s)) + " (expected 'fixed', 'fixed-global' or 'ctc')"@
}

impl Arch {
    pub fn parse(s: &str) -> (r: Result<Self, String>)
        ensures
            match r {
                Ok(arch) => arch_named(s@) == Some(arch),
                Err(e) => arch_named(s@) is None && e@ == unknown_arch(s@),
            },
    {
        if folds_to(s, "fixed") {
            Ok(Arch::Fixed)
        } else if folds_to(s, "fixed-global") || folds_to(s, "fixed_global") || folds_to(
            s,
            "global",
        ) {
            Ok(Arch::FixedGlobal)
        } else if folds_to(s, "fixed-seq") {
            Ok(Arch::FixedSeq)
        } else if folds_to(s, "fixed-seq-pool") {
            Ok(Arch::FixedSeqPool)
        } else if folds_to(s, "ctc") {
            Ok(Arch::Ctc)
        } else {
            let mut e = String::from_str("unknown arch ");
            e.append(debug_str(string_of(&lowered(&chars_of(s))).as_str()).as_str());
            e.append(" (expected 'fixed', 'fixed-global' or 'ctc')");
            Err(e)
        }
    }

    pub fn as_str(self) -> (r: &'static str)
        ensures
            r@ == arch_name(self),
    {
        match self {
            Arch::Fixed => "fixed",
            Arch::FixedGlobal => "fixed-global",
            Arch::FixedSeq => "fixed-seq",
            Arch::FixedSeqPool => "fixed-seq-pool",
            Arch::Ctc => "ctc",
        }
    }
}

/// The name of a head reads back as that head.
pub proof fn law_arch_roundtrip(arch: Arch)
    ensures
        arch_named(arch_name(arch)) == Some(arch),
{
    reveal_strlit("fixed");
    reveal_strlit("fixed-global");
    reveal_strlit("fixed_global");
    reveal_strlit("global");
    reveal_strlit("fixed-seq");
    reveal_strlit("fixed-seq-pool");
    reveal_strlit("ctc");
    lemma_lower_keeps("fixed"@);
    lemma_lower_keeps("fixed-global"@);
    lemma_lower_keeps("fixed-seq"@);
    lemma_lower_keeps("fixed-seq-pool"@);
    lemma_lower_keeps("ctc"@);
}

/// Which names denote a head, whatever their ASCII case: the name of each, and two
/// more for the whole-sequence classifier. Any other is quoted in the complaint,
/// folded to lower case.
pub proof fn law_arch_names(s: Seq<char>, n: Seq<char>)
    requires
        n == lower(s),
    ensures
        arch_named(s) == Some(Arch::Fixed) <==> n == "fixed"@,
        arch_named(s) == Some(Arch::FixedGlobal) <==> n == "fixed-global"@ || n == "fixed_global"@
            || n == "global"@,
        arch_named(s) == Some(Arch::FixedSeq) <==> n == "fixed-seq"@,
        arch_named(s) == Some(Arch::FixedSeqPool) <==> n == "fixed-seq-pool"@,
        arch_named(s) == Some(Arch::Ctc) <==> n == "ctc"@,
        arch_name(Arch::Fixed) == "fixed"@,
        arch_name(Arch::FixedGlobal) == "fixed-global"@,
        arch_name(Arch::FixedSeq) == "fixed-seq"@,
        arch_name(Arch::FixedSeqPool) == "fixed-seq-pool"@,
        arch_name(Arch::Ctc) == "ctc"@,
        unknown_arch(s) == "unknown arch "@ + str_debug(n)
            + " (expected 'fixed', 'fixed-global' or 'ctc')"@,
{
    reveal_strlit("fixed");
    reveal_strlit("fixed-global");
    reveal_strlit("fixed_global");
    reveal_strlit("global");
    reveal_strlit("fixed-seq");
    reveal_strlit("fixed-seq-pool");
    reveal_strlit("ctc");
    assert("fixed"@.len() == 5 && "global"@.len() == 6 && "ctc"@.len() == 3);
    assert("fixed-global"@.len() == 12 && "fixed_global"@.len() == 12);
    assert("fixed-seq"@.len() == 9 && "fixed-seq-pool"@.len() == 14);
}

// ---------------------------------------------------------------------------
// Versions
// ---------------------------------------------------------------------------
/// The capburn version of this build.
pub const VERSION: &'static str = "0.1.1";

/// The capburn version of this build.
pub fn current_version() -> (r: String)
    ensures
        r@ == VERSION@,
{
    String::from_str(VERSION)
}

/// One component of a version; missing or garbage components read as 0.
pub open spec fn version_part(parts: Seq<Seq<char>>, i: int) -> int {
    if i < parts.len() {
        match number(parts[i], u32::MAX as int) {
            Some(n) => n,
            None => 0,
        }
    } else {
        0
    }
}

/// Major and minor version of a `major.minor.patch` text.
pub open spec fn version_of(s: Seq<char>) -> (int, int) {
    let parts = split_on(trim(s), '.');
    (version_part(parts, 0), version_part(parts, 1))
}

/// Whether version `a` is newer than version `b`, major component first.
pub open spec fn newer(a: (int, int), b: (int, int)) -> bool {
    a.0 > b.0 || (a.0 == b.0 && a.1 > b.1)
}

/// A number of at most `u32::MAX`; anything else reads as 0.
fn part_number(chars: &[char]) -> (r: u32)
    ensures
        r == match number(chars@, u32::MAX as int) {
            Some(n) => n,
            None => 0,
        },
{
    match parse_number(chars, u32::MAX as u64) {
        Some(n) => n as u32,
        None => 0,
    }
}

/// Parse `"major.minor.patch"` into `(major, minor)`; patch and any suffix are
/// ignored. Missing/garbage parts read as 0.
pub fn major_minor(version: &str) -> (r: (u32, u32))
    ensures
        (r.0 as int, r.1 as int) == version_of(version@),
{
    let t = trimmed(&chars_of(version));
    assert(t@.skip(0) == t@);
    let i = find_char(&t, 0, '.');
    let major = part_number(&slice_of(&t, 0, i));
    assert(t@.subrange(0, i as int) == t@.take(i as int));
    if i == t.len() {
        assert(t@.take(i as int) == t@);
        return (major, 0);
    }
    let ghost rest = t@.skip(i + 1);
    let j = find_char(&t, i + 1, '.');
    let minor = part_number(&slice_of(&t, i + 1, j));
    proof {
        lemma_first_index(rest, '.');
        assert(t@.subrange(i + 1, j as int) == rest.take(j - i - 1));
        if j == t@.len() {
            assert(rest.take(j - i - 1) == rest);
        }
        assert(split_on(t@, '.')[1] == split_on(rest, '.')[0]);
    }
    (major, minor)
}

/// How a version is read, white space around it aside: the number before the first
/// dot, and the number between the first dot and the second or the end. What is no
/// number, or is missing, counts as 0.
pub proof fn law_version_is_read(s: Seq<char>, a: Seq<char>, b: Seq<char>, rest: Seq<char>)
    requires
        !a.contains('.'),
        !b.contains('.'),
    ensures
        ({
            let major = match number(a, u32::MAX as int) {
                Some(n) => n,
                None => 0,
            };
            let minor = match number(b, u32::MAX as int) {
                Some(n) => n,
                None => 0,
            };
            &&& trim(s) == a ==> version_of(s) == (major, 0int)
            &&& trim(s) == a + "."@ + b ==> version_of(s) == (major, minor)
            &&& trim(s) == a + "."@ + b + "."@ + rest ==> version_of(s) == (major, minor)
        }),
{
    reveal_strlit(".");
    let t = trim(s);
    if t == a {
        lemma_no_dot(a);
        assert(split_on(a, '.') =~= seq![a]);
    }
    if t == a + "."@ + b {
        assert forall|j: int| 0 <= j < a.len() implies t[j] != '.' by {
            assert(a.contains(a[j]));
        }
        assert(t[a.len() as int] == '.');
        lemma_first_index_unique(t, '.', a.len() as int);
        assert(t.take(a.len() as int) =~= a);
        assert(t.skip(a.len() as int + 1) =~= b);
        lemma_no_dot(b);
        assert(split_on(b, '.') =~= seq![b]);
        assert(split_on(t, '.') =~= seq![a] + seq![b]);
    }
    if t == a + "."@ + b + "."@ + rest {
        lemma_split_two(a, b, rest);
    }
}

proof fn lemma_no_dot(s: Seq<char>)
    requires
        !s.contains('.'),
    ensures
        split_on(s, '.') == seq![s],
{
    lemma_first_index(s, '.');
}

/// A version is newer when its first differing component is larger.
pub proof fn law_newer_is_by_first_difference(a: (int, int), b: (int, int))
    ensures
        a.0 > b.0 ==> newer(a, b),
        a.0 < b.0 ==> !newer(a, b),
        a.0 == b.0 ==> newer(a, b) == (a.1 > b.1),
{
}

// ---------------------------------------------------------------------------
// Configuration
// ---------------------------------------------------------------------------
/// A dropout probability: the bit pattern of the IEEE 754 double, and its
/// decimal notation for messages.
#[derive(Debug)]
pub struct Dropout {
    pub bits: u64,
    pub text: String,
}

/// Bit pattern of the double 1.
pub const ONE_BITS: u64 = 0x3ff0_0000_0000_0000;

/// Bit pattern of the double closest to 0.2.
pub const DEFAULT_DROPOUT_BITS: u64 = 0x3fc9_9999_9999_999a;

/// Bit pattern of negative zero.
pub const NEGATIVE_ZERO_BITS: u64 = 0x8000_0000_0000_0000;

/// Whether a bit pattern stands for a number in `[0, 1)`. Non-negative doubles
/// are ordered as their bit patterns; infinities and NaNs lie above 1, and the
/// only double with the sign bit set that is not below 0 is negative zero.
pub open spec fn is_probability(bits: u64) -> bool {
    bits < ONE_BITS || bits == NEGATIVE_ZERO_BITS
}

/// Configuration of a captcha model.
#[derive(Debug)]
pub struct CaptchaModelConfig {
    /// Expanded charset string. Class indices `0..len` map to these characters.
    pub charset: String,
    /// Number of characters: the fixed length (`fixed`), or the maximum length
    /// (`ctc`, informational + dataset filtering).
    pub num_chars: usize,
    /// Recognition head, see [`Arch`].
    pub arch: String,
    /// Image preprocessing mode: `"stretch"` or `"fit"`.
    pub preprocess: String,
    /// Model input width in pixels.
    pub input_width: usize,
    /// Model input height in pixels.
    pub input_height: usize,
    pub dropout: Dropout,
    /// capburn version that trained the model (e.g. `"0.1.1"`). Used to reject a
    /// model built by a newer major/minor than this build (see
    /// [`load_model_config`]).
    pub version: String,
}

/// The first character of `s[i..]` that also occurs before its position in `s`.
pub open spec fn first_repeat(s: Seq<char>, i: int) -> Option<char>
    decreases s.len() - i,
{
    if i < 0 || i >= s.len() {
        None
    } else if s.take(i).contains(s[i]) {
        Some(s[i])
    } else {
        first_repeat(s, i + 1)
    }
}

/// What is wrong with a configuration: the first complaint, if any.
pub open spec fn config_complaint(c: CaptchaModelConfig) -> Option<Seq<char>> {
    if arch_named(c.arch@) is None {
        Some(unknown_arch(c.arch@))
    } else if mode_named(c.preprocess@) is None {
        Some(unknown_mode(c.preprocess@))
    } else if c.num_chars == 0 {
        Some("num_chars must be > 0"@)
    } else if c.charset@.len() == 0 {
        Some("charset is empty"@)
    } else if first_repeat(c.charset@, 0) is Some {
        Some("charset contains duplicate character "@ + char_debug(first_repeat(c.charset@, 0)->0))
    } else if !is_probability(c.dropout.bits) {
        Some("dropout must be in [0, 1), got "@ + c.dropout.text@)
    } else {
        None
    }
}

/// The configuration with default settings.
pub open spec fn is_default_config(
    c: CaptchaModelConfig,
    charset: Seq<char>,
    num_chars: usize,
) -> bool {
    &&& c.charset@ == charset
    &&& c.num_chars == num_chars
    &&& c.arch@ == "fixed"@
    &&& c.preprocess@ == "stretch"@
    &&& c.input_width == IMG_WIDTH
    &&& c.input_height == IMG_HEIGHT
    &&& c.dropout.bits == DEFAULT_DROPOUT_BITS
    &&& c.dropout.text@ == "0.2"@
    &&& c.version@ == VERSION@
}

fn default_arch() -> (r: String)
    ensures
        r@ == "fixed"@,
{
    String::from_str("fixed")
}

fn default_preprocess() -> (r: String)
    ensures
        r@ == "stretch"@,
{
    String::from_str("stretch")
}

fn default_dropout() -> (r: Dropout)
    ensures
        r.bits == DEFAULT_DROPOUT_BITS,
        r.text@ == "0.2"@,
{
    Dropout { bits: DEFAULT_DROPOUT_BITS, text: String::from_str("0.2") }
}

impl CaptchaModelConfig {
    /// A configuration with default settings.
    pub fn new(charset: String, num_chars: usize) -> (r: Self)
        ensures
            is_default_config(r, charset@, num_chars),
    {
        CaptchaModelConfig {
            charset,
            num_chars,
            arch: default_arch(),
            preprocess: default_preprocess(),
            input_width: IMG_WIDTH,
            input_height: IMG_HEIGHT,
            dropout: default_dropout(),
            version: current_version(),
        }
    }

    /// The same configuration with another recognition head.
    pub fn with_arch(self, arch: String) -> (r: Self)
        ensures
            r == (CaptchaModelConfig { arch, ..self }),
    {
        CaptchaModelConfig { arch, ..self }
    }

    /// The same configuration with another preprocessing mode.
    pub fn with_preprocess(self, preprocess: String) -> (r: Self)
        ensures
            r == (CaptchaModelConfig { preprocess, ..self }),
    {
        CaptchaModelConfig { preprocess, ..self }
    }

    /// The same configuration with another input width.
    pub fn with_input_width(self, input_width: usize) -> (r: Self)
        ensures
            r == (CaptchaModelConfig { input_width, ..self }),
    {
        CaptchaModelConfig { input_width, ..self }
    }

    /// The same configuration with another input height.
    pub fn with_input_height(self, input_height: usize) -> (r: Self)
        ensures
            r == (CaptchaModelConfig { input_height, ..self }),
    {
        CaptchaModelConfig { input_height, ..self }
    }

    /// The same configuration with another dropout.
    pub fn with_dropout(self, dropout: Dropout) -> (r: Self)
        ensures
            r == (CaptchaModelConfig { dropout, ..self }),
    {
        CaptchaModelConfig { dropout, ..self }
    }

    /// Validate the config: known arch and preprocessing, positive length,
    /// non-empty charset with no duplicates, dropout in range.
    pub fn validate(&self) -> (r: Result<(), String>)
        ensures
            match r {
                Ok(_) => config_complaint(*self) is None,
                Err(e) => config_complaint(*self) == Some(e@),
            },
    {
        match Arch::parse(self.arch.as_str()) {
            Ok(_) => {},
            Err(e) => {
                return Err(e);
            },
        }
        match PreprocessMode::parse(self.preprocess.as_str()) {
            Ok(_) => {},
            Err(e) => {
                return Err(e);
            },
        }
        if self.num_chars == 0 {
            return Err(String::from_str("num_chars must be > 0"));
        }
        let chars = chars_of(self.charset.as_str());
        if chars.len() == 0 {
            return Err(String::from_str("charset is empty"));
        }
        match find_repeat(&chars) {
            Some(c) => {
                let mut e = String::from_str("charset contains duplicate character ");
                e.append(debug_char(c).as_str());
                return Err(e);
            },
            None => {},
        }
        if !(self.dropout.bits < ONE_BITS || self.dropout.bits == NEGATIVE_ZERO_BITS) {
            let mut e = String::from_str("dropout must be in [0, 1), got ");
            e.append(self.dropout.text.as_str());
            return Err(e);
        }
        Ok(())
    }

    /// The size of the model input.
    pub fn input_size(&self) -> (r: InputSize)
        ensures
            r == (InputSize { width: self.input_width, height: self.input_height }),
    {
        InputSize { width: self.input_width, height: self.input_height }
    }
}

/// Finds the first character that repeats an earlier one.
fn find_repeat(chars: &[char]) -> (r: Option<char>)
    ensures
        r == first_repeat(chars@, 0),
{
    let n: usize = chars.len();
    let mut seen: Vec<char> = Vec::new();
    for i in 0..n
        invariant
            n == chars@.len(),
            seen@ == chars@.take(i as int),
            first_repeat(chars@, 0) == first_repeat(chars@, i as int),
    {
        if has_char(&seen, chars[i]) {
            return Some(chars[i]);
        }
        seen.push(chars[i]);
        assert(seen@ == chars@.take(i + 1));
    }
    None
}

/// A configuration that passes validation has a charset in which no character
/// occurs twice, so its classes and characters correspond one to one.
pub proof fn law_valid_charset_is_distinct(c: CaptchaModelConfig)
    requires
        config_complaint(c) is None,
    ensures
        c.charset@.no_duplicates(),
        c.charset@.len() > 0,
{
    lemma_no_repeat(c.charset@, 0);
}

proof fn lemma_no_repeat(s: Seq<char>, i: int)
    requires
        0 <= i <= s.len(),
        first_repeat(s, i) is None,
        s.take(i).no_duplicates(),
    ensures
        s.no_duplicates(),
    decreases s.len() - i,
{
    if i == s.len() {
        assert(s.take(i) == s);
    } else {
        assert(s.take(i + 1) == s.take(i).push(s[i]));
        assert forall|j: int| 0 <= j < i implies s.take(i)[j] != s[i] by {}
        lemma_no_repeat(s, i + 1);
    }
}

/// The character that is told to repeat is the first that does: all before it are
/// different, and it is one of them. A text of different characters has none.
pub proof fn law_first_repeat_is_first(s: Seq<char>)
    ensures
        first_repeat(s, 0) is None <==> s.no_duplicates(),
        first_repeat(s, 0) matches Some(c) ==> exists|i: int|
            0 <= i < s.len() && #[trigger] s[i] == c && s.take(i).contains(c) && s.take(
                i,
            ).no_duplicates(),
{
    assert(s.take(0).no_duplicates());
    if first_repeat(s, 0) is None {
        lemma_no_repeat(s, 0);
    } else {
        lemma_first_repeat(s, 0);
    }
    if s.no_duplicates() {
        lemma_distinct_no_repeat(s, 0);
    }
}

proof fn lemma_first_repeat(s: Seq<char>, i: int)
    requires
        0 <= i <= s.len(),
        first_repeat(s, i) is Some,
        s.take(i).no_duplicates(),
    ensures
        first_repeat(s, i) matches Some(c) && exists|k: int|
            0 <= k < s.len() && #[trigger] s[k] == c && s.take(k).contains(c) && s.take(
                k,
            ).no_duplicates(),
    decreases s.len() - i,
{
    if i < s.len() && !s.take(i).contains(s[i]) {
        assert(s.take(i + 1) =~= s.take(i).push(s[i]));
        assert forall|j: int| 0 <= j < i implies s.take(i)[j] != s[i] by {}
        lemma_first_repeat(s, i + 1);
    }
}

/// A configuration is valid when its head and its preprocessing are known, its
/// length is positive, its charset has characters and none of them twice, and its
/// dropout is a probability below 1.
pub proof fn law_valid_config(c: CaptchaModelConfig)
    ensures
        config_complaint(c) is None <==> arch_named(c.arch@) is Some && mode_named(
            c.preprocess@,
        ) is Some && c.num_chars > 0 && c.charset@.len() > 0 && c.charset@.no_duplicates() && (
        c.dropout.bits < 0x3ff0_0000_0000_0000 || c.dropout.bits == 0x8000_0000_0000_0000),
        is_probability(c.dropout.bits) <==> c.dropout.bits < 0x3ff0_0000_0000_0000 || c.dropout.bits
            == 0x8000_0000_0000_0000,
{
    law_first_repeat_is_first(c.charset@);
}

/// What is wrong with a configuration is told one thing at a time: an unknown head
/// before an unknown preprocessing, these before the length, the charset and the
/// dropout.
pub proof fn law_config_complaints_in_order(c: CaptchaModelConfig)
    ensures
        ({
            let known = arch_named(c.arch@) is Some && mode_named(c.preprocess@) is Some;
            &&& arch_named(c.arch@) is None ==> config_complaint(c) == Some(unknown_arch(c.arch@))
            &&& arch_named(c.arch@) is Some && mode_named(c.preprocess@) is None
                ==> config_complaint(c) == Some(unknown_mode(c.preprocess@))
            &&& known && c.num_chars == 0 ==> config_complaint(c) == Some("num_chars must be > 0"@)
            &&& known && c.num_chars > 0 && c.charset@.len() == 0 ==> config_complaint(c) == Some(
                "charset is empty"@,
            )
            &&& known && c.num_chars > 0 && c.charset@.len() > 0 && !c.charset@.no_duplicates() ==> (
            first_repeat(c.charset@, 0) matches Some(repeated) && config_complaint(c) == Some(
                "charset contains duplicate character "@ + char_debug(repeated),
            ))
            &&& known && c.num_chars > 0 && c.charset@.len() > 0 && c.charset@.no_duplicates()
                && config_complaint(c) is Some ==> config_complaint(c) == Some(
                "dropout must be in [0, 1), got "@ + c.dropout.text@,
            )
        }),
{
    law_first_repeat_is_first(c.charset@);
}

/// The defaults: the positional head, stretched images of 128 by 32 pixels, a
/// dropout of 0.2, and the version of this build.
pub proof fn law_default_config(c: CaptchaModelConfig, charset: Seq<char>, num_chars: usize)
    ensures
        is_default_config(c, charset, num_chars) <==> c.charset@ == charset && c.num_chars
            == num_chars && c.arch@ == "fixed"@ && c.preprocess@ == "stretch"@ && c.input_width
            == 128 && c.input_height == 32 && c.dropout.bits == 0x3fc9_9999_9999_999a
            && c.dropout.text@ == "0.2"@ && c.version@ == "0.1.1"@,
{
}

/// A default configuration with a usable charset and length passes validation.
pub proof fn law_default_config_is_valid(c: CaptchaModelConfig)
    requires
        is_default_config(c, c.charset@, c.num_chars),
        c.num_chars > 0,
        c.charset@.len() > 0,
        c.charset@.no_duplicates(),
    ensures
        config_complaint(c) is None,
{
    law_arch_roundtrip(Arch::Fixed);
    crate::image_ops::law_mode_roundtrip(PreprocessMode::Stretch);
    lemma_distinct_no_repeat(c.charset@, 0);
}

pub proof fn lemma_distinct_no_repeat(s: Seq<char>, i: int)
    requires
        0 <= i <= s.len(),
        s.no_duplicates(),
    ensures
        first_repeat(s, i) is None,
    decreases s.len() - i,
{
    if i < s.len() {
        assert forall|j: int| 0 <= j < i implies s.take(i)[j] != s[i] by {}
        lemma_distinct_no_repeat(s, i + 1);
    }
}

/// Lenient view of `model.json`: every non-essential field may be missing, so
/// models written by an older capburn (missing fields added later) still load.
pub struct StoredModelConfig {
    pub charset: String,
    pub num_chars: usize,
    pub arch: Option<String>,
    pub preprocess: Option<String>,
    pub input_width: Option<usize>,
    pub input_height: Option<usize>,
    pub dropout: Option<Dropout>,
    /// Absent in pre-versioning models → treated as compatible.
    pub version: Option<String>,
}

/// Whether a stored model is too new for this build.
pub open spec fn stored_is_newer(stored: StoredModelConfig) -> bool {
    match stored.version {
        Some(v) => newer(version_of(v@), version_of(VERSION@)),
        None => false,
    }
}

/// `c` holds what is stored, and a default for what is not.
pub open spec fn fills_defaults(stored: StoredModelConfig, c: CaptchaModelConfig) -> bool {
    &&& c.charset@ == stored.charset@
    &&& c.num_chars == stored.num_chars
    &&& c.arch@ == match stored.arch {
        Some(a) => a@,
        None => "fixed"@,
    }
    &&& c.preprocess@ == match stored.preprocess {
        Some(p) => p@,
        None => "stretch"@,
    }
    &&& c.input_width == match stored.input_width {
        Some(w) => w,
        None => IMG_WIDTH,
    }
    &&& c.input_height == match stored.input_height {
        Some(h) => h,
        None => IMG_HEIGHT,
    }
    &&& c.dropout.bits == match stored.dropout {
        Some(d) => d.bits,
        None => DEFAULT_DROPOUT_BITS,
    }
    &&& c.dropout.text@ == match stored.dropout {
        Some(d) => d.text@,
        None => "0.2"@,
    }
    &&& c.version@ == VERSION@
}

/// The complaint about a model that is too new for this build.
pub open spec fn newer_message(path: Seq<char>, version: Seq<char>) -> Seq<char> {
    "model "@ + path + " was trained by capburn "@ + version + " but this build is "@ + VERSION@
        + " — update the capburn extension (see install.sh)"@
}

/// Resolve a parsed `model.json` tolerantly: fills defaults for fields added in
/// later versions, and rejects a model whose major/minor version is newer than
/// this build (patch differences are ignored) with a hint to update the
/// extension. `path` names the file in the message.
pub fn load_model_config(path: &str, stored: StoredModelConfig) -> (r: Result<
    CaptchaModelConfig,
    String,
>)
    ensures
        match r {
            Ok(c) => !stored_is_newer(stored) && fills_defaults(stored, c),
            Err(e) => stored_is_newer(stored) && e@ == newer_message(
                path@,
                (stored.version->0)@,
            ),
        },
{
    match &stored.version {
        Some(model_version) => {
            // Compare major.minor only; a patch bump is format-compatible.
            let theirs = major_minor(model_version.as_str());
            let ours = major_minor(VERSION);
            if theirs.0 > ours.0 || (theirs.0 == ours.0 && theirs.1 > ours.1) {
                let mut e = String::from_str("model ");
                e.append(path);
                e.append(" was trained by capburn ");
                e.append(model_version.as_str());
                e.append(" but this build is ");
                e.append(VERSION);
                e.append(" — update the capburn extension (see install.sh)");
                return Err(e);
            }
        },
        None => {},
    }
    Ok(
        CaptchaModelConfig {
            charset: stored.charset,
            num_chars: stored.num_chars,
            arch: match stored.arch {
                Some(a) => a,
                None => default_arch(),
            },
            preprocess: match stored.preprocess {
                Some(p) => p,
                None => default_preprocess(),
            },
            input_width: match stored.input_width {
                Some(w) => w,
                None => IMG_WIDTH,
            },
            input_height: match stored.input_height {
                Some(h) => h,
                None => IMG_HEIGHT,
            },
            dropout: match stored.dropout {
                Some(d) => d,
                None => default_dropout(),
            },
            version: current_version(),
        },
    )
}

/// Whether `stored` is what is written to disk for a configuration.
pub open spec fn stores(stored: StoredModelConfig, c: CaptchaModelConfig) -> bool {
    &&& stored.charset@ == c.charset@
    &&& stored.num_chars == c.num_chars
    &&& stored.arch matches Some(arch) && arch@ == c.arch@
    &&& stored.preprocess matches Some(preprocess) && preprocess@ == c.preprocess@
    &&& stored.input_width == Some(c.input_width)
    &&& stored.input_height == Some(c.input_height)
    &&& stored.dropout matches Some(d) && d.bits == c.dropout.bits && d.text@ == c.dropout.text@
    &&& stored.version matches Some(version) && version@ == c.version@
}

/// A configuration that this build has written is accepted, and loads as it was.
pub proof fn law_written_config_loads(
    stored: StoredModelConfig,
    c: CaptchaModelConfig,
    loaded: CaptchaModelConfig,
)
    requires
        stores(stored, c),
        c.version@ == VERSION@,
        fills_defaults(stored, loaded),
    ensures
        !stored_is_newer(stored),
        stores(stored, loaded),
        config_complaint(loaded) == config_complaint(c),
{
}

/// What is stored is loaded as it is, and what is not is filled in with the
/// default; the version becomes that of this build.
pub proof fn law_loading_fills_gaps(stored: StoredModelConfig, c: CaptchaModelConfig)
    requires
        fills_defaults(stored, c),
    ensures
        c.charset@ == stored.charset@,
        c.num_chars == stored.num_chars,
        stored.arch matches Some(arch) ==> c.arch@ == arch@,
        stored.arch is None ==> c.arch@ == "fixed"@,
        stored.preprocess matches Some(preprocess) ==> c.preprocess@ == preprocess@,
        stored.preprocess is None ==> c.preprocess@ == "stretch"@,
        stored.input_width matches Some(width) ==> c.input_width == width,
        stored.input_width is None ==> c.input_width == 128,
        stored.input_height matches Some(height) ==> c.input_height == height,
        stored.input_height is None ==> c.input_height == 32,
        stored.dropout matches Some(dropout) ==> c.dropout.bits == dropout.bits && c.dropout.text@
            == dropout.text@,
        stored.dropout is None ==> c.dropout.bits == 0x3fc9_9999_9999_999a && c.dropout.text@
            == "0.2"@,
        c.version@ == "0.1.1"@,
{
}

/// What is stored settles whether loading succeeds: there is one configuration that
/// it fills up to, and one complaint about it.
pub proof fn law_loading_is_settled_by_what_is_stored(
    stored: StoredModelConfig,
    a: CaptchaModelConfig,
    b: CaptchaModelConfig,
)
    requires
        fills_defaults(stored, a),
        fills_defaults(stored, b),
    ensures
        config_complaint(a) == config_complaint(b),
{
}

/// A model is too new when it was made by a version above 0.1, the major component
/// first; a model without a version is never too new. The complaint names the
/// model, its version and this build's.
pub proof fn law_too_new_is_above_this_build(
    stored: StoredModelConfig,
    path: Seq<char>,
    version: Seq<char>,
)
    ensures
        stored.version is None ==> !stored_is_newer(stored),
        stored.version matches Some(v) ==> (stored_is_newer(stored) <==> version_of(v@).0 > 0 || (
        version_of(v@).0 == 0 && version_of(v@).1 > 1)),
        newer_message(path, version) == "model "@ + path + " was trained by capburn "@ + version
            + " but this build is "@ + "0.1.1"@
            + " — update the capburn extension (see install.sh)"@,
{
    reveal_strlit("0.1.1");
    reveal_strlit(".");
    let major = seq!['0'];
    let minor = seq!['1'];
    assert(VERSION@ =~= major + "."@ + minor + "."@ + seq!['1']);
    assert(VERSION@.len() == 5 && VERSION@[0] == '0' && VERSION@[4] == '1');
    lemma_trim_keeps(VERSION@);
    law_version_is_read(VERSION@, major, minor, seq!['1']);
    let none = Seq::<char>::empty();
    law_digits_are_positional(none, '0');
    law_digits_are_positional(none, '1');
    assert(none.push('0') =~= major && none.push('1') =~= minor);
    law_number_is_digits(major, u32::MAX as int);
    law_number_is_digits(minor, u32::MAX as int);
}

/// Versions that differ in the patch component alone are equally new: what
/// follows the second dot does not matter.
pub proof fn law_patch_is_ignored(
    major: Seq<char>,
    minor: Seq<char>,
    patch: Seq<char>,
    other: Seq<char>,
)
    requires
        !major.contains('.'),
        !minor.contains('.'),
    ensures
        version_of(major + "."@ + minor + "."@ + patch) == version_of(
            major + "."@ + minor + "."@ + other,
        ),
{
    lemma_two_parts(major, minor, patch);
    lemma_two_parts(major, minor, other);
}

/// The first two parts of a version do not depend on what follows them.
proof fn lemma_two_parts(major: Seq<char>, minor: Seq<char>, patch: Seq<char>)
    requires
        !major.contains('.'),
        !minor.contains('.'),
    ensures
        version_of(major + "."@ + minor + "."@ + patch) == (
            version_part(seq![trim_start(major), minor], 0),
            version_part(seq![trim_start(major), minor], 1),
        ),
{
    reveal_strlit(".");
    let middle = "."@ + minor + "."@;
    assert(major + "."@ + minor + "."@ + patch =~= major + middle + patch);
    lemma_trim_middle(major, middle, patch);
    if trim_start(major).contains('.') {
        lemma_trim_start_part(major, '.');
    }
    assert(trim_start(major) + middle + trim_end(patch) =~= trim_start(major) + "."@ + minor + "."@
        + trim_end(patch));
    lemma_split_two(trim_start(major), minor, trim_end(patch));
}

proof fn lemma_split_two(a: Seq<char>, b: Seq<char>, c: Seq<char>)
    requires
        !a.contains('.'),
        !b.contains('.'),
    ensures
        split_on(a + "."@ + b + "."@ + c, '.').len() >= 2,
        split_on(a + "."@ + b + "."@ + c, '.')[0] == a,
        split_on(a + "."@ + b + "."@ + c, '.')[1] == b,
{
    reveal_strlit(".");
    let s = a + "."@ + b + "."@ + c;
    let t = b + "."@ + c;
    assert forall|j: int| 0 <= j < a.len() implies s[j] != '.' by {
        assert(s[j] == a[j]);
    }
    assert(s[a.len() as int] == '.');
    lemma_first_index_unique(s, '.', a.len() as int);
    assert(s.take(a.len() as int) == a);
    assert(s.skip(a.len() as int + 1) == t);
    assert forall|j: int| 0 <= j < b.len() implies t[j] != '.' by {
        assert(t[j] == b[j]);
    }
    assert(t[b.len() as int] == '.');
    lemma_first_index_unique(t, '.', b.len() as int);
    assert(t.take(b.len() as int) == b);
    assert(split_on(t, '.')[0] == b);
    assert(split_on(s, '.') == seq![a] + split_on(t, '.'));
}

// ---------------------------------------------------------------------------
// Layer sizes
// ---------------------------------------------------------------------------
/// Number of classes a head distinguishes: CTC needs an extra blank class (last
/// index); the fixed heads do not.
pub open spec fn class_count(arch: Arch, charset_len: nat) -> nat {
    match arch {
        Arch::Ctc => charset_len + 1,
        _ => charset_len,
    }
}

/// What the layers of a model are sized by.
#[derive(Clone, Copy, Debug)]
pub struct CaptchaModel {
    arch: Arch,
    num_chars: usize,
    num_classes: usize,
    steps: usize,
    global: Option<(usize, usize)>,
}

/// Whether a head classifies all positions from the whole sequence.
pub open spec fn is_global(arch: Arch) -> bool {
    arch == Arch::FixedGlobal || arch == Arch::FixedSeq
}

/// Whether the layer sizes of a configuration fit the machine.
pub open spec fn layers_fit(c: CaptchaModelConfig) -> bool {
    &&& c.charset@.len() < usize::MAX
    &&& CNN_OUT * (c.input_width / 4) <= usize::MAX
    &&& c.num_chars * c.charset@.len() <= usize::MAX
}

/// How layers are sized: CTC has one class more than the charset has characters,
/// the fixed heads have as many; two of the fixed heads look at the whole
/// sequence. The backbone has 128 channels, and 32 steps at the default width.
pub proof fn law_layer_sizes(arch: Arch, charset_len: nat, c: CaptchaModelConfig)
    ensures
        CNN_OUT == 128 && CTC_TIME_STEPS == 32,
        arch == Arch::Ctc ==> class_count(arch, charset_len) == charset_len + 1,
        arch != Arch::Ctc ==> class_count(arch, charset_len) == charset_len,
        is_global(arch) <==> arch == Arch::FixedGlobal || arch == Arch::FixedSeq,
        layers_fit(c) <==> c.charset@.len() < usize::MAX && 128 * (c.input_width / 4) <= usize::MAX
            && c.num_chars * c.charset@.len() <= usize::MAX,
{
}

impl CaptchaModel {
    pub closed spec fn spec_arch(&self) -> Arch {
        self.arch
    }

    pub closed spec fn spec_num_chars(&self) -> nat {
        self.num_chars as nat
    }

    pub closed spec fn spec_num_classes(&self) -> nat {
        self.num_classes as nat
    }

    pub closed spec fn spec_steps(&self) -> nat {
        self.steps as nat
    }

    pub closed spec fn spec_global(&self) -> Option<(usize, usize)> {
        self.global
    }

    /// Every model tells at least one class apart.
    #[verifier::type_invariant]
    spec fn has_classes(&self) -> bool {
        self.num_classes > 0
    }
}

impl CaptchaModelConfig {
    /// The model that the configuration describes.
    pub fn init(&self) -> (r: CaptchaModel)
        requires
            arch_named(self.arch@) is Some,
            self.charset@.len() > 0,
            layers_fit(*self),
        ensures
            Some(r.spec_arch()) == arch_named(self.arch@),
            r.spec_num_chars() == self.num_chars,
            r.spec_num_classes() == class_count(r.spec_arch(), self.charset@.len()),
            r.spec_steps() == self.input_width / 4,
            r.spec_global() == if is_global(r.spec_arch()) {
                Some(
                    (
                        (CNN_OUT * (self.input_width / 4)) as usize,
                        (self.num_chars * self.charset@.len()) as usize,
                    ),
                )
            } else {
                None
            },
    {
        let arch = match Arch::parse(self.arch.as_str()) {
            Ok(a) => a,
            Err(_) => Arch::Fixed,
        };
        let charset_len: usize = chars_of(self.charset.as_str()).len();
        let num_classes: usize = match arch {
            Arch::Ctc => charset_len + 1,
            _ => charset_len,
        };
        let steps: usize = self.input_width / 4;
        let global = match arch {
            Arch::FixedGlobal | Arch::FixedSeq => Some(
                (CNN_OUT * steps, self.num_chars * num_classes),
            ),
            _ => None,
        };
        CaptchaModel { arch, num_chars: self.num_chars, num_classes, steps, global }
    }
}

impl CaptchaModel {
    /// Recognition head.
    pub fn arch(&self) -> (r: Arch)
        ensures
            r == self.spec_arch(),
    {
        self.arch
    }

    /// Number of characters: the fixed or the maximum length.
    pub fn num_chars(&self) -> (r: usize)
        ensures
            r == self.spec_num_chars(),
    {
        self.num_chars
    }

    /// Number of classes that each step or slot is told apart by.
    pub fn num_classes(&self) -> (r: usize)
        ensures
            r == self.spec_num_classes(),
            r > 0,
    {
        proof {
            use_type_invariant(self);
        }
        self.num_classes
    }

    /// CTC blank class index (last class). Only meaningful for `Arch::Ctc`.
    pub fn blank(&self) -> (r: usize)
        ensures
            r == self.spec_num_classes() - 1,
    {
        proof {
            use_type_invariant(self);
        }
        self.num_classes - 1
    }

    /// Number of steps that the backbone emits.
    pub fn steps(&self) -> (r: usize)
        ensures
            r == self.spec_steps(),
    {
        self.steps
    }

    /// Inputs and outputs of the whole-sequence classifier, for the heads that
    /// have one.
    pub fn global(&self) -> (r: Option<(usize, usize)>)
        ensures
            r == self.spec_global(),
    {
        self.global
    }
}

/// Every character of the charset has a class of its head, and none of them has
/// the blank of a CTC model.
pub proof fn law_blank_is_no_character(arch: Arch, charset: Seq<char>, c: char)
    requires
        charset.contains(c),
    ensures
        class_of(charset, c) matches Some(class) && 0 <= class < class_count(arch, charset.len())
            && (arch == Arch::Ctc ==> class != class_count(arch, charset.len()) - 1),
{
    lemma_first_index(charset, c);
}

} // verus!
