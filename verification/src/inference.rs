//! From a stored model configuration and network output to text.

use crate::charset::Charset;
use crate::decode::{fixed_decode_indices, greedy_decode_indices};
use crate::image_ops::{
    decode_bytes, decode_file, image_to_pixels_with_mode_and_size, InputSize, PreprocessMode,
};
use crate::model::{load_model_config, Arch, CaptchaModelConfig, StoredModelConfig};
use vstd::prelude::*;
use vstd::string::StringExecFns;

#[allow(unused_imports)]
use crate::charset::law_dedup_keeps_distinct;
#[allow(unused_imports)]
use crate::codec::image_error_text;
#[allow(unused_imports)]
use crate::data::{in_alphabet, label_classes};
#[allow(unused_imports)]
use crate::decode::{
    alignment, ctc_collapse, law_ctc_blank_separates, law_ctc_reads_a_run_once,
    law_ctc_reads_alignment, law_ctc_reads_stretches_apart, slot_row, time_column,
};
#[allow(unused_imports)]
use crate::image_ops::{file_image, is_model_input, mode_named, size_is_possible, text_of};
#[allow(unused_imports)]
use crate::model::{
    arch_named, config_complaint, fills_defaults, law_valid_charset_is_distinct, newer_message,
    stored_is_newer,
};
#[allow(unused_imports)]
use crate::text::lemma_first_index;

verus! {

/// A ready-to-use recognizer: charset, head and input of a model.
pub struct Recognizer {
    charset: Charset,
    arch: Arch,
    num_chars: usize,
    preprocess: PreprocessMode,
    input_size: InputSize,
}

/// The characters of classes; a class outside the alphabet is dropped.
pub open spec fn rendered(chars: Seq<char>, classes: Seq<usize>) -> Seq<char>
    decreases classes.len(),
{
    if classes.len() == 0 {
        Seq::empty()
    } else {
        let before = rendered(chars, classes.drop_last());
        if classes.last() < chars.len() {
            before.push(chars[classes.last() as int])
        } else {
            before
        }
    }
}

/// What the classes of one image's output steps read as. The blank of CTC is the
/// class behind those of the characters.
pub open spec fn reading(arch: Arch, chars: Seq<char>, classes: Seq<usize>) -> Seq<char> {
    match arch {
        Arch::Ctc => rendered(chars, ctc_collapse(classes, chars.len() as usize)),
        _ => rendered(chars, classes),
    }
}

impl Recognizer {
    pub closed spec fn spec_charset(&self) -> Seq<char> {
        self.charset@
    }

    pub closed spec fn spec_arch(&self) -> Arch {
        self.arch
    }

    pub closed spec fn spec_num_chars(&self) -> nat {
        self.num_chars as nat
    }

    pub closed spec fn spec_preprocess(&self) -> PreprocessMode {
        self.preprocess
    }

    pub closed spec fn spec_input_size(&self) -> InputSize {
        self.input_size
    }

    /// Whether this is the recognizer of a configuration.
    pub open spec fn is_of(&self, c: CaptchaModelConfig) -> bool {
        &&& self.spec_charset() == c.charset@
        &&& Some(self.spec_arch()) == arch_named(c.arch@)
        &&& self.spec_num_chars() == c.num_chars
        &&& Some(self.spec_preprocess()) == mode_named(c.preprocess@)
        &&& self.spec_input_size() == (InputSize { width: c.input_width, height: c.input_height })
    }

    /// The recognizer of a stored model and its configuration. `path` names the
    /// file in messages.
    pub fn load(path: &str, stored: StoredModelConfig) -> (r: Result<
        (Recognizer, CaptchaModelConfig),
        String,
    >)
        ensures
            match r {
                Ok((recognizer, c)) => !stored_is_newer(stored) && fills_defaults(stored, c)
                    && config_complaint(c) is None && recognizer.is_of(c),
                Err(e) => if stored_is_newer(stored) {
                    e@ == newer_message(path@, (stored.version->0)@)
                } else {
                    exists|c: CaptchaModelConfig|
                        #![trigger config_complaint(c)]
                        fills_defaults(stored, c) && config_complaint(c) is Some && e@
                            == "invalid model config in "@ + path@ + ": "@ + config_complaint(c)->0
                },
            },
    {
        let config = match load_model_config(path, stored) {
            Ok(c) => c,
            Err(e) => {
                return Err(e);
            },
        };
        match config.validate() {
            Ok(_) => {},
            Err(why) => {
                assert(config_complaint(config) is Some);
                let mut e = String::from_str("invalid model config in ");
                e.append(path);
                e.append(": ");
                e.append(why.as_str());
                return Err(e);
            },
        }
        let charset = Charset::from_chars(config.charset.as_str());
        proof {
            law_valid_charset_is_distinct(config);
            law_dedup_keeps_distinct(config.charset@);
        }
        let arch = match Arch::parse(config.arch.as_str()) {
            Ok(a) => a,
            Err(e) => {
                return Err(e);
            },
        };
        let preprocess = match PreprocessMode::parse(config.preprocess.as_str()) {
            Ok(m) => m,
            Err(e) => {
                return Err(e);
            },
        };
        let input_size = config.input_size();
        let recognizer = Recognizer {
            charset,
            arch,
            num_chars: config.num_chars,
            preprocess,
            input_size,
        };
        Ok((recognizer, config))
    }

    /// Number of characters the model outputs.
    pub fn num_chars(&self) -> (r: usize)
        ensures
            r == self.spec_num_chars(),
    {
        self.num_chars
    }

    /// Recognition head of the model.
    pub fn arch(&self) -> (r: Arch)
        ensures
            r == self.spec_arch(),
    {
        self.arch
    }

    /// Size of the model input.
    pub fn input_size(&self) -> (r: InputSize)
        ensures
            r == self.spec_input_size(),
    {
        self.input_size
    }

    /// The model input for the contents of an image file. `extension` is that of
    /// the file name; `fit` tells to which size a picture is scaled in the `fit`
    /// mode.
    pub fn input_of_file<F: Fn(u32, u32, InputSize) -> (u32, u32)>(
        &self,
        bytes: &[u8],
        extension: Option<&str>,
        fit: F,
    ) -> (r: Result<Vec<u8>, String>)
        requires
            size_is_possible(self.spec_input_size()),
            forall|w: u32, h: u32, s: InputSize| call_requires(fit, (w, h, s)),
        ensures
            match r {
                Ok(pixels) => file_image(bytes@, text_of(extension)) matches Ok(img)
                    && is_model_input(
                    img,
                    self.spec_preprocess(),
                    self.spec_input_size(),
                    fit,
                    pixels@,
                ),
                Err(message) => file_image(bytes@, text_of(extension)) matches Err(e) && message@
                    == "cannot decode image: "@ + image_error_text(e),
            },
    {
        match decode_file(bytes, extension) {
            Ok(img) => Ok(
                image_to_pixels_with_mode_and_size(&img, self.preprocess, self.input_size, fit),
            ),
            Err(e) => Err(e),
        }
    }

    /// The model input for in-memory image bytes (PNG/JPEG/…). `fit` tells to
    /// which size a picture is scaled in the `fit` mode.
    pub fn input_of_bytes<F: Fn(u32, u32, InputSize) -> (u32, u32)>(
        &self,
        bytes: &[u8],
        fit: F,
    ) -> (r: Result<Vec<u8>, String>)
        requires
            size_is_possible(self.spec_input_size()),
            forall|w: u32, h: u32, s: InputSize| call_requires(fit, (w, h, s)),
        ensures
            match r {
                Ok(pixels) => file_image(bytes@, None) matches Ok(img) && is_model_input(
                    img,
                    self.spec_preprocess(),
                    self.spec_input_size(),
                    fit,
                    pixels@,
                ),
                Err(message) => file_image(bytes@, None) matches Err(e) && message@
                    == "cannot decode image from bytes: "@ + image_error_text(e),
            },
    {
        match decode_bytes(bytes) {
            Ok(img) => Ok(
                image_to_pixels_with_mode_and_size(&img, self.preprocess, self.input_size, fit),
            ),
            Err(e) => Err(e),
        }
    }

    /// The text that the most likely classes of one image's output steps read
    /// as. A class outside the charset is dropped rather than crashing the
    /// process (matters for the PHP extension).
    pub fn read_classes(&self, classes: &[usize]) -> (r: String)
        ensures
            r@ == reading(self.spec_arch(), self.spec_charset(), classes@),
    {
        let n: usize = classes.len();
        assert(n == n * 1 && n == 1 * n);
        let decoded = match self.arch {
            Arch::Ctc => {
                let d = greedy_decode_indices(classes, n, 1, self.charset.len());
                assert(time_column(classes@, n as nat, 1, 0) =~= classes@);
                d
            },
            _ => {
                let d = fixed_decode_indices(classes, 1, n);
                assert(slot_row(classes@, n as nat, 0) =~= classes@);
                d
            },
        };
        render(&self.charset, &decoded[0])
    }
}

/// The characters of class indices.
pub fn render(charset: &Charset, classes: &[usize]) -> (r: String)
    ensures
        r@ == rendered(charset@, classes@),
{
    let n: usize = classes.len();
    let mut text = String::new();
    assert(classes@.take(0) =~= Seq::empty());
    for i in 0..n
        invariant
            n == classes@.len(),
            text@ == rendered(charset@, classes@.take(i as int)),
    {
        proof {
            let next = classes@.take(i + 1);
            assert(next.drop_last() =~= classes@.take(i as int));
            assert(next.last() == classes@[i as int]);
        }
        match charset.try_char_at(classes[i]) {
            Some(c) => {
                text.push(c);
            },
            None => {},
        }
    }
    assert(classes@.take(n as int) =~= classes@);
    text
}

/// A label that was encoded with a charset reads back as the same label.
pub proof fn law_label_roundtrip(chars: Seq<char>, label: Seq<char>)
    requires
        in_alphabet(chars, label),
        chars.len() <= usize::MAX,
    ensures
        rendered(chars, label_classes(chars, label)) == label,
    decreases label.len(),
{
    let classes = label_classes(chars, label);
    if label.len() > 0 {
        let shorter = label.drop_last();
        assert forall|i: int| 0 <= i < shorter.len() implies chars.contains(
            #[trigger] shorter[i],
        ) by {
            assert(shorter[i] == label[i]);
        }
        law_label_roundtrip(chars, shorter);
        assert(classes.drop_last() =~= label_classes(chars, shorter));
        assert(chars.contains(label[label.len() - 1]));
        lemma_first_index(chars, label.last());
        assert(label =~= shorter.push(label.last()));
    }
}

/// A network that emits the classes of a label, one per slot for the fixed heads
/// and along an alignment for CTC, is read as that label — repeated characters
/// included.
pub proof fn law_reads_emitted_label(arch: Arch, chars: Seq<char>, label: Seq<char>)
    requires
        in_alphabet(chars, label),
        chars.len() <= usize::MAX,
    ensures
        ({
            let classes = label_classes(chars, label);
            let emitted = match arch {
                Arch::Ctc => alignment(classes, chars.len() as usize),
                _ => classes,
            };
            reading(arch, chars, emitted) == label
        }),
{
    let classes = label_classes(chars, label);
    law_label_roundtrip(chars, label);
    if arch == Arch::Ctc {
        assert forall|i: int| 0 <= i < classes.len() implies classes[i]
            != chars.len() as usize by {
            assert(chars.contains(label[i]));
            lemma_first_index(chars, label[i]);
        }
        law_ctc_reads_alignment(classes, chars.len() as usize);
    }
}

/// Classes are rendered one by one and in order: a class of the alphabet as the
/// character with that index, any other class as nothing.
pub proof fn law_render_is_by_class(chars: Seq<char>, a: Seq<usize>, b: Seq<usize>, class: usize)
    ensures
        rendered(chars, a + b) == rendered(chars, a) + rendered(chars, b),
        rendered(chars, seq![class]) == if class < chars.len() {
            seq![chars[class as int]]
        } else {
            Seq::<char>::empty()
        },
        rendered(chars, Seq::<usize>::empty()) == Seq::<char>::empty(),
    decreases b.len(),
{
    let one = seq![class];
    assert(one.drop_last() =~= Seq::empty());
    assert(rendered(chars, one.drop_last()) =~= Seq::empty());
    assert(one.last() == class);
    if class < chars.len() {
        assert(Seq::<char>::empty().push(chars[class as int]) =~= seq![chars[class as int]]);
    }
    if b.len() == 0 {
        assert(a + b =~= a);
        assert(rendered(chars, a) + rendered(chars, b) =~= rendered(chars, a));
    } else {
        law_render_is_by_class(chars, a, b.drop_last(), class);
        assert((a + b).drop_last() =~= a + b.drop_last());
        assert((a + b).last() == b.last());
        assert(rendered(chars, a + b) =~= rendered(chars, a) + rendered(chars, b));
    }
}

/// The output of a fixed head is read slot by slot: with every class in the
/// alphabet the text has one character per slot.
pub proof fn law_fixed_reading_is_by_slot(arch: Arch, chars: Seq<char>, classes: Seq<usize>)
    requires
        arch != Arch::Ctc,
        forall|i: int| 0 <= i < classes.len() ==> #[trigger] classes[i] < chars.len(),
    ensures
        reading(arch, chars, classes) == Seq::new(
            classes.len(),
            |i: int| chars[classes[i] as int],
        ),
    decreases classes.len(),
{
    let text = Seq::new(classes.len(), |i: int| chars[classes[i] as int]);
    if classes.len() == 0 {
        assert(text =~= Seq::empty());
    } else {
        let shorter = classes.drop_last();
        assert forall|i: int| 0 <= i < shorter.len() implies #[trigger] shorter[i]
            < chars.len() by {
            assert(shorter[i] == classes[i]);
        }
        law_fixed_reading_is_by_slot(arch, chars, shorter);
        assert(classes[classes.len() - 1] < chars.len());
        assert(text =~= rendered(chars, shorter).push(chars[classes.last() as int]));
    }
}

/// A slot of a fixed head whose class lies outside the alphabet is left out, and
/// the other slots are read as they would be without it.
pub proof fn law_fixed_reading_skips_unknown(
    arch: Arch,
    chars: Seq<char>,
    before: Seq<usize>,
    class: usize,
    after: Seq<usize>,
)
    requires
        arch != Arch::Ctc,
    ensures
        reading(arch, chars, before + after) == reading(arch, chars, before) + reading(
            arch,
            chars,
            after,
        ),
        class >= chars.len() ==> reading(arch, chars, before + seq![class] + after) == reading(
            arch,
            chars,
            before + after,
        ),
        class < chars.len() ==> reading(arch, chars, before + seq![class] + after) == reading(
            arch,
            chars,
            before,
        ).push(chars[class as int]) + reading(arch, chars, after),
{
    let one = seq![class];
    law_render_is_by_class(chars, before, after, class);
    law_render_is_by_class(chars, before, one, class);
    law_render_is_by_class(chars, before + one, after, class);
    if class < chars.len() {
        let c = chars[class as int];
        assert(rendered(chars, before) + seq![c] =~= rendered(chars, before).push(c));
    } else {
        assert(rendered(chars, before) + Seq::<char>::empty() =~= rendered(chars, before));
    }
}

/// The output of CTC reads the same in stretches: steps before and behind a step
/// of the class behind the alphabet are read apart, stretches that meet in
/// different classes too, and a run of one class is one character.
pub proof fn law_ctc_reading_is_by_run(
    chars: Seq<char>,
    a: Seq<usize>,
    b: Seq<usize>,
    class: usize,
    n: nat,
)
    requires
        chars.len() <= usize::MAX,
    ensures
        reading(Arch::Ctc, chars, a + seq![chars.len() as usize] + b) == reading(
            Arch::Ctc,
            chars,
            a,
        ) + reading(Arch::Ctc, chars, b),
        a.len() > 0 && b.len() > 0 && a.last() != b[0] ==> reading(Arch::Ctc, chars, a + b)
            == reading(Arch::Ctc, chars, a) + reading(Arch::Ctc, chars, b),
        n > 0 ==> reading(Arch::Ctc, chars, Seq::new(n, |i: int| class)) == if class
            < chars.len() {
            seq![chars[class as int]]
        } else {
            Seq::<char>::empty()
        },
        reading(Arch::Ctc, chars, Seq::<usize>::empty()) == Seq::<char>::empty(),
{
    let blank = chars.len() as usize;
    let x = ctc_collapse(a, blank);
    let y = ctc_collapse(b, blank);
    law_ctc_blank_separates(a, b, blank);
    law_render_is_by_class(chars, x, y, class);
    if a.len() > 0 && b.len() > 0 && a.last() != b[0] {
        law_ctc_reads_stretches_apart(a, b, blank);
    }
    if n > 0 {
        law_ctc_reads_a_run_once(class, blank, n);
    }
}

/// A recognizer of a configuration has that configuration's characters, head,
/// captcha length, preprocessing and input size.
pub proof fn law_recognizer_keeps_config(r: Recognizer, c: CaptchaModelConfig)
    ensures
        r.is_of(c) <==> r.spec_charset() == c.charset@ && Some(r.spec_arch()) == arch_named(c.arch@)
            && r.spec_num_chars() == c.num_chars && Some(r.spec_preprocess()) == mode_named(
            c.preprocess@,
        ) && r.spec_input_size().width == c.input_width && r.spec_input_size().height
            == c.input_height,
{
}

} // verus!
