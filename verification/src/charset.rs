//! Configurable captcha charset: character <-> class-index mapping.
//!
//! A charset is given as a spec string. Tokens are separated by `+` and each
//! token is either the name of a built-in set or a literal sequence of
//! characters. A charset can also be detected automatically from a dataset
//! ([`Charset::from_observed`]).
//!
//! Spec examples:
//! - `digits`            — digits `0-9` only
//! - `cyrillic+digits`   — lowercase Cyrillic and digits
//! - `upper+digits`      — uppercase Latin letters and digits
//! - `ABCDEF0123456789`  — exactly those characters (a hex set)

use crate::text::{
    chars_of, debug_str, find_char, has_char, is_text, join_strings, lowered, slice_of, string_of,
    trimmed,
};
use std::collections::HashMap;
use vstd::prelude::*;
use vstd::std_specs::iter::IteratorSpec;
use vstd::string::StringExecFns;

#[allow(unused_imports)]
use crate::text::{
    first_index, join, lemma_first_index, lemma_first_index_unique, lower, split_on, str_debug,
    texts, trim,
};

verus! {

broadcast use vstd::std_specs::hash::group_hash_axioms;

/// Lowercase Cyrillic (33 letters, including "ё").
pub const CYRILLIC_LOWER: &'static str = "абвгдеёжзийклмнопрстуфхцчшщъыьэюя";

/// Uppercase Cyrillic (33 letters, including "Ё").
pub const CYRILLIC_UPPER: &'static str = "АБВГДЕЁЖЗИЙКЛМНОПРСТУФХЦЧШЩЪЫЬЭЮЯ";

pub const LATIN_LOWER: &'static str = "abcdefghijklmnopqrstuvwxyz";

pub const LATIN_UPPER: &'static str = "ABCDEFGHIJKLMNOPQRSTUVWXYZ";

pub const DIGITS: &'static str = "0123456789";

/// Both Latin cases, lowercase first.
pub const LATIN: &'static str = "abcdefghijklmnopqrstuvwxyzABCDEFGHIJKLMNOPQRSTUVWXYZ";

/// Appends to `acc` each character of `s` that is not there yet, in order.
pub open spec fn dedup_onto(acc: Seq<char>, s: Seq<char>) -> Seq<char>
    decreases s.len(),
{
    if s.len() == 0 {
        acc
    } else if acc.contains(s[0]) {
        dedup_onto(acc, s.skip(1))
    } else {
        dedup_onto(acc.push(s[0]), s.skip(1))
    }
}

/// The characters of `s` in order of first occurrence, each once.
pub open spec fn dedup(s: Seq<char>) -> Seq<char> {
    dedup_onto(Seq::empty(), s)
}

/// The characters of a built-in set, by name and ignoring ASCII case.
pub open spec fn named_set(name: Seq<char>) -> Option<Seq<char>> {
    let n = lower(name);
    if n == "digits"@ || n == "digit"@ || n == "num"@ || n == "numeric"@ {
        Some(DIGITS@)
    } else if n == "lower"@ || n == "latin_lower"@ || n == "lowercase"@ {
        Some(LATIN_LOWER@)
    } else if n == "upper"@ || n == "latin_upper"@ || n == "uppercase"@ {
        Some(LATIN_UPPER@)
    } else if n == "letters"@ || n == "latin"@ {
        Some(LATIN@)
    } else if n == "cyrillic"@ || n == "cyrillic_lower"@ {
        Some(CYRILLIC_LOWER@)
    } else if n == "cyrillic_upper"@ {
        Some(CYRILLIC_UPPER@)
    } else {
        None
    }
}

/// What one token of a spec stands for: a built-in set, or its own characters.
pub open spec fn token_chars(token: Seq<char>) -> Seq<char> {
    let t = trim(token);
    match named_set(t) {
        Some(set) => set,
        None => t,
    }
}

/// The characters of all tokens, one after the other.
pub open spec fn tokens_chars(tokens: Seq<Seq<char>>) -> Seq<char>
    decreases tokens.len(),
{
    if tokens.len() == 0 {
        Seq::empty()
    } else {
        token_chars(tokens[0]) + tokens_chars(tokens.skip(1))
    }
}

/// The characters that a spec such as `cyrillic+digits` denotes, each once, in
/// order of first occurrence.
pub open spec fn spec_chars(spec: Seq<char>) -> Seq<char> {
    dedup(tokens_chars(split_on(spec, '+')))
}

/// Whether a character of `family` occurs in `s`.
pub open spec fn meets(s: Seq<char>, family: Seq<char>) -> bool {
    exists|i: int| 0 <= i < s.len() && family.contains(#[trigger] s[i])
}

/// `family` when a character of it occurs in `s`, nothing otherwise.
pub open spec fn family_if_met(s: Seq<char>, family: Seq<char>) -> Seq<char> {
    if meets(s, family) {
        family
    } else {
        Seq::empty()
    }
}

/// The families met by `s`, whole, in their fixed order.
pub open spec fn observed_chars(s: Seq<char>) -> Seq<char> {
    family_if_met(s, DIGITS@) + family_if_met(s, LATIN_LOWER@) + family_if_met(s, LATIN_UPPER@)
        + family_if_met(s, CYRILLIC_LOWER@) + family_if_met(s, CYRILLIC_UPPER@)
}

/// `names` with `name` appended when a character of `family` occurs in `s`.
pub open spec fn name_if_met(
    names: Seq<Seq<char>>,
    s: Seq<char>,
    family: Seq<char>,
    name: Seq<char>,
) -> Seq<Seq<char>> {
    if meets(s, family) {
        names.push(name)
    } else {
        names
    }
}

/// The names of the families met by `s`, in their fixed order.
pub open spec fn family_names(s: Seq<char>) -> Seq<Seq<char>> {
    let n0 = Seq::<Seq<char>>::empty();
    let n1 = name_if_met(n0, s, DIGITS@, "digits"@);
    let n2 = name_if_met(n1, s, LATIN_LOWER@, "latin lowercase"@);
    let n3 = name_if_met(n2, s, LATIN_UPPER@, "latin uppercase"@);
    let n4 = name_if_met(n3, s, CYRILLIC_LOWER@, "cyrillic lowercase"@);
    name_if_met(n4, s, CYRILLIC_UPPER@, "cyrillic uppercase"@)
}

/// The class of `c` in an alphabet: its position, if it occurs.
pub open spec fn class_of(chars: Seq<char>, c: char) -> Option<int> {
    if chars.contains(c) {
        Some(first_index(chars, c))
    } else {
        None
    }
}

/// Alphabet of recognizable characters.
///
/// The character order defines the class index and must stay stable between
/// training and inference — that is why the expanded character string
/// ([`Charset::as_chars`]) is what gets saved to the config, not the original
/// spec.
#[derive(Debug)]
pub struct Charset {
    chars: Vec<char>,
    index: HashMap<u32, usize>,
}

impl View for Charset {
    type V = Seq<char>;

    closed spec fn view(&self) -> Seq<char> {
        self.chars@
    }
}

impl Clone for Charset {
    fn clone(&self) -> (r: Self)
        ensures
            r@ == self@,
    {
        proof {
            use_type_invariant(self);
        }
        let mut chars: Vec<char> = Vec::new();
        append_new(&mut chars, &self.chars);
        proof {
            law_dedup_keeps_distinct(self.chars@);
        }
        Charset::from_chars_vec(chars)
    }
}

impl Charset {
    /// No character occurs twice, and `index` is the inverse of `chars`.
    #[verifier::type_invariant]
    spec fn inv(self) -> bool {
        &&& self.chars@.no_duplicates()
        &&& forall|i: int|
            0 <= i < self.chars@.len() ==> self.index@.contains_key(
                #[trigger] self.chars@[i] as u32,
            ) && self.index@[self.chars@[i] as u32] == i
        &&& forall|k: u32| #[trigger]
            self.index@.contains_key(k) ==> self.index@[k] < self.chars@.len()
                && self.chars@[self.index@[k] as int] as u32 == k
    }

    /// Parse a spec like `digits`, `cyrillic+digits`, `ABC012`.
    pub fn from_spec(spec: &str) -> (r: Result<Self, String>)
        ensures
            match r {
                Ok(cs) => cs@ == spec_chars(spec@) && cs@.len() > 0 && cs@.no_duplicates(),
                Err(e) => spec_chars(spec@).len() == 0 && e@ == "empty charset from spec: "@
                    + str_debug(spec@),
            },
    {
        let all = chars_of(spec);
        let mut chars: Vec<char> = Vec::new();
        let mut pos: usize = 0;
        let mut more = true;
        assert(all@.skip(0) == all@);
        while more
            invariant
                all@ == spec@,
                pos <= all@.len(),
                chars@.no_duplicates(),
                spec_chars(spec@) == dedup_onto(
                    chars@,
                    if more {
                        tokens_chars(split_on(all@.skip(pos as int), '+'))
                    } else {
                        Seq::empty()
                    },
                ),
            decreases all@.len() - pos + if more { 1int } else { 0 },
        {
            let ghost rest = all@.skip(pos as int);
            let ghost before = chars@;
            let end = find_char(&all, pos, '+');
            let token = slice_of(&all, pos, end);
            let name = trimmed(&token);
            assert(token@ == rest.take(end - pos));
            let ghost expanded: Seq<char> = token_chars(token@);
            match expand_named(&name) {
                Some(set) => append_new(&mut chars, &chars_of(set)),
                None => append_new(&mut chars, &name),
            }
            assert(chars@ == dedup_onto(before, expanded));
            if end == all.len() {
                assert(rest.take(end - pos) == rest);
                assert(split_on(rest, '+') == seq![rest]);
                assert(seq![rest].skip(1) == Seq::<Seq<char>>::empty());
                assert(tokens_chars(Seq::<Seq<char>>::empty()) == Seq::<char>::empty());
                assert(tokens_chars(seq![rest]) == expanded);
                more = false;
            } else {
                proof {
                    let tail = rest.skip(end - pos + 1);
                    assert(tail == all@.skip(end + 1));
                    assert(split_on(rest, '+') == seq![token@] + split_on(tail, '+'));
                    assert((seq![token@] + split_on(tail, '+')).skip(1) == split_on(tail, '+'));
                    assert(tokens_chars(split_on(rest, '+')) == expanded + tokens_chars(
                        split_on(tail, '+'),
                    ));
                    lemma_dedup_onto_append(before, expanded, tokens_chars(split_on(tail, '+')));
                }
                pos = end + 1;
            }
        }
        if chars.len() == 0 {
            let mut e = String::from_str("empty charset from spec: ");
            e.append(debug_str(spec).as_str());
            return Err(e);
        }
        Ok(Self::from_chars_vec(chars))
    }

    /// Build a charset from an already-expanded character string (config load).
    pub fn from_chars(chars: &str) -> (r: Self)
        ensures
            r@ == dedup(chars@),
            r@.no_duplicates(),
    {
        let mut unique: Vec<char> = Vec::new();
        append_new(&mut unique, &chars_of(chars));
        Self::from_chars_vec(unique)
    }

    /// Auto-detect the charset from the characters observed in labels.
    ///
    /// Works "by family": if at least one character of a family (digits,
    /// lower/upper Latin, lower/upper Cyrillic) is seen, the whole family is
    /// included. In other words, one Russian letter in the dataset means "all
    /// Russian letters", one English letter means "all English letters".
    pub fn from_observed<I: Iterator<Item = char>>(observed: I) -> (r: Result<Self, String>)
        requires
            observed.obeys_prophetic_iter_laws(),
            observed.decrease() is Some,
        ensures
            match r {
                Ok(cs) => cs@ == observed_chars(observed.remaining()) && cs@.len() > 0
                    && cs@.no_duplicates(),
                Err(e) => observed_chars(observed.remaining()).len() == 0 && e@
                    == "could not detect charset: no known characters in labels"@,
            },
    {
        let digits = chars_of(DIGITS);
        let lower = chars_of(LATIN_LOWER);
        let upper = chars_of(LATIN_UPPER);
        let cyr_lower = chars_of(CYRILLIC_LOWER);
        let cyr_upper = chars_of(CYRILLIC_UPPER);
        let mut has_digits = false;
        let mut has_lower = false;
        let mut has_upper = false;
        let mut has_cyr_lower = false;
        let mut has_cyr_upper = false;
        let ghost all = observed.remaining();
        let ghost mut seen: int = 0;
        let mut rest = observed;
        loop
            invariant
                all == observed.remaining(),
                digits@ == DIGITS@,
                lower@ == LATIN_LOWER@,
                upper@ == LATIN_UPPER@,
                cyr_lower@ == CYRILLIC_LOWER@,
                cyr_upper@ == CYRILLIC_UPPER@,
                rest.obeys_prophetic_iter_laws(),
                rest.decrease() is Some,
                0 <= seen <= all.len(),
                rest.remaining() == all.skip(seen),
                has_digits == meets(all.take(seen), DIGITS@),
                has_lower == meets(all.take(seen), LATIN_LOWER@),
                has_upper == meets(all.take(seen), LATIN_UPPER@),
                has_cyr_lower == meets(all.take(seen), CYRILLIC_LOWER@),
                has_cyr_upper == meets(all.take(seen), CYRILLIC_UPPER@),
            ensures
                seen == all.len(),
            decreases rest.decrease()->0,
        {
            match rest.next() {
                Some(c) => {
                    assert(c == all[seen]);
                    assert(all.skip(seen).drop_first() == all.skip(seen + 1));
                    assert(all.take(seen + 1) == all.take(seen).push(c));
                    proof {
                        lemma_meets_push(all.take(seen), c, DIGITS@);
                        lemma_meets_push(all.take(seen), c, LATIN_LOWER@);
                        lemma_meets_push(all.take(seen), c, LATIN_UPPER@);
                        lemma_meets_push(all.take(seen), c, CYRILLIC_LOWER@);
                        lemma_meets_push(all.take(seen), c, CYRILLIC_UPPER@);
                        seen = seen + 1;
                    }
                    has_digits = has_digits || has_char(&digits, c);
                    has_lower = has_lower || has_char(&lower, c);
                    has_upper = has_upper || has_char(&upper, c);
                    has_cyr_lower = has_cyr_lower || has_char(&cyr_lower, c);
                    has_cyr_upper = has_cyr_upper || has_char(&cyr_upper, c);
                },
                None => {
                    break;
                },
            }
        }
        assert(all.take(seen) == all);
        let mut chars: Vec<char> = Vec::new();
        append_if(&mut chars, has_digits, &digits);
        append_if(&mut chars, has_lower, &lower);
        append_if(&mut chars, has_upper, &upper);
        append_if(&mut chars, has_cyr_lower, &cyr_lower);
        append_if(&mut chars, has_cyr_upper, &cyr_upper);
        assert(chars@ == observed_chars(all));
        if chars.len() == 0 {
            return Err(
                String::from_str("could not detect charset: no known characters in labels"),
            );
        }
        proof {
            lemma_observed_distinct(all);
        }
        Ok(Self::from_chars_vec(chars))
    }

    /// Human-readable list of character families included in the charset.
    pub fn describe_families(&self) -> (r: String)
        ensures
            r@ == if family_names(self@).len() == 0 {
                "custom set"@
            } else {
                join(family_names(self@), ", "@)
            },
    {
        let mut names: Vec<String> = Vec::new();
        name_family(&mut names, &self.chars, DIGITS, "digits");
        name_family(&mut names, &self.chars, LATIN_LOWER, "latin lowercase");
        name_family(&mut names, &self.chars, LATIN_UPPER, "latin uppercase");
        name_family(&mut names, &self.chars, CYRILLIC_LOWER, "cyrillic lowercase");
        name_family(&mut names, &self.chars, CYRILLIC_UPPER, "cyrillic uppercase");
        assert(texts(names@) == family_names(self@));
        if names.len() == 0 {
            String::from_str("custom set")
        } else {
            join_strings(&names, ", ")
        }
    }

    /// The alphabet with these characters, in this order.
    fn from_chars_vec(chars: Vec<char>) -> (r: Self)
        requires
            chars@.no_duplicates(),
        ensures
            r@ == chars@,
    {
        let mut index: HashMap<u32, usize> = HashMap::new();
        let n: usize = chars.len();
        for i in 0..n
            invariant
                n == chars@.len(),
                chars@.no_duplicates(),
                forall|j: int|
                    0 <= j < i ==> index@.contains_key(#[trigger] chars@[j] as u32)
                        && index@[chars@[j] as u32] == j,
                forall|k: u32| #[trigger]
                    index@.contains_key(k) ==> index@[k] < i && chars@[index@[k] as int] as u32
                        == k,
        {
            index.insert(chars[i] as u32, i);
            assert forall|j: int| 0 <= j < i + 1 implies index@.contains_key(
                #[trigger] chars@[j] as u32,
            ) && index@[chars@[j] as u32] == j by {
                lemma_code(chars@[j]);
                lemma_code(chars@[i as int]);
            }
        }
        Charset { chars, index }
    }

    /// Number of classes (charset size).
    pub fn len(&self) -> (r: usize)
        ensures
            r == self@.len(),
    {
        self.chars.len()
    }

    pub fn is_empty(&self) -> (r: bool)
        ensures
            r == (self@.len() == 0),
    {
        self.chars.len() == 0
    }

    /// Class index for a character, if it belongs to the charset.
    pub fn index_of(&self, c: char) -> (r: Option<usize>)
        ensures
            match r {
                Some(i) => class_of(self@, c) == Some(i as int) && i < self@.len(),
                None => class_of(self@, c) is None,
            },
            self@.no_duplicates(),
    {
        proof {
            use_type_invariant(self);
            lemma_code(c);
            lemma_first_index(self@, c);
        }
        match self.index.get(&(c as u32)) {
            Some(i) => {
                proof {
                    lemma_code(self.chars@[*i as int]);
                    assert(self@[*i as int] == c);
                    assert(first_index(self@, c) == *i);
                }
                Some(*i)
            },
            None => {
                assert(!self@.contains(c));
                None
            },
        }
    }

    /// Character for a class index.
    pub fn char_at(&self, i: usize) -> (r: char)
        requires
            i < self@.len(),
        ensures
            r == self@[i as int],
    {
        self.chars[i]
    }

    /// Character for a class index without panicking (for untrusted input or a
    /// corrupt model).
    pub fn try_char_at(&self, i: usize) -> (r: Option<char>)
        ensures
            r == if i < self@.len() {
                Some(self@[i as int])
            } else {
                None
            },
    {
        if i < self.chars.len() {
            Some(self.chars[i])
        } else {
            None
        }
    }

    /// Expanded character string — saved to the config for inference.
    pub fn as_chars(&self) -> (r: String)
        ensures
            r@ == self@,
            r@.no_duplicates(),
    {
        proof {
            use_type_invariant(self);
        }
        string_of(&self.chars)
    }
}

/// Expand the name of a built-in character set.
fn expand_named(name: &[char]) -> (r: Option<&'static str>)
    ensures
        match r {
            Some(set) => named_set(name@) == Some(set@),
            None => named_set(name@) is None,
        },
{
    let n = lowered(name);
    if is_text(&n, "digits") || is_text(&n, "digit") || is_text(&n, "num") || is_text(
        &n,
        "numeric",
    ) {
        Some(DIGITS)
    } else if is_text(&n, "lower") || is_text(&n, "latin_lower") || is_text(&n, "lowercase") {
        Some(LATIN_LOWER)
    } else if is_text(&n, "upper") || is_text(&n, "latin_upper") || is_text(&n, "uppercase") {
        Some(LATIN_UPPER)
    } else if is_text(&n, "letters") || is_text(&n, "latin") {
        Some(LATIN)
    } else if is_text(&n, "cyrillic") || is_text(&n, "cyrillic_lower") {
        Some(CYRILLIC_LOWER)
    } else if is_text(&n, "cyrillic_upper") {
        Some(CYRILLIC_UPPER)
    } else {
        None
    }
}

/// Appends the characters of `s` that are not in `chars` yet.
pub(crate) fn append_new(chars: &mut Vec<char>, s: &[char])
    requires
        old(chars)@.no_duplicates(),
    ensures
        final(chars)@ == dedup_onto(old(chars)@, s@),
        final(chars)@.no_duplicates(),
{
    let n: usize = s.len();
    assert(s@.skip(0) == s@);
    for i in 0..n
        invariant
            n == s@.len(),
            chars@.no_duplicates(),
            dedup_onto(old(chars)@, s@) == dedup_onto(chars@, s@.skip(i as int)),
    {
        assert(s@.skip(i as int).skip(1) == s@.skip(i + 1));
        if !has_char(chars, s[i]) {
            chars.push(s[i]);
        }
    }
    assert(s@.skip(n as int) == Seq::<char>::empty());
}

/// Appends all of `s` when asked to.
fn append_if(chars: &mut Vec<char>, wanted: bool, s: &[char])
    ensures
        final(chars)@ == old(chars)@ + if wanted {
            s@
        } else {
            Seq::empty()
        },
{
    if wanted {
        let n: usize = s.len();
        assert(old(chars)@ + s@.take(0) == old(chars)@);
        for i in 0..n
            invariant
                n == s@.len(),
                chars@ == old(chars)@ + s@.take(i as int),
        {
            chars.push(s[i]);
            assert(chars@ == old(chars)@ + s@.take(i + 1));
        }
        assert(s@.take(n as int) == s@);
    }
}

/// Adds the name of a family that `chars` meets.
fn name_family(names: &mut Vec<String>, chars: &[char], family: &str, name: &str)
    ensures
        texts(final(names)@) == name_if_met(texts(old(names)@), chars@, family@, name@),
{
    let members = chars_of(family);
    let n: usize = chars.len();
    for i in 0..n
        invariant
            n == chars@.len(),
            members@ == family@,
            names@ == old(names)@,
            forall|j: int| 0 <= j < i ==> !family@.contains(#[trigger] chars@[j]),
    {
        if has_char(&members, chars[i]) {
            assert(meets(chars@, family@));
            names.push(String::from_str(name));
            assert(texts(names@) == texts(old(names)@).push(name@));
            return;
        }
    }
}

// ---------------------------------------------------------------------------
// Laws
// ---------------------------------------------------------------------------
/// Class indices and characters are inverse to each other: the class of the
/// character at `i` is `i`, and the character at the class of `c` is `c`.
pub proof fn law_class_roundtrip(chars: Seq<char>, i: int, c: char)
    requires
        chars.no_duplicates(),
    ensures
        0 <= i < chars.len() ==> class_of(chars, chars[i]) == Some(i),
        class_of(chars, c) matches Some(k) ==> 0 <= k < chars.len() && chars[k] == c,
{
    lemma_first_index(chars, c);
    if 0 <= i < chars.len() {
        lemma_first_index(chars, chars[i]);
    }
}

/// Loading the saved character string of a charset gives the same charset:
/// removing duplicates leaves distinct characters as they are.
pub proof fn law_dedup_keeps_distinct(s: Seq<char>)
    requires
        s.no_duplicates(),
    ensures
        dedup(s) == s,
{
    lemma_dedup_onto_distinct(Seq::empty(), s);
    assert(Seq::<char>::empty() + s == s);
}

/// A charset string holds each character of its source exactly once, and no
/// other character.
pub proof fn law_dedup_members(s: Seq<char>)
    ensures
        dedup(s).no_duplicates(),
        forall|c: char| dedup(s).contains(c) <==> s.contains(c),
{
    lemma_dedup_onto_members(Seq::empty(), s);
}

/// Characters are taken in by first occurrence: one that was seen before changes
/// nothing, and a new one goes to the end.
pub proof fn law_dedup_is_by_first_occurrence(s: Seq<char>, c: char)
    ensures
        s.contains(c) ==> dedup(s.push(c)) == dedup(s),
        !s.contains(c) ==> dedup(s.push(c)) == dedup(s).push(c),
        dedup(Seq::<char>::empty()) == Seq::<char>::empty(),
{
    let one = seq![c];
    assert(s.push(c) =~= s + one);
    lemma_dedup_onto_append(Seq::empty(), s, one);
    law_dedup_members(s);
    assert(one.skip(1) =~= Seq::empty());
    reveal_with_fuel(dedup_onto, 2);
}

/// A class belongs to every character of the alphabet and to no other.
pub proof fn law_class_is_of_members(chars: Seq<char>, c: char)
    ensures
        class_of(chars, c) is Some <==> chars.contains(c),
{
}

/// The built-in sets, by code point: the ten digits, the 26 Latin letters of each
/// case, and the 33 Russian letters of each case with `ё` in its place.
pub proof fn law_builtin_sets(i: int)
    ensures
        DIGITS@.len() == 10,
        0 <= i < 10 ==> DIGITS@[i] as int == 0x30 + i,
        LATIN_LOWER@.len() == 26,
        0 <= i < 26 ==> LATIN_LOWER@[i] as int == 0x61 + i,
        LATIN_UPPER@.len() == 26,
        0 <= i < 26 ==> LATIN_UPPER@[i] as int == 0x41 + i,
        LATIN@ == LATIN_LOWER@ + LATIN_UPPER@,
        CYRILLIC_LOWER@.len() == 33,
        0 <= i < 6 ==> CYRILLIC_LOWER@[i] as int == 0x430 + i,
        CYRILLIC_LOWER@[6] as int == 0x451,
        6 < i < 33 ==> CYRILLIC_LOWER@[i] as int == 0x42f + i,
        CYRILLIC_UPPER@.len() == 33,
        0 <= i < 6 ==> CYRILLIC_UPPER@[i] as int == 0x410 + i,
        CYRILLIC_UPPER@[6] as int == 0x401,
        6 < i < 33 ==> CYRILLIC_UPPER@[i] as int == 0x40f + i,
{
    reveal_strlit("0123456789");
    reveal_strlit("abcdefghijklmnopqrstuvwxyz");
    reveal_strlit("ABCDEFGHIJKLMNOPQRSTUVWXYZ");
    reveal_strlit("abcdefghijklmnopqrstuvwxyzABCDEFGHIJKLMNOPQRSTUVWXYZ");
    reveal_strlit("абвгдеёжзийклмнопрстуфхцчшщъыьэюя");
    reveal_strlit("АБВГДЕЁЖЗИЙКЛМНОПРСТУФХЦЧШЩЪЫЬЭЮЯ");
    lemma_digit_codes(i);
    lemma_latin_codes(i);
    lemma_cyrillic_codes(i);
    lemma_cyrillic_codes(6);
    assert forall|k: int| 0 <= k < 52 implies LATIN@[k] == (LATIN_LOWER@ + LATIN_UPPER@)[k] by {
        assert(k == 0 || k == 1 || k == 2 || k == 3 || k == 4 || k == 5 || k == 6 || k == 7 || k
            == 8 || k == 9 || k == 10 || k == 11 || k == 12 || k == 13 || k == 14 || k == 15 || k
            == 16 || k == 17 || k == 18 || k == 19 || k == 20 || k == 21 || k == 22 || k == 23 || k
            == 24 || k == 25 || k == 26 || k == 27 || k == 28 || k == 29 || k == 30 || k == 31 || k
            == 32 || k == 33 || k == 34 || k == 35 || k == 36 || k == 37 || k == 38 || k == 39 || k
            == 40 || k == 41 || k == 42 || k == 43 || k == 44 || k == 45 || k == 46 || k == 47 || k
            == 48 || k == 49 || k == 50 || k == 51);
    }
    assert(LATIN@ =~= LATIN_LOWER@ + LATIN_UPPER@);
}

/// Which names denote a built-in set, whatever their ASCII case.
pub proof fn law_named_sets(name: Seq<char>, n: Seq<char>)
    requires
        n == lower(name),
    ensures
        n == "digits"@ || n == "digit"@ || n == "num"@ || n == "numeric"@ ==> named_set(name)
            == Some(DIGITS@),
        n == "lower"@ || n == "latin_lower"@ || n == "lowercase"@ ==> named_set(name) == Some(
            LATIN_LOWER@,
        ),
        n == "upper"@ || n == "latin_upper"@ || n == "uppercase"@ ==> named_set(name) == Some(
            LATIN_UPPER@,
        ),
        n == "letters"@ || n == "latin"@ ==> named_set(name) == Some(LATIN@),
        n == "cyrillic"@ || n == "cyrillic_lower"@ ==> named_set(name) == Some(CYRILLIC_LOWER@),
        n == "cyrillic_upper"@ ==> named_set(name) == Some(CYRILLIC_UPPER@),
        named_set(name) is Some ==> n == "digits"@ || n == "digit"@ || n == "num"@ || n
            == "numeric"@ || n == "lower"@ || n == "latin_lower"@ || n == "lowercase"@ || n
            == "upper"@ || n == "latin_upper"@ || n == "uppercase"@ || n == "letters"@ || n
            == "latin"@ || n == "cyrillic"@ || n == "cyrillic_lower"@ || n == "cyrillic_upper"@,
{
    reveal_strlit("digits");
    reveal_strlit("digit");
    reveal_strlit("num");
    reveal_strlit("numeric");
    reveal_strlit("lower");
    reveal_strlit("latin_lower");
    reveal_strlit("lowercase");
    reveal_strlit("upper");
    reveal_strlit("latin_upper");
    reveal_strlit("uppercase");
    reveal_strlit("letters");
    reveal_strlit("latin");
    reveal_strlit("cyrillic");
    reveal_strlit("cyrillic_lower");
    reveal_strlit("cyrillic_upper");
    if n.len() > 0 {
        assert("digits"@[0] == 'd' && "digit"@[0] == 'd');
        assert("num"@[0] == 'n' && "numeric"@[0] == 'n');
        assert("lower"@[0] == 'l' && "lowercase"@[0] == 'l' && "latin_lower"@[0] == 'l');
        assert("lower"@[1] == 'o' && "lowercase"@[1] == 'o' && "latin_lower"@[1] == 'a');
        assert("upper"@[0] == 'u' && "uppercase"@[0] == 'u' && "latin_upper"@[0] == 'l');
        assert("latin_lower"@[6] == 'l' && "latin_upper"@[6] == 'u');
        assert("letters"@[0] == 'l' && "letters"@[1] == 'e' && "latin"@[0] == 'l');
        assert("latin"@[1] == 'a' && "latin_upper"@[1] == 'a');
        assert("cyrillic"@[0] == 'c' && "cyrillic_lower"@[0] == 'c');
        assert("cyrillic_upper"@[0] == 'c');
        assert("cyrillic_lower"@[9] == 'l' && "cyrillic_upper"@[9] == 'u');
    }
}

/// A spec without a `+` is one token: a built-in set by its name, or else its own
/// characters, white space around it aside. A `+` puts two specs together.
pub proof fn law_spec_is_by_token(a: Seq<char>, b: Seq<char>)
    requires
        !a.contains('+'),
    ensures
        spec_chars(a) == dedup(
            match named_set(trim(a)) {
                Some(set) => set,
                None => trim(a),
            },
        ),
        spec_chars(a + seq!['+'] + b) == dedup(spec_chars(a) + spec_chars(b)),
{
    lemma_first_index(a, '+');
    let one = seq![a];
    assert(split_on(a, '+') == one);
    assert(one.skip(1) =~= Seq::empty());
    reveal_with_fuel(tokens_chars, 2);
    let x = token_chars(a);
    assert(x + Seq::<char>::empty() =~= x);
    assert(tokens_chars(one) == x);
    let t = a + seq!['+'] + b;
    assert forall|j: int| 0 <= j < a.len() implies t[j] != '+' by {
        assert(a.contains(a[j]));
    }
    assert(t[a.len() as int] == '+');
    lemma_first_index_unique(t, '+', a.len() as int);
    assert(t.take(a.len() as int) =~= a);
    assert(t.skip(a.len() as int + 1) =~= b);
    let rest = split_on(b, '+');
    let all = split_on(t, '+');
    assert(all == one + rest);
    assert(all.skip(1) =~= rest);
    let y = tokens_chars(rest);
    assert(tokens_chars(all) == x + y);
    lemma_dedup_onto_append(Seq::empty(), x, y);
    lemma_dedup_onto_append(Seq::empty(), dedup(x), dedup(y));
    law_dedup_members(x);
    lemma_dedup_of_dedup(Seq::empty(), x);
    lemma_dedup_of_dedup(dedup(x), y);
}

proof fn lemma_dedup_of_dedup(acc: Seq<char>, s: Seq<char>)
    requires
        acc.no_duplicates(),
    ensures
        dedup_onto(acc, dedup(s)) == dedup_onto(acc, s),
    decreases s.len(),
{
    if s.len() > 0 {
        let shorter = s.drop_last();
        let c = s.last();
        let one = seq![c];
        assert(shorter.push(c) =~= s);
        assert(shorter + one =~= s);
        lemma_dedup_of_dedup(acc, shorter);
        law_dedup_is_by_first_occurrence(shorter, c);
        lemma_dedup_onto_append(acc, shorter, one);
        lemma_dedup_onto_members(acc, shorter);
        assert(one.skip(1) =~= Seq::empty());
        reveal_with_fuel(dedup_onto, 2);
        if !shorter.contains(c) {
            assert(dedup(shorter).push(c) =~= dedup(shorter) + one);
            lemma_dedup_onto_append(acc, dedup(shorter), one);
        }
    }
}

/// The detected alphabet: the families of which a character was observed, each
/// whole, in the order digits, Latin and Cyrillic with lower case first.
pub proof fn law_observed_families_in_order(
    s: Seq<char>,
    digits: Seq<char>,
    latin_lower: Seq<char>,
    latin_upper: Seq<char>,
    cyrillic_lower: Seq<char>,
    cyrillic_upper: Seq<char>,
)
    requires
        digits == if exists|i: int| 0 <= i < s.len() && DIGITS@.contains(#[trigger] s[i]) {
            DIGITS@
        } else {
            Seq::empty()
        },
        latin_lower == if exists|i: int|
            0 <= i < s.len() && LATIN_LOWER@.contains(#[trigger] s[i]) {
            LATIN_LOWER@
        } else {
            Seq::empty()
        },
        latin_upper == if exists|i: int|
            0 <= i < s.len() && LATIN_UPPER@.contains(#[trigger] s[i]) {
            LATIN_UPPER@
        } else {
            Seq::empty()
        },
        cyrillic_lower == if exists|i: int|
            0 <= i < s.len() && CYRILLIC_LOWER@.contains(#[trigger] s[i]) {
            CYRILLIC_LOWER@
        } else {
            Seq::empty()
        },
        cyrillic_upper == if exists|i: int|
            0 <= i < s.len() && CYRILLIC_UPPER@.contains(#[trigger] s[i]) {
            CYRILLIC_UPPER@
        } else {
            Seq::empty()
        },
    ensures
        observed_chars(s) == digits + latin_lower + latin_upper + cyrillic_lower + cyrillic_upper,
{
    assert(digits == family_if_met(s, DIGITS@));
    assert(latin_lower == family_if_met(s, LATIN_LOWER@));
    assert(latin_upper == family_if_met(s, LATIN_UPPER@));
    assert(cyrillic_lower == family_if_met(s, CYRILLIC_LOWER@));
    assert(cyrillic_upper == family_if_met(s, CYRILLIC_UPPER@));
}

/// A family is named when a character of it occurs, and in the order of the
/// detected alphabet.
pub proof fn law_families_are_named_in_order(
    s: Seq<char>,
    digits: Seq<Seq<char>>,
    latin_lower: Seq<Seq<char>>,
    latin_upper: Seq<Seq<char>>,
    cyrillic_lower: Seq<Seq<char>>,
    cyrillic_upper: Seq<Seq<char>>,
)
    requires
        digits == if exists|i: int| 0 <= i < s.len() && DIGITS@.contains(#[trigger] s[i]) {
            seq!["digits"@]
        } else {
            Seq::empty()
        },
        latin_lower == if exists|i: int|
            0 <= i < s.len() && LATIN_LOWER@.contains(#[trigger] s[i]) {
            seq!["latin lowercase"@]
        } else {
            Seq::empty()
        },
        latin_upper == if exists|i: int|
            0 <= i < s.len() && LATIN_UPPER@.contains(#[trigger] s[i]) {
            seq!["latin uppercase"@]
        } else {
            Seq::empty()
        },
        cyrillic_lower == if exists|i: int|
            0 <= i < s.len() && CYRILLIC_LOWER@.contains(#[trigger] s[i]) {
            seq!["cyrillic lowercase"@]
        } else {
            Seq::empty()
        },
        cyrillic_upper == if exists|i: int|
            0 <= i < s.len() && CYRILLIC_UPPER@.contains(#[trigger] s[i]) {
            seq!["cyrillic uppercase"@]
        } else {
            Seq::empty()
        },
    ensures
        family_names(s) == digits + latin_lower + latin_upper + cyrillic_lower + cyrillic_upper,
{
    lemma_name_if_met(Seq::empty(), s, DIGITS@, "digits"@, digits);
    let n1 = digits;
    assert(Seq::<Seq<char>>::empty() + digits =~= n1);
    lemma_name_if_met(n1, s, LATIN_LOWER@, "latin lowercase"@, latin_lower);
    let n2 = n1 + latin_lower;
    lemma_name_if_met(n2, s, LATIN_UPPER@, "latin uppercase"@, latin_upper);
    let n3 = n2 + latin_upper;
    lemma_name_if_met(n3, s, CYRILLIC_LOWER@, "cyrillic lowercase"@, cyrillic_lower);
    let n4 = n3 + cyrillic_lower;
    lemma_name_if_met(n4, s, CYRILLIC_UPPER@, "cyrillic uppercase"@, cyrillic_upper);
}

proof fn lemma_name_if_met(
    names: Seq<Seq<char>>,
    s: Seq<char>,
    family: Seq<char>,
    name: Seq<char>,
    part: Seq<Seq<char>>,
)
    requires
        part == if exists|i: int| 0 <= i < s.len() && family.contains(#[trigger] s[i]) {
            seq![name]
        } else {
            Seq::empty()
        },
    ensures
        name_if_met(names, s, family, name) == names + part,
{
    if meets(s, family) {
        assert(names.push(name) =~= names + seq![name]);
    } else {
        assert(names + Seq::<Seq<char>>::empty() =~= names);
    }
}

/// A character belongs to a charset spec exactly when it belongs to one of the
/// tokens between the `+` signs.
pub proof fn law_spec_members(spec: Seq<char>, c: char)
    ensures
        spec_chars(spec).contains(c) <==> exists|k: int|
            0 <= k < split_on(spec, '+').len() && token_chars(
                #[trigger] split_on(spec, '+')[k],
            ).contains(c),
{
    law_dedup_members(tokens_chars(split_on(spec, '+')));
    lemma_tokens_members(split_on(spec, '+'), c);
}

/// One observed character of a family brings in the whole family.
pub proof fn law_family_is_whole(observed: Seq<char>, family: Seq<char>, c: char, d: char)
    requires
        family == DIGITS@ || family == LATIN_LOWER@ || family == LATIN_UPPER@ || family
            == CYRILLIC_LOWER@ || family == CYRILLIC_UPPER@,
        observed.contains(c),
        family.contains(c),
        family.contains(d),
    ensures
        observed_chars(observed).contains(d),
{
    let i = choose|i: int| 0 <= i < observed.len() && observed[i] == c;
    assert(family.contains(observed[i]));
    assert(meets(observed, family));
    let a = family_if_met(observed, DIGITS@);
    let b = family_if_met(observed, LATIN_LOWER@);
    let e = family_if_met(observed, LATIN_UPPER@);
    let f = family_if_met(observed, CYRILLIC_LOWER@);
    let g = family_if_met(observed, CYRILLIC_UPPER@);
    lemma_concat_contains(a, b, d);
    lemma_concat_contains(a + b, e, d);
    lemma_concat_contains(a + b + e, f, d);
    lemma_concat_contains(a + b + e + f, g, d);
}

/// A family of which nothing was observed contributes nothing.
pub proof fn law_unseen_family_is_absent(observed: Seq<char>, d: char)
    requires
        observed_chars(observed).contains(d),
    ensures
        exists|i: int|
            0 <= i < observed.len() && same_family(#[trigger] observed[i], d),
{
    let a = family_if_met(observed, DIGITS@);
    let b = family_if_met(observed, LATIN_LOWER@);
    let e = family_if_met(observed, LATIN_UPPER@);
    let f = family_if_met(observed, CYRILLIC_LOWER@);
    let g = family_if_met(observed, CYRILLIC_UPPER@);
    lemma_concat_contains(a, b, d);
    lemma_concat_contains(a + b, e, d);
    lemma_concat_contains(a + b + e, f, d);
    lemma_concat_contains(a + b + e + f, g, d);
    let family = if a.contains(d) {
        DIGITS@
    } else if b.contains(d) {
        LATIN_LOWER@
    } else if e.contains(d) {
        LATIN_UPPER@
    } else if f.contains(d) {
        CYRILLIC_LOWER@
    } else {
        CYRILLIC_UPPER@
    };
    assert(meets(observed, family));
    let i = choose|i: int| 0 <= i < observed.len() && family.contains(#[trigger] observed[i]);
    assert(same_family(observed[i], d));
}

/// Whether two characters belong to one built-in family.
pub open spec fn same_family(c: char, d: char) -> bool {
    ||| DIGITS@.contains(c) && DIGITS@.contains(d)
    ||| LATIN_LOWER@.contains(c) && LATIN_LOWER@.contains(d)
    ||| LATIN_UPPER@.contains(c) && LATIN_UPPER@.contains(d)
    ||| CYRILLIC_LOWER@.contains(c) && CYRILLIC_LOWER@.contains(d)
    ||| CYRILLIC_UPPER@.contains(c) && CYRILLIC_UPPER@.contains(d)
}

// ---------------------------------------------------------------------------
// Supporting lemmas
// ---------------------------------------------------------------------------
proof fn lemma_code(c: char)
    ensures
        (c as u32) as int == c as int,
{
}

proof fn lemma_concat_contains(a: Seq<char>, b: Seq<char>, c: char)
    ensures
        (a + b).contains(c) <==> a.contains(c) || b.contains(c),
{
    if a.contains(c) {
        let i = choose|i: int| 0 <= i < a.len() && a[i] == c;
        assert((a + b)[i] == c);
    }
    if b.contains(c) {
        let i = choose|i: int| 0 <= i < b.len() && b[i] == c;
        assert((a + b)[a.len() + i] == c);
    }
}

proof fn lemma_tokens_members(tokens: Seq<Seq<char>>, c: char)
    ensures
        tokens_chars(tokens).contains(c) <==> exists|k: int|
            0 <= k < tokens.len() && token_chars(#[trigger] tokens[k]).contains(c),
    decreases tokens.len(),
{
    if tokens.len() > 0 {
        let rest = tokens.skip(1);
        lemma_tokens_members(rest, c);
        lemma_concat_contains(token_chars(tokens[0]), tokens_chars(rest), c);
        if tokens_chars(rest).contains(c) {
            let k = choose|k: int|
                0 <= k < rest.len() && token_chars(#[trigger] rest[k]).contains(c);
            assert(token_chars(tokens[k + 1]).contains(c));
        }
        if exists|k: int| 0 <= k < tokens.len() && token_chars(#[trigger] tokens[k]).contains(c) {
            let k = choose|k: int|
                0 <= k < tokens.len() && token_chars(#[trigger] tokens[k]).contains(c);
            if k > 0 {
                assert(rest[k - 1] == tokens[k]);
            }
        }
    }
}

pub proof fn lemma_dedup_onto_append(acc: Seq<char>, a: Seq<char>, b: Seq<char>)
    ensures
        dedup_onto(acc, a + b) == dedup_onto(dedup_onto(acc, a), b),
    decreases a.len(),
{
    if a.len() == 0 {
        assert(a + b == b);
    } else {
        assert((a + b).skip(1) == a.skip(1) + b);
        let next = if acc.contains(a[0]) {
            acc
        } else {
            acc.push(a[0])
        };
        lemma_dedup_onto_append(next, a.skip(1), b);
    }
}

proof fn lemma_dedup_onto_distinct(acc: Seq<char>, s: Seq<char>)
    requires
        (acc + s).no_duplicates(),
    ensures
        dedup_onto(acc, s) == acc + s,
    decreases s.len(),
{
    if s.len() == 0 {
        assert(acc + s == acc);
    } else {
        assert forall|i: int| 0 <= i < acc.len() implies acc[i] != s[0] by {
            assert((acc + s)[i] == acc[i]);
            assert((acc + s)[acc.len() as int] == s[0]);
        }
        assert(acc.push(s[0]) + s.skip(1) == acc + s);
        lemma_dedup_onto_distinct(acc.push(s[0]), s.skip(1));
    }
}

proof fn lemma_dedup_onto_members(acc: Seq<char>, s: Seq<char>)
    requires
        acc.no_duplicates(),
    ensures
        dedup_onto(acc, s).no_duplicates(),
        forall|c: char| dedup_onto(acc, s).contains(c) <==> acc.contains(c) || s.contains(c),
    decreases s.len(),
{
    if s.len() > 0 {
        let next = if acc.contains(s[0]) {
            acc
        } else {
            acc.push(s[0])
        };
        lemma_dedup_onto_members(next, s.skip(1));
        assert forall|c: char|
            dedup_onto(acc, s).contains(c) <==> acc.contains(c) || s.contains(c) by {
            assert(seq![s[0]] + s.skip(1) == s);
            lemma_concat_contains(seq![s[0]], s.skip(1), c);
            lemma_concat_contains(acc, seq![s[0]], c);
            assert(acc + seq![s[0]] == acc.push(s[0]));
            assert(seq![s[0]].contains(c) <==> c == s[0]) by {
                assert(seq![s[0]][0] == s[0]);
            }
        }
    }
}

proof fn lemma_meets_push(s: Seq<char>, c: char, family: Seq<char>)
    ensures
        meets(s.push(c), family) == (meets(s, family) || family.contains(c)),
{
    let t = s.push(c);
    if meets(s, family) {
        let i = choose|i: int| 0 <= i < s.len() && family.contains(#[trigger] s[i]);
        assert(t[i] == s[i]);
    }
    if family.contains(c) {
        assert(t[s.len() as int] == c);
    }
    if meets(t, family) {
        let i = choose|i: int| 0 <= i < t.len() && family.contains(#[trigger] t[i]);
        if i < s.len() {
            assert(t[i] == s[i]);
        }
    }
}

/// Whether all characters of `s` lie in `lo..=hi`.
spec fn within(s: Seq<char>, lo: int, hi: int) -> bool {
    forall|i: int| 0 <= i < s.len() ==> lo <= #[trigger] s[i] as int <= hi
}

proof fn lemma_concat_distinct(a: Seq<char>, b: Seq<char>)
    requires
        a.no_duplicates(),
        b.no_duplicates(),
        forall|i: int, j: int| 0 <= i < a.len() && 0 <= j < b.len() ==> a[i] != b[j],
    ensures
        (a + b).no_duplicates(),
{
}

proof fn lemma_digits()
    ensures
        DIGITS@.no_duplicates(),
        within(DIGITS@, 0x30, 0x39),
{
    reveal_strlit("0123456789");
    assert forall|i: int| 0 <= i < DIGITS@.len() implies #[trigger] DIGITS@[i] as int == 0x30
        + i by {
        assert(i == 0 || i == 1 || i == 2 || i == 3 || i == 4 || i == 5 || i == 6 || i == 7 || i
            == 8 || i == 9);
    }
}

proof fn lemma_digit_codes(i: int)
    ensures
        DIGITS@.len() == 10,
        0 <= i < 10 ==> DIGITS@[i] as int == 0x30 + i,
{
    reveal_strlit("0123456789");
    if 0 <= i < 10 {
        assert(i == 0 || i == 1 || i == 2 || i == 3 || i == 4 || i == 5 || i == 6 || i == 7 || i
            == 8 || i == 9);
    }
}

proof fn lemma_latin_codes(i: int)
    ensures
        LATIN_LOWER@.len() == 26,
        0 <= i < 26 ==> LATIN_LOWER@[i] as int == 0x61 + i,
        LATIN_UPPER@.len() == 26,
        0 <= i < 26 ==> LATIN_UPPER@[i] as int == 0x41 + i,
{
    reveal_strlit("abcdefghijklmnopqrstuvwxyz");
    reveal_strlit("ABCDEFGHIJKLMNOPQRSTUVWXYZ");
    if 0 <= i < 26 {
        assert(i == 0 || i == 1 || i == 2 || i == 3 || i == 4 || i == 5 || i == 6 || i == 7 || i
            == 8 || i == 9 || i == 10 || i == 11 || i == 12 || i == 13 || i == 14 || i == 15 || i
            == 16 || i == 17 || i == 18 || i == 19 || i == 20 || i == 21 || i == 22 || i == 23 || i
            == 24 || i == 25);
    }
}

proof fn lemma_cyrillic_codes(i: int)
    ensures
        CYRILLIC_LOWER@.len() == 33,
        0 <= i < 33 ==> CYRILLIC_LOWER@[i] as int == cyrillic_code(0x430, 0x451, i),
        CYRILLIC_UPPER@.len() == 33,
        0 <= i < 33 ==> CYRILLIC_UPPER@[i] as int == cyrillic_code(0x410, 0x401, i),
{
    reveal_strlit("абвгдеёжзийклмнопрстуфхцчшщъыьэюя");
    reveal_strlit("АБВГДЕЁЖЗИЙКЛМНОПРСТУФХЦЧШЩЪЫЬЭЮЯ");
    if 0 <= i < 33 {
        assert(i == 0 || i == 1 || i == 2 || i == 3 || i == 4 || i == 5 || i == 6 || i == 7 || i
            == 8 || i == 9 || i == 10 || i == 11 || i == 12 || i == 13 || i == 14 || i == 15 || i
            == 16 || i == 17 || i == 18 || i == 19 || i == 20 || i == 21 || i == 22 || i == 23 || i
            == 24 || i == 25 || i == 26 || i == 27 || i == 28 || i == 29 || i == 30 || i == 31 || i
            == 32);
    }
}

proof fn lemma_latin()
    ensures
        LATIN_LOWER@.no_duplicates(),
        within(LATIN_LOWER@, 0x61, 0x7a),
        LATIN_UPPER@.no_duplicates(),
        within(LATIN_UPPER@, 0x41, 0x5a),
{
    reveal_strlit("abcdefghijklmnopqrstuvwxyz");
    reveal_strlit("ABCDEFGHIJKLMNOPQRSTUVWXYZ");
    assert forall|i: int| 0 <= i < 26 implies #[trigger] LATIN_LOWER@[i] as int == 0x61 + i by {
        assert(i == 0 || i == 1 || i == 2 || i == 3 || i == 4 || i == 5 || i == 6 || i == 7 || i
            == 8 || i == 9 || i == 10 || i == 11 || i == 12 || i == 13 || i == 14 || i == 15 || i
            == 16 || i == 17 || i == 18 || i == 19 || i == 20 || i == 21 || i == 22 || i == 23 || i
            == 24 || i == 25);
    }
    assert forall|i: int| 0 <= i < 26 implies #[trigger] LATIN_UPPER@[i] as int == 0x41 + i by {
        assert(i == 0 || i == 1 || i == 2 || i == 3 || i == 4 || i == 5 || i == 6 || i == 7 || i
            == 8 || i == 9 || i == 10 || i == 11 || i == 12 || i == 13 || i == 14 || i == 15 || i
            == 16 || i == 17 || i == 18 || i == 19 || i == 20 || i == 21 || i == 22 || i == 23 || i
            == 24 || i == 25);
    }
}

/// Code point of the letter at position `i`, where `base` is the code point of
/// the first letter and `yo` that of the letter at position six.
spec fn cyrillic_code(base: int, yo: int, i: int) -> int {
    if i < 6 {
        base + i
    } else if i == 6 {
        yo
    } else {
        base + i - 1
    }
}

proof fn lemma_cyrillic()
    ensures
        CYRILLIC_LOWER@.no_duplicates(),
        within(CYRILLIC_LOWER@, 0x430, 0x451),
        CYRILLIC_UPPER@.no_duplicates(),
        within(CYRILLIC_UPPER@, 0x401, 0x42f),
{
    reveal_strlit("абвгдеёжзийклмнопрстуфхцчшщъыьэюя");
    reveal_strlit("АБВГДЕЁЖЗИЙКЛМНОПРСТУФХЦЧШЩЪЫЬЭЮЯ");
    assert forall|i: int| 0 <= i < 33 implies #[trigger] CYRILLIC_LOWER@[i] as int
        == cyrillic_code(0x430, 0x451, i) by {
        assert(i == 0 || i == 1 || i == 2 || i == 3 || i == 4 || i == 5 || i == 6 || i == 7 || i
            == 8 || i == 9 || i == 10 || i == 11 || i == 12 || i == 13 || i == 14 || i == 15 || i
            == 16 || i == 17 || i == 18 || i == 19 || i == 20 || i == 21 || i == 22 || i == 23 || i
            == 24 || i == 25 || i == 26 || i == 27 || i == 28 || i == 29 || i == 30 || i == 31 || i
            == 32);
    }
    assert forall|i: int| 0 <= i < 33 implies #[trigger] CYRILLIC_UPPER@[i] as int
        == cyrillic_code(0x410, 0x401, i) by {
        assert(i == 0 || i == 1 || i == 2 || i == 3 || i == 4 || i == 5 || i == 6 || i == 7 || i
            == 8 || i == 9 || i == 10 || i == 11 || i == 12 || i == 13 || i == 14 || i == 15 || i
            == 16 || i == 17 || i == 18 || i == 19 || i == 20 || i == 21 || i == 22 || i == 23 || i
            == 24 || i == 25 || i == 26 || i == 27 || i == 28 || i == 29 || i == 30 || i == 31 || i
            == 32);
    }
}

/// The families are disjoint, so the detected charset has no duplicates.
proof fn lemma_observed_distinct(s: Seq<char>)
    ensures
        observed_chars(s).no_duplicates(),
{
    lemma_digits();
    lemma_latin();
    lemma_cyrillic();
    let a = family_if_met(s, DIGITS@);
    let b = family_if_met(s, LATIN_LOWER@);
    let e = family_if_met(s, LATIN_UPPER@);
    let f = family_if_met(s, CYRILLIC_LOWER@);
    let g = family_if_met(s, CYRILLIC_UPPER@);
    assert(within(a, 0x30, 0x39));
    assert(within(b, 0x61, 0x7a));
    assert(within(e, 0x41, 0x5a));
    assert(within(f, 0x430, 0x451));
    assert(within(g, 0x401, 0x42f));
    lemma_concat_distinct(a, b);
    lemma_concat_distinct(a + b, e);
    assert(within(a + b + e, 0x30, 0x7a));
    lemma_concat_distinct(a + b + e, f);
    lemma_concat_distinct(a + b + e + f, g);
}

} // verus!
