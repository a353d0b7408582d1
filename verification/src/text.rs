//! Strings as sequences of characters: splitting, trimming, case folding,
//! decimal numbers and message assembly.

use vstd::prelude::*;
use vstd::string::StringExecFns;

verus! {

/// `String::push` appends one character to the end of the string.
pub assume_specification[ String::push ](s: &mut String, c: char)
    ensures
        final(s)@ == old(s)@.push(c),
;

/// The text that `Debug` prints for a string: quoted, with escapes.
pub uninterp spec fn str_debug(s: Seq<char>) -> Seq<char>;

/// Calls `format!("{:?}")` on a string slice. The result depends on the
/// characters of the slice alone; which characters are escaped is left to std.
#[verifier::external_body]
pub(crate) fn debug_str(s: &str) -> (r: String)
    ensures
        r@ == str_debug(s@),
{
    format!("{s:?}")
}

/// The text that `Debug` prints for a character: quoted, with escapes.
pub uninterp spec fn char_debug(c: char) -> Seq<char>;

/// Calls `format!("{:?}")` on a character. The result depends on the character
/// alone; which characters are escaped is left to std.
#[verifier::external_body]
pub(crate) fn debug_char(c: char) -> (r: String)
    ensures
        r@ == char_debug(c),
{
    format!("{c:?}")
}

// ---------------------------------------------------------------------------
// Conversion
// ---------------------------------------------------------------------------
/// The characters of a string.
pub fn chars_of(s: &str) -> (v: Vec<char>)
    ensures
        v@ == s@,
{
    let mut v: Vec<char> = Vec::new();
    for c in it: s.chars()
        invariant
            it.seq() == s@,
            v@ == s@.take(it.index() as int),
    {
        v.push(c);
        assert(s@.take(it.index() + 1) == s@.take(it.index() as int).push(c));
    }
    assert(s@.take(s@.len() as int) == s@);
    v
}

/// The string with the given characters.
pub fn string_of(chars: &[char]) -> (s: String)
    ensures
        s@ == chars@,
{
    let mut s = String::new();
    let n: usize = chars.len();
    for i in 0..n
        invariant
            n == chars@.len(),
            s@ == chars@.take(i as int),
    {
        s.push(chars[i]);
        assert(chars@.take(i + 1) == chars@.take(i as int).push(chars@[i as int]));
    }
    assert(chars@.take(n as int) == chars@);
    s
}

/// A copy of `chars[from..to]`.
pub fn slice_of(chars: &[char], from: usize, to: usize) -> (v: Vec<char>)
    requires
        from <= to <= chars@.len(),
    ensures
        v@ == chars@.subrange(from as int, to as int),
{
    let mut v: Vec<char> = Vec::new();
    for i in from..to
        invariant
            from <= to <= chars@.len(),
            v@ == chars@.subrange(from as int, i as int),
    {
        v.push(chars[i]);
        assert(chars@.subrange(from as int, i + 1) == chars@.subrange(from as int, i as int).push(
            chars@[i as int],
        ));
    }
    v
}

/// Whether the characters are those of `s`.
pub fn is_text(chars: &[char], s: &str) -> (r: bool)
    ensures
        r == (chars@ == s@),
{
    let other = chars_of(s);
    if chars.len() != other.len() {
        return false;
    }
    let n: usize = chars.len();
    for i in 0..n
        invariant
            n == chars@.len(),
            n == other@.len(),
            other@ == s@,
            forall|j: int| 0 <= j < i ==> chars@[j] == other@[j],
    {
        if chars[i] != other[i] {
            return false;
        }
    }
    assert(chars@ == other@);
    true
}

/// Whether `c` occurs in `chars`.
pub fn has_char(chars: &[char], c: char) -> (r: bool)
    ensures
        r == chars@.contains(c),
{
    let n: usize = chars.len();
    for i in 0..n
        invariant
            n == chars@.len(),
            forall|j: int| 0 <= j < i ==> chars@[j] != c,
    {
        if chars[i] == c {
            return true;
        }
    }
    false
}

// ---------------------------------------------------------------------------
// Splitting
// ---------------------------------------------------------------------------
/// Position of the first `c` in `s`, or the length of `s` when there is none.
pub open spec fn first_index(s: Seq<char>, c: char) -> int
    decreases s.len(),
{
    if s.len() == 0 || s[0] == c {
        0
    } else {
        1 + first_index(s.skip(1), c)
    }
}

/// What `first_index` finds: the end of the longest prefix without `c`.
pub proof fn lemma_first_index(s: Seq<char>, c: char)
    ensures
        0 <= first_index(s, c) <= s.len(),
        first_index(s, c) < s.len() ==> s[first_index(s, c)] == c,
        forall|j: int| 0 <= j < first_index(s, c) ==> s[j] != c,
    decreases s.len(),
{
    if s.len() != 0 && s[0] != c {
        lemma_first_index(s.skip(1), c);
        assert forall|j: int| 0 <= j < first_index(s, c) implies s[j] != c by {
            if j > 0 {
                assert(s.skip(1)[j - 1] == s[j]);
            }
        }
    }
}

/// The first position is the only one with those properties.
pub proof fn lemma_first_index_unique(s: Seq<char>, c: char, i: int)
    requires
        0 <= i <= s.len(),
        i < s.len() ==> s[i] == c,
        forall|j: int| 0 <= j < i ==> s[j] != c,
    ensures
        first_index(s, c) == i,
{
    lemma_first_index(s, c);
}

/// Position of the first `c` in `chars[from..]`, counted from the start of
/// `chars`; the length when there is none.
pub fn find_char(chars: &[char], from: usize, c: char) -> (r: usize)
    requires
        from <= chars@.len(),
    ensures
        from <= r <= chars@.len(),
        r == from + first_index(chars@.skip(from as int), c),
{
    let mut i: usize = from;
    while i < chars.len() && chars[i] != c
        invariant
            from <= i <= chars@.len(),
            forall|j: int| from <= j < i ==> chars@[j] != c,
        decreases chars@.len() - i,
    {
        i = i + 1;
    }
    proof {
        lemma_first_index_unique(chars@.skip(from as int), c, i - from);
    }
    i
}

/// The parts of `s` between the separators.
pub open spec fn split_on(s: Seq<char>, sep: char) -> Seq<Seq<char>>
    decreases s.len(),
{
    proof {
        lemma_first_index(s, sep);
    }
    let i = first_index(s, sep);
    if i >= s.len() {
        seq![s]
    } else {
        seq![s.take(i)] + split_on(s.skip(i + 1), sep)
    }
}

/// Splitting loses nothing but the separators: joined by the separator the parts
/// are the text again, and no part holds a separator.
pub proof fn law_split_is_undone_by_join(s: Seq<char>, sep: char)
    ensures
        split_on(s, sep).len() > 0,
        join(split_on(s, sep), seq![sep]) == s,
        forall|k: int|
            0 <= k < split_on(s, sep).len() ==> !(#[trigger] split_on(s, sep)[k]).contains(sep),
    decreases s.len(),
{
    lemma_first_index(s, sep);
    let i = first_index(s, sep);
    let parts = split_on(s, sep);
    if i >= s.len() {
        assert(parts[0] == s);
    } else {
        let rest = split_on(s.skip(i + 1), sep);
        law_split_is_undone_by_join(s.skip(i + 1), sep);
        lemma_join_first(s.take(i), rest, seq![sep]);
        assert(s.take(i) + seq![sep] + s.skip(i + 1) =~= s);
        assert forall|k: int| 0 <= k < parts.len() implies !(
        #[trigger] parts[k]).contains(sep) by {
            if k > 0 {
                assert(parts[k] == rest[k - 1]);
            } else {
                assert forall|j: int| 0 <= j < i implies parts[0][j] != sep by {
                    assert(parts[0][j] == s[j]);
                }
            }
        }
    }
}

proof fn lemma_join_first(first: Seq<char>, rest: Seq<Seq<char>>, sep: Seq<char>)
    requires
        rest.len() > 0,
    ensures
        join(seq![first] + rest, sep) == first + sep + join(rest, sep),
    decreases rest.len(),
{
    let all = seq![first] + rest;
    if rest.len() == 1 {
        assert(all.drop_last() =~= seq![first]);
        assert(join(seq![first], sep) == first);
        assert(all.last() == rest[0]);
    } else {
        lemma_join_first(first, rest.drop_last(), sep);
        assert(all.drop_last() =~= seq![first] + rest.drop_last());
        assert(all.last() == rest.last());
        assert(first + sep + join(rest.drop_last(), sep) + sep + rest.last() =~= first + sep + (
        join(rest.drop_last(), sep) + sep + rest.last()));
    }
}

/// Whether `pat` occurs in `s` at position `i`.
pub open spec fn occurs_at(s: Seq<char>, pat: Seq<char>, i: int) -> bool {
    0 <= i && i + pat.len() <= s.len() && s.subrange(i, i + pat.len()) == pat
}

/// Position of the first occurrence of `pat` in `s`.
pub open spec fn first_match(s: Seq<char>, pat: Seq<char>) -> Option<int> {
    if exists|i: int| occurs_at(s, pat, i) {
        Some(choose|i: int| occurs_at(s, pat, i) && forall|j: int| j < i ==> !occurs_at(s, pat, j))
    } else {
        None
    }
}

/// A text occurs where its characters stand one by one.
pub proof fn law_occurrence_is_by_character(s: Seq<char>, pat: Seq<char>, i: int)
    ensures
        occurs_at(s, pat, i) <==> 0 <= i && i + pat.len() <= s.len() && (forall|k: int|
            0 <= k < pat.len() ==> s[i + k] == #[trigger] pat[k]),
{
    if 0 <= i && i + pat.len() <= s.len() {
        let part = s.subrange(i, i + pat.len());
        assert(forall|k: int| 0 <= k < pat.len() ==> #[trigger] part[k] == s[i + k]);
        if part == pat {
            assert forall|k: int| 0 <= k < pat.len() implies s[i + k] == #[trigger] pat[k] by {
                assert(part[k] == s[i + k]);
            }
        } else if forall|k: int| 0 <= k < pat.len() ==> s[i + k] == #[trigger] pat[k] {
            assert(part =~= pat);
        }
    }
}

/// A text is found where it occurs first, if it occurs at all.
pub proof fn law_first_match_is_first(s: Seq<char>, pat: Seq<char>, i: int)
    ensures
        first_match(s, pat) is None ==> !occurs_at(s, pat, i),
        first_match(s, pat) matches Some(k) ==> occurs_at(s, pat, k) && (occurs_at(s, pat, i)
            ==> k <= i),
{
    if occurs_at(s, pat, i) {
        lemma_first_match_exists(s, pat, i);
    } else if first_match(s, pat) is Some {
        let j = choose|j: int| occurs_at(s, pat, j);
        lemma_first_match_exists(s, pat, j);
    }
}

/// Where a text occurs there is a first occurrence.
pub proof fn lemma_first_match_exists(s: Seq<char>, pat: Seq<char>, i: int)
    requires
        occurs_at(s, pat, i),
    ensures
        first_match(s, pat) matches Some(k) && k <= i && occurs_at(s, pat, k) && forall|j: int|
            j < k ==> !occurs_at(s, pat, j),
    decreases i,
{
    if exists|j: int| j < i && occurs_at(s, pat, j) {
        let j = choose|j: int| j < i && occurs_at(s, pat, j);
        lemma_first_match_exists(s, pat, j);
    } else {
        lemma_first_match(s, pat, i);
    }
}

/// A position with an occurrence and none before it is the first match.
pub proof fn lemma_first_match(s: Seq<char>, pat: Seq<char>, i: int)
    requires
        occurs_at(s, pat, i),
        forall|j: int| j < i ==> !occurs_at(s, pat, j),
    ensures
        first_match(s, pat) == Some(i),
{
    let k = choose|k: int| occurs_at(s, pat, k) && forall|j: int| j < k ==> !occurs_at(s, pat, j);
    assert(occurs_at(s, pat, k) && forall|j: int| j < k ==> !occurs_at(s, pat, j));
    if k < i {
        assert(!occurs_at(s, pat, k));
    }
    if i < k {
        assert(!occurs_at(s, pat, i));
    }
}

/// Whether `pat` stands in `chars` at position `i`.
fn matches_at(chars: &[char], pat: &[char], i: usize) -> (r: bool)
    requires
        i + pat@.len() <= chars@.len(),
    ensures
        r == occurs_at(chars@, pat@, i as int),
{
    let n: usize = pat.len();
    let m: usize = chars.len();
    for k in 0..n
        invariant
            n == pat@.len(),
            m == chars@.len(),
            i + n <= m,
            forall|j: int| 0 <= j < k ==> chars@[i + j] == pat@[j],
    {
        if chars[i + k] != pat[k] {
            assert(chars@.subrange(i as int, i + n)[k as int] != pat@[k as int]);
            return false;
        }
    }
    assert(chars@.subrange(i as int, i + n) == pat@);
    true
}

/// Finds the first occurrence of `pat`.
pub fn find_text(chars: &[char], pat: &[char]) -> (r: Option<usize>)
    ensures
        match r {
            Some(i) => first_match(chars@, pat@) == Some(i as int) && i + pat@.len() <= chars@.len(),
            None => first_match(chars@, pat@) is None,
        },
{
    if pat.len() > chars.len() {
        assert forall|j: int| !occurs_at(chars@, pat@, j) by {}
        return None;
    }
    let last: usize = chars.len() - pat.len();
    let mut i: usize = 0;
    loop
        invariant
            last == chars@.len() - pat@.len(),
            i <= last,
            forall|j: int| j < i ==> !occurs_at(chars@, pat@, j),
        decreases last - i,
    {
        if matches_at(chars, pat, i) {
            proof {
                lemma_first_match(chars@, pat@, i as int);
            }
            return Some(i);
        }
        if i == last {
            assert forall|j: int| !occurs_at(chars@, pat@, j) by {}
            return None;
        }
        i = i + 1;
    }
}

// ---------------------------------------------------------------------------
// Trimming and case
// ---------------------------------------------------------------------------
/// Whether a character has the Unicode `White_Space` property.
pub open spec fn is_white(c: char) -> bool {
    ||| '\u{9}' <= c <= '\u{d}'
    ||| c == '\u{20}'
    ||| c == '\u{85}'
    ||| c == '\u{a0}'
    ||| c == '\u{1680}'
    ||| '\u{2000}' <= c <= '\u{200a}'
    ||| c == '\u{2028}'
    ||| c == '\u{2029}'
    ||| c == '\u{202f}'
    ||| c == '\u{205f}'
    ||| c == '\u{3000}'
}

/// Tests for the Unicode `White_Space` property.
pub fn white(c: char) -> (r: bool)
    ensures
        r == is_white(c),
{
    ('\u{9}' <= c && c <= '\u{d}') || c == '\u{20}' || c == '\u{85}' || c == '\u{a0}' || c
        == '\u{1680}' || ('\u{2000}' <= c && c <= '\u{200a}') || c == '\u{2028}' || c == '\u{2029}'
        || c == '\u{202f}' || c == '\u{205f}' || c == '\u{3000}'
}

/// `s` without its leading white space.
pub open spec fn trim_start(s: Seq<char>) -> Seq<char>
    decreases s.len(),
{
    if s.len() > 0 && is_white(s[0]) {
        trim_start(s.skip(1))
    } else {
        s
    }
}

/// `s` without its trailing white space.
pub open spec fn trim_end(s: Seq<char>) -> Seq<char>
    decreases s.len(),
{
    if s.len() > 0 && is_white(s.last()) {
        trim_end(s.drop_last())
    } else {
        s
    }
}

/// `s` without white space at either end.
pub open spec fn trim(s: Seq<char>) -> Seq<char> {
    trim_end(trim_start(s))
}

/// The white space characters, by code point: the controls from tab to carriage
/// return and the next-line control, the spaces, and the line and paragraph
/// separators.
pub proof fn law_white_space(c: char)
    ensures
        is_white(c) <==> 9 <= c as u32 <= 13 || c as u32 == 32 || c as u32 == 0x85 || c as u32
            == 0xa0 || c as u32 == 0x1680 || 0x2000 <= c as u32 <= 0x200a || 0x2028 <= c as u32
            <= 0x2029 || c as u32 == 0x202f || c as u32 == 0x205f || c as u32 == 0x3000,
{
}

/// What is trimmed: all white space at both ends and nothing else.
pub proof fn law_trim_cuts_white_ends(s: Seq<char>)
    ensures
        exists|i: int, j: int|
            0 <= i <= j <= s.len() && trim(s) == #[trigger] s.subrange(i, j) && (forall|k: int|
                0 <= k < i || j <= k < s.len() ==> is_white(#[trigger] s[k])),
        trim(s).len() > 0 ==> !is_white(trim(s)[0]) && !is_white(trim(s).last()),
{
    let i = lemma_trim_start_cuts(s);
    let rest = s.skip(i);
    let n = lemma_trim_end_cuts(rest);
    let j = i + n;
    assert(trim(s) =~= s.subrange(i, j));
    assert forall|k: int| 0 <= k < i || j <= k < s.len() implies is_white(#[trigger] s[k]) by {
        if k >= j {
            assert(rest[k - i] == s[k]);
        }
    }
}

proof fn lemma_trim_start_cuts(s: Seq<char>) -> (i: int)
    ensures
        0 <= i <= s.len(),
        trim_start(s) == s.skip(i),
        forall|k: int| 0 <= k < i ==> is_white(#[trigger] s[k]),
        i < s.len() ==> !is_white(s[i]),
    decreases s.len(),
{
    if s.len() > 0 && is_white(s[0]) {
        let i = lemma_trim_start_cuts(s.skip(1));
        assert(s.skip(1).skip(i) =~= s.skip(i + 1));
        assert forall|k: int| 0 <= k < i + 1 implies is_white(#[trigger] s[k]) by {
            if k > 0 {
                assert(s.skip(1)[k - 1] == s[k]);
            }
        }
        i + 1
    } else {
        assert(s.skip(0) =~= s);
        0
    }
}

proof fn lemma_trim_end_cuts(s: Seq<char>) -> (n: int)
    ensures
        0 <= n <= s.len(),
        trim_end(s) == s.take(n),
        forall|k: int| n <= k < s.len() ==> is_white(#[trigger] s[k]),
        n > 0 ==> !is_white(s[n - 1]),
    decreases s.len(),
{
    if s.len() > 0 && is_white(s.last()) {
        let n = lemma_trim_end_cuts(s.drop_last());
        assert(s.drop_last().take(n) =~= s.take(n));
        assert forall|k: int| n <= k < s.len() implies is_white(#[trigger] s[k]) by {
            if k < s.len() - 1 {
                assert(s.drop_last()[k] == s[k]);
            }
        }
        n
    } else {
        assert(s.take(s.len() as int) =~= s);
        s.len() as int
    }
}

/// A text that neither starts nor ends with white space is left alone.
pub proof fn lemma_trim_keeps(s: Seq<char>)
    requires
        s.len() > 0 ==> !is_white(s[0]) && !is_white(s.last()),
    ensures
        trim(s) == s,
{
}

/// White space is trimmed at the ends alone: what stands between two visible
/// characters is kept.
pub proof fn lemma_trim_middle(a: Seq<char>, middle: Seq<char>, b: Seq<char>)
    requires
        middle.len() > 0,
        !is_white(middle[0]),
        !is_white(middle.last()),
    ensures
        trim(a + middle + b) == trim_start(a) + middle + trim_end(b),
{
    assert(a + middle + b =~= a + (middle + b));
    lemma_trim_start_before(a, middle + b);
    let head = trim_start(a) + middle;
    assert(trim_start(a) + (middle + b) =~= head + b);
    assert(head.last() == middle.last());
    lemma_trim_end_after(head, b);
}

proof fn lemma_trim_start_before(a: Seq<char>, rest: Seq<char>)
    requires
        rest.len() > 0,
        !is_white(rest[0]),
    ensures
        trim_start(a + rest) == trim_start(a) + rest,
    decreases a.len(),
{
    if a.len() == 0 {
        assert(a + rest =~= rest);
    } else if is_white(a[0]) {
        lemma_trim_start_before(a.skip(1), rest);
        assert((a + rest).skip(1) =~= a.skip(1) + rest);
    }
}

proof fn lemma_trim_end_after(head: Seq<char>, b: Seq<char>)
    requires
        head.len() > 0,
        !is_white(head.last()),
    ensures
        trim_end(head + b) == head + trim_end(b),
    decreases b.len(),
{
    if b.len() == 0 {
        assert(head + b =~= head);
    } else if is_white(b.last()) {
        lemma_trim_end_after(head, b.drop_last());
        assert((head + b).drop_last() =~= head + b.drop_last());
    }
}

/// What is left after trimming stood in the text before.
pub proof fn lemma_trim_start_part(s: Seq<char>, c: char)
    requires
        trim_start(s).contains(c),
    ensures
        s.contains(c),
    decreases s.len(),
{
    if s.len() > 0 && is_white(s[0]) {
        lemma_trim_start_part(s.skip(1), c);
        let i = choose|i: int| 0 <= i < s.skip(1).len() && s.skip(1)[i] == c;
        assert(s[i + 1] == c);
    }
}

/// Whether a text is nothing but white space.
pub open spec fn all_white(s: Seq<char>) -> bool {
    forall|i: int| 0 <= i < s.len() ==> is_white(#[trigger] s[i])
}

/// White space around a text does not matter when it is trimmed.
pub proof fn lemma_trim_around(before: Seq<char>, s: Seq<char>, after: Seq<char>)
    requires
        all_white(before),
        all_white(after),
    ensures
        trim(before + s + after) == trim(s),
{
    assert(before + s + after =~= before + (s + after));
    lemma_trim_start_white(before, s + after);
    lemma_trim_start_then(s, after);
    if trim_start(s).len() > 0 {
        lemma_trim_end_white(trim_start(s), after);
    } else {
        assert(after + Seq::<char>::empty() =~= after);
        lemma_trim_start_white(after, Seq::empty());
        assert(trim_start(s) =~= Seq::empty());
    }
}

proof fn lemma_trim_start_white(before: Seq<char>, s: Seq<char>)
    requires
        all_white(before),
    ensures
        trim_start(before + s) == trim_start(s),
    decreases before.len(),
{
    if before.len() == 0 {
        assert(before + s =~= s);
    } else {
        assert(is_white(before[0]));
        lemma_trim_start_white(before.skip(1), s);
        assert((before + s).skip(1) =~= before.skip(1) + s);
    }
}

proof fn lemma_trim_start_then(s: Seq<char>, after: Seq<char>)
    ensures
        trim_start(s + after) == if trim_start(s).len() > 0 {
            trim_start(s) + after
        } else {
            trim_start(after)
        },
    decreases s.len(),
{
    if s.len() == 0 {
        assert(s + after =~= after);
    } else if is_white(s[0]) {
        lemma_trim_start_then(s.skip(1), after);
        assert((s + after).skip(1) =~= s.skip(1) + after);
    }
}

proof fn lemma_trim_end_white(s: Seq<char>, after: Seq<char>)
    requires
        all_white(after),
    ensures
        trim_end(s + after) == trim_end(s),
    decreases after.len(),
{
    if after.len() == 0 {
        assert(s + after =~= s);
    } else {
        assert(is_white(after[after.len() - 1]));
        lemma_trim_end_white(s, after.drop_last());
        assert((s + after).drop_last() =~= s + after.drop_last());
    }
}

/// Removes white space at both ends.
pub fn trimmed(chars: &[char]) -> (v: Vec<char>)
    ensures
        v@ == trim(chars@),
{
    let mut lo: usize = 0;
    assert(chars@.skip(0) == chars@);
    while lo < chars.len() && white(chars[lo])
        invariant
            lo <= chars@.len(),
            trim_start(chars@) == trim_start(chars@.skip(lo as int)),
        decreases chars@.len() - lo,
    {
        assert(chars@.skip(lo as int).skip(1) == chars@.skip(lo + 1));
        lo = lo + 1;
    }
    let mut hi: usize = chars.len();
    assert(chars@.subrange(lo as int, hi as int) == chars@.skip(lo as int));
    while lo < hi && white(chars[hi - 1])
        invariant
            lo <= hi <= chars@.len(),
            trim(chars@) == trim_end(chars@.subrange(lo as int, hi as int)),
        decreases hi,
    {
        assert(chars@.subrange(lo as int, hi as int).drop_last() == chars@.subrange(
            lo as int,
            hi - 1,
        ));
        hi = hi - 1;
    }
    slice_of(chars, lo, hi)
}

/// `'A'..='Z'` folded to lower case, any other character unchanged.
pub open spec fn ascii_lower(c: char) -> char {
    if 'A' <= c <= 'Z' {
        ((c as u8) + 32) as u8 as char
    } else {
        c
    }
}

/// Every character of `s` folded by `ascii_lower`.
pub open spec fn lower(s: Seq<char>) -> Seq<char> {
    Seq::new(s.len(), |i: int| ascii_lower(s[i]))
}

/// Folding to lower case goes character by character: a capital of the ASCII
/// alphabet becomes the letter 32 code points on, all else stays.
pub proof fn law_lower_folds_ascii(s: Seq<char>, i: int, c: char)
    requires
        0 <= i < s.len(),
        c == s[i],
    ensures
        lower(s).len() == s.len(),
        65 <= c as u32 <= 90 ==> lower(s)[i] as u32 == c as u32 + 32,
        !(65 <= c as u32 <= 90) ==> lower(s)[i] == c,
{
}

/// A text without ASCII capitals is its own lower case.
pub proof fn lemma_lower_keeps(s: Seq<char>)
    requires
        forall|i: int| 0 <= i < s.len() ==> !('A' <= #[trigger] s[i] <= 'Z'),
    ensures
        lower(s) == s,
{
}

/// Folds ASCII letters to lower case.
pub fn lowered(chars: &[char]) -> (v: Vec<char>)
    ensures
        v@ == lower(chars@),
{
    let mut v: Vec<char> = Vec::new();
    let n: usize = chars.len();
    for i in 0..n
        invariant
            n == chars@.len(),
            v@ == lower(chars@).take(i as int),
    {
        let c = chars[i];
        if 'A' <= c && c <= 'Z' {
            v.push((c as u8 + 32) as char);
        } else {
            v.push(c);
        }
        assert(v@ == lower(chars@).take(i + 1));
    }
    assert(lower(chars@).take(n as int) == lower(chars@));
    v
}

/// Compares `s` with a text that is already in lower case.
pub fn folds_to(s: &str, lower_name: &str) -> (r: bool)
    ensures
        r == (lower(s@) == lower_name@),
{
    is_text(&lowered(&chars_of(s)), lower_name)
}

// ---------------------------------------------------------------------------
// Decimal numbers
// ---------------------------------------------------------------------------
/// Whether every character is a decimal digit.
pub open spec fn all_digits(s: Seq<char>) -> bool {
    forall|i: int| 0 <= i < s.len() ==> '0' <= #[trigger] s[i] <= '9'
}

/// The number that a run of decimal digits writes.
pub open spec fn digits_value(s: Seq<char>) -> int
    decreases s.len(),
{
    if s.len() == 0 {
        0
    } else {
        digits_value(s.drop_last()) * 10 + (s.last() as int - '0' as int)
    }
}

/// The digits of a number literal, without an optional leading `+`.
pub open spec fn number_body(s: Seq<char>) -> Seq<char> {
    if s.len() > 1 && s[0] == '+' {
        s.skip(1)
    } else {
        s
    }
}

/// The unsigned number that `s` writes: an optional `+`, then at least one
/// decimal digit and nothing else, with a value of at most `max`.
pub open spec fn number(s: Seq<char>, max: int) -> Option<int> {
    let body = number_body(s);
    if body.len() > 0 && all_digits(body) && digits_value(body) <= max {
        Some(digits_value(body))
    } else {
        None
    }
}

/// Digits are read in base ten from the left, and only the ten ASCII digits are
/// digits.
pub proof fn law_digits_are_positional(s: Seq<char>, c: char)
    ensures
        digits_value(s.push(c)) == 10 * digits_value(s) + (c as u32 - 48),
        digits_value(Seq::<char>::empty()) == 0,
        all_digits(s.push(c)) <==> all_digits(s) && 48 <= c as u32 <= 57,
        all_digits(Seq::<char>::empty()),
{
    let t = s.push(c);
    assert(t.drop_last() =~= s);
    if all_digits(t) {
        assert('0' <= t[s.len() as int] <= '9');
        assert forall|i: int| 0 <= i < s.len() implies '0' <= #[trigger] s[i] <= '9' by {
            assert(t[i] == s[i]);
        }
    }
}

/// A number is written with digits, at least one, and may have one plus sign
/// before them. It is read when it is not above the limit; nothing else is a
/// number.
pub proof fn law_number_is_digits(s: Seq<char>, max: int)
    ensures
        s.len() > 0 && all_digits(s) ==> number(s, max) == if digits_value(s) <= max {
            Some(digits_value(s))
        } else {
            None
        },
        s.len() > 0 && all_digits(s) ==> number(seq!['+'] + s, max) == number(s, max),
        s.len() == 0 ==> number(s, max) is None,
        s.len() > 0 && !all_digits(s) && s[0] != '+' ==> number(s, max) is None,
        !all_digits(s) ==> number(seq!['+'] + s, max) is None,
        number(seq!['+'], max) is None,
{
    let t = seq!['+'] + s;
    assert(t.skip(1) =~= s);
    if s.len() > 0 && all_digits(s) {
        assert('0' <= s[0] <= '9');
    }
    let plus = seq!['+'];
    assert(plus[0] == '+');
    assert(!all_digits(plus));
}

/// What is read as a number is within the limit.
pub proof fn lemma_number_range(s: Seq<char>, max: int)
    ensures
        number(s, max) matches Some(n) ==> 0 <= n <= max,
{
    let body = number_body(s);
    if all_digits(body) {
        lemma_digits_prefix(body, 0);
        assert(body.take(0) =~= Seq::empty());
    }
}

proof fn lemma_digits_prefix(s: Seq<char>, i: int)
    requires
        0 <= i <= s.len(),
        all_digits(s),
    ensures
        0 <= digits_value(s.take(i)) <= digits_value(s),
    decreases s.len(),
{
    if i == s.len() {
        assert(s.take(i) == s);
        if s.len() > 0 {
            lemma_digits_prefix(s.drop_last(), i - 1);
            assert(s.drop_last().take(i - 1) == s.drop_last());
        }
    } else {
        lemma_digits_prefix(s.drop_last(), i);
        assert(s.drop_last().take(i) == s.take(i));
    }
}

/// Reads an unsigned decimal number of at most `max`.
pub fn parse_number(chars: &[char], max: u64) -> (r: Option<u64>)
    ensures
        match r {
            Some(n) => number(chars@, max as int) == Some(n as int),
            None => number(chars@, max as int) is None,
        },
{
    let mut start: usize = 0;
    if chars.len() > 1 && chars[0] == '+' {
        start = 1;
    }
    let ghost body = number_body(chars@);
    assert(body == chars@.skip(start as int));
    if start == chars.len() {
        return None;
    }
    let mut value: u64 = 0;
    let n: usize = chars.len();
    for i in start..n
        invariant
            n == chars@.len(),
            start <= n,
            body == chars@.skip(start as int),
            body == number_body(chars@),
            forall|j: int| start <= j < i ==> '0' <= #[trigger] chars@[j] <= '9',
            value == digits_value(body.take(i - start)),
            value <= max,
    {
        let c = chars[i];
        if !('0' <= c && c <= '9') {
            assert(body[i - start] == c);
            return None;
        }
        let d: u64 = (c as u8 - '0' as u8) as u64;
        assert(body.take(i - start + 1).drop_last() == body.take(i - start));
        assert(body.take(i - start + 1).last() == c);
        assert(digits_value(body.take(i - start + 1)) == value * 10 + d);
        if d > max || value > (max - d) / 10 {
            proof {
                if all_digits(body) {
                    lemma_digits_prefix(body, i - start + 1);
                }
            }
            return None;
        }
        value = value * 10 + d;
    }
    assert(body.take(n - start) == body);
    assert forall|j: int| 0 <= j < body.len() implies '0' <= #[trigger] body[j] <= '9' by {
        assert(body[j] == chars@[j + start]);
    }
    Some(value)
}

/// The decimal digit for `d < 10`.
pub open spec fn digit_char(d: nat) -> char {
    ('0' as u8 + d) as u8 as char
}

/// A number in decimal, without leading zeros.
pub open spec fn decimal(n: nat) -> Seq<char>
    decreases n,
{
    if n < 10 {
        seq![digit_char(n)]
    } else {
        decimal(n / 10).push(digit_char(n % 10))
    }
}

/// Decimal notation is positional: a digit more at the end is ten times the number
/// and the digit, and a number below ten is one digit.
pub proof fn law_decimal_is_positional(n: nat, d: nat)
    requires
        d < 10,
    ensures
        decimal(d).len() == 1,
        decimal(d)[0] as u32 == 48 + d,
        n > 0 ==> decimal(10 * n + d) == decimal(n) + decimal(d),
{
    if n > 0 {
        let whole = 10 * n + d;
        assert(whole / 10 == n && whole % 10 == d);
        assert(decimal(whole) =~= decimal(n) + decimal(d));
    }
}

/// Writes a number in decimal.
pub fn show_number(n: u64) -> (v: Vec<char>)
    ensures
        v@ == decimal(n as nat),
    decreases n,
{
    let d: u8 = (n % 10) as u8;
    let c = ('0' as u8 + d) as char;
    if n < 10 {
        let mut v: Vec<char> = Vec::new();
        v.push(c);
        assert(v@ == decimal(n as nat));
        v
    } else {
        let mut v = show_number(n / 10);
        v.push(c);
        v
    }
}

/// Writes a `usize` in decimal.
pub fn show_usize(n: usize) -> (s: String)
    ensures
        s@ == decimal(n as nat),
{
    string_of(&show_number(n as u64))
}

/// Decimal notation reads back as the number it writes.
pub proof fn lemma_decimal_reads_back(n: nat)
    ensures
        decimal(n).len() > 0,
        all_digits(decimal(n)),
        digits_value(decimal(n)) == n,
        decimal(n)[0] != '+',
        number(decimal(n), n as int) == Some(n as int),
    decreases n,
{
    if n >= 10 {
        lemma_decimal_reads_back(n / 10);
        assert(decimal(n).drop_last() == decimal(n / 10));
    } else {
        reveal_with_fuel(digits_value, 2);
        assert(decimal(n).drop_last() == Seq::<char>::empty());
    }
    assert(number_body(decimal(n)) == decimal(n));
}

// ---------------------------------------------------------------------------
// Joining
// ---------------------------------------------------------------------------
/// The parts in order, with `sep` between neighbours.
pub open spec fn join(parts: Seq<Seq<char>>, sep: Seq<char>) -> Seq<char>
    decreases parts.len(),
{
    if parts.len() == 0 {
        Seq::empty()
    } else if parts.len() == 1 {
        parts[0]
    } else {
        join(parts.drop_last(), sep) + sep + parts.last()
    }
}

/// The texts of a list of strings.
pub open spec fn texts(parts: Seq<String>) -> Seq<Seq<char>> {
    Seq::new(parts.len(), |i: int| parts[i]@)
}

/// Joining writes the parts in order with the separator between neighbours only.
pub proof fn law_join_separates(
    parts: Seq<Seq<char>>,
    part: Seq<char>,
    sep: Seq<char>,
    strings: Seq<String>,
    i: int,
)
    ensures
        join(Seq::<Seq<char>>::empty(), sep) == Seq::<char>::empty(),
        join(seq![part], sep) == part,
        parts.len() > 0 ==> join(parts.push(part), sep) == join(parts, sep) + sep + part,
        texts(strings).len() == strings.len(),
        0 <= i < strings.len() ==> texts(strings)[i] == strings[i]@,
{
    assert(parts.push(part).drop_last() =~= parts);
}

/// Joins strings with a separator.
pub fn join_strings(parts: &[String], sep: &str) -> (r: String)
    ensures
        r@ == join(texts(parts@), sep@),
{
    let mut r = String::new();
    let n: usize = parts.len();
    for i in 0..n
        invariant
            n == parts@.len(),
            r@ == join(texts(parts@).take(i as int), sep@),
    {
        let ghost head = texts(parts@).take(i as int);
        let ghost all = texts(parts@).take(i + 1);
        assert(all.drop_last() == head);
        if i > 0 {
            r.append(sep);
        }
        r.append(parts[i].as_str());
        assert(r@ == join(all, sep@));
    }
    assert(texts(parts@).take(n as int) == texts(parts@));
    r
}

} // verus!
