//! Count tables, sorted by key, and their texts.

use crate::text::{join_strings, show_usize};
use vstd::prelude::*;
use vstd::string::StringExecFns;

#[allow(unused_imports)]
use crate::text::{decimal, join, texts};

verus! {

/// What can be counted: keys have an order and a text.
pub trait CountKey: Sized {
    /// The place of a key in the order of all keys.
    spec fn rank(self) -> int;

    /// The text of a key.
    spec fn text(self) -> Seq<char>;

    /// Different keys have different places.
    proof fn rank_is_injective(a: Self, b: Self)
        ensures
            a.rank() == b.rank() ==> a == b,
    ;

    /// The same key once more.
    fn copied(&self) -> (r: Self)
        ensures
            r == *self,
    ;

    /// Whether this key comes before the other.
    fn precedes(&self, other: &Self) -> (r: bool)
        ensures
            r == (self.rank() < other.rank()),
    ;

    /// The text of a key.
    fn show(&self) -> (r: String)
        ensures
            r@ == self.text(),
    ;
}

impl CountKey for usize {
    open spec fn rank(self) -> int {
        self as int
    }

    open spec fn text(self) -> Seq<char> {
        decimal(self as nat)
    }

    proof fn rank_is_injective(a: Self, b: Self) {
    }

    fn copied(&self) -> (r: Self) {
        *self
    }

    fn precedes(&self, other: &Self) -> (r: bool) {
        *self < *other
    }

    fn show(&self) -> (r: String) {
        show_usize(*self)
    }
}

impl CountKey for char {
    open spec fn rank(self) -> int {
        self as int
    }

    open spec fn text(self) -> Seq<char> {
        seq![self]
    }

    proof fn rank_is_injective(a: Self, b: Self) {
    }

    fn copied(&self) -> (r: Self) {
        *self
    }

    fn precedes(&self, other: &Self) -> (r: bool) {
        *self < *other
    }

    fn show(&self) -> (r: String) {
        let mut s = String::new();
        s.push(*self);
        assert(s@ =~= self.text());
        s
    }
}

/// Characters are numbered from 0 to 0x10ffff.
proof fn lemma_char_bound(c: char)
    ensures
        0 <= c as int <= 0x10_ffff,
{
}

/// An expected character and the one that was predicted in its place.
impl CountKey for (char, char) {
    open spec fn rank(self) -> int {
        self.0 as int * 0x11_0000 + self.1 as int
    }

    open spec fn text(self) -> Seq<char> {
        seq![self.0] + "->"@ + seq![self.1]
    }

    proof fn rank_is_injective(a: Self, b: Self) {
        lemma_char_bound(a.1);
        lemma_char_bound(b.1);
    }

    fn copied(&self) -> (r: Self) {
        *self
    }

    fn precedes(&self, other: &Self) -> (r: bool) {
        proof {
            lemma_char_bound(self.1);
            lemma_char_bound(other.1);
        }
        self.0 < other.0 || (self.0 == other.0 && self.1 < other.1)
    }

    fn show(&self) -> (r: String) {
        let mut s = String::new();
        s.push(self.0);
        s.append("->");
        s.push(self.1);
        assert(s@ =~= self.text());
        s
    }
}

/// Width and height of an image.
impl CountKey for (u32, u32) {
    open spec fn rank(self) -> int {
        self.0 as int * 0x1_0000_0000 + self.1 as int
    }

    open spec fn text(self) -> Seq<char> {
        decimal(self.0 as nat) + "x"@ + decimal(self.1 as nat)
    }

    proof fn rank_is_injective(a: Self, b: Self) {
    }

    fn copied(&self) -> (r: Self) {
        *self
    }

    fn precedes(&self, other: &Self) -> (r: bool) {
        self.0 < other.0 || (self.0 == other.0 && self.1 < other.1)
    }

    fn show(&self) -> (r: String) {
        let mut s = show_usize(self.0 as usize);
        s.append("x");
        s.append(show_usize(self.1 as usize).as_str());
        s
    }
}

/// How keys are ordered: numbers by size, characters by code point, and pairs by
/// their first part, then by their second.
pub proof fn law_keys_are_ordered(
    m: usize,
    n: usize,
    c: char,
    d: char,
    p: (char, char),
    q: (char, char),
    a: (u32, u32),
    b: (u32, u32),
)
    ensures
        m.rank() < n.rank() <==> m < n,
        c.rank() < d.rank() <==> (c as u32) < (d as u32),
        p.rank() < q.rank() <==> (p.0 as u32) < (q.0 as u32) || (p.0 == q.0 && (p.1 as u32) < (
        q.1 as u32)),
        a.rank() < b.rank() <==> a.0 < b.0 || (a.0 == b.0 && a.1 < b.1),
{
    lemma_char_bound(p.0);
    lemma_char_bound(p.1);
    lemma_char_bound(q.0);
    lemma_char_bound(q.1);
}

/// How keys are written: numbers in decimal, characters as they are, a confusion
/// as `a->b` and an image size as `WIDTHxHEIGHT`.
pub proof fn law_keys_are_written(n: usize, c: char, p: (char, char), a: (u32, u32))
    ensures
        n.text() == decimal(n as nat),
        c.text() == seq![c],
        p.text() == seq![p.0, '-', '>', p.1],
        a.text() == decimal(a.0 as nat) + seq!['x'] + decimal(a.1 as nat),
{
    reveal_strlit("->");
    reveal_strlit("x");
    assert(p.text() =~= seq![p.0, '-', '>', p.1]);
    assert("x"@ =~= seq!['x']);
}

/// How often `key` occurs in `keys`.
pub open spec fn occurrences<K>(keys: Seq<K>, key: K) -> nat
    decreases keys.len(),
{
    if keys.len() == 0 {
        0
    } else if keys.last() == key {
        occurrences(keys.drop_last(), key) + 1
    } else {
        occurrences(keys.drop_last(), key)
    }
}

/// A key occurs as often as there are places that hold it.
pub proof fn law_occurrences_are_places<K>(keys: Seq<K>, key: K, places: Set<int>)
    requires
        forall|i: int| #[trigger] places.contains(i) <==> 0 <= i < keys.len() && keys[i] == key,
    ensures
        places.finite(),
        occurrences(keys, key) == places.len(),
    decreases keys.len(),
{
    if keys.len() == 0 {
        assert(places =~= Set::empty());
    } else {
        let n = keys.len() - 1;
        let shorter = keys.drop_last();
        let rest = places.remove(n);
        assert forall|i: int| #[trigger] rest.contains(i) <==> 0 <= i < shorter.len() && shorter[i]
            == key by {
            assert(places.contains(i) <==> 0 <= i < keys.len() && keys[i] == key);
        }
        law_occurrences_are_places(shorter, key, rest);
        if places.contains(n) {
            assert(places =~= rest.insert(n));
        } else {
            assert(places =~= rest);
        }
    }
}

/// The count of `key` in the rows of a table.
pub open spec fn count_in<K>(rows: Seq<(K, usize)>, key: K) -> nat
    decreases rows.len(),
{
    if rows.len() == 0 {
        0
    } else if rows.last().0 == key {
        rows.last().1 as nat
    } else {
        count_in(rows.drop_last(), key)
    }
}

/// Whether rows make a table: keys ascend, and no key is listed without having
/// been counted.
pub open spec fn is_table<K: CountKey>(rows: Seq<(K, usize)>) -> bool {
    &&& forall|i: int, j: int|
        0 <= i < j < rows.len() ==> (#[trigger] rows[i]).0.rank() < (#[trigger] rows[j]).0.rank()
    &&& forall|i: int| 0 <= i < rows.len() ==> (#[trigger] rows[i]).1 > 0
}

/// Whether a table holds how often each key occurs in `keys`.
pub open spec fn tallies<K: CountKey>(rows: Seq<(K, usize)>, keys: Seq<K>) -> bool {
    &&& is_table(rows)
    &&& forall|k: K| #[trigger] count_in(rows, k) == occurrences(keys, k)
}

proof fn lemma_count_at<K: CountKey>(rows: Seq<(K, usize)>, i: int)
    requires
        is_table(rows),
        0 <= i < rows.len(),
    ensures
        count_in(rows, rows[i].0) == rows[i].1,
    decreases rows.len(),
{
    if i < rows.len() - 1 {
        assert(rows[i].0.rank() < rows[rows.len() - 1].0.rank());
        let shorter = rows.drop_last();
        assert(shorter[i] == rows[i]);
        lemma_table_prefix(rows);
        lemma_count_at(shorter, i);
    }
}

proof fn lemma_table_prefix<K: CountKey>(rows: Seq<(K, usize)>)
    requires
        is_table(rows),
        rows.len() > 0,
    ensures
        is_table(rows.drop_last()),
{
    let shorter = rows.drop_last();
    assert forall|i: int, j: int| 0 <= i < j < shorter.len() implies (
    #[trigger] shorter[i]).0.rank() < (#[trigger] shorter[j]).0.rank() by {
        assert(shorter[i] == rows[i] && shorter[j] == rows[j]);
    }
    assert forall|i: int| 0 <= i < shorter.len() implies (#[trigger] shorter[i]).1 > 0 by {
        assert(shorter[i] == rows[i]);
    }
}

proof fn lemma_count_absent<K: CountKey>(rows: Seq<(K, usize)>, key: K)
    requires
        forall|i: int| 0 <= i < rows.len() ==> (#[trigger] rows[i]).0 != key,
    ensures
        count_in(rows, key) == 0,
    decreases rows.len(),
{
    if rows.len() > 0 {
        let shorter = rows.drop_last();
        assert(rows[rows.len() - 1].0 != key);
        assert forall|i: int| 0 <= i < shorter.len() implies (#[trigger] shorter[i]).0 != key by {
            assert(shorter[i] == rows[i]);
        }
        lemma_count_absent(shorter, key);
    }
}

/// Raising one row leaves the counts of the other keys unchanged.
proof fn lemma_count_updated<K: CountKey>(rows: Seq<(K, usize)>, i: int, count: usize, key: K)
    requires
        is_table(rows),
        0 <= i < rows.len(),
    ensures
        count_in(rows.update(i, (rows[i].0, count)), key) == if key == rows[i].0 {
            count as nat
        } else {
            count_in(rows, key)
        },
    decreases rows.len(),
{
    let after = rows.update(i, (rows[i].0, count));
    if i < rows.len() - 1 {
        assert(rows[i].0.rank() < rows[rows.len() - 1].0.rank());
        let shorter = rows.drop_last();
        lemma_table_prefix(rows);
        assert(shorter[i] == rows[i]);
        lemma_count_updated(shorter, i, count, key);
        assert(after.drop_last() =~= shorter.update(i, (shorter[i].0, count)));
    } else {
        assert(after.drop_last() =~= rows.drop_last());
    }
}

/// Inserting one row leaves the counts of the other keys unchanged.
proof fn lemma_count_inserted<K: CountKey>(rows: Seq<(K, usize)>, i: int, row: (K, usize), key: K)
    requires
        0 <= i <= rows.len(),
        forall|j: int| 0 <= j < rows.len() ==> (#[trigger] rows[j]).0 != row.0,
    ensures
        count_in(rows.insert(i, row), key) == if key == row.0 {
            row.1 as nat
        } else {
            count_in(rows, key)
        },
    decreases rows.len(),
{
    let after = rows.insert(i, row);
    if i == rows.len() {
        assert(after.drop_last() =~= rows);
    } else {
        let shorter = rows.drop_last();
        assert forall|j: int| 0 <= j < shorter.len() implies (#[trigger] shorter[j]).0
            != row.0 by {
            assert(shorter[j] == rows[j]);
        }
        lemma_count_inserted(shorter, i, row, key);
        assert(after.drop_last() =~= shorter.insert(i, row));
        assert(after.last() == rows.last());
        assert(rows[rows.len() - 1].0 != row.0);
    }
}

/// A table of counts.
#[derive(Debug)]
pub struct Counts<K: CountKey> {
    rows: Vec<(K, usize)>,
}

impl<K: CountKey> Counts<K> {
    /// The rows of the table, by ascending key.
    pub closed spec fn rows(&self) -> Seq<(K, usize)> {
        self.rows@
    }

    /// An empty table.
    pub fn new() -> (r: Self)
        ensures
            r.rows().len() == 0,
            tallies(r.rows(), Seq::empty()),
    {
        Counts { rows: Vec::new() }
    }

    /// The rows of the table, by ascending key.
    pub fn as_slice(&self) -> (r: &[(K, usize)])
        ensures
            r@ == self.rows(),
    {
        self.rows.as_slice()
    }

    /// The rows of the table, by ascending key.
    pub fn into_rows(self) -> (r: Vec<(K, usize)>)
        ensures
            r@ == self.rows(),
    {
        self.rows
    }

    /// Count one more occurrence of a key.
    pub fn add(&mut self, key: K)
        requires
            is_table(old(self).rows()),
            count_in(old(self).rows(), key) < usize::MAX,
        ensures
            is_table(final(self).rows()),
            forall|k: K|
                #[trigger] count_in(final(self).rows(), k) == count_in(old(self).rows(), k) + (
                if k == key {
                    1nat
                } else {
                    0nat
                }),
    {
        let ghost before = self.rows@;
        let n: usize = self.rows.len();
        let mut i: usize = 0;
        while i < n && self.rows[i].0.precedes(&key)
            invariant
                n == self.rows@.len(),
                self.rows@ == before,
                i <= n,
                forall|j: int| 0 <= j < i ==> (#[trigger] before[j]).0.rank() < key.rank(),
            ensures
                self.rows@ == before,
                i <= n,
                forall|j: int| 0 <= j < i ==> (#[trigger] before[j]).0.rank() < key.rank(),
                i < n ==> before[i as int].0.rank() >= key.rank(),
            decreases n - i,
        {
            i = i + 1;
        }
        if i < n && !key.precedes(&self.rows[i].0) {
            proof {
                K::rank_is_injective(before[i as int].0, key);
                lemma_count_at(before, i as int);
            }
            let count: usize = self.rows[i].1 + 1;
            self.rows.set(i, (key.copied(), count));
            proof {
                assert forall|k: K| #[trigger] count_in(self.rows@, k) == count_in(before, k) + (
                if k == key {
                    1nat
                } else {
                    0nat
                }) by {
                    lemma_count_updated(before, i as int, count, k);
                }
                assert(is_table(self.rows@));
            }
        } else {
            proof {
                assert forall|j: int| 0 <= j < n implies (#[trigger] before[j]).0 != key by {
                    if j > i {
                        assert(before[i as int].0.rank() < before[j].0.rank());
                    }
                }
                lemma_count_absent(before, key);
            }
            self.rows.insert(i, (key.copied(), 1));
            proof {
                let after = before.insert(i as int, (key, 1usize));
                assert(self.rows@ =~= after);
                assert forall|k: K| #[trigger] count_in(self.rows@, k) == count_in(before, k) + (
                if k == key {
                    1nat
                } else {
                    0nat
                }) by {
                    lemma_count_inserted(before, i as int, (key, 1usize), k);
                }
                assert forall|a: int, b: int| 0 <= a < b < after.len() implies (
                #[trigger] after[a]).0.rank() < (#[trigger] after[b]).0.rank() by {
                    if a < i && b < i {
                        assert(after[a] == before[a] && after[b] == before[b]);
                    } else if a < i && b == i {
                        assert(after[a] == before[a]);
                    } else if a < i {
                        assert(after[a] == before[a] && after[b] == before[b - 1]);
                    } else if a == i {
                        assert(after[b] == before[b - 1]);
                        if b - 1 > i {
                            assert(before[i as int].0.rank() < before[b - 1].0.rank());
                        }
                    } else {
                        assert(after[a] == before[a - 1] && after[b] == before[b - 1]);
                    }
                }
                assert forall|a: int| 0 <= a < after.len() implies (#[trigger] after[a]).1 > 0 by {
                    if a < i {
                        assert(after[a] == before[a]);
                    } else if a > i {
                        assert(after[a] == before[a - 1]);
                    }
                }
            }
        }
    }
}

/// Counting one more key extends what a table tallies.
pub proof fn lemma_tally_grows<K: CountKey>(
    before: Seq<(K, usize)>,
    after: Seq<(K, usize)>,
    keys: Seq<K>,
    key: K,
)
    requires
        tallies(before, keys),
        is_table(after),
        forall|k: K|
            #[trigger] count_in(after, k) == count_in(before, k) + (if k == key {
                1nat
            } else {
                0nat
            }),
    ensures
        tallies(after, keys.push(key)),
{
    assert(keys.push(key).drop_last() =~= keys);
    assert forall|k: K| #[trigger] count_in(after, k) == occurrences(keys.push(key), k) by {
        assert(count_in(before, k) == occurrences(keys, k));
    }
}

/// A key occurs at most as often as there are keys.
pub proof fn lemma_occurrences_bound<K>(keys: Seq<K>, key: K)
    ensures
        occurrences(keys, key) <= keys.len(),
    decreases keys.len(),
{
    if keys.len() > 0 {
        lemma_occurrences_bound(keys.drop_last(), key);
    }
}

/// What a table says of a key: the count of its row, or 0 where it has none.
pub proof fn law_count_is_that_of_the_row<K: CountKey>(rows: Seq<(K, usize)>, key: K, i: int)
    requires
        forall|a: int, b: int|
            0 <= a < b < rows.len() ==> (#[trigger] rows[a]).0.rank() < (
            #[trigger] rows[b]).0.rank(),
        forall|a: int| 0 <= a < rows.len() ==> (#[trigger] rows[a]).1 > 0,
    ensures
        is_table(rows),
        0 <= i < rows.len() ==> count_in(rows, rows[i].0) == rows[i].1,
        (forall|a: int| 0 <= a < rows.len() ==> (#[trigger] rows[a]).0 != key) ==> count_in(
            rows,
            key,
        ) == 0,
{
    assert(is_table(rows));
    if 0 <= i < rows.len() {
        lemma_count_at(rows, i);
    }
    if forall|a: int| 0 <= a < rows.len() ==> (#[trigger] rows[a]).0 != key {
        lemma_count_absent(rows, key);
    }
}

/// A table lists every key that occurs, once and in ascending order, with the
/// number of its occurrences, and no other key.
pub proof fn law_table_lists_what_occurs<K: CountKey>(rows: Seq<(K, usize)>, keys: Seq<K>)
    requires
        tallies(rows, keys),
    ensures
        forall|i: int, j: int|
            0 <= i < j < rows.len() ==> (#[trigger] rows[i]).0.rank() < (
            #[trigger] rows[j]).0.rank(),
        forall|i: int|
            0 <= i < rows.len() ==> (#[trigger] rows[i]).1 == occurrences(keys, rows[i].0)
                && rows[i].1 > 0,
        forall|key: K| #[trigger]
            keys.contains(key) ==> exists|i: int|
                0 <= i < rows.len() && (#[trigger] rows[i]).0 == key,
{
    assert forall|i: int| 0 <= i < rows.len() implies (#[trigger] rows[i]).1 == occurrences(
        keys,
        rows[i].0,
    ) && rows[i].1 > 0 by {
        lemma_count_at(rows, i);
        assert(count_in(rows, rows[i].0) == occurrences(keys, rows[i].0));
    }
    assert forall|key: K| #[trigger] keys.contains(key) implies exists|i: int|
        0 <= i < rows.len() && (#[trigger] rows[i]).0 == key by {
        let k = choose|k: int| 0 <= k < keys.len() && keys[k] == key;
        lemma_occurs(keys, k);
        assert(count_in(rows, key) == occurrences(keys, key));
        if forall|i: int| 0 <= i < rows.len() ==> (#[trigger] rows[i]).0 != key {
            lemma_count_absent(rows, key);
        }
    }
}

proof fn lemma_occurs<K>(keys: Seq<K>, k: int)
    requires
        0 <= k < keys.len(),
    ensures
        occurrences(keys, keys[k]) > 0,
    decreases keys.len(),
{
    if k < keys.len() - 1 {
        assert(keys.drop_last()[k] == keys[k]);
        lemma_occurs(keys.drop_last(), k);
    }
}

/// A table is fixed by its counts: two tables with the same counts have the same
/// rows.
pub proof fn law_counts_fix_table<K: CountKey>(a: Seq<(K, usize)>, b: Seq<(K, usize)>)
    requires
        is_table(a),
        is_table(b),
        forall|k: K| #[trigger] count_in(a, k) == count_in(b, k),
    ensures
        a == b,
    decreases a.len(),
{
    if a.len() == 0 {
        if b.len() > 0 {
            lemma_count_at(b, b.len() - 1);
            assert(count_in(a, b.last().0) == 0);
        }
    } else {
        lemma_last_row(a, b);
        lemma_last_row(b, a);
        lemma_table_prefix(a);
        lemma_table_prefix(b);
        let (x, y) = (a.drop_last(), b.drop_last());
        K::rank_is_injective(a.last().0, b.last().0);
        lemma_count_at(a, a.len() - 1);
        lemma_count_at(b, b.len() - 1);
        assert(count_in(a, a.last().0) == count_in(b, a.last().0));
        assert forall|k: K| #[trigger] count_in(x, k) == count_in(y, k) by {
            if k == a.last().0 {
                assert forall|i: int| 0 <= i < x.len() implies (#[trigger] x[i]).0 != k by {
                    assert(a[i].0.rank() < a[a.len() - 1].0.rank());
                }
                assert forall|i: int| 0 <= i < y.len() implies (#[trigger] y[i]).0 != k by {
                    assert(b[i].0.rank() < b[b.len() - 1].0.rank());
                }
                lemma_count_absent(x, k);
                lemma_count_absent(y, k);
            } else {
                assert(count_in(a, k) == count_in(b, k));
            }
        }
        law_counts_fix_table(x, y);
        assert(a =~= x.push(a.last()));
        assert(b =~= y.push(b.last()));
    }
}

/// The rows of the table of how often each key occurs in `keys`.
pub open spec fn table_of<K: CountKey>(keys: Seq<K>) -> Seq<(K, usize)> {
    choose|rows: Seq<(K, usize)>| #[trigger] tallies(rows, keys)
}

/// Any table that tallies keys is the table of these keys.
pub proof fn lemma_table_of<K: CountKey>(rows: Seq<(K, usize)>, keys: Seq<K>)
    requires
        tallies(rows, keys),
    ensures
        rows == table_of(keys),
{
    let table = table_of(keys);
    assert(tallies(table, keys));
    assert forall|k: K| #[trigger] count_in(rows, k) == count_in(table, k) by {
        assert(count_in(rows, k) == occurrences(keys, k));
        assert(count_in(table, k) == occurrences(keys, k));
    }
    law_counts_fix_table(rows, table);
}

/// The table of keys is the only one that tallies them.
pub proof fn law_table_of_keys<K: CountKey>(rows: Seq<(K, usize)>, keys: Seq<K>)
    requires
        tallies(rows, keys),
    ensures
        table_of(keys) == rows,
{
    lemma_table_of(rows, keys);
}

proof fn lemma_last_row<K: CountKey>(a: Seq<(K, usize)>, b: Seq<(K, usize)>)
    requires
        is_table(a),
        is_table(b),
        a.len() > 0,
        forall|k: K| #[trigger] count_in(a, k) == count_in(b, k),
    ensures
        b.len() > 0,
        a.last().0.rank() <= b.last().0.rank(),
{
    let k = a.last().0;
    lemma_count_at(a, a.len() - 1);
    assert(count_in(a, k) == count_in(b, k));
    if forall|i: int| 0 <= i < b.len() ==> (#[trigger] b[i]).0 != k {
        lemma_count_absent(b, k);
    }
    let i = choose|i: int| 0 <= i < b.len() && (#[trigger] b[i]).0 == k;
    if i < b.len() - 1 {
        assert(b[i].0.rank() < b[b.len() - 1].0.rank());
    }
}

// ---------------------------------------------------------------------------
// Texts
// ---------------------------------------------------------------------------
/// The text of a row, such as `5×12`.
pub open spec fn row_text<K: CountKey>(row: (K, usize)) -> Seq<char> {
    row.0.text() + "×"@ + decimal(row.1 as nat)
}

/// The texts of rows.
pub open spec fn row_texts<K: CountKey>(rows: Seq<(K, usize)>) -> Seq<Seq<char>> {
    Seq::new(rows.len(), |i: int| row_text(rows[i]))
}

/// A row is written as its key, a multiplication sign and its count, and rows are
/// written one by one.
pub proof fn law_rows_are_written<K: CountKey>(rows: Seq<(K, usize)>, i: int)
    requires
        0 <= i < rows.len(),
    ensures
        row_texts(rows).len() == rows.len(),
        row_texts(rows)[i] == rows[i].0.text() + seq!['×'] + decimal(rows[i].1 as nat),
        row_text(rows[i]) == row_texts(rows)[i],
{
    reveal_strlit("×");
    assert("×"@ =~= seq!['×']);
}

/// The text of a row.
pub fn show_row<K: CountKey>(row: &(K, usize)) -> (r: String)
    ensures
        r@ == row_text(*row),
{
    let mut s = row.0.show();
    s.append("×");
    s.append(show_usize(row.1).as_str());
    s
}

fn show_rows<K: CountKey>(rows: &[(K, usize)]) -> (r: Vec<String>)
    ensures
        texts(r@) == row_texts(rows@),
{
    let n: usize = rows.len();
    let mut out: Vec<String> = Vec::new();
    for i in 0..n
        invariant
            n == rows@.len(),
            out@.len() == i,
            forall|j: int| 0 <= j < i ==> (#[trigger] out@[j])@ == row_text(rows@[j]),
    {
        out.push(show_row(&rows[i]));
    }
    assert(texts(out@) =~= row_texts(rows@));
    out
}

/// All counts of a table, by ascending key.
pub fn format_counts<K: CountKey>(rows: &[(K, usize)]) -> (r: String)
    ensures
        r@ == join(row_texts(rows@), " "@),
{
    join_strings(&show_rows(rows), " ")
}

/// Whether row `a` stands before row `b` in a ranking: the higher count first,
/// and the smaller key where counts are equal.
pub open spec fn outranks<K: CountKey>(a: (K, usize), b: (K, usize)) -> bool {
    a.1 > b.1 || (a.1 == b.1 && a.0.rank() < b.0.rank())
}

/// Whether `ranking` lists rows in ranking order.
pub open spec fn is_ranked<K: CountKey>(ranking: Seq<(K, usize)>) -> bool {
    forall|i: int, j: int|
        0 <= i < j < ranking.len() ==> outranks(#[trigger] ranking[i], #[trigger] ranking[j])
}

/// The rows of a table in ranking order.
pub open spec fn ranking_of<K: CountKey>(rows: Seq<(K, usize)>) -> Seq<(K, usize)> {
    choose|ranking: Seq<(K, usize)>|
        #[trigger] is_ranked(ranking) && ranking.to_multiset() == rows.to_multiset()
}

/// A ranking puts higher counts first, and among equal counts the smaller key.
pub proof fn law_ranking_is_by_count<K: CountKey>(ranking: Seq<(K, usize)>, i: int, j: int)
    requires
        is_ranked(ranking),
        0 <= i < j < ranking.len(),
    ensures
        ranking[i].1 >= ranking[j].1,
        ranking[i].1 == ranking[j].1 ==> ranking[i].0.rank() < ranking[j].0.rank(),
{
    assert(outranks(ranking[i], ranking[j]));
}

/// Where a row belongs in a ranking.
fn ranked_place<K: CountKey>(ranking: &Vec<(K, usize)>, row: &(K, usize)) -> (r: usize)
    requires
        is_ranked(ranking@),
    ensures
        r <= ranking@.len(),
        forall|j: int| 0 <= j < r ==> outranks(#[trigger] ranking@[j], *row),
        forall|j: int| r <= j < ranking@.len() ==> !outranks(#[trigger] ranking@[j], *row),
{
    let n: usize = ranking.len();
    let mut i: usize = 0;
    while i < n && (ranking[i].1 > row.1 || (ranking[i].1 == row.1 && ranking[i].0.precedes(
        &row.0,
    )))
        invariant
            n == ranking@.len(),
            is_ranked(ranking@),
            i <= n,
            forall|j: int| 0 <= j < i ==> outranks(#[trigger] ranking@[j], *row),
        ensures
            i <= n,
            forall|j: int| 0 <= j < i ==> outranks(#[trigger] ranking@[j], *row),
            i < n ==> !outranks(ranking@[i as int], *row),
        decreases n - i,
    {
        i = i + 1;
    }
    assert forall|j: int| i <= j < n implies !outranks(#[trigger] ranking@[j], *row) by {
        if j > i {
            assert(outranks(ranking@[i as int], ranking@[j]));
        }
    }
    i
}

/// The rows of a table, ranked.
pub fn rank_rows<K: CountKey>(rows: &[(K, usize)]) -> (r: Vec<(K, usize)>)
    requires
        is_table(rows@),
    ensures
        is_ranked(r@),
        r@.to_multiset() == rows@.to_multiset(),
        r@ == ranking_of(rows@),
{
    let n: usize = rows.len();
    let mut ranking: Vec<(K, usize)> = Vec::new();
    assert(rows@.take(0) =~= ranking@);
    for i in 0..n
        invariant
            n == rows@.len(),
            is_table(rows@),
            is_ranked(ranking@),
            ranking@.to_multiset() == rows@.take(i as int).to_multiset(),
    {
        broadcast use vstd::seq_lib::group_to_multiset_ensures;

        let row = (rows[i].0.copied(), rows[i].1);
        let place: usize = ranked_place(&ranking, &row);
        let ghost before = ranking@;
        ranking.insert(place, row);
        proof {
            let after = before.insert(place as int, row);
            assert(ranking@ =~= after);
            let part = rows@.take(i as int);
            assert(rows@.take(i + 1) =~= part.push(row));
            lemma_insert_count(before, place as int, row);
            assert forall|a: int, b: int| 0 <= a < b < after.len() implies outranks(
                #[trigger] after[a],
                #[trigger] after[b],
            ) by {
                if b < place {
                    assert(after[a] == before[a] && after[b] == before[b]);
                } else if b == place {
                    assert(after[a] == before[a]);
                } else {
                    assert(after[b] == before[b - 1]);
                    lemma_member_differs(rows@, i as int, before, b - 1);
                    if a < place {
                        assert(after[a] == before[a]);
                    } else if a > place {
                        assert(after[a] == before[a - 1]);
                    }
                }
            }
        }
    }
    assert(rows@.take(n as int) =~= rows@);
    proof {
        law_ranking_is_unique(ranking@, ranking_of(rows@));
    }
    ranking
}

/// Inserting an item anywhere adds it to what a sequence holds.
pub proof fn lemma_insert_count<T>(items: Seq<T>, p: int, item: T)
    requires
        0 <= p <= items.len(),
    ensures
        items.insert(p, item).to_multiset() == items.to_multiset().insert(item),
{
    broadcast use vstd::seq_lib::group_to_multiset_ensures;

    let whole = items.insert(p, item);
    assert(whole.remove(p) =~= items);
    assert(whole[p] == item);
    assert(whole.to_multiset().remove(item) =~= items.to_multiset());
    assert(whole.contains(item));
    assert(whole.to_multiset().count(item) > 0);
    assert(whole.to_multiset() =~= items.to_multiset().insert(item));
}

/// A row that was ranked before row `i` has another key.
proof fn lemma_member_differs<K: CountKey>(
    rows: Seq<(K, usize)>,
    i: int,
    ranking: Seq<(K, usize)>,
    j: int,
)
    requires
        is_table(rows),
        0 <= i < rows.len(),
        0 <= j < ranking.len(),
        ranking.to_multiset() == rows.take(i).to_multiset(),
    ensures
        ranking[j].0.rank() < rows[i].0.rank(),
{
    broadcast use vstd::seq_lib::group_to_multiset_ensures;

    assert(ranking.contains(ranking[j]));
    assert(ranking.to_multiset().count(ranking[j]) > 0);
    assert(rows.take(i).contains(ranking[j]));
    let k = choose|k: int| 0 <= k < i && rows.take(i)[k] == ranking[j];
    assert(rows[k] == ranking[j]);
}

/// Number of rows of a ranking that are listed.
pub open spec fn listed(len: nat, top: nat) -> int {
    if top < len {
        top as int
    } else {
        len as int
    }
}

/// The text of the first `top` rows of a ranking.
pub open spec fn top_text<K: CountKey>(ranking: Seq<(K, usize)>, top: nat) -> Seq<char> {
    let n = listed(ranking.len(), top);
    if n == 0 {
        "-"@
    } else {
        join(row_texts(ranking.take(n)), ", "@)
    }
}

/// Of a ranking the first `top` rows are told, or all if there are fewer; where
/// there is nothing to tell, a dash.
pub proof fn law_top_of_a_ranking<K: CountKey>(ranking: Seq<(K, usize)>, top: nat)
    ensures
        top == 0 || ranking.len() == 0 ==> top_text(ranking, top) == seq!['-'],
        0 < top <= ranking.len() ==> top_text(ranking, top) == join(
            row_texts(ranking.take(top as int)),
            seq![',', ' '],
        ),
        ranking.len() > 0 && top > ranking.len() ==> top_text(ranking, top) == join(
            row_texts(ranking),
            seq![',', ' '],
        ),
{
    reveal_strlit("-");
    reveal_strlit(", ");
    assert("-"@ =~= seq!['-']);
    assert(", "@ =~= seq![',', ' ']);
    assert(ranking.take(ranking.len() as int) =~= ranking);
}

/// The highest counts of a table, smaller keys first where counts are equal.
pub fn format_top_counts<K: CountKey>(rows: &[(K, usize)], top: usize) -> (r: String)
    requires
        is_table(rows@),
    ensures
        r@ == top_text(ranking_of(rows@), top as nat),
{
    let mut ranking = rank_rows(rows);
    let ghost all = ranking@;
    let n: usize = if top < ranking.len() {
        top
    } else {
        ranking.len()
    };
    if n == 0 {
        String::from_str("-")
    } else {
        ranking.truncate(n);
        assert(ranking@ =~= all.take(n as int));
        join_strings(&show_rows(&ranking), ", ")
    }
}

/// A ranking is fixed by its rows: two rankings of the same rows are equal.
pub proof fn law_ranking_is_unique<K: CountKey>(a: Seq<(K, usize)>, b: Seq<(K, usize)>)
    requires
        is_ranked(a),
        is_ranked(b),
        a.to_multiset() == b.to_multiset(),
    ensures
        a == b,
    decreases a.len(),
{
    broadcast use vstd::seq_lib::group_to_multiset_ensures;

    a.to_multiset_ensures();
    b.to_multiset_ensures();
    assert(a.len() == b.len());
    if a.len() > 0 {
        let n = a.len() - 1;
        let (x, y) = (a.drop_last(), b.drop_last());
        assert(a.contains(a[n]) && b.contains(b[n]));
        assert(b.to_multiset().count(a[n]) > 0 && a.to_multiset().count(b[n]) > 0);
        assert(b.contains(a[n]) && a.contains(b[n]));
        let i = choose|i: int| 0 <= i < b.len() && b[i] == a[n];
        let j = choose|j: int| 0 <= j < a.len() && a[j] == b[n];
        if i < n && j < n {
            assert(outranks(b[i], b[n]));
            assert(outranks(a[j], a[n]));
        }
        assert(a[n] == b[n]);
        assert(a =~= x.push(a[n]) && b =~= y.push(b[n]));
        assert(x.to_multiset() =~= a.to_multiset().remove(a[n]));
        assert(y.to_multiset() =~= b.to_multiset().remove(b[n]));
        law_ranking_is_unique(x, y);
    }
}

/// The ranking of rows is the one list of them that is in ranking order.
pub proof fn law_ranking_of_rows<K: CountKey>(ranking: Seq<(K, usize)>, rows: Seq<(K, usize)>)
    requires
        is_ranked(ranking),
        ranking.to_multiset() == rows.to_multiset(),
    ensures
        ranking_of(rows) == ranking,
{
    law_ranking_is_unique(ranking, ranking_of(rows));
}

} // verus!
