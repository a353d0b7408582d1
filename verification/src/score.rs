//! Comparing predictions with labels.

use vstd::prelude::*;

verus! {

/// Length of the overlap of two sequences.
pub open spec fn overlap<T>(a: Seq<T>, b: Seq<T>) -> nat {
    if a.len() < b.len() {
        a.len()
    } else {
        b.len()
    }
}

/// Length of the longer of two sequences.
pub open spec fn longer<T>(a: Seq<T>, b: Seq<T>) -> nat {
    if a.len() < b.len() {
        b.len()
    } else {
        a.len()
    }
}

/// How many of the first `n` positions hold the same.
pub open spec fn matched_before<T>(a: Seq<T>, b: Seq<T>, n: nat) -> nat
    decreases n,
{
    if n == 0 {
        0
    } else {
        matched_before(a, b, (n - 1) as nat) + if a[n - 1] == b[n - 1] {
            1nat
        } else {
            0nat
        }
    }
}

/// How many positions of the overlap hold the same.
pub open spec fn matched<T>(a: Seq<T>, b: Seq<T>) -> nat {
    matched_before(a, b, overlap(a, b))
}

/// Matches are counted over the overlap, and a prediction matches everywhere
/// exactly when it is the label.
pub proof fn law_full_match_is_equality<T>(a: Seq<T>, b: Seq<T>)
    ensures
        matched(a, b) <= overlap(a, b) <= longer(a, b),
        matched(a, b) == longer(a, b) <==> a == b,
{
    lemma_matched_before(a, b, overlap(a, b));
    if matched(a, b) == longer(a, b) {
        assert(a =~= b);
    }
}

proof fn lemma_matched_before<T>(a: Seq<T>, b: Seq<T>, n: nat)
    requires
        n <= overlap(a, b),
    ensures
        matched_before(a, b, n) <= n,
        matched_before(a, b, n) == n <==> forall|i: int| 0 <= i < n ==> a[i] == b[i],
    decreases n,
{
    if n > 0 {
        lemma_matched_before(a, b, (n - 1) as nat);
        if matched_before(a, b, n) == n {
            assert(forall|i: int| 0 <= i < n - 1 ==> a[i] == b[i]);
            assert(a[n - 1] == b[n - 1]);
        } else if forall|i: int| 0 <= i < n ==> a[i] == b[i] {
            assert(a[n - 1] == b[n - 1]);
        }
    }
}

/// What is counted as matching: the positions that both sequences have and at
/// which they hold the same.
pub proof fn law_matches_are_positions<T>(a: Seq<T>, b: Seq<T>, places: Set<int>)
    requires
        forall|i: int| #[trigger]
            places.contains(i) <==> 0 <= i < a.len() && i < b.len() && a[i] == b[i],
    ensures
        places.finite(),
        matched(a, b) == places.len(),
        overlap(a, b) <= a.len() && overlap(a, b) <= b.len(),
        overlap(a, b) == a.len() || overlap(a, b) == b.len(),
        longer(a, b) >= a.len() && longer(a, b) >= b.len(),
        longer(a, b) == a.len() || longer(a, b) == b.len(),
{
    lemma_matched_positions(a, b, overlap(a, b), places);
}

proof fn lemma_matched_positions<T>(a: Seq<T>, b: Seq<T>, n: nat, places: Set<int>)
    requires
        forall|i: int| #[trigger] places.contains(i) <==> 0 <= i < n && a[i] == b[i],
    ensures
        places.finite(),
        matched_before(a, b, n) == places.len(),
    decreases n,
{
    if n == 0 {
        assert(places =~= Set::empty());
    } else {
        let rest = places.remove(n - 1);
        lemma_matched_positions(a, b, (n - 1) as nat, rest);
        if places.contains(n - 1) {
            assert(places =~= rest.insert(n - 1));
        } else {
            assert(places =~= rest);
        }
    }
}

/// Positions are compared one by one: equal elements at the end of two equally
/// long sequences are one more match, different ones none, and what only one of
/// the sequences has is not compared.
pub proof fn law_matches_add_up<T>(a: Seq<T>, b: Seq<T>, x: T, y: T, rest: Seq<T>)
    requires
        a.len() == b.len(),
    ensures
        matched(a.push(x), b.push(y)) == matched(a, b) + if x == y {
            1nat
        } else {
            0nat
        },
        matched(a + rest, b) == matched(a, b),
        matched(a, b + rest) == matched(a, b),
        matched(Seq::<T>::empty(), b) == 0,
        matched(a, b) == matched(b, a),
{
    let n = a.len();
    lemma_matched_prefix(a, b, a.push(x), b.push(y), n);
    lemma_matched_prefix(a, b, a + rest, b, n);
    lemma_matched_prefix(a, b, a, b + rest, n);
    lemma_matched_prefix(a, b, b, a, n);
}

proof fn lemma_matched_prefix<T>(a: Seq<T>, b: Seq<T>, c: Seq<T>, d: Seq<T>, n: nat)
    requires
        forall|i: int| 0 <= i < n ==> (a[i] == b[i] <==> #[trigger] c[i] == d[i]),
    ensures
        matched_before(a, b, n) == matched_before(c, d, n),
    decreases n,
{
    if n > 0 {
        lemma_matched_prefix(a, b, c, d, (n - 1) as nat);
        assert(a[n - 1] == b[n - 1] <==> c[n - 1] == d[n - 1]);
    }
}

/// Counts the positions at which two class sequences hold the same.
pub fn matched_classes(a: &[usize], b: &[usize]) -> (r: usize)
    ensures
        r == matched(a@, b@),
        r <= overlap(a@, b@),
{
    let n: usize = if a.len() < b.len() {
        a.len()
    } else {
        b.len()
    };
    let mut count: usize = 0;
    for i in 0..n
        invariant
            n == overlap(a@, b@),
            count == matched_before(a@, b@, i as nat),
            count <= i,
    {
        if a[i] == b[i] {
            count = count + 1;
        }
    }
    count
}

/// Counts the positions at which two texts hold the same.
pub fn matched_chars(a: &[char], b: &[char]) -> (r: usize)
    ensures
        r == matched(a@, b@),
        r <= overlap(a@, b@),
{
    let n: usize = if a.len() < b.len() {
        a.len()
    } else {
        b.len()
    };
    let mut count: usize = 0;
    for i in 0..n
        invariant
            n == overlap(a@, b@),
            count == matched_before(a@, b@, i as nat),
            count <= i,
    {
        if a[i] == b[i] {
            count = count + 1;
        }
    }
    count
}

} // verus!
