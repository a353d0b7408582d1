//! From per-step class indices to class-index sequences.
//!
//! The network hands over the most likely class of every output step as one
//! flat list; the functions here cut the list into one sequence per example.

use vstd::prelude::*;

verus! {

// ---------------------------------------------------------------------------
// CTC
// ---------------------------------------------------------------------------
/// What a sequence of per-step classes reads as: runs of one class collapse to
/// a single class, and the blank is dropped.
pub open spec fn ctc_collapse(steps: Seq<usize>, blank: usize) -> Seq<usize>
    decreases steps.len(),
{
    if steps.len() == 0 {
        Seq::empty()
    } else {
        let read = ctc_collapse(steps.drop_last(), blank);
        let class = steps.last();
        if class != blank && (steps.len() == 1 || steps[steps.len() - 2] != class) {
            read.push(class)
        } else {
            read
        }
    }
}

/// The steps of example `b` in a row-major `[time, batch]` list.
pub open spec fn time_column(flat: Seq<usize>, time: nat, batch: nat, b: int) -> Seq<usize> {
    Seq::new(time, |t: int| flat[t * batch + b])
}

/// Reads one example of a time-major list.
fn decode_column(flat: &[usize], time: usize, batch: usize, blank: usize, b: usize) -> (r: Vec<
    usize,
>)
    requires
        flat@.len() == time * batch,
        b < batch,
    ensures
        r@ == ctc_collapse(time_column(flat@, time as nat, batch as nat, b as int), blank),
{
    let ghost column = time_column(flat@, time as nat, batch as nat, b as int);
    let n: usize = flat.len();
    let mut seq: Vec<usize> = Vec::new();
    let mut prev: Option<usize> = None;
    assert(column.take(0) =~= Seq::empty());
    for t in 0..time
        invariant
            n == flat@.len(),
            n == time * batch,
            b < batch,
            column == time_column(flat@, time as nat, batch as nat, b as int),
            seq@ == ctc_collapse(column.take(t as int), blank),
            prev == if t == 0 {
                None
            } else {
                Some(column[t - 1])
            },
    {
        assert(t * batch + b < time * batch) by (nonlinear_arith)
            requires
                t < time,
                b < batch,
        ;
        assert(0 <= t * batch) by (nonlinear_arith)
            requires
                0 <= t,
                0 <= batch,
        ;
        let class: usize = flat[t * batch + b];
        let repeated = match prev {
            Some(p) => p == class,
            None => false,
        };
        if !repeated && class != blank {
            seq.push(class);
        }
        prev = Some(class);
        proof {
            let next = column.take(t + 1);
            assert(next.drop_last() =~= column.take(t as int));
            assert(next.last() == class);
        }
    }
    assert(column.take(time as int) =~= column);
    seq
}

/// Greedy CTC decode: per batch element, collapse repeated classes and drop the
/// blank, returning the predicted class-index sequence. `flat` holds the most
/// likely class of each step, row-major `[time, batch]`.
pub fn greedy_decode_indices(flat: &[usize], time: usize, batch: usize, blank: usize) -> (r: Vec<
    Vec<usize>,
>)
    requires
        flat@.len() == time * batch,
    ensures
        r@.len() == batch,
        forall|b: int|
            0 <= b < batch ==> (#[trigger] r@[b])@ == ctc_collapse(
                time_column(flat@, time as nat, batch as nat, b),
                blank,
            ),
{
    let mut out: Vec<Vec<usize>> = Vec::new();
    for b in 0..batch
        invariant
            flat@.len() == time * batch,
            out@.len() == b,
            forall|k: int|
                0 <= k < b ==> (#[trigger] out@[k])@ == ctc_collapse(
                    time_column(flat@, time as nat, batch as nat, k),
                    blank,
                ),
    {
        out.push(decode_column(flat, time, batch, blank, b));
    }
    out
}

/// A decoded sequence never holds the blank.
pub proof fn law_ctc_drops_blank(steps: Seq<usize>, blank: usize)
    ensures
        !ctc_collapse(steps, blank).contains(blank),
    decreases steps.len(),
{
    if steps.len() > 0 {
        law_ctc_drops_blank(steps.drop_last(), blank);
        let read = ctc_collapse(steps.drop_last(), blank);
        let class = steps.last();
        if ctc_collapse(steps, blank).contains(blank) && class != blank {
            let i = choose|i: int|
                0 <= i < ctc_collapse(steps, blank).len() && ctc_collapse(steps, blank)[i] == blank;
            assert(i < read.len());
            assert(read[i] == blank);
        }
    }
}

/// What follows a prefix is read in the same way after any prefix that reads
/// alike and ends in the same class.
proof fn lemma_same_tail(a: Seq<usize>, b: Seq<usize>, tail: Seq<usize>, blank: usize)
    requires
        a.len() > 0,
        b.len() > 0,
        a.last() == b.last(),
        ctc_collapse(a, blank) == ctc_collapse(b, blank),
    ensures
        ctc_collapse(a + tail, blank) == ctc_collapse(b + tail, blank),
    decreases tail.len(),
{
    if tail.len() == 0 {
        assert(a + tail =~= a);
        assert(b + tail =~= b);
    } else {
        lemma_same_tail(a, b, tail.drop_last(), blank);
        assert((a + tail).drop_last() =~= a + tail.drop_last());
        assert((b + tail).drop_last() =~= b + tail.drop_last());
        assert((a + tail).last() == tail.last());
        assert((b + tail).last() == tail.last());
    }
}

/// How long a class lasts does not matter: one more step of the same class
/// right after a step leaves the decoded sequence unchanged.
pub proof fn law_ctc_ignores_duration(steps: Seq<usize>, blank: usize, i: int)
    requires
        0 <= i < steps.len(),
    ensures
        ctc_collapse(steps.insert(i + 1, steps[i]), blank) == ctc_collapse(steps, blank),
{
    let head = steps.take(i + 1);
    let longer = head.push(steps[i]);
    let tail = steps.skip(i + 1);
    assert(longer.drop_last() =~= head);
    lemma_same_tail(longer, head, tail, blank);
    assert(head + tail =~= steps);
    assert(longer + tail =~= steps.insert(i + 1, steps[i]));
}

/// Blanks after the last step leave the decoded sequence unchanged.
pub proof fn law_ctc_ignores_trailing_blanks(steps: Seq<usize>, blank: usize, n: nat)
    ensures
        ctc_collapse(steps + Seq::new(n, |i: int| blank), blank) == ctc_collapse(steps, blank),
    decreases n,
{
    let pad = Seq::new(n, |i: int| blank);
    if n == 0 {
        assert(steps + pad =~= steps);
    } else {
        let shorter = Seq::new((n - 1) as nat, |i: int| blank);
        law_ctc_ignores_trailing_blanks(steps, blank, (n - 1) as nat);
        assert((steps + pad).drop_last() =~= steps + shorter);
        assert((steps + pad).last() == blank);
    }
}

/// Where the class changes, or where a blank ends the first part, two stretches
/// of steps are read independently of each other.
pub proof fn law_ctc_reads_stretches_apart(a: Seq<usize>, b: Seq<usize>, blank: usize)
    requires
        a.len() > 0 && b.len() > 0 ==> a.last() != b[0] || a.last() == blank,
    ensures
        ctc_collapse(a + b, blank) == ctc_collapse(a, blank) + ctc_collapse(b, blank),
    decreases b.len(),
{
    if b.len() == 0 {
        assert(a + b =~= a);
        assert(ctc_collapse(a, blank) + ctc_collapse(b, blank) =~= ctc_collapse(a, blank));
    } else {
        let shorter = b.drop_last();
        law_ctc_reads_stretches_apart(a, shorter, blank);
        assert((a + b).drop_last() =~= a + shorter);
        assert((a + b).last() == b.last());
        if b.len() == 1 {
            if a.len() > 0 {
                assert((a + b)[(a + b).len() - 2] == a.last());
            }
        } else {
            assert((a + b)[(a + b).len() - 2] == b[b.len() - 2]);
        }
        assert(ctc_collapse(a + b, blank) =~= ctc_collapse(a, blank) + ctc_collapse(b, blank));
    }
}

/// A run of one class, however long, reads as that class once, and a run of the
/// blank as nothing.
pub proof fn law_ctc_reads_a_run_once(class: usize, blank: usize, n: nat)
    requires
        n > 0,
    ensures
        ctc_collapse(Seq::new(n, |i: int| class), blank) == if class == blank {
            Seq::<usize>::empty()
        } else {
            seq![class]
        },
        ctc_collapse(Seq::<usize>::empty(), blank) == Seq::<usize>::empty(),
    decreases n,
{
    let run = Seq::new(n, |i: int| class);
    let shorter = Seq::new((n - 1) as nat, |i: int| class);
    assert(run.drop_last() =~= shorter);
    assert(run.last() == class);
    if n > 1 {
        law_ctc_reads_a_run_once(class, blank, (n - 1) as nat);
        assert(run[run.len() - 2] == class);
    } else {
        assert(shorter =~= Seq::empty());
        assert(ctc_collapse(shorter, blank) =~= Seq::empty());
        assert(Seq::<usize>::empty().push(class) =~= seq![class]);
    }
}

/// A blank separates what stands before it from what stands behind it and does
/// nothing else, wherever it stands.
pub proof fn law_ctc_blank_separates(a: Seq<usize>, b: Seq<usize>, blank: usize)
    ensures
        ctc_collapse(a + seq![blank] + b, blank) == ctc_collapse(a, blank) + ctc_collapse(b, blank),
        ctc_collapse(seq![blank] + b, blank) == ctc_collapse(b, blank),
{
    let gap = a + seq![blank];
    assert(gap.drop_last() =~= a);
    assert(ctc_collapse(gap, blank) == ctc_collapse(a, blank));
    law_ctc_reads_stretches_apart(gap, b, blank);
    let lone = seq![blank];
    assert(lone.drop_last() =~= Seq::empty());
    assert(ctc_collapse(lone.drop_last(), blank) =~= Seq::empty());
    assert(ctc_collapse(lone, blank) =~= Seq::empty());
    law_ctc_reads_stretches_apart(lone, b, blank);
    assert(Seq::<usize>::empty() + ctc_collapse(b, blank) =~= ctc_collapse(b, blank));
}

/// Every alignment of a label reads as that label: one step of each character
/// or more, any number of blanks before each character, and at least one blank
/// between two equal neighbours.
///
/// `lasts[i]` is the number of steps of character `i`, `gaps[i]` the number of
/// blanks before it, and `rest` the number of blanks at the end.
pub proof fn law_ctc_reads_every_alignment(
    label: Seq<usize>,
    lasts: Seq<nat>,
    gaps: Seq<nat>,
    rest: nat,
    blank: usize,
)
    requires
        lasts.len() == label.len(),
        gaps.len() == label.len(),
        !label.contains(blank),
        forall|i: int| 0 <= i < label.len() ==> #[trigger] lasts[i] > 0,
        forall|i: int| 0 < i < label.len() && label[i] == label[i - 1] ==> #[trigger] gaps[i] > 0,
    ensures
        ctc_collapse(
            aligned(label, lasts, gaps, blank) + Seq::new(rest, |i: int| blank),
            blank,
        ) == label,
{
    law_ctc_ignores_trailing_blanks(aligned(label, lasts, gaps, blank), blank, rest);
    lemma_aligned(label, lasts, gaps, blank);
}

/// The steps that spell `label` out: for each character its blanks, then its
/// steps.
pub open spec fn aligned(
    label: Seq<usize>,
    lasts: Seq<nat>,
    gaps: Seq<nat>,
    blank: usize,
) -> Seq<usize>
    decreases label.len(),
{
    if label.len() == 0 {
        Seq::empty()
    } else {
        aligned(label.drop_last(), lasts.drop_last(), gaps.drop_last(), blank) + Seq::new(
            gaps.last(),
            |i: int| blank,
        ) + Seq::new(lasts.last(), |i: int| label.last())
    }
}

proof fn lemma_aligned(label: Seq<usize>, lasts: Seq<nat>, gaps: Seq<nat>, blank: usize)
    requires
        lasts.len() == label.len(),
        gaps.len() == label.len(),
        !label.contains(blank),
        forall|i: int| 0 <= i < label.len() ==> #[trigger] lasts[i] > 0,
        forall|i: int| 0 < i < label.len() && label[i] == label[i - 1] ==> #[trigger] gaps[i] > 0,
    ensures
        ctc_collapse(aligned(label, lasts, gaps, blank), blank) == label,
        label.len() > 0 ==> aligned(label, lasts, gaps, blank).len() > 0,
        label.len() > 0 ==> aligned(label, lasts, gaps, blank).last() == label.last(),
    decreases label.len(),
{
    if label.len() > 0 {
        let n = label.len() - 1;
        let l = label.drop_last();
        assert(!l.contains(blank)) by {
            assert forall|i: int| 0 <= i < l.len() implies l[i] != blank by {
                assert(label.contains(label[i]));
            }
        }
        assert forall|i: int| 0 <= i < l.len() implies #[trigger] lasts.drop_last()[i] > 0 by {
            assert(lasts[i] > 0);
        }
        assert forall|i: int| 0 < i < l.len() && l[i] == l[i - 1] implies
            #[trigger] gaps.drop_last()[i] > 0 by {
            assert(gaps[i] > 0);
        }
        lemma_aligned(l, lasts.drop_last(), gaps.drop_last(), blank);
        let before = aligned(l, lasts.drop_last(), gaps.drop_last(), blank);
        let gap = Seq::new(gaps.last(), |i: int| blank);
        let run = Seq::new(lasts.last(), |i: int| label.last());
        assert(label.contains(label[n]));
        assert(lasts[n] > 0);
        assert(gaps[n] == gaps.last());
        law_ctc_ignores_trailing_blanks(before, blank, gaps.last());
        law_ctc_reads_a_run_once(label.last(), blank, lasts.last());
        let a = before + gap;
        if gaps.last() > 0 {
            assert(a.last() == blank);
        } else {
            assert(a =~= before);
            if n > 0 {
                assert(label[n] != label[n - 1]);
                assert(l.last() == label[n - 1]);
            }
        }
        law_ctc_reads_stretches_apart(a, run, blank);
        assert(l + seq![label.last()] =~= label);
    }
}

/// Each example is read from its own column: what column `b` of a time-major
/// list holds is all that its steps are.
pub proof fn law_columns_hold_examples(
    columns: Seq<Seq<usize>>,
    flat: Seq<usize>,
    time: nat,
    b: int,
)
    requires
        0 <= b < columns.len(),
        columns[b].len() == time,
        forall|t: int| 0 <= t < time ==> flat[t * columns.len() + b] == #[trigger] columns[b][t],
    ensures
        time_column(flat, time, columns.len(), b) == columns[b],
{
    assert(time_column(flat, time, columns.len(), b) =~= columns[b]);
}

/// Number of neighbours that are equal: each such pair needs a blank between
/// its two classes.
pub open spec fn repeats(label: Seq<usize>) -> nat
    decreases label.len(),
{
    if label.len() < 2 {
        0
    } else if label.last() == label[label.len() - 2] {
        repeats(label.drop_last()) + 1
    } else {
        repeats(label.drop_last())
    }
}

/// The shortest sequence of steps that reads as `label`.
pub open spec fn alignment(label: Seq<usize>, blank: usize) -> Seq<usize>
    decreases label.len(),
{
    if label.len() == 0 {
        Seq::empty()
    } else {
        let before = alignment(label.drop_last(), blank);
        if label.len() >= 2 && label.last() == label[label.len() - 2] {
            before.push(blank).push(label.last())
        } else {
            before.push(label.last())
        }
    }
}

/// Every label without blanks can be emitted, repeated characters included, in
/// as many steps as it has characters and equal neighbours.
pub proof fn law_ctc_reads_alignment(label: Seq<usize>, blank: usize)
    requires
        !label.contains(blank),
    ensures
        ctc_collapse(alignment(label, blank), blank) == label,
        alignment(label, blank).len() == label.len() + repeats(label),
        label.len() > 0 ==> alignment(label, blank).last() == label.last(),
    decreases label.len(),
{
    if label.len() > 0 {
        let shorter = label.drop_last();
        let before = alignment(shorter, blank);
        assert(!shorter.contains(blank)) by {
            assert forall|i: int| 0 <= i < shorter.len() implies shorter[i] != blank by {
                assert(label.contains(label[i]));
            }
        }
        law_ctc_reads_alignment(shorter, blank);
        assert(label.contains(label.last()));
        assert(shorter.push(label.last()) =~= label);
        if label.len() >= 2 && label.last() == label[label.len() - 2] {
            let gap = before.push(blank);
            assert(gap.drop_last() =~= before);
            let whole = gap.push(label.last());
            assert(whole.drop_last() =~= gap);
            assert(whole[whole.len() - 2] == blank);
            assert(ctc_collapse(gap, blank) == shorter);
            assert(ctc_collapse(whole, blank) == shorter.push(label.last()));
        } else {
            let whole = before.push(label.last());
            assert(whole.drop_last() =~= before);
            if shorter.len() > 0 {
                assert(whole[whole.len() - 2] == before.last());
            }
            assert(ctc_collapse(whole, blank) == shorter.push(label.last()));
        }
    }
}

/// No sequence with fewer steps reads as the label.
pub proof fn law_ctc_needs_steps(steps: Seq<usize>, blank: usize)
    ensures
        steps.len() >= ctc_collapse(steps, blank).len() + repeats(ctc_collapse(steps, blank)),
{
    lemma_steps_needed(steps, blank);
}

proof fn lemma_steps_needed(steps: Seq<usize>, blank: usize)
    ensures
        ({
            let read = ctc_collapse(steps, blank);
            &&& steps.len() >= read.len() + repeats(read)
            &&& read.len() > 0 && steps.last() != read.last() ==> steps.len() > read.len()
                + repeats(read)
        }),
    decreases steps.len(),
{
    if steps.len() > 0 {
        lemma_steps_needed(steps.drop_last(), blank);
        let before = ctc_collapse(steps.drop_last(), blank);
        let read = ctc_collapse(steps, blank);
        if read.len() != before.len() {
            assert(read.drop_last() =~= before);
            assert(read == before.push(steps.last()));
            if before.len() > 0 {
                assert(read[read.len() - 2] == before.last());
            }
        }
    }
}

/// A label of `n` characters has fewer than `n` equal neighbours, so
/// `2 * n - 1` steps are enough whatever the label is.
pub proof fn law_ctc_worst_case(label: Seq<usize>)
    requires
        label.len() > 0,
    ensures
        label.len() + repeats(label) <= 2 * label.len() - 1,
    decreases label.len(),
{
    if label.len() > 1 {
        law_ctc_worst_case(label.drop_last());
    }
}

/// With `steps` output steps a label can be read exactly when it and its equal
/// neighbours fit.
pub proof fn law_ctc_label_fits(label: Seq<usize>, blank: usize, steps: nat)
    requires
        !label.contains(blank),
    ensures
        label.len() + repeats(label) <= steps <==> exists|s: Seq<usize>|
            s.len() == steps && #[trigger] ctc_collapse(s, blank) == label,
{
    if label.len() + repeats(label) <= steps {
        law_ctc_reads_alignment(label, blank);
        let short = alignment(label, blank);
        let n = (steps - short.len()) as nat;
        law_ctc_ignores_trailing_blanks(short, blank, n);
        let s = short + Seq::new(n, |i: int| blank);
        assert(s.len() == steps && ctc_collapse(s, blank) == label);
    } else {
        assert forall|s: Seq<usize>| s.len() == steps implies #[trigger] ctc_collapse(s, blank)
            != label by {
            law_ctc_needs_steps(s, blank);
        }
    }
}

// ---------------------------------------------------------------------------
// Fixed heads
// ---------------------------------------------------------------------------
/// The slots of example `b` in a row-major `[batch, slots]` list.
pub open spec fn slot_row(flat: Seq<usize>, slots: nat, b: int) -> Seq<usize> {
    Seq::new(slots, |s: int| flat[b * slots + s])
}

/// Decode of the fixed heads: per-example class-index sequence of length
/// `slots`. `flat` holds the most likely class of each slot, row-major
/// `[batch, slots]`.
pub fn fixed_decode_indices(flat: &[usize], batch: usize, slots: usize) -> (r: Vec<Vec<usize>>)
    requires
        flat@.len() == batch * slots,
    ensures
        r@.len() == batch,
        forall|b: int|
            0 <= b < batch ==> (#[trigger] r@[b])@ == slot_row(flat@, slots as nat, b),
{
    let n: usize = flat.len();
    let mut out: Vec<Vec<usize>> = Vec::new();
    for b in 0..batch
        invariant
            n == flat@.len(),
            n == batch * slots,
            out@.len() == b,
            forall|k: int|
                0 <= k < b ==> (#[trigger] out@[k])@ == slot_row(flat@, slots as nat, k),
    {
        let mut seq: Vec<usize> = Vec::new();
        for s in 0..slots
            invariant
                n == flat@.len(),
                n == batch * slots,
                b < batch,
                seq@ == slot_row(flat@, slots as nat, b as int).take(s as int),
        {
            assert(b * slots + s < batch * slots && 0 <= b * slots) by (nonlinear_arith)
                requires
                    b < batch,
                    s < slots,
            ;
            seq.push(flat[b * slots + s]);
            assert(seq@ =~= slot_row(flat@, slots as nat, b as int).take(s + 1));
        }
        assert(seq@ =~= slot_row(flat@, slots as nat, b as int));
        out.push(seq);
    }
    out
}

/// Each example is read from its own row: the slots of example `b` are the
/// classes that stand `b` rows into the list, in their order.
pub proof fn law_rows_hold_examples(rows: Seq<Seq<usize>>, flat: Seq<usize>, slots: nat, b: int)
    requires
        0 <= b < rows.len(),
        rows[b].len() == slots,
        forall|s: int| 0 <= s < slots ==> flat[b * slots + s] == #[trigger] rows[b][s],
    ensures
        slot_row(flat, slots, b) == rows[b],
{
    assert(slot_row(flat, slots, b) =~= rows[b]);
}

/// The slots of all examples, one example after the other.
pub open spec fn stacked(rows: Seq<Seq<usize>>) -> Seq<usize>
    decreases rows.len(),
{
    if rows.len() == 0 {
        Seq::empty()
    } else {
        stacked(rows.drop_last()) + rows.last()
    }
}

/// Cutting a list of equally long rows gives every row back.
pub proof fn law_fixed_decode_unstacks(rows: Seq<Seq<usize>>, slots: nat, b: int)
    requires
        forall|i: int| 0 <= i < rows.len() ==> (#[trigger] rows[i]).len() == slots,
        0 <= b < rows.len(),
    ensures
        stacked(rows).len() == rows.len() * slots,
        slot_row(stacked(rows), slots, b) == rows[b],
{
    lemma_stacked_len(rows, slots);
    lemma_stacked_row(rows, slots, b);
    let row = stacked(rows).subrange(b * slots, b * slots + slots);
    assert forall|s: int| 0 <= s < slots implies stacked(rows)[b * slots + s] == rows[b][s] by {
        assert(row[s] == stacked(rows)[b * slots + s]);
    }
    assert(slot_row(stacked(rows), slots, b) =~= rows[b]);
}

proof fn lemma_stacked_len(rows: Seq<Seq<usize>>, slots: nat)
    requires
        forall|i: int| 0 <= i < rows.len() ==> (#[trigger] rows[i]).len() == slots,
    ensures
        stacked(rows).len() == rows.len() * slots,
    decreases rows.len(),
{
    if rows.len() > 0 {
        let shorter = rows.drop_last();
        assert forall|i: int| 0 <= i < shorter.len() implies (#[trigger] shorter[i]).len()
            == slots by {
            assert(shorter[i] == rows[i]);
        }
        lemma_stacked_len(shorter, slots);
        let n = shorter.len();
        assert((n + 1) * slots == n * slots + slots) by (nonlinear_arith);
    } else {
        assert(0 * slots == 0) by (nonlinear_arith);
    }
}

proof fn lemma_stacked_row(rows: Seq<Seq<usize>>, slots: nat, b: int)
    requires
        forall|i: int| 0 <= i < rows.len() ==> (#[trigger] rows[i]).len() == slots,
        0 <= b < rows.len(),
    ensures
        0 <= b * slots,
        b * slots + slots <= stacked(rows).len(),
        stacked(rows).subrange(b * slots, b * slots + slots) == rows[b],
    decreases rows.len(),
{
    let shorter = rows.drop_last();
    assert forall|i: int| 0 <= i < shorter.len() implies (#[trigger] shorter[i]).len()
        == slots by {
        assert(shorter[i] == rows[i]);
    }
    if b < shorter.len() {
        lemma_stacked_row(shorter, slots, b);
        assert(stacked(rows).subrange(b * slots, b * slots + slots) =~= stacked(shorter).subrange(
            b * slots,
            b * slots + slots,
        ));
    } else {
        lemma_stacked_len(shorter, slots);
        assert(stacked(rows).subrange(b * slots, b * slots + slots) =~= rows[b]);
    }
}

} // verus!
