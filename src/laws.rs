//! Properties that relate several operations of the cursor, stated over the
//! model that their contracts use.
use vstd::prelude::*;

use crate::model::{
    is_pred_run, is_run, next_out, next_pos, reset_target, since_mark, lemma_pred_run_is_run,
};

verus! {

/// The offset after `k` calls of `next_byte` from `pos`.
pub open spec fn pos_after(s: Seq<u8>, pos: int, k: nat) -> int
    decreases k,
{
    if k == 0 {
        pos
    } else {
        next_pos(s, pos_after(s, pos, (k - 1) as nat))
    }
}

/// The bytes returned, in order, by `k` calls of `next_byte` from `pos`.
pub open spec fn bytes_after(s: Seq<u8>, pos: int, k: nat) -> Seq<u8>
    decreases k,
{
    if k == 0 {
        Seq::empty()
    } else {
        match next_out(s, pos_after(s, pos, (k - 1) as nat)) {
            Some(b) => bytes_after(s, pos, (k - 1) as nat).push(b),
            None => bytes_after(s, pos, (k - 1) as nat),
        }
    }
}

/// Reading a fresh cursor byte by byte with `next_byte`: the bytes returned
/// by the first `k` calls are the first `k` bytes of the buffer (all of it
/// once `k` reaches its length), and from then on every call returns absent
/// and leaves the offset at the end.
pub proof fn law_next_byte_reads_buffer(s: Seq<u8>, k: nat)
    ensures
        pos_after(s, 0, k) == if k <= s.len() { k as int } else { s.len() as int },
        bytes_after(s, 0, k) == s.subrange(0, pos_after(s, 0, k)),
        k >= s.len() ==> bytes_after(s, 0, k) == s,
        k >= s.len() ==> next_out(s, pos_after(s, 0, k)) is None,
        k >= s.len() ==> pos_after(s, 0, k + 1) == pos_after(s, 0, k),
    decreases k,
{
    if k > 0 {
        law_next_byte_reads_buffer(s, (k - 1) as nat);
        let p = pos_after(s, 0, (k - 1) as nat);
        if p < s.len() {
            assert(s.subrange(0, p + 1) =~= s.subrange(0, p).push(s[p]));
        }
    }
    assert(s.subrange(0, s.len() as int) =~= s);
}

/// The bytes consumed by a run of forward moves through the offsets `steps`,
/// one span after another.
pub open spec fn consumed(s: Seq<u8>, steps: Seq<int>) -> Seq<u8>
    decreases steps.len(),
{
    if steps.len() < 2 {
        Seq::empty()
    } else {
        consumed(s, steps.drop_last()) + s.subrange(steps[steps.len() - 2], steps.last())
    }
}

proof fn lemma_steps_monotone(steps: Seq<int>, j: int)
    requires
        0 <= j < steps.len(),
        forall|k: int| 0 < k < steps.len() ==> steps[k - 1] <= #[trigger] steps[k],
    ensures
        steps[0] <= steps[j],
    decreases j,
{
    if j > 0 {
        lemma_steps_monotone(steps, j - 1);
        assert(steps[j - 1] <= steps[j]);
    }
}

/// Bookmarks: after any forward moves through the offsets `steps`, which
/// begin at the bookmark `m`, resetting to `m` restores the offset `m`
/// exactly, and the bytes since `m` are the bytes those moves consumed.
pub proof fn law_mark_reset(s: Seq<u8>, m: int, steps: Seq<int>)
    requires
        0 <= m <= s.len(),
        steps.len() > 0,
        steps[0] == m,
        forall|j: int| 0 <= j < steps.len() ==> #[trigger] steps[j] <= s.len(),
        forall|j: int| 0 < j < steps.len() ==> steps[j - 1] <= #[trigger] steps[j],
    ensures
        reset_target(s.len() as int, m) == m,
        since_mark(s, m, steps.last()) == consumed(s, steps),
    decreases steps.len(),
{
    if steps.len() == 1 {
        assert(s.subrange(m, m) =~= Seq::<u8>::empty());
    } else {
        let prev = steps.drop_last();
        assert(prev[0] == m);
        assert forall|j: int| 0 < j < prev.len() implies prev[j - 1] <= #[trigger] prev[j] by {
            assert(steps[j - 1] <= steps[j]);
        }
        law_mark_reset(s, m, prev);
        let a = steps[steps.len() - 2];
        let b = steps.last();
        assert(m <= a) by {
            lemma_steps_monotone(steps, steps.len() - 2);
        }
        assert(s.subrange(m, b) =~= s.subrange(m, a) + s.subrange(a, b));
    }
}

/// How many bytes at the front of `t` satisfy `p`.
pub open spec fn leading_count(t: Seq<u8>, p: spec_fn(u8) -> bool) -> nat
    decreases t.len(),
{
    if t.len() == 0 || !p(t[0]) {
        0
    } else {
        1 + leading_count(t.drop_first(), p)
    }
}

proof fn lemma_run_counts(s: Seq<u8>, start: int, end: int, p: spec_fn(u8) -> bool)
    requires
        is_run(s, start, end, p),
    ensures
        end - start == leading_count(s.subrange(start, s.len() as int), p),
    decreases end - start,
{
    let t = s.subrange(start, s.len() as int);
    if start < end {
        assert(p(s[start]));
        assert(t.drop_first() =~= s.subrange(start + 1, s.len() as int));
        lemma_run_counts(s, start + 1, end, p);
    }
}

/// Predicate scans: where `pred` computes the spec predicate `p`, the span
/// that `skip_while` and `take_while` stop at is empty exactly when nothing is
/// left or `p` fails on the first unread byte, and its length is the number of
/// leading unread bytes that satisfy `p`.
pub proof fn law_pred_scan<F: Fn(u8) -> bool>(
    pred: F,
    p: spec_fn(u8) -> bool,
    s: Seq<u8>,
    start: int,
    end: int,
)
    requires
        forall|b: u8, r: bool| call_ensures(pred, (b,), r) ==> r == p(b),
        is_pred_run(pred, s, start, end),
    ensures
        end == start <==> (start == s.len() || !p(s[start])),
        end - start == leading_count(s.subrange(start, s.len() as int), p),
{
    lemma_pred_run_is_run(pred, p, s, start, end);
    lemma_run_counts(s, start, end, p);
    if start < end {
        assert(p(s[start]));
    }
}

} // verus!
