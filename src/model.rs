//! The mathematical model of scanning: byte classes, runs, escape-aware
//! scans and the single steps that the cursor's operations take.
use vstd::prelude::*;

verus! {

/// ASCII whitespace: space, tab, line feed, carriage return, form feed and
/// vertical tab.
pub open spec fn is_space(b: u8) -> bool {
    b == 0x20 || b == 0x09 || b == 0x0a || b == 0x0d || b == 0x0c || b == 0x0b
}

/// An ASCII decimal digit `[0-9]`.
pub open spec fn is_digit(b: u8) -> bool {
    0x30 <= b <= 0x39
}

/// An ASCII letter `[A-Za-z]`.
pub open spec fn is_alpha(b: u8) -> bool {
    (0x41 <= b <= 0x5a) || (0x61 <= b <= 0x7a)
}

/// A byte that may begin an identifier: `[A-Za-z_]`.
pub open spec fn is_ident_start(b: u8) -> bool {
    is_alpha(b) || b == 0x5f
}

/// A byte that may continue an identifier: `[A-Za-z0-9_]`.
pub open spec fn is_ident_continue(b: u8) -> bool {
    is_alpha(b) || is_digit(b) || b == 0x5f
}

/// `[start, end)` is the longest run of bytes of `s` from `start` on that
/// satisfy `p`.
pub open spec fn is_run(s: Seq<u8>, start: int, end: int, p: spec_fn(u8) -> bool) -> bool {
    &&& 0 <= start <= end <= s.len()
    &&& forall|k: int| start <= k < end ==> p(#[trigger] s[k])
    &&& end < s.len() ==> !p(s[end])
}

/// `[start, end)` is the longest run of bytes of `s` from `start` on that
/// `pred` accepts: each byte inside was accepted, the byte right after (if
/// any) was rejected.
pub open spec fn is_pred_run<F: Fn(u8) -> bool>(pred: F, s: Seq<u8>, start: int, end: int) -> bool {
    &&& 0 <= start <= end <= s.len()
    &&& forall|k: int| start <= k < end ==> call_ensures(pred, (#[trigger] s[k],), true)
    &&& end < s.len() ==> call_ensures(pred, (s[end],), false)
}

/// A run that an exec predicate delimits is the run of the spec predicate
/// that the exec one computes.
pub proof fn lemma_pred_run_is_run<F: Fn(u8) -> bool>(
    pred: F,
    p: spec_fn(u8) -> bool,
    s: Seq<u8>,
    start: int,
    end: int,
)
    requires
        forall|b: u8, r: bool| call_ensures(pred, (b,), r) ==> r == p(b),
        is_pred_run(pred, s, start, end),
    ensures
        is_run(s, start, end, p),
{
    assert forall|k: int| start <= k < end implies p(#[trigger] s[k]) by {
        assert(call_ensures(pred, (s[k],), true));
    }
    if end < s.len() {
        assert(call_ensures(pred, (s[end],), false));
    }
}

/// Whether `pat` occurs in `s` at index `off`.
pub open spec fn matches_at(s: Seq<u8>, off: int, pat: Seq<u8>) -> bool {
    0 <= off && off + pat.len() <= s.len() && s.subrange(off, off + pat.len()) == pat
}

/// The offset after one `next_byte` from `pos`.
pub open spec fn next_pos(s: Seq<u8>, pos: int) -> int {
    if pos < s.len() {
        pos + 1
    } else {
        pos
    }
}

/// What one `next_byte` from `pos` returns.
pub open spec fn next_out(s: Seq<u8>, pos: int) -> Option<u8> {
    if 0 <= pos < s.len() {
        Some(s[pos])
    } else {
        None
    }
}

/// The offset that a bookmark `m` restores in a buffer of `len` bytes.
pub open spec fn reset_target(len: int, m: int) -> int {
    if m <= len {
        m
    } else {
        len
    }
}

/// The bytes consumed since the bookmark `m`, when the offset is now `off`.
pub open spec fn since_mark(s: Seq<u8>, m: int, off: int) -> Seq<u8> {
    if m <= off {
        s.subrange(m, off)
    } else {
        Seq::empty()
    }
}

/// Where an escape-aware scan that starts at `i` stops: an `esc` byte and the
/// byte after it (if any) are passed over without being tested; otherwise the
/// scan stops at the first `a` or `b`, or at the end of `s`.
pub open spec fn unescaped_end(s: Seq<u8>, i: int, a: u8, b: u8, esc: u8) -> int
    decreases s.len() - i,
{
    if i < 0 || i >= s.len() {
        s.len() as int
    } else if s[i] == esc {
        if i + 2 <= s.len() {
            unescaped_end(s, i + 2, a, b, esc)
        } else {
            s.len() as int
        }
    } else if s[i] == a || s[i] == b {
        i
    } else {
        unescaped_end(s, i + 1, a, b, esc)
    }
}

/// A scan that starts inside `s` stops inside `s`, never before its start,
/// and, short of the end, on `a` or `b`.
pub proof fn lemma_unescaped_end_bounds(s: Seq<u8>, i: int, a: u8, b: u8, esc: u8)
    requires
        0 <= i <= s.len(),
    ensures
        i <= unescaped_end(s, i, a, b, esc) <= s.len(),
        unescaped_end(s, i, a, b, esc) < s.len() ==> (s[unescaped_end(s, i, a, b, esc)] == a
            || s[unescaped_end(s, i, a, b, esc)] == b),
    decreases s.len() - i,
{
    if i < s.len() {
        if s[i] == esc {
            if i + 2 <= s.len() {
                lemma_unescaped_end_bounds(s, i + 2, a, b, esc);
            }
        } else if !(s[i] == a || s[i] == b) {
            lemma_unescaped_end_bounds(s, i + 1, a, b, esc);
        }
    }
}

} // verus!
