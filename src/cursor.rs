use core::ops::Range;
use vstd::prelude::*;

use crate::model::{
    is_digit, is_ident_continue, is_ident_start, is_pred_run, is_run, is_space, lemma_pred_run_is_run,
    lemma_unescaped_end_bounds, matches_at, next_out, next_pos, reset_target, since_mark, unescaped_end,
};

verus! {

/// A read position into a borrowed, immutable byte buffer.
#[derive(Debug)]
pub struct Cursor<'a> {
    buf: &'a [u8],
    i: usize,
}

impl<'a> Cursor<'a> {
    /// The whole buffer the cursor reads from.
    pub closed spec fn buffer(&self) -> Seq<u8> {
        self.buf@
    }

    /// The index of the next unread byte.
    pub closed spec fn offset(&self) -> int {
        self.i as int
    }

    /// The offset never passes the end of the buffer.
    pub open spec fn wf(&self) -> bool {
        0 <= self.offset() <= self.buffer().len()
    }

    /// The bytes not yet read.
    pub open spec fn rest(&self) -> Seq<u8> {
        self.buffer().subrange(self.offset(), self.buffer().len() as int)
    }

    /// A cursor at the start of `buf`.
    pub fn new(buf: &'a [u8]) -> (r: Self)
        ensures
            r.wf(),
            r.buffer() == buf@,
            r.offset() == 0,
    {
        Cursor { buf, i: 0 }
    }

    /// Whether every byte has been read.
    pub fn eof(&self) -> (r: bool)
        requires
            self.wf(),
        ensures
            r == (self.offset() == self.buffer().len()),
    {
        self.i >= self.buf.len()
    }

    /// The current offset.
    pub fn pos(&self) -> (r: usize)
        ensures
            r == self.offset(),
    {
        self.i
    }

    /// The number of bytes not yet read.
    pub fn remaining(&self) -> (r: usize)
        requires
            self.wf(),
        ensures
            r == self.buffer().len() - self.offset(),
    {
        self.buf.len() - self.i
    }

    /// A view of the bytes not yet read, borrowed from the buffer.
    pub fn as_slice(&self) -> (r: &'a [u8])
        requires
            self.wf(),
        ensures
            r@ == self.rest(),
    {
        let buf: &'a [u8] = self.buf;
        &buf[self.i..buf.len()]
    }

    /// The length of the whole buffer, whatever has been read.
    pub fn len(&self) -> (r: usize)
        ensures
            r == self.buffer().len(),
    {
        self.buf.len()
    }

    /// Whether the whole buffer is empty, whatever has been read.
    pub fn is_empty(&self) -> (r: bool)
        ensures
            r == (self.buffer().len() == 0),
    {
        self.buf.len() == 0
    }

    /// The next unread byte, if any.
    pub fn peek(&self) -> (r: Option<u8>)
        requires
            self.wf(),
        ensures
            r == next_out(self.buffer(), self.offset()),
    {
        if self.i < self.buf.len() {
            Some(self.buf[self.i])
        } else {
            None
        }
    }

    /// The byte `n` places after the next unread one, if the buffer holds it.
    pub fn peek_n(&self, n: usize) -> (r: Option<u8>)
        requires
            self.wf(),
        ensures
            r == next_out(self.buffer(), self.offset() + n),
    {
        if n < self.buf.len() - self.i {
            Some(self.buf[self.i + n])
        } else {
            None
        }
    }

    /// Reads one byte: the next unread byte, which is then consumed, or
    /// absent at the end with nothing changed.
    pub fn next_byte(&mut self) -> (r: Option<u8>)
        requires
            old(self).wf(),
        ensures
            final(self).wf(),
            final(self).buffer() == old(self).buffer(),
            r == next_out(old(self).buffer(), old(self).offset()),
            final(self).offset() == next_pos(old(self).buffer(), old(self).offset()),
    {
        if self.i < self.buf.len() {
            let b = self.buf[self.i];
            self.i += 1;
            Some(b)
        } else {
            None
        }
    }

    /// The step of reading the cursor as a sequence of bytes: `next_byte`.
    pub fn next(&mut self) -> (r: Option<u8>)
        requires
            old(self).wf(),
        ensures
            final(self).wf(),
            final(self).buffer() == old(self).buffer(),
            r == next_out(old(self).buffer(), old(self).offset()),
            final(self).offset() == next_pos(old(self).buffer(), old(self).offset()),
    {
        self.next_byte()
    }

    /// Consumes exactly `n` bytes and returns their span, or, when fewer than
    /// `n` remain, returns absent and consumes nothing.
    pub fn advance(&mut self, n: usize) -> (r: Option<Range<usize>>)
        requires
            old(self).wf(),
        ensures
            final(self).wf(),
            final(self).buffer() == old(self).buffer(),
            r is Some <==> n <= old(self).buffer().len() - old(self).offset(),
            r is Some ==> final(self).offset() == old(self).offset() + n,
            r is None ==> final(self).offset() == old(self).offset(),
            r matches Some(sp) ==> sp.start == old(self).offset() && sp.end == old(self).offset() + n,
    {
        if n <= self.buf.len() - self.i {
            let start = self.i;
            self.i = start + n;
            Some(start..self.i)
        } else {
            None
        }
    }

    /// Consumes the next byte if it is `b` and returns its span; otherwise
    /// absent, with nothing consumed.
    pub fn skip_byte(&mut self, b: u8) -> (r: Option<Range<usize>>)
        requires
            old(self).wf(),
        ensures
            final(self).wf(),
            final(self).buffer() == old(self).buffer(),
            r is Some <==> next_out(old(self).buffer(), old(self).offset()) == Some(b),
            r is Some ==> final(self).offset() == old(self).offset() + 1,
            r is None ==> final(self).offset() == old(self).offset(),
            r matches Some(sp) ==> sp.start == old(self).offset() && sp.end == old(self).offset() + 1,
    {
        if self.i < self.buf.len() && self.buf[self.i] == b {
            let start = self.i;
            self.i = start + 1;
            Some(start..self.i)
        } else {
            None
        }
    }

    /// Consumes the next byte if it is `b`, as `skip_byte` does.
    pub fn expect_byte(&mut self, b: u8) -> (r: Option<Range<usize>>)
        requires
            old(self).wf(),
        ensures
            final(self).wf(),
            final(self).buffer() == old(self).buffer(),
            r is Some <==> next_out(old(self).buffer(), old(self).offset()) == Some(b),
            r is Some ==> final(self).offset() == old(self).offset() + 1,
            r is None ==> final(self).offset() == old(self).offset(),
            r matches Some(sp) ==> sp.start == old(self).offset() && sp.end == old(self).offset() + 1,
    {
        let m = self.mark();
        let r = self.skip_byte(b);
        if r.is_none() {
            self.reset(m);
        }
        r
    }

    /// A bookmark: the current offset.
    pub fn mark(&self) -> (r: usize)
        ensures
            r == self.offset(),
    {
        self.i
    }

    /// Moves back (or forward) to the bookmark `m`, clamped to the buffer.
    pub fn reset(&mut self, m: usize)
        requires
            old(self).wf(),
        ensures
            final(self).wf(),
            final(self).buffer() == old(self).buffer(),
            final(self).offset() == reset_target(old(self).buffer().len() as int, m as int),
    {
        self.i = if m <= self.buf.len() {
            m
        } else {
            self.buf.len()
        };
    }

    /// The bytes consumed since the bookmark `m`; empty when `m` lies past
    /// the offset.
    pub fn slice_from(&self, m: usize) -> (r: &'a [u8])
        requires
            self.wf(),
        ensures
            r@ == since_mark(self.buffer(), m as int, self.offset()),
    {
        let buf: &'a [u8] = self.buf;
        if m <= self.i {
            &buf[m..self.i]
        } else {
            &buf[self.i..self.i]
        }
    }

    /// Advances to the first `delim` at or after the offset, without consuming
    /// it, or to the end when there is none; returns the span passed over.
    pub fn skip_until(&mut self, delim: u8) -> (r: Range<usize>)
        requires
            old(self).wf(),
        ensures
            final(self).wf(),
            final(self).buffer() == old(self).buffer(),
            r.start == old(self).offset(),
            r.end == final(self).offset(),
            is_run(old(self).buffer(), old(self).offset(), final(self).offset(), |x: u8| x != delim),
    {
        let other = |x: u8| -> (r: bool)
            ensures
                r == (x != delim),
            { x != delim };
        let span = self.skip_while(other);
        proof {
            lemma_pred_run_is_run(other, |x: u8| x != delim, self.buf@, span.start as int, span.end as int);
        }
        span
    }

    /// Whether the unread bytes begin with `pat`; consumes nothing.
    pub fn starts_with(&self, pat: &[u8]) -> (r: bool)
        requires
            self.wf(),
        ensures
            r == matches_at(self.buffer(), self.offset(), pat@),
    {
        let buf = self.buf;
        let i = self.i;
        let len = buf.len();
        if pat.len() > len - i {
            return false;
        }
        let mut k: usize = 0;
        while k < pat.len()
            invariant
                buf@ == self.buffer(),
                i == self.offset(),
                k <= pat@.len(),
                i + pat@.len() <= buf@.len() <= usize::MAX,
                forall|j: int| 0 <= j < k ==> buf@[i + j] == pat@[j],
            decreases pat@.len() - k,
        {
            if buf[i + k] != pat[k] {
                proof {
                    assert(buf@.subrange(i as int, i + pat@.len())[k as int] != pat@[k as int]);
                }
                return false;
            }
            k += 1;
        }
        proof {
            assert(buf@.subrange(i as int, i + pat@.len()) =~= pat@);
        }
        true
    }

    /// Consumes `pat` if the unread bytes begin with it and returns its span;
    /// otherwise absent, with nothing consumed. An empty `pat` always matches.
    pub fn match_bytes(&mut self, pat: &[u8]) -> (r: Option<Range<usize>>)
        requires
            old(self).wf(),
        ensures
            final(self).wf(),
            final(self).buffer() == old(self).buffer(),
            r is Some <==> matches_at(old(self).buffer(), old(self).offset(), pat@),
            r is Some ==> final(self).offset() == old(self).offset() + pat@.len(),
            r is None ==> final(self).offset() == old(self).offset(),
            r matches Some(sp) ==> sp.start == old(self).offset() && sp.end == final(self).offset(),
    {
        let len = self.buf.len();
        if self.starts_with(pat) {
            let start = self.i;
            self.i = start + pat.len();
            Some(start..self.i)
        } else {
            None
        }
    }

    /// Consumes `pat` as `match_bytes` does; a failed match leaves the offset
    /// where it was.
    pub fn expect_bytes(&mut self, pat: &[u8]) -> (r: Option<Range<usize>>)
        requires
            old(self).wf(),
        ensures
            final(self).wf(),
            final(self).buffer() == old(self).buffer(),
            r is Some <==> matches_at(old(self).buffer(), old(self).offset(), pat@),
            r is Some ==> final(self).offset() == old(self).offset() + pat@.len(),
            r is None ==> final(self).offset() == old(self).offset(),
            r matches Some(sp) ==> sp.start == old(self).offset() && sp.end == final(self).offset(),
    {
        let m = self.mark();
        let r = self.match_bytes(pat);
        if r.is_none() {
            self.reset(m);
        }
        r
    }

    /// The next `n` unread bytes, if that many remain; consumes nothing.
    pub fn peek_slice(&self, n: usize) -> (r: Option<&'a [u8]>)
        requires
            self.wf(),
        ensures
            r is Some <==> n <= self.buffer().len() - self.offset(),
            r matches Some(sl) ==> sl@ == self.buffer().subrange(self.offset(), self.offset() + n),
    {
        let buf: &'a [u8] = self.buf;
        if n <= buf.len() - self.i {
            Some(&buf[self.i..self.i + n])
        } else {
            None
        }
    }

    /// Advances over the bytes `pred` accepts; returns the span passed over,
    /// which may be empty.
    pub fn skip_while(&mut self, pred: impl Fn(u8) -> bool) -> (r: Range<usize>)
        requires
            old(self).wf(),
            forall|b: u8| call_requires(pred, (b,)),
        ensures
            final(self).wf(),
            final(self).buffer() == old(self).buffer(),
            r.start == old(self).offset(),
            r.end == final(self).offset(),
            is_pred_run(pred, old(self).buffer(), old(self).offset(), final(self).offset()),
    {
        let buf = self.buf;
        let start = self.i;
        let mut i: usize = self.i;
        let mut more = i < buf.len();
        while more
            invariant
                forall|b: u8| call_requires(pred, (b,)),
                start <= i <= buf@.len(),
                forall|k: int| start <= k < i ==> call_ensures(pred, (#[trigger] buf@[k],), true),
                more ==> i < buf@.len(),
                !more ==> (i == buf@.len() || call_ensures(pred, (buf@[i as int],), false)),
            decreases buf@.len() - i + (if more { 1int } else { 0 }),
        {
            if pred(buf[i]) {
                i += 1;
                more = i < buf.len();
            } else {
                more = false;
            }
        }
        self.i = i;
        start..i
    }

    /// Like `skip_while`, but absent, with nothing consumed, when not even one
    /// byte is accepted.
    pub fn take_while(&mut self, pred: impl Fn(u8) -> bool) -> (r: Option<Range<usize>>)
        requires
            old(self).wf(),
            forall|b: u8| call_requires(pred, (b,)),
        ensures
            final(self).wf(),
            final(self).buffer() == old(self).buffer(),
            is_pred_run(pred, old(self).buffer(), old(self).offset(), final(self).offset()),
            r is None <==> final(self).offset() == old(self).offset(),
            r matches Some(sp) ==> sp.start == old(self).offset() && sp.end == final(self).offset(),
    {
        let span = self.skip_while(pred);
        if span.start < span.end {
            Some(span)
        } else {
            None
        }
    }

    /// Whether `b` is ASCII whitespace.
    pub fn is_space_ascii(b: u8) -> (r: bool)
        ensures
            r == is_space(b),
    {
        // ' ', '\t', '\n', '\r', form feed, vertical tab
        b == 0x20 || b == 0x09 || b == 0x0a || b == 0x0d || b == 0x0c || b == 0x0b
    }

    /// Whether `b` may begin an identifier.
    pub fn is_ident_start_ascii(b: u8) -> (r: bool)
        ensures
            r == is_ident_start(b),
    {
        // 'A'..='Z', 'a'..='z', '_'
        (0x41 <= b && b <= 0x5a) || (0x61 <= b && b <= 0x7a) || b == 0x5f
    }

    /// Whether `b` may continue an identifier.
    pub fn is_ident_continue_ascii(b: u8) -> (r: bool)
        ensures
            r == is_ident_continue(b),
    {
        // 'A'..='Z', 'a'..='z', '0'..='9', '_'
        (0x41 <= b && b <= 0x5a) || (0x61 <= b && b <= 0x7a) || (0x30 <= b && b <= 0x39) || b == 0x5f
    }

    fn is_digit_ascii(b: u8) -> (r: bool)
        ensures
            r == is_digit(b),
    {
        // '0'..='9'
        0x30 <= b && b <= 0x39
    }

    /// Advances over ASCII whitespace; returns how many bytes were passed over.
    pub fn skip_space(&mut self) -> (r: usize)
        requires
            old(self).wf(),
        ensures
            final(self).wf(),
            final(self).buffer() == old(self).buffer(),
            r == final(self).offset() - old(self).offset(),
            is_run(old(self).buffer(), old(self).offset(), final(self).offset(), |b: u8| is_space(b)),
    {
        let span = self.skip_while(Self::is_space_ascii);
        proof {
            lemma_pred_run_is_run(Self::is_space_ascii, |b: u8| is_space(b), self.buf@, span.start as int, span.end as int);
        }
        span.end - span.start
    }

    /// Takes a non-empty run of ASCII whitespace; absent, with nothing
    /// consumed, when the next byte is not whitespace.
    pub fn take_space(&mut self) -> (r: Option<Range<usize>>)
        requires
            old(self).wf(),
        ensures
            final(self).wf(),
            final(self).buffer() == old(self).buffer(),
            is_run(old(self).buffer(), old(self).offset(), final(self).offset(), |b: u8| is_space(b)),
            r is None <==> final(self).offset() == old(self).offset(),
            r matches Some(sp) ==> sp.start == old(self).offset() && sp.end == final(self).offset(),
    {
        let start = self.i;
        let r = self.take_while(Self::is_space_ascii);
        proof {
            lemma_pred_run_is_run(Self::is_space_ascii, |b: u8| is_space(b), self.buf@, start as int, self.i as int);
        }
        r
    }

    /// Takes a non-empty ASCII word `[A-Za-z0-9_]+`; absent, with nothing
    /// consumed, when the next byte cannot be part of one.
    pub fn take_ident_ascii(&mut self) -> (r: Option<Range<usize>>)
        requires
            old(self).wf(),
        ensures
            final(self).wf(),
            final(self).buffer() == old(self).buffer(),
            is_run(old(self).buffer(), old(self).offset(), final(self).offset(), |b: u8| is_ident_continue(b)),
            r is None <==> final(self).offset() == old(self).offset(),
            r matches Some(sp) ==> sp.start == old(self).offset() && sp.end == final(self).offset(),
    {
        let start = self.i;
        let r = self.take_while(Self::is_ident_continue_ascii);
        proof {
            lemma_pred_run_is_run(
                Self::is_ident_continue_ascii,
                |b: u8| is_ident_continue(b),
                self.buf@,
                start as int,
                self.i as int,
            );
        }
        r
    }

    /// Takes an identifier: one byte of `[A-Za-z_]`, then `[A-Za-z0-9_]*`.
    /// Absent, with nothing consumed, when the next byte cannot begin one.
    pub fn take_ident_starting_alpha(&mut self) -> (r: Option<Range<usize>>)
        requires
            old(self).wf(),
        ensures
            final(self).wf(),
            final(self).buffer() == old(self).buffer(),
            r is None <==> (old(self).offset() == old(self).buffer().len() || !is_ident_start(
                old(self).buffer()[old(self).offset()],
            )),
            r is None ==> final(self).offset() == old(self).offset(),
            r matches Some(sp) ==> {
                &&& sp.start == old(self).offset()
                &&& sp.end == final(self).offset()
                &&& is_run(old(self).buffer(), old(self).offset() + 1, final(self).offset(), |b: u8| is_ident_continue(b))
            },
    {
        let start = self.i;
        if start < self.buf.len() && Self::is_ident_start_ascii(self.buf[start]) {
            self.i = start + 1;
            let rest = self.skip_while(Self::is_ident_continue_ascii);
            proof {
                lemma_pred_run_is_run(
                    Self::is_ident_continue_ascii,
                    |b: u8| is_ident_continue(b),
                    self.buf@,
                    rest.start as int,
                    rest.end as int,
                );
            }
            Some(start..rest.end)
        } else {
            None
        }
    }

    /// Takes a non-empty run of decimal digits `[0-9]+`; absent, with nothing
    /// consumed, when the next byte is not a digit.
    pub fn take_int_ascii(&mut self) -> (r: Option<Range<usize>>)
        requires
            old(self).wf(),
        ensures
            final(self).wf(),
            final(self).buffer() == old(self).buffer(),
            is_run(old(self).buffer(), old(self).offset(), final(self).offset(), |b: u8| is_digit(b)),
            r is None <==> final(self).offset() == old(self).offset(),
            r matches Some(sp) ==> sp.start == old(self).offset() && sp.end == final(self).offset(),
    {
        let start = self.i;
        let r = self.take_while(Self::is_digit_ascii);
        proof {
            lemma_pred_run_is_run(Self::is_digit_ascii, |b: u8| is_digit(b), self.buf@, start as int, self.i as int);
        }
        r
    }

    /// Scans to the first `a` or `b` not preceded by `esc`, leaving it unread.
    fn scan_unescaped(&mut self, a: u8, b: u8, esc: u8) -> (r: Range<usize>)
        requires
            old(self).wf(),
        ensures
            final(self).wf(),
            final(self).buffer() == old(self).buffer(),
            r.start == old(self).offset(),
            r.end == final(self).offset(),
            final(self).offset() == unescaped_end(old(self).buffer(), old(self).offset(), a, b, esc),
    {
        let buf = self.buf;
        let start = self.i;
        let mut i: usize = self.i;
        while i < buf.len() && (buf[i] == esc || (buf[i] != a && buf[i] != b))
            invariant
                start <= i <= buf@.len(),
                unescaped_end(buf@, i as int, a, b, esc) == unescaped_end(buf@, start as int, a, b, esc),
            decreases buf@.len() - i,
        {
            if buf[i] == esc {
                i += 1;
                if i < buf.len() {
                    i += 1;
                }
            } else {
                i += 1;
            }
        }
        self.i = i;
        start..i
    }

    /// Advances to the first `delim` not neutralised by a preceding `esc`,
    /// without consuming it. An escape byte and the byte after it are always
    /// passed over together; a final lone escape byte is consumed alone.
    /// Reports the span consumed and whether the scan stopped on `delim`.
    pub fn take_until_unescaped(&mut self, delim: u8, esc: u8) -> (r: (Range<usize>, bool))
        requires
            old(self).wf(),
        ensures
            final(self).wf(),
            final(self).buffer() == old(self).buffer(),
            r.0.start == old(self).offset(),
            r.0.end == final(self).offset(),
            final(self).offset() == unescaped_end(old(self).buffer(), old(self).offset(), delim, delim, esc),
            r.1 == (final(self).offset() < final(self).buffer().len()),
            r.1 ==> final(self).buffer()[final(self).offset()] == delim,
    {
        let span = self.scan_unescaped(delim, delim, esc);
        proof {
            lemma_unescaped_end_bounds(self.buf@, span.start as int, delim, delim, esc);
        }
        let found = self.i < self.buf.len();
        (span, found)
    }

    /// Like `take_until_unescaped`, but stops on either of two delimiters and
    /// reports which one it stopped on.
    pub fn take_until_unescaped2(&mut self, a: u8, b: u8, esc: u8) -> (r: (Range<usize>, Option<u8>))
        requires
            old(self).wf(),
        ensures
            final(self).wf(),
            final(self).buffer() == old(self).buffer(),
            r.0.start == old(self).offset(),
            r.0.end == final(self).offset(),
            final(self).offset() == unescaped_end(old(self).buffer(), old(self).offset(), a, b, esc),
            r.1 == (if final(self).offset() < final(self).buffer().len() {
                Some(final(self).buffer()[final(self).offset()])
            } else {
                None
            }),
            r.1 matches Some(d) ==> d == a || d == b,
    {
        let span = self.scan_unescaped(a, b, esc);
        proof {
            lemma_unescaped_end_bounds(self.buf@, span.start as int, a, b, esc);
        }
        let found = if self.i < self.buf.len() {
            Some(self.buf[self.i])
        } else {
            None
        };
        (span, found)
    }
}

} // verus!
