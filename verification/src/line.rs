//! Fixed-capacity line assembler.
//!
//! Serial transports deliver TCode in arbitrary chunks. [`LineBuffer`]
//! accumulates bytes until a `\n` and exposes the completed line as a slice.
//! Lines longer than the capacity are discarded whole (never truncated into a
//! different, possibly valid, command) and counted in
//! [`LineBuffer::dropped_lines`].

use vstd::prelude::*;

verus! {

/// Result of pushing one byte into a [`LineBuffer`].
#[derive(Clone, Copy, Debug, PartialEq, Eq, Structural)]
pub enum Push {
    /// Byte stored; line not yet complete.
    Pending,
    /// A newline arrived: [`LineBuffer::line`] now holds a complete line.
    Complete,
    /// The line exceeded capacity and is being discarded up to the next `\n`.
    Overflow,
}

/// The abstract state of a [`LineBuffer`].
pub struct LineModel {
    /// Bytes of the current line, without `\n`.
    pub line: Seq<u8>,
    /// A complete line is waiting to be read.
    pub ready: bool,
    /// An over-long line is being skipped up to the next `\n`.
    pub discarding: bool,
    /// Over-long lines discarded so far.
    pub dropped: u32,
}

/// The state of an empty buffer.
pub open spec fn spec_empty_line() -> LineModel {
    LineModel { line: Seq::empty(), ready: false, discarding: false, dropped: 0 }
}

/// `n + 1`, clamped to `u32::MAX`.
pub open spec fn sat_inc(n: u32) -> u32 {
    if n == u32::MAX {
        n
    } else {
        (n + 1) as u32
    }
}

/// The buffer after one byte, and what `push` reports, for capacity `cap`.
pub open spec fn spec_push(s0: LineModel, byte: u8, cap: nat) -> (LineModel, Push) {
    // A line that was handed out is dropped when the next byte arrives.
    let s = if s0.ready {
        LineModel { line: Seq::empty(), ready: false, ..s0 }
    } else {
        s0
    };
    if s.discarding {
        if byte == 10 {
            (LineModel { discarding: false, dropped: sat_inc(s.dropped), ..s }, Push::Overflow)
        } else {
            (s, Push::Overflow)
        }
    } else if byte == 10 {
        (LineModel { ready: true, ..s }, Push::Complete)
    } else if s.line.len() < cap {
        (LineModel { line: s.line.push(byte), ..s }, Push::Pending)
    } else {
        (LineModel { line: Seq::empty(), discarding: true, ..s }, Push::Overflow)
    }
}

/// The buffer after every byte of `bytes`, in order.
pub open spec fn spec_push_all(s: LineModel, bytes: Seq<u8>, cap: nat) -> LineModel
    decreases bytes.len(),
{
    if bytes.len() == 0 {
        s
    } else {
        spec_push_all(spec_push(s, bytes[0], cap).0, bytes.drop_first(), cap)
    }
}

/// The lines completed while pushing `bytes`, in order.
pub open spec fn spec_lines(s: LineModel, bytes: Seq<u8>, cap: nat) -> Seq<Seq<u8>>
    decreases bytes.len(),
{
    if bytes.len() == 0 {
        Seq::empty()
    } else {
        let (next, outcome) = spec_push(s, bytes[0], cap);
        let rest = spec_lines(next, bytes.drop_first(), cap);
        if outcome == Push::Complete {
            seq![next.line] + rest
        } else {
            rest
        }
    }
}

/// The newline-terminated lines of `bytes`, in order and without their `\n`,
/// the first of them starting with `pending`. Bytes after the last `\n` form
/// no line yet.
pub open spec fn split_lines(pending: Seq<u8>, bytes: Seq<u8>) -> Seq<Seq<u8>>
    decreases bytes.len(),
{
    if bytes.len() == 0 {
        Seq::empty()
    } else if bytes[0] == 10 {
        seq![pending] + split_lines(Seq::empty(), bytes.drop_first())
    } else {
        split_lines(pending.push(bytes[0]), bytes.drop_first())
    }
}

/// A line fits in a buffer of capacity `cap`.
pub open spec fn fits(cap: nat) -> spec_fn(Seq<u8>) -> bool {
    |l: Seq<u8>| l.len() <= cap
}

/// A line does not fit in a buffer of capacity `cap`.
pub open spec fn too_long(cap: nat) -> spec_fn(Seq<u8>) -> bool {
    |l: Seq<u8>| l.len() > cap
}

/// `d + k`, clamped to `u32::MAX`.
pub open spec fn sat_add(d: u32, k: nat) -> u32 {
    if d + k > u32::MAX {
        u32::MAX
    } else {
        (d + k) as u32
    }
}

/// The part of the current line that the next bytes extend.
pub open spec fn pending_line(s: LineModel) -> Seq<u8> {
    if s.ready {
        Seq::empty()
    } else {
        s.line
    }
}

proof fn lemma_lines_from(s: LineModel, x: Seq<u8>, bytes: Seq<u8>, cap: nat)
    requires
        s.line.len() <= cap,
        s.discarding ==> s.line.len() == 0,
        s.discarding ==> x.len() > cap,
        !s.discarding ==> x == pending_line(s),
    ensures
        spec_lines(s, bytes, cap) == split_lines(x, bytes).filter(fits(cap)),
        spec_push_all(s, bytes, cap).dropped == sat_add(
            s.dropped,
            split_lines(x, bytes).filter(too_long(cap)).len(),
        ),
    decreases bytes.len(),
{
    reveal_with_fuel(Seq::filter, 1);
    if bytes.len() == 0 {
        assert(split_lines(x, bytes) =~= Seq::<Seq<u8>>::empty());
        assert(Seq::<Seq<u8>>::empty().filter(fits(cap)) =~= Seq::<Seq<u8>>::empty());
        assert(Seq::<Seq<u8>>::empty().filter(too_long(cap)) =~= Seq::<Seq<u8>>::empty());
    } else {
        let b = bytes[0];
        let rest = bytes.drop_first();
        let next = spec_push(s, b, cap).0;
        if b == 10 {
            let tail = split_lines(Seq::empty(), rest);
            assert(split_lines(x, bytes) == seq![x] + tail);
            tail.lemma_filter_prepend(x, fits(cap));
            tail.lemma_filter_prepend(x, too_long(cap));
            assert(s.discarding ==> s.line =~= Seq::<u8>::empty());
            lemma_lines_from(next, Seq::empty(), rest, cap);
            if s.discarding {
                assert(seq![x].filter(fits(cap)) =~= Seq::<Seq<u8>>::empty()) by {
                    reveal(Seq::filter);
                }
                assert((Seq::<Seq<u8>>::empty() + tail.filter(fits(cap))) =~= tail.filter(fits(cap)));
            } else {
                assert((Seq::<Seq<u8>>::empty() + tail.filter(too_long(cap))) =~= tail.filter(
                    too_long(cap),
                ));
            }
        } else {
            assert(split_lines(x, bytes) == split_lines(x.push(b), rest));
            lemma_lines_from(next, x.push(b), rest, cap);
        }
    }
}

/// Lines are delivered whole or not at all: from an empty buffer, the lines
/// completed while pushing `bytes` are exactly the newline-terminated lines
/// of `bytes` that fit the capacity, in order and unchanged, and every line
/// that does not fit is counted as dropped (the count saturating at
/// `u32::MAX`).
pub proof fn lemma_lines_whole(bytes: Seq<u8>, cap: nat)
    ensures
        spec_lines(spec_empty_line(), bytes, cap) == split_lines(Seq::empty(), bytes).filter(
            fits(cap),
        ),
        spec_push_all(spec_empty_line(), bytes, cap).dropped == sat_add(
            0,
            split_lines(Seq::empty(), bytes).filter(too_long(cap)).len(),
        ),
{
    lemma_lines_from(spec_empty_line(), Seq::empty(), bytes, cap);
}

/// What each push of `bytes`, in order, reports.
pub open spec fn spec_outcomes(s: LineModel, bytes: Seq<u8>, cap: nat) -> Seq<Push>
    decreases bytes.len(),
{
    if bytes.len() == 0 {
        Seq::empty()
    } else {
        let (next, outcome) = spec_push(s, bytes[0], cap);
        seq![outcome] + spec_outcomes(next, bytes.drop_first(), cap)
    }
}

/// `n` times the same outcome.
pub open spec fn repeat(outcome: Push, n: int) -> Seq<Push> {
    Seq::new(n as nat, |i: int| outcome)
}

/// The buffer is between lines: nothing pending and not discarding.
pub open spec fn at_line_start(s: LineModel) -> bool {
    !s.discarding && (s.ready || s.line.len() == 0)
}

proof fn lemma_discard_rest(s: LineModel, body: Seq<u8>, cap: nat)
    requires
        s.discarding,
        !s.ready,
        s.line.len() == 0,
        forall|k: int| 0 <= k < body.len() ==> #[trigger] body[k] != 10,
    ensures
        spec_outcomes(s, body.push(10), cap) =~= repeat(Push::Overflow, body.len() + 1int),
        spec_push_all(s, body.push(10), cap) == (LineModel {
            discarding: false,
            dropped: sat_inc(s.dropped),
            ..s
        }),
    decreases body.len(),
{
    let bytes = body.push(10);
    let (next, o) = spec_push(s, bytes[0], cap);
    assert(spec_outcomes(s, bytes, cap) == seq![o] + spec_outcomes(next, bytes.drop_first(), cap));
    assert(spec_push_all(s, bytes, cap) == spec_push_all(next, bytes.drop_first(), cap));
    if body.len() == 0 {
        assert(bytes.drop_first() =~= Seq::<u8>::empty());
        assert(bytes[0] == 10);
    } else {
        let rest = body.drop_first();
        assert(bytes.drop_first() =~= rest.push(10));
        assert(bytes[0] == body[0] && body[0] != 10);
        assert(next == s);
        assert forall|k: int| 0 <= k < rest.len() implies #[trigger] rest[k] != 10 by {
            assert(rest[k] == body[k + 1]);
        }
        lemma_discard_rest(s, rest, cap);
    }
}

proof fn lemma_collect_rest(s: LineModel, body: Seq<u8>, cap: nat)
    requires
        !s.discarding,
        pending_line(s).len() <= cap,
        forall|k: int| 0 <= k < body.len() ==> #[trigger] body[k] != 10,
    ensures
        ({
            let l = pending_line(s);
            let out = spec_outcomes(s, body.push(10), cap);
            let f = spec_push_all(s, body.push(10), cap);
            if l.len() + body.len() <= cap {
                &&& out =~= repeat(Push::Pending, body.len() as int).push(Push::Complete)
                &&& f == (LineModel { line: l + body, ready: true, discarding: false, ..s })
            } else {
                &&& out =~= repeat(Push::Pending, cap - l.len()) + repeat(
                    Push::Overflow,
                    l.len() + body.len() - cap + 1,
                )
                &&& f == (LineModel {
                    line: Seq::empty(),
                    ready: false,
                    discarding: false,
                    dropped: sat_inc(s.dropped),
                })
            }
        }),
    decreases body.len(),
{
    let bytes = body.push(10);
    let l = pending_line(s);
    let (next0, o0) = spec_push(s, bytes[0], cap);
    assert(spec_outcomes(s, bytes, cap) == seq![o0] + spec_outcomes(next0, bytes.drop_first(), cap));
    assert(spec_push_all(s, bytes, cap) == spec_push_all(next0, bytes.drop_first(), cap));
    if body.len() == 0 {
        assert(bytes.drop_first() =~= Seq::<u8>::empty());
        assert(bytes[0] == 10);
        assert(l + body =~= l);
        assert(next0.line == l);
    } else {
        let b = body[0];
        let rest = body.drop_first();
        assert(bytes.drop_first() =~= rest.push(10));
        assert(bytes[0] == b && b != 10);
        assert forall|k: int| 0 <= k < rest.len() implies #[trigger] rest[k] != 10 by {
            assert(rest[k] == body[k + 1]);
        }
        let next = spec_push(s, b, cap).0;
        if l.len() < cap {
            assert(pending_line(next) == l.push(b));
            lemma_collect_rest(next, rest, cap);
            assert(l.push(b) + rest =~= l + body);
        } else {
            assert(next.discarding && !next.ready && next.line =~= Seq::<u8>::empty());
            lemma_discard_rest(next, rest, cap);
        }
    }
}

/// An over-long line is dropped whole, never truncated: from the start of a
/// line, pushing `body` (no `\n` in it) and then `\n` reports `Pending` for
/// each byte and `Complete` for the `\n`, leaving `body` as the line, when
/// `body` fits the capacity; otherwise `Pending` for the first `cap` bytes
/// and `Overflow` for every later one, `\n` included, with the drop counted
/// (saturating) and the buffer back at the start of a line.
pub proof fn lemma_line_pushes(s: LineModel, body: Seq<u8>, cap: nat)
    requires
        at_line_start(s),
        forall|k: int| 0 <= k < body.len() ==> #[trigger] body[k] != 10,
    ensures
        ({
            let out = spec_outcomes(s, body.push(10), cap);
            let f = spec_push_all(s, body.push(10), cap);
            if body.len() <= cap {
                &&& out == repeat(Push::Pending, body.len() as int).push(Push::Complete)
                &&& f.line == body
                &&& f.ready
                &&& !f.discarding
                &&& f.dropped == s.dropped
            } else {
                &&& out == repeat(Push::Pending, cap as int) + repeat(
                    Push::Overflow,
                    body.len() - cap + 1,
                )
                &&& at_line_start(f)
                &&& f.line.len() == 0
                &&& f.dropped == sat_inc(s.dropped)
            }
        }),
{
    assert(pending_line(s) =~= Seq::<u8>::empty());
    lemma_collect_rest(s, body, cap);
    assert(Seq::<u8>::empty() + body =~= body);
}

/// Some call of `f` was handed exactly the bytes `line` (and returned).
pub open spec fn handed_to<F: FnMut(&[u8])>(f: F, line: Seq<u8>) -> bool {
    exists|l: &[u8]| #[trigger] call_ensures(f, (l,), ()) && l@ == line
}

/// Accumulates bytes into newline-terminated lines with a fixed `N`-byte
/// capacity and no allocation.
#[derive(Clone, Debug)]
pub struct LineBuffer<const N: usize> {
    buf: [u8; N],
    len: usize,
    ready: bool,
    discarding: bool,
    dropped: u32,
}

impl<const N: usize> View for LineBuffer<N> {
    type V = LineModel;

    closed spec fn view(&self) -> LineModel {
        LineModel {
            line: self.buf@.take(self.len as int),
            ready: self.ready,
            discarding: self.discarding,
            dropped: self.dropped,
        }
    }
}

impl<const N: usize> LineBuffer<N> {
    /// The stored length is within the array, so the current line never
    /// exceeds the capacity.
    pub closed spec fn wf(&self) -> bool {
        self.len <= N
    }

    /// An empty buffer.
    pub fn new() -> (r: Self)
        ensures
            r@ == spec_empty_line(),
            r.wf(),
    {
        let r = Self { buf: [0u8; N], len: 0, ready: false, discarding: false, dropped: 0 };
        assert(r@.line =~= Seq::<u8>::empty());
        r
    }

    /// Push one byte. When this returns [`Push::Complete`], read the line with
    /// [`Self::line`]; the next `push` automatically starts a fresh line.
    pub fn push(&mut self, byte: u8) -> (r: Push)
        requires
            old(self).wf(),
        ensures
            (final(self)@, r) == spec_push(old(self)@, byte, N as nat),
            final(self).wf(),
            final(self)@.line.len() <= N,
    {
        if self.ready {
            self.clear();
        }
        if self.discarding {
            if byte == 10 {
                self.discarding = false;
                self.dropped = if self.dropped == u32::MAX {
                    u32::MAX
                } else {
                    self.dropped + 1
                };
            }
            return Push::Overflow;
        }
        if byte == 10 {
            self.ready = true;
            return Push::Complete;
        }
        if self.len < N {
            let ghost before = self.buf@.take(self.len as int);
            let i = self.len;
            self.buf[i] = byte;
            self.len = i + 1;
            assert(self.buf@.take(self.len as int) =~= before.push(byte));
            Push::Pending
        } else {
            self.len = 0;
            self.discarding = true;
            assert(self@.line =~= Seq::<u8>::empty());
            Push::Overflow
        }
    }

    /// Push a chunk, invoking `on_line` for each completed line.
    ///
    /// Every line that the chunk completes (the lines of `spec_lines`: each
    /// newline-terminated line that fits the capacity, over-long ones being
    /// dropped) is handed to `on_line`, with exactly its bytes.
    pub fn push_all(&mut self, bytes: &[u8], mut on_line: impl FnMut(&[u8]))
        requires
            old(self).wf(),
            forall|l: &[u8]| call_requires(on_line, (l,)),
        ensures
            final(self)@ == spec_push_all(old(self)@, bytes@, N as nat),
            final(self).wf(),
            forall|k: int|
                0 <= k < spec_lines(old(self)@, bytes@, N as nat).len() ==> handed_to(
                    on_line,
                    #[trigger] spec_lines(old(self)@, bytes@, N as nat)[k],
                ),
    {
        let mut i: usize = 0;
        let ghost all = spec_lines(old(self)@, bytes@, N as nat);
        let ghost mut handed: Seq<&[u8]> = Seq::empty();
        let ghost callback = on_line;
        assert(bytes@.skip(0) =~= bytes@);
        while i < bytes.len()
            invariant
                self.wf(),
                0 <= i <= bytes@.len(),
                forall|l: &[u8]| call_requires(on_line, (l,)),
                on_line == callback,
                all == spec_lines(old(self)@, bytes@, N as nat),
                spec_push_all(old(self)@, bytes@, N as nat) == spec_push_all(
                    self@,
                    bytes@.skip(i as int),
                    N as nat,
                ),
                handed.len() <= all.len(),
                all.skip(handed.len() as int) == spec_lines(self@, bytes@.skip(i as int), N as nat),
                forall|k: int|
                    0 <= k < handed.len() ==> call_ensures(on_line, (#[trigger] handed[k],), ())
                        && handed[k]@ == all[k],
            decreases bytes@.len() - i,
        {
            let ghost before = self@;
            let ghost rest = bytes@.skip(i as int);
            assert(rest.drop_first() =~= bytes@.skip(i + 1));
            assert(rest[0] == bytes@[i as int]);
            let ghost later = spec_lines(spec_push(before, rest[0], N as nat).0, rest.drop_first(), N as nat);
            if self.push(bytes[i]) == Push::Complete {
                let line = self.line();
                on_line(line);
                proof {
                    let n = handed.len() as int;
                    assert(spec_lines(before, rest, N as nat) == seq![self@.line] + later);
                    assert(all.skip(n)[0] == line@);
                    assert(all.skip(n + 1) =~= all.skip(n).drop_first());
                    assert(all.skip(n).drop_first() =~= later);
                    handed = handed.push(line);
                }
            } else {
                assert(spec_lines(before, rest, N as nat) == later);
            }
            i = i + 1;
        }
        proof {
            assert(bytes@.skip(i as int) =~= Seq::<u8>::empty());
            assert(handed.len() == all.len());
            assert forall|k: int|
                0 <= k < all.len() implies handed_to(on_line, #[trigger] all[k]) by {
                assert(call_ensures(on_line, (handed[k],), ()));
            }
        }
    }

    /// The bytes of the current (possibly incomplete) line, without `\n`.
    pub fn line(&self) -> (r: &[u8])
        requires
            self.wf(),
        ensures
            r@ == self@.line,
    {
        let all: &[u8] = self.buf.as_slice();
        vstd::slice::slice_subrange(all, 0, self.len)
    }

    /// Whether a complete line is waiting to be read.
    pub fn is_ready(&self) -> (r: bool)
        ensures
            r == self@.ready,
    {
        self.ready
    }

    /// Discard the current line.
    pub fn clear(&mut self)
        ensures
            final(self)@ == (LineModel { line: Seq::empty(), ready: false, ..old(self)@ }),
            final(self).wf(),
    {
        self.len = 0;
        self.ready = false;
        assert(self@.line =~= Seq::<u8>::empty());
    }

    /// Number of over-length lines discarded so far.
    pub fn dropped_lines(&self) -> (r: u32)
        ensures
            r == self@.dropped,
    {
        self.dropped
    }
}

impl<const N: usize> Default for LineBuffer<N> {
    fn default() -> (r: Self)
        ensures
            r@ == spec_empty_line(),
    {
        Self::new()
    }
}

} // verus!
