//! Output writer over a caller-provided buffer.
//!
//! Every instruction is emitted whole or not at all: one capacity check
//! covers its full payload. Capacity is `min(buffer length, configured
//! limit)`. Overflowing it yields [`Error::BufferTooSmall`] when the
//! buffer is smaller than the limit (retrying with a larger buffer can
//! help) or [`Error::OutputLimitExceeded`] when the output inherently
//! exceeds the limit.
use vstd::prelude::*;
use crate::error::Error;

verus! {

/// The error for an emission that does not fit.
pub open spec fn spec_overflow(cap: nat, limit: nat) -> Error {
    if cap >= limit {
        Error::OutputLimitExceeded
    } else {
        Error::BufferTooSmall
    }
}

/// `BufferTooSmall` when the caller's buffer is below the configured
/// budget; `OutputLimitExceeded` when the output exceeds the budget.
pub fn overflow(cap: usize, limit: usize) -> (e: Error)
    ensures
        e == spec_overflow(cap as nat, limit as nat),
{
    if cap >= limit {
        Error::OutputLimitExceeded
    } else {
        Error::BufferTooSmall
    }
}

/// What has been written so far, and the error that stopped writing.
#[verifier::ext_equal]
pub struct Sink {
    pub out: Seq<u8>,
    pub err: Option<Error>,
}

/// The buffer length and the configured limit.
pub struct Lim {
    pub buflen: nat,
    pub limit: nat,
}

pub open spec fn cap_of(l: Lim) -> nat {
    if l.buflen <= l.limit {
        l.buflen
    } else {
        l.limit
    }
}

/// Emitting `bytes` into a sink: appended when it fits, an overflow
/// error otherwise; nothing happens once an error has occurred.
pub open spec fn emit(s: Sink, bytes: Seq<u8>, l: Lim) -> Sink {
    if s.err is Some {
        s
    } else if s.out.len() + bytes.len() <= cap_of(l) {
        Sink { out: s.out + bytes, err: None }
    } else {
        Sink { out: s.out, err: Some(spec_overflow(l.buflen, l.limit)) }
    }
}

/// A sink stopped by an error.
pub open spec fn fail(s: Sink, e: Error) -> Sink {
    if s.err is Some {
        s
    } else {
        Sink { out: s.out, err: Some(e) }
    }
}

/// The writer's position and limit; the buffer is passed to each call.
pub struct Writer {
    pub len: usize,
    pub limit: usize,
}

/// The sink a writer over buffer `out` stands for.
pub open spec fn sink_of(w: Writer, out: Seq<u8>) -> Sink {
    Sink { out: out.subrange(0, w.len as int), err: None }
}

/// A call moved writer `w0` over `o0` to `w1` over `o1`, having written
/// what sink `s1` holds, and left the rest of the buffer untouched.
pub open spec fn wrote(w0: Writer, o0: Seq<u8>, w1: Writer, o1: Seq<u8>, s1: Sink) -> bool {
    &&& o1.len() == o0.len()
    &&& w1.limit == w0.limit
    &&& w1.len == s1.out.len()
    &&& w1.len <= o1.len()
    &&& o1.subrange(0, w1.len as int) == s1.out
    &&& o1.subrange(w1.len as int, o1.len() as int) == o0.subrange(w1.len as int, o0.len() as int)
}

/// Untouched tails compose.
pub proof fn lemma_tail(orig: Seq<u8>, o0: Seq<u8>, o1: Seq<u8>, a: int, b: int, c: int)
    requires
        0 <= a <= b <= c <= orig.len(),
        o0.len() == orig.len(),
        o1.len() == orig.len(),
        o0.subrange(b, o0.len() as int) == orig.subrange(b, orig.len() as int),
        o1.subrange(c, o1.len() as int) == o0.subrange(c, o0.len() as int),
    ensures
        o1.subrange(c, o1.len() as int) == orig.subrange(c, orig.len() as int),
{
    assert forall|k: int| c <= k < orig.len() implies o1[k] == orig[k] by {
        assert(o1.subrange(c, o1.len() as int)[k - c] == o0.subrange(c, o0.len() as int)[k - c]);
        assert(o0.subrange(b, o0.len() as int)[k - b] == orig.subrange(b, orig.len() as int)[k - b]);
    }
    assert(o1.subrange(c, o1.len() as int) =~= orig.subrange(c, orig.len() as int));
}

/// A call that wrote into `o1` (from `o0`) ended with `r` as `s` says:
/// the output at the front, the rest of the buffer untouched, `Ok` with
/// the length exactly when no error occurred.
pub open spec fn written_as(s: Sink, o0: Seq<u8>, o1: Seq<u8>, r: Result<usize, Error>) -> bool {
    &&& o1.len() == o0.len()
    &&& s.out.len() <= o1.len()
    &&& o1.subrange(0, s.out.len() as int) == s.out
    &&& o1.subrange(s.out.len() as int, o1.len() as int) == o0.subrange(s.out.len() as int, o0.len() as int)
    &&& match r {
        Ok(n) => s.err is None && n == s.out.len(),
        Err(e) => s.err == Some(e),
    }
}

/// The outcome of a fallible call agrees with sink `s1`.
pub open spec fn outcome(r: Result<(), Error>, s1: Sink) -> bool {
    &&& (r is Ok <==> s1.err is None)
    &&& (r matches Err(e) ==> s1.err == Some(e))
}

impl Writer {
    pub open spec fn lim(&self, buflen: nat) -> Lim {
        Lim { buflen: buflen, limit: self.limit as nat }
    }

    /// The buffer holds `written` before the position and its untouched
    /// bytes `orig` after it.
    pub open spec fn holds(&self, out: Seq<u8>, written: Seq<u8>, orig: Seq<u8>) -> bool {
        &&& out.len() == orig.len()
        &&& written.len() == self.len
        &&& self.len <= out.len()
        &&& out.subrange(0, self.len as int) == written
        &&& out.subrange(self.len as int, out.len() as int) == orig.subrange(self.len as int, orig.len() as int)
    }

    pub fn with_limit(limit: usize) -> (w: Writer)
        ensures
            w.len == 0,
            w.limit == limit,
    {
        Writer { len: 0, limit }
    }

    /// Emit `src[start..start + n]` whole, or fail without writing
    /// anything.
    pub fn emit_from(&mut self, out: &mut [u8], src: &[u8], start: usize, n: usize) -> (r: Result<(), Error>)
        requires
            old(self).len <= old(out)@.len(),
            start + n <= src@.len(),
        ensures
            ({
                let s1 = emit(
                    sink_of(*old(self), old(out)@),
                    src@.subrange(start as int, start + n),
                    old(self).lim(old(out)@.len() as nat),
                );
                &&& wrote(*old(self), old(out)@, *final(self), final(out)@, s1)
                &&& outcome(r, s1)
            }),
    {
        let cap = if out.len() <= self.limit { out.len() } else { self.limit };
        if n <= cap && self.len <= cap - n {
            let ghost o0 = out@;
            let mut k: usize = 0;
            while k < n
                invariant
                    k <= n,
                    start + n <= src.len(),
                    self.len + n <= out.len(),
                    out@.len() == o0.len(),
                    forall|j: int| 0 <= j < self.len ==> out@[j] == o0[j],
                    forall|j: int| self.len <= j < self.len + k ==> out@[j] == src@[start + j - self.len],
                    forall|j: int| self.len + k <= j < out@.len() ==> out@[j] == o0[j],
                decreases n - k,
            {
                out[self.len + k] = src[start + k];
                k = k + 1;
            }
            proof {
                assert(out@.subrange(0, (self.len + n) as int) =~= o0.subrange(0, self.len as int) + src@.subrange(
                    start as int,
                    start + n,
                ));
                assert(out@.subrange((self.len + n) as int, out@.len() as int) =~= o0.subrange(
                    (self.len + n) as int,
                    o0.len() as int,
                ));
            }
            self.len = self.len + n;
            Ok(())
        } else {
            Err(overflow(out.len(), self.limit))
        }
    }

    /// Emit `bytes` whole, or fail without writing anything.
    pub fn emit(&mut self, out: &mut [u8], bytes: &[u8]) -> (r: Result<(), Error>)
        requires
            old(self).len <= old(out)@.len(),
        ensures
            ({
                let s1 = emit(sink_of(*old(self), old(out)@), bytes@, old(self).lim(old(out)@.len() as nat));
                &&& wrote(*old(self), old(out)@, *final(self), final(out)@, s1)
                &&& outcome(r, s1)
            }),
    {
        proof {
            assert(bytes@.subrange(0, bytes@.len() as int) =~= bytes@);
        }
        self.emit_from(out, bytes, 0, bytes.len())
    }

    /// Emit one byte.
    pub fn emit1(&mut self, out: &mut [u8], b: u8) -> (r: Result<(), Error>)
        requires
            old(self).len <= old(out)@.len(),
        ensures
            ({
                let s1 = emit(sink_of(*old(self), old(out)@), seq![b], old(self).lim(old(out)@.len() as nat));
                &&& wrote(*old(self), old(out)@, *final(self), final(out)@, s1)
                &&& outcome(r, s1)
            }),
    {
        let v: [u8; 1] = [b];
        proof {
            assert(v@ =~= seq![b]);
        }
        self.emit(out, v.as_slice())
    }

    /// Emit a two-byte instruction.
    pub fn emit2(&mut self, out: &mut [u8], b0: u8, b1: u8) -> (r: Result<(), Error>)
        requires
            old(self).len <= old(out)@.len(),
        ensures
            ({
                let s1 = emit(sink_of(*old(self), old(out)@), seq![b0, b1], old(self).lim(old(out)@.len() as nat));
                &&& wrote(*old(self), old(out)@, *final(self), final(out)@, s1)
                &&& outcome(r, s1)
            }),
    {
        let v: [u8; 2] = [b0, b1];
        proof {
            assert(v@ =~= seq![b0, b1]);
        }
        self.emit(out, v.as_slice())
    }

    pub fn finish(&self) -> (r: usize)
        ensures
            r == self.len,
    {
        self.len
    }
}

} // verus!
