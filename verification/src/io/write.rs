//! Buffered writing over a fixed-size buffer.
//!
//! `BufWriter` batches small writes in a caller-supplied buffer and hands them
//! to a [`Write`] stream when the buffer would overflow, when a write is too
//! large to batch, or on an explicit flush.  The governing equation is that
//! `out() + pending()` — bytes on the wire plus bytes still buffered — grows
//! by exactly the bytes written, in order.

use vstd::prelude::*;

use crate::io::stream::{write_all, Stream, TransportError};

verus! {

/// The wire output after flushing `pending` behind `out`.
pub open spec fn flushed_out(out: Seq<u8>, pending: Seq<u8>) -> Seq<u8> {
    out + pending
}

/// Law: a second flush moves nothing.  One flush empties the pending buffer,
/// so flushing again appends the empty sequence and the wire output is
/// unchanged.
pub proof fn lemma_flush_twice(out: Seq<u8>, pending: Seq<u8>)
    ensures
        flushed_out(flushed_out(out, pending), Seq::<u8>::empty()) == flushed_out(out, pending),
{
    assert(flushed_out(flushed_out(out, pending), Seq::<u8>::empty()) =~= flushed_out(
        out,
        pending,
    ));
}

/// A buffering writer over a caller-supplied buffer of fixed capacity.
///
/// The prefix `[0, filled)` of the buffer holds bytes accepted but not yet
/// passed on.
pub struct BufWriter {
    buf: Vec<u8>,
    filled: usize,
}

impl BufWriter {
    /// The filled prefix lies inside the buffer.
    pub closed spec fn wf(&self) -> bool {
        self.filled <= self.buf@.len()
    }

    /// The fixed physical size of the buffer.
    pub closed spec fn capacity(&self) -> nat {
        self.buf@.len()
    }

    /// The bytes accepted but not yet passed to the stream.
    pub closed spec fn pending(&self) -> Seq<u8> {
        self.buf@.take(self.filled as int)
    }

    /// Wrap `buf`; its full length becomes the batching capacity.
    pub fn new(buf: Vec<u8>) -> (r: Self)
        ensures
            r.wf(),
            r.capacity() == buf@.len(),
            r.pending() == Seq::<u8>::empty(),
    {
        let r = BufWriter { buf, filled: 0 };
        proof {
            assert(r.pending() =~= Seq::<u8>::empty());
        }
        r
    }

    /// Drop whatever is pending.
    pub fn reset(&mut self)
        requires
            old(self).wf(),
        ensures
            final(self).wf(),
            final(self).capacity() == old(self).capacity(),
            final(self).pending() == Seq::<u8>::empty(),
    {
        self.filled = 0;
        proof {
            assert(self.pending() =~= Seq::<u8>::empty());
        }
    }

    /// Pass every pending byte to `w` and empty the buffer.
    pub fn flush<W: Stream>(&mut self, w: &mut W) -> (r: Result<(), TransportError>)
        requires
            old(self).wf(),
            old(w).inv(),
        ensures
            final(self).wf(),
            final(w).inv(),
            final(w).inp() == old(w).inp(),
            final(self).capacity() == old(self).capacity(),
            match r {
                Ok(()) => {
                    &&& final(w).out() == flushed_out(old(w).out(), old(self).pending())
                    &&& final(self).pending() == Seq::<u8>::empty()
                },
                Err(_) => {
                    &&& final(self).pending() == old(self).pending()
                    &&& exists|k: int|
                        0 <= k <= old(self).pending().len() && final(w).out() == old(w).out()
                            + old(self).pending().subrange(0, k)
                },
            },
    {
        let s = self.buf.as_slice();
        let prefix = &s[0..self.filled];
        proof {
            assert(prefix@ =~= old(self).pending());
        }
        match write_all(w, prefix) {
            Ok(()) => {
                self.filled = 0;
                proof {
                    assert(self.pending() =~= Seq::<u8>::empty());
                }
                Ok(())
            },
            Err(e) => Err(e),
        }
    }

    /// Accept `data`: batch it if it fits, else flush and, for oversized
    /// writes, pass it through whole.
    pub fn write<W: Stream>(&mut self, w: &mut W, data: &[u8]) -> (r: Result<(), TransportError>)
        requires
            old(self).wf(),
            old(w).inv(),
        ensures
            final(self).wf(),
            final(w).inv(),
            final(w).inp() == old(w).inp(),
            final(self).capacity() == old(self).capacity(),
            match r {
                Ok(()) => final(w).out() + final(self).pending() == old(w).out() + old(
                    self,
                ).pending() + data@,
                Err(_) => exists|k: int|
                    0 <= k <= old(self).pending().len() + data@.len() && final(w).out() == old(
                        w,
                    ).out() + (old(self).pending() + data@).subrange(0, k),
            },
    {
        proof {
            assert((old(self).pending() + data@).subrange(0, old(self).pending().len() as int)
                =~= old(self).pending());
        }
        if data.len() > self.buf.len() - self.filled {
            match self.flush(w) {
                Ok(()) => {},
                Err(e) => {
                    proof {
                        let k = choose|k: int|
                            0 <= k <= old(self).pending().len() && w.out() == old(w).out() + old(
                                self,
                            ).pending().subrange(0, k);
                        assert((old(self).pending() + data@).subrange(0, k) =~= old(
                            self,
                        ).pending().subrange(0, k));
                    }
                    return Err(e);
                },
            }
        }
        let ghost mid_out = w.out();
        let ghost mid_pending = self.pending();
        proof {
            assert(mid_out + mid_pending == old(w).out() + old(self).pending());
        }
        if data.len() >= self.buf.len() {
            match write_all(w, data) {
                Ok(()) => {
                    proof {
                        assert(self.pending() =~= Seq::<u8>::empty());
                        assert(w.out() + self.pending() =~= old(w).out() + old(self).pending()
                            + data@);
                    }
                    Ok(())
                },
                Err(e) => {
                    proof {
                        let j = choose|j: int|
                            0 <= j <= data@.len() && w.out() == mid_out + data@.subrange(0, j);
                        assert(mid_pending =~= Seq::<u8>::empty());
                        assert(w.out() =~= old(w).out() + (old(self).pending() + data@).subrange(
                            0,
                            old(self).pending().len() + j,
                        ));
                    }
                    Err(e)
                },
            }
        } else {
            let ghost prebuf = self.buf@;
            let ghost prefilled = self.filled as int;
            let mut i: usize = 0;
            let n = data.len();
            while i < n
                invariant
                    i <= n,
                    n == data@.len(),
                    self.filled == prefilled,
                    prefilled + n <= self.buf@.len(),
                    prefilled + n <= usize::MAX,
                    self.buf@.len() == prebuf.len(),
                    forall|j: int| 0 <= j < prefilled ==> self.buf@[j] == prebuf[j],
                    forall|j: int|
                        0 <= j < i ==> self.buf@[prefilled + j] == data@[j],
                decreases n - i,
            {
                let b = data[i];
                self.buf[self.filled + i] = b;
                i = i + 1;
            }
            self.filled = self.filled + n;
            proof {
                assert(self.pending() =~= mid_pending + data@);
                assert(w.out() + self.pending() =~= old(w).out() + old(self).pending() + data@);
            }
            Ok(())
        }
    }
}

} // verus!
