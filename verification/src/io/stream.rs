//! The blocking byte-stream capability.
//!
//! `Stream` is the boundary between the verified protocol code and the
//! transport that carries it.  The reading side is modelled by the sequence
//! of bytes it has yet to deliver; the writing side by the sequence of bytes
//! it has accepted so far.  Every call returns only once it has made
//! progress or failed for good, so a non-blocking transport must retry
//! internally before it reports back.  `MemStream` is a verified in-memory
//! implementation, used both as the reference model and as a scripted peer
//! in tests.

use vstd::prelude::*;

verus! {

/// A transport failure.  The transport is opaque to this crate, so failures
/// carry only a coarse tag.
#[derive(Clone, Copy, Debug, PartialEq, Eq, Structural)]
pub enum TransportError {
    Other,
}

/// A blocking two-way byte stream.
///
/// `inp()` is the sequence of bytes the stream will still deliver, in order,
/// before end-of-stream; `out()` is the sequence of bytes it has accepted so
/// far.  Reading never touches `out()` and writing never touches `inp()`:
/// the two directions of a connection are independent.
pub trait Stream: Sized {
    /// Bytes that remain to be delivered.  Implementations inside this
    /// crate give this a real model; the default leaves it abstract so that
    /// unverified transports outside the crate need only supply the
    /// executable methods.
    open spec fn inp(&self) -> Seq<u8> {
        Seq::<u8>::empty()
    }

    /// Bytes accepted so far, in order.
    open spec fn out(&self) -> Seq<u8> {
        Seq::<u8>::empty()
    }

    /// Well-formedness of the stream value.
    open spec fn inv(&self) -> bool {
        true
    }

    /// Read some bytes into `buf[from..]`, returning how many were placed
    /// there.  A return of zero means end-of-stream.
    fn read(&mut self, buf: &mut Vec<u8>, from: usize) -> (r: Result<usize, TransportError>)
        requires
            old(self).inv(),
            from <= old(buf)@.len(),
        ensures
            final(self).inv(),
            final(self).out() == old(self).out(),
            final(buf)@.len() == old(buf)@.len(),
            match r {
                Ok(n) => {
                    &&& n <= old(buf)@.len() - from
                    &&& n <= old(self).inp().len()
                    &&& final(buf)@ == old(buf)@.subrange(0, from as int)
                        + old(self).inp().take(n as int)
                        + old(buf)@.skip(from + n)
                    &&& final(self).inp() == old(self).inp().skip(n as int)
                    &&& (from < old(buf)@.len() && old(self).inp().len() > 0) ==> n > 0
                },
                Err(_) => {
                    &&& final(buf)@ == old(buf)@
                    &&& final(self).inp() == old(self).inp()
                },
            },
    ;

    /// Write a prefix of `data`, returning how many bytes were accepted.
    /// A non-empty `data` makes progress or fails.
    fn write(&mut self, data: &[u8]) -> (r: Result<usize, TransportError>)
        requires
            old(self).inv(),
        ensures
            final(self).inv(),
            final(self).inp() == old(self).inp(),
            match r {
                Ok(n) => {
                    &&& n <= data@.len()
                    &&& (data@.len() > 0 ==> n > 0)
                    &&& final(self).out() == old(self).out() + data@.take(n as int)
                },
                Err(_) => final(self).out() == old(self).out(),
            },
    ;

    /// Release the transport, reporting a failure to shut down cleanly.
    fn close(self) -> (r: Result<(), TransportError>);
}

/// Drain the whole of `data` into `w`, spinning on partial writes.
pub fn write_all<W: Stream>(w: &mut W, data: &[u8]) -> (r: Result<(), TransportError>)
    requires
        old(w).inv(),
    ensures
        final(w).inv(),
        final(w).inp() == old(w).inp(),
        match r {
            Ok(()) => final(w).out() == old(w).out() + data@,
            Err(_) => exists|k: int|
                0 <= k <= data@.len() && final(w).out() == old(w).out() + data@.subrange(0, k),
        },
{
    let mut done: usize = 0;
    while done < data.len()
        invariant
            w.inv(),
            done <= data@.len(),
            w.inp() == old(w).inp(),
            w.out() == old(w).out() + data@.take(done as int),
        decreases data@.len() - done,
    {
        let rest = data.split_at(done).1;
        proof {
            assert(rest@ =~= data@.skip(done as int));
        }
        match w.write(rest) {
            Ok(n) => {
                proof {
                    assert(data@.take(done as int) + data@.skip(done as int).take(n as int)
                        =~= data@.take(done + n));
                }
                done = done + n;
            },
            Err(e) => {
                proof {
                    assert(w.out() == old(w).out() + data@.subrange(0, done as int));
                }
                return Err(e);
            },
        }
    }
    proof {
        assert(data@.take(done as int) =~= data@);
    }
    Ok(())
}

/// An in-memory stream: a scripted input side and a recording output side.
///
/// Reading consumes the scripted bytes; writing appends to the record.  It is
/// the one stream implementation verified against the `Read`/`Write`
/// contracts, and it doubles as a scripted peer in tests.
pub struct MemStream {
    input: Vec<u8>,
    pos: usize,
    output: Vec<u8>,
}

impl MemStream {
    /// A stream that will deliver `input` and has written nothing yet.
    pub fn new(input: Vec<u8>) -> (r: Self)
        ensures
            r.inv(),
            r.inp() == input@,
            r.out() == Seq::<u8>::empty(),
    {
        let r = MemStream { input, pos: 0, output: Vec::new() };
        proof {
            assert(r.inp() == r.input@.skip(0));
            assert(r.input@.skip(0) == r.input@);
        }
        r
    }

    /// The bytes written to the stream so far.
    pub fn written(&self) -> (r: &Vec<u8>)
        ensures
            r@ == self.out(),
    {
        &self.output
    }

    /// The bytes not yet read from the script.
    pub fn unread(&self) -> (r: usize)
        requires
            self.inv(),
        ensures
            r == self.inp().len(),
    {
        self.input.len() - self.pos
    }
}

impl Stream for MemStream {
    closed spec fn inp(&self) -> Seq<u8> {
        self.input@.skip(self.pos as int)
    }

    closed spec fn out(&self) -> Seq<u8> {
        self.output@
    }

    closed spec fn inv(&self) -> bool {
        self.pos <= self.input@.len()
    }

    fn read(&mut self, buf: &mut Vec<u8>, from: usize) -> (r: Result<usize, TransportError>) {
        let space = buf.len() - from;
        let remaining = self.input.len() - self.pos;
        let n = if space < remaining {
            space
        } else {
            remaining
        };
        proof {
            assert(buf@ =~= old(buf)@.subrange(0, from as int) + old(self).inp().take(0)
                + old(buf)@.skip(from as int));
        }
        let mut i: usize = 0;
        while i < n
            invariant
                i <= n,
                from + n <= buf@.len(),
                from + n <= usize::MAX,
                self.pos + n <= self.input@.len(),
                self.pos + n <= usize::MAX,
                buf@.len() == old(buf)@.len(),
                self.input@ == old(self).input@,
                self.pos == old(self).pos,
                self.output@ == old(self).output@,
                buf@ == old(buf)@.subrange(0, from as int)
                    + old(self).inp().take(i as int)
                    + old(buf)@.skip(from + i),
            decreases n - i,
        {
            let b = self.input[self.pos + i];
            buf[from + i] = b;
            proof {
                assert(old(self).inp()[i as int] == self.input@[self.pos + i]);
                assert(buf@ =~= old(buf)@.subrange(0, from as int)
                    + old(self).inp().take(i + 1)
                    + old(buf)@.skip(from + i + 1));
            }
            i = i + 1;
        }
        self.pos = self.pos + n;
        proof {
            assert(self.inp() =~= old(self).inp().skip(n as int));
        }
        Ok(n)
    }

    fn write(&mut self, data: &[u8]) -> (r: Result<usize, TransportError>) {
        let mut i: usize = 0;
        let n = data.len();
        while i < n
            invariant
                i <= n,
                n == data@.len(),
                self.input@ == old(self).input@,
                self.pos == old(self).pos,
                self.output@ == old(self).output@ + data@.take(i as int),
            decreases n - i,
        {
            let b = data[i];
            self.output.push(b);
            proof {
                assert(old(self).output@ + data@.take(i as int) + seq![b]
                    =~= old(self).output@ + data@.take(i + 1));
            }
            i = i + 1;
        }
        proof {
            assert(data@.take(n as int) =~= data@);
        }
        Ok(n)
    }

    fn close(self) -> (r: Result<(), TransportError>) {
        Ok(())
    }
}

} // verus!
