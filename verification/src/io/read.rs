//! Buffered, line-oriented reading over a fixed-size buffer.
//!
//! `BufReader` scans for a terminator byte inside a buffer of fixed capacity,
//! refilling from a [`Read`] stream as needed and compacting the buffer when
//! the filled range reaches its physical end.  Every block it hands out is a
//! literal prefix of the bytes still owed by `buffered() + inp()`: nothing is
//! duplicated and nothing is skipped.

use vstd::prelude::*;
use vstd::string::StringSliceAdditionalSpecFns;
use vstd::utf8::{encode_utf8, valid_utf8};

use crate::io::stream::{Stream, TransportError};

verus! {

/// Carriage return.
pub const CR: u8 = 13;

/// Line feed.
pub const LF: u8 = 10;

/// True when `s` does not contain the byte `b`.
pub open spec fn no_byte(s: Seq<u8>, b: u8) -> bool {
    forall|i: int| 0 <= i < s.len() ==> s[i] != b
}

/// Index of the first occurrence of `b` in `s`, or `-1` when absent.
pub open spec fn find_byte(s: Seq<u8>, b: u8) -> int
    decreases s.len(),
{
    if s.len() == 0 {
        -1
    } else if s[0] == b {
        0
    } else {
        let f = find_byte(s.skip(1), b);
        if f == -1 {
            -1
        } else {
            f + 1
        }
    }
}

/// What `find_byte` returns: the first hit, or a proof there is none.
pub proof fn lemma_find_byte(s: Seq<u8>, b: u8)
    ensures
        find_byte(s, b) == -1 ==> no_byte(s, b),
        find_byte(s, b) != -1 ==> {
            &&& 0 <= find_byte(s, b) < s.len()
            &&& s[find_byte(s, b)] == b
            &&& no_byte(s.take(find_byte(s, b)), b)
        },
    decreases s.len(),
{
    if s.len() == 0 {
    } else if s[0] == b {
        assert(s.take(0) =~= Seq::<u8>::empty());
    } else {
        lemma_find_byte(s.skip(1), b);
        let f1 = find_byte(s.skip(1), b);
        if f1 == -1 {
            assert forall|i: int| 0 <= i < s.len() implies s[i] != b by {
                if i > 0 {
                    assert(s.skip(1)[i - 1] == s[i]);
                }
            }
        } else {
            assert(s[f1 + 1] == s.skip(1)[f1]);
            assert forall|i: int| 0 <= i < f1 + 1 implies #[trigger] s.take(f1 + 1)[i] != b by {
                if i > 0 {
                    assert(s.skip(1).take(f1)[i - 1] == s[i]);
                }
            }
        }
    }
}

/// `find_byte` finds `i` when `b` sits at `i` behind a clean prefix.
pub proof fn lemma_find_byte_at(s: Seq<u8>, b: u8, i: int)
    requires
        0 <= i < s.len(),
        s[i] == b,
        no_byte(s.take(i), b),
    ensures
        find_byte(s, b) == i,
    decreases s.len(),
{
    if s[0] == b {
        if i > 0 {
            assert(s.take(i)[0] == s[0]);
        }
    } else {
        assert(s.take(i)[0] == s[0]) by {
            assert(i > 0) by {
                if i == 0 {
                    assert(s[0] == b);
                }
            }
        }
        assert forall|j: int| 0 <= j < i - 1 implies #[trigger] s.skip(1).take(i - 1)[j] != b by {
            assert(s.take(i)[j + 1] == s.skip(1)[j]);
        }
        assert(s.skip(1)[i - 1] == s[i]);
        lemma_find_byte_at(s.skip(1), b, i - 1);
    }
}

/// A clean prefix pushes the first hit past it.
pub proof fn lemma_find_byte_beyond(s: Seq<u8>, b: u8, k: int)
    requires
        0 <= k <= s.len(),
        no_byte(s.take(k), b),
    ensures
        find_byte(s, b) == -1 || find_byte(s, b) >= k,
{
    lemma_find_byte(s, b);
    let f = find_byte(s, b);
    if 0 <= f < k {
        assert(s.take(k)[f] == s[f]);
    }
}

/// A line with its terminator removed: a trailing `"\r\n"` or `"\n"` is
/// dropped, anything else is kept.
pub open spec fn stripped(raw: Seq<u8>) -> Seq<u8> {
    if raw.len() >= 2 && raw[raw.len() - 2] == CR && raw[raw.len() - 1] == LF {
        raw.take(raw.len() - 2)
    } else if raw.len() >= 1 && raw[raw.len() - 1] == LF {
        raw.take(raw.len() - 1)
    } else {
        raw
    }
}

/// Length of the block a successful `read_until` hands out of `avail`.
pub open spec fn until_len(avail: Seq<u8>, term: u8) -> int {
    if find_byte(avail, term) >= 0 {
        find_byte(avail, term) + 1
    } else {
        avail.len() as int
    }
}

/// Law: blocks handed out in sequence concatenate to one unbroken prefix of
/// the byte source.  `read_until` returns `avail.take(n)` and leaves
/// `avail.skip(n)`, so consecutive blocks of sizes `a` and `b` amount to the
/// prefix of size `a + b`: no byte is duplicated and none is skipped.
pub proof fn lemma_reader_no_loss(avail: Seq<u8>, a: int, b: int)
    requires
        0 <= a,
        0 <= b,
        a + b <= avail.len(),
    ensures
        avail.take(a) + avail.skip(a).take(b) == avail.take(a + b),
{
    assert(avail.take(a) + avail.skip(a).take(b) =~= avail.take(a + b));
}

/// A failure while reading a block.
#[derive(Debug)]
pub enum BufReaderError {
    /// The buffer filled up before the terminator arrived; the drained
    /// contents are attached.
    FullBuffer(Vec<u8>),
    /// The underlying stream failed.
    ReaderError(TransportError),
    /// The block was not valid UTF-8; the raw bytes are attached.
    DecodeFailed(Vec<u8>),
}

/// Relies on `core::str::from_utf8`: it succeeds exactly on valid UTF-8 and
/// returns a string slice over the same bytes.
#[verifier::external_body]
pub(crate) fn try_utf8<'a>(v: &'a [u8]) -> (r: Option<&'a str>)
    ensures
        r is Some <==> valid_utf8(v@),
        r matches Some(s) ==> s.spec_bytes() == v@,
{
    core::str::from_utf8(v).ok()
}

/// A line-oriented reader over a caller-supplied buffer of fixed capacity.
///
/// The filled range `[start, end)` holds bytes read from the stream but not
/// yet handed out.
pub struct BufReader {
    buf: Vec<u8>,
    start: usize,
    end: usize,
}

impl BufReader {
    /// The filled range lies inside the buffer.
    pub closed spec fn wf(&self) -> bool {
        self.start <= self.end <= self.buf@.len()
    }

    /// The fixed physical size of the buffer.
    pub closed spec fn capacity(&self) -> nat {
        self.buf@.len()
    }

    /// The bytes read from the stream but not yet handed out.
    pub closed spec fn buffered(&self) -> Seq<u8> {
        self.buf@.subrange(self.start as int, self.end as int)
    }

    /// Wrap `buf`; its full length becomes the reading capacity.
    pub fn new(buf: Vec<u8>) -> (r: Self)
        ensures
            r.wf(),
            r.capacity() == buf@.len(),
            r.buffered() == Seq::<u8>::empty(),
    {
        let r = BufReader { buf, start: 0, end: 0 };
        proof {
            assert(r.buffered() =~= Seq::<u8>::empty());
        }
        r
    }

    /// Drop whatever is buffered.
    pub fn reset(&mut self)
        requires
            old(self).wf(),
        ensures
            final(self).wf(),
            final(self).capacity() == old(self).capacity(),
            final(self).buffered() == Seq::<u8>::empty(),
    {
        self.start = 0;
        self.end = 0;
        proof {
            assert(self.buffered() =~= Seq::<u8>::empty());
        }
    }

    /// Copy `self.buf[i..j]` out into a fresh vector.
    fn copy_range(&self, i: usize, j: usize) -> (r: Vec<u8>)
        requires
            i <= j <= self.buf@.len(),
        ensures
            r@ == self.buf@.subrange(i as int, j as int),
    {
        let mut r: Vec<u8> = Vec::new();
        let mut k: usize = i;
        while k < j
            invariant
                i <= k <= j <= self.buf@.len(),
                r@ == self.buf@.subrange(i as int, k as int),
            decreases j - k,
        {
            let b = self.buf[k];
            r.push(b);
            proof {
                assert(r@ =~= self.buf@.subrange(i as int, k + 1));
            }
            k = k + 1;
        }
        r
    }

    /// Move the filled range to the front of the buffer.
    fn compact(&mut self)
        requires
            old(self).wf(),
            0 < old(self).start,
        ensures
            final(self).wf(),
            final(self).capacity() == old(self).capacity(),
            final(self).buffered() == old(self).buffered(),
            final(self).start == 0,
            final(self).end == old(self).end - old(self).start,
    {
        let len = self.end - self.start;
        let mut k: usize = 0;
        while k < len
            invariant
                k <= len,
                len == self.end - self.start,
                self.wf(),
                0 < self.start,
                self.start == old(self).start,
                self.end == old(self).end,
                self.buf@.len() == old(self).buf@.len(),
                forall|j: int| 0 <= j < k ==> self.buf@[j] == old(self).buf@[self.start + j],
                forall|j: int|
                    k <= j < self.buf@.len() ==> self.buf@[j] == old(self).buf@[j],
            decreases len - k,
        {
            let b = self.buf[self.start + k];
            self.buf[k] = b;
            k = k + 1;
        }
        self.start = 0;
        self.end = len;
        proof {
            assert(self.buffered() =~= old(self).buffered());
        }
    }

    /// Return the next block of bytes up to and including the first occurrence
    /// of `term`, refilling from `r` as needed.
    ///
    /// If the buffer fills up without a terminator, the drained contents come
    /// back as `FullBuffer`.  If the stream ends first, whatever was buffered
    /// comes back as a final block.
    pub fn read_until<R: Stream>(&mut self, r: &mut R, term: u8) -> (res: Result<
        Vec<u8>,
        BufReaderError,
    >)
        requires
            old(self).wf(),
            old(r).inv(),
        ensures
            final(self).wf(),
            final(r).inv(),
            final(r).out() == old(r).out(),
            final(self).capacity() == old(self).capacity(),
            ({
                let avail = old(self).buffered() + old(r).inp();
                let cap = old(self).capacity();
                let f = find_byte(avail, term);
                match res {
                    Ok(block) => {
                        &&& ((0 <= f < cap) || (f == -1 && avail.len() < cap))
                        &&& block@ == avail.take(
                            if f >= 0 {
                                f + 1
                            } else {
                                avail.len() as int
                            },
                        )
                        &&& final(self).buffered() + final(r).inp() == avail.skip(
                            block@.len() as int,
                        )
                        &&& (f == -1 ==> final(r).inp().len() == 0)
                    },
                    Err(BufReaderError::FullBuffer(block)) => {
                        &&& (f == -1 || f >= cap)
                        &&& avail.len() >= cap
                        &&& block@ == avail.take(cap as int)
                        &&& final(self).buffered() + final(r).inp() == avail.skip(cap as int)
                    },
                    Err(BufReaderError::ReaderError(_)) => {
                        final(self).buffered() + final(r).inp() == avail
                    },
                    Err(BufReaderError::DecodeFailed(_)) => false,
                }
            }),
    {
        let ghost avail = old(self).buffered() + old(r).inp();
        let mut scanned: usize = self.start;
        loop
            invariant
                self.wf(),
                r.inv(),
                r.out() == old(r).out(),
                self.buf@.len() == old(self).buf@.len(),
                self.start <= scanned <= self.end,
                no_byte(self.buf@.subrange(self.start as int, scanned as int), term),
                self.buffered() + r.inp() == avail,
                avail == old(self).buffered() + old(r).inp(),
            decreases r.inp().len(),
        {
            // scan the unchecked part of the filled range
            while scanned < self.end
                invariant
                    self.wf(),
                    r.inv(),
                    r.out() == old(r).out(),
                    self.start <= scanned <= self.end,
                    no_byte(self.buf@.subrange(self.start as int, scanned as int), term),
                    self.buffered() + r.inp() == avail,
                    avail == old(self).buffered() + old(r).inp(),
                    self.buf@.len() == old(self).buf@.len(),
                decreases self.end - scanned,
            {
                if self.buf[scanned] == term {
                    let ghost pre = *self;
                    let block = self.copy_range(self.start, scanned + 1);
                    self.start = scanned + 1;
                    if self.start == self.end {
                        self.start = 0;
                        self.end = 0;
                    }
                    proof {
                        assert(pre.buffered() + r.inp() == avail);
                        assert(block@ =~= avail.take(block@.len() as int));
                        assert(block@.take(block@.len() - 1) =~= pre.buf@.subrange(
                            pre.start as int,
                            scanned as int,
                        ));
                        assert(avail.take(block@.len() - 1) =~= block@.take(block@.len() - 1));
                        assert(avail[block@.len() - 1] == term);
                        lemma_find_byte_at(avail, term, block@.len() - 1);
                        assert(self.buffered() =~= pre.buf@.subrange(
                            scanned + 1,
                            pre.end as int,
                        ));
                        assert(self.buffered() + r.inp() =~= avail.skip(block@.len() as int));
                    }
                    return Ok(block);
                }
                proof {
                    assert(self.buf@.subrange(self.start as int, scanned + 1) =~= self.buf@
                        .subrange(self.start as int, scanned as int).push(
                        self.buf@[scanned as int],
                    ));
                }
                scanned = scanned + 1;
            }
            // no terminator buffered; make room if the buffer is full
            if self.end >= self.buf.len() {
                if self.start == 0 {
                    let ghost pre = *self;
                    let block = self.copy_range(0, self.end);
                    self.start = 0;
                    self.end = 0;
                    proof {
                        assert(pre.buffered() + r.inp() == avail);
                        assert(block@ =~= pre.buffered());
                        assert(block@ =~= avail.take(old(self).capacity() as int));
                        assert(no_byte(block@, term));
                        lemma_find_byte_beyond(avail, term, old(self).capacity() as int);
                        assert(self.buffered() =~= Seq::<u8>::empty());
                        assert(self.buffered() + r.inp() =~= avail.skip(old(self).capacity() as int));
                    }
                    return Err(BufReaderError::FullBuffer(block));
                }
                let ghost pre = *self;
                self.compact();
                proof {
                    assert(self.buf@.subrange(self.start as int, self.end as int) =~= pre.buf@
                        .subrange(pre.start as int, pre.end as int));
                    assert(self.buf@.subrange(0, self.end as int) == self.buffered());
                }
                scanned = self.end;
            }
            // refill from the stream
            let ghost prebuf = self.buf@;
            let ghost prestart = self.start as int;
            let ghost preend = self.end as int;
            let ghost preinp = r.inp();
            let n = match r.read(&mut self.buf, self.end) {
                Ok(n) => n,
                Err(e) => {
                    return Err(BufReaderError::ReaderError(e));
                },
            };
            proof {
                assert(self.buf@.subrange(prestart, preend) =~= prebuf.subrange(prestart, preend));
            }
            if n == 0 {
                proof {
                    assert(self.buf@ =~= prebuf);
                    assert(preinp.len() == 0);
                    assert(r.inp() =~= Seq::<u8>::empty());
                }
                let ghost pre = *self;
                let block = self.copy_range(self.start, self.end);
                self.start = 0;
                self.end = 0;
                proof {
                    assert(block@ =~= pre.buffered());
                    assert(pre.buffered() + r.inp() == avail);
                    assert(block@ + r.inp() =~= avail);
                    assert(block@ =~= avail);
                    assert(no_byte(avail, term));
                    lemma_find_byte(avail, term);
                    assert(find_byte(avail, term) == -1) by {
                        if find_byte(avail, term) != -1 {
                            assert(avail[find_byte(avail, term)] == term);
                        }
                    }
                    assert(avail.take(block@.len() as int) =~= avail);
                    assert(self.buffered() =~= Seq::<u8>::empty());
                    assert(self.buffered() + r.inp() =~= avail.skip(block@.len() as int));
                }
                return Ok(block);
            }
            let newend = self.end + n;
            proof {
                assert(self.buf@.subrange(prestart, newend as int) =~= prebuf.subrange(
                    prestart,
                    preend,
                ) + preinp.take(n as int));
                assert(self.buf@.subrange(prestart, newend as int) + r.inp() =~= prebuf.subrange(
                    prestart,
                    preend,
                ) + preinp);
                assert(self.buf@.subrange(prestart, scanned as int) =~= prebuf.subrange(
                    prestart,
                    scanned as int,
                ));
            }
            self.end = newend;
        }
    }

    /// Like `read_until`, but decode the block as UTF-8.
    pub fn read_str_until<R: Stream>(&mut self, r: &mut R, term: u8) -> (res: Result<
        String,
        BufReaderError,
    >)
        requires
            old(self).wf(),
            old(r).inv(),
        ensures
            final(self).wf(),
            final(r).inv(),
            final(r).out() == old(r).out(),
            final(self).capacity() == old(self).capacity(),
            ({
                let avail = old(self).buffered() + old(r).inp();
                let cap = old(self).capacity();
                let f = find_byte(avail, term);
                let ln = until_len(avail, term);
                match res {
                    Ok(st) => {
                        &&& ((0 <= f < cap) || (f == -1 && avail.len() < cap))
                        &&& encode_utf8(st@) == avail.take(ln)
                        &&& valid_utf8(avail.take(ln))
                        &&& final(self).buffered() + final(r).inp() == avail.skip(ln)
                        &&& (f == -1 ==> final(r).inp().len() == 0)
                    },
                    Err(BufReaderError::DecodeFailed(block)) => {
                        &&& ((0 <= f < cap) || (f == -1 && avail.len() < cap))
                        &&& block@ == avail.take(ln)
                        &&& !valid_utf8(avail.take(ln))
                        &&& final(self).buffered() + final(r).inp() == avail.skip(ln)
                    },
                    Err(BufReaderError::FullBuffer(block)) => {
                        &&& (f == -1 || f >= cap)
                        &&& avail.len() >= cap
                        &&& block@ == avail.take(cap as int)
                        &&& final(self).buffered() + final(r).inp() == avail.skip(cap as int)
                    },
                    Err(BufReaderError::ReaderError(_)) => {
                        final(self).buffered() + final(r).inp() == avail
                    },
                }
            }),
    {
        let ghost avail = old(self).buffered() + old(r).inp();
        proof {
            lemma_find_byte(avail, term);
        }
        let block = match self.read_until(r, term) {
            Ok(block) => block,
            Err(e) => {
                return Err(e);
            },
        };
        match try_utf8(block.as_slice()) {
            Some(st) => Ok(st.to_owned()),
            None => Err(BufReaderError::DecodeFailed(block)),
        }
    }

    /// Read one line, strip its terminator, and decode it as UTF-8.
    pub fn read_line<R: Stream>(&mut self, r: &mut R) -> (res: Result<String, BufReaderError>)
        requires
            old(self).wf(),
            old(r).inv(),
        ensures
            final(self).wf(),
            final(r).inv(),
            final(r).out() == old(r).out(),
            final(self).capacity() == old(self).capacity(),
            ({
                let avail = old(self).buffered() + old(r).inp();
                let cap = old(self).capacity();
                let f = find_byte(avail, LF);
                let ln = until_len(avail, LF);
                match res {
                    Ok(st) => {
                        &&& ((0 <= f < cap) || (f == -1 && avail.len() < cap))
                        &&& encode_utf8(st@) == stripped(avail.take(ln))
                        &&& valid_utf8(stripped(avail.take(ln)))
                        &&& final(self).buffered() + final(r).inp() == avail.skip(ln)
                        &&& (f == -1 ==> final(r).inp().len() == 0)
                    },
                    Err(BufReaderError::DecodeFailed(block)) => {
                        &&& ((0 <= f < cap) || (f == -1 && avail.len() < cap))
                        &&& block@ == avail.take(ln)
                        &&& !valid_utf8(stripped(avail.take(ln)))
                        &&& final(self).buffered() + final(r).inp() == avail.skip(ln)
                    },
                    Err(BufReaderError::FullBuffer(block)) => {
                        &&& (f == -1 || f >= cap)
                        &&& avail.len() >= cap
                        &&& block@ == avail.take(cap as int)
                        &&& final(self).buffered() + final(r).inp() == avail.skip(cap as int)
                    },
                    Err(BufReaderError::ReaderError(_)) => {
                        final(self).buffered() + final(r).inp() == avail
                    },
                }
            }),
    {
        let ghost avail = old(self).buffered() + old(r).inp();
        proof {
            lemma_find_byte(avail, LF);
        }
        let block = match self.read_until(r, LF) {
            Ok(block) => block,
            Err(e) => {
                return Err(e);
            },
        };
        let n = block.len();
        let k = if n >= 2 && block[n - 2] == CR && block[n - 1] == LF {
            n - 2
        } else if n >= 1 && block[n - 1] == LF {
            n - 1
        } else {
            n
        };
        proof {
            assert(block@.take(k as int) =~= stripped(block@));
        }
        let bs = block.as_slice();
        let piece = &bs[0..k];
        match try_utf8(piece) {
            Some(st) => Ok(st.to_owned()),
            None => Err(BufReaderError::DecodeFailed(block)),
        }
    }
}

} // verus!
