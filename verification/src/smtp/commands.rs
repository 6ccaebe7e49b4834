//! SMTP commands: the bytes each one puts on the wire and the reply it
//! expects.
//!
//! Every command writes its request through a [`BufWriter`], flushes, and
//! consumes its reply through a [`ResponseParser`].  The bytes written are
//! pinned down exactly by the spec functions here; the replies by
//! [`expect_outcome`].  The DATA payload passes the message body through
//! dot-stuffing: every `"\r\n."` in the body is sent as `"\r\n.."`, so that
//! the terminating `".\r\n"` stays unambiguous and the server's un-stuffing
//! restores the body byte for byte.

use vstd::prelude::*;
use vstd::string::StringSliceAdditionalSpecFns;

use crate::io::read::{
    find_byte, lemma_find_byte, lemma_find_byte_at, no_byte, stripped, until_len, CR, LF,
};
use crate::message::{Mail, Mailbox};
use crate::io::stream::{Stream, TransportError};
use crate::io::write::BufWriter;
use crate::smtp::extensions::{EhloInfo, ExtensionSet};
use crate::smtp::response::{
    expect_outcome, lemma_expect_consumed_bounds, line_available, multi_expect, reply_code,
    reply_has_next, reply_line_wf, reply_text, slices_equal, ReplyOutcome, ReplyVerdict,
    ResponseError, ResponseParser, SP,
};
use crate::smtp::{ConnectError, SendError};

verus! {

/// An ASCII period.
pub const DOT: u8 = 46;

/// `"\r\n"` as bytes.
pub open spec fn crlf_b() -> Seq<u8> {
    seq![CR, LF]
}

/// Whether `b` ends with `"\r\n"`.
pub open spec fn ends_crlf(b: Seq<u8>) -> bool {
    b.len() >= 2 && b[b.len() - 2] == CR && b[b.len() - 1] == LF
}

/// Whether the three bytes `"\r\n."` sit at position `j` of `s`.
pub open spec fn triple_at(s: Seq<u8>, j: int) -> bool {
    0 <= j && j + 3 <= s.len() && s[j] == CR && s[j + 1] == LF && s[j + 2] == DOT
}

/// Whether `s` contains `"\r\n."` nowhere.
pub open spec fn triple_free(s: Seq<u8>) -> bool {
    forall|j: int| !triple_at(s, j)
}

/// Dot-stuffing: every `"\r\n."` becomes `"\r\n.."`, scanning left to right.
pub open spec fn stuff(b: Seq<u8>) -> Seq<u8>
    decreases b.len(),
{
    if b.len() >= 3 && b[0] == CR && b[1] == LF && b[2] == DOT {
        seq![CR, LF, DOT, DOT] + stuff(b.skip(3))
    } else if b.len() == 0 {
        Seq::<u8>::empty()
    } else {
        seq![b[0]] + stuff(b.skip(1))
    }
}

/// The server's un-stuffing at line starts after the first line: the first
/// period after every `"\r\n"` is dropped.
pub open spec fn unstuff(p: Seq<u8>) -> Seq<u8>
    decreases p.len(),
{
    if p.len() >= 3 && p[0] == CR && p[1] == LF && p[2] == DOT {
        seq![CR, LF] + unstuff(p.skip(3))
    } else if p.len() == 0 {
        Seq::<u8>::empty()
    } else {
        seq![p[0]] + unstuff(p.skip(1))
    }
}

/// The server's full un-stuffing: the first line's leading period is dropped
/// too.
pub open spec fn unstuff_payload(p: Seq<u8>) -> Seq<u8> {
    if p.len() > 0 && p[0] == DOT {
        unstuff(p.skip(1))
    } else {
        unstuff(p)
    }
}

/// The payload DATA transmits for a body `b`: the stuffed body, completed
/// with one `"\r\n"` when the body does not end in one.
pub open spec fn stuffed_body(b: Seq<u8>) -> Seq<u8> {
    stuff(b) + if ends_crlf(b) {
        Seq::<u8>::empty()
    } else {
        crlf_b()
    }
}

/// Stuffing keeps the first two bytes and never shrinks.
proof fn lemma_stuff_head(b: Seq<u8>)
    ensures
        stuff(b).len() >= b.len(),
        b.len() >= 1 ==> stuff(b).len() >= 1 && stuff(b)[0] == b[0],
        b.len() >= 2 ==> stuff(b).len() >= 2 && stuff(b)[1] == b[1],
    decreases b.len(),
{
    if b.len() >= 3 && b[0] == CR && b[1] == LF && b[2] == DOT {
        lemma_stuff_head(b.skip(3));
    } else if b.len() > 0 {
        lemma_stuff_head(b.skip(1));
        if b.len() >= 2 {
            assert(stuff(b)[1] == stuff(b.skip(1))[0]);
            assert(b.skip(1)[0] == b[1]);
        }
    }
}

/// Un-stuffing inverts stuffing, even with a dot-free suffix appended.
proof fn lemma_unstuff_stuff(b: Seq<u8>, s: Seq<u8>)
    requires
        no_byte(s, DOT),
    ensures
        unstuff(stuff(b) + s) == b + unstuff(s),
    decreases b.len(),
{
    if b.len() == 0 {
        assert(stuff(b) + s =~= s);
        assert(b + unstuff(s) =~= unstuff(s));
    } else if b.len() >= 3 && b[0] == CR && b[1] == LF && b[2] == DOT {
        let b3 = b.skip(3);
        let x = stuff(b) + s;
        assert(x[0] == CR && x[1] == LF && x[2] == DOT);
        assert(x.skip(3) =~= seq![DOT] + (stuff(b3) + s));
        let y = seq![DOT] + (stuff(b3) + s);
        assert(y[0] == DOT);
        assert(unstuff(y) == seq![y[0]] + unstuff(y.skip(1)));
        assert(y.skip(1) =~= stuff(b3) + s);
        lemma_unstuff_stuff(b3, s);
        assert(unstuff(x) =~= seq![CR, LF] + (seq![DOT] + (b3 + unstuff(s))));
        assert(seq![CR, LF] + (seq![DOT] + (b3 + unstuff(s))) =~= b + unstuff(s));
    } else {
        let b1 = b.skip(1);
        let x = stuff(b) + s;
        assert(x[0] == b[0]);
        lemma_stuff_head(b1);
        // the concatenation does not begin with the stuffed triple
        assert(!(x.len() >= 3 && x[0] == CR && x[1] == LF && x[2] == DOT)) by {
            if x.len() >= 3 && x[0] == CR && x[1] == LF && x[2] == DOT {
                if b1.len() >= 2 {
                    assert(x[1] == stuff(b1)[0] && x[2] == stuff(b1)[1]);
                    assert(b[1] == LF && b[2] == DOT);
                } else if b1.len() == 1 {
                    assert(b1.skip(1) =~= Seq::<u8>::empty());
                    assert(stuff(b1) == seq![b1[0]] + stuff(b1.skip(1)));
                    assert(stuff(b1) =~= seq![b1[0]]);
                    assert(x[1] == b1[0]);
                    assert(x[2] == s[0]);
                    assert(s[0] != DOT);
                } else {
                    assert(x[1] == s[0] && x[2] == s[1]);
                    assert(s[1] != DOT);
                }
            }
        }
        assert(unstuff(x) == seq![x[0]] + unstuff(x.skip(1)));
        assert(x.skip(1) =~= stuff(b1) + s);
        lemma_unstuff_stuff(b1, s);
        assert(seq![b[0]] + (b1 + unstuff(s)) =~= b + unstuff(s));
    }
}

/// Law: for any body whose first byte is not a period, the transmitted DATA
/// payload, un-stuffed by the server, is the body itself followed by at most
/// one `"\r\n"`.
pub proof fn lemma_dot_stuffing(b: Seq<u8>)
    requires
        b.len() > 0 ==> b[0] != DOT,
    ensures
        unstuff_payload(stuffed_body(b)) == b + if ends_crlf(b) {
            Seq::<u8>::empty()
        } else {
            crlf_b()
        },
{
    let pad: Seq<u8> = if ends_crlf(b) {
        Seq::<u8>::empty()
    } else {
        crlf_b()
    };
    assert(no_byte(pad, DOT));
    lemma_unstuff_stuff(b, pad);
    assert(unstuff(pad) =~= pad) by {
        if pad.len() > 0 {
            assert(pad =~= seq![CR, LF]);
            assert(unstuff(pad) == seq![pad[0]] + unstuff(pad.skip(1)));
            assert(pad.skip(1) =~= seq![LF]);
            assert(unstuff(seq![LF]) == seq![LF] + unstuff(seq![LF].skip(1)));
            assert(seq![LF].skip(1) =~= Seq::<u8>::empty());
        }
    }
    let p = stuffed_body(b);
    if b.len() > 0 {
        lemma_stuff_head(b);
        assert(p[0] == b[0]);
        assert(p[0] != DOT);
    } else {
        assert(stuff(b) =~= Seq::<u8>::empty());
        assert(p =~= pad);
        if p.len() > 0 {
            assert(p[0] == CR);
        }
    }
    assert(unstuff_payload(p) == unstuff(p));
    assert(b + unstuff(pad) == b + pad);
}


/// Unfold `stuff` across a triple-free prefix up to a first triple.
proof fn lemma_stuff_through(rem: Seq<u8>, q: int)
    requires
        triple_at(rem, q),
        forall|j: int| 0 <= j < q ==> !triple_at(rem, j),
    ensures
        stuff(rem) == rem.take(q) + seq![CR, LF, DOT, DOT] + stuff(rem.skip(q + 3)),
    decreases q,
{
    if q == 0 {
        assert(rem.take(0) =~= Seq::<u8>::empty());
        assert(rem.take(0) + seq![CR, LF, DOT, DOT] + stuff(rem.skip(3)) =~= seq![
            CR,
            LF,
            DOT,
            DOT,
        ] + stuff(rem.skip(3)));
    } else {
        assert(!triple_at(rem, 0));
        assert(rem.len() > 0);
        let r1 = rem.skip(1);
        assert(triple_at(r1, q - 1)) by {
            assert(r1[q - 1] == rem[q] && r1[q] == rem[q + 1] && r1[q + 1] == rem[q + 2]);
        }
        assert forall|j: int| 0 <= j < q - 1 implies !triple_at(r1, j) by {
            if triple_at(r1, j) {
                assert(rem[j + 1] == r1[j] && rem[j + 2] == r1[j + 1] && rem[j + 3] == r1[j + 2]);
                assert(triple_at(rem, j + 1));
            }
        }
        lemma_stuff_through(r1, q - 1);
        assert(stuff(rem) == seq![rem[0]] + stuff(r1));
        assert(r1.skip(q + 2) =~= rem.skip(q + 3));
        assert(seq![rem[0]] + (r1.take(q - 1) + seq![CR, LF, DOT, DOT] + stuff(rem.skip(q + 3)))
            =~= rem.take(q) + seq![CR, LF, DOT, DOT] + stuff(rem.skip(q + 3)));
    }
}

/// A triple-free sequence is left alone by stuffing.
proof fn lemma_stuff_all(rem: Seq<u8>)
    requires
        triple_free(rem),
    ensures
        stuff(rem) == rem,
    decreases rem.len(),
{
    if rem.len() == 0 {
    } else {
        assert(!triple_at(rem, 0));
        let r1 = rem.skip(1);
        assert forall|j: int| !triple_at(r1, j) by {
            if triple_at(r1, j) {
                assert(rem[j + 1] == r1[j] && rem[j + 2] == r1[j + 1] && rem[j + 3] == r1[j + 2]);
                assert(triple_at(rem, j + 1));
            }
        }
        assert(triple_free(r1));
        lemma_stuff_all(r1);
        assert(seq![rem[0]] + r1 =~= rem);
    }
}

/// Find the first `"\r\n."` at or after `from`.
fn find_triple(data: &[u8], from: usize) -> (r: Option<usize>)
    requires
        from <= data@.len(),
    ensures
        match r {
            Some(p) => {
                &&& from <= p && p + 3 <= data@.len()
                &&& triple_at(data@, p as int)
                &&& forall|j: int| from <= j < p ==> !triple_at(data@, j)
            },
            None => forall|j: int| from <= j ==> !triple_at(data@, j),
        },
{
    let n = data.len();
    if n < 3 {
        return None;
    }
    let mut i: usize = from;
    while i <= n - 3
        invariant
            from <= i,
            3 <= n == data@.len(),
            i <= n,
            forall|j: int| from <= j < i ==> !triple_at(data@, j),
        decreases n - i,
    {
        if data[i] == CR && data[i + 1] == LF && data[i + 2] == DOT {
            return Some(i);
        }
        i = i + 1;
    }
    None
}

/// Write `data` to `w` with dot-stuffing: the wire and pending bytes grow by
/// exactly `stuff(data)`.
pub fn write_sanitized<S: Stream>(w: &mut BufWriter, s: &mut S, data: &[u8]) -> (r: Result<
    (),
    TransportError,
>)
    requires
        old(w).wf(),
        old(s).inv(),
    ensures
        final(w).wf(),
        final(s).inv(),
        final(s).inp() == old(s).inp(),
        final(w).capacity() == old(w).capacity(),
        r is Ok ==> final(s).out() + final(w).pending() == old(s).out() + old(w).pending()
            + stuff(data@),
{
    let ghost base = old(s).out() + old(w).pending();
    let ghost mut emitted: Seq<u8> = Seq::<u8>::empty();
    let mut i: usize = 0;
    proof {
        assert(data@.skip(0) =~= data@);
        assert(emitted + stuff(data@.skip(0)) =~= stuff(data@));
        assert(base + emitted =~= base);
    }
    loop
        invariant
            w.wf(),
            s.inv(),
            s.inp() == old(s).inp(),
            w.capacity() == old(w).capacity(),
            i <= data@.len(),
            s.out() + w.pending() == base + emitted,
            stuff(data@) == emitted + stuff(data@.skip(i as int)),
            base == old(s).out() + old(w).pending(),
        decreases data@.len() - i,
    {
        let ghost rem = data@.skip(i as int);
        match find_triple(data, i) {
            Some(p) => {
                let ghost q = p - i;
                proof {
                    assert(triple_at(rem, q)) by {
                        assert(rem[q] == data@[p as int]);
                        assert(rem[q + 1] == data@[p + 1]);
                        assert(rem[q + 2] == data@[p + 2]);
                    }
                    assert forall|j: int| 0 <= j < q implies !triple_at(rem, j) by {
                        if triple_at(rem, j) {
                            assert(data@[i + j] == rem[j]);
                            assert(data@[i + j + 1] == rem[j + 1]);
                            assert(data@[i + j + 2] == rem[j + 2]);
                            assert(triple_at(data@, i + j));
                        }
                    }
                    lemma_stuff_through(rem, q);
                }
                let dlen = data.len();
                proof {
                    assert(p + 3 <= dlen);
                }
                let chunk = &data[i..p + 2];
                match w.write(s, chunk) {
                    Ok(()) => {},
                    Err(e) => {
                        return Err(e);
                    },
                }
                let mut dots: Vec<u8> = Vec::new();
                dots.push(DOT);
                dots.push(DOT);
                match w.write(s, dots.as_slice()) {
                    Ok(()) => {},
                    Err(e) => {
                        return Err(e);
                    },
                }
                proof {
                    assert(chunk@ =~= rem.take(q + 2));
                    assert(dots@ =~= seq![DOT, DOT]);
                    assert(rem.take(q + 2) =~= rem.take(q) + seq![CR, LF]);
                    emitted = emitted + rem.take(q) + seq![CR, LF, DOT, DOT];
                    assert(s.out() + w.pending() =~= base + emitted);
                    assert(rem.skip(q + 3) =~= data@.skip(p + 3));
                    assert(stuff(data@) == emitted + stuff(data@.skip(p + 3)));
                }
                i = p + 3;
            },
            None => {
                proof {
                    assert forall|j: int| !triple_at(rem, j) by {
                        if triple_at(rem, j) {
                            if j >= 0 {
                                assert(data@[i + j] == rem[j]);
                                assert(data@[i + j + 1] == rem[j + 1]);
                                assert(data@[i + j + 2] == rem[j + 2]);
                                assert(triple_at(data@, i + j));
                            }
                        }
                    }
                    assert(triple_free(rem));
                    lemma_stuff_all(rem);
                }
                let tail = &data[i..data.len()];
                match w.write(s, tail) {
                    Ok(()) => {},
                    Err(e) => {
                        return Err(e);
                    },
                }
                proof {
                    assert(tail@ =~= rem);
                    assert(s.out() + w.pending() =~= base + emitted + rem);
                    assert(stuff(data@) =~= emitted + rem);
                }
                return Ok(());
            },
        }
    }
}


/// A domain or address literal that identifies the client in EHLO.
pub struct ClientId<'a> {
    pub id: &'a str,
}

impl<'a> ClientId<'a> {
    pub fn new(id: &'a str) -> (r: Self)
        ensures
            r.id@ == id@,
    {
        Self { id }
    }

    /// The default identifier.
    pub fn localhost() -> (r: Self)
        ensures
            r.id@ == "localhost"@,
    {
        Self { id: "localhost" }
    }
}

/// The bytes of an EHLO request.
pub open spec fn ehlo_bytes(id: &str) -> Seq<u8> {
    "EHLO ".spec_bytes() + id.spec_bytes() + "\r\n".spec_bytes()
}

/// The bytes of a MAIL FROM request.
pub open spec fn mail_from_bytes(sender: Option<&str>) -> Seq<u8> {
    "MAIL FROM:<".spec_bytes() + (match sender {
        Some(a) => a.spec_bytes(),
        None => Seq::<u8>::empty(),
    }) + ">\r\n".spec_bytes()
}

/// The bytes of one RCPT TO request.
pub open spec fn rcpt_line_bytes(addr: &str) -> Seq<u8> {
    "RCPT TO:<".spec_bytes() + addr.spec_bytes() + ">\r\n".spec_bytes()
}

/// The bytes of the RCPT TO requests for a list of receivers, in order.
pub open spec fn rcpt_bytes(addrs: Seq<&str>) -> Seq<u8>
    decreases addrs.len(),
{
    if addrs.len() == 0 {
        Seq::<u8>::empty()
    } else {
        rcpt_line_bytes(addrs[0]) + rcpt_bytes(addrs.drop_first())
    }
}

/// The bytes of a QUIT request.
pub open spec fn quit_bytes() -> Seq<u8> {
    "QUIT\r\n".spec_bytes()
}

/// Buffer one string, as bytes.
pub(crate) fn write_str<S: Stream>(w: &mut BufWriter, s: &mut S, t: &str) -> (r: Result<(), TransportError>)
    requires
        old(w).wf(),
        old(s).inv(),
    ensures
        final(w).wf(),
        final(s).inv(),
        final(s).inp() == old(s).inp(),
        final(w).capacity() == old(w).capacity(),
        r is Ok ==> final(s).out() + final(w).pending() == old(s).out() + old(w).pending()
            + t.spec_bytes(),
{
    w.write(s, t.as_bytes())
}

/// The MAIL FROM command: announce the reverse path and expect `250`.
pub struct MailFrom<'a>(pub Option<&'a str>);

impl<'a> MailFrom<'a> {
    /// Write the request and consume the reply.
    pub fn execute<S: Stream>(
        self,
        s: &mut S,
        w: &mut BufWriter,
        p: &mut ResponseParser,
    ) -> (r: Result<(), SendError>)
        requires
            old(s).inv(),
            old(w).wf(),
            old(p).wf(),
        ensures
            final(s).inv(),
            final(w).wf(),
            final(p).wf(),
            final(w).capacity() == old(w).capacity(),
            final(p).capacity() == old(p).capacity(),
            ({
                let avail = old(p).buffered() + old(s).inp();
                let o = expect_outcome(avail, old(p).capacity() as int, "250".spec_bytes());
                match r {
                    Ok(()) => {
                        &&& o.verdict is Done
                        &&& final(s).out() == old(s).out() + mail_from_bytes(self.0)
                        &&& final(w).pending() == Seq::<u8>::empty()
                        &&& final(p).buffered() + final(s).inp() == avail.skip(o.consumed)
                    },
                    Err(SendError::SendFailed) => {
                        &&& o.verdict is Mismatch
                        &&& final(s).out() == old(s).out() + mail_from_bytes(self.0)
                        &&& final(p).buffered() + final(s).inp() == avail.skip(o.consumed)
                    },
                    Err(SendError::UnexpectedResponse) => {
                        &&& o.verdict is Malformed
                        &&& final(s).out() == old(s).out() + mail_from_bytes(self.0)
                        &&& final(p).buffered() + final(s).inp() == avail.skip(o.consumed)
                    },
                    Err(SendError::NoMem) => {
                        &&& o.verdict is Overflow
                        &&& final(s).out() == old(s).out() + mail_from_bytes(self.0)
                        &&& final(p).buffered() + final(s).inp() == avail.skip(o.consumed)
                    },
                    Err(SendError::IoError(_)) => true,
                }
            }),
    {
        w.reset();
        match write_str(w, s, "MAIL FROM:<") {
            Ok(()) => {},
            Err(e) => {
                return Err(SendError::IoError(e));
            },
        }
        match self.0 {
            Some(a) => {
                match write_str(w, s, a) {
                    Ok(()) => {},
                    Err(e) => {
                        return Err(SendError::IoError(e));
                    },
                }
            },
            None => {},
        }
        match write_str(w, s, ">\r\n") {
            Ok(()) => {},
            Err(e) => {
                return Err(SendError::IoError(e));
            },
        }
        match w.flush(s) {
            Ok(()) => {},
            Err(e) => {
                return Err(SendError::IoError(e));
            },
        }
        proof {
            assert(s.out() =~= old(s).out() + mail_from_bytes(self.0));
            assert(p.buffered() + s.inp() == old(p).buffered() + old(s).inp());
        }
        match p.expect_code(s, "250".as_bytes()) {
            Ok(()) => Ok(()),
            Err(ResponseError::ReplyCodeError(_)) => Err(SendError::SendFailed),
            Err(ResponseError::ReadError(e)) => Err(SendError::IoError(e)),
            Err(ResponseError::NoMem) => Err(SendError::NoMem),
            Err(ResponseError::FormatError) => Err(SendError::UnexpectedResponse),
        }
    }
}

/// The QUIT command: announce the end of the session.  No reply is awaited;
/// closing the transport is authoritative.
pub struct Quit;

impl Quit {
    /// Write the request.
    pub fn execute<S: Stream>(self, s: &mut S, w: &mut BufWriter) -> (r: Result<
        (),
        TransportError,
    >)
        requires
            old(s).inv(),
            old(w).wf(),
        ensures
            final(s).inv(),
            final(w).wf(),
            final(s).inp() == old(s).inp(),
            final(w).capacity() == old(w).capacity(),
            r is Ok ==> final(s).out() == old(s).out() + quit_bytes() && final(w).pending()
                == Seq::<u8>::empty(),
    {
        w.reset();
        match write_str(w, s, "QUIT\r\n") {
            Ok(()) => {},
            Err(e) => {
                return Err(e);
            },
        }
        w.flush(s)
    }
}


/// `rcpt_bytes` grows one line at a time.
proof fn lemma_rcpt_snoc(addrs: Seq<&str>, i: int)
    requires
        0 <= i < addrs.len(),
    ensures
        rcpt_bytes(addrs.take(i + 1)) == rcpt_bytes(addrs.take(i)) + rcpt_line_bytes(addrs[i]),
    decreases i,
{
    if i == 0 {
        assert(addrs.take(0) =~= Seq::<&str>::empty());
        assert(addrs.take(1).drop_first() =~= Seq::<&str>::empty());
        assert(rcpt_bytes(addrs.take(1)) == rcpt_line_bytes(addrs.take(1)[0]) + rcpt_bytes(
            addrs.take(1).drop_first(),
        ));
        assert(rcpt_bytes(addrs.take(0)) + rcpt_line_bytes(addrs[0]) =~= rcpt_line_bytes(addrs[0])
            + Seq::<u8>::empty());
        assert(rcpt_line_bytes(addrs[0]) + Seq::<u8>::empty() =~= rcpt_line_bytes(addrs[0]));
    } else {
        let d = addrs.drop_first();
        lemma_rcpt_snoc(d, i - 1);
        assert(addrs.take(i + 1).drop_first() =~= d.take(i));
        assert(addrs.take(i).drop_first() =~= d.take(i - 1));
        assert(rcpt_bytes(addrs.take(i + 1)) == rcpt_line_bytes(addrs[0]) + rcpt_bytes(d.take(i)));
        assert(rcpt_bytes(addrs.take(i)) == rcpt_line_bytes(addrs[0]) + rcpt_bytes(d.take(i - 1)));
        assert(d[i - 1] == addrs[i]);
        assert(rcpt_line_bytes(addrs[0]) + (rcpt_bytes(d.take(i - 1)) + rcpt_line_bytes(addrs[i]))
            =~= (rcpt_line_bytes(addrs[0]) + rcpt_bytes(d.take(i - 1))) + rcpt_line_bytes(
            addrs[i],
        ));
    }
}

/// Whether `needle` occurs somewhere in `hay`.
pub open spec fn contains_seq(hay: Seq<u8>, needle: Seq<u8>) -> bool {
    exists|k: int|
        0 <= k && k + needle.len() <= hay.len() && #[trigger] hay.subrange(k, k + needle.len())
            == needle
}

/// Law: the RCPT requests cover every receiver: each address in the list
/// gets its own `RCPT TO:<{addr}>` line somewhere in the rendered requests.
pub proof fn lemma_rcpt_covers(addrs: Seq<&str>, i: int)
    requires
        0 <= i < addrs.len(),
    ensures
        contains_seq(rcpt_bytes(addrs), rcpt_line_bytes(addrs[i])),
    decreases i,
{
    let line0 = rcpt_line_bytes(addrs[0]);
    let rest = rcpt_bytes(addrs.drop_first());
    if i == 0 {
        assert(rcpt_bytes(addrs).subrange(0, 0 + line0.len() as int) =~= line0);
        assert(contains_seq(rcpt_bytes(addrs), line0));
    } else {
        lemma_rcpt_covers(addrs.drop_first(), i - 1);
        let needle = rcpt_line_bytes(addrs.drop_first()[i - 1]);
        let k = choose|k: int|
            0 <= k && k + needle.len() <= rest.len() && #[trigger] rest.subrange(
                k,
                k + needle.len(),
            ) == needle;
        assert(addrs.drop_first()[i - 1] == addrs[i]);
        assert(rcpt_bytes(addrs).subrange(
            (line0.len() + k),
            (line0.len() + k) + needle.len(),
        ) =~= needle);
        assert(contains_seq(rcpt_bytes(addrs), needle));
    }
}

/// The RCPT TO command: announce each receiver in turn, expecting `250`
/// after every one.
pub struct RcptTo<'a>(pub Vec<&'a str>);

impl<'a> RcptTo<'a> {
    /// Write one request per receiver, consuming one reply after each.
    pub fn execute<S: Stream>(
        self,
        s: &mut S,
        w: &mut BufWriter,
        p: &mut ResponseParser,
    ) -> (r: Result<(), SendError>)
        requires
            old(s).inv(),
            old(w).wf(),
            old(p).wf(),
        ensures
            final(s).inv(),
            final(w).wf(),
            final(p).wf(),
            final(w).capacity() == old(w).capacity(),
            final(p).capacity() == old(p).capacity(),
            ({
                let avail = old(p).buffered() + old(s).inp();
                let addrs = self.0@;
                let m = multi_expect(
                    addrs.len() as int,
                    avail,
                    old(p).capacity() as int,
                    "250".spec_bytes(),
                );
                match r {
                    Ok(()) => {
                        &&& m.verdict is Done
                        &&& final(s).out() == old(s).out() + rcpt_bytes(addrs)
                        &&& final(p).buffered() + final(s).inp() == avail.skip(m.consumed)
                    },
                    Err(SendError::IoError(_)) => true,
                    Err(e) => {
                        &&& (e is SendFailed ==> m.verdict is Mismatch)
                        &&& (e is UnexpectedResponse ==> m.verdict is Malformed)
                        &&& (e is NoMem ==> m.verdict is Overflow)
                        &&& exists|k: int|
                            0 <= k <= addrs.len() && final(s).out() == old(s).out() + rcpt_bytes(
                                addrs.take(k),
                            )
                    },
                }
            }),
    {
        let ghost avail0 = old(p).buffered() + old(s).inp();
        let ghost cap: int = old(p).capacity() as int;
        let ghost addrs = self.0@;
        let ghost mut done: int = 0;
        let n = self.0.len();
        let mut i: usize = 0;
        proof {
            assert(rcpt_bytes(addrs.take(0)) =~= Seq::<u8>::empty());
            assert(avail0.skip(0) =~= avail0);
        }
        while i < n
            invariant
                s.inv(),
                w.wf(),
                p.wf(),
                i <= n,
                n == addrs.len(),
                addrs == self.0@,
                w.capacity() == old(w).capacity(),
                p.capacity() == old(p).capacity(),
                cap == old(p).capacity() as int,
                avail0 == old(p).buffered() + old(s).inp(),
                0 <= done <= avail0.len(),
                s.out() == old(s).out() + rcpt_bytes(addrs.take(i as int)),
                p.buffered() + s.inp() == avail0.skip(done),
                multi_expect(n as int, avail0, cap, "250".spec_bytes()) == ({
                    let rest = multi_expect(
                        n - i,
                        avail0.skip(done),
                        cap,
                        "250".spec_bytes(),
                    );
                    ReplyOutcome { verdict: rest.verdict, consumed: done + rest.consumed }
                }),
            decreases n - i,
        {
            let ghost cur = avail0.skip(done);
            let ghost o = expect_outcome(cur, cap, "250".spec_bytes());
            w.reset();
            let a = self.0[i];
            match write_str(w, s, "RCPT TO:<") {
                Ok(()) => {},
                Err(e) => {
                    return Err(SendError::IoError(e));
                },
            }
            match write_str(w, s, a) {
                Ok(()) => {},
                Err(e) => {
                    return Err(SendError::IoError(e));
                },
            }
            match write_str(w, s, ">\r\n") {
                Ok(()) => {},
                Err(e) => {
                    return Err(SendError::IoError(e));
                },
            }
            match w.flush(s) {
                Ok(()) => {},
                Err(e) => {
                    return Err(SendError::IoError(e));
                },
            }
            proof {
                lemma_rcpt_snoc(addrs, i as int);
                assert(s.out() =~= old(s).out() + rcpt_bytes(addrs.take(i + 1)));
                assert(p.buffered() + s.inp() =~= avail0.skip(done));
            }
            match p.expect_code(s, "250".as_bytes()) {
                Ok(()) => {},
                Err(e) => {
                    proof {
                        assert(s.out() == old(s).out() + rcpt_bytes(addrs.take(i + 1)));
                        assert(0 <= i + 1 <= addrs.len());
                        let rest = multi_expect(n - i, cur, cap, "250".spec_bytes());
                        assert(n - i >= 1);
                        assert(!(o.verdict is Done) ==> rest == o);
                    }
                    match e {
                        ResponseError::ReplyCodeError(_) => {
                            return Err(SendError::SendFailed);
                        },
                        ResponseError::ReadError(e2) => {
                            return Err(SendError::IoError(e2));
                        },
                        ResponseError::NoMem => {
                            return Err(SendError::NoMem);
                        },
                        ResponseError::FormatError => {
                            return Err(SendError::UnexpectedResponse);
                        },
                    }
                },
            }
            proof {
                assert(o.verdict is Done);
                lemma_expect_consumed_bounds(cur, cap, "250".spec_bytes());
                assert(p.buffered() + s.inp() == cur.skip(o.consumed));
                assert(cur.skip(o.consumed) =~= avail0.skip(done + o.consumed));
                done = done + o.consumed;
            }
            i = i + 1;
        }
        proof {
            assert(addrs.take(n as int) =~= addrs);
        }
        Ok(())
    }
}


/// The bytes of one rendered mailbox: `{name}<{address}>`.
pub open spec fn mailbox_bytes(mb: Mailbox) -> Seq<u8> {
    (match mb.name {
        Some(n) => n.spec_bytes(),
        None => Seq::<u8>::empty(),
    }) + "<".spec_bytes() + mb.address.spec_bytes() + ">".spec_bytes()
}

/// The bytes of further mailboxes in a comma-joined list.
pub open spec fn joined_tail(l: Seq<Mailbox>) -> Seq<u8>
    decreases l.len(),
{
    if l.len() == 0 {
        Seq::<u8>::empty()
    } else {
        ",".spec_bytes() + mailbox_bytes(l[0]) + joined_tail(l.drop_first())
    }
}

/// The bytes of a comma-joined mailbox list.
pub open spec fn joined_mailboxes(l: Seq<Mailbox>) -> Seq<u8> {
    if l.len() == 0 {
        Seq::<u8>::empty()
    } else {
        mailbox_bytes(l[0]) + joined_tail(l.drop_first())
    }
}

/// The `From:` header line, if an author is set.
pub open spec fn from_header_bytes(m: Mail) -> Seq<u8> {
    match m.from {
        Some(f) => "From:".spec_bytes() + mailbox_bytes(f) + "\r\n".spec_bytes(),
        None => Seq::<u8>::empty(),
    }
}

/// The `To:` header line, if primary receivers are set.
pub open spec fn to_header_bytes(m: Mail) -> Seq<u8> {
    if m.to@.len() > 0 {
        "To:".spec_bytes() + joined_mailboxes(m.to@) + "\r\n".spec_bytes()
    } else {
        Seq::<u8>::empty()
    }
}

/// The `Cc:` header line, if carbon-copy receivers are set.
pub open spec fn cc_header_bytes(m: Mail) -> Seq<u8> {
    if m.cc@.len() > 0 {
        "Cc:".spec_bytes() + joined_mailboxes(m.cc@) + "\r\n".spec_bytes()
    } else {
        Seq::<u8>::empty()
    }
}

/// The `Subject:` header line, if a subject is set.
pub open spec fn subject_header_bytes(m: Mail) -> Seq<u8> {
    match m.subject {
        Some(su) => "Subject:".spec_bytes() + su.spec_bytes() + "\r\n".spec_bytes(),
        None => Seq::<u8>::empty(),
    }
}

/// The message headers DATA emits for a structured mail.  The
/// blind-carbon-copy list appears nowhere here: those receivers are named
/// only in the envelope.
pub open spec fn mail_headers_bytes(m: Mail) -> Seq<u8> {
    from_header_bytes(m) + to_header_bytes(m) + cc_header_bytes(m) + subject_header_bytes(m)
}

/// The whole message DATA emits for a structured mail: the headers, then a
/// blank line and the dot-stuffed body when one is present.
pub open spec fn mail_message_bytes(m: Mail) -> Seq<u8> {
    mail_headers_bytes(m) + (match m.body {
        Some(b) => "\r\n".spec_bytes() + stuffed_body(b.spec_bytes()),
        None => Seq::<u8>::empty(),
    })
}

/// Law: the DATA payload is blind to the blind-carbon-copy list.  Two mails
/// that differ only there transmit identical messages.
pub proof fn lemma_bcc_invisible(m1: Mail, m2: Mail)
    requires
        m1.from == m2.from,
        m1.to@ == m2.to@,
        m1.cc@ == m2.cc@,
        m1.subject == m2.subject,
        m1.body == m2.body,
    ensures
        mail_message_bytes(m1) == mail_message_bytes(m2),
{
}

/// `joined_tail` grows one mailbox at a time.
proof fn lemma_joined_tail_snoc(l: Seq<Mailbox>, i: int)
    requires
        0 <= i < l.len(),
    ensures
        joined_tail(l.take(i + 1)) == joined_tail(l.take(i)) + ",".spec_bytes() + mailbox_bytes(
            l[i],
        ),
    decreases i,
{
    if i == 0 {
        assert(l.take(0) =~= Seq::<Mailbox>::empty());
        assert(l.take(1).drop_first() =~= Seq::<Mailbox>::empty());
        assert(joined_tail(l.take(1)) == ",".spec_bytes() + mailbox_bytes(l.take(1)[0])
            + joined_tail(l.take(1).drop_first()));
        assert(Seq::<u8>::empty() + ",".spec_bytes() + mailbox_bytes(l[0]) =~= ",".spec_bytes()
            + mailbox_bytes(l[0]) + Seq::<u8>::empty());
    } else {
        let d = l.drop_first();
        lemma_joined_tail_snoc(d, i - 1);
        assert(l.take(i + 1).drop_first() =~= d.take(i));
        assert(l.take(i).drop_first() =~= d.take(i - 1));
        assert(d[i - 1] == l[i]);
        assert((",".spec_bytes() + mailbox_bytes(l[0])) + (joined_tail(d.take(i - 1))
            + ",".spec_bytes() + mailbox_bytes(l[i])) =~= ((",".spec_bytes() + mailbox_bytes(
            l[0],
        )) + joined_tail(d.take(i - 1))) + ",".spec_bytes() + mailbox_bytes(l[i]));
    }
}

/// Buffer one rendered mailbox.
fn write_mailbox<S: Stream>(w: &mut BufWriter, s: &mut S, mb: &Mailbox) -> (r: Result<
    (),
    TransportError,
>)
    requires
        old(w).wf(),
        old(s).inv(),
    ensures
        final(w).wf(),
        final(s).inv(),
        final(s).inp() == old(s).inp(),
        final(w).capacity() == old(w).capacity(),
        r is Ok ==> final(s).out() + final(w).pending() == old(s).out() + old(w).pending()
            + mailbox_bytes(*mb),
{
    match mb.name {
        Some(n) => {
            match write_str(w, s, n) {
                Ok(()) => {},
                Err(e) => {
                    return Err(e);
                },
            }
        },
        None => {},
    }
    match write_str(w, s, "<") {
        Ok(()) => {},
        Err(e) => {
            return Err(e);
        },
    }
    match write_str(w, s, mb.address) {
        Ok(()) => {},
        Err(e) => {
            return Err(e);
        },
    }
    match write_str(w, s, ">") {
        Ok(()) => {},
        Err(e) => {
            return Err(e);
        },
    }
    proof {
        assert(s.out() + w.pending() =~= old(s).out() + old(w).pending() + mailbox_bytes(*mb));
    }
    Ok(())
}

/// Buffer a comma-joined mailbox list.
fn write_mailbox_list<S: Stream>(w: &mut BufWriter, s: &mut S, list: &Vec<Mailbox>) -> (r: Result<
    (),
    TransportError,
>)
    requires
        old(w).wf(),
        old(s).inv(),
        list@.len() > 0,
    ensures
        final(w).wf(),
        final(s).inv(),
        final(s).inp() == old(s).inp(),
        final(w).capacity() == old(w).capacity(),
        r is Ok ==> final(s).out() + final(w).pending() == old(s).out() + old(w).pending()
            + joined_mailboxes(list@),
{
    let ghost base = old(s).out() + old(w).pending();
    let first = list[0];
    match write_mailbox(w, s, &first) {
        Ok(()) => {},
        Err(e) => {
            return Err(e);
        },
    }
    let ghost d = list@.drop_first();
    let n = list.len();
    let mut j: usize = 1;
    proof {
        assert(d.take(0) =~= Seq::<Mailbox>::empty());
        assert(s.out() + w.pending() =~= base + mailbox_bytes(list@[0]) + joined_tail(d.take(0)));
    }
    while j < n
        invariant
            w.wf(),
            s.inv(),
            s.inp() == old(s).inp(),
            w.capacity() == old(w).capacity(),
            1 <= j <= n,
            n == list@.len(),
            d == list@.drop_first(),
            base == old(s).out() + old(w).pending(),
            s.out() + w.pending() == base + mailbox_bytes(list@[0]) + joined_tail(
                d.take(j - 1),
            ),
        decreases n - j,
    {
        match write_str(w, s, ",") {
            Ok(()) => {},
            Err(e) => {
                return Err(e);
            },
        }
        let mb = list[j];
        match write_mailbox(w, s, &mb) {
            Ok(()) => {},
            Err(e) => {
                return Err(e);
            },
        }
        proof {
            lemma_joined_tail_snoc(d, j - 1);
            assert(d[j - 1] == list@[j as int]);
            assert(s.out() + w.pending() =~= base + mailbox_bytes(list@[0]) + joined_tail(
                d.take(j as int),
            ));
        }
        j = j + 1;
    }
    proof {
        assert(d.take(n - 1) =~= d);
        assert(base + mailbox_bytes(list@[0]) + joined_tail(d) =~= base + joined_mailboxes(
            list@,
        ));
    }
    Ok(())
}

/// A message DATA can carry: it buffers its own bytes, dot-stuffed and ending
/// in `"\r\n"`; the DATA command appends the `".\r\n"` sentinel.
pub trait DataMessage: Sized {
    /// The exact bytes the message puts on the wire.
    spec fn message_bytes(&self) -> Seq<u8>;

    /// Buffer the message bytes.
    fn write_to<S: Stream>(self, w: &mut BufWriter, s: &mut S) -> (r: Result<(), TransportError>)
        requires
            old(w).wf(),
            old(s).inv(),
        ensures
            final(w).wf(),
            final(s).inv(),
            final(s).inp() == old(s).inp(),
            final(w).capacity() == old(w).capacity(),
            r is Ok ==> final(s).out() + final(w).pending() == old(s).out() + old(w).pending()
                + self.message_bytes(),
    ;
}

/// Buffer the `From:` header of `m`, if any.
fn write_from_header<S: Stream>(w: &mut BufWriter, s: &mut S, m: &Mail) -> (r: Result<
    (),
    TransportError,
>)
    requires
        old(w).wf(),
        old(s).inv(),
    ensures
        final(w).wf(),
        final(s).inv(),
        final(s).inp() == old(s).inp(),
        final(w).capacity() == old(w).capacity(),
        r is Ok ==> final(s).out() + final(w).pending() == old(s).out() + old(w).pending()
            + from_header_bytes(*m),
{
    match &m.from {
        Some(f) => {
            match write_str(w, s, "From:") {
                Ok(()) => {},
                Err(e) => {
                    return Err(e);
                },
            }
            match write_mailbox(w, s, f) {
                Ok(()) => {},
                Err(e) => {
                    return Err(e);
                },
            }
            match write_str(w, s, "\r\n") {
                Ok(()) => {},
                Err(e) => {
                    return Err(e);
                },
            }
            proof {
                assert(s.out() + w.pending() =~= old(s).out() + old(w).pending()
                    + from_header_bytes(*m));
            }
            Ok(())
        },
        None => {
            proof {
                assert(old(s).out() + old(w).pending() + from_header_bytes(*m) =~= old(s).out()
                    + old(w).pending());
            }
            Ok(())
        },
    }
}

/// Buffer one list header (`To:` or `Cc:`) for a non-empty list.
fn write_list_header<S: Stream>(
    w: &mut BufWriter,
    s: &mut S,
    label: &str,
    list: &Vec<Mailbox>,
) -> (r: Result<(), TransportError>)
    requires
        old(w).wf(),
        old(s).inv(),
        list@.len() > 0,
    ensures
        final(w).wf(),
        final(s).inv(),
        final(s).inp() == old(s).inp(),
        final(w).capacity() == old(w).capacity(),
        r is Ok ==> final(s).out() + final(w).pending() == old(s).out() + old(w).pending()
            + label.spec_bytes() + joined_mailboxes(list@) + "\r\n".spec_bytes(),
{
    match write_str(w, s, label) {
        Ok(()) => {},
        Err(e) => {
            return Err(e);
        },
    }
    match write_mailbox_list(w, s, list) {
        Ok(()) => {},
        Err(e) => {
            return Err(e);
        },
    }
    match write_str(w, s, "\r\n") {
        Ok(()) => {},
        Err(e) => {
            return Err(e);
        },
    }
    proof {
        assert(s.out() + w.pending() =~= old(s).out() + old(w).pending() + label.spec_bytes()
            + joined_mailboxes(list@) + "\r\n".spec_bytes());
    }
    Ok(())
}

/// Buffer the `Subject:` header of `m`, if any.
fn write_subject_header<S: Stream>(w: &mut BufWriter, s: &mut S, m: &Mail) -> (r: Result<
    (),
    TransportError,
>)
    requires
        old(w).wf(),
        old(s).inv(),
    ensures
        final(w).wf(),
        final(s).inv(),
        final(s).inp() == old(s).inp(),
        final(w).capacity() == old(w).capacity(),
        r is Ok ==> final(s).out() + final(w).pending() == old(s).out() + old(w).pending()
            + subject_header_bytes(*m),
{
    match m.subject {
        Some(su) => {
            match write_str(w, s, "Subject:") {
                Ok(()) => {},
                Err(e) => {
                    return Err(e);
                },
            }
            match write_str(w, s, su) {
                Ok(()) => {},
                Err(e) => {
                    return Err(e);
                },
            }
            match write_str(w, s, "\r\n") {
                Ok(()) => {},
                Err(e) => {
                    return Err(e);
                },
            }
            proof {
                assert(s.out() + w.pending() =~= old(s).out() + old(w).pending()
                    + subject_header_bytes(*m));
            }
            Ok(())
        },
        None => {
            proof {
                assert(old(s).out() + old(w).pending() + subject_header_bytes(*m) =~= old(s).out()
                    + old(w).pending());
            }
            Ok(())
        },
    }
}

/// Buffer the dot-stuffed body of a message, completed with `"\r\n"` when
/// the body does not end in one.
fn write_body<S: Stream>(w: &mut BufWriter, s: &mut S, b: &str) -> (r: Result<
    (),
    TransportError,
>)
    requires
        old(w).wf(),
        old(s).inv(),
    ensures
        final(w).wf(),
        final(s).inv(),
        final(s).inp() == old(s).inp(),
        final(w).capacity() == old(w).capacity(),
        r is Ok ==> final(s).out() + final(w).pending() == old(s).out() + old(w).pending()
            + stuffed_body(b.spec_bytes()),
{
    let bb = b.as_bytes();
    match write_sanitized(w, s, bb) {
        Ok(()) => {},
        Err(e) => {
            return Err(e);
        },
    }
    let bn = bb.len();
    let complete = bn >= 2 && bb[bn - 2] == CR && bb[bn - 1] == LF;
    if !complete {
        let mut pad: Vec<u8> = Vec::new();
        pad.push(CR);
        pad.push(LF);
        match w.write(s, pad.as_slice()) {
            Ok(()) => {},
            Err(e) => {
                return Err(e);
            },
        }
    }
    proof {
        assert(complete == ends_crlf(b.spec_bytes()));
        assert(s.out() + w.pending() =~= old(s).out() + old(w).pending() + stuffed_body(
            b.spec_bytes(),
        ));
    }
    Ok(())
}

impl<'a> DataMessage for Mail<'a> {
    open spec fn message_bytes(&self) -> Seq<u8> {
        mail_message_bytes(*self)
    }

    fn write_to<S: Stream>(self, w: &mut BufWriter, s: &mut S) -> (r: Result<(), TransportError>) {
        broadcast use vstd::seq_lib::group_seq_lib_default, Seq::add_empty_right;

        let ghost base = old(s).out() + old(w).pending();
        match write_from_header(w, s, &self) {
            Ok(()) => {},
            Err(e) => {
                return Err(e);
            },
        }
        if self.to.len() > 0 {
            match write_list_header(w, s, "To:", &self.to) {
                Ok(()) => {},
                Err(e) => {
                    return Err(e);
                },
            }
        }
        proof {
            vstd::seq_lib::lemma_concat_associative(
                base,
                from_header_bytes(self),
                to_header_bytes(self),
            );
            assert(s.out() + w.pending() == base + (from_header_bytes(self) + to_header_bytes(
                self,
            )));
        }
        if self.cc.len() > 0 {
            match write_list_header(w, s, "Cc:", &self.cc) {
                Ok(()) => {},
                Err(e) => {
                    return Err(e);
                },
            }
        }
        proof {
            vstd::seq_lib::lemma_concat_associative(
                base,
                from_header_bytes(self) + to_header_bytes(self),
                cc_header_bytes(self),
            );
            assert(s.out() + w.pending() == base + (from_header_bytes(self) + to_header_bytes(
                self,
            ) + cc_header_bytes(self)));
        }
        match write_subject_header(w, s, &self) {
            Ok(()) => {},
            Err(e) => {
                return Err(e);
            },
        }
        proof {
            vstd::seq_lib::lemma_concat_associative(
                base,
                from_header_bytes(self) + to_header_bytes(self) + cc_header_bytes(self),
                subject_header_bytes(self),
            );
            assert(s.out() + w.pending() == base + mail_headers_bytes(self));
        }
        match self.body {
            Some(b) => {
                match write_str(w, s, "\r\n") {
                    Ok(()) => {},
                    Err(e) => {
                        return Err(e);
                    },
                }
                match write_body(w, s, b) {
                    Ok(()) => {},
                    Err(e) => {
                        return Err(e);
                    },
                }
                proof {
                    vstd::seq_lib::lemma_concat_associative(
                        base + mail_headers_bytes(self),
                        "\r\n".spec_bytes(),
                        stuffed_body(b.spec_bytes()),
                    );
                    vstd::seq_lib::lemma_concat_associative(
                        base,
                        mail_headers_bytes(self),
                        "\r\n".spec_bytes() + stuffed_body(b.spec_bytes()),
                    );
                    assert(s.out() + w.pending() == base + mail_message_bytes(self));
                }
            },
            None => {
                proof {
                    assert(s.out() + w.pending() == base + mail_message_bytes(self));
                }
            },
        }
        Ok(())
    }
}

impl<'a> DataMessage for &'a str {
    open spec fn message_bytes(&self) -> Seq<u8> {
        stuffed_body((*self).spec_bytes())
    }

    fn write_to<S: Stream>(self, w: &mut BufWriter, s: &mut S) -> (r: Result<(), TransportError>) {
        write_body(w, s, self)
    }
}

/// The DATA command: announce the message, transmit it, and close it with
/// the `".\r\n"` sentinel.
pub struct Data<M: DataMessage>(pub M);

impl<M: DataMessage> Data<M> {
    /// Write `DATA`, await `354`, transmit the message and the sentinel,
    /// await `250`.
    pub fn execute<S: Stream>(
        self,
        s: &mut S,
        w: &mut BufWriter,
        p: &mut ResponseParser,
    ) -> (r: Result<(), SendError>)
        requires
            old(s).inv(),
            old(w).wf(),
            old(p).wf(),
        ensures
            final(s).inv(),
            final(w).wf(),
            final(p).wf(),
            final(w).capacity() == old(w).capacity(),
            final(p).capacity() == old(p).capacity(),
            ({
                let avail = old(p).buffered() + old(s).inp();
                let cap = old(p).capacity() as int;
                let o1 = expect_outcome(avail, cap, "354".spec_bytes());
                match r {
                    Ok(()) => {
                        &&& o1.verdict is Done
                        &&& ({
                            let rest = avail.skip(o1.consumed);
                            let o2 = expect_outcome(rest, cap, "250".spec_bytes());
                            &&& o2.verdict is Done
                            &&& final(s).out() == old(s).out() + "DATA\r\n".spec_bytes()
                                + self.0.message_bytes() + ".\r\n".spec_bytes()
                            &&& final(w).pending() == Seq::<u8>::empty()
                            &&& final(p).buffered() + final(s).inp() == rest.skip(o2.consumed)
                        })
                    },
                    Err(SendError::IoError(_)) => true,
                    Err(SendError::SendFailed) => (o1.verdict is Mismatch) || (o1.verdict is Done
                        && expect_outcome(
                            avail.skip(o1.consumed),
                            cap,
                            "250".spec_bytes(),
                        ).verdict is Mismatch),
                    Err(SendError::UnexpectedResponse) => (o1.verdict is Malformed) || (
                    o1.verdict is Done && expect_outcome(
                        avail.skip(o1.consumed),
                        cap,
                        "250".spec_bytes(),
                    ).verdict is Malformed),
                    Err(SendError::NoMem) => (o1.verdict is Overflow) || (o1.verdict is Done
                        && expect_outcome(
                            avail.skip(o1.consumed),
                            cap,
                            "250".spec_bytes(),
                        ).verdict is Overflow),
                }
            }),
    {
        w.reset();
        match write_str(w, s, "DATA\r\n") {
            Ok(()) => {},
            Err(e) => {
                return Err(SendError::IoError(e));
            },
        }
        match w.flush(s) {
            Ok(()) => {},
            Err(e) => {
                return Err(SendError::IoError(e));
            },
        }
        proof {
            assert(s.out() =~= old(s).out() + "DATA\r\n".spec_bytes());
            assert(p.buffered() + s.inp() == old(p).buffered() + old(s).inp());
        }
        match p.expect_code(s, "354".as_bytes()) {
            Ok(()) => {},
            Err(ResponseError::ReplyCodeError(_)) => {
                return Err(SendError::SendFailed);
            },
            Err(ResponseError::ReadError(e)) => {
                return Err(SendError::IoError(e));
            },
            Err(ResponseError::NoMem) => {
                return Err(SendError::NoMem);
            },
            Err(ResponseError::FormatError) => {
                return Err(SendError::UnexpectedResponse);
            },
        }
        match self.0.write_to(w, s) {
            Ok(()) => {},
            Err(e) => {
                return Err(SendError::IoError(e));
            },
        }
        match write_str(w, s, ".\r\n") {
            Ok(()) => {},
            Err(e) => {
                return Err(SendError::IoError(e));
            },
        }
        match w.flush(s) {
            Ok(()) => {},
            Err(e) => {
                return Err(SendError::IoError(e));
            },
        }
        proof {
            assert(s.out() =~= old(s).out() + "DATA\r\n".spec_bytes() + self.0.message_bytes()
                + ".\r\n".spec_bytes());
        }
        match p.expect_code(s, "250".as_bytes()) {
            Ok(()) => Ok(()),
            Err(ResponseError::ReplyCodeError(_)) => Err(SendError::SendFailed),
            Err(ResponseError::ReadError(e)) => Err(SendError::IoError(e)),
            Err(ResponseError::NoMem) => Err(SendError::NoMem),
            Err(ResponseError::FormatError) => Err(SendError::UnexpectedResponse),
        }
    }
}


/// How an EHLO exchange ends.
pub enum EhloVerdict {
    /// Every line carried `250` and the reply ended; these mechanisms were
    /// advertised.
    Caps { plain: bool, login: bool },
    /// A line was malformed, carried another code, or the greeting did not
    /// continue.
    Unexpected,
    /// A line did not fit the buffer.
    Overflow,
}

/// An EHLO verdict together with the bytes consumed reaching it.
pub struct EhloSpecOutcome {
    pub verdict: EhloVerdict,
    pub consumed: int,
}

/// The mechanisms named in a space-separated list of tokens.
pub open spec fn mech_flags(t: Seq<u8>) -> (bool, bool)
    decreases t.len(),
{
    let f = find_byte(t, SP);
    if 0 <= f < t.len() {
        let tok = t.take(f);
        let rest = mech_flags(t.skip(f + 1));
        (rest.0 || tok == "PLAIN".spec_bytes(), rest.1 || tok == "LOGIN".spec_bytes())
    } else {
        (t == "PLAIN".spec_bytes(), t == "LOGIN".spec_bytes())
    }
}

/// The mechanisms one EHLO line advertises: the tokens after a first token
/// `AUTH`.  Lines announcing anything else advertise none.
pub open spec fn line_caps(text: Seq<u8>) -> (bool, bool) {
    let f = find_byte(text, SP);
    if 0 <= f < text.len() {
        if text.take(f) == "AUTH".spec_bytes() {
            mech_flags(text.skip(f + 1))
        } else {
            (false, false)
        }
    } else {
        (false, false)
    }
}

/// What the extension lines after the EHLO greeting yield.
pub open spec fn ehlo_ext(avail: Seq<u8>, cap: int) -> EhloSpecOutcome
    decreases avail.len(),
{
    if !line_available(avail, cap) {
        EhloSpecOutcome { verdict: EhloVerdict::Overflow, consumed: cap }
    } else {
        let ln = until_len(avail, LF);
        let line = stripped(avail.take(ln));
        if !reply_line_wf(line) || reply_code(line) != "250".spec_bytes() {
            EhloSpecOutcome { verdict: EhloVerdict::Unexpected, consumed: ln }
        } else {
            let fl = line_caps(reply_text(line));
            if reply_has_next(line) && 1 <= ln <= avail.len() {
                let rest = ehlo_ext(avail.skip(ln), cap);
                match rest.verdict {
                    EhloVerdict::Caps { plain, login } => EhloSpecOutcome {
                        verdict: EhloVerdict::Caps {
                            plain: fl.0 || plain,
                            login: fl.1 || login,
                        },
                        consumed: ln + rest.consumed,
                    },
                    _ => EhloSpecOutcome { verdict: rest.verdict, consumed: ln + rest.consumed },
                }
            } else {
                EhloSpecOutcome {
                    verdict: EhloVerdict::Caps { plain: fl.0, login: fl.1 },
                    consumed: ln,
                }
            }
        }
    }
}

/// What a whole EHLO reply yields: a `250` continuation greeting, then
/// extension lines.
pub open spec fn ehlo_outcome(avail: Seq<u8>, cap: int) -> EhloSpecOutcome {
    if !line_available(avail, cap) {
        EhloSpecOutcome { verdict: EhloVerdict::Overflow, consumed: cap }
    } else {
        let ln = until_len(avail, LF);
        let line = stripped(avail.take(ln));
        if !reply_line_wf(line) || reply_code(line) != "250".spec_bytes() || !reply_has_next(line)
            || !(1 <= ln <= avail.len()) {
            EhloSpecOutcome { verdict: EhloVerdict::Unexpected, consumed: ln }
        } else {
            let rest = ehlo_ext(avail.skip(ln), cap);
            EhloSpecOutcome { verdict: rest.verdict, consumed: ln + rest.consumed }
        }
    }
}

/// Bytes consumed by the extension lines stay within the reply source.
proof fn lemma_ehlo_ext_consumed_bounds(avail: Seq<u8>, cap: int)
    requires
        cap >= 0,
    ensures
        0 <= ehlo_ext(avail, cap).consumed <= avail.len(),
    decreases avail.len(),
{
    lemma_find_byte(avail, LF);
    if line_available(avail, cap) {
        let ln = until_len(avail, LF);
        let line = stripped(avail.take(ln));
        if reply_line_wf(line) && reply_code(line) == "250".spec_bytes() && reply_has_next(line)
            && 1 <= ln <= avail.len() {
            lemma_ehlo_ext_consumed_bounds(avail.skip(ln), cap);
        }
    }
}

/// Bytes consumed by a whole EHLO reply stay within the reply source.
pub proof fn lemma_ehlo_consumed_bounds(avail: Seq<u8>, cap: int)
    requires
        cap >= 0,
    ensures
        0 <= ehlo_outcome(avail, cap).consumed <= avail.len(),
{
    lemma_find_byte(avail, LF);
    if line_available(avail, cap) {
        let ln = until_len(avail, LF);
        let line = stripped(avail.take(ln));
        if !(!reply_line_wf(line) || reply_code(line) != "250".spec_bytes() || !reply_has_next(
            line,
        ) || !(1 <= ln <= avail.len())) {
            lemma_ehlo_ext_consumed_bounds(avail.skip(ln), cap);
        }
    }
}

/// Find the first `x` at or after `from` in `sl`.
fn find_byte_from(sl: &[u8], from: usize, x: u8) -> (r: Option<usize>)
    requires
        from <= sl@.len(),
    ensures
        match r {
            Some(q) => {
                &&& from <= q < sl@.len()
                &&& sl@[q as int] == x
                &&& forall|j: int| from <= j < q ==> sl@[j] != x
            },
            None => forall|j: int| from <= j < sl@.len() ==> sl@[j] != x,
        },
{
    let n = sl.len();
    let mut i: usize = from;
    while i < n
        invariant
            from <= i <= n,
            n == sl@.len(),
            forall|j: int| from <= j < i ==> sl@[j] != x,
        decreases n - i,
    {
        if sl[i] == x {
            return Some(i);
        }
        i = i + 1;
    }
    None
}

/// The mechanisms a line of text advertises, per `line_caps`.
fn parse_caps_line(text: &str) -> (r: (bool, bool))
    ensures
        r == line_caps(text.spec_bytes()),
{
    let b = text.as_bytes();
    let bn = b.len();
    let p = match find_byte_from(b, 0, SP) {
        Some(p) => p,
        None => {
            proof {
                lemma_find_byte(b@, SP);
                if find_byte(b@, SP) != -1 {
                    assert(b@[find_byte(b@, SP)] == SP);
                }
            }
            return (false, false);
        },
    };
    proof {
        assert(b@.take(p as int) =~= b@.subrange(0, p as int));
        lemma_find_byte_at(b@, SP, p as int);
    }
    let tok = &b[0..p];
    if !slices_equal(tok, "AUTH".as_bytes()) {
        proof {
            assert(tok@ =~= b@.take(p as int));
            assert(b@.take(p as int) != "AUTH".spec_bytes());
        }
        return (false, false);
    }
    proof {
        assert(tok@ =~= b@.take(p as int));
    }
    let mut pl = false;
    let mut lg = false;
    let mut pos = p + 1;
    let ghost whole = b@.skip(p + 1);
    proof {
        assert(line_caps(text.spec_bytes()) == mech_flags(whole));
    }
    loop
        invariant
            p + 1 <= pos <= bn,
            bn == b@.len(),
            b@ == text.spec_bytes(),
            whole == b@.skip(p + 1),
            line_caps(text.spec_bytes()) == mech_flags(whole),
            mech_flags(whole) == ({
                let cur = mech_flags(b@.skip(pos as int));
                ((pl || cur.0), (lg || cur.1))
            }),
        decreases b@.len() - pos,
    {
        let ghost rem = b@.skip(pos as int);
        match find_byte_from(b, pos, SP) {
            Some(q) => {
                proof {
                    assert(rem[q - pos] == b@[q as int]);
                    assert forall|j: int| 0 <= j < q - pos implies rem[j] != SP by {
                        assert(rem[j] == b@[pos + j]);
                    }
                    assert(rem.take(q - pos) =~= b@.subrange(pos as int, q as int));
                    lemma_find_byte_at(rem, SP, q - pos);
                    assert(rem.skip(q - pos + 1) =~= b@.skip(q + 1));
                }
                let tok2 = &b[pos..q];
                let is_p = slices_equal(tok2, "PLAIN".as_bytes());
                let is_l = slices_equal(tok2, "LOGIN".as_bytes());
                proof {
                    assert(tok2@ =~= rem.take(q - pos));
                }
                pl = pl || is_p;
                lg = lg || is_l;
                pos = q + 1;
            },
            None => {
                proof {
                    assert forall|j: int| 0 <= j < rem.len() implies rem[j] != SP by {
                        assert(rem[j] == b@[pos + j]);
                    }
                    lemma_find_byte(rem, SP);
                    if find_byte(rem, SP) != -1 {
                        assert(rem[find_byte(rem, SP)] == SP);
                    }
                }
                let blen = b.len();
                let tok2 = &b[pos..blen];
                let is_p = slices_equal(tok2, "PLAIN".as_bytes());
                let is_l = slices_equal(tok2, "LOGIN".as_bytes());
                proof {
                    assert(tok2@ =~= rem);
                }
                pl = pl || is_p;
                lg = lg || is_l;
                return (pl, lg);
            },
        }
    }
}

/// The EHLO command: greet the server and learn which extensions it
/// advertises.
pub struct Ehlo<'a>(pub ClientId<'a>);

impl<'a> Ehlo<'a> {
    /// Write the request and consume the multi-line reply, folding the
    /// advertised `AUTH` mechanisms into an extension set.
    #[verifier::rlimit(100)]
    #[verifier::spinoff_prover]
    pub fn execute<S: Stream>(
        self,
        s: &mut S,
        w: &mut BufWriter,
        p: &mut ResponseParser,
    ) -> (r: Result<EhloInfo, ConnectError>)
        requires
            old(s).inv(),
            old(w).wf(),
            old(p).wf(),
        ensures
            final(s).inv(),
            final(w).wf(),
            final(p).wf(),
            final(w).capacity() == old(w).capacity(),
            final(p).capacity() == old(p).capacity(),
            ({
                let avail = old(p).buffered() + old(s).inp();
                let o = ehlo_outcome(avail, old(p).capacity() as int);
                match r {
                    Ok(info) => {
                        &&& o.verdict matches EhloVerdict::Caps { plain, login } && info
                            .extensions.plain == plain && info.extensions.login == login
                        &&& final(s).out() == old(s).out() + ehlo_bytes(self.0.id)
                        &&& final(w).pending() == Seq::<u8>::empty()
                        &&& final(p).buffered() + final(s).inp() == avail.skip(o.consumed)
                    },
                    Err(ConnectError::UnexpectedResponse) => {
                        &&& o.verdict is Unexpected
                        &&& final(s).out() == old(s).out() + ehlo_bytes(self.0.id)
                        &&& final(p).buffered() + final(s).inp() == avail.skip(o.consumed)
                    },
                    Err(ConnectError::NoMem) => {
                        &&& o.verdict is Overflow
                        &&& final(s).out() == old(s).out() + ehlo_bytes(self.0.id)
                        &&& final(p).buffered() + final(s).inp() == avail.skip(o.consumed)
                    },
                    Err(ConnectError::IoError(_)) => true,
                    Err(_) => false,
                }
            }),
    {
        let ghost avail0 = old(p).buffered() + old(s).inp();
        let ghost cap: int = old(p).capacity() as int;
        w.reset();
        match write_str(w, s, "EHLO ") {
            Ok(()) => {},
            Err(e) => {
                return Err(ConnectError::IoError(e));
            },
        }
        match write_str(w, s, self.0.id) {
            Ok(()) => {},
            Err(e) => {
                return Err(ConnectError::IoError(e));
            },
        }
        match write_str(w, s, "\r\n") {
            Ok(()) => {},
            Err(e) => {
                return Err(ConnectError::IoError(e));
            },
        }
        match w.flush(s) {
            Ok(()) => {},
            Err(e) => {
                return Err(ConnectError::IoError(e));
            },
        }
        proof {
            assert(s.out() =~= old(s).out() + ehlo_bytes(self.0.id));
            assert(p.buffered() + s.inp() == avail0);
            lemma_find_byte(avail0, LF);
        }
        // the greeting line must carry 250 and announce more lines
        let greeting = match p.next_line(s) {
            Ok(rl) => rl,
            Err(ResponseError::ReadError(e)) => {
                return Err(ConnectError::IoError(e));
            },
            Err(ResponseError::NoMem) => {
                return Err(ConnectError::NoMem);
            },
            Err(ResponseError::FormatError) => {
                return Err(ConnectError::UnexpectedResponse);
            },
            Err(ResponseError::ReplyCodeError(_)) => {
                return Err(ConnectError::UnexpectedResponse);
            },
        };
        let gcode = greeting.code.as_slice();
        if !slices_equal(gcode, "250".as_bytes()) || !greeting.has_next {
            return Err(ConnectError::UnexpectedResponse);
        }
        let ghost gln = until_len(avail0, LF);
        let ghost avail1 = avail0.skip(gln);
        let ghost mut done: int = 0;
        let mut plain = false;
        let mut login = false;
        proof {
            assert(avail1.skip(0) =~= avail1);
            assert(0 <= gln <= avail0.len());
        }
        loop
            invariant
                s.inv(),
                w.wf(),
                p.wf(),
                w.capacity() == old(w).capacity(),
                p.capacity() == old(p).capacity(),
                cap == old(p).capacity() as int,
                avail0 == old(p).buffered() + old(s).inp(),
                avail1 == avail0.skip(gln),
                gln == until_len(avail0, LF),
                0 <= gln <= avail0.len(),
                0 <= done <= avail1.len(),
                s.out() == old(s).out() + ehlo_bytes(self.0.id),
                w.pending() == Seq::<u8>::empty(),
                p.buffered() + s.inp() == avail1.skip(done),
                ehlo_outcome(avail0, cap) == ({
                    let rest = ehlo_ext(avail1.skip(done), cap);
                    EhloSpecOutcome {
                        verdict: match rest.verdict {
                            EhloVerdict::Caps { plain: rp, login: rl } => EhloVerdict::Caps {
                                plain: plain || rp,
                                login: login || rl,
                            },
                            v => v,
                        },
                        consumed: gln + done + rest.consumed,
                    }
                }),
            decreases avail1.len() - done,
        {
            let ghost cur = avail1.skip(done);
            let ghost ln = until_len(cur, LF);
            let ghost line = stripped(cur.take(ln));
            proof {
                lemma_find_byte(cur, LF);
            }
            let rl = match p.next_line(s) {
                Ok(rl) => rl,
                Err(ResponseError::ReadError(e)) => {
                    return Err(ConnectError::IoError(e));
                },
                Err(ResponseError::NoMem) => {
                    proof {
                        assert(cur.skip(cap) =~= avail1.skip(done + cap));
                        assert(avail1.skip(done + cap) =~= avail0.skip(gln + done + cap));
                    }
                    return Err(ConnectError::NoMem);
                },
                Err(ResponseError::FormatError) => {
                    proof {
                        assert(cur.skip(ln) =~= avail0.skip(gln + done + ln));
                    }
                    return Err(ConnectError::UnexpectedResponse);
                },
                Err(ResponseError::ReplyCodeError(_)) => {
                    return Err(ConnectError::UnexpectedResponse);
                },
            };
            proof {
                assert(cur.skip(ln) =~= avail0.skip(gln + done + ln));
            }
            let ccode = rl.code.as_slice();
            if !slices_equal(ccode, "250".as_bytes()) {
                return Err(ConnectError::UnexpectedResponse);
            }
            let tstr = rl.text.as_str();
            let fl = parse_caps_line(tstr);
            proof {
                assert(tstr.spec_bytes() == reply_text(line));
            }
            if !rl.has_next {
                plain = plain || fl.0;
                login = login || fl.1;
                proof {
                    assert(line_caps(reply_text(line)) == fl);
                    assert(ehlo_ext(cur, cap) == EhloSpecOutcome {
                        verdict: EhloVerdict::Caps { plain: fl.0, login: fl.1 },
                        consumed: ln,
                    });
                }
                return Ok(
                    EhloInfo { extensions: ExtensionSet { plain, login } },
                );
            }
            proof {
                assert(reply_line_wf(line) && reply_code(line) == "250".spec_bytes()
                    && reply_has_next(line));
                assert(1 <= ln <= cur.len());
                let rest2 = ehlo_ext(cur.skip(ln), cap);
                assert(ehlo_ext(cur, cap) == (match rest2.verdict {
                    EhloVerdict::Caps { plain: rp, login: rl2 } => EhloSpecOutcome {
                        verdict: EhloVerdict::Caps {
                            plain: fl.0 || rp,
                            login: fl.1 || rl2,
                        },
                        consumed: ln + rest2.consumed,
                    },
                    _ => EhloSpecOutcome {
                        verdict: rest2.verdict,
                        consumed: ln + rest2.consumed,
                    },
                }));
                assert(cur.skip(ln) =~= avail1.skip(done + ln));
            }
            plain = plain || fl.0;
            login = login || fl.1;
            proof {
                done = done + ln;
            }
        }
    }
}

} // verus!
