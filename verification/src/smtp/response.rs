//! SMTP reply parsing.
//!
//! A reply is one or more lines.  A line is a three-byte code, then either
//! nothing, or a separator — `' '` for the final line, `'-'` for a
//! continuation — and UTF-8 text.  `next_line` parses one line;
//! `expect_code` consumes a whole reply and checks every line against an
//! expected code.  Both are specified exactly by the spec functions here,
//! which compute, from the bytes a stream will deliver, what is parsed and
//! how many bytes are consumed.

use vstd::prelude::*;
use vstd::string::StringSliceAdditionalSpecFns;
use vstd::utf8::{encode_utf8, valid_utf8};

use crate::io::read::{
    find_byte, lemma_find_byte, lemma_find_byte_at, no_byte, stripped, try_utf8, until_len,
    BufReader, BufReaderError, CR, LF,
};
use crate::io::stream::{Stream, TransportError};

verus! {

/// The separator of a final reply line.
pub const SP: u8 = 32;

/// The separator of a continuation reply line.
pub const DASH: u8 = 45;

/// The three-byte reply code of a stripped line.
pub open spec fn reply_code(line: Seq<u8>) -> Seq<u8> {
    line.take(3)
}

/// The text of a stripped line: everything after the separator.
pub open spec fn reply_text(line: Seq<u8>) -> Seq<u8> {
    if line.len() <= 3 {
        Seq::<u8>::empty()
    } else {
        line.skip(4)
    }
}

/// Whether a stripped line announces a further line.
pub open spec fn reply_has_next(line: Seq<u8>) -> bool {
    line.len() > 3 && line[3] == DASH
}

/// A well-formed stripped reply line: long enough, a valid separator, and
/// UTF-8 text.
pub open spec fn reply_line_wf(line: Seq<u8>) -> bool {
    &&& line.len() >= 3
    &&& (line.len() == 3 || line[3] == SP || line[3] == DASH)
    &&& valid_utf8(line)
    &&& valid_utf8(reply_text(line))
}

/// Whether one whole line sits within the first `cap` bytes of `avail`.
pub open spec fn line_available(avail: Seq<u8>, cap: int) -> bool {
    let f = find_byte(avail, LF);
    (0 <= f < cap) || (f == -1 && avail.len() < cap)
}

/// How `expect_code` leaves one whole reply.
pub enum ReplyVerdict {
    /// Every line carried the expected code and the reply ended.
    Done,
    /// A line carried this other code.
    Mismatch(Seq<u8>),
    /// A line was malformed or not UTF-8.
    Malformed,
    /// A line did not fit the buffer.
    Overflow,
}

/// A verdict together with the number of bytes consumed reaching it.
pub struct ReplyOutcome {
    pub verdict: ReplyVerdict,
    pub consumed: int,
}

/// What `expect_code` does on the bytes `avail` that the stream will
/// deliver, with reading capacity `cap`, expecting `code` on every line.
pub open spec fn expect_outcome(avail: Seq<u8>, cap: int, code: Seq<u8>) -> ReplyOutcome
    decreases avail.len(),
{
    let ln = until_len(avail, LF);
    if !line_available(avail, cap as int) {
        ReplyOutcome { verdict: ReplyVerdict::Overflow, consumed: cap }
    } else {
        let line = stripped(avail.take(ln));
        if !reply_line_wf(line) {
            ReplyOutcome { verdict: ReplyVerdict::Malformed, consumed: ln }
        } else if reply_code(line) != code {
            ReplyOutcome { verdict: ReplyVerdict::Mismatch(reply_code(line)), consumed: ln }
        } else if reply_has_next(line) && 1 <= ln <= avail.len() {
            let rest = expect_outcome(avail.skip(ln), cap, code);
            ReplyOutcome { verdict: rest.verdict, consumed: ln + rest.consumed }
        } else {
            ReplyOutcome { verdict: ReplyVerdict::Done, consumed: ln }
        }
    }
}


/// One rendered reply line: `{code}{sep}{text}\r\n`.
pub open spec fn reply_render_line(code: Seq<u8>, sep: u8, text: Seq<u8>) -> Seq<u8> {
    code + seq![sep] + text + seq![CR, LF]
}

/// A whole rendered reply: continuation lines for every text but the last,
/// then a final line.
pub open spec fn reply_render(code: Seq<u8>, texts: Seq<Seq<u8>>) -> Seq<u8>
    decreases texts.len(),
{
    if texts.len() <= 1 {
        reply_render_line(code, SP, if texts.len() == 0 { Seq::<u8>::empty() } else { texts[0] })
    } else {
        reply_render_line(code, DASH, texts[0]) + reply_render(code, texts.drop_first())
    }
}

/// A sequence of bytes below `0x80` is valid UTF-8.
pub proof fn lemma_ascii_bytes_valid_utf8(s: Seq<u8>)
    requires
        forall|i: int| 0 <= i < s.len() ==> s[i] < 0x80,
    ensures
        valid_utf8(s),
{
    assert(s.subrange(0, 0) =~= Seq::<u8>::empty());
    assert(vstd::utf8::partial_valid_utf8(s, 0));
    assert forall|i: int|
        0 <= 0 <= i < s.len() <= s.len() implies #[trigger] vstd::utf8::is_leading_byte_width_1(
        s[i],
    ) by {}
    vstd::utf8::partial_valid_utf8_extend_ascii_block(s, 0, s.len() as int);
    assert(s.subrange(0, s.len() as int) =~= s);
}

/// Law: a reply line `{code}{sep}{text}\r\n` parses back into exactly its
/// code, its text, and a continuation flag matching the separator; nothing
/// else of the line is consumed or invented.
pub proof fn lemma_reply_round_trip(code: Seq<u8>, sep: u8, text: Seq<u8>, cap: int)
    requires
        code.len() == 3,
        sep == SP || sep == DASH,
        no_byte(code, LF),
        no_byte(text, LF),
        valid_utf8(code + seq![sep] + text),
        valid_utf8(text),
        code.len() + 1 + text.len() + 2 <= cap,
    ensures
        ({
            let avail = reply_render_line(code, sep, text);
            let ln = until_len(avail, LF);
            let line = stripped(avail.take(ln));
            &&& line_available(avail, cap)
            &&& ln == avail.len()
            &&& reply_line_wf(line)
            &&& reply_code(line) == code
            &&& reply_text(line) == text
            &&& reply_has_next(line) == (sep == DASH)
        }),
{
    let avail = reply_render_line(code, sep, text);
    let last = avail.len() - 1;
    assert(avail[last] == LF);
    assert forall|i: int| 0 <= i < last implies #[trigger] avail.take(last)[i] != LF by {
        if i < 3 {
            assert(avail[i] == code[i]);
        } else if i == 3 {
            assert(avail[i] == sep);
        } else if i < 4 + text.len() {
            assert(avail[i] == text[i - 4]);
        } else {
            assert(avail[i] == CR);
        }
    }
    lemma_find_byte_at(avail, LF, last);
    let ln = until_len(avail, LF);
    assert(ln == avail.len());
    assert(avail.take(ln) =~= avail);
    let line = stripped(avail.take(ln));
    assert(line =~= code + seq![sep] + text);
    assert(line[3] == sep);
    assert(reply_code(line) =~= code);
    assert(reply_text(line) =~= text);
}

/// Law: on a reply of well-formed ASCII lines that all carry `code` and end
/// with a final line, `expect_code` succeeds and consumes exactly the
/// rendered reply — whatever bytes follow it are untouched.
pub proof fn lemma_expect_code_consumes(
    code: Seq<u8>,
    texts: Seq<Seq<u8>>,
    rest: Seq<u8>,
    cap: int,
)
    requires
        code.len() == 3,
        no_byte(code, LF),
        forall|i: int| 0 <= i < code.len() ==> code[i] < 0x80,
        texts.len() >= 1,
        forall|i: int| 0 <= i < texts.len() ==> no_byte(#[trigger] texts[i], LF),
        forall|i: int, j: int|
            0 <= i < texts.len() && 0 <= j < texts[i].len() ==> #[trigger] texts[i][j] < 0x80,
        forall|i: int| 0 <= i < texts.len() ==> (#[trigger] texts[i]).len() + 6 <= cap,
    ensures
        expect_outcome(reply_render(code, texts) + rest, cap, code) == (ReplyOutcome {
            verdict: ReplyVerdict::Done,
            consumed: reply_render(code, texts).len() as int,
        }),
    decreases texts.len(),
{
    let sep: u8 = if texts.len() == 1 { SP } else { DASH };
    let t = texts[0];
    let line = reply_render_line(code, sep, t);
    let tail: Seq<u8> = if texts.len() == 1 {
        rest
    } else {
        reply_render(code, texts.drop_first()) + rest
    };
    let avail = reply_render(code, texts) + rest;
    assert(avail =~= line + tail);
    // the first line ends at its own final byte
    let last = line.len() - 1;
    assert(avail[last] == LF);
    assert forall|i: int| 0 <= i < last implies #[trigger] avail.take(last)[i] != LF by {
        if i < 3 {
            assert(avail[i] == code[i]);
        } else if i == 3 {
            assert(avail[i] == sep);
        } else if i < 4 + t.len() {
            assert(avail[i] == t[i - 4]);
        } else {
            assert(avail[i] == CR);
        }
    }
    lemma_find_byte_at(avail, LF, last);
    let ln = until_len(avail, LF);
    assert(ln == line.len());
    assert(line_available(avail, cap));
    let parsed = stripped(avail.take(ln));
    assert(avail.take(ln) =~= line);
    assert(parsed =~= code + seq![sep] + t);
    assert forall|i: int| 0 <= i < parsed.len() implies #[trigger] parsed[i] < 0x80 by {
        if i < 3 {
            assert(parsed[i] == code[i]);
        } else if i == 3 {
            assert(parsed[i] == sep);
        } else {
            assert(parsed[i] == t[i - 3 - 1]);
        }
    }
    lemma_ascii_bytes_valid_utf8(parsed);
    assert(reply_text(parsed) =~= t);
    lemma_ascii_bytes_valid_utf8(reply_text(parsed));
    assert(reply_line_wf(parsed));
    assert(parsed[3] == sep);
    assert(reply_code(parsed) =~= code);
    if texts.len() == 1 {
        assert(!reply_has_next(parsed));
        assert(expect_outcome(avail, cap, code) == ReplyOutcome {
            verdict: ReplyVerdict::Done,
            consumed: ln,
        });
    } else {
        assert(reply_has_next(parsed));
        assert(avail.skip(ln) =~= reply_render(code, texts.drop_first()) + rest);
        assert forall|i: int|
            0 <= i < texts.drop_first().len() implies no_byte(
            #[trigger] texts.drop_first()[i],
            LF,
        ) && (texts.drop_first()[i]).len() + 6 <= cap by {
            assert(texts.drop_first()[i] == texts[i + 1]);
        }
        assert forall|i: int, j: int|
            0 <= i < texts.drop_first().len() && 0 <= j < texts.drop_first()[i].len()
            implies #[trigger] texts.drop_first()[i][j] < 0x80 by {
            assert(texts.drop_first()[i] == texts[i + 1]);
        }
        lemma_expect_code_consumes(code, texts.drop_first(), rest, cap);
        assert(reply_render(code, texts) =~= line + reply_render(code, texts.drop_first()));
    }
}

/// Bytes consumed by `expect_code` stay within the reply source.
pub proof fn lemma_expect_consumed_bounds(avail: Seq<u8>, cap: int, code: Seq<u8>)
    requires
        cap >= 0,
    ensures
        ({
            let o = expect_outcome(avail, cap, code);
            0 <= o.consumed <= avail.len()
        }),
    decreases avail.len(),
{
    let o = expect_outcome(avail, cap, code);
    lemma_find_byte(avail, LF);
    if line_available(avail, cap) {
        let ln = until_len(avail, LF);
        let line = stripped(avail.take(ln));
        if reply_line_wf(line) && reply_code(line) == code && reply_has_next(line) && 1 <= ln
            <= avail.len() {
            lemma_expect_consumed_bounds(avail.skip(ln), cap, code);
        }
    }
}

/// The outcome of `k` consecutive whole replies, each checked against
/// `code`: the first reply that does not end in success decides.
pub open spec fn multi_expect(k: int, avail: Seq<u8>, cap: int, code: Seq<u8>) -> ReplyOutcome
    decreases k,
{
    if k <= 0 {
        ReplyOutcome { verdict: ReplyVerdict::Done, consumed: 0 }
    } else {
        let o = expect_outcome(avail, cap, code);
        if o.verdict is Done && k > 1 {
            let rest = multi_expect(k - 1, avail.skip(o.consumed), cap, code);
            ReplyOutcome { verdict: rest.verdict, consumed: o.consumed + rest.consumed }
        } else {
            o
        }
    }
}

/// Bytes consumed by a run of replies stay within the reply source.
pub proof fn lemma_multi_consumed_bounds(k: int, avail: Seq<u8>, cap: int, code: Seq<u8>)
    requires
        cap >= 0,
    ensures
        0 <= multi_expect(k, avail, cap, code).consumed <= avail.len(),
    decreases k,
{
    if k <= 0 {
    } else {
        let o = expect_outcome(avail, cap, code);
        lemma_expect_consumed_bounds(avail, cap, code);
        if o.verdict is Done && k > 1 {
            lemma_multi_consumed_bounds(k - 1, avail.skip(o.consumed), cap, code);
        }
    }
}

/// One parsed reply line.
pub struct ReplyLine {
    /// The three code bytes.
    pub code: Vec<u8>,
    /// The text after the separator.
    pub text: String,
    /// Whether another line follows.
    pub has_next: bool,
}

/// A failure while reading a reply.
#[derive(Debug)]
pub enum ResponseError {
    /// A line carried this code instead of the expected one.
    ReplyCodeError(Vec<u8>),
    /// The transport failed.
    ReadError(TransportError),
    /// A line did not fit the buffer.
    NoMem,
    /// A line was malformed or not UTF-8.
    FormatError,
}

/// Copy the first `k` bytes of `s` into a fresh vector.
fn prefix_vec(s: &[u8], k: usize) -> (r: Vec<u8>)
    requires
        k <= s@.len(),
    ensures
        r@ == s@.take(k as int),
{
    let mut r: Vec<u8> = Vec::new();
    let mut i: usize = 0;
    while i < k
        invariant
            i <= k <= s@.len(),
            r@ == s@.take(i as int),
        decreases k - i,
    {
        let b = s[i];
        r.push(b);
        proof {
            assert(r@ =~= s@.take(i + 1));
        }
        i = i + 1;
    }
    r
}

/// A parser of SMTP replies over a buffered reader.
pub struct ResponseParser {
    reader: BufReader,
}

impl ResponseParser {
    /// The underlying reader is well-formed.
    pub closed spec fn wf(&self) -> bool {
        self.reader.wf()
    }

    /// The reading capacity.
    pub closed spec fn capacity(&self) -> nat {
        self.reader.capacity()
    }

    /// Bytes read from the stream but not yet parsed.
    pub closed spec fn buffered(&self) -> Seq<u8> {
        self.reader.buffered()
    }

    /// Wrap a buffered reader.
    pub fn new(reader: BufReader) -> (r: Self)
        ensures
            r.wf() == reader.wf(),
            r.capacity() == reader.capacity(),
            r.buffered() == reader.buffered(),
    {
        ResponseParser { reader }
    }

    /// Drop whatever is buffered but not yet parsed.
    pub fn reset(&mut self)
        requires
            old(self).wf(),
        ensures
            final(self).wf(),
            final(self).capacity() == old(self).capacity(),
            final(self).buffered() == Seq::<u8>::empty(),
    {
        self.reader.reset();
    }

    /// Parse the next reply line.
    pub fn next_line<R: Stream>(&mut self, r: &mut R) -> (res: Result<ReplyLine, ResponseError>)
        requires
            old(self).wf(),
            old(r).inv(),
        ensures
            final(self).wf(),
            final(r).inv(),
            final(r).out() == old(r).out(),
            final(self).capacity() == old(self).capacity(),
            ({
                let avail = old(self).buffered() + old(r).inp();
                let cap = old(self).capacity();
                let ln = until_len(avail, LF);
                let line = stripped(avail.take(ln));
                match res {
                    Ok(rl) => {
                        &&& line_available(avail, cap as int)
                        &&& reply_line_wf(line)
                        &&& rl.code@ == reply_code(line)
                        &&& encode_utf8(rl.text@) == reply_text(line)
                        &&& rl.has_next == reply_has_next(line)
                        &&& final(self).buffered() + final(r).inp() == avail.skip(ln)
                    },
                    Err(ResponseError::FormatError) => {
                        &&& line_available(avail, cap as int)
                        &&& !reply_line_wf(line)
                        &&& final(self).buffered() + final(r).inp() == avail.skip(ln)
                    },
                    Err(ResponseError::NoMem) => {
                        &&& !line_available(avail, cap as int)
                        &&& avail.len() >= cap
                        &&& final(self).buffered() + final(r).inp() == avail.skip(cap as int)
                    },
                    Err(ResponseError::ReadError(_)) => {
                        final(self).buffered() + final(r).inp() == avail
                    },
                    Err(ResponseError::ReplyCodeError(_)) => false,
                }
            }),
    {
        let ghost avail = old(self).buffered() + old(r).inp();
        proof {
            lemma_find_byte(avail, LF);
        }
        let st = match self.reader.read_line(r) {
            Ok(st) => st,
            Err(BufReaderError::FullBuffer(_)) => {
                return Err(ResponseError::NoMem);
            },
            Err(BufReaderError::ReaderError(e)) => {
                return Err(ResponseError::ReadError(e));
            },
            Err(BufReaderError::DecodeFailed(_)) => {
                return Err(ResponseError::FormatError);
            },
        };
        let b = st.as_str().as_bytes();
        let ghost line = stripped(avail.take(until_len(avail, LF)));
        proof {
            assert(b@ == line);
        }
        if b.len() < 3 {
            return Err(ResponseError::FormatError);
        }
        let code = prefix_vec(b, 3);
        if b.len() == 3 {
            proof {
                assert(reply_text(line) =~= Seq::<u8>::empty());
                assert(encode_utf8(Seq::<char>::empty()) =~= Seq::<u8>::empty());
            }
            return Ok(ReplyLine { code, text: String::new(), has_next: false });
        }
        let sep = b[3];
        if sep != SP && sep != DASH {
            return Err(ResponseError::FormatError);
        }
        let has_next = sep == DASH;
        let textb = &b[4..b.len()];
        proof {
            assert(textb@ =~= reply_text(line));
        }
        match try_utf8(textb) {
            Some(t) => Ok(ReplyLine { code, text: t.to_owned(), has_next }),
            None => Err(ResponseError::FormatError),
        }
    }

    /// Read lines until one announces no successor; every line must carry the
    /// expected `code`.
    pub fn expect_code<R: Stream>(&mut self, r: &mut R, code: &[u8]) -> (res: Result<
        (),
        ResponseError,
    >)
        requires
            old(self).wf(),
            old(r).inv(),
        ensures
            final(self).wf(),
            final(r).inv(),
            final(r).out() == old(r).out(),
            final(self).capacity() == old(self).capacity(),
            ({
                let avail = old(self).buffered() + old(r).inp();
                let cap = old(self).capacity();
                let o = expect_outcome(avail, cap as int, code@);
                match res {
                    Ok(()) => {
                        &&& o.verdict is Done
                        &&& final(self).buffered() + final(r).inp() == avail.skip(o.consumed)
                    },
                    Err(ResponseError::ReplyCodeError(c)) => {
                        &&& o.verdict matches ReplyVerdict::Mismatch(cc) && cc == c@
                        &&& final(self).buffered() + final(r).inp() == avail.skip(o.consumed)
                    },
                    Err(ResponseError::FormatError) => {
                        &&& o.verdict is Malformed
                        &&& final(self).buffered() + final(r).inp() == avail.skip(o.consumed)
                    },
                    Err(ResponseError::NoMem) => {
                        &&& o.verdict is Overflow
                        &&& final(self).buffered() + final(r).inp() == avail.skip(o.consumed)
                    },
                    Err(ResponseError::ReadError(_)) => exists|k: int|
                        0 <= k <= avail.len() && final(self).buffered() + final(r).inp()
                            == avail.skip(k),
                }
            }),
    {
        let ghost avail0 = old(self).buffered() + old(r).inp();
        let ghost cap: int = old(self).capacity() as int;
        let ghost mut done: int = 0;
        loop
            invariant
                self.wf(),
                r.inv(),
                r.out() == old(r).out(),
                self.capacity() == cap,
                cap == old(self).capacity(),
                0 <= done <= avail0.len(),
                avail0 == old(self).buffered() + old(r).inp(),
                self.buffered() + r.inp() == avail0.skip(done),
                expect_outcome(avail0, cap, code@) == ({
                    let rest = expect_outcome(avail0.skip(done), cap, code@);
                    ReplyOutcome { verdict: rest.verdict, consumed: done + rest.consumed }
                }),
            decreases avail0.len() - done,
        {
            let ghost cur = avail0.skip(done);
            let ghost ln = until_len(cur, LF);
            let ghost line = stripped(cur.take(ln));
            proof {
                lemma_find_byte(cur, LF);
            }
            let rl = match self.next_line(r) {
                Ok(rl) => rl,
                Err(e) => {
                    proof {
                        if e is ReadError {
                            assert(self.buffered() + r.inp() == avail0.skip(done));
                        } else {
                            let rest = expect_outcome(cur, cap, code@);
                            if e is NoMem {
                                assert(rest.verdict is Overflow && rest.consumed == cap);
                                assert(avail0.skip(done).skip(cap as int) =~= avail0.skip(done + cap));
                            } else {
                                assert(rest.verdict is Malformed && rest.consumed == ln);
                                assert(avail0.skip(done).skip(ln) =~= avail0.skip(done + ln));
                            }
                        }
                    }
                    return Err(e);
                },
            };
            let matches_code = {
                let cs = rl.code.as_slice();
                slices_equal(cs, code)
            };
            proof {
                assert(avail0.skip(done).skip(ln) =~= avail0.skip(done + ln));
            }
            if !matches_code {
                proof {
                    let rest = expect_outcome(cur, cap, code@);
                    assert(rest.verdict == ReplyVerdict::Mismatch(reply_code(line)));
                }
                return Err(ResponseError::ReplyCodeError(rl.code));
            }
            if !rl.has_next {
                proof {
                    let rest = expect_outcome(cur, cap, code@);
                    assert(rest.verdict is Done && rest.consumed == ln);
                }
                return Ok(());
            }
            proof {
                assert(reply_line_wf(line));
                assert(line.len() > 3);
                assert(cur.take(ln).len() >= line.len());
                assert(1 <= ln <= cur.len());
                done = done + ln;
            }
        }
    }
}

/// Byte-for-byte equality of two slices.
pub(crate) fn slices_equal(a: &[u8], b: &[u8]) -> (r: bool)
    ensures
        r == (a@ == b@),
{
    if a.len() != b.len() {
        proof {
            assert(a@.len() != b@.len());
        }
        return false;
    }
    let n = a.len();
    let mut i: usize = 0;
    while i < n
        invariant
            i <= n,
            n == a@.len() == b@.len(),
            forall|j: int| 0 <= j < i ==> a@[j] == b@[j],
        decreases n - i,
    {
        if a[i] != b[i] {
            return false;
        }
        i = i + 1;
    }
    proof {
        assert(a@ =~= b@);
    }
    true
}

} // verus!
