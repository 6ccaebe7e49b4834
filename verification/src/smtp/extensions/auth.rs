//! The SMTP AUTH extension: the PLAIN and LOGIN mechanisms and the strategy
//! that tries them in order.
//!
//! Credentials travel base-64 encoded.  The scratch space for assembling
//! them is bounded as the protocol permits — 512 octets of credential, 1024
//! of encoding — and exceeding a bound yields `NoMem` before anything is
//! written for that step.

use base64::Engine;

use vstd::prelude::*;
use vstd::string::StringSliceAdditionalSpecFns;

use crate::auth::Credential;
use crate::io::stream::{Stream, TransportError};
use crate::io::write::BufWriter;
use crate::smtp::commands::write_str;
use crate::smtp::extensions::EhloInfo;
use crate::smtp::response::{
    expect_outcome, lemma_expect_consumed_bounds, ReplyVerdict, ResponseError, ResponseParser,
};
use crate::smtp::ConnectError;

verus! {

/// The NUL byte separating the parts of a PLAIN credential blob.
pub const NUL: u8 = 0;

/// What the standard base-64 engine produces for the given bytes.
pub uninterp spec fn b64_of(data: Seq<u8>) -> Seq<u8>;

/// Relies on `base64::Engine::encode` with the `STANDARD` engine: the
/// encoding is a function of the input bytes alone, and the padded output
/// holds four bytes for every started triple of input bytes.
#[verifier::external_body]
fn b64_encode(data: &[u8]) -> (r: Vec<u8>)
    requires
        data@.len() <= 0x1000_0000,
    ensures
        r@ == b64_of(data@),
        r@.len() == 4 * ((data@.len() + 2) / 3),
{
    base64::engine::general_purpose::STANDARD.encode(data).into_bytes()
}

/// The PLAIN credential blob: `\0{username}\0{password}`.
pub open spec fn plain_blob(user: &str, pass: &str) -> Seq<u8> {
    seq![NUL] + user.spec_bytes() + seq![NUL] + pass.spec_bytes()
}

/// The bytes of an AUTH PLAIN request.
pub open spec fn auth_plain_bytes(user: &str, pass: &str) -> Seq<u8> {
    "AUTH PLAIN ".spec_bytes() + b64_of(plain_blob(user, pass)) + "\r\n".spec_bytes()
}

/// One base-64 encoded credential line of the LOGIN exchange.
pub open spec fn b64_line(data: Seq<u8>) -> Seq<u8> {
    b64_of(data) + "\r\n".spec_bytes()
}

/// How one authentication attempt ends.
pub enum AuthVerdict {
    /// The server accepted the credential.
    Accepted,
    /// The server turned the mechanism or the credential down; another
    /// mechanism may be tried.
    Rejected,
    /// A credential or a reply outgrew its buffer.
    NoMem,
    /// A reply was malformed.
    Unexpected,
    /// No advertised mechanism is supported.
    Unsupported,
}

/// An attempt's verdict, the bytes it wrote, and the reply bytes it
/// consumed.
pub struct AuthAttempt {
    pub verdict: AuthVerdict,
    pub wire: Seq<u8>,
    pub consumed: int,
}

/// The attempt verdict a whole-reply outcome maps to.
pub open spec fn verdict_of_reply(v: ReplyVerdict) -> AuthVerdict {
    match v {
        ReplyVerdict::Done => AuthVerdict::Accepted,
        ReplyVerdict::Mismatch(_) => AuthVerdict::Rejected,
        ReplyVerdict::Malformed => AuthVerdict::Unexpected,
        ReplyVerdict::Overflow => AuthVerdict::NoMem,
    }
}

/// What an AUTH PLAIN attempt does: one request carrying the encoded blob,
/// one reply that must be `235`.  A credential over 512 octets is refused
/// before anything is written.
pub open spec fn plain_attempt(user: &str, pass: &str, avail: Seq<u8>, cap: int) -> AuthAttempt {
    if 2 + user.spec_bytes().len() + pass.spec_bytes().len() > 512 {
        AuthAttempt { verdict: AuthVerdict::NoMem, wire: Seq::<u8>::empty(), consumed: 0 }
    } else {
        let o = expect_outcome(avail, cap, "235".spec_bytes());
        AuthAttempt {
            verdict: verdict_of_reply(o.verdict),
            wire: auth_plain_bytes(user, pass),
            consumed: o.consumed,
        }
    }
}

/// What an AUTH LOGIN attempt does: announce the mechanism, then send the
/// username and the password in turn, each awaited by `334` and finally
/// `235`.  A credential whose encoding outgrows 512 octets is refused
/// before its line is written.
pub open spec fn login_attempt(user: &str, pass: &str, avail: Seq<u8>, cap: int) -> AuthAttempt {
    let w0 = "AUTH LOGIN\r\n".spec_bytes();
    let o1 = expect_outcome(avail, cap, "334".spec_bytes());
    if !(o1.verdict is Done) {
        AuthAttempt { verdict: verdict_of_reply(o1.verdict), wire: w0, consumed: o1.consumed }
    } else if user.spec_bytes().len() > 384 {
        AuthAttempt { verdict: AuthVerdict::NoMem, wire: w0, consumed: o1.consumed }
    } else {
        let a1 = avail.skip(o1.consumed);
        let o2 = expect_outcome(a1, cap, "334".spec_bytes());
        let w1 = w0 + b64_line(user.spec_bytes());
        if !(o2.verdict is Done) {
            AuthAttempt {
                verdict: verdict_of_reply(o2.verdict),
                wire: w1,
                consumed: o1.consumed + o2.consumed,
            }
        } else if pass.spec_bytes().len() > 384 {
            AuthAttempt {
                verdict: AuthVerdict::NoMem,
                wire: w1,
                consumed: o1.consumed + o2.consumed,
            }
        } else {
            let a2 = a1.skip(o2.consumed);
            let o3 = expect_outcome(a2, cap, "235".spec_bytes());
            AuthAttempt {
                verdict: verdict_of_reply(o3.verdict),
                wire: w1 + b64_line(pass.spec_bytes()),
                consumed: o1.consumed + o2.consumed + o3.consumed,
            }
        }
    }
}

/// What the authentication strategy does: PLAIN before LOGIN among the
/// advertised mechanisms, moving on only after a rejection.
pub open spec fn auth_strategy(
    plain_adv: bool,
    login_adv: bool,
    user: &str,
    pass: &str,
    avail: Seq<u8>,
    cap: int,
) -> AuthAttempt {
    if !plain_adv && !login_adv {
        AuthAttempt { verdict: AuthVerdict::Unsupported, wire: Seq::<u8>::empty(), consumed: 0 }
    } else if plain_adv {
        let a = plain_attempt(user, pass, avail, cap);
        if a.verdict is Rejected && login_adv {
            let b = login_attempt(user, pass, avail.skip(a.consumed), cap);
            AuthAttempt {
                verdict: b.verdict,
                wire: a.wire + b.wire,
                consumed: a.consumed + b.consumed,
            }
        } else {
            a
        }
    } else {
        login_attempt(user, pass, avail, cap)
    }
}

/// Law: when both mechanisms are advertised and the server rejects PLAIN,
/// LOGIN is attempted on the very next bytes, its request following PLAIN's
/// on the wire; and when LOGIN is rejected too, the whole strategy ends
/// rejected — surfaced as `AuthFailed`.
pub proof fn lemma_auth_order(user: &str, pass: &str, avail: Seq<u8>, cap: int)
    requires
        plain_attempt(user, pass, avail, cap).verdict is Rejected,
    ensures
        ({
            let a = plain_attempt(user, pass, avail, cap);
            let b = login_attempt(user, pass, avail.skip(a.consumed), cap);
            let st = auth_strategy(true, true, user, pass, avail, cap);
            &&& st.wire == a.wire + b.wire
            &&& st.verdict == b.verdict
            &&& st.consumed == a.consumed + b.consumed
            &&& (b.verdict is Rejected ==> st.verdict is Rejected)
        }),
{
}

/// Law: when only LOGIN is advertised, PLAIN is never attempted: the
/// strategy is exactly the LOGIN attempt, and nothing of PLAIN reaches the
/// wire.
pub proof fn lemma_auth_login_only(user: &str, pass: &str, avail: Seq<u8>, cap: int)
    ensures
        auth_strategy(false, true, user, pass, avail, cap) == login_attempt(
            user,
            pass,
            avail,
            cap,
        ),
{
}

/// A LOGIN attempt consumes no more reply bytes than the stream offers.
proof fn lemma_login_consumed_bounds(user: &str, pass: &str, avail: Seq<u8>, cap: int)
    requires
        cap >= 0,
    ensures
        0 <= login_attempt(user, pass, avail, cap).consumed <= avail.len(),
{
    let o1 = expect_outcome(avail, cap, "334".spec_bytes());
    lemma_expect_consumed_bounds(avail, cap, "334".spec_bytes());
    if o1.verdict is Done && user.spec_bytes().len() <= 384 {
        let a1 = avail.skip(o1.consumed);
        let o2 = expect_outcome(a1, cap, "334".spec_bytes());
        lemma_expect_consumed_bounds(a1, cap, "334".spec_bytes());
        if o2.verdict is Done && pass.spec_bytes().len() <= 384 {
            let a2 = a1.skip(o2.consumed);
            lemma_expect_consumed_bounds(a2, cap, "235".spec_bytes());
        }
    }
}

/// Append a slice to a vector.
fn push_bytes(v: &mut Vec<u8>, s: &[u8])
    ensures
        final(v)@ == old(v)@ + s@,
{
    let n = s.len();
    let mut i: usize = 0;
    while i < n
        invariant
            i <= n,
            n == s@.len(),
            v@ == old(v)@ + s@.take(i as int),
        decreases n - i,
    {
        let b = s[i];
        v.push(b);
        proof {
            assert(old(v)@ + s@.take(i as int) + seq![b] =~= old(v)@ + s@.take(i + 1));
        }
        i = i + 1;
    }
    proof {
        assert(s@.take(n as int) =~= s@);
    }
}

/// The AUTH PLAIN command.
struct AuthPlain<'c>(Credential<'c>);

impl<'c> AuthPlain<'c> {
    /// Write the encoded credential and consume the reply.
    fn execute<S: Stream>(
        self,
        s: &mut S,
        w: &mut BufWriter,
        p: &mut ResponseParser,
    ) -> (r: Result<(), ConnectError>)
        requires
            old(s).inv(),
            old(w).wf(),
            old(p).wf(),
        ensures
            final(s).inv(),
            final(w).wf(),
            final(p).wf(),
            final(w).capacity() == old(w).capacity(),
            final(p).capacity() == old(p).capacity(),
            ({
                let avail = old(p).buffered() + old(s).inp();
                let a = plain_attempt(
                    self.0.username,
                    self.0.password,
                    avail,
                    old(p).capacity() as int,
                );
                match r {
                    Ok(()) => {
                        &&& a.verdict is Accepted
                        &&& final(s).out() == old(s).out() + a.wire
                        &&& final(w).pending() == Seq::<u8>::empty()
                        &&& final(p).buffered() + final(s).inp() == avail.skip(a.consumed)
                    },
                    Err(ConnectError::AuthFailed) => {
                        &&& a.verdict is Rejected
                        &&& final(s).out() == old(s).out() + a.wire
                        &&& final(p).buffered() + final(s).inp() == avail.skip(a.consumed)
                    },
                    Err(ConnectError::NoMem) => {
                        &&& a.verdict is NoMem
                        &&& final(s).out() == old(s).out() + a.wire
                        &&& final(p).buffered() + final(s).inp() == avail.skip(a.consumed)
                    },
                    Err(ConnectError::UnexpectedResponse) => {
                        &&& a.verdict is Unexpected
                        &&& final(s).out() == old(s).out() + a.wire
                        &&& final(p).buffered() + final(s).inp() == avail.skip(a.consumed)
                    },
                    Err(ConnectError::IoError(_)) => true,
                    Err(_) => false,
                }
            }),
    {
        let ub = self.0.username.as_bytes();
        let pb = self.0.password.as_bytes();
        if ub.len() > 510 || pb.len() > 510 - ub.len() {
            proof {
                assert(old(s).out() + Seq::<u8>::empty() =~= old(s).out());
                assert((old(p).buffered() + old(s).inp()).skip(0) =~= old(p).buffered() + old(
                    s,
                ).inp());
            }
            return Err(ConnectError::NoMem);
        }
        let mut blob: Vec<u8> = Vec::new();
        blob.push(NUL);
        push_bytes(&mut blob, ub);
        blob.push(NUL);
        push_bytes(&mut blob, pb);
        proof {
            assert(blob@ =~= plain_blob(self.0.username, self.0.password));
        }
        let enc = b64_encode(blob.as_slice());
        w.reset();
        match write_str(w, s, "AUTH PLAIN ") {
            Ok(()) => {},
            Err(e) => {
                return Err(ConnectError::IoError(e));
            },
        }
        match w.write(s, enc.as_slice()) {
            Ok(()) => {},
            Err(e) => {
                return Err(ConnectError::IoError(e));
            },
        }
        match write_str(w, s, "\r\n") {
            Ok(()) => {},
            Err(e) => {
                return Err(ConnectError::IoError(e));
            },
        }
        match w.flush(s) {
            Ok(()) => {},
            Err(e) => {
                return Err(ConnectError::IoError(e));
            },
        }
        proof {
            assert(s.out() =~= old(s).out() + auth_plain_bytes(
                self.0.username,
                self.0.password,
            ));
            assert(p.buffered() + s.inp() == old(p).buffered() + old(s).inp());
        }
        match p.expect_code(s, "235".as_bytes()) {
            Ok(()) => Ok(()),
            Err(ResponseError::ReplyCodeError(_)) => Err(ConnectError::AuthFailed),
            Err(ResponseError::ReadError(e)) => Err(ConnectError::IoError(e)),
            Err(ResponseError::NoMem) => Err(ConnectError::NoMem),
            Err(ResponseError::FormatError) => Err(ConnectError::UnexpectedResponse),
        }
    }
}

/// The AUTH LOGIN command.
struct AuthLogin<'c>(Credential<'c>);

impl<'c> AuthLogin<'c> {
    /// Announce the mechanism, then send each credential when prompted.
    #[verifier::rlimit(60)]
    #[verifier::spinoff_prover]
    fn execute<S: Stream>(
        self,
        s: &mut S,
        w: &mut BufWriter,
        p: &mut ResponseParser,
    ) -> (r: Result<(), ConnectError>)
        requires
            old(s).inv(),
            old(w).wf(),
            old(p).wf(),
        ensures
            final(s).inv(),
            final(w).wf(),
            final(p).wf(),
            final(w).capacity() == old(w).capacity(),
            final(p).capacity() == old(p).capacity(),
            ({
                let avail = old(p).buffered() + old(s).inp();
                let a = login_attempt(
                    self.0.username,
                    self.0.password,
                    avail,
                    old(p).capacity() as int,
                );
                match r {
                    Ok(()) => {
                        &&& a.verdict is Accepted
                        &&& final(s).out() == old(s).out() + a.wire
                        &&& final(w).pending() == Seq::<u8>::empty()
                        &&& final(p).buffered() + final(s).inp() == avail.skip(a.consumed)
                    },
                    Err(ConnectError::AuthFailed) => {
                        &&& a.verdict is Rejected
                        &&& final(s).out() == old(s).out() + a.wire
                        &&& final(p).buffered() + final(s).inp() == avail.skip(a.consumed)
                    },
                    Err(ConnectError::NoMem) => {
                        &&& a.verdict is NoMem
                        &&& final(s).out() == old(s).out() + a.wire
                        &&& final(p).buffered() + final(s).inp() == avail.skip(a.consumed)
                    },
                    Err(ConnectError::UnexpectedResponse) => {
                        &&& a.verdict is Unexpected
                        &&& final(s).out() == old(s).out() + a.wire
                        &&& final(p).buffered() + final(s).inp() == avail.skip(a.consumed)
                    },
                    Err(ConnectError::IoError(_)) => true,
                    Err(_) => false,
                }
            }),
    {
        let ghost avail = old(p).buffered() + old(s).inp();
        let ghost cap: int = old(p).capacity() as int;
        let ghost o1 = expect_outcome(avail, cap, "334".spec_bytes());
        let ghost a1 = avail.skip(o1.consumed);
        let ghost o2 = expect_outcome(a1, cap, "334".spec_bytes());
        let ghost a2 = a1.skip(o2.consumed);
        let ghost o3 = expect_outcome(a2, cap, "235".spec_bytes());
        proof {
            lemma_expect_consumed_bounds(avail, cap, "334".spec_bytes());
            lemma_expect_consumed_bounds(a1, cap, "334".spec_bytes());
            lemma_expect_consumed_bounds(a2, cap, "235".spec_bytes());
            assert(a1.skip(o2.consumed) =~= avail.skip(o1.consumed + o2.consumed));
            assert(a2.skip(o3.consumed) =~= avail.skip(o1.consumed + o2.consumed + o3.consumed));
        }
        w.reset();
        match write_str(w, s, "AUTH LOGIN\r\n") {
            Ok(()) => {},
            Err(e) => {
                return Err(ConnectError::IoError(e));
            },
        }
        match w.flush(s) {
            Ok(()) => {},
            Err(e) => {
                return Err(ConnectError::IoError(e));
            },
        }
        proof {
            assert(s.out() =~= old(s).out() + "AUTH LOGIN\r\n".spec_bytes());
            assert(p.buffered() + s.inp() == avail);
        }
        match p.expect_code(s, "334".as_bytes()) {
            Ok(()) => {},
            Err(ResponseError::ReplyCodeError(_)) => {
                return Err(ConnectError::AuthFailed);
            },
            Err(ResponseError::ReadError(e)) => {
                return Err(ConnectError::IoError(e));
            },
            Err(ResponseError::NoMem) => {
                return Err(ConnectError::NoMem);
            },
            Err(ResponseError::FormatError) => {
                return Err(ConnectError::UnexpectedResponse);
            },
        }
        let ub = self.0.username.as_bytes();
        if ub.len() > 384 {
            return Err(ConnectError::NoMem);
        }
        let enc_u = b64_encode(ub);
        w.reset();
        match w.write(s, enc_u.as_slice()) {
            Ok(()) => {},
            Err(e) => {
                return Err(ConnectError::IoError(e));
            },
        }
        match write_str(w, s, "\r\n") {
            Ok(()) => {},
            Err(e) => {
                return Err(ConnectError::IoError(e));
            },
        }
        match w.flush(s) {
            Ok(()) => {},
            Err(e) => {
                return Err(ConnectError::IoError(e));
            },
        }
        proof {
            assert(s.out() =~= old(s).out() + "AUTH LOGIN\r\n".spec_bytes() + b64_line(
                self.0.username.spec_bytes(),
            ));
            assert(p.buffered() + s.inp() == a1);
        }
        match p.expect_code(s, "334".as_bytes()) {
            Ok(()) => {},
            Err(ResponseError::ReplyCodeError(_)) => {
                return Err(ConnectError::AuthFailed);
            },
            Err(ResponseError::ReadError(e)) => {
                return Err(ConnectError::IoError(e));
            },
            Err(ResponseError::NoMem) => {
                return Err(ConnectError::NoMem);
            },
            Err(ResponseError::FormatError) => {
                return Err(ConnectError::UnexpectedResponse);
            },
        }
        let pb = self.0.password.as_bytes();
        if pb.len() > 384 {
            return Err(ConnectError::NoMem);
        }
        let enc_p = b64_encode(pb);
        w.reset();
        match w.write(s, enc_p.as_slice()) {
            Ok(()) => {},
            Err(e) => {
                return Err(ConnectError::IoError(e));
            },
        }
        match write_str(w, s, "\r\n") {
            Ok(()) => {},
            Err(e) => {
                return Err(ConnectError::IoError(e));
            },
        }
        match w.flush(s) {
            Ok(()) => {},
            Err(e) => {
                return Err(ConnectError::IoError(e));
            },
        }
        proof {
            assert(s.out() =~= old(s).out() + "AUTH LOGIN\r\n".spec_bytes() + b64_line(
                self.0.username.spec_bytes(),
            ) + b64_line(self.0.password.spec_bytes()));
            assert(p.buffered() + s.inp() == a2);
        }
        match p.expect_code(s, "235".as_bytes()) {
            Ok(()) => Ok(()),
            Err(ResponseError::ReplyCodeError(_)) => Err(ConnectError::AuthFailed),
            Err(ResponseError::ReadError(e)) => Err(ConnectError::IoError(e)),
            Err(ResponseError::NoMem) => Err(ConnectError::NoMem),
            Err(ResponseError::FormatError) => Err(ConnectError::UnexpectedResponse),
        }
    }
}

/// The AUTH command: try the advertised mechanisms this client supports,
/// PLAIN before LOGIN, moving on only after a rejection.
pub struct Auth<'cred, 'ehlo> {
    pub credential: Credential<'cred>,
    pub ehlo_info: &'ehlo EhloInfo,
}

impl<'cred, 'ehlo> Auth<'cred, 'ehlo> {
    /// Run the strategy.
    #[verifier::rlimit(100)]
    #[verifier::spinoff_prover]
    pub fn execute<S: Stream>(
        self,
        s: &mut S,
        w: &mut BufWriter,
        p: &mut ResponseParser,
    ) -> (r: Result<(), ConnectError>)
        requires
            old(s).inv(),
            old(w).wf(),
            old(p).wf(),
        ensures
            final(s).inv(),
            final(w).wf(),
            final(p).wf(),
            final(w).capacity() == old(w).capacity(),
            final(p).capacity() == old(p).capacity(),
            ({
                let avail = old(p).buffered() + old(s).inp();
                let st = auth_strategy(
                    self.ehlo_info.extensions.plain,
                    self.ehlo_info.extensions.login,
                    self.credential.username,
                    self.credential.password,
                    avail,
                    old(p).capacity() as int,
                );
                match r {
                    Ok(()) => {
                        &&& st.verdict is Accepted
                        &&& final(s).out() == old(s).out() + st.wire
                        &&& final(p).buffered() + final(s).inp() == avail.skip(st.consumed)
                    },
                    Err(ConnectError::AuthFailed) => {
                        &&& st.verdict is Rejected
                        &&& final(s).out() == old(s).out() + st.wire
                        &&& final(p).buffered() + final(s).inp() == avail.skip(st.consumed)
                    },
                    Err(ConnectError::AuthUnsupported) => {
                        &&& st.verdict is Unsupported
                        &&& final(s).out() == old(s).out()
                        &&& final(p).buffered() + final(s).inp() == avail
                    },
                    Err(ConnectError::NoMem) => {
                        &&& st.verdict is NoMem
                        &&& final(s).out() == old(s).out() + st.wire
                        &&& final(p).buffered() + final(s).inp() == avail.skip(st.consumed)
                    },
                    Err(ConnectError::UnexpectedResponse) => {
                        &&& st.verdict is Unexpected
                        &&& final(s).out() == old(s).out() + st.wire
                        &&& final(p).buffered() + final(s).inp() == avail.skip(st.consumed)
                    },
                    Err(ConnectError::IoError(_)) => true,
                    Err(ConnectError::FormatError) => false,
                }
            }),
    {
        let ghost avail = old(p).buffered() + old(s).inp();
        let ghost cap: int = old(p).capacity() as int;
        let plain_adv = self.ehlo_info.extensions.plain;
        let login_adv = self.ehlo_info.extensions.login;
        if !plain_adv && !login_adv {
            return Err(ConnectError::AuthUnsupported);
        }
        if plain_adv {
            let ghost a = plain_attempt(self.credential.username, self.credential.password, avail, cap);
            match (AuthPlain(self.credential)).execute(s, w, p) {
                Ok(()) => {
                    return Ok(());
                },
                Err(ConnectError::AuthFailed) => {
                    if !login_adv {
                        return Err(ConnectError::AuthFailed);
                    }
                },
                Err(e) => {
                    return Err(e);
                },
            }
            // PLAIN was rejected; try LOGIN on the remaining reply bytes
            let ghost mid = avail.skip(a.consumed);
            let res = (AuthLogin(self.credential)).execute(s, w, p);
            proof {
                let b = login_attempt(self.credential.username, self.credential.password, mid, cap);
                lemma_expect_consumed_bounds(avail, cap, "235".spec_bytes());
                lemma_login_consumed_bounds(
                    self.credential.username,
                    self.credential.password,
                    mid,
                    cap,
                );
                let st = auth_strategy(
                    plain_adv,
                    login_adv,
                    self.credential.username,
                    self.credential.password,
                    avail,
                    cap,
                );
                assert(st.wire == a.wire + b.wire);
                if !(res matches Err(ConnectError::IoError(_))) {
                    assert(s.out() =~= old(s).out() + (a.wire + b.wire));
                    assert(mid.skip(b.consumed) =~= avail.skip(a.consumed + b.consumed));
                }
            }
            match res {
                Ok(()) => Ok(()),
                Err(e) => Err(e),
            }
        } else {
            (AuthLogin(self.credential)).execute(s, w, p)
        }
    }
}

} // verus!
