//! The SMTP layer: reply parsing, commands, capabilities, and the session.

pub mod commands;
pub mod extensions;
pub mod response;

use vstd::prelude::*;
use vstd::string::StringSliceAdditionalSpecFns;

use crate::auth::Credential;
use crate::io::read::BufReader;
use crate::io::stream::{Stream, TransportError};
use crate::io::write::BufWriter;
use crate::message::{Envelope, Mail, Mailbox};
use crate::smtp::commands::{
    ehlo_bytes, ehlo_outcome, lemma_ehlo_consumed_bounds, mail_from_bytes, mail_message_bytes,
    rcpt_bytes, Data, Ehlo, EhloVerdict, MailFrom, Quit, RcptTo,
};
use crate::smtp::extensions::auth::{auth_strategy, Auth};
use crate::smtp::extensions::{EhloInfo, ExtensionSet};
use crate::smtp::response::{
    expect_outcome, lemma_expect_consumed_bounds, lemma_multi_consumed_bounds, multi_expect,
    ResponseError, ResponseParser,
};

pub use crate::smtp::commands::ClientId;

verus! {

/// A failure while establishing a session.
#[derive(Debug)]
pub enum ConnectError {
    /// The transport failed.
    IoError(TransportError),
    /// A buffer was too small for a reply or a credential.
    NoMem,
    /// A reply line could not be parsed.
    FormatError,
    /// The server rejected every attempted authentication mechanism.
    AuthFailed,
    /// The server advertised no supported authentication mechanism.
    AuthUnsupported,
    /// The server answered with an unexpected code or a malformed reply.
    UnexpectedResponse,
}

/// A failure while submitting a message.
#[derive(Debug)]
pub enum SendError {
    /// The transport failed.
    IoError(TransportError),
    /// A buffer was too small for a reply.
    NoMem,
    /// The server rejected a MAIL, RCPT or DATA step.
    SendFailed,
    /// The server sent a malformed reply.
    UnexpectedResponse,
}


/// The identifier EHLO announces: the configured one, or `localhost`.
pub open spec fn effective_client_id<'a>(cid: Option<ClientId<'a>>) -> &'a str {
    match cid {
        Some(c) => c.id,
        None => "localhost",
    }
}

/// The reverse-path address of a structured mail.
pub open spec fn mail_sender<'a>(m: Mail<'a>) -> Option<&'a str> {
    match m.from {
        Some(mb) => Some(mb.address),
        None => None,
    }
}

/// The forward-path addresses of a structured mail: primary, carbon-copy
/// and blind-carbon-copy receivers, in order.
pub open spec fn mail_rcpt_addrs<'a>(m: Mail<'a>) -> Seq<&'a str> {
    m.to@.map_values(|mb: Mailbox<'a>| mb.address) + m.cc@.map_values(
        |mb: Mailbox<'a>| mb.address,
    ) + m.bcc@.map_values(|mb: Mailbox<'a>| mb.address)
}

/// A fresh zeroed buffer of the given size.
fn make_buffer(n: usize) -> (r: Vec<u8>)
    ensures
        r@.len() == n,
{
    let mut r: Vec<u8> = Vec::new();
    let mut i: usize = 0;
    while i < n
        invariant
            i <= n,
            r@.len() == i,
        decreases n - i,
    {
        r.push(0);
        i = i + 1;
    }
    r
}

/// The entry point: pair a connected stream with a working buffer.
pub struct SmtpClient;

impl SmtpClient {
    /// Begin configuring a session over `stream`, reading replies through
    /// `buffer`.
    pub fn new<'a, S: Stream>(stream: S, buffer: Vec<u8>) -> (r: SmtpClientConnector<'a, S>)
        ensures
            r.stream == stream,
            r.buffer@ == buffer@,
            r.auth is None,
            r.client_id is None,
    {
        SmtpClientConnector { stream, buffer, auth: None, client_id: None }
    }
}

/// A configured-but-unconnected client.
pub struct SmtpClientConnector<'a, S: Stream> {
    pub stream: S,
    pub buffer: Vec<u8>,
    pub auth: Option<Credential<'a>>,
    pub client_id: Option<ClientId<'a>>,
}

impl<'a, S: Stream> SmtpClientConnector<'a, S> {
    /// Choose the credential to authenticate with, or none.
    pub fn with_auth(self, value: Option<Credential<'a>>) -> (r: Self)
        ensures
            r.stream == self.stream,
            r.buffer@ == self.buffer@,
            r.auth == value,
            r.client_id == self.client_id,
    {
        Self { auth: value, ..self }
    }

    /// Choose the identifier EHLO announces, or fall back to `localhost`.
    pub fn with_client_id(self, value: Option<ClientId<'a>>) -> (r: Self)
        ensures
            r.stream == self.stream,
            r.buffer@ == self.buffer@,
            r.auth == self.auth,
            r.client_id == value,
    {
        Self { client_id: value, ..self }
    }

    /// Establish the session: consume the greeting, exchange EHLO, and
    /// authenticate when a credential was configured.  On any protocol
    /// failure a QUIT is attempted before the error is returned.
    #[verifier::rlimit(100)]
    #[verifier::spinoff_prover]
    pub fn connect(self) -> (r: Result<SmtpClientSession<S>, ConnectError>)
        requires
            self.stream.inv(),
        ensures
            ({
                let avail = self.stream.inp();
                let cap = self.buffer@.len() as int;
                let g = expect_outcome(avail, cap, "220".spec_bytes());
                let eo = ehlo_outcome(avail.skip(g.consumed), cap);
                match r {
                    Ok(sess) => {
                        &&& sess.inv()
                        &&& sess.capacity() == self.buffer@.len()
                        &&& g.verdict is Done
                        &&& eo.verdict matches EhloVerdict::Caps { plain, login }
                            && sess.extensions() == (ExtensionSet { plain, login })
                        &&& ({
                            let after_ehlo = avail.skip(g.consumed).skip(eo.consumed);
                            match self.auth {
                                None => {
                                    &&& sess.out() == self.stream.out() + ehlo_bytes(
                                        effective_client_id(self.client_id),
                                    )
                                    &&& sess.avail() == after_ehlo
                                },
                                Some(cred) => eo.verdict matches EhloVerdict::Caps {
                                    plain,
                                    login,
                                } && ({
                                    let st = auth_strategy(
                                        plain,
                                        login,
                                        cred.username,
                                        cred.password,
                                        after_ehlo,
                                        cap,
                                    );
                                    &&& st.verdict is Accepted
                                    &&& sess.out() == self.stream.out() + ehlo_bytes(
                                        effective_client_id(self.client_id),
                                    ) + st.wire
                                    &&& sess.avail() == after_ehlo.skip(st.consumed)
                                }),
                            }
                        })
                    },
                    Err(ConnectError::AuthUnsupported) => {
                        &&& self.auth is Some
                        &&& g.verdict is Done
                        &&& eo.verdict matches EhloVerdict::Caps { plain, login } && !plain
                            && !login
                    },
                    Err(ConnectError::UnexpectedResponse) => {
                        ||| g.verdict is Mismatch
                        ||| g.verdict is Malformed
                        ||| (g.verdict is Done && eo.verdict is Unexpected)
                        ||| (g.verdict is Done && (self.auth matches Some(cred)
                            && (eo.verdict matches EhloVerdict::Caps { plain, login }
                            && auth_strategy(
                            plain,
                            login,
                            cred.username,
                            cred.password,
                            avail.skip(g.consumed).skip(eo.consumed),
                            cap,
                        ).verdict is Unexpected)))
                    },
                    Err(ConnectError::NoMem) => {
                        ||| g.verdict is Overflow
                        ||| (g.verdict is Done && eo.verdict is Overflow)
                        ||| (g.verdict is Done && (self.auth matches Some(cred)
                            && (eo.verdict matches EhloVerdict::Caps { plain, login }
                            && auth_strategy(
                            plain,
                            login,
                            cred.username,
                            cred.password,
                            avail.skip(g.consumed).skip(eo.consumed),
                            cap,
                        ).verdict is NoMem)))
                    },
                    Err(ConnectError::AuthFailed) => {
                        &&& self.auth is Some
                        &&& g.verdict is Done
                        &&& (self.auth matches Some(cred) && eo.verdict matches EhloVerdict::Caps {
                            plain,
                            login,
                        } && auth_strategy(
                            plain,
                            login,
                            cred.username,
                            cred.password,
                            avail.skip(g.consumed).skip(eo.consumed),
                            cap,
                        ).verdict is Rejected)
                    },
                    Err(ConnectError::FormatError) => false,
                    Err(_) => true,
                }
            }),
    {
        let SmtpClientConnector { stream, buffer, auth, client_id } = self;
        let mut s = stream;
        let n = buffer.len();
        let mut p = ResponseParser::new(BufReader::new(buffer));
        let mut w = BufWriter::new(make_buffer(n));
        let ghost avail = s.inp();
        let ghost cap: int = n as int;
        proof {
            lemma_expect_consumed_bounds(avail, cap, "220".spec_bytes());
            assert(p.buffered() + s.inp() =~= avail);
        }
        // the server speaks first
        match p.expect_code(&mut s, "220".as_bytes()) {
            Ok(()) => {},
            Err(e) => {
                let _ = Quit.execute(&mut s, &mut w);
                return Err(match e {
                    ResponseError::ReadError(e2) => ConnectError::IoError(e2),
                    ResponseError::NoMem => ConnectError::NoMem,
                    _ => ConnectError::UnexpectedResponse,
                });
            },
        }
        let ghost g = expect_outcome(avail, cap, "220".spec_bytes());
        let ghost after_g = avail.skip(g.consumed);
        proof {
            lemma_ehlo_consumed_bounds(after_g, cap);
        }
        let cid = match client_id {
            Some(c) => c,
            None => ClientId::localhost(),
        };
        let info = match (Ehlo(cid)).execute(&mut s, &mut w, &mut p) {
            Ok(info) => info,
            Err(e) => {
                let _ = Quit.execute(&mut s, &mut w);
                return Err(e);
            },
        };
        let ghost eo = ehlo_outcome(after_g, cap);
        let ghost after_ehlo = after_g.skip(eo.consumed);
        proof {
            assert(after_ehlo =~= avail.skip(g.consumed).skip(eo.consumed));
        }
        match auth {
            Some(cred) => {
                match (Auth { credential: cred, ehlo_info: &info }).execute(
                    &mut s,
                    &mut w,
                    &mut p,
                ) {
                    Ok(()) => {},
                    Err(e) => {
                        let _ = Quit.execute(&mut s, &mut w);
                        return Err(e);
                    },
                }
            },
            None => {},
        }
        Ok(SmtpClientSession { stream: s, writer: w, parser: p, ehlo_info: info })
    }
}

/// An established SMTP session, ready to submit messages.
pub struct SmtpClientSession<S: Stream> {
    stream: S,
    writer: BufWriter,
    parser: ResponseParser,
    ehlo_info: EhloInfo,
}

impl<S: Stream> SmtpClientSession<S> {
    /// Every part of the session is well-formed.
    pub closed spec fn inv(&self) -> bool {
        self.stream.inv() && self.writer.wf() && self.parser.wf()
    }

    /// Bytes the session has put on the wire.
    pub closed spec fn out(&self) -> Seq<u8> {
        self.stream.out()
    }

    /// Reply bytes the session has yet to consume.
    pub closed spec fn avail(&self) -> Seq<u8> {
        self.parser.buffered() + self.stream.inp()
    }

    /// The reading capacity.
    pub closed spec fn capacity(&self) -> nat {
        self.parser.capacity()
    }

    /// The extensions the server advertised.
    pub closed spec fn extensions(&self) -> ExtensionSet {
        self.ehlo_info.extensions
    }

    /// Submit a structured mail: the envelope is computed from the message
    /// — every receiver, blind ones included, gets a RCPT line — while the
    /// transmitted message itself never names the blind receivers.
    #[verifier::rlimit(100)]
    #[verifier::spinoff_prover]
    pub fn send<'a>(&mut self, mail: Mail<'a>) -> (r: Result<(), SendError>)
        requires
            old(self).inv(),
        ensures
            final(self).inv(),
            final(self).capacity() == old(self).capacity(),
            final(self).extensions() == old(self).extensions(),
            ({
                let avail = old(self).avail();
                let cap = old(self).capacity() as int;
                let addrs = mail_rcpt_addrs(mail);
                let o1 = expect_outcome(avail, cap, "250".spec_bytes());
                let m = multi_expect(
                    addrs.len() as int,
                    avail.skip(o1.consumed),
                    cap,
                    "250".spec_bytes(),
                );
                let a2 = avail.skip(o1.consumed).skip(m.consumed);
                let o3 = expect_outcome(a2, cap, "354".spec_bytes());
                let o4 = expect_outcome(a2.skip(o3.consumed), cap, "250".spec_bytes());
                match r {
                    Ok(()) => {
                        &&& o1.verdict is Done
                        &&& m.verdict is Done
                        &&& o3.verdict is Done
                        &&& o4.verdict is Done
                        &&& final(self).out() == old(self).out() + mail_from_bytes(
                            mail_sender(mail),
                        ) + rcpt_bytes(addrs) + "DATA\r\n".spec_bytes() + mail_message_bytes(
                            mail,
                        ) + ".\r\n".spec_bytes()
                        &&& final(self).avail() == a2.skip(o3.consumed).skip(o4.consumed)
                    },
                    Err(SendError::IoError(_)) => true,
                    Err(SendError::SendFailed) => {
                        ||| o1.verdict is Mismatch
                        ||| (o1.verdict is Done && m.verdict is Mismatch)
                        ||| (o1.verdict is Done && m.verdict is Done && o3.verdict is Mismatch)
                        ||| (o1.verdict is Done && m.verdict is Done && o3.verdict is Done
                            && o4.verdict is Mismatch)
                    },
                    Err(SendError::UnexpectedResponse) => {
                        ||| o1.verdict is Malformed
                        ||| (o1.verdict is Done && m.verdict is Malformed)
                        ||| (o1.verdict is Done && m.verdict is Done && o3.verdict is Malformed)
                        ||| (o1.verdict is Done && m.verdict is Done && o3.verdict is Done
                            && o4.verdict is Malformed)
                    },
                    Err(SendError::NoMem) => {
                        ||| o1.verdict is Overflow
                        ||| (o1.verdict is Done && m.verdict is Overflow)
                        ||| (o1.verdict is Done && m.verdict is Done && o3.verdict is Overflow)
                        ||| (o1.verdict is Done && m.verdict is Done && o3.verdict is Done
                            && o4.verdict is Overflow)
                    },
                }
            }),
    {
        let ghost avail = old(self).avail();
        let ghost cap: int = old(self).capacity() as int;
        let ghost addrs = mail_rcpt_addrs(mail);
        let sender: Option<&str> = match &mail.from {
            Some(mb) => Some(mb.address),
            None => None,
        };
        // the envelope names every receiver, blind ones included
        let mut receivers: Vec<&str> = Vec::new();
        let mut i: usize = 0;
        let tn = mail.to.len();
        while i < tn
            invariant
                i <= tn,
                tn == mail.to@.len(),
                receivers@ == mail.to@.take(i as int).map_values(
                    |mb: Mailbox<'a>| mb.address,
                ),
            decreases tn - i,
        {
            let mb = mail.to[i];
            receivers.push(mb.address);
            proof {
                assert(receivers@ =~= mail.to@.take(i + 1).map_values(
                    |mb: Mailbox<'a>| mb.address,
                ));
            }
            i = i + 1;
        }
        let ghost part1 = mail.to@.map_values(|mb: Mailbox<'a>| mb.address);
        proof {
            assert(mail.to@.take(tn as int) =~= mail.to@);
        }
        let mut j: usize = 0;
        let cn = mail.cc.len();
        while j < cn
            invariant
                j <= cn,
                cn == mail.cc@.len(),
                part1 == mail.to@.map_values(|mb: Mailbox<'a>| mb.address),
                receivers@ == part1 + mail.cc@.take(j as int).map_values(
                    |mb: Mailbox<'a>| mb.address,
                ),
            decreases cn - j,
        {
            let mb = mail.cc[j];
            receivers.push(mb.address);
            proof {
                assert(receivers@ =~= part1 + mail.cc@.take(j + 1).map_values(
                    |mb: Mailbox<'a>| mb.address,
                ));
            }
            j = j + 1;
        }
        let ghost part2 = part1 + mail.cc@.map_values(|mb: Mailbox<'a>| mb.address);
        proof {
            assert(mail.cc@.take(cn as int) =~= mail.cc@);
        }
        let mut k: usize = 0;
        let bn = mail.bcc.len();
        while k < bn
            invariant
                k <= bn,
                bn == mail.bcc@.len(),
                part2 == mail.to@.map_values(|mb: Mailbox<'a>| mb.address) + mail.cc@.map_values(
                    |mb: Mailbox<'a>| mb.address,
                ),
                receivers@ == part2 + mail.bcc@.take(k as int).map_values(
                    |mb: Mailbox<'a>| mb.address,
                ),
            decreases bn - k,
        {
            let mb = mail.bcc[k];
            receivers.push(mb.address);
            proof {
                assert(receivers@ =~= part2 + mail.bcc@.take(k + 1).map_values(
                    |mb: Mailbox<'a>| mb.address,
                ));
            }
            k = k + 1;
        }
        proof {
            assert(mail.bcc@.take(bn as int) =~= mail.bcc@);
            assert(receivers@ =~= addrs);
            lemma_expect_consumed_bounds(avail, cap, "250".spec_bytes());
        }
        match (MailFrom(sender)).execute(&mut self.stream, &mut self.writer, &mut self.parser) {
            Ok(()) => {},
            Err(e) => {
                return Err(e);
            },
        }
        let ghost o1 = expect_outcome(avail, cap, "250".spec_bytes());
        let ghost a1 = avail.skip(o1.consumed);
        proof {
            lemma_multi_consumed_bounds(addrs.len() as int, a1, cap, "250".spec_bytes());
        }
        match (RcptTo(receivers)).execute(&mut self.stream, &mut self.writer, &mut self.parser) {
            Ok(()) => {},
            Err(e) => {
                return Err(e);
            },
        }
        let ghost m = multi_expect(addrs.len() as int, a1, cap, "250".spec_bytes());
        let ghost a2 = a1.skip(m.consumed);
        proof {
            assert(a2 =~= avail.skip(o1.consumed).skip(m.consumed));
            lemma_expect_consumed_bounds(a2, cap, "354".spec_bytes());
        }
        match (Data(mail)).execute(&mut self.stream, &mut self.writer, &mut self.parser) {
            Ok(()) => {},
            Err(e) => {
                return Err(e);
            },
        }
        proof {
            let o3 = expect_outcome(a2, cap, "354".spec_bytes());
            assert(self.out() =~= old(self).out() + mail_from_bytes(mail_sender(mail))
                + rcpt_bytes(addrs) + "DATA\r\n".spec_bytes() + mail_message_bytes(mail)
                + ".\r\n".spec_bytes());
        }
        Ok(())
    }

    /// Submit a caller-assembled envelope and raw message; the message is
    /// transmitted dot-stuffed and completed with `"\r\n"` when needed.
    #[verifier::rlimit(100)]
    #[verifier::spinoff_prover]
    pub fn send_raw<'a>(&mut self, envelope: Envelope<'a>, message: &str) -> (r: Result<
        (),
        SendError,
    >)
        requires
            old(self).inv(),
        ensures
            final(self).inv(),
            final(self).capacity() == old(self).capacity(),
            final(self).extensions() == old(self).extensions(),
            ({
                let avail = old(self).avail();
                let cap = old(self).capacity() as int;
                let addrs = envelope.receiver_addrs@;
                let o1 = expect_outcome(avail, cap, "250".spec_bytes());
                let m = multi_expect(
                    addrs.len() as int,
                    avail.skip(o1.consumed),
                    cap,
                    "250".spec_bytes(),
                );
                let a2 = avail.skip(o1.consumed).skip(m.consumed);
                let o3 = expect_outcome(a2, cap, "354".spec_bytes());
                let o4 = expect_outcome(a2.skip(o3.consumed), cap, "250".spec_bytes());
                match r {
                    Ok(()) => {
                        &&& o1.verdict is Done
                        &&& m.verdict is Done
                        &&& o3.verdict is Done
                        &&& o4.verdict is Done
                        &&& final(self).out() == old(self).out() + mail_from_bytes(
                            envelope.sender_addr,
                        ) + rcpt_bytes(addrs) + "DATA\r\n".spec_bytes()
                            + crate::smtp::commands::stuffed_body(message.spec_bytes())
                            + ".\r\n".spec_bytes()
                        &&& final(self).avail() == a2.skip(o3.consumed).skip(o4.consumed)
                    },
                    Err(SendError::IoError(_)) => true,
                    Err(SendError::SendFailed) => {
                        ||| o1.verdict is Mismatch
                        ||| (o1.verdict is Done && m.verdict is Mismatch)
                        ||| (o1.verdict is Done && m.verdict is Done && o3.verdict is Mismatch)
                        ||| (o1.verdict is Done && m.verdict is Done && o3.verdict is Done
                            && o4.verdict is Mismatch)
                    },
                    Err(SendError::UnexpectedResponse) => {
                        ||| o1.verdict is Malformed
                        ||| (o1.verdict is Done && m.verdict is Malformed)
                        ||| (o1.verdict is Done && m.verdict is Done && o3.verdict is Malformed)
                        ||| (o1.verdict is Done && m.verdict is Done && o3.verdict is Done
                            && o4.verdict is Malformed)
                    },
                    Err(SendError::NoMem) => {
                        ||| o1.verdict is Overflow
                        ||| (o1.verdict is Done && m.verdict is Overflow)
                        ||| (o1.verdict is Done && m.verdict is Done && o3.verdict is Overflow)
                        ||| (o1.verdict is Done && m.verdict is Done && o3.verdict is Done
                            && o4.verdict is Overflow)
                    },
                }
            }),
    {
        let ghost avail = old(self).avail();
        let ghost cap: int = old(self).capacity() as int;
        let Envelope { sender_addr, receiver_addrs } = envelope;
        let ghost addrs = receiver_addrs@;
        proof {
            lemma_expect_consumed_bounds(avail, cap, "250".spec_bytes());
        }
        match (MailFrom(sender_addr)).execute(
            &mut self.stream,
            &mut self.writer,
            &mut self.parser,
        ) {
            Ok(()) => {},
            Err(e) => {
                return Err(e);
            },
        }
        let ghost o1 = expect_outcome(avail, cap, "250".spec_bytes());
        let ghost a1 = avail.skip(o1.consumed);
        proof {
            lemma_multi_consumed_bounds(addrs.len() as int, a1, cap, "250".spec_bytes());
        }
        match (RcptTo(receiver_addrs)).execute(
            &mut self.stream,
            &mut self.writer,
            &mut self.parser,
        ) {
            Ok(()) => {},
            Err(e) => {
                return Err(e);
            },
        }
        let ghost m = multi_expect(addrs.len() as int, a1, cap, "250".spec_bytes());
        let ghost a2 = a1.skip(m.consumed);
        proof {
            assert(a2 =~= avail.skip(o1.consumed).skip(m.consumed));
            lemma_expect_consumed_bounds(a2, cap, "354".spec_bytes());
        }
        match (Data(message)).execute(&mut self.stream, &mut self.writer, &mut self.parser) {
            Ok(()) => {},
            Err(e) => {
                return Err(e);
            },
        }
        proof {
            assert(self.out() =~= old(self).out() + mail_from_bytes(sender_addr) + rcpt_bytes(
                addrs,
            ) + "DATA\r\n".spec_bytes() + crate::smtp::commands::stuffed_body(
                message.spec_bytes(),
            ) + ".\r\n".spec_bytes());
        }
        Ok(())
    }

    /// Hand the transport back as it stands, without the QUIT exchange.
    pub fn into_stream(self) -> (r: S)
        requires
            self.inv(),
        ensures
            r.inv(),
            r.out() == self.out(),
    {
        let SmtpClientSession { stream, writer: _, parser: _, ehlo_info: _ } = self;
        stream
    }

    /// End the session: announce QUIT and release the transport.  The QUIT
    /// is written exactly once; no reply is awaited.
    pub fn close(self) -> (r: Result<(), TransportError>)
        requires
            self.inv(),
    {
        let SmtpClientSession { stream, writer, parser: _, ehlo_info: _ } = self;
        let mut s = stream;
        let mut w = writer;
        match (Quit).execute(&mut s, &mut w) {
            Ok(()) => {},
            Err(e) => {
                let _ = s.close();
                return Err(e);
            },
        }
        s.close()
    }
}

/// Law: the blind receivers are named in the envelope yet invisible in the
/// message.  Every blind-carbon-copy address of a mail receives its own
/// RCPT line, while the transmitted DATA message is independent of the
/// blind list (see `lemma_bcc_invisible`).
pub proof fn lemma_bcc_handling<'a>(m: Mail<'a>, i: int)
    requires
        0 <= i < m.bcc@.len(),
    ensures
        crate::smtp::commands::contains_seq(
            rcpt_bytes(mail_rcpt_addrs(m)),
            crate::smtp::commands::rcpt_line_bytes(m.bcc@[i].address),
        ),
{
    let addrs = mail_rcpt_addrs(m);
    let j = m.to@.len() + m.cc@.len() + i;
    assert(addrs[j as int] == m.bcc@[i].address);
    crate::smtp::commands::lemma_rcpt_covers(addrs, j as int);
}

/// A failure while resolving a hostname and connecting to it.
#[derive(Debug)]
pub enum ConnectHostnameError<DE> {
    /// The name could not be resolved.
    DnsError(DE),
    /// The connection itself failed.
    ConnectError(ConnectError),
}

} // verus!
