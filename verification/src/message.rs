//! The mail data model: mailboxes, envelopes, and messages.

use vstd::prelude::*;

verus! {

/// A mailbox: an address with an optional display name.
#[derive(Clone, Copy, Debug)]
pub struct Mailbox<'a> {
    pub name: Option<&'a str>,
    pub address: &'a str,
}

impl<'a> Mailbox<'a> {
    /// A mailbox without a display name.
    pub fn new(address: &'a str) -> (r: Self)
        ensures
            r.name is None,
            r.address@ == address@,
    {
        Self { address, name: None }
    }

    /// A mailbox with a display name.
    pub fn with_name(name: &'a str, address: &'a str) -> (r: Self)
        ensures
            r.name matches Some(n) && n@ == name@,
            r.address@ == address@,
    {
        Self { name: Some(name), address }
    }
}

/// The envelope of one SMTP transaction: the reverse path and the
/// forward paths, as bare addresses.
#[derive(Clone, Debug)]
pub struct Envelope<'a> {
    pub sender_addr: Option<&'a str>,
    pub receiver_addrs: Vec<&'a str>,
}

impl<'a> Envelope<'a> {
    /// An envelope from an optional sender and a list of receivers.
    pub fn new(from: Option<&'a str>, to: Vec<&'a str>) -> (r: Self)
        ensures
            r.sender_addr == from,
            r.receiver_addrs@ == to@,
    {
        Self { sender_addr: from, receiver_addrs: to }
    }
}

/// A structured mail message.  All text is borrowed from the caller.
#[derive(Clone, Debug)]
pub struct Mail<'a> {
    pub from: Option<Mailbox<'a>>,
    pub to: Vec<Mailbox<'a>>,
    pub cc: Vec<Mailbox<'a>>,
    pub bcc: Vec<Mailbox<'a>>,
    pub subject: Option<&'a str>,
    pub body: Option<&'a str>,
}

impl<'a> Mail<'a> {
    /// An empty message.
    pub fn new() -> (r: Self)
        ensures
            r.from is None,
            r.to@ == Seq::<Mailbox<'a>>::empty(),
            r.cc@ == Seq::<Mailbox<'a>>::empty(),
            r.bcc@ == Seq::<Mailbox<'a>>::empty(),
            r.subject is None,
            r.body is None,
    {
        Self {
            from: None,
            to: Vec::new(),
            cc: Vec::new(),
            bcc: Vec::new(),
            subject: None,
            body: None,
        }
    }

    /// Set the author mailbox.
    pub fn from(self, value: Mailbox<'a>) -> (r: Self)
        ensures
            r.from == Some(value),
            r.to@ == self.to@,
            r.cc@ == self.cc@,
            r.bcc@ == self.bcc@,
            r.subject == self.subject,
            r.body == self.body,
    {
        Self { from: Some(value), ..self }
    }

    /// Replace the primary receivers, handing the old list back.
    pub fn replace_to(self, value: Vec<Mailbox<'a>>) -> (r: (Self, Vec<Mailbox<'a>>))
        ensures
            r.0.from == self.from,
            r.0.to@ == value@,
            r.0.cc@ == self.cc@,
            r.0.bcc@ == self.bcc@,
            r.0.subject == self.subject,
            r.0.body == self.body,
            r.1@ == self.to@,
    {
        let Mail { from, to, cc, bcc, subject, body } = self;
        (Mail { from, to: value, cc, bcc, subject, body }, to)
    }

    /// Set the primary receivers.
    pub fn to(self, value: Vec<Mailbox<'a>>) -> (r: Self)
        ensures
            r.from == self.from,
            r.to@ == value@,
            r.cc@ == self.cc@,
            r.bcc@ == self.bcc@,
            r.subject == self.subject,
            r.body == self.body,
    {
        self.replace_to(value).0
    }

    /// Replace the carbon-copy receivers, handing the old list back.
    pub fn replace_cc(self, value: Vec<Mailbox<'a>>) -> (r: (Self, Vec<Mailbox<'a>>))
        ensures
            r.0.from == self.from,
            r.0.to@ == self.to@,
            r.0.cc@ == value@,
            r.0.bcc@ == self.bcc@,
            r.0.subject == self.subject,
            r.0.body == self.body,
            r.1@ == self.cc@,
    {
        let Mail { from, to, cc, bcc, subject, body } = self;
        (Mail { from, to, cc: value, bcc, subject, body }, cc)
    }

    /// Set the carbon-copy receivers.
    pub fn cc(self, value: Vec<Mailbox<'a>>) -> (r: Self)
        ensures
            r.from == self.from,
            r.to@ == self.to@,
            r.cc@ == value@,
            r.bcc@ == self.bcc@,
            r.subject == self.subject,
            r.body == self.body,
    {
        self.replace_cc(value).0
    }

    /// Replace the blind-carbon-copy receivers, handing the old list back.
    pub fn replace_bcc(self, value: Vec<Mailbox<'a>>) -> (r: (Self, Vec<Mailbox<'a>>))
        ensures
            r.0.from == self.from,
            r.0.to@ == self.to@,
            r.0.cc@ == self.cc@,
            r.0.bcc@ == value@,
            r.0.subject == self.subject,
            r.0.body == self.body,
            r.1@ == self.bcc@,
    {
        let Mail { from, to, cc, bcc, subject, body } = self;
        (Mail { from, to, cc, bcc: value, subject, body }, bcc)
    }

    /// Set the blind-carbon-copy receivers.
    pub fn bcc(self, value: Vec<Mailbox<'a>>) -> (r: Self)
        ensures
            r.from == self.from,
            r.to@ == self.to@,
            r.cc@ == self.cc@,
            r.bcc@ == value@,
            r.subject == self.subject,
            r.body == self.body,
    {
        self.replace_bcc(value).0
    }

    /// Set or clear the subject.
    pub fn subject(self, value: Option<&'a str>) -> (r: Self)
        ensures
            r.from == self.from,
            r.to@ == self.to@,
            r.cc@ == self.cc@,
            r.bcc@ == self.bcc@,
            r.subject == value,
            r.body == self.body,
    {
        Self { subject: value, ..self }
    }

    /// Set or clear the body.
    pub fn body(self, value: Option<&'a str>) -> (r: Self)
        ensures
            r.from == self.from,
            r.to@ == self.to@,
            r.cc@ == self.cc@,
            r.bcc@ == self.bcc@,
            r.subject == self.subject,
            r.body == value,
    {
        Self { body: value, ..self }
    }
}

} // verus!
