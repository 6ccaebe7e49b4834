//! SMTP extensions advertised by a server in its EHLO reply.

pub mod auth;

use vstd::prelude::*;

verus! {

/// An SMTP extension this client understands.
#[derive(Clone, Copy, Debug, PartialEq, Eq, Structural)]
pub enum SmtpExtension {
    /// The PLAIN authentication mechanism.
    AuthPlain,
    /// The LOGIN authentication mechanism.
    AuthLogin,
}

/// A set of understood extensions, one flag per mechanism.
#[derive(Clone, Copy, Debug, PartialEq, Eq, Structural)]
pub struct ExtensionSet {
    pub plain: bool,
    pub login: bool,
}

impl ExtensionSet {
    /// The empty set.
    pub fn empty() -> (r: Self)
        ensures
            !r.plain,
            !r.login,
    {
        ExtensionSet { plain: false, login: false }
    }

    /// Whether the set holds `e`.
    pub fn contains(&self, e: SmtpExtension) -> (r: bool)
        ensures
            r == self.spec_contains(e),
    {
        match e {
            SmtpExtension::AuthPlain => self.plain,
            SmtpExtension::AuthLogin => self.login,
        }
    }

    /// Whether the set holds `e`.
    pub open spec fn spec_contains(&self, e: SmtpExtension) -> bool {
        match e {
            SmtpExtension::AuthPlain => self.plain,
            SmtpExtension::AuthLogin => self.login,
        }
    }

    /// Whether no mechanism is set.
    pub fn is_empty(&self) -> (r: bool)
        ensures
            r == (!self.plain && !self.login),
    {
        !self.plain && !self.login
    }
}

/// What an EHLO exchange yields: the advertised extensions this client
/// understands.
#[derive(Clone, Copy, Debug)]
pub struct EhloInfo {
    pub extensions: ExtensionSet,
}

} // verus!
