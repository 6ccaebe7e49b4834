//! Credentials used by the SMTP AUTH extension.

use vstd::prelude::*;

verus! {

/// A username/password pair for SMTP authentication.
#[derive(Clone, Copy, Debug)]
pub struct Credential<'a> {
    pub username: &'a str,
    pub password: &'a str,
}

impl<'a> Credential<'a> {
    pub fn new(username: &'a str, password: &'a str) -> (r: Self)
        ensures
            r.username@ == username@,
            r.password@ == password@,
    {
        Self { username, password }
    }
}

} // verus!
