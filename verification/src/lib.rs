//! A buffered, verified SMTP submission client core.
//!
//! The crate is organised in three layers: `io` holds the byte-stream
//! abstractions (the blocking `Stream` capability, a buffered reader and
//! writer over a fixed-size buffer, and an in-memory stream), `smtp` holds
//! the reply parser, the command pipeline and the session controller, and
//! `message` holds the mail data model.  Every command's contract pins down
//! the bytes it puts on the wire and the replies it consumes, so a whole
//! session's conversation is predicted exactly by the specification.

pub mod auth;
pub mod io;
pub mod message;
pub mod smtp;
