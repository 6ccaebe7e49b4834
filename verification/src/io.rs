//! Byte-stream layer: the blocking stream capability, buffering, and an
//! in-memory stream used to exercise the protocol code.

pub mod read;
pub mod stream;
pub mod write;
