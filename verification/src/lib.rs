//! A small file-transfer library: one peer sends a single file over a raw
//! byte stream, the other receives it.  The heart of the crate is the wire
//! protocol: a metadata record (file name and declared size) is serialized
//! into a delimiter-free byte encoding, followed by a single delimiter byte,
//! followed by the raw file payload.  End of stream, not the declared size,
//! marks the end of the payload.
//!
//! Everything here is pure byte-level logic; sockets and files live with the
//! binary that drives these functions.

pub mod codec;
pub mod port;
pub mod protocol;
pub mod session;
