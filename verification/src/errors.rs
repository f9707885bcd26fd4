//! The one error type of the crate.

use vstd::prelude::*;

verus! {

/// What can go wrong while decoding a value or while keeping the pool.
#[derive(Debug, PartialEq, Eq)]
pub enum Error {
    /// The bytes at the cursor do not start a value of the expected kind.
    /// `marker` is the first byte that was seen; `signature` is the byte
    /// after it where the expected kind is a structure and that byte was
    /// there to be seen.
    InvalidTypeMarker { marker: u8, signature: Option<u8> },
    /// The cursor holds fewer bytes than the expected value takes.
    Truncated,
    /// A pool was asked for that can hold no connection at all.
    InvalidMaxConnections,
    /// No session could be opened; the text is the transport's account.
    ConnectionCreateFailed(String),
    /// A returned session could not be reset and was discarded; the text is
    /// the transport's account.
    ConnectionRecycleFailed(String),
}

} // verus!
