//! The errors of decoding.

use vstd::prelude::*;

verus! {

/// The ways in which decoding a note file or a data file can fail.
#[derive(Debug, Clone, Copy, PartialEq, Eq)]
pub enum Error {
    /// A checksum of the data does not match the one in the notes.
    Checksum,
    /// The file was written on a host of the opposite byte order.
    Endianness,
    /// A record declares a length that its kind does not admit.
    Length,
    /// A string is not valid UTF-8.
    Utf8,
    IncompleteFile,
    /// Fewer bytes are left than a read asks for.
    InsufficientBytes,
    /// Bytes are left where the input should have ended.
    TrailingBytes,
    /// A field holds a value that cannot be used; the message says which.
    Value(&'static str),
    /// The version tag is malformed.
    Version,
    /// Data and notes were written by different compiler versions.
    VersionMismatch,
}

} // verus!
