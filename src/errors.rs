//! Errors of the signature parser.
use vstd::prelude::*;

verus! {

/// What can go wrong while decoding a signature.
#[derive(Clone, Copy, Debug, PartialEq, Eq, Structural)]
pub enum CDMachError {
    /// A read went past the end of the buffer.
    Truncated,
    /// A specific magic was expected; this one was found instead.
    BadMagic(u32),
    /// The CodeDirectory version is below the earliest or above the compatibility limit.
    UnsupportedVersion(u32),
    /// A team ID was asked of a CodeDirectory whose version has none.
    TeamIDUnsupported(u32),
    /// The hash slots do not fit the blob, or the code slots do not fit the code range.
    HashGeometryMismatch,
    /// The identifier or team ID is not valid UTF-8.
    InvalidUtf8,
    /// The embedded signature indexes no CodeDirectory.
    NoCodeDirectory,
    /// The CodeDirectory names a hash type that has no digest here.
    UnsupportedHashType(u8),
}

} // verus!
