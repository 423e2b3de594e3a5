//! The ways an operation of the library can fail.
use vstd::prelude::*;

verus! {

#[derive(Debug, Clone, Copy, PartialEq, Eq, Structural)]
pub enum ChronicleError {
    /// The zlib encoder reported an error.
    CompressionFailed,
    /// The zlib decoder reported an error.
    DecompressionFailed,
    /// Decompressed object contents are not UTF-8.
    NotUtf8,
    /// An object prefix does not hold exactly a type and a size.
    PrefixComponents,
    /// The size in an object prefix is not a `u64`.
    InvalidObjectSize,
    /// A hash given on the command line is not 40 ASCII bytes.
    InvalidHash,
    /// `init` was asked for inside an existing repository.
    RepoAlreadyExists,
    /// A command other than `init` was asked for outside a repository.
    RepoMissing,
}

} // verus!
