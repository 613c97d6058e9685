//! The ways in which reading or writing an archive can fail.

use vstd::prelude::*;

verus! {

/// `std::io::Error`, carried through as an opaque value: nothing is known of
/// what it holds.
#[verifier::external_type_specification]
#[verifier::external_body]
pub struct ExIoError(std::io::Error);

/// Why an operation on an archive failed.
#[derive(Debug)]
pub enum ErrorKind {
    /// A read, write or seek on the underlying storage failed. The library
    /// itself works on bytes in memory and never fails this way; the variant
    /// is for callers that bring archives from, or take them to, storage.
    IOError(std::io::Error),
    /// The first four bytes are not the format's magic number.
    InvalidMagicNumber,
    /// The header names a version other than the supported one.
    InvalidVersion,
    /// The data ended before a field, a name or a member was complete.
    UnexpectedEndOfData,
    /// No member of the archive has the requested name.
    MemberNotFound,
}

impl From<std::io::Error> for ErrorKind {
    fn from(error: std::io::Error) -> (kind: ErrorKind) {
        ErrorKind::IOError(error)
    }
}

impl vstd::std_specs::convert::FromSpecImpl<std::io::Error> for ErrorKind {
    open spec fn obeys_from_spec() -> bool {
        true
    }

    open spec fn from_spec(error: std::io::Error) -> ErrorKind {
        ErrorKind::IOError(error)
    }
}

} // verus!
