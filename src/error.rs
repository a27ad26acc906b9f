//! Errors of the dictionary engine.
use vstd::prelude::*;

verus! {

/// An I/O failure of the host, carried through unchanged.
#[verifier::external_type_specification]
#[verifier::external_body]
pub struct ExIoError(std::io::Error);

/// Every way in which opening a dictionary or answering a query can fail.
#[derive(Debug)]
pub enum Error {
    /// The underlying read or seek failed.
    FailedReading(std::io::Error),
    /// An Adler-32 check failed; the tag names the section.
    InvalidCheckSum(&'static str),
    /// The header lacks `GeneratedByEngineVersion`.
    NoVersion,
    /// The version does not start with a decimal digit.
    InvalidVersion(String),
    /// Engine version 3 or later.
    UnsupportedVersion(u8),
    /// A structural violation: bad magic, missing terminator, truncated table,
    /// or a payload that does not decompress.
    InvalidData,
    /// An encoding label that the registry does not know.
    InvalidEncoding(String),
    /// A block header names an unknown encryption method.
    InvalidEncryptMethod(u32),
    /// A block header names an unknown compression method.
    InvalidCompressMethod(u32),
    /// A dictionary path without a parent directory or a UTF-8 file stem.
    InvalidPath(String),
}

/// The result of every fallible operation of the engine.
pub type Result<T> = core::result::Result<T, Error>;

impl Error {
    /// The section tag of a checksum failure.
    pub open spec fn is_checksum(&self, section: &'static str) -> bool {
        &&& self is InvalidCheckSum
        &&& self->InvalidCheckSum_0@ == section@
    }
}

} // verus!
