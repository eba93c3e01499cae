//! What can go wrong, as a closed set of kinds.

use vstd::prelude::*;

verus! {

/// The kinds of failure. Every fallible operation of this crate reports exactly
/// one of them, and its contract says on which inputs.
#[derive(Clone, Copy, Debug, PartialEq, Eq, Structural)]
pub enum ErrorKind {
    /// The leading tag bytes are not the expected ones.
    InvalidType,
    /// The version in the header is above what the caller supports.
    UnsupportedVersion,
    /// The buffer ends before the header or a declared section does.
    Truncated,
    /// No section of the requested type exists.
    SectionNotFound,
    /// The requested type exists, but has fewer sections than the index asks for.
    IndexOutOfRange,
    /// A sequential read was started while another one was open.
    AlreadyReading,
    /// A sequential read was ended while none was open.
    NoActiveSection,
    /// At a verified end, the bytes consumed differ from the declared size.
    SectionSizeMismatch,
    /// A read would run past the end of the buffer.
    OutOfBounds,
}

/// Details of a tag mismatch.
#[derive(Clone, Debug, PartialEq, Eq)]
pub struct InvalidFileType {
    /// The tag the caller asked for.
    pub expected: String,
    /// The four bytes found at the head of the buffer.
    pub found: Vec<u8>,
}

/// Details of a version that is too new.
#[derive(Clone, Copy, Debug, PartialEq, Eq, Structural)]
pub struct InvalidVersion {
    /// The highest version the caller supports.
    pub max_version: u32,
    /// The version found in the header.
    pub found_version: u32,
}

/// Details of an index that lies outside the sections of its type.
#[derive(Clone, Copy, Debug, PartialEq, Eq, Structural)]
pub struct RangeError {
    /// The index that was asked for.
    pub index: u32,
    /// How many sections of the requested type exist.
    pub count: usize,
}

impl RangeError {
    /// Records that `index` was asked for where only `count` sections exist.
    pub fn new(index: u32, count: usize) -> (e: RangeError)
        ensures
            e == (RangeError { index, count }),
    {
        RangeError { index, count }
    }
}

/// The error type of every fallible operation: one variant per [`ErrorKind`],
/// with details where there are any.
#[derive(Clone, Debug, PartialEq, Eq)]
pub enum BinFileError {
    /// The leading tag bytes are not the expected ones.
    InvalidType(InvalidFileType),
    /// The version in the header is above what the caller supports.
    UnsupportedVersion(InvalidVersion),
    /// The buffer ends before the header or a declared section does.
    Truncated,
    /// No section of the requested type exists.
    SectionNotFound,
    /// The requested type exists, but has fewer sections than the index asks for.
    IndexOutOfRange(RangeError),
    /// A sequential read was started while another one was open.
    AlreadyReading,
    /// A sequential read was ended while none was open.
    NoActiveSection,
    /// At a verified end, the bytes consumed differ from the declared size.
    SectionSizeMismatch,
    /// A read would run past the end of the buffer.
    OutOfBounds,
}

impl BinFileError {
    /// The kind of this error.
    pub open spec fn spec_kind(&self) -> ErrorKind {
        match self {
            BinFileError::InvalidType(_) => ErrorKind::InvalidType,
            BinFileError::UnsupportedVersion(_) => ErrorKind::UnsupportedVersion,
            BinFileError::Truncated => ErrorKind::Truncated,
            BinFileError::SectionNotFound => ErrorKind::SectionNotFound,
            BinFileError::IndexOutOfRange(_) => ErrorKind::IndexOutOfRange,
            BinFileError::AlreadyReading => ErrorKind::AlreadyReading,
            BinFileError::NoActiveSection => ErrorKind::NoActiveSection,
            BinFileError::SectionSizeMismatch => ErrorKind::SectionSizeMismatch,
            BinFileError::OutOfBounds => ErrorKind::OutOfBounds,
        }
    }

    /// The kind of this error.
    #[verifier::when_used_as_spec(spec_kind)]
    pub fn kind(&self) -> (k: ErrorKind)
        ensures
            k == self.spec_kind(),
    {
        match self {
            BinFileError::InvalidType(_) => ErrorKind::InvalidType,
            BinFileError::UnsupportedVersion(_) => ErrorKind::UnsupportedVersion,
            BinFileError::Truncated => ErrorKind::Truncated,
            BinFileError::SectionNotFound => ErrorKind::SectionNotFound,
            BinFileError::IndexOutOfRange(_) => ErrorKind::IndexOutOfRange,
            BinFileError::AlreadyReading => ErrorKind::AlreadyReading,
            BinFileError::NoActiveSection => ErrorKind::NoActiveSection,
            BinFileError::SectionSizeMismatch => ErrorKind::SectionSizeMismatch,
            BinFileError::OutOfBounds => ErrorKind::OutOfBounds,
        }
    }
}

} // verus!
