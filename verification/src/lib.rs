//! A reader for sectioned binary containers.
//!
//! A container is a byte buffer that starts with a four-byte type tag, a
//! version and a section count, followed by the sections themselves: each one
//! a type, a declared size, and that many payload bytes. [`BinFile`] validates
//! such a buffer once and then serves its sections, either by direct lookup or
//! through a read cursor that is bracketed by a start and an end call.
//!
//! Every executable function carries a contract checked by Verus, stated over
//! the mathematical model in [`format`] and the view of the container.

pub mod binfile_utils;
pub mod encoding;
pub mod error;
pub mod format;
pub mod laws;

pub use binfile_utils::{BinFile, BinFileView, Section};
pub use error::{BinFileError, ErrorKind, InvalidFileType, InvalidVersion, RangeError};
