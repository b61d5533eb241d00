//! The flat error taxonomy of the library.

use vstd::prelude::*;

verus! {

/// Every failure the library can report.
///
/// - `InvalidHeaderError`: the preamble or the type field of the header is malformed.
/// - `InvalidFileError`: the file is truncated, a size field points past the end,
///   or a value cannot be represented in the on-disk format.
/// - `UnsupportedPackFile`: the preamble is one of the known legacy preambles
///   that this library does not read.
/// - `IndexIteratorError`: walking the packed-file index failed (cursor overflow,
///   unterminated path, or a path that is not UTF-8), surfaced by eager parsing.
/// - `IOError`: the underlying byte source failed to serve a read.
#[derive(Debug, Clone, Copy, PartialEq, Eq, Structural)]
pub enum Error {
    InvalidHeaderError,
    InvalidFileError,
    UnsupportedPackFile,
    IndexIteratorError,
    IOError,
}

} // verus!
