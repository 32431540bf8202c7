//! Errors of the package operations and the two codecs.
//!
//! Every failure is classified by an [`ErrorKind`]: a path conflict on
//! insertion, malformed input rejected by a read, or a capacity limit of a
//! fixed-width field hit by a write. Failures of the surrounding I/O layer
//! never arise here; that layer wraps these errors in its own types.

use vstd::prelude::*;

verus! {

/// The broad classes of failure the library can report.
#[derive(Debug, Clone, Copy, PartialEq, Eq, Structural)]
pub enum ErrorKind {
    /// An insertion found its inner path already taken.
    PathConflict,
    /// A read rejected its input: short data, a bad signature or header
    /// constant, an unsupported flag, a path that does not decode, a path
    /// hash that does not match, or a duplicated path.
    MalformedInput,
    /// A write could not represent the package within the fixed-width
    /// fields of the on-disk layout.
    CapacityExceeded,
}

/// Returned by an insertion whose inner path is already present in the
/// package. The field holds that path.
#[derive(Debug, PartialEq, Eq)]
pub struct InnerPathAlreadyExistsError(pub String);

impl InnerPathAlreadyExistsError {
    /// The class of this error.
    pub fn kind(&self) -> (r: ErrorKind)
        ensures
            r == ErrorKind::PathConflict,
    {
        ErrorKind::PathConflict
    }
}

/// Rejection of a single PKG entry while reading.
#[derive(Debug, PartialEq, Eq)]
pub enum EntryReadError {
    /// The entry's flags request deflate compression, which is not
    /// supported; the field holds the flags byte.
    UnsupportedDeflatedEntry(u8),
    /// The hash stored with the entry does not match the hash of its
    /// decoded inner path.
    PathHashMismatch { inner_path: String, expected: u32, actual: u32 },
}

impl EntryReadError {
    /// The class of this error.
    pub fn kind(&self) -> (r: ErrorKind)
        ensures
            r == ErrorKind::MalformedInput,
    {
        ErrorKind::MalformedInput
    }
}

/// Failure of a whole read: no package is returned.
#[derive(Debug, PartialEq, Eq)]
#[allow(inconsistent_fields)]
pub enum PackageReadError {
    /// The input ended before the layout was complete.
    UnexpectedEnd,
    /// A stored path is not valid UTF-8.
    InvalidUtf8,
    /// A signature byte differs from the expected one.
    SignatureMismatch { expected: u8, actual: u8 },
    /// The header size constant differs from the expected one.
    HeaderSizeMismatch { expected: u16, actual: u16 },
    /// The entry header size constant differs from the expected one.
    EntriesHeaderSizeMismatch { expected: u16, actual: u16 },
    /// One entry was rejected.
    EntryRead(EntryReadError),
    /// Two entries carry the same inner path.
    InnerPathAlreadyExists(InnerPathAlreadyExistsError),
}

impl PackageReadError {
    /// The class of this error. A duplicated path inside a read still makes
    /// the whole input malformed rather than a recoverable conflict.
    pub fn kind(&self) -> (r: ErrorKind)
        ensures
            r == ErrorKind::MalformedInput,
    {
        ErrorKind::MalformedInput
    }
}

/// What a read failure denotes, with stored paths as character sequences;
/// the codecs' parsing specifications speak in these terms.
#[allow(inconsistent_fields)]
pub ghost enum ReadErrView {
    UnexpectedEnd,
    InvalidUtf8,
    SignatureMismatch { expected: u8, actual: u8 },
    HeaderSizeMismatch { expected: u16, actual: u16 },
    EntriesHeaderSizeMismatch { expected: u16, actual: u16 },
    UnsupportedDeflatedEntry(u8),
    PathHashMismatch { path: Seq<char>, expected: u32, actual: u32 },
    DuplicatePath(Seq<char>),
}

impl View for PackageReadError {
    type V = ReadErrView;

    open spec fn view(&self) -> ReadErrView {
        match self {
            PackageReadError::UnexpectedEnd => ReadErrView::UnexpectedEnd,
            PackageReadError::InvalidUtf8 => ReadErrView::InvalidUtf8,
            PackageReadError::SignatureMismatch { expected, actual } => {
                ReadErrView::SignatureMismatch { expected: *expected, actual: *actual }
            }
            PackageReadError::HeaderSizeMismatch { expected, actual } => {
                ReadErrView::HeaderSizeMismatch { expected: *expected, actual: *actual }
            }
            PackageReadError::EntriesHeaderSizeMismatch { expected, actual } => {
                ReadErrView::EntriesHeaderSizeMismatch { expected: *expected, actual: *actual }
            }
            PackageReadError::EntryRead(EntryReadError::UnsupportedDeflatedEntry(flags)) => {
                ReadErrView::UnsupportedDeflatedEntry(*flags)
            }
            PackageReadError::EntryRead(
                EntryReadError::PathHashMismatch { inner_path, expected, actual },
            ) => {
                ReadErrView::PathHashMismatch {
                    path: inner_path@,
                    expected: *expected,
                    actual: *actual,
                }
            }
            PackageReadError::InnerPathAlreadyExists(e) => ReadErrView::DuplicatePath(e.0@),
        }
    }
}

/// Failure of a whole write: no output is produced.
#[derive(Debug, PartialEq, Eq)]
pub enum PackageWriteError {
    /// The package holds more entries than the entry count field can carry.
    EntryCountExceeded,
    /// The PKG path region is larger than its size field can carry; the
    /// field holds the region's size in bytes.
    PathAreaSizeExceeded(usize),
    /// One entry could not be represented.
    EntryWrite(EntryWriteError),
}

impl PackageWriteError {
    /// The class of this error.
    pub fn kind(&self) -> (r: ErrorKind)
        ensures
            r == ErrorKind::CapacityExceeded,
    {
        ErrorKind::CapacityExceeded
    }
}

/// Rejection of a single entry while writing.
#[derive(Debug, PartialEq, Eq)]
pub enum EntryWriteError {
    /// The entry's content is longer than the length field can carry; the
    /// field holds the content's length in bytes.
    ContentSizeExceeded(usize),
    /// The entry's encoded inner path is longer than the layout can carry;
    /// the field holds the path's length in bytes.
    InnerPathSizeExceeded(usize),
    /// The entry's record would start beyond the largest offset the offset
    /// field can carry.
    OffsetExceeded,
}

impl EntryWriteError {
    /// The class of this error.
    pub fn kind(&self) -> (r: ErrorKind)
        ensures
            r == ErrorKind::CapacityExceeded,
    {
        ErrorKind::CapacityExceeded
    }
}

} // verus!
