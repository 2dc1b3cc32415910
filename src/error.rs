//! The errors of reading and writing archives.

use vstd::prelude::*;

verus! {

/// Everything that can go wrong while reading or writing an archive.
#[derive(Debug)]
pub enum Error {
    /// Reading or writing outside the library failed; the text describes it.
    Io(String),
    /// The JSON payload of the header could not be turned into a tree.
    Json(String),
    /// The archive holds fewer bytes than its frame or a file declares.
    Truncated,
    /// A file's content does not match its stored digest. `block` is the
    /// 1-based index of the failing block, or `None` for the whole-file digest.
    HashMismatch { file: String, block: Option<usize>, expected: Vec<u8>, actual: Vec<u8> },
    /// The path was already added in this write session.
    FileAlreadyWritten(String),
    /// A hash algorithm name that is not supported.
    InvalidHashAlgorithm(String),
    /// A path handed to the writer that is empty, absolute, or holds an empty,
    /// `.` or `..` segment.
    InvalidPath(String),
    /// An unpacked file whose content was not supplied.
    UnpackedMissing(String),
}

/// The mathematical value of an [`Error`].
pub enum ErrorView {
    Io(Seq<char>),
    Json(Seq<char>),
    Truncated,
    HashMismatch { file: Seq<char>, block: Option<nat>, expected: Seq<u8>, actual: Seq<u8> },
    FileAlreadyWritten(Seq<char>),
    InvalidHashAlgorithm(Seq<char>),
    InvalidPath(Seq<char>),
    UnpackedMissing(Seq<char>),
}

impl View for Error {
    type V = ErrorView;

    open spec fn view(&self) -> ErrorView {
        match self {
            Error::Io(s) => ErrorView::Io(s@),
            Error::Json(s) => ErrorView::Json(s@),
            Error::Truncated => ErrorView::Truncated,
            Error::HashMismatch { file, block, expected, actual } => ErrorView::HashMismatch {
                file: file@,
                block: match block {
                    Some(b) => Some(*b as nat),
                    None => None,
                },
                expected: expected@,
                actual: actual@,
            },
            Error::FileAlreadyWritten(s) => ErrorView::FileAlreadyWritten(s@),
            Error::InvalidHashAlgorithm(s) => ErrorView::InvalidHashAlgorithm(s@),
            Error::InvalidPath(s) => ErrorView::InvalidPath(s@),
            Error::UnpackedMissing(s) => ErrorView::UnpackedMissing(s@),
        }
    }
}

} // verus!
