use vstd::prelude::*;

verus! {

/// What went wrong while packing or unpacking an archive.
#[derive(Debug, Clone, PartialEq, Eq)]
pub enum TarErrorKind {
    /// A header block made only of zero bytes: part of the end-of-archive marker.
    EmptyHeaderBlock,
    /// The checksum stored in a header does not match the header's bytes.
    InvalidChecksum,
    /// The magic field of a header is not `ustar\0`.
    InvalidMagicValue,
    /// An underlying read, write, create or stat operation failed.
    IOError(String),
    /// The archive to extract is a directory.
    InvalidFormatDirectory,
    /// The archive to extract has an extension other than `tar`.
    InvalidFormatWrongExtension,
    /// The archive to extract has no extension.
    InvalidFormatMissingExtension,
    /// A numeric header field does not hold octal digits.
    InvalidNumericField,
    /// The type flag of a header is not one of the known entry kinds.
    InvalidTypeFlag,
    /// The stream ends before a header or a payload is complete.
    TruncatedArchive,
    /// A metadata value does not fit in its fixed-width header field.
    EncodingOverflow,
}

/// An archive failure: its kind and a human-readable description.
#[derive(Debug, Clone)]
pub struct TarError {
    pub kind: TarErrorKind,
    pub message: String,
}

impl TarError {
    pub fn new(kind: TarErrorKind, message: &str) -> (r: TarError)
        ensures
            r.kind == kind,
            r.message@ == message@,
    {
        Self::_new(kind, message.to_owned())
    }

    fn _new(kind: TarErrorKind, message: String) -> (r: TarError)
        ensures
            r.kind == kind,
            r.message == message,
    {
        TarError { kind, message }
    }
}

} // verus!
