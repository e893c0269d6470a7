//! Errors reported while navigating an archive.
use vstd::prelude::*;

verus! {

/// ZIP features that are recognised but not supported.
#[derive(Clone, Copy, Debug, PartialEq, Eq, Structural)]
pub enum Unsupported {
    /// Split or multi-disk archives.
    MultiDisk,
    /// Strong encryption markers in central or local headers.
    StrongEncryption,
    /// Masked local headers, which hide required local metadata.
    MaskedLocalHeaders,
    /// A compression method other than stored or deflated.
    Compression(u16),
}

/// Structural problems found in the archive bytes.
#[derive(Clone, Copy, Debug, PartialEq, Eq, Structural)]
pub enum FormatError {
    /// No EOCD record was found in the allowed scan window.
    NotZip,
    /// A required record or payload extends past the end of the archive.
    Truncated,
    /// A required ZIP signature was missing.
    InvalidSignature,
    /// An archive offset was inconsistent or impossible.
    InvalidOffset,
    /// A record was malformed even though its outer signature matched.
    InvalidRecord,
    /// The archive uses a feature the crate does not support.
    Unsupported(Unsupported),
}

/// Top-level parser error.
#[derive(Debug, PartialEq, Eq)]
pub enum Error<E> {
    /// Error returned by the underlying reader.
    Io(E),
    /// The archive bytes are malformed or use an unsupported feature.
    Format(FormatError),
}

impl FormatError {
    /// Human-readable description of the error. For an unsupported compression
    /// method the description does not include the method id.
    pub fn message(&self) -> (r: &'static str)
        ensures
            *self == FormatError::NotZip ==> r@ == "not a ZIP archive"@,
            *self == FormatError::Truncated ==> r@ == "truncated ZIP archive"@,
            *self == FormatError::InvalidSignature ==> r@ == "invalid ZIP signature"@,
            *self == FormatError::InvalidOffset ==> r@ == "invalid ZIP offset"@,
            *self == FormatError::InvalidRecord ==> r@ == "invalid ZIP record"@,
            *self == FormatError::Unsupported(Unsupported::MultiDisk) ==> r@
                == "multi-disk ZIP archives are unsupported"@,
            *self == FormatError::Unsupported(Unsupported::StrongEncryption) ==> r@
                == "strong encryption is unsupported"@,
            *self == FormatError::Unsupported(Unsupported::MaskedLocalHeaders) ==> r@
                == "masked local headers are unsupported"@,
            *self matches FormatError::Unsupported(Unsupported::Compression(_)) ==> r@
                == "unsupported ZIP compression method"@,
    {
        match self {
            FormatError::NotZip => "not a ZIP archive",
            FormatError::Truncated => "truncated ZIP archive",
            FormatError::InvalidSignature => "invalid ZIP signature",
            FormatError::InvalidOffset => "invalid ZIP offset",
            FormatError::InvalidRecord => "invalid ZIP record",
            FormatError::Unsupported(Unsupported::MultiDisk) => {
                "multi-disk ZIP archives are unsupported"
            },
            FormatError::Unsupported(Unsupported::StrongEncryption) => {
                "strong encryption is unsupported"
            },
            FormatError::Unsupported(Unsupported::MaskedLocalHeaders) => {
                "masked local headers are unsupported"
            },
            FormatError::Unsupported(Unsupported::Compression(_)) => {
                "unsupported ZIP compression method"
            },
        }
    }
}

} // verus!
