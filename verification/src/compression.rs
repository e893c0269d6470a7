//! Compression methods and how payload bytes are to be interpreted.
use vstd::prelude::*;

verus! {

/// ZIP compression methods exposed by the central directory.
#[derive(Clone, Copy, Debug, PartialEq, Eq, Structural)]
pub enum Compression {
    /// Method 0: the data bytes are stored verbatim.
    Stored,
    /// Method 8: the data bytes are deflate-compressed.
    Deflated,
}

/// Whether the entry payload bytes are stored as-is or need decompression.
#[derive(Clone, Copy, Debug, PartialEq, Eq, Structural)]
pub enum DataKind {
    /// The payload bytes are the uncompressed file.
    Stored,
    /// The payload bytes are compressed with the reported method.
    Compressed(Compression),
}

/// The method with raw ZIP id `raw`, if the crate supports it.
pub open spec fn spec_from_raw(raw: u16) -> Option<Compression> {
    if raw == 0 {
        Some(Compression::Stored)
    } else if raw == 8 {
        Some(Compression::Deflated)
    } else {
        None
    }
}

/// The raw ZIP id of a method.
pub open spec fn spec_raw(c: Compression) -> u16 {
    match c {
        Compression::Stored => 0,
        Compression::Deflated => 8,
    }
}

/// How payload bytes compressed with `c` are to be interpreted.
pub open spec fn spec_data_kind(c: Compression) -> DataKind {
    match c {
        Compression::Stored => DataKind::Stored,
        _ => DataKind::Compressed(c),
    }
}

impl Compression {
    /// Converts a raw ZIP method id into the low-level enum used by the crate.
    pub fn from_raw(raw: u16) -> (r: Option<Self>)
        ensures
            r == spec_from_raw(raw),
    {
        match raw {
            0 => Some(Compression::Stored),
            8 => Some(Compression::Deflated),
            _ => None,
        }
    }

    /// Returns the raw ZIP method id exactly as it appears on disk.
    pub fn raw(self) -> (r: u16)
        ensures
            r == spec_raw(self),
    {
        match self {
            Compression::Stored => 0,
            Compression::Deflated => 8,
        }
    }
}

} // verus!
