//! Low-level ZIP navigation over a random-access byte source.
//!
//! The crate does not decompress data. It locates the central directory,
//! iterates entries, and reports raw archive byte ranges for names, metadata,
//! local headers, and payload bytes.
pub mod archive;
pub mod bytes;
pub mod compression;
pub mod entry;
pub mod error;
pub mod extra;
pub mod laws;
pub mod locate;
pub mod reader;

pub use archive::{Archive, Entries};
pub use compression::{Compression, DataKind};
pub use entry::{DataRange, Entry, EntryReader};
pub use error::{Error, FormatError, Unsupported};
pub use reader::{Reader, SliceReaderError};
