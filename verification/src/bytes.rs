//! Little-endian field decoding, checked offset arithmetic, and the
//! constants of the ZIP record layouts.
use vstd::prelude::*;

use crate::error::{Error, FormatError};

verus! {

/// Signature of the end-of-central-directory record.
pub const EOCD_SIGNATURE: u32 = 0x0605_4B50;

/// Signature of the ZIP64 end-of-central-directory record.
pub const ZIP64_EOCD_SIGNATURE: u32 = 0x0606_4B50;

/// Signature of the ZIP64 end-of-central-directory locator.
pub const ZIP64_LOCATOR_SIGNATURE: u32 = 0x0706_4B50;

/// Signature of a central-directory file header.
pub const CENTRAL_HEADER_SIGNATURE: u32 = 0x0201_4B50;

/// Signature of a local file header.
pub const LOCAL_HEADER_SIGNATURE: u32 = 0x0403_4B50;

/// Fixed length of the end-of-central-directory record.
pub const EOCD_LEN: u64 = 22;

/// Fixed length of the ZIP64 end-of-central-directory locator.
pub const ZIP64_LOCATOR_LEN: u64 = 20;

/// Fixed length of a central-directory file header.
pub const CENTRAL_HEADER_LEN: u64 = 46;

/// Fixed length of a local file header.
pub const LOCAL_HEADER_LEN: u64 = 30;

/// Fixed part of the ZIP64 end-of-central-directory record that is decoded.
pub const ZIP64_EOCD_LEN: u64 = 56;

/// Largest number of trailing bytes searched for the EOCD record: the record
/// itself plus the longest possible archive comment.
pub const MAX_EOCD_SCAN: u64 = 65557;

/// Number of bytes searched before the ZIP64 locator when the advertised ZIP64
/// record offset does not point at a ZIP64 record.
pub const ZIP64_SEARCH_WINDOW: u64 = 4096;

/// Chunk size used when scanning entry paths.
pub const PATH_SCAN_CHUNK_LEN: usize = 64;

/// The unsigned little-endian 16-bit value stored at `s[i..i + 2]`.
pub open spec fn le16(s: Seq<u8>, i: int) -> int {
    s[i] + 256 * s[i + 1]
}

/// The unsigned little-endian 32-bit value stored at `s[i..i + 4]`.
pub open spec fn le32(s: Seq<u8>, i: int) -> int {
    le16(s, i) + 65536 * le16(s, i + 2)
}

/// The unsigned little-endian 64-bit value stored at `s[i..i + 8]`.
pub open spec fn le64(s: Seq<u8>, i: int) -> int {
    le32(s, i) + 4294967296 * le32(s, i + 4)
}

/// A fallible operation agrees with its model: a success or a format error is
/// exactly what the model gives, and an I/O error can only come from a reader
/// that is allowed to fail.
pub open spec fn agrees<T, E>(
    res: Result<T, Error<E>>,
    model: Result<T, FormatError>,
    infallible: bool,
) -> bool {
    match res {
        Ok(v) => model == Ok::<T, FormatError>(v),
        Err(Error::Format(e)) => model == Err::<T, FormatError>(e),
        Err(Error::Io(_)) => !infallible,
    }
}

/// Model of a checked `u64` addition that reports overflow as an invalid offset.
pub open spec fn checked_sum(a: int, b: int) -> Result<u64, FormatError> {
    if a + b > u64::MAX {
        Err(FormatError::InvalidOffset)
    } else {
        Ok((a + b) as u64)
    }
}

/// Decodes the little-endian `u16` at `bytes[at..at + 2]`.
pub(crate) fn le_u16(bytes: &[u8], at: usize) -> (r: u16)
    requires
        at + 2 <= bytes@.len(),
    ensures
        r == le16(bytes@, at as int),
{
    bytes[at] as u16 + (bytes[at + 1] as u16) * 256
}

/// Decodes the little-endian `u32` at `bytes[at..at + 4]`.
pub(crate) fn le_u32(bytes: &[u8], at: usize) -> (r: u32)
    requires
        at + 4 <= bytes@.len(),
    ensures
        r == le32(bytes@, at as int),
{
    assert(bytes.len() == bytes@.len());
    let lo: u32 = le_u16(bytes, at) as u32;
    let hi: u32 = le_u16(bytes, at + 2) as u32;
    lo + hi * 65536
}

/// Decodes the little-endian `u64` at `bytes[at..at + 8]`.
pub(crate) fn le_u64(bytes: &[u8], at: usize) -> (r: u64)
    requires
        at + 8 <= bytes@.len(),
    ensures
        r == le64(bytes@, at as int),
{
    assert(bytes.len() == bytes@.len());
    let lo: u64 = le_u32(bytes, at) as u64;
    let hi: u64 = le_u32(bytes, at + 4) as u64;
    lo + hi * 4294967296
}

/// Adds two archive offsets, reporting overflow as an invalid offset.
pub(crate) fn add<E>(lhs: u64, rhs: u64) -> (r: Result<u64, Error<E>>)
    ensures
        agrees(r, checked_sum(lhs as int, rhs as int), true),
{
    match lhs.checked_add(rhs) {
        Some(v) => Ok(v),
        None => Err(Error::Format(FormatError::InvalidOffset)),
    }
}

/// Total length of a central-directory record with the given variable-length
/// field sizes, or `None` when it does not fit in a `u64`.
pub(crate) fn central_record_len(name_len: u64, extra_len: u64, comment_len: u64) -> (r: Option<u64>)
    ensures
        r == (if CENTRAL_HEADER_LEN + name_len + extra_len + comment_len > u64::MAX {
            None
        } else {
            Some((CENTRAL_HEADER_LEN + name_len + extra_len + comment_len) as u64)
        }),
{
    match CENTRAL_HEADER_LEN.checked_add(name_len) {
        None => None,
        Some(a) => match a.checked_add(extra_len) {
            None => None,
            Some(b) => b.checked_add(comment_len),
        },
    }
}

/// Length of `start..end` as a `usize`.
pub(crate) fn range_len_usize<E>(range: &core::ops::Range<u64>) -> (r: Result<usize, Error<E>>)
    ensures
        agrees(
            r,
            if range.end < range.start || range.end - range.start > usize::MAX {
                Err(FormatError::InvalidOffset)
            } else {
                Ok((range.end - range.start) as usize)
            },
            true,
        ),
{
    if range.end < range.start {
        return Err(Error::Format(FormatError::InvalidOffset));
    }
    let len: u64 = range.end - range.start;
    if len > usize::MAX as u64 {
        return Err(Error::Format(FormatError::InvalidOffset));
    }
    Ok(len as usize)
}

/// Borrows the first `len` bytes of `buf` mutably: `&mut buf[..len]`, std's
/// `IndexMut<RangeTo<usize>>` for byte slices. The contract claims that the
/// borrowed slice holds the first `len` bytes, keeps its length, and that
/// once the borrow ends `buf` holds what was left in it followed by the
/// untouched rest of `buf`.
#[verifier::external_body]
pub(crate) fn prefix_mut(buf: &mut [u8], len: usize) -> (out: &mut [u8])
    requires
        len <= old(buf)@.len(),
    ensures
        out@ == old(buf)@.take(len as int),
        final(out)@.len() == len,
        final(buf)@ == final(out)@ + old(buf)@.skip(len as int),
{
    &mut buf[..len]
}

} // verus!
