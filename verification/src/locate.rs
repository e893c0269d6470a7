//! Locating the end-of-central-directory record, the ZIP64 metadata, and
//! the central directory itself.
use vstd::prelude::*;

use crate::bytes::{
    agrees, le16, le32, le64, le_u16, le_u32, le_u64, prefix_mut, CENTRAL_HEADER_SIGNATURE, EOCD_LEN,
    EOCD_SIGNATURE, MAX_EOCD_SCAN, ZIP64_EOCD_LEN, ZIP64_EOCD_SIGNATURE, ZIP64_LOCATOR_LEN,
    ZIP64_LOCATOR_SIGNATURE, ZIP64_SEARCH_WINDOW,
};
use crate::error::{Error, FormatError, Unsupported};
use crate::reader::Reader;

verus! {

/// Fields of the classic end-of-central-directory record.
#[derive(Clone, Copy)]
pub struct Eocd {
    pub disk_number: u16,
    pub central_directory_disk: u16,
    pub entry_count: u16,
    pub central_directory_size: u32,
    pub central_directory_offset: u32,
}

/// Fields of the ZIP64 end-of-central-directory record, with its position.
#[derive(Clone, Copy)]
pub struct Zip64Record {
    pub record_offset: u64,
    pub disk_number: u32,
    pub central_directory_disk: u32,
    pub entry_count: u64,
    pub central_directory_size: u64,
    pub central_directory_offset: u64,
}

/// The EOCD record stored at `s[pos..]`.
pub open spec fn eocd_at(s: Seq<u8>, pos: int) -> Eocd {
    Eocd {
        disk_number: le16(s, pos + 4) as u16,
        central_directory_disk: le16(s, pos + 6) as u16,
        entry_count: le16(s, pos + 10) as u16,
        central_directory_size: le32(s, pos + 12) as u32,
        central_directory_offset: le32(s, pos + 16) as u32,
    }
}

/// `s[pos..]` holds an EOCD signature whose record, comment included, ends
/// inside the archive.
pub open spec fn is_eocd_at(s: Seq<u8>, pos: int) -> bool {
    &&& 0 <= pos
    &&& pos + EOCD_LEN <= s.len()
    &&& le32(s, pos) == EOCD_SIGNATURE
    &&& pos + EOCD_LEN + le16(s, pos + 20) <= s.len()
}

/// First position of the trailing window that is searched for the EOCD.
pub open spec fn eocd_window_start(s: Seq<u8>) -> int {
    if s.len() < MAX_EOCD_SCAN {
        0
    } else {
        s.len() - MAX_EOCD_SCAN
    }
}

/// The last EOCD position in `lo..=pos`.
pub open spec fn last_eocd(s: Seq<u8>, lo: int, pos: int) -> Option<int>
    decreases pos - lo + 1,
{
    if pos < lo {
        None
    } else if is_eocd_at(s, pos) {
        Some(pos)
    } else {
        last_eocd(s, lo, pos - 1)
    }
}

/// The EOCD record of an archive: the last position in the trailing window of
/// `MAX_EOCD_SCAN` bytes where an EOCD record fits.
pub open spec fn spec_find_eocd(s: Seq<u8>) -> Result<(u64, Eocd), FormatError> {
    if s.len() < EOCD_LEN {
        Err(FormatError::NotZip)
    } else {
        match last_eocd(s, eocd_window_start(s), s.len() - EOCD_LEN) {
            Some(pos) => Ok((pos as u64, eocd_at(s, pos))),
            None => Err(FormatError::NotZip),
        }
    }
}

/// Whether the EOCD defers any of its counts or offsets to ZIP64 records.
pub open spec fn spec_needs_zip64(e: Eocd) -> bool {
    e.entry_count == u16::MAX || e.central_directory_size == u32::MAX
        || e.central_directory_offset == u32::MAX
}

/// `s[off..off + 4]` exists and holds `signature`.
pub open spec fn sig_at(s: Seq<u8>, off: int, signature: u32) -> bool {
    off + 4 <= s.len() && le32(s, off) == signature
}

/// The last position in `lo..=pos` holding `signature`.
pub open spec fn last_sig(s: Seq<u8>, signature: u32, lo: int, pos: int) -> Option<int>
    decreases pos - lo + 1,
{
    if pos < lo {
        None
    } else if le32(s, pos) == signature {
        Some(pos)
    } else {
        last_sig(s, signature, lo, pos - 1)
    }
}

/// Position of the ZIP64 EOCD record: the advertised offset when it holds the
/// record signature, else the last signature in the 4096 bytes before the
/// locator.
pub open spec fn spec_resolve_zip64_record_offset(
    s: Seq<u8>,
    locator_offset: int,
    advertised_offset: int,
) -> Result<u64, FormatError> {
    if sig_at(s, advertised_offset, ZIP64_EOCD_SIGNATURE) {
        Ok(advertised_offset as u64)
    } else {
        let start = if locator_offset >= ZIP64_SEARCH_WINDOW {
            locator_offset - ZIP64_SEARCH_WINDOW
        } else {
            0
        };
        if locator_offset - start < 4 {
            Err(FormatError::InvalidSignature)
        } else {
            match last_sig(s, ZIP64_EOCD_SIGNATURE, start, locator_offset - 4) {
                Some(pos) => Ok(pos as u64),
                None => Err(FormatError::InvalidSignature),
            }
        }
    }
}

/// The ZIP64 record located through the locator just before the EOCD at
/// `eocd_offset`.
pub open spec fn spec_zip64_metadata(s: Seq<u8>, eocd_offset: int) -> Result<
    Zip64Record,
    FormatError,
> {
    if eocd_offset < ZIP64_LOCATOR_LEN {
        Err(FormatError::InvalidRecord)
    } else {
        let loc = eocd_offset - ZIP64_LOCATOR_LEN;
        if le32(s, loc) != ZIP64_LOCATOR_SIGNATURE {
            Err(FormatError::InvalidSignature)
        } else if le32(s, loc + 4) != 0 || le32(s, loc + 16) != 1 {
            Err(FormatError::Unsupported(Unsupported::MultiDisk))
        } else {
            match spec_resolve_zip64_record_offset(s, loc, le64(s, loc + 8)) {
                Err(e) => Err(e),
                Ok(off) => {
                    let record_len = le64(s, off + 4) + 12;
                    if off + ZIP64_EOCD_LEN > u64::MAX {
                        Err(FormatError::InvalidOffset)
                    } else if off + ZIP64_EOCD_LEN > s.len() {
                        Err(FormatError::Truncated)
                    } else if le32(s, off as int) != ZIP64_EOCD_SIGNATURE {
                        Err(FormatError::InvalidSignature)
                    } else if record_len > u64::MAX || off + record_len > u64::MAX {
                        Err(FormatError::InvalidOffset)
                    } else if off + record_len > s.len() {
                        Err(FormatError::Truncated)
                    } else {
                        Ok(
                            Zip64Record {
                                record_offset: off,
                                disk_number: le32(s, off + 16) as u32,
                                central_directory_disk: le32(s, off + 20) as u32,
                                entry_count: le64(s, off + 32) as u64,
                                central_directory_size: le64(s, off + 40) as u64,
                                central_directory_offset: le64(s, off + 48) as u64,
                            },
                        )
                    }
                },
            }
        }
    }
}

/// Absolute position of the central directory: the raw offset when a central
/// header starts there, else the offset shifted by the inferred prefix length
/// when a header starts there or it lies inside the archive.
pub open spec fn spec_resolve_central_directory_offset(
    s: Seq<u8>,
    central_directory_offset: int,
    inferred_base_offset: int,
) -> Result<u64, FormatError> {
    let inferred = inferred_base_offset + central_directory_offset;
    if inferred > u64::MAX {
        Err(FormatError::InvalidOffset)
    } else if sig_at(s, central_directory_offset, CENTRAL_HEADER_SIGNATURE) {
        Ok(central_directory_offset as u64)
    } else if sig_at(s, inferred, CENTRAL_HEADER_SIGNATURE) {
        Ok(inferred as u64)
    } else if inferred <= s.len() {
        Ok(inferred as u64)
    } else {
        Err(FormatError::InvalidOffset)
    }
}

/// Model of the single-disk requirement.
pub open spec fn spec_single_disk(disk_number: u32, central_directory_disk: u32) -> Result<
    (),
    FormatError,
> {
    if disk_number != 0 || central_directory_disk != 0 {
        Err(FormatError::Unsupported(Unsupported::MultiDisk))
    } else {
        Ok(())
    }
}

impl Eocd {
    /// Whether the EOCD defers any of its counts or offsets to ZIP64 records.
    pub(crate) fn needs_zip64(self) -> (r: bool)
        ensures
            r == spec_needs_zip64(self),
    {
        self.entry_count == u16::MAX || self.central_directory_size == u32::MAX
            || self.central_directory_offset == u32::MAX
    }
}

/// Rejects split archives.
pub(crate) fn ensure_single_disk<E>(disk_number: u32, central_directory_disk: u32) -> (r: Result<
    (),
    Error<E>,
>)
    ensures
        agrees(r, spec_single_disk(disk_number, central_directory_disk), true),
{
    if disk_number != 0 || central_directory_disk != 0 {
        return Err(Error::Format(FormatError::Unsupported(Unsupported::MultiDisk)));
    }
    Ok(())
}

/// Fields read from a copy of `s[start..start + window]` agree with the same
/// fields read from `s`.
proof fn lemma_window_fields(w: Seq<u8>, s: Seq<u8>, start: int, window: int, idx: int)
    requires
        0 <= idx,
        idx + EOCD_LEN <= window,
        window <= w.len(),
        start + window <= s.len(),
        forall|k: int| 0 <= k < window ==> w[k] == s[start + k],
    ensures
        le32(w, idx) == le32(s, start + idx),
        le16(w, idx + 20) == le16(s, start + idx + 20),
        eocd_at(w, idx) == eocd_at(s, start + idx),
{
    assert forall|k: int| idx <= k < idx + EOCD_LEN implies w[k] == s[start + k] by {}
}

/// Finds the EOCD record in the trailing window of the archive.
pub(crate) fn find_eocd<R: Reader>(reader: &R, size: u64) -> (r: Result<(u64, Eocd), Error<R::Error>>)
    requires
        size == reader.contents().len(),
    ensures
        agrees(r, spec_find_eocd(reader.contents()), reader.infallible()),
{
    let ghost s = reader.contents();
    if size < EOCD_LEN {
        return Err(Error::Format(FormatError::NotZip));
    }
    let window_u64: u64 = if size < MAX_EOCD_SCAN {
        size
    } else {
        MAX_EOCD_SCAN
    };
    let window: usize = window_u64 as usize;
    let start: u64 = size - window_u64;
    let mut buffer = [0u8; 65557];
    let buf = prefix_mut(&mut buffer, window);
    match reader.read_exact_at(start, buf) {
        Ok(()) => {},
        Err(e) => {
            return Err(Error::Io(e));
        },
    }
    assert(buffer@.len() == 65557);
    assert forall|k: int| 0 <= k < window implies buffer@[k] == s[start + k] by {
        assert(buffer@[k] == buf@[k]);
    }
    let bytes = buffer.as_slice();
    let mut idx: usize = window - 21;
    while idx > 0
        invariant
            0 <= idx <= window - 21,
            22 <= window <= 65557,
            start + window == s.len(),
            size == s.len(),
            s == reader.contents(),
            start == eocd_window_start(s),
            bytes@.len() == 65557,
            forall|k: int| 0 <= k < window ==> bytes@[k] == s[start + k],
            last_eocd(s, start as int, s.len() - EOCD_LEN) == last_eocd(
                s,
                start as int,
                start + idx - 1,
            ),
        decreases idx,
    {
        idx = idx - 1;
        proof {
            lemma_window_fields(bytes@, s, start as int, window as int, idx as int);
        }
        let found: bool = le_u32(bytes, idx) == EOCD_SIGNATURE && idx + 22 + (le_u16(
            bytes,
            idx + 20,
        ) as usize) <= window;
        if found {
            let eocd = Eocd {
                disk_number: le_u16(bytes, idx + 4),
                central_directory_disk: le_u16(bytes, idx + 6),
                entry_count: le_u16(bytes, idx + 10),
                central_directory_size: le_u32(bytes, idx + 12),
                central_directory_offset: le_u32(bytes, idx + 16),
            };
            return Ok((start + idx as u64, eocd));
        }
    }
    Err(Error::Format(FormatError::NotZip))
}

/// Whether `signature` is stored at `offset`; positions whose four bytes do
/// not fit in the archive never match.
pub(crate) fn looks_like_signature<R: Reader>(reader: &R, size: u64, offset: u64, signature: u32) -> (r:
    Result<bool, Error<R::Error>>)
    requires
        size == reader.contents().len(),
    ensures
        agrees(r, Ok(sig_at(reader.contents(), offset as int, signature)), reader.infallible()),
{
    if offset > u64::MAX - 4 || offset + 4 > size {
        return Ok(false);
    }
    let mut bytes = [0u8; 4];
    match reader.read_exact_at(offset, &mut bytes) {
        Ok(()) => {},
        Err(e) => {
            return Err(Error::Io(e));
        },
    }
    Ok(le_u32(bytes.as_slice(), 0) == signature)
}

/// Whether a central-directory header signature is stored at `offset`.
pub(crate) fn looks_like_central_header<R: Reader>(reader: &R, size: u64, offset: u64) -> (r: Result<
    bool,
    Error<R::Error>,
>)
    requires
        size == reader.contents().len(),
    ensures
        agrees(
            r,
            Ok(sig_at(reader.contents(), offset as int, CENTRAL_HEADER_SIGNATURE)),
            reader.infallible(),
        ),
{
    looks_like_signature(reader, size, offset, CENTRAL_HEADER_SIGNATURE)
}

/// Finds the ZIP64 EOCD record, trusting the advertised offset only when the
/// record signature is stored there.
pub(crate) fn resolve_zip64_record_offset<R: Reader>(
    reader: &R,
    size: u64,
    locator_offset: u64,
    advertised_offset: u64,
) -> (r: Result<u64, Error<R::Error>>)
    requires
        size == reader.contents().len(),
        locator_offset <= size,
    ensures
        agrees(
            r,
            spec_resolve_zip64_record_offset(
                reader.contents(),
                locator_offset as int,
                advertised_offset as int,
            ),
            reader.infallible(),
        ),
{
    let ghost s = reader.contents();
    if looks_like_signature(reader, size, advertised_offset, ZIP64_EOCD_SIGNATURE)? {
        return Ok(advertised_offset);
    }
    let start: u64 = locator_offset.saturating_sub(ZIP64_SEARCH_WINDOW);
    let window: usize = (locator_offset - start) as usize;
    let mut buffer = [0u8; 4096];
    let buf = prefix_mut(&mut buffer, window);
    match reader.read_exact_at(start, buf) {
        Ok(()) => {},
        Err(e) => {
            return Err(Error::Io(e));
        },
    }
    assert forall|k: int| 0 <= k < window implies buffer@[k] == s[start + k] by {
        assert(buffer@[k] == buf@[k]);
    }
    if window < 4 {
        return Err(Error::Format(FormatError::InvalidSignature));
    }
    let bytes = buffer.as_slice();
    let mut idx: usize = window - 3;
    while idx > 0
        invariant
            0 <= idx <= window - 3,
            4 <= window <= 4096,
            start + window == locator_offset,
            locator_offset <= s.len(),
            s == reader.contents(),
            !sig_at(s, advertised_offset as int, ZIP64_EOCD_SIGNATURE),
            start == (if locator_offset >= ZIP64_SEARCH_WINDOW {
                locator_offset - ZIP64_SEARCH_WINDOW
            } else {
                0
            }),
            bytes@.len() == 4096,
            forall|k: int| 0 <= k < window ==> bytes@[k] == s[start + k],
            last_sig(s, ZIP64_EOCD_SIGNATURE, start as int, locator_offset - 4) == last_sig(
                s,
                ZIP64_EOCD_SIGNATURE,
                start as int,
                start + idx - 1,
            ),
        decreases idx,
    {
        idx = idx - 1;
        assert(le32(bytes@, idx as int) == le32(s, start + idx)) by {
            assert(bytes@[idx as int] == s[start + idx]);
            assert(bytes@[idx + 1] == s[start + idx + 1]);
            assert(bytes@[idx + 2] == s[start + idx + 2]);
            assert(bytes@[idx + 3] == s[start + idx + 3]);
        }
        if le_u32(bytes, idx) == ZIP64_EOCD_SIGNATURE {
            return Ok(start + idx as u64);
        }
    }
    Err(Error::Format(FormatError::InvalidSignature))
}

/// Reads the ZIP64 locator stored just before the EOCD at `eocd_offset` and the
/// ZIP64 EOCD record it leads to.
pub(crate) fn parse_zip64_metadata<R: Reader>(reader: &R, size: u64, eocd_offset: u64) -> (r: Result<
    Zip64Record,
    Error<R::Error>,
>)
    requires
        size == reader.contents().len(),
        eocd_offset + EOCD_LEN <= size,
    ensures
        agrees(r, spec_zip64_metadata(reader.contents(), eocd_offset as int), reader.infallible()),
{
    let ghost s = reader.contents();
    if eocd_offset < ZIP64_LOCATOR_LEN {
        return Err(Error::Format(FormatError::InvalidRecord));
    }
    let locator_offset: u64 = eocd_offset - ZIP64_LOCATOR_LEN;
    let mut locator = [0u8; 20];
    match reader.read_exact_at(locator_offset, &mut locator) {
        Ok(()) => {},
        Err(e) => {
            return Err(Error::Io(e));
        },
    }
    let loc = locator.as_slice();
    assert(loc@ == s.subrange(locator_offset as int, locator_offset + 20));
    assert(le32(loc@, 0) == le32(s, locator_offset as int));
    assert(le32(loc@, 4) == le32(s, locator_offset + 4));
    assert(le64(loc@, 8) == le64(s, locator_offset + 8));
    assert(le32(loc@, 16) == le32(s, locator_offset + 16));
    if le_u32(loc, 0) != ZIP64_LOCATOR_SIGNATURE {
        return Err(Error::Format(FormatError::InvalidSignature));
    }
    let disk_number: u32 = le_u32(loc, 4);
    let advertised: u64 = le_u64(loc, 8);
    let total_disks: u32 = le_u32(loc, 16);
    if disk_number != 0 || total_disks != 1 {
        return Err(Error::Format(FormatError::Unsupported(Unsupported::MultiDisk)));
    }
    let zip64_offset: u64 = resolve_zip64_record_offset(reader, size, locator_offset, advertised)?;
    let header_end: u64 = crate::bytes::add(zip64_offset, ZIP64_EOCD_LEN)?;
    if header_end > size {
        return Err(Error::Format(FormatError::Truncated));
    }
    let mut header = [0u8; 56];
    match reader.read_exact_at(zip64_offset, &mut header) {
        Ok(()) => {},
        Err(e) => {
            return Err(Error::Io(e));
        },
    }
    let h = header.as_slice();
    assert(h@ == s.subrange(zip64_offset as int, zip64_offset + 56));
    assert(le32(h@, 0) == le32(s, zip64_offset as int));
    assert(le64(h@, 4) == le64(s, zip64_offset + 4));
    assert(le32(h@, 16) == le32(s, zip64_offset + 16));
    assert(le32(h@, 20) == le32(s, zip64_offset + 20));
    assert(le64(h@, 32) == le64(s, zip64_offset + 32));
    assert(le64(h@, 40) == le64(s, zip64_offset + 40));
    assert(le64(h@, 48) == le64(s, zip64_offset + 48));
    if le_u32(h, 0) != ZIP64_EOCD_SIGNATURE {
        return Err(Error::Format(FormatError::InvalidSignature));
    }
    let record_size: u64 = le_u64(h, 4);
    let total_len: u64 = crate::bytes::add(record_size, 12)?;
    let record_end: u64 = crate::bytes::add(zip64_offset, total_len)?;
    if record_end > size {
        return Err(Error::Format(FormatError::Truncated));
    }
    Ok(
        Zip64Record {
            record_offset: zip64_offset,
            disk_number: le_u32(h, 16),
            central_directory_disk: le_u32(h, 20),
            entry_count: le_u64(h, 32),
            central_directory_size: le_u64(h, 40),
            central_directory_offset: le_u64(h, 48),
        },
    )
}

/// Resolves the absolute position of the central directory, accepting archives
/// whose offsets are relative to a prefix of unrelated bytes.
pub(crate) fn resolve_central_directory_offset<R: Reader>(
    reader: &R,
    size: u64,
    central_directory_offset: u64,
    inferred_base_offset: u64,
) -> (r: Result<u64, Error<R::Error>>)
    requires
        size == reader.contents().len(),
    ensures
        agrees(
            r,
            spec_resolve_central_directory_offset(
                reader.contents(),
                central_directory_offset as int,
                inferred_base_offset as int,
            ),
            reader.infallible(),
        ),
{
    let raw_offset: u64 = central_directory_offset;
    let inferred_offset: u64 = crate::bytes::add(inferred_base_offset, central_directory_offset)?;
    let raw_valid: bool = looks_like_central_header(reader, size, raw_offset)?;
    let inferred_valid: bool = looks_like_central_header(reader, size, inferred_offset)?;
    if raw_valid {
        return Ok(raw_offset);
    }
    if inferred_valid {
        return Ok(inferred_offset);
    }
    if inferred_offset <= size {
        return Ok(inferred_offset);
    }
    Err(Error::Format(FormatError::InvalidOffset))
}

} // verus!
