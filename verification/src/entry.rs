//! Central-directory entries: their metadata, path, and payload location.
use vstd::prelude::*;

use core::ops::Range;

use crate::archive::{spec_read_check, Archive};
use crate::bytes::{
    agrees, checked_sum, le16, le32, le_u16, le_u32, prefix_mut, range_len_usize,
    CENTRAL_HEADER_LEN, CENTRAL_HEADER_SIGNATURE, LOCAL_HEADER_LEN, LOCAL_HEADER_SIGNATURE,
    PATH_SCAN_CHUNK_LEN,
};
use crate::compression::{spec_data_kind, spec_from_raw, Compression, DataKind};
use crate::error::{Error, FormatError, Unsupported};
use crate::extra::{find_zip64_extra, spec_zip64_extra};
use crate::reader::Reader;

verus! {

/// General-purpose flag bit: the entry is encrypted.
pub const FLAG_ENCRYPTED: u16 = 0x0001;

/// General-purpose flag bit: strong encryption.
pub const FLAG_STRONG_ENCRYPTION: u16 = 0x0040;

/// General-purpose flag bit: path and comment are UTF-8.
pub const FLAG_UTF8: u16 = 0x0800;

/// General-purpose flag bit: local header fields are masked.
pub const FLAG_MASKED_HEADERS: u16 = 0x2000;

/// Whether `bit` is set in `flags`.
pub open spec fn has_flag(flags: u16, bit: u16) -> bool {
    flags & bit != 0
}

/// The fixed-size metadata of a central-directory entry.
pub struct EntryInfo {
    /// Absolute position of the path bytes in the archive.
    pub name_range: Range<u64>,
    /// Raw general-purpose bit flags.
    pub flags: u16,
    /// Compression method.
    pub compression: Compression,
    /// CRC-32 of the uncompressed data.
    pub crc32: u32,
    /// Compressed payload size in bytes.
    pub compressed_size: u64,
    /// Uncompressed payload size in bytes.
    pub uncompressed_size: u64,
    /// Local-header offset, relative to the archive's base offset.
    pub local_header_offset: u64,
}

/// Compressed size, uncompressed size and local-header offset of the header at
/// `h`: the 32-bit fields, except that a saturated field is replaced by the
/// value of the ZIP64 extra field stored at `extra_start`.
pub open spec fn spec_entry_sizes(s: Seq<u8>, h: int, extra_start: int, extra_len: int) -> Result<
    (u64, u64, u64),
    FormatError,
> {
    let raw_compressed = le32(s, h + 20);
    let raw_uncompressed = le32(s, h + 24);
    let raw_offset = le32(s, h + 42);
    if raw_compressed == u32::MAX || raw_uncompressed == u32::MAX || raw_offset == u32::MAX {
        if extra_len > 256 {
            Err(FormatError::InvalidRecord)
        } else {
            match spec_read_check(s, extra_start, extra_len) {
                Err(e) => Err(e),
                Ok(_) => match spec_zip64_extra(
                    s.subrange(extra_start, extra_start + extra_len),
                    raw_uncompressed == u32::MAX,
                    raw_compressed == u32::MAX,
                    raw_offset == u32::MAX,
                ) {
                    Err(e) => Err(e),
                    Ok(z) => Ok(
                        (
                            match z.compressed_size {
                                Some(v) => v,
                                None => raw_compressed as u64,
                            },
                            match z.uncompressed_size {
                                Some(v) => v,
                                None => raw_uncompressed as u64,
                            },
                            match z.local_header_offset {
                                Some(v) => v,
                                None => raw_offset as u64,
                            },
                        ),
                    ),
                },
            }
        }
    } else {
        Ok((raw_compressed as u64, raw_uncompressed as u64, raw_offset as u64))
    }
}

/// The entry whose central-directory header is at `h`, and the position of the
/// next header; the record must end no later than `end`.
pub open spec fn spec_parse_entry(s: Seq<u8>, h: u64, end: u64) -> Result<
    (EntryInfo, u64),
    FormatError,
> {
    match spec_read_check(s, h as int, CENTRAL_HEADER_LEN as int) {
        Err(e) => Err(e),
        Ok(_) => {
            let flags = le16(s, h + 8) as u16;
            let name_len = le16(s, h + 28);
            let extra_len = le16(s, h + 30);
            let comment_len = le16(s, h + 32);
            let next = h + CENTRAL_HEADER_LEN + name_len + extra_len + comment_len;
            let name_start = h + CENTRAL_HEADER_LEN;
            let name_end = name_start + name_len;
            if le32(s, h as int) != CENTRAL_HEADER_SIGNATURE {
                Err(FormatError::InvalidSignature)
            } else if has_flag(flags, FLAG_STRONG_ENCRYPTION) || has_flag(
                flags,
                FLAG_MASKED_HEADERS,
            ) {
                Err(FormatError::Unsupported(Unsupported::StrongEncryption))
            } else if next > u64::MAX {
                Err(FormatError::InvalidOffset)
            } else if next > end {
                Err(FormatError::Truncated)
            } else {
                match spec_entry_sizes(s, h as int, name_end, extra_len) {
                    Err(e) => Err(e),
                    Ok((compressed, uncompressed, local_offset)) => {
                        let method = le16(s, h + 10) as u16;
                        match spec_from_raw(method) {
                            None => Err(
                                FormatError::Unsupported(Unsupported::Compression(method)),
                            ),
                            Some(compression) => Ok(
                                (
                                    EntryInfo {
                                        name_range: Range {
                                            start: name_start as u64,
                                            end: name_end as u64,
                                        },
                                        flags,
                                        compression,
                                        crc32: le32(s, h + 16) as u32,
                                        compressed_size: compressed,
                                        uncompressed_size: uncompressed,
                                        local_header_offset: local_offset,
                                    },
                                    next as u64,
                                ),
                            ),
                        }
                    },
                }
            }
        },
    }
}

/// Index in `path` where the final `/`-separated component starts, scanning
/// back from position `i`: just after the last `/` before `i`, or 0.
pub open spec fn component_start_before(path: Seq<u8>, i: int) -> int
    decreases i,
{
    if i <= 0 {
        0
    } else if path[i - 1] == 0x2f {
        i
    } else {
        component_start_before(path, i - 1)
    }
}

/// The component start found scanning back from `i` lies in `0..=i`.
pub proof fn lemma_component_start_bounds(path: Seq<u8>, i: int)
    requires
        0 <= i,
    ensures
        0 <= component_start_before(path, i) <= i,
    decreases i,
{
    if i > 0 && path[i - 1] != 0x2f {
        lemma_component_start_bounds(path, i - 1);
    }
}

/// Index in `path` where its final `/`-separated component starts.
pub open spec fn file_name_start(path: Seq<u8>) -> int {
    component_start_before(path, path.len() as int)
}

/// The final `/`-separated component of `path`: the bytes after its last `/`,
/// or the whole path when it holds none.
pub open spec fn file_name_of(path: Seq<u8>) -> Seq<u8> {
    path.subrange(file_name_start(path), path.len() as int)
}

/// Absolute byte ranges describing an entry's local header and payload.
#[derive(Debug, PartialEq, Eq)]
pub struct DataRange {
    /// Full local-header area, from the local-header signature through the end
    /// of the local extra field.
    pub local_header_range: Range<u64>,
    /// File-name subrange inside the local header.
    pub local_name_range: Range<u64>,
    /// Extra-field subrange inside the local header.
    pub local_extra_range: Range<u64>,
    /// Payload byte range. The bytes are either stored or compressed depending
    /// on `kind`.
    pub data_range: Range<u64>,
    /// How to interpret the bytes in `data_range`.
    pub kind: DataKind,
}

impl Clone for DataRange {
    fn clone(&self) -> (r: Self)
        ensures
            r == *self,
    {
        DataRange {
            local_header_range: Range {
                start: self.local_header_range.start,
                end: self.local_header_range.end,
            },
            local_name_range: Range {
                start: self.local_name_range.start,
                end: self.local_name_range.end,
            },
            local_extra_range: Range {
                start: self.local_extra_range.start,
                end: self.local_extra_range.end,
            },
            data_range: Range { start: self.data_range.start, end: self.data_range.end },
            kind: self.kind,
        }
    }
}

/// The local header and payload ranges of the entry `info` in the archive `s`
/// whose offsets are relative to `base`.
pub open spec fn spec_data_range(s: Seq<u8>, base: u64, info: EntryInfo) -> Result<
    DataRange,
    FormatError,
> {
    if has_flag(info.flags, FLAG_ENCRYPTED) {
        Err(FormatError::Unsupported(Unsupported::StrongEncryption))
    } else {
        match checked_sum(base as int, info.local_header_offset as int) {
            Err(e) => Err(e),
            Ok(lho) => match spec_read_check(s, lho as int, LOCAL_HEADER_LEN as int) {
                Err(e) => Err(e),
                Ok(_) => {
                    let local_flags = le16(s, lho + 6) as u16;
                    let name_start = lho + LOCAL_HEADER_LEN;
                    let name_end = name_start + le16(s, lho + 26);
                    let extra_end = name_end + le16(s, lho + 28);
                    let data_end = extra_end + info.compressed_size;
                    if le32(s, lho as int) != LOCAL_HEADER_SIGNATURE {
                        Err(FormatError::InvalidSignature)
                    } else if has_flag(local_flags, FLAG_ENCRYPTED) {
                        Err(FormatError::Unsupported(Unsupported::StrongEncryption))
                    } else if has_flag(local_flags, FLAG_MASKED_HEADERS) {
                        Err(FormatError::Unsupported(Unsupported::MaskedLocalHeaders))
                    } else if data_end > u64::MAX {
                        Err(FormatError::InvalidOffset)
                    } else if data_end > s.len() {
                        Err(FormatError::Truncated)
                    } else {
                        Ok(
                            DataRange {
                                local_header_range: Range { start: lho, end: extra_end as u64 },
                                local_name_range: Range {
                                    start: name_start as u64,
                                    end: name_end as u64,
                                },
                                local_extra_range: Range {
                                    start: name_end as u64,
                                    end: extra_end as u64,
                                },
                                data_range: Range {
                                    start: extra_end as u64,
                                    end: data_end as u64,
                                },
                                kind: spec_data_kind(info.compression),
                            },
                        )
                    }
                },
            },
        }
    }
}

/// Problems with an entry's local header that are found before it is read: an
/// encrypted entry, a local-header position that overflows, or a local header
/// that does not fit in the archive. Otherwise its absolute position.
pub open spec fn spec_local_header_check(s: Seq<u8>, base: u64, info: EntryInfo) -> Result<
    u64,
    FormatError,
> {
    if has_flag(info.flags, FLAG_ENCRYPTED) {
        Err(FormatError::Unsupported(Unsupported::StrongEncryption))
    } else {
        match checked_sum(base as int, info.local_header_offset as int) {
            Err(e) => Err(e),
            Ok(lho) => match spec_read_check(s, lho as int, LOCAL_HEADER_LEN as int) {
                Err(e) => Err(e),
                Ok(_) => Ok(lho),
            },
        }
    }
}

/// The ranges of a resolved entry nest as the ZIP layout requires: the local
/// header is non-empty, its name and extra field follow one another inside it,
/// the payload follows it, has the entry's compressed size, and ends inside the
/// archive; the payload kind follows the compression method.
pub open spec fn data_range_is_coherent(d: DataRange, size: int, info: EntryInfo) -> bool {
    &&& d.local_header_range.start < d.local_header_range.end
    &&& d.local_header_range.start <= d.local_name_range.start
    &&& d.local_name_range.start <= d.local_name_range.end
    &&& d.local_name_range.end == d.local_extra_range.start
    &&& d.local_extra_range.start <= d.local_extra_range.end
    &&& d.local_extra_range.end == d.local_header_range.end
    &&& d.data_range.start == d.local_header_range.end
    &&& d.data_range.end - d.data_range.start == info.compressed_size
    &&& d.data_range.end <= size
    &&& d.kind == spec_data_kind(info.compression)
}

/// Parsed central-directory entry.
///
/// Variable-length fields remain in the underlying archive and can be read into
/// caller-provided buffers with the `read_*` methods.
pub struct Entry<'a, R: Reader> {
    archive: &'a Archive<R>,
    name_range: Range<u64>,
    flags: u16,
    compression: Compression,
    crc32: u32,
    compressed_size: u64,
    uncompressed_size: u64,
    local_header_offset: u64,
}

impl<'a, R: Reader> Entry<'a, R> {
    /// The archive the entry belongs to.
    pub closed spec fn archive(&self) -> &'a Archive<R> {
        self.archive
    }

    /// The fixed-size metadata of the entry.
    pub closed spec fn info(&self) -> EntryInfo {
        EntryInfo {
            name_range: self.name_range,
            flags: self.flags,
            compression: self.compression,
            crc32: self.crc32,
            compressed_size: self.compressed_size,
            uncompressed_size: self.uncompressed_size,
            local_header_offset: self.local_header_offset,
        }
    }

    /// The path bytes of the entry.
    pub open spec fn path(&self) -> Seq<u8> {
        self.archive().bytes().subrange(
            self.info().name_range.start as int,
            self.info().name_range.end as int,
        )
    }

    #[verifier::type_invariant]
    closed spec fn path_inside(self) -> bool {
        &&& self.name_range.start <= self.name_range.end <= self.archive.bytes().len()
        &&& self.name_range.end - self.name_range.start <= u16::MAX
    }

    /// The path of an entry lies inside its archive.
    pub(crate) fn path_range(&self) -> (r: Range<u64>)
        ensures
            r == self.info().name_range,
            r.start <= r.end <= self.archive().bytes().len(),
            r.end - r.start <= u16::MAX,
    {
        proof {
            use_type_invariant(self);
        }
        Range { start: self.name_range.start, end: self.name_range.end }
    }

    /// Parses the central-directory header at `header_offset`.
    pub(crate) fn parse(archive: &'a Archive<R>, header_offset: u64, end_offset: u64) -> (r:
        Result<(Self, u64), Error<R::Error>>)
        requires
            end_offset <= archive.bytes().len(),
        ensures
            spec_read_check(archive.bytes(), header_offset as int, CENTRAL_HEADER_LEN as int) matches Err(
                e,
            ) ==> r matches Err(Error::Format(x)) && x == e,
            match r {
                Ok((e, next)) => spec_parse_entry(archive.bytes(), header_offset, end_offset)
                    == Ok::<(EntryInfo, u64), FormatError>((e.info(), next)) && e.archive()
                    == archive,
                Err(Error::Format(fe)) => spec_parse_entry(
                    archive.bytes(),
                    header_offset,
                    end_offset,
                ) == Err::<(EntryInfo, u64), FormatError>(fe),
                Err(Error::Io(_)) => !archive.infallible(),
            },
    {
        let ghost s = archive.bytes();
        let mut header = [0u8; 46];
        archive.read_exact_at(header_offset, &mut header)?;
        let hd = header.as_slice();
        let ghost h = header_offset as int;
        assert(hd@ == s.subrange(h, h + 46));
        assert(le32(hd@, 0) == le32(s, h));
        assert(le16(hd@, 8) == le16(s, h + 8));
        assert(le16(hd@, 10) == le16(s, h + 10));
        assert(le32(hd@, 16) == le32(s, h + 16));
        assert(le32(hd@, 20) == le32(s, h + 20));
        assert(le32(hd@, 24) == le32(s, h + 24));
        assert(le16(hd@, 28) == le16(s, h + 28));
        assert(le16(hd@, 30) == le16(s, h + 30));
        assert(le16(hd@, 32) == le16(s, h + 32));
        assert(le32(hd@, 42) == le32(s, h + 42));
        if le_u32(hd, 0) != CENTRAL_HEADER_SIGNATURE {
            return Err(Error::Format(FormatError::InvalidSignature));
        }
        let flags: u16 = le_u16(hd, 8);
        if flags & FLAG_STRONG_ENCRYPTION != 0 || flags & FLAG_MASKED_HEADERS != 0 {
            return Err(Error::Format(FormatError::Unsupported(Unsupported::StrongEncryption)));
        }
        let name_len: u64 = le_u16(hd, 28) as u64;
        let extra_len: u64 = le_u16(hd, 30) as u64;
        let comment_len: u64 = le_u16(hd, 32) as u64;
        let record_len: u64 = match crate::bytes::central_record_len(
            name_len,
            extra_len,
            comment_len,
        ) {
            Some(v) => v,
            None => {
                return Err(Error::Format(FormatError::InvalidOffset));
            },
        };
        let next_offset: u64 = crate::bytes::add(header_offset, record_len)?;
        if next_offset > end_offset {
            return Err(Error::Format(FormatError::Truncated));
        }
        let name_start: u64 = header_offset + CENTRAL_HEADER_LEN;
        let name_end: u64 = name_start + name_len;
        let extra_start: u64 = name_end;
        let raw_compressed_size: u32 = le_u32(hd, 20);
        let raw_uncompressed_size: u32 = le_u32(hd, 24);
        let raw_local_offset: u32 = le_u32(hd, 42);
        let mut compressed_size: u64 = raw_compressed_size as u64;
        let mut uncompressed_size: u64 = raw_uncompressed_size as u64;
        let mut local_header_offset: u64 = raw_local_offset as u64;
        if raw_compressed_size == u32::MAX || raw_uncompressed_size == u32::MAX || raw_local_offset
            == u32::MAX {
            if extra_len > 256 {
                return Err(Error::Format(FormatError::InvalidRecord));
            }
            let mut scratch = [0u8; 256];
            let field = prefix_mut(&mut scratch, extra_len as usize);
            archive.read_exact_at(extra_start, field)?;
            let zip64 = find_zip64_extra(
                field,
                raw_uncompressed_size == u32::MAX,
                raw_compressed_size == u32::MAX,
                raw_local_offset == u32::MAX,
            )?;
            if let Some(size) = zip64.uncompressed_size {
                uncompressed_size = size;
            }
            if let Some(size) = zip64.compressed_size {
                compressed_size = size;
            }
            if let Some(offset) = zip64.local_header_offset {
                local_header_offset = offset;
            }
        }
        assert(spec_entry_sizes(s, h, extra_start as int, extra_len as int) == Ok::<
            (u64, u64, u64),
            FormatError,
        >((compressed_size, uncompressed_size, local_header_offset)));
        let compression_method: u16 = le_u16(hd, 10);
        let compression = match Compression::from_raw(compression_method) {
            Some(c) => c,
            None => {
                return Err(
                    Error::Format(
                        FormatError::Unsupported(Unsupported::Compression(compression_method)),
                    ),
                );
            },
        };
        let entry = Entry {
            archive,
            name_range: Range { start: name_start, end: name_end },
            flags,
            compression,
            crc32: le_u32(hd, 16),
            compressed_size,
            uncompressed_size,
            local_header_offset,
        };
        Ok((entry, next_offset))
    }

    /// Returns the raw general-purpose bit flags from the central directory.
    pub fn flags(&self) -> (r: u16)
        ensures
            r == self.info().flags,
    {
        self.flags
    }

    /// Returns the compression method reported by the central directory.
    pub fn compression(&self) -> (r: Compression)
        ensures
            r == self.info().compression,
    {
        self.compression
    }

    /// Returns the CRC-32 reported by the central directory.
    pub fn crc32(&self) -> (r: u32)
        ensures
            r == self.info().crc32,
    {
        self.crc32
    }

    /// Returns the compressed payload size in bytes.
    pub fn compressed_size(&self) -> (r: u64)
        ensures
            r == self.info().compressed_size,
    {
        self.compressed_size
    }

    /// Returns the uncompressed payload size in bytes.
    pub fn uncompressed_size(&self) -> (r: u64)
        ensures
            r == self.info().uncompressed_size,
    {
        self.uncompressed_size
    }

    /// Returns whether the central-directory general-purpose bit flag declares
    /// the entry path to be UTF-8 encoded.
    ///
    /// The result comes from bit 11 of the central-directory general-purpose
    /// flag. It does not inspect or validate the path bytes themselves.
    pub fn path_is_utf8(&self) -> (r: bool)
        ensures
            r == has_flag(self.info().flags, FLAG_UTF8),
    {
        self.flags & FLAG_UTF8 != 0
    }

    /// Reads the central-directory path bytes into `buf`.
    ///
    /// ZIP stores a single byte string here rather than a structured path. It
    /// may be just a bare file name, a `/`-separated nested path, or a
    /// directory marker ending in `/`. `buf` must be large enough to hold the
    /// full stored path; the returned slice borrows `buf` and is exactly the
    /// bytes read from the archive.
    pub fn read_path<'b>(&self, buf: &'b mut [u8]) -> (r: Result<&'b [u8], Error<R::Error>>)
        ensures
            match r {
                Ok(out) => out@ == self.path() && final(buf)@ == out@ + old(buf)@.skip(
                    out@.len() as int,
                ),
                Err(Error::Format(e)) => e == FormatError::InvalidOffset && old(buf)@.len()
                    < self.path().len() && final(buf)@ == old(buf)@,
                Err(Error::Io(_)) => !self.archive().infallible(),
            },
            old(buf)@.len() < self.path().len() ==> r == Err::<&'b [u8], Error<R::Error>>(
                Error::Format(FormatError::InvalidOffset),
            ),
    {
        let range = self.path_range();
        read_variable_range(self.archive, range, buf)
    }

    /// Returns whether the final `/`-separated component of the entry path
    /// equals `file_name`.
    ///
    /// This compares raw bytes only. It does not decode text, normalize path
    /// separators, or resolve `.` / `..`. The method reads only the path bytes
    /// needed to locate and compare the last component.
    pub fn filename_is(&self, file_name: &[u8]) -> (r: Result<bool, Error<R::Error>>)
        ensures
            match r {
                Ok(b) => b == (file_name_of(self.path()) == file_name@),
                Err(Error::Format(_)) => false,
                Err(Error::Io(_)) => !self.archive().infallible(),
            },
    {
        let ghost path = self.path();
        let range = self.path_range();
        let path_end: u64 = range.end;
        let component_start: u64 = find_path_file_name_start(self.archive, range)?;
        let ghost comp = file_name_of(path);
        let component_len: u64 = path_end - component_start;
        let ghost s = self.archive().bytes();
        assert(comp =~= s.subrange(component_start as int, path_end as int));
        let n: usize = file_name.len();
        if component_len != n as u64 {
            return Ok(false);
        }
        let mut scratch = [0u8; 64];
        let mut compared: usize = 0;
        while compared < n
            invariant
                compared <= n,
                n == file_name@.len(),
                n == component_len,
                component_start + component_len == path_end,
                path_end <= s.len(),
                s == self.archive().bytes(),
                comp == s.subrange(component_start as int, path_end as int),
                comp == file_name_of(self.path()),
                forall|k: int| 0 <= k < compared ==> comp[k] == file_name@[k],
            decreases n - compared,
        {
            let chunk_len: usize = if n - compared < PATH_SCAN_CHUNK_LEN {
                n - compared
            } else {
                PATH_SCAN_CHUNK_LEN
            };
            let chunk_offset: u64 = component_start + compared as u64;
            let chunk = prefix_mut(&mut scratch, chunk_len);
            self.archive.read_exact_at(chunk_offset, chunk)?;
            let mut j: usize = 0;
            while j < chunk_len
                invariant
                    j <= chunk_len,
                    compared + chunk_len <= n,
                    chunk@.len() == chunk_len,
                    n == file_name@.len(),
                    chunk@ == s.subrange(chunk_offset as int, chunk_offset + chunk_len),
                    chunk_offset == component_start + compared,
                    comp == s.subrange(component_start as int, path_end as int),
                    comp == file_name_of(self.path()),
                    path_end <= s.len(),
                    component_start + n == path_end,
                    forall|k: int| 0 <= k < compared + j ==> comp[k] == file_name@[k],
                decreases chunk_len - j,
            {
                assert(comp[compared + j] == chunk@[j as int]);
                if chunk[j] != file_name[compared + j] {
                    return Ok(false);
                }
                j = j + 1;
            }
            compared = compared + chunk_len;
        }
        assert(comp =~= file_name@);
        Ok(true)
    }

    /// Resolves the local-header and payload ranges for this entry.
    ///
    /// This performs an extra local-header read. It does not decompress data;
    /// it only reports where the stored or compressed bytes live in the
    /// archive.
    pub fn data_range(&self) -> (r: Result<DataRange, Error<R::Error>>)
        ensures
            spec_local_header_check(
                self.archive().bytes(),
                self.archive().layout().base_offset,
                self.info(),
            ) matches Err(e) ==> r matches Err(Error::Format(x)) && x == e,
            agrees(
                r,
                spec_data_range(
                    self.archive().bytes(),
                    self.archive().layout().base_offset,
                    self.info(),
                ),
                self.archive().infallible(),
            ),
            r matches Ok(d) ==> data_range_is_coherent(
                d,
                self.archive().bytes().len() as int,
                self.info(),
            ),
    {
        let ghost s = self.archive().bytes();
        if self.flags & FLAG_ENCRYPTED != 0 {
            return Err(Error::Format(FormatError::Unsupported(Unsupported::StrongEncryption)));
        }
        let local_header_offset: u64 = self.archive.absolute_local_offset(
            self.local_header_offset,
        )?;
        let mut header = [0u8; 30];
        self.archive.read_exact_at(local_header_offset, &mut header)?;
        let hd = header.as_slice();
        let ghost h = local_header_offset as int;
        assert(hd@ == s.subrange(h, h + 30));
        assert(le32(hd@, 0) == le32(s, h));
        assert(le16(hd@, 6) == le16(s, h + 6));
        assert(le16(hd@, 26) == le16(s, h + 26));
        assert(le16(hd@, 28) == le16(s, h + 28));
        if le_u32(hd, 0) != LOCAL_HEADER_SIGNATURE {
            return Err(Error::Format(FormatError::InvalidSignature));
        }
        let local_flags: u16 = le_u16(hd, 6);
        if local_flags & FLAG_ENCRYPTED != 0 {
            return Err(Error::Format(FormatError::Unsupported(Unsupported::StrongEncryption)));
        }
        if local_flags & FLAG_MASKED_HEADERS != 0 {
            return Err(Error::Format(FormatError::Unsupported(Unsupported::MaskedLocalHeaders)));
        }
        let local_name_len: u64 = le_u16(hd, 26) as u64;
        let local_extra_len: u64 = le_u16(hd, 28) as u64;
        let name_start: u64 = local_header_offset + LOCAL_HEADER_LEN;
        let name_end: u64 = crate::bytes::add(name_start, local_name_len)?;
        let data_start: u64 = crate::bytes::add(name_end, local_extra_len)?;
        let data_end: u64 = crate::bytes::add(data_start, self.compressed_size)?;
        if data_end > self.archive.size() {
            return Err(Error::Format(FormatError::Truncated));
        }
        let kind = match self.compression {
            Compression::Stored => DataKind::Stored,
            other => DataKind::Compressed(other),
        };
        Ok(
            DataRange {
                local_header_range: Range { start: local_header_offset, end: data_start },
                local_name_range: Range { start: name_start, end: name_end },
                local_extra_range: Range { start: name_end, end: data_start },
                data_range: Range { start: data_start, end: data_end },
                kind,
            },
        )
    }

    /// Returns a reader over this entry's payload bytes.
    ///
    /// The reader yields the raw stored or compressed bytes of the payload;
    /// decompression is the caller's responsibility.
    pub fn reader(&self) -> (r: Result<EntryReader<'a, R>, Error<R::Error>>)
        ensures
            spec_local_header_check(
                self.archive().bytes(),
                self.archive().layout().base_offset,
                self.info(),
            ) matches Err(e) ==> r matches Err(Error::Format(x)) && x == e,
            match r {
                Ok(rd) => {
                    &&& rd.archive() == self.archive()
                    &&& spec_data_range(
                        self.archive().bytes(),
                        self.archive().layout().base_offset,
                        self.info(),
                    ) matches Ok(d)
                    &&& rd.position() == d.data_range.start
                    &&& rd.end() == d.data_range.end
                },
                Err(Error::Format(e)) => spec_data_range(
                    self.archive().bytes(),
                    self.archive().layout().base_offset,
                    self.info(),
                ) == Err::<DataRange, FormatError>(e),
                Err(Error::Io(_)) => !self.archive().infallible(),
            },
    {
        let range = self.data_range()?;
        Ok(EntryReader { archive: self.archive, pos: range.data_range.start, end: range.data_range.end })
    }
}

/// One successful read of a payload in `s` that ends at `end`: from position
/// `before`, with a buffer of `buf_len` bytes, it hands back `chunk`, the next
/// `min(buf_len, end - before)` bytes, and moves to `after`.
pub open spec fn read_step_ok(
    s: Seq<u8>,
    end: int,
    before: int,
    buf_len: int,
    chunk: Seq<u8>,
    after: int,
) -> bool {
    &&& chunk.len() == (if buf_len < end - before {
        buf_len
    } else {
        end - before
    })
    &&& after == before + chunk.len()
    &&& chunk == s.subrange(before, after)
}

/// A reader over an entry's payload bytes.
///
/// Created by [`Entry::reader`]. Each call of [`read`](EntryReader::read)
/// performs one positioned read on the underlying archive, so the reader is not
/// buffered.
pub struct EntryReader<'a, R: Reader> {
    archive: &'a Archive<R>,
    pos: u64,
    end: u64,
}

impl<'a, R: Reader> EntryReader<'a, R> {
    /// The archive the payload is read from.
    pub closed spec fn archive(&self) -> &'a Archive<R> {
        self.archive
    }

    /// Absolute position of the next byte to read.
    pub closed spec fn position(&self) -> u64 {
        self.pos
    }

    /// Absolute position where the payload ends.
    pub closed spec fn end(&self) -> u64 {
        self.end
    }

    #[verifier::type_invariant]
    closed spec fn within(self) -> bool {
        self.pos <= self.end <= self.archive.bytes().len()
    }

    /// Copies the next payload bytes into the front of `buf` and returns how
    /// many were copied: as many as fit, up to the end of the payload, so `0`
    /// only once the payload is exhausted or `buf` is empty.
    pub fn read(&mut self, buf: &mut [u8]) -> (r: Result<usize, R::Error>)
        ensures
            final(self).archive() == old(self).archive(),
            final(self).end() == old(self).end(),
            final(buf)@.len() == old(buf)@.len(),
            r matches Ok(n) ==> read_step_ok(
                old(self).archive().bytes(),
                old(self).end() as int,
                old(self).position() as int,
                old(buf)@.len() as int,
                final(buf)@.subrange(0, n as int),
                final(self).position() as int,
            ),
            match r {
                Ok(n) => {
                    &&& n == (if old(buf)@.len() < old(self).end() - old(self).position() {
                        old(buf)@.len() as int
                    } else {
                        old(self).end() - old(self).position()
                    })
                    &&& final(self).position() == old(self).position() + n
                    &&& final(buf)@.subrange(0, n as int) == old(self).archive().bytes().subrange(
                        old(self).position() as int,
                        old(self).position() + n,
                    )
                    &&& final(buf)@.subrange(n as int, old(buf)@.len() as int) == old(
                        buf,
                    )@.subrange(n as int, old(buf)@.len() as int)
                },
                Err(_) => {
                    &&& !old(self).archive().infallible()
                    &&& final(self).position() == old(self).position()
                    &&& old(self).position() < old(self).end()
                    &&& old(buf)@.len() > 0
                },
            },
            old(self).position() == old(self).end() || old(buf)@.len() == 0 ==> r == Ok::<
                usize,
                R::Error,
            >(0) && final(buf)@ == old(buf)@,
    {
        proof {
            use_type_invariant(&*self);
        }
        let remaining: u64 = self.end - self.pos;
        let n: usize = buf.len();
        let to_read: usize = if (n as u64) < remaining {
            n
        } else {
            remaining as usize
        };
        if to_read == 0 {
            assert(buf@.subrange(0, 0) =~= Seq::<u8>::empty());
            assert(self.archive.bytes().subrange(self.pos as int, self.pos as int) =~= Seq::<
                u8,
            >::empty());
            return Ok(0);
        }
        let ghost before = buf@;
        let chunk = prefix_mut(buf, to_read);
        match self.archive.reader_read_exact_at(self.pos, chunk) {
            Ok(()) => {},
            Err(e) => {
                return Err(e);
            },
        }
        assert(buf@.subrange(0, to_read as int) =~= chunk@);
        assert(buf@.subrange(to_read as int, n as int) =~= before.subrange(to_read as int, n as int));
        self.pos = self.pos + to_read as u64;
        Ok(to_read)
    }
}

/// Reads the bytes of `range` into the front of `buf`.
fn read_variable_range<'b, R: Reader>(
    archive: &Archive<R>,
    range: Range<u64>,
    buf: &'b mut [u8],
) -> (r: Result<&'b [u8], Error<R::Error>>)
    requires
        range.start <= range.end <= archive.bytes().len(),
        range.end - range.start <= u16::MAX,
    ensures
        match r {
            Ok(out) => out@ == archive.bytes().subrange(range.start as int, range.end as int)
                && final(buf)@ == out@ + old(buf)@.skip(out@.len() as int),
            Err(Error::Format(e)) => e == FormatError::InvalidOffset && old(buf)@.len()
                < range.end - range.start && final(buf)@ == old(buf)@,
            Err(Error::Io(_)) => !archive.infallible(),
        },
        old(buf)@.len() < range.end - range.start ==> r == Err::<&'b [u8], Error<R::Error>>(
            Error::Format(FormatError::InvalidOffset),
        ),
{
    let len: usize = range_len_usize(&range)?;
    if buf.len() < len {
        return Err(Error::Format(FormatError::InvalidOffset));
    }
    let out = prefix_mut(buf, len);
    archive.read_exact_at(range.start, out)?;
    Ok(out)
}

/// Absolute position where the final `/`-separated component of the path
/// stored in `path_range` starts. The path is scanned backwards in small
/// chunks, so only the bytes after the last `/` and one chunk are read.
fn find_path_file_name_start<R: Reader>(archive: &Archive<R>, path_range: Range<u64>) -> (r: Result<
    u64,
    Error<R::Error>,
>)
    requires
        path_range.start <= path_range.end <= archive.bytes().len(),
    ensures
        match r {
            Ok(p) => path_range.start <= p <= path_range.end && p == path_range.start + file_name_start(
                archive.bytes().subrange(path_range.start as int, path_range.end as int),
            ),
            Err(Error::Format(_)) => false,
            Err(Error::Io(_)) => !archive.infallible(),
        },
{
    let ghost s = archive.bytes();
    let ghost path = s.subrange(path_range.start as int, path_range.end as int);
    proof {
        lemma_component_start_bounds(path, path.len() as int);
    }
    let start: u64 = path_range.start;
    let mut cursor: u64 = path_range.end;
    let mut scratch = [0u8; 64];
    while cursor > start
        invariant
            start <= cursor <= path_range.end <= s.len(),
            start == path_range.start,
            s == archive.bytes(),
            path == s.subrange(start as int, path_range.end as int),
            file_name_start(path) == component_start_before(path, cursor - start),
        decreases cursor - start,
    {
        let remaining: u64 = cursor - start;
        let chunk_len_u64: u64 = if remaining < PATH_SCAN_CHUNK_LEN as u64 {
            remaining
        } else {
            PATH_SCAN_CHUNK_LEN as u64
        };
        let chunk_len: usize = chunk_len_u64 as usize;
        let chunk_start: u64 = cursor - chunk_len_u64;
        let chunk = prefix_mut(&mut scratch, chunk_len);
        archive.read_exact_at(chunk_start, chunk)?;
        let mut j: usize = chunk_len;
        while j > 0
            invariant
                j <= chunk_len,
                chunk@.len() == chunk_len,
                chunk_start + chunk_len == cursor,
                start <= chunk_start,
                cursor <= path_range.end,
                path_range.end <= s.len(),
                start == path_range.start,
                s == archive.bytes(),
                chunk@ == s.subrange(chunk_start as int, cursor as int),
                path == s.subrange(start as int, path_range.end as int),
                file_name_start(path) == component_start_before(path, chunk_start - start + j),
            decreases j,
        {
            j = j - 1;
            assert(chunk@[j as int] == path[chunk_start - start + j]);
            if chunk[j] == 0x2f {
                return Ok(chunk_start + j as u64 + 1);
            }
        }
        cursor = chunk_start;
    }
    Ok(start)
}

} // verus!
