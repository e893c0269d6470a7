//! Opening an archive: the layout of its central directory.
use vstd::prelude::*;

use crate::bytes::{agrees, checked_sum, CENTRAL_HEADER_LEN, EOCD_LEN};
use crate::error::{Error, FormatError};
use crate::locate::{
    ensure_single_disk, find_eocd, is_eocd_at, last_eocd, parse_zip64_metadata,
    resolve_central_directory_offset, spec_find_eocd, spec_needs_zip64,
    spec_resolve_central_directory_offset, spec_single_disk, spec_zip64_metadata, Eocd,
};
use crate::entry::{spec_parse_entry, Entry, EntryInfo};
use crate::reader::Reader;

verus! {

/// The fixed-size metadata kept by an open archive.
pub struct ArchiveLayout {
    /// Total archive size in bytes.
    pub size: u64,
    /// Number of bytes that precede the archive proper (a prefix such as a
    /// self-extractor stub); every offset stored in the archive is relative to it.
    pub base_offset: u64,
    /// Absolute position where the central directory must end: the EOCD record,
    /// or the ZIP64 EOCD record when there is one.
    pub directory_end_offset: u64,
    /// Central-directory offset as stored in the archive.
    pub central_directory_offset: u64,
    /// Number of entries reported by the central directory.
    pub entry_count: u64,
}

/// Entry count, central-directory size, central-directory offset, and the
/// position where the directory must end, read from the EOCD record or, when
/// it defers to them, from the ZIP64 records.
pub open spec fn spec_directory(s: Seq<u8>, eocd_offset: u64, eocd: Eocd) -> Result<
    (u64, u64, u64, u64),
    FormatError,
> {
    if spec_needs_zip64(eocd) {
        match spec_zip64_metadata(s, eocd_offset as int) {
            Err(e) => Err(e),
            Ok(z) => match spec_single_disk(z.disk_number, z.central_directory_disk) {
                Err(e) => Err(e),
                Ok(_) => Ok(
                    (
                        z.entry_count,
                        z.central_directory_size,
                        z.central_directory_offset,
                        z.record_offset,
                    ),
                ),
            },
        }
    } else {
        Ok(
            (
                eocd.entry_count as u64,
                eocd.central_directory_size as u64,
                eocd.central_directory_offset as u64,
                eocd_offset,
            ),
        )
    }
}

/// The layout of an archive whose EOCD record is at `eocd_offset` and whose
/// directory has the given count, size, stored offset and end.
pub open spec fn spec_layout(
    s: Seq<u8>,
    eocd_offset: u64,
    entry_count: u64,
    central_directory_size: u64,
    central_directory_offset: u64,
    payload_end: u64,
) -> Result<ArchiveLayout, FormatError> {
    let used = central_directory_offset + central_directory_size;
    if used > u64::MAX || payload_end < used {
        Err(FormatError::InvalidOffset)
    } else {
        match spec_resolve_central_directory_offset(
            s,
            central_directory_offset as int,
            payload_end - used,
        ) {
            Err(e) => Err(e),
            Ok(absolute) => {
                if absolute < central_directory_offset || absolute + central_directory_size
                    > u64::MAX {
                    Err(FormatError::InvalidOffset)
                } else if absolute + central_directory_size > eocd_offset || eocd_offset
                    + EOCD_LEN > s.len() {
                    Err(FormatError::InvalidOffset)
                } else if entry_count == 0 && central_directory_size == 0
                    && central_directory_offset == 0 && eocd_offset != 0 {
                    Err(FormatError::InvalidOffset)
                } else {
                    Ok(
                        ArchiveLayout {
                            size: s.len() as u64,
                            base_offset: (absolute - central_directory_offset) as u64,
                            directory_end_offset: payload_end,
                            central_directory_offset,
                            entry_count,
                        },
                    )
                }
            },
        }
    }
}

/// What opening the archive `s` gives: its layout, or the first structural
/// problem met while locating the EOCD, the ZIP64 records and the central
/// directory.
pub open spec fn spec_open(s: Seq<u8>) -> Result<ArchiveLayout, FormatError> {
    match spec_find_eocd(s) {
        Err(e) => Err(e),
        Ok((eocd_offset, eocd)) => match spec_single_disk(
            eocd.disk_number as u32,
            eocd.central_directory_disk as u32,
        ) {
            Err(e) => Err(e),
            Ok(_) => match spec_directory(s, eocd_offset, eocd) {
                Err(e) => Err(e),
                Ok((count, dir_size, dir_offset, payload_end)) => spec_layout(
                    s,
                    eocd_offset,
                    count,
                    dir_size,
                    dir_offset,
                    payload_end,
                ),
            },
        },
    }
}

/// Model of a bounds-checked read of `len` bytes at `pos`.
pub open spec fn spec_read_check(s: Seq<u8>, pos: int, len: int) -> Result<(), FormatError> {
    if pos + len > u64::MAX {
        Err(FormatError::InvalidOffset)
    } else if pos + len > s.len() {
        Err(FormatError::Truncated)
    } else {
        Ok(())
    }
}

/// The EOCD position found in `lo..=pos` holds an EOCD record, and no later
/// position up to `pos` does.
pub proof fn lemma_last_eocd(s: Seq<u8>, lo: int, pos: int)
    ensures
        last_eocd(s, lo, pos) matches Some(p) ==> lo <= p <= pos && is_eocd_at(s, p) && forall|
            q: int,
        |
            p < q <= pos ==> !is_eocd_at(s, q),
        last_eocd(s, lo, pos) is None ==> forall|q: int| lo <= q <= pos ==> !is_eocd_at(s, q),
    decreases pos - lo + 1,
{
    if pos >= lo && !is_eocd_at(s, pos) {
        lemma_last_eocd(s, lo, pos - 1);
    }
}

/// The positions recorded by a successful open lie inside the archive: the
/// central directory starts at `base_offset + central_directory_offset`, ends
/// no later than `directory_end_offset`, which lies before the archive end.
pub proof fn lemma_open_bounds(s: Seq<u8>)
    ensures
        spec_open(s) matches Ok(l) ==> {
            &&& l.base_offset + l.central_directory_offset <= l.directory_end_offset
            &&& l.directory_end_offset <= s.len()
        },
{
    if let Ok((eocd_offset, eocd)) = spec_find_eocd(s) {
        lemma_last_eocd(s, crate::locate::eocd_window_start(s), s.len() - EOCD_LEN);
    }
}

/// Open ZIP archive backed by a random-access reader.
///
/// The archive stores only fixed-size metadata. Entry records and local headers
/// are re-read on demand.
pub struct Archive<R: Reader> {
    reader: R,
    size: u64,
    base_offset: u64,
    directory_end_offset: u64,
    central_directory_offset: u64,
    entry_count: u64,
}

impl<R: Reader> Archive<R> {
    /// The bytes of the archive.
    pub closed spec fn bytes(&self) -> Seq<u8> {
        self.reader.contents()
    }

    /// Whether the underlying reader never fails inside the archive.
    pub closed spec fn infallible(&self) -> bool {
        self.reader.infallible()
    }

    /// The fixed-size metadata of the archive.
    pub closed spec fn layout(&self) -> ArchiveLayout {
        ArchiveLayout {
            size: self.size,
            base_offset: self.base_offset,
            directory_end_offset: self.directory_end_offset,
            central_directory_offset: self.central_directory_offset,
            entry_count: self.entry_count,
        }
    }

    #[verifier::type_invariant]
    closed spec fn opened(self) -> bool {
        &&& spec_open(self.reader.contents()) == Ok::<ArchiveLayout, FormatError>(self.layout())
        &&& self.size == self.reader.contents().len()
    }

    /// Opens an archive by locating EOCD, resolving ZIP64 metadata, and
    /// validating the central directory layout.
    ///
    /// The parser accepts prefixed archives and trailing junk, but rejects
    /// multi-disk archives and several unsupported encrypted forms.
    pub fn open(reader: R) -> (r: Result<Self, Error<R::Error>>)
        ensures
            match r {
                Ok(a) => a.bytes() == reader.contents() && a.infallible() == reader.infallible()
                    && a.layout().size == reader.contents().len()
                    && spec_open(reader.contents()) == Ok::<ArchiveLayout, FormatError>(
                    a.layout(),
                ),
                Err(Error::Format(e)) => spec_open(reader.contents()) == Err::<
                    ArchiveLayout,
                    FormatError,
                >(e),
                Err(Error::Io(_)) => !reader.infallible(),
            },
    {
        let ghost s = reader.contents();
        let size: u64 = match reader.size() {
            Ok(n) => n,
            Err(e) => {
                return Err(Error::Io(e));
            },
        };
        let (eocd_offset, eocd) = find_eocd(&reader, size)?;
        proof {
            lemma_last_eocd(s, crate::locate::eocd_window_start(s), s.len() - EOCD_LEN);
        }
        assert(eocd_offset + EOCD_LEN <= size);
        ensure_single_disk(eocd.disk_number as u32, eocd.central_directory_disk as u32)?;
        let (entry_count, central_directory_size, central_directory_offset, payload_end) =
            if eocd.needs_zip64() {
            let zip64 = parse_zip64_metadata(&reader, size, eocd_offset)?;
            ensure_single_disk(zip64.disk_number, zip64.central_directory_disk)?;
            (
                zip64.entry_count,
                zip64.central_directory_size,
                zip64.central_directory_offset,
                zip64.record_offset,
            )
        } else {
            (
                eocd.entry_count as u64,
                eocd.central_directory_size as u64,
                eocd.central_directory_offset as u64,
                eocd_offset,
            )
        };
        assert(spec_directory(s, eocd_offset, eocd) == Ok::<(u64, u64, u64, u64), FormatError>(
            (entry_count, central_directory_size, central_directory_offset, payload_end),
        ));
        let used: u64 = crate::bytes::add(central_directory_offset, central_directory_size)?;
        if payload_end < used {
            return Err(Error::Format(FormatError::InvalidOffset));
        }
        let inferred_base_offset: u64 = payload_end - used;
        let absolute_cd_offset: u64 = resolve_central_directory_offset(
            &reader,
            size,
            central_directory_offset,
            inferred_base_offset,
        )?;
        if absolute_cd_offset < central_directory_offset {
            return Err(Error::Format(FormatError::InvalidOffset));
        }
        let base_offset: u64 = absolute_cd_offset - central_directory_offset;
        let absolute_cd_end: u64 = crate::bytes::add(absolute_cd_offset, central_directory_size)?;
        if absolute_cd_end > eocd_offset || eocd_offset + EOCD_LEN > size {
            return Err(Error::Format(FormatError::InvalidOffset));
        }
        if entry_count == 0 && central_directory_size == 0 && central_directory_offset == 0
            && eocd_offset != 0 {
            return Err(Error::Format(FormatError::InvalidOffset));
        }
        Ok(
            Archive {
                reader,
                size,
                base_offset,
                directory_end_offset: payload_end,
                central_directory_offset,
                entry_count,
            },
        )
    }

    /// Returns the total archive size in bytes.
    pub fn size(&self) -> (r: u64)
        ensures
            r == self.layout().size,
            r == self.bytes().len(),
    {
        proof {
            use_type_invariant(self);
        }
        self.size
    }

    /// Returns the number of entries reported by the authoritative central
    /// directory.
    pub fn entry_count(&self) -> (r: u64)
        ensures
            r == self.layout().entry_count,
    {
        self.entry_count
    }

    /// Absolute position of the first central-directory header.
    pub(crate) fn absolute_central_directory_offset(&self) -> (r: u64)
        ensures
            r == self.layout().base_offset + self.layout().central_directory_offset,
    {
        proof {
            use_type_invariant(self);
            lemma_open_bounds(self.reader.contents());
        }
        self.base_offset + self.central_directory_offset
    }

    /// Absolute position of a local header whose stored offset is `local_offset`.
    pub(crate) fn absolute_local_offset(&self, local_offset: u64) -> (r: Result<
        u64,
        Error<R::Error>,
    >)
        ensures
            agrees(r, checked_sum(self.layout().base_offset as int, local_offset as int), true),
    {
        crate::bytes::add(self.base_offset, local_offset)
    }

    /// Fills `buf` from the absolute position `pos` with the underlying reader.
    pub(crate) fn reader_read_exact_at(&self, pos: u64, buf: &mut [u8]) -> (r: Result<
        (),
        R::Error,
    >)
        requires
            pos + old(buf)@.len() <= self.bytes().len(),
        ensures
            final(buf)@.len() == old(buf)@.len(),
            r is Ok ==> pos + old(buf)@.len() <= self.bytes().len() && final(buf)@
                == self.bytes().subrange(pos as int, pos + old(buf)@.len()),
            self.infallible() && pos + old(buf)@.len() <= self.bytes().len() ==> r is Ok,
    {
        self.reader.read_exact_at(pos, buf)
    }

    /// Fills `buf` from the absolute position `pos`, rejecting ranges that do not
    /// lie inside the archive before the reader is asked.
    pub(crate) fn read_exact_at(&self, pos: u64, buf: &mut [u8]) -> (r: Result<
        (),
        Error<R::Error>,
    >)
        ensures
            final(buf)@.len() == old(buf)@.len(),
            agrees(r, spec_read_check(self.bytes(), pos as int, old(buf)@.len() as int), self.infallible()),
            spec_read_check(self.bytes(), pos as int, old(buf)@.len() as int) matches Err(e) ==> r
                == Err::<(), Error<R::Error>>(Error::Format(e)) && final(buf)@ == old(buf)@,
            r is Ok ==> final(buf)@ == self.bytes().subrange(pos as int, pos + old(buf)@.len()),
    {
        proof {
            use_type_invariant(self);
        }
        let len: u64 = buf.len() as u64;
        let end: u64 = crate::bytes::add(pos, len)?;
        if end > self.size {
            return Err(Error::Format(FormatError::Truncated));
        }
        match self.reader.read_exact_at(pos, buf) {
            Ok(()) => Ok(()),
            Err(e) => Err(Error::Io(e)),
        }
    }

    /// Returns a forward-only iterator over central-directory entries.
    ///
    /// The iterator performs no allocation and stops permanently after the
    /// first parse error.
    pub fn entries(&self) -> (r: Entries<'_, R>)
        ensures
            r.archive() == self,
            r.state() == (EntriesState {
                next_offset: (self.layout().base_offset + self.layout().central_directory_offset) as u64,
                remaining: self.layout().entry_count,
            }),
    {
        proof {
            use_type_invariant(self);
            lemma_open_bounds(self.reader.contents());
        }
        Entries {
            archive: self,
            next_offset: self.absolute_central_directory_offset(),
            remaining: self.entry_count,
            end_offset: self.directory_end_offset,
        }
    }
}

/// Position of the next central-directory header and number of entries still
/// to be read.
pub struct EntriesState {
    pub next_offset: u64,
    pub remaining: u64,
}

/// One step of entry iteration over the archive bytes `s` whose directory ends
/// at `end`: nothing once no entry remains; otherwise the entry parsed at the
/// current position, after which one fewer remains, or the error that ends the
/// iteration.
pub open spec fn spec_entries_step(s: Seq<u8>, end: u64, st: EntriesState) -> (
    Option<Result<EntryInfo, FormatError>>,
    EntriesState,
) {
    if st.remaining == 0 {
        (None, st)
    } else {
        match spec_parse_entry(s, st.next_offset, end) {
            Ok((info, next)) => (
                Some(Ok(info)),
                EntriesState { next_offset: next, remaining: (st.remaining - 1) as u64 },
            ),
            Err(e) => (
                Some(Err(e)),
                EntriesState { next_offset: st.next_offset, remaining: 0 },
            ),
        }
    }
}

/// What one call of [`Entries::next`] may do to the iteration state, seen from
/// outside: with no entry left it yields nothing and changes nothing;
/// otherwise it yields an item, after which one entry fewer remains, or none
/// after an error.
pub open spec fn next_allowed(
    before: EntriesState,
    yielded: bool,
    failed: bool,
    after: EntriesState,
) -> bool {
    &&& before.remaining == 0 ==> !yielded && after == before
    &&& before.remaining > 0 ==> yielded
    &&& yielded ==> after.remaining < before.remaining
    &&& yielded && !failed ==> after.remaining == before.remaining - 1
    &&& failed ==> yielded && after.remaining == 0
}

/// The metadata of what an iteration step yielded.
pub open spec fn entry_item<'a, R: Reader>(r: Option<Result<Entry<'a, R>, Error<R::Error>>>) -> Option<
    Result<EntryInfo, FormatError>,
> {
    match r {
        None => None,
        Some(Ok(e)) => Some(Ok(e.info())),
        Some(Err(Error::Format(e))) => Some(Err(e)),
        Some(Err(Error::Io(_))) => None,
    }
}

/// Forward-only iterator over archive entries.
pub struct Entries<'a, R: Reader> {
    archive: &'a Archive<R>,
    next_offset: u64,
    remaining: u64,
    end_offset: u64,
}

impl<'a, R: Reader> Entries<'a, R> {
    /// The archive being iterated.
    pub closed spec fn archive(&self) -> &'a Archive<R> {
        self.archive
    }

    /// The iteration state.
    pub closed spec fn state(&self) -> EntriesState {
        EntriesState { next_offset: self.next_offset, remaining: self.remaining }
    }

    #[verifier::type_invariant]
    closed spec fn bounded(self) -> bool {
        &&& self.end_offset == self.archive.layout().directory_end_offset
        &&& self.end_offset <= self.archive.bytes().len()
    }

    /// Parses the next entry, or returns `None` once every entry was yielded or
    /// after an error.
    pub fn next(&mut self) -> (r: Option<Result<Entry<'a, R>, Error<R::Error>>>)
        ensures
            final(self).archive() == old(self).archive(),
            r matches Some(Ok(e)) ==> e.archive() == old(self).archive(),
            old(self).state().remaining == 0 ==> r is None && final(self).state() == old(
                self,
            ).state(),
            old(self).state().remaining > 0 ==> r is Some,
            r matches Some(Ok(_)) ==> final(self).state().remaining == old(self).state().remaining
                - 1,
            r matches Some(Err(_)) ==> final(self).state().remaining == 0,
            next_allowed(
                old(self).state(),
                r is Some,
                r matches Some(Err(_)),
                final(self).state(),
            ),
            old(self).state().remaining > 0 ==> (spec_read_check(
                old(self).archive().bytes(),
                old(self).state().next_offset as int,
                CENTRAL_HEADER_LEN as int,
            ) matches Err(e) ==> r matches Some(Err(Error::Format(x))) && x == e),
            match r {
                Some(Err(Error::Io(_))) => !old(self).archive().infallible() && final(self).state()
                    == (EntriesState { next_offset: old(self).state().next_offset, remaining: 0 }),
                _ => (entry_item(r), final(self).state()) == spec_entries_step(
                    old(self).archive().bytes(),
                    old(self).archive().layout().directory_end_offset,
                    old(self).state(),
                ),
            },
    {
        proof {
            use_type_invariant(&*self);
        }
        if self.remaining == 0 {
            return None;
        }
        match Entry::parse(self.archive, self.next_offset, self.end_offset) {
            Ok((entry, next_offset)) => {
                self.remaining = self.remaining - 1;
                self.next_offset = next_offset;
                Some(Ok(entry))
            },
            Err(err) => {
                self.remaining = 0;
                Some(Err(err))
            },
        }
    }
}

} // verus!
