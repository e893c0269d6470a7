//! Properties that hold across the operations of the library.
use vstd::prelude::*;

use core::ops::Range;

use crate::archive::{
    lemma_open_bounds, next_allowed, spec_directory, spec_entries_step, spec_open, ArchiveLayout, EntriesState,
};
use crate::bytes::{
    LOCAL_HEADER_SIGNATURE, le16, le32, le64, CENTRAL_HEADER_LEN, CENTRAL_HEADER_SIGNATURE, EOCD_LEN, ZIP64_EOCD_SIGNATURE, ZIP64_LOCATOR_LEN,
    ZIP64_SEARCH_WINDOW,
};
use crate::compression::{spec_from_raw, spec_raw, Compression};
use crate::entry::{
    component_start_before, data_range_is_coherent, file_name_of, file_name_start,
    read_step_ok, spec_data_range, spec_parse_entry, DataRange, Entry, EntryInfo, EntryReader,
};
use crate::error::{Error, FormatError, Unsupported};
use crate::extra::spec_zip64_extra;
use crate::reader::Reader;
use crate::locate::{
    eocd_at, eocd_window_start, is_eocd_at, last_eocd, last_sig, sig_at, spec_find_eocd,
    spec_needs_zip64, spec_resolve_zip64_record_offset, spec_zip64_metadata,
};

verus! {

/// The raw method id of a supported compression converts back to it, and a raw
/// id that converts to a method is that method's id; only ids 0 and 8 convert.
pub proof fn law_compression_raw_roundtrip(c: Compression, raw: u16)
    ensures
        spec_from_raw(spec_raw(c)) == Some(c),
        spec_from_raw(raw) matches Some(m) ==> spec_raw(m) == raw,
        spec_from_raw(raw) is Some <==> (raw == 0 || raw == 8),
{
}

/// The EOCD record an archive is opened from is the last position in the
/// trailing scan window where an EOCD signature starts a record that, comment
/// included, fits in the archive; "not a ZIP archive" is reported exactly when
/// the window holds no such position.
pub proof fn law_eocd_is_last_in_window(s: Seq<u8>)
    requires
        s.len() <= u64::MAX,
    ensures
        spec_find_eocd(s) matches Ok((p, e)) ==> {
            &&& eocd_window_start(s) <= p
            &&& is_eocd_at(s, p as int)
            &&& e == eocd_at(s, p as int)
            &&& forall|q: int| p < q <= s.len() - EOCD_LEN ==> !is_eocd_at(s, q)
        },
        spec_find_eocd(s) is Err ==> spec_find_eocd(s) == Err::<
            (u64, crate::locate::Eocd),
            FormatError,
        >(FormatError::NotZip),
        spec_find_eocd(s) is Err <==> forall|q: int|
            eocd_window_start(s) <= q <= s.len() - EOCD_LEN ==> !is_eocd_at(s, q),
{
    crate::archive::lemma_last_eocd(s, eocd_window_start(s), s.len() - EOCD_LEN);
    if s.len() >= EOCD_LEN {
        if let Some(p) = last_eocd(s, eocd_window_start(s), s.len() - EOCD_LEN) {
            assert(0 <= p < s.len());
        }
    }
}

/// The central directory of an opened archive starts at its base offset plus
/// its stored offset and ends no later than the directory end, which lies
/// inside the archive.
pub proof fn law_directory_inside_archive(s: Seq<u8>)
    requires
        s.len() <= u64::MAX,
    ensures
        spec_open(s) matches Ok(l) ==> {
            &&& l.base_offset + l.central_directory_offset <= l.directory_end_offset
            &&& l.directory_end_offset <= s.len()
            &&& l.size == s.len()
        },
{
    lemma_open_bounds(s);
}

/// Entry iteration is fused: once no entry remains, every further step yields
/// nothing and changes nothing.
pub proof fn law_entries_fused(s: Seq<u8>, end: u64, st: EntriesState)
    requires
        st.remaining == 0,
    ensures
        spec_entries_step(s, end, st) == (None::<Result<EntryInfo, FormatError>>, st),
{
}

/// Entry iteration stops permanently after the first error: the step after an
/// error yields nothing.
pub proof fn law_entries_stop_after_error(s: Seq<u8>, end: u64, st: EntriesState)
    ensures
        spec_entries_step(s, end, st).0 matches Some(Err(_)) ==> spec_entries_step(
            s,
            end,
            spec_entries_step(s, end, st).1,
        ) == (None::<Result<EntryInfo, FormatError>>, spec_entries_step(s, end, st).1),
{
}

/// While entries remain, every step yields an item, and a yielded entry leaves
/// one fewer to come.
pub proof fn law_entries_one_per_step(s: Seq<u8>, end: u64, st: EntriesState)
    ensures
        st.remaining > 0 ==> spec_entries_step(s, end, st).0 is Some,
        spec_entries_step(s, end, st).0 matches Some(Ok(_)) ==> spec_entries_step(
            s,
            end,
            st,
        ).1.remaining == st.remaining - 1,
{
}

/// The items yielded by `n` consecutive iteration steps.
pub open spec fn entries_run(s: Seq<u8>, end: u64, st: EntriesState, n: nat) -> Seq<
    Result<EntryInfo, FormatError>,
>
    decreases n,
{
    if n == 0 {
        Seq::empty()
    } else {
        let (item, next) = spec_entries_step(s, end, st);
        let rest = entries_run(s, end, next, (n - 1) as nat);
        match item {
            Some(x) => seq![x] + rest,
            None => rest,
        }
    }
}

/// However many times it is advanced, entry iteration yields at most as many
/// items, entries and errors together, as the entries that remained when it
/// started: an archive's iterator never yields more than its entry count.
pub proof fn law_entries_bounded_by_count(s: Seq<u8>, end: u64, st: EntriesState, n: nat)
    ensures
        entries_run(s, end, st, n).len() <= st.remaining,
    decreases n,
{
    if n > 0 {
        let (item, next) = spec_entries_step(s, end, st);
        law_entries_bounded_by_count(s, end, next, (n - 1) as nat);
    }
}

/// The ranges that resolving an entry reports always nest as the ZIP layout
/// requires, with a payload of the entry's compressed size inside the archive.
pub proof fn law_data_range_coherent(s: Seq<u8>, base: u64, info: EntryInfo)
    ensures
        spec_data_range(s, base, info) matches Ok(d) ==> data_range_is_coherent(
            d,
            s.len() as int,
            info,
        ),
{
}

/// The file name of a path is its final `/`-separated component: a suffix of
/// the path that holds no `/` and is either the whole path or preceded by `/`.
pub proof fn law_file_name_is_last_component(path: Seq<u8>)
    ensures
        0 <= file_name_start(path) <= path.len(),
        file_name_of(path) == path.subrange(file_name_start(path), path.len() as int),
        forall|i: int| file_name_start(path) <= i < path.len() ==> path[i] != 0x2f,
        file_name_start(path) > 0 ==> path[file_name_start(path) - 1] == 0x2f,
{
    lemma_component_start_shape(path, path.len() as int);
}

/// Scanning back from `i` stops just after a `/`, or at 0, and passes over no
/// `/` on the way.
proof fn lemma_component_start_shape(path: Seq<u8>, i: int)
    requires
        0 <= i <= path.len(),
    ensures
        0 <= component_start_before(path, i) <= i,
        forall|k: int| component_start_before(path, i) <= k < i ==> path[k] != 0x2f,
        component_start_before(path, i) > 0 ==> path[component_start_before(path, i) - 1]
            == 0x2f,
    decreases i,
{
    if i > 0 && path[i - 1] != 0x2f {
        lemma_component_start_shape(path, i - 1);
    }
}

/// Fields that lie inside `s` read the same in `s + junk`.
proof fn lemma_fields_frame(s: Seq<u8>, junk: Seq<u8>, q: int)
    requires
        0 <= q,
    ensures
        q + 2 <= s.len() ==> le16(s + junk, q) == le16(s, q),
        q + 4 <= s.len() ==> le32(s + junk, q) == le32(s, q),
        q + 8 <= s.len() ==> le64(s + junk, q) == le64(s, q),
{
    let t = s + junk;
    if q + 8 <= s.len() {
        assert(t[q] == s[q] && t[q + 1] == s[q + 1] && t[q + 2] == s[q + 2] && t[q + 3] == s[q
            + 3]);
        assert(t[q + 4] == s[q + 4] && t[q + 5] == s[q + 5] && t[q + 6] == s[q + 6] && t[q + 7]
            == s[q + 7]);
    } else if q + 4 <= s.len() {
        assert(t[q] == s[q] && t[q + 1] == s[q + 1] && t[q + 2] == s[q + 2] && t[q + 3] == s[q
            + 3]);
    } else if q + 2 <= s.len() {
        assert(t[q] == s[q] && t[q + 1] == s[q + 1]);
    }
}

/// No `signature` starts in `junk` or overlaps its start.
pub open spec fn junk_lacks_signature(s: Seq<u8>, junk: Seq<u8>, signature: u32) -> bool {
    forall|q: int|
        s.len() - 3 <= q && q + 4 <= s.len() + junk.len() ==> le32(s + junk, q) != signature
}

/// Probing for a signature gives the same answer once `junk` is appended, when
/// the junk holds no such signature.
proof fn lemma_sig_at_frame(s: Seq<u8>, junk: Seq<u8>, q: int, signature: u32)
    requires
        0 <= q,
        junk_lacks_signature(s, junk, signature),
    ensures
        sig_at(s + junk, q, signature) == sig_at(s, q, signature),
{
    lemma_fields_frame(s, junk, q);
    if q + 4 > s.len() && q + 4 <= s.len() + junk.len() {
        assert(le32(s + junk, q) != signature);
    }
}

/// The search for the last `signature` below a position inside `s` is not
/// affected by appended bytes.
proof fn lemma_last_sig_frame(s: Seq<u8>, junk: Seq<u8>, signature: u32, lo: int, pos: int)
    requires
        0 <= lo,
        pos + 4 <= s.len(),
    ensures
        last_sig(s + junk, signature, lo, pos) == last_sig(s, signature, lo, pos),
    decreases pos - lo + 1,
{
    if pos >= lo {
        lemma_fields_frame(s, junk, pos);
        lemma_last_sig_frame(s, junk, signature, lo, pos - 1);
    }
}

/// The last EOCD position in `lo..=pos` is `p` when `p` holds one and no later
/// position does.
proof fn lemma_last_eocd_is(s: Seq<u8>, lo: int, pos: int, p: int)
    requires
        lo <= p <= pos,
        is_eocd_at(s, p),
        forall|q: int| p < q <= pos ==> !is_eocd_at(s, q),
    ensures
        last_eocd(s, lo, pos) == Some(p),
    decreases pos - lo + 1,
{
    if pos > p {
        lemma_last_eocd_is(s, lo, pos - 1, p);
    }
}

/// Appended bytes leave the ZIP64 records of an archive as they were, when they
/// hold no ZIP64 record signature.
proof fn lemma_zip64_frame(s: Seq<u8>, junk: Seq<u8>, eocd_offset: int)
    requires
        eocd_offset + EOCD_LEN <= s.len(),
        junk_lacks_signature(s, junk, ZIP64_EOCD_SIGNATURE),
        spec_zip64_metadata(s, eocd_offset) is Ok,
    ensures
        spec_zip64_metadata(s + junk, eocd_offset) == spec_zip64_metadata(s, eocd_offset),
{
    let t = s + junk;
    let loc = eocd_offset - ZIP64_LOCATOR_LEN;
    lemma_fields_frame(s, junk, loc);
    lemma_fields_frame(s, junk, loc + 4);
    lemma_fields_frame(s, junk, loc + 8);
    lemma_fields_frame(s, junk, loc + 16);
    let adv = le64(s, loc + 8);
    lemma_sig_at_frame(s, junk, adv, ZIP64_EOCD_SIGNATURE);
    let start = if loc >= ZIP64_SEARCH_WINDOW {
        loc - ZIP64_SEARCH_WINDOW
    } else {
        0
    };
    if loc - start >= 4 {
        lemma_last_sig_frame(s, junk, ZIP64_EOCD_SIGNATURE, start, loc - 4);
    }
    assert(spec_resolve_zip64_record_offset(t, loc, adv) == spec_resolve_zip64_record_offset(
        s,
        loc,
        adv,
    ));
    let off = spec_resolve_zip64_record_offset(s, loc, adv)->Ok_0 as int;
    lemma_fields_frame(s, junk, off);
    lemma_fields_frame(s, junk, off + 4);
    lemma_fields_frame(s, junk, off + 16);
    lemma_fields_frame(s, junk, off + 20);
    lemma_fields_frame(s, junk, off + 32);
    lemma_fields_frame(s, junk, off + 40);
    lemma_fields_frame(s, junk, off + 48);
}

/// Appended bytes leave the EOCD record where it was, when it stays inside the
/// trailing scan window and no EOCD record that fits starts after it.
proof fn lemma_find_eocd_frame(s: Seq<u8>, junk: Seq<u8>)
    requires
        s.len() + junk.len() <= u64::MAX,
        spec_find_eocd(s) matches Ok((p, _)) && p >= eocd_window_start(s + junk) && forall|
            q: int,
        |
            p < q <= s.len() + junk.len() - EOCD_LEN ==> !is_eocd_at(s + junk, q),
    ensures
        spec_find_eocd(s + junk) == spec_find_eocd(s),
{
    let t = s + junk;
    let (p, e) = spec_find_eocd(s)->Ok_0;
    crate::archive::lemma_last_eocd(s, eocd_window_start(s), s.len() - EOCD_LEN);
    lemma_fields_frame(s, junk, p as int);
    lemma_fields_frame(s, junk, p + 4);
    lemma_fields_frame(s, junk, p + 6);
    lemma_fields_frame(s, junk, p + 10);
    lemma_fields_frame(s, junk, p + 12);
    lemma_fields_frame(s, junk, p + 16);
    lemma_fields_frame(s, junk, p + 20);
    assert(is_eocd_at(t, p as int));
    lemma_last_eocd_is(t, eocd_window_start(t), t.len() - EOCD_LEN, p as int);
    assert(eocd_at(t, p as int) == eocd_at(s, p as int));
}

/// Bytes appended after an archive do not change how it opens, provided they
/// do not push its EOCD record out of the trailing scan window, no EOCD record
/// that fits in the longer archive starts after the original one, and no ZIP64
/// record or central-directory signature starts in them: the layout is the
/// same, but for the archive size.
pub proof fn law_trailing_junk(s: Seq<u8>, junk: Seq<u8>)
    requires
        s.len() + junk.len() <= u64::MAX,
        spec_open(s) is Ok,
        spec_find_eocd(s) matches Ok((p, _)) && p >= eocd_window_start(s + junk) && forall|
            q: int,
        |
            p < q <= s.len() + junk.len() - EOCD_LEN ==> !is_eocd_at(s + junk, q),
        junk_lacks_signature(s, junk, ZIP64_EOCD_SIGNATURE),
        junk_lacks_signature(s, junk, CENTRAL_HEADER_SIGNATURE),
    ensures
        spec_open(s + junk) == Ok::<ArchiveLayout, FormatError>(
            ArchiveLayout {
                size: (s.len() + junk.len()) as u64,
                base_offset: spec_open(s)->Ok_0.base_offset,
                directory_end_offset: spec_open(s)->Ok_0.directory_end_offset,
                central_directory_offset: spec_open(s)->Ok_0.central_directory_offset,
                entry_count: spec_open(s)->Ok_0.entry_count,
            },
        ),
        spec_find_eocd(s + junk) == spec_find_eocd(s),
{
    let t = s + junk;
    let (p, e) = spec_find_eocd(s)->Ok_0;
    lemma_find_eocd_frame(s, junk);
    if spec_needs_zip64(e) {
        lemma_zip64_frame(s, junk, p as int);
    }
    assert(spec_directory(t, p, e) == spec_directory(s, p, e));
    let (count, dir_size, dir_offset, payload_end) = spec_directory(s, p, e)->Ok_0;
    let used = dir_offset + dir_size;
    let inferred = payload_end - used + dir_offset;
    lemma_sig_at_frame(s, junk, dir_offset as int, CENTRAL_HEADER_SIGNATURE);
    if inferred >= 0 {
        lemma_sig_at_frame(s, junk, inferred, CENTRAL_HEADER_SIGNATURE);
    }
}

/// Fields of `s` read the same at their shifted position in `pre + s`.
proof fn lemma_fields_shift(pre: Seq<u8>, s: Seq<u8>, q: int)
    requires
        0 <= q,
    ensures
        q + 2 <= s.len() ==> le16(pre + s, pre.len() + q) == le16(s, q),
        q + 4 <= s.len() ==> le32(pre + s, pre.len() + q) == le32(s, q),
        q + 8 <= s.len() ==> le64(pre + s, pre.len() + q) == le64(s, q),
{
    let t = pre + s;
    let k = pre.len() as int;
    if q + 8 <= s.len() {
        assert(t[k + q] == s[q] && t[k + q + 1] == s[q + 1] && t[k + q + 2] == s[q + 2] && t[k
            + q + 3] == s[q + 3]);
        assert(t[k + q + 4] == s[q + 4] && t[k + q + 5] == s[q + 5] && t[k + q + 6] == s[q + 6]
            && t[k + q + 7] == s[q + 7]);
    } else if q + 4 <= s.len() {
        assert(t[k + q] == s[q] && t[k + q + 1] == s[q + 1] && t[k + q + 2] == s[q + 2] && t[k
            + q + 3] == s[q + 3]);
    } else if q + 2 <= s.len() {
        assert(t[k + q] == s[q] && t[k + q + 1] == s[q + 1]);
    }
}

/// An EOCD record sits at `q` in `s` exactly when one sits at the shifted
/// position in `pre + s`.
proof fn lemma_eocd_shift(pre: Seq<u8>, s: Seq<u8>, q: int)
    requires
        0 <= q,
    ensures
        is_eocd_at(pre + s, pre.len() + q) == is_eocd_at(s, q),
        q + EOCD_LEN <= s.len() ==> eocd_at(pre + s, pre.len() + q) == eocd_at(s, q),
{
    lemma_fields_shift(pre, s, q);
    lemma_fields_shift(pre, s, q + 4);
    lemma_fields_shift(pre, s, q + 6);
    lemma_fields_shift(pre, s, q + 10);
    lemma_fields_shift(pre, s, q + 12);
    lemma_fields_shift(pre, s, q + 16);
    lemma_fields_shift(pre, s, q + 20);
}

/// Bytes placed before an archive whose stored offsets are relative to its own
/// start, whose central directory ends where its EOCD record starts, and which
/// is not a ZIP64 archive, shift its layout: the prefix becomes the base
/// offset, and the directory end moves by the prefix length. This holds when
/// the stored directory offset does not land on a central-directory signature
/// of the prefixed bytes, which the opener would otherwise take as an absolute
/// offset.
pub proof fn law_prefixed_archive(pre: Seq<u8>, s: Seq<u8>)
    requires
        pre.len() + s.len() <= u64::MAX,
        spec_find_eocd(s) matches Ok((p, e)) && {
            &&& !spec_needs_zip64(e)
            &&& e.disk_number == 0 && e.central_directory_disk == 0
            &&& e.central_directory_offset + e.central_directory_size == p
            &&& e.entry_count > 0
            &&& !sig_at(pre + s, e.central_directory_offset as int, CENTRAL_HEADER_SIGNATURE)
        },
    ensures
        spec_open(s) == Ok::<ArchiveLayout, FormatError>(
            ArchiveLayout {
                size: s.len() as u64,
                base_offset: 0,
                directory_end_offset: spec_find_eocd(s)->Ok_0.0,
                central_directory_offset: spec_find_eocd(
                    s,
                )->Ok_0.1.central_directory_offset as u64,
                entry_count: spec_find_eocd(s)->Ok_0.1.entry_count as u64,
            },
        ),
        spec_open(pre + s) == Ok::<ArchiveLayout, FormatError>(
            ArchiveLayout {
                size: (pre.len() + s.len()) as u64,
                base_offset: pre.len() as u64,
                directory_end_offset: (pre.len() + spec_find_eocd(s)->Ok_0.0) as u64,
                central_directory_offset: spec_find_eocd(
                    s,
                )->Ok_0.1.central_directory_offset as u64,
                entry_count: spec_find_eocd(s)->Ok_0.1.entry_count as u64,
            },
        ),
{
    let t = pre + s;
    let k = pre.len() as int;
    let (p, e) = spec_find_eocd(s)->Ok_0;
    crate::archive::lemma_last_eocd(s, eocd_window_start(s), s.len() - EOCD_LEN);
    lemma_eocd_shift(pre, s, p as int);
    assert forall|q: int| k + p < q <= t.len() - EOCD_LEN implies !is_eocd_at(t, q) by {
        lemma_eocd_shift(pre, s, q - k);
    }
    lemma_last_eocd_is(t, eocd_window_start(t), t.len() - EOCD_LEN, k + p);
    assert(spec_find_eocd(t) == Ok::<(u64, crate::locate::Eocd), FormatError>(
        ((k + p) as u64, e),
    ));
}

/// An entry parse result with every position moved `k` bytes further.
pub open spec fn shifted_entry(r: Result<(EntryInfo, u64), FormatError>, k: int) -> Result<
    (EntryInfo, u64),
    FormatError,
> {
    match r {
        Ok((info, next)) => Ok(
            (
                EntryInfo {
                    name_range: Range {
                        start: (info.name_range.start + k) as u64,
                        end: (info.name_range.end + k) as u64,
                    },
                    ..info
                },
                (next + k) as u64,
            ),
        ),
        Err(e) => Err(e),
    }
}

/// A data range result with every range moved `k` bytes further.
pub open spec fn shifted_data_range(r: Result<DataRange, FormatError>, k: int) -> Result<
    DataRange,
    FormatError,
> {
    match r {
        Ok(d) => Ok(
            DataRange {
                local_header_range: Range {
                    start: (d.local_header_range.start + k) as u64,
                    end: (d.local_header_range.end + k) as u64,
                },
                local_name_range: Range {
                    start: (d.local_name_range.start + k) as u64,
                    end: (d.local_name_range.end + k) as u64,
                },
                local_extra_range: Range {
                    start: (d.local_extra_range.start + k) as u64,
                    end: (d.local_extra_range.end + k) as u64,
                },
                data_range: Range {
                    start: (d.data_range.start + k) as u64,
                    end: (d.data_range.end + k) as u64,
                },
                kind: d.kind,
            },
        ),
        Err(e) => Err(e),
    }
}

/// The sizes of a central-directory header are read the same at its shifted
/// position in `pre + s`.
proof fn lemma_entry_sizes_shift(pre: Seq<u8>, s: Seq<u8>, h: int, extra_start: int, extra_len: int)
    requires
        0 <= h,
        h + 46 <= extra_start,
        0 <= extra_len,
        extra_start <= s.len() + 0x10000,
        pre.len() + s.len() + 0x40000 <= u64::MAX,
        h + 46 <= s.len(),
    ensures
        crate::entry::spec_entry_sizes(pre + s, pre.len() + h, pre.len() + extra_start, extra_len)
            == crate::entry::spec_entry_sizes(s, h, extra_start, extra_len),
{
    let t = pre + s;
    let k = pre.len() as int;
    lemma_fields_shift(pre, s, h + 20);
    lemma_fields_shift(pre, s, h + 24);
    lemma_fields_shift(pre, s, h + 42);
    if extra_start + extra_len <= s.len() {
        assert(t.subrange(k + extra_start, k + extra_start + extra_len) =~= s.subrange(
            extra_start,
            extra_start + extra_len,
        ));
    }
}

/// Bytes placed before an archive move every central-directory entry by the
/// prefix length and change nothing else about it: parsing the shifted header
/// against the shifted directory end gives the same entry, or the same error,
/// with shifted positions.
pub proof fn law_prefixed_entry(pre: Seq<u8>, s: Seq<u8>, h: u64, end: u64)
    requires
        pre.len() + s.len() + 0x40000 <= u64::MAX,
        h <= end <= s.len(),
    ensures
        spec_parse_entry(pre + s, (pre.len() + h) as u64, (pre.len() + end) as u64)
            == shifted_entry(spec_parse_entry(s, h, end), pre.len() as int),
{
    let t = pre + s;
    let k = pre.len() as int;
    let hh = h as int;
    let th = (pre.len() + h) as u64;
    let tend = (pre.len() + end) as u64;
    assert(th as int == k + hh && tend as int == k + end);
    if hh + 46 > s.len() {
        assert(spec_parse_entry(t, th, tend) == Err::<(EntryInfo, u64), FormatError>(
            FormatError::Truncated,
        ));
        assert(spec_parse_entry(s, h, end) == Err::<(EntryInfo, u64), FormatError>(
            FormatError::Truncated,
        ));
    } else {
        lemma_fields_shift(pre, s, hh);
        lemma_fields_shift(pre, s, hh + 8);
        lemma_fields_shift(pre, s, hh + 10);
        lemma_fields_shift(pre, s, hh + 16);
        lemma_fields_shift(pre, s, hh + 28);
        lemma_fields_shift(pre, s, hh + 30);
        lemma_fields_shift(pre, s, hh + 32);
        let name_end = hh + 46 + le16(s, hh + 28);
        lemma_entry_sizes_shift(pre, s, hh, name_end, le16(s, hh + 30));
    }
}

/// An iteration step with every position moved `k` bytes further.
pub open spec fn shifted_step(
    step: (Option<Result<EntryInfo, FormatError>>, EntriesState),
    k: int,
) -> (Option<Result<EntryInfo, FormatError>>, EntriesState) {
    (
        match step.0 {
            None => None,
            Some(Ok(info)) => Some(
                Ok(
                    EntryInfo {
                        name_range: Range {
                            start: (info.name_range.start + k) as u64,
                            end: (info.name_range.end + k) as u64,
                        },
                        ..info
                    },
                ),
            ),
            Some(Err(e)) => Some(Err(e)),
        },
        EntriesState {
            next_offset: (step.1.next_offset + k) as u64,
            remaining: step.1.remaining,
        },
    )
}

/// Iterating the entries of a prefixed archive from the shifted position gives
/// the same entries, errors and counts, with positions shifted by the prefix
/// length.
pub proof fn law_prefixed_iteration(pre: Seq<u8>, s: Seq<u8>, end: u64, st: EntriesState)
    requires
        pre.len() + s.len() + 0x40000 <= u64::MAX,
        st.next_offset <= end <= s.len(),
    ensures
        spec_entries_step(
            pre + s,
            (pre.len() + end) as u64,
            EntriesState {
                next_offset: (pre.len() + st.next_offset) as u64,
                remaining: st.remaining,
            },
        ) == shifted_step(spec_entries_step(s, end, st), pre.len() as int),
        spec_entries_step(s, end, st).1.next_offset <= end,
{
    law_prefixed_entry(pre, s, st.next_offset, end);
}

/// Bytes placed before an archive move the local header and payload of an
/// entry by the prefix length when the base offset grows by it: resolving the
/// entry gives the same ranges, or the same error, shifted.
pub proof fn law_prefixed_data_range(pre: Seq<u8>, s: Seq<u8>, base: u64, info: EntryInfo)
    requires
        pre.len() + s.len() + info.compressed_size + 0x40000 <= u64::MAX,
        base + info.local_header_offset <= s.len(),
    ensures
        spec_data_range(pre + s, (base + pre.len()) as u64, info) == shifted_data_range(
            spec_data_range(s, base, info),
            pre.len() as int,
        ),
{
    let lho = base + info.local_header_offset;
    lemma_fields_shift(pre, s, lho);
    lemma_fields_shift(pre, s, lho + 6);
    lemma_fields_shift(pre, s, lho + 26);
    lemma_fields_shift(pre, s, lho + 28);
}

/// Number of calls in `yields` that yielded an item.
pub open spec fn count_yields(yields: Seq<bool>) -> nat
    decreases yields.len(),
{
    if yields.len() == 0 {
        0
    } else {
        (if yields[0] {
            1nat
        } else {
            0nat
        }) + count_yields(yields.drop_first())
    }
}

/// `states[i]` to `states[i + 1]` is a call of `next` that yielded when
/// `yields[i]` and failed when `failures[i]`.
pub open spec fn is_next_trace(
    states: Seq<EntriesState>,
    yields: Seq<bool>,
    failures: Seq<bool>,
) -> bool {
    &&& states.len() == yields.len() + 1
    &&& failures.len() == yields.len()
    &&& forall|i: int|
        #![trigger yields[i]]
        0 <= i < yields.len() ==> next_allowed(states[i], yields[i], failures[i], states[i + 1])
}

/// Over any sequence of calls of `next` on an entry iterator: at most as many
/// items are yielded as entries remained at the start (an archive's iterator
/// never yields more than its entry count); once a call yields nothing, or
/// after a call that yields an error, no later call yields anything.
pub proof fn law_next_trace(states: Seq<EntriesState>, yields: Seq<bool>, failures: Seq<bool>)
    requires
        is_next_trace(states, yields, failures),
    ensures
        count_yields(yields) <= states[0].remaining,
        forall|i: int, j: int|
            0 <= i < j < yields.len() && (!yields[i] || failures[i]) ==> !yields[j],
    decreases yields.len(),
{
    if yields.len() > 0 {
        let rest_states = states.drop_first();
        let rest_yields = yields.drop_first();
        let rest_failures = failures.drop_first();
        assert(next_allowed(states[0], yields[0], failures[0], states[1]));
        assert forall|i: int| 0 <= i < rest_yields.len() implies next_allowed(
            rest_states[i],
            #[trigger] rest_yields[i],
            rest_failures[i],
            rest_states[i + 1],
        ) by {
            assert(next_allowed(states[i + 1], yields[i + 1], failures[i + 1], states[i + 2]));
        }
        law_next_trace(rest_states, rest_yields, rest_failures);
        assert forall|i: int, j: int|
            0 <= i < j < yields.len() && (!yields[i] || failures[i]) implies !yields[j] by {
            if i == 0 {
                assert(states[1].remaining == 0);
                lemma_finished_trace_stays(rest_states, rest_yields, rest_failures, j - 1);
            } else {
                assert(rest_yields[i - 1] == yields[i]);
                assert(rest_yields[j - 1] == yields[j]);
            }
        }
    }
}

/// Over a sequence of calls of `next` on an entry iterator in which no call
/// fails: the first calls, as many as entries remained at the start, each yield
/// an entry, and every later call yields nothing. Iterating an archive without
/// errors yields exactly its entry count of entries.
pub proof fn law_next_trace_without_errors(
    states: Seq<EntriesState>,
    yields: Seq<bool>,
    failures: Seq<bool>,
)
    requires
        is_next_trace(states, yields, failures),
        forall|i: int| 0 <= i < failures.len() ==> !failures[i],
    ensures
        forall|i: int| 0 <= i < yields.len() ==> (yields[i] <==> i < states[0].remaining),
        yields.len() >= states[0].remaining ==> count_yields(yields) == states[0].remaining,
    decreases yields.len(),
{
    if yields.len() > 0 {
        let rest_states = states.drop_first();
        let rest_yields = yields.drop_first();
        let rest_failures = failures.drop_first();
        assert(next_allowed(states[0], yields[0], failures[0], states[1]));
        assert forall|i: int| 0 <= i < rest_yields.len() implies next_allowed(
            rest_states[i],
            #[trigger] rest_yields[i],
            rest_failures[i],
            rest_states[i + 1],
        ) by {
            assert(next_allowed(states[i + 1], yields[i + 1], failures[i + 1], states[i + 2]));
        }
        assert forall|i: int| 0 <= i < rest_failures.len() implies !rest_failures[i] by {
            assert(!failures[i + 1]);
        }
        law_next_trace_without_errors(rest_states, rest_yields, rest_failures);
        assert forall|i: int| 0 <= i < yields.len() implies (yields[i] <==> i
            < states[0].remaining) by {
            if i > 0 {
                assert(rest_yields[i - 1] == yields[i]);
            }
        }
    }
}

/// A trace that starts with no entry remaining yields nothing.
proof fn lemma_finished_trace_stays(
    states: Seq<EntriesState>,
    yields: Seq<bool>,
    failures: Seq<bool>,
    j: int,
)
    requires
        is_next_trace(states, yields, failures),
        states[0].remaining == 0,
        0 <= j < yields.len(),
    ensures
        !yields[j],
        states[j + 1].remaining == 0,
    decreases j,
{
    if j == 0 {
        assert(next_allowed(states[0], yields[0], failures[0], states[1]));
    } else {
        lemma_finished_trace_stays(states, yields, failures, j - 1);
        assert(next_allowed(states[j], yields[j], failures[j], states[j + 1]));
    }
}

/// The bytes of `chunks` one after another.
pub open spec fn concat(chunks: Seq<Seq<u8>>) -> Seq<u8>
    decreases chunks.len(),
{
    if chunks.len() == 0 {
        Seq::empty()
    } else {
        chunks[0] + concat(chunks.drop_first())
    }
}

/// Each chunk holds the bytes of `s` that follow the previous one, the first
/// starting at `pos`: what successive successful calls of
/// [`crate::EntryReader::read`] hand back.
pub open spec fn consecutive_reads(s: Seq<u8>, pos: int, chunks: Seq<Seq<u8>>) -> bool
    decreases chunks.len(),
{
    chunks.len() == 0 || (chunks[0] == s.subrange(pos, pos + chunks[0].len())
        && consecutive_reads(s, pos + chunks[0].len(), chunks.drop_first()))
}

/// Successive reads of a payload add up to the bytes between where they
/// started and where they stopped: reading until `read` returns `0` yields
/// exactly the payload.
pub proof fn law_consecutive_reads(s: Seq<u8>, pos: int, chunks: Seq<Seq<u8>>)
    requires
        0 <= pos,
        pos + concat(chunks).len() <= s.len(),
        consecutive_reads(s, pos, chunks),
    ensures
        concat(chunks) == s.subrange(pos, pos + concat(chunks).len()),
    decreases chunks.len(),
{
    if chunks.len() > 0 {
        let n = chunks[0].len() as int;
        let rest = chunks.drop_first();
        assert(concat(chunks) == chunks[0] + concat(rest));
        law_consecutive_reads(s, pos + n, rest);
        assert(concat(chunks) =~= s.subrange(pos, pos + concat(chunks).len()));
    }
}

/// Bytes appended after an archive do not change how a central-directory
/// header inside it parses, given that its fixed part lies inside the archive.
pub proof fn law_trailing_junk_entry(s: Seq<u8>, junk: Seq<u8>, h: u64, end: u64)
    requires
        s.len() + junk.len() <= u64::MAX,
        h + CENTRAL_HEADER_LEN <= s.len(),
        end <= s.len(),
    ensures
        spec_parse_entry(s + junk, h, end) == spec_parse_entry(s, h, end),
{
    let t = s + junk;
    let hh = h as int;
    lemma_fields_frame(s, junk, hh);
    lemma_fields_frame(s, junk, hh + 8);
    lemma_fields_frame(s, junk, hh + 10);
    lemma_fields_frame(s, junk, hh + 16);
    lemma_fields_frame(s, junk, hh + 20);
    lemma_fields_frame(s, junk, hh + 24);
    lemma_fields_frame(s, junk, hh + 28);
    lemma_fields_frame(s, junk, hh + 30);
    lemma_fields_frame(s, junk, hh + 32);
    lemma_fields_frame(s, junk, hh + 42);
    let name_end = hh + 46 + le16(s, hh + 28);
    let extra_len = le16(s, hh + 30);
    if name_end + extra_len <= s.len() {
        assert(t.subrange(name_end, name_end + extra_len) =~= s.subrange(
            name_end,
            name_end + extra_len,
        ));
    }
}

/// Bytes appended after an archive do not change the local header and payload
/// ranges of an entry that resolve inside it.
pub proof fn law_trailing_junk_data_range(s: Seq<u8>, junk: Seq<u8>, base: u64, info: EntryInfo)
    requires
        s.len() + junk.len() <= u64::MAX,
        spec_data_range(s, base, info) is Ok,
    ensures
        spec_data_range(s + junk, base, info) == spec_data_range(s, base, info),
{
    let lho = base + info.local_header_offset;
    lemma_fields_frame(s, junk, lho);
    lemma_fields_frame(s, junk, lho + 6);
    lemma_fields_frame(s, junk, lho + 26);
    lemma_fields_frame(s, junk, lho + 28);
}

/// A prefix and trailing junk together. An archive `s` that opens, is not a
/// ZIP64 archive, has entries, and whose central directory ends where its EOCD
/// record starts, still opens once `pre` is placed before it and `junk` after
/// it: with the same directory offset and entry count, the prefix length as its
/// base offset, and its directory end moved by the prefix length. This holds
/// when the EOCD record stays inside the trailing scan window, no EOCD record
/// that fits starts after it, and the stored directory offset does not land on
/// a central-directory signature of `pre + s`.
pub proof fn law_prefix_and_trailing_junk(pre: Seq<u8>, s: Seq<u8>, junk: Seq<u8>)
    requires
        pre.len() + s.len() + junk.len() <= u64::MAX,
        spec_open(s) is Ok,
        spec_find_eocd(s) matches Ok((p, e)) && {
            &&& p >= eocd_window_start(s + junk)
            &&& forall|q: int| p < q <= s.len() + junk.len() - EOCD_LEN ==> !is_eocd_at(s + junk, q)
            &&& !spec_needs_zip64(e)
            &&& e.central_directory_offset + e.central_directory_size == p
            &&& e.entry_count > 0
            &&& !sig_at(pre + s, e.central_directory_offset as int, CENTRAL_HEADER_SIGNATURE)
        },
    ensures
        spec_open(s)->Ok_0.base_offset == 0,
        spec_open(pre + (s + junk)) == Ok::<ArchiveLayout, FormatError>(
            ArchiveLayout {
                size: (pre.len() + s.len() + junk.len()) as u64,
                base_offset: pre.len() as u64,
                directory_end_offset: (pre.len() + spec_open(s)->Ok_0.directory_end_offset) as u64,
                central_directory_offset: spec_open(s)->Ok_0.central_directory_offset,
                entry_count: spec_open(s)->Ok_0.entry_count,
            },
        ),
{
    let (p, e) = spec_find_eocd(s)->Ok_0;
    let c = e.central_directory_offset as int;
    crate::archive::lemma_last_eocd(s, eocd_window_start(s), s.len() - EOCD_LEN);
    lemma_find_eocd_frame(s, junk);
    lemma_fields_frame(pre + s, junk, c);
    assert((pre + s) + junk =~= pre + (s + junk));
    assert(!sig_at(pre + (s + junk), c, CENTRAL_HEADER_SIGNATURE));
    law_prefixed_archive(pre, s + junk);
}

/// A prefix and trailing junk together move every central-directory entry of
/// the archive by the prefix length and change nothing else about it, given
/// that the header's fixed part lies inside the archive.
pub proof fn law_prefix_and_trailing_junk_entry(
    pre: Seq<u8>,
    s: Seq<u8>,
    junk: Seq<u8>,
    h: u64,
    end: u64,
)
    requires
        pre.len() + s.len() + junk.len() + 0x40000 <= u64::MAX,
        h + CENTRAL_HEADER_LEN <= s.len(),
        h <= end <= s.len(),
    ensures
        spec_parse_entry(pre + (s + junk), (pre.len() + h) as u64, (pre.len() + end) as u64)
            == shifted_entry(spec_parse_entry(s, h, end), pre.len() as int),
{
    law_trailing_junk_entry(s, junk, h, end);
    law_prefixed_entry(pre, s + junk, h, end);
}

/// A prefix and trailing junk together move the local header and payload of an
/// entry that resolves inside the archive by the prefix length when the base
/// offset grows by it.
pub proof fn law_prefix_and_trailing_junk_data_range(
    pre: Seq<u8>,
    s: Seq<u8>,
    junk: Seq<u8>,
    base: u64,
    info: EntryInfo,
)
    requires
        pre.len() + s.len() + junk.len() + info.compressed_size + 0x40000 <= u64::MAX,
        spec_data_range(s, base, info) is Ok,
    ensures
        spec_data_range(pre + (s + junk), (base + pre.len()) as u64, info) == shifted_data_range(
            spec_data_range(s, base, info),
            pre.len() as int,
        ),
{
    law_trailing_junk_data_range(s, junk, base, info);
    law_prefixed_data_range(pre, s + junk, base, info);
}

/// Reading a payload with non-empty buffers until a read hands back nothing
/// yields exactly the payload: the chunks of successive successful reads of
/// [`crate::EntryReader::read`], started at the payload's start, add up to the
/// bytes from there to its end, and the last position is the end.
pub proof fn law_read_to_end(
    s: Seq<u8>,
    end: int,
    positions: Seq<int>,
    buf_lens: Seq<int>,
    chunks: Seq<Seq<u8>>,
)
    requires
        chunks.len() > 0,
        positions.len() == chunks.len() + 1,
        buf_lens.len() == chunks.len(),
        0 <= positions[0] <= end <= s.len(),
        forall|i: int| #![trigger buf_lens[i]] 0 <= i < buf_lens.len() ==> buf_lens[i] > 0,
        forall|i: int|
            #![trigger chunks[i]]
            0 <= i < chunks.len() ==> read_step_ok(
                s,
                end,
                positions[i],
                buf_lens[i],
                chunks[i],
                positions[i + 1],
            ),
        chunks.last().len() == 0,
    ensures
        positions.last() == end,
        concat(chunks) == s.subrange(positions[0], end),
    decreases chunks.len(),
{
    let c0 = chunks[0];
    assert(buf_lens[0] > 0);
    assert(read_step_ok(s, end, positions[0], buf_lens[0], c0, positions[1]));
    if chunks.len() == 1 {
        assert(concat(chunks.drop_first()) =~= Seq::<u8>::empty());
        assert(concat(chunks) =~= s.subrange(positions[0], end));
    } else {
        let rest_positions = positions.drop_first();
        let rest_lens = buf_lens.drop_first();
        let rest = chunks.drop_first();
        assert forall|i: int| #![trigger rest_lens[i]] 0 <= i < rest_lens.len() implies rest_lens[i] > 0 by {
            assert(rest_lens[i] == buf_lens[i + 1]);
        }
        assert forall|i: int| #![trigger rest[i]] 0 <= i < rest.len() implies read_step_ok(
            s,
            end,
            rest_positions[i],
            rest_lens[i],
            rest[i],
            rest_positions[i + 1],
        ) by {
            assert(chunks[i + 1] == rest[i]);
            assert(read_step_ok(
                s,
                end,
                positions[i + 1],
                buf_lens[i + 1],
                chunks[i + 1],
                positions[i + 1 + 1],
            ));
            assert(rest_positions[i] == positions[i + 1]);
            assert(rest_positions[i + 1] == positions[i + 2]);
            assert(rest_lens[i] == buf_lens[i + 1]);
        }
        assert(rest.last() == chunks.last());
        law_read_to_end(s, end, rest_positions, rest_lens, rest);
        assert(concat(chunks) =~= s.subrange(positions[0], end));
    }
}

/// `Entry::reader` and `Entry::data_range` agree on the same entry whenever
/// neither call hits an I/O error: the reader exists exactly when the range
/// resolves, then covers its payload range, and both report the same format
/// error otherwise. Each call reads the local header itself, so an I/O error
/// in one says nothing of the other.
pub proof fn law_reader_agrees_with_data_range<'a, R: Reader>(
    entry: &Entry<'a, R>,
    range: Result<DataRange, Error<R::Error>>,
    payload: Result<EntryReader<'a, R>, Error<R::Error>>,
)
    requires
        call_ensures(Entry::<'a, R>::data_range, (entry,), range),
        call_ensures(Entry::<'a, R>::reader, (entry,), payload),
        !(range matches Err(Error::Io(_))),
        !(payload matches Err(Error::Io(_))),
    ensures
        payload is Ok <==> range is Ok,
        range matches Ok(d) ==> payload matches Ok(rd) && rd.archive() == entry.archive()
            && rd.position() == d.data_range.start && rd.end() == d.data_range.end,
        range matches Err(Error::Format(e)) ==> payload matches Err(Error::Format(x)) && x == e,
{
}

/// Where an entry's payload lies: its local header starts at the base offset
/// plus the stored local-header offset; the name follows the 30 fixed bytes
/// for as many bytes as the local name length (at +26) says; the local extra
/// field follows the name for as many bytes as the local extra length (at +28)
/// says; the payload starts right after that extra field, where the local
/// header ends, and runs for the compressed size.
pub proof fn law_payload_follows_local_extra_field(s: Seq<u8>, base: u64, info: EntryInfo)
    ensures
        spec_data_range(s, base, info) matches Ok(d) ==> {
            let lho = base + info.local_header_offset;
            let name_end = lho + 30 + le16(s, lho + 26);
            let extra_end = name_end + le16(s, lho + 28);
            &&& d.local_header_range.start == lho
            &&& d.local_name_range.start == lho + 30
            &&& d.local_name_range.end == name_end
            &&& d.local_extra_range.start == name_end
            &&& d.local_extra_range.end - d.local_extra_range.start == le16(s, lho + 28)
            &&& d.local_header_range.end == extra_end
            &&& d.data_range.start == extra_end
            &&& d.data_range.end == extra_end + info.compressed_size
        },
{
}

/// A central-directory record spans its 46 fixed bytes, its name, its extra
/// field and its comment, whose lengths are stored at +28, +30 and +32: parsing
/// the record at `h` hands back the position right after all of them as the
/// next record's position, and its name is the bytes right after the fixed part.
pub proof fn law_next_record_follows_whole_record(s: Seq<u8>, h: u64, end: u64)
    ensures
        spec_parse_entry(s, h, end) matches Ok((info, next)) ==> {
            &&& next == h + 46 + le16(s, h + 28) + le16(s, h + 30) + le16(s, h + 32)
            &&& next <= end
            &&& info.name_range.start == h + 46
            &&& info.name_range.end == h + 46 + le16(s, h + 28)
        },
{
}

/// Parsing a central-directory record rejects it for its flags only when bit 6
/// (strong encryption) or bit 13 (masked headers) is set; any other flag, such
/// as bit 0 for traditional encryption, is kept in the parsed entry.
pub proof fn law_parse_rejects_only_strong_encryption_flags(s: Seq<u8>, h: u64, end: u64)
    ensures
        spec_parse_entry(s, h, end) == Err::<(EntryInfo, u64), FormatError>(
            FormatError::Unsupported(Unsupported::StrongEncryption),
        ) ==> (le16(s, h + 8) as u16) & 0x0040 != 0 || (le16(s, h + 8) as u16) & 0x2000 != 0,
        spec_parse_entry(s, h, end) matches Ok((info, _)) ==> info.flags == le16(s, h + 8) as u16
            && info.flags & 0x0040 == 0 && info.flags & 0x2000 == 0,
{
    let name_end = h + 46 + le16(s, h + 28);
    let extra_len = le16(s, h + 30);
    if 0 <= name_end && name_end + extra_len <= s.len() {
        lemma_zip64_extra_fails_only_as_invalid(
            s.subrange(name_end, name_end + extra_len),
            le32(s, h + 24) == u32::MAX,
            le32(s, h + 20) == u32::MAX,
            le32(s, h + 42) == u32::MAX,
        );
    }
}

/// Decoding the ZIP64 extra field fails only with an invalid record, and on
/// success supplies exactly the needed values.
proof fn lemma_zip64_extra_fails_only_as_invalid(
    extra: Seq<u8>,
    need_uncompressed: bool,
    need_compressed: bool,
    need_offset: bool,
)
    ensures
        spec_zip64_extra(extra, need_uncompressed, need_compressed, need_offset) is Ok
            || spec_zip64_extra(extra, need_uncompressed, need_compressed, need_offset) == Err::<
            crate::extra::Zip64Extra,
            FormatError,
        >(FormatError::InvalidRecord),
        spec_zip64_extra(extra, need_uncompressed, need_compressed, need_offset) matches Ok(z)
            ==> (z.uncompressed_size is Some <==> need_uncompressed) && (z.compressed_size is Some
            <==> need_compressed) && (z.local_header_offset is Some <==> need_offset),
    decreases extra.len(),
{
    if extra.len() >= 4 {
        let len = le16(extra, 2);
        if len <= extra.len() - 4 && le16(extra, 0) != 1 {
            lemma_zip64_extra_fails_only_as_invalid(
                extra.subrange(4 + len, extra.len() as int),
                need_uncompressed,
                need_compressed,
                need_offset,
            );
        }
    }
}

/// The ZIP64 extended-information field holds only the values whose 32-bit
/// header fields are saturated, eight bytes each, packed in the order
/// uncompressed size, compressed size, local-header offset. For an extra area
/// that is one such field, the `k`-th needed value is read at byte `8 * k` of
/// the field's data, and the field is long enough exactly when it holds eight
/// bytes per needed value.
pub proof fn law_zip64_field_packs_needed_values(
    extra: Seq<u8>,
    need_uncompressed: bool,
    need_compressed: bool,
    need_offset: bool,
)
    requires
        extra.len() >= 4,
        le16(extra, 0) == 1,
        le16(extra, 2) == extra.len() - 4,
    ensures
        ({
            let data = extra.subrange(4, extra.len() as int);
            let nu: int = if need_uncompressed { 1 } else { 0 };
            let nc: int = if need_compressed { 1 } else { 0 };
            let no: int = if need_offset { 1 } else { 0 };
            let r = spec_zip64_extra(extra, need_uncompressed, need_compressed, need_offset);
            &&& (r is Ok <==> data.len() >= 8 * (nu + nc + no))
            &&& r matches Ok(z) ==> {
                &&& z.uncompressed_size == (if need_uncompressed {
                    Some(le64(data, 0) as u64)
                } else {
                    None
                })
                &&& z.compressed_size == (if need_compressed {
                    Some(le64(data, 8 * nu) as u64)
                } else {
                    None
                })
                &&& z.local_header_offset == (if need_offset {
                    Some(le64(data, 8 * (nu + nc)) as u64)
                } else {
                    None
                })
            }
        }),
{
    assert(extra.subrange(4, 4 + le16(extra, 2)) =~= extra.subrange(4, extra.len() as int));
}

/// An EOCD record with a saturated entry count, directory size or directory
/// offset defers to the ZIP64 EOCD record: an archive that opens then has a
/// ZIP64 record, found through the locator, whose entry count (at +32) and
/// directory offset (at +48) are the opened ones, and the directory ends
/// where that record starts.
pub proof fn law_saturated_eocd_defers_to_zip64(s: Seq<u8>)
    requires
        spec_open(s) is Ok,
        spec_find_eocd(s) matches Ok((p, e)) && (e.entry_count == 0xFFFF
            || e.central_directory_size == 0xFFFF_FFFF || e.central_directory_offset
            == 0xFFFF_FFFF),
    ensures
        spec_find_eocd(s) matches Ok((p, e)) && spec_zip64_metadata(s, p as int) matches Ok(z)
            && {
            &&& le32(s, z.record_offset as int) == ZIP64_EOCD_SIGNATURE
            &&& spec_open(s)->Ok_0.entry_count == le64(s, z.record_offset + 32)
            &&& spec_open(s)->Ok_0.central_directory_offset == le64(s, z.record_offset + 48)
            &&& spec_open(s)->Ok_0.directory_end_offset == z.record_offset
        },
{
}

/// An EOCD record with no saturated field is used as it stands: the opened
/// entry count is its 16-bit count (at +10), the directory offset its 32-bit
/// offset (at +16), and the directory ends where the EOCD record starts.
pub proof fn law_unsaturated_eocd_stands(s: Seq<u8>)
    requires
        s.len() <= u64::MAX,
        spec_open(s) is Ok,
        spec_find_eocd(s) matches Ok((p, e)) && e.entry_count != 0xFFFF
            && e.central_directory_size != 0xFFFF_FFFF && e.central_directory_offset
            != 0xFFFF_FFFF,
    ensures
        spec_find_eocd(s) matches Ok((p, e)) && {
            &&& spec_open(s)->Ok_0.entry_count == le16(s, p + 10)
            &&& spec_open(s)->Ok_0.central_directory_offset == le32(s, p + 16)
            &&& spec_open(s)->Ok_0.directory_end_offset == p
        },
{
    let p = spec_find_eocd(s)->Ok_0.0 as int;
    crate::archive::lemma_last_eocd(s, eocd_window_start(s), s.len() - EOCD_LEN);
    assert(0 <= le16(s, p + 10) < 0x10000);
    assert(0 <= le16(s, p + 16) < 0x10000 && 0 <= le16(s, p + 18) < 0x10000);
    assert(0 <= le32(s, p + 16) < 0x1_0000_0000);
}

/// The metadata of a parsed central-directory record comes from its fields:
/// the record starts with the central-header signature, the CRC-32 is the
/// 32-bit value at +16 and the compression method the 16-bit id at +10; a
/// size or local-header offset whose 32-bit field (at +20, +24, +42) is not
/// saturated is that field, and a saturated one is the value that the ZIP64
/// field of the record's extra area supplies.
pub proof fn law_entry_metadata_from_header(s: Seq<u8>, h: u64, end: u64)
    ensures
        spec_parse_entry(s, h, end) matches Ok((info, _)) ==> {
            let name_end = h + 46 + le16(s, h + 28);
            let extra = s.subrange(name_end, name_end + le16(s, h + 30));
            let z = spec_zip64_extra(
                extra,
                le32(s, h + 24) == u32::MAX,
                le32(s, h + 20) == u32::MAX,
                le32(s, h + 42) == u32::MAX,
            );
            &&& le32(s, h as int) == CENTRAL_HEADER_SIGNATURE
            &&& info.crc32 == le32(s, h + 16)
            &&& spec_raw(info.compression) == le16(s, h + 10)
            &&& info.compressed_size == (if le32(s, h + 20) == u32::MAX {
                z->Ok_0.compressed_size->Some_0 as int
            } else {
                le32(s, h + 20)
            })
            &&& info.uncompressed_size == (if le32(s, h + 24) == u32::MAX {
                z->Ok_0.uncompressed_size->Some_0 as int
            } else {
                le32(s, h + 24)
            })
            &&& info.local_header_offset == (if le32(s, h + 42) == u32::MAX {
                z->Ok_0.local_header_offset->Some_0 as int
            } else {
                le32(s, h + 42)
            })
        },
{
    if let Ok((info, _)) = spec_parse_entry(s, h, end) {
        let m = le16(s, h + 10) as u16;
        let name_end = h + 46 + le16(s, h + 28);
        lemma_zip64_extra_fails_only_as_invalid(
            s.subrange(name_end, name_end + le16(s, h + 30)),
            le32(s, h + 24) == u32::MAX,
            le32(s, h + 20) == u32::MAX,
            le32(s, h + 42) == u32::MAX,
        );
        assert(0 <= le32(s, h + 16) < 0x1_0000_0000);
        assert(0 <= le32(s, h + 20) < 0x1_0000_0000);
        assert(0 <= le32(s, h + 24) < 0x1_0000_0000);
        assert(0 <= le32(s, h + 42) < 0x1_0000_0000);
        assert(0 <= le16(s, h + 10) < 0x10000);
        assert(0 <= le16(s, h + 16) < 0x10000 && 0 <= le16(s, h + 18) < 0x10000);
        assert(0 <= le16(s, h + 20) < 0x10000 && 0 <= le16(s, h + 22) < 0x10000);
        assert(0 <= le16(s, h + 24) < 0x10000 && 0 <= le16(s, h + 26) < 0x10000);
        assert(0 <= le16(s, h + 42) < 0x10000 && 0 <= le16(s, h + 44) < 0x10000);
        law_compression_raw_roundtrip(info.compression, m);
    }
}

/// A local header resolves only when it carries the local-header signature,
/// neither the encryption bit (0) nor the masked-headers bit (13) is set in its
/// flags (at +6), the entry itself is not marked encrypted, and its payload
/// ends inside the archive.
pub proof fn law_payload_needs_plain_local_header(s: Seq<u8>, base: u64, info: EntryInfo)
    ensures
        spec_data_range(s, base, info) matches Ok(d) ==> {
            let lho = base + info.local_header_offset;
            &&& le32(s, lho) == LOCAL_HEADER_SIGNATURE
            &&& (le16(s, lho + 6) as u16) & 0x0001 == 0
            &&& (le16(s, lho + 6) as u16) & 0x2000 == 0
            &&& info.flags & 0x0001 == 0
            &&& d.data_range.end <= s.len()
        },
{
}

/// Extra fields of other kinds before the ZIP64 field are skipped whole: an
/// extra area that starts with a complete field of a kind other than 1 decodes
/// as the area that follows that field.
pub proof fn law_zip64_search_skips_other_fields(
    extra: Seq<u8>,
    need_uncompressed: bool,
    need_compressed: bool,
    need_offset: bool,
)
    requires
        extra.len() >= 4,
        le16(extra, 0) != 1,
        4 + le16(extra, 2) <= extra.len(),
    ensures
        spec_zip64_extra(extra, need_uncompressed, need_compressed, need_offset)
            == spec_zip64_extra(
            extra.subrange(4 + le16(extra, 2), extra.len() as int),
            need_uncompressed,
            need_compressed,
            need_offset,
        ),
{
}

} // verus!
