use tinyzip::{
    Archive, Compression, DataKind, Error, FormatError, Reader, SliceReaderError, Unsupported,
};

struct FileSpec<'a> {
    name: &'a [u8],
    data: &'a [u8],
    method: u16,
    central_flags: u16,
    local_flags: u16,
}

fn stored<'a>(name: &'a [u8], data: &'a [u8]) -> FileSpec<'a> {
    FileSpec { name, data, method: 0, central_flags: 0, local_flags: 0 }
}

fn push16(out: &mut Vec<u8>, v: u16) {
    out.extend_from_slice(&v.to_le_bytes());
}

fn push32(out: &mut Vec<u8>, v: u32) {
    out.extend_from_slice(&v.to_le_bytes());
}

fn push64(out: &mut Vec<u8>, v: u64) {
    out.extend_from_slice(&v.to_le_bytes());
}

/// Builds an archive of `files` preceded by `prefix` and followed by `suffix`.
/// Stored offsets are relative to the start of the archive proper when
/// `relative_offsets`, else absolute.
fn build(files: &[FileSpec], prefix: &[u8], suffix: &[u8], relative_offsets: bool) -> Vec<u8> {
    let mut out = prefix.to_vec();
    let shift = if relative_offsets { prefix.len() as u32 } else { 0 };
    let mut local_offsets = Vec::new();
    for f in files {
        local_offsets.push(out.len() as u32 - shift);
        push32(&mut out, 0x0403_4B50);
        push16(&mut out, 20);
        push16(&mut out, f.local_flags);
        push16(&mut out, f.method);
        push16(&mut out, 0);
        push16(&mut out, 0);
        push32(&mut out, 0x1234_5678);
        push32(&mut out, f.data.len() as u32);
        push32(&mut out, f.data.len() as u32);
        push16(&mut out, f.name.len() as u16);
        push16(&mut out, 0);
        out.extend_from_slice(f.name);
        out.extend_from_slice(f.data);
    }
    let cd_offset = out.len();
    for (f, local) in files.iter().zip(local_offsets.iter()) {
        push32(&mut out, 0x0201_4B50);
        push16(&mut out, 20);
        push16(&mut out, 20);
        push16(&mut out, f.central_flags);
        push16(&mut out, f.method);
        push16(&mut out, 0);
        push16(&mut out, 0);
        push32(&mut out, 0x1234_5678);
        push32(&mut out, f.data.len() as u32);
        push32(&mut out, (f.data.len() as u32) * 2);
        push16(&mut out, f.name.len() as u16);
        push16(&mut out, 0);
        push16(&mut out, 0);
        push16(&mut out, 0);
        push16(&mut out, 0);
        push32(&mut out, 0);
        push32(&mut out, *local);
        out.extend_from_slice(f.name);
    }
    let cd_size = out.len() - cd_offset;
    push32(&mut out, 0x0605_4B50);
    push16(&mut out, 0);
    push16(&mut out, 0);
    push16(&mut out, files.len() as u16);
    push16(&mut out, files.len() as u16);
    push32(&mut out, cd_size as u32);
    push32(&mut out, cd_offset as u32 - shift);
    push16(&mut out, 0);
    out.extend_from_slice(suffix);
    out
}

/// An archive with one stored entry whose sizes and local offset live in the
/// ZIP64 extra field and whose directory is described by ZIP64 records.
fn zip64_archive(name: &[u8], data: &[u8]) -> Vec<u8> {
    let mut out = Vec::new();
    push32(&mut out, 0x0403_4B50);
    push16(&mut out, 45);
    push16(&mut out, 0);
    push16(&mut out, 0);
    push16(&mut out, 0);
    push16(&mut out, 0);
    push32(&mut out, 0);
    push32(&mut out, 0xFFFF_FFFF);
    push32(&mut out, 0xFFFF_FFFF);
    push16(&mut out, name.len() as u16);
    push16(&mut out, 0);
    out.extend_from_slice(name);
    out.extend_from_slice(data);

    let cd_offset = out.len();
    push32(&mut out, 0x0201_4B50);
    push16(&mut out, 45);
    push16(&mut out, 45);
    push16(&mut out, 0);
    push16(&mut out, 0);
    push16(&mut out, 0);
    push16(&mut out, 0);
    push32(&mut out, 0);
    push32(&mut out, 0xFFFF_FFFF);
    push32(&mut out, 0xFFFF_FFFF);
    push16(&mut out, name.len() as u16);
    push16(&mut out, 28);
    push16(&mut out, 0);
    push16(&mut out, 0);
    push16(&mut out, 0);
    push32(&mut out, 0);
    push32(&mut out, 0xFFFF_FFFF);
    out.extend_from_slice(name);
    push16(&mut out, 0x0001);
    push16(&mut out, 24);
    push64(&mut out, data.len() as u64 + 1000);
    push64(&mut out, data.len() as u64);
    push64(&mut out, 0);
    let cd_size = out.len() - cd_offset;

    let zip64_offset = out.len();
    push32(&mut out, 0x0606_4B50);
    push64(&mut out, 44);
    push16(&mut out, 45);
    push16(&mut out, 45);
    push32(&mut out, 0);
    push32(&mut out, 0);
    push64(&mut out, 1);
    push64(&mut out, 1);
    push64(&mut out, cd_size as u64);
    push64(&mut out, cd_offset as u64);

    push32(&mut out, 0x0706_4B50);
    push32(&mut out, 0);
    push64(&mut out, zip64_offset as u64);
    push32(&mut out, 1);

    push32(&mut out, 0x0605_4B50);
    push16(&mut out, 0);
    push16(&mut out, 0);
    push16(&mut out, 0xFFFF);
    push16(&mut out, 0xFFFF);
    push32(&mut out, 0xFFFF_FFFF);
    push32(&mut out, 0xFFFF_FFFF);
    push16(&mut out, 0);
    out
}

fn format_err<E>(err: &Error<E>) -> FormatError {
    match err {
        Error::Io(_) => panic!("unexpected I/O error"),
        Error::Format(kind) => *kind,
    }
}

fn names<R: Reader>(archive: &Archive<R>) -> Vec<Vec<u8>> {
    let mut out = Vec::new();
    let mut entries = archive.entries();
    while let Some(entry) = entries.next() {
        let entry = entry.ok().expect("entry parses");
        let mut buf = [0u8; 256];
        let path = entry.read_path(&mut buf).ok().expect("path reads");
        out.push(path.to_vec());
    }
    out
}

#[test]
fn entries_are_listed_in_directory_order() {
    let files = [stored(b"a.txt", b"alpha"), stored(b"dir/b.txt", b"beta")];
    let bytes = build(&files, b"", b"", true);
    let archive = Archive::open(bytes.as_slice()).unwrap();
    assert_eq!(archive.entry_count(), 2);
    assert_eq!(archive.size(), bytes.len() as u64);
    assert_eq!(names(&archive), vec![b"a.txt".to_vec(), b"dir/b.txt".to_vec()]);
}

#[test]
fn iteration_is_fused_after_last_entry() {
    let files = [stored(b"a.txt", b"alpha")];
    let bytes = build(&files, b"", b"", true);
    let archive = Archive::open(bytes.as_slice()).unwrap();
    let mut entries = archive.entries();
    assert!(entries.next().unwrap().is_ok());
    assert!(entries.next().is_none());
    assert!(entries.next().is_none());
}

#[test]
fn iteration_stops_after_first_error() {
    let files = [stored(b"a.txt", b"alpha"), stored(b"b.txt", b"beta")];
    let mut bytes = build(&files, b"", b"", true);
    let cd_offset = 2 * 30 + 5 + 5 + 5 + 4;
    bytes[cd_offset] = 0;
    let archive = Archive::open(bytes.as_slice()).unwrap();
    let mut entries = archive.entries();
    let first = entries.next().unwrap();
    assert_eq!(format_err(&first.err().unwrap()), FormatError::InvalidSignature);
    assert!(entries.next().is_none());
}

#[test]
fn entry_count_beyond_directory_is_truncated() {
    let files = [stored(b"a.txt", b"alpha")];
    let mut bytes = build(&files, b"", b"", true);
    let eocd = bytes.len() - 22;
    bytes[eocd + 10] = 2;
    let archive = Archive::open(bytes.as_slice()).unwrap();
    assert_eq!(archive.entry_count(), 2);
    let mut entries = archive.entries();
    assert!(entries.next().unwrap().is_ok());
    let second = entries.next().unwrap();
    assert_eq!(format_err(&second.err().unwrap()), FormatError::Truncated);
    assert!(entries.next().is_none());
}

#[test]
fn entry_metadata_comes_from_central_directory() {
    let files = [FileSpec {
        name: b"doc.txt",
        data: b"compressed",
        method: 8,
        central_flags: 0x0800,
        local_flags: 0,
    }];
    let bytes = build(&files, b"", b"", true);
    let archive = Archive::open(bytes.as_slice()).unwrap();
    let entry = archive.entries().next().unwrap().unwrap();
    assert_eq!(entry.compression(), Compression::Deflated);
    assert_eq!(entry.flags(), 0x0800);
    assert!(entry.path_is_utf8());
    assert_eq!(entry.crc32(), 0x1234_5678);
    assert_eq!(entry.compressed_size(), 10);
    assert_eq!(entry.uncompressed_size(), 20);
    let range = entry.data_range().unwrap();
    assert_eq!(range.kind, DataKind::Compressed(Compression::Deflated));
}

#[test]
fn utf8_flag_is_bit_eleven_only() {
    let files = [stored(b"plain.txt", b"x")];
    let bytes = build(&files, b"", b"", true);
    let archive = Archive::open(bytes.as_slice()).unwrap();
    let entry = archive.entries().next().unwrap().unwrap();
    assert!(!entry.path_is_utf8());
}

#[test]
fn data_range_locates_payload() {
    let files = [stored(b"a.txt", b"alpha"), stored(b"bb.txt", b"beta!")];
    let bytes = build(&files, b"", b"", true);
    let archive = Archive::open(bytes.as_slice()).unwrap();
    let mut entries = archive.entries();
    entries.next();
    let entry = entries.next().unwrap().unwrap();
    let range = entry.data_range().unwrap();
    let first_len = 30 + 5 + 5;
    assert_eq!(range.local_header_range, first_len..first_len + 30 + 6);
    assert_eq!(range.local_name_range, first_len + 30..first_len + 36);
    assert_eq!(range.local_extra_range, first_len + 36..first_len + 36);
    assert_eq!(range.data_range, first_len + 36..first_len + 41);
    assert_eq!(range.kind, DataKind::Stored);
    let data = &bytes[range.data_range.start as usize..range.data_range.end as usize];
    assert_eq!(data, b"beta!");
    assert_eq!(range.clone(), range);
}

#[test]
fn entry_reader_yields_payload_in_pieces() {
    let files = [stored(b"a.txt", b"0123456789")];
    let bytes = build(&files, b"", b"", true);
    let archive = Archive::open(bytes.as_slice()).unwrap();
    let entry = archive.entries().next().unwrap().unwrap();
    let mut reader = entry.reader().unwrap();
    let mut buf = [0u8; 4];
    let mut collected = Vec::new();
    loop {
        let n = reader.read(&mut buf).unwrap();
        if n == 0 {
            break;
        }
        collected.extend_from_slice(&buf[..n]);
    }
    assert_eq!(collected, b"0123456789");
}

#[test]
fn prefixed_archive_uses_inferred_base_offset() {
    let files = [stored(b"a.txt", b"alpha")];
    let prefix = b"#!/bin/sh\nexit 0\n";
    let bytes = build(&files, prefix, b"", true);
    let archive = Archive::open(bytes.as_slice()).unwrap();
    let entry = archive.entries().next().unwrap().unwrap();
    let range = entry.data_range().unwrap();
    assert_eq!(range.local_header_range.start, prefix.len() as u64);
    assert_eq!(&bytes[range.data_range.start as usize..range.data_range.end as usize], b"alpha");
}

#[test]
fn prefixed_archive_with_absolute_offsets_opens() {
    let files = [stored(b"a.txt", b"alpha")];
    let prefix = b"PREFIX-DATA";
    let bytes = build(&files, prefix, b"", false);
    let archive = Archive::open(bytes.as_slice()).unwrap();
    assert_eq!(names(&archive), vec![b"a.txt".to_vec()]);
}

#[test]
fn trailing_junk_is_accepted() {
    let files = [stored(b"a.txt", b"alpha")];
    let bytes = build(&files, b"", b"trailing junk bytes", true);
    let archive = Archive::open(bytes.as_slice()).unwrap();
    assert_eq!(names(&archive), vec![b"a.txt".to_vec()]);
}

#[test]
fn zip64_sizes_and_offsets_are_resolved() {
    let bytes = zip64_archive(b"README", b"zip64 payload");
    let archive = Archive::open(bytes.as_slice()).unwrap();
    assert_eq!(archive.entry_count(), 1);
    let entry = archive.entries().next().unwrap().unwrap();
    assert_eq!(entry.compressed_size(), 13);
    assert_eq!(entry.uncompressed_size(), 1013);
    let range = entry.data_range().unwrap();
    assert_eq!(&bytes[range.data_range.start as usize..range.data_range.end as usize], b"zip64 payload");
}

#[test]
fn zip64_locator_with_other_disks_is_rejected() {
    let mut bytes = zip64_archive(b"README", b"data");
    let locator = bytes.len() - 22 - 20;
    bytes[locator + 16] = 2;
    let err = Archive::open(bytes.as_slice()).err().unwrap();
    assert_eq!(format_err(&err), FormatError::Unsupported(Unsupported::MultiDisk));
}

#[test]
fn zip64_without_locator_is_rejected() {
    let mut bytes = zip64_archive(b"README", b"data");
    let locator = bytes.len() - 22 - 20;
    bytes[locator] = 0;
    let err = Archive::open(bytes.as_slice()).err().unwrap();
    assert_eq!(format_err(&err), FormatError::InvalidSignature);
}

#[test]
fn bytes_without_eocd_are_not_zip() {
    let bytes = vec![0u8; 100];
    let err = Archive::open(bytes.as_slice()).err().unwrap();
    assert_eq!(format_err(&err), FormatError::NotZip);
}

#[test]
fn empty_directory_at_nonzero_offset_is_invalid() {
    let mut bytes = b"junk".to_vec();
    bytes.extend_from_slice(&{
        let mut out = Vec::new();
        push32(&mut out, 0x0605_4B50);
        push16(&mut out, 0);
        push16(&mut out, 0);
        push16(&mut out, 0);
        push16(&mut out, 0);
        push32(&mut out, 0);
        push32(&mut out, 0);
        push16(&mut out, 0);
        out
    });
    let err = Archive::open(bytes.as_slice()).err().unwrap();
    assert_eq!(format_err(&err), FormatError::InvalidOffset);
}

#[test]
fn unsupported_method_is_reported_with_its_id() {
    let files = [FileSpec { name: b"a.bz2", data: b"x", method: 12, central_flags: 0, local_flags: 0 }];
    let bytes = build(&files, b"", b"", true);
    let archive = Archive::open(bytes.as_slice()).unwrap();
    let err = archive.entries().next().unwrap().err().unwrap();
    assert_eq!(format_err(&err), FormatError::Unsupported(Unsupported::Compression(12)));
}

#[test]
fn strong_encryption_flag_is_rejected_while_iterating() {
    let files = [FileSpec { name: b"a", data: b"x", method: 0, central_flags: 0x0040, local_flags: 0 }];
    let bytes = build(&files, b"", b"", true);
    let archive = Archive::open(bytes.as_slice()).unwrap();
    let err = archive.entries().next().unwrap().err().unwrap();
    assert_eq!(format_err(&err), FormatError::Unsupported(Unsupported::StrongEncryption));
}

#[test]
fn masked_local_header_is_rejected_on_data_access() {
    let files = [FileSpec { name: b"a", data: b"x", method: 0, central_flags: 0, local_flags: 0x2000 }];
    let bytes = build(&files, b"", b"", true);
    let archive = Archive::open(bytes.as_slice()).unwrap();
    let entry = archive.entries().next().unwrap().unwrap();
    let err = entry.data_range().err().unwrap();
    assert_eq!(format_err(&err), FormatError::Unsupported(Unsupported::MaskedLocalHeaders));
}

#[test]
fn bad_local_signature_is_rejected_on_data_access() {
    let files = [stored(b"a", b"x")];
    let mut bytes = build(&files, b"", b"", true);
    bytes[0] = 0;
    let archive = Archive::open(bytes.as_slice()).unwrap();
    let entry = archive.entries().next().unwrap().unwrap();
    let err = entry.data_range().err().unwrap();
    assert_eq!(format_err(&err), FormatError::InvalidSignature);
}

#[test]
fn zip64_extra_that_overruns_is_invalid_record() {
    let mut bytes = zip64_archive(b"README", b"data");
    // Shrink the declared ZIP64 field so it lacks the offset value.
    let extra_len_at = 30 + 6 + 4 + 30;
    let field_len_at = 30 + 6 + 4 + 46 + 6 + 2;
    bytes[extra_len_at] = 28;
    bytes[field_len_at] = 16;
    let archive = Archive::open(bytes.as_slice()).unwrap();
    let err = archive.entries().next().unwrap().err().unwrap();
    assert_eq!(format_err(&err), FormatError::InvalidRecord);
}

#[test]
fn read_path_needs_a_large_enough_buffer() {
    let files = [stored(b"some/long/name.txt", b"x")];
    let bytes = build(&files, b"", b"", true);
    let archive = Archive::open(bytes.as_slice()).unwrap();
    let entry = archive.entries().next().unwrap().unwrap();
    let mut small = [0u8; 4];
    let err = entry.read_path(&mut small).err().unwrap();
    assert_eq!(format_err(&err), FormatError::InvalidOffset);
    let mut exact = [0u8; 18];
    assert_eq!(entry.read_path(&mut exact).unwrap(), b"some/long/name.txt");
}

#[test]
fn filename_is_compares_the_last_component() {
    let files = [stored(b"some/dir/name.txt", b"x"), stored(b"bare.txt", b"y"), stored(b"dir/", b"")];
    let bytes = build(&files, b"", b"", true);
    let archive = Archive::open(bytes.as_slice()).unwrap();
    let mut entries = archive.entries();
    let nested = entries.next().unwrap().unwrap();
    assert!(nested.filename_is(b"name.txt").unwrap());
    assert!(!nested.filename_is(b"dir/name.txt").unwrap());
    assert!(!nested.filename_is(b"name.tx").unwrap());
    assert!(!nested.filename_is(b"nbme.txt").unwrap());
    let bare = entries.next().unwrap().unwrap();
    assert!(bare.filename_is(b"bare.txt").unwrap());
    let dir = entries.next().unwrap().unwrap();
    assert!(dir.filename_is(b"").unwrap());
    assert!(!dir.filename_is(b"dir").unwrap());
}

#[test]
fn filename_is_handles_components_longer_than_a_chunk() {
    let mut name = b"x/".to_vec();
    let long = vec![b'q'; 150];
    name.extend_from_slice(&long);
    let files = [stored(&name, b"x")];
    let bytes = build(&files, b"", b"", true);
    let archive = Archive::open(bytes.as_slice()).unwrap();
    let entry = archive.entries().next().unwrap().unwrap();
    assert!(entry.filename_is(&long).unwrap());
    let mut other = long.clone();
    other[149] = b'r';
    assert!(!entry.filename_is(&other).unwrap());
}

#[test]
fn compression_raw_ids_round_trip() {
    assert_eq!(Compression::from_raw(0), Some(Compression::Stored));
    assert_eq!(Compression::from_raw(8), Some(Compression::Deflated));
    assert_eq!(Compression::from_raw(9), None);
    assert_eq!(Compression::Stored.raw(), 0);
    assert_eq!(Compression::Deflated.raw(), 8);
    for c in [Compression::Stored, Compression::Deflated] {
        assert_eq!(Compression::from_raw(c.raw()), Some(c));
    }
}

#[test]
fn slice_reader_reads_exact_ranges() {
    let data: &[u8] = b"abcdef";
    assert_eq!(data.size(), Ok(6));
    let mut buf = [0u8; 3];
    assert_eq!(data.read_exact_at(2, &mut buf), Ok(()));
    assert_eq!(&buf, b"cde");
    assert_eq!(data.read_exact_at(4, &mut buf), Err(SliceReaderError::OutOfBounds));
    assert_eq!(data.read_exact_at(u64::MAX, &mut buf), Err(SliceReaderError::OutOfBounds));
}

#[test]
fn error_messages_describe_each_kind() {
    assert_eq!(SliceReaderError::OutOfBounds.message(), "byte range out of bounds");
    assert_eq!(FormatError::NotZip.message(), "not a ZIP archive");
    assert_eq!(FormatError::Truncated.message(), "truncated ZIP archive");
    assert_eq!(FormatError::InvalidSignature.message(), "invalid ZIP signature");
    assert_eq!(FormatError::InvalidOffset.message(), "invalid ZIP offset");
    assert_eq!(FormatError::InvalidRecord.message(), "invalid ZIP record");
    assert_eq!(
        FormatError::Unsupported(Unsupported::MultiDisk).message(),
        "multi-disk ZIP archives are unsupported"
    );
    assert_eq!(
        FormatError::Unsupported(Unsupported::StrongEncryption).message(),
        "strong encryption is unsupported"
    );
    assert_eq!(
        FormatError::Unsupported(Unsupported::MaskedLocalHeaders).message(),
        "masked local headers are unsupported"
    );
    assert_eq!(
        FormatError::Unsupported(Unsupported::Compression(3)).message(),
        "unsupported ZIP compression method"
    );
}

struct FailingReader;

impl Reader for FailingReader {
    type Error = &'static str;

    fn size(&self) -> Result<u64, Self::Error> {
        Err("no size")
    }

    fn read_exact_at(&self, _pos: u64, _buf: &mut [u8]) -> Result<(), Self::Error> {
        Err("no read")
    }
}

#[test]
fn reader_errors_are_passed_through() {
    match Archive::open(FailingReader) {
        Err(Error::Io(e)) => assert_eq!(e, "no size"),
        _ => panic!("expected an I/O error"),
    }
}

#[test]
fn last_fitting_eocd_record_in_window_wins() {
    let files = [stored(b"a.txt", b"alpha")];
    let mut junk = Vec::new();
    push32(&mut junk, 0x0605_4B50);
    junk.extend_from_slice(&[0u8; 18]);
    let bytes = build(&files, b"", &junk, true);
    let err = Archive::open(bytes.as_slice()).err().unwrap();
    assert_eq!(format_err(&err), FormatError::InvalidOffset);
}

#[test]
fn eocd_signature_whose_comment_overruns_is_skipped() {
    let files = [stored(b"a.txt", b"alpha")];
    let mut junk = Vec::new();
    push32(&mut junk, 0x0605_4B50);
    junk.extend_from_slice(&[0u8; 16]);
    push16(&mut junk, 500);
    let bytes = build(&files, b"", &junk, true);
    let archive = Archive::open(bytes.as_slice()).unwrap();
    assert_eq!(names(&archive), vec![b"a.txt".to_vec()]);
}

#[test]
fn zip64_record_is_searched_when_advertised_offset_is_wrong() {
    let mut bytes = zip64_archive(b"README", b"zip64 payload");
    let locator = bytes.len() - 22 - 20;
    for b in &mut bytes[locator + 8..locator + 16] {
        *b = 0;
    }
    let archive = Archive::open(bytes.as_slice()).unwrap();
    assert_eq!(archive.entry_count(), 1);
    let entry = archive.entries().next().unwrap().unwrap();
    assert!(entry.filename_is(b"README").unwrap());
}

#[test]
fn prefixed_archive_lists_same_entries_and_payloads() {
    let files = [stored(b"one.txt", b"first"), stored(b"two/two.txt", b"second")];
    let plain = build(&files, b"", b"", true);
    let prefixed = build(&files, b"0123456789abcdef", b"", true);
    let a = Archive::open(plain.as_slice()).unwrap();
    let b = Archive::open(prefixed.as_slice()).unwrap();
    assert_eq!(names(&a), names(&b));
    let mut ea = a.entries();
    let mut eb = b.entries();
    while let (Some(x), Some(y)) = (ea.next(), eb.next()) {
        let x = x.ok().unwrap().data_range().unwrap();
        let y = y.ok().unwrap().data_range().unwrap();
        assert_eq!(x.data_range.start + 16, y.data_range.start);
        assert_eq!(x.data_range.end + 16, y.data_range.end);
        assert_eq!(x.kind, y.kind);
    }
}

struct FlakyReader<'a> {
    bytes: &'a [u8],
    fail: &'a std::cell::Cell<bool>,
}

impl Reader for FlakyReader<'_> {
    type Error = &'static str;

    fn size(&self) -> Result<u64, Self::Error> {
        Ok(self.bytes.len() as u64)
    }

    fn read_exact_at(&self, pos: u64, buf: &mut [u8]) -> Result<(), Self::Error> {
        if self.fail.get() {
            return Err("read failed");
        }
        let pos = pos as usize;
        buf.copy_from_slice(&self.bytes[pos..pos + buf.len()]);
        Ok(())
    }
}

#[test]
fn iteration_stops_after_io_error_and_when_done() {
    let files = [stored(b"a.txt", b"alpha"), stored(b"b.txt", b"beta")];
    let bytes = build(&files, b"", b"", true);
    let fail = std::cell::Cell::new(false);
    let archive = Archive::open(FlakyReader { bytes: &bytes, fail: &fail }).ok().unwrap();
    let mut entries = archive.entries();
    fail.set(true);
    match entries.next() {
        Some(Err(Error::Io(e))) => assert_eq!(e, "read failed"),
        _ => panic!("expected an I/O error"),
    }
    fail.set(false);
    assert!(entries.next().is_none());
    assert!(entries.next().is_none());
}

#[test]
fn short_buffer_is_left_untouched() {
    let files = [stored(b"some/long/name.txt", b"x")];
    let bytes = build(&files, b"", b"", true);
    let archive = Archive::open(bytes.as_slice()).unwrap();
    let entry = archive.entries().next().unwrap().unwrap();
    let mut small = [7u8; 4];
    assert!(entry.read_path(&mut small).is_err());
    assert_eq!(small, [7u8; 4]);
    let mut big = [9u8; 24];
    assert_eq!(entry.read_path(&mut big).unwrap(), b"some/long/name.txt");
    assert_eq!(&big[18..], &[9u8; 6]);
}

#[test]
fn exhausted_entry_reader_returns_zero() {
    let files = [stored(b"a.txt", b"abc")];
    let bytes = build(&files, b"", b"", true);
    let archive = Archive::open(bytes.as_slice()).unwrap();
    let entry = archive.entries().next().unwrap().unwrap();
    let mut reader = entry.reader().unwrap();
    let mut buf = [0u8; 8];
    assert_eq!(reader.read(&mut buf).unwrap(), 3);
    assert_eq!(&buf[..3], b"abc");
    assert_eq!(reader.read(&mut buf).unwrap(), 0);
    assert_eq!(reader.read(&mut []).unwrap(), 0);
}

#[test]
fn prefix_and_trailing_junk_keep_entries_and_payloads() {
    let files = [stored(b"one.txt", b"first"), stored(b"dir/two.txt", b"second")];
    let plain = build(&files, b"", b"", true);
    let wrapped = build(&files, b"PREFIX", b"junk after the archive", true);
    let a = Archive::open(plain.as_slice()).unwrap();
    let b = Archive::open(wrapped.as_slice()).unwrap();
    assert_eq!(a.entry_count(), b.entry_count());
    assert_eq!(names(&a), names(&b));
    let mut ea = a.entries();
    let mut eb = b.entries();
    for _ in 0..2 {
        let x = ea.next().unwrap().unwrap();
        let y = eb.next().unwrap().unwrap();
        assert_eq!(x.flags(), y.flags());
        assert_eq!(x.compression(), y.compression());
        assert_eq!(x.crc32(), y.crc32());
        assert_eq!(x.compressed_size(), y.compressed_size());
        assert_eq!(x.uncompressed_size(), y.uncompressed_size());
        let rx = x.data_range().unwrap();
        let ry = y.data_range().unwrap();
        assert_eq!(rx.local_header_range.start + 6, ry.local_header_range.start);
        assert_eq!(rx.data_range.start + 6, ry.data_range.start);
        assert_eq!(rx.data_range.end + 6, ry.data_range.end);
    }
    assert!(ea.next().is_none());
    assert!(eb.next().is_none());
}

#[test]
fn iteration_without_errors_yields_exactly_the_entry_count() {
    let files = [stored(b"a", b"1"), stored(b"b", b"22"), stored(b"c", b"333")];
    let bytes = build(&files, b"", b"", true);
    let archive = Archive::open(bytes.as_slice()).unwrap();
    let mut entries = archive.entries();
    let mut yielded = 0u64;
    while let Some(item) = entries.next() {
        assert!(item.is_ok());
        yielded += 1;
    }
    assert_eq!(yielded, archive.entry_count());
    assert!(entries.next().is_none());
}

#[test]
fn reading_to_the_end_gives_the_whole_payload() {
    let payload: Vec<u8> = (0u8..=200).collect();
    let files = [stored(b"p.bin", &payload)];
    let bytes = build(&files, b"", b"", true);
    let archive = Archive::open(bytes.as_slice()).unwrap();
    let entry = archive.entries().next().unwrap().unwrap();
    let range = entry.data_range().unwrap();
    let mut reader = entry.reader().unwrap();
    let mut buf = [0u8; 7];
    let mut collected = Vec::new();
    loop {
        let n = reader.read(&mut buf).unwrap();
        assert!(n <= buf.len());
        if n == 0 {
            break;
        }
        collected.extend_from_slice(&buf[..n]);
    }
    assert_eq!(collected.len() as u64, entry.compressed_size());
    assert_eq!(collected, &bytes[range.data_range.start as usize..range.data_range.end as usize]);
    assert_eq!(reader.read(&mut buf).unwrap(), 0);
}

#[test]
fn reader_and_data_range_agree_on_each_entry() {
    let files = [
        stored(b"good", b"payload"),
        FileSpec { name: b"masked", data: b"x", method: 0, central_flags: 0, local_flags: 0x2000 },
    ];
    let bytes = build(&files, b"", b"", true);
    let archive = Archive::open(bytes.as_slice()).unwrap();
    let mut entries = archive.entries();
    let good = entries.next().unwrap().unwrap();
    let range = good.data_range().unwrap();
    let mut reader = good.reader().unwrap();
    let mut buf = [0u8; 64];
    let n = reader.read(&mut buf).unwrap();
    assert_eq!(n as u64, range.data_range.end - range.data_range.start);
    assert_eq!(&buf[..n], &bytes[range.data_range.start as usize..range.data_range.end as usize]);
    let masked = entries.next().unwrap().unwrap();
    let e1 = format_err(&masked.data_range().err().unwrap());
    let e2 = format_err(&masked.reader().err().unwrap());
    assert_eq!(e1, FormatError::Unsupported(Unsupported::MaskedLocalHeaders));
    assert_eq!(e1, e2);
}
