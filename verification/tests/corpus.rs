use std::cell::Cell;

use tinyzip::{Archive, Error, FormatError, Reader, Unsupported};

struct CountingReader<'a> {
    bytes: &'a [u8],
    bytes_read: &'a Cell<u64>,
}

impl<'a> CountingReader<'a> {
    fn new(bytes: &'a [u8], bytes_read: &'a Cell<u64>) -> Self {
        Self { bytes, bytes_read }
    }
}

impl Reader for CountingReader<'_> {
    type Error = ();

    fn size(&self) -> Result<u64, Self::Error> {
        Ok(self.bytes.len() as u64)
    }

    fn read_exact_at(&self, pos: u64, buf: &mut [u8]) -> Result<(), Self::Error> {
        let pos = usize::try_from(pos).map_err(|_| ())?;
        let end = pos.checked_add(buf.len()).ok_or(())?;
        let src = self.bytes.get(pos..end).ok_or(())?;
        buf.copy_from_slice(src);
        self.bytes_read
            .set(self.bytes_read.get() + u64::try_from(buf.len()).map_err(|_| ())?);
        Ok(())
    }
}

fn format_err<E>(err: &Error<E>) -> FormatError {
    match err {
        Error::Io(_) => panic!("unexpected I/O error"),
        Error::Format(kind) => *kind,
    }
}

fn empty_zip() -> Vec<u8> {
    let mut out = Vec::new();
    out.extend_from_slice(&0x0605_4B50u32.to_le_bytes());
    out.extend_from_slice(&0u16.to_le_bytes());
    out.extend_from_slice(&0u16.to_le_bytes());
    out.extend_from_slice(&0u16.to_le_bytes());
    out.extend_from_slice(&0u16.to_le_bytes());
    out.extend_from_slice(&0u32.to_le_bytes());
    out.extend_from_slice(&0u32.to_le_bytes());
    out.extend_from_slice(&0u16.to_le_bytes());
    out
}

fn simple_stored_zip(name: &[u8], data: &[u8]) -> Vec<u8> {
    let mut out = Vec::new();
    let local_offset = 0u32;
    out.extend_from_slice(&0x0403_4B50u32.to_le_bytes());
    out.extend_from_slice(&20u16.to_le_bytes());
    out.extend_from_slice(&0u16.to_le_bytes());
    out.extend_from_slice(&0u16.to_le_bytes());
    out.extend_from_slice(&0u16.to_le_bytes());
    out.extend_from_slice(&0u16.to_le_bytes());
    out.extend_from_slice(&0u32.to_le_bytes());
    out.extend_from_slice(&to_u32(data.len()).to_le_bytes());
    out.extend_from_slice(&to_u32(data.len()).to_le_bytes());
    out.extend_from_slice(&to_u16(name.len()).to_le_bytes());
    out.extend_from_slice(&0u16.to_le_bytes());
    out.extend_from_slice(name);
    out.extend_from_slice(data);

    let cd_offset = out.len();
    out.extend_from_slice(&0x0201_4B50u32.to_le_bytes());
    out.extend_from_slice(&20u16.to_le_bytes());
    out.extend_from_slice(&20u16.to_le_bytes());
    out.extend_from_slice(&0u16.to_le_bytes());
    out.extend_from_slice(&0u16.to_le_bytes());
    out.extend_from_slice(&0u16.to_le_bytes());
    out.extend_from_slice(&0u16.to_le_bytes());
    out.extend_from_slice(&0u32.to_le_bytes());
    out.extend_from_slice(&to_u32(data.len()).to_le_bytes());
    out.extend_from_slice(&to_u32(data.len()).to_le_bytes());
    out.extend_from_slice(&to_u16(name.len()).to_le_bytes());
    out.extend_from_slice(&0u16.to_le_bytes());
    out.extend_from_slice(&0u16.to_le_bytes());
    out.extend_from_slice(&0u16.to_le_bytes());
    out.extend_from_slice(&0u16.to_le_bytes());
    out.extend_from_slice(&0u32.to_le_bytes());
    out.extend_from_slice(&local_offset.to_le_bytes());
    out.extend_from_slice(name);

    let cd_size = out.len() - cd_offset;
    out.extend_from_slice(&0x0605_4B50u32.to_le_bytes());
    out.extend_from_slice(&0u16.to_le_bytes());
    out.extend_from_slice(&0u16.to_le_bytes());
    out.extend_from_slice(&1u16.to_le_bytes());
    out.extend_from_slice(&1u16.to_le_bytes());
    out.extend_from_slice(&to_u32(cd_size).to_le_bytes());
    out.extend_from_slice(&to_u32(cd_offset).to_le_bytes());
    out.extend_from_slice(&0u16.to_le_bytes());
    out
}

fn to_u16(value: usize) -> u16 {
    u16::try_from(value).expect("value does not fit u16")
}

fn to_u32(value: usize) -> u32 {
    u32::try_from(value).expect("value does not fit u32")
}

#[test]
fn synthetic_empty_zip() {
    let bytes = empty_zip();
    let archive = Archive::open(bytes.as_slice()).unwrap();
    assert_eq!(archive.entry_count(), 0);
    let mut entries = archive.entries();
    let mut count = 0usize;
    while entries.next().is_some() {
        count += 1;
    }
    assert_eq!(count, 0);
}

#[test]
fn synthetic_multidisk_is_rejected() {
    let mut bytes = empty_zip();
    bytes[4] = 1;
    let err = Archive::open(bytes.as_slice()).err().unwrap();
    assert_eq!(
        format_err(&err),
        FormatError::Unsupported(Unsupported::MultiDisk)
    );
}

#[test]
fn synthetic_truncated_eocd_is_rejected() {
    let mut bytes = empty_zip();
    bytes.pop();
    let err = Archive::open(bytes.as_slice()).err().unwrap();
    assert_eq!(format_err(&err), FormatError::NotZip);
}

#[test]
fn synthetic_encrypted_entry_is_rejected_on_data_access() {
    let mut bytes = simple_stored_zip(b"secret.txt", b"hidden");
    bytes[6] |= 0x01;
    let archive = Archive::open(bytes.as_slice()).unwrap();
    let entry = archive.entries().next().unwrap().unwrap();
    let err = entry.data_range().unwrap_err();
    assert_eq!(
        format_err(&err),
        FormatError::Unsupported(Unsupported::StrongEncryption)
    );
}

#[test]
fn synthetic_truncated_local_header_is_rejected_on_data_access() {
    let mut bytes = simple_stored_zip(b"name.txt", b"payload");
    bytes[28] = 0xFF;
    bytes[29] = 0xFF;
    let archive = Archive::open(bytes.as_slice()).unwrap();
    let entry = archive.entries().next().unwrap().unwrap();
    let err = entry.data_range().unwrap_err();
    assert_eq!(format_err(&err), FormatError::Truncated);
}

#[test]
fn synthetic_filename_is_reads_only_needed_suffix_bytes() {
    let mut path = vec![b'a'; 512];
    path.extend_from_slice(b"/target.bin");
    let bytes = simple_stored_zip(&path, b"payload");
    let bytes_read = Cell::new(0);
    let reader = CountingReader::new(&bytes, &bytes_read);
    let archive = Archive::open(reader).unwrap();
    let entry = archive.entries().next().unwrap().unwrap();
    let before = bytes_read.get();
    assert!(entry.filename_is(b"target.bin").unwrap());
    let after = bytes_read.get();

    assert!(
        after > before,
        "expected filename_is to perform additional reads beyond archive open"
    );
    assert!(
        after - before < 128,
        "expected filename_is to avoid reading the full path, but it read {} extra bytes for a {}-byte path",
        after - before,
        path.len()
    );
}
