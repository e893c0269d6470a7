# tinyzip

Low-level ZIP navigation, verified with Verus. The library locates the
end-of-central-directory record (and the ZIP64 records when the archive needs
them), iterates central-directory entries, reads entry paths, and resolves the
byte ranges of local headers and payloads. It does not decompress.

Every operation is specified against a model of the archive bytes:

- `src/reader.rs` — the `Reader` trait: a byte source described by the bytes it
  stands for, and the built-in reader over byte slices.
- `src/bytes.rs` — little-endian fields, checked offset arithmetic, record
  constants, and `agrees`, which relates a fallible result to its model.
- `src/locate.rs` — EOCD search, ZIP64 locator and record, central-directory
  offset resolution.
- `src/archive.rs` — `Archive::open` against `spec_open`, and entry iteration
  against `spec_entries_step`.
- `src/entry.rs`, `src/extra.rs` — central-directory records, the ZIP64 extra
  field, paths, file names, data ranges and payload reading.
- `src/laws.rs` — properties that span operations.

`app/` holds the `std` adapters: readers over files and `Read + Seek` sources, a
`std::io::Read` adapter over payloads, an `Iterator` over entries, and
`Display` wrappers for errors.
