# glue

A lightweight file archiver, whose logic is a library with proved contracts.

- `src/` is the library:
  - `format.rs`: the binary form of an archive (`Archive::encode`,
    `Archive::decode`) with its specification and the proofs that reading back
    what was written gives the same records, that bytes after an archive are
    ignored, and that every record read is well-formed.
  - `archive.rs`: making an archive from files that were read
    (`Archive::from_paths`, which refuses duplicate names and groups their
    paths), the filename check and the steps of an extraction.
  - `record.rs`: a file record and the preview of its contents.
  - `bytes.rs`: big-endian integers and alignment padding.
- `app/` is the command line (`create`, `inspect`, `extract`, and `cat`
  when the program is started under that name): it reads and writes files
  and hands the library plain values.
- `tests/` exercises the library on concrete values.
