//! A small file archiver.
//!
//! An archive groups the contents of several files, with their names, into
//! one unit. This library holds what the archiver decides: the binary form of
//! an archive and how it is read back ([`format`]), how an archive is made
//! from files that were read and when that is refused, the steps of an
//! extraction, and the preview of a file's contents ([`record`]).

pub mod archive;
pub mod bytes;
pub mod format;
pub mod record;

pub use archive::{
    Archive, ArchiveCreationError, ArchiveExtractionError, ExtractAction, ExtractEvent,
    FilenameToPath,
};
pub use format::{DecodeError, EncodeError};
pub use record::{FileRecord, Preview};
