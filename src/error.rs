use vstd::prelude::*;

verus! {

/// Why a backup run stopped. Every failure ends the run.
#[derive(Debug)]
pub enum BackupError {
    /// The source directory has no textual form, or no final name to
    /// label its archive with.
    InvalidSourceDirectory,
    /// The destination starts with `~` and no home directory is known.
    MissingHomeDirectory,
    /// A directory of the tree could not be listed.
    DirectoryReadError(String),
    /// A file of the manifest could not be measured before copying.
    FileStatError(String),
    /// The archive file could not be created.
    ArchiveCreateError(String),
    /// A file could not be read, or its bytes not written as an entry.
    EntryWriteError(String),
    /// The archive's closing index could not be written.
    ArchiveFinalizeError(String),
}

} // verus!
