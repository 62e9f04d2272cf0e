//! Full-tree backups of a directory into one compressed archive.
//!
//! The library holds the decisions of a backup run: which directory is the
//! source, where its archive goes and under which name, which files a walk
//! of the tree finds and under which entry names, and the byte total that
//! progress is measured against. Listing directories, reading files and
//! writing the archive container are left to the program around it.

pub mod archive;
pub mod destination;
pub mod error;
pub mod paths;
pub mod walk;

pub use archive::total_size;
pub use destination::{
    backup_destination, backup_name_at, determine_directory, expand_home_directory, format_backup_name,
    stamp_text, Timestamp,
};
pub use error::BackupError;
pub use paths::{file_name, join_path};
pub use walk::{traverse_directory, Entry, Walk};
