//! Pure-Rust forensic reader and auditor for FAT12/16/32 and exFAT volumes.
//!
//! The reader (`FatFs`) auto-detects the variant from the boot sector and
//! serves uniform navigation; the auditor (`audit_reader`) surfaces structural
//! and integrity anomalies that a happy-path reader normalizes away.
mod audit;
mod boot;
mod chains;
mod cli;
mod bytes;
mod dirent;
mod error;
mod exfat;
mod exfat_dir;
mod fat;
mod fs;
mod text;
mod time;

pub use cli::{run_args, run_image, CliStep, EXIT_ERROR, EXIT_OK, EXIT_USAGE, USAGE};
pub use bytes::{le_u16, le_u32, le_u64, u8_at};
pub use error::{FatError, SpecFatError};
pub use boot::{FatVariant, Geometry};
pub use fat::{fat_entry, follow_chain, is_bad, is_eoc};
pub use exfat::{boot_checksum, parse_exfat_boot};
pub use exfat_dir::parse_exfat_dir;
pub use time::{decode, FatTimestamp};
pub use dirent::{parse_directory, DirEntry, ATTR_DIRECTORY};
pub use fs::{not_a_directory, FatFs, FileId, Node, FIXED_ROOT};
pub use audit::{
    audit_reader, deleted_entry_note, Anomaly, AnomalyKind, Category, Evidence, Location, Severity,
    ANALYZER,
};
