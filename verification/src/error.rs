//! Error type for the FAT/exFAT reader.
//!
//! A bootstrap failure (unrecognized or invalid boot sector, unreadable
//! prerequisite) surfaces as an error carrying the offending value; a per-node
//! miss (a name not found) is a normal `Ok(None)`, never an error.
use vstd::prelude::*;

verus! {

/// Errors raised while opening or navigating a FAT/exFAT volume.
#[derive(Debug, Clone)]
#[non_exhaustive]
pub enum FatError {
    /// The underlying byte source failed (or ended early) during the named
    /// operation; `detail` describes the failure.
    Io {
        /// The operation being attempted (e.g. `"read boot sector"`).
        op: String,
        /// What went wrong.
        detail: String,
    },
    /// The boot sector is structurally invalid; the message names the offending
    /// field and value.
    InvalidBoot(String),
    /// The volume is not a recognized FAT or exFAT filesystem; the message
    /// carries what was found instead.
    NotFat(String),
    /// A structure was internally inconsistent while navigating.
    Corrupt(String),
}

/// The mathematical content of a [`FatError`].
pub enum SpecFatError {
    Io { op: Seq<char>, detail: Seq<char> },
    InvalidBoot(Seq<char>),
    NotFat(Seq<char>),
    Corrupt(Seq<char>),
}

impl View for FatError {
    type V = SpecFatError;

    open spec fn view(&self) -> SpecFatError {
        match self {
            FatError::Io { op, detail } => SpecFatError::Io { op: op@, detail: detail@ },
            FatError::InvalidBoot(m) => SpecFatError::InvalidBoot(m@),
            FatError::NotFat(m) => SpecFatError::NotFat(m@),
            FatError::Corrupt(m) => SpecFatError::Corrupt(m@),
        }
    }
}

/// The human-readable rendering of an error.
pub open spec fn error_message(e: SpecFatError) -> Seq<char> {
    match e {
        SpecFatError::Io { op, detail } => "I/O error during "@ + op + ": "@ + detail,
        SpecFatError::InvalidBoot(m) => "invalid boot sector: "@ + m,
        SpecFatError::NotFat(m) => "not a FAT/exFAT volume: "@ + m,
        SpecFatError::Corrupt(m) => "corrupt structure: "@ + m,
    }
}

impl FatError {
    /// An I/O failure during the operation `op`.
    pub fn io(op: &str, detail: String) -> (r: FatError)
        ensures
            r@ == (SpecFatError::Io { op: op@, detail: detail@ }),
    {
        FatError::Io { op: op.to_owned(), detail }
    }

    /// The human-readable rendering of this error.
    pub fn message(&self) -> (r: String)
        ensures
            r@ == error_message(self@),
    {
        match self {
            FatError::Io { op, detail } => {
                let mut s = String::from_str("I/O error during ");
                s.append(op.as_str());
                s.append(": ");
                s.append(detail.as_str());
                s
            },
            FatError::InvalidBoot(m) => {
                let mut s = String::from_str("invalid boot sector: ");
                s.append(m.as_str());
                s
            },
            FatError::NotFat(m) => {
                let mut s = String::from_str("not a FAT/exFAT volume: ");
                s.append(m.as_str());
                s
            },
            FatError::Corrupt(m) => {
                let mut s = String::from_str("corrupt structure: ");
                s.append(m.as_str());
                s
            },
        }
    }
}

} // verus!
