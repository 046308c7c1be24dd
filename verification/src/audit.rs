//! Forensic FAT/exFAT anomaly auditor.
//!
//! Surfaces structural and integrity anomalies a happy-path reader would
//! normalize away: an invalid boot signature or BPB, a FAT1 vs FAT2 mirror
//! disagreement, an exFAT boot-region checksum mismatch, deleted directory
//! entries, and bad, cross-linked or orphaned cluster chains. Each anomaly is
//! an observation graded by severity ("consistent with", never a verdict) and
//! carries the offending value.
//!
//! The auditor reads the raw structures itself (boot sector, both FAT copies,
//! the exFAT checksum sector) rather than only the reader's normalized view.
use vstd::prelude::*;
use crate::boot::{boot_fault_error, fat_boot_fault, fat_geometry, FatVariant, Geometry};
use crate::bytes::{le_u16, le_u32, spec_le_u16, spec_le_u32};
use crate::error::{error_message, FatError, SpecFatError};
use crate::exfat::{
    boot_checksum, boot_checksum_spec, exfat_boot_fault, exfat_fault_error, exfat_geometry,
    has_exfat_name, is_exfat_name, parse_exfat_boot,
};
use crate::chains::chain_anomalies;
use crate::fs::{open_spec, read_dir_spec, FatFs, FileId, SpecNode, Vol};
use crate::text::{debug_chars, debug_string, dec_chars, hex_chars, push_dec, push_hex};

verus! {

/// The producing analyzer name embedded in emitted findings.
pub const ANALYZER: &'static str = "fat-forensic";

/// Recursion cap on the directory walk (defends against a cyclic tree).
pub const MAX_DEPTH: usize = 64;

/// Severity of a finding (`Info` < `Low` < `Medium` < `High` < `Critical`).
#[derive(Debug, Clone, Copy, PartialEq, Eq, Structural)]
pub enum Severity {
    /// Informational: context, not suspicious on its own.
    Info,
    /// Minor irregularity with a common benign explanation.
    Low,
    /// Notable irregularity worth examiner attention.
    Medium,
    /// Strong indicator of tampering or concealment.
    High,
    /// Structural contradiction; the medium cannot be trusted as-is.
    Critical,
}

/// The analytical lens a finding belongs to.
#[derive(Debug, Clone, Copy, PartialEq, Eq, Structural)]
pub enum Category {
    /// Integrity / authenticity (checksums, mirrors).
    Integrity,
    /// Structural contradiction.
    Structure,
    /// Residue / recoverability (deleted entries).
    Residue,
}

/// Where a piece of evidence sits on the medium.
#[derive(Debug, Clone, Copy, PartialEq, Eq, Structural)]
pub enum Location {
    /// Absolute byte offset in the image (or within the FAT, for mirror
    /// disagreements).
    ByteOffset(u64),
}

/// One piece of evidence backing a finding: a named field, its observed value
/// rendered as text, and where it was found.
#[derive(Debug, Clone)]
pub struct Evidence {
    /// Field / observation name.
    pub field: String,
    /// Observed value, rendered as text.
    pub value: String,
    /// Where it was observed, if locatable.
    pub location: Option<Location>,
}

/// The content of an [`Evidence`].
pub struct SpecEvidence {
    pub field: Seq<char>,
    pub value: Seq<char>,
    pub location: Option<Location>,
}

impl View for Evidence {
    type V = SpecEvidence;

    open spec fn view(&self) -> SpecEvidence {
        SpecEvidence { field: self.field@, value: self.value@, location: self.location }
    }
}

/// Classification of a FAT/exFAT forensic anomaly, carrying the evidence to
/// reproduce it (offending value and location).
#[derive(Debug, Clone, PartialEq, Eq)]
pub enum AnomalyKind {
    /// The boot sector's `0x55AA` signature is absent: consistent with a non-FAT
    /// volume or a wiped/overwritten boot sector.
    BootSignatureInvalid {
        /// The 16-bit value found at offset 0x1FE.
        found: u16,
    },
    /// The BPB is structurally invalid and the volume could not be parsed.
    BpbInvalid {
        /// The parser's description of the offending field/value.
        detail: String,
    },
    /// A byte disagrees between the first and the second FAT copy: consistent
    /// with a post-hoc edit of one copy or on-media corruption.
    FatMirrorMismatch {
        /// Byte offset of the first disagreement within the FAT.
        fat_offset: u64,
        /// Byte in the first FAT.
        fat1: u8,
        /// Byte in the mirror FAT.
        fat2: u8,
        /// Total number of disagreeing bytes.
        differing_bytes: u64,
    },
    /// The exFAT boot-region checksum does not match the recomputed value:
    /// consistent with a modified boot region.
    ExfatBootChecksumMismatch {
        /// Checksum recomputed over the first 11 sectors.
        computed: u32,
        /// Checksum stored in the checksum sector.
        stored: u32,
    },
    /// A deleted directory entry is present: a recovery lead (benign in
    /// isolation).
    DeletedDirectoryEntry {
        /// The recovered name (first character unknown on FAT, shown as `?`).
        name: String,
    },
    /// A FAT entry links into a cluster marked bad: consistent with a damaged
    /// chain or data hidden behind a bad-cluster mark.
    ChainThroughBadCluster {
        /// The first cluster whose entry links to a bad-marked cluster.
        cluster: u32,
        /// The bad-marked cluster it links to.
        bad: u32,
        /// Number of such links in the FAT.
        links: u64,
    },
    /// Two FAT entries link to the same cluster, so two chains share their
    /// tail: consistent with a cross-linked, corrupted or hand-edited FAT.
    ChainCrossLinked {
        /// The first cluster whose entry repeats a link made earlier in the FAT.
        cluster: u32,
        /// The cluster both entries link to.
        shared: u32,
        /// Number of such repeated links.
        links: u64,
    },
    /// Allocated chains that no directory entry claims: consistent with a
    /// deleted or hidden file whose entry is gone.
    OrphanedChain {
        /// The first orphaned chain's first cluster.
        cluster: u32,
        /// Number of orphaned chains.
        chains: u64,
    },
}

/// The content of an [`AnomalyKind`].
pub enum SpecAnomalyKind {
    BootSignatureInvalid { found: u16 },
    BpbInvalid { detail: Seq<char> },
    FatMirrorMismatch { fat_offset: u64, fat1: u8, fat2: u8, differing_bytes: u64 },
    ExfatBootChecksumMismatch { computed: u32, stored: u32 },
    DeletedDirectoryEntry { name: Seq<char> },
    ChainThroughBadCluster { cluster: u32, bad: u32, links: u64 },
    ChainCrossLinked { cluster: u32, shared: u32, links: u64 },
    OrphanedChain { cluster: u32, chains: u64 },
}

impl View for AnomalyKind {
    type V = SpecAnomalyKind;

    open spec fn view(&self) -> SpecAnomalyKind {
        match self {
            AnomalyKind::BootSignatureInvalid { found } => SpecAnomalyKind::BootSignatureInvalid {
                found: *found,
            },
            AnomalyKind::BpbInvalid { detail } => SpecAnomalyKind::BpbInvalid { detail: detail@ },
            AnomalyKind::FatMirrorMismatch { fat_offset, fat1, fat2, differing_bytes } =>
                SpecAnomalyKind::FatMirrorMismatch {
                fat_offset: *fat_offset,
                fat1: *fat1,
                fat2: *fat2,
                differing_bytes: *differing_bytes,
            },
            AnomalyKind::ExfatBootChecksumMismatch { computed, stored } =>
                SpecAnomalyKind::ExfatBootChecksumMismatch { computed: *computed, stored: *stored },
            AnomalyKind::DeletedDirectoryEntry { name } => SpecAnomalyKind::DeletedDirectoryEntry {
                name: name@,
            },
            AnomalyKind::ChainThroughBadCluster { cluster, bad, links } =>
                SpecAnomalyKind::ChainThroughBadCluster { cluster: *cluster, bad: *bad, links: *links },
            AnomalyKind::ChainCrossLinked { cluster, shared, links } =>
                SpecAnomalyKind::ChainCrossLinked { cluster: *cluster, shared: *shared, links: *links },
            AnomalyKind::OrphanedChain { cluster, chains } => SpecAnomalyKind::OrphanedChain {
                cluster: *cluster,
                chains: *chains,
            },
        }
    }
}

/// Severity of each kind: boot, BPB, exFAT-checksum and cross-link anomalies
/// are High, a mirror mismatch and a link into a bad cluster Medium, an
/// orphaned chain Low, a deleted entry Info.
pub open spec fn severity_spec(k: SpecAnomalyKind) -> Severity {
    match k {
        SpecAnomalyKind::BootSignatureInvalid { .. } => Severity::High,
        SpecAnomalyKind::BpbInvalid { .. } => Severity::High,
        SpecAnomalyKind::ExfatBootChecksumMismatch { .. } => Severity::High,
        SpecAnomalyKind::FatMirrorMismatch { .. } => Severity::Medium,
        SpecAnomalyKind::DeletedDirectoryEntry { .. } => Severity::Info,
        SpecAnomalyKind::ChainThroughBadCluster { .. } => Severity::Medium,
        SpecAnomalyKind::ChainCrossLinked { .. } => Severity::High,
        SpecAnomalyKind::OrphanedChain { .. } => Severity::Low,
    }
}

/// The stable, scheme-prefixed code of each kind.
pub open spec fn code_spec(k: SpecAnomalyKind) -> Seq<char> {
    match k {
        SpecAnomalyKind::BootSignatureInvalid { .. } => "FAT-BOOT-SIG-INVALID"@,
        SpecAnomalyKind::BpbInvalid { .. } => "FAT-BPB-INVALID"@,
        SpecAnomalyKind::FatMirrorMismatch { .. } => "FAT-MIRROR-MISMATCH"@,
        SpecAnomalyKind::ExfatBootChecksumMismatch { .. } => "EXFAT-BOOT-CHECKSUM-MISMATCH"@,
        SpecAnomalyKind::DeletedDirectoryEntry { .. } => "FAT-DIR-ENTRY-DELETED"@,
        SpecAnomalyKind::ChainThroughBadCluster { .. } => "FAT-CHAIN-THROUGH-BAD-CLUSTER"@,
        SpecAnomalyKind::ChainCrossLinked { .. } => "FAT-CHAIN-CROSS-LINKED"@,
        SpecAnomalyKind::OrphanedChain { .. } => "FAT-CHAIN-ORPHANED"@,
    }
}

/// The analytical lens of each kind.
pub open spec fn category_spec(k: SpecAnomalyKind) -> Category {
    match k {
        SpecAnomalyKind::BootSignatureInvalid { .. } => Category::Structure,
        SpecAnomalyKind::BpbInvalid { .. } => Category::Structure,
        SpecAnomalyKind::FatMirrorMismatch { .. } => Category::Integrity,
        SpecAnomalyKind::ExfatBootChecksumMismatch { .. } => Category::Integrity,
        SpecAnomalyKind::DeletedDirectoryEntry { .. } => Category::Residue,
        SpecAnomalyKind::ChainThroughBadCluster { .. } => Category::Structure,
        SpecAnomalyKind::ChainCrossLinked { .. } => Category::Structure,
        SpecAnomalyKind::OrphanedChain { .. } => Category::Residue,
    }
}

/// The note of a deleted entry, given the `{:?}` rendering of its name.
pub open spec fn deleted_note_spec(debug_name: Seq<char>) -> Seq<char> {
    "deleted directory entry present: "@ + debug_name + " (recovery lead) \u{2014} consistent with a file removed from the volume"@
}

/// The human-readable, consistent-with note of each kind (it carries the
/// offending value).
pub open spec fn note_spec(k: SpecAnomalyKind) -> Seq<char> {
    match k {
        SpecAnomalyKind::BootSignatureInvalid { found } => "boot signature at 0x1FE is "@
            + hex_chars(found as nat, 4)
            + ", expected 0x55AA \u{2014} consistent with a non-FAT or overwritten boot sector"@,
        SpecAnomalyKind::BpbInvalid { detail } => "BPB is structurally invalid: "@ + detail
            + " \u{2014} consistent with a damaged, wiped or non-FAT boot sector"@,
        SpecAnomalyKind::FatMirrorMismatch { fat_offset, fat1, fat2, differing_bytes } =>
            "FAT copies disagree in "@ + dec_chars(differing_bytes as nat)
            + " byte(s); first at FAT offset "@ + dec_chars(fat_offset as nat) + " ("@ + hex_chars(
            fat1 as nat,
            2,
        ) + " vs "@ + hex_chars(fat2 as nat, 2)
            + ") \u{2014} consistent with a post-hoc edit of one copy or media corruption"@,
        SpecAnomalyKind::ExfatBootChecksumMismatch { computed, stored } => "exFAT boot checksum "@
            + hex_chars(computed as nat, 8) + " does not match the stored "@ + hex_chars(
            stored as nat,
            8,
        ) + " \u{2014} consistent with a modified boot region"@,
        SpecAnomalyKind::DeletedDirectoryEntry { name } => deleted_note_spec(debug_chars(name)),
        SpecAnomalyKind::ChainThroughBadCluster { cluster, bad, links } => "cluster "@ + dec_chars(
            cluster as nat,
        ) + " links to bad-marked cluster "@ + dec_chars(bad as nat) + " ("@ + dec_chars(links as nat)
            + " such link(s)) \u{2014} consistent with a damaged chain or data hidden behind a bad-cluster mark"@,
        SpecAnomalyKind::ChainCrossLinked { cluster, shared, links } => "cluster "@ + dec_chars(
            shared as nat,
        ) + " continues more than one chain, linked again from cluster "@ + dec_chars(cluster as nat)
            + " ("@ + dec_chars(links as nat)
            + " repeated link(s)) \u{2014} consistent with a cross-linked, corrupted or hand-edited FAT"@,
        SpecAnomalyKind::OrphanedChain { cluster, chains } => dec_chars(chains as nat)
            + " allocated chain(s) claimed by no directory entry, the first at cluster "@ + dec_chars(
            cluster as nat,
        ) + " \u{2014} consistent with a deleted or hidden file whose entry is gone"@,
    }
}

/// The evidence row of each kind.
pub open spec fn evidence_spec(k: SpecAnomalyKind) -> SpecEvidence {
    match k {
        SpecAnomalyKind::BootSignatureInvalid { found } => SpecEvidence {
            field: "boot_signature"@,
            value: hex_chars(found as nat, 4),
            location: Some(Location::ByteOffset(510)),
        },
        SpecAnomalyKind::BpbInvalid { detail } => SpecEvidence {
            field: "bpb"@,
            value: detail,
            location: Some(Location::ByteOffset(0)),
        },
        SpecAnomalyKind::FatMirrorMismatch { fat_offset, fat1, fat2, .. } => SpecEvidence {
            field: "fat_mirror"@,
            value: hex_chars(fat1 as nat, 2) + " vs "@ + hex_chars(fat2 as nat, 2),
            location: Some(Location::ByteOffset(fat_offset)),
        },
        SpecAnomalyKind::ExfatBootChecksumMismatch { computed, stored } => SpecEvidence {
            field: "boot_checksum"@,
            value: "computed="@ + hex_chars(computed as nat, 8) + ", stored="@ + hex_chars(
                stored as nat,
                8,
            ),
            location: None,
        },
        SpecAnomalyKind::DeletedDirectoryEntry { name } => SpecEvidence {
            field: "deleted_name"@,
            value: name,
            location: None,
        },
        SpecAnomalyKind::ChainThroughBadCluster { cluster, bad, .. } => SpecEvidence {
            field: "bad_link"@,
            value: dec_chars(cluster as nat) + " -> "@ + dec_chars(bad as nat),
            location: None,
        },
        SpecAnomalyKind::ChainCrossLinked { cluster, shared, .. } => SpecEvidence {
            field: "cross_link"@,
            value: dec_chars(cluster as nat) + " -> "@ + dec_chars(shared as nat),
            location: None,
        },
        SpecAnomalyKind::OrphanedChain { cluster, .. } => SpecEvidence {
            field: "orphan_chain"@,
            value: dec_chars(cluster as nat),
            location: None,
        },
    }
}

/// The note of a deleted entry, given the `{:?}` rendering of its name.
pub fn deleted_entry_note(debug_name: String) -> (r: String)
    ensures
        r@ == deleted_note_spec(debug_name@),
{
    let mut s = String::from_str("deleted directory entry present: ");
    s.append(debug_name.as_str());
    s.append(" (recovery lead) \u{2014} consistent with a file removed from the volume");
    s
}

impl AnomalyKind {
    /// Severity of this kind.
    pub fn severity(&self) -> (r: Severity)
        ensures
            r == severity_spec(self@),
    {
        match self {
            AnomalyKind::BootSignatureInvalid { .. } => Severity::High,
            AnomalyKind::BpbInvalid { .. } => Severity::High,
            AnomalyKind::ExfatBootChecksumMismatch { .. } => Severity::High,
            AnomalyKind::FatMirrorMismatch { .. } => Severity::Medium,
            AnomalyKind::DeletedDirectoryEntry { .. } => Severity::Info,
            AnomalyKind::ChainThroughBadCluster { .. } => Severity::Medium,
            AnomalyKind::ChainCrossLinked { .. } => Severity::High,
            AnomalyKind::OrphanedChain { .. } => Severity::Low,
        }
    }

    /// Stable, scheme-prefixed machine code.
    pub fn code(&self) -> (r: &'static str)
        ensures
            r@ == code_spec(self@),
    {
        match self {
            AnomalyKind::BootSignatureInvalid { .. } => "FAT-BOOT-SIG-INVALID",
            AnomalyKind::BpbInvalid { .. } => "FAT-BPB-INVALID",
            AnomalyKind::FatMirrorMismatch { .. } => "FAT-MIRROR-MISMATCH",
            AnomalyKind::ExfatBootChecksumMismatch { .. } => "EXFAT-BOOT-CHECKSUM-MISMATCH",
            AnomalyKind::DeletedDirectoryEntry { .. } => "FAT-DIR-ENTRY-DELETED",
            AnomalyKind::ChainThroughBadCluster { .. } => "FAT-CHAIN-THROUGH-BAD-CLUSTER",
            AnomalyKind::ChainCrossLinked { .. } => "FAT-CHAIN-CROSS-LINKED",
            AnomalyKind::OrphanedChain { .. } => "FAT-CHAIN-ORPHANED",
        }
    }

    /// Analytical lens.
    pub fn category(&self) -> (r: Category)
        ensures
            r == category_spec(self@),
    {
        match self {
            AnomalyKind::BootSignatureInvalid { .. } => Category::Structure,
            AnomalyKind::BpbInvalid { .. } => Category::Structure,
            AnomalyKind::FatMirrorMismatch { .. } => Category::Integrity,
            AnomalyKind::ExfatBootChecksumMismatch { .. } => Category::Integrity,
            AnomalyKind::DeletedDirectoryEntry { .. } => Category::Residue,
            AnomalyKind::ChainThroughBadCluster { .. } => Category::Structure,
            AnomalyKind::ChainCrossLinked { .. } => Category::Structure,
            AnomalyKind::OrphanedChain { .. } => Category::Residue,
        }
    }

    /// Human-readable, consistent-with note (carries the offending value).
    pub fn note(&self) -> (r: String)
        ensures
            r@ == note_spec(self@),
    {
        match self {
            AnomalyKind::BootSignatureInvalid { found } => {
                let mut s = String::from_str("boot signature at 0x1FE is ");
                push_hex(&mut s, *found as u64, 4);
                s.append(
                    ", expected 0x55AA \u{2014} consistent with a non-FAT or overwritten boot sector",
                );
                s
            },
            AnomalyKind::BpbInvalid { detail } => {
                let mut s = String::from_str("BPB is structurally invalid: ");
                s.append(detail.as_str());
                s.append(" \u{2014} consistent with a damaged, wiped or non-FAT boot sector");
                s
            },
            AnomalyKind::FatMirrorMismatch { fat_offset, fat1, fat2, differing_bytes } => {
                let mut s = String::from_str("FAT copies disagree in ");
                push_dec(&mut s, *differing_bytes);
                s.append(" byte(s); first at FAT offset ");
                push_dec(&mut s, *fat_offset);
                s.append(" (");
                push_hex(&mut s, *fat1 as u64, 2);
                s.append(" vs ");
                push_hex(&mut s, *fat2 as u64, 2);
                s.append(
                    ") \u{2014} consistent with a post-hoc edit of one copy or media corruption",
                );
                s
            },
            AnomalyKind::ExfatBootChecksumMismatch { computed, stored } => {
                let mut s = String::from_str("exFAT boot checksum ");
                push_hex(&mut s, *computed as u64, 8);
                s.append(" does not match the stored ");
                push_hex(&mut s, *stored as u64, 8);
                s.append(" \u{2014} consistent with a modified boot region");
                s
            },
            AnomalyKind::DeletedDirectoryEntry { name } => deleted_entry_note(
                debug_string(name.as_str()),
            ),
            AnomalyKind::ChainThroughBadCluster { cluster, bad, links } => {
                let mut s = String::from_str("cluster ");
                push_dec(&mut s, *cluster as u64);
                s.append(" links to bad-marked cluster ");
                push_dec(&mut s, *bad as u64);
                s.append(" (");
                push_dec(&mut s, *links);
                s.append(
                    " such link(s)) \u{2014} consistent with a damaged chain or data hidden behind a bad-cluster mark",
                );
                s
            },
            AnomalyKind::ChainCrossLinked { cluster, shared, links } => {
                let mut s = String::from_str("cluster ");
                push_dec(&mut s, *shared as u64);
                s.append(" continues more than one chain, linked again from cluster ");
                push_dec(&mut s, *cluster as u64);
                s.append(" (");
                push_dec(&mut s, *links);
                s.append(
                    " repeated link(s)) \u{2014} consistent with a cross-linked, corrupted or hand-edited FAT",
                );
                s
            },
            AnomalyKind::OrphanedChain { cluster, chains } => {
                let mut s = String::new();
                push_dec(&mut s, *chains);
                s.append(" allocated chain(s) claimed by no directory entry, the first at cluster ");
                push_dec(&mut s, *cluster as u64);
                s.append(" \u{2014} consistent with a deleted or hidden file whose entry is gone");
                s
            },
        }
    }

    /// Backing evidence rows (offending value plus location).
    pub fn evidence(&self) -> (r: Vec<Evidence>)
        ensures
            r@.len() == 1,
            r@[0]@ == evidence_spec(self@),
    {
        let e = match self {
            AnomalyKind::BootSignatureInvalid { found } => {
                let mut v = String::new();
                push_hex(&mut v, *found as u64, 4);
                Evidence {
                    field: String::from_str("boot_signature"),
                    value: v,
                    location: Some(Location::ByteOffset(510)),
                }
            },
            AnomalyKind::BpbInvalid { detail } => Evidence {
                field: String::from_str("bpb"),
                value: detail.clone(),
                location: Some(Location::ByteOffset(0)),
            },
            AnomalyKind::FatMirrorMismatch { fat_offset, fat1, fat2, .. } => {
                let mut v = String::new();
                push_hex(&mut v, *fat1 as u64, 2);
                v.append(" vs ");
                push_hex(&mut v, *fat2 as u64, 2);
                Evidence {
                    field: String::from_str("fat_mirror"),
                    value: v,
                    location: Some(Location::ByteOffset(*fat_offset)),
                }
            },
            AnomalyKind::ExfatBootChecksumMismatch { computed, stored } => {
                let mut v = String::from_str("computed=");
                push_hex(&mut v, *computed as u64, 8);
                v.append(", stored=");
                push_hex(&mut v, *stored as u64, 8);
                Evidence { field: String::from_str("boot_checksum"), value: v, location: None }
            },
            AnomalyKind::DeletedDirectoryEntry { name } => Evidence {
                field: String::from_str("deleted_name"),
                value: name.clone(),
                location: None,
            },
            AnomalyKind::ChainThroughBadCluster { cluster, bad, .. } => {
                let mut v = String::new();
                push_dec(&mut v, *cluster as u64);
                v.append(" -> ");
                push_dec(&mut v, *bad as u64);
                Evidence { field: String::from_str("bad_link"), value: v, location: None }
            },
            AnomalyKind::ChainCrossLinked { cluster, shared, .. } => {
                let mut v = String::new();
                push_dec(&mut v, *cluster as u64);
                v.append(" -> ");
                push_dec(&mut v, *shared as u64);
                Evidence { field: String::from_str("cross_link"), value: v, location: None }
            },
            AnomalyKind::OrphanedChain { cluster, .. } => {
                let mut v = String::new();
                push_dec(&mut v, *cluster as u64);
                Evidence { field: String::from_str("orphan_chain"), value: v, location: None }
            },
        };
        let mut out = Vec::new();
        out.push(e);
        out
    }
}

/// A FAT/exFAT forensic anomaly: an observation graded by severity, with a
/// stable code and note derived from its [`AnomalyKind`] so they cannot drift.
#[derive(Debug, Clone, PartialEq, Eq)]
pub struct Anomaly {
    /// Severity, derived from `kind`.
    pub severity: Severity,
    /// Stable machine-readable code, derived from `kind`.
    pub code: &'static str,
    /// Human-readable note, derived from `kind`.
    pub note: String,
    /// The classified anomaly with its evidence.
    pub kind: AnomalyKind,
}

/// The content of an [`Anomaly`].
pub struct SpecAnomaly {
    pub severity: Severity,
    pub code: Seq<char>,
    pub note: Seq<char>,
    pub kind: SpecAnomalyKind,
}

impl View for Anomaly {
    type V = SpecAnomaly;

    open spec fn view(&self) -> SpecAnomaly {
        SpecAnomaly { severity: self.severity, code: self.code@, note: self.note@, kind: self.kind@ }
    }
}

/// The anomaly built from kind `k`.
pub open spec fn anomaly_spec(k: SpecAnomalyKind) -> SpecAnomaly {
    SpecAnomaly { severity: severity_spec(k), code: code_spec(k), note: note_spec(k), kind: k }
}

impl Anomaly {
    /// Build an [`Anomaly`], deriving severity, code and note from `kind`.
    pub fn new(kind: AnomalyKind) -> (r: Anomaly)
        ensures
            r@ == anomaly_spec(kind@),
    {
        Anomaly { severity: kind.severity(), code: kind.code(), note: kind.note(), kind }
    }
}


/// Whether a name is the `.` or `..` self/parent link.
pub open spec fn is_dot_name(name: Seq<char>) -> bool {
    name == "."@ || name == ".."@
}

/// Recursion measure of the directory walk.
pub open spec fn depth_left(depth: nat) -> nat {
    if depth < MAX_DEPTH {
        (MAX_DEPTH - depth) as nat
    } else {
        0
    }
}

/// Names of the deleted entries found walking directory `dir` at `depth`,
/// and the set of directory first-clusters visited, starting from `seen`.
/// The walk skips `.`/`..`, does not descend into deleted directories or
/// into a first cluster already visited, and stops at depth [`MAX_DEPTH`] or
/// at a directory that cannot be listed.
pub open spec fn walk(v: Vol, dir: FileId, depth: nat, seen: Set<u32>) -> (Seq<Seq<char>>, Set<u32>)
    decreases depth_left(depth), 1nat, 0nat,
{
    if depth >= MAX_DEPTH {
        (Seq::empty(), seen)
    } else {
        match read_dir_spec(v, dir) {
            Err(_) => (Seq::empty(), seen),
            Ok(ns) => walk_nodes(v, ns, depth, seen),
        }
    }
}

/// The walk over the listed nodes `ns` of a directory at `depth`.
pub open spec fn walk_nodes(v: Vol, ns: Seq<SpecNode>, depth: nat, seen: Set<u32>) -> (
    Seq<Seq<char>>,
    Set<u32>,
)
    decreases depth_left(depth), 0nat, ns.len(),
{
    if ns.len() == 0 || depth >= MAX_DEPTH {
        (Seq::empty(), seen)
    } else {
        let n = ns[0];
        let rest = ns.drop_first();
        if is_dot_name(n.name) {
            walk_nodes(v, rest, depth, seen)
        } else if n.is_deleted {
            let r = walk_nodes(v, rest, depth, seen);
            (seq![n.name] + r.0, r.1)
        } else if n.is_dir && !n.is_volume_label && !seen.contains(n.first_cluster) {
            let a = walk(v, n.id, depth + 1, seen.insert(n.first_cluster));
            let b = walk_nodes(v, rest, depth, a.1);
            (a.0 + b.0, b.1)
        } else {
            walk_nodes(v, rest, depth, seen)
        }
    }
}

/// The first clusters that the walk of directory `dir` at `depth` (starting
/// from the visited set `seen`) finds claimed by allocated entries: every
/// listed node that is not `.`/`..`, deleted or the volume label, in every
/// directory the walk descends into.
pub open spec fn walk_refs(v: Vol, dir: FileId, depth: nat, seen: Set<u32>) -> Set<u32>
    decreases depth_left(depth), 1nat, 0nat,
{
    if depth >= MAX_DEPTH {
        Set::empty()
    } else {
        match read_dir_spec(v, dir) {
            Err(_) => Set::empty(),
            Ok(ns) => walk_refs_nodes(v, ns, depth, seen),
        }
    }
}

/// The claimed first clusters found over the listed nodes `ns` at `depth`.
pub open spec fn walk_refs_nodes(v: Vol, ns: Seq<SpecNode>, depth: nat, seen: Set<u32>) -> Set<u32>
    decreases depth_left(depth), 0nat, ns.len(),
{
    if ns.len() == 0 || depth >= MAX_DEPTH {
        Set::empty()
    } else {
        let n = ns[0];
        let rest = ns.drop_first();
        if is_dot_name(n.name) || n.is_deleted || n.is_volume_label {
            walk_refs_nodes(v, rest, depth, seen)
        } else if n.is_dir && !seen.contains(n.first_cluster) {
            let s2 = seen.insert(n.first_cluster);
            let a = walk(v, n.id, depth + 1, s2);
            set![n.first_cluster].union(walk_refs(v, n.id, depth + 1, s2)).union(
                walk_refs_nodes(v, rest, depth, a.1),
            )
        } else {
            set![n.first_cluster].union(walk_refs_nodes(v, rest, depth, seen))
        }
    }
}

/// The deleted-entry anomalies for the names `names`, in order.
pub open spec fn deleted_anomalies(names: Seq<Seq<char>>) -> Seq<SpecAnomaly> {
    names.map_values(|n: Seq<char>| anomaly_spec(SpecAnomalyKind::DeletedDirectoryEntry { name: n }))
}

/// The views of a list of anomalies.
pub open spec fn anomalies_view(out: Seq<Anomaly>) -> Seq<SpecAnomaly> {
    out.map_values(|a: Anomaly| a@)
}

/// `u32`'s ordering obeys the laws `BTreeSet` relies on.
pub open spec fn u32_ordered() -> bool {
    vstd::laws_cmp::obeys_cmp::<u32>()
}

proof fn lemma_u32_ordered()
    ensures
        u32_ordered(),
{
    broadcast use vstd::laws_cmp::group_laws_cmp;
}

/// Recursively collect deleted directory entries below `dir`, skipping
/// `.`/`..` and bounding recursion depth and revisits.
fn collect_deleted(
    fs: &FatFs,
    dir: FileId,
    depth: usize,
    seen: &mut std::collections::BTreeSet<u32>,
    refs: &mut std::collections::BTreeSet<u32>,
    out: &mut Vec<Anomaly>,
)
    ensures
        final(seen)@ == walk(fs.vol(), dir, depth as nat, old(seen)@).1,
        final(refs)@ == old(refs)@.union(walk_refs(fs.vol(), dir, depth as nat, old(seen)@)),
        anomalies_view(final(out)@) == anomalies_view(old(out)@) + deleted_anomalies(
            walk(fs.vol(), dir, depth as nat, old(seen)@).0,
        ),
    decreases depth_left(depth as nat), 1nat,
{
    let ghost v = fs.vol();
    let ghost out0 = anomalies_view(out@);
    let ghost refs0 = refs@;
    if depth >= MAX_DEPTH {
        assert(anomalies_view(out@) + deleted_anomalies(Seq::empty()) =~= anomalies_view(out@));
        assert(refs@.union(Set::empty()) =~= refs@);
        return;
    }
    let nodes = match fs.read_dir(dir) {
        Ok(ns) => ns,
        Err(_) => {
            assert(anomalies_view(out@) + deleted_anomalies(Seq::empty()) =~= anomalies_view(out@));
            assert(refs@.union(Set::empty()) =~= refs@);
            return;
        },
    };
    let ghost ns = nodes@.map_values(|n: crate::fs::Node| n@);
    let ghost total = walk_nodes(v, ns, depth as nat, seen@);
    let ghost total_refs = walk_refs_nodes(v, ns, depth as nat, seen@);
    let dot = String::from_str(".");
    let dotdot = String::from_str("..");
    proof {
        lemma_u32_ordered();
        reveal_strlit(".");
        reveal_strlit("..");
    }
    let mut i: usize = 0;
    assert(ns.skip(0) =~= ns);
    assert(out0 + deleted_anomalies(Seq::empty()) =~= out0);
    while i < nodes.len()
        invariant
            v == fs.vol(),
            depth < MAX_DEPTH,
            ns == nodes@.map_values(|n: crate::fs::Node| n@),
            i <= nodes@.len(),
            dot@ == "."@,
            dotdot@ == ".."@,
            u32_ordered(),
            total.1 == walk_nodes(v, ns.skip(i as int), depth as nat, seen@).1,
            out0 + deleted_anomalies(total.0) == anomalies_view(out@) + deleted_anomalies(
                walk_nodes(v, ns.skip(i as int), depth as nat, seen@).0,
            ),
            refs0.union(total_refs) == refs@.union(walk_refs_nodes(v, ns.skip(i as int), depth as nat, seen@)),
        decreases nodes@.len() - i,
    {
        let node = &nodes[i];
        let ghost rest = ns.skip(i as int);
        let ghost rest1 = ns.skip(i + 1);
        assert(rest[0] == node@);
        assert(rest.drop_first() =~= rest1);
        let ghost before = anomalies_view(out@);
        let ghost seen_before = seen@;
        let ghost refs_before = refs@;
        if node.name == dot || node.name == dotdot {
            assert(is_dot_name(node@.name));
            assert(walk_nodes(v, rest, depth as nat, seen@) == walk_nodes(v, rest1, depth as nat, seen@));
            assert(walk_refs_nodes(v, rest, depth as nat, seen@) == walk_refs_nodes(v, rest1, depth as nat, seen@));
        } else if node.is_deleted {
            let a = Anomaly::new(AnomalyKind::DeletedDirectoryEntry { name: node.name.clone() });
            out.push(a);
            proof {
                let r = walk_nodes(v, rest1, depth as nat, seen@);
                assert(!is_dot_name(node@.name));
                assert(walk_nodes(v, rest, depth as nat, seen@) == (seq![node@.name] + r.0, r.1));
                assert(anomalies_view(out@) =~= before.push(a@));
                assert(deleted_anomalies(seq![node@.name] + r.0) =~= seq![a@] + deleted_anomalies(r.0));
                assert(before.push(a@) + deleted_anomalies(r.0) =~= before + (seq![a@] + deleted_anomalies(r.0)));
                assert(walk_refs_nodes(v, rest, depth as nat, seen@) == walk_refs_nodes(v, rest1, depth as nat, seen@));
            }
        } else if node.is_dir && !node.is_volume_label && seen.insert(node.first_cluster) {
            refs.insert(node.first_cluster);
            collect_deleted(fs, node.id, depth + 1, seen, refs, out);
            proof {
                let s2 = seen_before.insert(node@.first_cluster);
                let a2 = walk(v, node@.id, (depth + 1) as nat, s2);
                assert(walk_refs_nodes(v, rest, depth as nat, seen_before) == set![node@.first_cluster].union(
                    walk_refs(v, node@.id, (depth + 1) as nat, s2)).union(walk_refs_nodes(v, rest1, depth as nat, a2.1)));
                assert(refs_before.union(walk_refs_nodes(v, rest, depth as nat, seen_before)) =~= refs@.union(
                    walk_refs_nodes(v, rest1, depth as nat, seen@)));
                let a = walk(v, node@.id, (depth + 1) as nat, seen_before.insert(node@.first_cluster));
                let b = walk_nodes(v, rest1, depth as nat, a.1);
                assert(!is_dot_name(node@.name));
                assert(walk_nodes(v, rest, depth as nat, seen_before) == (a.0 + b.0, b.1));
                assert(deleted_anomalies(a.0 + b.0) =~= deleted_anomalies(a.0) + deleted_anomalies(b.0));
                assert(before + deleted_anomalies(a.0) + deleted_anomalies(b.0) =~= before + (deleted_anomalies(a.0) + deleted_anomalies(b.0)));
            }
        } else {
            proof {
                assert(!is_dot_name(node@.name));
                if node@.is_dir && !node@.is_volume_label {
                    assert(seen_before.contains(node@.first_cluster));
                    assert(seen@ =~= seen_before);
                }
                assert(walk_nodes(v, rest, depth as nat, seen_before) == walk_nodes(v, rest1, depth as nat, seen@));
            }
            if !node.is_volume_label {
                refs.insert(node.first_cluster);
                proof {
                    assert(walk_refs_nodes(v, rest, depth as nat, seen_before) == set![node@.first_cluster].union(
                        walk_refs_nodes(v, rest1, depth as nat, seen_before)));
                    assert(refs_before.union(walk_refs_nodes(v, rest, depth as nat, seen_before)) =~= refs@.union(
                        walk_refs_nodes(v, rest1, depth as nat, seen@)));
                }
            } else {
                assert(walk_refs_nodes(v, rest, depth as nat, seen_before) == walk_refs_nodes(v, rest1, depth as nat, seen@));
            }
        }
        i = i + 1;
    }
    proof {
        assert(ns.skip(i as int) =~= Seq::<SpecNode>::empty());
        assert(anomalies_view(out@) + deleted_anomalies(Seq::empty()) =~= anomalies_view(out@));
        assert(refs@.union(Set::empty()) =~= refs@);
    }
}


/// Number of positions `i < n` where `img[a + i]` and `img[b + i]` differ.
pub open spec fn count_diff(img: Seq<u8>, a: int, b: int, n: nat) -> nat
    decreases n,
{
    if n == 0 {
        0
    } else {
        count_diff(img, a, b, (n - 1) as nat) + if img[a + n - 1] != img[b + n - 1] { 1nat } else { 0nat }
    }
}

/// The first position `i < n` where `img[a + i]` and `img[b + i]` differ.
pub open spec fn first_diff(img: Seq<u8>, a: int, b: int, n: nat) -> Option<int>
    decreases n,
{
    if n == 0 {
        None
    } else {
        match first_diff(img, a, b, (n - 1) as nat) {
            Some(i) => Some(i),
            None => if img[a + n - 1] != img[b + n - 1] { Some(n - 1) } else { None },
        }
    }
}

/// Byte length of one FAT copy.
pub open spec fn fat_copy_len(g: Geometry) -> int {
    g.fat_size_sectors * g.bytes_per_sector
}

/// The mirror comparison of a FAT12/16/32 volume: nothing when a FAT is empty
/// or either copy lies partly past the end of the image; otherwise a mismatch
/// anomaly at the first disagreeing byte, carrying the count of them all.
pub open spec fn mirror_anomalies(img: Seq<u8>, g: Geometry) -> Seq<SpecAnomaly> {
    let n = fat_copy_len(g);
    let a = g.fat_start as int;
    let b = a + n;
    if n == 0 || a + n > img.len() || b + n > img.len() {
        Seq::empty()
    } else {
        match first_diff(img, a, b, n as nat) {
            None => Seq::empty(),
            Some(i) => seq![
                anomaly_spec(
                    SpecAnomalyKind::FatMirrorMismatch {
                        fat_offset: i as u64,
                        fat1: img[a + i],
                        fat2: img[b + i],
                        differing_bytes: count_diff(img, a, b, n as nat) as u64,
                    },
                ),
            ],
        }
    }
}

/// The exFAT checksum comparison: nothing when the image is shorter than the
/// 12-sector boot region (it cannot be verified); otherwise a mismatch anomaly
/// when the recomputed checksum differs from the one stored at sector 11.
pub open spec fn checksum_anomalies(img: Seq<u8>, g: Geometry) -> Seq<SpecAnomaly> {
    let bps = g.bytes_per_sector as int;
    if img.len() < 12 * bps {
        Seq::empty()
    } else {
        let computed = boot_checksum_spec(img, g.bytes_per_sector);
        let stored = spec_le_u32(img, 11 * bps);
        if computed != stored {
            seq![anomaly_spec(SpecAnomalyKind::ExfatBootChecksumMismatch { computed, stored })]
        } else {
            Seq::empty()
        }
    }
}

/// The boot-sector parse the auditor uses: exFAT when bytes 3..11 spell
/// `"EXFAT   "`, FAT12/16/32 otherwise.
pub open spec fn audit_geometry(boot: Seq<u8>) -> Result<Geometry, SpecFatError> {
    if has_exfat_name(boot) {
        match exfat_boot_fault(boot) {
            Some(f) => Err(exfat_fault_error(f)),
            None => Ok(exfat_geometry(boot)),
        }
    } else {
        match fat_boot_fault(boot) {
            Some(f) => Err(boot_fault_error(f)),
            None => Ok(fat_geometry(boot)),
        }
    }
}

/// The boot-signature and integrity findings of an image whose boot sector
/// parses as `g`.
pub open spec fn front_anomalies(img: Seq<u8>, g: Geometry) -> Seq<SpecAnomaly> {
    let sig = spec_le_u16(img.subrange(0, 512), 510);
    let sig_part = if sig != 0xAA55 {
        seq![anomaly_spec(SpecAnomalyKind::BootSignatureInvalid { found: sig })]
    } else {
        Seq::empty()
    };
    let integrity = if g.variant == FatVariant::ExFat {
        checksum_anomalies(img, g)
    } else if g.num_fats >= 2 {
        mirror_anomalies(img, g)
    } else {
        Seq::empty()
    };
    sig_part + integrity
}

/// What the reader's view of the volume shows: the deleted entries its
/// directory walk finds and, on FAT12/16/32, the chain findings of its FAT
/// given the first clusters the walk finds claimed. Nothing when the image
/// does not open as a volume.
pub open spec fn tree_anomalies(img: Seq<u8>) -> Seq<SpecAnomaly> {
    match open_spec(img) {
        Ok(v) => deleted_anomalies(walk(v, FileId::Root, 0, Set::empty()).0) + if v.geom.variant
            != FatVariant::ExFat {
            chain_anomalies(v, walk_refs(v, FileId::Root, 0, Set::empty()))
        } else {
            Seq::empty()
        },
        Err(_) => Seq::empty(),
    }
}

/// The full audit of the image `img`: a short image is an error; otherwise a
/// boot-signature anomaly when `0xAA55` is absent, then either a BPB anomaly
/// (and nothing else) or the integrity check of the variant (exFAT checksum,
/// or FAT mirror when there are at least two FATs) followed by what the
/// reader's directory tree shows ([`tree_anomalies`]).
pub open spec fn audit_spec(img: Seq<u8>) -> Result<Seq<SpecAnomaly>, SpecFatError> {
    if img.len() < 512 {
        Err(SpecFatError::Io { op: "read"@, detail: "failed to fill whole buffer"@ })
    } else {
        let boot = img.subrange(0, 512);
        let sig = spec_le_u16(boot, 510);
        let sig_part = if sig != 0xAA55 {
            seq![anomaly_spec(SpecAnomalyKind::BootSignatureInvalid { found: sig })]
        } else {
            Seq::empty()
        };
        match audit_geometry(boot) {
            Err(e) => Ok(
                sig_part + seq![
                    anomaly_spec(SpecAnomalyKind::BpbInvalid { detail: error_message(e) }),
                ],
            ),
            Ok(g) => Ok(front_anomalies(img, g) + tree_anomalies(img)),
        }
    }
}

/// Compare the first FAT against the mirror copy, byte for byte.
fn audit_fat_mirror(image: &[u8], geom: &Geometry, out: &mut Vec<Anomaly>)
    ensures
        anomalies_view(final(out)@) == anomalies_view(old(out)@) + mirror_anomalies(image@, *geom),
{
    let len = image.len() as u64;
    assert(geom.fat_size_sectors as u64 * geom.bytes_per_sector as u64 <= 0xffff_ffff * 0xffff_ffff) by (nonlinear_arith);
    let n = geom.fat_size_sectors as u64 * geom.bytes_per_sector as u64;
    let a = geom.fat_start;
    if n == 0 || a > len || n > len - a || n > len - a - n {
        assert(anomalies_view(out@) + Seq::<SpecAnomaly>::empty() =~= anomalies_view(out@));
        return;
    }
    let b = a + n;
    let mut first: Option<(u64, u8, u8)> = None;
    let mut differing: u64 = 0;
    let mut i: u64 = 0;
    while i < n
        invariant
            i <= n,
            len == image@.len(),
            a + n <= len,
            b == a + n,
            b + n <= len,
            differing == count_diff(image@, a as int, b as int, i as nat),
            differing <= i,
            match first_diff(image@, a as int, b as int, i as nat) {
                None => first is None,
                Some(k) => first == Some((k as u64, image@[a + k], image@[b + k])),
            },
        decreases n - i,
    {
        let x = image[(a + i) as usize];
        let y = image[(b + i) as usize];
        if x != y {
            differing = differing + 1;
            if first.is_none() {
                first = Some((i, x, y));
            }
        }
        i = i + 1;
    }
    let ghost before = anomalies_view(out@);
    match first {
        Some((off, x, y)) => {
            let an = Anomaly::new(
                AnomalyKind::FatMirrorMismatch {
                    fat_offset: off,
                    fat1: x,
                    fat2: y,
                    differing_bytes: differing,
                },
            );
            out.push(an);
            assert(anomalies_view(out@) =~= before + seq![an@]);
        },
        None => {
            assert(anomalies_view(out@) + Seq::<SpecAnomaly>::empty() =~= anomalies_view(out@));
        },
    }
}

/// Compare the recomputed exFAT boot checksum against the stored value.
fn audit_exfat_checksum(image: &[u8], geom: &Geometry, out: &mut Vec<Anomaly>)
    ensures
        anomalies_view(final(out)@) == anomalies_view(old(out)@) + checksum_anomalies(image@, *geom),
{
    let bps = geom.bytes_per_sector as u64;
    if (image.len() as u64) < 12 * bps {
        assert(anomalies_view(out@) + Seq::<SpecAnomaly>::empty() =~= anomalies_view(out@));
        return;
    }
    let computed = boot_checksum(image, geom.bytes_per_sector);
    let stored = le_u32(image, (11 * bps) as usize);
    let ghost before = anomalies_view(out@);
    if computed != stored {
        let an = Anomaly::new(AnomalyKind::ExfatBootChecksumMismatch { computed, stored });
        out.push(an);
        assert(anomalies_view(out@) =~= before + seq![an@]);
    } else {
        assert(anomalies_view(out@) + Seq::<SpecAnomaly>::empty() =~= anomalies_view(out@));
    }
}

/// Append what the reader's view of the image shows: deleted entries, then
/// (FAT12/16/32) the chain findings.
fn audit_tree(image: &[u8], out: &mut Vec<Anomaly>)
    ensures
        anomalies_view(final(out)@) == anomalies_view(old(out)@) + tree_anomalies(image@),
{
    let ghost start = anomalies_view(out@);
    let copy = vstd::slice::slice_to_vec(image);
    assert(copy@ == image@);
    match FatFs::open(copy) {
        Ok(fs) => {
            let ghost v = fs.vol();
            assert(open_spec(image@) == Ok::<Vol, SpecFatError>(v));
            let mut seen = std::collections::BTreeSet::new();
            let mut refs = std::collections::BTreeSet::new();
            collect_deleted(&fs, fs.root(), 0, &mut seen, &mut refs, out);
            assert(refs@ =~= walk_refs(v, FileId::Root, 0, Set::empty()));
            if fs.variant() != FatVariant::ExFat {
                proof {
                    lemma_u32_ordered();
                }
                crate::chains::audit_chains(&fs, &refs, out);
            } else {
                assert(anomalies_view(out@) + Seq::<SpecAnomaly>::empty() =~= anomalies_view(out@));
            }
            assert(anomalies_view(out@) =~= start + tree_anomalies(image@));
        },
        Err(_) => {
            assert(anomalies_view(out@) + Seq::<SpecAnomaly>::empty() =~= anomalies_view(out@));
        },
    }
}

/// Audit a volume image for structural and integrity anomalies.
pub fn audit_reader(image: &[u8]) -> (r: Result<Vec<Anomaly>, FatError>)
    ensures
        match audit_spec(image@) {
            Ok(xs) => r matches Ok(out) && anomalies_view(out@) == xs,
            Err(e) => r matches Err(x) && x@ == e,
        },
{
    if image.len() < 512 {
        return Err(FatError::io("read", String::from_str("failed to fill whole buffer")));
    }
    let boot = &image[0..512];
    let mut out: Vec<Anomaly> = Vec::new();
    let sig = le_u16(boot, 510);
    if sig != 0xAA55 {
        out.push(Anomaly::new(AnomalyKind::BootSignatureInvalid { found: sig }));
    }
    let ghost sig_part = anomalies_view(out@);
    let parsed = if is_exfat_name(boot) {
        parse_exfat_boot(boot)
    } else {
        Geometry::parse(boot)
    };
    let geom = match parsed {
        Ok(g) => g,
        Err(e) => {
            let an = Anomaly::new(AnomalyKind::BpbInvalid { detail: e.message() });
            out.push(an);
            assert(anomalies_view(out@) =~= sig_part + seq![an@]);
            return Ok(out);
        },
    };
    if geom.variant == FatVariant::ExFat {
        audit_exfat_checksum(image, &geom, &mut out);
    } else if geom.num_fats >= 2 {
        audit_fat_mirror(image, &geom, &mut out);
    } else {
        assert(anomalies_view(out@) + Seq::<SpecAnomaly>::empty() =~= anomalies_view(out@));
    }
    let ghost mid = anomalies_view(out@);
    assert(mid =~= front_anomalies(image@, geom));
    audit_tree(image, &mut out);
    Ok(out)
}


/// Which of the eight kinds `k` is (0 to 7, in declaration order).
pub open spec fn kind_tag(k: SpecAnomalyKind) -> int {
    match k {
        SpecAnomalyKind::BootSignatureInvalid { .. } => 0,
        SpecAnomalyKind::BpbInvalid { .. } => 1,
        SpecAnomalyKind::FatMirrorMismatch { .. } => 2,
        SpecAnomalyKind::ExfatBootChecksumMismatch { .. } => 3,
        SpecAnomalyKind::DeletedDirectoryEntry { .. } => 4,
        SpecAnomalyKind::ChainThroughBadCluster { .. } => 5,
        SpecAnomalyKind::ChainCrossLinked { .. } => 6,
        SpecAnomalyKind::OrphanedChain { .. } => 7,
    }
}

/// Codes are stable per kind: two anomalies of different kinds never share a
/// code, and every code carries the scheme prefix `FAT-` or `EXFAT-`.
pub proof fn lemma_codes_distinct(a: SpecAnomalyKind, b: SpecAnomalyKind)
    ensures
        kind_tag(a) != kind_tag(b) ==> code_spec(a) != code_spec(b),
        code_spec(a).take(4) == "FAT-"@ || code_spec(a).take(6) == "EXFAT-"@,
{
    reveal_strlit("FAT-BOOT-SIG-INVALID");
    reveal_strlit("FAT-BPB-INVALID");
    reveal_strlit("FAT-MIRROR-MISMATCH");
    reveal_strlit("EXFAT-BOOT-CHECKSUM-MISMATCH");
    reveal_strlit("FAT-DIR-ENTRY-DELETED");
    reveal_strlit("FAT-CHAIN-THROUGH-BAD-CLUSTER");
    reveal_strlit("FAT-CHAIN-CROSS-LINKED");
    reveal_strlit("FAT-CHAIN-ORPHANED");
    reveal_strlit("FAT-");
    reveal_strlit("EXFAT-");
    if kind_tag(a) != kind_tag(b) {
        assert(code_spec(a).len() != code_spec(b).len());
    }
    if kind_tag(a) == 3 {
        assert(code_spec(a).take(6) =~= "EXFAT-"@);
    } else {
        assert(code_spec(a).take(4) =~= "FAT-"@);
    }
}

/// Whether some anomaly in `xs` is of the kind tagged `tag`.
pub open spec fn has_kind(xs: Seq<SpecAnomaly>, tag: int) -> bool {
    exists|i: int| 0 <= i < xs.len() && kind_tag(#[trigger] xs[i].kind) == tag
}

/// What the tree shows is only deleted-entry and chain findings.
proof fn lemma_tree_kinds(img: Seq<u8>)
    ensures
        forall|i: int| 0 <= i < tree_anomalies(img).len() ==> kind_tag(
            #[trigger] tree_anomalies(img)[i].kind,
        ) >= 4,
{
    match open_spec(img) {
        Ok(v) => {
            let del = deleted_anomalies(walk(v, FileId::Root, 0, Set::empty()).0);
            let ch = if v.geom.variant != FatVariant::ExFat {
                chain_anomalies(v, walk_refs(v, FileId::Root, 0, Set::empty()))
            } else {
                Seq::empty()
            };
            let t = tree_anomalies(img);
            assert(t == del + ch);
            assert forall|i: int| 0 <= i < t.len() implies kind_tag(#[trigger] t[i].kind) >= 4 by {
                if i < del.len() {
                    assert(t[i] == del[i]);
                } else {
                    assert(t[i] == ch[i - del.len()]);
                }
            }
        },
        Err(_) => {},
    }
}

/// Once the boot sector cannot be parsed nothing downstream is trusted: the
/// audit reports at most the signature anomaly and then the BPB anomaly,
/// which comes last.
pub proof fn lemma_invalid_bpb_ends_audit(img: Seq<u8>)
    requires
        img.len() >= 512,
        audit_geometry(img.subrange(0, 512)) is Err,
    ensures
        audit_spec(img) matches Ok(xs) && 1 <= xs.len() <= 2 && kind_tag(xs.last().kind) == 1
            && (xs.len() == 2 ==> kind_tag(xs[0].kind) == 0),
{
}

/// A volume with a single FAT gets no mirror comparison: its audit never
/// reports a mirror mismatch.
pub proof fn lemma_single_fat_has_no_mirror_finding(img: Seq<u8>)
    requires
        img.len() >= 512,
        audit_geometry(img.subrange(0, 512)) matches Ok(g) && g.variant != FatVariant::ExFat
            && g.num_fats < 2,
    ensures
        audit_spec(img) matches Ok(xs) && !has_kind(xs, 2),
{
    let g = audit_geometry(img.subrange(0, 512))->Ok_0;
    lemma_tree_kinds(img);
    let xs = audit_spec(img)->Ok_0;
    let front = front_anomalies(img, g);
    let tree = tree_anomalies(img);
    assert(xs == front + tree);
    assert forall|i: int| 0 <= i < xs.len() implies kind_tag(#[trigger] xs[i].kind) != 2 by {
        if i >= front.len() {
            assert(xs[i] == tree[i - front.len()]);
        }
    }
}

/// An exFAT image too short to hold the 12-sector boot region cannot have its
/// checksum verified, and the audit does not fabricate a mismatch.
pub proof fn lemma_truncated_exfat_has_no_checksum_finding(img: Seq<u8>)
    requires
        img.len() >= 512,
        audit_geometry(img.subrange(0, 512)) matches Ok(g) && g.variant == FatVariant::ExFat
            && img.len() < 12 * g.bytes_per_sector,
    ensures
        audit_spec(img) matches Ok(xs) && !has_kind(xs, 3),
{
    let g = audit_geometry(img.subrange(0, 512))->Ok_0;
    lemma_tree_kinds(img);
    let xs = audit_spec(img)->Ok_0;
    let front = front_anomalies(img, g);
    let tree = tree_anomalies(img);
    assert(xs == front + tree);
    assert forall|i: int| 0 <= i < xs.len() implies kind_tag(#[trigger] xs[i].kind) != 3 by {
        if i >= front.len() {
            assert(xs[i] == tree[i - front.len()]);
        }
    }
}

/// Two identical FAT copies raise no mirror finding; copies that differ in
/// some byte (both lying inside the image) raise exactly one, at the first
/// differing offset.
pub proof fn lemma_mirror_finding_iff_copies_differ(img: Seq<u8>, g: Geometry)
    requires
        fat_copy_len(g) > 0,
        g.fat_start + 2 * fat_copy_len(g) <= img.len(),
    ensures
        (mirror_anomalies(img, g).len() == 0) <==> (forall|i: int|
            0 <= i < fat_copy_len(g) ==> img[g.fat_start + i] == #[trigger] img[g.fat_start
                + fat_copy_len(g) + i]),
        mirror_anomalies(img, g).len() <= 1,
{
    let n = fat_copy_len(g);
    let a = g.fat_start as int;
    lemma_first_diff(img, a, a + n, n as nat);
}

/// `first_diff` finds a difference exactly when one exists, and it is the
/// first.
proof fn lemma_first_diff(img: Seq<u8>, a: int, b: int, n: nat)
    ensures
        first_diff(img, a, b, n) is None <==> (forall|i: int|
            0 <= i < n ==> img[a + i] == #[trigger] img[b + i]),
        first_diff(img, a, b, n) matches Some(k) ==> 0 <= k < n && img[a + k] != img[b + k]
            && forall|i: int| 0 <= i < k ==> img[a + i] == #[trigger] img[b + i],
    decreases n,
{
    if n > 0 {
        lemma_first_diff(img, a, b, (n - 1) as nat);
        if first_diff(img, a, b, (n - 1) as nat) is None {
            assert(img[a + (n - 1)] == img[b + (n - 1)] ==> forall|i: int|
                0 <= i < n ==> img[a + i] == #[trigger] img[b + i]);
        }
    }
}

/// The directory walk reports, by name, every deleted node of the listing it
/// walks (other than `.`/`..`), whatever was visited before.
pub proof fn lemma_walk_reports_deleted(v: Vol, ns: Seq<SpecNode>, depth: nat, seen: Set<u32>, j: int)
    requires
        depth < MAX_DEPTH,
        0 <= j < ns.len(),
        ns[j].is_deleted,
        !is_dot_name(ns[j].name),
    ensures
        walk_nodes(v, ns, depth, seen).0.contains(ns[j].name),
    decreases ns.len(),
{
    let n = ns[0];
    let rest = ns.drop_first();
    let all = walk_nodes(v, ns, depth, seen).0;
    if j == 0 {
        assert(all[0] == n.name);
    } else {
        assert(rest[j - 1] == ns[j]);
        if is_dot_name(n.name) {
            lemma_walk_reports_deleted(v, rest, depth, seen, j - 1);
        } else if n.is_deleted {
            lemma_walk_reports_deleted(v, rest, depth, seen, j - 1);
            let r = walk_nodes(v, rest, depth, seen).0;
            let k = choose|k: int| 0 <= k < r.len() && r[k] == ns[j].name;
            assert(all[k + 1] == r[k]);
        } else if n.is_dir && !n.is_volume_label && !seen.contains(n.first_cluster) {
            let a = walk(v, n.id, depth + 1, seen.insert(n.first_cluster));
            lemma_walk_reports_deleted(v, rest, depth, a.1, j - 1);
            let r = walk_nodes(v, rest, depth, a.1).0;
            let k = choose|k: int| 0 <= k < r.len() && r[k] == ns[j].name;
            assert(all[a.0.len() + k] == r[k]);
        } else {
            lemma_walk_reports_deleted(v, rest, depth, seen, j - 1);
        }
    }
}

/// Whether the walk of listing `ns` descends into node `n`: a directory that is
/// not `.`/`..`, not deleted, not the volume label, and whose first cluster
/// was not visited before it (`seen_before`).
pub open spec fn descends_into(n: SpecNode, seen_before: Set<u32>) -> bool {
    !is_dot_name(n.name) && !n.is_deleted && n.is_dir && !n.is_volume_label && !seen_before.contains(
        n.first_cluster,
    )
}

/// The walk of a listing reports everything the walk of each subdirectory it
/// descends into reports, that subdirectory being walked one level deeper
/// (`depth + 1`), starting from what was visited before it plus its own first
/// cluster.
pub proof fn lemma_walk_includes_subdir(v: Vol, ns: Seq<SpecNode>, depth: nat, seen: Set<u32>, j: int, k: int)
    requires
        depth < MAX_DEPTH,
        0 <= j < ns.len(),
        descends_into(ns[j], walk_nodes(v, ns.take(j), depth, seen).1),
        0 <= k < walk(
            v,
            ns[j].id,
            depth + 1,
            walk_nodes(v, ns.take(j), depth, seen).1.insert(ns[j].first_cluster),
        ).0.len(),
    ensures
        walk_nodes(v, ns, depth, seen).0.contains(
            walk(
                v,
                ns[j].id,
                depth + 1,
                walk_nodes(v, ns.take(j), depth, seen).1.insert(ns[j].first_cluster),
            ).0[k],
        ),
    decreases ns.len(),
{
    let n = ns[0];
    let rest = ns.drop_first();
    let all = walk_nodes(v, ns, depth, seen).0;
    if j == 0 {
        assert(ns.take(0) =~= Seq::<SpecNode>::empty());
        let a = walk(v, n.id, depth + 1, seen.insert(n.first_cluster));
        assert(all[k] == a.0[k]);
    } else {
        assert(ns.take(j).drop_first() =~= rest.take(j - 1));
        assert(ns.take(j)[0] == n);
        assert(rest[j - 1] == ns[j]);
        if is_dot_name(n.name) {
            lemma_walk_includes_subdir(v, rest, depth, seen, j - 1, k);
        } else if n.is_deleted {
            lemma_walk_includes_subdir(v, rest, depth, seen, j - 1, k);
            let r = walk_nodes(v, rest, depth, seen).0;
            let x = choose|x: int| 0 <= x < r.len() && r[x] == walk(
                v,
                ns[j].id,
                depth + 1,
                walk_nodes(v, ns.take(j), depth, seen).1.insert(ns[j].first_cluster),
            ).0[k];
            assert(all[x + 1] == r[x]);
        } else if n.is_dir && !n.is_volume_label && !seen.contains(n.first_cluster) {
            let a = walk(v, n.id, depth + 1, seen.insert(n.first_cluster));
            lemma_walk_includes_subdir(v, rest, depth, a.1, j - 1, k);
            let r = walk_nodes(v, rest, depth, a.1).0;
            let x = choose|x: int| 0 <= x < r.len() && r[x] == walk(
                v,
                ns[j].id,
                depth + 1,
                walk_nodes(v, ns.take(j), depth, seen).1.insert(ns[j].first_cluster),
            ).0[k];
            assert(all[a.0.len() + x] == r[x]);
        } else {
            lemma_walk_includes_subdir(v, rest, depth, seen, j - 1, k);
        }
    }
}

/// The claimed clusters found over a listing include, for each subdirectory
/// the walk descends into, its own first cluster and every claimed cluster
/// found in it one level deeper (`depth + 1`), starting from what was visited
/// before it plus its own first cluster.
pub proof fn lemma_refs_include_subdir(v: Vol, ns: Seq<SpecNode>, depth: nat, seen: Set<u32>, j: int, x: u32)
    requires
        depth < MAX_DEPTH,
        0 <= j < ns.len(),
        descends_into(ns[j], walk_nodes(v, ns.take(j), depth, seen).1),
        x == ns[j].first_cluster || walk_refs(
            v,
            ns[j].id,
            depth + 1,
            walk_nodes(v, ns.take(j), depth, seen).1.insert(ns[j].first_cluster),
        ).contains(x),
    ensures
        walk_refs_nodes(v, ns, depth, seen).contains(x),
    decreases ns.len(),
{
    let n = ns[0];
    let rest = ns.drop_first();
    if j == 0 {
        assert(ns.take(0) =~= Seq::<SpecNode>::empty());
    } else {
        assert(ns.take(j).drop_first() =~= rest.take(j - 1));
        assert(ns.take(j)[0] == n);
        assert(rest[j - 1] == ns[j]);
        if is_dot_name(n.name) || n.is_deleted || n.is_volume_label {
            lemma_refs_include_subdir(v, rest, depth, seen, j - 1, x);
        } else if n.is_dir && !seen.contains(n.first_cluster) {
            let a = walk(v, n.id, depth + 1, seen.insert(n.first_cluster));
            lemma_refs_include_subdir(v, rest, depth, a.1, j - 1, x);
        } else {
            lemma_refs_include_subdir(v, rest, depth, seen, j - 1, x);
        }
    }
}

/// A deleted node (other than `.`/`..`) listed in a subdirectory that the walk
/// descends into is reported by the walk of the parent listing, as long as
/// the subdirectory lies within the depth limit ([`MAX_DEPTH`]).
pub proof fn lemma_walk_reports_nested(
    v: Vol,
    ns: Seq<SpecNode>,
    depth: nat,
    seen: Set<u32>,
    j: int,
    ms: Seq<SpecNode>,
    k: int,
)
    requires
        depth + 1 < MAX_DEPTH,
        0 <= j < ns.len(),
        descends_into(ns[j], walk_nodes(v, ns.take(j), depth, seen).1),
        read_dir_spec(v, ns[j].id) == Ok::<Seq<SpecNode>, SpecFatError>(ms),
        0 <= k < ms.len(),
        ms[k].is_deleted,
        !is_dot_name(ms[k].name),
    ensures
        walk_nodes(v, ns, depth, seen).0.contains(ms[k].name),
{
    let s2 = walk_nodes(v, ns.take(j), depth, seen).1.insert(ns[j].first_cluster);
    lemma_walk_reports_deleted(v, ms, depth + 1, s2, k);
    let sub = walk(v, ns[j].id, depth + 1, s2).0;
    assert(sub == walk_nodes(v, ms, depth + 1, s2).0);
    let x = choose|x: int| 0 <= x < sub.len() && sub[x] == ms[k].name;
    lemma_walk_includes_subdir(v, ns, depth, seen, j, x);
}

/// Where a descent through directories ends: the listing reached, the depth
/// it is walked at, and the visited set it is walked from.
pub struct Reached {
    pub listing: Seq<SpecNode>,
    pub depth: nat,
    pub seen: Set<u32>,
}

/// The listing reached from listing `ns` (walked at `depth` from the visited
/// set `seen`) by descending, one level at a time, into the node at each
/// index of `path` as the walk would: with the depth and visited set it is
/// walked with. `None` when a step names no node the walk descends into or a
/// directory that cannot be listed.
pub open spec fn reached(v: Vol, ns: Seq<SpecNode>, depth: nat, seen: Set<u32>, path: Seq<int>) -> Option<
    Reached,
>
    decreases path.len(),
{
    if path.len() == 0 {
        Some(Reached { listing: ns, depth, seen })
    } else {
        let j = path[0];
        if 0 <= j < ns.len() && descends_into(ns[j], walk_nodes(v, ns.take(j), depth, seen).1)
            && read_dir_spec(v, ns[j].id) is Ok {
            reached(
                v,
                read_dir_spec(v, ns[j].id)->Ok_0,
                depth + 1,
                walk_nodes(v, ns.take(j), depth, seen).1.insert(ns[j].first_cluster),
                path.drop_first(),
            )
        } else {
            None
        }
    }
}

proof fn lemma_reached_depth(v: Vol, ns: Seq<SpecNode>, depth: nat, seen: Set<u32>, path: Seq<int>)
    ensures
        reached(v, ns, depth, seen, path) matches Some(r) ==> r.depth == depth + path.len(),
    decreases path.len(),
{
    if path.len() > 0 {
        let j = path[0];
        if 0 <= j < ns.len() && read_dir_spec(v, ns[j].id) is Ok {
            lemma_reached_depth(
                v,
                read_dir_spec(v, ns[j].id)->Ok_0,
                depth + 1,
                walk_nodes(v, ns.take(j), depth, seen).1.insert(ns[j].first_cluster),
                path.drop_first(),
            );
        }
    }
}

/// Every deleted node (other than `.`/`..`) of a listing that the walk reaches
/// by descending through directories is reported by the walk, as long as that
/// listing lies within the depth limit ([`MAX_DEPTH`]).
pub proof fn lemma_walk_reports_reached(
    v: Vol,
    ns: Seq<SpecNode>,
    depth: nat,
    seen: Set<u32>,
    path: Seq<int>,
    k: int,
)
    requires
        reached(v, ns, depth, seen, path) matches Some(r) && r.depth < MAX_DEPTH && 0 <= k < r.listing.len()
            && r.listing[k].is_deleted && !is_dot_name(r.listing[k].name),
    ensures
        walk_nodes(v, ns, depth, seen).0.contains(reached(v, ns, depth, seen, path)->0.listing[k].name),
    decreases path.len(),
{
    lemma_reached_depth(v, ns, depth, seen, path);
    let ms = reached(v, ns, depth, seen, path)->0.listing;
    if path.len() == 0 {
        lemma_walk_reports_deleted(v, ns, depth, seen, k);
    } else {
        let j = path[0];
        let cs = read_dir_spec(v, ns[j].id)->Ok_0;
        let s2 = walk_nodes(v, ns.take(j), depth, seen).1.insert(ns[j].first_cluster);
        lemma_walk_reports_reached(v, cs, depth + 1, s2, path.drop_first(), k);
        let sub = walk(v, ns[j].id, depth + 1, s2).0;
        assert(sub == walk_nodes(v, cs, depth + 1, s2).0);
        let x = choose|x: int| 0 <= x < sub.len() && sub[x] == ms[k].name;
        lemma_walk_includes_subdir(v, ns, depth, seen, j, x);
    }
}

/// Every deleted node (other than `.`/`..`) listed in a directory reached
/// from the root through fewer than [`MAX_DEPTH`] descents into directories
/// the walk visits (not deleted, not `.`/`..`, not the volume label, not
/// visited before) is reported by the audit as a deleted-entry anomaly
/// carrying its name.
pub proof fn lemma_audit_reports_reached(img: Seq<u8>, v: Vol, ns: Seq<SpecNode>, path: Seq<int>, k: int)
    requires
        open_spec(img) == Ok::<Vol, SpecFatError>(v),
        read_dir_spec(v, FileId::Root) == Ok::<Seq<SpecNode>, SpecFatError>(ns),
        path.len() < MAX_DEPTH,
        reached(v, ns, 0, Set::empty(), path) matches Some(r) && 0 <= k < r.listing.len()
            && r.listing[k].is_deleted && !is_dot_name(r.listing[k].name),
    ensures
        audit_spec(img) matches Ok(xs) && xs.contains(
            anomaly_spec(
                SpecAnomalyKind::DeletedDirectoryEntry {
                    name: reached(v, ns, 0, Set::empty(), path)->0.listing[k].name,
                },
            ),
        ),
{
    let name = reached(v, ns, 0, Set::empty(), path)->0.listing[k].name;
    lemma_reached_depth(v, ns, 0, Set::empty(), path);
    let boot = img.subrange(0, 512);
    assert(audit_geometry(boot) is Ok);
    lemma_walk_reports_reached(v, ns, 0, Set::empty(), path, k);
    let names = walk(v, FileId::Root, 0, Set::empty()).0;
    let x = choose|x: int| 0 <= x < names.len() && names[x] == name;
    let del = deleted_anomalies(names);
    assert(del[x] == anomaly_spec(SpecAnomalyKind::DeletedDirectoryEntry { name }));
    let g = audit_geometry(boot)->Ok_0;
    let xs = audit_spec(img)->Ok_0;
    let front = front_anomalies(img, g);
    let tree = tree_anomalies(img);
    assert(xs == front + tree);
    assert(tree[x] == del[x]);
    assert(xs[front.len() + x] == del[x]);
}

/// Every deleted entry the reader lists in the root directory of a volume
/// (other than `.`/`..`) is reported by the audit as a deleted-entry anomaly
/// carrying its name.
pub proof fn lemma_audit_reports_root_deleted(img: Seq<u8>, v: Vol, ns: Seq<SpecNode>, j: int)
    requires
        open_spec(img) == Ok::<Vol, SpecFatError>(v),
        read_dir_spec(v, FileId::Root) == Ok::<Seq<SpecNode>, SpecFatError>(ns),
        0 <= j < ns.len(),
        ns[j].is_deleted,
        !is_dot_name(ns[j].name),
    ensures
        audit_spec(img) matches Ok(xs) && xs.contains(
            anomaly_spec(SpecAnomalyKind::DeletedDirectoryEntry { name: ns[j].name }),
        ),
{
    let boot = img.subrange(0, 512);
    assert(audit_geometry(boot) is Ok);
    lemma_walk_reports_deleted(v, ns, 0, Set::empty(), j);
    let names = walk(v, FileId::Root, 0, Set::empty()).0;
    let k = choose|k: int| 0 <= k < names.len() && names[k] == ns[j].name;
    let del = deleted_anomalies(names);
    assert(del[k] == anomaly_spec(SpecAnomalyKind::DeletedDirectoryEntry { name: ns[j].name }));
    let g = audit_geometry(boot)->Ok_0;
    let xs = audit_spec(img)->Ok_0;
    let front = front_anomalies(img, g);
    let tree = tree_anomalies(img);
    assert(xs == front + tree);
    assert(tree[k] == del[k]);
    assert(xs[front.len() + k] == del[k]);
}

/// With the boot region present, the exFAT audit reports a checksum mismatch
/// exactly when the recomputed checksum differs from the stored one.
pub proof fn lemma_checksum_finding_iff_mismatch(img: Seq<u8>, g: Geometry)
    requires
        img.len() >= 12 * g.bytes_per_sector,
    ensures
        (checksum_anomalies(img, g).len() == 1) <==> boot_checksum_spec(img, g.bytes_per_sector)
            != spec_le_u32(img, 11 * g.bytes_per_sector),
        checksum_anomalies(img, g).len() <= 1,
{
}

/// Whether `s` contains `t` as a contiguous run.
pub open spec fn has_run(s: Seq<char>, t: Seq<char>) -> bool {
    exists|i: int| 0 <= i && i + t.len() <= s.len() && #[trigger] s.subrange(i, i + t.len()) == t
}

/// A text ending in `tail` contains what `tail` holds at `pos`.
proof fn lemma_tail_run(a: Seq<char>, tail: Seq<char>, pos: int, t: Seq<char>)
    requires
        0 <= pos,
        pos + t.len() <= tail.len(),
        tail.subrange(pos, pos + t.len()) == t,
    ensures
        has_run(a + tail, t),
{
    let s = a + tail;
    let i = a.len() + pos;
    assert(s.subrange(i, i + t.len()) =~= tail.subrange(pos, pos + t.len()));
}

/// Every note is phrased as an observation: it contains "consistent with"
/// (never a verdict).
pub proof fn lemma_notes_say_consistent_with(k: SpecAnomalyKind)
    ensures
        has_run(note_spec(k), "consistent with"@),
{
    reveal_strlit("consistent with");
    let cw = "consistent with"@;
    match k {
        SpecAnomalyKind::DeletedDirectoryEntry { .. } => {
            reveal_strlit(" (recovery lead) \u{2014} consistent with a file removed from the volume");
            let tail = " (recovery lead) \u{2014} consistent with a file removed from the volume"@;
            assert(tail.subrange(19, 34) =~= cw);
            let n = note_spec(k);
            assert(n =~= n.subrange(0, n.len() - tail.len()) + tail);
            lemma_tail_run(n.subrange(0, n.len() - tail.len()), tail, 19, cw);
        },
        SpecAnomalyKind::BootSignatureInvalid { .. } => {
            reveal_strlit(", expected 0x55AA \u{2014} consistent with a non-FAT or overwritten boot sector");
            let tail = ", expected 0x55AA \u{2014} consistent with a non-FAT or overwritten boot sector"@;
            assert(tail.subrange(20, 35) =~= cw);
            let n = note_spec(k);
            assert(n =~= n.subrange(0, n.len() - tail.len()) + tail);
            lemma_tail_run(n.subrange(0, n.len() - tail.len()), tail, 20, cw);
        },
        SpecAnomalyKind::BpbInvalid { .. } => {
            reveal_strlit(" \u{2014} consistent with a damaged, wiped or non-FAT boot sector");
            let tail = " \u{2014} consistent with a damaged, wiped or non-FAT boot sector"@;
            assert(tail.subrange(3, 18) =~= cw);
            let n = note_spec(k);
            assert(n =~= n.subrange(0, n.len() - tail.len()) + tail);
            lemma_tail_run(n.subrange(0, n.len() - tail.len()), tail, 3, cw);
        },
        SpecAnomalyKind::FatMirrorMismatch { .. } => {
            reveal_strlit(") \u{2014} consistent with a post-hoc edit of one copy or media corruption");
            let tail = ") \u{2014} consistent with a post-hoc edit of one copy or media corruption"@;
            assert(tail.subrange(4, 19) =~= cw);
            let n = note_spec(k);
            assert(n =~= n.subrange(0, n.len() - tail.len()) + tail);
            lemma_tail_run(n.subrange(0, n.len() - tail.len()), tail, 4, cw);
        },
        SpecAnomalyKind::ExfatBootChecksumMismatch { .. } => {
            reveal_strlit(" \u{2014} consistent with a modified boot region");
            let tail = " \u{2014} consistent with a modified boot region"@;
            assert(tail.subrange(3, 18) =~= cw);
            let n = note_spec(k);
            assert(n =~= n.subrange(0, n.len() - tail.len()) + tail);
            lemma_tail_run(n.subrange(0, n.len() - tail.len()), tail, 3, cw);
        },
        SpecAnomalyKind::ChainThroughBadCluster { .. } => {
            reveal_strlit(" such link(s)) \u{2014} consistent with a damaged chain or data hidden behind a bad-cluster mark");
            let tail = " such link(s)) \u{2014} consistent with a damaged chain or data hidden behind a bad-cluster mark"@;
            assert(tail.subrange(17, 32) =~= cw);
            let n = note_spec(k);
            assert(n =~= n.subrange(0, n.len() - tail.len()) + tail);
            lemma_tail_run(n.subrange(0, n.len() - tail.len()), tail, 17, cw);
        },
        SpecAnomalyKind::ChainCrossLinked { .. } => {
            reveal_strlit(" repeated link(s)) \u{2014} consistent with a cross-linked, corrupted or hand-edited FAT");
            let tail = " repeated link(s)) \u{2014} consistent with a cross-linked, corrupted or hand-edited FAT"@;
            assert(tail.subrange(21, 36) =~= cw);
            let n = note_spec(k);
            assert(n =~= n.subrange(0, n.len() - tail.len()) + tail);
            lemma_tail_run(n.subrange(0, n.len() - tail.len()), tail, 21, cw);
        },
        SpecAnomalyKind::OrphanedChain { .. } => {
            reveal_strlit(" \u{2014} consistent with a deleted or hidden file whose entry is gone");
            let tail = " \u{2014} consistent with a deleted or hidden file whose entry is gone"@;
            assert(tail.subrange(3, 18) =~= cw);
            let n = note_spec(k);
            assert(n =~= n.subrange(0, n.len() - tail.len()) + tail);
            lemma_tail_run(n.subrange(0, n.len() - tail.len()), tail, 3, cw);
        },
    }
}

} // verus!
