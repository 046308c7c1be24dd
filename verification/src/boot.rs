//! FAT12/16/32 boot sector (BIOS Parameter Block) parse, geometry, and the
//! cluster-count FAT-type decision: fewer than 4085 clusters is FAT12, fewer
//! than 65525 is FAT16, anything larger is FAT32.
use vstd::prelude::*;
use crate::bytes::{byte_at, le_u16, le_u32, spec_le_u16, spec_le_u32, u8_at};
use crate::error::{FatError, SpecFatError};
use crate::text::{dec_chars, hex_chars, push_dec, push_hex};

verus! {

/// Largest cluster count of a FAT12 volume, exclusive.
pub const FAT12_MAX_CLUSTERS: u32 = 4085;
/// Largest cluster count of a FAT16 volume, exclusive.
pub const FAT16_MAX_CLUSTERS: u32 = 65525;

/// The on-disk FAT variant.
#[derive(Debug, Clone, Copy, PartialEq, Eq, Structural)]
pub enum FatVariant {
    /// 12-bit FAT entries, fixed root directory region.
    Fat12,
    /// 16-bit FAT entries, fixed root directory region.
    Fat16,
    /// 28-bit FAT entries, root directory in a cluster chain.
    Fat32,
    /// exFAT: 32-bit FAT entries, allocation bitmap, entry-set directories.
    ExFat,
}

impl FatVariant {
    /// The variant's name as `{:?}` renders it.
    pub fn name(&self) -> (r: &'static str)
        ensures
            r@ == variant_name(*self),
    {
        match self {
            FatVariant::Fat12 => "Fat12",
            FatVariant::Fat16 => "Fat16",
            FatVariant::Fat32 => "Fat32",
            FatVariant::ExFat => "ExFat",
        }
    }
}

/// The variant's name as `{:?}` renders it.
pub open spec fn variant_name(v: FatVariant) -> Seq<char> {
    match v {
        FatVariant::Fat12 => "Fat12"@,
        FatVariant::Fat16 => "Fat16"@,
        FatVariant::Fat32 => "Fat32"@,
        FatVariant::ExFat => "ExFat"@,
    }
}

/// Resolved volume geometry: every byte offset a reader needs, derived from
/// the boot sector.
#[derive(Debug, Clone, Copy, PartialEq, Eq, Structural)]
pub struct Geometry {
    /// Detected variant.
    pub variant: FatVariant,
    /// Bytes per sector.
    pub bytes_per_sector: u32,
    /// Sectors per cluster.
    pub sectors_per_cluster: u32,
    /// Bytes per cluster.
    pub cluster_size: u32,
    /// Reserved sectors before the first FAT.
    pub reserved_sectors: u32,
    /// Number of FAT copies.
    pub num_fats: u8,
    /// FAT12/16 fixed-root entry count (0 on FAT32/exFAT).
    pub root_entry_count: u16,
    /// Total sectors of the volume.
    pub total_sectors: u64,
    /// Sectors per FAT copy.
    pub fat_size_sectors: u32,
    /// Number of data clusters (cluster numbers run from 2).
    pub count_of_clusters: u32,
    /// First cluster of the root directory (FAT32/exFAT; 0 otherwise).
    pub root_cluster: u32,
    /// Byte offset of the first FAT.
    pub fat_start: u64,
    /// Byte offset of the FAT12/16 fixed root region.
    pub root_dir_start: u64,
    /// Byte length of the FAT12/16 fixed root region (0 on FAT32/exFAT).
    pub root_dir_bytes: u32,
    /// Byte offset of cluster 2.
    pub data_start: u64,
}

/// Byte offset of cluster `c` in the image: `None` below cluster 2 or when the
/// offset does not fit in 64 bits.
pub open spec fn cluster_offset_spec(g: Geometry, c: u32) -> Option<u64> {
    if c < 2 || g.data_start + (c - 2) * g.cluster_size > u64::MAX {
        None
    } else {
        Some((g.data_start + (c - 2) * g.cluster_size) as u64)
    }
}

impl Geometry {
    /// Byte offset of cluster `c`'s first byte (cluster numbering starts at 2).
    pub fn cluster_offset(&self, c: u32) -> (r: Option<u64>)
        ensures
            r == cluster_offset_spec(*self, c),
    {
        if c < 2 {
            return None;
        }
        let idx = (c - 2) as u64;
        assert(idx * self.cluster_size <= u64::MAX) by (nonlinear_arith)
            requires
                idx < 0x1_0000_0000,
                self.cluster_size < 0x1_0000_0000,
        ;
        let rel = idx * (self.cluster_size as u64);
        self.data_start.checked_add(rel)
    }

    /// Parse and validate a FAT12/16/32 boot sector.
    pub fn parse(boot: &[u8]) -> (r: Result<Geometry, FatError>)
        ensures
            match fat_boot_fault(boot@) {
                None => r == Ok::<Geometry, FatError>(fat_geometry(boot@)),
                Some(f) => r matches Err(e) && e@ == boot_fault_error(f),
            },
            r matches Ok(g) ==> 512 <= g.cluster_size <= 0x8_0000,
            r matches Ok(g) ==> g.data_start <= 0xffff_ffff * 0x1000,
    {
        let sig = le_u16(boot, 510);
        if sig != 0xAA55 {
            return Err(fault_to_error(BootFault::Signature(sig)));
        }
        let bps = le_u16(boot, 11);
        if !(bps == 512 || bps == 1024 || bps == 2048 || bps == 4096) {
            return Err(fault_to_error(BootFault::SectorSize(bps)));
        }
        let spc = u8_at(boot, 13);
        if !(spc == 1 || spc == 2 || spc == 4 || spc == 8 || spc == 16 || spc == 32 || spc == 64
            || spc == 128) {
            return Err(fault_to_error(BootFault::ClusterSectors(spc)));
        }
        let reserved = le_u16(boot, 14);
        if reserved == 0 {
            return Err(fault_to_error(BootFault::NoReserved));
        }
        let num_fats = u8_at(boot, 16);
        if num_fats == 0 {
            return Err(fault_to_error(BootFault::NoFats));
        }
        let root_entries = le_u16(boot, 17);
        let total16 = le_u16(boot, 19);
        let total: u64 = if total16 != 0 {
            total16 as u64
        } else {
            le_u32(boot, 32) as u64
        };
        if total == 0 {
            return Err(fault_to_error(BootFault::NoSectors));
        }
        let fat16 = le_u16(boot, 22);
        let fat_size: u32 = if fat16 != 0 {
            fat16 as u32
        } else {
            le_u32(boot, 36)
        };
        if fat_size == 0 {
            return Err(fault_to_error(BootFault::NoFatSize));
        }
        let bps64 = bps as u64;
        let root_dir_sectors: u64 = (root_entries as u64 * 32 + bps64 - 1) / bps64;
        assert(num_fats as u64 * fat_size as u64 <= 0xff * 0xffff_ffff) by (nonlinear_arith)
            requires
                num_fats <= 0xff,
                fat_size <= 0xffff_ffff,
        ;
        let fat_sectors: u64 = num_fats as u64 * fat_size as u64;
        let meta: u64 = reserved as u64 + fat_sectors + root_dir_sectors;
        if meta > total {
            return Err(fault_to_error(BootFault::Overrun { meta, total }));
        }
        let count: u64 = (total - meta) / (spc as u64);
        let variant = if count < FAT12_MAX_CLUSTERS as u64 {
            FatVariant::Fat12
        } else if count < FAT16_MAX_CLUSTERS as u64 {
            FatVariant::Fat16
        } else {
            FatVariant::Fat32
        };
        let root_cluster: u32 = if variant == FatVariant::Fat32 {
            le_u32(boot, 44)
        } else {
            0
        };
        if variant == FatVariant::Fat32 && root_cluster < 2 {
            return Err(fault_to_error(BootFault::RootCluster(root_cluster)));
        }
        assert(root_dir_sectors * bps64 < 0x100_0000) by (nonlinear_arith)
            requires
                root_dir_sectors == (root_entries as u64 * 32 + bps64 - 1) / (bps64 as int),
                root_entries <= 0xffff,
                512 <= bps64 <= 4096,
        ;
        assert(meta * bps64 <= 0x1000_0000_0000_0000) by (nonlinear_arith)
            requires
                meta <= 0xffff_ffff,
                bps64 <= 4096,
        ;
        assert(reserved as u64 * bps64 <= (reserved as u64 + fat_sectors) * bps64) by (
        nonlinear_arith)
            requires
                bps64 <= 4096,
        ;
        assert((reserved as u64 + fat_sectors) * bps64 <= meta * bps64) by (nonlinear_arith)
            requires
                reserved as u64 + fat_sectors <= meta,
                bps64 <= 4096,
        ;
        assert(512 <= bps as u32 * spc as u32 <= 4096 * 128) by (nonlinear_arith)
            requires
                512 <= bps <= 4096,
                1 <= spc <= 128,
        ;
        let fat_start = reserved as u64 * bps64;
        let root_dir_start = (reserved as u64 + fat_sectors) * bps64;
        let root_dir_bytes = (root_dir_sectors * bps64) as u32;
        let data_start = meta * bps64;
        assert(data_start <= 0xffff_ffff * 0x1000) by (nonlinear_arith)
            requires
                data_start == meta * bps64,
                meta <= 0xffff_ffff,
                bps64 <= 4096,
        ;
        assert(data_start == root_dir_start + root_dir_bytes) by (nonlinear_arith)
            requires
                data_start == meta * bps64,
                root_dir_start == (reserved as u64 + fat_sectors) * bps64,
                root_dir_bytes == root_dir_sectors * bps64,
                meta == reserved as u64 + fat_sectors + root_dir_sectors,
        ;
        Ok(
            Geometry {
                variant,
                bytes_per_sector: bps as u32,
                sectors_per_cluster: spc as u32,
                cluster_size: bps as u32 * spc as u32,
                reserved_sectors: reserved as u32,
                num_fats,
                root_entry_count: if variant == FatVariant::Fat32 {
                    0
                } else {
                    root_entries
                },
                total_sectors: total,
                fat_size_sectors: fat_size,
                count_of_clusters: count as u32,
                root_cluster,
                fat_start,
                root_dir_start,
                root_dir_bytes,
                data_start,
            },
        )
    }
}

/// A reason a FAT12/16/32 boot sector is rejected, carrying the offending
/// value.
pub enum BootFault {
    /// The 16-bit value at 0x1FE is not `0xAA55`.
    Signature(u16),
    /// Bytes per sector is not a power of two in 512..=4096.
    SectorSize(u16),
    /// Sectors per cluster is not a power of two in 1..=128.
    ClusterSectors(u8),
    /// The reserved sector count is 0.
    NoReserved,
    /// The number of FATs is 0.
    NoFats,
    /// The total sector count is 0.
    NoSectors,
    /// The FAT size is 0.
    NoFatSize,
    /// The reserved, FAT and root regions exceed the volume.
    Overrun { meta: u64, total: u64 },
    /// A FAT32 root cluster below 2.
    RootCluster(u32),
}

/// Bytes per sector (BPB offset 11).
pub open spec fn bpb_bytes_per_sector(b: Seq<u8>) -> u16 { spec_le_u16(b, 11) }
/// Sectors per cluster (BPB offset 13).
pub open spec fn bpb_sectors_per_cluster(b: Seq<u8>) -> u8 { byte_at(b, 13) }
/// Reserved sector count (BPB offset 14).
pub open spec fn bpb_reserved(b: Seq<u8>) -> u16 { spec_le_u16(b, 14) }
/// Number of FATs (BPB offset 16).
pub open spec fn bpb_num_fats(b: Seq<u8>) -> u8 { byte_at(b, 16) }
/// Fixed-root entry count (BPB offset 17).
pub open spec fn bpb_root_entries(b: Seq<u8>) -> u16 { spec_le_u16(b, 17) }

/// Total sectors: the 16-bit field at 19, or the 32-bit field at 32 when it is 0.
pub open spec fn bpb_total_sectors(b: Seq<u8>) -> int {
    if spec_le_u16(b, 19) != 0 { spec_le_u16(b, 19) as int } else { spec_le_u32(b, 32) as int }
}

/// Sectors per FAT: the 16-bit field at 22, or the 32-bit field at 36 when it is 0.
pub open spec fn bpb_fat_size(b: Seq<u8>) -> int {
    if spec_le_u16(b, 22) != 0 { spec_le_u16(b, 22) as int } else { spec_le_u32(b, 36) as int }
}

/// Sectors of the fixed root region, rounded up.
pub open spec fn bpb_root_dir_sectors(b: Seq<u8>) -> int {
    (bpb_root_entries(b) * 32 + bpb_bytes_per_sector(b) - 1) / (bpb_bytes_per_sector(b) as int)
}

/// Sectors before the data region: reserved + FATs + fixed root.
pub open spec fn bpb_meta_sectors(b: Seq<u8>) -> int {
    bpb_reserved(b) + bpb_num_fats(b) * bpb_fat_size(b) + bpb_root_dir_sectors(b)
}

/// Data clusters: data sectors divided by sectors per cluster.
pub open spec fn bpb_cluster_count(b: Seq<u8>) -> int {
    (bpb_total_sectors(b) - bpb_meta_sectors(b)) / (bpb_sectors_per_cluster(b) as int)
}

/// The variant decided by the cluster count.
pub open spec fn variant_for_count(count: int) -> FatVariant {
    if count < FAT12_MAX_CLUSTERS {
        FatVariant::Fat12
    } else if count < FAT16_MAX_CLUSTERS {
        FatVariant::Fat16
    } else {
        FatVariant::Fat32
    }
}

/// Whether `x` is a power of two in `lo..=hi` (for the BPB's sizes).
pub open spec fn valid_sector_size(x: u16) -> bool {
    x == 512 || x == 1024 || x == 2048 || x == 4096
}

/// Whether `x` is a power of two in 1..=128.
pub open spec fn valid_cluster_sectors(x: u8) -> bool {
    x == 1 || x == 2 || x == 4 || x == 8 || x == 16 || x == 32 || x == 64 || x == 128
}

/// The first reason (in check order) the boot sector is rejected, if any.
pub open spec fn fat_boot_fault(b: Seq<u8>) -> Option<BootFault> {
    if spec_le_u16(b, 510) != 0xAA55 {
        Some(BootFault::Signature(spec_le_u16(b, 510)))
    } else if !valid_sector_size(bpb_bytes_per_sector(b)) {
        Some(BootFault::SectorSize(bpb_bytes_per_sector(b)))
    } else if !valid_cluster_sectors(bpb_sectors_per_cluster(b)) {
        Some(BootFault::ClusterSectors(bpb_sectors_per_cluster(b)))
    } else if bpb_reserved(b) == 0 {
        Some(BootFault::NoReserved)
    } else if bpb_num_fats(b) == 0 {
        Some(BootFault::NoFats)
    } else if bpb_total_sectors(b) == 0 {
        Some(BootFault::NoSectors)
    } else if bpb_fat_size(b) == 0 {
        Some(BootFault::NoFatSize)
    } else if bpb_meta_sectors(b) > bpb_total_sectors(b) {
        Some(
            BootFault::Overrun {
                meta: bpb_meta_sectors(b) as u64,
                total: bpb_total_sectors(b) as u64,
            },
        )
    } else if variant_for_count(bpb_cluster_count(b)) == FatVariant::Fat32 && spec_le_u32(b, 44)
        < 2 {
        Some(BootFault::RootCluster(spec_le_u32(b, 44)))
    } else {
        None
    }
}

/// The geometry a valid boot sector describes.
pub open spec fn fat_geometry(b: Seq<u8>) -> Geometry {
    let bps = bpb_bytes_per_sector(b) as int;
    let variant = variant_for_count(bpb_cluster_count(b));
    Geometry {
        variant,
        bytes_per_sector: bps as u32,
        sectors_per_cluster: bpb_sectors_per_cluster(b) as u32,
        cluster_size: (bps * bpb_sectors_per_cluster(b)) as u32,
        reserved_sectors: bpb_reserved(b) as u32,
        num_fats: bpb_num_fats(b),
        root_entry_count: if variant == FatVariant::Fat32 { 0 } else { bpb_root_entries(b) },
        total_sectors: bpb_total_sectors(b) as u64,
        fat_size_sectors: bpb_fat_size(b) as u32,
        count_of_clusters: bpb_cluster_count(b) as u32,
        root_cluster: if variant == FatVariant::Fat32 { spec_le_u32(b, 44) } else { 0 },
        fat_start: (bpb_reserved(b) * bps) as u64,
        root_dir_start: ((bpb_reserved(b) + bpb_num_fats(b) * bpb_fat_size(b)) * bps) as u64,
        root_dir_bytes: (bpb_root_dir_sectors(b) * bps) as u32,
        data_start: (bpb_meta_sectors(b) * bps) as u64,
    }
}

/// A valid FAT12/16/32 boot sector describes a cluster of 512 bytes to
/// 512 KiB and a data region starting at most `0xffff_ffff` 4 KiB sectors in.
pub proof fn lemma_fat_geometry_bounds(b: Seq<u8>)
    requires
        fat_boot_fault(b) is None,
    ensures
        512 <= fat_geometry(b).cluster_size <= 0x8_0000,
        fat_geometry(b).data_start <= 0xffff_ffff * 0x1000,
{
    let bps = bpb_bytes_per_sector(b) as int;
    let spc = bpb_sectors_per_cluster(b) as int;
    let meta = bpb_meta_sectors(b);
    let total = bpb_total_sectors(b);
    assert(512 <= bps * spc <= 0x8_0000) by (nonlinear_arith)
        requires
            512 <= bps <= 4096,
            1 <= spc <= 128,
    ;
    assert(0 <= bpb_root_dir_sectors(b)) by (nonlinear_arith)
        requires
            bpb_root_dir_sectors(b) == (bpb_root_entries(b) * 32 + bps - 1) / bps,
            512 <= bps,
            bpb_root_entries(b) >= 0,
    ;
    assert(0 <= bpb_num_fats(b) * bpb_fat_size(b)) by (nonlinear_arith)
        requires
            0 <= bpb_num_fats(b),
            0 <= bpb_fat_size(b),
    ;
    assert(0 <= meta <= total <= 0xffff_ffff);
    assert(0 <= meta * bps <= 0xffff_ffff * 0x1000) by (nonlinear_arith)
        requires
            0 <= meta <= 0xffff_ffff,
            512 <= bps <= 0x1000,
    ;
}

/// On an accepted boot sector the cluster count is the number of whole
/// clusters in the data region (the sectors after the reserved, FAT and root
/// regions), and the variant follows from that count: below 4085 clusters
/// FAT12, below 65525 FAT16, else FAT32.
pub proof fn lemma_cluster_count(b: Seq<u8>)
    requires
        fat_boot_fault(b) is None,
    ensures
        fat_geometry(b).count_of_clusters * fat_geometry(b).sectors_per_cluster <= bpb_total_sectors(
            b,
        ) - bpb_meta_sectors(b),
        bpb_total_sectors(b) - bpb_meta_sectors(b) < (fat_geometry(b).count_of_clusters + 1)
            * fat_geometry(b).sectors_per_cluster,
        fat_geometry(b).sectors_per_cluster == bpb_sectors_per_cluster(b),
        (fat_geometry(b).variant == FatVariant::Fat12) == (fat_geometry(b).count_of_clusters < 4085),
        (fat_geometry(b).variant == FatVariant::Fat16) == (4085 <= fat_geometry(b).count_of_clusters
            < 65525),
        (fat_geometry(b).variant == FatVariant::Fat32) == (65525 <= fat_geometry(
            b,
        ).count_of_clusters),
{
    lemma_fat_geometry_bounds(b);
    let data = bpb_total_sectors(b) - bpb_meta_sectors(b);
    let spc = bpb_sectors_per_cluster(b) as int;
    let q = data / spc;
    assert(0 <= data <= 0xffff_ffff);
    assert(1 <= spc <= 128);
    assert(0 <= q <= data && q * spc <= data < (q + 1) * spc) by (nonlinear_arith)
        requires
            q == data / spc,
            0 <= data,
            1 <= spc,
    ;
    assert(q == bpb_cluster_count(b));
    assert(fat_geometry(b).count_of_clusters == q);
}

/// A volume is refused for its FAT32 root cluster only when its data region
/// holds at least 65525 whole clusters, the FAT32 size: a smaller volume is
/// FAT12 or FAT16 and has no root cluster to check.
pub proof fn lemma_root_cluster_fault_is_fat32(b: Seq<u8>)
    requires
        fat_boot_fault(b) matches Some(BootFault::RootCluster(_)),
    ensures
        bpb_total_sectors(b) - bpb_meta_sectors(b) >= 65525 * bpb_sectors_per_cluster(b),
{
    let data = bpb_total_sectors(b) - bpb_meta_sectors(b);
    let spc = bpb_sectors_per_cluster(b) as int;
    let q = data / spc;
    assert(1 <= spc <= 128);
    assert(0 <= data);
    assert(q >= 65525);
    assert(data >= 65525 * spc) by (nonlinear_arith)
        requires
            q == data / spc,
            q >= 65525,
            0 <= data,
            1 <= spc,
    ;
}

/// An accepted FAT12/16/32 boot sector describes the layout its BIOS
/// Parameter Block records: sectors of BytesPerSector (16-bit at 11) bytes,
/// clusters of SectorsPerCluster (13) sectors, the first FAT after
/// ReservedSectors (14) sectors, NumFATs (16) copies of FATSz sectors each
/// (16-bit at 22, or 32-bit at 36 when that is 0), then the fixed root region
/// (RootEntries (17) 32-byte entries, rounded up to whole sectors), then the
/// data region; TotSec is the 16-bit field at 19, or the 32-bit field at 32
/// when that is 0; only FAT32 has a root cluster (32-bit at 44).
pub proof fn lemma_fat_layout(b: Seq<u8>)
    requires
        fat_boot_fault(b) is None,
    ensures
        ({
            let g = fat_geometry(b);
            let bps = spec_le_u16(b, 11) as int;
            let fat_size = if spec_le_u16(b, 22) != 0 {
                spec_le_u16(b, 22) as int
            } else {
                spec_le_u32(b, 36) as int
            };
            let entries = spec_le_u16(b, 17) as int;
            &&& g.bytes_per_sector == bps
            &&& g.sectors_per_cluster == byte_at(b, 13)
            &&& g.cluster_size == bps * byte_at(b, 13)
            &&& g.reserved_sectors == spec_le_u16(b, 14)
            &&& g.num_fats == byte_at(b, 16)
            &&& g.fat_size_sectors == fat_size
            &&& g.total_sectors == if spec_le_u16(b, 19) != 0 {
                spec_le_u16(b, 19) as int
            } else {
                spec_le_u32(b, 32) as int
            }
            &&& g.fat_start == spec_le_u16(b, 14) * bps
            &&& g.root_dir_start == g.fat_start + byte_at(b, 16) * fat_size * bps
            &&& (g.root_dir_bytes as int) % bps == 0
            &&& 32 * entries <= g.root_dir_bytes < 32 * entries + bps
            &&& g.data_start == g.root_dir_start + g.root_dir_bytes
            &&& g.root_cluster == if g.variant == FatVariant::Fat32 { spec_le_u32(b, 44) } else { 0 }
            &&& g.root_entry_count == if g.variant == FatVariant::Fat32 { 0 } else { entries as u16 }
        }),
{
    lemma_fat_geometry_bounds(b);
    let g = fat_geometry(b);
    let bps = bpb_bytes_per_sector(b) as int;
    let spc = bpb_sectors_per_cluster(b) as int;
    let res = bpb_reserved(b) as int;
    let nf = bpb_num_fats(b) as int;
    let fs = bpb_fat_size(b);
    let entries = bpb_root_entries(b) as int;
    let rds = bpb_root_dir_sectors(b);
    assert(512 <= bps <= 4096);
    assert(0 <= fs <= 0xffff_ffff);
    assert(0 <= res <= 0xffff);
    assert(0 <= nf <= 0xff);
    assert(0 <= res * bps <= 0xffff * 0x1000) by (nonlinear_arith)
        requires
            0 <= res <= 0xffff,
            512 <= bps <= 4096,
    ;
    assert(0 <= nf * fs * bps <= 0xff * 0xffff_ffff * 0x1000) by (nonlinear_arith)
        requires
            0 <= nf <= 0xff,
            0 <= fs <= 0xffff_ffff,
            512 <= bps <= 4096,
    ;
    assert((res + nf * fs) * bps == res * bps + nf * fs * bps) by (nonlinear_arith);
    assert(rds * bps % bps == 0 && 32 * entries <= rds * bps < 32 * entries + bps && 0 <= rds * bps
        < 0x100_0000) by (nonlinear_arith)
        requires
            rds == (entries * 32 + bps - 1) / bps,
            0 <= entries <= 0xffff,
            512 <= bps <= 4096,
    {
        vstd::arithmetic::div_mod::lemma_fundamental_div_mod(entries * 32 + bps - 1, bps);
        vstd::arithmetic::div_mod::lemma_mod_multiples_basic(rds, bps);
    }
    assert(0 <= bps * spc <= 0x8_0000) by (nonlinear_arith)
        requires
            512 <= bps <= 4096,
            1 <= spc <= 128,
    ;
    let meta = bpb_meta_sectors(b);
    assert(meta * bps == (res + nf * fs) * bps + rds * bps) by (nonlinear_arith)
        requires
            meta == res + nf * fs + rds,
    ;
}

/// Clusters are numbered from 2: clusters 0 and 1 have no offset, cluster 2
/// starts the data region, and each next cluster starts one cluster size
/// further on (while the offset fits in 64 bits).
pub proof fn lemma_cluster_offsets(g: Geometry, c: u32)
    requires
        2 <= c < 0xffff_ffff,
        g.data_start + (c - 1) * g.cluster_size <= u64::MAX,
    ensures
        cluster_offset_spec(g, 0) is None,
        cluster_offset_spec(g, 1) is None,
        cluster_offset_spec(g, 2) == Some(g.data_start),
        cluster_offset_spec(g, c) is Some,
        cluster_offset_spec(g, (c + 1) as u32) == Some((cluster_offset_spec(g, c)->0 + g.cluster_size) as u64),
{
    assert(0 <= (c - 2) * g.cluster_size <= (c - 1) * g.cluster_size) by (nonlinear_arith)
        requires
            c >= 2,
            g.cluster_size >= 0,
    ;
    assert(((c + 1) as u32 - 2) * g.cluster_size == (c - 2) * g.cluster_size + g.cluster_size) by (
    nonlinear_arith)
        requires
            (c + 1) as u32 == c + 1,
    ;
}

/// The error a boot fault is reported as.
pub open spec fn boot_fault_error(f: BootFault) -> SpecFatError {
    match f {
        BootFault::Signature(sig) => SpecFatError::NotFat(
            "boot signature "@ + hex_chars(sig as nat, 4) + " at offset 0x1FE, expected 0x55AA"@,
        ),
        BootFault::SectorSize(v) => SpecFatError::InvalidBoot(
            "bytes per sector "@ + dec_chars(v as nat) + " is not a power of two in 512..=4096"@,
        ),
        BootFault::ClusterSectors(v) => SpecFatError::InvalidBoot(
            "sectors per cluster "@ + dec_chars(v as nat) + " is not a power of two in 1..=128"@,
        ),
        BootFault::NoReserved => SpecFatError::InvalidBoot("reserved sector count is 0"@),
        BootFault::NoFats => SpecFatError::InvalidBoot("number of FATs is 0"@),
        BootFault::NoSectors => SpecFatError::InvalidBoot("total sector count is 0"@),
        BootFault::NoFatSize => SpecFatError::InvalidBoot("FAT size is 0"@),
        BootFault::Overrun { meta, total } => SpecFatError::InvalidBoot(
            "reserved, FAT and root regions ("@ + dec_chars(meta as nat) + " sectors) exceed the volume ("@
                + dec_chars(total as nat) + " sectors)"@,
        ),
        BootFault::RootCluster(c) => SpecFatError::InvalidBoot(
            "FAT32 root cluster "@ + dec_chars(c as nat) + " is below 2"@,
        ),
    }
}

/// Render a boot fault as the error it is reported as.
fn fault_to_error(f: BootFault) -> (e: FatError)
    ensures
        e@ == boot_fault_error(f),
{
    match f {
        BootFault::Signature(sig) => {
            let mut s = String::from_str("boot signature ");
            push_hex(&mut s, sig as u64, 4);
            s.append(" at offset 0x1FE, expected 0x55AA");
            FatError::NotFat(s)
        },
        BootFault::SectorSize(v) => {
            let mut s = String::from_str("bytes per sector ");
            push_dec(&mut s, v as u64);
            s.append(" is not a power of two in 512..=4096");
            FatError::InvalidBoot(s)
        },
        BootFault::ClusterSectors(v) => {
            let mut s = String::from_str("sectors per cluster ");
            push_dec(&mut s, v as u64);
            s.append(" is not a power of two in 1..=128");
            FatError::InvalidBoot(s)
        },
        BootFault::NoReserved => FatError::InvalidBoot(String::from_str("reserved sector count is 0")),
        BootFault::NoFats => FatError::InvalidBoot(String::from_str("number of FATs is 0")),
        BootFault::NoSectors => FatError::InvalidBoot(String::from_str("total sector count is 0")),
        BootFault::NoFatSize => FatError::InvalidBoot(String::from_str("FAT size is 0")),
        BootFault::Overrun { meta, total } => {
            let mut s = String::from_str("reserved, FAT and root regions (");
            push_dec(&mut s, meta);
            s.append(" sectors) exceed the volume (");
            push_dec(&mut s, total);
            s.append(" sectors)");
            FatError::InvalidBoot(s)
        },
        BootFault::RootCluster(c) => {
            let mut s = String::from_str("FAT32 root cluster ");
            push_dec(&mut s, c as u64);
            s.append(" is below 2");
            FatError::InvalidBoot(s)
        },
    }
}

} // verus!
