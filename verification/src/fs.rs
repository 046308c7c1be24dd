//! [`FatFs`], the unified reader over an in-memory volume image:
//! [`FatFs::open`] auto-detects FAT12/16/32 or exFAT, then serves uniform
//! navigation (`root`, `read_dir`, `lookup`, `meta`, `read_at`).
use vstd::prelude::*;
use crate::boot::{cluster_offset_spec, FatVariant, Geometry};
use crate::dirent::{parse_directory, parse_directory_spec, DirEntry, SpecDirEntry, ATTR_DIRECTORY};
use crate::error::{FatError, SpecFatError};
use crate::exfat::{is_exfat_name, parse_exfat_boot};
use crate::exfat_dir::{parse_exfat_dir, parse_exfat_dir_spec};
use crate::fat::{chain_spec, fat_entry, follow_chain};
use crate::text::{debug_chars, debug_string, dec_chars, push_dec};
use crate::time::{decode, decode_spec, FatTimestamp};

verus! {

/// Cap on bytes materialized for one directory (defends against a lying chain).
pub const MAX_DIR_BYTES: usize = 0x400_0000;
/// Cap on the cached FAT region (defends against an absurd FAT size).
pub const MAX_FAT_BYTES: u64 = 0x1000_0000;
/// Marker `dir_cluster` value meaning "the FAT12/16 fixed root region".
pub const FIXED_ROOT: u32 = 0xFFFF_FFFF;
/// Size of a boot sector.
pub const BOOT_SECTOR_BYTES: usize = 512;

/// A handle to a node. The root is distinct; every other node is addressed by
/// its parent directory's first cluster plus its 32-byte slot index, so the
/// entry (a deleted one included) can always be re-read from the structure.
#[derive(Debug, Clone, Copy, PartialEq, Eq, Structural)]
pub enum FileId {
    /// The volume root directory.
    Root,
    /// A directory entry: `dir_cluster` is the parent directory's first cluster
    /// (or [`FIXED_ROOT`] for the FAT12/16 fixed root), `index` the slot.
    Entry {
        /// First cluster of the parent directory (or the fixed-root marker).
        dir_cluster: u32,
        /// 32-byte slot index of the entry within its directory.
        index: u16,
    },
}

/// A resolved node: identity plus the fields a caller needs to navigate or read.
#[derive(Debug, Clone)]
pub struct Node {
    /// Stable handle to this node.
    pub id: FileId,
    /// Effective name (long name if valid, else 8.3).
    pub name: String,
    /// Raw 8.3 short name (empty on exFAT).
    pub short_name: String,
    /// Whether this is a directory.
    pub is_dir: bool,
    /// Whether this entry is deleted (`0xE5`).
    pub is_deleted: bool,
    /// Whether this is the volume-label entry.
    pub is_volume_label: bool,
    /// File size in bytes (0 for directories).
    pub size: u64,
    /// Raw attribute byte.
    pub attributes: u8,
    /// First cluster of the node's data (0 = empty).
    pub first_cluster: u32,
    /// Decoded creation timestamp (local time), if set.
    pub created: Option<FatTimestamp>,
    /// Decoded last-modified timestamp (local time), if set.
    pub modified: Option<FatTimestamp>,
    /// Decoded last-access timestamp (date only; local time), if set.
    pub accessed: Option<FatTimestamp>,
}

/// The content of a [`Node`], names as character sequences.
pub struct SpecNode {
    pub id: FileId,
    pub name: Seq<char>,
    pub short_name: Seq<char>,
    pub is_dir: bool,
    pub is_deleted: bool,
    pub is_volume_label: bool,
    pub size: u64,
    pub attributes: u8,
    pub first_cluster: u32,
    pub created: Option<FatTimestamp>,
    pub modified: Option<FatTimestamp>,
    pub accessed: Option<FatTimestamp>,
}

impl View for Node {
    type V = SpecNode;

    open spec fn view(&self) -> SpecNode {
        SpecNode {
            id: self.id,
            name: self.name@,
            short_name: self.short_name@,
            is_dir: self.is_dir,
            is_deleted: self.is_deleted,
            is_volume_label: self.is_volume_label,
            size: self.size,
            attributes: self.attributes,
            first_cluster: self.first_cluster,
            created: self.created,
            modified: self.modified,
            accessed: self.accessed,
        }
    }
}

/// Where a directory's raw bytes live.
#[derive(Clone, Copy, PartialEq, Eq, Structural)]
pub enum DirLoc {
    /// The FAT12/16 fixed root region.
    FixedRoot,
    /// A cluster chain starting at the given cluster.
    Cluster(u32),
}

/// The model of an opened volume: the image bytes, its geometry, the cached
/// first FAT, and the chain cap (cluster count + 2).
pub struct Vol {
    pub image: Seq<u8>,
    pub geom: Geometry,
    pub fat: Seq<u8>,
    pub max_clusters: nat,
}

/// The bytes a short-tolerant read of `len` bytes at `off` yields: the part of
/// `[off, off + len)` that lies inside the image.
pub open spec fn region(img: Seq<u8>, off: int, len: int) -> Seq<u8> {
    if off < 0 || off >= img.len() || len <= 0 {
        Seq::empty()
    } else if off + len <= img.len() {
        img.subrange(off, off + len)
    } else {
        img.subrange(off, img.len() as int)
    }
}

/// The bounds of an opened volume: a cluster size of 512 bytes to 32 MiB
/// and a data region starting at most `0xffff_ffff` 4 KiB sectors in, so
/// every cluster number has a 64-bit image offset.
pub open spec fn vol_bounds(v: Vol) -> bool {
    &&& 512 <= v.geom.cluster_size <= 0x200_0000
    &&& v.geom.data_start <= 0xffff_ffff * 0x1000
}

/// Every volume that opens keeps [`vol_bounds`].
pub proof fn lemma_open_bounds(img: Seq<u8>, v: Vol)
    requires
        open_spec(img) == Ok::<Vol, SpecFatError>(v),
    ensures
        vol_bounds(v),
{
    let boot = img.subrange(0, BOOT_SECTOR_BYTES as int);
    if crate::exfat::has_exfat_name(boot) {
        crate::exfat::lemma_exfat_geometry_bounds(boot);
    } else {
        crate::boot::lemma_fat_geometry_bounds(boot);
    }
}

/// An image opens exactly when it holds a whole boot sector that passes the
/// checks of its kind: exFAT when bytes 3..11 of the boot sector spell
/// `EXFAT   `, FAT12/16/32 otherwise. The volume then reads the image itself
/// with the boot sector's geometry (a FAT12/16/32 one never reported as
/// exFAT), caching as its FAT the image bytes from the first FAT's offset,
/// at most the FAT's size and at most [`MAX_FAT_BYTES`].
pub proof fn lemma_open_volume(img: Seq<u8>)
    ensures
        ({
            let boot = img.subrange(0, BOOT_SECTOR_BYTES as int);
            (open_spec(img) is Ok) == (img.len() >= BOOT_SECTOR_BYTES && if crate::exfat::has_exfat_name(
                boot,
            ) {
                crate::exfat::exfat_boot_fault(boot) is None
            } else {
                crate::boot::fat_boot_fault(boot) is None
            })
        }),
        open_spec(img) matches Ok(v) ==> {
            let boot = img.subrange(0, BOOT_SECTOR_BYTES as int);
            &&& v.image == img
            &&& crate::exfat::has_exfat_name(boot) ==> v.geom == crate::exfat::exfat_geometry(boot)
            &&& !crate::exfat::has_exfat_name(boot) ==> v.geom == crate::boot::fat_geometry(boot)
                && v.geom.variant != FatVariant::ExFat
            &&& v.fat.len() <= v.geom.fat_size_sectors * v.geom.bytes_per_sector
            &&& v.fat.len() <= MAX_FAT_BYTES
            &&& forall|i: int| 0 <= i < v.fat.len() ==> #[trigger] v.fat[i] == img[v.geom.fat_start + i]
            &&& (v.geom.fat_start + v.geom.fat_size_sectors * v.geom.bytes_per_sector <= img.len()
                && v.geom.fat_size_sectors * v.geom.bytes_per_sector <= MAX_FAT_BYTES) ==> v.fat.len()
                == v.geom.fat_size_sectors * v.geom.bytes_per_sector
        },
{
    if open_spec(img) is Ok {
        let v = open_spec(img)->Ok_0;
        let g = v.geom;
        assert(0 <= g.fat_size_sectors * g.bytes_per_sector) by (nonlinear_arith)
            requires
                0 <= g.fat_size_sectors,
                0 <= g.bytes_per_sector,
        ;
        assert(forall|i: int| 0 <= i < v.fat.len() ==> #[trigger] v.fat[i] == img[g.fat_start + i]);
    }
}

/// Length of the cached FAT: the FAT's size, capped at [`MAX_FAT_BYTES`].
pub open spec fn fat_cache_len(g: Geometry) -> int {
    let want = g.fat_size_sectors * g.bytes_per_sector;
    if want < MAX_FAT_BYTES { want } else { MAX_FAT_BYTES as int }
}

/// The model of the volume `open` builds from `image` with geometry `g`.
pub open spec fn vol_of(image: Seq<u8>, g: Geometry) -> Vol {
    Vol {
        image,
        geom: g,
        fat: region(image, g.fat_start as int, fat_cache_len(g)),
        max_clusters: if g.count_of_clusters + 2 <= usize::MAX {
            (g.count_of_clusters + 2) as nat
        } else {
            usize::MAX as nat
        },
    }
}

/// The outcome of opening the image `img`: the volume model, or the error.
pub open spec fn open_spec(img: Seq<u8>) -> Result<Vol, SpecFatError> {
    if img.len() < BOOT_SECTOR_BYTES {
        Err(SpecFatError::Io { op: "read boot sector"@, detail: "failed to fill whole buffer"@ })
    } else {
        let boot = img.subrange(0, BOOT_SECTOR_BYTES as int);
        if crate::exfat::has_exfat_name(boot) {
            match crate::exfat::exfat_boot_fault(boot) {
                Some(f) => Err(crate::exfat::exfat_fault_error(f)),
                None => Ok(vol_of(img, crate::exfat::exfat_geometry(boot))),
            }
        } else {
            match crate::boot::fat_boot_fault(boot) {
                Some(f) => Err(crate::boot::boot_fault_error(f)),
                None => Ok(vol_of(img, crate::boot::fat_geometry(boot))),
            }
        }
    }
}

/// The (capped) cluster chain from `start`; empty below cluster 2.
pub open spec fn vol_chain(v: Vol, start: u32) -> Seq<u32> {
    if start < 2 {
        Seq::empty()
    } else {
        chain_spec(v.fat, v.geom.variant, start, v.max_clusters)
    }
}

/// The type byte of 32-byte slot `j` of the bytes `r`.
pub open spec fn slot_type(r: Seq<u8>, j: int) -> u8 {
    r[32 * j]
}

/// Whether cluster `c` closes a directory read as a contiguous run: it has no
/// image offset, lies partly past the end of the image, or holds a slot whose
/// type byte is the end-of-directory marker `0x00`.
pub open spec fn cluster_ends_dir(v: Vol, c: u32) -> bool {
    match cluster_offset_spec(v.geom, c) {
        None => true,
        Some(off) => {
            let r = region(v.image, off as int, v.geom.cluster_size as int);
            r.len() < v.geom.cluster_size || exists|j: int|
                0 <= j < r.len() / 32 && #[trigger] slot_type(r, j) == 0
        },
    }
}

/// A contiguous directory run from cluster `c`: clusters `c, c + 1, ...` up
/// to and including the first that closes the directory, at most `budget`
/// clusters and none past the last cluster of the heap.
pub open spec fn contig_dir(v: Vol, c: u32, budget: nat) -> Seq<u32>
    decreases budget,
{
    if budget == 0 || c < 2 || c > v.geom.count_of_clusters + 1 {
        Seq::empty()
    } else if cluster_ends_dir(v, c) || c == 0xFFFF_FFFF {
        seq![c]
    } else {
        seq![c] + contig_dir(v, (c + 1) as u32, (budget - 1) as nat)
    }
}

/// The clusters of the directory starting at cluster `start`. An exFAT
/// directory whose first cluster has a free FAT entry is not FAT-chained
/// (`NoFatChain`): it is read as the contiguous run from `start` up to the
/// cluster holding its end-of-directory marker. Any other directory follows
/// the FAT chain.
pub open spec fn dir_chain(v: Vol, start: u32) -> Seq<u32> {
    if v.geom.variant == FatVariant::ExFat && start >= 2 && crate::fat::fat_entry_spec(
        v.fat,
        FatVariant::ExFat,
        start,
    ) == 0 {
        contig_dir(v, start, v.max_clusters)
    } else {
        vol_chain(v, start)
    }
}

/// Concatenated cluster contents along `chain`, stopping once
/// [`MAX_DIR_BYTES`] have been gathered (`sofar` counts bytes already taken);
/// a cluster partly or wholly past the end of the image contributes what lies
/// inside it.
pub open spec fn cat_clusters(v: Vol, chain: Seq<u32>, sofar: nat) -> Seq<u8>
    decreases chain.len(),
{
    if chain.len() == 0 || sofar >= MAX_DIR_BYTES {
        Seq::empty()
    } else {
        match cluster_offset_spec(v.geom, chain[0]) {
            None => Seq::empty(),
            Some(off) => {
                let r = region(v.image, off as int, v.geom.cluster_size as int);
                r + cat_clusters(v, chain.drop_first(), sofar + r.len())
            },
        }
    }
}

/// The raw bytes of the directory at `loc`: the fixed root region, or the
/// clusters of [`dir_chain`] from its first cluster.
pub open spec fn dir_bytes(v: Vol, loc: DirLoc) -> Seq<u8> {
    match loc {
        DirLoc::FixedRoot => region(v.image, v.geom.root_dir_start as int, v.geom.root_dir_bytes as int),
        DirLoc::Cluster(c) => cat_clusters(v, dir_chain(v, c), 0),
    }
}

/// The entries of raw directory bytes, decoded as the volume's variant lays
/// them out (exFAT entry sets, or FAT short entries with long names).
pub open spec fn decode_dir(v: Vol, b: Seq<u8>) -> Seq<SpecDirEntry> {
    if v.geom.variant == FatVariant::ExFat {
        parse_exfat_dir_spec(b)
    } else {
        parse_directory_spec(b)
    }
}

/// The decoded entries of the directory at `loc`.
pub open spec fn dir_entries(v: Vol, loc: DirLoc) -> Seq<SpecDirEntry> {
    decode_dir(v, dir_bytes(v, loc))
}

/// Whether the variant keeps its root directory in a cluster chain (FAT32 and
/// exFAT) rather than in a fixed region.
pub open spec fn has_root_cluster(variant: FatVariant) -> bool {
    variant == FatVariant::Fat32 || variant == FatVariant::ExFat
}

/// The location of the root directory.
pub open spec fn root_loc(v: Vol) -> DirLoc {
    if has_root_cluster(v.geom.variant) {
        DirLoc::Cluster(v.geom.root_cluster)
    } else {
        DirLoc::FixedRoot
    }
}

/// The parent marker recorded in ids of entries enumerated under `loc`.
pub open spec fn loc_marker_spec(loc: DirLoc) -> u32 {
    match loc {
        DirLoc::FixedRoot => FIXED_ROOT,
        DirLoc::Cluster(c) => c,
    }
}

/// The directory location a parent marker denotes.
pub open spec fn marker_loc(marker: u32) -> DirLoc {
    if marker == FIXED_ROOT {
        DirLoc::FixedRoot
    } else {
        DirLoc::Cluster(marker)
    }
}

/// The node of entry `e` enumerated under parent `marker`.
pub open spec fn node_spec(marker: u32, e: SpecDirEntry) -> SpecNode {
    SpecNode {
        id: FileId::Entry { dir_cluster: marker, index: e.index },
        name: e.name,
        short_name: e.short_name,
        is_dir: e.is_dir,
        is_deleted: e.deleted,
        is_volume_label: e.is_volume_label,
        size: e.size,
        attributes: e.attributes,
        first_cluster: e.first_cluster,
        created: decode_spec(e.created.0, e.created.1, e.created.2),
        modified: decode_spec(e.modified.0, e.modified.1, 0),
        accessed: decode_spec(e.accessed, 0, 0),
    }
}

/// The synthetic root node.
pub open spec fn root_node_spec() -> SpecNode {
    SpecNode {
        id: FileId::Root,
        name: Seq::empty(),
        short_name: Seq::empty(),
        is_dir: true,
        is_deleted: false,
        is_volume_label: false,
        size: 0,
        attributes: ATTR_DIRECTORY,
        first_cluster: 0,
        created: None,
        modified: None,
        accessed: None,
    }
}

/// A pure-Rust reader over an in-memory FAT12/16/32 volume image.
pub struct FatFs {
    image: Vec<u8>,
    geom: Geometry,
    fat: Vec<u8>,
    max_clusters: usize,
}

impl FatFs {
    /// Cluster size and chain cap stay within what a valid boot sector allows.
    #[verifier::type_invariant]
    spec fn inv(self) -> bool {
        &&& vol_bounds(self.vol())
        &&& self.max_clusters <= 0x1_0000_0001
    }

    /// The volume model.
    pub closed spec fn vol(&self) -> Vol {
        Vol {
            image: self.image@,
            geom: self.geom,
            fat: self.fat@,
            max_clusters: self.max_clusters as nat,
        }
    }

    /// Copy the short-tolerant region `[offset, offset + len)` of the image.
    fn read_region_vec(&self, offset: u64, len: usize) -> (r: Vec<u8>)
        ensures
            r@ == region(self.vol().image, offset as int, len as int),
    {
        let n = self.image.len();
        if offset >= n as u64 || len == 0 {
            return Vec::new();
        }
        let start = offset as usize;
        let end = if len <= n - start {
            start + len
        } else {
            n
        };
        vstd::slice::slice_to_vec(&self.image.as_slice()[start..end])
    }

    /// Open a FAT or exFAT volume image, auto-detecting the variant from the
    /// boot sector. Fails if the image is shorter than a boot sector, or if the
    /// boot sector is not a valid exFAT boot sector (when it carries the exFAT
    /// name) or FAT12/16/32 BPB (otherwise).
    pub fn open(image: Vec<u8>) -> (r: Result<FatFs, FatError>)
        ensures
            match open_spec(image@) {
                Ok(v) => r matches Ok(fs) && fs.vol() == v,
                Err(e) => r matches Err(x) && x@ == e,
            },
    {
        if image.len() < BOOT_SECTOR_BYTES {
            return Err(FatError::io("read boot sector", String::from_str("failed to fill whole buffer")));
        }
        let boot = &image.as_slice()[0..BOOT_SECTOR_BYTES];
        let parsed = if is_exfat_name(boot) {
            parse_exfat_boot(boot)
        } else {
            Geometry::parse(boot)
        };
        let geom = match parsed {
            Ok(g) => g,
            Err(e) => return Err(e),
        };
        assert(geom.fat_size_sectors as u64 * geom.bytes_per_sector as u64 <= 0xffff_ffff * 0xffff_ffff) by (nonlinear_arith);
        let fat_bytes = geom.fat_size_sectors as u64 * geom.bytes_per_sector as u64;
        let fat_len = if fat_bytes < MAX_FAT_BYTES { fat_bytes } else { MAX_FAT_BYTES };
        let max_clusters: usize = if geom.count_of_clusters as u64 + 2 <= usize::MAX as u64 {
            geom.count_of_clusters as usize + 2
        } else {
            usize::MAX
        };
        let mut fs = FatFs { image, geom, fat: Vec::new(), max_clusters };
        let fat = fs.read_region_vec(geom.fat_start, fat_len as usize);
        fs.fat = fat;
        Ok(fs)
    }

    /// The detected FAT variant.
    pub fn variant(&self) -> (r: FatVariant)
        ensures
            r == self.vol().geom.variant,
    {
        self.geom.variant
    }

    /// The resolved geometry.
    pub fn geometry(&self) -> (r: &Geometry)
        ensures
            *r == self.vol().geom,
    {
        &self.geom
    }

    /// The bounds every opened volume keeps ([`vol_bounds`]): a cluster of
    /// 512 bytes to 32 MiB and a data region starting below 2^44.
    pub fn bounds(&self)
        ensures
            vol_bounds(self.vol()),
    {
        proof {
            use_type_invariant(self);
        }
    }

    /// The cached first FAT.
    pub(crate) fn fat_bytes(&self) -> (r: &[u8])
        ensures
            r@ == self.vol().fat,
    {
        self.fat.as_slice()
    }

    /// The root directory handle.
    pub fn root(&self) -> (r: FileId)
        ensures
            r == FileId::Root,
    {
        FileId::Root
    }

    /// The (capped) cluster chain starting at `start`.
    fn chain(&self, start: u32) -> (r: Vec<u32>)
        ensures
            r@ == vol_chain(self.vol(), start),
    {
        if start < 2 {
            return Vec::new();
        }
        follow_chain(self.fat.as_slice(), self.geom.variant, start, self.max_clusters)
    }

    /// Whether cluster `c` closes a contiguous directory run.
    fn cluster_ends_dir(&self, c: u32) -> (r: bool)
        ensures
            r == cluster_ends_dir(self.vol(), c),
    {
        proof {
            use_type_invariant(self);
        }
        let ghost v = self.vol();
        let off = match self.geom.cluster_offset(c) {
            Some(o) => o,
            None => return true,
        };
        let cs = self.geom.cluster_size as u64;
        let n = self.image.len() as u64;
        assert(n == v.image.len());
        assert(cluster_offset_spec(v.geom, c) == Some(off));
        assert(cs == v.geom.cluster_size);
        if off >= n || cs > n - off {
            assert(region(v.image, off as int, cs as int).len() < cs);
            return true;
        }
        let ghost r = region(v.image, off as int, cs as int);
        assert(r.len() == cs);
        let slots = cs / 32;
        let mut j: u64 = 0;
        while j < slots
            invariant
                v == self.vol(),
                r == region(v.image, off as int, cs as int),
                r.len() == cs,
                cs == v.geom.cluster_size,
                cluster_offset_spec(v.geom, c) == Some(off),
                slots == cs / 32,
                off + cs <= n,
                n == v.image.len(),
                n <= usize::MAX,
                self.image@ == v.image,
                j <= slots,
                forall|i: int| 0 <= i < j ==> #[trigger] slot_type(r, i) != 0,
            decreases slots - j,
        {
            assert(32 * j < cs) by (nonlinear_arith)
                requires
                    j < slots,
                    slots == cs / 32,
            ;
            let b = self.image[(off + 32 * j) as usize];
            assert(b == slot_type(r, j as int));
            if b == 0 {
                proof {
                    let rr = region(v.image, off as int, v.geom.cluster_size as int);
                    assert(rr == r);
                    assert(0 <= j < rr.len() / 32 && slot_type(rr, j as int) == 0);
                    assert(exists|jj: int| 0 <= jj < rr.len() / 32 && #[trigger] slot_type(rr, jj) == 0);
                    assert(cluster_ends_dir(v, c));
                }
                return true;
            }
            j = j + 1;
        }
        assert(r.len() / 32 == slots);
        false
    }

    /// The clusters of the directory starting at `start`.
    fn dir_chain(&self, start: u32) -> (r: Vec<u32>)
        ensures
            r@ == dir_chain(self.vol(), start),
    {
        let ghost v = self.vol();
        if !(self.geom.variant == FatVariant::ExFat && start >= 2 && fat_entry(self.fat.as_slice(), FatVariant::ExFat, start) == 0) {
            return self.chain(start);
        }
        let mut out: Vec<u32> = Vec::new();
        let mut c = start;
        let mut budget = self.max_clusters;
        let mut done = false;
        assert(out@ + contig_dir(v, c, budget as nat) =~= contig_dir(v, start, v.max_clusters));
        while !done
            invariant
                v == self.vol(),
                out@ + (if done { Seq::<u32>::empty() } else { contig_dir(v, c, budget as nat) }) == contig_dir(
                    v,
                    start,
                    v.max_clusters,
                ),
            decreases budget, if done { 0int } else { 1int },
        {
            if budget == 0 || c < 2 || c as u64 > self.geom.count_of_clusters as u64 + 1 {
                assert(out@ + Seq::<u32>::empty() =~= out@);
                done = true;
            } else if self.cluster_ends_dir(c) || c == 0xFFFF_FFFF {
                let ghost before = out@;
                out.push(c);
                assert(before + seq![c] =~= out@ + Seq::<u32>::empty());
                done = true;
            } else {
                let ghost before = out@;
                out.push(c);
                assert(before + (seq![c] + contig_dir(v, (c + 1) as u32, (budget - 1) as nat)) =~= out@
                    + contig_dir(v, (c + 1) as u32, (budget - 1) as nat));
                c = c + 1;
                budget = budget - 1;
            }
        }
        out
    }

    /// Read the raw bytes of a directory.
    fn read_dir_bytes(&self, loc: DirLoc) -> (r: Vec<u8>)
        ensures
            r@ == dir_bytes(self.vol(), loc),
    {
        match loc {
            DirLoc::FixedRoot => self.read_region_vec(self.geom.root_dir_start, self.geom.root_dir_bytes as usize),
            DirLoc::Cluster(c) => {
                let chain = self.dir_chain(c);
                let cluster_size = self.geom.cluster_size as usize;
                let ghost v = self.vol();
                let mut out: Vec<u8> = Vec::new();
                let mut i: usize = 0;
                assert(chain@.skip(0) =~= chain@);
                assert(out@ + cat_clusters(v, chain@, 0) =~= cat_clusters(v, chain@, 0));
                while i < chain.len()
                    invariant_except_break
                        out@ + cat_clusters(v, chain@.skip(i as int), out@.len()) == cat_clusters(v, chain@, 0),
                    invariant
                        v == self.vol(),
                        i <= chain@.len(),
                        cluster_size == self.vol().geom.cluster_size,
                    ensures
                        out@ == cat_clusters(v, chain@, 0),
                    decreases chain@.len() - i,
                {
                    let ghost rest = chain@.skip(i as int);
                    if out.len() >= MAX_DIR_BYTES {
                        assert(out@ + Seq::<u8>::empty() =~= out@);
                        break;
                    }
                    let base = match self.geom.cluster_offset(chain[i]) {
                        Some(b) => b,
                        None => {
                            assert(out@ + Seq::<u8>::empty() =~= out@);
                            break;
                        },
                    };
                    let mut piece = self.read_region_vec(base, cluster_size);
                    let ghost before = out@;
                    let ghost pv = piece@;
                    assert(rest[0] == chain@[i as int]);
                    assert(cat_clusters(v, rest, before.len()) == pv + cat_clusters(v, rest.drop_first(), (before.len() + pv.len()) as nat));
                    out.append(&mut piece);
                    i = i + 1;
                    proof {
                        assert(rest.drop_first() =~= chain@.skip(i as int));
                        assert(before + (pv + cat_clusters(v, chain@.skip(i as int), out@.len())) =~= out@ + cat_clusters(v, chain@.skip(i as int), out@.len()));
                    }
                }
                proof {
                    if i == chain@.len() {
                        assert(chain@.skip(i as int) =~= Seq::<u32>::empty());
                        assert(out@ + Seq::<u8>::empty() =~= out@);
                    }
                }
                out
            },
        }
    }
}


/// Position of the first entry with slot index `index`.
pub open spec fn find_slot(es: Seq<SpecDirEntry>, index: u16) -> Option<int>
    decreases es.len(),
{
    if es.len() == 0 {
        None
    } else if es[0].index == index {
        Some(0)
    } else {
        match find_slot(es.drop_first(), index) {
            Some(j) => Some(j + 1),
            None => None,
        }
    }
}

proof fn lemma_find_slot(es: Seq<SpecDirEntry>, index: u16, j: int)
    requires
        0 <= j <= es.len(),
        forall|k: int| 0 <= k < j ==> es[k].index != index,
        j < es.len() ==> es[j].index == index,
    ensures
        find_slot(es, index) == (if j < es.len() { Some(j) } else { None::<int> }),
    decreases es.len(),
{
    if es.len() > 0 && es[0].index != index {
        assert forall|k: int| 0 <= k < j - 1 implies es.drop_first()[k].index != index by {
            assert(es.drop_first()[k] == es[k + 1]);
        }
        if j < es.len() {
            assert(es.drop_first()[j - 1] == es[j]);
        }
        lemma_find_slot(es.drop_first(), index, j - 1);
    }
}

/// The error for a slot index that names no entry.
pub open spec fn no_entry_error(index: u16) -> SpecFatError {
    SpecFatError::Corrupt("no directory entry at slot "@ + dec_chars(index as nat))
}

/// The error for navigating into a node that is not a directory, given the
/// `{:?}` rendering of its name.
pub open spec fn not_a_directory_spec(debug_name: Seq<char>) -> SpecFatError {
    SpecFatError::Corrupt(debug_name + " is not a directory"@)
}

/// Re-read the directory entry at slot `index` of the directory marked
/// `dir_cluster`.
pub open spec fn entry_at_spec(v: Vol, dir_cluster: u32, index: u16) -> Result<SpecDirEntry, SpecFatError> {
    let es = dir_entries(v, marker_loc(dir_cluster));
    match find_slot(es, index) {
        Some(j) => Ok(es[j]),
        None => Err(no_entry_error(index)),
    }
}

/// Re-read the node at slot `index` of the directory marked `dir_cluster`.
pub open spec fn resolve_spec(v: Vol, dir_cluster: u32, index: u16) -> Result<SpecNode, SpecFatError> {
    match entry_at_spec(v, dir_cluster, index) {
        Ok(e) => Ok(node_spec(dir_cluster, e)),
        Err(x) => Err(x),
    }
}

/// The directory location that `id` is, for enumerating it.
pub open spec fn own_loc_spec(v: Vol, id: FileId) -> Result<DirLoc, SpecFatError> {
    match id {
        FileId::Root => Ok(root_loc(v)),
        FileId::Entry { dir_cluster, index } => match resolve_spec(v, dir_cluster, index) {
            Err(e) => Err(e),
            Ok(n) => if n.is_dir {
                Ok(DirLoc::Cluster(n.first_cluster))
            } else {
                Err(not_a_directory_spec(debug_chars(n.name)))
            },
        },
    }
}

/// The nodes listed for directory `id` (allocated and deleted).
pub open spec fn read_dir_spec(v: Vol, id: FileId) -> Result<Seq<SpecNode>, SpecFatError> {
    match own_loc_spec(v, id) {
        Err(e) => Err(e),
        Ok(loc) => Ok(
            dir_entries(v, loc).map_values(|e: SpecDirEntry| node_spec(loc_marker_spec(loc), e)),
        ),
    }
}

/// Whether node `n` answers a lookup of the UTF-8 name `name`.
pub open spec fn lookup_hit(n: SpecNode, name: Seq<u8>) -> bool {
    !n.is_deleted && !n.is_volume_label && vstd::utf8::encode_utf8(n.name) == name
}

/// The id of the first node answering a lookup of `name`.
pub open spec fn first_hit(ns: Seq<SpecNode>, name: Seq<u8>) -> Option<FileId>
    decreases ns.len(),
{
    if ns.len() == 0 {
        None
    } else if lookup_hit(ns[0], name) {
        Some(ns[0].id)
    } else {
        first_hit(ns.drop_first(), name)
    }
}

/// Resolving a child of `dir` by name.
pub open spec fn lookup_spec(v: Vol, dir: FileId, name: Seq<u8>) -> Result<Option<FileId>, SpecFatError> {
    match read_dir_spec(v, dir) {
        Err(e) => Err(e),
        Ok(ns) => Ok(first_hit(ns, name)),
    }
}

/// The metadata of `id`.
pub open spec fn meta_spec(v: Vol, id: FileId) -> Result<SpecNode, SpecFatError> {
    match id {
        FileId::Root => Ok(root_node_spec()),
        FileId::Entry { dir_cluster, index } => resolve_spec(v, dir_cluster, index),
    }
}

/// The `Node` of entry `e` under parent `marker`.
fn node_from(marker: u32, e: &DirEntry) -> (r: Node)
    ensures
        r@ == node_spec(marker, e@),
{
    Node {
        id: FileId::Entry { dir_cluster: marker, index: e.index },
        name: e.name.clone(),
        short_name: e.short_name.clone(),
        is_dir: e.is_dir,
        is_deleted: e.deleted,
        is_volume_label: e.is_volume_label,
        size: e.size,
        attributes: e.attributes,
        first_cluster: e.first_cluster,
        created: decode(e.created.0, e.created.1, e.created.2),
        modified: decode(e.modified.0, e.modified.1, 0),
        accessed: decode(e.accessed, 0, 0),
    }
}

/// The synthetic root node.
fn root_node() -> (r: Node)
    ensures
        r@ == root_node_spec(),
{
    Node {
        id: FileId::Root,
        name: String::new(),
        short_name: String::new(),
        is_dir: true,
        is_deleted: false,
        is_volume_label: false,
        size: 0,
        attributes: ATTR_DIRECTORY,
        first_cluster: 0,
        created: None,
        modified: None,
        accessed: None,
    }
}

/// The marker `dir_cluster` for children enumerated under `loc`.
fn loc_marker(loc: DirLoc) -> (r: u32)
    ensures
        r == loc_marker_spec(loc),
{
    match loc {
        DirLoc::FixedRoot => FIXED_ROOT,
        DirLoc::Cluster(c) => c,
    }
}

/// The error for navigating into a node that is not a directory, given the
/// `{:?}` rendering of its name.
pub fn not_a_directory(debug_name: String) -> (r: FatError)
    ensures
        r@ == not_a_directory_spec(debug_name@),
{
    let mut s = debug_name;
    s.append(" is not a directory");
    FatError::Corrupt(s)
}

/// The error for a slot index that names no entry.
fn no_entry(index: u16) -> (r: FatError)
    ensures
        r@ == no_entry_error(index),
{
    let mut s = String::from_str("no directory entry at slot ");
    push_dec(&mut s, index as u64);
    FatError::Corrupt(s)
}

/// Whether two byte slices are equal.
fn bytes_eq(a: &[u8], b: &[u8]) -> (r: bool)
    ensures
        r == (a@ == b@),
{
    if a.len() != b.len() {
        return false;
    }
    let mut i: usize = 0;
    while i < a.len()
        invariant
            a@.len() == b@.len(),
            i <= a@.len(),
            forall|k: int| 0 <= k < i ==> a@[k] == b@[k],
        decreases a@.len() - i,
    {
        if a[i] != b[i] {
            return false;
        }
        i = i + 1;
    }
    assert(a@ =~= b@);
    true
}

impl FatFs {
    /// Decode raw directory bytes as the volume's variant lays them out.
    fn decode_dir(&self, bytes: &[u8]) -> (r: Vec<DirEntry>)
        ensures
            r@.map_values(|e: DirEntry| e@) == decode_dir(self.vol(), bytes@),
    {
        if self.geom.variant == FatVariant::ExFat {
            parse_exfat_dir(bytes)
        } else {
            parse_directory(bytes)
        }
    }

    /// Re-read the node at slot `index` of the directory marked `dir_cluster`.
    fn resolve_entry(&self, dir_cluster: u32, index: u16) -> (r: Result<Node, FatError>)
        ensures
            match resolve_spec(self.vol(), dir_cluster, index) {
                Ok(n) => r matches Ok(x) && x@ == n,
                Err(e) => r matches Err(x) && x@ == e,
            },
    {
        match self.entry_at(dir_cluster, index) {
            Ok(e) => Ok(node_from(dir_cluster, &e)),
            Err(x) => Err(x),
        }
    }

    /// Re-read the directory entry at slot `index` of the directory marked
    /// `dir_cluster`.
    fn entry_at(&self, dir_cluster: u32, index: u16) -> (r: Result<DirEntry, FatError>)
        ensures
            match entry_at_spec(self.vol(), dir_cluster, index) {
                Ok(e) => r matches Ok(x) && x@ == e,
                Err(e) => r matches Err(x) && x@ == e,
            },
    {
        let loc = if dir_cluster == FIXED_ROOT {
            DirLoc::FixedRoot
        } else {
            DirLoc::Cluster(dir_cluster)
        };
        let bytes = self.read_dir_bytes(loc);
        let mut entries = self.decode_dir(bytes.as_slice());
        let ghost es = entries@.map_values(|e: DirEntry| e@);
        assert(es == dir_entries(self.vol(), marker_loc(dir_cluster)));
        let mut j: usize = 0;
        while j < entries.len()
            invariant
                es == entries@.map_values(|e: DirEntry| e@),
                es == dir_entries(self.vol(), marker_loc(dir_cluster)),
                j <= entries@.len(),
                forall|k: int| 0 <= k < j ==> es[k].index != index,
            decreases entries@.len() - j,
        {
            if entries[j].index == index {
                proof {
                    lemma_find_slot(es, index, j as int);
                    assert(es[j as int] == entries@[j as int]@);
                }
                return Ok(entries.remove(j));
            }
            j = j + 1;
        }
        proof {
            lemma_find_slot(es, index, j as int);
        }
        Err(no_entry(index))
    }

    /// The location of the directory that `id` is (for enumerating it).
    fn own_dirloc(&self, id: FileId) -> (r: Result<DirLoc, FatError>)
        ensures
            match own_loc_spec(self.vol(), id) {
                Ok(l) => r == Ok::<DirLoc, FatError>(l),
                Err(e) => r matches Err(x) && x@ == e,
            },
    {
        match id {
            FileId::Root => Ok(
                if self.geom.variant == FatVariant::Fat32 || self.geom.variant == FatVariant::ExFat {
                    DirLoc::Cluster(self.geom.root_cluster)
                } else {
                    DirLoc::FixedRoot
                },
            ),
            FileId::Entry { dir_cluster, index } => {
                let node = match self.resolve_entry(dir_cluster, index) {
                    Ok(n) => n,
                    Err(e) => return Err(e),
                };
                if !node.is_dir {
                    return Err(not_a_directory(debug_string(node.name.as_str())));
                }
                Ok(DirLoc::Cluster(node.first_cluster))
            },
        }
    }

    /// List the entries of the directory `id` (allocated and deleted).
    pub fn read_dir(&self, id: FileId) -> (r: Result<Vec<Node>, FatError>)
        ensures
            match read_dir_spec(self.vol(), id) {
                Ok(ns) => r matches Ok(x) && x@.map_values(|n: Node| n@) == ns,
                Err(e) => r matches Err(x) && x@ == e,
            },
    {
        let loc = match self.own_dirloc(id) {
            Ok(l) => l,
            Err(e) => return Err(e),
        };
        let marker = loc_marker(loc);
        let bytes = self.read_dir_bytes(loc);
        let entries = self.decode_dir(bytes.as_slice());
        let ghost es = entries@.map_values(|e: DirEntry| e@);
        let mut out: Vec<Node> = Vec::new();
        let mut j: usize = 0;
        while j < entries.len()
            invariant
                es == entries@.map_values(|e: DirEntry| e@),
                j <= entries@.len(),
                out@.len() == j,
                forall|k: int| 0 <= k < j ==> (#[trigger] out@[k])@ == node_spec(marker, es[k]),
            decreases entries@.len() - j,
        {
            out.push(node_from(marker, &entries[j]));
            j = j + 1;
        }
        proof {
            assert(out@.map_values(|n: Node| n@) =~= es.map_values(|e: SpecDirEntry| node_spec(loc_marker_spec(loc), e)));
        }
        Ok(out)
    }

    /// Resolve a single child of `dir` by name (allocated entries only; the
    /// name is compared as UTF-8 bytes).
    pub fn lookup(&self, dir: FileId, name: &[u8]) -> (r: Result<Option<FileId>, FatError>)
        ensures
            match lookup_spec(self.vol(), dir, name@) {
                Ok(o) => r == Ok::<Option<FileId>, FatError>(o),
                Err(e) => r matches Err(x) && x@ == e,
            },
    {
        let nodes = match self.read_dir(dir) {
            Ok(ns) => ns,
            Err(e) => return Err(e),
        };
        let ghost ns = nodes@.map_values(|n: Node| n@);
        let mut j: usize = 0;
        assert(ns.skip(0) =~= ns);
        while j < nodes.len()
            invariant
                ns == nodes@.map_values(|n: Node| n@),
                read_dir_spec(self.vol(), dir) == Ok::<Seq<SpecNode>, SpecFatError>(ns),
                j <= nodes@.len(),
                first_hit(ns, name@) == first_hit(ns.skip(j as int), name@),
            decreases nodes@.len() - j,
        {
            let node = &nodes[j];
            let ghost rest = ns.skip(j as int);
            assert(rest[0] == node@);
            let nm = node.name.as_str();
            let nb = nm.as_bytes();
            assert(nb@ == vstd::utf8::encode_utf8(node.name@));
            if !node.is_deleted && !node.is_volume_label && bytes_eq(nb, name) {
                assert(lookup_hit(rest[0], name@));
                assert(first_hit(rest, name@) == Some(rest[0].id));
                return Ok(Some(node.id));
            }
            assert(rest.drop_first() =~= ns.skip(j + 1));
            j = j + 1;
        }
        assert(ns.skip(j as int) =~= Seq::<SpecNode>::empty());
        Ok(None)
    }

    /// Resolve metadata for `id`.
    pub fn meta(&self, id: FileId) -> (r: Result<Node, FatError>)
        ensures
            match meta_spec(self.vol(), id) {
                Ok(n) => r matches Ok(x) && x@ == n,
                Err(e) => r matches Err(x) && x@ == e,
            },
    {
        match id {
            FileId::Root => Ok(root_node()),
            FileId::Entry { dir_cluster, index } => self.resolve_entry(dir_cluster, index),
        }
    }
}


/// Clusters needed to hold `size` bytes, capped at the chain cap and at the
/// clusters numbered from `first` up to `u32::MAX`.
pub open spec fn contig_len(v: Vol, first: u32, size: u64) -> nat {
    let cs = v.geom.cluster_size as int;
    let want = size as int / cs + if size as int % cs > 0 { 1int } else { 0int };
    let room = 0x1_0000_0000 - first;
    let a = if want < v.max_clusters { want } else { v.max_clusters as int };
    (if a < room { a } else { room }) as nat
}

/// The clusters of a contiguous (exFAT `NoFatChain`) file of `size` bytes
/// starting at `first`; empty below cluster 2.
pub open spec fn contig_chain(v: Vol, first: u32, size: u64) -> Seq<u32> {
    if first < 2 {
        Seq::empty()
    } else {
        Seq::new(contig_len(v, first, size), |k: int| (first + k) as u32)
    }
}

/// The cluster chain and byte length backing `id`'s data: the root's fixed
/// region (no chain) or its chain; a directory's whole chain; a file's chain
/// (or, for a contiguous exFAT file, its run of clusters) with its recorded
/// size.
pub open spec fn data_extent_spec(v: Vol, id: FileId) -> Result<(Seq<u32>, u64), SpecFatError> {
    match id {
        FileId::Root => match root_loc(v) {
            DirLoc::FixedRoot => Ok((Seq::empty(), v.geom.root_dir_bytes as u64)),
            DirLoc::Cluster(c) => Ok(
                (dir_chain(v, c), (dir_chain(v, c).len() * v.geom.cluster_size) as u64),
            ),
        },
        FileId::Entry { dir_cluster, index } => match entry_at_spec(v, dir_cluster, index) {
            Err(x) => Err(x),
            Ok(e) => {
                let ch = vol_chain(v, e.first_cluster);
                if e.is_dir {
                    let dc = dir_chain(v, e.first_cluster);
                    Ok((dc, (dc.len() * v.geom.cluster_size) as u64))
                } else if e.no_fat_chain {
                    Ok((contig_chain(v, e.first_cluster, e.size), e.size))
                } else {
                    Ok((ch, e.size))
                }
            },
        },
    }
}

/// Whether byte `k` of a node's data (chain `chain`, length `total`) can be
/// read: it lies below `total`, its cluster is in the chain, and its image
/// offset lies inside the image.
pub open spec fn data_avail(v: Vol, chain: Seq<u32>, total: u64, k: int) -> bool {
    let cs = v.geom.cluster_size as int;
    &&& 0 <= k < total
    &&& k / cs < chain.len()
    &&& match cluster_offset_spec(v.geom, chain[k / cs]) {
        Some(o) => o + k % cs < v.image.len(),
        None => false,
    }
}

/// Byte `i` of `buf` holds readable data byte `off + i`.
pub open spec fn read_ok(v: Vol, chain: Seq<u32>, total: u64, off: u64, buf: Seq<u8>, i: int) -> bool {
    data_avail(v, chain, total, off + i) && buf[i] == data_byte(v, chain, off + i)
}

/// Byte `k` of a node's data (meaningful where [`data_avail`] holds).
pub open spec fn data_byte(v: Vol, chain: Seq<u32>, k: int) -> u8 {
    let cs = v.geom.cluster_size as int;
    v.image[cluster_offset_spec(v.geom, chain[k / cs])->0 + k % cs]
}

/// What `read_at(id, off, buf)` yields for a buffer of `old_buf` given the
/// extent `(chain, total)`: `n` bytes, each readable and equal to the data at
/// `off + i`, stopping at the buffer's end or the first unreadable byte, the
/// rest of the buffer unchanged.
pub open spec fn read_result(
    v: Vol,
    chain: Seq<u32>,
    total: u64,
    off: u64,
    old_buf: Seq<u8>,
    new_buf: Seq<u8>,
    n: usize,
) -> bool {
    &&& new_buf.len() == old_buf.len()
    &&& n <= old_buf.len()
    &&& forall|i: int| 0 <= i < n ==> #[trigger] read_ok(v, chain, total, off, new_buf, i)
    &&& n < old_buf.len() ==> !data_avail(v, chain, total, off + n)
    &&& forall|i: int| n <= i < old_buf.len() ==> #[trigger] new_buf[i] == old_buf[i]
}

/// Whether `id` is the FAT12/16 root, whose data is the fixed root region
/// rather than a cluster chain.
pub open spec fn reads_fixed_root(v: Vol, id: FileId) -> bool {
    id == FileId::Root && !has_root_cluster(v.geom.variant)
}

/// Whether byte `k` of the fixed root region (`total` bytes long) can be read:
/// it lies below `total` and inside the image.
pub open spec fn root_avail(v: Vol, total: u64, k: int) -> bool {
    0 <= k < total && v.geom.root_dir_start + k < v.image.len()
}

/// What `read_at` on the fixed root yields for a buffer of `old_buf`: `n`
/// bytes of the region from `off` on, stopping at the buffer's end, the
/// region's end or the image's end, the rest of the buffer unchanged.
pub open spec fn root_read_result(
    v: Vol,
    total: u64,
    off: u64,
    old_buf: Seq<u8>,
    new_buf: Seq<u8>,
    n: usize,
) -> bool {
    &&& new_buf.len() == old_buf.len()
    &&& n <= old_buf.len()
    &&& forall|i: int|
        0 <= i < n ==> root_avail(v, total, off + i) && #[trigger] new_buf[i] == v.image[v.geom.root_dir_start
            + off + i]
    &&& n < old_buf.len() ==> !root_avail(v, total, off + n)
    &&& forall|i: int| n <= i < old_buf.len() ==> #[trigger] new_buf[i] == old_buf[i]
}

/// Total length of a run list.
pub open spec fn runs_len(rs: Seq<(u64, u64)>) -> int
    decreases rs.len(),
{
    if rs.len() == 0 {
        0
    } else {
        runs_len(rs.drop_last()) + rs.last().1
    }
}

/// Fold the clusters of `chain` into image byte runs, merging a cluster that
/// starts where the previous run ends; `remaining` bytes are still to cover.
pub open spec fn runs_fold(v: Vol, chain: Seq<u32>, remaining: u64, acc: Seq<(u64, u64)>) -> Seq<(u64, u64)>
    decreases chain.len(),
{
    if chain.len() == 0 || remaining == 0 {
        acc
    } else {
        match cluster_offset_spec(v.geom, chain[0]) {
            None => acc,
            Some(off) => {
                let len: u64 = if (v.geom.cluster_size as u64) < remaining {
                    v.geom.cluster_size as u64
                } else {
                    remaining
                };
                let acc2 = if acc.len() > 0 && acc.last().0 + acc.last().1 == off {
                    acc.update(acc.len() - 1, (acc.last().0, (acc.last().1 + len) as u64))
                } else {
                    acc.push((off, len))
                };
                runs_fold(v, chain.drop_first(), (remaining - len) as u64, acc2)
            },
        }
    }
}

/// The contiguous image byte runs backing `id`'s data.
pub open spec fn runs_spec(v: Vol, id: FileId) -> Result<Seq<(u64, u64)>, SpecFatError> {
    match data_extent_spec(v, id) {
        Err(e) => Err(e),
        Ok((ch, total)) => if ch.len() == 0 {
            Ok(if total == 0 { Seq::empty() } else { seq![(v.geom.root_dir_start, total)] })
        } else {
            Ok(runs_fold(v, ch, total, Seq::empty()))
        },
    }
}

impl FatFs {
    /// The clusters of a contiguous file of `size` bytes from `first`.
    fn contig_chain(&self, first: u32, size: u64) -> (r: Vec<u32>)
        ensures
            r@ == contig_chain(self.vol(), first, size),
    {
        proof {
            use_type_invariant(self);
        }
        if first < 2 {
            return Vec::new();
        }
        let cs = self.geom.cluster_size as u64;
        assert(size / cs <= size / 2) by (nonlinear_arith)
            requires
                cs >= 2,
        {
            vstd::arithmetic::div_mod::lemma_div_is_ordered_by_denominator(size as int, 2, cs as int);
        }
        let want: u64 = size / cs + if size % cs > 0 {
            1
        } else {
            0
        };
        let room: u64 = 0x1_0000_0000 - first as u64;
        let cap = self.max_clusters as u64;
        let a = if want < cap {
            want
        } else {
            cap
        };
        let n = if a < room {
            a
        } else {
            room
        };
        let ghost v = self.vol();
        assert(n as nat == contig_len(v, first, size));
        let mut out: Vec<u32> = Vec::new();
        let mut k: u64 = 0;
        while k < n
            invariant
                k <= n,
                n <= room,
                room == 0x1_0000_0000 - first as u64,
                out@.len() == k,
                forall|m: int| 0 <= m < k ==> out@[m] == (first + m) as u32,
            decreases n - k,
        {
            out.push((first as u64 + k) as u32);
            k = k + 1;
        }
        assert(out@ =~= contig_chain(v, first, size));
        out
    }

    /// The cluster chain and total byte length backing `id`'s data.
    fn data_extent(&self, id: FileId) -> (r: Result<(Vec<u32>, u64), FatError>)
        ensures
            match data_extent_spec(self.vol(), id) {
                Ok((ch, total)) => r matches Ok((c, t)) && c@ == ch && t == total,
                Err(e) => r matches Err(x) && x@ == e,
            },
    {
        proof {
            use_type_invariant(self);
        }
        match id {
            FileId::Root => {
                if self.geom.variant == FatVariant::Fat32 || self.geom.variant == FatVariant::ExFat {
                    let chain = self.dir_chain(self.geom.root_cluster);
                    proof {
                        lemma_dir_chain_len(self.vol(), self.geom.root_cluster);
                        lemma_len_times_cluster(chain@.len(), self.geom.cluster_size as int);
                    }
                    let total = chain.len() as u64 * self.geom.cluster_size as u64;
                    Ok((chain, total))
                } else {
                    Ok((Vec::new(), self.geom.root_dir_bytes as u64))
                }
            },
            FileId::Entry { dir_cluster, index } => {
                let e = match self.entry_at(dir_cluster, index) {
                    Ok(e) => e,
                    Err(x) => return Err(x),
                };
                if e.is_dir {
                    let chain = self.dir_chain(e.first_cluster);
                    proof {
                        lemma_dir_chain_len(self.vol(), e.first_cluster);
                        lemma_len_times_cluster(chain@.len(), self.geom.cluster_size as int);
                    }
                    let total = chain.len() as u64 * self.geom.cluster_size as u64;
                    Ok((chain, total))
                } else if e.no_fat_chain {
                    Ok((self.contig_chain(e.first_cluster, e.size), e.size))
                } else {
                    Ok((self.chain(e.first_cluster), e.size))
                }
            },
        }
    }

    /// Copy bytes of the fixed root region (`total` bytes) from `off` into
    /// `buf`, up to the buffer's, the region's or the image's end.
    fn read_root_region(&self, total: u64, off: u64, buf: &mut [u8]) -> (n: usize)
        requires
            off < total,
        ensures
            root_read_result(self.vol(), total, off, old(buf)@, final(buf)@, n),
    {
        let ghost v = self.vol();
        let start = self.geom.root_dir_start;
        let n_img = self.image.len() as u64;
        let blen = buf.len();
        // Bytes readable from `off`: bounded by the buffer, the region and the image.
        let region_left = total - off;
        let image_left: u64 = if start >= n_img || off >= n_img - start {
            0
        } else {
            n_img - start - off
        };
        let mut n: usize = blen;
        if region_left < n as u64 {
            n = region_left as usize;
        }
        if image_left < n as u64 {
            n = image_left as usize;
        }
        let mut i: usize = 0;
        while i < n
            invariant
                v == self.vol(),
                start == v.geom.root_dir_start,
                n_img == v.image.len(),
                n_img <= usize::MAX,
                self.image@ == v.image,
                blen == old(buf)@.len() == buf@.len(),
                i <= n <= blen,
                n <= total - off,
                off + n <= n_img - start || n == 0,
                forall|j: int|
                    0 <= j < i ==> root_avail(v, total, off + j) && #[trigger] buf@[j] == v.image[start + off + j],
                forall|j: int| i <= j < blen ==> #[trigger] buf@[j] == old(buf)@[j],
            decreases n - i,
        {
            let ghost prev = buf@;
            let idx = start + off + i as u64;
            assert(idx < n_img);
            let ui = idx as usize;
            assert(ui as int == idx as int);
            assert(self.image@ == v.image);
            let byte = self.image[ui];
            assert(byte == v.image[start + off + i]);
            buf[i] = byte;
            proof {
                assert(buf@[i as int] == byte);
                assert(root_avail(v, total, off + i));
                assert forall|j: int| 0 <= j < i + 1 implies root_avail(v, total, off + j)
                    && #[trigger] buf@[j] == v.image[start + off + j] by {
                    if j < i {
                        assert(buf@[j] == prev[j]);
                    }
                }
            }
            i = i + 1;
        }
        i
    }

    /// Read up to `buf.len()` bytes at byte offset `off` within node `id`.
    /// Returns the number of bytes read: 0 at or past the end of the data, and
    /// fewer than asked where the chain or the image ends early.
    pub fn read_at(&self, id: FileId, off: u64, buf: &mut [u8]) -> (r: Result<usize, FatError>)
        ensures
            match data_extent_spec(self.vol(), id) {
                Ok((ch, total)) => r matches Ok(n) && if reads_fixed_root(self.vol(), id) {
                    root_read_result(self.vol(), total, off, old(buf)@, final(buf)@, n)
                } else {
                    read_result(self.vol(), ch, total, off, old(buf)@, final(buf)@, n)
                },
                Err(e) => r matches Err(x) && x@ == e && final(buf)@ == old(buf)@,
            },
    {
        proof {
            use_type_invariant(self);
        }
        let (chain, total) = match self.data_extent(id) {
            Ok(x) => x,
            Err(e) => return Err(e),
        };
        let ghost v = self.vol();
        let cs = self.geom.cluster_size as u64;
        let blen = buf.len();
        let n_img = self.image.len();
        if off >= total {
            assert(final(buf)@ =~= old(buf)@);
            return Ok(0);
        }
        if id == FileId::Root && !(self.geom.variant == FatVariant::Fat32 || self.geom.variant == FatVariant::ExFat) {
            return Ok(self.read_root_region(total, off, buf));
        }
        let end: u64 = if blen as u64 <= total - off {
            off + blen as u64
        } else {
            total
        };
        let mut pos = off;
        let mut written: usize = 0;
        let mut done = false;
        while !done && pos < end
            invariant
                v == self.vol(),
                cs == v.geom.cluster_size,
                512 <= cs <= 0x200_0000,
                n_img == v.image.len(),
                blen == old(buf)@.len() == buf@.len(),
                off <= pos <= end <= total,
                end - off <= blen,
                end == total || end - off == blen,
                pos == off + written,
                forall|i: int| 0 <= i < written ==> #[trigger] read_ok(v, chain@, total, off, buf@, i),
                forall|i: int| written <= i < blen ==> #[trigger] buf@[i] == old(buf)@[i],
                done ==> !data_avail(v, chain@, total, off + written),
            decreases end - pos + (if done { 0int } else { 1int }),
        {
            let ci = pos / cs;
            if ci >= chain.len() as u64 {
                done = true;
            } else {
                let cluster = chain[ci as usize];
                match self.geom.cluster_offset(cluster) {
                    None => {
                        done = true;
                    },
                    Some(base) => {
                        let intra = pos % cs;
                        if base >= n_img as u64 || intra >= n_img as u64 - base {
                            done = true;
                        } else {
                            let room = cs - intra;
                            let want = if end - pos < room {
                                end - pos
                            } else {
                                room
                            };
                            let have = n_img as u64 - base - intra;
                            let got = if want < have {
                                want
                            } else {
                                have
                            };
                            let src = (base + intra) as usize;
                            let mut t: u64 = 0;
                            while t < got
                                invariant
                                    v == self.vol(),
                                    cs == v.geom.cluster_size,
                                    512 <= cs <= 0x200_0000,
                                    n_img == v.image.len(),
                                    blen == old(buf)@.len() == buf@.len(),
                                    t <= got <= want,
                                    want <= end - pos,
                                    got <= have,
                                    have == n_img - base - intra,
                                    src == base + intra,
                                    want <= room,
                                    room == cs - intra,
                                    intra == pos % cs,
                                    ci == pos / cs,
                                    ci < chain@.len(),
                                    cluster == chain@[ci as int],
                                    cluster_offset_spec(v.geom, cluster) == Some(base),
                                    off <= pos <= end <= total,
                                    end - off <= blen,
                                    pos == off + written,
                                    forall|i: int|
                                        0 <= i < written + t ==> #[trigger] read_ok(v, chain@, total, off, buf@, i),
                                    forall|i: int|
                                        written + t <= i < blen ==> #[trigger] buf@[i] == old(buf)@[i],
                                decreases got - t,
                            {
                                proof {
                                    lemma_same_cluster(pos as int, t as int, cs as int);
                                    assert(data_avail(v, chain@, total, off + written + t));
                                    assert(data_byte(v, chain@, off + written + t) == v.image[src + t]);
                                }
                                let ghost prev = buf@;
                                buf[written + t as usize] = self.image[src + t as usize];
                                proof {
                                    assert forall|i: int| 0 <= i < written + t + 1 implies #[trigger] read_ok(v, chain@, total, off, buf@, i) by {
                                        if i < written + t {
                                            assert(read_ok(v, chain@, total, off, prev, i));
                                        }
                                    }
                                }
                                t = t + 1;
                            }
                            written = written + got as usize;
                            pos = pos + got;
                        }
                    },
                }
            }
        }
        proof {
            if !done {
                assert(pos == end);
            }
        }
        Ok(written)
    }
}

proof fn lemma_len_times_cluster(n: nat, cs: int)
    requires
        n <= 0x1_0000_0001,
        0 <= cs <= 0x200_0000,
    ensures
        n * cs <= 0x1_0000_0001 * 0x200_0000,
{
    assert(n * cs <= 0x1_0000_0001 * 0x200_0000) by (nonlinear_arith)
        requires
            n <= 0x1_0000_0001,
            0 <= cs <= 0x200_0000,
    ;
}

proof fn lemma_runs_len_nonneg(rs: Seq<(u64, u64)>)
    ensures
        runs_len(rs) >= 0,
        rs.len() > 0 ==> runs_len(rs) >= rs.last().1,
    decreases rs.len(),
{
    if rs.len() > 0 {
        lemma_runs_len_nonneg(rs.drop_last());
    }
}

proof fn lemma_runs_len_step(rs: Seq<(u64, u64)>, x: (u64, u64), grow: u64)
    ensures
        runs_len(rs.push(x)) == runs_len(rs) + x.1,
        rs.len() > 0 && rs.last().1 + grow <= u64::MAX ==> runs_len(
            rs.update(rs.len() - 1, (rs.last().0, (rs.last().1 + grow) as u64)),
        ) == runs_len(rs) + grow,
{
    assert(rs.push(x).drop_last() =~= rs);
    if rs.len() > 0 {
        let u = rs.update(rs.len() - 1, (rs.last().0, (rs.last().1 + grow) as u64));
        assert(u.drop_last() =~= rs.drop_last());
    }
}

/// Whether every cluster of `chain` has an image offset.
pub open spec fn chain_placed(v: Vol, chain: Seq<u32>) -> bool {
    forall|k: int| 0 <= k < chain.len() ==> (#[trigger] cluster_offset_spec(v.geom, chain[k])) is Some
}

/// Folding a chain whose clusters all have offsets covers `remaining` bytes,
/// or the whole chain when it is shorter.
proof fn lemma_runs_fold_len(v: Vol, chain: Seq<u32>, remaining: u64, acc: Seq<(u64, u64)>)
    requires
        chain_placed(v, chain),
        v.geom.cluster_size > 0,
        runs_len(acc) + remaining <= u64::MAX,
    ensures
        runs_len(runs_fold(v, chain, remaining, acc)) == runs_len(acc) + if remaining < chain.len()
            * v.geom.cluster_size {
            remaining as int
        } else {
            chain.len() * v.geom.cluster_size
        },
    decreases chain.len(),
{
    let cs = v.geom.cluster_size as int;
    if chain.len() > 0 && remaining > 0 {
        assert(cluster_offset_spec(v.geom, chain[0]) is Some);
        let off = cluster_offset_spec(v.geom, chain[0])->0;
        let len: u64 = if (v.geom.cluster_size as u64) < remaining {
            v.geom.cluster_size as u64
        } else {
            remaining
        };
        lemma_runs_len_nonneg(acc);
        lemma_runs_len_step(acc, (off, len), len);
        let acc2 = if acc.len() > 0 && acc.last().0 + acc.last().1 == off {
            acc.update(acc.len() - 1, (acc.last().0, (acc.last().1 + len) as u64))
        } else {
            acc.push((off, len))
        };
        assert(runs_len(acc2) == runs_len(acc) + len);
        let rest = chain.drop_first();
        assert forall|k: int| 0 <= k < rest.len() implies (#[trigger] cluster_offset_spec(
            v.geom,
            rest[k],
        )) is Some by {
            assert(rest[k] == chain[k + 1]);
        }
        lemma_runs_fold_len(v, rest, (remaining - len) as u64, acc2);
        assert(chain.len() * cs == cs + rest.len() * cs) by (nonlinear_arith)
            requires
                rest.len() == chain.len() - 1,
        ;
    }
}

/// The runs of a node add up to its data length when its chain covers it, and
/// to the whole chain when the chain is shorter (every cluster of the chain
/// lying at a representable offset).
pub proof fn lemma_runs_cover_data(v: Vol, id: FileId, chain: Seq<u32>, total: u64, rs: Seq<(u64, u64)>)
    requires
        data_extent_spec(v, id) == Ok::<(Seq<u32>, u64), SpecFatError>((chain, total)),
        runs_spec(v, id) == Ok::<Seq<(u64, u64)>, SpecFatError>(rs),
        vol_bounds(v),
    ensures
        chain.len() == 0 ==> runs_len(rs) == total,
        chain.len() > 0 ==> runs_len(rs) == if total < chain.len() * v.geom.cluster_size {
            total as int
        } else {
            chain.len() * v.geom.cluster_size
        },
{
    lemma_extent_placed(v, id, chain, total);
    if chain.len() == 0 {
        assert(runs_len(Seq::<(u64, u64)>::empty()) == 0);
        if total > 0 {
            let one = seq![(v.geom.root_dir_start, total)];
            assert(one.drop_last() =~= Seq::<(u64, u64)>::empty());
            assert(rs == one);
            assert(runs_len(one) == runs_len(one.drop_last()) + one.last().1);
        }
    } else {
        lemma_runs_fold_len(v, chain, total, Seq::empty());
    }
}

/// Image offset of byte `k` of the concatenated runs `rs`.
pub open spec fn run_pos(rs: Seq<(u64, u64)>, k: int) -> int
    decreases rs.len(),
{
    if rs.len() == 0 {
        0
    } else if k >= runs_len(rs.drop_last()) {
        rs.last().0 + (k - runs_len(rs.drop_last()))
    } else {
        run_pos(rs.drop_last(), k)
    }
}

/// A run list's shape: every run non-empty, no run ending where the next one
/// starts (adjacent clusters are merged), and byte `k` of the concatenation
/// lying where byte `k` of the data along `chain` lies.
pub open spec fn runs_shaped(v: Vol, chain: Seq<u32>, rs: Seq<(u64, u64)>) -> bool {
    let cs = v.geom.cluster_size as int;
    &&& forall|i: int| 0 <= i < rs.len() ==> (#[trigger] rs[i]).1 > 0
    &&& forall|i: int| 0 <= i < rs.len() - 1 ==> (#[trigger] rs[i]).0 + rs[i].1 != rs[i + 1].0
    &&& forall|k: int|
        0 <= k < runs_len(rs) ==> #[trigger] run_pos(rs, k) == cluster_offset_spec(v.geom, chain[k / cs])->0
            + k % cs
}

/// Byte `k` with `i * cs <= k < (i + 1) * cs` lies in cluster `i` at `k - i * cs`.
proof fn lemma_in_cluster(k: int, i: int, cs: int)
    requires
        cs > 0,
        i * cs <= k < i * cs + cs,
    ensures
        k / cs == i,
        k % cs == k - i * cs,
{
    vstd::arithmetic::div_mod::lemma_fundamental_div_mod_converse(k, cs, i, k - i * cs);
}

/// Folding keeps the run list shaped, clusters `i..` of `chain` being folded
/// after the first `i` filled `acc`.
proof fn lemma_runs_fold_shaped(v: Vol, chain: Seq<u32>, i: int, remaining: u64, acc: Seq<(u64, u64)>)
    requires
        chain_placed(v, chain),
        v.geom.cluster_size > 0,
        0 <= i <= chain.len(),
        runs_len(acc) + remaining <= u64::MAX,
        remaining > 0 ==> runs_len(acc) == i * v.geom.cluster_size,
        runs_shaped(v, chain, acc),
    ensures
        runs_shaped(v, chain, runs_fold(v, chain.skip(i), remaining, acc)),
    decreases chain.len() - i,
{
    let cs = v.geom.cluster_size as int;
    let rest = chain.skip(i);
    if rest.len() > 0 && remaining > 0 {
        assert(rest[0] == chain[i]);
        assert(cluster_offset_spec(v.geom, chain[i]) is Some);
        let off = cluster_offset_spec(v.geom, chain[i])->0;
        let len: u64 = if (v.geom.cluster_size as u64) < remaining {
            v.geom.cluster_size as u64
        } else {
            remaining
        };
        let p = runs_len(acc);
        lemma_runs_len_nonneg(acc);
        lemma_runs_len_step(acc, (off, len), len);
        let merge = acc.len() > 0 && acc.last().0 + acc.last().1 == off;
        let acc2 = if merge {
            acc.update(acc.len() - 1, (acc.last().0, (acc.last().1 + len) as u64))
        } else {
            acc.push((off, len))
        };
        assert(runs_len(acc2) == p + len);
        assert(acc2.drop_last() =~= if merge { acc.drop_last() } else { acc });
        let d2 = runs_len(acc2.drop_last());
        assert(acc2.len() > 0);
        assert(acc2.last().0 == if merge { acc.last().0 } else { off });
        if merge {
            assert(d2 == runs_len(acc.drop_last()));
            assert(p == runs_len(acc.drop_last()) + acc.last().1);
        } else {
            assert(d2 == p);
        }
        assert forall|k: int| 0 <= k < runs_len(acc2) implies #[trigger] run_pos(acc2, k)
            == cluster_offset_spec(v.geom, chain[k / cs])->0 + k % cs by {
            assert(run_pos(acc2, k) == if k >= d2 { acc2.last().0 + (k - d2) } else { run_pos(acc2.drop_last(), k) });
            if k >= p {
                lemma_in_cluster(k, i, cs);
                assert(run_pos(acc2, k) == off + (k - p));
            } else {
                if merge {
                    assert(run_pos(acc, k) == if k >= d2 { acc.last().0 + (k - d2) } else { run_pos(acc.drop_last(), k) });
                }
                assert(run_pos(acc2, k) == run_pos(acc, k));
                assert(run_pos(acc, k) == cluster_offset_spec(v.geom, chain[k / cs])->0 + k % cs);
            }
        }
        assert forall|j: int| 0 <= j < acc2.len() - 1 implies (#[trigger] acc2[j]).0 + acc2[j].1 != acc2[j + 1].0 by {
            if merge {
                assert(acc2[j] == acc[j]);
            } else {
                if j < acc.len() - 1 {
                    assert(acc2[j] == acc[j] && acc2[j + 1] == acc[j + 1]);
                } else {
                    assert(acc2[j] == acc.last());
                }
            }
        }
        assert forall|j: int| 0 <= j < acc2.len() implies (#[trigger] acc2[j]).1 > 0 by {
            if j < acc.len() && !(merge && j == acc.len() - 1) {
                assert(acc2[j] == acc[j]);
            }
        }
        assert(rest.drop_first() =~= chain.skip(i + 1));
        if remaining - len > 0 {
            assert(len == cs);
            assert(p + len == (i + 1) * cs) by (nonlinear_arith)
                requires
                    p == i * cs,
                    len == cs,
            ;
        }
        lemma_runs_fold_shaped(v, chain, i + 1, (remaining - len) as u64, acc2);
    }
}

/// The runs of a node's data are non-empty, never end where the next run
/// starts (physically adjacent clusters are merged), and lay out the data in
/// order: byte `k` over the runs is byte `k` of the data along the chain. A
/// node without a chain (the FAT12/16 root) has its fixed region as its one
/// run.
pub proof fn lemma_runs_are_the_data(v: Vol, id: FileId, chain: Seq<u32>, total: u64, rs: Seq<(u64, u64)>)
    requires
        data_extent_spec(v, id) == Ok::<(Seq<u32>, u64), SpecFatError>((chain, total)),
        runs_spec(v, id) == Ok::<Seq<(u64, u64)>, SpecFatError>(rs),
        vol_bounds(v),
    ensures
        chain.len() == 0 ==> rs == if total == 0 {
            Seq::<(u64, u64)>::empty()
        } else {
            seq![(v.geom.root_dir_start, total)]
        },
        chain.len() > 0 ==> runs_shaped(v, chain, rs),
{
    lemma_extent_placed(v, id, chain, total);
    if chain.len() > 0 {
        assert(chain.skip(0) =~= chain);
        assert(runs_len(Seq::<(u64, u64)>::empty()) == 0);
        lemma_runs_fold_shaped(v, chain, 0, total, Seq::empty());
    }
}

impl FatFs {
    /// Contiguous image byte runs `(offset, length)` backing node `id`'s data,
    /// merging physically adjacent clusters; the FAT12/16 fixed root is one
    /// run over its region.
    pub fn runs(&self, id: FileId) -> (r: Result<Vec<(u64, u64)>, FatError>)
        ensures
            match runs_spec(self.vol(), id) {
                Ok(rs) => r matches Ok(x) && x@ == rs,
                Err(e) => r matches Err(x) && x@ == e,
            },
    {
        proof {
            use_type_invariant(self);
        }
        let (chain, total) = match self.data_extent(id) {
            Ok(x) => x,
            Err(e) => return Err(e),
        };
        if chain.len() == 0 {
            if total == 0 {
                return Ok(Vec::new());
            } else {
                let mut one: Vec<(u64, u64)> = Vec::new();
                one.push((self.geom.root_dir_start, total));
                assert(one@ =~= seq![(self.vol().geom.root_dir_start, total)]);
                return Ok(one);
            }
        }
        let ghost v = self.vol();
        let cs = self.geom.cluster_size as u64;
        let mut out: Vec<(u64, u64)> = Vec::new();
        let mut remaining = total;
        let mut i: usize = 0;
        assert(chain@.skip(0) =~= chain@);
        while i < chain.len()
            invariant_except_break
                runs_fold(v, chain@.skip(i as int), remaining, out@) == runs_fold(v, chain@, total, Seq::empty()),
            invariant
                v == self.vol(),
                cs == v.geom.cluster_size,
                i <= chain@.len(),
                runs_len(out@) + remaining <= total,
            ensures
                out@ == runs_fold(v, chain@, total, Seq::empty()),
            decreases chain@.len() - i,
        {
            let ghost rest = chain@.skip(i as int);
            if remaining == 0 {
                break;
            }
            let off = match self.geom.cluster_offset(chain[i]) {
                Some(o) => o,
                None => {
                    assert(rest[0] == chain@[i as int]);
                    break;
                },
            };
            assert(rest[0] == chain@[i as int]);
            let len = if cs < remaining {
                cs
            } else {
                remaining
            };
            let ghost before = out@;
            proof {
                lemma_runs_len_nonneg(before);
                lemma_runs_len_step(before, (off, len), len);
            }
            let n = out.len();
            let merge = if n > 0 {
                let last = out[n - 1];
                last.1 <= u64::MAX - last.0 && last.0 + last.1 == off
            } else {
                false
            };
            if merge {
                let last = out[n - 1];
                out.set(n - 1, (last.0, last.1 + len));
            } else {
                out.push((off, len));
            }
            remaining = remaining - len;
            i = i + 1;
            proof {
                assert(rest.drop_first() =~= chain@.skip(i as int));
            }
        }
        Ok(out)
    }
}

/// Every node a directory listing yields is re-read unchanged through its id:
/// `meta` of a listed node's id is that node (ids address a parent directory
/// and slot, so deleted entries stay addressable too). A directory whose first
/// cluster equals the fixed-root marker is excluded: its children's ids point
/// at the fixed root instead.
pub proof fn lemma_listed_node_rereads(v: Vol, dir: FileId, ns: Seq<SpecNode>, j: int)
    requires
        read_dir_spec(v, dir) == Ok::<Seq<SpecNode>, SpecFatError>(ns),
        0 <= j < ns.len(),
        own_loc_spec(v, dir) != Ok::<DirLoc, SpecFatError>(DirLoc::Cluster(FIXED_ROOT)),
    ensures
        meta_spec(v, ns[j].id) == Ok::<SpecNode, SpecFatError>(ns[j]),
{
    let loc = match own_loc_spec(v, dir) {
        Ok(l) => l,
        Err(_) => DirLoc::FixedRoot,
    };
    let marker = loc_marker_spec(loc);
    let b = dir_bytes(v, loc);
    let es = dir_entries(v, loc);
    assert(marker_loc(marker) == loc);
    if v.geom.variant == FatVariant::ExFat {
        crate::exfat_dir::lemma_ex_indices(b, 0);
    } else {
        crate::dirent::lemma_scan_indices(b, crate::dirent::slot_count(b));
    }
    let idx = es[j].index;
    assert forall|k: int| 0 <= k < j implies es[k].index != idx by {
        assert(es[k].index < es[j].index);
    }
    lemma_find_slot(es, idx, j);
}

/// A slot index found by [`find_slot`] names an entry of that index.
proof fn lemma_find_slot_found(es: Seq<SpecDirEntry>, index: u16)
    ensures
        find_slot(es, index) matches Some(j) ==> 0 <= j < es.len() && es[j].index == index,
    decreases es.len(),
{
    if es.len() > 0 && es[0].index != index {
        lemma_find_slot_found(es.drop_first(), index);
        if let Some(j) = find_slot(es, index) {
            assert(es[j] == es.drop_first()[j - 1]);
        }
    }
}

/// On a FAT12/16/32 volume, the metadata of an entry node is read from its
/// own 32-byte slot `index` of its parent directory's bytes: the size at 28,
/// the attributes at 11, the creation instant from the date, time and tenths
/// at 16, 14 and 13, the last-modified instant from the last-write date and
/// time at 24 and 22, and the last-access day from the date at 18.
pub proof fn lemma_meta_from_slot(v: Vol, dir_cluster: u32, index: u16, n: SpecNode)
    requires
        v.geom.variant != FatVariant::ExFat,
        meta_spec(v, FileId::Entry { dir_cluster, index }) == Ok::<SpecNode, SpecFatError>(n),
    ensures
        ({
            let b = dir_bytes(v, marker_loc(dir_cluster));
            let base = 32 * (index as int);
            &&& n.size == crate::bytes::spec_le_u32(b, base + 28) as u64
            &&& n.attributes == crate::bytes::byte_at(b, base + 11)
            &&& n.created == decode_spec(
                crate::bytes::spec_le_u16(b, base + 16),
                crate::bytes::spec_le_u16(b, base + 14),
                crate::bytes::byte_at(b, base + 13),
            )
            &&& n.modified == decode_spec(
                crate::bytes::spec_le_u16(b, base + 24),
                crate::bytes::spec_le_u16(b, base + 22),
                0,
            )
            &&& n.accessed == decode_spec(crate::bytes::spec_le_u16(b, base + 18), 0, 0)
        }),
{
    let b = dir_bytes(v, marker_loc(dir_cluster));
    let es = dir_entries(v, marker_loc(dir_cluster));
    assert(es == parse_directory_spec(b));
    lemma_find_slot_found(es, index);
    let j = find_slot(es, index)->0;
    crate::dirent::lemma_entry_fields(b, j);
    assert(n == node_spec(dir_cluster, es[j]));
}

/// A file's data is its recorded size over the clusters that back it: the
/// FAT chain from its first cluster whenever its `NoFatChain` flag is clear,
/// on every variant (exFAT included), and the run of consecutive clusters
/// from its first cluster only when the flag is set.
pub proof fn lemma_file_extent(v: Vol, dir_cluster: u32, index: u16, e: SpecDirEntry)
    requires
        vol_bounds(v),
        entry_at_spec(v, dir_cluster, index) == Ok::<SpecDirEntry, SpecFatError>(e),
        !e.is_dir,
    ensures
        data_extent_spec(v, FileId::Entry { dir_cluster, index }) matches Ok((ch, total)) && total
            == e.size && (!e.no_fat_chain ==> ch == vol_chain(v, e.first_cluster)) && (e.no_fat_chain
            ==> forall|k: int| 0 <= k < ch.len() ==> ch[k] == e.first_cluster + k),
{
    if e.no_fat_chain {
        let ch = contig_chain(v, e.first_cluster, e.size);
        if e.first_cluster >= 2 {
            let len = contig_len(v, e.first_cluster, e.size);
            assert(len <= 0x1_0000_0000 - e.first_cluster);
            assert forall|k: int| 0 <= k < ch.len() implies ch[k] == e.first_cluster + k by {
                assert(ch[k] == (e.first_cluster + k) as u32);
            }
        }
    }
}

/// Reading a file whose `NoFatChain` flag is clear follows the FAT: byte `i`
/// of a read at offset `off` lies below the file's recorded size and is the
/// image byte `(off + i) % cluster_size` into cluster number
/// `(off + i) / cluster_size` of the FAT chain from the file's first cluster.
pub proof fn lemma_chained_read_follows_fat(
    v: Vol,
    dir_cluster: u32,
    index: u16,
    e: SpecDirEntry,
    off: u64,
    old_buf: Seq<u8>,
    new_buf: Seq<u8>,
    n: usize,
    i: int,
)
    requires
        vol_bounds(v),
        entry_at_spec(v, dir_cluster, index) == Ok::<SpecDirEntry, SpecFatError>(e),
        !e.is_dir,
        !e.no_fat_chain,
        read_result(
            v,
            data_extent_spec(v, FileId::Entry { dir_cluster, index })->Ok_0.0,
            data_extent_spec(v, FileId::Entry { dir_cluster, index })->Ok_0.1,
            off,
            old_buf,
            new_buf,
            n,
        ),
        0 <= i < n,
    ensures
        off + i < e.size,
        (off + i) / (v.geom.cluster_size as int) < vol_chain(v, e.first_cluster).len(),
        cluster_offset_spec(
            v.geom,
            vol_chain(v, e.first_cluster)[(off + i) / (v.geom.cluster_size as int)],
        ) is Some,
        new_buf[i] == v.image[cluster_offset_spec(
            v.geom,
            vol_chain(v, e.first_cluster)[(off + i) / (v.geom.cluster_size as int)],
        )->0 + (off + i) % (v.geom.cluster_size as int)],
{
    lemma_file_extent(v, dir_cluster, index, e);
    let ch = vol_chain(v, e.first_cluster);
    assert(data_extent_spec(v, FileId::Entry { dir_cluster, index })->Ok_0.0 == ch);
    assert(data_extent_spec(v, FileId::Entry { dir_cluster, index })->Ok_0.1 == e.size);
    assert(read_ok(v, ch, e.size, off, new_buf, i));
    assert(data_avail(v, ch, e.size, off + i));
}

/// Whether clusters `0..=q` of `chain` each lie wholly inside the image.
pub open spec fn clusters_in_image(v: Vol, chain: Seq<u32>, q: int) -> bool {
    forall|p: int|
        0 <= p <= q ==> (#[trigger] cluster_offset_spec(v.geom, chain[p])) is Some
            && cluster_offset_spec(v.geom, chain[p])->0 + v.geom.cluster_size <= v.image.len()
}

/// Directory bytes gathered along a cluster chain are the clusters' contents
/// in chain order: byte `k` is the image byte `k % cluster_size` into cluster
/// number `k / cluster_size` of the chain, provided that cluster and those
/// before it lie wholly inside the image and the size cap on a directory
/// ([`MAX_DIR_BYTES`]) was not reached before it.
pub proof fn lemma_dir_bytes_follow_chain(v: Vol, chain: Seq<u32>, sofar: nat, k: int)
    requires
        vol_bounds(v),
        0 <= k,
        k / (v.geom.cluster_size as int) < chain.len(),
        clusters_in_image(v, chain, k / (v.geom.cluster_size as int)),
        sofar + (k / (v.geom.cluster_size as int)) * v.geom.cluster_size < MAX_DIR_BYTES,
    ensures
        k < cat_clusters(v, chain, sofar).len(),
        cat_clusters(v, chain, sofar)[k] == v.image[cluster_offset_spec(
            v.geom,
            chain[k / (v.geom.cluster_size as int)],
        )->0 + k % (v.geom.cluster_size as int)],
    decreases chain.len(),
{
    let cs = v.geom.cluster_size as int;
    let q = k / cs;
    let o = cluster_offset_spec(v.geom, chain[0])->0;
    assert(cluster_offset_spec(v.geom, chain[0]) is Some && o + cs <= v.image.len());
    let r = region(v.image, o as int, cs);
    assert(r.len() == cs);
    let rest = chain.drop_first();
    assert(cat_clusters(v, chain, sofar) == r + cat_clusters(v, rest, sofar + r.len()));
    if q == 0 {
        assert(k < cs && k % cs == k) by {
            vstd::arithmetic::div_mod::lemma_fundamental_div_mod(k, cs);
        }
    } else {
        let k2 = k - cs;
        assert(k2 / cs == q - 1 && k2 % cs == k % cs && k2 >= 0) by {
            vstd::arithmetic::div_mod::lemma_fundamental_div_mod(k, cs);
            vstd::arithmetic::div_mod::lemma_div_pos_is_pos(k, cs);
            vstd::arithmetic::div_mod::lemma_mod_sub_multiples_vanish(k, cs);
            vstd::arithmetic::div_mod::lemma_div_minus_one(k, cs);
            assert(cs * q >= cs) by (nonlinear_arith)
                requires
                    q >= 1,
                    cs > 0,
            ;
        }
        assert(sofar + r.len() + (q - 1) * cs == sofar + q * cs) by (nonlinear_arith)
            requires
                r.len() == cs,
        ;
        assert forall|p: int| 0 <= p <= q - 1 implies (#[trigger] cluster_offset_spec(
            v.geom,
            rest[p],
        )) is Some && cluster_offset_spec(v.geom, rest[p])->0 + cs <= v.image.len() by {
            assert(rest[p] == chain[p + 1]);
            assert(cluster_offset_spec(v.geom, chain[p + 1]) is Some);
        }
        lemma_dir_bytes_follow_chain(v, rest, sofar + r.len(), k2);
        assert(rest[q - 1] == chain[q]);
    }
}

/// A contiguous directory run is consecutive clusters from its start, within
/// the heap, each but the last leaving the directory open.
proof fn lemma_contig_dir_shape(v: Vol, c: u32, budget: nat)
    ensures
        forall|p: int|
            0 <= p < contig_dir(v, c, budget).len() ==> #[trigger] contig_dir(v, c, budget)[p] == c + p
                && 2 <= c + p <= v.geom.count_of_clusters + 1,
        forall|p: int|
            0 <= p < contig_dir(v, c, budget).len() - 1 ==> !cluster_ends_dir(
                v,
                #[trigger] contig_dir(v, c, budget)[p],
            ),
    decreases budget,
{
    if budget > 0 && c >= 2 && c <= v.geom.count_of_clusters + 1 && !cluster_ends_dir(v, c) && c
        != 0xFFFF_FFFF {
        let d = contig_dir(v, c, budget);
        let rest = contig_dir(v, (c + 1) as u32, (budget - 1) as nat);
        lemma_contig_dir_shape(v, (c + 1) as u32, (budget - 1) as nat);
        assert forall|p: int| 0 <= p < d.len() implies #[trigger] d[p] == c + p && 2 <= c + p
            <= v.geom.count_of_clusters + 1 by {
            if p > 0 {
                assert(d[p] == rest[p - 1]);
            }
        }
        assert forall|p: int| 0 <= p < d.len() - 1 implies !cluster_ends_dir(v, #[trigger] d[p]) by {
            if p > 0 {
                assert(d[p] == rest[p - 1]);
            }
        }
    }
}

/// A directory's clusters: on FAT12/16/32, and on exFAT when the FAT entry of
/// its first cluster is in use, the FAT chain from its first cluster; on
/// exFAT when that entry is free, consecutive clusters from its first
/// cluster, within the heap, ending at the first cluster that closes it (the
/// end-of-directory marker, or the end of the image).
pub proof fn lemma_dir_clusters(v: Vol, start: u32)
    ensures
        (v.geom.variant != FatVariant::ExFat || crate::fat::fat_entry_spec(
            v.fat,
            FatVariant::ExFat,
            start,
        ) != 0) ==> dir_chain(v, start) == vol_chain(v, start),
        (v.geom.variant == FatVariant::ExFat && start >= 2 && crate::fat::fat_entry_spec(
            v.fat,
            FatVariant::ExFat,
            start,
        ) == 0) ==> forall|p: int|
            0 <= p < dir_chain(v, start).len() ==> #[trigger] dir_chain(v, start)[p] == start + p
                && start + p <= v.geom.count_of_clusters + 1 && (p < dir_chain(v, start).len() - 1
                ==> !cluster_ends_dir(v, dir_chain(v, start)[p])),
{
    lemma_contig_dir_shape(v, start, v.max_clusters);
    if v.geom.variant == FatVariant::ExFat && start >= 2 && crate::fat::fat_entry_spec(
        v.fat,
        FatVariant::ExFat,
        start,
    ) == 0 {
        let d = contig_dir(v, start, v.max_clusters);
        assert(dir_chain(v, start) == d);
        assert forall|p: int| 0 <= p < d.len() implies #[trigger] d[p] == start + p && start + p
            <= v.geom.count_of_clusters + 1 && (p < d.len() - 1 ==> !cluster_ends_dir(v, d[p])) by {
            assert(d[p] == start + p);
        }
    }
}

/// A name lookup answers the first listed node that is neither deleted nor a
/// volume label and whose name is spelled by the given UTF-8 bytes; `None`
/// when no listed node qualifies.
pub proof fn lemma_lookup_is_first_hit(ns: Seq<SpecNode>, name: Seq<u8>)
    ensures
        first_hit(ns, name) matches Some(id) ==> exists|j: int|
            0 <= j < ns.len() && ns[j].id == id && lookup_hit(ns[j], name) && forall|k: int|
                0 <= k < j ==> !lookup_hit(#[trigger] ns[k], name),
        first_hit(ns, name) is None ==> forall|k: int| 0 <= k < ns.len() ==> !lookup_hit(#[trigger] ns[k], name),
    decreases ns.len(),
{
    if ns.len() > 0 {
        lemma_lookup_is_first_hit(ns.drop_first(), name);
        if !lookup_hit(ns[0], name) {
            if let Some(id) = first_hit(ns, name) {
                let j = choose|j: int|
                    0 <= j < ns.drop_first().len() && ns.drop_first()[j].id == id && lookup_hit(
                        ns.drop_first()[j],
                        name,
                    ) && forall|k: int| 0 <= k < j ==> !lookup_hit(#[trigger] ns.drop_first()[k], name);
                assert(ns[j + 1] == ns.drop_first()[j]);
                assert forall|k: int| 0 <= k < j + 1 implies !lookup_hit(#[trigger] ns[k], name) by {
                    if k > 0 {
                        assert(ns[k] == ns.drop_first()[k - 1]);
                    }
                }
            } else {
                assert forall|k: int| 0 <= k < ns.len() implies !lookup_hit(#[trigger] ns[k], name) by {
                    if k > 0 {
                        assert(ns[k] == ns.drop_first()[k - 1]);
                    }
                }
            }
        }
    }
}

/// What a name lookup finds is re-read by `meta` as a node that answers the
/// lookup: allocated, not the volume label, and spelled by the given UTF-8
/// bytes. (The fixed-root marker collision of [`lemma_listed_node_rereads`] is
/// excluded in the same way.)
pub proof fn lemma_lookup_then_meta(v: Vol, dir: FileId, name: Seq<u8>, id: FileId)
    requires
        lookup_spec(v, dir, name) == Ok::<Option<FileId>, SpecFatError>(Some(id)),
        own_loc_spec(v, dir) != Ok::<DirLoc, SpecFatError>(DirLoc::Cluster(FIXED_ROOT)),
    ensures
        meta_spec(v, id) matches Ok(n) && n.id == id && lookup_hit(n, name),
{
    let ns = read_dir_spec(v, dir)->Ok_0;
    lemma_lookup_is_first_hit(ns, name);
    let j = choose|j: int|
        0 <= j < ns.len() && ns[j].id == id && lookup_hit(ns[j], name) && forall|k: int|
            0 <= k < j ==> !lookup_hit(#[trigger] ns[k], name);
    lemma_listed_node_rereads(v, dir, ns, j);
}

/// A read at or past the end of a node's data reads nothing and leaves the
/// buffer as it was.
pub proof fn lemma_read_past_end_is_empty(
    v: Vol,
    chain: Seq<u32>,
    total: u64,
    off: u64,
    old_buf: Seq<u8>,
    new_buf: Seq<u8>,
    n: usize,
)
    requires
        read_result(v, chain, total, off, old_buf, new_buf, n),
        off >= total,
    ensures
        n == 0,
        new_buf == old_buf,
{
    if n > 0 {
        assert(read_ok(v, chain, total, off, new_buf, 0));
    }
    assert(new_buf =~= old_buf);
}

/// Whether the image holds every cluster of `chain` whole.
pub open spec fn chain_backed(v: Vol, chain: Seq<u32>) -> bool {
    forall|k: int|
        0 <= k < chain.len() ==> match #[trigger] cluster_offset_spec(v.geom, chain[k]) {
            Some(o) => o + v.geom.cluster_size <= v.image.len(),
            None => false,
        }
}

/// Byte `k` lies in the first `m` clusters exactly when `k < m * cs`.
proof fn lemma_div_below(k: int, m: int, cs: int)
    requires
        0 <= k,
        0 <= m,
        cs > 0,
    ensures
        (k / cs < m) == (k < m * cs),
{
    vstd::arithmetic::div_mod::lemma_fundamental_div_mod(k, cs);
    vstd::arithmetic::div_mod::lemma_mod_pos_bound(k, cs);
    let q = k / cs;
    let r = k % cs;
    assert((q < m) == (k < m * cs)) by (nonlinear_arith)
        requires
            k == cs * q + r,
            0 <= r < cs,
            0 <= m,
            cs > 0,
    ;
}

/// When the image holds every cluster of the chain, a read returns exactly
/// `min(buf.len(), len - off)` bytes for `off` below the data length `len`
/// (the smaller of `total` and what the chain covers), and 0 otherwise.
pub proof fn lemma_read_length(
    v: Vol,
    chain: Seq<u32>,
    total: u64,
    off: u64,
    old_buf: Seq<u8>,
    new_buf: Seq<u8>,
    n: usize,
)
    requires
        read_result(v, chain, total, off, old_buf, new_buf, n),
        chain_backed(v, chain),
        vol_bounds(v),
    ensures
        ({
            let covered = chain.len() * v.geom.cluster_size;
            let len = if total < covered { total as int } else { covered };
            n == if off < len {
                if old_buf.len() < len - off { old_buf.len() as int } else { len - off }
            } else {
                0
            }
        }),
{
    let cs = v.geom.cluster_size as int;
    let covered = chain.len() * cs;
    let len = if total < covered { total as int } else { covered };
    assert forall|k: int| 0 <= k implies #[trigger] data_avail(v, chain, total, k) == (k < len) by {
        lemma_div_below(k, chain.len() as int, cs);
        if k < len {
            let q = k / cs;
            vstd::arithmetic::div_mod::lemma_mod_pos_bound(k, cs);
            assert(0 <= q < chain.len());
            assert(cluster_offset_spec(v.geom, chain[q]) is Some);
        }
    }
    if n > 0 {
        assert(read_ok(v, chain, total, off, new_buf, n - 1));
        assert(data_avail(v, chain, total, off + (n - 1)));
    }
    if n < old_buf.len() {
        assert(!data_avail(v, chain, total, off + n));
    }
}

/// Reading the FAT12/16 root yields its fixed region: with the region inside
/// the image, `read_at(Root, off, buf)` returns `min(buf.len(), total - off)`
/// bytes (0 at or past the end), each the region byte at `off + i`.
pub proof fn lemma_root_read_is_region(v: Vol, total: u64, off: u64, old_buf: Seq<u8>, new_buf: Seq<u8>, n: usize)
    requires
        root_read_result(v, total, off, old_buf, new_buf, n),
        v.geom.root_dir_start + total <= v.image.len(),
    ensures
        n == if off >= total { 0 } else if old_buf.len() < total - off { old_buf.len() as int } else {
            total - off
        },
        forall|i: int| 0 <= i < n ==> #[trigger] new_buf[i] == v.image[v.geom.root_dir_start + off + i],
{
    if n > 0 {
        let _ = new_buf[n - 1];
        assert(root_avail(v, total, off + (n - 1)));
    }
    if n < old_buf.len() {
        assert(!root_avail(v, total, off + n));
    }
}

/// A contiguous (exFAT `NoFatChain`) file is read straight from its first
/// cluster onward: its data byte `k` is the image byte `k` places past the
/// start of that cluster.
pub proof fn lemma_contiguous_data_byte(v: Vol, first: u32, size: u64, k: int)
    requires
        first >= 2,
        vol_bounds(v),
        0 <= k,
        k / (v.geom.cluster_size as int) < contig_len(v, first, size),
    ensures
        data_byte(v, contig_chain(v, first, size), k) == v.image[v.geom.data_start + (first - 2)
            * v.geom.cluster_size + k],
{
    let cs = v.geom.cluster_size as int;
    let q = k / cs;
    let r = k % cs;
    let c = contig_chain(v, first, size)[q];
    assert(c == first + q);
    lemma_offset_fits(v, c);
    assert((c - 2) * cs + r == (first - 2) * cs + k) by (nonlinear_arith)
        requires
            c == first + q,
            q == k / cs,
            r == k % cs,
            cs > 0,
    {
        vstd::arithmetic::div_mod::lemma_fundamental_div_mod(k, cs);
    }
}

/// On a bounded volume every cluster number from 2 on has an image offset.
proof fn lemma_offset_fits(v: Vol, c: u32)
    requires
        vol_bounds(v),
        c >= 2,
    ensures
        cluster_offset_spec(v.geom, c) is Some,
{
    assert((c - 2) * v.geom.cluster_size <= 0xffff_ffff * 0x200_0000) by (nonlinear_arith)
        requires
            0 <= c - 2 <= 0xffff_ffff,
            0 <= v.geom.cluster_size <= 0x200_0000,
    ;
}

/// Every cluster of a list whose clusters are all at least 2 has an offset.
proof fn lemma_placed_from_two(v: Vol, chain: Seq<u32>)
    requires
        vol_bounds(v),
        forall|k: int| 0 <= k < chain.len() ==> chain[k] >= 2,
    ensures
        chain_placed(v, chain),
{
    assert forall|k: int| 0 <= k < chain.len() implies (#[trigger] cluster_offset_spec(v.geom, chain[k])) is Some by {
        lemma_offset_fits(v, chain[k]);
    }
}

/// A contiguous directory run holds clusters from 2 on.
proof fn lemma_contig_dir_from_two(v: Vol, c: u32, budget: nat)
    ensures
        forall|k: int| 0 <= k < contig_dir(v, c, budget).len() ==> contig_dir(v, c, budget)[k] >= 2,
    decreases budget,
{
    if budget > 0 && c >= 2 && c <= v.geom.count_of_clusters + 1 && !cluster_ends_dir(v, c) && c != 0xFFFF_FFFF {
        lemma_contig_dir_from_two(v, (c + 1) as u32, (budget - 1) as nat);
        let rest = contig_dir(v, (c + 1) as u32, (budget - 1) as nat);
        assert forall|k: int| 0 <= k < contig_dir(v, c, budget).len() implies contig_dir(v, c, budget)[k] >= 2 by {
            if k > 0 {
                assert(contig_dir(v, c, budget)[k] == rest[k - 1]);
            }
        }
    }
}

/// A FAT chain holds clusters from 2 on.
proof fn lemma_vol_chain_from_two(v: Vol, start: u32)
    ensures
        forall|k: int| 0 <= k < vol_chain(v, start).len() ==> vol_chain(v, start)[k] >= 2,
{
    if start >= 2 {
        crate::fat::lemma_chain_shape(v.fat, v.geom.variant, start, v.max_clusters);
        let c = vol_chain(v, start);
        assert forall|k: int| 0 <= k < c.len() implies c[k] >= 2 by {
            if k > 0 {
                assert(c[(k - 1) + 1] == crate::fat::chain_next_spec(v.fat, v.geom.variant, c[k - 1]));
            }
        }
    }
}

/// On a bounded volume every cluster of a node's data extent has an image
/// offset.
pub proof fn lemma_extent_placed(v: Vol, id: FileId, chain: Seq<u32>, total: u64)
    requires
        vol_bounds(v),
        data_extent_spec(v, id) == Ok::<(Seq<u32>, u64), SpecFatError>((chain, total)),
    ensures
        chain_placed(v, chain),
{
    match id {
        FileId::Root => {
            lemma_vol_chain_from_two(v, v.geom.root_cluster);
            lemma_contig_dir_from_two(v, v.geom.root_cluster, v.max_clusters);
        },
        FileId::Entry { dir_cluster, index } => {
            let e = entry_at_spec(v, dir_cluster, index)->Ok_0;
            lemma_vol_chain_from_two(v, e.first_cluster);
            lemma_contig_dir_from_two(v, e.first_cluster, v.max_clusters);
        },
    }
    assert forall|k: int| 0 <= k < chain.len() implies chain[k] >= 2 by {}
    lemma_placed_from_two(v, chain);
}

/// A contiguous directory run is at most `budget` clusters long.
proof fn lemma_contig_dir_len(v: Vol, c: u32, budget: nat)
    ensures
        contig_dir(v, c, budget).len() <= budget,
    decreases budget,
{
    if budget > 0 && c >= 2 && c <= v.geom.count_of_clusters + 1 && !cluster_ends_dir(v, c) && c != 0xFFFF_FFFF {
        lemma_contig_dir_len(v, (c + 1) as u32, (budget - 1) as nat);
    }
}

/// A directory's clusters number at most `max_clusters`.
proof fn lemma_dir_chain_len(v: Vol, start: u32)
    ensures
        dir_chain(v, start).len() <= v.max_clusters,
{
    lemma_chain_len(v, start);
    lemma_contig_dir_len(v, start, v.max_clusters);
}

/// A chain is at most `max_clusters` long.
proof fn lemma_chain_len(v: Vol, start: u32)
    ensures
        vol_chain(v, start).len() <= v.max_clusters,
{
    if start >= 2 {
        crate::fat::lemma_chain_shape(v.fat, v.geom.variant, start, v.max_clusters);
    }
}

/// Offsets `pos + t` with `t < cs - pos % cs` stay in `pos`'s cluster.
proof fn lemma_same_cluster(pos: int, t: int, cs: int)
    requires
        0 <= pos,
        0 <= t < cs - pos % cs,
        cs > 0,
    ensures
        (pos + t) / cs == pos / cs,
        (pos + t) % cs == pos % cs + t,
{
    vstd::arithmetic::div_mod::lemma_fundamental_div_mod(pos, cs);
    vstd::arithmetic::div_mod::lemma_mod_pos_bound(pos, cs);
    let q = pos / cs;
    let r = pos % cs;
    assert(pos + t == q * cs + (r + t)) by {
        vstd::arithmetic::mul::lemma_mul_is_commutative(q, cs);
    }
    vstd::arithmetic::div_mod::lemma_fundamental_div_mod_converse(pos + t, cs, q, r + t);
}

} // verus!
