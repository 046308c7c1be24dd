//! exFAT reader primitives: the main boot-sector parse and the boot-region
//! checksum (every byte of the first 11 sectors except VolumeFlags at 106..108
//! and PercentInUse at 112).
use vstd::prelude::*;
use crate::boot::{FatVariant, Geometry};
use crate::bytes::{byte_at, le_u16, le_u32, le_u64, spec_le_u16, spec_le_u32, spec_le_u64, u8_at};
use crate::error::{FatError, SpecFatError};
use crate::text::{dec_chars, hex_chars, push_dec, push_hex};

verus! {

/// `2^n`.
pub open spec fn exp2(n: nat) -> nat
    decreases n,
{
    if n == 0 { 1 } else { 2 * exp2((n - 1) as nat) }
}

proof fn lemma_exp2_monotone(a: nat, b: nat)
    requires
        a <= b,
    ensures
        exp2(a) <= exp2(b),
    decreases b,
{
    if a < b {
        lemma_exp2_monotone(a, (b - 1) as nat);
    }
}

proof fn lemma_exp2_add(a: nat, b: nat)
    ensures
        exp2(a) * exp2(b) == exp2(a + b),
    decreases a,
{
    if a > 0 {
        lemma_exp2_add((a - 1) as nat, b);
        assert(exp2(a + b) == 2 * exp2((a + b - 1) as nat));
        assert((a + b - 1) as nat == ((a - 1) as nat + b) as nat);
        assert(exp2(a) * exp2(b) == 2 * (exp2((a - 1) as nat) * exp2(b))) by (nonlinear_arith)
            requires
                exp2(a) == 2 * exp2((a - 1) as nat),
        ;
    } else {
        assert(exp2(0) == 1);
        assert(1 * exp2(b) == exp2(b));
    }
}

/// `2^n` for `n <= 25`.
fn pow2(n: u8) -> (r: u64)
    requires
        n <= 25,
    ensures
        r == exp2(n as nat),
        r <= 0x200_0000,
{
    let mut r: u64 = 1;
    let mut i: u8 = 0;
    while i < n
        invariant
            i <= n <= 25,
            r == exp2(i as nat),
        decreases n - i,
    {
        proof {
            lemma_exp2_monotone((i + 1) as nat, 25);
            reveal_with_fuel(exp2, 26);
        }
        r = r * 2;
        i = i + 1;
    }
    proof {
        lemma_exp2_monotone(n as nat, 25);
        reveal_with_fuel(exp2, 26);
    }
    r
}

/// A reason an exFAT boot sector is rejected, carrying the offending value.
pub enum ExfatFault {
    /// The 16-bit value at 0x1FE is not `0xAA55`.
    Signature(u16),
    /// The file-system name at 0x03 is not `"EXFAT   "`.
    Name,
    /// BytesPerSectorShift outside 9..=12.
    SectorShift(u8),
    /// SectorsPerClusterShift making a cluster larger than 32 MiB.
    ClusterShift(u8),
    /// NumberOfFats not 1 or 2.
    FatCount(u8),
    /// FirstClusterOfRootDirectory outside `2..=ClusterCount + 1`.
    RootCluster(u32),
}

/// Whether bytes 3..11 spell `"EXFAT   "`.
pub open spec fn has_exfat_name(b: Seq<u8>) -> bool {
    &&& byte_at(b, 3) == 0x45
    &&& byte_at(b, 4) == 0x58
    &&& byte_at(b, 5) == 0x46
    &&& byte_at(b, 6) == 0x41
    &&& byte_at(b, 7) == 0x54
    &&& byte_at(b, 8) == 0x20
    &&& byte_at(b, 9) == 0x20
    &&& byte_at(b, 10) == 0x20
}

/// Whether the boot sector `boot` carries the exFAT file-system name.
pub fn is_exfat_name(boot: &[u8]) -> (r: bool)
    ensures
        r == has_exfat_name(boot@),
{
    u8_at(boot, 3) == 0x45 && u8_at(boot, 4) == 0x58 && u8_at(boot, 5) == 0x46 && u8_at(boot, 6)
        == 0x41 && u8_at(boot, 7) == 0x54 && u8_at(boot, 8) == 0x20 && u8_at(boot, 9) == 0x20
        && u8_at(boot, 10) == 0x20
}

/// The first reason (in check order) an exFAT boot sector is rejected, if any.
pub open spec fn exfat_boot_fault(b: Seq<u8>) -> Option<ExfatFault> {
    if spec_le_u16(b, 510) != 0xAA55 {
        Some(ExfatFault::Signature(spec_le_u16(b, 510)))
    } else if !has_exfat_name(b) {
        Some(ExfatFault::Name)
    } else if !(9 <= byte_at(b, 108) <= 12) {
        Some(ExfatFault::SectorShift(byte_at(b, 108)))
    } else if byte_at(b, 108) + byte_at(b, 109) > 25 {
        Some(ExfatFault::ClusterShift(byte_at(b, 109)))
    } else if !(byte_at(b, 110) == 1 || byte_at(b, 110) == 2) {
        Some(ExfatFault::FatCount(byte_at(b, 110)))
    } else if spec_le_u32(b, 96) < 2 || spec_le_u32(b, 96) > spec_le_u32(b, 92) + 1 {
        Some(ExfatFault::RootCluster(spec_le_u32(b, 96)))
    } else {
        None
    }
}

/// The geometry a valid exFAT boot sector describes.
pub open spec fn exfat_geometry(b: Seq<u8>) -> Geometry {
    let bps = exp2(byte_at(b, 108) as nat);
    let spc = exp2(byte_at(b, 109) as nat);
    Geometry {
        variant: FatVariant::ExFat,
        bytes_per_sector: bps as u32,
        sectors_per_cluster: spc as u32,
        cluster_size: (bps * spc) as u32,
        reserved_sectors: spec_le_u32(b, 80),
        num_fats: byte_at(b, 110),
        root_entry_count: 0,
        total_sectors: spec_le_u64(b, 72),
        fat_size_sectors: spec_le_u32(b, 84),
        count_of_clusters: spec_le_u32(b, 92),
        root_cluster: spec_le_u32(b, 96),
        fat_start: (spec_le_u32(b, 80) * bps) as u64,
        root_dir_start: 0,
        root_dir_bytes: 0,
        data_start: (spec_le_u32(b, 88) * bps) as u64,
    }
}

/// A valid exFAT boot sector describes a cluster of 512 bytes to 32 MiB and
/// a cluster heap starting at most `0xffff_ffff` 4 KiB sectors in.
pub proof fn lemma_exfat_geometry_bounds(b: Seq<u8>)
    requires
        exfat_boot_fault(b) is None,
    ensures
        512 <= exfat_geometry(b).cluster_size <= 0x200_0000,
        exfat_geometry(b).data_start <= 0xffff_ffff * 0x1000,
{
    let bpss = byte_at(b, 108) as nat;
    let spcs = byte_at(b, 109) as nat;
    lemma_exp2_add(bpss, spcs);
    lemma_exp2_monotone(bpss + spcs, 25);
    lemma_exp2_monotone(9, bpss);
    lemma_exp2_monotone(bpss, 12);
    lemma_exp2_monotone(0, spcs);
    lemma_exp2_monotone(9, bpss + spcs);
    reveal_with_fuel(exp2, 26);
    let bps = exp2(bpss);
    let heap = spec_le_u32(b, 88) as int;
    assert(heap * bps <= 0xffff_ffff * 0x1000) by (nonlinear_arith)
        requires
            0 <= heap <= 0xffff_ffff,
            bps <= 0x1000,
    ;
    assert(0 <= heap * bps) by (nonlinear_arith)
        requires
            0 <= heap,
            0 <= bps,
    ;
}

/// `2^n` for `n <= 25` is at most 32 Mi, and at most 4096 for `n <= 12`.
proof fn lemma_exp2_bounds(n: nat)
    requires
        n <= 25,
    ensures
        1 <= exp2(n) <= 0x200_0000,
        n <= 12 ==> exp2(n) <= 0x1000,
{
    lemma_exp2_monotone(n, 25);
    lemma_exp2_monotone(0, n);
    if n <= 12 {
        lemma_exp2_monotone(n, 12);
    }
    reveal_with_fuel(exp2, 26);
}

/// `2^n` as counted here is the power of two vstd defines.
proof fn lemma_exp2_is_pow2(n: nat)
    ensures
        exp2(n) == vstd::arithmetic::power2::pow2(n),
    decreases n,
{
    if n == 0 {
        vstd::arithmetic::power2::lemma_pow2(0);
        vstd::arithmetic::power::lemma_pow0(2);
    } else {
        lemma_exp2_is_pow2((n - 1) as nat);
        vstd::arithmetic::power2::lemma_pow2_unfold(n);
    }
}

/// An accepted exFAT boot sector describes the layout its fields record:
/// sectors of `2^BytesPerSectorShift` bytes (byte 108), clusters of
/// `2^SectorsPerClusterShift` sectors (byte 109), the FAT at FatOffset
/// (32-bit at 80) sectors in, FatLength (84) sectors long, the cluster heap at
/// ClusterHeapOffset (88) sectors in, ClusterCount (92) clusters, the root
/// directory at FirstClusterOfRootDirectory (96), VolumeLength (64-bit at 72)
/// sectors and NumberOfFats (110) FAT copies; there is no fixed root region.
pub proof fn lemma_exfat_layout(b: Seq<u8>)
    requires
        exfat_boot_fault(b) is None,
    ensures
        ({
            let g = exfat_geometry(b);
            let bps = vstd::arithmetic::power2::pow2(byte_at(b, 108) as nat);
            &&& g.variant == FatVariant::ExFat
            &&& g.bytes_per_sector == bps
            &&& g.sectors_per_cluster == vstd::arithmetic::power2::pow2(byte_at(b, 109) as nat)
            &&& g.cluster_size == vstd::arithmetic::power2::pow2(
                (byte_at(b, 108) + byte_at(b, 109)) as nat,
            )
            &&& g.fat_start == spec_le_u32(b, 80) * bps
            &&& g.fat_size_sectors == spec_le_u32(b, 84)
            &&& g.data_start == spec_le_u32(b, 88) * bps
            &&& g.count_of_clusters == spec_le_u32(b, 92)
            &&& g.root_cluster == spec_le_u32(b, 96)
            &&& g.total_sectors == spec_le_u64(b, 72)
            &&& g.num_fats == byte_at(b, 110)
            &&& g.root_dir_bytes == 0
        }),
{
    let bpss = byte_at(b, 108) as nat;
    let spcs = byte_at(b, 109) as nat;
    lemma_exfat_geometry_bounds(b);
    lemma_exp2_is_pow2(bpss);
    lemma_exp2_is_pow2(spcs);
    lemma_exp2_is_pow2(bpss + spcs);
    lemma_exp2_add(bpss, spcs);
    lemma_exp2_bounds(bpss);
    lemma_exp2_bounds(spcs);
    lemma_exp2_bounds(bpss + spcs);
    let bps = exp2(bpss);
    let fat = spec_le_u32(b, 80) as int;
    assert(0 <= fat * bps <= 0xffff_ffff * 0x1000) by (nonlinear_arith)
        requires
            0 <= fat <= 0xffff_ffff,
            0 <= bps <= 0x1000,
    ;
    assert(bps * exp2(spcs) == exp2(bpss + spcs));
    assert((byte_at(b, 108) + byte_at(b, 109)) as nat == bpss + spcs);
    let heap = spec_le_u32(b, 88) as int;
    assert(0 <= heap * bps <= 0xffff_ffff * 0x1000) by (nonlinear_arith)
        requires
            0 <= heap <= 0xffff_ffff,
            0 <= bps <= 0x1000,
    ;
}

/// The error an exFAT boot fault is reported as.
pub open spec fn exfat_fault_error(f: ExfatFault) -> SpecFatError {
    match f {
        ExfatFault::Signature(sig) => SpecFatError::NotFat(
            "boot signature "@ + hex_chars(sig as nat, 4) + " at offset 0x1FE, expected 0x55AA"@,
        ),
        ExfatFault::Name => SpecFatError::NotFat("no EXFAT file-system name at offset 0x03"@),
        ExfatFault::SectorShift(v) => SpecFatError::InvalidBoot(
            "bytes-per-sector shift "@ + dec_chars(v as nat) + " is outside 9..=12"@,
        ),
        ExfatFault::ClusterShift(v) => SpecFatError::InvalidBoot(
            "sectors-per-cluster shift "@ + dec_chars(v as nat) + " makes a cluster above 32 MiB"@,
        ),
        ExfatFault::FatCount(v) => SpecFatError::InvalidBoot(
            "number of FATs "@ + dec_chars(v as nat) + " is not 1 or 2"@,
        ),
        ExfatFault::RootCluster(c) => SpecFatError::InvalidBoot(
            "root directory cluster "@ + dec_chars(c as nat) + " is outside the cluster heap"@,
        ),
    }
}

fn exfat_fault_to_error(f: ExfatFault) -> (e: FatError)
    ensures
        e@ == exfat_fault_error(f),
{
    match f {
        ExfatFault::Signature(sig) => {
            let mut s = String::from_str("boot signature ");
            push_hex(&mut s, sig as u64, 4);
            s.append(" at offset 0x1FE, expected 0x55AA");
            FatError::NotFat(s)
        },
        ExfatFault::Name => FatError::NotFat(
            String::from_str("no EXFAT file-system name at offset 0x03"),
        ),
        ExfatFault::SectorShift(v) => {
            let mut s = String::from_str("bytes-per-sector shift ");
            push_dec(&mut s, v as u64);
            s.append(" is outside 9..=12");
            FatError::InvalidBoot(s)
        },
        ExfatFault::ClusterShift(v) => {
            let mut s = String::from_str("sectors-per-cluster shift ");
            push_dec(&mut s, v as u64);
            s.append(" makes a cluster above 32 MiB");
            FatError::InvalidBoot(s)
        },
        ExfatFault::FatCount(v) => {
            let mut s = String::from_str("number of FATs ");
            push_dec(&mut s, v as u64);
            s.append(" is not 1 or 2");
            FatError::InvalidBoot(s)
        },
        ExfatFault::RootCluster(c) => {
            let mut s = String::from_str("root directory cluster ");
            push_dec(&mut s, c as u64);
            s.append(" is outside the cluster heap");
            FatError::InvalidBoot(s)
        },
    }
}

/// Parse and validate an exFAT main boot sector.
pub fn parse_exfat_boot(boot: &[u8]) -> (r: Result<Geometry, FatError>)
    ensures
        match exfat_boot_fault(boot@) {
            None => r == Ok::<Geometry, FatError>(exfat_geometry(boot@)),
            Some(f) => r matches Err(e) && e@ == exfat_fault_error(f),
        },
        r matches Ok(g) ==> 512 <= g.cluster_size <= 0x200_0000,
        r matches Ok(g) ==> g.data_start <= 0xffff_ffff * 0x1000,
{
    let sig = le_u16(boot, 510);
    if sig != 0xAA55 {
        return Err(exfat_fault_to_error(ExfatFault::Signature(sig)));
    }
    if !is_exfat_name(boot) {
        return Err(exfat_fault_to_error(ExfatFault::Name));
    }
    let bpss = u8_at(boot, 108);
    if !(9 <= bpss && bpss <= 12) {
        return Err(exfat_fault_to_error(ExfatFault::SectorShift(bpss)));
    }
    let spcs = u8_at(boot, 109);
    if spcs > 25 - bpss {
        return Err(exfat_fault_to_error(ExfatFault::ClusterShift(spcs)));
    }
    let num_fats = u8_at(boot, 110);
    if !(num_fats == 1 || num_fats == 2) {
        return Err(exfat_fault_to_error(ExfatFault::FatCount(num_fats)));
    }
    let count = le_u32(boot, 92);
    let root = le_u32(boot, 96);
    if root < 2 || root as u64 > count as u64 + 1 {
        return Err(exfat_fault_to_error(ExfatFault::RootCluster(root)));
    }
    let bps = pow2(bpss);
    let spc = pow2(spcs);
    proof {
        lemma_exp2_add(bpss as nat, spcs as nat);
        lemma_exp2_monotone((bpss + spcs) as nat, 25);
        lemma_exp2_monotone(9, bpss as nat);
        lemma_exp2_monotone(0, spcs as nat);
        reveal_with_fuel(exp2, 26);
    }
    let fat_offset = le_u32(boot, 80);
    let heap = le_u32(boot, 88);
    assert(512 <= bps * spc) by (nonlinear_arith)
        requires
            512 <= bps,
            1 <= spc,
    ;
    assert(fat_offset as u64 * bps <= 0xffff_ffff * 0x1000) by (nonlinear_arith)
        requires
            bps <= 0x1000,
    ;
    assert(heap as u64 * bps <= 0xffff_ffff * 0x1000) by (nonlinear_arith)
        requires
            bps <= 0x1000,
    ;
    Ok(
        Geometry {
            variant: FatVariant::ExFat,
            bytes_per_sector: bps as u32,
            sectors_per_cluster: spc as u32,
            cluster_size: (bps * spc) as u32,
            reserved_sectors: fat_offset,
            num_fats,
            root_entry_count: 0,
            total_sectors: le_u64(boot, 72),
            fat_size_sectors: le_u32(boot, 84),
            count_of_clusters: count,
            root_cluster: root,
            fat_start: fat_offset as u64 * bps,
            root_dir_start: 0,
            root_dir_bytes: 0,
            data_start: heap as u64 * bps,
        },
    )
}

/// Whether boot-region byte `i` is left out of the checksum (VolumeFlags and
/// PercentInUse).
pub open spec fn checksum_excluded(i: int) -> bool {
    i == 106 || i == 107 || i == 112
}

/// One checksum step: rotate right by one bit, then add the byte (mod 2^32).
pub open spec fn checksum_step(c: u32, b: u8) -> u32 {
    (((if c % 2 == 1 { 0x8000_0000int } else { 0int }) + c / 2 + b) % 0x1_0000_0000) as u32
}

/// The checksum over the first `n` bytes of `s`.
pub open spec fn checksum_upto(s: Seq<u8>, n: nat) -> u32
    decreases n,
{
    if n == 0 {
        0
    } else {
        let c = checksum_upto(s, (n - 1) as nat);
        if checksum_excluded(n - 1) {
            c
        } else {
            checksum_step(c, s[n - 1])
        }
    }
}

/// The boot-region checksum of `region` for a `bytes_per_sector` sector size:
/// over the first 11 sectors (or as much of them as `region` holds).
pub open spec fn boot_checksum_spec(region: Seq<u8>, bytes_per_sector: u32) -> u32 {
    let n = 11 * bytes_per_sector;
    checksum_upto(region, if region.len() < n { region.len() } else { n as nat })
}

/// exFAT boot-region checksum over the first 11 sectors of `region`.
pub fn boot_checksum(region: &[u8], bytes_per_sector: u32) -> (r: u32)
    ensures
        r == boot_checksum_spec(region@, bytes_per_sector),
{
    let want: u64 = 11 * (bytes_per_sector as u64);
    let n: usize = if (region.len() as u64) < want {
        region.len()
    } else {
        want as usize
    };
    let mut c: u32 = 0;
    let mut i: usize = 0;
    while i < n
        invariant
            i <= n <= region@.len(),
            c == checksum_upto(region@, i as nat),
        decreases n - i,
    {
        if !(i == 106 || i == 107 || i == 112) {
            let rot: u64 = if c % 2 == 1 {
                0x8000_0000
            } else {
                0
            };
            let sum: u64 = rot + (c / 2) as u64 + region[i] as u64;
            c = if sum >= 0x1_0000_0000 {
                (sum - 0x1_0000_0000) as u32
            } else {
                sum as u32
            };
        }
        i = i + 1;
    }
    c
}

proof fn lemma_checksum_agree(s: Seq<u8>, t: Seq<u8>, n: nat)
    requires
        n <= s.len(),
        n <= t.len(),
        forall|i: int| 0 <= i < n && !checksum_excluded(i) ==> s[i] == t[i],
    ensures
        checksum_upto(s, n) == checksum_upto(t, n),
    decreases n,
{
    if n > 0 {
        lemma_checksum_agree(s, t, (n - 1) as nat);
    }
}

/// The boot checksum ignores VolumeFlags (bytes 106, 107) and PercentInUse
/// (byte 112): overwriting one of them leaves the checksum unchanged.
pub proof fn lemma_checksum_ignores_excluded(
    region: Seq<u8>,
    bytes_per_sector: u32,
    k: int,
    b: u8,
)
    requires
        checksum_excluded(k),
        0 <= k < region.len(),
    ensures
        boot_checksum_spec(region.update(k, b), bytes_per_sector) == boot_checksum_spec(
            region,
            bytes_per_sector,
        ),
{
    let n = 11 * bytes_per_sector;
    let m = if region.len() < n { region.len() } else { n as nat };
    lemma_checksum_agree(region.update(k, b), region, m);
}

} // verus!
