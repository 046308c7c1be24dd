//! FAT table access: decode a cluster's next-pointer, classify end-of-chain /
//! bad / free markers, and follow a cluster chain under a hard cap that
//! defeats cycles and runaway allocation.
use vstd::prelude::*;
use crate::boot::FatVariant;
use crate::bytes::{le_u16, le_u32, spec_le_u16, spec_le_u32};

verus! {

/// The next-pointer stored for `cluster` in the FAT bytes `fat`.
///
/// FAT12 packs two 12-bit entries into three bytes (an odd cluster takes the
/// high 12 bits of the 16-bit word at `cluster * 3 / 2`, an even one the low
/// 12 bits); FAT16 entries are 16-bit; FAT32 entries are 32-bit masked to 28
/// bits; exFAT entries are full 32-bit values. Out-of-range reads yield 0.
pub open spec fn fat_entry_spec(fat: Seq<u8>, variant: FatVariant, cluster: u32) -> u32 {
    match variant {
        FatVariant::Fat12 => {
            let w = spec_le_u16(fat, cluster + cluster / 2);
            if cluster % 2 == 1 {
                (w / 16) as u32
            } else {
                (w % 0x1000) as u32
            }
        },
        FatVariant::Fat16 => spec_le_u16(fat, 2 * cluster) as u32,
        FatVariant::Fat32 => spec_le_u32(fat, 4 * cluster) % 0x1000_0000,
        FatVariant::ExFat => spec_le_u32(fat, 4 * cluster),
    }
}

/// Whether `value` is an end-of-chain marker for `variant`.
pub open spec fn is_eoc_spec(variant: FatVariant, value: u32) -> bool {
    match variant {
        FatVariant::Fat12 => value >= 0xFF8,
        FatVariant::Fat16 => value >= 0xFFF8,
        FatVariant::Fat32 => value >= 0x0FFF_FFF8,
        FatVariant::ExFat => value >= 0xFFFF_FFF8,
    }
}

/// Whether `value` is the bad-cluster marker for `variant`.
pub open spec fn is_bad_spec(variant: FatVariant, value: u32) -> bool {
    match variant {
        FatVariant::Fat12 => value == 0xFF7,
        FatVariant::Fat16 => value == 0xFFF7,
        FatVariant::Fat32 => value == 0x0FFF_FFF7,
        FatVariant::ExFat => value == 0xFFFF_FFF7,
    }
}

/// Whether a chain stops after a cluster whose next-pointer is `next`: a free
/// or reserved value (below 2), end-of-chain, or the bad-cluster marker.
pub open spec fn chain_ends(variant: FatVariant, next: u32) -> bool {
    next < 2 || is_eoc_spec(variant, next) || is_bad_spec(variant, next)
}

/// The next-pointer the chain walk reads for `cluster`: the FAT entry itself
/// for FAT12, FAT32 and exFAT; for FAT16 the 16-bit word at byte
/// `4 * cluster` (the walk steps through FAT16 tables with a 4-byte stride,
/// unlike the 2-byte layout [`fat_entry_spec`] decodes).
pub open spec fn chain_next_spec(fat: Seq<u8>, variant: FatVariant, cluster: u32) -> u32 {
    match variant {
        FatVariant::Fat16 => spec_le_u16(fat, 4 * cluster) as u32,
        _ => fat_entry_spec(fat, variant, cluster),
    }
}

/// The cluster chain from `start`, at most `max` clusters long.
pub open spec fn chain_spec(fat: Seq<u8>, variant: FatVariant, start: u32, max: nat) -> Seq<u32>
    decreases max,
{
    if max == 0 {
        Seq::empty()
    } else {
        let next = chain_next_spec(fat, variant, start);
        if chain_ends(variant, next) {
            seq![start]
        } else {
            seq![start] + chain_spec(fat, variant, next, (max - 1) as nat)
        }
    }
}

/// The 16-bit little-endian word at a 64-bit offset (0 when out of range).
fn word16_at(data: &[u8], off: u64) -> (r: u16)
    ensures
        r == spec_le_u16(data@, off as int),
{
    if off >= data.len() as u64 {
        0
    } else {
        le_u16(data, off as usize)
    }
}

/// The 32-bit little-endian word at a 64-bit offset (0 when out of range).
fn word32_at(data: &[u8], off: u64) -> (r: u32)
    ensures
        r == spec_le_u32(data@, off as int),
{
    if off >= data.len() as u64 {
        0
    } else {
        le_u32(data, off as usize)
    }
}

/// Decode the FAT entry for `cluster`.
pub fn fat_entry(fat: &[u8], variant: FatVariant, cluster: u32) -> (r: u32)
    ensures
        r == fat_entry_spec(fat@, variant, cluster),
{
    match variant {
        FatVariant::Fat12 => {
            let c = cluster as u64;
            let w = word16_at(fat, c + c / 2);
            if cluster % 2 == 1 {
                (w / 16) as u32
            } else {
                (w % 0x1000) as u32
            }
        },
        FatVariant::Fat16 => word16_at(fat, 2 * (cluster as u64)) as u32,
        FatVariant::Fat32 => word32_at(fat, 4 * (cluster as u64)) % 0x1000_0000,
        FatVariant::ExFat => word32_at(fat, 4 * (cluster as u64)),
    }
}

/// The next-pointer the chain walk reads for `cluster` (see
/// [`chain_next_spec`]).
pub fn chain_next(fat: &[u8], variant: FatVariant, cluster: u32) -> (r: u32)
    ensures
        r == chain_next_spec(fat@, variant, cluster),
{
    match variant {
        FatVariant::Fat16 => word16_at(fat, 4 * (cluster as u64)) as u32,
        _ => fat_entry(fat, variant, cluster),
    }
}

/// Whether `value` marks the end of a chain.
pub fn is_eoc(variant: FatVariant, value: u32) -> (r: bool)
    ensures
        r == is_eoc_spec(variant, value),
{
    match variant {
        FatVariant::Fat12 => value >= 0xFF8,
        FatVariant::Fat16 => value >= 0xFFF8,
        FatVariant::Fat32 => value >= 0x0FFF_FFF8,
        FatVariant::ExFat => value >= 0xFFFF_FFF8,
    }
}

/// Whether `value` marks a bad cluster.
pub fn is_bad(variant: FatVariant, value: u32) -> (r: bool)
    ensures
        r == is_bad_spec(variant, value),
{
    match variant {
        FatVariant::Fat12 => value == 0xFF7,
        FatVariant::Fat16 => value == 0xFFF7,
        FatVariant::Fat32 => value == 0x0FFF_FFF7,
        FatVariant::ExFat => value == 0xFFFF_FFF7,
    }
}

/// Follow the chain from `start`, stopping at a free/reserved, end-of-chain or
/// bad marker, or after `max` clusters (so a cyclic FAT cannot hang the walk).
pub fn follow_chain(fat: &[u8], variant: FatVariant, start: u32, max: usize) -> (r: Vec<u32>)
    ensures
        r@ == chain_spec(fat@, variant, start, max as nat),
{
    let mut out: Vec<u32> = Vec::new();
    let mut cur = start;
    let mut done = false;
    while !done && out.len() < max
        invariant
            out.len() <= max,
            !done ==> out@ + chain_spec(fat@, variant, cur, (max - out.len()) as nat) == chain_spec(
                fat@,
                variant,
                start,
                max as nat,
            ),
            done ==> out@ == chain_spec(fat@, variant, start, max as nat),
        decreases max - out.len(),
    {
        let ghost before = out@;
        out.push(cur);
        let next = chain_next(fat, variant, cur);
        if next < 2 || is_eoc(variant, next) || is_bad(variant, next) {
            done = true;
            proof {
                assert(before + seq![cur] =~= out@);
            }
        } else {
            let ghost old_cur = cur;
            cur = next;
            proof {
                let rest = chain_spec(fat@, variant, cur, (max - out.len()) as nat);
                assert(before + (seq![old_cur] + rest) =~= out@ + rest);
            }
        }
    }
    proof {
        if !done {
            assert(out@ + Seq::<u32>::empty() =~= out@);
        }
    }
    out
}

/// FAT12 packs each pair of 12-bit entries `2p` and `2p + 1` into the three
/// bytes at `3p`: entry `2p` is the first byte plus the low nibble of the
/// second (as bits 8..12), entry `2p + 1` the high nibble of the second plus
/// the third byte (as bits 4..12).
pub proof fn lemma_fat12_packing(fat: Seq<u8>, p: u32)
    requires
        p < 0x8000_0000,
        3 * p + 2 < fat.len(),
    ensures
        fat_entry_spec(fat, FatVariant::Fat12, (2 * p) as u32) == fat[3 * p] + (fat[3 * p + 1] % 16)
            * 0x100,
        fat_entry_spec(fat, FatVariant::Fat12, (2 * p + 1) as u32) == fat[3 * p + 1] / 16 + fat[3
            * p + 2] * 0x10,
{
    let a = fat[3 * p] as int;
    let m = fat[3 * p + 1] as int;
    let c = fat[3 * p + 2] as int;
    let even = (2 * p) as u32;
    let odd = (2 * p + 1) as u32;
    assert(even + even / 2 == 3 * p);
    assert(odd + odd / 2 == 3 * p + 1);
    assert(even % 2 == 0 && odd % 2 == 1);
    assert((a + m * 0x100) % 0x1000 == a + (m % 16) * 0x100);
    assert((m + c * 0x100) / 16 == m / 16 + c * 0x10);
}

/// FAT16 entries are the 16-bit little-endian words at `2 * cluster`, FAT32
/// entries the 32-bit little-endian words at `4 * cluster` with their top four
/// bits dropped, and exFAT entries the whole 32-bit words at `4 * cluster`.
pub proof fn lemma_wide_fat_entries(fat: Seq<u8>, c: u32)
    ensures
        2 * c + 1 < fat.len() ==> fat_entry_spec(fat, FatVariant::Fat16, c) == fat[2 * c] + fat[2
            * c + 1] * 0x100,
        4 * c + 3 < fat.len() ==> fat_entry_spec(fat, FatVariant::Fat32, c) == fat[4 * c] + fat[4
            * c + 1] * 0x100 + fat[4 * c + 2] * 0x1_0000 + (fat[4 * c + 3] % 16) * 0x100_0000,
        4 * c + 3 < fat.len() ==> fat_entry_spec(fat, FatVariant::ExFat, c) == fat[4 * c] + fat[4
            * c + 1] * 0x100 + fat[4 * c + 2] * 0x1_0000 + fat[4 * c + 3] * 0x100_0000,
{
    if 4 * c + 3 < fat.len() {
        let x = fat[4 * c] + fat[4 * c + 1] * 0x100 + fat[4 * c + 2] * 0x1_0000;
        let t = fat[4 * c + 3] as int;
        assert(0 <= x < 0x100_0000);
        assert((x + t * 0x100_0000) % 0x1000_0000 == x + (t % 16) * 0x100_0000);
    }
}

/// The chain from `start` is at most `max` clusters, begins at `start`, links
/// each cluster to the next through the next-pointer the walk reads, never continues past a
/// free, end-of-chain or bad marker, and stops early only at such a marker.
pub proof fn lemma_chain_shape(fat: Seq<u8>, variant: FatVariant, start: u32, max: nat)
    ensures
        ({
            let c = chain_spec(fat, variant, start, max);
            &&& c.len() <= max
            &&& max > 0 ==> c.len() > 0 && c[0] == start
            &&& forall|i: int|
                0 <= i < c.len() - 1 ==> #[trigger] c[i + 1] == chain_next_spec(fat, variant, c[i])
                    && !chain_ends(variant, c[i + 1])
            &&& 0 < c.len() < max ==> chain_ends(
                variant,
                chain_next_spec(fat, variant, c[c.len() - 1]),
            )
        }),
    decreases max,
{
    if max > 0 {
        let next = chain_next_spec(fat, variant, start);
        if !chain_ends(variant, next) {
            lemma_chain_shape(fat, variant, next, (max - 1) as nat);
            let c = chain_spec(fat, variant, start, max);
            let rest = chain_spec(fat, variant, next, (max - 1) as nat);
            assert forall|i: int| 0 <= i < c.len() - 1 implies #[trigger] c[i + 1]
                == chain_next_spec(fat, variant, c[i]) && !chain_ends(variant, c[i + 1]) by {
                assert(c[i + 1] == rest[i]);
                if i > 0 {
                    assert(c[i] == rest[i - 1]);
                    assert(rest[(i - 1) + 1] == chain_next_spec(fat, variant, rest[i - 1]));
                }
            }
        }
    }
}

} // verus!
