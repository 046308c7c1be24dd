//! FAT12/16/32 directory entries: 32-byte short (8.3) records and VFAT
//! long-name (LFN) reassembly bound to the short entry by its checksum.
//!
//! Deleted entries (first byte `0xE5`) are surfaced with `deleted = true` for
//! recovery rather than dropped; the first byte `0x00` ends the directory.
use vstd::prelude::*;
use crate::bytes::{byte_at, le_u16, le_u32, spec_le_u16, spec_le_u32};
use crate::text::{char_from_u32, push_char};

verus! {

/// Volume-label attribute bit.
pub const ATTR_VOLUME_ID: u8 = 0x08;
/// Directory attribute bit.
pub const ATTR_DIRECTORY: u8 = 0x10;
/// Attribute value (low six bits) of a VFAT long-name slot.
pub const ATTR_LFN: u8 = 0x0F;
/// First-byte marker of a deleted entry.
pub const DELETED_MARK: u8 = 0xE5;
/// Most slots a directory can address (slot indices are 16-bit).
pub const MAX_DIR_SLOTS: usize = 65536;

/// One decoded directory entry (a short entry plus its long name, if any).
#[derive(Debug)]
pub struct DirEntry {
    /// 32-byte slot index of the short entry (exFAT: of the File entry)
    /// within its directory.
    pub index: u16,
    /// Effective name: the long name when one is bound, else the 8.3 name.
    pub name: String,
    /// The 8.3 short name (`BASE.EXT`); empty on exFAT, which has none.
    pub short_name: String,
    /// Whether the directory attribute is set (and this is not a label).
    pub is_dir: bool,
    /// Whether the entry is deleted (first byte `0xE5`).
    pub deleted: bool,
    /// Whether this is the volume-label entry.
    pub is_volume_label: bool,
    /// Raw attribute byte.
    pub attributes: u8,
    /// First cluster (high word at 20, low word at 26).
    pub first_cluster: u32,
    /// File size in bytes.
    pub size: u64,
    /// Whether the data is one contiguous cluster run that bypasses the FAT
    /// (exFAT `NoFatChain`; never set on FAT12/16/32).
    pub no_fat_chain: bool,
    /// Creation (date, time, tenths of 10 ms).
    pub created: (u16, u16, u8),
    /// Last modification (date, time).
    pub modified: (u16, u16),
    /// Last access date.
    pub accessed: u16,
}

/// The content of a [`DirEntry`], names as character sequences.
pub struct SpecDirEntry {
    pub index: u16,
    pub name: Seq<char>,
    pub short_name: Seq<char>,
    pub is_dir: bool,
    pub deleted: bool,
    pub is_volume_label: bool,
    pub attributes: u8,
    pub first_cluster: u32,
    pub size: u64,
    pub no_fat_chain: bool,
    pub created: (u16, u16, u8),
    pub modified: (u16, u16),
    pub accessed: u16,
}

impl View for DirEntry {
    type V = SpecDirEntry;

    open spec fn view(&self) -> SpecDirEntry {
        SpecDirEntry {
            index: self.index,
            name: self.name@,
            short_name: self.short_name@,
            is_dir: self.is_dir,
            deleted: self.deleted,
            is_volume_label: self.is_volume_label,
            attributes: self.attributes,
            first_cluster: self.first_cluster,
            size: self.size,
            no_fat_chain: self.no_fat_chain,
            created: self.created,
            modified: self.modified,
            accessed: self.accessed,
        }
    }
}

/// A long name being assembled: the UTF-16 units collected so far (in name
/// order), the short-name checksum every slot must carry, and the sequence
/// number the next slot must have (0 once complete).
pub struct LfnRun {
    pub units: Seq<u16>,
    pub checksum: u8,
    pub next: u8,
}

/// Whether attribute bit `bit` (a power of two) is set in `a`.
pub open spec fn has_attr(a: u8, bit: int) -> bool {
    (a as int / bit) % 2 == 1
}

/// Whether the slot at byte `base` is a long-name slot.
pub open spec fn slot_is_lfn(b: Seq<u8>, base: int) -> bool {
    byte_at(b, base + 11) % 64 == 15
}

/// Byte offset (within a slot) of the `j`-th UTF-16 unit of a long-name slot.
pub open spec fn lfn_offset(j: int) -> int {
    if j < 5 {
        1 + 2 * j
    } else if j < 11 {
        14 + 2 * (j - 5)
    } else {
        28 + 2 * (j - 11)
    }
}

/// The 13 UTF-16 units of the long-name slot at byte `base`.
pub open spec fn slot_units(b: Seq<u8>, base: int) -> Seq<u16> {
    Seq::new(13, |j: int| spec_le_u16(b, base + lfn_offset(j)))
}

/// VFAT short-name checksum over the first `n` of the 11 name bytes at `base`:
/// rotate right by one bit, then add the byte (mod 256).
pub open spec fn name_checksum_upto(b: Seq<u8>, base: int, n: nat) -> u8
    decreases n,
{
    if n == 0 {
        0
    } else {
        let s = name_checksum_upto(b, base, (n - 1) as nat);
        (((if s % 2 == 1 { 128int } else { 0int }) + s / 2 + byte_at(b, base + n - 1)) % 256) as u8
    }
}

/// The long-name state after the long-name slot at byte `base`.
///
/// A deleted slot breaks any run; a slot flagged "last" (bit 0x40) with a
/// sequence number 1..=20 starts a run; any other slot continues the run only
/// when it carries the expected sequence number and the same checksum.
pub open spec fn lfn_step(p: Option<LfnRun>, b: Seq<u8>, base: int) -> Option<LfnRun> {
    let ord = byte_at(b, base);
    let seq_no = ord % 32;
    let cks = byte_at(b, base + 13);
    if ord == DELETED_MARK {
        None
    } else if (ord / 64) % 2 == 1 {
        if 1 <= seq_no <= 20 {
            Some(LfnRun { units: slot_units(b, base), checksum: cks, next: (seq_no - 1) as u8 })
        } else {
            None
        }
    } else {
        match p {
            Some(run) => {
                if run.next >= 1 && seq_no == run.next && cks == run.checksum {
                    Some(
                        LfnRun {
                            units: slot_units(b, base) + run.units,
                            checksum: run.checksum,
                            next: (seq_no - 1) as u8,
                        },
                    )
                } else {
                    None
                }
            },
            None => None,
        }
    }
}

/// Number of units before the first NUL (all of them when there is none).
pub open spec fn nul_len(u: Seq<u16>) -> nat
    decreases u.len(),
{
    if u.len() == 0 || u[0] == 0 {
        0
    } else {
        1 + nul_len(u.skip(1))
    }
}

/// Lossy UTF-16 decode: a valid surrogate pair becomes one supplementary
/// character; an unpaired surrogate becomes U+FFFD.
pub open spec fn decode_utf16(u: Seq<u16>) -> Seq<char>
    decreases u.len(),
{
    if u.len() == 0 {
        Seq::empty()
    } else if 0xD800 <= u[0] <= 0xDBFF && u.len() >= 2 && 0xDC00 <= u[1] <= 0xDFFF {
        seq![
            ((0x10000 + (u[0] - 0xD800) * 0x400 + (u[1] - 0xDC00)) as u32) as char,
        ] + decode_utf16(u.skip(2))
    } else if 0xD800 <= u[0] <= 0xDFFF {
        seq!['\u{FFFD}'] + decode_utf16(u.skip(1))
    } else {
        seq![(u[0] as u32) as char] + decode_utf16(u.skip(1))
    }
}

/// The long name spelled by a run's units (up to the NUL terminator).
pub open spec fn lfn_name(u: Seq<u16>) -> Seq<char> {
    decode_utf16(u.take(nul_len(u) as int))
}

/// Length of the `n` bytes at `start` without trailing spaces.
pub open spec fn trim_len(b: Seq<u8>, start: int, n: nat) -> nat
    decreases n,
{
    if n > 0 && byte_at(b, start + n - 1) == 0x20 {
        trim_len(b, start, (n - 1) as nat)
    } else {
        n
    }
}

/// The character shown for the first name byte: `?` for a deleted entry (the
/// original character is gone), `0xE5` for the `0x05` escape.
pub open spec fn first_name_char(x: u8) -> char {
    if x == DELETED_MARK {
        '?'
    } else if x == 0x05 {
        0xE5u8 as char
    } else {
        x as char
    }
}

/// The `len` name bytes at `start` as characters (one per byte); when `first`
/// holds, the first byte is shown through [`first_name_char`].
pub open spec fn oem_run(b: Seq<u8>, start: int, len: nat, first: bool) -> Seq<char> {
    Seq::new(
        len,
        |k: int|
            if first && k == 0 {
                first_name_char(byte_at(b, start))
            } else {
                byte_at(b, start + k) as char
            },
    )
}

/// The 8.3 name of the short slot at `base`: `BASE` or `BASE.EXT`, trailing
/// spaces removed.
pub open spec fn short_name_spec(b: Seq<u8>, base: int) -> Seq<char> {
    let bl = trim_len(b, base, 8);
    let el = trim_len(b, base + 8, 3);
    oem_run(b, base, bl, true) + if el > 0 {
        seq!['.'] + oem_run(b, base + 8, el, false)
    } else {
        Seq::empty()
    }
}

/// The name of a volume-label slot at `base`: all 11 bytes, trailing spaces
/// removed.
pub open spec fn label_name_spec(b: Seq<u8>, base: int) -> Seq<char> {
    oem_run(b, base, trim_len(b, base, 11), true)
}

/// Whether the pending run `p` names the short slot at `base`: complete,
/// checksum-bound, the slot not deleted, and a non-empty name.
pub open spec fn long_name_bound(p: Option<LfnRun>, b: Seq<u8>, base: int) -> bool {
    match p {
        Some(run) => run.next == 0 && run.checksum == name_checksum_upto(b, base, 11)
            && byte_at(b, base) != DELETED_MARK && lfn_name(run.units).len() > 0,
        None => false,
    }
}

/// The entry decoded from the short slot `i` (byte `32 * i`) with the pending
/// long-name state `p`.
pub open spec fn entry_spec(b: Seq<u8>, i: int, p: Option<LfnRun>) -> SpecDirEntry {
    let base = 32 * i;
    let attr = byte_at(b, base + 11);
    let label = has_attr(attr, 8);
    let short = if label { label_name_spec(b, base) } else { short_name_spec(b, base) };
    SpecDirEntry {
        index: i as u16,
        name: if !label && long_name_bound(p, b, base) { lfn_name(p->0.units) } else { short },
        short_name: short,
        is_dir: has_attr(attr, 16) && !label,
        deleted: byte_at(b, base) == DELETED_MARK,
        is_volume_label: label,
        attributes: attr,
        first_cluster: (spec_le_u16(b, base + 20) * 0x1_0000 + spec_le_u16(b, base + 26)) as u32,
        size: spec_le_u32(b, base + 28) as u64,
        no_fat_chain: false,
        created: (spec_le_u16(b, base + 16), spec_le_u16(b, base + 14), byte_at(b, base + 13)),
        modified: (spec_le_u16(b, base + 24), spec_le_u16(b, base + 22)),
        accessed: spec_le_u16(b, base + 18),
    }
}

/// State of a directory scan: the pending long-name run, the entries decoded
/// so far, and whether the end marker was met.
pub struct ScanState {
    pub pending: Option<LfnRun>,
    pub entries: Seq<SpecDirEntry>,
    pub ended: bool,
}

/// The scan state after the first `n` slots.
pub open spec fn scan(b: Seq<u8>, n: nat) -> ScanState
    decreases n,
{
    if n == 0 {
        ScanState { pending: None, entries: Seq::empty(), ended: false }
    } else {
        let st = scan(b, (n - 1) as nat);
        let base = 32 * (n - 1);
        if st.ended {
            st
        } else if byte_at(b, base) == 0 {
            ScanState { pending: st.pending, entries: st.entries, ended: true }
        } else if slot_is_lfn(b, base) {
            ScanState { pending: lfn_step(st.pending, b, base), entries: st.entries, ended: false }
        } else {
            ScanState {
                pending: None,
                entries: st.entries.push(entry_spec(b, n - 1, st.pending)),
                ended: false,
            }
        }
    }
}

/// Number of whole slots scanned (at most [`MAX_DIR_SLOTS`]).
pub open spec fn slot_count(b: Seq<u8>) -> nat {
    let n = b.len() / 32;
    if n < MAX_DIR_SLOTS { n } else { MAX_DIR_SLOTS as nat }
}

/// The entries of the raw directory bytes `b`.
pub open spec fn parse_directory_spec(b: Seq<u8>) -> Seq<SpecDirEntry> {
    scan(b, slot_count(b)).entries
}

/// Once the end marker is met, further slots change nothing.
proof fn lemma_scan_ended(b: Seq<u8>, k: nat, m: nat)
    requires
        k <= m,
        scan(b, k).ended,
    ensures
        scan(b, m) == scan(b, k),
    decreases m,
{
    if m > k {
        lemma_scan_ended(b, k, (m - 1) as nat);
    }
}

/// Entries are produced in slot order with their own slot index, one per
/// short slot, so every index is below the scanned slot count and strictly
/// increasing.
pub proof fn lemma_scan_indices(b: Seq<u8>, n: nat)
    requires
        n <= MAX_DIR_SLOTS,
    ensures
        forall|j: int|
            0 <= j < scan(b, n).entries.len() ==> (#[trigger] scan(b, n).entries[j]).index < n,
        forall|j: int, k: int|
            0 <= j < k < scan(b, n).entries.len() ==> scan(b, n).entries[j].index < scan(
                b,
                n,
            ).entries[k].index,
    decreases n,
{
    if n > 0 {
        lemma_scan_indices(b, (n - 1) as nat);
    }
}

/// Scanning more slots only appends entries.
proof fn lemma_scan_prefix(b: Seq<u8>, n: nat, m: nat)
    requires
        n <= m,
    ensures
        scan(b, n).entries.len() <= scan(b, m).entries.len(),
        forall|j: int| 0 <= j < scan(b, n).entries.len() ==> #[trigger] scan(b, m).entries[j] == scan(
            b,
            n,
        ).entries[j],
    decreases m,
{
    if m > n {
        lemma_scan_prefix(b, n, (m - 1) as nat);
    }
}

/// No slot among the first `n` starts with the end marker `0x00`.
pub open spec fn open_through(b: Seq<u8>, n: nat) -> bool {
    forall|k: int| 0 <= k < n ==> byte_at(b, #[trigger] (32 * k)) != 0
}

/// Before the end marker the scan never stops.
proof fn lemma_scan_not_ended(b: Seq<u8>, n: nat)
    requires
        open_through(b, n),
    ensures
        !scan(b, n).ended,
    decreases n,
{
    if n > 0 {
        assert(byte_at(b, 32 * (n - 1)) != 0);
        lemma_scan_not_ended(b, (n - 1) as nat);
    }
}

/// Every short (non-long-name) slot before the end marker yields an entry
/// with its own slot index, deleted ones included: a deleted entry is kept
/// and flagged, never dropped.
pub proof fn lemma_short_slot_listed(b: Seq<u8>, i: nat)
    requires
        i < slot_count(b),
        open_through(b, i + 1),
        !slot_is_lfn(b, 32 * (i as int)),
    ensures
        exists|j: int|
            0 <= j < parse_directory_spec(b).len() && (#[trigger] parse_directory_spec(b)[j]).index
                == i && parse_directory_spec(b)[j].deleted == (byte_at(b, 32 * (i as int)) == DELETED_MARK),
{
    assert(open_through(b, i)) by {
        assert forall|k: int| 0 <= k < i implies byte_at(b, #[trigger] (32 * k)) != 0 by {
            assert(0 <= k < i + 1);
        }
    }
    lemma_scan_not_ended(b, i);
    assert(byte_at(b, 32 * (i as int)) != 0);
    let before = scan(b, i).entries;
    let after = scan(b, i + 1).entries;
    assert(after == before.push(entry_spec(b, i as int, scan(b, i).pending)));
    let j = before.len() as int;
    lemma_scan_prefix(b, i + 1, slot_count(b));
    let all = parse_directory_spec(b);
    assert(all[j] == after[j]);
    assert(all[j].index == i);
}

/// Whether the fields of `e` other than its names are those recorded in the
/// 32-byte short slot of its own index.
spec fn slot_fields_match(b: Seq<u8>, e: SpecDirEntry) -> bool {
    let base = 32 * (e.index as int);
    &&& e.attributes == byte_at(b, base + 11)
    &&& e.deleted == (byte_at(b, base) == DELETED_MARK)
    &&& e.first_cluster == (spec_le_u16(b, base + 20) * 0x1_0000 + spec_le_u16(b, base + 26)) as u32
    &&& e.size == spec_le_u32(b, base + 28) as u64
    &&& e.created == (spec_le_u16(b, base + 16), spec_le_u16(b, base + 14), byte_at(b, base + 13))
    &&& e.modified == (spec_le_u16(b, base + 24), spec_le_u16(b, base + 22))
    &&& e.accessed == spec_le_u16(b, base + 18)
    &&& !e.no_fat_chain
    &&& e.is_volume_label == ((byte_at(b, base + 11) as int / 8) % 2 == 1)
    &&& e.is_dir == ((byte_at(b, base + 11) as int / 16) % 2 == 1 && !e.is_volume_label)
    &&& byte_at(b, base) != 0
    &&& byte_at(b, base + 11) % 64 != 15
}

/// Every entry of a scan carries the fields of its own short slot.
proof fn lemma_scan_fields(b: Seq<u8>, n: nat)
    requires
        n <= MAX_DIR_SLOTS,
    ensures
        forall|j: int|
            0 <= j < scan(b, n).entries.len() ==> slot_fields_match(b, #[trigger] scan(b, n).entries[j]),
    decreases n,
{
    if n > 0 {
        lemma_scan_fields(b, (n - 1) as nat);
        let st = scan(b, (n - 1) as nat);
        let base = 32 * (n - 1);
        if !st.ended && byte_at(b, base) != 0 && !slot_is_lfn(b, base) {
            let e = entry_spec(b, n - 1, st.pending);
            assert(e.index == n - 1);
            assert(slot_fields_match(b, e));
        }
    }
}

/// Each decoded short entry reports what its own 32-byte slot records: the
/// attribute byte at 11, the deleted mark at 0, the first cluster from the
/// high word at 20 and the low word at 26, the size at 28, the creation date,
/// time and tenths at 16, 14 and 13, the last-write date and time at 24 and
/// 22, and the last-access date at 18 (all little-endian); the volume-label
/// flag is attribute bit 3 (`0x08`) and the directory flag attribute bit 4
/// (`0x10`) on an entry that is not the label. Only slots that neither start
/// with the end marker `0x00` nor carry the long-name attribute value (`0x0F`
/// in the low six bits) are listed.
pub proof fn lemma_entry_fields(b: Seq<u8>, j: int)
    requires
        0 <= j < parse_directory_spec(b).len(),
    ensures
        ({
            let e = parse_directory_spec(b)[j];
            let base = 32 * (e.index as int);
            &&& e.attributes == byte_at(b, base + 11)
            &&& e.deleted == (byte_at(b, base) == DELETED_MARK)
            &&& e.first_cluster == (spec_le_u16(b, base + 20) * 0x1_0000 + spec_le_u16(b, base + 26)) as u32
            &&& e.size == spec_le_u32(b, base + 28) as u64
            &&& e.created == (spec_le_u16(b, base + 16), spec_le_u16(b, base + 14), byte_at(b, base + 13))
            &&& e.modified == (spec_le_u16(b, base + 24), spec_le_u16(b, base + 22))
            &&& e.accessed == spec_le_u16(b, base + 18)
            &&& !e.no_fat_chain
            &&& e.is_volume_label == ((byte_at(b, base + 11) as int / 8) % 2 == 1)
            &&& e.is_dir == ((byte_at(b, base + 11) as int / 16) % 2 == 1 && !e.is_volume_label)
            &&& byte_at(b, base) != 0
            &&& byte_at(b, base + 11) % 64 != 15
        }),
{
    lemma_scan_fields(b, slot_count(b));
    assert(slot_fields_match(b, parse_directory_spec(b)[j]));
}

/// The UTF-16 units of the long-name slots with sequence numbers `lo..=hi`
/// before the short slot `i` (the slot with sequence number `k` lying `k`
/// slots before it), in name order: sequence number `lo` first.
pub open spec fn lfn_units_between(b: Seq<u8>, i: int, lo: int, hi: int) -> Seq<u16>
    decreases hi - lo + 1,
{
    if lo > hi {
        Seq::empty()
    } else {
        slot_units(b, 32 * (i - lo)) + lfn_units_between(b, i, lo + 1, hi)
    }
}

/// Whether the `n` slots before the short slot `i` form a long name for it:
/// the slot `k` places before it is a long-name slot with sequence number
/// `k` (flagged last, `0x40`, for `k == n`) carrying the checksum of the
/// short slot's 11 name bytes.
pub open spec fn long_name_slots(b: Seq<u8>, i: int, n: int) -> bool {
    &&& 1 <= n <= 20
    &&& n <= i
    &&& forall|k: int|
        1 <= k <= n ==> {
            &&& slot_is_lfn(b, #[trigger] (32 * (i - k)))
            &&& byte_at(b, 32 * (i - k)) == if k == n { 0x40 + k } else { k }
            &&& byte_at(b, 32 * (i - k) + 13) == name_checksum_upto(b, 32 * i, 11)
        }
}

/// While reading the long-name slots before slot `i`, the pending run after
/// the slot with sequence number `m` holds the units of slots `m..=n`.
proof fn lemma_long_name_progress(b: Seq<u8>, i: int, n: int, m: int)
    requires
        long_name_slots(b, i, n),
        1 <= m <= n,
        open_through(b, (i + 1) as nat),
    ensures
        !scan(b, (i - m + 1) as nat).ended,
        scan(b, (i - m + 1) as nat).pending == Some(
            LfnRun {
                units: lfn_units_between(b, i, m, n),
                checksum: name_checksum_upto(b, 32 * i, 11),
                next: (m - 1) as u8,
            },
        ),
    decreases n - m,
{
    let base = 32 * (i - m);
    assert(slot_is_lfn(b, base));
    assert(byte_at(b, 32 * (i - m)) == if m == n { 0x40 + m } else { m });
    assert(byte_at(b, 32 * (i - m) + 13) == name_checksum_upto(b, 32 * i, 11));
    let ord = byte_at(b, base);
    assert(byte_at(b, 32 * (i - m)) != 0);
    assert(lfn_units_between(b, i, m + 1, m) =~= Seq::<u16>::empty());
    if m == n {
        assert(open_through(b, (i - m) as nat)) by {
            assert forall|k: int| 0 <= k < i - m implies byte_at(b, #[trigger] (32 * k)) != 0 by {
                assert(0 <= k < i + 1);
            }
        }
        lemma_scan_not_ended(b, (i - m) as nat);
        assert(ord / 64 == 1 && ord % 32 == m);
        assert(lfn_units_between(b, i, m, n) =~= slot_units(b, base));
    } else {
        lemma_long_name_progress(b, i, n, m + 1);
        assert((i - (m + 1) + 1) as nat == (i - m) as nat);
        assert(ord / 64 == 0 && ord % 32 == m);
    }
}

/// A long name is assembled from its slots in sequence order: when the `n`
/// slots before an allocated short slot `i` (not a volume label) form its
/// long name, that entry is listed under the name their units spell, the
/// units of the slot with sequence number 1 (the one just before it) first.
pub proof fn lemma_long_name_assembled(b: Seq<u8>, i: int, n: int)
    requires
        0 <= i < slot_count(b),
        open_through(b, (i + 1) as nat),
        long_name_slots(b, i, n),
        !slot_is_lfn(b, 32 * i),
        byte_at(b, 32 * i) != DELETED_MARK,
        !has_attr(byte_at(b, 32 * i + 11), 8),
        lfn_name(lfn_units_between(b, i, 1, n)).len() > 0,
    ensures
        exists|j: int|
            0 <= j < parse_directory_spec(b).len() && (#[trigger] parse_directory_spec(b)[j]).index == i
                && parse_directory_spec(b)[j].name == lfn_name(lfn_units_between(b, i, 1, n)),
{
    lemma_long_name_progress(b, i, n, 1);
    assert(byte_at(b, 32 * i) != 0);
    let st = scan(b, i as nat);
    let before = st.entries;
    let after = scan(b, (i + 1) as nat).entries;
    let e = entry_spec(b, i, st.pending);
    assert(after == before.push(e));
    assert(long_name_bound(st.pending, b, 32 * i));
    let j = before.len() as int;
    lemma_scan_prefix(b, (i + 1) as nat, slot_count(b));
    let all = parse_directory_spec(b);
    assert(all[j] == after[j]);
    assert(all[j].index == i);
}

/// Trimming keeps the longest prefix of the `n` bytes that does not end in
/// a space.
proof fn lemma_trim_len(b: Seq<u8>, start: int, n: nat)
    ensures
        trim_len(b, start, n) <= n,
        forall|k: int| trim_len(b, start, n) <= k < n ==> byte_at(b, #[trigger] (start + k)) == 0x20,
        trim_len(b, start, n) > 0 ==> byte_at(b, start + trim_len(b, start, n) - 1) != 0x20,
    decreases n,
{
    if n > 0 && byte_at(b, start + n - 1) == 0x20 {
        lemma_trim_len(b, start, (n - 1) as nat);
    }
}

/// The 8.3 name of a short slot: the 8 base bytes with their trailing spaces
/// removed, one character per byte (the first shown as `?` when the entry is
/// deleted, and as U+00E5 for the `0x05` escape), then, when the 3 extension
/// bytes are not all spaces, a `.` and the extension bytes with their
/// trailing spaces removed.
pub proof fn lemma_short_name_shape(b: Seq<u8>, base: int)
    ensures
        ({
            let name = short_name_spec(b, base);
            let bl = trim_len(b, base, 8);
            let el = trim_len(b, base + 8, 3);
            &&& bl <= 8 && el <= 3
            &&& forall|k: int| bl <= k < 8 ==> byte_at(b, #[trigger] (base + k)) == 0x20
            &&& bl > 0 ==> byte_at(b, base + bl - 1) != 0x20
            &&& forall|k: int| 8 + el <= k < 11 ==> byte_at(b, #[trigger] (base + k)) == 0x20
            &&& el > 0 ==> byte_at(b, base + 8 + el - 1) != 0x20
            &&& name.len() == bl + if el > 0 { el + 1 } else { 0 }
            &&& bl > 0 ==> name[0] == first_name_char(byte_at(b, base))
            &&& forall|k: int| 1 <= k < bl ==> #[trigger] name[k] == byte_at(b, base + k) as char
            &&& el > 0 ==> name[bl as int] == '.'
            &&& forall|k: int| 0 <= k < el ==> #[trigger] name[bl + 1 + k] == byte_at(b, base + 8 + k) as char
        }),
{
    lemma_trim_len(b, base, 8);
    lemma_trim_len(b, base + 8, 3);
    let bl = trim_len(b, base, 8);
    let el = trim_len(b, base + 8, 3);
    assert forall|k: int| 8 + el <= k < 11 implies byte_at(b, #[trigger] (base + k)) == 0x20 by {
        assert(byte_at(b, (base + 8) + (k - 8)) == 0x20);
        assert((base + 8) + (k - 8) == base + k);
    }
}

/// Exec form of a pending long-name run.
pub struct LfnBuf {
    pub units: Vec<u16>,
    pub checksum: u8,
    pub next: u8,
}

impl View for LfnBuf {
    type V = LfnRun;

    open spec fn view(&self) -> LfnRun {
        LfnRun { units: self.units@, checksum: self.checksum, next: self.next }
    }
}

/// The view of an optional run.
pub open spec fn run_view(p: Option<LfnBuf>) -> Option<LfnRun> {
    match p {
        Some(r) => Some(r@),
        None => None,
    }
}

fn lfn_offset_exec(j: usize) -> (r: usize)
    requires
        j < 13,
    ensures
        r as int == lfn_offset(j as int),
        r <= 30,
{
    if j < 5 {
        1 + 2 * j
    } else if j < 11 {
        14 + 2 * (j - 5)
    } else {
        28 + 2 * (j - 11)
    }
}

/// The 13 UTF-16 units of the long-name slot at `base`.
fn read_slot_units(b: &[u8], base: usize) -> (r: Vec<u16>)
    requires
        base + 32 <= b@.len(),
    ensures
        r@ == slot_units(b@, base as int),
{
    proof {
        assert(b.len() == b@.len());
    }
    let mut out: Vec<u16> = Vec::new();
    let mut j: usize = 0;
    while j < 13
        invariant
            j <= 13,
            base + 32 <= b@.len() <= usize::MAX,
            out@.len() == j,
            forall|k: int| 0 <= k < j ==> out@[k] == spec_le_u16(b@, base + lfn_offset(k)),
        decreases 13 - j,
    {
        let off = lfn_offset_exec(j);
        out.push(le_u16(b, base + off));
        j = j + 1;
    }
    assert(out@ =~= slot_units(b@, base as int));
    out
}

/// Advance the long-name state over the long-name slot at `base`.
fn lfn_step_exec(p: Option<LfnBuf>, b: &[u8], base: usize) -> (r: Option<LfnBuf>)
    requires
        base + 32 <= b@.len(),
    ensures
        run_view(r) == lfn_step(run_view(p), b@, base as int),
{
    let ord = b[base];
    let seq_no = ord % 32;
    let cks = b[base + 13];
    if ord == DELETED_MARK {
        None
    } else if (ord / 64) % 2 == 1 {
        if 1 <= seq_no && seq_no <= 20 {
            Some(LfnBuf { units: read_slot_units(b, base), checksum: cks, next: seq_no - 1 })
        } else {
            None
        }
    } else {
        match p {
            Some(run) => {
                if run.next >= 1 && seq_no == run.next && cks == run.checksum {
                    let mut units = read_slot_units(b, base);
                    let mut rest = run.units;
                    units.append(&mut rest);
                    Some(LfnBuf { units, checksum: run.checksum, next: seq_no - 1 })
                } else {
                    None
                }
            },
            None => None,
        }
    }
}

/// VFAT checksum of the 11 short-name bytes at `base`.
fn name_checksum(b: &[u8], base: usize) -> (r: u8)
    requires
        base + 32 <= b@.len(),
    ensures
        r == name_checksum_upto(b@, base as int, 11),
{
    proof {
        assert(b.len() == b@.len());
    }
    let mut s: u8 = 0;
    let mut k: usize = 0;
    while k < 11
        invariant
            k <= 11,
            base + 32 <= b@.len() <= usize::MAX,
            s == name_checksum_upto(b@, base as int, k as nat),
        decreases 11 - k,
    {
        let rot: u32 = if s % 2 == 1 {
            128
        } else {
            0
        };
        let sum: u32 = rot + (s / 2) as u32 + b[base + k] as u32;
        s = (sum % 256) as u8;
        k = k + 1;
    }
    s
}

proof fn lemma_nul_len_at(u: Seq<u16>, k: int)
    requires
        0 <= k <= u.len(),
        forall|j: int| 0 <= j < k ==> u[j] != 0,
        k == u.len() || u[k] == 0,
    ensures
        nul_len(u) == k,
    decreases u.len(),
{
    if u.len() > 0 && u[0] != 0 {
        assert forall|j: int| 0 <= j < k - 1 implies u.skip(1)[j] != 0 by {
            assert(u.skip(1)[j] == u[j + 1]);
        }
        if k < u.len() {
            assert(u.skip(1)[k - 1] == u[k]);
        }
        lemma_nul_len_at(u.skip(1), k - 1);
    }
}

/// Index of the first NUL unit (the length when there is none).
fn find_nul(u: &Vec<u16>) -> (r: usize)
    ensures
        r as nat == nul_len(u@),
        r <= u@.len(),
{
    let mut k: usize = 0;
    while k < u.len() && u[k] != 0
        invariant
            k <= u@.len(),
            forall|j: int| 0 <= j < k ==> u@[j] != 0,
        decreases u@.len() - k,
    {
        k = k + 1;
    }
    proof {
        lemma_nul_len_at(u@, k as int);
    }
    k
}

/// Append the lossy UTF-16 decode of `u[..end]` to `s`.
pub(crate) fn push_utf16(s: &mut String, u: &Vec<u16>, end: usize)
    requires
        end <= u@.len(),
    ensures
        final(s)@ == old(s)@ + decode_utf16(u@.take(end as int)),
{
    let ghost whole = u@.take(end as int);
    let ghost start = s@;
    let mut i: usize = 0;
    assert(whole.skip(0) =~= whole);
    while i < end
        invariant
            i <= end <= u@.len(),
            whole == u@.take(end as int),
            start + decode_utf16(whole) == s@ + decode_utf16(whole.skip(i as int)),
        decreases end - i,
    {
        let ghost rest = whole.skip(i as int);
        let ghost before = s@;
        let w = u[i];
        assert(rest[0] == w);
        if 0xD800 <= w && w <= 0xDBFF && i + 1 < end && 0xDC00 <= u[i + 1] && u[i + 1] <= 0xDFFF {
            let lo = u[i + 1];
            assert(rest[1] == lo);
            let cp: u32 = 0x10000 + (w as u32 - 0xD800) * 0x400 + (lo as u32 - 0xDC00);
            match char_from_u32(cp) {
                Some(c) => push_char(s, c),
                None => push_char(s, '\u{FFFD}'),
            }
            proof {
                assert(rest.skip(2) =~= whole.skip(i + 2));
            }
            i = i + 2;
        } else if 0xD800 <= w && w <= 0xDFFF {
            push_char(s, '\u{FFFD}');
            proof {
                assert(rest.skip(1) =~= whole.skip(i + 1));
            }
            i = i + 1;
        } else {
            match char_from_u32(w as u32) {
                Some(c) => push_char(s, c),
                None => push_char(s, '\u{FFFD}'),
            }
            proof {
                assert(rest.skip(1) =~= whole.skip(i + 1));
            }
            i = i + 1;
        }
        proof {
            assert(before + decode_utf16(rest) =~= s@ + decode_utf16(whole.skip(i as int)));
        }
    }
    proof {
        assert(whole.skip(end as int) =~= Seq::<u16>::empty());
        assert(s@ + Seq::<char>::empty() =~= s@);
    }
}

/// Number of the `n` bytes at `start` left after trimming trailing spaces.
fn trim_len_exec(b: &[u8], start: usize, n: usize) -> (r: usize)
    requires
        start + n <= b@.len(),
    ensures
        r as nat == trim_len(b@, start as int, n as nat),
        r <= n,
{
    proof {
        assert(b.len() == b@.len());
    }
    let mut k = n;
    while k > 0 && b[start + k - 1] == 0x20
        invariant
            k <= n,
            start + n <= b@.len() <= usize::MAX,
            trim_len(b@, start as int, k as nat) == trim_len(b@, start as int, n as nat),
        decreases k,
    {
        k = k - 1;
    }
    k
}

/// Append the `len` name bytes at `start` (see [`oem_run`]).
fn push_oem_run(s: &mut String, b: &[u8], start: usize, len: usize, first: bool)
    requires
        start + len <= b@.len(),
    ensures
        final(s)@ == old(s)@ + oem_run(b@, start as int, len as nat, first),
{
    proof {
        assert(b.len() == b@.len());
    }
    let ghost s0 = s@;
    let mut k: usize = 0;
    while k < len
        invariant
            k <= len,
            start + len <= b@.len() <= usize::MAX,
            s@ == s0 + oem_run(b@, start as int, k as nat, first),
        decreases len - k,
    {
        let x = b[start + k];
        let c = if first && k == 0 {
            if x == DELETED_MARK {
                '?'
            } else if x == 0x05 {
                0xE5u8 as char
            } else {
                x as char
            }
        } else {
            x as char
        };
        push_char(s, c);
        k = k + 1;
        proof {
            assert(s@ =~= s0 + oem_run(b@, start as int, k as nat, first));
        }
    }
}

/// The 8.3 name (or, for a volume label, the 11-byte label) of the short slot
/// at `base`.
fn short_name_exec(b: &[u8], base: usize, label: bool) -> (r: String)
    requires
        base + 32 <= b@.len(),
    ensures
        r@ == (if label { label_name_spec(b@, base as int) } else { short_name_spec(b@, base as int) }),
{
    proof {
        assert(b.len() == b@.len());
    }
    let mut s = String::new();
    if label {
        let l = trim_len_exec(b, base, 11);
        push_oem_run(&mut s, b, base, l, true);
        assert(s@ =~= label_name_spec(b@, base as int));
    } else {
        let bl = trim_len_exec(b, base, 8);
        let el = trim_len_exec(b, base + 8, 3);
        push_oem_run(&mut s, b, base, bl, true);
        if el > 0 {
            push_char(&mut s, '.');
            push_oem_run(&mut s, b, base + 8, el, false);
        }
        assert(s@ =~= short_name_spec(b@, base as int));
    }
    s
}

/// Decode the short slot `i` with the pending long-name run `p`.
fn entry_exec(b: &[u8], i: usize, p: &Option<LfnBuf>) -> (r: DirEntry)
    requires
        32 * i + 32 <= b@.len(),
        i < MAX_DIR_SLOTS,
    ensures
        r@ == entry_spec(b@, i as int, run_view(*p)),
{
    let base = 32 * i;
    let attr = b[base + 11];
    let label = (attr / 8) % 2 == 1;
    let short = short_name_exec(b, base, label);
    let deleted = b[base] == DELETED_MARK;
    let mut name = short.clone();
    if !label {
        match p {
            Some(run) => {
                if run.next == 0 && !deleted && run.checksum == name_checksum(b, base) {
                    let end = find_nul(&run.units);
                    let mut long = String::new();
                    push_utf16(&mut long, &run.units, end);
                    assert(long@ =~= lfn_name(run.units@));
                    if !long.as_str().is_empty() {
                        name = long;
                    }
                }
            },
            None => {},
        }
    }
    let hi = le_u16(b, base + 20) as u32;
    let lo = le_u16(b, base + 26) as u32;
    DirEntry {
        index: i as u16,
        name,
        short_name: short,
        is_dir: (attr / 16) % 2 == 1 && !label,
        deleted,
        is_volume_label: label,
        attributes: attr,
        first_cluster: hi * 0x1_0000 + lo,
        size: le_u32(b, base + 28) as u64,
        no_fat_chain: false,
        created: (le_u16(b, base + 16), le_u16(b, base + 14), b[base + 13]),
        modified: (le_u16(b, base + 24), le_u16(b, base + 22)),
        accessed: le_u16(b, base + 18),
    }
}

/// Decode the entries of raw directory bytes: one per short slot, in slot
/// order, up to the `0x00` end marker, long names reassembled where bound.
pub fn parse_directory(bytes: &[u8]) -> (r: Vec<DirEntry>)
    ensures
        r@.map_values(|e: DirEntry| e@) == parse_directory_spec(bytes@),
{
    let len = bytes.len();
    let n = if len / 32 < MAX_DIR_SLOTS {
        len / 32
    } else {
        MAX_DIR_SLOTS
    };
    let mut out: Vec<DirEntry> = Vec::new();
    let mut pending: Option<LfnBuf> = None;
    let mut i: usize = 0;
    while i < n
        invariant_except_break
            !scan(bytes@, i as nat).ended,
        invariant
            i <= n,
            n as nat == slot_count(bytes@),
            n * 32 <= bytes@.len(),
            out@.map_values(|e: DirEntry| e@) == scan(bytes@, i as nat).entries,
            run_view(pending) == scan(bytes@, i as nat).pending,
        ensures
            out@.map_values(|e: DirEntry| e@) == scan(bytes@, n as nat).entries,
        decreases n - i,
    {
        let base = 32 * i;
        if bytes[base] == 0 {
            proof {
                lemma_scan_ended(bytes@, (i + 1) as nat, n as nat);
            }
            break;
        }
        if bytes[base + 11] % 64 == 15 {
            let p = pending;
            pending = lfn_step_exec(p, bytes, base);
        } else {
            let e = entry_exec(bytes, i, &pending);
            let ghost before = out@;
            out.push(e);
            pending = None;
            proof {
                assert(out@.map_values(|e: DirEntry| e@) =~= before.map_values(|e: DirEntry| e@).push(
                    e@,
                ));
            }
        }
        i = i + 1;
    }
    out
}

} // verus!
