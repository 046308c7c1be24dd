//! exFAT directory entry sets: a File entry (`0x85`, or `0x05` once deleted)
//! followed by its Stream Extension (`0xC0` / `0x40`) and File Name entries
//! (`0xC1` / `0x41`), decoded into the same [`DirEntry`] the FAT reader yields.
//!
//! Names are UTF-16 across the File Name entries (15 units each), cut to the
//! Stream Extension's name length; a contiguous file sets `NoFatChain` and
//! bypasses the FAT. A deleted set is surfaced with `deleted = true`.
use vstd::prelude::*;
use crate::bytes::{byte_at, le_u16, le_u32, le_u64, spec_le_u16, spec_le_u32, spec_le_u64, u8_at};
use crate::dirent::{decode_utf16, push_utf16, slot_count, DirEntry, SpecDirEntry, MAX_DIR_SLOTS};

verus! {

/// Entry type of an in-use File directory entry.
pub const EXFAT_FILE: u8 = 0x85;
/// Entry type of a deleted File directory entry.
pub const EXFAT_FILE_DELETED: u8 = 0x05;
/// Entry type of an in-use Stream Extension entry.
pub const EXFAT_STREAM: u8 = 0xC0;
/// Entry type of a deleted Stream Extension entry.
pub const EXFAT_STREAM_DELETED: u8 = 0x40;
/// Entry type of the Volume Label entry.
pub const EXFAT_LABEL: u8 = 0x83;
/// UTF-16 units carried by one File Name entry.
pub const NAME_UNITS_PER_SLOT: usize = 15;
/// Longest volume label, in UTF-16 units.
pub const LABEL_MAX_UNITS: u8 = 11;

/// The entry type of slot `i`.
pub open spec fn ex_type(b: Seq<u8>, i: int) -> u8 {
    byte_at(b, 32 * i)
}

/// The secondary count of the File entry at slot `i`.
pub open spec fn ex_secondary(b: Seq<u8>, i: int) -> u8 {
    byte_at(b, 32 * i + 1)
}

/// The Stream Extension type a File entry of type `t` must be followed by.
pub open spec fn stream_type_for(t: u8) -> u8 {
    if t == EXFAT_FILE { EXFAT_STREAM } else { EXFAT_STREAM_DELETED }
}

/// Whether slot `i` opens a complete entry set: a File entry (in use or
/// deleted) with at least a Stream Extension and one File Name entry, all
/// inside the directory, the Stream Extension in the same state.
pub open spec fn ex_set_ok(b: Seq<u8>, i: int) -> bool {
    let t = ex_type(b, i);
    let sc = ex_secondary(b, i) as int;
    &&& t == EXFAT_FILE || t == EXFAT_FILE_DELETED
    &&& sc >= 2
    &&& i + sc < slot_count(b)
    &&& ex_type(b, i + 1) == stream_type_for(t)
}

/// The UTF-16 units carried by the `sc - 1` File Name entries after the
/// Stream Extension of the set at slot `i`.
pub open spec fn ex_name_units(b: Seq<u8>, i: int, sc: int) -> Seq<u16> {
    Seq::new(
        (15 * (sc - 1)) as nat,
        |k: int| spec_le_u16(b, 32 * (i + 2 + k / 15) + 2 + 2 * (k % 15)),
    )
}

/// The name of the set at slot `i`: its name units cut to the Stream
/// Extension's name length (or to all units, when fewer are carried).
pub open spec fn ex_name(b: Seq<u8>, i: int) -> Seq<char> {
    let units = ex_name_units(b, i, ex_secondary(b, i) as int);
    let nl = byte_at(b, 32 * (i + 1) + 3) as int;
    decode_utf16(units.take(if nl < units.len() { nl } else { units.len() as int }))
}

/// The entry decoded from the complete set at slot `i`.
pub open spec fn ex_file_entry(b: Seq<u8>, i: int) -> SpecDirEntry {
    let f = 32 * i;
    let s = 32 * (i + 1);
    let attr = byte_at(b, f + 4);
    SpecDirEntry {
        index: i as u16,
        name: ex_name(b, i),
        short_name: Seq::empty(),
        is_dir: (attr as int / 16) % 2 == 1,
        deleted: ex_type(b, i) == EXFAT_FILE_DELETED,
        is_volume_label: false,
        attributes: attr,
        first_cluster: spec_le_u32(b, s + 20),
        size: spec_le_u64(b, s + 24),
        no_fat_chain: (byte_at(b, s + 1) as int / 2) % 2 == 1,
        created: (spec_le_u16(b, f + 10), spec_le_u16(b, f + 8), byte_at(b, f + 20)),
        modified: (spec_le_u16(b, f + 14), spec_le_u16(b, f + 12)),
        accessed: spec_le_u16(b, f + 18),
    }
}

/// The label held by the Volume Label entry at slot `i`.
pub open spec fn ex_label_entry(b: Seq<u8>, i: int) -> SpecDirEntry {
    let n = byte_at(b, 32 * i + 1);
    let units = Seq::new(11, |k: int| spec_le_u16(b, 32 * i + 2 + 2 * k));
    let name = decode_utf16(units.take(if n < 11 { n as int } else { 11 }));
    SpecDirEntry {
        index: i as u16,
        name,
        short_name: Seq::empty(),
        is_dir: false,
        deleted: false,
        is_volume_label: true,
        attributes: 0,
        first_cluster: 0,
        size: 0,
        no_fat_chain: false,
        created: (0, 0, 0),
        modified: (0, 0),
        accessed: 0,
    }
}

/// The entries of the exFAT directory bytes `b` from slot `i` on: one per
/// complete entry set (skipping the set's secondary slots) and one per
/// Volume Label entry, up to the end-of-directory type `0x00`; any other
/// slot is passed over.
pub open spec fn ex_entries_from(b: Seq<u8>, i: int) -> Seq<SpecDirEntry>
    decreases slot_count(b) - i,
{
    if i < 0 || i >= slot_count(b) || ex_type(b, i) == 0 {
        Seq::empty()
    } else if ex_set_ok(b, i) {
        seq![ex_file_entry(b, i)] + ex_entries_from(b, i + 1 + ex_secondary(b, i))
    } else if ex_type(b, i) == EXFAT_LABEL {
        seq![ex_label_entry(b, i)] + ex_entries_from(b, i + 1)
    } else {
        ex_entries_from(b, i + 1)
    }
}

/// The entries of raw exFAT directory bytes.
pub open spec fn parse_exfat_dir_spec(b: Seq<u8>) -> Seq<SpecDirEntry> {
    ex_entries_from(b, 0)
}

/// Entries from slot `i` on carry their own slot indices, at least `i`,
/// strictly increasing.
pub proof fn lemma_ex_indices(b: Seq<u8>, i: int)
    requires
        0 <= i,
    ensures
        forall|j: int|
            0 <= j < ex_entries_from(b, i).len() ==> i <= (#[trigger] ex_entries_from(b, i)[j]).index
                < slot_count(b),
        forall|j: int, k: int|
            0 <= j < k < ex_entries_from(b, i).len() ==> ex_entries_from(b, i)[j].index
                < ex_entries_from(b, i)[k].index,
    decreases slot_count(b) - i,
{
    if i < slot_count(b) && ex_type(b, i) != 0 {
        let es = ex_entries_from(b, i);
        let next = if ex_set_ok(b, i) { i + 1 + ex_secondary(b, i) } else { i + 1 };
        lemma_ex_indices(b, next);
        let rest = ex_entries_from(b, next);
        if ex_set_ok(b, i) || ex_type(b, i) == EXFAT_LABEL {
            assert(es[0].index == i);
            assert forall|j: int| 0 <= j < es.len() implies i <= (#[trigger] es[j]).index
                < slot_count(b) by {
                if j > 0 {
                    assert(es[j] == rest[j - 1]);
                }
            }
            assert forall|j: int, k: int| 0 <= j < k < es.len() implies es[j].index
                < es[k].index by {
                assert(es[k] == rest[k - 1]);
                if j > 0 {
                    assert(es[j] == rest[j - 1]);
                }
            }
        }
    }
}

/// Whether the fields of `e` other than its name are those recorded in the
/// entry set opened at its own slot, or those of a volume label.
spec fn ex_fields_match(b: Seq<u8>, e: SpecDirEntry) -> bool {
    let f = 32 * (e.index as int);
    let s = f + 32;
    if e.is_volume_label {
        &&& ex_type(b, e.index as int) == EXFAT_LABEL
        &&& !e.is_dir && !e.deleted && e.size == 0 && e.first_cluster == 0 && !e.no_fat_chain
    } else {
        &&& ex_set_ok(b, e.index as int)
        &&& e.attributes == byte_at(b, f + 4)
        &&& e.is_dir == ((byte_at(b, f + 4) as int / 16) % 2 == 1)
        &&& e.deleted == (byte_at(b, f) == EXFAT_FILE_DELETED)
        &&& e.first_cluster == spec_le_u32(b, s + 20)
        &&& e.size == spec_le_u64(b, s + 24)
        &&& e.no_fat_chain == ((byte_at(b, s + 1) as int / 2) % 2 == 1)
        &&& e.created == (spec_le_u16(b, f + 10), spec_le_u16(b, f + 8), byte_at(b, f + 20))
        &&& e.modified == (spec_le_u16(b, f + 14), spec_le_u16(b, f + 12))
        &&& e.accessed == spec_le_u16(b, f + 18)
        &&& e.name == decode_utf16(ex_set_name_units(b, e.index as int))
    }
}

/// The UTF-16 units of the name of the entry set at slot `i`: File Name
/// entry `m` (the `m`-th slot after the Stream Extension) carries units
/// `15 * m .. 15 * m + 15` at bytes 2, 4, .., 30 of its slot; the name is the
/// first NameLength (Stream Extension byte 3) of them, or all of them when
/// fewer are carried.
pub open spec fn ex_set_name_units(b: Seq<u8>, i: int) -> Seq<u16> {
    let carried = 15 * (byte_at(b, 32 * i + 1) as int - 1);
    let nl = byte_at(b, 32 * i + 35) as int;
    Seq::new(
        (if nl < carried { nl } else { carried }) as nat,
        |k: int| spec_le_u16(b, 32 * i + 64 + 32 * (k / 15) + 2 + 2 * (k % 15)),
    )
}

/// Every entry from slot `i` on carries the fields of its own entry set.
proof fn lemma_ex_fields_from(b: Seq<u8>, i: int)
    requires
        0 <= i,
    ensures
        forall|j: int|
            0 <= j < ex_entries_from(b, i).len() ==> ex_fields_match(b, #[trigger] ex_entries_from(b, i)[j]),
    decreases slot_count(b) - i,
{
    if i < slot_count(b) && ex_type(b, i) != 0 {
        let es = ex_entries_from(b, i);
        let next = if ex_set_ok(b, i) { i + 1 + ex_secondary(b, i) } else { i + 1 };
        lemma_ex_fields_from(b, next);
        let rest = ex_entries_from(b, next);
        assert(slot_count(b) <= MAX_DIR_SLOTS);
        if ex_set_ok(b, i) || ex_type(b, i) == EXFAT_LABEL {
            assert(es[0].index == i);
            if ex_set_ok(b, i) {
                let units = ex_name_units(b, i, ex_secondary(b, i) as int);
                let nl = byte_at(b, 32 * (i + 1) + 3) as int;
                let cut = if nl < units.len() { nl } else { units.len() as int };
                assert(units.take(cut) =~= ex_set_name_units(b, i)) by {
                    assert forall|k: int| 0 <= k < cut implies units.take(cut)[k] == ex_set_name_units(b, i)[k] by {
                        assert(32 * (i + 2 + k / 15) + 2 + 2 * (k % 15) == 32 * i + 64 + 32 * (k / 15) + 2 + 2 * (k % 15));
                    }
                }
            }
            assert(ex_fields_match(b, es[0]));
            assert forall|j: int| 0 <= j < es.len() implies ex_fields_match(b, #[trigger] es[j]) by {
                if j > 0 {
                    assert(es[j] == rest[j - 1]);
                }
            }
        }
    }
}

/// Each decoded exFAT file entry reports what its entry set records: from the
/// File entry at its own slot (byte `32 * index`) the attributes at 4, the
/// deleted state from the type byte, the creation date, time and 10 ms
/// increments at 10, 8 and 20, the last-modified date and time at 14 and 12,
/// the last-access date at 18; from the Stream Extension in the next slot the
/// `NoFatChain` flag (bit 1 of byte 1), the first cluster at 20 and the size
/// at 24 (all little-endian); the name from the File Name entries after it
/// ([`ex_set_name_units`]). A volume label carries no data.
pub proof fn lemma_ex_entry_fields(b: Seq<u8>, j: int)
    requires
        0 <= j < parse_exfat_dir_spec(b).len(),
    ensures
        ({
            let e = parse_exfat_dir_spec(b)[j];
            let f = 32 * (e.index as int);
            let s = f + 32;
            &&& e.is_volume_label ==> ex_type(b, e.index as int) == EXFAT_LABEL && e.size == 0
                && e.first_cluster == 0 && !e.no_fat_chain && !e.is_dir
            &&& !e.is_volume_label ==> {
                &&& byte_at(b, f) == EXFAT_FILE || byte_at(b, f) == EXFAT_FILE_DELETED
                &&& e.attributes == byte_at(b, f + 4)
                &&& e.deleted == (byte_at(b, f) == EXFAT_FILE_DELETED)
                &&& e.first_cluster == spec_le_u32(b, s + 20)
                &&& e.size == spec_le_u64(b, s + 24)
                &&& e.no_fat_chain == ((byte_at(b, s + 1) as int / 2) % 2 == 1)
                &&& e.created == (spec_le_u16(b, f + 10), spec_le_u16(b, f + 8), byte_at(b, f + 20))
                &&& e.modified == (spec_le_u16(b, f + 14), spec_le_u16(b, f + 12))
                &&& e.accessed == spec_le_u16(b, f + 18)
                &&& e.name == decode_utf16(ex_set_name_units(b, e.index as int))
            }
        }),
{
    lemma_ex_fields_from(b, 0);
    assert(ex_fields_match(b, parse_exfat_dir_spec(b)[j]));
}

/// The name units of the set at slot `i` (secondary count `sc`).
fn ex_name_units_exec(b: &[u8], i: usize, sc: u8) -> (r: Vec<u16>)
    requires
        sc >= 2,
        i < MAX_DIR_SLOTS,
    ensures
        r@ == ex_name_units(b@, i as int, sc as int),
{
    let total: usize = NAME_UNITS_PER_SLOT * (sc as usize - 1);
    let mut out: Vec<u16> = Vec::new();
    let mut k: usize = 0;
    while k < total
        invariant
            total == 15 * (sc - 1),
            sc >= 2,
            i < MAX_DIR_SLOTS,
            k <= total,
            out@.len() == k,
            forall|m: int| 0 <= m < k ==> out@[m] == #[trigger] ex_name_units(b@, i as int, sc as int)[m],
        decreases total - k,
    {
        let off = 32 * (i + 2 + k / 15) + 2 + 2 * (k % 15);
        out.push(le_u16(b, off));
        k = k + 1;
    }
    assert(out@ =~= ex_name_units(b@, i as int, sc as int));
    out
}

/// Decode the complete set at slot `i`.
fn ex_file_entry_exec(b: &[u8], i: usize) -> (r: DirEntry)
    requires
        ex_set_ok(b@, i as int),
        i < MAX_DIR_SLOTS,
    ensures
        r@ == ex_file_entry(b@, i as int),
{
    let f = 32 * i;
    let s = 32 * (i + 1);
    let sc = u8_at(b, f + 1);
    let units = ex_name_units_exec(b, i, sc);
    let nl = u8_at(b, s + 3) as usize;
    let end = if nl < units.len() {
        nl
    } else {
        units.len()
    };
    let mut name = String::new();
    push_utf16(&mut name, &units, end);
    assert(name@ =~= ex_name(b@, i as int));
    let attr = u8_at(b, f + 4);
    DirEntry {
        index: i as u16,
        name,
        short_name: String::new(),
        is_dir: (attr / 16) % 2 == 1,
        deleted: u8_at(b, f) == EXFAT_FILE_DELETED,
        is_volume_label: false,
        attributes: attr,
        first_cluster: le_u32(b, s + 20),
        size: le_u64(b, s + 24),
        no_fat_chain: (u8_at(b, s + 1) / 2) % 2 == 1,
        created: (le_u16(b, f + 10), le_u16(b, f + 8), u8_at(b, f + 20)),
        modified: (le_u16(b, f + 14), le_u16(b, f + 12)),
        accessed: le_u16(b, f + 18),
    }
}

/// Decode the Volume Label entry at slot `i`.
fn ex_label_entry_exec(b: &[u8], i: usize) -> (r: DirEntry)
    requires
        i < MAX_DIR_SLOTS,
    ensures
        r@ == ex_label_entry(b@, i as int),
{
    let base = 32 * i;
    let n = u8_at(b, base + 1);
    let mut units: Vec<u16> = Vec::new();
    let mut k: usize = 0;
    while k < 11
        invariant
            i < MAX_DIR_SLOTS,
            base == 32 * i,
            k <= 11,
            units@.len() == k,
            forall|m: int| 0 <= m < k ==> units@[m] == #[trigger] spec_le_u16(b@, 32 * i + 2 + 2 * m),
        decreases 11 - k,
    {
        units.push(le_u16(b, base + 2 + 2 * k));
        k = k + 1;
    }
    let end: usize = if n < LABEL_MAX_UNITS {
        n as usize
    } else {
        11
    };
    let mut name = String::new();
    push_utf16(&mut name, &units, end);
    proof {
        let units_spec = Seq::new(11, |k: int| spec_le_u16(b@, 32 * i + 2 + 2 * k));
        assert(units@ =~= units_spec);
        assert(name@ =~= ex_label_entry(b@, i as int).name);
    }
    DirEntry {
        index: i as u16,
        name,
        short_name: String::new(),
        is_dir: false,
        deleted: false,
        is_volume_label: true,
        attributes: 0,
        first_cluster: 0,
        size: 0,
        no_fat_chain: false,
        created: (0, 0, 0),
        modified: (0, 0),
        accessed: 0,
    }
}

/// Decode the entries of raw exFAT directory bytes: one per complete entry
/// set and per Volume Label entry, in slot order, up to the end marker.
pub fn parse_exfat_dir(bytes: &[u8]) -> (r: Vec<DirEntry>)
    ensures
        r@.map_values(|e: DirEntry| e@) == parse_exfat_dir_spec(bytes@),
{
    let len = bytes.len();
    let n = if len / 32 < MAX_DIR_SLOTS {
        len / 32
    } else {
        MAX_DIR_SLOTS
    };
    let mut out: Vec<DirEntry> = Vec::new();
    let mut i: usize = 0;
    assert(out@.map_values(|e: DirEntry| e@) + ex_entries_from(bytes@, 0) =~= ex_entries_from(bytes@, 0));
    while i < n && bytes[32 * i] != 0
        invariant
            out@.map_values(|e: DirEntry| e@) + ex_entries_from(bytes@, i as int) == ex_entries_from(bytes@, 0),
            n as nat == slot_count(bytes@),
            n * 32 <= bytes@.len(),
            n <= MAX_DIR_SLOTS,
            i <= n,
        decreases n - i,
    {
        let ghost rest = ex_entries_from(bytes@, i as int);
        let ghost before = out@.map_values(|e: DirEntry| e@);
        let t = bytes[32 * i];
        let sc = u8_at(bytes, 32 * i + 1);
        let set_ok = (t == EXFAT_FILE || t == EXFAT_FILE_DELETED) && sc >= 2 && i + (sc as usize) < n
            && u8_at(bytes, 32 * (i + 1)) == if t == EXFAT_FILE {
            EXFAT_STREAM
        } else {
            EXFAT_STREAM_DELETED
        };
        assert(set_ok == ex_set_ok(bytes@, i as int));
        if set_ok {
            let e = ex_file_entry_exec(bytes, i);
            out.push(e);
            proof {
                assert(out@.map_values(|e: DirEntry| e@) =~= before.push(e@));
                assert(before + rest =~= out@.map_values(|e: DirEntry| e@) + ex_entries_from(
                    bytes@,
                    i + 1 + sc,
                ));
            }
            i = i + 1 + sc as usize;
        } else if t == EXFAT_LABEL {
            let e = ex_label_entry_exec(bytes, i);
            out.push(e);
            proof {
                assert(out@.map_values(|e: DirEntry| e@) =~= before.push(e@));
                assert(before + rest =~= out@.map_values(|e: DirEntry| e@) + ex_entries_from(
                    bytes@,
                    i + 1,
                ));
            }
            i = i + 1;
        } else {
            i = i + 1;
        }
    }
    proof {
        assert(ex_entries_from(bytes@, i as int) =~= Seq::<SpecDirEntry>::empty());
        assert(out@.map_values(|e: DirEntry| e@) + Seq::<SpecDirEntry>::empty() =~= out@.map_values(
            |e: DirEntry| e@,
        ));
    }
    out
}

} // verus!
