use fat_forensic::FatVariant::{ExFat, Fat12, Fat16, Fat32};
use fat_forensic::{fat_entry, follow_chain, is_bad, is_eoc};

#[test]
fn fat12_packs_two_entries_per_three_bytes() {
    // entry[2]=0x123, entry[3]=0xABC packed at byte offset 3..6.
    let mut fat = vec![0u8; 16];
    fat[3] = 0x23;
    fat[4] = 0xC1;
    fat[5] = 0xAB;
    assert_eq!(fat_entry(&fat, Fat12, 2), 0x123);
    assert_eq!(fat_entry(&fat, Fat12, 3), 0xABC);
}

#[test]
fn fat16_entries_are_u16() {
    let mut fat = vec![0u8; 16];
    fat[4..6].copy_from_slice(&0x1234u16.to_le_bytes()); // cluster 2
    assert_eq!(fat_entry(&fat, Fat16, 2), 0x1234);
}

#[test]
fn fat32_masks_to_28_bits() {
    let mut fat = vec![0u8; 32];
    fat[8..12].copy_from_slice(&0xF123_4567u32.to_le_bytes()); // cluster 2
    assert_eq!(fat_entry(&fat, Fat32, 2), 0x0123_4567); // top nibble ignored
}

#[test]
fn out_of_range_cluster_reads_zero() {
    assert_eq!(fat_entry(&[], Fat16, 9999), 0);
}

#[test]
fn classifies_eoc_and_bad_markers() {
    assert!(is_eoc(Fat12, 0xFF8));
    assert!(is_eoc(Fat12, 0xFFF));
    assert!(!is_eoc(Fat12, 0xFF7));
    assert!(is_bad(Fat12, 0xFF7));

    assert!(is_eoc(Fat16, 0xFFF8));
    assert!(is_bad(Fat16, 0xFFF7));

    assert!(is_eoc(Fat32, 0x0FFF_FFF8));
    assert!(is_bad(Fat32, 0x0FFF_FFF7));
    assert!(!is_eoc(Fat32, 0x0000_0003));
}

#[test]
fn follows_a_simple_chain_to_eoc() {
    // 2 -> 3 -> EOC
    let mut fat = vec![0u8; 32];
    fat[8..10].copy_from_slice(&3u16.to_le_bytes()); // cluster 2 -> 3
    fat[6..8].copy_from_slice(&0xFFFFu16.to_le_bytes()); // cluster 3 -> EOC
    assert_eq!(follow_chain(&fat, Fat16, 2, 100), vec![2, 3]);
}

#[test]
fn chain_cap_defeats_a_self_cycle() {
    // cluster 2 -> 2 forever; the cap bounds it.
    let mut fat = vec![0u8; 32];
    fat[8..10].copy_from_slice(&2u16.to_le_bytes());
    let chain = follow_chain(&fat, Fat16, 2, 5);
    assert_eq!(chain.len(), 5); // capped, no hang
}

#[test]
fn free_or_reserved_terminates_chain() {
    let fat = vec![0u8; 32]; // all zero → cluster 2 points to free (0)
    assert_eq!(follow_chain(&fat, Fat16, 2, 100), vec![2]);
}

#[test]
fn bad_marker_terminates_chain() {
    // The FAT16 walk reads the word at 4 * cluster: 2 -> 4 -> bad.
    let mut fat = vec![0u8; 32];
    fat[8..10].copy_from_slice(&4u16.to_le_bytes());
    fat[16..18].copy_from_slice(&0xFFF7u16.to_le_bytes());
    assert_eq!(follow_chain(&fat, Fat16, 2, 100), vec![2, 4]);
}

#[test]
fn fat32_chain_masks_the_top_nibble() {
    // 2 -> 3 (top nibble set, ignored) -> EOC.
    let mut fat = vec![0u8; 32];
    fat[8..12].copy_from_slice(&0xF000_0003u32.to_le_bytes());
    fat[12..16].copy_from_slice(&0x0FFF_FFFFu32.to_le_bytes());
    assert_eq!(follow_chain(&fat, Fat32, 2, 10), vec![2, 3]);
}

#[test]
fn fat12_chain_across_odd_and_even_entries() {
    // 2 -> 3 -> EOC in FAT12 packing.
    let mut fat = vec![0u8; 16];
    // entry 2 = 0x003, entry 3 = 0xFFF → bytes at 3..6: 03 F0 FF
    fat[3] = 0x03;
    fat[4] = 0xF0;
    fat[5] = 0xFF;
    assert_eq!(follow_chain(&fat, Fat12, 2, 10), vec![2, 3]);
}

#[test]
fn exfat_entries_are_full_32_bits() {
    let mut fat = vec![0u8; 32];
    fat[8..12].copy_from_slice(&0xFFFF_FFFFu32.to_le_bytes());
    assert_eq!(fat_entry(&fat, ExFat, 2), 0xFFFF_FFFF);
    assert!(is_eoc(ExFat, 0xFFFF_FFFF));
    assert!(is_bad(ExFat, 0xFFFF_FFF7));
}

#[test]
fn zero_cap_yields_empty_chain() {
    let fat = vec![0u8; 32];
    assert!(follow_chain(&fat, Fat16, 2, 0).is_empty());
}
