use fat_forensic::{boot_checksum, parse_exfat_boot, FatVariant};

fn synth_boot() -> Vec<u8> {
    let mut b = vec![0u8; 512];
    b[0] = 0xEB;
    b[1] = 0x76;
    b[2] = 0x90;
    b[3..11].copy_from_slice(b"EXFAT   ");
    b[80..84].copy_from_slice(&24u32.to_le_bytes()); // FatOffset (sectors)
    b[84..88].copy_from_slice(&8u32.to_le_bytes()); // FatLength
    b[88..92].copy_from_slice(&32u32.to_le_bytes()); // ClusterHeapOffset
    b[92..96].copy_from_slice(&100u32.to_le_bytes()); // ClusterCount
    b[96..100].copy_from_slice(&5u32.to_le_bytes()); // root cluster
    b[108] = 9; // BytesPerSectorShift → 512
    b[109] = 3; // SectorsPerClusterShift → 8 sectors → 4096-byte cluster
    b[110] = 1; // NumberOfFats
    b[510] = 0x55;
    b[511] = 0xAA;
    b
}

#[test]
fn parses_exfat_geometry() {
    let g = parse_exfat_boot(&synth_boot()).unwrap();
    assert_eq!(g.variant, FatVariant::ExFat);
    assert_eq!(g.bytes_per_sector, 512);
    assert_eq!(g.cluster_size, 4096);
    assert_eq!(g.fat_start, 24 * 512);
    assert_eq!(g.data_start, 32 * 512); // cluster heap
    assert_eq!(g.root_cluster, 5);
    assert_eq!(g.count_of_clusters, 100);
}

#[test]
fn exfat_rejects_bad_signature() {
    let mut b = synth_boot();
    b[510] = 0;
    assert!(parse_exfat_boot(&b).is_err());
}

#[test]
fn rejects_out_of_range_sector_shift() {
    let mut b = synth_boot();
    b[108] = 20; // 1 MiB sector — out of the 512..4096 range
    assert!(parse_exfat_boot(&b).is_err());
}

#[test]
fn checksum_excludes_volume_flags_and_percent_in_use() {
    let bps = 512usize;
    let mut region = vec![0u8; 11 * bps];
    region[3] = 0x41;
    let base = boot_checksum(&region, bps as u32);
    region[106] = 0xFF;
    region[107] = 0xFF;
    region[112] = 0xFF;
    assert_eq!(boot_checksum(&region, bps as u32), base);
    // A byte outside the excluded set does change it.
    region[5] = 0xFF;
    assert_ne!(boot_checksum(&region, bps as u32), base);
}

#[test]
fn checksum_of_a_single_byte_is_that_byte() {
    // c = rotr(c, 1) + b; starting from 0 the first byte lands unchanged.
    let mut region = vec![0u8; 1];
    region[0] = 0x41;
    assert_eq!(boot_checksum(&region, 512), 0x41);
}

#[test]
fn checksum_rotates_before_adding() {
    // Two bytes 0x01, 0x02: c1 = 1; c2 = rotr(1) + 2 = 0x8000_0002.
    let region = vec![1u8, 2u8];
    assert_eq!(boot_checksum(&region, 512), 0x8000_0002);
}

#[test]
fn checksum_covers_only_eleven_sectors() {
    let bps = 512usize;
    let mut region = vec![0u8; 12 * bps];
    region[3] = 0x41;
    let base = boot_checksum(&region, bps as u32);
    region[11 * bps + 1] = 0x77; // the checksum sector itself is not summed
    assert_eq!(boot_checksum(&region, bps as u32), base);
}

#[test]
fn rejects_missing_exfat_name() {
    let mut b = synth_boot();
    b[3..11].copy_from_slice(b"MSDOS5.0");
    let e = parse_exfat_boot(&b).unwrap_err();
    assert!(e.message().starts_with("not a FAT/exFAT volume"));
}

#[test]
fn rejects_three_fats_and_a_root_outside_the_heap() {
    let mut b = synth_boot();
    b[110] = 3;
    assert!(parse_exfat_boot(&b).is_err());
    let mut b = synth_boot();
    b[96..100].copy_from_slice(&102u32.to_le_bytes()); // count 100 → last is 101
    assert!(parse_exfat_boot(&b).is_err());
    b[96..100].copy_from_slice(&101u32.to_le_bytes());
    assert!(parse_exfat_boot(&b).is_ok());
}

#[test]
fn rejects_an_oversize_cluster() {
    let mut b = synth_boot();
    b[108] = 12; // 4096-byte sectors
    b[109] = 14; // 2^26 bytes per cluster > 32 MiB
    assert!(parse_exfat_boot(&b).is_err());
    b[109] = 13; // exactly 32 MiB
    assert_eq!(parse_exfat_boot(&b).unwrap().cluster_size, 32 * 1024 * 1024);
}
