use fat_forensic::{
    audit_reader, boot_checksum, Anomaly, AnomalyKind, Category, Location, Severity,
};

fn has_code(anoms: &[Anomaly], code: &str) -> bool {
    anoms.iter().any(|a| a.code == code)
}

fn short_entry(name: &[u8; 11], attr: u8, cluster: u16, size: u32) -> [u8; 32] {
    let mut e = [0u8; 32];
    e[0..11].copy_from_slice(name);
    e[11] = attr;
    e[26..28].copy_from_slice(&cluster.to_le_bytes());
    e[28..32].copy_from_slice(&size.to_le_bytes());
    e
}

/// A FAT12 volume: 512 B sectors, 1 sector/cluster, 1 reserved, 2 identical
/// FATs of one sector, 16 root entries, 64 sectors; HELLO.TXT at cluster 2 and
/// SUBDIR (cluster 3) holding NESTED.TXT (cluster 4).
fn synth_fat12() -> Vec<u8> {
    let bps = 512usize;
    let mut img = vec![0u8; 64 * bps];
    img[0] = 0xEB;
    img[2] = 0x90;
    img[11..13].copy_from_slice(&512u16.to_le_bytes());
    img[13] = 1;
    img[14..16].copy_from_slice(&1u16.to_le_bytes());
    img[16] = 2;
    img[17..19].copy_from_slice(&16u16.to_le_bytes());
    img[19..21].copy_from_slice(&64u16.to_le_bytes());
    img[22..24].copy_from_slice(&1u16.to_le_bytes());
    img[510] = 0x55;
    img[511] = 0xAA;
    // FAT12 entries 0..=4: F0 FF FF FF FF FF FF 0F → 2, 3, 4 end-of-chain.
    let fat = [0xF0u8, 0xFF, 0xFF, 0xFF, 0xFF, 0xFF, 0xFF, 0x0F];
    img[bps..bps + 8].copy_from_slice(&fat);
    img[2 * bps..2 * bps + 8].copy_from_slice(&fat);
    let root = 3 * bps;
    img[root..root + 32].copy_from_slice(&short_entry(b"HELLO   TXT", 0x20, 2, 17));
    img[root + 32..root + 64].copy_from_slice(&short_entry(b"SUBDIR     ", 0x10, 3, 0));
    let data = 4 * bps;
    img[data..data + 17].copy_from_slice(b"hello from FAT12\n");
    let sub = data + bps;
    img[sub..sub + 32].copy_from_slice(&short_entry(b".          ", 0x10, 3, 0));
    img[sub + 32..sub + 64].copy_from_slice(&short_entry(b"..         ", 0x10, 0, 0));
    img[sub + 64..sub + 96].copy_from_slice(&short_entry(b"NESTED  TXT", 0x20, 4, 23));
    img
}

/// An exFAT boot region (12 sectors of 512 B) whose checksum sector holds the
/// recomputed checksum.
fn synth_exfat() -> Vec<u8> {
    let bps = 512usize;
    let mut img = vec![0u8; 64 * bps];
    img[0] = 0xEB;
    img[1] = 0x76;
    img[2] = 0x90;
    img[3..11].copy_from_slice(b"EXFAT   ");
    img[72..80].copy_from_slice(&64u64.to_le_bytes());
    img[80..84].copy_from_slice(&24u32.to_le_bytes());
    img[84..88].copy_from_slice(&1u32.to_le_bytes());
    img[88..92].copy_from_slice(&32u32.to_le_bytes());
    img[92..96].copy_from_slice(&32u32.to_le_bytes());
    img[96..100].copy_from_slice(&4u32.to_le_bytes());
    img[108] = 9;
    img[109] = 0;
    img[110] = 1;
    img[510] = 0x55;
    img[511] = 0xAA;
    let sum = boot_checksum(&img[..11 * bps], 512);
    for k in 0..(bps / 4) {
        img[11 * bps + 4 * k..11 * bps + 4 * k + 4].copy_from_slice(&sum.to_le_bytes());
    }
    img
}

#[test]
fn detects_invalid_bpb() {
    // Valid 0x55AA signature but a structurally impossible BPB.
    let mut img = vec![0u8; 2048];
    img[510] = 0x55;
    img[511] = 0xAA;
    let anoms = audit_reader(&img).unwrap();
    assert!(has_code(&anoms, "FAT-BPB-INVALID"));
}

#[test]
fn clean_fat12_has_no_anomalies() {
    let anoms = audit_reader(&synth_fat12()).unwrap();
    assert!(anoms.is_empty());
}

#[test]
fn detects_bad_boot_signature() {
    let mut img = synth_fat12();
    img[510] = 0x00;
    img[511] = 0x00;
    let anoms = audit_reader(&img).unwrap();
    assert!(has_code(&anoms, "FAT-BOOT-SIG-INVALID"));
    assert_eq!(anoms[0].kind, AnomalyKind::BootSignatureInvalid { found: 0 });
    // Once the BPB cannot be parsed nothing downstream is trusted.
    assert!(has_code(&anoms, "FAT-BPB-INVALID"));
    assert_eq!(anoms.len(), 2);
}

#[test]
fn detects_fat_mirror_mismatch() {
    let mut img = synth_fat12();
    img[2 * 512 + 8] ^= 0xFF; // corrupt one FAT2 byte
    img[2 * 512 + 10] ^= 0x01;
    let anoms = audit_reader(&img).unwrap();
    assert_eq!(
        anoms[0].kind,
        AnomalyKind::FatMirrorMismatch { fat_offset: 8, fat1: 0, fat2: 0xFF, differing_bytes: 2 }
    );
    assert_eq!(anoms[0].severity, Severity::Medium);
    assert_eq!(
        anoms[0].note,
        "FAT copies disagree in 2 byte(s); first at FAT offset 8 (0x00 vs 0xff) \u{2014} consistent with a post-hoc edit of one copy or media corruption"
    );
}

#[test]
fn single_fat_volume_skips_the_mirror_check() {
    let mut img = synth_fat12();
    img[2 * 512 + 8] ^= 0xFF;
    img[16] = 1; // num FATs: 2 -> 1
    let anoms = audit_reader(&img).unwrap();
    assert!(!has_code(&anoms, "FAT-MIRROR-MISMATCH"));
    assert!(!has_code(&anoms, "FAT-BPB-INVALID"));
}

#[test]
fn surfaces_a_deleted_directory_entry() {
    let mut img = synth_fat12();
    let pos = img.windows(11).position(|w| w == b"HELLO   TXT").expect("HELLO.TXT entry present");
    img[pos] = 0xE5;
    let anoms = audit_reader(&img).unwrap();
    assert!(has_code(&anoms, "FAT-DIR-ENTRY-DELETED"));
    assert_eq!(anoms[0].note, "deleted directory entry present: \"?ELLO.TXT\" (recovery lead) \u{2014} consistent with a file removed from the volume");
    assert_eq!(anoms[0].kind.category(), Category::Residue);
}

#[test]
fn deleted_entries_inside_subdirectories_are_found() {
    let mut img = synth_fat12();
    let pos = img.windows(11).position(|w| w == b"NESTED  TXT").unwrap();
    img[pos] = 0xE5;
    let anoms = audit_reader(&img).unwrap();
    assert_eq!(anoms.len(), 2);
    assert_eq!(anoms[0].kind, AnomalyKind::DeletedDirectoryEntry { name: "?ESTED.TXT".to_string() });
    // Its cluster is still allocated in the FAT but no live entry claims it.
    assert_eq!(anoms[1].kind, AnomalyKind::OrphanedChain { cluster: 4, chains: 1 });
    assert_eq!(anoms[1].code, "FAT-CHAIN-ORPHANED");
}

#[test]
fn truncated_fat_regions_skip_mirror_check() {
    let mut img = synth_fat12();
    img[2 * 512 + 8] ^= 0xFF;
    let img1 = img[..512 + 256].to_vec(); // FAT1 cut mid-region
    assert!(!has_code(&audit_reader(&img1).unwrap(), "FAT-MIRROR-MISMATCH"));
    let img2 = img[..2 * 512 + 256].to_vec(); // FAT2 cut mid-region
    assert!(!has_code(&audit_reader(&img2).unwrap(), "FAT-MIRROR-MISMATCH"));
}

#[test]
fn clean_exfat_checksum_matches() {
    let anoms = audit_reader(&synth_exfat()).unwrap();
    assert!(!has_code(&anoms, "EXFAT-BOOT-CHECKSUM-MISMATCH"));
}

#[test]
fn detects_exfat_boot_checksum_mismatch() {
    let mut img = synth_exfat();
    let stored = u32::from_le_bytes([img[11 * 512], img[11 * 512 + 1], img[11 * 512 + 2], img[11 * 512 + 3]]);
    img[100] ^= 0xFF;
    let computed = boot_checksum(&img[..11 * 512], 512);
    let anoms = audit_reader(&img).unwrap();
    assert!(has_code(&anoms, "EXFAT-BOOT-CHECKSUM-MISMATCH"));
    let a = anoms.iter().find(|a| a.code == "EXFAT-BOOT-CHECKSUM-MISMATCH").unwrap();
    assert_eq!(a.kind, AnomalyKind::ExfatBootChecksumMismatch { computed, stored });
    assert_eq!(a.severity, Severity::High);
    assert_eq!(a.kind.category(), Category::Integrity);
}

#[test]
fn truncated_exfat_does_not_false_positive_checksum() {
    let mut img = synth_exfat();
    img[100] ^= 0xFF;
    let img = img[..3000].to_vec();
    let anoms = audit_reader(&img).unwrap();
    assert!(!has_code(&anoms, "EXFAT-BOOT-CHECKSUM-MISMATCH"));
}

#[test]
fn short_image_is_a_loud_read_error() {
    let e = audit_reader(&[0u8; 100]).err().unwrap();
    assert_eq!(e.message(), "I/O error during read: failed to fill whole buffer");
}

#[test]
fn anomaly_is_a_graded_observation() {
    let mut img = synth_fat12();
    img[510] = 0x00;
    let anoms = audit_reader(&img).unwrap();
    let sig = anoms.iter().find(|a| a.code == "FAT-BOOT-SIG-INVALID").unwrap();
    assert_eq!(sig.severity, Severity::High);
    assert_eq!(
        sig.note,
        "boot signature at 0x1FE is 0xaa00, expected 0x55AA \u{2014} consistent with a non-FAT or overwritten boot sector"
    );
    let ev = sig.kind.evidence();
    assert_eq!(ev.len(), 1);
    assert_eq!(ev[0].field, "boot_signature");
    assert_eq!(ev[0].value, "0xaa00");
    assert_eq!(ev[0].location, Some(Location::ByteOffset(510)));
}

#[test]
fn codes_and_severities_per_kind() {
    let kinds = vec![
        AnomalyKind::BootSignatureInvalid { found: 1 },
        AnomalyKind::BpbInvalid { detail: "x".to_string() },
        AnomalyKind::FatMirrorMismatch { fat_offset: 1, fat1: 2, fat2: 3, differing_bytes: 4 },
        AnomalyKind::ExfatBootChecksumMismatch { computed: 5, stored: 6 },
        AnomalyKind::DeletedDirectoryEntry { name: "?A".to_string() },
    ];
    let codes: Vec<&str> = kinds.iter().map(|k| k.code()).collect();
    assert_eq!(
        codes,
        vec![
            "FAT-BOOT-SIG-INVALID",
            "FAT-BPB-INVALID",
            "FAT-MIRROR-MISMATCH",
            "EXFAT-BOOT-CHECKSUM-MISMATCH",
            "FAT-DIR-ENTRY-DELETED"
        ]
    );
    let sev: Vec<Severity> = kinds.iter().map(|k| k.severity()).collect();
    assert_eq!(sev, vec![Severity::High, Severity::High, Severity::Medium, Severity::High, Severity::Info]);
    let cat: Vec<Category> = kinds.iter().map(|k| k.category()).collect();
    assert_eq!(
        cat,
        vec![Category::Structure, Category::Structure, Category::Integrity, Category::Integrity, Category::Residue]
    );
    for k in &kinds {
        let a = Anomaly::new(k.clone());
        assert_eq!(a.code, k.code());
        assert_eq!(a.note, k.note());
        assert_eq!(a.severity, k.severity());
    }
}

#[test]
fn evidence_rows_render_values() {
    let e = AnomalyKind::ExfatBootChecksumMismatch { computed: 0xABC, stored: 1 }.evidence();
    assert_eq!(e[0].value, "computed=0x00000abc, stored=0x00000001");
    assert_eq!(e[0].location, None);
    let e = AnomalyKind::FatMirrorMismatch { fat_offset: 77, fat1: 0xA, fat2: 0xB, differing_bytes: 1 }.evidence();
    assert_eq!(e[0].value, "0x0a vs 0x0b");
    assert_eq!(e[0].location, Some(Location::ByteOffset(77)));
    let e = AnomalyKind::BpbInvalid { detail: "bad".to_string() }.evidence();
    assert_eq!(e[0].field, "bpb");
    assert_eq!(e[0].location, Some(Location::ByteOffset(0)));
    assert_eq!(
        AnomalyKind::BpbInvalid { detail: "bad".to_string() }.note(),
        "BPB is structurally invalid: bad \u{2014} consistent with a damaged, wiped or non-FAT boot sector"
    );
}

#[test]
fn exfat_deleted_sets_are_surfaced_with_escaped_names() {
    let mut img = synth_exfat();
    // A deleted set named `say "hi".txt` in the root directory (cluster 4).
    let name: Vec<u16> = "say \"hi\".txt".encode_utf16().collect();
    let root = (32 + 2) * 512;
    img[root] = 0x05;
    img[root + 1] = 2;
    img[root + 32] = 0x40;
    img[root + 32 + 3] = name.len() as u8;
    img[root + 64] = 0x41;
    for (k, u) in name.iter().enumerate() {
        img[root + 66 + 2 * k..root + 68 + 2 * k].copy_from_slice(&u.to_le_bytes());
    }
    let anoms = audit_reader(&img).unwrap();
    assert_eq!(anoms.len(), 1);
    assert_eq!(anoms[0].kind, AnomalyKind::DeletedDirectoryEntry { name: "say \"hi\".txt".to_string() });
    assert_eq!(
        anoms[0].note,
        "deleted directory entry present: \"say \\\"hi\\\".txt\" (recovery lead) \u{2014} consistent with a file removed from the volume"
    );
}

/// A FAT16 volume claiming 5000 sectors (4948 clusters) of which only the
/// boot sector, both 20-sector FATs and the one-sector root are present.
fn synth_fat16() -> Vec<u8> {
    let bps = 512usize;
    let mut img = vec![0u8; 42 * bps];
    img[0] = 0xEB;
    img[2] = 0x90;
    img[11..13].copy_from_slice(&512u16.to_le_bytes());
    img[13] = 1;
    img[14..16].copy_from_slice(&1u16.to_le_bytes());
    img[16] = 2;
    img[17..19].copy_from_slice(&16u16.to_le_bytes());
    img[19..21].copy_from_slice(&5000u16.to_le_bytes());
    img[22..24].copy_from_slice(&20u16.to_le_bytes());
    img[510] = 0x55;
    img[511] = 0xAA;
    for f in 0..2 {
        let fat = bps + f * 20 * bps;
        img[fat..fat + 4].copy_from_slice(&[0xF8, 0xFF, 0xFF, 0xFF]);
    }
    let root = 41 * bps;
    img[root..root + 32].copy_from_slice(&short_entry(b"HELLO   TXT", 0x20, 0, 0));
    img
}

#[test]
fn clean_fat16_has_no_structural_anomalies() {
    let img = synth_fat16();
    assert_eq!(fat_forensic::FatFs::open(img.clone()).unwrap().variant(), fat_forensic::FatVariant::Fat16);
    let anoms = audit_reader(&img).unwrap();
    assert!(!has_code(&anoms, "FAT-MIRROR-MISMATCH"));
    assert!(!has_code(&anoms, "FAT-BOOT-SIG-INVALID"));
    assert!(!has_code(&anoms, "FAT-BPB-INVALID"));
}

#[test]
fn fat16_mirror_mismatch_reports_its_offset() {
    let mut img = synth_fat16();
    img[21 * 512 + 300] = 0x42; // FAT2 byte 300
    let anoms = audit_reader(&img).unwrap();
    assert_eq!(
        anoms[0].kind,
        AnomalyKind::FatMirrorMismatch { fat_offset: 300, fat1: 0, fat2: 0x42, differing_bytes: 1 }
    );
}

/// Set FAT12 entry `n` in both FAT copies of a `synth_fat12` image.
fn set_fat12_both(img: &mut [u8], n: usize, v: u16) {
    for fat in [512usize, 1024] {
        let off = fat + n * 3 / 2;
        let cur = u16::from_le_bytes([img[off], img[off + 1]]);
        let new = if n % 2 == 0 { (cur & 0xF000) | (v & 0x0FFF) } else { (cur & 0x000F) | (v << 4) };
        img[off..off + 2].copy_from_slice(&new.to_le_bytes());
    }
}

#[test]
fn detects_a_link_into_a_bad_cluster() {
    let mut img = synth_fat12();
    set_fat12_both(&mut img, 2, 9); // HELLO.TXT: 2 -> 9
    set_fat12_both(&mut img, 9, 0xFF7); // 9 is marked bad
    let anoms = audit_reader(&img).unwrap();
    assert_eq!(anoms.len(), 1);
    assert_eq!(anoms[0].kind, AnomalyKind::ChainThroughBadCluster { cluster: 2, bad: 9, links: 1 });
    assert_eq!(anoms[0].code, "FAT-CHAIN-THROUGH-BAD-CLUSTER");
    assert_eq!(anoms[0].severity, Severity::Medium);
    assert_eq!(
        anoms[0].note,
        "cluster 2 links to bad-marked cluster 9 (1 such link(s)) \u{2014} consistent with a damaged chain or data hidden behind a bad-cluster mark"
    );
    assert_eq!(anoms[0].kind.evidence()[0].value, "2 -> 9");
}

#[test]
fn detects_cross_linked_chains() {
    let mut img = synth_fat12();
    set_fat12_both(&mut img, 2, 5); // HELLO.TXT: 2 -> 5
    set_fat12_both(&mut img, 4, 5); // NESTED.TXT: 4 -> 5 as well
    set_fat12_both(&mut img, 5, 0xFFF);
    let anoms = audit_reader(&img).unwrap();
    assert_eq!(anoms.len(), 1);
    assert_eq!(anoms[0].kind, AnomalyKind::ChainCrossLinked { cluster: 4, shared: 5, links: 1 });
    assert_eq!(anoms[0].code, "FAT-CHAIN-CROSS-LINKED");
    assert_eq!(anoms[0].severity, Severity::High);
    assert_eq!(anoms[0].kind.category(), Category::Structure);
}

#[test]
fn detects_an_orphaned_chain() {
    let mut img = synth_fat12();
    set_fat12_both(&mut img, 7, 8); // 7 -> 8 -> end, claimed by no entry
    set_fat12_both(&mut img, 8, 0xFFF);
    let anoms = audit_reader(&img).unwrap();
    assert_eq!(anoms.len(), 1);
    assert_eq!(anoms[0].kind, AnomalyKind::OrphanedChain { cluster: 7, chains: 1 });
    assert_eq!(anoms[0].severity, Severity::Low);
    assert_eq!(anoms[0].kind.category(), Category::Residue);
    assert_eq!(
        anoms[0].note,
        "1 allocated chain(s) claimed by no directory entry, the first at cluster 7 \u{2014} consistent with a deleted or hidden file whose entry is gone"
    );
}

#[test]
fn every_note_says_consistent_with() {
    let kinds = vec![
        AnomalyKind::BootSignatureInvalid { found: 1 },
        AnomalyKind::BpbInvalid { detail: "x".to_string() },
        AnomalyKind::FatMirrorMismatch { fat_offset: 1, fat1: 2, fat2: 3, differing_bytes: 4 },
        AnomalyKind::ExfatBootChecksumMismatch { computed: 5, stored: 6 },
        AnomalyKind::DeletedDirectoryEntry { name: "?A".to_string() },
        AnomalyKind::ChainThroughBadCluster { cluster: 2, bad: 3, links: 1 },
        AnomalyKind::ChainCrossLinked { cluster: 4, shared: 5, links: 1 },
        AnomalyKind::OrphanedChain { cluster: 6, chains: 1 },
    ];
    for k in &kinds {
        assert!(k.note().contains("consistent with"), "{}", k.note());
    }
}
