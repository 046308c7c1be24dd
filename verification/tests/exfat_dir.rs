use fat_forensic::parse_exfat_dir;

/// exFAT entry-set builder: a File entry, its Stream Extension and as many
/// File Name entries as the name needs.
fn exfat_set(name: &str, attr: u16, flags: u8, cluster: u32, size: u64, deleted: bool) -> Vec<u8> {
    let units: Vec<u16> = name.encode_utf16().collect();
    let name_slots = (units.len() + 14) / 15;
    let mut out = vec![0u8; 32 * (2 + name_slots)];
    out[0] = if deleted { 0x05 } else { 0x85 };
    out[1] = (1 + name_slots) as u8;
    out[4..6].copy_from_slice(&attr.to_le_bytes());
    let s = 32;
    out[s] = if deleted { 0x40 } else { 0xC0 };
    out[s + 1] = flags;
    out[s + 3] = units.len() as u8;
    out[s + 20..s + 24].copy_from_slice(&cluster.to_le_bytes());
    out[s + 24..s + 32].copy_from_slice(&size.to_le_bytes());
    for (k, u) in units.iter().enumerate() {
        let slot = 64 + 32 * (k / 15);
        out[slot] = if deleted { 0x41 } else { 0xC1 };
        let off = slot + 2 + 2 * (k % 15);
        out[off..off + 2].copy_from_slice(&u.to_le_bytes());
    }
    out
}

#[test]
fn decodes_a_file_entry_set() {
    let dir = exfat_set("HELLO.TXT", 0x20, 0x03, 5, 17, false);
    let es = parse_exfat_dir(&dir);
    assert_eq!(es.len(), 1);
    assert_eq!(es[0].name, "HELLO.TXT");
    assert_eq!(es[0].short_name, "");
    assert_eq!(es[0].index, 0);
    assert_eq!(es[0].first_cluster, 5);
    assert_eq!(es[0].size, 17);
    assert!(es[0].no_fat_chain);
    assert!(!es[0].is_dir);
    assert!(!es[0].deleted);
}

#[test]
fn long_names_span_several_name_entries() {
    let name = "a name longer than fifteen units.txt";
    let dir = exfat_set(name, 0x10, 0x01, 9, 4096, false);
    let es = parse_exfat_dir(&dir);
    assert_eq!(es[0].name, name);
    assert!(es[0].is_dir);
    assert!(!es[0].no_fat_chain);
}

#[test]
fn name_length_cuts_the_units() {
    let mut dir = exfat_set("HELLO.TXT", 0x20, 0x03, 5, 17, false);
    dir[32 + 3] = 5; // name length 5
    assert_eq!(parse_exfat_dir(&dir)[0].name, "HELLO");
}

#[test]
fn deleted_sets_are_surfaced() {
    let mut dir = exfat_set("KEEP.TXT", 0x20, 0x03, 5, 1, false);
    dir.extend_from_slice(&exfat_set("GONE.TXT", 0x20, 0x03, 6, 1, true));
    let es = parse_exfat_dir(&dir);
    assert_eq!(es.len(), 2);
    assert!(!es[0].deleted);
    assert!(es[1].deleted);
    assert_eq!(es[1].name, "GONE.TXT");
    assert_eq!(es[1].index, 3); // its File entry's slot
}

#[test]
fn a_set_whose_stream_state_disagrees_is_skipped() {
    let mut dir = exfat_set("ODD.TXT", 0x20, 0x03, 5, 1, false);
    dir[32] = 0x40; // in-use File entry with a deleted Stream Extension
    dir.extend_from_slice(&exfat_set("NEXT.TXT", 0x20, 0x03, 6, 1, false));
    let es = parse_exfat_dir(&dir);
    assert_eq!(es.len(), 1);
    assert_eq!(es[0].name, "NEXT.TXT");
}

#[test]
fn a_truncated_set_is_skipped() {
    let dir = exfat_set("HELLO.TXT", 0x20, 0x03, 5, 17, false);
    assert!(parse_exfat_dir(&dir[..64]).is_empty());
}

#[test]
fn end_marker_stops_and_other_types_are_passed_over() {
    let mut dir = vec![0u8; 32];
    dir[0] = 0x81; // allocation bitmap
    dir.extend_from_slice(&exfat_set("A.TXT", 0x20, 0x03, 5, 1, false));
    dir.extend_from_slice(&[0u8; 32]);
    dir.extend_from_slice(&exfat_set("B.TXT", 0x20, 0x03, 6, 1, false));
    let es = parse_exfat_dir(&dir);
    assert_eq!(es.len(), 1);
    assert_eq!(es[0].name, "A.TXT");
    assert_eq!(es[0].index, 1);
}

#[test]
fn volume_label_entry() {
    let mut e = vec![0u8; 32];
    e[0] = 0x83;
    e[1] = 4;
    for (k, u) in "DISK".encode_utf16().enumerate() {
        e[2 + 2 * k..4 + 2 * k].copy_from_slice(&u.to_le_bytes());
    }
    let es = parse_exfat_dir(&e);
    assert_eq!(es.len(), 1);
    assert!(es[0].is_volume_label);
    assert_eq!(es[0].name, "DISK");
}

#[test]
fn timestamps_split_into_date_and_time() {
    let mut dir = exfat_set("T.TXT", 0x20, 0x03, 5, 1, false);
    dir[8..12].copy_from_slice(&0x52CF_6972u32.to_le_bytes()); // create
    dir[20] = 150; // create 10 ms increment
    dir[12..16].copy_from_slice(&0x1234_5678u32.to_le_bytes()); // modify
    dir[16..20].copy_from_slice(&0x4321_0000u32.to_le_bytes()); // access
    let es = parse_exfat_dir(&dir);
    assert_eq!(es[0].created, (0x52CF, 0x6972, 150));
    assert_eq!(es[0].modified, (0x1234, 0x5678));
    assert_eq!(es[0].accessed, 0x4321);
}
