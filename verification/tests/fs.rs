use fat_forensic::{FatFs, FatVariant, FileId};

/// Build a small but structurally-valid FAT32 image: 512 B sectors, 32
/// reserved, 2 FATs of 512 sectors, root at cluster 2 with one file
/// `TEST.TXT` at cluster 3. The claimed volume size yields > 65525 clusters
/// (→ FAT32) while only the used clusters are physically backed.
fn synth_fat32() -> Vec<u8> {
    let bps = 512usize;
    let reserved = 32usize;
    let fat_sectors = 512usize;
    let num_fats = 2usize;
    let data_start = (reserved + num_fats * fat_sectors) * bps; // cluster 2
    let mut img = vec![0u8; data_start + 4 * bps];

    img[0] = 0xEB;
    img[2] = 0x90;
    img[11..13].copy_from_slice(&512u16.to_le_bytes());
    img[13] = 1; // sectors/cluster
    img[14..16].copy_from_slice(&(reserved as u16).to_le_bytes());
    img[16] = num_fats as u8;
    img[32..36].copy_from_slice(&70000u32.to_le_bytes()); // total sectors 32
    img[36..40].copy_from_slice(&(fat_sectors as u32).to_le_bytes());
    img[44..48].copy_from_slice(&2u32.to_le_bytes()); // root cluster
    img[510] = 0x55;
    img[511] = 0xAA;

    // FAT1: cluster 2 (root) and cluster 3 (file) each end-of-chain.
    let fat = reserved * bps;
    img[fat + 8..fat + 12].copy_from_slice(&0x0FFF_FFFFu32.to_le_bytes());
    img[fat + 12..fat + 16].copy_from_slice(&0x0FFF_FFFFu32.to_le_bytes());

    // Root directory (cluster 2): one short entry TEST.TXT → cluster 3, 9 B.
    let mut e = [0u8; 32];
    e[0..11].copy_from_slice(b"TEST    TXT");
    e[11] = 0x20;
    e[26..28].copy_from_slice(&3u16.to_le_bytes());
    e[28..32].copy_from_slice(&9u32.to_le_bytes());
    img[data_start..data_start + 32].copy_from_slice(&e);

    // File data (cluster 3).
    img[data_start + bps..data_start + bps + 9].copy_from_slice(b"hi fat32\n");
    img
}

fn short_entry(name: &[u8; 11], attr: u8, cluster: u16, size: u32) -> [u8; 32] {
    let mut e = [0u8; 32];
    e[0..11].copy_from_slice(name);
    e[11] = attr;
    e[26..28].copy_from_slice(&cluster.to_le_bytes());
    e[28..32].copy_from_slice(&size.to_le_bytes());
    e
}

fn set_fat12(fat: &mut [u8], n: usize, v: u16) {
    let off = n * 3 / 2;
    let cur = u16::from_le_bytes([fat[off], fat[off + 1]]);
    let new = if n % 2 == 0 { (cur & 0xF000) | (v & 0x0FFF) } else { (cur & 0x000F) | (v << 4) };
    fat[off..off + 2].copy_from_slice(&new.to_le_bytes());
}

/// A FAT12 volume: 512 B sectors, 1 sector/cluster, 1 reserved, 2 FATs of one
/// sector, 16 root entries (one sector), 64 sectors. Root: a label, HELLO.TXT
/// (cluster 2), SUBDIR (cluster 3) holding NESTED.TXT (cluster 4), and
/// BIG.BIN spanning clusters 5 → 7 → 6.
fn synth_fat12() -> Vec<u8> {
    let bps = 512usize;
    let mut img = vec![0u8; 64 * bps];
    img[0] = 0xEB;
    img[1] = 0x3C;
    img[2] = 0x90;
    img[11..13].copy_from_slice(&512u16.to_le_bytes());
    img[13] = 1;
    img[14..16].copy_from_slice(&1u16.to_le_bytes());
    img[16] = 2;
    img[17..19].copy_from_slice(&16u16.to_le_bytes());
    img[19..21].copy_from_slice(&64u16.to_le_bytes());
    img[22..24].copy_from_slice(&1u16.to_le_bytes());
    img[510] = 0x55;
    img[511] = 0xAA;

    let mut fat = vec![0u8; bps];
    set_fat12(&mut fat, 0, 0xFF0);
    set_fat12(&mut fat, 1, 0xFFF);
    set_fat12(&mut fat, 2, 0xFFF);
    set_fat12(&mut fat, 3, 0xFFF);
    set_fat12(&mut fat, 4, 0xFFF);
    set_fat12(&mut fat, 5, 7);
    set_fat12(&mut fat, 7, 6);
    set_fat12(&mut fat, 6, 0xFFF);
    img[bps..2 * bps].copy_from_slice(&fat);
    img[2 * bps..3 * bps].copy_from_slice(&fat);

    let root = 3 * bps;
    img[root..root + 32].copy_from_slice(&short_entry(b"MYVOLUME   ", 0x08, 0, 0));
    img[root + 32..root + 64].copy_from_slice(&short_entry(b"HELLO   TXT", 0x20, 2, 17));
    img[root + 64..root + 96].copy_from_slice(&short_entry(b"SUBDIR     ", 0x10, 3, 0));
    img[root + 96..root + 128].copy_from_slice(&short_entry(b"BIG     BIN", 0x20, 5, 1200));

    let data = 4 * bps; // cluster 2
    let cl = |c: usize| data + (c - 2) * bps;
    img[cl(2)..cl(2) + 17].copy_from_slice(b"hello from FAT12\n");
    let sub = cl(3);
    img[sub..sub + 32].copy_from_slice(&short_entry(b".          ", 0x10, 3, 0));
    img[sub + 32..sub + 64].copy_from_slice(&short_entry(b"..         ", 0x10, 0, 0));
    img[sub + 64..sub + 96].copy_from_slice(&short_entry(b"NESTED  TXT", 0x20, 4, 23));
    img[cl(4)..cl(4) + 23].copy_from_slice(b"nested file content 12\n");
    for (k, c) in [5usize, 7, 6].iter().enumerate() {
        let fill = b'a' + k as u8;
        for b in &mut img[cl(*c)..cl(*c) + bps] {
            *b = fill;
        }
    }
    img
}

#[test]
fn opens_and_reads_synthetic_fat32() {
    let fs = FatFs::open(synth_fat32()).unwrap();
    assert_eq!(fs.variant(), FatVariant::Fat32);

    let root = fs.root();
    let nodes = fs.read_dir(root).unwrap();
    let test = nodes.iter().find(|n| n.name == "TEST.TXT").unwrap();
    assert_eq!(test.size, 9);
    assert!(!test.is_dir);

    let id = fs.lookup(root, b"TEST.TXT").unwrap().unwrap();
    assert_eq!(fs.meta(id).unwrap().size, 9);

    let mut buf = vec![0u8; 16];
    let n = fs.read_at(id, 0, &mut buf).unwrap();
    assert_eq!(&buf[..n], b"hi fat32\n");
}

#[test]
fn read_at_past_eof_returns_zero() {
    let fs = FatFs::open(synth_fat32()).unwrap();
    let id = fs.lookup(fs.root(), b"TEST.TXT").unwrap().unwrap();
    let mut buf = [0u8; 8];
    assert_eq!(fs.read_at(id, 100, &mut buf).unwrap(), 0);
}

#[test]
fn open_rejects_non_fat() {
    let img = vec![0u8; 1024];
    assert!(FatFs::open(img).is_err());
}

#[test]
fn lookup_absent_name_is_none() {
    let fs = FatFs::open(synth_fat32()).unwrap();
    assert!(fs.lookup(fs.root(), b"NOPE.TXT").unwrap().is_none());
}

#[test]
fn short_image_is_an_io_error() {
    let e = FatFs::open(vec![0u8; 100]).err().unwrap();
    assert_eq!(e.message(), "I/O error during read boot sector: failed to fill whole buffer");
}

#[test]
fn fat12_fixed_root_lists_and_reads() {
    let fs = FatFs::open(synth_fat12()).unwrap();
    assert_eq!(fs.variant(), FatVariant::Fat12);
    let nodes = fs.read_dir(fs.root()).unwrap();
    let names: Vec<&str> = nodes.iter().map(|n| n.name.as_str()).collect();
    assert_eq!(names, vec!["MYVOLUME", "HELLO.TXT", "SUBDIR", "BIG.BIN"]);
    assert!(nodes[0].is_volume_label);
    assert_eq!(nodes[1].id, FileId::Entry { dir_cluster: 0xFFFF_FFFF, index: 1 });

    let hello = fs.lookup(fs.root(), b"HELLO.TXT").unwrap().unwrap();
    let mut buf = vec![0u8; 64];
    let n = fs.read_at(hello, 0, &mut buf).unwrap();
    assert_eq!(&buf[..n], b"hello from FAT12\n");
    let n = fs.read_at(hello, 6, &mut buf[..4]).unwrap();
    assert_eq!(&buf[..n], b"from");
}

#[test]
fn nested_directory_is_navigable() {
    let fs = FatFs::open(synth_fat12()).unwrap();
    let sub = fs.lookup(fs.root(), b"SUBDIR").unwrap().unwrap();
    assert!(fs.meta(sub).unwrap().is_dir);
    let nested = fs.lookup(sub, b"NESTED.TXT").unwrap().unwrap();
    assert_eq!(nested, FileId::Entry { dir_cluster: 3, index: 2 });
    let meta = fs.meta(nested).unwrap();
    assert_eq!(meta.size, 23);
    let mut buf = vec![0u8; 23];
    assert_eq!(fs.read_at(nested, 0, &mut buf).unwrap(), 23);
    assert_eq!(&buf, b"nested file content 12\n");
}

#[test]
fn the_label_is_not_found_by_lookup() {
    let fs = FatFs::open(synth_fat12()).unwrap();
    assert!(fs.lookup(fs.root(), b"MYVOLUME").unwrap().is_none());
}

#[test]
fn a_file_is_not_a_directory() {
    let fs = FatFs::open(synth_fat12()).unwrap();
    let hello = fs.lookup(fs.root(), b"HELLO.TXT").unwrap().unwrap();
    let e = fs.read_dir(hello).err().unwrap();
    assert_eq!(e.message(), "corrupt structure: \"HELLO.TXT\" is not a directory");
}

#[test]
fn a_missing_slot_is_corrupt() {
    let fs = FatFs::open(synth_fat12()).unwrap();
    let e = fs.meta(FileId::Entry { dir_cluster: 0xFFFF_FFFF, index: 9 }).err().unwrap();
    assert_eq!(e.message(), "corrupt structure: no directory entry at slot 9");
}

#[test]
fn reads_follow_a_fragmented_chain() {
    let fs = FatFs::open(synth_fat12()).unwrap();
    let big = fs.lookup(fs.root(), b"BIG.BIN").unwrap().unwrap();
    let mut buf = vec![0u8; 2000];
    let n = fs.read_at(big, 0, &mut buf).unwrap();
    assert_eq!(n, 1200);
    assert!(buf[..512].iter().all(|&b| b == b'a'));
    assert!(buf[512..1024].iter().all(|&b| b == b'b'));
    assert!(buf[1024..1200].iter().all(|&b| b == b'c'));
    // A read straddling the cluster boundary.
    let n = fs.read_at(big, 510, &mut buf[..4]).unwrap();
    assert_eq!(n, 4);
    assert_eq!(&buf[..4], b"aabb");
}

#[test]
fn runs_merge_adjacent_clusters_only() {
    let fs = FatFs::open(synth_fat12()).unwrap();
    let big = fs.lookup(fs.root(), b"BIG.BIN").unwrap().unwrap();
    // clusters 5, 7, 6: sector 4 + (c - 2)
    assert_eq!(fs.runs(big).unwrap(), vec![(7 * 512, 512), (9 * 512, 512), (8 * 512, 176)]);
    // The fixed root is one region.
    assert_eq!(fs.runs(fs.root()).unwrap(), vec![(3 * 512, 512)]);
}

#[test]
fn root_meta_is_the_synthetic_directory() {
    let fs = FatFs::open(synth_fat12()).unwrap();
    let m = fs.meta(fs.root()).unwrap();
    assert!(m.is_dir);
    assert_eq!(m.name, "");
    assert_eq!(m.attributes, 0x10);
    assert_eq!(m.id, FileId::Root);
}

/// exFAT entry-set builder: a File entry, its Stream Extension and as many
/// File Name entries as the name needs.
fn exfat_set(name: &str, attr: u16, flags: u8, cluster: u32, size: u64, deleted: bool) -> Vec<u8> {
    let units: Vec<u16> = name.encode_utf16().collect();
    let name_slots = (units.len() + 14) / 15;
    let mut out = vec![0u8; 32 * (2 + name_slots)];
    out[0] = if deleted { 0x05 } else { 0x85 };
    out[1] = (1 + name_slots) as u8;
    out[4..6].copy_from_slice(&attr.to_le_bytes());
    // Modified 2021-06-15 13:11:36.
    let date: u16 = (41 << 9) | (6 << 5) | 15;
    let time: u16 = (13 << 11) | (11 << 5) | 18;
    out[12..14].copy_from_slice(&time.to_le_bytes());
    out[14..16].copy_from_slice(&date.to_le_bytes());
    let s = 32;
    out[s] = if deleted { 0x40 } else { 0xC0 };
    out[s + 1] = flags;
    out[s + 3] = units.len() as u8;
    out[s + 8..s + 16].copy_from_slice(&size.to_le_bytes());
    out[s + 20..s + 24].copy_from_slice(&cluster.to_le_bytes());
    out[s + 24..s + 32].copy_from_slice(&size.to_le_bytes());
    for (k, u) in units.iter().enumerate() {
        let slot = 64 + 32 * (k / 15);
        out[slot] = if deleted { 0x41 } else { 0xC1 };
        let off = slot + 2 + 2 * (k % 15);
        out[off..off + 2].copy_from_slice(&u.to_le_bytes());
    }
    out
}

/// An exFAT volume: 512 B sectors and clusters, FAT at sector 24, cluster heap
/// at sector 32, root directory at cluster 4 (FAT-chained). Root: a label,
/// HELLO.TXT (contiguous, cluster 5), subdir (FAT-chained, cluster 6). The
/// subdir holds NESTED.TXT (cluster 7), a long-named file over clusters 8..9
/// (contiguous) and a deleted GONE.TXT.
fn synth_exfat() -> Vec<u8> {
    let bps = 512usize;
    let mut img = vec![0u8; 48 * bps];
    img[0] = 0xEB;
    img[1] = 0x76;
    img[2] = 0x90;
    img[3..11].copy_from_slice(b"EXFAT   ");
    img[72..80].copy_from_slice(&48u64.to_le_bytes());
    img[80..84].copy_from_slice(&24u32.to_le_bytes());
    img[84..88].copy_from_slice(&1u32.to_le_bytes());
    img[88..92].copy_from_slice(&32u32.to_le_bytes());
    img[92..96].copy_from_slice(&16u32.to_le_bytes());
    img[96..100].copy_from_slice(&4u32.to_le_bytes());
    img[108] = 9;
    img[109] = 0;
    img[110] = 1;
    img[510] = 0x55;
    img[511] = 0xAA;
    let fat = 24 * bps;
    for c in [4usize, 6] {
        img[fat + 4 * c..fat + 4 * c + 4].copy_from_slice(&0xFFFF_FFFFu32.to_le_bytes());
    }
    let cl = |c: usize| (32 + c - 2) * bps;

    let mut root = Vec::new();
    let mut label = vec![0u8; 32];
    label[0] = 0x83;
    label[1] = 3;
    for (k, u) in "VOL".encode_utf16().enumerate() {
        label[2 + 2 * k..4 + 2 * k].copy_from_slice(&u.to_le_bytes());
    }
    root.extend_from_slice(&label);
    let mut bitmap = vec![0u8; 32];
    bitmap[0] = 0x81;
    root.extend_from_slice(&bitmap);
    root.extend_from_slice(&exfat_set("HELLO.TXT", 0x20, 0x03, 5, 17, false));
    root.extend_from_slice(&exfat_set("subdir", 0x10, 0x01, 6, 512, false));
    img[cl(4)..cl(4) + root.len()].copy_from_slice(&root);
    img[cl(5)..cl(5) + 17].copy_from_slice(b"hello from exFAT\n");

    let mut sub = Vec::new();
    sub.extend_from_slice(&exfat_set("NESTED.TXT", 0x20, 0x03, 7, 21, false));
    sub.extend_from_slice(&exfat_set("LongFileName_exfat.txt", 0x20, 0x03, 8, 600, false));
    sub.extend_from_slice(&exfat_set("GONE.TXT", 0x20, 0x03, 10, 5, true));
    img[cl(6)..cl(6) + sub.len()].copy_from_slice(&sub);
    img[cl(7)..cl(7) + 21].copy_from_slice(b"nested exfat content\n");
    for b in &mut img[cl(8)..cl(8) + 600] {
        *b = b'L';
    }
    img
}

#[test]
fn exfat_volume_is_navigable() {
    let fs = FatFs::open(synth_exfat()).unwrap();
    assert_eq!(fs.variant(), FatVariant::ExFat);
    let nodes = fs.read_dir(fs.root()).unwrap();
    let names: Vec<&str> = nodes.iter().map(|n| n.name.as_str()).collect();
    assert_eq!(names, vec!["VOL", "HELLO.TXT", "subdir"]);
    assert!(nodes[0].is_volume_label);
    assert_eq!(nodes[1].id, FileId::Entry { dir_cluster: 4, index: 2 });

    let hello = fs.lookup(fs.root(), b"HELLO.TXT").unwrap().unwrap();
    let meta = fs.meta(hello).unwrap();
    assert_eq!(meta.size, 17);
    assert_eq!(meta.modified.unwrap().unix_seconds, 1_623_762_696);
    let mut buf = vec![0u8; 32];
    let n = fs.read_at(hello, 0, &mut buf).unwrap();
    assert_eq!(&buf[..n], b"hello from exFAT\n");
}

#[test]
fn exfat_subdirectory_and_long_names() {
    let fs = FatFs::open(synth_exfat()).unwrap();
    let sub = fs.lookup(fs.root(), b"subdir").unwrap().unwrap();
    assert!(fs.meta(sub).unwrap().is_dir);
    let nodes = fs.read_dir(sub).unwrap();
    let names: Vec<&str> = nodes.iter().map(|n| n.name.as_str()).collect();
    assert_eq!(names, vec!["NESTED.TXT", "LongFileName_exfat.txt", "GONE.TXT"]);
    assert!(nodes[2].is_deleted);
    assert!(fs.lookup(sub, b"GONE.TXT").unwrap().is_none());

    let nested = fs.lookup(sub, b"NESTED.TXT").unwrap().unwrap();
    let mut buf = vec![0u8; 21];
    assert_eq!(fs.read_at(nested, 0, &mut buf).unwrap(), 21);
    assert_eq!(&buf, b"nested exfat content\n");

    // The long-named file spans two contiguous clusters without a FAT chain.
    let long = fs.lookup(sub, b"LongFileName_exfat.txt").unwrap().unwrap();
    let mut buf = vec![0u8; 700];
    assert_eq!(fs.read_at(long, 0, &mut buf).unwrap(), 600);
    assert!(buf[..600].iter().all(|&b| b == b'L'));
    assert_eq!(fs.runs(long).unwrap(), vec![(38 * 512, 600)]);
}

#[test]
fn exfat_boot_faults_are_reported() {
    let mut img = synth_exfat();
    img[96..100].copy_from_slice(&0u32.to_le_bytes()); // root cluster 0
    let e = FatFs::open(img).err().unwrap();
    assert_eq!(
        e.message(),
        "invalid boot sector: root directory cluster 0 is outside the cluster heap"
    );
}

#[test]
fn the_fixed_root_reads_its_region() {
    let img = synth_fat12();
    let fs = FatFs::open(img.clone()).unwrap();
    let mut buf = vec![0u8; 64];
    assert_eq!(fs.read_at(fs.root(), 0, &mut buf).unwrap(), 64);
    assert_eq!(&buf[..], &img[3 * 512..3 * 512 + 64]);
    // Near the end of the 512-byte region only what is left is read.
    let mut buf = vec![0xAAu8; 64];
    assert_eq!(fs.read_at(fs.root(), 500, &mut buf).unwrap(), 12);
    assert_eq!(&buf[..12], &img[3 * 512 + 500..4 * 512]);
    assert!(buf[12..].iter().all(|&b| b == 0xAA));
    assert_eq!(fs.read_at(fs.root(), 512, &mut buf).unwrap(), 0);
}

#[test]
fn runs_merge_physically_adjacent_clusters() {
    let mut img = synth_fat12();
    // BIG.BIN: 5 -> 6 -> 7 (all adjacent), in FAT1.
    let mut fat = img[512..1024].to_vec();
    set_fat12(&mut fat, 5, 6);
    set_fat12(&mut fat, 6, 7);
    set_fat12(&mut fat, 7, 0xFFF);
    img[512..1024].copy_from_slice(&fat);
    let fs = FatFs::open(img).unwrap();
    let big = fs.lookup(fs.root(), b"BIG.BIN").unwrap().unwrap();
    assert_eq!(fs.runs(big).unwrap(), vec![(7 * 512, 1200)]);
}

#[test]
fn exfat_contiguous_directory_spans_its_clusters() {
    let mut img = synth_exfat();
    let cl = |c: usize| (32 + c - 2) * 512;
    // A NoFatChain directory over clusters 11..=12 (no FAT entries), holding
    // six files whose entry sets run into its second cluster.
    let dir = exfat_set("many", 0x10, 0x03, 11, 1024, false);
    img[cl(4) + 256..cl(4) + 256 + dir.len()].copy_from_slice(&dir);
    let mut body = Vec::new();
    for k in 0..6u32 {
        body.extend_from_slice(&exfat_set(&format!("F{k}.TXT"), 0x20, 0x03, 13, 3, false));
    }
    assert!(body.len() > 512);
    img[cl(11)..cl(11) + body.len()].copy_from_slice(&body);
    img[cl(13)..cl(13) + 3].copy_from_slice(b"abc");

    let fs = FatFs::open(img).unwrap();
    let many = fs.lookup(fs.root(), b"many").unwrap().unwrap();
    let nodes = fs.read_dir(many).unwrap();
    let names: Vec<&str> = nodes.iter().map(|n| n.name.as_str()).collect();
    assert_eq!(names, vec!["F0.TXT", "F1.TXT", "F2.TXT", "F3.TXT", "F4.TXT", "F5.TXT"]);
    // An entry in the second cluster is re-read through its id.
    let last = fs.lookup(many, b"F5.TXT").unwrap().unwrap();
    assert_eq!(last, FileId::Entry { dir_cluster: 11, index: 15 });
    assert_eq!(fs.meta(last).unwrap().size, 3);
    let mut buf = [0u8; 8];
    assert_eq!(fs.read_at(last, 0, &mut buf).unwrap(), 3);
    assert_eq!(&buf[..3], b"abc");
}

#[test]
fn a_read_returns_the_smaller_of_buffer_and_remaining_data() {
    let fs = FatFs::open(synth_fat12()).unwrap();
    fs.bounds();
    let big = fs.lookup(fs.root(), b"BIG.BIN").unwrap().unwrap();
    let mut buf = vec![0u8; 500];
    assert_eq!(fs.read_at(big, 1000, &mut buf).unwrap(), 200);
    assert!(buf[..24].iter().all(|&b| b == b'b'));
    assert!(buf[24..200].iter().all(|&b| b == b'c'));
    assert_eq!(fs.read_at(big, 100, &mut buf).unwrap(), 500);
    assert_eq!(fs.read_at(big, 1200, &mut buf).unwrap(), 0);
}
