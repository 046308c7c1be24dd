use fat_forensic::{run_args, run_image, CliStep};

fn args(xs: &[&str]) -> Vec<String> {
    xs.iter().map(|s| (*s).to_string()).collect()
}

fn step(xs: &[&str]) -> (CliStep, String) {
    let mut out = String::new();
    let r = run_args(&args(xs), "0.1.0", &mut out);
    (r, out)
}

fn exit_code(r: &CliStep) -> Option<i32> {
    match r {
        CliStep::Exit(c) => Some(*c),
        CliStep::Open(_) => None,
    }
}

fn short_entry(name: &[u8; 11], attr: u8, cluster: u16, size: u32) -> [u8; 32] {
    let mut e = [0u8; 32];
    e[0..11].copy_from_slice(name);
    e[11] = attr;
    e[26..28].copy_from_slice(&cluster.to_le_bytes());
    e[28..32].copy_from_slice(&size.to_le_bytes());
    e
}

/// A FAT12 volume with a label, HELLO.TXT, a deleted GONE.TXT and SUBDIR
/// holding NESTED.TXT.
fn synth_fat12() -> Vec<u8> {
    let bps = 512usize;
    let mut img = vec![0u8; 64 * bps];
    img[0] = 0xEB;
    img[2] = 0x90;
    img[11..13].copy_from_slice(&512u16.to_le_bytes());
    img[13] = 1;
    img[14..16].copy_from_slice(&1u16.to_le_bytes());
    img[16] = 2;
    img[17..19].copy_from_slice(&16u16.to_le_bytes());
    img[19..21].copy_from_slice(&64u16.to_le_bytes());
    img[22..24].copy_from_slice(&1u16.to_le_bytes());
    img[510] = 0x55;
    img[511] = 0xAA;
    let fat = [0xF0u8, 0xFF, 0xFF, 0xFF, 0xFF, 0xFF, 0xFF, 0x0F];
    img[bps..bps + 8].copy_from_slice(&fat);
    img[2 * bps..2 * bps + 8].copy_from_slice(&fat);
    let root = 3 * bps;
    img[root..root + 32].copy_from_slice(&short_entry(b"MYVOLUME   ", 0x08, 0, 0));
    img[root + 32..root + 64].copy_from_slice(&short_entry(b"HELLO   TXT", 0x20, 2, 17));
    img[root + 64..root + 96].copy_from_slice(&short_entry(b"SUBDIR     ", 0x10, 3, 0));
    let mut gone = short_entry(b"GONE    TXT", 0x20, 0, 3);
    gone[0] = 0xE5;
    img[root + 96..root + 128].copy_from_slice(&gone);
    let data = 4 * bps;
    img[data..data + 17].copy_from_slice(b"hello from FAT12\n");
    let sub = data + bps;
    img[sub..sub + 32].copy_from_slice(&short_entry(b".          ", 0x10, 3, 0));
    img[sub + 32..sub + 64].copy_from_slice(&short_entry(b"..         ", 0x10, 0, 0));
    img[sub + 64..sub + 96].copy_from_slice(&short_entry(b"NESTED  TXT", 0x20, 4, 23));
    img
}

#[test]
fn version_flag() {
    let (r, out) = step(&["fat4n6", "--version"]);
    assert_eq!(exit_code(&r), Some(0));
    assert!(out.contains("fat4n6 "));
    assert_eq!(out, "fat4n6 0.1.0\n");
    assert_eq!(exit_code(&step(&["fat4n6", "-V"]).0), Some(0));
    // The flag wins wherever it stands.
    assert_eq!(exit_code(&step(&["fat4n6", "img.bin", "-V"]).0), Some(0));
}

#[test]
fn missing_argument_is_usage_error() {
    let (r, out) = step(&["fat4n6"]);
    assert_eq!(exit_code(&r), Some(2));
    assert!(out.contains("usage"));
    assert_eq!(out, "usage: fat4n6 [-V|--version] <image>\n");
}

#[test]
fn a_path_is_to_be_opened() {
    let (r, out) = step(&["fat4n6", "/some/image.img", "extra"]);
    match r {
        CliStep::Open(p) => assert_eq!(p, "/some/image.img"),
        CliStep::Exit(_) => panic!("expected a path to open"),
    }
    assert!(out.is_empty());
}

#[test]
fn non_fat_image_errors() {
    let mut out = String::new();
    let code = run_image(b"fn main() { println!(\"not an image\"); }".repeat(20), &mut out);
    assert_eq!(code, 1);
    assert!(out.contains("not a FAT"));
}

#[test]
fn lists_and_audits_fat12() {
    let mut out = String::new();
    let code = run_image(synth_fat12(), &mut out);
    assert_eq!(code, 0);
    assert!(out.contains("Fat12"));
    assert!(out.contains("HELLO.TXT"));
    assert!(out.contains("SUBDIR/"));
    assert!(out.contains("NESTED.TXT"));
    assert!(out.contains("anomalies:"));
    assert_eq!(
        out,
        "variant: Fat12\nfiles:\n  HELLO.TXT (17 bytes)\n  SUBDIR/\n    NESTED.TXT (23 bytes)\n  ?ONE.TXT (3 bytes) (deleted)\nanomalies:\n  [Info] FAT-DIR-ENTRY-DELETED: deleted directory entry present: \"?ONE.TXT\" (recovery lead) \u{2014} consistent with a file removed from the volume\n"
    );
}

#[test]
fn a_clean_volume_reports_no_anomalies() {
    let mut img = synth_fat12();
    img[3 * 512 + 96] = 0; // drop the deleted entry: end of directory
    let mut out = String::new();
    assert_eq!(run_image(img, &mut out), 0);
    assert!(out.ends_with("anomalies:\n  (none)\n"));
}

#[test]
fn a_short_image_cannot_be_opened() {
    let mut out = String::new();
    assert_eq!(run_image(vec![0u8; 10], &mut out), 1);
    assert_eq!(
        out,
        "error: not a FAT/exFAT volume: I/O error during read boot sector: failed to fill whole buffer\n"
    );
}

/// An exFAT volume (512 B sectors and clusters) whose root (cluster 4) holds
/// HELLO.TXT (contiguous at cluster 5) and an empty subdir (cluster 6).
fn synth_exfat() -> Vec<u8> {
    let bps = 512usize;
    let mut img = vec![0u8; 48 * bps];
    img[0] = 0xEB;
    img[1] = 0x76;
    img[2] = 0x90;
    img[3..11].copy_from_slice(b"EXFAT   ");
    img[80..84].copy_from_slice(&24u32.to_le_bytes());
    img[84..88].copy_from_slice(&1u32.to_le_bytes());
    img[88..92].copy_from_slice(&32u32.to_le_bytes());
    img[92..96].copy_from_slice(&16u32.to_le_bytes());
    img[96..100].copy_from_slice(&4u32.to_le_bytes());
    img[108] = 9;
    img[110] = 1;
    img[510] = 0x55;
    img[511] = 0xAA;
    let fat = 24 * bps;
    for c in [4usize, 6] {
        img[fat + 4 * c..fat + 4 * c + 4].copy_from_slice(&0xFFFF_FFFFu32.to_le_bytes());
    }
    let root = (32 + 2) * bps;
    let mut put = |at: usize, name: &str, attr: u8, flags: u8, cluster: u32, size: u64| {
        img[at] = 0x85;
        img[at + 1] = 2;
        img[at + 4] = attr;
        img[at + 32] = 0xC0;
        img[at + 33] = flags;
        img[at + 35] = name.len() as u8;
        img[at + 52..at + 56].copy_from_slice(&cluster.to_le_bytes());
        img[at + 56..at + 64].copy_from_slice(&size.to_le_bytes());
        img[at + 64] = 0xC1;
        for (k, u) in name.encode_utf16().enumerate() {
            img[at + 66 + 2 * k..at + 68 + 2 * k].copy_from_slice(&u.to_le_bytes());
        }
    };
    put(root, "HELLO.TXT", 0x20, 0x03, 5, 17);
    put(root + 96, "subdir", 0x10, 0x01, 6, 512);
    img
}

#[test]
fn lists_exfat() {
    let mut out = String::new();
    let code = run_image(synth_exfat(), &mut out);
    assert_eq!(code, 0);
    assert!(out.contains("ExFat"));
    assert!(out.contains("HELLO.TXT"));
    assert!(out.starts_with("variant: ExFat\nfiles:\n  HELLO.TXT (17 bytes)\n  subdir/\nanomalies:\n"));
}
