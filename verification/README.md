# fat_forensic

A forensic reader and auditor for FAT12, FAT16, FAT32 and exFAT volume images,
written in Verus: every function of the library carries a `requires`/`ensures`
contract over a mathematical model of the image, and Verus proves the code
against it.

- `src/` — the verified library.
  - `bytes`, `boot`, `exfat`: bounds-checked readers, BPB and exFAT boot-sector
    parsing into one `Geometry`, the exFAT boot-region checksum.
  - `fat`: FAT12/16/32/exFAT entry decoding and capped chain walking.
  - `dirent`, `exfat_dir`: FAT short entries with VFAT long names, exFAT entry
    sets; deleted entries are kept.
  - `time`: packed date/time decoding.
  - `fs`: `FatFs`, the reader over an in-memory image (`open`, `root`,
    `read_dir`, `lookup`, `meta`, `read_at`, `runs`).
  - `audit`, `chains`: the anomaly auditor (boot signature, BPB, FAT mirror,
    exFAT checksum, deleted entries; links into bad clusters, cross-linked
    and orphaned chains).
  - `cli`: the `fat4n6` command's decisions and text (arguments, tree
    listing, anomaly report).
  - `text`, `error`: text building and the error type.
- `tests/` — tests over synthetic images.
- `app/` — the `fat4n6` binary (file reading, output), the error type with
  `std::error::Error`, anomalies as `forensicnomicon` observations, the
  path-based audit entry point, and the volume mounted as a `forensic-vfs`
  filesystem.

Verify with `verus src/lib.rs --crate-type lib`; `app/` builds against the
`forensicnomicon`, `thiserror` and `forensic-vfs` crates.
