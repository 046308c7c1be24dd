//! Bounds-checked little-endian integer readers over untrusted image bytes.
//!
//! Every reader yields `0` when the requested window falls outside the data,
//! so a truncated or lying image can never index out of bounds.
use vstd::prelude::*;

verus! {

/// The byte at `off`, or `0` when `off` lies outside `s`.
pub open spec fn byte_at(s: Seq<u8>, off: int) -> u8 {
    if 0 <= off < s.len() { s[off] } else { 0 }
}

/// Whether the `n`-byte window at `off` lies inside `s`.
pub open spec fn in_window(s: Seq<u8>, off: int, n: int) -> bool {
    0 <= off && off + n <= s.len()
}

/// Little-endian `u16` at `off`, or `0` when the window is out of range.
pub open spec fn spec_le_u16(s: Seq<u8>, off: int) -> u16 {
    if in_window(s, off, 2) {
        (s[off] + s[off + 1] * 0x100) as u16
    } else {
        0
    }
}

/// Little-endian `u32` at `off`, or `0` when the window is out of range.
pub open spec fn spec_le_u32(s: Seq<u8>, off: int) -> u32 {
    if in_window(s, off, 4) {
        (s[off] + s[off + 1] * 0x100 + s[off + 2] * 0x1_0000 + s[off + 3] * 0x100_0000) as u32
    } else {
        0
    }
}

/// Little-endian `u64` at `off`, or `0` when the window is out of range.
pub open spec fn spec_le_u64(s: Seq<u8>, off: int) -> u64 {
    if in_window(s, off, 8) {
        (s[off] + s[off + 1] * 0x100 + s[off + 2] * 0x1_0000 + s[off + 3] * 0x100_0000
            + s[off + 4] * 0x1_0000_0000 + s[off + 5] * 0x100_0000_0000
            + s[off + 6] * 0x1_0000_0000_0000 + s[off + 7] * 0x100_0000_0000_0000) as u64
    } else {
        0
    }
}

/// One byte at `off`, or `0` if out of range.
pub fn u8_at(data: &[u8], off: usize) -> (r: u8)
    ensures
        r == byte_at(data@, off as int),
{
    if off < data.len() {
        data[off]
    } else {
        0
    }
}

/// The `n`-byte window at `off`, or `None` if it does not lie inside `data`
/// (the end offset is computed overflow-safely).
fn window(data: &[u8], off: usize, n: usize) -> (r: Option<&[u8]>)
    ensures
        r is None <==> !in_window(data@, off as int, n as int),
        r matches Some(w) ==> w@ == data@.subrange(off as int, off + n),
{
    let len = data.len();
    match off.checked_add(n) {
        Some(end) => {
            if end <= len {
                Some(&data[off..end])
            } else {
                None
            }
        },
        None => None,
    }
}

/// Little-endian `u16` at `off`, or `0` if the 2-byte window is out of range.
pub fn le_u16(data: &[u8], off: usize) -> (r: u16)
    ensures
        r == spec_le_u16(data@, off as int),
{
    match window(data, off, 2) {
        Some(w) => {
            assert(w@[0] == data@[off as int] && w@[1] == data@[off + 1]);
            w[0] as u16 + (w[1] as u16) * 0x100
        },
        None => 0,
    }
}

/// Little-endian `u32` at `off`, or `0` if the 4-byte window is out of range.
pub fn le_u32(data: &[u8], off: usize) -> (r: u32)
    ensures
        r == spec_le_u32(data@, off as int),
{
    match window(data, off, 4) {
        Some(w) => {
            assert(w@[0] == data@[off as int] && w@[1] == data@[off + 1] && w@[2] == data@[off
                + 2] && w@[3] == data@[off + 3]);
            w[0] as u32 + (w[1] as u32) * 0x100 + (w[2] as u32) * 0x1_0000 + (w[3] as u32)
                * 0x100_0000
        },
        None => 0,
    }
}

/// Little-endian `u64` at `off`, or `0` if the 8-byte window is out of range.
pub fn le_u64(data: &[u8], off: usize) -> (r: u64)
    ensures
        r == spec_le_u64(data@, off as int),
{
    match window(data, off, 8) {
        Some(w) => {
            assert(w@[0] == data@[off as int] && w@[1] == data@[off + 1] && w@[2] == data@[off
                + 2] && w@[3] == data@[off + 3] && w@[4] == data@[off + 4] && w@[5] == data@[off
                + 5] && w@[6] == data@[off + 6] && w@[7] == data@[off + 7]);
            w[0] as u64 + (w[1] as u64) * 0x100 + (w[2] as u64) * 0x1_0000 + (w[3] as u64)
                * 0x100_0000 + (w[4] as u64) * 0x1_0000_0000 + (w[5] as u64) * 0x100_0000_0000
                + (w[6] as u64) * 0x1_0000_0000_0000 + (w[7] as u64) * 0x100_0000_0000_0000
        },
        None => 0,
    }
}

} // verus!
