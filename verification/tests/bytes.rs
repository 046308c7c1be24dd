use fat_forensic::{le_u16, le_u32, le_u64, u8_at};

#[test]
fn reads_within_bounds() {
    let d = [0x01u8, 0x02, 0x03, 0x04, 0x05, 0x06, 0x07, 0x08];
    assert_eq!(u8_at(&d, 0), 0x01);
    assert_eq!(le_u16(&d, 0), 0x0201);
    assert_eq!(le_u32(&d, 0), 0x0403_0201);
    assert_eq!(le_u64(&d, 0), 0x0807_0605_0403_0201);
}

#[test]
fn out_of_range_yields_zero_never_panics() {
    let d = [0xAAu8, 0xBB];
    assert_eq!(u8_at(&d, 9), 0);
    assert_eq!(le_u16(&d, 1), 0); // straddles the end
    assert_eq!(le_u32(&d, 0), 0); // only 2 bytes available
    assert_eq!(le_u64(&d, 0), 0);
    assert_eq!(le_u16(&[], 0), 0);
}

#[test]
fn reads_at_an_interior_offset() {
    let d = [0u8, 0x34, 0x12, 0x78, 0x56];
    assert_eq!(le_u16(&d, 1), 0x1234);
    assert_eq!(le_u32(&d, 1), 0x5678_1234);
    assert_eq!(u8_at(&d, 4), 0x56);
}

#[test]
fn huge_offset_does_not_overflow() {
    let d = [1u8, 2, 3, 4];
    assert_eq!(le_u32(&d, usize::MAX), 0);
    assert_eq!(le_u16(&d, usize::MAX - 1), 0);
}
