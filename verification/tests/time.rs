use fat_forensic::{decode, FatTimestamp};

#[test]
fn decodes_a_known_datetime() {
    // 2021-06-15 13:37:20, tenths = 0.
    let date = (41u16 << 9) | (6 << 5) | 15;
    let time = (13u16 << 11) | (37 << 5) | 10;
    let ts = decode(date, time, 0).unwrap();
    // 2021-06-15T13:37:20Z == 1623764240 unix seconds
    assert_eq!(ts.unix_seconds, 1_623_764_240);
    assert_eq!(ts.subsec_nanos, 0);
}

#[test]
fn tenths_add_sub_second_and_carry() {
    let date = (41u16 << 9) | (6 << 5) | 15;
    let time = (13u16 << 11) | (37 << 5) | 10;
    // tenths = 150 → +1 second and 500 ms.
    let ts = decode(date, time, 150).unwrap();
    assert_eq!(ts.unix_seconds, 1_623_764_241);
    assert_eq!(ts.subsec_nanos, 500_000_000);
}

#[test]
fn zero_date_is_unset() {
    assert!(decode(0, 0, 0).is_none());
}

#[test]
fn epoch_1980_is_positive() {
    // 1980-01-01 00:00:00
    let date = (0u16 << 9) | (1 << 5) | 1;
    let ts = decode(date, 0, 0).unwrap();
    assert_eq!(ts.unix_seconds, 315_532_800); // 1980-01-01T00:00:00Z
}

#[test]
fn typed_fields_accessible() {
    let _ = FatTimestamp {
        unix_seconds: 0,
        subsec_nanos: 0,
    };
}

#[test]
fn leap_day_after_february() {
    // 2020-03-01 00:00:00 == 1583020800; 2020 is a leap year.
    let date = (40u16 << 9) | (3 << 5) | 1;
    assert_eq!(decode(date, 0, 0).unwrap().unix_seconds, 1_583_020_800);
    // 2100-03-01 == 4107542400 (2100 is not a leap year).
    let date = (120u16 << 9) | (3 << 5) | 1;
    assert_eq!(decode(date, 0, 0).unwrap().unix_seconds, 4_107_542_400);
}

#[test]
fn out_of_range_fields_are_unset() {
    let month13 = (41u16 << 9) | (13 << 5) | 1;
    assert!(decode(month13, 0, 0).is_none());
    let day0 = (41u16 << 9) | (6 << 5);
    assert!(decode(day0, 0, 0).is_none());
    let ok = (41u16 << 9) | (6 << 5) | 15;
    let hour24 = 24u16 << 11;
    assert!(decode(ok, hour24, 0).is_none());
    let minute60 = 60u16 << 5;
    assert!(decode(ok, minute60, 0).is_none());
    let second60 = 30u16;
    assert!(decode(ok, second60, 0).is_none());
}

#[test]
fn last_second_of_a_day() {
    // 1980-01-01 23:59:58
    let date = (0u16 << 9) | (1 << 5) | 1;
    let time = (23u16 << 11) | (59 << 5) | 29;
    assert_eq!(decode(date, time, 0).unwrap().unix_seconds, 315_532_800 + 86_398);
}
