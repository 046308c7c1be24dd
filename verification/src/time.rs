//! FAT packed date/time decode.
//!
//! FAT stores wall-clock local time: a 16-bit date (day, month, years since
//! 1980) and a 16-bit time (2-second resolution), with an optional 10 ms
//! "tenths" field on creation. There is no timezone; consumers treat these as
//! local.
use vstd::prelude::*;

verus! {

/// A decoded FAT timestamp: seconds since 1970-01-01T00:00:00 (of the
/// volume's local clock) plus a sub-second part.
#[derive(Debug, Clone, Copy, PartialEq, Eq, Structural)]
pub struct FatTimestamp {
    /// Whole seconds since the Unix epoch (local wall clock).
    pub unix_seconds: i64,
    /// Nanoseconds past `unix_seconds`.
    pub subsec_nanos: u32,
}

/// Whether `y` is a Gregorian leap year.
pub open spec fn is_leap(y: int) -> bool {
    (y % 4 == 0 && y % 100 != 0) || y % 400 == 0
}

/// Leap years in `1..y`.
pub open spec fn leaps_before(y: int) -> int {
    (y - 1) / 4 - (y - 1) / 100 + (y - 1) / 400
}

/// Days from 1970-01-01 to January 1st of year `y` (for `y >= 1970`).
pub open spec fn days_before_year(y: int) -> int {
    365 * (y - 1970) + leaps_before(y) - leaps_before(1970)
}

/// Days from January 1st to the first of month `m` (1..=12) in year `y`.
pub open spec fn days_before_month(y: int, m: int) -> int {
    (if m == 1 { 0int }
    else if m == 2 { 31 }
    else if m == 3 { 59 }
    else if m == 4 { 90 }
    else if m == 5 { 120 }
    else if m == 6 { 151 }
    else if m == 7 { 181 }
    else if m == 8 { 212 }
    else if m == 9 { 243 }
    else if m == 10 { 273 }
    else if m == 11 { 304 }
    else { 334 }) + if m > 2 && is_leap(y) { 1int } else { 0int }
}

/// Year field of a packed date (years since 1980 in bits 9..16).
pub open spec fn date_year(date: u16) -> int { 1980 + (date as int) / 512 }
/// Month field of a packed date (bits 5..9).
pub open spec fn date_month(date: u16) -> int { ((date as int) / 32) % 16 }
/// Day field of a packed date (bits 0..5).
pub open spec fn date_day(date: u16) -> int { (date as int) % 32 }
/// Hour field of a packed time (bits 11..16).
pub open spec fn time_hour(time: u16) -> int { (time as int) / 2048 }
/// Minute field of a packed time (bits 5..11).
pub open spec fn time_minute(time: u16) -> int { ((time as int) / 32) % 64 }
/// Seconds of a packed time (bits 0..5 count 2-second units).
pub open spec fn time_second(time: u16) -> int { ((time as int) % 32) * 2 }

/// Whether a packed date/time names a real calendar instant: a set date, month
/// 1..=12, day 1..=31, hour 0..=23, minute 0..=59, second 0..=58.
pub open spec fn fields_valid(date: u16, time: u16) -> bool {
    &&& date != 0
    &&& 1 <= date_month(date) <= 12
    &&& 1 <= date_day(date)
    &&& time_hour(time) <= 23
    &&& time_minute(time) <= 59
    &&& time_second(time) <= 58
}

/// The decoded instant of a valid packed date/time plus `tenths` 10 ms units.
pub open spec fn decode_spec(date: u16, time: u16, tenths: u8) -> Option<FatTimestamp> {
    if !fields_valid(date, time) {
        None
    } else {
        let y = date_year(date);
        let days = days_before_year(y) + days_before_month(y, date_month(date)) + date_day(date)
            - 1;
        let secs = days * 86400 + time_hour(time) * 3600 + time_minute(time) * 60 + time_second(
            time,
        ) + (tenths as int) / 100;
        Some(
            FatTimestamp {
                unix_seconds: secs as i64,
                subsec_nanos: (((tenths as int) % 100) * 10_000_000) as u32,
            },
        )
    }
}

/// Decode a packed FAT date/time (+ tenths of 10 ms); `None` when the date is
/// unset (0) or a field is out of range.
pub fn decode(date: u16, time: u16, tenths: u8) -> (r: Option<FatTimestamp>)
    ensures
        r == decode_spec(date, time, tenths),
{
    if date == 0 {
        return None;
    }
    let month = (date / 32) % 16;
    let day = date % 32;
    let hour = time / 2048;
    let minute = (time / 32) % 64;
    let second = (time % 32) * 2;
    if month < 1 || month > 12 || day < 1 || hour > 23 || minute > 59 || second > 58 {
        return None;
    }
    let y: u64 = 1980 + (date / 512) as u64;
    let leaps = (y - 1) / 4 - (y - 1) / 100 + (y - 1) / 400;
    let leaps_1970: u64 = 1969 / 4 - 1969 / 100 + 1969 / 400;
    let leap = (y % 4 == 0 && y % 100 != 0) || y % 400 == 0;
    let before_month: u64 = match month {
        1 => 0,
        2 => 31,
        3 => 59,
        4 => 90,
        5 => 120,
        6 => 151,
        7 => 181,
        8 => 212,
        9 => 243,
        10 => 273,
        11 => 304,
        _ => 334,
    };
    let extra: u64 = if month > 2 && leap {
        1
    } else {
        0
    };
    let days: u64 = 365 * (y - 1970) + leaps - leaps_1970 + before_month + extra + day as u64 - 1;
    let secs: u64 = days * 86400 + hour as u64 * 3600 + minute as u64 * 60 + second as u64
        + (tenths / 100) as u64;
    Some(
        FatTimestamp {
            unix_seconds: secs as i64,
            subsec_nanos: (tenths % 100) as u32 * 10_000_000,
        },
    )
}

/// The packed FAT date of day `d` of month `m` of year `y`: years since 1980
/// in bits 9..16, the month in bits 5..9, the day in bits 0..5.
pub open spec fn pack_date(y: int, m: int, d: int) -> u16 {
    ((y - 1980) * 512 + m * 32 + d) as u16
}

/// The packed FAT time `h:mi:(2 * s2)`: the hour in bits 11..16, the minute in
/// bits 5..11, the 2-second count in bits 0..5.
pub open spec fn pack_time(h: int, mi: int, s2: int) -> u16 {
    (h * 2048 + mi * 32 + s2) as u16
}

/// Whether `(y, m, d)` is a date a packed FAT date can hold: a year 1980..=2107,
/// a month 1..=12, a day 1..=31.
pub open spec fn packable_date(y: int, m: int, d: int) -> bool {
    1980 <= y <= 2107 && 1 <= m <= 12 && 1 <= d <= 31
}

/// Days in month `m` of year `y` in the Gregorian calendar.
pub open spec fn month_days(y: int, m: int) -> int {
    if m == 2 {
        if is_leap(y) { 29 } else { 28 }
    } else if m == 4 || m == 6 || m == 9 || m == 11 {
        30
    } else {
        31
    }
}

/// Leap years among `from..to`, counted one year at a time.
pub open spec fn leap_years_between(from: int, to: int) -> int
    decreases to - from,
{
    if to <= from {
        0
    } else {
        leap_years_between(from, to - 1) + if is_leap(to - 1) { 1int } else { 0int }
    }
}

/// The Unix seconds `decode` gives for a date at midnight.
pub open spec fn midnight(date: u16) -> int {
    decode_spec(date, 0, 0)->0.unix_seconds as int
}

/// A packed date reads back as the year, month and day it was packed from.
proof fn lemma_pack_date_fields(y: int, m: int, d: int)
    requires
        packable_date(y, m, d),
    ensures
        pack_date(y, m, d) != 0,
        date_year(pack_date(y, m, d)) == y,
        date_month(pack_date(y, m, d)) == m,
        date_day(pack_date(y, m, d)) == d,
{
    let p = (y - 1980) * 512 + m * 32 + d;
    assert(0 < p < 0x1_0000);
    assert(pack_date(y, m, d) as int == p);
    assert(p / 512 == y - 1980);
    assert(p % 32 == d);
    assert(p / 32 == (y - 1980) * 16 + m);
    assert(((y - 1980) * 16 + m) % 16 == m);
}

/// One more year adds one more leap day exactly when the year is a leap year.
proof fn lemma_leaps_step(y: int)
    requires
        y >= 1,
    ensures
        leaps_before(y + 1) - leaps_before(y) == if is_leap(y) { 1int } else { 0int },
{
    assert(y / 4 - (y - 1) / 4 == if y % 4 == 0 { 1int } else { 0int });
    assert(y / 100 - (y - 1) / 100 == if y % 100 == 0 { 1int } else { 0int });
    assert(y / 400 - (y - 1) / 400 == if y % 400 == 0 { 1int } else { 0int });
    if y % 400 == 0 {
        assert(y % 100 == 0 && y % 4 == 0);
    } else if y % 100 == 0 {
        assert(y % 4 == 0);
    }
}

/// The closed-form leap count agrees with counting the leap years one by one.
proof fn lemma_leaps_count(y: int)
    requires
        1970 <= y,
    ensures
        leaps_before(y) - leaps_before(1970) == leap_years_between(1970, y),
    decreases y - 1970,
{
    if y > 1970 {
        lemma_leaps_count(y - 1);
        lemma_leaps_step(y - 1);
    }
}

/// What `decode` gives for a packable date and a valid time.
proof fn lemma_decode_value(y: int, m: int, d: int, time: u16, tenths: u8)
    requires
        packable_date(y, m, d),
        time_hour(time) <= 23,
        time_minute(time) <= 59,
        time_second(time) <= 58,
    ensures
        decode_spec(pack_date(y, m, d), time, tenths) == Some(
            FatTimestamp {
                unix_seconds: ((days_before_year(y) + days_before_month(y, m) + d - 1) * 86400
                    + time_hour(time) * 3600 + time_minute(time) * 60 + time_second(time)
                    + (tenths as int) / 100) as i64,
                subsec_nanos: (((tenths as int) % 100) * 10_000_000) as u32,
            },
        ),
        0 <= (days_before_year(y) + days_before_month(y, m) + d - 1) * 86400 + time_hour(time)
            * 3600 + time_minute(time) * 60 + time_second(time) + (tenths as int) / 100
            < 0x1_0000_0000_0000,
{
    lemma_pack_date_fields(y, m, d);
    assert(0 <= leaps_before(y) - leaps_before(1970) <= y - 1970);
}

/// Decoding starts the count at the Unix epoch: midnight on January 1st of
/// year `y` lies 86400 seconds times the Gregorian day count from 1970-01-01
/// (365 a year, plus one for each leap year passed) after it.
pub proof fn lemma_decode_new_year(y: int)
    requires
        1980 <= y <= 2107,
    ensures
        decode_spec(pack_date(y, 1, 1), 0, 0) is Some,
        midnight(pack_date(y, 1, 1)) == 86400 * (365 * (y - 1970) + leap_years_between(1970, y)),
{
    lemma_decode_value(y, 1, 1, 0, 0);
    lemma_leaps_count(y);
}

/// The next day of the same month decodes exactly one day (86400 seconds)
/// later, at the same time of day.
pub proof fn lemma_decode_next_day(y: int, m: int, d: int, time: u16, tenths: u8)
    requires
        packable_date(y, m, d),
        d < 31,
        fields_valid(pack_date(y, m, d), time),
    ensures
        decode_spec(pack_date(y, m, d), time, tenths) is Some,
        decode_spec(pack_date(y, m, d + 1), time, tenths) is Some,
        decode_spec(pack_date(y, m, d + 1), time, tenths)->0.unix_seconds == decode_spec(
            pack_date(y, m, d),
            time,
            tenths,
        )->0.unix_seconds + 86400,
{
    lemma_decode_value(y, m, d, time, tenths);
    lemma_decode_value(y, m, d + 1, time, tenths);
}

/// The first of the next month decodes exactly the length of this month
/// (31, 30, or 28/29 days for February) after the first of this month;
/// December 1st is followed 31 days later by January 1st of the next year.
pub proof fn lemma_decode_next_month(y: int, m: int)
    requires
        packable_date(y, m, 1),
        m < 12 || y < 2107,
    ensures
        decode_spec(pack_date(y, m, 1), 0, 0) is Some,
        m < 12 ==> decode_spec(pack_date(y, m + 1, 1), 0, 0) is Some && midnight(
            pack_date(y, m + 1, 1),
        ) == midnight(pack_date(y, m, 1)) + 86400 * month_days(y, m),
        m == 12 ==> decode_spec(pack_date(y + 1, 1, 1), 0, 0) is Some && midnight(
            pack_date(y + 1, 1, 1),
        ) == midnight(pack_date(y, 12, 1)) + 86400 * 31,
{
    lemma_decode_value(y, m, 1, 0, 0);
    if m < 12 {
        lemma_decode_value(y, m + 1, 1, 0, 0);
    } else {
        lemma_decode_value(y + 1, 1, 1, 0, 0);
        lemma_leaps_step(y);
    }
}

/// The time of day adds `h` hours, `mi` minutes and `2 * s2` seconds to the
/// date's midnight, the tenths add whole seconds for each 100, and the rest
/// of the tenths become the nanoseconds (10 ms each).
pub proof fn lemma_decode_time_of_day(y: int, m: int, d: int, h: int, mi: int, s2: int, tenths: u8)
    requires
        packable_date(y, m, d),
        0 <= h <= 23,
        0 <= mi <= 59,
        0 <= s2 <= 29,
    ensures
        decode_spec(pack_date(y, m, d), 0, 0) is Some,
        decode_spec(pack_date(y, m, d), pack_time(h, mi, s2), tenths) is Some,
        decode_spec(pack_date(y, m, d), pack_time(h, mi, s2), tenths)->0.unix_seconds == midnight(
            pack_date(y, m, d),
        ) + h * 3600 + mi * 60 + 2 * s2 + (tenths as int) / 100,
        decode_spec(pack_date(y, m, d), pack_time(h, mi, s2), tenths)->0.subsec_nanos == ((
        tenths as int) % 100) * 10_000_000,
{
    let t = h * 2048 + mi * 32 + s2;
    assert(pack_time(h, mi, s2) as int == t);
    assert(t / 2048 == h);
    assert(t / 32 == h * 64 + mi);
    assert((h * 64 + mi) % 64 == mi);
    assert(t % 32 == s2);
    lemma_decode_value(y, m, d, 0, 0);
    lemma_decode_value(y, m, d, pack_time(h, mi, s2), tenths);
}

/// `decode` refuses exactly the unset date 0 and the packed values whose month
/// field (bits 5..9) is outside 1..=12, whose day field (bits 0..5) is 0,
/// whose hour (bits 11..16) is past 23, whose minute (bits 5..11) is past 59,
/// or whose 2-second count (bits 0..5) is past 29.
pub proof fn lemma_decode_refuses(date: u16, time: u16, tenths: u8)
    ensures
        decode_spec(date, time, tenths) is None <==> (date == 0 || (date as int / 32) % 16 == 0
            || (date as int / 32) % 16 > 12 || date as int % 32 == 0 || time as int / 2048 > 23
            || (time as int / 32) % 64 > 59 || time as int % 32 > 29),
{
}

} // verus!
