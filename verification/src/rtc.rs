//! The time of day from the registers of a CMOS real-time clock.

use vstd::prelude::*;

verus! {

pub const REG_SECONDS: u8 = 0x00;

pub const REG_MINUTES: u8 = 0x02;

pub const REG_HOURS: u8 = 0x04;

pub const REG_DAY: u8 = 0x07;

pub const REG_MONTH: u8 = 0x08;

pub const REG_YEAR: u8 = 0x09;

pub const REG_STATUS_A: u8 = 0x0A;

pub const REG_STATUS_B: u8 = 0x0B;

const STATUS_A_UPDATE_IN_PROGRESS: u8 = 0x80;

const STATUS_B_BINARY_MODE: u8 = 0x04;

const STATUS_B_24_HOUR: u8 = 0x02;

const HOURS_PM_FLAG: u8 = 0x80;

#[derive(Clone, Copy, Debug, PartialEq, Eq, Structural)]
pub struct RtcTime {
    pub year: u16,
    pub month: u8,
    pub day: u8,
    pub hours: u8,
    pub minutes: u8,
    pub seconds: u8,
}

/// One reading of the clock's registers.
#[derive(Clone, Copy, Debug, PartialEq, Eq, Structural)]
pub struct RawTime {
    pub seconds: u8,
    pub minutes: u8,
    pub hours: u8,
    pub day: u8,
    pub month: u8,
    pub year: u8,
    pub status_b: u8,
}

/// The number that two decimal digits in a byte stand for.
pub open spec fn bcd_value(value: u8) -> int {
    value % 16 + value / 16 * 10
}

fn bcd_to_binary(value: u8) -> (r: u8)
    ensures
        r == bcd_value(value),
{
    value % 16 + value / 16 * 10
}

/// The hour of the day for an hour register in 12-hour mode: `hours_raw` has the
/// afternoon flag in its top bit, and `hours_12` is the number on the clock face.
pub open spec fn hour_of_day(hours_raw: u8, hours_12: u8) -> int {
    if hours_raw >= 128 {
        hours_12 % 12 + 12
    } else if hours_12 == 12 {
        0
    } else {
        hours_12 as int
    }
}

pub fn normalize_hours_12h(hours_raw: u8, hours_12: u8) -> (r: u8)
    ensures
        r == hour_of_day(hours_raw, hours_12),
{
    proof {
        flag_bits(hours_raw);
    }
    if hours_raw & HOURS_PM_FLAG != 0 {
        (hours_12 % 12) + 12
    } else if hours_12 == 12 {
        0
    } else {
        hours_12
    }
}

/// The flags of the clock's registers as numbers.
proof fn flag_bits(b: u8)
    by (bit_vector)
    ensures
        (b & 0x80 != 0) == (b >= 128),
        b & 0x7F == b % 128,
        (b & 0x04 != 0) == (b / 4 % 2 == 1),
        (b & 0x02 != 0) == (b / 2 % 2 == 1),
{
}

/// Registers that count in binary, not in decimal digits.
pub open spec fn binary_mode(raw: RawTime) -> bool {
    raw.status_b / 4 % 2 == 1
}

/// Registers that count 24 hours, not twice 12.
pub open spec fn mode_24h(raw: RawTime) -> bool {
    raw.status_b / 2 % 2 == 1
}

/// The time that a reading stands for.
pub open spec fn time_of(raw: RawTime) -> RtcTime {
    let field = |b: u8|
        if binary_mode(raw) {
            b as int
        } else {
            bcd_value(b)
        };
    let clock_hours = field((raw.hours % 128) as u8);
    RtcTime {
        year: (2000 + field(raw.year)) as u16,
        month: field(raw.month) as u8,
        day: field(raw.day) as u8,
        hours: if mode_24h(raw) {
            clock_hours as u8
        } else {
            hour_of_day(raw.hours, clock_hours as u8) as u8
        },
        minutes: field(raw.minutes) as u8,
        seconds: field(raw.seconds) as u8,
    }
}

/// The reading that a set of register values makes up, unless the clock was
/// changing them meanwhile: then they are not to be used.
pub fn read_raw_registers(
    status_a: u8,
    seconds: u8,
    minutes: u8,
    hours: u8,
    day: u8,
    month: u8,
    year: u8,
    status_b: u8,
) -> (r: Option<RawTime>)
    ensures
        status_a >= 128 ==> r is None,
        status_a < 128 ==> r == Some(
            RawTime { seconds, minutes, hours, day, month, year, status_b },
        ),
{
    proof {
        flag_bits(status_a);
    }
    if status_a & STATUS_A_UPDATE_IN_PROGRESS != 0 {
        None
    } else {
        Some(RawTime { seconds, minutes, hours, day, month, year, status_b })
    }
}

fn decode_time(raw: RawTime) -> (t: RtcTime)
    ensures
        t == time_of(raw),
{
    proof {
        flag_bits(raw.hours);
        flag_bits(raw.status_b);
    }
    let is_binary: bool = raw.status_b & STATUS_B_BINARY_MODE != 0;
    let is_24h: bool = raw.status_b & STATUS_B_24_HOUR != 0;
    let clock_hours: u8 = raw.hours & 0x7F;
    let (seconds, minutes, face, day, month, year): (u8, u8, u8, u8, u8, u8) = if is_binary {
        (raw.seconds, raw.minutes, clock_hours, raw.day, raw.month, raw.year)
    } else {
        (
            bcd_to_binary(raw.seconds),
            bcd_to_binary(raw.minutes),
            bcd_to_binary(clock_hours),
            bcd_to_binary(raw.day),
            bcd_to_binary(raw.month),
            bcd_to_binary(raw.year),
        )
    };
    let hours: u8 = if is_24h {
        face
    } else {
        normalize_hours_12h(raw.hours, face)
    };
    RtcTime { year: 2000 + year as u16, month, day, hours, minutes, seconds }
}

/// The first of two successive equal readings is at `i`.
pub open spec fn settles_at(readings: Seq<RawTime>, i: int) -> bool {
    &&& 0 <= i < readings.len() - 1
    &&& readings[i] == readings[i + 1]
    &&& forall|j: int| #![trigger readings[j]] 0 <= j < i ==> readings[j] != readings[j + 1]
}

/// The time that successive readings of the clock agree on: that of the first
/// reading which the next one repeats. None as long as no two agree.
pub fn read_time(readings: &[RawTime]) -> (r: Option<RtcTime>)
    ensures
        r is Some <==> exists|i: int| settles_at(readings@, i),
        forall|i: int| #[trigger] settles_at(readings@, i) ==> r == Some(time_of(readings@[i])),
{
    if readings.len() == 0 {
        return None;
    }
    let mut i: usize = 0;
    while i < readings.len() - 1
        invariant
            readings.len() > 0,
            i < readings.len(),
            forall|j: int| #![trigger readings@[j]] 0 <= j < i ==> readings@[j] != readings@[j + 1],
        decreases readings.len() - i,
    {
        if readings[i] == readings[i + 1] {
            assert(settles_at(readings@, i as int));
            assert forall|k: int| #[trigger] settles_at(readings@, k) implies k == i by {
                if k < i {
                    assert(readings@[k] != readings@[k + 1]);
                } else if k > i {
                    assert(readings@[i as int] != readings@[i + 1]);
                }
            }
            return Some(decode_time(readings[i]));
        }
        i = i + 1;
    }
    assert forall|k: int| !#[trigger] settles_at(readings@, k) by {
        if settles_at(readings@, k) {
            assert(readings@[k] != readings@[k + 1]);
        }
    }
    None
}

/// A clock in decimal digits and 12-hour mode gives hours of the day below 24
/// whenever its hour register holds a clock-face number.
pub proof fn twelve_hour_mode_is_in_range(raw: RawTime)
    requires
        !mode_24h(raw),
        !binary_mode(raw),
        1 <= bcd_value((raw.hours % 128) as u8) <= 12,
    ensures
        time_of(raw).hours < 24,
        time_of(raw).hours % 12 == bcd_value((raw.hours % 128) as u8) % 12,
        time_of(raw).hours >= 12 <==> raw.hours >= 128,
{
}

/// How a register shows a number: in binary, or as two decimal digits, the tens in the high half.
pub open spec fn shown(x: int, binary: bool) -> u8 {
    if binary {
        x as u8
    } else {
        (16 * (x / 10) + x % 10) as u8
    }
}

/// How the hour register shows an hour of the day: as it is, or as the number on a clock face, with
/// the top bit set from noon on.
pub open spec fn shown_hour(h: int, binary: bool, all_24: bool) -> u8 {
    let face = if h % 12 == 0 {
        12
    } else {
        h % 12
    };
    if all_24 {
        shown(h, binary)
    } else if h < 12 {
        shown(face, binary)
    } else {
        (128 + shown(face, binary)) as u8
    }
}

/// Whatever the modes of the clock, the registers that show a time of this century are read as that
/// time.
pub proof fn shown_time_is_read(t: RtcTime, status_b: u8)
    requires
        2000 <= t.year < 2100,
        t.month < 100,
        t.day < 100,
        t.hours < 24,
        t.minutes < 60,
        t.seconds < 60,
    ensures
        ({
            let binary = status_b / 4 % 2 == 1;
            let all_24 = status_b / 2 % 2 == 1;
            time_of(
                (RawTime {
                    seconds: shown(t.seconds as int, binary),
                    minutes: shown(t.minutes as int, binary),
                    hours: shown_hour(t.hours as int, binary, all_24),
                    day: shown(t.day as int, binary),
                    month: shown(t.month as int, binary),
                    year: shown(t.year - 2000, binary),
                    status_b,
                }),
            ) == t
        }),
{
    let binary = status_b / 4 % 2 == 1;
    let all_24 = status_b / 2 % 2 == 1;
    digits_are_read(t.seconds as int);
    digits_are_read(t.minutes as int);
    digits_are_read(t.day as int);
    digits_are_read(t.month as int);
    digits_are_read(t.year - 2000);
    hour_is_read(t.hours as int, binary, all_24);
    let raw = RawTime {
        seconds: shown(t.seconds as int, binary),
        minutes: shown(t.minutes as int, binary),
        hours: shown_hour(t.hours as int, binary, all_24),
        day: shown(t.day as int, binary),
        month: shown(t.month as int, binary),
        year: shown(t.year - 2000, binary),
        status_b,
    };
    let got = time_of(raw);
    assert(binary_mode(raw) == binary && mode_24h(raw) == all_24);
    assert(got.seconds == t.seconds);
    assert(got.minutes == t.minutes);
    assert(got.day == t.day);
    assert(got.month == t.month);
    assert(got.year == t.year);
    assert(got.hours == t.hours);
}

proof fn hour_is_read(h: int, binary: bool, all_24: bool)
    requires
        0 <= h < 24,
    ensures
        ({
            let r = shown_hour(h, binary, all_24);
            let low = (r % 128) as u8;
            let face = if binary {
                low as int
            } else {
                bcd_value(low)
            };
            h == if all_24 {
                face
            } else {
                hour_of_day(r, face as u8)
            }
        }),
{
    let face = if h % 12 == 0 {
        12
    } else {
        h % 12
    };
    digits_are_read(h);
    digits_are_read(face);
    let f = shown(face, binary);
    assert(f < 128);
    if !all_24 && h >= 12 {
        assert((128 + f) as u8 % 128 == f);
    }
}

/// Two decimal digits are read as their number.
proof fn digits_are_read(x: int)
    requires
        0 <= x < 100,
    ensures
        bcd_value(shown(x, false)) == x,
        x < 80 ==> shown(x, false) < 128,
{
    let tens = x / 10;
    let ones = x % 10;
    assert(0 <= tens < 10 && 0 <= ones < 10);
    assert((16 * tens + ones) / 16 == tens && (16 * tens + ones) % 16 == ones);
}

/// The hours of a clock face make up the day: none of the 24 is read as another.
pub proof fn hours_are_told_apart(h: int, g: int)
    requires
        0 <= h < 24,
        0 <= g < 24,
    ensures
        shown_hour(h, true, false) == shown_hour(g, true, false) ==> h == g,
        hour_of_day(
            shown_hour(h, true, false),
            (shown_hour(h, true, false) % 128) as u8,
        ) == h,
{
}

/// Readings settle at the first two in a row that are the same, and they do settle if there are
/// two such.
pub proof fn equal_readings_settle(readings: Seq<RawTime>, j: int) -> (i: int)
    requires
        0 <= j < readings.len() - 1,
        readings[j] == readings[j + 1],
    ensures
        0 <= i <= j,
        settles_at(readings, i),
        forall|k: int| #[trigger] settles_at(readings, k) ==> k == i,
    decreases j,
{
    if exists|k: int| 0 <= k < j && #[trigger] readings[k] == readings[k + 1] {
        let k = choose|k: int| 0 <= k < j && #[trigger] readings[k] == readings[k + 1];
        equal_readings_settle(readings, k)
    } else {
        assert forall|k: int| #[trigger] settles_at(readings, k) implies k == j by {
            if k > j {
                assert(readings[j] != readings[j + 1]);
            } else if k < j {
                assert(readings[k] == readings[k + 1]);
            }
        }
        j
    }
}

/// The afternoon is twelve hours behind the morning, whatever the clock face shows, and it is the top
/// bit alone that tells them apart.
pub proof fn afternoon_is_twelve_hours_later(low: u8, other: u8, face: u8)
    requires
        low < 128,
        other < 128,
        face <= 12,
    ensures
        hour_of_day((128 + low) as u8, face) == hour_of_day(other, face) + 12,
        hour_of_day(low, face) % 12 == face % 12,
        hour_of_day(low, face) < 12,
{
}

} // verus!
