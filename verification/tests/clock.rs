use agentos_kernel::rtc::{normalize_hours_12h, read_raw_registers, read_time, RawTime, RtcTime};

const BCD: RawTime = RawTime {
    seconds: 0x59,
    minutes: 0x30,
    hours: 0x23,
    day: 0x15,
    month: 0x11,
    year: 0x26,
    status_b: 0x02,
};

fn decoded(raw: RawTime) -> RtcTime {
    match read_time(&[raw, raw]) {
        Some(t) => t,
        None => panic!("not settled"),
    }
}

#[test]
fn hours_of_twelve() {
    let cases: [(u8, u8, u8); 7] = [
        (12, 12, 0),
        (1, 1, 1),
        (11, 11, 11),
        (0x80 | 12, 12, 12),
        (0x80 | 1, 1, 13),
        (0x80 | 11, 11, 23),
        (0, 0, 0),
    ];
    for (raw, hour, expected) in cases {
        assert_eq!(normalize_hours_12h(raw, hour), expected);
    }
}

#[test]
fn every_hour_of_twelve_is_in_range() {
    for hour in 1..=12u8 {
        assert!(normalize_hours_12h(hour, hour) < 24);
        assert!(normalize_hours_12h(0x80 | hour, hour) < 24);
    }
}

#[test]
fn decimal_digits() {
    assert_eq!(
        decoded(BCD),
        RtcTime { year: 2026, month: 11, day: 15, hours: 23, minutes: 30, seconds: 59 }
    );
}

#[test]
fn binary_numbers() {
    let raw = RawTime {
        seconds: 59,
        minutes: 30,
        hours: 23,
        day: 15,
        month: 11,
        year: 26,
        status_b: 0x06,
    };
    assert_eq!(
        decoded(raw),
        RtcTime { year: 2026, month: 11, day: 15, hours: 23, minutes: 30, seconds: 59 }
    );
}

#[test]
fn decimal_digits_of_twelve_hours() {
    assert_eq!(decoded(RawTime { hours: 0x91, status_b: 0, ..BCD }).hours, 23);
    assert_eq!(decoded(RawTime { hours: 0x92, status_b: 0, ..BCD }).hours, 12);
    assert_eq!(decoded(RawTime { hours: 0x12, status_b: 0, ..BCD }).hours, 0);
    assert_eq!(decoded(RawTime { hours: 0x09, status_b: 0, ..BCD }).hours, 9);
    assert_eq!(decoded(RawTime { hours: 0x80 | 11, status_b: 0x04, ..BCD }).hours, 23);
}

#[test]
fn a_clock_that_is_being_updated() {
    assert!(read_raw_registers(0x80, 1, 2, 3, 4, 5, 6, 7).is_none());
    match read_raw_registers(0x26, 1, 2, 3, 4, 5, 6, 7) {
        Some(r) => assert_eq!(
            (r.seconds, r.minutes, r.hours, r.day, r.month, r.year, r.status_b),
            (1, 2, 3, 4, 5, 6, 7)
        ),
        None => panic!("not read"),
    }
}

#[test]
fn readings_settle() {
    let next = RawTime { seconds: 0x00, minutes: 0x31, ..BCD };
    assert!(read_time(&[]).is_none());
    assert!(read_time(&[BCD]).is_none());
    assert!(read_time(&[BCD, next]).is_none());
    assert_eq!(read_time(&[BCD, next, next]).map(|t| t.minutes), Some(31));
    // The first two that agree count.
    assert_eq!(read_time(&[BCD, BCD, next, next]).map(|t| t.minutes), Some(30));
}
