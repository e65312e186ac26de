use rinha_rust_api::iso::{
    day_of_week, days_from_civil, parse_i32, parse_iso_hour_and_day, parse_iso_seconds,
};

#[test]
fn days_are_counted_from_the_epoch() {
    assert_eq!(days_from_civil(1970, 1, 1), 0);
    assert_eq!(days_from_civil(1969, 12, 31), -1);
    assert_eq!(days_from_civil(2000, 2, 29), 11_016);
    assert_eq!(days_from_civil(2000, 3, 1), 11_017);
    assert_eq!(days_from_civil(2026, 3, 11), 20_523);
    assert_eq!(days_from_civil(0, 3, 1), -719_468);
    assert_eq!(days_from_civil(-1, 12, 31), -719_529);
}

#[test]
fn months_and_days_out_of_range_carry_on() {
    assert_eq!(days_from_civil(1970, 1, 0), -1);
    assert_eq!(days_from_civil(1970, 1, 32), days_from_civil(1970, 2, 1));
    assert_eq!(days_from_civil(1970, 99, 99), 3_095);
    assert_eq!(days_from_civil(1970, 0, 0), -32);
}

#[test]
fn the_week_starts_on_monday() {
    assert_eq!(day_of_week(1970, 1, 1), 3);
    assert_eq!(day_of_week(2026, 3, 9), 0);
    assert_eq!(day_of_week(2026, 3, 15), 6);
    assert_eq!(day_of_week(1969, 12, 28), 6);
}

#[test]
fn each_date_is_one_day_after_the_last() {
    let mut days = days_from_civil(1999, 12, 31);
    for year in 2000..2005 {
        let leap = year == 2000 || year == 2004;
        let lengths = [31, if leap { 29 } else { 28 }, 31, 30, 31, 30, 31, 31, 30, 31, 30, 31];
        for (month, length) in lengths.iter().enumerate() {
            for day in 1..=*length {
                let before = (days + 3).rem_euclid(7) as u8;
                days += 1;
                let month = month as i32 + 1;
                assert_eq!(days_from_civil(year, month, day), days);
                assert_eq!(day_of_week(year, month, day), (before + 1) % 7);
            }
        }
    }
}

#[test]
fn digits_denote_a_number() {
    assert_eq!(parse_i32(b"0042"), Some(42));
    assert_eq!(parse_i32(b""), Some(0));
    assert_eq!(parse_i32(b"2147483647"), Some(i32::MAX));
    assert_eq!(parse_i32(b"-1"), None);
    assert_eq!(parse_i32(b"1a"), None);
}

#[test]
fn hour_and_day_are_read_from_a_timestamp() {
    assert_eq!(parse_iso_hour_and_day(b"2026-03-11T20:23:35Z"), Some((20, 2)));
    assert_eq!(parse_iso_hour_and_day(b"2026-03-11 07:00"), Some((7, 2)));
    assert_eq!(parse_iso_hour_and_day(b"2026-03-11"), Some((12, 2)));
    assert_eq!(parse_iso_hour_and_day(b"2026-03-11Tab"), Some((12, 2)));
    assert_eq!(parse_iso_hour_and_day(b"2026-03-11T99"), Some((23, 2)));
    assert_eq!(parse_iso_hour_and_day(b"2026-03-11T9"), Some((12, 2)));
    assert_eq!(parse_iso_hour_and_day(b"2026-03-1"), None);
    assert_eq!(parse_iso_hour_and_day(b"2026-xx-11T20"), None);
}

#[test]
fn seconds_are_read_from_a_timestamp() {
    assert_eq!(parse_iso_seconds(b"1970-01-01T00:00:00Z"), Some(0));
    assert_eq!(parse_iso_seconds(b"1970-01-02T01:02:03Z"), Some(90_123));
    assert_eq!(parse_iso_seconds(b"2026-03-11T20:23:35Z"), Some(1_773_260_615));
    assert_eq!(parse_iso_seconds(b"1970-01-01T00:00:0"), None);
    assert_eq!(parse_iso_seconds(b"1970-01-01X00:00:00"), None);
    assert_eq!(parse_iso_seconds(b"1970-01-01T00:0a:00Z"), None);
    assert_eq!(parse_iso_seconds(b"1970-01-01  00:00:00"), None);
}
