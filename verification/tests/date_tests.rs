use rate_sync::date::{day_to_ymd, format_date, parse_date_at, ymd_to_day};

#[test]
fn day_zero_is_the_first_supported_day() {
    assert_eq!(ymd_to_day(1, 1, 1), 0);
    assert_eq!(day_to_ymd(0), Some((1, 1, 1)));
}

#[test]
fn month_ends_respect_leap_years() {
    assert_eq!(ymd_to_day(2024, 3, 1), ymd_to_day(2024, 2, 29) + 1);
    assert_eq!(ymd_to_day(2023, 3, 1), ymd_to_day(2023, 2, 28) + 1);
    assert_eq!(ymd_to_day(2024, 8, 5), ymd_to_day(2024, 8, 1) + 4);
}

#[test]
fn parse_valid_date() {
    let b = b"2024-08-01".to_vec();
    assert_eq!(parse_date_at(&b, 0), Some(ymd_to_day(2024, 8, 1)));
}

#[test]
fn parse_at_offset() {
    let b = b"xx2024-08-01".to_vec();
    assert_eq!(parse_date_at(&b, 2), Some(ymd_to_day(2024, 8, 1)));
}

#[test]
fn parse_rejects_malformed_dates() {
    for s in [
        "2024-13-01",
        "2024-00-10",
        "2024-02-30",
        "2023-02-29",
        "1900-02-29",
        "2024-08-00",
        "20240801xx",
        "2024/08/01",
        "0000-01-01",
        "2024-08-0a",
    ] {
        assert_eq!(parse_date_at(&s.as_bytes().to_vec(), 0), None, "{}", s);
    }
}

#[test]
fn parse_accepts_leap_days() {
    assert!(parse_date_at(&b"2024-02-29".to_vec(), 0).is_some());
    assert!(parse_date_at(&b"2000-02-29".to_vec(), 0).is_some());
}

#[test]
fn format_inverts_parse() {
    for &(y, m, d) in &[(1u32, 1u32, 1u32), (2024, 8, 1), (9999, 12, 31), (2000, 2, 29)] {
        let n = ymd_to_day(y, m, d);
        let f = format_date(n).unwrap();
        assert_eq!(parse_date_at(&f, 0), Some(n));
        assert_eq!(day_to_ymd(n), Some((y, m, d)));
    }
    assert_eq!(format_date(u32::MAX), None);
}

#[test]
fn format_text_shape() {
    assert_eq!(format_date(ymd_to_day(2024, 8, 5)).unwrap(), b"2024-08-05".to_vec());
    assert_eq!(format_date(ymd_to_day(987, 1, 31)).unwrap(), b"0987-01-31".to_vec());
}
