use rate_sync::codec::{cache_filename, decode_series, encode_series};
use rate_sync::date::ymd_to_day;
use rate_sync::errors::SyncError;
use rate_sync::series::Record;

fn rec(y: u32, m: u32, d: u32, value: &str) -> Record {
    Record {
        date: format!("{:04}-{:02}-{:02}", y, m, d).into_bytes(),
        day: ymd_to_day(y, m, d),
        value: value.as_bytes().to_vec(),
    }
}

#[test]
fn encode_exact_bytes() {
    let s = vec![rec(2024, 8, 1, "1.25"), rec(2024, 8, 2, "63000")];
    assert_eq!(
        String::from_utf8(encode_series(&s)).unwrap(),
        r#"[{"date":"2024-08-01","value":1.25},{"date":"2024-08-02","value":63000}]"#
    );
}

#[test]
fn encode_empty_series() {
    let s: Vec<Record> = vec![];
    assert_eq!(encode_series(&s), b"[]".to_vec());
}

#[test]
fn save_then_load_round_trip() {
    let s = vec![
        rec(2024, 8, 1, "1.25"),
        rec(2024, 8, 2, "0.5e-3"),
        rec(2024, 9, 30, "-2"),
    ];
    let bytes = encode_series(&s);
    let back = decode_series(&bytes).unwrap();
    assert_eq!(back.len(), s.len());
    for (a, b) in back.iter().zip(s.iter()) {
        assert_eq!(a.date, b.date);
        assert_eq!(a.day, b.day);
        assert_eq!(a.value, b.value);
    }
}

#[test]
fn empty_round_trip() {
    let s: Vec<Record> = vec![];
    let back = decode_series(&encode_series(&s)).unwrap();
    assert!(back.is_empty());
}

#[test]
fn decode_rejects_garbage() {
    for bad in [
        &b"not json"[..],
        b"",
        b"[",
        b"[]x",
        b"{\"date\":\"2024-08-01\",\"value\":1}",
        b"[{\"date\":\"2024-08-01\",\"value\":}]",
        b"[{\"date\":\"2024-13-01\",\"value\":1}]",
        b"[{\"date\":\"2024-08-01\",\"value\":1},]",
        b"[ {\"date\":\"2024-08-01\",\"value\":1} ]",
    ] {
        assert_eq!(decode_series(&bad.to_vec()), Err(SyncError::CacheIo));
    }
}

#[test]
fn decode_rejects_unsorted_or_duplicate_days() {
    let unsorted = encode_series(&vec![rec(2024, 8, 2, "1"), rec(2024, 8, 1, "2")]);
    assert_eq!(decode_series(&unsorted), Err(SyncError::CacheIo));
    let duplicate = encode_series(&vec![rec(2024, 8, 1, "1"), rec(2024, 8, 1, "2")]);
    assert_eq!(decode_series(&duplicate), Err(SyncError::CacheIo));
}

#[test]
fn filename_replaces_separators() {
    assert_eq!(cache_filename(&b"BTC/EUR".to_vec()), b"BTC_EUR.json".to_vec());
    assert_eq!(cache_filename(&b"plain".to_vec()), b"plain.json".to_vec());
}
