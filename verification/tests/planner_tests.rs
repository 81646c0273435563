use rate_sync::date::ymd_to_day;
use rate_sync::errors::SyncError;
use rate_sync::planner::{DateInterval, IntervalPlanner};

fn day(y: u32, m: u32, d: u32) -> u32 {
    ymd_to_day(y, m, d)
}

#[test]
fn split_rejects_zero_span() {
    assert_eq!(IntervalPlanner::split(10, 20, 0), Err(SyncError::Validation));
}

#[test]
fn split_inverted_range_is_empty() {
    assert_eq!(IntervalPlanner::split(20, 10, 5).unwrap().len(), 0);
}

#[test]
fn split_single_day() {
    let v = IntervalPlanner::split(15, 15, 1).unwrap();
    assert_eq!(v, vec![DateInterval { start: 15, end: 15 }]);
}

#[test]
fn split_two_provider_calls_for_ten_days() {
    // 2024-08-01..2024-08-10 under a five-day limit: exactly two fetches,
    // contiguous, covering the range, each within the limit.
    let s = day(2024, 8, 1);
    let e = day(2024, 8, 10);
    let v = IntervalPlanner::split(s, e, 5).unwrap();
    assert_eq!(v.len(), 2);
    assert_eq!(v[0].start, s);
    assert_eq!(v[1].start, v[0].end + 1);
    assert_eq!(v[1].end, e);
    for iv in &v {
        assert!(iv.end - iv.start + 1 <= 5);
    }
}

#[test]
fn split_covers_exactly() {
    let v = IntervalPlanner::split(100, 437, 100).unwrap();
    assert_eq!(v[0].start, 100);
    assert_eq!(v[v.len() - 1].end, 437);
    for w in v.windows(2) {
        assert_eq!(w[1].start, w[0].end + 1);
    }
    let total: u64 = v.iter().map(|iv| (iv.end - iv.start + 1) as u64).sum();
    assert_eq!(total, 338);
}

#[test]
fn split_span_bound_holds_for_every_limit() {
    for max in 1..=10u32 {
        let v = IntervalPlanner::split(50, 80, max).unwrap();
        assert_eq!(v[0].start, 50);
        assert_eq!(v[v.len() - 1].end, 80);
        for iv in &v {
            assert!(iv.start <= iv.end);
            assert!(iv.end - iv.start + 1 <= max);
        }
        for w in v.windows(2) {
            assert_eq!(w[1].start, w[0].end + 1);
        }
    }
}
