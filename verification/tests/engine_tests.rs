use rate_sync::codec::encode_series;
use rate_sync::date::{format_date, ymd_to_day};
use rate_sync::engine::{SyncAction, SyncEngine, SyncEvent};
use rate_sync::errors::SyncError;
use rate_sync::planner::DateInterval;
use rate_sync::series::{RawObservation, Record};

fn day(y: u32, m: u32, d: u32) -> u32 {
    ymd_to_day(y, m, d)
}

fn rec_day(n: u32, value: &str) -> Record {
    Record { date: format_date(n).unwrap(), day: n, value: value.as_bytes().to_vec() }
}

fn series_for_days(start: u32, end: u32, value: &str) -> Vec<Record> {
    (start..=end).map(|n| rec_day(n, value)).collect()
}

fn obs_for_days(start: u32, end: u32, value: &str) -> Vec<RawObservation> {
    (start..=end)
        .map(|n| {
            let mut ts = format_date(n).unwrap();
            ts.extend_from_slice(b"T00:00:00.0000000Z");
            RawObservation { time_period_start: ts, rate_close: value.as_bytes().to_vec() }
        })
        .collect()
}

fn expect_fetch(a: SyncAction) -> DateInterval {
    match a {
        SyncAction::Fetch { interval } => interval,
        other => panic!("expected a fetch action, got {}", action_name(&other)),
    }
}

fn expect_save(a: SyncAction) -> Vec<Record> {
    match a {
        SyncAction::Save { series } => series,
        other => panic!("expected a save action, got {}", action_name(&other)),
    }
}

fn action_name(a: &SyncAction) -> &'static str {
    match a {
        SyncAction::Load => "load",
        SyncAction::Fetch { .. } => "fetch",
        SyncAction::Save { .. } => "save",
        SyncAction::Done => "done",
        SyncAction::Fail { .. } => "fail",
    }
}

#[test]
fn rejects_inverted_range_before_any_io() {
    let r = SyncEngine::new(day(2024, 8, 10), day(2024, 8, 1), 100);
    assert!(matches!(r, Err(SyncError::Validation)));
    let r = SyncEngine::new(day(2024, 8, 1), day(2024, 8, 10), 0);
    assert!(matches!(r, Err(SyncError::Validation)));
}

#[test]
fn gap_before_fetches_exactly_the_leading_days() {
    let cache = series_for_days(day(2024, 8, 5), day(2024, 8, 20), "2.0");
    let bytes = encode_series(&cache);
    let (m, a) = SyncEngine::new(day(2024, 8, 1), day(2024, 8, 20), 100).unwrap();
    assert!(matches!(a, SyncAction::Load));
    let (m, a) = m.step(SyncEvent::Loaded { content: Some(bytes) });
    let iv = expect_fetch(a);
    assert_eq!(iv, DateInterval { start: day(2024, 8, 1), end: day(2024, 8, 4) });
    let (m, a) = m.step(SyncEvent::FetchOk {
        observations: obs_for_days(iv.start, iv.end, "1.5"),
    });
    let series = expect_save(a);
    assert_eq!(series.len(), 20);
    assert_eq!(series[0].date, b"2024-08-01".to_vec());
    for w in series.windows(2) {
        assert!(w[0].day < w[1].day);
    }
    let (_m, a) = m.step(SyncEvent::SaveOk);
    assert!(matches!(a, SyncAction::Done));
}

#[test]
fn gap_after_fetches_exactly_the_trailing_days() {
    let cache = series_for_days(day(2024, 8, 1), day(2024, 8, 15), "2.0");
    let bytes = encode_series(&cache);
    let (m, a) = SyncEngine::new(day(2024, 8, 1), day(2024, 8, 20), 100).unwrap();
    assert!(matches!(a, SyncAction::Load));
    let (m, a) = m.step(SyncEvent::Loaded { content: Some(bytes) });
    let iv = expect_fetch(a);
    assert_eq!(iv, DateInterval { start: day(2024, 8, 16), end: day(2024, 8, 20) });
    let (m, a) = m.step(SyncEvent::FetchOk {
        observations: obs_for_days(iv.start, iv.end, "3.5"),
    });
    let series = expect_save(a);
    assert_eq!(series.len(), 20);
    assert_eq!(series[0].date, b"2024-08-01".to_vec());
    assert_eq!(series[series.len() - 1].date, b"2024-08-20".to_vec());
    for w in series.windows(2) {
        assert!(w[0].day < w[1].day);
    }
    let (_m, a) = m.step(SyncEvent::SaveOk);
    assert!(matches!(a, SyncAction::Done));
}

#[test]
fn both_gaps_are_fetched_in_one_call() {
    let cache = series_for_days(day(2024, 8, 5), day(2024, 8, 15), "2.0");
    let bytes = encode_series(&cache);
    let (m, a) = SyncEngine::new(day(2024, 8, 1), day(2024, 8, 20), 100).unwrap();
    assert!(matches!(a, SyncAction::Load));
    let (m, a) = m.step(SyncEvent::Loaded { content: Some(bytes) });
    let before = expect_fetch(a);
    assert_eq!(before, DateInterval { start: day(2024, 8, 1), end: day(2024, 8, 4) });
    let (m, a) = m.step(SyncEvent::FetchOk {
        observations: obs_for_days(before.start, before.end, "1.0"),
    });
    let after = expect_fetch(a);
    assert_eq!(after, DateInterval { start: day(2024, 8, 16), end: day(2024, 8, 20) });
    let (m, a) = m.step(SyncEvent::FetchOk {
        observations: obs_for_days(after.start, after.end, "4.0"),
    });
    let series = expect_save(a);
    assert_eq!(series.len(), 20);
    assert_eq!(series[0].day, day(2024, 8, 1));
    assert_eq!(series[series.len() - 1].day, day(2024, 8, 20));
}

#[test]
fn empty_cache_full_fetch_in_two_calls() {
    let (m, a) = SyncEngine::new(day(2024, 8, 1), day(2024, 8, 10), 5).unwrap();
    assert!(matches!(a, SyncAction::Load));
    let (m, a) = m.step(SyncEvent::Loaded { content: None });
    let iv1 = expect_fetch(a);
    assert_eq!(iv1.start, day(2024, 8, 1));
    assert!(iv1.end - iv1.start + 1 <= 5);
    let (m, a) = m.step(SyncEvent::FetchOk {
        observations: obs_for_days(iv1.start, iv1.end, "1.0"),
    });
    let iv2 = expect_fetch(a);
    assert_eq!(iv2.start, iv1.end + 1);
    assert_eq!(iv2.end, day(2024, 8, 10));
    assert!(iv2.end - iv2.start + 1 <= 5);
    let (m, a) = m.step(SyncEvent::FetchOk {
        observations: obs_for_days(iv2.start, iv2.end, "1.0"),
    });
    let series = expect_save(a);
    assert_eq!(series.len(), 10);
    assert_eq!(series[0].day, day(2024, 8, 1));
    assert_eq!(series[9].day, day(2024, 8, 10));
}

#[test]
fn second_reconcile_fetches_nothing() {
    // First run, from an absent cache.
    let (m, a) = SyncEngine::new(day(2024, 8, 1), day(2024, 8, 10), 5).unwrap();
    assert!(matches!(a, SyncAction::Load));
    let (m, a) = m.step(SyncEvent::Loaded { content: None });
    let iv1 = expect_fetch(a);
    let (m, a) = m.step(SyncEvent::FetchOk {
        observations: obs_for_days(iv1.start, iv1.end, "1.0"),
    });
    let iv2 = expect_fetch(a);
    let (m, a) = m.step(SyncEvent::FetchOk {
        observations: obs_for_days(iv2.start, iv2.end, "1.0"),
    });
    let saved = expect_save(a);
    let (_m, a) = m.step(SyncEvent::SaveOk);
    assert!(matches!(a, SyncAction::Done));
    let persisted = encode_series(&saved);

    // Second run over the same range and store: no fetch, identical series.
    let (m, a) = SyncEngine::new(day(2024, 8, 1), day(2024, 8, 10), 5).unwrap();
    assert!(matches!(a, SyncAction::Load));
    let (m, a) = m.step(SyncEvent::Loaded { content: Some(persisted) });
    let series = expect_save(a);
    assert_eq!(series, saved);
    let (_m, a) = m.step(SyncEvent::SaveOk);
    assert!(matches!(a, SyncAction::Done));
}

#[test]
fn failed_gap_after_fetch_saves_nothing() {
    let cache = series_for_days(day(2024, 8, 5), day(2024, 8, 10), "2.0");
    let bytes = encode_series(&cache);
    let (m, a) = SyncEngine::new(day(2024, 8, 5), day(2024, 8, 20), 100).unwrap();
    assert!(matches!(a, SyncAction::Load));
    let (m, a) = m.step(SyncEvent::Loaded { content: Some(bytes) });
    let iv = expect_fetch(a);
    assert_eq!(iv, DateInterval { start: day(2024, 8, 11), end: day(2024, 8, 20) });
    // The provider fails: the whole call fails with the provider's status and
    // no save action is ever emitted, so the cache file stays as it was.
    let (m, a) = m.step(SyncEvent::FetchFailed { status: 500 });
    assert!(matches!(a, SyncAction::Fail { error: SyncError::Fetch { status: 500 } }));
    assert!(!m.accepts_event(&SyncEvent::SaveOk));
}

#[test]
fn corrupt_cache_is_a_cache_error() {
    let (m, a) = SyncEngine::new(day(2024, 8, 1), day(2024, 8, 10), 100).unwrap();
    assert!(matches!(a, SyncAction::Load));
    let (_m, a) = m.step(SyncEvent::Loaded { content: Some(b"corrupt".to_vec()) });
    assert!(matches!(a, SyncAction::Fail { error: SyncError::CacheIo }));
}

#[test]
fn malformed_observation_is_a_parse_error() {
    let (m, a) = SyncEngine::new(day(2024, 8, 1), day(2024, 8, 2), 100).unwrap();
    assert!(matches!(a, SyncAction::Load));
    let (m, a) = m.step(SyncEvent::Loaded { content: None });
    let _ = expect_fetch(a);
    let bad = vec![RawObservation {
        time_period_start: b"not-a-date-at-all".to_vec(),
        rate_close: b"1.0".to_vec(),
    }];
    let (_m, a) = m.step(SyncEvent::FetchOk { observations: bad });
    assert!(matches!(a, SyncAction::Fail { error: SyncError::Parse }));
}

#[test]
fn non_finite_value_is_a_parse_error() {
    let (m, a) = SyncEngine::new(day(2024, 8, 1), day(2024, 8, 1), 100).unwrap();
    assert!(matches!(a, SyncAction::Load));
    let (m, a) = m.step(SyncEvent::Loaded { content: None });
    let _ = expect_fetch(a);
    let bad = vec![RawObservation {
        time_period_start: b"2024-08-01T00:00:00.0000000Z".to_vec(),
        rate_close: b"NaN".to_vec(),
    }];
    let (_m, a) = m.step(SyncEvent::FetchOk { observations: bad });
    assert!(matches!(a, SyncAction::Fail { error: SyncError::Parse }));
}

#[test]
fn out_of_range_observations_are_rejected() {
    // The provider answers the gap 2024-08-01..2024-08-02 with a day outside
    // the gap: the engine refuses to merge it.
    let cache = series_for_days(day(2024, 8, 3), day(2024, 8, 5), "2.0");
    let bytes = encode_series(&cache);
    let (m, a) = SyncEngine::new(day(2024, 8, 1), day(2024, 8, 5), 100).unwrap();
    assert!(matches!(a, SyncAction::Load));
    let (m, a) = m.step(SyncEvent::Loaded { content: Some(bytes) });
    let _ = expect_fetch(a);
    let (_m, a) = m.step(SyncEvent::FetchOk {
        observations: obs_for_days(day(2024, 8, 3), day(2024, 8, 4), "1.0"),
    });
    assert!(matches!(a, SyncAction::Fail { error: SyncError::Parse }));
}

#[test]
fn unsorted_observations_are_rejected() {
    let (m, a) = SyncEngine::new(day(2024, 8, 1), day(2024, 8, 3), 100).unwrap();
    assert!(matches!(a, SyncAction::Load));
    let (m, a) = m.step(SyncEvent::Loaded { content: None });
    let _ = expect_fetch(a);
    let mut obs = obs_for_days(day(2024, 8, 1), day(2024, 8, 3), "1.0");
    obs.swap(0, 2);
    let (_m, a) = m.step(SyncEvent::FetchOk { observations: obs });
    assert!(matches!(a, SyncAction::Fail { error: SyncError::Parse }));
}

#[test]
fn save_failure_is_a_cache_error() {
    let cache = series_for_days(day(2024, 8, 1), day(2024, 8, 10), "2.0");
    let bytes = encode_series(&cache);
    let (m, a) = SyncEngine::new(day(2024, 8, 2), day(2024, 8, 9), 100).unwrap();
    assert!(matches!(a, SyncAction::Load));
    let (m, a) = m.step(SyncEvent::Loaded { content: Some(bytes) });
    // Fully covered: saved unchanged, without any fetch; the returned series
    // may be wider than the request.
    let series = expect_save(a);
    assert_eq!(series, cache);
    let (_m, a) = m.step(SyncEvent::SaveFailed);
    assert!(matches!(a, SyncAction::Fail { error: SyncError::CacheIo }));
}

#[test]
fn driver_protocol_is_guarded() {
    let (m, a) = SyncEngine::new(day(2024, 8, 1), day(2024, 8, 10), 100).unwrap();
    assert!(matches!(a, SyncAction::Load));
    assert!(m.accepts_event(&SyncEvent::Loaded { content: None }));
    assert!(!m.accepts_event(&SyncEvent::SaveOk));
    assert!(!m.accepts_event(&SyncEvent::FetchFailed { status: 404 }));
}
