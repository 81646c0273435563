//! The reconciliation state machine.
//!
//! One reconciliation call is a dialogue: the engine names the next outside
//! action (load the cache, fetch a sub-interval, save the series) and the
//! driver answers with the action's outcome. Every decision — gap analysis,
//! interval planning, normalization, validation, merging — happens here and
//! is verified; the driver only performs I/O.
//!
//! A fetch or save failure fails the whole call before anything is saved, so
//! the persisted cache is never a partially fetched gap: the save action is
//! emitted once, after every planned sub-interval has been fetched, validated
//! and merged.

use vstd::prelude::*;
use vstd::pervasive::unreached;
use crate::codec::{decode_series, parse_series_spec};
use crate::errors::SyncError;
use crate::planner::{
    intervals_cover, intervals_ordered, intervals_span_bounded, DateInterval, IntervalPlanner,
};
use crate::series::{
    can_normalize, check_gap_records, gap_records_ok, merge_series, normal_of,
    normalize_observations, records_wf, series_wf, RawObservation, Record, RecordV,
};

verus! {

/// What the driver must do next.
pub enum SyncAction {
    /// Read the cache file; answer with its bytes, or `None` if it is absent.
    Load,
    /// Ask the provider for the observations of this sub-interval.
    Fetch { interval: DateInterval },
    /// Atomically replace the cache file with this series.
    Save { series: Vec<Record> },
    /// The call succeeded; the series handed out with the save is the result.
    Done,
    /// The call failed; the cache file was left as it was.
    Fail { error: SyncError },
}

/// The outcome of the action the driver performed.
pub enum SyncEvent {
    Loaded { content: Option<Vec<u8>> },
    FetchOk { observations: Vec<RawObservation> },
    FetchFailed { status: u16 },
    SaveOk,
    SaveFailed,
}

/// Where a reconciliation call stands.
pub enum Phase {
    /// Waiting for the cache file's content.
    AwaitLoad,
    /// Fetching the gap that precedes the cached coverage (the whole range,
    /// when the cache is empty). `pending[0]` is the interval in flight.
    FetchingBefore {
        cache: Vec<Record>,
        gap: DateInterval,
        pending: Vec<DateInterval>,
        got: Vec<Record>,
        after_gap: Option<DateInterval>,
    },
    /// Fetching the gap that follows the cached coverage; `head` is the
    /// series up to that gap. `pending[0]` is the interval in flight.
    FetchingAfter {
        head: Vec<Record>,
        gap: DateInterval,
        pending: Vec<DateInterval>,
        got: Vec<Record>,
    },
    /// Waiting for the save's outcome.
    AwaitSave,
    Finished,
    Failed,
}

/// The cache a load event denotes: an absent file is an empty series; present
/// bytes must decode to a well-formed series, else the cache is corrupt.
pub open spec fn loaded_cache(content: Option<Vec<u8>>) -> Option<Seq<RecordV>> {
    match content {
        None => Some(Seq::<RecordV>::empty()),
        Some(bytes) => match parse_series_spec(bytes@) {
            Some(s) => if series_wf(s) {
                Some(s)
            } else {
                None
            },
            None => None,
        },
    }
}

/// The missing range before the cached coverage: the whole request when the
/// cache is empty, `[start, cachedStart - 1]` when the request begins before
/// the cache, nothing otherwise. The cached boundary day is never refetched.
pub open spec fn gap_before_of(cache: Seq<RecordV>, start: int, end: int) -> Option<(int, int)> {
    if cache.len() == 0 {
        Some((start, end))
    } else if start < cache[0].day {
        Some((start, cache[0].day - 1))
    } else {
        None
    }
}

/// The missing range after the cached coverage: `[cachedEnd + 1, end]` when
/// the request ends after the cache, nothing otherwise.
pub open spec fn gap_after_of(cache: Seq<RecordV>, start: int, end: int) -> Option<(int, int)> {
    if cache.len() == 0 {
        None
    } else if end > cache.last().day {
        Some((cache.last().day + 1, end))
    } else {
        None
    }
}

/// The records a fetched batch normalizes to, in fetch order.
pub open spec fn normals_of(obs: Seq<RawObservation>) -> Seq<RecordV> {
    obs.map_values(|o: RawObservation| normal_of(o))
}

/// Every observation of the batch can be normalized.
pub open spec fn all_normalizable(obs: Seq<RawObservation>) -> bool {
    forall|i: int| 0 <= i < obs.len() ==> can_normalize(#[trigger] obs[i])
}

/// One reconciliation call for one asset: drives loading, gap fetching,
/// merging and saving for a requested inclusive day range.
pub struct SyncEngine {
    pub start: u32,
    pub end: u32,
    pub max_span_days: u32,
    pub phase: Phase,
}

impl SyncEngine {
    /// The machine's invariant: the request is valid and every phase's data
    /// is consistent with it.
    pub open spec fn wf(self) -> bool {
        &&& self.start <= self.end
        &&& self.max_span_days >= 1
        &&& match self.phase {
            Phase::AwaitLoad | Phase::AwaitSave | Phase::Finished | Phase::Failed => true,
            Phase::FetchingBefore { cache, gap, pending, got, after_gap } => {
                &&& series_wf(cache.deep_view())
                &&& records_wf(got.deep_view())
                &&& gap.start == self.start
                &&& gap.start <= gap.end
                &&& pending@.len() > 0
                &&& intervals_ordered(pending@)
                &&& intervals_span_bounded(pending@, self.max_span_days as int)
                &&& pending@.last().end == gap.end
                &&& pending@[0].start >= gap.start
                &&& (cache@.len() == 0 ==> gap.end == self.end && after_gap is None)
                &&& (cache@.len() > 0 ==> gap.end + 1 == cache.deep_view()[0].day)
                &&& match after_gap {
                    Some(ag) => cache@.len() > 0 && ag.start == cache.deep_view().last().day + 1
                        && ag.end == self.end && ag.start <= ag.end,
                    None => cache@.len() > 0 ==> self.end <= cache.deep_view().last().day,
                }
            },
            Phase::FetchingAfter { head, gap, pending, got } => {
                &&& series_wf(head.deep_view())
                &&& records_wf(got.deep_view())
                &&& head@.len() > 0
                &&& gap.start == head.deep_view().last().day + 1
                &&& gap.start <= gap.end
                &&& gap.end == self.end
                &&& pending@.len() > 0
                &&& intervals_ordered(pending@)
                &&& intervals_span_bounded(pending@, self.max_span_days as int)
                &&& pending@.last().end == gap.end
                &&& pending@[0].start >= gap.start
            },
        }
    }

    /// Which events the machine can take in its current phase.
    pub open spec fn accepts(self, event: SyncEvent) -> bool {
        match event {
            SyncEvent::Loaded { .. } => self.phase is AwaitLoad,
            SyncEvent::FetchOk { .. } => self.phase is FetchingBefore || self.phase
                is FetchingAfter,
            SyncEvent::FetchFailed { .. } => self.phase is FetchingBefore || self.phase
                is FetchingAfter,
            SyncEvent::SaveOk => self.phase is AwaitSave,
            SyncEvent::SaveFailed => self.phase is AwaitSave,
        }
    }

    /// Exactly what [`SyncEngine::step`] does for each accepted event.
    pub open spec fn step_spec(
        pre: SyncEngine,
        event: SyncEvent,
        post: SyncEngine,
        action: SyncAction,
    ) -> bool {
        match event {
            SyncEvent::Loaded { content } => match loaded_cache(content) {
                None => post.phase is Failed && (action matches SyncAction::Fail { error }
                    && error == (SyncError::CacheIo)),
                Some(cache) => {
                    if gap_before_of(cache, pre.start as int, pre.end as int) is Some {
                        let (gs, ge) = gap_before_of(
                            cache,
                            pre.start as int,
                            pre.end as int,
                        ).unwrap();
                        &&& post.phase matches Phase::FetchingBefore {
                            cache: c2,
                            gap,
                            pending,
                            got,
                            after_gap,
                        } && c2.deep_view() == cache && gap.start == gs && gap.end == ge
                            && got@.len() == 0 && (match gap_after_of(
                            cache,
                            pre.start as int,
                            pre.end as int,
                        ) {
                            Some((as_, ae)) => after_gap matches Some(ag) && ag.start == as_
                                && ag.end == ae,
                            None => after_gap is None,
                        }) && intervals_cover(pending@, gs, ge) && intervals_span_bounded(
                            pending@,
                            pre.max_span_days as int,
                        ) && (action matches SyncAction::Fetch { interval } && interval
                            == pending@[0])
                    } else if gap_after_of(cache, pre.start as int, pre.end as int) is Some {
                        let (as_, ae) = gap_after_of(
                            cache,
                            pre.start as int,
                            pre.end as int,
                        ).unwrap();
                        &&& post.phase matches Phase::FetchingAfter { head, gap, pending, got }
                            && head.deep_view() == cache && gap.start == as_ && gap.end == ae
                            && got@.len() == 0 && intervals_cover(pending@, as_, ae)
                            && intervals_span_bounded(pending@, pre.max_span_days as int)
                            && (action matches SyncAction::Fetch { interval } && interval
                            == pending@[0])
                    } else {
                        // the cache already covers the request: save it
                        // unchanged, with no fetch at all
                        &&& post.phase is AwaitSave
                        &&& action matches SyncAction::Save { series } && series.deep_view()
                            == cache
                    }
                },
            },
            SyncEvent::FetchOk { observations } => match pre.phase {
                Phase::FetchingBefore { cache, gap, pending, got, after_gap } => {
                    if !all_normalizable(observations@) {
                        post.phase is Failed && (action matches SyncAction::Fail { error }
                            && error == (SyncError::Parse))
                    } else {
                        let got2 = got.deep_view() + normals_of(observations@);
                        if pending@.len() > 1 {
                            &&& post.phase matches Phase::FetchingBefore {
                                cache: c2,
                                gap: g2,
                                pending: p2,
                                got: t2,
                                after_gap: a2,
                            } && c2.deep_view() == cache.deep_view() && g2 == gap && p2@
                                == pending@.skip(1) && t2.deep_view() == got2 && a2 == after_gap
                                && (action matches SyncAction::Fetch { interval } && interval
                                == pending@[1])
                        } else if !gap_records_ok(got2, gap.start as int, gap.end as int) {
                            post.phase is Failed && (action matches SyncAction::Fail { error }
                                && error == (SyncError::Parse))
                        } else {
                            match after_gap {
                                Some(ag) => post.phase matches Phase::FetchingAfter {
                                    head,
                                    gap: g2,
                                    pending: p2,
                                    got: t2,
                                } && head.deep_view() == got2 + cache.deep_view() && g2 == ag
                                    && t2@.len() == 0 && intervals_cover(
                                    p2@,
                                    ag.start as int,
                                    ag.end as int,
                                ) && intervals_span_bounded(p2@, pre.max_span_days as int) && (
                                action matches SyncAction::Fetch { interval } && interval
                                    == p2@[0]),
                                None => post.phase is AwaitSave && (action
                                    matches SyncAction::Save { series } && series.deep_view()
                                    == got2 + cache.deep_view()),
                            }
                        }
                    }
                },
                Phase::FetchingAfter { head, gap, pending, got } => {
                    if !all_normalizable(observations@) {
                        post.phase is Failed && (action matches SyncAction::Fail { error }
                            && error == (SyncError::Parse))
                    } else {
                        let got2 = got.deep_view() + normals_of(observations@);
                        if pending@.len() > 1 {
                            &&& post.phase matches Phase::FetchingAfter {
                                head: h2,
                                gap: g2,
                                pending: p2,
                                got: t2,
                            } && h2.deep_view() == head.deep_view() && g2 == gap && p2@
                                == pending@.skip(1) && t2.deep_view() == got2 && (action
                                matches SyncAction::Fetch { interval } && interval == pending@[1])
                        } else if !gap_records_ok(got2, gap.start as int, gap.end as int) {
                            post.phase is Failed && (action matches SyncAction::Fail { error }
                                && error == (SyncError::Parse))
                        } else {
                            post.phase is AwaitSave && (action matches SyncAction::Save { series }
                                && series.deep_view() == head.deep_view() + got2)
                        }
                    }
                },
                _ => false,
            },
            SyncEvent::FetchFailed { status } => post.phase is Failed && (action
                matches SyncAction::Fail { error } && error == (SyncError::Fetch { status })),
            SyncEvent::SaveOk => post.phase is Finished && action is Done,
            SyncEvent::SaveFailed => post.phase is Failed && (action matches SyncAction::Fail {
                error,
            } && error == (SyncError::CacheIo)),
        }
    }

    /// Idempotence, first half: a cached series that already covers the
    /// requested range plans no gap, so by [`SyncEngine::step_spec`]'s
    /// covered case the engine answers the load with a save of the series
    /// unchanged and issues no fetch at all.
    pub proof fn lemma_covered_cache_plans_no_fetch(cache: Seq<RecordV>, start: int, end: int)
        requires
            cache.len() > 0,
            cache[0].day <= start,
            end <= cache.last().day,
        ensures
            gap_before_of(cache, start, end) is None,
            gap_after_of(cache, start, end) is None,
    {
    }

    /// Idempotence, second half: the series saved by a successful
    /// reconciliation covers the requested range, provided each fetched gap
    /// actually produced its boundary day (a provider with no observation
    /// for the first or last requested day leaves the range uncovered).
    /// Reconciling the same range again therefore plans no fetch and saves
    /// the same series unchanged.
    pub proof fn lemma_reconcile_idempotent(
        before: Seq<RecordV>,
        cache: Seq<RecordV>,
        after: Seq<RecordV>,
        start: int,
        end: int,
    )
        requires
            start <= end,
            gap_before_of(cache, start, end) is Some ==> before.len() > 0 && before[0].day
                == start,
            gap_before_of(cache, start, end) is None ==> before.len() == 0,
            gap_after_of(cache, start, end) is Some ==> after.len() > 0 && after.last().day == end,
            gap_after_of(cache, start, end) is None ==> after.len() == 0,
            cache.len() == 0 ==> before.len() > 0 && before.last().day == end,
        ensures
            (before + cache + after).len() > 0,
            (before + cache + after)[0].day <= start,
            end <= (before + cache + after).last().day,
            gap_before_of(before + cache + after, start, end) is None,
            gap_after_of(before + cache + after, start, end) is None,
    {
        let merged = before + cache + after;
        if gap_before_of(cache, start, end) is Some {
            assert(merged[0] == before[0]);
        } else {
            assert(cache.len() > 0);
            assert(cache[0].day <= start);
            assert(merged[0] == cache[0]);
        }
        if gap_after_of(cache, start, end) is Some {
            assert(merged.last() == after.last());
        } else if cache.len() > 0 {
            assert(end <= cache.last().day);
            assert(merged.last() == cache.last());
        } else {
            assert(merged.last() == before.last());
        }
    }

    /// A failed call is terminal: the machine accepts no further event. A
    /// save is only ever asked for once every planned sub-interval has been
    /// fetched, validated and merged, so after a fetch or save failure the
    /// driver is never asked to write, and the persisted cache is exactly
    /// what it was before the call.
    pub proof fn lemma_failure_is_terminal(m: SyncEngine, event: SyncEvent)
        requires
            m.phase is Failed,
        ensures
            !m.accepts(event),
    {
    }

    /// Starts a reconciliation of `[start, end]` under the provider's span
    /// limit. An inverted range or a span limit below one day is rejected
    /// before any I/O.
    pub fn new(start: u32, end: u32, max_span_days: u32) -> (r: Result<
        (SyncEngine, SyncAction),
        SyncError,
    >)
        ensures
            match r {
                Ok((m, a)) => start <= end && max_span_days >= 1 && m.wf() && m.start == start
                    && m.end == end && m.max_span_days == max_span_days && m.phase is AwaitLoad
                    && a is Load,
                Err(e) => e == (SyncError::Validation) && (start > end || max_span_days < 1),
            },
    {
        if start > end || max_span_days < 1 {
            return Err(SyncError::Validation);
        }
        Ok((SyncEngine { start, end, max_span_days, phase: Phase::AwaitLoad }, SyncAction::Load))
    }

    /// Runtime twin of [`SyncEngine::accepts`], for a defensive driver.
    pub fn accepts_event(&self, event: &SyncEvent) -> (r: bool)
        ensures
            r == self.accepts(*event),
    {
        match event {
            SyncEvent::Loaded { .. } => matches!(self.phase, Phase::AwaitLoad),
            SyncEvent::FetchOk { .. } | SyncEvent::FetchFailed { .. } => matches!(
                self.phase,
                Phase::FetchingBefore { .. } | Phase::FetchingAfter { .. }
            ),
            SyncEvent::SaveOk | SyncEvent::SaveFailed => matches!(self.phase, Phase::AwaitSave),
        }
    }

    /// Feeds the outcome of the last action and returns the next machine
    /// state and action.
    pub fn step(self, event: SyncEvent) -> (r: (SyncEngine, SyncAction))
        requires
            self.wf(),
            self.accepts(event),
        ensures
            r.0.wf(),
            r.0.start == self.start && r.0.end == self.end && r.0.max_span_days
                == self.max_span_days,
            SyncEngine::step_spec(self, event, r.0, r.1),
            r.1 matches SyncAction::Fetch { interval } ==> interval.start <= interval.end
                && interval.end - interval.start + 1 <= self.max_span_days,
    {
        let start = self.start;
        let end = self.end;
        let max_span_days = self.max_span_days;
        match event {
            SyncEvent::Loaded { content } => {
                let cache: Vec<Record> = match content {
                    None => {
                        let v: Vec<Record> = Vec::new();
                        proof {
                            assert(v.deep_view() =~= Seq::<RecordV>::empty());
                        }
                        v
                    },
                    Some(bytes) => match decode_series(&bytes) {
                        Ok(v) => v,
                        Err(error) => {
                            return (
                                SyncEngine { start, end, max_span_days, phase: Phase::Failed },
                                SyncAction::Fail { error },
                            );
                        },
                    },
                };
                if cache.len() == 0 {
                    let pending = match IntervalPlanner::split(start, end, max_span_days) {
                        Ok(v) => v,
                        Err(_) => unreached(),
                    };
                    let interval = pending[0];
                    let got: Vec<Record> = Vec::new();
                    proof {
                        assert(got.deep_view() =~= Seq::<RecordV>::empty());
                    }
                    (
                        SyncEngine {
                            start,
                            end,
                            max_span_days,
                            phase: Phase::FetchingBefore {
                                cache,
                                gap: DateInterval { start, end },
                                pending,
                                got,
                                after_gap: None,
                            },
                        },
                        SyncAction::Fetch { interval },
                    )
                } else {
                    let cs = cache[0].day;
                    let ce = cache[cache.len() - 1].day;
                    proof {
                        assert(cache.deep_view()[0].day == cs as int);
                        assert(cache.deep_view().last().day == ce as int);
                        assert(cs as int <= ce as int);
                    }
                    let after_gap: Option<DateInterval> = if end > ce {
                        Some(DateInterval { start: ce + 1, end })
                    } else {
                        None
                    };
                    if start < cs {
                        let pending = match IntervalPlanner::split(start, cs - 1, max_span_days) {
                            Ok(v) => v,
                            Err(_) => unreached(),
                        };
                        let interval = pending[0];
                        let got: Vec<Record> = Vec::new();
                        proof {
                            assert(got.deep_view() =~= Seq::<RecordV>::empty());
                        }
                        (
                            SyncEngine {
                                start,
                                end,
                                max_span_days,
                                phase: Phase::FetchingBefore {
                                    cache,
                                    gap: DateInterval { start, end: cs - 1 },
                                    pending,
                                    got,
                                    after_gap,
                                },
                            },
                            SyncAction::Fetch { interval },
                        )
                    } else if end > ce {
                        let pending = match IntervalPlanner::split(ce + 1, end, max_span_days) {
                            Ok(v) => v,
                            Err(_) => unreached(),
                        };
                        let interval = pending[0];
                        let got: Vec<Record> = Vec::new();
                        proof {
                            assert(got.deep_view() =~= Seq::<RecordV>::empty());
                        }
                        (
                            SyncEngine {
                                start,
                                end,
                                max_span_days,
                                phase: Phase::FetchingAfter {
                                    head: cache,
                                    gap: DateInterval { start: ce + 1, end },
                                    pending,
                                    got,
                                },
                            },
                            SyncAction::Fetch { interval },
                        )
                    } else {
                        (
                            SyncEngine { start, end, max_span_days, phase: Phase::AwaitSave },
                            SyncAction::Save { series: cache },
                        )
                    }
                }
            },
            SyncEvent::FetchOk { observations } => match self.phase {
                Phase::FetchingBefore { cache, gap, mut pending, mut got, after_gap } => {
                    let mut normals = match normalize_observations(&observations) {
                        Ok(v) => v,
                        Err(error) => {
                            return (
                                SyncEngine { start, end, max_span_days, phase: Phase::Failed },
                                SyncAction::Fail { error },
                            );
                        },
                    };
                    proof {
                        assert(normals.deep_view() =~= normals_of(observations@));
                    }
                    let ghost old_got = got.deep_view();
                    got.append(&mut normals);
                    proof {
                        assert(got.deep_view() =~= old_got + normals_of(observations@));
                    }
                    if pending.len() > 1 {
                        let ghost old_pending = pending@;
                        pending.remove(0);
                        proof {
                            assert(pending@ =~= old_pending.skip(1));
                        }
                        let interval = pending[0];
                        (
                            SyncEngine {
                                start,
                                end,
                                max_span_days,
                                phase: Phase::FetchingBefore {
                                    cache,
                                    gap,
                                    pending,
                                    got,
                                    after_gap,
                                },
                            },
                            SyncAction::Fetch { interval },
                        )
                    } else {
                        if !check_gap_records(&got, gap.start, gap.end) {
                            return (
                                SyncEngine { start, end, max_span_days, phase: Phase::Failed },
                                SyncAction::Fail { error: SyncError::Parse },
                            );
                        }
                        let empty_after: Vec<Record> = Vec::new();
                        proof {
                            assert(empty_after.deep_view() =~= Seq::<RecordV>::empty());
                            if cache@.len() > 0 && got@.len() > 0 {
                                assert(got.deep_view().last().day <= gap.end as int);
                            }
                        }
                        let ghost got_v = got.deep_view();
                        let ghost cache_v = cache.deep_view();
                        let head = merge_series(got, cache, empty_after);
                        proof {
                            assert(head.deep_view() =~= got_v + cache_v);
                        }
                        match after_gap {
                            Some(ag) => {
                                let pending2 = match IntervalPlanner::split(
                                    ag.start,
                                    ag.end,
                                    max_span_days,
                                ) {
                                    Ok(v) => v,
                                    Err(_) => unreached(),
                                };
                                let interval = pending2[0];
                                let got2: Vec<Record> = Vec::new();
                                proof {
                                    assert(got2.deep_view() =~= Seq::<RecordV>::empty());
                                    assert(cache_v.len() > 0);
                                    assert(head.deep_view().last() == cache_v.last());
                                }
                                (
                                    SyncEngine {
                                        start,
                                        end,
                                        max_span_days,
                                        phase: Phase::FetchingAfter {
                                            head,
                                            gap: ag,
                                            pending: pending2,
                                            got: got2,
                                        },
                                    },
                                    SyncAction::Fetch { interval },
                                )
                            },
                            None => (
                                SyncEngine { start, end, max_span_days, phase: Phase::AwaitSave },
                                SyncAction::Save { series: head },
                            ),
                        }
                    }
                },
                Phase::FetchingAfter { head, gap, mut pending, mut got } => {
                    let mut normals = match normalize_observations(&observations) {
                        Ok(v) => v,
                        Err(error) => {
                            return (
                                SyncEngine { start, end, max_span_days, phase: Phase::Failed },
                                SyncAction::Fail { error },
                            );
                        },
                    };
                    proof {
                        assert(normals.deep_view() =~= normals_of(observations@));
                    }
                    let ghost old_got = got.deep_view();
                    got.append(&mut normals);
                    proof {
                        assert(got.deep_view() =~= old_got + normals_of(observations@));
                    }
                    if pending.len() > 1 {
                        let ghost old_pending = pending@;
                        pending.remove(0);
                        proof {
                            assert(pending@ =~= old_pending.skip(1));
                        }
                        let interval = pending[0];
                        (
                            SyncEngine {
                                start,
                                end,
                                max_span_days,
                                phase: Phase::FetchingAfter { head, gap, pending, got },
                            },
                            SyncAction::Fetch { interval },
                        )
                    } else {
                        if !check_gap_records(&got, gap.start, gap.end) {
                            return (
                                SyncEngine { start, end, max_span_days, phase: Phase::Failed },
                                SyncAction::Fail { error: SyncError::Parse },
                            );
                        }
                        let empty_cache: Vec<Record> = Vec::new();
                        proof {
                            assert(empty_cache.deep_view() =~= Seq::<RecordV>::empty());
                            if got@.len() > 0 {
                                assert(got.deep_view()[0].day >= gap.start as int);
                            }
                        }
                        let ghost got_v = got.deep_view();
                        let ghost head_v = head.deep_view();
                        let series = merge_series(head, empty_cache, got);
                        proof {
                            assert(series.deep_view() =~= head_v + got_v);
                        }
                        (
                            SyncEngine { start, end, max_span_days, phase: Phase::AwaitSave },
                            SyncAction::Save { series },
                        )
                    }
                },
                _ => unreached(),
            },
            SyncEvent::FetchFailed { status } => (
                SyncEngine { start, end, max_span_days, phase: Phase::Failed },
                SyncAction::Fail { error: SyncError::Fetch { status } },
            ),
            SyncEvent::SaveOk => (
                SyncEngine { start, end, max_span_days, phase: Phase::Finished },
                SyncAction::Done,
            ),
            SyncEvent::SaveFailed => (
                SyncEngine { start, end, max_span_days, phase: Phase::Failed },
                SyncAction::Fail { error: SyncError::CacheIo },
            ),
        }
    }
}

} // verus!
