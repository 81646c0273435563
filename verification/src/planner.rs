//! Splitting a date range into provider-sized sub-intervals.

use vstd::prelude::*;
use crate::errors::SyncError;

verus! {

/// An inclusive range of day numbers.
#[derive(Clone, Copy, PartialEq, Eq, Structural, Debug)]
pub struct DateInterval {
    pub start: u32,
    pub end: u32,
}

/// Each interval is non-empty and each successor starts the day after its
/// predecessor ends: no gap and no overlap.
pub open spec fn intervals_ordered(ivs: Seq<DateInterval>) -> bool {
    (forall|i: int| 0 <= i < ivs.len() ==> #[trigger] ivs[i].start <= ivs[i].end) && (forall|
        i: int,
    |
        0 <= i < ivs.len() - 1 ==> #[trigger] ivs[i + 1].start == ivs[i].end + 1)
}

/// The intervals tile `[start, end]`: they are ordered, begin at `start` and
/// end at `end`.
pub open spec fn intervals_cover(ivs: Seq<DateInterval>, start: int, end: int) -> bool {
    ivs.len() > 0 && ivs[0].start == start && ivs.last().end == end && intervals_ordered(ivs)
}

/// No interval spans more than `max_span` days, both endpoints counted.
pub open spec fn intervals_span_bounded(ivs: Seq<DateInterval>, max_span: int) -> bool {
    forall|i: int| 0 <= i < ivs.len() ==> #[trigger] ivs[i].end - ivs[i].start + 1 <= max_span
}

/// Splits a date range for a provider that answers at most `max_span_days`
/// days per request.
pub struct IntervalPlanner;

impl IntervalPlanner {
    /// Splits `[start, end]` into contiguous, non-overlapping sub-intervals
    /// of at most `max_span_days` days each, in chronological order.
    ///
    /// An inverted range yields no intervals; a span limit below one day is
    /// rejected before any work.
    pub fn split(start: u32, end: u32, max_span_days: u32) -> (r: Result<
        Vec<DateInterval>,
        SyncError,
    >)
        ensures
            match r {
                Ok(ivs) => max_span_days >= 1 && (start > end ==> ivs.len() == 0) && (start <= end
                    ==> intervals_cover(ivs@, start as int, end as int) && intervals_span_bounded(
                    ivs@,
                    max_span_days as int,
                )),
                Err(e) => e == (SyncError::Validation) && max_span_days < 1,
            },
    {
        if max_span_days < 1 {
            return Err(SyncError::Validation);
        }
        let mut res: Vec<DateInterval> = Vec::new();
        if start > end {
            return Ok(res);
        }
        let mut cur: u32 = start;
        let mut done = false;
        while !done
            invariant
                max_span_days >= 1,
                start <= cur <= end,
                res@.len() > 0 ==> res@[0].start == start,
                !done ==> (res@.len() > 0 ==> res@.last().end + 1 == cur),
                !done ==> (res@.len() == 0 ==> cur == start),
                done ==> res@.len() > 0 && res@.last().end == end,
                intervals_ordered(res@),
                intervals_span_bounded(res@, max_span_days as int),
            decreases end - cur + (if done {
                0int
            } else {
                1int
            }),
        {
            let rem = end - cur;
            let len = if max_span_days - 1 <= rem {
                max_span_days - 1
            } else {
                rem
            };
            let iv_end = cur + len;
            res.push(DateInterval { start: cur, end: iv_end });
            if iv_end >= end {
                done = true;
            } else {
                cur = iv_end + 1;
            }
        }
        Ok(res)
    }
}

/// Ordered intervals keep strictly increasing day numbers: an earlier
/// interval ends before a later one starts.
pub proof fn lemma_intervals_disjoint(ivs: Seq<DateInterval>, i: int, j: int)
    requires
        intervals_ordered(ivs),
        0 <= i < j < ivs.len(),
    ensures
        ivs[i].end < ivs[j].start,
    decreases j - i,
{
    if j == i + 1 {
    } else {
        lemma_intervals_disjoint(ivs, i, j - 1);
        assert(ivs[(j - 1) + 1].start == ivs[j - 1].end + 1);
    }
}

/// Day `d` lies inside the interval, endpoints included.
pub open spec fn day_in_interval(iv: DateInterval, d: int) -> bool {
    iv.start <= d <= iv.end
}

/// Some sub-interval of the plan contains day `d`.
pub open spec fn day_in_some_interval(ivs: Seq<DateInterval>, d: int) -> bool {
    exists|i: int| 0 <= i < ivs.len() && #[trigger] day_in_interval(ivs[i], d)
}

/// A split that covers `[start, end]` contains each day of `[start, end]` in
/// exactly one sub-interval, and contains no other day.
pub proof fn lemma_split_covers_exactly(ivs: Seq<DateInterval>, start: int, end: int)
    requires
        start <= end,
        intervals_cover(ivs, start, end),
    ensures
        forall|d: int| #[trigger] day_in_some_interval(ivs, d) <==> start <= d <= end,
        forall|i: int, j: int, d: int|
            0 <= i < j < ivs.len() && #[trigger] day_in_interval(ivs[i], d) ==> !(
            #[trigger] day_in_interval(ivs[j], d)),
{
    assert forall|i: int, j: int, d: int|
        0 <= i < j < ivs.len() && #[trigger] day_in_interval(ivs[i], d) implies !(
    #[trigger] day_in_interval(ivs[j], d)) by {
        lemma_intervals_disjoint(ivs, i, j);
    }
    assert forall|d: int| #[trigger] day_in_some_interval(ivs, d) implies (start <= d <= end) by {
        let i = choose|i: int| 0 <= i < ivs.len() && #[trigger] day_in_interval(ivs[i], d);
        if i > 0 {
            lemma_intervals_disjoint(ivs, 0, i);
        }
        if i < ivs.len() - 1 {
            lemma_intervals_disjoint(ivs, i, ivs.len() - 1);
        }
    }
    assert forall|d: int| start <= d <= end implies #[trigger] day_in_some_interval(ivs, d) by {
        lemma_cover_finds_day(ivs, start, end, d);
    }
}

proof fn lemma_cover_finds_day(ivs: Seq<DateInterval>, start: int, end: int, d: int)
    requires
        intervals_cover(ivs, start, end),
        start <= d <= end,
    ensures
        day_in_some_interval(ivs, d),
    decreases ivs.len(),
{
    if ivs[0].start <= d <= ivs[0].end {
        assert(day_in_interval(ivs[0], d));
    } else {
        assert(ivs.len() > 1) by {
            if ivs.len() == 1 {
                assert(ivs[0].end == end);
            }
        }
        let tail = ivs.subrange(1, ivs.len() as int);
        assert forall|k: int| 0 <= k < tail.len() implies #[trigger] tail[k].start
            <= tail[k].end by {
            assert(tail[k] == ivs[k + 1]);
        }
        assert forall|k: int| 0 <= k < tail.len() - 1 implies #[trigger] tail[k + 1].start
            == tail[k].end + 1 by {
            assert(tail[k] == ivs[k + 1]);
            assert(tail[k + 1] == ivs[k + 2]);
            assert(ivs[(k + 1) + 1].start == ivs[k + 1].end + 1);
        }
        assert(tail.last() == ivs.last());
        assert(intervals_cover(tail, ivs[1].start as int, end));
        assert(ivs[0int + 1].start == ivs[0int].end + 1);
        lemma_cover_finds_day(tail, ivs[1].start as int, end, d);
        let k = choose|k: int| 0 <= k < tail.len() && #[trigger] day_in_interval(tail[k], d);
        assert(tail[k] == ivs[k + 1]);
        assert(day_in_interval(ivs[k + 1], d));
    }
}

} // verus!
