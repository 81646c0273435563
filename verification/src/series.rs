//! Records of the cached series, and normalization of raw observations.

use vstd::prelude::*;
use crate::date::{date10_spec, parse_date_at};
use crate::errors::SyncError;

verus! {

/// Allowed bytes of a persisted number token: digits, `.`, `e`, `E`, `+`, `-`.
pub open spec fn is_value_byte(b: u8) -> bool {
    (48 <= b && b <= 57) || b == 46u8 || b == 101u8 || b == 69u8 || b == 43u8 || b == 45u8
}

/// A non-empty run of number-token bytes: the shape a finite closing rate
/// takes in the cache file. Infinities and not-a-number have no such form.
pub open spec fn is_value_token(s: Seq<u8>) -> bool {
    s.len() >= 1 && forall|i: int| 0 <= i < s.len() ==> is_value_byte(#[trigger] s[i])
}

pub fn is_value_byte_x(b: u8) -> (r: bool)
    ensures
        r == is_value_byte(b),
{
    (48 <= b && b <= 57) || b == 46 || b == 101 || b == 69 || b == 43 || b == 45
}

/// One day of the series: the calendar day as its `YYYY-MM-DD` bytes and as
/// its day number, and the closing rate as the number token persisted for it.
#[derive(Debug, Clone, PartialEq, Eq)]
pub struct Record {
    pub date: Vec<u8>,
    pub day: u32,
    pub value: Vec<u8>,
}

/// The mathematical image of a [`Record`].
pub struct RecordV {
    pub date: Seq<u8>,
    pub day: int,
    pub value: Seq<u8>,
}

impl View for Record {
    type V = RecordV;

    open spec fn view(&self) -> RecordV {
        RecordV { date: self.date@, day: self.day as int, value: self.value@ }
    }
}

impl DeepView for Record {
    type V = RecordV;

    open spec fn deep_view(&self) -> RecordV {
        self.view()
    }
}

/// The date bytes name exactly the record's day number, and the value is a
/// number token.
pub open spec fn record_wf(r: RecordV) -> bool {
    date10_spec(r.date) == Some(r.day) && is_value_token(r.value)
}

/// Day numbers are strictly ascending: chronological order, no duplicate day.
pub open spec fn sorted_strict(s: Seq<RecordV>) -> bool {
    forall|i: int, j: int| 0 <= i < j < s.len() ==> #[trigger] s[i].day < #[trigger] s[j].day
}

/// Every record of the sequence is well formed.
pub open spec fn records_wf(s: Seq<RecordV>) -> bool {
    forall|i: int| 0 <= i < s.len() ==> record_wf(#[trigger] s[i])
}

/// Every record is well formed and the series is strictly ascending by day.
pub open spec fn series_wf(s: Seq<RecordV>) -> bool {
    records_wf(s) && sorted_strict(s)
}

/// Copies `src[from..to]` into a fresh vector.
pub fn copy_bytes(src: &Vec<u8>, from: usize, to: usize) -> (out: Vec<u8>)
    requires
        from <= to <= src.len(),
    ensures
        out@ == src@.subrange(from as int, to as int),
{
    let mut out: Vec<u8> = Vec::new();
    let mut i = from;
    while i < to
        invariant
            from <= i <= to <= src.len(),
            out@ == src@.subrange(from as int, i as int),
        decreases to - i,
    {
        out.push(src[i]);
        proof {
            assert(src@.subrange(from as int, i as int + 1) =~= src@.subrange(
                from as int,
                i as int,
            ).push(src@[i as int]));
        }
        i = i + 1;
    }
    out
}

/// One raw provider observation as it crosses the fetch boundary: the
/// period-start timestamp and the closing rate's number token. The other
/// provider fields are dropped at that boundary.
pub struct RawObservation {
    pub time_period_start: Vec<u8>,
    pub rate_close: Vec<u8>,
}

/// The observation can be normalized: its timestamp starts with a valid
/// calendar day and its rate is a finite number token.
pub open spec fn can_normalize(o: RawObservation) -> bool {
    o.time_period_start@.len() >= 10 && date10_spec(o.time_period_start@.subrange(0, 10)) is Some
        && is_value_token(o.rate_close@)
}

/// The record an observation normalizes to: the calendar-day prefix of its
/// timestamp, and its closing rate unchanged.
pub open spec fn normal_of(o: RawObservation) -> RecordV {
    RecordV {
        date: o.time_period_start@.subrange(0, 10),
        day: date10_spec(o.time_period_start@.subrange(0, 10)).unwrap(),
        value: o.rate_close@,
    }
}

/// Normalizes one observation, rejecting a malformed date prefix or a value
/// that is not a finite number token.
pub fn normalize_observation(o: &RawObservation) -> (r: Result<Record, SyncError>)
    ensures
        match r {
            Ok(rec) => can_normalize(*o) && rec@ == normal_of(*o) && record_wf(rec@),
            Err(e) => e == (SyncError::Parse) && !can_normalize(*o),
        },
{
    if o.time_period_start.len() < 10 {
        return Err(SyncError::Parse);
    }
    let day = match parse_date_at(&o.time_period_start, 0) {
        Some(d) => d,
        None => {
            return Err(SyncError::Parse);
        },
    };
    let mut i: usize = 0;
    while i < o.rate_close.len()
        invariant
            i <= o.rate_close.len(),
            forall|k: int| 0 <= k < i ==> is_value_byte(#[trigger] o.rate_close@[k]),
        decreases o.rate_close.len() - i,
    {
        if !is_value_byte_x(o.rate_close[i]) {
            return Err(SyncError::Parse);
        }
        i = i + 1;
    }
    if o.rate_close.len() == 0 {
        return Err(SyncError::Parse);
    }
    let date = copy_bytes(&o.time_period_start, 0, 10);
    let value = copy_bytes(&o.rate_close, 0, o.rate_close.len());
    proof {
        assert(value@ =~= o.rate_close@);
    }
    Ok(Record { date, day, value })
}

/// Normalizes a fetched batch in order; the first malformed observation
/// fails the whole batch.
pub fn normalize_observations(obs: &Vec<RawObservation>) -> (r: Result<Vec<Record>, SyncError>)
    ensures
        match r {
            Ok(v) => v.deep_view().len() == obs@.len() && (forall|i: int|
                0 <= i < obs@.len() ==> can_normalize(#[trigger] obs@[i]) && v.deep_view()[i]
                    == normal_of(obs@[i])),
            Err(e) => e == (SyncError::Parse) && (exists|i: int|
                0 <= i < obs@.len() && !can_normalize(#[trigger] obs@[i])),
        },
{
    let mut v: Vec<Record> = Vec::new();
    let mut i: usize = 0;
    while i < obs.len()
        invariant
            i <= obs@.len(),
            v.deep_view().len() == i as int,
            forall|k: int|
                0 <= k < i ==> can_normalize(#[trigger] obs@[k]) && v.deep_view()[k] == normal_of(
                    obs@[k],
                ),
        decreases obs@.len() - i,
    {
        match normalize_observation(&obs[i]) {
            Ok(rec) => {
                v.push(rec);
            },
            Err(e) => {
                return Err(e);
            },
        }
        i = i + 1;
    }
    Ok(v)
}

/// The records are strictly ascending by day and every day lies in
/// `[lo, hi]`.
pub open spec fn gap_records_ok(s: Seq<RecordV>, lo: int, hi: int) -> bool {
    sorted_strict(s) && forall|i: int| 0 <= i < s.len() ==> lo <= #[trigger] s[i].day <= hi
}

/// Checks that fetched gap records are strictly ascending and lie within the
/// gap's bounds.
pub fn check_gap_records(recs: &Vec<Record>, lo: u32, hi: u32) -> (r: bool)
    ensures
        r == gap_records_ok(recs.deep_view(), lo as int, hi as int),
{
    let n = recs.len();
    let mut i: usize = 0;
    while i < n
        invariant
            n == recs@.len(),
            i <= n,
            forall|k: int| 0 <= k < i ==> lo <= #[trigger] recs.deep_view()[k].day <= hi,
            forall|k: int, l: int|
                0 <= k < l < i ==> #[trigger] recs.deep_view()[k].day
                    < #[trigger] recs.deep_view()[l].day,
        decreases n - i,
    {
        let d = recs[i].day;
        if d < lo || d > hi {
            proof {
                assert(recs.deep_view()[i as int].day == d as int);
                assert(!gap_records_ok(recs.deep_view(), lo as int, hi as int));
            }
            return false;
        }
        if i > 0 && recs[i - 1].day >= d {
            proof {
                assert(recs.deep_view()[i - 1].day >= recs.deep_view()[i as int].day);
                assert(!sorted_strict(recs.deep_view()));
            }
            return false;
        }
        proof {
            assert forall|k: int| 0 <= k < i + 1 implies lo <= #[trigger] recs.deep_view()[k].day
                <= hi by {}
            assert forall|k: int, l: int| 0 <= k < l < i + 1 implies #[trigger] recs.deep_view()[k].day
                < #[trigger] recs.deep_view()[l].day by {
                if l == i && k < i - 1 {
                    assert(recs.deep_view()[k].day < recs.deep_view()[i - 1].day);
                }
            }
        }
        i = i + 1;
    }
    true
}

/// Checks that a series is strictly ascending by day.
pub fn check_sorted(recs: &Vec<Record>) -> (r: bool)
    ensures
        r == sorted_strict(recs.deep_view()),
{
    let n = recs.len();
    let mut i: usize = 1;
    if n == 0 {
        return true;
    }
    while i < n
        invariant
            n == recs@.len(),
            1 <= i <= n,
            forall|k: int, l: int|
                0 <= k < l < i ==> #[trigger] recs.deep_view()[k].day
                    < #[trigger] recs.deep_view()[l].day,
        decreases n - i,
    {
        if recs[i - 1].day >= recs[i].day {
            proof {
                assert(recs.deep_view()[i - 1].day >= recs.deep_view()[i as int].day);
                assert(!sorted_strict(recs.deep_view()));
            }
            return false;
        }
        proof {
            assert forall|k: int, l: int| 0 <= k < l < i + 1 implies #[trigger] recs.deep_view()[k].day
                < #[trigger] recs.deep_view()[l].day by {
                if l == i && k < i - 1 {
                    assert(recs.deep_view()[k].day < recs.deep_view()[i - 1].day);
                }
            }
        }
        i = i + 1;
    }
    true
}

/// Concatenates the records fetched before the cache, the cache, and the
/// records fetched after it, in chronological order.
pub fn merge_series(before: Vec<Record>, cache: Vec<Record>, after: Vec<Record>) -> (out: Vec<
    Record,
>)
    requires
        series_wf(before.deep_view()),
        series_wf(cache.deep_view()),
        series_wf(after.deep_view()),
        before@.len() > 0 && cache@.len() > 0 ==> before.deep_view().last().day
            < cache.deep_view()[0].day,
        cache@.len() > 0 && after@.len() > 0 ==> cache.deep_view().last().day
            < after.deep_view()[0].day,
        before@.len() > 0 && after@.len() > 0 ==> before.deep_view().last().day
            < after.deep_view()[0].day,
    ensures
        out.deep_view() == before.deep_view() + cache.deep_view() + after.deep_view(),
        series_wf(out.deep_view()),
{
    let ghost bv = before.deep_view();
    let ghost cv = cache.deep_view();
    let ghost av = after.deep_view();
    let mut out = before;
    let mut cache = cache;
    let mut after = after;
    out.append(&mut cache);
    out.append(&mut after);
    proof {
        assert(out.deep_view() =~= bv + cv + av);
        let m = out.deep_view();
        assert forall|i: int| 0 <= i < m.len() implies record_wf(#[trigger] m[i]) by {
            if i < bv.len() {
                assert(m[i] == bv[i]);
            } else if i < bv.len() + cv.len() {
                assert(m[i] == cv[i - bv.len()]);
            } else {
                assert(m[i] == av[i - bv.len() - cv.len()]);
            }
        }
        assert forall|i: int, j: int| 0 <= i < j < m.len() implies #[trigger] m[i].day
            < #[trigger] m[j].day by {
            lemma_merge_sorted(bv, cv, av, i, j);
        }
    }
    out
}

proof fn lemma_merge_sorted(bv: Seq<RecordV>, cv: Seq<RecordV>, av: Seq<RecordV>, i: int, j: int)
    requires
        sorted_strict(bv),
        sorted_strict(cv),
        sorted_strict(av),
        bv.len() > 0 && cv.len() > 0 ==> bv.last().day < cv[0].day,
        cv.len() > 0 && av.len() > 0 ==> cv.last().day < av[0].day,
        bv.len() > 0 && av.len() > 0 ==> bv.last().day < av[0].day,
        0 <= i < j < bv.len() + cv.len() + av.len(),
    ensures
        (bv + cv + av)[i].day < (bv + cv + av)[j].day,
{
    let m = bv + cv + av;
    let b = bv.len();
    let c = cv.len();
    if i < b {
        assert(m[i] == bv[i]);
        assert(bv[i].day <= bv.last().day);
    } else if i < b + c {
        assert(m[i] == cv[i - b]);
    } else {
        assert(m[i] == av[i - b - c]);
    }
    if j < b {
        assert(m[j] == bv[j]);
    } else if j < b + c {
        assert(m[j] == cv[j - b]);
        assert(cv[0].day <= cv[j - b].day);
    } else {
        assert(m[j] == av[j - b - c]);
        assert(av[0].day <= av[j - b - c].day);
    }
}

} // verus!
