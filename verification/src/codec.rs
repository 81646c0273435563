//! The persisted cache file: a JSON array of `{"date":"YYYY-MM-DD","value":N}`
//! objects, ascending by date, written without whitespace.
//!
//! [`encode_series`] produces exactly the canonical byte form described by
//! [`encode_series_spec`]; [`decode_series`] accepts exactly what
//! [`parse_series_spec`] accepts and additionally demands a well-formed
//! (sorted, duplicate-free) series, reporting anything else as cache
//! corruption.

use vstd::prelude::*;
use crate::date::{date10_spec, parse_date_at};
use crate::errors::SyncError;
use crate::series::{
    check_sorted, copy_bytes, is_value_byte, is_value_byte_x, record_wf, series_wf,
    Record, RecordV,
};

verus! {

/// The bytes of `{"date":"`.
pub open spec fn lit_rec_open() -> Seq<u8> {
    seq![123u8, 34u8, 100u8, 97u8, 116u8, 101u8, 34u8, 58u8, 34u8]
}

/// The bytes of `","value":`.
pub open spec fn lit_value() -> Seq<u8> {
    seq![34u8, 44u8, 34u8, 118u8, 97u8, 108u8, 117u8, 101u8, 34u8, 58u8]
}

/// `b` holds the bytes of `{"date":"` starting at `i`.
pub open spec fn lit_rec_open_at(b: Seq<u8>, i: int) -> bool {
    b[i] == 123u8 && b[i + 1] == 34u8 && b[i + 2] == 100u8 && b[i + 3] == 97u8 && b[i + 4]
        == 116u8 && b[i + 5] == 101u8 && b[i + 6] == 34u8 && b[i + 7] == 58u8 && b[i + 8] == 34u8
}

/// `b` holds the bytes of `","value":` starting at `i`.
pub open spec fn lit_value_at(b: Seq<u8>, i: int) -> bool {
    b[i] == 34u8 && b[i + 1] == 44u8 && b[i + 2] == 34u8 && b[i + 3] == 118u8 && b[i + 4] == 97u8
        && b[i + 5] == 108u8 && b[i + 6] == 117u8 && b[i + 7] == 101u8 && b[i + 8] == 34u8 && b[i
        + 9] == 58u8
}

/// The canonical bytes of one record object.
pub open spec fn encode_record_spec(r: RecordV) -> Seq<u8> {
    lit_rec_open() + r.date + lit_value() + r.value + seq![125u8]
}

/// The canonical bytes of the comma-separated record objects.
pub open spec fn encode_items_spec(s: Seq<RecordV>) -> Seq<u8>
    decreases s.len(),
{
    if s.len() == 0 {
        Seq::empty()
    } else if s.len() == 1 {
        encode_record_spec(s[0])
    } else {
        encode_record_spec(s[0]) + seq![44u8] + encode_items_spec(s.skip(1))
    }
}

/// The canonical bytes of a whole series: the objects between `[` and `]`.
pub open spec fn encode_series_spec(s: Seq<RecordV>) -> Seq<u8> {
    seq![91u8] + encode_items_spec(s) + seq![93u8]
}

/// First position at or after `i` whose byte is not a number-token byte.
pub open spec fn token_end(b: Seq<u8>, i: int) -> int
    decreases b.len() - i when 0 <= i <= b.len()
{
    if i < b.len() && is_value_byte(b[i]) {
        token_end(b, i + 1)
    } else {
        i
    }
}

proof fn lemma_token_end_bounds(b: Seq<u8>, i: int)
    requires
        0 <= i <= b.len(),
    ensures
        i <= token_end(b, i) <= b.len(),
        forall|k: int| i <= k < token_end(b, i) ==> is_value_byte(#[trigger] b[k]),
    decreases b.len() - i,
{
    if i < b.len() && is_value_byte(b[i]) {
        lemma_token_end_bounds(b, i + 1);
    }
}

/// The record object starting at `i`, with the position just past it.
pub open spec fn parse_record_spec(b: Seq<u8>, i: int) -> Option<(RecordV, int)> {
    if 0 <= i && i + 31 <= b.len() && lit_rec_open_at(b, i) && date10_spec(
        b.subrange(i + 9, i + 19),
    ) is Some && lit_value_at(b, i + 19) {
        let vend = token_end(b, i + 29);
        if vend > i + 29 && vend < b.len() && b[vend] == 125u8 {
            Some(
                (
                    RecordV {
                        date: b.subrange(i + 9, i + 19),
                        day: date10_spec(b.subrange(i + 9, i + 19)).unwrap(),
                        value: b.subrange(i + 29, vend),
                    },
                    vend + 1,
                ),
            )
        } else {
            None
        }
    } else {
        None
    }
}

/// The record objects from `i` to the closing `]`, which must end the input.
pub open spec fn parse_items_spec(b: Seq<u8>, i: int) -> Option<Seq<RecordV>>
    decreases b.len() - i when 0 <= i <= b.len()
{
    match parse_record_spec(b, i) {
        None => None,
        Some((rv, next)) => {
            if next <= i || next > b.len() {
                None
            } else if next < b.len() && b[next] == 44u8 {
                match parse_items_spec(b, next + 1) {
                    None => None,
                    Some(rest) => Some(seq![rv] + rest),
                }
            } else if next == b.len() - 1 && b[next] == 93u8 {
                Some(seq![rv])
            } else {
                None
            }
        },
    }
}

/// The series a byte string holds: `[]`, or `[` records `]` covering the
/// whole input. Sortedness is judged separately by [`decode_series`].
pub open spec fn parse_series_spec(b: Seq<u8>) -> Option<Seq<RecordV>> {
    if b.len() == 2 && b[0] == 91u8 && b[1] == 93u8 {
        Some(Seq::empty())
    } else if b.len() >= 2 && b[0] == 91u8 {
        parse_items_spec(b, 1)
    } else {
        None
    }
}

/// The bytes of `.json`.
pub open spec fn lit_json_ext() -> Seq<u8> {
    seq![46u8, 106u8, 115u8, 111u8, 110u8]
}

/// The cache file name an asset key maps to: every `/` becomes `_`, then
/// `.json` is appended (so `BTC/EUR` maps to `BTC_EUR.json`).
pub open spec fn cache_filename_spec(asset: Seq<u8>) -> Seq<u8> {
    asset.map_values(
        |b: u8|
            if b == 47u8 {
                95u8
            } else {
                b
            },
    ) + lit_json_ext()
}

/// Derives the cache file name for an asset key.
pub fn cache_filename(asset: &Vec<u8>) -> (r: Vec<u8>)
    ensures
        r@ == cache_filename_spec(asset@),
{
    let mut out: Vec<u8> = Vec::new();
    let mut i: usize = 0;
    while i < asset.len()
        invariant
            i <= asset@.len(),
            out@ == asset@.subrange(0, i as int).map_values(
                |b: u8|
                    if b == 47u8 {
                        95u8
                    } else {
                        b
                    },
            ),
        decreases asset@.len() - i,
    {
        let b = asset[i];
        if b == 47 {
            out.push(95);
        } else {
            out.push(b);
        }
        proof {
            assert(asset@.subrange(0, i as int + 1).map_values(
                |b: u8|
                    if b == 47u8 {
                        95u8
                    } else {
                        b
                    },
            ) =~= asset@.subrange(0, i as int).map_values(
                |b: u8|
                    if b == 47u8 {
                        95u8
                    } else {
                        b
                    },
            ).push(
                if asset@[i as int] == 47u8 {
                    95u8
                } else {
                    asset@[i as int]
                },
            ));
        }
        i = i + 1;
    }
    out.push(46);
    out.push(106);
    out.push(115);
    out.push(111);
    out.push(110);
    proof {
        assert(asset@.subrange(0, asset@.len() as int) =~= asset@);
        assert(out@ =~= cache_filename_spec(asset@));
    }
    out
}

fn scan_token(b: &Vec<u8>, pos: usize) -> (r: usize)
    requires
        pos <= b.len(),
    ensures
        r as int == token_end(b@, pos as int),
        pos <= r <= b@.len(),
{
    let mut i = pos;
    while i < b.len() && is_value_byte_x(b[i])
        invariant
            pos <= i <= b@.len(),
            token_end(b@, pos as int) == token_end(b@, i as int),
        decreases b@.len() - i,
    {
        proof {
            assert(token_end(b@, i as int) == token_end(b@, i as int + 1));
        }
        i = i + 1;
    }
    proof {
        assert(token_end(b@, i as int) == i as int);
        lemma_token_end_bounds(b@, pos as int);
    }
    i
}

fn parse_record_at(b: &Vec<u8>, pos: usize) -> (r: Option<(Record, usize)>)
    requires
        pos <= b.len(),
    ensures
        match r {
            Some((rec, next)) => parse_record_spec(b@, pos as int) == Some((rec@, next as int))
                && record_wf(rec@) && pos < next <= b@.len(),
            None => parse_record_spec(b@, pos as int) is None,
        },
{
    if b.len() < 31 || pos > b.len() - 31 {
        return None;
    }
    if !(b[pos] == 123 && b[pos + 1] == 34 && b[pos + 2] == 100 && b[pos + 3] == 97 && b[pos + 4]
        == 116 && b[pos + 5] == 101 && b[pos + 6] == 34 && b[pos + 7] == 58 && b[pos + 8] == 34) {
        return None;
    }
    let day = match parse_date_at(b, pos + 9) {
        Some(d) => d,
        None => {
            return None;
        },
    };
    if !(b[pos + 19] == 34 && b[pos + 20] == 44 && b[pos + 21] == 34 && b[pos + 22] == 118 && b[pos
        + 23] == 97 && b[pos + 24] == 108 && b[pos + 25] == 117 && b[pos + 26] == 101 && b[pos
        + 27] == 34 && b[pos + 28] == 58) {
        return None;
    }
    let vstart = pos + 29;
    let vend = scan_token(b, vstart);
    if !(vend > vstart && vend < b.len()) {
        return None;
    }
    if b[vend] != 125 {
        return None;
    }
    let date = copy_bytes(b, pos + 9, pos + 19);
    let value = copy_bytes(b, vstart, vend);
    proof {
        lemma_token_end_bounds(b@, vstart as int);
        assert forall|k: int| 0 <= k < value@.len() implies is_value_byte(
            #[trigger] value@[k],
        ) by {
            assert(value@[k] == b@[vstart + k]);
        }
    }
    Some((Record { date, day, value }, vend + 1))
}

/// Decodes a persisted cache file. Returns the series it holds when the
/// bytes are canonical and the series is sorted without duplicate days;
/// reports [`SyncError::CacheIo`] otherwise.
pub fn decode_series(b: &Vec<u8>) -> (r: Result<Vec<Record>, SyncError>)
    ensures
        match r {
            Ok(v) => parse_series_spec(b@) == Some(v.deep_view()) && series_wf(v.deep_view()),
            Err(e) => e == (SyncError::CacheIo) && (parse_series_spec(b@) is None
                || !series_wf(parse_series_spec(b@).unwrap())),
        },
{
    if b.len() < 2 || b[0] != 91 {
        return Err(SyncError::CacheIo);
    }
    if b.len() == 2 {
        if b[1] == 93 {
            let v: Vec<Record> = Vec::new();
            proof {
                assert(v.deep_view() =~= Seq::<RecordV>::empty());
            }
            return Ok(v);
        } else {
            return Err(SyncError::CacheIo);
        }
    }
    let mut acc: Vec<Record> = Vec::new();
    let mut pos: usize = 1;
    let mut finished = false;
    while !finished
        invariant
            1 <= pos <= b@.len(),
            b@.len() > 2,
            b@[0] == 91u8,
            forall|k: int| 0 <= k < acc.deep_view().len() ==> record_wf(#[trigger] acc.deep_view()[k]),
            !finished ==> match parse_items_spec(b@, pos as int) {
                Some(rest) => parse_items_spec(b@, 1) == Some(acc.deep_view() + rest),
                None => parse_items_spec(b@, 1) is None,
            },
            finished ==> parse_items_spec(b@, 1) == Some(acc.deep_view()),
        decreases b@.len() - pos + (if finished {
            0int
        } else {
            1int
        }),
    {
        match parse_record_at(b, pos) {
            None => {
                proof {
                    assert(parse_items_spec(b@, pos as int) is None);
                }
                return Err(SyncError::CacheIo);
            },
            Some((rec, next)) => {
                let ghost old_acc = acc.deep_view();
                let ghost rv = rec@;
                acc.push(rec);
                proof {
                    assert(acc.deep_view() =~= old_acc.push(rv));
                }
                if next < b.len() && b[next] == 44 {
                    proof {
                        match parse_items_spec(b@, next as int + 1) {
                            Some(rest2) => {
                                assert(parse_items_spec(b@, pos as int) == Some(
                                    seq![rv] + rest2,
                                ));
                                assert(old_acc + (seq![rv] + rest2) =~= acc.deep_view() + rest2);
                            },
                            None => {
                                assert(parse_items_spec(b@, pos as int) is None);
                            },
                        }
                    }
                    pos = next + 1;
                } else if next == b.len() - 1 && b[next] == 93 {
                    proof {
                        assert(parse_items_spec(b@, pos as int) == Some(seq![rv]));
                        assert(old_acc + seq![rv] =~= acc.deep_view());
                    }
                    finished = true;
                } else {
                    proof {
                        assert(parse_items_spec(b@, pos as int) is None);
                    }
                    return Err(SyncError::CacheIo);
                }
            },
        }
    }
    if !check_sorted(&acc) {
        return Err(SyncError::CacheIo);
    }
    Ok(acc)
}

fn push_record(out: &mut Vec<u8>, r: &Record)
    ensures
        final (out)@ == old(out)@ + encode_record_spec(r@),
{
    out.push(123);
    out.push(34);
    out.push(100);
    out.push(97);
    out.push(116);
    out.push(101);
    out.push(34);
    out.push(58);
    out.push(34);
    let mut d = copy_bytes(&r.date, 0, r.date.len());
    proof {
        assert(d@ =~= r.date@);
    }
    out.append(&mut d);
    out.push(34);
    out.push(44);
    out.push(34);
    out.push(118);
    out.push(97);
    out.push(108);
    out.push(117);
    out.push(101);
    out.push(34);
    out.push(58);
    let mut v = copy_bytes(&r.value, 0, r.value.len());
    proof {
        assert(v@ =~= r.value@);
    }
    out.append(&mut v);
    out.push(125);
    proof {
        assert(out@ =~= old(out)@ + encode_record_spec(r@));
    }
}

proof fn lemma_encode_items_snoc(t: Seq<RecordV>)
    requires
        t.len() >= 2,
    ensures
        encode_items_spec(t) == encode_items_spec(t.take(t.len() - 1)) + seq![44u8]
            + encode_record_spec(t.last()),
    decreases t.len(),
{
    let head = t.take(t.len() - 1);
    if t.len() == 2 {
        assert(t.skip(1) =~= seq![t[1]]);
        assert(encode_items_spec(t.skip(1)) == encode_record_spec(t[1]));
        assert(head =~= seq![t[0]]);
        assert(encode_items_spec(head) == encode_record_spec(t[0]));
        assert(encode_record_spec(t[0]) + seq![44u8] + encode_items_spec(t.skip(1))
            =~= encode_items_spec(head) + seq![44u8] + encode_record_spec(t.last()));
    } else {
        let tail = t.skip(1);
        lemma_encode_items_snoc(tail);
        assert(tail.take(tail.len() - 1) =~= head.skip(1));
        assert(tail.last() == t.last());
        assert(head.len() >= 2);
        assert(encode_items_spec(head) == encode_record_spec(head[0]) + seq![44u8]
            + encode_items_spec(head.skip(1)));
        assert(head[0] == t[0]);
        assert(encode_record_spec(t[0]) + seq![44u8] + (encode_items_spec(head.skip(1))
            + seq![44u8] + encode_record_spec(t.last())) =~= (encode_record_spec(t[0])
            + seq![44u8] + encode_items_spec(head.skip(1))) + seq![44u8] + encode_record_spec(
            t.last(),
        ));
    }
}

proof fn lemma_token_end_exact(b: Seq<u8>, j: int, e: int)
    requires
        0 <= j <= e < b.len(),
        forall|k: int| j <= k < e ==> is_value_byte(#[trigger] b[k]),
        !is_value_byte(b[e]),
    ensures
        token_end(b, j) == e,
    decreases e - j,
{
    if j < e {
        lemma_token_end_exact(b, j + 1, e);
    }
}

proof fn lemma_lit_indexes()
    ensures
        lit_rec_open().len() == 9,
        lit_rec_open()[0] == 123u8,
        lit_rec_open()[1] == 34u8,
        lit_rec_open()[2] == 100u8,
        lit_rec_open()[3] == 97u8,
        lit_rec_open()[4] == 116u8,
        lit_rec_open()[5] == 101u8,
        lit_rec_open()[6] == 34u8,
        lit_rec_open()[7] == 58u8,
        lit_rec_open()[8] == 34u8,
        lit_value().len() == 10,
        lit_value()[0] == 34u8,
        lit_value()[1] == 44u8,
        lit_value()[2] == 34u8,
        lit_value()[3] == 118u8,
        lit_value()[4] == 97u8,
        lit_value()[5] == 108u8,
        lit_value()[6] == 117u8,
        lit_value()[7] == 101u8,
        lit_value()[8] == 34u8,
        lit_value()[9] == 58u8,
{
}

proof fn lemma_parse_record_of_encoding(b: Seq<u8>, i: int, r: RecordV)
    requires
        record_wf(r),
        0 <= i,
        i + encode_record_spec(r).len() <= b.len(),
        b.subrange(i, i + encode_record_spec(r).len()) == encode_record_spec(r),
    ensures
        parse_record_spec(b, i) == Some((r, i + encode_record_spec(r).len())),
{
    let e = encode_record_spec(r);
    let el = e.len() as int;
    let vl = r.value.len() as int;
    assert(r.date.len() == 10);
    lemma_lit_indexes();
    assert(el == 30 + vl);
    assert(b.subrange(i, i + el)[0int] == e[0int]);
    assert(e[0int] == 123u8);
    assert(b[i + 0] == 123u8);
    assert(b.subrange(i, i + el)[1int] == e[1int]);
    assert(e[1int] == 34u8);
    assert(b[i + 1] == 34u8);
    assert(b.subrange(i, i + el)[2int] == e[2int]);
    assert(e[2int] == 100u8);
    assert(b[i + 2] == 100u8);
    assert(b.subrange(i, i + el)[3int] == e[3int]);
    assert(e[3int] == 97u8);
    assert(b[i + 3] == 97u8);
    assert(b.subrange(i, i + el)[4int] == e[4int]);
    assert(e[4int] == 116u8);
    assert(b[i + 4] == 116u8);
    assert(b.subrange(i, i + el)[5int] == e[5int]);
    assert(e[5int] == 101u8);
    assert(b[i + 5] == 101u8);
    assert(b.subrange(i, i + el)[6int] == e[6int]);
    assert(e[6int] == 34u8);
    assert(b[i + 6] == 34u8);
    assert(b.subrange(i, i + el)[7int] == e[7int]);
    assert(e[7int] == 58u8);
    assert(b[i + 7] == 58u8);
    assert(b.subrange(i, i + el)[8int] == e[8int]);
    assert(e[8int] == 34u8);
    assert(b[i + 8] == 34u8);
    assert(b.subrange(i, i + el)[19int] == e[19int]);
    assert(e[19int] == 34u8);
    assert(b[i + 19] == 34u8);
    assert(b.subrange(i, i + el)[20int] == e[20int]);
    assert(e[20int] == 44u8);
    assert(b[i + 20] == 44u8);
    assert(b.subrange(i, i + el)[21int] == e[21int]);
    assert(e[21int] == 34u8);
    assert(b[i + 21] == 34u8);
    assert(b.subrange(i, i + el)[22int] == e[22int]);
    assert(e[22int] == 118u8);
    assert(b[i + 22] == 118u8);
    assert(b.subrange(i, i + el)[23int] == e[23int]);
    assert(e[23int] == 97u8);
    assert(b[i + 23] == 97u8);
    assert(b.subrange(i, i + el)[24int] == e[24int]);
    assert(e[24int] == 108u8);
    assert(b[i + 24] == 108u8);
    assert(b.subrange(i, i + el)[25int] == e[25int]);
    assert(e[25int] == 117u8);
    assert(b[i + 25] == 117u8);
    assert(b.subrange(i, i + el)[26int] == e[26int]);
    assert(e[26int] == 101u8);
    assert(b[i + 26] == 101u8);
    assert(b.subrange(i, i + el)[27int] == e[27int]);
    assert(e[27int] == 34u8);
    assert(b[i + 27] == 34u8);
    assert(b.subrange(i, i + el)[28int] == e[28int]);
    assert(e[28int] == 58u8);
    assert(b[i + 28] == 58u8);
    assert(lit_rec_open_at(b, i));
    assert(lit_value_at(b, i + 19));
    assert forall|k: int| 0 <= k < 10 implies #[trigger] b.subrange(i + 9, i + 19)[k]
        == r.date[k] by {
        assert(b.subrange(i, i + el)[9 + k] == e[9 + k]);
        assert(e[9 + k] == r.date[k]);
        assert(b.subrange(i, i + el)[9 + k] == b[i + 9 + k]);
        assert(b.subrange(i + 9, i + 19)[k] == b[i + 9 + k]);
    }
    assert(b.subrange(i + 9, i + 19) =~= r.date);
    assert forall|k: int| 0 <= k < vl implies #[trigger] b.subrange(i + 29, i + 29 + vl)[k]
        == r.value[k] by {
        assert(b.subrange(i, i + el)[29 + k] == e[29 + k]);
        assert(e[29 + k] == r.value[k]);
        assert(b.subrange(i, i + el)[29 + k] == b[i + 29 + k]);
        assert(b.subrange(i + 29, i + 29 + vl)[k] == b[i + 29 + k]);
    }
    assert(b.subrange(i + 29, i + 29 + vl) =~= r.value);
    assert(b.subrange(i, i + el)[29 + vl] == e[29 + vl]);
    assert(e[29 + vl] == 125u8);
    assert(b[i + 29 + vl] == 125u8);
    assert forall|k: int| i + 29 <= k < i + 29 + vl implies is_value_byte(#[trigger] b[k]) by {
        assert(b.subrange(i + 29, i + 29 + vl)[k - (i + 29)] == b[k]);
        assert(b[k] == r.value[k - (i + 29)]);
    }
    assert(!is_value_byte(125u8));
    lemma_token_end_exact(b, i + 29, i + 29 + vl);
    assert(parse_record_spec(b, i) == Some(
        (
            RecordV {
                date: b.subrange(i + 9, i + 19),
                day: date10_spec(b.subrange(i + 9, i + 19)).unwrap(),
                value: b.subrange(i + 29, i + 29 + vl),
            },
            i + 30 + vl,
        ),
    ));
    assert(date10_spec(r.date).unwrap() == r.day);
    assert(RecordV {
        date: b.subrange(i + 9, i + 19),
        day: date10_spec(b.subrange(i + 9, i + 19)).unwrap(),
        value: b.subrange(i + 29, i + 29 + vl),
    } == r);
}

proof fn lemma_parse_items_of_encoding(b: Seq<u8>, i: int, s: Seq<RecordV>)
    requires
        s.len() > 0,
        forall|k: int| 0 <= k < s.len() ==> record_wf(#[trigger] s[k]),
        0 <= i <= b.len(),
        b.len() == i + encode_items_spec(s).len() + 1,
        b.subrange(i, b.len() as int) == encode_items_spec(s) + seq![93u8],
    ensures
        parse_items_spec(b, i) == Some(s),
    decreases s.len(),
{
    let items = encode_items_spec(s);
    let r0 = s[0];
    let e0 = encode_record_spec(r0);
    let l0 = e0.len() as int;
    assert forall|k: int| 0 <= k < items.len() + 1 implies b[i + k] == (items + seq![93u8])[k] by {
        assert(b.subrange(i, b.len() as int)[k] == b[i + k]);
    }
    if s.len() == 1 {
        assert(items == e0);
        assert forall|k: int| 0 <= k < l0 implies #[trigger] b.subrange(i, i + l0)[k] == e0[k] by {
            assert(b.subrange(i, i + l0)[k] == b[i + k]);
            assert((items + seq![93u8])[k] == e0[k]);
        }
        assert(b.subrange(i, i + l0) =~= e0);
        lemma_parse_record_of_encoding(b, i, r0);
        assert(b[i + l0] == (items + seq![93u8])[l0]);
        assert(b[i + l0] == 93u8);
        assert(i + l0 == b.len() - 1);
        assert(parse_items_spec(b, i) == Some(seq![r0]));
        assert(seq![r0] =~= s);
    } else {
        let rest = encode_items_spec(s.skip(1));
        assert(items == e0 + seq![44u8] + rest);
        assert forall|k: int| 0 <= k < l0 implies #[trigger] b.subrange(i, i + l0)[k] == e0[k] by {
            assert(b.subrange(i, i + l0)[k] == b[i + k]);
            assert((items + seq![93u8])[k] == e0[k]);
        }
        assert(b.subrange(i, i + l0) =~= e0);
        lemma_parse_record_of_encoding(b, i, r0);
        assert(b[i + l0] == (items + seq![93u8])[l0]);
        assert(b[i + l0] == 44u8);
        let j = i + l0 + 1;
        assert(b.len() == j + rest.len() + 1);
        assert forall|k: int| 0 <= k < rest.len() + 1 implies #[trigger] b.subrange(
            j,
            b.len() as int,
        )[k] == (rest + seq![93u8])[k] by {
            assert(b.subrange(j, b.len() as int)[k] == b[j + k]);
            assert(b[j + k] == (items + seq![93u8])[l0 + 1 + k]);
        }
        assert(b.subrange(j, b.len() as int) =~= rest + seq![93u8]);
        assert forall|k: int| 0 <= k < s.skip(1).len() implies record_wf(#[trigger] s.skip(1)[k]) by {
            assert(s.skip(1)[k] == s[k + 1]);
        }
        lemma_parse_items_of_encoding(b, j, s.skip(1));
        assert(parse_items_spec(b, i) == Some(seq![r0] + s.skip(1)));
        assert(seq![r0] + s.skip(1) =~= s);
    }
}

/// Round trip: decoding the canonical encoding of a well-formed series gives
/// the same series back. With [`encode_series`] writing exactly this
/// encoding and [`decode_series`] accepting exactly what the parser accepts,
/// a save followed by a load returns the series that was saved.
pub proof fn lemma_encode_decode_round_trip(s: Seq<RecordV>)
    requires
        series_wf(s),
    ensures
        parse_series_spec(encode_series_spec(s)) == Some(s),
{
    let b = encode_series_spec(s);
    let items = encode_items_spec(s);
    if s.len() == 0 {
        assert(items == Seq::<u8>::empty());
        assert(b =~= seq![91u8, 93u8]);
        assert(b.len() == 2 && b[0] == 91u8 && b[1] == 93u8);
        assert(parse_series_spec(b) == Some(Seq::<RecordV>::empty()));
        assert(Seq::<RecordV>::empty() =~= s);
    } else {
        assert(items.len() > 0) by {
            if s.len() == 1 {
                assert(items == encode_record_spec(s[0]));
            } else {
                assert(items == encode_record_spec(s[0]) + seq![44u8] + encode_items_spec(
                    s.skip(1),
                ));
            }
        }
        assert(b.len() == items.len() + 2);
        assert(b[0] == 91u8);
        assert forall|k: int| 0 <= k < items.len() + 1 implies #[trigger] b.subrange(
            1,
            b.len() as int,
        )[k] == (items + seq![93u8])[k] by {
            assert(b.subrange(1, b.len() as int)[k] == b[1 + k]);
        }
        assert(b.subrange(1, b.len() as int) =~= items + seq![93u8]);
        lemma_parse_items_of_encoding(b, 1, s);
        assert(b.len() != 2);
        assert(parse_series_spec(b) == parse_items_spec(b, 1));
    }
}

/// Encodes a series as the canonical cache-file bytes.
pub fn encode_series(series: &Vec<Record>) -> (out: Vec<u8>)
    ensures
        out@ == encode_series_spec(series.deep_view()),
{
    let ghost dv = series.deep_view();
    let mut out: Vec<u8> = Vec::new();
    out.push(91);
    let mut i: usize = 0;
    while i < series.len()
        invariant
            i <= series@.len(),
            dv == series.deep_view(),
            out@ == seq![91u8] + encode_items_spec(dv.take(i as int)),
        decreases series@.len() - i,
    {
        if i > 0 {
            out.push(44);
        }
        push_record(&mut out, &series[i]);
        proof {
            let taken = dv.take(i as int + 1);
            assert(taken.len() == i + 1);
            assert(series@[i as int].deep_view() == dv[i as int]);
            if i == 0 {
                assert(taken =~= seq![dv[0]]);
                assert(encode_items_spec(taken) == encode_record_spec(dv[0]));
                assert(out@ =~= seq![91u8] + encode_items_spec(taken));
            } else {
                lemma_encode_items_snoc(taken);
                assert(taken.take(taken.len() - 1) =~= dv.take(i as int));
                assert(taken.last() == dv[i as int]);
                assert(out@ =~= seq![91u8] + encode_items_spec(taken));
            }
        }
        i = i + 1;
    }
    out.push(93);
    proof {
        assert(dv.take(dv.len() as int) =~= dv);
        assert(out@ =~= seq![91u8] + encode_items_spec(dv) + seq![93u8]);
    }
    out
}

} // verus!
