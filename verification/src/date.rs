//! Calendar days as integers.
//!
//! A calendar date is handled as a *day number*: the number of days since
//! 0001-01-01 in the proleptic Gregorian calendar (so 0001-01-01 is day 0).
//! Gap analysis and interval planning become plain integer arithmetic on day
//! numbers, while parsing and formatting of `YYYY-MM-DD` text tie the numbers
//! back to the persisted representation. Years 1 through 9999 are supported.

use vstd::prelude::*;

verus! {

pub open spec fn is_leap_year(y: int) -> bool {
    (y % 4 == 0 && y % 100 != 0) || y % 400 == 0
}

pub open spec fn days_in_year(y: int) -> int {
    if is_leap_year(y) {
        366
    } else {
        365
    }
}

pub open spec fn days_in_month(y: int, m: int) -> int {
    if m == 2 {
        if is_leap_year(y) {
            29
        } else {
            28
        }
    } else if m == 4 || m == 6 || m == 9 || m == 11 {
        30
    } else {
        31
    }
}

/// Days contained in all years before `y`, i.e. in years `1..y`.
pub open spec fn days_before_year(y: int) -> int
    decreases y,
{
    if y <= 1 {
        0
    } else {
        days_before_year(y - 1) + days_in_year(y - 1)
    }
}

/// Days of year `y` contained in all months before `m`, i.e. in months `1..m`.
pub open spec fn days_before_month(y: int, m: int) -> int
    decreases m,
{
    if m <= 1 {
        0
    } else {
        days_before_month(y, m - 1) + days_in_month(y, m - 1)
    }
}

pub open spec fn valid_ymd(y: int, m: int, d: int) -> bool {
    1 <= y <= 9999 && 1 <= m <= 12 && 1 <= d <= days_in_month(y, m)
}

/// Day number of a calendar date; 0001-01-01 maps to 0.
pub open spec fn day_index(y: int, m: int, d: int) -> int {
    days_before_year(y) + days_before_month(y, m) + (d - 1)
}

/// One past the largest supported day number (first day of year 10000).
pub open spec fn day_limit() -> int {
    days_before_year(10000)
}

fn is_leap_year_x(y: u32) -> (r: bool)
    ensures
        r == is_leap_year(y as int),
{
    (y % 4 == 0 && y % 100 != 0) || y % 400 == 0
}

fn days_in_year_x(y: u32) -> (r: u32)
    ensures
        r == days_in_year(y as int),
{
    if is_leap_year_x(y) {
        366
    } else {
        365
    }
}

fn days_in_month_x(y: u32, m: u32) -> (r: u32)
    ensures
        r == days_in_month(y as int, m as int),
{
    if m == 2 {
        if is_leap_year_x(y) {
            29
        } else {
            28
        }
    } else if m == 4 || m == 6 || m == 9 || m == 11 {
        30
    } else {
        31
    }
}

/// Day number of a valid calendar date.
pub fn ymd_to_day(y: u32, m: u32, d: u32) -> (r: u32)
    requires
        valid_ymd(y as int, m as int, d as int),
    ensures
        r == day_index(y as int, m as int, d as int),
{
    let mut acc: u32 = 0;
    let mut i: u32 = 1;
    while i < y
        invariant
            1 <= i <= y,
            y <= 9999,
            acc == days_before_year(i as int),
            acc <= 366 * (i - 1),
        decreases y - i,
    {
        acc = acc + days_in_year_x(i);
        i = i + 1;
    }
    let mut j: u32 = 1;
    while j < m
        invariant
            1 <= j <= m,
            m <= 12,
            acc == days_before_year(y as int) + days_before_month(y as int, j as int),
            acc <= 366 * 9998 + 31 * (j - 1),
        decreases m - j,
    {
        acc = acc + days_in_month_x(y, j);
        j = j + 1;
    }
    acc + (d - 1)
}

proof fn lemma_year_has_twelve_months(y: int)
    ensures
        days_before_month(y, 13) == days_in_year(y),
{
    reveal_with_fuel(days_before_month, 13);
}

/// Calendar date of a day number, or `None` beyond the supported years.
pub fn day_to_ymd(n: u32) -> (r: Option<(u32, u32, u32)>)
    ensures
        match r {
            Some((y, m, d)) => valid_ymd(y as int, m as int, d as int) && day_index(
                y as int,
                m as int,
                d as int,
            ) == n as int,
            None => n as int >= day_limit(),
        },
{
    let mut y: u32 = 1;
    let mut acc: u32 = 0;
    let mut found = false;
    while y < 10000 && !found
        invariant
            1 <= y <= 10000,
            acc == days_before_year(y as int),
            acc <= 366 * (y - 1),
            acc <= n,
            found ==> (y < 10000 && n as int - acc < days_in_year(y as int)),
        decreases 10000 - y + (if found { 0int } else { 1int }),
    {
        let len = days_in_year_x(y);
        if n - acc < len {
            found = true;
        } else {
            acc = acc + len;
            y = y + 1;
        }
    }
    if !found {
        return None;
    }
    let rem: u32 = n - acc;
    let mut m: u32 = 1;
    let mut racc: u32 = rem;
    proof {
        lemma_year_has_twelve_months(y as int);
    }
    while racc >= days_in_month_x(y, m)
        invariant
            1 <= m <= 12,
            rem < days_in_year(y as int),
            racc == rem - days_before_month(y as int, m as int),
            days_before_month(y as int, 13) == days_in_year(y as int),
        decreases 12 - m,
    {
        proof {
            if m == 12 {
                assert(days_before_month(y as int, 13) == days_before_month(y as int, 12)
                    + days_in_month(y as int, 12));
            }
        }
        racc = racc - days_in_month_x(y, m);
        m = m + 1;
    }
    Some((y, m, racc + 1))
}

pub open spec fn is_digit(b: u8) -> bool {
    48 <= b && b <= 57
}

pub open spec fn digit_val(b: u8) -> int {
    b as int - 48
}

/// Ten bytes shaped like `YYYY-MM-DD`: digits and dashes in the right places.
pub open spec fn date10_wf(s: Seq<u8>) -> bool {
    s.len() == 10 && is_digit(s[0]) && is_digit(s[1]) && is_digit(s[2]) && is_digit(s[3]) && s[4]
        == 45u8 && is_digit(s[5]) && is_digit(s[6]) && s[7] == 45u8 && is_digit(s[8]) && is_digit(
        s[9],
    )
}

pub open spec fn date10_year(s: Seq<u8>) -> int {
    digit_val(s[0]) * 1000 + digit_val(s[1]) * 100 + digit_val(s[2]) * 10 + digit_val(s[3])
}

pub open spec fn date10_month(s: Seq<u8>) -> int {
    digit_val(s[5]) * 10 + digit_val(s[6])
}

pub open spec fn date10_day(s: Seq<u8>) -> int {
    digit_val(s[8]) * 10 + digit_val(s[9])
}

/// The day number a `YYYY-MM-DD` byte string denotes, or `None` when the
/// bytes are not shaped like a date or name no valid calendar date.
pub open spec fn date10_spec(s: Seq<u8>) -> Option<int> {
    if date10_wf(s) && valid_ymd(date10_year(s), date10_month(s), date10_day(s)) {
        Some(day_index(date10_year(s), date10_month(s), date10_day(s)))
    } else {
        None
    }
}

fn is_digit_x(b: u8) -> (r: bool)
    ensures
        r == is_digit(b),
{
    48 <= b && b <= 57
}

/// Reads the ten bytes at `pos` as a `YYYY-MM-DD` date and returns its day
/// number, or `None` when they are malformed or name no valid date.
pub fn parse_date_at(b: &Vec<u8>, pos: usize) -> (r: Option<u32>)
    requires
        pos + 10 <= b.len(),
    ensures
        ({
            let s = b@.subrange(pos as int, pos as int + 10);
            match r {
                Some(day) => date10_spec(s) == Some(day as int),
                None => date10_spec(s) is None,
            }
        }),
{
    let b0 = b[pos];
    let b1 = b[pos + 1];
    let b2 = b[pos + 2];
    let b3 = b[pos + 3];
    let b4 = b[pos + 4];
    let b5 = b[pos + 5];
    let b6 = b[pos + 6];
    let b7 = b[pos + 7];
    let b8 = b[pos + 8];
    let b9 = b[pos + 9];
    if !(is_digit_x(b0) && is_digit_x(b1) && is_digit_x(b2) && is_digit_x(b3) && b4 == 45
        && is_digit_x(b5) && is_digit_x(b6) && b7 == 45 && is_digit_x(b8) && is_digit_x(b9)) {
        return None;
    }
    let y: u32 = (b0 - 48) as u32 * 1000 + (b1 - 48) as u32 * 100 + (b2 - 48) as u32 * 10 + (b3
        - 48) as u32;
    let m: u32 = (b5 - 48) as u32 * 10 + (b6 - 48) as u32;
    let d: u32 = (b8 - 48) as u32 * 10 + (b9 - 48) as u32;
    if y < 1 || m < 1 || m > 12 || d < 1 {
        return None;
    }
    if d > days_in_month_x(y, m) {
        return None;
    }
    Some(ymd_to_day(y, m, d))
}

/// Writes a day number as the ten bytes `YYYY-MM-DD`, or `None` beyond the
/// supported years. Parsing the result gives the day number back.
pub fn format_date(n: u32) -> (r: Option<Vec<u8>>)
    ensures
        match r {
            Some(v) => date10_spec(v@) == Some(n as int),
            None => n as int >= day_limit(),
        },
{
    let (y, m, d) = match day_to_ymd(n) {
        Some(t) => t,
        None => {
            return None;
        },
    };
    let dy0: u32 = y / 1000;
    let yr1: u32 = y % 1000;
    let dy1: u32 = yr1 / 100;
    let yr2: u32 = yr1 % 100;
    let dy2: u32 = yr2 / 10;
    let dy3: u32 = yr2 % 10;
    let dm0: u32 = m / 10;
    let dm1: u32 = m % 10;
    let dd0: u32 = d / 10;
    let dd1: u32 = d % 10;
    let mut v: Vec<u8> = Vec::new();
    v.push(dy0 as u8 + 48);
    v.push(dy1 as u8 + 48);
    v.push(dy2 as u8 + 48);
    v.push(dy3 as u8 + 48);
    v.push(45);
    v.push(dm0 as u8 + 48);
    v.push(dm1 as u8 + 48);
    v.push(45);
    v.push(dd0 as u8 + 48);
    v.push(dd1 as u8 + 48);
    proof {
        assert(y == dy0 * 1000 + yr1);
        assert(yr1 == dy1 * 100 + yr2);
        assert(yr2 == dy2 * 10 + dy3);
        assert(date10_wf(v@));
        assert(date10_year(v@) == y as int);
        assert(date10_month(v@) == m as int);
        assert(date10_day(v@) == d as int);
    }
    Some(v)
}

} // verus!
