//! UTC timestamps.

use crate::text::{decimal, u128_text};
use vstd::prelude::*;

verus! {

/// A leap year of the Gregorian calendar.
pub open spec fn leap(y: int) -> bool {
    (y % 4 == 0 && y % 100 != 0) || y % 400 == 0
}

pub open spec fn year_len(y: int) -> int {
    if leap(y) {
        366
    } else {
        365
    }
}

/// The days from the start of 1970 to the start of year `y`.
pub open spec fn days_before_year(y: int) -> int
    decreases y - 1970,
{
    if y <= 1970 {
        0
    } else {
        days_before_year(y - 1) + year_len(y - 1)
    }
}

pub open spec fn month_len(y: int, m: int) -> int {
    if m == 2 {
        if leap(y) {
            29
        } else {
            28
        }
    } else if m == 4 || m == 6 || m == 9 || m == 11 {
        30
    } else {
        31
    }
}

/// The days from the start of the year to the start of month `m`.
pub open spec fn days_before_month(y: int, m: int) -> int
    decreases m,
{
    if m <= 1 {
        0
    } else {
        days_before_month(y, m - 1) + month_len(y, m - 1)
    }
}

/// Day `d` of month `m` of year `y` comes `days` days after the first day of
/// 1970.
pub open spec fn is_date(days: int, y: int, m: int, d: int) -> bool {
    &&& y >= 1970
    &&& 1 <= m <= 12
    &&& 1 <= d <= month_len(y, m)
    &&& days == days_before_year(y) + days_before_month(y, m) + d - 1
}

/// A number with leading zeros, if it has fewer than `width` digits.
pub open spec fn padded(n: nat, width: nat) -> Seq<char> {
    let digits = decimal(n);
    if digits.len() >= width {
        digits
    } else {
        Seq::new((width - digits.len()) as nat, |i: int| '0') + digits
    }
}

/// The timestamp of a date and the seconds since the start of its day.
pub open spec fn stamp(y: int, m: int, d: int, secs: int) -> Seq<char> {
    padded(y as nat, 4) + "-"@ + padded(m as nat, 2) + "-"@ + padded(d as nat, 2) + "T"@ + padded(
        (secs / 3600) as nat,
        2,
    ) + ":"@ + padded((secs / 60 % 60) as nat, 2) + ":"@ + padded((secs % 60) as nat, 2) + "Z"@
}

/// A text is the timestamp for a number of seconds since the start of 1970.
pub open spec fn is_timestamp(t: Seq<char>, secs: int) -> bool {
    let days = secs / 86400;
    exists|y: int, m: int, d: int|
        #[trigger] is_date(days, y, m, d) && t == stamp(y, m, d, secs % 86400)
}

proof fn lemma_year_after(y: int, z: int)
    requires
        1970 <= y < z,
    ensures
        days_before_year(y) + year_len(y) <= days_before_year(z),
    decreases z - y,
{
    if z > y + 1 {
        lemma_year_after(y, z - 1);
    }
}

proof fn lemma_year_is_months(y: int)
    ensures
        days_before_month(y, 12) + month_len(y, 12) == year_len(y),
{
    reveal_with_fuel(days_before_month, 13);
}

proof fn lemma_month_after(y: int, m: int, n: int)
    requires
        1 <= m < n <= 12,
    ensures
        days_before_month(y, m) + month_len(y, m) <= days_before_month(y, n),
    decreases n - m,
{
    if n > m + 1 {
        lemma_month_after(y, m, n - 1);
    }
}

proof fn lemma_day_of_year(y: int, m: int, d: int)
    requires
        1 <= m <= 12,
        1 <= d <= month_len(y, m),
    ensures
        0 <= days_before_month(y, m) + d - 1 < year_len(y),
    decreases m,
{
    lemma_year_is_months(y);
    if m < 12 {
        lemma_month_after(y, m, 12);
    }
    lemma_month_nonneg(y, m);
}

proof fn lemma_month_nonneg(y: int, m: int)
    ensures
        days_before_month(y, m) >= 0,
    decreases m,
{
    if m > 1 {
        lemma_month_nonneg(y, m - 1);
    }
}

/// A day has one date.
pub proof fn law_date_unique(days: int, y: int, m: int, d: int, y2: int, m2: int, d2: int)
    requires
        is_date(days, y, m, d),
        is_date(days, y2, m2, d2),
    ensures
        y == y2 && m == m2 && d == d2,
{
    lemma_day_of_year(y, m, d);
    lemma_day_of_year(y2, m2, d2);
    if y < y2 {
        lemma_year_after(y, y2);
    }
    if y2 < y {
        lemma_year_after(y2, y);
    }
    if m < m2 {
        lemma_month_after(y, m, m2);
    }
    if m2 < m {
        lemma_month_after(y, m2, m);
    }
}

pub fn is_leap(y: u64) -> (r: bool)
    ensures
        r == leap(y as int),
{
    (y % 4 == 0 && y % 100 != 0) || y % 400 == 0
}

fn days_in_month(y: u64, m: u64) -> (r: u64)
    ensures
        r == month_len(y as int, m as int),
{
    if m == 2 {
        if is_leap(y) {
            29
        } else {
            28
        }
    } else if m == 4 || m == 6 || m == 9 || m == 11 {
        30
    } else {
        31
    }
}

/// The date of a day, counted from the first day of 1970.
pub fn date_of(days: u64) -> (r: (u64, u64, u64))
    requires
        days <= u64::MAX - 1970,
    ensures
        is_date(days as int, r.0 as int, r.1 as int, r.2 as int),
{
    let mut rest: u64 = days;
    let mut year: u64 = 1970;
    loop
        invariant
            days <= u64::MAX - 1970,
            1970 <= year,
            year - 1970 + rest <= days,
            days == days_before_year(year as int) + rest,
        ensures
            days == days_before_year(year as int) + rest,
            1970 <= year,
            rest < year_len(year as int),
        decreases rest,
    {
        let length: u64 = if is_leap(year) {
            366
        } else {
            365
        };
        if rest < length {
            break;
        }
        rest = rest - length;
        year = year + 1;
    }
    let mut month: u64 = 1;
    proof {
        lemma_year_is_months(year as int);
    }
    while rest >= days_in_month(year, month)
        invariant
            1 <= month <= 12,
            1970 <= year,
            days == days_before_year(year as int) + days_before_month(year as int, month as int)
                + rest,
            rest + days_before_month(year as int, month as int) < year_len(year as int),
            days_before_month(year as int, 12) + month_len(year as int, 12) == year_len(
                year as int,
            ),
        decreases rest,
    {
        rest = rest - days_in_month(year, month);
        month = month + 1;
    }
    (year, month, rest + 1)
}

/// Appends a number with leading zeros.
fn push_padded(out: &mut String, n: u64, width: usize)
    ensures
        final(out)@ == old(out)@ + padded(n as nat, width as nat),
{
    let text = u128_text(n as u128);
    let digits: usize = crate::text::to_chars(text.as_str()).len();
    let ghost start = out@;
    let mut k: usize = digits;
    proof {
        assert(start + Seq::new(0nat, |i: int| '0') =~= start);
    }
    while k < width
        invariant
            k >= digits,
            k <= width || k == digits,
            out@ == start + Seq::new((k - digits) as nat, |i: int| '0'),
        decreases width - k,
    {
        out.push('0');
        k += 1;
        assert(out@ =~= start + Seq::new((k - digits) as nat, |i: int| '0'));
    }
    out.push_str(text.as_str());
    proof {
        assert(out@ =~= start + padded(n as nat, width as nat));
    }
}

/// The timestamp for a number of seconds since the start of 1970.
pub fn format_timestamp(secs: u64) -> (r: String)
    ensures
        is_timestamp(r@, secs as int),
{
    let (year, month, day) = date_of(secs / 86400);
    let rest: u64 = secs % 86400;
    let mut r = String::new();
    push_padded(&mut r, year, 4);
    r.push_str("-");
    push_padded(&mut r, month, 2);
    r.push_str("-");
    push_padded(&mut r, day, 2);
    r.push_str("T");
    push_padded(&mut r, rest / 3600, 2);
    r.push_str(":");
    push_padded(&mut r, rest / 60 % 60, 2);
    r.push_str(":");
    push_padded(&mut r, rest % 60, 2);
    r.push_str("Z");
    proof {
        assert(r@ =~= stamp(year as int, month as int, day as int, rest as int));
        assert(is_date(secs as int / 86400, year as int, month as int, day as int));
    }
    r
}

/// A point in time.
#[verifier::external_type_specification]
#[verifier::external_body]
pub struct ExSystemTime(std::time::SystemTime);

/// `std::time::SystemTime::now`.  Nothing is known of the time that it gives.
#[verifier::external_body]
fn now() -> std::time::SystemTime {
    std::time::SystemTime::now()
}

/// `std::time::SystemTime::duration_since` the start of 1970, in whole seconds;
/// nothing for a time before it.
#[verifier::external_body]
fn unix_seconds(time: &std::time::SystemTime) -> Option<u64> {
    time.duration_since(std::time::UNIX_EPOCH).ok().map(|d| d.as_secs())
}

/// The timestamp for the current time; for a clock that stands before 1970, the
/// start of that year.
pub fn utc_timestamp() -> (r: String)
    ensures
        exists|secs: u64| #[trigger] is_timestamp(r@, secs as int),
{
    let secs: u64 = match unix_seconds(&now()) {
        Some(n) => n,
        None => 0,
    };
    let r = format_timestamp(secs);
    assert(is_timestamp(r@, secs as int));
    r
}

} // verus!
