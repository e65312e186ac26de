//! Calendar arithmetic and the parts of an ISO 8601 timestamp that scoring reads.
use vstd::prelude::*;

use crate::bytes::{digit, is_digit, DIGIT_0, SPACE, UPPER_T};
use crate::json::{after_digits, lemma_after_digits};

verus! {

/// The number that a run of decimal digits denotes.
pub open spec fn digits_value(s: Seq<u8>) -> int
    decreases s.len(),
{
    if s.len() == 0 {
        0
    } else {
        10 * digits_value(s.drop_last()) + (s.last() - DIGIT_0)
    }
}

pub open spec fn all_digits(s: Seq<u8>) -> bool {
    forall|k: int| 0 <= k < s.len() ==> is_digit(#[trigger] s[k])
}

/// The number that `s` denotes, if it holds digits and nothing else. No byte at all denotes 0.
pub open spec fn number_in(s: Seq<u8>) -> Option<int> {
    if all_digits(s) {
        Some(digits_value(s))
    } else {
        None
    }
}

/// The number in the bytes `from..to`, if `s` goes that far.
pub open spec fn field(s: Seq<u8>, from: int, to: int) -> Option<int> {
    if to <= s.len() {
        number_in(s.subrange(from, to))
    } else {
        None
    }
}

pub open spec fn is_time_mark(b: u8) -> bool {
    b == UPPER_T || b == SPACE
}

/// The first position from `pos` on that holds a `T` or a space.
pub open spec fn time_mark(s: Seq<u8>, pos: int) -> Option<int>
    decreases s.len() - pos,
{
    if !(0 <= pos < s.len()) {
        None
    } else if is_time_mark(s[pos]) {
        Some(pos)
    } else {
        time_mark(s, pos + 1)
    }
}

/// Division that drops the fraction, as machine integers divide.
pub open spec fn truncated_div(a: int, b: int) -> int {
    if a >= 0 {
        a / b
    } else {
        -((-a) / b)
    }
}

/// Days from 1970-01-01 to the given date of the proleptic Gregorian calendar.
///
/// Years are counted from March on, in eras of 400 years, so that the leap day is the
/// last of its year. Months and days out of range carry the same formula on.
#[verifier::opaque]
pub open spec fn civil_days(y: int, m: int, d: int) -> int {
    let year = if m <= 2 {
        y - 1
    } else {
        y
    };
    let era = year / 400;
    let year_of_era = year % 400;
    let month = if m > 2 {
        m - 3
    } else {
        m + 9
    };
    let day_of_year = truncated_div(153 * month + 2, 5) + d - 1;
    let day_of_era = year_of_era * 365 + year_of_era / 4 - year_of_era / 100 + day_of_year;
    era * 146_097 + day_of_era - 719_468
}

/// The day of the week, Monday being 0.
pub open spec fn weekday(y: int, m: int, d: int) -> int {
    (civil_days(y, m, d) + 3) % 7
}

/// The hour and the day of the week of a timestamp. The date must stand in its first ten
/// bytes; an hour that cannot be read is noon, and one past the day's last is the last.
pub open spec fn hour_and_weekday(s: Seq<u8>) -> Option<(int, int)> {
    match (field(s, 0, 4), field(s, 5, 7), field(s, 8, 10)) {
        (Some(year), Some(month), Some(day)) => {
            let stated = match time_mark(s, 0) {
                Some(p) => field(s, p + 1, p + 3),
                None => None,
            };
            let hour = match stated {
                Some(h) => if h > 23 {
                    23
                } else {
                    h
                },
                None => 12,
            };
            Some((hour, weekday(year, month, day)))
        },
        _ => None,
    }
}

/// Seconds since 1970-01-01T00:00:00 of a timestamp that has a date in its first ten bytes
/// and a time of day behind the first `T` or space.
pub open spec fn unix_seconds(s: Seq<u8>) -> Option<int> {
    if s.len() < 19 {
        None
    } else {
        match (field(s, 0, 4), field(s, 5, 7), field(s, 8, 10), time_mark(s, 0)) {
            (Some(year), Some(month), Some(day), Some(p)) => {
                match (field(s, p + 1, p + 3), field(s, p + 4, p + 6), field(s, p + 7, p + 9)) {
                    (Some(hour), Some(minute), Some(second)) => Some(
                        civil_days(year, month, day) * 86_400 + hour * 3_600 + minute * 60
                            + second,
                    ),
                    _ => None,
                }
            },
            _ => None,
        }
    }
}

pub proof fn lemma_digits_value_nonneg(s: Seq<u8>)
    requires
        all_digits(s),
    ensures
        digits_value(s) >= 0,
    decreases s.len(),
{
    if s.len() > 0 {
        assert forall|k: int| 0 <= k < s.drop_last().len() implies is_digit(
            #[trigger] s.drop_last()[k],
        ) by {
            assert(s[k] == s.drop_last()[k]);
        }
        lemma_digits_value_nonneg(s.drop_last());
        assert(is_digit(s[s.len() - 1]));
    }
}

/// A longer run of digits denotes no smaller number.
proof fn lemma_digits_value_grows(s: Seq<u8>, n: int)
    requires
        all_digits(s),
        0 <= n <= s.len(),
    ensures
        0 <= digits_value(s.take(n)) <= digits_value(s),
    decreases s.len(),
{
    assert forall|k: int| 0 <= k < n implies is_digit(#[trigger] s.take(n)[k]) by {
        assert(s[k] == s.take(n)[k]);
    }
    lemma_digits_value_nonneg(s.take(n));
    if n == s.len() {
        assert(s.take(n) =~= s);
    } else {
        let short = s.drop_last();
        assert forall|k: int| 0 <= k < short.len() implies is_digit(#[trigger] short[k]) by {
            assert(s[k] == short[k]);
        }
        lemma_digits_value_grows(short, n);
        assert(short.take(n) =~= s.take(n));
        lemma_digits_value_nonneg(short);
        assert(is_digit(s[s.len() - 1]));
    }
}

/// The hour is on the clock and the day is in the week.
pub proof fn lemma_hour_and_weekday(s: Seq<u8>)
    ensures
        hour_and_weekday(s) matches Some((hour, day)) ==> 0 <= hour <= 23 && 0 <= day < 7,
{
    if let Some(p) = time_mark(s, 0) {
        if p + 3 <= s.len() && all_digits(s.subrange(p + 1, p + 3)) {
            lemma_digits_value_nonneg(s.subrange(p + 1, p + 3));
        }
    }
}

/// The number that `s` denotes, if it holds digits and nothing else.
pub fn parse_i32(s: &[u8]) -> (r: Option<i32>)
    requires
        digits_value(s@.take(after_digits(s@, 0))) <= i32::MAX,
    ensures
        r is Some <==> number_in(s@) is Some,
        r matches Some(v) ==> number_in(s@) == Some(v as int),
{
    let mut v: i32 = 0;
    let mut i: usize = 0;
    let ghost run = s@.take(after_digits(s@, 0));
    proof {
        lemma_after_digits(s@, 0);
        assert forall|k: int| 0 <= k < run.len() implies is_digit(#[trigger] run[k]) by {
            assert(run[k] == s@[k]);
        }
        assert(s@.take(0) =~= Seq::<u8>::empty());
    }
    while i < s.len()
        invariant
            i <= s@.len(),
            forall|k: int| 0 <= k < i ==> is_digit(#[trigger] s@[k]),
            v == digits_value(s@.take(i as int)),
            v >= 0,
            run == s@.take(after_digits(s@, 0)),
            all_digits(run),
            digits_value(run) <= i32::MAX,
            i <= after_digits(s@, 0) <= s@.len(),
            byte_stops(s@, after_digits(s@, 0)),
        decreases s@.len() - i,
    {
        let b: u8 = s[i];
        if !digit(b) {
            assert(!is_digit(s@[i as int]));
            return None;
        }
        proof {
            lemma_digits_value_grows(run, i + 1);
            assert(run.take(i + 1) =~= s@.take(i + 1));
            assert(s@.take(i + 1).drop_last() =~= s@.take(i as int));
        }
        v = v * 10 + (b - DIGIT_0) as i32;
        i += 1;
    }
    assert(s@.take(i as int) =~= s@);
    Some(v)
}

/// The text ends at `pos` or goes on there with something that is no digit.
spec fn byte_stops(s: Seq<u8>, pos: int) -> bool {
    pos < s.len() ==> !is_digit(s[pos])
}

/// The number in the bytes `from..to`, at most four of them.
fn parse_field(s: &[u8], from: usize, to: usize) -> (r: Option<i32>)
    requires
        from <= to <= from + 4,
    ensures
        r is Some <==> field(s@, from as int, to as int) is Some,
        r matches Some(v) ==> field(s@, from as int, to as int) == Some(v as int),
        r matches Some(v) ==> 0 <= v <= 9_999,
        r matches Some(v) ==> (to <= from + 2 ==> v <= 99),
{
    if to > s.len() {
        return None;
    }
    let part = &s[from..to];
    proof {
        lemma_after_digits(part@, 0);
        let run = part@.take(after_digits(part@, 0));
        assert forall|k: int| 0 <= k < run.len() implies is_digit(#[trigger] run[k]) by {
            assert(run[k] == part@[k]);
        }
        lemma_short_value(run);
        if all_digits(part@) {
            lemma_short_value(part@);
        }
    }
    parse_i32(part)
}

/// Two digits denote at most 99, four at most 9999.
proof fn lemma_short_value(s: Seq<u8>)
    requires
        all_digits(s),
        s.len() <= 4,
    ensures
        0 <= digits_value(s) <= 9_999,
        s.len() <= 2 ==> digits_value(s) <= 99,
{
    reveal_with_fuel(digits_value, 5);
    let a = s.drop_last();
    let b = a.drop_last();
    let c = b.drop_last();
    if s.len() > 0 {
        assert(is_digit(s[s.len() - 1]));
    }
    if s.len() > 1 {
        assert(is_digit(s[s.len() - 2]));
    }
    if s.len() > 2 {
        assert(is_digit(s[s.len() - 3]));
    }
    if s.len() > 3 {
        assert(is_digit(s[s.len() - 4]));
    }
}

/// The first position that holds a `T` or a space.
fn find_time_mark(s: &[u8]) -> (r: Option<usize>)
    ensures
        r is Some <==> time_mark(s@, 0) is Some,
        r matches Some(p) ==> time_mark(s@, 0) == Some(p as int) && p < s@.len(),
{
    let mut i: usize = 0;
    while i < s.len()
        invariant
            i <= s@.len(),
            time_mark(s@, 0) == time_mark(s@, i as int),
        decreases s@.len() - i,
    {
        if s[i] == UPPER_T || s[i] == SPACE {
            return Some(i);
        }
        i += 1;
    }
    None
}

/// Days from 1970-01-01 to the given date.
pub fn days_from_civil(y: i32, m: i32, d: i32) -> (r: i64)
    ensures
        r == civil_days(y as int, m as int, d as int),
        -1_000_000_000_000 < r < 1_000_000_000_000,
{
    reveal(civil_days);
    let year: i64 = if m <= 2 {
        y as i64 - 1
    } else {
        y as i64
    };
    let era: i64 = if year >= 0 {
        year / 400
    } else {
        -((399 - year) / 400)
    };
    let year_of_era: i64 = year - era * 400;
    assert(era == year as int / 400 && year_of_era == year as int % 400);
    let month: i64 = if m > 2 {
        m as i64 - 3
    } else {
        m as i64 + 9
    };
    let scaled: i64 = 153 * month + 2;
    let before: i64 = if scaled >= 0 {
        scaled / 5
    } else {
        -((-scaled) / 5)
    };
    let day_of_year: i64 = before + d as i64 - 1;
    let day_of_era: i64 = year_of_era * 365 + year_of_era / 4 - year_of_era / 100 + day_of_year;
    era * 146_097 + day_of_era - 719_468
}

/// The day of the week, Monday being 0.
pub fn day_of_week(y: i32, m: i32, d: i32) -> (r: u8)
    ensures
        r == weekday(y as int, m as int, d as int),
        r < 7,
{
    let days: i64 = days_from_civil(y, m, d);
    least_residue(days + 3)
}

/// The remainder of a division by seven, never negative.
fn least_residue(x: i64) -> (r: u8)
    requires
        x > i64::MIN,
    ensures
        r == x as int % 7,
        r < 7,
{
    if x >= 0 {
        (x % 7) as u8
    } else {
        let behind: i64 = (-x) % 7;
        if behind == 0 {
            0
        } else {
            (7 - behind) as u8
        }
    }
}

/// The hour and the day of the week of a timestamp.
pub fn parse_iso_hour_and_day(s: &[u8]) -> (r: Option<(u8, u8)>)
    ensures
        r is Some <==> hour_and_weekday(s@) is Some,
        r matches Some((hour, day)) ==> hour_and_weekday(s@) == Some((hour as int, day as int))
            && hour <= 23 && day < 7,
{
    if s.len() < 10 {
        return None;
    }
    let year: i32 = match parse_field(s, 0, 4) {
        Some(v) => v,
        None => return None,
    };
    let month: i32 = match parse_field(s, 5, 7) {
        Some(v) => v,
        None => return None,
    };
    let day: i32 = match parse_field(s, 8, 10) {
        Some(v) => v,
        None => return None,
    };
    let len: usize = s.len();
    let stated: Option<i32> = match find_time_mark(s) {
        Some(p) => if len - p >= 3 {
            parse_field(s, p + 1, p + 3)
        } else {
            None
        },
        None => None,
    };
    let hour: u8 = match stated {
        Some(h) => if h > 23 {
            23
        } else {
            h as u8
        },
        None => 12,
    };
    Some((hour, day_of_week(year, month, day)))
}

/// Seconds since 1970-01-01T00:00:00 of a timestamp.
pub fn parse_iso_seconds(s: &[u8]) -> (r: Option<i64>)
    ensures
        r is Some <==> unix_seconds(s@) is Some,
        r matches Some(v) ==> unix_seconds(s@) == Some(v as int),
{
    if s.len() < 19 {
        return None;
    }
    let len: usize = s.len();
    let year: i32 = match parse_field(s, 0, 4) {
        Some(v) => v,
        None => return None,
    };
    let month: i32 = match parse_field(s, 5, 7) {
        Some(v) => v,
        None => return None,
    };
    let day: i32 = match parse_field(s, 8, 10) {
        Some(v) => v,
        None => return None,
    };
    let p: usize = match find_time_mark(s) {
        Some(p) => p,
        None => return None,
    };
    if len - p < 9 {
        return None;
    }
    let hour: i32 = match parse_field(s, p + 1, p + 3) {
        Some(v) => v,
        None => return None,
    };
    let minute: i32 = match parse_field(s, p + 4, p + 6) {
        Some(v) => v,
        None => return None,
    };
    let second: i32 = match parse_field(s, p + 7, p + 9) {
        Some(v) => v,
        None => return None,
    };
    let days: i64 = days_from_civil(year, month, day);
    Some(days * 86_400 + (hour * 3_600 + minute * 60 + second) as i64)
}

pub open spec fn is_leap(y: int) -> bool {
    y % 4 == 0 && (y % 100 != 0 || y % 400 == 0)
}

/// How many days the month has.
pub open spec fn month_length(y: int, m: int) -> int {
    if m == 2 {
        if is_leap(y) {
            29
        } else {
            28
        }
    } else if m == 4 || m == 6 || m == 9 || m == 11 {
        30
    } else {
        31
    }
}

pub open spec fn is_date(y: int, m: int, d: int) -> bool {
    1 <= m <= 12 && 1 <= d <= month_length(y, m)
}

/// The date of the day after.
pub open spec fn next_date(y: int, m: int, d: int) -> (int, int, int) {
    if d < month_length(y, m) {
        (y, m, d + 1)
    } else if m < 12 {
        (y, m + 1, 1)
    } else {
        (y + 1, 1, 1)
    }
}

/// The count of days starts at 0 on 1970-01-01, a Thursday.
pub proof fn law_epoch()
    ensures
        civil_days(1970, 1, 1) == 0,
        weekday(1970, 1, 1) == 3,
{
    reveal(civil_days);
}

/// From a date to the next the count of days grows by one.
pub proof fn law_next_date(y: int, m: int, d: int)
    requires
        is_date(y, m, d),
    ensures
        ({
            let (y2, m2, d2) = next_date(y, m, d);
            is_date(y2, m2, d2) && civil_days(y2, m2, d2) == civil_days(y, m, d) + 1
        }),
{
    let (y2, m2, d2) = next_date(y, m, d);
    lemma_civil_days(y, m, d);
    lemma_civil_days(y2, m2, d2);
    if d >= month_length(y, m) && m == 2 {
        lemma_year_length(y);
    }
}

/// The days of `y` years by the leap rule.
#[verifier::opaque]
spec fn days_of_years(y: int) -> int {
    365 * y + y / 4 - y / 100 + y / 400
}

/// The days of the months before `m` in a year that starts in March.
spec fn days_of_months(m: int) -> int {
    (153 * (if m > 2 {
        m - 3
    } else {
        m + 9
    }) + 2) / 5
}

/// The count of days, by whole years that end in February.
proof fn lemma_civil_days(y: int, m: int, d: int)
    requires
        1 <= m <= 12,
    ensures
        civil_days(y, m, d) == days_of_years(
            if m <= 2 {
                y - 1
            } else {
                y
            },
        ) + days_of_months(m) + d - 1 - 719_468,
{
    reveal(civil_days);
    let year = if m <= 2 {
        y - 1
    } else {
        y
    };
    lemma_years(year);
}

/// The days of whole years, counted in eras, are the days counted by the leap rule.
proof fn lemma_years(y: int)
    ensures
        (y / 400) * 146_097 + (y % 400) * 365 + (y % 400) / 4 - (y % 400) / 100 == days_of_years(y),
{
    reveal(days_of_years);
    let e = y / 400;
    let k = y % 400;
    assert(y == 400 * e + k && 0 <= k < 400);
    assert((400 * e + k) / 4 == 100 * e + k / 4);
    assert((400 * e + k) / 100 == 4 * e + k / 100);
}

/// A year has 365 days, and one more if it is a leap year.
proof fn lemma_year_length(y: int)
    ensures
        days_of_years(y) - days_of_years(y - 1) == if is_leap(y) {
            366int
        } else {
            365
        },
{
    reveal(days_of_years);
    lemma_quotient_step(y, 4);
    lemma_quotient_step(y, 100);
    lemma_quotient_step(y, 400);
    assert(y % 400 == 0 ==> y % 100 == 0);
    assert(y % 100 == 0 ==> y % 4 == 0);
}

proof fn lemma_quotient_step(y: int, n: int)
    by (nonlinear_arith)
    requires
        n > 1,
    ensures
        y / n - (y - 1) / n == if y % n == 0 {
            1int
        } else {
            0
        },
{
    let q = y / n;
    let r = y % n;
    assert(y == n * q + r);
    if r == 0 {
        assert(y - 1 == n * (q - 1) + (n - 1));
        assert((y - 1) / n == q - 1);
    } else {
        assert(y - 1 == n * q + (r - 1));
        assert((y - 1) / n == q);
    }
}

/// From a date to the next the day of the week moves on by one, Sunday to Monday.
pub proof fn law_next_weekday(y: int, m: int, d: int)
    requires
        is_date(y, m, d),
    ensures
        ({
            let (y2, m2, d2) = next_date(y, m, d);
            weekday(y2, m2, d2) == (weekday(y, m, d) + 1) % 7
        }),
{
    let (y2, m2, d2) = next_date(y, m, d);
    law_next_date(y, m, d);
    lemma_residue_moves_on(civil_days(y, m, d), civil_days(y2, m2, d2));
}

proof fn lemma_residue_moves_on(a: int, b: int)
    requires
        b == a + 1,
    ensures
        (b + 3) % 7 == ((a + 3) % 7 + 1) % 7,
{
}

} // verus!
