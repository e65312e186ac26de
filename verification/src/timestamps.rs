//! Timestamps as they are written, and the moments that they stand for.
use vstd::prelude::*;

use crate::bytes::is_digit;
use crate::iso::{
    all_digits, civil_days, day_of_week, days_from_civil, digits_value, field, hour_and_weekday,
    is_date, law_epoch, law_next_date, law_next_weekday, next_date, parse_i32,
    parse_iso_hour_and_day, parse_iso_seconds, time_mark, unix_seconds,
};

verus! {

/// Two digits.
pub open spec fn two_digits(n: int) -> Seq<u8> {
    seq![(0x30 + n / 10) as u8, (0x30 + n % 10) as u8]
}

/// Four digits.
pub open spec fn four_digits(n: int) -> Seq<u8> {
    two_digits(n / 100) + two_digits(n % 100)
}

/// The bytes that part the numbers of a timestamp: within the date, between the date and the time
/// of day, and within the time of day, as in `2026-03-11T18:45:53`.
pub struct Marks {
    pub date: (u8, u8),
    pub between: u8,
    pub time: (u8, u8),
}

impl Marks {
    /// The first `T` or space is the one between the date and the time of day.
    pub open spec fn wf(self) -> bool {
        &&& self.date.0 != 0x54 && self.date.0 != 0x20
        &&& self.date.1 != 0x54 && self.date.1 != 0x20
        &&& self.between == 0x54 || self.between == 0x20
    }
}

/// A date.
pub open spec fn date_text(date: (int, int, int), marks: Marks) -> Seq<u8> {
    four_digits(date.0) + seq![marks.date.0] + two_digits(date.1) + seq![marks.date.1]
        + two_digits(date.2)
}

/// A time of day.
pub open spec fn time_text(time: (int, int, int), marks: Marks) -> Seq<u8> {
    two_digits(time.0) + seq![marks.time.0] + two_digits(time.1) + seq![marks.time.1]
        + two_digits(time.2)
}

/// A date, a mark, a time of day, and anything at all behind it.
pub open spec fn stamp_text(
    date: (int, int, int),
    marks: Marks,
    time: (int, int, int),
    behind: Seq<u8>,
) -> Seq<u8> {
    date_text(date, marks) + seq![marks.between] + time_text(time, marks) + behind
}

/// A date and a time that can be written so.
pub open spec fn is_writable(date: (int, int, int), time: (int, int, int)) -> bool {
    &&& 0 <= date.0 <= 9999
    &&& 0 <= date.1 <= 99
    &&& 0 <= date.2 <= 99
    &&& 0 <= time.0 <= 99
    &&& 0 <= time.1 <= 99
    &&& 0 <= time.2 <= 99
}

proof fn lemma_two_digits(n: int)
    requires
        0 <= n <= 99,
    ensures
        all_digits(two_digits(n)),
        digits_value(two_digits(n)) == n,
{
    reveal_with_fuel(digits_value, 3);
    let s = two_digits(n);
    assert(s.drop_last().drop_last() =~= Seq::<u8>::empty());
    assert(s.drop_last().last() == s[0]);
}

proof fn lemma_four_digits(n: int)
    requires
        0 <= n <= 9999,
    ensures
        all_digits(four_digits(n)),
        digits_value(four_digits(n)) == n,
{
    reveal_with_fuel(digits_value, 5);
    let s = four_digits(n);
    let (a, b) = (n / 100, n % 100);
    assert(0 <= a <= 99 && 0 <= b <= 99);
    assert(s =~= seq![
        (0x30 + a / 10) as u8,
        (0x30 + a % 10) as u8,
        (0x30 + b / 10) as u8,
        (0x30 + b % 10) as u8,
    ]);
    let (s3, s2, s1) = (s.take(3), s.take(2), s.take(1));
    assert(s.drop_last() =~= s3 && s3.drop_last() =~= s2 && s2.drop_last() =~= s1);
    assert(s1.drop_last() =~= Seq::<u8>::empty());
    assert(digits_value(s1) == a / 10);
    assert(digits_value(s2) == a);
    assert(digits_value(s3) == 10 * a + b / 10);
}

proof fn lemma_mark(s: Seq<u8>, pos: int, at: int)
    requires
        0 <= pos <= at < s.len(),
        s[at] == 0x54 || s[at] == 0x20,
        forall|k: int| pos <= k < at ==> #[trigger] s[k] != 0x54 && s[k] != 0x20,
    ensures
        time_mark(s, pos) == Some(at),
    decreases at - pos,
{
    if pos < at {
        assert(s[pos] != 0x54 && s[pos] != 0x20);
        lemma_mark(s, pos + 1, at);
    }
}

proof fn lemma_no_mark(s: Seq<u8>, pos: int)
    requires
        0 <= pos <= s.len(),
        forall|k: int| pos <= k < s.len() ==> #[trigger] s[k] != 0x54 && s[k] != 0x20,
    ensures
        time_mark(s, pos) is None,
    decreases s.len() - pos,
{
    if pos < s.len() {
        assert(s[pos] != 0x54 && s[pos] != 0x20);
        lemma_no_mark(s, pos + 1);
    }
}

proof fn lemma_date_fields(
    s: Seq<u8>,
    date: (int, int, int),
    marks: Marks,
    behind: Seq<u8>,
)
    requires
        marks.wf(),
        is_writable(date, (0, 0, 0)),
        s == date_text(date, marks) + behind,
    ensures
        field(s, 0, 4) == Some(date.0),
        field(s, 5, 7) == Some(date.1),
        field(s, 8, 10) == Some(date.2),
        s.len() == 10 + behind.len(),
        forall|k: int| 0 <= k < 10 ==> #[trigger] s[k] != 0x54 && s[k] != 0x20,
        s.skip(10) == behind,
{
    lemma_four_digits(date.0);
    lemma_two_digits(date.1);
    lemma_two_digits(date.2);
    let y = four_digits(date.0);
    let m = two_digits(date.1);
    let d = two_digits(date.2);
    assert(s.subrange(0, 4) =~= y);
    assert(s.subrange(5, 7) =~= m);
    assert(s.subrange(8, 10) =~= d);
    assert(s.skip(10) =~= behind);
    assert forall|k: int| 0 <= k < 10 implies #[trigger] s[k] != 0x54 && s[k] != 0x20 by {
        if k < 4 {
            assert(s[k] == y[k]);
            assert(is_digit(y[k]));
        } else if 5 <= k < 7 {
            assert(s[k] == m[k - 5]);
            assert(is_digit(m[k - 5]));
        } else if k >= 8 {
            assert(s[k] == d[k - 8]);
            assert(is_digit(d[k - 8]));
        }
    }
}

/// What a written timestamp says.
pub proof fn lemma_stamp(
    s: Seq<u8>,
    date: (int, int, int),
    marks: Marks,
    time: (int, int, int),
    behind: Seq<u8>,
)
    requires
        is_writable(date, time),
        marks.wf(),
        s == stamp_text(date, marks, time, behind),
    ensures
        unix_seconds(s) == Some(
            86_400 * civil_days(date.0, date.1, date.2) + 3_600 * time.0 + 60 * time.1 + time.2,
        ),
        hour_and_weekday(s) == Some(
            (
                if time.0 < 23 {
                    time.0
                } else {
                    23
                },
                (civil_days(date.0, date.1, date.2) + 3) % 7,
            ),
        ),
{
    let clock = time_text(time, marks);
    let rest = seq![marks.between] + clock + behind;
    assert(s =~= date_text(date, marks) + rest);
    lemma_date_fields(s, date, marks, rest);
    lemma_two_digits(time.0);
    lemma_two_digits(time.1);
    lemma_two_digits(time.2);
    assert(s[10] == marks.between) by {
        assert(s.skip(10)[0] == rest[0]);
    }
    lemma_mark(s, 0, 10);
    assert(s.subrange(11, 13) =~= two_digits(time.0)) by {
        assert(s.skip(10).subrange(1, 3) =~= s.subrange(11, 13));
        assert(rest.subrange(1, 3) =~= two_digits(time.0));
    }
    assert(s.subrange(14, 16) =~= two_digits(time.1)) by {
        assert(s.skip(10).subrange(4, 6) =~= s.subrange(14, 16));
        assert(rest.subrange(4, 6) =~= two_digits(time.1));
    }
    assert(s.subrange(17, 19) =~= two_digits(time.2)) by {
        assert(s.skip(10).subrange(7, 9) =~= s.subrange(17, 19));
        assert(rest.subrange(7, 9) =~= two_digits(time.2));
    }
    assert(field(s, 11, 13) == Some(time.0));
    assert(field(s, 14, 16) == Some(time.1));
    assert(field(s, 17, 19) == Some(time.2));
}

/// A written timestamp stands for its day's seconds and those of its time of day.
pub proof fn law_seconds_read(
    s: &[u8],
    r: Option<i64>,
    days: i64,
    y: i32,
    m: i32,
    d: i32,
    marks: Marks,
    time: (int, int, int),
    behind: Seq<u8>,
)
    requires
        call_ensures(parse_iso_seconds, (s,), r),
        call_ensures(days_from_civil, (y, m, d), days),
        is_writable((y as int, m as int, d as int), time),
        marks.wf(),
        s@ == stamp_text((y as int, m as int, d as int), marks, time, behind),
    ensures
        r matches Some(seconds) && seconds == 86_400 * days + 3_600 * time.0 + 60 * time.1 + time.2,
{
    lemma_stamp(s@, (y as int, m as int, d as int), marks, time, behind);
}

/// A written timestamp says its hour, 23 at most, and the day of the week of its date.
pub proof fn law_hour_read(
    s: &[u8],
    r: Option<(u8, u8)>,
    day: u8,
    y: i32,
    m: i32,
    d: i32,
    marks: Marks,
    time: (int, int, int),
    behind: Seq<u8>,
)
    requires
        call_ensures(parse_iso_hour_and_day, (s,), r),
        call_ensures(day_of_week, (y, m, d), day),
        is_writable((y as int, m as int, d as int), time),
        marks.wf(),
        s@ == stamp_text((y as int, m as int, d as int), marks, time, behind),
    ensures
        r matches Some((hour, weekday)) && weekday == day && hour == if time.0 < 23 {
            time.0
        } else {
            23
        },
{
    lemma_stamp(s@, (y as int, m as int, d as int), marks, time, behind);
}

/// A date without a time of day is noon of that day, and stands for no second.
pub proof fn law_date_read(
    s: &[u8],
    r: Option<(u8, u8)>,
    seconds: Option<i64>,
    day: u8,
    y: i32,
    m: i32,
    d: i32,
    marks: Marks,
)
    requires
        marks.wf(),
        call_ensures(parse_iso_hour_and_day, (s,), r),
        call_ensures(parse_iso_seconds, (s,), seconds),
        call_ensures(day_of_week, (y, m, d), day),
        is_writable((y as int, m as int, d as int), (0, 0, 0)),
        s@ == date_text((y as int, m as int, d as int), marks),
    ensures
        r == Some((12u8, day)),
        seconds is None,
{
    let date = (y as int, m as int, d as int);
    assert(s@ =~= date_text(date, marks) + Seq::<u8>::empty());
    lemma_date_fields(s@, date, marks, Seq::empty());
    lemma_no_mark(s@, 0);
}

/// A timestamp is not read where its date is cut short or holds anything but digits; and it stands
/// for no second where it is shorter than a date and a time of day.
pub proof fn law_unreadable(s: &[u8], r: Option<(u8, u8)>, seconds: Option<i64>, k: int)
    requires
        call_ensures(parse_iso_hour_and_day, (s,), r),
        call_ensures(parse_iso_seconds, (s,), seconds),
        0 <= k < 10 && k != 4 && k != 7,
    ensures
        s@.len() < 19 ==> seconds is None,
        s@.len() < 10 ==> r is None,
        s@.len() >= 10 && !(0x30 <= s@[k] <= 0x39) ==> r is None && seconds is None,
{
    if s@.len() >= 10 && !(0x30 <= s@[k] <= 0x39) {
        if k < 4 {
            assert(s@.subrange(0, 4)[k] == s@[k]);
        } else if k < 7 {
            assert(s@.subrange(5, 7)[k - 5] == s@[k]);
        } else {
            assert(s@.subrange(8, 10)[k - 8] == s@[k]);
        }
    }
}

/// The days are counted from the first of January 1970, a Thursday.
pub proof fn law_days_from_epoch(days: i64, weekday: u8)
    requires
        call_ensures(days_from_civil, (1970i32, 1i32, 1i32), days),
        call_ensures(day_of_week, (1970i32, 1i32, 1i32), weekday),
    ensures
        days == 0,
        weekday == 3,
{
    law_epoch();
}

/// The day behind a day counts one more, and is the next of the week.
pub proof fn law_days_go_on(
    y: i32,
    m: i32,
    d: i32,
    y2: i32,
    m2: i32,
    d2: i32,
    days: i64,
    days2: i64,
    weekday: u8,
    weekday2: u8,
)
    requires
        call_ensures(days_from_civil, (y, m, d), days),
        call_ensures(days_from_civil, (y2, m2, d2), days2),
        call_ensures(day_of_week, (y, m, d), weekday),
        call_ensures(day_of_week, (y2, m2, d2), weekday2),
        is_date(y as int, m as int, d as int),
        next_date(y as int, m as int, d as int) == (y2 as int, m2 as int, d2 as int),
    ensures
        days2 == days + 1,
        weekday2 == if weekday == 6 {
            0
        } else {
            weekday + 1
        },
{
    law_next_date(y as int, m as int, d as int);
    law_next_weekday(y as int, m as int, d as int);
}

/// A day past the end of its month counts on, and so does a month past the end of its year.
pub proof fn law_days_carry(y: i32, m: i32, d: i32, days: i64, later: i64, month: i64, wrapped: i64)
    requires
        d < i32::MAX,
        y < i32::MAX,
        call_ensures(days_from_civil, (y, m, d), days),
        call_ensures(days_from_civil, (y, m, (d + 1) as i32), later),
        call_ensures(days_from_civil, (y, 13i32, d), month),
        call_ensures(days_from_civil, ((y + 1) as i32, 1i32, d), wrapped),
    ensures
        later == days + 1,
        month == wrapped,
{
    reveal(civil_days);
}

/// Behind a date and a mark, an hour that is not two digits is noon, and where any digit of the
/// time of day is missing the timestamp stands for no second.
pub proof fn law_time_unreadable(
    s: &[u8],
    r: Option<(u8, u8)>,
    seconds: Option<i64>,
    date: (int, int, int),
    marks: Marks,
    rest: Seq<u8>,
    k: int,
)
    requires
        call_ensures(parse_iso_hour_and_day, (s,), r),
        call_ensures(parse_iso_seconds, (s,), seconds),
        is_writable(date, (0, 0, 0)),
        marks.wf(),
        s@ == date_text(date, marks) + (seq![marks.between] + rest),
        rest.len() >= 8,
        0 <= k < 8 && k != 2 && k != 5,
        !(0x30 <= rest[k] <= 0x39),
    ensures
        seconds is None,
        k < 2 ==> (r matches Some((hour, _)) && hour == 12),
{
    let tail = seq![marks.between] + rest;
    lemma_date_fields(s@, date, marks, tail);
    assert(s@.skip(10)[0] == tail[0]);
    assert(s@.skip(10)[k + 1] == tail[k + 1]);
    assert(s@[11 + k] == rest[k]);
    lemma_mark(s@, 0, 10);
    if k < 2 {
        assert(s@.subrange(11, 13)[k] == rest[k]);
    } else if k < 5 {
        assert(s@.subrange(14, 16)[k - 3] == rest[k]);
    } else {
        assert(s@.subrange(17, 19)[k - 6] == rest[k]);
    }
}

/// A text is read as a number exactly where it holds nothing but digits; its last digit counts
/// for itself, and the others for ten times what they say alone.
pub proof fn law_digits_read(s: &[u8], r: Option<i32>, front: &[u8], front_r: Option<i32>)
    requires
        call_ensures(parse_i32, (s,), r),
        call_ensures(parse_i32, (front,), front_r),
        s@.len() == 0 || front@ == s@.drop_last(),
    ensures
        r is Some <==> forall|k: int| 0 <= k < s@.len() ==> 0x30 <= #[trigger] s@[k] <= 0x39,
        s@.len() == 0 ==> r == Some(0i32),
        s@.len() > 0 && r is Some ==> front_r is Some && r->0 == 10 * front_r->0 + (s@.last()
            - 0x30),
{
    if r is Some {
        assert forall|k: int| 0 <= k < s@.len() implies 0x30 <= #[trigger] s@[k] <= 0x39 by {
            assert(is_digit(s@[k]));
        }
        if s@.len() > 0 {
            assert forall|k: int| 0 <= k < front@.len() implies is_digit(#[trigger] front@[k]) by {
                assert(front@[k] == s@[k]);
            }
        }
    }
}

} // verus!
