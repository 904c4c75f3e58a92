//! What a timestamp that is written on a clock and a calendar reads as.

use vstd::prelude::*;
use crate::timestamp::{
    days,
    days_in_month,
    decimal,
    hour_of,
    is_digit_place,
    is_readable,
    law_days_count_the_calendar,
    law_weekday_follows_days,
    march_month,
    march_year,
    minute_of,
    minutes_of,
    month_of,
    day_of,
    quot,
    rem,
    weekday,
    weekday_of,
    year_of,
    zeller_sum,
};

verus! {

/// A moment, as clock and calendar show it.
pub struct Moment {
    /// Year.
    pub year: int,
    /// Month, from 1.
    pub month: int,
    /// Day of the month, from 1.
    pub day: int,
    /// Hour.
    pub hour: int,
    /// Minute.
    pub minute: int,
}

/// A moment that occurs, in the years from 1 on that four digits can show.
pub open spec fn occurs(m: Moment) -> bool {
    &&& 1 <= m.year <= 9999
    &&& 1 <= m.month <= 12
    &&& 1 <= m.day <= days_in_month(m.year, m.month)
    &&& 0 <= m.hour <= 23
    &&& 0 <= m.minute <= 59
}

/// The two digits of `n` stand in `b` at `i`.
pub open spec fn two_digits(b: Seq<u8>, i: int, n: int) -> bool {
    &&& b[i] == 48 + n / 10
    &&& b[i + 1] == 48 + n % 10
}

/// `b` begins with the digits of a moment, two or four at a time, with a byte between them.
pub open spec fn shows(b: Seq<u8>, m: Moment) -> bool {
    &&& b.len() >= 16
    &&& two_digits(b, 0, m.year / 100)
    &&& two_digits(b, 2, m.year % 100)
    &&& two_digits(b, 5, m.month)
    &&& two_digits(b, 8, m.day)
    &&& two_digits(b, 11, m.hour)
    &&& two_digits(b, 14, m.minute)
}

/// The same moment on the next day.
pub open spec fn next_day(m: Moment) -> Moment {
    if m.day < days_in_month(m.year, m.month) {
        Moment { day: m.day + 1, ..m }
    } else if m.month < 12 {
        Moment { month: m.month + 1, day: 1, ..m }
    } else {
        Moment { year: m.year + 1, month: 1, day: 1, ..m }
    }
}

/// The next minute.
pub open spec fn next_minute(m: Moment) -> Moment {
    if m.minute < 59 {
        Moment { minute: m.minute + 1, ..m }
    } else if m.hour < 23 {
        Moment { hour: m.hour + 1, minute: 0, ..m }
    } else {
        Moment { hour: 0, minute: 0, ..next_day(m) }
    }
}

/// Two digits spell their number.
proof fn lemma_two_digits(b: Seq<u8>, i: int, n: int)
    requires
        0 <= i,
        i + 2 <= b.len(),
        0 <= n <= 99,
        two_digits(b, i, n),
    ensures
        decimal(b.subrange(i, i + 2)) == n,
{
    reveal_with_fuel(decimal, 3);
    let s = b.subrange(i, i + 2);
    assert(s.drop_last().drop_last() =~= Seq::empty());
    assert(s.last() == b[i + 1]);
    assert(s.drop_last().last() == b[i]);
}

/// Four digits spell their number.
proof fn lemma_four_digits(b: Seq<u8>, n: int)
    requires
        b.len() >= 4,
        0 <= n <= 9999,
        two_digits(b, 0, n / 100),
        two_digits(b, 2, n % 100),
    ensures
        decimal(b.subrange(0, 4)) == n,
{
    let s = b.subrange(0, 4);
    let three = s.drop_last();
    let two = three.drop_last();
    assert(two =~= b.subrange(0, 2));
    lemma_two_digits(b, 0, n / 100);
    assert(s.last() == b[3]);
    assert(three.last() == b[2]);
    assert(decimal(three) == decimal(two) * 10 + (b[2] - 48));
    assert(decimal(s) == decimal(three) * 10 + (b[3] - 48));
}

/// A timestamp reads as what it shows, digit by digit.
pub proof fn law_timestamps_read_as_shown(b: Seq<u8>, m: Moment)
    requires
        shows(b, m),
        0 <= m.year <= 9999,
        0 <= m.month <= 99,
        0 <= m.day <= 99,
        0 <= m.hour <= 99,
        0 <= m.minute <= 99,
    ensures
        is_readable(b),
        year_of(b) == m.year,
        month_of(b) == m.month,
        day_of(b) == m.day,
        hour_of(b) == m.hour,
        minute_of(b) == m.minute,
{
    lemma_four_digits(b, m.year);
    lemma_two_digits(b, 5, m.month);
    lemma_two_digits(b, 8, m.day);
    lemma_two_digits(b, 11, m.hour);
    lemma_two_digits(b, 14, m.minute);
    assert forall|i: int| is_digit_place(i) implies 48 <= #[trigger] b[i] by {
        if i == 0 || i == 1 {
            assert(two_digits(b, 0, m.year / 100));
        } else if i == 2 || i == 3 {
            assert(two_digits(b, 2, m.year % 100));
        }
    }
}

/// What a timestamp that shows a moment comes to.
proof fn lemma_shown(b: Seq<u8>, m: Moment, d: int, w: int)
    requires
        occurs(m),
        shows(b, m),
        d == days(m.year, m.month, m.day),
        w == weekday(m.year, m.month, m.day),
    ensures
        minutes_of(b) == 1440 * d + 60 * m.hour + m.minute,
        weekday_of(b) == w,
{
    law_timestamps_read_as_shown(b, m);
}

/// Days and weekday of a date and of the next one.
proof fn lemma_next_day(m: Moment) -> (r: (int, int, int, int))
    requires
        occurs(m),
        next_day(m).year <= 9999,
    ensures
        r.0 == days(m.year, m.month, m.day),
        r.1 == weekday(m.year, m.month, m.day),
        r.2 == days(next_day(m).year, next_day(m).month, next_day(m).day),
        r.3 == weekday(next_day(m).year, next_day(m).month, next_day(m).day),
        r.2 == r.0 + 1,
        0 <= r.1 <= 6,
        r.3 == (r.1 + 1) % 7,
        occurs(next_day(m)),
{
    let n = next_day(m);
    let d = days(m.year, m.month, m.day);
    let e = days(n.year, n.month, n.day);
    law_days_count_the_calendar(m.year, m.month, m.day);
    assert(e == d + 1);
    law_weekday_follows_days(m.year, m.month, m.day);
    law_weekday_follows_days(n.year, n.month, n.day);
    lemma_next_weekday(d + 3);
    (d, weekday(m.year, m.month, m.day), e, weekday(n.year, n.month, n.day))
}

proof fn lemma_next_weekday(x: int)
    ensures
        0 <= x % 7 <= 6,
        (x + 1) % 7 == (x % 7 + 1) % 7,
{
}

/// Days and weekday of one date.
proof fn lemma_date(m: Moment) -> (r: (int, int))
    requires
        occurs(m),
    ensures
        r.0 == days(m.year, m.month, m.day),
        r.1 == weekday(m.year, m.month, m.day),
        0 <= r.1 <= 6,
{
    let d = days(m.year, m.month, m.day);
    law_weekday_follows_days(m.year, m.month, m.day);
    lemma_next_weekday(d + 3);
    (d, weekday(m.year, m.month, m.day))
}

/// From each minute of the clock to the next, the end of a day, a month and a year included, the
/// minutes of a timestamp go up by one. The weekday changes with the date, from Sunday to Monday.
pub proof fn law_minutes_follow_the_clock(a: Seq<u8>, b: Seq<u8>, m: Moment)
    requires
        occurs(m),
        next_minute(m).year <= 9999,
        shows(a, m),
        shows(b, next_minute(m)),
    ensures
        minutes_of(b) == minutes_of(a) + 1,
        0 <= weekday_of(a) <= 6,
        weekday_of(b) == if m.hour == 23 && m.minute == 59 {
            (weekday_of(a) + 1) % 7
        } else {
            weekday_of(a)
        },
{
    let n = next_minute(m);
    if m.hour == 23 && m.minute == 59 {
        let (d, w, e, x) = lemma_next_day(m);
        lemma_shown(a, m, d, w);
        lemma_shown(b, n, e, x);
    } else {
        let (d, w) = lemma_date(m);
        lemma_shown(a, m, d, w);
        lemma_shown(b, n, d, w);
    }
}

/// 1970-01-01T00:00, a Thursday, is the beginning of the count.
pub proof fn law_minutes_begin_in_1970(b: Seq<u8>)
    requires
        shows(b, Moment { year: 1970, month: 1, day: 1, hour: 0, minute: 0 }),
    ensures
        minutes_of(b) == 0,
        weekday_of(b) == 3,
        hour_of(b) == 0,
{
    law_timestamps_read_as_shown(
        b,
        Moment { year: 1970, month: 1, day: 1, hour: 0, minute: 0 },
    );
    law_days_count_the_calendar(1970, 1, 1);
    law_weekday_follows_days(1970, 1, 1);
}

/// Within one date, timestamps are as many minutes apart as their clocks show.
pub proof fn law_minutes_within_a_date(a: Seq<u8>, b: Seq<u8>, m: Moment, n: Moment)
    requires
        shows(a, m),
        shows(b, n),
        occurs(m),
        occurs(n),
        m.year == n.year && m.month == n.month && m.day == n.day,
    ensures
        minutes_of(b) - minutes_of(a) == 60 * (n.hour - m.hour) + (n.minute - m.minute),
        weekday_of(a) == weekday_of(b),
{
    law_timestamps_read_as_shown(a, m);
    law_timestamps_read_as_shown(b, n);
}

/// A day later a timestamp is 1440 minutes later.
pub proof fn law_minutes_of_the_next_day(a: Seq<u8>, b: Seq<u8>, m: Moment)
    requires
        occurs(m),
        next_day(m).year <= 9999,
        shows(a, m),
        shows(b, next_day(m)),
    ensures
        minutes_of(b) == minutes_of(a) + 1440,
        hour_of(b) == hour_of(a),
        weekday_of(b) == (weekday_of(a) + 1) % 7,
{
    let n = next_day(m);
    let (d, w, e, x) = lemma_next_day(m);
    lemma_shown(a, m, d, w);
    lemma_shown(b, n, e, x);
    law_timestamps_read_as_shown(a, m);
    law_timestamps_read_as_shown(b, n);
}

/// Any bytes read as what they stand for in their places, by their distance from the digit `0`, if
/// none of them precedes it. Hour and minute keep eight bits.
pub proof fn law_timestamps_read_by_place(b: Seq<u8>)
    requires
        b.len() >= 16,
    ensures
        is_readable(b) <==> b[0] >= 48 && b[1] >= 48 && b[2] >= 48 && b[3] >= 48 && b[5] >= 48
            && b[6] >= 48 && b[8] >= 48 && b[9] >= 48 && b[11] >= 48 && b[12] >= 48 && b[14] >= 48
            && b[15] >= 48,
        year_of(b) == 1000 * (b[0] - 48) + 100 * (b[1] - 48) + 10 * (b[2] - 48) + (b[3] - 48),
        month_of(b) == 10 * (b[5] - 48) + (b[6] - 48),
        day_of(b) == 10 * (b[8] - 48) + (b[9] - 48),
        hour_of(b) == (10 * (b[11] - 48) + (b[12] - 48)) % 256,
        minute_of(b) == (10 * (b[14] - 48) + (b[15] - 48)) % 256,
        weekday_of(b) == weekday(year_of(b), month_of(b), day_of(b)),
        minutes_of(b) == 1440 * days(year_of(b), month_of(b), day_of(b)) + 60 * hour_of(b)
            + minute_of(b),
{
    lemma_two_places(b, 5);
    lemma_two_places(b, 8);
    lemma_two_places(b, 11);
    lemma_two_places(b, 14);
    lemma_two_places(b, 0);
    let s = b.subrange(0, 4);
    let three = s.drop_last();
    let two = three.drop_last();
    assert(two =~= b.subrange(0, 2));
    assert(s.last() == b[3]);
    assert(three.last() == b[2]);
    assert(decimal(three) == decimal(two) * 10 + (b[2] - 48));
    assert(decimal(s) == decimal(three) * 10 + (b[3] - 48));
    if is_readable(b) {
        assert(is_digit_place(0));
        assert(is_digit_place(1));
        assert(is_digit_place(2));
        assert(is_digit_place(3));
        assert(is_digit_place(5));
        assert(is_digit_place(6));
        assert(is_digit_place(8));
        assert(is_digit_place(9));
        assert(is_digit_place(11));
        assert(is_digit_place(12));
        assert(is_digit_place(14));
        assert(is_digit_place(15));
    }
}

/// What two bytes spell.
proof fn lemma_two_places(b: Seq<u8>, i: int)
    requires
        0 <= i,
        i + 2 <= b.len(),
    ensures
        decimal(b.subrange(i, i + 2)) == 10 * (b[i] - 48) + (b[i + 1] - 48),
{
    reveal_with_fuel(decimal, 3);
    let s = b.subrange(i, i + 2);
    assert(s.drop_last().drop_last() =~= Seq::empty());
    assert(s.last() == b[i + 1]);
    assert(s.drop_last().last() == b[i]);
}

/// Days that no month has count on from those that it has. Months before March are those that
/// follow December of the year before, and from March on every five months take 153 days, past the
/// end of the year too.
pub proof fn law_days_beyond_the_calendar(year: int, month: int, day: int, more: int)
    ensures
        days(year, month, day + more) == days(year, month, day) + more,
        month < 3 ==> days(year, month, day) == days(year - 1, month + 12, day) || month + 12 < 3,
        month >= 3 ==> days(year, month + 5, day) == days(year, month, day) + 153,
{
}

/// In the two months before March of the year 0 the weekday is one ahead of the days.
#[verifier::spinoff_prover]
pub proof fn law_weekday_before_march_of_year_zero(month: int, day: int)
    requires
        0 <= month < 3,
        0 <= day <= 2277,
    ensures
        weekday(0, month, day) == (days(0, month, day) + 4) % 7,
{
    let m = march_month(month);
    let z = zeller_sum(0, month, day);
    assert(rem(-1, 100) == -1);
    assert(quot(-1, 100) == 0);
    assert(quot(-1, 4) == 0);
    assert(z == day + quot(13 * (m + 1), 5) - 1);
    assert((-1int) / 400 == -1);
    assert((-1int) % 400 == 399);
    let n = days(0, month, day);
    assert(n == -146097 + 365 * 399 + 99 - 3 + (153 * (m - 3) + 2) / 5 + day - 1 - 719468);
    let f = (3 * m + 3) / 5;
    assert((153 * (m - 3) + 2) / 5 == 30 * m - 92 + f);
    assert((13 * (m + 1)) / 5 == 2 * m + 2 + f);
    lemma_weekday_of(z, n + 4, n + 4 - (z + 5));
}

proof fn lemma_weekday_of(z: int, n: int, d: int)
    requires
        z >= 0,
        n == z + 5 + d,
        d % 7 == 0,
    ensures
        rem(rem(z, 7) + 5, 7) == n % 7,
{
}

/// The parts of a year before 0.
#[verifier::spinoff_prover]
proof fn lemma_negative_year(y: int)
    requires
        y > 0,
    ensures
        rem(-y, 100) + quot(rem(-y, 100), 4) + quot(quot(-y, 100), 4) + 5 * quot(-y, 100) == -(y
            % 100 + (y % 100) / 4 + (y / 100) / 4 + 5 * (y / 100)),
{
    let k = y % 100;
    let j = y / 100;
    assert(quot(-y, 100) == -j);
    assert(rem(-y, 100) == -k);
    assert(quot(-k, 4) == -(k / 4));
    assert(quot(-j, 4) == -(j / 4));
}

/// The weekday that comes of a sum.
#[verifier::spinoff_prover]
proof fn lemma_weekday_of_any_sum(z: int)
    ensures
        ({
            let w = rem(rem(z, 7) + 5, 7);
            (if w < 0 {
                w + 256
            } else {
                w
            }) == if z >= 0 {
                (z + 5) % 7
            } else if (-z) % 7 == 6 {
                255
            } else {
                5 - (-z) % 7
            }
        }),
{
}

/// In years before 0 the parts of a year are taken off instead of added, and a sum below zero is
/// divided as its opposite; the weekday before Monday is then 255.
#[verifier::spinoff_prover]
pub proof fn law_weekdays_of_negative_years(year: int, month: int, day: int)
    requires
        march_year(year, month) < 0,
        0 <= month < 0x7fff_ffff,
        0 <= day < 0x8000_0000,
    ensures
        ({
            let y = -march_year(year, month);
            let k = y % 100;
            let j = y / 100;
            let z = day + (13 * (march_month(month) + 1)) / 5 - (k + k / 4 + j / 4 + 5 * j);
            weekday(year, month, day) == if z >= 0 {
                (z + 5) % 7
            } else if (-z) % 7 == 6 {
                255
            } else {
                5 - (-z) % 7
            }
        }),
{
    let y = -march_year(year, month);
    let months = (13 * (march_month(month) + 1)) / 5;
    lemma_negative_year(y);
    let taken = y % 100 + (y % 100) / 4 + (y / 100) / 4 + 5 * (y / 100);
    assert(zeller_sum(year, month, day) == day + months - taken);
    lemma_weekday_of_any_sum(day + months - taken);
}

} // verus!
