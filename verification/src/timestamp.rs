//! Timestamps of the form `2026-03-11T18:45:53Z`: hour, weekday and minutes since 1970.

use vstd::prelude::*;

verus! {

/// The number that a run of digits spells; a digit counts by its distance from `0`.
pub open spec fn decimal(s: Seq<u8>) -> int
    decreases s.len(),
{
    if s.len() == 0 {
        0
    } else {
        decimal(s.drop_last()) * 10 + (s.last() - 48)
    }
}

/// No byte of `s` precedes the digit `0`.
pub open spec fn from_zero(s: Seq<u8>) -> bool {
    forall|i: int| 0 <= i < s.len() ==> 48 <= #[trigger] s[i]
}

/// More digits spell no smaller number.
pub proof fn lemma_decimal_prefix(s: Seq<u8>, n: int)
    requires
        from_zero(s),
        0 <= n <= s.len(),
    ensures
        0 <= decimal(s.take(n)) <= decimal(s),
    decreases s.len(),
{
    if n == s.len() {
        assert(s.take(n) =~= s);
        if n > 0 {
            lemma_decimal_prefix(s.drop_last(), n - 1);
            assert(s.drop_last().take(n - 1) =~= s.drop_last());
        }
    } else {
        lemma_decimal_prefix(s.drop_last(), n);
        assert(s.drop_last().take(n) =~= s.take(n));
    }
}

/// Reads a run of digits.
pub fn parse_u32(b: &[u8]) -> (n: u32)
    requires
        from_zero(b@),
        decimal(b@) <= u32::MAX,
    ensures
        n == decimal(b@),
{
    let mut n: u32 = 0;
    let mut i: usize = 0;
    assert(b@.take(0) =~= Seq::empty());
    while i < b.len()
        invariant
            i <= b@.len(),
            from_zero(b@),
            decimal(b@) <= u32::MAX,
            n == decimal(b@.take(i as int)),
        decreases b@.len() - i,
    {
        let c: u8 = b[i];
        proof {
            assert(b@.take(i + 1).drop_last() =~= b@.take(i as int));
            lemma_decimal_prefix(b@, i + 1);
            lemma_decimal_prefix(b@, i as int);
        }
        n = n * 10 + (c - 48) as u32;
        i += 1;
    }
    assert(b@.take(i as int) =~= b@);
    n
}

/// Quotient rounded towards zero.
pub open spec fn quot(a: int, b: int) -> int {
    if a >= 0 {
        a / b
    } else {
        -((-a) / b)
    }
}

/// Remainder of the quotient rounded towards zero.
pub open spec fn rem(a: int, b: int) -> int {
    a - b * quot(a, b)
}

/// The year in which a month counts when years begin in March.
pub open spec fn march_year(year: int, month: int) -> int {
    if month < 3 {
        year - 1
    } else {
        year
    }
}

/// The number of a month when January and February follow December.
pub open spec fn march_month(month: int) -> int {
    if month < 3 {
        month + 12
    } else {
        month
    }
}

/// The signed 32-bit number that an unsigned one stands for.
pub open spec fn signed32(x: int) -> int {
    if x < 0x8000_0000 {
        x
    } else {
        x - 0x1_0000_0000
    }
}

/// What month and day contribute to Zeller's sum.
pub open spec fn zeller_day(month: int, day: int) -> int {
    signed32(day) + quot(13 * (signed32(march_month(month)) + 1), 5)
}

/// Zeller's sum for a date.
pub open spec fn zeller_sum(year: int, month: int, day: int) -> int {
    let y = march_year(year, month);
    let k = rem(y, 100);
    let j = quot(y, 100);
    zeller_day(month, day) + k + quot(k, 4) + quot(j, 4) + 5 * j
}

/// Day of the week, counted from Monday, by Zeller's congruence.
pub open spec fn weekday(year: int, month: int, day: int) -> int {
    let h = rem(zeller_sum(year, month, day), 7);
    let w = rem(h + 5, 7);
    if w < 0 {
        w + 256
    } else {
        w
    }
}

/// A signed number of 32 bits.
pub open spec fn fits(x: int) -> bool {
    i32::MIN <= x <= i32::MAX
}

/// Zeller's sum and its parts, added up from the left, fit in 32 bits.
pub open spec fn zeller_fits(year: int, month: int, day: int) -> bool {
    let y = march_year(year, month);
    let m = signed32(march_month(month));
    let k = rem(y, 100);
    let j = quot(y, 100);
    let d = zeller_day(month, day);
    &&& fits(y)
    &&& fits(13 * (m + 1))
    &&& fits(m + 1)
    &&& fits(d)
    &&& fits(d + k)
    &&& fits(d + k + quot(k, 4))
    &&& fits(d + k + quot(k, 4) + quot(j, 4))
    &&& fits(zeller_sum(year, month, day))
}

/// The signed 32-bit number that an unsigned one stands for.
fn to_signed(x: u32) -> (r: i32)
    ensures
        r == signed32(x as int),
{
    if x < 0x8000_0000 {
        x as i32
    } else {
        (x - 0x8000_0000) as i32 + i32::MIN
    }
}

/// Day of the week, counted from Monday.
pub fn zeller_weekday(year: i32, month: u32, day: u32) -> (w: u8)
    requires
        zeller_fits(year as int, month as int, day as int),
    ensures
        w == weekday(year as int, month as int, day as int),
{
    let (y, m): (i32, u32) = if month < 3 {
        (year - 1, month + 12)
    } else {
        (year, month)
    };
    let k: i32 = y % 100;
    let j: i32 = y / 100;
    assert(k == rem(y as int, 100) && j == quot(y as int, 100));
    let months: i32 = (13 * (to_signed(m) + 1)) / 5;
    let d: i32 = to_signed(day);
    assert(d + months == zeller_day(month as int, day as int));
    let h: i32 = (d + months + k + k / 4 + j / 4 + 5 * j) % 7;
    assert(h == rem(zeller_sum(year as int, month as int, day as int), 7));
    let w: i32 = (h + 5) % 7;
    if w < 0 {
        (w + 256) as u8
    } else {
        w as u8
    }
}

/// Days from 1970-01-01 to a date of the Gregorian calendar.
pub open spec fn days(year: int, month: int, day: int) -> int {
    let y = march_year(year, month);
    let year_of_era = y % 400;
    146097 * (y / 400) + 365 * year_of_era + year_of_era / 4 - year_of_era / 100 + (153 * (
    march_month(month) - 3) + 2) / 5 + day - 1 - 719468
}

/// Days from 1970-01-01 to a date of the Gregorian calendar.
pub fn days_from_epoch(year: i32, month: u32, day: u32) -> (n: i64)
    requires
        march_year(year as int, month as int) >= i32::MIN,
        march_year(year as int, month as int) < 0 ==> march_year(year as int, month as int) - 399
            >= i32::MIN,
    ensures
        n == days(year as int, month as int, day as int),
{
    let (y, m): (i32, u32) = if month <= 2 {
        (year - 1, month + 12)
    } else {
        (year, month)
    };
    let era: i32 = (if y >= 0 {
        y
    } else {
        y - 399
    }) / 400;
    assert(era == y as int / 400);
    let yoe: i64 = (y - era * 400) as i64;
    let doy: i64 = (153 * (m as i64 - 3) + 2) / 5 + day as i64 - 1;
    let doe: i64 = yoe * 365 + yoe / 4 - yoe / 100 + doy;
    era as i64 * 146097 + doe - 719468
}

/// The bytes in which year, month, day, hour and minute stand.
pub open spec fn is_digit_place(i: int) -> bool {
    0 <= i < 4 || 5 <= i < 7 || 8 <= i < 10 || 11 <= i < 13 || 14 <= i < 16
}

/// A timestamp can be read: it is long enough, and no byte in which a digit stands precedes `0`.
pub open spec fn is_readable(b: Seq<u8>) -> bool {
    &&& b.len() >= 16
    &&& forall|i: int| is_digit_place(i) ==> 48 <= #[trigger] b[i]
}

/// Year of a timestamp.
pub open spec fn year_of(b: Seq<u8>) -> int {
    decimal(b.subrange(0, 4))
}

/// Month of a timestamp.
pub open spec fn month_of(b: Seq<u8>) -> int {
    decimal(b.subrange(5, 7))
}

/// Day of the month of a timestamp.
pub open spec fn day_of(b: Seq<u8>) -> int {
    decimal(b.subrange(8, 10))
}

/// Hour of a timestamp, in one byte.
pub open spec fn hour_of(b: Seq<u8>) -> int {
    decimal(b.subrange(11, 13)) % 256
}

/// Minute of a timestamp, in one byte.
pub open spec fn minute_of(b: Seq<u8>) -> int {
    decimal(b.subrange(14, 16)) % 256
}

/// Weekday of a timestamp, counted from Monday.
pub open spec fn weekday_of(b: Seq<u8>) -> int {
    weekday(year_of(b), month_of(b), day_of(b))
}

/// Minutes from 1970-01-01T00:00 to a timestamp.
pub open spec fn minutes_of(b: Seq<u8>) -> int {
    days(year_of(b), month_of(b), day_of(b)) * 1440 + hour_of(b) * 60 + minute_of(b)
}

/// Bounds of what a few digits spell.
proof fn lemma_decimal_bound(s: Seq<u8>)
    requires
        from_zero(s),
        s.len() <= 4,
    ensures
        0 <= decimal(s) <= 229_977,
        s.len() == 2 ==> decimal(s) <= 2277,
{
    reveal_with_fuel(decimal, 6);
}

/// Bounds of the minutes of a timestamp.
pub proof fn lemma_minutes_bound(b: Seq<u8>)
    requires
        is_readable(b),
    ensures
        -2_000_000_000 <= minutes_of(b) <= 200_000_000_000,
{
    lemma_decimal_bound(b.subrange(0, 4));
    lemma_decimal_bound(b.subrange(5, 7));
    lemma_decimal_bound(b.subrange(8, 10));
}

/// Tests that a timestamp can be read.
pub fn is_readable_timestamp(b: &[u8]) -> (ok: bool)
    ensures
        ok == is_readable(b@),
{
    if b.len() < 16 {
        return false;
    }
    let mut i: usize = 0;
    while i < 16
        invariant
            i <= 16,
            b@.len() >= 16,
            forall|j: int| is_digit_place(j) && j < i ==> 48 <= #[trigger] b@[j],
        decreases 16 - i,
    {
        let separator: bool = i == 4 || i == 7 || i == 10 || i == 13;
        if !separator && b[i] < 48 {
            assert(is_digit_place(i as int));
            return false;
        }
        i += 1;
    }
    true
}

/// Reads a timestamp: its hour, its weekday counted from Monday, and its minutes since 1970.
pub fn parse_iso(b: &[u8]) -> (r: (u8, u8, i64))
    requires
        is_readable(b@),
    ensures
        r.0 == hour_of(b@),
        r.1 == weekday_of(b@),
        r.2 == minutes_of(b@),
{
    proof {
        lemma_decimal_bound(b@.subrange(0, 4));
        lemma_decimal_bound(b@.subrange(5, 7));
        lemma_decimal_bound(b@.subrange(8, 10));
        lemma_decimal_bound(b@.subrange(11, 13));
        lemma_decimal_bound(b@.subrange(14, 16));
    }
    let year: i32 = parse_u32(&b[0..4]) as i32;
    let month: u32 = parse_u32(&b[5..7]);
    let day: u32 = parse_u32(&b[8..10]);
    let hour: u8 = (parse_u32(&b[11..13]) % 256) as u8;
    let minute: u8 = (parse_u32(&b[14..16]) % 256) as u8;
    let w: u8 = zeller_weekday(year, month, day);
    let total: i64 = days_from_epoch(year, month, day) * 1440 + (hour as i64) * 60 + minute as i64;
    (hour, w, total)
}

/// How Zeller's sum and the day count read off a year's parts.
proof fn lemma_year_parts(y: int)
    requires
        y >= 0,
    ensures
        ({
            let e = y / 400;
            let r = y % 400;
            let c = r / 100;
            let k = y % 100;
            &&& y / 100 == 4 * e + c
            &&& r == 100 * c + k
            &&& r / 4 == 25 * c + k / 4
            &&& (y / 100) / 4 == e
            &&& 0 <= c < 4
            &&& 0 <= k < 100
        }),
{
}

/// The weekday advances with the days: 1970-01-01 was a Thursday.
pub proof fn law_weekday_follows_days(year: int, month: int, day: int)
    requires
        0 <= month < 0x8000_0000,
        0 <= day < 0x8000_0000,
        march_year(year, month) >= 0,
    ensures
        weekday(year, month, day) == (days(year, month, day) + 3) % 7,
{
    let y = march_year(year, month);
    let m = march_month(month);
    let e = y / 400;
    let c = (y % 400) / 100;
    let k = y % 100;
    let a = k / 4;
    let f = (3 * m + 3) / 5;
    lemma_year_parts(y);
    assert((153 * (m - 3) + 2) / 5 == 30 * m - 92 + f);
    assert((13 * (m + 1)) / 5 == 2 * m + 2 + f);
    let n = days(year, month, day);
    let z = zeller_sum(year, month, day);
    assert(n == 146097 * e + 36500 * c + 365 * k + 25 * c + a - c + 30 * m - 92 + f + day - 1
        - 719468);
    assert(z == day + 2 * m + 2 + f + k + a + e + 5 * (4 * e + c));
    let q = 20868 * e + 5217 * c + 52 * k + 4 * m - 102795;
    assert(n + 3 == 7 * q + (z + 5));
    assert(z >= 0);
    lemma_weekday_of_sum(z, n + 3, q);
}

/// Numbers that differ by a multiple of seven fall on the same weekday.
proof fn lemma_weekday_of_sum(z: int, n: int, q: int)
    requires
        z >= 0,
        n == 7 * q + (z + 5),
    ensures
        rem(rem(z, 7) + 5, 7) == n % 7,
{
}

/// A year of 366 days.
pub open spec fn is_leap(year: int) -> bool {
    year % 4 == 0 && (year % 100 != 0 || year % 400 == 0)
}

/// Length of a month.
pub open spec fn days_in_month(year: int, month: int) -> int {
    if month == 2 {
        if is_leap(year) {
            29
        } else {
            28
        }
    } else if month == 4 || month == 6 || month == 9 || month == 11 {
        30
    } else {
        31
    }
}

/// Days before March of year `y`, up to a constant.
spec fn days_before_march(y: int) -> int {
    let r = y % 400;
    146097 * (y / 400) + 365 * r + r / 4 - r / 100
}

/// A year by its place in a span of 400 years.
proof fn lemma_year_in_span(year: int, e: int, r: int)
    requires
        year == 400 * e + r,
        0 <= r < 400,
    ensures
        year / 400 == e,
        year % 400 == r,
{
}

/// Divisibility of a year is that of its place in a span of 400 years.
proof fn lemma_year_divides(year: int, e: int, r: int)
    requires
        year == 400 * e + r,
    ensures
        year % 4 == r % 4,
        year % 100 == r % 100,
{
    assert(year == 4 * (100 * e) + r);
    assert(year == 100 * (4 * e) + r);
}

/// A quotient goes up where the divisor divides.
proof fn lemma_quotient_step(r: int, n: int)
    requires
        n == 4 || n == 100,
    ensures
        r / n - (r - 1) / n == if r % n == 0 {
            1int
        } else {
            0
        },
{
    if n == 4 {
        assert(r / 4 - (r - 1) / 4 == if r % 4 == 0 {
            1int
        } else {
            0
        });
    } else {
        assert(r / 100 - (r - 1) / 100 == if r % 100 == 0 {
            1int
        } else {
            0
        });
    }
}

/// From March to March lie 365 days, and one more when the February between is long.
proof fn lemma_march_to_march(year: int)
    ensures
        days_before_march(year) - days_before_march(year - 1) == if is_leap(year) {
            366int
        } else {
            365
        },
{
    let e = year / 400;
    let r = year % 400;
    lemma_year_divides(year, e, r);
    if r == 0 {
        lemma_year_in_span(year - 1, e - 1, 399);
        assert(days_before_march(year - 1) == 146097 * (e - 1) + 365 * 399 + 99 - 3);
        assert(days_before_march(year) == 146097 * e);
    } else {
        lemma_year_in_span(year - 1, e, r - 1);
        lemma_quotient_step(r, 4);
        lemma_quotient_step(r, 100);
        assert(days_before_march(year - 1) == 146097 * e + 365 * (r - 1) + (r - 1) / 4 - (r - 1)
            / 100);
        assert(days_before_march(year) == 146097 * e + 365 * r + r / 4 - r / 100);
        assert(r % 100 == 0 ==> r % 4 == 0);
    }
}

/// The day count is 0 on 1970-01-01, and goes up by one from each date of the Gregorian calendar
/// to the next.
pub proof fn law_days_count_the_calendar(year: int, month: int, day: int)
    requires
        1 <= month <= 12,
        1 <= day <= days_in_month(year, month),
    ensures
        days(1970, 1, 1) == 0,
        days(year, month, day) + 1 == if day < days_in_month(year, month) {
            days(year, month, day + 1)
        } else if month < 12 {
            days(year, month + 1, 1)
        } else {
            days(year + 1, 1, 1)
        },
{
    assert forall|y: int, m: int, d: int| #[trigger] days(y, m, d) == days_before_march(
        march_year(y, m),
    ) + (153 * (march_month(m) - 3) + 2) / 5 + d - 1 - 719468 by {}
    assert(days_before_march(1969) == 719162);
    lemma_march_to_march(year);
    if day == days_in_month(year, month) {
        if month == 2 {
            assert((153 * (march_month(2) - 3) + 2) / 5 == 337);
            assert((153 * (march_month(3) - 3) + 2) / 5 == 0);
        } else if month == 12 {
            assert((153 * (march_month(12) - 3) + 2) / 5 == 275);
            assert((153 * (march_month(1) - 3) + 2) / 5 == 306);
        } else {
            lemma_month_step(month);
        }
    }
}

/// Within a year that begins in March, the months follow each other without gaps.
proof fn lemma_month_step(month: int)
    requires
        1 <= month < 12,
        month != 2,
    ensures
        (153 * (march_month(month + 1) - 3) + 2) / 5 - (153 * (march_month(month) - 3) + 2) / 5
            == days_in_month(0, month),
{
}

} // verus!
