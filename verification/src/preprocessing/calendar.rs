//! The proleptic Gregorian calendar.
//!
//! Days are counted from 1970-01-01, which is day `0`. Weekdays are counted
//! from Monday, which is `0`.

use vstd::prelude::*;

verus! {

/// Whether a year is a leap year.
pub open spec fn leap(y: int) -> bool {
    y % 4 == 0 && (y % 100 != 0 || y % 400 == 0)
}

/// The number of days of a month; `0` for a month that does not exist.
pub open spec fn month_days(y: int, m: int) -> int {
    if m == 1 || m == 3 || m == 5 || m == 7 || m == 8 || m == 10 || m == 12 {
        31
    } else if m == 4 || m == 6 || m == 9 || m == 11 {
        30
    } else if m == 2 {
        if leap(y) {
            29
        } else {
            28
        }
    } else {
        0
    }
}

/// The days of a year before a month.
pub open spec fn days_before_month(y: int, m: int) -> int
    decreases m,
{
    if m <= 1 {
        0
    } else {
        days_before_month(y, m - 1) + month_days(y, m - 1)
    }
}

/// The days before the first of January of a year, counted from the first of
/// January of the year `1`.
pub open spec fn days_before_year(y: int) -> int {
    365 * (y - 1) + (y - 1) / 4 - (y - 1) / 100 + (y - 1) / 400
}

/// The day of a date.
pub open spec fn day_number(y: int, m: int, d: int) -> int {
    days_before_year(y) + days_before_month(y, m) + (d - 1) - 719_162
}

/// Whether a date exists.
pub open spec fn date_exists(y: int, m: int, d: int) -> bool {
    1 <= m <= 12 && 1 <= d <= month_days(y, m)
}

/// Whether a day lies in a year.
pub open spec fn in_year(z: int, y: int) -> bool {
    day_number(y, 1, 1) <= z < day_number(y + 1, 1, 1)
}

/// The year of a day.
pub open spec fn year_of(z: int) -> int {
    choose|y: int| in_year(z, y)
}

/// The weekday of a day.
pub open spec fn weekday(z: int) -> int {
    (z + 3) % 7
}

/// The days of a year before each of its months.
pub proof fn lemma_before_month(y: int)
    ensures
        days_before_month(y, 1) == 0,
        days_before_month(y, 2) == 31,
        days_before_month(y, 3) == if leap(y) {
            60int
        } else {
            59
        },
        days_before_month(y, 4) == days_before_month(y, 3) + 31,
        days_before_month(y, 5) == days_before_month(y, 3) + 61,
        days_before_month(y, 6) == days_before_month(y, 3) + 92,
        days_before_month(y, 7) == days_before_month(y, 3) + 122,
        days_before_month(y, 8) == days_before_month(y, 3) + 153,
        days_before_month(y, 9) == days_before_month(y, 3) + 184,
        days_before_month(y, 10) == days_before_month(y, 3) + 214,
        days_before_month(y, 11) == days_before_month(y, 3) + 245,
        days_before_month(y, 12) == days_before_month(y, 3) + 275,
        days_before_month(y, 13) == days_before_month(y, 3) + 306,
{
    reveal_with_fuel(days_before_month, 14);
}

/// A year has as many days as its months together.
pub proof fn lemma_year_length(y: int)
    ensures
        days_before_year(y + 1) == days_before_year(y) + days_before_month(y, 13),
        days_before_year(y + 1) == days_before_year(y) + if leap(y) {
            366int
        } else {
            365
        },
{
    lemma_before_month(y);
    assert(y / 4 == (y - 1) / 4 + if y % 4 == 0 {
        1int
    } else {
        0
    });
    assert(y / 100 == (y - 1) / 100 + if y % 100 == 0 {
        1int
    } else {
        0
    });
    assert(y / 400 == (y - 1) / 400 + if y % 400 == 0 {
        1int
    } else {
        0
    });
    assert(y % 100 == 0 ==> y % 4 == 0);
    assert(y % 400 == 0 ==> y % 100 == 0);
}

/// Later years begin later.
proof fn lemma_years_ascend(a: int, b: int)
    requires
        a <= b,
    ensures
        days_before_year(a) <= days_before_year(b),
    decreases b - a,
{
    if a < b {
        lemma_years_ascend(a, b - 1);
        lemma_year_length(b - 1);
    }
}

/// A day lies in one year only.
pub proof fn law_one_year(z: int, y: int)
    requires
        in_year(z, y),
    ensures
        year_of(z) == y,
{
    let x = year_of(z);
    assert(in_year(z, x));
    lemma_before_month(x);
    lemma_before_month(x + 1);
    lemma_before_month(y);
    lemma_before_month(y + 1);
    if x < y {
        lemma_years_ascend(x + 1, y);
    } else if y < x {
        lemma_years_ascend(y + 1, x);
    }
}

/// A date lies in its year.
pub proof fn law_date_in_year(y: int, m: int, d: int)
    requires
        date_exists(y, m, d),
    ensures
        in_year(day_number(y, m, d), y),
        year_of(day_number(y, m, d)) == y,
{
    lemma_before_month(y);
    lemma_before_month(y + 1);
    lemma_year_length(y);
    law_one_year(day_number(y, m, d), y);
}

/// Two dates with the same day are the same date.
pub proof fn law_day_tells_date(y: int, m: int, d: int, x: int, n: int, e: int)
    requires
        date_exists(y, m, d),
        date_exists(x, n, e),
        day_number(y, m, d) == day_number(x, n, e),
    ensures
        y == x,
        m == n,
        d == e,
{
    law_date_in_year(y, m, d);
    law_date_in_year(x, n, e);
    lemma_before_month(y);
}

/// The day of a date.
pub fn days_from_civil(y: i32, m: u32, d: u32) -> (r: i64)
    requires
        1 <= m <= 12,
        1 <= d <= 31,
    ensures
        r == day_number(y as int, m as int, d as int),
{
    let shifted: i64 = if m <= 2 {
        y as i64 - 1
    } else {
        y as i64
    };
    let (era, yoe) = divided(shifted, 400);
    let mp: i64 = if m > 2 {
        m as i64 - 3
    } else {
        m as i64 + 9
    };
    let doy: i64 = (153 * mp + 2) / 5 + d as i64 - 1;
    let doe: i64 = yoe * 365 + yoe / 4 - yoe / 100 + doy;
    let r: i64 = era * 146_097 + doe - 719_468;
    proof {
        lemma_before_month(y as int);
        lemma_march_year(shifted as int, era as int, yoe as int);
        if m > 2 {
            lemma_year_length(y as int);
        }
    }
    r
}

/// The days before March of the year that begins there.
proof fn lemma_march_year(y: int, era: int, yoe: int)
    requires
        era == y / 400,
        yoe == y - era * 400,
    ensures
        0 <= yoe < 400,
        days_before_year(y + 1) == 365 * y + y / 4 - y / 100 + y / 400,
        era * 146_097 + yoe * 365 + yoe / 4 - yoe / 100 == 365 * y + y / 4 - y / 100 + y / 400,
{
    assert(y / 4 == era * 100 + yoe / 4);
    assert(y / 100 == era * 4 + yoe / 100);
}

/// What the days since the first of March of a 400-year era say of its year.
proof fn lemma_year_of_era(doe: int, yoe: int)
    requires
        0 <= doe < 146_097,
        yoe == (doe - doe / 1460 + doe / 36_524 - doe / 146_096) / 365,
    ensures
        0 <= yoe < 400,
        365 * yoe + yoe / 4 - yoe / 100 <= doe,
        doe <= 365 * yoe + yoe / 4 - yoe / 100 + 365,
        doe == 365 * yoe + yoe / 4 - yoe / 100 + 365 ==> leap(yoe + 1),
{
    let c = doe / 36_524;
    assert(0 <= c <= 4);
}

/// The date of a day.
pub fn civil_from_days(z: i32) -> (r: (i32, u32, u32))
    ensures
        date_exists(r.0 as int, r.1 as int, r.2 as int),
        day_number(r.0 as int, r.1 as int, r.2 as int) == z,
        r.0 == year_of(z as int),
        -5_900_000 <= r.0 <= 5_900_000,
{
    let shifted: i64 = z as i64 + 719_468;
    let (era, doe) = divided(shifted, 146_097);
    let yoe: i64 = (doe - doe / 1460 + doe / 36_524 - doe / 146_096) / 365;
    proof {
        lemma_year_of_era(doe as int, yoe as int);
    }
    let y: i64 = yoe + era * 400;
    let doy: i64 = doe - (365 * yoe + yoe / 4 - yoe / 100);
    let mp: i64 = (5 * doy + 2) / 153;
    proof {
        lemma_month_of_march_year(doy as int, mp as int);
    }
    let d: i64 = doy - (153 * mp + 2) / 5 + 1;
    let m: i64 = if mp < 10 {
        mp + 3
    } else {
        mp - 9
    };
    let year: i64 = if m <= 2 {
        y + 1
    } else {
        y
    };
    proof {
        lemma_civil(
            era as int,
            doe as int,
            yoe as int,
            doy as int,
            mp as int,
            year as int,
            m as int,
            d as int,
        );
        law_date_in_year(year as int, m as int, d as int);
    }
    (year as i32, m as u32, d as u32)
}

/// The date that the parts of a day of an era give.
proof fn lemma_civil(
    era: int,
    doe: int,
    yoe: int,
    doy: int,
    mp: int,
    year: int,
    m: int,
    d: int,
)
    requires
        0 <= yoe < 400,
        doe == 365 * yoe + yoe / 4 - yoe / 100 + doy,
        0 <= doy <= 365,
        doy == 365 ==> leap(yoe + 1),
        mp == (5 * doy + 2) / 153,
        d == doy - (153 * mp + 2) / 5 + 1,
        m == if mp < 10 {
            mp + 3
        } else {
            mp - 9
        },
        year == era * 400 + yoe + if m <= 2 {
            1int
        } else {
            0
        },
    ensures
        date_exists(year, m, d),
        day_number(year, m, d) == era * 146_097 + doe - 719_468,
{
    let y = era * 400 + yoe;
    assert(y / 400 == era);
    lemma_march_year(y, era, yoe);
    lemma_leap_of_era(y + 1, era, yoe + 1);
    lemma_month_of_march_year(doy, mp);
    lemma_before_month(year);
    lemma_year_length(y);
    let before = days_before_month(year, 3);
    if m <= 2 {
        assert(year == y + 1);
        assert(mp == 10 || mp == 11);
        if mp == 10 {
            assert(d == doy - 306 + 1);
        } else {
            assert(d == doy - 337 + 1);
        }
    } else {
        assert(year == y);
        assert(days_before_month(year, m) == before + (153 * mp + 2) / 5) by {
            if mp == 0 {
            } else if mp == 1 {
            } else if mp == 2 {
            } else if mp == 3 {
            } else if mp == 4 {
            } else if mp == 5 {
            } else if mp == 6 {
            } else if mp == 7 {
            } else if mp == 8 {
            } else {
                assert(mp == 9);
            }
        }
    }
}

/// A number divided by a positive one, rounding down, and what is left.
fn divided(x: i64, k: i64) -> (r: (i64, i64))
    requires
        -0x4000_0000_0000_0000 <= x <= 0x4000_0000_0000_0000,
        0 < k <= 0x1000_0000,
    ensures
        r.0 == (x as int) / (k as int),
        r.1 == (x as int) % (k as int),
        0 <= r.1 < k,
{
    let q: i64 = if x >= 0 {
        x / k
    } else {
        -((k - 1 - x) / k)
    };
    proof {
        if x < 0 {
            let n = k - 1 - x;
            let t = n / (k as int);
            let s = n % (k as int);
            vstd::arithmetic::div_mod::lemma_fundamental_div_mod(n, k as int);
            vstd::arithmetic::div_mod::lemma_mod_bound(n, k as int);
            assert(x == (-t) * k + (k - 1 - s)) by (nonlinear_arith)
                requires
                    n == k * t + s,
                    n == k - 1 - x,
            ;
            vstd::arithmetic::div_mod::lemma_fundamental_div_mod_converse(
                x as int,
                k as int,
                -t,
                k - 1 - s,
            );
        }
        vstd::arithmetic::div_mod::lemma_fundamental_div_mod(x as int, k as int);
        vstd::arithmetic::div_mod::lemma_mod_bound(x as int, k as int);
        assert(q == (x as int) / (k as int));
        assert(k * q == x - (x as int) % (k as int)) by (nonlinear_arith)
            requires
                x == k * ((x as int) / (k as int)) + (x as int) % (k as int),
                q == (x as int) / (k as int),
        ;
        assert(q * k == k * q) by (nonlinear_arith);
    }
    (q, x - q * k)
}

/// Every day has a date.
pub proof fn law_every_day_has_a_date(z: int) -> (r: (int, int, int))
    ensures
        date_exists(r.0, r.1, r.2),
        day_number(r.0, r.1, r.2) == z,
        in_year(z, r.0),
        year_of(z) == r.0,
{
    let shifted = z + 719_468;
    let era = shifted / 146_097;
    let doe = shifted % 146_097;
    let yoe = (doe - doe / 1460 + doe / 36_524 - doe / 146_096) / 365;
    lemma_year_of_era(doe, yoe);
    let doy = doe - (365 * yoe + yoe / 4 - yoe / 100);
    let mp = (5 * doy + 2) / 153;
    lemma_month_of_march_year(doy, mp);
    let d = doy - (153 * mp + 2) / 5 + 1;
    let m = if mp < 10 {
        mp + 3
    } else {
        mp - 9
    };
    let year = era * 400 + yoe + if m <= 2 {
        1int
    } else {
        0
    };
    lemma_civil(era, doe, yoe, doy, mp, year, m, d);
    law_date_in_year(year, m, d);
    (year, m, d)
}

/// Later days do not lie in earlier years.
pub proof fn law_years_follow_days(a: int, b: int)
    requires
        a <= b,
    ensures
        year_of(a) <= year_of(b),
{
    let (x, _m, _d) = law_every_day_has_a_date(a);
    let (y, _n, _e) = law_every_day_has_a_date(b);
    if y < x {
        lemma_years_ascend(y + 1, x);
        lemma_before_month(x);
        lemma_before_month(y + 1);
    }
}

/// Whether a year is a leap year shows within its era.
proof fn lemma_leap_of_era(y: int, era: int, yoe: int)
    requires
        y == era * 400 + yoe,
    ensures
        leap(y) == leap(yoe),
{
    assert(y % 4 == yoe % 4);
    assert(y % 100 == yoe % 100);
    assert(y % 400 == yoe % 400);
}

/// The month and day of a day of the year that begins in March.
proof fn lemma_month_of_march_year(doy: int, mp: int)
    requires
        0 <= doy <= 365,
        mp == (5 * doy + 2) / 153,
    ensures
        0 <= mp <= 11,
        (153 * mp + 2) / 5 <= doy,
        mp < 11 ==> doy < (153 * (mp + 1) + 2) / 5,
{
}

/// A day and the date it has go back and forth.
pub proof fn law_dates_round_trip(z: int, y: int, m: int, d: int)
    requires
        date_exists(y, m, d),
        day_number(y, m, d) == z,
    ensures
        year_of(z) == y,
        forall|x: int, n: int, e: int|
            date_exists(x, n, e) && #[trigger] day_number(x, n, e) == z ==> x == y && n == m && e
                == d,
{
    law_date_in_year(y, m, d);
    assert forall|x: int, n: int, e: int|
        date_exists(x, n, e) && #[trigger] day_number(x, n, e) == z implies x == y && n == m && e
        == d by {
        law_day_tells_date(x, n, e, y, m, d);
    }
}

/// The weekday of a day.
pub fn weekday_from_days(z: i64) -> (r: u32)
    ensures
        r == weekday(z as int),
        r < 7,
{
    let left: i64 = if z >= 0 {
        z % 7
    } else {
        6 - (-(z + 1)) % 7
    };
    assert(left == (z as int) % 7);
    ((left + 3) % 7) as u32
}

/// Whether a year is a leap year.
pub fn is_leap_year(year: i32) -> (r: bool)
    ensures
        r == leap(year as int),
{
    let (_fours, four) = divided(year as i64, 4);
    let (_hundreds, hundred) = divided(year as i64, 100);
    let (_eras, era) = divided(year as i64, 400);
    four == 0 && (hundred != 0 || era == 0)
}

/// The number of days of a month; `0` for a month that does not exist.
pub fn days_in_month(year: i32, month: u32) -> (r: u32)
    ensures
        r == month_days(year as int, month as int),
{
    if month == 2 {
        if is_leap_year(year) {
            29
        } else {
            28
        }
    } else if month == 4 || month == 6 || month == 9 || month == 11 {
        30
    } else if 1 <= month && month <= 12 {
        31
    } else {
        0
    }
}

/// The `n`-th day of a weekday in a month.
pub open spec fn nth_weekday(y: int, m: int, w: int, n: int) -> int {
    let first = day_number(y, m, 1);
    first + (w - weekday(first)) % 7 + 7 * (n - 1)
}

/// The last day of a weekday in a month.
pub open spec fn last_weekday(y: int, m: int, w: int) -> int {
    let end = day_number(y, m, month_days(y, m));
    end - (weekday(end) - w) % 7
}

/// The `n`-th day of a weekday falls on it, with `n - 1` of its kind before it
/// in the month.
pub proof fn law_nth_weekday(y: int, m: int, w: int, n: int)
    requires
        0 <= w < 7,
        n >= 1,
    ensures
        weekday(nth_weekday(y, m, w, n)) == w,
        day_number(y, m, 1) + 7 * (n - 1) <= nth_weekday(y, m, w, n) < day_number(y, m, 1) + 7 * n,
{
    let first = day_number(y, m, 1);
    let offset = (w - weekday(first)) % 7;
    assert(weekday(first + offset) == w);
    assert(weekday(first + offset + 7 * (n - 1)) == weekday(first + offset));
}

/// The last day of a weekday falls on it, in the last seven days of the month.
pub proof fn law_last_weekday(y: int, m: int, w: int)
    requires
        0 <= w < 7,
        1 <= m <= 12,
    ensures
        weekday(last_weekday(y, m, w)) == w,
        day_number(y, m, month_days(y, m)) - 7 < last_weekday(y, m, w) <= day_number(
            y,
            m,
            month_days(y, m),
        ),
{
    let end = day_number(y, m, month_days(y, m));
    let offset = (weekday(end) - w) % 7;
    assert(weekday(end - offset) == w);
}

/// The bounds within which days of years of 32 bits lie.
proof fn lemma_day_bounds(y: int, m: int, d: int)
    requires
        -0x8000_0000 <= y <= 0x7fff_ffff,
        1 <= m <= 12,
        1 <= d <= 31,
    ensures
        -900_000_000_000 <= day_number(y, m, d) <= 900_000_000_000,
{
    lemma_before_month(y);
}

/// The `n`-th day of a weekday in a month.
pub fn nth_weekday_days(year: i32, month: u32, weekday: u32, n: u32) -> (r: i64)
    requires
        1 <= month <= 12,
        weekday < 7,
        n >= 1,
    ensures
        r == nth_weekday(year as int, month as int, weekday as int, n as int),
{
    proof {
        lemma_day_bounds(year as int, month as int, 1);
    }
    let first: i64 = days_from_civil(year, month, 1);
    let start: u32 = weekday_from_days(first);
    let offset: u32 = (weekday + 7 - start) % 7;
    assert(offset == (weekday - start) % 7);
    first + offset as i64 + (n as i64 - 1) * 7
}

/// The last day of a weekday in a month.
pub fn last_weekday_days(year: i32, month: u32, weekday: u32) -> (r: i64)
    requires
        1 <= month <= 12,
        weekday < 7,
    ensures
        r == last_weekday(year as int, month as int, weekday as int),
{
    let length: u32 = days_in_month(year, month);
    proof {
        lemma_day_bounds(year as int, month as int, 1);
    }
    let first: i64 = days_from_civil(year, month, 1);
    let start: u32 = weekday_from_days(first);
    let offset: u32 = (weekday + 7 - start) % 7;
    let last: i64 = first + offset as i64 + 28;
    let end: i64 = days_from_civil(year, month, length);
    proof {
        assert(end == first + length - 1);
        assert(28 <= length <= 31);
        assert(offset == (weekday - start) % 7);
        lemma_last_weekday(first as int, length as int, weekday as int);
    }
    if last > end {
        last - 7
    } else {
        last
    }
}

/// Counting from the first of a month finds its last day of a weekday.
proof fn lemma_last_weekday(first: int, length: int, w: int)
    requires
        28 <= length <= 31,
        0 <= w < 7,
    ensures
        ({
            let end = first + length - 1;
            let last = first + (w - weekday(first)) % 7 + 28;
            end - (weekday(end) - w) % 7 == if last > end {
                last - 7
            } else {
                last
            }
        }),
{
    let end = first + length - 1;
    let offset = (w - weekday(first)) % 7;
    let last = first + offset + 28;
    let found = if last > end {
        last - 7
    } else {
        last
    };
    let back = (weekday(end) - w) % 7;
    lemma_forward(first, w);
    lemma_weeks(first + offset, 3);
    lemma_weeks(first + offset, 4);
    lemma_backward(end, w);
    assert(0 <= offset < 7);
    assert(0 <= back < 7);
    lemma_same_weekday(found, end - back);
}

/// The next day of a weekday.
proof fn lemma_forward(z: int, w: int)
    requires
        0 <= w < 7,
    ensures
        weekday(z + (w - weekday(z)) % 7) == w,
        0 <= (w - weekday(z)) % 7 < 7,
{
}

/// The day of a weekday before.
proof fn lemma_backward(z: int, w: int)
    requires
        0 <= w < 7,
    ensures
        weekday(z - (weekday(z) - w) % 7) == w,
        0 <= (weekday(z) - w) % 7 < 7,
{
}

/// Whole weeks do not change the weekday.
proof fn lemma_weeks(z: int, n: int)
    ensures
        weekday(z + 7 * n) == weekday(z),
{
}

/// Days of the same weekday within seven days are the same day.
proof fn lemma_same_weekday(a: int, b: int)
    requires
        weekday(a) == weekday(b),
        -7 < a - b < 7,
    ensures
        a == b,
{
}

/// How many days after the twenty-second of March Easter Sunday falls: the
/// Gregorian computus.
pub open spec fn computus(y: int) -> int {
    let a = y % 19;
    let b = y / 100;
    let c = y % 100;
    let d = b / 4;
    let e = b % 4;
    let f = (b + 8) / 25;
    let g = (b - f + 1) / 3;
    let h = (19 * a + b - d - g + 15) % 30;
    let i = c / 4;
    let k = c % 4;
    let l = (32 + 2 * e + 2 * i - h - k) % 7;
    let m = (a + 11 * h + 22 * l) / 451;
    h + l - 7 * m
}

/// Easter Sunday.
pub open spec fn easter(y: int) -> int {
    day_number(y, 3, 22) + computus(y)
}

/// Easter falls on a Sunday, between the twenty-second of March and the
/// twenty-fifth of April.
pub proof fn law_easter(y: int)
    ensures
        weekday(easter(y)) == 6,
        day_number(y, 3, 22) <= easter(y) <= day_number(y, 4, 25),
        0 <= computus(y) <= 34,
{
    lemma_before_month(y);
    lemma_computus_range(y);
    lemma_easter_sunday(y);
}

/// The range of the computus.
proof fn lemma_computus_range(y: int)
    ensures
        0 <= computus(y) <= 34,
{
    let a = y % 19;
    let b = y / 100;
    let c = y % 100;
    let d = b / 4;
    let e = b % 4;
    let f = (b + 8) / 25;
    let g = (b - f + 1) / 3;
    let h = (19 * a + b - d - g + 15) % 30;
    let i = c / 4;
    let k = c % 4;
    let l = (32 + 2 * e + 2 * i - h - k) % 7;
    let m = (a + 11 * h + 22 * l) / 451;
    assert(0 <= a <= 18 && 0 <= h <= 29 && 0 <= l <= 6);
    assert(0 <= m <= 1);
    if m == 1 {
        assert(a + 11 * h + 22 * l >= 451);
        assert(11 * (h + 2 * l) >= 433);
        assert(h + 2 * l >= 40);
        assert(h + l >= 34);
    } else {
        assert(a + 11 * h + 22 * l <= 450);
        assert(h + 2 * l <= 40);
    }
}

/// Easter falls on a Sunday.
proof fn lemma_easter_sunday(y: int)
    ensures
        weekday(easter(y)) == 6,
{
    let b = y / 100;
    let c = y % 100;
    let d = b / 4;
    let e = b % 4;
    let i = c / 4;
    let k = c % 4;
    let a = y % 19;
    let f = (b + 8) / 25;
    let g = (b - f + 1) / 3;
    let h = (19 * a + b - d - g + 15) % 30;
    let l = (32 + 2 * e + 2 * i - h - k) % 7;
    let m = (a + 11 * h + 22 * l) / 451;
    lemma_march(y, d, e, i, k);
    lemma_sunday(d, e, i, k, h, l, m);
}

/// The twenty-second of March of a year, from the parts of the year.
proof fn lemma_march(y: int, d: int, e: int, i: int, k: int)
    requires
        d == y / 100 / 4,
        e == y / 100 % 4,
        i == y % 100 / 4,
        k == y % 100 % 4,
    ensures
        day_number(y, 3, 22) == 146_097 * d + 36_524 * e + 1461 * i + 365 * k - 719_447,
{
    let b = y / 100;
    let c = y % 100;
    assert(y == 100 * b + c);
    assert(b == 4 * d + e);
    assert(c == 4 * i + k);
    assert(y == 400 * d + 100 * e + 4 * i + k);
    assert(y / 4 == 100 * d + 25 * e + i);
    assert(y / 400 == d);
    lemma_before_month(y);
    lemma_year_length(y);
    assert(days_before_year(y + 1) == 365 * y + y / 4 - y / 100 + y / 400);
}

/// The weekday of Easter, from the parts of the year.
proof fn lemma_sunday(d: int, e: int, i: int, k: int, h: int, l: int, m: int)
    requires
        l == (32 + 2 * e + 2 * i - h - k) % 7,
    ensures
        weekday(
            146_097 * d + 36_524 * e + 1461 * i + 365 * k - 719_447 + h + l - 7 * m,
        ) == 6,
{
    let q = (32 + 2 * e + 2 * i - h - k) / 7;
    assert(32 + 2 * e + 2 * i - h - k == 7 * q + l);
    let z = 146_097 * d + 36_524 * e + 1461 * i + 365 * k - 719_447 + h + l - 7 * m;
    let w = 20_871 * d + 5218 * e + 209 * i + 52 * k - 102_774 - m - q;
    assert(z + 3 == 7 * w + 6);
}

/// Easter Sunday.
pub fn easter_days(year: i32) -> (r: i64)
    ensures
        r == easter(year as int),
{
    let y: i64 = year as i64;
    let (_nineteens, a) = divided(y, 19);
    let (b, c) = divided(y, 100);
    let (d, e) = divided(b, 4);
    let (f, _f_rest) = divided(b + 8, 25);
    let (g, _g_rest) = divided(b - f + 1, 3);
    let (_h_times, h) = divided(19 * a + b - d - g + 15, 30);
    let i: i64 = c / 4;
    let k: i64 = c % 4;
    let (_l_times, l) = divided(32 + 2 * e + 2 * i - h - k, 7);
    let m: i64 = (a + 11 * h + 22 * l) / 451;
    let x: i64 = h + l - 7 * m;
    proof {
        lemma_computus_range(year as int);
        assert(x == computus(year as int));
        lemma_before_month(year as int);
    }
    let month: i64 = (x + 114) / 31;
    let day: i64 = (x + 114) % 31 + 1;
    days_from_civil(year, month as u32, day as u32)
}

} // verus!
