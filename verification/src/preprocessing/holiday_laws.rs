//! Which days are holidays, by month, day and weekday, and when Easter is.

use crate::preprocessing::calendar;
use crate::preprocessing::holiday_encoder;
use crate::preprocessing::holiday_encoder::HolidayCountry;
use crate::preprocessing::holiday_encoder::HolidayRule;
use crate::preprocessing::holiday_encoder::Nth;
use crate::preprocessing::holiday_encoder::RuleKind;
use vstd::prelude::*;

verus! {

/// How many days after the twenty-first of March the full moon of Easter is: in
/// each century nineteen days later from year to year, within thirty, and by the
/// century earlier or later; but a day earlier where that would be the
/// twenty-ninth day, or the twenty-eighth in the later years of the moon's cycle.
pub open spec fn full_moon(y: int) -> int {
    let (year, century) = (y % 19, y / 100);
    let r = (19 * year + 15 + century - century / 4 - (8 * century + 13) / 25) % 30;
    if r == 29 {
        28
    } else if r == 28 && year > 10 {
        27
    } else {
        r
    }
}

/// Easter is the first Sunday after the full moon of Easter.
pub proof fn law_easter_follows_the_full_moon(y: int)
    ensures
        ({
            let moon = calendar::day_number(y, 3, 21) + full_moon(y);
            &&& calendar::weekday(calendar::easter(y)) == 6
            &&& moon < calendar::easter(y) <= moon + 7
        }),
{
    calendar::law_easter(y);
    let a = y % 19;
    let b = y / 100;
    let c = y % 100;
    let d = b / 4;
    let e = b % 4;
    let f = (b + 8) / 25;
    let g = (b - f + 1) / 3;
    let h = (19 * a + b - d - g + 15) % 30;
    let i = c / 4;
    let k = c % 4;
    let l = (32 + 2 * e + 2 * i - h - k) % 7;
    let m = (a + 11 * h + 22 * l) / 451;
    lemma_moon_of_century(b);
    assert(0 <= a <= 18 && 0 <= h <= 29 && 0 <= l <= 6);
    assert(calendar::computus(y) == h + l - 7 * m);
    assert(m == 0 || m == 1);
    assert(m == 1 <==> a + 11 * h + 22 * l >= 451);
    assert(calendar::day_number(y, 3, 22) == calendar::day_number(y, 3, 21) + 1);
}

/// The moon falls back eight days in twenty-five centuries.
proof fn lemma_moon_of_century(b: int)
    ensures
        (b - (b + 8) / 25 + 1) / 3 == (8 * b + 13) / 25,
{
    let (q, r) = (b / 25, b % 25);
    assert(b == 25 * q + r && 0 <= r < 25);
    assert((b + 8) / 25 == q + (r + 8) / 25);
    assert((8 * b + 13) / 25 == 8 * q + (8 * r + 13) / 25);
    assert((b - (b + 8) / 25 + 1) / 3 == 8 * q + (r - (r + 8) / 25 + 1) / 3);
    assert(r == 0 || r == 1 || r == 2 || r == 3 || r == 4 || r == 5 || r == 6 || r == 7 || r == 8
        || r == 9 || r == 10 || r == 11 || r == 12 || r == 13 || r == 14 || r == 15 || r == 16 || r
        == 17 || r == 18 || r == 19 || r == 20 || r == 21 || r == 22 || r == 23 || r == 24);
}

/// Whether a date is the `n`-th day of a weekday in a month.
pub open spec fn is_nth(y: int, m: int, d: int, month: int, weekday: int, n: int) -> bool {
    m == month && calendar::weekday(calendar::day_number(y, m, d)) == weekday && 7 * (n - 1) < d
        <= 7 * n
}

/// Whether a date is the last day of a weekday in a month.
pub open spec fn is_last(y: int, m: int, d: int, month: int, weekday: int) -> bool {
    m == month && calendar::weekday(calendar::day_number(y, m, d)) == weekday
        && calendar::month_days(y, m) - 7 < d
}

/// Whether a date is so many days after Easter.
pub open spec fn after_easter(y: int, m: int, d: int, days: int) -> bool {
    calendar::day_number(y, m, d) == calendar::easter(y) + days
}

/// Whether a rule gives a date, by its month, day and weekday.
spec fn gives(rule: HolidayRule, y: int, m: int, d: int) -> bool {
    match rule.kind {
        RuleKind::Fixed { month, day } => m == month && d == day,
        RuleKind::NthWeekday { month, weekday, nth: Nth::FromStart(n) } => is_nth(
            y,
            m,
            d,
            month as int,
            weekday as int,
            n as int,
        ),
        RuleKind::NthWeekday { month, weekday, nth: Nth::Last } => is_last(
            y,
            m,
            d,
            month as int,
            weekday as int,
        ),
        RuleKind::EasterOffset { days } => after_easter(y, m, d, days as int),
    }
}

/// A rule gives one date.
proof fn lemma_gives(rule: HolidayRule, y: int, m: int, d: int)
    requires
        rule.sound(),
        calendar::date_exists(y, m, d),
    ensures
        rule.day_in(y) == calendar::day_number(y, m, d) <==> gives(rule, y, m, d),
{
    let z = calendar::day_number(y, m, d);
    calendar::lemma_before_month(y);
    match rule.kind {
        RuleKind::Fixed { month, day } => {
            if rule.day_in(y) == z {
                calendar::law_dates_round_trip(z, y, m, d);
                assert(calendar::date_exists(y, month as int, day as int));
            }
        },
        RuleKind::NthWeekday { month, weekday, nth: Nth::FromStart(n) } => {
            let (month, w, n) = (month as int, weekday as int, n as int);
            calendar::law_nth_weekday(y, month, w, n);
            let there = rule.day_in(y);
            let first = calendar::day_number(y, month, 1);
            let e = there - first + 1;
            assert(calendar::day_number(y, month, e) == there);
            assert(calendar::date_exists(y, month, e));
            if there == z {
                calendar::law_dates_round_trip(z, y, m, d);
            }
            if gives(rule, y, m, d) {
                assert(z == first + d - 1);
                lemma_same_weekday(z, there, w);
            }
        },
        RuleKind::NthWeekday { month, weekday, nth: Nth::Last } => {
            let (month, w) = (month as int, weekday as int);
            calendar::law_last_weekday(y, month, w);
            let there = rule.day_in(y);
            let first = calendar::day_number(y, month, 1);
            let e = there - first + 1;
            assert(calendar::day_number(y, month, e) == there);
            assert(calendar::date_exists(y, month, e));
            if there == z {
                calendar::law_dates_round_trip(z, y, m, d);
            }
            if gives(rule, y, m, d) {
                assert(z == first + d - 1);
                lemma_same_weekday(z, there, w);
            }
        },
        RuleKind::EasterOffset { days } => {},
    }
}

/// Days of the same weekday less than a week apart are the same.
proof fn lemma_same_weekday(a: int, b: int, w: int)
    requires
        calendar::weekday(a) == w,
        calendar::weekday(b) == w,
        -7 < a - b < 7,
    ensures
        a == b,
{
}

/// The rules of a country decide on its holidays.
proof fn lemma_holiday(country: HolidayCountry, y: int, m: int, d: int)
    requires
        calendar::date_exists(y, m, d),
    ensures
        holiday_encoder::is_holiday(country, calendar::day_number(y, m, d)) <==> exists|i: int|
            0 <= i < holiday_encoder::rules_of(country).len() && (
            #[trigger] holiday_encoder::rules_of(country)[i]).holds_in(y) && gives(
                holiday_encoder::rules_of(country)[i],
                y,
                m,
                d,
            ),
{
    let z = calendar::day_number(y, m, d);
    let all = holiday_encoder::rules_of(country);
    calendar::law_date_in_year(y, m, d);
    holiday_encoder::lemma_rules_sound(country);
    assert forall|i: int| 0 <= i < all.len() implies (#[trigger] all[i]).day_in(y) == z <==> gives(
        all[i],
        y,
        m,
        d,
    ) by {
        lemma_gives(all[i], y, m, d);
    }
}

/// The holidays of the United States: New Year, Martin Luther King's birthday since
/// 1986 and Washington's birthday on the third Mondays of January and February,
/// Memorial Day on the last Monday of May, Juneteenth since 2021, Independence Day,
/// Labor Day on the first Monday of September, Columbus Day on the second of
/// October, Veterans Day, Thanksgiving on the fourth Thursday of November, and
/// Christmas.
pub proof fn law_holidays_in_the_us(y: int, m: int, d: int)
    requires
        calendar::date_exists(y, m, d),
    ensures
        holiday_encoder::is_holiday(HolidayCountry::US, calendar::day_number(y, m, d)) <==> {
            ||| m == 1 && d == 1
            ||| y >= 1986 && is_nth(y, m, d, 1, 0, 3)
            ||| is_nth(y, m, d, 2, 0, 3)
            ||| is_last(y, m, d, 5, 0)
            ||| y >= 2021 && m == 6 && d == 19
            ||| m == 7 && d == 4
            ||| is_nth(y, m, d, 9, 0, 1)
            ||| is_nth(y, m, d, 10, 0, 2)
            ||| m == 11 && d == 11
            ||| is_nth(y, m, d, 11, 3, 4)
            ||| m == 12 && d == 25
        },
{
    lemma_holiday(HolidayCountry::US, y, m, d);
    let all = holiday_encoder::rules_of(HolidayCountry::US);
    assert(all.len() == 11);
    let met = |i: int| 0 <= i < all.len() && all[i].holds_in(y) && gives(all[i], y, m, d);
    assert(met(0) || met(1) || met(2) || met(3) || met(4) || met(5) || met(6) || met(7) || met(8)
        || met(9) || met(10) <==> {
        ||| m == 1 && d == 1
        ||| y >= 1986 && is_nth(y, m, d, 1, 0, 3)
        ||| is_nth(y, m, d, 2, 0, 3)
        ||| is_last(y, m, d, 5, 0)
        ||| y >= 2021 && m == 6 && d == 19
        ||| m == 7 && d == 4
        ||| is_nth(y, m, d, 9, 0, 1)
        ||| is_nth(y, m, d, 10, 0, 2)
        ||| m == 11 && d == 11
        ||| is_nth(y, m, d, 11, 3, 4)
        ||| m == 12 && d == 25
    });
}

/// The bank holidays of England and Wales: New Year since 1974, Good Friday, Easter
/// Monday, the first Monday of May since 1978, the last Mondays of May and August,
/// Christmas and the day after it.
pub proof fn law_holidays_in_england(y: int, m: int, d: int)
    requires
        calendar::date_exists(y, m, d),
    ensures
        holiday_encoder::is_holiday(HolidayCountry::GB, calendar::day_number(y, m, d)) <==> {
            ||| y >= 1974 && m == 1 && d == 1
            ||| after_easter(y, m, d, -2)
            ||| after_easter(y, m, d, 1)
            ||| y >= 1978 && is_nth(y, m, d, 5, 0, 1)
            ||| is_last(y, m, d, 5, 0)
            ||| is_last(y, m, d, 8, 0)
            ||| m == 12 && d == 25
            ||| m == 12 && d == 26
        },
{
    lemma_holiday(HolidayCountry::GB, y, m, d);
    let all = holiday_encoder::rules_of(HolidayCountry::GB);
    assert(all.len() == 8);
    let met = |i: int| 0 <= i < all.len() && all[i].holds_in(y) && gives(all[i], y, m, d);
    assert(met(0) || met(1) || met(2) || met(3) || met(4) || met(5) || met(6) || met(7) <==> {
        ||| y >= 1974 && m == 1 && d == 1
        ||| after_easter(y, m, d, -2)
        ||| after_easter(y, m, d, 1)
        ||| y >= 1978 && is_nth(y, m, d, 5, 0, 1)
        ||| is_last(y, m, d, 5, 0)
        ||| is_last(y, m, d, 8, 0)
        ||| m == 12 && d == 25
        ||| m == 12 && d == 26
    });
}

/// The holidays of all Germany: New Year, Good Friday, Easter Monday, the first of
/// May, Ascension thirty-nine days and Whit Monday fifty days after Easter, the third
/// of October since 1990, Christmas and the day after it.
pub proof fn law_holidays_in_germany(y: int, m: int, d: int)
    requires
        calendar::date_exists(y, m, d),
    ensures
        holiday_encoder::is_holiday(HolidayCountry::DE, calendar::day_number(y, m, d)) <==> {
            ||| m == 1 && d == 1
            ||| after_easter(y, m, d, -2)
            ||| after_easter(y, m, d, 1)
            ||| m == 5 && d == 1
            ||| after_easter(y, m, d, 39)
            ||| after_easter(y, m, d, 50)
            ||| y >= 1990 && m == 10 && d == 3
            ||| m == 12 && d == 25
            ||| m == 12 && d == 26
        },
{
    lemma_holiday(HolidayCountry::DE, y, m, d);
    let all = holiday_encoder::rules_of(HolidayCountry::DE);
    assert(all.len() == 9);
    let met = |i: int| 0 <= i < all.len() && all[i].holds_in(y) && gives(all[i], y, m, d);
    assert(met(0) || met(1) || met(2) || met(3) || met(4) || met(5) || met(6) || met(7) || met(8)
        <==> {
        ||| m == 1 && d == 1
        ||| after_easter(y, m, d, -2)
        ||| after_easter(y, m, d, 1)
        ||| m == 5 && d == 1
        ||| after_easter(y, m, d, 39)
        ||| after_easter(y, m, d, 50)
        ||| y >= 1990 && m == 10 && d == 3
        ||| m == 12 && d == 25
        ||| m == 12 && d == 26
    });
}

/// The holidays of France: New Year, Easter Monday, the first and the eighth of May,
/// Ascension, Whit Monday, the fourteenth of July, the fifteenth of August, the first
/// and the eleventh of November, and Christmas.
pub proof fn law_holidays_in_france(y: int, m: int, d: int)
    requires
        calendar::date_exists(y, m, d),
    ensures
        holiday_encoder::is_holiday(HolidayCountry::FR, calendar::day_number(y, m, d)) <==> {
            ||| m == 1 && d == 1
            ||| after_easter(y, m, d, 1)
            ||| m == 5 && (d == 1 || d == 8)
            ||| after_easter(y, m, d, 39)
            ||| after_easter(y, m, d, 50)
            ||| m == 7 && d == 14
            ||| m == 8 && d == 15
            ||| m == 11 && (d == 1 || d == 11)
            ||| m == 12 && d == 25
        },
{
    lemma_holiday(HolidayCountry::FR, y, m, d);
    let all = holiday_encoder::rules_of(HolidayCountry::FR);
    assert(all.len() == 11);
    let met = |i: int| 0 <= i < all.len() && all[i].holds_in(y) && gives(all[i], y, m, d);
    assert(met(0) || met(1) || met(2) || met(3) || met(4) || met(5) || met(6) || met(7) || met(8)
        || met(9) || met(10) <==> {
        ||| m == 1 && d == 1
        ||| after_easter(y, m, d, 1)
        ||| m == 5 && (d == 1 || d == 8)
        ||| after_easter(y, m, d, 39)
        ||| after_easter(y, m, d, 50)
        ||| m == 7 && d == 14
        ||| m == 8 && d == 15
        ||| m == 11 && (d == 1 || d == 11)
        ||| m == 12 && d == 25
    });
}

/// The holidays of Japan: New Year, the second Monday of January, the eleventh of
/// February, the Emperor's birthday on the twenty-third of February since 2020 and of
/// December from 1989 to 2018, the twenty-ninth of April, the third to the fifth of
/// May, the third Mondays of July and September, Mountain Day since 2016, the second
/// Monday of October, and the third and the twenty-third of November.
pub proof fn law_holidays_in_japan(y: int, m: int, d: int)
    requires
        calendar::date_exists(y, m, d),
    ensures
        holiday_encoder::is_holiday(HolidayCountry::JP, calendar::day_number(y, m, d)) <==> {
            ||| m == 1 && d == 1
            ||| is_nth(y, m, d, 1, 0, 2)
            ||| m == 2 && d == 11
            ||| y >= 2020 && m == 2 && d == 23
            ||| m == 4 && d == 29
            ||| m == 5 && 3 <= d <= 5
            ||| is_nth(y, m, d, 7, 0, 3)
            ||| y >= 2016 && m == 8 && d == 11
            ||| is_nth(y, m, d, 9, 0, 3)
            ||| is_nth(y, m, d, 10, 0, 2)
            ||| m == 11 && (d == 3 || d == 23)
            ||| 1989 <= y <= 2018 && m == 12 && d == 23
        },
{
    lemma_holiday(HolidayCountry::JP, y, m, d);
    let all = holiday_encoder::rules_of(HolidayCountry::JP);
    assert(all.len() == 15);
    let met = |i: int| 0 <= i < all.len() && all[i].holds_in(y) && gives(all[i], y, m, d);
    assert(met(0) || met(1) || met(2) || met(3) || met(4) || met(5) || met(6) || met(7) || met(8)
        || met(9) || met(10) || met(11) || met(12) || met(13) || met(14) <==> {
        ||| m == 1 && d == 1
        ||| is_nth(y, m, d, 1, 0, 2)
        ||| m == 2 && d == 11
        ||| y >= 2020 && m == 2 && d == 23
        ||| m == 4 && d == 29
        ||| m == 5 && 3 <= d <= 5
        ||| is_nth(y, m, d, 7, 0, 3)
        ||| y >= 2016 && m == 8 && d == 11
        ||| is_nth(y, m, d, 9, 0, 3)
        ||| is_nth(y, m, d, 10, 0, 2)
        ||| m == 11 && (d == 3 || d == 23)
        ||| 1989 <= y <= 2018 && m == 12 && d == 23
    });
}

/// The gazetted holidays of India: the twenty-sixth of January, Good Friday, the
/// fifteenth of August, the second of October, and Christmas.
pub proof fn law_holidays_in_india(y: int, m: int, d: int)
    requires
        calendar::date_exists(y, m, d),
    ensures
        holiday_encoder::is_holiday(HolidayCountry::IN, calendar::day_number(y, m, d)) <==> {
            ||| m == 1 && d == 26
            ||| after_easter(y, m, d, -2)
            ||| m == 8 && d == 15
            ||| m == 10 && d == 2
            ||| m == 12 && d == 25
        },
{
    lemma_holiday(HolidayCountry::IN, y, m, d);
    let all = holiday_encoder::rules_of(HolidayCountry::IN);
    assert(all.len() == 5);
    let met = |i: int| 0 <= i < all.len() && all[i].holds_in(y) && gives(all[i], y, m, d);
    assert(met(0) || met(1) || met(2) || met(3) || met(4) <==> {
        ||| m == 1 && d == 26
        ||| after_easter(y, m, d, -2)
        ||| m == 8 && d == 15
        ||| m == 10 && d == 2
        ||| m == 12 && d == 25
    });
}

/// The date that follows a date is a day later.
proof fn lemma_next_date(y: int, m: int, d: int)
    requires
        calendar::date_exists(y, m, d),
    ensures
        calendar::day_number(y, m, d) + 1 == if d < calendar::month_days(y, m) {
            calendar::day_number(y, m, d + 1)
        } else if m < 12 {
            calendar::day_number(y, m + 1, 1)
        } else {
            calendar::day_number(y + 1, 1, 1)
        },
{
    let before = calendar::days_before_month(y, m);
    assert(calendar::days_before_month(y, m + 1) == before + calendar::month_days(y, m));
    assert(calendar::days_before_month(y + 1, 1) == 0);
    if m == 12 {
        calendar::lemma_year_length(y);
        assert(calendar::days_before_month(y, 13) == before + calendar::month_days(y, 12));
    }
}

/// A day later is a weekday later.
proof fn lemma_next_weekday(z: int)
    ensures
        calendar::weekday(z + 1) == if calendar::weekday(z) == 6 {
            0
        } else {
            calendar::weekday(z) + 1
        },
{
}

/// The first of January 1970, a Thursday, is day zero; a date that follows another
/// is a day later, and a weekday later.
pub proof fn law_days_follow(y: int, m: int, d: int)
    requires
        calendar::date_exists(y, m, d),
    ensures
        calendar::day_number(1970, 1, 1) == 0,
        calendar::weekday(0) == 3,
        ({
            let z = calendar::day_number(y, m, d);
            let next = if d < calendar::month_days(y, m) {
                calendar::day_number(y, m, d + 1)
            } else if m < 12 {
                calendar::day_number(y, m + 1, 1)
            } else {
                calendar::day_number(y + 1, 1, 1)
            };
            &&& next == z + 1
            &&& calendar::weekday(next) == if calendar::weekday(z) == 6 {
                0
            } else {
                calendar::weekday(z) + 1
            }
        }),
{
    lemma_next_date(y, m, d);
    lemma_next_weekday(calendar::day_number(y, m, d));
    assert(calendar::days_before_month(1970, 1) == 0);
}

} // verus!
