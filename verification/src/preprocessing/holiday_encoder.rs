//! Holidays of a country.
//!
//! The calendars are rules: fixed dates, the first, second, third, fourth or
//! last weekday of a month, and days before or after Easter Sunday. Holidays
//! that no such rule gives are not marked, nor are substitute days.

use crate::double::Double;
use crate::error;
use crate::error::Error;
use crate::error::ErrorView;
use crate::error::Problem;
use crate::frame;
use crate::frame::Cells;
use crate::frame::CellsView;
use crate::frame::Frame;
use crate::frame::FrameView;
use crate::frame::Number;
use crate::frame::Resolution;
use crate::frame::Sheet;
use crate::frame::SheetColumn;
use crate::frame::SheetColumnView;
use crate::frame::SheetView;
use crate::frame::Values;
use crate::frame::ValuesView;
use crate::preprocessing::calendar;
use crate::preprocessing::dates;
use crate::preprocessing::encoder;
use crate::program::Program;
use crate::program::Term;
use crate::text;
use crate::text::Text;
use polars::prelude::DataType;
use polars::prelude::Int64Chunked;
use polars::prelude::IntoSeries;
use polars::prelude::TimeUnit;
use std::collections::HashSet;
use vstd::prelude::*;

verus! {

/// A country whose holidays are known.
#[derive(Clone, Copy, Debug, PartialEq, Eq, Structural)]
pub enum HolidayCountry {
    /// The federal holidays of the United States.
    US,
    /// The bank holidays of England and Wales.
    GB,
    /// The nationwide holidays of Germany.
    DE,
    /// The national holidays of France.
    FR,
    /// The national holidays of Japan, in the current era, without the
    /// equinoxes.
    JP,
    /// Gazetted holidays of the central government of India.
    IN,
}

/// Which day of a weekday in a month.
#[derive(Clone, Copy, Debug, PartialEq, Eq, Structural)]
pub enum Nth {
    /// The first, second, and so on.
    FromStart(u32),
    /// The last one.
    Last,
}

/// How a rule finds a day of a year.
#[derive(Clone, Copy, Debug, PartialEq, Eq, Structural)]
pub enum RuleKind {
    /// A date.
    Fixed { month: u32, day: u32 },
    /// A day of a weekday in a month.
    NthWeekday { month: u32, weekday: u32, nth: Nth },
    /// So many days after Easter Sunday; before it where negative.
    EasterOffset { days: i32 },
}

/// A holiday, and the years in which it is one.
#[derive(Clone, Copy, Debug, PartialEq, Eq, Structural)]
pub struct HolidayRule {
    pub kind: RuleKind,
    /// The first year, if there is one.
    pub since: Option<i32>,
    /// The last year, if there is one.
    pub until: Option<i32>,
}

/// The widest span of years whose holidays are kept ready.
pub const MAX_CACHED_YEARS: i64 = 1_000;

/// A date.
pub open spec fn fixed_rule(month: u32, day: u32) -> RuleKind {
    RuleKind::Fixed { month, day }
}

/// The `n`-th day of a weekday in a month.
pub open spec fn nth_rule(month: u32, weekday: u32, n: u32) -> RuleKind {
    RuleKind::NthWeekday { month, weekday, nth: Nth::FromStart(n) }
}

/// The last day of a weekday in a month.
pub open spec fn last_rule(month: u32, weekday: u32) -> RuleKind {
    RuleKind::NthWeekday { month, weekday, nth: Nth::Last }
}

/// So many days after Easter Sunday.
pub open spec fn easter_rule(days: i32) -> RuleKind {
    RuleKind::EasterOffset { days }
}

/// A holiday of every year.
pub open spec fn always_rule(kind: RuleKind) -> HolidayRule {
    HolidayRule { kind, since: None, until: None }
}

/// A holiday from a year on.
pub open spec fn since_rule(kind: RuleKind, year: i32) -> HolidayRule {
    HolidayRule { kind, since: Some(year), until: None }
}

/// A holiday from one year to another.
pub open spec fn between_rule(kind: RuleKind, from: i32, to: i32) -> HolidayRule {
    HolidayRule { kind, since: Some(from), until: Some(to) }
}

/// The holidays of a country.
pub open spec fn rules_of(country: HolidayCountry) -> Seq<HolidayRule> {
    match country {
        HolidayCountry::US => seq![
            always_rule(fixed_rule(1, 1)),
            since_rule(nth_rule(1, 0, 3), 1986),
            always_rule(nth_rule(2, 0, 3)),
            always_rule(last_rule(5, 0)),
            since_rule(fixed_rule(6, 19), 2021),
            always_rule(fixed_rule(7, 4)),
            always_rule(nth_rule(9, 0, 1)),
            always_rule(nth_rule(10, 0, 2)),
            always_rule(fixed_rule(11, 11)),
            always_rule(nth_rule(11, 3, 4)),
            always_rule(fixed_rule(12, 25)),
        ],
        HolidayCountry::GB => seq![
            since_rule(fixed_rule(1, 1), 1974),
            always_rule(easter_rule(-2i32)),
            always_rule(easter_rule(1)),
            since_rule(nth_rule(5, 0, 1), 1978),
            always_rule(last_rule(5, 0)),
            always_rule(last_rule(8, 0)),
            always_rule(fixed_rule(12, 25)),
            always_rule(fixed_rule(12, 26)),
        ],
        HolidayCountry::DE => seq![
            always_rule(fixed_rule(1, 1)),
            always_rule(easter_rule(-2i32)),
            always_rule(easter_rule(1)),
            always_rule(fixed_rule(5, 1)),
            always_rule(easter_rule(39)),
            always_rule(easter_rule(50)),
            since_rule(fixed_rule(10, 3), 1990),
            always_rule(fixed_rule(12, 25)),
            always_rule(fixed_rule(12, 26)),
        ],
        HolidayCountry::FR => seq![
            always_rule(fixed_rule(1, 1)),
            always_rule(easter_rule(1)),
            always_rule(fixed_rule(5, 1)),
            always_rule(fixed_rule(5, 8)),
            always_rule(easter_rule(39)),
            always_rule(easter_rule(50)),
            always_rule(fixed_rule(7, 14)),
            always_rule(fixed_rule(8, 15)),
            always_rule(fixed_rule(11, 1)),
            always_rule(fixed_rule(11, 11)),
            always_rule(fixed_rule(12, 25)),
        ],
        HolidayCountry::JP => seq![
            always_rule(fixed_rule(1, 1)),
            always_rule(nth_rule(1, 0, 2)),
            always_rule(fixed_rule(2, 11)),
            since_rule(fixed_rule(2, 23), 2020),
            always_rule(fixed_rule(4, 29)),
            always_rule(fixed_rule(5, 3)),
            always_rule(fixed_rule(5, 4)),
            always_rule(fixed_rule(5, 5)),
            always_rule(nth_rule(7, 0, 3)),
            since_rule(fixed_rule(8, 11), 2016),
            always_rule(nth_rule(9, 0, 3)),
            always_rule(nth_rule(10, 0, 2)),
            always_rule(fixed_rule(11, 3)),
            always_rule(fixed_rule(11, 23)),
            between_rule(fixed_rule(12, 23), 1989, 2018),
        ],
        HolidayCountry::IN => seq![
            always_rule(fixed_rule(1, 26)),
            always_rule(easter_rule(-2i32)),
            always_rule(fixed_rule(8, 15)),
            always_rule(fixed_rule(10, 2)),
            always_rule(fixed_rule(12, 25)),
        ],
    }
}

impl HolidayRule {
    /// Whether the rule holds in a year.
    pub open spec fn holds_in(self, year: int) -> bool {
        &&& self.since matches Some(s) ==> year >= s
        &&& self.until matches Some(u) ==> year <= u
    }

    /// The day that the rule gives in a year.
    pub open spec fn day_in(self, year: int) -> int {
        match self.kind {
            RuleKind::Fixed { month, day } => calendar::day_number(year, month as int, day as int),
            RuleKind::NthWeekday { month, weekday, nth: Nth::FromStart(n) } => {
                calendar::nth_weekday(year, month as int, weekday as int, n as int)
            },
            RuleKind::NthWeekday { month, weekday, nth: Nth::Last } => calendar::last_weekday(
                year,
                month as int,
                weekday as int,
            ),
            RuleKind::EasterOffset { days } => calendar::easter(year) + days,
        }
    }

    /// Whether the rule gives a day of every year within that year.
    pub open spec fn sound(self) -> bool {
        match self.kind {
            RuleKind::Fixed { month, day } => 1 <= month <= 12 && 1 <= day
                <= calendar::month_days(1, month as int),
            RuleKind::NthWeekday { month, weekday, nth: Nth::FromStart(n) } => {
                1 <= month <= 12 && weekday < 7 && 1 <= n <= 4
            },
            RuleKind::NthWeekday { month, weekday, nth: Nth::Last } => 1 <= month <= 12 && weekday
                < 7,
            RuleKind::EasterOffset { days } => -80 <= days <= 240,
        }
    }

    /// Whether the rule holds in a year.
    fn applies(self, year: i32) -> (r: bool)
        ensures
            r == self.holds_in(year as int),
    {
        let begun: bool = match self.since {
            Some(s) => year >= s,
            None => true,
        };
        let going: bool = match self.until {
            Some(u) => year <= u,
            None => true,
        };
        begun && going
    }

    /// The day that the rule gives in a year.
    fn resolve(self, year: i32) -> (r: i64)
        requires
            self.sound(),
        ensures
            r == self.day_in(year as int),
    {
        match self.kind {
            RuleKind::Fixed { month, day } => calendar::days_from_civil(year, month, day),
            RuleKind::NthWeekday { month, weekday, nth } => match nth {
                Nth::FromStart(n) => calendar::nth_weekday_days(year, month, weekday, n),
                Nth::Last => calendar::last_weekday_days(year, month, weekday),
            },
            RuleKind::EasterOffset { days } => {
                proof {
                    calendar::law_easter(year as int);
                    calendar::lemma_before_month(year as int);
                }
                calendar::easter_days(year) + days as i64
            },
        }
    }
}

/// A sound rule gives a day of the year that it is asked for.
pub proof fn law_rule_stays_in_year(rule: HolidayRule, year: int)
    requires
        rule.sound(),
    ensures
        calendar::in_year(rule.day_in(year), year),
        calendar::year_of(rule.day_in(year)) == year,
{
    calendar::lemma_before_month(year);
    calendar::lemma_before_month(year + 1);
    calendar::lemma_year_length(year);
    match rule.kind {
        RuleKind::Fixed { month, day } => {
            calendar::law_date_in_year(year, month as int, day as int);
        },
        RuleKind::NthWeekday { month, weekday, nth: Nth::FromStart(n) } => {
            calendar::law_nth_weekday(year, month as int, weekday as int, n as int);
        },
        RuleKind::NthWeekday { month, weekday, nth: Nth::Last } => {
            calendar::law_last_weekday(year, month as int, weekday as int);
        },
        RuleKind::EasterOffset { days } => {
            calendar::law_easter(year);
        },
    }
    calendar::law_one_year(rule.day_in(year), year);
}

/// Whether the rules of a country make a day a holiday of a year.
pub open spec fn holiday_in(country: HolidayCountry, year: int, z: int) -> bool {
    exists|i: int|
        0 <= i < rules_of(country).len() && (#[trigger] rules_of(country)[i]).holds_in(year)
            && rules_of(country)[i].day_in(year) == z
}

/// Whether a day is a holiday of a country.
pub open spec fn is_holiday(country: HolidayCountry, z: int) -> bool {
    holiday_in(country, calendar::year_of(z), z)
}

/// The holidays of a country are sound rules.
pub proof fn lemma_rules_sound(country: HolidayCountry)
    ensures
        forall|i: int|
            0 <= i < rules_of(country).len() ==> (#[trigger] rules_of(country)[i]).sound(),
{
    let all = rules_of(country);
    assert forall|i: int| 0 <= i < all.len() implies (#[trigger] all[i]).sound() by {
        match country {
            HolidayCountry::US => {
                assert(all.len() == 11);
            },
            HolidayCountry::GB => {
                assert(all.len() == 8);
            },
            HolidayCountry::DE => {
                assert(all.len() == 9);
            },
            HolidayCountry::FR => {
                assert(all.len() == 11);
            },
            HolidayCountry::JP => {
                assert(all.len() == 15);
            },
            HolidayCountry::IN => {
                assert(all.len() == 5);
            },
        }
    }
}

/// A day that the rules of a year make a holiday lies in that year; so looking
/// at the rules of a day's own year finds every holiday.
pub proof fn law_holidays_by_year(country: HolidayCountry, year: int, z: int)
    requires
        holiday_in(country, year, z),
    ensures
        calendar::year_of(z) == year,
        is_holiday(country, z),
{
    lemma_rules_sound(country);
    let all = rules_of(country);
    let i = choose|i: int|
        0 <= i < all.len() && (#[trigger] all[i]).holds_in(year) && all[i].day_in(year) == z;
    law_rule_stays_in_year(all[i], year);
}

/// A holiday of every year.
fn always(kind: RuleKind) -> (r: HolidayRule)
    ensures
        r == always_rule(kind),
{
    HolidayRule { kind, since: None, until: None }
}

/// A holiday from a year on.
fn since(kind: RuleKind, year: i32) -> (r: HolidayRule)
    ensures
        r == since_rule(kind, year),
{
    HolidayRule { kind, since: Some(year), until: None }
}

/// A holiday from one year to another.
fn between(kind: RuleKind, from: i32, to: i32) -> (r: HolidayRule)
    ensures
        r == between_rule(kind, from, to),
{
    HolidayRule { kind, since: Some(from), until: Some(to) }
}

/// A date.
fn fixed(month: u32, day: u32) -> (r: RuleKind)
    ensures
        r == fixed_rule(month, day),
{
    RuleKind::Fixed { month, day }
}

/// The `n`-th day of a weekday in a month.
fn nth(month: u32, weekday: u32, n: u32) -> (r: RuleKind)
    ensures
        r == nth_rule(month, weekday, n),
{
    RuleKind::NthWeekday { month, weekday, nth: Nth::FromStart(n) }
}

/// The last day of a weekday in a month.
fn last(month: u32, weekday: u32) -> (r: RuleKind)
    ensures
        r == last_rule(month, weekday),
{
    RuleKind::NthWeekday { month, weekday, nth: Nth::Last }
}

/// So many days after Easter Sunday.
fn easter(days: i32) -> (r: RuleKind)
    ensures
        r == easter_rule(days),
{
    RuleKind::EasterOffset { days }
}

/// The holidays of a country.
fn rules(country: HolidayCountry) -> (r: Vec<HolidayRule>)
    ensures
        r@ == rules_of(country),
        forall|i: int| 0 <= i < r.len() ==> (#[trigger] r@[i]).sound(),
{
    proof {
        lemma_rules_sound(country);
    }
    let mut r: Vec<HolidayRule> = Vec::new();
    match country {
        HolidayCountry::US => {
            r.push(always(fixed(1, 1)));  // New Year's Day
            r.push(since(nth(1, 0, 3), 1986));  // Martin Luther King Jr. Day
            r.push(always(nth(2, 0, 3)));  // Washington's Birthday
            r.push(always(last(5, 0)));  // Memorial Day
            r.push(since(fixed(6, 19), 2021));  // Juneteenth
            r.push(always(fixed(7, 4)));  // Independence Day
            r.push(always(nth(9, 0, 1)));  // Labor Day
            r.push(always(nth(10, 0, 2)));  // Columbus Day
            r.push(always(fixed(11, 11)));  // Veterans Day
            r.push(always(nth(11, 3, 4)));  // Thanksgiving
            r.push(always(fixed(12, 25)));  // Christmas Day
        },
        HolidayCountry::GB => {
            r.push(since(fixed(1, 1), 1974));  // New Year's Day
            r.push(always(easter(-2)));  // Good Friday
            r.push(always(easter(1)));  // Easter Monday
            r.push(since(nth(5, 0, 1), 1978));  // Early May bank holiday
            r.push(always(last(5, 0)));  // Spring bank holiday
            r.push(always(last(8, 0)));  // Summer bank holiday
            r.push(always(fixed(12, 25)));  // Christmas Day
            r.push(always(fixed(12, 26)));  // Boxing Day
        },
        HolidayCountry::DE => {
            r.push(always(fixed(1, 1)));  // Neujahr
            r.push(always(easter(-2)));  // Karfreitag
            r.push(always(easter(1)));  // Ostermontag
            r.push(always(fixed(5, 1)));  // Tag der Arbeit
            r.push(always(easter(39)));  // Christi Himmelfahrt
            r.push(always(easter(50)));  // Pfingstmontag
            r.push(since(fixed(10, 3), 1990));  // Tag der Deutschen Einheit
            r.push(always(fixed(12, 25)));  // 1. Weihnachtstag
            r.push(always(fixed(12, 26)));  // 2. Weihnachtstag
        },
        HolidayCountry::FR => {
            r.push(always(fixed(1, 1)));  // Jour de l'An
            r.push(always(easter(1)));  // Lundi de Paques
            r.push(always(fixed(5, 1)));  // Fete du Travail
            r.push(always(fixed(5, 8)));  // Victoire 1945
            r.push(always(easter(39)));  // Ascension
            r.push(always(easter(50)));  // Lundi de Pentecote
            r.push(always(fixed(7, 14)));  // Fete Nationale
            r.push(always(fixed(8, 15)));  // Assomption
            r.push(always(fixed(11, 1)));  // Toussaint
            r.push(always(fixed(11, 11)));  // Armistice 1918
            r.push(always(fixed(12, 25)));  // Noel
        },
        HolidayCountry::JP => {
            r.push(always(fixed(1, 1)));  // New Year's Day
            r.push(always(nth(1, 0, 2)));  // Coming of Age Day
            r.push(always(fixed(2, 11)));  // National Foundation Day
            r.push(since(fixed(2, 23), 2020));  // Emperor's Birthday (Reiwa)
            r.push(always(fixed(4, 29)));  // Showa Day
            r.push(always(fixed(5, 3)));  // Constitution Memorial Day
            r.push(always(fixed(5, 4)));  // Greenery Day
            r.push(always(fixed(5, 5)));  // Children's Day
            r.push(always(nth(7, 0, 3)));  // Marine Day
            r.push(since(fixed(8, 11), 2016));  // Mountain Day
            r.push(always(nth(9, 0, 3)));  // Respect for the Aged Day
            r.push(always(nth(10, 0, 2)));  // Sports Day
            r.push(always(fixed(11, 3)));  // Culture Day
            r.push(always(fixed(11, 23)));  // Labor Thanksgiving Day
            r.push(between(fixed(12, 23), 1989, 2018));  // Emperor's Birthday (Heisei)
        },
        HolidayCountry::IN => {
            r.push(always(fixed(1, 26)));  // Republic Day
            r.push(always(easter(-2)));  // Good Friday
            r.push(always(fixed(8, 15)));  // Independence Day
            r.push(always(fixed(10, 2)));  // Gandhi Jayanti
            r.push(always(fixed(12, 25)));  // Christmas Day
        },
    }
    assert(r@ =~= rules_of(country));
    r
}

/// The days of those rules that hold in a year, in the order of the rules.
pub open spec fn days_by(list: Seq<HolidayRule>, year: int) -> Seq<int>
    decreases list.len(),
{
    if list.len() == 0 {
        Seq::empty()
    } else {
        let front = days_by(list.drop_last(), year);
        if list.last().holds_in(year) {
            front.push(list.last().day_in(year))
        } else {
            front
        }
    }
}

/// The United States have nine holidays before 1986, ten before 2021, and
/// eleven since.
pub proof fn law_holidays_of_the_us(year: int)
    ensures
        days_by(rules_of(HolidayCountry::US), year).len() == if year < 1986 {
            9
        } else if year < 2021 {
            10nat
        } else {
            11
        },
{
    reveal_with_fuel(days_by, 12);
}

/// The days that are holidays of a country by the rules of a year.
pub fn holidays_in_year(country: HolidayCountry, year: i32) -> (r: Vec<i64>)
    ensures
        r.len() == days_by(rules_of(country), year as int).len(),
        forall|k: int|
            0 <= k < r.len() ==> #[trigger] r@[k] == days_by(rules_of(country), year as int)[k],
        forall|z: i64| r@.contains(z) <==> #[trigger] holiday_in(country, year as int, z as int),
{
    let all: Vec<HolidayRule> = rules(country);
    let mut r: Vec<i64> = Vec::new();
    let mut i: usize = 0;
    while i < all.len()
        invariant
            i <= all.len(),
            all@ == rules_of(country),
            forall|k: int| 0 <= k < all.len() ==> (#[trigger] all@[k]).sound(),
            forall|k: int|
                0 <= k < i && (#[trigger] all@[k]).holds_in(year as int) ==> exists|j: int|
                    0 <= j < r.len() && #[trigger] r@[j] == all@[k].day_in(year as int),
            forall|j: int|
                0 <= j < r.len() ==> holiday_in(country, year as int, #[trigger] r@[j] as int),
            r.len() == days_by(all@.take(i as int), year as int).len(),
            forall|k: int|
                0 <= k < r.len() ==> #[trigger] r@[k] == days_by(
                    all@.take(i as int),
                    year as int,
                )[k],
        decreases all.len() - i,
    {
        let ghost before = r@;
        assert(all@.take(i + 1).drop_last() =~= all@.take(i as int));
        if all[i].applies(year) {
            let day: i64 = all[i].resolve(year);
            r.push(day);
            assert(rules_of(country)[i as int].holds_in(year as int));
            assert(holiday_in(country, year as int, day as int));
            assert forall|k: int| 0 <= k < i + 1 && (#[trigger] all@[k]).holds_in(
                year as int,
            ) implies exists|j: int|
                0 <= j < r.len() && #[trigger] r@[j] == all@[k].day_in(year as int) by {
                if k < i {
                    let j = choose|j: int|
                        0 <= j < before.len() && before[j] == all@[k].day_in(year as int);
                    assert(r@[j] == all@[k].day_in(year as int));
                } else {
                    assert(r@[r.len() - 1] == all@[k].day_in(year as int));
                }
            }
        }
        i += 1;
    }
    assert(all@.take(i as int) =~= all@);
    assert forall|z: i64| r@.contains(z) <==> #[trigger] holiday_in(
        country,
        year as int,
        z as int,
    ) by {
        if holiday_in(country, year as int, z as int) {
            let k = choose|k: int|
                0 <= k < rules_of(country).len() && (#[trigger] rules_of(country)[k]).holds_in(
                    year as int,
                ) && rules_of(country)[k].day_in(year as int) == z;
            assert(all@[k].holds_in(year as int));
        }
    }
    r
}

/// How many units of a resolution a day has.
pub open spec fn units_per_day(resolution: Resolution) -> int {
    match resolution {
        Resolution::Nanoseconds => 86_400_000_000_000,
        Resolution::Microseconds => 86_400_000_000,
        Resolution::Milliseconds => 86_400_000,
    }
}

/// The day of a time; none where 32 bits do not hold it.
pub open spec fn day_of_time(resolution: Resolution, time: Option<i64>) -> Option<i32> {
    match time {
        Some(t) => {
            let z = (t as int) / units_per_day(resolution);
            if -0x8000_0000 <= z <= 0x7fff_ffff {
                Some(z as i32)
            } else {
                None
            }
        },
        None => None,
    }
}

/// The days of a list of times.
///
/// This is the cast of a `Datetime` column without a time zone to `Date` by
/// polars' `Series::cast`: each time is divided by the units of a day, rounding
/// down, and a day that 32 bits do not hold becomes missing.
#[verifier::external_body]
fn cast_to_days(resolution: Resolution, times: &Vec<Option<i64>>) -> (r: Vec<Option<i32>>)
    requires
        times.len() <= frame::MOST_ROWS,
    ensures
        r.len() == times.len(),
        forall|i: int|
            0 <= i < times.len() ==> #[trigger] r@[i] == day_of_time(resolution, times@[i]),
{
    let unit = match resolution {
        Resolution::Nanoseconds => TimeUnit::Nanoseconds,
        Resolution::Microseconds => TimeUnit::Microseconds,
        Resolution::Milliseconds => TimeUnit::Milliseconds,
    };
    let column: Int64Chunked = times.iter().copied().collect();
    let days = column.into_datetime(unit, None).into_series().cast(&DataType::Date).unwrap();
    days.to_physical_repr().i32().unwrap().iter().collect()
}

/// The days of a column of dates or times.
pub open spec fn days_of(values: ValuesView) -> Seq<Option<i32>> {
    match values {
        ValuesView::Date(days) => days,
        ValuesView::Datetime(resolution, times) => Seq::new(
            times.len(),
            |i: int| day_of_time(resolution, times[i]),
        ),
        _ => Seq::empty(),
    }
}

/// The days of a column of dates or times.
fn day_values(values: &Values) -> (r: Vec<Option<i32>>)
    requires
        dates::dated(values@),
        values@.len() <= frame::MOST_ROWS,
    ensures
        r@ == days_of(values@),
{
    match values {
        Values::Date(days) => {
            let mut r: Vec<Option<i32>> = Vec::new();
            let mut i: usize = 0;
            while i < days.len()
                invariant
                    i <= days.len(),
                    r.len() == i,
                    forall|k: int| 0 <= k < i ==> r@[k] == days@[k],
                decreases days.len() - i,
            {
                r.push(days[i]);
                i += 1;
            }
            assert(r@ =~= days@);
            r
        },
        Values::Datetime(resolution, times) => {
            let r: Vec<Option<i32>> = cast_to_days(*resolution, times);
            assert(r@ =~= days_of(values@));
            r
        },
        _ => {
            assert(false);
            Vec::new()
        },
    }
}

/// Why the encoder cannot be fitted to a frame.
pub open spec fn holiday_fault(asked: Option<Seq<Seq<char>>>, x: FrameView) -> Option<ErrorView> {
    match dates::choice_fault("HolidayEncoder"@, asked, x) {
        Some(e) => Some(e),
        None => match encoder::collision(
            x.names(),
            dates::suffixed(dates::chosen(asked, x), "_is_holiday"@),
        ) {
            Some(name) => Some(ErrorView::about(Problem::NameTaken, "HolidayEncoder"@, name)),
            None => None,
        },
    }
}

/// `1.0` for a holiday, `0.0` for any other day.
pub open spec fn holiday_cell(country: HolidayCountry, day: Option<i32>) -> Option<Term> {
    match day {
        Some(z) => Some(
            Term::Value(
                if is_holiday(country, z as int) {
                    Double { bits: crate::double::ONE }
                } else {
                    Double { bits: 0 }
                },
            ),
        ),
        None => None,
    }
}

/// The column of a column's holidays.
pub open spec fn holiday_column(
    country: HolidayCountry,
    x: FrameView,
    name: Seq<char>,
) -> SheetColumnView {
    let days = days_of(x.columns[x.find(name)->0].values);
    SheetColumnView {
        name: name + "_is_holiday"@,
        cells: CellsView::Float64(
            Seq::new(days.len(), |i: int| holiday_cell(country, days[i])),
        ),
    }
}

/// What the encoder makes of a frame.
pub open spec fn holiday_outcome(
    country: HolidayCountry,
    fitted: Option<Seq<Seq<char>>>,
    x: FrameView,
) -> Result<SheetView, ErrorView> {
    match fitted {
        None => Err(ErrorView::plain(Problem::NotFitted, "HolidayEncoder"@)),
        Some(names) => match error::first_fault(
            dates::suffixed(names, "_is_holiday"@),
            dates::taken_fault("HolidayEncoder"@, x),
        ) {
            Some(e) => Err(e),
            None => match error::first_fault(names, dates::date_fault("HolidayEncoder"@, x)) {
                Some(e) => Err(e),
                None => Ok(
                    SheetView {
                        height: x.height,
                        columns: frame::kept_columns(x) + Seq::new(
                            names.len(),
                            |i: int| holiday_column(country, x, names[i]),
                        ),
                    },
                ),
            },
        },
    }
}

/// The columns of the frame come first and unchanged, one column of holidays
/// follows for each column of dates, and none has a name that the frame has.
pub proof fn law_holidays_appended(country: HolidayCountry, names: Seq<Seq<char>>, x: FrameView)
    requires
        holiday_outcome(country, Some(names), x) is Ok,
    ensures
        ({
            let made = holiday_outcome(country, Some(names), x)->Ok_0.columns;
            let kept = frame::kept_columns(x);
            let labels = dates::suffixed(names, "_is_holiday"@);
            &&& made.take(kept.len() as int) == kept
            &&& frame::sheet_names(made.skip(kept.len() as int)) == labels
            &&& forall|i: int| 0 <= i < labels.len() ==> x.find(#[trigger] labels[i]) is None
        }),
{
    let made = holiday_outcome(country, Some(names), x)->Ok_0.columns;
    let kept = frame::kept_columns(x);
    let labels = dates::suffixed(names, "_is_holiday"@);
    error::lemma_faultless(labels, dates::taken_fault("HolidayEncoder"@, x));
    assert(made.take(kept.len() as int) =~= kept);
    assert(frame::sheet_names(made.skip(kept.len() as int)) =~= labels);
}

/// The holidays of a span of days, kept ready.
struct Cache {
    low: i32,
    high: i32,
    days: HashSet<i64>,
}

impl Cache {
    /// Between the first and the last day, the set holds just the holidays.
    spec fn sound(self, country: HolidayCountry) -> bool {
        forall|z: i64|
            self.low <= z <= self.high ==> (#[trigger] self.days@.contains(z) <==> is_holiday(
                country,
                z as int,
            ))
    }
}

/// Keeps the holidays of a span of days ready, unless the span is too wide.
fn build_cache(country: HolidayCountry, low: i32, high: i32) -> (r: Option<Cache>)
    requires
        low <= high,
    ensures
        r matches Some(cache) ==> cache.sound(country) && cache.low == low && cache.high == high,
        r is Some <==> calendar::year_of(high as int) - calendar::year_of(low as int)
            <= MAX_CACHED_YEARS,
{
    broadcast use vstd::std_specs::hash::group_hash_axioms;

    let (first, _m, _d) = calendar::civil_from_days(low);
    let (last, _n, _e) = calendar::civil_from_days(high);
    if last as i64 - first as i64 > MAX_CACHED_YEARS {
        return None;
    }
    proof {
        calendar::law_years_follow_days(low as int, high as int);
    }
    let mut days: HashSet<i64> = HashSet::new();
    let mut year: i32 = first;
    while year <= last
        invariant
            first <= year <= last + 1,
            last <= 5_900_000,
            forall|z: i64|
                #[trigger] days@.contains(z) <==> exists|y: int|
                    first <= y < year && #[trigger] holiday_in(country, y, z as int),
        decreases last + 1 - year,
    {
        let found: Vec<i64> = holidays_in_year(country, year);
        let ghost start = days@;
        let mut i: usize = 0;
        while i < found.len()
            invariant
                i <= found.len(),
                forall|z: i64|
                    #[trigger] days@.contains(z) <==> start.contains(z) || found@.take(
                        i as int,
                    ).contains(z),
            decreases found.len() - i,
        {
            let ghost before = days@;
            days.insert(found[i]);
            assert forall|z: i64| #[trigger] days@.contains(z) <==> start.contains(z)
                || found@.take(i + 1).contains(z) by {
                let a = found@.take(i as int);
                let b = found@.take(i + 1);
                assert(before.contains(z) <==> start.contains(z) || a.contains(z));
                if a.contains(z) {
                    let k = choose|k: int| 0 <= k < a.len() && a[k] == z;
                    assert(b[k] == z);
                }
                if b.contains(z) {
                    let k = choose|k: int| 0 <= k < b.len() && b[k] == z;
                    if k < i {
                        assert(a[k] == z);
                    }
                }
                assert(b[i as int] == found@[i as int]);
            }
            i += 1;
        }
        assert(found@.take(i as int) =~= found@);
        assert forall|z: i64| #[trigger] days@.contains(z) <==> exists|y: int|
            first <= y < year + 1 && #[trigger] holiday_in(country, y, z as int) by {
            assert(found@.contains(z) <==> holiday_in(country, year as int, z as int));
            if start.contains(z) {
                let y = choose|y: int| first <= y < year && holiday_in(country, y, z as int);
                assert(holiday_in(country, y, z as int));
            }
        }
        year = year + 1;
    }
    let r: Cache = Cache { low, high, days };
    proof {
        assert forall|z: i64| r.low <= z <= r.high implies (#[trigger] r.days@.contains(z)
            <==> is_holiday(country, z as int)) by {
            calendar::law_years_follow_days(low as int, z as int);
            calendar::law_years_follow_days(z as int, high as int);
            let own = calendar::year_of(z as int);
            assert(first <= own <= last);
            if r.days@.contains(z) {
                let y = choose|y: int| first <= y < year && holiday_in(country, y, z as int);
                law_holidays_by_year(country, y, z as int);
            }
            if is_holiday(country, z as int) {
                assert(holiday_in(country, own, z as int));
            }
        }
    }
    Some(r)
}

/// Whether a day is a holiday of a country, by the rules of its year.
pub fn is_holiday_day(country: HolidayCountry, day: i32) -> (r: bool)
    ensures
        r == is_holiday(country, day as int),
{
    let (year, _m, _d) = calendar::civil_from_days(day);
    let found: Vec<i64> = holidays_in_year(country, year);
    let mut i: usize = 0;
    while i < found.len()
        invariant
            i <= found.len(),
            year == calendar::year_of(day as int),
            forall|z: i64|
                found@.contains(z) <==> #[trigger] holiday_in(country, year as int, z as int),
            forall|k: int| 0 <= k < i ==> found@[k] != day,
        decreases found.len() - i,
    {
        if found[i] == day as i64 {
            assert(found@.contains(day as i64));
            return true;
        }
        i += 1;
    }
    assert(!found@.contains(day as i64));
    false
}

/// Marks the holidays of a country in columns of dates and times.
///
/// Every column is kept; for each column worked on, `{column}_is_holiday` is
/// added.
pub struct HolidayEncoder {
    country: HolidayCountry,
    asked: Option<Vec<Text>>,
    names: Option<Vec<Text>>,
    cache: Option<Cache>,
}

impl HolidayEncoder {
    #[verifier::type_invariant]
    spec fn well_formed(self) -> bool {
        self.cache matches Some(cache) ==> cache.sound(self.country)
    }

    /// The columns that the last fit chose, if it succeeded and no setting was
    /// changed since.
    pub closed spec fn fitted(self) -> Option<Seq<Seq<char>>> {
        match self.names {
            Some(list) => Some(text::views(list@)),
            None => None,
        }
    }

    /// The columns that were asked for.
    pub closed spec fn asked_for(self) -> Option<Seq<Seq<char>>> {
        match self.asked {
            Some(list) => Some(text::views(list@)),
            None => None,
        }
    }

    /// The country.
    pub closed spec fn nation(self) -> HolidayCountry {
        self.country
    }

    /// An encoder for all columns of dates and times, and the holidays of the
    /// United States.
    pub fn new() -> (r: HolidayEncoder)
        ensures
            r.fitted() is None,
            r.asked_for() is None,
            r.nation() == HolidayCountry::US,
    {
        HolidayEncoder { country: HolidayCountry::US, asked: None, names: None, cache: None }
    }

    /// Asks for columns by name. The encoder has to be fitted anew.
    pub fn columns(self, cols: &[&str]) -> (r: HolidayEncoder)
        ensures
            r.fitted() is None,
            r.asked_for() == Some(text::str_views(cols@)),
            r.nation() == self.nation(),
    {
        HolidayEncoder {
            country: self.country,
            asked: Some(text::of_all(cols)),
            names: None,
            cache: None,
        }
    }

    /// Sets the country. The encoder has to be fitted anew.
    pub fn country(self, c: HolidayCountry) -> (r: HolidayEncoder)
        ensures
            r.fitted() is None,
            r.asked_for() == self.asked_for(),
            r.nation() == c,
    {
        HolidayEncoder { country: c, asked: self.asked, names: None, cache: None }
    }

    /// The columns that were asked for.
    pub fn selected_columns(&self) -> (r: Option<&Vec<Text>>)
        ensures
            match r {
                Some(list) => self.asked_for() == Some(text::views(list@)),
                None => self.asked_for() is None,
            },
    {
        match &self.asked {
            Some(list) => Some(list),
            None => None,
        }
    }

    /// The country.
    pub fn selected_country(&self) -> (r: HolidayCountry)
        ensures
            r == self.nation(),
    {
        self.country
    }

    /// Whether the encoder is fitted.
    pub fn is_fitted(&self) -> (r: bool)
        ensures
            r == (self.fitted() is Some),
    {
        self.names.is_some()
    }

    /// Chooses the columns to work on, and keeps the holidays of the days in
    /// them ready. A fit that fails leaves the encoder unfitted.
    pub fn fit(&mut self, x: &Frame) -> (r: Result<(), Error>)
        ensures
            final(self).asked_for() == old(self).asked_for(),
            final(self).nation() == old(self).nation(),
            match holiday_fault(old(self).asked_for(), x@) {
                Some(e) => r is Err && r->Err_0@ == e && final(self).fitted() is None,
                None => r is Ok && final(self).fitted() == Some(
                    dates::chosen(old(self).asked_for(), x@),
                ),
            },
    {
        proof {
            use_type_invariant(&*self);
        }
        self.names = None;
        self.cache = None;
        let names: Vec<Text> = match dates::choose_columns("HolidayEncoder", &self.asked, x) {
            Ok(names) => names,
            Err(e) => {
                return Err(e);
            },
        };
        let made: Vec<Text> = dates::add_suffix(&names, "_is_holiday");
        match encoder::find_collision(&x.names(), &made) {
            Some(i) => {
                return Err(Error::about(Problem::NameTaken, "HolidayEncoder", &made[i]));
            },
            None => {},
        }
        let mut bounds: Option<(i32, i32)> = None;
        let mut i: usize = 0;
        while i < names.len()
            invariant
                i <= names.len(),
                bounds matches Some(b) ==> b.0 <= b.1,
            decreases names.len() - i,
        {
            match dates::find_dated("HolidayEncoder", x, &names[i]) {
                Ok(column) => {
                    let days: Vec<Option<i32>> = day_values(&column.values);
                    let mut j: usize = 0;
                    while j < days.len()
                        invariant
                            j <= days.len(),
                            bounds matches Some(b) ==> b.0 <= b.1,
                        decreases days.len() - j,
                    {
                        match days[j] {
                            Some(day) => {
                                bounds = match bounds {
                                    Some((low, high)) => Some(
                                        (
                                            if day < low {
                                                day
                                            } else {
                                                low
                                            },
                                            if day > high {
                                                day
                                            } else {
                                                high
                                            },
                                        ),
                                    ),
                                    None => Some((day, day)),
                                };
                            },
                            None => {},
                        }
                        j += 1;
                    }
                },
                Err(_) => {},
            }
            i += 1;
        }
        let cache: Option<Cache> = match bounds {
            Some((low, high)) => build_cache(self.country, low, high),
            None => None,
        };
        self.cache = cache;
        self.names = Some(names);
        Ok(())
    }

    /// Adds a column of holidays for each column worked on.
    pub fn transform(&self, x: &Frame) -> (r: Result<Sheet, Error>)
        ensures
            frame::outcome(r) == holiday_outcome(self.nation(), self.fitted(), x@),
    {
        proof {
            use_type_invariant(self);
        }
        let names = match &self.names {
            Some(names) => names,
            None => {
                return Err(Error::plain(Problem::NotFitted, "HolidayEncoder"));
            },
        };
        let ghost all = text::views(names@);
        let made: Vec<Text> = dates::add_suffix(names, "_is_holiday");
        match dates::find_taken("HolidayEncoder", x, &made) {
            Ok(_) => {},
            Err(e) => {
                return Err(e);
            },
        }
        let ghost fault = dates::date_fault("HolidayEncoder"@, x@);
        let ghost none = Seq::<Term>::empty();
        let mut columns: Vec<SheetColumn> = frame::keep_all(x);
        let ghost base = frame::kept_columns(x@);
        let ghost more = Seq::new(all.len(), |k: int| holiday_column(self.nation(), x@, all[k]));
        let mut i: usize = 0;
        proof {
            error::lemma_fault_ends(all, fault);
            assert(base + more.take(0) =~= base);
        }
        while i < names.len()
            invariant
                i <= names.len(),
                x@.valid(),
                self.fitted() == Some(all),
                self.cache matches Some(cache) ==> cache.sound(self.country),
                all == text::views(names@),
                text::views(made@) == dates::suffixed(all, "_is_holiday"@),
                error::first_fault(
                    dates::suffixed(all, "_is_holiday"@),
                    dates::taken_fault("HolidayEncoder"@, x@),
                ) is None,
                fault == dates::date_fault("HolidayEncoder"@, x@),
                error::first_fault(all.take(i as int), fault) is None,
                none == Seq::<Term>::empty(),
                more == Seq::new(
                    all.len(),
                    |k: int| holiday_column(self.nation(), x@, all[k]),
                ),
                frame::sheet_columns(columns@, none) == base + more.take(i as int),
            decreases names.len() - i,
        {
            proof {
                error::lemma_fault_step(all, fault, i as int);
            }
            assert(all[i as int] == names@[i as int]@);
            let column = match dates::find_dated("HolidayEncoder", x, &names[i]) {
                Ok(column) => column,
                Err(e) => {
                    return Err(e);
                },
            };
            let days: Vec<Option<i32>> = day_values(&column.values);
            let mut flags: Vec<Option<Number>> = Vec::new();
            let mut j: usize = 0;
            while j < days.len()
                invariant
                    j <= days.len(),
                    flags.len() == j,
                    none == Seq::<Term>::empty(),
                    self.cache matches Some(cache) ==> cache.sound(self.country),
                    forall|k: int|
                        0 <= k < j ==> frame::optional_term(#[trigger] flags@[k], none)
                            == holiday_cell(self.nation(), days@[k]),
                decreases days.len() - j,
            {
                broadcast use vstd::std_specs::hash::group_hash_axioms;

                let flag: Option<Number> = match days[j] {
                    Some(day) => {
                        let held: bool = match &self.cache {
                            Some(cache) => if cache.low <= day && day <= cache.high {
                                cache.days.contains(&(day as i64))
                            } else {
                                is_holiday_day(self.country, day)
                            },
                            None => is_holiday_day(self.country, day),
                        };
                        if held {
                            Some(Number::Known(Double::one()))
                        } else {
                            Some(Number::Known(Double::zero()))
                        }
                    },
                    None => None,
                };
                flags.push(flag);
                j += 1;
            }
            let ghost before = frame::sheet_columns(columns@, none);
            let added: SheetColumn = SheetColumn {
                name: made[i].duplicate(),
                cells: Cells::Float64(flags),
            };
            proof {
                assert(text::views(made@)[i as int] == all[i as int] + "_is_holiday"@);
                assert(frame::terms_of(flags@, none) =~= Seq::new(
                    days@.len(),
                    |k: int| holiday_cell(self.nation(), days@[k]),
                ));
                assert(frame::sheet_column(added, none) == more[i as int]);
            }
            columns.push(added);
            i += 1;
            proof {
                assert(frame::sheet_columns(columns@, none) =~= before.push(more[i - 1]));
                assert(base + more.take(i as int) =~= (base + more.take(i - 1)).push(more[i - 1]));
            }
        }
        assert(all.take(i as int) =~= all);
        assert(more.take(i as int) =~= more);
        Ok(Sheet { height: x.height(), columns, program: Program::new() })
    }
}

impl Default for HolidayEncoder {
    fn default() -> (r: HolidayEncoder)
        ensures
            r.fitted() is None,
            r.asked_for() is None,
            r.nation() == HolidayCountry::US,
    {
        HolidayEncoder::new()
    }
}

} // verus!
