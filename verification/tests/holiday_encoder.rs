#![allow(dead_code, unused_imports)]

use approx::RelativeEq;
use featrs::double::Double;
use featrs::error::Error as Fault;
use featrs::error::Kind;
use featrs::frame::Cells;
use featrs::frame::Column as FrameColumn;
use featrs::frame::Frame;
use featrs::frame::Number;
use featrs::frame::Resolution;
use featrs::frame::Sheet;
use featrs::frame::Values;
use featrs::preprocessing::calendar::civil_from_days;
use featrs::preprocessing::calendar::days_in_month;
use featrs::preprocessing::calendar;
use featrs::preprocessing::holiday_encoder::HolidayCountry;
use featrs::preprocessing::holiday_encoder::HolidayEncoder as InnerHolidayEncoder;
use featrs::program::Operation;
use featrs::program::Program;
use featrs::program::Query;
use featrs::text::Text;
use polars::prelude::AnyValue;
use polars::prelude::ChunkAgg;
use polars::prelude::Column;
use polars::prelude::DataFrame;
use polars::prelude::DataType;
use polars::prelude::IntoSeries;
use polars::prelude::NamedFrom;
use polars::prelude::PolarsError;
use polars::prelude::Series;
use polars::prelude::StringChunked;
use polars::prelude::TimeUnit;
use polars::prelude::TimeZone;
use statrs::function::gamma::digamma;
use std::fmt;

/// What a transformer reports.
#[derive(Debug)]
pub enum Error {
    InvalidInput(String),
    NotFitted(String),
    Computation(String),
}

impl fmt::Display for Error {
    fn fmt(&self, f: &mut fmt::Formatter<'_>) -> fmt::Result {
        match self {
            Error::InvalidInput(message) => f.write_str(&format!("invalid input: {message}")),
            Error::NotFitted(message) => f.write_str(&format!("not fitted: {message}")),
            Error::Computation(message) => f.write_str(&format!("computation error: {message}")),
        }
    }
}

impl From<Fault> for Error {
    fn from(e: Fault) -> Self {
        let mut message: String = e.message().chars.iter().collect();
        if let Some(d) = e.number() {
            message.push_str(&f64::from_bits(d.bits).to_string());
        }
        match e.kind() {
            Kind::InvalidInput => Error::InvalidInput(message),
            Kind::NotFitted => Error::NotFitted(message),
            Kind::Computation => Error::Computation(message),
        }
    }
}

pub type Result<T> = std::result::Result<T, Error>;

/// Learns from a frame.
pub trait Fit<X> {
    type Output;
    fn fit(&mut self, x: X) -> Result<Self::Output>;
}

/// Learns from a frame and a target.
pub trait FitSupervised<X, Y> {
    type Output;
    fn fit(&mut self, x: X, y: Y) -> Result<Self::Output>;
}

/// Makes a frame of a frame.
pub trait Transform<X> {
    type Output;
    fn transform(&self, x: X) -> Result<Self::Output>;
}

/// A number by its bits.
pub fn double(v: f64) -> Double {
    Double { bits: v.to_bits() }
}

/// A number from its bits.
pub fn float(d: Double) -> f64 {
    f64::from_bits(d.bits)
}

/// A text as a string.
pub fn string(t: &Text) -> String {
    t.chars.iter().collect()
}

/// The cells of a series.
fn values_of(s: &Series) -> Result<Values> {
    let failed = |e: PolarsError| Error::Computation(e.to_string());
    Ok(match s.dtype() {
        DataType::String => Values::Text(
            s.str().map_err(failed)?.iter().map(|v| v.map(Text::of)).collect(),
        ),
        DataType::Float64 => Values::Float64(
            s.f64().map_err(failed)?.iter().map(|v| v.map(double)).collect(),
        ),
        DataType::Date => Values::Date(
            s.to_physical_repr().i32().map_err(failed)?.iter().collect(),
        ),
        DataType::Datetime(unit, _) => {
            let resolution = match unit {
                TimeUnit::Nanoseconds => Resolution::Nanoseconds,
                TimeUnit::Microseconds => Resolution::Microseconds,
                TimeUnit::Milliseconds => Resolution::Milliseconds,
            };
            Values::Datetime(
                resolution,
                s.to_physical_repr().i64().map_err(failed)?.iter().collect(),
            )
        }
        other => Values::Other(Text::of(&other.to_string()), s.len()),
    })
}

/// A column as the library reads it.
pub fn column_of(c: &Column) -> Result<FrameColumn> {
    Ok(FrameColumn::new(c.name().as_str(), values_of(c.as_materialized_series())?))
}

/// A frame as the library reads it.
pub fn frame_of(df: &DataFrame) -> Result<Frame> {
    let columns = df.columns().iter().map(column_of).collect::<Result<Vec<FrameColumn>>>()?;
    Ok(Frame::new(df.height(), columns)?)
}

/// The results of a program, front to back.
pub fn evaluate(program: &Program) -> Vec<f64> {
    let mut r: Vec<f64> = Vec::with_capacity(program.len());
    for i in 0..program.len() {
        let value = match program.operation(i) {
            Operation::Value(d) => float(d),
            Operation::Natural(n) => n as f64,
            Operation::Integer(n) => n as f64,
            Operation::FullTurn => 2.0 * std::f64::consts::PI,
            Operation::Plus(a, b) => r[a] + r[b],
            Operation::Minus(a, b) => r[a] - r[b],
            Operation::Times(a, b) => r[a] * r[b],
            Operation::Over(a, b) => r[a] / r[b],
            Operation::Power(a, b) => r[a].powf(r[b]),
            Operation::Square(a) => r[a] * r[a],
            Operation::Root(a) => r[a].sqrt(),
            Operation::Magnitude(a) => r[a].abs(),
            Operation::Lesser(a, b) => r[a].min(r[b]),
            Operation::Greater(a, b) => r[a].max(r[b]),
            Operation::Sine(a) => r[a].sin(),
            Operation::Cosine(a) => r[a].cos(),
            Operation::Logarithm(a) => r[a].ln(),
            Operation::Digamma(a) => digamma(r[a]),
            Operation::Scaled(a, b) => {
                if r[b] > 0.0 {
                    r[a] / r[b]
                } else {
                    r[a]
                }
            }
        };
        r.push(value);
    }
    r
}

/// The results of a program as the library takes them.
pub fn results(program: &Program) -> Vec<Double> {
    evaluate(program).into_iter().map(double).collect()
}

/// The answers to a query.
pub fn answers(query: &Query) -> Vec<Double> {
    let r = evaluate(query.program());
    query.places().iter().map(|&at| double(r[at])).collect()
}

/// A finished sheet as a frame.
pub fn table(sheet: &Sheet, x: &DataFrame) -> Result<DataFrame> {
    let r = evaluate(&sheet.program);
    let mut columns: Vec<Column> = Vec::with_capacity(sheet.columns.len());
    for c in &sheet.columns {
        let name = string(&c.name);
        columns.push(match &c.cells {
            Cells::Kept(i) => x.columns()[*i].clone(),
            Cells::UInt32(cells) => {
                Column::from(Series::new(name.as_str().into(), cells.as_slice()))
            }
            Cells::Float64(cells) => {
                let values: Vec<Option<f64>> = cells
                    .iter()
                    .map(|cell| {
                        cell.map(|n| match n {
                            Number::Known(d) => float(d),
                            Number::Natural(n) => n as f64,
                            Number::Register(at) => r[at],
                        })
                    })
                    .collect();
                Column::from(Series::new(name.as_str().into(), values.as_slice()))
            }
        });
    }
    DataFrame::new(sheet.height, columns).map_err(|e| Error::Computation(e.to_string()))
}

/// [`InnerHolidayEncoder`] on frames of polars.
pub struct HolidayEncoder(InnerHolidayEncoder);

impl HolidayEncoder {
    pub fn new() -> Self {
        Self(InnerHolidayEncoder::new())
    }

    pub fn columns(self, cols: &[&str]) -> Self {
        Self(self.0.columns(cols))
    }

    pub fn country(self, c: HolidayCountry) -> Self {
        Self(self.0.country(c))
    }

    pub fn selected_country(&self) -> HolidayCountry {
        self.0.selected_country()
    }

    pub fn is_fitted(&self) -> bool {
        self.0.is_fitted()
    }
}

impl Default for HolidayEncoder {
    fn default() -> Self {
        Self(InnerHolidayEncoder::default())
    }
}

impl Fit<DataFrame> for HolidayEncoder {
    type Output = ();

    fn fit(&mut self, x: DataFrame) -> Result<()> {
        Ok(self.0.fit(&frame_of(&x)?)?)
    }
}

impl Transform<DataFrame> for HolidayEncoder {
    type Output = DataFrame;

    fn transform(&self, x: DataFrame) -> Result<DataFrame> {
        table(&self.0.transform(&frame_of(&x)?)?, &x)
    }
}

/// Whether two numbers are equal up to an absolute or a relative error.
fn near(a: f64, b: f64, epsilon: f64, max_relative: f64) {
    assert!(
        RelativeEq::relative_eq(&a, &b, epsilon, max_relative),
        "{a} is not near {b}"
    );
}

fn days_from_civil(y: i32, m: u32, d: u32) -> i32 {
    calendar::days_from_civil(y, m, d) as i32
}

fn weekday_from_days(z: i32) -> u32 {
    calendar::weekday_from_days(z as i64)
}

fn easter_days(year: i32) -> i32 {
    calendar::easter_days(year) as i32
}

fn nth_weekday_days(year: i32, month: u32, weekday: u32, n: u32) -> i32 {
    calendar::nth_weekday_days(year, month, weekday, n) as i32
}

fn last_weekday_days(year: i32, month: u32, weekday: u32) -> i32 {
    calendar::last_weekday_days(year, month, weekday) as i32
}

/// Days since the Unix epoch of 2024-01-01 (a Monday).
const D0: i32 = 19_723;
/// Days since the Unix epoch of 2024-07-04 (US Independence Day).
const JULY4: i32 = 19_908;
/// Microseconds since the Unix epoch of 2024-01-01T00:00:00Z.
const T0: i64 = 1_704_067_200_000_000;
/// Microseconds in one day.
const DAY_US: i64 = 86_400_000_000;

/// Days since the Unix epoch of the given civil date.
fn d(y: i32, m: u32, day: u32) -> i32 {
    days_from_civil(y, m, day)
}

fn date_col(name: &str, vals: &[Option<i32>]) -> Column {
    Series::new(name.into(), vals)
        .cast(&DataType::Date)
        .unwrap()
        .into()
}

fn datetime_col(name: &str, vals: &[Option<i64>], tz: Option<TimeZone>) -> Column {
    Series::new(name.into(), vals)
        .cast(&DataType::Datetime(TimeUnit::Microseconds, tz))
        .unwrap()
        .into()
}

/// Fit `encoder` on one `Date` column named `d` holding `vals`.
fn fit_on(encoder: &mut HolidayEncoder, vals: &[Option<i32>]) -> DataFrame {
    let df = DataFrame::new(vals.len(), vec![date_col("d", vals)]).unwrap();
    encoder.fit(df.clone()).unwrap();
    df
}

/// Assert `out["{col}_is_holiday"]` is `Float64` and equals `expected`.
fn assert_flags(out: &DataFrame, col: &str, expected: &[Option<f64>]) {
    let name = format!("{col}_is_holiday");
    let s = out.column(name.as_str()).unwrap();
    assert_eq!(
        s.dtype(),
        &DataType::Float64,
        "wrong output dtype for {name}"
    );
    let ca = s.f64().unwrap();
    assert_eq!(ca.len(), expected.len(), "wrong length for {name}");
    for (i, want) in expected.iter().enumerate() {
        match (ca.get(i), want) {
            (Some(got), Some(want)) => near(got, *want, f64::EPSILON, f64::EPSILON),
            (None, None) => {}
            (got, want) => panic!("row {i} of {name}: got {got:?}, want {want:?}"),
        }
    }
}

// --- calendar arithmetic -------------------------------------------------

#[test]
fn test_days_from_civil_anchors() {
    assert_eq!(days_from_civil(1970, 1, 1), 0);
    assert_eq!(days_from_civil(1970, 1, 2), 1);
    assert_eq!(days_from_civil(1969, 12, 31), -1);
    assert_eq!(days_from_civil(2024, 1, 1), D0);
    assert_eq!(days_from_civil(2000, 1, 1), 10_957);
    assert_eq!(days_from_civil(2024, 7, 4), JULY4);
    // Leap day exists in 2024 and shifts every later day by one.
    assert_eq!(days_from_civil(2024, 2, 29), 19_782);
    assert_eq!(days_from_civil(2024, 3, 1), 19_783);
    assert_eq!(days_in_month(2024, 2), 29);
    assert_eq!(days_in_month(2023, 2), 28);
    assert_eq!(days_in_month(2100, 2), 28); // 2100 is not a leap year
    assert_eq!(days_in_month(2000, 2), 29); // 2000 is
}

#[test]
fn test_weekday_from_days() {
    // 1970-01-01 was a Thursday (index 3 of a Monday-based week).
    assert_eq!(weekday_from_days(0), 3);
    assert_eq!(weekday_from_days(D0), 0); // 2024-01-01, Monday
    assert_eq!(weekday_from_days(JULY4), 3); // 2024-07-04, Thursday
    assert_eq!(weekday_from_days(d(2024, 12, 25)), 2); // Wednesday
}

#[test]
fn test_civil_from_days_round_trip() {
    for (y, m, day) in [
        (1970, 1, 1),
        (1969, 12, 31),
        (2024, 2, 29),
        (1999, 12, 31),
        (2100, 3, 1),
    ] {
        assert_eq!(civil_from_days(days_from_civil(y, m, day)), (y, m, day));
    }
}

#[test]
fn test_easter_dates() {
    // Published Easter Sundays.
    assert_eq!(easter_days(1970), d(1970, 3, 29));
    assert_eq!(easter_days(1985), d(1985, 4, 7));
    assert_eq!(easter_days(2000), d(2000, 4, 23));
    assert_eq!(easter_days(2023), d(2023, 4, 9));
    assert_eq!(easter_days(2024), d(2024, 3, 31));
    assert_eq!(easter_days(2025), d(2025, 4, 20));
    assert_eq!(easter_days(2026), d(2026, 4, 5));
    assert_eq!(easter_days(2038), d(2038, 4, 25));
}

#[test]
fn test_nth_and_last_weekday_resolution() {
    // 3rd Monday of January 2024, 4th Thursday of November 2024,
    // 1st Monday of May 2024, last Monday of August 2024.
    assert_eq!(nth_weekday_days(2024, 1, 0, 3), d(2024, 1, 15));
    assert_eq!(nth_weekday_days(2024, 11, 3, 4), d(2024, 11, 28));
    assert_eq!(nth_weekday_days(2024, 5, 0, 1), d(2024, 5, 6));
    assert_eq!(last_weekday_days(2024, 8, 0), d(2024, 8, 26));
    assert_eq!(last_weekday_days(2025, 5, 0), d(2025, 5, 26));
    // A month whose 1st is the target weekday, and a 5-occurrence month.
    assert_eq!(nth_weekday_days(2024, 7, 0, 1), d(2024, 7, 1));
    assert_eq!(nth_weekday_days(2024, 4, 1, 5), d(2024, 4, 30));
}

// --- issue acceptance cases ---------------------------------------------

#[test]
fn test_us_new_year_and_plain_day() {
    let mut enc = HolidayEncoder::new()
        .columns(&["d"])
        .country(HolidayCountry::US);
    let df = fit_on(&mut enc, &[Some(D0), Some(D0 + 1)]);
    let out = enc.transform(df).unwrap();
    // 2024-01-01 is New Year's Day; 2024-01-02 is not a holiday.
    assert_flags(&out, "d", &[Some(1.0), Some(0.0)]);
}

#[test]
fn test_us_independence_day() {
    let mut enc = HolidayEncoder::new()
        .columns(&["d"])
        .country(HolidayCountry::US);
    let df = fit_on(&mut enc, &[Some(JULY4), Some(JULY4 + 1)]);
    let out = enc.transform(df).unwrap();
    assert_flags(&out, "d", &[Some(1.0), Some(0.0)]);
}

#[test]
fn test_gb_christmas() {
    let mut enc = HolidayEncoder::new()
        .columns(&["d"])
        .country(HolidayCountry::GB);
    let df = fit_on(&mut enc, &[Some(d(2024, 12, 25)), Some(d(2024, 12, 24))]);
    let out = enc.transform(df).unwrap();
    // Christmas Day is a holiday, Christmas Eve is not.
    assert_flags(&out, "d", &[Some(1.0), Some(0.0)]);
}

#[test]
fn test_non_holiday_weekday() {
    let mut enc = HolidayEncoder::new()
        .columns(&["d"])
        .country(HolidayCountry::US);
    // 2024-03-13 and 2024-03-14 are ordinary weekdays.
    let df = fit_on(&mut enc, &[Some(d(2024, 3, 13)), Some(d(2024, 3, 14))]);
    let out = enc.transform(df).unwrap();
    assert_flags(&out, "d", &[Some(0.0), Some(0.0)]);
}

#[test]
fn test_null_dates_are_preserved() {
    let mut enc = HolidayEncoder::new()
        .columns(&["d"])
        .country(HolidayCountry::US);
    let df = fit_on(&mut enc, &[Some(D0), None, Some(D0 + 1)]);
    let out = enc.transform(df).unwrap();
    assert_flags(&out, "d", &[Some(1.0), None, Some(0.0)]);
}

#[test]
fn test_countries_differ_on_july_fourth() {
    let vals = [Some(JULY4)];
    let df = DataFrame::new(1, vec![date_col("d", &vals)]).unwrap();

    let mut us = HolidayEncoder::new()
        .columns(&["d"])
        .country(HolidayCountry::US);
    us.fit(df.clone()).unwrap();
    assert_flags(&us.transform(df.clone()).unwrap(), "d", &[Some(1.0)]);

    // July 4th is not a Japanese holiday.
    let mut jp = HolidayEncoder::new()
        .columns(&["d"])
        .country(HolidayCountry::JP);
    jp.fit(df.clone()).unwrap();
    assert_flags(&jp.transform(df).unwrap(), "d", &[Some(0.0)]);
}

#[test]
fn test_us_thanksgiving_multi_year() {
    let mut enc = HolidayEncoder::new()
        .columns(&["d"])
        .country(HolidayCountry::US);
    let df = fit_on(
        &mut enc,
        &[
            Some(d(2024, 11, 28)),
            Some(d(2025, 11, 27)),
            Some(d(2026, 11, 26)),
            Some(d(2025, 11, 28)), // the day after, not a holiday
        ],
    );
    let out = enc.transform(df).unwrap();
    assert_flags(&out, "d", &[Some(1.0), Some(1.0), Some(1.0), Some(0.0)]);
}

#[test]
fn holiday_encoder_test_not_fitted_error() {
    let df = DataFrame::new(1, vec![date_col("d", &[Some(D0)])]).unwrap();
    let enc = HolidayEncoder::new().columns(&["d"]);
    let err = enc.transform(df).unwrap_err();
    assert!(matches!(err, Error::NotFitted(_)), "got {err:?}");
}

// --- calendar contents ---------------------------------------------------

#[test]
fn test_easter_relative_holidays() {
    // Easter 2024 was 2024-03-31.
    let vals = [
        Some(d(2024, 3, 29)), // Good Friday
        Some(d(2024, 4, 1)),  // Easter Monday
        Some(d(2024, 5, 9)),  // Ascension (Easter + 39)
        Some(d(2024, 5, 20)), // Whit Monday (Easter + 50)
    ];
    let df = DataFrame::new(vals.len(), vec![date_col("d", &vals)]).unwrap();

    let mut gb = HolidayEncoder::new()
        .columns(&["d"])
        .country(HolidayCountry::GB);
    gb.fit(df.clone()).unwrap();
    assert_flags(
        &gb.transform(df.clone()).unwrap(),
        "d",
        &[Some(1.0), Some(1.0), Some(0.0), Some(0.0)],
    );

    let mut de = HolidayEncoder::new()
        .columns(&["d"])
        .country(HolidayCountry::DE);
    de.fit(df.clone()).unwrap();
    assert_flags(
        &de.transform(df.clone()).unwrap(),
        "d",
        &[Some(1.0), Some(1.0), Some(1.0), Some(1.0)],
    );

    let mut fr = HolidayEncoder::new()
        .columns(&["d"])
        .country(HolidayCountry::FR);
    fr.fit(df.clone()).unwrap();
    // Good Friday is not a French national holiday.
    assert_flags(
        &fr.transform(df.clone()).unwrap(),
        "d",
        &[Some(0.0), Some(1.0), Some(1.0), Some(1.0)],
    );

    let mut us = HolidayEncoder::new()
        .columns(&["d"])
        .country(HolidayCountry::US);
    us.fit(df.clone()).unwrap();
    assert_flags(
        &us.transform(df).unwrap(),
        "d",
        &[Some(0.0), Some(0.0), Some(0.0), Some(0.0)],
    );
}

#[test]
fn test_us_nth_weekday_holidays() {
    let mut enc = HolidayEncoder::new()
        .columns(&["d"])
        .country(HolidayCountry::US);
    let df = fit_on(
        &mut enc,
        &[
            Some(d(2024, 1, 15)),  // MLK Day, 3rd Mon Jan
            Some(d(2024, 2, 19)),  // Washington's Birthday, 3rd Mon Feb
            Some(d(2024, 5, 27)),  // Memorial Day, last Mon May
            Some(d(2024, 9, 2)),   // Labor Day, 1st Mon Sep
            Some(d(2024, 10, 14)), // Columbus Day, 2nd Mon Oct
            Some(d(2024, 1, 8)),   // 2nd Mon Jan: not a US holiday
        ],
    );
    let out = enc.transform(df).unwrap();
    assert_flags(
        &out,
        "d",
        &[
            Some(1.0),
            Some(1.0),
            Some(1.0),
            Some(1.0),
            Some(1.0),
            Some(0.0),
        ],
    );
}

#[test]
fn test_gb_bank_holidays() {
    let mut enc = HolidayEncoder::new()
        .columns(&["d"])
        .country(HolidayCountry::GB);
    let df = fit_on(
        &mut enc,
        &[
            Some(d(2024, 1, 1)),   // New Year's Day
            Some(d(2024, 5, 6)),   // Early May bank holiday, 1st Mon May
            Some(d(2024, 5, 27)),  // Spring bank holiday, last Mon May
            Some(d(2024, 8, 26)),  // Summer bank holiday, last Mon Aug
            Some(d(2024, 12, 26)), // Boxing Day
            Some(d(2024, 8, 19)),  // 3rd Mon Aug: not a holiday
        ],
    );
    let out = enc.transform(df).unwrap();
    assert_flags(
        &out,
        "d",
        &[
            Some(1.0),
            Some(1.0),
            Some(1.0),
            Some(1.0),
            Some(1.0),
            Some(0.0),
        ],
    );
}

#[test]
fn test_japanese_holidays() {
    let mut enc = HolidayEncoder::new()
        .columns(&["d"])
        .country(HolidayCountry::JP);
    let df = fit_on(
        &mut enc,
        &[
            Some(d(2024, 1, 8)),   // Coming of Age Day, 2nd Mon Jan
            Some(d(2024, 5, 5)),   // Children's Day
            Some(d(2024, 7, 15)),  // Marine Day, 3rd Mon Jul
            Some(d(2024, 9, 16)),  // Respect for the Aged Day, 3rd Mon Sep
            Some(d(2024, 10, 14)), // Sports Day, 2nd Mon Oct
            Some(d(2024, 11, 23)), // Labor Thanksgiving Day
            Some(d(2024, 7, 4)),   // US Independence Day, no JP holiday
        ],
    );
    let out = enc.transform(df).unwrap();
    assert_flags(
        &out,
        "d",
        &[
            Some(1.0),
            Some(1.0),
            Some(1.0),
            Some(1.0),
            Some(1.0),
            Some(1.0),
            Some(0.0),
        ],
    );
}

#[test]
fn test_indian_fixed_holidays() {
    let mut enc = HolidayEncoder::new()
        .columns(&["d"])
        .country(HolidayCountry::IN);
    let df = fit_on(
        &mut enc,
        &[
            Some(d(2024, 1, 26)), // Republic Day
            Some(d(2024, 8, 15)), // Independence Day
            Some(d(2024, 10, 2)), // Gandhi Jayanti
            Some(d(2024, 8, 14)),
        ],
    );
    let out = enc.transform(df).unwrap();
    assert_flags(&out, "d", &[Some(1.0), Some(1.0), Some(1.0), Some(0.0)]);
}

#[test]
fn test_juneteenth_only_from_2021() {
    let mut enc = HolidayEncoder::new()
        .columns(&["d"])
        .country(HolidayCountry::US);
    let df = fit_on(
        &mut enc,
        &[
            Some(d(2020, 6, 19)),
            Some(d(2021, 6, 19)),
            Some(d(2024, 6, 19)),
        ],
    );
    let out = enc.transform(df).unwrap();
    assert_flags(&out, "d", &[Some(0.0), Some(1.0), Some(1.0)]);
}

#[test]
fn test_german_unity_day_only_from_1990() {
    let mut enc = HolidayEncoder::new()
        .columns(&["d"])
        .country(HolidayCountry::DE);
    let df = fit_on(
        &mut enc,
        &[
            Some(d(1985, 10, 3)),
            Some(d(1990, 10, 3)),
            Some(d(2024, 10, 3)),
        ],
    );
    let out = enc.transform(df).unwrap();
    assert_flags(&out, "d", &[Some(0.0), Some(1.0), Some(1.0)]);
}

#[test]
fn test_japanese_emperors_birthday_era_bounds() {
    let mut enc = HolidayEncoder::new()
        .columns(&["d"])
        .country(HolidayCountry::JP);
    let df = fit_on(
        &mut enc,
        &[
            Some(d(1985, 12, 23)), // Showa era: Dec 23 was an ordinary day
            Some(d(1989, 12, 23)), // first Heisei-era celebration
            Some(d(2015, 12, 23)), // Heisei era Emperor's Birthday
            Some(d(2018, 12, 23)), // last Heisei-era occurrence
            Some(d(2024, 12, 23)), // no longer a holiday
            Some(d(2015, 2, 23)),  // not yet a holiday
            Some(d(2024, 2, 23)),  // Reiwa era Emperor's Birthday
        ],
    );
    let out = enc.transform(df).unwrap();
    assert_flags(
        &out,
        "d",
        &[
            Some(0.0),
            Some(1.0),
            Some(1.0),
            Some(1.0),
            Some(0.0),
            Some(0.0),
            Some(1.0),
        ],
    );
}

#[test]
fn test_weekend_holiday_marked_without_substitute_day() {
    // 2021-12-25 was a Saturday and 2022-01-01 a Saturday: both are marked
    // on their own calendar day, and the US observed days (2021-12-24,
    // 2021-12-31) are not holidays.
    let mut enc = HolidayEncoder::new()
        .columns(&["d"])
        .country(HolidayCountry::US);
    let df = fit_on(
        &mut enc,
        &[
            Some(d(2021, 12, 25)),
            Some(d(2021, 12, 24)),
            Some(d(2022, 1, 1)),
            Some(d(2021, 12, 31)),
        ],
    );
    let out = enc.transform(df).unwrap();
    assert_flags(&out, "d", &[Some(1.0), Some(0.0), Some(1.0), Some(0.0)]);
}

// --- dtype handling ------------------------------------------------------

#[test]
fn test_datetime_with_time_resolves_to_calendar_day() {
    // 2024-07-04T13:30Z is still Independence Day; 2024-07-03T23:30Z is not.
    let vals = [
        Some(T0 + 185 * DAY_US + 13 * 3_600_000_000),
        Some(T0 + 184 * DAY_US - 1_800_000_000),
    ];
    let df = DataFrame::new(2, vec![datetime_col("t", &vals, None)]).unwrap();

    let mut enc = HolidayEncoder::new()
        .columns(&["t"])
        .country(HolidayCountry::US);
    enc.fit(df.clone()).unwrap();
    let out = enc.transform(df).unwrap();
    assert_flags(&out, "t", &[Some(1.0), Some(0.0)]);
}

#[test]
fn test_timezone_aware_datetime_uses_utc_naive_day() {
    let vals = [Some(T0 + 185 * DAY_US + 3_600_000_000)];
    let df = DataFrame::new(1, vec![datetime_col("t", &vals, Some(TimeZone::UTC))]).unwrap();

    let mut enc = HolidayEncoder::new()
        .columns(&["t"])
        .country(HolidayCountry::US);
    enc.fit(df.clone()).unwrap();
    let out = enc.transform(df).unwrap();
    assert_flags(&out, "t", &[Some(1.0)]);
}

#[test]
fn test_multiple_columns() {
    let a = date_col("a", &[Some(D0), Some(JULY4)]);
    let b = date_col("b", &[Some(JULY4 + 1), Some(D0)]);
    let df = DataFrame::new(2, vec![a, b]).unwrap();

    let mut enc = HolidayEncoder::new()
        .columns(&["a", "b"])
        .country(HolidayCountry::US);
    enc.fit(df.clone()).unwrap();
    let out = enc.transform(df).unwrap();
    assert_flags(&out, "a", &[Some(1.0), Some(1.0)]);
    assert_flags(&out, "b", &[Some(0.0), Some(1.0)]);
    assert_eq!(out.width(), 4);
}

// --- out-of-range years --------------------------------------------------

#[test]
fn test_year_outside_fitted_range_uses_rules() {
    // Fit on 2024 only, then transform a 2030 frame: the row is outside the
    // cached day range and must be answered from the rules.
    let fit_df = DataFrame::new(1, vec![date_col("d", &[Some(D0)])]).unwrap();
    let later = DataFrame::new(
        3,
        vec![date_col(
            "d",
            &[
                Some(d(2030, 1, 1)),   // New Year's Day
                Some(d(2030, 1, 2)),   // not a holiday
                Some(d(2030, 11, 28)), // Thanksgiving
            ],
        )],
    )
    .unwrap();

    let mut enc = HolidayEncoder::new()
        .columns(&["d"])
        .country(HolidayCountry::US);
    enc.fit(fit_df).unwrap();
    let out = enc.transform(later).unwrap();
    assert_flags(&out, "d", &[Some(1.0), Some(0.0), Some(1.0)]);
}

#[test]
fn test_year_before_fitted_range_uses_rules() {
    let fit_df = DataFrame::new(1, vec![date_col("d", &[Some(D0)])]).unwrap();
    let earlier = DataFrame::new(
        2,
        vec![date_col(
            "d",
            &[Some(d(1999, 12, 25)), Some(d(1999, 12, 24))],
        )],
    )
    .unwrap();

    let mut enc = HolidayEncoder::new()
        .columns(&["d"])
        .country(HolidayCountry::DE);
    enc.fit(fit_df).unwrap();
    let out = enc.transform(earlier).unwrap();
    assert_flags(&out, "d", &[Some(1.0), Some(0.0)]);
}

// --- fit-time validation -------------------------------------------------

#[test]
fn holiday_encoder_test_empty_dataframe_rejected() {
    let mut enc = HolidayEncoder::new().columns(&["d"]);
    let err = enc.fit(DataFrame::empty()).unwrap_err();
    assert!(matches!(err, Error::InvalidInput(_)), "got {err:?}");
}

#[test]
fn test_non_date_column_rejected() {
    let f = Column::from(Series::new("x".into(), &[1.0_f64, 2.0]));
    let df = DataFrame::new(2, vec![f]).unwrap();
    let mut enc = HolidayEncoder::new().columns(&["x"]);
    match enc.fit(df).unwrap_err() {
        Error::InvalidInput(msg) => {
            // polars displays Float64 as `f64`.
            assert!(msg.contains("f64"), "dtype not named: {msg}")
        }
        other => panic!("expected Error::InvalidInput, got {other:?}"),
    }
}

#[test]
fn test_string_column_rejected() {
    let s = Column::from(Series::new("s".into(), &["2024-01-01"]));
    let df = DataFrame::new(1, vec![s]).unwrap();
    let mut enc = HolidayEncoder::new().columns(&["s"]);
    match enc.fit(df).unwrap_err() {
        Error::InvalidInput(msg) => {
            // polars displays String as `str`.
            assert!(msg.contains("str"), "dtype not named: {msg}")
        }
        other => panic!("expected Error::InvalidInput, got {other:?}"),
    }
}

#[test]
fn test_missing_column_rejected() {
    let df = DataFrame::new(1, vec![date_col("d", &[Some(D0)])]).unwrap();
    let mut enc = HolidayEncoder::new().columns(&["nope"]);
    assert!(matches!(enc.fit(df).unwrap_err(), Error::InvalidInput(_)));
}

#[test]
fn test_auto_discovery_requires_a_date_column() {
    let f = Column::from(Series::new("x".into(), &[1.0_f64, 2.0]));
    let df = DataFrame::new(2, vec![f]).unwrap();
    let mut enc = HolidayEncoder::new();
    assert!(matches!(enc.fit(df).unwrap_err(), Error::InvalidInput(_)));
}

#[test]
fn test_auto_discovery_uses_date_columns_only() {
    let d = date_col("d", &[Some(D0), Some(D0 + 1)]);
    let f = Column::from(Series::new("x".into(), &[1.0_f64, 2.0]));
    let df = DataFrame::new(2, vec![d, f]).unwrap();

    let mut enc = HolidayEncoder::new();
    enc.fit(df.clone()).unwrap();
    let out = enc.transform(df).unwrap();
    assert!(out.column("d_is_holiday").is_ok());
    assert!(out.column("x_is_holiday").is_err());
    assert_eq!(out.width(), 3);
}

#[test]
fn test_extreme_date_values_do_not_panic() {
    // A corrupt `Date` column can hold any i32 day count, including the
    // extremes, whose years are ~±5.9 million. Neither fit nor transform
    // may overflow or try to materialise that span.
    let mut enc = HolidayEncoder::new()
        .columns(&["d"])
        .country(HolidayCountry::US);
    let df = fit_on(&mut enc, &[Some(i32::MIN), Some(i32::MAX), Some(0)]);
    let out = enc.transform(df).unwrap();
    // 1970-01-01 is New Year's Day; the absurd days match no rule.
    assert_flags(&out, "d", &[Some(0.0), Some(0.0), Some(1.0)]);
}

#[test]
fn test_all_null_column_is_not_an_error() {
    // Nothing to pre-compute, but the column is still encodable (all nulls
    // in, all nulls out).
    let mut enc = HolidayEncoder::new()
        .columns(&["d"])
        .country(HolidayCountry::US);
    let df = fit_on(&mut enc, &[None, None]);
    let out = enc.transform(df).unwrap();
    assert_flags(&out, "d", &[None, None]);
}

#[test]
fn test_duplicate_columns_deduped() {
    let mut enc = HolidayEncoder::new()
        .columns(&["d", "d"])
        .country(HolidayCountry::US);
    let df = fit_on(&mut enc, &[Some(D0), Some(D0 + 1)]);
    let out = enc.transform(df).unwrap();
    // one input column + one generated column
    assert_eq!(out.width(), 2);
    assert_flags(&out, "d", &[Some(1.0), Some(0.0)]);
}

#[test]
fn test_generated_name_collision_rejected() {
    let d = date_col("d", &[Some(D0), Some(D0 + 1)]);
    let clash = date_col("d_is_holiday", &[Some(D0), Some(D0 + 1)]);
    let df = DataFrame::new(2, vec![d, clash]).unwrap();

    let mut enc = HolidayEncoder::new().columns(&["d"]);
    match enc.fit(df).unwrap_err() {
        Error::InvalidInput(msg) => {
            assert!(msg.contains("d_is_holiday"), "name not named: {msg}")
        }
        other => panic!("expected Error::InvalidInput, got {other:?}"),
    }
}

#[test]
fn holiday_encoder_test_transform_input_collision_rejected() {
    let mut enc = HolidayEncoder::new().columns(&["d"]);
    let fit_df = DataFrame::new(1, vec![date_col("d", &[Some(D0)])]).unwrap();
    enc.fit(fit_df).unwrap();

    let d = date_col("d", &[Some(D0)]);
    let clash = date_col("d_is_holiday", &[Some(D0)]);
    let transform_df = DataFrame::new(1, vec![d, clash]).unwrap();
    assert!(matches!(
        enc.transform(transform_df).unwrap_err(),
        Error::InvalidInput(_)
    ));
}

#[test]
fn test_transform_rejects_changed_dtype() {
    let mut enc = HolidayEncoder::new().columns(&["d"]);
    let fit_df = DataFrame::new(1, vec![date_col("d", &[Some(D0)])]).unwrap();
    enc.fit(fit_df).unwrap();

    let s = Column::from(Series::new("d".into(), &[1.0_f64]));
    let transform_df = DataFrame::new(1, vec![s]).unwrap();
    assert!(matches!(
        enc.transform(transform_df).unwrap_err(),
        Error::InvalidInput(_)
    ));
}

// --- builders and state --------------------------------------------------

#[test]
fn holiday_encoder_test_default_equals_new() {
    let def = HolidayEncoder::default();
    let new = HolidayEncoder::new();
    assert_eq!(def.selected_country(), new.selected_country());
    assert_eq!(def.selected_country(), HolidayCountry::US);
    assert_eq!(def.is_fitted(), new.is_fitted());
    assert!(!def.is_fitted());
    assert!(def.0.selected_columns().is_none());
}

#[test]
fn test_country_builder_selects_calendar() {
    let vals = [Some(JULY4)];
    let df = DataFrame::new(1, vec![date_col("d", &vals)]).unwrap();

    let mut us = HolidayEncoder::new();
    us = us.columns(&["d"]).country(HolidayCountry::US);
    us.fit(df.clone()).unwrap();
    assert_flags(&us.transform(df.clone()).unwrap(), "d", &[Some(1.0)]);

    let mut jp = HolidayEncoder::new();
    jp = jp.columns(&["d"]).country(HolidayCountry::JP);
    jp.fit(df.clone()).unwrap();
    assert_flags(&jp.transform(df).unwrap(), "d", &[Some(0.0)]);
}

#[test]
fn holiday_encoder_test_failed_refit_resets_fitted_state() {
    let mut enc = HolidayEncoder::new()
        .columns(&["d"])
        .country(HolidayCountry::US);
    let df1 = fit_on(&mut enc, &[Some(D0)]);
    assert!(enc.transform(df1).is_ok());

    // Re-fit on a frame that has no Date/Datetime column named "d".
    let bad =
        DataFrame::new(1, vec![Column::from(Series::new("x".into(), &[1.0_f64]))]).unwrap();
    assert!(enc.fit(bad).is_err());

    let err = enc
        .transform(DataFrame::new(1, vec![date_col("d", &[Some(D0)])]).unwrap())
        .unwrap_err();
    assert!(matches!(err, Error::NotFitted(_)), "got {err:?}");
}

#[test]
fn holiday_encoder_test_setter_after_fit_invalidates() {
    let df = DataFrame::new(1, vec![date_col("d", &[Some(D0)])]).unwrap();

    let mut enc = HolidayEncoder::new().columns(&["d"]);
    enc.fit(df.clone()).unwrap();
    assert!(enc.transform(df.clone()).is_ok());

    let mut enc = enc.country(HolidayCountry::GB);
    assert!(matches!(
        enc.transform(df.clone()).unwrap_err(),
        Error::NotFitted(_)
    ));

    enc.fit(df.clone()).unwrap();
    let enc = enc.columns(&["d"]);
    assert!(matches!(
        enc.transform(df).unwrap_err(),
        Error::NotFitted(_)
    ));
}
