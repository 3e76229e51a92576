#![allow(dead_code, unused_imports)]

use featrs::double::Double;
use featrs::error::Error as Fault;
use featrs::error::Kind;
use featrs::frame::Cells;
use featrs::frame::Column as FrameColumn;
use featrs::frame::Frame;
use featrs::frame::Number;
use featrs::frame::Resolution;
use featrs::frame::Sheet;
use featrs::frame::Values;
use featrs::preprocessing::time_since::ReferenceTime;
use featrs::preprocessing::time_since::TimeSince as InnerTimeSince;
use featrs::preprocessing::time_since::TimeUnit as SinceUnit;
use featrs::program::Operation;
use featrs::program::Program;
use featrs::program::Query;
use featrs::text::Text;
use polars::prelude::AnyValue;
use polars::prelude::ChunkAgg;
use polars::prelude::Column;
use polars::prelude::DataFrame;
use polars::prelude::DataType;
use polars::prelude::IntoSeries;
use polars::prelude::NamedFrom;
use polars::prelude::PolarsError;
use polars::prelude::Series;
use polars::prelude::StringChunked;
use polars::prelude::TimeUnit;
use statrs::function::gamma::digamma;
use std::fmt;

/// What a transformer reports.
#[derive(Debug)]
pub enum Error {
    InvalidInput(String),
    NotFitted(String),
    Computation(String),
}

impl fmt::Display for Error {
    fn fmt(&self, f: &mut fmt::Formatter<'_>) -> fmt::Result {
        match self {
            Error::InvalidInput(message) => f.write_str(&format!("invalid input: {message}")),
            Error::NotFitted(message) => f.write_str(&format!("not fitted: {message}")),
            Error::Computation(message) => f.write_str(&format!("computation error: {message}")),
        }
    }
}

impl From<Fault> for Error {
    fn from(e: Fault) -> Self {
        let mut message: String = e.message().chars.iter().collect();
        if let Some(d) = e.number() {
            message.push_str(&f64::from_bits(d.bits).to_string());
        }
        match e.kind() {
            Kind::InvalidInput => Error::InvalidInput(message),
            Kind::NotFitted => Error::NotFitted(message),
            Kind::Computation => Error::Computation(message),
        }
    }
}

pub type Result<T> = std::result::Result<T, Error>;

/// Learns from a frame.
pub trait Fit<X> {
    type Output;
    fn fit(&mut self, x: X) -> Result<Self::Output>;
}

/// Learns from a frame and a target.
pub trait FitSupervised<X, Y> {
    type Output;
    fn fit(&mut self, x: X, y: Y) -> Result<Self::Output>;
}

/// Makes a frame of a frame.
pub trait Transform<X> {
    type Output;
    fn transform(&self, x: X) -> Result<Self::Output>;
}

/// A number by its bits.
pub fn double(v: f64) -> Double {
    Double { bits: v.to_bits() }
}

/// A number from its bits.
pub fn float(d: Double) -> f64 {
    f64::from_bits(d.bits)
}

/// A text as a string.
pub fn string(t: &Text) -> String {
    t.chars.iter().collect()
}

/// The cells of a series.
fn values_of(s: &Series) -> Result<Values> {
    let failed = |e: PolarsError| Error::Computation(e.to_string());
    Ok(match s.dtype() {
        DataType::String => Values::Text(
            s.str().map_err(failed)?.iter().map(|v| v.map(Text::of)).collect(),
        ),
        DataType::Float64 => Values::Float64(
            s.f64().map_err(failed)?.iter().map(|v| v.map(double)).collect(),
        ),
        DataType::Date => Values::Date(
            s.to_physical_repr().i32().map_err(failed)?.iter().collect(),
        ),
        DataType::Datetime(unit, _) => {
            let resolution = match unit {
                TimeUnit::Nanoseconds => Resolution::Nanoseconds,
                TimeUnit::Microseconds => Resolution::Microseconds,
                TimeUnit::Milliseconds => Resolution::Milliseconds,
            };
            Values::Datetime(
                resolution,
                s.to_physical_repr().i64().map_err(failed)?.iter().collect(),
            )
        }
        other => Values::Other(Text::of(&other.to_string()), s.len()),
    })
}

/// A column as the library reads it.
pub fn column_of(c: &Column) -> Result<FrameColumn> {
    Ok(FrameColumn::new(c.name().as_str(), values_of(c.as_materialized_series())?))
}

/// A frame as the library reads it.
pub fn frame_of(df: &DataFrame) -> Result<Frame> {
    let columns = df.columns().iter().map(column_of).collect::<Result<Vec<FrameColumn>>>()?;
    Ok(Frame::new(df.height(), columns)?)
}

/// The results of a program, front to back.
pub fn evaluate(program: &Program) -> Vec<f64> {
    let mut r: Vec<f64> = Vec::with_capacity(program.len());
    for i in 0..program.len() {
        let value = match program.operation(i) {
            Operation::Value(d) => float(d),
            Operation::Natural(n) => n as f64,
            Operation::Integer(n) => n as f64,
            Operation::FullTurn => 2.0 * std::f64::consts::PI,
            Operation::Plus(a, b) => r[a] + r[b],
            Operation::Minus(a, b) => r[a] - r[b],
            Operation::Times(a, b) => r[a] * r[b],
            Operation::Over(a, b) => r[a] / r[b],
            Operation::Power(a, b) => r[a].powf(r[b]),
            Operation::Square(a) => r[a] * r[a],
            Operation::Root(a) => r[a].sqrt(),
            Operation::Magnitude(a) => r[a].abs(),
            Operation::Lesser(a, b) => r[a].min(r[b]),
            Operation::Greater(a, b) => r[a].max(r[b]),
            Operation::Sine(a) => r[a].sin(),
            Operation::Cosine(a) => r[a].cos(),
            Operation::Logarithm(a) => r[a].ln(),
            Operation::Digamma(a) => digamma(r[a]),
            Operation::Scaled(a, b) => {
                if r[b] > 0.0 {
                    r[a] / r[b]
                } else {
                    r[a]
                }
            }
        };
        r.push(value);
    }
    r
}

/// The results of a program as the library takes them.
pub fn results(program: &Program) -> Vec<Double> {
    evaluate(program).into_iter().map(double).collect()
}

/// The answers to a query.
pub fn answers(query: &Query) -> Vec<Double> {
    let r = evaluate(query.program());
    query.places().iter().map(|&at| double(r[at])).collect()
}

/// A finished sheet as a frame.
pub fn table(sheet: &Sheet, x: &DataFrame) -> Result<DataFrame> {
    let r = evaluate(&sheet.program);
    let mut columns: Vec<Column> = Vec::with_capacity(sheet.columns.len());
    for c in &sheet.columns {
        let name = string(&c.name);
        columns.push(match &c.cells {
            Cells::Kept(i) => x.columns()[*i].clone(),
            Cells::UInt32(cells) => {
                Column::from(Series::new(name.as_str().into(), cells.as_slice()))
            }
            Cells::Float64(cells) => {
                let values: Vec<Option<f64>> = cells
                    .iter()
                    .map(|cell| {
                        cell.map(|n| match n {
                            Number::Known(d) => float(d),
                            Number::Natural(n) => n as f64,
                            Number::Register(at) => r[at],
                        })
                    })
                    .collect();
                Column::from(Series::new(name.as_str().into(), values.as_slice()))
            }
        });
    }
    DataFrame::new(sheet.height, columns).map_err(|e| Error::Computation(e.to_string()))
}

/// [`InnerTimeSince`] on frames of polars.
pub struct TimeSince(InnerTimeSince);

impl TimeSince {
    pub fn new() -> Self {
        Self(InnerTimeSince::new())
    }

    pub fn columns(self, cols: &[&str]) -> Self {
        Self(self.0.columns(cols))
    }

    pub fn unit(self, unit: SinceUnit) -> Self {
        Self(self.0.unit(unit))
    }

    pub fn reference(self, reference: ReferenceTime) -> Self {
        Self(self.0.reference(reference))
    }

    pub fn selected_unit(&self) -> SinceUnit {
        self.0.selected_unit()
    }

    pub fn selected_reference(&self) -> ReferenceTime {
        self.0.selected_reference()
    }

    pub fn is_fitted(&self) -> bool {
        self.0.is_fitted()
    }
}

impl Default for TimeSince {
    fn default() -> Self {
        Self(InnerTimeSince::default())
    }
}

impl Fit<DataFrame> for TimeSince {
    type Output = ();

    fn fit(&mut self, x: DataFrame) -> Result<()> {
        Ok(self.0.fit(&frame_of(&x)?)?)
    }
}

impl Transform<DataFrame> for TimeSince {
    type Output = DataFrame;

    fn transform(&self, x: DataFrame) -> Result<DataFrame> {
        table(&self.0.transform(&frame_of(&x)?)?, &x)
    }
}

/// Days since the Unix epoch of 2023-01-01 (a non-leap-year reference).
const DAY0: i32 = 19_358;
/// Microseconds since the Unix epoch of 2024-01-01T00:00:00Z.
const T0: i64 = 1_704_067_200_000_000;
/// Microseconds in one day.
const DAY_US: i64 = 86_400_000_000;

fn date_col(name: &str, vals: &[Option<i32>]) -> Column {
    Series::new(name.into(), vals)
        .cast(&DataType::Date)
        .unwrap()
        .into()
}

fn datetime_col(name: &str, vals: &[Option<i64>]) -> Column {
    Series::new(name.into(), vals)
        .cast(&DataType::Datetime(TimeUnit::Microseconds, None))
        .unwrap()
        .into()
}

#[test]
fn test_min_reference_days() {
    // Jan 1, Feb 1, Apr 1 (2023, non-leap) with the default Min reference.
    let col = date_col("d", &[Some(DAY0), Some(DAY0 + 31), Some(DAY0 + 90)]);
    let df = DataFrame::new(3, vec![col]).unwrap();

    let mut xf = TimeSince::new().columns(&["d"]);
    xf.fit(df.clone()).unwrap();
    let out = xf.transform(df).unwrap();

    let days = out.column("d_since_days").unwrap().f64().unwrap();
    assert_eq!(days.get(0), Some(0.0));
    assert_eq!(days.get(1), Some(31.0));
    assert_eq!(days.get(2), Some(90.0));
}

#[test]
fn test_max_reference_days() {
    // Max reference = Apr 1, so Jan 1 is 90 days BEFORE it: signed output.
    let col = date_col("d", &[Some(DAY0), Some(DAY0 + 31), Some(DAY0 + 90)]);
    let df = DataFrame::new(3, vec![col]).unwrap();

    let mut xf = TimeSince::new()
        .columns(&["d"])
        .reference(ReferenceTime::Max);
    xf.fit(df.clone()).unwrap();
    let out = xf.transform(df).unwrap();

    let days = out.column("d_since_days").unwrap().f64().unwrap();
    assert_eq!(days.get(0), Some(-90.0));
    assert_eq!(days.get(1), Some(-59.0));
    assert_eq!(days.get(2), Some(0.0));
}

#[test]
fn test_fixed_reference_signed() {
    // Fixed at 2024-02-01; Jan 1 is before, Apr 1 (leap-year offset) after.
    let col = datetime_col(
        "t",
        &[Some(T0), Some(T0 + 31 * DAY_US), Some(T0 + 91 * DAY_US)],
    );
    let df = DataFrame::new(3, vec![col]).unwrap();

    let mut xf = TimeSince::new()
        .columns(&["t"])
        .reference(ReferenceTime::Fixed(T0 + 31 * DAY_US))
        .unit(SinceUnit::Days);
    xf.fit(df.clone()).unwrap();
    let out = xf.transform(df).unwrap();

    let days = out.column("t_since_days").unwrap().f64().unwrap();
    assert_eq!(days.get(0), Some(-31.0));
    assert_eq!(days.get(1), Some(0.0));
    assert_eq!(days.get(2), Some(60.0));
}

#[test]
fn test_unit_conversion_factor() {
    // One day apart: Days -> 1.0, Hours -> 24.0.
    let col = datetime_col("t", &[Some(T0), Some(T0 + DAY_US)]);
    let df = DataFrame::new(2, vec![col]).unwrap();

    let mut days_xf = TimeSince::new()
        .columns(&["t"])
        .reference(ReferenceTime::Fixed(T0))
        .unit(SinceUnit::Days);
    days_xf.fit(df.clone()).unwrap();
    let days = days_xf.transform(df.clone()).unwrap();
    assert_eq!(
        days.column("t_since_days").unwrap().f64().unwrap().get(1),
        Some(1.0)
    );

    let mut hours_xf = TimeSince::new()
        .columns(&["t"])
        .reference(ReferenceTime::Fixed(T0))
        .unit(SinceUnit::Hours);
    hours_xf.fit(df.clone()).unwrap();
    let hours = hours_xf.transform(df).unwrap();
    assert_eq!(
        hours.column("t_since_hours").unwrap().f64().unwrap().get(1),
        Some(24.0)
    );
}

#[test]
fn test_datetime_min_max_reference() {
    // 2024 (leap year): Jan 1, Feb 1, Apr 1.
    let col = datetime_col(
        "t",
        &[Some(T0), Some(T0 + 31 * DAY_US), Some(T0 + 91 * DAY_US)],
    );
    let df = DataFrame::new(3, vec![col]).unwrap();

    let mut min_xf = TimeSince::new()
        .columns(&["t"])
        .reference(ReferenceTime::Min);
    min_xf.fit(df.clone()).unwrap();
    let min_out = min_xf.transform(df.clone()).unwrap();
    let min_days = min_out.column("t_since_days").unwrap().f64().unwrap();
    assert_eq!(min_days.get(0), Some(0.0));
    assert_eq!(min_days.get(1), Some(31.0));
    assert_eq!(min_days.get(2), Some(91.0));

    let mut max_xf = TimeSince::new()
        .columns(&["t"])
        .reference(ReferenceTime::Max);
    max_xf.fit(df.clone()).unwrap();
    let max_out = max_xf.transform(df).unwrap();
    let max_days = max_out.column("t_since_days").unwrap().f64().unwrap();
    assert_eq!(max_days.get(0), Some(-91.0));
    assert_eq!(max_days.get(1), Some(-60.0));
    assert_eq!(max_days.get(2), Some(0.0));
}

#[test]
fn test_milliseconds_timeunit() {
    // 2024-01-01 and 2024-02-01 in milliseconds.
    let t0_ms = T0 / 1_000;
    let col = Column::from(
        Series::new("t".into(), &[Some(t0_ms), Some(t0_ms + 31 * 86_400_000)])
            .cast(&DataType::Datetime(TimeUnit::Milliseconds, None))
            .unwrap(),
    );
    let df = DataFrame::new(2, vec![col]).unwrap();

    let mut xf = TimeSince::new()
        .columns(&["t"])
        .reference(ReferenceTime::Fixed(T0))
        .unit(SinceUnit::Days);
    xf.fit(df.clone()).unwrap();
    let out = xf.transform(df).unwrap();

    let days = out.column("t_since_days").unwrap().f64().unwrap();
    assert_eq!(days.get(0), Some(0.0));
    assert_eq!(days.get(1), Some(31.0));
}

#[test]
fn test_remaining_unit_conversions() {
    // Whole-week boundaries for exact Weeks output.
    let col = date_col("d", &[Some(DAY0), Some(DAY0 + 7), Some(DAY0 + 14)]);
    let df = DataFrame::new(3, vec![col]).unwrap();
    let fixed = ReferenceTime::Fixed(DAY0 as i64 * DAY_US);

    let mut weeks_xf = TimeSince::new()
        .columns(&["d"])
        .reference(fixed)
        .unit(SinceUnit::Weeks);
    weeks_xf.fit(df.clone()).unwrap();
    let weeks = weeks_xf.transform(df.clone()).unwrap();
    let w = weeks.column("d_since_weeks").unwrap().f64().unwrap();
    assert_eq!(w.get(0), Some(0.0));
    assert_eq!(w.get(1), Some(1.0));
    assert_eq!(w.get(2), Some(2.0));

    // 1 day -> 1440 minutes and 86_400 seconds.
    let col1 = date_col("d", &[Some(DAY0), Some(DAY0 + 1)]);
    let df1 = DataFrame::new(2, vec![col1]).unwrap();

    let mut mins_xf = TimeSince::new()
        .columns(&["d"])
        .reference(fixed)
        .unit(SinceUnit::Minutes);
    mins_xf.fit(df1.clone()).unwrap();
    let mins = mins_xf.transform(df1.clone()).unwrap();
    assert_eq!(
        mins.column("d_since_minutes")
            .unwrap()
            .f64()
            .unwrap()
            .get(1),
        Some(1440.0)
    );

    let mut secs_xf = TimeSince::new()
        .columns(&["d"])
        .reference(fixed)
        .unit(SinceUnit::Seconds);
    secs_xf.fit(df1.clone()).unwrap();
    let secs = secs_xf.transform(df1).unwrap();
    assert_eq!(
        secs.column("d_since_seconds")
            .unwrap()
            .f64()
            .unwrap()
            .get(1),
        Some(86_400.0)
    );
}

#[test]
fn test_null_preservation() {
    let col = date_col("d", &[Some(DAY0), None, Some(DAY0 + 31)]);
    let df = DataFrame::new(3, vec![col]).unwrap();

    let mut xf = TimeSince::new().columns(&["d"]);
    xf.fit(df.clone()).unwrap();
    let out = xf.transform(df).unwrap();

    let days = out.column("d_since_days").unwrap().f64().unwrap();
    assert_eq!(days.get(0), Some(0.0));
    assert!(days.get(1).is_none());
    assert_eq!(days.get(2), Some(31.0));
}

#[test]
fn test_date_column_with_hours_is_whole_days() {
    // A Date column carries no time component, so sub-day units emit the
    // whole-day multiple (1 day -> 24 hours), not a zero time-of-day.
    let col = date_col("d", &[Some(DAY0), Some(DAY0 + 1)]);
    let df = DataFrame::new(2, vec![col]).unwrap();

    let mut xf = TimeSince::new()
        .columns(&["d"])
        .reference(ReferenceTime::Fixed(DAY0 as i64 * DAY_US))
        .unit(SinceUnit::Hours);
    xf.fit(df.clone()).unwrap();
    let out = xf.transform(df).unwrap();

    let hours = out.column("d_since_hours").unwrap().f64().unwrap();
    assert_eq!(hours.get(0), Some(0.0));
    assert_eq!(hours.get(1), Some(24.0));
}

#[test]
fn test_nanosecond_timeunit() {
    // Same instants as the microsecond tests, in nanoseconds.
    let t0_ns = T0 * 1_000;
    let col = Column::from(
        Series::new(
            "t".into(),
            &[Some(t0_ns), Some(t0_ns + 31 * DAY_US * 1_000)],
        )
        .cast(&DataType::Datetime(TimeUnit::Nanoseconds, None))
        .unwrap(),
    );
    let df = DataFrame::new(2, vec![col]).unwrap();

    let mut xf = TimeSince::new()
        .columns(&["t"])
        .reference(ReferenceTime::Fixed(T0))
        .unit(SinceUnit::Days);
    xf.fit(df.clone()).unwrap();
    let out = xf.transform(df).unwrap();

    let days = out.column("t_since_days").unwrap().f64().unwrap();
    assert_eq!(days.get(0), Some(0.0));
    assert_eq!(days.get(1), Some(31.0));
}

#[test]
fn test_auto_discovery_only_datetime_columns() {
    let t = datetime_col("t", &[Some(T0), Some(T0 + DAY_US)]);
    let f = Column::from(Series::new("x".into(), &[1.0_f64, 2.0]));
    let df = DataFrame::new(2, vec![t, f]).unwrap();

    let mut xf = TimeSince::new();
    xf.fit(df.clone()).unwrap();
    let out = xf.transform(df).unwrap();

    assert!(out.column("t_since_days").is_ok());
    assert!(out.column("x_since_days").is_err());
}

#[test]
fn test_duplicate_config_deduped() {
    let col = date_col("d", &[Some(DAY0), Some(DAY0 + 31)]);
    let df = DataFrame::new(2, vec![col]).unwrap();

    let mut xf = TimeSince::new().columns(&["d", "d"]);
    xf.fit(df.clone()).unwrap();
    let out = xf.transform(df).unwrap();

    // one input column + one deduped d_since_days
    assert_eq!(out.width(), 2);
    assert!(out.column("d_since_days").is_ok());
}

#[test]
fn time_since_test_not_fitted_error() {
    let col = date_col("d", &[Some(DAY0), Some(DAY0 + 1)]);
    let df = DataFrame::new(2, vec![col]).unwrap();
    let xf = TimeSince::new().columns(&["d"]);
    let err = xf.transform(df).unwrap_err();
    assert!(matches!(err, Error::NotFitted(_)));
}

#[test]
fn time_since_test_empty_dataframe_rejected() {
    let mut xf = TimeSince::new();
    let err = xf.fit(DataFrame::empty()).unwrap_err();
    assert!(matches!(err, Error::InvalidInput(_)));
}

#[test]
fn test_missing_column_errors() {
    let f = Column::from(Series::new("x".into(), &[1.0_f64, 2.0]));
    let df = DataFrame::new(2, vec![f]).unwrap();
    let mut xf = TimeSince::new().columns(&["nope"]);
    let err = xf.fit(df).unwrap_err();
    assert!(matches!(err, Error::InvalidInput(_)));
}

#[test]
fn test_non_datetime_column_errors() {
    let f = Column::from(Series::new("x".into(), &[1.0_f64, 2.0]));
    let df = DataFrame::new(2, vec![f]).unwrap();
    let mut xf = TimeSince::new().columns(&["x"]);
    let err = xf.fit(df).unwrap_err();
    assert!(matches!(err, Error::InvalidInput(_)));
}

#[test]
fn test_all_null_column_min_reference_errors() {
    let col = date_col("d", &[None, None]);
    let df = DataFrame::new(2, vec![col]).unwrap();
    let mut xf = TimeSince::new().columns(&["d"]);
    let err = xf.fit(df).unwrap_err();
    assert!(matches!(err, Error::InvalidInput(_)));
}

#[test]
fn test_fixed_reference_with_nulls_ok() {
    let col = date_col("d", &[Some(DAY0), None, Some(DAY0 + 31)]);
    let df = DataFrame::new(3, vec![col]).unwrap();

    let mut xf = TimeSince::new()
        .columns(&["d"])
        .reference(ReferenceTime::Fixed(DAY0 as i64 * DAY_US));
    xf.fit(df.clone()).unwrap();
    let out = xf.transform(df).unwrap();

    let days = out.column("d_since_days").unwrap().f64().unwrap();
    assert_eq!(days.get(0), Some(0.0));
    assert!(days.get(1).is_none());
    assert_eq!(days.get(2), Some(31.0));
}

#[test]
fn test_name_collision_at_fit() {
    // "d_since_days" is a real input column; generating it from "d" would
    // silently overwrite it.
    let d = date_col("d", &[Some(DAY0), Some(DAY0 + 1)]);
    let d_since_days = date_col("d_since_days", &[Some(DAY0), Some(DAY0 + 1)]);
    let df = DataFrame::new(2, vec![d, d_since_days]).unwrap();

    let mut xf = TimeSince::new().columns(&["d"]);
    let err = xf.fit(df).unwrap_err();
    match err {
        Error::InvalidInput(msg) => assert!(msg.contains("d_since_days"), "got: {msg}"),
        other => panic!("expected Error::InvalidInput, got {other:?}"),
    }
}

#[test]
fn time_since_test_transform_input_collision_rejected() {
    let d = date_col("d", &[Some(DAY0), Some(DAY0 + 1)]);
    let fit_df = DataFrame::new(2, vec![d]).unwrap();

    let d2 = date_col("d", &[Some(DAY0), Some(DAY0 + 1)]);
    let d_since_days = date_col("d_since_days", &[Some(DAY0 + 5), Some(DAY0 + 6)]);
    let transform_df = DataFrame::new(2, vec![d2, d_since_days]).unwrap();

    let mut xf = TimeSince::new().columns(&["d"]);
    xf.fit(fit_df).unwrap();
    let err = xf.transform(transform_df).unwrap_err();
    assert!(matches!(err, Error::InvalidInput(_)));
}

#[test]
fn time_since_test_default_equals_new() {
    let d = TimeSince::default();
    let n = TimeSince::new();
    assert_eq!(d.selected_unit(), n.selected_unit());
    assert_eq!(d.selected_reference(), n.selected_reference());
    assert_eq!(d.is_fitted(), n.is_fitted());
    assert!(!d.is_fitted());
    assert!(d.0.selected_columns().is_none());
}

#[test]
fn time_since_test_failed_refit_resets_fitted_state() {
    let d = date_col("d", &[Some(DAY0), Some(DAY0 + 1)]);
    let df1 = DataFrame::new(2, vec![d]).unwrap();
    let f = Column::from(Series::new("x".into(), &[1.0_f64, 2.0]));
    let df2 = DataFrame::new(2, vec![f]).unwrap();

    let mut xf = TimeSince::new().columns(&["d"]);
    xf.fit(df1).unwrap();
    // re-fit on data missing the configured column must fail...
    assert!(xf.fit(df2).is_err());
    // ...and must NOT leave the transformer in a fitted state
    let err = xf.transform(DataFrame::empty()).unwrap_err();
    assert!(matches!(err, Error::NotFitted(_)));
}

#[test]
fn test_nanosecond_reference_preserves_precision() {
    // Sub-microsecond values: the learned Min/Max reference must round-trip
    // exactly so the extreme row yields exactly 0.0 elapsed (no truncation
    // to whole microseconds).
    let col = Column::from(
        Series::new("t".into(), &[Some(1_001i64), Some(2_002i64)])
            .cast(&DataType::Datetime(TimeUnit::Nanoseconds, None))
            .unwrap(),
    );
    let df = DataFrame::new(2, vec![col]).unwrap();

    let mut min_xf = TimeSince::new()
        .columns(&["t"])
        .reference(ReferenceTime::Min)
        .unit(SinceUnit::Days);
    min_xf.fit(df.clone()).unwrap();
    let min_days = min_xf
        .transform(df.clone())
        .unwrap()
        .column("t_since_days")
        .unwrap()
        .f64()
        .unwrap()
        .clone();
    assert_eq!(min_days.get(0), Some(0.0));

    let mut max_xf = TimeSince::new()
        .columns(&["t"])
        .reference(ReferenceTime::Max)
        .unit(SinceUnit::Days);
    max_xf.fit(df.clone()).unwrap();
    let max_days = max_xf
        .transform(df)
        .unwrap()
        .column("t_since_days")
        .unwrap()
        .f64()
        .unwrap()
        .clone();
    assert_eq!(max_days.get(1), Some(0.0));
}

#[test]
fn time_since_test_setter_after_fit_invalidates() {
    let col = date_col("d", &[Some(DAY0), Some(DAY0 + 1)]);
    let df = DataFrame::new(2, vec![col]).unwrap();

    let mut xf = TimeSince::new().columns(&["d"]);
    xf.fit(df.clone()).unwrap();
    // Reconfiguring after fit must invalidate fitted state so transform
    // cannot silently apply the previous configuration.
    xf = xf.columns(&["d"]);
    assert!(matches!(
        xf.transform(df.clone()).unwrap_err(),
        Error::NotFitted(_)
    ));

    xf.fit(df.clone()).unwrap();
    xf = xf.unit(SinceUnit::Hours);
    assert!(matches!(
        xf.transform(df.clone()).unwrap_err(),
        Error::NotFitted(_)
    ));

    xf.fit(df.clone()).unwrap();
    xf = xf.reference(ReferenceTime::Max);
    assert!(matches!(xf.transform(df).unwrap_err(), Error::NotFitted(_)));
}
