#![allow(dead_code, unused_imports)]

use approx::RelativeEq;
use featrs::double::Double;
use featrs::error::Error as Fault;
use featrs::error::Kind;
use featrs::frame::Cells;
use featrs::frame::Column as FrameColumn;
use featrs::frame::Frame;
use featrs::frame::Number;
use featrs::frame::Resolution;
use featrs::frame::Sheet;
use featrs::frame::Values;
use featrs::program::Operation;
use featrs::program::Program;
use featrs::program::Query;
use featrs::text::Text;
use featrs::time_series::cyclical::CyclicalEncoder as InnerCyclicalEncoder;
use polars::prelude::AnyValue;
use polars::prelude::ChunkAgg;
use polars::prelude::Column;
use polars::prelude::DataFrame;
use polars::prelude::DataType;
use polars::prelude::IntoSeries;
use polars::prelude::NamedFrom;
use polars::prelude::PolarsError;
use polars::prelude::Series;
use polars::prelude::StringChunked;
use polars::prelude::TimeUnit;
use statrs::function::gamma::digamma;
use std::fmt;

/// What a transformer reports.
#[derive(Debug)]
pub enum Error {
    InvalidInput(String),
    NotFitted(String),
    Computation(String),
}

impl fmt::Display for Error {
    fn fmt(&self, f: &mut fmt::Formatter<'_>) -> fmt::Result {
        match self {
            Error::InvalidInput(message) => f.write_str(&format!("invalid input: {message}")),
            Error::NotFitted(message) => f.write_str(&format!("not fitted: {message}")),
            Error::Computation(message) => f.write_str(&format!("computation error: {message}")),
        }
    }
}

impl From<Fault> for Error {
    fn from(e: Fault) -> Self {
        let mut message: String = e.message().chars.iter().collect();
        if let Some(d) = e.number() {
            message.push_str(&f64::from_bits(d.bits).to_string());
        }
        match e.kind() {
            Kind::InvalidInput => Error::InvalidInput(message),
            Kind::NotFitted => Error::NotFitted(message),
            Kind::Computation => Error::Computation(message),
        }
    }
}

pub type Result<T> = std::result::Result<T, Error>;

/// Learns from a frame.
pub trait Fit<X> {
    type Output;
    fn fit(&mut self, x: X) -> Result<Self::Output>;
}

/// Learns from a frame and a target.
pub trait FitSupervised<X, Y> {
    type Output;
    fn fit(&mut self, x: X, y: Y) -> Result<Self::Output>;
}

/// Makes a frame of a frame.
pub trait Transform<X> {
    type Output;
    fn transform(&self, x: X) -> Result<Self::Output>;
}

/// A number by its bits.
pub fn double(v: f64) -> Double {
    Double { bits: v.to_bits() }
}

/// A number from its bits.
pub fn float(d: Double) -> f64 {
    f64::from_bits(d.bits)
}

/// A text as a string.
pub fn string(t: &Text) -> String {
    t.chars.iter().collect()
}

/// The cells of a series.
fn values_of(s: &Series) -> Result<Values> {
    let failed = |e: PolarsError| Error::Computation(e.to_string());
    Ok(match s.dtype() {
        DataType::String => Values::Text(
            s.str().map_err(failed)?.iter().map(|v| v.map(Text::of)).collect(),
        ),
        DataType::Float64 => Values::Float64(
            s.f64().map_err(failed)?.iter().map(|v| v.map(double)).collect(),
        ),
        DataType::Date => Values::Date(
            s.to_physical_repr().i32().map_err(failed)?.iter().collect(),
        ),
        DataType::Datetime(unit, _) => {
            let resolution = match unit {
                TimeUnit::Nanoseconds => Resolution::Nanoseconds,
                TimeUnit::Microseconds => Resolution::Microseconds,
                TimeUnit::Milliseconds => Resolution::Milliseconds,
            };
            Values::Datetime(
                resolution,
                s.to_physical_repr().i64().map_err(failed)?.iter().collect(),
            )
        }
        other => Values::Other(Text::of(&other.to_string()), s.len()),
    })
}

/// A column as the library reads it.
pub fn column_of(c: &Column) -> Result<FrameColumn> {
    Ok(FrameColumn::new(c.name().as_str(), values_of(c.as_materialized_series())?))
}

/// A frame as the library reads it.
pub fn frame_of(df: &DataFrame) -> Result<Frame> {
    let columns = df.columns().iter().map(column_of).collect::<Result<Vec<FrameColumn>>>()?;
    Ok(Frame::new(df.height(), columns)?)
}

/// The results of a program, front to back.
pub fn evaluate(program: &Program) -> Vec<f64> {
    let mut r: Vec<f64> = Vec::with_capacity(program.len());
    for i in 0..program.len() {
        let value = match program.operation(i) {
            Operation::Value(d) => float(d),
            Operation::Natural(n) => n as f64,
            Operation::Integer(n) => n as f64,
            Operation::FullTurn => 2.0 * std::f64::consts::PI,
            Operation::Plus(a, b) => r[a] + r[b],
            Operation::Minus(a, b) => r[a] - r[b],
            Operation::Times(a, b) => r[a] * r[b],
            Operation::Over(a, b) => r[a] / r[b],
            Operation::Power(a, b) => r[a].powf(r[b]),
            Operation::Square(a) => r[a] * r[a],
            Operation::Root(a) => r[a].sqrt(),
            Operation::Magnitude(a) => r[a].abs(),
            Operation::Lesser(a, b) => r[a].min(r[b]),
            Operation::Greater(a, b) => r[a].max(r[b]),
            Operation::Sine(a) => r[a].sin(),
            Operation::Cosine(a) => r[a].cos(),
            Operation::Logarithm(a) => r[a].ln(),
            Operation::Digamma(a) => digamma(r[a]),
            Operation::Scaled(a, b) => {
                if r[b] > 0.0 {
                    r[a] / r[b]
                } else {
                    r[a]
                }
            }
        };
        r.push(value);
    }
    r
}

/// The results of a program as the library takes them.
pub fn results(program: &Program) -> Vec<Double> {
    evaluate(program).into_iter().map(double).collect()
}

/// The answers to a query.
pub fn answers(query: &Query) -> Vec<Double> {
    let r = evaluate(query.program());
    query.places().iter().map(|&at| double(r[at])).collect()
}

/// A finished sheet as a frame.
pub fn table(sheet: &Sheet, x: &DataFrame) -> Result<DataFrame> {
    let r = evaluate(&sheet.program);
    let mut columns: Vec<Column> = Vec::with_capacity(sheet.columns.len());
    for c in &sheet.columns {
        let name = string(&c.name);
        columns.push(match &c.cells {
            Cells::Kept(i) => x.columns()[*i].clone(),
            Cells::UInt32(cells) => {
                Column::from(Series::new(name.as_str().into(), cells.as_slice()))
            }
            Cells::Float64(cells) => {
                let values: Vec<Option<f64>> = cells
                    .iter()
                    .map(|cell| {
                        cell.map(|n| match n {
                            Number::Known(d) => float(d),
                            Number::Natural(n) => n as f64,
                            Number::Register(at) => r[at],
                        })
                    })
                    .collect();
                Column::from(Series::new(name.as_str().into(), values.as_slice()))
            }
        });
    }
    DataFrame::new(sheet.height, columns).map_err(|e| Error::Computation(e.to_string()))
}

/// [`InnerCyclicalEncoder`] on frames of polars.
pub struct CyclicalEncoder(InnerCyclicalEncoder);

impl CyclicalEncoder {
    pub fn new(columns: &[&str], period: usize) -> Self {
        Self(InnerCyclicalEncoder::new(columns, period))
    }

    pub fn with_periods(columns: &[(&str, usize)]) -> Self {
        Self(InnerCyclicalEncoder::with_periods(columns))
    }
}

impl Fit<DataFrame> for CyclicalEncoder {
    type Output = ();

    fn fit(&mut self, x: DataFrame) -> Result<()> {
        Ok(self.0.fit(&frame_of(&x)?)?)
    }
}

impl Transform<DataFrame> for CyclicalEncoder {
    type Output = DataFrame;

    fn transform(&self, x: DataFrame) -> Result<DataFrame> {
        table(&self.0.transform(&frame_of(&x)?)?, &x)
    }
}

/// Whether two numbers are equal up to an absolute or a relative error.
fn near(a: f64, b: f64, epsilon: f64, max_relative: f64) {
    assert!(
        RelativeEq::relative_eq(&a, &b, epsilon, max_relative),
        "{a} is not near {b}"
    );
}

#[test]
fn test_cyclical_encoding() {
    let vals = Column::from(Series::new("hour".into(), &[0.0f64, 6.0, 12.0, 18.0]));
    let df = DataFrame::new(4, vec![vals]).unwrap();
    let mut enc = CyclicalEncoder::new(&["hour"], 24);

    enc.fit(df.clone()).unwrap();
    let result = enc.transform(df).unwrap();

    assert_eq!(result.width(), 3); // hour, hour_sin, hour_cos
    let sin = result.column("hour_sin").unwrap().f64().unwrap();
    let cos = result.column("hour_cos").unwrap().f64().unwrap();

    // hour 0: sin=0, cos=1
    near(sin.get(0).unwrap(), 0.0, 1e-6, f64::EPSILON);
    near(cos.get(0).unwrap(), 1.0, 1e-6, f64::EPSILON);
    // hour 6 (90°): sin=1, cos=0
    near(sin.get(1).unwrap(), 1.0, 1e-6, f64::EPSILON);
    near(cos.get(1).unwrap(), 0.0, 1e-6, f64::EPSILON);
}

#[test]
fn test_cyclical_fit_validation() {
    // Test empty DataFrame
    let df_empty = DataFrame::empty();
    let mut enc = CyclicalEncoder::new(&["hour"], 24);
    let err = enc.fit(df_empty).unwrap_err();
    assert!(
        matches!(err, Error::InvalidInput(ref msg) if msg.contains("received an empty DataFrame")),
        "Expected Error::InvalidInput containing 'received an empty DataFrame', got: {:?}",
        err
    );

    // Test non-Float64 column type (Int32)
    let vals = Column::from(Series::new("hour".into(), &[0_i32, 6, 12, 18]));
    let df_int = DataFrame::new(4, vec![vals]).unwrap();
    let mut enc = CyclicalEncoder::new(&["hour"], 24);
    let err = enc.fit(df_int).unwrap_err();
    assert!(
        matches!(err, Error::InvalidInput(ref msg) if msg.contains("expected Float64")),
        "Expected Error::InvalidInput containing 'expected Float64', got: {:?}",
        err
    );

    // Test missing column
    let vals = Column::from(Series::new("day".into(), &[1.0_f64, 2.0]));
    let df_wrong_col = DataFrame::new(2, vec![vals]).unwrap();
    let mut enc = CyclicalEncoder::new(&["hour"], 24);
    let err = enc.fit(df_wrong_col).unwrap_err();
    assert!(
        matches!(err, Error::InvalidInput(ref msg) if msg.contains("column 'hour' not found")),
        "Expected Error::InvalidInput containing 'column 'hour' not found', got: {:?}",
        err
    );

    // Test empty columns list regression test
    let vals = Column::from(Series::new("hour".into(), &[0.0_f64, 6.0]));
    let df = DataFrame::new(2, vec![vals]).unwrap();
    let mut enc = CyclicalEncoder::new(&[], 24);
    let err = enc.fit(df).unwrap_err();
    assert!(
        matches!(err, Error::InvalidInput(ref msg) if msg.contains("at least one column is required")),
        "Expected Error::InvalidInput containing 'at least one column is required', got: {:?}",
        err
    );
}

#[test]
fn test_zero_period_rejected_new() {
    let vals = Column::from(Series::new("hour".into(), &[0.0_f64, 6.0]));
    let df = DataFrame::new(2, vec![vals]).unwrap();
    let mut enc = CyclicalEncoder::new(&["hour"], 0);
    let err = enc.fit(df).unwrap_err();
    assert!(
        matches!(err, Error::InvalidInput(ref msg) if msg.contains("period must be >= 1")),
        "Expected Error::InvalidInput containing 'period must be >= 1', got: {:?}",
        err
    );
}

#[test]
fn test_zero_period_rejected_with_periods() {
    let vals = Column::from(Series::new("hour".into(), &[0.0_f64, 6.0]));
    let df = DataFrame::new(2, vec![vals]).unwrap();
    let mut enc = CyclicalEncoder::with_periods(&[("hour", 0)]);
    let err = enc.fit(df).unwrap_err();
    assert!(
        matches!(err, Error::InvalidInput(ref msg) if msg.contains("period must be >= 1")),
        "Expected Error::InvalidInput containing 'period must be >= 1', got: {:?}",
        err
    );
}

#[test]
fn test_period_one_boundary() {
    // period = 1 is the smallest valid period: integer values land at
    // multiples of 2π, so sin ≈ 0 and cos ≈ 1.
    let vals = Column::from(Series::new("hour".into(), &[0.0_f64, 1.0, 3.0]));
    let df = DataFrame::new(3, vec![vals]).unwrap();
    let mut enc = CyclicalEncoder::new(&["hour"], 1);

    enc.fit(df.clone()).unwrap();
    let result = enc.transform(df).unwrap();

    assert_eq!(result.width(), 3); // hour, hour_sin, hour_cos
    let sin = result.column("hour_sin").unwrap().f64().unwrap();
    let cos = result.column("hour_cos").unwrap().f64().unwrap();

    for i in 0..3 {
        let s = sin.get(i).unwrap();
        let c = cos.get(i).unwrap();
        assert!(
            s.is_finite() && c.is_finite(),
            "period=1 outputs must be finite, got sin={s}, cos={c}"
        );
        near(s, 0.0, 1e-6, f64::EPSILON);
        near(c, 1.0, 1e-6, f64::EPSILON);
    }
}

#[test]
fn cyclical_test_failed_refit_resets_fitted_state() {
    // A successful fit followed by a failed re-fit (zero period) must
    // leave the encoder un-fitted: transform must return NotFitted.
    let vals = Column::from(Series::new("hour".into(), &[0.0_f64, 6.0]));
    let df = DataFrame::new(2, vec![vals]).unwrap();
    let mut enc = CyclicalEncoder::new(&["hour"], 24);

    enc.fit(df.clone()).unwrap();
    assert!(enc.transform(df.clone()).is_ok());

    let bad = CyclicalEncoder::new(&["hour"], 0);
    enc.0.columns = bad.0.columns;
    let err = enc.fit(df.clone()).unwrap_err();
    assert!(
        matches!(err, Error::InvalidInput(ref msg) if msg.contains("period must be >= 1")),
        "Expected Error::InvalidInput containing 'period must be >= 1', got: {:?}",
        err
    );
    assert!(matches!(enc.transform(df), Err(Error::NotFitted(_))));
}
