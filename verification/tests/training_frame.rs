#![allow(dead_code, unused_imports)]

use featrs::double::Double;
use featrs::error::Error as Fault;
use featrs::error::Kind;
use featrs::frame::Cells;
use featrs::frame::Column as FrameColumn;
use featrs::frame::Frame;
use featrs::frame::Number;
use featrs::frame::Resolution;
use featrs::frame::Sheet;
use featrs::frame::Values;
use featrs::preprocessing::encoder_loo::LeaveOneOutEncoder as InnerLeaveOneOutEncoder;
use featrs::program::Operation;
use featrs::program::Program;
use featrs::program::Query;
use featrs::text::Text;
use polars::prelude::AnyValue;
use polars::prelude::ChunkAgg;
use polars::prelude::Column;
use polars::prelude::DataFrame;
use polars::prelude::DataType;
use polars::prelude::IntoSeries;
use polars::prelude::NamedFrom;
use polars::prelude::PolarsError;
use polars::prelude::Series;
use polars::prelude::StringChunked;
use polars::prelude::TimeUnit;
use statrs::function::gamma::digamma;
use std::fmt;

/// What a transformer reports.
#[derive(Debug)]
pub enum Error {
    InvalidInput(String),
    NotFitted(String),
    Computation(String),
}

impl fmt::Display for Error {
    fn fmt(&self, f: &mut fmt::Formatter<'_>) -> fmt::Result {
        match self {
            Error::InvalidInput(message) => f.write_str(&format!("invalid input: {message}")),
            Error::NotFitted(message) => f.write_str(&format!("not fitted: {message}")),
            Error::Computation(message) => f.write_str(&format!("computation error: {message}")),
        }
    }
}

impl From<Fault> for Error {
    fn from(e: Fault) -> Self {
        let mut message: String = e.message().chars.iter().collect();
        if let Some(d) = e.number() {
            message.push_str(&f64::from_bits(d.bits).to_string());
        }
        match e.kind() {
            Kind::InvalidInput => Error::InvalidInput(message),
            Kind::NotFitted => Error::NotFitted(message),
            Kind::Computation => Error::Computation(message),
        }
    }
}

pub type Result<T> = std::result::Result<T, Error>;

/// Learns from a frame.
pub trait Fit<X> {
    type Output;
    fn fit(&mut self, x: X) -> Result<Self::Output>;
}

/// Learns from a frame and a target.
pub trait FitSupervised<X, Y> {
    type Output;
    fn fit(&mut self, x: X, y: Y) -> Result<Self::Output>;
}

/// Makes a frame of a frame.
pub trait Transform<X> {
    type Output;
    fn transform(&self, x: X) -> Result<Self::Output>;
}

/// A number by its bits.
pub fn double(v: f64) -> Double {
    Double { bits: v.to_bits() }
}

/// A number from its bits.
pub fn float(d: Double) -> f64 {
    f64::from_bits(d.bits)
}

/// A text as a string.
pub fn string(t: &Text) -> String {
    t.chars.iter().collect()
}

/// The cells of a series.
fn values_of(s: &Series) -> Result<Values> {
    let failed = |e: PolarsError| Error::Computation(e.to_string());
    Ok(match s.dtype() {
        DataType::String => Values::Text(
            s.str().map_err(failed)?.iter().map(|v| v.map(Text::of)).collect(),
        ),
        DataType::Float64 => Values::Float64(
            s.f64().map_err(failed)?.iter().map(|v| v.map(double)).collect(),
        ),
        DataType::Date => Values::Date(
            s.to_physical_repr().i32().map_err(failed)?.iter().collect(),
        ),
        DataType::Datetime(unit, _) => {
            let resolution = match unit {
                TimeUnit::Nanoseconds => Resolution::Nanoseconds,
                TimeUnit::Microseconds => Resolution::Microseconds,
                TimeUnit::Milliseconds => Resolution::Milliseconds,
            };
            Values::Datetime(
                resolution,
                s.to_physical_repr().i64().map_err(failed)?.iter().collect(),
            )
        }
        other => Values::Other(Text::of(&other.to_string()), s.len()),
    })
}

/// A column as the library reads it.
pub fn column_of(c: &Column) -> Result<FrameColumn> {
    Ok(FrameColumn::new(c.name().as_str(), values_of(c.as_materialized_series())?))
}

/// A frame as the library reads it.
pub fn frame_of(df: &DataFrame) -> Result<Frame> {
    let columns = df.columns().iter().map(column_of).collect::<Result<Vec<FrameColumn>>>()?;
    Ok(Frame::new(df.height(), columns)?)
}

/// The results of a program, front to back.
pub fn evaluate(program: &Program) -> Vec<f64> {
    let mut r: Vec<f64> = Vec::with_capacity(program.len());
    for i in 0..program.len() {
        let value = match program.operation(i) {
            Operation::Value(d) => float(d),
            Operation::Natural(n) => n as f64,
            Operation::Integer(n) => n as f64,
            Operation::FullTurn => 2.0 * std::f64::consts::PI,
            Operation::Plus(a, b) => r[a] + r[b],
            Operation::Minus(a, b) => r[a] - r[b],
            Operation::Times(a, b) => r[a] * r[b],
            Operation::Over(a, b) => r[a] / r[b],
            Operation::Power(a, b) => r[a].powf(r[b]),
            Operation::Square(a) => r[a] * r[a],
            Operation::Root(a) => r[a].sqrt(),
            Operation::Magnitude(a) => r[a].abs(),
            Operation::Lesser(a, b) => r[a].min(r[b]),
            Operation::Greater(a, b) => r[a].max(r[b]),
            Operation::Sine(a) => r[a].sin(),
            Operation::Cosine(a) => r[a].cos(),
            Operation::Logarithm(a) => r[a].ln(),
            Operation::Digamma(a) => digamma(r[a]),
            Operation::Scaled(a, b) => {
                if r[b] > 0.0 {
                    r[a] / r[b]
                } else {
                    r[a]
                }
            }
        };
        r.push(value);
    }
    r
}

/// The results of a program as the library takes them.
pub fn results(program: &Program) -> Vec<Double> {
    evaluate(program).into_iter().map(double).collect()
}

/// The answers to a query.
pub fn answers(query: &Query) -> Vec<Double> {
    let r = evaluate(query.program());
    query.places().iter().map(|&at| double(r[at])).collect()
}

/// A finished sheet as a frame.
pub fn table(sheet: &Sheet, x: &DataFrame) -> Result<DataFrame> {
    let r = evaluate(&sheet.program);
    let mut columns: Vec<Column> = Vec::with_capacity(sheet.columns.len());
    for c in &sheet.columns {
        let name = string(&c.name);
        columns.push(match &c.cells {
            Cells::Kept(i) => x.columns()[*i].clone(),
            Cells::UInt32(cells) => {
                Column::from(Series::new(name.as_str().into(), cells.as_slice()))
            }
            Cells::Float64(cells) => {
                let values: Vec<Option<f64>> = cells
                    .iter()
                    .map(|cell| {
                        cell.map(|n| match n {
                            Number::Known(d) => float(d),
                            Number::Natural(n) => n as f64,
                            Number::Register(at) => r[at],
                        })
                    })
                    .collect();
                Column::from(Series::new(name.as_str().into(), values.as_slice()))
            }
        });
    }
    DataFrame::new(sheet.height, columns).map_err(|e| Error::Computation(e.to_string()))
}

/// [`InnerLeaveOneOutEncoder`] on frames of polars, with the frame that it was
/// fitted to.
pub struct LeaveOneOutEncoder(InnerLeaveOneOutEncoder, Option<DataFrame>);

impl LeaveOneOutEncoder {
    pub fn new() -> Self {
        Self(InnerLeaveOneOutEncoder::new(), None)
    }

    pub fn alpha(self, a: f64) -> Self {
        Self(self.0.alpha(double(a)), self.1)
    }

    // Polars casts columns of other types to a common one to compare them, which
    // is floating point.
    fn alike(&self, frame: &Frame, x: &DataFrame) -> Vec<bool> {
        let columns = self.1.as_ref().map_or(&[][..], |source| source.columns());
        let mut alike = vec![false; columns.len()];
        for k in self.0.undecided(frame) {
            let column = &columns[k];
            alike[k] = x.column(column.name()).is_ok_and(|other| other.equals_missing(column));
        }
        alike
    }

    pub fn transform_unseen(&self, x: DataFrame) -> Result<DataFrame> {
        table(&self.0.transform_unseen(&frame_of(&x)?)?, &x)
    }
}

impl Default for LeaveOneOutEncoder {
    fn default() -> Self {
        Self(InnerLeaveOneOutEncoder::default(), None)
    }
}

impl FitSupervised<DataFrame, DataFrame> for LeaveOneOutEncoder {
    type Output = ();

    fn fit(&mut self, x: DataFrame, y: DataFrame) -> Result<()> {
        let plan = self.0.fit(frame_of(&x)?, &frame_of(&y)?)?;
        let values = results(plan.program());
        self.0.finish_fit(plan, &values)?;
        self.1 = Some(x);
        Ok(())
    }
}

impl Transform<DataFrame> for LeaveOneOutEncoder {
    type Output = DataFrame;

    fn transform(&self, x: DataFrame) -> Result<DataFrame> {
        let frame = frame_of(&x)?;
        table(&self.0.transform(&frame, &self.alike(&frame, &x))?, &x)
    }
}

/// A column of texts with another column.
fn with(column: Column) -> DataFrame {
    let texts = Column::from(Series::new("t".into(), &["a", "a", "b"]));
    DataFrame::new(3, vec![texts, column]).unwrap()
}

/// An encoder that is fitted to a frame.
fn fitted(x: DataFrame) -> LeaveOneOutEncoder {
    let y = Column::from(Series::new("y".into(), &[1.0_f64, 2.0, 6.0]));
    let mut encoder = LeaveOneOutEncoder::new();
    encoder.fit(x, DataFrame::new(3, vec![y]).unwrap()).unwrap();
    encoder
}

#[test]
fn equal_numbers_of_another_type_are_training_data() {
    let whole = || with(Column::from(Series::new("n".into(), &[1_i64, 2, 3])));
    let short = || with(Column::from(Series::new("n".into(), &[1_i32, 2, 3])));
    let real = |last: f64| with(Column::from(Series::new("n".into(), &[1.0, 2.0, last])));
    for x in [whole(), short(), real(3.0)] {
        let encoder = fitted(x);
        for other in [whole(), short(), real(3.0)] {
            let dtype = other.column("n").unwrap().dtype().clone();
            let made = encoder.transform(other).unwrap();
            let values: Vec<f64> = made.column("t").unwrap().f64().unwrap().iter().flatten().collect();
            assert_eq!(values, [2.0, 1.0, 3.0]);
            assert_eq!(made.column("n").unwrap().dtype(), &dtype);
        }
        assert!(encoder.transform(real(4.0)).is_err());
        let renamed = with(Column::from(Series::new("m".into(), &[1_i64, 2, 3])));
        assert!(encoder.transform(renamed).is_err());
    }
}

#[test]
fn equal_times_of_another_unit_are_training_data() {
    let times = |unit: TimeUnit, t: [i64; 3]| {
        let dtype = DataType::Datetime(unit, None);
        with(Column::from(Series::new("d".into(), &t).cast(&dtype).unwrap()))
    };
    let encoder = fitted(times(TimeUnit::Milliseconds, [1, 2, 3]));
    assert!(encoder.transform(times(TimeUnit::Milliseconds, [1, 2, 3])).is_ok());
    assert!(encoder.transform(times(TimeUnit::Microseconds, [1_000, 2_000, 3_000])).is_ok());
    assert!(encoder.transform(times(TimeUnit::Milliseconds, [1, 2, 4])).is_err());
}

#[test]
fn columns_of_any_type_are_compared() {
    let flags = |last: bool| with(Column::from(Series::new("b".into(), &[true, false, last])));
    let encoder = fitted(flags(true));
    assert!(encoder.transform(flags(true)).is_ok());
    assert!(encoder.transform(flags(false)).is_err());
}
