#![allow(dead_code, unused_imports)]

use approx::RelativeEq;
use featrs::double::Double;
use featrs::error::Error as Fault;
use featrs::error::Kind;
use featrs::frame::Cells;
use featrs::frame::Column as FrameColumn;
use featrs::frame::Frame;
use featrs::frame::Number;
use featrs::frame::Resolution;
use featrs::frame::Sheet;
use featrs::frame::Values;
use featrs::program::Operation;
use featrs::program::Program;
use featrs::program::Query;
use featrs::text::Text;
use featrs::time_series::ewma::EWMASmoothing as InnerEWMASmoothing;
use featrs::time_series::ewma::EWMAStatistic;
use featrs::time_series::ewma::ExponentiallyWeightedMovingAverage as InnerEWMA;
use polars::prelude::AnyValue;
use polars::prelude::ChunkAgg;
use polars::prelude::Column;
use polars::prelude::DataFrame;
use polars::prelude::DataType;
use polars::prelude::IntoSeries;
use polars::prelude::NamedFrom;
use polars::prelude::PolarsError;
use polars::prelude::Series;
use polars::prelude::StringChunked;
use polars::prelude::TimeUnit;
use statrs::function::gamma::digamma;
use std::fmt;

/// What a transformer reports.
#[derive(Debug)]
pub enum Error {
    InvalidInput(String),
    NotFitted(String),
    Computation(String),
}

impl fmt::Display for Error {
    fn fmt(&self, f: &mut fmt::Formatter<'_>) -> fmt::Result {
        match self {
            Error::InvalidInput(message) => f.write_str(&format!("invalid input: {message}")),
            Error::NotFitted(message) => f.write_str(&format!("not fitted: {message}")),
            Error::Computation(message) => f.write_str(&format!("computation error: {message}")),
        }
    }
}

impl From<Fault> for Error {
    fn from(e: Fault) -> Self {
        let mut message: String = e.message().chars.iter().collect();
        if let Some(d) = e.number() {
            message.push_str(&f64::from_bits(d.bits).to_string());
        }
        match e.kind() {
            Kind::InvalidInput => Error::InvalidInput(message),
            Kind::NotFitted => Error::NotFitted(message),
            Kind::Computation => Error::Computation(message),
        }
    }
}

pub type Result<T> = std::result::Result<T, Error>;

/// Learns from a frame.
pub trait Fit<X> {
    type Output;
    fn fit(&mut self, x: X) -> Result<Self::Output>;
}

/// Learns from a frame and a target.
pub trait FitSupervised<X, Y> {
    type Output;
    fn fit(&mut self, x: X, y: Y) -> Result<Self::Output>;
}

/// Makes a frame of a frame.
pub trait Transform<X> {
    type Output;
    fn transform(&self, x: X) -> Result<Self::Output>;
}

/// A number by its bits.
pub fn double(v: f64) -> Double {
    Double { bits: v.to_bits() }
}

/// A number from its bits.
pub fn float(d: Double) -> f64 {
    f64::from_bits(d.bits)
}

/// A text as a string.
pub fn string(t: &Text) -> String {
    t.chars.iter().collect()
}

/// The cells of a series.
fn values_of(s: &Series) -> Result<Values> {
    let failed = |e: PolarsError| Error::Computation(e.to_string());
    Ok(match s.dtype() {
        DataType::String => Values::Text(
            s.str().map_err(failed)?.iter().map(|v| v.map(Text::of)).collect(),
        ),
        DataType::Float64 => Values::Float64(
            s.f64().map_err(failed)?.iter().map(|v| v.map(double)).collect(),
        ),
        DataType::Date => Values::Date(
            s.to_physical_repr().i32().map_err(failed)?.iter().collect(),
        ),
        DataType::Datetime(unit, _) => {
            let resolution = match unit {
                TimeUnit::Nanoseconds => Resolution::Nanoseconds,
                TimeUnit::Microseconds => Resolution::Microseconds,
                TimeUnit::Milliseconds => Resolution::Milliseconds,
            };
            Values::Datetime(
                resolution,
                s.to_physical_repr().i64().map_err(failed)?.iter().collect(),
            )
        }
        other => Values::Other(Text::of(&other.to_string()), s.len()),
    })
}

/// A column as the library reads it.
pub fn column_of(c: &Column) -> Result<FrameColumn> {
    Ok(FrameColumn::new(c.name().as_str(), values_of(c.as_materialized_series())?))
}

/// A frame as the library reads it.
pub fn frame_of(df: &DataFrame) -> Result<Frame> {
    let columns = df.columns().iter().map(column_of).collect::<Result<Vec<FrameColumn>>>()?;
    Ok(Frame::new(df.height(), columns)?)
}

/// The results of a program, front to back.
pub fn evaluate(program: &Program) -> Vec<f64> {
    let mut r: Vec<f64> = Vec::with_capacity(program.len());
    for i in 0..program.len() {
        let value = match program.operation(i) {
            Operation::Value(d) => float(d),
            Operation::Natural(n) => n as f64,
            Operation::Integer(n) => n as f64,
            Operation::FullTurn => 2.0 * std::f64::consts::PI,
            Operation::Plus(a, b) => r[a] + r[b],
            Operation::Minus(a, b) => r[a] - r[b],
            Operation::Times(a, b) => r[a] * r[b],
            Operation::Over(a, b) => r[a] / r[b],
            Operation::Power(a, b) => r[a].powf(r[b]),
            Operation::Square(a) => r[a] * r[a],
            Operation::Root(a) => r[a].sqrt(),
            Operation::Magnitude(a) => r[a].abs(),
            Operation::Lesser(a, b) => r[a].min(r[b]),
            Operation::Greater(a, b) => r[a].max(r[b]),
            Operation::Sine(a) => r[a].sin(),
            Operation::Cosine(a) => r[a].cos(),
            Operation::Logarithm(a) => r[a].ln(),
            Operation::Digamma(a) => digamma(r[a]),
            Operation::Scaled(a, b) => {
                if r[b] > 0.0 {
                    r[a] / r[b]
                } else {
                    r[a]
                }
            }
        };
        r.push(value);
    }
    r
}

/// The results of a program as the library takes them.
pub fn results(program: &Program) -> Vec<Double> {
    evaluate(program).into_iter().map(double).collect()
}

/// The answers to a query.
pub fn answers(query: &Query) -> Vec<Double> {
    let r = evaluate(query.program());
    query.places().iter().map(|&at| double(r[at])).collect()
}

/// A finished sheet as a frame.
pub fn table(sheet: &Sheet, x: &DataFrame) -> Result<DataFrame> {
    let r = evaluate(&sheet.program);
    let mut columns: Vec<Column> = Vec::with_capacity(sheet.columns.len());
    for c in &sheet.columns {
        let name = string(&c.name);
        columns.push(match &c.cells {
            Cells::Kept(i) => x.columns()[*i].clone(),
            Cells::UInt32(cells) => {
                Column::from(Series::new(name.as_str().into(), cells.as_slice()))
            }
            Cells::Float64(cells) => {
                let values: Vec<Option<f64>> = cells
                    .iter()
                    .map(|cell| {
                        cell.map(|n| match n {
                            Number::Known(d) => float(d),
                            Number::Natural(n) => n as f64,
                            Number::Register(at) => r[at],
                        })
                    })
                    .collect();
                Column::from(Series::new(name.as_str().into(), values.as_slice()))
            }
        });
    }
    DataFrame::new(sheet.height, columns).map_err(|e| Error::Computation(e.to_string()))
}

/// How the smoothing factor is given.
#[derive(Clone, Copy, Debug, PartialEq)]
pub enum EWMASmoothing {
    Alpha(f64),
    Span(f64),
    Com(f64),
    HalfLife(f64),
}

impl From<EWMASmoothing> for InnerEWMASmoothing {
    fn from(s: EWMASmoothing) -> Self {
        match s {
            EWMASmoothing::Alpha(v) => InnerEWMASmoothing::Alpha(double(v)),
            EWMASmoothing::Span(v) => InnerEWMASmoothing::Span(double(v)),
            EWMASmoothing::Com(v) => InnerEWMASmoothing::Com(double(v)),
            EWMASmoothing::HalfLife(v) => InnerEWMASmoothing::HalfLife(double(v)),
        }
    }
}

/// [`InnerEWMA`] on frames of polars.
pub struct ExponentiallyWeightedMovingAverage(InnerEWMA);

impl ExponentiallyWeightedMovingAverage {
    pub fn new(columns: &[&str], smoothing: EWMASmoothing) -> Self {
        Self(InnerEWMA::new(columns, smoothing.into()))
    }

    pub fn statistic(self, s: EWMAStatistic) -> Self {
        Self(self.0.statistic(s))
    }

    pub fn adjust(self, b: bool) -> Self {
        Self(self.0.adjust(b))
    }

    pub fn min_periods(self, p: usize) -> Self {
        Self(self.0.min_periods(p))
    }

    pub fn ignore_na(self, b: bool) -> Self {
        Self(self.0.ignore_na(b))
    }
}

impl Default for ExponentiallyWeightedMovingAverage {
    fn default() -> Self {
        Self(InnerEWMA::default())
    }
}

impl Fit<DataFrame> for ExponentiallyWeightedMovingAverage {
    type Output = ();

    fn fit(&mut self, x: DataFrame) -> Result<()> {
        let frame = frame_of(&x)?;
        let alpha = answers(&self.0.fit(&frame)?)[0];
        Ok(self.0.finish_fit(&frame, alpha, Text::of(&float(alpha).to_string()))?)
    }
}

impl Transform<DataFrame> for ExponentiallyWeightedMovingAverage {
    type Output = DataFrame;

    fn transform(&self, x: DataFrame) -> Result<DataFrame> {
        table(&self.0.transform(&frame_of(&x)?)?, &x)
    }
}

/// Whether two numbers are equal up to an absolute or a relative error.
fn near(a: f64, b: f64, epsilon: f64, max_relative: f64) {
    assert!(
        RelativeEq::relative_eq(&a, &b, epsilon, max_relative),
        "{a} is not near {b}"
    );
}

fn make_df(vals: &[f64]) -> DataFrame {
    let col = Column::from(Series::new("x".into(), vals));
    DataFrame::new(vals.len(), vec![col]).unwrap()
}

fn make_nulled_df(vals: &[Option<f64>]) -> DataFrame {
    let col = Column::from(Series::new("x".into(), vals));
    DataFrame::new(vals.len(), vec![col]).unwrap()
}

fn output(result: &DataFrame, name: &str) -> Vec<Option<f64>> {
    result.column(name).unwrap().f64().unwrap().iter().collect()
}

#[test]
fn test_mean_alpha_one_equals_input() {
    let df = make_df(&[1.0, 2.0, 3.0, 4.0]);
    let mut e = ExponentiallyWeightedMovingAverage::new(&["x"], EWMASmoothing::Alpha(1.0));
    e.fit(df.clone()).unwrap();
    let result = e.transform(df).unwrap();

    assert_eq!(
        output(&result, "x_ewm_mean_1"),
        vec![Some(1.0), Some(2.0), Some(3.0), Some(4.0)]
    );
}

#[test]
fn test_mean_alpha_half_unadjusted_recursive() {
    let df = make_df(&[1.0, 2.0, 3.0]);
    let mut e = ExponentiallyWeightedMovingAverage::new(&["x"], EWMASmoothing::Alpha(0.5))
        .adjust(false);
    e.fit(df.clone()).unwrap();
    let result = e.transform(df).unwrap();

    let got = output(&result, "x_ewm_mean_0.5");
    near(got[0].unwrap(), 1.0, 1e-9, f64::EPSILON);
    near(got[1].unwrap(), 1.5, 1e-9, f64::EPSILON);
    near(got[2].unwrap(), 2.25, 1e-9, f64::EPSILON);
}

#[test]
fn test_adjusted_and_unadjusted_differ_early_converge_later() {
    let df = make_df(&[1.0, 2.0, 3.0, 4.0, 5.0, 6.0, 7.0, 8.0]);
    let mut adj = ExponentiallyWeightedMovingAverage::new(&["x"], EWMASmoothing::Alpha(0.5));
    adj.fit(df.clone()).unwrap();
    let adj_out = output(&adj.transform(df.clone()).unwrap(), "x_ewm_mean_0.5");

    let mut unadj = ExponentiallyWeightedMovingAverage::new(&["x"], EWMASmoothing::Alpha(0.5))
        .adjust(false);
    unadj.fit(df.clone()).unwrap();
    let unadj_out = output(&unadj.transform(df).unwrap(), "x_ewm_mean_0.5");

    // Early rows differ.
    assert!(adj_out[1].unwrap() != unadj_out[1].unwrap());
    // Later rows converge.
    near(adj_out[7].unwrap(), unadj_out[7].unwrap(), 0.05, f64::EPSILON);
}

#[test]
fn test_span_matches_equivalent_alpha() {
    // span = 3 => alpha = 2 / (3 + 1) = 0.5.
    let df = make_df(&[1.0, 2.0, 3.0, 4.0]);
    let mut span = ExponentiallyWeightedMovingAverage::new(&["x"], EWMASmoothing::Span(3.0));
    span.fit(df.clone()).unwrap();
    let span_out = output(&span.transform(df.clone()).unwrap(), "x_ewm_mean_0.5");

    let mut alpha = ExponentiallyWeightedMovingAverage::new(&["x"], EWMASmoothing::Alpha(0.5));
    alpha.fit(df.clone()).unwrap();
    let alpha_out = output(&alpha.transform(df).unwrap(), "x_ewm_mean_0.5");

    assert_eq!(span_out, alpha_out);
}

#[test]
fn test_com_matches_equivalent_alpha() {
    // com = 1 => alpha = 1 / (1 + 1) = 0.5.
    let df = make_df(&[1.0, 2.0, 3.0]);
    let mut com = ExponentiallyWeightedMovingAverage::new(&["x"], EWMASmoothing::Com(1.0));
    com.fit(df.clone()).unwrap();
    let com_out = output(&com.transform(df.clone()).unwrap(), "x_ewm_mean_0.5");

    let mut alpha = ExponentiallyWeightedMovingAverage::new(&["x"], EWMASmoothing::Alpha(0.5));
    alpha.fit(df.clone()).unwrap();
    let alpha_out = output(&alpha.transform(df).unwrap(), "x_ewm_mean_0.5");

    assert_eq!(com_out, alpha_out);
}

#[test]
fn test_half_life_matches_equivalent_alpha() {
    // half_life = 1 => alpha = 1 - 0.5^(1/1) = 0.5.
    let df = make_df(&[1.0, 2.0, 3.0]);
    let mut hl = ExponentiallyWeightedMovingAverage::new(&["x"], EWMASmoothing::HalfLife(1.0));
    hl.fit(df.clone()).unwrap();
    let hl_out = output(&hl.transform(df.clone()).unwrap(), "x_ewm_mean_0.5");

    let mut alpha = ExponentiallyWeightedMovingAverage::new(&["x"], EWMASmoothing::Alpha(0.5));
    alpha.fit(df.clone()).unwrap();
    let alpha_out = output(&alpha.transform(df).unwrap(), "x_ewm_mean_0.5");

    assert_eq!(hl_out, alpha_out);
}

#[test]
fn test_var_constant_input_is_zero() {
    let df = make_df(&[2.0, 2.0, 2.0, 2.0]);
    let mut e = ExponentiallyWeightedMovingAverage::new(&["x"], EWMASmoothing::Alpha(0.5))
        .statistic(EWMAStatistic::Var);
    e.fit(df.clone()).unwrap();
    let result = e.transform(df).unwrap();

    let got = output(&result, "x_ewm_var_0.5");
    assert!(got[0].is_none());
    for v in got.iter().skip(1) {
        near(v.unwrap(), 0.0, 1e-9, f64::EPSILON);
    }
}

#[test]
fn test_var_increasing_input_monotonic() {
    let df = make_df(&[1.0, 2.0, 3.0, 4.0]);
    let mut e = ExponentiallyWeightedMovingAverage::new(&["x"], EWMASmoothing::Alpha(0.5))
        .statistic(EWMAStatistic::Var);
    e.fit(df.clone()).unwrap();
    let result = e.transform(df).unwrap();

    let got = output(&result, "x_ewm_var_0.5");
    assert!(got[0].is_none());
    for i in 1..got.len() - 1 {
        assert!(got[i + 1].unwrap() > got[i].unwrap());
    }
}

#[test]
fn test_std_is_sqrt_of_var() {
    let df = make_df(&[1.0, 3.0, 5.0, 7.0]);
    let mut var = ExponentiallyWeightedMovingAverage::new(&["x"], EWMASmoothing::Alpha(0.5))
        .statistic(EWMAStatistic::Var);
    var.fit(df.clone()).unwrap();
    let var_out = output(&var.transform(df.clone()).unwrap(), "x_ewm_var_0.5");

    let mut std = ExponentiallyWeightedMovingAverage::new(&["x"], EWMASmoothing::Alpha(0.5))
        .statistic(EWMAStatistic::Std);
    std.fit(df.clone()).unwrap();
    let std_out = output(&std.transform(df).unwrap(), "x_ewm_std_0.5");

    for i in 1..var_out.len() {
        near(std_out[i].unwrap(), var_out[i].unwrap().sqrt(), 1e-9, f64::EPSILON);
    }
}

#[test]
fn test_ignore_na_false_propagates_null_onward() {
    let df = make_nulled_df(&[Some(1.0), Some(2.0), None, Some(4.0), Some(5.0)]);
    let mut e = ExponentiallyWeightedMovingAverage::new(&["x"], EWMASmoothing::Alpha(0.5))
        .adjust(false);
    e.fit(df.clone()).unwrap();
    let result = e.transform(df).unwrap();

    let got = output(&result, "x_ewm_mean_0.5");
    near(got[0].unwrap(), 1.0, 1e-9, f64::EPSILON);
    near(got[1].unwrap(), 1.5, 1e-9, f64::EPSILON);
    assert!(got[2].is_none());
    assert!(got[3].is_none());
    assert!(got[4].is_none());
}

#[test]
fn test_ignore_na_true_skips_nulls() {
    let df = make_nulled_df(&[Some(1.0), None, Some(2.0), Some(3.0)]);
    let mut e = ExponentiallyWeightedMovingAverage::new(&["x"], EWMASmoothing::Alpha(0.5))
        .adjust(false)
        .ignore_na(true);
    e.fit(df.clone()).unwrap();
    let result = e.transform(df).unwrap();

    let got = output(&result, "x_ewm_mean_0.5");
    near(got[0].unwrap(), 1.0, 1e-9, f64::EPSILON);
    assert!(got[1].is_none());
    // After skipping the null, the recursion continues from the last value.
    near(got[2].unwrap(), 1.5, 1e-9, f64::EPSILON);
    near(got[3].unwrap(), 2.25, 1e-9, f64::EPSILON);
}

#[test]
fn test_min_periods_gating() {
    let df = make_df(&[1.0, 2.0, 3.0]);
    let mut e = ExponentiallyWeightedMovingAverage::new(&["x"], EWMASmoothing::Alpha(0.5))
        .adjust(false)
        .min_periods(2);
    e.fit(df.clone()).unwrap();
    let result = e.transform(df).unwrap();

    let got = output(&result, "x_ewm_mean_0.5");
    assert!(got[0].is_none());
    near(got[1].unwrap(), 1.5, 1e-9, f64::EPSILON);
    near(got[2].unwrap(), 2.25, 1e-9, f64::EPSILON);
}

#[test]
fn ewma_test_transform_before_fit_errors() {
    let df = make_df(&[1.0, 2.0]);
    let e = ExponentiallyWeightedMovingAverage::new(&["x"], EWMASmoothing::Alpha(0.5));
    let err = e.transform(df).unwrap_err();
    assert!(matches!(err, Error::NotFitted(_)));
}

#[test]
fn test_fit_empty_input_errors() {
    let col = Column::from(Series::new("x".into(), Vec::<f64>::new()));
    let df = DataFrame::new(0, vec![col]).unwrap();
    let mut e = ExponentiallyWeightedMovingAverage::new(&["x"], EWMASmoothing::Alpha(0.5));
    let err = e.fit(df).unwrap_err();
    assert!(matches!(err, Error::InvalidInput(_)));
}

#[test]
fn test_fit_empty_columns_errors() {
    let df = make_df(&[1.0, 2.0]);
    let mut e = ExponentiallyWeightedMovingAverage::new(&[], EWMASmoothing::Alpha(0.5));
    let err = e.fit(df).unwrap_err();
    assert!(matches!(err, Error::InvalidInput(_)));
}

#[test]
fn test_fit_missing_column_errors() {
    let df = make_df(&[1.0, 2.0]);
    let mut e = ExponentiallyWeightedMovingAverage::new(&["nope"], EWMASmoothing::Alpha(0.5));
    let err = e.fit(df).unwrap_err();
    assert!(matches!(err, Error::InvalidInput(_)));
}

#[test]
fn test_fit_non_f64_column_errors() {
    let col = Column::from(Series::new("x".into(), &["a", "b"]));
    let df = DataFrame::new(2, vec![col]).unwrap();
    let mut e = ExponentiallyWeightedMovingAverage::new(&["x"], EWMASmoothing::Alpha(0.5));
    let err = e.fit(df).unwrap_err();
    assert!(matches!(err, Error::InvalidInput(_)));
}

#[test]
fn test_alpha_out_of_range_errors() {
    let df = make_df(&[1.0, 2.0]);
    let mut e = ExponentiallyWeightedMovingAverage::new(&["x"], EWMASmoothing::Alpha(0.0));
    let err = e.fit(df.clone()).unwrap_err();
    assert!(matches!(err, Error::InvalidInput(_)));

    let mut e2 = ExponentiallyWeightedMovingAverage::new(&["x"], EWMASmoothing::Alpha(1.5));
    let err2 = e2.fit(df.clone()).unwrap_err();
    assert!(matches!(err2, Error::InvalidInput(_)));
}

#[test]
fn test_span_out_of_range_errors() {
    let df = make_df(&[1.0, 2.0]);
    let mut e = ExponentiallyWeightedMovingAverage::new(&["x"], EWMASmoothing::Span(0.5));
    let err = e.fit(df).unwrap_err();
    assert!(matches!(err, Error::InvalidInput(_)));
}

#[test]
fn test_generated_name_collision_with_input_errors() {
    let a = Column::from(Series::new("x".into(), &[1.0_f64, 2.0]));
    let b = Column::from(Series::new("x_ewm_mean_0.5".into(), &[10.0_f64, 20.0]));
    let df = DataFrame::new(2, vec![a, b]).unwrap();
    let mut e = ExponentiallyWeightedMovingAverage::new(&["x"], EWMASmoothing::Alpha(0.5));
    let err = e.fit(df).unwrap_err();
    assert!(matches!(err, Error::InvalidInput(_)));
}

#[test]
fn test_transform_time_collision_errors() {
    // The fit input has only "x", so fit succeeds. But the transform input
    // also carries a column named like the generated output; transform must
    // reject it rather than silently overwrite the caller's column.
    let fit_df = make_df(&[1.0, 2.0, 3.0]);
    let mut e = ExponentiallyWeightedMovingAverage::new(&["x"], EWMASmoothing::Alpha(0.5));
    e.fit(fit_df).unwrap();

    let a = Column::from(Series::new("x".into(), &[1.0_f64, 2.0, 3.0]));
    let b = Column::from(Series::new(
        "x_ewm_mean_0.5".into(),
        &[10.0_f64, 20.0, 30.0],
    ));
    let df = DataFrame::new(3, vec![a, b]).unwrap();
    let err = e.transform(df).unwrap_err();
    assert!(matches!(err, Error::InvalidInput(_)));
}

#[test]
fn test_generated_name_collision_between_columns_errors() {
    let a = Column::from(Series::new("x".into(), &[1.0_f64, 2.0]));
    let df = DataFrame::new(2, vec![a]).unwrap();
    let mut e = ExponentiallyWeightedMovingAverage::new(&["x", "x"], EWMASmoothing::Alpha(0.5));
    let err = e.fit(df).unwrap_err();
    assert!(matches!(err, Error::InvalidInput(_)));
}

#[test]
fn test_builder_defaults_and_statistic_option() {
    let mut e = ExponentiallyWeightedMovingAverage::new(&["x"], EWMASmoothing::Alpha(0.5));
    // Defaults: Mean, adjust=true.
    assert_eq!(e.0.selected_statistic(), EWMAStatistic::Mean);
    assert!(e.0.is_adjusted());
    assert_eq!(e.0.least_periods(), 0);
    assert!(!e.0.skips_missing());
    // Builder options mutate the instance.
    e = e
        .statistic(EWMAStatistic::Std)
        .adjust(false)
        .min_periods(1)
        .ignore_na(true);
    assert_eq!(e.0.selected_statistic(), EWMAStatistic::Std);
    assert!(!e.0.is_adjusted());
    assert_eq!(e.0.least_periods(), 1);
    assert!(e.0.skips_missing());
}

#[test]
fn test_nan_propagates_in_mean() {
    let col = Column::from(Series::new(
        "x".into(),
        &[Some(1.0_f64), Some(f64::NAN), Some(3.0)],
    ));
    let df = DataFrame::new(3, vec![col]).unwrap();
    let mut e = ExponentiallyWeightedMovingAverage::new(&["x"], EWMASmoothing::Alpha(0.5))
        .adjust(false);
    e.fit(df.clone()).unwrap();
    let result = e.transform(df).unwrap();

    let got = output(&result, "x_ewm_mean_0.5");
    near(got[0].unwrap(), 1.0, 1e-9, f64::EPSILON);
    assert!(got[1].unwrap().is_nan());
    assert!(got[2].unwrap().is_nan());
}

#[test]
fn test_min_periods_beyond_length_all_none() {
    let df = make_df(&[1.0, 2.0]);
    let mut e = ExponentiallyWeightedMovingAverage::new(&["x"], EWMASmoothing::Alpha(0.5))
        .adjust(false)
        .min_periods(5);
    e.fit(df.clone()).unwrap();
    let result = e.transform(df).unwrap();

    let got = output(&result, "x_ewm_mean_0.5");
    assert!(got[0].is_none());
    assert!(got[1].is_none());
}

#[test]
fn test_adjust_does_not_affect_variance() {
    let df = make_df(&[1.0, 3.0, 5.0, 7.0]);
    let mut adj = ExponentiallyWeightedMovingAverage::new(&["x"], EWMASmoothing::Alpha(0.5))
        .statistic(EWMAStatistic::Var)
        .adjust(true);
    adj.fit(df.clone()).unwrap();
    let adj_out = output(&adj.transform(df.clone()).unwrap(), "x_ewm_var_0.5");

    let mut unadj = ExponentiallyWeightedMovingAverage::new(&["x"], EWMASmoothing::Alpha(0.5))
        .statistic(EWMAStatistic::Var)
        .adjust(false);
    unadj.fit(df.clone()).unwrap();
    let unadj_out = output(&unadj.transform(df).unwrap(), "x_ewm_var_0.5");

    assert_eq!(adj_out, unadj_out);
}

#[test]
fn test_var_ignore_na_true_skips_nulls() {
    let df = make_nulled_df(&[Some(1.0), None, Some(3.0), Some(5.0)]);
    let mut e = ExponentiallyWeightedMovingAverage::new(&["x"], EWMASmoothing::Alpha(0.5))
        .statistic(EWMAStatistic::Var)
        .ignore_na(true);
    e.fit(df.clone()).unwrap();
    let result = e.transform(df).unwrap();

    let got = output(&result, "x_ewm_var_0.5");
    assert!(got[0].is_none());
    assert!(got[1].is_none());
    // Two non-null samples seen by row 2, so a value is produced:
    // var = (1-alpha) * (0 + alpha*(3.0 - 1.0)^2) = 0.5 * 0.5 * 4 = 1.0.
    near(got[2].unwrap(), 1.0, 1e-9, f64::EPSILON);
    assert!(got[3].unwrap() > got[2].unwrap());
}

#[test]
fn test_var_ignore_na_false_propagates_null_onward() {
    let df = make_nulled_df(&[Some(1.0), Some(2.0), None, Some(4.0)]);
    let mut e = ExponentiallyWeightedMovingAverage::new(&["x"], EWMASmoothing::Alpha(0.5))
        .statistic(EWMAStatistic::Var);
    e.fit(df.clone()).unwrap();
    let result = e.transform(df).unwrap();

    let got = output(&result, "x_ewm_var_0.5");
    assert!(got[0].is_none());
    near(got[1].unwrap(), 0.25, 1e-9, f64::EPSILON);
    assert!(got[2].is_none());
    assert!(got[3].is_none());
}
