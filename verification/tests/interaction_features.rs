#![allow(dead_code, unused_imports)]

use featrs::double::Double;
use featrs::error::Error as Fault;
use featrs::error::Kind;
use featrs::frame::Cells;
use featrs::frame::Column as FrameColumn;
use featrs::frame::Frame;
use featrs::frame::Number;
use featrs::frame::Resolution;
use featrs::frame::Sheet;
use featrs::frame::Values;
use featrs::preprocessing::interaction_features::InteractionFeatures as InnerInteractionFeatures;
use featrs::preprocessing::interaction_features::InteractionFeaturesBuilder as InnerInteractionFeaturesBuilder;
use featrs::program::Operation;
use featrs::program::Program;
use featrs::program::Query;
use featrs::text::Text;
use polars::prelude::AnyValue;
use polars::prelude::ChunkAgg;
use polars::prelude::Column;
use polars::prelude::DataFrame;
use polars::prelude::DataType;
use polars::prelude::IntoSeries;
use polars::prelude::NamedFrom;
use polars::prelude::PolarsError;
use polars::prelude::Series;
use polars::prelude::StringChunked;
use polars::prelude::TimeUnit;
use statrs::function::gamma::digamma;
use std::fmt;

/// What a transformer reports.
#[derive(Debug)]
pub enum Error {
    InvalidInput(String),
    NotFitted(String),
    Computation(String),
}

impl fmt::Display for Error {
    fn fmt(&self, f: &mut fmt::Formatter<'_>) -> fmt::Result {
        match self {
            Error::InvalidInput(message) => f.write_str(&format!("invalid input: {message}")),
            Error::NotFitted(message) => f.write_str(&format!("not fitted: {message}")),
            Error::Computation(message) => f.write_str(&format!("computation error: {message}")),
        }
    }
}

impl From<Fault> for Error {
    fn from(e: Fault) -> Self {
        let mut message: String = e.message().chars.iter().collect();
        if let Some(d) = e.number() {
            message.push_str(&f64::from_bits(d.bits).to_string());
        }
        match e.kind() {
            Kind::InvalidInput => Error::InvalidInput(message),
            Kind::NotFitted => Error::NotFitted(message),
            Kind::Computation => Error::Computation(message),
        }
    }
}

pub type Result<T> = std::result::Result<T, Error>;

/// Learns from a frame.
pub trait Fit<X> {
    type Output;
    fn fit(&mut self, x: X) -> Result<Self::Output>;
}

/// Learns from a frame and a target.
pub trait FitSupervised<X, Y> {
    type Output;
    fn fit(&mut self, x: X, y: Y) -> Result<Self::Output>;
}

/// Makes a frame of a frame.
pub trait Transform<X> {
    type Output;
    fn transform(&self, x: X) -> Result<Self::Output>;
}

/// A number by its bits.
pub fn double(v: f64) -> Double {
    Double { bits: v.to_bits() }
}

/// A number from its bits.
pub fn float(d: Double) -> f64 {
    f64::from_bits(d.bits)
}

/// A text as a string.
pub fn string(t: &Text) -> String {
    t.chars.iter().collect()
}

/// The cells of a series.
fn values_of(s: &Series) -> Result<Values> {
    let failed = |e: PolarsError| Error::Computation(e.to_string());
    Ok(match s.dtype() {
        DataType::String => Values::Text(
            s.str().map_err(failed)?.iter().map(|v| v.map(Text::of)).collect(),
        ),
        DataType::Float64 => Values::Float64(
            s.f64().map_err(failed)?.iter().map(|v| v.map(double)).collect(),
        ),
        DataType::Date => Values::Date(
            s.to_physical_repr().i32().map_err(failed)?.iter().collect(),
        ),
        DataType::Datetime(unit, _) => {
            let resolution = match unit {
                TimeUnit::Nanoseconds => Resolution::Nanoseconds,
                TimeUnit::Microseconds => Resolution::Microseconds,
                TimeUnit::Milliseconds => Resolution::Milliseconds,
            };
            Values::Datetime(
                resolution,
                s.to_physical_repr().i64().map_err(failed)?.iter().collect(),
            )
        }
        other => Values::Other(Text::of(&other.to_string()), s.len()),
    })
}

/// A column as the library reads it.
pub fn column_of(c: &Column) -> Result<FrameColumn> {
    Ok(FrameColumn::new(c.name().as_str(), values_of(c.as_materialized_series())?))
}

/// A frame as the library reads it.
pub fn frame_of(df: &DataFrame) -> Result<Frame> {
    let columns = df.columns().iter().map(column_of).collect::<Result<Vec<FrameColumn>>>()?;
    Ok(Frame::new(df.height(), columns)?)
}

/// The results of a program, front to back.
pub fn evaluate(program: &Program) -> Vec<f64> {
    let mut r: Vec<f64> = Vec::with_capacity(program.len());
    for i in 0..program.len() {
        let value = match program.operation(i) {
            Operation::Value(d) => float(d),
            Operation::Natural(n) => n as f64,
            Operation::Integer(n) => n as f64,
            Operation::FullTurn => 2.0 * std::f64::consts::PI,
            Operation::Plus(a, b) => r[a] + r[b],
            Operation::Minus(a, b) => r[a] - r[b],
            Operation::Times(a, b) => r[a] * r[b],
            Operation::Over(a, b) => r[a] / r[b],
            Operation::Power(a, b) => r[a].powf(r[b]),
            Operation::Square(a) => r[a] * r[a],
            Operation::Root(a) => r[a].sqrt(),
            Operation::Magnitude(a) => r[a].abs(),
            Operation::Lesser(a, b) => r[a].min(r[b]),
            Operation::Greater(a, b) => r[a].max(r[b]),
            Operation::Sine(a) => r[a].sin(),
            Operation::Cosine(a) => r[a].cos(),
            Operation::Logarithm(a) => r[a].ln(),
            Operation::Digamma(a) => digamma(r[a]),
            Operation::Scaled(a, b) => {
                if r[b] > 0.0 {
                    r[a] / r[b]
                } else {
                    r[a]
                }
            }
        };
        r.push(value);
    }
    r
}

/// The results of a program as the library takes them.
pub fn results(program: &Program) -> Vec<Double> {
    evaluate(program).into_iter().map(double).collect()
}

/// The answers to a query.
pub fn answers(query: &Query) -> Vec<Double> {
    let r = evaluate(query.program());
    query.places().iter().map(|&at| double(r[at])).collect()
}

/// A finished sheet as a frame.
pub fn table(sheet: &Sheet, x: &DataFrame) -> Result<DataFrame> {
    let r = evaluate(&sheet.program);
    let mut columns: Vec<Column> = Vec::with_capacity(sheet.columns.len());
    for c in &sheet.columns {
        let name = string(&c.name);
        columns.push(match &c.cells {
            Cells::Kept(i) => x.columns()[*i].clone(),
            Cells::UInt32(cells) => {
                Column::from(Series::new(name.as_str().into(), cells.as_slice()))
            }
            Cells::Float64(cells) => {
                let values: Vec<Option<f64>> = cells
                    .iter()
                    .map(|cell| {
                        cell.map(|n| match n {
                            Number::Known(d) => float(d),
                            Number::Natural(n) => n as f64,
                            Number::Register(at) => r[at],
                        })
                    })
                    .collect();
                Column::from(Series::new(name.as_str().into(), values.as_slice()))
            }
        });
    }
    DataFrame::new(sheet.height, columns).map_err(|e| Error::Computation(e.to_string()))
}

/// [`InnerInteractionFeatures`] on frames of polars.
pub struct InteractionFeatures(InnerInteractionFeatures);

impl InteractionFeatures {
    pub fn new() -> Self {
        Self(InnerInteractionFeatures::new())
    }

    pub fn builder() -> InteractionFeaturesBuilder {
        InteractionFeaturesBuilder(InnerInteractionFeatures::builder())
    }
}

impl Default for InteractionFeatures {
    fn default() -> Self {
        Self(InnerInteractionFeatures::default())
    }
}

/// [`InnerInteractionFeaturesBuilder`] for frames of polars.
pub struct InteractionFeaturesBuilder(InnerInteractionFeaturesBuilder);

impl InteractionFeaturesBuilder {
    pub fn columns(self, cols: &[&str]) -> Self {
        Self(self.0.columns(cols))
    }

    pub fn include_self_products(self, value: bool) -> Self {
        Self(self.0.include_self_products(value))
    }

    pub fn build(self) -> InteractionFeatures {
        InteractionFeatures(self.0.build())
    }
}

impl Fit<DataFrame> for InteractionFeatures {
    type Output = ();

    fn fit(&mut self, x: DataFrame) -> Result<()> {
        Ok(self.0.fit(&frame_of(&x)?)?)
    }
}

impl Transform<DataFrame> for InteractionFeatures {
    type Output = DataFrame;

    fn transform(&self, x: DataFrame) -> Result<DataFrame> {
        table(&self.0.transform(&frame_of(&x)?)?, &x)
    }
}

fn make_two_col_df() -> DataFrame {
    let a = Column::from(Series::new("a".into(), &[1.0_f64, 2.0, 3.0]));
    let b = Column::from(Series::new("b".into(), &[4.0_f64, 5.0, 6.0]));
    DataFrame::new(3, vec![a, b]).unwrap()
}

fn make_three_col_df() -> DataFrame {
    let a = Column::from(Series::new("a".into(), &[1.0_f64, 2.0, 3.0]));
    let b = Column::from(Series::new("b".into(), &[4.0_f64, 5.0, 6.0]));
    let c = Column::from(Series::new("c".into(), &[7.0_f64, 8.0, 9.0]));
    DataFrame::new(3, vec![a, b, c]).unwrap()
}

#[test]
fn test_interaction_two_columns_default() {
    let df = make_two_col_df();
    let mut xf = InteractionFeatures::builder().build();
    xf.fit(df.clone()).unwrap();
    let out = xf.transform(df).unwrap();

    // originals: a, b  + new: a_x_b
    assert_eq!(out.width(), 3);
    assert_eq!(out.height(), 3);

    let prod = out.column("a_x_b").unwrap().f64().unwrap();
    assert_eq!(prod.get(0).unwrap(), 4.0);
    assert_eq!(prod.get(1).unwrap(), 10.0);
    assert_eq!(prod.get(2).unwrap(), 18.0);
}

#[test]
fn test_interaction_include_self_products() {
    let df = make_two_col_df();
    let mut xf = InteractionFeatures::builder()
        .include_self_products(true)
        .build();
    xf.fit(df.clone()).unwrap();
    let out = xf.transform(df).unwrap();

    // a, b, a_x_a, a_x_b, b_x_b
    assert_eq!(out.width(), 5);

    let aa = out.column("a_x_a").unwrap().f64().unwrap();
    assert_eq!(aa.get(0).unwrap(), 1.0);
    assert_eq!(aa.get(1).unwrap(), 4.0);
    assert_eq!(aa.get(2).unwrap(), 9.0);

    let bb = out.column("b_x_b").unwrap().f64().unwrap();
    assert_eq!(bb.get(0).unwrap(), 16.0);
    assert_eq!(bb.get(1).unwrap(), 25.0);
    assert_eq!(bb.get(2).unwrap(), 36.0);

    // a_x_b still present
    assert!(out.column("a_x_b").is_ok());
}

#[test]
fn test_interaction_three_columns_three_pairs() {
    let df = make_three_col_df();
    let mut xf = InteractionFeatures::builder().build();
    xf.fit(df.clone()).unwrap();
    let out = xf.transform(df).unwrap();

    // a, b, c  +  a_x_b, a_x_c, b_x_c
    assert_eq!(out.width(), 6);
    assert!(out.column("a_x_b").is_ok());
    assert!(out.column("a_x_c").is_ok());
    assert!(out.column("b_x_c").is_ok());
    // no self products
    assert!(out.column("a_x_a").is_err());
}

#[test]
fn test_interaction_single_column_no_new_cols() {
    let a = Column::from(Series::new("a".into(), &[1.0_f64, 2.0, 3.0]));
    let df = DataFrame::new(3, vec![a]).unwrap();

    let mut xf = InteractionFeatures::builder().build();
    xf.fit(df.clone()).unwrap();
    let out = xf.transform(df).unwrap();

    // kept originals; no pairs generated
    assert_eq!(out.width(), 1);
    assert_eq!(out.height(), 3);
}

#[test]
fn test_interaction_single_column_self_products() {
    let a = Column::from(Series::new("a".into(), &[1.0_f64, 2.0, 3.0]));
    let df = DataFrame::new(3, vec![a]).unwrap();

    let mut xf = InteractionFeatures::builder()
        .include_self_products(true)
        .build();
    xf.fit(df.clone()).unwrap();
    let out = xf.transform(df).unwrap();

    // a, a_x_a
    assert_eq!(out.width(), 2);
    let aa = out.column("a_x_a").unwrap().f64().unwrap();
    assert_eq!(aa.get(0).unwrap(), 1.0);
    assert_eq!(aa.get(1).unwrap(), 4.0);
    assert_eq!(aa.get(2).unwrap(), 9.0);
}

#[test]
fn test_interaction_null_propagation() {
    let a = Column::from(Series::new("a".into(), &[Some(1.0_f64), None, Some(3.0)]));
    let b = Column::from(Series::new("b".into(), &[Some(4.0_f64), Some(5.0), None]));
    let df = DataFrame::new(3, vec![a, b]).unwrap();

    let mut xf = InteractionFeatures::builder().build();
    xf.fit(df.clone()).unwrap();
    let out = xf.transform(df).unwrap();

    let prod = out.column("a_x_b").unwrap().f64().unwrap();
    assert_eq!(prod.get(0).unwrap(), 4.0);
    assert!(prod.get(1).is_none()); // a null
    assert!(prod.get(2).is_none()); // b null
}

#[test]
fn test_interaction_nan_propagation() {
    let a = Column::from(Series::new("a".into(), &[1.0_f64, f64::NAN, 3.0]));
    let b = Column::from(Series::new("b".into(), &[4.0_f64, 5.0, 6.0]));
    let df = DataFrame::new(3, vec![a, b]).unwrap();

    let mut xf = InteractionFeatures::builder().build();
    xf.fit(df.clone()).unwrap();
    let out = xf.transform(df).unwrap();

    let prod = out.column("a_x_b").unwrap().f64().unwrap();
    assert_eq!(prod.get(0).unwrap(), 4.0);
    assert!(prod.get(1).unwrap().is_nan());
    assert_eq!(prod.get(2).unwrap(), 18.0);
}

#[test]
fn test_interaction_not_fitted_error() {
    let df = make_two_col_df();
    let xf = InteractionFeatures::builder().build();
    let err = xf.transform(df).unwrap_err();
    assert!(matches!(err, Error::NotFitted(_)));
}

#[test]
fn test_interaction_auto_discovery_all_f64() {
    let df = make_two_col_df();
    let mut xf = InteractionFeatures::builder().build();
    xf.fit(df.clone()).unwrap();
    let out = xf.transform(df).unwrap();
    // auto-discovered a, b → one pair
    assert_eq!(out.width(), 3);
}

#[test]
fn test_interaction_auto_discovery_skips_non_f64() {
    // mixed dtypes: only f64 columns participate
    let a = Column::from(Series::new("a".into(), &[1.0_f64, 2.0, 3.0]));
    let cat = Column::from(Series::new("cat".into(), &["x", "y", "z"]));
    let b = Column::from(Series::new("b".into(), &[4.0_f64, 5.0, 6.0]));
    let df = DataFrame::new(3, vec![a, cat, b]).unwrap();

    let mut xf = InteractionFeatures::builder().build();
    xf.fit(df.clone()).unwrap();
    let out = xf.transform(df).unwrap();

    // a, cat, b  +  a_x_b   (cat skipped)
    assert_eq!(out.width(), 4);
    assert!(out.column("a_x_b").is_ok());
}

#[test]
fn test_interaction_auto_discovery_no_f64_errors() {
    let cat = Column::from(Series::new("cat".into(), &["x", "y", "z"]));
    let df = DataFrame::new(3, vec![cat]).unwrap();

    let mut xf = InteractionFeatures::builder().build();
    let err = xf.fit(df).unwrap_err();
    assert!(matches!(err, Error::InvalidInput(_)));
}

#[test]
fn test_interaction_explicit_columns() {
    let df = make_three_col_df();
    let mut xf = InteractionFeatures::builder().columns(&["a", "c"]).build();
    xf.fit(df.clone()).unwrap();
    let out = xf.transform(df).unwrap();

    // a, b, c  +  a_x_c   (b not selected)
    assert_eq!(out.width(), 4);
    assert!(out.column("a_x_c").is_ok());
    assert!(out.column("a_x_b").is_err());
}

#[test]
fn test_interaction_explicit_missing_column_errors() {
    let df = make_two_col_df();
    let mut xf = InteractionFeatures::builder()
        .columns(&["a", "missing"])
        .build();
    let err = xf.fit(df).unwrap_err();
    assert!(matches!(err, Error::InvalidInput(_)));
}

#[test]
fn test_interaction_explicit_non_f64_column_errors() {
    let a = Column::from(Series::new("a".into(), &[1.0_f64, 2.0, 3.0]));
    let cat = Column::from(Series::new("cat".into(), &["x", "y", "z"]));
    let df = DataFrame::new(3, vec![a, cat]).unwrap();

    let mut xf = InteractionFeatures::builder()
        .columns(&["a", "cat"])
        .build();
    let err = xf.fit(df).unwrap_err();
    assert!(matches!(err, Error::InvalidInput(_)));
}

#[test]
fn test_interaction_empty_dataframe_rejected() {
    let df = DataFrame::empty();
    let mut xf = InteractionFeatures::builder().build();
    let err = xf.fit(df).unwrap_err();
    assert!(matches!(err, Error::InvalidInput(_)));
}

#[test]
fn test_interaction_zero_column_propagates() {
    // products involving an all-zero column are all zeros
    let a = Column::from(Series::new("a".into(), &[1.0_f64, 2.0, 3.0]));
    let z = Column::from(Series::new("z".into(), &[0.0_f64, 0.0, 0.0]));
    let df = DataFrame::new(3, vec![a, z]).unwrap();

    let mut xf = InteractionFeatures::builder().build();
    xf.fit(df.clone()).unwrap();
    let out = xf.transform(df).unwrap();

    let prod = out.column("a_x_z").unwrap().f64().unwrap();
    assert_eq!(prod.get(0).unwrap(), 0.0);
    assert_eq!(prod.get(1).unwrap(), 0.0);
    assert_eq!(prod.get(2).unwrap(), 0.0);
}

#[test]
fn test_interaction_column_order_preserved() {
    // explicit column order [b, a] → pair name b_x_a, not a_x_b
    let df = make_two_col_df();
    let mut xf = InteractionFeatures::builder().columns(&["b", "a"]).build();
    xf.fit(df.clone()).unwrap();
    let out = xf.transform(df).unwrap();

    assert!(out.column("b_x_a").is_ok());
    assert!(out.column("a_x_b").is_err());
}

#[test]
fn interaction_features_test_default_equals_new() {
    let d = InteractionFeatures::default();
    let n = InteractionFeatures::new();
    let names = |xf: &InteractionFeatures| -> Vec<String> {
        xf.0.selected_columns().iter().map(string).collect()
    };
    assert_eq!(names(&d), names(&n));
    assert_eq!(d.0.self_products(), n.0.self_products());
    assert_eq!(d.0.is_fitted(), n.0.is_fitted());
}

#[test]
fn test_interaction_name_collision_errors() {
    // Input already contains a column literally named a_x_b.
    let a = Column::from(Series::new("a".into(), &[1.0_f64, 2.0, 3.0]));
    let b = Column::from(Series::new("b".into(), &[4.0_f64, 5.0, 6.0]));
    let clash = Column::from(Series::new("a_x_b".into(), &[7.0_f64, 8.0, 9.0]));
    let df = DataFrame::new(3, vec![a, b, clash]).unwrap();

    let mut xf = InteractionFeatures::builder().columns(&["a", "b"]).build();
    xf.fit(df.clone()).unwrap();
    let err = xf.transform(df).unwrap_err();
    assert!(
        matches!(err, Error::InvalidInput(_)),
        "collision with an existing column must error, not overwrite"
    );
    assert!(err.to_string().contains("a_x_b"));
}

#[test]
fn test_interaction_separator_in_names_still_generates() {
    // Column names containing the separator produce distinct names here;
    // this is the non-colliding separator case.
    let p = Column::from(Series::new("p".into(), &[1.0_f64, 2.0, 3.0]));
    let q_x_r = Column::from(Series::new("q_x_r".into(), &[4.0_f64, 5.0, 6.0]));
    let r = Column::from(Series::new("r".into(), &[7.0_f64, 8.0, 9.0]));
    let df = DataFrame::new(3, vec![p, q_x_r, r]).unwrap();

    // fitted order: [p, q_x_r, r]
    // pairs: (p, q_x_r) -> p_x_q_x_r, (p, r) -> p_x_r,
    //        (q_x_r, r) -> q_x_r_x_r
    let mut xf = InteractionFeatures::builder().build();
    xf.fit(df.clone()).unwrap();
    let out = xf.transform(df).unwrap();
    assert!(out.column("p_x_q_x_r").is_ok());
    assert!(out.column("p_x_r").is_ok());
    assert!(out.column("q_x_r_x_r").is_ok());
}

#[test]
fn test_interaction_generated_name_collision_errors() {
    // Two distinct pairs produce the same generated name because the
    // input names contain the separator: (a, b_x_c) and (a_x_b, c)
    // both generate "a_x_b_x_c".
    let a = Column::from(Series::new("a".into(), &[1.0_f64, 2.0, 3.0]));
    let b_x_c = Column::from(Series::new("b_x_c".into(), &[4.0_f64, 5.0, 6.0]));
    let a_x_b = Column::from(Series::new("a_x_b".into(), &[7.0_f64, 8.0, 9.0]));
    let c = Column::from(Series::new("c".into(), &[10.0_f64, 11.0, 12.0]));
    let df = DataFrame::new(3, vec![a, b_x_c, a_x_b, c]).unwrap();

    let mut xf = InteractionFeatures::builder().build();
    xf.fit(df.clone()).unwrap();
    let err = xf.transform(df).unwrap_err();
    assert!(matches!(err, Error::InvalidInput(_)));
    assert!(err.to_string().contains("a_x_b_x_c"));
}
