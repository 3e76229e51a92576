#![allow(dead_code, unused_imports)]

use approx::RelativeEq;
use featrs::double::Double;
use featrs::error::Error as Fault;
use featrs::error::Kind;
use featrs::frame::Cells;
use featrs::frame::Column as FrameColumn;
use featrs::frame::Frame;
use featrs::frame::Number;
use featrs::frame::Resolution;
use featrs::frame::Sheet;
use featrs::frame::Values;
use featrs::preprocessing::encoder::BinaryEncoder as InnerBinaryEncoder;
use featrs::preprocessing::encoder::CountEncoder as InnerCountEncoder;
use featrs::preprocessing::encoder::FrequencyEncoder as InnerFrequencyEncoder;
use featrs::preprocessing::encoder::LabelEncoder as InnerLabelEncoder;
use featrs::preprocessing::encoder::OneHotEncoder as InnerOneHotEncoder;
use featrs::preprocessing::encoder::OrdinalEncoder as InnerOrdinalEncoder;
use featrs::program::Operation;
use featrs::program::Program;
use featrs::program::Query;
use featrs::text::Text;
use polars::prelude::AnyValue;
use polars::prelude::ChunkAgg;
use polars::prelude::Column;
use polars::prelude::DataFrame;
use polars::prelude::DataType;
use polars::prelude::IntoSeries;
use polars::prelude::NamedFrom;
use polars::prelude::PolarsError;
use polars::prelude::Series;
use polars::prelude::StringChunked;
use polars::prelude::TimeUnit;
use statrs::function::gamma::digamma;
use std::fmt;

/// What a transformer reports.
#[derive(Debug)]
pub enum Error {
    InvalidInput(String),
    NotFitted(String),
    Computation(String),
}

impl fmt::Display for Error {
    fn fmt(&self, f: &mut fmt::Formatter<'_>) -> fmt::Result {
        match self {
            Error::InvalidInput(message) => f.write_str(&format!("invalid input: {message}")),
            Error::NotFitted(message) => f.write_str(&format!("not fitted: {message}")),
            Error::Computation(message) => f.write_str(&format!("computation error: {message}")),
        }
    }
}

impl From<Fault> for Error {
    fn from(e: Fault) -> Self {
        let mut message: String = e.message().chars.iter().collect();
        if let Some(d) = e.number() {
            message.push_str(&f64::from_bits(d.bits).to_string());
        }
        match e.kind() {
            Kind::InvalidInput => Error::InvalidInput(message),
            Kind::NotFitted => Error::NotFitted(message),
            Kind::Computation => Error::Computation(message),
        }
    }
}

pub type Result<T> = std::result::Result<T, Error>;

/// Learns from a frame.
pub trait Fit<X> {
    type Output;
    fn fit(&mut self, x: X) -> Result<Self::Output>;
}

/// Learns from a frame and a target.
pub trait FitSupervised<X, Y> {
    type Output;
    fn fit(&mut self, x: X, y: Y) -> Result<Self::Output>;
}

/// Makes a frame of a frame.
pub trait Transform<X> {
    type Output;
    fn transform(&self, x: X) -> Result<Self::Output>;
}

/// A number by its bits.
pub fn double(v: f64) -> Double {
    Double { bits: v.to_bits() }
}

/// A number from its bits.
pub fn float(d: Double) -> f64 {
    f64::from_bits(d.bits)
}

/// A text as a string.
pub fn string(t: &Text) -> String {
    t.chars.iter().collect()
}

/// The cells of a series.
fn values_of(s: &Series) -> Result<Values> {
    let failed = |e: PolarsError| Error::Computation(e.to_string());
    Ok(match s.dtype() {
        DataType::String => Values::Text(
            s.str().map_err(failed)?.iter().map(|v| v.map(Text::of)).collect(),
        ),
        DataType::Float64 => Values::Float64(
            s.f64().map_err(failed)?.iter().map(|v| v.map(double)).collect(),
        ),
        DataType::Date => Values::Date(
            s.to_physical_repr().i32().map_err(failed)?.iter().collect(),
        ),
        DataType::Datetime(unit, _) => {
            let resolution = match unit {
                TimeUnit::Nanoseconds => Resolution::Nanoseconds,
                TimeUnit::Microseconds => Resolution::Microseconds,
                TimeUnit::Milliseconds => Resolution::Milliseconds,
            };
            Values::Datetime(
                resolution,
                s.to_physical_repr().i64().map_err(failed)?.iter().collect(),
            )
        }
        other => Values::Other(Text::of(&other.to_string()), s.len()),
    })
}

/// A column as the library reads it.
pub fn column_of(c: &Column) -> Result<FrameColumn> {
    Ok(FrameColumn::new(c.name().as_str(), values_of(c.as_materialized_series())?))
}

/// A frame as the library reads it.
pub fn frame_of(df: &DataFrame) -> Result<Frame> {
    let columns = df.columns().iter().map(column_of).collect::<Result<Vec<FrameColumn>>>()?;
    Ok(Frame::new(df.height(), columns)?)
}

/// The results of a program, front to back.
pub fn evaluate(program: &Program) -> Vec<f64> {
    let mut r: Vec<f64> = Vec::with_capacity(program.len());
    for i in 0..program.len() {
        let value = match program.operation(i) {
            Operation::Value(d) => float(d),
            Operation::Natural(n) => n as f64,
            Operation::Integer(n) => n as f64,
            Operation::FullTurn => 2.0 * std::f64::consts::PI,
            Operation::Plus(a, b) => r[a] + r[b],
            Operation::Minus(a, b) => r[a] - r[b],
            Operation::Times(a, b) => r[a] * r[b],
            Operation::Over(a, b) => r[a] / r[b],
            Operation::Power(a, b) => r[a].powf(r[b]),
            Operation::Square(a) => r[a] * r[a],
            Operation::Root(a) => r[a].sqrt(),
            Operation::Magnitude(a) => r[a].abs(),
            Operation::Lesser(a, b) => r[a].min(r[b]),
            Operation::Greater(a, b) => r[a].max(r[b]),
            Operation::Sine(a) => r[a].sin(),
            Operation::Cosine(a) => r[a].cos(),
            Operation::Logarithm(a) => r[a].ln(),
            Operation::Digamma(a) => digamma(r[a]),
            Operation::Scaled(a, b) => {
                if r[b] > 0.0 {
                    r[a] / r[b]
                } else {
                    r[a]
                }
            }
        };
        r.push(value);
    }
    r
}

/// The results of a program as the library takes them.
pub fn results(program: &Program) -> Vec<Double> {
    evaluate(program).into_iter().map(double).collect()
}

/// The answers to a query.
pub fn answers(query: &Query) -> Vec<Double> {
    let r = evaluate(query.program());
    query.places().iter().map(|&at| double(r[at])).collect()
}

/// A finished sheet as a frame.
pub fn table(sheet: &Sheet, x: &DataFrame) -> Result<DataFrame> {
    let r = evaluate(&sheet.program);
    let mut columns: Vec<Column> = Vec::with_capacity(sheet.columns.len());
    for c in &sheet.columns {
        let name = string(&c.name);
        columns.push(match &c.cells {
            Cells::Kept(i) => x.columns()[*i].clone(),
            Cells::UInt32(cells) => {
                Column::from(Series::new(name.as_str().into(), cells.as_slice()))
            }
            Cells::Float64(cells) => {
                let values: Vec<Option<f64>> = cells
                    .iter()
                    .map(|cell| {
                        cell.map(|n| match n {
                            Number::Known(d) => float(d),
                            Number::Natural(n) => n as f64,
                            Number::Register(at) => r[at],
                        })
                    })
                    .collect();
                Column::from(Series::new(name.as_str().into(), values.as_slice()))
            }
        });
    }
    DataFrame::new(sheet.height, columns).map_err(|e| Error::Computation(e.to_string()))
}

/// [`InnerOneHotEncoder`] on frames of polars.
pub struct OneHotEncoder(InnerOneHotEncoder);

impl OneHotEncoder {
    pub fn new() -> Self {
        Self(InnerOneHotEncoder::new())
    }

    pub fn drop_first(self, value: bool) -> Self {
        Self(self.0.drop_first(value))
    }
}

impl Default for OneHotEncoder {
    fn default() -> Self {
        Self(InnerOneHotEncoder::default())
    }
}

impl Fit<DataFrame> for OneHotEncoder {
    type Output = ();

    fn fit(&mut self, x: DataFrame) -> Result<()> {
        Ok(self.0.fit(&frame_of(&x)?)?)
    }
}

impl Transform<DataFrame> for OneHotEncoder {
    type Output = DataFrame;

    fn transform(&self, x: DataFrame) -> Result<DataFrame> {
        table(&self.0.transform(&frame_of(&x)?)?, &x)
    }
}

/// [`InnerLabelEncoder`] on frames of polars.
pub struct LabelEncoder(InnerLabelEncoder);

impl LabelEncoder {
    pub fn new() -> Self {
        Self(InnerLabelEncoder::new())
    }
}

impl Default for LabelEncoder {
    fn default() -> Self {
        Self(InnerLabelEncoder::default())
    }
}

impl Fit<DataFrame> for LabelEncoder {
    type Output = ();

    fn fit(&mut self, x: DataFrame) -> Result<()> {
        Ok(self.0.fit(&frame_of(&x)?)?)
    }
}

impl Transform<DataFrame> for LabelEncoder {
    type Output = DataFrame;

    fn transform(&self, x: DataFrame) -> Result<DataFrame> {
        assert!(x.width() > 0, "LabelEncoder.transform: the frame has no columns");
        table(&self.0.transform(&frame_of(&x)?)?, &x)
    }
}

/// [`InnerOrdinalEncoder`] on frames of polars.
pub struct OrdinalEncoder(InnerOrdinalEncoder);

impl OrdinalEncoder {
    pub fn new() -> Self {
        Self(InnerOrdinalEncoder::new())
    }
}

impl Default for OrdinalEncoder {
    fn default() -> Self {
        Self(InnerOrdinalEncoder::default())
    }
}

impl Fit<DataFrame> for OrdinalEncoder {
    type Output = ();

    fn fit(&mut self, x: DataFrame) -> Result<()> {
        Ok(self.0.fit(&frame_of(&x)?)?)
    }
}

impl Transform<DataFrame> for OrdinalEncoder {
    type Output = DataFrame;

    fn transform(&self, x: DataFrame) -> Result<DataFrame> {
        table(&self.0.transform(&frame_of(&x)?)?, &x)
    }
}

/// [`InnerCountEncoder`] on frames of polars.
pub struct CountEncoder(InnerCountEncoder);

impl CountEncoder {
    pub fn new() -> Self {
        Self(InnerCountEncoder::new())
    }
}

impl Default for CountEncoder {
    fn default() -> Self {
        Self(InnerCountEncoder::default())
    }
}

impl Fit<DataFrame> for CountEncoder {
    type Output = ();

    fn fit(&mut self, x: DataFrame) -> Result<()> {
        Ok(self.0.fit(&frame_of(&x)?)?)
    }
}

impl Transform<DataFrame> for CountEncoder {
    type Output = DataFrame;

    fn transform(&self, x: DataFrame) -> Result<DataFrame> {
        table(&self.0.transform(&frame_of(&x)?)?, &x)
    }
}

/// [`InnerFrequencyEncoder`] on frames of polars.
pub struct FrequencyEncoder(InnerFrequencyEncoder);

impl FrequencyEncoder {
    pub fn new() -> Self {
        Self(InnerFrequencyEncoder::new())
    }
}

impl Default for FrequencyEncoder {
    fn default() -> Self {
        Self(InnerFrequencyEncoder::default())
    }
}

impl Fit<DataFrame> for FrequencyEncoder {
    type Output = ();

    fn fit(&mut self, x: DataFrame) -> Result<()> {
        Ok(self.0.fit(&frame_of(&x)?)?)
    }
}

impl Transform<DataFrame> for FrequencyEncoder {
    type Output = DataFrame;

    fn transform(&self, x: DataFrame) -> Result<DataFrame> {
        table(&self.0.transform(&frame_of(&x)?)?, &x)
    }
}

/// [`InnerBinaryEncoder`] on frames of polars.
pub struct BinaryEncoder(InnerBinaryEncoder);

impl BinaryEncoder {
    pub fn new() -> Self {
        Self(InnerBinaryEncoder::new())
    }
}

impl Default for BinaryEncoder {
    fn default() -> Self {
        Self(InnerBinaryEncoder::default())
    }
}

impl Fit<DataFrame> for BinaryEncoder {
    type Output = ();

    fn fit(&mut self, x: DataFrame) -> Result<()> {
        Ok(self.0.fit(&frame_of(&x)?)?)
    }
}

impl Transform<DataFrame> for BinaryEncoder {
    type Output = DataFrame;

    fn transform(&self, x: DataFrame) -> Result<DataFrame> {
        table(&self.0.transform(&frame_of(&x)?)?, &x)
    }
}

/// Whether two numbers are equal up to an absolute or a relative error.
fn near(a: f64, b: f64, epsilon: f64, max_relative: f64) {
    assert!(
        RelativeEq::relative_eq(&a, &b, epsilon, max_relative),
        "{a} is not near {b}"
    );
}

fn make_categorical_df() -> DataFrame {
    let a = Column::from(Series::new(
        "color".into(),
        &["red", "blue", "red", "green"],
    ));
    let b = Column::from(Series::new("size".into(), &["S", "M", "L", "M"]));
    DataFrame::new(4, vec![a, b]).unwrap()
}

#[test]
fn test_one_hot_encoder() {
    let mut enc = OneHotEncoder::new();
    let df = make_categorical_df();

    enc.fit(df.clone()).unwrap();
    let result = enc.transform(df).unwrap();

    assert_eq!(result.width(), 6);
    assert_eq!(result.height(), 4);
}

#[test]
fn test_one_hot_encoder_drop_first() {
    let mut enc = OneHotEncoder::new().drop_first(true);
    let df = make_categorical_df();

    enc.fit(df.clone()).unwrap();
    let result = enc.transform(df).unwrap();

    assert_eq!(result.width(), 4);
}

#[test]
fn test_one_hot_name_collision_errors() {
    // Column "a" (category "b_c") and column "a_b" (category "c") both
    // generate the output name "a_b_c"; fit must reject the ambiguity.
    let a = Column::from(Series::new("a".into(), &["b_c", "x"]));
    let a_b = Column::from(Series::new("a_b".into(), &["c", "y"]));
    let df = DataFrame::new(2, vec![a, a_b]).unwrap();

    let mut enc = OneHotEncoder::new();
    let err = enc.fit(df).unwrap_err();
    match err {
        Error::InvalidInput(msg) => assert!(msg.contains("a_b_c"), "got: {msg}"),
        other => panic!("expected Error::InvalidInput, got {other:?}"),
    }
}

#[test]
fn test_one_hot_generated_vs_input_collision_errors() {
    // Column "a" (category "b") generates "a_b", which shadows the real
    // input column "a_b"; fit must reject it.
    let a = Column::from(Series::new("a".into(), &["b", "c"]));
    let a_b = Column::from(Series::new("a_b".into(), &["z", "z"]));
    let df = DataFrame::new(2, vec![a, a_b]).unwrap();

    let mut enc = OneHotEncoder::new();
    let err = enc.fit(df).unwrap_err();
    match err {
        Error::InvalidInput(msg) => assert!(msg.contains("a_b"), "got: {msg}"),
        other => panic!("expected Error::InvalidInput, got {other:?}"),
    }
}

#[test]
fn test_one_hot_drop_first_skips_colliding_category() {
    // With drop_first, "a"'s first category "b" (which would generate
    // "a_b", shadowing the input column "a_b") is dropped, so fit succeeds.
    let a = Column::from(Series::new("a".into(), &["b", "c"]));
    let a_b = Column::from(Series::new("a_b".into(), &["z", "w"]));
    let df = DataFrame::new(2, vec![a, a_b]).unwrap();

    let mut enc = OneHotEncoder::new().drop_first(true);
    enc.fit(df.clone()).unwrap();
    let result = enc.transform(df).unwrap();
    // "a" emits "a_c"; "a_b" emits "a_b_w".
    assert_eq!(result.width(), 2);
}

#[test]
fn test_one_hot_failed_refit_clears_state() {
    // Fit successfully, then re-fit on colliding data. The failed re-fit
    // must clear the plan so a later transform returns NotFitted rather
    // than reusing the stale output plan.
    let ok =
        DataFrame::new(2, vec![Column::from(Series::new("a".into(), &["b", "x"]))]).unwrap();
    let mut enc = OneHotEncoder::new();
    enc.fit(ok.clone()).unwrap();

    let bad = DataFrame::new(
        2,
        vec![
            Column::from(Series::new("a".into(), &["b_c", "x"])),
            Column::from(Series::new("a_b".into(), &["c", "y"])),
        ],
    )
    .unwrap();
    let err = enc.fit(bad).unwrap_err();
    assert!(matches!(err, Error::InvalidInput(_)));

    let err2 = enc.transform(ok).unwrap_err();
    assert!(
        matches!(err2, Error::NotFitted(_)),
        "failed re-fit must clear the output plan"
    );
}

#[test]
fn test_label_encoder() {
    let mut enc = LabelEncoder::new();
    let colors = Column::from(Series::new(
        "color".into(),
        &["red", "blue", "red", "green"],
    ));
    let df = DataFrame::new(4, vec![colors]).unwrap();

    enc.fit(df.clone()).unwrap();
    let result = enc.transform(df).unwrap();

    let vals: Vec<u32> = result
        .column("color")
        .unwrap()
        .u32()
        .unwrap()
        .iter()
        .flatten()
        .collect();
    assert_eq!(vals, vec![2, 0, 2, 1]);
}

#[test]
fn test_ordinal_encoder() {
    let mut enc = OrdinalEncoder::new();
    let df = make_categorical_df();

    enc.fit(df.clone()).unwrap();
    let result = enc.transform(df).unwrap();

    let color_vals: Vec<u32> = result
        .column("color")
        .unwrap()
        .u32()
        .unwrap()
        .iter()
        .flatten()
        .collect();
    assert_eq!(color_vals, vec![2, 0, 2, 1]);

    let size_vals: Vec<u32> = result
        .column("size")
        .unwrap()
        .u32()
        .unwrap()
        .iter()
        .flatten()
        .collect();
    assert_eq!(size_vals, vec![2, 1, 0, 1]);
}

#[test]
fn test_count_encoder_counts() {
    let mut enc = CountEncoder::new();
    let df = make_categorical_df();
    let n_rows = df.height();

    enc.fit(df.clone()).unwrap();
    let result = enc.transform(df).unwrap();

    // color: red x2, blue x1, green x1
    let color_vals: Vec<u32> = result
        .column("color")
        .unwrap()
        .u32()
        .unwrap()
        .iter()
        .flatten()
        .collect();
    assert_eq!(color_vals, vec![2, 1, 2, 1]);

    // size: S x1, M x2, L x1
    let size_vals: Vec<u32> = result
        .column("size")
        .unwrap()
        .u32()
        .unwrap()
        .iter()
        .flatten()
        .collect();
    assert_eq!(size_vals, vec![1, 2, 1, 2]);

    // Counts observed at each row sum to the number of fitted
    // occurrences; every category's count appears exactly `count` times,
    // so the per-column sum of (count * 1) over distinct categories
    // equals n_rows. Here both columns cover all rows.
    assert_eq!(result.height(), n_rows);
}

#[test]
fn test_count_encoder_counts_sum_to_n_rows() {
    // Two-category column: counts for the distinct categories must sum to
    // the number of rows.
    let col = Column::from(Series::new("c".into(), &["a", "b", "a", "a", "b", "a"]));
    let df = DataFrame::new(6, vec![col]).unwrap();
    let n_rows = df.height();

    let mut enc = CountEncoder::new();
    enc.fit(df.clone()).unwrap();
    let result = enc.transform(df).unwrap();

    let vals: Vec<u32> = result
        .column("c")
        .unwrap()
        .u32()
        .unwrap()
        .iter()
        .flatten()
        .collect();
    // a x4, b x2
    assert_eq!(vals, vec![4, 2, 4, 4, 2, 4]);

    // Sum over distinct categories: 4 + 2 == n_rows.
    let distinct_sum: u32 = {
        let mut seen = std::collections::HashSet::new();
        vals.iter().filter(|v| seen.insert(*v)).sum()
    };
    assert_eq!(distinct_sum as usize, n_rows);
}

#[test]
fn test_count_encoder_unseen_category_maps_to_zero() {
    let mut enc = CountEncoder::new();
    let train = DataFrame::new(
        3,
        vec![Column::from(Series::new("c".into(), &["a", "a", "b"]))],
    )
    .unwrap();
    enc.fit(train).unwrap();

    // "zzz" was never seen during fit -> 0.
    let test = DataFrame::new(
        3,
        vec![Column::from(Series::new("c".into(), &["a", "zzz", "b"]))],
    )
    .unwrap();
    let result = enc.transform(test).unwrap();

    let vals: Vec<u32> = result
        .column("c")
        .unwrap()
        .u32()
        .unwrap()
        .iter()
        .flatten()
        .collect();
    assert_eq!(vals, vec![2, 0, 1]);
}

#[test]
fn test_count_encoder_not_fitted() {
    let enc = CountEncoder::new();
    let df = make_categorical_df();
    let err = enc.transform(df).unwrap_err();
    assert!(matches!(err, Error::NotFitted(_)));
}

#[test]
fn test_count_encoder_nulls_preserved() {
    let mut enc = CountEncoder::new();
    let col = Column::from(Series::new(
        "c".into(),
        &[Some("a"), None, Some("a"), Some("b")],
    ));
    let df = DataFrame::new(4, vec![col]).unwrap();

    enc.fit(df.clone()).unwrap();
    let result = enc.transform(df).unwrap();

    let ca = result.column("c").unwrap().u32().unwrap();
    let vals: Vec<Option<u32>> = ca.iter().collect();
    // null stays null; nulls do not contribute to counts (a x2, b x1).
    assert_eq!(vals, vec![Some(2), None, Some(2), Some(1)]);
}

#[test]
fn test_count_encoder_output_dtype_is_uint32() {
    let mut enc = CountEncoder::new();
    let df = make_categorical_df();
    enc.fit(df.clone()).unwrap();
    let result = enc.transform(df).unwrap();

    assert_eq!(result.column("color").unwrap().dtype(), &DataType::UInt32);
}

#[test]
fn test_count_encoder_single_category_maps_to_n_rows() {
    let col = Column::from(Series::new("c".into(), &["only", "only", "only"]));
    let df = DataFrame::new(3, vec![col]).unwrap();

    let mut enc = CountEncoder::new();
    enc.fit(df.clone()).unwrap();
    let result = enc.transform(df).unwrap();

    let vals: Vec<u32> = result
        .column("c")
        .unwrap()
        .u32()
        .unwrap()
        .iter()
        .flatten()
        .collect();
    assert_eq!(vals, vec![3, 3, 3]);
}

#[test]
fn test_count_encoder_default_and_missing_column_error() {
    let mut enc = CountEncoder::default();
    let df = make_categorical_df();
    enc.fit(df).unwrap();

    // Transform a frame missing the fitted columns.
    let other =
        DataFrame::new(2, vec![Column::from(Series::new("x".into(), &["a", "b"]))]).unwrap();
    let err = enc.transform(other).unwrap_err();
    assert!(matches!(err, Error::InvalidInput(_)));
}

#[test]
fn test_count_encoder_skips_non_string_columns() {
    let city = Column::from(Series::new("city".into(), &["a", "b", "a"]));
    let x = Column::from(Series::new("x".into(), &[1.0f64, 2.0, 3.0]));
    let df = DataFrame::new(3, vec![city, x]).unwrap();

    let mut enc = CountEncoder::new();
    enc.fit(df.clone()).unwrap();
    let result = enc.transform(df).unwrap();

    // Only the string column is encoded; the numeric column is ignored.
    assert_eq!(result.width(), 1);
    let vals: Vec<u32> = result
        .column("city")
        .unwrap()
        .u32()
        .unwrap()
        .iter()
        .flatten()
        .collect();
    assert_eq!(vals, vec![2, 1, 2]);
}

#[test]
fn test_count_encoder_no_string_columns_errors() {
    let x = Column::from(Series::new("x".into(), &[1.0f64, 2.0, 3.0]));
    let df = DataFrame::new(3, vec![x]).unwrap();

    let mut enc = CountEncoder::new();
    let err = enc.fit(df).unwrap_err();
    assert!(matches!(err, Error::InvalidInput(_)));
}

#[test]
fn test_frequency_encoder_unequal_counts() {
    let mut enc = FrequencyEncoder::new();
    let col = Column::from(Series::new("c".into(), &["a", "b", "a", "a"]));
    let df = DataFrame::new(4, vec![col]).unwrap();

    enc.fit(df.clone()).unwrap();
    let result = enc.transform(df).unwrap();

    let vals: Vec<f64> = result
        .column("c")
        .unwrap()
        .f64()
        .unwrap()
        .iter()
        .flatten()
        .collect();
    // a x3/4, b x1/4
    assert_eq!(vals, vec![0.75, 0.25, 0.75, 0.75]);
}

#[test]
fn test_frequency_encoder_equal_counts() {
    let mut enc = FrequencyEncoder::new();
    let col = Column::from(Series::new("c".into(), &["a", "b", "c"]));
    let df = DataFrame::new(3, vec![col]).unwrap();

    enc.fit(df.clone()).unwrap();
    let result = enc.transform(df).unwrap();

    let vals: Vec<f64> = result
        .column("c")
        .unwrap()
        .f64()
        .unwrap()
        .iter()
        .flatten()
        .collect();
    for v in vals {
        near(v, 1.0 / 3.0, 1e-12, f64::EPSILON);
    }
}

#[test]
fn test_frequency_encoder_single_category_maps_to_one() {
    let mut enc = FrequencyEncoder::new();
    let col = Column::from(Series::new("c".into(), &["only", "only", "only"]));
    let df = DataFrame::new(3, vec![col]).unwrap();

    enc.fit(df.clone()).unwrap();
    let result = enc.transform(df).unwrap();

    let vals: Vec<f64> = result
        .column("c")
        .unwrap()
        .f64()
        .unwrap()
        .iter()
        .flatten()
        .collect();
    assert_eq!(vals, vec![1.0, 1.0, 1.0]);
}

#[test]
fn test_frequency_encoder_unseen_category_maps_to_zero() {
    let mut enc = FrequencyEncoder::new();
    let train = DataFrame::new(
        3,
        vec![Column::from(Series::new("c".into(), &["a", "a", "b"]))],
    )
    .unwrap();
    enc.fit(train).unwrap();

    // "zzz" was never seen during fit -> 0.0.
    let test = DataFrame::new(
        3,
        vec![Column::from(Series::new("c".into(), &["a", "zzz", "b"]))],
    )
    .unwrap();
    let result = enc.transform(test).unwrap();

    let vals: Vec<f64> = result
        .column("c")
        .unwrap()
        .f64()
        .unwrap()
        .iter()
        .flatten()
        .collect();
    // a x2/3, b x1/3, unseen -> 0.0
    near(vals[0], 2.0 / 3.0, 1e-12, f64::EPSILON);
    assert_eq!(vals[1], 0.0);
    near(vals[2], 1.0 / 3.0, 1e-12, f64::EPSILON);
}

#[test]
fn test_frequency_encoder_nulls_preserved() {
    let mut enc = FrequencyEncoder::new();
    let col = Column::from(Series::new(
        "c".into(),
        &[Some("a"), None, Some("a"), Some("b")],
    ));
    let df = DataFrame::new(4, vec![col]).unwrap();

    enc.fit(df.clone()).unwrap();
    let result = enc.transform(df).unwrap();

    let ca = result.column("c").unwrap().f64().unwrap();
    let vals: Vec<Option<f64>> = ca.iter().collect();
    // null stays null; the denominator counts non-null values only (3),
    // so frequencies still sum to ~1.0: a x2/3, b x1/3.
    near(vals[0].unwrap(), 2.0 / 3.0, 1e-12, f64::EPSILON);
    assert_eq!(vals[1], None);
    near(vals[2].unwrap(), 2.0 / 3.0, 1e-12, f64::EPSILON);
    near(vals[3].unwrap(), 1.0 / 3.0, 1e-12, f64::EPSILON);
}

#[test]
fn test_frequency_encoder_not_fitted() {
    let enc = FrequencyEncoder::new();
    let df = make_categorical_df();
    let err = enc.transform(df).unwrap_err();
    assert!(matches!(err, Error::NotFitted(_)));
}

#[test]
fn test_frequency_encoder_empty_input_errors() {
    let mut enc = FrequencyEncoder::new();
    let df = DataFrame::new(0, Vec::<Column>::new()).unwrap();
    let err = enc.fit(df).unwrap_err();
    assert!(matches!(err, Error::InvalidInput(_)));
}

#[test]
fn test_frequency_encoder_output_dtype_is_float64() {
    let mut enc = FrequencyEncoder::new();
    let df = make_categorical_df();
    enc.fit(df.clone()).unwrap();
    let result = enc.transform(df).unwrap();

    assert_eq!(result.column("color").unwrap().dtype(), &DataType::Float64);
    assert_eq!(result.column("size").unwrap().dtype(), &DataType::Float64);
}

#[test]
fn test_frequency_encoder_skips_non_string_columns() {
    let city = Column::from(Series::new("city".into(), &["a", "b", "a"]));
    let x = Column::from(Series::new("x".into(), &[1.0f64, 2.0, 3.0]));
    let df = DataFrame::new(3, vec![city, x]).unwrap();

    let mut enc = FrequencyEncoder::new();
    enc.fit(df.clone()).unwrap();
    let result = enc.transform(df).unwrap();

    // Only the string column is encoded; the numeric column is ignored.
    assert_eq!(result.width(), 1);
    let vals: Vec<f64> = result
        .column("city")
        .unwrap()
        .f64()
        .unwrap()
        .iter()
        .flatten()
        .collect();
    near(vals[0], 2.0 / 3.0, 1e-12, f64::EPSILON);
    near(vals[1], 1.0 / 3.0, 1e-12, f64::EPSILON);
    near(vals[2], 2.0 / 3.0, 1e-12, f64::EPSILON);
}

#[test]
fn test_frequency_encoder_no_string_columns_errors() {
    let x = Column::from(Series::new("x".into(), &[1.0f64, 2.0, 3.0]));
    let df = DataFrame::new(3, vec![x]).unwrap();

    let mut enc = FrequencyEncoder::new();
    let err = enc.fit(df).unwrap_err();
    assert!(matches!(err, Error::InvalidInput(_)));
}

#[test]
fn test_frequency_encoder_default_and_missing_column_error() {
    let mut enc = FrequencyEncoder::default();
    let df = make_categorical_df();
    enc.fit(df).unwrap();

    // Transform a frame missing the fitted columns.
    let other =
        DataFrame::new(2, vec![Column::from(Series::new("x".into(), &["a", "b"]))]).unwrap();
    let err = enc.transform(other).unwrap_err();
    assert!(matches!(err, Error::InvalidInput(_)));
}

#[test]
fn test_frequency_encoder_wrong_dtype_at_transform_errors() {
    let mut enc = FrequencyEncoder::new();
    let df = make_categorical_df();
    enc.fit(df.clone()).unwrap();

    // The fitted column exists but is no longer String at transform time.
    let other = DataFrame::new(
        df.height(),
        vec![Column::from(Series::new(
            "color".into(),
            &[1.0f64, 2.0, 3.0, 4.0],
        ))],
    )
    .unwrap();
    let err = enc.transform(other).unwrap_err();
    assert!(matches!(err, Error::InvalidInput(_)));
}

#[test]
fn test_frequency_encoder_all_null_column_skipped() {
    let a = Column::from(Series::new("a".into(), &[None::<&str>, None, None]));
    let b = Column::from(Series::new("b".into(), &["x", "x", "y"]));
    let df = DataFrame::new(3, vec![a, b]).unwrap();

    let mut enc = FrequencyEncoder::new();
    enc.fit(df.clone()).unwrap();
    let result = enc.transform(df).unwrap();

    // The all-null column contributes no mapping; only "b" is encoded.
    assert_eq!(result.width(), 1);
    assert!(result.column("b").is_ok());
}

#[test]
fn test_frequency_encoder_refit_resets_state() {
    let mut enc = FrequencyEncoder::new();
    let df = make_categorical_df();
    enc.fit(df.clone()).unwrap();
    let r1 = enc.transform(df.clone()).unwrap();
    assert_eq!(r1.width(), 2);

    // Re-fit on a frame with no string columns must fail and must NOT
    // leave the previous fitted state usable.
    let bad = DataFrame::new(
        2,
        vec![Column::from(Series::new("x".into(), &[1.0f64, 2.0]))],
    )
    .unwrap();
    let err = enc.fit(bad).unwrap_err();
    assert!(matches!(err, Error::InvalidInput(_)));

    let err = enc.transform(df).unwrap_err();
    assert!(matches!(err, Error::NotFitted(_)));
}

fn make_binary_df() -> DataFrame {
    let color = Column::from(Series::new(
        "color".into(),
        &["red", "blue", "red", "green"],
    ));
    DataFrame::new(4, vec![color]).unwrap()
}

#[test]
fn test_binary_encoder_four_categories_two_bits() {
    let mut enc = BinaryEncoder::new();
    let df = make_binary_df();
    enc.fit(df.clone()).unwrap();
    let result = enc.transform(df).unwrap();

    // 3 categories -> 2 bit columns; sorted IDs: blue=0, green=1, red=2.
    assert_eq!(result.width(), 2);
    assert_eq!(result.get_column_names()[0].as_str(), "color_bit_0");
    assert_eq!(result.get_column_names()[1].as_str(), "color_bit_1");

    // LSB first: red=2 -> [0,1], blue=0 -> [0,0], green=1 -> [1,0].
    let bit0: Vec<u32> = result
        .column("color_bit_0")
        .unwrap()
        .u32()
        .unwrap()
        .iter()
        .flatten()
        .collect();
    let bit1: Vec<u32> = result
        .column("color_bit_1")
        .unwrap()
        .u32()
        .unwrap()
        .iter()
        .flatten()
        .collect();
    assert_eq!(bit0, vec![0, 0, 0, 1]);
    assert_eq!(bit1, vec![1, 0, 1, 0]);
}

#[test]
fn test_binary_encoder_eight_categories_three_bits() {
    let vals = ["a", "b", "c", "d", "e", "f", "g", "h"];
    let col = Column::from(Series::new("c".into(), &vals));
    let df = DataFrame::new(8, vec![col]).unwrap();

    let mut enc = BinaryEncoder::new();
    enc.fit(df.clone()).unwrap();
    let result = enc.transform(df).unwrap();

    assert_eq!(result.width(), 3);
    // IDs a=0..h=7; bit i holds the 2^i-place digit of each ID.
    let bit0: Vec<u32> = result
        .column("c_bit_0")
        .unwrap()
        .u32()
        .unwrap()
        .iter()
        .flatten()
        .collect();
    let bit1: Vec<u32> = result
        .column("c_bit_1")
        .unwrap()
        .u32()
        .unwrap()
        .iter()
        .flatten()
        .collect();
    let bit2: Vec<u32> = result
        .column("c_bit_2")
        .unwrap()
        .u32()
        .unwrap()
        .iter()
        .flatten()
        .collect();
    assert_eq!(bit0, vec![0, 1, 0, 1, 0, 1, 0, 1]);
    assert_eq!(bit1, vec![0, 0, 1, 1, 0, 0, 1, 1]);
    assert_eq!(bit2, vec![0, 0, 0, 0, 1, 1, 1, 1]);
}

#[test]
fn test_binary_encoder_id_five_decomposes_to_101() {
    // Six sorted categories assign "f" the ID 5 -> binary 101 (LSB first:
    // bit_0=1, bit_1=0, bit_2=1).
    let col = Column::from(Series::new("c".into(), &["f", "a", "b", "c", "d", "e"]));
    let df = DataFrame::new(6, vec![col]).unwrap();

    let mut enc = BinaryEncoder::new();
    enc.fit(df.clone()).unwrap();
    let result = enc.transform(df).unwrap();

    assert_eq!(result.width(), 3);
    // Rows: f=5 -> 101, a=0 -> 000, b=1 -> 001 (LSB first), c=2 -> 010,
    // d=3 -> 011, e=4 -> 100.
    let bit0: Vec<u32> = result
        .column("c_bit_0")
        .unwrap()
        .u32()
        .unwrap()
        .iter()
        .flatten()
        .collect();
    let bit1: Vec<u32> = result
        .column("c_bit_1")
        .unwrap()
        .u32()
        .unwrap()
        .iter()
        .flatten()
        .collect();
    let bit2: Vec<u32> = result
        .column("c_bit_2")
        .unwrap()
        .u32()
        .unwrap()
        .iter()
        .flatten()
        .collect();
    assert_eq!(bit0, vec![1, 0, 1, 0, 1, 0]);
    assert_eq!(bit1, vec![0, 0, 0, 1, 1, 0]);
    assert_eq!(bit2, vec![1, 0, 0, 0, 0, 1]);
}

#[test]
fn test_binary_encoder_two_categories_one_bit() {
    let col = Column::from(Series::new("c".into(), &["x", "y", "x"]));
    let df = DataFrame::new(3, vec![col]).unwrap();

    let mut enc = BinaryEncoder::new();
    enc.fit(df.clone()).unwrap();
    let result = enc.transform(df).unwrap();

    assert_eq!(result.width(), 1);
    // x=0 -> 0, y=1 -> 1.
    let bit0: Vec<u32> = result
        .column("c_bit_0")
        .unwrap()
        .u32()
        .unwrap()
        .iter()
        .flatten()
        .collect();
    assert_eq!(bit0, vec![0, 1, 0]);
}

#[test]
fn test_binary_encoder_single_category_all_zeros() {
    let col = Column::from(Series::new("c".into(), &["only", "only"]));
    let df = DataFrame::new(2, vec![col]).unwrap();

    let mut enc = BinaryEncoder::new();
    enc.fit(df.clone()).unwrap();
    let result = enc.transform(df).unwrap();

    assert_eq!(result.width(), 1);
    let bit0: Vec<u32> = result
        .column("c_bit_0")
        .unwrap()
        .u32()
        .unwrap()
        .iter()
        .flatten()
        .collect();
    assert_eq!(bit0, vec![0, 0]);
}

#[test]
fn test_binary_encoder_unseen_category_all_zeros() {
    let mut enc = BinaryEncoder::new();
    let train = DataFrame::new(
        3,
        vec![Column::from(Series::new("c".into(), &["a", "a", "b"]))],
    )
    .unwrap();
    enc.fit(train).unwrap();

    let test = DataFrame::new(
        3,
        vec![Column::from(Series::new("c".into(), &["a", "zzz", "b"]))],
    )
    .unwrap();
    let result = enc.transform(test).unwrap();

    // a=0, b=1; unseen "zzz" -> all-zero vector.
    let bit0: Vec<u32> = result
        .column("c_bit_0")
        .unwrap()
        .u32()
        .unwrap()
        .iter()
        .flatten()
        .collect();
    assert_eq!(bit0, vec![0, 0, 1]);
}

#[test]
fn test_binary_encoder_nulls_preserved() {
    let col = Column::from(Series::new(
        "c".into(),
        &[Some("a"), None, Some("b"), Some("a")],
    ));
    let df = DataFrame::new(4, vec![col]).unwrap();

    let mut enc = BinaryEncoder::new();
    enc.fit(df.clone()).unwrap();
    let result = enc.transform(df).unwrap();

    let ca = result.column("c_bit_0").unwrap().u32().unwrap();
    let vals: Vec<Option<u32>> = ca.iter().collect();
    // a=0 -> 0, null stays null across the bit columns, b=1 -> 1.
    assert_eq!(vals, vec![Some(0), None, Some(1), Some(0)]);
}

#[test]
fn test_binary_encoder_not_fitted() {
    let enc = BinaryEncoder::new();
    let df = make_binary_df();
    let err = enc.transform(df).unwrap_err();
    assert!(matches!(err, Error::NotFitted(_)));
}

#[test]
fn test_binary_encoder_empty_input_errors() {
    let mut enc = BinaryEncoder::new();
    let df = DataFrame::new(0, Vec::<Column>::new()).unwrap();
    let err = enc.fit(df).unwrap_err();
    assert!(matches!(err, Error::InvalidInput(_)));
}

#[test]
fn test_binary_encoder_no_string_columns_errors() {
    let x = Column::from(Series::new("x".into(), &[1.0f64, 2.0, 3.0]));
    let df = DataFrame::new(3, vec![x]).unwrap();

    let mut enc = BinaryEncoder::new();
    let err = enc.fit(df).unwrap_err();
    assert!(matches!(err, Error::InvalidInput(_)));
}

#[test]
fn test_binary_encoder_non_string_columns_pass_through() {
    let city = Column::from(Series::new("city".into(), &["a", "b", "a", "c"]));
    let price = Column::from(Series::new("price".into(), &[1.5f64, 2.5, 3.5, 4.5]));
    let df = DataFrame::new(4, vec![city, price]).unwrap();

    let mut enc = BinaryEncoder::new();
    enc.fit(df.clone()).unwrap();
    let result = enc.transform(df).unwrap();

    // city (3 categories) -> 2 bit columns; price passes through unchanged.
    assert_eq!(result.width(), 3);
    assert_eq!(result.get_column_names()[0].as_str(), "city_bit_0");
    assert_eq!(result.get_column_names()[1].as_str(), "city_bit_1");
    assert_eq!(result.get_column_names()[2].as_str(), "price");
    assert_eq!(result.column("price").unwrap().dtype(), &DataType::Float64);
    let prices: Vec<f64> = result
        .column("price")
        .unwrap()
        .f64()
        .unwrap()
        .iter()
        .flatten()
        .collect();
    assert_eq!(prices, vec![1.5, 2.5, 3.5, 4.5]);
}

#[test]
fn test_binary_encoder_output_dtype_is_uint32() {
    let mut enc = BinaryEncoder::new();
    let df = make_binary_df();
    enc.fit(df.clone()).unwrap();
    let result = enc.transform(df).unwrap();

    assert_eq!(
        result.column("color_bit_0").unwrap().dtype(),
        &DataType::UInt32
    );
}

#[test]
fn test_binary_encoder_default_and_missing_column_error() {
    let mut enc = BinaryEncoder::default();
    let df = make_binary_df();
    enc.fit(df).unwrap();

    // Transform a frame missing the fitted columns.
    let other =
        DataFrame::new(2, vec![Column::from(Series::new("x".into(), &["a", "b"]))]).unwrap();
    let err = enc.transform(other).unwrap_err();
    assert!(matches!(err, Error::InvalidInput(_)));
}

#[test]
fn test_binary_encoder_wrong_dtype_at_transform_errors() {
    let mut enc = BinaryEncoder::new();
    let df = make_binary_df();
    enc.fit(df.clone()).unwrap();

    // The fitted column exists but is no longer String at transform time.
    let other = DataFrame::new(
        df.height(),
        vec![Column::from(Series::new(
            "color".into(),
            &[1.0f64, 2.0, 3.0, 4.0],
        ))],
    )
    .unwrap();
    let err = enc.transform(other).unwrap_err();
    assert!(matches!(err, Error::InvalidInput(_)));
}

#[test]
fn test_binary_encoder_all_null_column_skipped() {
    let a = Column::from(Series::new("a".into(), &[None::<&str>, None, None]));
    let b = Column::from(Series::new("b".into(), &["x", "x", "y"]));
    let df = DataFrame::new(3, vec![a, b]).unwrap();

    let mut enc = BinaryEncoder::new();
    enc.fit(df.clone()).unwrap();
    let result = enc.transform(df).unwrap();

    // The all-null column contributes no mapping, so it is not encoded and
    // passes through unchanged; only "b" is encoded.
    assert_eq!(result.width(), 2);
    assert!(result.column("a").is_ok());
    assert_eq!(result.column("a").unwrap().dtype(), &DataType::String);
    assert!(result.column("b_bit_0").is_ok());
}

#[test]
fn test_binary_encoder_refit_resets_state() {
    let mut enc = BinaryEncoder::new();
    let df = make_binary_df();
    enc.fit(df.clone()).unwrap();
    let r1 = enc.transform(df.clone()).unwrap();
    assert_eq!(r1.width(), 2);

    // Re-fit on a frame with no string columns must fail and must NOT
    // leave the previous fitted state usable.
    let bad = DataFrame::new(
        2,
        vec![Column::from(Series::new("x".into(), &[1.0f64, 2.0]))],
    )
    .unwrap();
    let err = enc.fit(bad).unwrap_err();
    assert!(matches!(err, Error::InvalidInput(_)));

    let err = enc.transform(df).unwrap_err();
    assert!(matches!(err, Error::NotFitted(_)));
}

#[test]
fn test_binary_encoder_generated_name_collision_errors() {
    // Fitting "a" (2 categories) generates "a_bit_0"; an input column
    // literally named "a_bit_0" would collide -> error, not overwrite.
    let mut enc = BinaryEncoder::new();
    let train =
        DataFrame::new(2, vec![Column::from(Series::new("a".into(), &["x", "y"]))]).unwrap();
    enc.fit(train).unwrap();

    // Pass-through column after the fitted one: the generated name is
    // inserted first and the pass-through insert fails.
    let a = Column::from(Series::new("a".into(), &["x", "y"]));
    let clash = Column::from(Series::new("a_bit_0".into(), &[1.0f64, 2.0]));
    let df = DataFrame::new(2, vec![a, clash]).unwrap();
    let err = enc.transform(df).unwrap_err();
    assert!(matches!(err, Error::InvalidInput(_)));

    // Reverse ordering: the pass-through name is inserted first and the
    // generated insert fails.
    let a = Column::from(Series::new("a".into(), &["x", "y"]));
    let clash = Column::from(Series::new("a_bit_0".into(), &[1.0f64, 2.0]));
    let df = DataFrame::new(2, vec![clash, a]).unwrap();
    let err = enc.transform(df).unwrap_err();
    assert!(matches!(err, Error::InvalidInput(_)));
}

#[test]
fn test_binary_encoder_multiple_fitted_columns() {
    // Two fitted String columns are each replaced in place by their bit
    // columns, interleaved with a pass-through column in input order.
    let a = Column::from(Series::new("a".into(), &["x", "y", "x"]));
    let num = Column::from(Series::new("num".into(), &[1.0f64, 2.0, 3.0]));
    let b = Column::from(Series::new("b".into(), &["p", "p", "q"]));
    let df = DataFrame::new(3, vec![a, num, b]).unwrap();

    let mut enc = BinaryEncoder::new();
    enc.fit(df.clone()).unwrap();
    let result = enc.transform(df).unwrap();

    // a (2 cats) -> a_bit_0, num passes through, b (2 cats) -> b_bit_0.
    assert_eq!(result.width(), 3);
    assert_eq!(result.get_column_names()[0].as_str(), "a_bit_0");
    assert_eq!(result.get_column_names()[1].as_str(), "num");
    assert_eq!(result.get_column_names()[2].as_str(), "b_bit_0");

    let a_bits: Vec<u32> = result
        .column("a_bit_0")
        .unwrap()
        .u32()
        .unwrap()
        .iter()
        .flatten()
        .collect();
    let b_bits: Vec<u32> = result
        .column("b_bit_0")
        .unwrap()
        .u32()
        .unwrap()
        .iter()
        .flatten()
        .collect();
    // x=0 -> 0, y=1 -> 1; p=0 -> 0, q=1 -> 1.
    assert_eq!(a_bits, vec![0, 1, 0]);
    assert_eq!(b_bits, vec![0, 0, 1]);
}
