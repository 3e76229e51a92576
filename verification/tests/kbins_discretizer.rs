#![allow(dead_code, unused_imports)]

use approx::RelativeEq;
use featrs::double::Double;
use featrs::error::Error as Fault;
use featrs::error::Kind;
use featrs::frame::Cells;
use featrs::frame::Column as FrameColumn;
use featrs::frame::Frame;
use featrs::frame::Number;
use featrs::frame::Resolution;
use featrs::frame::Sheet;
use featrs::frame::Values;
use featrs::preprocessing::kbins_discretizer::BinPlan;
use featrs::preprocessing::kbins_discretizer::BinStrategy;
use featrs::preprocessing::kbins_discretizer::EdgeFinder;
use featrs::preprocessing::kbins_discretizer::EncodeMode;
use featrs::preprocessing::kbins_discretizer::KBinsDiscretizer as InnerKBinsDiscretizer;
use featrs::preprocessing::kbins_discretizer;
use featrs::program::Operation;
use featrs::program::Program;
use featrs::program::Query;
use featrs::text::Text;
use polars::prelude::AnyValue;
use polars::prelude::ChunkAgg;
use polars::prelude::Column;
use polars::prelude::DataFrame;
use polars::prelude::DataType;
use polars::prelude::IntoSeries;
use polars::prelude::NamedFrom;
use polars::prelude::PolarsError;
use polars::prelude::Series;
use polars::prelude::StringChunked;
use polars::prelude::TimeUnit;
use statrs::function::gamma::digamma;
use std::fmt;

/// What a transformer reports.
#[derive(Debug)]
pub enum Error {
    InvalidInput(String),
    NotFitted(String),
    Computation(String),
}

impl fmt::Display for Error {
    fn fmt(&self, f: &mut fmt::Formatter<'_>) -> fmt::Result {
        match self {
            Error::InvalidInput(message) => f.write_str(&format!("invalid input: {message}")),
            Error::NotFitted(message) => f.write_str(&format!("not fitted: {message}")),
            Error::Computation(message) => f.write_str(&format!("computation error: {message}")),
        }
    }
}

impl From<Fault> for Error {
    fn from(e: Fault) -> Self {
        let mut message: String = e.message().chars.iter().collect();
        if let Some(d) = e.number() {
            message.push_str(&f64::from_bits(d.bits).to_string());
        }
        match e.kind() {
            Kind::InvalidInput => Error::InvalidInput(message),
            Kind::NotFitted => Error::NotFitted(message),
            Kind::Computation => Error::Computation(message),
        }
    }
}

pub type Result<T> = std::result::Result<T, Error>;

/// Learns from a frame.
pub trait Fit<X> {
    type Output;
    fn fit(&mut self, x: X) -> Result<Self::Output>;
}

/// Learns from a frame and a target.
pub trait FitSupervised<X, Y> {
    type Output;
    fn fit(&mut self, x: X, y: Y) -> Result<Self::Output>;
}

/// Makes a frame of a frame.
pub trait Transform<X> {
    type Output;
    fn transform(&self, x: X) -> Result<Self::Output>;
}

/// A number by its bits.
pub fn double(v: f64) -> Double {
    Double { bits: v.to_bits() }
}

/// A number from its bits.
pub fn float(d: Double) -> f64 {
    f64::from_bits(d.bits)
}

/// A text as a string.
pub fn string(t: &Text) -> String {
    t.chars.iter().collect()
}

/// The cells of a series.
fn values_of(s: &Series) -> Result<Values> {
    let failed = |e: PolarsError| Error::Computation(e.to_string());
    Ok(match s.dtype() {
        DataType::String => Values::Text(
            s.str().map_err(failed)?.iter().map(|v| v.map(Text::of)).collect(),
        ),
        DataType::Float64 => Values::Float64(
            s.f64().map_err(failed)?.iter().map(|v| v.map(double)).collect(),
        ),
        DataType::Date => Values::Date(
            s.to_physical_repr().i32().map_err(failed)?.iter().collect(),
        ),
        DataType::Datetime(unit, _) => {
            let resolution = match unit {
                TimeUnit::Nanoseconds => Resolution::Nanoseconds,
                TimeUnit::Microseconds => Resolution::Microseconds,
                TimeUnit::Milliseconds => Resolution::Milliseconds,
            };
            Values::Datetime(
                resolution,
                s.to_physical_repr().i64().map_err(failed)?.iter().collect(),
            )
        }
        other => Values::Other(Text::of(&other.to_string()), s.len()),
    })
}

/// A column as the library reads it.
pub fn column_of(c: &Column) -> Result<FrameColumn> {
    Ok(FrameColumn::new(c.name().as_str(), values_of(c.as_materialized_series())?))
}

/// A frame as the library reads it.
pub fn frame_of(df: &DataFrame) -> Result<Frame> {
    let columns = df.columns().iter().map(column_of).collect::<Result<Vec<FrameColumn>>>()?;
    Ok(Frame::new(df.height(), columns)?)
}

/// The results of a program, front to back.
pub fn evaluate(program: &Program) -> Vec<f64> {
    let mut r: Vec<f64> = Vec::with_capacity(program.len());
    for i in 0..program.len() {
        let value = match program.operation(i) {
            Operation::Value(d) => float(d),
            Operation::Natural(n) => n as f64,
            Operation::Integer(n) => n as f64,
            Operation::FullTurn => 2.0 * std::f64::consts::PI,
            Operation::Plus(a, b) => r[a] + r[b],
            Operation::Minus(a, b) => r[a] - r[b],
            Operation::Times(a, b) => r[a] * r[b],
            Operation::Over(a, b) => r[a] / r[b],
            Operation::Power(a, b) => r[a].powf(r[b]),
            Operation::Square(a) => r[a] * r[a],
            Operation::Root(a) => r[a].sqrt(),
            Operation::Magnitude(a) => r[a].abs(),
            Operation::Lesser(a, b) => r[a].min(r[b]),
            Operation::Greater(a, b) => r[a].max(r[b]),
            Operation::Sine(a) => r[a].sin(),
            Operation::Cosine(a) => r[a].cos(),
            Operation::Logarithm(a) => r[a].ln(),
            Operation::Digamma(a) => digamma(r[a]),
            Operation::Scaled(a, b) => {
                if r[b] > 0.0 {
                    r[a] / r[b]
                } else {
                    r[a]
                }
            }
        };
        r.push(value);
    }
    r
}

/// The results of a program as the library takes them.
pub fn results(program: &Program) -> Vec<Double> {
    evaluate(program).into_iter().map(double).collect()
}

/// The answers to a query.
pub fn answers(query: &Query) -> Vec<Double> {
    let r = evaluate(query.program());
    query.places().iter().map(|&at| double(r[at])).collect()
}

/// A finished sheet as a frame.
pub fn table(sheet: &Sheet, x: &DataFrame) -> Result<DataFrame> {
    let r = evaluate(&sheet.program);
    let mut columns: Vec<Column> = Vec::with_capacity(sheet.columns.len());
    for c in &sheet.columns {
        let name = string(&c.name);
        columns.push(match &c.cells {
            Cells::Kept(i) => x.columns()[*i].clone(),
            Cells::UInt32(cells) => {
                Column::from(Series::new(name.as_str().into(), cells.as_slice()))
            }
            Cells::Float64(cells) => {
                let values: Vec<Option<f64>> = cells
                    .iter()
                    .map(|cell| {
                        cell.map(|n| match n {
                            Number::Known(d) => float(d),
                            Number::Natural(n) => n as f64,
                            Number::Register(at) => r[at],
                        })
                    })
                    .collect();
                Column::from(Series::new(name.as_str().into(), values.as_slice()))
            }
        });
    }
    DataFrame::new(sheet.height, columns).map_err(|e| Error::Computation(e.to_string()))
}

/// [`InnerKBinsDiscretizer`] on frames of polars.
pub struct KBinsDiscretizer(InnerKBinsDiscretizer);

impl KBinsDiscretizer {
    pub fn new() -> Self {
        Self(InnerKBinsDiscretizer::new())
    }

    pub fn n_bins(self, k: usize) -> Self {
        Self(self.0.n_bins(k))
    }

    pub fn strategy(self, s: BinStrategy) -> Self {
        Self(self.0.strategy(s))
    }

    pub fn encode(self, e: EncodeMode) -> Self {
        Self(self.0.encode(e))
    }

    pub fn effective_bins(&self, column: &str) -> Option<usize> {
        self.0.effective_bins(column)
    }
}

impl Default for KBinsDiscretizer {
    fn default() -> Self {
        Self(InnerKBinsDiscretizer::default())
    }
}

/// Brings a search to the edges.
fn find_edges(finder: EdgeFinder) -> EdgeFinder {
    let mut finder = finder;
    while finder.edges().is_none() {
        let known = answers(finder.query());
        finder = finder.advance(&known);
    }
    finder
}

impl Fit<DataFrame> for KBinsDiscretizer {
    type Output = ();

    fn fit(&mut self, x: DataFrame) -> Result<()> {
        let plan = self.0.fit(&frame_of(&x)?)?;
        let found = BinPlan {
            columns: plan.columns.into_iter().map(|(name, f)| (name, find_edges(f))).collect(),
            fault: plan.fault,
        };
        Ok(self.0.finish_fit(found)?)
    }
}

impl Transform<DataFrame> for KBinsDiscretizer {
    type Output = DataFrame;

    fn transform(&self, x: DataFrame) -> Result<DataFrame> {
        table(&self.0.transform(&frame_of(&x)?)?, &x)
    }
}

/// Whether two numbers are equal up to an absolute or a relative error.
fn near(a: f64, b: f64, epsilon: f64, max_relative: f64) {
    assert!(
        RelativeEq::relative_eq(&a, &b, epsilon, max_relative),
        "{a} is not near {b}"
    );
}

/// The edges of bins of one width.
fn uniform_edges(sorted: &[f64], k: usize) -> Vec<f64> {
    let values: Vec<Double> = sorted.iter().map(|v| double(*v)).collect();
    let query = kbins_discretizer::uniform_edges(&values, k);
    answers(&query).into_iter().map(float).collect()
}

fn make_df(values: &[f64]) -> DataFrame {
    let col = Column::from(Series::new("x".into(), values));
    DataFrame::new(values.len(), vec![col]).unwrap()
}

fn col_vals(df: &DataFrame, name: &str) -> Vec<Option<f64>> {
    df.column(name).unwrap().f64().unwrap().iter().collect()
}

#[test]
fn test_uniform_ordinal_two_bins() {
    let df = make_df(&[1.0, 2.0, 3.0, 4.0]);
    let mut kb = KBinsDiscretizer::new()
        .n_bins(2)
        .strategy(BinStrategy::Uniform)
        .encode(EncodeMode::Ordinal);
    kb.fit(df.clone()).unwrap();
    let out = kb.transform(df).unwrap();
    // edges: [1.0, 2.5, 4.0] -> [0, 0, 1, 1]
    assert_eq!(
        col_vals(&out, "x"),
        vec![Some(0.0), Some(0.0), Some(1.0), Some(1.0)]
    );
}

#[test]
fn test_uniform_ordinal_out_of_range_clips() {
    let mut kb = KBinsDiscretizer::new()
        .n_bins(2)
        .encode(EncodeMode::Ordinal);
    kb.fit(make_df(&[1.0, 2.0, 3.0, 4.0])).unwrap();
    // Transform values outside the fitted [1, 4] range clip to nearest bin.
    let out = kb.transform(make_df(&[0.0, 1.5, 3.5, 100.0])).unwrap();
    assert_eq!(
        col_vals(&out, "x"),
        vec![Some(0.0), Some(0.0), Some(1.0), Some(1.0)]
    );
}

#[test]
fn test_quantile_ordinal_equal_population() {
    let df = make_df(&[1.0, 2.0, 3.0, 4.0, 5.0, 6.0]);
    let mut kb = KBinsDiscretizer::new()
        .n_bins(3)
        .strategy(BinStrategy::Quantile)
        .encode(EncodeMode::Ordinal);
    kb.fit(df.clone()).unwrap();
    let out = kb.transform(df).unwrap();
    // Equal-population bins over 6 points -> 2 per bin.
    assert_eq!(
        col_vals(&out, "x"),
        vec![
            Some(0.0),
            Some(0.0),
            Some(1.0),
            Some(1.0),
            Some(2.0),
            Some(2.0)
        ]
    );
}

#[test]
fn test_quantile_skewed_duplicate_edges_collapse() {
    // Heavily skewed data: many zeros make repeated (duplicate) quantile
    // boundaries. These must collapse so no bin is unreachable and the
    // ordinal indices stay contiguous.
    let df = make_df(&[0.0, 0.0, 0.0, 0.0, 1.0, 2.0]);
    let mut kb = KBinsDiscretizer::new()
        .n_bins(3)
        .strategy(BinStrategy::Quantile)
        .encode(EncodeMode::Ordinal);
    kb.fit(df.clone()).unwrap();
    let out = kb.transform(df).unwrap();
    // Duplicate edges collapse to 2 effective bins: zeros -> 0, 1/2 -> 1.
    assert_eq!(
        col_vals(&out, "x"),
        vec![
            Some(0.0),
            Some(0.0),
            Some(0.0),
            Some(0.0),
            Some(1.0),
            Some(1.0)
        ]
    );
}

#[test]
fn test_kmeans_ordinal_two_clusters() {
    let df = make_df(&[0.0, 0.0, 1.0, 10.0, 10.0, 11.0]);
    let mut kb = KBinsDiscretizer::new()
        .n_bins(2)
        .strategy(BinStrategy::KMeans)
        .encode(EncodeMode::Ordinal);
    kb.fit(df.clone()).unwrap();
    let out = kb.transform(df).unwrap();
    // Two tight clusters separate cleanly into the two bins.
    assert_eq!(
        col_vals(&out, "x"),
        vec![
            Some(0.0),
            Some(0.0),
            Some(0.0),
            Some(1.0),
            Some(1.0),
            Some(1.0)
        ]
    );
}

#[test]
fn test_onehot_creates_bin_columns() {
    let col = Column::from(Series::new("x".into(), &[1.0_f64, 3.0, 5.0]));
    let df = DataFrame::new(3, vec![col]).unwrap();
    let mut kb = KBinsDiscretizer::new()
        .n_bins(3)
        .strategy(BinStrategy::Uniform)
        .encode(EncodeMode::OneHot);
    kb.fit(df.clone()).unwrap();
    let out = kb.transform(df).unwrap();
    // 1 -> bin 0 (x_bin_0 = 1, others 0), etc.
    assert_eq!(out.width(), 3);
    assert_eq!(
        col_vals(&out, "x_bin_0"),
        vec![Some(1.0), Some(0.0), Some(0.0)]
    );
    assert_eq!(
        col_vals(&out, "x_bin_1"),
        vec![Some(0.0), Some(1.0), Some(0.0)]
    );
    assert_eq!(
        col_vals(&out, "x_bin_2"),
        vec![Some(0.0), Some(0.0), Some(1.0)]
    );
    assert!(out.column("x").is_err()); // original replaced
}

#[test]
fn test_onehot_drop_first() {
    let col = Column::from(Series::new("x".into(), &[1.0_f64, 3.0, 5.0]));
    let df = DataFrame::new(3, vec![col]).unwrap();
    let mut kb = KBinsDiscretizer::new()
        .n_bins(3)
        .encode(EncodeMode::OneHotDropFirst);
    kb.fit(df.clone()).unwrap();
    let out = kb.transform(df).unwrap();
    assert_eq!(out.width(), 2);
    assert!(out.column("x_bin_0").is_err()); // first bin dropped
    assert!(out.column("x_bin_1").is_ok());
    assert!(out.column("x_bin_2").is_ok());
}

#[test]
fn test_onehot_passes_through_non_f64_column() {
    let x = Column::from(Series::new("x".into(), &[1.0_f64, 2.0, 3.0]));
    let cat = Column::from(Series::new("cat".into(), &["a", "b", "c"]));
    let df = DataFrame::new(3, vec![x, cat]).unwrap();
    let mut kb = KBinsDiscretizer::new().n_bins(2).encode(EncodeMode::OneHot);
    kb.fit(df.clone()).unwrap();
    let out = kb.transform(df).unwrap();
    // x -> 2 bin columns; cat passed through unchanged.
    assert_eq!(out.width(), 3);
    assert_eq!(out.column("cat").unwrap().dtype(), &DataType::String);
    assert_eq!(
        out.column("cat").unwrap().str().unwrap().get(0).unwrap(),
        "a"
    );
}

#[test]
fn test_null_preservation_ordinal() {
    let col = Column::from(Series::new(
        "x".into(),
        &[Some(1.0_f64), None, Some(4.0), Some(f64::NAN)],
    ));
    let df = DataFrame::new(4, vec![col]).unwrap();
    let mut kb = KBinsDiscretizer::new()
        .n_bins(2)
        .encode(EncodeMode::Ordinal);
    kb.fit(df.clone()).unwrap();
    let out = kb.transform(df).unwrap();
    let vals = col_vals(&out, "x");
    assert_eq!(vals[0], Some(0.0));
    assert!(vals[1].is_none()); // null preserved
    assert_eq!(vals[2], Some(1.0));
    assert!(vals[3].unwrap().is_nan()); // NaN preserved
}

#[test]
fn test_constant_column_single_bin() {
    let df = make_df(&[5.0, 5.0, 5.0, 5.0]);
    let mut kb = KBinsDiscretizer::new()
        .n_bins(3)
        .encode(EncodeMode::Ordinal);
    kb.fit(df.clone()).unwrap();
    let out = kb.transform(df).unwrap();
    // All identical values collapse to a single bin (index 0).
    assert_eq!(col_vals(&out, "x"), vec![Some(0.0); 4]);
}

#[test]
fn test_onehot_drop_first_constant_column_rejected() {
    let df = make_df(&[5.0, 5.0, 5.0, 5.0]);
    let mut kb = KBinsDiscretizer::new()
        .n_bins(3)
        .encode(EncodeMode::OneHotDropFirst);
    let err = kb.fit(df).unwrap_err();
    assert!(matches!(err, Error::InvalidInput(_)));
}

#[test]
fn test_transform_before_fit_not_fitted() {
    let df = make_df(&[1.0, 2.0, 3.0]);
    let kb = KBinsDiscretizer::new();
    let err = kb.transform(df).unwrap_err();
    assert!(matches!(err, Error::NotFitted(_)));
}

#[test]
fn test_empty_input_rejected() {
    let mut kb = KBinsDiscretizer::new();
    let err = kb.fit(DataFrame::empty()).unwrap_err();
    assert!(matches!(err, Error::InvalidInput(_)));
}

#[test]
fn test_n_bins_below_two_rejected() {
    let df = make_df(&[1.0, 2.0, 3.0]);
    let mut kb = KBinsDiscretizer::new().n_bins(1);
    let err = kb.fit(df).unwrap_err();
    assert!(matches!(err, Error::InvalidInput(_)));
}

#[test]
fn test_all_null_column_computation_error() {
    let col = Column::from(Series::new("x".into(), &[None::<f64>, None, None]));
    let df = DataFrame::new(3, vec![col]).unwrap();
    let mut kb = KBinsDiscretizer::new();
    let err = kb.fit(df).unwrap_err();
    assert!(matches!(err, Error::Computation(_)));
}

#[test]
fn test_missing_f64_columns_error() {
    let cat = Column::from(Series::new("cat".into(), &["a", "b", "c"]));
    let df = DataFrame::new(3, vec![cat]).unwrap();
    let mut kb = KBinsDiscretizer::new();
    let err = kb.fit(df).unwrap_err();
    assert!(matches!(err, Error::InvalidInput(_)));
}

#[test]
fn test_n_bins_two_minimum() {
    let df = make_df(&[0.0, 0.5, 1.0, 1.5, 2.0, 2.5]);
    let mut kb = KBinsDiscretizer::new()
        .n_bins(2)
        .encode(EncodeMode::Ordinal);
    kb.fit(df.clone()).unwrap();
    let out = kb.transform(df).unwrap();
    let vals = col_vals(&out, "x");
    assert!(vals.iter().all(|v| matches!(v, Some(0.0) | Some(1.0))));
    assert!(vals[0] == Some(0.0) && vals[vals.len() - 1] == Some(1.0));
}

#[test]
fn test_bin_edges_are_ascending_uniform() {
    let edges = uniform_edges(&[1.0, 3.0, 5.0, 9.0], 4);
    // Ascending, first = min, last = max
    near(edges[0], 1.0, f64::EPSILON, f64::EPSILON);
    near(edges[4], 9.0, f64::EPSILON, f64::EPSILON);
    for w in edges.windows(2) {
        assert!(w[0] <= w[1]);
    }
}

#[test]
fn test_uniform_max_falls_in_last_bin() {
    // The documented inclusive-last-bin contract: the observed maximum maps
    // to the LAST bin (index n_bins-1), and the final edge is exactly the
    // observed max. The [3.0, 6.7] span is adversarial — `span * k / k` does
    // not round back to `span` for several k (e.g. k=3 yields
    // 6.700000000000001), so without pinning the final edge drifts off the
    // max and the contract is broken even though `bin_index` clamps the
    // value into the last bin.
    for k in 2..=50usize {
        let mut vals: Vec<f64> = (0..=k).map(|i| 3.0 + 3.7 * i as f64 / k as f64).collect();
        vals[k] = 6.7; // observed maximum, pinned explicitly
        vals.sort_by(|a, b| a.total_cmp(b));

        let edges = uniform_edges(&vals, k);
        assert_eq!(edges[0], vals[0]);
        assert_eq!(edges[k], vals[k]); // final edge == observed max exactly

        let df = make_df(&vals);
        let mut kb = KBinsDiscretizer::new()
            .n_bins(k)
            .strategy(BinStrategy::Uniform)
            .encode(EncodeMode::Ordinal);
        kb.fit(df.clone()).unwrap();
        let out = kb.transform(df).unwrap();
        let col = out.column("x").unwrap().f64().unwrap();
        let last = col.get(col.len() - 1).unwrap();
        near(last, (k - 1) as f64, f64::EPSILON, f64::EPSILON); // max -> last bin
    }
}

#[test]
fn test_quantile_effective_bins_exposed() {
    // Heavily-tied quantile data: duplicate boundaries collapse, so the
    // effective bin count (2) is LESS than the configured n_bins (3), and
    // the one-hot output width matches the effective count, not n_bins.
    let df = make_df(&[0.0, 0.0, 0.0, 0.0, 1.0, 2.0]);
    let mut kb = KBinsDiscretizer::new()
        .n_bins(3)
        .strategy(BinStrategy::Quantile)
        .encode(EncodeMode::OneHot);
    kb.fit(df.clone()).unwrap();
    assert_eq!(kb.effective_bins("x"), Some(2));

    let out = kb.transform(df).unwrap();
    assert_eq!(out.width(), 2); // one-hot width == effective bins

    // Unknown / non-discretized column -> None.
    assert_eq!(kb.effective_bins("nonexistent"), None);
}

#[test]
fn test_effective_bins_none_before_fit() {
    let kb = KBinsDiscretizer::new().n_bins(3);
    assert_eq!(kb.effective_bins("x"), None);
}
