#![allow(dead_code, unused_imports)]

use featrs::double::Double;
use featrs::error::Error as Fault;
use featrs::error::Kind;
use featrs::feature_selection::select_kbest::FClassif;
use featrs::feature_selection::select_kbest::ScoreFunction;
use featrs::feature_selection::select_kbest::Scoring;
use featrs::feature_selection::select_kbest::SelectKBest as InnerSelectKBest;
use featrs::frame::Cells;
use featrs::frame::Column as FrameColumn;
use featrs::frame::Frame;
use featrs::frame::Number;
use featrs::frame::Resolution;
use featrs::frame::Sheet;
use featrs::frame::Values;
use featrs::program::Operation;
use featrs::program::Program;
use featrs::program::Query;
use featrs::text::Text;
use polars::prelude::AnyValue;
use polars::prelude::ChunkAgg;
use polars::prelude::Column;
use polars::prelude::DataFrame;
use polars::prelude::DataType;
use polars::prelude::IntoSeries;
use polars::prelude::NamedFrom;
use polars::prelude::PolarsError;
use polars::prelude::Series;
use polars::prelude::StringChunked;
use polars::prelude::TimeUnit;
use statrs::function::gamma::digamma;
use std::fmt;

/// What a transformer reports.
#[derive(Debug)]
pub enum Error {
    InvalidInput(String),
    NotFitted(String),
    Computation(String),
}

impl fmt::Display for Error {
    fn fmt(&self, f: &mut fmt::Formatter<'_>) -> fmt::Result {
        match self {
            Error::InvalidInput(message) => f.write_str(&format!("invalid input: {message}")),
            Error::NotFitted(message) => f.write_str(&format!("not fitted: {message}")),
            Error::Computation(message) => f.write_str(&format!("computation error: {message}")),
        }
    }
}

impl From<Fault> for Error {
    fn from(e: Fault) -> Self {
        let mut message: String = e.message().chars.iter().collect();
        if let Some(d) = e.number() {
            message.push_str(&f64::from_bits(d.bits).to_string());
        }
        match e.kind() {
            Kind::InvalidInput => Error::InvalidInput(message),
            Kind::NotFitted => Error::NotFitted(message),
            Kind::Computation => Error::Computation(message),
        }
    }
}

pub type Result<T> = std::result::Result<T, Error>;

/// Learns from a frame.
pub trait Fit<X> {
    type Output;
    fn fit(&mut self, x: X) -> Result<Self::Output>;
}

/// Learns from a frame and a target.
pub trait FitSupervised<X, Y> {
    type Output;
    fn fit(&mut self, x: X, y: Y) -> Result<Self::Output>;
}

/// Makes a frame of a frame.
pub trait Transform<X> {
    type Output;
    fn transform(&self, x: X) -> Result<Self::Output>;
}

/// A number by its bits.
pub fn double(v: f64) -> Double {
    Double { bits: v.to_bits() }
}

/// A number from its bits.
pub fn float(d: Double) -> f64 {
    f64::from_bits(d.bits)
}

/// A text as a string.
pub fn string(t: &Text) -> String {
    t.chars.iter().collect()
}

/// The cells of a series.
fn values_of(s: &Series) -> Result<Values> {
    let failed = |e: PolarsError| Error::Computation(e.to_string());
    Ok(match s.dtype() {
        DataType::String => Values::Text(
            s.str().map_err(failed)?.iter().map(|v| v.map(Text::of)).collect(),
        ),
        DataType::Float64 => Values::Float64(
            s.f64().map_err(failed)?.iter().map(|v| v.map(double)).collect(),
        ),
        DataType::Date => Values::Date(
            s.to_physical_repr().i32().map_err(failed)?.iter().collect(),
        ),
        DataType::Datetime(unit, _) => {
            let resolution = match unit {
                TimeUnit::Nanoseconds => Resolution::Nanoseconds,
                TimeUnit::Microseconds => Resolution::Microseconds,
                TimeUnit::Milliseconds => Resolution::Milliseconds,
            };
            Values::Datetime(
                resolution,
                s.to_physical_repr().i64().map_err(failed)?.iter().collect(),
            )
        }
        other => Values::Other(Text::of(&other.to_string()), s.len()),
    })
}

/// A column as the library reads it.
pub fn column_of(c: &Column) -> Result<FrameColumn> {
    Ok(FrameColumn::new(c.name().as_str(), values_of(c.as_materialized_series())?))
}

/// A frame as the library reads it.
pub fn frame_of(df: &DataFrame) -> Result<Frame> {
    let columns = df.columns().iter().map(column_of).collect::<Result<Vec<FrameColumn>>>()?;
    Ok(Frame::new(df.height(), columns)?)
}

/// The results of a program, front to back.
pub fn evaluate(program: &Program) -> Vec<f64> {
    let mut r: Vec<f64> = Vec::with_capacity(program.len());
    for i in 0..program.len() {
        let value = match program.operation(i) {
            Operation::Value(d) => float(d),
            Operation::Natural(n) => n as f64,
            Operation::Integer(n) => n as f64,
            Operation::FullTurn => 2.0 * std::f64::consts::PI,
            Operation::Plus(a, b) => r[a] + r[b],
            Operation::Minus(a, b) => r[a] - r[b],
            Operation::Times(a, b) => r[a] * r[b],
            Operation::Over(a, b) => r[a] / r[b],
            Operation::Power(a, b) => r[a].powf(r[b]),
            Operation::Square(a) => r[a] * r[a],
            Operation::Root(a) => r[a].sqrt(),
            Operation::Magnitude(a) => r[a].abs(),
            Operation::Lesser(a, b) => r[a].min(r[b]),
            Operation::Greater(a, b) => r[a].max(r[b]),
            Operation::Sine(a) => r[a].sin(),
            Operation::Cosine(a) => r[a].cos(),
            Operation::Logarithm(a) => r[a].ln(),
            Operation::Digamma(a) => digamma(r[a]),
            Operation::Scaled(a, b) => {
                if r[b] > 0.0 {
                    r[a] / r[b]
                } else {
                    r[a]
                }
            }
        };
        r.push(value);
    }
    r
}

/// The results of a program as the library takes them.
pub fn results(program: &Program) -> Vec<Double> {
    evaluate(program).into_iter().map(double).collect()
}

/// The answers to a query.
pub fn answers(query: &Query) -> Vec<Double> {
    let r = evaluate(query.program());
    query.places().iter().map(|&at| double(r[at])).collect()
}

/// A finished sheet as a frame.
pub fn table(sheet: &Sheet, x: &DataFrame) -> Result<DataFrame> {
    let r = evaluate(&sheet.program);
    let mut columns: Vec<Column> = Vec::with_capacity(sheet.columns.len());
    for c in &sheet.columns {
        let name = string(&c.name);
        columns.push(match &c.cells {
            Cells::Kept(i) => x.columns()[*i].clone(),
            Cells::UInt32(cells) => {
                Column::from(Series::new(name.as_str().into(), cells.as_slice()))
            }
            Cells::Float64(cells) => {
                let values: Vec<Option<f64>> = cells
                    .iter()
                    .map(|cell| {
                        cell.map(|n| match n {
                            Number::Known(d) => float(d),
                            Number::Natural(n) => n as f64,
                            Number::Register(at) => r[at],
                        })
                    })
                    .collect();
                Column::from(Series::new(name.as_str().into(), values.as_slice()))
            }
        });
    }
    DataFrame::new(sheet.height, columns).map_err(|e| Error::Computation(e.to_string()))
}

/// A scoring function that says which inputs it does not take.
pub trait Scorer: ScoreFunction {
    /// Panics on an input that cannot be scored.
    fn check(&self, _x: &Frame, _y: &FrameColumn) {}
}

impl Scorer for FClassif {
    fn check(&self, x: &Frame, y: &FrameColumn) {
        assert!(self.can_score(x, y), "FClassif: a target is not finite");
    }
}

/// Brings a scoring to the scores.
pub fn finish_scoring<S>(
    begun: Scoring<S>,
    resume: impl Fn(S, &Vec<Double>) -> std::result::Result<Scoring<S>, Fault>,
) -> Result<Vec<(Text, Double)>> {
    let mut scoring = begun;
    loop {
        match scoring {
            Scoring::Done(scores) => return Ok(scores),
            Scoring::Ask(query, state) => scoring = resume(state, &answers(&query))?,
        }
    }
}

/// Named scores as numbers.
fn named(scores: Option<&Vec<(Text, Double)>>) -> Option<Vec<(String, f64)>> {
    scores.map(|list| list.iter().map(|(n, s)| (string(n), float(*s))).collect())
}

/// [`InnerSelectKBest`] on frames of polars.
pub struct SelectKBest<F>(InnerSelectKBest<F>, F, usize);

impl<F: Scorer + Clone> SelectKBest<F> {
    pub fn new(k: usize, score_fn: F) -> Self {
        Self(InnerSelectKBest::new(k, score_fn.clone()), score_fn, k)
    }
}

impl<F: Scorer> SelectKBest<F> {
    pub fn scores(&self) -> Option<Vec<(String, f64)>> {
        named(self.0.scores())
    }
}

impl<F: Scorer> FitSupervised<DataFrame, DataFrame> for SelectKBest<F> {
    type Output = ();

    fn fit(&mut self, x: DataFrame, y: DataFrame) -> Result<()> {
        let (x, y) = (frame_of(&x)?, frame_of(&y)?);
        if x.width() > 0 && self.2 > 0 && y.width() == 1 {
            self.1.check(&x, y.column(0));
        }
        let begun = self.0.fit(&x, &y)?;
        let scores = finish_scoring(begun, |state, known| self.0.resume(state, known))?;
        Ok(self.0.finish_fit(&scores)?)
    }
}

impl<F: Scorer> Transform<DataFrame> for SelectKBest<F> {
    type Output = DataFrame;

    fn transform(&self, x: DataFrame) -> Result<DataFrame> {
        table(&self.0.transform(&frame_of(&x)?)?, &x)
    }
}

/// The scores of the columns of a frame by F-value.
fn f_scores(x: &DataFrame, y: &Column) -> Result<Vec<(String, f64)>> {
    let scorer = FClassif::new();
    let (frame, target) = (frame_of(x)?, column_of(y)?);
    scorer.check(&frame, &target);
    let begun = scorer.score(&frame, &target)?;
    let scores = finish_scoring(begun, |state, known| scorer.resume(state, known))?;
    Ok(scores.iter().map(|(n, s)| (string(n), float(*s))).collect())
}

fn make_features() -> DataFrame {
    let a = Column::from(Series::new(
        "noise".into(),
        &[1.0f64, 2.0, 3.0, 4.0, 5.0, 6.0],
    ));
    let b = Column::from(Series::new(
        "signal".into(),
        &[0.0f64, 1.0, 2.0, 10.0, 11.0, 12.0],
    ));
    DataFrame::new(6, vec![a, b]).unwrap()
}

fn make_target_col() -> Column {
    Column::from(Series::new(
        "target".into(),
        &[0.0f64, 0.0, 0.0, 1.0, 1.0, 1.0],
    ))
}

#[test]
fn test_select_kbest_f_classif() {
    let mut skb = SelectKBest::new(1, FClassif::new());
    let features = make_features();
    let y = DataFrame::new(6, vec![make_target_col()]).unwrap();

    skb.fit(features.clone(), y).unwrap();
    let result = skb.transform(features).unwrap();

    assert_eq!(result.width(), 1);
    assert_eq!(result.get_column_names()[0].as_str(), "signal");
}

#[test]
fn test_f_classif_scores() {
    let features = make_features();
    let y_col = make_target_col();

    let scores = f_scores(&features, &y_col).unwrap();
    assert_eq!(scores.len(), 2);
}

#[test]
fn test_f_classif_perfect_separator_scores_infinity() {
    let features = DataFrame::new(
        4,
        vec![
            Column::from(Series::new("constant".into(), &[5.0_f64; 4])),
            Column::from(Series::new("perfect".into(), &[0.0_f64, 0.0, 1.0, 1.0])),
        ],
    )
    .unwrap();
    let target = Column::from(Series::new("target".into(), &[0.0_f64, 0.0, 1.0, 1.0]));

    let scores = f_scores(&features, &target).unwrap();

    assert_eq!(scores[0], ("constant".to_string(), 0.0));
    assert_eq!(scores[1].0, "perfect");
    assert_eq!(scores[1].1, f64::INFINITY);
}

#[test]
fn test_f_classif_two_sample_perfect_separator_scores_infinity() {
    let features = DataFrame::new(
        2,
        vec![Column::from(Series::new("perfect".into(), &[0.0_f64, 1.0]))],
    )
    .unwrap();
    let target = Column::from(Series::new("target".into(), &[0.0_f64, 1.0]));

    let scores = f_scores(&features, &target).unwrap();

    assert_eq!(scores, vec![("perfect".to_string(), f64::INFINITY)]);
}

#[test]
fn test_f_classif_decimal_constant_scores_zero() {
    let features = DataFrame::new(
        3,
        vec![Column::from(Series::new(
            "constant".into(),
            &[0.1_f64, 0.1, 0.1],
        ))],
    )
    .unwrap();
    let target = Column::from(Series::new("target".into(), &[0.0_f64, 0.0, 1.0]));

    let scores = f_scores(&features, &target).unwrap();

    assert_eq!(scores, vec![("constant".to_string(), 0.0)]);
}

#[test]
fn test_f_classif_decimal_perfect_separator_scores_infinity() {
    let features = DataFrame::new(
        5,
        vec![Column::from(Series::new(
            "perfect".into(),
            &[0.1_f64, 0.1, 0.1, 0.2, 0.2],
        ))],
    )
    .unwrap();
    let target = Column::from(Series::new("target".into(), &[0.0_f64, 0.0, 0.0, 1.0, 1.0]));

    let scores = f_scores(&features, &target).unwrap();

    assert_eq!(scores, vec![("perfect".to_string(), f64::INFINITY)]);
}

#[test]
fn test_f_classif_preserves_one_ulp_variance_at_large_scale() {
    let low = 1.0e9_f64;
    let low_next = f64::from_bits(low.to_bits() + 1);
    let high = low + 1_000.0;
    let high_next = f64::from_bits(high.to_bits() + 1);
    let features = DataFrame::new(
        4,
        vec![Column::from(Series::new(
            "varying".into(),
            &[low, low_next, high, high_next],
        ))],
    )
    .unwrap();
    let target = Column::from(Series::new("target".into(), &[0.0_f64, 0.0, 1.0, 1.0]));

    let scores = f_scores(&features, &target).unwrap();

    assert!(scores[0].1.is_finite());
    assert!(scores[0].1 > 0.0);
}

#[test]
fn test_f_classif_keeps_half_ulp_means_centered() {
    let base = 1.0e16_f64;
    let next = f64::from_bits(base.to_bits() + 1);
    let next_next = f64::from_bits(base.to_bits() + 2);
    let features = DataFrame::new(
        4,
        vec![Column::from(Series::new(
            "centered".into(),
            &[base, next, next, next_next],
        ))],
    )
    .unwrap();
    let target = Column::from(Series::new("target".into(), &[0.0_f64, 0.0, 1.0, 1.0]));

    let scores = f_scores(&features, &target).unwrap();

    assert_eq!(scores, vec![("centered".to_string(), 2.0)]);
}

#[test]
fn test_f_classif_partial_null_uses_observed_degrees_of_freedom() {
    let features = DataFrame::new(
        4,
        vec![Column::from(Series::new(
            "partial".into(),
            &[Some(0.0_f64), None, Some(2.0), Some(4.0)],
        ))],
    )
    .unwrap();
    let target = Column::from(Series::new("target".into(), &[0.0_f64, 0.0, 1.0, 1.0]));

    let scores = f_scores(&features, &target).unwrap();

    assert_eq!(scores[0].0, "partial");
    assert!((scores[0].1 - 3.0).abs() < 1e-12);
}

#[test]
fn test_f_classif_null_target_preserves_row_alignment() {
    let features = DataFrame::new(
        4,
        vec![Column::from(Series::new(
            "aligned".into(),
            &[0.0_f64, 1_000.0, 2.0, 4.0],
        ))],
    )
    .unwrap();
    let target = Column::from(Series::new(
        "target".into(),
        &[Some(0.0_f64), None, Some(1.0), Some(1.0)],
    ));

    let scores = f_scores(&features, &target).unwrap();

    assert_eq!(scores[0].0, "aligned");
    assert!((scores[0].1 - 3.0).abs() < 1e-12);
}

#[test]
fn test_f_classif_validates_physical_target_row_count() {
    let features = DataFrame::new(
        3,
        vec![Column::from(Series::new(
            "feature".into(),
            &[0.0_f64, 1.0, 2.0],
        ))],
    )
    .unwrap();
    let target = Column::from(Series::new(
        "target".into(),
        &[Some(0.0_f64), None, Some(1.0), Some(1.0)],
    ));

    let error = f_scores(&features, &target).unwrap_err();

    assert!(
        error
            .to_string()
            .contains("feature rows (3) and target rows (4) don't match")
    );
}

#[test]
fn test_select_kbest_ranks_partial_null_feature_by_observed_rows() {
    let features = DataFrame::new(
        4,
        vec![
            Column::from(Series::new(
                "partial".into(),
                &[Some(0.0_f64), None, Some(2.0), Some(4.0)],
            )),
            Column::from(Series::new("complete".into(), &[0.0_f64, 2.0, 3.0, 5.0])),
        ],
    )
    .unwrap();
    let target = Column::from(Series::new("target".into(), &[0.0_f64, 0.0, 1.0, 1.0]));
    let y = DataFrame::new(4, vec![target]).unwrap();
    let mut skb = SelectKBest::new(1, FClassif::new());

    skb.fit(features.clone(), y).unwrap();

    assert_eq!(skb.scores().unwrap()[0], ("complete".to_string(), 4.5));
    assert_eq!(
        skb.transform(features).unwrap().get_column_names(),
        &["complete"]
    );
}

#[test]
fn test_f_classif_all_null_feature_errors() {
    let features = DataFrame::new(
        4,
        vec![Column::from(Series::new(
            "all_null".into(),
            &[None::<f64>; 4],
        ))],
    )
    .unwrap();
    let target = Column::from(Series::new("target".into(), &[0.0_f64, 0.0, 1.0, 1.0]));

    let error = f_scores(&features, &target).unwrap_err();

    assert!(error.to_string().contains("no non-null values"));
}

#[test]
fn test_f_classif_feature_with_one_observed_class_errors() {
    let features = DataFrame::new(
        4,
        vec![Column::from(Series::new(
            "one_class".into(),
            &[Some(0.0_f64), Some(1.0), None, None],
        ))],
    )
    .unwrap();
    let target = Column::from(Series::new("target".into(), &[0.0_f64, 0.0, 1.0, 1.0]));

    let error = f_scores(&features, &target).unwrap_err();

    assert!(error.to_string().contains("only one target class"));
}

#[test]
fn test_select_kbest_ranks_perfect_separator_first() {
    let features = DataFrame::new(
        6,
        vec![
            make_features().column("signal").unwrap().clone(),
            Column::from(Series::new(
                "perfect".into(),
                &[0.0_f64, 0.0, 0.0, 1.0, 1.0, 1.0],
            )),
        ],
    )
    .unwrap();
    let y = DataFrame::new(6, vec![make_target_col()]).unwrap();
    let mut skb = SelectKBest::new(1, FClassif::new());

    skb.fit(features.clone(), y).unwrap();

    assert_eq!(skb.scores().unwrap()[0].0, "perfect");
    let selected = skb.transform(features).unwrap();
    assert_eq!(selected.get_column_names(), &["perfect"]);
}

#[test]
fn test_select_kbest_breaks_infinite_ties_by_input_order() {
    let features = DataFrame::new(
        4,
        vec![
            Column::from(Series::new("first".into(), &[0.0_f64, 0.0, 1.0, 1.0])),
            Column::from(Series::new("second".into(), &[2.0_f64, 2.0, 3.0, 3.0])),
        ],
    )
    .unwrap();
    let target = Column::from(Series::new("target".into(), &[0.0_f64, 0.0, 1.0, 1.0]));
    let y = DataFrame::new(4, vec![target]).unwrap();
    let mut skb = SelectKBest::new(2, FClassif::new());

    skb.fit(features, y).unwrap();

    let scores = skb.scores().unwrap();
    let names: Vec<&str> = scores
        .iter()
        .map(|(name, _)| name.as_str())
        .collect();
    assert_eq!(names, ["first", "second"]);
}

#[test]
fn test_select_kbest_k_zero_rejected() {
    let mut skb = SelectKBest::new(0, FClassif::new());
    let features = make_features();
    let y = DataFrame::new(6, vec![make_target_col()]).unwrap();
    let result = skb.fit(features, y);
    assert!(result.is_err(), "k=0 should be rejected at fit time");
    let err = result.unwrap_err();
    assert!(
        err.to_string().contains("k must be greater than 0"),
        "error message should mention k"
    );
}
