#![allow(dead_code, unused_imports)]

use approx::RelativeEq;
use featrs::double::Double;
use featrs::error::Error as Fault;
use featrs::error::Kind;
use featrs::frame::Cells;
use featrs::frame::Column as FrameColumn;
use featrs::frame::Frame;
use featrs::frame::Number;
use featrs::frame::Resolution;
use featrs::frame::Sheet;
use featrs::frame::Values;
use featrs::preprocessing::text::count_vectorizer::Tokenizer as InnerTokenizer;
use featrs::preprocessing::text::tfidf_vectorizer::IDFWeighting;
use featrs::preprocessing::text::tfidf_vectorizer::NormMethod;
use featrs::preprocessing::text::tfidf_vectorizer::TFIDFVectorizer as InnerTFIDFVectorizer;
use featrs::preprocessing::text::tfidf_vectorizer::TfWeighting;
use featrs::program::Operation;
use featrs::program::Program;
use featrs::program::Query;
use featrs::text::Text;
use polars::prelude::AnyValue;
use polars::prelude::ChunkAgg;
use polars::prelude::Column;
use polars::prelude::DataFrame;
use polars::prelude::DataType;
use polars::prelude::IntoSeries;
use polars::prelude::NamedFrom;
use polars::prelude::PolarsError;
use polars::prelude::Series;
use polars::prelude::StringChunked;
use polars::prelude::TimeUnit;
use statrs::function::gamma::digamma;
use std::fmt;

/// What a transformer reports.
#[derive(Debug)]
pub enum Error {
    InvalidInput(String),
    NotFitted(String),
    Computation(String),
}

impl fmt::Display for Error {
    fn fmt(&self, f: &mut fmt::Formatter<'_>) -> fmt::Result {
        match self {
            Error::InvalidInput(message) => f.write_str(&format!("invalid input: {message}")),
            Error::NotFitted(message) => f.write_str(&format!("not fitted: {message}")),
            Error::Computation(message) => f.write_str(&format!("computation error: {message}")),
        }
    }
}

impl From<Fault> for Error {
    fn from(e: Fault) -> Self {
        let mut message: String = e.message().chars.iter().collect();
        if let Some(d) = e.number() {
            message.push_str(&f64::from_bits(d.bits).to_string());
        }
        match e.kind() {
            Kind::InvalidInput => Error::InvalidInput(message),
            Kind::NotFitted => Error::NotFitted(message),
            Kind::Computation => Error::Computation(message),
        }
    }
}

pub type Result<T> = std::result::Result<T, Error>;

/// Learns from a frame.
pub trait Fit<X> {
    type Output;
    fn fit(&mut self, x: X) -> Result<Self::Output>;
}

/// Learns from a frame and a target.
pub trait FitSupervised<X, Y> {
    type Output;
    fn fit(&mut self, x: X, y: Y) -> Result<Self::Output>;
}

/// Makes a frame of a frame.
pub trait Transform<X> {
    type Output;
    fn transform(&self, x: X) -> Result<Self::Output>;
}

/// A number by its bits.
pub fn double(v: f64) -> Double {
    Double { bits: v.to_bits() }
}

/// A number from its bits.
pub fn float(d: Double) -> f64 {
    f64::from_bits(d.bits)
}

/// A text as a string.
pub fn string(t: &Text) -> String {
    t.chars.iter().collect()
}

/// The cells of a series.
fn values_of(s: &Series) -> Result<Values> {
    let failed = |e: PolarsError| Error::Computation(e.to_string());
    Ok(match s.dtype() {
        DataType::String => Values::Text(
            s.str().map_err(failed)?.iter().map(|v| v.map(Text::of)).collect(),
        ),
        DataType::Float64 => Values::Float64(
            s.f64().map_err(failed)?.iter().map(|v| v.map(double)).collect(),
        ),
        DataType::Date => Values::Date(
            s.to_physical_repr().i32().map_err(failed)?.iter().collect(),
        ),
        DataType::Datetime(unit, _) => {
            let resolution = match unit {
                TimeUnit::Nanoseconds => Resolution::Nanoseconds,
                TimeUnit::Microseconds => Resolution::Microseconds,
                TimeUnit::Milliseconds => Resolution::Milliseconds,
            };
            Values::Datetime(
                resolution,
                s.to_physical_repr().i64().map_err(failed)?.iter().collect(),
            )
        }
        other => Values::Other(Text::of(&other.to_string()), s.len()),
    })
}

/// A column as the library reads it.
pub fn column_of(c: &Column) -> Result<FrameColumn> {
    Ok(FrameColumn::new(c.name().as_str(), values_of(c.as_materialized_series())?))
}

/// A frame as the library reads it.
pub fn frame_of(df: &DataFrame) -> Result<Frame> {
    let columns = df.columns().iter().map(column_of).collect::<Result<Vec<FrameColumn>>>()?;
    Ok(Frame::new(df.height(), columns)?)
}

/// The results of a program, front to back.
pub fn evaluate(program: &Program) -> Vec<f64> {
    let mut r: Vec<f64> = Vec::with_capacity(program.len());
    for i in 0..program.len() {
        let value = match program.operation(i) {
            Operation::Value(d) => float(d),
            Operation::Natural(n) => n as f64,
            Operation::Integer(n) => n as f64,
            Operation::FullTurn => 2.0 * std::f64::consts::PI,
            Operation::Plus(a, b) => r[a] + r[b],
            Operation::Minus(a, b) => r[a] - r[b],
            Operation::Times(a, b) => r[a] * r[b],
            Operation::Over(a, b) => r[a] / r[b],
            Operation::Power(a, b) => r[a].powf(r[b]),
            Operation::Square(a) => r[a] * r[a],
            Operation::Root(a) => r[a].sqrt(),
            Operation::Magnitude(a) => r[a].abs(),
            Operation::Lesser(a, b) => r[a].min(r[b]),
            Operation::Greater(a, b) => r[a].max(r[b]),
            Operation::Sine(a) => r[a].sin(),
            Operation::Cosine(a) => r[a].cos(),
            Operation::Logarithm(a) => r[a].ln(),
            Operation::Digamma(a) => digamma(r[a]),
            Operation::Scaled(a, b) => {
                if r[b] > 0.0 {
                    r[a] / r[b]
                } else {
                    r[a]
                }
            }
        };
        r.push(value);
    }
    r
}

/// The results of a program as the library takes them.
pub fn results(program: &Program) -> Vec<Double> {
    evaluate(program).into_iter().map(double).collect()
}

/// The answers to a query.
pub fn answers(query: &Query) -> Vec<Double> {
    let r = evaluate(query.program());
    query.places().iter().map(|&at| double(r[at])).collect()
}

/// A finished sheet as a frame.
pub fn table(sheet: &Sheet, x: &DataFrame) -> Result<DataFrame> {
    let r = evaluate(&sheet.program);
    let mut columns: Vec<Column> = Vec::with_capacity(sheet.columns.len());
    for c in &sheet.columns {
        let name = string(&c.name);
        columns.push(match &c.cells {
            Cells::Kept(i) => x.columns()[*i].clone(),
            Cells::UInt32(cells) => {
                Column::from(Series::new(name.as_str().into(), cells.as_slice()))
            }
            Cells::Float64(cells) => {
                let values: Vec<Option<f64>> = cells
                    .iter()
                    .map(|cell| {
                        cell.map(|n| match n {
                            Number::Known(d) => float(d),
                            Number::Natural(n) => n as f64,
                            Number::Register(at) => r[at],
                        })
                    })
                    .collect();
                Column::from(Series::new(name.as_str().into(), values.as_slice()))
            }
        });
    }
    DataFrame::new(sheet.height, columns).map_err(|e| Error::Computation(e.to_string()))
}

/// How a document is split into tokens.
#[derive(Clone, Debug, PartialEq, Eq)]
pub enum Tokenizer {
    Whitespace,
    WordRegex(String),
}

impl Default for Tokenizer {
    fn default() -> Self {
        Tokenizer::Whitespace
    }
}

/// [`InnerTFIDFVectorizer`] on frames of polars.
pub struct TFIDFVectorizer(InnerTFIDFVectorizer);

impl TFIDFVectorizer {
    pub fn new() -> Self {
        Self(InnerTFIDFVectorizer::new())
    }

    pub fn column(self, c: &str) -> Self {
        Self(self.0.column(c))
    }

    pub fn ngram_range(self, lo: usize, hi: usize) -> Self {
        Self(self.0.ngram_range(lo, hi))
    }

    pub fn max_features(self, n: usize) -> Self {
        Self(self.0.max_features(n))
    }

    pub fn min_df(self, n: usize) -> Self {
        Self(self.0.min_df(n))
    }

    pub fn max_df(self, p: f64) -> Self {
        Self(self.0.max_df(double(p)))
    }

    pub fn lowercase(self, b: bool) -> Self {
        Self(self.0.lowercase(b))
    }

    pub fn stop_words(self, words: Vec<String>) -> Self {
        Self(self.0.stop_words(words.iter().map(|w| Text::of(w)).collect()))
    }

    pub fn tokenizer(self, t: Tokenizer) -> Self {
        Self(self.0.tokenizer(match t {
            Tokenizer::Whitespace => InnerTokenizer::Whitespace,
            Tokenizer::WordRegex(pattern) => InnerTokenizer::WordRegex(Text::of(&pattern)),
        }))
    }

    pub fn tf_weighting(self, w: TfWeighting) -> Self {
        Self(self.0.tf_weighting(w))
    }

    pub fn idf_weighting(self, w: IDFWeighting) -> Self {
        Self(self.0.idf_weighting(w))
    }

    pub fn norm(self, n: NormMethod) -> Self {
        Self(self.0.norm(n))
    }

    pub fn sublinear_tf(self, b: bool) -> Self {
        Self(self.0.sublinear_tf(b))
    }
}

impl Default for TFIDFVectorizer {
    fn default() -> Self {
        Self(InnerTFIDFVectorizer::default())
    }
}

impl Fit<DataFrame> for TFIDFVectorizer {
    type Output = ();

    fn fit(&mut self, x: DataFrame) -> Result<()> {
        let plan = self.0.fit(&frame_of(&x)?)?;
        self.0.finish_fit(&plan, &results(plan.program()));
        Ok(())
    }
}

impl Transform<DataFrame> for TFIDFVectorizer {
    type Output = DataFrame;

    fn transform(&self, x: DataFrame) -> Result<DataFrame> {
        table(&self.0.transform(&frame_of(&x)?)?, &x)
    }
}

/// Whether two numbers are equal up to an absolute or a relative error.
fn near(a: f64, b: f64, epsilon: f64, max_relative: f64) {
    assert!(
        RelativeEq::relative_eq(&a, &b, epsilon, max_relative),
        "{a} is not near {b}"
    );
}

fn make_df(docs: &[&str]) -> DataFrame {
    let col = Column::from(Series::new("text".into(), docs));
    DataFrame::new(docs.len(), vec![col]).unwrap()
}

fn make_opt_df(docs: &[Option<&str>]) -> DataFrame {
    let ca: StringChunked = docs.iter().copied().collect();
    DataFrame::new(
        docs.len(),
        vec![Column::from(ca.into_series().with_name("text".into()))],
    )
    .unwrap()
}

/// Fit `v` on `docs`, returning the fitted vectorizer and the frame itself.
fn fit_on(docs: &[&str], mut v: TFIDFVectorizer) -> (TFIDFVectorizer, DataFrame) {
    let df = make_df(docs);
    v.fit(df.clone()).unwrap();
    (v, df)
}

fn names(df: &DataFrame) -> Vec<&str> {
    df.get_column_names().iter().map(|n| n.as_str()).collect()
}

fn values(df: &DataFrame, name: &str) -> Vec<f64> {
    let ca = df
        .column(name)
        .unwrap()
        .as_materialized_series()
        .f64()
        .unwrap()
        .clone();
    (0..df.height()).map(|i| ca.get(i).unwrap()).collect()
}

fn assert_values(df: &DataFrame, name: &str, expected: &[f64]) {
    let actual = values(df, name);
    assert_eq!(actual.len(), expected.len(), "length of column '{name}'");
    for (i, (a, e)) in actual.iter().zip(expected).enumerate() {
        near(*a, *e, f64::EPSILON, 1e-12);
        assert!(a.is_finite(), "column '{name}' row {i} is {a}");
    }
}

/// `assert_values` for every column of a small corpus at once.
fn assert_matrix(df: &DataFrame, expected: &[(&str, &[f64])]) {
    assert_eq!(
        names(df),
        expected.iter().map(|(n, _)| *n).collect::<Vec<_>>()
    );
    for (name, column) in expected {
        assert_values(df, name, column);
    }
}

/// The issue's three-document corpus, hand-computed against the
/// scikit-learn formula: `tf = count / terms_in_document`,
/// `idf = ln((1 + N) / (1 + df)) + 1`, then L2 normalization.
///
/// `N = 3`; `cat`/`dog`/`the` occur in two documents, so their weights are
/// `ln(4 / 3) + 1 = 1.2876820724517808`, and `and`/`ran`/`sat` occur in one,
/// so theirs are `ln(4 / 2) + 1 = 1.6931471805599454`.
#[test]
fn test_manual_tfidf_matches_the_sklearn_formula() {
    let (v, df) = fit_on(
        &["the cat sat", "the dog ran", "cat and dog"],
        TFIDFVectorizer::new().column("text"),
    );
    let out = v.transform(df).unwrap();

    // Raw weights of document 0: cat 0.42922735748392693, the
    // 0.42922735748392693, sat 0.5643823935199818, divided by the row's
    // Euclidean length 0.8288544715090902.
    assert_matrix(
        &out,
        &[
            ("cat", &[0.5178561161676974, 0.0, 0.5178561161676974]),
            ("dog", &[0.0, 0.5178561161676974, 0.5178561161676974]),
            ("the", &[0.5178561161676974, 0.5178561161676974, 0.0]),
            ("and", &[0.0, 0.0, 0.680918560398684]),
            ("ran", &[0.0, 0.680918560398684, 0.0]),
            ("sat", &[0.680918560398684, 0.0, 0.0]),
        ],
    );
    assert_eq!(out.height(), 3);
    assert_eq!(
        out.column("cat").unwrap().dtype(),
        &DataType::Float64,
        "the weights are emitted as Float64"
    );
}

/// A term occurring in every document gets a smoothed idf of exactly one:
/// `ln((1 + N) / (1 + N)) + 1`.
#[test]
fn test_term_in_every_document_has_unit_idf() {
    let (v, df) = fit_on(
        &["a b", "a c"],
        TFIDFVectorizer::new()
            .column("text")
            .tf_weighting(TfWeighting::RawCount)
            .norm(NormMethod::Unscaled),
    );
    let out = v.transform(df).unwrap();

    // "a" is in both documents, "b" and "c" in one each:
    // ln((1 + 2) / (1 + 1)) + 1 = 1.4054651081081644.
    assert_matrix(
        &out,
        &[
            ("a", &[1.0, 1.0]),
            ("b", &[1.4054651081081644, 0.0]),
            ("c", &[0.0, 1.4054651081081644]),
        ],
    );
}

/// A term occurring in exactly one of `N` documents gets
/// `ln((1 + N) / 2) + 1`.
#[test]
fn test_single_document_term_uses_the_smoothed_formula() {
    let (v, df) = fit_on(
        &["a b", "a c", "a"],
        TFIDFVectorizer::new()
            .column("text")
            .tf_weighting(TfWeighting::RawCount)
            .norm(NormMethod::Unscaled),
    );
    let out = v.transform(df).unwrap();

    // N = 3, so ln((1 + 3) / (1 + 1)) + 1 = ln(2) + 1.
    assert_values(&out, "b", &[1.6931471805599454, 0.0, 0.0]);
    assert_values(&out, "c", &[0.0, 1.6931471805599454, 0.0]);
}

/// `Unsmoothed` and `Probabilistic` idf follow their formulas.
#[test]
fn test_unsmoothed_and_probabilistic_idf() {
    let corpus = ["a b", "a c", "a"];

    let (v, df) = fit_on(
        &corpus,
        TFIDFVectorizer::new()
            .column("text")
            .tf_weighting(TfWeighting::RawCount)
            .idf_weighting(IDFWeighting::Unsmoothed)
            .norm(NormMethod::Unscaled),
    );
    let out = v.transform(df).unwrap();
    // "a" is in all three documents: ln(3 / 3) = 0. "b": ln(3 / 1).
    assert_values(&out, "a", &[0.0, 0.0, 0.0]);
    assert_values(&out, "b", &[1.0986122886681098, 0.0, 0.0]);

    let (v, df) = fit_on(
        &corpus,
        TFIDFVectorizer::new()
            .column("text")
            .tf_weighting(TfWeighting::RawCount)
            .idf_weighting(IDFWeighting::Probabilistic)
            .norm(NormMethod::Unscaled),
    );
    let out = v.transform(df).unwrap();
    // "a": ln((3 - 3 + 0.5) / (3 + 0.5)); "b": ln((3 - 1 + 0.5) / (1 + 0.5)).
    assert_values(
        &out,
        "a",
        &[
            -1.9459101490553135,
            -1.9459101490553135,
            -1.9459101490553135,
        ],
    );
    assert_values(&out, "b", &[0.5108256237659907, 0.0, 0.0]);
}

/// L2 normalization gives every non-zero row a unit Euclidean length.
#[test]
fn test_l2_rows_have_unit_length() {
    let (v, df) = fit_on(
        &["the cat sat", "the dog ran", "cat and dog"],
        TFIDFVectorizer::new().column("text"),
    );
    let out = v.transform(df).unwrap();
    for row in 0..out.height() {
        let length: f64 = names(&out)
            .iter()
            .map(|name| values(&out, name)[row].powi(2))
            .sum::<f64>()
            .sqrt();
        near(length, 1.0, f64::EPSILON, 1e-12);
    }
}

/// L1 normalization gives every non-zero row weights summing to one.
#[test]
fn test_l1_rows_sum_to_one() {
    let (v, df) = fit_on(
        &["the cat sat", "the dog ran", "cat and dog"],
        TFIDFVectorizer::new().column("text").norm(NormMethod::L1),
    );
    let out = v.transform(df).unwrap();
    for row in 0..out.height() {
        let total: f64 = names(&out)
            .iter()
            .map(|name| values(&out, name)[row].abs())
            .sum();
        near(total, 1.0, f64::EPSILON, 1e-12);
    }
    // Document 0 with L1 norm: cat 0.42922735748392693 / 1.4228371084878355.
    assert_values(&out, "cat", &[0.3016700611218256, 0.0, 0.3016700611218256]);
}

/// `TermFrequency` divides by the document's total after `sublinear_tf`,
/// so the denominator is the sum of the rescaled counts.
#[test]
fn test_sublinear_tf_feeds_the_term_frequency_denominator() {
    let (v, df) = fit_on(
        &["a a b", "b"],
        TFIDFVectorizer::new()
            .column("text")
            .sublinear_tf(true)
            .norm(NormMethod::Unscaled),
    );
    let out = v.transform(df).unwrap();

    // Document 0 rescaled: "a" = 1 + ln(2), "b" = 1, so the row totals
    // 2.6931471805599454. "a" occurs in one of the two documents, "b" in
    // both.
    assert_matrix(
        &out,
        &[
            ("a", &[0.8835979341737835, 0.0]),
            ("b", &[0.37131279241563214, 1.0]),
        ],
    );
}

/// The weights are learned at fit and reused unchanged, however different
/// the transform frame is: its own term occurrences and height play no
/// part.
#[test]
fn test_weights_are_learned_at_fit_and_reused() {
    let (v, _) = fit_on(
        &["a b", "a c", "a"],
        TFIDFVectorizer::new()
            .column("text")
            .tf_weighting(TfWeighting::RawCount)
            .norm(NormMethod::Unscaled),
    );

    // "b" occurred in one of the three fitted documents, so its weight
    // stays ln((1 + 3) / (1 + 1)) + 1 even though it is the only term of
    // this frame and the only document.
    let out = v.transform(make_df(&["b"])).unwrap();
    assert_matrix(
        &out,
        &[("a", &[0.0]), ("b", &[1.6931471805599454]), ("c", &[0.0])],
    );
}

/// `sublinear_tf` maps a count of 5 to `1 + ln(5)` before the weighting.
#[test]
fn test_sublinear_tf_maps_counts_to_one_plus_ln() {
    let (v, df) = fit_on(
        &["a a a a a", "b"],
        TFIDFVectorizer::new()
            .column("text")
            .tf_weighting(TfWeighting::RawCount)
            .sublinear_tf(true)
            .norm(NormMethod::Unscaled),
    );
    let out = v.transform(df).unwrap();

    // "a" (five occurrences) and "b" (one) both occur in a single
    // document, so both have idf ln((1 + 2) / (1 + 1)) + 1 =
    // 1.4054651081081644, and "a" is rescaled to 1 + ln(5) first.
    assert_matrix(
        &out,
        &[
            ("a", &[3.667473937700736, 0.0]),
            ("b", &[0.0, 1.4054651081081644]),
        ],
    );
}

/// `LogTf` is the same transform as `RawCount` with `sublinear_tf`.
#[test]
fn test_log_tf_equals_raw_count_with_sublinear_tf() {
    let corpus = ["a a a a a", "b b"];

    let (v, df) = fit_on(
        &corpus,
        TFIDFVectorizer::new()
            .column("text")
            .tf_weighting(TfWeighting::RawCount)
            .sublinear_tf(true)
            .norm(NormMethod::Unscaled),
    );
    let logged = v.transform(df).unwrap();

    let (v, df) = fit_on(
        &corpus,
        TFIDFVectorizer::new()
            .column("text")
            .tf_weighting(TfWeighting::LogTf)
            .norm(NormMethod::Unscaled),
    );
    let log_tf = v.transform(df).unwrap();

    for name in names(&logged) {
        assert_values(&logged, name, &values(&log_tf, name));
    }
    // "b" counts twice in its only document and occurs in one of the two
    // documents, so its weight is (1 + ln(2)) * (ln(3 / 2) + 1).
    assert_values(&logged, "b", &[0.0, 2.3796592851687173]);
}

/// `Binary` collapses counts to presence and still multiplies by the idf.
#[test]
fn test_binary_tf_collapses_counts() {
    let (v, df) = fit_on(
        &["a a b", "a"],
        TFIDFVectorizer::new()
            .column("text")
            .tf_weighting(TfWeighting::Binary)
            .norm(NormMethod::Unscaled),
    );
    let out = v.transform(df).unwrap();

    // Three occurrences of "a" become 1, and "a" is in both documents
    // (idf 1); "b" occurs once, in one document only.
    assert_matrix(
        &out,
        &[("a", &[1.0, 1.0]), ("b", &[1.4054651081081644, 0.0])],
    );
}

/// Without normalization the weights are left large.
#[test]
fn test_norm_none_keeps_unscaled_weights() {
    let (v, df) = fit_on(
        &["a a a a a"],
        TFIDFVectorizer::new()
            .column("text")
            .tf_weighting(TfWeighting::RawCount)
            .norm(NormMethod::Unscaled),
    );
    // The only term is in the only document, so its idf is 1.
    near(values(&v.transform(df.clone()).unwrap(), "a")[0], 5.0, f64::EPSILON, f64::EPSILON);

    let (v, df) = fit_on(
        &["a a a a a"],
        TFIDFVectorizer::new()
            .column("text")
            .tf_weighting(TfWeighting::RawCount)
            .norm(NormMethod::L2),
    );
    // The same weights, scaled to a unit row.
    near(values(&v.transform(df).unwrap(), "a")[0], 1.0, f64::EPSILON, f64::EPSILON);
}

/// Null and empty documents become all-zero, non-null rows.
#[test]
fn test_empty_and_null_documents_are_zero_rows() {
    let df = make_opt_df(&[Some("cat"), Some(""), None, Some("cat dog")]);
    let mut v = TFIDFVectorizer::new().column("text");
    v.fit(df.clone()).unwrap();
    let out = v.transform(df).unwrap();

    // N = 4 documents; "cat" is in two of them, "dog" in one.
    assert_matrix(
        &out,
        &[
            ("cat", &[1.0, 0.0, 0.0, 0.6191302964899972]),
            ("dog", &[0.0, 0.0, 0.0, 0.7852882757103967]),
        ],
    );
    for name in names(&out) {
        let ca = out
            .column(name)
            .unwrap()
            .as_materialized_series()
            .f64()
            .unwrap()
            .clone();
        assert_eq!(ca.get(1), Some(0.0), "empty document is not a zero row");
        assert_eq!(ca.get(2), Some(0.0), "null document is not a zero row");
    }
}

/// A one-term vocabulary keeps its single column at weight one.
#[test]
fn test_single_term_vocabulary() {
    let (v, df) = fit_on(&["a", "a"], TFIDFVectorizer::new().column("text"));
    let out = v.transform(df).unwrap();

    // df == N == 2, so the smoothed idf is ln((1 + 2) / (1 + 2)) + 1 = 1.
    assert_matrix(&out, &[("a", &[1.0, 1.0])]);
}

/// Identical documents produce identical rows.
#[test]
fn test_identical_documents_produce_identical_rows() {
    let (v, df) = fit_on(&["a b", "a b"], TFIDFVectorizer::new().column("text"));
    let out = v.transform(df).unwrap();

    // Both terms are in both documents (idf 1), so each row holds
    // 1 / sqrt(2) twice.
    assert_values(&out, "a", &[0.7071067811865475, 0.7071067811865475]);
    assert_values(&out, "b", &values(&out, "a"));
}

/// Terms outside the learned vocabulary are dropped at transform time.
#[test]
fn tfidf_vectorizer_test_unknown_terms_are_dropped_at_transform() {
    let (v, _) = fit_on(&["hello world"], TFIDFVectorizer::new().column("text"));
    let out = v.transform(make_df(&["goodbye world"])).unwrap();

    // "world" is the only in-vocabulary term, so it is the document's
    // entire counted content: tf 1, and idf 1 from the single fit
    // document.
    assert_matrix(&out, &[("hello", &[0.0]), ("world", &[1.0])]);
}

/// `max_df(1.0)` filters nothing; a lower bound drops terms in many docs.
#[test]
fn test_max_df_one_point_zero_keeps_every_term() {
    let (v, df) = fit_on(
        &["a b", "a c"],
        TFIDFVectorizer::new().column("text").max_df(1.0),
    );
    assert_eq!(names(&v.transform(df).unwrap()), vec!["a", "b", "c"]);

    // "a" is in both documents, so 0.5 filters it out and keeps the
    // single-document terms.
    let (v, df) = fit_on(
        &["a b", "a c"],
        TFIDFVectorizer::new().column("text").max_df(0.5),
    );
    assert_eq!(names(&v.transform(df).unwrap()), vec!["b", "c"]);
}

/// An empty vocabulary transforms to a 0x0 frame.
#[test]
fn test_empty_vocabulary_yields_an_empty_frame() {
    let (v, df) = fit_on(&["", "  \t"], TFIDFVectorizer::new().column("text"));
    let out = v.transform(df).unwrap();
    assert_eq!(out.width(), 0);
    assert_eq!(out.height(), 0);

    let (v, df) = fit_on(
        &["cat dog"],
        TFIDFVectorizer::new().column("text").min_df(2),
    );
    let out = v.transform(df).unwrap();
    assert_eq!(out.width(), 0);
    assert_eq!(out.height(), 0);
}

/// A zero-row transform input keeps the vocabulary width.
#[test]
fn tfidf_vectorizer_test_transform_zero_row_frame() {
    let (v, _) = fit_on(&["cat dog"], TFIDFVectorizer::new().column("text"));
    let no_rows: StringChunked = Vec::<Option<&str>>::new().into_iter().collect();
    let df = DataFrame::new(
        0,
        vec![Column::from(no_rows.into_series().with_name("text".into()))],
    )
    .unwrap();
    let out = v.transform(df).unwrap();
    assert_eq!(out.width(), 2);
    assert_eq!(out.height(), 0);
}

/// Stop words are removed before n-grams are formed, exactly as in
/// `CountVectorizer`.
#[test]
fn test_stop_words_are_removed_before_ngrams() {
    let (v, _) = fit_on(
        &["big the cat"],
        TFIDFVectorizer::new()
            .column("text")
            .stop_words(vec!["the".to_string()])
            .ngram_range(1, 2),
    );
    let out = v.transform(make_df(&["big the cat"])).unwrap();
    assert_eq!(names(&out), vec!["big", "big cat", "cat"]);
    // All three terms occur in the single training document, so each has
    // idf 1 and tf 1/3 before the row is scaled to unit length.
    assert_values(&out, "big cat", &[0.5773502691896257]);
    assert_values(&out, "big", &values(&out, "big cat"));
}

/// Every builder option reaches the fitted vectorizer.
#[test]
fn test_every_builder_option_is_honored() {
    let (v, df) = fit_on(
        &["The Cat", "the dog"],
        TFIDFVectorizer::new()
            .column("text")
            .tokenizer(Tokenizer::Whitespace)
            .ngram_range(1, 2)
            .max_features(4)
            .min_df(1)
            .max_df(1.0)
            .stop_words(Vec::new())
            .lowercase(true)
            .tf_weighting(TfWeighting::Binary)
            .idf_weighting(IDFWeighting::Smoothed)
            .norm(NormMethod::L1)
            .sublinear_tf(false),
    );
    let out = v.transform(df).unwrap();

    // Lowercased unigrams and bigrams of both documents, ranked by corpus
    // frequency ("the" wins) and truncated to the four most frequent.
    assert_eq!(names(&out), vec!["the", "cat", "dog", "the cat"]);
    for row in 0..out.height() {
        let total: f64 = names(&out)
            .iter()
            .map(|name| values(&out, name)[row].abs())
            .sum();
        near(total, 1.0, f64::EPSILON, 1e-12);
    }
}

/// `transform` before `fit` reports `NotFitted`, and a failed re-fit clears
/// the state learned by an earlier successful fit.
#[test]
fn tfidf_vectorizer_test_not_fitted_and_failed_refit_resets_state() {
    let df = make_df(&["cat dog"]);
    let mut v = TFIDFVectorizer::new().column("text");
    let err = v.transform(df.clone()).unwrap_err().to_string();
    assert!(err.contains("not fitted"), "{err}");

    v.fit(df.clone()).unwrap();
    assert_eq!(v.transform(df.clone()).unwrap().width(), 2);

    let other = Column::from(Series::new("other".into(), &["cat dog"]));
    assert!(v.fit(DataFrame::new(1, vec![other]).unwrap()).is_err());
    let err = v.transform(df).unwrap_err().to_string();
    assert!(
        err.contains("not fitted"),
        "stale state after failed refit: {err}"
    );
}

/// Every configuration change invalidates the learned weights.
#[test]
fn tfidf_vectorizer_test_setter_invalidates_fitted_state() {
    let df = make_df(&["cat dog"]);
    let mut v = TFIDFVectorizer::new().column("text");
    v.fit(df.clone()).unwrap();
    assert_eq!(v.transform(df.clone()).unwrap().width(), 2);

    let v = v.norm(NormMethod::L1);
    let err = v.transform(df).unwrap_err().to_string();
    assert!(err.contains("not fitted"), "{err}");
}

/// Every invalid configuration surfaces as `Error::InvalidInput` at fit,
/// named after this transformer rather than the composed count vectorizer.
#[test]
fn tfidf_vectorizer_test_fit_validation_errors() {
    let df = make_df(&["cat dog"]);

    let cases = vec![
        (TFIDFVectorizer::new(), "no column configured".to_string()),
        (
            TFIDFVectorizer::new().column("missing"),
            "not found".to_string(),
        ),
        (
            TFIDFVectorizer::new().column("text").ngram_range(0, 3),
            "ngram_range".to_string(),
        ),
        (
            TFIDFVectorizer::new().column("text").ngram_range(3, 2),
            "ngram_range".to_string(),
        ),
        (
            TFIDFVectorizer::new().column("text").min_df(0),
            "min_df".to_string(),
        ),
        (
            TFIDFVectorizer::new().column("text").max_features(0),
            "max_features".to_string(),
        ),
        (
            TFIDFVectorizer::new().column("text").max_df(0.0),
            "max_df".to_string(),
        ),
        (
            TFIDFVectorizer::new().column("text").max_df(1.5),
            "max_df".to_string(),
        ),
        (
            TFIDFVectorizer::new()
                .column("text")
                .tokenizer(Tokenizer::WordRegex("(".into())),
            "invalid regex".to_string(),
        ),
    ];
    for (mut v, expected) in cases {
        let err = v.fit(df.clone()).unwrap_err().to_string();
        assert!(err.contains(&expected), "{expected}: {err}");
        assert!(err.contains("TFIDFVectorizer"), "{expected}: {err}");
    }

    let numeric = DataFrame::new(
        3,
        vec![Column::from(Series::new("text".into(), &[1i32, 2, 3]))],
    )
    .unwrap();
    let err = TFIDFVectorizer::new()
        .column("text")
        .fit(numeric)
        .unwrap_err()
        .to_string();
    assert!(err.contains("expected String"), "{err}");

    let no_rows: StringChunked = Vec::<Option<&str>>::new().into_iter().collect();
    let empty_rows = DataFrame::new(
        0,
        vec![Column::from(no_rows.into_series().with_name("text".into()))],
    )
    .unwrap();
    for empty in [DataFrame::empty(), empty_rows] {
        let err = TFIDFVectorizer::new()
            .column("text")
            .fit(empty)
            .unwrap_err()
            .to_string();
        assert!(err.contains("empty DataFrame"), "{err}");
    }
}

/// `transform` validates its own input column too.
#[test]
fn tfidf_vectorizer_test_transform_validation_errors() {
    let (v, _) = fit_on(&["cat dog"], TFIDFVectorizer::new().column("text"));

    let other =
        DataFrame::new(1, vec![Column::from(Series::new("other".into(), &["cat"]))]).unwrap();
    let err = v.transform(other).unwrap_err().to_string();
    assert!(err.contains("not found"), "{err}");
    assert!(err.contains("TFIDFVectorizer"), "{err}");

    let numeric =
        DataFrame::new(1, vec![Column::from(Series::new("text".into(), &[1i32]))]).unwrap();
    let err = v.transform(numeric).unwrap_err().to_string();
    assert!(err.contains("expected String"), "{err}");
}
