#![allow(dead_code, unused_imports)]

use featrs::double::Double;
use featrs::error::Error as Fault;
use featrs::error::Kind;
use featrs::frame::Cells;
use featrs::frame::Column as FrameColumn;
use featrs::frame::Frame;
use featrs::frame::Number;
use featrs::frame::Resolution;
use featrs::frame::Sheet;
use featrs::frame::Values;
use featrs::preprocessing::text::char_ngram_vectorizer::Analyzer;
use featrs::preprocessing::text::char_ngram_vectorizer::CharacterNGramVectorizer as InnerCharacterNGramVectorizer;
use featrs::program::Operation;
use featrs::program::Program;
use featrs::program::Query;
use featrs::text::Text;
use polars::prelude::AnyValue;
use polars::prelude::ChunkAgg;
use polars::prelude::Column;
use polars::prelude::DataFrame;
use polars::prelude::DataType;
use polars::prelude::IntoSeries;
use polars::prelude::NamedFrom;
use polars::prelude::PolarsError;
use polars::prelude::Series;
use polars::prelude::StringChunked;
use polars::prelude::TimeUnit;
use statrs::function::gamma::digamma;
use std::fmt;

/// What a transformer reports.
#[derive(Debug)]
pub enum Error {
    InvalidInput(String),
    NotFitted(String),
    Computation(String),
}

impl fmt::Display for Error {
    fn fmt(&self, f: &mut fmt::Formatter<'_>) -> fmt::Result {
        match self {
            Error::InvalidInput(message) => f.write_str(&format!("invalid input: {message}")),
            Error::NotFitted(message) => f.write_str(&format!("not fitted: {message}")),
            Error::Computation(message) => f.write_str(&format!("computation error: {message}")),
        }
    }
}

impl From<Fault> for Error {
    fn from(e: Fault) -> Self {
        let mut message: String = e.message().chars.iter().collect();
        if let Some(d) = e.number() {
            message.push_str(&f64::from_bits(d.bits).to_string());
        }
        match e.kind() {
            Kind::InvalidInput => Error::InvalidInput(message),
            Kind::NotFitted => Error::NotFitted(message),
            Kind::Computation => Error::Computation(message),
        }
    }
}

pub type Result<T> = std::result::Result<T, Error>;

/// Learns from a frame.
pub trait Fit<X> {
    type Output;
    fn fit(&mut self, x: X) -> Result<Self::Output>;
}

/// Learns from a frame and a target.
pub trait FitSupervised<X, Y> {
    type Output;
    fn fit(&mut self, x: X, y: Y) -> Result<Self::Output>;
}

/// Makes a frame of a frame.
pub trait Transform<X> {
    type Output;
    fn transform(&self, x: X) -> Result<Self::Output>;
}

/// A number by its bits.
pub fn double(v: f64) -> Double {
    Double { bits: v.to_bits() }
}

/// A number from its bits.
pub fn float(d: Double) -> f64 {
    f64::from_bits(d.bits)
}

/// A text as a string.
pub fn string(t: &Text) -> String {
    t.chars.iter().collect()
}

/// The cells of a series.
fn values_of(s: &Series) -> Result<Values> {
    let failed = |e: PolarsError| Error::Computation(e.to_string());
    Ok(match s.dtype() {
        DataType::String => Values::Text(
            s.str().map_err(failed)?.iter().map(|v| v.map(Text::of)).collect(),
        ),
        DataType::Float64 => Values::Float64(
            s.f64().map_err(failed)?.iter().map(|v| v.map(double)).collect(),
        ),
        DataType::Date => Values::Date(
            s.to_physical_repr().i32().map_err(failed)?.iter().collect(),
        ),
        DataType::Datetime(unit, _) => {
            let resolution = match unit {
                TimeUnit::Nanoseconds => Resolution::Nanoseconds,
                TimeUnit::Microseconds => Resolution::Microseconds,
                TimeUnit::Milliseconds => Resolution::Milliseconds,
            };
            Values::Datetime(
                resolution,
                s.to_physical_repr().i64().map_err(failed)?.iter().collect(),
            )
        }
        other => Values::Other(Text::of(&other.to_string()), s.len()),
    })
}

/// A column as the library reads it.
pub fn column_of(c: &Column) -> Result<FrameColumn> {
    Ok(FrameColumn::new(c.name().as_str(), values_of(c.as_materialized_series())?))
}

/// A frame as the library reads it.
pub fn frame_of(df: &DataFrame) -> Result<Frame> {
    let columns = df.columns().iter().map(column_of).collect::<Result<Vec<FrameColumn>>>()?;
    Ok(Frame::new(df.height(), columns)?)
}

/// The results of a program, front to back.
pub fn evaluate(program: &Program) -> Vec<f64> {
    let mut r: Vec<f64> = Vec::with_capacity(program.len());
    for i in 0..program.len() {
        let value = match program.operation(i) {
            Operation::Value(d) => float(d),
            Operation::Natural(n) => n as f64,
            Operation::Integer(n) => n as f64,
            Operation::FullTurn => 2.0 * std::f64::consts::PI,
            Operation::Plus(a, b) => r[a] + r[b],
            Operation::Minus(a, b) => r[a] - r[b],
            Operation::Times(a, b) => r[a] * r[b],
            Operation::Over(a, b) => r[a] / r[b],
            Operation::Power(a, b) => r[a].powf(r[b]),
            Operation::Square(a) => r[a] * r[a],
            Operation::Root(a) => r[a].sqrt(),
            Operation::Magnitude(a) => r[a].abs(),
            Operation::Lesser(a, b) => r[a].min(r[b]),
            Operation::Greater(a, b) => r[a].max(r[b]),
            Operation::Sine(a) => r[a].sin(),
            Operation::Cosine(a) => r[a].cos(),
            Operation::Logarithm(a) => r[a].ln(),
            Operation::Digamma(a) => digamma(r[a]),
            Operation::Scaled(a, b) => {
                if r[b] > 0.0 {
                    r[a] / r[b]
                } else {
                    r[a]
                }
            }
        };
        r.push(value);
    }
    r
}

/// The results of a program as the library takes them.
pub fn results(program: &Program) -> Vec<Double> {
    evaluate(program).into_iter().map(double).collect()
}

/// The answers to a query.
pub fn answers(query: &Query) -> Vec<Double> {
    let r = evaluate(query.program());
    query.places().iter().map(|&at| double(r[at])).collect()
}

/// A finished sheet as a frame.
pub fn table(sheet: &Sheet, x: &DataFrame) -> Result<DataFrame> {
    let r = evaluate(&sheet.program);
    let mut columns: Vec<Column> = Vec::with_capacity(sheet.columns.len());
    for c in &sheet.columns {
        let name = string(&c.name);
        columns.push(match &c.cells {
            Cells::Kept(i) => x.columns()[*i].clone(),
            Cells::UInt32(cells) => {
                Column::from(Series::new(name.as_str().into(), cells.as_slice()))
            }
            Cells::Float64(cells) => {
                let values: Vec<Option<f64>> = cells
                    .iter()
                    .map(|cell| {
                        cell.map(|n| match n {
                            Number::Known(d) => float(d),
                            Number::Natural(n) => n as f64,
                            Number::Register(at) => r[at],
                        })
                    })
                    .collect();
                Column::from(Series::new(name.as_str().into(), values.as_slice()))
            }
        });
    }
    DataFrame::new(sheet.height, columns).map_err(|e| Error::Computation(e.to_string()))
}

/// [`InnerCharacterNGramVectorizer`] on frames of polars.
pub struct CharacterNGramVectorizer(InnerCharacterNGramVectorizer);

impl CharacterNGramVectorizer {
    pub fn new() -> Self {
        Self(InnerCharacterNGramVectorizer::new())
    }

    pub fn column(self, c: &str) -> Self {
        Self(self.0.column(c))
    }

    pub fn ngram_range(self, lo: usize, hi: usize) -> Self {
        Self(self.0.ngram_range(lo, hi))
    }

    pub fn max_features(self, n: usize) -> Self {
        Self(self.0.max_features(n))
    }

    pub fn min_df(self, n: usize) -> Self {
        Self(self.0.min_df(n))
    }

    pub fn max_df(self, p: f64) -> Self {
        Self(self.0.max_df(double(p)))
    }

    pub fn lowercase(self, b: bool) -> Self {
        Self(self.0.lowercase(b))
    }

    pub fn analyzer(self, a: Analyzer) -> Self {
        Self(self.0.analyzer(a))
    }
}

impl Default for CharacterNGramVectorizer {
    fn default() -> Self {
        Self(InnerCharacterNGramVectorizer::default())
    }
}

impl Fit<DataFrame> for CharacterNGramVectorizer {
    type Output = ();

    fn fit(&mut self, x: DataFrame) -> Result<()> {
        let plan = self.0.fit(&frame_of(&x)?)?;
        self.0.finish_fit(&plan, &results(plan.program()));
        Ok(())
    }
}

impl Transform<DataFrame> for CharacterNGramVectorizer {
    type Output = DataFrame;

    fn transform(&self, x: DataFrame) -> Result<DataFrame> {
        table(&self.0.transform(&frame_of(&x)?)?, &x)
    }
}

fn make_df(docs: &[&str]) -> DataFrame {
    let col = Column::from(Series::new("text".into(), docs));
    DataFrame::new(docs.len(), vec![col]).unwrap()
}

/// Sum of one output column, or `0.0` if the term is not in the vocabulary.
fn column_sum(df: &DataFrame, name: &str) -> f64 {
    match df.column(name) {
        Ok(c) => c
            .as_materialized_series()
            .f64()
            .unwrap()
            .sum()
            .unwrap_or(0.0),
        Err(_) => 0.0,
    }
}

/// `"hello"` with `(2, 3)` yields exactly the 7 expected n-grams; columns
/// are emitted in vocabulary-index order (frequency desc, then alphabetical).
#[test]
fn test_hello_char_only_bigrams_and_trigrams() {
    let df = make_df(&["hello"]);
    let mut v = CharacterNGramVectorizer::new()
        .column("text")
        .ngram_range(2, 3);
    v.fit(df.clone()).unwrap();
    let out = v.transform(df).unwrap();

    assert_eq!(out.width(), 7);
    assert_eq!(out.height(), 1);
    let names: Vec<&str> = out.get_column_names().iter().map(|n| n.as_str()).collect();
    assert_eq!(names, vec!["el", "ell", "he", "hel", "ll", "llo", "lo"]);
}

/// `Analyzer::CharWb` analyzes each word on its own, padded with boundary
/// spaces, so no n-gram spans two words; `CharOnly` on the same input does
/// produce the spanning n-gram.
#[test]
fn test_char_wb_respects_word_boundaries() {
    let df = make_df(&["hello world"]);
    let mut wb = CharacterNGramVectorizer::new()
        .column("text")
        .analyzer(Analyzer::CharWb)
        .ngram_range(2, 3);
    wb.fit(df.clone()).unwrap();
    let out = wb.transform(df.clone()).unwrap();

    // 7 chars in " hello " and " world " each: 6 + 6 bigrams, 5 + 5 trigrams.
    assert_eq!(out.width(), 22);
    assert_eq!(column_sum(&out, " h"), 1.0);
    assert_eq!(column_sum(&out, "o "), 1.0);
    assert_eq!(column_sum(&out, " w"), 1.0);
    assert_eq!(column_sum(&out, "d "), 1.0);
    // The word-spanning n-gram only exists under CharOnly.
    assert!(out.column("o w").is_err(), "CharWb must not span words");

    let mut co = CharacterNGramVectorizer::new()
        .column("text")
        .ngram_range(2, 3);
    co.fit(df.clone()).unwrap();
    let co_out = co.transform(df).unwrap();
    assert_eq!(column_sum(&co_out, "o w"), 1.0);
}

/// `min_df`/`max_df` filter by document frequency; `max_features` keeps the
/// most frequent terms; and the column order is deterministic, breaking
/// frequency ties alphabetically.
#[test]
fn test_df_filters_max_features_and_deterministic_order() {
    // "ab" appears in 2 of 3 documents, "ac" in 1.
    let df = make_df(&["ab", "ab", "ac"]);

    let mut min_df = CharacterNGramVectorizer::new()
        .column("text")
        .ngram_range(2, 2)
        .min_df(2);
    min_df.fit(df.clone()).unwrap();
    let out = min_df.transform(df.clone()).unwrap();
    assert_eq!(out.width(), 1);
    assert_eq!(out.get_column_names()[0].as_str(), "ab");

    let mut max_df = CharacterNGramVectorizer::new()
        .column("text")
        .ngram_range(2, 2)
        .max_df(0.5);
    max_df.fit(df.clone()).unwrap();
    let out = max_df.transform(df.clone()).unwrap();
    assert_eq!(out.width(), 1);
    assert_eq!(out.get_column_names()[0].as_str(), "ac");

    // "ab" occurs twice, "ac" once, so the single kept term is the more frequent one.
    let mut capped = CharacterNGramVectorizer::new()
        .column("text")
        .ngram_range(2, 2)
        .max_features(1);
    capped.fit(df.clone()).unwrap();
    let out = capped.transform(df).unwrap();
    assert_eq!(out.width(), 1);
    assert_eq!(out.get_column_names()[0].as_str(), "ab");

    // Equal document frequencies: the tie is broken alphabetically, and two
    // independent fits emit the same column order.
    let df = make_df(&["hello", "world"]);
    let mut v = CharacterNGramVectorizer::new()
        .column("text")
        .ngram_range(2, 2);
    v.fit(df.clone()).unwrap();
    let first = v.transform(df.clone()).unwrap();
    let names: Vec<&str> = first
        .get_column_names()
        .iter()
        .map(|n| n.as_str())
        .collect();
    assert_eq!(names, vec!["el", "he", "ld", "ll", "lo", "or", "rl", "wo"]);

    let mut again = CharacterNGramVectorizer::new()
        .column("text")
        .ngram_range(2, 2);
    again.fit(df.clone()).unwrap();
    let second = again.transform(df).unwrap();
    assert_eq!(
        second.get_column_names(),
        first.get_column_names(),
        "column order must be deterministic across fits"
    );
}

/// n-grams are built from Unicode scalar values, so a multi-byte `é` or
/// emoji stays a single character for n-gram purposes.
#[test]
fn test_unicode_char_ngrams() {
    let df = make_df(&["héllo"]);
    let mut v = CharacterNGramVectorizer::new()
        .column("text")
        .ngram_range(2, 3);
    v.fit(df.clone()).unwrap();
    let out = v.transform(df).unwrap();

    assert_eq!(out.width(), 7);
    let names: Vec<&str> = out.get_column_names().iter().map(|n| n.as_str()).collect();
    // `é` sorts after ASCII, so the `é…` terms come last.
    assert_eq!(names, vec!["hé", "hél", "ll", "llo", "lo", "él", "éll"]);
    assert_eq!(column_sum(&out, "hé"), 1.0);
    assert_eq!(column_sum(&out, "hél"), 1.0);

    // A 4-byte emoji is still one character.
    let df = make_df(&["a😀b"]);
    let mut v = CharacterNGramVectorizer::new()
        .column("text")
        .ngram_range(1, 1);
    v.fit(df.clone()).unwrap();
    let out = v.transform(df).unwrap();
    assert_eq!(out.width(), 3);
    assert_eq!(column_sum(&out, "😀"), 1.0);
}

/// Overlapping repeated n-grams are counted once per occurrence.
#[test]
fn test_repeated_characters_counted() {
    let df = make_df(&["aaa"]);
    let mut v = CharacterNGramVectorizer::new()
        .column("text")
        .ngram_range(2, 2);
    v.fit(df.clone()).unwrap();
    let out = v.transform(df).unwrap();

    assert_eq!(out.width(), 1);
    assert_eq!(out.get_column_names()[0].as_str(), "aa");
    assert_eq!(column_sum(&out, "aa"), 2.0);
}

/// Empty and shorter-than-`lo` documents produce all-zero rows.
#[test]
fn test_empty_and_short_documents_are_all_zero() {
    let df = make_df(&["", "a", "hello"]);
    let mut v = CharacterNGramVectorizer::new()
        .column("text")
        .ngram_range(2, 3);
    v.fit(df.clone()).unwrap();
    let out = v.transform(df).unwrap();

    assert_eq!(out.width(), 7);
    assert_eq!(out.height(), 3);
    for name in out.get_column_names() {
        let ca = out
            .column(name.as_str())
            .unwrap()
            .as_materialized_series()
            .f64()
            .unwrap();
        assert_eq!(ca.get(0), Some(0.0), "empty document row for {name}");
        assert_eq!(ca.get(1), Some(0.0), "one-char document row for {name}");
    }
    assert_eq!(column_sum(&out, "ll"), 1.0);
}

/// Null cells count as empty documents.
#[test]
fn test_null_documents_are_empty() {
    let ca: StringChunked = [Some("aa"), None, Some("aa")].into_iter().collect();
    let s = ca.into_series().with_name("text".into());
    let df = DataFrame::new(3, vec![Column::from(s)]).unwrap();
    let mut v = CharacterNGramVectorizer::new()
        .column("text")
        .ngram_range(2, 2);
    v.fit(df.clone()).unwrap();
    let out = v.transform(df).unwrap();

    assert_eq!(out.width(), 1);
    assert_eq!(out.height(), 3);
    let ca = out
        .column("aa")
        .unwrap()
        .as_materialized_series()
        .f64()
        .unwrap();
    assert_eq!(ca.get(0), Some(1.0));
    assert_eq!(ca.get(1), Some(0.0));
    assert_eq!(ca.get(2), Some(1.0));
}

/// Counts are per document, and the row count follows the input frame.
#[test]
fn test_counts_per_document_and_row_count() {
    let df = make_df(&["aa", "aa aa", ""]);
    let mut v = CharacterNGramVectorizer::new()
        .column("text")
        .ngram_range(2, 2);
    v.fit(df.clone()).unwrap();
    let out = v.transform(df).unwrap();

    assert_eq!(out.height(), 3);
    let ca = out
        .column("aa")
        .unwrap()
        .as_materialized_series()
        .f64()
        .unwrap();
    assert_eq!(ca.get(0), Some(1.0));
    assert_eq!(ca.get(1), Some(2.0));
    assert_eq!(ca.get(2), Some(0.0));
}

/// Unigrams are single characters, ranked by corpus frequency.
#[test]
fn test_unigram_range_ranks_by_frequency() {
    let df = make_df(&["abc", "cc", "", "ab"]);
    let mut v = CharacterNGramVectorizer::new()
        .column("text")
        .ngram_range(1, 1);
    v.fit(df.clone()).unwrap();
    let out = v.transform(df).unwrap();

    assert_eq!(out.height(), 4);
    let names: Vec<&str> = out.get_column_names().iter().map(|n| n.as_str()).collect();
    // "c" occurs 3 times, "a" and "b" twice each (alphabetical tie-break).
    assert_eq!(names, vec!["c", "a", "b"]);
    assert_eq!(column_sum(&out, "c"), 3.0);
}

/// n-grams absent from the vocabulary at fit time are dropped.
#[test]
fn test_unknown_ngrams_dropped() {
    let mut v = CharacterNGramVectorizer::new()
        .column("text")
        .ngram_range(2, 2);
    v.fit(make_df(&["hello"])).unwrap();
    let out = v.transform(make_df(&["xyz"])).unwrap();

    assert_eq!(out.width(), 4);
    assert_eq!(out.height(), 1);
    for name in out.get_column_names() {
        assert_eq!(column_sum(&out, name.as_str()), 0.0, "term {name}");
    }
}

/// `lowercase(false)` keeps the text as-is, so the vocabulary is
/// case-sensitive; the default folds case and merges the terms.
#[test]
fn char_ngram_vectorizer_test_lowercase_option() {
    let df = make_df(&["Hello", "hello"]);

    let mut folded = CharacterNGramVectorizer::new()
        .column("text")
        .ngram_range(2, 2);
    folded.fit(df.clone()).unwrap();
    let out = folded.transform(df.clone()).unwrap();
    assert_eq!(out.width(), 4);
    assert_eq!(column_sum(&out, "ll"), 2.0);

    let mut kept = CharacterNGramVectorizer::new()
        .column("text")
        .ngram_range(2, 2)
        .lowercase(false);
    kept.fit(df.clone()).unwrap();
    let out = kept.transform(df).unwrap();
    assert_eq!(out.width(), 5);
    assert_eq!(column_sum(&out, "He"), 1.0);
    assert_eq!(column_sum(&out, "he"), 1.0);
    assert_eq!(column_sum(&out, "el"), 2.0);
}

/// `transform` before `fit` reports `NotFitted`, and a failed re-fit clears
/// the state learned by an earlier successful fit.
#[test]
fn char_ngram_vectorizer_test_not_fitted_and_failed_refit_resets_state() {
    let df = make_df(&["hello"]);
    let mut v = CharacterNGramVectorizer::new()
        .column("text")
        .ngram_range(2, 2);
    let err = v.transform(df.clone()).unwrap_err().to_string();
    assert!(err.contains("not fitted"), "{err}");

    v.fit(df.clone()).unwrap();
    assert_eq!(v.transform(df.clone()).unwrap().width(), 4);

    let other = Column::from(Series::new("other".into(), &["cat dog"]));
    assert!(v.fit(DataFrame::new(1, vec![other]).unwrap()).is_err());
    let err = v.transform(df).unwrap_err().to_string();
    assert!(
        err.contains("not fitted"),
        "stale state after failed refit: {err}"
    );
}

/// An empty vocabulary (no document yields an n-gram, or every term is
/// filtered out) is returned as a 0x0 frame.
#[test]
fn test_empty_vocabulary_returns_empty_frame() {
    let df = make_df(&["", "", "a"]);
    let mut v = CharacterNGramVectorizer::new()
        .column("text")
        .ngram_range(3, 3);
    v.fit(df.clone()).unwrap();
    let out = v.transform(df).unwrap();
    assert_eq!(out.width(), 0);
    assert_eq!(out.height(), 0);

    // The column is still validated even when the vocabulary is empty.
    let other =
        DataFrame::new(1, vec![Column::from(Series::new("other".into(), &[""]))]).unwrap();
    assert!(
        v.transform(other)
            .unwrap_err()
            .to_string()
            .contains("not found")
    );

    // `max_df` can also filter the vocabulary down to nothing.
    let df = make_df(&["ab", "ab"]);
    let mut v = CharacterNGramVectorizer::new()
        .column("text")
        .ngram_range(2, 2)
        .max_df(0.5);
    v.fit(df.clone()).unwrap();
    assert_eq!(v.transform(df).unwrap().width(), 0);
}

/// Every invalid configuration surfaces as `Error::InvalidInput` at fit.
#[test]
fn char_ngram_vectorizer_test_fit_validation_errors() {
    let df = make_df(&["hello"]);

    let err = CharacterNGramVectorizer::new().fit(df.clone()).unwrap_err();
    assert!(err.to_string().contains("no column configured"), "{err}");

    let err = CharacterNGramVectorizer::new()
        .column("missing")
        .fit(df.clone())
        .unwrap_err();
    assert!(err.to_string().contains("not found"), "{err}");

    let numeric = DataFrame::new(
        3,
        vec![Column::from(Series::new("text".into(), &[1i32, 2, 3]))],
    )
    .unwrap();
    let err = CharacterNGramVectorizer::new()
        .column("text")
        .fit(numeric)
        .unwrap_err();
    assert!(err.to_string().contains("expected String"), "{err}");

    let no_rows: StringChunked = Vec::<Option<&str>>::new().into_iter().collect();
    let empty_rows = DataFrame::new(0, vec![Column::from(no_rows.into_series())]).unwrap();
    let err = CharacterNGramVectorizer::new()
        .column("text")
        .fit(empty_rows)
        .unwrap_err();
    assert!(err.to_string().contains("empty DataFrame"), "{err}");
    let err = CharacterNGramVectorizer::new()
        .column("text")
        .fit(DataFrame::empty())
        .unwrap_err();
    assert!(err.to_string().contains("empty DataFrame"), "{err}");

    for (lo, hi) in [(0usize, 3usize), (3, 2)] {
        let err = CharacterNGramVectorizer::new()
            .column("text")
            .ngram_range(lo, hi)
            .fit(df.clone())
            .unwrap_err();
        assert!(
            err.to_string().contains("ngram_range"),
            "({lo}, {hi}): {err}"
        );
    }

    let err = CharacterNGramVectorizer::new()
        .column("text")
        .min_df(0)
        .fit(df.clone())
        .unwrap_err();
    assert!(err.to_string().contains("min_df"), "{err}");

    let err = CharacterNGramVectorizer::new()
        .column("text")
        .max_features(0)
        .fit(df.clone())
        .unwrap_err();
    assert!(err.to_string().contains("max_features"), "{err}");

    for p in [0.0f64, 1.5, f64::NAN] {
        let err = CharacterNGramVectorizer::new()
            .column("text")
            .max_df(p)
            .fit(df.clone())
            .unwrap_err();
        assert!(err.to_string().contains("max_df"), "max_df({p}): {err}");
    }
}

/// `transform` validates its own input column too.
#[test]
fn char_ngram_vectorizer_test_transform_validation_errors() {
    let df = make_df(&["hello"]);
    let mut v = CharacterNGramVectorizer::new()
        .column("text")
        .ngram_range(2, 2);
    v.fit(df).unwrap();

    let err = v
        .transform(
            DataFrame::new(
                1,
                vec![Column::from(Series::new("other".into(), &["hello"]))],
            )
            .unwrap(),
        )
        .unwrap_err();
    assert!(err.to_string().contains("not found"), "{err}");

    let numeric =
        DataFrame::new(1, vec![Column::from(Series::new("text".into(), &[1i32]))]).unwrap();
    let err = v.transform(numeric).unwrap_err();
    assert!(err.to_string().contains("expected String"), "{err}");
}

/// `CharOnly` collapses runs of whitespace into one space, so repeated
/// separators do not add terms; a lone whitespace character is kept as-is.
#[test]
fn test_char_only_collapses_whitespace_runs() {
    let mut v = CharacterNGramVectorizer::new()
        .column("text")
        .ngram_range(2, 3);
    v.fit(make_df(&["a  b"])).unwrap();
    let out = v.transform(make_df(&["a  b"])).unwrap();
    let names: Vec<&str> = out.get_column_names().iter().map(|n| n.as_str()).collect();
    assert_eq!(names, vec![" b", "a ", "a b"]);
    assert_eq!(column_sum(&out, "a "), 1.0);

    // A run of any whitespace characters collapses the same way.
    let out = v.transform(make_df(&["a\t\nb"])).unwrap();
    let names: Vec<&str> = out.get_column_names().iter().map(|n| n.as_str()).collect();
    assert_eq!(names, vec![" b", "a ", "a b"]);

    // A single whitespace character is not a run and is preserved.
    let mut single = CharacterNGramVectorizer::new()
        .column("text")
        .ngram_range(2, 2);
    single.fit(make_df(&["a\tb"])).unwrap();
    let out = single.transform(make_df(&["a\tb"])).unwrap();
    assert_eq!(out.width(), 2);
    assert_eq!(column_sum(&out, "a\t"), 1.0);
}

/// Under `CharWb` a word shorter than the lower n-gram bound contributes no
/// terms, so every emitted term has a length inside `ngram_range`.
#[test]
fn test_char_wb_short_word_yields_no_terms() {
    let df = make_df(&["i am here"]);
    let mut v = CharacterNGramVectorizer::new()
        .column("text")
        .analyzer(Analyzer::CharWb)
        .ngram_range(5, 5);
    v.fit(df.clone()).unwrap();
    let out = v.transform(df).unwrap();

    // " i " (3 chars) and " am " (4 chars) are too short for a 5-gram; only
    // " here " (6 chars) is long enough: " here" and "here ".
    let names: Vec<&str> = out.get_column_names().iter().map(|n| n.as_str()).collect();
    assert_eq!(names, vec![" here", "here "]);
}

/// Changing any configuration invalidates the learned vocabulary.
#[test]
fn char_ngram_vectorizer_test_setter_invalidates_fitted_state() {
    let df = make_df(&["hello"]);
    let mut v = CharacterNGramVectorizer::new()
        .column("text")
        .ngram_range(2, 2);
    v.fit(df.clone()).unwrap();
    assert_eq!(v.transform(df.clone()).unwrap().width(), 4);

    let v = v.ngram_range(2, 3);
    let err = v.transform(df).unwrap_err().to_string();
    assert!(err.contains("not fitted"), "{err}");
}
