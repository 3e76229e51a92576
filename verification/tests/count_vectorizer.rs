#![allow(dead_code, unused_imports)]

use featrs::double::Double;
use featrs::error::Error as Fault;
use featrs::error::Kind;
use featrs::frame::Cells;
use featrs::frame::Column as FrameColumn;
use featrs::frame::Frame;
use featrs::frame::Number;
use featrs::frame::Resolution;
use featrs::frame::Sheet;
use featrs::frame::Values;
use featrs::preprocessing::text::count_vectorizer::CountVectorizer as InnerCountVectorizer;
use featrs::preprocessing::text::count_vectorizer::Tokenizer as InnerTokenizer;
use featrs::program::Operation;
use featrs::program::Program;
use featrs::program::Query;
use featrs::text::Text;
use polars::prelude::AnyValue;
use polars::prelude::ChunkAgg;
use polars::prelude::Column;
use polars::prelude::DataFrame;
use polars::prelude::DataType;
use polars::prelude::IntoSeries;
use polars::prelude::NamedFrom;
use polars::prelude::PolarsError;
use polars::prelude::Series;
use polars::prelude::StringChunked;
use polars::prelude::TimeUnit;
use statrs::function::gamma::digamma;
use std::fmt;

/// What a transformer reports.
#[derive(Debug)]
pub enum Error {
    InvalidInput(String),
    NotFitted(String),
    Computation(String),
}

impl fmt::Display for Error {
    fn fmt(&self, f: &mut fmt::Formatter<'_>) -> fmt::Result {
        match self {
            Error::InvalidInput(message) => f.write_str(&format!("invalid input: {message}")),
            Error::NotFitted(message) => f.write_str(&format!("not fitted: {message}")),
            Error::Computation(message) => f.write_str(&format!("computation error: {message}")),
        }
    }
}

impl From<Fault> for Error {
    fn from(e: Fault) -> Self {
        let mut message: String = e.message().chars.iter().collect();
        if let Some(d) = e.number() {
            message.push_str(&f64::from_bits(d.bits).to_string());
        }
        match e.kind() {
            Kind::InvalidInput => Error::InvalidInput(message),
            Kind::NotFitted => Error::NotFitted(message),
            Kind::Computation => Error::Computation(message),
        }
    }
}

pub type Result<T> = std::result::Result<T, Error>;

/// Learns from a frame.
pub trait Fit<X> {
    type Output;
    fn fit(&mut self, x: X) -> Result<Self::Output>;
}

/// Learns from a frame and a target.
pub trait FitSupervised<X, Y> {
    type Output;
    fn fit(&mut self, x: X, y: Y) -> Result<Self::Output>;
}

/// Makes a frame of a frame.
pub trait Transform<X> {
    type Output;
    fn transform(&self, x: X) -> Result<Self::Output>;
}

/// A number by its bits.
pub fn double(v: f64) -> Double {
    Double { bits: v.to_bits() }
}

/// A number from its bits.
pub fn float(d: Double) -> f64 {
    f64::from_bits(d.bits)
}

/// A text as a string.
pub fn string(t: &Text) -> String {
    t.chars.iter().collect()
}

/// The cells of a series.
fn values_of(s: &Series) -> Result<Values> {
    let failed = |e: PolarsError| Error::Computation(e.to_string());
    Ok(match s.dtype() {
        DataType::String => Values::Text(
            s.str().map_err(failed)?.iter().map(|v| v.map(Text::of)).collect(),
        ),
        DataType::Float64 => Values::Float64(
            s.f64().map_err(failed)?.iter().map(|v| v.map(double)).collect(),
        ),
        DataType::Date => Values::Date(
            s.to_physical_repr().i32().map_err(failed)?.iter().collect(),
        ),
        DataType::Datetime(unit, _) => {
            let resolution = match unit {
                TimeUnit::Nanoseconds => Resolution::Nanoseconds,
                TimeUnit::Microseconds => Resolution::Microseconds,
                TimeUnit::Milliseconds => Resolution::Milliseconds,
            };
            Values::Datetime(
                resolution,
                s.to_physical_repr().i64().map_err(failed)?.iter().collect(),
            )
        }
        other => Values::Other(Text::of(&other.to_string()), s.len()),
    })
}

/// A column as the library reads it.
pub fn column_of(c: &Column) -> Result<FrameColumn> {
    Ok(FrameColumn::new(c.name().as_str(), values_of(c.as_materialized_series())?))
}

/// A frame as the library reads it.
pub fn frame_of(df: &DataFrame) -> Result<Frame> {
    let columns = df.columns().iter().map(column_of).collect::<Result<Vec<FrameColumn>>>()?;
    Ok(Frame::new(df.height(), columns)?)
}

/// The results of a program, front to back.
pub fn evaluate(program: &Program) -> Vec<f64> {
    let mut r: Vec<f64> = Vec::with_capacity(program.len());
    for i in 0..program.len() {
        let value = match program.operation(i) {
            Operation::Value(d) => float(d),
            Operation::Natural(n) => n as f64,
            Operation::Integer(n) => n as f64,
            Operation::FullTurn => 2.0 * std::f64::consts::PI,
            Operation::Plus(a, b) => r[a] + r[b],
            Operation::Minus(a, b) => r[a] - r[b],
            Operation::Times(a, b) => r[a] * r[b],
            Operation::Over(a, b) => r[a] / r[b],
            Operation::Power(a, b) => r[a].powf(r[b]),
            Operation::Square(a) => r[a] * r[a],
            Operation::Root(a) => r[a].sqrt(),
            Operation::Magnitude(a) => r[a].abs(),
            Operation::Lesser(a, b) => r[a].min(r[b]),
            Operation::Greater(a, b) => r[a].max(r[b]),
            Operation::Sine(a) => r[a].sin(),
            Operation::Cosine(a) => r[a].cos(),
            Operation::Logarithm(a) => r[a].ln(),
            Operation::Digamma(a) => digamma(r[a]),
            Operation::Scaled(a, b) => {
                if r[b] > 0.0 {
                    r[a] / r[b]
                } else {
                    r[a]
                }
            }
        };
        r.push(value);
    }
    r
}

/// The results of a program as the library takes them.
pub fn results(program: &Program) -> Vec<Double> {
    evaluate(program).into_iter().map(double).collect()
}

/// The answers to a query.
pub fn answers(query: &Query) -> Vec<Double> {
    let r = evaluate(query.program());
    query.places().iter().map(|&at| double(r[at])).collect()
}

/// A finished sheet as a frame.
pub fn table(sheet: &Sheet, x: &DataFrame) -> Result<DataFrame> {
    let r = evaluate(&sheet.program);
    let mut columns: Vec<Column> = Vec::with_capacity(sheet.columns.len());
    for c in &sheet.columns {
        let name = string(&c.name);
        columns.push(match &c.cells {
            Cells::Kept(i) => x.columns()[*i].clone(),
            Cells::UInt32(cells) => {
                Column::from(Series::new(name.as_str().into(), cells.as_slice()))
            }
            Cells::Float64(cells) => {
                let values: Vec<Option<f64>> = cells
                    .iter()
                    .map(|cell| {
                        cell.map(|n| match n {
                            Number::Known(d) => float(d),
                            Number::Natural(n) => n as f64,
                            Number::Register(at) => r[at],
                        })
                    })
                    .collect();
                Column::from(Series::new(name.as_str().into(), values.as_slice()))
            }
        });
    }
    DataFrame::new(sheet.height, columns).map_err(|e| Error::Computation(e.to_string()))
}

/// How a document is split into tokens.
#[derive(Clone, Debug, PartialEq, Eq)]
pub enum Tokenizer {
    Whitespace,
    WordRegex(String),
}

impl Default for Tokenizer {
    fn default() -> Self {
        Tokenizer::Whitespace
    }
}

/// [`InnerCountVectorizer`] on frames of polars.
pub struct CountVectorizer(InnerCountVectorizer);

impl CountVectorizer {
    pub fn new() -> Self {
        Self(InnerCountVectorizer::new())
    }

    pub fn column(self, c: &str) -> Self {
        Self(self.0.column(c))
    }

    pub fn ngram_range(self, lo: usize, hi: usize) -> Self {
        Self(self.0.ngram_range(lo, hi))
    }

    pub fn max_features(self, n: usize) -> Self {
        Self(self.0.max_features(n))
    }

    pub fn min_df(self, n: usize) -> Self {
        Self(self.0.min_df(n))
    }

    pub fn max_df(self, p: f64) -> Self {
        Self(self.0.max_df(double(p)))
    }

    pub fn lowercase(self, b: bool) -> Self {
        Self(self.0.lowercase(b))
    }

    pub fn stop_words(self, words: Vec<String>) -> Self {
        Self(self.0.stop_words(words.iter().map(|w| Text::of(w)).collect()))
    }

    pub fn tokenizer(self, t: Tokenizer) -> Self {
        Self(self.0.tokenizer(match t {
            Tokenizer::Whitespace => InnerTokenizer::Whitespace,
            Tokenizer::WordRegex(pattern) => InnerTokenizer::WordRegex(Text::of(&pattern)),
        }))
    }

    pub fn vocabulary(&self) -> Option<Vec<String>> {
        self.0.vocabulary().map(|terms| terms.iter().map(string).collect())
    }
}

impl Default for CountVectorizer {
    fn default() -> Self {
        Self(InnerCountVectorizer::default())
    }
}

impl Fit<DataFrame> for CountVectorizer {
    type Output = ();

    fn fit(&mut self, x: DataFrame) -> Result<()> {
        let plan = self.0.fit(&frame_of(&x)?)?;
        self.0.finish_fit(&plan, &results(plan.program()));
        Ok(())
    }
}

impl Transform<DataFrame> for CountVectorizer {
    type Output = DataFrame;

    fn transform(&self, x: DataFrame) -> Result<DataFrame> {
        table(&self.0.transform(&frame_of(&x)?)?, &x)
    }
}

fn make_df(docs: &[&str]) -> DataFrame {
    let col = Column::from(Series::new("text".into(), docs));
    DataFrame::new(docs.len(), vec![col]).unwrap()
}

/// Fit `v` on `docs`, returning the fitted vectorizer and the frame itself.
fn fit_on(docs: &[&str], mut v: CountVectorizer) -> (CountVectorizer, DataFrame) {
    let df = make_df(docs);
    v.fit(df.clone()).unwrap();
    (v, df)
}

fn names(df: &DataFrame) -> Vec<&str> {
    df.get_column_names().iter().map(|n| n.as_str()).collect()
}

fn values(df: &DataFrame, name: &str) -> Vec<f64> {
    let ca = df
        .column(name)
        .unwrap()
        .as_materialized_series()
        .f64()
        .unwrap()
        .clone();
    (0..df.height()).map(|i| ca.get(i).unwrap()).collect()
}

/// The issue's corpus: six terms, ranked by corpus frequency with
/// alphabetical ties, and the exact per-document counts.
#[test]
fn test_small_corpus_counts_and_vocabulary_order() {
    let (v, df) = fit_on(
        &["the cat sat", "the dog ran", "cat and dog"],
        CountVectorizer::new().column("text"),
    );
    let out = v.transform(df).unwrap();

    assert_eq!(out.height(), 3);
    assert_eq!(out.width(), 6);
    // "cat", "dog" and "the" each occur twice; the tie is alphabetical.
    assert_eq!(names(&out), vec!["cat", "dog", "the", "and", "ran", "sat"]);
    assert_eq!(values(&out, "the"), vec![1.0, 1.0, 0.0]);
    assert_eq!(values(&out, "cat"), vec![1.0, 0.0, 1.0]);
    assert_eq!(values(&out, "sat"), vec![1.0, 0.0, 0.0]);
    assert_eq!(values(&out, "dog"), vec![0.0, 1.0, 1.0]);
    assert_eq!(values(&out, "ran"), vec![0.0, 1.0, 0.0]);
    assert_eq!(values(&out, "and"), vec![0.0, 0.0, 1.0]);
}

/// `transform` returns only vocabulary columns, not the input text column.
#[test]
fn test_text_column_is_not_carried_over() {
    let (v, df) = fit_on(&["the cat sat"], CountVectorizer::new().column("text"));
    let out = v.transform(df).unwrap();
    assert!(out.column("text").is_err());
    assert_eq!(out.width(), 3);
}

/// `min_df` filters on document frequency.
#[test]
fn test_min_df_filters_rare_terms() {
    let corpus = ["the cat sat", "the dog ran", "cat and dog"];

    let (v, df) = fit_on(&corpus, CountVectorizer::new().column("text").min_df(2));
    let out = v.transform(df).unwrap();
    assert_eq!(names(&out), vec!["cat", "dog", "the"]);

    // A threshold above the number of documents keeps nothing.
    let (v, df) = fit_on(&corpus, CountVectorizer::new().column("text").min_df(4));
    let out = v.transform(df).unwrap();
    assert_eq!(out.width(), 0);
    assert_eq!(out.height(), 0);
}

/// `max_df` filters on the fraction of documents a term appears in; a term
/// in exactly `max_df` of the documents is kept (`<=`).
#[test]
fn test_max_df_filters_common_terms() {
    let corpus = ["the cat sat", "the dog ran", "cat and dog"];

    let (v, df) = fit_on(&corpus, CountVectorizer::new().column("text").max_df(0.5));
    let out = v.transform(df).unwrap();
    assert_eq!(names(&out), vec!["and", "ran", "sat"]);

    // The default 1.0 filters nothing.
    let (v, df) = fit_on(&corpus, CountVectorizer::new().column("text").max_df(1.0));
    assert_eq!(v.transform(df).unwrap().width(), 6);

    // A threshold below every observed frequency keeps nothing.
    let (v, df) = fit_on(&corpus, CountVectorizer::new().column("text").max_df(0.01));
    assert_eq!(v.transform(df).unwrap().width(), 0);

    // Two documents, a term in both: kept at 1.0, dropped at 0.5.
    let pair = ["cat dog", "cat"];
    let (v, df) = fit_on(&pair, CountVectorizer::new().column("text").max_df(1.0));
    assert_eq!(v.transform(df).unwrap().width(), 2);
    let (v, df) = fit_on(&pair, CountVectorizer::new().column("text").max_df(0.5));
    let out = v.transform(df).unwrap();
    assert_eq!(names(&out), vec!["dog"]);
}

/// `max_features` ranks by corpus frequency and breaks ties alphabetically.
#[test]
fn test_max_features_keeps_most_frequent_terms() {
    let corpus = ["the cat sat", "the dog ran", "cat and dog"];
    let (v, df) = fit_on(
        &corpus,
        CountVectorizer::new().column("text").max_features(2),
    );
    let out = v.transform(df).unwrap();
    // Three terms tie at two occurrences; the first two alphabetically win.
    assert_eq!(names(&out), vec!["cat", "dog"]);
    assert_eq!(values(&out, "cat"), vec![1.0, 0.0, 1.0]);
    assert_eq!(values(&out, "dog"), vec![0.0, 1.0, 1.0]);
}

/// `ngram_range(1, 2)` emits unigrams and bigrams; the default is unigrams.
#[test]
fn test_ngram_range_adds_bigrams() {
    let (v, df) = fit_on(
        &["the cat sat"],
        CountVectorizer::new().column("text").ngram_range(1, 2),
    );
    let out = v.transform(df).unwrap();
    assert_eq!(names(&out), vec!["cat", "cat sat", "sat", "the", "the cat"]);
    assert_eq!(values(&out, "the cat"), vec![1.0]);
    assert_eq!(values(&out, "cat sat"), vec![1.0]);

    let (v, df) = fit_on(&["the cat sat"], CountVectorizer::new().column("text"));
    assert_eq!(names(&v.transform(df).unwrap()), vec!["cat", "sat", "the"]);
}

/// A document shorter than the lower n-gram bound contributes no term, so
/// it becomes an all-zero row.
#[test]
fn test_document_shorter_than_ngram_range() {
    let (v, df) = fit_on(
        &["a b", "a"],
        CountVectorizer::new().column("text").ngram_range(2, 2),
    );
    let out = v.transform(df).unwrap();
    assert_eq!(names(&out), vec!["a b"]);
    assert_eq!(values(&out, "a b"), vec![1.0, 0.0]);
}

/// A zero-row transform input keeps the vocabulary width.
#[test]
fn count_vectorizer_test_transform_zero_row_frame() {
    let (v, _) = fit_on(&["cat dog"], CountVectorizer::new().column("text"));
    let no_rows: StringChunked = Vec::<Option<&str>>::new().into_iter().collect();
    let df = DataFrame::new(
        0,
        vec![Column::from(no_rows.into_series().with_name("text".into()))],
    )
    .unwrap();
    let out = v.transform(df).unwrap();
    assert_eq!(out.width(), 2);
    assert_eq!(out.height(), 0);
}

/// Stop words are removed before n-grams are formed, so a term never
/// contains a stop word: the tokens on either side become adjacent and can
/// form a new n-gram.
#[test]
fn test_stop_words_are_removed_before_ngram_formation() {
    let (v, df) = fit_on(
        &["the cat sat"],
        CountVectorizer::new()
            .column("text")
            .stop_words(vec!["the".to_string()])
            .ngram_range(1, 2),
    );
    let out = v.transform(df).unwrap();
    assert_eq!(names(&out), vec!["cat", "cat sat", "sat"]);
    assert!(out.column("the").is_err());
    assert!(out.column("the cat").is_err());

    // Removing "the" joins its neighbours, so "big" and "cat" become a
    // bigram that the unfiltered corpus would not produce.
    let (v, _) = fit_on(
        &["big the cat"],
        CountVectorizer::new()
            .column("text")
            .stop_words(vec!["the".to_string()])
            .ngram_range(1, 2),
    );
    let out = v.transform(make_df(&["big the cat"])).unwrap();
    assert_eq!(names(&out), vec!["big", "big cat", "cat"]);
    assert_eq!(values(&out, "big cat"), vec![1.0]);
}

/// Repeats inside one document are counted, not collapsed.
#[test]
fn test_repeated_terms_are_counted_per_document() {
    let (v, df) = fit_on(
        &["cat cat cat", "cat"],
        CountVectorizer::new().column("text"),
    );
    let out = v.transform(df).unwrap();
    assert_eq!(names(&out), vec!["cat"]);
    assert_eq!(values(&out, "cat"), vec![3.0, 1.0]);
}

/// Terms absent from the vocabulary are dropped at transform time.
#[test]
fn count_vectorizer_test_unknown_terms_are_dropped_at_transform() {
    let (v, _) = fit_on(&["hello world"], CountVectorizer::new().column("text"));
    let out = v.transform(make_df(&["goodbye world"])).unwrap();
    assert_eq!(names(&out), vec!["hello", "world"]);
    assert_eq!(values(&out, "hello"), vec![0.0]);
    assert_eq!(values(&out, "world"), vec![1.0]);
}

/// `transform` accepts a frame with a different number of rows than `fit`.
#[test]
fn test_transform_accepts_a_different_frame() {
    let (v, _) = fit_on(&["cat dog"], CountVectorizer::new().column("text"));
    let out = v.transform(make_df(&["dog", "cat cat"])).unwrap();
    assert_eq!(out.height(), 2);
    assert_eq!(values(&out, "cat"), vec![0.0, 2.0]);
    assert_eq!(values(&out, "dog"), vec![1.0, 0.0]);
}

/// Empty and whitespace-only documents produce all-zero rows.
#[test]
fn test_empty_and_whitespace_documents_are_zero_rows() {
    let (v, df) = fit_on(
        &["cat", "", "   ", "dog cat"],
        CountVectorizer::new().column("text"),
    );
    let out = v.transform(df).unwrap();
    assert_eq!(names(&out), vec!["cat", "dog"]);
    assert_eq!(values(&out, "cat"), vec![1.0, 0.0, 0.0, 1.0]);
    assert_eq!(values(&out, "dog"), vec![0.0, 0.0, 0.0, 1.0]);
}

/// A corpus with no tokens at all still fits, and transforms to 0x0.
#[test]
fn test_all_empty_corpus_yields_empty_frame() {
    let (v, df) = fit_on(&["", "  \t"], CountVectorizer::new().column("text"));
    let out = v.transform(df).unwrap();
    assert_eq!(out.width(), 0);
    assert_eq!(out.height(), 0);

    // The input column is still validated when the vocabulary is empty.
    let other =
        DataFrame::new(1, vec![Column::from(Series::new("other".into(), &[""]))]).unwrap();
    let err = v.transform(other).unwrap_err().to_string();
    assert!(err.contains("not found"), "{err}");
}

/// A single-document corpus gives every term a document frequency of 1.
#[test]
fn test_single_document() {
    let (v, df) = fit_on(&["cat dog cat"], CountVectorizer::new().column("text"));
    let out = v.transform(df).unwrap();
    assert_eq!(names(&out), vec!["cat", "dog"]);
    assert_eq!(values(&out, "cat"), vec![2.0]);
    assert_eq!(values(&out, "dog"), vec![1.0]);

    let (v, df) = fit_on(
        &["cat dog cat"],
        CountVectorizer::new().column("text").min_df(2),
    );
    assert_eq!(v.transform(df).unwrap().width(), 0);
}

/// `Tokenizer::WordRegex` keeps each non-empty pattern match as a token,
/// instead of splitting on whitespace.
#[test]
fn test_word_regex_tokenizer() {
    let corpus = ["hi,there", "hi there"];
    let (v, df) = fit_on(
        &corpus,
        CountVectorizer::new()
            .column("text")
            .tokenizer(Tokenizer::WordRegex(r"\w+".into())),
    );
    let out = v.transform(df).unwrap();
    assert_eq!(names(&out), vec!["hi", "there"]);
    assert_eq!(values(&out, "hi"), vec![1.0, 1.0]);
    assert_eq!(values(&out, "there"), vec![1.0, 1.0]);

    // The whitespace tokenizer keeps "hi,there" as a single token.
    let (v, df) = fit_on(&corpus, CountVectorizer::new().column("text"));
    let out = v.transform(df).unwrap();
    assert_eq!(names(&out), vec!["hi", "hi,there", "there"]);

    // Text the pattern does not match is skipped entirely.
    let (v, df) = fit_on(
        &["abc-123"],
        CountVectorizer::new()
            .column("text")
            .tokenizer(Tokenizer::WordRegex(r"[a-z]+".into())),
    );
    let out = v.transform(df).unwrap();
    assert_eq!(names(&out), vec!["abc"]);
    assert_eq!(values(&out, "abc"), vec![1.0]);
}

/// `lowercase` (on by default) is applied before tokenizing.
#[test]
fn count_vectorizer_test_lowercase_option() {
    let corpus = ["Hello World", "hello world"];

    let (v, df) = fit_on(&corpus, CountVectorizer::new().column("text"));
    let out = v.transform(df).unwrap();
    assert_eq!(names(&out), vec!["hello", "world"]);
    assert_eq!(values(&out, "hello"), vec![1.0, 1.0]);

    let (v, df) = fit_on(
        &corpus,
        CountVectorizer::new().column("text").lowercase(false),
    );
    let out = v.transform(df).unwrap();
    assert_eq!(names(&out), vec!["Hello", "World", "hello", "world"]);
    assert_eq!(values(&out, "Hello"), vec![1.0, 0.0]);
    assert_eq!(values(&out, "hello"), vec![0.0, 1.0]);
}

/// Lowercasing is Unicode-aware, so `É` and `é` fold to one term.
#[test]
fn test_unicode_lowercasing() {
    let (v, df) = fit_on(
        &["Café CAFÉ", "café"],
        CountVectorizer::new().column("text"),
    );
    let out = v.transform(df).unwrap();
    assert_eq!(names(&out), vec!["café"]);
    assert_eq!(values(&out, "café"), vec![2.0, 1.0]);
}

/// Null cells yield no tokens but still count in the `min_df` denominator.
#[test]
fn test_null_documents_are_empty_but_still_count_as_documents() {
    let ca: StringChunked = [Some("cat dog"), None, Some("cat")].into_iter().collect();
    let df = DataFrame::new(
        3,
        vec![Column::from(ca.into_series().with_name("text".into()))],
    )
    .unwrap();

    let mut v = CountVectorizer::new().column("text").min_df(2);
    v.fit(df.clone()).unwrap();
    let out = v.transform(df).unwrap();
    // "cat" is in 2 of the 3 documents; the null row still counts as one.
    assert_eq!(names(&out), vec!["cat"]);
    assert_eq!(values(&out, "cat"), vec![1.0, 0.0, 1.0]);
}

/// `transform` before `fit` reports `NotFitted`, and a failed re-fit clears
/// the state learned by an earlier successful fit.
#[test]
fn count_vectorizer_test_not_fitted_and_failed_refit_resets_state() {
    let df = make_df(&["cat dog"]);
    let mut v = CountVectorizer::new().column("text");
    let err = v.transform(df.clone()).unwrap_err().to_string();
    assert!(err.contains("not fitted"), "{err}");

    v.fit(df.clone()).unwrap();
    assert_eq!(v.transform(df.clone()).unwrap().width(), 2);

    let other = Column::from(Series::new("other".into(), &["cat dog"]));
    assert!(v.fit(DataFrame::new(1, vec![other]).unwrap()).is_err());
    let err = v.transform(df).unwrap_err().to_string();
    assert!(
        err.contains("not fitted"),
        "stale state after failed refit: {err}"
    );
}

/// Every configuration change invalidates the learned vocabulary.
#[test]
fn count_vectorizer_test_setter_invalidates_fitted_state() {
    let df = make_df(&["cat dog"]);
    let mut v = CountVectorizer::new().column("text");
    v.fit(df.clone()).unwrap();
    assert_eq!(v.transform(df.clone()).unwrap().width(), 2);

    let v = v.max_features(1);
    let err = v.transform(df).unwrap_err().to_string();
    assert!(err.contains("not fitted"), "{err}");
}

/// Every invalid configuration surfaces as `Error::InvalidInput` at fit.
#[test]
fn count_vectorizer_test_fit_validation_errors() {
    let df = make_df(&["cat dog"]);

    let err = CountVectorizer::new().fit(df.clone()).unwrap_err();
    assert!(err.to_string().contains("no column configured"), "{err}");

    let err = CountVectorizer::new()
        .column("missing")
        .fit(df.clone())
        .unwrap_err();
    assert!(err.to_string().contains("not found"), "{err}");

    let numeric = DataFrame::new(
        3,
        vec![Column::from(Series::new("text".into(), &[1i32, 2, 3]))],
    )
    .unwrap();
    let err = CountVectorizer::new()
        .column("text")
        .fit(numeric)
        .unwrap_err();
    assert!(err.to_string().contains("expected String"), "{err}");

    let no_rows: StringChunked = Vec::<Option<&str>>::new().into_iter().collect();
    let empty_rows = DataFrame::new(0, vec![Column::from(no_rows.into_series())]).unwrap();
    let err = CountVectorizer::new()
        .column("text")
        .fit(empty_rows)
        .unwrap_err();
    assert!(err.to_string().contains("empty DataFrame"), "{err}");
    let err = CountVectorizer::new()
        .column("text")
        .fit(DataFrame::empty())
        .unwrap_err();
    assert!(err.to_string().contains("empty DataFrame"), "{err}");

    for (lo, hi) in [(0usize, 3usize), (3, 2)] {
        let err = CountVectorizer::new()
            .column("text")
            .ngram_range(lo, hi)
            .fit(df.clone())
            .unwrap_err();
        assert!(
            err.to_string().contains("ngram_range"),
            "({lo}, {hi}): {err}"
        );
    }

    let err = CountVectorizer::new()
        .column("text")
        .min_df(0)
        .fit(df.clone())
        .unwrap_err();
    assert!(err.to_string().contains("min_df"), "{err}");

    let err = CountVectorizer::new()
        .column("text")
        .max_features(0)
        .fit(df.clone())
        .unwrap_err();
    assert!(err.to_string().contains("max_features"), "{err}");

    for p in [0.0f64, 1.5, f64::NAN] {
        let err = CountVectorizer::new()
            .column("text")
            .max_df(p)
            .fit(df.clone())
            .unwrap_err();
        assert!(err.to_string().contains("max_df"), "max_df({p}): {err}");
    }

    for pattern in ["(", "[a-"] {
        let err = CountVectorizer::new()
            .column("text")
            .tokenizer(Tokenizer::WordRegex(pattern.into()))
            .fit(df.clone())
            .unwrap_err();
        assert!(
            err.to_string().contains("invalid regex"),
            "{pattern}: {err}"
        );
    }
}

/// `transform` validates its own input column too.
#[test]
fn count_vectorizer_test_transform_validation_errors() {
    let (v, _) = fit_on(&["cat dog"], CountVectorizer::new().column("text"));

    let other =
        DataFrame::new(1, vec![Column::from(Series::new("other".into(), &["cat"]))]).unwrap();
    let err = v.transform(other).unwrap_err();
    assert!(err.to_string().contains("not found"), "{err}");

    let numeric =
        DataFrame::new(1, vec![Column::from(Series::new("text".into(), &[1i32]))]).unwrap();
    let err = v.transform(numeric).unwrap_err();
    assert!(err.to_string().contains("expected String"), "{err}");
}
