//! Errors.

use crate::double::Double;
use crate::text;
use crate::text::Text;
use vstd::prelude::*;

verus! {

/// What went wrong.
#[derive(Clone, Copy, Debug, PartialEq, Eq, Structural)]
pub enum Problem {
    /// A frame has more rows than it may have.
    TooManyRows,
    /// A column does not have the frame's height.
    UnequalLengths,
    /// Two columns have the same name.
    DuplicateName,
    /// The transformer has not been fitted.
    NotFitted,
    /// The frame has no rows.
    NoRows,
    /// The frame has no columns.
    NoColumns,
    /// The frame has no text column with a value.
    NoTextColumns,
    /// A column is not in the frame.
    ColumnNotFound,
    /// A column does not hold texts.
    ExpectedText,
    /// The name of a generated column is taken.
    NameTaken,
    /// A single column was expected; how many there are.
    ExpectedOneColumn(usize),
    /// A column has no values.
    NoValues,
    /// The frame has no rows or no columns.
    EmptyFrame,
    /// The smoothing strength is negative or not finite.
    InvalidSmoothing(Double),
    /// A single target column was expected; how many there are.
    ExpectedOneTarget(usize),
    /// The features and the target have different numbers of rows.
    RowsDiffer(usize, usize),
    /// A column does not hold double-precision numbers.
    ExpectedFloat64,
    /// The target has no finite value.
    NoUsableTarget,
    /// The mean of the target is not finite.
    NonFiniteMean,
    /// A category would be encoded as a number that is not finite.
    NonFiniteEncoding,
    /// The frame has no column of dates or times.
    NoDateColumns,
    /// A column does not hold dates or times.
    ExpectedDate,
    /// No column is configured.
    NoColumnConfigured,
    /// The range of n-gram lengths is not a range from one up.
    InvalidRange(usize, usize),
    /// The least number of documents is zero.
    InvalidMinDf,
    /// The greatest number of terms is zero.
    InvalidMaxFeatures,
    /// The greatest share of documents is not in `(0, 1]`.
    InvalidMaxDf(Double),
    /// A pattern is not a regular expression.
    InvalidPattern,
    /// The frame is not the one that the encoder was fitted to.
    NotTrainingFrame,
    /// The frame has no column of double-precision numbers.
    NoFloat64Columns,
    /// No columns were given.
    NoColumnsGiven,
    /// The window has fewer rows than two; how many.
    InvalidWindow(usize),
    /// A period is less than one.
    InvalidPeriod,
    /// The threshold is not finite.
    NonFiniteThreshold(Double),
    /// The name of a generated column is that of another one.
    NameRepeated,
    /// The smoothing factor is not in `(0, 1]`.
    InvalidAlpha(Double),
    /// The span is less than one.
    InvalidSpan(Double),
    /// The center of mass is less than zero.
    InvalidCom(Double),
    /// The half-life is zero or less.
    InvalidHalfLife(Double),
    /// The smoothing gives no factor in `(0, 1]`.
    NonFiniteAlpha(Double),
    /// A selected column is not in the frame.
    SelectedNotFound,
    /// A column is selected twice.
    SelectedTwice,
    /// The target has fewer classes than two; how many.
    TooFewClasses(usize),
    /// The rows with a value of a column have one class only.
    OneClass,
    /// The number of features to keep is zero.
    InvalidCount,
    /// There is no column to score.
    NothingToScore,
    /// The percentage is not in `(0, 100]`.
    InvalidPercentile(Double),
    /// There are fewer bins than two; how many.
    InvalidBins(usize),
    /// A column has no finite value.
    NoFiniteValues,
    /// A column collapses to a single bin, which would be dropped.
    SingleBin,
    /// Two columns of the result have the same name.
    ResultRepeats,
    /// Numbers were expected where a column holds something else.
    ExpectedNumbers,
}

/// The kinds of errors.
#[derive(Clone, Copy, Debug, PartialEq, Eq, Structural)]
pub enum Kind {
    /// The input or the configuration cannot be used.
    InvalidInput,
    /// The transformer has not been fitted.
    NotFitted,
    /// A number that was computed cannot be used.
    Computation,
}

/// The kind of a problem.
pub open spec fn kind_of(problem: Problem) -> Kind {
    match problem {
        Problem::NotFitted => Kind::NotFitted,
        Problem::SelectedNotFound => Kind::Computation,
        Problem::SelectedTwice => Kind::Computation,
        Problem::NoFiniteValues => Kind::Computation,
        Problem::ResultRepeats => Kind::Computation,
        Problem::ExpectedNumbers => Kind::Computation,
        _ => Kind::InvalidInput,
    }
}

/// The number that a problem is about.
pub open spec fn number_of(problem: Problem) -> Option<Double> {
    match problem {
        Problem::InvalidSmoothing(d) => Some(d),
        Problem::InvalidMaxDf(d) => Some(d),
        Problem::NonFiniteThreshold(d) => Some(d),
        Problem::InvalidAlpha(d) => Some(d),
        Problem::InvalidSpan(d) => Some(d),
        Problem::InvalidCom(d) => Some(d),
        Problem::InvalidHalfLife(d) => Some(d),
        Problem::NonFiniteAlpha(d) => Some(d),
        Problem::InvalidPercentile(d) => Some(d),
        _ => None,
    }
}

/// What is said of a problem: before, between and after what is inserted.
pub open spec fn wording_of(problem: Problem) -> (Seq<char>, Seq<char>, Seq<char>) {
    match problem {
        Problem::TooManyRows => ("the frame has more rows than a frame can have."@, ""@, ""@),
        Problem::UnequalLengths => ("column '"@, "' does not have the height of the frame."@, ""@),
        Problem::DuplicateName => ("two columns are named '"@, "'."@, ""@),
        Problem::NotFitted => ("has not been fitted. Call .fit() before .transform()."@, ""@, ""@),
        Problem::NoRows => ("received a DataFrame with 0 rows. Provide at least one row."@, ""@, ""@),
        Problem::NoColumns => ("received a DataFrame with 0 columns. Provide at least one column."@, ""@, ""@),
        Problem::NoTextColumns => ("no String columns found. Cast categorical columns to String first."@, ""@, ""@),
        Problem::ColumnNotFound => ("column '"@, "' not found."@, ""@),
        Problem::ExpectedText => ("column '"@, "' has dtype "@, "; expected String."@),
        Problem::NameTaken => ("generated column '"@, "' collides with an existing column or another generated column."@, ""@),
        Problem::ExpectedOneColumn(_) => ("expects a single column but got "@, " columns."@, ""@),
        Problem::NoValues => ("column '"@, "' has no non-null values."@, ""@),
        Problem::EmptyFrame => ("received an empty DataFrame (0 rows or 0 columns)."@, ""@, ""@),
        Problem::InvalidSmoothing(_) => ("alpha must be finite and >= 0, got "@, ""@, ""@),
        Problem::ExpectedOneTarget(_) => ("target must have exactly 1 column but got "@, " columns."@, ""@),
        Problem::RowsDiffer(_, _) => ("feature rows ("@, ") and target rows ("@, ") don't match."@),
        Problem::ExpectedFloat64 => ("column '"@, "' has dtype "@, "; expected Float64."@),
        Problem::NoUsableTarget => ("target column contains no non-null, finite values."@, ""@, ""@),
        Problem::NonFiniteMean => ("target values accumulate to a non-finite global mean."@, ""@, ""@),
        Problem::NonFiniteEncoding => ("column '"@, "' would encode to a non-finite value for category '"@, "'."@),
        Problem::NoDateColumns => ("no Date or Datetime columns found."@, ""@, ""@),
        Problem::ExpectedDate => ("column '"@, "' has dtype "@, "; expected Date or Datetime."@),
        Problem::NoColumnConfigured => ("no column configured."@, ""@, ""@),
        Problem::InvalidRange(_, _) => ("invalid ngram_range ("@, ", "@, "); require 1 <= lower <= upper."@),
        Problem::InvalidMinDf => ("min_df must be >= 1."@, ""@, ""@),
        Problem::InvalidMaxFeatures => ("max_features must be >= 1."@, ""@, ""@),
        Problem::InvalidMaxDf(_) => ("max_df must be in (0.0, 1.0], got "@, ""@, ""@),
        Problem::InvalidPattern => ("invalid regex pattern '"@, "'."@, ""@),
        Problem::NotTrainingFrame => ("the frame is not the one that was fitted. Use transform_unseen for other frames."@, ""@, ""@),
        Problem::NoFloat64Columns => ("no Float64 columns found. Available columns: ["@, "]."@, ""@),
        Problem::NoColumnsGiven => ("at least one column is required."@, ""@, ""@),
        Problem::InvalidWindow(_) => ("window_size must be >= 2, got "@, "."@, ""@),
        Problem::InvalidPeriod => ("period must be >= 1 for column '"@, "'."@, ""@),
        Problem::NonFiniteThreshold(_) => ("received a non-finite threshold: "@, ""@, ""@),
        Problem::NameRepeated => ("generated column '"@, "' collides with another generated column."@, ""@),
        Problem::InvalidAlpha(_) => ("alpha must be in (0, 1], got "@, ""@, ""@),
        Problem::InvalidSpan(_) => ("span must be >= 1, got "@, ""@, ""@),
        Problem::InvalidCom(_) => ("com must be >= 0, got "@, ""@, ""@),
        Problem::InvalidHalfLife(_) => ("half_life must be > 0, got "@, ""@, ""@),
        Problem::NonFiniteAlpha(_) => ("smoothing yields non-finite alpha "@, ""@, ""@),
        Problem::SelectedNotFound => ("selected column '"@, "' not found."@, ""@),
        Problem::SelectedTwice => ("column '"@, "' is selected twice."@, ""@),
        Problem::TooFewClasses(_) => ("the target has "@, " class(es); at least 2 are needed."@, ""@),
        Problem::OneClass => ("column '"@, "' has only one target class after excluding nulls."@, ""@),
        Problem::InvalidCount => ("k must be greater than 0, got 0."@, ""@, ""@),
        Problem::NothingToScore => ("no f64 columns found to score."@, ""@, ""@),
        Problem::InvalidPercentile(_) => ("percentile must be in (0.0, 100.0] but got "@, ""@, ""@),
        Problem::InvalidBins(_) => ("n_bins must be at least 2, got "@, "."@, ""@),
        Problem::NoFiniteValues => ("column '"@, "' has no non-null, finite values."@, ""@),
        Problem::SingleBin => ("column '"@, "' collapses to a single bin, which would be dropped."@, ""@),
        Problem::ResultRepeats => ("two columns of the result are named '"@, "'."@, ""@),
        Problem::ExpectedNumbers => ("expected f64 series for column '"@, "'."@, ""@),
    }
}

/// An error: what went wrong, who found it, and what it is about.
#[derive(Clone, Debug, PartialEq, Eq)]
pub struct Error {
    pub problem: Problem,
    /// The transformer that reports the problem.
    pub who: Text,
    /// The column, name or setting that the problem is about.
    pub subject: Text,
    /// More about the subject: mostly the type of a column.
    pub detail: Text,
}

/// The view of an [`Error`].
#[verifier::ext_equal]
pub struct ErrorView {
    pub problem: Problem,
    pub who: Seq<char>,
    pub subject: Seq<char>,
    pub detail: Seq<char>,
}

impl View for Error {
    type V = ErrorView;

    open spec fn view(&self) -> ErrorView {
        ErrorView {
            problem: self.problem,
            who: self.who@,
            subject: self.subject@,
            detail: self.detail@,
        }
    }
}

impl ErrorView {
    /// A problem about nothing in particular.
    pub open spec fn plain(problem: Problem, who: Seq<char>) -> ErrorView {
        ErrorView { problem, who, subject: Seq::empty(), detail: Seq::empty() }
    }

    /// A problem about a subject.
    pub open spec fn about(problem: Problem, who: Seq<char>, subject: Seq<char>) -> ErrorView {
        ErrorView { problem, who, subject, detail: Seq::empty() }
    }

    /// A problem about a subject, with a detail.
    pub open spec fn detailed(
        problem: Problem,
        who: Seq<char>,
        subject: Seq<char>,
        detail: Seq<char>,
    ) -> ErrorView {
        ErrorView { problem, who, subject, detail }
    }

    /// What is inserted into the wording of the problem.
    pub open spec fn inserts(self) -> (Seq<char>, Seq<char>) {
        match self.problem {
            Problem::ExpectedOneColumn(n) => (text::decimal(n as nat), Seq::empty()),
            Problem::ExpectedOneTarget(n) => (text::decimal(n as nat), Seq::empty()),
            Problem::InvalidWindow(n) => (text::decimal(n as nat), Seq::empty()),
            Problem::TooFewClasses(n) => (text::decimal(n as nat), Seq::empty()),
            Problem::InvalidBins(n) => (text::decimal(n as nat), Seq::empty()),
            Problem::RowsDiffer(a, b) => (text::decimal(a as nat), text::decimal(b as nat)),
            Problem::InvalidRange(a, b) => (text::decimal(a as nat), text::decimal(b as nat)),
            _ => (self.subject, self.detail),
        }
    }

    /// The problem in words.
    pub open spec fn message(self) -> Seq<char> {
        let (before, between, after) = wording_of(self.problem);
        let (first, second) = self.inserts();
        self.who + ": "@ + before + first + between + second + after
    }
}

impl Error {
    /// A problem about nothing in particular.
    pub fn plain(problem: Problem, who: &str) -> (r: Error)
        ensures
            r@ == ErrorView::plain(problem, who@),
    {
        Error { problem, who: Text::of(who), subject: Text::new(), detail: Text::new() }
    }

    /// A problem about a subject.
    pub fn about(problem: Problem, who: &str, subject: &Text) -> (r: Error)
        ensures
            r@ == ErrorView::about(problem, who@, subject@),
    {
        Error { problem, who: Text::of(who), subject: subject.duplicate(), detail: Text::new() }
    }

    /// A problem about a subject, with a detail.
    pub fn detailed(problem: Problem, who: &str, subject: &Text, detail: Text) -> (r: Error)
        ensures
            r@ == ErrorView::detailed(problem, who@, subject@, detail@),
    {
        Error { problem, who: Text::of(who), subject: subject.duplicate(), detail }
    }

    /// The kind of the problem.
    pub fn kind(&self) -> (r: Kind)
        ensures
            r == kind_of(self.problem),
    {
        match self.problem {
            Problem::NotFitted => Kind::NotFitted,
            Problem::SelectedNotFound => Kind::Computation,
            Problem::SelectedTwice => Kind::Computation,
            Problem::NoFiniteValues => Kind::Computation,
            Problem::ResultRepeats => Kind::Computation,
            Problem::ExpectedNumbers => Kind::Computation,
            _ => Kind::InvalidInput,
        }
    }

    /// The number that the problem is about, where it is about one. The
    /// message ends where that number belongs.
    pub fn number(&self) -> (r: Option<Double>)
        ensures
            r == number_of(self.problem),
    {
        match self.problem {
            Problem::InvalidSmoothing(d) => Some(d),
            Problem::InvalidMaxDf(d) => Some(d),
            Problem::NonFiniteThreshold(d) => Some(d),
            Problem::InvalidAlpha(d) => Some(d),
            Problem::InvalidSpan(d) => Some(d),
            Problem::InvalidCom(d) => Some(d),
            Problem::InvalidHalfLife(d) => Some(d),
            Problem::NonFiniteAlpha(d) => Some(d),
            Problem::InvalidPercentile(d) => Some(d),
            _ => None,
        }
    }

    /// The problem in words.
    pub fn message(&self) -> (r: Text)
        ensures
            r@ == self@.message(),
    {
        let (before, between, after) = wording(self.problem);
        let mut r: Text = self.who.duplicate();
        r.push_str(": ");
        r.push_str(before);
        match self.problem {
            Problem::ExpectedOneColumn(n) => {
                r.push_decimal(n as u64);
                r.push_str(between);
            },
            Problem::ExpectedOneTarget(n) => {
                r.push_decimal(n as u64);
                r.push_str(between);
            },
            Problem::InvalidWindow(n) => {
                r.push_decimal(n as u64);
                r.push_str(between);
            },
            Problem::TooFewClasses(n) => {
                r.push_decimal(n as u64);
                r.push_str(between);
            },
            Problem::InvalidBins(n) => {
                r.push_decimal(n as u64);
                r.push_str(between);
            },
            Problem::RowsDiffer(a, b) => {
                r.push_decimal(a as u64);
                r.push_str(between);
                r.push_decimal(b as u64);
            },
            Problem::InvalidRange(a, b) => {
                r.push_decimal(a as u64);
                r.push_str(between);
                r.push_decimal(b as u64);
            },
            _ => {
                r.append(&self.subject);
                r.push_str(between);
                r.append(&self.detail);
            },
        }
        r.push_str(after);
        proof {
            let (first, second) = self@.inserts();
            assert(r@ =~= self.who@ + ": "@ + before@ + first + between@ + second + after@);
        }
        r
    }
}

/// What is said of a problem: before, between and after what is inserted.
fn wording(problem: Problem) -> (r: (&'static str, &'static str, &'static str))
    ensures
        (r.0@, r.1@, r.2@) == wording_of(problem),
{
    match problem {
        Problem::TooManyRows => ("the frame has more rows than a frame can have.", "", ""),
        Problem::UnequalLengths => ("column '", "' does not have the height of the frame.", ""),
        Problem::DuplicateName => ("two columns are named '", "'.", ""),
        Problem::NotFitted => ("has not been fitted. Call .fit() before .transform().", "", ""),
        Problem::NoRows => ("received a DataFrame with 0 rows. Provide at least one row.", "", ""),
        Problem::NoColumns => ("received a DataFrame with 0 columns. Provide at least one column.", "", ""),
        Problem::NoTextColumns => ("no String columns found. Cast categorical columns to String first.", "", ""),
        Problem::ColumnNotFound => ("column '", "' not found.", ""),
        Problem::ExpectedText => ("column '", "' has dtype ", "; expected String."),
        Problem::NameTaken => ("generated column '", "' collides with an existing column or another generated column.", ""),
        Problem::ExpectedOneColumn(_) => ("expects a single column but got ", " columns.", ""),
        Problem::NoValues => ("column '", "' has no non-null values.", ""),
        Problem::EmptyFrame => ("received an empty DataFrame (0 rows or 0 columns).", "", ""),
        Problem::InvalidSmoothing(_) => ("alpha must be finite and >= 0, got ", "", ""),
        Problem::ExpectedOneTarget(_) => ("target must have exactly 1 column but got ", " columns.", ""),
        Problem::RowsDiffer(_, _) => ("feature rows (", ") and target rows (", ") don't match."),
        Problem::ExpectedFloat64 => ("column '", "' has dtype ", "; expected Float64."),
        Problem::NoUsableTarget => ("target column contains no non-null, finite values.", "", ""),
        Problem::NonFiniteMean => ("target values accumulate to a non-finite global mean.", "", ""),
        Problem::NonFiniteEncoding => ("column '", "' would encode to a non-finite value for category '", "'."),
        Problem::NoDateColumns => ("no Date or Datetime columns found.", "", ""),
        Problem::ExpectedDate => ("column '", "' has dtype ", "; expected Date or Datetime."),
        Problem::NoColumnConfigured => ("no column configured.", "", ""),
        Problem::InvalidRange(_, _) => ("invalid ngram_range (", ", ", "); require 1 <= lower <= upper."),
        Problem::InvalidMinDf => ("min_df must be >= 1.", "", ""),
        Problem::InvalidMaxFeatures => ("max_features must be >= 1.", "", ""),
        Problem::InvalidMaxDf(_) => ("max_df must be in (0.0, 1.0], got ", "", ""),
        Problem::InvalidPattern => ("invalid regex pattern '", "'.", ""),
        Problem::NotTrainingFrame => ("the frame is not the one that was fitted. Use transform_unseen for other frames.", "", ""),
        Problem::NoFloat64Columns => ("no Float64 columns found. Available columns: [", "].", ""),
        Problem::NoColumnsGiven => ("at least one column is required.", "", ""),
        Problem::InvalidWindow(_) => ("window_size must be >= 2, got ", ".", ""),
        Problem::InvalidPeriod => ("period must be >= 1 for column '", "'.", ""),
        Problem::NonFiniteThreshold(_) => ("received a non-finite threshold: ", "", ""),
        Problem::NameRepeated => ("generated column '", "' collides with another generated column.", ""),
        Problem::InvalidAlpha(_) => ("alpha must be in (0, 1], got ", "", ""),
        Problem::InvalidSpan(_) => ("span must be >= 1, got ", "", ""),
        Problem::InvalidCom(_) => ("com must be >= 0, got ", "", ""),
        Problem::InvalidHalfLife(_) => ("half_life must be > 0, got ", "", ""),
        Problem::NonFiniteAlpha(_) => ("smoothing yields non-finite alpha ", "", ""),
        Problem::SelectedNotFound => ("selected column '", "' not found.", ""),
        Problem::SelectedTwice => ("column '", "' is selected twice.", ""),
        Problem::TooFewClasses(_) => ("the target has ", " class(es); at least 2 are needed.", ""),
        Problem::OneClass => ("column '", "' has only one target class after excluding nulls.", ""),
        Problem::InvalidCount => ("k must be greater than 0, got 0.", "", ""),
        Problem::NothingToScore => ("no f64 columns found to score.", "", ""),
        Problem::InvalidPercentile(_) => ("percentile must be in (0.0, 100.0] but got ", "", ""),
        Problem::InvalidBins(_) => ("n_bins must be at least 2, got ", ".", ""),
        Problem::NoFiniteValues => ("column '", "' has no non-null, finite values.", ""),
        Problem::SingleBin => ("column '", "' collapses to a single bin, which would be dropped.", ""),
        Problem::ResultRepeats => ("two columns of the result are named '", "'.", ""),
        Problem::ExpectedNumbers => ("expected f64 series for column '", "'.", ""),
    }
}

/// The fault of the first item that has one.
pub open spec fn first_fault<T>(
    items: Seq<T>,
    fault: spec_fn(T) -> Option<ErrorView>,
) -> Option<ErrorView>
    decreases items.len(),
{
    if items.len() == 0 {
        None
    } else {
        match first_fault(items.drop_last(), fault) {
            Some(e) => Some(e),
            None => fault(items.last()),
        }
    }
}

/// Lists whose items have the same faults have the same first one.
pub proof fn lemma_same_faults<T, U>(
    items: Seq<T>,
    fault: spec_fn(T) -> Option<ErrorView>,
    others: Seq<U>,
    other: spec_fn(U) -> Option<ErrorView>,
)
    requires
        items.len() == others.len(),
        forall|k: int|
            0 <= k < items.len() ==> fault(#[trigger] items[k]) == other(#[trigger] others[k]),
    ensures
        first_fault(items, fault) == first_fault(others, other),
    decreases items.len(),
{
    if items.len() > 0 {
        let (front, rest) = (items.drop_last(), others.drop_last());
        assert forall|k: int| 0 <= k < front.len() implies fault(#[trigger] front[k]) == other(
            #[trigger] rest[k],
        ) by {
            assert(front[k] == items[k] && rest[k] == others[k]);
        }
        lemma_same_faults(front, fault, rest, other);
        assert(items[items.len() - 1] == items.last() && others[items.len() - 1] == others.last());
    }
}

/// A fault among the first `n` items is the fault of all.
pub proof fn lemma_first_fault_stays<T>(
    items: Seq<T>,
    fault: spec_fn(T) -> Option<ErrorView>,
    n: int,
)
    requires
        0 <= n <= items.len(),
        first_fault(items.take(n), fault) is Some,
    ensures
        first_fault(items, fault) == first_fault(items.take(n), fault),
    decreases items.len() - n,
{
    if n == items.len() {
        assert(items.take(n) =~= items);
    } else {
        assert(items.take(n + 1).drop_last() =~= items.take(n));
        lemma_first_fault_stays(items, fault, n + 1);
    }
}

/// Going one item further without a fault so far.
pub proof fn lemma_fault_step<T>(
    items: Seq<T>,
    fault: spec_fn(T) -> Option<ErrorView>,
    n: int,
)
    requires
        0 <= n < items.len(),
        first_fault(items.take(n), fault) is None,
    ensures
        first_fault(items.take(n + 1), fault) == fault(items[n]),
        fault(items[n]) is Some ==> first_fault(items, fault) == fault(items[n]),
{
    assert(items.take(n + 1).drop_last() =~= items.take(n));
    if fault(items[n]) is Some {
        lemma_first_fault_stays(items, fault, n + 1);
    }
}

/// Nothing and everything of a list.
pub proof fn lemma_fault_ends<T>(items: Seq<T>, fault: spec_fn(T) -> Option<ErrorView>)
    ensures
        first_fault(items.take(0), fault) is None,
        first_fault(items.take(items.len() as int), fault) == first_fault(items, fault),
{
    assert(items.take(items.len() as int) =~= items);
}

/// Without a fault, no item has one.
pub proof fn lemma_faultless<T>(items: Seq<T>, fault: spec_fn(T) -> Option<ErrorView>)
    requires
        first_fault(items, fault) is None,
    ensures
        forall|i: int| 0 <= i < items.len() ==> fault(#[trigger] items[i]) is None,
    decreases items.len(),
{
    if items.len() > 0 {
        lemma_faultless(items.drop_last(), fault);
        assert forall|i: int| 0 <= i < items.len() implies fault(#[trigger] items[i]) is None by {
            if i < items.len() - 1 {
                assert(items.drop_last()[i] == items[i]);
            }
        }
    }
}

} // verus!
