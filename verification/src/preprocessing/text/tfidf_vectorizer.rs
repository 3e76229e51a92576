//! TF-IDF vectorization.
//!
//! Terms are counted as a [`CountVectorizer`] counts them, and each count is
//! weighed: terms that occur in many documents weigh less.

use crate::double::Double;
use crate::error::Error;
use crate::error::ErrorView;
use crate::error::Problem;
use crate::frame;
use crate::frame::Cells;
use crate::frame::CellsView;
use crate::frame::Frame;
use crate::frame::FrameView;
use crate::frame::Number;
use crate::frame::Sheet;
use crate::frame::SheetColumn;
use crate::frame::SheetColumnView;
use crate::frame::SheetView;
use crate::preprocessing::text::count_vectorizer;
use crate::preprocessing::text::count_vectorizer::CountSettings;
use crate::preprocessing::text::count_vectorizer::CountVectorizer;
use crate::preprocessing::text::count_vectorizer::Tokenizer;
use crate::preprocessing::text::vocabulary;
use crate::preprocessing::text::vocabulary::Ceiling;
use crate::preprocessing::text::vocabulary::VocabularyPlan;
use crate::program;
use crate::program::Operation;
use crate::program::Program;
use crate::program::Term;
use crate::reals;
use crate::tally;
use crate::text;
use crate::text::Text;
use vstd::prelude::*;

verus! {

/// How a count becomes a term frequency.
#[derive(Clone, Copy, Debug, PartialEq, Eq, Structural)]
pub enum TfWeighting {
    /// The count.
    RawCount,
    /// The count over the sum of the document's counts.
    TermFrequency,
    /// `1.0` for a term that occurs.
    Binary,
    /// One more than the logarithm of the count.
    LogTf,
}

impl Default for TfWeighting {
    fn default() -> (r: TfWeighting)
        ensures
            r == TfWeighting::TermFrequency,
    {
        TfWeighting::TermFrequency
    }
}

/// How an inverse document frequency follows from `n` documents, `df` of them
/// with the term.
#[derive(Clone, Copy, Debug, PartialEq, Eq, Structural)]
pub enum IDFWeighting {
    /// `ln(n / df)`.
    Unsmoothed,
    /// `ln((1 + n) / (1 + df)) + 1`.
    Smoothed,
    /// `ln((n - df + 0.5) / (df + 0.5))`.
    Probabilistic,
}

impl Default for IDFWeighting {
    fn default() -> (r: IDFWeighting)
        ensures
            r == IDFWeighting::Smoothed,
    {
        IDFWeighting::Smoothed
    }
}

/// How each row is scaled.
#[derive(Clone, Copy, Debug, PartialEq, Eq, Structural)]
pub enum NormMethod {
    /// Not at all.
    Unscaled,
    /// By the sum of its absolute values.
    L1,
    /// By its Euclidean length.
    L2,
}

impl Default for NormMethod {
    fn default() -> (r: NormMethod)
        ensures
            r == NormMethod::L2,
    {
        NormMethod::L2
    }
}

/// How counts are weighed.
#[derive(Clone, Copy, Debug, PartialEq, Eq, Structural)]
pub struct Weighting {
    pub tf: TfWeighting,
    pub idf: IDFWeighting,
    pub norm: NormMethod,
    /// Whether each count is first replaced by one more than its logarithm.
    pub sublinear: bool,
}

/// A count, or one more than its logarithm; zero stays zero.
pub open spec fn rescaled(count: nat, sublinear: bool) -> Term {
    if sublinear && count > 0 {
        Term::Plus(Box::new(program::unit()), Box::new(Term::Logarithm(Box::new(Term::Natural(count)))))
    } else {
        Term::Natural(count)
    }
}

/// The counts of a document, rescaled.
pub open spec fn rescaled_row(counts: Seq<nat>, sublinear: bool) -> Seq<Term> {
    Seq::new(counts.len(), |k: int| rescaled(counts[k], sublinear))
}

/// The term frequency of a count.
pub open spec fn frequency(tf: TfWeighting, count: nat, scaled: Term, total: Term) -> Term {
    match tf {
        TfWeighting::RawCount => scaled,
        TfWeighting::TermFrequency => Term::Scaled(Box::new(scaled), Box::new(total)),
        TfWeighting::Binary => if count > 0 {
            program::unit()
        } else {
            program::nothing()
        },
        TfWeighting::LogTf => if count > 0 {
            Term::Plus(Box::new(program::unit()), Box::new(Term::Logarithm(Box::new(scaled))))
        } else {
            program::nothing()
        },
    }
}

/// The logarithmic weighting is what the plain count becomes when counts are
/// first replaced by one more than their logarithm; both are zero for a term
/// that does not occur.
pub proof fn law_logarithmic_counts(count: nat, total: Term)
    ensures
        count > 0 ==> frequency(TfWeighting::LogTf, count, rescaled(count, false), total)
            == frequency(TfWeighting::RawCount, count, rescaled(count, true), total),
        count == 0 ==> is_zero(frequency(TfWeighting::LogTf, count, rescaled(count, false), total)),
        count == 0 ==> is_zero(frequency(TfWeighting::RawCount, count, rescaled(count, true), total)),
{
}

/// Whether a term is zero, or zero over a total.
pub open spec fn is_zero(term: Term) -> bool {
    match term {
        Term::Scaled(part, _) => *part == Term::Natural(0),
        _ => term == Term::Natural(0) || term == program::nothing(),
    }
}

/// A term that does not occur in a document has the frequency zero, whatever
/// the weighting.
pub proof fn law_absent_term(tf: TfWeighting, sublinear: bool, total: Term)
    ensures
        is_zero(frequency(tf, 0, rescaled(0, sublinear), total)),
{
}

/// The inverse document frequency of a term in `df` of `n` documents.
pub open spec fn inverse_document_frequency(idf: IDFWeighting, n: nat, df: nat) -> Term {
    match idf {
        IDFWeighting::Unsmoothed => Term::Logarithm(
            Box::new(Term::Over(Box::new(Term::Natural(n)), Box::new(Term::Natural(df)))),
        ),
        IDFWeighting::Smoothed => Term::Plus(
            Box::new(
                Term::Logarithm(
                    Box::new(
                        Term::Over(
                            Box::new(Term::Plus(Box::new(program::unit()), Box::new(Term::Natural(n)))),
                            Box::new(Term::Plus(Box::new(program::unit()), Box::new(Term::Natural(df)))),
                        ),
                    ),
                ),
            ),
            Box::new(program::unit()),
        ),
        IDFWeighting::Probabilistic => Term::Logarithm(
            Box::new(
                Term::Over(
                    Box::new(
                        Term::Plus(
                            Box::new(
                                Term::Minus(
                                    Box::new(Term::Natural(n)),
                                    Box::new(Term::Natural(df)),
                                ),
                            ),
                            Box::new(program::half()),
                        ),
                    ),
                    Box::new(Term::Plus(Box::new(Term::Natural(df)), Box::new(program::half()))),
                ),
            ),
        ),
    }
}

/// The weights of a document before its row is scaled.
pub open spec fn raw_weights(
    w: Weighting,
    entries: Seq<(Seq<char>, nat)>,
    n: nat,
    counts: Seq<nat>,
) -> Seq<Term> {
    let scaled = rescaled_row(counts, w.sublinear);
    let total = program::running_sum(scaled);
    Seq::new(
        counts.len(),
        |k: int|
            Term::Times(
                Box::new(frequency(w.tf, counts[k], scaled[k], total)),
                Box::new(inverse_document_frequency(w.idf, n, entries[k].1)),
            ),
    )
}

/// The length by which a row is scaled.
pub open spec fn row_length(norm: NormMethod, weights: Seq<Term>) -> Term {
    match norm {
        NormMethod::Unscaled => program::unit(),
        NormMethod::L1 => program::running_sum(program::magnitudes(weights)),
        NormMethod::L2 => Term::Root(Box::new(program::running_sum(program::squares(weights)))),
    }
}

/// A row, scaled by its length; a row without length stays as it is.
pub open spec fn normalized(norm: NormMethod, weights: Seq<Term>) -> Seq<Term> {
    match norm {
        NormMethod::Unscaled => weights,
        _ => Seq::new(
            weights.len(),
            |k: int|
                Term::Scaled(Box::new(weights[k]), Box::new(row_length(norm, weights))),
        ),
    }
}

/// The weights of a document.
pub open spec fn weights(
    w: Weighting,
    entries: Seq<(Seq<char>, nat)>,
    n: nat,
    counts: Seq<nat>,
) -> Seq<Term> {
    normalized(w.norm, raw_weights(w, entries, n, counts))
}

/// Whether all terms are zero in exact arithmetic.
pub open spec fn all_zero(row: Seq<Term>, value: spec_fn(Double) -> real) -> bool {
    forall|k: int| 0 <= k < row.len() ==> program::exact(#[trigger] row[k], value) == 0real
}

/// Whether the absolute values of a row, or its squares, add up to one in exact
/// arithmetic.
pub open spec fn has_length_one(
    norm: NormMethod,
    row: Seq<Term>,
    value: spec_fn(Double) -> real,
) -> bool {
    match norm {
        NormMethod::Unscaled => true,
        NormMethod::L1 => reals::total(reals::exacts(program::magnitudes(row), value)) == 1real,
        NormMethod::L2 => reals::total(reals::exacts(program::squares(row), value)) == 1real,
    }
}

/// Whether the sum of the squares of a row has a square root.
pub open spec fn has_root(row: Seq<Term>, value: spec_fn(Double) -> real) -> bool {
    exists|r: real|
        program::is_root(reals::total(reals::exacts(program::squares(row), value)), r)
}

/// A row that is scaled by the sum of its absolute values has values that add
/// up to one; where that sum is zero, the row is zero and stays so. In exact
/// arithmetic.
proof fn lemma_scaled_by_sum(raw: Seq<Term>, value: spec_fn(Double) -> real)
    requires
        value(Double { bits: 0 }) == 0real,
    ensures
        ({
            let row = normalized(NormMethod::L1, raw);
            if all_zero(raw, value) {
                all_zero(row, value)
            } else {
                has_length_one(NormMethod::L1, row, value)
            }
        }),
{
    let sizes = reals::exacts(program::magnitudes(raw), value);
    let row = normalized(NormMethod::L1, raw);
    let d = reals::total(sizes);
    reals::lemma_running_sum(program::magnitudes(raw), value);
    assert forall|k: int| 0 <= k < sizes.len() implies #[trigger] sizes[k] >= 0real by {}
    reals::lemma_not_negative(sizes);
    if d == 0real {
        assert forall|k: int| 0 <= k < raw.len() implies program::exact(#[trigger] raw[k], value)
            == 0real by {
            assert(sizes[k] == 0real);
        }
        assert forall|k: int| 0 <= k < row.len() implies program::exact(#[trigger] row[k], value)
            == 0real by {
            assert(program::exact(raw[k], value) == 0real);
        }
    } else {
        let scaled = reals::exacts(program::magnitudes(row), value);
        assert forall|k: int| 0 <= k < sizes.len() implies #[trigger] scaled[k] == sizes[k] / d by {
            let w = program::exact(raw[k], value);
            assert(program::exact(row[k], value) == w / d);
            assert(w < 0real ==> w / d < 0real && -(w / d) == (-w) / d) by (nonlinear_arith)
                requires
                    d > 0real,
            ;
            assert(w >= 0real ==> w / d >= 0real) by (nonlinear_arith)
                requires
                    d > 0real,
            ;
        }
        reals::lemma_divided(sizes, scaled, d);
        assert(d / d == 1real) by (nonlinear_arith)
            requires
                d > 0real,
        ;
        if all_zero(raw, value) {
            assert forall|k: int| 0 <= k < row.len() implies program::exact(
                #[trigger] row[k],
                value,
            ) == 0real by {
                let w = program::exact(raw[k], value);
                assert(w == 0real);
                assert(w / d == 0real) by (nonlinear_arith)
                    requires
                        w == 0real,
                        d > 0real,
                ;
            }
        }
    }
}

/// A row that is scaled by its Euclidean length has squares that add up to one;
/// a row that is zero stays so. In exact arithmetic.
proof fn lemma_scaled_by_length(raw: Seq<Term>, value: spec_fn(Double) -> real)
    requires
        value(Double { bits: 0 }) == 0real,
        has_root(raw, value),
    ensures
        ({
            let row = normalized(NormMethod::L2, raw);
            if all_zero(raw, value) {
                all_zero(row, value)
            } else {
                has_length_one(NormMethod::L2, row, value)
            }
        }),
{
    let sizes = reals::exacts(program::squares(raw), value);
    let row = normalized(NormMethod::L2, raw);
    let d = reals::total(sizes);
    let r = program::root(d);
    reals::lemma_running_sum(program::squares(raw), value);
    assert(program::is_root(d, r));
    assert(program::exact(row_length(NormMethod::L2, raw), value) == r);
    assert forall|k: int| 0 <= k < sizes.len() implies #[trigger] sizes[k] >= 0real by {
        let w = program::exact(raw[k], value);
        assert(w * w >= 0real) by (nonlinear_arith);
    }
    reals::lemma_not_negative(sizes);
    assert(d == 0real ==> r == 0real) by (nonlinear_arith)
        requires
            r >= 0real,
            r * r == d,
    ;
    assert(d > 0real ==> r > 0real) by (nonlinear_arith)
        requires
            r >= 0real,
            r * r == d,
    ;
    if d == 0real {
        assert forall|k: int| 0 <= k < raw.len() implies program::exact(#[trigger] raw[k], value)
            == 0real by {
            assert(sizes[k] == 0real);
            let w = program::exact(raw[k], value);
            assert(w == 0real) by (nonlinear_arith)
                requires
                    w * w == 0real,
            ;
        }
        assert forall|k: int| 0 <= k < row.len() implies program::exact(#[trigger] row[k], value)
            == 0real by {
            assert(program::exact(raw[k], value) == 0real);
        }
    } else {
        let scaled = reals::exacts(program::squares(row), value);
        assert forall|k: int| 0 <= k < sizes.len() implies #[trigger] scaled[k] == sizes[k] / d by {
            let w = program::exact(raw[k], value);
            assert(program::exact(row[k], value) == w / r);
            assert((w / r) * (w / r) == (w * w) / d) by (nonlinear_arith)
                requires
                    r > 0real,
                    r * r == d,
            ;
        }
        reals::lemma_divided(sizes, scaled, d);
        assert(d / d == 1real) by (nonlinear_arith)
            requires
                d > 0real,
        ;
        if all_zero(raw, value) {
            assert forall|k: int| 0 <= k < row.len() implies program::exact(
                #[trigger] row[k],
                value,
            ) == 0real by {
                let w = program::exact(raw[k], value);
                assert(w == 0real);
                assert(w / r == 0real) by (nonlinear_arith)
                    requires
                        w == 0real,
                        r > 0real,
                ;
            }
        }
    }
}

/// In exact arithmetic a scaled row is zero, which it is where it was zero
/// before, or its absolute values (its squares) add up to one. The length of a
/// row is a square root, so a law about it is one of rows whose length exists.
pub proof fn law_scaled_row(norm: NormMethod, raw: Seq<Term>, value: spec_fn(Double) -> real)
    requires
        value(Double { bits: 0 }) == 0real,
        norm == NormMethod::L2 ==> has_root(raw, value),
    ensures
        normalized(norm, raw).len() == raw.len(),
        if all_zero(raw, value) {
            all_zero(normalized(norm, raw), value)
        } else {
            has_length_one(norm, normalized(norm, raw), value)
        },
{
    match norm {
        NormMethod::Unscaled => {},
        NormMethod::L1 => {
            lemma_scaled_by_sum(raw, value);
        },
        NormMethod::L2 => {
            lemma_scaled_by_length(raw, value);
        },
    }
}

/// A document in which no term of the vocabulary occurs, such as a missing one,
/// has the weight zero everywhere, whatever the weighting. In exact arithmetic.
pub proof fn law_document_without_terms(
    w: Weighting,
    entries: Seq<(Seq<char>, nat)>,
    n: nat,
    doc: Seq<Seq<char>>,
    value: spec_fn(Double) -> real,
)
    requires
        value(Double { bits: 0 }) == 0real,
        forall|k: int| 0 <= k < entries.len() ==> !doc.contains(#[trigger] entries[k].0),
    ensures
        all_zero(
            weights(w, entries, n, vocabulary::counts_of(count_vectorizer::entry_terms(entries), doc)),
            value,
        ),
{
    let terms = count_vectorizer::entry_terms(entries);
    let counts = vocabulary::counts_of(terms, doc);
    let raw = raw_weights(w, entries, n, counts);
    let row = normalized(w.norm, raw);
    assert forall|k: int| 0 <= k < raw.len() implies program::exact(#[trigger] raw[k], value)
        == 0real by {
        assert(!doc.contains(entries[k].0));
        tally::lemma_occurrences_bounded(doc, terms[k]);
        let scaled = rescaled_row(counts, w.sublinear);
        let f = frequency(w.tf, counts[k], scaled[k], program::running_sum(scaled));
        let total = program::exact(program::running_sum(scaled), value);
        assert(total > 0real ==> 0real / total == 0real) by (nonlinear_arith);
        assert(program::exact(f, value) == 0real) by {
            reveal_with_fuel(program::exact, 2);
        }
        let (a, b) = (
            program::exact(f, value),
            program::exact(inverse_document_frequency(w.idf, n, entries[k].1), value),
        );
        assert(a * b == 0real) by (nonlinear_arith)
            requires
                a == 0real,
        ;
    }
    assert forall|k: int| 0 <= k < row.len() implies program::exact(#[trigger] row[k], value)
        == 0real by {
        assert(program::exact(raw[k], value) == 0real);
        let d = program::exact(row_length(w.norm, raw), value);
        assert(d > 0real ==> 0real / d == 0real) by (nonlinear_arith);
    }
}

/// A row of a sheet of numbers.
pub open spec fn row_of(sheet: SheetView, i: int) -> Seq<Term> {
    Seq::new(sheet.columns.len(), |k: int| (sheet.columns[k].cells->Float64_0)[i]->0)
}

/// Every row of a sheet is a document's: it is zero, or its length is one.
pub proof fn law_rows_are_scaled(
    settings: CountSettings,
    w: Weighting,
    entries: Seq<(Seq<char>, nat)>,
    n: nat,
    x: FrameView,
    i: int,
    value: spec_fn(Double) -> real,
)
    requires
        value(Double { bits: 0 }) == 0real,
        tfidf_outcome(settings, w, Some((entries, n)), x) is Ok,
        0 <= i < settings.documents_in(x).len(),
        w.norm == NormMethod::L2 ==> has_root(
            raw_weights(
                w,
                entries,
                n,
                vocabulary::counts_of(
                    count_vectorizer::entry_terms(entries),
                    settings.documents_in(x)[i],
                ),
            ),
            value,
        ),
    ensures
        ({
            let sheet = tfidf_outcome(settings, w, Some((entries, n)), x)->Ok_0;
            let row = row_of(sheet, i);
            &&& entries.len() > 0 ==> sheet.height == x.height
            &&& row.len() == entries.len()
            &&& forall|k: int| 0 <= k < row.len() ==> #[trigger] sheet.columns[k].name == entries[k].0
            &&& all_zero(row, value) || has_length_one(w.norm, row, value)
            &&& (forall|k: int|
                0 <= k < entries.len() ==> !settings.documents_in(x)[i].contains(
                    #[trigger] entries[k].0,
                )) ==> all_zero(row, value)
        }),
{
    let doc = settings.documents_in(x)[i];
    let counts = vocabulary::counts_of(count_vectorizer::entry_terms(entries), doc);
    let raw = raw_weights(w, entries, n, counts);
    let sheet = tfidf_outcome(settings, w, Some((entries, n)), x)->Ok_0;
    assert(row_of(sheet, i) =~= weights(w, entries, n, counts));
    law_scaled_row(w.norm, raw, value);
    if forall|k: int| 0 <= k < entries.len() ==> !doc.contains(#[trigger] entries[k].0) {
        law_document_without_terms(w, entries, n, doc, value);
    }
}

/// The columns of weights of documents.
pub open spec fn weight_columns(
    w: Weighting,
    entries: Seq<(Seq<char>, nat)>,
    n: nat,
    docs: Seq<Seq<Seq<char>>>,
) -> Seq<SheetColumnView> {
    let terms = count_vectorizer::entry_terms(entries);
    Seq::new(
        entries.len(),
        |k: int|
            SheetColumnView {
                name: entries[k].0,
                cells: CellsView::Float64(
                    Seq::new(
                        docs.len(),
                        |i: int|
                            Some(
                                weights(w, entries, n, vocabulary::counts_of(terms, docs[i]))[k],
                            ),
                    ),
                ),
            },
    )
}

/// What a vectorizer makes of a frame.
pub open spec fn tfidf_outcome(
    settings: CountSettings,
    w: Weighting,
    fitted: Option<(Seq<(Seq<char>, nat)>, nat)>,
    x: FrameView,
) -> Result<SheetView, ErrorView> {
    match fitted {
        None => Err(ErrorView::plain(Problem::NotFitted, "TFIDFVectorizer"@)),
        Some((entries, n)) => {
            let terms = count_vectorizer::entry_terms(entries);
            match settings.count_fault("TFIDFVectorizer"@, terms, x) {
                Some(e) => Err(e),
                None => Ok(
                    if entries.len() == 0 {
                        SheetView { height: 0, columns: Seq::empty() }
                    } else {
                        SheetView {
                            height: x.height,
                            columns: weight_columns(w, entries, n, settings.documents_in(x)),
                        }
                    },
                ),
            }
        },
    }
}

/// Appends the inverse document frequency of a term.
fn append_idf(idf: IDFWeighting, n: u64, df: u64, program: &mut Program) -> (r: usize)
    ensures
        program::extends(old(program)@, final(program)@),
        r < final(program)@.len(),
        final(program)@[r as int] == inverse_document_frequency(idf, n as nat, df as nat),
{
    match idf {
        IDFWeighting::Unsmoothed => {
            let a: usize = program.append(Operation::Natural(n));
            let b: usize = program.append(Operation::Natural(df));
            let q: usize = program.append(Operation::Over(a, b));
            program.append(Operation::Logarithm(q))
        },
        IDFWeighting::Smoothed => {
            let one: usize = program.append(Operation::Value(Double::one()));
            let a: usize = program.append(Operation::Natural(n));
            let top: usize = program.append(Operation::Plus(one, a));
            let b: usize = program.append(Operation::Natural(df));
            let bottom: usize = program.append(Operation::Plus(one, b));
            let q: usize = program.append(Operation::Over(top, bottom));
            let l: usize = program.append(Operation::Logarithm(q));
            program.append(Operation::Plus(l, one))
        },
        IDFWeighting::Probabilistic => {
            let h: usize = program.append(
                Operation::Value(Double { bits: crate::double::HALF }),
            );
            let a: usize = program.append(Operation::Natural(n));
            let b: usize = program.append(Operation::Natural(df));
            let rest: usize = program.append(Operation::Minus(a, b));
            let top: usize = program.append(Operation::Plus(rest, h));
            let bottom: usize = program.append(Operation::Plus(b, h));
            let q: usize = program.append(Operation::Over(top, bottom));
            program.append(Operation::Logarithm(q))
        },
    }
}

/// Appends the rescaled counts of a document.
fn append_rescaled(
    counts: &Vec<u64>,
    sublinear: bool,
    program: &mut Program,
    plain: Ghost<Seq<nat>>,
) -> (r: Vec<usize>)
    requires
        counts.len() == plain@.len(),
        forall|k: int| 0 <= k < counts.len() ==> #[trigger] counts@[k] == plain@[k],
    ensures
        program::extends(old(program)@, final(program)@),
        program::stand_for(r@, rescaled_row(plain@, sublinear), final(program)@),
{
    let ghost start = program@;
    let ghost wanted = rescaled_row(plain@, sublinear);
    let mut r: Vec<usize> = Vec::new();
    let mut k: usize = 0;
    while k < counts.len()
        invariant
            k <= counts.len(),
            counts.len() == plain@.len(),
            forall|m: int| 0 <= m < counts.len() ==> #[trigger] counts@[m] == plain@[m],
            wanted == rescaled_row(plain@, sublinear),
            program::extends(start, program@),
            r.len() == k,
            forall|m: int|
                0 <= m < k ==> (#[trigger] r@[m]) < program@.len() && program@[r@[m] as int]
                    == wanted[m],
        decreases counts.len() - k,
    {
        assert(counts@[k as int] == plain@[k as int]);
        let count: usize = program.append(Operation::Natural(counts[k]));
        let at: usize = if sublinear && counts[k] > 0 {
            let one: usize = program.append(Operation::Value(Double::one()));
            let l: usize = program.append(Operation::Logarithm(count));
            program.append(Operation::Plus(one, l))
        } else {
            count
        };
        r.push(at);
        k += 1;
    }
    r
}

/// Appends the weights of a document.
fn append_weights(
    w: Weighting,
    idfs: &Vec<usize>,
    counts: &Vec<u64>,
    program: &mut Program,
    entries: Ghost<Seq<(Seq<char>, nat)>>,
    n: Ghost<nat>,
    plain: Ghost<Seq<nat>>,
) -> (r: Vec<usize>)
    requires
        counts.len() == plain@.len(),
        forall|k: int| 0 <= k < counts.len() ==> #[trigger] counts@[k] == plain@[k],
        entries@.len() == counts.len(),
        program::stand_for(
            idfs@,
            Seq::new(
                entries@.len(),
                |k: int| inverse_document_frequency(w.idf, n@, entries@[k].1),
            ),
            old(program)@,
        ),
    ensures
        program::extends(old(program)@, final(program)@),
        program::stand_for(r@, weights(w, entries@, n@, plain@), final(program)@),
{
    let ghost start = program@;
    let ghost scaled = rescaled_row(plain@, w.sublinear);
    let ghost sum = program::running_sum(scaled);
    let ghost raw = raw_weights(w, entries@, n@, plain@);
    let ghost factors = Seq::new(
        entries@.len(),
        |k: int| inverse_document_frequency(w.idf, n@, entries@[k].1),
    );
    let parts: Vec<usize> = append_rescaled(counts, w.sublinear, program, plain);
    let total: usize = program::append_running_sum(&parts, program, Ghost(scaled));
    let mut products: Vec<usize> = Vec::new();
    let mut k: usize = 0;
    while k < counts.len()
        invariant
            k <= counts.len(),
            counts.len() == plain@.len(),
            entries@.len() == counts.len(),
            forall|m: int| 0 <= m < counts.len() ==> #[trigger] counts@[m] == plain@[m],
            scaled == rescaled_row(plain@, w.sublinear),
            sum == program::running_sum(scaled),
            raw == raw_weights(w, entries@, n@, plain@),
            factors == Seq::new(
                entries@.len(),
                |m: int| inverse_document_frequency(w.idf, n@, entries@[m].1),
            ),
            program::extends(start, program@),
            program::stand_for(idfs@, factors, start),
            program::stand_for(parts@, scaled, program@),
            total < program@.len(),
            program@[total as int] == sum,
            products.len() == k,
            forall|m: int|
                0 <= m < k ==> (#[trigger] products@[m]) < program@.len()
                    && program@[products@[m] as int] == raw[m],
        decreases counts.len() - k,
    {
        let ghost held = program@;
        assert(counts@[k as int] == plain@[k as int]);
        assert(parts@[k as int] < program@.len());
        assert(idfs@[k as int] < start.len());
        let part: usize = parts[k];
        let tf: usize = match w.tf {
            TfWeighting::RawCount => part,
            TfWeighting::TermFrequency => program.append(Operation::Scaled(part, total)),
            TfWeighting::Binary => if counts[k] > 0 {
                program.append(Operation::Value(Double::one()))
            } else {
                program.append(Operation::Value(Double::zero()))
            },
            TfWeighting::LogTf => if counts[k] > 0 {
                let one: usize = program.append(Operation::Value(Double::one()));
                let l: usize = program.append(Operation::Logarithm(part));
                program.append(Operation::Plus(one, l))
            } else {
                program.append(Operation::Value(Double::zero()))
            },
        };
        assert(program@[tf as int] == frequency(w.tf, plain@[k as int], scaled[k as int], sum));
        let product: usize = program.append(Operation::Times(tf, idfs[k]));
        products.push(product);
        proof {
            assert forall|m: int| 0 <= m < parts.len() implies (#[trigger] parts@[m])
                < program@.len() && program@[parts@[m] as int] == scaled[m] by {
                assert(parts@[m] < held.len());
            }
        }
        k += 1;
    }
    assert(program::stand_for(products@, raw, program@));
    append_normalized(w.norm, products, program, Ghost(raw))
}

/// Appends a row scaled by its length.
fn append_normalized(
    norm: NormMethod,
    list: Vec<usize>,
    program: &mut Program,
    raw: Ghost<Seq<Term>>,
) -> (r: Vec<usize>)
    requires
        program::stand_for(list@, raw@, old(program)@),
    ensures
        program::extends(old(program)@, final(program)@),
        program::stand_for(r@, normalized(norm, raw@), final(program)@),
{
    let ghost start = program@;
    let l1: bool = match norm {
        NormMethod::Unscaled => {
            return list;
        },
        NormMethod::L1 => true,
        NormMethod::L2 => false,
    };
    let ghost sizes = if l1 {
        program::magnitudes(raw@)
    } else {
        program::squares(raw@)
    };
    let mut parts: Vec<usize> = Vec::new();
    let mut k: usize = 0;
    while k < list.len()
        invariant
            k <= list.len(),
            program::stand_for(list@, raw@, start),
            program::extends(start, program@),
            sizes == if l1 {
                program::magnitudes(raw@)
            } else {
                program::squares(raw@)
            },
            parts.len() == k,
            forall|m: int|
                0 <= m < k ==> (#[trigger] parts@[m]) < program@.len() && program@[parts@[m] as int]
                    == sizes[m],
        decreases list.len() - k,
    {
        assert(list@[k as int] < start.len());
        let at: usize = if l1 {
            program.append(Operation::Magnitude(list[k]))
        } else {
            program.append(Operation::Square(list[k]))
        };
        parts.push(at);
        k += 1;
    }
    let total: usize = program::append_running_sum(&parts, program, Ghost(sizes));
    let length: usize = if l1 {
        total
    } else {
        program.append(Operation::Root(total))
    };
    let ghost by = row_length(norm, raw@);
    assert(program@[length as int] == by);
    let ghost wanted = normalized(norm, raw@);
    let mut r: Vec<usize> = Vec::new();
    let mut j: usize = 0;
    while j < list.len()
        invariant
            j <= list.len(),
            program::stand_for(list@, raw@, start),
            program::extends(start, program@),
            length < program@.len(),
            program@[length as int] == by,
            wanted.len() == raw@.len(),
            forall|m: int|
                0 <= m < raw@.len() ==> #[trigger] wanted[m] == Term::Scaled(
                    Box::new(raw@[m]),
                    Box::new(by),
                ),
            r.len() == j,
            forall|m: int|
                0 <= m < j ==> (#[trigger] r@[m]) < program@.len() && program@[r@[m] as int]
                    == wanted[m],
        decreases list.len() - j,
    {
        assert(list@[j as int] < start.len());
        let at: usize = program.append(Operation::Scaled(list[j], length));
        assert(wanted[j as int] == program@[at as int]);
        r.push(at);
        j += 1;
    }
    r
}

/// Turns a text column into TF-IDF weights.
///
/// A fit has two steps: [`fit`](TFIDFVectorizer::fit) lists the terms and says
/// what is to be computed, and [`finish_fit`](TFIDFVectorizer::finish_fit)
/// takes the results.
pub struct TFIDFVectorizer {
    counter: CountVectorizer,
    weighting: Weighting,
    rows: u64,
}

impl TFIDFVectorizer {
    /// The settings of the counts.
    pub closed spec fn settings(self) -> CountSettings {
        self.counter.settings()
    }

    /// How counts are weighed.
    pub closed spec fn weighed(self) -> Weighting {
        self.weighting
    }

    /// The number of documents that were last listed.
    pub closed spec fn listed(self) -> nat {
        self.rows as nat
    }

    /// The vocabulary, with the number of documents with each term, and the
    /// number of all documents; none before a fit is finished, or after a
    /// setting was changed.
    pub closed spec fn fitted(self) -> Option<(Seq<(Seq<char>, nat)>, nat)> {
        match self.counter.fitted() {
            Some(entries) => Some((entries, self.rows as nat)),
            None => None,
        }
    }

    /// A vectorizer of words.
    pub fn new() -> (r: TFIDFVectorizer)
        ensures
            r.fitted() is None,
            r.settings() == CountSettings::initial(),
            r.weighed() == (Weighting {
                tf: TfWeighting::TermFrequency,
                idf: IDFWeighting::Smoothed,
                norm: NormMethod::L2,
                sublinear: false,
            }),
    {
        TFIDFVectorizer {
            counter: CountVectorizer::new(),
            weighting: Weighting {
                tf: TfWeighting::TermFrequency,
                idf: IDFWeighting::Smoothed,
                norm: NormMethod::L2,
                sublinear: false,
            },
            rows: 0,
        }
    }

    /// Sets the column to vectorize.
    pub fn column(self, c: &str) -> (r: TFIDFVectorizer)
        ensures
            r.fitted() is None,
            r.weighed() == self.weighed(),
            r.settings() == (CountSettings { column: Some(c@), ..self.settings() }),
    {
        TFIDFVectorizer { counter: self.counter.column(c), weighting: self.weighting, rows: 0 }
    }

    /// Sets the tokenizer.
    pub fn tokenizer(self, t: Tokenizer) -> (r: TFIDFVectorizer)
        ensures
            r.fitted() is None,
            r.weighed() == self.weighed(),
            r.settings() == (CountSettings { tokenizer: t@, ..self.settings() }),
    {
        TFIDFVectorizer { counter: self.counter.tokenizer(t), weighting: self.weighting, rows: 0 }
    }

    /// Sets the least and the greatest number of tokens of a term.
    pub fn ngram_range(self, lo: usize, hi: usize) -> (r: TFIDFVectorizer)
        ensures
            r.fitted() is None,
            r.weighed() == self.weighed(),
            r.settings() == (CountSettings {
                low: lo as nat,
                high: hi as nat,
                ..self.settings()
            }),
    {
        TFIDFVectorizer {
            counter: self.counter.ngram_range(lo, hi),
            weighting: self.weighting,
            rows: 0,
        }
    }

    /// Sets the greatest number of terms.
    pub fn max_features(self, n: usize) -> (r: TFIDFVectorizer)
        ensures
            r.fitted() is None,
            r.weighed() == self.weighed(),
            r.settings() == (CountSettings { max_features: Some(n), ..self.settings() }),
    {
        TFIDFVectorizer {
            counter: self.counter.max_features(n),
            weighting: self.weighting,
            rows: 0,
        }
    }

    /// Sets the least number of documents with a term.
    pub fn min_df(self, n: usize) -> (r: TFIDFVectorizer)
        ensures
            r.fitted() is None,
            r.weighed() == self.weighed(),
            r.settings() == (CountSettings { min_df: n as nat, ..self.settings() }),
    {
        TFIDFVectorizer { counter: self.counter.min_df(n), weighting: self.weighting, rows: 0 }
    }

    /// Sets the greatest share of documents with a term.
    pub fn max_df(self, p: Double) -> (r: TFIDFVectorizer)
        ensures
            r.fitted() is None,
            r.weighed() == self.weighed(),
            r.settings() == (CountSettings { max_df: p, ..self.settings() }),
    {
        TFIDFVectorizer { counter: self.counter.max_df(p), weighting: self.weighting, rows: 0 }
    }

    /// Sets the tokens that are left out.
    pub fn stop_words(self, words: Vec<Text>) -> (r: TFIDFVectorizer)
        ensures
            r.fitted() is None,
            r.weighed() == self.weighed(),
            r.settings() == (CountSettings {
                stop_words: text::views(words@),
                ..self.settings()
            }),
    {
        TFIDFVectorizer {
            counter: self.counter.stop_words(words),
            weighting: self.weighting,
            rows: 0,
        }
    }

    /// Sets whether documents are put in lower case.
    pub fn lowercase(self, b: bool) -> (r: TFIDFVectorizer)
        ensures
            r.fitted() is None,
            r.weighed() == self.weighed(),
            r.settings() == (CountSettings { lowercase: b, ..self.settings() }),
    {
        TFIDFVectorizer { counter: self.counter.lowercase(b), weighting: self.weighting, rows: 0 }
    }

    /// The vectorizer, weighing counts in another way.
    fn weigh(self, weighting: Weighting) -> (r: TFIDFVectorizer)
        ensures
            r.fitted() is None,
            r.weighed() == weighting,
            r.settings() == self.settings(),
    {
        let mut counter: CountVectorizer = self.counter;
        counter.reset();
        TFIDFVectorizer { counter, weighting, rows: 0 }
    }

    /// Sets how a count becomes a term frequency.
    pub fn tf_weighting(self, w: TfWeighting) -> (r: TFIDFVectorizer)
        ensures
            r.fitted() is None,
            r.weighed() == (Weighting { tf: w, ..self.weighed() }),
            r.settings() == self.settings(),
    {
        let weighting: Weighting = Weighting { tf: w, ..self.weighting };
        self.weigh(weighting)
    }

    /// Sets how an inverse document frequency is computed.
    pub fn idf_weighting(self, w: IDFWeighting) -> (r: TFIDFVectorizer)
        ensures
            r.fitted() is None,
            r.weighed() == (Weighting { idf: w, ..self.weighed() }),
            r.settings() == self.settings(),
    {
        let weighting: Weighting = Weighting { idf: w, ..self.weighting };
        self.weigh(weighting)
    }

    /// Sets how each row is scaled.
    pub fn norm(self, n: NormMethod) -> (r: TFIDFVectorizer)
        ensures
            r.fitted() is None,
            r.weighed() == (Weighting { norm: n, ..self.weighed() }),
            r.settings() == self.settings(),
    {
        let weighting: Weighting = Weighting { norm: n, ..self.weighting };
        self.weigh(weighting)
    }

    /// Sets whether each count is first replaced by one more than its
    /// logarithm.
    pub fn sublinear_tf(self, b: bool) -> (r: TFIDFVectorizer)
        ensures
            r.fitted() is None,
            r.weighed() == (Weighting { sublinear: b, ..self.weighed() }),
            r.settings() == self.settings(),
    {
        let weighting: Weighting = Weighting { sublinear: b, ..self.weighting };
        self.weigh(weighting)
    }

    /// Lists the terms of the documents, and says what is to be computed. The
    /// vectorizer is unfitted until the fit is finished.
    pub fn fit(&mut self, x: &Frame) -> (r: Result<VocabularyPlan, Error>)
        ensures
            final(self).settings() == old(self).settings(),
            final(self).weighed() == old(self).weighed(),
            final(self).listed() == x@.height,
            final(self).fitted() is None,
            match old(self).settings().fault("TFIDFVectorizer"@, x@) {
                Some(e) => r is Err && r->Err_0@ == e,
                None => {
                    &&& r is Ok
                    &&& vocabulary::resolved(r->Ok_0.shape(), r->Ok_0.terms())
                        == vocabulary::candidates(
                        old(self).settings().documents_in(x@),
                        Ceiling::Product(old(self).settings().max_df),
                    )
                    &&& vocabulary::within(r->Ok_0.shape(), r->Ok_0.terms().len())
                    &&& tally::ascending(vocabulary::term_list(r->Ok_0.shape()))
                },
            },
    {
        self.counter.reset();
        self.rows = x.height() as u64;
        self.counter.plan_as("TFIDFVectorizer", x)
    }

    /// Finishes a fit with the results of the plan's program, one for each of
    /// its operations.
    pub fn finish_fit(&mut self, plan: &VocabularyPlan, values: &Vec<Double>)
        requires
            old(self).settings().low >= 1,
            values.len() == plan.terms().len(),
        ensures
            final(self).settings() == old(self).settings(),
            final(self).weighed() == old(self).weighed(),
            final(self).listed() == old(self).listed(),
            final(self).fitted() == Some(
                (
                    vocabulary::chosen(
                        vocabulary::vocabulary(
                            plan.shape(),
                            old(self).settings().min_df,
                            old(self).settings().max_features,
                            values@,
                        ),
                    ),
                    old(self).listed(),
                ),
            ),
    {
        self.counter.finish_fit(plan, values);
    }

    /// Weighs the terms of the vocabulary in each document.
    pub fn transform(&self, x: &Frame) -> (r: Result<Sheet, Error>)
        ensures
            frame::outcome(r) == tfidf_outcome(
                self.settings(),
                self.weighed(),
                self.fitted(),
                x@,
            ),
    {
        let w: Weighting = self.weighting;
        let (terms, frequencies) = match (
            self.counter.vocabulary(),
            self.counter.document_frequencies(),
        ) {
            (Some(terms), Some(frequencies)) => (terms, frequencies),
            _ => {
                return Err(Error::plain(Problem::NotFitted, "TFIDFVectorizer"));
            },
        };
        let ghost entries = self.counter.fitted()->0;
        let ghost n = self.rows as nat;
        let ghost docs = self.settings().documents_in(x@);
        let ghost list = text::views(terms@);
        let rows: Vec<Vec<u64>> = match self.counter.count_as("TFIDFVectorizer", terms, x) {
            Ok(rows) => rows,
            Err(e) => {
                return Err(e);
            },
        };
        if terms.len() == 0 {
            let columns: Vec<SheetColumn> = Vec::new();
            let r: Sheet = Sheet { height: 0, columns, program: Program::new() };
            assert(r@.columns =~= Seq::empty());
            return Ok(r);
        }
        let mut program: Program = Program::new();
        let ghost factors = Seq::new(
            entries.len(),
            |k: int| inverse_document_frequency(w.idf, n, entries[k].1),
        );
        let mut idfs: Vec<usize> = Vec::new();
        let mut k: usize = 0;
        while k < frequencies.len()
            invariant
                k <= frequencies.len(),
                n == self.rows,
                frequencies.len() == entries.len(),
                forall|m: int|
                    0 <= m < frequencies.len() ==> #[trigger] frequencies@[m] == entries[m].1,
                factors == Seq::new(
                    entries.len(),
                    |m: int| inverse_document_frequency(w.idf, n, entries[m].1),
                ),
                idfs.len() == k,
                forall|m: int|
                    0 <= m < k ==> (#[trigger] idfs@[m]) < program@.len()
                        && program@[idfs@[m] as int] == factors[m],
            decreases frequencies.len() - k,
        {
            assert(frequencies@[k as int] == entries[k as int].1);
            let at: usize = append_idf(w.idf, self.rows, frequencies[k], &mut program);
            idfs.push(at);
            k += 1;
        }
        let ghost grid = Seq::new(
            docs.len(),
            |i: int| weights(w, entries, n, vocabulary::counts_of(list, docs[i])),
        );
        let mut table: Vec<Vec<usize>> = Vec::new();
        let mut i: usize = 0;
        while i < rows.len()
            invariant
                i <= rows.len(),
                entries.len() == list.len(),
                vocabulary::counted(rows@, list, docs),
                factors == Seq::new(
                    entries.len(),
                    |m: int| inverse_document_frequency(w.idf, n, entries[m].1),
                ),
                program::stand_for(idfs@, factors, program@),
                grid == Seq::new(
                    docs.len(),
                    |m: int| weights(w, entries, n, vocabulary::counts_of(list, docs[m])),
                ),
                table.len() == i,
                forall|m: int|
                    0 <= m < i ==> program::stand_for((#[trigger] table@[m])@, grid[m], program@),
            decreases rows.len() - i,
        {
            let ghost held = program@;
            let ghost plain = vocabulary::counts_of(list, docs[i as int]);
            assert(rows@[i as int].len() == list.len());
            assert forall|m: int| 0 <= m < list.len() implies #[trigger] rows@[i as int]@[m]
                == plain[m] by {}
            let row: Vec<usize> = append_weights(
                w,
                &idfs,
                &rows[i],
                &mut program,
                Ghost(entries),
                Ghost(n),
                Ghost(plain),
            );
            proof {
                assert forall|m: int| 0 <= m < i implies program::stand_for(
                    (#[trigger] table@[m])@,
                    grid[m],
                    program@,
                ) by {
                    program::lemma_stand_for(table@[m]@, grid[m], held, program@);
                }
                program::lemma_stand_for(idfs@, factors, held, program@);
            }
            table.push(row);
            i += 1;
        }
        let ghost wanted = weight_columns(w, entries, n, docs);
        let mut columns: Vec<SheetColumn> = Vec::new();
        let mut c: usize = 0;
        while c < terms.len()
            invariant
                c <= terms.len(),
                list == text::views(terms@),
                list == count_vectorizer::entry_terms(entries),
                entries.len() == list.len(),
                docs.len() == table.len(),
                grid == Seq::new(
                    docs.len(),
                    |m: int| weights(w, entries, n, vocabulary::counts_of(list, docs[m])),
                ),
                forall|m: int|
                    0 <= m < table.len() ==> program::stand_for((#[trigger] table@[m])@, grid[m], program@),
                wanted == weight_columns(w, entries, n, docs),
                columns.len() == c,
                forall|m: int|
                    0 <= m < c ==> frame::sheet_column(#[trigger] columns@[m], program@)
                        == wanted[m],
            decreases terms.len() - c,
        {
            let mut cells: Vec<Option<Number>> = Vec::new();
            let mut j: usize = 0;
            while j < table.len()
                invariant
                    j <= table.len(),
                    c < terms.len(),
                    terms.len() == entries.len(),
                    terms.len() == list.len(),
                    docs.len() == table.len(),
                    grid == Seq::new(
                        docs.len(),
                        |m: int| weights(w, entries, n, vocabulary::counts_of(list, docs[m])),
                    ),
                    forall|m: int|
                        0 <= m < table.len() ==> program::stand_for(
                            (#[trigger] table@[m])@,
                            grid[m],
                            program@,
                        ),
                    cells.len() == j,
                    forall|m: int|
                        0 <= m < j ==> frame::optional_term(#[trigger] cells@[m], program@) == Some(
                            grid[m][c as int],
                        ),
                decreases table.len() - j,
            {
                assert(program::stand_for(table@[j as int]@, grid[j as int], program@));
                assert(grid[j as int].len() == list.len());
                assert(table@[j as int]@[c as int] < program@.len());
                cells.push(Some(Number::Register(table[j][c])));
                j += 1;
            }
            let column: SheetColumn = SheetColumn {
                name: terms[c].duplicate(),
                cells: Cells::Float64(cells),
            };
            proof {
                assert(list[c as int] == entries[c as int].0);
                assert(frame::terms_of(cells@, program@) =~= Seq::new(
                    docs.len(),
                    |m: int|
                        Some(
                            weights(
                                w,
                                entries,
                                n,
                                vocabulary::counts_of(
                                    count_vectorizer::entry_terms(entries),
                                    docs[m],
                                ),
                            )[c as int],
                        ),
                ));
                assert(frame::sheet_column(column, program@) == wanted[c as int]);
            }
            columns.push(column);
            c += 1;
        }
        assert(frame::sheet_columns(columns@, program@) =~= wanted);
        Ok(Sheet { height: x.height(), columns, program })
    }
}

impl Default for TFIDFVectorizer {
    fn default() -> (r: TFIDFVectorizer)
        ensures
            r.fitted() is None,
            r.settings() == CountSettings::initial(),
            r.weighed() == (Weighting {
                tf: TfWeighting::TermFrequency,
                idf: IDFWeighting::Smoothed,
                norm: NormMethod::L2,
                sublinear: false,
            }),
    {
        TFIDFVectorizer::new()
    }
}

} // verus!
