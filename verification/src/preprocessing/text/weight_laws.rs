//! What the weights of terms are: frequencies in a document times inverse document
//! frequencies, in exact arithmetic.

use crate::calculus;
use crate::calculus::Calculus;
use crate::frame::CellsView;
use crate::frame::FrameView;
use crate::preprocessing::text::count_vectorizer::CountSettings;
use crate::preprocessing::text::count_vectorizer;
use crate::preprocessing::text::tfidf_vectorizer;
use crate::preprocessing::text::tfidf_vectorizer::IDFWeighting;
use crate::preprocessing::text::tfidf_vectorizer::NormMethod;
use crate::preprocessing::text::tfidf_vectorizer::TfWeighting;
use crate::preprocessing::text::tfidf_vectorizer::Weighting;
use crate::preprocessing::text::vocabulary;
use crate::program;
use crate::program::Term;
use crate::reals;
use crate::tally;
use vstd::prelude::*;

verus! {

/// Whether logarithms of greater numbers are greater, and that of one is zero.
pub open spec fn has_logarithms(c: Calculus) -> bool {
    &&& (c.logarithm)(1real) == 0real
    &&& forall|x: real, y: real|
        0real < x < y ==> (#[trigger] (c.logarithm)(x)) < (#[trigger] (c.logarithm)(y))
}

/// The ratio of the documents of which the logarithm is taken: all to those with
/// the term; with one more of each; or those without the term to those with it,
/// with half a document more of each.
pub open spec fn rarity(idf: IDFWeighting, n: nat, df: nat) -> real {
    match idf {
        IDFWeighting::Unsmoothed => (n as int as real) / (df as int as real),
        IDFWeighting::Smoothed => ((n + 1) as int as real) / ((df + 1) as int as real),
        IDFWeighting::Probabilistic => ((2 * (n - df) + 1) as real) / ((2 * df + 1) as int as real),
    }
}

/// The inverse document frequency is the logarithm of the rarity of a term, and
/// one more where it is smoothed.
pub proof fn law_inverse_document_frequency(idf: IDFWeighting, n: nat, df: nat, c: Calculus)
    requires
        c.grounded(),
    ensures
        calculus::computed(tfidf_vectorizer::inverse_document_frequency(idf, n, df), c) == (
        c.logarithm)(rarity(idf, n, df)) + if idf == IDFWeighting::Smoothed {
            1real
        } else {
            0real
        },
{
    reveal_with_fuel(calculus::computed, 6);
    if idf == IDFWeighting::Probabilistic {
        let half = (c.value)(crate::double::Double { bits: 0x3fe0_0000_0000_0000 });
        let (a, b) = ((n - df) as real + half, df as int as real + half);
        let (p, q) = ((2 * (n - df) + 1) as real, (2 * df + 1) as int as real);
        assert(p == 2real * a && q == 2real * b);
        calculus::lemma_quotient(a, b);
        calculus::lemma_quotient(p, q);
        let (x, y) = (a / b, p / q);
        assert(x * (2real * b) == 2real * (x * b)) by (nonlinear_arith);
        let d = x - y;
        assert((x - y) * q == x * q - y * q) by (nonlinear_arith);
        if d != 0real {
            assert(d * q != 0real) by (nonlinear_arith)
                requires
                    d != 0real,
                    q > 0real,
            ;
        }
        assert(n as int as real - df as int as real == (n - df) as real);
    }
}

/// A rarer term weighs more, whichever inverse document frequency is taken.
pub proof fn law_rarer_weighs_more(
    idf: IDFWeighting,
    n: nat,
    rare: nat,
    frequent: nat,
    c: Calculus,
)
    requires
        c.grounded(),
        has_logarithms(c),
        1 <= rare < frequent <= n,
    ensures
        calculus::computed(tfidf_vectorizer::inverse_document_frequency(idf, n, frequent), c)
            < calculus::computed(tfidf_vectorizer::inverse_document_frequency(idf, n, rare), c),
{
    law_inverse_document_frequency(idf, n, rare, c);
    law_inverse_document_frequency(idf, n, frequent, c);
    let (x, y) = (rarity(idf, n, rare), rarity(idf, n, frequent));
    match idf {
        IDFWeighting::Unsmoothed => {
            calculus::lemma_lesser_quotient(
                n as int as real,
                rare as int as real,
                frequent as int as real,
            );
        },
        IDFWeighting::Smoothed => {
            calculus::lemma_lesser_quotient(
                (n + 1) as int as real,
                (rare + 1) as int as real,
                (frequent + 1) as int as real,
            );
        },
        IDFWeighting::Probabilistic => {
            let (s, t) = ((2 * rare + 1) as int as real, (2 * frequent + 1) as int as real);
            let (p, q) = ((2 * (n - rare) + 1) as real, (2 * (n - frequent) + 1) as real);
            calculus::lemma_lesser_quotient(p, s, t);
            calculus::lemma_quotient(p, t);
            calculus::lemma_quotient(q, t);
            let (u, v) = (p / t, q / t);
            assert((u - v) * t == u * t - v * t) by (nonlinear_arith);
            let d = u - v;
            if d <= 0real {
                assert(d * t <= 0real) by (nonlinear_arith)
                    requires
                        d <= 0real,
                        t > 0real,
                ;
            }
            if v <= 0real {
                assert(v * t <= 0real) by (nonlinear_arith)
                    requires
                        v <= 0real,
                        t > 0real,
                ;
            }
        },
    }
    assert(0real < y < x);
    assert((c.logarithm)(y) < (c.logarithm)(x));
}

/// A term of every document has the inverse document frequency zero, and one where
/// it is smoothed.
pub proof fn law_term_of_every_document(n: nat, c: Calculus)
    requires
        c.grounded(),
        has_logarithms(c),
        n >= 1,
    ensures
        calculus::computed(
            tfidf_vectorizer::inverse_document_frequency(IDFWeighting::Unsmoothed, n, n),
            c,
        ) == 0real,
        calculus::computed(
            tfidf_vectorizer::inverse_document_frequency(IDFWeighting::Smoothed, n, n),
            c,
        ) == 1real,
{
    law_inverse_document_frequency(IDFWeighting::Unsmoothed, n, n, c);
    law_inverse_document_frequency(IDFWeighting::Smoothed, n, n, c);
    lemma_over_itself(n as int as real);
    lemma_over_itself((n + 1) as int as real);
}

/// A number over itself is one.
proof fn lemma_over_itself(r: real)
    requires
        r > 0real,
    ensures
        r / r == 1real,
{
    assert(r / r == 1real) by (nonlinear_arith)
        requires
            r > 0real,
    ;
}

/// What a count stands for: itself, or one more than its logarithm; zero for zero.
pub open spec fn standing(count: nat, sublinear: bool, c: Calculus) -> real {
    if count == 0 {
        0real
    } else if sublinear {
        1real + (c.logarithm)(count as int as real)
    } else {
        count as int as real
    }
}

/// What the counts of a document stand for.
pub open spec fn standings(counts: Seq<nat>, sublinear: bool, c: Calculus) -> Seq<real> {
    Seq::new(counts.len(), |k: int| standing(counts[k], sublinear, c))
}

/// The frequency of term `k` in a document: what its count stands for; its part in
/// what all counts stand for; whether it occurs; or one more than the logarithm of
/// what its count stands for.
pub open spec fn frequency_of(
    tf: TfWeighting,
    counts: Seq<nat>,
    k: int,
    sublinear: bool,
    c: Calculus,
) -> real {
    let s = standing(counts[k], sublinear, c);
    let total = reals::total(standings(counts, sublinear, c));
    match tf {
        TfWeighting::RawCount => s,
        TfWeighting::TermFrequency => if total > 0real {
            s / total
        } else {
            s
        },
        TfWeighting::Binary => if counts[k] == 0 {
            0real
        } else {
            1real
        },
        TfWeighting::LogTf => if counts[k] == 0 {
            0real
        } else {
            1real + (c.logarithm)(s)
        },
    }
}

/// Before its row is scaled, the weight of a term in a document is its frequency
/// there times the logarithm of its rarity, one more where that is smoothed.
pub proof fn law_raw_weight(
    w: Weighting,
    entries: Seq<(Seq<char>, nat)>,
    n: nat,
    counts: Seq<nat>,
    k: int,
    c: Calculus,
)
    requires
        c.grounded(),
        0 <= k < counts.len(),
    ensures
        calculus::computed(tfidf_vectorizer::raw_weights(w, entries, n, counts)[k], c)
            == frequency_of(w.tf, counts, k, w.sublinear, c) * ((c.logarithm)(
            rarity(w.idf, n, entries[k].1),
        ) + if w.idf == IDFWeighting::Smoothed {
            1real
        } else {
            0real
        }),
{
    law_inverse_document_frequency(w.idf, n, entries[k].1, c);
    let scaled = tfidf_vectorizer::rescaled_row(counts, w.sublinear);
    assert(calculus::all_computed(scaled, c) =~= standings(counts, w.sublinear, c)) by {
        assert forall|j: int| 0 <= j < counts.len() implies calculus::computed(
            #[trigger] scaled[j],
            c,
        ) == standing(counts[j], w.sublinear, c) by {
            reveal_with_fuel(calculus::computed, 3);
        }
    }
    calculus::law_running_sum(scaled, c);
    assert(calculus::computed(scaled[k], c) == standings(counts, w.sublinear, c)[k]);
    let tf = tfidf_vectorizer::frequency(
        w.tf,
        counts[k],
        scaled[k],
        program::running_sum(scaled),
    );
    assert(calculus::computed(tf, c) == frequency_of(w.tf, counts, k, w.sublinear, c)) by {
        reveal_with_fuel(calculus::computed, 3);
    }
    reveal_with_fuel(calculus::computed, 2);
}

/// The parts of the terms in a document add up to one.
pub proof fn law_parts_add_up(counts: Seq<nat>, c: Calculus)
    requires
        reals::total(standings(counts, false, c)) > 0real,
    ensures
        reals::total(
            Seq::new(
                counts.len(),
                |k: int| frequency_of(TfWeighting::TermFrequency, counts, k, false, c),
            ),
        ) == 1real,
{
    let all = standings(counts, false, c);
    let total = reals::total(all);
    let parts = Seq::new(
        counts.len(),
        |k: int| frequency_of(TfWeighting::TermFrequency, counts, k, false, c),
    );
    reals::lemma_divided(all, parts, total);
    lemma_over_itself(total);
}

/// A scaled row is in proportion to the row before it is scaled: each weight times
/// the length of the row, which is the sum of its absolute values or the root of
/// the sum of its squares, is the weight that it was.
pub proof fn law_row_keeps_its_proportions(
    norm: NormMethod,
    raw: Seq<Term>,
    k: int,
    c: Calculus,
)
    requires
        c.grounded(),
        0 <= k < raw.len(),
    ensures
        ({
            let row = calculus::all_computed(tfidf_vectorizer::normalized(norm, raw), c);
            let before = calculus::all_computed(raw, c);
            let sizes = Seq::new(raw.len(), |j: int| calculus::magnitude(before[j]));
            let squares = Seq::new(raw.len(), |j: int| before[j] * before[j]);
            let length = match norm {
                NormMethod::Unscaled => 1real,
                NormMethod::L1 => reals::total(sizes),
                NormMethod::L2 => (c.root)(reals::total(squares)),
            };
            if length > 0real {
                row[k] * length == before[k]
            } else {
                row[k] == before[k]
            }
        }),
{
    let before = calculus::all_computed(raw, c);
    let sizes = Seq::new(raw.len(), |j: int| calculus::magnitude(before[j]));
    let squares = Seq::new(raw.len(), |j: int| before[j] * before[j]);
    reveal_with_fuel(calculus::computed, 3);
    assert(calculus::all_computed(program::magnitudes(raw), c) =~= sizes);
    assert(calculus::all_computed(program::squares(raw), c) =~= squares);
    calculus::law_running_sum(program::magnitudes(raw), c);
    calculus::law_running_sum(program::squares(raw), c);
    let length = calculus::computed(tfidf_vectorizer::row_length(norm, raw), c);
    if length > 0real {
        calculus::lemma_quotient(before[k], length);
    }
    assert(before[k] * 1real == before[k]) by (nonlinear_arith);
}

/// A cell of a sheet of weights is the weight of its column's term in its row's
/// document. Where rows are not scaled it is the frequency of the term in the
/// document times the logarithm of its rarity, one more where that is smoothed.
pub proof fn law_cell_of_weights(
    settings: CountSettings,
    w: Weighting,
    entries: Seq<(Seq<char>, nat)>,
    n: nat,
    x: FrameView,
    i: int,
    k: int,
    c: Calculus,
)
    requires
        c.grounded(),
        w.norm == NormMethod::Unscaled,
        tfidf_vectorizer::tfidf_outcome(settings, w, Some((entries, n)), x) is Ok,
        0 <= i < settings.documents_in(x).len(),
        0 <= k < entries.len(),
    ensures
        ({
            let sheet = tfidf_vectorizer::tfidf_outcome(settings, w, Some((entries, n)), x)->Ok_0;
            let doc = settings.documents_in(x)[i];
            let counts = Seq::new(
                entries.len(),
                |j: int| tally::occurrences(doc, entries[j].0),
            );
            &&& sheet.columns[k].name == entries[k].0
            &&& sheet.columns[k].cells matches CellsView::Float64(cells) && cells[i] matches Some(t)
                && calculus::computed(t, c) == frequency_of(w.tf, counts, k, w.sublinear, c) * ((
            c.logarithm)(rarity(w.idf, n, entries[k].1)) + if w.idf == IDFWeighting::Smoothed {
                1real
            } else {
                0real
            })
        }),
{
    let doc = settings.documents_in(x)[i];
    let counts = Seq::new(entries.len(), |j: int| tally::occurrences(doc, entries[j].0));
    assert(vocabulary::counts_of(count_vectorizer::entry_terms(entries), doc) =~= counts);
    law_raw_weight(w, entries, n, counts, k, c);
}

} // verus!
