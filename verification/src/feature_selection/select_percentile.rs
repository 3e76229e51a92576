//! Selection of a share of the features.
//!
//! [`SelectPercentile`] keeps a given percentage of the features, those that a
//! [`ScoreFunction`] scores highest.

use crate::calculus;
use crate::double::Double;
use crate::error::Error;
use crate::error::ErrorView;
use crate::error::Problem;
use crate::feature_selection::ranking;
use crate::feature_selection::select_kbest::FClassif;
use crate::feature_selection::select_kbest::ScoreFunction;
use crate::feature_selection::select_kbest::Scoring;
use crate::frame;
use crate::frame::Column;
use crate::frame::Frame;
use crate::frame::FrameView;
use crate::frame::Sheet;
use crate::program;
use crate::program::Operation;
use crate::program::Program;
use crate::program::Query;
use crate::program::Term;
use crate::text;
use crate::text::Text;
use vstd::prelude::*;

verus! {

/// Whether a number is a percentage above zero.
pub open spec fn percentage(p: Double) -> bool {
    (Double { bits: 0 }).below(p) && !(Double { bits: crate::double::HUNDRED }).below(p)
}

/// A percentage of `n` columns.
pub open spec fn share(p: Double, n: nat) -> Term {
    Term::Times(
        Box::new(
            Term::Over(
                Box::new(Term::Value(p)),
                Box::new(Term::Value(Double { bits: crate::double::HUNDRED })),
            ),
        ),
        Box::new(Term::Natural(n)),
    )
}

/// How many of `n` columns are kept where their share is a given number: the
/// share rounded up, but one at least, and no more than there are.
pub open spec fn kept_count(share: Double, n: nat) -> nat {
    if share.ceiling() < 1 {
        1
    } else if share.ceiling() < n {
        share.ceiling() as nat
    } else {
        n
    }
}

/// Why a selector cannot begin to score.
pub open spec fn percentile_fault(p: Double, x: FrameView, y: FrameView) -> Option<ErrorView> {
    if x.columns.len() == 0 {
        Some(ErrorView::plain(Problem::NoColumns, "SelectPercentile"@))
    } else if x.height == 0 {
        Some(ErrorView::plain(Problem::NoRows, "SelectPercentile"@))
    } else if !percentage(p) {
        Some(ErrorView::plain(Problem::InvalidPercentile(p), "SelectPercentile"@))
    } else if y.columns.len() != 1 {
        Some(
            ErrorView::plain(
                Problem::ExpectedOneTarget(y.columns.len() as usize),
                "SelectPercentile"@,
            ),
        )
    } else {
        None
    }
}

/// What is selected of scored columns: the scores in order, and the names of
/// the columns that are kept.
pub open spec fn best_share(scores: Seq<(Seq<char>, Double)>, share: Double) -> (
    Seq<(Seq<char>, Double)>,
    Seq<Seq<char>>,
) {
    let ranked = ranking::best_first_by_name(scores, true);
    (ranked, ranking::leaders(ranked, kept_count(share, scores.len())))
}

/// The number of kept columns is what the share comes to, at least one where
/// there is a column and no more than there are, and no column that is left out
/// scores higher than one that is kept.
pub proof fn law_best_share(scores: Seq<(Seq<char>, Double)>, share: Double)
    ensures
        ({
            let (ranked, kept) = best_share(scores, share);
            &&& ranked.len() == scores.len()
            &&& scores.len() > 0 ==> 1 <= kept.len() <= scores.len()
            &&& scores.len() > 0 ==> kept.len() == kept_count(share, scores.len())
            &&& forall|i: int| 0 <= i < kept.len() ==> #[trigger] kept[i] == ranked[i].0
            &&& forall|i: int, j: int|
                0 <= i < kept.len() <= j < scores.len() ==> ranking::standing(
                    (#[trigger] ranked[i]).1,
                    true,
                ) >= ranking::standing((#[trigger] ranked[j]).1, true)
        }),
{
    ranking::law_best_first_by_name(scores, true);
}

/// Selects a percentage of the columns, those with the highest scores.
///
/// A fit has steps: [`fit`](SelectPercentile::fit) begins to score,
/// [`resume`](SelectPercentile::resume) goes on with answers,
/// [`ask_share`](SelectPercentile::ask_share) asks how many columns the
/// percentage comes to, and [`finish_fit`](SelectPercentile::finish_fit) takes
/// the scores and the answer.
pub struct SelectPercentile<F> {
    percentile: Double,
    score_fn: F,
    learned: Option<(Vec<(Text, Double)>, Vec<Text>)>,
}

/// The encoding of `10.0`.
pub const TEN: u64 = 0x4024_0000_0000_0000;

impl SelectPercentile<FClassif> {
    /// A selector of ten percent of the columns, by F-value.
    pub fn new() -> (r: SelectPercentile<FClassif>)
        ensures
            r.fitted() is None,
            r.percent() == (Double { bits: TEN }),
    {
        SelectPercentile {
            percentile: Double { bits: TEN },
            score_fn: FClassif::new(),
            learned: None,
        }
    }
}

impl Default for SelectPercentile<FClassif> {
    fn default() -> (r: SelectPercentile<FClassif>)
        ensures
            r.fitted() is None,
            r.percent() == (Double { bits: TEN }),
    {
        SelectPercentile::new()
    }
}

impl<F: ScoreFunction> SelectPercentile<F> {
    /// The percentage of the columns to keep.
    pub closed spec fn percent(self) -> Double {
        self.percentile
    }

    /// The scoring function.
    pub closed spec fn scorer(self) -> F {
        self.score_fn
    }

    /// The scores in order, and the columns that are kept; none before a fit
    /// is finished.
    pub closed spec fn fitted(self) -> Option<(Seq<(Seq<char>, Double)>, Seq<Seq<char>>)> {
        match self.learned {
            Some(l) => Some((ranking::score_views(l.0@), text::views(l.1@))),
            None => None,
        }
    }

    /// Sets the percentage of the columns to keep.
    pub fn percentile(self, p: Double) -> (r: SelectPercentile<F>)
        ensures
            r.fitted() == self.fitted(),
            r.percent() == p,
            r.scorer() == self.scorer(),
    {
        SelectPercentile { percentile: p, score_fn: self.score_fn, learned: self.learned }
    }

    /// Sets the scoring function.
    pub fn score_func<G: ScoreFunction>(self, f: G) -> (r: SelectPercentile<G>)
        ensures
            r.fitted() == self.fitted(),
            r.percent() == self.percent(),
            r.scorer() == f,
    {
        SelectPercentile { percentile: self.percentile, score_fn: f, learned: self.learned }
    }

    /// The percentage of the columns that is kept.
    pub fn selected_percentile(&self) -> (r: Double)
        ensures
            r == self.percent(),
    {
        self.percentile
    }

    /// The scores of the last finished fit, highest first.
    pub fn scores(&self) -> (r: Option<&Vec<(Text, Double)>>)
        ensures
            match r {
                Some(list) => self.fitted() is Some && ranking::score_views(list@) == (
                self.fitted()->0).0,
                None => self.fitted() is None,
            },
    {
        match &self.learned {
            Some(l) => Some(&l.0),
            None => None,
        }
    }

    /// Begins to score the columns of `x` against the one column of `y`. The
    /// selector is unfitted until the fit is finished.
    pub fn fit(&mut self, x: &Frame, y: &Frame) -> (r: Result<Scoring<F::State>, Error>)
        requires
            percentile_fault(old(self).percent(), x@, y@) is None ==> old(self).scorer().accepts(
                x@,
                y@.columns[0],
            ),
        ensures
            final(self).fitted() is None,
            final(self).percent() == old(self).percent(),
            final(self).scorer() == old(self).scorer(),
            match percentile_fault(old(self).percent(), x@, y@) {
                Some(e) => r is Err && r->Err_0@ == e,
                None => exists|column: Column|
                    column@ == y@.columns[0] && #[trigger] call_ensures(
                        F::score,
                        (&old(self).scorer(), x, &column),
                        r,
                    ),
            },
    {
        self.learned = None;
        if x.width() == 0 {
            return Err(Error::plain(Problem::NoColumns, "SelectPercentile"));
        }
        if x.height() == 0 {
            return Err(Error::plain(Problem::NoRows, "SelectPercentile"));
        }
        let hundred: Double = Double { bits: crate::double::HUNDRED };
        if !(Double::zero().is_below(self.percentile) && !hundred.is_below(self.percentile)) {
            return Err(Error::plain(Problem::InvalidPercentile(self.percentile), "SelectPercentile"));
        }
        if y.width() != 1 {
            return Err(Error::plain(Problem::ExpectedOneTarget(y.width()), "SelectPercentile"));
        }
        let column: &Column = y.column(0);
        self.score_fn.score(x, column)
    }

    /// Goes on scoring with answers.
    pub fn resume(&self, state: F::State, answers: &Vec<Double>) -> (r: Result<
        Scoring<F::State>,
        Error,
    >)
        requires
            answers.len() == self.scorer().awaits(state),
        ensures
            call_ensures(F::resume, (&self.scorer(), state, answers), r),
    {
        self.score_fn.resume(state, answers)
    }

    /// Asks how many of `n` columns the percentage comes to.
    pub fn ask_share(&self, n: usize) -> (r: Query)
        ensures
            r@ == seq![share(self.percent(), n as nat)],
    {
        let mut program: Program = Program::new();
        let p: usize = program.append(Operation::Value(self.percentile));
        let hundred: usize = program.append(
            Operation::Value(Double { bits: crate::double::HUNDRED }),
        );
        let part: usize = program.append(Operation::Over(p, hundred));
        let count: usize = program.append(Operation::Natural(n as u64));
        let at: usize = program.append(Operation::Times(part, count));
        let mut places: Vec<usize> = Vec::new();
        places.push(at);
        let r: Query = Query::new(program, places);
        assert(r@ =~= seq![share(self.percent(), n as nat)]);
        r
    }

    /// Finishes a fit with the scores, and with the share of their number that
    /// the percentage comes to. Without a score the selector is unfitted.
    pub fn finish_fit(&mut self, scores: &Vec<(Text, Double)>, share: Double) -> (r: Result<
        (),
        Error,
    >)
        ensures
            final(self).percent() == old(self).percent(),
            final(self).scorer() == old(self).scorer(),
            if scores.len() == 0 {
                &&& r is Err
                &&& r->Err_0@ == ErrorView::plain(Problem::NothingToScore, "SelectPercentile"@)
                &&& final(self).fitted() is None
            } else {
                &&& r is Ok
                &&& final(self).fitted() == Some(
                    best_share(ranking::score_views(scores@), share),
                )
            },
    {
        self.learned = None;
        if scores.len() == 0 {
            return Err(Error::plain(Problem::NothingToScore, "SelectPercentile"));
        }
        let ranked: Vec<(Text, Double)> = ranking::rank_by_name(scores, true);
        let rounded: usize = share.ceiling_at_most(scores.len());
        let keep: usize = if rounded < 1 {
            1
        } else {
            rounded
        };
        let selected: Vec<Text> = ranking::lead(&ranked, keep);
        self.learned = Some((ranked, selected));
        Ok(())
    }

    /// Keeps the selected columns, best first.
    pub fn transform(&self, x: &Frame) -> (r: Result<Sheet, Error>)
        ensures
            frame::outcome(r) == ranking::selection_outcome(
                "SelectPercentile"@,
                match self.fitted() {
                    Some(l) => Some(l.1),
                    None => None,
                },
                x@,
            ),
    {
        match &self.learned {
            None => Err(Error::plain(Problem::NotFitted, "SelectPercentile")),
            Some(l) => ranking::select(x, &l.1, "SelectPercentile"),
        }
    }
}

/// The share of `n` columns that a percentage asks for is in proportion to both:
/// a hundred times the share is the percentage times `n`. In exact arithmetic.
pub proof fn law_share(p: Double, n: nat, value: spec_fn(Double) -> real)
    requires
        value(Double { bits: 0x4059_0000_0000_0000 }) == 100real,
    ensures
        program::exact(share(p, n), value) * 100real == value(p) * (n as int as real),
{
    reveal_with_fuel(program::exact, 3);
    let (r, m) = (value(p), n as int as real);
    let q = r / 100real;
    calculus::lemma_quotient(r, 100real);
    assert((q * m) * 100real == (q * 100real) * m) by (nonlinear_arith);
}

/// As many columns are kept as a share asks for, rounded up: no fewer, unless there
/// are fewer, and less than one more, unless that is none.
pub proof fn law_kept_count(share: Double, n: nat)
    requires
        n >= 1,
    ensures
        1 <= kept_count(share, n) <= n,
        kept_count(share, n) < n ==> kept_count(share, n) >= share.ceiling(),
        kept_count(share, n) > 1 ==> kept_count(share, n) <= share.ceiling(),
{
}

} // verus!
