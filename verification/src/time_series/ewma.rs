//! Exponentially weighted moving averages.
//!
//! [`ExponentiallyWeightedMovingAverage`] averages a column from its beginning
//! up to each row; the latest value weighs most.

use crate::calculus;
use crate::calculus::Calculus;
use crate::count;
use crate::double::Double;
use crate::draft;
use crate::draft::Draft;
use crate::error::Error;
use crate::error::ErrorView;
use crate::error::Problem;
use crate::frame;
use crate::frame::CellsView;
use crate::frame::Frame;
use crate::frame::FrameView;
use crate::frame::Number;
use crate::frame::Sheet;
use crate::frame::SheetColumnView;
use crate::frame::SheetView;
use crate::program;
use crate::program::Operation;
use crate::program::Program;
use crate::program::Query;
use crate::program::Term;
use crate::reals;
use crate::text;
use crate::text::Text;
use crate::util;
use vstd::prelude::*;

verus! {

/// How the smoothing factor is given.
#[derive(Clone, Copy, Debug, PartialEq, Eq, Structural)]
pub enum EWMASmoothing {
    /// The factor itself, in `(0, 1]`.
    Alpha(Double),
    /// A span of at least one: `2 / (span + 1)`.
    Span(Double),
    /// A center of mass of at least zero: `1 / (1 + com)`.
    Com(Double),
    /// A half-life above zero: `1 - 0.5 ^ (1 / half_life)`.
    HalfLife(Double),
}

/// What is computed.
#[derive(Clone, Copy, Debug, PartialEq, Eq, Structural)]
pub enum EWMAStatistic {
    /// The weighted mean.
    Mean,
    /// The weighted standard deviation.
    Std,
    /// The weighted variance.
    Var,
}

impl EWMAStatistic {
    /// The name of the statistic in the names of columns.
    pub open spec fn name(self) -> Seq<char> {
        match self {
            EWMAStatistic::Mean => "mean"@,
            EWMAStatistic::Std => "std"@,
            EWMAStatistic::Var => "var"@,
        }
    }

    /// The name of the statistic in the names of columns.
    fn label(self) -> (r: &'static str)
        ensures
            r@ == self.name(),
    {
        match self {
            EWMAStatistic::Mean => "mean",
            EWMAStatistic::Std => "std",
            EWMAStatistic::Var => "var",
        }
    }
}

/// How a column is averaged.
pub struct Averaging {
    pub statistic: EWMAStatistic,
    /// Whether the mean is divided by the sum of the weights.
    pub adjust: bool,
    /// The least number of values that give an average.
    pub min_periods: nat,
    /// Whether missing values are skipped; otherwise nothing follows them.
    pub ignore_na: bool,
}

/// The smoothing factor.
pub open spec fn factor(smoothing: EWMASmoothing) -> Term {
    match smoothing {
        EWMASmoothing::Alpha(a) => Term::Value(a),
        EWMASmoothing::Span(s) => Term::Over(
            Box::new(program::two()),
            Box::new(Term::Plus(Box::new(Term::Value(s)), Box::new(program::unit()))),
        ),
        EWMASmoothing::Com(c) => Term::Over(
            Box::new(program::unit()),
            Box::new(Term::Plus(Box::new(program::unit()), Box::new(Term::Value(c)))),
        ),
        EWMASmoothing::HalfLife(h) => Term::Minus(
            Box::new(program::unit()),
            Box::new(
                Term::Power(
                    Box::new(program::half()),
                    Box::new(Term::Over(Box::new(program::unit()), Box::new(Term::Value(h)))),
                ),
            ),
        ),
    }
}

/// What a smoothing asks of its factor: to be the number given; with a span `s`,
/// to give two when multiplied by `s + 1`; with a center of mass `m`, to give one
/// when multiplied by `1 + m`; and with a half-life `h`, to leave one half of a
/// weight after `h` steps.
pub proof fn law_factor(smoothing: EWMASmoothing, c: Calculus)
    requires
        c.grounded(),
        forall|x: real| #[trigger] (c.power)(x, 1real) == x,
        forall|x: real, y: real, z: real|
            #[trigger] (c.power)((c.power)(x, y), z) == (c.power)(x, y * z),
        match smoothing {
            EWMASmoothing::Alpha(_) => true,
            EWMASmoothing::Span(s) => (c.value)(s) >= 1real,
            EWMASmoothing::Com(m) => (c.value)(m) >= 0real,
            EWMASmoothing::HalfLife(h) => (c.value)(h) > 0real,
        },
    ensures
        ({
            let f = calculus::computed(factor(smoothing), c);
            match smoothing {
                EWMASmoothing::Alpha(a) => f == (c.value)(a),
                EWMASmoothing::Span(s) => f * ((c.value)(s) + 1real) == 2real,
                EWMASmoothing::Com(m) => f * (1real + (c.value)(m)) == 1real,
                EWMASmoothing::HalfLife(h) => (c.power)(1real - f, (c.value)(h)) * 2real == 1real,
            }
        }),
{
    reveal_with_fuel(calculus::computed, 4);
    match smoothing {
        EWMASmoothing::Alpha(_) => {},
        EWMASmoothing::Span(s) => {
            calculus::lemma_quotient(2real, (c.value)(s) + 1real);
        },
        EWMASmoothing::Com(m) => {
            calculus::lemma_quotient(1real, 1real + (c.value)(m));
        },
        EWMASmoothing::HalfLife(h) => {
            let f = calculus::computed(factor(smoothing), c);
            let half = (c.value)(Double { bits: crate::double::HALF });
            let (t, rate) = ((c.value)(h), 1real / (c.value)(h));
            assert(1real - f == (c.power)(half, rate));
            calculus::lemma_quotient(1real, t);
            assert((c.power)((c.power)(half, rate), t) == (c.power)(half, rate * t));
        },
    }
}

/// A greater span, center of mass or half-life has a lesser factor, so it smooths
/// more. A power of one half is lesser where its exponent is greater.
pub proof fn law_longer_smooths_more(a: Double, b: Double, c: Calculus)
    requires
        c.grounded(),
        1real <= (c.value)(a) < (c.value)(b),
        forall|x: real, y: real|
            x < y ==> (#[trigger] (c.power)(
                (c.value)(Double { bits: 0x3fe0_0000_0000_0000 }),
                x,
            )) > (#[trigger] (c.power)((c.value)(Double { bits: 0x3fe0_0000_0000_0000 }), y)),
    ensures
        calculus::computed(factor(EWMASmoothing::Span(b)), c) < calculus::computed(
            factor(EWMASmoothing::Span(a)),
            c,
        ),
        calculus::computed(factor(EWMASmoothing::Com(b)), c) < calculus::computed(
            factor(EWMASmoothing::Com(a)),
            c,
        ),
        calculus::computed(factor(EWMASmoothing::HalfLife(b)), c) < calculus::computed(
            factor(EWMASmoothing::HalfLife(a)),
            c,
        ),
{
    reveal_with_fuel(calculus::computed, 4);
    let (x, y) = ((c.value)(a), (c.value)(b));
    calculus::lemma_lesser_quotient(2real, x + 1real, y + 1real);
    calculus::lemma_lesser_quotient(1real, 1real + x, 1real + y);
    calculus::lemma_lesser_quotient(1real, x, y);
    let half = (c.value)(Double { bits: 0x3fe0_0000_0000_0000 });
    assert((c.power)(half, 1real / y) > (c.power)(half, 1real / x));
}

/// Whether a number is zero or less.
pub open spec fn at_most_zero(d: Double) -> bool {
    let zero = Double { bits: 0 };
    d.below(zero) || d.equals(zero)
}

/// Why a smoothing cannot be used.
pub open spec fn smoothing_fault(smoothing: EWMASmoothing) -> Option<ErrorView> {
    let zero = Double { bits: 0 };
    let one = Double { bits: crate::double::ONE };
    match smoothing {
        EWMASmoothing::Alpha(a) => if at_most_zero(a) || one.below(a) {
            Some(ErrorView::plain(Problem::InvalidAlpha(a), "EWMA"@))
        } else {
            None
        },
        EWMASmoothing::Span(s) => if s.below(one) {
            Some(ErrorView::plain(Problem::InvalidSpan(s), "EWMA"@))
        } else {
            None
        },
        EWMASmoothing::Com(c) => if c.below(zero) {
            Some(ErrorView::plain(Problem::InvalidCom(c), "EWMA"@))
        } else {
            None
        },
        EWMASmoothing::HalfLife(h) => if at_most_zero(h) {
            Some(ErrorView::plain(Problem::InvalidHalfLife(h), "EWMA"@))
        } else {
            None
        },
    }
}

/// Whether a number is a smoothing factor.
pub open spec fn usable(alpha: Double) -> bool {
    alpha.finite() && !at_most_zero(alpha) && !(Double { bits: crate::double::ONE }).below(alpha)
}

/// One less the smoothing factor.
pub open spec fn rest(alpha: Double) -> Term {
    Term::Minus(Box::new(program::unit()), Box::new(Term::Value(alpha)))
}

/// The sum of the values, each weighing `1 - alpha` times what the next one
/// weighs.
pub open spec fn weighted_sum(values: Seq<Double>, alpha: Double) -> Term
    decreases values.len(),
{
    if values.len() == 0 {
        program::nothing()
    } else {
        Term::Plus(
            Box::new(Term::Value(values.last())),
            Box::new(
                Term::Times(
                    Box::new(rest(alpha)),
                    Box::new(weighted_sum(values.drop_last(), alpha)),
                ),
            ),
        )
    }
}

/// The sum of the weights of `n` values.
pub open spec fn total_weight(n: nat, alpha: Double) -> Term
    decreases n,
{
    if n == 0 {
        program::nothing()
    } else {
        Term::Plus(
            Box::new(program::unit()),
            Box::new(
                Term::Times(
                    Box::new(rest(alpha)),
                    Box::new(total_weight((n - 1) as nat, alpha)),
                ),
            ),
        )
    }
}

/// The mean that moves from each value towards the next by the factor.
pub open spec fn moving_mean(values: Seq<Double>, alpha: Double) -> Term
    decreases values.len(),
{
    if values.len() <= 1 {
        Term::Value(values[0])
    } else {
        Term::Plus(
            Box::new(
                Term::Times(Box::new(Term::Value(alpha)), Box::new(Term::Value(values.last()))),
            ),
            Box::new(
                Term::Times(
                    Box::new(rest(alpha)),
                    Box::new(moving_mean(values.drop_last(), alpha)),
                ),
            ),
        )
    }
}

/// The variance about the moving mean.
pub open spec fn moving_variance(values: Seq<Double>, alpha: Double) -> Term
    decreases values.len(),
{
    if values.len() <= 1 {
        program::nothing()
    } else {
        let front = values.drop_last();
        let distance = Term::Minus(
            Box::new(Term::Value(values.last())),
            Box::new(moving_mean(front, alpha)),
        );
        Term::Times(
            Box::new(rest(alpha)),
            Box::new(
                Term::Plus(
                    Box::new(moving_variance(front, alpha)),
                    Box::new(
                        Term::Times(
                            Box::new(Term::Value(alpha)),
                            Box::new(Term::Square(Box::new(distance))),
                        ),
                    ),
                ),
            ),
        )
    }
}

/// What is computed of the values so far.
pub open spec fn average(
    statistic: EWMAStatistic,
    adjust: bool,
    values: Seq<Double>,
    alpha: Double,
) -> Term {
    match statistic {
        EWMAStatistic::Mean => if adjust {
            Term::Over(
                Box::new(weighted_sum(values, alpha)),
                Box::new(total_weight(values.len(), alpha)),
            )
        } else {
            moving_mean(values, alpha)
        },
        EWMAStatistic::Var => moving_variance(values, alpha),
        EWMAStatistic::Std => Term::Root(Box::new(moving_variance(values, alpha))),
    }
}

/// The least number of values that give an average; a variance takes two.
pub open spec fn needed(statistic: EWMAStatistic, min_periods: nat) -> nat {
    if statistic is Mean || min_periods >= 2 {
        min_periods
    } else {
        2
    }
}

/// Whether nothing follows a missing value among the first `n` cells.
pub open spec fn broken(cells: Seq<Option<Double>>, ignore_na: bool, n: int) -> bool {
    !ignore_na && exists|k: int| 0 <= k < n && (#[trigger] cells[k]) is None
}

/// The average at row `i`.
pub open spec fn average_at(
    s: Averaging,
    cells: Seq<Option<Double>>,
    alpha: Double,
    i: int,
) -> Option<Term> {
    let values = frame::present(cells.take(i + 1));
    if cells[i] is None || broken(cells, s.ignore_na, i) || values.len() < needed(
        s.statistic,
        s.min_periods,
    ) {
        None
    } else {
        Some(average(s.statistic, s.adjust, values, alpha))
    }
}

/// The averages of a column.
pub open spec fn averages(s: Averaging, cells: Seq<Option<Double>>, alpha: Double) -> Seq<
    Option<Term>,
> {
    Seq::new(cells.len(), |i: int| average_at(s, cells, alpha, i))
}

/// The name of the column of averages, where `shown` is how the factor is
/// written.
pub open spec fn average_name(
    column: Seq<char>,
    statistic: EWMAStatistic,
    shown: Seq<char>,
) -> Seq<char> {
    column + "_ewm_"@ + statistic.name() + "_"@ + shown
}

/// The names of the columns of averages.
pub open spec fn average_names(
    columns: Seq<Seq<char>>,
    statistic: EWMAStatistic,
    shown: Seq<char>,
) -> Seq<Seq<char>> {
    Seq::new(columns.len(), |k: int| average_name(columns[k], statistic, shown))
}

/// Why the averages of some columns cannot be added to a frame.
pub open spec fn columns_fault(
    columns: Seq<Seq<char>>,
    statistic: EWMAStatistic,
    shown: Seq<char>,
    x: FrameView,
) -> Option<ErrorView>
    decreases columns.len(),
{
    if columns.len() == 0 {
        None
    } else {
        let front = columns.drop_last();
        let name = average_name(columns.last(), statistic, shown);
        match columns_fault(front, statistic, shown, x) {
            Some(e) => Some(e),
            None => match util::number_fault("EWMA"@, x, columns.last()) {
                Some(e) => Some(e),
                None => if x.find(name) is Some {
                    Some(ErrorView::about(Problem::NameTaken, "EWMA"@, name))
                } else if average_names(front, statistic, shown).contains(name) {
                    Some(ErrorView::about(Problem::NameRepeated, "EWMA"@, name))
                } else {
                    None
                },
            },
        }
    }
}

/// Why a fit cannot begin.
pub open spec fn ewma_fault(
    columns: Seq<Seq<char>>,
    smoothing: EWMASmoothing,
    x: FrameView,
) -> Option<ErrorView> {
    if x.height == 0 {
        Some(ErrorView::plain(Problem::NoRows, "EWMA"@))
    } else if columns.len() == 0 {
        Some(ErrorView::plain(Problem::NoColumnsGiven, "EWMA"@))
    } else {
        smoothing_fault(smoothing)
    }
}

/// Why a fit cannot be finished with a factor.
pub open spec fn finish_fault(
    columns: Seq<Seq<char>>,
    statistic: EWMAStatistic,
    x: FrameView,
    alpha: Double,
    shown: Seq<char>,
) -> Option<ErrorView> {
    if !usable(alpha) {
        Some(ErrorView::plain(Problem::NonFiniteAlpha(alpha), "EWMA"@))
    } else {
        columns_fault(columns, statistic, shown, x)
    }
}

/// The columns after the averages of one more column were laid.
pub open spec fn average_step(x: FrameView, s: Averaging, alpha: Double, shown: Seq<char>) -> spec_fn(
    Seq<SheetColumnView>,
    Seq<char>,
) -> Result<Seq<SheetColumnView>, ErrorView> {
    |made: Seq<SheetColumnView>, column: Seq<char>|
        match util::number_fault("EWMA"@, x, column) {
            Some(e) => Err(e),
            None => Ok(
                draft::laid(
                    made,
                    SheetColumnView {
                        name: average_name(column, s.statistic, shown),
                        cells: CellsView::Float64(
                            averages(s, x.columns[x.find(column)->0].values->Float64_0, alpha),
                        ),
                    },
                ),
            ),
        }
}

/// The first generated name that the frame has already.
pub open spec fn taken_name(names: Seq<Seq<char>>, x: FrameView) -> Option<ErrorView> {
    crate::error::first_fault(
        names,
        |name: Seq<char>|
            if x.find(name) is Some {
                Some(ErrorView::about(Problem::NameTaken, "EWMA"@, name))
            } else {
                None
            },
    )
}

/// What a transformer makes of a frame.
pub open spec fn ewma_outcome(
    columns: Seq<Seq<char>>,
    s: Averaging,
    fitted: Option<(Double, Seq<char>)>,
    x: FrameView,
) -> Result<SheetView, ErrorView> {
    match fitted {
        None => Err(
            ErrorView::plain(Problem::NotFitted, "ExponentiallyWeightedMovingAverage"@),
        ),
        Some((alpha, shown)) => match taken_name(average_names(columns, s.statistic, shown), x) {
            Some(e) => Err(e),
            None => match draft::steps(
                frame::kept_columns(x),
                columns,
                average_step(x, s, alpha, shown),
            ) {
                Err(e) => Err(e),
                Ok(made) => Ok(SheetView { height: x.height, columns: made }),
            },
        },
    }
}

/// Columns that were accepted by a fit are named once each.
proof fn lemma_columns_differ(
    columns: Seq<Seq<char>>,
    statistic: EWMAStatistic,
    shown: Seq<char>,
    x: FrameView,
)
    requires
        columns_fault(columns, statistic, shown, x) is None,
    ensures
        forall|i: int, j: int|
            0 <= i < j < columns.len() ==> #[trigger] columns[i] != #[trigger] columns[j],
    decreases columns.len(),
{
    if columns.len() > 0 {
        let front = columns.drop_last();
        let n = columns.len() - 1;
        lemma_columns_differ(front, statistic, shown, x);
        assert forall|i: int, j: int| 0 <= i < j < columns.len() implies #[trigger] columns[i]
            != #[trigger] columns[j] by {
            assert(front[i] == columns[i]);
            if j < n {
                assert(front[j] == columns[j]);
            } else if columns[i] == columns[n] {
                assert(average_names(front, statistic, shown)[i] == average_name(
                    columns.last(),
                    statistic,
                    shown,
                ));
            }
        }
    }
}

/// The averages of two columns have the same name only where the columns have.
proof fn lemma_average_name(
    a: Seq<char>,
    b: Seq<char>,
    statistic: EWMAStatistic,
    shown: Seq<char>,
)
    requires
        average_name(a, statistic, shown) == average_name(b, statistic, shown),
    ensures
        a == b,
{
    let left = average_name(a, statistic, shown);
    let right = average_name(b, statistic, shown);
    let tail = "_ewm_"@ + statistic.name() + "_"@ + shown;
    assert(left =~= a + tail);
    assert(right =~= b + tail);
    assert(left.len() == a.len() + tail.len());
    assert(right.len() == b.len() + tail.len());
    assert forall|i: int| 0 <= i < a.len() implies a[i] == b[i] by {
        assert(left[i] == a[i]);
        assert(right[i] == b[i]);
    }
    assert(a =~= b);
}

/// After a fit to a frame the columns of every frame pass through unchanged,
/// and the averages follow them in the order of the columns.
pub proof fn law_averages_appended(
    columns: Seq<Seq<char>>,
    s: Averaging,
    alpha: Double,
    shown: Seq<char>,
    seen: FrameView,
    x: FrameView,
)
    requires
        columns_fault(columns, s.statistic, shown, seen) is None,
        x.valid(),
        ewma_outcome(columns, s, Some((alpha, shown)), x) is Ok,
    ensures
        ({
            let made = ewma_outcome(columns, s, Some((alpha, shown)), x)->Ok_0.columns;
            let kept = frame::kept_columns(x);
            &&& made.len() == kept.len() + columns.len()
            &&& made.take(kept.len() as int) == kept
            &&& frame::sheet_names(made.skip(kept.len() as int)) == average_names(
                columns,
                s.statistic,
                shown,
            )
        }),
{
    let names = average_names(columns, s.statistic, shown);
    let kept = frame::kept_columns(x);
    let step = average_step(x, s, alpha, shown);
    let fault = |name: Seq<char>|
        if x.find(name) is Some {
            Some(ErrorView::about(Problem::NameTaken, "EWMA"@, name))
        } else {
            None
        };
    lemma_columns_differ(columns, s.statistic, shown, seen);
    assert(taken_name(names, x) == crate::error::first_fault(names, fault));
    crate::error::lemma_faultless(names, fault);
    assert forall|k: int| 0 <= k < names.len() implies !frame::sheet_names(kept).contains(
        #[trigger] names[k],
    ) by {
        assert(fault(names[k]) is None);
        if frame::sheet_names(kept).contains(names[k]) {
            let i = choose|i: int|
                0 <= i < kept.len() && frame::sheet_names(kept)[i] == names[k];
            assert(x.holds(names[k], i));
        }
    }
    assert forall|j: int, k: int| 0 <= j < k < names.len() implies #[trigger] names[j]
        != #[trigger] names[k] by {
        if names[j] == names[k] {
            lemma_average_name(columns[j], columns[k], s.statistic, shown);
        }
    }
    assert forall|k: int| 0 <= k < columns.len() implies draft::lays(
        step,
        #[trigger] columns[k],
        names[k],
    ) by {
        assert forall|made: Seq<SheetColumnView>| #[trigger]
            step(made, columns[k]) is Ok implies exists|c: SheetColumnView|
            c.name == names[k] && step(made, columns[k])->Ok_0 == #[trigger] draft::laid(
                made,
                c,
            ) by {
            let c = SheetColumnView {
                name: names[k],
                cells: CellsView::Float64(
                    averages(s, x.columns[x.find(columns[k])->0].values->Float64_0, alpha),
                ),
            };
            assert(step(made, columns[k])->Ok_0 == draft::laid(made, c));
        }
    }
    draft::lemma_steps_append(kept, columns, step, names);
}

/// Unless missing values are skipped, nothing stands in the row of a missing
/// value and in the rows after it.
pub proof fn law_missing_ends(
    s: Averaging,
    cells: Seq<Option<Double>>,
    alpha: Double,
    k: int,
    i: int,
)
    requires
        !s.ignore_na,
        0 <= k <= i < cells.len(),
        cells[k] is None,
    ensures
        averages(s, cells, alpha)[i] is None,
{
    if k < i {
        assert(broken(cells, s.ignore_na, i));
    }
}

/// Where missing values are skipped, nothing stands in their rows, and every
/// other row has the average that it would have if they were not there.
pub proof fn law_missing_skipped(
    s: Averaging,
    cells: Seq<Option<Double>>,
    alpha: Double,
    i: int,
)
    requires
        s.ignore_na,
        0 <= i < cells.len(),
    ensures
        ({
            let seen = frame::all_present(frame::present(cells.take(i + 1)));
            if cells[i] is None {
                averages(s, cells, alpha)[i] is None
            } else {
                &&& seen.len() > 0
                &&& averages(s, cells, alpha)[i] == averages(s, seen, alpha).last()
            }
        }),
{
    let values = frame::present(cells.take(i + 1));
    let seen = frame::all_present(values);
    frame::lemma_all_present(values);
    if cells[i] is Some {
        assert(cells.take(i + 1).last() == cells[i]);
        assert(seen.take(seen.len() as int) =~= seen);
    }
}

/// An average depends on no later row: the averages of the first `k` cells are
/// the first `k` averages.
pub proof fn law_averages_of_beginning(
    s: Averaging,
    cells: Seq<Option<Double>>,
    alpha: Double,
    k: int,
)
    requires
        0 <= k <= cells.len(),
    ensures
        averages(s, cells.take(k), alpha) == averages(s, cells, alpha).take(k),
{
    let some = averages(s, cells.take(k), alpha);
    let all = averages(s, cells, alpha);
    assert forall|i: int| 0 <= i < k implies some[i] == all[i] by {
        assert(cells.take(k).take(i + 1) =~= cells.take(i + 1));
        if broken(cells, s.ignore_na, i) {
            let m = choose|m: int| 0 <= m < i && (#[trigger] cells[m]) is None;
            assert(cells.take(k)[m] is None);
        }
        if broken(cells.take(k), s.ignore_na, i) {
            let m = choose|m: int| 0 <= m < i && (#[trigger] cells.take(k)[m]) is None;
            assert(cells[m] is None);
        }
    }
    assert(some =~= all.take(k));
}

/// Where missing values are skipped, nothing stands in their rows, and the
/// other rows, taken together, are the averages of the values alone: nothing
/// until there are as many values as needed, and a number from then on.
pub proof fn law_averages_of_values(s: Averaging, cells: Seq<Option<Double>>, alpha: Double)
    requires
        s.ignore_na,
    ensures
        averages(s, cells, alpha).len() == cells.len(),
        forall|i: int|
            0 <= i < cells.len() && cells[i] is None ==> (#[trigger] averages(
                s,
                cells,
                alpha,
            )[i]) is None,
        frame::beside(cells, averages(s, cells, alpha)) == averages(
            s,
            frame::all_present(frame::present(cells)),
            alpha,
        ),
        forall|m: int|
            0 <= m < frame::present(cells).len() ==> ((#[trigger] averages(
                s,
                frame::all_present(frame::present(cells)),
                alpha,
            )[m]) is Some <==> m + 1 >= needed(s.statistic, s.min_periods)),
    decreases cells.len(),
{
    let all = averages(s, cells, alpha);
    let values = frame::present(cells);
    let seen = frame::all_present(values);
    let wanted = averages(s, seen, alpha);
    assert forall|m: int| 0 <= m < values.len() implies ((#[trigger] wanted[m]) is Some <==> m + 1
        >= needed(s.statistic, s.min_periods)) by {
        assert(seen.take(m + 1) =~= frame::all_present(values.take(m + 1)));
        frame::lemma_all_present(values.take(m + 1));
    }
    if cells.len() == 0 {
        assert(frame::beside(cells, all) =~= wanted);
    } else {
        let n = cells.len() as int;
        let front = cells.drop_last();
        assert(front =~= cells.take(n - 1));
        assert(cells.take(n) =~= cells);
        law_averages_of_values(s, front, alpha);
        law_averages_of_beginning(s, cells, alpha, n - 1);
        let before = averages(s, front, alpha);
        assert forall|i: int| 0 <= i < front.len() implies #[trigger] all[i] == before[i] by {
            assert(all.take(n - 1)[i] == all[i]);
        }
        frame::lemma_beside(front, all, before);
        law_missing_skipped(s, cells, alpha, n - 1);
        if cells.last() is Some {
            let m = seen.len() as int;
            law_averages_of_beginning(s, seen, alpha, m - 1);
            assert(seen.take(m - 1) =~= frame::all_present(frame::present(front)));
            assert(wanted =~= wanted.take(m - 1).push(wanted.last()));
        }
    }
}

/// Nothing stands in a row up to which there are fewer values than needed; a
/// variance needs two.
pub proof fn law_enough_values(s: Averaging, cells: Seq<Option<Double>>, alpha: Double, i: int)
    requires
        0 <= i < cells.len(),
        averages(s, cells, alpha)[i] is Some,
    ensures
        frame::present(cells.take(i + 1)).len() >= s.min_periods,
        s.statistic !is Mean ==> frame::present(cells.take(i + 1)).len() >= 2,
{
}

/// The averages of a column, as a whole. There is one cell for each cell; a row
/// without a value has none, nor has one up to which there are fewer values than
/// needed. No average depends on a later row: the averages of the first `k`
/// cells are the first `k` averages. Unless missing values are skipped, nothing
/// stands from the first one on; where they are, the averages beside the values
/// are those of the values alone.
pub proof fn law_averages(s: Averaging, cells: Seq<Option<Double>>, alpha: Double)
    ensures
        ({
            let all = averages(s, cells, alpha);
            &&& all.len() == cells.len()
            &&& forall|i: int|
                0 <= i < cells.len() && cells[i] is None ==> (#[trigger] all[i]) is None
            &&& forall|i: int|
                0 <= i < cells.len() && frame::present(cells.take(i + 1)).len() < needed(
                    s.statistic,
                    s.min_periods,
                ) ==> (#[trigger] all[i]) is None
            &&& forall|k: int|
                0 <= k <= cells.len() ==> #[trigger] averages(s, cells.take(k), alpha) == all.take(
                    k,
                )
            &&& !s.ignore_na ==> forall|k: int, i: int|
                0 <= k <= i < cells.len() && (#[trigger] cells[k]) is None ==> (
                #[trigger] all[i]) is None
            &&& s.ignore_na ==> frame::beside(cells, all) == averages(
                s,
                frame::all_present(frame::present(cells)),
                alpha,
            )
        }),
{
    let all = averages(s, cells, alpha);
    assert forall|k: int| 0 <= k <= cells.len() implies #[trigger] averages(
        s,
        cells.take(k),
        alpha,
    ) == all.take(k) by {
        law_averages_of_beginning(s, cells, alpha, k);
    }
    if s.ignore_na {
        law_averages_of_values(s, cells, alpha);
    } else {
        assert forall|k: int, i: int|
            0 <= k <= i < cells.len() && (#[trigger] cells[k]) is None implies (
        #[trigger] all[i]) is None by {
            law_missing_ends(s, cells, alpha, k, i);
        }
    }
}

/// Adjusting changes the mean only.
pub proof fn law_adjust_spares_variance(s: Averaging, cells: Seq<Option<Double>>, alpha: Double)
    requires
        s.statistic !is Mean,
    ensures
        averages(s, cells, alpha) == averages(
            (Averaging { adjust: !s.adjust, ..s }),
            cells,
            alpha,
        ),
{
    let other = Averaging { adjust: !s.adjust, ..s };
    assert(averages(s, cells, alpha) =~= averages(other, cells, alpha));
}

/// The power of a real number.
pub open spec fn power(q: real, n: nat) -> real
    decreases n,
{
    if n == 0 {
        1real
    } else {
        q * power(q, (n - 1) as nat)
    }
}

/// The sum of the last `n` values, the value `j` places before the last one
/// weighing the power `j` of `q`.
pub open spec fn decayed_sum(
    values: Seq<Double>,
    q: real,
    value: spec_fn(Double) -> real,
    n: nat,
) -> real
    decreases n,
{
    if n == 0 {
        0real
    } else {
        decayed_sum(values, q, value, (n - 1) as nat) + power(q, (n - 1) as nat) * value(
            values[values.len() - n],
        )
    }
}

/// The sum of the first `n` powers of `q`.
pub open spec fn decayed_weight(q: real, n: nat) -> real
    decreases n,
{
    if n == 0 {
        0real
    } else {
        decayed_weight(q, (n - 1) as nat) + power(q, (n - 1) as nat)
    }
}

/// In exact arithmetic the adjusted mean is the sum of the values, each
/// weighing the power of `1 - alpha` by its age, over the sum of the weights.
pub proof fn law_adjusted_mean(values: Seq<Double>, alpha: Double, value: spec_fn(Double) -> real)
    requires
        value(Double { bits: 0 }) == 0real,
        value(Double { bits: crate::double::ONE }) == 1real,
    ensures
        program::exact(average(EWMAStatistic::Mean, true, values, alpha), value) == decayed_sum(
            values,
            1real - value(alpha),
            value,
            values.len(),
        ) / decayed_weight(1real - value(alpha), values.len()),
{
    lemma_weighted_sum(values, alpha, value);
    lemma_total_weight(values.len(), alpha, value);
    reveal_with_fuel(program::exact, 2);
}

/// The exact weighted sum.
proof fn lemma_weighted_sum(values: Seq<Double>, alpha: Double, value: spec_fn(Double) -> real)
    requires
        value(Double { bits: 0 }) == 0real,
        value(Double { bits: crate::double::ONE }) == 1real,
    ensures
        program::exact(weighted_sum(values, alpha), value) == decayed_sum(
            values,
            1real - value(alpha),
            value,
            values.len(),
        ),
    decreases values.len(),
{
    reveal_with_fuel(program::exact, 4);
    if values.len() > 0 {
        lemma_weighted_sum(values.drop_last(), alpha, value);
        lemma_shifted_sum(values, 1real - value(alpha), value, (values.len() - 1) as nat);
    }
}

/// A decayed sum by its last value and the sum of those before.
proof fn lemma_shifted_sum(
    values: Seq<Double>,
    q: real,
    value: spec_fn(Double) -> real,
    n: nat,
)
    requires
        n < values.len(),
    ensures
        decayed_sum(values, q, value, n + 1) == value(values.last()) + q * decayed_sum(
            values.drop_last(),
            q,
            value,
            n,
        ),
    decreases n,
{
    let front = values.drop_last();
    if n == 0 {
        reveal_with_fuel(decayed_sum, 3);
        reveal_with_fuel(power, 2);
        let v = value(values.last());
        assert(1real * v == v) by (nonlinear_arith);
        assert(q * 0real == 0real) by (nonlinear_arith);
    } else {
        lemma_shifted_sum(values, q, value, (n - 1) as nat);
        let a = decayed_sum(front, q, value, (n - 1) as nat);
        let p = power(q, (n - 1) as nat);
        let v = value(values[values.len() - (n + 1)]);
        assert(front[front.len() - n] == values[values.len() - (n + 1)]);
        assert((q * p) * v == q * (p * v)) by (nonlinear_arith);
        assert(q * (a + p * v) == q * a + q * (p * v)) by (nonlinear_arith);
    }
}

/// The exact sum of the weights.
proof fn lemma_total_weight(n: nat, alpha: Double, value: spec_fn(Double) -> real)
    requires
        value(Double { bits: 0 }) == 0real,
        value(Double { bits: crate::double::ONE }) == 1real,
    ensures
        program::exact(total_weight(n, alpha), value) == decayed_weight(1real - value(alpha), n),
    decreases n,
{
    reveal_with_fuel(program::exact, 4);
    if n > 0 {
        lemma_total_weight((n - 1) as nat, alpha, value);
        lemma_shifted_weight(1real - value(alpha), (n - 1) as nat);
    }
}

/// A sum of weights by the weights before.
proof fn lemma_shifted_weight(q: real, n: nat)
    ensures
        decayed_weight(q, n + 1) == 1real + q * decayed_weight(q, n),
    decreases n,
{
    if n == 0 {
        reveal_with_fuel(decayed_weight, 3);
        reveal_with_fuel(power, 2);
        assert(q * 0real == 0real) by (nonlinear_arith);
    } else {
        lemma_shifted_weight(q, (n - 1) as nat);
        let a = decayed_weight(q, (n - 1) as nat);
        let p = power(q, (n - 1) as nat);
        assert(q * (a + p) == q * a + q * p) by (nonlinear_arith);
    }
}

/// The weight of value `j` of `n`, where each step draws the mean towards the next
/// value by `1 - q`: the power of `q` by its age, times `1 - q` but for the first.
pub open spec fn drawn_weight(q: real, n: nat, j: int) -> real {
    let aged = power(q, (n - 1 - j) as nat);
    if j == 0 {
        aged
    } else {
        (1real - q) * aged
    }
}

/// The sum of numbers, each with its weight.
pub open spec fn drawn_mean(list: Seq<real>, q: real) -> real {
    reals::total(Seq::new(list.len(), |j: int| drawn_weight(q, list.len(), j) * list[j]))
}

/// One more number draws the mean towards it.
proof fn lemma_drawn(list: Seq<real>, x: real, q: real)
    requires
        list.len() > 0,
    ensures
        drawn_mean(list.push(x), q) == (1real - q) * x + q * drawn_mean(list, q),
{
    let n = list.len();
    let more = list.push(x);
    let parts = Seq::new(n, |j: int| drawn_weight(q, n, j) * list[j]);
    let all = Seq::new(more.len(), |j: int| drawn_weight(q, more.len(), j) * more[j]);
    let front = all.drop_last();
    assert forall|j: int| 0 <= j < n implies #[trigger] front[j] == q * parts[j] + 0real by {
        let p = power(q, (n - 1 - j) as nat);
        let v = list[j];
        assert(power(q, (n - j) as nat) == q * p);
        assert((q * p) * v == q * (p * v)) by (nonlinear_arith);
        assert(((1real - q) * (q * p)) * v == q * (((1real - q) * p) * v)) by (nonlinear_arith);
    }
    reals::lemma_moved(parts, front, q, 0real);
    let k = n as int as real;
    assert(0real * k == 0real) by (nonlinear_arith);
    assert(power(q, 0) == 1real);
    assert(all.last() == ((1real - q) * 1real) * x);
    assert(((1real - q) * 1real) * x == (1real - q) * x) by (nonlinear_arith);
}

/// The values of numbers, and their squares.
pub open spec fn values_of(list: Seq<Double>, c: Calculus) -> Seq<real> {
    Seq::new(list.len(), |k: int| (c.value)(list[k]))
}

/// The squares of numbers.
pub open spec fn squares_of(list: Seq<real>) -> Seq<real> {
    Seq::new(list.len(), |k: int| list[k] * list[k])
}

/// The moving mean and variance.
proof fn lemma_moving(values: Seq<Double>, alpha: Double, c: Calculus)
    requires
        values.len() > 0,
        c.grounded(),
        0real <= (c.value)(alpha) <= 1real,
    ensures
        ({
            let q = 1real - (c.value)(alpha);
            let xs = values_of(values, c);
            let m = drawn_mean(xs, q);
            &&& calculus::computed(moving_mean(values, alpha), c) == m
            &&& calculus::computed(moving_variance(values, alpha), c) == drawn_mean(
                squares_of(xs),
                q,
            ) - m * m
            &&& calculus::computed(moving_variance(values, alpha), c) >= 0real
        }),
    decreases values.len(),
{
    let a = (c.value)(alpha);
    let q = 1real - a;
    let xs = values_of(values, c);
    let n = values.len();
    if n == 1 {
        let x = xs[0];
        assert(power(q, 0) == 1real);
        let list = Seq::new(1, |j: int| drawn_weight(q, 1, j) * xs[j]);
        let squares = squares_of(xs);
        let others = Seq::new(1, |j: int| drawn_weight(q, 1, j) * squares[j]);
        assert(1real * x == x && 1real * (x * x) == x * x) by (nonlinear_arith);
        assert(list.drop_last() =~= Seq::empty() && others.drop_last() =~= Seq::empty());
        assert(reals::total(list.drop_last()) == 0real && reals::total(others.drop_last())
            == 0real);
        assert(reals::total(list) == x && reals::total(others) == x * x);
        assert(Seq::new(xs.len(), |j: int| drawn_weight(q, xs.len(), j) * xs[j]) =~= list);
        assert(Seq::new(squares.len(), |j: int| drawn_weight(q, squares.len(), j) * squares[j])
            =~= others);
    } else {
        let front = values.drop_last();
        let ys = values_of(front, c);
        let x = (c.value)(values.last());
        lemma_moving(front, alpha, c);
        assert(xs =~= ys.push(x));
        assert(squares_of(xs) =~= squares_of(ys).push(x * x));
        lemma_drawn(ys, x, q);
        lemma_drawn(squares_of(ys), x * x, q);
        let m = drawn_mean(ys, q);
        let s = drawn_mean(squares_of(ys), q);
        let v = s - m * m;
        reveal_with_fuel(calculus::computed, 6);
        assert(calculus::computed(moving_mean(values, alpha), c) == a * x + q * m);
        assert(calculus::computed(moving_variance(values, alpha), c) == q * (v + a * ((x - m) * (x
            - m))));
        lemma_variance_step(a, x, m, s);
        let d = (x - m) * (x - m);
        assert(d >= 0real) by (nonlinear_arith)
            requires
                d == (x - m) * (x - m),
        ;
        calculus::lemma_product(a, d);
        calculus::lemma_product(q, v + a * d);
    }
}

/// How the variance moves with the mean and the mean of the squares.
proof fn lemma_variance_step(a: real, x: real, m: real, s: real)
    ensures
        (1real - a) * ((s - m * m) + a * ((x - m) * (x - m))) == (a * (x * x) + (1real - a) * s) - (a
            * x + (1real - a) * m) * (a * x + (1real - a) * m),
{
    let q = 1real - a;
    let (xx, mm, xm) = (x * x, m * m, x * m);
    let w = q * a;
    assert((x - m) * (x - m) == xx - 2real * xm + mm) by (nonlinear_arith)
        requires
            xx == x * x,
            mm == m * m,
            xm == x * m,
    ;
    let d = xx - 2real * xm + mm;
    let v = s - mm;
    assert(q * (v + a * d) == q * v + (q * a) * d) by (nonlinear_arith);
    assert(q * (s - mm) == q * s - q * mm) by (nonlinear_arith);
    assert(w * (xx - 2real * xm + mm) == w * xx - 2real * (w * xm) + w * mm) by (nonlinear_arith);
    let (u, t) = (a * x, q * m);
    assert((u + t) * (u + t) == u * u + 2real * (u * t) + t * t) by (nonlinear_arith);
    assert((a * x) * (a * x) == (a * a) * (x * x)) by (nonlinear_arith);
    assert((a * x) * (q * m) == (q * a) * (x * m)) by (nonlinear_arith);
    assert((q * m) * (q * m) == (q * q) * (m * m)) by (nonlinear_arith);
    assert((1real - a) * a == a - a * a) by (nonlinear_arith);
    assert((1real - a) * (1real - a) == 1real - a - (a - a * a)) by (nonlinear_arith);
    let aa = a * a;
    assert((a - aa) * xx == a * xx - aa * xx) by (nonlinear_arith);
    assert((q - w) * mm == q * mm - w * mm) by (nonlinear_arith);
    assert(q * q == q - w);
}

/// What is computed of the values so far, in exact arithmetic, with `q` for
/// `1 - alpha`. The mean that is not adjusted weighs each value by `1 - q` times
/// the power of `q` by its age, and the first by the power alone. The variance is
/// the mean of the squares, so weighed, less the square of the mean; it is not
/// negative. The standard deviation is not negative, and its square is the
/// variance.
pub proof fn law_moving_statistics(values: Seq<Double>, alpha: Double, adjust: bool, c: Calculus)
    requires
        values.len() > 0,
        c.grounded(),
        c.rooted(),
        0real <= (c.value)(alpha) <= 1real,
    ensures
        ({
            let q = 1real - (c.value)(alpha);
            let xs = values_of(values, c);
            let m = drawn_mean(xs, q);
            let v = calculus::computed(average(EWMAStatistic::Var, adjust, values, alpha), c);
            let d = calculus::computed(average(EWMAStatistic::Std, adjust, values, alpha), c);
            &&& calculus::computed(average(EWMAStatistic::Mean, false, values, alpha), c) == m
            &&& v == drawn_mean(squares_of(xs), q) - m * m
            &&& v >= 0real
            &&& d >= 0real
            &&& d * d == v
        }),
{
    lemma_moving(values, alpha, c);
    assert(calculus::computed(average(EWMAStatistic::Std, adjust, values, alpha), c) == (c.root)(
        calculus::computed(moving_variance(values, alpha), c),
    ));
}

/// In exact arithmetic a factor of one does not smooth: each mean is the value
/// of its row.
pub proof fn law_no_smoothing(
    values: Seq<Double>,
    adjust: bool,
    alpha: Double,
    value: spec_fn(Double) -> real,
)
    requires
        values.len() > 0,
        value(Double { bits: 0 }) == 0real,
        value(Double { bits: crate::double::ONE }) == 1real,
        value(alpha) == 1real,
    ensures
        program::exact(average(EWMAStatistic::Mean, adjust, values, alpha), value) == value(
            values.last(),
        ),
{
    reveal_with_fuel(program::exact, 6);
    let v = value(values.last());
    let front = values.drop_last();
    if adjust {
        let s = program::exact(weighted_sum(front, alpha), value);
        let t = program::exact(total_weight((values.len() - 1) as nat, alpha), value);
        assert(0real * s == 0real) by (nonlinear_arith);
        assert(0real * t == 0real) by (nonlinear_arith);
        assert(v / 1real == v) by (nonlinear_arith);
    } else if values.len() > 1 {
        let m = program::exact(moving_mean(front, alpha), value);
        assert(0real * m == 0real) by (nonlinear_arith);
        assert(1real * v == v) by (nonlinear_arith);
    }
}

/// Whether two places of a program follow the values so far.
spec fn follows(
    statistic: EWMAStatistic,
    adjust: bool,
    values: Seq<Double>,
    alpha: Double,
    at: (usize, usize),
    terms: Seq<Term>,
) -> bool {
    &&& at.0 < terms.len()
    &&& at.1 < terms.len()
    &&& if statistic is Mean && adjust {
        &&& terms[at.0 as int] == weighted_sum(values, alpha)
        &&& terms[at.1 as int] == total_weight(values.len(), alpha)
    } else if values.len() == 0 {
        true
    } else {
        &&& terms[at.0 as int] == moving_mean(values, alpha)
        &&& !(statistic is Mean) ==> terms[at.1 as int] == moving_variance(values, alpha)
    }
}

/// The places of the factor, of one, and of one less the factor.
struct Constants {
    alpha: usize,
    one: usize,
    rest: usize,
}

impl Constants {
    spec fn hold(self, alpha: Double, terms: Seq<Term>) -> bool {
        &&& self.alpha < terms.len()
        &&& terms[self.alpha as int] == Term::Value(alpha)
        &&& self.one < terms.len()
        &&& terms[self.one as int] == program::unit()
        &&& self.rest < terms.len()
        &&& terms[self.rest as int] == rest(alpha)
    }
}

/// Appends what follows from one more value: the two places, and the place of
/// the average.
fn append_value(
    statistic: EWMAStatistic,
    adjust: bool,
    first: bool,
    at: (usize, usize),
    v: Double,
    c: &Constants,
    program: &mut Program,
    values: Ghost<Seq<Double>>,
    alpha: Ghost<Double>,
) -> (r: (usize, usize, usize))
    requires
        first == (values@.len() == 0),
        c.hold(alpha@, old(program)@),
        follows(statistic, adjust, values@, alpha@, at, old(program)@),
    ensures
        program::extends(old(program)@, final(program)@),
        follows(statistic, adjust, values@.push(v), alpha@, (r.0, r.1), final(program)@),
        r.2 < final(program)@.len(),
        statistic is Mean || !first ==> final(program)@[r.2 as int] == average(
            statistic,
            adjust,
            values@.push(v),
            alpha@,
        ),
{
    let ghost next = values@.push(v);
    assert(next.drop_last() =~= values@);
    let x: usize = program.append(Operation::Value(v));
    let mean: bool = match statistic {
        EWMAStatistic::Mean => true,
        _ => false,
    };
    if mean && adjust {
        let faded: usize = program.append(Operation::Times(c.rest, at.0));
        let total: usize = program.append(Operation::Plus(x, faded));
        let lighter: usize = program.append(Operation::Times(c.rest, at.1));
        let weight: usize = program.append(Operation::Plus(c.one, lighter));
        let average: usize = program.append(Operation::Over(total, weight));
        (total, weight, average)
    } else if first {
        let zero: usize = program.append(Operation::Value(Double::zero()));
        (x, zero, x)
    } else {
        let drawn: usize = program.append(Operation::Times(c.alpha, x));
        let kept: usize = program.append(Operation::Times(c.rest, at.0));
        let center: usize = program.append(Operation::Plus(drawn, kept));
        if mean {
            (center, at.1, center)
        } else {
            let distance: usize = program.append(Operation::Minus(x, at.0));
            let square: usize = program.append(Operation::Square(distance));
            let share: usize = program.append(Operation::Times(c.alpha, square));
            let grown: usize = program.append(Operation::Plus(at.1, share));
            let spread: usize = program.append(Operation::Times(c.rest, grown));
            assert(program@[spread as int] == moving_variance(next, alpha@));
            match statistic {
                EWMAStatistic::Std => {
                    let root: usize = program.append(Operation::Root(spread));
                    (center, spread, root)
                },
                _ => (center, spread, spread),
            }
        }
    }
}

/// Adds exponentially weighted moving averages of columns.
///
/// A fit has two steps: [`fit`](ExponentiallyWeightedMovingAverage::fit) checks
/// the settings and asks for the smoothing factor, and
/// [`finish_fit`](ExponentiallyWeightedMovingAverage::finish_fit) takes it.
pub struct ExponentiallyWeightedMovingAverage {
    columns: Vec<Text>,
    smoothing: EWMASmoothing,
    statistic: EWMAStatistic,
    adjust: bool,
    min_periods: usize,
    ignore_na: bool,
    learned: Option<(Double, Text)>,
}

impl ExponentiallyWeightedMovingAverage {
    /// The columns to average.
    pub closed spec fn columns(self) -> Seq<Seq<char>> {
        text::views(self.columns@)
    }

    /// How the smoothing factor is given.
    pub closed spec fn smoothing(self) -> EWMASmoothing {
        self.smoothing
    }

    /// How columns are averaged.
    pub closed spec fn averaging(self) -> Averaging {
        Averaging {
            statistic: self.statistic,
            adjust: self.adjust,
            min_periods: self.min_periods as nat,
            ignore_na: self.ignore_na,
        }
    }

    /// The smoothing factor, and how it is written; none before a fit is
    /// finished.
    pub closed spec fn fitted(self) -> Option<(Double, Seq<char>)> {
        match self.learned {
            Some(l) => Some((l.0, l.1@)),
            None => None,
        }
    }

    /// An averager of columns: adjusted means, nothing after a missing value.
    pub fn new(columns: &[&str], smoothing: EWMASmoothing) -> (r:
        ExponentiallyWeightedMovingAverage)
        ensures
            r.fitted() is None,
            r.columns() == text::str_views(columns@),
            r.smoothing() == smoothing,
            r.averaging() == (Averaging {
                statistic: EWMAStatistic::Mean,
                adjust: true,
                min_periods: 0,
                ignore_na: false,
            }),
    {
        ExponentiallyWeightedMovingAverage {
            columns: text::of_all(columns),
            smoothing,
            statistic: EWMAStatistic::Mean,
            adjust: true,
            min_periods: 0,
            ignore_na: false,
            learned: None,
        }
    }

    /// What is computed of a column.
    pub fn selected_statistic(&self) -> (r: EWMAStatistic)
        ensures
            r == self.averaging().statistic,
    {
        self.statistic
    }

    /// Whether the mean is divided by the sum of the weights.
    pub fn is_adjusted(&self) -> (r: bool)
        ensures
            r == self.averaging().adjust,
    {
        self.adjust
    }

    /// The least number of values that give an average.
    pub fn least_periods(&self) -> (r: usize)
        ensures
            r as nat == self.averaging().min_periods,
    {
        self.min_periods
    }

    /// Whether missing values are skipped.
    pub fn skips_missing(&self) -> (r: bool)
        ensures
            r == self.averaging().ignore_na,
    {
        self.ignore_na
    }

    /// Sets what is computed.
    pub fn statistic(self, s: EWMAStatistic) -> (r: ExponentiallyWeightedMovingAverage)
        ensures
            r.fitted() == self.fitted(),
            r.columns() == self.columns(),
            r.smoothing() == self.smoothing(),
            r.averaging() == (Averaging { statistic: s, ..self.averaging() }),
    {
        ExponentiallyWeightedMovingAverage { statistic: s, ..self }
    }

    /// Sets whether the mean is divided by the sum of the weights.
    pub fn adjust(self, b: bool) -> (r: ExponentiallyWeightedMovingAverage)
        ensures
            r.fitted() == self.fitted(),
            r.columns() == self.columns(),
            r.smoothing() == self.smoothing(),
            r.averaging() == (Averaging { adjust: b, ..self.averaging() }),
    {
        ExponentiallyWeightedMovingAverage { adjust: b, ..self }
    }

    /// Sets the least number of values that give an average.
    pub fn min_periods(self, p: usize) -> (r: ExponentiallyWeightedMovingAverage)
        ensures
            r.fitted() == self.fitted(),
            r.columns() == self.columns(),
            r.smoothing() == self.smoothing(),
            r.averaging() == (Averaging { min_periods: p as nat, ..self.averaging() }),
    {
        ExponentiallyWeightedMovingAverage { min_periods: p, ..self }
    }

    /// Sets whether missing values are skipped.
    pub fn ignore_na(self, b: bool) -> (r: ExponentiallyWeightedMovingAverage)
        ensures
            r.fitted() == self.fitted(),
            r.columns() == self.columns(),
            r.smoothing() == self.smoothing(),
            r.averaging() == (Averaging { ignore_na: b, ..self.averaging() }),
    {
        ExponentiallyWeightedMovingAverage { ignore_na: b, ..self }
    }

    /// Asks for the smoothing factor, where the setting allows it.
    fn resolve_alpha(&self) -> (r: Result<Query, Error>)
        ensures
            match smoothing_fault(self.smoothing()) {
                Some(e) => r is Err && r->Err_0@ == e,
                None => r is Ok && r->Ok_0@ == seq![factor(self.smoothing())],
            },
    {
        let zero: Double = Double::zero();
        let one: Double = Double::one();
        let mut program: Program = Program::new();
        let at: usize = match self.smoothing {
            EWMASmoothing::Alpha(a) => {
                if a.is_below(zero) || a.is_equal(zero) || one.is_below(a) {
                    return Err(Error::plain(Problem::InvalidAlpha(a), "EWMA"));
                }
                program.append(Operation::Value(a))
            },
            EWMASmoothing::Span(s) => {
                if s.is_below(one) {
                    return Err(Error::plain(Problem::InvalidSpan(s), "EWMA"));
                }
                let two: usize = program.append(
                    Operation::Value(Double { bits: crate::double::TWO }),
                );
                let span: usize = program.append(Operation::Value(s));
                let more: usize = program.append(Operation::Value(one));
                let bottom: usize = program.append(Operation::Plus(span, more));
                program.append(Operation::Over(two, bottom))
            },
            EWMASmoothing::Com(c) => {
                if c.is_below(zero) {
                    return Err(Error::plain(Problem::InvalidCom(c), "EWMA"));
                }
                let top: usize = program.append(Operation::Value(one));
                let com: usize = program.append(Operation::Value(c));
                let bottom: usize = program.append(Operation::Plus(top, com));
                program.append(Operation::Over(top, bottom))
            },
            EWMASmoothing::HalfLife(h) => {
                if h.is_below(zero) || h.is_equal(zero) {
                    return Err(Error::plain(Problem::InvalidHalfLife(h), "EWMA"));
                }
                let unit: usize = program.append(Operation::Value(one));
                let half: usize = program.append(
                    Operation::Value(Double { bits: crate::double::HALF }),
                );
                let life: usize = program.append(Operation::Value(h));
                let rate: usize = program.append(Operation::Over(unit, life));
                let power: usize = program.append(Operation::Power(half, rate));
                program.append(Operation::Minus(unit, power))
            },
        };
        let mut places: Vec<usize> = Vec::new();
        places.push(at);
        let r: Query = Query::new(program, places);
        assert(r@ =~= seq![factor(self.smoothing())]);
        Ok(r)
    }

    /// Checks the settings, and asks for the smoothing factor. The averager is
    /// unfitted until the fit is finished.
    pub fn fit(&mut self, x: &Frame) -> (r: Result<Query, Error>)
        ensures
            final(self).fitted() is None,
            final(self).columns() == old(self).columns(),
            final(self).smoothing() == old(self).smoothing(),
            final(self).averaging() == old(self).averaging(),
            match ewma_fault(old(self).columns(), old(self).smoothing(), x@) {
                Some(e) => r is Err && r->Err_0@ == e,
                None => r is Ok && r->Ok_0@ == seq![factor(old(self).smoothing())],
            },
    {
        self.learned = None;
        if x.height() == 0 {
            return Err(Error::plain(Problem::NoRows, "EWMA"));
        }
        assert(self.columns().len() == self.columns.len());
        if self.columns.len() == 0 {
            return Err(Error::plain(Problem::NoColumnsGiven, "EWMA"));
        }
        self.resolve_alpha()
    }

    /// The name of the column of averages of a column.
    fn output_name(&self, column: &Text, shown: &Text) -> (r: Text)
        ensures
            r@ == average_name(column@, self.averaging().statistic, shown@),
    {
        let mut name: Text = column.duplicate();
        name.push_str("_ewm_");
        name.push_str(self.statistic.label());
        name.push_str("_");
        name.append(shown);
        name
    }

    /// Finishes a fit with the smoothing factor, and how it is written. After
    /// a failure the averager is unfitted.
    pub fn finish_fit(&mut self, x: &Frame, alpha: Double, shown: Text) -> (r: Result<(), Error>)
        ensures
            final(self).columns() == old(self).columns(),
            final(self).smoothing() == old(self).smoothing(),
            final(self).averaging() == old(self).averaging(),
            match finish_fault(
                old(self).columns(),
                old(self).averaging().statistic,
                x@,
                alpha,
                shown@,
            ) {
                Some(e) => r is Err && r->Err_0@ == e && final(self).fitted() is None,
                None => r is Ok && final(self).fitted() == Some((alpha, shown@)),
            },
    {
        self.learned = None;
        let zero: Double = Double::zero();
        if !alpha.is_finite() || alpha.is_below(zero) || alpha.is_equal(zero)
            || Double::one().is_below(alpha) {
            return Err(Error::plain(Problem::NonFiniteAlpha(alpha), "EWMA"));
        }
        let ghost columns = self.columns();
        let ghost statistic = self.statistic;
        let mut generated: Vec<Text> = Vec::new();
        let mut i: usize = 0;
        assert(columns.take(0) =~= Seq::<Seq<char>>::empty());
        assert(text::views(generated@) =~= average_names(columns.take(0), statistic, shown@));
        while i < self.columns.len()
            invariant
                i <= self.columns.len(),
                self.learned is None,
                columns == self.columns(),
                columns == old(self).columns(),
                self.smoothing() == old(self).smoothing(),
                self.averaging() == old(self).averaging(),
                statistic == self.statistic,
                usable(alpha),
                text::views(generated@) == average_names(
                    columns.take(i as int),
                    statistic,
                    shown@,
                ),
                columns_fault(columns.take(i as int), statistic, shown@, x@) is None,
            decreases self.columns.len() - i,
        {
            let ghost next = columns.take(i + 1);
            assert(next.drop_last() =~= columns.take(i as int));
            match util::find_f64_column(x, &self.columns[i], "EWMA") {
                Ok(_) => {},
                Err(e) => {
                    proof {
                        lemma_columns_fault(columns, statistic, shown@, x@, i + 1);
                    }
                    return Err(e);
                },
            }
            let name: Text = self.output_name(&self.columns[i], &shown);
            if x.find(&name).is_some() {
                proof {
                    lemma_columns_fault(columns, statistic, shown@, x@, i + 1);
                }
                return Err(Error::about(Problem::NameTaken, "EWMA", &name));
            }
            if text::contains(&generated, &name) {
                proof {
                    lemma_columns_fault(columns, statistic, shown@, x@, i + 1);
                }
                return Err(Error::about(Problem::NameRepeated, "EWMA", &name));
            }
            let ghost before = text::views(generated@);
            let ghost label = name@;
            generated.push(name);
            proof {
                assert(text::views(generated@) =~= before.push(label));
                assert(average_names(next, statistic, shown@) =~= before.push(label));
            }
            i += 1;
        }
        assert(columns.take(i as int) =~= columns);
        self.learned = Some((alpha, shown));
        Ok(())
    }

    /// The averages of a column, in order.
    fn compute_column(&self, cells: &Vec<Option<Double>>, alpha: Double, program: &mut Program) -> (r:
        Vec<Option<Number>>)
        ensures
            program::extends(old(program)@, final(program)@),
            frame::terms_of(r@, final(program)@) == averages(self.averaging(), cells@, alpha),
            draft::all_settled(r@, final(program)@.len()),
    {
        let statistic: EWMAStatistic = self.statistic;
        let adjust: bool = self.adjust;
        let min_obs: usize = match statistic {
            EWMAStatistic::Mean => self.min_periods,
            _ => if self.min_periods >= 2 {
                self.min_periods
            } else {
                2
            },
        };
        let ghost wanted = averages(self.averaging(), cells@, alpha);
        let at_alpha: usize = program.append(Operation::Value(alpha));
        let one: usize = program.append(Operation::Value(Double::one()));
        let less: usize = program.append(Operation::Minus(one, at_alpha));
        let c: Constants = Constants { alpha: at_alpha, one, rest: less };
        let zero: usize = program.append(Operation::Value(Double::zero()));
        let mut at: (usize, usize) = (zero, zero);
        let mut stopped: bool = false;
        let mut seen: usize = 0;
        let mut r: Vec<Option<Number>> = Vec::new();
        let mut i: usize = 0;
        assert(cells@.take(0) =~= Seq::empty());
        assert(frame::present(cells@.take(0)) =~= Seq::<Double>::empty());
        while i < cells.len()
            invariant
                i <= cells.len(),
                statistic == self.statistic,
                adjust == self.adjust,
                min_obs == needed(statistic, self.min_periods as nat),
                wanted == averages(self.averaging(), cells@, alpha),
                program::extends(old(program)@, program@),
                c.hold(alpha, program@),
                stopped == broken(cells@, self.ignore_na, i as int),
                seen <= i,
                !stopped ==> seen == frame::present(cells@.take(i as int)).len(),
                !stopped ==> follows(
                    statistic,
                    adjust,
                    frame::present(cells@.take(i as int)),
                    alpha,
                    at,
                    program@,
                ),
                r.len() == i,
                draft::all_settled(r@, program@.len()),
                forall|k: int|
                    0 <= k < i ==> frame::optional_term(#[trigger] r@[k], program@) == wanted[k],
            decreases cells.len() - i,
        {
            let ghost held = program@;
            let ghost values = frame::present(cells@.take(i as int));
            let ghost grown = cells@.take(i + 1);
            assert(grown.drop_last() =~= cells@.take(i as int));
            let next: Option<Number> = match cells[i] {
                None => {
                    if !self.ignore_na {
                        stopped = true;
                        assert(cells@[i as int] is None);
                    }
                    None
                },
                Some(v) => if stopped {
                    None
                } else {
                    let (a, b, average) = append_value(
                        statistic,
                        adjust,
                        seen == 0,
                        at,
                        v,
                        &c,
                        program,
                        Ghost(values),
                        Ghost(alpha),
                    );
                    at = (a, b);
                    seen += 1;
                    if seen < min_obs {
                        None
                    } else {
                        Some(Number::Register(average))
                    }
                },
            };
            proof {
                assert(frame::optional_term(next, program@) == wanted[i as int]);
                assert forall|k: int| 0 <= k < i implies frame::settled(
                    #[trigger] r@[k],
                    program@.len(),
                ) && frame::optional_term(r@[k], program@) == wanted[k] by {
                    assert(frame::settled(r@[k], held.len()));
                    assert(frame::optional_term(r@[k], held) == wanted[k]);
                }
            }
            r.push(next);
            i += 1;
        }
        assert(frame::terms_of(r@, program@) =~= wanted);
        r
    }

    /// Adds a column of averages for each column.
    pub fn transform(&self, x: &Frame) -> (r: Result<Sheet, Error>)
        ensures
            frame::outcome(r) == ewma_outcome(self.columns(), self.averaging(), self.fitted(), x@),
    {
        let (alpha, shown) = match &self.learned {
            Some(l) => (l.0, &l.1),
            None => {
                return Err(
                    Error::plain(Problem::NotFitted, "ExponentiallyWeightedMovingAverage"),
                );
            },
        };
        let ghost columns = self.columns();
        let ghost s = self.averaging();
        let ghost names = average_names(columns, s.statistic, shown@);
        let ghost fault = |name: Seq<char>|
            if x@.find(name) is Some {
                Some(ErrorView::about(Problem::NameTaken, "EWMA"@, name))
            } else {
                None
            };
        proof {
            crate::error::lemma_fault_ends(names, fault);
            assert(taken_name(names, x@) == crate::error::first_fault(names, fault));
        }
        let mut k: usize = 0;
        while k < self.columns.len()
            invariant
                k <= self.columns.len(),
                columns == self.columns(),
                s == self.averaging(),
                names == average_names(columns, s.statistic, shown@),
                self.fitted() == Some((alpha, shown@)),
                fault == (|name: Seq<char>|
                    if x@.find(name) is Some {
                        Some(ErrorView::about(Problem::NameTaken, "EWMA"@, name))
                    } else {
                        None
                    }),
                taken_name(names, x@) == crate::error::first_fault(names, fault),
                crate::error::first_fault(names.take(k as int), fault) is None,
            decreases self.columns.len() - k,
        {
            proof {
                crate::error::lemma_fault_step(names, fault, k as int);
            }
            let name: Text = self.output_name(&self.columns[k], shown);
            assert(names[k as int] == name@);
            if x.find(&name).is_some() {
                return Err(Error::about(Problem::NameTaken, "EWMA", &name));
            }
            k += 1;
        }
        assert(names.take(k as int) =~= names);
        let ghost width = x@.columns.len();
        let ghost first = frame::kept_columns(x@);
        let ghost step = average_step(x@, s, alpha, shown@);
        let mut draft: Draft = Draft::new(x);
        let mut program: Program = Program::new();
        let mut i: usize = 0;
        assert(columns.take(0) =~= Seq::<Seq<char>>::empty());
        while i < self.columns.len()
            invariant
                i <= self.columns.len(),
                columns == self.columns(),
                s == self.averaging(),
                names == average_names(columns, s.statistic, shown@),
                self.fitted() == Some((alpha, shown@)),
                taken_name(names, x@) is None,
                width == x@.columns.len(),
                first == frame::kept_columns(x@),
                step == average_step(x@, s, alpha, shown@),
                draft.over(width, program@.len()),
                draft::steps(first, columns.take(i as int), step) == Ok::<
                    Seq<SheetColumnView>,
                    ErrorView,
                >(draft.columns(program@)),
            decreases self.columns.len() - i,
        {
            let ghost held = program@;
            proof {
                draft::lemma_step(first, columns, step, i as int);
            }
            let (at, cells) = match util::find_f64_column(x, &self.columns[i], "EWMA") {
                Ok(found) => found,
                Err(e) => {
                    return Err(e);
                },
            };
            let computed: Vec<Option<Number>> = self.compute_column(cells, alpha, &mut program);
            proof {
                draft.lemma_extended(width, held, program@);
            }
            let name: Text = self.output_name(&self.columns[i], shown);
            draft.lay(name, computed, Ghost(width), Ghost(program@));
            i += 1;
        }
        assert(columns.take(i as int) =~= columns);
        Ok(draft.finish(x.height(), program))
    }
}

/// A fault of the first columns is the fault of all.
proof fn lemma_columns_fault(
    columns: Seq<Seq<char>>,
    statistic: EWMAStatistic,
    shown: Seq<char>,
    x: FrameView,
    n: int,
)
    requires
        0 <= n <= columns.len(),
        columns_fault(columns.take(n), statistic, shown, x) is Some,
    ensures
        columns_fault(columns, statistic, shown, x) == columns_fault(
            columns.take(n),
            statistic,
            shown,
            x,
        ),
    decreases columns.len() - n,
{
    if n == columns.len() {
        assert(columns.take(n) =~= columns);
    } else {
        assert(columns.take(n + 1).drop_last() =~= columns.take(n));
        lemma_columns_fault(columns, statistic, shown, x, n + 1);
    }
}

impl Default for ExponentiallyWeightedMovingAverage {
    fn default() -> (r: ExponentiallyWeightedMovingAverage)
        ensures
            r.fitted() is None,
            r.columns() == Seq::<Seq<char>>::empty(),
            r.smoothing() == EWMASmoothing::Alpha(Double { bits: crate::double::HALF }),
            r.averaging() == (Averaging {
                statistic: EWMAStatistic::Mean,
                adjust: true,
                min_periods: 0,
                ignore_na: false,
            }),
    {
        let r: ExponentiallyWeightedMovingAverage = ExponentiallyWeightedMovingAverage::new(
            &[],
            EWMASmoothing::Alpha(Double { bits: crate::double::HALF }),
        );
        assert(r.columns() =~= Seq::empty());
        r
    }
}

/// Whether cell `k` holds a value.
pub open spec fn filled(cells: Seq<Option<Double>>) -> spec_fn(int) -> bool {
    |k: int| cells[k] is Some
}

/// A row has an average if it has a value, as many rows up to it have values as
/// the least number asks for, a variance having two at least, and no value is
/// missing before it, unless missing values are skipped; and only then.
pub proof fn law_rows_with_averages(
    s: Averaging,
    cells: Seq<Option<Double>>,
    alpha: Double,
    i: int,
)
    requires
        0 <= i < cells.len(),
    ensures
        averages(s, cells, alpha)[i] is Some <==> {
            let n = count::counted((i + 1) as nat, filled(cells));
            &&& cells[i] is Some
            &&& n >= s.min_periods
            &&& s.statistic == EWMAStatistic::Mean || n >= 2
            &&& s.ignore_na || n == i + 1
        },
{
    let n = count::counted((i + 1) as nat, filled(cells));
    lemma_filled(cells, (i + 1) as nat);
    if broken(cells, s.ignore_na, i) {
        let k = choose|k: int| 0 <= k < i && (#[trigger] cells[k]) is None;
        lemma_gap(cells, (i + 1) as nat, k);
    } else if cells[i] is Some && !s.ignore_na {
        assert forall|k: int| 0 <= k < i + 1 implies #[trigger] filled(cells)(k) by {
            assert(k == i || cells[k] is Some);
        }
        count::lemma_at_least((i + 1) as nat, filled(cells), (i + 1) as nat);
        count::lemma_counted((i + 1) as nat, filled(cells), 0);
    }
}

/// The values of the first cells.
proof fn lemma_filled(cells: Seq<Option<Double>>, n: nat)
    requires
        n <= cells.len(),
    ensures
        frame::present(cells.take(n as int)).len() == count::counted(n, filled(cells)),
    decreases n,
{
    if n > 0 {
        lemma_filled(cells, (n - 1) as nat);
        assert(cells.take(n as int).drop_last() =~= cells.take(n - 1));
    }
}

/// A missing value leaves fewer values than cells.
proof fn lemma_gap(cells: Seq<Option<Double>>, n: nat, k: int)
    requires
        0 <= k < n <= cells.len(),
        cells[k] is None,
    ensures
        count::counted(n, filled(cells)) < n,
    decreases n,
{
    if k < n - 1 {
        lemma_gap(cells, (n - 1) as nat, k);
    } else {
        count::lemma_counted((n - 1) as nat, filled(cells), 0);
    }
}

/// A smoothing can be used if its number is in range: a factor above zero and at
/// most one, a span of one at least, a center of mass of zero at least, a half-life
/// above zero.
pub proof fn law_smoothing_in_range(smoothing: EWMASmoothing, value: spec_fn(Double) -> real)
    requires
        forall|x: Double, y: Double|
            !x.nan() && !y.nan() ==> (#[trigger] x.below(y) <==> value(x) < value(y)),
        forall|x: Double, y: Double|
            !x.nan() && !y.nan() ==> (#[trigger] x.equals(y) <==> value(x) == value(y)),
        value(Double { bits: 0 }) == 0real,
        value(Double { bits: 0x3ff0_0000_0000_0000 }) == 1real,
        match smoothing {
            EWMASmoothing::Alpha(a) => !a.nan(),
            EWMASmoothing::Span(s) => !s.nan(),
            EWMASmoothing::Com(m) => !m.nan(),
            EWMASmoothing::HalfLife(h) => !h.nan(),
        },
    ensures
        smoothing_fault(smoothing) is None <==> match smoothing {
            EWMASmoothing::Alpha(a) => 0real < value(a) <= 1real,
            EWMASmoothing::Span(s) => value(s) >= 1real,
            EWMASmoothing::Com(m) => value(m) >= 0real,
            EWMASmoothing::HalfLife(h) => value(h) > 0real,
        },
{
    assert(!(Double { bits: 0u64 }).nan());
    assert(!(Double { bits: 0x3ff0_0000_0000_0000u64 }).nan());
}

/// The average of a row is that of the values up to it: where it has one, the mean
/// weighs all values so far by their age, the variance is the mean of the squares
/// less the square of the mean, and the square of the standard deviation is the
/// variance. A mean that is adjusted divides by the sum of the weights.
pub proof fn law_average_of_row(
    s: Averaging,
    cells: Seq<Option<Double>>,
    alpha: Double,
    i: int,
    c: Calculus,
)
    requires
        0 <= i < cells.len(),
        averages(s, cells, alpha)[i] is Some,
        c.grounded(),
        c.rooted(),
        0real <= (c.value)(alpha) <= 1real,
    ensures
        ({
            let q = 1real - (c.value)(alpha);
            let xs = values_of(frame::present(cells.take(i + 1)), c);
            let m = drawn_mean(xs, q);
            let r = calculus::computed(averages(s, cells, alpha)[i]->0, c);
            &&& xs.len() > 0
            &&& xs.last() == (c.value)(cells[i]->0)
            &&& match s.statistic {
                EWMAStatistic::Mean => if s.adjust {
                    program::exact(averages(s, cells, alpha)[i]->0, c.value) == decayed_sum(
                        frame::present(cells.take(i + 1)),
                        q,
                        c.value,
                        xs.len(),
                    ) / decayed_weight(q, xs.len())
                } else {
                    r == m
                },
                EWMAStatistic::Var => r == drawn_mean(squares_of(xs), q) - m * m,
                EWMAStatistic::Std => r >= 0real && r * r == drawn_mean(squares_of(xs), q) - m * m,
            }
        }),
{
    let values = frame::present(cells.take(i + 1));
    assert(cells.take(i + 1).last() == cells[i]);
    assert(values.last() == cells[i]->0);
    law_moving_statistics(values, alpha, s.adjust, c);
    law_adjusted_mean(values, alpha, c.value);
}

} // verus!
