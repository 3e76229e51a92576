//! Discretization.
//!
//! [`KBinsDiscretizer`] sorts numbers into bins: of equal width, of equally many
//! values, or about the centers of clusters.

use crate::double::Double;
use crate::doubles;
use crate::error;
use crate::error::Error;
use crate::error::ErrorView;
use crate::error::Problem;
use crate::frame;
use crate::frame::Cells;
use crate::frame::CellsView;
use crate::frame::Column;
use crate::frame::ColumnView;
use crate::frame::Frame;
use crate::frame::FrameView;
use crate::frame::Number;
use crate::frame::Sheet;
use crate::frame::SheetColumn;
use crate::frame::SheetColumnView;
use crate::frame::SheetView;
use crate::frame::Values;
use crate::frame::ValuesView;
use crate::preprocessing::encoder;
use crate::program;
use crate::program::Operation;
use crate::program::Program;
use crate::program::Query;
use crate::program::Term;
use crate::text;
use crate::text::Text;
use crate::util;
use vstd::prelude::*;

verus! {

/// How the edges of bins are chosen.
#[derive(Clone, Copy, Debug, PartialEq, Eq, Structural)]
pub enum BinStrategy {
    /// Bins of equal width.
    Uniform,
    /// Bins of equally many values.
    Quantile,
    /// Bins about the centers of clusters.
    KMeans,
}

/// How bins are written.
#[derive(Clone, Copy, Debug, PartialEq, Eq, Structural)]
pub enum EncodeMode {
    /// The number of the bin, in the place of the value.
    Ordinal,
    /// A column of flags for each bin.
    OneHot,
    /// A column of flags for each bin but the first.
    OneHotDropFirst,
}

/// The most rounds in which centers of clusters are moved.
pub const MOST_ROUNDS: usize = 100;

/// The edges of `k` bins of equal width over sorted values.
pub open spec fn uniform_terms(values: Seq<Double>, k: nat) -> Seq<Term> {
    let low = Box::new(Term::Value(values[0]));
    let high = Box::new(Term::Value(values.last()));
    Seq::new(
        k + 1,
        |i: int|
            if i == 0 {
                *low
            } else if i == k {
                *high
            } else {
                Term::Plus(
                    low,
                    Box::new(
                        Term::Over(
                            Box::new(
                                Term::Times(
                                    Box::new(Term::Minus(high, low)),
                                    Box::new(Term::Natural(i as nat)),
                                ),
                            ),
                            Box::new(Term::Natural(k)),
                        ),
                    ),
                )
            },
    )
}

/// The `i`-th of `k` quantiles of sorted values, between the two values next
/// to it.
pub open spec fn quantile_term(values: Seq<Double>, i: nat, k: nat) -> Term {
    let rank = i * (values.len() - 1);
    let at = rank / (k as int);
    let past = rank % (k as int);
    let low = Box::new(Term::Value(values[at]));
    if past == 0 {
        *low
    } else {
        Term::Plus(
            low,
            Box::new(
                Term::Times(
                    Box::new(
                        Term::Over(
                            Box::new(Term::Natural(past as nat)),
                            Box::new(Term::Natural(k)),
                        ),
                    ),
                    Box::new(Term::Minus(Box::new(Term::Value(values[at + 1])), low)),
                ),
            ),
        )
    }
}

/// The edges of `k` bins of equally many of the sorted values.
pub open spec fn quantile_terms(values: Seq<Double>, k: nat) -> Seq<Term> {
    Seq::new(k + 1, |i: int| quantile_term(values, i as nat, k))
}

/// The point between two centers.
pub open spec fn midpoint(a: Double, b: Double) -> Term {
    Term::Over(
        Box::new(Term::Plus(Box::new(Term::Value(a)), Box::new(Term::Value(b)))),
        Box::new(program::two()),
    )
}

/// The edges of bins about centers: the least and the greatest value, and
/// between them the points between neighbouring centers.
pub open spec fn center_terms(values: Seq<Double>, centers: Seq<Double>) -> Seq<Term> {
    let n = centers.len() as int;
    Seq::new(
        centers.len() + 1,
        |i: int|
            if i == 0 {
                Term::Value(values[0])
            } else if i == n {
                Term::Value(values.last())
            } else {
                midpoint(centers[i - 1], centers[i])
            },
    )
}

/// The first centers: `k` of the different values, evenly spaced.
pub open spec fn seeds(distinct: Seq<Double>, k: nat) -> Seq<Double> {
    Seq::new(k, |i: int| distinct[(i * (distinct.len() - 1)) / (k - 1)])
}

/// The distances of each value from each center.
pub open spec fn center_distances(values: Seq<Double>, centers: Seq<Double>) -> Seq<Term> {
    let k = centers.len() as int;
    Seq::new(
        values.len() * centers.len(),
        |m: int|
            Term::Magnitude(
                Box::new(
                    Term::Minus(
                        Box::new(Term::Value(values[m / k])),
                        Box::new(Term::Value(centers[m % k])),
                    ),
                ),
            ),
    )
}

/// Where the first of the least of some distances stands, and that distance;
/// zero and infinity where none is less than infinity.
pub open spec fn closest(list: Seq<Double>) -> (int, Double)
    decreases list.len(),
{
    if list.len() == 0 {
        (0, Double { bits: crate::double::INFINITE })
    } else {
        let best = closest(list.drop_last());
        if list.last().below(best.1) {
            (list.len() - 1, list.last())
        } else {
            best
        }
    }
}

/// The closest center of each of `n` values, by the distances from `k` centers.
pub open spec fn assigned(distances: Seq<Double>, n: nat, k: nat) -> Seq<int> {
    Seq::new(n, |i: int| closest(distances.subrange(i * k, i * k + k)).0)
}

/// The values that are assigned to a center, among the first `n`.
pub open spec fn members(values: Seq<Double>, assignment: Seq<int>, c: int, n: nat) -> Seq<Term>
    decreases n,
{
    if n == 0 {
        Seq::empty()
    } else {
        let front = members(values, assignment, c, (n - 1) as nat);
        if assignment[n - 1] == c {
            front.push(Term::Value(values[n - 1]))
        } else {
            front
        }
    }
}

/// Where a center moves: to the mean of its values, where it has some.
pub open spec fn moved_center(
    values: Seq<Double>,
    assignment: Seq<int>,
    centers: Seq<Double>,
    c: int,
) -> Term {
    let list = members(values, assignment, c, values.len());
    if list.len() == 0 {
        Term::Value(centers[c])
    } else {
        Term::Over(Box::new(program::running_sum(list)), Box::new(Term::Natural(list.len())))
    }
}

/// Where the centers move.
pub open spec fn moved_centers(
    values: Seq<Double>,
    assignment: Seq<int>,
    centers: Seq<Double>,
) -> Seq<Term> {
    Seq::new(centers.len(), |c: int| moved_center(values, assignment, centers, c))
}

/// Edges without repetitions, at least two of them.
pub open spec fn settled_edges(raw: Seq<Double>) -> Seq<Double> {
    let list = doubles::collapsed(raw);
    if list.len() < 2 {
        list.push(list[0])
    } else {
        list
    }
}

/// How far the search for the edges of a column has come.
#[verifier::ext_equal]
pub enum SearchView {
    /// The distances of the values from the centers were asked for.
    Measuring { centers: Seq<Double>, assignment: Option<Seq<int>>, round: nat },
    /// The means of the values of each center were asked for.
    Moving { centers: Seq<Double>, assignment: Seq<int>, round: nat },
    /// The edges were asked for.
    Edging(Seq<Term>),
    /// The edges.
    Found(Seq<Double>),
}

/// The view of an [`EdgeFinder`].
#[verifier::ext_equal]
pub struct FinderView {
    pub values: Seq<Double>,
    pub search: SearchView,
}

/// The search for edges about settled centers.
pub open spec fn edging(values: Seq<Double>, centers: Seq<Double>) -> SearchView {
    SearchView::Edging(center_terms(values, doubles::collapsed(doubles::ascending(centers))))
}

impl FinderView {
    /// The search for the edges of `k` bins over sorted values, at its
    /// beginning.
    pub open spec fn begun(values: Seq<Double>, strategy: BinStrategy, k: nat) -> FinderView {
        let distinct = doubles::collapsed(values);
        let search = if values[0].equals(values.last()) {
            SearchView::Found(seq![values[0], values[0]])
        } else {
            match strategy {
                BinStrategy::Uniform => SearchView::Edging(uniform_terms(values, k)),
                BinStrategy::Quantile => SearchView::Edging(quantile_terms(values, k)),
                BinStrategy::KMeans => if distinct.len() <= k {
                    SearchView::Edging(center_terms(values, distinct))
                } else {
                    SearchView::Measuring {
                        centers: seeds(distinct, k),
                        assignment: None,
                        round: 0,
                    }
                },
            }
        };
        FinderView { values, search }
    }

    /// What has been asked for.
    pub open spec fn asked(self) -> Seq<Term> {
        match self.search {
            SearchView::Measuring { centers, .. } => center_distances(self.values, centers),
            SearchView::Moving { centers, assignment, .. } => moved_centers(
                self.values,
                assignment,
                centers,
            ),
            SearchView::Edging(terms) => terms,
            SearchView::Found(_) => Seq::empty(),
        }
    }

    /// The search after the answers.
    pub open spec fn next(self, answers: Seq<Double>) -> FinderView {
        let values = self.values;
        let search = match self.search {
            SearchView::Measuring { centers, assignment, round } => {
                let fresh = assigned(answers, values.len(), centers.len());
                if assignment == Some(fresh) {
                    edging(values, centers)
                } else {
                    SearchView::Moving { centers, assignment: fresh, round }
                }
            },
            SearchView::Moving { assignment, round, .. } => if round + 1 == MOST_ROUNDS {
                edging(values, answers)
            } else {
                SearchView::Measuring {
                    centers: answers,
                    assignment: Some(assignment),
                    round: round + 1,
                }
            },
            SearchView::Edging(_) => SearchView::Found(settled_edges(answers)),
            SearchView::Found(edges) => SearchView::Found(edges),
        };
        FinderView { values, search }
    }
}

/// Whether a search for `k` bins comes to at least one bin and at most `k`.
pub open spec fn within(f: FinderView, k: nat) -> bool {
    match f.search {
        SearchView::Measuring { centers, .. } => 1 <= centers.len() <= k,
        SearchView::Moving { centers, .. } => 1 <= centers.len() <= k,
        SearchView::Edging(terms) => 2 <= terms.len() <= k + 1,
        SearchView::Found(edges) => 2 <= edges.len() <= k + 1,
    }
}

/// A search for `k` bins begins within that number.
pub proof fn law_bin_count_begins(values: Seq<Double>, strategy: BinStrategy, k: nat)
    requires
        values.len() > 0,
        k >= 2,
    ensures
        within(FinderView::begun(values, strategy, k), k),
{
    doubles::law_collapsed(values);
}

/// A search for `k` bins stays within that number, whatever the answers are:
/// edges that coincide make fewer bins, never more.
pub proof fn law_bin_count_stays(f: FinderView, answers: Seq<Double>, k: nat)
    requires
        within(f, k),
        k >= 2,
        answers.len() == f.asked().len(),
    ensures
        within(f.next(answers), k),
{
    match f.search {
        SearchView::Measuring { centers, .. } => {
            doubles::law_ascending(centers);
            doubles::law_collapsed(doubles::ascending(centers));
        },
        SearchView::Moving { .. } => {
            doubles::law_ascending(answers);
            doubles::law_collapsed(doubles::ascending(answers));
        },
        SearchView::Edging(_) => {
            doubles::law_collapsed(answers);
        },
        SearchView::Found(_) => {},
    }
}

/// How many edges, from the first one on, are not above a value.
pub open spec fn reached(edges: Seq<Double>, v: Double) -> nat
    decreases edges.len(),
{
    if edges.len() == 0 {
        0
    } else {
        let front = edges.drop_last();
        let n = reached(front, v);
        if n == front.len() && (edges.last().below(v) || edges.last().equals(v)) {
            n + 1
        } else {
            n
        }
    }
}

/// The bin of a value: the last one whose lower edge is not above it; the
/// first and the last bin take what lies outside.
pub open spec fn bin_of(edges: Seq<Double>, v: Double) -> nat {
    let n = reached(edges, v);
    let bins = (edges.len() - 1) as nat;
    if n == 0 {
        0
    } else if n - 1 < bins {
        (n - 1) as nat
    } else {
        (bins - 1) as nat
    }
}

/// Every edge that is reached is not above the value, and the next one is.
proof fn lemma_reached(edges: Seq<Double>, v: Double)
    ensures
        reached(edges, v) <= edges.len(),
        forall|i: int|
            0 <= i < reached(edges, v) ==> (#[trigger] edges[i]).below(v) || edges[i].equals(v),
        reached(edges, v) < edges.len() ==> !(edges[reached(edges, v) as int].below(v)
            || edges[reached(edges, v) as int].equals(v)),
    decreases edges.len(),
{
    if edges.len() > 0 {
        let front = edges.drop_last();
        lemma_reached(front, v);
        assert forall|i: int| 0 <= i < reached(edges, v) implies (#[trigger] edges[i]).below(v)
            || edges[i].equals(v) by {
            if i < front.len() {
                assert(front[i] == edges[i]);
            }
        }
        if reached(front, v) < front.len() {
            assert(front[reached(front, v) as int] == edges[reached(front, v) as int]);
        }
    }
}

/// Every number has one of the bins. Where the edges ascend, the lower edge of
/// its bin is not above it, but for the first bin, and the upper edge is, but
/// for the last.
pub proof fn law_bin(edges: Seq<Double>, v: Double)
    requires
        edges.len() >= 2,
        !v.nan(),
        forall|i: int, j: int|
            0 <= i < j < edges.len() ==> (#[trigger] edges[i]).below(#[trigger] edges[j]),
    ensures
        bin_of(edges, v) < edges.len() - 1,
        bin_of(edges, v) > 0 ==> edges[bin_of(edges, v) as int].below(v)
            || edges[bin_of(edges, v) as int].equals(v),
        bin_of(edges, v) < edges.len() - 2 ==> v.below(edges[bin_of(edges, v) as int + 1]),
{
    lemma_reached(edges, v);
    assert(edges[0].below(edges[1]));
    let b = bin_of(edges, v) as int;
    if b < edges.len() - 2 {
        assert(edges[b].below(edges[b + 1]));
    }
}

/// A greater value has no lesser bin.
pub proof fn law_bins_ascend(edges: Seq<Double>, v: Double, w: Double)
    requires
        edges.len() >= 2,
        v.below(w),
    ensures
        bin_of(edges, v) <= bin_of(edges, w),
{
    lemma_reached(edges, v);
    lemma_reached(edges, w);
    let n = reached(edges, w) as int;
    if n < reached(edges, v) {
        assert(edges[n].below(v) || edges[n].equals(v));
        assert(edges[n].below(w));
    }
}

/// The greatest value falls in the last bin: where the last edge is the
/// greatest value and no edge is above it.
pub proof fn law_greatest_in_last_bin(edges: Seq<Double>)
    requires
        edges.len() >= 2,
        forall|i: int|
            0 <= i < edges.len() ==> (#[trigger] edges[i]).below(edges.last()) || edges[i].equals(
                edges.last(),
            ),
    ensures
        bin_of(edges, edges.last()) == edges.len() - 2,
{
    lemma_reached(edges, edges.last());
    let n = reached(edges, edges.last()) as int;
    if n < edges.len() {
        assert(edges[n].below(edges.last()) || edges[n].equals(edges.last()));
    }
}

/// The edges of the bins of equal width begin with the least value and end
/// with the greatest.
pub proof fn law_uniform_ends(values: Seq<Double>, k: nat)
    requires
        k >= 1,
    ensures
        uniform_terms(values, k).len() == k + 1,
        uniform_terms(values, k)[0] == Term::Value(values[0]),
        uniform_terms(values, k)[k as int] == Term::Value(values.last()),
{
}

/// The quantiles begin with the least value and end with the greatest.
pub proof fn law_quantile_ends(values: Seq<Double>, k: nat)
    requires
        k >= 1,
        values.len() >= 1,
    ensures
        quantile_terms(values, k)[0] == Term::Value(values[0]),
        quantile_terms(values, k)[k as int] == Term::Value(values.last()),
{
    let n = values.len() - 1;
    assert(0 * n == 0) by (nonlinear_arith);
    assert((k * n) / (k as int) == n && (k * n) % (k as int) == 0) by {
        assert(k * n == n * (k as int) + 0) by (nonlinear_arith);
        vstd::arithmetic::div_mod::lemma_fundamental_div_mod_converse(
            k * n,
            k as int,
            n,
            0,
        );
    }
    assert(0int / (k as int) == 0) by (nonlinear_arith)
        requires
            k >= 1,
    ;
    assert(0int % (k as int) == 0) by (nonlinear_arith)
        requires
            k >= 1,
    ;
}

/// Edge `i` of bins of equal width, in exact arithmetic.
pub proof fn lemma_uniform_edge(values: Seq<Double>, k: nat, i: int, value: spec_fn(Double) -> real)
    requires
        values.len() > 0,
        0 <= i <= k,
        k >= 1,
    ensures
        program::exact(uniform_terms(values, k)[i], value) == value(values[0]) + ((value(
            values.last(),
        ) - value(values[0])) * (i as real)) / (k as int as real),
{
    reveal_with_fuel(program::exact, 5);
    let span = value(values.last()) - value(values[0]);
    let n = k as int as real;
    if i == 0 {
        assert((span * 0real) / n == 0real) by (nonlinear_arith)
            requires
                n >= 1real,
        ;
    } else if i == k {
        assert((span * n) / n == span) by (nonlinear_arith)
            requires
                n >= 1real,
        ;
    }
}

/// In exact arithmetic the edges of the bins of equal width ascend.
pub proof fn law_uniform_ascend(
    values: Seq<Double>,
    k: nat,
    i: int,
    j: int,
    value: spec_fn(Double) -> real,
)
    requires
        values.len() > 0,
        k >= 1,
        0 <= i <= j <= k,
        value(values[0]) <= value(values.last()),
    ensures
        program::exact(uniform_terms(values, k)[i], value) <= program::exact(
            uniform_terms(values, k)[j],
            value,
        ),
{
    lemma_uniform_edge(values, k, i, value);
    lemma_uniform_edge(values, k, j, value);
    let span = value(values.last()) - value(values[0]);
    let (a, b, n) = (i as real, j as real, k as int as real);
    assert((span * a) / n <= (span * b) / n) by (nonlinear_arith)
        requires
            span >= 0real,
            a <= b,
            n >= 1real,
    ;
}

/// Quantile `i` of sorted values lies between the two values next to it, in
/// exact arithmetic.
pub proof fn lemma_exact_quantile(values: Seq<Double>, i: nat, k: nat, value: spec_fn(Double) -> real)
    requires
        values.len() > 0,
        k >= 1,
        i <= k,
        forall|a: int, b: int|
            0 <= a <= b < values.len() ==> value(#[trigger] values[a]) <= value(
                #[trigger] values[b],
            ),
    ensures
        ({
            let rank = i * (values.len() - 1);
            let at = rank / (k as int);
            let past = rank % (k as int);
            let q = program::exact(quantile_term(values, i, k), value);
            &&& 0 <= at < values.len()
            &&& 0 <= past < k
            &&& past == 0 ==> q == value(values[at])
            &&& past > 0 ==> at + 1 < values.len() && q == value(values[at]) + ((past as real) / (
            k as int as real)) * (value(values[at + 1]) - value(values[at]))
            &&& past > 0 ==> value(values[at]) <= q <= value(values[at + 1])
        }),
{
    let n = values.len() - 1;
    let rank = i * n;
    let at = rank / (k as int);
    let past = rank % (k as int);
    assert(0 <= rank <= k * n) by (nonlinear_arith)
        requires
            0 <= i <= k,
            n >= 0,
            rank == i * n,
    ;
    assert(rank == at * k + past && 0 <= past < k) by {
        vstd::arithmetic::div_mod::lemma_fundamental_div_mod(rank, k as int);
        vstd::arithmetic::div_mod::lemma_mod_bound(rank, k as int);
        assert(k as int * at == at * k) by (nonlinear_arith);
    }
    assert(0 <= at <= n && (past > 0 ==> at < n)) by (nonlinear_arith)
        requires
            0 <= rank <= k * n,
            rank == at * k + past,
            0 <= past < k,
            k >= 1,
            n >= 0,
    ;
    if past > 0 {
        reveal_with_fuel(program::exact, 5);
        let (low, high) = (value(values[at]), value(values[at + 1]));
        let (p, m) = (past as real, k as int as real);
        let part = p / m;
        assert(0real <= part <= 1real) by (nonlinear_arith)
            requires
                part == p / m,
                0real <= p <= m,
                m >= 1real,
        ;
        let step = high - low;
        assert(0real <= part * step <= step) by (nonlinear_arith)
            requires
                0real <= part <= 1real,
                step >= 0real,
        ;
    }
}

/// In exact arithmetic the quantiles of sorted values ascend.
pub proof fn law_quantiles_ascend(
    values: Seq<Double>,
    k: nat,
    i: nat,
    j: nat,
    value: spec_fn(Double) -> real,
)
    requires
        values.len() > 0,
        k >= 1,
        i <= j <= k,
        forall|a: int, b: int|
            0 <= a <= b < values.len() ==> value(#[trigger] values[a]) <= value(
                #[trigger] values[b],
            ),
    ensures
        program::exact(quantile_terms(values, k)[i as int], value) <= program::exact(
            quantile_terms(values, k)[j as int],
            value,
        ),
{
    lemma_exact_quantile(values, i, k, value);
    lemma_exact_quantile(values, j, k, value);
    let n = values.len() - 1;
    let (r, s) = (i * n, j * n);
    let (a, b) = (r / (k as int), s / (k as int));
    let (p, q) = (r % (k as int), s % (k as int));
    assert(r <= s) by (nonlinear_arith)
        requires
            r == i * n,
            s == j * n,
            i <= j,
            n >= 0,
    ;
    vstd::arithmetic::div_mod::lemma_fundamental_div_mod(r, k as int);
    vstd::arithmetic::div_mod::lemma_fundamental_div_mod(s, k as int);
    vstd::arithmetic::div_mod::lemma_div_is_ordered(r, s, k as int);
    if a == b {
        assert(p <= q);
        if p > 0 {
            let step = value(values[a + 1]) - value(values[a]);
            let (x, y, m) = (p as real, q as real, k as int as real);
            assert((x / m) * step <= (y / m) * step) by (nonlinear_arith)
                requires
                    x <= y,
                    m >= 1real,
                    step >= 0real,
            ;
        }
    }
}

/// A value is assigned to a center that no center before it is as close as,
/// and no center after it closer, where any distance is less than infinity.
pub proof fn law_closest(list: Seq<Double>, k: int)
    requires
        0 <= k < list.len(),
        list[k].below(Double { bits: crate::double::INFINITE }),
    ensures
        0 <= closest(list).0 < list.len(),
        list[closest(list).0] == closest(list).1,
        forall|j: int| 0 <= j < list.len() ==> !(#[trigger] list[j]).below(closest(list).1),
        forall|j: int|
            0 <= j < closest(list).0 ==> !(#[trigger] list[j]).equals(closest(list).1),
    decreases list.len(),
{
    lemma_closest(list);
    let best = closest(list);
    assert(!list[k].below(best.1));
}

/// What holds of the closest of any distances.
proof fn lemma_closest(list: Seq<Double>)
    ensures
        !closest(list).1.nan(),
        0 <= closest(list).0,
        closest(list).0 < list.len() || list.len() == 0,
        closest(list).1 == (Double { bits: crate::double::INFINITE }) && closest(list).0 == 0 || (
        closest(list).0 < list.len() && list[closest(list).0] == closest(list).1 && closest(
            list,
        ).1.below(Double { bits: crate::double::INFINITE })),
        forall|j: int| 0 <= j < list.len() ==> !(#[trigger] list[j]).below(closest(list).1),
        closest(list).1.below(Double { bits: crate::double::INFINITE }) ==> forall|j: int|
            0 <= j < closest(list).0 ==> !(#[trigger] list[j]).equals(closest(list).1),
    decreases list.len(),
{
    if list.len() > 0 {
        let front = list.drop_last();
        lemma_closest(front);
        let best = closest(front);
        let last = list.last();
        assert(forall|j: int| 0 <= j < front.len() ==> front[j] == list[j]);
        assert forall|j: int| 0 <= j < list.len() implies !(#[trigger] list[j]).below(
            closest(list).1,
        ) by {
            if j < front.len() {
                assert(!front[j].below(best.1));
            }
        }
        if last.below(best.1) {
            assert forall|j: int| 0 <= j < closest(list).0 implies !(#[trigger] list[j]).equals(
                closest(list).1,
            ) by {
                assert(!front[j].below(best.1));
            }
        }
    }
}

/// Asks for the edges of `k` bins of equal width over sorted values.
pub fn uniform_edges(values: &Vec<Double>, k: usize) -> (r: Query)
    requires
        values.len() > 0,
        k >= 1,
    ensures
        r@ == uniform_terms(values@, k as nat),
{
    let ghost wanted = uniform_terms(values@, k as nat);
    let mut program: Program = Program::new();
    let low: usize = program.append(Operation::Value(values[0]));
    let high: usize = program.append(Operation::Value(values[values.len() - 1]));
    let span: usize = program.append(Operation::Minus(high, low));
    let count: usize = program.append(Operation::Natural(k as u64));
    let mut places: Vec<usize> = Vec::new();
    places.push(low);
    let mut i: usize = 1;
    while i < k
        invariant
            1 <= i <= k,
            wanted == uniform_terms(values@, k as nat),
            low < program@.len(),
            program@[low as int] == Term::Value(values@[0]),
            high < program@.len(),
            program@[high as int] == Term::Value(values@.last()),
            span < program@.len(),
            program@[span as int] == Term::Minus(
                Box::new(Term::Value(values@.last())),
                Box::new(Term::Value(values@[0])),
            ),
            count < program@.len(),
            program@[count as int] == Term::Natural(k as nat),
            places.len() == i,
            forall|m: int|
                0 <= m < i ==> (#[trigger] places@[m]) < program@.len()
                    && program@[places@[m] as int] == wanted[m],
        decreases k - i,
    {
        let step: usize = program.append(Operation::Natural(i as u64));
        let product: usize = program.append(Operation::Times(span, step));
        let part: usize = program.append(Operation::Over(product, count));
        let at: usize = program.append(Operation::Plus(low, part));
        assert(program@[at as int] == wanted[i as int]);
        places.push(at);
        i += 1;
    }
    places.push(high);
    let r: Query = Query::new(program, places);
    assert(r@ =~= wanted);
    r
}

/// A quantile stands among the values.
proof fn lemma_quantile(i: int, n: int, k: int)
    requires
        0 <= i <= k,
        1 <= k,
        1 <= n,
    ensures
        0 <= (i * (n - 1)) / k <= n - 1,
        (i * (n - 1)) % k != 0 ==> (i * (n - 1)) / k + 1 <= n - 1,
        0 <= i * (n - 1),
        0 <= (i * (n - 1)) % k < k,
{
    let rank = i * (n - 1);
    let at = rank / k;
    let past = rank % k;
    assert(0 <= rank <= k * (n - 1)) by (nonlinear_arith)
        requires
            0 <= i <= k,
            1 <= n,
            rank == i * (n - 1),
    ;
    vstd::arithmetic::div_mod::lemma_fundamental_div_mod(rank, k);
    vstd::arithmetic::div_mod::lemma_mod_bound(rank, k);
    assert(0 <= at) by {
        vstd::arithmetic::div_mod::lemma_div_pos_is_pos(rank, k);
    }
    assert(at <= n - 1) by (nonlinear_arith)
        requires
            rank == k * at + past,
            0 <= past,
            rank <= k * (n - 1),
            1 <= k,
    ;
    if past != 0 {
        assert(at < n - 1) by (nonlinear_arith)
            requires
                rank == k * at + past,
                0 < past,
                rank <= k * (n - 1),
                1 <= k,
        ;
    }
}

/// Where the `i`-th of `k` quantiles of `n` values stands, and how far past
/// that.
fn locate_quantile(i: usize, n: usize, k: usize) -> (r: (usize, usize))
    requires
        i <= k,
        1 <= k,
        1 <= n,
    ensures
        r.0 == (i * (n - 1)) / k as int,
        r.1 == (i * (n - 1)) % k as int,
        r.0 < n,
        r.1 != 0 ==> r.0 + 1 < n,
{
    let ghost rank = i * (n - 1);
    proof {
        lemma_quantile(i as int, n as int, k as int);
        assert(i * (n - 1) <= u64::MAX * u64::MAX) by (nonlinear_arith)
            requires
                0 <= i <= u64::MAX,
                1 <= n <= u64::MAX,
        ;
    }
    let product: u128 = (i as u128) * ((n - 1) as u128);
    let at: u128 = product / (k as u128);
    let past: u128 = product % (k as u128);
    (at as usize, past as usize)
}

/// Asks for the edges of `k` bins of equally many of the sorted values.
pub fn quantile_edges(values: &Vec<Double>, k: usize) -> (r: Query)
    requires
        values.len() > 0,
        k >= 1,
    ensures
        r@ == quantile_terms(values@, k as nat),
{
    let ghost wanted = quantile_terms(values@, k as nat);
    let mut program: Program = Program::new();
    let count: usize = program.append(Operation::Natural(k as u64));
    let mut places: Vec<usize> = Vec::new();
    let mut i: usize = 0;
    let mut done: bool = false;
    while !done
        invariant
            values.len() > 0,
            k >= 1,
            i <= k,
            wanted == quantile_terms(values@, k as nat),
            count < program@.len(),
            program@[count as int] == Term::Natural(k as nat),
            !done ==> places.len() == i,
            done ==> places.len() == k + 1,
            forall|m: int|
                0 <= m < places.len() ==> (#[trigger] places@[m]) < program@.len()
                    && program@[places@[m] as int] == wanted[m],
        decreases
            k - i,
            if done {
                0int
            } else {
                1int
            },
    {
        let (at, past) = locate_quantile(i, values.len(), k);
        let low: usize = program.append(Operation::Value(values[at]));
        let place: usize = if past == 0 {
            low
        } else {
            let over: usize = program.append(Operation::Natural(past as u64));
            let part: usize = program.append(Operation::Over(over, count));
            let high: usize = program.append(Operation::Value(values[at + 1]));
            let gap: usize = program.append(Operation::Minus(high, low));
            let rise: usize = program.append(Operation::Times(part, gap));
            program.append(Operation::Plus(low, rise))
        };
        assert(program@[place as int] == wanted[i as int]);
        places.push(place);
        if i < k {
            i += 1;
        } else {
            done = true;
        }
    }
    let r: Query = Query::new(program, places);
    assert(r@ =~= wanted);
    r
}

/// Asks for the edges of bins about centers.
fn edges_from_centers(values: &Vec<Double>, centers: &Vec<Double>) -> (r: Query)
    requires
        values.len() > 0,
        centers.len() > 0,
    ensures
        r@ == center_terms(values@, centers@),
{
    let ghost wanted = center_terms(values@, centers@);
    let mut program: Program = Program::new();
    let low: usize = program.append(Operation::Value(values[0]));
    let high: usize = program.append(Operation::Value(values[values.len() - 1]));
    let two: usize = program.append(Operation::Value(Double { bits: crate::double::TWO }));
    let mut places: Vec<usize> = Vec::new();
    places.push(low);
    let mut i: usize = 1;
    while i < centers.len()
        invariant
            1 <= i <= centers.len(),
            wanted == center_terms(values@, centers@),
            low < program@.len(),
            program@[low as int] == Term::Value(values@[0]),
            high < program@.len(),
            program@[high as int] == Term::Value(values@.last()),
            two < program@.len(),
            program@[two as int] == program::two(),
            places.len() == i,
            forall|m: int|
                0 <= m < i ==> (#[trigger] places@[m]) < program@.len()
                    && program@[places@[m] as int] == wanted[m],
        decreases centers.len() - i,
    {
        let a: usize = program.append(Operation::Value(centers[i - 1]));
        let b: usize = program.append(Operation::Value(centers[i]));
        let total: usize = program.append(Operation::Plus(a, b));
        let at: usize = program.append(Operation::Over(total, two));
        assert(program@[at as int] == wanted[i as int]);
        places.push(at);
        i += 1;
    }
    places.push(high);
    let r: Query = Query::new(program, places);
    assert(r@ =~= wanted);
    r
}

/// Row and column of a place in a table with rows of length `k`.
pub proof fn lemma_cell(i: int, j: int, n: int, k: int)
    requires
        0 <= i < n,
        0 <= j < k,
    ensures
        0 <= i * k,
        i * k + k <= n * k,
        (i * k + j) / k == i,
        (i * k + j) % k == j,
{
    vstd::arithmetic::div_mod::lemma_fundamental_div_mod_converse(i * k + j, k, i, j);
    assert(i * k + k <= n * k) by (nonlinear_arith)
        requires
            0 <= i < n,
            0 < k,
    ;
    assert(0 <= i * k) by (nonlinear_arith)
        requires
            0 <= i,
            0 < k,
    ;
}

/// Asks for the distances of each value from each center.
fn ask_distances(values: &Vec<Double>, centers: &Vec<Double>) -> (r: Query)
    ensures
        r@ == center_distances(values@, centers@),
{
    let ghost wanted = center_distances(values@, centers@);
    let ghost n = values.len() as int;
    let ghost k = centers.len() as int;
    let mut program: Program = Program::new();
    let mut places: Vec<usize> = Vec::new();
    let mut i: usize = 0;
    assert(0 * k == 0) by (nonlinear_arith);
    while i < values.len()
        invariant
            i <= values.len(),
            n == values.len(),
            k == centers.len(),
            wanted == center_distances(values@, centers@),
            places.len() == i * k,
            forall|m: int|
                0 <= m < places.len() ==> (#[trigger] places@[m]) < program@.len()
                    && program@[places@[m] as int] == wanted[m],
        decreases values.len() - i,
    {
        let v: usize = program.append(Operation::Value(values[i]));
        let mut j: usize = 0;
        while j < centers.len()
            invariant
                j <= centers.len(),
                i < values.len(),
                n == values.len(),
                k == centers.len(),
                wanted == center_distances(values@, centers@),
                v < program@.len(),
                program@[v as int] == Term::Value(values@[i as int]),
                places.len() == i * k + j,
                forall|m: int|
                    0 <= m < places.len() ==> (#[trigger] places@[m]) < program@.len()
                        && program@[places@[m] as int] == wanted[m],
            decreases centers.len() - j,
        {
            proof {
                lemma_cell(i as int, j as int, n, k);
            }
            let c: usize = program.append(Operation::Value(centers[j]));
            let d: usize = program.append(Operation::Minus(v, c));
            let at: usize = program.append(Operation::Magnitude(d));
            assert(program@[at as int] == wanted[i * k + j]);
            places.push(at);
            j += 1;
        }
        assert((i + 1) * k == i * k + k) by (nonlinear_arith);
        i += 1;
    }
    let r: Query = Query::new(program, places);
    assert(r@ =~= wanted);
    r
}

/// The numbers of centers.
spec fn numbers(list: Seq<usize>) -> Seq<int> {
    Seq::new(list.len(), |i: int| list[i] as int)
}

/// Asks where the centers move.
fn ask_moved(values: &Vec<Double>, assignment: &Vec<usize>, centers: &Vec<Double>) -> (r: Query)
    requires
        assignment.len() == values.len(),
    ensures
        r@ == moved_centers(values@, numbers(assignment@), centers@),
{
    let ghost wanted = moved_centers(values@, numbers(assignment@), centers@);
    let mut program: Program = Program::new();
    let zero: usize = program.append(Operation::Value(Double::zero()));
    let mut places: Vec<usize> = Vec::new();
    let mut c: usize = 0;
    while c < centers.len()
        invariant
            c <= centers.len(),
            assignment.len() == values.len(),
            wanted == moved_centers(values@, numbers(assignment@), centers@),
            zero < program@.len(),
            program@[zero as int] == program::nothing(),
            places.len() == c,
            forall|m: int|
                0 <= m < c ==> (#[trigger] places@[m]) < program@.len()
                    && program@[places@[m] as int] == wanted[m],
        decreases centers.len() - c,
    {
        let mut total: usize = zero;
        let mut count: usize = 0;
        let mut i: usize = 0;
        while i < values.len()
            invariant
                i <= values.len(),
                assignment.len() == values.len(),
                count <= i,
                count == members(values@, numbers(assignment@), c as int, i as nat).len(),
                zero < program@.len(),
                program@[zero as int] == program::nothing(),
                total < program@.len(),
                program@[total as int] == program::running_sum(
                    members(values@, numbers(assignment@), c as int, i as nat),
                ),
                places.len() == c,
                forall|m: int|
                    0 <= m < c ==> (#[trigger] places@[m]) < program@.len()
                        && program@[places@[m] as int] == wanted[m],
            decreases values.len() - i,
        {
            let ghost before = members(values@, numbers(assignment@), c as int, i as nat);
            let ghost after = members(values@, numbers(assignment@), c as int, (i + 1) as nat);
            assert(numbers(assignment@)[i as int] == assignment@[i as int]);
            if assignment[i] == c {
                let v: usize = program.append(Operation::Value(values[i]));
                total = program.append(Operation::Plus(total, v));
                count += 1;
                assert(after.drop_last() =~= before);
            }
            i += 1;
        }
        let at: usize = if count == 0 {
            program.append(Operation::Value(centers[c]))
        } else {
            let size: usize = program.append(Operation::Natural(count as u64));
            program.append(Operation::Over(total, size))
        };
        assert(program@[at as int] == wanted[c as int]);
        places.push(at);
        c += 1;
    }
    let r: Query = Query::new(program, places);
    assert(r@ =~= wanted);
    r
}

/// The closest center of a value, by a part of the distances.
fn find_closest(distances: &Vec<Double>, low: usize, k: usize) -> (r: usize)
    requires
        low + k <= distances.len(),
        k > 0,
    ensures
        r == closest(distances@.subrange(low as int, low + k)).0,
        r < k,
{
    let ghost list = distances@.subrange(low as int, low + k);
    let mut best: usize = 0;
    let mut least: Double = Double { bits: crate::double::INFINITE };
    let mut j: usize = 0;
    assert(list.take(0) =~= Seq::<Double>::empty());
    while j < k
        invariant
            j <= k,
            low + k <= distances.len(),
            list == distances@.subrange(low as int, low + k),
            best == closest(list.take(j as int)).0,
            least == closest(list.take(j as int)).1,
            best < k,
        decreases k - j,
    {
        assert(list.take(j + 1).drop_last() =~= list.take(j as int));
        if distances[low + j].is_below(least) {
            best = j;
            least = distances[low + j];
        }
        j += 1;
    }
    assert(list.take(j as int) =~= list);
    best
}

/// The closest center of each value.
fn assign(distances: &Vec<Double>, n: usize, k: usize) -> (r: Vec<usize>)
    requires
        distances.len() == n * k,
        k > 0,
    ensures
        numbers(r@) == assigned(distances@, n as nat, k as nat),
        r.len() == n,
        forall|i: int| 0 <= i < n ==> (#[trigger] r@[i]) < k,
{
    let ghost wanted = assigned(distances@, n as nat, k as nat);
    let mut r: Vec<usize> = Vec::new();
    let mut i: usize = 0;
    while i < n
        invariant
            i <= n,
            k > 0,
            distances.len() == n * k,
            wanted == assigned(distances@, n as nat, k as nat),
            r.len() == i,
            forall|m: int| 0 <= m < i ==> (#[trigger] r@[m]) < k && r@[m] == wanted[m],
        decreases n - i,
    {
        proof {
            lemma_cell(i as int, 0, n as int, k as int);
        }
        let at: usize = find_closest(distances, i * k, k);
        r.push(at);
        i += 1;
    }
    assert(numbers(r@) =~= wanted);
    r
}

/// Whether two assignments are the same.
fn same_assignment(a: &Vec<usize>, b: &Vec<usize>) -> (r: bool)
    requires
        a.len() == b.len(),
    ensures
        r == (numbers(a@) == numbers(b@)),
{
    let mut i: usize = 0;
    while i < a.len()
        invariant
            i <= a.len(),
            a.len() == b.len(),
            forall|k: int| 0 <= k < i ==> #[trigger] a@[k] == b@[k],
        decreases a.len() - i,
    {
        if a[i] != b[i] {
            assert(numbers(a@)[i as int] != numbers(b@)[i as int]);
            return false;
        }
        i += 1;
    }
    assert(numbers(a@) =~= numbers(b@));
    true
}

/// The first centers: `k` of the different values, evenly spaced.
fn seed_centers(distinct: &Vec<Double>, k: usize) -> (r: Vec<Double>)
    requires
        2 <= k < distinct.len(),
    ensures
        r@ == seeds(distinct@, k as nat),
{
    let n: usize = distinct.len();
    let mut r: Vec<Double> = Vec::new();
    let mut i: usize = 0;
    while i < k
        invariant
            i <= k,
            2 <= k < n,
            n == distinct.len(),
            r.len() == i,
            forall|m: int| 0 <= m < i ==> #[trigger] r@[m] == seeds(distinct@, k as nat)[m],
        decreases k - i,
    {
        let (at, past) = locate_quantile(i, n, k - 1);
        r.push(distinct[at]);
        i += 1;
    }
    assert(r@ =~= seeds(distinct@, k as nat));
    r
}

/// How far the search for the edges of a column has come.
enum Search {
    Measuring { centers: Vec<Double>, assignment: Option<Vec<usize>>, round: usize },
    Moving { centers: Vec<Double>, assignment: Vec<usize>, round: usize },
    Edging,
    Found(Vec<Double>),
}

/// The view of a search that asks for some terms.
spec fn search_view(search: Search, terms: Seq<Term>) -> SearchView {
    match search {
        Search::Measuring { centers, assignment, round } => SearchView::Measuring {
            centers: centers@,
            assignment: match assignment {
                Some(a) => Some(numbers(a@)),
                None => None,
            },
            round: round as nat,
        },
        Search::Moving { centers, assignment, round } => SearchView::Moving {
            centers: centers@,
            assignment: numbers(assignment@),
            round: round as nat,
        },
        Search::Edging => SearchView::Edging(terms),
        Search::Found(edges) => SearchView::Found(edges@),
    }
}

/// Finds the edges of the bins of one column. It asks for numbers, and goes on
/// with the answers.
pub struct EdgeFinder {
    values: Vec<Double>,
    search: Search,
    query: Query,
}

impl View for EdgeFinder {
    type V = FinderView;

    closed spec fn view(&self) -> FinderView {
        FinderView { values: self.values@, search: search_view(self.search, self.query@) }
    }
}

impl EdgeFinder {
    #[verifier::type_invariant]
    spec fn well_formed(self) -> bool {
        let n = self.values.len();
        &&& n > 0
        &&& self.query@ == self@.asked()
        &&& match self.search {
            Search::Measuring { centers, assignment, round } => {
                &&& centers.len() > 0
                &&& round < MOST_ROUNDS
                &&& assignment matches Some(a) ==> a.len() == n
            },
            Search::Moving { centers, assignment, round } => {
                &&& centers.len() > 0
                &&& round < MOST_ROUNDS
                &&& assignment.len() == n
            },
            Search::Edging => self.query@.len() > 0,
            Search::Found(edges) => edges.len() >= 2,
        }
    }

    /// The search for edges about settled centers.
    fn settle(values: Vec<Double>, centers: &Vec<Double>) -> (r: EdgeFinder)
        requires
            values.len() > 0,
            centers.len() > 0,
        ensures
            r@ == (FinderView { values: values@, search: edging(values@, centers@) }),
    {
        let sorted: Vec<Double> = doubles::sort(centers);
        let distinct: Vec<Double> = doubles::collapse(&sorted);
        proof {
            doubles::law_ascending(centers@);
            doubles::law_collapsed(sorted@);
        }
        let query: Query = edges_from_centers(&values, &distinct);
        EdgeFinder { values, search: Search::Edging, query }
    }

    /// Begins to find the edges of `k` bins over sorted values.
    pub fn begin(values: Vec<Double>, strategy: BinStrategy, k: usize) -> (r: EdgeFinder)
        requires
            values.len() > 0,
            k >= 2,
        ensures
            r@ == FinderView::begun(values@, strategy, k as nat),
    {
        let ghost view = FinderView::begun(values@, strategy, k as nat);
        let first: Double = values[0];
        if first.is_equal(values[values.len() - 1]) {
            let mut edges: Vec<Double> = Vec::new();
            edges.push(first);
            edges.push(first);
            assert(edges@ =~= seq![values@[0], values@[0]]);
            let query: Query = Query::new(Program::new(), Vec::new());
            assert(query@ =~= Seq::empty());
            return EdgeFinder { values, search: Search::Found(edges), query };
        }
        match strategy {
            BinStrategy::Uniform => {
                let query: Query = uniform_edges(&values, k);
                EdgeFinder { values, search: Search::Edging, query }
            },
            BinStrategy::Quantile => {
                let query: Query = quantile_edges(&values, k);
                EdgeFinder { values, search: Search::Edging, query }
            },
            BinStrategy::KMeans => {
                let distinct: Vec<Double> = doubles::collapse(&values);
                proof {
                    doubles::law_collapsed(values@);
                }
                if distinct.len() <= k {
                    let query: Query = edges_from_centers(&values, &distinct);
                    EdgeFinder { values, search: Search::Edging, query }
                } else {
                    let centers: Vec<Double> = seed_centers(&distinct, k);
                    let query: Query = ask_distances(&values, &centers);
                    EdgeFinder {
                        values,
                        search: Search::Measuring { centers, assignment: None, round: 0 },
                        query,
                    }
                }
            },
        }
    }

    /// What the search asks for.
    pub fn query(&self) -> (r: &Query)
        ensures
            r@ == self@.asked(),
    {
        proof {
            use_type_invariant(self);
        }
        &self.query
    }

    /// The edges, where they are found: at least two.
    pub fn edges(&self) -> (r: Option<&Vec<Double>>)
        ensures
            match r {
                Some(edges) => self@.search == SearchView::Found(edges@) && edges.len() >= 2,
                None => !(self@.search is Found),
            },
    {
        proof {
            use_type_invariant(self);
        }
        match &self.search {
            Search::Found(edges) => Some(edges),
            _ => None,
        }
    }

    /// Goes on with the answers, in the order in which they were asked for.
    pub fn advance(self, answers: &Vec<Double>) -> (r: EdgeFinder)
        requires
            answers.len() == self@.asked().len(),
        ensures
            r@ == self@.next(answers@),
    {
        proof {
            use_type_invariant(&self);
        }
        let ghost before = self@;
        let EdgeFinder { values, search, query } = self;
        let n: usize = values.len();
        match search {
            Search::Measuring { centers, assignment, round } => {
                let fresh: Vec<usize> = assign(answers, n, centers.len());
                let same: bool = match &assignment {
                    Some(a) => same_assignment(a, &fresh),
                    None => false,
                };
                if same {
                    EdgeFinder::settle(values, &centers)
                } else {
                    let query: Query = ask_moved(&values, &fresh, &centers);
                    EdgeFinder {
                        values,
                        search: Search::Moving { centers, assignment: fresh, round },
                        query,
                    }
                }
            },
            Search::Moving { centers, assignment, round } => {
                let moved: Vec<Double> = copy_all(answers);
                if round + 1 == MOST_ROUNDS {
                    EdgeFinder::settle(values, &moved)
                } else {
                    let query: Query = ask_distances(&values, &moved);
                    EdgeFinder {
                        values,
                        search: Search::Measuring {
                            centers: moved,
                            assignment: Some(assignment),
                            round: round + 1,
                        },
                        query,
                    }
                }
            },
            Search::Edging => {
                let mut edges: Vec<Double> = doubles::collapse(answers);
                proof {
                    doubles::law_collapsed(answers@);
                }
                if edges.len() < 2 {
                    let first: Double = edges[0];
                    edges.push(first);
                }
                assert(edges@ =~= settled_edges(answers@));
                let query: Query = Query::new(Program::new(), Vec::new());
                assert(query@ =~= Seq::empty());
                EdgeFinder { values, search: Search::Found(edges), query }
            },
            Search::Found(edges) => EdgeFinder { values, search: Search::Found(edges), query },
        }
    }
}

/// A copy of a list.
fn copy_all(list: &Vec<Double>) -> (r: Vec<Double>)
    ensures
        r@ == list@,
{
    let mut r: Vec<Double> = Vec::new();
    let mut i: usize = 0;
    while i < list.len()
        invariant
            i <= list.len(),
            r.len() == i,
            forall|k: int| 0 <= k < i ==> #[trigger] r@[k] == list@[k],
        decreases list.len() - i,
    {
        r.push(list[i]);
        i += 1;
    }
    assert(r@ =~= list@);
    r
}

/// The finite values of a column, in order.
pub open spec fn finite_values(cells: Seq<Option<Double>>) -> Seq<Double>
    decreases cells.len(),
{
    if cells.len() == 0 {
        Seq::empty()
    } else {
        let front = finite_values(cells.drop_last());
        match cells.last() {
            Some(v) => if v.finite() {
                front.push(v)
            } else {
                front
            },
            None => front,
        }
    }
}

/// The columns whose edges are looked for, up to the first column without a
/// finite value, and what is wrong with that one.
pub open spec fn begun_columns(columns: Seq<ColumnView>, strategy: BinStrategy, k: nat) -> (
    Seq<(Seq<char>, FinderView)>,
    Option<ErrorView>,
)
    decreases columns.len(),
{
    if columns.len() == 0 {
        (Seq::empty(), None)
    } else {
        let (list, fault) = begun_columns(columns.drop_last(), strategy, k);
        match (fault, columns.last().values) {
            (None, ValuesView::Float64(cells)) => {
                let values = finite_values(cells);
                if values.len() == 0 {
                    (
                        list,
                        Some(
                            ErrorView::about(
                                Problem::NoFiniteValues,
                                "KBinsDiscretizer"@,
                                columns.last().name,
                            ),
                        ),
                    )
                } else {
                    (
                        list.push(
                            (
                                columns.last().name,
                                FinderView::begun(doubles::ascending(values), strategy, k),
                            ),
                        ),
                        None,
                    )
                }
            },
            _ => (list, fault),
        }
    }
}

/// Why a discretizer cannot be fitted, before any edge is looked for.
pub open spec fn bins_fault(k: usize, x: FrameView) -> Option<ErrorView> {
    if x.height == 0 || x.columns.len() == 0 {
        Some(ErrorView::plain(Problem::EmptyFrame, "KBinsDiscretizer"@))
    } else if k < 2 {
        Some(ErrorView::plain(Problem::InvalidBins(k), "KBinsDiscretizer"@))
    } else {
        util::float_fault("KBinsDiscretizer"@, x)
    }
}

/// The search for the edges of the columns of a frame.
pub struct BinPlan {
    /// The columns, by name.
    pub columns: Vec<(Text, EdgeFinder)>,
    /// What is wrong with the column after them.
    pub fault: Option<Error>,
}

/// The views of columns whose edges are looked for.
pub open spec fn finder_views(columns: Seq<(Text, EdgeFinder)>) -> Seq<(Seq<char>, FinderView)> {
    Seq::new(columns.len(), |i: int| (columns[i].0@, columns[i].1@))
}

/// The view of an error, where there is one.
pub open spec fn fault_view(fault: Option<Error>) -> Option<ErrorView> {
    match fault {
        Some(e) => Some(e@),
        None => None,
    }
}

/// Whether all edges are found.
pub open spec fn all_found(columns: Seq<(Seq<char>, FinderView)>) -> bool {
    forall|i: int| 0 <= i < columns.len() ==> (#[trigger] columns[i]).1.search is Found
}

/// The columns with their edges.
pub open spec fn found_edges(columns: Seq<(Seq<char>, FinderView)>) -> Seq<
    (Seq<char>, Seq<Double>),
> {
    Seq::new(columns.len(), |i: int| (columns[i].0, columns[i].1.search->Found_0))
}

/// Why a column with edges cannot be written.
pub open spec fn single_fault(mode: EncodeMode) -> spec_fn((Seq<char>, Seq<Double>)) -> Option<
    ErrorView,
> {
    |column: (Seq<char>, Seq<Double>)|
        if mode == EncodeMode::OneHotDropFirst && column.1.len() < 3 {
            Some(ErrorView::about(Problem::SingleBin, "KBinsDiscretizer"@, column.0))
        } else {
            None
        }
}

/// Why a fit cannot be finished.
pub open spec fn finish_fault(
    mode: EncodeMode,
    columns: Seq<(Seq<char>, Seq<Double>)>,
    fault: Option<ErrorView>,
) -> Option<ErrorView> {
    match error::first_fault(columns, single_fault(mode)) {
        Some(e) => Some(e),
        None => fault,
    }
}

/// The names of columns with edges.
pub open spec fn edge_names(columns: Seq<(Seq<char>, Seq<Double>)>) -> Seq<Seq<char>> {
    Seq::new(columns.len(), |i: int| columns[i].0)
}

/// The edges of a column.
pub open spec fn edges_of(columns: Seq<(Seq<char>, Seq<Double>)>, name: Seq<char>) -> Option<
    Seq<Double>,
> {
    match text::position(edge_names(columns), name) {
        Some(i) => Some(columns[i].1),
        None => None,
    }
}

/// The numbers of the bins of a column: missing values stay missing, and what
/// is not finite becomes NaN.
pub open spec fn bin_numbers(cells: Seq<Option<Double>>, edges: Seq<Double>) -> Seq<Option<Term>> {
    Seq::new(
        cells.len(),
        |i: int|
            match cells[i] {
                None => None,
                Some(v) => Some(
                    if v.finite() {
                        Term::Natural(bin_of(edges, v))
                    } else {
                        Term::Value(Double { bits: crate::double::QUIET_NAN })
                    },
                ),
            },
    )
}

/// The flags of bin `j`: `1.0` for the values in it, `0.0` for all else.
pub open spec fn bin_flags(cells: Seq<Option<Double>>, edges: Seq<Double>, j: nat) -> Seq<
    Option<Term>,
> {
    Seq::new(
        cells.len(),
        |i: int|
            Some(
                if cells[i] matches Some(v) && v.finite() && bin_of(edges, v) == j {
                    program::unit()
                } else {
                    program::nothing()
                },
            ),
    )
}

/// Every finite value has one flag, and what is missing or not finite has none.
pub proof fn law_one_flag(cells: Seq<Option<Double>>, edges: Seq<Double>, i: int, j: nat)
    requires
        0 <= i < cells.len(),
    ensures
        bin_flags(cells, edges, j)[i] == Some(program::unit()) <==> (cells[i] matches Some(v)
            && v.finite() && bin_of(edges, v) == j),
{
    assert(program::unit() != program::nothing());
}

/// The columns of a frame with the numbers of bins.
pub open spec fn ordinal_columns(x: FrameView, learned: Seq<(Seq<char>, Seq<Double>)>) -> Seq<
    SheetColumnView,
> {
    Seq::new(
        x.columns.len(),
        |i: int|
            SheetColumnView {
                name: x.columns[i].name,
                cells: match edges_of(learned, x.columns[i].name) {
                    Some(edges) => CellsView::Float64(
                        bin_numbers(x.columns[i].values->Float64_0, edges),
                    ),
                    None => CellsView::Kept(i),
                },
            },
    )
}

/// The columns of flags of a column.
pub open spec fn flag_columns(
    name: Seq<char>,
    cells: Seq<Option<Double>>,
    edges: Seq<Double>,
    start: nat,
) -> Seq<SheetColumnView> {
    Seq::new(
        (edges.len() - 1 - start) as nat,
        |k: int|
            SheetColumnView {
                name: name + "_bin_"@ + text::decimal((start + k) as nat),
                cells: CellsView::Float64(bin_flags(cells, edges, (start + k) as nat)),
            },
    )
}

/// The first columns of a frame, those with bins as flags.
pub open spec fn flagged_columns(
    x: FrameView,
    learned: Seq<(Seq<char>, Seq<Double>)>,
    start: nat,
    n: nat,
) -> Seq<SheetColumnView>
    decreases n,
{
    if n == 0 {
        Seq::empty()
    } else {
        let front = flagged_columns(x, learned, start, (n - 1) as nat);
        let column = x.columns[n - 1];
        match edges_of(learned, column.name) {
            Some(edges) => front + flag_columns(
                column.name,
                column.values->Float64_0,
                edges,
                start,
            ),
            None => front.push(
                SheetColumnView { name: column.name, cells: CellsView::Kept(n - 1) },
            ),
        }
    }
}

/// Why a column of a frame cannot be written as flags.
pub open spec fn flag_fault(learned: Seq<(Seq<char>, Seq<Double>)>) -> spec_fn(ColumnView) -> Option<
    ErrorView,
> {
    |column: ColumnView|
        if edges_of(learned, column.name) is Some && !(column.values is Float64) {
            Some(
                ErrorView::detailed(
                    Problem::ExpectedFloat64,
                    "KBinsDiscretizer"@,
                    column.name,
                    column.values.dtype(),
                ),
            )
        } else {
            None
        }
}

/// Why a fitted column is not in a frame as it should be.
pub open spec fn fitted_fault(x: FrameView) -> spec_fn((Seq<char>, Seq<Double>)) -> Option<
    ErrorView,
> {
    |column: (Seq<char>, Seq<Double>)| util::number_fault("KBinsDiscretizer"@, x, column.0)
}

/// What a discretizer makes of a frame.
pub open spec fn bins_outcome(
    fitted: Option<Seq<(Seq<char>, Seq<Double>)>>,
    mode: EncodeMode,
    x: FrameView,
) -> Result<SheetView, ErrorView> {
    match fitted {
        None => Err(ErrorView::plain(Problem::NotFitted, "KBinsDiscretizer"@)),
        Some(learned) => match mode {
            EncodeMode::Ordinal => match error::first_fault(learned, fitted_fault(x)) {
                Some(e) => Err(e),
                None => Ok(
                    SheetView { height: x.height, columns: ordinal_columns(x, learned) },
                ),
            },
            _ => {
                let start: nat = if mode == EncodeMode::OneHotDropFirst {
                    1
                } else {
                    0
                };
                let columns = flagged_columns(x, learned, start, x.columns.len());
                match error::first_fault(x.columns, flag_fault(learned)) {
                    Some(e) => Err(e),
                    None => match encoder::collision(
                        Seq::empty(),
                        frame::sheet_names(columns),
                    ) {
                        Some(name) => Err(
                            ErrorView::about(Problem::ResultRepeats, "KBinsDiscretizer"@, name),
                        ),
                        None => Ok(SheetView { height: x.height, columns }),
                    },
                }
            },
        },
    }
}

/// The bin with which flags begin.
pub open spec fn first_flag(mode: EncodeMode) -> nat {
    if mode == EncodeMode::OneHotDropFirst {
        1
    } else {
        0
    }
}

/// Earlier columns come first, whatever columns follow.
proof fn lemma_flagged_begin(
    x: FrameView,
    learned: Seq<(Seq<char>, Seq<Double>)>,
    start: nat,
    n: nat,
    m: nat,
)
    requires
        n <= m,
    ensures
        ({
            let some = flagged_columns(x, learned, start, n);
            let all = flagged_columns(x, learned, start, m);
            &&& some.len() <= all.len()
            &&& forall|k: int| 0 <= k < some.len() ==> #[trigger] all[k] == some[k]
        }),
    decreases m,
{
    if n < m {
        lemma_flagged_begin(x, learned, start, n, (m - 1) as nat);
    }
}

/// Whether columns of flags say what columns of numbers do of column `c` of a
/// frame. Columns are replaced where they stand: one without edges is kept
/// either way, and one with `b` bins becomes one column of numbers below `b`, or
/// `b` columns of flags (one less where the first is dropped). The flag of bin
/// `j` is `1.0` in just the rows whose number is `j`; where the number is missing
/// or NaN, all flags are `0.0`.
pub open spec fn flags_agree(
    numbers: Seq<SheetColumnView>,
    flags: Seq<SheetColumnView>,
    x: FrameView,
    learned: Seq<(Seq<char>, Seq<Double>)>,
    start: nat,
    c: int,
) -> bool {
    let at = flagged_columns(x, learned, start, c as nat).len();
    let name = x.columns[c].name;
    &&& numbers.len() == x.columns.len()
    &&& numbers[c].name == name
    &&& match edges_of(learned, name) {
        None => {
            &&& at < flags.len()
            &&& numbers[c].cells == CellsView::Kept(c)
            &&& flags[at as int] == numbers[c]
        },
        Some(edges) => {
            let b = (edges.len() - 1) as nat;
            let cells = numbers[c].cells->Float64_0;
            &&& numbers[c].cells is Float64
            &&& cells.len() == (x.columns[c].values->Float64_0).len()
            &&& at + b - start <= flags.len()
            &&& forall|j: nat|
                start <= j < b ==> {
                    let flag = #[trigger] flags[at + j - start];
                    &&& flag.name == name + "_bin_"@ + text::decimal(j)
                    &&& flag.cells is Float64
                    &&& (flag.cells->Float64_0).len() == cells.len()
                }
            &&& forall|j: nat, i: int|
                start <= j < b && 0 <= i < cells.len() ==> #[trigger] (flags[at + j
                    - start].cells->Float64_0)[i] == Some(
                    if cells[i] == Some(Term::Natural(j)) {
                        program::unit()
                    } else {
                        program::nothing()
                    },
                )
            &&& forall|i: int|
                0 <= i < cells.len() ==> match #[trigger] cells[i] {
                    Some(Term::Natural(n)) => {
                        &&& n < b
                        &&& (x.columns[c].values->Float64_0)[i] matches Some(v)
                        &&& v.finite()
                    },
                    Some(other) => {
                        &&& other == Term::Value(Double { bits: crate::double::QUIET_NAN })
                        &&& (x.columns[c].values->Float64_0)[i] matches Some(v)
                        &&& !v.finite()
                    },
                    None => (x.columns[c].values->Float64_0)[i] is None,
                }
        },
    }
}

/// Both ways to write bins say the same of every column.
pub proof fn law_flags_of_numbers(
    x: FrameView,
    learned: Seq<(Seq<char>, Seq<Double>)>,
    mode: EncodeMode,
    c: int,
)
    requires
        mode != EncodeMode::Ordinal,
        bins_outcome(Some(learned), EncodeMode::Ordinal, x) is Ok,
        bins_outcome(Some(learned), mode, x) is Ok,
        0 <= c < x.columns.len(),
        forall|i: int| 0 <= i < learned.len() ==> (#[trigger] learned[i]).1.len() >= 2,
    ensures
        flags_agree(
            bins_outcome(Some(learned), EncodeMode::Ordinal, x)->Ok_0.columns,
            bins_outcome(Some(learned), mode, x)->Ok_0.columns,
            x,
            learned,
            first_flag(mode),
            c,
        ),
{
    let numbers = ordinal_columns(x, learned);
    let start = first_flag(mode);
    let flags = flagged_columns(x, learned, start, x.columns.len());
    let before = flagged_columns(x, learned, start, c as nat);
    let after = flagged_columns(x, learned, start, (c + 1) as nat);
    let at = before.len();
    let column = x.columns[c];
    lemma_flagged_begin(x, learned, start, (c + 1) as nat, x.columns.len());
    match edges_of(learned, column.name) {
        None => {
            assert(after[at as int] == numbers[c]);
            assert(flags[at as int] == after[at as int]);
        },
        Some(edges) => {
            let p = text::position(edge_names(learned), column.name)->0;
            text::lemma_position(edge_names(learned), column.name);
            assert(learned[p].1.len() >= 2);
            let group = flag_columns(column.name, column.values->Float64_0, edges, start);
            let b = (edges.len() - 1) as nat;
            assert(after == before + group);
            assert forall|j: nat| start <= j < b implies #[trigger] flags[at + j - start]
                == group[j - start] by {
                assert(after[at + j - start] == group[j - start]);
                assert(flags[at + j - start] == after[at + j - start]);
            }
        },
    }
}

/// A search after so many rounds of answers.
pub open spec fn searched(
    f: FinderView,
    answer: spec_fn(Seq<Term>) -> Seq<Double>,
    rounds: nat,
) -> FinderView
    decreases rounds,
{
    if rounds == 0 {
        f
    } else {
        let before = searched(f, answer, (rounds - 1) as nat);
        before.next(answer(before.asked()))
    }
}

/// The searches of columns after so many rounds of answers.
pub open spec fn searched_columns(
    columns: Seq<(Seq<char>, FinderView)>,
    answer: spec_fn(Seq<Term>) -> Seq<Double>,
    rounds: nat,
) -> Seq<(Seq<char>, FinderView)> {
    Seq::new(columns.len(), |i: int| (columns[i].0, searched(columns[i].1, answer, rounds)))
}

/// How many rounds of answers a search takes at most.
spec fn rounds_left(search: SearchView) -> int {
    match search {
        SearchView::Measuring { round, .. } => 2 * (MOST_ROUNDS - round) + 1,
        SearchView::Moving { round, .. } => 2 * (MOST_ROUNDS - round),
        SearchView::Edging(_) => 1,
        SearchView::Found(_) => 0,
    }
}

/// A search comes nearer to its end with every round.
proof fn lemma_rounds_left(f: FinderView, answer: spec_fn(Seq<Term>) -> Seq<Double>, rounds: nat)
    requires
        match f.search {
            SearchView::Measuring { round, .. } => round == 0,
            SearchView::Moving { round, .. } => round == 0,
            _ => true,
        },
    ensures
        ({
            let s = searched(f, answer, rounds).search;
            &&& match s {
                SearchView::Measuring { round, .. } => round < MOST_ROUNDS,
                SearchView::Moving { round, .. } => round < MOST_ROUNDS,
                _ => true,
            }
            &&& s is Found || rounds_left(s) <= 2 * MOST_ROUNDS + 1 - rounds
        }),
    decreases rounds,
{
    if rounds > 0 {
        lemma_rounds_left(f, answer, (rounds - 1) as nat);
    }
}

/// Every search ends: the edges are found after a fixed number of rounds of
/// answers, whatever the answers are.
pub proof fn law_search_ends(
    values: Seq<Double>,
    strategy: BinStrategy,
    k: nat,
    answer: spec_fn(Seq<Term>) -> Seq<Double>,
)
    ensures
        searched(
            FinderView::begun(values, strategy, k),
            answer,
            (2 * MOST_ROUNDS + 1) as nat,
        ).search is Found,
{
    let f = FinderView::begun(values, strategy, k);
    lemma_rounds_left(f, answer, (2 * MOST_ROUNDS + 1) as nat);
}

/// What was found stays.
proof fn lemma_found_stays(
    f: FinderView,
    answer: spec_fn(Seq<Term>) -> Seq<Double>,
    m: nat,
    n: nat,
)
    requires
        m <= n,
        searched(f, answer, m).search is Found,
    ensures
        searched(f, answer, n).search == searched(f, answer, m).search,
    decreases n,
{
    if m < n {
        lemma_found_stays(f, answer, m, (n - 1) as nat);
    }
}

/// Searches that begin alike and are given the same answers find the same
/// edges.
pub proof fn law_same_edges(
    columns: Seq<(Seq<char>, FinderView)>,
    answer: spec_fn(Seq<Term>) -> Seq<Double>,
    m: nat,
    n: nat,
)
    requires
        all_found(searched_columns(columns, answer, m)),
        all_found(searched_columns(columns, answer, n)),
    ensures
        found_edges(searched_columns(columns, answer, m)) == found_edges(
            searched_columns(columns, answer, n),
        ),
{
    let (some, others) = (
        searched_columns(columns, answer, m),
        searched_columns(columns, answer, n),
    );
    assert forall|i: int| 0 <= i < columns.len() implies found_edges(some)[i] == found_edges(
        others,
    )[i] by {
        assert(some[i].1.search is Found && others[i].1.search is Found);
        if m <= n {
            lemma_found_stays(columns[i].1, answer, m, n);
        } else {
            lemma_found_stays(columns[i].1, answer, n, m);
        }
    }
    assert(found_edges(some) =~= found_edges(others));
}

/// A search for `k` bins stays within that number.
proof fn lemma_searched_within(
    f: FinderView,
    answer: spec_fn(Seq<Term>) -> Seq<Double>,
    rounds: nat,
    k: nat,
)
    requires
        within(f, k),
        k >= 2,
        forall|terms: Seq<Term>| (#[trigger] answer(terms)).len() == terms.len(),
    ensures
        within(searched(f, answer, rounds), k),
    decreases rounds,
{
    if rounds > 0 {
        lemma_searched_within(f, answer, (rounds - 1) as nat, k);
        let before = searched(f, answer, (rounds - 1) as nat);
        law_bin_count_stays(before, answer(before.asked()), k);
    }
}

/// Searches begin within their number of bins.
proof fn lemma_begun_within(columns: Seq<ColumnView>, strategy: BinStrategy, k: nat)
    requires
        k >= 2,
    ensures
        forall|i: int|
            0 <= i < begun_columns(columns, strategy, k).0.len() ==> within(
                (#[trigger] begun_columns(columns, strategy, k).0[i]).1,
                k,
            ),
    decreases columns.len(),
{
    if columns.len() > 0 {
        lemma_begun_within(columns.drop_last(), strategy, k);
        let front = begun_columns(columns.drop_last(), strategy, k).0;
        let all = begun_columns(columns, strategy, k).0;
        assert forall|i: int| 0 <= i < all.len() implies within((#[trigger] all[i]).1, k) by {
            if i < front.len() {
                assert(all[i] == front[i]);
            } else if let ValuesView::Float64(cells) = columns.last().values {
                let values = doubles::ascending(finite_values(cells));
                doubles::law_ascending(finite_values(cells));
                law_bin_count_begins(values, strategy, k);
            }
        }
    }
}

/// Two discretizers that are fitted to one frame, with the same number of bins
/// and the same strategy, of which one writes numbers and the other flags: given
/// the same answers they learn the same edges, of one to `k` bins, and what they
/// make of a frame says the same.
pub proof fn law_two_discretizers(
    source: FrameView,
    strategy: BinStrategy,
    k: nat,
    answer: spec_fn(Seq<Term>) -> Seq<Double>,
    m: nat,
    n: nat,
    mode: EncodeMode,
    x: FrameView,
    c: int,
)
    requires
        k >= 2,
        forall|terms: Seq<Term>| (#[trigger] answer(terms)).len() == terms.len(),
        mode != EncodeMode::Ordinal,
        ({
            let begun = begun_columns(source.columns, strategy, k);
            let (some, others) = (
                searched_columns(begun.0, answer, m),
                searched_columns(begun.0, answer, n),
            );
            &&& all_found(some)
            &&& all_found(others)
            &&& finish_fault(EncodeMode::Ordinal, found_edges(some), begun.1) is None
            &&& finish_fault(mode, found_edges(others), begun.1) is None
            &&& bins_outcome(Some(found_edges(some)), EncodeMode::Ordinal, x) is Ok
            &&& bins_outcome(Some(found_edges(others)), mode, x) is Ok
        }),
        0 <= c < x.columns.len(),
    ensures
        ({
            let begun = begun_columns(source.columns, strategy, k);
            let learned = found_edges(searched_columns(begun.0, answer, m));
            let others = found_edges(searched_columns(begun.0, answer, n));
            &&& learned == others
            &&& forall|i: int|
                0 <= i < learned.len() ==> 2 <= (#[trigger] learned[i]).1.len() <= k + 1
            &&& flags_agree(
                bins_outcome(Some(learned), EncodeMode::Ordinal, x)->Ok_0.columns,
                bins_outcome(Some(others), mode, x)->Ok_0.columns,
                x,
                learned,
                first_flag(mode),
                c,
            )
        }),
{
    let begun = begun_columns(source.columns, strategy, k).0;
    let some = searched_columns(begun, answer, m);
    let learned = found_edges(some);
    law_same_edges(begun, answer, m, n);
    lemma_begun_within(source.columns, strategy, k);
    assert forall|i: int| 0 <= i < learned.len() implies 2 <= (#[trigger] learned[i]).1.len() <= k
        + 1 by {
        assert(within(begun[i].1, k));
        lemma_searched_within(begun[i].1, answer, m, k);
        assert(some[i].1.search is Found);
    }
    law_flags_of_numbers(x, learned, mode, c);
}

/// The finite values of a column, in order.
fn keep_finite(cells: &Vec<Option<Double>>) -> (r: Vec<Double>)
    ensures
        r@ == finite_values(cells@),
{
    let mut r: Vec<Double> = Vec::new();
    let mut i: usize = 0;
    assert(cells@.take(0) =~= Seq::empty());
    while i < cells.len()
        invariant
            i <= cells.len(),
            r@ == finite_values(cells@.take(i as int)),
        decreases cells.len() - i,
    {
        assert(cells@.take(i + 1).drop_last() =~= cells@.take(i as int));
        match cells[i] {
            Some(v) => {
                if v.is_finite() {
                    r.push(v);
                }
            },
            None => {},
        }
        i += 1;
    }
    assert(cells@.take(i as int) =~= cells@);
    r
}

/// The bin of a value.
pub fn bin_index(edges: &Vec<Double>, v: Double) -> (r: usize)
    requires
        edges.len() >= 2,
    ensures
        r == bin_of(edges@, v),
        r < edges.len() - 1,
{
    let bins: usize = edges.len() - 1;
    let mut n: usize = 0;
    let mut i: usize = 0;
    assert(edges@.take(0) =~= Seq::<Double>::empty());
    while i < edges.len()
        invariant
            i <= edges.len(),
            n <= i,
            n == reached(edges@.take(i as int), v),
        decreases edges.len() - i,
    {
        assert(edges@.take(i + 1).drop_last() =~= edges@.take(i as int));
        if n == i && (edges[i].is_below(v) || edges[i].is_equal(v)) {
            n += 1;
        }
        i += 1;
    }
    assert(edges@.take(i as int) =~= edges@);
    if n == 0 {
        0
    } else if n - 1 < bins {
        n - 1
    } else {
        bins - 1
    }
}

/// The views of learned edges.
spec fn learned_views(learned: Seq<(Text, Vec<Double>)>) -> Seq<(Seq<char>, Seq<Double>)> {
    Seq::new(learned.len(), |i: int| (learned[i].0@, learned[i].1@))
}

/// Where the edges of a column stand.
fn find_edges(learned: &Vec<(Text, Vec<Double>)>, name: &Text) -> (r: Option<usize>)
    ensures
        match r {
            Some(i) => i < learned.len() && edges_of(learned_views(learned@), name@) == Some(
                learned@[i as int].1@,
            ) && text::position(edge_names(learned_views(learned@)), name@) == Some(i as int),
            None => edges_of(learned_views(learned@), name@) is None,
        },
{
    let ghost names = edge_names(learned_views(learned@));
    let mut i: usize = 0;
    assert(names.take(0) =~= Seq::<Seq<char>>::empty());
    while i < learned.len()
        invariant
            i <= learned.len(),
            names == edge_names(learned_views(learned@)),
            text::position(names.take(i as int), name@) is None,
        decreases learned.len() - i,
    {
        assert(names.take(i + 1).drop_last() =~= names.take(i as int));
        if learned[i].0.same(name) {
            proof {
                text::lemma_position_stays(names, name@, i + 1);
            }
            return Some(i);
        }
        i += 1;
    }
    assert(names.take(i as int) =~= names);
    None
}

/// The numbers of the bins of a column.
fn number_bins(cells: &Vec<Option<Double>>, edges: &Vec<Double>) -> (r: Vec<Option<Number>>)
    requires
        edges.len() >= 2,
    ensures
        forall|terms: Seq<Term>| #[trigger]
            frame::terms_of(r@, terms) == bin_numbers(cells@, edges@),
{
    let mut r: Vec<Option<Number>> = Vec::new();
    let mut i: usize = 0;
    while i < cells.len()
        invariant
            i <= cells.len(),
            edges.len() >= 2,
            r.len() == i,
            forall|k: int|
                0 <= k < i ==> #[trigger] r@[k] == match cells@[k] {
                    None => None,
                    Some(v) => Some(
                        if v.finite() {
                            Number::Natural(bin_of(edges@, v) as u64)
                        } else {
                            Number::Known(Double { bits: crate::double::QUIET_NAN })
                        },
                    ),
                },
            forall|k: int|
                0 <= k < i ==> (#[trigger] cells@[k] matches Some(v) ==> bin_of(edges@, v)
                    <= u64::MAX),
        decreases cells.len() - i,
    {
        let next: Option<Number> = match cells[i] {
            None => None,
            Some(v) => {
                let b: usize = bin_index(edges, v);
                if v.is_finite() {
                    Some(Number::Natural(b as u64))
                } else {
                    Some(Number::Known(Double { bits: crate::double::QUIET_NAN }))
                }
            },
        };
        r.push(next);
        i += 1;
    }
    assert forall|terms: Seq<Term>| #[trigger]
        frame::terms_of(r@, terms) == bin_numbers(cells@, edges@) by {
        let a = frame::terms_of(r@, terms);
        let b = bin_numbers(cells@, edges@);
        assert forall|k: int| 0 <= k < cells.len() implies a[k] == b[k] by {
            assert(r@[k] == r@[k]);
            assert(cells@[k] == cells@[k]);
        }
        assert(a =~= b);
    }
    r
}

/// The flags of bin `j`.
fn flag_bin(cells: &Vec<Option<Double>>, edges: &Vec<Double>, j: usize) -> (r: Vec<Option<Number>>)
    requires
        edges.len() >= 2,
    ensures
        forall|terms: Seq<Term>| #[trigger]
            frame::terms_of(r@, terms) == bin_flags(cells@, edges@, j as nat),
{
    let mut r: Vec<Option<Number>> = Vec::new();
    let mut i: usize = 0;
    while i < cells.len()
        invariant
            i <= cells.len(),
            edges.len() >= 2,
            r.len() == i,
            forall|k: int|
                0 <= k < i ==> #[trigger] r@[k] == Some(
                    Number::Known(
                        if cells@[k] matches Some(v) && v.finite() && bin_of(edges@, v) == j {
                            Double { bits: crate::double::ONE }
                        } else {
                            Double { bits: 0 }
                        },
                    ),
                ),
        decreases cells.len() - i,
    {
        let inside: bool = match cells[i] {
            Some(v) => v.is_finite() && bin_index(edges, v) == j,
            None => false,
        };
        let flag: Double = if inside {
            Double::one()
        } else {
            Double::zero()
        };
        r.push(Some(Number::Known(flag)));
        i += 1;
    }
    assert forall|terms: Seq<Term>| #[trigger]
        frame::terms_of(r@, terms) == bin_flags(cells@, edges@, j as nat) by {
        let a = frame::terms_of(r@, terms);
        let b = bin_flags(cells@, edges@, j as nat);
        assert forall|k: int| 0 <= k < cells.len() implies a[k] == b[k] by {
            assert(r@[k] == r@[k]);
        }
        assert(a =~= b);
    }
    r
}

/// Sorts the numbers of columns into bins.
///
/// A fit has steps: [`fit`](KBinsDiscretizer::fit) begins to look for the edges
/// of each column, each [`EdgeFinder`] is brought to its edges, and
/// [`finish_fit`](KBinsDiscretizer::finish_fit) takes them.
pub struct KBinsDiscretizer {
    n_bins: usize,
    strategy: BinStrategy,
    encode: EncodeMode,
    learned: Option<Vec<(Text, Vec<Double>)>>,
}

impl KBinsDiscretizer {
    #[verifier::type_invariant]
    spec fn well_formed(self) -> bool {
        match self.learned {
            Some(list) => forall|i: int| 0 <= i < list.len() ==> (#[trigger] list@[i]).1.len() >= 2,
            None => true,
        }
    }

    /// The number of bins.
    pub closed spec fn bins(self) -> usize {
        self.n_bins
    }

    /// How edges are chosen.
    pub closed spec fn chosen(self) -> BinStrategy {
        self.strategy
    }

    /// How bins are written.
    pub closed spec fn mode(self) -> EncodeMode {
        self.encode
    }

    /// The columns with their edges; none before a fit is finished.
    pub closed spec fn fitted(self) -> Option<Seq<(Seq<char>, Seq<Double>)>> {
        match self.learned {
            Some(list) => Some(learned_views(list@)),
            None => None,
        }
    }

    /// A discretizer into five bins of equal width, by number.
    pub fn new() -> (r: KBinsDiscretizer)
        ensures
            r.fitted() is None,
            r.bins() == 5,
            r.chosen() == BinStrategy::Uniform,
            r.mode() == EncodeMode::Ordinal,
    {
        KBinsDiscretizer {
            n_bins: 5,
            strategy: BinStrategy::Uniform,
            encode: EncodeMode::Ordinal,
            learned: None,
        }
    }

    /// Sets the number of bins.
    pub fn n_bins(self, k: usize) -> (r: KBinsDiscretizer)
        ensures
            r.fitted() == self.fitted(),
            r.bins() == k,
            r.chosen() == self.chosen(),
            r.mode() == self.mode(),
    {
        proof {
            use_type_invariant(&self);
        }
        KBinsDiscretizer { n_bins: k, ..self }
    }

    /// Sets how edges are chosen.
    pub fn strategy(self, s: BinStrategy) -> (r: KBinsDiscretizer)
        ensures
            r.fitted() == self.fitted(),
            r.bins() == self.bins(),
            r.chosen() == s,
            r.mode() == self.mode(),
    {
        proof {
            use_type_invariant(&self);
        }
        KBinsDiscretizer { strategy: s, ..self }
    }

    /// Sets how bins are written.
    pub fn encode(self, e: EncodeMode) -> (r: KBinsDiscretizer)
        ensures
            r.fitted() == self.fitted(),
            r.bins() == self.bins(),
            r.chosen() == self.chosen(),
            r.mode() == e,
    {
        proof {
            use_type_invariant(&self);
        }
        KBinsDiscretizer { encode: e, ..self }
    }

    /// How many bins a column has: none for a column that is not sorted into
    /// bins.
    pub fn effective_bins(&self, column: &str) -> (r: Option<usize>)
        ensures
            match self.fitted() {
                None => r is None,
                Some(learned) => match edges_of(learned, column@) {
                    Some(edges) => r == Some((edges.len() - 1) as usize),
                    None => r is None,
                },
            },
    {
        proof {
            use_type_invariant(self);
        }
        match &self.learned {
            None => None,
            Some(learned) => {
                let name: Text = Text::of(column);
                match find_edges(learned, &name) {
                    Some(i) => {
                        assert(learned@[i as int].1.len() >= 2);
                        Some(learned[i].1.len() - 1)
                    },
                    None => None,
                }
            },
        }
    }

    /// Begins to look for the edges of each column of numbers. The discretizer
    /// is unfitted until the fit is finished.
    pub fn fit(&mut self, x: &Frame) -> (r: Result<BinPlan, Error>)
        ensures
            final(self).fitted() is None,
            final(self).bins() == old(self).bins(),
            final(self).chosen() == old(self).chosen(),
            final(self).mode() == old(self).mode(),
            match bins_fault(old(self).bins(), x@) {
                Some(e) => r is Err && r->Err_0@ == e,
                None => r is Ok && (finder_views(r->Ok_0.columns@), fault_view(r->Ok_0.fault))
                    == begun_columns(x@.columns, old(self).chosen(), old(self).bins() as nat),
            },
    {
        self.learned = None;
        if x.height() == 0 || x.width() == 0 {
            return Err(Error::plain(Problem::EmptyFrame, "KBinsDiscretizer"));
        }
        if self.n_bins < 2 {
            return Err(Error::plain(Problem::InvalidBins(self.n_bins), "KBinsDiscretizer"));
        }
        match util::require_f64_columns(x, "KBinsDiscretizer") {
            Ok(_) => {},
            Err(e) => {
                return Err(e);
            },
        }
        let ghost columns = x@.columns;
        let ghost strategy = self.strategy;
        let ghost k = self.n_bins as nat;
        let n: usize = x.width();
        let mut list: Vec<(Text, EdgeFinder)> = Vec::new();
        let mut fault: Option<Error> = None;
        let mut c: usize = 0;
        assert(columns.take(0) =~= Seq::empty());
        assert(finder_views(list@) =~= Seq::empty());
        while c < n
            invariant
                c <= n,
                n == columns.len(),
                columns == x@.columns,
                strategy == self.strategy,
                k == self.n_bins,
                self.n_bins >= 2,
                (finder_views(list@), fault_view(fault)) == begun_columns(
                    columns.take(c as int),
                    strategy,
                    k,
                ),
            decreases n - c,
        {
            assert(columns.take(c + 1).drop_last() =~= columns.take(c as int));
            let column: &Column = x.column(c);
            if fault.is_none() {
                match &column.values {
                    Values::Float64(cells) => {
                        let values: Vec<Double> = keep_finite(cells);
                        if values.len() == 0 {
                            fault = Some(
                                Error::about(
                                    Problem::NoFiniteValues,
                                    "KBinsDiscretizer",
                                    &column.name,
                                ),
                            );
                        } else {
                            let sorted: Vec<Double> = doubles::sort(&values);
                            proof {
                                doubles::law_ascending(values@);
                            }
                            let finder: EdgeFinder = EdgeFinder::begin(
                                sorted,
                                self.strategy,
                                self.n_bins,
                            );
                            let ghost before = finder_views(list@);
                            let ghost view = (column.name@, finder@);
                            list.push((column.name.duplicate(), finder));
                            assert(finder_views(list@) =~= before.push(view));
                        }
                    },
                    _ => {},
                }
            }
            c += 1;
        }
        assert(columns.take(c as int) =~= columns);
        Ok(BinPlan { columns: list, fault })
    }

    /// Finishes a fit with the edges that were found. After a failure the
    /// discretizer is unfitted.
    pub fn finish_fit(&mut self, plan: BinPlan) -> (r: Result<(), Error>)
        requires
            all_found(finder_views(plan.columns@)),
        ensures
            final(self).bins() == old(self).bins(),
            final(self).chosen() == old(self).chosen(),
            final(self).mode() == old(self).mode(),
            match finish_fault(
                old(self).mode(),
                found_edges(finder_views(plan.columns@)),
                fault_view(plan.fault),
            ) {
                Some(e) => r is Err && r->Err_0@ == e && final(self).fitted() is None,
                None => r is Ok && final(self).fitted() == Some(
                    found_edges(finder_views(plan.columns@)),
                ),
            },
    {
        self.learned = None;
        let ghost list = found_edges(finder_views(plan.columns@));
        let ghost test = single_fault(self.encode);
        proof {
            error::lemma_fault_ends(list, test);
        }
        let mut learned: Vec<(Text, Vec<Double>)> = Vec::new();
        let mut i: usize = 0;
        while i < plan.columns.len()
            invariant
                i <= plan.columns.len(),
                self.learned is None,
                self.bins() == old(self).bins(),
                self.chosen() == old(self).chosen(),
                self.mode() == old(self).mode(),
                all_found(finder_views(plan.columns@)),
                list == found_edges(finder_views(plan.columns@)),
                test == single_fault(self.encode),
                error::first_fault(list.take(i as int), test) is None,
                learned.len() == i,
                forall|k: int|
                    0 <= k < i ==> (#[trigger] learned@[k]).0@ == list[k].0 && learned@[k].1@
                        == list[k].1 && learned@[k].1.len() >= 2,
            decreases plan.columns.len() - i,
        {
            proof {
                error::lemma_fault_step(list, test, i as int);
                assert(finder_views(plan.columns@)[i as int].1.search is Found);
            }
            let (name, finder) = &plan.columns[i];
            match finder.edges() {
                Some(edges) => {
                    let drop_first: bool = match self.encode {
                        EncodeMode::OneHotDropFirst => true,
                        _ => false,
                    };
                    if drop_first && edges.len() < 3 {
                        return Err(Error::about(Problem::SingleBin, "KBinsDiscretizer", name));
                    }
                    learned.push((name.duplicate(), copy_all(edges)));
                },
                None => {},
            }
            i += 1;
        }
        assert(list.take(i as int) =~= list);
        match plan.fault {
            Some(e) => {
                return Err(e);
            },
            None => {},
        }
        assert(learned_views(learned@) =~= list);
        self.learned = Some(learned);
        Ok(())
    }

    /// The columns of a frame with the numbers of bins.
    fn write_numbers(learned: &Vec<(Text, Vec<Double>)>, x: &Frame) -> (r: Result<Sheet, Error>)
        requires
            forall|i: int|
                0 <= i < learned.len() ==> (#[trigger] learned@[i]).1.len() >= 2,
        ensures
            frame::outcome(r) == bins_outcome(
                Some(learned_views(learned@)),
                EncodeMode::Ordinal,
                x@,
            ),
    {
        let ghost list = learned_views(learned@);
        let ghost fault = fitted_fault(x@);
        proof {
            error::lemma_fault_ends(list, fault);
        }
        let mut i: usize = 0;
        while i < learned.len()
            invariant
                i <= learned.len(),
                list == learned_views(learned@),
                fault == fitted_fault(x@),
                error::first_fault(list.take(i as int), fault) is None,
            decreases learned.len() - i,
        {
            proof {
                error::lemma_fault_step(list, fault, i as int);
            }
            match util::find_f64_column(x, &learned[i].0, "KBinsDiscretizer") {
                Ok(_) => {},
                Err(e) => {
                    return Err(e);
                },
            }
            i += 1;
        }
        assert(list.take(i as int) =~= list);
        proof {
            error::lemma_faultless(list, fault);
        }
        let ghost wanted = ordinal_columns(x@, list);
        let n: usize = x.width();
        let program: Program = Program::new();
        let mut columns: Vec<SheetColumn> = Vec::new();
        let mut c: usize = 0;
        while c < n
            invariant
                c <= n,
                n == x@.columns.len(),
                x@.valid(),
                list == learned_views(learned@),
                forall|k: int|
                    0 <= k < learned.len() ==> (#[trigger] learned@[k]).1.len() >= 2,
                fault == fitted_fault(x@),
                forall|k: int| 0 <= k < list.len() ==> fault(#[trigger] list[k]) is None,
                wanted == ordinal_columns(x@, list),
                columns.len() == c,
                forall|k: int|
                    0 <= k < c ==> frame::sheet_column(#[trigger] columns@[k], program@)
                        == wanted[k],
            decreases n - c,
        {
            let column: &Column = x.column(c);
            let cells: Cells = match find_edges(learned, &column.name) {
                Some(at) => {
                    proof {
                        text::lemma_position(edge_names(list), column.name@);
                        assert(fault(list[at as int]) is None);
                        assert(list[at as int].0 == column.name@);
                        assert(x@.holds(column.name@, c as int));
                        frame::lemma_find(x@, column.name@, c as int);
                        assert(learned@[at as int].1.len() >= 2);
                    }
                    match &column.values {
                        Values::Float64(values) => Cells::Float64(
                            number_bins(values, &learned[at].1),
                        ),
                        _ => Cells::Kept(c),
                    }
                },
                None => Cells::Kept(c),
            };
            let made: SheetColumn = SheetColumn { name: column.name.duplicate(), cells };
            assert(frame::sheet_column(made, program@) == wanted[c as int]);
            columns.push(made);
            c += 1;
        }
        assert(frame::sheet_columns(columns@, program@) =~= wanted);
        Ok(Sheet { height: x.height(), columns, program })
    }

    /// Appends the columns of flags of a column.
    fn push_flags(
        name: &Text,
        cells: &Vec<Option<Double>>,
        edges: &Vec<Double>,
        start: usize,
        columns: &mut Vec<SheetColumn>,
        terms: Ghost<Seq<Term>>,
    )
        requires
            edges.len() >= 2,
            start <= 1,
        ensures
            frame::sheet_columns(final(columns)@, terms@) == frame::sheet_columns(
                old(columns)@,
                terms@,
            ) + flag_columns(name@, cells@, edges@, start as nat),
    {
        let ghost begun = frame::sheet_columns(columns@, terms@);
        let ghost wanted = flag_columns(name@, cells@, edges@, start as nat);
        let bins: usize = edges.len() - 1;
        let mut j: usize = start;
        assert(begun + wanted.take(0) =~= begun);
        while j < bins
            invariant
                start <= j <= bins,
                bins == edges.len() - 1,
                edges.len() >= 2,
                wanted == flag_columns(name@, cells@, edges@, start as nat),
                frame::sheet_columns(columns@, terms@) == begun + wanted.take(j - start),
            decreases bins - j,
        {
            let ghost before = columns@;
            let flags: Vec<Option<Number>> = flag_bin(cells, edges, j);
            let mut label: Text = name.duplicate();
            label.push_str("_bin_");
            label.push_decimal(j as u64);
            let column: SheetColumn = SheetColumn { name: label, cells: Cells::Float64(flags) };
            proof {
                assert(frame::terms_of(flags@, terms@) == bin_flags(cells@, edges@, j as nat));
                assert(frame::sheet_column(column, terms@) == wanted[j - start]);
            }
            columns.push(column);
            proof {
                assert(frame::sheet_columns(columns@, terms@) =~= frame::sheet_columns(
                    before,
                    terms@,
                ).push(wanted[j - start]));
                assert(begun + wanted.take(j + 1 - start) =~= (begun + wanted.take(
                    j - start,
                )).push(wanted[j - start]));
            }
            j += 1;
        }
        assert(wanted.take(j - start) =~= wanted);
    }

    /// The columns of a frame with bins as flags.
    fn write_flags(learned: &Vec<(Text, Vec<Double>)>, drop_first: bool, x: &Frame) -> (r: Result<
        Sheet,
        Error,
    >)
        requires
            forall|i: int|
                0 <= i < learned.len() ==> (#[trigger] learned@[i]).1.len() >= 2,
        ensures
            frame::outcome(r) == bins_outcome(
                Some(learned_views(learned@)),
                if drop_first {
                    EncodeMode::OneHotDropFirst
                } else {
                    EncodeMode::OneHot
                },
                x@,
            ),
    {
        let ghost list = learned_views(learned@);
        let ghost fault = flag_fault(list);
        let start: usize = if drop_first {
            1
        } else {
            0
        };
        let n: usize = x.width();
        let program: Program = Program::new();
        let mut columns: Vec<SheetColumn> = Vec::new();
        let mut c: usize = 0;
        proof {
            error::lemma_fault_ends(x@.columns, fault);
            assert(frame::sheet_columns(columns@, program@) =~= Seq::empty());
        }
        while c < n
            invariant
                c <= n,
                n == x@.columns.len(),
                x@.valid(),
                start <= 1,
                list == learned_views(learned@),
                forall|k: int|
                    0 <= k < learned.len() ==> (#[trigger] learned@[k]).1.len() >= 2,
                start == if drop_first {
                    1int
                } else {
                    0int
                },
                fault == flag_fault(list),
                error::first_fault(x@.columns.take(c as int), fault) is None,
                frame::sheet_columns(columns@, program@) == flagged_columns(
                    x@,
                    list,
                    start as nat,
                    c as nat,
                ),
            decreases n - c,
        {
            proof {
                error::lemma_fault_step(x@.columns, fault, c as int);
            }
            let column: &Column = x.column(c);
            match find_edges(learned, &column.name) {
                Some(at) => {
                    assert(learned@[at as int].1.len() >= 2);
                    match &column.values {
                        Values::Float64(cells) => {
                            KBinsDiscretizer::push_flags(
                                &column.name,
                                cells,
                                &learned[at].1,
                                start,
                                &mut columns,
                                Ghost(program@),
                            );
                        },
                        _ => {
                            let dtype: Text = column.values.dtype();
                            return Err(
                                Error::detailed(
                                    Problem::ExpectedFloat64,
                                    "KBinsDiscretizer",
                                    &column.name,
                                    dtype,
                                ),
                            );
                        },
                    }
                },
                None => {
                    let ghost before = frame::sheet_columns(columns@, program@);
                    let made: SheetColumn = SheetColumn {
                        name: column.name.duplicate(),
                        cells: Cells::Kept(c),
                    };
                    let ghost view = frame::sheet_column(made, program@);
                    columns.push(made);
                    assert(frame::sheet_columns(columns@, program@) =~= before.push(view));
                },
            }
            c += 1;
        }
        assert(x@.columns.take(c as int) =~= x@.columns);
        let ghost wanted = frame::sheet_columns(columns@, program@);
        let mut names: Vec<Text> = Vec::new();
        let mut k: usize = 0;
        while k < columns.len()
            invariant
                k <= columns.len(),
                wanted == frame::sheet_columns(columns@, program@),
                names.len() == k,
                forall|m: int| 0 <= m < k ==> (#[trigger] names@[m])@ == wanted[m].name,
            decreases columns.len() - k,
        {
            let name: Text = columns[k].name.duplicate();
            names.push(name);
            k += 1;
        }
        assert(text::views(names@) =~= frame::sheet_names(wanted));
        let taken: Vec<Text> = Vec::new();
        assert(text::views(taken@) =~= Seq::empty());
        match encoder::find_collision(&taken, &names) {
            Some(at) => {
                return Err(Error::about(Problem::ResultRepeats, "KBinsDiscretizer", &names[at]));
            },
            None => {},
        }
        Ok(Sheet { height: x.height(), columns, program })
    }

    /// Writes the bins of the values of each fitted column.
    pub fn transform(&self, x: &Frame) -> (r: Result<Sheet, Error>)
        ensures
            frame::outcome(r) == bins_outcome(self.fitted(), self.mode(), x@),
    {
        proof {
            use_type_invariant(self);
        }
        match &self.learned {
            None => Err(Error::plain(Problem::NotFitted, "KBinsDiscretizer")),
            Some(learned) => match self.encode {
                EncodeMode::Ordinal => KBinsDiscretizer::write_numbers(learned, x),
                EncodeMode::OneHot => KBinsDiscretizer::write_flags(learned, false, x),
                EncodeMode::OneHotDropFirst => KBinsDiscretizer::write_flags(learned, true, x),
            },
        }
    }
}

impl Default for KBinsDiscretizer {
    fn default() -> (r: KBinsDiscretizer)
        ensures
            r.fitted() is None,
            r.bins() == 5,
            r.chosen() == BinStrategy::Uniform,
            r.mode() == EncodeMode::Ordinal,
    {
        KBinsDiscretizer::new()
    }
}

} // verus!
