//! What the edges of bins are: the laws of the three ways to find them, in exact
//! arithmetic.

use crate::calculus;
use crate::count;
use crate::double::Double;
use crate::doubles;
use crate::preprocessing::kbins_discretizer;
use crate::preprocessing::kbins_discretizer::BinStrategy;
use crate::preprocessing::kbins_discretizer::FinderView;
use crate::preprocessing::kbins_discretizer::SearchView;
use crate::program;
use crate::program::Term;
use crate::reals;
use crate::tally;
use vstd::prelude::*;

verus! {

/// Bins of equal width are equally wide: the edges go from the least value to the
/// greatest, and each lies one `k`-th of the way beyond the one before.
pub proof fn law_equal_widths(
    values: Seq<Double>,
    k: nat,
    i: int,
    value: spec_fn(Double) -> real,
)
    requires
        values.len() > 0,
        k >= 1,
        0 <= i < k,
    ensures
        ({
            let edges = kbins_discretizer::uniform_terms(values, k);
            let (low, high) = (value(values[0]), value(values.last()));
            &&& edges.len() == k + 1
            &&& program::exact(edges[0], value) == low
            &&& program::exact(edges[k as int], value) == high
            &&& (program::exact(edges[i + 1], value) - program::exact(edges[i], value)) * (
            k as int as real) == high - low
        }),
{
    kbins_discretizer::lemma_uniform_edge(values, k, i, value);
    kbins_discretizer::lemma_uniform_edge(values, k, i + 1, value);
    kbins_discretizer::lemma_uniform_edge(values, k, 0, value);
    kbins_discretizer::lemma_uniform_edge(values, k, k as int, value);
    let span = value(values.last()) - value(values[0]);
    let (x, n) = (i as real, k as int as real);
    let (a, b) = (span * x, span * (x + 1real));
    assert((i + 1) as real == x + 1real);
    calculus::lemma_quotient(a, n);
    calculus::lemma_quotient(b, n);
    let (p, q) = (a / n, b / n);
    assert((q - p) * n == q * n - p * n) by (nonlinear_arith);
    assert(span * (x + 1real) == span * x + span) by (nonlinear_arith);
}

/// Quantiles of evenly spaced values are evenly spaced: of values that begin with
/// `start` and go up by `step`, quantile `i` of `k` lies `i` `k`-ths of the way.
pub proof fn law_quantiles_interpolate(
    values: Seq<Double>,
    i: nat,
    k: nat,
    start: real,
    step: real,
    value: spec_fn(Double) -> real,
)
    requires
        values.len() > 0,
        k >= 1,
        i <= k,
        step >= 0real,
        forall|j: int|
            0 <= j < values.len() ==> value(#[trigger] values[j]) == start + step * (j as real),
    ensures
        (program::exact(kbins_discretizer::quantile_terms(values, k)[i as int], value) - start) * (
        k as int as real) == step * ((i * (values.len() - 1)) as real),
{
    assert forall|a: int, b: int| 0 <= a <= b < values.len() implies value(#[trigger] values[a])
        <= value(#[trigger] values[b]) by {
        let (x, y) = (a as real, b as real);
        calculus::lemma_product(step, y - x);
        assert(step * (y - x) == step * y - step * x) by (nonlinear_arith);
    }
    kbins_discretizer::lemma_exact_quantile(values, i, k, value);
    let rank = i * (values.len() - 1);
    let (at, past) = (rank / (k as int), rank % (k as int));
    vstd::arithmetic::div_mod::lemma_fundamental_div_mod(rank, k as int);
    let (a, p, m) = (at as real, past as real, k as int as real);
    let q = program::exact(kbins_discretizer::quantile_term(values, i, k), value);
    lemma_cast(k as int, at);
    assert(rank as real == m * a + p);
    assert(step * (m * a + p) == (step * a) * m + step * p) by (nonlinear_arith);
    if past == 0 {
        assert(q - start == step * a);
        assert(step * 0real == 0real) by (nonlinear_arith);
    } else {
        assert((at + 1) as real == a + 1real);
        assert(step * (a + 1real) == step * a + step) by (nonlinear_arith);
        let part = p / m;
        calculus::lemma_quotient(p, m);
        assert(q - start == step * a + part * step);
        assert((step * a + part * step) * m == (step * a) * m + step * (part * m))
            by (nonlinear_arith);
    }
}

/// The product of whole numbers is the same among the real numbers.
proof fn lemma_cast(a: int, b: int)
    requires
        0 <= b,
    ensures
        (a as real) * (b as real) == (a * b) as real,
    decreases b,
{
    if b > 0 {
        lemma_cast(a, b - 1);
        let (x, y) = (a as real, (b - 1) as real);
        assert(b as real == y + 1real);
        assert(x * (y + 1real) == x * y + x) by (nonlinear_arith);
        assert(a * b == a * (b - 1) + a) by (nonlinear_arith);
        assert((a * b) as real == (a * (b - 1)) as real + x);
    } else {
        assert((a as real) * 0real == 0real) by (nonlinear_arith);
        assert(a * 0 == 0) by (nonlinear_arith);
    }
}

/// A quantile has as much of the values on either side as it says: at least
/// `i` `k`-ths of the steps between neighbouring values lie at or below the value
/// after it, and no more lie below the value that it is at or above.
pub proof fn law_quantile_rank(
    values: Seq<Double>,
    i: nat,
    k: nat,
    value: spec_fn(Double) -> real,
) -> (at: int)
    requires
        values.len() > 0,
        k >= 1,
        i <= k,
        forall|a: int, b: int|
            0 <= a <= b < values.len() ==> value(#[trigger] values[a]) <= value(
                #[trigger] values[b],
            ),
    ensures
        0 <= at < values.len(),
        at * k <= i * (values.len() - 1) < (at + 1) * k,
        value(values[at]) <= program::exact(
            kbins_discretizer::quantile_terms(values, k)[i as int],
            value,
        ),
        at + 1 < values.len() ==> program::exact(
            kbins_discretizer::quantile_terms(values, k)[i as int],
            value,
        ) <= value(values[at + 1]),
{
    kbins_discretizer::lemma_exact_quantile(values, i, k, value);
    let rank = i * (values.len() - 1);
    let at = rank / (k as int);
    vstd::arithmetic::div_mod::lemma_fundamental_div_mod(rank, k as int);
    assert(k as int * at == at * k) by (nonlinear_arith);
    assert((at + 1) * k == at * k + k) by (nonlinear_arith);
    at
}

/// The edges about centers are the least value, the greatest, and between them
/// the points half way between neighbouring centers.
pub proof fn law_edges_between_centers(
    values: Seq<Double>,
    centers: Seq<Double>,
    i: int,
    value: spec_fn(Double) -> real,
)
    requires
        values.len() > 0,
        0 < i < centers.len(),
        value(Double { bits: 0x4000_0000_0000_0000 }) == 2real,
    ensures
        ({
            let edges = kbins_discretizer::center_terms(values, centers);
            &&& edges.len() == centers.len() + 1
            &&& program::exact(edges[0], value) == value(values[0])
            &&& program::exact(edges.last(), value) == value(values.last())
            &&& program::exact(edges[i], value) * 2real == value(centers[i - 1]) + value(centers[i])
        }),
{
    reveal_with_fuel(program::exact, 3);
    calculus::lemma_quotient(value(centers[i - 1]) + value(centers[i]), 2real);
}

/// The first centers are spread evenly over the different values: from the least
/// to the greatest, center `i` is the last that is no further than `i` of `k - 1`
/// parts of the way.
pub proof fn law_first_centers(distinct: Seq<Double>, k: nat, i: int) -> (at: int)
    requires
        k >= 2,
        distinct.len() >= k,
        0 <= i < k,
    ensures
        0 <= at < distinct.len(),
        kbins_discretizer::seeds(distinct, k).len() == k,
        kbins_discretizer::seeds(distinct, k)[i] == distinct[at],
        at * (k - 1) <= i * (distinct.len() - 1) < (at + 1) * (k - 1),
        i == 0 ==> at == 0,
        i == k - 1 ==> at == distinct.len() - 1,
{
    let n = distinct.len() - 1;
    let d = k - 1;
    let at = (i * n) / d;
    vstd::arithmetic::div_mod::lemma_fundamental_div_mod(i * n, d);
    vstd::arithmetic::div_mod::lemma_mod_bound(i * n, d);
    assert(d * at == at * d) by (nonlinear_arith);
    assert((at + 1) * d == at * d + d) by (nonlinear_arith);
    assert(0 <= i * n <= d * n) by (nonlinear_arith)
        requires
            0 <= i <= d,
            n >= 0,
    ;
    assert(0 <= at <= n) by (nonlinear_arith)
        requires
            0 <= i * n <= d * n,
            at * d <= i * n < at * d + d,
            d >= 1,
            n >= 0,
    ;
    if i == d {
        vstd::arithmetic::div_mod::lemma_div_multiples_vanish(n, d);
    }
    if i == 0 {
        assert(0 * n == 0) by (nonlinear_arith);
        vstd::arithmetic::div_mod::lemma_div_basics(d);
    }
    at
}

/// What the values of center `c` add up to: those of other centers count as zero.
pub open spec fn weight_of(
    values: Seq<Double>,
    assignment: Seq<int>,
    c: int,
    value: spec_fn(Double) -> real,
) -> Seq<real> {
    Seq::new(
        values.len(),
        |i: int|
            if assignment[i] == c {
                value(values[i])
            } else {
                0real
            },
    )
}

/// One for each value of center `c`.
pub open spec fn number_of(values: Seq<Double>, assignment: Seq<int>, c: int) -> Seq<real> {
    Seq::new(
        values.len(),
        |i: int|
            if assignment[i] == c {
                1real
            } else {
                0real
            },
    )
}

/// The distance of two numbers.
pub open spec fn distance(a: Double, b: Double, value: spec_fn(Double) -> real) -> real {
    calculus::magnitude(value(a) - value(b))
}

/// Whether each value is assigned to a center that no other is closer than, and to
/// the first such.
pub open spec fn all_at_closest(
    values: Seq<Double>,
    centers: Seq<Double>,
    assignment: Seq<int>,
    value: spec_fn(Double) -> real,
    number: spec_fn(real) -> Double,
) -> bool {
    &&& assignment.len() == values.len()
    &&& forall|i: int|
        0 <= i < values.len() ==> at_closest(
            values[i],
            centers,
            #[trigger] assignment[i],
            value,
            number,
        )
}

/// Whether center `c` is the first of those that no other is closer than.
pub open spec fn at_closest(
    d: Double,
    centers: Seq<Double>,
    c: int,
    value: spec_fn(Double) -> real,
    number: spec_fn(real) -> Double,
) -> bool {
    let least = number(distance(d, centers[c], value));
    &&& 0 <= c < centers.len()
    &&& forall|j: int|
        0 <= j < centers.len() ==> !number(distance(d, #[trigger] centers[j], value)).below(least)
    &&& forall|j: int|
        0 <= j < c ==> !number(distance(d, #[trigger] centers[j], value)).equals(least)
}

/// Whether each center that has values is the number for their mean.
pub open spec fn all_at_means(
    values: Seq<Double>,
    centers: Seq<Double>,
    assignment: Seq<int>,
    value: spec_fn(Double) -> real,
    number: spec_fn(real) -> Double,
) -> bool {
    forall|c: int|
        0 <= c < centers.len() && reals::total(number_of(values, assignment, c)) > 0real
            ==> #[trigger] centers[c] == number(
            reals::total(weight_of(values, assignment, c, value)) / reals::total(
                number_of(values, assignment, c),
            ),
        )
}

/// Whether centers are settled: each value is assigned to its closest center, and
/// each center that has values is their mean, so that another round of assigning
/// and moving changes nothing.
pub open spec fn are_settled(
    values: Seq<Double>,
    centers: Seq<Double>,
    assignment: Seq<int>,
    value: spec_fn(Double) -> real,
    number: spec_fn(real) -> Double,
) -> bool {
    &&& all_at_closest(values, centers, assignment, value, number)
    &&& all_at_means(values, centers, assignment, value, number)
}

/// The answers of an arithmetic.
pub open spec fn answers_of(
    value: spec_fn(Double) -> real,
    number: spec_fn(real) -> Double,
) -> spec_fn(Seq<Term>) -> Seq<Double> {
    |terms: Seq<Term>| reals::answered(terms, value, number)
}

/// The values that are assigned to a center, and their number.
proof fn lemma_members(
    values: Seq<Double>,
    assignment: Seq<int>,
    c: int,
    n: nat,
    value: spec_fn(Double) -> real,
)
    requires
        n <= values.len(),
    ensures
        ({
            let list = kbins_discretizer::members(values, assignment, c, n);
            &&& reals::total(reals::exacts(list, value)) == reals::total(
                weight_of(values, assignment, c, value).take(n as int),
            )
            &&& list.len() as int as real == reals::total(
                number_of(values, assignment, c).take(n as int),
            )
        }),
    decreases n,
{
    let (w, o) = (weight_of(values, assignment, c, value), number_of(values, assignment, c));
    let list = kbins_discretizer::members(values, assignment, c, n);
    if n > 0 {
        lemma_members(values, assignment, c, (n - 1) as nat, value);
        let front = kbins_discretizer::members(values, assignment, c, (n - 1) as nat);
        assert(w.take(n as int).drop_last() =~= w.take(n - 1));
        assert(o.take(n as int).drop_last() =~= o.take(n - 1));
        if assignment[n - 1] == c {
            assert(reals::exacts(list, value).drop_last() =~= reals::exacts(front, value));
        }
    } else {
        assert(w.take(0) =~= Seq::empty() && o.take(0) =~= Seq::empty());
        assert(reals::exacts(list, value) =~= Seq::empty());
    }
}

/// Where a center with values moves.
proof fn lemma_moved(
    values: Seq<Double>,
    assignment: Seq<int>,
    centers: Seq<Double>,
    value: spec_fn(Double) -> real,
    number: spec_fn(real) -> Double,
)
    requires
        value(Double { bits: 0 }) == 0real,
    ensures
        all_at_means(
            values,
            reals::answered(
                kbins_discretizer::moved_centers(values, assignment, centers),
                value,
                number,
            ),
            assignment,
            value,
            number,
        ),
{
    let terms = kbins_discretizer::moved_centers(values, assignment, centers);
    let moved = reals::answered(terms, value, number);
    assert forall|c: int|
        0 <= c < moved.len() && reals::total(number_of(values, assignment, c)) > 0real implies (
    #[trigger] moved[c]) == number(
        reals::total(weight_of(values, assignment, c, value)) / reals::total(
            number_of(values, assignment, c),
        ),
    ) by {
        let n = values.len();
        let list = kbins_discretizer::members(values, assignment, c, n);
        lemma_members(values, assignment, c, n, value);
        assert(weight_of(values, assignment, c, value).take(n as int) =~= weight_of(
            values,
            assignment,
            c,
            value,
        ));
        assert(number_of(values, assignment, c).take(n as int) =~= number_of(
            values,
            assignment,
            c,
        ));
        assert(list.len() > 0);
        reals::lemma_running_sum(list, value);
        reveal_with_fuel(program::exact, 2);
        assert(terms[c] == Term::Over(
            Box::new(program::running_sum(list)),
            Box::new(Term::Natural(list.len())),
        ));
    }
}

/// Where values are assigned.
proof fn lemma_assigned(
    values: Seq<Double>,
    centers: Seq<Double>,
    value: spec_fn(Double) -> real,
    number: spec_fn(real) -> Double,
)
    requires
        centers.len() > 0,
        forall|r: real| (#[trigger] number(r)).finite(),
    ensures
        all_at_closest(
            values,
            centers,
            kbins_discretizer::assigned(
                reals::answered(
                    kbins_discretizer::center_distances(values, centers),
                    value,
                    number,
                ),
                values.len(),
                centers.len(),
            ),
            value,
            number,
        ),
{
    let (n, k) = (values.len(), centers.len());
    let terms = kbins_discretizer::center_distances(values, centers);
    let answers = reals::answered(terms, value, number);
    let a = kbins_discretizer::assigned(answers, n, k);
    assert forall|i: int| 0 <= i < n implies at_closest(
        values[i],
        centers,
        #[trigger] a[i],
        value,
        number,
    ) by {
        let row = answers.subrange(i * k, i * k + k);
        kbins_discretizer::lemma_cell(i, 0, n as int, k as int);
        assert forall|j: int| 0 <= j < k implies #[trigger] row[j] == number(
            distance(values[i], centers[j], value),
        ) by {
            kbins_discretizer::lemma_cell(i, j, n as int, k as int);
            reveal_with_fuel(program::exact, 3);
            assert(row[j] == answers[i * k + j]);
        }
        assert(row[0].finite());
        kbins_discretizer::law_closest(row, 0);
        assert forall|j: int| 0 <= j < k implies !number(
            distance(values[i], #[trigger] centers[j], value),
        ).below(number(distance(values[i], centers[a[i]], value))) by {
            assert(!row[j].below(row[a[i]]));
        }
        assert forall|j: int| 0 <= j < a[i] implies !number(
            distance(values[i], #[trigger] centers[j], value),
        ).equals(number(distance(values[i], centers[a[i]], value))) by {
            assert(!row[j].equals(row[a[i]]));
        }
    }
}

/// Where a value is assigned is settled by what is closest.
proof fn lemma_one_closest(
    d: Double,
    centers: Seq<Double>,
    a: int,
    b: int,
    value: spec_fn(Double) -> real,
    number: spec_fn(real) -> Double,
)
    requires
        at_closest(d, centers, a, value, number),
        at_closest(d, centers, b, value, number),
        forall|r: real| (#[trigger] number(r)).finite(),
    ensures
        a == b,
{
    let (x, y) = (
        number(distance(d, centers[a], value)),
        number(distance(d, centers[b], value)),
    );
    assert(x.finite() && y.finite());
    assert(!x.below(y) && !y.below(x));
    assert(x.equals(y));
}

/// One more round changes nothing of settled centers: the values are assigned as
/// they were, and the centers stay where they are.
pub proof fn law_settled_centers_stay(
    values: Seq<Double>,
    centers: Seq<Double>,
    assignment: Seq<int>,
    value: spec_fn(Double) -> real,
    number: spec_fn(real) -> Double,
)
    requires
        centers.len() > 0,
        are_settled(values, centers, assignment, value, number),
        value(Double { bits: 0 }) == 0real,
        forall|r: real| (#[trigger] number(r)).finite(),
        forall|c: int| 0 <= c < centers.len() ==> number(value(#[trigger] centers[c])) == centers[c],
    ensures
        kbins_discretizer::assigned(
            reals::answered(kbins_discretizer::center_distances(values, centers), value, number),
            values.len(),
            centers.len(),
        ) == assignment,
        reals::answered(
            kbins_discretizer::moved_centers(values, assignment, centers),
            value,
            number,
        ) == centers,
{
    lemma_assigned(values, centers, value, number);
    let fresh = kbins_discretizer::assigned(
        reals::answered(kbins_discretizer::center_distances(values, centers), value, number),
        values.len(),
        centers.len(),
    );
    assert forall|i: int| 0 <= i < values.len() implies fresh[i] == assignment[i] by {
        lemma_one_closest(values[i], centers, fresh[i], assignment[i], value, number);
    }
    assert(fresh =~= assignment);
    lemma_moved(values, assignment, centers, value, number);
    let moved = reals::answered(
        kbins_discretizer::moved_centers(values, assignment, centers),
        value,
        number,
    );
    assert forall|c: int| 0 <= c < centers.len() implies moved[c] == centers[c] by {
        let n = values.len();
        lemma_members(values, assignment, c, n, value);
        assert(number_of(values, assignment, c).take(n as int) =~= number_of(
            values,
            assignment,
            c,
        ));
        assert(centers[c] == number(value(centers[c])));
    }
    assert(moved =~= centers);
}

/// What holds of a search of clusters after so many rounds of answers: values and
/// centers belong together, and the search goes on until they are settled or
/// the limit is reached.
spec fn on_course(
    f: FinderView,
    k: nat,
    value: spec_fn(Double) -> real,
    number: spec_fn(real) -> Double,
    rounds: nat,
) -> bool {
    let s = kbins_discretizer::searched(f, answers_of(value, number), rounds);
    &&& s.values == f.values
    &&& match s.search {
        SearchView::Measuring { centers, assignment, round } => {
            &&& centers.len() == k
            &&& rounds == 2 * round
            &&& round < kbins_discretizer::MOST_ROUNDS
            &&& assignment matches Some(a) ==> all_at_means(f.values, centers, a, value, number)
        },
        SearchView::Moving { centers, assignment, round } => {
            &&& centers.len() == k
            &&& rounds == 2 * round + 1
            &&& round < kbins_discretizer::MOST_ROUNDS
        },
        _ => rounds >= 2 * kbins_discretizer::MOST_ROUNDS || settled_before(
            f,
            value,
            number,
            rounds,
        ),
    }
}

/// Whether a search had settled centers when its edges were asked for, some rounds
/// ago.
pub open spec fn settled_before(
    f: FinderView,
    value: spec_fn(Double) -> real,
    number: spec_fn(real) -> Double,
    rounds: nat,
) -> bool {
    exists|n: nat| n < rounds && #[trigger] settles_at(f, value, number, n)
}

/// Whether a search has settled centers after `n` rounds, and then asks for the
/// edges about them.
pub open spec fn settles_at(
    f: FinderView,
    value: spec_fn(Double) -> real,
    number: spec_fn(real) -> Double,
    n: nat,
) -> bool {
    let answer = answers_of(value, number);
    kbins_discretizer::searched(f, answer, n).search matches SearchView::Measuring {
        centers,
        assignment: Some(a),
        round: _,
    } && {
        &&& are_settled(f.values, centers, a, value, number)
        &&& kbins_discretizer::searched(f, answer, n + 1).search == kbins_discretizer::edging(
            f.values,
            centers,
        )
    }
}

/// A search of clusters stays on course.
proof fn lemma_on_course(
    f: FinderView,
    k: nat,
    value: spec_fn(Double) -> real,
    number: spec_fn(real) -> Double,
    rounds: nat,
)
    requires
        k > 0,
        f.search matches SearchView::Measuring { centers, assignment: None, round }
            && centers.len() == k && round == 0,
        value(Double { bits: 0 }) == 0real,
        forall|r: real| (#[trigger] number(r)).finite(),
    ensures
        on_course(f, k, value, number, rounds),
    decreases rounds,
{
    let answer = answers_of(value, number);
    if rounds > 0 {
        let n = (rounds - 1) as nat;
        lemma_on_course(f, k, value, number, n);
        let before = kbins_discretizer::searched(f, answer, n);
        let answers = answer(before.asked());
        match before.search {
            SearchView::Measuring { centers, assignment, round } => {
                lemma_assigned(f.values, centers, value, number);
                let fresh = kbins_discretizer::assigned(answers, f.values.len(), centers.len());
                if assignment == Some(fresh) {
                    assert(settles_at(f, value, number, n));
                }
            },
            SearchView::Moving { centers, assignment, round } => {
                lemma_moved(f.values, assignment, centers, value, number);
            },
            _ => {
                if settled_before(f, value, number, n) {
                    let m = choose|m: nat| m < n && #[trigger] settles_at(f, value, number, m);
                    assert(m < rounds);
                }
            },
        }
    }
}

/// A search of clusters ends after a hundred rounds of measuring and moving, and
/// one for the edges, if not before.
pub proof fn law_search_is_bounded(
    values: Seq<Double>,
    strategy: BinStrategy,
    k: nat,
    answer: spec_fn(Seq<Term>) -> Seq<Double>,
)
    ensures
        kbins_discretizer::searched(FinderView::begun(values, strategy, k), answer, 201).search is Found,
{
    kbins_discretizer::law_search_ends(values, strategy, k, answer);
}

/// Clusters are searched until they are settled. Where a search that measures
/// distances asks for its edges before the last round, the centers that it took
/// are settled: each value belongs to the closest of them, and each that has
/// values is their mean.
pub proof fn law_centers_are_settled(
    values: Seq<Double>,
    k: nat,
    value: spec_fn(Double) -> real,
    number: spec_fn(real) -> Double,
    rounds: nat,
)
    requires
        k >= 2,
        FinderView::begun(values, BinStrategy::KMeans, k).search is Measuring,
        value(Double { bits: 0 }) == 0real,
        forall|r: real| (#[trigger] number(r)).finite(),
        ({
            let s = kbins_discretizer::searched(
                FinderView::begun(values, BinStrategy::KMeans, k),
                answers_of(value, number),
                rounds,
            ).search;
            s is Edging || s is Found
        }),
        rounds < 200,
    ensures
        settled_before(FinderView::begun(values, BinStrategy::KMeans, k), value, number, rounds),
{
    lemma_on_course(
        FinderView::begun(values, BinStrategy::KMeans, k),
        k,
        value,
        number,
        rounds,
    );
}

/// How a search begins. A column whose values are all the same has one bin, from
/// that value to itself. Else clusters are measured where there are more different
/// values than bins, and every different value is a center where there are not;
/// and the edges of bins of equal width or of equally many values are asked for
/// at once.
pub proof fn law_search_begins(values: Seq<Double>, strategy: BinStrategy, k: nat)
    requires
        values.len() > 0,
    ensures
        ({
            let search = FinderView::begun(values, strategy, k).search;
            let different = doubles::collapsed(values);
            if values[0].equals(values.last()) {
                search == SearchView::Found(seq![values[0], values[0]])
            } else {
                match strategy {
                    BinStrategy::Uniform => search == SearchView::Edging(
                        kbins_discretizer::uniform_terms(values, k),
                    ),
                    BinStrategy::Quantile => search == SearchView::Edging(
                        kbins_discretizer::quantile_terms(values, k),
                    ),
                    BinStrategy::KMeans => {
                        &&& search is Measuring <==> different.len() > k
                        &&& different.len() <= k ==> search == SearchView::Edging(
                            kbins_discretizer::center_terms(values, different),
                        )
                    },
                }
            }
        }),
{
}

/// Where no number equals the one before it, none is lost.
proof fn lemma_collapsed_same(list: Seq<Double>)
    requires
        forall|i: int| 0 <= i < list.len() - 1 ==> !(#[trigger] list[i]).equals(list[i + 1]),
    ensures
        doubles::collapsed(list) == list,
    decreases list.len(),
{
    if list.len() > 0 {
        let front = list.drop_last();
        assert forall|i: int| 0 <= i < front.len() - 1 implies !(#[trigger] front[i]).equals(
            front[i + 1],
        ) by {
            assert(!list[i].equals(list[i + 1]));
        }
        lemma_collapsed_same(front);
        if front.len() > 0 {
            assert(!list[list.len() - 2].equals(list[list.len() - 2 + 1]));
        }
        assert(front.push(list.last()) =~= list);
    }
}

/// The edges that are found are those that are answered, where no two neighbours
/// are equal; and a single edge counts twice.
pub proof fn law_found_edges(f: FinderView, answers: Seq<Double>)
    requires
        f.search is Edging,
        answers.len() >= 1,
        forall|i: int|
            0 <= i < answers.len() - 1 ==> !(#[trigger] answers[i]).equals(answers[i + 1]),
    ensures
        f.next(answers).values == f.values,
        f.next(answers).search == SearchView::Found(
            if answers.len() == 1 {
                seq![answers[0], answers[0]]
            } else {
                answers
            },
        ),
{
    lemma_collapsed_same(answers);
    if answers.len() == 1 {
        assert(answers.push(answers[0]) =~= seq![answers[0], answers[0]]);
    }
}

/// Whether row `i` holds a finite number.
pub open spec fn row_finite(cells: Seq<Option<Double>>, d: Double) -> spec_fn(int) -> bool {
    |i: int| cells[i] == Some(d) && d.finite()
}

/// The values that edges are found from are the finite numbers of a column, each as
/// often as it occurs.
pub proof fn law_values_of_a_column(cells: Seq<Option<Double>>, d: Double)
    ensures
        tally::occurrences(kbins_discretizer::finite_values(cells), d) == count::counted(
            cells.len(),
            row_finite(cells, d),
        ),
    decreases cells.len(),
{
    if cells.len() > 0 {
        let front = cells.drop_last();
        law_values_of_a_column(front, d);
        count::lemma_agreeing(front.len(), row_finite(front, d), row_finite(cells, d));
        let list = kbins_discretizer::finite_values(front);
        if let Some(v) = cells.last() {
            assert(list.push(v).drop_last() =~= list);
        }
    }
}

/// A search of clusters begins with as many centers as bins, spread evenly over the
/// different values from the least to the greatest, and nothing assigned to them.
pub proof fn law_search_begins_spread(values: Seq<Double>, k: nat, i: int) -> (at: int)
    requires
        values.len() > 0,
        k >= 2,
        0 <= i < k,
        FinderView::begun(values, BinStrategy::KMeans, k).search is Measuring,
    ensures
        ({
            let different = doubles::collapsed(values);
            FinderView::begun(values, BinStrategy::KMeans, k).search
                matches SearchView::Measuring { centers, assignment: None, round } && {
                &&& round == 0
                &&& centers.len() == k
                &&& 0 <= at < different.len()
                &&& centers[i] == different[at]
                &&& at * (k - 1) <= i * (different.len() - 1) < (at + 1) * (k - 1)
                &&& i == 0 ==> at == 0
                &&& i == k - 1 ==> at == different.len() - 1
            }
        }),
{
    law_first_centers(doubles::collapsed(values), k, i)
}

/// Whether a list holds a number that equals another.
pub open spec fn holds_equal(list: Seq<Double>, d: Double) -> bool {
    exists|j: int| 0 <= j < list.len() && (#[trigger] list[j]).equals(d)
}

/// Whether the numbers of a list ascend.
pub open spec fn all_ascend(list: Seq<Double>) -> bool {
    forall|i: int, j: int|
        0 <= i < j < list.len() ==> (#[trigger] list[i]).below(#[trigger] list[j])
}

/// The edges about centers are those about the centers in ascending order, each
/// once: none that is not a center, and every center has its equal among them.
pub proof fn law_edges_about_sorted_centers(values: Seq<Double>, centers: Seq<Double>) -> (list:
    Seq<Double>)
    requires
        centers.len() > 0,
        forall|i: int| 0 <= i < centers.len() ==> !(#[trigger] centers[i]).nan(),
    ensures
        kbins_discretizer::edging(values, centers) == SearchView::Edging(
            kbins_discretizer::center_terms(values, list),
        ),
        0 < list.len() <= centers.len(),
        forall|i: int| 0 <= i < list.len() ==> centers.contains(#[trigger] list[i]),
        all_ascend(list),
        forall|i: int| 0 <= i < centers.len() ==> holds_equal(list, #[trigger] centers[i]),
{
    let sorted = doubles::ascending(centers);
    let list = doubles::collapsed(sorted);
    assert(sorted.len() == centers.len() && forall|d: Double|
        #[trigger] sorted.contains(d) <==> centers.contains(d)) by {
        doubles::law_ascending(centers);
    }
    assert(0 < list.len() <= sorted.len() && forall|k: int|
        0 <= k < list.len() ==> sorted.contains(#[trigger] list[k])) by {
        doubles::law_collapsed(sorted);
    }
    lemma_sorted_centers(centers);
    assert forall|i: int| 0 <= i < centers.len() implies holds_equal(
        list,
        #[trigger] centers[i],
    ) by {
        assert(centers.contains(centers[i]));
        assert(sorted.contains(centers[i]));
        let k = choose|k: int| 0 <= k < sorted.len() && sorted[k] == centers[i];
        assert(holds_equal(list, sorted[k]));
    }
    list
}

/// Centers in order, each once.
proof fn lemma_sorted_centers(centers: Seq<Double>)
    requires
        forall|i: int| 0 <= i < centers.len() ==> !(#[trigger] centers[i]).nan(),
    ensures
        all_ascend(doubles::collapsed(doubles::ascending(centers))),
        forall|k: int|
            0 <= k < doubles::ascending(centers).len() ==> holds_equal(
                doubles::collapsed(doubles::ascending(centers)),
                #[trigger] doubles::ascending(centers)[k],
            ),
{
    let sorted = doubles::ascending(centers);
    doubles::law_ascending(centers);
    assert forall|i: int| 0 <= i < sorted.len() implies !(#[trigger] sorted[i]).nan() by {
        assert(sorted.contains(sorted[i]));
        let k = choose|k: int| 0 <= k < centers.len() && centers[k] == sorted[i];
        assert(!centers[k].nan());
    }
    lemma_collapsed_sorted(sorted);
}

/// Collapsed numbers in order ascend, and every number has its equal among them.
proof fn lemma_collapsed_sorted(list: Seq<Double>)
    requires
        forall|i: int| 0 <= i < list.len() ==> !(#[trigger] list[i]).nan(),
        forall|i: int, j: int|
            0 <= i < j < list.len() ==> (#[trigger] list[i]).total_rank() <= (
            #[trigger] list[j]).total_rank(),
    ensures
        ({
            let made = doubles::collapsed(list);
            &&& list.len() > 0 ==> made.len() > 0 && made.last().equals(list.last())
            &&& all_ascend(made)
            &&& forall|k: int| 0 <= k < list.len() ==> holds_equal(made, #[trigger] list[k])
        }),
    decreases list.len(),
{
    if list.len() > 0 {
        let (front, last) = (list.drop_last(), list.last());
        assert(last == list[list.len() - 1]);
        assert forall|i: int| 0 <= i < front.len() implies !(#[trigger] front[i]).nan() by {
            assert(front[i] == list[i]);
        }
        assert forall|i: int, j: int| 0 <= i < j < front.len() implies (
        #[trigger] front[i]).total_rank() <= (#[trigger] front[j]).total_rank() by {
            assert(front[i] == list[i] && front[j] == list[j]);
        }
        lemma_collapsed_sorted(front);
        let (before, made) = (doubles::collapsed(front), doubles::collapsed(list));
        if front.len() > 0 {
            assert(front.last() == list[list.len() - 2]);
            assert(list[list.len() - 2].total_rank() <= list[list.len() - 1].total_rank());
            assert(before.last().rank() == front.last().rank());
        }
        assert forall|i: int, j: int| 0 <= i < j < made.len() implies (#[trigger] made[i]).below(
            #[trigger] made[j],
        ) by {
            if j < before.len() {
                assert(before[i].below(before[j]));
            } else {
                assert(before[i] == made[i]);
                assert(i < before.len() - 1 ==> before[i].below(before[before.len() - 1]));
            }
        }
        assert forall|k: int| 0 <= k < list.len() implies holds_equal(made, #[trigger] list[k]) by {
            if k < front.len() {
                assert(front[k] == list[k]);
                assert(holds_equal(before, front[k]));
                let j = choose|j: int|
                    0 <= j < before.len() && (#[trigger] before[j]).equals(front[k]);
                assert(made[j].equals(list[k]));
            } else {
                assert(made[made.len() - 1].equals(list[k]));
            }
        }
    }
}

} // verus!
