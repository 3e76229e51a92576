//! What the estimates of mutual information are: neighbours are counted by
//! distance, and the estimate is a mean of digammas of the counts.

use crate::count;
use crate::double::Double;
use crate::doubles;
use crate::feature_selection::mutual_information_laws;
use crate::feature_selection::mutual_information_selector;
use crate::feature_selection::mutual_information_selector::Entry;
use crate::feature_selection::mutual_information_selector::MITask;
use crate::feature_selection::mutual_information_selector::ScorerView;
use crate::feature_selection::mutual_information_selector::StageView;
use crate::feature_selection::select_kbest;
use crate::order;
use crate::program;
use crate::program::Term;
use crate::reals;
use vstd::prelude::*;

verus! {

/// Whether item `j` of a list is below a number.
pub open spec fn item_below(list: Seq<Double>, d: Double) -> spec_fn(int) -> bool {
    |j: int| list[j].below(d)
}

/// Whether item `j` of a list is not above a number.
pub open spec fn item_not_above(list: Seq<Double>, d: Double) -> spec_fn(int) -> bool {
    |j: int| !d.below(list[j])
}

/// The `k`-th least of a list is in it; fewer than `k` items are below it, and at
/// least `k` are not above it.
pub proof fn law_nearest(list: Seq<Double>, k: nat)
    requires
        1 <= k <= list.len(),
    ensures
        ({
            let d = mutual_information_selector::nearest(list, k);
            &&& list.contains(d)
            &&& count::counted(list.len(), item_below(list, d)) < k
            &&& count::counted(list.len(), item_not_above(list, d)) >= k
        }),
{
    let d = mutual_information_selector::nearest(list, k);
    let sorted = doubles::ascending(list);
    let p = order::order(doubles::ranks(list));
    let n = list.len();
    doubles::law_ascending(list);
    order::law_order_exists(doubles::ranks(list));
    assert(sorted.contains(d));
    let (less, most) = (item_below(list, d), item_not_above(list, d));
    count::law_any_order(n, less, p);
    count::law_any_order(n, most, p);
    assert forall|m: int| 0 <= m < n && #[trigger] count::at(less, p)(m) implies m < k - 1 by {
        assert(sorted[m].below(d));
        if m > k - 1 {
            assert(sorted[k - 1].total_rank() <= sorted[m].total_rank());
        }
    }
    count::lemma_at_most(n, count::at(less, p), (k - 1) as nat);
    assert forall|m: int| 0 <= m < k implies #[trigger] count::at(most, p)(m) by {
        if m < k - 1 {
            assert(sorted[m].total_rank() <= sorted[k - 1].total_rank());
        }
        assert(!d.below(sorted[m]));
    }
    count::lemma_at_least(n, count::at(most, p), k);
}

/// The number of neighbours that are looked for among `others` other rows: as many
/// as wanted, but at least one and no more than there are.
pub open spec fn sought(wanted: nat, others: nat) -> nat {
    if wanted == 0 {
        1
    } else if wanted < others {
        wanted
    } else {
        others
    }
}

/// Whether row `j` is another row than `i` and its distance is below a radius.
pub open spec fn other_below(away: Seq<Double>, radius: Double, i: int) -> spec_fn(int) -> bool {
    |j: int| j != i && away[j].below(radius)
}

/// Whether row `j` is another row than `i` and both its distances are below a
/// radius.
pub open spec fn both_below(
    across: Seq<Double>,
    along: Seq<Double>,
    radius: Double,
    i: int,
) -> spec_fn(int) -> bool {
    |j: int| j != i && across[j].below(radius) && along[j].below(radius)
}

/// Whether row `j` is another row than `i` and neither of its distances is above a
/// radius.
pub open spec fn both_within(
    across: Seq<Double>,
    along: Seq<Double>,
    radius: Double,
    i: int,
) -> spec_fn(int) -> bool {
    |j: int| j != i && !radius.below(across[j]) && !radius.below(along[j])
}

/// Whether a radius just reaches the `k`-th neighbour of row `i`: fewer than `k`
/// other rows are closer by both distances, and at least `k` are no further by
/// either.
pub open spec fn reaches(
    across: Seq<Double>,
    along: Seq<Double>,
    i: int,
    k: nat,
    radius: Double,
) -> bool {
    &&& radius.finite()
    &&& count::counted(across.len(), both_below(across, along, radius, i)) < k
    &&& count::counted(across.len(), both_within(across, along, radius, i)) >= k
}

/// What is counted of row `i` against numbers: with a radius that just reaches its
/// last neighbour, the other rows that are closer than that, by value and by
/// target.
pub proof fn law_joint_entry(
    across: Seq<Double>,
    along: Seq<Double>,
    neighbors: nat,
    i: int,
) -> (radius: Double)
    requires
        2 <= across.len() <= u64::MAX,
        along.len() == across.len(),
        0 <= i < across.len(),
        forall|j: int| 0 <= j < across.len() ==> (#[trigger] across[j]).finite(),
        forall|j: int| 0 <= j < along.len() ==> (#[trigger] along[j]).finite(),
    ensures
        reaches(across, along, i, sought(neighbors, (across.len() - 1) as nat), radius),
        mutual_information_selector::joint_entry(across, along, neighbors, i) matches Entry::Joint(
            a,
            b,
        ) && a == count::counted(across.len(), other_below(across, radius, i)) && b
            == count::counted(across.len(), other_below(along, radius, i)),
{
    let n = across.len();
    let k = sought(neighbors, (n - 1) as nat);
    let list = mutual_information_selector::joint(across, along, i);
    let far = Double { bits: crate::double::INFINITE };
    let radius = mutual_information_selector::nearest(list, k);
    law_nearest(list, k);
    let at = choose|at: int| 0 <= at < list.len() && list[at] == radius;
    assert forall|j: int| 0 <= j < n && j != i implies (#[trigger] list[j]).finite() && (
    list[j] == across[j] || list[j] == along[j]) by {
        assert(across[j].finite() && along[j].finite());
    }
    if radius == far {
        let others = |j: int| j != i;
        lemma_others(n, i);
        assert forall|j: int| 0 <= j < n && #[trigger] others(j) implies item_below(list, radius)(
            j,
        ) by {
            assert(list[j].finite());
        }
        count::lemma_fewer(n, others, item_below(list, radius));
        lemma_others_are(n, i, others);
    }
    assert(at != i);
    assert(radius.finite());
    assert forall|j: int| 0 <= j < n && #[trigger] both_below(across, along, radius, i)(
        j,
    ) implies item_below(list, radius)(j) by {
        assert(list[j].finite());
    }
    count::lemma_fewer(n, both_below(across, along, radius, i), item_below(list, radius));
    assert forall|j: int| 0 <= j < n && #[trigger] item_not_above(list, radius)(
        j,
    ) implies both_within(across, along, radius, i)(j) by {
        if j == i {
            assert(list[j] == far);
        } else {
            assert(list[j].finite());
            assert(across[j].finite() && along[j].finite());
        }
    }
    count::lemma_fewer(n, item_not_above(list, radius), both_within(across, along, radius, i));
    let (p, q) = (other_below(across, radius, i), other_below(along, radius, i));
    count::lemma_agreeing(n, mutual_information_selector::closer(across, radius, i), p);
    count::lemma_agreeing(n, mutual_information_selector::closer(along, radius, i), q);
    count::lemma_counted(n, p, 0);
    count::lemma_counted(n, q, 0);
    radius
}

/// All rows but one are others.
proof fn lemma_others(n: nat, i: int)
    requires
        0 <= i,
    ensures
        count::counted(n, |j: int| j != i) == if i < n {
            n - 1
        } else {
            n as int
        },
    decreases n,
{
    if n > 0 {
        lemma_others((n - 1) as nat, i);
    }
}

/// All rows but one are others, however they are told.
proof fn lemma_others_are(n: nat, i: int, others: spec_fn(int) -> bool)
    requires
        0 <= i < n,
        forall|j: int| #[trigger] others(j) == (j != i),
    ensures
        count::counted(n, others) == n - 1,
{
    lemma_others(n, i);
    count::lemma_agreeing(n, others, |j: int| j != i);
}

/// The radius that just reaches a neighbour is one place on the real line,
/// whichever distance is named first.
proof fn lemma_one_radius(
    across: Seq<Double>,
    along: Seq<Double>,
    i: int,
    k: nat,
    r: Double,
    s: Double,
)
    requires
        along.len() == across.len(),
        reaches(across, along, i, k, r),
        reaches(along, across, i, k, s),
        forall|j: int| 0 <= j < across.len() ==> (#[trigger] across[j]).finite(),
        forall|j: int| 0 <= j < along.len() ==> (#[trigger] along[j]).finite(),
    ensures
        r.rank() == s.rank(),
{
    let n = across.len();
    if r.below(s) {
        let (p, q) = (both_within(across, along, r, i), both_below(along, across, s, i));
        assert forall|j: int| 0 <= j < n && #[trigger] p(j) implies q(j) by {
            assert(across[j].finite() && along[j].finite());
        }
        count::lemma_fewer(n, p, q);
    }
    if s.below(r) {
        let (p, q) = (both_within(along, across, s, i), both_below(across, along, r, i));
        assert forall|j: int| 0 <= j < n && #[trigger] p(j) implies q(j) by {
            assert(across[j].finite() && along[j].finite());
        }
        count::lemma_fewer(n, p, q);
    }
}

/// Value and target have the same part in what is counted: where they change
/// places, the two counts do.
pub proof fn law_exchanged_entry(
    across: Seq<Double>,
    along: Seq<Double>,
    neighbors: nat,
    i: int,
)
    requires
        2 <= across.len() <= u64::MAX,
        along.len() == across.len(),
        0 <= i < across.len(),
        forall|j: int| 0 <= j < across.len() ==> (#[trigger] across[j]).finite(),
        forall|j: int| 0 <= j < along.len() ==> (#[trigger] along[j]).finite(),
    ensures
        mutual_information_selector::joint_entry(across, along, neighbors, i) matches Entry::Joint(
            a,
            b,
        ) && mutual_information_selector::joint_entry(along, across, neighbors, i)
            == Entry::Joint(b, a),
{
    let n = across.len();
    let r = law_joint_entry(across, along, neighbors, i);
    let s = law_joint_entry(along, across, neighbors, i);
    lemma_one_radius(across, along, i, sought(neighbors, (n - 1) as nat), r, s);
    count::lemma_agreeing(n, other_below(across, r, i), other_below(across, s, i));
    count::lemma_agreeing(n, other_below(along, r, i), other_below(along, s, i));
}

/// The digamma of a count.
pub open spec fn psi(n: nat, value: spec_fn(Double) -> real) -> real {
    program::exact(Term::Digamma(Box::new(Term::Natural(n))), value)
}

/// The greater of a number and zero.
pub open spec fn at_least_zero(r: real) -> real {
    if r < 0real {
        0real
    } else {
        r
    }
}

/// What rows with the given counts of closer rows add up to: for each row the
/// digammas of one more than its two counts.
pub open spec fn margin_psis(
    counts: Seq<(nat, nat)>,
    value: spec_fn(Double) -> real,
) -> Seq<real> {
    Seq::new(counts.len(), |i: int| psi(counts[i].0 + 1, value) + psi(counts[i].1 + 1, value))
}

/// The estimate against numbers is the digamma of the number of neighbours plus
/// that of the number of rows, less the mean over the rows of the digammas of one
/// more than each of the two counts; and zero where that is negative.
pub proof fn law_joint_estimate(
    entries: Seq<Entry>,
    counts: Seq<(nat, nat)>,
    neighbors: nat,
    value: spec_fn(Double) -> real,
)
    requires
        entries.len() >= 2,
        counts.len() == entries.len(),
        forall|i: int|
            0 <= i < entries.len() ==> (#[trigger] entries[i] matches Entry::Joint(a, b) && a
                == counts[i].0 && b == counts[i].1),
        value(Double { bits: 0 }) == 0real,
    ensures
        ({
            let n = entries.len();
            program::exact(
                mutual_information_selector::estimate(MITask::Regression, entries, neighbors),
                value,
            ) == at_least_zero(
                psi(sought(neighbors, (n - 1) as nat), value) + psi(n, value)
                    - reals::total(margin_psis(counts, value)) / (n as int as real),
            )
        }),
{
    let terms = mutual_information_selector::margins(entries);
    assert(reals::exacts(terms, value) =~= margin_psis(counts, value)) by {
        assert forall|i: int| 0 <= i < terms.len() implies program::exact(
            #[trigger] terms[i],
            value,
        ) == margin_psis(counts, value)[i] by {
            assert(entries[i] is Joint);
            reveal_with_fuel(program::exact, 2);
        }
    }
    reals::lemma_running_sum(terms, value);
    reveal_with_fuel(program::exact, 5);
}

/// Whether numbers are those of a list, moved and divided so that they go from
/// zero at the least to one at the greatest.
pub open spec fn spread(
    list: Seq<Double>,
    scaled: Seq<Double>,
    value: spec_fn(Double) -> real,
    number: spec_fn(real) -> Double,
) -> bool {
    exists|low: int, high: int| #[trigger] spread_between(list, scaled, low, high, value, number)
}

/// Whether numbers are those of a list by their way from item `low`, the least, to
/// item `high`, the greatest.
pub open spec fn spread_between(
    list: Seq<Double>,
    scaled: Seq<Double>,
    low: int,
    high: int,
    value: spec_fn(Double) -> real,
    number: spec_fn(real) -> Double,
) -> bool {
    &&& 0 <= low < list.len()
    &&& 0 <= high < list.len()
    &&& scaled.len() == list.len()
    &&& forall|j: int|
        0 <= j < list.len() ==> value(list[low]) <= value(#[trigger] list[j]) <= value(list[high])
    &&& forall|j: int|
        0 <= j < list.len() ==> #[trigger] scaled[j] == number(
            (value(list[j]) - value(list[low])) / (value(list[high]) - value(list[low])),
        )
}

/// The distances of the items of a list from item `i`.
pub open spec fn apart(
    list: Seq<Double>,
    i: int,
    value: spec_fn(Double) -> real,
    number: spec_fn(real) -> Double,
) -> Seq<Double> {
    Seq::new(
        list.len(),
        |j: int|
            number(
                if value(list[i]) < value(list[j]) {
                    value(list[j]) - value(list[i])
                } else {
                    value(list[i]) - value(list[j])
                },
            ),
    )
}

/// The distances are as they are asked for.
proof fn lemma_apart(
    list: Seq<Double>,
    i: int,
    value: spec_fn(Double) -> real,
    number: spec_fn(real) -> Double,
)
    ensures
        reals::answered(mutual_information_selector::distances(list, i), value, number) == apart(
            list,
            i,
            value,
            number,
        ),
{
    reveal_with_fuel(program::exact, 3);
    assert(reals::answered(mutual_information_selector::distances(list, i), value, number)
        =~= apart(list, i, value, number));
}

/// Scaled numbers go from zero to one.
proof fn lemma_spread(
    list: Seq<Double>,
    value: spec_fn(Double) -> real,
    number: spec_fn(real) -> Double,
)
    requires
        list.len() > 0,
        forall|k: int| 0 <= k < list.len() ==> (#[trigger] list[k]).finite(),
        mutual_information_laws::orderly(value),
    ensures
        spread(
            list,
            reals::answered(mutual_information_selector::scaled_list(list), value, number),
            value,
            number,
        ),
{
    let scaled = reals::answered(mutual_information_selector::scaled_list(list), value, number);
    mutual_information_laws::lemma_ends(list);
    let (l, h) = (
        mutual_information_selector::lowest(list),
        mutual_information_selector::highest(list),
    );
    let low = choose|low: int| 0 <= low < list.len() && list[low] == l;
    let high = choose|high: int| 0 <= high < list.len() && list[high] == h;
    reveal_with_fuel(program::exact, 3);
    assert forall|j: int| 0 <= j < list.len() implies value(list[low]) <= value(
        #[trigger] list[j],
    ) <= value(list[high]) by {
        assert(list[low].finite() && list[high].finite() && list[j].finite());
        assert(!list[j].below(list[low]) && !list[high].below(list[j]));
    }
    assert(spread_between(list, scaled, low, high, value, number));
}

/// Whether `radius` reaches the `k`-th neighbour of row `i` by two lists of
/// distances, and `counts` are the other rows that are closer than that by the one
/// list and by the other.
pub open spec fn counted_within(
    across: Seq<Double>,
    along: Seq<Double>,
    i: int,
    k: nat,
    radius: Double,
    counts: (nat, nat),
) -> bool {
    &&& reaches(across, along, i, k, radius)
    &&& counts.0 == count::counted(across.len(), other_below(across, radius, i))
    &&& counts.1 == count::counted(along.len(), other_below(along, radius, i))
}

/// The score of a feature against numbers. Values and targets are spread from zero
/// to one. For each row the distance is found that just reaches its last
/// neighbour, where two rows are as far apart as by the greater of the distances
/// of their values and their targets; and the other rows that are closer than
/// that are counted, by value and by target. The score is the digamma of the
/// number of neighbours plus that of the number of rows, less the mean over the
/// rows of the digammas of one more than each count; zero at least.
pub proof fn law_score_against_numbers(
    rows: Seq<(Double, Double)>,
    neighbors: nat,
    value: spec_fn(Double) -> real,
    number: spec_fn(real) -> Double,
) -> (r: (Seq<Double>, Seq<Double>, Seq<Double>, Seq<(nat, nat)>))
    requires
        rows.len() <= u64::MAX,
        mutual_information_laws::all_finite(rows),
        mutual_information_laws::orderly(value),
        value(Double { bits: 0 }) == 0real,
        forall|r: real| (#[trigger] number(r)).finite(),
        ScorerView::begun(rows, MITask::Regression, neighbors).stage is Scaling,
    ensures
        ({
            let (values, targets, radii, counts) = r;
            let n = rows.len();
            let k = sought(neighbors, (n - 1) as nat);
            &&& n >= 2
            &&& spread(Seq::new(n, |j: int| rows[j].0), values, value, number)
            &&& spread(Seq::new(n, |j: int| rows[j].1), targets, value, number)
            &&& radii.len() == n
            &&& counts.len() == n
            &&& forall|i: int|
                #![trigger radii[i]]
                #![trigger counts[i]]
                0 <= i < n ==> counted_within(
                    apart(values, i, value, number),
                    apart(targets, i, value, number),
                    i,
                    k,
                    radii[i],
                    counts[i],
                )
            &&& mutual_information_laws::end_of_scoring(
                rows,
                MITask::Regression,
                neighbors,
                value,
                number,
            ) == StageView::Scored(
                number(
                    at_least_zero(
                        psi(k, value) + psi(n, value) - reals::total(
                            margin_psis(counts, value),
                        ) / (n as int as real),
                    ),
                ),
            )
        }),
{
    let n = rows.len();
    let k = sought(neighbors, (n - 1) as nat);
    let task = MITask::Regression;
    let values = mutual_information_laws::scaled_values(rows, value, number);
    let targets = mutual_information_laws::scaled_targets(rows, task, value, number);
    let entries = mutual_information_laws::entries_of(rows, task, neighbors, value, number);
    let (list, marks) = (select_kbest::row_values(rows), select_kbest::row_targets(rows));
    assert(list =~= Seq::new(n, |j: int| rows[j].0));
    assert(marks =~= Seq::new(n, |j: int| rows[j].1));
    assert forall|j: int| 0 <= j < n implies (#[trigger] list[j]).finite() && marks[j].finite() by {
        assert(rows[j].0.finite() && rows[j].1.finite());
    }
    assert forall|j: int| 0 <= j < n implies (#[trigger] marks[j]).finite() by {
        assert(list[j].finite());
    }
    lemma_spread(list, value, number);
    lemma_spread(marks, value, number);
    let found = Seq::new(
        n,
        |i: int|
            choose|f: (Double, (nat, nat))|
                #[trigger] counted_for(values, targets, i, k, f, entries[i], value, number),
    );
    let radii = Seq::new(n, |i: int| found[i].0);
    let counts = Seq::new(n, |i: int| found[i].1);
    assert forall|i: int| 0 <= i < n implies counted_for(
        values,
        targets,
        i,
        k,
        #[trigger] found[i],
        entries[i],
        value,
        number,
    ) by {
        let across = apart(values, i, value, number);
        let along = apart(targets, i, value, number);
        lemma_apart(values, i, value, number);
        lemma_apart(targets, i, value, number);
        let radius = law_joint_entry(across, along, neighbors, i);
        let pair = (
            count::counted(n, other_below(across, radius, i)),
            count::counted(n, other_below(along, radius, i)),
        );
        assert(entries[i] == mutual_information_selector::joint_entry(across, along, neighbors, i));
        assert(counted_for(values, targets, i, k, (radius, pair), entries[i], value, number));
    }
    assert forall|i: int| 0 <= i < n implies (#[trigger] entries[i] matches Entry::Joint(a, b) && a
        == counts[i].0 && b == counts[i].1) by {
        assert(counted_for(values, targets, i, k, found[i], entries[i], value, number));
    }
    assert forall|i: int|
        #![trigger radii[i]]
        #![trigger counts[i]]
        0 <= i < n implies counted_within(
        apart(values, i, value, number),
        apart(targets, i, value, number),
        i,
        k,
        radii[i],
        counts[i],
    ) by {
        assert(counted_for(values, targets, i, k, found[i], entries[i], value, number));
    }
    law_joint_estimate(entries, counts, neighbors, value);
    mutual_information_laws::lemma_end(rows, task, neighbors, value, number);
    (values, targets, radii, counts)
}

/// Whether an entry holds what is counted of row `i`.
spec fn counted_for(
    values: Seq<Double>,
    targets: Seq<Double>,
    i: int,
    k: nat,
    found: (Double, (nat, nat)),
    entry: Entry,
    value: spec_fn(Double) -> real,
    number: spec_fn(real) -> Double,
) -> bool {
    &&& counted_within(
        apart(values, i, value, number),
        apart(targets, i, value, number),
        i,
        k,
        found.0,
        found.1,
    )
    &&& entry matches Entry::Joint(a, b) && a == (found.1).0 && b == (found.1).1
}

/// Rows with value and target exchanged.
pub open spec fn exchanged(rows: Seq<(Double, Double)>) -> Seq<(Double, Double)> {
    Seq::new(rows.len(), |j: int| (rows[j].1, rows[j].0))
}

/// A feature tells as much of numbers as they tell of it: where value and target
/// change places, the score stays.
pub proof fn law_feature_and_target_exchanged(
    rows: Seq<(Double, Double)>,
    neighbors: nat,
    value: spec_fn(Double) -> real,
    number: spec_fn(real) -> Double,
)
    requires
        rows.len() <= u64::MAX,
        value(Double { bits: 0 }) == 0real,
        forall|r: real| (#[trigger] number(r)).finite(),
    ensures
        mutual_information_laws::end_of_scoring(
            exchanged(rows),
            MITask::Regression,
            neighbors,
            value,
            number,
        ) == mutual_information_laws::end_of_scoring(
            rows,
            MITask::Regression,
            neighbors,
            value,
            number,
        ),
{
    let n = rows.len();
    let task = MITask::Regression;
    let other = exchanged(rows);
    assert(select_kbest::row_values(other) =~= select_kbest::row_targets(rows));
    assert(select_kbest::row_targets(other) =~= select_kbest::row_values(rows));
    let begun = ScorerView::begun(rows, task, neighbors);
    let again = ScorerView::begun(other, task, neighbors);
    if begun.stage is Scaling {
        let values = mutual_information_laws::scaled_values(rows, value, number);
        let targets = mutual_information_laws::scaled_targets(rows, task, value, number);
        let entries = mutual_information_laws::entries_of(rows, task, neighbors, value, number);
        let turned = mutual_information_laws::entries_of(other, task, neighbors, value, number);
        let counts = Seq::new(
            n,
            |i: int|
                match entries[i] {
                    Entry::Joint(a, b) => (a as nat, b as nat),
                    _ => (0nat, 0nat),
                },
        );
        let swapped = Seq::new(n, |i: int| (counts[i].1, counts[i].0));
        assert forall|i: int| 0 <= i < n implies (#[trigger] entries[i] matches Entry::Joint(a, b)
            && turned[i] == Entry::Joint(b, a)) by {
            let across = apart(values, i, value, number);
            let along = apart(targets, i, value, number);
            lemma_apart(values, i, value, number);
            lemma_apart(targets, i, value, number);
            law_exchanged_entry(across, along, neighbors, i);
        }
        assert forall|i: int| 0 <= i < n implies (#[trigger] turned[i] matches Entry::Joint(a, b)
            && a == swapped[i].0 && b == swapped[i].1) by {
            assert(entries[i] is Joint);
        }
        law_joint_estimate(entries, counts, neighbors, value);
        law_joint_estimate(turned, swapped, neighbors, value);
        assert(margin_psis(counts, value) =~= margin_psis(swapped, value));
        mutual_information_laws::lemma_end(rows, task, neighbors, value, number);
        mutual_information_laws::lemma_end(other, task, neighbors, value, number);
    } else {
        mutual_information_laws::lemma_scored_stays(begun, value, number, n + 2);
        mutual_information_laws::lemma_scored_stays(again, value, number, n + 2);
    }
}

/// Whether row `j` has the label of row `i`.
pub open spec fn same_label(labels: Seq<Double>, i: int) -> spec_fn(int) -> bool {
    |j: int| labels[j].equals(labels[i])
}

/// Whether row `j` is another row with the label of row `i`, and its distance is
/// below a radius.
pub open spec fn labelled_below(
    away: Seq<Double>,
    labels: Seq<Double>,
    radius: Double,
    i: int,
) -> spec_fn(int) -> bool {
    |j: int| j != i && labels[j].equals(labels[i]) && away[j].below(radius)
}

/// Whether row `j` is another row with the label of row `i`, and its distance is
/// not above a radius.
pub open spec fn labelled_within(
    away: Seq<Double>,
    labels: Seq<Double>,
    radius: Double,
    i: int,
) -> spec_fn(int) -> bool {
    |j: int| j != i && labels[j].equals(labels[i]) && !radius.below(away[j])
}

/// Whether row `j` is closer than a radius, or has no distance where the radius is
/// zero.
pub open spec fn closer_or_there(away: Seq<Double>, radius: Double) -> spec_fn(int) -> bool {
    |j: int|
        away[j].below(radius) || (!(Double { bits: 0 }).below(radius) && !(Double { bits: 0 }).below(
            away[j],
        ))
}

/// Whether a distance has a property, by its place in a list.
spec fn item_such(list: Seq<Double>, q: spec_fn(Double) -> bool) -> spec_fn(int) -> bool {
    |m: int| q(list[m])
}

/// Whether row `j` is another row with the label of row `i`, and its distance has a
/// property.
spec fn labelled_such(
    away: Seq<Double>,
    labels: Seq<Double>,
    i: int,
    q: spec_fn(Double) -> bool,
) -> spec_fn(int) -> bool {
    |j: int| j != i && labels[j].equals(labels[i]) && q(away[j])
}

/// The distances with a property are counted by the rows that have them.
proof fn lemma_labelled_such(
    away: Seq<Double>,
    labels: Seq<Double>,
    i: int,
    n: nat,
    q: spec_fn(Double) -> bool,
)
    ensures
        ({
            let list = mutual_information_selector::label_distances(away, labels, i, n);
            count::counted(list.len(), item_such(list, q)) == count::counted(
                n,
                labelled_such(away, labels, i, q),
            )
        }),
    decreases n,
{
    if n > 0 {
        lemma_labelled_such(away, labels, i, (n - 1) as nat, q);
        let front = mutual_information_selector::label_distances(away, labels, i, (n - 1) as nat);
        let list = mutual_information_selector::label_distances(away, labels, i, n);
        count::lemma_agreeing(front.len(), item_such(front, q), item_such(list, q));
    }
}

/// What is counted of row `i` against labels. Where no other row has its label it
/// is alone. Else it is the number of neighbours that are looked for among those
/// with its label, the number of rows with its label, and with a radius that just
/// reaches the last of those neighbours, the number of all rows that are closer
/// than that; where the radius is zero, of those without distance.
pub proof fn law_label_entry(
    away: Seq<Double>,
    labels: Seq<Double>,
    neighbors: nat,
    i: int,
) -> (radius: Double)
    requires
        0 <= i < labels.len() <= u64::MAX,
        away.len() == labels.len(),
        !labels[i].nan(),
        forall|j: int|
            0 <= j < away.len() ==> (#[trigger] away[j]).finite() && !away[j].below(
                Double { bits: 0 },
            ),
    ensures
        ({
            let n = labels.len();
            let c = count::counted(n, same_label(labels, i));
            let k = sought(neighbors, (c - 1) as nat);
            &&& c >= 1
            &&& c == 1 ==> mutual_information_selector::label_entry(away, labels, neighbors, i)
                == Entry::Alone
            &&& c > 1 ==> {
                &&& count::counted(n, labelled_below(away, labels, radius, i)) < k
                &&& count::counted(n, labelled_within(away, labels, radius, i)) >= k
                &&& mutual_information_selector::label_entry(away, labels, neighbors, i)
                    == Entry::Labelled(
                    k as u64,
                    c as u64,
                    count::counted(n, closer_or_there(away, radius)) as u64,
                )
                &&& k <= n
                &&& count::counted(n, closer_or_there(away, radius)) <= n
            }
        }),
{
    let n = labels.len();
    let c = count::counted(n, same_label(labels, i));
    let k = sought(neighbors, (c - 1) as nat);
    count::lemma_agreeing(
        n,
        mutual_information_selector::labelled(labels, i),
        same_label(labels, i),
    );
    count::lemma_counted(n, same_label(labels, i), i);
    if c > 1 {
        let list = mutual_information_selector::label_distances(away, labels, i, n);
        mutual_information_selector::lemma_label_distances(away, labels, i, n);
        let radius = mutual_information_selector::nearest(list, k);
        law_nearest(list, k);
        let less = |d: Double| d.below(radius);
        let most = |d: Double| !radius.below(d);
        lemma_labelled_such(away, labels, i, n, less);
        lemma_labelled_such(away, labels, i, n, most);
        count::lemma_agreeing(list.len(), item_such(list, less), item_below(list, radius));
        count::lemma_agreeing(list.len(), item_such(list, most), item_not_above(list, radius));
        count::lemma_agreeing(
            n,
            labelled_such(away, labels, i, less),
            labelled_below(away, labels, radius, i),
        );
        count::lemma_agreeing(
            n,
            labelled_such(away, labels, i, most),
            labelled_within(away, labels, radius, i),
        );
        lemma_in_list(away, labels, i, n, radius);
        let shrunk = mutual_information_selector::shrunk(radius);
        let inside = mutual_information_selector::inside(away, shrunk);
        assert forall|j: int| 0 <= j < n implies #[trigger] inside(j) == closer_or_there(
            away,
            radius,
        )(j) by {
            assert(away[j].finite() && !away[j].below(Double { bits: 0u64 }));
            assert(radius.finite());
        }
        count::lemma_agreeing(n, inside, closer_or_there(away, radius));
        count::lemma_counted(n, closer_or_there(away, radius), 0);
        radius
    } else {
        Double { bits: 0 }
    }
}

/// A distance of a list is that of a row.
proof fn lemma_in_list(away: Seq<Double>, labels: Seq<Double>, i: int, n: nat, d: Double)
    requires
        n <= away.len(),
        mutual_information_selector::label_distances(away, labels, i, n).contains(d),
    ensures
        exists|j: int| 0 <= j < n && #[trigger] away[j] == d,
    decreases n,
{
    let list = mutual_information_selector::label_distances(away, labels, i, n);
    let m = choose|m: int| 0 <= m < list.len() && list[m] == d;
    if n > 0 {
        let front = mutual_information_selector::label_distances(away, labels, i, (n - 1) as nat);
        if m < front.len() {
            assert(front[m] == d);
            lemma_in_list(away, labels, i, (n - 1) as nat, d);
        } else {
            assert(away[n - 1] == d);
        }
    }
}

/// Whether row `i` has counts: its label is not its own alone.
pub open spec fn has_counts(counts: Seq<Option<(nat, nat, nat)>>) -> spec_fn(int) -> bool {
    |i: int| counts[i] is Some
}

/// What rows with the given counts add up to: the digamma of the number of
/// neighbours less those of the rows with the label and of the closer rows.
pub open spec fn label_psis(
    counts: Seq<Option<(nat, nat, nat)>>,
    value: spec_fn(Double) -> real,
) -> Seq<real> {
    Seq::new(
        counts.len(),
        |i: int|
            match counts[i] {
                Some((k, c, m)) => psi(k, value) - psi(c, value) - psi(m, value),
                None => 0real,
            },
    )
}

/// Whether entries hold the given counts.
pub open spec fn entries_hold(entries: Seq<Entry>, counts: Seq<Option<(nat, nat, nat)>>) -> bool {
    &&& counts.len() == entries.len()
    &&& forall|i: int|
        0 <= i < entries.len() ==> match #[trigger] entries[i] {
            Entry::Labelled(k, c, m) => counts[i] == Some((k as nat, c as nat, m as nat)),
            _ => counts[i] is None,
        }
}

/// The sums over the rows with counts.
proof fn lemma_label_sums(
    entries: Seq<Entry>,
    counts: Seq<Option<(nat, nat, nat)>>,
    value: spec_fn(Double) -> real,
)
    requires
        entries_hold(entries, counts),
    ensures
        ({
            let list = mutual_information_selector::shared(entries);
            &&& list.len() == count::counted(counts.len(), has_counts(counts))
            &&& reals::total(
                reals::exacts(mutual_information_selector::neighbor_psis(list), value),
            ) - reals::total(reals::exacts(mutual_information_selector::label_psis(list), value))
                - reals::total(reals::exacts(mutual_information_selector::inside_psis(list), value))
                == reals::total(label_psis(counts, value))
        }),
    decreases entries.len(),
{
    let list = mutual_information_selector::shared(entries);
    let a = reals::exacts(mutual_information_selector::neighbor_psis(list), value);
    let b = reals::exacts(mutual_information_selector::label_psis(list), value);
    let c = reals::exacts(mutual_information_selector::inside_psis(list), value);
    if entries.len() > 0 {
        let (front, rest) = (entries.drop_last(), counts.drop_last());
        assert forall|i: int| 0 <= i < front.len() implies match #[trigger] front[i] {
            Entry::Labelled(k, c, m) => rest[i] == Some((k as nat, c as nat, m as nat)),
            _ => rest[i] is None,
        } by {
            assert(front[i] == entries[i]);
        }
        lemma_label_sums(front, rest, value);
        count::lemma_agreeing(rest.len(), has_counts(rest), has_counts(counts));
        assert(label_psis(counts, value).drop_last() =~= label_psis(rest, value));
        assert(entries[entries.len() - 1] == entries.last());
        let before = mutual_information_selector::shared(front);
        if entries.last() is Labelled {
            assert(a.drop_last() =~= reals::exacts(
                mutual_information_selector::neighbor_psis(before),
                value,
            ));
            assert(b.drop_last() =~= reals::exacts(
                mutual_information_selector::label_psis(before),
                value,
            ));
            assert(c.drop_last() =~= reals::exacts(
                mutual_information_selector::inside_psis(before),
                value,
            ));
        }
    } else {
        assert(a =~= Seq::empty() && b =~= Seq::empty() && c =~= Seq::empty());
        assert(label_psis(counts, value) =~= Seq::empty());
    }
}

/// The estimate against labels is, over the rows whose label others have, the
/// digamma of their number plus the mean of the digamma of the number of
/// neighbours less those of the rows with the label and of the closer rows; and
/// zero where that is negative, or no label is shared.
pub proof fn law_label_estimate(
    entries: Seq<Entry>,
    counts: Seq<Option<(nat, nat, nat)>>,
    neighbors: nat,
    value: spec_fn(Double) -> real,
)
    requires
        entries_hold(entries, counts),
        value(Double { bits: 0 }) == 0real,
    ensures
        ({
            let n = count::counted(counts.len(), has_counts(counts));
            program::exact(
                mutual_information_selector::estimate(MITask::Classification, entries, neighbors),
                value,
            ) == if n == 0 {
                0real
            } else {
                at_least_zero(
                    psi(n, value) + reals::total(label_psis(counts, value)) / (n as int as real),
                )
            }
        }),
{
    let list = mutual_information_selector::shared(entries);
    lemma_label_sums(entries, counts, value);
    reals::lemma_running_sum(mutual_information_selector::neighbor_psis(list), value);
    reals::lemma_running_sum(mutual_information_selector::label_psis(list), value);
    reals::lemma_running_sum(mutual_information_selector::inside_psis(list), value);
    reveal_with_fuel(program::exact, 6);
}

/// Whether `radius` reaches the last neighbour of row `i` among the rows with its
/// label, and `counts` are the neighbours, the rows with the label and the closer
/// rows; none where it is alone with its label.
pub open spec fn counted_of_label(
    away: Seq<Double>,
    labels: Seq<Double>,
    i: int,
    neighbors: nat,
    radius: Double,
    counts: Option<(nat, nat, nat)>,
) -> bool {
    let n = labels.len();
    let c = count::counted(n, same_label(labels, i));
    let k = sought(neighbors, (c - 1) as nat);
    if c == 1 {
        counts is None
    } else {
        &&& count::counted(n, labelled_below(away, labels, radius, i)) < k
        &&& count::counted(n, labelled_within(away, labels, radius, i)) >= k
        &&& counts == Some((k, c, count::counted(n, closer_or_there(away, radius))))
    }
}

/// Whether an entry holds what is counted of row `i` against labels.
spec fn labelled_for(
    values: Seq<Double>,
    labels: Seq<Double>,
    i: int,
    neighbors: nat,
    found: (Double, Option<(nat, nat, nat)>),
    entry: Entry,
    value: spec_fn(Double) -> real,
    number: spec_fn(real) -> Double,
) -> bool {
    &&& counted_of_label(
        apart(values, i, value, number),
        labels,
        i,
        neighbors,
        found.0,
        found.1,
    )
    &&& match entry {
        Entry::Labelled(k, c, m) => found.1 == Some((k as nat, c as nat, m as nat)),
        _ => found.1 is None,
    }
}

/// The score of a feature against labels. Values are spread from zero to one. For
/// each row whose label others have, the distance is found that just reaches its
/// last neighbour with that label, and all rows that are closer are counted. The
/// score is the digamma of the number of those rows plus the mean over them of the
/// digamma of the number of neighbours less those of the number of rows with the
/// label and of the number of closer rows; zero at least.
pub proof fn law_score_against_labels(
    rows: Seq<(Double, Double)>,
    neighbors: nat,
    value: spec_fn(Double) -> real,
    number: spec_fn(real) -> Double,
) -> (r: (Seq<Double>, Seq<Double>, Seq<Option<(nat, nat, nat)>>))
    requires
        rows.len() <= u64::MAX,
        mutual_information_laws::all_finite(rows),
        mutual_information_laws::orderly(value),
        value(Double { bits: 0 }) == 0real,
        forall|r: real|
            (#[trigger] number(r)).finite() && (r >= 0real ==> !number(r).below(
                Double { bits: 0 },
            )),
        ScorerView::begun(rows, MITask::Classification, neighbors).stage is Scaling,
    ensures
        ({
            let (values, radii, counts) = r;
            let labels = Seq::new(rows.len(), |j: int| rows[j].1);
            let n = count::counted(counts.len(), has_counts(counts));
            &&& spread(Seq::new(rows.len(), |j: int| rows[j].0), values, value, number)
            &&& radii.len() == rows.len()
            &&& counts.len() == rows.len()
            &&& forall|i: int|
                #![trigger radii[i]]
                #![trigger counts[i]]
                0 <= i < rows.len() ==> counted_of_label(
                    apart(values, i, value, number),
                    labels,
                    i,
                    neighbors,
                    radii[i],
                    counts[i],
                )
            &&& mutual_information_laws::end_of_scoring(
                rows,
                MITask::Classification,
                neighbors,
                value,
                number,
            ) == StageView::Scored(
                number(
                    if n == 0 {
                        0real
                    } else {
                        at_least_zero(
                            psi(n, value) + reals::total(label_psis(counts, value)) / (
                            n as int as real),
                        )
                    },
                ),
            )
        }),
{
    let n = rows.len();
    let task = MITask::Classification;
    let values = mutual_information_laws::scaled_values(rows, value, number);
    let entries = mutual_information_laws::entries_of(rows, task, neighbors, value, number);
    let (list, labels) = (select_kbest::row_values(rows), select_kbest::row_targets(rows));
    assert(list =~= Seq::new(n, |j: int| rows[j].0));
    assert(labels =~= Seq::new(n, |j: int| rows[j].1));
    assert forall|j: int| 0 <= j < n implies (#[trigger] list[j]).finite() by {
        assert(rows[j].0.finite());
    }
    lemma_spread(list, value, number);
    let found = Seq::new(
        n,
        |i: int|
            choose|f: (Double, Option<(nat, nat, nat)>)|
                #[trigger] labelled_for(values, labels, i, neighbors, f, entries[i], value, number),
    );
    let radii = Seq::new(n, |i: int| found[i].0);
    let counts = Seq::new(n, |i: int| found[i].1);
    assert forall|i: int| 0 <= i < n implies labelled_for(
        values,
        labels,
        i,
        neighbors,
        #[trigger] found[i],
        entries[i],
        value,
        number,
    ) by {
        let away = apart(values, i, value, number);
        lemma_apart(values, i, value, number);
        assert(rows[i].1.finite());
        let radius = law_label_entry(away, labels, neighbors, i);
        let c = count::counted(n, same_label(labels, i));
        count::lemma_counted(n, same_label(labels, i), 0);
        let counted = if c == 1 {
            None
        } else {
            Some(
                (
                    sought(neighbors, (c - 1) as nat),
                    c,
                    count::counted(n, closer_or_there(away, radius)),
                ),
            )
        };
        assert(labelled_for(
            values,
            labels,
            i,
            neighbors,
            (radius, counted),
            entries[i],
            value,
            number,
        ));
    }
    assert forall|i: int| 0 <= i < n implies match #[trigger] entries[i] {
        Entry::Labelled(k, c, m) => counts[i] == Some((k as nat, c as nat, m as nat)),
        _ => counts[i] is None,
    } by {
        assert(labelled_for(values, labels, i, neighbors, found[i], entries[i], value, number));
    }
    assert forall|i: int|
        #![trigger radii[i]]
        #![trigger counts[i]]
        0 <= i < n implies counted_of_label(
        apart(values, i, value, number),
        labels,
        i,
        neighbors,
        radii[i],
        counts[i],
    ) by {
        assert(labelled_for(values, labels, i, neighbors, found[i], entries[i], value, number));
    }
    law_label_estimate(entries, counts, neighbors, value);
    mutual_information_laws::lemma_end(rows, task, neighbors, value, number);
    (values, radii, counts)
}

} // verus!
