//! The scoring of a feature by mutual information as a whole, from the rows to
//! the score, in exact arithmetic.

use crate::count;
use crate::double::Double;
use crate::doubles;
use crate::feature_selection::mutual_information_selector;
use crate::feature_selection::mutual_information_selector::Entry;
use crate::feature_selection::mutual_information_selector::MITask;
use crate::feature_selection::mutual_information_selector::ScorerView;
use crate::feature_selection::mutual_information_selector::StageView;
use crate::feature_selection::ranking;
use crate::feature_selection::select_kbest;
use crate::frame::ColumnView;
use crate::frame::FrameView;
use crate::frame::ValuesView;
use crate::order;
use crate::program;
use crate::program::Term;
use crate::reals;
use crate::text;
use vstd::prelude::*;

verus! {

/// A scoring after so many rounds of answers.
pub open spec fn advanced(
    s: ScorerView,
    value: spec_fn(Double) -> real,
    number: spec_fn(real) -> Double,
    rounds: nat,
) -> ScorerView
    decreases rounds,
{
    if rounds == 0 {
        s
    } else {
        let before = advanced(s, value, number, (rounds - 1) as nat);
        before.next(reals::answered(before.asked(), value, number))
    }
}

/// Where the scoring of a feature ends: after a round for the scaling, one for
/// each row, and one for the estimate.
pub open spec fn end_of_scoring(
    rows: Seq<(Double, Double)>,
    task: MITask,
    neighbors: nat,
    value: spec_fn(Double) -> real,
    number: spec_fn(real) -> Double,
) -> StageView {
    advanced(ScorerView::begun(rows, task, neighbors), value, number, rows.len() + 2).stage
}

/// Whether finite numbers compare as their values do.
pub open spec fn orderly(value: spec_fn(Double) -> real) -> bool {
    forall|x: Double, y: Double|
        x.finite() && y.finite() ==> (#[trigger] x.below(y) <==> value(x) < value(y))
}

/// Whether all numbers of rows are finite.
pub open spec fn all_finite(rows: Seq<(Double, Double)>) -> bool {
    forall|k: int| 0 <= k < rows.len() ==> (#[trigger] rows[k]).0.finite() && rows[k].1.finite()
}

/// The scaled values of rows.
pub open spec fn scaled_values(
    rows: Seq<(Double, Double)>,
    value: spec_fn(Double) -> real,
    number: spec_fn(real) -> Double,
) -> Seq<Double> {
    let list = select_kbest::row_values(rows);
    reals::answered(mutual_information_selector::scaled_list(list), value, number)
}

/// The targets of rows: labels as they are, numbers scaled.
pub open spec fn scaled_targets(
    rows: Seq<(Double, Double)>,
    task: MITask,
    value: spec_fn(Double) -> real,
    number: spec_fn(real) -> Double,
) -> Seq<Double> {
    let list = select_kbest::row_targets(rows);
    match task {
        MITask::Classification => list,
        MITask::Regression => reals::answered(
            mutual_information_selector::scaled_list(list),
            value,
            number,
        ),
    }
}

/// What is counted for row `i`.
pub open spec fn entry_at(
    rows: Seq<(Double, Double)>,
    task: MITask,
    neighbors: nat,
    value: spec_fn(Double) -> real,
    number: spec_fn(real) -> Double,
    i: int,
) -> Entry {
    let values = scaled_values(rows, value, number);
    let targets = scaled_targets(rows, task, value, number);
    let across = reals::answered(mutual_information_selector::distances(values, i), value, number);
    let along = reals::answered(mutual_information_selector::distances(targets, i), value, number);
    match task {
        MITask::Classification => mutual_information_selector::label_entry(
            across,
            targets,
            neighbors,
            i,
        ),
        MITask::Regression => mutual_information_selector::joint_entry(across, along, neighbors, i),
    }
}

/// What is counted for all rows.
pub open spec fn entries_of(
    rows: Seq<(Double, Double)>,
    task: MITask,
    neighbors: nat,
    value: spec_fn(Double) -> real,
    number: spec_fn(real) -> Double,
) -> Seq<Entry> {
    Seq::new(rows.len(), |i: int| entry_at(rows, task, neighbors, value, number, i))
}

/// Two lists of questions are answered one after the other.
proof fn lemma_answered(
    first: Seq<Term>,
    second: Seq<Term>,
    value: spec_fn(Double) -> real,
    number: spec_fn(real) -> Double,
)
    ensures
        reals::answered(first + second, value, number).take(first.len() as int) == reals::answered(
            first,
            value,
            number,
        ),
        reals::answered(first + second, value, number).skip(first.len() as int) == reals::answered(
            second,
            value,
            number,
        ),
{
    let both = reals::answered(first + second, value, number);
    assert(both.take(first.len() as int) =~= reals::answered(first, value, number));
    assert(both.skip(first.len() as int) =~= reals::answered(second, value, number));
}

/// How far a scoring has come when `k` rows are measured.
proof fn lemma_course(
    rows: Seq<(Double, Double)>,
    task: MITask,
    neighbors: nat,
    value: spec_fn(Double) -> real,
    number: spec_fn(real) -> Double,
    k: nat,
)
    requires
        ScorerView::begun(rows, task, neighbors).stage is Scaling,
        k <= rows.len(),
    ensures
        ({
            let s = advanced(ScorerView::begun(rows, task, neighbors), value, number, k + 1);
            let entries = entries_of(rows, task, neighbors, value, number);
            &&& s.rows == rows
            &&& s.task == task
            &&& s.neighbors == neighbors
            &&& s.stage == if k < rows.len() {
                StageView::Measuring {
                    values: scaled_values(rows, value, number),
                    targets: scaled_targets(rows, task, value, number),
                    entries: entries.take(k as int),
                }
            } else {
                StageView::Estimating(entries)
            }
        }),
    decreases k,
{
    let begun = ScorerView::begun(rows, task, neighbors);
    let values = scaled_values(rows, value, number);
    let targets = scaled_targets(rows, task, value, number);
    let entries = entries_of(rows, task, neighbors, value, number);
    assert(rows.len() >= 2);
    if k == 0 {
        assert(advanced(begun, value, number, 0) == begun);
        let first = mutual_information_selector::scaled_list(select_kbest::row_values(rows));
        let second = mutual_information_selector::scaled_list(select_kbest::row_targets(rows));
        lemma_answered(first, second, value, number);
        assert(values.take(rows.len() as int) =~= values);
        assert(entries.take(0) =~= Seq::empty());
    } else {
        lemma_course(rows, task, neighbors, value, number, (k - 1) as nat);
        let before = advanced(begun, value, number, k);
        let i = k - 1;
        let seen = entries.take(i);
        let first = mutual_information_selector::distances(values, i);
        let second = mutual_information_selector::distances(targets, i);
        lemma_answered(first, second, value, number);
        let answers = reals::answered(before.asked(), value, number);
        assert(before.entry(values, targets, i, answers) == entries[i]);
        assert(seen.push(entries[i]) =~= entries.take(k as int));
        assert(entries.take(rows.len() as int) =~= entries);
    }
}

/// Every scoring ends with a score. It is zero where the feature has fewer than
/// two rows or never changes, or its target never does; else it is what the
/// estimate comes to, which is not negative. So where values become finite
/// numbers, zero becomes zero and no greater value becomes a lesser number, the
/// score is finite and not negative.
pub proof fn law_scores_not_negative(
    rows: Seq<(Double, Double)>,
    task: MITask,
    neighbors: nat,
    value: spec_fn(Double) -> real,
    number: spec_fn(real) -> Double,
)
    requires
        value(Double { bits: 0 }) == 0real,
        reals::rounds(number),
        number(0real) == (Double { bits: 0 }),
        forall|r: real| (#[trigger] number(r)).finite(),
    ensures
        end_of_scoring(rows, task, neighbors, value, number) matches StageView::Scored(d)
            && d.finite() && !d.below(Double { bits: 0 }),
{
    let begun = ScorerView::begun(rows, task, neighbors);
    if begun.stage is Scaling {
        lemma_end(rows, task, neighbors, value, number);
        let entries = entries_of(rows, task, neighbors, value, number);
        let sum = program::exact(
            mutual_information_selector::estimate(task, entries, neighbors),
            value,
        );
        assert(number(0real).below(number(sum)) || number(0real).equals(number(sum)));
    } else {
        lemma_scored_stays(begun, value, number, rows.len() + 2);
        assert((Double { bits: 0u64 }).finite());
    }
}

/// A score stays.
pub proof fn lemma_scored_stays(
    s: ScorerView,
    value: spec_fn(Double) -> real,
    number: spec_fn(real) -> Double,
    rounds: nat,
)
    requires
        s.stage is Scored,
    ensures
        advanced(s, value, number, rounds).stage == s.stage,
    decreases rounds,
{
    if rounds > 0 {
        lemma_scored_stays(s, value, number, (rounds - 1) as nat);
    }
}

/// The score of a feature that is scored.
pub proof fn lemma_end(
    rows: Seq<(Double, Double)>,
    task: MITask,
    neighbors: nat,
    value: spec_fn(Double) -> real,
    number: spec_fn(real) -> Double,
)
    requires
        ScorerView::begun(rows, task, neighbors).stage is Scaling,
        value(Double { bits: 0 }) == 0real,
    ensures
        ({
            let entries = entries_of(rows, task, neighbors, value, number);
            let sum = program::exact(
                mutual_information_selector::estimate(task, entries, neighbors),
                value,
            );
            &&& sum >= 0real
            &&& end_of_scoring(rows, task, neighbors, value, number) == StageView::Scored(
                number(sum),
            )
        }),
{
    lemma_course(rows, task, neighbors, value, number, rows.len());
    let begun = ScorerView::begun(rows, task, neighbors);
    let before = advanced(begun, value, number, rows.len() + 1);
    let entries = entries_of(rows, task, neighbors, value, number);
    let term = mutual_information_selector::estimate(task, entries, neighbors);
    assert(before.asked() =~= seq![term]);
    assert(program::exact(program::nothing(), value) == 0real);
}

/// The least and the greatest of finite numbers are among them.
pub proof fn lemma_ends(list: Seq<Double>)
    requires
        list.len() > 0,
        forall|k: int| 0 <= k < list.len() ==> (#[trigger] list[k]).finite(),
    ensures
        list.contains(mutual_information_selector::lowest(list)),
        list.contains(mutual_information_selector::highest(list)),
        forall|k: int|
            0 <= k < list.len() ==> mutual_information_selector::lowest(list).rank() <= (
            #[trigger] list[k]).rank() <= mutual_information_selector::highest(list).rank(),
    decreases list.len(),
{
    let front = list.drop_last();
    let (low, high) = (
        mutual_information_selector::lowest(list),
        mutual_information_selector::highest(list),
    );
    let n = list.len() - 1;
    assert(list[n].finite());
    assert forall|k: int| 0 <= k < front.len() implies (#[trigger] front[k]).finite() by {
        assert(front[k] == list[k]);
    }
    if front.len() > 0 {
        lemma_ends(front);
        let (l, h) = (
            mutual_information_selector::lowest(front),
            mutual_information_selector::highest(front),
        );
        let i = choose|i: int| 0 <= i < front.len() && front[i] == l;
        let j = choose|j: int| 0 <= j < front.len() && front[j] == h;
        assert(list[i] == l && list[j] == h);
        assert forall|k: int| 0 <= k < list.len() implies low.rank() <= (#[trigger] list[k]).rank()
            <= high.rank() by {
            if k < front.len() {
                assert(front[k] == list[k]);
            }
        }
    } else {
        assert(mutual_information_selector::lowest(front) == (Double {
            bits: crate::double::INFINITE,
        }));
        assert(mutual_information_selector::highest(front) == (Double {
            bits: crate::double::NEGATIVE_INFINITE,
        }));
        assert(low == list[n] && high == list[n]);
    }
}

/// The ends of a list have the same place on the real line in any order.
proof fn lemma_ends_in_any_order(list: Seq<Double>, p: Seq<int>, value: spec_fn(Double) -> real)
    requires
        list.len() > 0,
        order::covers(p, 0, list.len() as int),
        orderly(value),
        forall|k: int| 0 <= k < list.len() ==> (#[trigger] list[k]).finite(),
    ensures
        ({
            let other = doubles::arranged(list, p);
            &&& value(mutual_information_selector::lowest(other)) == value(
                mutual_information_selector::lowest(list),
            )
            &&& value(mutual_information_selector::highest(other)) == value(
                mutual_information_selector::highest(list),
            )
            &&& mutual_information_selector::constant(other)
                == mutual_information_selector::constant(list)
        }),
{
    let other = doubles::arranged(list, p);
    assert forall|k: int| 0 <= k < other.len() implies (#[trigger] other[k]).finite() by {
        assert(other[k] == list[p[k]]);
    }
    lemma_ends(list);
    lemma_ends(other);
    let (a, b) = (
        mutual_information_selector::lowest(list),
        mutual_information_selector::lowest(other),
    );
    let (c, d) = (
        mutual_information_selector::highest(list),
        mutual_information_selector::highest(other),
    );
    lemma_ranks_reach(list, p, a);
    lemma_ranks_reach(list, p, c);
    let k = choose|k: int| 0 <= k < other.len() && other[k] == b;
    let m = choose|m: int| 0 <= m < other.len() && other[m] == d;
    assert(list[p[k]] == b && list[p[m]] == d);
    assert(a.rank() == b.rank() && c.rank() == d.rank());
    assert(!a.below(b) && !b.below(a) && !c.below(d) && !d.below(c));
}

/// An item of a list stands somewhere in another order of it.
proof fn lemma_ranks_reach(list: Seq<Double>, p: Seq<int>, d: Double)
    requires
        order::covers(p, 0, list.len() as int),
        list.contains(d),
    ensures
        doubles::arranged(list, p).contains(d),
{
    let k = choose|k: int| 0 <= k < list.len() && list[k] == d;
    assert(p.contains(k));
    let i = choose|i: int| 0 <= i < p.len() && p[i] == k;
    assert(doubles::arranged(list, p)[i] == d);
}

/// Scaled numbers are arranged as the numbers are.
proof fn lemma_scaled_in_any_order(
    list: Seq<Double>,
    p: Seq<int>,
    value: spec_fn(Double) -> real,
    number: spec_fn(real) -> Double,
)
    requires
        list.len() > 0,
        order::covers(p, 0, list.len() as int),
        orderly(value),
        forall|k: int| 0 <= k < list.len() ==> (#[trigger] list[k]).finite(),
    ensures
        reals::answered(
            mutual_information_selector::scaled_list(doubles::arranged(list, p)),
            value,
            number,
        ) == doubles::arranged(
            reals::answered(mutual_information_selector::scaled_list(list), value, number),
            p,
        ),
{
    reveal_with_fuel(program::exact, 3);
    lemma_ends_in_any_order(list, p, value);
    let other = doubles::arranged(list, p);
    let some = reals::answered(mutual_information_selector::scaled_list(other), value, number);
    let all = reals::answered(mutual_information_selector::scaled_list(list), value, number);
    assert forall|i: int| 0 <= i < p.len() implies some[i] == all[p[i]] by {
        assert(0 <= p[i] < list.len());
        assert(other[i] == list[p[i]]);
    }
    assert(some =~= doubles::arranged(all, p));
}

/// Distances are arranged as the numbers are.
proof fn lemma_distances_in_any_order(
    list: Seq<Double>,
    p: Seq<int>,
    i: int,
    value: spec_fn(Double) -> real,
    number: spec_fn(real) -> Double,
)
    requires
        order::covers(p, 0, list.len() as int),
        0 <= i < list.len(),
    ensures
        reals::answered(
            mutual_information_selector::distances(doubles::arranged(list, p), i),
            value,
            number,
        ) == doubles::arranged(
            reals::answered(mutual_information_selector::distances(list, p[i]), value, number),
            p,
        ),
{
    let other = doubles::arranged(list, p);
    let some = reals::answered(mutual_information_selector::distances(other, i), value, number);
    let all = reals::answered(mutual_information_selector::distances(list, p[i]), value, number);
    assert forall|j: int| 0 <= j < p.len() implies some[j] == all[p[j]] by {
        assert(0 <= p[j] < list.len() && 0 <= p[i] < list.len());
        assert(other[j] == list[p[j]] && other[i] == list[p[i]]);
    }
    assert(some =~= doubles::arranged(all, p));
}

/// What is counted is arranged as the rows are.
proof fn lemma_entries_in_any_order(
    rows: Seq<(Double, Double)>,
    p: Seq<int>,
    task: MITask,
    neighbors: nat,
    value: spec_fn(Double) -> real,
    number: spec_fn(real) -> Double,
)
    requires
        rows.len() > 0,
        all_finite(rows),
        order::covers(p, 0, rows.len() as int),
        orderly(value),
    ensures
        entries_of(doubles::arranged(rows, p), task, neighbors, value, number)
            == doubles::arranged(entries_of(rows, task, neighbors, value, number), p),
{
    let other = doubles::arranged(rows, p);
    let (list, marks) = (select_kbest::row_values(rows), select_kbest::row_targets(rows));
    assert forall|k: int| 0 <= k < rows.len() implies (#[trigger] list[k]).finite() by {
        assert(rows[k].0.finite());
    }
    assert forall|k: int| 0 <= k < rows.len() implies (#[trigger] marks[k]).finite() by {
        assert(rows[k].1.finite());
    }
    assert(select_kbest::row_values(other) =~= doubles::arranged(list, p));
    assert(select_kbest::row_targets(other) =~= doubles::arranged(marks, p));
    lemma_scaled_in_any_order(list, p, value, number);
    lemma_scaled_in_any_order(marks, p, value, number);
    let values = scaled_values(rows, value, number);
    let targets = scaled_targets(rows, task, value, number);
    let all = entries_of(rows, task, neighbors, value, number);
    let some = entries_of(other, task, neighbors, value, number);
    assert forall|i: int| 0 <= i < rows.len() implies some[i] == all[p[i]] by {
        assert(0 <= p[i] < rows.len());
        lemma_distances_in_any_order(values, p, i, value, number);
        lemma_distances_in_any_order(targets, p, i, value, number);
        let across = reals::answered(mutual_information_selector::distances(values, p[i]), value, number);
        let along = reals::answered(mutual_information_selector::distances(targets, p[i]), value, number);
        match task {
            MITask::Classification => {
                mutual_information_selector::law_labelled_rows_in_any_order(
                    across,
                    targets,
                    neighbors,
                    p,
                    i,
                );
            },
            MITask::Regression => {
                mutual_information_selector::law_joint_rows_in_any_order(
                    across,
                    along,
                    neighbors,
                    p,
                    i,
                );
            },
        }
    }
    assert(some =~= doubles::arranged(all, p));
}

/// What a row adds to a sum over the rows whose label others have: its digammas
/// by `which`, or one by itself.
spec fn part(entry: Entry, which: int, value: spec_fn(Double) -> real) -> real {
    match entry {
        Entry::Labelled(k, c, m) => if which == 0 {
            program::exact(mutual_information_selector::psi(k as nat), value)
        } else if which == 1 {
            program::exact(mutual_information_selector::psi(c as nat), value)
        } else if which == 2 {
            program::exact(mutual_information_selector::psi(m as nat), value)
        } else {
            1real
        },
        _ => 0real,
    }
}

/// What all rows add to a sum.
spec fn parts(entries: Seq<Entry>, which: int, value: spec_fn(Double) -> real) -> Seq<real> {
    Seq::new(entries.len(), |i: int| part(entries[i], which, value))
}

/// The sums over the rows whose label others have.
proof fn lemma_parts(entries: Seq<Entry>, value: spec_fn(Double) -> real)
    ensures
        ({
            let list = mutual_information_selector::shared(entries);
            &&& reals::total(
                reals::exacts(mutual_information_selector::neighbor_psis(list), value),
            ) == reals::total(parts(entries, 0, value))
            &&& reals::total(reals::exacts(mutual_information_selector::label_psis(list), value))
                == reals::total(parts(entries, 1, value))
            &&& reals::total(reals::exacts(mutual_information_selector::inside_psis(list), value))
                == reals::total(parts(entries, 2, value))
            &&& list.len() as int as real == reals::total(parts(entries, 3, value))
        }),
    decreases entries.len(),
{
    let list = mutual_information_selector::shared(entries);
    if entries.len() > 0 {
        let front = entries.drop_last();
        let before = mutual_information_selector::shared(front);
        lemma_parts(front, value);
        assert forall|which: int| #[trigger] parts(entries, which, value).drop_last() =~= parts(
            front,
            which,
            value,
        ) by {}
        assert(parts(entries, 0, value).drop_last() == parts(front, 0, value));
        assert(parts(entries, 1, value).drop_last() == parts(front, 1, value));
        assert(parts(entries, 2, value).drop_last() == parts(front, 2, value));
        assert(parts(entries, 3, value).drop_last() == parts(front, 3, value));
        if entries.last() is Labelled {
            let a = reals::exacts(mutual_information_selector::neighbor_psis(list), value);
            let b = reals::exacts(mutual_information_selector::label_psis(list), value);
            let c = reals::exacts(mutual_information_selector::inside_psis(list), value);
            assert(a.drop_last() =~= reals::exacts(
                mutual_information_selector::neighbor_psis(before),
                value,
            ));
            assert(b.drop_last() =~= reals::exacts(
                mutual_information_selector::label_psis(before),
                value,
            ));
            assert(c.drop_last() =~= reals::exacts(
                mutual_information_selector::inside_psis(before),
                value,
            ));
        }
    } else {
        assert(reals::exacts(mutual_information_selector::neighbor_psis(list), value) =~= parts(
            entries,
            0,
            value,
        ));
        assert(reals::exacts(mutual_information_selector::label_psis(list), value) =~= parts(
            entries,
            1,
            value,
        ));
        assert(reals::exacts(mutual_information_selector::inside_psis(list), value) =~= parts(
            entries,
            2,
            value,
        ));
    }
}

/// A sum over rows does not depend on their order.
proof fn lemma_parts_in_any_order(
    entries: Seq<Entry>,
    p: Seq<int>,
    which: int,
    value: spec_fn(Double) -> real,
)
    requires
        order::covers(p, 0, entries.len() as int),
    ensures
        reals::total(parts(doubles::arranged(entries, p), which, value)) == reals::total(
            parts(entries, which, value),
        ),
{
    let all = parts(entries, which, value);
    let some = parts(doubles::arranged(entries, p), which, value);
    assert forall|i: int| 0 <= i < p.len() implies some[i] == all[p[i]] by {
        assert(0 <= p[i] < entries.len());
    }
    assert(some =~= doubles::arranged(all, p));
    doubles::lemma_arranged(all, p);
    reals::law_sum_in_any_order(some, all);
}

/// The estimate does not depend on the order of the rows.
proof fn lemma_estimate_in_any_order(
    task: MITask,
    entries: Seq<Entry>,
    neighbors: nat,
    p: Seq<int>,
    value: spec_fn(Double) -> real,
)
    requires
        order::covers(p, 0, entries.len() as int),
        value(Double { bits: 0 }) == 0real,
    ensures
        program::exact(
            mutual_information_selector::estimate(task, doubles::arranged(entries, p), neighbors),
            value,
        ) == program::exact(
            mutual_information_selector::estimate(task, entries, neighbors),
            value,
        ),
{
    let other = doubles::arranged(entries, p);
    match task {
        MITask::Classification => {
            lemma_parts(entries, value);
            lemma_parts(other, value);
            lemma_parts_in_any_order(entries, p, 0, value);
            lemma_parts_in_any_order(entries, p, 1, value);
            lemma_parts_in_any_order(entries, p, 2, value);
            lemma_parts_in_any_order(entries, p, 3, value);
            let list = mutual_information_selector::shared(entries);
            let rest = mutual_information_selector::shared(other);
            assert(list.len() == rest.len());
            reals::lemma_running_sum(mutual_information_selector::neighbor_psis(list), value);
            reals::lemma_running_sum(mutual_information_selector::label_psis(list), value);
            reals::lemma_running_sum(mutual_information_selector::inside_psis(list), value);
            reals::lemma_running_sum(mutual_information_selector::neighbor_psis(rest), value);
            reals::lemma_running_sum(mutual_information_selector::label_psis(rest), value);
            reals::lemma_running_sum(mutual_information_selector::inside_psis(rest), value);
            reveal_with_fuel(program::exact, 5);
        },
        MITask::Regression => {
            let all = mutual_information_selector::margins(entries);
            let some = mutual_information_selector::margins(other);
            let (a, b) = (reals::exacts(all, value), reals::exacts(some, value));
            assert forall|i: int| 0 <= i < p.len() implies b[i] == a[p[i]] by {
                assert(0 <= p[i] < entries.len());
                assert(other[i] == entries[p[i]]);
            }
            assert(b =~= doubles::arranged(a, p));
            doubles::lemma_arranged(a, p);
            reals::law_sum_in_any_order(b, a);
            reals::lemma_running_sum(all, value);
            reals::lemma_running_sum(some, value);
            reveal_with_fuel(program::exact, 4);
        },
    }
}

/// In exact arithmetic a score does not depend on the order of the rows.
pub proof fn law_rows_in_any_order(
    rows: Seq<(Double, Double)>,
    p: Seq<int>,
    task: MITask,
    neighbors: nat,
    value: spec_fn(Double) -> real,
    number: spec_fn(real) -> Double,
)
    requires
        all_finite(rows),
        order::covers(p, 0, rows.len() as int),
        orderly(value),
        value(Double { bits: 0 }) == 0real,
    ensures
        end_of_scoring(doubles::arranged(rows, p), task, neighbors, value, number)
            == end_of_scoring(rows, task, neighbors, value, number),
{
    let other = doubles::arranged(rows, p);
    let begun = ScorerView::begun(rows, task, neighbors);
    let again = ScorerView::begun(other, task, neighbors);
    if rows.len() >= 2 {
        let (list, marks) = (select_kbest::row_values(rows), select_kbest::row_targets(rows));
        assert forall|k: int| 0 <= k < rows.len() implies (#[trigger] list[k]).finite() by {
            assert(rows[k].0.finite());
        }
        assert forall|k: int| 0 <= k < rows.len() implies (#[trigger] marks[k]).finite() by {
            assert(rows[k].1.finite());
        }
        assert(select_kbest::row_values(other) =~= doubles::arranged(list, p));
        assert(select_kbest::row_targets(other) =~= doubles::arranged(marks, p));
        lemma_ends_in_any_order(list, p, value);
        lemma_ends_in_any_order(marks, p, value);
    }
    if begun.stage is Scaling {
        lemma_entries_in_any_order(rows, p, task, neighbors, value, number);
        let entries = entries_of(rows, task, neighbors, value, number);
        lemma_estimate_in_any_order(task, entries, neighbors, p, value);
        lemma_end(rows, task, neighbors, value, number);
        lemma_end(other, task, neighbors, value, number);
    } else {
        lemma_scored_stays(begun, value, number, rows.len() + 2);
        lemma_scored_stays(again, value, number, other.len() + 2);
    }
}

/// Whether row `j` is usable and has the given value and target.
spec fn usable_at(
    cells: Seq<Option<Double>>,
    targets: Seq<Option<Double>>,
    row: (Double, Double),
) -> spec_fn(int) -> bool {
    |j: int|
        cells[j] == Some(row.0) && targets[j] == Some(row.1) && row.0.finite() && row.1.finite()
}

/// How often a row is among the usable ones.
proof fn lemma_usable_count(
    cells: Seq<Option<Double>>,
    targets: Seq<Option<Double>>,
    n: nat,
    row: (Double, Double),
)
    ensures
        mutual_information_selector::usable(cells, targets, n).to_multiset().count(row)
            == count::counted(n, usable_at(cells, targets, row)),
    decreases n,
{
    broadcast use vstd::seq_lib::group_to_multiset_ensures;

    if n > 0 {
        lemma_usable_count(cells, targets, (n - 1) as nat, row);
        let front = mutual_information_selector::usable(cells, targets, (n - 1) as nat);
        let all = mutual_information_selector::usable(cells, targets, n);
        if let (Some(v), Some(t)) = (cells[n - 1], targets[n - 1]) {
            if v.finite() && t.finite() {
                assert(all.to_multiset() =~= front.to_multiset().insert((v, t)));
            }
        }
    }
}

/// The usable rows of a column and a target in another order are the usable
/// rows, in some other order.
proof fn lemma_usable_in_any_order(
    cells: Seq<Option<Double>>,
    targets: Seq<Option<Double>>,
    p: Seq<int>,
) -> (q: Seq<int>)
    requires
        cells.len() == targets.len(),
        order::covers(p, 0, cells.len() as int),
    ensures
        ({
            let rows = mutual_information_selector::usable(cells, targets, cells.len());
            &&& order::covers(q, 0, rows.len() as int)
            &&& mutual_information_selector::usable(
                doubles::arranged(cells, p),
                doubles::arranged(targets, p),
                cells.len(),
            ) == doubles::arranged(rows, q)
        }),
{
    let n = cells.len();
    let rows = mutual_information_selector::usable(cells, targets, n);
    let (far, marks) = (doubles::arranged(cells, p), doubles::arranged(targets, p));
    let other = mutual_information_selector::usable(far, marks, n);
    assert forall|row: (Double, Double)| other.to_multiset().count(row)
        == #[trigger] rows.to_multiset().count(row) by {
        let has = usable_at(cells, targets, row);
        lemma_usable_count(cells, targets, n, row);
        lemma_usable_count(far, marks, n, row);
        count::lemma_agreeing(n, usable_at(far, marks, row), count::at(has, p));
        count::law_any_order(n, has, p);
    }
    assert(other.to_multiset() =~= rows.to_multiset());
    doubles::lemma_same_items(rows, other)
}

/// In exact arithmetic the scores of a frame do not depend on the order of its
/// rows: every column has the score that it has with the rows of the frame and
/// of the target in any other order.
pub proof fn law_scores_in_any_order(
    columns: Seq<ColumnView>,
    targets: Seq<Option<Double>>,
    p: Seq<int>,
    task: MITask,
    neighbors: nat,
    value: spec_fn(Double) -> real,
    number: spec_fn(real) -> Double,
)
    requires
        order::covers(p, 0, targets.len() as int),
        forall|c: int|
            0 <= c < columns.len() ==> (#[trigger] columns[c]).values.len() == targets.len(),
        orderly(value),
        value(Double { bits: 0 }) == 0real,
    ensures
        ({
            let x = FrameView { height: targets.len(), columns };
            let before = mutual_information_selector::begun_features(
                columns,
                targets,
                task,
                neighbors,
            );
            let after = mutual_information_selector::begun_features(
                x.arranged(p).columns,
                doubles::arranged(targets, p),
                task,
                neighbors,
            );
            &&& after.len() == before.len()
            &&& forall|k: int|
                0 <= k < before.len() ==> {
                    &&& (#[trigger] after[k]).0 == (#[trigger] before[k]).0
                    &&& end_of_scoring(after[k].1.rows, task, neighbors, value, number)
                        == end_of_scoring(before[k].1.rows, task, neighbors, value, number)
                }
        }),
    decreases columns.len(),
{
    let x = FrameView { height: targets.len(), columns };
    let marks = doubles::arranged(targets, p);
    if columns.len() > 0 {
        let c = columns.len() - 1;
        let front = columns.drop_last();
        assert forall|k: int| 0 <= k < front.len() implies (#[trigger] front[k]).values.len()
            == targets.len() by {
            assert(front[k] == columns[k]);
        }
        let fewer = FrameView { height: targets.len(), columns: front };
        assert(x.arranged(p).columns.drop_last() =~= fewer.arranged(p).columns);
        law_scores_in_any_order(front, targets, p, task, neighbors, value, number);
        assert(columns[c].values.len() == targets.len());
        if let ValuesView::Float64(cells) = columns[c].values {
            let rows = mutual_information_selector::usable(cells, targets, cells.len());
            let q = lemma_usable_in_any_order(cells, targets, p);
            mutual_information_selector::lemma_usable(cells, targets, cells.len());
            assert(all_finite(rows));
            law_rows_in_any_order(rows, q, task, neighbors, value, number);
        }
    }
}

/// Every column of numbers is scored, under its name, and no other column is:
/// there is one scoring for each, in their order.
pub proof fn law_every_column_of_numbers(
    columns: Seq<ColumnView>,
    targets: Seq<Option<Double>>,
    task: MITask,
    neighbors: nat,
)
    ensures
        ({
            let features = mutual_information_selector::begun_features(
                columns,
                targets,
                task,
                neighbors,
            );
            &&& features.len() == count::counted(columns.len(), numeric(columns))
            &&& forall|c: int|
                0 <= c < columns.len() && columns[c].values is Float64 ==> 0 <= place(columns, c)
                    < features.len() && features[#[trigger] place(columns, c)] == scoring_of(
                    columns[c],
                    targets,
                    task,
                    neighbors,
                )
            &&& forall|k: int|
                0 <= k < features.len() ==> comes_from(
                    #[trigger] features[k],
                    columns,
                    targets,
                    task,
                    neighbors,
                )
        }),
    decreases columns.len(),
{
    let features = mutual_information_selector::begun_features(columns, targets, task, neighbors);
    if columns.len() > 0 {
        let front = columns.drop_last();
        law_every_column_of_numbers(front, targets, task, neighbors);
        let fewer = mutual_information_selector::begun_features(front, targets, task, neighbors);
        count::lemma_agreeing(front.len(), numeric(front), numeric(columns));
        assert forall|c: int| 0 <= c < columns.len() && columns[c].values is Float64 implies 0
            <= place(columns, c) < features.len() && features[#[trigger] place(columns, c)]
            == scoring_of(columns[c], targets, task, neighbors) by {
            count::lemma_agreeing(c as nat, numeric(front), numeric(columns));
            if c < front.len() {
                assert(numeric(front)(c));
                lemma_counted_before(front.len(), numeric(front), c);
                let k = place(front, c);
                assert(fewer[k] == scoring_of(front[c], targets, task, neighbors));
                assert(features[k] == fewer[k]);
            }
        }
    }
    assert forall|k: int| 0 <= k < features.len() implies comes_from(
        #[trigger] features[k],
        columns,
        targets,
        task,
        neighbors,
    ) by {
        let c = lemma_column_of(columns, targets, task, neighbors, k);
        assert(columns[c].values is Float64);
    }
}

/// Whether a scoring is that of one of the columns of numbers.
pub open spec fn comes_from(
    feature: (Seq<char>, ScorerView),
    columns: Seq<ColumnView>,
    targets: Seq<Option<Double>>,
    task: MITask,
    neighbors: nat,
) -> bool {
    exists|c: int|
        0 <= c < columns.len() && (#[trigger] columns[c]).values is Float64 && feature == scoring_of(
            columns[c],
            targets,
            task,
            neighbors,
        )
}

/// The column of a scoring.
proof fn lemma_column_of(
    columns: Seq<ColumnView>,
    targets: Seq<Option<Double>>,
    task: MITask,
    neighbors: nat,
    k: int,
) -> (c: int)
    requires
        0 <= k < mutual_information_selector::begun_features(
            columns,
            targets,
            task,
            neighbors,
        ).len(),
    ensures
        0 <= c < columns.len(),
        columns[c].values is Float64,
        mutual_information_selector::begun_features(columns, targets, task, neighbors)[k]
            == scoring_of(columns[c], targets, task, neighbors),
    decreases columns.len(),
{
    let front = columns.drop_last();
    let fewer = mutual_information_selector::begun_features(front, targets, task, neighbors);
    if k < fewer.len() {
        let c = lemma_column_of(front, targets, task, neighbors, k);
        assert(columns[c] == front[c]);
        c
    } else {
        columns.len() - 1
    }
}

/// The scoring of a column of numbers at its beginning, under the column's name.
pub open spec fn scoring_of(
    column: ColumnView,
    targets: Seq<Option<Double>>,
    task: MITask,
    neighbors: nat,
) -> (Seq<char>, ScorerView) {
    (column.name, ScorerView::begun(usable_rows_of(column, targets), task, neighbors))
}

/// The usable rows of a column of numbers and a target.
pub open spec fn usable_rows_of(column: ColumnView, targets: Seq<Option<Double>>) -> Seq<
    (Double, Double),
> {
    let cells = column.values->Float64_0;
    mutual_information_selector::usable(cells, targets, cells.len())
}

/// The place of column `c` among the columns of numbers.
pub open spec fn place(columns: Seq<ColumnView>, c: int) -> int {
    count::counted(c as nat, numeric(columns)) as int
}

/// Whether column `c` holds numbers.
pub open spec fn numeric(columns: Seq<ColumnView>) -> spec_fn(int) -> bool {
    |c: int| columns[c].values is Float64
}

/// Fewer have a property before one that has it than do up to a later place.
proof fn lemma_counted_before(n: nat, has: spec_fn(int) -> bool, c: int)
    requires
        0 <= c < n,
        has(c),
    ensures
        count::counted(c as nat, has) < count::counted(n, has),
    decreases n,
{
    if c < n - 1 {
        lemma_counted_before((n - 1) as nat, has, c);
    }
}

/// The scores of the features of a frame.
pub open spec fn scores_of(
    features: Seq<(Seq<char>, ScorerView)>,
    task: MITask,
    neighbors: nat,
    value: spec_fn(Double) -> real,
    number: spec_fn(real) -> Double,
) -> Seq<(Seq<char>, Double)> {
    Seq::new(
        features.len(),
        |k: int|
            (
                features[k].0,
                end_of_scoring(features[k].1.rows, task, neighbors, value, number)->Scored_0,
            ),
    )
}

/// Whether rows tell nothing: there are fewer than two, or all values are the
/// same, or all targets are.
pub open spec fn uninformative(rows: Seq<(Double, Double)>) -> bool {
    ||| rows.len() < 2
    ||| forall|i: int, j: int|
        0 <= i < rows.len() && 0 <= j < rows.len() ==> (#[trigger] rows[i]).0.equals(
            (#[trigger] rows[j]).0,
        )
    ||| forall|i: int, j: int|
        0 <= i < rows.len() && 0 <= j < rows.len() ==> (#[trigger] rows[i]).1.equals(
            (#[trigger] rows[j]).1,
        )
}

/// What a fit ends with, where values become finite numbers, zero becomes zero
/// and no greater value becomes a lesser number. The scores are ranked from high
/// to low, equal ones by name; every column of numbers has just one, under its
/// name, and no other column has any. Every score is finite and not negative,
/// and that of a column with fewer than two usable rows, or whose values or
/// targets are all the same there, is zero.
pub proof fn law_scores_of_a_fit(
    x: FrameView,
    targets: Seq<Option<Double>>,
    task: MITask,
    neighbors: nat,
    most: nat,
    value: spec_fn(Double) -> real,
    number: spec_fn(real) -> Double,
)
    requires
        x.valid(),
        value(Double { bits: 0 }) == 0real,
        reals::rounds(number),
        number(0real) == (Double { bits: 0 }),
        forall|r: real| (#[trigger] number(r)).finite(),
    ensures
        ({
            let features = mutual_information_selector::begun_features(
                x.columns,
                targets,
                task,
                neighbors,
            );
            let scores = scores_of(features, task, neighbors, value, number);
            let (ranked, kept) = mutual_information_selector::most_informative(scores, most);
            &&& ranked.len() == count::counted(x.columns.len(), numeric(x.columns))
            &&& forall|i: int, j: int|
                0 <= i < j < ranked.len() ==> {
                    &&& (#[trigger] ranked[i]).0 != (#[trigger] ranked[j]).0
                    &&& ranked[i].1.total_rank() > ranked[j].1.total_rank()
                        || ranked[i].1.total_rank() == ranked[j].1.total_rank() && text::less(
                        ranked[i].0,
                        ranked[j].0,
                    )
                }
            &&& forall|i: int|
                0 <= i < ranked.len() ==> scores_some(
                    #[trigger] ranked[i],
                    x.columns,
                    targets,
                    task,
                    neighbors,
                    value,
                    number,
                )
            &&& forall|c: int|
                0 <= c < x.columns.len() && x.columns[c].values is Float64 ==> scored_in(
                    #[trigger] x.columns[c],
                    ranked,
                    targets,
                    task,
                    neighbors,
                    value,
                    number,
                )
            &&& forall|i: int|
                0 <= i < ranked.len() ==> (#[trigger] ranked[i]).1.finite() && !ranked[i].1.below(
                    Double { bits: 0 },
                )
        }),
{
    let columns = x.columns;
    let features = mutual_information_selector::begun_features(columns, targets, task, neighbors);
    let scores = scores_of(features, task, neighbors, value, number);
    let ranked = mutual_information_selector::most_informative(scores, most).0;
    law_every_column_of_numbers(columns, targets, task, neighbors);
    ranking::law_best_first_by_name(scores, false);
    let p = doubles::lemma_same_items(scores, ranked);
    count::lemma_covering(p, scores.len());
    assert forall|i: int| 0 <= i < ranked.len() implies scores_some(
        #[trigger] ranked[i],
        columns,
        targets,
        task,
        neighbors,
        value,
        number,
    ) by {
        assert(0 <= p[i] < scores.len());
        let c = lemma_column_of(columns, targets, task, neighbors, p[i]);
        lemma_score_of(columns[c], targets, task, neighbors, value, number);
        assert(ranked[i] == scores[p[i]]);
        assert(is_score_of(ranked[i], columns[c], targets, task, neighbors, value, number));
    }
    assert forall|c: int|
        0 <= c < columns.len() && columns[c].values is Float64 implies scored_in(
        #[trigger] columns[c],
        ranked,
        targets,
        task,
        neighbors,
        value,
        number,
    ) by {
        let k = place(columns, c);
        assert(features[k] == scoring_of(columns[c], targets, task, neighbors));
        lemma_score_of(columns[c], targets, task, neighbors, value, number);
        assert(p.contains(k));
        let i = choose|i: int| 0 <= i < p.len() && p[i] == k;
        assert(ranked[i] == scores[k]);
        assert(is_score_of(ranked[i], columns[c], targets, task, neighbors, value, number));
    }
    assert forall|i: int| 0 <= i < ranked.len() implies (#[trigger] ranked[i]).1.finite()
        && !ranked[i].1.below(Double { bits: 0 }) by {
        assert(0 <= p[i] < scores.len());
        assert(ranked[i] == scores[p[i]]);
        law_scores_not_negative(features[p[i]].1.rows, task, neighbors, value, number);
    }
    lemma_names_differ(columns, targets, task, neighbors);
    assert forall|i: int, j: int| 0 <= i < j < ranked.len() implies {
        &&& (#[trigger] ranked[i]).0 != (#[trigger] ranked[j]).0
        &&& ranked[i].1.total_rank() > ranked[j].1.total_rank() || ranked[i].1.total_rank()
            == ranked[j].1.total_rank() && text::less(ranked[i].0, ranked[j].0)
    } by {
        assert(0 <= p[i] < scores.len() && 0 <= p[j] < scores.len());
        assert(p[i] != p[j]);
        assert(ranked[i] == scores[p[i]] && ranked[j] == scores[p[j]]);
        assert(features[p[i]].0 != features[p[j]].0);
        text::law_less_total(ranked[i].0, ranked[j].0);
    }
}

/// Whether a score is that of one of the columns of numbers.
pub open spec fn scores_some(
    score: (Seq<char>, Double),
    columns: Seq<ColumnView>,
    targets: Seq<Option<Double>>,
    task: MITask,
    neighbors: nat,
    value: spec_fn(Double) -> real,
    number: spec_fn(real) -> Double,
) -> bool {
    exists|c: int|
        0 <= c < columns.len() && (#[trigger] columns[c]).values is Float64 && is_score_of(
            score,
            columns[c],
            targets,
            task,
            neighbors,
            value,
            number,
        )
}

/// Whether one of a list of scores is that of a column.
pub open spec fn scored_in(
    column: ColumnView,
    scores: Seq<(Seq<char>, Double)>,
    targets: Seq<Option<Double>>,
    task: MITask,
    neighbors: nat,
    value: spec_fn(Double) -> real,
    number: spec_fn(real) -> Double,
) -> bool {
    exists|i: int|
        0 <= i < scores.len() && is_score_of(
            #[trigger] scores[i],
            column,
            targets,
            task,
            neighbors,
            value,
            number,
        )
}

/// Whether a score is that of a column: under its name, what its scoring comes
/// to, and zero where its usable rows tell nothing.
pub open spec fn is_score_of(
    score: (Seq<char>, Double),
    column: ColumnView,
    targets: Seq<Option<Double>>,
    task: MITask,
    neighbors: nat,
    value: spec_fn(Double) -> real,
    number: spec_fn(real) -> Double,
) -> bool {
    let rows = usable_rows_of(column, targets);
    &&& score.0 == column.name
    &&& end_of_scoring(rows, task, neighbors, value, number) == StageView::Scored(score.1)
    &&& uninformative(rows) ==> score.1 == (Double { bits: 0 })
}

/// The score of a column.
proof fn lemma_score_of(
    column: ColumnView,
    targets: Seq<Option<Double>>,
    task: MITask,
    neighbors: nat,
    value: spec_fn(Double) -> real,
    number: spec_fn(real) -> Double,
)
    requires
        value(Double { bits: 0 }) == 0real,
    ensures
        ({
            let end = end_of_scoring(
                usable_rows_of(column, targets),
                task,
                neighbors,
                value,
                number,
            );
            &&& end is Scored
            &&& uninformative(usable_rows_of(column, targets)) ==> end->Scored_0 == (Double {
                bits: 0,
            })
        }),
{
    let rows = usable_rows_of(column, targets);
    let begun = ScorerView::begun(rows, task, neighbors);
    if uninformative(rows) {
        mutual_information_selector::law_uninformative(rows, task, neighbors);
    }
    if begun.stage is Scaling {
        lemma_end(rows, task, neighbors, value, number);
    } else {
        lemma_scored_stays(begun, value, number, rows.len() + 2);
    }
}

/// Features have names of their own, as columns have.
proof fn lemma_names_differ(
    columns: Seq<ColumnView>,
    targets: Seq<Option<Double>>,
    task: MITask,
    neighbors: nat,
)
    requires
        forall|i: int, j: int|
            0 <= i < j < columns.len() ==> (#[trigger] columns[i]).name != (
            #[trigger] columns[j]).name,
    ensures
        ({
            let features = mutual_information_selector::begun_features(
                columns,
                targets,
                task,
                neighbors,
            );
            forall|i: int, j: int|
                0 <= i < j < features.len() ==> (#[trigger] features[i]).0 != (
                #[trigger] features[j]).0
        }),
    decreases columns.len(),
{
    if columns.len() > 0 {
        let front = columns.drop_last();
        assert forall|i: int, j: int| 0 <= i < j < front.len() implies (#[trigger] front[i]).name
            != (#[trigger] front[j]).name by {
            assert(front[i] == columns[i] && front[j] == columns[j]);
        }
        lemma_names_differ(front, targets, task, neighbors);
        let fewer = mutual_information_selector::begun_features(front, targets, task, neighbors);
        let all = mutual_information_selector::begun_features(columns, targets, task, neighbors);
        assert forall|i: int, j: int| 0 <= i < j < all.len() implies (#[trigger] all[i]).0 != (
        #[trigger] all[j]).0 by {
            assert(all[i] == fewer[i]);
            if j < fewer.len() {
                assert(all[j] == fewer[j]);
            } else {
                let c = lemma_column_of(front, targets, task, neighbors, i);
                assert(front[c] == columns[c]);
                assert(columns[c].name != columns[columns.len() - 1].name);
            }
        }
    }
}

} // verus!
