//! Selection of the features with the most mutual information.
//!
//! [`MutualInformationSelector`] keeps the features that share most information
//! with a target, by estimates from the distances of nearest neighbours.

use crate::count;
use crate::double::Double;
use crate::doubles;
use crate::error::Error;
use crate::error::ErrorView;
use crate::error::Problem;
use crate::feature_selection::ranking;
use crate::feature_selection::select_kbest;
use crate::frame;
use crate::frame::Frame;
use crate::frame::FrameView;
use crate::frame::Sheet;
use crate::frame::Values;
use crate::frame::ValuesView;
use crate::order;
use crate::program;
use crate::program::Operation;
use crate::program::Program;
use crate::program::Query;
use crate::program::Term;
use crate::text;
use crate::text::Text;
use crate::util;
use vstd::prelude::*;

verus! {

/// What kind of target the features are scored against.
#[derive(Clone, Copy, Debug, PartialEq, Eq, Structural)]
pub enum MITask {
    /// Labels.
    Classification,
    /// Numbers of a continuous range.
    Regression,
}

impl Default for MITask {
    fn default() -> (r: MITask)
        ensures
            r == MITask::Classification,
    {
        MITask::Classification
    }
}

/// The rows among the first `n` of which both the value and the target are
/// finite.
pub open spec fn usable(cells: Seq<Option<Double>>, targets: Seq<Option<Double>>, n: nat) -> Seq<
    (Double, Double),
>
    decreases n,
{
    if n == 0 {
        Seq::empty()
    } else {
        let front = usable(cells, targets, (n - 1) as nat);
        match (cells[n - 1], targets[n - 1]) {
            (Some(v), Some(t)) => if v.finite() && t.finite() {
                front.push((v, t))
            } else {
                front
            },
            _ => front,
        }
    }
}

/// The least of a list and positive infinity.
pub open spec fn lowest(list: Seq<Double>) -> Double
    decreases list.len(),
{
    if list.len() == 0 {
        Double { bits: crate::double::INFINITE }
    } else {
        let front = lowest(list.drop_last());
        if list.last().below(front) {
            list.last()
        } else {
            front
        }
    }
}

/// The greatest of a list and negative infinity.
pub open spec fn highest(list: Seq<Double>) -> Double
    decreases list.len(),
{
    if list.len() == 0 {
        Double { bits: crate::double::NEGATIVE_INFINITE }
    } else {
        let front = highest(list.drop_last());
        if front.below(list.last()) {
            list.last()
        } else {
            front
        }
    }
}

/// Whether all numbers of a list are the same.
pub open spec fn constant(list: Seq<Double>) -> bool {
    !lowest(list).below(highest(list))
}

/// A number of a list, scaled so that the list spans zero to one.
pub open spec fn scaled(list: Seq<Double>, i: int) -> Term {
    Term::Over(
        Box::new(
            Term::Minus(Box::new(Term::Value(list[i])), Box::new(Term::Value(lowest(list)))),
        ),
        Box::new(
            Term::Minus(
                Box::new(Term::Value(highest(list))),
                Box::new(Term::Value(lowest(list))),
            ),
        ),
    )
}

/// A list, scaled to span zero to one.
pub open spec fn scaled_list(list: Seq<Double>) -> Seq<Term> {
    Seq::new(list.len(), |i: int| scaled(list, i))
}

/// Whether a list holds the numbers of another in other units: multiplied and
/// moved, in exact arithmetic.
pub open spec fn converted(
    list: Seq<Double>,
    other: Seq<Double>,
    factor: real,
    shift: real,
    value: spec_fn(Double) -> real,
) -> bool {
    &&& list.len() == other.len()
    &&& forall|i: int|
        0 <= i < list.len() ==> (#[trigger] list[i]).finite() && other[i].finite() && value(other[i])
            == factor * value(list[i]) + shift
}

/// The least and the greatest number stand in the same places after a
/// conversion.
proof fn lemma_converted_ends(
    list: Seq<Double>,
    other: Seq<Double>,
    factor: real,
    shift: real,
    value: spec_fn(Double) -> real,
) -> (r: (int, int))
    requires
        list.len() > 0,
        factor > 0real,
        converted(list, other, factor, shift, value),
        forall|x: Double, y: Double|
            x.finite() && y.finite() ==> (#[trigger] x.below(y) <==> value(x) < value(y)),
    ensures
        0 <= r.0 < list.len(),
        0 <= r.1 < list.len(),
        lowest(list) == list[r.0],
        lowest(other) == other[r.0],
        highest(list) == list[r.1],
        highest(other) == other[r.1],
    decreases list.len(),
{
    let n = list.len() - 1;
    let front = list.drop_last();
    let rest = other.drop_last();
    assert(list[n].finite() && other[n].finite());
    if n == 0 {
        reveal_with_fuel(lowest, 2);
        reveal_with_fuel(highest, 2);
        (0, 0)
    } else {
        assert forall|i: int| 0 <= i < front.len() implies (#[trigger] front[i]).finite()
            && rest[i].finite() && value(rest[i]) == factor * value(front[i]) + shift by {
            assert(front[i] == list[i]);
        }
        let (l, h) = lemma_converted_ends(front, rest, factor, shift, value);
        assert(front[l] == list[l] && front[h] == list[h]);
        let (p, q, s) = (value(list[n]), value(list[l]), value(list[h]));
        assert(p < q <==> factor * p + shift < factor * q + shift) by (nonlinear_arith)
            requires
                factor > 0real,
        ;
        assert(s < p <==> factor * s + shift < factor * p + shift) by (nonlinear_arith)
            requires
                factor > 0real,
        ;
        let low: int = if list[n].below(list[l]) {
            n
        } else {
            l
        };
        let high: int = if list[h].below(list[n]) {
            n
        } else {
            h
        };
        (low, high)
    }
}

/// In exact arithmetic the scaled numbers do not depend on the units that a
/// list is given in.
pub proof fn law_units_do_not_matter(
    list: Seq<Double>,
    other: Seq<Double>,
    factor: real,
    shift: real,
    value: spec_fn(Double) -> real,
    i: int,
)
    requires
        0 <= i < list.len(),
        factor > 0real,
        converted(list, other, factor, shift, value),
        forall|x: Double, y: Double|
            x.finite() && y.finite() ==> (#[trigger] x.below(y) <==> value(x) < value(y)),
        value(lowest(list)) < value(highest(list)),
    ensures
        program::exact(scaled_list(other)[i], value) == program::exact(scaled_list(list)[i], value),
{
    let (l, h) = lemma_converted_ends(list, other, factor, shift, value);
    reveal_with_fuel(program::exact, 3);
    assert(list[i].finite() && list[l].finite() && list[h].finite());
    let (x, low, high) = (value(list[i]), value(list[l]), value(list[h]));
    let (top, bottom) = (x - low, high - low);
    assert((factor * x + shift) - (factor * low + shift) == factor * top) by (nonlinear_arith)
        requires
            top == x - low,
    ;
    assert((factor * high + shift) - (factor * low + shift) == factor * bottom)
        by (nonlinear_arith)
        requires
            bottom == high - low,
    ;
    assert((factor * top) / (factor * bottom) == top / bottom) by (nonlinear_arith)
        requires
            factor > 0real,
            bottom > 0real,
    ;
}

/// The distances of the numbers of a list from number `i`.
pub open spec fn distances(list: Seq<Double>, i: int) -> Seq<Term> {
    Seq::new(
        list.len(),
        |j: int|
            Term::Magnitude(
                Box::new(
                    Term::Minus(Box::new(Term::Value(list[i])), Box::new(Term::Value(list[j]))),
                ),
            ),
    )
}

/// A number moved into a range.
pub open spec fn clamped(n: nat, low: nat, high: nat) -> nat {
    if n < low {
        low
    } else if n > high {
        high
    } else {
        n
    }
}

/// The number just below a distance; zero for zero.
pub open spec fn shrunk(d: Double) -> Double {
    if (Double { bits: 0 }).below(d) {
        Double { bits: (d.bits - 1) as u64 }
    } else {
        Double { bits: 0 }
    }
}

/// The greater of two distances; of a number and NaN, the number.
pub open spec fn wider(a: Double, b: Double) -> Double {
    if a.nan() {
        b
    } else if a.below(b) {
        b
    } else {
        a
    }
}

/// The `k`-th least of a list.
pub open spec fn nearest(list: Seq<Double>, k: nat) -> Double {
    doubles::ascending(list)[k - 1]
}

/// Whether row `j` has the label of row `i`.
pub open spec fn labelled(labels: Seq<Double>, i: int) -> spec_fn(int) -> bool {
    |j: int| labels[j].equals(labels[i])
}

/// How many rows have the label of row `i`.
pub open spec fn label_count(labels: Seq<Double>, i: int) -> nat {
    count::counted(labels.len(), labelled(labels, i))
}

/// The distances from row `i` of the other rows with its label, among the
/// first `n`.
pub open spec fn label_distances(away: Seq<Double>, labels: Seq<Double>, i: int, n: nat) -> Seq<
    Double,
>
    decreases n,
{
    if n == 0 {
        Seq::empty()
    } else {
        let front = label_distances(away, labels, i, (n - 1) as nat);
        if n - 1 != i && labels[n - 1].equals(labels[i]) {
            front.push(away[n - 1])
        } else {
            front
        }
    }
}

/// Whether row `j` is within a radius.
pub open spec fn inside(away: Seq<Double>, radius: Double) -> spec_fn(int) -> bool {
    |j: int| away[j].below(radius) || away[j].equals(radius)
}

/// Whether row `j` is another row than `i`, and closer than a radius.
pub open spec fn closer(away: Seq<Double>, radius: Double, i: int) -> spec_fn(int) -> bool {
    |j: int| j != i && away[j].below(radius)
}

/// What is counted for a row.
#[derive(Clone, Copy, Debug, PartialEq, Eq, Structural)]
pub enum Entry {
    /// No other row has its label.
    Alone,
    /// The number of neighbours, of rows with its label, and of rows within
    /// the distance of the last of those neighbours.
    Labelled(u64, u64, u64),
    /// The numbers of other rows closer than the last neighbour, by value and
    /// by target.
    Joint(u64, u64),
}

/// What is counted for row `i` against labels, with `away` the distances of
/// all rows from it.
pub open spec fn label_entry(
    away: Seq<Double>,
    labels: Seq<Double>,
    neighbors: nat,
    i: int,
) -> Entry {
    let c = label_count(labels, i);
    if c < 2 {
        Entry::Alone
    } else {
        let k = clamped(neighbors, 1, (c - 1) as nat);
        let radius = shrunk(nearest(label_distances(away, labels, i, labels.len()), k));
        let m = count::counted(labels.len(), inside(away, radius));
        Entry::Labelled(k as u64, c as u64, m as u64)
    }
}

/// The joint distances from row `i`; infinity for the row itself.
pub open spec fn joint(across: Seq<Double>, along: Seq<Double>, i: int) -> Seq<Double> {
    Seq::new(
        across.len(),
        |j: int|
            if j == i {
                Double { bits: crate::double::INFINITE }
            } else {
                wider(across[j], along[j])
            },
    )
}

/// What is counted for row `i` against numbers, with `across` and `along` the
/// distances of all rows from it by value and by target.
pub open spec fn joint_entry(
    across: Seq<Double>,
    along: Seq<Double>,
    neighbors: nat,
    i: int,
) -> Entry {
    let n = across.len();
    let radius = nearest(joint(across, along, i), clamped(neighbors, 1, (n - 1) as nat));
    Entry::Joint(
        count::counted(n, closer(across, radius, i)) as u64,
        count::counted(n, closer(along, radius, i)) as u64,
    )
}

/// The digamma function at a count.
pub open spec fn psi(n: nat) -> Term {
    Term::Digamma(Box::new(Term::Natural(n)))
}

/// The entries of rows whose label others have.
pub open spec fn shared(entries: Seq<Entry>) -> Seq<(nat, nat, nat)>
    decreases entries.len(),
{
    if entries.len() == 0 {
        Seq::empty()
    } else {
        let front = shared(entries.drop_last());
        match entries.last() {
            Entry::Labelled(k, c, m) => front.push((k as nat, c as nat, m as nat)),
            _ => front,
        }
    }
}

/// The digammas of the numbers of neighbours.
pub open spec fn neighbor_psis(list: Seq<(nat, nat, nat)>) -> Seq<Term> {
    Seq::new(list.len(), |i: int| psi(list[i].0))
}

/// The digammas of the numbers of rows with a label.
pub open spec fn label_psis(list: Seq<(nat, nat, nat)>) -> Seq<Term> {
    Seq::new(list.len(), |i: int| psi(list[i].1))
}

/// The digammas of the numbers of rows within a distance.
pub open spec fn inside_psis(list: Seq<(nat, nat, nat)>) -> Seq<Term> {
    Seq::new(list.len(), |i: int| psi(list[i].2))
}

/// The estimate against labels.
pub open spec fn label_estimate(entries: Seq<Entry>) -> Term {
    let list = shared(entries);
    if list.len() == 0 {
        program::nothing()
    } else {
        Term::Plus(
            Box::new(psi(list.len())),
            Box::new(
                Term::Over(
                    Box::new(
                        Term::Minus(
                            Box::new(
                                Term::Minus(
                                    Box::new(program::running_sum(neighbor_psis(list))),
                                    Box::new(program::running_sum(label_psis(list))),
                                ),
                            ),
                            Box::new(program::running_sum(inside_psis(list))),
                        ),
                    ),
                    Box::new(Term::Natural(list.len())),
                ),
            ),
        )
    }
}

/// What the rows add to the sum over the margins.
pub open spec fn margins(entries: Seq<Entry>) -> Seq<Term> {
    Seq::new(
        entries.len(),
        |i: int|
            match entries[i] {
                Entry::Joint(a, b) => Term::Plus(
                    Box::new(psi((a + 1) as nat)),
                    Box::new(psi((b + 1) as nat)),
                ),
                _ => program::nothing(),
            },
    )
}

/// The estimate against numbers.
pub open spec fn joint_estimate(entries: Seq<Entry>, neighbors: nat) -> Term {
    let n = entries.len();
    Term::Minus(
        Box::new(
            Term::Plus(
                Box::new(psi(clamped(neighbors, 1, (n - 1) as nat))),
                Box::new(psi(n)),
            ),
        ),
        Box::new(
            Term::Over(
                Box::new(program::running_sum(margins(entries))),
                Box::new(Term::Natural(n)),
            ),
        ),
    )
}

/// The estimate, zero at least.
pub open spec fn estimate(task: MITask, entries: Seq<Entry>, neighbors: nat) -> Term {
    Term::Greater(
        Box::new(
            match task {
                MITask::Classification => label_estimate(entries),
                MITask::Regression => joint_estimate(entries, neighbors),
            },
        ),
        Box::new(program::nothing()),
    )
}

/// How far the scoring of a feature has come.
#[verifier::ext_equal]
pub enum StageView {
    /// The scaled values were asked for, and against numbers the scaled
    /// targets after them.
    Scaling,
    /// The distances from the next row were asked for: by value, and against
    /// numbers by target after them.
    Measuring { values: Seq<Double>, targets: Seq<Double>, entries: Seq<Entry> },
    /// The estimate was asked for.
    Estimating(Seq<Entry>),
    /// The score.
    Scored(Double),
}

/// The view of a [`FeatureScorer`].
#[verifier::ext_equal]
pub struct ScorerView {
    pub rows: Seq<(Double, Double)>,
    pub task: MITask,
    pub neighbors: nat,
    pub stage: StageView,
}

impl ScorerView {
    /// The scoring of a feature with the given rows, at its beginning.
    pub open spec fn begun(rows: Seq<(Double, Double)>, task: MITask, neighbors: nat) -> ScorerView {
        let stage = if rows.len() < 2 || constant(select_kbest::row_values(rows)) || constant(
            select_kbest::row_targets(rows),
        ) {
            StageView::Scored(Double { bits: 0 })
        } else {
            StageView::Scaling
        };
        ScorerView { rows, task, neighbors, stage }
    }

    /// What has been asked for.
    pub open spec fn asked(self) -> Seq<Term> {
        let joint = self.task == MITask::Regression;
        match self.stage {
            StageView::Scaling => {
                let first = scaled_list(select_kbest::row_values(self.rows));
                if joint {
                    first + scaled_list(select_kbest::row_targets(self.rows))
                } else {
                    first
                }
            },
            StageView::Measuring { values, targets, entries } => {
                let first = distances(values, entries.len() as int);
                if joint {
                    first + distances(targets, entries.len() as int)
                } else {
                    first
                }
            },
            StageView::Estimating(entries) => seq![estimate(self.task, entries, self.neighbors)],
            StageView::Scored(_) => Seq::empty(),
        }
    }

    /// What is counted for the next row, with the answers.
    pub open spec fn entry(
        self,
        values: Seq<Double>,
        targets: Seq<Double>,
        i: int,
        answers: Seq<Double>,
    ) -> Entry {
        let n = values.len() as int;
        match self.task {
            MITask::Classification => label_entry(answers, targets, self.neighbors, i),
            MITask::Regression => joint_entry(
                answers.take(n),
                answers.skip(n),
                self.neighbors,
                i,
            ),
        }
    }

    /// The scoring after the answers.
    pub open spec fn next(self, answers: Seq<Double>) -> ScorerView {
        let n = self.rows.len() as int;
        let stage = match self.stage {
            StageView::Scaling => StageView::Measuring {
                values: answers.take(n),
                targets: if self.task == MITask::Regression {
                    answers.skip(n)
                } else {
                    select_kbest::row_targets(self.rows)
                },
                entries: Seq::empty(),
            },
            StageView::Measuring { values, targets, entries } => {
                let more = entries.push(self.entry(values, targets, entries.len() as int, answers));
                if more.len() < n {
                    StageView::Measuring { values, targets, entries: more }
                } else {
                    StageView::Estimating(more)
                }
            },
            StageView::Estimating(_) => StageView::Scored(answers[0]),
            StageView::Scored(d) => StageView::Scored(d),
        };
        ScorerView { stage, ..self }
    }
}

/// A feature or target that never changes, and a feature with fewer than two
/// usable rows, scores zero.
pub proof fn law_uninformative(rows: Seq<(Double, Double)>, task: MITask, neighbors: nat)
    requires
        rows.len() < 2 || (forall|i: int, j: int|
            0 <= i < rows.len() && 0 <= j < rows.len() ==> (#[trigger] rows[i]).0.equals(
                (#[trigger] rows[j]).0,
            )) || (forall|i: int, j: int|
            0 <= i < rows.len() && 0 <= j < rows.len() ==> (#[trigger] rows[i]).1.equals(
                (#[trigger] rows[j]).1,
            )),
    ensures
        ScorerView::begun(rows, task, neighbors).stage == StageView::Scored(Double { bits: 0 }),
{
    if rows.len() >= 2 {
        let values = select_kbest::row_values(rows);
        let targets = select_kbest::row_targets(rows);
        if forall|i: int, j: int|
            0 <= i < rows.len() && 0 <= j < rows.len() ==> (#[trigger] rows[i]).0.equals(
                (#[trigger] rows[j]).0,
            ) {
            assert forall|i: int, j: int|
                0 <= i < values.len() && 0 <= j < values.len() implies (#[trigger]
            values[i]).equals(#[trigger] values[j]) by {
                assert(rows[i].0.equals(rows[j].0));
            }
            lemma_constant(values);
        } else {
            assert forall|i: int, j: int|
                0 <= i < targets.len() && 0 <= j < targets.len() implies (#[trigger]
            targets[i]).equals(#[trigger] targets[j]) by {
                assert(rows[i].1.equals(rows[j].1));
            }
            lemma_constant(targets);
        }
    }
}

/// The extremes of equal numbers are those numbers.
proof fn lemma_constant(list: Seq<Double>)
    requires
        list.len() > 0,
        forall|i: int, j: int|
            0 <= i < list.len() && 0 <= j < list.len() ==> (#[trigger] list[i]).equals(
                #[trigger] list[j],
            ),
    ensures
        !lowest(list).below(highest(list)),
        lowest(list).rank() == list[0].rank(),
        highest(list).rank() == list[0].rank(),
    decreases list.len(),
{
    assert(list[0].equals(list[0]));
    assert(list[list.len() - 1].equals(list[0]));
    let front = list.drop_last();
    lemma_extremes(front);
    lemma_extremes(list);
    if list.len() > 1 {
        assert forall|i: int, j: int|
            0 <= i < front.len() && 0 <= j < front.len() implies (#[trigger] front[i]).equals(
            #[trigger] front[j],
        ) by {
            assert(list[i].equals(list[j]));
        }
        lemma_constant(front);
        assert(front[0] == list[0]);
    } else {
        assert(front =~= Seq::empty());
        assert(lowest(front) == (Double { bits: crate::double::INFINITE }));
        assert(highest(front) == (Double { bits: crate::double::NEGATIVE_INFINITE }));
        assert(-crate::double::INFINITE <= list[0].rank() <= crate::double::INFINITE);
    }
}

/// Extremes are no NaN.
proof fn lemma_extremes(list: Seq<Double>)
    ensures
        !lowest(list).nan(),
        !highest(list).nan(),
        lowest(list).rank() <= crate::double::INFINITE,
        highest(list).rank() >= -crate::double::INFINITE,
    decreases list.len(),
{
    if list.len() > 0 {
        lemma_extremes(list.drop_last());
    }
}

/// What is counted for a row that shares its label: at least one neighbour, at
/// least two rows with the label, and at least the row itself within the
/// distance, where its distance from itself is zero.
pub proof fn law_entry_counts(
    away: Seq<Double>,
    labels: Seq<Double>,
    neighbors: nat,
    i: int,
)
    requires
        0 <= i < labels.len() <= u64::MAX,
        away.len() == labels.len(),
        away[i] == (Double { bits: 0 }),
        label_count(labels, i) >= 2,
    ensures
        label_entry(away, labels, neighbors, i) matches Entry::Labelled(k, c, m) && 1 <= k < c
            && c == label_count(labels, i) && 1 <= m <= labels.len(),
{
    let c = label_count(labels, i);
    let k = clamped(neighbors, 1, (c - 1) as nat);
    let radius = shrunk(nearest(label_distances(away, labels, i, labels.len()), k));
    count::lemma_counted(labels.len(), labelled(labels, i), i);
    assert(inside(away, radius)(i)) by {
        assert(!(Double { bits: 0u64 }).nan());
    }
    count::lemma_counted(labels.len(), inside(away, radius), i);
}

/// Whether another row has the label of row `i` and the given distance.
spec fn label_at(
    away: Seq<Double>,
    labels: Seq<Double>,
    i: int,
    d: Double,
) -> spec_fn(int) -> bool {
    |j: int| j != i && labels[j].equals(labels[i]) && away[j] == d
}

/// How often a distance is among those of the other rows with a label.
proof fn lemma_distance_count(away: Seq<Double>, labels: Seq<Double>, i: int, n: nat, d: Double)
    ensures
        label_distances(away, labels, i, n).to_multiset().count(d) == count::counted(
            n,
            label_at(away, labels, i, d),
        ),
    decreases n,
{
    broadcast use vstd::seq_lib::group_to_multiset_ensures;

    if n > 0 {
        let front = label_distances(away, labels, i, (n - 1) as nat);
        lemma_distance_count(away, labels, i, (n - 1) as nat, d);
        if n - 1 != i && labels[n - 1].equals(labels[i]) {
            assert(front.push(away[n - 1]).to_multiset() =~= front.to_multiset().insert(
                away[n - 1],
            ));
        }
    }
}

/// What is counted for a row against labels does not depend on the order of
/// the rows.
pub proof fn law_labelled_rows_in_any_order(
    away: Seq<Double>,
    labels: Seq<Double>,
    neighbors: nat,
    p: Seq<int>,
    i: int,
)
    requires
        order::covers(p, 0, labels.len() as int),
        away.len() == labels.len(),
        0 <= i < labels.len(),
    ensures
        label_entry(doubles::arranged(away, p), doubles::arranged(labels, p), neighbors, i)
            == label_entry(away, labels, neighbors, p[i]),
{
    let n = labels.len();
    let far = doubles::arranged(away, p);
    let tags = doubles::arranged(labels, p);
    count::lemma_covering(p, n);
    count::law_any_order(n, labelled(labels, p[i]), p);
    count::lemma_agreeing(n, labelled(tags, i), count::at(labelled(labels, p[i]), p));
    let c = label_count(labels, p[i]);
    if c >= 2 {
        let all = label_distances(away, labels, p[i], n);
        let some = label_distances(far, tags, i, n);
        assert forall|d: Double| some.to_multiset().count(d) == #[trigger] all.to_multiset().count(
            d,
        ) by {
            let has = label_at(away, labels, p[i], d);
            lemma_distance_count(away, labels, p[i], n, d);
            lemma_distance_count(far, tags, i, n, d);
            assert forall|j: int| 0 <= j < n implies #[trigger] label_at(far, tags, i, d)(j)
                == count::at(has, p)(j) by {
                assert(j != i ==> p[j] != p[i]);
            }
            count::lemma_agreeing(n, label_at(far, tags, i, d), count::at(has, p));
            count::law_any_order(n, has, p);
        }
        assert(some.to_multiset() =~= all.to_multiset());
        doubles::law_ascending_of_same(some, all);
        let k = clamped(neighbors, 1, (c - 1) as nat);
        let radius = shrunk(nearest(all, k));
        count::law_any_order(n, inside(away, radius), p);
        count::lemma_agreeing(n, inside(far, radius), count::at(inside(away, radius), p));
    }
}

/// What is counted for a row against numbers does not depend on the order of
/// the rows.
pub proof fn law_joint_rows_in_any_order(
    across: Seq<Double>,
    along: Seq<Double>,
    neighbors: nat,
    p: Seq<int>,
    i: int,
)
    requires
        order::covers(p, 0, across.len() as int),
        along.len() == across.len(),
        0 <= i < across.len(),
    ensures
        joint_entry(doubles::arranged(across, p), doubles::arranged(along, p), neighbors, i)
            == joint_entry(across, along, neighbors, p[i]),
{
    let n = across.len();
    let x = doubles::arranged(across, p);
    let y = doubles::arranged(along, p);
    let all = joint(across, along, p[i]);
    count::lemma_covering(p, n);
    assert(joint(x, y, i) =~= doubles::arranged(all, p)) by {
        assert forall|j: int| 0 <= j < n implies #[trigger] joint(x, y, i)[j] == all[p[j]] by {
            assert(0 <= p[j] < n);
            assert(j != i ==> p[j] != p[i]);
        }
    }
    doubles::lemma_arranged(all, p);
    doubles::law_ascending_of_same(joint(x, y, i), all);
    let radius = nearest(all, clamped(neighbors, 1, (n - 1) as nat));
    lemma_closer_in_any_order(across, radius, p, i);
    lemma_closer_in_any_order(along, radius, p, i);
}

/// How many other rows are closer does not depend on the order of the rows.
proof fn lemma_closer_in_any_order(away: Seq<Double>, radius: Double, p: Seq<int>, i: int)
    requires
        order::covers(p, 0, away.len() as int),
        0 <= i < away.len(),
    ensures
        count::counted(away.len(), closer(doubles::arranged(away, p), radius, i))
            == count::counted(away.len(), closer(away, radius, p[i])),
{
    let n = away.len();
    let far = doubles::arranged(away, p);
    let has = closer(away, radius, p[i]);
    count::lemma_covering(p, n);
    assert forall|j: int| 0 <= j < n implies #[trigger] closer(far, radius, i)(j) == count::at(
        has,
        p,
    )(j) by {
        assert(j != i ==> p[j] != p[i]);
    }
    count::lemma_agreeing(n, closer(far, radius, i), count::at(has, p));
    count::law_any_order(n, has, p);
}

/// Usable rows are finite, and no more than there are.
pub proof fn lemma_usable(cells: Seq<Option<Double>>, targets: Seq<Option<Double>>, n: nat)
    ensures
        usable(cells, targets, n).len() <= n,
        forall|k: int|
            0 <= k < usable(cells, targets, n).len() ==> (#[trigger] usable(
                cells,
                targets,
                n,
            )[k]).0.finite() && usable(cells, targets, n)[k].1.finite(),
    decreases n,
{
    if n > 0 {
        lemma_usable(cells, targets, (n - 1) as nat);
        let front = usable(cells, targets, (n - 1) as nat);
        let all = usable(cells, targets, n);
        assert forall|k: int| 0 <= k < all.len() implies (#[trigger] all[k]).0.finite()
            && all[k].1.finite() by {
            if k < front.len() {
                assert(all[k] == front[k]);
            }
        }
    }
}

/// The rows of which both the value and the target are finite.
fn usable_rows(cells: &Vec<Option<Double>>, targets: &Vec<Option<Double>>) -> (r: Vec<
    (Double, Double),
>)
    requires
        cells.len() == targets.len(),
    ensures
        r@ == usable(cells@, targets@, cells@.len()),
{
    let mut r: Vec<(Double, Double)> = Vec::new();
    let mut i: usize = 0;
    while i < cells.len()
        invariant
            i <= cells.len(),
            cells.len() == targets.len(),
            r@ == usable(cells@, targets@, i as nat),
        decreases cells.len() - i,
    {
        match (cells[i], targets[i]) {
            (Some(v), Some(t)) => {
                if v.is_finite() && t.is_finite() {
                    r.push((v, t));
                }
            },
            _ => {},
        }
        i += 1;
    }
    r
}

/// The least and the greatest of a list.
fn range_of(list: &Vec<Double>) -> (r: (Double, Double))
    ensures
        r.0 == lowest(list@),
        r.1 == highest(list@),
{
    let mut low: Double = Double { bits: crate::double::INFINITE };
    let mut high: Double = Double { bits: crate::double::NEGATIVE_INFINITE };
    let mut i: usize = 0;
    assert(list@.take(0) =~= Seq::<Double>::empty());
    while i < list.len()
        invariant
            i <= list.len(),
            low == lowest(list@.take(i as int)),
            high == highest(list@.take(i as int)),
        decreases list.len() - i,
    {
        assert(list@.take(i + 1).drop_last() =~= list@.take(i as int));
        if list[i].is_below(low) {
            low = list[i];
        }
        if high.is_below(list[i]) {
            high = list[i];
        }
        i += 1;
    }
    assert(list@.take(i as int) =~= list@);
    (low, high)
}

/// Appends a list, scaled to span zero to one.
fn append_scaled(list: &Vec<Double>, program: &mut Program) -> (r: Vec<usize>)
    ensures
        program::extends(old(program)@, final(program)@),
        program::stand_for(r@, scaled_list(list@), final(program)@),
{
    let ghost wanted = scaled_list(list@);
    let (lo, hi) = range_of(list);
    let low: usize = program.append(Operation::Value(lo));
    let high: usize = program.append(Operation::Value(hi));
    let span: usize = program.append(Operation::Minus(high, low));
    let mut r: Vec<usize> = Vec::new();
    let mut i: usize = 0;
    while i < list.len()
        invariant
            i <= list.len(),
            program::extends(old(program)@, program@),
            wanted == scaled_list(list@),
            low < program@.len(),
            program@[low as int] == Term::Value(lowest(list@)),
            span < program@.len(),
            program@[span as int] == Term::Minus(
                Box::new(Term::Value(highest(list@))),
                Box::new(Term::Value(lowest(list@))),
            ),
            r.len() == i,
            forall|k: int|
                0 <= k < i ==> (#[trigger] r@[k]) < program@.len() && program@[r@[k] as int]
                    == wanted[k],
        decreases list.len() - i,
    {
        let v: usize = program.append(Operation::Value(list[i]));
        let d: usize = program.append(Operation::Minus(v, low));
        let at: usize = program.append(Operation::Over(d, span));
        assert(program@[at as int] == wanted[i as int]);
        r.push(at);
        i += 1;
    }
    r
}

/// Appends the distances of the numbers of a list from number `i`.
fn append_distances(list: &Vec<Double>, i: usize, program: &mut Program) -> (r: Vec<usize>)
    requires
        i < list.len(),
    ensures
        program::extends(old(program)@, final(program)@),
        program::stand_for(r@, distances(list@, i as int), final(program)@),
{
    let ghost wanted = distances(list@, i as int);
    let center: usize = program.append(Operation::Value(list[i]));
    let mut r: Vec<usize> = Vec::new();
    let mut j: usize = 0;
    while j < list.len()
        invariant
            j <= list.len(),
            i < list.len(),
            program::extends(old(program)@, program@),
            wanted == distances(list@, i as int),
            center < program@.len(),
            program@[center as int] == Term::Value(list@[i as int]),
            r.len() == j,
            forall|k: int|
                0 <= k < j ==> (#[trigger] r@[k]) < program@.len() && program@[r@[k] as int]
                    == wanted[k],
        decreases list.len() - j,
    {
        let v: usize = program.append(Operation::Value(list[j]));
        let d: usize = program.append(Operation::Minus(center, v));
        let at: usize = program.append(Operation::Magnitude(d));
        assert(program@[at as int] == wanted[j as int]);
        r.push(at);
        j += 1;
    }
    r
}

/// Two lists of places, one after the other.
fn join(a: Vec<usize>, b: &Vec<usize>) -> (r: Vec<usize>)
    ensures
        r@ == a@ + b@,
{
    let ghost first = a@;
    let mut r: Vec<usize> = a;
    let mut i: usize = 0;
    assert(first + b@.take(0) =~= first);
    while i < b.len()
        invariant
            i <= b.len(),
            r@ == first + b@.take(i as int),
        decreases b.len() - i,
    {
        assert(first + b@.take(i + 1) =~= (first + b@.take(i as int)).push(b@[i as int]));
        r.push(b[i]);
        i += 1;
    }
    assert(b@.take(i as int) =~= b@);
    r
}

/// How many rows have the label of row `i`.
fn count_labels(labels: &Vec<Double>, i: usize) -> (r: usize)
    requires
        i < labels.len(),
    ensures
        r == label_count(labels@, i as int),
{
    let ghost p = labelled(labels@, i as int);
    let mut r: usize = 0;
    let mut j: usize = 0;
    while j < labels.len()
        invariant
            j <= labels.len(),
            i < labels.len(),
            p == labelled(labels@, i as int),
            r == count::counted(j as nat, p),
            r <= j,
        decreases labels.len() - j,
    {
        if labels[j].is_equal(labels[i]) {
            r += 1;
        }
        j += 1;
    }
    r
}

/// The distances from row `i` of the other rows with its label.
fn gather(away: &Vec<Double>, labels: &Vec<Double>, i: usize) -> (r: Vec<Double>)
    requires
        i < labels.len(),
        away.len() == labels.len(),
    ensures
        r@ == label_distances(away@, labels@, i as int, labels@.len()),
{
    let mut r: Vec<Double> = Vec::new();
    let mut j: usize = 0;
    while j < labels.len()
        invariant
            j <= labels.len(),
            i < labels.len(),
            away.len() == labels.len(),
            r@ == label_distances(away@, labels@, i as int, j as nat),
        decreases labels.len() - j,
    {
        if j != i && labels[j].is_equal(labels[i]) {
            r.push(away[j]);
        }
        j += 1;
    }
    r
}

/// There is a distance for each other row with the label.
pub proof fn lemma_label_distances(away: Seq<Double>, labels: Seq<Double>, i: int, n: nat)
    requires
        0 <= i < labels.len(),
        n <= labels.len(),
        !labels[i].nan(),
    ensures
        label_distances(away, labels, i, n).len() + if i < n {
            1int
        } else {
            0int
        } == count::counted(n, labelled(labels, i)),
    decreases n,
{
    if n > 0 {
        lemma_label_distances(away, labels, i, (n - 1) as nat);
    }
}

/// The `k`-th least of a list.
fn find_nearest(list: &Vec<Double>, k: usize) -> (r: Double)
    requires
        1 <= k <= list.len(),
    ensures
        r == nearest(list@, k as nat),
{
    let sorted: Vec<Double> = doubles::sort(list);
    proof {
        doubles::law_ascending(list@);
    }
    sorted[k - 1]
}

/// The number just below a distance; zero for zero.
fn shrink(d: Double) -> (r: Double)
    ensures
        r == shrunk(d),
{
    if Double::zero().is_below(d) {
        Double { bits: d.bits - 1 }
    } else {
        Double::zero()
    }
}

/// How many rows are within a radius.
fn count_inside(away: &Vec<Double>, radius: Double) -> (r: usize)
    ensures
        r == count::counted(away@.len(), inside(away@, radius)),
{
    let ghost p = inside(away@, radius);
    let mut r: usize = 0;
    let mut j: usize = 0;
    while j < away.len()
        invariant
            j <= away.len(),
            p == inside(away@, radius),
            r == count::counted(j as nat, p),
            r <= j,
        decreases away.len() - j,
    {
        if away[j].is_below(radius) || away[j].is_equal(radius) {
            r += 1;
        }
        j += 1;
    }
    r
}

/// How many other rows are closer than a radius.
fn count_closer(away: &Vec<Double>, radius: Double, i: usize) -> (r: usize)
    requires
        i < away.len(),
    ensures
        r == count::counted(away@.len(), closer(away@, radius, i as int)),
        r < away.len(),
{
    let ghost p = closer(away@, radius, i as int);
    let mut r: usize = 0;
    let mut j: usize = 0;
    while j < away.len()
        invariant
            j <= away.len(),
            i < away.len(),
            p == closer(away@, radius, i as int),
            r == count::counted(j as nat, p),
            r <= j,
            j > i ==> r < j,
        decreases away.len() - j,
    {
        if j != i && away[j].is_below(radius) {
            r += 1;
        }
        j += 1;
    }
    r
}

/// A number moved into a range.
fn clamp(n: usize, low: usize, high: usize) -> (r: usize)
    requires
        low <= high,
    ensures
        r == clamped(n as nat, low as nat, high as nat),
        low <= r <= high,
{
    if n < low {
        low
    } else if n > high {
        high
    } else {
        n
    }
}

/// What is counted for row `i` against labels.
fn count_label_entry(away: &Vec<Double>, labels: &Vec<Double>, neighbors: usize, i: usize) -> (r:
    Entry)
    requires
        i < labels.len(),
        away.len() == labels.len(),
        !labels@[i as int].nan(),
    ensures
        r == label_entry(away@, labels@, neighbors as nat, i as int),
{
    let c: usize = count_labels(labels, i);
    if c < 2 {
        return Entry::Alone;
    }
    let k: usize = clamp(neighbors, 1, c - 1);
    let list: Vec<Double> = gather(away, labels, i);
    proof {
        lemma_label_distances(away@, labels@, i as int, labels@.len());
    }
    let radius: Double = shrink(find_nearest(&list, k));
    let m: usize = count_inside(away, radius);
    Entry::Labelled(k as u64, c as u64, m as u64)
}

/// What is counted for row `i` against numbers.
fn count_joint_entry(across: &Vec<Double>, along: &Vec<Double>, neighbors: usize, i: usize) -> (r:
    Entry)
    requires
        i < across.len(),
        across.len() == along.len(),
        across.len() >= 2,
    ensures
        r == joint_entry(across@, along@, neighbors as nat, i as int),
        r matches Entry::Joint(a, b) && a < across.len() && b < across.len(),
{
    let n: usize = across.len();
    let mut both: Vec<Double> = Vec::new();
    let mut j: usize = 0;
    while j < n
        invariant
            j <= n,
            n == across.len(),
            n == along.len(),
            both.len() == j,
            forall|k: int|
                0 <= k < j ==> #[trigger] both@[k] == joint(across@, along@, i as int)[k],
        decreases n - j,
    {
        let d: Double = if j == i {
            Double { bits: crate::double::INFINITE }
        } else if across[j].is_nan() {
            along[j]
        } else if across[j].is_below(along[j]) {
            along[j]
        } else {
            across[j]
        };
        both.push(d);
        j += 1;
    }
    assert(both@ =~= joint(across@, along@, i as int));
    let k: usize = clamp(neighbors, 1, n - 1);
    let radius: Double = find_nearest(&both, k);
    let a: usize = count_closer(across, radius, i);
    let b: usize = count_closer(along, radius, i);
    Entry::Joint(a as u64, b as u64)
}

/// Appends the digamma function at a count.
fn append_psi(n: u64, program: &mut Program) -> (r: usize)
    ensures
        program::extends(old(program)@, final(program)@),
        r < final(program)@.len(),
        final(program)@[r as int] == psi(n as nat),
{
    let count: usize = program.append(Operation::Natural(n));
    program.append(Operation::Digamma(count))
}

/// Appends the estimate against labels.
fn append_label_estimate(entries: &Vec<Entry>, program: &mut Program) -> (r: usize)
    ensures
        program::extends(old(program)@, final(program)@),
        r < final(program)@.len(),
        final(program)@[r as int] == label_estimate(entries@),
{
    let zero: usize = program.append(Operation::Value(Double::zero()));
    let mut k_sum: usize = zero;
    let mut c_sum: usize = zero;
    let mut m_sum: usize = zero;
    let mut scored: usize = 0;
    let mut i: usize = 0;
    assert(entries@.take(0) =~= Seq::<Entry>::empty());
    while i < entries.len()
        invariant
            i <= entries.len(),
            program::extends(old(program)@, program@),
            scored == shared(entries@.take(i as int)).len(),
            scored <= i,
            zero < program@.len(),
            program@[zero as int] == program::nothing(),
            k_sum < program@.len(),
            program@[k_sum as int] == program::running_sum(
                neighbor_psis(shared(entries@.take(i as int))),
            ),
            c_sum < program@.len(),
            program@[c_sum as int] == program::running_sum(
                label_psis(shared(entries@.take(i as int))),
            ),
            m_sum < program@.len(),
            program@[m_sum as int] == program::running_sum(
                inside_psis(shared(entries@.take(i as int))),
            ),
        decreases entries.len() - i,
    {
        let ghost before = shared(entries@.take(i as int));
        let ghost after = shared(entries@.take(i + 1));
        assert(entries@.take(i + 1).drop_last() =~= entries@.take(i as int));
        match entries[i] {
            Entry::Labelled(k, c, m) => {
                proof {
                    assert(after == before.push((k as nat, c as nat, m as nat)));
                    assert(neighbor_psis(after).drop_last() =~= neighbor_psis(before));
                    assert(label_psis(after).drop_last() =~= label_psis(before));
                    assert(inside_psis(after).drop_last() =~= inside_psis(before));
                }
                let a: usize = append_psi(k, program);
                let b: usize = append_psi(c, program);
                let d: usize = append_psi(m, program);
                k_sum = program.append(Operation::Plus(k_sum, a));
                c_sum = program.append(Operation::Plus(c_sum, b));
                m_sum = program.append(Operation::Plus(m_sum, d));
                scored += 1;
            },
            _ => {},
        }
        i += 1;
    }
    assert(entries@.take(i as int) =~= entries@);
    if scored == 0 {
        return zero;
    }
    let own: usize = append_psi(scored as u64, program);
    let first: usize = program.append(Operation::Minus(k_sum, c_sum));
    let second: usize = program.append(Operation::Minus(first, m_sum));
    let count: usize = program.append(Operation::Natural(scored as u64));
    let mean: usize = program.append(Operation::Over(second, count));
    program.append(Operation::Plus(own, mean))
}

/// Appends the estimate against numbers.
fn append_joint_estimate(entries: &Vec<Entry>, neighbors: usize, program: &mut Program) -> (r:
    usize)
    requires
        entries.len() >= 2,
        forall|i: int|
            0 <= i < entries.len() ==> (#[trigger] entries@[i] matches Entry::Joint(a, b) ==> a
                < u64::MAX && b < u64::MAX),
    ensures
        program::extends(old(program)@, final(program)@),
        r < final(program)@.len(),
        final(program)@[r as int] == joint_estimate(entries@, neighbors as nat),
{
    let ghost parts = margins(entries@);
    let mut total: usize = program.append(Operation::Value(Double::zero()));
    let mut i: usize = 0;
    assert(parts.take(0) =~= Seq::<Term>::empty());
    while i < entries.len()
        invariant
            i <= entries.len(),
            forall|j: int|
                0 <= j < entries.len() ==> (#[trigger] entries@[j] matches Entry::Joint(a, b) ==> a
                    < u64::MAX && b < u64::MAX),
            program::extends(old(program)@, program@),
            parts == margins(entries@),
            total < program@.len(),
            program@[total as int] == program::running_sum(parts.take(i as int)),
        decreases entries.len() - i,
    {
        assert(parts.take(i + 1).drop_last() =~= parts.take(i as int));
        let ghost e = entries@[i as int];
        let part: usize = match entries[i] {
            Entry::Joint(a, b) => {
                assert(e == Entry::Joint(a, b));
                let first: usize = append_psi(a + 1, program);
                let second: usize = append_psi(b + 1, program);
                program.append(Operation::Plus(first, second))
            },
            _ => program.append(Operation::Value(Double::zero())),
        };
        assert(program@[part as int] == parts[i as int]);
        total = program.append(Operation::Plus(total, part));
        i += 1;
    }
    assert(parts.take(i as int) =~= parts);
    let n: usize = entries.len();
    let k: usize = clamp(neighbors, 1, n - 1);
    let a: usize = append_psi(k as u64, program);
    let b: usize = append_psi(n as u64, program);
    let own: usize = program.append(Operation::Plus(a, b));
    let count: usize = program.append(Operation::Natural(n as u64));
    let mean: usize = program.append(Operation::Over(total, count));
    program.append(Operation::Minus(own, mean))
}

/// How far the scoring of a feature has come.
enum Stage {
    Scaling,
    Measuring { values: Vec<Double>, targets: Vec<Double>, entries: Vec<Entry> },
    Estimating(Vec<Entry>),
    Scored(Double),
}

impl Stage {
    spec fn view(self) -> StageView {
        match self {
            Stage::Scaling => StageView::Scaling,
            Stage::Measuring { values, targets, entries } => StageView::Measuring {
                values: values@,
                targets: targets@,
                entries: entries@,
            },
            Stage::Estimating(entries) => StageView::Estimating(entries@),
            Stage::Scored(d) => StageView::Scored(d),
        }
    }
}

/// Whether entries can be counted one further.
spec fn countable(entries: Seq<Entry>) -> bool {
    forall|i: int|
        0 <= i < entries.len() ==> (#[trigger] entries[i] matches Entry::Joint(a, b) ==> a
            < u64::MAX && b < u64::MAX)
}

/// What holds of every scoring.
spec fn sound(view: ScorerView) -> bool {
    let n = view.rows.len();
    &&& n <= frame::MOST_ROWS
    &&& forall|k: int|
        0 <= k < n ==> (#[trigger] view.rows[k]).0.finite() && view.rows[k].1.finite()
    &&& match view.stage {
        StageView::Scaling => n >= 2,
        StageView::Measuring { values, targets, entries } => {
            &&& n >= 2
            &&& values.len() == n
            &&& targets.len() == n
            &&& entries.len() < n
            &&& countable(entries)
            &&& view.task == MITask::Classification ==> targets == select_kbest::row_targets(
                view.rows,
            )
        },
        StageView::Estimating(entries) => n >= 2 && entries.len() == n && countable(entries),
        StageView::Scored(_) => true,
    }
}

/// Scores one feature. It asks for numbers, and goes on with the answers.
pub struct FeatureScorer {
    rows: Vec<(Double, Double)>,
    task: MITask,
    neighbors: usize,
    stage: Stage,
    query: Query,
}

impl View for FeatureScorer {
    type V = ScorerView;

    closed spec fn view(&self) -> ScorerView {
        ScorerView {
            rows: self.rows@,
            task: self.task,
            neighbors: self.neighbors as nat,
            stage: self.stage.view(),
        }
    }
}

impl FeatureScorer {
    #[verifier::type_invariant]
    spec fn well_formed(self) -> bool {
        sound(self@) && self.query@ == self@.asked()
    }

    /// A scoring at a stage, with what it asks for there.
    fn at(rows: Vec<(Double, Double)>, task: MITask, neighbors: usize, stage: Stage) -> (r:
        FeatureScorer)
        requires
            sound(
                ScorerView {
                    rows: rows@,
                    task,
                    neighbors: neighbors as nat,
                    stage: stage.view(),
                },
            ),
        ensures
            r@ == (ScorerView {
                rows: rows@,
                task,
                neighbors: neighbors as nat,
                stage: stage.view(),
            }),
    {
        let ghost view = ScorerView {
            rows: rows@,
            task,
            neighbors: neighbors as nat,
            stage: stage.view(),
        };
        let joint: bool = match task {
            MITask::Regression => true,
            MITask::Classification => false,
        };
        let mut program: Program = Program::new();
        let places: Vec<usize> = match &stage {
            Stage::Scaling => {
                let values: Vec<Double> = select_kbest::values_of(&rows);
                let first: Vec<usize> = append_scaled(&values, &mut program);
                if joint {
                    let ghost held = program@;
                    let targets: Vec<Double> = select_kbest::targets_of(&rows);
                    let second: Vec<usize> = append_scaled(&targets, &mut program);
                    proof {
                        program::lemma_stand_for(
                            first@,
                            scaled_list(values@),
                            held,
                            program@,
                        );
                    }
                    join(first, &second)
                } else {
                    first
                }
            },
            Stage::Measuring { values, targets, entries } => {
                let i: usize = entries.len();
                let first: Vec<usize> = append_distances(values, i, &mut program);
                if joint {
                    let ghost held = program@;
                    let second: Vec<usize> = append_distances(targets, i, &mut program);
                    proof {
                        program::lemma_stand_for(
                            first@,
                            distances(values@, i as int),
                            held,
                            program@,
                        );
                    }
                    join(first, &second)
                } else {
                    first
                }
            },
            Stage::Estimating(entries) => {
                let raw: usize = if joint {
                    append_joint_estimate(entries, neighbors, &mut program)
                } else {
                    append_label_estimate(entries, &mut program)
                };
                let zero: usize = program.append(Operation::Value(Double::zero()));
                let at: usize = program.append(Operation::Greater(raw, zero));
                let mut one: Vec<usize> = Vec::new();
                one.push(at);
                one
            },
            Stage::Scored(_) => Vec::new(),
        };
        assert(program::stand_for(places@, view.asked(), program@));
        let query: Query = Query::new(program, places);
        assert(query@ =~= view.asked());
        FeatureScorer { rows, task, neighbors, stage, query }
    }

    /// Begins to score a feature with the given cells against targets.
    pub fn begin(
        cells: &Vec<Option<Double>>,
        targets: &Vec<Option<Double>>,
        task: MITask,
        neighbors: usize,
    ) -> (r: FeatureScorer)
        requires
            cells.len() == targets.len(),
            cells.len() <= frame::MOST_ROWS,
        ensures
            r@ == ScorerView::begun(
                usable(cells@, targets@, cells@.len()),
                task,
                neighbors as nat,
            ),
    {
        let rows: Vec<(Double, Double)> = usable_rows(cells, targets);
        proof {
            lemma_usable(cells@, targets@, cells@.len());
        }
        let zero: Double = Double::zero();
        let stage: Stage = if rows.len() < 2 {
            Stage::Scored(zero)
        } else {
            let values: Vec<Double> = select_kbest::values_of(&rows);
            let list: Vec<Double> = select_kbest::targets_of(&rows);
            let (x_low, x_high) = range_of(&values);
            let (y_low, y_high) = range_of(&list);
            if !x_low.is_below(x_high) || !y_low.is_below(y_high) {
                Stage::Scored(zero)
            } else {
                Stage::Scaling
            }
        };
        FeatureScorer::at(rows, task, neighbors, stage)
    }

    /// What the scoring asks for.
    pub fn query(&self) -> (r: &Query)
        ensures
            r@ == self@.asked(),
    {
        proof {
            use_type_invariant(self);
        }
        &self.query
    }

    /// The score, where the scoring is done.
    pub fn score(&self) -> (r: Option<Double>)
        ensures
            r == match self@.stage {
                StageView::Scored(d) => Some(d),
                _ => None,
            },
    {
        match &self.stage {
            Stage::Scored(d) => Some(*d),
            _ => None,
        }
    }

    /// Goes on with the answers, in the order in which they were asked for.
    pub fn advance(self, answers: &Vec<Double>) -> (r: FeatureScorer)
        requires
            answers.len() == self@.asked().len(),
        ensures
            r@ == self@.next(answers@),
    {
        proof {
            use_type_invariant(&self);
        }
        let ghost before = self@;
        let FeatureScorer { rows, task, neighbors, stage, query } = self;
        let n: usize = rows.len();
        let joint: bool = match task {
            MITask::Regression => true,
            MITask::Classification => false,
        };
        let next: Stage = match stage {
            Stage::Scaling => {
                let values: Vec<Double> = copy_range(answers, 0, n);
                assert(values@ =~= answers@.take(n as int));
                let targets: Vec<Double> = if joint {
                    let rest: Vec<Double> = copy_range(answers, n, answers.len());
                    assert(rest@ =~= answers@.skip(n as int));
                    rest
                } else {
                    select_kbest::targets_of(&rows)
                };
                Stage::Measuring { values, targets, entries: Vec::new() }
            },
            Stage::Measuring { values, targets, entries } => {
                let i: usize = entries.len();
                let entry: Entry = if joint {
                    let across: Vec<Double> = copy_range(answers, 0, n);
                    let along: Vec<Double> = copy_range(answers, n, answers.len());
                    assert(across@ =~= answers@.take(n as int));
                    assert(along@ =~= answers@.skip(n as int));
                    count_joint_entry(&across, &along, neighbors, i)
                } else {
                    assert(targets@[i as int] == rows@[i as int].1);
                    count_label_entry(answers, &targets, neighbors, i)
                };
                let mut more: Vec<Entry> = entries;
                more.push(entry);
                assert(countable(more@)) by {
                    assert forall|k: int| 0 <= k < more.len() implies (#[trigger] more@[k] matches
                    Entry::Joint(a, b) ==> a < u64::MAX && b < u64::MAX) by {
                        if k < i {
                            assert(more@[k] == entries@[k]);
                        }
                    }
                }
                if more.len() < n {
                    Stage::Measuring { values, targets, entries: more }
                } else {
                    Stage::Estimating(more)
                }
            },
            Stage::Estimating(_) => Stage::Scored(answers[0]),
            Stage::Scored(d) => Stage::Scored(d),
        };
        assert(next.view() =~= before.next(answers@).stage);
        FeatureScorer::at(rows, task, neighbors, next)
    }
}

/// A part of a list.
fn copy_range(list: &Vec<Double>, low: usize, high: usize) -> (r: Vec<Double>)
    requires
        low <= high <= list.len(),
    ensures
        r@ == list@.subrange(low as int, high as int),
{
    let mut r: Vec<Double> = Vec::new();
    let mut i: usize = low;
    while i < high
        invariant
            low <= i <= high <= list.len(),
            r@ == list@.subrange(low as int, i as int),
        decreases high - i,
    {
        r.push(list[i]);
        assert(list@.subrange(low as int, i + 1) =~= list@.subrange(low as int, i as int).push(
            list@[i as int],
        ));
        i += 1;
    }
    r
}

/// Why a selector cannot begin to score.
pub open spec fn information_fault(k: usize, x: FrameView, y: FrameView) -> Option<ErrorView> {
    let who = "MutualInformationSelector"@;
    if x.columns.len() == 0 {
        Some(ErrorView::plain(Problem::NoColumns, who))
    } else if x.height == 0 {
        Some(ErrorView::plain(Problem::NoRows, who))
    } else if k == 0 {
        Some(ErrorView::plain(Problem::InvalidCount, who))
    } else if y.columns.len() != 1 {
        Some(ErrorView::plain(Problem::ExpectedOneTarget(y.columns.len() as usize), who))
    } else if y.height != x.height {
        Some(
            ErrorView::plain(Problem::RowsDiffer(x.height as usize, y.height as usize), who),
        )
    } else if !(y.columns[0].values is Float64) {
        Some(
            ErrorView::detailed(
                Problem::ExpectedFloat64,
                who,
                y.columns[0].name,
                y.columns[0].values.dtype(),
            ),
        )
    } else {
        util::float_fault(who, x)
    }
}

/// The features of a frame at the beginning of their scoring, in order.
pub open spec fn begun_features(
    columns: Seq<frame::ColumnView>,
    targets: Seq<Option<Double>>,
    task: MITask,
    neighbors: nat,
) -> Seq<(Seq<char>, ScorerView)>
    decreases columns.len(),
{
    if columns.len() == 0 {
        Seq::empty()
    } else {
        let front = begun_features(columns.drop_last(), targets, task, neighbors);
        match columns.last().values {
            ValuesView::Float64(cells) => front.push(
                (
                    columns.last().name,
                    ScorerView::begun(usable(cells, targets, cells.len()), task, neighbors),
                ),
            ),
            _ => front,
        }
    }
}

/// The views of features that are being scored.
pub open spec fn scorer_views(list: Seq<(Text, FeatureScorer)>) -> Seq<(Seq<char>, ScorerView)> {
    Seq::new(list.len(), |i: int| (list[i].0@, list[i].1@))
}

/// What is selected of scored columns: the scores in order, and the names of
/// the first `k`.
pub open spec fn most_informative(scores: Seq<(Seq<char>, Double)>, k: nat) -> (
    Seq<(Seq<char>, Double)>,
    Seq<Seq<char>>,
) {
    let ranked = ranking::best_first_by_name(scores, false);
    (ranked, ranking::leaders(ranked, k))
}

/// The scores stand from high to low, and equal ones by name; the first `k`
/// columns are kept, or all where there are fewer.
pub proof fn law_most_informative(scores: Seq<(Seq<char>, Double)>, k: nat)
    ensures
        ({
            let (ranked, kept) = most_informative(scores, k);
            &&& ranked.len() == scores.len()
            &&& forall|s: (Seq<char>, Double)| #[trigger] ranked.contains(s) <==> scores.contains(s)
            &&& forall|i: int, j: int|
                0 <= i < j < ranked.len() ==> {
                    ||| (#[trigger] ranked[i]).1.total_rank() > (#[trigger] ranked[j]).1.total_rank()
                    ||| ranked[i].1.total_rank() == ranked[j].1.total_rank() && !text::less(
                        ranked[j].0,
                        ranked[i].0,
                    )
                }
            &&& kept.len() == if k < scores.len() {
                k
            } else {
                scores.len()
            }
            &&& forall|i: int| 0 <= i < kept.len() ==> #[trigger] kept[i] == ranked[i].0
        }),
{
    ranking::law_best_first_by_name(scores, false);
}

/// Selects the `k` columns with the most mutual information.
///
/// A fit has steps: [`fit`](MutualInformationSelector::fit) begins to score
/// each column, each [`FeatureScorer`] is brought to its score, and
/// [`finish_fit`](MutualInformationSelector::finish_fit) takes the scores.
pub struct MutualInformationSelector {
    k: usize,
    task: MITask,
    n_neighbors: usize,
    learned: Option<(Vec<(Text, Double)>, Vec<Text>)>,
}

impl MutualInformationSelector {
    /// The number of columns to keep.
    pub closed spec fn count(self) -> usize {
        self.k
    }

    /// What kind of target the columns are scored against.
    pub closed spec fn target(self) -> MITask {
        self.task
    }

    /// The number of neighbours that distances are taken to.
    pub closed spec fn neighbors(self) -> usize {
        self.n_neighbors
    }

    /// The scores in order, and the columns that are kept; none before a fit
    /// is finished.
    pub closed spec fn fitted(self) -> Option<(Seq<(Seq<char>, Double)>, Seq<Seq<char>>)> {
        match self.learned {
            Some(l) => Some((ranking::score_views(l.0@), text::views(l.1@))),
            None => None,
        }
    }

    /// A selector of ten columns, against labels, by three neighbours.
    pub fn new() -> (r: MutualInformationSelector)
        ensures
            r.fitted() is None,
            r.count() == 10,
            r.target() == MITask::Classification,
            r.neighbors() == 3,
    {
        MutualInformationSelector {
            k: 10,
            task: MITask::Classification,
            n_neighbors: 3,
            learned: None,
        }
    }

    /// Sets the number of columns to keep.
    pub fn k(self, k: usize) -> (r: MutualInformationSelector)
        ensures
            r.fitted() == self.fitted(),
            r.count() == k,
            r.target() == self.target(),
            r.neighbors() == self.neighbors(),
    {
        MutualInformationSelector { k, ..self }
    }

    /// Sets what kind of target the columns are scored against.
    pub fn task(self, t: MITask) -> (r: MutualInformationSelector)
        ensures
            r.fitted() == self.fitted(),
            r.count() == self.count(),
            r.target() == t,
            r.neighbors() == self.neighbors(),
    {
        MutualInformationSelector { task: t, ..self }
    }

    /// Sets the number of neighbours that distances are taken to.
    pub fn n_neighbors(self, n: usize) -> (r: MutualInformationSelector)
        ensures
            r.fitted() == self.fitted(),
            r.count() == self.count(),
            r.target() == self.target(),
            r.neighbors() == n,
    {
        MutualInformationSelector { n_neighbors: n, ..self }
    }

    /// The number of columns to keep.
    pub fn selected_k(&self) -> (r: usize)
        ensures
            r == self.count(),
    {
        self.k
    }

    /// What kind of target the columns are scored against.
    pub fn selected_task(&self) -> (r: MITask)
        ensures
            r == self.target(),
    {
        self.task
    }

    /// The number of neighbours that distances are taken to.
    pub fn selected_neighbors(&self) -> (r: usize)
        ensures
            r == self.neighbors(),
    {
        self.n_neighbors
    }

    /// The scores of the last finished fit, highest first.
    pub fn scores(&self) -> (r: Option<&Vec<(Text, Double)>>)
        ensures
            match r {
                Some(list) => self.fitted() is Some && ranking::score_views(list@) == (
                self.fitted()->0).0,
                None => self.fitted() is None,
            },
    {
        match &self.learned {
            Some(l) => Some(&l.0),
            None => None,
        }
    }

    /// Begins to score each column of numbers of `x` against the one column of
    /// `y`. The selector is unfitted until the fit is finished.
    pub fn fit(&mut self, x: &Frame, y: &Frame) -> (r: Result<Vec<(Text, FeatureScorer)>, Error>)
        ensures
            final(self).fitted() is None,
            final(self).count() == old(self).count(),
            final(self).target() == old(self).target(),
            final(self).neighbors() == old(self).neighbors(),
            match information_fault(old(self).count(), x@, y@) {
                Some(e) => r is Err && r->Err_0@ == e,
                None => r is Ok && scorer_views(r->Ok_0@) == begun_features(
                    x@.columns,
                    y@.columns[0].values->Float64_0,
                    old(self).target(),
                    old(self).neighbors() as nat,
                ),
            },
    {
        self.learned = None;
        if x.width() == 0 {
            return Err(Error::plain(Problem::NoColumns, "MutualInformationSelector"));
        }
        if x.height() == 0 {
            return Err(Error::plain(Problem::NoRows, "MutualInformationSelector"));
        }
        if self.k == 0 {
            return Err(Error::plain(Problem::InvalidCount, "MutualInformationSelector"));
        }
        if y.width() != 1 {
            return Err(
                Error::plain(Problem::ExpectedOneTarget(y.width()), "MutualInformationSelector"),
            );
        }
        if y.height() != x.height() {
            return Err(
                Error::plain(
                    Problem::RowsDiffer(x.height(), y.height()),
                    "MutualInformationSelector",
                ),
            );
        }
        let column: &frame::Column = y.column(0);
        let targets: &Vec<Option<Double>> = match &column.values {
            Values::Float64(targets) => targets,
            _ => {
                let dtype: Text = column.values.dtype();
                return Err(
                    Error::detailed(
                        Problem::ExpectedFloat64,
                        "MutualInformationSelector",
                        &column.name,
                        dtype,
                    ),
                );
            },
        };
        match util::require_f64_columns(x, "MutualInformationSelector") {
            Ok(_) => {},
            Err(e) => {
                return Err(e);
            },
        }
        let ghost columns = x@.columns;
        let ghost task = self.task;
        let ghost neighbors = self.n_neighbors as nat;
        let n: usize = x.width();
        let mut features: Vec<(Text, FeatureScorer)> = Vec::new();
        let mut c: usize = 0;
        proof {
            assert(y@.columns[0].values.len() == y@.height);
            assert(columns.take(0) =~= Seq::empty());
            assert(scorer_views(features@) =~= Seq::empty());
        }
        while c < n
            invariant
                c <= n,
                n == columns.len(),
                columns == x@.columns,
                x@.valid(),
                targets.len() == x@.height,
                task == self.task,
                neighbors == self.n_neighbors,
                scorer_views(features@) == begun_features(
                    columns.take(c as int),
                    targets@,
                    task,
                    neighbors,
                ),
            decreases n - c,
        {
            assert(columns.take(c + 1).drop_last() =~= columns.take(c as int));
            let feature: &frame::Column = x.column(c);
            match &feature.values {
                Values::Float64(cells) => {
                    assert(x@.columns[c as int].values.len() == x@.height);
                    let scorer: FeatureScorer = FeatureScorer::begin(
                        cells,
                        targets,
                        self.task,
                        self.n_neighbors,
                    );
                    let ghost before = scorer_views(features@);
                    let ghost view = (feature.name@, scorer@);
                    features.push((feature.name.duplicate(), scorer));
                    assert(scorer_views(features@) =~= before.push(view));
                },
                _ => {},
            }
            c += 1;
        }
        assert(columns.take(c as int) =~= columns);
        Ok(features)
    }

    /// Finishes a fit with the scores of the columns, in their order.
    pub fn finish_fit(&mut self, scores: &Vec<(Text, Double)>)
        ensures
            final(self).count() == old(self).count(),
            final(self).target() == old(self).target(),
            final(self).neighbors() == old(self).neighbors(),
            final(self).fitted() == Some(
                most_informative(ranking::score_views(scores@), old(self).count() as nat),
            ),
    {
        let ranked: Vec<(Text, Double)> = ranking::rank_by_name(scores, false);
        let selected: Vec<Text> = ranking::lead(&ranked, self.k);
        self.learned = Some((ranked, selected));
    }

    /// Keeps the selected columns, best first.
    pub fn transform(&self, x: &Frame) -> (r: Result<Sheet, Error>)
        ensures
            frame::outcome(r) == ranking::selection_outcome(
                "MutualInformationSelector"@,
                match self.fitted() {
                    Some(l) => Some(l.1),
                    None => None,
                },
                x@,
            ),
    {
        match &self.learned {
            None => Err(Error::plain(Problem::NotFitted, "MutualInformationSelector")),
            Some(l) => ranking::select(x, &l.1, "MutualInformationSelector"),
        }
    }
}

impl Default for MutualInformationSelector {
    fn default() -> (r: MutualInformationSelector)
        ensures
            r.fitted() is None,
            r.count() == 10,
            r.target() == MITask::Classification,
            r.neighbors() == 3,
    {
        MutualInformationSelector::new()
    }
}

} // verus!
