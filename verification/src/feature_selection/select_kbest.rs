//! Selection of the features with the highest scores.
//!
//! [`SelectKBest`] keeps the features that a [`ScoreFunction`] scores highest.
//! [`FClassif`] scores them by the F-value of an analysis of variance.

use crate::double::Double;
use crate::doubles;
use crate::error;
use crate::error::Error;
use crate::error::ErrorView;
use crate::error::Problem;
use crate::feature_selection::ranking;
use crate::frame;
use crate::frame::Column;
use crate::frame::ColumnView;
use crate::frame::Frame;
use crate::frame::FrameView;
use crate::frame::Sheet;
use crate::frame::Values;
use crate::frame::ValuesView;
use crate::order;
use crate::program;
use crate::program::Operation;
use crate::program::Program;
use crate::program::Query;
use crate::program::Term;
use crate::text;
use crate::text::Text;
use vstd::prelude::*;

verus! {

/// The encoding of `1e-10`: targets closer than this are one class.
pub const NEAR: u64 = 0x3ddb_7cdf_d9d7_bdbb;

/// How far a scoring has come.
pub enum Scoring<S> {
    /// The scores, by the names of the columns.
    Done(Vec<(Text, Double)>),
    /// Numbers that have to be known, and where to go on with them.
    Ask(Query, S),
}

/// Scores columns by how much they tell of a target: higher is better.
///
/// Scoring may need numbers that have to be computed. It then asks for them,
/// and goes on when it is given the answers.
pub trait ScoreFunction: Sized {
    /// What a scoring keeps while it waits for answers.
    type State;

    /// The inputs that can be scored: all of them, unless stated otherwise.
    open spec fn accepts(&self, x: FrameView, y: ColumnView) -> bool {
        true
    }

    /// How many answers a scoring waits for: none, unless stated otherwise.
    open spec fn awaits(&self, state: Self::State) -> nat {
        0
    }

    /// Begins to score the columns of `x` against the target `y`.
    fn score(&self, x: &Frame, y: &Column) -> (r: Result<Scoring<Self::State>, Error>)
        requires
            self.accepts(x@, y@),
    ;

    /// Goes on with the answers, in the order in which they were asked for.
    fn resume(&self, state: Self::State, answers: &Vec<Double>) -> (r: Result<
        Scoring<Self::State>,
        Error,
    >)
        requires
            answers.len() == self.awaits(state),
    ;
}

/// The rows of a feature and a target that both have a value, among the first
/// `n`.
pub open spec fn observed(
    cells: Seq<Option<Double>>,
    targets: Seq<Option<Double>>,
    n: nat,
) -> Seq<(Double, Double)>
    decreases n,
{
    if n == 0 {
        Seq::empty()
    } else {
        let front = observed(cells, targets, (n - 1) as nat);
        match (cells[n - 1], targets[n - 1]) {
            (Some(v), Some(t)) => front.push((v, t)),
            _ => front,
        }
    }
}

/// The values of observed rows.
pub open spec fn row_values(rows: Seq<(Double, Double)>) -> Seq<Double> {
    Seq::new(rows.len(), |i: int| rows[i].0)
}

/// The targets of observed rows.
pub open spec fn row_targets(rows: Seq<(Double, Double)>) -> Seq<Double> {
    Seq::new(rows.len(), |i: int| rows[i].1)
}

/// The different numbers of a list, in order.
pub open spec fn classes_of(list: Seq<Double>) -> Seq<Double> {
    doubles::collapsed(doubles::ascending(list))
}

/// Why a column cannot be scored.
pub open spec fn column_fault(targets: Seq<Option<Double>>) -> spec_fn(ColumnView) -> Option<
    ErrorView,
> {
    |column: ColumnView|
        match column.values {
            ValuesView::Float64(cells) => {
                let rows = observed(cells, targets, cells.len());
                if rows.len() == 0 {
                    Some(ErrorView::about(Problem::NoValues, "FClassif"@, column.name))
                } else if classes_of(row_targets(rows)).len() < 2 {
                    Some(ErrorView::about(Problem::OneClass, "FClassif"@, column.name))
                } else {
                    None
                }
            },
            _ => None,
        }
}

/// Why nothing can be scored against a target.
pub open spec fn target_fault(x: FrameView, y: ColumnView) -> Option<ErrorView> {
    match y.values {
        ValuesView::Float64(targets) => {
            let classes = classes_of(frame::present(targets));
            if classes.len() < 2 {
                Some(
                    ErrorView::plain(Problem::TooFewClasses(classes.len() as usize), "FClassif"@),
                )
            } else if targets.len() != x.height {
                Some(
                    ErrorView::plain(
                        Problem::RowsDiffer(x.height as usize, targets.len() as usize),
                        "FClassif"@,
                    ),
                )
            } else {
                None
            }
        },
        _ => Some(
            ErrorView::detailed(Problem::ExpectedFloat64, "FClassif"@, y.name, y.values.dtype()),
        ),
    }
}

/// Why a frame cannot be scored against a target.
pub open spec fn scoring_fault(x: FrameView, y: ColumnView) -> Option<ErrorView> {
    match target_fault(x, y) {
        Some(e) => Some(e),
        None => error::first_fault(x.columns, column_fault(y.values->Float64_0)),
    }
}

/// Whether every observed row has a finite target, in the columns before the
/// first one that cannot be scored.
pub open spec fn finite_targets(
    columns: Seq<ColumnView>,
    targets: Seq<Option<Double>>,
) -> bool {
    forall|c: int, i: int|
        #![trigger columns[c].values->Float64_0[i]]
        0 <= c < columns.len() && columns[c].values is Float64 && error::first_fault(
            columns.take(c + 1),
            column_fault(targets),
        ) is None && 0 <= i < columns[c].values->Float64_0.len() && i < targets.len()
            && columns[c].values->Float64_0[i] is Some && targets[i] is Some
            ==> (targets[i]->0).finite()
}

/// The distances of the classes from each other.
pub open spec fn class_distances(classes: Seq<Double>) -> Seq<Term> {
    let m = classes.len();
    Seq::new(
        m * m,
        |k: int|
            Term::Magnitude(
                Box::new(
                    Term::Minus(
                        Box::new(Term::Value(classes[k % (m as int)])),
                        Box::new(Term::Value(classes[k / (m as int)])),
                    ),
                ),
            ),
    )
}

/// Whether a target belongs to class `i`: its own class is that class or close
/// to it.
pub open spec fn belongs(classes: Seq<Double>, distances: Seq<Double>, i: int, t: Double) -> bool {
    exists|j: int|
        0 <= j < classes.len() && (#[trigger] classes[j]).equals(t) && (j == i || distances[i
            * classes.len() + j].below(Double { bits: NEAR }))
}

/// The values of the rows whose targets belong to class `i`.
pub open spec fn group(
    rows: Seq<(Double, Double)>,
    classes: Seq<Double>,
    distances: Seq<Double>,
    i: int,
) -> Seq<Double>
    decreases rows.len(),
{
    if rows.len() == 0 {
        Seq::empty()
    } else {
        let front = group(rows.drop_last(), classes, distances, i);
        if belongs(classes, distances, i, rows.last().1) {
            front.push(rows.last().0)
        } else {
            front
        }
    }
}

/// The values of the rows of each class.
pub open spec fn groups(
    rows: Seq<(Double, Double)>,
    classes: Seq<Double>,
    distances: Seq<Double>,
) -> Seq<Seq<Double>> {
    Seq::new(classes.len(), |i: int| group(rows, classes, distances, i))
}

/// The first of a list of values: the others are taken relative to it.
pub open spec fn origin(values: Seq<Double>) -> Term {
    Term::Value(values[0])
}

/// How far each value is from the first.
pub open spec fn offsets(values: Seq<Double>) -> Seq<Term> {
    Seq::new(
        values.len(),
        |k: int| Term::Minus(Box::new(Term::Value(values[k])), Box::new(origin(values))),
    )
}

/// How far the mean is from the first value.
pub open spec fn mean_offset(values: Seq<Double>) -> Term {
    Term::Over(Box::new(program::sum(offsets(values))), Box::new(Term::Natural(values.len())))
}

/// How far the mean of a group is from the mean of all values.
pub open spec fn group_shift(group: Seq<Double>, values: Seq<Double>) -> Term {
    Term::Minus(
        Box::new(
            Term::Plus(
                Box::new(Term::Minus(Box::new(origin(group)), Box::new(origin(values)))),
                Box::new(mean_offset(group)),
            ),
        ),
        Box::new(mean_offset(values)),
    )
}

/// What a group adds to the sum of squares between the groups.
pub open spec fn between_part(group: Seq<Double>, values: Seq<Double>) -> Term {
    Term::Times(
        Box::new(Term::Natural(group.len())),
        Box::new(Term::Square(Box::new(group_shift(group, values)))),
    )
}

/// What the values of a group add to the sum of squares within the groups.
pub open spec fn within_parts(group: Seq<Double>) -> Seq<Term> {
    Seq::new(
        group.len(),
        |k: int|
            Term::Square(
                Box::new(Term::Minus(Box::new(offsets(group)[k]), Box::new(mean_offset(group)))),
            ),
    )
}

/// What all groups add to the sum of squares between them.
pub open spec fn between_parts(groups: Seq<Seq<Double>>, values: Seq<Double>) -> Seq<Term> {
    Seq::new(groups.len(), |g: int| between_part(groups[g], values))
}

/// What the values of all groups add to the sum of squares within them.
pub open spec fn all_within(groups: Seq<Seq<Double>>) -> Seq<Term>
    decreases groups.len(),
{
    if groups.len() == 0 {
        Seq::empty()
    } else {
        all_within(groups.drop_last()) + within_parts(groups.last())
    }
}

/// The sum of squares between the groups.
pub open spec fn between(groups: Seq<Seq<Double>>, values: Seq<Double>) -> Term {
    program::running_sum(between_parts(groups, values))
}

/// The sum of squares within the groups.
pub open spec fn within(groups: Seq<Seq<Double>>) -> Term {
    program::running_sum(all_within(groups))
}

/// The mean square between the groups over the mean square within them.
pub open spec fn variance_ratio(groups: Seq<Seq<Double>>, values: Seq<Double>) -> Term {
    Term::Over(
        Box::new(
            Term::Over(
                Box::new(between(groups, values)),
                Box::new(
                    Term::Minus(Box::new(Term::Natural(groups.len())), Box::new(program::unit())),
                ),
            ),
        ),
        Box::new(
            Term::Over(
                Box::new(within(groups)),
                Box::new(
                    Term::Minus(
                        Box::new(Term::Natural(values.len())),
                        Box::new(Term::Natural(groups.len())),
                    ),
                ),
            ),
        ),
    )
}

/// What has to be known to score a feature.
pub open spec fn variances(groups: Seq<Seq<Double>>, values: Seq<Double>) -> Seq<Term> {
    seq![between(groups, values), within(groups), variance_ratio(groups, values)]
}

/// The F-value, from the sums of squares and their ratio.
pub open spec fn f_value(answers: Seq<Double>, rows: nat, classes: nat) -> Double {
    let zero = Double { bits: 0 };
    if answers[1].equals(zero) {
        if zero.below(answers[0]) {
            Double { bits: crate::double::INFINITE }
        } else {
            zero
        }
    } else if rows <= classes {
        zero
    } else {
        answers[2]
    }
}

/// A feature that varies between the classes and not within them scores
/// infinity; one that does not vary at all scores zero.
pub proof fn law_extreme_scores(answers: Seq<Double>, rows: nat, classes: nat)
    requires
        answers.len() == 3,
        answers[1].equals(Double { bits: 0 }),
    ensures
        (Double { bits: 0 }).below(answers[0]) ==> f_value(answers, rows, classes) == (Double {
            bits: crate::double::INFINITE,
        }),
        answers[0].equals(Double { bits: 0 }) ==> f_value(answers, rows, classes) == (Double {
            bits: 0,
        }),
{
}

/// All items of a list are zero in exact arithmetic.
spec fn all_zero(list: Seq<Term>, value: spec_fn(Double) -> real) -> bool {
    forall|k: int| 0 <= k < list.len() ==> program::exact(#[trigger] list[k], value) == 0real
}

/// The sums of zeros are zero.
proof fn lemma_zero_sums(list: Seq<Term>, value: spec_fn(Double) -> real)
    requires
        all_zero(list, value),
        value(Double { bits: 0 }) == 0real,
    ensures
        list.len() > 0 ==> program::exact(program::sum(list), value) == 0real,
        program::exact(program::running_sum(list), value) == 0real,
    decreases list.len(),
{
    if list.len() > 0 {
        let front = list.drop_last();
        assert(forall|k: int| 0 <= k < front.len() ==> front[k] == list[k]);
        assert(program::exact(list[list.len() - 1], value) == 0real);
        assert(program::exact(list[0], value) == 0real);
        lemma_zero_sums(front, value);
    }
}

/// The mean of equal values is the first value, in exact arithmetic.
proof fn lemma_equal_values(values: Seq<Double>, r: real, value: spec_fn(Double) -> real)
    requires
        values.len() > 0,
        value(Double { bits: 0 }) == 0real,
        forall|k: int| 0 <= k < values.len() ==> value(#[trigger] values[k]) == r,
    ensures
        all_zero(offsets(values), value),
        program::exact(mean_offset(values), value) == 0real,
{
    reveal_with_fuel(program::exact, 3);
    let list = offsets(values);
    assert forall|k: int| 0 <= k < list.len() implies program::exact(#[trigger] list[k], value)
        == 0real by {
        assert(value(values[k]) == r);
        assert(value(values[0]) == r);
    }
    lemma_zero_sums(list, value);
    let n = values.len() as int as real;
    assert(n > 0real);
    assert(0real / n == 0real) by (nonlinear_arith)
        requires
            n > 0real,
    ;
}

/// In exact arithmetic a constant feature has no squares between the groups
/// and none within them.
pub proof fn law_constant_feature(
    groups: Seq<Seq<Double>>,
    values: Seq<Double>,
    r: real,
    value: spec_fn(Double) -> real,
)
    requires
        values.len() > 0,
        value(Double { bits: 0 }) == 0real,
        forall|k: int| 0 <= k < values.len() ==> value(#[trigger] values[k]) == r,
        forall|g: int| 0 <= g < groups.len() ==> (#[trigger] groups[g]).len() > 0,
        forall|g: int, k: int|
            0 <= g < groups.len() && 0 <= k < groups[g].len() ==> value(#[trigger] groups[g][k])
                == r,
    ensures
        program::exact(between(groups, values), value) == 0real,
        program::exact(within(groups), value) == 0real,
{
    lemma_equal_values(values, r, value);
    let parts = between_parts(groups, values);
    assert forall|g: int| 0 <= g < parts.len() implies program::exact(#[trigger] parts[g], value)
        == 0real by {
        let group = groups[g];
        lemma_equal_values(group, r, value);
        reveal_with_fuel(program::exact, 6);
        assert(value(group[0]) == r);
        assert(value(values[0]) == r);
        let n = group.len() as int as real;
        assert(0real * 0real == 0real) by (nonlinear_arith);
        assert(n * 0real == 0real) by (nonlinear_arith);
    }
    lemma_zero_sums(parts, value);
    lemma_within_zero(groups, r, value);
    lemma_zero_sums(all_within(groups), value);
}

/// The squares within groups of equal values are zero.
proof fn lemma_within_zero(groups: Seq<Seq<Double>>, r: real, value: spec_fn(Double) -> real)
    requires
        value(Double { bits: 0 }) == 0real,
        forall|g: int| 0 <= g < groups.len() ==> (#[trigger] groups[g]).len() > 0,
        forall|g: int, k: int|
            0 <= g < groups.len() && 0 <= k < groups[g].len() ==> value(#[trigger] groups[g][k])
                == r,
    ensures
        all_zero(all_within(groups), value),
    decreases groups.len(),
{
    if groups.len() > 0 {
        let front = groups.drop_last();
        let group = groups.last();
        let n = groups.len() - 1;
        assert(forall|g: int| 0 <= g < front.len() ==> front[g] == groups[g]);
        lemma_within_zero(front, r, value);
        assert forall|k: int| 0 <= k < group.len() implies value(#[trigger] group[k]) == r by {
            assert(groups[n][k] == group[k]);
        }
        assert(groups[n].len() > 0);
        lemma_equal_values(group, r, value);
        let parts = within_parts(group);
        let all = all_within(groups);
        assert forall|k: int| 0 <= k < all.len() implies program::exact(#[trigger] all[k], value)
            == 0real by {
            let begun = all_within(front);
            if k < begun.len() {
                assert(all[k] == begun[k]);
            } else {
                let j = k - begun.len();
                assert(all[k] == parts[j]);
                reveal_with_fuel(program::exact, 3);
                assert(program::exact(offsets(group)[j], value) == 0real);
                assert(0real * 0real == 0real) by (nonlinear_arith);
            }
        }
    }
}

/// A feature with the rows that are observed of it.
pub struct Feature {
    name: Text,
    rows: Vec<(Double, Double)>,
    classes: Vec<Double>,
}

/// The view of a [`Feature`].
#[verifier::ext_equal]
pub struct FeatureView {
    pub name: Seq<char>,
    pub rows: Seq<(Double, Double)>,
}

impl FeatureView {
    /// The classes that are observed of the feature.
    pub open spec fn classes(self) -> Seq<Double> {
        classes_of(row_targets(self.rows))
    }

    /// What has to be known to score the feature, once the distances of its
    /// classes are.
    pub open spec fn variances(self, distances: Seq<Double>) -> Seq<Term> {
        variances(groups(self.rows, self.classes(), distances), row_values(self.rows))
    }

    /// The score of the feature.
    pub open spec fn score(self, answers: Seq<Double>) -> Double {
        f_value(answers, self.rows.len(), self.classes().len())
    }
}

impl View for Feature {
    type V = FeatureView;

    closed spec fn view(&self) -> FeatureView {
        FeatureView { name: self.name@, rows: self.rows@ }
    }
}

impl Feature {
    #[verifier::type_invariant]
    spec fn well_formed(self) -> bool {
        &&& self.rows.len() > 0
        &&& self.classes@ == classes_of(row_targets(self.rows@))
        &&& forall|k: int| 0 <= k < self.rows.len() ==> (#[trigger] self.rows@[k]).1.finite()
    }
}

/// The features of a frame that can be scored, in order.
pub open spec fn features_of(columns: Seq<ColumnView>, targets: Seq<Option<Double>>) -> Seq<
    FeatureView,
>
    decreases columns.len(),
{
    if columns.len() == 0 {
        Seq::empty()
    } else {
        let front = features_of(columns.drop_last(), targets);
        match columns.last().values {
            ValuesView::Float64(cells) => front.push(
                FeatureView {
                    name: columns.last().name,
                    rows: observed(cells, targets, cells.len()),
                },
            ),
            _ => front,
        }
    }
}

/// What is observed among the first rows depends on them alone.
proof fn lemma_observed_agree(
    cells: Seq<Option<Double>>,
    targets: Seq<Option<Double>>,
    others: Seq<Option<Double>>,
    marks: Seq<Option<Double>>,
    n: nat,
)
    requires
        forall|i: int| 0 <= i < n ==> #[trigger] cells[i] == others[i],
        forall|i: int| 0 <= i < n ==> #[trigger] targets[i] == marks[i],
    ensures
        observed(cells, targets, n) == observed(others, marks, n),
    decreases n,
{
    if n > 0 {
        lemma_observed_agree(cells, targets, others, marks, (n - 1) as nat);
        assert(cells[n - 1] == others[n - 1] && targets[n - 1] == marks[n - 1]);
    }
}

/// A row without a target is not observed.
proof fn lemma_observed_beside(cells: Seq<Option<Double>>, targets: Seq<Option<Double>>)
    requires
        cells.len() == targets.len(),
    ensures
        observed(cells, targets, targets.len()) == observed(
            frame::beside(targets, cells),
            frame::all_present(frame::present(targets)),
            frame::present(targets).len(),
        ),
    decreases targets.len(),
{
    if targets.len() > 0 {
        let n = (targets.len() - 1) as nat;
        let (fewer, front) = (cells.drop_last(), targets.drop_last());
        lemma_observed_beside(fewer, front);
        lemma_observed_agree(cells, targets, fewer, front, n);
        frame::lemma_beside(front, cells, fewer);
        frame::lemma_beside_len(front, cells);
        let seen = frame::beside(front, cells);
        let known = frame::present(front);
        if targets.last() is Some {
            let all = frame::all_present(frame::present(targets));
            lemma_observed_agree(
                frame::beside(targets, cells),
                all,
                seen,
                frame::all_present(known),
                known.len(),
            );
        }
    }
}

/// Rows without a target have no influence: what can be scored of a frame, and
/// why it cannot, is what it is for the rows with a target alone. The scores
/// are worked out from that.
pub proof fn law_missing_targets(x: FrameView, y: ColumnView)
    requires
        x.valid(),
        y.values is Float64,
        y.values.len() == x.height,
    ensures
        ({
            let targets = y.values->Float64_0;
            let fewer = x.beside(targets);
            let known = ColumnView {
                name: y.name,
                values: ValuesView::Float64(frame::all_present(frame::present(targets))),
            };
            &&& scoring_fault(fewer, known) == scoring_fault(x, y)
            &&& features_of(fewer.columns, known.values->Float64_0) == features_of(
                x.columns,
                targets,
            )
        }),
{
    let targets = y.values->Float64_0;
    let fewer = x.beside(targets);
    let marks = frame::all_present(frame::present(targets));
    frame::lemma_all_present(frame::present(targets));
    assert forall|c: int| 0 <= c < x.columns.len() && x.columns[c].values is Float64 implies observed(
        x.columns[c].values->Float64_0,
        targets,
        x.height,
    ) == #[trigger] observed(
        fewer.columns[c].values->Float64_0,
        marks,
        fewer.height,
    ) by {
        lemma_observed_beside(x.columns[c].values->Float64_0, targets);
    }
    assert forall|c: int| 0 <= c < x.columns.len() implies column_fault(targets)(
        #[trigger] x.columns[c],
    ) == column_fault(marks)(#[trigger] fewer.columns[c]) by {
        if x.columns[c].values is Float64 {
            frame::lemma_beside_len(targets, x.columns[c].values->Float64_0);
            assert(observed(x.columns[c].values->Float64_0, targets, x.height) == observed(
                fewer.columns[c].values->Float64_0,
                marks,
                fewer.height,
            ));
        }
    }
    error::lemma_same_faults(
        x.columns,
        column_fault(targets),
        fewer.columns,
        column_fault(marks),
    );
    lemma_features_beside(x.columns, fewer.columns, targets, x.height);
}

/// The features of a frame are those of its rows with a target.
proof fn lemma_features_beside(
    columns: Seq<ColumnView>,
    fewer: Seq<ColumnView>,
    targets: Seq<Option<Double>>,
    height: nat,
)
    requires
        targets.len() == height,
        fewer.len() == columns.len(),
        forall|c: int| 0 <= c < columns.len() ==> (#[trigger] columns[c]).values.len() == height,
        forall|c: int|
            0 <= c < columns.len() ==> #[trigger] fewer[c] == (ColumnView {
                name: columns[c].name,
                values: columns[c].values.beside(targets),
            }),
    ensures
        features_of(fewer, frame::all_present(frame::present(targets))) == features_of(
            columns,
            targets,
        ),
    decreases columns.len(),
{
    if columns.len() > 0 {
        let (a, b) = (columns.drop_last(), fewer.drop_last());
        assert forall|c: int| 0 <= c < a.len() implies (#[trigger] a[c]).values.len() == height by {
            assert(a[c] == columns[c]);
        }
        assert forall|c: int| 0 <= c < a.len() implies #[trigger] b[c] == (ColumnView {
            name: a[c].name,
            values: a[c].values.beside(targets),
        }) by {
            assert(b[c] == fewer[c] && a[c] == columns[c]);
        }
        lemma_features_beside(a, b, targets, height);
        let c = columns.len() - 1;
        assert(columns[c].values.len() == height);
        assert(fewer[c].name == columns[c].name);
        if let ValuesView::Float64(cells) = columns[c].values {
            lemma_observed_beside(cells, targets);
            frame::lemma_beside_len(targets, cells);
        }
    }
}

/// A scoring by [`FClassif`] that waits for answers: it has scored some
/// features, and is at the next one.
pub struct FClassifState {
    features: Vec<Feature>,
    scores: Vec<(Text, Double)>,
    summing: bool,
}

/// The view of a [`FClassifState`].
#[verifier::ext_equal]
pub struct FClassifStateView {
    pub features: Seq<FeatureView>,
    pub scores: Seq<(Seq<char>, Double)>,
    /// Whether the sums of squares were asked for; before that, the distances
    /// of the classes are.
    pub summing: bool,
}

impl FClassifStateView {
    /// The feature that is scored next.
    pub open spec fn current(self) -> FeatureView {
        self.features[self.scores.len() as int]
    }

    /// What the scoring has asked for.
    pub open spec fn asked(self) -> nat {
        if self.summing {
            3
        } else {
            self.current().classes().len() * self.current().classes().len()
        }
    }

    /// The scores with one more.
    pub open spec fn extended(self, answers: Seq<Double>) -> Seq<(Seq<char>, Double)> {
        self.scores.push((self.current().name, self.current().score(answers)))
    }
}

/// The views of a list of features.
pub open spec fn feature_views(features: Seq<Feature>) -> Seq<FeatureView> {
    Seq::new(features.len(), |i: int| features[i]@)
}

impl View for FClassifState {
    type V = FClassifStateView;

    closed spec fn view(&self) -> FClassifStateView {
        FClassifStateView {
            features: feature_views(self.features@),
            scores: ranking::score_views(self.scores@),
            summing: self.summing,
        }
    }
}

impl FClassifState {
    #[verifier::type_invariant]
    spec fn well_formed(self) -> bool {
        self.scores.len() < self.features.len()
    }
}

/// The rows of a feature and a target that both have a value.
fn observe(cells: &Vec<Option<Double>>, targets: &Vec<Option<Double>>) -> (r: Vec<
    (Double, Double),
>)
    requires
        cells.len() == targets.len(),
    ensures
        r@ == observed(cells@, targets@, cells@.len()),
{
    let mut r: Vec<(Double, Double)> = Vec::new();
    let mut i: usize = 0;
    while i < cells.len()
        invariant
            i <= cells.len(),
            cells.len() == targets.len(),
            r@ == observed(cells@, targets@, i as nat),
        decreases cells.len() - i,
    {
        match (cells[i], targets[i]) {
            (Some(v), Some(t)) => {
                r.push((v, t));
            },
            _ => {},
        }
        i += 1;
    }
    r
}

/// The different numbers of a list, in order.
fn class_list(list: &Vec<Double>) -> (r: Vec<Double>)
    ensures
        r@ == classes_of(list@),
{
    let sorted: Vec<Double> = doubles::sort(list);
    doubles::collapse(&sorted)
}

/// The targets of observed rows.
pub(crate) fn targets_of(rows: &Vec<(Double, Double)>) -> (r: Vec<Double>)
    ensures
        r@ == row_targets(rows@),
{
    let mut r: Vec<Double> = Vec::new();
    let mut i: usize = 0;
    while i < rows.len()
        invariant
            i <= rows.len(),
            r.len() == i,
            forall|k: int| 0 <= k < i ==> #[trigger] r@[k] == rows@[k].1,
        decreases rows.len() - i,
    {
        r.push(rows[i].1);
        i += 1;
    }
    assert(r@ =~= row_targets(rows@));
    r
}

/// The values of observed rows.
pub(crate) fn values_of(rows: &Vec<(Double, Double)>) -> (r: Vec<Double>)
    ensures
        r@ == row_values(rows@),
{
    let mut r: Vec<Double> = Vec::new();
    let mut i: usize = 0;
    while i < rows.len()
        invariant
            i <= rows.len(),
            r.len() == i,
            forall|k: int| 0 <= k < i ==> #[trigger] r@[k] == rows@[k].0,
        decreases rows.len() - i,
    {
        r.push(rows[i].0);
        i += 1;
    }
    assert(r@ =~= row_values(rows@));
    r
}

/// Row and column of a place in a square table.
proof fn lemma_cell(i: int, j: int, m: int)
    requires
        0 <= i < m,
        0 <= j < m,
    ensures
        0 <= i * m + j < m * m,
        (i * m + j) / m == i,
        (i * m + j) % m == j,
{
    vstd::arithmetic::div_mod::lemma_fundamental_div_mod_converse(i * m + j, m, i, j);
    assert(i * m + j < m * m) by (nonlinear_arith)
        requires
            0 <= i < m,
            0 <= j < m,
    ;
    assert(0 <= i * m) by (nonlinear_arith)
        requires
            0 <= i,
            0 < m,
    ;
}

/// Asks for the distances of classes from each other.
fn ask_distances(classes: &Vec<Double>) -> (r: Query)
    ensures
        r@ == class_distances(classes@),
{
    let ghost wanted = class_distances(classes@);
    let ghost m = classes.len() as int;
    let mut program: Program = Program::new();
    let mut places: Vec<usize> = Vec::new();
    let mut i: usize = 0;
    assert(0 * m == 0) by (nonlinear_arith);
    while i < classes.len()
        invariant
            i <= classes.len(),
            m == classes.len(),
            wanted == class_distances(classes@),
            places.len() == i * m,
            forall|k: int|
                0 <= k < places.len() ==> (#[trigger] places@[k]) < program@.len()
                    && program@[places@[k] as int] == wanted[k],
        decreases classes.len() - i,
    {
        let mut j: usize = 0;
        while j < classes.len()
            invariant
                j <= classes.len(),
                i < classes.len(),
                m == classes.len(),
                wanted == class_distances(classes@),
                places.len() == i * m + j,
                forall|k: int|
                    0 <= k < places.len() ==> (#[trigger] places@[k]) < program@.len()
                        && program@[places@[k] as int] == wanted[k],
            decreases classes.len() - j,
        {
            proof {
                lemma_cell(i as int, j as int, m);
            }
            let a: usize = program.append(Operation::Value(classes[j]));
            let b: usize = program.append(Operation::Value(classes[i]));
            let d: usize = program.append(Operation::Minus(a, b));
            let at: usize = program.append(Operation::Magnitude(d));
            assert(program@[at as int] == wanted[i * m + j]);
            places.push(at);
            j += 1;
        }
        assert((i + 1) * m == i * m + m) by (nonlinear_arith);
        i += 1;
    }
    let r: Query = Query::new(program, places);
    assert(r@ =~= wanted);
    r
}

/// Whether a target belongs to class `i`.
fn test_membership(classes: &Vec<Double>, distances: &Vec<Double>, i: usize, t: Double) -> (r: bool)
    requires
        i < classes.len(),
        distances.len() == classes.len() * classes.len(),
    ensures
        r == belongs(classes@, distances@, i as int, t),
{
    let near: Double = Double { bits: NEAR };
    let n: usize = classes.len();
    let mut j: usize = 0;
    while j < n
        invariant
            j <= n,
            n == classes.len(),
            i < n,
            near == (Double { bits: NEAR }),
            distances.len() == n * n,
            forall|k: int|
                0 <= k < j ==> !((#[trigger] classes@[k]).equals(t) && (k == i || distances@[i * n
                    + k].below(near))),
        decreases n - j,
    {
        proof {
            lemma_cell(i as int, j as int, n as int);
            assert(0 <= i * n <= n * n) by (nonlinear_arith)
                requires
                    0 <= i < n,
            ;
        }
        if classes[j].is_equal(t) && (j == i || distances[i * n + j].is_below(near)) {
            return true;
        }
        j += 1;
    }
    false
}

/// The values of the rows whose targets belong to class `i`.
fn collect_group(
    rows: &Vec<(Double, Double)>,
    classes: &Vec<Double>,
    distances: &Vec<Double>,
    i: usize,
) -> (r: Vec<Double>)
    requires
        i < classes.len(),
        distances.len() == classes.len() * classes.len(),
    ensures
        r@ == group(rows@, classes@, distances@, i as int),
{
    let mut r: Vec<Double> = Vec::new();
    let mut k: usize = 0;
    assert(rows@.take(0) =~= Seq::empty());
    while k < rows.len()
        invariant
            k <= rows.len(),
            i < classes.len(),
            distances.len() == classes.len() * classes.len(),
            r@ == group(rows@.take(k as int), classes@, distances@, i as int),
        decreases rows.len() - k,
    {
        assert(rows@.take(k + 1).drop_last() =~= rows@.take(k as int));
        if test_membership(classes, distances, i, rows[k].1) {
            r.push(rows[k].0);
        }
        k += 1;
    }
    assert(rows@.take(k as int) =~= rows@);
    r
}

/// Every class has a row.
proof fn lemma_group_filled(
    rows: Seq<(Double, Double)>,
    classes: Seq<Double>,
    distances: Seq<Double>,
    i: int,
    k: int,
)
    requires
        0 <= k < rows.len(),
        0 <= i < classes.len(),
        classes[i].equals(rows[k].1),
    ensures
        group(rows, classes, distances, i).len() > 0,
    decreases rows.len(),
{
    if k < rows.len() - 1 {
        lemma_group_filled(rows.drop_last(), classes, distances, i, k);
    } else {
        assert(belongs(classes, distances, i, rows.last().1));
    }
}

/// A class is the target of a row.
proof fn lemma_class_has_row(rows: Seq<(Double, Double)>, i: int) -> (k: int)
    requires
        0 <= i < classes_of(row_targets(rows)).len(),
    ensures
        0 <= k < rows.len(),
        classes_of(row_targets(rows))[i] == rows[k].1,
{
    let targets = row_targets(rows);
    let sorted = doubles::ascending(targets);
    doubles::law_collapsed(sorted);
    doubles::law_ascending(targets);
    let c = classes_of(targets)[i];
    assert(sorted.contains(c));
    assert(targets.contains(c));
    choose|k: int| 0 <= k < targets.len() && targets[k] == c
}

/// Appends how far each value is from the first, and the mean of that.
fn append_offsets(values: &Vec<Double>, program: &mut Program) -> (r: (usize, Vec<usize>, usize))
    requires
        values.len() > 0,
    ensures
        program::extends(old(program)@, final(program)@),
        r.0 < final(program)@.len(),
        final(program)@[r.0 as int] == origin(values@),
        program::stand_for(r.1@, offsets(values@), final(program)@),
        r.2 < final(program)@.len(),
        final(program)@[r.2 as int] == mean_offset(values@),
{
    let ghost wanted = offsets(values@);
    let first: usize = program.append(Operation::Value(values[0]));
    let mut parts: Vec<usize> = Vec::new();
    let mut k: usize = 0;
    while k < values.len()
        invariant
            k <= values.len(),
            values.len() > 0,
            program::extends(old(program)@, program@),
            first < program@.len(),
            program@[first as int] == origin(values@),
            wanted == offsets(values@),
            parts.len() == k,
            forall|m: int|
                0 <= m < k ==> (#[trigger] parts@[m]) < program@.len()
                    && program@[parts@[m] as int] == wanted[m],
        decreases values.len() - k,
    {
        let v: usize = program.append(Operation::Value(values[k]));
        let d: usize = program.append(Operation::Minus(v, first));
        assert(program@[d as int] == wanted[k as int]);
        parts.push(d);
        k += 1;
    }
    let ghost held = program@;
    let total: usize = program::append_sum(&parts, program, Ghost(wanted));
    let count: usize = program.append(Operation::Natural(values.len() as u64));
    let mean: usize = program.append(Operation::Over(total, count));
    proof {
        program::lemma_stand_for(parts@, wanted, held, program@);
    }
    (first, parts, mean)
}

/// The views of groups of values.
spec fn group_views(groups: Seq<Vec<Double>>) -> Seq<Seq<Double>> {
    Seq::new(groups.len(), |g: int| groups[g]@)
}

/// Asks for the sums of squares of a feature, and their ratio.
fn ask_variances(groups: &Vec<Vec<Double>>, values: &Vec<Double>) -> (r: Query)
    requires
        values.len() > 0,
        forall|g: int| 0 <= g < groups.len() ==> (#[trigger] groups@[g]).len() > 0,
    ensures
        r@ == variances(group_views(groups@), values@),
{
    let ghost all = group_views(groups@);
    let ghost parts = between_parts(all, values@);
    let mut program: Program = Program::new();
    let (first, unused, mean) = append_offsets(values, &mut program);
    let mut outer: usize = program.append(Operation::Value(Double::zero()));
    let mut inner: usize = outer;
    let mut g: usize = 0;
    assert(parts.take(0) =~= Seq::<Term>::empty());
    assert(all.take(0) =~= Seq::<Seq<Double>>::empty());
    while g < groups.len()
        invariant
            g <= groups.len(),
            forall|h: int| 0 <= h < groups.len() ==> (#[trigger] groups@[h]).len() > 0,
            all == group_views(groups@),
            parts == between_parts(all, values@),
            first < program@.len(),
            program@[first as int] == origin(values@),
            mean < program@.len(),
            program@[mean as int] == mean_offset(values@),
            outer < program@.len(),
            program@[outer as int] == program::running_sum(parts.take(g as int)),
            inner < program@.len(),
            program@[inner as int] == program::running_sum(all_within(all.take(g as int))),
        decreases groups.len() - g,
    {
        assert(parts.take(g + 1).drop_last() =~= parts.take(g as int));
        assert(all.take(g + 1).drop_last() =~= all.take(g as int));
        let list: &Vec<Double> = &groups[g];
        assert(groups@[g as int].len() > 0);
        let ghost squares = within_parts(list@);
        let ghost begun = all_within(all.take(g as int));
        let ghost held = program@;
        let (group_first, spots, group_mean) = append_offsets(list, &mut program);
        assert(program@[inner as int] == held[inner as int]);
        let gap: usize = program.append(Operation::Minus(group_first, first));
        let moved: usize = program.append(Operation::Plus(gap, group_mean));
        let shift: usize = program.append(Operation::Minus(moved, mean));
        let square: usize = program.append(Operation::Square(shift));
        let count: usize = program.append(Operation::Natural(list.len() as u64));
        let part: usize = program.append(Operation::Times(count, square));
        assert(program@[part as int] == parts[g as int]);
        outer = program.append(Operation::Plus(outer, part));
        let mut k: usize = 0;
        assert(begun + squares.take(0) =~= begun);
        assert(program::stand_for(spots@, offsets(list@), program@));
        while k < list.len()
            invariant
                k <= list.len(),
                list == &groups@[g as int],
                squares == within_parts(list@),
                first < program@.len(),
                program@[first as int] == origin(values@),
                mean < program@.len(),
                program@[mean as int] == mean_offset(values@),
                outer < program@.len(),
                program@[outer as int] == program::running_sum(parts.take(g + 1)),
                group_mean < program@.len(),
                program@[group_mean as int] == mean_offset(list@),
                program::stand_for(spots@, offsets(list@), program@),
                inner < program@.len(),
                program@[inner as int] == program::running_sum(begun + squares.take(k as int)),
            decreases list.len() - k,
        {
            let ghost before = program@;
            let ghost grown = begun + squares.take(k + 1);
            assert(grown.drop_last() =~= begun + squares.take(k as int));
            assert(grown.last() == squares[k as int]);
            assert(spots@[k as int] < program@.len());
            let d: usize = program.append(Operation::Minus(spots[k], group_mean));
            let sq: usize = program.append(Operation::Square(d));
            assert(program@[sq as int] == squares[k as int]);
            inner = program.append(Operation::Plus(inner, sq));
            proof {
                program::lemma_stand_for(spots@, offsets(list@), before, program@);
            }
            k += 1;
        }
        assert(squares.take(k as int) =~= squares);
        g += 1;
    }
    assert(parts.take(g as int) =~= parts);
    assert(all.take(g as int) =~= all);
    let class_count: usize = program.append(Operation::Natural(groups.len() as u64));
    let one: usize = program.append(Operation::Value(Double::one()));
    let df_between: usize = program.append(Operation::Minus(class_count, one));
    let row_count: usize = program.append(Operation::Natural(values.len() as u64));
    let df_within: usize = program.append(Operation::Minus(row_count, class_count));
    let top: usize = program.append(Operation::Over(outer, df_between));
    let bottom: usize = program.append(Operation::Over(inner, df_within));
    let ratio: usize = program.append(Operation::Over(top, bottom));
    let mut places: Vec<usize> = Vec::new();
    places.push(outer);
    places.push(inner);
    places.push(ratio);
    let r: Query = Query::new(program, places);
    assert(r@ =~= variances(all, values@));
    r
}

/// Observed rows have finite targets where those of the column are.
proof fn lemma_observed_finite(
    cells: Seq<Option<Double>>,
    targets: Seq<Option<Double>>,
    n: nat,
)
    requires
        n <= cells.len(),
        n <= targets.len(),
        forall|i: int|
            0 <= i < n && (#[trigger] cells[i]) is Some && targets[i] is Some
                ==> (targets[i]->0).finite(),
    ensures
        forall|k: int|
            0 <= k < observed(cells, targets, n).len() ==> (#[trigger] observed(
                cells,
                targets,
                n,
            )[k]).1.finite(),
    decreases n,
{
    if n > 0 {
        lemma_observed_finite(cells, targets, (n - 1) as nat);
        let front = observed(cells, targets, (n - 1) as nat);
        let all = observed(cells, targets, n);
        assert forall|k: int| 0 <= k < all.len() implies (#[trigger] all[k]).1.finite() by {
            if k < front.len() {
                assert(all[k] == front[k]);
            } else {
                assert(cells[n - 1] is Some);
            }
        }
    }
}

impl Feature {
    /// The values of the rows of each class.
    fn collect(&self, distances: &Vec<Double>) -> (r: Vec<Vec<Double>>)
        requires
            distances.len() == self@.classes().len() * self@.classes().len(),
        ensures
            group_views(r@) == groups(self@.rows, self@.classes(), distances@),
            forall|g: int| 0 <= g < r.len() ==> (#[trigger] r@[g]).len() > 0,
    {
        proof {
            use_type_invariant(self);
        }
        let ghost wanted = groups(self@.rows, self@.classes(), distances@);
        let mut r: Vec<Vec<Double>> = Vec::new();
        let mut i: usize = 0;
        while i < self.classes.len()
            invariant
                i <= self.classes.len(),
                self.well_formed(),
                distances.len() == self.classes.len() * self.classes.len(),
                wanted == groups(self.rows@, self.classes@, distances@),
                r.len() == i,
                forall|g: int|
                    0 <= g < i ==> (#[trigger] r@[g]).len() > 0 && r@[g]@ == wanted[g],
            decreases self.classes.len() - i,
        {
            let list: Vec<Double> = collect_group(&self.rows, &self.classes, distances, i);
            proof {
                let k = lemma_class_has_row(self.rows@, i as int);
                assert(self.rows@[k].1.finite());
                lemma_group_filled(self.rows@, self.classes@, distances@, i as int, k);
            }
            r.push(list);
            i += 1;
        }
        assert(group_views(r@) =~= wanted);
        r
    }

    /// The score of the feature.
    fn evaluate(&self, answers: &Vec<Double>) -> (r: Double)
        requires
            answers.len() == 3,
        ensures
            r == self@.score(answers@),
    {
        proof {
            use_type_invariant(self);
        }
        let zero: Double = Double::zero();
        if answers[1].is_equal(zero) {
            if zero.is_below(answers[0]) {
                Double { bits: crate::double::INFINITE }
            } else {
                zero
            }
        } else if self.rows.len() <= self.classes.len() {
            zero
        } else {
            answers[2]
        }
    }
}

/// Scores features by the F-value of an analysis of variance: how much the
/// means of the classes of the target differ, compared to how much the values
/// of a class do.
///
/// Rows without a value or a target are left out, for each column on its own.
#[derive(Clone, Copy, Debug)]
pub struct FClassif {}

impl FClassif {
    /// A scorer by F-value.
    pub fn new() -> (r: FClassif) {
        FClassif {  }
    }
}

impl Default for FClassif {
    fn default() -> (r: FClassif) {
        FClassif::new()
    }
}

impl FClassif {
    /// Whether a frame can be scored against a target, or at least be refused:
    /// every target that is looked at is finite.
    pub fn can_score(&self, x: &Frame, y: &Column) -> (r: bool)
        ensures
            r == self.accepts(x@, y@),
    {
        let targets: &Vec<Option<Double>> = match &y.values {
            Values::Float64(targets) => targets,
            _ => {
                return true;
            },
        };
        let list: Vec<Double> = keep_present(targets);
        let classes: Vec<Double> = class_list(&list);
        if classes.len() < 2 || targets.len() != x.height() {
            return true;
        }
        let ghost columns = x@.columns;
        let ghost fault = column_fault(targets@);
        let n: usize = x.width();
        let mut c: usize = 0;
        proof {
            error::lemma_fault_ends(columns, fault);
        }
        while c < n
            invariant
                c <= n,
                n == columns.len(),
                columns == x@.columns,
                x@.valid(),
                y@.values == ValuesView::Float64(targets@),
                target_fault(x@, y@) is None,
                targets.len() == x@.height,
                fault == column_fault(targets@),
                error::first_fault(columns.take(c as int), fault) is None,
                forall|d: int, i: int|
                    #![trigger columns[d].values->Float64_0[i]]
                    0 <= d < c && columns[d].values is Float64 && 0 <= i < targets.len()
                        && columns[d].values->Float64_0[i] is Some && targets@[i] is Some
                        ==> (targets@[i]->0).finite(),
            decreases n - c,
        {
            proof {
                error::lemma_fault_step(columns, fault, c as int);
            }
            match &x.column(c).values {
                Values::Float64(cells) => {
                    assert(columns[c as int].values.len() == x@.height);
                    let rows: Vec<(Double, Double)> = observe(cells, targets);
                    let seen: Vec<Double> = targets_of(&rows);
                    if rows.len() == 0 || class_list(&seen).len() < 2 {
                        assert forall|d: int| c <= d < n implies error::first_fault(
                            #[trigger] columns.take(d + 1),
                            fault,
                        ) is Some by {
                            assert(columns.take(d + 1).take(c + 1) =~= columns.take(c + 1));
                            error::lemma_first_fault_stays(columns.take(d + 1), fault, c + 1);
                        }
                        return true;
                    }
                    let mut i: usize = 0;
                    while i < targets.len()
                        invariant
                            i <= targets.len(),
                            c < n,
                            n == columns.len(),
                            columns == x@.columns,
                            y@.values == ValuesView::Float64(targets@),
                            target_fault(x@, y@) is None,
                            cells.len() == targets.len(),
                            columns[c as int].values == ValuesView::Float64(cells@),
                            error::first_fault(columns.take(c + 1), fault) is None,
                            fault == column_fault(targets@),
                            forall|k: int|
                                0 <= k < i && (#[trigger] cells@[k]) is Some && targets@[k] is Some
                                    ==> (targets@[k]->0).finite(),
                        decreases targets.len() - i,
                    {
                        if let (Some(_), Some(t)) = (cells[i], targets[i]) {
                            if !t.is_finite() {
                                assert(columns[c as int].values->Float64_0[i as int] is Some);
                                return false;
                            }
                        }
                        i += 1;
                    }
                },
                _ => {},
            }
            c += 1;
        }
        true
    }

    /// The features of a frame, or why it cannot be scored.
    fn observe_columns(&self, x: &Frame, targets: &Vec<Option<Double>>) -> (r: Result<
        Vec<Feature>,
        Error,
    >)
        requires
            targets.len() == x@.height,
            finite_targets(x@.columns, targets@),
        ensures
            match error::first_fault(x@.columns, column_fault(targets@)) {
                Some(e) => r is Err && r->Err_0@ == e,
                None => r is Ok && feature_views(r->Ok_0@) == features_of(x@.columns, targets@),
            },
    {
        let ghost columns = x@.columns;
        let ghost fault = column_fault(targets@);
        let n: usize = x.width();
        let mut features: Vec<Feature> = Vec::new();
        let mut c: usize = 0;
        proof {
            error::lemma_fault_ends(columns, fault);
            assert(columns.take(0) =~= Seq::empty());
            assert(feature_views(features@) =~= Seq::empty());
        }
        while c < n
            invariant
                c <= n,
                n == columns.len(),
                columns == x@.columns,
                x@.valid(),
                targets.len() == x@.height,
                finite_targets(x@.columns, targets@),
                fault == column_fault(targets@),
                error::first_fault(columns.take(c as int), fault) is None,
                feature_views(features@) == features_of(columns.take(c as int), targets@),
            decreases n - c,
        {
            proof {
                error::lemma_fault_step(columns, fault, c as int);
                assert(columns.take(c + 1).drop_last() =~= columns.take(c as int));
            }
            let column: &Column = x.column(c);
            match &column.values {
                Values::Float64(cells) => {
                    assert(x@.columns[c as int].values.len() == x@.height);
                    let rows: Vec<(Double, Double)> = observe(cells, targets);
                    if rows.len() == 0 {
                        return Err(Error::about(Problem::NoValues, "FClassif", &column.name));
                    }
                    let list: Vec<Double> = targets_of(&rows);
                    let classes: Vec<Double> = class_list(&list);
                    if classes.len() < 2 {
                        return Err(Error::about(Problem::OneClass, "FClassif", &column.name));
                    }
                    proof {
                        assert(fault(columns[c as int]) is None);
                        assert forall|i: int|
                            0 <= i < cells.len() && (#[trigger] cells@[i]) is Some
                                && targets@[i] is Some implies (targets@[i]->0).finite() by {
                            assert(columns[c as int].values->Float64_0[i] == cells@[i]);
                        }
                        lemma_observed_finite(cells@, targets@, cells@.len());
                    }
                    let ghost before = feature_views(features@);
                    let feature: Feature = Feature { name: column.name.duplicate(), rows, classes };
                    let ghost view = feature@;
                    features.push(feature);
                    assert(feature_views(features@) =~= before.push(view));
                },
                _ => {},
            }
            c += 1;
        }
        assert(columns.take(c as int) =~= columns);
        Ok(features)
    }
}

impl ScoreFunction for FClassif {
    type State = FClassifState;

    open spec fn accepts(&self, x: FrameView, y: ColumnView) -> bool {
        target_fault(x, y) is None ==> finite_targets(x.columns, y.values->Float64_0)
    }

    open spec fn awaits(&self, state: FClassifState) -> nat {
        state@.asked()
    }

    fn score(&self, x: &Frame, y: &Column) -> (r: Result<Scoring<FClassifState>, Error>)
        ensures
            match scoring_fault(x@, y@) {
                Some(e) => r is Err && r->Err_0@ == e,
                None => {
                    let features = features_of(x@.columns, y@.values->Float64_0);
                    match r {
                        Ok(Scoring::Done(scores)) => features.len() == 0 && scores.len() == 0,
                        Ok(Scoring::Ask(query, state)) => {
                            &&& features.len() > 0
                            &&& query@ == class_distances(features[0].classes())
                            &&& state@ == (FClassifStateView {
                                features,
                                scores: Seq::empty(),
                                summing: false,
                            })
                        },
                        Err(_) => false,
                    }
                },
            },
    {
        let targets: &Vec<Option<Double>> = match &y.values {
            Values::Float64(targets) => targets,
            _ => {
                let dtype: Text = y.values.dtype();
                return Err(
                    Error::detailed(Problem::ExpectedFloat64, "FClassif", &y.name, dtype),
                );
            },
        };
        let list: Vec<Double> = keep_present(targets);
        let classes: Vec<Double> = class_list(&list);
        if classes.len() < 2 {
            return Err(Error::plain(Problem::TooFewClasses(classes.len()), "FClassif"));
        }
        if targets.len() != x.height() {
            return Err(
                Error::plain(Problem::RowsDiffer(x.height(), targets.len()), "FClassif"),
            );
        }
        let features: Vec<Feature> = match self.observe_columns(x, targets) {
            Ok(features) => features,
            Err(e) => {
                return Err(e);
            },
        };
        let scores: Vec<(Text, Double)> = Vec::new();
        if features.len() == 0 {
            return Ok(Scoring::Done(scores));
        }
        let first: &Feature = &features[0];
        proof {
            use_type_invariant(first);
            assert(ranking::score_views(scores@) =~= Seq::empty());
            assert(feature_views(features@)[0] == features@[0]@);
        }
        let query: Query = ask_distances(&first.classes);
        Ok(Scoring::Ask(query, FClassifState { features, scores, summing: false }))
    }

    fn resume(&self, state: FClassifState, answers: &Vec<Double>) -> (r: Result<
        Scoring<FClassifState>,
        Error,
    >)
        ensures
            match r {
                Ok(Scoring::Ask(query, next)) => if state@.summing {
                    &&& state@.scores.len() + 1 < state@.features.len()
                    &&& next@ == (FClassifStateView {
                        features: state@.features,
                        scores: state@.extended(answers@),
                        summing: false,
                    })
                    &&& query@ == class_distances(next@.current().classes())
                } else {
                    &&& next@ == (FClassifStateView { summing: true, ..state@ })
                    &&& query@ == state@.current().variances(answers@)
                },
                Ok(Scoring::Done(scores)) => {
                    &&& state@.summing
                    &&& state@.scores.len() + 1 == state@.features.len()
                    &&& ranking::score_views(scores@) == state@.extended(answers@)
                },
                Err(_) => false,
            },
    {
        proof {
            use_type_invariant(&state);
        }
        let ghost before = state@;
        let at: usize = state.scores.len();
        assert(before.current() == state.features@[at as int]@);
        let FClassifState { features, mut scores, summing } = state;
        if !summing {
            let feature: &Feature = &features[at];
            proof {
                use_type_invariant(feature);
            }
            let groups: Vec<Vec<Double>> = feature.collect(answers);
            let values: Vec<Double> = values_of(&feature.rows);
            let query: Query = ask_variances(&groups, &values);
            let next: FClassifState = FClassifState { features, scores, summing: true };
            assert(next@ =~= (FClassifStateView { summing: true, ..before }));
            Ok(Scoring::Ask(query, next))
        } else {
            let score: Double = features[at].evaluate(answers);
            let name: Text = features[at].name.duplicate();
            scores.push((name, score));
            assert(ranking::score_views(scores@) =~= before.extended(answers@));
            if scores.len() == features.len() {
                return Ok(Scoring::Done(scores));
            }
            let after: &Feature = &features[at + 1];
            proof {
                use_type_invariant(after);
                assert(feature_views(features@)[at + 1] == features@[at + 1]@);
            }
            let query: Query = ask_distances(&after.classes);
            let next: FClassifState = FClassifState { features, scores, summing: false };
            Ok(Scoring::Ask(query, next))
        }
    }
}

/// The values of a list with gaps, in order.
fn keep_present(cells: &Vec<Option<Double>>) -> (r: Vec<Double>)
    ensures
        r@ == frame::present(cells@),
{
    let mut r: Vec<Double> = Vec::new();
    let mut i: usize = 0;
    assert(cells@.take(0) =~= Seq::empty());
    while i < cells.len()
        invariant
            i <= cells.len(),
            r@ == frame::present(cells@.take(i as int)),
        decreases cells.len() - i,
    {
        assert(cells@.take(i + 1).drop_last() =~= cells@.take(i as int));
        match cells[i] {
            Some(v) => {
                r.push(v);
            },
            None => {},
        }
        i += 1;
    }
    assert(cells@.take(i as int) =~= cells@);
    r
}

/// Why a selector cannot begin to score.
pub open spec fn selector_fault(k: usize, x: FrameView, y: FrameView) -> Option<ErrorView> {
    if x.columns.len() == 0 {
        Some(ErrorView::plain(Problem::NoColumns, "SelectKBest"@))
    } else if k == 0 {
        Some(ErrorView::plain(Problem::InvalidCount, "SelectKBest"@))
    } else if y.columns.len() != 1 {
        Some(
            ErrorView::plain(Problem::ExpectedOneTarget(y.columns.len() as usize), "SelectKBest"@),
        )
    } else {
        None
    }
}

/// What is selected of scored columns: the scores in order, and the names of
/// the first `k`.
pub open spec fn kbest(scores: Seq<(Seq<char>, Double)>, k: nat) -> (
    Seq<(Seq<char>, Double)>,
    Seq<Seq<char>>,
) {
    let ranked = ranking::best_first(scores, false);
    (ranked, ranking::leaders(ranked, k))
}

/// Selects the `k` columns with the highest scores.
///
/// A fit has steps: [`fit`](SelectKBest::fit) begins to score,
/// [`resume`](SelectKBest::resume) goes on with answers, and
/// [`finish_fit`](SelectKBest::finish_fit) takes the scores.
pub struct SelectKBest<F> {
    k: usize,
    score_fn: F,
    learned: Option<(Vec<(Text, Double)>, Vec<Text>)>,
}

impl<F: ScoreFunction> SelectKBest<F> {
    /// The number of columns to keep.
    pub closed spec fn count(self) -> usize {
        self.k
    }

    /// The scoring function.
    pub closed spec fn scorer(self) -> F {
        self.score_fn
    }

    /// The scores in order, and the columns that are kept; none before a fit
    /// is finished.
    pub closed spec fn fitted(self) -> Option<(Seq<(Seq<char>, Double)>, Seq<Seq<char>>)> {
        match self.learned {
            Some(l) => Some((ranking::score_views(l.0@), text::views(l.1@))),
            None => None,
        }
    }

    /// A selector of the `k` columns that a function scores highest.
    pub fn new(k: usize, score_fn: F) -> (r: SelectKBest<F>)
        ensures
            r.fitted() is None,
            r.count() == k,
            r.scorer() == score_fn,
    {
        SelectKBest { k, score_fn, learned: None }
    }

    /// The scores of the last finished fit, highest first.
    pub fn scores(&self) -> (r: Option<&Vec<(Text, Double)>>)
        ensures
            match r {
                Some(list) => self.fitted() is Some && ranking::score_views(list@)
                    == (self.fitted()->0).0,
                None => self.fitted() is None,
            },
    {
        match &self.learned {
            Some(l) => Some(&l.0),
            None => None,
        }
    }

    /// Begins to score the columns of `x` against the one column of `y`.
    pub fn fit(&self, x: &Frame, y: &Frame) -> (r: Result<Scoring<F::State>, Error>)
        requires
            selector_fault(self.count(), x@, y@) is None ==> self.scorer().accepts(
                x@,
                y@.columns[0],
            ),
        ensures
            match selector_fault(self.count(), x@, y@) {
                Some(e) => r is Err && r->Err_0@ == e,
                None => exists|column: Column|
                    column@ == y@.columns[0] && #[trigger] call_ensures(
                        F::score,
                        (&self.scorer(), x, &column),
                        r,
                    ),
            },
    {
        if x.width() == 0 {
            return Err(Error::plain(Problem::NoColumns, "SelectKBest"));
        }
        if self.k == 0 {
            return Err(Error::plain(Problem::InvalidCount, "SelectKBest"));
        }
        if y.width() != 1 {
            return Err(Error::plain(Problem::ExpectedOneTarget(y.width()), "SelectKBest"));
        }
        let column: &Column = y.column(0);
        self.score_fn.score(x, column)
    }

    /// Goes on scoring with answers.
    pub fn resume(&self, state: F::State, answers: &Vec<Double>) -> (r: Result<
        Scoring<F::State>,
        Error,
    >)
        requires
            answers.len() == self.scorer().awaits(state),
        ensures
            call_ensures(F::resume, (&self.scorer(), state, answers), r),
    {
        self.score_fn.resume(state, answers)
    }

    /// Finishes a fit with the scores. Without a score the selector is as it
    /// was.
    pub fn finish_fit(&mut self, scores: &Vec<(Text, Double)>) -> (r: Result<(), Error>)
        ensures
            final(self).count() == old(self).count(),
            final(self).scorer() == old(self).scorer(),
            if scores.len() == 0 {
                &&& r is Err
                &&& r->Err_0@ == ErrorView::plain(Problem::NothingToScore, "SelectKBest"@)
                &&& final(self).fitted() == old(self).fitted()
            } else {
                &&& r is Ok
                &&& final(self).fitted() == Some(
                    kbest(ranking::score_views(scores@), old(self).count() as nat),
                )
            },
    {
        if scores.len() == 0 {
            return Err(Error::plain(Problem::NothingToScore, "SelectKBest"));
        }
        let ranked: Vec<(Text, Double)> = ranking::rank(scores, false);
        let selected: Vec<Text> = ranking::lead(&ranked, self.k);
        self.learned = Some((ranked, selected));
        Ok(())
    }

    /// Keeps the selected columns, best first.
    pub fn transform(&self, x: &Frame) -> (r: Result<Sheet, Error>)
        ensures
            frame::outcome(r) == ranking::selection_outcome(
                "SelectKBest"@,
                match self.fitted() {
                    Some(l) => Some(l.1),
                    None => None,
                },
                x@,
            ),
    {
        match &self.learned {
            None => Err(Error::plain(Problem::NotFitted, "SelectKBest")),
            Some(l) => ranking::select(x, &l.1, "SelectKBest"),
        }
    }
}

/// The number of kept columns is `k`, or that of all columns where there are
/// fewer; the ranking holds every score as often as the scores do, and no column
/// that is left out scores higher than one that is kept.
pub proof fn law_kbest(scores: Seq<(Seq<char>, Double)>, k: nat)
    ensures
        ({
            let (ranked, kept) = kbest(scores, k);
            &&& ranked.len() == scores.len()
            &&& kept.len() == if k < scores.len() {
                k
            } else {
                scores.len()
            }
            &&& forall|i: int| 0 <= i < kept.len() ==> #[trigger] kept[i] == ranked[i].0
            &&& forall|i: int, j: int|
                0 <= i < kept.len() <= j < scores.len() ==> (#[trigger] ranked[i]).1.total_rank() >= (
                #[trigger] ranked[j]).1.total_rank()
            &&& scores.to_multiset() == ranked.to_multiset()
        }),
{
    ranking::law_best_first(scores, false);
    let keys = ranking::score_keys(scores, false);
    order::law_order_exists(keys);
    doubles::lemma_arranged(scores, order::order(keys));
}

} // verus!
