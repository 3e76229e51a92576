//! What an F-value is: the mean square between the classes over the mean square
//! within them, in exact arithmetic.

use crate::calculus;
use crate::count;
use crate::double::Double;
use crate::doubles;
use crate::feature_selection::select_kbest::FeatureView;
use crate::feature_selection::select_kbest;
use crate::program;
use crate::program::Term;
use crate::reals;
use vstd::prelude::*;

verus! {

/// The values of a list of numbers.
pub open spec fn values_of(list: Seq<Double>, value: spec_fn(Double) -> real) -> Seq<real> {
    Seq::new(list.len(), |k: int| value(list[k]))
}

/// The mean of a list of numbers.
pub open spec fn mean_of(list: Seq<Double>, value: spec_fn(Double) -> real) -> real {
    reals::total(values_of(list, value)) / (list.len() as int as real)
}

/// The square of a number.
pub open spec fn squared(r: real) -> real {
    r * r
}

/// The squared distances of a list of numbers from their mean.
pub open spec fn squares_within(list: Seq<Double>, value: spec_fn(Double) -> real) -> Seq<real> {
    Seq::new(list.len(), |k: int| squared(value(list[k]) - mean_of(list, value)))
}

/// For each group the squared distance of its mean from the mean of all values, as
/// often as it has values.
pub open spec fn squares_between(
    groups: Seq<Seq<Double>>,
    values: Seq<Double>,
    value: spec_fn(Double) -> real,
) -> Seq<real> {
    Seq::new(
        groups.len(),
        |g: int|
            (groups[g].len() as int as real) * squared(
                mean_of(groups[g], value) - mean_of(values, value),
            ),
    )
}

/// For each group the sum of the squared distances of its values from their mean.
pub open spec fn sums_within(
    groups: Seq<Seq<Double>>,
    value: spec_fn(Double) -> real,
) -> Seq<real> {
    Seq::new(groups.len(), |g: int| reals::total(squares_within(groups[g], value)))
}

/// The value of a sum that begins with its first item is the sum of the values.
proof fn lemma_sum(list: Seq<Term>, value: spec_fn(Double) -> real)
    requires
        list.len() > 0,
    ensures
        program::exact(program::sum(list), value) == reals::total(reals::exacts(list, value)),
    decreases list.len(),
{
    assert(reals::exacts(list, value).drop_last() =~= reals::exacts(list.drop_last(), value));
    if list.len() > 1 {
        lemma_sum(list.drop_last(), value);
    } else {
        assert(reals::exacts(list.drop_last(), value) =~= Seq::empty());
        assert(reals::total(reals::exacts(list.drop_last(), value)) == 0real);
    }
}

/// The sum of two lists.
proof fn lemma_joined(a: Seq<real>, b: Seq<real>)
    ensures
        reals::total(a + b) == reals::total(a) + reals::total(b),
    decreases b.len(),
{
    if b.len() > 0 {
        lemma_joined(a, b.drop_last());
        assert((a + b).drop_last() =~= a + b.drop_last());
    } else {
        assert(a + b =~= a);
    }
}

/// The first number and the mean of the distances from it make up the mean.
proof fn lemma_mean(list: Seq<Double>, value: spec_fn(Double) -> real)
    requires
        list.len() > 0,
    ensures
        value(list[0]) + program::exact(select_kbest::mean_offset(list), value) == mean_of(
            list,
            value,
        ),
{
    let terms = select_kbest::offsets(list);
    let (all, moved) = (values_of(list, value), reals::exacts(terms, value));
    let first = value(list[0]);
    let n = list.len() as int as real;
    let sum = reals::total(all);
    reveal_with_fuel(program::exact, 3);
    assert forall|k: int| 0 <= k < all.len() implies #[trigger] moved[k] == 1real * all[k] + (
    -first) by {
        assert(1real * all[k] == all[k]) by (nonlinear_arith);
    }
    reals::lemma_moved(all, moved, 1real, -first);
    lemma_sum(terms, value);
    assert(1real * sum == sum) by (nonlinear_arith);
    let rest = sum + (-first) * n;
    assert(program::exact(select_kbest::mean_offset(list), value) == rest / n);
    let (offset, mean) = (rest / n, sum / n);
    calculus::lemma_quotient(rest, n);
    calculus::lemma_quotient(sum, n);
    let d = first + offset - mean;
    assert((first + offset - mean) * n == first * n + offset * n - mean * n) by (nonlinear_arith);
    assert((-first) * n == -(first * n)) by (nonlinear_arith);
    assert(d * n == 0real);
    if d != 0real {
        assert(d * n != 0real) by (nonlinear_arith)
            requires
                d != 0real,
                n > 0real,
        ;
    }
}

/// The sum of squares between groups is that of the distances of their means from
/// the mean of all values, each as often as the group has values.
pub proof fn law_between(
    groups: Seq<Seq<Double>>,
    values: Seq<Double>,
    value: spec_fn(Double) -> real,
)
    requires
        values.len() > 0,
        forall|g: int| 0 <= g < groups.len() ==> (#[trigger] groups[g]).len() > 0,
        value(Double { bits: 0 }) == 0real,
    ensures
        program::exact(select_kbest::between(groups, values), value) == reals::total(
            squares_between(groups, values, value),
        ),
{
    let terms = select_kbest::between_parts(groups, values);
    lemma_mean(values, value);
    assert forall|g: int| 0 <= g < groups.len() implies program::exact(#[trigger] terms[g], value)
        == squares_between(groups, values, value)[g] by {
        assert(groups[g].len() > 0);
        lemma_mean(groups[g], value);
        reveal_with_fuel(program::exact, 5);
        let shift = select_kbest::group_shift(groups[g], values);
        assert(program::exact(shift, value) == mean_of(groups[g], value) - mean_of(values, value));
        assert(program::exact(terms[g], value) == (groups[g].len() as int as real) * squared(
            program::exact(shift, value),
        ));
    }
    assert(reals::exacts(terms, value) =~= squares_between(groups, values, value));
    reals::lemma_running_sum(terms, value);
}

/// The squares of a group.
proof fn lemma_within(list: Seq<Double>, value: spec_fn(Double) -> real)
    requires
        list.len() > 0,
    ensures
        reals::exacts(select_kbest::within_parts(list), value) == squares_within(list, value),
{
    let terms = select_kbest::within_parts(list);
    lemma_mean(list, value);
    assert forall|k: int| 0 <= k < list.len() implies program::exact(#[trigger] terms[k], value)
        == squares_within(list, value)[k] by {
        reveal_with_fuel(program::exact, 4);
        let offset = select_kbest::offsets(list)[k];
        let shift = Term::Minus(Box::new(offset), Box::new(select_kbest::mean_offset(list)));
        assert(program::exact(shift, value) == value(list[k]) - mean_of(list, value));
        assert(program::exact(terms[k], value) == squared(program::exact(shift, value)));
    }
    assert(reals::exacts(terms, value) =~= squares_within(list, value));
}

/// The sum of squares within groups is that of the distances of all values from the
/// means of their groups.
pub proof fn law_within(groups: Seq<Seq<Double>>, value: spec_fn(Double) -> real)
    requires
        forall|g: int| 0 <= g < groups.len() ==> (#[trigger] groups[g]).len() > 0,
        value(Double { bits: 0 }) == 0real,
    ensures
        program::exact(select_kbest::within(groups), value) == reals::total(
            sums_within(groups, value),
        ),
{
    lemma_all_within(groups, value);
    reals::lemma_running_sum(select_kbest::all_within(groups), value);
}

/// The squares of all groups.
proof fn lemma_all_within(groups: Seq<Seq<Double>>, value: spec_fn(Double) -> real)
    requires
        forall|g: int| 0 <= g < groups.len() ==> (#[trigger] groups[g]).len() > 0,
    ensures
        reals::total(reals::exacts(select_kbest::all_within(groups), value)) == reals::total(
            sums_within(groups, value),
        ),
    decreases groups.len(),
{
    let terms = select_kbest::all_within(groups);
    if groups.len() > 0 {
        let front = groups.drop_last();
        assert forall|g: int| 0 <= g < front.len() implies (#[trigger] front[g]).len() > 0 by {
            assert(front[g] == groups[g]);
        }
        lemma_all_within(front, value);
        assert(groups[groups.len() - 1].len() > 0);
        lemma_within(groups.last(), value);
        let (a, b) = (select_kbest::all_within(front), select_kbest::within_parts(groups.last()));
        assert(reals::exacts(a + b, value) =~= reals::exacts(a, value) + reals::exacts(b, value));
        lemma_joined(reals::exacts(a, value), reals::exacts(b, value));
        assert(sums_within(groups, value).drop_last() =~= sums_within(front, value));
    } else {
        assert(reals::exacts(terms, value) =~= Seq::empty());
        assert(sums_within(groups, value) =~= Seq::empty());
    }
}

/// An F-value is the mean square between the groups, over one less than their
/// number, divided by the mean square within them, over the number of values less
/// that of groups. It is infinite where nothing varies within groups but groups
/// differ, and zero where they do not.
pub proof fn law_f_value(
    groups: Seq<Seq<Double>>,
    values: Seq<Double>,
    value: spec_fn(Double) -> real,
    number: spec_fn(real) -> Double,
)
    requires
        values.len() > 0,
        forall|g: int| 0 <= g < groups.len() ==> (#[trigger] groups[g]).len() > 0,
        value(Double { bits: 0 }) == 0real,
        value(Double { bits: 0x3ff0_0000_0000_0000 }) == 1real,
        forall|r: real|
            ((#[trigger] number(r)).equals(Double { bits: 0 }) <==> r == 0real) && ((Double {
                bits: 0,
            }).below(number(r)) <==> r > 0real),
    ensures
        ({
            let outer = reals::total(squares_between(groups, values, value));
            let inner = reals::total(sums_within(groups, value));
            let answers = reals::answered(select_kbest::variances(groups, values), value, number);
            let f = select_kbest::f_value(answers, values.len(), groups.len());
            &&& inner != 0real && values.len() > groups.len() ==> f == number(
                (outer / ((groups.len() - 1) as real)) / (inner / ((values.len() - groups.len())
                    as real)),
            )
            &&& inner != 0real && values.len() <= groups.len() ==> f == (Double { bits: 0 })
            &&& inner == 0real && outer > 0real ==> f == (Double { bits: 0x7ff0_0000_0000_0000 })
            &&& inner == 0real && outer <= 0real ==> f == (Double { bits: 0 })
        }),
{
    law_between(groups, values, value);
    law_within(groups, value);
    let terms = select_kbest::variances(groups, values);
    let answers = reals::answered(terms, value, number);
    let outer = reals::total(squares_between(groups, values, value));
    let inner = reals::total(sums_within(groups, value));
    assert(answers[0] == number(outer));
    assert(answers[1] == number(inner));
    reveal_with_fuel(program::exact, 4);
    assert(program::exact(terms[2], value) == (outer / ((groups.len() - 1) as real)) / (inner / ((
    values.len() - groups.len()) as real)));
}

/// Whether the target of row `r` is class `i`.
pub open spec fn in_class(rows: Seq<(Double, Double)>, class: Double) -> spec_fn(int) -> bool {
    |r: int| class.equals(rows[r].1)
}

/// The value of each row of a class, and zero for the other rows.
pub open spec fn class_values(
    rows: Seq<(Double, Double)>,
    class: Double,
    value: spec_fn(Double) -> real,
) -> Seq<real> {
    Seq::new(
        rows.len(),
        |r: int|
            if class.equals(rows[r].1) {
                value(rows[r].0)
            } else {
                0real
            },
    )
}

/// Where class `i` is not close to another, its group holds the values of the rows
/// whose target it is: as many as there are such rows, with the same sum.
pub proof fn law_group(
    rows: Seq<(Double, Double)>,
    classes: Seq<Double>,
    distances: Seq<Double>,
    i: int,
    value: spec_fn(Double) -> real,
)
    requires
        0 <= i < classes.len(),
        forall|j: int|
            0 <= j < classes.len() && j != i ==> !(#[trigger] distances[i * classes.len()
                + j]).below(Double { bits: select_kbest::NEAR }),
    ensures
        ({
            let list = select_kbest::group(rows, classes, distances, i);
            &&& list.len() == count::counted(rows.len(), in_class(rows, classes[i]))
            &&& reals::total(values_of(list, value)) == reals::total(
                class_values(rows, classes[i], value),
            )
        }),
    decreases rows.len(),
{
    let list = select_kbest::group(rows, classes, distances, i);
    if rows.len() > 0 {
        let front = rows.drop_last();
        law_group(front, classes, distances, i, value);
        count::lemma_agreeing(
            front.len(),
            in_class(front, classes[i]),
            in_class(rows, classes[i]),
        );
        assert(class_values(rows, classes[i], value).drop_last() =~= class_values(
            front,
            classes[i],
            value,
        ));
        let t = rows.last().1;
        assert(select_kbest::belongs(classes, distances, i, t) == classes[i].equals(t)) by {
            if classes[i].equals(t) {
                assert(select_kbest::belongs(classes, distances, i, t));
            }
            if select_kbest::belongs(classes, distances, i, t) {
                let j = choose|j: int|
                    0 <= j < classes.len() && (#[trigger] classes[j]).equals(t) && (j == i
                        || distances[i * classes.len() + j].below(
                        Double { bits: select_kbest::NEAR },
                    ));
                assert(j == i);
            }
        }
        if classes[i].equals(t) {
            assert(values_of(list, value).drop_last() =~= values_of(
                select_kbest::group(front, classes, distances, i),
                value,
            ));
        }
    } else {
        assert(values_of(list, value) =~= Seq::empty());
        assert(class_values(rows, classes[i], value) =~= Seq::empty());
    }
}

/// The classes of a feature are its different targets, in ascending order.
pub proof fn law_classes(f: FeatureView, i: int)
    requires
        0 <= i < f.classes().len(),
        forall|r: int| 0 <= r < f.rows.len() ==> (#[trigger] f.rows[r]).1.finite(),
    ensures
        count::counted(f.rows.len(), in_class(f.rows, f.classes()[i])) > 0,
        i > 0 ==> !f.classes()[i - 1].equals(f.classes()[i]),
{
    let targets = select_kbest::row_targets(f.rows);
    let sorted = doubles::ascending(targets);
    doubles::law_ascending(targets);
    doubles::law_collapsed(sorted);
    let class = f.classes()[i];
    assert(sorted.contains(class));
    assert(targets.contains(class));
    let r = choose|r: int| 0 <= r < targets.len() && targets[r] == class;
    assert(f.rows[r].1.finite());
    count::lemma_counted(f.rows.len(), in_class(f.rows, class), r);
}

/// The score of a feature whose classes are not close to each other is the F-value
/// of its values, grouped by their targets: the mean square between the groups over
/// the mean square within them. Each group holds the values of the rows whose
/// target is its class.
pub proof fn law_score_of_a_feature(
    f: FeatureView,
    distances: Seq<Double>,
    value: spec_fn(Double) -> real,
    number: spec_fn(real) -> Double,
) -> (groups: Seq<Seq<Double>>)
    requires
        f.rows.len() > 0,
        forall|r: int| 0 <= r < f.rows.len() ==> (#[trigger] f.rows[r]).1.finite(),
        forall|i: int, j: int|
            0 <= i < f.classes().len() && 0 <= j < f.classes().len() && j != i ==> !(
            #[trigger] distances[i * f.classes().len() + j]).below(
                Double { bits: select_kbest::NEAR },
            ),
        value(Double { bits: 0 }) == 0real,
        value(Double { bits: 0x3ff0_0000_0000_0000 }) == 1real,
        forall|r: real|
            ((#[trigger] number(r)).equals(Double { bits: 0 }) <==> r == 0real) && ((Double {
                bits: 0,
            }).below(number(r)) <==> r > 0real),
    ensures
        groups.len() == f.classes().len(),
        forall|i: int|
            0 <= i < groups.len() ==> {
                &&& (#[trigger] groups[i]).len() == count::counted(
                    f.rows.len(),
                    in_class(f.rows, f.classes()[i]),
                )
                &&& reals::total(values_of(groups[i], value)) == reals::total(
                    class_values(f.rows, f.classes()[i], value),
                )
            },
        ({
            let values = Seq::new(f.rows.len(), |r: int| f.rows[r].0);
            let outer = reals::total(squares_between(groups, values, value));
            let inner = reals::total(sums_within(groups, value));
            let score = f.score(reals::answered(f.variances(distances), value, number));
            &&& inner != 0real && values.len() > groups.len() ==> score == number(
                (outer / ((groups.len() - 1) as real)) / (inner / ((values.len() - groups.len())
                    as real)),
            )
            &&& inner != 0real && values.len() <= groups.len() ==> score == (Double { bits: 0 })
            &&& inner == 0real && outer > 0real ==> score == (Double {
                bits: 0x7ff0_0000_0000_0000,
            })
            &&& inner == 0real && outer <= 0real ==> score == (Double { bits: 0 })
        }),
{
    let classes = f.classes();
    let groups = select_kbest::groups(f.rows, classes, distances);
    let values = Seq::new(f.rows.len(), |r: int| f.rows[r].0);
    assert(select_kbest::row_values(f.rows) =~= values);
    assert forall|i: int| 0 <= i < groups.len() implies {
        &&& (#[trigger] groups[i]).len() == count::counted(
            f.rows.len(),
            in_class(f.rows, classes[i]),
        )
        &&& groups[i].len() > 0
        &&& reals::total(values_of(groups[i], value)) == reals::total(
            class_values(f.rows, classes[i], value),
        )
    } by {
        law_classes(f, i);
        law_group(f.rows, classes, distances, i, value);
    }
    law_f_value(groups, values, value, number);
    groups
}

/// The distances of classes are asked for row by row: that of class `i` from class
/// `j` is how far they are apart, whichever is greater. In exact arithmetic.
pub proof fn law_class_distances(
    classes: Seq<Double>,
    i: int,
    j: int,
    value: spec_fn(Double) -> real,
)
    requires
        0 <= i < classes.len(),
        0 <= j < classes.len(),
    ensures
        ({
            let m = classes.len();
            let terms = select_kbest::class_distances(classes);
            let d = program::exact(terms[i * m + j], value);
            &&& terms.len() == m * m
            &&& 0 <= i * m + j < m * m
            &&& d >= 0real
            &&& d == value(classes[i]) - value(classes[j]) || d == value(classes[j]) - value(
                classes[i],
            )
        }),
{
    let m = classes.len() as int;
    vstd::arithmetic::div_mod::lemma_fundamental_div_mod_converse(i * m + j, m, i, j);
    assert(0 <= i * m && i * m + m <= m * m) by (nonlinear_arith)
        requires
            0 <= i < m,
    ;
    reveal_with_fuel(program::exact, 3);
}

/// Targets of class `j` belong to class `i` where the two are the same, or less
/// than a ten-billionth apart, and nowhere else.
pub proof fn law_close_classes(
    classes: Seq<Double>,
    distances: Seq<Double>,
    i: int,
    j: int,
    t: Double,
)
    requires
        0 <= i < classes.len(),
        0 <= j < classes.len(),
        forall|k: int| 0 <= k < classes.len() ==> ((#[trigger] classes[k]).equals(t) <==> k == j),
    ensures
        select_kbest::belongs(classes, distances, i, t) <==> (i == j || distances[i
            * classes.len() + j].below(Double { bits: 0x3ddb_7cdf_d9d7_bdbb })),
{
    assert(classes[j].equals(t));
}

} // verus!
