//! Sums of real numbers, and of terms in exact arithmetic.

use crate::double::Double;
use crate::program;
use crate::program::Term;
use vstd::prelude::*;

verus! {

/// The sum of a list.
pub open spec fn total(list: Seq<real>) -> real
    decreases list.len(),
{
    if list.len() == 0 {
        0real
    } else {
        total(list.drop_last()) + list.last()
    }
}

/// The values of terms in exact arithmetic.
pub open spec fn exacts(list: Seq<Term>, value: spec_fn(Double) -> real) -> Seq<real> {
    Seq::new(list.len(), |k: int| program::exact(list[k], value))
}

/// The answers to what is asked: the exact values, as numbers.
pub open spec fn answered(
    terms: Seq<Term>,
    value: spec_fn(Double) -> real,
    number: spec_fn(real) -> Double,
) -> Seq<Double> {
    Seq::new(terms.len(), |k: int| number(program::exact(terms[k], value)))
}

/// Whether no greater value becomes a lesser number, as is so where numbers are
/// rounded.
pub open spec fn rounds(number: spec_fn(real) -> Double) -> bool {
    forall|r: real, s: real|
        r <= s ==> (#[trigger] number(r)).below(#[trigger] number(s)) || number(r).equals(number(s))
}

/// The value of a running sum is the sum of the values.
pub proof fn lemma_running_sum(list: Seq<Term>, value: spec_fn(Double) -> real)
    requires
        value(Double { bits: 0 }) == 0real,
    ensures
        program::exact(program::running_sum(list), value) == total(exacts(list, value)),
    decreases list.len(),
{
    if list.len() > 0 {
        lemma_running_sum(list.drop_last(), value);
        assert(exacts(list, value).drop_last() =~= exacts(list.drop_last(), value));
    }
}

/// The sum of a list whose items are all divided.
pub proof fn lemma_divided(list: Seq<real>, other: Seq<real>, d: real)
    requires
        d != 0real,
        other.len() == list.len(),
        forall|k: int| 0 <= k < list.len() ==> #[trigger] other[k] == list[k] / d,
    ensures
        total(other) == total(list) / d,
    decreases list.len(),
{
    if list.len() == 0 {
        assert(0real / d == 0real) by (nonlinear_arith)
            requires
                d != 0real,
        ;
    } else {
        let (front, rest) = (list.drop_last(), other.drop_last());
        assert forall|k: int| 0 <= k < front.len() implies #[trigger] rest[k] == front[k] / d by {
            assert(other[k] == list[k] / d);
        }
        lemma_divided(front, rest, d);
        let (a, b) = (total(front), list.last());
        assert(other[list.len() - 1] == b / d);
        assert(a / d + b / d == (a + b) / d) by (nonlinear_arith)
            requires
                d != 0real,
        ;
    }
}

/// The sum of a list whose items are all multiplied and moved.
pub proof fn lemma_moved(list: Seq<real>, other: Seq<real>, factor: real, shift: real)
    requires
        other.len() == list.len(),
        forall|k: int| 0 <= k < list.len() ==> #[trigger] other[k] == factor * list[k] + shift,
    ensures
        total(other) == factor * total(list) + shift * (list.len() as int as real),
    decreases list.len(),
{
    if list.len() == 0 {
        assert(factor * 0real == 0real && shift * 0real == 0real) by (nonlinear_arith);
    } else {
        let (front, rest) = (list.drop_last(), other.drop_last());
        assert forall|k: int| 0 <= k < front.len() implies #[trigger] rest[k] == factor * front[k]
            + shift by {
            assert(other[k] == factor * list[k] + shift);
        }
        lemma_moved(front, rest, factor, shift);
        let (a, b) = (total(front), list.last());
        let m = front.len() as int as real;
        assert(other[list.len() - 1] == factor * b + shift);
        assert(list.len() as int as real == m + 1real);
        assert(factor * (a + b) + shift * (m + 1real) == factor * a + shift * m + (factor * b
            + shift)) by (nonlinear_arith);
    }
}

/// A sum of numbers that are not negative is not negative, and zero only where
/// all are.
pub proof fn lemma_not_negative(list: Seq<real>)
    requires
        forall|k: int| 0 <= k < list.len() ==> #[trigger] list[k] >= 0real,
    ensures
        total(list) >= 0real,
        total(list) == 0real ==> forall|k: int|
            0 <= k < list.len() ==> #[trigger] list[k] == 0real,
    decreases list.len(),
{
    if list.len() > 0 {
        let front = list.drop_last();
        assert forall|k: int| 0 <= k < front.len() implies #[trigger] front[k] >= 0real by {
            assert(front[k] == list[k]);
        }
        lemma_not_negative(front);
        assert(list[list.len() - 1] >= 0real);
        if total(list) == 0real {
            assert forall|k: int| 0 <= k < list.len() implies #[trigger] list[k] == 0real by {
                if k < front.len() {
                    assert(front[k] == list[k]);
                }
            }
        }
    }
}

/// A sum without one of its items.
proof fn lemma_without(list: Seq<real>, i: int)
    requires
        0 <= i < list.len(),
    ensures
        total(list) == total(list.remove(i)) + list[i],
    decreases list.len(),
{
    let front = list.drop_last();
    if i == list.len() - 1 {
        assert(list.remove(i) =~= front);
    } else {
        lemma_without(front, i);
        assert(list.remove(i).drop_last() =~= front.remove(i));
    }
}

/// A sum does not depend on the order of its items.
pub proof fn law_sum_in_any_order(list: Seq<real>, other: Seq<real>)
    requires
        list.to_multiset() == other.to_multiset(),
    ensures
        total(list) == total(other),
    decreases list.len(),
{
    broadcast use vstd::seq_lib::group_to_multiset_ensures;

    list.to_multiset_ensures();
    other.to_multiset_ensures();
    assert(list.len() == other.len());
    if list.len() > 0 {
        let last = list.last();
        assert(list[list.len() - 1] == last);
        assert(list.contains(last));
        assert(list.to_multiset().contains(last));
        assert(other.contains(last));
        let i = choose|i: int| 0 <= i < other.len() && other[i] == last;
        lemma_without(other, i);
        assert(list.remove(list.len() - 1) =~= list.drop_last());
        assert(list.drop_last().to_multiset() =~= list.to_multiset().remove(last));
        assert(other.remove(i).to_multiset() =~= other.to_multiset().remove(last));
        law_sum_in_any_order(list.drop_last(), other.remove(i));
    }
}

} // verus!
