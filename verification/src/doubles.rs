//! Lists of double-precision numbers.

use crate::count;
use crate::double;
use crate::double::Double;
use crate::order;
use vstd::prelude::*;

verus! {

/// The places of numbers in the total order.
pub open spec fn ranks(list: Seq<Double>) -> Seq<int> {
    Seq::new(list.len(), |i: int| list[i].total_rank())
}

/// A list in the order of some positions.
pub open spec fn arranged<T>(list: Seq<T>, p: Seq<int>) -> Seq<T> {
    Seq::new(p.len(), |i: int| list[p[i]])
}

/// A list in the total order of its numbers.
pub open spec fn ascending(list: Seq<Double>) -> Seq<Double> {
    arranged(list, order::order(ranks(list)))
}

/// A list without the numbers that equal the one before them.
pub open spec fn collapsed(list: Seq<Double>) -> Seq<Double>
    decreases list.len(),
{
    if list.len() == 0 {
        Seq::empty()
    } else {
        let front = collapsed(list.drop_last());
        if front.len() > 0 && front.last().equals(list.last()) {
            front
        } else {
            front.push(list.last())
        }
    }
}

/// A list in order holds what the list holds, and no number comes before one
/// that stands earlier.
pub proof fn law_ascending(list: Seq<Double>)
    ensures
        ascending(list).len() == list.len(),
        forall|d: Double| #[trigger] ascending(list).contains(d) <==> list.contains(d),
        forall|i: int, j: int|
            0 <= i < j < ascending(list).len() ==> (#[trigger] ascending(list)[i]).total_rank()
                <= (#[trigger] ascending(list)[j]).total_rank(),
{
    let keys = ranks(list);
    let p = order::order(keys);
    let sorted = ascending(list);
    order::law_order_exists(keys);
    assert forall|d: Double| #[trigger] sorted.contains(d) <==> list.contains(d) by {
        if sorted.contains(d) {
            let i = choose|i: int| 0 <= i < sorted.len() && sorted[i] == d;
            assert(0 <= p[i] < keys.len());
            assert(list[p[i]] == d);
        }
        if list.contains(d) {
            let k = choose|k: int| 0 <= k < list.len() && list[k] == d;
            assert(p.contains(k));
            let i = choose|i: int| 0 <= i < p.len() && p[i] == k;
            assert(sorted[i] == d);
        }
    }
    assert forall|i: int, j: int| 0 <= i < j < sorted.len() implies (#[trigger]
    sorted[i]).total_rank() <= (#[trigger] sorted[j]).total_rank() by {
        assert(0 <= p[i] < keys.len());
        assert(0 <= p[j] < keys.len());
        assert(order::before(keys, p[i], p[j]));
    }
}

/// A list that is put in another order holds the same items as often.
pub proof fn lemma_arranged<T>(list: Seq<T>, p: Seq<int>)
    requires
        order::covers(p, 0, list.len() as int),
    ensures
        arranged(list, p).to_multiset() == list.to_multiset(),
{
    let other = arranged(list, p);
    assert forall|item: T| other.to_multiset().count(item) == #[trigger] list.to_multiset().count(
        item,
    ) by {
        let has = count::holds(list, item);
        count::lemma_occurrences(list, item);
        count::lemma_occurrences(other, item);
        count::lemma_agreeing(other.len(), count::holds(other, item), count::at(has, p));
        count::law_any_order(list.len(), has, p);
    }
    assert(other.to_multiset() =~= list.to_multiset());
}

/// Lists that hold the same items as often are the same list in another order.
pub proof fn lemma_same_items<T>(list: Seq<T>, other: Seq<T>) -> (p: Seq<int>)
    requires
        list.to_multiset() == other.to_multiset(),
    ensures
        order::covers(p, 0, list.len() as int),
        other == arranged(list, p),
    decreases other.len(),
{
    broadcast use vstd::seq_lib::group_to_multiset_ensures;

    list.to_multiset_ensures();
    other.to_multiset_ensures();
    assert(list.len() == other.len());
    if other.len() == 0 {
        let p = Seq::<int>::empty();
        assert(other =~= arranged(list, p));
        p
    } else {
        let n = other.len() - 1;
        let last = other[n];
        assert(other.contains(last));
        assert(other.to_multiset().contains(last));
        assert(list.contains(last));
        let at = choose|at: int| 0 <= at < list.len() && list[at] == last;
        let rest = list.remove(at);
        let front = other.drop_last();
        assert(other.remove(n) =~= front);
        assert(front.to_multiset() =~= other.to_multiset().remove(last));
        assert(rest.to_multiset() =~= list.to_multiset().remove(last));
        let q = lemma_same_items(rest, front);
        let moved = Seq::new(
            q.len(),
            |k: int|
                if q[k] < at {
                    q[k]
                } else {
                    q[k] + 1
                },
        );
        let p = moved.push(at);
        assert forall|k: int| 0 <= k < p.len() implies 0 <= #[trigger] p[k] < list.len() by {
            if k < n {
                assert(0 <= q[k] < rest.len());
            }
        }
        assert forall|k: int| 0 <= k < list.len() implies #[trigger] p.contains(k) by {
            if k == at {
                assert(p[n] == k);
            } else {
                let before = if k < at {
                    k
                } else {
                    k - 1
                };
                assert(q.contains(before));
                let m = choose|m: int| 0 <= m < q.len() && q[m] == before;
                assert(p[m] == k);
            }
        }
        assert forall|k: int| 0 <= k < other.len() implies other[k] == arranged(list, p)[k] by {
            if k < n {
                assert(0 <= q[k] < rest.len());
                assert(front[k] == arranged(rest, q)[k]);
                assert(rest[q[k]] == list[p[k]]);
            }
        }
        assert(other =~= arranged(list, p));
        p
    }
}

/// Whether a number does not come after another.
spec fn not_after(a: Double, b: Double) -> bool {
    a.total_rank() <= b.total_rank()
}

/// Lists of the same numbers are the same list when they are put in order.
pub proof fn law_ascending_of_same(list: Seq<Double>, other: Seq<Double>)
    requires
        list.to_multiset() == other.to_multiset(),
    ensures
        ascending(list) == ascending(other),
{
    let leq = |a: Double, b: Double| not_after(a, b);
    law_ascending(list);
    law_ascending(other);
    order::law_order_exists(ranks(list));
    order::law_order_exists(ranks(other));
    lemma_arranged(list, order::order(ranks(list)));
    lemma_arranged(other, order::order(ranks(other)));
    assert(vstd::relations::antisymmetric(leq)) by {
        assert forall|a: Double, b: Double| #[trigger] leq(a, b) && #[trigger] leq(b, a) implies a
            == b by {
            double::law_total_rank_identifies(a, b);
        }
    }
    vstd::seq_lib::lemma_sorted_unique(ascending(list), ascending(other), leq);
}

/// Collapsing keeps the first number, keeps no number twice in a row, and
/// brings in no new one.
pub proof fn law_collapsed(list: Seq<Double>)
    ensures
        collapsed(list).len() <= list.len(),
        list.len() > 0 ==> collapsed(list).len() > 0 && collapsed(list)[0] == list[0],
        list.len() > 0 && !list.last().nan() ==> collapsed(list).last().equals(list.last()),
        forall|k: int| 0 <= k < collapsed(list).len() ==> list.contains(#[trigger] collapsed(list)[k]),
        forall|k: int|
            0 < k < collapsed(list).len() ==> !collapsed(list)[k - 1].equals(
                #[trigger] collapsed(list)[k],
            ),
    decreases list.len(),
{
    if list.len() > 0 {
        let front = list.drop_last();
        let before = collapsed(front);
        let after = collapsed(list);
        law_collapsed(front);
        if front.len() > 0 {
            assert(front[0] == list[0]);
        }
        assert forall|k: int| 0 <= k < after.len() implies list.contains(#[trigger] after[k]) by {
            if k < before.len() {
                assert(after[k] == before[k]);
                assert(front.contains(before[k]));
                let m = choose|m: int| 0 <= m < front.len() && front[m] == before[k];
                assert(list[m] == after[k]);
            } else {
                assert(list[list.len() - 1] == after[k]);
            }
        }
        assert forall|k: int| 0 < k < after.len() implies !after[k - 1].equals(
            #[trigger] after[k],
        ) by {
            if k < before.len() {
                assert(after[k] == before[k]);
                assert(after[k - 1] == before[k - 1]);
            }
        }
    }
}

/// The place of a number in the total order.
pub fn total_key(d: Double) -> (r: i128)
    ensures
        r == d.total_rank(),
{
    if d.bits < crate::double::SIGN {
        d.bits as i128
    } else {
        -((d.bits - crate::double::SIGN) as i128) - 1
    }
}

/// Puts a list in the total order of its numbers.
pub fn sort(list: &Vec<Double>) -> (r: Vec<Double>)
    ensures
        r@ == ascending(list@),
{
    let mut keys: Vec<i128> = Vec::new();
    let mut i: usize = 0;
    while i < list.len()
        invariant
            i <= list.len(),
            keys.len() == i,
            forall|k: int| 0 <= k < i ==> #[trigger] keys@[k] == list@[k].total_rank(),
        decreases list.len() - i,
    {
        keys.push(total_key(list[i]));
        i += 1;
    }
    assert(order::key_values(keys@) =~= ranks(list@));
    let p: Vec<usize> = order::sorted(&keys);
    let mut r: Vec<Double> = Vec::new();
    let mut j: usize = 0;
    while j < p.len()
        invariant
            j <= p.len(),
            p.len() == list.len(),
            forall|k: int| 0 <= k < p.len() ==> (#[trigger] p@[k]) < list.len(),
            r.len() == j,
            forall|k: int| 0 <= k < j ==> #[trigger] r@[k] == list@[p@[k] as int],
        decreases p.len() - j,
    {
        assert(p@[j as int] < list.len());
        r.push(list[p[j]]);
        j += 1;
    }
    assert(r@ =~= ascending(list@)) by {
        let q = order::order(ranks(list@));
        assert(order::positions(p@) == q);
        assert forall|k: int| 0 <= k < r.len() implies r@[k] == list@[q[k]] by {
            assert(order::positions(p@)[k] == p@[k]);
        }
    }
    r
}

/// Leaves out the numbers that equal the one before them.
pub fn collapse(list: &Vec<Double>) -> (r: Vec<Double>)
    ensures
        r@ == collapsed(list@),
{
    let mut r: Vec<Double> = Vec::new();
    let mut i: usize = 0;
    assert(list@.take(0) =~= Seq::<Double>::empty());
    while i < list.len()
        invariant
            i <= list.len(),
            r@ == collapsed(list@.take(i as int)),
        decreases list.len() - i,
    {
        assert(list@.take(i + 1).drop_last() =~= list@.take(i as int));
        if r.len() == 0 || !r[r.len() - 1].is_equal(list[i]) {
            r.push(list[i]);
        }
        i += 1;
    }
    assert(list@.take(i as int) =~= list@);
    r
}

} // verus!
