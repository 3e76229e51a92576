//! Counting positions.

use crate::order;
use vstd::prelude::*;

verus! {

/// How many of the first `n` numbers have a property.
pub open spec fn counted(n: nat, p: spec_fn(int) -> bool) -> nat
    decreases n,
{
    if n == 0 {
        0
    } else {
        counted((n - 1) as nat, p) + if p(n - 1) {
            1nat
        } else {
            0nat
        }
    }
}

/// No more of the first `n` numbers have a property than there are, and where
/// one has it, at least one has.
pub proof fn lemma_counted(n: nat, p: spec_fn(int) -> bool, k: int)
    ensures
        counted(n, p) <= n,
        0 <= k < n && p(k) ==> counted(n, p) >= 1,
    decreases n,
{
    if n > 0 {
        lemma_counted((n - 1) as nat, p, k);
    }
}

/// Properties that agree on the first `n` numbers count the same.
pub proof fn lemma_agreeing(n: nat, p: spec_fn(int) -> bool, q: spec_fn(int) -> bool)
    requires
        forall|k: int| 0 <= k < n ==> #[trigger] p(k) == q(k),
    ensures
        counted(n, p) == counted(n, q),
    decreases n,
{
    if n > 0 {
        lemma_agreeing((n - 1) as nat, p, q);
        assert(p(n - 1) == q(n - 1));
    }
}

/// No more numbers have a property than have one that follows from it.
pub proof fn lemma_fewer(n: nat, p: spec_fn(int) -> bool, q: spec_fn(int) -> bool)
    requires
        forall|k: int| 0 <= k < n && #[trigger] p(k) ==> q(k),
    ensures
        counted(n, p) <= counted(n, q),
    decreases n,
{
    if n > 0 {
        lemma_fewer((n - 1) as nat, p, q);
        assert(p(n - 1) ==> q(n - 1));
    }
}

/// Where only numbers below `c` have a property, at most `c` have it.
pub proof fn lemma_at_most(n: nat, p: spec_fn(int) -> bool, c: nat)
    requires
        forall|k: int| 0 <= k < n && #[trigger] p(k) ==> k < c,
    ensures
        counted(n, p) <= c,
    decreases n,
{
    if n > 0 {
        lemma_at_most((n - 1) as nat, p, c);
        lemma_counted((n - 1) as nat, p, 0);
        assert(p(n - 1) ==> n - 1 < c);
    }
}

/// Where all numbers below `c` have a property, at least `c` have it.
pub proof fn lemma_at_least(n: nat, p: spec_fn(int) -> bool, c: nat)
    requires
        c <= n,
        forall|k: int| 0 <= k < c ==> #[trigger] p(k),
    ensures
        counted(n, p) >= c,
    decreases n,
{
    if n > c {
        lemma_at_least((n - 1) as nat, p, c);
    } else if n > 0 {
        lemma_at_least((n - 1) as nat, p, (c - 1) as nat);
        assert(p(n - 1));
    }
}

/// Whether the number at a position of a list has a property.
pub open spec fn at(p: spec_fn(int) -> bool, list: Seq<int>) -> spec_fn(int) -> bool {
    |j: int| p(list[j])
}

/// The numbers below `n` that have a property.
spec fn having(n: nat, p: spec_fn(int) -> bool) -> Set<int> {
    Set::new(|k: int| 0 <= k < n && p(k))
}

/// What is counted are the numbers that have the property.
proof fn lemma_having(n: nat, p: spec_fn(int) -> bool)
    ensures
        having(n, p).finite(),
        having(n, p).len() == counted(n, p),
    decreases n,
{
    if n == 0 {
        assert(having(n, p) =~= Set::empty());
    } else {
        let m = (n - 1) as nat;
        lemma_having(m, p);
        if p(n - 1) {
            assert(having(n, p) =~= having(m, p).insert(n - 1));
        } else {
            assert(having(n, p) =~= having(m, p));
        }
    }
}

/// A list that holds just the positions up to `n` holds none twice.
pub proof fn lemma_covering(list: Seq<int>, n: nat)
    requires
        order::covers(list, 0, n as int),
    ensures
        list.no_duplicates(),
{
    let all = vstd::set_lib::set_int_range(0, n as int);
    assert(list.to_set() =~= all) by {
        assert forall|k: int| list.to_set().contains(k) <==> all.contains(k) by {
            if list.to_set().contains(k) {
                let i = choose|i: int| 0 <= i < list.len() && list[i] == k;
                assert(0 <= list[i] < n);
            }
            if all.contains(k) {
                assert(list.contains(k));
            }
        }
    }
    vstd::set_lib::lemma_int_range(0, n as int);
    list.lemma_no_dup_set_cardinality();
}

/// What is counted does not depend on the order in which one looks.
pub proof fn law_any_order(n: nat, p: spec_fn(int) -> bool, list: Seq<int>)
    requires
        order::covers(list, 0, n as int),
    ensures
        counted(n, at(p, list)) == counted(n, p),
{
    let f = |j: int| list[j];
    let from = having(n, at(p, list));
    let to = having(n, p);
    lemma_having(n, at(p, list));
    lemma_having(n, p);
    lemma_covering(list, n);
    assert(from.map(f) =~= to) by {
        assert forall|k: int| from.map(f).contains(k) <==> to.contains(k) by {
            if from.map(f).contains(k) {
                let j = choose|j: int| from.contains(j) && f(j) == k;
                assert(0 <= list[j] < n);
            }
            if to.contains(k) {
                assert(list.contains(k));
                let j = choose|j: int| 0 <= j < list.len() && list[j] == k;
                assert(from.contains(j) && f(j) == k);
            }
        }
    }
    assert(vstd::relations::injective_on(f, from));
    vstd::set_lib::lemma_map_size(from, to, f);
}

/// Whether the item at a position is the given one.
pub open spec fn holds<T>(list: Seq<T>, item: T) -> spec_fn(int) -> bool {
    |i: int| list[i] == item
}

/// How often a list holds an item.
pub proof fn lemma_occurrences<T>(list: Seq<T>, item: T)
    ensures
        list.to_multiset().count(item) == counted(list.len(), holds(list, item)),
    decreases list.len(),
{
    broadcast use vstd::seq_lib::group_to_multiset_ensures;

    if list.len() > 0 {
        let front = list.drop_last();
        lemma_occurrences(front, item);
        lemma_agreeing(front.len(), holds(front, item), holds(list, item));
        assert(front.push(list.last()) =~= list);
        assert(list.to_multiset() =~= front.to_multiset().insert(list.last()));
    }
}

} // verus!
