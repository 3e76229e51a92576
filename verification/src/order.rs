//! Stable sorting.
//!
//! Sorting gives positions: the position of the least key, of the next, and so
//! on; equal keys keep the order in which they stand.

use vstd::prelude::*;

verus! {

/// Whether position `a` comes before position `b`.
pub open spec fn before(keys: Seq<int>, a: int, b: int) -> bool {
    keys[a] < keys[b] || keys[a] == keys[b] && a < b
}

/// Whether every position comes before those after it.
pub open spec fn increasing(keys: Seq<int>, p: Seq<int>) -> bool {
    forall|i: int, j: int| 0 <= i < j < p.len() ==> before(keys, #[trigger] p[i], #[trigger] p[j])
}

/// Whether a list holds just the positions from `low` up to `high`.
pub open spec fn covers(p: Seq<int>, low: int, high: int) -> bool {
    &&& p.len() == high - low
    &&& forall|i: int| 0 <= i < p.len() ==> low <= #[trigger] p[i] < high
    &&& forall|k: int| low <= k < high ==> #[trigger] p.contains(k)
}

/// Whether a list holds all positions in order of their keys.
pub open spec fn sorts(keys: Seq<int>, p: Seq<int>) -> bool {
    covers(p, 0, keys.len() as int) && increasing(keys, p)
}

/// The positions in order of their keys.
pub open spec fn order(keys: Seq<int>) -> Seq<int> {
    choose|p: Seq<int>| sorts(keys, p)
}

/// There is one way to put positions in order of their keys.
pub proof fn law_order_unique(keys: Seq<int>, p: Seq<int>)
    requires
        sorts(keys, p),
    ensures
        order(keys) == p,
{
    let q = order(keys);
    assert(sorts(keys, q));
    lemma_increasing_unique(keys, p, q);
}

/// Two increasing lists of the same positions are the same.
proof fn lemma_increasing_unique(keys: Seq<int>, p: Seq<int>, q: Seq<int>)
    requires
        increasing(keys, p),
        increasing(keys, q),
        forall|k: int| #[trigger] p.contains(k) <==> q.contains(k),
    ensures
        p == q,
    decreases p.len(),
{
    if p.len() == 0 {
        if q.len() > 0 {
            assert(q.contains(q[0]));
            assert(p.contains(q[0]));
        }
        assert(p =~= q);
    } else {
        assert(p.contains(p.last()));
        let k = choose|k: int| 0 <= k < q.len() && q[k] == p.last();
        assert(q.contains(q.last()));
        assert(p.contains(q.last()));
        let m = choose|m: int| 0 <= m < p.len() && p[m] == q.last();
        if k < q.len() - 1 {
            assert(before(keys, q[k], q.last()));
            if m < p.len() - 1 {
                assert(before(keys, p[m], p.last()));
            }
        }
        assert(p.last() == q.last());
        let x = p.drop_last();
        let y = q.drop_last();
        assert(forall|i: int| 0 <= i < x.len() ==> x[i] == p[i]);
        assert(forall|i: int| 0 <= i < y.len() ==> y[i] == q[i]);
        assert forall|t: int| #[trigger] x.contains(t) <==> y.contains(t) by {
            if x.contains(t) {
                let i = choose|i: int| 0 <= i < x.len() && x[i] == t;
                assert(before(keys, p[i], p.last()));
                assert(p.contains(t));
                let j = choose|j: int| 0 <= j < q.len() && q[j] == t;
                assert(y[j] == t);
            }
            if y.contains(t) {
                let i = choose|i: int| 0 <= i < y.len() && y[i] == t;
                assert(before(keys, q[i], q.last()));
                assert(q.contains(t));
                assert(p.contains(t));
                let j = choose|j: int| 0 <= j < p.len() && p[j] == t;
                assert(x[j] == t);
            }
        }
        lemma_increasing_unique(keys, x, y);
        assert(p =~= x.push(p.last()));
        assert(q =~= y.push(q.last()));
    }
}

/// Positions can always be put in order of their keys.
pub proof fn law_order_exists(keys: Seq<int>)
    ensures
        sorts(keys, order(keys)),
{
    let p = lemma_sorting(keys, keys.len());
    assert(sorts(keys, p));
}

/// The first `n` positions in order of their keys.
proof fn lemma_sorting(keys: Seq<int>, n: nat) -> (p: Seq<int>)
    requires
        n <= keys.len(),
    ensures
        covers(p, 0, n as int),
        increasing(keys, p),
    decreases n,
{
    if n == 0 {
        Seq::empty()
    } else {
        let m = n - 1;
        let q = lemma_sorting(keys, m as nat);
        let at = lemma_place(keys, q, m);
        let p = q.insert(at, m);
        assert forall|i: int, j: int| 0 <= i < j < p.len() implies before(
            keys,
            #[trigger] p[i],
            #[trigger] p[j],
        ) by {
            let a = if i < at {
                i
            } else {
                i - 1
            };
            let b = if j < at {
                j
            } else {
                j - 1
            };
            if i != at {
                assert(p[i] == q[a]);
            }
            if j != at {
                assert(p[j] == q[b]);
            }
        }
        assert forall|k: int| 0 <= k < n implies #[trigger] p.contains(k) by {
            if k == m {
                assert(p[at] == k);
            } else {
                assert(q.contains(k));
                let i = choose|i: int| 0 <= i < q.len() && q[i] == k;
                let j = if i < at {
                    i
                } else {
                    i + 1
                };
                assert(p[j] == k);
            }
        }
        assert forall|i: int| 0 <= i < p.len() implies 0 <= #[trigger] p[i] < n by {
            if i < at {
                assert(p[i] == q[i]);
            } else if i > at {
                assert(p[i] == q[i - 1]);
            }
        }
        p
    }
}

/// Where a later position belongs in an increasing list of earlier ones.
proof fn lemma_place(keys: Seq<int>, q: Seq<int>, m: int) -> (at: int)
    requires
        increasing(keys, q),
        forall|i: int| 0 <= i < q.len() ==> 0 <= #[trigger] q[i] < m,
        0 <= m < keys.len(),
    ensures
        0 <= at <= q.len(),
        forall|i: int| 0 <= i < at ==> before(keys, #[trigger] q[i], m),
        forall|i: int| at <= i < q.len() ==> before(keys, m, #[trigger] q[i]),
    decreases q.len(),
{
    if q.len() == 0 {
        0
    } else if before(keys, q.last(), m) {
        assert forall|i: int| 0 <= i < q.len() implies before(keys, #[trigger] q[i], m) by {
            if i < q.len() - 1 {
                assert(before(keys, q[i], q.last()));
            }
        }
        q.len() as int
    } else {
        let front = q.drop_last();
        assert(forall|i: int| 0 <= i < front.len() ==> front[i] == q[i]);
        let at = lemma_place(keys, front, m);
        assert forall|i: int| 0 <= i < at implies before(keys, #[trigger] q[i], m) by {
            assert(front[i] == q[i]);
        }
        assert forall|i: int| at <= i < q.len() implies before(keys, m, #[trigger] q[i]) by {
            if i < front.len() {
                assert(front[i] == q[i]);
            }
        }
        at
    }
}

/// A list of positions as integers.
pub open spec fn positions(p: Seq<usize>) -> Seq<int> {
    Seq::new(p.len(), |i: int| p[i] as int)
}

/// A list of keys as integers.
pub open spec fn key_values(keys: Seq<i128>) -> Seq<int> {
    Seq::new(keys.len(), |i: int| keys[i] as int)
}

/// The positions from `low` up to `high` in order of their keys.
fn sort_range(keys: &Vec<i128>, low: usize, high: usize) -> (r: Vec<usize>)
    requires
        low <= high <= keys.len(),
    ensures
        covers(positions(r@), low as int, high as int),
        increasing(key_values(keys@), positions(r@)),
    decreases high - low,
{
    if high - low == 0 {
        let r: Vec<usize> = Vec::new();
        return r;
    }
    if high - low == 1 {
        let mut r: Vec<usize> = Vec::new();
        r.push(low);
        assert(positions(r@)[0] == low);
        return r;
    }
    let middle: usize = low + (high - low) / 2;
    let left: Vec<usize> = sort_range(keys, low, middle);
    let right: Vec<usize> = sort_range(keys, middle, high);
    merge(keys, &left, &right, low, middle, high)
}

/// Merges two lists in order.
fn merge(
    keys: &Vec<i128>,
    left: &Vec<usize>,
    right: &Vec<usize>,
    low: usize,
    middle: usize,
    high: usize,
) -> (r: Vec<usize>)
    requires
        low <= middle <= high <= keys.len(),
        covers(positions(left@), low as int, middle as int),
        covers(positions(right@), middle as int, high as int),
        increasing(key_values(keys@), positions(left@)),
        increasing(key_values(keys@), positions(right@)),
    ensures
        covers(positions(r@), low as int, high as int),
        increasing(key_values(keys@), positions(r@)),
{
    let ghost ks = key_values(keys@);
    let ghost a = positions(left@);
    let ghost b = positions(right@);
    let mut r: Vec<usize> = Vec::new();
    let mut i: usize = 0;
    let mut j: usize = 0;
    while i < left.len() || j < right.len()
        invariant
            i <= left.len(),
            j <= right.len(),
            low <= middle <= high <= keys.len(),
            ks == key_values(keys@),
            a == positions(left@),
            b == positions(right@),
            covers(a, low as int, middle as int),
            covers(b, middle as int, high as int),
            increasing(ks, a),
            increasing(ks, b),
            r.len() == i + j,
            increasing(ks, positions(r@)),
            forall|k: int| 0 <= k < r.len() ==> low <= #[trigger] positions(r@)[k] < high,
            forall|k: int| 0 <= k < i ==> positions(r@).contains(#[trigger] a[k]),
            forall|k: int| 0 <= k < j ==> positions(r@).contains(#[trigger] b[k]),
            forall|k: int, m: int|
                0 <= k < r.len() && i <= m < a.len() ==> before(
                    ks,
                    #[trigger] positions(r@)[k],
                    #[trigger] a[m],
                ),
            forall|k: int, m: int|
                0 <= k < r.len() && j <= m < b.len() ==> before(
                    ks,
                    #[trigger] positions(r@)[k],
                    #[trigger] b[m],
                ),
        decreases left.len() - i + right.len() - j,
    {
        let ghost old_r = positions(r@);
        let from_left: bool = if i == left.len() {
            false
        } else if j == right.len() {
            true
        } else {
            proof {
                assert(low <= a[i as int] < middle);
                assert(middle <= b[j as int] < high);
            }
            keys[left[i]] <= keys[right[j]]
        };
        if from_left {
            let next: usize = left[i];
            assert(a[i as int] == next);
            assert(low <= a[i as int] < middle);
            r.push(next);
            let ghost now = positions(r@);
            proof {
                assert(now =~= old_r.push(next as int));
                assert forall|k: int| 0 <= k < i + 1 implies now.contains(#[trigger] a[k]) by {
                    if k < i {
                        assert(old_r.contains(a[k]));
                        let m = choose|m: int| 0 <= m < old_r.len() && old_r[m] == a[k];
                        assert(now[m] == a[k]);
                    } else {
                        assert(now[old_r.len() as int] == a[k]);
                    }
                }
                assert forall|k: int| 0 <= k < j implies now.contains(#[trigger] b[k]) by {
                    assert(old_r.contains(b[k]));
                    let m = choose|m: int| 0 <= m < old_r.len() && old_r[m] == b[k];
                    assert(now[m] == b[k]);
                }
                assert forall|k: int, m: int| 0 <= k < now.len() && j <= m < b.len() implies before(
                    ks,
                    #[trigger] now[k],
                    #[trigger] b[m],
                ) by {
                    if k < old_r.len() {
                        assert(now[k] == old_r[k]);
                    } else {
                        assert(middle <= b[m] < high);
                        assert(before(ks, a[i as int], b[j as int]));
                        if m > j {
                            assert(before(ks, b[j as int], b[m]));
                        }
                    }
                }
                assert forall|k: int, m: int| 0 <= k < now.len() && i + 1 <= m < a.len() implies before(
                    ks,
                    #[trigger] now[k],
                    #[trigger] a[m],
                ) by {
                    if k < old_r.len() {
                        assert(now[k] == old_r[k]);
                    }
                }
                assert forall|k: int, m: int| 0 <= k < m < now.len() implies before(
                    ks,
                    #[trigger] now[k],
                    #[trigger] now[m],
                ) by {
                    assert(now[k] == old_r[k]);
                    if m < old_r.len() {
                        assert(now[m] == old_r[m]);
                    } else {
                        assert(now[m] == a[i as int]);
                    }
                }
            }
            i += 1;
        } else {
            let next: usize = right[j];
            assert(b[j as int] == next);
            assert(middle <= b[j as int] < high);
            r.push(next);
            let ghost now = positions(r@);
            proof {
                assert(now =~= old_r.push(next as int));
                assert forall|k: int| 0 <= k < j + 1 implies now.contains(#[trigger] b[k]) by {
                    if k < j {
                        assert(old_r.contains(b[k]));
                        let m = choose|m: int| 0 <= m < old_r.len() && old_r[m] == b[k];
                        assert(now[m] == b[k]);
                    } else {
                        assert(now[old_r.len() as int] == b[k]);
                    }
                }
                assert forall|k: int| 0 <= k < i implies now.contains(#[trigger] a[k]) by {
                    assert(old_r.contains(a[k]));
                    let m = choose|m: int| 0 <= m < old_r.len() && old_r[m] == a[k];
                    assert(now[m] == a[k]);
                }
                assert forall|k: int, m: int| 0 <= k < now.len() && i <= m < a.len() implies before(
                    ks,
                    #[trigger] now[k],
                    #[trigger] a[m],
                ) by {
                    if k < old_r.len() {
                        assert(now[k] == old_r[k]);
                    } else {
                        assert(low <= a[i as int] < middle);
                        assert(before(ks, b[j as int], a[i as int]));
                        if m > i {
                            assert(before(ks, a[i as int], a[m]));
                        }
                    }
                }
                assert forall|k: int, m: int| 0 <= k < now.len() && j + 1 <= m < b.len() implies before(
                    ks,
                    #[trigger] now[k],
                    #[trigger] b[m],
                ) by {
                    if k < old_r.len() {
                        assert(now[k] == old_r[k]);
                    }
                }
                assert forall|k: int, m: int| 0 <= k < m < now.len() implies before(
                    ks,
                    #[trigger] now[k],
                    #[trigger] now[m],
                ) by {
                    assert(now[k] == old_r[k]);
                    if m < old_r.len() {
                        assert(now[m] == old_r[m]);
                    } else {
                        assert(now[m] == b[j as int]);
                    }
                }
            }
            j += 1;
        }
    }
    proof {
        let now = positions(r@);
        assert forall|k: int| low <= k < high implies #[trigger] now.contains(k) by {
            if k < middle {
                assert(a.contains(k));
                let m = choose|m: int| 0 <= m < a.len() && a[m] == k;
                assert(now.contains(a[m]));
            } else {
                assert(b.contains(k));
                let m = choose|m: int| 0 <= m < b.len() && b[m] == k;
                assert(now.contains(b[m]));
            }
        }
    }
    r
}

/// The positions in order of their keys.
pub fn sorted(keys: &Vec<i128>) -> (r: Vec<usize>)
    ensures
        positions(r@) == order(key_values(keys@)),
        sorts(key_values(keys@), positions(r@)),
        r.len() == keys.len(),
        forall|i: int| 0 <= i < r.len() ==> (#[trigger] r@[i]) < keys.len(),
{
    let r: Vec<usize> = sort_range(keys, 0, keys.len());
    proof {
        law_order_unique(key_values(keys@), positions(r@));
        assert forall|i: int| 0 <= i < r.len() implies (#[trigger] r@[i]) < keys.len() by {
            assert(0 <= positions(r@)[i] < keys.len());
        }
    }
    r
}

} // verus!
