//! Distinct texts in ascending order, with how often each occurs.

use crate::text;
use crate::text::Text;
use vstd::prelude::*;

verus! {

/// Whether every text comes strictly before those after it.
pub open spec fn ascending(list: Seq<Seq<char>>) -> bool {
    forall|i: int, j: int|
        0 <= i < j < list.len() ==> text::less(#[trigger] list[i], #[trigger] list[j])
}

/// An ascending list with `item` at its place; the list itself where it holds
/// `item` already.
pub open spec fn placed(list: Seq<Seq<char>>, item: Seq<char>) -> Seq<Seq<char>>
    decreases list.len(),
{
    if list.len() == 0 {
        seq![item]
    } else if list.last() == item {
        list
    } else if text::less(list.last(), item) {
        list.push(item)
    } else {
        placed(list.drop_last(), item).push(list.last())
    }
}

/// The distinct texts of `items`, in ascending order.
pub open spec fn distinct(items: Seq<Seq<char>>) -> Seq<Seq<char>>
    decreases items.len(),
{
    if items.len() == 0 {
        Seq::empty()
    } else {
        placed(distinct(items.drop_last()), items.last())
    }
}

/// How often `item` occurs in `items`.
pub open spec fn occurrences<T>(items: Seq<T>, item: T) -> nat
    decreases items.len(),
{
    if items.len() == 0 {
        0
    } else {
        occurrences(items.drop_last(), item) + if items.last() == item {
            1nat
        } else {
            0nat
        }
    }
}

/// How often each text of `list` occurs in `items`.
pub open spec fn frequencies(list: Seq<Seq<char>>, items: Seq<Seq<char>>) -> Seq<nat> {
    Seq::new(list.len(), |i: int| occurrences(items, list[i]))
}

/// The sum of a list of numbers.
pub open spec fn total(counts: Seq<nat>) -> nat
    decreases counts.len(),
{
    if counts.len() == 0 {
        0
    } else {
        total(counts.drop_last()) + counts.last()
    }
}

/// The first place in an ascending list whose text does not come before `item`.
pub open spec fn splits(list: Seq<Seq<char>>, item: Seq<char>, at: int) -> bool {
    &&& 0 <= at <= list.len()
    &&& forall|i: int| 0 <= i < at ==> text::less(#[trigger] list[i], item)
    &&& forall|i: int| at <= i < list.len() ==> !text::less(#[trigger] list[i], item)
}

/// What [`placed`] does, by the place of the item.
pub proof fn lemma_placed(list: Seq<Seq<char>>, item: Seq<char>, at: int)
    requires
        ascending(list),
        splits(list, item, at),
    ensures
        at < list.len() && list[at] == item ==> placed(list, item) == list,
        !(at < list.len() && list[at] == item) ==> placed(list, item) == list.insert(at, item),
    decreases list.len(),
{
    if list.len() == 0 {
        assert(list.insert(at, item) =~= seq![item]);
    } else if list.last() == item {
        text::law_less_irreflexive(item);
        assert(at <= list.len() - 1);
        if at < list.len() - 1 {
            assert(text::less(list[at], list.last()));
        }
    } else if text::less(list.last(), item) {
        assert(at == list.len());
        assert(list.insert(at, item) =~= list.push(item));
    } else {
        assert(at < list.len());
        let front = list.drop_last();
        lemma_placed(front, item, at);
        assert(forall|i: int| 0 <= i < front.len() ==> front[i] == list[i]);
        if at < front.len() && front[at] == item {
            assert(list =~= front.push(list.last()));
        } else {
            assert(front.insert(at, item).push(list.last()) =~= list.insert(at, item));
        }
    }
}

/// There is a place for every item.
pub proof fn lemma_split_exists(list: Seq<Seq<char>>, item: Seq<char>) -> (at: int)
    requires
        ascending(list),
    ensures
        splits(list, item, at),
    decreases list.len(),
{
    if list.len() == 0 {
        0
    } else {
        let front = list.drop_last();
        assert(forall|i: int| 0 <= i < front.len() ==> front[i] == list[i]);
        let at = lemma_split_exists(front, item);
        if at == front.len() && text::less(list.last(), item) {
            list.len() as int
        } else {
            if at < front.len() && text::less(list.last(), item) {
                text::law_less_transitive(list[at], list.last(), item);
            }
            at
        }
    }
}

/// Placing an item keeps the list ascending and adds nothing else.
pub proof fn lemma_placed_keeps(list: Seq<Seq<char>>, item: Seq<char>)
    requires
        ascending(list),
    ensures
        ascending(placed(list, item)),
        forall|t: Seq<char>|
            #[trigger] placed(list, item).contains(t) <==> list.contains(t) || t == item,
{
    let at = lemma_split_exists(list, item);
    lemma_placed(list, item, at);
    let r = placed(list, item);
    if at < list.len() && list[at] == item {
    } else {
        assert forall|i: int, j: int| 0 <= i < j < r.len() implies text::less(
            #[trigger] r[i],
            #[trigger] r[j],
        ) by {
            if j == at {
                assert(r[i] == list[i]);
            } else if i == at {
                text::law_less_total(item, list[j - 1]);
                if list[j - 1] == item {
                    assert(at < j - 1);
                    assert(text::less(list[at], list[j - 1]));
                }
            } else {
                let a = if i < at { i } else { i - 1 };
                let b = if j < at { j } else { j - 1 };
                assert(r[i] == list[a]);
                assert(r[j] == list[b]);
            }
        }
        assert forall|t: Seq<char>| #[trigger] r.contains(t) <==> list.contains(t) || t == item by {
            if list.contains(t) {
                let k = choose|k: int| 0 <= k < list.len() && list[k] == t;
                let m = if k < at { k } else { k + 1 };
                assert(r[m] == t);
            }
            if t == item {
                assert(r[at] == t);
            }
            if r.contains(t) {
                let k = choose|k: int| 0 <= k < r.len() && r[k] == t;
                if k < at {
                    assert(list[k] == t);
                } else if k > at {
                    assert(list[k - 1] == t);
                }
            }
        }
    }
}

/// The distinct texts of a list ascend strictly, and are exactly the texts of
/// the list.
pub proof fn law_distinct(items: Seq<Seq<char>>)
    ensures
        ascending(distinct(items)),
        forall|t: Seq<char>| #[trigger] distinct(items).contains(t) <==> items.contains(t),
    decreases items.len(),
{
    if items.len() > 0 {
        let front = items.drop_last();
        law_distinct(front);
        lemma_placed_keeps(distinct(front), items.last());
        assert forall|t: Seq<char>| #[trigger]
            distinct(items).contains(t) <==> items.contains(t) by {
            if items.contains(t) {
                let k = choose|k: int| 0 <= k < items.len() && items[k] == t;
                if k < front.len() {
                    assert(front[k] == t);
                }
            }
            if front.contains(t) {
                let k = choose|k: int| 0 <= k < front.len() && front[k] == t;
                assert(items[k] == t);
            }
            if t == items.last() {
                assert(items[items.len() - 1] == t);
            }
        }
    }
}

/// Two ascending lists of the same texts are the same list.
pub proof fn law_ascending_unique(a: Seq<Seq<char>>, b: Seq<Seq<char>>)
    requires
        ascending(a),
        ascending(b),
        forall|t: Seq<char>| #[trigger] a.contains(t) <==> b.contains(t),
    ensures
        a == b,
    decreases a.len(),
{
    if a.len() == 0 {
        if b.len() > 0 {
            assert(b.contains(b[0]));
            assert(a.contains(b[0]));
        }
        assert(a =~= b);
    } else {
        assert(a.contains(a.last()));
        let k = choose|k: int| 0 <= k < b.len() && b[k] == a.last();
        assert(b.contains(b.last()));
        assert(a.contains(b.last()));
        let m = choose|m: int| 0 <= m < a.len() && a[m] == b.last();
        if k < b.len() - 1 {
            assert(text::less(b[k], b.last()));
            if m < a.len() - 1 {
                assert(text::less(a[m], a.last()));
            }
            text::lemma_less_asymmetric(b[k], b.last());
        }
        assert(a.last() == b.last());
        let x = a.drop_last();
        let y = b.drop_last();
        assert(forall|i: int| 0 <= i < x.len() ==> x[i] == a[i]);
        assert(forall|i: int| 0 <= i < y.len() ==> y[i] == b[i]);
        assert forall|t: Seq<char>| #[trigger] x.contains(t) <==> y.contains(t) by {
            if x.contains(t) {
                let i = choose|i: int| 0 <= i < x.len() && x[i] == t;
                assert(a[i] == t);
                assert(a.contains(t));
                let j = choose|j: int| 0 <= j < b.len() && b[j] == t;
                text::lemma_less_asymmetric(a[i], a.last());
                assert(j < y.len());
                assert(y[j] == t);
            }
            if y.contains(t) {
                let i = choose|i: int| 0 <= i < y.len() && y[i] == t;
                assert(b[i] == t);
                assert(b.contains(t));
                assert(a.contains(t));
                let j = choose|j: int| 0 <= j < a.len() && a[j] == t;
                text::lemma_less_asymmetric(b[i], b.last());
                assert(j < x.len());
                assert(x[j] == t);
            }
        }
        law_ascending_unique(x, y);
        assert(a =~= x.push(a.last()));
        assert(b =~= y.push(b.last()));
    }
}

/// An item occurs no more often than there are items.
pub proof fn lemma_occurrences_bounded<T>(items: Seq<T>, item: T)
    ensures
        occurrences(items, item) <= items.len(),
        occurrences(items, item) > 0 <==> items.contains(item),
    decreases items.len(),
{
    if items.len() > 0 {
        let front = items.drop_last();
        lemma_occurrences_bounded(front, item);
        if front.contains(item) {
            let k = choose|k: int| 0 <= k < front.len() && front[k] == item;
            assert(items[k] == item);
        }
        if items.contains(item) && items.last() != item {
            let k = choose|k: int| 0 <= k < items.len() && items[k] == item;
            assert(front[k] == item);
        }
    }
}

/// There are no more distinct texts than texts.
pub proof fn lemma_distinct_len(items: Seq<Seq<char>>)
    ensures
        distinct(items).len() <= items.len(),
    decreases items.len(),
{
    if items.len() > 0 {
        let front = items.drop_last();
        lemma_distinct_len(front);
        law_distinct(front);
        let at = lemma_split_exists(distinct(front), items.last());
        lemma_placed(distinct(front), items.last(), at);
    }
}

/// One more item leaves the sum of a list without it as it was.
proof fn lemma_total_unmoved(list: Seq<Seq<char>>, items: Seq<Seq<char>>, item: Seq<char>)
    requires
        forall|i: int| 0 <= i < list.len() ==> #[trigger] list[i] != item,
    ensures
        frequencies(list, items.push(item)) == frequencies(list, items),
{
    assert(items.push(item).drop_last() =~= items);
    assert(frequencies(list, items.push(item)) =~= frequencies(list, items));
}

/// One more item raises the sum of a list that holds it by one.
proof fn lemma_total_after(list: Seq<Seq<char>>, items: Seq<Seq<char>>, item: Seq<char>, at: int)
    requires
        ascending(list),
        0 <= at < list.len(),
        list[at] == item,
    ensures
        total(frequencies(list, items.push(item))) == total(frequencies(list, items)) + 1,
    decreases list.len(),
{
    let front = list.drop_last();
    assert(forall|i: int| 0 <= i < front.len() ==> front[i] == list[i]);
    assert(items.push(item).drop_last() =~= items);
    assert(frequencies(list, items).drop_last() =~= frequencies(front, items));
    assert(frequencies(list, items.push(item)).drop_last() =~= frequencies(
        front,
        items.push(item),
    ));
    if at < front.len() {
        text::lemma_less_asymmetric(list[at], list.last());
        lemma_total_after(front, items, item, at);
    } else {
        assert forall|i: int| 0 <= i < front.len() implies #[trigger] front[i] != item by {
            text::lemma_less_asymmetric(list[i], list[at]);
        }
        lemma_total_unmoved(front, items, item);
    }
}

/// Inserting a number raises the sum by it.
proof fn lemma_total_insert(counts: Seq<nat>, at: int, n: nat)
    requires
        0 <= at <= counts.len(),
    ensures
        total(counts.insert(at, n)) == total(counts) + n,
    decreases counts.len(),
{
    if at == counts.len() {
        assert(counts.insert(at, n).drop_last() =~= counts);
    } else {
        lemma_total_insert(counts.drop_last(), at, n);
        assert(counts.insert(at, n).drop_last() =~= counts.drop_last().insert(at, n));
    }
}

/// The occurrences of the distinct texts of a list add up to its length.
pub proof fn law_frequencies_add_up(items: Seq<Seq<char>>)
    ensures
        total(frequencies(distinct(items), items)) == items.len(),
    decreases items.len(),
{
    if items.len() > 0 {
        let front = items.drop_last();
        let item = items.last();
        let list = distinct(front);
        law_distinct(front);
        law_frequencies_add_up(front);
        assert(items =~= front.push(item));
        let at = lemma_split_exists(list, item);
        lemma_placed(list, item, at);
        if at < list.len() && list[at] == item {
            lemma_total_after(list, front, item, at);
        } else {
            text::law_less_irreflexive(item);
            assert forall|i: int| 0 <= i < list.len() implies #[trigger] list[i] != item by {
                if at < i && list[i] == item {
                    text::law_less_total(list[at], item);
                    assert(text::less(list[at], list[i]));
                }
            }
            lemma_total_unmoved(list, front, item);
            assert(!front.contains(item)) by {
                assert(!list.contains(item));
            }
            lemma_occurrences_bounded(front, item);
            assert(items.drop_last() =~= front);
            assert(frequencies(distinct(items), items) =~= frequencies(list, items).insert(
                at,
                1,
            ));
            lemma_total_insert(frequencies(list, items), at, 1);
        }
    }
}

/// Whether no text stands in a list twice.
pub open spec fn without_repeats(list: Seq<Seq<char>>) -> bool {
    forall|i: int, j: int| 0 <= i < j < list.len() ==> #[trigger] list[i] != #[trigger] list[j]
}

/// A sum grows by what is added to one of its items.
proof fn lemma_total_update(counts: Seq<nat>, at: int)
    requires
        0 <= at < counts.len(),
    ensures
        total(counts.update(at, counts[at] + 1)) == total(counts) + 1,
    decreases counts.len(),
{
    let other = counts.update(at, counts[at] + 1);
    if at == counts.len() - 1 {
        assert(other.drop_last() =~= counts.drop_last());
    } else {
        lemma_total_update(counts.drop_last(), at);
        assert(other.drop_last() =~= counts.drop_last().update(at, counts[at] + 1));
    }
}

/// A sum of zeros.
proof fn lemma_total_zero(counts: Seq<nat>)
    requires
        forall|k: int| 0 <= k < counts.len() ==> #[trigger] counts[k] == 0,
    ensures
        total(counts) == 0,
    decreases counts.len(),
{
    if counts.len() > 0 {
        assert(counts[counts.len() - 1] == 0);
        assert(forall|k: int| 0 <= k < counts.len() - 1 ==> counts.drop_last()[k] == counts[k]);
        lemma_total_zero(counts.drop_last());
    }
}

/// Where a list holds every item once, the occurrences of its texts add up to
/// the number of items.
pub proof fn law_all_counted(list: Seq<Seq<char>>, items: Seq<Seq<char>>)
    requires
        without_repeats(list),
        forall|k: int| 0 <= k < items.len() ==> list.contains(#[trigger] items[k]),
    ensures
        total(frequencies(list, items)) == items.len(),
    decreases items.len(),
{
    if items.len() == 0 {
        lemma_total_zero(frequencies(list, items));
    } else {
        let front = items.drop_last();
        let item = items[items.len() - 1];
        assert forall|k: int| 0 <= k < front.len() implies list.contains(#[trigger] front[k]) by {
            assert(front[k] == items[k]);
        }
        law_all_counted(list, front);
        assert(list.contains(item));
        let at = choose|at: int| 0 <= at < list.len() && list[at] == item;
        let before = frequencies(list, front);
        assert(frequencies(list, items) =~= before.update(at, before[at] + 1));
        lemma_total_update(before, at);
    }
}

/// The place of `item` in an ascending list.
pub fn place(list: &Vec<Text>, item: &Text) -> (r: usize)
    requires
        ascending(text::views(list@)),
    ensures
        splits(text::views(list@), item@, r as int),
{
    let mut low: usize = 0;
    let mut high: usize = list.len();
    let ghost seen = text::views(list@);
    while low < high
        invariant
            seen == text::views(list@),
            ascending(seen),
            low <= high <= list.len(),
            forall|i: int| 0 <= i < low ==> text::less(#[trigger] seen[i], item@),
            forall|i: int| high <= i < list.len() ==> !text::less(#[trigger] seen[i], item@),
        decreases high - low,
    {
        let middle: usize = low + (high - low) / 2;
        assert(seen[middle as int] == list@[middle as int]@);
        if list[middle].precedes(item) {
            assert forall|i: int| 0 <= i <= middle implies text::less(
                #[trigger] seen[i],
                item@,
            ) by {
                if i < middle {
                    text::law_less_transitive(seen[i], seen[middle as int], item@);
                }
            }
            low = middle + 1;
        } else {
            assert forall|i: int| middle <= i < list.len() implies !text::less(
                #[trigger] seen[i],
                item@,
            ) by {
                if middle < i && text::less(seen[i], item@) {
                    text::law_less_transitive(seen[middle as int], seen[i], item@);
                }
            }
            high = middle;
        }
    }
    low
}

/// Where an ascending list holds `item`.
pub fn find(list: &Vec<Text>, item: &Text) -> (r: Option<usize>)
    requires
        ascending(text::views(list@)),
    ensures
        match r {
            Some(i) => i < list.len() && text::views(list@)[i as int] == item@,
            None => !text::views(list@).contains(item@),
        },
{
    let at: usize = place(list, item);
    let ghost seen = text::views(list@);
    if at < list.len() && list[at].same(item) {
        assert(seen[at as int] == item@);
        Some(at)
    } else {
        assert forall|i: int| 0 <= i < seen.len() implies #[trigger] seen[i] != item@ by {
            text::law_less_irreflexive(item@);
            if at < i && seen[i] == item@ {
                assert(text::less(seen[at as int], seen[i]));
            }
        }
        None
    }
}

/// A growing count of texts.
pub struct Tally {
    terms: Vec<Text>,
    counts: Vec<u64>,
    total: u64,
    counted: Ghost<Seq<Seq<char>>>,
}

impl Tally {
    /// The texts that were counted, in the order in which they came.
    pub closed spec fn items(self) -> Seq<Seq<char>> {
        self.counted@
    }

    pub closed spec fn well_formed(self) -> bool {
        &&& text::views(self.terms@) == distinct(self.counted@)
        &&& self.counts.len() == self.terms.len()
        &&& self.total == self.counted@.len()
        &&& forall|i: int|
            0 <= i < self.counts.len() ==> #[trigger] self.counts@[i] == occurrences(
                self.counted@,
                self.terms@[i]@,
            )
    }

    /// A count of nothing.
    pub fn new() -> (r: Tally)
        ensures
            r.well_formed(),
            r.items() == Seq::<Seq<char>>::empty(),
    {
        let r: Tally = Tally { terms: Vec::new(), counts: Vec::new(), total: 0, counted: Ghost(Seq::empty()) };
        assert(text::views(r.terms@) =~= distinct(r.counted@));
        r
    }

    /// Counts `item` once more.
    pub fn add(&mut self, item: &Text)
        requires
            old(self).well_formed(),
            old(self).items().len() < u64::MAX,
        ensures
            final(self).well_formed(),
            final(self).items() == old(self).items().push(item@),
    {
        let ghost items = self.counted@;
        let ghost after = items.push(item@);
        let ghost seen = text::views(self.terms@);
        let ghost before = *self;
        proof {
            law_distinct(items);
            lemma_occurrences_bounded(items, item@);
            assert(after.drop_last() =~= items);
            assert(forall|i: int| 0 <= i < seen.len() ==> seen[i] == self.terms@[i]@);
        }
        let at: usize = place(&self.terms, item);
        proof {
            lemma_placed(seen, item@, at as int);
        }
        if at < self.terms.len() && self.terms[at].same(item) {
            assert(seen[at as int] == item@);
            let n: u64 = self.counts[at];
            self.counts.set(at, n + 1);
            assert forall|i: int| 0 <= i < self.counts.len() implies #[trigger] self.counts@[i]
                == occurrences(after, self.terms@[i]@) by {
                if i < at {
                    text::lemma_less_asymmetric(seen[i], seen[at as int]);
                } else if at < i {
                    text::lemma_less_asymmetric(seen[at as int], seen[i]);
                }
            }
        } else {
            let copy: Text = item.duplicate();
            self.terms.insert(at, copy);
            self.counts.insert(at, 1);
            proof {
                assert(text::views(self.terms@) =~= seen.insert(at as int, item@));
                assert forall|i: int| 0 <= i < seen.len() implies #[trigger] seen[i] != item@ by {
                    text::law_less_irreflexive(item@);
                    if at < i && seen[i] == item@ {
                        assert(text::less(seen[at as int], seen[i]));
                    }
                }
                assert(!seen.contains(item@));
                assert(!items.contains(item@));
                lemma_occurrences_bounded(items, item@);
                assert forall|i: int| 0 <= i < self.counts.len() implies #[trigger] self.counts@[i]
                    == occurrences(after, self.terms@[i]@) by {
                    if i < at {
                        assert(self.terms@[i] == before.terms@[i]);
                        assert(self.counts@[i] == before.counts@[i]);
                        assert(seen[i] != item@);
                    } else if at < i {
                        assert(self.terms@[i] == before.terms@[i - 1]);
                        assert(self.counts@[i] == before.counts@[i - 1]);
                        assert(seen[i - 1] != item@);
                    }
                }
            }
        }
        self.total = self.total + 1;
        self.counted = Ghost(after);
    }

    /// How many texts were counted.
    pub fn total(&self) -> (r: u64)
        requires
            self.well_formed(),
        ensures
            r == self.items().len(),
    {
        self.total
    }

    /// Whether `item` was counted.
    pub fn holds(&self, item: &Text) -> (r: bool)
        requires
            self.well_formed(),
        ensures
            r == self.items().contains(item@),
    {
        proof {
            law_distinct(self.counted@);
            assert(distinct(self.counted@).contains(item@) <==> self.counted@.contains(item@));
        }
        match find(&self.terms, item) {
            Some(i) => {
                assert(text::views(self.terms@)[i as int] == item@);
                true
            },
            None => false,
        }
    }

    /// The distinct texts in ascending order, and how often each was counted.
    pub fn into_parts(self) -> (r: (Vec<Text>, Vec<u64>))
        requires
            self.well_formed(),
        ensures
            text::views(r.0@) == distinct(self.items()),
            r.1.len() == r.0.len(),
            forall|i: int|
                0 <= i < r.1.len() ==> #[trigger] r.1@[i] == occurrences(
                    self.items(),
                    distinct(self.items())[i],
                ),
    {
        assert(forall|i: int|
            0 <= i < self.terms.len() ==> text::views(self.terms@)[i] == #[trigger] self.terms@[i]@);
        (self.terms, self.counts)
    }
}

} // verus!
