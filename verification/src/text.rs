//! Texts: names, categories and terms.
//!
//! A [`Text`] is a sequence of characters. Texts are ordered
//! lexicographically by code point.

use vstd::prelude::*;

verus! {

/// A sequence of characters.
#[derive(Clone, Debug, PartialEq, Eq)]
pub struct Text {
    pub chars: Vec<char>,
}

impl View for Text {
    type V = Seq<char>;

    open spec fn view(&self) -> Seq<char> {
        self.chars@
    }
}

/// Whether `a` comes strictly before `b` in lexicographic order.
pub open spec fn less(a: Seq<char>, b: Seq<char>) -> bool
    decreases a.len(),
{
    if b.len() == 0 {
        false
    } else if a.len() == 0 {
        true
    } else if a[0] != b[0] {
        (a[0] as int) < (b[0] as int)
    } else {
        less(a.drop_first(), b.drop_first())
    }
}

/// No text comes before itself.
pub proof fn law_less_irreflexive(a: Seq<char>)
    ensures
        !less(a, a),
    decreases a.len(),
{
    if a.len() > 0 {
        law_less_irreflexive(a.drop_first());
    }
}

/// The order of texts is transitive.
pub proof fn law_less_transitive(a: Seq<char>, b: Seq<char>, c: Seq<char>)
    requires
        less(a, b),
        less(b, c),
    ensures
        less(a, c),
    decreases a.len(),
{
    if a.len() > 0 && a[0] == b[0] && b[0] == c[0] {
        law_less_transitive(a.drop_first(), b.drop_first(), c.drop_first());
    }
}

/// Of two different texts, one comes before the other.
pub proof fn law_less_total(a: Seq<char>, b: Seq<char>)
    ensures
        a == b || less(a, b) || less(b, a),
    decreases a.len(),
{
    if a.len() > 0 && b.len() > 0 && a[0] == b[0] {
        law_less_total(a.drop_first(), b.drop_first());
        if a.drop_first() == b.drop_first() {
            assert(a =~= seq![a[0]] + a.drop_first());
            assert(b =~= seq![b[0]] + b.drop_first());
        }
    } else if a.len() == 0 && b.len() == 0 {
        assert(a =~= b);
    }
}

/// The order of texts is asymmetric.
pub proof fn lemma_less_asymmetric(a: Seq<char>, b: Seq<char>)
    requires
        less(a, b),
    ensures
        !less(b, a),
        a != b,
{
    if less(b, a) {
        law_less_transitive(a, b, a);
    }
    law_less_irreflexive(a);
}

/// The views of a list of texts.
pub open spec fn views(list: Seq<Text>) -> Seq<Seq<char>> {
    Seq::new(list.len(), |i: int| list[i]@)
}

/// The decimal digits of `n`.
pub open spec fn decimal(n: nat) -> Seq<char>
    decreases n,
{
    if n < 10 {
        seq![digit(n)]
    } else {
        decimal(n / 10).push(digit(n % 10))
    }
}

/// The character of the digit `n`.
pub open spec fn digit(n: nat) -> char {
    if n == 0 {
        '0'
    } else if n == 1 {
        '1'
    } else if n == 2 {
        '2'
    } else if n == 3 {
        '3'
    } else if n == 4 {
        '4'
    } else if n == 5 {
        '5'
    } else if n == 6 {
        '6'
    } else if n == 7 {
        '7'
    } else if n == 8 {
        '8'
    } else {
        '9'
    }
}

impl Text {
    /// The empty text.
    pub fn new() -> (r: Text)
        ensures
            r@ == Seq::<char>::empty(),
    {
        Text { chars: Vec::new() }
    }

    /// The characters of `s`.
    pub fn of(s: &str) -> (r: Text)
        ensures
            r@ == s@,
    {
        let mut r: Text = Text::new();
        r.push_str(s);
        assert(r@ =~= s@);
        r
    }

    /// Appends the characters of `s`.
    pub fn push_str(&mut self, s: &str)
        ensures
            final(self)@ == old(self)@ + s@,
    {
        let n: usize = s.unicode_len();
        let mut i: usize = 0;
        while i < n
            invariant
                i <= n,
                n == s@.len(),
                self@ == old(self)@ + s@.take(i as int),
            decreases n - i,
        {
            let c: char = s.get_char(i);
            self.chars.push(c);
            i += 1;
            assert(s@.take(i as int) =~= s@.take(i - 1).push(s@[i - 1]));
            assert(self@ =~= old(self)@ + s@.take(i as int));
        }
        assert(s@.take(n as int) =~= s@);
        assert(self@ =~= old(self)@ + s@);
    }

    /// Appends the characters of `other`.
    pub fn append(&mut self, other: &Text)
        ensures
            final(self)@ == old(self)@ + other@,
    {
        let n: usize = other.chars.len();
        let mut i: usize = 0;
        while i < n
            invariant
                i <= n,
                n == other@.len(),
                self@ == old(self)@ + other@.take(i as int),
            decreases n - i,
        {
            let c: char = other.chars[i];
            self.chars.push(c);
            i += 1;
            assert(other@.take(i as int) =~= other@.take(i - 1).push(other@[i - 1]));
            assert(self@ =~= old(self)@ + other@.take(i as int));
        }
        assert(other@.take(n as int) =~= other@);
        assert(self@ =~= old(self)@ + other@);
    }

    /// Appends the decimal digits of `n`.
    pub fn push_decimal(&mut self, n: u64)
        ensures
            final(self)@ == old(self)@ + decimal(n as nat),
        decreases n,
    {
        if n >= 10 {
            self.push_decimal(n / 10);
        }
        let ghost before: Seq<char> = self@;
        let d: u64 = n % 10;
        let c: char = if d == 0 {
            '0'
        } else if d == 1 {
            '1'
        } else if d == 2 {
            '2'
        } else if d == 3 {
            '3'
        } else if d == 4 {
            '4'
        } else if d == 5 {
            '5'
        } else if d == 6 {
            '6'
        } else if d == 7 {
            '7'
        } else if d == 8 {
            '8'
        } else {
            '9'
        };
        self.chars.push(c);
        assert(self@ =~= old(self)@ + decimal(n as nat));
    }

    /// A text with the same characters.
    pub fn duplicate(&self) -> (r: Text)
        ensures
            r@ == self@,
    {
        let mut r: Text = Text::new();
        r.append(self);
        assert(r@ =~= self@);
        r
    }

    /// Whether the two texts hold the same characters.
    pub fn same(&self, other: &Text) -> (r: bool)
        ensures
            r == (self@ == other@),
    {
        if self.chars.len() != other.chars.len() {
            return false;
        }
        let n: usize = self.chars.len();
        let mut i: usize = 0;
        while i < n
            invariant
                i <= n,
                n == self@.len(),
                n == other@.len(),
                forall|j: int| 0 <= j < i ==> self@[j] == other@[j],
            decreases n - i,
        {
            if self.chars[i] != other.chars[i] {
                return false;
            }
            i += 1;
        }
        assert(self@ =~= other@);
        true
    }

    /// Whether `self` comes strictly before `other`.
    pub fn precedes(&self, other: &Text) -> (r: bool)
        ensures
            r == less(self@, other@),
    {
        let n: usize = self.chars.len();
        let m: usize = other.chars.len();
        let mut i: usize = 0;
        assert(self@.skip(0) =~= self@);
        assert(other@.skip(0) =~= other@);
        while i < n && i < m
            invariant
                i <= n,
                i <= m,
                n == self@.len(),
                m == other@.len(),
                less(self@, other@) == less(self@.skip(i as int), other@.skip(i as int)),
            decreases n - i,
        {
            let c: char = self.chars[i];
            let d: char = other.chars[i];
            assert(self@.skip(i as int)[0] == c);
            assert(other@.skip(i as int)[0] == d);
            if c != d {
                return c < d;
            }
            assert(self@.skip(i as int).drop_first() =~= self@.skip(i + 1));
            assert(other@.skip(i as int).drop_first() =~= other@.skip(i + 1));
            i += 1;
        }
        i < m
    }
}

/// `a`, `middle` and `b` put together.
pub fn joined(a: &Text, middle: &str, b: &Text) -> (r: Text)
    ensures
        r@ == a@ + middle@ + b@,
{
    let mut r: Text = a.duplicate();
    r.push_str(middle);
    r.append(b);
    r
}

/// The characters of a list of strings.
pub open spec fn str_views(list: Seq<&str>) -> Seq<Seq<char>> {
    Seq::new(list.len(), |i: int| list[i]@)
}

/// The characters of a list of strings.
pub fn of_all(list: &[&str]) -> (r: Vec<Text>)
    ensures
        views(r@) == str_views(list@),
{
    let mut r: Vec<Text> = Vec::new();
    let mut i: usize = 0;
    while i < list.len()
        invariant
            i <= list.len(),
            r.len() == i,
            forall|j: int| 0 <= j < i ==> r@[j]@ == list@[j]@,
        decreases list.len() - i,
    {
        r.push(Text::of(list[i]));
        i += 1;
    }
    assert(views(r@) =~= str_views(list@));
    r
}

/// A copy of a list of texts.
pub fn duplicate_all(list: &Vec<Text>) -> (r: Vec<Text>)
    ensures
        views(r@) == views(list@),
{
    let mut r: Vec<Text> = Vec::new();
    let mut i: usize = 0;
    while i < list.len()
        invariant
            i <= list.len(),
            r.len() == i,
            forall|j: int| 0 <= j < i ==> r@[j]@ == list@[j]@,
        decreases list.len() - i,
    {
        let t: Text = list[i].duplicate();
        r.push(t);
        i += 1;
    }
    assert(views(r@) =~= views(list@));
    r
}

/// The first place of `item` in a list.
pub open spec fn position(list: Seq<Seq<char>>, item: Seq<char>) -> Option<int>
    decreases list.len(),
{
    if list.len() == 0 {
        None
    } else {
        match position(list.drop_last(), item) {
            Some(i) => Some(i),
            None => if list.last() == item {
                Some(list.len() - 1)
            } else {
                None
            },
        }
    }
}

/// A place among the first `n` is the place among all.
pub proof fn lemma_position_stays(list: Seq<Seq<char>>, item: Seq<char>, n: int)
    requires
        0 <= n <= list.len(),
        position(list.take(n), item) is Some,
    ensures
        position(list, item) == position(list.take(n), item),
    decreases list.len() - n,
{
    if n == list.len() {
        assert(list.take(n) =~= list);
    } else {
        assert(list.take(n + 1).drop_last() =~= list.take(n));
        lemma_position_stays(list, item, n + 1);
    }
}

/// A place holds the item; without a place the list does not hold it.
pub proof fn lemma_position(list: Seq<Seq<char>>, item: Seq<char>)
    ensures
        match position(list, item) {
            Some(i) => 0 <= i < list.len() && list[i] == item,
            None => !list.contains(item),
        },
    decreases list.len(),
{
    if list.len() > 0 {
        let front = list.drop_last();
        lemma_position(front, item);
        if position(list, item) is None && list.contains(item) {
            let k = choose|k: int| 0 <= k < list.len() && list[k] == item;
            assert(front[k] == item);
        }
    }
}

/// The first place of `item` in a list.
pub fn find(list: &Vec<Text>, item: &Text) -> (r: Option<usize>)
    ensures
        match r {
            Some(i) => position(views(list@), item@) == Some(i as int) && i < list.len()
                && list@[i as int]@ == item@,
            None => position(views(list@), item@) is None,
        },
{
    let ghost all = views(list@);
    let mut i: usize = 0;
    assert(all.take(0) =~= Seq::<Seq<char>>::empty());
    while i < list.len()
        invariant
            i <= list.len(),
            all == views(list@),
            position(all.take(i as int), item@) is None,
        decreases list.len() - i,
    {
        assert(all.take(i + 1).drop_last() =~= all.take(i as int));
        if list[i].same(item) {
            proof {
                lemma_position_stays(all, item@, i + 1);
            }
            return Some(i);
        }
        i += 1;
    }
    assert(all.take(i as int) =~= all);
    None
}

/// Whether `list` holds a text with the characters of `item`.
pub fn contains(list: &Vec<Text>, item: &Text) -> (r: bool)
    ensures
        r == views(list@).contains(item@),
{
    let mut i: usize = 0;
    while i < list.len()
        invariant
            i <= list.len(),
            forall|j: int| 0 <= j < i ==> list@[j]@ != item@,
        decreases list.len() - i,
    {
        if list[i].same(item) {
            assert(views(list@)[i as int] == item@);
            return true;
        }
        i += 1;
    }
    false
}

} // verus!
