//! Numeric programs.
//!
//! A [`Program`] lists floating-point operations one after the other; each
//! operation names the results it works on by their position. Whoever runs the
//! library evaluates a program from front to back in double precision. What a
//! program computes is its view: one [`Term`] per position.

use crate::double::Double;
use vstd::prelude::*;

verus! {

/// What an operation computes, written out in full.
pub enum Term {
    Value(Double),
    Natural(nat),
    Integer(int),
    FullTurn,
    Plus(Box<Term>, Box<Term>),
    Minus(Box<Term>, Box<Term>),
    Times(Box<Term>, Box<Term>),
    Over(Box<Term>, Box<Term>),
    Power(Box<Term>, Box<Term>),
    Square(Box<Term>),
    Root(Box<Term>),
    Magnitude(Box<Term>),
    Lesser(Box<Term>, Box<Term>),
    Greater(Box<Term>, Box<Term>),
    Sine(Box<Term>),
    Cosine(Box<Term>),
    Logarithm(Box<Term>),
    Digamma(Box<Term>),
    Scaled(Box<Term>, Box<Term>),
}

/// One floating-point operation on the results of earlier ones.
#[derive(Clone, Copy, Debug, PartialEq, Eq, Structural)]
pub enum Operation {
    /// A given number.
    Value(Double),
    /// A count, converted to the nearest double.
    Natural(u64),
    /// An integer, converted to the nearest double.
    Integer(i128),
    /// The constant two pi.
    FullTurn,
    /// `a + b`.
    Plus(usize, usize),
    /// `a - b`.
    Minus(usize, usize),
    /// `a * b`.
    Times(usize, usize),
    /// `a / b`.
    Over(usize, usize),
    /// `a` to the power `b`.
    Power(usize, usize),
    /// `a * a`.
    Square(usize),
    /// The square root of `a`.
    Root(usize),
    /// `a` without its sign.
    Magnitude(usize),
    /// The lesser of `a` and `b`; of a number and NaN, the number.
    Lesser(usize, usize),
    /// The greater of `a` and `b`; of a number and NaN, the number.
    Greater(usize, usize),
    /// The sine of `a`.
    Sine(usize),
    /// The cosine of `a`.
    Cosine(usize),
    /// The natural logarithm of `a`.
    Logarithm(usize),
    /// The digamma function at `a`.
    Digamma(usize),
    /// `a / b` where `b` is greater than zero, and `a` elsewhere.
    Scaled(usize, usize),
}

/// The term that `op` stands for, where `terms` are those of the positions
/// before it.
pub open spec fn meaning(op: Operation, terms: Seq<Term>) -> Term {
    match op {
        Operation::Value(d) => Term::Value(d),
        Operation::Natural(n) => Term::Natural(n as nat),
        Operation::Integer(i) => Term::Integer(i as int),
        Operation::FullTurn => Term::FullTurn,
        Operation::Plus(a, b) => Term::Plus(Box::new(terms[a as int]), Box::new(terms[b as int])),
        Operation::Minus(a, b) => Term::Minus(Box::new(terms[a as int]), Box::new(terms[b as int])),
        Operation::Times(a, b) => Term::Times(Box::new(terms[a as int]), Box::new(terms[b as int])),
        Operation::Over(a, b) => Term::Over(Box::new(terms[a as int]), Box::new(terms[b as int])),
        Operation::Power(a, b) => Term::Power(Box::new(terms[a as int]), Box::new(terms[b as int])),
        Operation::Square(a) => Term::Square(Box::new(terms[a as int])),
        Operation::Root(a) => Term::Root(Box::new(terms[a as int])),
        Operation::Magnitude(a) => Term::Magnitude(Box::new(terms[a as int])),
        Operation::Lesser(a, b) => Term::Lesser(
            Box::new(terms[a as int]),
            Box::new(terms[b as int]),
        ),
        Operation::Greater(a, b) => Term::Greater(
            Box::new(terms[a as int]),
            Box::new(terms[b as int]),
        ),
        Operation::Sine(a) => Term::Sine(Box::new(terms[a as int])),
        Operation::Cosine(a) => Term::Cosine(Box::new(terms[a as int])),
        Operation::Logarithm(a) => Term::Logarithm(Box::new(terms[a as int])),
        Operation::Digamma(a) => Term::Digamma(Box::new(terms[a as int])),
        Operation::Scaled(a, b) => Term::Scaled(
            Box::new(terms[a as int]),
            Box::new(terms[b as int]),
        ),
    }
}

/// Whether `op` refers only to positions before `limit`.
pub open spec fn refers_below(op: Operation, limit: nat) -> bool {
    match op {
        Operation::Value(_) => true,
        Operation::Natural(_) => true,
        Operation::Integer(_) => true,
        Operation::FullTurn => true,
        Operation::Plus(a, b) => a < limit && b < limit,
        Operation::Minus(a, b) => a < limit && b < limit,
        Operation::Times(a, b) => a < limit && b < limit,
        Operation::Over(a, b) => a < limit && b < limit,
        Operation::Power(a, b) => a < limit && b < limit,
        Operation::Square(a) => a < limit,
        Operation::Root(a) => a < limit,
        Operation::Magnitude(a) => a < limit,
        Operation::Lesser(a, b) => a < limit && b < limit,
        Operation::Greater(a, b) => a < limit && b < limit,
        Operation::Sine(a) => a < limit,
        Operation::Cosine(a) => a < limit,
        Operation::Logarithm(a) => a < limit,
        Operation::Digamma(a) => a < limit,
        Operation::Scaled(a, b) => a < limit && b < limit,
    }
}

/// The terms of a list of operations.
pub open spec fn meanings(ops: Seq<Operation>) -> Seq<Term>
    decreases ops.len(),
{
    if ops.len() == 0 {
        Seq::empty()
    } else {
        let before = meanings(ops.drop_last());
        before.push(meaning(ops.last(), before))
    }
}

/// Every operation refers only to operations before it.
pub open spec fn refers_backwards(ops: Seq<Operation>) -> bool {
    forall|i: int| 0 <= i < ops.len() ==> refers_below(#[trigger] ops[i], i as nat)
}

/// There is one term per operation.
pub broadcast proof fn lemma_meanings_len(ops: Seq<Operation>)
    ensures
        #[trigger] meanings(ops).len() == ops.len(),
    decreases ops.len(),
{
    if ops.len() > 0 {
        lemma_meanings_len(ops.drop_last());
    }
}

/// The root of a number, where it has one.
pub open spec fn root(x: real) -> real {
    choose|r: real| is_root(x, r)
}

/// Whether a number is the root of another.
pub open spec fn is_root(x: real, r: real) -> bool {
    r >= 0real && r * r == x
}

/// Whether a number may be the value of a term that plain arithmetic does not
/// give: nothing is said of it.
closed spec fn any(term: Term, r: real) -> bool {
    true
}

/// Some value of a term that plain arithmetic does not give, such as a
/// logarithm.
pub closed spec fn unknown(term: Term) -> real {
    choose|r: real| any(term, r)
}

/// The value of a term in exact arithmetic, where `value` gives the values of
/// the numbers in it. Powers, logarithms, sines, cosines, digammas and the full
/// turn have an unknown value.
pub open spec fn exact(term: Term, value: spec_fn(Double) -> real) -> real
    decreases term,
{
    match term {
        Term::Value(d) => value(d),
        Term::Natural(n) => n as int as real,
        Term::Integer(i) => i as real,
        Term::Plus(a, b) => exact(*a, value) + exact(*b, value),
        Term::Minus(a, b) => exact(*a, value) - exact(*b, value),
        Term::Times(a, b) => exact(*a, value) * exact(*b, value),
        Term::Over(a, b) => exact(*a, value) / exact(*b, value),
        Term::Square(a) => exact(*a, value) * exact(*a, value),
        Term::Root(a) => root(exact(*a, value)),
        Term::Magnitude(a) => if exact(*a, value) < 0real {
            -exact(*a, value)
        } else {
            exact(*a, value)
        },
        Term::Lesser(a, b) => if exact(*b, value) < exact(*a, value) {
            exact(*b, value)
        } else {
            exact(*a, value)
        },
        Term::Greater(a, b) => if exact(*a, value) < exact(*b, value) {
            exact(*b, value)
        } else {
            exact(*a, value)
        },
        Term::Scaled(a, b) => if exact(*b, value) > 0real {
            exact(*a, value) / exact(*b, value)
        } else {
            exact(*a, value)
        },
        _ => unknown(term),
    }
}

/// Whether a list of terms begins with another.
pub open spec fn extends(before: Seq<Term>, after: Seq<Term>) -> bool {
    &&& before.len() <= after.len()
    &&& forall|i: int|
        #![trigger before[i]]
        #![trigger after[i]]
        0 <= i < before.len() ==> after[i] == before[i]
}

/// A list of floating-point operations, each on the results of earlier ones.
pub struct Program {
    operations: Vec<Operation>,
}

impl View for Program {
    type V = Seq<Term>;

    closed spec fn view(&self) -> Seq<Term> {
        meanings(self.operations@)
    }
}

impl Program {
    #[verifier::type_invariant]
    spec fn well_formed(self) -> bool {
        refers_backwards(self.operations@)
    }

    /// The operations, from first to last.
    pub closed spec fn listing(self) -> Seq<Operation> {
        self.operations@
    }

    /// An empty program.
    pub fn new() -> (r: Program)
        ensures
            r@ == Seq::<Term>::empty(),
    {
        Program { operations: Vec::new() }
    }

    /// The number of operations.
    pub fn len(&self) -> (r: usize)
        ensures
            r == self@.len(),
            r == self.listing().len(),
    {
        broadcast use lemma_meanings_len;

        self.operations.len()
    }

    /// The operation at `index`, which refers only to positions before it.
    pub fn operation(&self, index: usize) -> (r: Operation)
        requires
            index < self@.len(),
        ensures
            r == self.listing()[index as int],
            refers_below(r, index as nat),
            self@ == meanings(self.listing()),
    {
        broadcast use lemma_meanings_len;

        proof {
            use_type_invariant(self);
        }
        self.operations[index]
    }

    /// Appends `op` and returns its position.
    pub fn append(&mut self, op: Operation) -> (r: usize)
        requires
            refers_below(op, old(self)@.len()),
        ensures
            r == old(self)@.len(),
            final(self)@ == old(self)@.push(meaning(op, old(self)@)),
            extends(old(self)@, final(self)@),
    {
        broadcast use lemma_meanings_len;

        proof {
            use_type_invariant(&*self);
        }
        let r: usize = self.operations.len();
        let mut operations: Vec<Operation> = Vec::new();
        std::mem::swap(&mut operations, &mut self.operations);
        operations.push(op);
        assert(operations@.drop_last() =~= old(self).operations@);
        self.operations = operations;
        r
    }
}

/// `1.0`.
pub open spec fn unit() -> Term {
    Term::Value(Double { bits: crate::double::ONE })
}

/// `0.0`.
pub open spec fn nothing() -> Term {
    Term::Value(Double { bits: 0 })
}

/// `0.5`.
pub open spec fn half() -> Term {
    Term::Value(Double { bits: crate::double::HALF })
}

/// `2.0`.
pub open spec fn two() -> Term {
    Term::Value(Double { bits: crate::double::TWO })
}

/// Whether positions of a program stand for terms.
pub open spec fn stand_for(at: Seq<usize>, wanted: Seq<Term>, terms: Seq<Term>) -> bool {
    &&& at.len() == wanted.len()
    &&& forall|k: int|
        0 <= k < at.len() ==> (#[trigger] at[k]) < terms.len() && terms[at[k] as int] == wanted[k]
}

/// A longer program changes nothing of positions at its beginning.
pub proof fn lemma_stand_for(
    at: Seq<usize>,
    wanted: Seq<Term>,
    before: Seq<Term>,
    after: Seq<Term>,
)
    requires
        stand_for(at, wanted, before),
        extends(before, after),
    ensures
        stand_for(at, wanted, after),
{
    assert forall|k: int| 0 <= k < at.len() implies (#[trigger] at[k]) < after.len()
        && after[at[k] as int] == wanted[k] by {
        assert(at[k] < before.len());
    }
}

/// The sum of a list, added one after the other to zero.
pub open spec fn running_sum(list: Seq<Term>) -> Term
    decreases list.len(),
{
    if list.len() == 0 {
        nothing()
    } else {
        Term::Plus(Box::new(running_sum(list.drop_last())), Box::new(list.last()))
    }
}

/// The squares of a list.
pub open spec fn squares(list: Seq<Term>) -> Seq<Term> {
    Seq::new(list.len(), |k: int| Term::Square(Box::new(list[k])))
}

/// The absolute values of a list.
pub open spec fn magnitudes(list: Seq<Term>) -> Seq<Term> {
    Seq::new(list.len(), |k: int| Term::Magnitude(Box::new(list[k])))
}

/// The sum of a list that is not empty, added one after the other to its first
/// item.
pub open spec fn sum(list: Seq<Term>) -> Term
    decreases list.len(),
{
    if list.len() <= 1 {
        list[0]
    } else {
        Term::Plus(Box::new(sum(list.drop_last())), Box::new(list.last()))
    }
}

/// Appends the sum of a list of results, added to zero.
pub(crate) fn append_running_sum(
    list: &Vec<usize>,
    program: &mut Program,
    wanted: Ghost<Seq<Term>>,
) -> (r: usize)
    requires
        stand_for(list@, wanted@, old(program)@),
    ensures
        extends(old(program)@, final(program)@),
        r < final(program)@.len(),
        final(program)@[r as int] == running_sum(wanted@),
{
    let ghost start = program@;
    let mut total: usize = program.append(Operation::Value(Double::zero()));
    let mut k: usize = 0;
    assert(wanted@.take(0) =~= Seq::<Term>::empty());
    while k < list.len()
        invariant
            k <= list.len(),
            stand_for(list@, wanted@, start),
            extends(start, program@),
            total < program@.len(),
            program@[total as int] == running_sum(wanted@.take(k as int)),
        decreases list.len() - k,
    {
        assert(wanted@.take(k + 1).drop_last() =~= wanted@.take(k as int));
        assert(list@[k as int] < start.len());
        total = program.append(Operation::Plus(total, list[k]));
        k += 1;
    }
    assert(wanted@.take(k as int) =~= wanted@);
    total
}

/// Appends the sum of a list of results that is not empty.
pub(crate) fn append_sum(list: &Vec<usize>, program: &mut Program, wanted: Ghost<Seq<Term>>) -> (r: usize)
    requires
        list.len() > 0,
        stand_for(list@, wanted@, old(program)@),
    ensures
        extends(old(program)@, final(program)@),
        r < final(program)@.len(),
        final(program)@[r as int] == sum(wanted@),
{
    let ghost start = program@;
    let mut total: usize = list[0];
    let mut k: usize = 1;
    while k < list.len()
        invariant
            1 <= k <= list.len(),
            stand_for(list@, wanted@, start),
            extends(start, program@),
            total < program@.len(),
            program@[total as int] == sum(wanted@.take(k as int)),
        decreases list.len() - k,
    {
        assert(wanted@.take(k + 1).drop_last() =~= wanted@.take(k as int));
        assert(list@[k as int] < start.len());
        total = program.append(Operation::Plus(total, list[k]));
        k += 1;
    }
    assert(wanted@.take(k as int) =~= wanted@);
    total
}

/// Some results of a program, in an order of their own: what has to be known
/// before a decision can be made.
pub struct Query {
    program: Program,
    places: Vec<usize>,
}

impl View for Query {
    type V = Seq<Term>;

    closed spec fn view(&self) -> Seq<Term> {
        Seq::new(self.places.len() as nat, |i: int| self.program@[self.places@[i] as int])
    }
}

impl Query {
    #[verifier::type_invariant]
    spec fn well_formed(self) -> bool {
        forall|i: int| 0 <= i < self.places.len() ==> (#[trigger] self.places@[i]) < self.program@.len()
    }

    /// The terms of the program.
    pub closed spec fn computed(self) -> Seq<Term> {
        self.program@
    }

    /// The results at some positions of a program.
    pub fn new(program: Program, places: Vec<usize>) -> (r: Query)
        requires
            forall|i: int| 0 <= i < places.len() ==> (#[trigger] places@[i]) < program@.len(),
        ensures
            r@ == Seq::new(places.len() as nat, |i: int| program@[places@[i] as int]),
    {
        Query { program, places }
    }

    /// The number of results.
    pub fn len(&self) -> (r: usize)
        ensures
            r == self@.len(),
    {
        self.places.len()
    }

    /// The program that computes the results.
    pub fn program(&self) -> (r: &Program)
        ensures
            r@ == self.computed(),
    {
        &self.program
    }

    /// The positions of the results in the program.
    pub fn places(&self) -> (r: &Vec<usize>)
        ensures
            stand_for(r@, self@, self.computed()),
    {
        proof {
            use_type_invariant(self);
        }
        &self.places
    }
}

} // verus!
