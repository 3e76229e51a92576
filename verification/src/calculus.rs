//! Exact arithmetic with roots, powers and the other functions of a program.

use crate::double::Double;
use crate::program::Operation;
use crate::program;
use crate::program::Term;
use crate::reals;
use vstd::prelude::*;

verus! {

/// An arithmetic over the real numbers: the values of the numbers in a program,
/// and its functions.
pub struct Calculus {
    pub value: spec_fn(Double) -> real,
    /// The angle of a full turn.
    pub turn: real,
    pub root: spec_fn(real) -> real,
    pub power: spec_fn(real, real) -> real,
    pub sine: spec_fn(real) -> real,
    pub cosine: spec_fn(real) -> real,
    pub logarithm: spec_fn(real) -> real,
    pub digamma: spec_fn(real) -> real,
}

impl Calculus {
    /// Whether the numbers zero, one half, one, two and one hundred have their
    /// values.
    pub open spec fn grounded(self) -> bool {
        &&& (self.value)(Double { bits: 0 }) == 0real
        &&& (self.value)(Double { bits: 0x3fe0_0000_0000_0000 }) * 2real == 1real
        &&& (self.value)(Double { bits: 0x3ff0_0000_0000_0000 }) == 1real
        &&& (self.value)(Double { bits: 0x4000_0000_0000_0000 }) == 2real
        &&& (self.value)(Double { bits: 0x4059_0000_0000_0000 }) == 100real
    }

    /// Whether numbers that are not negative have square roots.
    pub open spec fn rooted(self) -> bool {
        forall|x: real|
            x >= 0real ==> (#[trigger] (self.root)(x)) >= 0real && (self.root)(x) * (self.root)(x)
                == x
    }
}

/// The value of a term.
pub open spec fn computed(term: Term, c: Calculus) -> real
    decreases term,
{
    match term {
        Term::Value(d) => (c.value)(d),
        Term::Natural(n) => n as int as real,
        Term::Integer(i) => i as real,
        Term::FullTurn => c.turn,
        Term::Plus(a, b) => computed(*a, c) + computed(*b, c),
        Term::Minus(a, b) => computed(*a, c) - computed(*b, c),
        Term::Times(a, b) => computed(*a, c) * computed(*b, c),
        Term::Over(a, b) => computed(*a, c) / computed(*b, c),
        Term::Power(a, b) => (c.power)(computed(*a, c), computed(*b, c)),
        Term::Square(a) => computed(*a, c) * computed(*a, c),
        Term::Root(a) => (c.root)(computed(*a, c)),
        Term::Magnitude(a) => magnitude(computed(*a, c)),
        Term::Lesser(a, b) => if computed(*b, c) < computed(*a, c) {
            computed(*b, c)
        } else {
            computed(*a, c)
        },
        Term::Greater(a, b) => if computed(*a, c) < computed(*b, c) {
            computed(*b, c)
        } else {
            computed(*a, c)
        },
        Term::Sine(a) => (c.sine)(computed(*a, c)),
        Term::Cosine(a) => (c.cosine)(computed(*a, c)),
        Term::Logarithm(a) => (c.logarithm)(computed(*a, c)),
        Term::Digamma(a) => (c.digamma)(computed(*a, c)),
        Term::Scaled(a, b) => if computed(*b, c) > 0real {
            computed(*a, c) / computed(*b, c)
        } else {
            computed(*a, c)
        },
    }
}

/// A number without its sign.
pub open spec fn magnitude(r: real) -> real {
    if r < 0real {
        -r
    } else {
        r
    }
}

/// The values of a list of terms.
pub open spec fn all_computed(list: Seq<Term>, c: Calculus) -> Seq<real> {
    Seq::new(list.len(), |k: int| computed(list[k], c))
}

/// The value of a running sum is the sum of the values.
pub proof fn law_running_sum(list: Seq<Term>, c: Calculus)
    requires
        (c.value)(Double { bits: 0 }) == 0real,
    ensures
        computed(program::running_sum(list), c) == reals::total(all_computed(list, c)),
    decreases list.len(),
{
    if list.len() > 0 {
        law_running_sum(list.drop_last(), c);
        assert(all_computed(list, c).drop_last() =~= all_computed(list.drop_last(), c));
    }
}

/// The value of a sum that begins with its first item is the sum of the values.
pub proof fn law_sum(list: Seq<Term>, c: Calculus)
    requires
        list.len() > 0,
    ensures
        computed(program::sum(list), c) == reals::total(all_computed(list, c)),
    decreases list.len(),
{
    assert(all_computed(list, c).drop_last() =~= all_computed(list.drop_last(), c));
    if list.len() > 1 {
        law_sum(list.drop_last(), c);
    } else {
        assert(all_computed(list.drop_last(), c) =~= Seq::empty());
        assert(reals::total(all_computed(list.drop_last(), c)) == 0real);
    }
}

/// Numbers that are not negative and have the same square are the same.
pub proof fn lemma_same_square(a: real, b: real)
    requires
        a >= 0real,
        b >= 0real,
        a * a == b * b,
    ensures
        a == b,
{
    assert(a == b) by (nonlinear_arith)
        requires
            a >= 0real,
            b >= 0real,
            a * a == b * b,
    ;
}

/// A quotient times its divisor.
pub proof fn lemma_quotient(a: real, b: real)
    requires
        b != 0real,
    ensures
        (a / b) * b == a,
{
    assert((a / b) * b == a) by (nonlinear_arith)
        requires
            b != 0real,
    ;
}

/// A product of numbers that are not negative is not negative.
pub proof fn lemma_product(a: real, b: real)
    requires
        a >= 0real,
        b >= 0real,
    ensures
        a * b >= 0real,
{
    assert(a * b >= 0real) by (nonlinear_arith)
        requires
            a >= 0real,
            b >= 0real,
    ;
}

/// Over a greater number a positive one gives less.
pub proof fn lemma_lesser_quotient(k: real, x: real, y: real)
    requires
        k > 0real,
        0real < x < y,
    ensures
        0real < k / y < k / x,
{
    let (u, t) = (k / x, k / y);
    lemma_quotient(k, x);
    lemma_quotient(k, y);
    if u <= 0real {
        lemma_product(-u, x);
        assert((-u) * x == -(u * x)) by (nonlinear_arith);
    }
    if t <= 0real {
        lemma_product(-t, y);
        assert((-t) * y == -(t * y)) by (nonlinear_arith);
    }
    if t >= u {
        lemma_product(t - u, y);
        assert((t - u) * y == t * y - u * y) by (nonlinear_arith);
        lemma_product(u, y - x);
        assert(u * (y - x) == u * y - u * x) by (nonlinear_arith);
        let d = y - x;
        assert(u * d > 0real) by (nonlinear_arith)
            requires
                u > 0real,
                d > 0real,
        ;
    }
}

/// What an operation gives on the results of the operations before it.
pub open spec fn performed(op: Operation, results: Seq<real>, c: Calculus) -> real {
    match op {
        Operation::Value(d) => (c.value)(d),
        Operation::Natural(n) => n as int as real,
        Operation::Integer(i) => i as int as real,
        Operation::FullTurn => c.turn,
        Operation::Plus(a, b) => results[a as int] + results[b as int],
        Operation::Minus(a, b) => results[a as int] - results[b as int],
        Operation::Times(a, b) => results[a as int] * results[b as int],
        Operation::Over(a, b) => results[a as int] / results[b as int],
        Operation::Power(a, b) => (c.power)(results[a as int], results[b as int]),
        Operation::Square(a) => results[a as int] * results[a as int],
        Operation::Root(a) => (c.root)(results[a as int]),
        Operation::Magnitude(a) => magnitude(results[a as int]),
        Operation::Lesser(a, b) => if results[a as int] <= results[b as int] {
            results[a as int]
        } else {
            results[b as int]
        },
        Operation::Greater(a, b) => if results[a as int] >= results[b as int] {
            results[a as int]
        } else {
            results[b as int]
        },
        Operation::Sine(a) => (c.sine)(results[a as int]),
        Operation::Cosine(a) => (c.cosine)(results[a as int]),
        Operation::Logarithm(a) => (c.logarithm)(results[a as int]),
        Operation::Digamma(a) => (c.digamma)(results[a as int]),
        Operation::Scaled(a, b) => if results[b as int] > 0real {
            results[a as int] / results[b as int]
        } else {
            results[a as int]
        },
    }
}

/// The results of operations, each on those before it.
pub open spec fn results_of(ops: Seq<Operation>, c: Calculus) -> Seq<real>
    decreases ops.len(),
{
    if ops.len() == 0 {
        Seq::empty()
    } else {
        let before = results_of(ops.drop_last(), c);
        before.push(performed(ops.last(), before, c))
    }
}

/// A program computes the values of its terms.
pub proof fn law_program(ops: Seq<Operation>, c: Calculus)
    requires
        program::refers_backwards(ops),
    ensures
        results_of(ops, c) == all_computed(program::meanings(ops), c),
    decreases ops.len(),
{
    program::lemma_meanings_len(ops);
    if ops.len() > 0 {
        let front = ops.drop_last();
        assert forall|i: int| 0 <= i < front.len() implies program::refers_below(
            #[trigger] front[i],
            i as nat,
        ) by {
            assert(front[i] == ops[i]);
        }
        law_program(front, c);
        program::lemma_meanings_len(front);
        assert(program::refers_below(ops[ops.len() - 1], (ops.len() - 1) as nat));
        let before = program::meanings(front);
        let term = program::meaning(ops.last(), before);
        assert(computed(term, c) == performed(ops.last(), all_computed(before, c), c)) by {
            reveal_with_fuel(computed, 2);
        }
        assert(results_of(ops, c) =~= all_computed(program::meanings(ops), c));
    } else {
        assert(results_of(ops, c) =~= all_computed(program::meanings(ops), c));
    }
}

} // verus!
