//! Columns of double-precision numbers.

use crate::calculus::Calculus;
use crate::calculus;
use crate::double::Double;
use crate::draft;
use crate::error::Error;
use crate::error::ErrorView;
use crate::error::Problem;
use crate::frame;
use crate::frame::Cells;
use crate::frame::ColumnView;
use crate::frame::Frame;
use crate::frame::FrameView;
use crate::frame::Number;
use crate::frame::SheetColumn;
use crate::frame::Values;
use crate::frame::ValuesView;
use crate::program;
use crate::program::Operation;
use crate::program::Program;
use crate::program::Term;
use crate::text;
use crate::text::Text;
use vstd::prelude::*;

verus! {

/// The names of the columns of double-precision numbers, in order.
pub open spec fn float_names(columns: Seq<ColumnView>) -> Seq<Seq<char>>
    decreases columns.len(),
{
    if columns.len() == 0 {
        Seq::empty()
    } else {
        let front = float_names(columns.drop_last());
        if columns.last().values is Float64 {
            front.push(columns.last().name)
        } else {
            front
        }
    }
}

/// The names and types of columns, as one text.
pub open spec fn listing(columns: Seq<ColumnView>) -> Seq<char>
    decreases columns.len(),
{
    if columns.len() == 0 {
        Seq::empty()
    } else {
        let front = columns.drop_last();
        let begun = if front.len() == 0 {
            Seq::empty()
        } else {
            listing(front) + ", "@
        };
        begun + "'"@ + columns.last().name + "' ("@ + columns.last().values.dtype() + ")"@
    }
}

/// What a transformer of double-precision numbers says of a frame without any.
pub open spec fn float_fault(who: Seq<char>, x: FrameView) -> Option<ErrorView> {
    if float_names(x.columns).len() == 0 {
        Some(ErrorView::about(Problem::NoFloat64Columns, who, listing(x.columns)))
    } else {
        None
    }
}

/// Why a frame has no column of double-precision numbers of a name.
pub open spec fn number_fault(who: Seq<char>, x: FrameView, name: Seq<char>) -> Option<ErrorView> {
    match x.find(name) {
        None => Some(ErrorView::about(Problem::ColumnNotFound, who, name)),
        Some(i) => if x.columns[i].values is Float64 {
            None
        } else {
            Some(
                ErrorView::detailed(
                    Problem::ExpectedFloat64,
                    who,
                    name,
                    x.columns[i].values.dtype(),
                ),
            )
        },
    }
}

/// Whether column `i` has the given name and holds double-precision numbers.
pub open spec fn named_float(columns: Seq<ColumnView>, name: Seq<char>, i: int) -> bool {
    0 <= i < columns.len() && columns[i].name == name && columns[i].values is Float64
}

/// The names that are listed are just those of the columns of
/// double-precision numbers.
pub proof fn law_float_names(columns: Seq<ColumnView>, name: Seq<char>)
    ensures
        float_names(columns).contains(name) <==> exists|i: int| named_float(columns, name, i),
    decreases columns.len(),
{
    if columns.len() > 0 {
        let front = columns.drop_last();
        let all = float_names(columns);
        let before = float_names(front);
        let last = columns.len() - 1;
        law_float_names(front, name);
        if all.contains(name) {
            let k = choose|k: int| 0 <= k < all.len() && all[k] == name;
            if k < before.len() {
                assert(before[k] == name);
                let i = choose|i: int| named_float(front, name, i);
                assert(named_float(columns, name, i));
            } else {
                assert(named_float(columns, name, last));
            }
        }
        if exists|i: int| named_float(columns, name, i) {
            let i = choose|i: int| named_float(columns, name, i);
            if i < last {
                assert(named_float(front, name, i));
                let k = choose|k: int| 0 <= k < before.len() && before[k] == name;
                assert(all[k] == name);
            } else {
                assert(all[all.len() - 1] == name);
            }
        }
    }
}

/// Names the columns of double-precision numbers, in order.
pub fn numeric_f64_columns(x: &Frame) -> (r: Vec<Text>)
    ensures
        text::views(r@) == float_names(x@.columns),
        x@.valid(),
{
    let n: usize = x.width();
    let mut r: Vec<Text> = Vec::new();
    let mut i: usize = 0;
    assert(x@.columns.take(0) =~= Seq::empty());
    assert(text::views(r@) =~= Seq::empty());
    while i < n
        invariant
            i <= n,
            n == x@.columns.len(),
            x@.valid(),
            text::views(r@) == float_names(x@.columns.take(i as int)),
        decreases n - i,
    {
        assert(x@.columns.take(i + 1).drop_last() =~= x@.columns.take(i as int));
        let ghost before = r@;
        match &x.column(i).values {
            Values::Float64(_) => {
                let name: Text = x.column(i).name.duplicate();
                r.push(name);
                assert(text::views(r@) =~= text::views(before).push(x@.columns[i as int].name));
            },
            _ => {},
        }
        i += 1;
    }
    assert(x@.columns.take(n as int) =~= x@.columns);
    r
}

/// The names and types of the columns of a frame, as one text.
fn list_columns(x: &Frame) -> (r: Text)
    ensures
        r@ == listing(x@.columns),
{
    let n: usize = x.width();
    let mut r: Text = Text::new();
    let mut i: usize = 0;
    assert(x@.columns.take(0) =~= Seq::empty());
    while i < n
        invariant
            i <= n,
            n == x@.columns.len(),
            r@ == listing(x@.columns.take(i as int)),
        decreases n - i,
    {
        assert(x@.columns.take(i + 1).drop_last() =~= x@.columns.take(i as int));
        if i > 0 {
            r.push_str(", ");
        }
        r.push_str("'");
        r.append(&x.column(i).name);
        r.push_str("' (");
        r.append(&x.column(i).values.dtype());
        r.push_str(")");
        i += 1;
    }
    assert(x@.columns.take(n as int) =~= x@.columns);
    r
}

/// Names the columns of double-precision numbers, in order; there has to be
/// one.
pub fn require_f64_columns(x: &Frame, who: &str) -> (r: Result<Vec<Text>, Error>)
    ensures
        match float_fault(who@, x@) {
            Some(e) => r is Err && r->Err_0@ == e,
            None => r is Ok && text::views(r->Ok_0@) == float_names(x@.columns),
        },
        x@.valid(),
{
    let names: Vec<Text> = numeric_f64_columns(x);
    assert(text::views(names@).len() == names.len());
    if names.len() == 0 {
        let all: Text = list_columns(x);
        return Err(Error::about(Problem::NoFloat64Columns, who, &all));
    }
    Ok(names)
}

/// Finds a column of double-precision numbers.
pub fn find_f64_column<'a>(x: &'a Frame, name: &Text, who: &str) -> (r: Result<
    (usize, &'a Vec<Option<Double>>),
    Error,
>)
    ensures
        match number_fault(who@, x@, name@) {
            Some(e) => r is Err && r->Err_0@ == e,
            None => {
                &&& r is Ok
                &&& x@.find(name@) == Some(r->Ok_0.0 as int)
                &&& x@.holds(name@, r->Ok_0.0 as int)
                &&& x@.columns[r->Ok_0.0 as int].values == ValuesView::Float64(r->Ok_0.1@)
                &&& r->Ok_0.1.len() == x@.height
            },
        },
        x@.valid(),
{
    let i: usize = match x.find(name) {
        Some(i) => i,
        None => {
            return Err(Error::about(Problem::ColumnNotFound, who, name));
        },
    };
    match &x.column(i).values {
        Values::Float64(cells) => {
            assert(x@.columns[i as int].values.len() == x@.height);
            Ok((i, cells))
        },
        _ => {
            let dtype: Text = x.column(i).values.dtype();
            Err(Error::detailed(Problem::ExpectedFloat64, who, name, dtype))
        },
    }
}

/// Replaces the values of a column of double-precision numbers, one by one;
/// missing values stay missing.
///
/// `out` are the columns made so far, one for each column of the frame.
pub fn replace_f64_column<F: Fn(Double) -> Number>(
    x: &Frame,
    out: &mut Vec<SheetColumn>,
    name: &Text,
    who: &str,
    f: F,
) -> (r: Result<(), Error>)
    requires
        old(out).len() == x@.columns.len(),
        forall|v: Double| #[trigger] call_requires(f, (v,)),
    ensures
        match number_fault(who@, x@, name@) {
            Some(e) => r is Err && r->Err_0@ == e && *final(out) == *old(out),
            None => {
                let i = x@.find(name@)->0;
                &&& r is Ok
                &&& final(out).len() == old(out).len()
                &&& forall|k: int|
                    0 <= k < old(out).len() && k != i ==> #[trigger] final(out)@[k] == old(out)@[k]
                &&& final(out)@[i].name == old(out)@[i].name
                &&& final(out)@[i].cells is Float64
                &&& final(out)@[i].cells->Float64_0.len() == x@.height
                &&& forall|k: int|
                    0 <= k < x@.height ==> match x@.columns[i].values->Float64_0[k] {
                        None => #[trigger] final(out)@[i].cells->Float64_0@[k] is None,
                        Some(v) => {
                            &&& final(out)@[i].cells->Float64_0@[k] is Some
                            &&& call_ensures(f, (v,), final(out)@[i].cells->Float64_0@[k]->0)
                        },
                    }
            },
        },
{
    let (i, cells) = match find_f64_column(x, name, who) {
        Ok(found) => found,
        Err(e) => {
            return Err(e);
        },
    };
    let mut mapped: Vec<Option<Number>> = Vec::new();
    let mut k: usize = 0;
    while k < cells.len()
        invariant
            k <= cells.len(),
            forall|v: Double| #[trigger] call_requires(f, (v,)),
            mapped.len() == k,
            forall|m: int|
                0 <= m < k ==> match cells@[m] {
                    None => #[trigger] mapped@[m] is None,
                    Some(v) => mapped@[m] is Some && call_ensures(f, (v,), mapped@[m]->0),
                },
        decreases cells.len() - k,
    {
        let next: Option<Number> = match cells[k] {
            None => None,
            Some(v) => Some(f(v)),
        };
        mapped.push(next);
        k += 1;
    }
    out[i].cells = Cells::Float64(mapped);
    Ok(())
}

/// Replaces the values of a column of double-precision numbers, one by one, by
/// values that may be missing; missing values stay missing.
///
/// `out` are the columns made so far, one for each column of the frame.
pub fn replace_f64_column_opt<F: Fn(Double) -> Option<Number>>(
    x: &Frame,
    out: &mut Vec<SheetColumn>,
    name: &Text,
    who: &str,
    f: F,
) -> (r: Result<(), Error>)
    requires
        old(out).len() == x@.columns.len(),
        forall|v: Double| #[trigger] call_requires(f, (v,)),
    ensures
        match number_fault(who@, x@, name@) {
            Some(e) => r is Err && r->Err_0@ == e && *final(out) == *old(out),
            None => {
                let i = x@.find(name@)->0;
                &&& r is Ok
                &&& final(out).len() == old(out).len()
                &&& forall|k: int|
                    0 <= k < old(out).len() && k != i ==> #[trigger] final(out)@[k] == old(out)@[k]
                &&& final(out)@[i].name == old(out)@[i].name
                &&& final(out)@[i].cells is Float64
                &&& final(out)@[i].cells->Float64_0.len() == x@.height
                &&& forall|k: int|
                    0 <= k < x@.height ==> match x@.columns[i].values->Float64_0[k] {
                        None => #[trigger] final(out)@[i].cells->Float64_0@[k] is None,
                        Some(v) => call_ensures(f, (v,), final(out)@[i].cells->Float64_0@[k]),
                    }
            },
        },
{
    let (i, cells) = match find_f64_column(x, name, who) {
        Ok(found) => found,
        Err(e) => {
            return Err(e);
        },
    };
    let mut mapped: Vec<Option<Number>> = Vec::new();
    let mut k: usize = 0;
    while k < cells.len()
        invariant
            k <= cells.len(),
            forall|v: Double| #[trigger] call_requires(f, (v,)),
            mapped.len() == k,
            forall|m: int|
                0 <= m < k ==> match cells@[m] {
                    None => #[trigger] mapped@[m] is None,
                    Some(v) => call_ensures(f, (v,), mapped@[m]),
                },
        decreases cells.len() - k,
    {
        let next: Option<Number> = match cells[k] {
            None => None,
            Some(v) => f(v),
        };
        mapped.push(next);
        k += 1;
    }
    out[i].cells = Cells::Float64(mapped);
    Ok(())
}

/// The products of two lists of numbers, row by row.
pub open spec fn products(a: Seq<Option<Term>>, b: Seq<Option<Term>>) -> Seq<Option<Term>> {
    Seq::new(
        a.len(),
        |i: int|
            match (a[i], b[i]) {
                (Some(u), Some(v)) => Some(Term::Times(Box::new(u), Box::new(v))),
                _ => None,
            },
    )
}

/// The powers of a list of numbers.
pub open spec fn powers(s: Seq<Option<Double>>, exponent: nat) -> Seq<Option<Term>> {
    Seq::new(
        s.len(),
        |i: int|
            match s[i] {
                Some(v) => Some(
                    Term::Power(Box::new(Term::Value(v)), Box::new(Term::Natural(exponent))),
                ),
                None => None,
            },
    )
}

/// A divisor, moved away from zero by `epsilon`.
pub open spec fn floored(divisor: Double, epsilon: Double) -> Term {
    Term::Plus(
        Box::new(Term::Value(divisor)),
        Box::new(Term::Value(epsilon.signed_like(divisor))),
    )
}

/// The quotients of two lists of numbers, row by row, the divisors moved away
/// from zero by `epsilon`.
pub open spec fn quotients(
    a: Seq<Option<Double>>,
    b: Seq<Option<Double>>,
    epsilon: Double,
) -> Seq<Option<Term>> {
    Seq::new(
        a.len(),
        |i: int|
            match (a[i], b[i]) {
                (Some(u), Some(v)) => Some(
                    Term::Over(Box::new(Term::Value(u)), Box::new(floored(v, epsilon))),
                ),
                _ => None,
            },
    )
}

/// In exact arithmetic a divisor that is moved away from zero keeps its sign,
/// and is as far from zero as `epsilon` at least.
pub proof fn law_divisor_floor(
    divisor: Double,
    epsilon: Double,
    value: spec_fn(Double) -> real,
)
    requires
        value(epsilon) >= 0real,
        divisor.bits < crate::double::SIGN ==> value(divisor) >= 0real && value(
            epsilon.signed_like(divisor),
        ) == value(epsilon),
        divisor.bits >= crate::double::SIGN ==> value(divisor) <= 0real && value(
            epsilon.signed_like(divisor),
        ) == -value(epsilon),
    ensures
        divisor.bits < crate::double::SIGN ==> program::exact(floored(divisor, epsilon), value)
            >= value(epsilon),
        divisor.bits >= crate::double::SIGN ==> program::exact(floored(divisor, epsilon), value)
            <= -value(epsilon),
{
    reveal_with_fuel(program::exact, 2);
}

/// Appends the products of two lists of numbers, row by row; a product with a
/// missing value is missing.
pub fn series_mul(
    a: &Vec<Option<Number>>,
    b: &Vec<Option<Number>>,
    program: &mut Program,
) -> (r: Vec<Option<Number>>)
    requires
        a.len() == b.len(),
        draft::all_settled(a@, old(program)@.len()),
        draft::all_settled(b@, old(program)@.len()),
    ensures
        program::extends(old(program)@, final(program)@),
        frame::terms_of(r@, final(program)@) == products(
            frame::terms_of(a@, old(program)@),
            frame::terms_of(b@, old(program)@),
        ),
        draft::all_settled(r@, final(program)@.len()),
{
    let ghost before = program@;
    let ghost left = frame::terms_of(a@, before);
    let ghost right = frame::terms_of(b@, before);
    let ghost wanted = products(left, right);
    let mut r: Vec<Option<Number>> = Vec::new();
    let mut i: usize = 0;
    while i < a.len()
        invariant
            i <= a.len(),
            a.len() == b.len(),
            before == old(program)@,
            program::extends(before, program@),
            draft::all_settled(a@, before.len()),
            draft::all_settled(b@, before.len()),
            left == frame::terms_of(a@, before),
            right == frame::terms_of(b@, before),
            wanted == products(left, right),
            r.len() == i,
            draft::all_settled(r@, program@.len()),
            forall|k: int|
                0 <= k < i ==> frame::optional_term(#[trigger] r@[k], program@) == wanted[k],
        decreases a.len() - i,
    {
        let ghost held = program@;
        assert(frame::settled(a@[i as int], before.len()));
        assert(frame::settled(b@[i as int], before.len()));
        let next: Option<Number> = match (a[i], b[i]) {
            (Some(u), Some(v)) => {
                let p: usize = draft::load(u, program);
                assert(frame::term_of(u, held) == frame::term_of(u, before));
                let ghost second = program@;
                let q: usize = draft::load(v, program);
                assert(frame::term_of(v, second) == frame::term_of(v, before));
                let product: usize = program.append(Operation::Times(p, q));
                Some(Number::Register(product))
            },
            _ => None,
        };
        assert(frame::optional_term(next, program@) == wanted[i as int]);
        proof {
            assert forall|k: int| 0 <= k < i implies frame::settled(
                #[trigger] r@[k],
                program@.len(),
            ) && frame::optional_term(r@[k], program@) == wanted[k] by {
                assert(frame::settled(r@[k], held.len()));
                assert(frame::optional_term(r@[k], held) == wanted[k]);
            }
        }
        r.push(next);
        i += 1;
    }
    assert(frame::terms_of(r@, program@) =~= wanted);
    r
}

/// Appends the powers of a list of numbers; missing values stay missing.
pub fn series_pow(s: &Vec<Option<Double>>, exp: usize, program: &mut Program) -> (r: Vec<
    Option<Number>,
>)
    ensures
        program::extends(old(program)@, final(program)@),
        frame::terms_of(r@, final(program)@) == powers(s@, exp as nat),
        draft::all_settled(r@, final(program)@.len()),
{
    let ghost wanted = powers(s@, exp as nat);
    let exponent: usize = program.append(Operation::Natural(exp as u64));
    let mut r: Vec<Option<Number>> = Vec::new();
    let mut i: usize = 0;
    while i < s.len()
        invariant
            i <= s.len(),
            program::extends(old(program)@, program@),
            exponent < program@.len(),
            program@[exponent as int] == Term::Natural(exp as nat),
            wanted == powers(s@, exp as nat),
            r.len() == i,
            draft::all_settled(r@, program@.len()),
            forall|k: int|
                0 <= k < i ==> frame::optional_term(#[trigger] r@[k], program@) == wanted[k],
        decreases s.len() - i,
    {
        let ghost held = program@;
        let next: Option<Number> = match s[i] {
            Some(v) => {
                let base: usize = program.append(Operation::Value(v));
                let power: usize = program.append(Operation::Power(base, exponent));
                Some(Number::Register(power))
            },
            None => None,
        };
        assert(frame::optional_term(next, program@) == wanted[i as int]);
        proof {
            assert forall|k: int| 0 <= k < i implies frame::settled(
                #[trigger] r@[k],
                program@.len(),
            ) && frame::optional_term(r@[k], program@) == wanted[k] by {
                assert(frame::settled(r@[k], held.len()));
                assert(frame::optional_term(r@[k], held) == wanted[k]);
            }
        }
        r.push(next);
        i += 1;
    }
    assert(frame::terms_of(r@, program@) =~= wanted);
    r
}

/// Appends the quotients of two lists of numbers, row by row, the divisors
/// moved away from zero by `epsilon`; a quotient with a missing value is
/// missing.
pub fn series_div(
    a: &Vec<Option<Double>>,
    b: &Vec<Option<Double>>,
    epsilon: Double,
    program: &mut Program,
) -> (r: Vec<Option<Number>>)
    requires
        a.len() == b.len(),
    ensures
        program::extends(old(program)@, final(program)@),
        frame::terms_of(r@, final(program)@) == quotients(a@, b@, epsilon),
        draft::all_settled(r@, final(program)@.len()),
{
    let ghost wanted = quotients(a@, b@, epsilon);
    let mut r: Vec<Option<Number>> = Vec::new();
    let mut i: usize = 0;
    while i < a.len()
        invariant
            i <= a.len(),
            a.len() == b.len(),
            program::extends(old(program)@, program@),
            wanted == quotients(a@, b@, epsilon),
            r.len() == i,
            draft::all_settled(r@, program@.len()),
            forall|k: int|
                0 <= k < i ==> frame::optional_term(#[trigger] r@[k], program@) == wanted[k],
        decreases a.len() - i,
    {
        let ghost held = program@;
        let next: Option<Number> = match (a[i], b[i]) {
            (Some(u), Some(v)) => {
                let top: usize = program.append(Operation::Value(u));
                let divisor: usize = program.append(Operation::Value(v));
                let floor: usize = program.append(Operation::Value(epsilon.copysign(v)));
                let bottom: usize = program.append(Operation::Plus(divisor, floor));
                let quotient: usize = program.append(Operation::Over(top, bottom));
                Some(Number::Register(quotient))
            },
            _ => None,
        };
        assert(frame::optional_term(next, program@) == wanted[i as int]);
        proof {
            assert forall|k: int| 0 <= k < i implies frame::settled(
                #[trigger] r@[k],
                program@.len(),
            ) && frame::optional_term(r@[k], program@) == wanted[k] by {
                assert(frame::settled(r@[k], held.len()));
                assert(frame::optional_term(r@[k], held) == wanted[k]);
            }
        }
        r.push(next);
        i += 1;
    }
    assert(frame::terms_of(r@, program@) =~= wanted);
    r
}

/// Products, powers and quotients are those of the numbers of each row, and
/// missing where one of them is; a quotient times its divisor, moved away from
/// zero by `epsilon`, is the dividend.
pub proof fn law_row_by_row(
    a: Seq<Option<Double>>,
    b: Seq<Option<Double>>,
    exponent: nat,
    epsilon: Double,
    i: int,
    c: Calculus,
)
    requires
        a.len() == b.len(),
        0 <= i < a.len(),
    ensures
        ({
            let product = products(draft::given(a), draft::given(b))[i];
            let power = powers(a, exponent)[i];
            let quotient = quotients(a, b, epsilon)[i];
            match (a[i], b[i]) {
                (Some(u), Some(v)) => {
                    let divisor = (c.value)(v) + (c.value)(epsilon.signed_like(v));
                    &&& product matches Some(p) && calculus::computed(p, c) == (c.value)(u) * (
                    c.value)(v)
                    &&& quotient matches Some(q) && (divisor != 0real ==> calculus::computed(q, c)
                        * divisor == (c.value)(u))
                },
                _ => product is None && quotient is None,
            }
        }),
        match a[i] {
            Some(u) => powers(a, exponent)[i] matches Some(p) && calculus::computed(p, c) == (
            c.power)((c.value)(u), exponent as int as real),
            None => powers(a, exponent)[i] is None,
        },
{
    reveal_with_fuel(calculus::computed, 4);
    if let (Some(u), Some(v)) = (a[i], b[i]) {
        let divisor = (c.value)(v) + (c.value)(epsilon.signed_like(v));
        if divisor != 0real {
            calculus::lemma_quotient((c.value)(u), divisor);
        }
    }
}

} // verus!
