//! Rolling windows.
//!
//! [`RollingAggregator`] aggregates a fixed number of consecutive rows.

use crate::calculus;
use crate::calculus::Calculus;
use crate::double::Double;
use crate::draft;
use crate::draft::Draft;
use crate::error;
use crate::error::Error;
use crate::error::ErrorView;
use crate::error::Problem;
use crate::frame;
use crate::frame::CellsView;
use crate::frame::Frame;
use crate::frame::FrameView;
use crate::frame::Number;
use crate::frame::Sheet;
use crate::frame::SheetColumnView;
use crate::frame::SheetView;
use crate::program;
use crate::program::Operation;
use crate::program::Program;
use crate::program::Term;
use crate::reals;
use crate::text;
use crate::text::Text;
use vstd::prelude::*;

verus! {

/// What is made of the rows of a window.
#[derive(Clone, Copy, Debug, PartialEq, Eq, Structural)]
pub enum RollingFn {
    /// The mean.
    Mean,
    /// The standard deviation of the rows as a population.
    Std,
    /// The least value.
    Min,
    /// The greatest value.
    Max,
    /// The sum.
    Sum,
}

impl RollingFn {
    /// The name of the function in the names of columns.
    pub open spec fn name(self) -> Seq<char> {
        match self {
            RollingFn::Mean => "mean"@,
            RollingFn::Std => "std"@,
            RollingFn::Min => "min"@,
            RollingFn::Max => "max"@,
            RollingFn::Sum => "sum"@,
        }
    }

    /// The name of the function in the names of columns.
    fn label(self) -> (r: &'static str)
        ensures
            r@ == self.name(),
    {
        match self {
            RollingFn::Mean => "mean",
            RollingFn::Std => "std",
            RollingFn::Min => "min",
            RollingFn::Max => "max",
            RollingFn::Sum => "sum",
        }
    }
}

/// The least of a list and positive infinity.
pub open spec fn least(list: Seq<Term>) -> Term
    decreases list.len(),
{
    if list.len() == 0 {
        Term::Value(Double { bits: crate::double::INFINITE })
    } else {
        Term::Lesser(Box::new(least(list.drop_last())), Box::new(list.last()))
    }
}

/// The greatest of a list and negative infinity.
pub open spec fn greatest(list: Seq<Term>) -> Term
    decreases list.len(),
{
    if list.len() == 0 {
        Term::Value(Double { bits: crate::double::NEGATIVE_INFINITE })
    } else {
        Term::Greater(Box::new(greatest(list.drop_last())), Box::new(list.last()))
    }
}

/// The mean of a list.
pub open spec fn mean(list: Seq<Term>) -> Term {
    Term::Over(Box::new(program::sum(list)), Box::new(Term::Natural(list.len())))
}

/// The squared distances of a list from its mean.
pub open spec fn deviations(list: Seq<Term>) -> Seq<Term> {
    Seq::new(
        list.len(),
        |k: int|
            Term::Square(Box::new(Term::Minus(Box::new(list[k]), Box::new(mean(list))))),
    )
}

/// What is made of the rows of a window.
pub open spec fn aggregated(function: RollingFn, window: Seq<Term>) -> Term {
    match function {
        RollingFn::Mean => mean(window),
        RollingFn::Sum => program::sum(window),
        RollingFn::Min => least(window),
        RollingFn::Max => greatest(window),
        RollingFn::Std => Term::Root(Box::new(mean(deviations(window)))),
    }
}

/// The rows of the window that ends with row `i`; none where the window is not
/// complete or a value in it is missing.
pub open spec fn window(cells: Seq<Option<Term>>, size: nat, i: int) -> Option<Seq<Term>> {
    if i + 1 < size || exists|k: int| i + 1 - size <= k <= i && (#[trigger] cells[k]) is None {
        None
    } else {
        Some(Seq::new(size, |k: int| cells[i + 1 - size + k]->0))
    }
}

/// The aggregates of all windows of a column.
pub open spec fn rolled(cells: Seq<Option<Term>>, size: nat, function: RollingFn) -> Seq<
    Option<Term>,
> {
    Seq::new(
        cells.len(),
        |i: int|
            match window(cells, size, i) {
                Some(w) => Some(aggregated(function, w)),
                None => None,
            },
    )
}

/// The name of the column of aggregates.
pub open spec fn rolled_name(column: Seq<char>, size: nat, function: RollingFn) -> Seq<char> {
    column + "_"@ + function.name() + "_"@ + text::decimal(size)
}

/// The columns after the aggregates of one more column were laid.
pub open spec fn rolled_step(x: FrameView, size: nat, function: RollingFn) -> spec_fn(
    Seq<SheetColumnView>,
    Seq<char>,
) -> Result<Seq<SheetColumnView>, ErrorView> {
    |made: Seq<SheetColumnView>, column: Seq<char>|
        match draft::place(made, column) {
            None => Err(ErrorView::about(Problem::ColumnNotFound, "RollingAggregator"@, column)),
            Some(i) => match draft::cell_numbers(x, made[i].cells) {
                None => Err(
                    ErrorView::detailed(
                        Problem::ExpectedFloat64,
                        "RollingAggregator"@,
                        column,
                        draft::cell_type(x, made[i].cells),
                    ),
                ),
                Some(cells) => Ok(
                    draft::laid(
                        made,
                        SheetColumnView {
                            name: rolled_name(column, size, function),
                            cells: CellsView::Float64(rolled(cells, size, function)),
                        },
                    ),
                ),
            },
        }
}

/// What an aggregator makes of a frame.
pub open spec fn rolling_outcome(
    fitted: bool,
    x: FrameView,
    columns: Seq<Seq<char>>,
    size: nat,
    function: RollingFn,
) -> Result<SheetView, ErrorView> {
    if !fitted {
        Err(ErrorView::plain(Problem::NotFitted, "RollingAggregator"@))
    } else {
        match draft::steps(frame::kept_columns(x), columns, rolled_step(x, size, function)) {
            Err(e) => Err(e),
            Ok(made) => Ok(SheetView { height: x.height, columns: made }),
        }
    }
}

/// Why a column cannot be aggregated.
pub open spec fn missing_fault(x: FrameView) -> spec_fn(Seq<char>) -> Option<ErrorView> {
    |name: Seq<char>|
        if x.find(name) is None {
            Some(ErrorView::about(Problem::ColumnNotFound, "RollingAggregator"@, name))
        } else {
            None
        }
}

/// Why an aggregator cannot be fitted.
pub open spec fn rolling_fault(columns: Seq<Seq<char>>, size: usize, x: FrameView) -> Option<
    ErrorView,
> {
    if columns.len() == 0 {
        Some(ErrorView::plain(Problem::NoColumnsGiven, "RollingAggregator"@))
    } else if size < 2 {
        Some(ErrorView::plain(Problem::InvalidWindow(size), "RollingAggregator"@))
    } else {
        error::first_fault(columns, missing_fault(x))
    }
}

/// An aggregate stands in every row that ends a complete window without
/// missing values, and nowhere else.
pub proof fn law_rolled_gaps(cells: Seq<Option<Term>>, size: nat, function: RollingFn, i: int)
    requires
        0 <= i < cells.len(),
        size >= 1,
    ensures
        rolled(cells, size, function).len() == cells.len(),
        rolled(cells, size, function)[i] is Some <==> i + 1 >= size && forall|k: int|
            i + 1 - size <= k <= i ==> (#[trigger] cells[k]) is Some,
{
}

/// The values of the rows of the window that ends with row `i`.
pub open spec fn window_values(cells: Seq<Option<Term>>, size: nat, i: int, c: Calculus) -> Seq<real> {
    Seq::new(size, |k: int| calculus::computed(cells[i + 1 - size + k]->0, c))
}

/// The squared distances of numbers from another.
pub open spec fn squared_distances(list: Seq<real>, from: real) -> Seq<real> {
    Seq::new(list.len(), |k: int| (list[k] - from) * (list[k] - from))
}

/// What an aggregate is of the rows of its window, in exact arithmetic: the sum
/// of the values; the mean, which times the number of rows is the sum; the least
/// or the greatest of the values; or the standard deviation, which is not
/// negative and whose square times the number of rows is the sum of the squared
/// distances of the values from their mean.
pub open spec fn aggregates(function: RollingFn, rows: Seq<real>, r: real) -> bool {
    let n = rows.len() as int as real;
    match function {
        RollingFn::Sum => r == reals::total(rows),
        RollingFn::Mean => r * n == reals::total(rows),
        RollingFn::Min => rows.contains(r) && forall|k: int|
            0 <= k < rows.len() ==> r <= #[trigger] rows[k],
        RollingFn::Max => rows.contains(r) && forall|k: int|
            0 <= k < rows.len() ==> r >= #[trigger] rows[k],
        RollingFn::Std => r >= 0real && exists|m: real|
            m * n == reals::total(rows) && r * r * n == #[trigger] reals::total(
                squared_distances(rows, m),
            ),
    }
}

/// The least and the greatest of a list are among it, and bound it.
proof fn lemma_extremes(list: Seq<Term>, c: Calculus)
    requires
        list.len() > 0,
        forall|k: int|
            0 <= k < list.len() ==> (c.value)(Double { bits: crate::double::NEGATIVE_INFINITE })
                <= calculus::computed(#[trigger] list[k], c) <= (c.value)(
                Double { bits: crate::double::INFINITE },
            ),
    ensures
        aggregates(
            RollingFn::Min,
            calculus::all_computed(list, c),
            calculus::computed(least(list), c),
        ),
        aggregates(
            RollingFn::Max,
            calculus::all_computed(list, c),
            calculus::computed(greatest(list), c),
        ),
    decreases list.len(),
{
    let n = list.len() - 1;
    let front = list.drop_last();
    let (rows, fewer) = (calculus::all_computed(list, c), calculus::all_computed(front, c));
    let (low, high) = (
        calculus::computed(least(list), c),
        calculus::computed(greatest(list), c),
    );
    assert(rows[n] == calculus::computed(list[n], c));
    if n > 0 {
        assert forall|k: int| 0 <= k < front.len() implies (c.value)(
            Double { bits: crate::double::NEGATIVE_INFINITE },
        ) <= calculus::computed(#[trigger] front[k], c) <= (c.value)(
            Double { bits: crate::double::INFINITE },
        ) by {
            assert(front[k] == list[k]);
        }
        lemma_extremes(front, c);
        let i = choose|i: int|
            0 <= i < fewer.len() && fewer[i] == calculus::computed(least(front), c);
        let j = choose|j: int|
            0 <= j < fewer.len() && fewer[j] == calculus::computed(greatest(front), c);
        assert(rows[i] == fewer[i] && rows[j] == fewer[j]);
        assert forall|k: int| 0 <= k < rows.len() implies low <= #[trigger] rows[k] && high
            >= rows[k] by {
            if k < n {
                assert(rows[k] == fewer[k]);
            }
        }
    } else {
        assert(front =~= Seq::empty());
        reveal_with_fuel(calculus::computed, 2);
        assert(low == rows[0] && high == rows[0]);
    }
}

/// The mean of a list times its number is its sum.
proof fn lemma_mean(list: Seq<Term>, c: Calculus)
    requires
        list.len() > 0,
    ensures
        calculus::computed(mean(list), c) * (list.len() as int as real) == reals::total(
            calculus::all_computed(list, c),
        ),
{
    reveal_with_fuel(calculus::computed, 2);
    calculus::law_sum(list, c);
    calculus::lemma_quotient(
        reals::total(calculus::all_computed(list, c)),
        list.len() as int as real,
    );
}

/// The standard deviation of a list.
proof fn lemma_deviation(list: Seq<Term>, c: Calculus)
    requires
        list.len() > 0,
        c.rooted(),
    ensures
        aggregates(
            RollingFn::Std,
            calculus::all_computed(list, c),
            calculus::computed(aggregated(RollingFn::Std, list), c),
        ),
{
    let rows = calculus::all_computed(list, c);
    let n = list.len() as int as real;
    let m = calculus::computed(mean(list), c);
    let parts = calculus::all_computed(deviations(list), c);
    let squares = squared_distances(rows, m);
    lemma_mean(list, c);
    lemma_mean(deviations(list), c);
    assert(parts =~= squares) by {
        reveal_with_fuel(calculus::computed, 3);
    }
    assert forall|k: int| 0 <= k < squares.len() implies #[trigger] squares[k] >= 0real by {
        let d = rows[k] - m;
        assert(d * d >= 0real) by (nonlinear_arith);
    }
    reals::lemma_not_negative(squares);
    let v = calculus::computed(mean(deviations(list)), c);
    let t = reals::total(squares);
    assert(v * n == t);
    assert(v >= 0real) by (nonlinear_arith)
        requires
            v * n == t,
            n > 0real,
            t >= 0real,
    ;
    let r = calculus::computed(aggregated(RollingFn::Std, list), c);
    assert(r == (c.root)(v));
    assert(r * r * n == t);
}

/// Every cell of a column of aggregates is the aggregate of the rows of its
/// window: its own row and those before it, as many as the window has. Infinity
/// and its negative are taken to bound the values.
pub proof fn law_aggregates(
    cells: Seq<Option<Term>>,
    size: nat,
    function: RollingFn,
    i: int,
    c: Calculus,
)
    requires
        0 <= i < cells.len(),
        size >= 1,
        rolled(cells, size, function)[i] is Some,
        c.rooted(),
        forall|k: int|
            0 <= k < cells.len() && (#[trigger] cells[k]) is Some ==> (c.value)(
                Double { bits: crate::double::NEGATIVE_INFINITE },
            ) <= calculus::computed(cells[k]->0, c) <= (c.value)(
                Double { bits: crate::double::INFINITE },
            ),
    ensures
        aggregates(
            function,
            window_values(cells, size, i, c),
            calculus::computed(rolled(cells, size, function)[i]->0, c),
        ),
{
    let w = window(cells, size, i)->0;
    let rows = window_values(cells, size, i, c);
    assert(calculus::all_computed(w, c) =~= rows);
    match function {
        RollingFn::Sum => {
            calculus::law_sum(w, c);
        },
        RollingFn::Mean => {
            lemma_mean(w, c);
        },
        RollingFn::Std => {
            lemma_deviation(w, c);
        },
        _ => {
            assert forall|k: int| 0 <= k < w.len() implies (c.value)(
                Double { bits: crate::double::NEGATIVE_INFINITE },
            ) <= calculus::computed(#[trigger] w[k], c) <= (c.value)(
                Double { bits: crate::double::INFINITE },
            ) by {
                assert(cells[i + 1 - size + k] is Some);
            }
            lemma_extremes(w, c);
        },
    }
}

/// Values that are all multiplied by a factor have a standard deviation that is
/// multiplied by it, and values that are all moved by the same amount have the
/// same one.
pub proof fn law_deviation_scales(
    rows: Seq<real>,
    others: Seq<real>,
    factor: real,
    shift: real,
    r: real,
    s: real,
)
    requires
        rows.len() > 0,
        others.len() == rows.len(),
        factor >= 0real,
        forall|k: int|
            0 <= k < rows.len() ==> #[trigger] others[k] == factor * rows[k] + shift,
        aggregates(RollingFn::Std, rows, r),
        aggregates(RollingFn::Std, others, s),
    ensures
        s == factor * r,
{
    let n = rows.len() as int as real;
    let m = choose|m: real|
        m * n == reals::total(rows) && r * r * n == #[trigger] reals::total(
            squared_distances(rows, m),
        );
    let o = choose|o: real|
        o * n == reals::total(others) && s * s * n == #[trigger] reals::total(
            squared_distances(others, o),
        );
    reals::lemma_moved(rows, others, factor, shift);
    let t = reals::total(rows);
    assert(o == factor * m + shift) by (nonlinear_arith)
        requires
            o * n == factor * t + shift * n,
            m * n == t,
            n > 0real,
    ;
    let (a, b) = (squared_distances(rows, m), squared_distances(others, o));
    assert forall|k: int| 0 <= k < a.len() implies #[trigger] b[k] == (factor * factor) * a[k]
        + 0real by {
        let (x, y) = (rows[k], others[k]);
        assert(y == factor * x + shift);
        assert((y - o) * (y - o) == (factor * factor) * ((x - m) * (x - m))) by (nonlinear_arith)
            requires
                y == factor * x + shift,
                o == factor * m + shift,
        ;
    }
    reals::lemma_moved(a, b, factor * factor, 0real);
    let v = reals::total(a);
    assert((s * s) == (factor * r) * (factor * r)) by (nonlinear_arith)
        requires
            s * s * n == (factor * factor) * v + 0real * n,
            r * r * n == v,
            n > 0real,
    ;
    assert(factor * r >= 0real) by (nonlinear_arith)
        requires
            factor >= 0real,
            r >= 0real,
    ;
    calculus::lemma_same_square(s, factor * r);
}

/// Appends the least or the greatest of a list of results.
fn append_extreme(
    list: &Vec<usize>,
    lesser: bool,
    program: &mut Program,
    wanted: Ghost<Seq<Term>>,
) -> (r: usize)
    requires
        program::stand_for(list@, wanted@, old(program)@),
    ensures
        program::extends(old(program)@, final(program)@),
        r < final(program)@.len(),
        final(program)@[r as int] == if lesser {
            least(wanted@)
        } else {
            greatest(wanted@)
        },
{
    let ghost start = program@;
    let first: Double = if lesser {
        Double { bits: crate::double::INFINITE }
    } else {
        Double { bits: crate::double::NEGATIVE_INFINITE }
    };
    let mut extreme: usize = program.append(Operation::Value(first));
    let mut k: usize = 0;
    assert(wanted@.take(0) =~= Seq::<Term>::empty());
    while k < list.len()
        invariant
            k <= list.len(),
            program::stand_for(list@, wanted@, start),
            program::extends(start, program@),
            extreme < program@.len(),
            program@[extreme as int] == if lesser {
                least(wanted@.take(k as int))
            } else {
                greatest(wanted@.take(k as int))
            },
        decreases list.len() - k,
    {
        assert(wanted@.take(k + 1).drop_last() =~= wanted@.take(k as int));
        assert(list@[k as int] < start.len());
        extreme = if lesser {
            program.append(Operation::Lesser(extreme, list[k]))
        } else {
            program.append(Operation::Greater(extreme, list[k]))
        };
        k += 1;
    }
    assert(wanted@.take(k as int) =~= wanted@);
    extreme
}

/// Appends the mean of a list of results.
fn append_mean(list: &Vec<usize>, program: &mut Program, wanted: Ghost<Seq<Term>>) -> (r: usize)
    requires
        list.len() > 0,
        program::stand_for(list@, wanted@, old(program)@),
    ensures
        program::extends(old(program)@, final(program)@),
        r < final(program)@.len(),
        final(program)@[r as int] == mean(wanted@),
{
    let total: usize = program::append_sum(list, program, wanted);
    let count: usize = program.append(Operation::Natural(list.len() as u64));
    program.append(Operation::Over(total, count))
}

/// Appends what is made of the rows of a window.
fn append_aggregate(
    function: RollingFn,
    list: &Vec<usize>,
    program: &mut Program,
    wanted: Ghost<Seq<Term>>,
) -> (r: usize)
    requires
        list.len() > 0,
        program::stand_for(list@, wanted@, old(program)@),
    ensures
        program::extends(old(program)@, final(program)@),
        r < final(program)@.len(),
        final(program)@[r as int] == aggregated(function, wanted@),
{
    match function {
        RollingFn::Mean => append_mean(list, program, wanted),
        RollingFn::Sum => program::append_sum(list, program, wanted),
        RollingFn::Min => append_extreme(list, true, program, wanted),
        RollingFn::Max => append_extreme(list, false, program, wanted),
        RollingFn::Std => {
            let ghost start = program@;
            let center: usize = append_mean(list, program, wanted);
            let ghost squares = deviations(wanted@);
            let mut parts: Vec<usize> = Vec::new();
            let mut k: usize = 0;
            while k < list.len()
                invariant
                    k <= list.len(),
                    program::stand_for(list@, wanted@, start),
                    program::extends(start, program@),
                    center < program@.len(),
                    program@[center as int] == mean(wanted@),
                    squares == deviations(wanted@),
                    parts.len() == k,
                    forall|m: int|
                        0 <= m < k ==> (#[trigger] parts@[m]) < program@.len()
                            && program@[parts@[m] as int] == squares[m],
                decreases list.len() - k,
            {
                assert(list@[k as int] < start.len());
                let distance: usize = program.append(Operation::Minus(list[k], center));
                let square: usize = program.append(Operation::Square(distance));
                assert(program@[square as int] == squares[k as int]);
                parts.push(square);
                k += 1;
            }
            let spread: usize = append_mean(&parts, program, Ghost(squares));
            program.append(Operation::Root(spread))
        },
    }
}

/// Aggregates rolling windows of columns.
pub struct RollingAggregator {
    fitted: bool,
    columns: Vec<Text>,
    window_size: usize,
    function: RollingFn,
}

impl RollingAggregator {
    #[verifier::type_invariant]
    spec fn well_formed(self) -> bool {
        self.fitted ==> self.window_size >= 2
    }

    /// The columns to aggregate.
    pub closed spec fn columns(self) -> Seq<Seq<char>> {
        text::views(self.columns@)
    }

    /// The number of rows of a window.
    pub closed spec fn size(self) -> usize {
        self.window_size
    }

    /// What is made of the rows of a window.
    pub closed spec fn function(self) -> RollingFn {
        self.function
    }

    /// Whether the aggregator has been fitted.
    pub closed spec fn fitted(self) -> bool {
        self.fitted
    }

    /// An aggregator of columns, over windows of `window_size` rows.
    pub fn new(columns: &[&str], window_size: usize, function: RollingFn) -> (r: RollingAggregator)
        ensures
            !r.fitted(),
            r.columns() == text::str_views(columns@),
            r.size() == window_size,
            r.function() == function,
    {
        RollingAggregator { fitted: false, columns: text::of_all(columns), window_size, function }
    }

    /// Checks that the columns can be aggregated. After a failure the
    /// aggregator is as it was.
    pub fn fit(&mut self, x: &Frame) -> (r: Result<(), Error>)
        ensures
            final(self).columns() == old(self).columns(),
            final(self).size() == old(self).size(),
            final(self).function() == old(self).function(),
            match rolling_fault(old(self).columns(), old(self).size(), x@) {
                Some(e) => r is Err && r->Err_0@ == e && final(self).fitted() == old(
                    self,
                ).fitted(),
                None => r is Ok && final(self).fitted(),
            },
    {
        proof {
            use_type_invariant(&*self);
        }
        if self.columns.len() == 0 {
            return Err(Error::plain(Problem::NoColumnsGiven, "RollingAggregator"));
        }
        if self.window_size < 2 {
            return Err(
                Error::plain(Problem::InvalidWindow(self.window_size), "RollingAggregator"),
            );
        }
        let ghost fault = missing_fault(x@);
        let ghost names = self.columns();
        proof {
            error::lemma_fault_ends(names, fault);
        }
        let mut i: usize = 0;
        while i < self.columns.len()
            invariant
                *self == *old(self),
                i <= self.columns.len(),
                names == self.columns(),
                fault == missing_fault(x@),
                error::first_fault(names.take(i as int), fault) is None,
                names.len() > 0,
                self.window_size >= 2,
            decreases self.columns.len() - i,
        {
            proof {
                error::lemma_fault_step(names, fault, i as int);
            }
            if x.find(&self.columns[i]).is_none() {
                return Err(
                    Error::about(Problem::ColumnNotFound, "RollingAggregator", &self.columns[i]),
                );
            }
            i += 1;
        }
        assert(names.take(i as int) =~= names);
        self.fitted = true;
        Ok(())
    }

    /// The aggregates of the windows of a column, in order.
    fn rolling_series(&self, list: &Vec<Option<Number>>, program: &mut Program) -> (r: Vec<
        Option<Number>,
    >)
        requires
            self.size() >= 2,
            draft::all_settled(list@, old(program)@.len()),
        ensures
            program::extends(old(program)@, final(program)@),
            frame::terms_of(r@, final(program)@) == rolled(
                frame::terms_of(list@, old(program)@),
                self.size() as nat,
                self.function(),
            ),
            draft::all_settled(r@, final(program)@.len()),
    {
        let ghost before = program@;
        let ghost cells = frame::terms_of(list@, before);
        let w: usize = self.window_size;
        let at: Vec<Option<usize>> = draft::load_all(list, program);
        let ghost wanted = rolled(cells, w as nat, self.function);
        let mut r: Vec<Option<Number>> = Vec::new();
        let mut row: usize = 0;
        while row < at.len()
            invariant
                row <= at.len(),
                w == self.window_size,
                w >= 2,
                before == old(program)@,
                program::extends(before, program@),
                draft::loaded(at@, cells, program@),
                wanted == rolled(cells, w as nat, self.function),
                r.len() == row,
                draft::all_settled(r@, program@.len()),
                forall|k: int|
                    0 <= k < row ==> frame::optional_term(#[trigger] r@[k], program@) == wanted[k],
            decreases at.len() - row,
        {
            let ghost held = program@;
            let next: Option<Number> = if row < w - 1 {
                None
            } else {
                self.aggregate_window(&at, row, program, Ghost(cells))
            };
            proof {
                draft::lemma_loaded(at@, cells, held, program@);
                assert forall|k: int| 0 <= k < row implies frame::settled(
                    #[trigger] r@[k],
                    program@.len(),
                ) && frame::optional_term(r@[k], program@) == wanted[k] by {
                    assert(frame::settled(r@[k], held.len()));
                    assert(frame::optional_term(r@[k], held) == wanted[k]);
                }
            }
            r.push(next);
            row += 1;
        }
        assert(frame::terms_of(r@, program@) =~= wanted);
        r
    }

    /// The aggregate of the window that ends with a row.
    fn aggregate_window(
        &self,
        at: &Vec<Option<usize>>,
        row: usize,
        program: &mut Program,
        cells: Ghost<Seq<Option<Term>>>,
    ) -> (r: Option<Number>)
        requires
            self.size() >= 2,
            self.size() - 1 <= row < at.len(),
            draft::loaded(at@, cells@, old(program)@),
        ensures
            program::extends(old(program)@, final(program)@),
            frame::settled(r, final(program)@.len()),
            frame::optional_term(r, final(program)@) == rolled(
                cells@,
                self.size() as nat,
                self.function(),
            )[row as int],
    {
        let w: usize = self.window_size;
        let start: usize = row - (w - 1);
        let ghost rows = Seq::new(w as nat, |m: int| cells@[start + m]->0);
        let ghost terms = program@;
        let mut members: Vec<usize> = Vec::new();
        let mut k: usize = 0;
        while k < w
            invariant
                k <= w,
                w == self.size(),
                start + w == row + 1,
                row < at.len(),
                terms == program@,
                terms == old(program)@,
                draft::loaded(at@, cells@, terms),
                rows == Seq::new(w as nat, |m: int| cells@[start + m]->0),
                members.len() == k,
                forall|m: int|
                    0 <= m < k ==> (#[trigger] members@[m]) < terms.len() && cells@[start
                        + m] is Some && terms[members@[m] as int] == rows[m],
            decreases w - k,
        {
            assert(match at@[start + k] {
                Some(p) => p < terms.len() && cells@[start + k] == Some(terms[p as int]),
                None => cells@[start + k] is None,
            });
            match at[start + k] {
                Some(p) => {
                    members.push(p);
                },
                None => {
                    assert(cells@[start + k] is None);
                    return None;
                },
            }
            k += 1;
        }
        assert forall|j: int| start <= j <= row implies (#[trigger] cells@[j]) is Some by {
            assert(members@[j - start] < terms.len());
        }
        assert(window(cells@, w as nat, row as int) == Some(rows));
        assert(program::stand_for(members@, rows, terms));
        let value: usize = append_aggregate(self.function, &members, program, Ghost(rows));
        Some(Number::Register(value))
    }

    /// Adds a column of aggregates for each column.
    pub fn transform(&self, x: &Frame) -> (r: Result<Sheet, Error>)
        ensures
            frame::outcome(r) == rolling_outcome(
                self.fitted(),
                x@,
                self.columns(),
                self.size() as nat,
                self.function(),
            ),
    {
        proof {
            use_type_invariant(self);
        }
        if !self.fitted {
            return Err(Error::plain(Problem::NotFitted, "RollingAggregator"));
        }
        let ghost names = self.columns();
        let ghost width = x@.columns.len();
        let ghost first = frame::kept_columns(x@);
        let ghost step = rolled_step(x@, self.window_size as nat, self.function);
        let mut draft: Draft = Draft::new(x);
        let mut program: Program = Program::new();
        let mut i: usize = 0;
        assert(names.take(0) =~= Seq::<Seq<char>>::empty());
        while i < self.columns.len()
            invariant
                i <= self.columns.len(),
                names == self.columns(),
                width == x@.columns.len(),
                step == rolled_step(x@, self.window_size as nat, self.function),
                first == frame::kept_columns(x@),
                self.fitted,
                self.window_size >= 2,
                draft.over(width, program@.len()),
                draft::steps(first, names.take(i as int), step) == Ok::<
                    Seq<SheetColumnView>,
                    ErrorView,
                >(draft.columns(program@)),
            decreases self.columns.len() - i,
        {
            let ghost held = program@;
            let column: &Text = &self.columns[i];
            proof {
                draft::lemma_step(first, names, step, i as int);
            }
            let at: usize = match draft.find(column, Ghost(held)) {
                Some(at) => at,
                None => {
                    return Err(Error::about(Problem::ColumnNotFound, "RollingAggregator", column));
                },
            };
            let list: Vec<Option<Number>> = match draft.numbers(x, at, Ghost(held)) {
                Some(list) => list,
                None => {
                    let dtype: Text = draft.dtype(x, at, Ghost(held));
                    return Err(
                        Error::detailed(
                            Problem::ExpectedFloat64,
                            "RollingAggregator",
                            column,
                            dtype,
                        ),
                    );
                },
            };
            let cells: Vec<Option<Number>> = self.rolling_series(&list, &mut program);
            proof {
                draft.lemma_extended(width, held, program@);
            }
            let mut name: Text = column.duplicate();
            name.push_str("_");
            name.push_str(self.function.label());
            name.push_str("_");
            name.push_decimal(self.window_size as u64);
            draft.lay(name, cells, Ghost(width), Ghost(program@));
            i += 1;
        }
        assert(names.take(i as int) =~= names);
        Ok(draft.finish(x.height(), program))
    }
}

} // verus!
