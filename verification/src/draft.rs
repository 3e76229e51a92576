//! Sheets in the making.

use crate::double::Double;
use crate::error::ErrorView;
use crate::frame;
use crate::frame::Cells;
use crate::frame::CellsView;
use crate::frame::Frame;
use crate::frame::FrameView;
use crate::frame::Number;
use crate::frame::Sheet;
use crate::frame::SheetColumn;
use crate::frame::SheetColumnView;
use crate::frame::Values;
use crate::frame::ValuesView;
use crate::program;
use crate::program::Operation;
use crate::program::Program;
use crate::program::Term;
use crate::text;
use crate::text::Text;
use vstd::prelude::*;

verus! {

/// Given numbers as terms.
pub open spec fn given(cells: Seq<Option<Double>>) -> Seq<Option<Term>> {
    Seq::new(
        cells.len(),
        |i: int|
            match cells[i] {
                Some(d) => Some(Term::Value(d)),
                None => None,
            },
    )
}

/// The numbers of a column of a sheet over a frame, where it holds
/// double-precision numbers.
pub open spec fn cell_numbers(x: FrameView, cells: CellsView) -> Option<Seq<Option<Term>>> {
    match cells {
        CellsView::Kept(i) => match x.columns[i].values {
            ValuesView::Float64(c) => Some(given(c)),
            _ => None,
        },
        CellsView::UInt32(_) => None,
        CellsView::Float64(c) => Some(c),
    }
}

/// The name of the type of a column of a sheet over a frame.
pub open spec fn cell_type(x: FrameView, cells: CellsView) -> Seq<char> {
    match cells {
        CellsView::Kept(i) => x.columns[i].values.dtype(),
        CellsView::UInt32(_) => "u32"@,
        CellsView::Float64(_) => "f64"@,
    }
}

/// Where a list of columns holds one of a name.
pub open spec fn place(columns: Seq<SheetColumnView>, name: Seq<char>) -> Option<int> {
    text::position(frame::sheet_names(columns), name)
}

/// A list of columns with one more, which takes the place of a column of the
/// same name.
pub open spec fn laid(columns: Seq<SheetColumnView>, c: SheetColumnView) -> Seq<SheetColumnView> {
    match place(columns, c.name) {
        Some(i) => columns.update(i, c),
        None => columns.push(c),
    }
}

/// Laying a column keeps all others, and the column is found again.
pub proof fn law_laid(columns: Seq<SheetColumnView>, c: SheetColumnView)
    ensures
        place(laid(columns, c), c.name) is Some,
        laid(columns, c)[place(laid(columns, c), c.name)->0] == c,
        forall|i: int|
            0 <= i < columns.len() && columns[i].name != c.name ==> laid(columns, c)[i]
                == #[trigger] columns[i],
{
    let names = frame::sheet_names(columns);
    let after = laid(columns, c);
    let after_names = frame::sheet_names(after);
    text::lemma_position(names, c.name);
    text::lemma_position(after_names, c.name);
    match place(columns, c.name) {
        Some(i) => {
            assert(after_names[i] == c.name);
            assert(after_names =~= names);
        },
        None => {
            assert(after_names[columns.len() as int] == c.name);
            let k = place(after, c.name)->0;
            if k < columns.len() {
                assert(names[k] == c.name);
            }
        },
    }
}

/// Columns after a step for each of some items, up to the first failure.
pub open spec fn steps<T>(
    first: Seq<SheetColumnView>,
    items: Seq<T>,
    step: spec_fn(Seq<SheetColumnView>, T) -> Result<Seq<SheetColumnView>, ErrorView>,
) -> Result<Seq<SheetColumnView>, ErrorView>
    decreases items.len(),
{
    if items.len() == 0 {
        Ok(first)
    } else {
        match steps(first, items.drop_last(), step) {
            Err(e) => Err(e),
            Ok(made) => step(made, items.last()),
        }
    }
}

/// A failure on the first items is the failure on all.
proof fn lemma_steps_stop<T>(
    first: Seq<SheetColumnView>,
    items: Seq<T>,
    step: spec_fn(Seq<SheetColumnView>, T) -> Result<Seq<SheetColumnView>, ErrorView>,
    n: int,
)
    requires
        0 <= n <= items.len(),
        steps(first, items.take(n), step) is Err,
    ensures
        steps(first, items, step) == steps(first, items.take(n), step),
    decreases items.len() - n,
{
    if n == items.len() {
        assert(items.take(n) =~= items);
    } else {
        assert(items.take(n + 1).drop_last() =~= items.take(n));
        lemma_steps_stop(first, items, step, n + 1);
    }
}

/// Going one item further.
pub proof fn lemma_step<T>(
    first: Seq<SheetColumnView>,
    items: Seq<T>,
    step: spec_fn(Seq<SheetColumnView>, T) -> Result<Seq<SheetColumnView>, ErrorView>,
    n: int,
)
    requires
        0 <= n < items.len(),
        steps(first, items.take(n), step) is Ok,
    ensures
        steps(first, items.take(n + 1), step) == step(
            steps(first, items.take(n), step)->Ok_0,
            items[n],
        ),
        steps(first, items.take(n + 1), step) is Err ==> steps(first, items, step) == steps(
            first,
            items.take(n + 1),
            step,
        ),
{
    assert(items.take(n + 1).drop_last() =~= items.take(n));
    if steps(first, items.take(n + 1), step) is Err {
        lemma_steps_stop(first, items, step, n + 1);
    }
}

/// Whether a step for an item, where it succeeds, lays a column of a name.
pub open spec fn lays<T>(
    step: spec_fn(Seq<SheetColumnView>, T) -> Result<Seq<SheetColumnView>, ErrorView>,
    item: T,
    name: Seq<char>,
) -> bool {
    forall|made: Seq<SheetColumnView>|
        #[trigger] step(made, item) is Ok ==> exists|c: SheetColumnView|
            c.name == name && step(made, item)->Ok_0 == #[trigger] laid(made, c)
}

/// Steps that lay columns with names of their own keep the first columns, and
/// append theirs in order.
pub proof fn lemma_steps_append<T>(
    first: Seq<SheetColumnView>,
    items: Seq<T>,
    step: spec_fn(Seq<SheetColumnView>, T) -> Result<Seq<SheetColumnView>, ErrorView>,
    names: Seq<Seq<char>>,
)
    requires
        names.len() == items.len(),
        steps(first, items, step) is Ok,
        forall|k: int| 0 <= k < items.len() ==> lays(step, #[trigger] items[k], names[k]),
        forall|k: int|
            0 <= k < names.len() ==> !frame::sheet_names(first).contains(#[trigger] names[k]),
        forall|j: int, k: int|
            0 <= j < k < names.len() ==> #[trigger] names[j] != #[trigger] names[k],
    ensures
        steps(first, items, step)->Ok_0.len() == first.len() + names.len(),
        steps(first, items, step)->Ok_0.take(first.len() as int) == first,
        frame::sheet_names(steps(first, items, step)->Ok_0.skip(first.len() as int)) == names,
    decreases items.len(),
{
    let made = steps(first, items, step)->Ok_0;
    let m = first.len() as int;
    if items.len() == 0 {
        assert(made.take(m) =~= first);
        assert(frame::sheet_names(made.skip(m)) =~= names);
    } else {
        let n = items.len() - 1;
        let front = items.drop_last();
        let labels = names.drop_last();
        let before = steps(first, front, step)->Ok_0;
        assert(forall|k: int| 0 <= k < n ==> front[k] == items[k] && labels[k] == names[k]);
        assert forall|k: int| 0 <= k < front.len() implies lays(
            step,
            #[trigger] front[k],
            labels[k],
        ) by {
            assert(lays(step, items[k], names[k]));
        }
        lemma_steps_append(first, front, step, labels);
        assert(lays(step, items[n], names[n]));
        assert(step(before, items[n]) is Ok);
        let c = choose|c: SheetColumnView| c.name == names[n] && made == #[trigger] laid(before, c);
        let known = frame::sheet_names(before);
        text::lemma_position(known, c.name);
        if known.contains(c.name) {
            let k = choose|k: int| 0 <= k < known.len() && known[k] == c.name;
            if k < m {
                assert(before.take(m)[k] == first[k]);
                assert(frame::sheet_names(first)[k] == names[n]);
            } else {
                assert(frame::sheet_names(before.skip(m))[k - m] == names[n]);
                assert(names[k - m] == names[n]);
            }
        }
        assert(made == before.push(c));
        assert(made.take(m) =~= before.take(m));
        let labelled = frame::sheet_names(made.skip(m));
        assert forall|k: int| 0 <= k < names.len() implies labelled[k] == names[k] by {
            if k < n {
                assert(frame::sheet_names(before.skip(m))[k] == labels[k]);
            }
        }
        assert(labelled =~= names);
    }
}

/// The position of a number in a program.
pub(crate) fn load(n: Number, program: &mut Program) -> (r: usize)
    requires
        frame::settled(Some(n), old(program)@.len()),
    ensures
        program::extends(old(program)@, final(program)@),
        r < final(program)@.len(),
        final(program)@[r as int] == frame::term_of(n, old(program)@),
{
    match n {
        Number::Known(d) => program.append(Operation::Value(d)),
        Number::Natural(k) => program.append(Operation::Natural(k)),
        Number::Register(at) => at,
    }
}

/// Whether numbers with gaps stand at places of a program.
pub open spec fn loaded(at: Seq<Option<usize>>, cells: Seq<Option<Term>>, terms: Seq<Term>) -> bool {
    &&& at.len() == cells.len()
    &&& forall|k: int|
        0 <= k < at.len() ==> match #[trigger] at[k] {
            Some(p) => p < terms.len() && cells[k] == Some(terms[p as int]),
            None => cells[k] is None,
        }
}

/// A longer program changes nothing of numbers at its beginning.
pub proof fn lemma_loaded(
    at: Seq<Option<usize>>,
    cells: Seq<Option<Term>>,
    before: Seq<Term>,
    after: Seq<Term>,
)
    requires
        loaded(at, cells, before),
        program::extends(before, after),
    ensures
        loaded(at, cells, after),
{
    assert forall|k: int| 0 <= k < at.len() implies match #[trigger] at[k] {
        Some(p) => p < after.len() && cells[k] == Some(after[p as int]),
        None => cells[k] is None,
    } by {
        if at[k] is Some {
            assert(at[k]->0 < before.len());
        }
    }
}

/// Whether numbers with gaps refer only to positions before `limit`.
pub open spec fn all_settled(list: Seq<Option<Number>>, limit: nat) -> bool {
    forall|k: int| 0 <= k < list.len() ==> frame::settled(#[trigger] list[k], limit)
}

/// The positions of numbers with gaps in a program.
pub(crate) fn load_all(list: &Vec<Option<Number>>, program: &mut Program) -> (r: Vec<Option<usize>>)
    requires
        all_settled(list@, old(program)@.len()),
    ensures
        program::extends(old(program)@, final(program)@),
        loaded(r@, frame::terms_of(list@, old(program)@), final(program)@),
{
    let ghost before = program@;
    let ghost cells = frame::terms_of(list@, before);
    let mut at: Vec<Option<usize>> = Vec::new();
    let mut i: usize = 0;
    while i < list.len()
        invariant
            i <= list.len(),
            before == old(program)@,
            program::extends(before, program@),
            all_settled(list@, before.len()),
            cells == frame::terms_of(list@, before),
            at.len() == i,
            forall|k: int|
                0 <= k < i ==> match #[trigger] at@[k] {
                    Some(p) => p < program@.len() && cells[k] == Some(program@[p as int]),
                    None => cells[k] is None,
                },
        decreases list.len() - i,
    {
        let ghost held = program@;
        let next: Option<usize> = match list[i] {
            Some(n) => {
                assert(frame::settled(list@[i as int], before.len()));
                let p: usize = load(n, program);
                assert(frame::term_of(n, held) == frame::term_of(n, before));
                Some(p)
            },
            None => None,
        };
        at.push(next);
        i += 1;
    }
    at
}

/// A sheet in the making: columns of a frame, and columns made of them. Their
/// numbers stand in a program that is kept beside the draft.
pub struct Draft {
    columns: Vec<SheetColumn>,
}

impl Draft {
    /// What the draft holds so far.
    pub closed spec fn columns(self, terms: Seq<Term>) -> Seq<SheetColumnView> {
        frame::sheet_columns(self.columns@, terms)
    }

    /// What holds of every draft over a frame of the given width, beside a
    /// program of the given length.
    pub closed spec fn over(self, width: nat, limit: nat) -> bool {
        forall|i: int|
            0 <= i < self.columns.len() ==> {
                &&& frame::column_settled(#[trigger] self.columns@[i], limit)
                &&& self.columns@[i].cells matches Cells::Kept(k) ==> k < width
            }
    }

    /// A draft with all columns of a frame.
    pub fn new(x: &Frame) -> (r: Draft)
        ensures
            r.over(x@.columns.len(), 0),
            forall|terms: Seq<Term>| #[trigger] r.columns(terms) == frame::kept_columns(x@),
            x@.valid(),
    {
        let columns: Vec<SheetColumn> = frame::keep_all(x);
        let r: Draft = Draft { columns };
        proof {
            assert forall|terms: Seq<Term>| #[trigger] r.columns(terms) == frame::kept_columns(
                x@,
            ) by {
                assert(frame::sheet_columns(columns@, terms) == frame::kept_columns(x@));
            }
            let empty = Seq::<Term>::empty();
            assert forall|i: int| 0 <= i < r.columns.len() implies {
                &&& frame::column_settled(#[trigger] r.columns@[i], 0)
                &&& r.columns@[i].cells matches Cells::Kept(k) ==> k < x@.columns.len()
            } by {
                assert(r.columns(empty)[i] == frame::kept_columns(x@)[i]);
            }
        }
        r
    }

    /// A longer program changes nothing of the draft.
    pub proof fn lemma_extended(self, width: nat, before: Seq<Term>, after: Seq<Term>)
        requires
            self.over(width, before.len()),
            program::extends(before, after),
        ensures
            self.over(width, after.len()),
            self.columns(after) == self.columns(before),
    {
        assert forall|i: int| 0 <= i < self.columns.len() implies {
            &&& frame::column_settled(#[trigger] self.columns@[i], after.len())
            &&& self.columns@[i].cells matches Cells::Kept(k) ==> k < width
            &&& frame::sheet_column(self.columns@[i], after) == frame::sheet_column(
                self.columns@[i],
                before,
            )
        } by {
            frame::lemma_column_settled(self.columns@[i], before, after);
        }
        assert(self.columns(after) =~= self.columns(before));
    }

    /// Where the draft holds a column of a name.
    pub(crate) fn find(&self, name: &Text, terms: Ghost<Seq<Term>>) -> (r: Option<usize>)
        ensures
            match r {
                Some(i) => place(self.columns(terms@), name@) == Some(i as int) && i
                    < self.columns(terms@).len(),
                None => place(self.columns(terms@), name@) is None,
            },
    {
        let ghost names = frame::sheet_names(self.columns(terms@));
        let mut i: usize = 0;
        assert(names.take(0) =~= Seq::<Seq<char>>::empty());
        while i < self.columns.len()
            invariant
                i <= self.columns.len(),
                names == frame::sheet_names(self.columns(terms@)),
                text::position(names.take(i as int), name@) is None,
            decreases self.columns.len() - i,
        {
            assert(names.take(i + 1).drop_last() =~= names.take(i as int));
            assert(names[i as int] == self.columns@[i as int].name@);
            if self.columns[i].name.same(name) {
                proof {
                    text::lemma_position_stays(names, name@, i + 1);
                }
                return Some(i);
            }
            i += 1;
        }
        assert(names.take(i as int) =~= names);
        None
    }

    /// The numbers of a column, where it holds double-precision numbers.
    pub(crate) fn numbers(&self, x: &Frame, i: usize, terms: Ghost<Seq<Term>>) -> (r: Option<
        Vec<Option<Number>>,
    >)
        requires
            self.over(x@.columns.len(), terms@.len()),
            i < self.columns(terms@).len(),
        ensures
            match r {
                Some(list) => {
                    &&& cell_numbers(x@, self.columns(terms@)[i as int].cells) == Some(
                        frame::terms_of(list@, terms@),
                    )
                    &&& all_settled(list@, terms@.len())
                },
                None => cell_numbers(x@, self.columns(terms@)[i as int].cells) is None,
            },
    {
        let ghost c = self.columns@[i as int];
        assert(frame::column_settled(c, terms@.len()));
        assert(self.columns(terms@)[i as int] == frame::sheet_column(c, terms@));
        match &self.columns[i].cells {
            Cells::Kept(k) => match &x.column(*k).values {
                Values::Float64(cells) => {
                    let mut list: Vec<Option<Number>> = Vec::new();
                    let mut m: usize = 0;
                    while m < cells.len()
                        invariant
                            m <= cells.len(),
                            list.len() == m,
                            forall|j: int|
                                0 <= j < m ==> #[trigger] list@[j] == match cells@[j] {
                                    Some(d) => Some(Number::Known(d)),
                                    None => None,
                                },
                        decreases cells.len() - m,
                    {
                        let next: Option<Number> = match cells[m] {
                            Some(d) => Some(Number::Known(d)),
                            None => None,
                        };
                        list.push(next);
                        m += 1;
                    }
                    assert(frame::terms_of(list@, terms@) =~= given(cells@));
                    Some(list)
                },
                _ => None,
            },
            Cells::UInt32(_) => None,
            Cells::Float64(cells) => {
                let mut list: Vec<Option<Number>> = Vec::new();
                let mut m: usize = 0;
                while m < cells.len()
                    invariant
                        m <= cells.len(),
                        list.len() == m,
                        forall|j: int| 0 <= j < m ==> #[trigger] list@[j] == cells@[j],
                    decreases cells.len() - m,
                {
                    list.push(cells[m]);
                    m += 1;
                }
                assert(list@ =~= cells@);
                Some(list)
            },
        }
    }

    /// The name of the type of a column.
    pub(crate) fn dtype(&self, x: &Frame, i: usize, terms: Ghost<Seq<Term>>) -> (r: Text)
        requires
            self.over(x@.columns.len(), terms@.len()),
            i < self.columns(terms@).len(),
        ensures
            r@ == cell_type(x@, self.columns(terms@)[i as int].cells),
    {
        assert(frame::column_settled(self.columns@[i as int], terms@.len()));
        match &self.columns[i].cells {
            Cells::Kept(k) => x.column(*k).values.dtype(),
            Cells::UInt32(_) => Text::of("u32"),
            Cells::Float64(_) => Text::of("f64"),
        }
    }

    /// Lays a column of numbers into the draft.
    pub(crate) fn lay(
        &mut self,
        name: Text,
        cells: Vec<Option<Number>>,
        width: Ghost<nat>,
        terms: Ghost<Seq<Term>>,
    )
        requires
            old(self).over(width@, terms@.len()),
            all_settled(cells@, terms@.len()),
        ensures
            final(self).over(width@, terms@.len()),
            final(self).columns(terms@) == laid(
                old(self).columns(terms@),
                SheetColumnView {
                    name: name@,
                    cells: CellsView::Float64(frame::terms_of(cells@, terms@)),
                },
            ),
    {
        let ghost view = SheetColumnView {
            name: name@,
            cells: CellsView::Float64(frame::terms_of(cells@, terms@)),
        };
        let at: Option<usize> = self.find(&name, terms);
        let column: SheetColumn = SheetColumn { name, cells: Cells::Float64(cells) };
        assert(frame::sheet_column(column, terms@) == view);
        match at {
            Some(i) => {
                self.columns.set(i, column);
                assert(self.columns(terms@) =~= old(self).columns(terms@).update(i as int, view));
            },
            None => {
                self.columns.push(column);
                assert(self.columns(terms@) =~= old(self).columns(terms@).push(view));
            },
        }
        assert forall|i: int| 0 <= i < self.columns.len() implies {
            &&& frame::column_settled(#[trigger] self.columns@[i], terms@.len())
            &&& self.columns@[i].cells matches Cells::Kept(k) ==> k < width@
        } by {
            if i < old(self).columns.len() {
                assert(frame::column_settled(old(self).columns@[i], terms@.len()));
            }
        }
    }

    /// The finished sheet.
    pub fn finish(self, height: usize, program: Program) -> (r: Sheet)
        ensures
            r@.height == height,
            r@.columns == self.columns(program@),
    {
        Sheet { height, columns: self.columns, program }
    }
}

} // verus!
