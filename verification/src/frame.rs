//! Tables.
//!
//! A [`Frame`] is what a transformer reads: named columns of equal length. A
//! [`Sheet`] is what a transformer makes of it: columns that are taken over
//! unchanged, columns of whole numbers, and columns of real numbers. Real
//! numbers that have to be computed stand in the sheet's
//! [`Program`](crate::program::Program).

use crate::double::Double;
use crate::doubles;
use crate::error::Error;
use crate::error::ErrorView;
use crate::error::Problem;
use crate::program;
use crate::program::Program;
use crate::program::Term;
use crate::text;
use crate::text::Text;
use vstd::prelude::*;

verus! {

/// The most rows that a frame can have.
pub const MOST_ROWS: usize = 0xffff_fffe;

/// The resolution of a datetime column.
#[derive(Clone, Copy, Debug, PartialEq, Eq, Structural)]
pub enum Resolution {
    Nanoseconds,
    Microseconds,
    Milliseconds,
}

/// The cells of a column; `None` is a missing value.
#[derive(Clone, Debug, PartialEq, Eq)]
pub enum Values {
    /// Texts.
    Text(Vec<Option<Text>>),
    /// Double-precision numbers.
    Float64(Vec<Option<Double>>),
    /// Days since 1970-01-01.
    Date(Vec<Option<i32>>),
    /// Time since 1970-01-01, in units of the resolution.
    Datetime(Resolution, Vec<Option<i64>>),
    /// Cells that no transformer computes with: the name of their type, and
    /// their number.
    Other(Text, usize),
}

/// The view of [`Values`].
#[verifier::ext_equal]
pub enum ValuesView {
    Text(Seq<Option<Seq<char>>>),
    Float64(Seq<Option<Double>>),
    Date(Seq<Option<i32>>),
    Datetime(Resolution, Seq<Option<i64>>),
    Other(Seq<char>, nat),
}

/// The views of a list of texts with gaps.
pub open spec fn gap_views(cells: Seq<Option<Text>>) -> Seq<Option<Seq<char>>> {
    Seq::new(
        cells.len(),
        |i: int|
            match cells[i] {
                Some(t) => Some(t@),
                None => None,
            },
    )
}

/// The cells that are not missing, in order.
pub open spec fn present<T>(cells: Seq<Option<T>>) -> Seq<T>
    decreases cells.len(),
{
    if cells.len() == 0 {
        Seq::empty()
    } else {
        let front = present(cells.drop_last());
        match cells.last() {
            Some(v) => front.push(v),
            None => front,
        }
    }
}

/// There are no more present cells than cells, and each is one of the cells.
pub proof fn lemma_present<T>(cells: Seq<Option<T>>)
    ensures
        present(cells).len() <= cells.len(),
        forall|v: T| #[trigger] present(cells).contains(v) <==> cells.contains(Some(v)),
    decreases cells.len(),
{
    if cells.len() > 0 {
        let front = cells.drop_last();
        lemma_present(front);
        assert forall|v: T| #[trigger] present(cells).contains(v) <==> cells.contains(Some(v)) by {
            if present(cells).contains(v) {
                let k = choose|k: int| 0 <= k < present(cells).len() && present(cells)[k] == v;
                if k < present(front).len() {
                    assert(present(front)[k] == v);
                    assert(present(front).contains(v));
                    let j = choose|j: int| 0 <= j < front.len() && front[j] == Some(v);
                    assert(cells[j] == Some(v));
                } else {
                    assert(cells[cells.len() - 1] == Some(v));
                }
            }
            if cells.contains(Some(v)) {
                let j = choose|j: int| 0 <= j < cells.len() && cells[j] == Some(v);
                if j < front.len() {
                    assert(front[j] == Some(v));
                    assert(present(front).contains(v));
                    let k = choose|k: int| 0 <= k < present(front).len() && present(front)[k] == v;
                    assert(present(cells)[k] == v);
                } else {
                    assert(present(cells)[present(cells).len() - 1] == v);
                }
            }
        }
    }
}

/// Cells that are all present.
pub open spec fn all_present<T>(values: Seq<T>) -> Seq<Option<T>> {
    Seq::new(values.len(), |k: int| Some(values[k]))
}

/// What is present of cells that are all present.
pub proof fn lemma_all_present<T>(values: Seq<T>)
    ensures
        present(all_present(values)) == values,
    decreases values.len(),
{
    if values.len() > 0 {
        lemma_all_present(values.drop_last());
        assert(all_present(values).drop_last() =~= all_present(values.drop_last()));
        assert(values.drop_last().push(values.last()) =~= values);
    } else {
        assert(present(all_present(values)) =~= values);
    }
}

/// What stands in `list` beside the cells that are not missing.
pub open spec fn beside<T, U>(cells: Seq<Option<U>>, list: Seq<T>) -> Seq<T>
    decreases cells.len(),
{
    if cells.len() == 0 {
        Seq::empty()
    } else {
        let front = beside(cells.drop_last(), list);
        if cells.last() is Some {
            front.push(list[cells.len() - 1])
        } else {
            front
        }
    }
}

/// What stands beside the first cells is in the first rows.
pub proof fn lemma_beside<T, U>(cells: Seq<Option<U>>, list: Seq<T>, other: Seq<T>)
    requires
        forall|i: int| 0 <= i < cells.len() ==> #[trigger] list[i] == other[i],
    ensures
        beside(cells, list) == beside(cells, other),
    decreases cells.len(),
{
    if cells.len() > 0 {
        lemma_beside(cells.drop_last(), list, other);
        assert(list[cells.len() - 1] == other[cells.len() - 1]);
    }
}

/// There are as many cells that are not missing as things beside them.
pub proof fn lemma_beside_len<T, U>(cells: Seq<Option<U>>, list: Seq<T>)
    ensures
        beside(cells, list).len() == present(cells).len(),
    decreases cells.len(),
{
    if cells.len() > 0 {
        lemma_beside_len(cells.drop_last(), list);
    }
}

impl ValuesView {
    /// The number of cells.
    pub open spec fn len(self) -> nat {
        match self {
            ValuesView::Text(c) => c.len(),
            ValuesView::Float64(c) => c.len(),
            ValuesView::Date(c) => c.len(),
            ValuesView::Datetime(_, c) => c.len(),
            ValuesView::Other(_, n) => n,
        }
    }

    /// The cells in another order.
    pub open spec fn arranged(self, p: Seq<int>) -> ValuesView {
        match self {
            ValuesView::Text(c) => ValuesView::Text(doubles::arranged(c, p)),
            ValuesView::Float64(c) => ValuesView::Float64(doubles::arranged(c, p)),
            ValuesView::Date(c) => ValuesView::Date(doubles::arranged(c, p)),
            ValuesView::Datetime(r, c) => ValuesView::Datetime(r, doubles::arranged(c, p)),
            ValuesView::Other(name, _) => ValuesView::Other(name, p.len()),
        }
    }

    /// The cells in the rows in which `mask` has a value.
    pub open spec fn beside<T>(self, mask: Seq<Option<T>>) -> ValuesView {
        match self {
            ValuesView::Text(c) => ValuesView::Text(beside(mask, c)),
            ValuesView::Float64(c) => ValuesView::Float64(beside(mask, c)),
            ValuesView::Date(c) => ValuesView::Date(beside(mask, c)),
            ValuesView::Datetime(r, c) => ValuesView::Datetime(r, beside(mask, c)),
            ValuesView::Other(name, _) => ValuesView::Other(name, present(mask).len()),
        }
    }

    /// The name of the type of the cells.
    pub open spec fn dtype(self) -> Seq<char> {
        match self {
            ValuesView::Text(_) => "str"@,
            ValuesView::Float64(_) => "f64"@,
            ValuesView::Date(_) => "date"@,
            ValuesView::Datetime(Resolution::Nanoseconds, _) => "datetime[ns]"@,
            ValuesView::Datetime(Resolution::Microseconds, _) => "datetime[μs]"@,
            ValuesView::Datetime(Resolution::Milliseconds, _) => "datetime[ms]"@,
            ValuesView::Other(name, _) => name,
        }
    }
}

impl View for Values {
    type V = ValuesView;

    open spec fn view(&self) -> ValuesView {
        match self {
            Values::Text(c) => ValuesView::Text(gap_views(c@)),
            Values::Float64(c) => ValuesView::Float64(c@),
            Values::Date(c) => ValuesView::Date(c@),
            Values::Datetime(r, c) => ValuesView::Datetime(*r, c@),
            Values::Other(name, n) => ValuesView::Other(name@, *n as nat),
        }
    }
}

impl Values {
    /// The number of cells.
    pub fn len(&self) -> (r: usize)
        ensures
            r == self@.len(),
    {
        match self {
            Values::Text(c) => c.len(),
            Values::Float64(c) => c.len(),
            Values::Date(c) => c.len(),
            Values::Datetime(_, c) => c.len(),
            Values::Other(_, n) => *n,
        }
    }

    /// The name of the type of the cells.
    pub fn dtype(&self) -> (r: Text)
        ensures
            r@ == self@.dtype(),
    {
        match self {
            Values::Text(_) => Text::of("str"),
            Values::Float64(_) => Text::of("f64"),
            Values::Date(_) => Text::of("date"),
            Values::Datetime(Resolution::Nanoseconds, _) => Text::of("datetime[ns]"),
            Values::Datetime(Resolution::Microseconds, _) => Text::of("datetime[μs]"),
            Values::Datetime(Resolution::Milliseconds, _) => Text::of("datetime[ms]"),
            Values::Other(name, _) => name.duplicate(),
        }
    }
}

/// A named column.
#[derive(Clone, Debug, PartialEq, Eq)]
pub struct Column {
    pub name: Text,
    pub values: Values,
}

/// The view of a [`Column`].
#[verifier::ext_equal]
pub struct ColumnView {
    pub name: Seq<char>,
    pub values: ValuesView,
}

impl View for Column {
    type V = ColumnView;

    open spec fn view(&self) -> ColumnView {
        ColumnView { name: self.name@, values: self.values@ }
    }
}

impl Column {
    /// A column with the given name and cells.
    pub fn new(name: &str, values: Values) -> (r: Column)
        ensures
            r@ == (ColumnView { name: name@, values: values@ }),
    {
        Column { name: Text::of(name), values }
    }
}

/// The views of a list of columns.
pub open spec fn column_views(columns: Seq<Column>) -> Seq<ColumnView> {
    Seq::new(columns.len(), |i: int| columns[i]@)
}

/// The view of a [`Frame`].
#[verifier::ext_equal]
pub struct FrameView {
    pub height: nat,
    pub columns: Seq<ColumnView>,
}

impl FrameView {
    /// What holds of every frame: its columns have its height and names of
    /// their own.
    pub open spec fn valid(self) -> bool {
        &&& self.height <= MOST_ROWS
        &&& forall|i: int|
            0 <= i < self.columns.len() ==> (#[trigger] self.columns[i]).values.len() == self.height
        &&& forall|i: int, j: int|
            0 <= i < j < self.columns.len() ==> (#[trigger] self.columns[i]).name != (
            #[trigger] self.columns[j]).name
    }

    /// The rows in another order.
    pub open spec fn arranged(self, p: Seq<int>) -> FrameView {
        FrameView {
            height: self.height,
            columns: Seq::new(
                self.columns.len(),
                |i: int|
                    ColumnView {
                        name: self.columns[i].name,
                        values: self.columns[i].values.arranged(p),
                    },
            ),
        }
    }

    /// The rows in which `mask` has a value.
    pub open spec fn beside<T>(self, mask: Seq<Option<T>>) -> FrameView {
        FrameView {
            height: present(mask).len(),
            columns: Seq::new(
                self.columns.len(),
                |i: int|
                    ColumnView {
                        name: self.columns[i].name,
                        values: self.columns[i].values.beside(mask),
                    },
            ),
        }
    }

    /// The names of the columns, in order.
    pub open spec fn names(self) -> Seq<Seq<char>> {
        Seq::new(self.columns.len(), |i: int| self.columns[i].name)
    }

    /// Where the frame holds a column of the given name.
    pub open spec fn find(self, name: Seq<char>) -> Option<int> {
        if exists|i: int| self.holds(name, i) {
            Some(choose|i: int| self.holds(name, i))
        } else {
            None
        }
    }

    /// Whether column `i` has the given name.
    pub open spec fn holds(self, name: Seq<char>, i: int) -> bool {
        0 <= i < self.columns.len() && self.columns[i].name == name
    }
}

/// A table: named columns of equal length.
pub struct Frame {
    height: usize,
    columns: Vec<Column>,
}

impl View for Frame {
    type V = FrameView;

    closed spec fn view(&self) -> FrameView {
        FrameView { height: self.height as nat, columns: column_views(self.columns@) }
    }
}

/// Why columns do not make a frame: the first column, in order, whose length
/// is not the height or whose name an earlier column has.
pub open spec fn frame_fault(height: nat, columns: Seq<ColumnView>) -> Option<ErrorView>
    decreases columns.len(),
{
    if columns.len() == 0 {
        if height > MOST_ROWS {
            Some(ErrorView::plain(Problem::TooManyRows, "Frame"@))
        } else {
            None
        }
    } else {
        let front = columns.drop_last();
        let last = columns.last();
        match frame_fault(height, front) {
            Some(e) => Some(e),
            None => if last.values.len() != height {
                Some(ErrorView::about(Problem::UnequalLengths, "Frame"@, last.name))
            } else if (FrameView { height, columns: front }).names().contains(last.name) {
                Some(ErrorView::about(Problem::DuplicateName, "Frame"@, last.name))
            } else {
                None
            },
        }
    }
}

/// A prefix of columns that has a fault makes the whole have it.
proof fn lemma_frame_fault_stays(height: nat, columns: Seq<ColumnView>, n: int)
    requires
        0 <= n <= columns.len(),
        frame_fault(height, columns.take(n)) is Some,
    ensures
        frame_fault(height, columns) == frame_fault(height, columns.take(n)),
    decreases columns.len() - n,
{
    if n == columns.len() {
        assert(columns.take(n) =~= columns);
    } else {
        assert(columns.take(n + 1).drop_last() =~= columns.take(n));
        lemma_frame_fault_stays(height, columns, n + 1);
    }
}

impl Frame {
    #[verifier::type_invariant]
    spec fn well_formed(self) -> bool {
        self@.valid()
    }

    /// A frame of the given height and columns.
    pub fn new(height: usize, columns: Vec<Column>) -> (r: Result<Frame, Error>)
        ensures
            match frame_fault(height as nat, column_views(columns@)) {
                Some(e) => r is Err && r->Err_0@ == e,
                None => r is Ok && r->Ok_0@ == (FrameView {
                    height: height as nat,
                    columns: column_views(columns@),
                }) && r->Ok_0@.valid(),
            },
    {
        let ghost all = column_views(columns@);
        assert(all.take(0) =~= Seq::<ColumnView>::empty());
        if height > MOST_ROWS {
            proof {
                lemma_frame_fault_stays(height as nat, all, 0);
            }
            return Err(Error::plain(Problem::TooManyRows, "Frame"));
        }
        let mut i: usize = 0;
        while i < columns.len()
            invariant
                i <= columns.len(),
                height <= MOST_ROWS,
                all == column_views(columns@),
                frame_fault(height as nat, all.take(i as int)) is None,
                (FrameView { height: height as nat, columns: all.take(i as int) }).valid(),
            decreases columns.len() - i,
        {
            let ghost front = all.take(i as int);
            let ghost next = all.take(i + 1);
            assert(next.drop_last() =~= front);
            assert(next.last() == columns@[i as int]@);
            if columns[i].values.len() != height {
                proof {
                    lemma_frame_fault_stays(height as nat, all, i + 1);
                }
                return Err(Error::about(Problem::UnequalLengths, "Frame", &columns[i].name));
            }
            let mut j: usize = 0;
            while j < i
                invariant
                    j <= i < columns.len(),
                    all == column_views(columns@),
                    front == all.take(i as int),
                    next == all.take(i + 1),
                    next.drop_last() == front,
                    next.last() == columns@[i as int]@,
                    next.last().values.len() == height,
                    frame_fault(height as nat, front) is None,
                    forall|k: int| 0 <= k < j ==> (#[trigger] all[k]).name != columns@[i as int].name@,
                decreases i - j,
            {
                if columns[j].name.same(&columns[i].name) {
                    proof {
                        let names = (FrameView { height: height as nat, columns: front }).names();
                        assert(front[j as int] == all[j as int]);
                        assert(names[j as int] == columns@[i as int].name@);
                        lemma_frame_fault_stays(height as nat, all, i + 1);
                    }
                    return Err(Error::about(Problem::DuplicateName, "Frame", &columns[i].name));
                }
                assert(all[j as int] == columns@[j as int]@);
                j += 1;
            }
            proof {
                let names = (FrameView { height: height as nat, columns: front }).names();
                assert forall|k: int| 0 <= k < names.len() implies names[k]
                    != columns@[i as int].name@ by {
                    assert(front[k] == all[k]);
                }
                assert(!names.contains(next.last().name));
                let f = FrameView { height: height as nat, columns: next };
                assert(f.valid()) by {
                    assert(forall|k: int| 0 <= k < i ==> next[k] == front[k]);
                    assert(forall|k: int| 0 <= k < i ==> front[k] == all[k]);
                }
            }
            i += 1;
        }
        assert(all.take(i as int) =~= all);
        Ok(Frame { height, columns })
    }

    /// The number of rows.
    pub fn height(&self) -> (r: usize)
        ensures
            r == self@.height,
            self@.valid(),
    {
        proof {
            use_type_invariant(self);
        }
        self.height
    }

    /// The number of columns.
    pub fn width(&self) -> (r: usize)
        ensures
            r == self@.columns.len(),
            self@.valid(),
    {
        proof {
            use_type_invariant(self);
        }
        self.columns.len()
    }

    /// Column `i`.
    pub fn column(&self, i: usize) -> (r: &Column)
        requires
            i < self@.columns.len(),
        ensures
            r@ == self@.columns[i as int],
            self@.valid(),
    {
        proof {
            use_type_invariant(self);
        }
        &self.columns[i]
    }

    /// Where the frame holds a column of the given name.
    pub fn find(&self, name: &Text) -> (r: Option<usize>)
        ensures
            match r {
                Some(i) => self@.find(name@) == Some(i as int) && self@.holds(name@, i as int),
                None => self@.find(name@) is None && !self@.names().contains(name@),
            },
            self@.valid(),
    {
        proof {
            use_type_invariant(self);
        }
        let mut i: usize = 0;
        while i < self.columns.len()
            invariant
                i <= self.columns.len(),
                self@.valid(),
                forall|k: int| 0 <= k < i ==> !self@.holds(name@, k),
            decreases self.columns.len() - i,
        {
            if self.columns[i].name.same(name) {
                assert(self@.holds(name@, i as int));
                proof {
                    lemma_find(self@, name@, i as int);
                }
                return Some(i);
            }
            i += 1;
        }
        assert forall|k: int| 0 <= k < self@.names().len() implies self@.names()[k] != name@ by {
            assert(!self@.holds(name@, k));
        }
        None
    }

    /// The names of the columns, in order.
    pub fn names(&self) -> (r: Vec<Text>)
        ensures
            text::views(r@) == self@.names(),
            self@.valid(),
    {
        proof {
            use_type_invariant(self);
        }
        let mut r: Vec<Text> = Vec::new();
        let mut i: usize = 0;
        while i < self.columns.len()
            invariant
                i <= self.columns.len(),
                r.len() == i,
                forall|k: int| 0 <= k < i ==> r@[k]@ == (#[trigger] self.columns@[k]).name@,
            decreases self.columns.len() - i,
        {
            let name: Text = self.columns[i].name.duplicate();
            r.push(name);
            i += 1;
        }
        assert(text::views(r@) =~= self@.names());
        r
    }
}

/// A frame holds at most one column of a name.
pub proof fn lemma_find(f: FrameView, name: Seq<char>, i: int)
    requires
        f.valid(),
        f.holds(name, i),
    ensures
        f.find(name) == Some(i),
{
    let j = choose|j: int| f.holds(name, j);
    if j < i {
        assert(f.columns[j].name != f.columns[i].name);
    } else if i < j {
        assert(f.columns[i].name != f.columns[j].name);
    }
}

/// A real number: given, or a count, or computed by a program.
#[derive(Clone, Copy, Debug, PartialEq, Eq, Structural)]
pub enum Number {
    /// A given number.
    Known(Double),
    /// A count, converted to the nearest double.
    Natural(u64),
    /// The result of the operation at a position of the sheet's program.
    Register(usize),
}

/// The term that a real number stands for.
pub open spec fn term_of(number: Number, terms: Seq<Term>) -> Term {
    match number {
        Number::Known(d) => Term::Value(d),
        Number::Natural(n) => Term::Natural(n as nat),
        Number::Register(i) => terms[i as int],
    }
}

/// Whether a real number refers only to positions before `limit`.
pub open spec fn settled(number: Option<Number>, limit: nat) -> bool {
    match number {
        Some(Number::Register(i)) => i < limit,
        _ => true,
    }
}

/// The term of a real number that may be missing.
pub open spec fn optional_term(number: Option<Number>, terms: Seq<Term>) -> Option<Term> {
    match number {
        Some(n) => Some(term_of(n, terms)),
        None => None,
    }
}

/// The terms of a list of real numbers with gaps.
pub open spec fn terms_of(numbers: Seq<Option<Number>>, terms: Seq<Term>) -> Seq<Option<Term>> {
    Seq::new(numbers.len(), |i: int| optional_term(numbers[i], terms))
}

/// The cells of a column of a sheet.
#[derive(Clone, Debug, PartialEq, Eq)]
pub enum Cells {
    /// The cells of a column of the input frame, unchanged.
    Kept(usize),
    /// Whole numbers.
    UInt32(Vec<Option<u32>>),
    /// Real numbers.
    Float64(Vec<Option<Number>>),
}

/// The view of [`Cells`].
#[verifier::ext_equal]
pub enum CellsView {
    Kept(int),
    UInt32(Seq<Option<u32>>),
    Float64(Seq<Option<Term>>),
}

/// A named column of a sheet.
#[derive(Clone, Debug, PartialEq, Eq)]
pub struct SheetColumn {
    pub name: Text,
    pub cells: Cells,
}

/// The view of a [`SheetColumn`].
#[verifier::ext_equal]
pub struct SheetColumnView {
    pub name: Seq<char>,
    pub cells: CellsView,
}

/// The view of a column whose program has the given terms.
pub open spec fn sheet_column(column: SheetColumn, terms: Seq<Term>) -> SheetColumnView {
    SheetColumnView {
        name: column.name@,
        cells: match column.cells {
            Cells::Kept(i) => CellsView::Kept(i as int),
            Cells::UInt32(c) => CellsView::UInt32(c@),
            Cells::Float64(c) => CellsView::Float64(terms_of(c@, terms)),
        },
    }
}

/// Whether a column refers only to positions before `limit`.
pub open spec fn column_settled(column: SheetColumn, limit: nat) -> bool {
    match column.cells {
        Cells::Float64(c) => forall|i: int| 0 <= i < c.len() ==> settled(#[trigger] c@[i], limit),
        _ => true,
    }
}

/// A longer program changes nothing of a column that refers to its beginning.
pub proof fn lemma_column_settled(column: SheetColumn, before: Seq<Term>, after: Seq<Term>)
    requires
        column_settled(column, before.len()),
        program::extends(before, after),
    ensures
        column_settled(column, after.len()),
        sheet_column(column, after) == sheet_column(column, before),
{
    match column.cells {
        Cells::Float64(c) => {
            assert forall|i: int| 0 <= i < c.len() implies settled(#[trigger] c@[i], after.len()) by {
                assert(settled(c@[i], before.len()));
            }
            assert(terms_of(c@, after) =~= terms_of(c@, before)) by {
                assert forall|i: int| 0 <= i < c.len() implies optional_term(c@[i], after)
                    == optional_term(c@[i], before) by {
                    assert(settled(c@[i], before.len()));
                }
            }
        },
        _ => {},
    }
}

/// The table that a transformer makes.
pub struct Sheet {
    pub height: usize,
    pub columns: Vec<SheetColumn>,
    pub program: Program,
}

/// The view of a [`Sheet`].
#[verifier::ext_equal]
pub struct SheetView {
    pub height: nat,
    pub columns: Seq<SheetColumnView>,
}

/// The views of the columns of a sheet.
pub open spec fn sheet_columns(columns: Seq<SheetColumn>, terms: Seq<Term>) -> Seq<
    SheetColumnView,
> {
    Seq::new(columns.len(), |i: int| sheet_column(columns[i], terms))
}

impl View for Sheet {
    type V = SheetView;

    open spec fn view(&self) -> SheetView {
        SheetView {
            height: self.height as nat,
            columns: sheet_columns(self.columns@, self.program@),
        }
    }
}

/// The names of the columns of a sheet.
pub open spec fn sheet_names(columns: Seq<SheetColumnView>) -> Seq<Seq<char>> {
    Seq::new(columns.len(), |i: int| columns[i].name)
}

/// The columns of a frame, all kept.
pub open spec fn kept_columns(x: FrameView) -> Seq<SheetColumnView> {
    Seq::new(
        x.columns.len(),
        |i: int| SheetColumnView { name: x.columns[i].name, cells: CellsView::Kept(i) },
    )
}

/// The columns of a frame, all kept.
pub fn keep_all(x: &Frame) -> (r: Vec<SheetColumn>)
    ensures
        forall|terms: Seq<Term>| #[trigger] sheet_columns(r@, terms) == kept_columns(x@),
        forall|i: int, n: nat| 0 <= i < r.len() ==> #[trigger] column_settled(r@[i], n),
        r.len() == x@.columns.len(),
        x@.valid(),
{
    let n: usize = x.width();
    let mut r: Vec<SheetColumn> = Vec::new();
    let mut i: usize = 0;
    while i < n
        invariant
            i <= n,
            n == x@.columns.len(),
            r.len() == i,
            forall|k: int|
                0 <= k < i ==> (#[trigger] r@[k]).name@ == x@.columns[k].name && r@[k].cells
                    == Cells::Kept(k as usize),
        decreases n - i,
    {
        let name: Text = x.column(i).name.duplicate();
        r.push(SheetColumn { name, cells: Cells::Kept(i) });
        i += 1;
    }
    assert forall|terms: Seq<Term>| #[trigger] sheet_columns(r@, terms) == kept_columns(x@) by {
        let a = sheet_columns(r@, terms);
        let b = kept_columns(x@);
        assert forall|k: int| 0 <= k < b.len() implies a[k] == b[k] by {
            assert(r@[k].cells == Cells::Kept(k as usize));
        }
        assert(a =~= b);
    }
    r
}

/// What a call returned, by views.
pub open spec fn outcome(r: Result<Sheet, Error>) -> Result<SheetView, ErrorView> {
    match r {
        Ok(s) => Ok(s@),
        Err(e) => Err(e@),
    }
}

/// What a call without a value returned, by views.
pub open spec fn done(r: Result<(), Error>) -> Result<(), ErrorView> {
    match r {
        Ok(u) => Ok(u),
        Err(e) => Err(e@),
    }
}

} // verus!
