//! Pairwise interactions.
//!
//! [`InteractionFeatures`] adds the products of pairs of columns of numbers.

use crate::double::Double;
use crate::draft;
use crate::draft::Draft;
use crate::error;
use crate::error::Error;
use crate::error::ErrorView;
use crate::error::Problem;
use crate::frame;
use crate::frame::CellsView;
use crate::frame::Frame;
use crate::frame::FrameView;
use crate::frame::Number;
use crate::frame::Sheet;
use crate::frame::SheetColumnView;
use crate::frame::SheetView;
use crate::preprocessing::encoder;
use crate::program;
use crate::program::Program;
use crate::text;
use crate::text::Text;
use crate::util;
use vstd::prelude::*;

verus! {

/// The pairs whose first column is column `i`, of `n` columns.
pub open spec fn pairs_with(n: nat, squares: bool, i: int) -> Seq<(int, int)> {
    let start = if squares {
        i
    } else {
        i + 1
    };
    Seq::new((n - start) as nat, |k: int| (i, start + k))
}

/// The pairs whose first column is one of the first `m`, of `n` columns.
pub open spec fn pairs(n: nat, squares: bool, m: nat) -> Seq<(int, int)>
    decreases m,
{
    if m == 0 {
        Seq::empty()
    } else {
        pairs(n, squares, (m - 1) as nat) + pairs_with(n, squares, m - 1)
    }
}

/// The pairs of columns, each with the names of its columns.
pub open spec fn named_pairs(columns: Seq<Seq<char>>, squares: bool) -> Seq<
    (Seq<char>, Seq<char>),
> {
    let all = pairs(columns.len(), squares, columns.len());
    Seq::new(all.len(), |k: int| (columns[all[k].0], columns[all[k].1]))
}

/// The name of the product of two columns.
pub open spec fn product_name(pair: (Seq<char>, Seq<char>)) -> Seq<char> {
    pair.0 + "_x_"@ + pair.1
}

/// The names of the products.
pub open spec fn product_names(pairs: Seq<(Seq<char>, Seq<char>)>) -> Seq<Seq<char>> {
    Seq::new(pairs.len(), |k: int| product_name(pairs[k]))
}

/// The columns after one more product was laid.
pub open spec fn product_step(x: FrameView) -> spec_fn(
    Seq<SheetColumnView>,
    (Seq<char>, Seq<char>),
) -> Result<Seq<SheetColumnView>, ErrorView> {
    |made: Seq<SheetColumnView>, pair: (Seq<char>, Seq<char>)|
        match (draft::place(made, pair.0), draft::place(made, pair.1)) {
            (None, _) => Err(
                ErrorView::about(Problem::ColumnNotFound, "InteractionFeatures"@, pair.0),
            ),
            (_, None) => Err(
                ErrorView::about(Problem::ColumnNotFound, "InteractionFeatures"@, pair.1),
            ),
            (Some(i), Some(j)) => match (
                draft::cell_numbers(x, made[i].cells),
                draft::cell_numbers(x, made[j].cells),
            ) {
                (None, _) => Err(
                    ErrorView::about(Problem::ExpectedNumbers, "InteractionFeatures"@, pair.0),
                ),
                (_, None) => Err(
                    ErrorView::about(Problem::ExpectedNumbers, "InteractionFeatures"@, pair.1),
                ),
                (Some(a), Some(b)) => Ok(
                    draft::laid(
                        made,
                        SheetColumnView {
                            name: product_name(pair),
                            cells: CellsView::Float64(util::products(a, b)),
                        },
                    ),
                ),
            },
        }
}

/// What a transformer makes of a frame.
pub open spec fn interaction_outcome(
    fitted: bool,
    columns: Seq<Seq<char>>,
    squares: bool,
    x: FrameView,
) -> Result<SheetView, ErrorView> {
    let list = named_pairs(columns, squares);
    if !fitted {
        Err(ErrorView::plain(Problem::NotFitted, "InteractionFeatures"@))
    } else {
        match encoder::collision(x.names(), product_names(list)) {
            Some(name) => Err(
                ErrorView::about(Problem::NameTaken, "InteractionFeatures"@, name),
            ),
            None => match draft::steps(frame::kept_columns(x), list, product_step(x)) {
                Err(e) => Err(e),
                Ok(made) => Ok(SheetView { height: x.height, columns: made }),
            },
        }
    }
}

/// Why a column cannot be used.
pub open spec fn column_fault(x: FrameView) -> spec_fn(Seq<char>) -> Option<ErrorView> {
    |name: Seq<char>| util::number_fault("InteractionFeatures"@, x, name)
}

/// Why a transformer cannot be fitted.
pub open spec fn interaction_fault(columns: Seq<Seq<char>>, x: FrameView) -> Option<ErrorView> {
    if x.height == 0 || x.columns.len() == 0 {
        Some(ErrorView::plain(Problem::EmptyFrame, "InteractionFeatures"@))
    } else if columns.len() == 0 {
        util::float_fault("InteractionFeatures"@, x)
    } else {
        error::first_fault(columns, column_fault(x))
    }
}

/// The columns that are multiplied after a fit: those given, or all columns of
/// numbers.
pub open spec fn settled_columns(columns: Seq<Seq<char>>, x: FrameView) -> Seq<Seq<char>> {
    if columns.len() == 0 {
        util::float_names(x.columns)
    } else {
        columns
    }
}

/// The columns of the frame come first and unchanged, and the products follow
/// in the order of the pairs.
pub proof fn law_products_appended(columns: Seq<Seq<char>>, squares: bool, x: FrameView)
    requires
        interaction_outcome(true, columns, squares, x) is Ok,
    ensures
        ({
            let made = interaction_outcome(true, columns, squares, x)->Ok_0.columns;
            let kept = frame::kept_columns(x);
            let names = product_names(named_pairs(columns, squares));
            &&& made.len() == kept.len() + names.len()
            &&& made.take(kept.len() as int) == kept
            &&& frame::sheet_names(made.skip(kept.len() as int)) == names
        }),
{
    let list = named_pairs(columns, squares);
    let names = product_names(list);
    let kept = frame::kept_columns(x);
    let step = product_step(x);
    encoder::law_collision_free(x.names(), names);
    assert(frame::sheet_names(kept) =~= x.names());
    assert forall|k: int| 0 <= k < list.len() implies draft::lays(
        step,
        #[trigger] list[k],
        names[k],
    ) by {
        assert forall|made: Seq<SheetColumnView>| #[trigger] step(made, list[k]) is Ok implies exists|
            c: SheetColumnView,
        |
            c.name == names[k] && step(made, list[k])->Ok_0 == #[trigger] draft::laid(made, c) by {
            let a = draft::cell_numbers(x, made[draft::place(made, list[k].0)->0].cells)->0;
            let b = draft::cell_numbers(x, made[draft::place(made, list[k].1)->0].cells)->0;
            let c = SheetColumnView {
                name: product_name(list[k]),
                cells: CellsView::Float64(util::products(a, b)),
            };
            assert(step(made, list[k])->Ok_0 == draft::laid(made, c));
        }
    }
    draft::lemma_steps_append(kept, list, step, names);
}

/// Adds the products of pairs of columns.
pub struct InteractionFeatures {
    fitted: bool,
    columns: Vec<Text>,
    include_self_products: bool,
}

/// Settings of an [`InteractionFeatures`].
pub struct InteractionFeaturesBuilder {
    columns: Option<Vec<Text>>,
    include_self_products: bool,
}

impl InteractionFeaturesBuilder {
    /// The columns to multiply, where they are given.
    pub closed spec fn selected(self) -> Option<Seq<Seq<char>>> {
        match self.columns {
            Some(list) => Some(text::views(list@)),
            None => None,
        }
    }

    /// Whether columns are multiplied with themselves.
    pub closed spec fn squares(self) -> bool {
        self.include_self_products
    }

    /// Gives the columns to multiply.
    pub fn columns(self, cols: &[&str]) -> (r: InteractionFeaturesBuilder)
        ensures
            r.selected() == Some(text::str_views(cols@)),
            r.squares() == self.squares(),
    {
        InteractionFeaturesBuilder {
            columns: Some(text::of_all(cols)),
            include_self_products: self.include_self_products,
        }
    }

    /// Sets whether columns are multiplied with themselves.
    pub fn include_self_products(self, value: bool) -> (r: InteractionFeaturesBuilder)
        ensures
            r.selected() == self.selected(),
            r.squares() == value,
    {
        InteractionFeaturesBuilder { columns: self.columns, include_self_products: value }
    }

    /// The transformer with these settings.
    pub fn build(self) -> (r: InteractionFeatures)
        ensures
            !r.fitted(),
            r.columns() == match self.selected() {
                Some(list) => list,
                None => Seq::empty(),
            },
            r.squares() == self.squares(),
    {
        let columns: Vec<Text> = match self.columns {
            Some(list) => list,
            None => Vec::new(),
        };
        assert(self.columns is None ==> text::views(columns@) =~= Seq::empty());
        InteractionFeatures {
            fitted: false,
            columns,
            include_self_products: self.include_self_products,
        }
    }
}

impl Default for InteractionFeaturesBuilder {
    fn default() -> (r: InteractionFeaturesBuilder)
        ensures
            r.selected() is None,
            !r.squares(),
    {
        InteractionFeaturesBuilder { columns: None, include_self_products: false }
    }
}

impl InteractionFeatures {
    /// Whether the transformer has been fitted.
    pub closed spec fn fitted(self) -> bool {
        self.fitted
    }

    /// The columns to multiply; none before they are given or found.
    pub closed spec fn columns(self) -> Seq<Seq<char>> {
        text::views(self.columns@)
    }

    /// Whether columns are multiplied with themselves.
    pub closed spec fn squares(self) -> bool {
        self.include_self_products
    }

    /// A transformer of all columns of numbers.
    pub fn new() -> (r: InteractionFeatures)
        ensures
            !r.fitted(),
            r.columns() == Seq::<Seq<char>>::empty(),
            !r.squares(),
    {
        let columns: Vec<Text> = Vec::new();
        assert(text::views(columns@) =~= Seq::empty());
        InteractionFeatures { fitted: false, columns, include_self_products: false }
    }

    /// The settings of a transformer of all columns of numbers.
    pub fn builder() -> (r: InteractionFeaturesBuilder)
        ensures
            r.selected() is None,
            !r.squares(),
    {
        InteractionFeaturesBuilder::default()
    }

    /// The columns to multiply; none before they are given or found.
    pub fn selected_columns(&self) -> (r: &Vec<Text>)
        ensures
            text::views(r@) == self.columns(),
    {
        &self.columns
    }

    /// Whether columns are multiplied with themselves.
    pub fn self_products(&self) -> (r: bool)
        ensures
            r == self.squares(),
    {
        self.include_self_products
    }

    /// Whether the transformer has been fitted.
    pub fn is_fitted(&self) -> (r: bool)
        ensures
            r == self.fitted(),
    {
        self.fitted
    }

    /// Finds the columns of numbers, or checks those given. After a failure
    /// the transformer is as it was.
    pub fn fit(&mut self, x: &Frame) -> (r: Result<(), Error>)
        ensures
            final(self).squares() == old(self).squares(),
            match interaction_fault(old(self).columns(), x@) {
                Some(e) => {
                    &&& r is Err
                    &&& r->Err_0@ == e
                    &&& final(self).fitted() == old(self).fitted()
                    &&& final(self).columns() == old(self).columns()
                },
                None => {
                    &&& r is Ok
                    &&& final(self).fitted()
                    &&& final(self).columns() == settled_columns(old(self).columns(), x@)
                },
            },
    {
        if x.height() == 0 || x.width() == 0 {
            return Err(Error::plain(Problem::EmptyFrame, "InteractionFeatures"));
        }
        assert(self.columns().len() == self.columns.len());
        if self.columns.len() == 0 {
            match util::require_f64_columns(x, "InteractionFeatures") {
                Ok(found) => {
                    self.columns = found;
                },
                Err(e) => {
                    return Err(e);
                },
            }
        } else {
            let ghost names = self.columns();
            let ghost fault = column_fault(x@);
            proof {
                error::lemma_fault_ends(names, fault);
            }
            let mut i: usize = 0;
            while i < self.columns.len()
                invariant
                    *self == *old(self),
                    i <= self.columns.len(),
                    names == self.columns(),
                    names.len() > 0,
                    x@.height > 0,
                    x@.columns.len() > 0,
                    fault == column_fault(x@),
                    error::first_fault(names.take(i as int), fault) is None,
                decreases self.columns.len() - i,
            {
                proof {
                    error::lemma_fault_step(names, fault, i as int);
                }
                match util::find_f64_column(x, &self.columns[i], "InteractionFeatures") {
                    Ok(_) => {},
                    Err(e) => {
                        return Err(e);
                    },
                }
                i += 1;
            }
            assert(names.take(i as int) =~= names);
        }
        self.fitted = true;
        Ok(())
    }

    /// The pairs of columns, by their positions.
    fn pairs(&self) -> (r: Vec<(usize, usize)>)
        ensures
            r.len() == pairs(self.columns().len(), self.squares(), self.columns().len()).len(),
            forall|k: int|
                0 <= k < r.len() ==> {
                    let all = pairs(self.columns().len(), self.squares(), self.columns().len());
                    &&& (#[trigger] r@[k]).0 == all[k].0
                    &&& r@[k].1 == all[k].1
                    &&& r@[k].0 < self.columns().len()
                    &&& r@[k].1 < self.columns().len()
                },
    {
        let n: usize = self.columns.len();
        let squares: bool = self.include_self_products;
        let mut r: Vec<(usize, usize)> = Vec::new();
        let mut i: usize = 0;
        while i < n
            invariant
                i <= n,
                r.len() == pairs(n as nat, squares, i as nat).len(),
                forall|k: int|
                    0 <= k < r.len() ==> (#[trigger] r@[k]).0 == pairs(
                        n as nat,
                        squares,
                        i as nat,
                    )[k].0 && r@[k].1 == pairs(n as nat, squares, i as nat)[k].1 && r@[k].0 < n
                        && r@[k].1 < n,
            decreases n - i,
        {
            let ghost begun = pairs(n as nat, squares, i as nat);
            let ghost row = pairs_with(n as nat, squares, i as int);
            let ghost all = begun + row;
            assert(pairs(n as nat, squares, (i + 1) as nat) == all);
            let start: usize = if squares {
                i
            } else {
                i + 1
            };
            let mut j: usize = start;
            while j < n
                invariant
                    start <= j <= n,
                    i < n,
                    start == if squares {
                        i as int
                    } else {
                        i + 1
                    },
                    row == pairs_with(n as nat, squares, i as int),
                    all == begun + row,
                    r.len() == begun.len() + (j - start),
                    forall|k: int|
                        0 <= k < r.len() ==> (#[trigger] r@[k]).0 == all[k].0 && r@[k].1
                            == all[k].1 && r@[k].0 < n && r@[k].1 < n,
                decreases n - j,
            {
                assert(row[j - start] == (i as int, j as int));
                assert(all[begun.len() + (j - start)] == row[j - start]);
                r.push((i, j));
                j += 1;
            }
            i += 1;
        }
        r
    }

    /// Adds the product of each pair of columns.
    pub fn transform(&self, x: &Frame) -> (r: Result<Sheet, Error>)
        ensures
            frame::outcome(r) == interaction_outcome(
                self.fitted(),
                self.columns(),
                self.squares(),
                x@,
            ),
    {
        if !self.fitted {
            return Err(Error::plain(Problem::NotFitted, "InteractionFeatures"));
        }
        let ghost columns = self.columns();
        let ghost list = named_pairs(columns, self.include_self_products);
        let ghost wanted = product_names(list);
        let all: Vec<(usize, usize)> = self.pairs();
        let mut names: Vec<Text> = Vec::new();
        let mut k: usize = 0;
        while k < all.len()
            invariant
                k <= all.len(),
                columns == self.columns(),
                list == named_pairs(columns, self.include_self_products),
                wanted == product_names(list),
                all.len() == list.len(),
                forall|m: int|
                    0 <= m < all.len() ==> (#[trigger] all@[m]).0 < columns.len() && all@[m].1
                        < columns.len() && list[m] == (
                        columns[all@[m].0 as int],
                        columns[all@[m].1 as int],
                    ),
                names.len() == k,
                forall|m: int| 0 <= m < k ==> (#[trigger] names@[m])@ == wanted[m],
            decreases all.len() - k,
        {
            let (i, j) = all[k];
            assert(all@[k as int] == (i, j));
            let name: Text = text::joined(&self.columns[i], "_x_", &self.columns[j]);
            assert(name@ == wanted[k as int]);
            names.push(name);
            k += 1;
        }
        assert(text::views(names@) =~= wanted);
        match encoder::find_collision(&x.names(), &names) {
            Some(at) => {
                return Err(Error::about(Problem::NameTaken, "InteractionFeatures", &names[at]));
            },
            None => {},
        }
        let ghost width = x@.columns.len();
        let ghost first = frame::kept_columns(x@);
        let ghost step = product_step(x@);
        let mut draft: Draft = Draft::new(x);
        let mut program: Program = Program::new();
        let mut p: usize = 0;
        proof {
            assert(list.take(0) =~= Seq::empty());
            assert forall|m: int| 0 <= m < first.len() implies full(
                x@,
                (#[trigger] first[m]).cells,
            ) by {
                assert(x@.columns[m].values.len() == x@.height);
            }
        }
        while p < all.len()
            invariant
                p <= all.len(),
                self.fitted,
                columns == self.columns(),
                list == named_pairs(columns, self.include_self_products),
                encoder::collision(x@.names(), product_names(list)) is None,
                all.len() == list.len(),
                forall|m: int|
                    0 <= m < all.len() ==> (#[trigger] all@[m]).0 < columns.len() && all@[m].1
                        < columns.len() && list[m] == (
                        columns[all@[m].0 as int],
                        columns[all@[m].1 as int],
                    ),
                width == x@.columns.len(),
                first == frame::kept_columns(x@),
                step == product_step(x@),
                draft.over(width, program@.len()),
                draft::steps(first, list.take(p as int), step) == Ok::<
                    Seq<SheetColumnView>,
                    ErrorView,
                >(draft.columns(program@)),
                forall|m: int|
                    0 <= m < draft.columns(program@).len() ==> full(
                        x@,
                        (#[trigger] draft.columns(program@)[m]).cells,
                    ),
            decreases all.len() - p,
        {
            let ghost held = program@;
            let ghost made = draft.columns(held);
            let (i, j) = all[p];
            assert(all@[p as int] == (i, j));
            let left: &Text = &self.columns[i];
            let right: &Text = &self.columns[j];
            proof {
                draft::lemma_step(first, list, step, p as int);
            }
            let at_left: usize = match draft.find(left, Ghost(held)) {
                Some(at) => at,
                None => {
                    return Err(Error::about(Problem::ColumnNotFound, "InteractionFeatures", left));
                },
            };
            let at_right: usize = match draft.find(right, Ghost(held)) {
                Some(at) => at,
                None => {
                    return Err(Error::about(Problem::ColumnNotFound, "InteractionFeatures", right));
                },
            };
            let a: Vec<Option<Number>> = match draft.numbers(x, at_left, Ghost(held)) {
                Some(cells) => cells,
                None => {
                    return Err(
                        Error::about(Problem::ExpectedNumbers, "InteractionFeatures", left),
                    );
                },
            };
            let b: Vec<Option<Number>> = match draft.numbers(x, at_right, Ghost(held)) {
                Some(cells) => cells,
                None => {
                    return Err(
                        Error::about(Problem::ExpectedNumbers, "InteractionFeatures", right),
                    );
                },
            };
            proof {
                assert(full(x@, made[at_left as int].cells));
                assert(full(x@, made[at_right as int].cells));
                assert(frame::terms_of(a@, held).len() == x@.height);
                assert(frame::terms_of(b@, held).len() == x@.height);
            }
            let cells: Vec<Option<Number>> = util::series_mul(&a, &b, &mut program);
            proof {
                draft.lemma_extended(width, held, program@);
            }
            let name: Text = text::joined(left, "_x_", right);
            draft.lay(name, cells, Ghost(width), Ghost(program@));
            proof {
                text::lemma_position(frame::sheet_names(made), name@);
                assert forall|m: int| 0 <= m < draft.columns(program@).len() implies full(
                    x@,
                    (#[trigger] draft.columns(program@)[m]).cells,
                ) by {
                    if m < made.len() {
                        assert(full(x@, made[m].cells));
                    }
                }
            }
            p += 1;
        }
        assert(list.take(p as int) =~= list);
        Ok(draft.finish(x.height(), program))
    }
}

/// Whether a column of numbers has the height of the frame.
spec fn full(x: FrameView, cells: CellsView) -> bool {
    match draft::cell_numbers(x, cells) {
        Some(list) => list.len() == x.height,
        None => true,
    }
}

impl Default for InteractionFeatures {
    fn default() -> (r: InteractionFeatures)
        ensures
            !r.fitted(),
            r.columns() == Seq::<Seq<char>>::empty(),
            !r.squares(),
    {
        InteractionFeatures::new()
    }
}

/// Whether two columns make a pair: the first stands before the second, or is the
/// same where squares are wanted.
pub open spec fn makes_pair(n: nat, squares: bool, pair: (int, int)) -> bool {
    &&& 0 <= pair.0
    &&& pair.1 < n
    &&& pair.0 < pair.1 || (squares && pair.0 == pair.1)
}

/// The pairs of columns are all that can be made of them, each once, in order of
/// the first column and then of the second.
pub proof fn law_pairs(n: nat, squares: bool)
    ensures
        ({
            let all = pairs(n, squares, n);
            &&& forall|pair: (int, int)|
                #[trigger] all.contains(pair) <==> makes_pair(n, squares, pair)
            &&& forall|j: int, k: int|
                0 <= j < k < all.len() ==> (#[trigger] all[j]).0 < (#[trigger] all[k]).0 || (
                all[j].0 == all[k].0 && all[j].1 < all[k].1)
        }),
{
    lemma_pairs(n, squares, n);
}

/// The pairs whose first column is one of the first `m`.
proof fn lemma_pairs(n: nat, squares: bool, m: nat)
    requires
        m <= n,
    ensures
        ({
            let all = pairs(n, squares, m);
            &&& forall|pair: (int, int)|
                #[trigger] all.contains(pair) <==> makes_pair(n, squares, pair) && pair.0 < m
            &&& forall|j: int, k: int|
                0 <= j < k < all.len() ==> (#[trigger] all[j]).0 < (#[trigger] all[k]).0 || (
                all[j].0 == all[k].0 && all[j].1 < all[k].1)
        }),
    decreases m,
{
    let all = pairs(n, squares, m);
    if m > 0 {
        lemma_pairs(n, squares, (m - 1) as nat);
        let front = pairs(n, squares, (m - 1) as nat);
        let rest = pairs_with(n, squares, m - 1);
        let start = if squares {
            m - 1
        } else {
            m as int
        };
        assert(all =~= front + rest);
        assert forall|pair: (int, int)|
            #[trigger] all.contains(pair) <==> makes_pair(n, squares, pair) && pair.0 < m by {
            if all.contains(pair) {
                let k = choose|k: int| 0 <= k < all.len() && all[k] == pair;
                if k < front.len() {
                    assert(front[k] == pair);
                    assert(front.contains(pair));
                } else {
                    assert(rest[k - front.len()] == pair);
                }
            }
            if makes_pair(n, squares, pair) && pair.0 < m {
                if pair.0 < m - 1 {
                    assert(front.contains(pair));
                    let k = choose|k: int| 0 <= k < front.len() && front[k] == pair;
                    assert(all[k] == pair);
                } else {
                    assert(rest[pair.1 - start] == pair);
                    assert(all[front.len() + (pair.1 - start)] == pair);
                }
            }
        }
        assert forall|j: int, k: int| 0 <= j < k < all.len() implies (#[trigger] all[j]).0 < (
        #[trigger] all[k]).0 || (all[j].0 == all[k].0 && all[j].1 < all[k].1) by {
            if j < front.len() {
                assert(front[j] == all[j]);
                assert(front.contains(front[j]));
                if k < front.len() {
                    assert(front[k] == all[k]);
                } else {
                    assert(rest[k - front.len()] == all[k]);
                }
            } else {
                assert(rest[j - front.len()] == all[j]);
                assert(rest[k - front.len()] == all[k]);
            }
        }
    }
}

/// The columns of products, one after the other.
proof fn lemma_products(x: FrameView, list: Seq<(Seq<char>, Seq<char>)>)
    requires
        draft::steps(frame::kept_columns(x), list, product_step(x)) is Ok,
        forall|k: int|
            0 <= k < list.len() ==> x.names().contains((#[trigger] list[k]).0) && x.names().contains(
                list[k].1,
            ),
        forall|k: int|
            0 <= k < list.len() ==> !x.names().contains(
                product_name(#[trigger] list[k]),
            ),
        forall|j: int, k: int|
            0 <= j < k < list.len() ==> product_name(#[trigger] list[j]) != product_name(
                #[trigger] list[k],
            ),
    ensures
        ({
            let made = draft::steps(frame::kept_columns(x), list, product_step(x))->Ok_0;
            let m = x.columns.len();
            &&& made.len() == m + list.len()
            &&& made.take(m as int) == frame::kept_columns(x)
            &&& forall|k: int|
                0 <= k < list.len() ==> #[trigger] made[m + k] == product_column(x, list[k])
        }),
    decreases list.len(),
{
    let kept = frame::kept_columns(x);
    let m = x.columns.len();
    let made = draft::steps(kept, list, product_step(x))->Ok_0;
    if list.len() > 0 {
        let front = list.drop_last();
        let pair = list.last();
        assert(pair == list[list.len() - 1]);
        assert forall|k: int| 0 <= k < front.len() implies x.names().contains(
            (#[trigger] front[k]).0,
        ) && x.names().contains(front[k].1) && !x.names().contains(product_name(front[k])) by {
            assert(front[k] == list[k]);
        }
        assert forall|j: int, k: int| 0 <= j < k < front.len() implies product_name(
            #[trigger] front[j],
        ) != product_name(#[trigger] front[k]) by {
            assert(front[j] == list[j] && front[k] == list[k]);
        }
        lemma_products(x, front);
        let before = draft::steps(kept, front, product_step(x))->Ok_0;
        let names = frame::sheet_names(before);
        assert(names.take(m as int) =~= x.names()) by {
            assert forall|i: int| 0 <= i < m implies names[i] == x.names()[i] by {
                assert(before.take(m as int)[i] == kept[i]);
            }
        }
        text::lemma_position(x.names(), pair.0);
        text::lemma_position(x.names(), pair.1);
        text::lemma_position_stays(names, pair.0, m as int);
        text::lemma_position_stays(names, pair.1, m as int);
        let i = text::position(x.names(), pair.0)->0;
        let j = text::position(x.names(), pair.1)->0;
        assert(before[i] == before.take(m as int)[i] && before[j] == before.take(m as int)[j]);
        assert(before[i] == kept[i] && before[j] == kept[j]);
        let name = product_name(pair);
        text::lemma_position(names, name);
        if names.contains(name) {
            let k = choose|k: int| 0 <= k < names.len() && names[k] == name;
            if k < m {
                assert(x.names()[k] == names.take(m as int)[k]);
                assert(x.names().contains(name));
            } else {
                assert(before[m + (k - m)] == product_column(x, front[k - m]));
                assert(front[k - m] == list[k - m]);
            }
        }
        assert(made == before.push(product_column(x, pair)));
        assert(made.take(m as int) =~= before.take(m as int));
        assert forall|k: int| 0 <= k < list.len() implies #[trigger] made[m + k] == product_column(
            x,
            list[k],
        ) by {
            if k < front.len() {
                assert(before[m + k] == product_column(x, front[k]));
            }
        }
    } else {
        assert(made.take(m as int) =~= kept);
    }
}

/// The column of products of two columns of a frame.
spec fn product_column(x: FrameView, pair: (Seq<char>, Seq<char>)) -> SheetColumnView {
    let i = text::position(x.names(), pair.0)->0;
    let j = text::position(x.names(), pair.1)->0;
    SheetColumnView {
        name: product_name(pair),
        cells: CellsView::Float64(
            util::products(
                draft::given(x.columns[i].values->Float64_0),
                draft::given(x.columns[j].values->Float64_0),
            ),
        ),
    }
}

/// The numbers of the column of a name.
pub open spec fn numbers_of(x: FrameView, name: Seq<char>) -> Seq<Option<Double>> {
    x.columns[x.find(name)->0].values->Float64_0
}

/// The column after those of the frame that is made for pair `k` holds, in each
/// row, the product of the numbers of the pair's columns, and is missing where one
/// of them is. In exact arithmetic.
pub proof fn law_products(
    columns: Seq<Seq<char>>,
    squares: bool,
    x: FrameView,
    k: int,
    row: int,
    value: spec_fn(Double) -> real,
)
    requires
        x.valid(),
        interaction_outcome(true, columns, squares, x) is Ok,
        forall|i: int|
            0 <= i < columns.len() ==> x.names().contains(#[trigger] columns[i]) && x.columns[x.find(
                columns[i],
            )->0].values is Float64,
        0 <= k < named_pairs(columns, squares).len(),
        0 <= row < x.height,
    ensures
        ({
            let made = interaction_outcome(true, columns, squares, x)->Ok_0.columns;
            let pair = named_pairs(columns, squares)[k];
            let (a, b) = (numbers_of(x, pair.0)[row], numbers_of(x, pair.1)[row]);
            &&& made[x.columns.len() + k].name == pair.0 + "_x_"@ + pair.1
            &&& made[x.columns.len() + k].cells matches CellsView::Float64(cells) && cells.len()
                == x.height && match (a, b) {
                (Some(u), Some(v)) => cells[row] matches Some(t) && program::exact(t, value)
                    == value(u) * value(v),
                _ => cells[row] is None,
            }
        }),
{
    let list = named_pairs(columns, squares);
    let all = pairs(columns.len(), squares, columns.len());
    let names = product_names(list);
    law_pairs(columns.len(), squares);
    encoder::law_collision_free(x.names(), names);
    assert forall|p: int| 0 <= p < list.len() implies x.names().contains((#[trigger] list[p]).0)
        && x.names().contains(list[p].1) && !x.names().contains(product_name(list[p])) by {
        assert(all.contains(all[p]));
        assert(makes_pair(columns.len(), squares, all[p]));
        assert(names[p] == product_name(list[p]));
        assert(x.names().contains(columns[all[p].0]) && x.names().contains(columns[all[p].1]));
    }
    assert forall|p: int, q: int| 0 <= p < q < list.len() implies product_name(#[trigger] list[p])
        != product_name(#[trigger] list[q]) by {
        assert(names[p] == product_name(list[p]) && names[q] == product_name(list[q]));
    }
    lemma_products(x, list);
    let pair = list[k];
    assert(all.contains(all[k]));
    assert(makes_pair(columns.len(), squares, all[k]));
    lemma_found(x, columns[all[k].0]);
    lemma_found(x, columns[all[k].1]);
    let made = interaction_outcome(true, columns, squares, x)->Ok_0.columns;
    assert(made[x.columns.len() + k] == product_column(x, pair));
    let (i, j) = (x.find(pair.0)->0, x.find(pair.1)->0);
    assert(x.names().contains(columns[all[k].0]) && x.names().contains(columns[all[k].1]));
    assert(x.columns[i].values is Float64 && x.columns[j].values is Float64);
    assert(x.columns[i].values.len() == x.height && x.columns[j].values.len() == x.height);
    reveal_with_fuel(program::exact, 2);
}

/// The place of a name among the names of a frame.
proof fn lemma_found(x: FrameView, name: Seq<char>)
    requires
        x.valid(),
        x.names().contains(name),
    ensures
        x.find(name) == text::position(x.names(), name),
        x.find(name) matches Some(i) && 0 <= i < x.columns.len() && x.columns[i].name == name,
{
    text::lemma_position(x.names(), name);
    let i = text::position(x.names(), name)->0;
    assert(x.holds(name, i));
    let j = x.find(name)->0;
    assert(x.holds(name, j));
    assert(x.names()[i] == x.names()[j]);
}

} // verus!
