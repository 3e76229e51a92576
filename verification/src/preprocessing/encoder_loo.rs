//! Leave-one-out target encoding.
//!
//! Every category is replaced by the mean of the target over the rows of that
//! category; for the rows that the encoder was fitted to, over the *other*
//! rows of the category, so that no row sees its own target.

use crate::calculus;
use crate::count;
use crate::double::Double;
use crate::error;
use crate::error::Error;
use crate::error::ErrorView;
use crate::error::Problem;
use crate::frame;
use crate::frame::Cells;
use crate::frame::CellsView;
use crate::frame::ColumnView;
use crate::frame::Frame;
use crate::frame::FrameView;
use crate::frame::Number;
use crate::frame::Sheet;
use crate::frame::SheetColumn;
use crate::frame::SheetColumnView;
use crate::frame::SheetView;
use crate::frame::Values;
use crate::frame::ValuesView;
use crate::preprocessing::encoder;
use crate::program;
use crate::program::Operation;
use crate::program::Program;
use crate::program::Term;
use crate::reals;
use crate::tally;
use crate::tally::Tally;
use crate::text;
use crate::text::Text;
use vstd::prelude::*;

verus! {

/// Whether a target can be used: present and finite.
pub open spec fn usable(y: Option<Double>) -> bool {
    y matches Some(v) && v.finite()
}

/// The targets that can be used, in order.
pub open spec fn usable_targets(ys: Seq<Option<Double>>) -> Seq<Double>
    decreases ys.len(),
{
    if ys.len() == 0 {
        Seq::empty()
    } else {
        let front = usable_targets(ys.drop_last());
        if usable(ys.last()) {
            front.push(ys.last()->0)
        } else {
            front
        }
    }
}

/// The categories and targets of the rows that have both, in order.
pub open spec fn usable_pairs(cells: Seq<Option<Seq<char>>>, ys: Seq<Option<Double>>) -> Seq<
    (Seq<char>, Double),
>
    decreases cells.len(),
{
    if cells.len() == 0 {
        Seq::empty()
    } else {
        let front = usable_pairs(cells.drop_last(), ys.drop_last());
        if cells.last() is Some && usable(ys.last()) {
            front.push((cells.last()->0, ys.last()->0))
        } else {
            front
        }
    }
}

/// The categories of a list of pairs.
pub open spec fn pair_categories(pairs: Seq<(Seq<char>, Double)>) -> Seq<Seq<char>> {
    Seq::new(pairs.len(), |i: int| pairs[i].0)
}

/// The targets of a category, in order.
pub open spec fn members(pairs: Seq<(Seq<char>, Double)>, category: Seq<char>) -> Seq<Double>
    decreases pairs.len(),
{
    if pairs.len() == 0 {
        Seq::empty()
    } else {
        let front = members(pairs.drop_last(), category);
        if pairs.last().0 == category {
            front.push(pairs.last().1)
        } else {
            front
        }
    }
}

/// The mean of a list, updated number by number, so that no sum is ever formed
/// that could overflow.
pub open spec fn running_mean(values: Seq<Double>) -> Term
    decreases values.len(),
{
    if values.len() == 0 {
        Term::Value(Double { bits: 0 })
    } else {
        let before = running_mean(values.drop_last());
        Term::Plus(
            Box::new(before),
            Box::new(
                Term::Over(
                    Box::new(
                        Term::Minus(Box::new(Term::Value(values.last())), Box::new(before)),
                    ),
                    Box::new(Term::Natural(values.len())),
                ),
            ),
        )
    }
}

/// The weight of a mean over `n` rows against the mean of all.
pub open spec fn weight(n: nat, alpha: Double) -> Term {
    Term::Over(
        Box::new(Term::Natural(n)),
        Box::new(Term::Plus(Box::new(Term::Natural(n)), Box::new(Term::Value(alpha)))),
    )
}

/// A mean over `n` rows, drawn towards the mean of all.
pub open spec fn blended(n: nat, alpha: Double, mean: Term, global: Term) -> Term {
    let w = weight(n, alpha);
    let rest = Term::Minus(
        Box::new(Term::Value(Double { bits: crate::double::ONE })),
        Box::new(w),
    );
    Term::Plus(
        Box::new(Term::Times(Box::new(w), Box::new(mean))),
        Box::new(Term::Times(Box::new(rest), Box::new(global))),
    )
}

/// The mean over all rows of a category, drawn towards the mean of all.
pub open spec fn full_mean(
    pairs: Seq<(Seq<char>, Double)>,
    category: Seq<char>,
    alpha: Double,
    global: Term,
) -> Term {
    let own = members(pairs, category);
    blended(own.len(), alpha, running_mean(own), global)
}

/// The mean without `v` of a category that has `left` rows besides.
pub open spec fn mean_without(mean: Term, v: Double, left: nat) -> Term {
    Term::Plus(
        Box::new(mean),
        Box::new(
            Term::Over(
                Box::new(Term::Minus(Box::new(mean), Box::new(Term::Value(v)))),
                Box::new(Term::Natural(left)),
            ),
        ),
    )
}

/// How many rows of a category are left without a row with target `y`.
pub open spec fn left_without(n: nat, y: Option<Double>) -> nat {
    if usable(y) && n > 0 {
        (n - 1) as nat
    } else {
        n
    }
}

/// The encoding of a row that the encoder is fitted to: missing, the mean of
/// all, or a mean over the other rows.
pub open spec fn row_plan(
    cell: Option<Seq<char>>,
    y: Option<Double>,
    pairs: Seq<(Seq<char>, Double)>,
    alpha: Double,
    global: Term,
) -> Option<Option<Term>> {
    match cell {
        None => None,
        Some(category) => {
            let own = members(pairs, category);
            let left = left_without(own.len(), y);
            if left >= 1 {
                let mean = running_mean(own);
                let base = if usable(y) {
                    mean_without(mean, y->0, left)
                } else {
                    mean
                };
                Some(Some(blended(left, alpha, base, global)))
            } else {
                Some(None)
            }
        },
    }
}

/// What is planned for a text column: an entry for each category, and for each
/// row.
#[verifier::ext_equal]
pub struct LooColumnView<T> {
    pub name: Seq<char>,
    pub categories: Seq<Seq<char>>,
    pub encoded: Seq<T>,
    pub rows: Seq<Option<Option<T>>>,
}

/// What is planned for a frame.
#[verifier::ext_equal]
pub struct LooPlanView<T> {
    pub source: FrameView,
    pub global: T,
    pub columns: Seq<LooColumnView<T>>,
}

/// What is planned for a text column.
pub open spec fn column_plan(
    name: Seq<char>,
    cells: Seq<Option<Seq<char>>>,
    ys: Seq<Option<Double>>,
    alpha: Double,
    global: Term,
) -> LooColumnView<Term> {
    let pairs = usable_pairs(cells, ys);
    let categories = tally::distinct(pair_categories(pairs));
    LooColumnView {
        name,
        categories,
        encoded: Seq::new(
            categories.len(),
            |k: int| full_mean(pairs, categories[k], alpha, global),
        ),
        rows: Seq::new(cells.len(), |i: int| row_plan(cells[i], ys[i], pairs, alpha, global)),
    }
}

/// What is planned for a list of columns: one entry for each text column.
pub open spec fn columns_plan(
    columns: Seq<ColumnView>,
    ys: Seq<Option<Double>>,
    alpha: Double,
    global: Term,
) -> Seq<LooColumnView<Term>>
    decreases columns.len(),
{
    if columns.len() == 0 {
        Seq::empty()
    } else {
        let front = columns_plan(columns.drop_last(), ys, alpha, global);
        match columns.last().values {
            ValuesView::Text(cells) => front.push(
                column_plan(columns.last().name, cells, ys, alpha, global),
            ),
            _ => front,
        }
    }
}

/// The cells of the target.
pub open spec fn target_cells(y: FrameView) -> Seq<Option<Double>> {
    y.columns[0].values->Float64_0
}

/// What is planned for a frame of features and a target.
pub open spec fn whole_plan(alpha: Double, x: FrameView, y: FrameView) -> LooPlanView<Term> {
    let ys = target_cells(y);
    let global = running_mean(usable_targets(ys));
    LooPlanView { source: x, global, columns: columns_plan(x.columns, ys, alpha, global) }
}

/// Why nothing can be planned for a frame of features and a target.
pub open spec fn plan_fault(alpha: Double, x: FrameView, y: FrameView) -> Option<ErrorView> {
    let who = "LeaveOneOutEncoder"@;
    if !alpha.finite() || alpha.below(Double { bits: 0 }) {
        Some(ErrorView::plain(Problem::InvalidSmoothing(alpha), who))
    } else if x.height == 0 || x.columns.len() == 0 {
        Some(ErrorView::plain(Problem::EmptyFrame, who))
    } else if y.columns.len() != 1 {
        Some(ErrorView::plain(Problem::ExpectedOneTarget(y.columns.len() as usize), who))
    } else if y.height != x.height {
        Some(ErrorView::plain(Problem::RowsDiffer(x.height as usize, y.height as usize), who))
    } else {
        match y.columns[0].values {
            ValuesView::Float64(ys) => if usable_targets(ys).len() == 0 {
                Some(ErrorView::plain(Problem::NoUsableTarget, who))
            } else {
                None
            },
            other => Some(
                ErrorView::detailed(
                    Problem::ExpectedFloat64,
                    who,
                    y.columns[0].name,
                    other.dtype(),
                ),
            ),
        }
    }
}

/// The terms that a plan with positions of a program stands for.
pub open spec fn resolved_column(column: LooColumnView<int>, terms: Seq<Term>) -> LooColumnView<
    Term,
> {
    LooColumnView {
        name: column.name,
        categories: column.categories,
        encoded: Seq::new(column.encoded.len(), |k: int| terms[column.encoded[k]]),
        rows: Seq::new(
            column.rows.len(),
            |i: int|
                match column.rows[i] {
                    None => None,
                    Some(None) => Some(None),
                    Some(Some(at)) => Some(Some(terms[at])),
                },
        ),
    }
}

/// The terms that a plan with positions of a program stands for.
pub open spec fn resolved(plan: LooPlanView<int>, terms: Seq<Term>) -> LooPlanView<Term> {
    LooPlanView {
        source: plan.source,
        global: terms[plan.global],
        columns: Seq::new(
            plan.columns.len(),
            |i: int| resolved_column(plan.columns[i], terms),
        ),
    }
}

/// Whether a planned column is in order, and refers only to positions before
/// `limit`.
pub open spec fn column_sound(column: LooColumnView<int>, limit: nat) -> bool {
    &&& tally::ascending(column.categories)
    &&& column.encoded.len() == column.categories.len()
    &&& forall|k: int| 0 <= k < column.encoded.len() ==> 0 <= #[trigger] column.encoded[k] < limit
    &&& forall|i: int|
        0 <= i < column.rows.len() ==> ((#[trigger] column.rows[i]) matches Some(Some(at))
            ==> 0 <= at < limit)
}

/// Whether a plan is in order, and refers only to positions before `limit`.
pub open spec fn plan_sound(plan: LooPlanView<int>, limit: nat) -> bool {
    &&& 0 <= plan.global < limit
    &&& forall|i: int| 0 <= i < plan.columns.len() ==> column_sound(#[trigger] plan.columns[i], limit)
}

/// A planned column; positions are those of the plan's program.
struct LooColumn {
    name: Text,
    categories: Vec<Text>,
    encoded: Vec<usize>,
    rows: Vec<Option<Option<usize>>>,
}

impl LooColumn {
    spec fn shape(self) -> LooColumnView<int> {
        LooColumnView {
            name: self.name@,
            categories: text::views(self.categories@),
            encoded: Seq::new(self.encoded@.len(), |k: int| self.encoded@[k] as int),
            rows: Seq::new(
                self.rows@.len(),
                |i: int|
                    match self.rows@[i] {
                        None => None,
                        Some(None) => Some(None),
                        Some(Some(at)) => Some(Some(at as int)),
                    },
            ),
        }
    }
}

/// What is left to compute of a fit: a program, and where its results go.
pub struct LooPlan {
    source: Frame,
    global: usize,
    columns: Vec<LooColumn>,
    program: Program,
}

impl LooPlan {
    #[verifier::type_invariant]
    spec fn well_formed(self) -> bool {
        &&& self.global < self.program@.len()
        &&& forall|i: int|
            0 <= i < self.columns.len() ==> column_sound(
                (#[trigger] self.columns@[i]).shape(),
                self.program@.len(),
            )
    }

    /// The plan, with positions of the program in place of terms.
    pub closed spec fn shape(self) -> LooPlanView<int> {
        LooPlanView {
            source: self.source@,
            global: self.global as int,
            columns: Seq::new(self.columns@.len(), |i: int| self.columns@[i].shape()),
        }
    }

    /// The terms of the program.
    pub closed spec fn terms(self) -> Seq<Term> {
        self.program@
    }

    /// The program to evaluate.
    pub fn program(&self) -> (r: &Program)
        ensures
            r@ == self.terms(),
    {
        &self.program
    }
}

/// Appends the next step of a running mean.
fn append_mean_step(program: &mut Program, mean: usize, v: Double, n: u64) -> (r: usize)
    requires
        mean < old(program)@.len(),
    ensures
        program::extends(old(program)@, final(program)@),
        r < final(program)@.len(),
        final(program)@[r as int] == Term::Plus(
            Box::new(old(program)@[mean as int]),
            Box::new(
                Term::Over(
                    Box::new(
                        Term::Minus(
                            Box::new(Term::Value(v)),
                            Box::new(old(program)@[mean as int]),
                        ),
                    ),
                    Box::new(Term::Natural(n as nat)),
                ),
            ),
        ),
{
    let value: usize = program.append(Operation::Value(v));
    let gap: usize = program.append(Operation::Minus(value, mean));
    let count: usize = program.append(Operation::Natural(n));
    let step: usize = program.append(Operation::Over(gap, count));
    program.append(Operation::Plus(mean, step))
}

/// Appends a mean over `n` rows, drawn towards the mean of all.
fn append_blended(
    program: &mut Program,
    n: u64,
    alpha: Double,
    mean: usize,
    global: usize,
) -> (r: usize)
    requires
        mean < old(program)@.len(),
        global < old(program)@.len(),
    ensures
        program::extends(old(program)@, final(program)@),
        r < final(program)@.len(),
        final(program)@[r as int] == blended(
            n as nat,
            alpha,
            old(program)@[mean as int],
            old(program)@[global as int],
        ),
{
    let count: usize = program.append(Operation::Natural(n));
    let strength: usize = program.append(Operation::Value(alpha));
    let sum: usize = program.append(Operation::Plus(count, strength));
    let w: usize = program.append(Operation::Over(count, sum));
    let one: usize = program.append(Operation::Value(Double::one()));
    let rest: usize = program.append(Operation::Minus(one, w));
    let first: usize = program.append(Operation::Times(w, mean));
    let second: usize = program.append(Operation::Times(rest, global));
    program.append(Operation::Plus(first, second))
}

/// Appends the mean of the targets that can be used; nothing where there are
/// none.
fn append_global(ys: &Vec<Option<Double>>, program: &mut Program) -> (r: Option<usize>)
    ensures
        program::extends(old(program)@, final(program)@),
        match r {
            Some(at) => usable_targets(ys@).len() > 0 && at < final(program)@.len()
                && final(program)@[at as int] == running_mean(usable_targets(ys@)),
            None => usable_targets(ys@).len() == 0,
        },
{
    let ghost before = program@;
    let mut mean: usize = program.append(Operation::Value(Double::zero()));
    let mut n: u64 = 0;
    let mut i: usize = 0;
    assert(ys@.take(0) =~= Seq::<Option<Double>>::empty());
    while i < ys.len()
        invariant
            i <= ys.len(),
            n <= i,
            program::extends(before, program@),
            n == usable_targets(ys@.take(i as int)).len(),
            mean < program@.len(),
            program@[mean as int] == running_mean(usable_targets(ys@.take(i as int))),
        decreases ys.len() - i,
    {
        assert(ys@.take(i + 1).drop_last() =~= ys@.take(i as int));
        match ys[i] {
            Some(v) => {
                if v.is_finite() {
                    n = n + 1;
                    mean = append_mean_step(program, mean, v, n);
                    proof {
                        let all = usable_targets(ys@.take(i + 1));
                        assert(all.drop_last() =~= usable_targets(ys@.take(i as int)));
                    }
                }
            },
            None => {},
        }
        i += 1;
    }
    assert(ys@.take(i as int) =~= ys@);
    if n == 0 {
        None
    } else {
        Some(mean)
    }
}

/// The categories of pairs and how many targets each has go together.
proof fn lemma_members_counted(pairs: Seq<(Seq<char>, Double)>, category: Seq<char>)
    ensures
        members(pairs, category).len() == tally::occurrences(pair_categories(pairs), category),
        members(pairs, category).len() <= pairs.len(),
    decreases pairs.len(),
{
    if pairs.len() > 0 {
        lemma_members_counted(pairs.drop_last(), category);
        assert(pair_categories(pairs).drop_last() =~= pair_categories(pairs.drop_last()));
    }
}

/// A row with a target that can be used is among the pairs.
proof fn lemma_row_counts(cells: Seq<Option<Seq<char>>>, ys: Seq<Option<Double>>, i: int)
    requires
        cells.len() == ys.len(),
        0 <= i < cells.len(),
        cells[i] is Some,
        usable(ys[i]),
    ensures
        pair_categories(usable_pairs(cells, ys)).contains(cells[i]->0),
    decreases cells.len(),
{
    let pairs = usable_pairs(cells, ys);
    if i == cells.len() - 1 {
        assert(pair_categories(pairs)[pairs.len() - 1] == cells[i]->0);
    } else {
        let front = usable_pairs(cells.drop_last(), ys.drop_last());
        lemma_row_counts(cells.drop_last(), ys.drop_last(), i);
        let all = pair_categories(front);
        let k = choose|k: int| 0 <= k < all.len() && all[k] == cells[i]->0;
        assert(pair_categories(pairs)[k] == cells[i]->0);
    }
}

/// There are no more pairs than rows.
proof fn lemma_pairs_len(cells: Seq<Option<Seq<char>>>, ys: Seq<Option<Double>>)
    ensures
        usable_pairs(cells, ys).len() <= cells.len(),
    decreases cells.len(),
{
    if cells.len() > 0 {
        lemma_pairs_len(cells.drop_last(), ys.drop_last());
    }
}

/// The distinct categories of the rows that have a target.
fn find_categories(cells: &Vec<Option<Text>>, ys: &Vec<Option<Double>>) -> (r: Vec<Text>)
    requires
        cells.len() == ys.len(),
    ensures
        text::views(r@) == tally::distinct(
            pair_categories(usable_pairs(frame::gap_views(cells@), ys@)),
        ),
{
    let ghost seen = frame::gap_views(cells@);
    let mut tally: Tally = Tally::new();
    let mut i: usize = 0;
    assert(seen.take(0) =~= Seq::<Option<Seq<char>>>::empty());
    assert(tally.items() =~= pair_categories(usable_pairs(seen.take(0), ys@.take(0))));
    while i < cells.len()
        invariant
            i <= cells.len(),
            cells.len() == ys.len(),
            seen == frame::gap_views(cells@),
            tally.well_formed(),
            tally.items() == pair_categories(
                usable_pairs(seen.take(i as int), ys@.take(i as int)),
            ),
        decreases cells.len() - i,
    {
        let ghost before = usable_pairs(seen.take(i as int), ys@.take(i as int));
        let ghost after = usable_pairs(seen.take(i + 1), ys@.take(i + 1));
        assert(seen.take(i + 1).drop_last() =~= seen.take(i as int));
        assert(ys@.take(i + 1).drop_last() =~= ys@.take(i as int));
        proof {
            lemma_pairs_len(seen.take(i as int), ys@.take(i as int));
        }
        match (&cells[i], ys[i]) {
            (Some(category), Some(v)) => {
                if v.is_finite() {
                    tally.add(category);
                    assert(pair_categories(after) =~= pair_categories(before).push(category@));
                }
            },
            _ => {},
        }
        i += 1;
    }
    assert(seen.take(i as int) =~= seen);
    assert(ys@.take(i as int) =~= ys@);
    let (categories, _counts) = tally.into_parts();
    categories
}

/// Appends the running means of the categories; returns where they stand and
/// over how many rows each is.
fn append_means(
    cells: &Vec<Option<Text>>,
    ys: &Vec<Option<Double>>,
    categories: &Vec<Text>,
    program: &mut Program,
) -> (r: (Vec<usize>, Vec<u64>))
    requires
        cells.len() == ys.len(),
        text::views(categories@) == tally::distinct(
            pair_categories(usable_pairs(frame::gap_views(cells@), ys@)),
        ),
    ensures
        program::extends(old(program)@, final(program)@),
        r.0.len() == categories.len(),
        r.1.len() == categories.len(),
        forall|k: int|
            0 <= k < categories.len() ==> {
                let own = members(
                    usable_pairs(frame::gap_views(cells@), ys@),
                    (#[trigger] categories@[k])@,
                );
                &&& r.0@[k] < final(program)@.len()
                &&& final(program)@[r.0@[k] as int] == running_mean(own)
                &&& r.1@[k] == own.len()
            },
{
    let ghost start = program@;
    let ghost seen = frame::gap_views(cells@);
    let ghost whole = usable_pairs(seen, ys@);
    let zero: usize = program.append(Operation::Value(Double::zero()));
    let mut means: Vec<usize> = Vec::new();
    let mut counts: Vec<u64> = Vec::new();
    let mut c: usize = 0;
    while c < categories.len()
        invariant
            c <= categories.len(),
            means.len() == c,
            counts.len() == c,
            forall|k: int| 0 <= k < c ==> #[trigger] means@[k] == zero,
            forall|k: int| 0 <= k < c ==> #[trigger] counts@[k] == 0,
        decreases categories.len() - c,
    {
        means.push(zero);
        counts.push(0);
        c += 1;
    }
    let mut i: usize = 0;
    assert(seen.take(0) =~= Seq::<Option<Seq<char>>>::empty());
    assert(usable_pairs(seen.take(0), ys@.take(0)) =~= Seq::empty());
    while i < cells.len()
        invariant
            i <= cells.len(),
            cells.len() == ys.len(),
            seen == frame::gap_views(cells@),
            whole == usable_pairs(seen, ys@),
            text::views(categories@) == tally::distinct(pair_categories(whole)),
            program::extends(start, program@),
            means.len() == categories.len(),
            counts.len() == categories.len(),
            forall|k: int|
                0 <= k < categories.len() ==> {
                    let own = members(
                        usable_pairs(seen.take(i as int), ys@.take(i as int)),
                        (#[trigger] categories@[k])@,
                    );
                    &&& means@[k] < program@.len()
                    &&& program@[means@[k] as int] == running_mean(own)
                    &&& counts@[k] == own.len()
                },
        decreases cells.len() - i,
    {
        let ghost before = usable_pairs(seen.take(i as int), ys@.take(i as int));
        let ghost after = usable_pairs(seen.take(i + 1), ys@.take(i + 1));
        assert(seen.take(i + 1).drop_last() =~= seen.take(i as int));
        assert(ys@.take(i + 1).drop_last() =~= ys@.take(i as int));
        match (&cells[i], ys[i]) {
            (Some(category), Some(v)) => {
                if v.is_finite() {
                    proof {
                        lemma_row_counts(seen, ys@, i as int);
                        tally::law_distinct(pair_categories(whole));
                        assert(tally::distinct(pair_categories(whole)).contains(category@));
                        assert(after.drop_last() =~= before);
                        lemma_pairs_len(seen.take(i as int), ys@.take(i as int));
                    }
                    let found: Option<usize> = tally::find(categories, category);
                    match found {
                        Some(at) => {
                            let ghost held = program@;
                            proof {
                                assert(categories@[at as int]@ == category@);
                                lemma_members_counted(before, category@);
                            }
                            let n: u64 = counts[at] + 1;
                            let mean: usize = append_mean_step(program, means[at], v, n);
                            let ghost old_means = means@;
                            let ghost old_counts = counts@;
                            means.set(at, mean);
                            counts.set(at, n);
                            proof {
                                assert forall|k: int| 0 <= k < categories.len() implies {
                                    let own = members(after, (#[trigger] categories@[k])@);
                                    &&& means@[k] < program@.len()
                                    &&& program@[means@[k] as int] == running_mean(own)
                                    &&& counts@[k] == own.len()
                                } by {
                                    let own = members(after, categories@[k]@);
                                    let past = members(before, categories@[k]@);
                                    if k == at {
                                        assert(own == past.push(v));
                                        assert(own.drop_last() =~= past);
                                    } else {
                                        assert(text::views(categories@)[k] != category@) by {
                                            let list = text::views(categories@);
                                            if k < at {
                                                text::lemma_less_asymmetric(
                                                    list[k],
                                                    list[at as int],
                                                );
                                            } else {
                                                text::lemma_less_asymmetric(
                                                    list[at as int],
                                                    list[k],
                                                );
                                            }
                                        }
                                        assert(own == past);
                                        assert(means@[k] == old_means[k]);
                                        assert(program@[means@[k] as int] == held[means@[k] as int]);
                                    }
                                }
                            }
                        },
                        None => {
                            assert(false);
                        },
                    }
                }
            },
            _ => {},
        }
        i += 1;
    }
    assert(seen.take(i as int) =~= seen);
    assert(ys@.take(i as int) =~= ys@);
    (means, counts)
}

/// Plans the encodings of a text column.
fn plan_column(
    name: &Text,
    cells: &Vec<Option<Text>>,
    ys: &Vec<Option<Double>>,
    alpha: Double,
    global: usize,
    program: &mut Program,
) -> (r: LooColumn)
    requires
        cells.len() == ys.len(),
        global < old(program)@.len(),
    ensures
        program::extends(old(program)@, final(program)@),
        column_sound(r.shape(), final(program)@.len()),
        resolved_column(r.shape(), final(program)@) == column_plan(
            name@,
            frame::gap_views(cells@),
            ys@,
            alpha,
            old(program)@[global as int],
        ),
{
    let ghost start = program@;
    let ghost mean_of_all = program@[global as int];
    let ghost seen = frame::gap_views(cells@);
    let ghost pairs = usable_pairs(seen, ys@);
    let categories: Vec<Text> = find_categories(cells, ys);
    let (means, counts) = append_means(cells, ys, &categories, program);
    let ghost list = text::views(categories@);
    proof {
        tally::law_distinct(pair_categories(pairs));
        assert(forall|k: int| 0 <= k < list.len() ==> list[k] == categories@[k]@);
    }
    let mut encoded: Vec<usize> = Vec::new();
    let mut c: usize = 0;
    while c < categories.len()
        invariant
            c <= categories.len(),
            encoded.len() == c,
            means.len() == categories.len(),
            counts.len() == categories.len(),
            global < start.len(),
            mean_of_all == start[global as int],
            program::extends(start, program@),
            forall|k: int|
                0 <= k < categories.len() ==> {
                    let own = members(pairs, (#[trigger] categories@[k])@);
                    &&& means@[k] < program@.len()
                    &&& program@[means@[k] as int] == running_mean(own)
                    &&& counts@[k] == own.len()
                },
            forall|k: int|
                0 <= k < c ==> (#[trigger] encoded@[k]) < program@.len()
                    && program@[encoded@[k] as int] == full_mean(
                    pairs,
                    categories@[k]@,
                    alpha,
                    mean_of_all,
                ),
        decreases categories.len() - c,
    {
        assert(members(pairs, categories@[c as int]@).len() == counts@[c as int]);
        let at: usize = append_blended(program, counts[c], alpha, means[c], global);
        encoded.push(at);
        c += 1;
    }
    let mut rows: Vec<Option<Option<usize>>> = Vec::new();
    let mut i: usize = 0;
    while i < cells.len()
        invariant
            i <= cells.len(),
            rows.len() == i,
            cells.len() == ys.len(),
            seen == frame::gap_views(cells@),
            pairs == usable_pairs(seen, ys@),
            list == text::views(categories@),
            list == tally::distinct(pair_categories(pairs)),
            tally::ascending(list),
            means.len() == categories.len(),
            counts.len() == categories.len(),
            encoded.len() == categories.len(),
            global < start.len(),
            mean_of_all == start[global as int],
            program::extends(start, program@),
            forall|k: int|
                0 <= k < categories.len() ==> {
                    let own = members(pairs, (#[trigger] categories@[k])@);
                    &&& means@[k] < program@.len()
                    &&& program@[means@[k] as int] == running_mean(own)
                    &&& counts@[k] == own.len()
                },
            forall|k: int|
                0 <= k < encoded.len() ==> (#[trigger] encoded@[k]) < program@.len()
                    && program@[encoded@[k] as int] == full_mean(
                    pairs,
                    categories@[k]@,
                    alpha,
                    mean_of_all,
                ),
            forall|k: int|
                0 <= k < i ==> row_matches(
                    #[trigger] rows@[k],
                    row_plan(seen[k], ys@[k], pairs, alpha, mean_of_all),
                    program@,
                ),
        decreases cells.len() - i,
    {
        let ghost held = program@;
        let row: Option<Option<usize>> = match &cells[i] {
            None => None,
            Some(category) => {
                proof {
                    tally::law_distinct(pair_categories(pairs));
                    lemma_members_counted(pairs, category@);
                    tally::lemma_occurrences_bounded(pair_categories(pairs), category@);
                    assert(list.contains(category@) <==> pair_categories(pairs).contains(
                        category@,
                    ));
                }
                match tally::find(&categories, category) {
                    None => Some(None),
                    Some(at) => {
                        assert(categories@[at as int]@ == category@);
                        let own: Option<Double> = match ys[i] {
                            Some(v) => if v.is_finite() {
                                Some(v)
                            } else {
                                None
                            },
                            None => None,
                        };
                        match own {
                            Some(v) => {
                                let left: u64 = counts[at] - 1;
                                if left >= 1 {
                                    let mean: usize = means[at];
                                    let value: usize = program.append(Operation::Value(v));
                                    let gap: usize = program.append(Operation::Minus(mean, value));
                                    let count: usize = program.append(Operation::Natural(left));
                                    let step: usize = program.append(Operation::Over(gap, count));
                                    let base: usize = program.append(Operation::Plus(mean, step));
                                    Some(
                                        Some(append_blended(program, left, alpha, base, global)),
                                    )
                                } else {
                                    Some(None)
                                }
                            },
                            None => Some(
                                Some(append_blended(program, counts[at], alpha, means[at], global)),
                            ),
                        }
                    },
                }
            },
        };
        proof {
            assert forall|k: int| 0 <= k < i implies row_matches(
                #[trigger] rows@[k],
                row_plan(seen[k], ys@[k], pairs, alpha, mean_of_all),
                program@,
            ) by {
                assert(row_matches(
                    rows@[k],
                    row_plan(seen[k], ys@[k], pairs, alpha, mean_of_all),
                    held,
                ));
            }
        }
        assert(row_matches(
            row,
            row_plan(seen[i as int], ys@[i as int], pairs, alpha, mean_of_all),
            program@,
        ));
        rows.push(row);
        i += 1;
    }
    let r: LooColumn = LooColumn { name: name.duplicate(), categories, encoded, rows };
    proof {
        let shape = r.shape();
        let plan = column_plan(name@, seen, ys@, alpha, mean_of_all);
        assert forall|k: int| 0 <= k < shape.rows.len() implies ((
        #[trigger] shape.rows[k]) matches Some(Some(at)) ==> 0 <= at < program@.len()) by {
            assert(row_matches(
                rows@[k],
                row_plan(seen[k], ys@[k], pairs, alpha, mean_of_all),
                program@,
            ));
        }
        assert forall|k: int| 0 <= k < shape.encoded.len() implies 0
            <= #[trigger] shape.encoded[k] < program@.len() by {
            assert(encoded@[k] < program@.len());
        }
        let made = resolved_column(shape, program@);
        assert(made.encoded =~= plan.encoded) by {
            assert forall|k: int| 0 <= k < plan.encoded.len() implies made.encoded[k]
                == plan.encoded[k] by {
                assert(encoded@[k] < program@.len());
            }
        }
        assert(made.rows =~= plan.rows) by {
            assert forall|k: int| 0 <= k < plan.rows.len() implies made.rows[k]
                == plan.rows[k] by {
                assert(row_matches(
                    rows@[k],
                    row_plan(seen[k], ys@[k], pairs, alpha, mean_of_all),
                    program@,
                ));
            }
        }
    }
    r
}

/// Whether a planned row stands for what it should.
spec fn row_matches(
    row: Option<Option<usize>>,
    plan: Option<Option<Term>>,
    terms: Seq<Term>,
) -> bool {
    match row {
        None => plan is None,
        Some(None) => plan == Some(None::<Term>),
        Some(Some(at)) => at < terms.len() && plan == Some(Some(terms[at as int])),
    }
}

/// A longer program changes nothing of a column that refers to its beginning.
proof fn lemma_resolved_stays(column: LooColumnView<int>, before: Seq<Term>, after: Seq<Term>)
    requires
        column_sound(column, before.len()),
        program::extends(before, after),
    ensures
        column_sound(column, after.len()),
        resolved_column(column, after) == resolved_column(column, before),
{
    let a = resolved_column(column, before);
    let b = resolved_column(column, after);
    assert forall|k: int| 0 <= k < column.encoded.len() implies 0
        <= #[trigger] column.encoded[k] < after.len() by {}
    assert forall|i: int| 0 <= i < column.rows.len() implies ((#[trigger] column.rows[i]) matches
        Some(Some(at)) ==> 0 <= at < after.len()) by {}
    assert(a.encoded =~= b.encoded) by {
        assert forall|k: int| 0 <= k < column.encoded.len() implies a.encoded[k] == b.encoded[k] by {
            assert(0 <= column.encoded[k] < before.len());
        }
    }
    assert(a.rows =~= b.rows) by {
        assert forall|i: int| 0 <= i < column.rows.len() implies a.rows[i] == b.rows[i] by {
            assert(column.rows[i] matches Some(Some(at)) ==> 0 <= at < before.len());
        }
    }
}

/// What was learned of a text column: the encoding of each category, and of
/// each row of the frame that the encoder was fitted to.
#[verifier::ext_equal]
pub struct LooFittedView {
    pub name: Seq<char>,
    pub categories: Seq<Seq<char>>,
    pub encoded: Seq<Double>,
    pub rows: Seq<Option<Double>>,
}

/// What was learned of a frame.
#[verifier::ext_equal]
pub struct LooStateView {
    pub source: FrameView,
    pub global: Double,
    pub columns: Seq<LooFittedView>,
}

/// The encoding of a row, from the results of the plan's program: the mean of
/// all stands in for a result that is not finite.
pub open spec fn settled_row(
    row: Option<Option<int>>,
    global: Double,
    values: Seq<Double>,
) -> Option<Double> {
    match row {
        None => None,
        Some(None) => Some(global),
        Some(Some(at)) => Some(
            if values[at].finite() {
                values[at]
            } else {
                global
            },
        ),
    }
}

/// What is learned of a text column, from the results of the plan's program.
pub open spec fn settled_column(
    column: LooColumnView<int>,
    global: Double,
    values: Seq<Double>,
) -> LooFittedView {
    LooFittedView {
        name: column.name,
        categories: column.categories,
        encoded: Seq::new(column.encoded.len(), |k: int| values[column.encoded[k]]),
        rows: Seq::new(
            column.rows.len(),
            |i: int| settled_row(column.rows[i], global, values),
        ),
    }
}

/// The categories of a planned column with their positions.
pub open spec fn encodings(column: LooColumnView<int>) -> Seq<(Seq<char>, int)> {
    Seq::new(column.encoded.len(), |k: int| (column.categories[k], column.encoded[k]))
}

/// Why the encoding of a category cannot be used.
pub open spec fn encoding_fault(name: Seq<char>, values: Seq<Double>) -> spec_fn(
    (Seq<char>, int),
) -> Option<ErrorView> {
    |pair: (Seq<char>, int)|
        if values[pair.1].finite() {
            None
        } else {
            Some(
                ErrorView::detailed(
                    Problem::NonFiniteEncoding,
                    "LeaveOneOutEncoder"@,
                    name,
                    pair.0,
                ),
            )
        }
}

/// Why the encodings of a column cannot be used.
pub open spec fn column_fault(values: Seq<Double>) -> spec_fn(LooColumnView<int>) -> Option<
    ErrorView,
> {
    |column: LooColumnView<int>|
        error::first_fault(encodings(column), encoding_fault(column.name, values))
}

/// What is learned of a plan, from the results of its program.
pub open spec fn settled(plan: LooPlanView<int>, values: Seq<Double>) -> Result<
    LooStateView,
    ErrorView,
> {
    let global = values[plan.global];
    if !global.finite() {
        Err(ErrorView::plain(Problem::NonFiniteMean, "LeaveOneOutEncoder"@))
    } else {
        match error::first_fault(plan.columns, column_fault(values)) {
            Some(e) => Err(e),
            None => if plan.columns.len() == 0 {
                Err(ErrorView::plain(Problem::NoTextColumns, "LeaveOneOutEncoder"@))
            } else {
                Ok(
                    LooStateView {
                        source: plan.source,
                        global,
                        columns: Seq::new(
                            plan.columns.len(),
                            |i: int| settled_column(plan.columns[i], global, values),
                        ),
                    },
                )
            },
        }
    }
}

/// Whether two cells hold the same number; NaN is the same as NaN here, and
/// missing the same as missing.
pub open spec fn same_number(a: Option<Double>, b: Option<Double>) -> bool {
    match (a, b) {
        (None, None) => true,
        (Some(x), Some(y)) => x.equals(y) || x.nan() && y.nan(),
        _ => false,
    }
}

/// Whether columns of two kinds are compared cell by cell: both hold texts, both
/// numbers, or both days.
pub open spec fn comparable(a: ValuesView, b: ValuesView) -> bool {
    ||| a is Text && b is Text
    ||| a is Float64 && b is Float64
    ||| a is Date && b is Date
}

/// Whether two comparable columns hold the same cells.
pub open spec fn same_values(a: ValuesView, b: ValuesView) -> bool {
    match (a, b) {
        (ValuesView::Text(x), ValuesView::Text(y)) => x == y,
        (ValuesView::Float64(x), ValuesView::Float64(y)) => x.len() == y.len() && forall|i: int|
            0 <= i < x.len() ==> same_number(#[trigger] x[i], y[i]),
        (ValuesView::Date(x), ValuesView::Date(y)) => x == y,
        _ => false,
    }
}

/// Whether `x` and `source` have columns of the name of column `k` of `source`
/// that are not comparable.
pub open spec fn incomparable(x: FrameView, source: FrameView, k: int) -> bool {
    x.find(source.columns[k].name) matches Some(i) && !comparable(
        x.columns[i].values,
        source.columns[k].values,
    )
}

/// Whether `x` holds the cells of column `k` of `source`, under its name. For
/// columns that are not comparable, `alike` says so.
pub open spec fn holds_column(x: FrameView, source: FrameView, alike: Seq<bool>, k: int) -> bool {
    &&& x.find(source.columns[k].name) matches Some(i)
    &&& if comparable(x.columns[i].values, source.columns[k].values) {
        same_values(x.columns[i].values, source.columns[k].values)
    } else {
        k < alike.len() && alike[k]
    }
}

/// Whether `x` is `source` with its columns in any order.
pub open spec fn same_frame(x: FrameView, source: FrameView, alike: Seq<bool>) -> bool {
    &&& x.columns.len() == source.columns.len()
    &&& forall|k: int|
        0 <= k < source.columns.len() ==> holds_column(x, source, alike, k)
}

/// The frame that was fitted is taken as such, in whatever order its columns
/// stand, where columns that are not comparable are said to be alike; a frame
/// with other columns is not.
pub proof fn law_training_frame(x: FrameView, source: FrameView, alike: Seq<bool>)
    requires
        x.valid(),
        source.valid(),
        x.columns.len() == source.columns.len(),
        forall|k: int|
            0 <= k < source.columns.len() && #[trigger] incomparable(x, source, k) ==> k
                < alike.len() && alike[k],
    ensures
        (forall|k: int|
            0 <= k < source.columns.len() ==> x.columns.contains(#[trigger] source.columns[k]))
            ==> same_frame(x, source, alike),
        (exists|k: int| 0 <= k < source.columns.len() && x.find((#[trigger] source.columns[k]).name) is None)
            ==> !same_frame(x, source, alike),
{
    if forall|k: int|
        0 <= k < source.columns.len() ==> x.columns.contains(#[trigger] source.columns[k]) {
        assert forall|k: int| 0 <= k < source.columns.len() implies holds_column(
            x,
            source,
            alike,
            k,
        ) by {
            let column = source.columns[k];
            let i = choose|i: int| 0 <= i < x.columns.len() && x.columns[i] == column;
            assert(x.holds(column.name, i));
            frame::lemma_find(x, column.name, i);
            if !comparable(x.columns[i].values, column.values) {
                assert(incomparable(x, source, k));
            }
        }
    }
    if exists|k: int|
        0 <= k < source.columns.len() && x.find((#[trigger] source.columns[k]).name) is None {
        let k = choose|k: int|
            0 <= k < source.columns.len() && x.find((#[trigger] source.columns[k]).name) is None;
        assert(!holds_column(x, source, alike, k));
    }
}

/// The names of the columns that were learned.
pub open spec fn fitted_names(columns: Seq<LooFittedView>) -> Seq<Seq<char>> {
    Seq::new(columns.len(), |i: int| columns[i].name)
}

/// A column of given numbers.
pub open spec fn known_column(name: Seq<char>, rows: Seq<Option<Double>>) -> SheetColumnView {
    SheetColumnView {
        name,
        cells: CellsView::Float64(
            Seq::new(
                rows.len(),
                |i: int|
                    match rows[i] {
                        Some(d) => Some(Term::Value(d)),
                        None => None,
                    },
            ),
        ),
    }
}

/// What the encoder makes of a frame, where `alike` says which columns that are
/// not comparable hold the same cells.
pub open spec fn loo_outcome(
    fitted: Option<LooStateView>,
    x: FrameView,
    alike: Seq<bool>,
) -> Result<SheetView, ErrorView> {
    match fitted {
        None => Err(ErrorView::plain(Problem::NotFitted, "LeaveOneOutEncoder"@)),
        Some(state) => if !same_frame(x, state.source, alike) {
            Err(ErrorView::plain(Problem::NotTrainingFrame, "LeaveOneOutEncoder"@))
        } else {
            Ok(
                SheetView {
                    height: x.height,
                    columns: Seq::new(
                        x.columns.len(),
                        |i: int|
                            match text::position(
                                fitted_names(state.columns),
                                x.columns[i].name,
                            ) {
                                Some(k) => known_column(
                                    x.columns[i].name,
                                    state.columns[k].rows,
                                ),
                                None => SheetColumnView {
                                    name: x.columns[i].name,
                                    cells: CellsView::Kept(i),
                                },
                            },
                    ),
                },
            )
        },
    }
}

/// The encoding of a cell of new data: that of its category, or the mean of
/// all where the category was not learned.
pub open spec fn unseen_cell(
    column: LooFittedView,
    global: Double,
    cell: Option<Seq<char>>,
) -> Option<Double> {
    match cell {
        Some(v) => Some(
            match text::position(column.categories, v) {
                Some(k) => column.encoded[k],
                None => global,
            },
        ),
        None => None,
    }
}

/// What the encoder makes of new data.
pub open spec fn unseen_outcome(fitted: Option<LooStateView>, x: FrameView) -> Result<
    SheetView,
    ErrorView,
> {
    match fitted {
        None => Err(ErrorView::plain(Problem::NotFitted, "LeaveOneOutEncoder"@)),
        Some(state) => match error::first_fault(
            fitted_names(state.columns),
            encoder::text_fault("LeaveOneOutEncoder"@, x),
        ) {
            Some(e) => Err(e),
            None => Ok(
                SheetView {
                    height: x.height,
                    columns: Seq::new(
                        x.columns.len(),
                        |i: int|
                            match text::position(
                                fitted_names(state.columns),
                                x.columns[i].name,
                            ) {
                                Some(k) => {
                                    let cells = x.columns[i].values->Text_0;
                                    known_column(
                                        x.columns[i].name,
                                        Seq::new(
                                            cells.len(),
                                            |j: int|
                                                unseen_cell(
                                                    state.columns[k],
                                                    state.global,
                                                    cells[j],
                                                ),
                                        ),
                                    )
                                },
                                None => SheetColumnView {
                                    name: x.columns[i].name,
                                    cells: CellsView::Kept(i),
                                },
                            },
                    ),
                },
            ),
        },
    }
}

/// What was learned of a text column.
struct LooFitted {
    categories: Vec<Text>,
    encoded: Vec<Double>,
    rows: Vec<Option<Double>>,
}

impl LooFitted {
    spec fn shown(self, name: Seq<char>) -> LooFittedView {
        LooFittedView {
            name,
            categories: text::views(self.categories@),
            encoded: self.encoded@,
            rows: self.rows@,
        }
    }
}

/// What was learned of a frame.
struct LooState {
    source: Frame,
    global: Double,
    names: Vec<Text>,
    columns: Vec<LooFitted>,
}

impl LooState {
    spec fn shown(self) -> LooStateView {
        LooStateView {
            source: self.source@,
            global: self.global,
            columns: Seq::new(
                self.columns@.len(),
                |i: int| self.columns@[i].shown(self.names@[i]@),
            ),
        }
    }

    spec fn sound(self) -> bool {
        &&& self.names.len() == self.columns.len()
        &&& forall|i: int|
            0 <= i < self.columns.len() ==> {
                &&& tally::ascending(text::views((#[trigger] self.columns@[i]).categories@))
                &&& self.columns@[i].encoded.len() == self.columns@[i].categories.len()
            }
    }
}

/// Whether two comparable columns hold the same cells; nothing for others.
fn compare_values(a: &Values, b: &Values) -> (r: Option<bool>)
    ensures
        match r {
            Some(same) => comparable(a@, b@) && same == same_values(a@, b@),
            None => !comparable(a@, b@),
        },
{
    match (a, b) {
        (Values::Text(x), Values::Text(y)) => Some(compare_texts(x, y)),
        (Values::Float64(x), Values::Float64(y)) => Some(compare_numbers(x, y)),
        (Values::Date(x), Values::Date(y)) => Some(compare_days(x, y)),
        _ => None,
    }
}

/// Whether two lists of numbers are the same, cell by cell.
fn compare_numbers(x: &Vec<Option<Double>>, y: &Vec<Option<Double>>) -> (r: bool)
    ensures
        r == (x.len() == y.len() && forall|i: int|
            0 <= i < x.len() ==> same_number(#[trigger] x@[i], y@[i])),
{
    if x.len() != y.len() {
        return false;
    }
    let mut i: usize = 0;
    while i < x.len()
        invariant
            i <= x.len(),
            x.len() == y.len(),
            forall|k: int| 0 <= k < i ==> same_number(#[trigger] x@[k], y@[k]),
        decreases x.len() - i,
    {
        let same: bool = match (x[i], y[i]) {
            (None, None) => true,
            (Some(p), Some(q)) => p.is_equal(q) || p.is_nan() && q.is_nan(),
            _ => false,
        };
        if !same {
            assert(!same_number(x@[i as int], y@[i as int]));
            return false;
        }
        i += 1;
    }
    true
}

/// Whether two lists of days are the same.
fn compare_days(x: &Vec<Option<i32>>, y: &Vec<Option<i32>>) -> (r: bool)
    ensures
        r == (x@ == y@),
{
    if x.len() != y.len() {
        return false;
    }
    let mut i: usize = 0;
    while i < x.len()
        invariant
            i <= x.len(),
            x.len() == y.len(),
            forall|k: int| 0 <= k < i ==> x@[k] == y@[k],
        decreases x.len() - i,
    {
        let same: bool = match (x[i], y[i]) {
            (None, None) => true,
            (Some(p), Some(q)) => p == q,
            _ => false,
        };
        if !same {
            assert(x@[i as int] != y@[i as int]);
            return false;
        }
        i += 1;
    }
    assert(x@ =~= y@);
    true
}

/// Whether two lists of texts with gaps are the same.
fn compare_texts(x: &Vec<Option<Text>>, y: &Vec<Option<Text>>) -> (r: bool)
    ensures
        r == (frame::gap_views(x@) == frame::gap_views(y@)),
{
    let ghost a = frame::gap_views(x@);
    let ghost b = frame::gap_views(y@);
    if x.len() != y.len() {
        assert(a.len() != b.len());
        return false;
    }
    let mut i: usize = 0;
    while i < x.len()
        invariant
            i <= x.len(),
            x.len() == y.len(),
            a == frame::gap_views(x@),
            b == frame::gap_views(y@),
            forall|k: int| 0 <= k < i ==> a[k] == b[k],
        decreases x.len() - i,
    {
        let same: bool = match (&x[i], &y[i]) {
            (None, None) => true,
            (Some(p), Some(q)) => p.same(q),
            _ => false,
        };
        if !same {
            assert(a[i as int] != b[i as int]);
            return false;
        }
        i += 1;
    }
    assert(a =~= b);
    true
}

/// A column of given numbers.
fn make_known(name: &Text, rows: &Vec<Option<Double>>) -> (r: SheetColumn)
    ensures
        frame::sheet_column(r, Seq::<Term>::empty()) == known_column(name@, rows@),
{
    let ghost none = Seq::<Term>::empty();
    let mut numbers: Vec<Option<Number>> = Vec::new();
    let mut i: usize = 0;
    while i < rows.len()
        invariant
            i <= rows.len(),
            numbers.len() == i,
            none == Seq::<Term>::empty(),
            forall|k: int|
                0 <= k < i ==> frame::optional_term(#[trigger] numbers@[k], none) == (
                match rows@[k] {
                    Some(d) => Some(Term::Value(d)),
                    None => None,
                }),
        decreases rows.len() - i,
    {
        numbers.push(
            match rows[i] {
                Some(d) => Some(Number::Known(d)),
                None => None,
            },
        );
        i += 1;
    }
    let r: SheetColumn = SheetColumn { name: name.duplicate(), cells: Cells::Float64(numbers) };
    assert(frame::terms_of(numbers@, none) =~= Seq::new(
        rows@.len(),
        |k: int|
            match rows@[k] {
                Some(d) => Some(Term::Value(d)),
                None => None,
            },
    ));
    r
}

/// Replaces categories by means of a target.
///
/// Every text column becomes a column of numbers; the other columns are kept.
/// A fit has two steps: [`fit`](LeaveOneOutEncoder::fit) checks its input and
/// says what is to be computed, and [`finish_fit`](LeaveOneOutEncoder::finish_fit)
/// takes the results.
pub struct LeaveOneOutEncoder {
    alpha: Double,
    state: Option<LooState>,
}

impl LeaveOneOutEncoder {
    #[verifier::type_invariant]
    spec fn well_formed(self) -> bool {
        self.state matches Some(state) ==> state.sound()
    }

    /// What was learned at the last fit, if it succeeded.
    pub closed spec fn fitted(self) -> Option<LooStateView> {
        match self.state {
            Some(state) => Some(state.shown()),
            None => None,
        }
    }

    /// The smoothing strength.
    pub closed spec fn smoothing(self) -> Double {
        self.alpha
    }

    /// An encoder without smoothing.
    pub fn new() -> (r: LeaveOneOutEncoder)
        ensures
            r.fitted() is None,
            r.smoothing() == (Double { bits: 0 }),
    {
        LeaveOneOutEncoder { alpha: Double::zero(), state: None }
    }

    /// Sets the smoothing strength.
    pub fn alpha(self, a: Double) -> (r: LeaveOneOutEncoder)
        ensures
            r.fitted() == self.fitted(),
            r.smoothing() == a,
    {
        proof {
            use_type_invariant(&self);
        }
        LeaveOneOutEncoder { alpha: a, state: self.state }
    }

    /// Checks the features `x` and the target `y`, and says what is to be
    /// computed. The encoder is unfitted until the fit is finished.
    pub fn fit(&mut self, x: Frame, y: &Frame) -> (r: Result<LooPlan, Error>)
        ensures
            final(self).fitted() is None,
            final(self).smoothing() == old(self).smoothing(),
            match plan_fault(old(self).smoothing(), x@, y@) {
                Some(e) => r is Err && r->Err_0@ == e,
                None => {
                    &&& r is Ok
                    &&& resolved(r->Ok_0.shape(), r->Ok_0.terms()) == whole_plan(
                        old(self).smoothing(),
                        x@,
                        y@,
                    )
                    &&& plan_sound(r->Ok_0.shape(), r->Ok_0.terms().len())
                },
            },
    {
        self.state = None;
        let alpha: Double = self.alpha;
        if !alpha.is_finite() || alpha.is_below(Double::zero()) {
            return Err(Error::plain(Problem::InvalidSmoothing(alpha), "LeaveOneOutEncoder"));
        }
        let height: usize = x.height();
        let width: usize = x.width();
        if height == 0 || width == 0 {
            return Err(Error::plain(Problem::EmptyFrame, "LeaveOneOutEncoder"));
        }
        let targets: usize = y.width();
        if targets != 1 {
            return Err(Error::plain(Problem::ExpectedOneTarget(targets), "LeaveOneOutEncoder"));
        }
        let rows: usize = y.height();
        if rows != height {
            return Err(Error::plain(Problem::RowsDiffer(height, rows), "LeaveOneOutEncoder"));
        }
        let target = y.column(0);
        let ys = match &target.values {
            Values::Float64(ys) => ys,
            other => {
                return Err(
                    Error::detailed(
                        Problem::ExpectedFloat64,
                        "LeaveOneOutEncoder",
                        &target.name,
                        other.dtype(),
                    ),
                );
            },
        };
        let mut program: Program = Program::new();
        let global: usize = match append_global(ys, &mut program) {
            Some(at) => at,
            None => {
                return Err(Error::plain(Problem::NoUsableTarget, "LeaveOneOutEncoder"));
            },
        };
        let ghost mean = program@[global as int];
        let ghost all = x@.columns;
        let mut columns: Vec<LooColumn> = Vec::new();
        let mut i: usize = 0;
        assert(all.take(0) =~= Seq::<ColumnView>::empty());
        while i < width
            invariant
                i <= width,
                width == all.len(),
                all == x@.columns,
                x@.valid(),
                ys.len() == x@.height,
                global < program@.len(),
                program@[global as int] == mean,
                columns.len() == columns_plan(all.take(i as int), ys@, alpha, mean).len(),
                forall|k: int|
                    0 <= k < columns.len() ==> column_sound(
                        (#[trigger] columns@[k]).shape(),
                        program@.len(),
                    ) && resolved_column(columns@[k].shape(), program@) == columns_plan(
                        all.take(i as int),
                        ys@,
                        alpha,
                        mean,
                    )[k],
            decreases width - i,
        {
            let ghost front = all.take(i as int);
            assert(all.take(i + 1).drop_last() =~= front);
            let column = x.column(i);
            match &column.values {
                Values::Text(cells) => {
                    let ghost held = program@;
                    let planned: LooColumn = plan_column(
                        &column.name,
                        cells,
                        ys,
                        alpha,
                        global,
                        &mut program,
                    );
                    proof {
                        assert forall|k: int| 0 <= k < columns.len() implies column_sound(
                            (#[trigger] columns@[k]).shape(),
                            program@.len(),
                        ) && resolved_column(columns@[k].shape(), program@) == columns_plan(
                            front,
                            ys@,
                            alpha,
                            mean,
                        )[k] by {
                            lemma_resolved_stays(columns@[k].shape(), held, program@);
                        }
                    }
                    columns.push(planned);
                },
                _ => {},
            }
            i += 1;
        }
        assert(all.take(i as int) =~= all);
        let plan: LooPlan = LooPlan { source: x, global, columns, program };
        proof {
            let made = resolved(plan.shape(), plan.terms());
            let wanted = whole_plan(alpha, x@, y@);
            assert(made.columns =~= wanted.columns) by {
                assert forall|k: int| 0 <= k < wanted.columns.len() implies made.columns[k]
                    == wanted.columns[k] by {
                    assert(column_sound(columns@[k].shape(), program@.len()));
                }
            }
        }
        Ok(plan)
    }

    /// Finishes a fit with the results of the plan's program, one for each of
    /// its operations.
    pub fn finish_fit(&mut self, plan: LooPlan, values: &Vec<Double>) -> (r: Result<(), Error>)
        requires
            values.len() == plan.terms().len(),
        ensures
            final(self).smoothing() == old(self).smoothing(),
            match settled(plan.shape(), values@) {
                Err(e) => r is Err && r->Err_0@ == e && final(self).fitted() is None,
                Ok(state) => r is Ok && final(self).fitted() == Some(state),
            },
    {
        proof {
            use_type_invariant(&plan);
        }
        let ghost shape = plan.shape();
        let ghost fault = column_fault(values@);
        self.state = None;
        let global: Double = values[plan.global];
        if !global.is_finite() {
            return Err(Error::plain(Problem::NonFiniteMean, "LeaveOneOutEncoder"));
        }
        let mut names: Vec<Text> = Vec::new();
        let mut columns: Vec<LooFitted> = Vec::new();
        let mut i: usize = 0;
        proof {
            error::lemma_fault_ends(shape.columns, fault);
        }
        while i < plan.columns.len()
            invariant
                i <= plan.columns.len(),
                self.state is None,
                self.alpha == old(self).alpha,
                shape == plan.shape(),
                values.len() == plan.program@.len(),
                forall|k: int|
                    0 <= k < plan.columns.len() ==> column_sound(
                        (#[trigger] plan.columns@[k]).shape(),
                        values@.len(),
                    ),
                global == values@[plan.global as int],
                global.finite(),
                fault == column_fault(values@),
                error::first_fault(shape.columns.take(i as int), fault) is None,
                names.len() == i,
                columns.len() == i,
                forall|k: int|
                    0 <= k < i ==> {
                        &&& (#[trigger] columns@[k]).shown(names@[k]@) == settled_column(
                            shape.columns[k],
                            global,
                            values@,
                        )
                        &&& tally::ascending(text::views(columns@[k].categories@))
                        &&& columns@[k].encoded.len() == columns@[k].categories.len()
                    },
            decreases plan.columns.len() - i,
        {
            let column = &plan.columns[i];
            let ghost seen = column.shape();
            assert(shape.columns[i as int] == seen);
            assert(column_sound(plan.columns@[i as int].shape(), values@.len()));
            proof {
                error::lemma_fault_step(shape.columns, fault, i as int);
                error::lemma_fault_ends(encodings(seen), encoding_fault(seen.name, values@));
            }
            let mut encoded: Vec<Double> = Vec::new();
            let mut c: usize = 0;
            while c < column.encoded.len()
                invariant
                    c <= column.encoded.len(),
                    self.state is None,
                    self.alpha == old(self).alpha,
                    seen == column.shape(),
                    column_sound(seen, values@.len()),
                    error::first_fault(
                        encodings(seen).take(c as int),
                        encoding_fault(seen.name, values@),
                    ) is None,
                    encoded.len() == c,
                    forall|k: int| 0 <= k < c ==> #[trigger] encoded@[k] == values@[seen.encoded[k]],
                    settled(plan.shape(), values@) == settled(shape, values@),
                    global.finite(),
                    shape == plan.shape(),
                    global == values@[plan.global as int],
                    fault == column_fault(values@),
                    fault(seen) is Some ==> error::first_fault(shape.columns, fault) == fault(seen),
                decreases column.encoded.len() - c,
            {
                proof {
                    error::lemma_fault_step(
                        encodings(seen),
                        encoding_fault(seen.name, values@),
                        c as int,
                    );
                    assert(0 <= seen.encoded[c as int] < values@.len());
                }
                let d: Double = values[column.encoded[c]];
                if !d.is_finite() {
                    return Err(
                        Error::detailed(
                            Problem::NonFiniteEncoding,
                            "LeaveOneOutEncoder",
                            &column.name,
                            column.categories[c].duplicate(),
                        ),
                    );
                }
                encoded.push(d);
                c += 1;
            }
            assert(encodings(seen).take(c as int) =~= encodings(seen));
            let mut rows: Vec<Option<Double>> = Vec::new();
            let mut j: usize = 0;
            while j < column.rows.len()
                invariant
                    j <= column.rows.len(),
                    seen == column.shape(),
                    column_sound(seen, values@.len()),
                    rows.len() == j,
                    forall|k: int|
                        0 <= k < j ==> #[trigger] rows@[k] == settled_row(
                            seen.rows[k],
                            global,
                            values@,
                        ),
                decreases column.rows.len() - j,
            {
                assert(seen.rows[j as int] matches Some(Some(at)) ==> 0 <= at < values@.len());
                let row: Option<Double> = match column.rows[j] {
                    None => None,
                    Some(None) => Some(global),
                    Some(Some(at)) => {
                        let d: Double = values[at];
                        if d.is_finite() {
                            Some(d)
                        } else {
                            Some(global)
                        }
                    },
                };
                rows.push(row);
                j += 1;
            }
            let entry: LooFitted = LooFitted {
                categories: text::duplicate_all(&column.categories),
                encoded,
                rows,
            };
            names.push(column.name.duplicate());
            proof {
                let wanted = settled_column(seen, global, values@);
                assert(entry.encoded@ =~= wanted.encoded);
                assert(entry.rows@ =~= wanted.rows);
            }
            columns.push(entry);
            i += 1;
        }
        assert(shape.columns.take(i as int) =~= shape.columns);
        if columns.len() == 0 {
            return Err(Error::plain(Problem::NoTextColumns, "LeaveOneOutEncoder"));
        }
        let LooPlan { source, global: _, columns: _, program: _ } = plan;
        let state: LooState = LooState { source, global, names, columns };
        assert(state.shown().columns =~= settled(shape, values@)->Ok_0.columns);
        self.state = Some(state);
        Ok(())
    }

    /// Which columns of the frame that the encoder was fitted to cannot be
    /// compared with those of a frame: their cells, or those of the columns of
    /// their names, are neither texts nor numbers nor days, or they are not of
    /// one kind. Whether they hold the same cells has to be found out elsewhere.
    pub fn undecided(&self, x: &Frame) -> (r: Vec<usize>)
        ensures
            self.fitted() is None ==> r@ == Seq::<usize>::empty(),
            self.fitted() matches Some(state) ==> {
                &&& forall|m: int|
                    0 <= m < r.len() ==> (#[trigger] r@[m]) < state.source.columns.len()
                        && incomparable(x@, state.source, r@[m] as int)
                &&& forall|m: int, n: int| 0 <= m < n < r.len() ==> r@[m] < r@[n]
                &&& forall|k: int|
                    0 <= k < state.source.columns.len() && incomparable(x@, state.source, k)
                        ==> exists|m: int| 0 <= m < r.len() && #[trigger] r@[m] == k
            },
    {
        let mut r: Vec<usize> = Vec::new();
        let state = match &self.state {
            Some(state) => state,
            None => {
                return r;
            },
        };
        let ghost shown = state.shown();
        let width: usize = state.source.width();
        let mut k: usize = 0;
        while k < width
            invariant
                k <= width,
                width == shown.source.columns.len(),
                shown == state.shown(),
                forall|m: int|
                    0 <= m < r.len() ==> (#[trigger] r@[m]) < k && incomparable(
                        x@,
                        shown.source,
                        r@[m] as int,
                    ),
                forall|m: int, n: int| 0 <= m < n < r.len() ==> r@[m] < r@[n],
                forall|i: int|
                    0 <= i < k && incomparable(x@, shown.source, i) ==> exists|m: int|
                        0 <= m < r.len() && #[trigger] r@[m] == i,
            decreases width - k,
        {
            let column = state.source.column(k);
            let open: bool = match x.find(&column.name) {
                Some(i) => compare_values(&x.column(i).values, &column.values).is_none(),
                None => false,
            };
            let ghost before = r@;
            if open {
                r.push(k);
            }
            proof {
                assert forall|i: int|
                    0 <= i < k + 1 && incomparable(x@, shown.source, i) implies exists|m: int|
                    0 <= m < r.len() && #[trigger] r@[m] == i by {
                    if i < k {
                        let m = choose|m: int| 0 <= m < before.len() && #[trigger] before[m] == i;
                        assert(r@[m] == i);
                    } else {
                        assert(r@[r.len() - 1] == i);
                    }
                }
            }
            k += 1;
        }
        r
    }

    /// Encodes the frame that the encoder was fitted to, its columns in any
    /// order, each row by the other rows of its category. For the columns that
    /// are [`undecided`](LeaveOneOutEncoder::undecided), `alike` says whether
    /// they hold the same cells.
    pub fn transform(&self, x: &Frame, alike: &Vec<bool>) -> (r: Result<Sheet, Error>)
        ensures
            frame::outcome(r) == loo_outcome(self.fitted(), x@, alike@),
    {
        proof {
            use_type_invariant(self);
        }
        let state = match &self.state {
            Some(state) => state,
            None => {
                return Err(Error::plain(Problem::NotFitted, "LeaveOneOutEncoder"));
            },
        };
        let ghost shown = state.shown();
        let width: usize = x.width();
        if width != state.source.width() {
            return Err(Error::plain(Problem::NotTrainingFrame, "LeaveOneOutEncoder"));
        }
        let mut k: usize = 0;
        while k < width
            invariant
                k <= width,
                width == shown.source.columns.len(),
                width == x@.columns.len(),
                shown == state.shown(),
                self.fitted() == Some(shown),
                forall|m: int|
                    0 <= m < k ==> holds_column(x@, shown.source, alike@, m),
            decreases width - k,
        {
            let column = state.source.column(k);
            let same: bool = match x.find(&column.name) {
                Some(i) => match compare_values(&x.column(i).values, &column.values) {
                    Some(same) => same,
                    None => k < alike.len() && alike[k],
                },
                None => false,
            };
            if !same {
                assert(!holds_column(x@, shown.source, alike@, k as int));
                return Err(Error::plain(Problem::NotTrainingFrame, "LeaveOneOutEncoder"));
            }
            k += 1;
        }
        let ghost names = fitted_names(shown.columns);
        assert(text::views(state.names@) =~= names);
        let ghost wanted = loo_outcome(self.fitted(), x@, alike@)->Ok_0;
        let ghost none = Seq::<Term>::empty();
        let mut columns: Vec<SheetColumn> = Vec::new();
        let mut i: usize = 0;
        while i < width
            invariant
                i <= width,
                width == x@.columns.len(),
                columns.len() == i,
                shown == state.shown(),
                state.sound(),
                self.fitted() == Some(shown),
                same_frame(x@, shown.source, alike@),
                names == fitted_names(shown.columns),
                names == text::views(state.names@),
                wanted == loo_outcome(self.fitted(), x@, alike@)->Ok_0,
                none == Seq::<Term>::empty(),
                forall|m: int|
                    0 <= m < i ==> frame::sheet_column(#[trigger] columns@[m], none)
                        == wanted.columns[m],
            decreases width - i,
        {
            let column = x.column(i);
            match text::find(&state.names, &column.name) {
                Some(at) => {
                    assert(shown.columns[at as int] == state.columns@[at as int].shown(
                        state.names@[at as int]@,
                    ));
                    columns.push(make_known(&column.name, &state.columns[at].rows));
                },
                None => {
                    columns.push(
                        SheetColumn { name: column.name.duplicate(), cells: Cells::Kept(i) },
                    );
                },
            }
            i += 1;
        }
        assert(frame::sheet_columns(columns@, none) =~= wanted.columns);
        Ok(Sheet { height: x.height(), columns, program: Program::new() })
    }

    /// Encodes new data, each category by all rows of it that were learned.
    pub fn transform_unseen(&self, x: &Frame) -> (r: Result<Sheet, Error>)
        ensures
            frame::outcome(r) == unseen_outcome(self.fitted(), x@),
    {
        proof {
            use_type_invariant(self);
        }
        let state = match &self.state {
            Some(state) => state,
            None => {
                return Err(Error::plain(Problem::NotFitted, "LeaveOneOutEncoder"));
            },
        };
        let ghost shown = state.shown();
        let ghost names = fitted_names(shown.columns);
        let ghost fault = encoder::text_fault("LeaveOneOutEncoder"@, x@);
        assert(text::views(state.names@) =~= names);
        let mut k: usize = 0;
        proof {
            error::lemma_fault_ends(names, fault);
        }
        while k < state.names.len()
            invariant
                k <= state.names.len(),
                self.fitted() == Some(shown),
                names == fitted_names(shown.columns),
                names == text::views(state.names@),
                fault == encoder::text_fault("LeaveOneOutEncoder"@, x@),
                error::first_fault(names.take(k as int), fault) is None,
            decreases state.names.len() - k,
        {
            proof {
                error::lemma_fault_step(names, fault, k as int);
            }
            assert(names[k as int] == state.names@[k as int]@);
            match encoder::find_text("LeaveOneOutEncoder", x, &state.names[k]) {
                Ok(_) => {},
                Err(e) => {
                    assert(error::first_fault(names, fault) == Some(e@));
                    return Err(e);
                },
            }
            k += 1;
        }
        assert(names.take(k as int) =~= names);
        proof {
            error::lemma_faultless(names, fault);
        }
        let ghost wanted = unseen_outcome(self.fitted(), x@)->Ok_0;
        let ghost none = Seq::<Term>::empty();
        let width: usize = x.width();
        let mut columns: Vec<SheetColumn> = Vec::new();
        let mut i: usize = 0;
        while i < width
            invariant
                i <= width,
                width == x@.columns.len(),
                x@.valid(),
                columns.len() == i,
                shown == state.shown(),
                state.sound(),
                self.fitted() == Some(shown),
                names == fitted_names(shown.columns),
                names == text::views(state.names@),
                fault == encoder::text_fault("LeaveOneOutEncoder"@, x@),
                error::first_fault(names, fault) is None,
                forall|m: int| 0 <= m < names.len() ==> fault(#[trigger] names[m]) is None,
                wanted == unseen_outcome(self.fitted(), x@)->Ok_0,
                none == Seq::<Term>::empty(),
                forall|m: int|
                    0 <= m < i ==> frame::sheet_column(#[trigger] columns@[m], none)
                        == wanted.columns[m],
            decreases width - i,
        {
            let column = x.column(i);
            match text::find(&state.names, &column.name) {
                Some(at) => {
                    let entry = &state.columns[at];
                    let ghost learned = shown.columns[at as int];
                    proof {
                        assert(learned == entry.shown(state.names@[at as int]@));
                        assert(names[at as int] == column.name@);
                        frame::lemma_find(x@, column.name@, i as int);
                    }
                    match &column.values {
                        Values::Text(cells) => {
                            let ghost seen = frame::gap_views(cells@);
                            let mut rows: Vec<Option<Double>> = Vec::new();
                            let mut j: usize = 0;
                            while j < cells.len()
                                invariant
                                    j <= cells.len(),
                                    rows.len() == j,
                                    seen == frame::gap_views(cells@),
                                    learned.categories == text::views(entry.categories@),
                                    learned.encoded == entry.encoded@,
                                    tally::ascending(learned.categories),
                                    learned.encoded.len() == learned.categories.len(),
                                    state.global == shown.global,
                                    forall|m: int|
                                        0 <= m < j ==> #[trigger] rows@[m] == unseen_cell(
                                            learned,
                                            shown.global,
                                            seen[m],
                                        ),
                                decreases cells.len() - j,
                            {
                                let row: Option<Double> = match &cells[j] {
                                    Some(v) => {
                                        let found: Option<usize> = tally::find(
                                            &entry.categories,
                                            v,
                                        );
                                        proof {
                                            lemma_ascending_position(
                                                learned.categories,
                                                v@,
                                                found,
                                            );
                                        }
                                        match found {
                                            Some(c) => Some(entry.encoded[c]),
                                            None => Some(state.global),
                                        }
                                    },
                                    None => None,
                                };
                                rows.push(row);
                                j += 1;
                            }
                            columns.push(make_known(&column.name, &rows));
                            assert(rows@ =~= Seq::new(
                                seen.len(),
                                |m: int| unseen_cell(learned, shown.global, seen[m]),
                            ));
                        },
                        _ => {
                            assert(false);
                        },
                    }
                },
                None => {
                    columns.push(
                        SheetColumn { name: column.name.duplicate(), cells: Cells::Kept(i) },
                    );
                },
            }
            i += 1;
        }
        assert(frame::sheet_columns(columns@, none) =~= wanted.columns);
        Ok(Sheet { height: x.height(), columns, program: Program::new() })
    }
}

impl Default for LeaveOneOutEncoder {
    fn default() -> (r: LeaveOneOutEncoder)
        ensures
            r.fitted() is None,
            r.smoothing() == (Double { bits: 0 }),
    {
        LeaveOneOutEncoder::new()
    }
}

/// In an ascending list an item has one place.
proof fn lemma_ascending_position(list: Seq<Seq<char>>, item: Seq<char>, found: Option<usize>)
    requires
        tally::ascending(list),
        match found {
            Some(i) => i < list.len() && list[i as int] == item,
            None => !list.contains(item),
        },
    ensures
        match found {
            Some(i) => text::position(list, item) == Some(i as int),
            None => text::position(list, item) is None,
        },
{
    text::lemma_position(list, item);
    match found {
        Some(i) => {
            assert(list.contains(item));
            let k = text::position(list, item)->0;
            if k < i {
                text::lemma_less_asymmetric(list[k], list[i as int]);
            } else if i < k {
                text::lemma_less_asymmetric(list[i as int], list[k]);
            }
        },
        None => {
            if text::position(list, item) is Some {
                assert(list.contains(item));
            }
        },
    }
}

/// The sum of a list of numbers in exact arithmetic.
pub open spec fn exact_sum(values: Seq<Double>, value: spec_fn(Double) -> real) -> real
    decreases values.len(),
{
    if values.len() == 0 {
        0 as real
    } else {
        exact_sum(values.drop_last(), value) + value(values.last())
    }
}

/// In exact arithmetic a running mean is the sum over the number.
pub proof fn law_running_mean(values: Seq<Double>, value: spec_fn(Double) -> real)
    requires
        values.len() > 0,
    ensures
        program::exact(running_mean(values), value) == exact_sum(values, value) / (values.len()
            as int as real),
    decreases values.len(),
{
    reveal_with_fuel(program::exact, 4);
    let n = values.len() as int as real;
    let front = values.drop_last();
    let v = value(values.last());
    let before = program::exact(running_mean(front), value);
    assert(program::exact(running_mean(values), value) == before + (v - before) / n);
    if front.len() > 0 {
        law_running_mean(front, value);
        let m = front.len() as int as real;
        let sum = exact_sum(front, value);
        assert(n == m + 1 as real);
        assert(before == sum / m);
        assert(before + (v - before) / n == (sum + v) / n) by (nonlinear_arith)
            requires
                before == sum / m,
                n == m + 1 as real,
                m > 0 as real,
        ;
    } else {
        assert(n == 1 as real);
        assert(exact_sum(front, value) == 0 as real);
        assert(before + (v - before) / n == (0 as real + v) / n) by (nonlinear_arith)
            requires
                n == 1 as real,
        ;
    }
}

/// In exact arithmetic a mean without a target is
/// `((sum - y) + alpha * global) / ((n - 1) + alpha)`.
proof fn lemma_target_left_out(
    pairs: Seq<(Seq<char>, Double)>,
    category: Seq<char>,
    y: Double,
    alpha: Double,
    global: Term,
    value: spec_fn(Double) -> real,
)
    requires
        y.finite(),
        members(pairs, category).len() >= 2,
        value(alpha) >= 0 as real,
        value(Double { bits: crate::double::ONE }) == 1 as real,
    ensures
        row_plan(Some(category), Some(y), pairs, alpha, global) matches Some(Some(term))
            && program::exact(term, value) == ((exact_sum(members(pairs, category), value)
            - value(y)) + value(alpha) * program::exact(global, value)) / (((members(
            pairs,
            category,
        ).len() - 1) as real) + value(alpha)),
{
    reveal_with_fuel(program::exact, 4);
    let own = members(pairs, category);
    let mean = running_mean(own);
    let left = (own.len() - 1) as nat;
    let base = mean_without(mean, y, left);
    law_running_mean(own, value);
    let n = own.len() as int as real;
    let k = left as int as real;
    let sum = exact_sum(own, value);
    let m = program::exact(mean, value);
    let v = value(y);
    let a = value(alpha);
    let g = program::exact(global, value);
    assert(n == k + 1 as real);
    assert(program::exact(base, value) == m + (m - v) / k);
    assert(m + (m - v) / k == (sum - v) / k) by (nonlinear_arith)
        requires
            m == sum / n,
            n == k + 1 as real,
            k > 0 as real,
    ;
    lemma_blended(left, alpha, base, global, value);
    let b = program::exact(base, value);
    assert(k * b == sum - v) by (nonlinear_arith)
        requires
            b == (sum - v) / k,
            k > 0 as real,
    ;
}

/// The targets of the other rows that have the category of row `i`, in order.
pub open spec fn other_targets(
    cells: Seq<Option<Seq<char>>>,
    ys: Seq<Option<Double>>,
    i: int,
) -> Seq<Double> {
    members(usable_pairs(cells.remove(i), ys.remove(i)), cells[i]->0)
}

/// The targets of a category are those of the other rows, and the row's own.
proof fn lemma_other_targets(
    cells: Seq<Option<Seq<char>>>,
    ys: Seq<Option<Double>>,
    i: int,
    value: spec_fn(Double) -> real,
)
    requires
        cells.len() == ys.len(),
        0 <= i < cells.len(),
        cells[i] is Some,
    ensures
        ({
            let own = members(usable_pairs(cells, ys), cells[i]->0);
            let others = other_targets(cells, ys, i);
            if usable(ys[i]) {
                &&& own.len() == others.len() + 1
                &&& exact_sum(own, value) == exact_sum(others, value) + value(ys[i]->0)
            } else {
                own == others
            }
        }),
    decreases cells.len(),
{
    let category = cells[i]->0;
    let (a, b) = (cells.drop_last(), ys.drop_last());
    let pairs = usable_pairs(a, b);
    if i == cells.len() - 1 {
        assert(cells.remove(i) =~= a);
        assert(ys.remove(i) =~= b);
        if usable(ys[i]) {
            let all = pairs.push((category, ys[i]->0));
            assert(usable_pairs(cells, ys) == all);
            assert(all.drop_last() =~= pairs);
            let front = members(pairs, category);
            assert(front.push(ys[i]->0).drop_last() =~= front);
        }
    } else {
        lemma_other_targets(a, b, i, value);
        let (c, d) = (cells.remove(i), ys.remove(i));
        assert(c.drop_last() =~= a.remove(i));
        assert(d.drop_last() =~= b.remove(i));
        let fewer = usable_pairs(a.remove(i), b.remove(i));
        if cells.last() is Some && usable(ys.last()) {
            let last = (cells.last()->0, ys.last()->0);
            assert(pairs.push(last).drop_last() =~= pairs);
            assert(fewer.push(last).drop_last() =~= fewer);
            if last.0 == category {
                let (own, others) = (members(pairs, category), members(fewer, category));
                assert(own.push(last.1).drop_last() =~= own);
                assert(others.push(last.1).drop_last() =~= others);
            }
        }
    }
}

/// The encoding of row `i` of a column that the encoder is fitted to: missing
/// for a missing category, the mean of all where no other row with a target has
/// the category, and else, in exact arithmetic,
/// `(sum + alpha * global) / (n + alpha)` over the targets of the `n` other rows
/// that have it.
pub open spec fn encodes_others(
    plan: Option<Option<Term>>,
    cells: Seq<Option<Seq<char>>>,
    ys: Seq<Option<Double>>,
    i: int,
    alpha: Double,
    global: Term,
    value: spec_fn(Double) -> real,
) -> bool {
    let others = other_targets(cells, ys, i);
    match plan {
        None => cells[i] is None,
        Some(None) => cells[i] is Some && others.len() == 0,
        Some(Some(term)) => {
            &&& cells[i] is Some
            &&& others.len() > 0
            &&& program::exact(term, value) == (exact_sum(others, value) + value(alpha)
                * program::exact(global, value)) / (others.len() as int as real + value(alpha))
        },
    }
}

/// The encoding of a row that the encoder is fitted to is that of the other
/// rows of its category; the row's own target is not in it.
pub proof fn law_own_target_left_out(
    cells: Seq<Option<Seq<char>>>,
    ys: Seq<Option<Double>>,
    i: int,
    alpha: Double,
    global: Term,
    value: spec_fn(Double) -> real,
)
    requires
        cells.len() == ys.len(),
        0 <= i < cells.len(),
        value(alpha) >= 0 as real,
        value(Double { bits: crate::double::ONE }) == 1 as real,
    ensures
        encodes_others(
            row_plan(cells[i], ys[i], usable_pairs(cells, ys), alpha, global),
            cells,
            ys,
            i,
            alpha,
            global,
            value,
        ),
{
    if let Some(category) = cells[i] {
        let pairs = usable_pairs(cells, ys);
        let own = members(pairs, category);
        let others = other_targets(cells, ys, i);
        lemma_other_targets(cells, ys, i, value);
        if usable(ys[i]) {
            if others.len() > 0 {
                lemma_target_left_out(pairs, category, ys[i]->0, alpha, global, value);
                assert((own.len() - 1) as real == others.len() as int as real);
            }
        } else if others.len() > 0 {
            law_running_mean(own, value);
            lemma_blended(own.len(), alpha, running_mean(own), global, value);
            let n = own.len() as int as real;
            let (m, sum) = (program::exact(running_mean(own), value), exact_sum(own, value));
            assert(n * m == sum) by (nonlinear_arith)
                requires
                    m == sum / n,
                    n > 0 as real,
            ;
        }
    }
}

/// Every row of a frame that the encoder is fitted to is encoded by the other
/// rows with its category, in each text column; `k` is the place of the column
/// among the text columns.
pub proof fn law_training_rows(
    alpha: Double,
    x: FrameView,
    y: FrameView,
    c: int,
    i: int,
    value: spec_fn(Double) -> real,
) -> (k: int)
    requires
        x.valid(),
        y.valid(),
        plan_fault(alpha, x, y) is None,
        0 <= c < x.columns.len(),
        x.columns[c].values is Text,
        0 <= i < x.height,
        value(alpha) >= 0 as real,
        value(Double { bits: crate::double::ONE }) == 1 as real,
    ensures
        ({
            let plan = whole_plan(alpha, x, y);
            &&& 0 <= k < plan.columns.len()
            &&& plan.columns[k].name == x.columns[c].name
            &&& plan.columns[k].rows.len() == x.height
            &&& encodes_others(
                plan.columns[k].rows[i],
                x.columns[c].values->Text_0,
                target_cells(y),
                i,
                alpha,
                plan.global,
                value,
            )
        }),
{
    let plan = whole_plan(alpha, x, y);
    let ys = target_cells(y);
    let cells = x.columns[c].values->Text_0;
    assert(x.columns[c].values.len() == x.height);
    assert(y.columns[0].values.len() == y.height);
    law_own_target_left_out(cells, ys, i, alpha, plan.global, value);
    lemma_column_planned(x.columns, ys, alpha, plan.global, c)
}

/// The names of planned columns.
spec fn planned_names<T>(columns: Seq<LooColumnView<T>>) -> Seq<Seq<char>> {
    Seq::new(columns.len(), |i: int| columns[i].name)
}

/// A planned column is one of the text columns.
proof fn lemma_planned_name(
    columns: Seq<ColumnView>,
    ys: Seq<Option<Double>>,
    alpha: Double,
    global: Term,
    k: int,
) -> (c: int)
    requires
        0 <= k < columns_plan(columns, ys, alpha, global).len(),
    ensures
        0 <= c < columns.len(),
        columns[c].values is Text,
        columns_plan(columns, ys, alpha, global)[k].name == columns[c].name,
    decreases columns.len(),
{
    let front = columns_plan(columns.drop_last(), ys, alpha, global);
    if k < front.len() {
        let c = lemma_planned_name(columns.drop_last(), ys, alpha, global, k);
        assert(columns.drop_last()[c] == columns[c]);
        c
    } else {
        columns.len() - 1
    }
}

/// A text column has its plan, which is found by its name.
proof fn lemma_column_planned(
    columns: Seq<ColumnView>,
    ys: Seq<Option<Double>>,
    alpha: Double,
    global: Term,
    c: int,
) -> (k: int)
    requires
        0 <= c < columns.len(),
        columns[c].values is Text,
        forall|i: int, j: int|
            0 <= i < j < columns.len() ==> (#[trigger] columns[i]).name != (
            #[trigger] columns[j]).name,
    ensures
        0 <= k < columns_plan(columns, ys, alpha, global).len(),
        columns_plan(columns, ys, alpha, global)[k] == column_plan(
            columns[c].name,
            columns[c].values->Text_0,
            ys,
            alpha,
            global,
        ),
        text::position(
            planned_names(columns_plan(columns, ys, alpha, global)),
            columns[c].name,
        ) == Some(k),
    decreases columns.len(),
{
    let plan = columns_plan(columns, ys, alpha, global);
    let rest = columns.drop_last();
    let front = columns_plan(rest, ys, alpha, global);
    let name = columns[c].name;
    if plan.len() > front.len() {
        assert(planned_names(plan).drop_last() =~= planned_names(front));
    } else {
        assert(planned_names(plan) =~= planned_names(front));
    }
    if c == columns.len() - 1 {
        text::lemma_position(planned_names(front), name);
        if let Some(m) = text::position(planned_names(front), name) {
            let d = lemma_planned_name(rest, ys, alpha, global, m);
            assert(rest[d] == columns[d]);
        }
        front.len() as int
    } else {
        assert(rest[c] == columns[c]);
        assert forall|i: int, j: int| 0 <= i < j < rest.len() implies (#[trigger] rest[i]).name != (
        #[trigger] rest[j]).name by {
            assert(rest[i] == columns[i] && rest[j] == columns[j]);
        }
        lemma_column_planned(rest, ys, alpha, global, c)
    }
}

/// What a number of a plan's program stands for: the program's term in its
/// place, or the mean of all where the number is not finite.
pub open spec fn stands_for(
    cell: Option<Double>,
    plan: Option<Option<Term>>,
    global: Double,
    terms: Seq<Term>,
    values: Seq<Double>,
) -> bool {
    match plan {
        None => cell is None,
        Some(None) => cell == Some(global),
        Some(Some(term)) => exists|at: int|
            0 <= at < terms.len() && #[trigger] terms[at] == term && cell == Some(
                if values[at].finite() {
                    values[at]
                } else {
                    global
                },
            ),
    }
}

/// The frame that an encoder was fitted to is encoded with all its rows and
/// columns, in their order. In a text column each row gets what the program
/// computes for it, which is the encoding by the other rows of its category;
/// every other column is kept.
pub proof fn law_training_frame_encoded(
    plan: LooPlanView<int>,
    terms: Seq<Term>,
    alpha: Double,
    x: FrameView,
    y: FrameView,
    values: Seq<Double>,
    alike: Seq<bool>,
    c: int,
    i: int,
    value: spec_fn(Double) -> real,
)
    requires
        x.valid(),
        y.valid(),
        forall|k: int|
            0 <= k < x.columns.len() && #[trigger] incomparable(x, x, k) ==> k
                < alike.len() && alike[k],
        plan_fault(alpha, x, y) is None,
        resolved(plan, terms) == whole_plan(alpha, x, y),
        plan_sound(plan, terms.len()),
        settled(plan, values) is Ok,
        0 <= c < x.columns.len(),
        0 <= i < x.height,
        value(alpha) >= 0 as real,
        value(Double { bits: crate::double::ONE }) == 1 as real,
    ensures
        ({
            let outcome = loo_outcome(Some(settled(plan, values)->Ok_0), x, alike);
            let made = outcome->Ok_0.columns[c];
            let ys = target_cells(y);
            &&& outcome is Ok
            &&& outcome->Ok_0.height == x.height
            &&& outcome->Ok_0.columns.len() == x.columns.len()
            &&& made.name == x.columns[c].name
            &&& match x.columns[c].values {
                ValuesView::Text(cells) => exists|row: Option<Option<Term>>, cell: Option<Double>|
                    {
                        &&& #[trigger] stands_for(cell, row, values[plan.global], terms, values)
                        &&& encodes_others(
                            row,
                            cells,
                            ys,
                            i,
                            alpha,
                            running_mean(usable_targets(ys)),
                            value,
                        )
                        &&& (made.cells->Float64_0)[i] == match cell {
                            None => None,
                            Some(d) => Some(Term::Value(d)),
                        }
                    },
                _ => made.cells == CellsView::Kept(c),
            }
        }),
{
    let state = settled(plan, values)->Ok_0;
    let whole = whole_plan(alpha, x, y);
    let ys = target_cells(y);
    let name = x.columns[c].name;
    assert(whole.source == x);
    assert forall|k: int| 0 <= k < x.columns.len() implies x.columns.contains(
        #[trigger] x.columns[k],
    ) by {}
    law_training_frame(x, x, alike);
    assert(whole.columns.len() == plan.columns.len());
    assert forall|k: int| 0 <= k < plan.columns.len() implies #[trigger] whole.columns[k]
        == resolved_column(plan.columns[k], terms) by {
        assert(resolved(plan, terms).columns[k] == whole.columns[k]);
    }
    assert(fitted_names(state.columns) =~= planned_names(whole.columns)) by {
        assert forall|k: int| 0 <= k < plan.columns.len() implies fitted_names(state.columns)[k]
            == planned_names(whole.columns)[k] by {
            assert(whole.columns[k] == resolved_column(plan.columns[k], terms));
        }
    }
    match x.columns[c].values {
        ValuesView::Text(cells) => {
            let m = lemma_column_planned(x.columns, ys, alpha, whole.global, c);
            law_own_target_left_out(cells, ys, i, alpha, whole.global, value);
            assert(x.columns[c].values.len() == x.height);
            assert(y.columns[0].values.len() == y.height);
            let row = whole.columns[m].rows[i];
            let shape = plan.columns[m];
            assert(whole.columns[m] == resolved_column(shape, terms));
            assert(column_sound(shape, terms.len()));
            let cell = state.columns[m].rows[i];
            assert(whole.columns[m].rows.len() == cells.len());
            assert(resolved_column(shape, terms).rows.len() == shape.rows.len());
            if let Some(Some(at)) = shape.rows[i] {
                assert(terms[at] == row->0->0);
            }
            assert(stands_for(cell, row, values[plan.global], terms, values));
        },
        _ => {
            text::lemma_position(planned_names(whole.columns), name);
            if let Some(m) = text::position(planned_names(whole.columns), name) {
                let d = lemma_planned_name(x.columns, ys, alpha, whole.global, m);
                if d < c {
                    assert(x.columns[d].name != x.columns[c].name);
                } else if c < d {
                    assert(x.columns[c].name != x.columns[d].name);
                }
            }
        },
    }
}

/// Without smoothing another target for row `i` leaves the row's encoding as it
/// is, in exact arithmetic, where some other row has its category; a row that
/// is alone has the mean of all, before and after.
pub proof fn law_own_target_without_influence(
    cells: Seq<Option<Seq<char>>>,
    ys: Seq<Option<Double>>,
    i: int,
    y: Option<Double>,
    alpha: Double,
    global: Term,
    other: Term,
    value: spec_fn(Double) -> real,
)
    requires
        cells.len() == ys.len(),
        0 <= i < cells.len(),
        value(alpha) == 0 as real,
        value(Double { bits: crate::double::ONE }) == 1 as real,
    ensures
        ({
            let before = row_plan(cells[i], ys[i], usable_pairs(cells, ys), alpha, global);
            let after = row_plan(
                cells[i],
                y,
                usable_pairs(cells, ys.update(i, y)),
                alpha,
                other,
            );
            match (before, after) {
                (None, None) => cells[i] is None,
                (Some(None), Some(None)) => other_targets(cells, ys, i).len() == 0,
                (Some(Some(a)), Some(Some(b))) => program::exact(a, value) == program::exact(
                    b,
                    value,
                ),
                _ => false,
            }
        }),
{
    let changed = ys.update(i, y);
    law_own_target_left_out(cells, ys, i, alpha, global, value);
    law_own_target_left_out(cells, changed, i, alpha, other, value);
    assert(changed.remove(i) =~= ys.remove(i));
    let (g, h) = (program::exact(global, value), program::exact(other, value));
    assert(0real * g == 0real && 0real * h == 0real) by (nonlinear_arith);
}

/// In exact arithmetic blending weighs the mean by its rows and the mean of
/// all by the smoothing strength.
proof fn lemma_blended(
    n: nat,
    alpha: Double,
    mean: Term,
    global: Term,
    value: spec_fn(Double) -> real,
)
    requires
        n >= 1,
        value(alpha) >= 0 as real,
        value(Double { bits: crate::double::ONE }) == 1 as real,
    ensures
        program::exact(blended(n, alpha, mean, global), value) == (n as int as real
            * program::exact(mean, value) + value(alpha) * program::exact(global, value)) / (
        n as int as real + value(alpha)),
{
    reveal_with_fuel(program::exact, 5);
    let k = n as int as real;
    let a = value(alpha);
    let b = program::exact(mean, value);
    let g = program::exact(global, value);
    let w = program::exact(weight(n, alpha), value);
    assert(w == k / (k + a));
    assert(program::exact(blended(n, alpha, mean, global), value) == w * b + (1 as real - w) * g);
    assert(w * b + (1 as real - w) * g == (k * b + a * g) / (k + a)) by (nonlinear_arith)
        requires
            w == k / (k + a),
            k > 0 as real,
            a >= 0 as real,
    ;
}

/// Whether row `i` has a category and a target that can be used.
pub open spec fn row_counts(
    cells: Seq<Option<Seq<char>>>,
    ys: Seq<Option<Double>>,
    category: Seq<char>,
) -> spec_fn(int) -> bool {
    |i: int| cells[i] == Some(category) && ys[i] is Some && (ys[i]->0).finite()
}

/// The target of each row that has a category and a target that can be used, and
/// zero for the other rows.
pub open spec fn row_amounts(
    cells: Seq<Option<Seq<char>>>,
    ys: Seq<Option<Double>>,
    category: Seq<char>,
    value: spec_fn(Double) -> real,
) -> Seq<real> {
    Seq::new(
        cells.len(),
        |i: int|
            if cells[i] == Some(category) && ys[i] is Some && (ys[i]->0).finite() {
                value(ys[i]->0)
            } else {
                0real
            },
    )
}

/// The targets of a category, by the rows that have it.
proof fn lemma_row_amounts(
    cells: Seq<Option<Seq<char>>>,
    ys: Seq<Option<Double>>,
    category: Seq<char>,
    value: spec_fn(Double) -> real,
)
    requires
        cells.len() == ys.len(),
    ensures
        ({
            let own = members(usable_pairs(cells, ys), category);
            &&& own.len() == count::counted(cells.len(), row_counts(cells, ys, category))
            &&& exact_sum(own, value) == reals::total(row_amounts(cells, ys, category, value))
        }),
    decreases cells.len(),
{
    if cells.len() > 0 {
        let (a, b) = (cells.drop_last(), ys.drop_last());
        lemma_row_amounts(a, b, category, value);
        count::lemma_agreeing(
            a.len(),
            row_counts(a, b, category),
            row_counts(cells, ys, category),
        );
        assert(row_amounts(cells, ys, category, value).drop_last() =~= row_amounts(
            a,
            b,
            category,
            value,
        ));
        if cells.last() is Some && usable(ys.last()) {
            let pairs = usable_pairs(a, b);
            let last = (cells.last()->0, ys.last()->0);
            assert(pairs.push(last).drop_last() =~= pairs);
            if last.0 == category {
                let own = members(pairs, category);
                assert(own.push(last.1).drop_last() =~= own);
            }
        }
    } else {
        assert(row_amounts(cells, ys, category, value) =~= Seq::empty());
    }
}

/// New data of a category is encoded by all rows that have it and a target: by the
/// sum of their targets and `alpha` times the mean of all, over their number and
/// `alpha`. In exact arithmetic.
pub proof fn law_category_encoded(
    cells: Seq<Option<Seq<char>>>,
    ys: Seq<Option<Double>>,
    category: Seq<char>,
    alpha: Double,
    global: Term,
    value: spec_fn(Double) -> real,
)
    requires
        cells.len() == ys.len(),
        count::counted(cells.len(), row_counts(cells, ys, category)) > 0,
        value(alpha) >= 0real,
        value(Double { bits: 0x3ff0_0000_0000_0000 }) == 1real,
    ensures
        program::exact(full_mean(usable_pairs(cells, ys), category, alpha, global), value) == (
        reals::total(row_amounts(cells, ys, category, value)) + value(alpha) * program::exact(
            global,
            value,
        )) / (count::counted(cells.len(), row_counts(cells, ys, category)) as int as real + value(
            alpha,
        )),
{
    let own = members(usable_pairs(cells, ys), category);
    lemma_row_amounts(cells, ys, category, value);
    law_running_mean(own, value);
    lemma_blended(own.len(), alpha, running_mean(own), global, value);
    let n = own.len() as int as real;
    let sum = exact_sum(own, value);
    calculus::lemma_quotient(sum, n);
    let m = sum / n;
    assert(m * n == n * m) by (nonlinear_arith);
}

/// Whether row `i` has a target that can be used.
pub open spec fn target_counts(ys: Seq<Option<Double>>) -> spec_fn(int) -> bool {
    |i: int| ys[i] is Some && (ys[i]->0).finite()
}

/// The target of each row that has one that can be used, and zero for the other
/// rows.
pub open spec fn target_amounts(
    ys: Seq<Option<Double>>,
    value: spec_fn(Double) -> real,
) -> Seq<real> {
    Seq::new(
        ys.len(),
        |i: int|
            if ys[i] is Some && (ys[i]->0).finite() {
                value(ys[i]->0)
            } else {
                0real
            },
    )
}

/// The targets that can be used, by their rows.
proof fn lemma_target_amounts(ys: Seq<Option<Double>>, value: spec_fn(Double) -> real)
    ensures
        usable_targets(ys).len() == count::counted(ys.len(), target_counts(ys)),
        exact_sum(usable_targets(ys), value) == reals::total(target_amounts(ys, value)),
    decreases ys.len(),
{
    if ys.len() > 0 {
        let front = ys.drop_last();
        lemma_target_amounts(front, value);
        count::lemma_agreeing(front.len(), target_counts(front), target_counts(ys));
        assert(target_amounts(ys, value).drop_last() =~= target_amounts(front, value));
        if usable(ys.last()) {
            let list = usable_targets(front);
            assert(list.push(ys.last()->0).drop_last() =~= list);
        }
    } else {
        assert(target_amounts(ys, value) =~= Seq::empty());
    }
}

/// The mean of all, which stands for categories that were not learned, is the sum
/// of all targets that can be used over their number. In exact arithmetic.
pub proof fn law_mean_of_all(
    alpha: Double,
    x: FrameView,
    y: FrameView,
    value: spec_fn(Double) -> real,
)
    requires
        count::counted(target_cells(y).len(), target_counts(target_cells(y))) > 0,
    ensures
        ({
            let ys = target_cells(y);
            program::exact(whole_plan(alpha, x, y).global, value) == reals::total(
                target_amounts(ys, value),
            ) / (count::counted(ys.len(), target_counts(ys)) as int as real)
        }),
{
    let ys = target_cells(y);
    lemma_target_amounts(ys, value);
    law_running_mean(usable_targets(ys), value);
}

/// What is planned for the categories of a column: every text that a row with a
/// target that can be used holds, each once, and for each the sum of the targets of
/// its rows and `alpha` times the mean of all, over their number and `alpha`. In
/// exact arithmetic.
pub proof fn law_categories_planned(
    name: Seq<char>,
    cells: Seq<Option<Seq<char>>>,
    ys: Seq<Option<Double>>,
    alpha: Double,
    global: Term,
    category: Seq<char>,
    value: spec_fn(Double) -> real,
)
    requires
        cells.len() == ys.len(),
        value(alpha) >= 0real,
        value(Double { bits: 0x3ff0_0000_0000_0000 }) == 1real,
    ensures
        ({
            let plan = column_plan(name, cells, ys, alpha, global);
            let n = count::counted(cells.len(), row_counts(cells, ys, category));
            &&& plan.encoded.len() == plan.categories.len()
            &&& plan.categories.contains(category) <==> n > 0
            &&& tally::ascending(plan.categories)
            &&& forall|k: int|
                0 <= k < plan.categories.len() && #[trigger] plan.categories[k] == category
                    ==> program::exact(plan.encoded[k], value) == (reals::total(
                    row_amounts(cells, ys, category, value),
                ) + value(alpha) * program::exact(global, value)) / (n as int as real + value(
                    alpha,
                ))
        }),
{
    let pairs = usable_pairs(cells, ys);
    let plan = column_plan(name, cells, ys, alpha, global);
    tally::law_distinct(pair_categories(pairs));
    lemma_row_amounts(cells, ys, category, value);
    lemma_has_members(pairs, category);
    if plan.categories.contains(category) {
        law_category_encoded(cells, ys, category, alpha, global, value);
    }
    assert forall|k: int|
        0 <= k < plan.categories.len() && #[trigger] plan.categories[k] == category implies
        plan.categories.contains(category) by {}
}

/// A category has targets if it is one of the pairs'.
proof fn lemma_has_members(pairs: Seq<(Seq<char>, Double)>, category: Seq<char>)
    ensures
        members(pairs, category).len() > 0 <==> pair_categories(pairs).contains(category),
    decreases pairs.len(),
{
    let all = pair_categories(pairs);
    if pairs.len() > 0 {
        let front = pairs.drop_last();
        let some = pair_categories(front);
        lemma_has_members(front, category);
        if some.contains(category) {
            let k = choose|k: int| 0 <= k < some.len() && some[k] == category;
            assert(all[k] == category);
        }
        if all.contains(category) {
            let k = choose|k: int| 0 <= k < all.len() && all[k] == category;
            if k < front.len() {
                assert(some[k] == category);
            }
        }
        if pairs.last().0 == category {
            assert(all[pairs.len() - 1] == category);
        }
    }
}

} // verus!
