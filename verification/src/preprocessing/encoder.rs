//! Categorical encoding.
//!
//! The encoders learn the categories of each text column: its distinct
//! values, in ascending order, and how often each occurs.

use crate::calculus;
use crate::count;
use crate::double::Double;
use crate::error;
use crate::error::Error;
use crate::error::ErrorView;
use crate::error::Problem;
use crate::frame;
use crate::frame::Cells;
use crate::frame::CellsView;
use crate::frame::ColumnView;
use crate::frame::Frame;
use crate::frame::FrameView;
use crate::frame::Number;
use crate::frame::Sheet;
use crate::frame::SheetColumn;
use crate::frame::SheetColumnView;
use crate::frame::SheetView;
use crate::frame::Values;
use crate::frame::ValuesView;
use crate::program;
use crate::program::Operation;
use crate::program::Program;
use crate::program::Term;
use crate::tally;
use crate::tally::Tally;
use crate::text;
use crate::text::Text;
use vstd::arithmetic::power2;
use vstd::prelude::*;

verus! {

/// What was learned of a text column.
pub struct Learned {
    pub column: Text,
    /// The distinct values, in ascending order.
    pub categories: Vec<Text>,
    /// How often each category occurs.
    pub counts: Vec<u32>,
    /// How many values there are.
    pub total: u32,
}

/// The view of [`Learned`].
#[verifier::ext_equal]
pub struct LearnedView {
    pub column: Seq<char>,
    pub categories: Seq<Seq<char>>,
    pub counts: Seq<nat>,
    pub total: nat,
}

impl View for Learned {
    type V = LearnedView;

    open spec fn view(&self) -> LearnedView {
        LearnedView {
            column: self.column@,
            categories: text::views(self.categories@),
            counts: Seq::new(self.counts@.len(), |i: int| self.counts@[i] as nat),
            total: self.total as nat,
        }
    }
}

impl LearnedView {
    /// The categories ascend, each with its count, and are no more than the
    /// values.
    pub open spec fn sound(self) -> bool {
        &&& tally::ascending(self.categories)
        &&& self.counts.len() == self.categories.len()
        &&& self.categories.len() <= self.total <= frame::MOST_ROWS
    }

    /// Where a category stands among the learned ones.
    pub open spec fn code(self, category: Seq<char>) -> Option<int> {
        if self.categories.contains(category) {
            Some(self.categories.index_of(category))
        } else {
            None
        }
    }
}

/// What there is to learn of a column with the given name and cells.
pub open spec fn learned_of(name: Seq<char>, cells: Seq<Option<Seq<char>>>) -> LearnedView {
    let values = frame::present(cells);
    LearnedView {
        column: name,
        categories: tally::distinct(values),
        counts: tally::frequencies(tally::distinct(values), values),
        total: values.len(),
    }
}

/// What there is to learn of a list of columns: one entry, in order, for each
/// text column that has a value.
pub open spec fn learned(columns: Seq<ColumnView>) -> Seq<LearnedView>
    decreases columns.len(),
{
    if columns.len() == 0 {
        Seq::empty()
    } else {
        let front = learned(columns.drop_last());
        match columns.last().values {
            ValuesView::Text(cells) => if frame::present(cells).len() > 0 {
                front.push(learned_of(columns.last().name, cells))
            } else {
                front
            },
            _ => front,
        }
    }
}

/// The views of a list of learned columns.
pub open spec fn learned_views(list: Seq<Learned>) -> Seq<LearnedView> {
    Seq::new(list.len(), |i: int| list[i]@)
}

/// The names of learned columns.
pub open spec fn learned_names(list: Seq<LearnedView>) -> Seq<Seq<char>> {
    Seq::new(list.len(), |i: int| list[i].column)
}

/// Every entry of a list of learned columns is sound.
pub open spec fn all_sound(list: Seq<LearnedView>) -> bool {
    forall|i: int| 0 <= i < list.len() ==> (#[trigger] list[i]).sound()
}

/// The counts of what is learned of a column add up to the number of its
/// values.
pub proof fn law_counts_add_up(name: Seq<char>, cells: Seq<Option<Seq<char>>>)
    ensures
        tally::total(learned_of(name, cells).counts) == learned_of(name, cells).total,
        learned_of(name, cells).total == frame::present(cells).len(),
{
    tally::law_frequencies_add_up(frame::present(cells));
}

/// What is learned of a column is sound.
proof fn lemma_learned_of_sound(name: Seq<char>, cells: Seq<Option<Seq<char>>>)
    requires
        cells.len() <= frame::MOST_ROWS,
    ensures
        learned_of(name, cells).sound(),
{
    tally::law_distinct(frame::present(cells));
    tally::lemma_distinct_len(frame::present(cells));
    frame::lemma_present(cells);
}

/// What is learned is sound.
pub proof fn lemma_learned_sound(columns: Seq<ColumnView>)
    requires
        forall|i: int|
            0 <= i < columns.len() ==> (#[trigger] columns[i]).values.len() <= frame::MOST_ROWS,
    ensures
        all_sound(learned(columns)),
    decreases columns.len(),
{
    if columns.len() > 0 {
        let front = columns.drop_last();
        assert(forall|i: int| 0 <= i < front.len() ==> front[i] == columns[i]);
        lemma_learned_sound(front);
        let last = columns[columns.len() - 1];
        match last.values {
            ValuesView::Text(cells) => {
                lemma_learned_of_sound(last.name, cells);
            },
            _ => {},
        }
    }
}

/// The columns that are learned have names of their own, as those of the frame
/// have, and are among them.
pub proof fn law_learned_names(columns: Seq<ColumnView>)
    requires
        forall|i: int, j: int|
            0 <= i < j < columns.len() ==> (#[trigger] columns[i]).name != (
            #[trigger] columns[j]).name,
    ensures
        forall|i: int, j: int|
            0 <= i < j < learned(columns).len() ==> (#[trigger] learned(columns)[i]).column != (
            #[trigger] learned(columns)[j]).column,
        forall|i: int|
            0 <= i < learned(columns).len() ==> exists|k: int|
                0 <= k < columns.len() && (#[trigger] columns[k]).name == (
                #[trigger] learned(columns)[i]).column,
    decreases columns.len(),
{
    if columns.len() > 0 {
        let front = columns.drop_last();
        assert(forall|i: int| 0 <= i < front.len() ==> front[i] == columns[i]);
        law_learned_names(front);
        let list = learned(columns);
        let before = learned(front);
        assert forall|i: int| 0 <= i < list.len() implies exists|k: int|
            0 <= k < columns.len() && (#[trigger] columns[k]).name == (#[trigger] list[i]).column by {
            if i < before.len() {
                assert(list[i] == before[i]);
                let k = choose|k: int| 0 <= k < front.len() && front[k].name == before[i].column;
                assert(columns[k].name == list[i].column);
            } else {
                assert(columns[columns.len() - 1].name == list[i].column);
            }
        }
        assert forall|i: int, j: int| 0 <= i < j < list.len() implies (#[trigger] list[i]).column
            != (#[trigger] list[j]).column by {
            assert(list[i] == before[i]);
            if j < before.len() {
                assert(list[j] == before[j]);
            } else {
                let k = choose|k: int| 0 <= k < front.len() && front[k].name == before[i].column;
                assert(columns[k].name != columns[columns.len() - 1].name);
            }
        }
    }
}

/// Learns the categories of the cells of a text column.
fn learn_cells(name: &Text, cells: &Vec<Option<Text>>) -> (r: Learned)
    requires
        cells.len() <= frame::MOST_ROWS,
    ensures
        r@ == learned_of(name@, frame::gap_views(cells@)),
        r@.sound(),
{
    let ghost seen = frame::gap_views(cells@);
    let mut tally: Tally = Tally::new();
    let mut i: usize = 0;
    assert(seen.take(0) =~= Seq::<Option<Seq<char>>>::empty());
    while i < cells.len()
        invariant
            i <= cells.len() <= frame::MOST_ROWS,
            seen == frame::gap_views(cells@),
            tally.well_formed(),
            tally.items() == frame::present(seen.take(i as int)),
            tally.items().len() <= i,
        decreases cells.len() - i,
    {
        assert(seen.take(i + 1).drop_last() =~= seen.take(i as int));
        match &cells[i] {
            Some(v) => {
                proof {
                    frame::lemma_present(seen.take(i as int));
                    tally::lemma_occurrences_bounded(tally.items(), v@);
                }
                tally.add(v);
            },
            None => {},
        }
        i += 1;
    }
    assert(seen.take(i as int) =~= seen);
    let ghost items = tally.items();
    let total: u64 = tally.total();
    proof {
        frame::lemma_present(seen);
    }
    let (categories, wide) = tally.into_parts();
    let mut counts: Vec<u32> = Vec::new();
    let mut j: usize = 0;
    while j < wide.len()
        invariant
            j <= wide.len(),
            counts.len() == j,
            seen.len() <= frame::MOST_ROWS,
            items == frame::present(seen),
            wide.len() == tally::distinct(items).len(),
            forall|k: int|
                0 <= k < wide.len() ==> #[trigger] wide@[k] == tally::occurrences(
                    items,
                    tally::distinct(items)[k],
                ),
            forall|k: int| 0 <= k < j ==> counts@[k] as nat == #[trigger] wide@[k],
        decreases wide.len() - j,
    {
        proof {
            frame::lemma_present(seen);
            tally::lemma_occurrences_bounded(items, tally::distinct(items)[j as int]);
        }
        counts.push(wide[j] as u32);
        j += 1;
    }
    let r: Learned = Learned { column: name.duplicate(), categories, counts, total: total as u32 };
    proof {
        lemma_learned_of_sound(name@, seen);
        let expected = tally::frequencies(tally::distinct(items), items);
        assert forall|k: int| 0 <= k < expected.len() implies r@.counts[k] == expected[k] by {
            assert(wide@[k] == tally::occurrences(items, tally::distinct(items)[k]));
        }
        assert(r@.counts =~= expected);
    }
    r
}

/// Learns the categories of every text column that has a value.
fn learn(x: &Frame) -> (r: Vec<Learned>)
    ensures
        learned_views(r@) == learned(x@.columns),
        all_sound(learned_views(r@)),
{
    let mut r: Vec<Learned> = Vec::new();
    let mut i: usize = 0;
    let n: usize = x.width();
    assert(x@.columns.take(0) =~= Seq::<ColumnView>::empty());
    assert(learned_views(r@) =~= Seq::<LearnedView>::empty());
    while i < n
        invariant
            i <= n,
            n == x@.columns.len(),
            x@.valid(),
            learned_views(r@) == learned(x@.columns.take(i as int)),
        decreases n - i,
    {
        assert(x@.columns.take(i + 1).drop_last() =~= x@.columns.take(i as int));
        let ghost before = learned_views(r@);
        let column = x.column(i);
        match &column.values {
            Values::Text(cells) => {
                let entry: Learned = learn_cells(&column.name, cells);
                proof {
                    tally::law_distinct(frame::present(frame::gap_views(cells@)));
                    let values = frame::present(frame::gap_views(cells@));
                    if values.len() > 0 {
                        assert(values.contains(values[0]));
                        assert(tally::distinct(values).contains(values[0]));
                    } else if tally::distinct(values).len() > 0 {
                        assert(tally::distinct(values).contains(tally::distinct(values)[0]));
                    }
                }
                if entry.categories.len() > 0 {
                    r.push(entry);
                    assert(learned_views(r@) =~= before.push(entry@));
                }
            },
            _ => {},
        }
        i += 1;
    }
    assert(x@.columns.take(i as int) =~= x@.columns);
    proof {
        lemma_learned_sound(x@.columns);
    }
    r
}

/// Where a category stands among learned ones.
fn code_of(entry: &Learned, category: &Text) -> (r: Option<usize>)
    requires
        entry@.sound(),
    ensures
        match r {
            Some(i) => entry@.code(category@) == Some(i as int) && i < entry@.categories.len(),
            None => entry@.code(category@) is None,
        },
{
    let r: Option<usize> = tally::find(&entry.categories, category);
    proof {
        let list = entry@.categories;
        match r {
            Some(i) => {
                assert(list.contains(category@));
                let k = list.index_of(category@);
                if k < i {
                    text::lemma_less_asymmetric(list[k], list[i as int]);
                } else if i < k {
                    text::lemma_less_asymmetric(list[i as int], list[k]);
                }
            },
            None => {},
        }
    }
    r
}

/// Why a frame has no text column of a name.
pub open spec fn text_fault(who: Seq<char>, x: FrameView) -> spec_fn(Seq<char>) -> Option<
    ErrorView,
> {
    |name: Seq<char>|
        match x.find(name) {
            None => Some(ErrorView::about(Problem::ColumnNotFound, who, name)),
            Some(i) => match x.columns[i].values {
                ValuesView::Text(_) => None,
                other => Some(
                    ErrorView::detailed(Problem::ExpectedText, who, name, other.dtype()),
                ),
            },
        }
}

/// The cells of the text column of a name.
pub open spec fn text_cells(x: FrameView, name: Seq<char>) -> Seq<Option<Seq<char>>> {
    x.columns[x.find(name)->0].values->Text_0
}

/// The cells of the text column of a name, or why there is none.
pub fn find_text<'a>(who: &str, x: &'a Frame, name: &Text) -> (r: Result<&'a Vec<Option<Text>>, Error>)
    ensures
        match r {
            Ok(cells) => {
                &&& text_fault(who@, x@)(name@) is None
                &&& frame::gap_views(cells@) == text_cells(x@, name@)
                &&& cells.len() == x@.height
            },
            Err(e) => text_fault(who@, x@)(name@) == Some(e@),
        },
        x@.valid(),
{
    match x.find(name) {
        None => Err(Error::about(Problem::ColumnNotFound, who, name)),
        Some(i) => {
            let column = x.column(i);
            match &column.values {
                Values::Text(cells) => Ok(cells),
                other => Err(Error::detailed(Problem::ExpectedText, who, name, other.dtype())),
            }
        },
    }
}

/// The first generated name that is taken: by `taken`, or by a name generated
/// before it.
pub open spec fn collision(taken: Seq<Seq<char>>, names: Seq<Seq<char>>) -> Option<Seq<char>>
    decreases names.len(),
{
    if names.len() == 0 {
        None
    } else {
        let front = names.drop_last();
        match collision(taken, front) {
            Some(name) => Some(name),
            None => if (taken + front).contains(names.last()) {
                Some(names.last())
            } else {
                None
            },
        }
    }
}

/// A collision among the first `n` names is the collision of all.
proof fn lemma_collision_stays(taken: Seq<Seq<char>>, names: Seq<Seq<char>>, n: int)
    requires
        0 <= n <= names.len(),
        collision(taken, names.take(n)) is Some,
    ensures
        collision(taken, names) == collision(taken, names.take(n)),
    decreases names.len() - n,
{
    if n == names.len() {
        assert(names.take(n) =~= names);
    } else {
        assert(names.take(n + 1).drop_last() =~= names.take(n));
        lemma_collision_stays(taken, names, n + 1);
    }
}

/// Without a collision, the generated names differ from the taken ones and
/// from each other.
pub proof fn law_collision_free(taken: Seq<Seq<char>>, names: Seq<Seq<char>>)
    requires
        collision(taken, names) is None,
    ensures
        forall|i: int| 0 <= i < names.len() ==> !taken.contains(#[trigger] names[i]),
        forall|i: int, j: int|
            0 <= i < j < names.len() ==> #[trigger] names[i] != #[trigger] names[j],
    decreases names.len(),
{
    if names.len() > 0 {
        let front = names.drop_last();
        let last = names.last();
        assert(forall|i: int| 0 <= i < front.len() ==> front[i] == names[i]);
        law_collision_free(taken, front);
        assert(!(taken + front).contains(last));
        assert forall|i: int| 0 <= i < names.len() implies !taken.contains(#[trigger] names[i]) by {
            if i < front.len() {
                assert(!taken.contains(front[i]));
            } else if taken.contains(last) {
                let k = choose|k: int| 0 <= k < taken.len() && taken[k] == last;
                assert((taken + front)[k] == last);
            }
        }
        assert forall|i: int, j: int| 0 <= i < j < names.len() implies #[trigger] names[i]
            != #[trigger] names[j] by {
            if j < front.len() {
                assert(front[i] != front[j]);
            } else if names[i] == last {
                assert((taken + front)[taken.len() + i] == last);
            }
        }
    }
}

/// Where the first collision is.
pub fn find_collision(taken: &Vec<Text>, names: &Vec<Text>) -> (r: Option<usize>)
    ensures
        match r {
            Some(i) => i < names.len() && collision(text::views(taken@), text::views(names@))
                == Some(names@[i as int]@),
            None => collision(text::views(taken@), text::views(names@)) is None,
        },
{
    let ghost first = text::views(taken@);
    let ghost all = text::views(names@);
    let mut seen: Tally = Tally::new();
    let mut i: usize = 0;
    assert(first.take(0) =~= Seq::<Seq<char>>::empty());
    while i < taken.len()
        invariant
            i <= taken.len(),
            first == text::views(taken@),
            seen.well_formed(),
            seen.items() == first.take(i as int),
        decreases taken.len() - i,
    {
        proof {
            tally::lemma_occurrences_bounded(seen.items(), taken@[i as int]@);
        }
        seen.add(&taken[i]);
        i += 1;
        assert(first.take(i as int) =~= first.take(i - 1).push(first[i - 1]));
    }
    assert(first.take(i as int) =~= first);
    let mut made: Tally = Tally::new();
    let mut j: usize = 0;
    assert(all.take(0) =~= Seq::<Seq<char>>::empty());
    while j < names.len()
        invariant
            j <= names.len(),
            first == text::views(taken@),
            all == text::views(names@),
            seen.well_formed(),
            seen.items() == first,
            made.well_formed(),
            made.items() == all.take(j as int),
            collision(first, all.take(j as int)) is None,
        decreases names.len() - j,
    {
        let ghost front = all.take(j as int);
        let ghost name = names@[j as int]@;
        assert(all.take(j + 1).drop_last() =~= front);
        assert(all.take(j + 1).last() == name);
        proof {
            lemma_contains_sum(first, front, name);
        }
        if seen.holds(&names[j]) || made.holds(&names[j]) {
            proof {
                lemma_collision_stays(first, all, j + 1);
            }
            return Some(j);
        }
        made.add(&names[j]);
        j += 1;
        assert(all.take(j as int) =~= front.push(name));
    }
    assert(all.take(j as int) =~= all);
    None
}

/// Two lists together hold what one of them holds.
proof fn lemma_contains_sum<T>(a: Seq<T>, b: Seq<T>, item: T)
    ensures
        (a + b).contains(item) <==> a.contains(item) || b.contains(item),
{
    if a.contains(item) {
        let k = choose|k: int| 0 <= k < a.len() && a[k] == item;
        assert((a + b)[k] == item);
    }
    if b.contains(item) {
        let k = choose|k: int| 0 <= k < b.len() && b[k] == item;
        assert((a + b)[a.len() + k] == item);
    }
}

/// The categories that get a column: all but the first where `drop_first` is
/// set.
pub open spec fn kept(categories: Seq<Seq<char>>, drop_first: bool) -> Seq<Seq<char>> {
    if drop_first && categories.len() > 0 {
        categories.drop_first()
    } else {
        categories
    }
}

/// The planned pairs of a column and a category, in output order.
pub open spec fn planned_pairs(list: Seq<LearnedView>, drop_first: bool) -> Seq<
    (Seq<char>, Seq<char>),
>
    decreases list.len(),
{
    if list.len() == 0 {
        Seq::empty()
    } else {
        let last = list.last();
        let categories = kept(last.categories, drop_first);
        planned_pairs(list.drop_last(), drop_first) + Seq::new(
            categories.len(),
            |i: int| (last.column, categories[i]),
        )
    }
}

/// The name of the column for a pair: `{column}_{category}`.
pub open spec fn flag_name(pair: (Seq<char>, Seq<char>)) -> Seq<char> {
    pair.0 + "_"@ + pair.1
}

/// The names of the columns for a list of pairs.
pub open spec fn flag_names(pairs: Seq<(Seq<char>, Seq<char>)>) -> Seq<Seq<char>> {
    Seq::new(pairs.len(), |i: int| flag_name(pairs[i]))
}

/// The columns of a list of pairs.
pub open spec fn pair_columns(pairs: Seq<(Seq<char>, Seq<char>)>) -> Seq<Seq<char>> {
    Seq::new(pairs.len(), |i: int| pairs[i].0)
}

/// `1.0` where a cell holds the category, `0.0` elsewhere.
pub open spec fn flag(cell: Option<Seq<char>>, category: Seq<char>) -> Term {
    if cell == Some(category) {
        Term::Value(Double { bits: crate::double::ONE })
    } else {
        Term::Value(Double { bits: 0 })
    }
}

/// The column for a pair.
pub open spec fn flag_column(x: FrameView, pair: (Seq<char>, Seq<char>)) -> SheetColumnView {
    let cells = text_cells(x, pair.0);
    SheetColumnView {
        name: flag_name(pair),
        cells: CellsView::Float64(
            Seq::new(cells.len(), |i: int| Some(flag(cells[i], pair.1))),
        ),
    }
}

/// Why a one-hot encoder cannot be fitted to a frame.
pub open spec fn one_hot_fault(drop_first: bool, x: FrameView) -> Option<ErrorView> {
    let list = learned(x.columns);
    if x.height == 0 {
        Some(ErrorView::plain(Problem::NoRows, "OneHotEncoder"@))
    } else if list.len() == 0 {
        Some(ErrorView::plain(Problem::NoTextColumns, "OneHotEncoder"@))
    } else {
        match collision(x.names(), flag_names(planned_pairs(list, drop_first))) {
            Some(name) => Some(ErrorView::about(Problem::NameTaken, "OneHotEncoder"@, name)),
            None => None,
        }
    }
}

/// What a one-hot encoder makes of a frame.
pub open spec fn one_hot_outcome(
    fitted: Option<Seq<LearnedView>>,
    drop_first: bool,
    x: FrameView,
) -> Result<SheetView, ErrorView> {
    match fitted {
        None => Err(ErrorView::plain(Problem::NotFitted, "OneHotEncoder"@)),
        Some(list) => {
            let pairs = planned_pairs(list, drop_first);
            match error::first_fault(pair_columns(pairs), text_fault("OneHotEncoder"@, x)) {
                Some(e) => Err(e),
                None => match collision(Seq::empty(), flag_names(pairs)) {
                    Some(name) => Err(
                        ErrorView::about(Problem::ResultRepeats, "OneHotEncoder"@, name),
                    ),
                    None => Ok(
                        SheetView {
                            height: x.height,
                            columns: Seq::new(pairs.len(), |i: int| flag_column(x, pairs[i])),
                        },
                    ),
                },
            }
        },
    }
}

/// A copy of a pair of texts.
pub open spec fn pair_views(list: Seq<(Text, Text)>) -> Seq<(Seq<char>, Seq<char>)> {
    Seq::new(list.len(), |i: int| (list[i].0@, list[i].1@))
}

/// The planned pairs of a column and a category, in output order.
fn plan_pairs(list: &Vec<Learned>, drop_first: bool) -> (r: Vec<(Text, Text)>)
    ensures
        pair_views(r@) == planned_pairs(learned_views(list@), drop_first),
{
    let ghost all = learned_views(list@);
    let mut r: Vec<(Text, Text)> = Vec::new();
    let mut i: usize = 0;
    assert(all.take(0) =~= Seq::<LearnedView>::empty());
    assert(pair_views(r@) =~= Seq::<(Seq<char>, Seq<char>)>::empty());
    while i < list.len()
        invariant
            i <= list.len(),
            all == learned_views(list@),
            pair_views(r@) == planned_pairs(all.take(i as int), drop_first),
        decreases list.len() - i,
    {
        let entry = &list[i];
        let start: usize = if drop_first && entry.categories.len() > 0 {
            1
        } else {
            0
        };
        let ghost before = pair_views(r@);
        let ghost categories = kept(entry@.categories, drop_first);
        let ghost more = Seq::new(
            categories.len(),
            |k: int| (entry@.column, categories[k]),
        );
        assert(all.take(i + 1).drop_last() =~= all.take(i as int));
        assert(pair_views(r@) =~= before + more.take(0));
        let mut j: usize = start;
        while j < entry.categories.len()
            invariant
                start <= j <= entry.categories.len(),
                categories.len() == entry.categories.len() - start,
                forall|k: int|
                    0 <= k < categories.len() ==> #[trigger] categories[k] == entry.categories@[k
                        + start]@,
                more == Seq::new(
                    categories.len(),
                    |k: int| (entry@.column, categories[k]),
                ),
                pair_views(r@) == before + more.take(j - start),
            decreases entry.categories.len() - j,
        {
            let ghost so_far = pair_views(r@);
            r.push((entry.column.duplicate(), entry.categories[j].duplicate()));
            assert(categories[j - start] == entry.categories@[j as int]@);
            assert(pair_views(r@) =~= so_far.push(more[j - start]));
            assert(more.take(j + 1 - start) =~= more.take(j - start).push(more[j - start]));
            j += 1;
            assert(pair_views(r@) =~= before + more.take(j - start));
        }
        assert(more.take(j - start) =~= more);
        i += 1;
    }
    assert(all.take(i as int) =~= all);
    r
}

/// The names of the columns for a list of pairs.
fn name_flags(pairs: &Vec<(Text, Text)>) -> (r: Vec<Text>)
    ensures
        text::views(r@) == flag_names(pair_views(pairs@)),
{
    let mut r: Vec<Text> = Vec::new();
    let mut i: usize = 0;
    while i < pairs.len()
        invariant
            i <= pairs.len(),
            r.len() == i,
            forall|k: int|
                0 <= k < i ==> (#[trigger] r@[k])@ == flag_name(pair_views(pairs@)[k]),
        decreases pairs.len() - i,
    {
        r.push(text::joined(&pairs[i].0, "_", &pairs[i].1));
        i += 1;
    }
    assert(text::views(r@) =~= flag_names(pair_views(pairs@)));
    r
}

/// Encodes categories as one column of flags each.
///
/// Columns that do not hold texts are left out. The column for a category is
/// named `{column}_{category}`; a name that is taken, by an input column or by
/// another generated one, is an error at fit.
pub struct OneHotEncoder {
    categories: Option<Vec<Learned>>,
    drop_first: bool,
}

impl OneHotEncoder {
    /// What was learned at the last fit, if it succeeded.
    pub closed spec fn fitted(self) -> Option<Seq<LearnedView>> {
        match self.categories {
            Some(list) => Some(learned_views(list@)),
            None => None,
        }
    }

    /// Whether the first category of each column is left out.
    pub closed spec fn drops_first(self) -> bool {
        self.drop_first
    }

    /// An encoder with a column for every category.
    pub fn new() -> (r: OneHotEncoder)
        ensures
            r.fitted() is None,
            !r.drops_first(),
    {
        OneHotEncoder { categories: None, drop_first: false }
    }

    /// Whether to leave out the first category of each column.
    pub fn drop_first(self, value: bool) -> (r: OneHotEncoder)
        ensures
            r.fitted() == self.fitted(),
            r.drops_first() == value,
    {
        OneHotEncoder { categories: self.categories, drop_first: value }
    }

    /// Learns the categories of `x`. A fit that fails leaves the encoder
    /// unfitted.
    pub fn fit(&mut self, x: &Frame) -> (r: Result<(), Error>)
        ensures
            final(self).drops_first() == old(self).drops_first(),
            match one_hot_fault(old(self).drops_first(), x@) {
                Some(e) => r is Err && r->Err_0@ == e && final(self).fitted() is None,
                None => r is Ok && final(self).fitted() == Some(learned(x@.columns)),
            },
    {
        self.categories = None;
        if x.height() == 0 {
            return Err(Error::plain(Problem::NoRows, "OneHotEncoder"));
        }
        let list: Vec<Learned> = learn(x);
        if list.len() == 0 {
            return Err(Error::plain(Problem::NoTextColumns, "OneHotEncoder"));
        }
        let pairs: Vec<(Text, Text)> = plan_pairs(&list, self.drop_first);
        let names: Vec<Text> = name_flags(&pairs);
        match find_collision(&x.names(), &names) {
            Some(i) => Err(Error::about(Problem::NameTaken, "OneHotEncoder", &names[i])),
            None => {
                self.categories = Some(list);
                Ok(())
            },
        }
    }

    /// Replaces the frame by the columns of flags.
    pub fn transform(&self, x: &Frame) -> (r: Result<Sheet, Error>)
        ensures
            frame::outcome(r) == one_hot_outcome(self.fitted(), self.drops_first(), x@),
    {
        let list = match &self.categories {
            Some(list) => list,
            None => {
                return Err(Error::plain(Problem::NotFitted, "OneHotEncoder"));
            },
        };
        let pairs: Vec<(Text, Text)> = plan_pairs(list, self.drop_first);
        let ghost all = pair_views(pairs@);
        let ghost fault = text_fault("OneHotEncoder"@, x@);
        let ghost expected = Seq::new(all.len(), |i: int| flag_column(x@, all[i]));
        let height: usize = x.height();
        let mut columns: Vec<SheetColumn> = Vec::new();
        let mut i: usize = 0;
        proof {
            error::lemma_fault_ends(pair_columns(all), fault);
        }
        while i < pairs.len()
            invariant
                i <= pairs.len(),
                columns.len() == i,
                x@.valid(),
                height == x@.height,
                self.fitted() is Some,
                all == pair_views(pairs@),
                all == planned_pairs(self.fitted()->0, self.drops_first()),
                fault == text_fault("OneHotEncoder"@, x@),
                error::first_fault(pair_columns(all).take(i as int), fault) is None,
                expected == Seq::new(all.len(), |k: int| flag_column(x@, all[k])),
                forall|k: int|
                    0 <= k < i ==> frame::sheet_column(
                        #[trigger] columns@[k],
                        Seq::<Term>::empty(),
                    ) == expected[k],
            decreases pairs.len() - i,
        {
            proof {
                error::lemma_fault_step(pair_columns(all), fault, i as int);
            }
            assert(pair_columns(all)[i as int] == pairs@[i as int].0@);
            let cells = match find_text("OneHotEncoder", x, &pairs[i].0) {
                Ok(cells) => cells,
                Err(e) => {
                    assert(error::first_fault(pair_columns(all), fault) == Some(e@));
                    return Err(e);
                },
            };
            let ghost seen = frame::gap_views(cells@);
            let mut flags: Vec<Option<Number>> = Vec::new();
            let mut j: usize = 0;
            while j < cells.len()
                invariant
                    i < pairs.len(),
                    j <= cells.len(),
                    flags.len() == j,
                    all == pair_views(pairs@),
                    seen == frame::gap_views(cells@),
                    forall|k: int|
                        0 <= k < j ==> (#[trigger] flags@[k]) is Some && frame::term_of(
                            flags@[k]->0,
                            Seq::<Term>::empty(),
                        ) == flag(seen[k], all[i as int].1),
                decreases cells.len() - j,
            {
                let held: bool = match &cells[j] {
                    Some(v) => v.same(&pairs[i].1),
                    None => false,
                };
                if held {
                    flags.push(Some(Number::Known(Double::one())));
                } else {
                    flags.push(Some(Number::Known(Double::zero())));
                }
                j += 1;
            }
            let column: SheetColumn = SheetColumn {
                name: text::joined(&pairs[i].0, "_", &pairs[i].1),
                cells: Cells::Float64(flags),
            };
            assert(frame::terms_of(flags@, Seq::<Term>::empty()) =~= Seq::new(
                seen.len(),
                |k: int| Some(flag(seen[k], all[i as int].1)),
            ));
            assert(frame::sheet_column(column, Seq::<Term>::empty()) == expected[i as int]);
            columns.push(column);
            i += 1;
        }
        proof {
            error::lemma_fault_ends(pair_columns(all), fault);
            assert(pair_columns(all).take(i as int) =~= pair_columns(all));
            assert(frame::sheet_columns(columns@, Seq::<Term>::empty()) =~= expected);
        }
        let names: Vec<Text> = name_flags(&pairs);
        let taken: Vec<Text> = Vec::new();
        assert(text::views(taken@) =~= Seq::empty());
        match find_collision(&taken, &names) {
            Some(at) => Err(Error::about(Problem::ResultRepeats, "OneHotEncoder", &names[at])),
            None => Ok(Sheet { height, columns, program: Program::new() }),
        }
    }
}

impl Default for OneHotEncoder {
    fn default() -> (r: OneHotEncoder)
        ensures
            r.fitted() is None,
            !r.drops_first(),
    {
        OneHotEncoder::new()
    }
}

/// The code of a cell: the place of its category, if it was learned.
pub open spec fn coded(entry: LearnedView, cell: Option<Seq<char>>) -> Option<u32> {
    match cell {
        Some(v) => match entry.code(v) {
            Some(i) => Some(i as u32),
            None => None,
        },
        None => None,
    }
}

/// The codes of a list of cells.
pub open spec fn coded_column(
    entry: LearnedView,
    name: Seq<char>,
    cells: Seq<Option<Seq<char>>>,
) -> SheetColumnView {
    SheetColumnView {
        name,
        cells: CellsView::UInt32(Seq::new(cells.len(), |i: int| coded(entry, cells[i]))),
    }
}

/// The codes of a list of cells, as a column.
fn code_column(entry: &Learned, name: &Text, cells: &Vec<Option<Text>>) -> (r: SheetColumn)
    requires
        entry@.sound(),
    ensures
        frame::sheet_column(r, Seq::<Term>::empty()) == coded_column(
            entry@,
            name@,
            frame::gap_views(cells@),
        ),
{
    let ghost seen = frame::gap_views(cells@);
    let mut codes: Vec<Option<u32>> = Vec::new();
    let mut i: usize = 0;
    while i < cells.len()
        invariant
            i <= cells.len(),
            codes.len() == i,
            entry@.sound(),
            seen == frame::gap_views(cells@),
            forall|k: int| 0 <= k < i ==> #[trigger] codes@[k] == coded(entry@, seen[k]),
        decreases cells.len() - i,
    {
        let code: Option<u32> = match &cells[i] {
            Some(v) => match code_of(entry, v) {
                Some(c) => Some(c as u32),
                None => None,
            },
            None => None,
        };
        codes.push(code);
        i += 1;
    }
    assert(codes@ =~= Seq::new(seen.len(), |k: int| coded(entry@, seen[k])));
    SheetColumn { name: name.duplicate(), cells: Cells::UInt32(codes) }
}

/// Why a label encoder cannot be fitted to a frame.
pub open spec fn label_fault(x: FrameView) -> Option<ErrorView> {
    if x.columns.len() != 1 {
        Some(
            ErrorView::plain(
                Problem::ExpectedOneColumn(x.columns.len() as usize),
                "LabelEncoder"@,
            ),
        )
    } else {
        let column = x.columns[0];
        match column.values {
            ValuesView::Text(cells) => if frame::present(cells).len() == 0 {
                Some(ErrorView::about(Problem::NoValues, "LabelEncoder"@, column.name))
            } else {
                None
            },
            other => Some(
                ErrorView::detailed(
                    Problem::ExpectedText,
                    "Encoder"@,
                    column.name,
                    other.dtype(),
                ),
            ),
        }
    }
}

/// What a label encoder makes of a frame.
pub open spec fn label_outcome(fitted: Option<LearnedView>, x: FrameView) -> Result<
    SheetView,
    ErrorView,
> {
    match fitted {
        None => Err(ErrorView::plain(Problem::NotFitted, "LabelEncoder"@)),
        Some(entry) => {
            let column = x.columns[0];
            match column.values {
                ValuesView::Text(cells) => Ok(
                    SheetView {
                        height: x.height,
                        columns: seq![coded_column(entry, column.name, cells)],
                    },
                ),
                other => Err(
                    ErrorView::detailed(
                        Problem::ExpectedText,
                        "LabelEncoder"@,
                        column.name,
                        other.dtype(),
                    ),
                ),
            }
        },
    }
}

/// Encodes the labels of a single text column as `0`, `1`, and so on, in
/// ascending order. A label that was not learned becomes missing.
pub struct LabelEncoder {
    classes: Option<Learned>,
}

impl LabelEncoder {
    #[verifier::type_invariant]
    spec fn well_formed(self) -> bool {
        self.classes matches Some(entry) ==> entry@.sound()
    }

    /// What was learned at the last fit that succeeded.
    pub closed spec fn fitted(self) -> Option<LearnedView> {
        match self.classes {
            Some(entry) => Some(entry@),
            None => None,
        }
    }

    /// An encoder that has not been fitted.
    pub fn new() -> (r: LabelEncoder)
        ensures
            r.fitted() is None,
    {
        LabelEncoder { classes: None }
    }

    /// Learns the labels of `x`. A fit that fails changes nothing.
    pub fn fit(&mut self, x: &Frame) -> (r: Result<(), Error>)
        ensures
            match label_fault(x@) {
                Some(e) => r is Err && r->Err_0@ == e && final(self).fitted() == old(self).fitted(),
                None => r is Ok && final(self).fitted() == Some(
                    learned_of(x@.columns[0].name, x@.columns[0].values->Text_0),
                ),
            },
    {
        let n: usize = x.width();
        if n != 1 {
            return Err(Error::plain(Problem::ExpectedOneColumn(n), "LabelEncoder"));
        }
        let column = x.column(0);
        match &column.values {
            Values::Text(cells) => {
                let entry: Learned = learn_cells(&column.name, cells);
                proof {
                    lemma_no_categories(frame::present(frame::gap_views(cells@)));
                }
                if entry.categories.len() == 0 {
                    return Err(Error::about(Problem::NoValues, "LabelEncoder", &column.name));
                }
                self.classes = Some(entry);
                Ok(())
            },
            other => Err(
                Error::detailed(Problem::ExpectedText, "Encoder", &column.name, other.dtype()),
            ),
        }
    }

    /// Replaces the first column of the frame by its codes.
    pub fn transform(&self, x: &Frame) -> (r: Result<Sheet, Error>)
        requires
            self.fitted() is Some ==> x@.columns.len() > 0,
        ensures
            frame::outcome(r) == label_outcome(self.fitted(), x@),
    {
        proof {
            use_type_invariant(self);
        }
        match &self.classes {
            None => Err(Error::plain(Problem::NotFitted, "LabelEncoder")),
            Some(entry) => {
                let column = x.column(0);
                match &column.values {
                    Values::Text(cells) => {
                        let mut columns: Vec<SheetColumn> = Vec::new();
                        columns.push(code_column(entry, &column.name, cells));
                        let r: Sheet = Sheet {
                            height: x.height(),
                            columns,
                            program: Program::new(),
                        };
                        assert(r@.columns =~= label_outcome(self.fitted(), x@)->Ok_0.columns);
                        Ok(r)
                    },
                    other => Err(
                        Error::detailed(
                            Problem::ExpectedText,
                            "LabelEncoder",
                            &column.name,
                            other.dtype(),
                        ),
                    ),
                }
            },
        }
    }
}

impl Default for LabelEncoder {
    fn default() -> (r: LabelEncoder)
        ensures
            r.fitted() is None,
    {
        LabelEncoder::new()
    }
}

/// There are no categories just where there are no values.
proof fn lemma_no_categories(values: Seq<Seq<char>>)
    ensures
        tally::distinct(values).len() == 0 <==> values.len() == 0,
{
    tally::law_distinct(values);
    if values.len() > 0 {
        assert(values.contains(values[0]));
        assert(tally::distinct(values).contains(values[0]));
    } else if tally::distinct(values).len() > 0 {
        assert(tally::distinct(values).contains(tally::distinct(values)[0]));
    }
}

/// Why a column cannot be encoded: it does not hold texts.
pub open spec fn not_text() -> spec_fn(ColumnView) -> Option<ErrorView> {
    |column: ColumnView|
        match column.values {
            ValuesView::Text(_) => None,
            other => Some(
                ErrorView::detailed(
                    Problem::ExpectedText,
                    "Encoder"@,
                    column.name,
                    other.dtype(),
                ),
            ),
        }
}

/// Why an ordinal encoder cannot be fitted to a frame.
pub open spec fn ordinal_fault(x: FrameView) -> Option<ErrorView> {
    if x.columns.len() == 0 {
        Some(ErrorView::plain(Problem::NoColumns, "OrdinalEncoder"@))
    } else {
        match error::first_fault(x.columns, not_text()) {
            Some(e) => Some(e),
            None => if learned(x.columns).len() == 0 {
                Some(ErrorView::plain(Problem::NoTextColumns, "OrdinalEncoder"@))
            } else {
                None
            },
        }
    }
}

/// What an encoder makes of a frame that turns each learned column into one
/// column.
pub open spec fn columnwise(
    who: Seq<char>,
    fitted: Option<Seq<LearnedView>>,
    x: FrameView,
    encode: spec_fn(LearnedView, Seq<Option<Seq<char>>>) -> SheetColumnView,
) -> Result<SheetView, ErrorView> {
    match fitted {
        None => Err(ErrorView::plain(Problem::NotFitted, who)),
        Some(list) => match error::first_fault(learned_names(list), text_fault(who, x)) {
            Some(e) => Err(e),
            None => Ok(
                SheetView {
                    height: x.height,
                    columns: Seq::new(
                        list.len(),
                        |i: int| encode(list[i], text_cells(x, list[i].column)),
                    ),
                },
            ),
        },
    }
}

/// How an ordinal encoder encodes a column.
pub open spec fn ordinal_column() -> spec_fn(
    LearnedView,
    Seq<Option<Seq<char>>>,
) -> SheetColumnView {
    |entry: LearnedView, cells: Seq<Option<Seq<char>>>| coded_column(entry, entry.column, cells)
}

/// Encodes the categories of each text column as `0`, `1`, and so on, in
/// ascending order. A category that was not learned becomes missing.
pub struct OrdinalEncoder {
    categories: Option<Vec<Learned>>,
}

impl OrdinalEncoder {
    #[verifier::type_invariant]
    spec fn well_formed(self) -> bool {
        self.categories matches Some(list) ==> all_sound(learned_views(list@))
    }

    /// What was learned at the last fit that succeeded.
    pub closed spec fn fitted(self) -> Option<Seq<LearnedView>> {
        match self.categories {
            Some(list) => Some(learned_views(list@)),
            None => None,
        }
    }

    /// An encoder that has not been fitted.
    pub fn new() -> (r: OrdinalEncoder)
        ensures
            r.fitted() is None,
    {
        OrdinalEncoder { categories: None }
    }

    /// Learns the categories of `x`. A fit that fails changes nothing.
    pub fn fit(&mut self, x: &Frame) -> (r: Result<(), Error>)
        ensures
            match ordinal_fault(x@) {
                Some(e) => r is Err && r->Err_0@ == e && final(self).fitted() == old(self).fitted(),
                None => r is Ok && final(self).fitted() == Some(learned(x@.columns)),
            },
    {
        let n: usize = x.width();
        if n == 0 {
            return Err(Error::plain(Problem::NoColumns, "OrdinalEncoder"));
        }
        let mut i: usize = 0;
        proof {
            error::lemma_fault_ends(x@.columns, not_text());
        }
        while i < n
            invariant
                i <= n,
                n == x@.columns.len(),
                n > 0,
                self.fitted() == old(self).fitted(),
                error::first_fault(x@.columns.take(i as int), not_text()) is None,
            decreases n - i,
        {
            proof {
                error::lemma_fault_step(x@.columns, not_text(), i as int);
            }
            let column = x.column(i);
            match &column.values {
                Values::Text(_) => {},
                other => {
                    return Err(
                        Error::detailed(
                            Problem::ExpectedText,
                            "Encoder",
                            &column.name,
                            other.dtype(),
                        ),
                    );
                },
            }
            i += 1;
        }
        proof {
            error::lemma_fault_ends(x@.columns, not_text());
        }
        let list: Vec<Learned> = learn(x);
        if list.len() == 0 {
            return Err(Error::plain(Problem::NoTextColumns, "OrdinalEncoder"));
        }
        self.categories = Some(list);
        Ok(())
    }

    /// Replaces the frame by the codes of the learned columns.
    pub fn transform(&self, x: &Frame) -> (r: Result<Sheet, Error>)
        ensures
            frame::outcome(r) == columnwise("OrdinalEncoder"@, self.fitted(), x@, ordinal_column()),
    {
        proof {
            use_type_invariant(self);
        }
        let list = match &self.categories {
            Some(list) => list,
            None => {
                return Err(Error::plain(Problem::NotFitted, "OrdinalEncoder"));
            },
        };
        let ghost all = learned_views(list@);
        let ghost fault = text_fault("OrdinalEncoder"@, x@);
        let ghost expected = Seq::new(
            all.len(),
            |k: int| ordinal_column()(all[k], text_cells(x@, all[k].column)),
        );
        let mut columns: Vec<SheetColumn> = Vec::new();
        let mut i: usize = 0;
        proof {
            error::lemma_fault_ends(learned_names(all), fault);
        }
        while i < list.len()
            invariant
                i <= list.len(),
                columns.len() == i,
                self.fitted() == Some(all),
                all == learned_views(list@),
                all_sound(all),
                fault == text_fault("OrdinalEncoder"@, x@),
                error::first_fault(learned_names(all).take(i as int), fault) is None,
                expected == Seq::new(
                    all.len(),
                    |k: int| ordinal_column()(all[k], text_cells(x@, all[k].column)),
                ),
                forall|k: int|
                    0 <= k < i ==> frame::sheet_column(
                        #[trigger] columns@[k],
                        Seq::<Term>::empty(),
                    ) == expected[k],
            decreases list.len() - i,
        {
            proof {
                error::lemma_fault_step(learned_names(all), fault, i as int);
            }
            let entry = &list[i];
            assert(learned_names(all)[i as int] == entry.column@);
            assert(all[i as int] == entry@);
            let cells = match find_text("OrdinalEncoder", x, &entry.column) {
                Ok(cells) => cells,
                Err(e) => {
                    assert(error::first_fault(learned_names(all), fault) == Some(e@));
                    return Err(e);
                },
            };
            columns.push(code_column(entry, &entry.column, cells));
            i += 1;
        }
        proof {
            assert(learned_names(all).take(i as int) =~= learned_names(all));
            assert(frame::sheet_columns(columns@, Seq::<Term>::empty()) =~= expected);
        }
        Ok(Sheet { height: x.height(), columns, program: Program::new() })
    }
}

impl Default for OrdinalEncoder {
    fn default() -> (r: OrdinalEncoder)
        ensures
            r.fitted() is None,
    {
        OrdinalEncoder::new()
    }
}

/// Why an encoder that learns text columns only cannot be fitted to a frame.
pub open spec fn learning_fault(who: Seq<char>, x: FrameView) -> Option<ErrorView> {
    if x.height == 0 {
        Some(ErrorView::plain(Problem::NoRows, who))
    } else if learned(x.columns).len() == 0 {
        Some(ErrorView::plain(Problem::NoTextColumns, who))
    } else {
        None
    }
}

/// How often the category of a cell was learned; `0` where it was not.
pub open spec fn counted(entry: LearnedView, cell: Option<Seq<char>>) -> Option<u32> {
    match cell {
        Some(v) => match entry.code(v) {
            Some(i) => Some(entry.counts[i] as u32),
            None => Some(0),
        },
        None => None,
    }
}

/// How a count encoder encodes a column.
pub open spec fn count_column() -> spec_fn(
    LearnedView,
    Seq<Option<Seq<char>>>,
) -> SheetColumnView {
    |entry: LearnedView, cells: Seq<Option<Seq<char>>>|
        SheetColumnView {
            name: entry.column,
            cells: CellsView::UInt32(Seq::new(cells.len(), |i: int| counted(entry, cells[i]))),
        }
}

/// Replaces categories by how often they were learned.
///
/// Columns that do not hold texts are left out. A category that was not
/// learned counts `0`; missing values stay missing.
pub struct CountEncoder {
    counts: Option<Vec<Learned>>,
}

impl CountEncoder {
    #[verifier::type_invariant]
    spec fn well_formed(self) -> bool {
        self.counts matches Some(list) ==> all_sound(learned_views(list@))
    }

    /// What was learned at the last fit that succeeded.
    pub closed spec fn fitted(self) -> Option<Seq<LearnedView>> {
        match self.counts {
            Some(list) => Some(learned_views(list@)),
            None => None,
        }
    }

    /// An encoder that has not been fitted.
    pub fn new() -> (r: CountEncoder)
        ensures
            r.fitted() is None,
    {
        CountEncoder { counts: None }
    }

    /// Learns the categories of `x`. A fit that fails changes nothing.
    pub fn fit(&mut self, x: &Frame) -> (r: Result<(), Error>)
        ensures
            match learning_fault("CountEncoder"@, x@) {
                Some(e) => r is Err && r->Err_0@ == e && final(self).fitted() == old(self).fitted(),
                None => r is Ok && final(self).fitted() == Some(learned(x@.columns)),
            },
    {
        if x.height() == 0 {
            return Err(Error::plain(Problem::NoRows, "CountEncoder"));
        }
        let list: Vec<Learned> = learn(x);
        if list.len() == 0 {
            return Err(Error::plain(Problem::NoTextColumns, "CountEncoder"));
        }
        self.counts = Some(list);
        Ok(())
    }

    /// Replaces the frame by the counts of the learned columns.
    pub fn transform(&self, x: &Frame) -> (r: Result<Sheet, Error>)
        ensures
            frame::outcome(r) == columnwise("CountEncoder"@, self.fitted(), x@, count_column()),
    {
        proof {
            use_type_invariant(self);
        }
        let list = match &self.counts {
            Some(list) => list,
            None => {
                return Err(Error::plain(Problem::NotFitted, "CountEncoder"));
            },
        };
        let ghost all = learned_views(list@);
        let ghost fault = text_fault("CountEncoder"@, x@);
        let ghost expected = Seq::new(
            all.len(),
            |k: int| count_column()(all[k], text_cells(x@, all[k].column)),
        );
        let mut columns: Vec<SheetColumn> = Vec::new();
        let mut i: usize = 0;
        proof {
            error::lemma_fault_ends(learned_names(all), fault);
        }
        while i < list.len()
            invariant
                i <= list.len(),
                columns.len() == i,
                self.fitted() == Some(all),
                all == learned_views(list@),
                all_sound(all),
                fault == text_fault("CountEncoder"@, x@),
                error::first_fault(learned_names(all).take(i as int), fault) is None,
                expected == Seq::new(
                    all.len(),
                    |k: int| count_column()(all[k], text_cells(x@, all[k].column)),
                ),
                forall|k: int|
                    0 <= k < i ==> frame::sheet_column(
                        #[trigger] columns@[k],
                        Seq::<Term>::empty(),
                    ) == expected[k],
            decreases list.len() - i,
        {
            proof {
                error::lemma_fault_step(learned_names(all), fault, i as int);
            }
            let entry = &list[i];
            assert(learned_names(all)[i as int] == entry.column@);
            assert(all[i as int] == entry@);
            let cells = match find_text("CountEncoder", x, &entry.column) {
                Ok(cells) => cells,
                Err(e) => {
                    assert(error::first_fault(learned_names(all), fault) == Some(e@));
                    return Err(e);
                },
            };
            let ghost seen = frame::gap_views(cells@);
            let mut counts: Vec<Option<u32>> = Vec::new();
            let mut j: usize = 0;
            while j < cells.len()
                invariant
                    j <= cells.len(),
                    counts.len() == j,
                    entry@.sound(),
                    seen == frame::gap_views(cells@),
                    forall|k: int| 0 <= k < j ==> #[trigger] counts@[k] == counted(entry@, seen[k]),
                decreases cells.len() - j,
            {
                let count: Option<u32> = match &cells[j] {
                    Some(v) => match code_of(entry, v) {
                        Some(c) => Some(entry.counts[c]),
                        None => Some(0),
                    },
                    None => None,
                };
                counts.push(count);
                j += 1;
            }
            assert(counts@ =~= Seq::new(seen.len(), |k: int| counted(entry@, seen[k])));
            columns.push(
                SheetColumn { name: entry.column.duplicate(), cells: Cells::UInt32(counts) },
            );
            i += 1;
        }
        proof {
            assert(learned_names(all).take(i as int) =~= learned_names(all));
            assert(frame::sheet_columns(columns@, Seq::<Term>::empty()) =~= expected);
        }
        Ok(Sheet { height: x.height(), columns, program: Program::new() })
    }
}

impl Default for CountEncoder {
    fn default() -> (r: CountEncoder)
        ensures
            r.fitted() is None,
    {
        CountEncoder::new()
    }
}

/// The share of a learned category among the values of its column.
pub open spec fn share(entry: LearnedView, code: int) -> Term {
    Term::Over(
        Box::new(Term::Natural(entry.counts[code])),
        Box::new(Term::Natural(entry.total)),
    )
}

/// The shares of the first `n` categories that were learned.
pub open spec fn shares(entry: LearnedView, n: nat) -> Seq<Term> {
    Seq::new(n, |k: int| share(entry, k))
}

/// In exact arithmetic the sum of shares is the sum of the counts over the
/// total.
proof fn lemma_shares(entry: LearnedView, n: nat, value: spec_fn(Double) -> real)
    requires
        n <= entry.counts.len(),
        entry.total > 0,
        value(Double { bits: 0 }) == 0real,
    ensures
        program::exact(program::running_sum(shares(entry, n)), value) == (tally::total(
            entry.counts.take(n as int),
        ) as int as real) / (entry.total as int as real),
    decreases n,
{
    reveal_with_fuel(program::exact, 3);
    let t = entry.total as int as real;
    if n == 0 {
        assert(0real / t == 0real) by (nonlinear_arith)
            requires
                t > 0real,
        ;
    } else {
        let m = (n - 1) as nat;
        lemma_shares(entry, m, value);
        assert(shares(entry, n).drop_last() =~= shares(entry, m));
        assert(entry.counts.take(n as int).drop_last() =~= entry.counts.take(m as int));
        let a = tally::total(entry.counts.take(m as int)) as int as real;
        let b = entry.counts[m as int] as int as real;
        assert(a / t + b / t == (a + b) / t) by (nonlinear_arith)
            requires
                t > 0real,
        ;
    }
}

/// In exact arithmetic the shares of the categories of a column add up to one.
pub proof fn law_shares_add_up(
    name: Seq<char>,
    cells: Seq<Option<Seq<char>>>,
    value: spec_fn(Double) -> real,
)
    requires
        frame::present(cells).len() > 0,
        value(Double { bits: 0 }) == 0real,
    ensures
        program::exact(
            program::running_sum(
                shares(learned_of(name, cells), learned_of(name, cells).counts.len()),
            ),
            value,
        ) == 1real,
{
    let entry = learned_of(name, cells);
    law_counts_add_up(name, cells);
    lemma_shares(entry, entry.counts.len(), value);
    assert(entry.counts.take(entry.counts.len() as int) =~= entry.counts);
    let t = entry.total as int as real;
    assert(t / t == 1real) by (nonlinear_arith)
        requires
            t > 0real,
    ;
}

/// The share of the category of a cell; `0.0` where it was not learned.
pub open spec fn shared(entry: LearnedView, cell: Option<Seq<char>>) -> Option<Term> {
    match cell {
        Some(v) => match entry.code(v) {
            Some(i) => Some(share(entry, i)),
            None => Some(Term::Value(Double { bits: 0 })),
        },
        None => None,
    }
}

/// How a frequency encoder encodes a column.
pub open spec fn frequency_column() -> spec_fn(
    LearnedView,
    Seq<Option<Seq<char>>>,
) -> SheetColumnView {
    |entry: LearnedView, cells: Seq<Option<Seq<char>>>|
        SheetColumnView {
            name: entry.column,
            cells: CellsView::Float64(Seq::new(cells.len(), |i: int| shared(entry, cells[i]))),
        }
}

/// Appends the shares of the learned categories of a column, one after the
/// other, and returns where the first of them stands.
fn append_shares(entry: &Learned, program: &mut Program) -> (r: Vec<usize>)
    ensures
        r.len() == entry.counts.len(),
        program::extends(old(program)@, final(program)@),
        forall|k: int|
            0 <= k < r.len() ==> (#[trigger] r@[k]) < final(program)@.len()
                && final(program)@[r@[k] as int] == share(entry@, k),
{
    let ghost before = program@;
    let total: usize = program.append(Operation::Natural(entry.total as u64));
    let mut r: Vec<usize> = Vec::new();
    let mut i: usize = 0;
    while i < entry.counts.len()
        invariant
            i <= entry.counts.len(),
            r.len() == i,
            program::extends(before, program@),
            total < program@.len(),
            program@[total as int] == Term::Natural(entry@.total),
            forall|k: int|
                0 <= k < i ==> (#[trigger] r@[k]) < program@.len() && program@[r@[k] as int]
                    == share(entry@, k),
        decreases entry.counts.len() - i,
    {
        let count: usize = program.append(Operation::Natural(entry.counts[i] as u64));
        let ratio: usize = program.append(Operation::Over(count, total));
        r.push(ratio);
        assert(entry@.counts[i as int] == entry.counts@[i as int]);
        i += 1;
    }
    r
}

/// Replaces categories by their share among the values of their column.
///
/// Columns that do not hold texts are left out. A category that was not
/// learned has the share `0.0`; missing values stay missing.
pub struct FrequencyEncoder {
    learned: Option<Vec<Learned>>,
}

impl FrequencyEncoder {
    #[verifier::type_invariant]
    spec fn well_formed(self) -> bool {
        self.learned matches Some(list) ==> all_sound(learned_views(list@))
    }

    /// What was learned at the last fit, if it succeeded.
    pub closed spec fn fitted(self) -> Option<Seq<LearnedView>> {
        match self.learned {
            Some(list) => Some(learned_views(list@)),
            None => None,
        }
    }

    /// An encoder that has not been fitted.
    pub fn new() -> (r: FrequencyEncoder)
        ensures
            r.fitted() is None,
    {
        FrequencyEncoder { learned: None }
    }

    /// Learns the categories of `x`. A fit that fails leaves the encoder
    /// unfitted.
    pub fn fit(&mut self, x: &Frame) -> (r: Result<(), Error>)
        ensures
            match learning_fault("FrequencyEncoder"@, x@) {
                Some(e) => r is Err && r->Err_0@ == e && final(self).fitted() is None,
                None => r is Ok && final(self).fitted() == Some(learned(x@.columns)),
            },
    {
        self.learned = None;
        if x.height() == 0 {
            return Err(Error::plain(Problem::NoRows, "FrequencyEncoder"));
        }
        let list: Vec<Learned> = learn(x);
        if list.len() == 0 {
            return Err(Error::plain(Problem::NoTextColumns, "FrequencyEncoder"));
        }
        self.learned = Some(list);
        Ok(())
    }

    /// Replaces the frame by the shares of the learned columns.
    pub fn transform(&self, x: &Frame) -> (r: Result<Sheet, Error>)
        ensures
            frame::outcome(r) == columnwise(
                "FrequencyEncoder"@,
                self.fitted(),
                x@,
                frequency_column(),
            ),
    {
        proof {
            use_type_invariant(self);
        }
        let list = match &self.learned {
            Some(list) => list,
            None => {
                return Err(Error::plain(Problem::NotFitted, "FrequencyEncoder"));
            },
        };
        let ghost all = learned_views(list@);
        let ghost fault = text_fault("FrequencyEncoder"@, x@);
        let ghost expected = Seq::new(
            all.len(),
            |k: int| frequency_column()(all[k], text_cells(x@, all[k].column)),
        );
        let mut columns: Vec<SheetColumn> = Vec::new();
        let mut program: Program = Program::new();
        let mut i: usize = 0;
        proof {
            error::lemma_fault_ends(learned_names(all), fault);
        }
        while i < list.len()
            invariant
                i <= list.len(),
                columns.len() == i,
                self.fitted() == Some(all),
                all == learned_views(list@),
                all_sound(all),
                fault == text_fault("FrequencyEncoder"@, x@),
                error::first_fault(learned_names(all).take(i as int), fault) is None,
                expected == Seq::new(
                    all.len(),
                    |k: int| frequency_column()(all[k], text_cells(x@, all[k].column)),
                ),
                forall|k: int|
                    0 <= k < i ==> frame::column_settled(#[trigger] columns@[k], program@.len())
                        && frame::sheet_column(columns@[k], program@) == expected[k],
            decreases list.len() - i,
        {
            proof {
                error::lemma_fault_step(learned_names(all), fault, i as int);
            }
            let entry = &list[i];
            assert(learned_names(all)[i as int] == entry.column@);
            assert(all[i as int] == entry@);
            let cells = match find_text("FrequencyEncoder", x, &entry.column) {
                Ok(cells) => cells,
                Err(e) => {
                    assert(error::first_fault(learned_names(all), fault) == Some(e@));
                    return Err(e);
                },
            };
            let ghost start = program@;
            let shares: Vec<usize> = append_shares(entry, &mut program);
            proof {
                assert forall|k: int| 0 <= k < i implies frame::column_settled(
                    #[trigger] columns@[k],
                    program@.len(),
                ) && frame::sheet_column(columns@[k], program@) == expected[k] by {
                    frame::lemma_column_settled(columns@[k], start, program@);
                }
            }
            let ghost seen = frame::gap_views(cells@);
            let mut numbers: Vec<Option<Number>> = Vec::new();
            let mut j: usize = 0;
            while j < cells.len()
                invariant
                    j <= cells.len(),
                    numbers.len() == j,
                    entry@.sound(),
                    shares.len() == entry.counts.len(),
                    seen == frame::gap_views(cells@),
                    forall|k: int|
                        0 <= k < shares.len() ==> (#[trigger] shares@[k]) < program@.len()
                            && program@[shares@[k] as int] == share(entry@, k),
                    forall|k: int|
                        0 <= k < j ==> frame::settled(#[trigger] numbers@[k], program@.len())
                            && frame::optional_term(numbers@[k], program@) == shared(
                            entry@,
                            seen[k],
                        ),
                decreases cells.len() - j,
            {
                let number: Option<Number> = match &cells[j] {
                    Some(v) => match code_of(entry, v) {
                        Some(c) => Some(Number::Register(shares[c])),
                        None => Some(Number::Known(Double::zero())),
                    },
                    None => None,
                };
                numbers.push(number);
                j += 1;
            }
            assert(frame::terms_of(numbers@, program@) =~= Seq::new(
                seen.len(),
                |k: int| shared(entry@, seen[k]),
            ));
            columns.push(
                SheetColumn { name: entry.column.duplicate(), cells: Cells::Float64(numbers) },
            );
            i += 1;
        }
        proof {
            assert(learned_names(all).take(i as int) =~= learned_names(all));
            assert(frame::sheet_columns(columns@, program@) =~= expected);
        }
        Ok(Sheet { height: x.height(), columns, program })
    }
}

impl Default for FrequencyEncoder {
    fn default() -> (r: FrequencyEncoder)
        ensures
            r.fitted() is None,
    {
        FrequencyEncoder::new()
    }
}

/// The least number of binary digits, at least one, that tells `n` categories
/// apart.
pub open spec fn bits_needed(n: nat) -> nat
    decreases n,
{
    if n <= 2 {
        1
    } else {
        bits_needed((n + 1) / 2) + 1
    }
}

/// A number of digits that suffices, one less not sufficing, is the least.
proof fn lemma_bits_needed(n: nat, bits: nat)
    requires
        bits >= 1,
        n <= power2::pow2(bits),
        bits == 1 || power2::pow2((bits - 1) as nat) < n,
    ensures
        bits == bits_needed(n),
    decreases n,
{
    power2::lemma_pow2_unfold(bits);
    power2::lemma2_to64();
    if n <= 2 {
        if bits > 1 {
            if bits > 2 {
                power2::lemma_pow2_strictly_increases(1, (bits - 1) as nat);
            }
        }
    } else {
        if bits > 2 {
            power2::lemma_pow2_unfold((bits - 1) as nat);
        }
        lemma_bits_needed((n + 1) / 2, (bits - 1) as nat);
    }
}

/// The digits suffice for the categories, and fewer would not, unless there is
/// only one.
pub proof fn law_bits_needed(n: nat)
    ensures
        bits_needed(n) >= 1,
        n <= power2::pow2(bits_needed(n)),
        bits_needed(n) == 1 || power2::pow2((bits_needed(n) - 1) as nat) < n,
    decreases n,
{
    power2::lemma2_to64();
    power2::lemma_pow2_unfold(bits_needed(n));
    if n > 2 {
        law_bits_needed((n + 1) / 2);
        if bits_needed(n) > 2 {
            power2::lemma_pow2_unfold((bits_needed(n) - 1) as nat);
        }
    }
}

/// Digit `j` of a number, the least significant being digit `0`.
pub open spec fn bit(id: nat, j: nat) -> nat {
    (id / power2::pow2(j)) % 2
}

/// The number that the first `n` digits of `id` stand for.
pub open spec fn from_bits(id: nat, n: nat) -> nat
    decreases n,
{
    if n == 0 {
        0
    } else {
        from_bits(id, (n - 1) as nat) + bit(id, (n - 1) as nat) * power2::pow2((n - 1) as nat)
    }
}

/// The digits of a code give the code back.
pub proof fn law_bits_recover(id: nat, n: nat)
    requires
        id < power2::pow2(n),
    ensures
        from_bits(id, n) == id,
{
    lemma_from_bits(id, n);
    power2::lemma_pow2_pos(n);
    vstd::arithmetic::div_mod::lemma_small_mod(id, power2::pow2(n));
}

/// The first digits of a number are its remainder.
proof fn lemma_from_bits(id: nat, n: nat)
    ensures
        from_bits(id, n) == id % power2::pow2(n),
    decreases n,
{
    if n == 0 {
        power2::lemma2_to64();
        assert(id % 1 == 0);
    } else {
        let m = (n - 1) as nat;
        lemma_from_bits(id, m);
        power2::lemma_pow2_unfold(n);
        power2::lemma_pow2_pos(m);
        vstd::arithmetic::div_mod::lemma_mod_breakdown(id as int, power2::pow2(m) as int, 2);
        assert(power2::pow2(m) * 2 == 2 * power2::pow2(m));
        assert(power2::pow2(m) * ((id / power2::pow2(m)) % 2) == ((id / power2::pow2(m)) % 2) * power2::pow2(m))
            by (nonlinear_arith);
    }
}

/// The digits of the codes of two categories that were learned differ
/// somewhere.
pub proof fn law_bits_tell_apart(entry: LearnedView, a: Seq<char>, b: Seq<char>)
    requires
        entry.sound(),
        entry.categories.contains(a),
        entry.categories.contains(b),
        a != b,
    ensures
        exists|j: nat|
            j < bits_needed(entry.categories.len()) && #[trigger] bit(
                entry.code(a)->0 as nat,
                j,
            ) != bit(entry.code(b)->0 as nat, j),
{
    let n = bits_needed(entry.categories.len());
    let x = entry.code(a)->0 as nat;
    let y = entry.code(b)->0 as nat;
    law_bits_needed(entry.categories.len());
    law_bits_recover(x, n);
    law_bits_recover(y, n);
    if forall|j: nat| j < n ==> #[trigger] bit(x, j) == bit(y, j) {
        lemma_same_bits(x, y, n);
    }
}

/// The same digits stand for the same number.
proof fn lemma_same_bits(x: nat, y: nat, n: nat)
    requires
        forall|j: nat| j < n ==> #[trigger] bit(x, j) == bit(y, j),
    ensures
        from_bits(x, n) == from_bits(y, n),
    decreases n,
{
    if n > 0 {
        let m = (n - 1) as nat;
        lemma_same_bits(x, y, m);
        assert(bit(x, m) == bit(y, m));
    }
}

/// The codes of learned categories ascend as the categories do, and are less
/// than their number.
pub proof fn law_codes_ascend(entry: LearnedView, a: Seq<char>, b: Seq<char>)
    requires
        entry.sound(),
        entry.categories.contains(a),
        entry.categories.contains(b),
    ensures
        0 <= entry.code(a)->0 < entry.categories.len(),
        entry.code(a)->0 < entry.code(b)->0 <==> text::less(a, b),
        entry.code(a) == entry.code(b) <==> a == b,
{
    let list = entry.categories;
    let i = list.index_of(a);
    let j = list.index_of(b);
    if i < j {
        assert(text::less(list[i], list[j]));
    } else if j < i {
        text::lemma_less_asymmetric(list[j], list[i]);
    } else {
        text::law_less_irreflexive(a);
    }
}

/// A value that was learned raises exactly one of the flags of its column.
pub proof fn law_one_flag(entry: LearnedView, value: Seq<char>, i: int)
    requires
        entry.sound(),
        entry.categories.contains(value),
        0 <= i < entry.categories.len(),
    ensures
        flag(Some(value), entry.categories[i]) == Term::Value(Double { bits: crate::double::ONE })
            <==> entry.code(value) == Some(i),
{
    let list = entry.categories;
    let k = list.index_of(value);
    if list[i] == value && i != k {
        if i < k {
            text::lemma_less_asymmetric(list[i], list[k]);
        } else {
            text::lemma_less_asymmetric(list[k], list[i]);
        }
    }
}

/// Digit `j` of the code of a cell; a category that was not learned has the
/// code `0`.
pub open spec fn bit_cell(entry: LearnedView, j: nat, cell: Option<Seq<char>>) -> Option<u32> {
    match cell {
        Some(v) => Some(
            bit(
                match entry.code(v) {
                    Some(i) => i as nat,
                    None => 0,
                },
                j,
            ) as u32,
        ),
        None => None,
    }
}

/// The column of the digits `j` of the codes of a column.
pub open spec fn bit_column(
    entry: LearnedView,
    name: Seq<char>,
    cells: Seq<Option<Seq<char>>>,
    j: nat,
) -> SheetColumnView {
    SheetColumnView {
        name: name + "_bit_"@ + text::decimal(j),
        cells: CellsView::UInt32(Seq::new(cells.len(), |i: int| bit_cell(entry, j, cells[i]))),
    }
}

/// The first entry for a column.
pub open spec fn entry_for(list: Seq<LearnedView>, name: Seq<char>) -> Option<LearnedView>
    decreases list.len(),
{
    if list.len() == 0 {
        None
    } else {
        match entry_for(list.drop_last(), name) {
            Some(entry) => Some(entry),
            None => if list.last().column == name {
                Some(list.last())
            } else {
                None
            },
        }
    }
}

/// The columns of digits of a column.
pub open spec fn bit_columns(entry: LearnedView, column: ColumnView) -> Seq<SheetColumnView> {
    Seq::new(
        bits_needed(entry.categories.len()),
        |j: int| bit_column(entry, column.name, column.values->Text_0, j as nat),
    )
}

/// The columns that a binary encoder makes: each learned column is replaced by
/// its digits, the others are kept.
pub open spec fn binary_columns(list: Seq<LearnedView>, columns: Seq<ColumnView>) -> Seq<
    SheetColumnView,
>
    decreases columns.len(),
{
    if columns.len() == 0 {
        Seq::empty()
    } else {
        let last = columns.last();
        binary_columns(list, columns.drop_last()) + match entry_for(list, last.name) {
            Some(entry) => bit_columns(entry, last),
            None => seq![
                SheetColumnView { name: last.name, cells: CellsView::Kept(columns.len() - 1) },
            ],
        }
    }
}

/// What a binary encoder makes of a frame.
pub open spec fn binary_outcome(fitted: Option<Seq<LearnedView>>, x: FrameView) -> Result<
    SheetView,
    ErrorView,
> {
    match fitted {
        None => Err(ErrorView::plain(Problem::NotFitted, "BinaryEncoder"@)),
        Some(list) => match error::first_fault(
            learned_names(list),
            text_fault("BinaryEncoder"@, x),
        ) {
            Some(e) => Err(e),
            None => {
                let columns = binary_columns(list, x.columns);
                match collision(Seq::empty(), frame::sheet_names(columns)) {
                    Some(name) => Err(
                        ErrorView::about(Problem::NameTaken, "BinaryEncoder"@, name),
                    ),
                    None => Ok(SheetView { height: x.height, columns }),
                }
            },
        },
    }
}

/// The number of digits for `n` categories.
fn bit_count(n: usize) -> (r: usize)
    requires
        n <= frame::MOST_ROWS,
    ensures
        r == bits_needed(n as nat),
{
    let mut bits: usize = 1;
    let mut capacity: u64 = 2;
    proof {
        power2::lemma2_to64();
    }
    while capacity < n as u64
        invariant
            n <= frame::MOST_ROWS,
            1 <= bits <= capacity,
            capacity <= 2 * frame::MOST_ROWS,
            capacity == power2::pow2(bits as nat),
            bits == 1 || power2::pow2((bits - 1) as nat) < n,
        decreases 2 * frame::MOST_ROWS - capacity,
    {
        proof {
            power2::lemma_pow2_unfold((bits + 1) as nat);
        }
        capacity = capacity * 2;
        bits = bits + 1;
    }
    proof {
        lemma_bits_needed(n as nat, bits as nat);
    }
    bits
}

/// The columns of digits of a column.
fn make_bits(entry: &Learned, name: &Text, cells: &Vec<Option<Text>>) -> (r: Vec<SheetColumn>)
    requires
        entry@.sound(),
    ensures
        r.len() == bits_needed(entry@.categories.len()),
        forall|j: int|
            0 <= j < r.len() ==> frame::sheet_column(#[trigger] r@[j], Seq::<Term>::empty())
                == bit_column(entry@, name@, frame::gap_views(cells@), j as nat),
{
    let ghost seen = frame::gap_views(cells@);
    let bits: usize = bit_count(entry.categories.len());
    let mut r: Vec<SheetColumn> = Vec::new();
    let mut j: usize = 0;
    let mut power: u64 = 1;
    proof {
        power2::lemma2_to64();
        law_bits_needed(entry@.categories.len());
    }
    while j < bits
        invariant
            j <= bits,
            r.len() == j,
            entry@.sound(),
            bits == bits_needed(entry@.categories.len()),
            bits == 1 || power2::pow2((bits - 1) as nat) < entry@.categories.len(),
            power == power2::pow2(j as nat),
            power >= 1,
            seen == frame::gap_views(cells@),
            forall|k: int|
                0 <= k < j ==> frame::sheet_column(#[trigger] r@[k], Seq::<Term>::empty())
                    == bit_column(entry@, name@, seen, k as nat),
        decreases bits - j,
    {
        let mut digits: Vec<Option<u32>> = Vec::new();
        let mut i: usize = 0;
        while i < cells.len()
            invariant
                i <= cells.len(),
                digits.len() == i,
                entry@.sound(),
                power == power2::pow2(j as nat),
                power >= 1,
                seen == frame::gap_views(cells@),
                forall|k: int|
                    0 <= k < i ==> #[trigger] digits@[k] == bit_cell(entry@, j as nat, seen[k]),
            decreases cells.len() - i,
        {
            let digit: Option<u32> = match &cells[i] {
                Some(v) => {
                    let code: u64 = match code_of(entry, v) {
                        Some(c) => c as u64,
                        None => 0,
                    };
                    Some(((code / power) % 2) as u32)
                },
                None => None,
            };
            digits.push(digit);
            i += 1;
        }
        assert(digits@ =~= Seq::new(seen.len(), |k: int| bit_cell(entry@, j as nat, seen[k])));
        let mut full: Text = name.duplicate();
        full.push_str("_bit_");
        full.push_decimal(j as u64);
        r.push(SheetColumn { name: full, cells: Cells::UInt32(digits) });
        proof {
            power2::lemma_pow2_unfold((j + 1) as nat);
            power2::lemma2_to64();
            if j < bits - 1 {
                power2::lemma_pow2_strictly_increases(j as nat, (bits - 1) as nat);
            }
        }
        j += 1;
        power = power * 2;
    }
    r
}

/// Where the first entry for a column stands.
fn find_entry(list: &Vec<Learned>, name: &Text) -> (r: Option<usize>)
    ensures
        match r {
            Some(i) => i < list.len() && entry_for(learned_views(list@), name@) == Some(
                list@[i as int]@,
            ),
            None => entry_for(learned_views(list@), name@) is None,
        },
{
    let ghost all = learned_views(list@);
    let mut i: usize = 0;
    assert(all.take(0) =~= Seq::<LearnedView>::empty());
    while i < list.len()
        invariant
            i <= list.len(),
            all == learned_views(list@),
            entry_for(all.take(i as int), name@) is None,
        decreases list.len() - i,
    {
        assert(all.take(i + 1).drop_last() =~= all.take(i as int));
        if list[i].column.same(name) {
            proof {
                lemma_entry_stays(all, name@, i + 1);
            }
            return Some(i);
        }
        i += 1;
    }
    assert(all.take(i as int) =~= all);
    None
}

/// The first entry among the first `n` is the first of all.
proof fn lemma_entry_stays(list: Seq<LearnedView>, name: Seq<char>, n: int)
    requires
        0 <= n <= list.len(),
        entry_for(list.take(n), name) is Some,
    ensures
        entry_for(list, name) == entry_for(list.take(n), name),
    decreases list.len() - n,
{
    if n == list.len() {
        assert(list.take(n) =~= list);
    } else {
        assert(list.take(n + 1).drop_last() =~= list.take(n));
        lemma_entry_stays(list, name, n + 1);
    }
}

/// An entry that is found is one of the list, for the column asked for.
proof fn lemma_entry_for(list: Seq<LearnedView>, name: Seq<char>)
    ensures
        entry_for(list, name) matches Some(entry) ==> list.contains(entry) && entry.column == name,
    decreases list.len(),
{
    if list.len() > 0 {
        lemma_entry_for(list.drop_last(), name);
        match entry_for(list.drop_last(), name) {
            Some(entry) => {
                let front = list.drop_last();
                let k = choose|k: int| 0 <= k < front.len() && front[k] == entry;
                assert(list[k] == entry);
            },
            None => {
                if list.last().column == name {
                    assert(list[list.len() - 1] == list.last());
                }
            },
        }
    }
}

/// Encodes categories as the binary digits of their codes.
///
/// A learned column is replaced by its columns of digits, named
/// `{column}_bit_{j}`, the least significant first. A category that was not
/// learned has only zeros; missing values stay missing. All other columns are
/// kept.
pub struct BinaryEncoder {
    learned: Option<Vec<Learned>>,
}

impl BinaryEncoder {
    #[verifier::type_invariant]
    spec fn well_formed(self) -> bool {
        self.learned matches Some(list) ==> all_sound(learned_views(list@))
    }

    /// What was learned at the last fit, if it succeeded.
    pub closed spec fn fitted(self) -> Option<Seq<LearnedView>> {
        match self.learned {
            Some(list) => Some(learned_views(list@)),
            None => None,
        }
    }

    /// An encoder that has not been fitted.
    pub fn new() -> (r: BinaryEncoder)
        ensures
            r.fitted() is None,
    {
        BinaryEncoder { learned: None }
    }

    /// Learns the categories of `x`. A fit that fails leaves the encoder
    /// unfitted.
    pub fn fit(&mut self, x: &Frame) -> (r: Result<(), Error>)
        ensures
            match learning_fault("BinaryEncoder"@, x@) {
                Some(e) => r is Err && r->Err_0@ == e && final(self).fitted() is None,
                None => r is Ok && final(self).fitted() == Some(learned(x@.columns)),
            },
    {
        self.learned = None;
        if x.height() == 0 {
            return Err(Error::plain(Problem::NoRows, "BinaryEncoder"));
        }
        let list: Vec<Learned> = learn(x);
        if list.len() == 0 {
            return Err(Error::plain(Problem::NoTextColumns, "BinaryEncoder"));
        }
        self.learned = Some(list);
        Ok(())
    }

    /// Replaces each learned column by its digits.
    pub fn transform(&self, x: &Frame) -> (r: Result<Sheet, Error>)
        ensures
            frame::outcome(r) == binary_outcome(self.fitted(), x@),
    {
        proof {
            use_type_invariant(self);
        }
        let list = match &self.learned {
            Some(list) => list,
            None => {
                return Err(Error::plain(Problem::NotFitted, "BinaryEncoder"));
            },
        };
        let ghost all = learned_views(list@);
        let ghost fault = text_fault("BinaryEncoder"@, x@);
        let mut i: usize = 0;
        proof {
            error::lemma_fault_ends(learned_names(all), fault);
        }
        while i < list.len()
            invariant
                i <= list.len(),
                self.fitted() == Some(all),
                all == learned_views(list@),
                fault == text_fault("BinaryEncoder"@, x@),
                error::first_fault(learned_names(all).take(i as int), fault) is None,
            decreases list.len() - i,
        {
            proof {
                error::lemma_fault_step(learned_names(all), fault, i as int);
            }
            assert(learned_names(all)[i as int] == list@[i as int].column@);
            match find_text("BinaryEncoder", x, &list[i].column) {
                Ok(_) => {},
                Err(e) => {
                    assert(error::first_fault(learned_names(all), fault) == Some(e@));
                    return Err(e);
                },
            }
            i += 1;
        }
        assert(learned_names(all).take(i as int) =~= learned_names(all));
        proof {
            error::lemma_faultless(learned_names(all), fault);
        }
        let ghost none = Seq::<Term>::empty();
        let n: usize = x.width();
        let mut columns: Vec<SheetColumn> = Vec::new();
        let mut names: Vec<Text> = Vec::new();
        let mut c: usize = 0;
        assert(x@.columns.take(0) =~= Seq::<ColumnView>::empty());
        assert(frame::sheet_columns(columns@, none) =~= binary_columns(all, x@.columns.take(0)));
        assert(text::views(names@) =~= frame::sheet_names(frame::sheet_columns(columns@, none)));
        while c < n
            invariant
                c <= n,
                n == x@.columns.len(),
                x@.valid(),
                all == learned_views(list@),
                all_sound(all),
                none == Seq::<Term>::empty(),
                fault == text_fault("BinaryEncoder"@, x@),
                forall|k: int|
                    0 <= k < learned_names(all).len() ==> fault(
                        #[trigger] learned_names(all)[k],
                    ) is None,
                frame::sheet_columns(columns@, none) == binary_columns(
                    all,
                    x@.columns.take(c as int),
                ),
                text::views(names@) == frame::sheet_names(
                    frame::sheet_columns(columns@, none),
                ),
            decreases n - c,
        {
            let ghost before = frame::sheet_columns(columns@, none);
            assert(x@.columns.take(c + 1).drop_last() =~= x@.columns.take(c as int));
            let column = x.column(c);
            let found: Option<usize> = find_entry(list, &column.name);
            match found {
                Some(at) => {
                    let entry = &list[at];
                    proof {
                        lemma_entry_for(all, column.name@);
                        assert(all[at as int] == entry@);
                        assert(learned_names(all)[at as int] == column.name@);
                        frame::lemma_find(x@, column.name@, c as int);
                    }
                    match &column.values {
                        Values::Text(cells) => {
                            let made: Vec<SheetColumn> = make_bits(entry, &column.name, cells);
                            let ghost more = bit_columns(entry@, column@);
                            let ghost made_views = frame::sheet_columns(made@, none);
                            assert(made_views =~= more);
                            let mut made: Vec<SheetColumn> = made;
                            let mut j: usize = 0;
                            while j < made.len()
                                invariant
                                    j <= made.len(),
                                    made_views == frame::sheet_columns(made@, none),
                                    text::views(names@) == frame::sheet_names(
                                        before + made_views.take(j as int),
                                    ),
                                decreases made.len() - j,
                            {
                                let ghost earlier = text::views(names@);
                                names.push(made[j].name.duplicate());
                                j += 1;
                                assert(text::views(names@) =~= earlier.push(
                                    made_views[j - 1].name,
                                ));
                                assert(before + made_views.take(j as int) =~= (before
                                    + made_views.take(j - 1)).push(made_views[j - 1]));
                                assert(text::views(names@) =~= frame::sheet_names(
                                    before + made_views.take(j as int),
                                ));
                            }
                            assert(made_views.take(j as int) =~= made_views);
                            columns.append(&mut made);
                            assert(frame::sheet_columns(columns@, none) =~= before + more);
                        },
                        _ => {
                            assert(false);
                        },
                    }
                },
                None => {
                    let ghost earlier = text::views(names@);
                    columns.push(
                        SheetColumn { name: column.name.duplicate(), cells: Cells::Kept(c) },
                    );
                    names.push(column.name.duplicate());
                    let ghost kept_column = SheetColumnView {
                        name: column.name@,
                        cells: CellsView::Kept(c as int),
                    };
                    assert(frame::sheet_columns(columns@, none) =~= before + seq![kept_column]);
                    assert(text::views(names@) =~= earlier.push(column.name@));
                    assert(text::views(names@) =~= frame::sheet_names(
                        frame::sheet_columns(columns@, none),
                    ));
                },
            }
            c += 1;
        }
        assert(x@.columns.take(c as int) =~= x@.columns);
        let taken: Vec<Text> = Vec::new();
        assert(text::views(taken@) =~= Seq::<Seq<char>>::empty());
        match find_collision(&taken, &names) {
            Some(at) => Err(Error::about(Problem::NameTaken, "BinaryEncoder", &names[at])),
            None => Ok(Sheet { height: x.height(), columns, program: Program::new() }),
        }
    }
}

impl Default for BinaryEncoder {
    fn default() -> (r: BinaryEncoder)
        ensures
            r.fitted() is None,
    {
        BinaryEncoder::new()
    }
}

/// Whether row `i` holds a category.
pub open spec fn row_holds(
    cells: Seq<Option<Seq<char>>>,
    category: Seq<char>,
) -> spec_fn(int) -> bool {
    |i: int| cells[i] == Some(category)
}

/// Whether row `i` holds any category.
pub open spec fn row_filled(cells: Seq<Option<Seq<char>>>) -> spec_fn(int) -> bool {
    |i: int| cells[i] is Some
}

/// Categories are counted by the rows that hold them.
proof fn lemma_rows_counted(cells: Seq<Option<Seq<char>>>, category: Seq<char>)
    ensures
        tally::occurrences(frame::present(cells), category) == count::counted(
            cells.len(),
            row_holds(cells, category),
        ),
        frame::present(cells).len() == count::counted(cells.len(), row_filled(cells)),
    decreases cells.len(),
{
    if cells.len() > 0 {
        let front = cells.drop_last();
        lemma_rows_counted(front, category);
        count::lemma_agreeing(front.len(), row_holds(front, category), row_holds(cells, category));
        count::lemma_agreeing(front.len(), row_filled(front), row_filled(cells));
        if let Some(v) = cells.last() {
            let list = frame::present(front);
            assert(list.push(v).drop_last() =~= list);
        }
    }
}

/// What does not occur is not counted.
proof fn lemma_no_occurrence(items: Seq<Seq<char>>, item: Seq<char>)
    requires
        !items.contains(item),
    ensures
        tally::occurrences(items, item) == 0,
    decreases items.len(),
{
    if items.len() > 0 {
        let front = items.drop_last();
        assert(items[items.len() - 1] == items.last());
        if front.contains(item) {
            let k = choose|k: int| 0 <= k < front.len() && front[k] == item;
            assert(items[k] == item);
        }
        lemma_no_occurrence(front, item);
    }
}

/// A category is replaced by how many rows of the learned column hold it, whether
/// it was learned or not, and by its share of the rows that hold any: the share
/// times their number is the count. Missing values stay missing. In exact
/// arithmetic.
pub proof fn law_counts_and_shares(
    name: Seq<char>,
    cells: Seq<Option<Seq<char>>>,
    cell: Option<Seq<char>>,
    value: spec_fn(Double) -> real,
)
    requires
        cells.len() <= u32::MAX,
        value(Double { bits: 0 }) == 0real,
    ensures
        match cell {
            Some(v) => {
                let n = count::counted(cells.len(), row_holds(cells, v));
                let all = count::counted(cells.len(), row_filled(cells));
                &&& counted(learned_of(name, cells), cell) matches Some(m) && m == n
                &&& shared(learned_of(name, cells), cell) matches Some(t) && program::exact(t, value)
                    * (all as int as real) == n as int as real
            },
            None => {
                &&& counted(learned_of(name, cells), cell) is None
                &&& shared(learned_of(name, cells), cell) is None
            },
        },
{
    if let Some(v) = cell {
        let values = frame::present(cells);
        let entry = learned_of(name, cells);
        lemma_rows_counted(cells, v);
        count::lemma_counted(cells.len(), row_holds(cells, v), 0);
        tally::law_distinct(values);
        reveal_with_fuel(program::exact, 2);
        if entry.categories.contains(v) {
            let i = entry.categories.index_of(v);
            assert(entry.counts[i] == tally::occurrences(values, v));
            assert(values.contains(v));
            calculus::lemma_quotient(entry.counts[i] as int as real, entry.total as int as real);
        } else {
            assert(!values.contains(v));
            lemma_no_occurrence(values, v);
            let t = values.len() as int as real;
            assert(0real * t == 0real) by (nonlinear_arith);
        }
    }
}

/// Whether learned category `i` comes before a text.
pub open spec fn category_before(entry: LearnedView, text: Seq<char>) -> spec_fn(int) -> bool {
    |i: int| text::less(entry.categories[i], text)
}

/// The code of a category is how many learned categories come before it; one that
/// was not learned has none.
pub proof fn law_code_counts(entry: LearnedView, category: Seq<char>)
    requires
        entry.sound(),
    ensures
        match entry.code(category) {
            Some(i) => entry.categories.contains(category) && i == count::counted(
                entry.categories.len(),
                category_before(entry, category),
            ),
            None => !entry.categories.contains(category),
        },
{
    let list = entry.categories;
    if list.contains(category) {
        let i = list.index_of(category);
        let before = category_before(entry, category);
        assert forall|k: int| 0 <= k < i implies #[trigger] before(k) by {
            assert(text::less(list[k], list[i]));
        }
        assert forall|k: int| 0 <= k < list.len() && #[trigger] before(k) implies k < i by {
            if k == i {
                text::law_less_irreflexive(category);
            } else if k > i {
                assert(text::less(list[i], list[k]));
                text::lemma_less_asymmetric(list[i], list[k]);
            }
        }
        count::lemma_at_least(list.len(), before, i as nat);
        count::lemma_at_most(list.len(), before, i as nat);
    }
}

} // verus!
