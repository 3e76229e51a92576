//! Columns of dates and times.

use crate::error;
use crate::error::Error;
use crate::error::ErrorView;
use crate::error::Problem;
use crate::frame::Column;
use crate::frame::ColumnView;
use crate::frame::Frame;
use crate::frame::FrameView;
use crate::frame::Values;
use crate::frame::ValuesView;
use crate::text;
use crate::text::Text;
use vstd::prelude::*;

verus! {

/// Whether cells are dates or times.
pub open spec fn dated(values: ValuesView) -> bool {
    values is Date || values is Datetime
}

/// The names of the columns of dates and times, in order.
pub open spec fn dated_names(columns: Seq<ColumnView>) -> Seq<Seq<char>>
    decreases columns.len(),
{
    if columns.len() == 0 {
        Seq::empty()
    } else {
        let front = dated_names(columns.drop_last());
        if dated(columns.last().values) {
            front.push(columns.last().name)
        } else {
            front
        }
    }
}

/// A list without repetitions, each item where it first stood.
pub open spec fn deduplicated(items: Seq<Seq<char>>) -> Seq<Seq<char>>
    decreases items.len(),
{
    if items.len() == 0 {
        Seq::empty()
    } else {
        let front = deduplicated(items.drop_last());
        if front.contains(items.last()) {
            front
        } else {
            front.push(items.last())
        }
    }
}

/// A list without repetitions holds what the list holds, once.
pub proof fn law_deduplicated(items: Seq<Seq<char>>)
    ensures
        forall|t: Seq<char>| #[trigger] deduplicated(items).contains(t) <==> items.contains(t),
        forall|i: int, j: int|
            0 <= i < j < deduplicated(items).len() ==> #[trigger] deduplicated(items)[i]
                != #[trigger] deduplicated(items)[j],
    decreases items.len(),
{
    if items.len() > 0 {
        let front = items.drop_last();
        let last = items.last();
        let before = deduplicated(front);
        let after = deduplicated(items);
        law_deduplicated(front);
        assert forall|t: Seq<char>| #[trigger] after.contains(t) <==> items.contains(t) by {
            if items.contains(t) {
                let k = choose|k: int| 0 <= k < items.len() && items[k] == t;
                if k < front.len() {
                    assert(front[k] == t);
                    assert(before.contains(t));
                    let m = choose|m: int| 0 <= m < before.len() && before[m] == t;
                    assert(after[m] == t);
                } else if !before.contains(last) {
                    assert(after[before.len() as int] == t);
                }
            }
            if after.contains(t) {
                let m = choose|m: int| 0 <= m < after.len() && after[m] == t;
                if m < before.len() {
                    assert(before[m] == t);
                    assert(before.contains(t));
                    let k = choose|k: int| 0 <= k < front.len() && front[k] == t;
                    assert(items[k] == t);
                } else {
                    assert(items[items.len() - 1] == t);
                }
            }
        }
        assert forall|i: int, j: int| 0 <= i < j < after.len() implies #[trigger] after[i]
            != #[trigger] after[j] by {
            assert(after[i] == before[i]);
            if j < before.len() {
                assert(after[j] == before[j]);
            } else if after[i] == last {
                assert(before.contains(last));
            }
        }
    }
}

/// Why a frame has no column of dates or times of a name.
pub open spec fn date_fault(who: Seq<char>, x: FrameView) -> spec_fn(Seq<char>) -> Option<
    ErrorView,
> {
    |name: Seq<char>|
        match x.find(name) {
            None => Some(ErrorView::about(Problem::ColumnNotFound, who, name)),
            Some(i) => if dated(x.columns[i].values) {
                None
            } else {
                Some(
                    ErrorView::detailed(
                        Problem::ExpectedDate,
                        who,
                        name,
                        x.columns[i].values.dtype(),
                    ),
                )
            },
        }
}

/// The columns to work on: those asked for, each once, or all columns of dates
/// and times where none are asked for.
pub open spec fn chosen(asked: Option<Seq<Seq<char>>>, x: FrameView) -> Seq<Seq<char>> {
    if asked is None || asked->0.len() == 0 {
        dated_names(x.columns)
    } else {
        deduplicated(asked->0)
    }
}

/// Why the columns to work on cannot be chosen.
pub open spec fn choice_fault(
    who: Seq<char>,
    asked: Option<Seq<Seq<char>>>,
    x: FrameView,
) -> Option<ErrorView> {
    if x.columns.len() == 0 || x.height == 0 {
        Some(ErrorView::plain(Problem::EmptyFrame, who))
    } else if asked is None || asked->0.len() == 0 {
        if dated_names(x.columns).len() == 0 {
            Some(ErrorView::plain(Problem::NoDateColumns, who))
        } else {
            None
        }
    } else {
        error::first_fault(asked->0, date_fault(who, x))
    }
}

/// The names that are generated from names by a suffix.
pub open spec fn suffixed(names: Seq<Seq<char>>, suffix: Seq<char>) -> Seq<Seq<char>> {
    Seq::new(names.len(), |i: int| names[i] + suffix)
}

/// Why a name cannot be generated: the frame has a column of that name.
pub open spec fn taken_fault(who: Seq<char>, x: FrameView) -> spec_fn(Seq<char>) -> Option<
    ErrorView,
> {
    |name: Seq<char>|
        if x.find(name) is Some {
            Some(ErrorView::about(Problem::NameTaken, who, name))
        } else {
            None
        }
}

/// The column of dates or times of a name, or why there is none.
pub fn find_dated<'a>(who: &str, x: &'a Frame, name: &Text) -> (r: Result<&'a Column, Error>)
    ensures
        match r {
            Ok(column) => {
                &&& date_fault(who@, x@)(name@) is None
                &&& x@.find(name@) is Some
                &&& column@ == x@.columns[x@.find(name@)->0]
                &&& dated(column@.values)
                &&& column@.values.len() == x@.height
            },
            Err(e) => date_fault(who@, x@)(name@) == Some(e@),
        },
        x@.valid(),
{
    match x.find(name) {
        None => Err(Error::about(Problem::ColumnNotFound, who, name)),
        Some(i) => {
            let column = x.column(i);
            match &column.values {
                Values::Date(_) => Ok(column),
                Values::Datetime(_, _) => Ok(column),
                other => Err(Error::detailed(Problem::ExpectedDate, who, name, other.dtype())),
            }
        },
    }
}

/// The names that are generated from names by a suffix.
pub fn add_suffix(names: &Vec<Text>, suffix: &str) -> (r: Vec<Text>)
    ensures
        text::views(r@) == suffixed(text::views(names@), suffix@),
{
    let mut r: Vec<Text> = Vec::new();
    let mut i: usize = 0;
    while i < names.len()
        invariant
            i <= names.len(),
            r.len() == i,
            forall|k: int| 0 <= k < i ==> (#[trigger] r@[k])@ == names@[k]@ + suffix@,
        decreases names.len() - i,
    {
        let mut name: Text = names[i].duplicate();
        name.push_str(suffix);
        r.push(name);
        i += 1;
    }
    assert(text::views(r@) =~= suffixed(text::views(names@), suffix@));
    r
}

/// The first generated name that the frame has already.
pub fn find_taken(who: &str, x: &Frame, names: &Vec<Text>) -> (r: Result<(), Error>)
    ensures
        match r {
            Ok(_) => error::first_fault(text::views(names@), taken_fault(who@, x@)) is None,
            Err(e) => error::first_fault(text::views(names@), taken_fault(who@, x@)) == Some(e@),
        },
{
    let ghost all = text::views(names@);
    let ghost fault = taken_fault(who@, x@);
    let mut i: usize = 0;
    proof {
        error::lemma_fault_ends(all, fault);
    }
    while i < names.len()
        invariant
            i <= names.len(),
            all == text::views(names@),
            fault == taken_fault(who@, x@),
            error::first_fault(all.take(i as int), fault) is None,
        decreases names.len() - i,
    {
        proof {
            error::lemma_fault_step(all, fault, i as int);
        }
        assert(all[i as int] == names@[i as int]@);
        match x.find(&names[i]) {
            Some(_) => {
                return Err(Error::about(Problem::NameTaken, who, &names[i]));
            },
            None => {},
        }
        i += 1;
    }
    assert(all.take(i as int) =~= all);
    Ok(())
}

/// Chooses the columns to work on.
pub fn choose_columns(who: &str, asked: &Option<Vec<Text>>, x: &Frame) -> (r: Result<
    Vec<Text>,
    Error,
>)
    ensures
        ({
            let wanted = match asked {
                Some(list) => Some(text::views(list@)),
                None => None,
            };
            match r {
                Ok(list) => choice_fault(who@, wanted, x@) is None && text::views(list@) == chosen(
                    wanted,
                    x@,
                ),
                Err(e) => choice_fault(who@, wanted, x@) == Some(e@),
            }
        }),
        x@.valid(),
{
    let n: usize = x.width();
    if n == 0 || x.height() == 0 {
        return Err(Error::plain(Problem::EmptyFrame, who));
    }
    let mut listed: bool = false;
    match asked {
        Some(list) => {
            if list.len() > 0 {
                listed = true;
            }
        },
        None => {},
    }
    let mut r: Vec<Text> = Vec::new();
    if !listed {
        let mut i: usize = 0;
        assert(x@.columns.take(0) =~= Seq::<ColumnView>::empty());
        assert(text::views(r@) =~= Seq::<Seq<char>>::empty());
        while i < n
            invariant
                i <= n,
                n == x@.columns.len(),
                text::views(r@) == dated_names(x@.columns.take(i as int)),
            decreases n - i,
        {
            let ghost before = text::views(r@);
            assert(x@.columns.take(i + 1).drop_last() =~= x@.columns.take(i as int));
            let column = x.column(i);
            let is_dated: bool = match &column.values {
                Values::Date(_) => true,
                Values::Datetime(_, _) => true,
                _ => false,
            };
            if is_dated {
                r.push(column.name.duplicate());
                assert(text::views(r@) =~= before.push(column.name@));
            }
            i += 1;
        }
        assert(x@.columns.take(i as int) =~= x@.columns);
        if r.len() == 0 {
            return Err(Error::plain(Problem::NoDateColumns, who));
        }
        return Ok(r);
    }
    match asked {
        Some(list) => {
            let ghost all = text::views(list@);
            let ghost fault = date_fault(who@, x@);
            let mut i: usize = 0;
            proof {
                error::lemma_fault_ends(all, fault);
            }
            assert(text::views(r@) =~= deduplicated(all.take(0)));
            while i < list.len()
                invariant
                    i <= list.len(),
                    list.len() > 0,
                    x@.valid(),
                    x@.columns.len() > 0,
                    x@.height > 0,
                    all == text::views(list@),
                    asked matches Some(l) && l@ == list@,
                    fault == date_fault(who@, x@),
                    error::first_fault(all.take(i as int), fault) is None,
                    text::views(r@) == deduplicated(all.take(i as int)),
                decreases list.len() - i,
            {
                let ghost before = text::views(r@);
                proof {
                    error::lemma_fault_step(all, fault, i as int);
                    assert(all.take(i + 1).drop_last() =~= all.take(i as int));
                }
                assert(all[i as int] == list@[i as int]@);
                match find_dated(who, x, &list[i]) {
                    Ok(_) => {},
                    Err(e) => {
                        return Err(e);
                    },
                }
                if !text::contains(&r, &list[i]) {
                    r.push(list[i].duplicate());
                    assert(text::views(r@) =~= before.push(all[i as int]));
                }
                i += 1;
            }
            assert(all.take(i as int) =~= all);
            Ok(r)
        },
        None => {
            assert(false);
            Ok(r)
        },
    }
}

} // verus!
