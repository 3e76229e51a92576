//! Time elapsed since a reference.

use crate::calculus;
use crate::double::Double;
use crate::error;
use crate::error::Error;
use crate::error::ErrorView;
use crate::error::Problem;
use crate::frame;
use crate::frame::Cells;
use crate::frame::CellsView;
use crate::frame::Frame;
use crate::frame::FrameView;
use crate::frame::Number;
use crate::frame::Resolution;
use crate::frame::Sheet;
use crate::frame::SheetColumn;
use crate::frame::SheetColumnView;
use crate::frame::SheetView;
use crate::frame::Values;
use crate::frame::ValuesView;
use crate::preprocessing::dates;
use crate::preprocessing::encoder;
use crate::program;
use crate::program::Operation;
use crate::program::Program;
use crate::program::Term;
use crate::text;
use crate::text::Text;
use vstd::prelude::*;

verus! {

/// The microseconds of a day.
pub const MICROS_PER_DAY: i64 = 86_400_000_000;

/// The nanoseconds of a day.
pub const NANOS_PER_DAY: u64 = 86_400_000_000_000;

/// The unit in which elapsed time is given.
#[derive(Clone, Copy, Debug, PartialEq, Eq, Structural)]
pub enum TimeUnit {
    Seconds,
    Minutes,
    Hours,
    Days,
    Weeks,
}

impl TimeUnit {
    /// The ending of the names of columns of elapsed time.
    pub open spec fn ending(self) -> Seq<char> {
        match self {
            TimeUnit::Seconds => "_since_seconds"@,
            TimeUnit::Minutes => "_since_minutes"@,
            TimeUnit::Hours => "_since_hours"@,
            TimeUnit::Days => "_since_days"@,
            TimeUnit::Weeks => "_since_weeks"@,
        }
    }

    /// A number of days in this unit.
    pub open spec fn converted(self, days: Term) -> Term {
        match self {
            TimeUnit::Seconds => Term::Times(Box::new(days), Box::new(Term::Natural(86_400))),
            TimeUnit::Minutes => Term::Times(Box::new(days), Box::new(Term::Natural(1_440))),
            TimeUnit::Hours => Term::Times(Box::new(days), Box::new(Term::Natural(24))),
            TimeUnit::Days => days,
            TimeUnit::Weeks => Term::Over(Box::new(days), Box::new(Term::Natural(7))),
        }
    }

    /// The ending of the names of columns of elapsed time.
    fn suffix(self) -> (r: &'static str)
        ensures
            r@ == self.ending(),
    {
        match self {
            TimeUnit::Seconds => "_since_seconds",
            TimeUnit::Minutes => "_since_minutes",
            TimeUnit::Hours => "_since_hours",
            TimeUnit::Days => "_since_days",
            TimeUnit::Weeks => "_since_weeks",
        }
    }

    /// Appends a number of days in this unit.
    fn convert_days(self, days: usize, program: &mut Program) -> (r: usize)
        requires
            days < old(program)@.len(),
        ensures
            program::extends(old(program)@, final(program)@),
            r < final(program)@.len(),
            final(program)@[r as int] == self.converted(old(program)@[days as int]),
    {
        match self {
            TimeUnit::Seconds => {
                let factor: usize = program.append(Operation::Natural(86_400));
                program.append(Operation::Times(days, factor))
            },
            TimeUnit::Minutes => {
                let factor: usize = program.append(Operation::Natural(1_440));
                program.append(Operation::Times(days, factor))
            },
            TimeUnit::Hours => {
                let factor: usize = program.append(Operation::Natural(24));
                program.append(Operation::Times(days, factor))
            },
            TimeUnit::Days => days,
            TimeUnit::Weeks => {
                let divisor: usize = program.append(Operation::Natural(7));
                program.append(Operation::Over(days, divisor))
            },
        }
    }
}

/// What elapsed time is counted from.
#[derive(Clone, Copy, Debug, PartialEq, Eq, Structural)]
pub enum ReferenceTime {
    /// A time, in microseconds since 1970-01-01.
    Fixed(i64),
    /// The least value of each column.
    Min,
    /// The greatest value of each column.
    Max,
}

/// The reference of a column.
#[derive(Clone, Copy, Debug, PartialEq, Eq, Structural)]
pub enum ReferenceValue {
    /// For dates: days since 1970-01-01.
    Days(i64),
    /// For times: nanoseconds since 1970-01-01.
    Nanos(i128),
}

/// The nanoseconds of a unit of a resolution.
pub open spec fn nanos_per_unit(resolution: Resolution) -> nat {
    match resolution {
        Resolution::Nanoseconds => 1,
        Resolution::Microseconds => 1_000,
        Resolution::Milliseconds => 1_000_000,
    }
}

/// The least of a list of numbers.
pub open spec fn least(list: Seq<int>) -> int
    decreases list.len(),
{
    if list.len() <= 1 {
        list[0]
    } else {
        let front = least(list.drop_last());
        if list.last() < front {
            list.last()
        } else {
            front
        }
    }
}

/// The greatest of a list of numbers.
pub open spec fn greatest(list: Seq<int>) -> int
    decreases list.len(),
{
    if list.len() <= 1 {
        list[0]
    } else {
        let front = greatest(list.drop_last());
        if list.last() > front {
            list.last()
        } else {
            front
        }
    }
}

/// The days that are not missing.
pub open spec fn present_days(cells: Seq<Option<i32>>) -> Seq<int> {
    let days = frame::present(cells);
    Seq::new(days.len(), |i: int| days[i] as int)
}

/// The times that are not missing.
pub open spec fn present_times(cells: Seq<Option<i64>>) -> Seq<int> {
    let times = frame::present(cells);
    Seq::new(times.len(), |i: int| times[i] as int)
}

/// The reference of a column of dates or times; none where there is no value
/// to learn it from.
pub open spec fn learned(reference: ReferenceTime, values: ValuesView) -> Option<ReferenceValue> {
    match values {
        ValuesView::Date(cells) => {
            let days = present_days(cells);
            match reference {
                ReferenceTime::Fixed(t) => Some(
                    ReferenceValue::Days(((t as int) / (MICROS_PER_DAY as int)) as i64),
                ),
                ReferenceTime::Min => if days.len() == 0 {
                    None
                } else {
                    Some(ReferenceValue::Days(least(days) as i64))
                },
                ReferenceTime::Max => if days.len() == 0 {
                    None
                } else {
                    Some(ReferenceValue::Days(greatest(days) as i64))
                },
            }
        },
        ValuesView::Datetime(resolution, cells) => {
            let times = present_times(cells);
            match reference {
                ReferenceTime::Fixed(t) => Some(ReferenceValue::Nanos((t * 1_000) as i128)),
                ReferenceTime::Min => if times.len() == 0 {
                    None
                } else {
                    Some(
                        ReferenceValue::Nanos((least(times) * nanos_per_unit(resolution)) as i128),
                    )
                },
                ReferenceTime::Max => if times.len() == 0 {
                    None
                } else {
                    Some(
                        ReferenceValue::Nanos(
                            (greatest(times) * nanos_per_unit(resolution)) as i128,
                        ),
                    )
                },
            }
        },
        _ => None,
    }
}

/// How many nanoseconds a time lies after a reference.
pub open spec fn nanos_since(resolution: Resolution, nanos: int, time: int) -> int {
    time * nanos_per_unit(resolution) - nanos
}

/// The nanoseconds from a reference to a time: counted in units of the
/// resolution where the reference is a whole number of them.
pub open spec fn gap_since(resolution: Resolution, nanos: int, time: int) -> Term {
    let unit = nanos_per_unit(resolution);
    if nanos % (unit as int) == 0 {
        Term::Times(
            Box::new(Term::Integer(time - nanos / (unit as int))),
            Box::new(Term::Natural(unit)),
        )
    } else {
        Term::Integer(nanos_since(resolution, nanos, time))
    }
}

/// The days from a reference to a time.
pub open spec fn days_since(resolution: Resolution, nanos: int, time: int) -> Term {
    Term::Over(
        Box::new(gap_since(resolution, nanos, time)),
        Box::new(Term::Natural(NANOS_PER_DAY as nat)),
    )
}

/// In exact arithmetic elapsed time is the time less the reference, whatever
/// the resolution.
pub proof fn law_days_since(
    resolution: Resolution,
    nanos: int,
    time: int,
    value: spec_fn(Double) -> real,
)
    ensures
        program::exact(days_since(resolution, nanos, time), value) == (nanos_since(
            resolution,
            nanos,
            time,
        ) as real) / (NANOS_PER_DAY as int as real),
{
    reveal_with_fuel(program::exact, 3);
    let unit = nanos_per_unit(resolution) as int;
    if nanos % unit == 0 {
        let whole = nanos / unit;
        vstd::arithmetic::div_mod::lemma_fundamental_div_mod(nanos, unit);
        lemma_product(time - whole, unit);
        assert((time - whole) * unit == time * unit - nanos) by (nonlinear_arith)
            requires
                nanos == unit * whole,
        ;
    }
}

/// The product of whole numbers is the same among the real numbers.
proof fn lemma_product(a: int, b: int)
    requires
        0 <= b,
    ensures
        (a as real) * (b as real) == (a * b) as real,
    decreases b,
{
    if b > 0 {
        lemma_product(a, b - 1);
        let (x, y) = (a as real, (b - 1) as real);
        assert(b as real == y + 1real);
        assert(x * (y + 1real) == x * y + x) by (nonlinear_arith);
        assert(a * b == a * (b - 1) + a) by (nonlinear_arith);
        assert((a * b) as real == (a * (b - 1)) as real + x);
    } else {
        assert((a as real) * 0real == 0real) by (nonlinear_arith);
        assert(a * b == 0) by (nonlinear_arith)
            requires
                b == 0,
        ;
    }
}

/// The elapsed time of the cells of a column; none where the reference is not
/// of the column's kind.
pub open spec fn elapsed(reference: ReferenceValue, unit: TimeUnit, values: ValuesView) -> Option<
    Seq<Option<Term>>,
> {
    match (values, reference) {
        (ValuesView::Date(cells), ReferenceValue::Days(days)) => Some(
            Seq::new(
                cells.len(),
                |i: int|
                    match cells[i] {
                        Some(v) => Some(unit.converted(Term::Integer(v - days))),
                        None => None,
                    },
            ),
        ),
        (ValuesView::Datetime(resolution, cells), ReferenceValue::Nanos(nanos)) => Some(
            Seq::new(
                cells.len(),
                |i: int|
                    match cells[i] {
                        Some(v) => Some(
                            unit.converted(days_since(resolution, nanos as int, v as int)),
                        ),
                        None => None,
                    },
            ),
        ),
        _ => None,
    }
}

/// Why a column has no reference: it has no values.
pub open spec fn null_fault(reference: ReferenceTime, x: FrameView) -> spec_fn(
    Seq<char>,
) -> Option<ErrorView> {
    |name: Seq<char>|
        if learned(reference, x.columns[x.find(name)->0].values) is None {
            Some(ErrorView::about(Problem::NoValues, "TimeSince"@, name))
        } else {
            None
        }
}

/// Why the transformer cannot be fitted to a frame.
pub open spec fn since_fault(
    asked: Option<Seq<Seq<char>>>,
    reference: ReferenceTime,
    unit: TimeUnit,
    x: FrameView,
) -> Option<ErrorView> {
    match dates::choice_fault("TimeSince"@, asked, x) {
        Some(e) => Some(e),
        None => {
            let names = dates::chosen(asked, x);
            match error::first_fault(names, null_fault(reference, x)) {
                Some(e) => Some(e),
                None => match encoder::collision(
                    x.names(),
                    dates::suffixed(names, unit.ending()),
                ) {
                    Some(name) => Some(
                        ErrorView::about(Problem::NameTaken, "TimeSince"@, name),
                    ),
                    None => None,
                },
            }
        },
    }
}

/// What is learned of a frame: the reference of each column.
pub open spec fn references(
    asked: Option<Seq<Seq<char>>>,
    reference: ReferenceTime,
    x: FrameView,
) -> Seq<(Seq<char>, ReferenceValue)> {
    let names = dates::chosen(asked, x);
    Seq::new(
        names.len(),
        |i: int| (names[i], learned(reference, x.columns[x.find(names[i])->0].values)->0),
    )
}

/// The names of learned columns.
pub open spec fn reference_names(list: Seq<(Seq<char>, ReferenceValue)>) -> Seq<Seq<char>> {
    Seq::new(list.len(), |i: int| list[i].0)
}

/// Why the elapsed time of a learned column cannot be given: the column is
/// missing, or not of the kind that it was.
pub open spec fn elapsed_fault(unit: TimeUnit, x: FrameView) -> spec_fn(
    (Seq<char>, ReferenceValue),
) -> Option<ErrorView> {
    |entry: (Seq<char>, ReferenceValue)|
        match x.find(entry.0) {
            None => Some(ErrorView::about(Problem::ColumnNotFound, "TimeSince"@, entry.0)),
            Some(i) => if elapsed(entry.1, unit, x.columns[i].values) is None {
                Some(
                    ErrorView::detailed(
                        Problem::ExpectedDate,
                        "TimeSince"@,
                        entry.0,
                        x.columns[i].values.dtype(),
                    ),
                )
            } else {
                None
            },
        }
}

/// The column of elapsed time of a learned column.
pub open spec fn since_column(
    unit: TimeUnit,
    x: FrameView,
    entry: (Seq<char>, ReferenceValue),
) -> SheetColumnView {
    SheetColumnView {
        name: entry.0 + unit.ending(),
        cells: CellsView::Float64(
            elapsed(entry.1, unit, x.columns[x.find(entry.0)->0].values)->0,
        ),
    }
}

/// What the transformer makes of a frame.
pub open spec fn since_outcome(
    unit: TimeUnit,
    fitted: Option<Seq<(Seq<char>, ReferenceValue)>>,
    x: FrameView,
) -> Result<SheetView, ErrorView> {
    match fitted {
        None => Err(ErrorView::plain(Problem::NotFitted, "TimeSince"@)),
        Some(list) => match error::first_fault(
            dates::suffixed(reference_names(list), unit.ending()),
            dates::taken_fault("TimeSince"@, x),
        ) {
            Some(e) => Err(e),
            None => match error::first_fault(list, elapsed_fault(unit, x)) {
                Some(e) => Err(e),
                None => Ok(
                    SheetView {
                        height: x.height,
                        columns: frame::kept_columns(x) + Seq::new(
                            list.len(),
                            |i: int| since_column(unit, x, list[i]),
                        ),
                    },
                ),
            },
        },
    }
}

/// The columns of the frame come first and unchanged, one column of elapsed
/// time follows for each column that was learned, and none has a name that the
/// frame has.
pub proof fn law_elapsed_appended(
    unit: TimeUnit,
    list: Seq<(Seq<char>, ReferenceValue)>,
    x: FrameView,
)
    requires
        since_outcome(unit, Some(list), x) is Ok,
    ensures
        ({
            let made = since_outcome(unit, Some(list), x)->Ok_0.columns;
            let kept = frame::kept_columns(x);
            let labels = dates::suffixed(reference_names(list), unit.ending());
            &&& made.take(kept.len() as int) == kept
            &&& frame::sheet_names(made.skip(kept.len() as int)) == labels
            &&& forall|i: int| 0 <= i < labels.len() ==> x.find(#[trigger] labels[i]) is None
        }),
{
    let made = since_outcome(unit, Some(list), x)->Ok_0.columns;
    let kept = frame::kept_columns(x);
    let labels = dates::suffixed(reference_names(list), unit.ending());
    error::lemma_faultless(labels, dates::taken_fault("TimeSince"@, x));
    assert(made.take(kept.len() as int) =~= kept);
    assert(frame::sheet_names(made.skip(kept.len() as int)) =~= labels);
}

/// The least of a list is one of it, and none is less.
pub proof fn lemma_least(list: Seq<int>)
    requires
        list.len() > 0,
    ensures
        list.contains(least(list)),
        forall|i: int| 0 <= i < list.len() ==> least(list) <= #[trigger] list[i],
    decreases list.len(),
{
    if list.len() > 1 {
        let front = list.drop_last();
        lemma_least(front);
        let k = choose|k: int| 0 <= k < front.len() && front[k] == least(front);
        assert(list[k] == least(front));
        assert(list[list.len() - 1] == list.last());
        assert forall|i: int| 0 <= i < list.len() implies least(list) <= #[trigger] list[i] by {
            if i < front.len() {
                assert(front[i] == list[i]);
            }
        }
    } else {
        assert(list[0] == least(list));
    }
}

/// The greatest of a list is one of it, and none is greater.
pub proof fn lemma_greatest(list: Seq<int>)
    requires
        list.len() > 0,
    ensures
        list.contains(greatest(list)),
        forall|i: int| 0 <= i < list.len() ==> greatest(list) >= #[trigger] list[i],
    decreases list.len(),
{
    if list.len() > 1 {
        let front = list.drop_last();
        lemma_greatest(front);
        let k = choose|k: int| 0 <= k < front.len() && front[k] == greatest(front);
        assert(list[k] == greatest(front));
        assert(list[list.len() - 1] == list.last());
        assert forall|i: int| 0 <= i < list.len() implies greatest(list) >= #[trigger] list[i] by {
            if i < front.len() {
                assert(front[i] == list[i]);
            }
        }
    } else {
        assert(list[0] == greatest(list));
    }
}

/// Counted from the least time of a column, no time of it lies before the
/// reference, and the least lies exactly on it; whatever the resolution.
pub proof fn law_least_reference(resolution: Resolution, cells: Seq<Option<i64>>, i: int)
    requires
        0 <= i < cells.len(),
        cells[i] is Some,
    ensures
        learned(ReferenceTime::Min, ValuesView::Datetime(resolution, cells)) matches Some(
            ReferenceValue::Nanos(nanos),
        ) && nanos_since(resolution, nanos as int, cells[i]->0 as int) >= 0 && (cells[i]->0
            == least(present_times(cells)) ==> nanos_since(
            resolution,
            nanos as int,
            cells[i]->0 as int,
        ) == 0),
{
    lemma_reference_exact(resolution, cells, i);
    let times = present_times(cells);
    lemma_least(times);
    let k = choose|k: int| 0 <= k < times.len() && times[k] == least(times);
    assert(-0x8000_0000_0000_0000 <= times[k] <= 0x7fff_ffff_ffff_ffff);
    let j = choose|j: int| 0 <= j < times.len() && times[j] == cells[i]->0;
    lemma_whole_units(resolution, times[k]);
}

/// Counted from the greatest time of a column, no time of it lies after the
/// reference, and the greatest lies exactly on it; whatever the resolution.
pub proof fn law_greatest_reference(resolution: Resolution, cells: Seq<Option<i64>>, i: int)
    requires
        0 <= i < cells.len(),
        cells[i] is Some,
    ensures
        learned(ReferenceTime::Max, ValuesView::Datetime(resolution, cells)) matches Some(
            ReferenceValue::Nanos(nanos),
        ) && nanos_since(resolution, nanos as int, cells[i]->0 as int) <= 0 && (cells[i]->0
            == greatest(present_times(cells)) ==> nanos_since(
            resolution,
            nanos as int,
            cells[i]->0 as int,
        ) == 0),
{
    lemma_reference_exact(resolution, cells, i);
    let times = present_times(cells);
    lemma_greatest(times);
    let k = choose|k: int| 0 <= k < times.len() && times[k] == greatest(times);
    assert(-0x8000_0000_0000_0000 <= times[k] <= 0x7fff_ffff_ffff_ffff);
    let j = choose|j: int| 0 <= j < times.len() && times[j] == cells[i]->0;
    lemma_whole_units(resolution, times[k]);
}

/// Times in nanoseconds fit 128 bits.
proof fn lemma_whole_units(resolution: Resolution, time: int)
    requires
        -0x8000_0000_0000_0000 <= time <= 0x7fff_ffff_ffff_ffff,
    ensures
        (time * nanos_per_unit(resolution)) as i128 == time * nanos_per_unit(resolution),
{
    let n = nanos_per_unit(resolution) as int;
    let whole = time * nanos_per_unit(resolution);
    assert(whole == time * n);
    if n == 1 {
        assert(time * n == time) by (nonlinear_arith)
            requires
                n == 1,
        ;
    } else if n == 1_000 {
        assert(time * n == time * 1_000) by (nonlinear_arith)
            requires
                n == 1_000,
        ;
    } else {
        assert(time * n == time * 1_000_000) by (nonlinear_arith)
            requires
                n == 1_000_000,
        ;
    }
}

/// A time that is not missing is among those that are not missing.
proof fn lemma_reference_exact(resolution: Resolution, cells: Seq<Option<i64>>, i: int)
    requires
        0 <= i < cells.len(),
        cells[i] is Some,
    ensures
        present_times(cells).contains(cells[i]->0 as int),
{
    frame::lemma_present(cells);
    let v = cells[i]->0;
    assert(cells.contains(Some(v)));
    let times = frame::present(cells);
    assert(times.contains(v));
    let k = choose|k: int| 0 <= k < times.len() && times[k] == v;
    assert(present_times(cells)[k] == v);
}

/// The least and the greatest of the numbers that are not missing.
fn day_bounds(cells: &Vec<Option<i32>>) -> (r: Option<(i32, i32)>)
    ensures
        match r {
            Some(b) => present_days(cells@).len() > 0 && b.0 == least(present_days(cells@)) && b.1
                == greatest(present_days(cells@)),
            None => present_days(cells@).len() == 0,
        },
{
    let mut r: Option<(i32, i32)> = None;
    let mut i: usize = 0;
    assert(cells@.take(0) =~= Seq::<Option<i32>>::empty());
    while i < cells.len()
        invariant
            i <= cells.len(),
            ({
                let days = present_days(cells@.take(i as int));
                match r {
                    Some(b) => days.len() > 0 && b.0 == least(days) && b.1 == greatest(days),
                    None => days.len() == 0,
                }
            }),
        decreases cells.len() - i,
    {
        let ghost before = present_days(cells@.take(i as int));
        let ghost after = present_days(cells@.take(i + 1));
        assert(cells@.take(i + 1).drop_last() =~= cells@.take(i as int));
        match cells[i] {
            Some(v) => {
                assert(after =~= before.push(v as int));
                assert(after.drop_last() =~= before);
                r = match r {
                    Some((low, high)) => Some(
                        (
                            if v < low {
                                v
                            } else {
                                low
                            },
                            if v > high {
                                v
                            } else {
                                high
                            },
                        ),
                    ),
                    None => Some((v, v)),
                };
            },
            None => {
                assert(after =~= before);
            },
        }
        i += 1;
    }
    assert(cells@.take(i as int) =~= cells@);
    r
}

/// The least and the greatest of the numbers that are not missing.
fn time_bounds(cells: &Vec<Option<i64>>) -> (r: Option<(i64, i64)>)
    ensures
        match r {
            Some(b) => present_times(cells@).len() > 0 && b.0 == least(present_times(cells@))
                && b.1 == greatest(present_times(cells@)),
            None => present_times(cells@).len() == 0,
        },
{
    let mut r: Option<(i64, i64)> = None;
    let mut i: usize = 0;
    assert(cells@.take(0) =~= Seq::<Option<i64>>::empty());
    while i < cells.len()
        invariant
            i <= cells.len(),
            ({
                let times = present_times(cells@.take(i as int));
                match r {
                    Some(b) => times.len() > 0 && b.0 == least(times) && b.1 == greatest(times),
                    None => times.len() == 0,
                }
            }),
        decreases cells.len() - i,
    {
        let ghost before = present_times(cells@.take(i as int));
        let ghost after = present_times(cells@.take(i + 1));
        assert(cells@.take(i + 1).drop_last() =~= cells@.take(i as int));
        match cells[i] {
            Some(v) => {
                assert(after =~= before.push(v as int));
                assert(after.drop_last() =~= before);
                r = match r {
                    Some((low, high)) => Some(
                        (
                            if v < low {
                                v
                            } else {
                                low
                            },
                            if v > high {
                                v
                            } else {
                                high
                            },
                        ),
                    ),
                    None => Some((v, v)),
                };
            },
            None => {
                assert(after =~= before);
            },
        }
        i += 1;
    }
    assert(cells@.take(i as int) =~= cells@);
    r
}

/// A time in nanoseconds.
fn native_to_nanos(native: i64, resolution: Resolution) -> (r: i128)
    ensures
        r == native * nanos_per_unit(resolution),
        -10_000_000_000_000_000_000_000_000 <= r <= 10_000_000_000_000_000_000_000_000,
{
    match resolution {
        Resolution::Nanoseconds => native as i128,
        Resolution::Microseconds => native as i128 * 1_000,
        Resolution::Milliseconds => native as i128 * 1_000_000,
    }
}

/// How many units a reference is, where it is a whole number of them.
fn whole_units(nanos: i128, unit: i128) -> (r: Option<i128>)
    requires
        bounded(ReferenceValue::Nanos(nanos)),
        1 <= unit <= 1_000_000,
    ensures
        match r {
            Some(q) => (nanos as int) % (unit as int) == 0 && q == (nanos as int) / (unit as int),
            None => (nanos as int) % (unit as int) != 0,
        },
        r matches Some(q) ==> bounded(ReferenceValue::Nanos(q)),
{
    let size: i128 = if nanos >= 0 {
        nanos
    } else {
        -nanos
    };
    let count: i128 = size / unit;
    let rest: i128 = size % unit;
    let q: i128 = if nanos >= 0 {
        count
    } else {
        -count
    };
    proof {
        vstd::arithmetic::div_mod::lemma_fundamental_div_mod(size as int, unit as int);
        vstd::arithmetic::div_mod::lemma_mod_bound(size as int, unit as int);
        let (s, k, c, r) = (size as int, unit as int, count as int, rest as int);
        assert(0 <= c <= s) by (nonlinear_arith)
            requires
                s == k * c + r,
                0 <= r < k,
                0 <= s,
        ;
        if nanos >= 0 || rest == 0 {
            assert(nanos == k * q + r) by (nonlinear_arith)
                requires
                    s == k * c + r,
                    nanos == s && q == c || nanos == -s && q == -c && r == 0,
            ;
            vstd::arithmetic::div_mod::lemma_fundamental_div_mod_converse(
                nanos as int,
                k,
                q as int,
                r,
            );
        } else {
            assert(nanos == k * (-c - 1) + (k - r)) by (nonlinear_arith)
                requires
                    s == k * c + r,
                    nanos == -s,
            ;
            vstd::arithmetic::div_mod::lemma_fundamental_div_mod_converse(
                nanos as int,
                k,
                -c - 1,
                k - r,
            );
        }
    }
    if rest == 0 {
        Some(q)
    } else {
        None
    }
}

/// Whether a reference is within what columns can hold.
pub open spec fn bounded(reference: ReferenceValue) -> bool {
    reference matches ReferenceValue::Nanos(n) ==> -10_000_000_000_000_000_000_000_000 <= n
        <= 10_000_000_000_000_000_000_000_000
}

/// The reference of a column of dates or times.
fn learn_reference(reference: ReferenceTime, values: &Values) -> (r: Option<ReferenceValue>)
    ensures
        r == learned(reference, values@),
        r matches Some(v) ==> bounded(v),
{
    match values {
        Values::Date(cells) => match reference {
            ReferenceTime::Fixed(t) => {
                let days: i64 = if t >= 0 {
                    t / MICROS_PER_DAY
                } else {
                    let back: i128 = -((MICROS_PER_DAY as i128 - 1 - t as i128)
                        / MICROS_PER_DAY as i128);
                    back as i64
                };
                assert(days == (t as int) / (MICROS_PER_DAY as int));
                Some(ReferenceValue::Days(days))
            },
            ReferenceTime::Min => match day_bounds(cells) {
                Some((low, _high)) => Some(ReferenceValue::Days(low as i64)),
                None => None,
            },
            ReferenceTime::Max => match day_bounds(cells) {
                Some((_low, high)) => Some(ReferenceValue::Days(high as i64)),
                None => None,
            },
        },
        Values::Datetime(resolution, cells) => match reference {
            ReferenceTime::Fixed(t) => Some(ReferenceValue::Nanos(t as i128 * 1_000)),
            ReferenceTime::Min => match time_bounds(cells) {
                Some((low, _high)) => Some(
                    ReferenceValue::Nanos(native_to_nanos(low, *resolution)),
                ),
                None => None,
            },
            ReferenceTime::Max => match time_bounds(cells) {
                Some((_low, high)) => Some(
                    ReferenceValue::Nanos(native_to_nanos(high, *resolution)),
                ),
                None => None,
            },
        },
        _ => None,
    }
}

/// The elapsed time of the cells of a column.
fn elapsed_series(
    reference: ReferenceValue,
    unit: TimeUnit,
    values: &Values,
    program: &mut Program,
) -> (r: Option<Vec<Option<Number>>>)
    requires
        bounded(reference),
    ensures
        program::extends(old(program)@, final(program)@),
        match r {
            Some(numbers) => {
                &&& elapsed(reference, unit, values@) == Some(
                    frame::terms_of(numbers@, final(program)@),
                )
                &&& forall|i: int|
                    0 <= i < numbers.len() ==> frame::settled(
                        #[trigger] numbers@[i],
                        final(program)@.len(),
                    )
            },
            None => elapsed(reference, unit, values@) is None,
        },
{
    let ghost start = program@;
    match (values, reference) {
        (Values::Date(cells), ReferenceValue::Days(days)) => {
            let ghost wanted = elapsed(reference, unit, values@)->0;
            let mut numbers: Vec<Option<Number>> = Vec::new();
            let mut i: usize = 0;
            while i < cells.len()
                invariant
                    i <= cells.len(),
                    numbers.len() == i,
                    program::extends(start, program@),
                    wanted.len() == cells.len(),
                    forall|k: int|
                        0 <= k < cells.len() ==> #[trigger] wanted[k] == (match cells@[k] {
                            Some(v) => Some(unit.converted(Term::Integer(v - days))),
                            None => None,
                        }),
                    forall|k: int|
                        0 <= k < i ==> frame::settled(#[trigger] numbers@[k], program@.len())
                            && frame::optional_term(numbers@[k], program@) == wanted[k],
                decreases cells.len() - i,
            {
                let ghost held = program@;
                let number: Option<Number> = match cells[i] {
                    Some(v) => {
                        let gap: usize = program.append(
                            Operation::Integer(v as i128 - days as i128),
                        );
                        Some(Number::Register(unit.convert_days(gap, program)))
                    },
                    None => None,
                };
                proof {
                    assert forall|k: int| 0 <= k < i implies frame::settled(
                        #[trigger] numbers@[k],
                        program@.len(),
                    ) && frame::optional_term(numbers@[k], program@) == wanted[k] by {
                        assert(frame::settled(numbers@[k], held.len()));
                    }
                    assert(wanted[i as int] == frame::optional_term(number, program@));
                }
                numbers.push(number);
                i += 1;
            }
            assert(frame::terms_of(numbers@, program@) =~= wanted);
            Some(numbers)
        },
        (Values::Datetime(resolution, cells), ReferenceValue::Nanos(nanos)) => {
            let ghost wanted = elapsed(reference, unit, values@)->0;
            let res: Resolution = *resolution;
            let per: u64 = match res {
                Resolution::Nanoseconds => 1,
                Resolution::Microseconds => 1_000,
                Resolution::Milliseconds => 1_000_000,
            };
            let whole: Option<i128> = whole_units(nanos, per as i128);
            let mut numbers: Vec<Option<Number>> = Vec::new();
            let mut i: usize = 0;
            while i < cells.len()
                invariant
                    i <= cells.len(),
                    numbers.len() == i,
                    bounded(ReferenceValue::Nanos(nanos)),
                    per == nanos_per_unit(res),
                    match whole {
                        Some(q) => (nanos as int) % (per as int) == 0 && q == (nanos as int) / (
                        per as int),
                        None => (nanos as int) % (per as int) != 0,
                    },
                    whole matches Some(q) ==> bounded(ReferenceValue::Nanos(q)),
                    program::extends(start, program@),
                    wanted.len() == cells.len(),
                    forall|k: int|
                        0 <= k < cells.len() ==> #[trigger] wanted[k] == (match cells@[k] {
                            Some(v) => Some(
                                unit.converted(days_since(res, nanos as int, v as int)),
                            ),
                            None => None,
                        }),
                    forall|k: int|
                        0 <= k < i ==> frame::settled(#[trigger] numbers@[k], program@.len())
                            && frame::optional_term(numbers@[k], program@) == wanted[k],
                decreases cells.len() - i,
            {
                let ghost held = program@;
                let number: Option<Number> = match cells[i] {
                    Some(v) => {
                        let gap: usize = match whole {
                            Some(q) => {
                                let units: usize = program.append(Operation::Integer(v as i128 - q));
                                let size: usize = program.append(Operation::Natural(per));
                                program.append(Operation::Times(units, size))
                            },
                            None => {
                                let time: i128 = native_to_nanos(v, res);
                                program.append(Operation::Integer(time - nanos))
                            },
                        };
                        let day: usize = program.append(Operation::Natural(NANOS_PER_DAY));
                        let days: usize = program.append(Operation::Over(gap, day));
                        Some(Number::Register(unit.convert_days(days, program)))
                    },
                    None => None,
                };
                proof {
                    assert forall|k: int| 0 <= k < i implies frame::settled(
                        #[trigger] numbers@[k],
                        program@.len(),
                    ) && frame::optional_term(numbers@[k], program@) == wanted[k] by {
                        assert(frame::settled(numbers@[k], held.len()));
                    }
                    assert(wanted[i as int] == frame::optional_term(number, program@));
                }
                numbers.push(number);
                i += 1;
            }
            assert(frame::terms_of(numbers@, program@) =~= wanted);
            Some(numbers)
        },
        _ => None,
    }
}

/// Gives the time elapsed since a reference in columns of dates and times.
///
/// Every column is kept; for each column worked on, `{column}_since_{unit}` is
/// added. Times before the reference are negative; missing values stay
/// missing.
pub struct TimeSince {
    asked: Option<Vec<Text>>,
    unit: TimeUnit,
    reference: ReferenceTime,
    state: Option<SinceState>,
}

/// What was learned.
struct SinceState {
    names: Vec<Text>,
    references: Vec<ReferenceValue>,
}

impl SinceState {
    spec fn shown(self) -> Seq<(Seq<char>, ReferenceValue)> {
        Seq::new(self.names@.len(), |i: int| (self.names@[i]@, self.references@[i]))
    }

    spec fn sound(self) -> bool {
        &&& self.names.len() == self.references.len()
        &&& forall|i: int|
            0 <= i < self.references.len() ==> bounded(#[trigger] self.references@[i])
    }
}

impl TimeSince {
    #[verifier::type_invariant]
    spec fn well_formed(self) -> bool {
        self.state matches Some(state) ==> state.sound()
    }

    /// What the last fit learned, if it succeeded and no setting was changed
    /// since.
    pub closed spec fn fitted(self) -> Option<Seq<(Seq<char>, ReferenceValue)>> {
        match self.state {
            Some(state) => Some(state.shown()),
            None => None,
        }
    }

    /// The columns that were asked for.
    pub closed spec fn asked_for(self) -> Option<Seq<Seq<char>>> {
        match self.asked {
            Some(list) => Some(text::views(list@)),
            None => None,
        }
    }

    /// The unit.
    pub closed spec fn given_in(self) -> TimeUnit {
        self.unit
    }

    /// The reference.
    pub closed spec fn counted_from(self) -> ReferenceTime {
        self.reference
    }

    /// A transformer for all columns of dates and times, in days, from the
    /// least value of each.
    pub fn new() -> (r: TimeSince)
        ensures
            r.fitted() is None,
            r.asked_for() is None,
            r.given_in() == TimeUnit::Days,
            r.counted_from() == ReferenceTime::Min,
    {
        TimeSince { asked: None, unit: TimeUnit::Days, reference: ReferenceTime::Min, state: None }
    }

    /// Asks for columns by name. The transformer has to be fitted anew.
    pub fn columns(self, cols: &[&str]) -> (r: TimeSince)
        ensures
            r.fitted() is None,
            r.asked_for() == Some(text::str_views(cols@)),
            r.given_in() == self.given_in(),
            r.counted_from() == self.counted_from(),
    {
        TimeSince {
            asked: Some(text::of_all(cols)),
            unit: self.unit,
            reference: self.reference,
            state: None,
        }
    }

    /// Sets the unit. The transformer has to be fitted anew.
    pub fn unit(self, unit: TimeUnit) -> (r: TimeSince)
        ensures
            r.fitted() is None,
            r.asked_for() == self.asked_for(),
            r.given_in() == unit,
            r.counted_from() == self.counted_from(),
    {
        TimeSince { asked: self.asked, unit, reference: self.reference, state: None }
    }

    /// Sets the reference. The transformer has to be fitted anew.
    pub fn reference(self, reference: ReferenceTime) -> (r: TimeSince)
        ensures
            r.fitted() is None,
            r.asked_for() == self.asked_for(),
            r.given_in() == self.given_in(),
            r.counted_from() == reference,
    {
        TimeSince { asked: self.asked, unit: self.unit, reference, state: None }
    }

    /// The columns that were asked for.
    pub fn selected_columns(&self) -> (r: Option<&Vec<Text>>)
        ensures
            match r {
                Some(list) => self.asked_for() == Some(text::views(list@)),
                None => self.asked_for() is None,
            },
    {
        match &self.asked {
            Some(list) => Some(list),
            None => None,
        }
    }

    /// The unit.
    pub fn selected_unit(&self) -> (r: TimeUnit)
        ensures
            r == self.given_in(),
    {
        self.unit
    }

    /// The reference.
    pub fn selected_reference(&self) -> (r: ReferenceTime)
        ensures
            r == self.counted_from(),
    {
        self.reference
    }

    /// Whether the transformer is fitted.
    pub fn is_fitted(&self) -> (r: bool)
        ensures
            r == (self.fitted() is Some),
    {
        self.state.is_some()
    }

    /// Chooses the columns to work on and learns the reference of each. A fit
    /// that fails leaves the transformer unfitted.
    pub fn fit(&mut self, x: &Frame) -> (r: Result<(), Error>)
        ensures
            final(self).asked_for() == old(self).asked_for(),
            final(self).given_in() == old(self).given_in(),
            final(self).counted_from() == old(self).counted_from(),
            match since_fault(
                old(self).asked_for(),
                old(self).counted_from(),
                old(self).given_in(),
                x@,
            ) {
                Some(e) => r is Err && r->Err_0@ == e && final(self).fitted() is None,
                None => r is Ok && final(self).fitted() == Some(
                    references(old(self).asked_for(), old(self).counted_from(), x@),
                ),
            },
    {
        self.state = None;
        let names: Vec<Text> = match dates::choose_columns("TimeSince", &self.asked, x) {
            Ok(names) => names,
            Err(e) => {
                return Err(e);
            },
        };
        let ghost all = text::views(names@);
        let ghost fault = null_fault(self.reference, x@);
        let mut found: Vec<ReferenceValue> = Vec::new();
        let mut i: usize = 0;
        proof {
            error::lemma_fault_ends(all, fault);
            lemma_chosen_dated("TimeSince"@, self.asked_for(), x@);
        }
        while i < names.len()
            invariant
                i <= names.len(),
                self.state is None,
                self.asked == old(self).asked,
                self.unit == old(self).unit,
                self.reference == old(self).reference,
                dates::choice_fault("TimeSince"@, self.asked_for(), x@) is None,
                all == text::views(names@),
                all == dates::chosen(self.asked_for(), x@),
                fault == null_fault(self.reference, x@),
                error::first_fault(all.take(i as int), fault) is None,
                forall|k: int|
                    0 <= k < all.len() ==> dates::date_fault("TimeSince"@, x@)(
                        #[trigger] all[k],
                    ) is None,
                found.len() == i,
                forall|k: int|
                    0 <= k < i ==> Some(#[trigger] found@[k]) == learned(
                        self.reference,
                        x@.columns[x@.find(all[k])->0].values,
                    ) && bounded(found@[k]),
            decreases names.len() - i,
        {
            proof {
                error::lemma_fault_step(all, fault, i as int);
            }
            assert(all[i as int] == names@[i as int]@);
            let column = match dates::find_dated("TimeSince", x, &names[i]) {
                Ok(column) => column,
                Err(e) => {
                    assert(false);
                    return Err(e);
                },
            };
            match learn_reference(self.reference, &column.values) {
                Some(value) => {
                    found.push(value);
                },
                None => {
                    return Err(Error::about(Problem::NoValues, "TimeSince", &names[i]));
                },
            }
            i += 1;
        }
        assert(all.take(i as int) =~= all);
        let made: Vec<Text> = dates::add_suffix(&names, self.unit.suffix());
        match encoder::find_collision(&x.names(), &made) {
            Some(i) => {
                return Err(Error::about(Problem::NameTaken, "TimeSince", &made[i]));
            },
            None => {},
        }
        let state: SinceState = SinceState { names, references: found };
        assert(state.shown() =~= references(self.asked_for(), self.reference, x@));
        self.state = Some(state);
        Ok(())
    }

    /// Adds a column of elapsed time for each column worked on.
    pub fn transform(&self, x: &Frame) -> (r: Result<Sheet, Error>)
        ensures
            frame::outcome(r) == since_outcome(self.given_in(), self.fitted(), x@),
    {
        proof {
            use_type_invariant(self);
        }
        let state = match &self.state {
            Some(state) => state,
            None => {
                return Err(Error::plain(Problem::NotFitted, "TimeSince"));
            },
        };
        let ghost all = state.shown();
        let ghost unit = self.unit;
        let made: Vec<Text> = dates::add_suffix(&state.names, self.unit.suffix());
        assert(text::views(state.names@) =~= reference_names(all));
        match dates::find_taken("TimeSince", x, &made) {
            Ok(_) => {},
            Err(e) => {
                return Err(e);
            },
        }
        let ghost fault = elapsed_fault(unit, x@);
        let mut program: Program = Program::new();
        let mut columns: Vec<SheetColumn> = frame::keep_all(x);
        let ghost base = frame::kept_columns(x@);
        let ghost more = Seq::new(all.len(), |k: int| since_column(unit, x@, all[k]));
        let ghost width = columns.len();
        let mut i: usize = 0;
        proof {
            error::lemma_fault_ends(all, fault);
            assert(frame::sheet_columns(columns@, program@) == base);
            assert forall|k: int| 0 <= k < columns.len() implies frame::sheet_column(
                #[trigger] columns@[k],
                program@,
            ) == (base + more)[k] by {
                assert(frame::sheet_columns(columns@, program@)[k] == base[k]);
            }
        }
        while i < state.names.len()
            invariant
                i <= state.names.len(),
                self.fitted() == Some(all),
                self.unit == unit,
                all == state.shown(),
                state.sound(),
                text::views(made@) == dates::suffixed(reference_names(all), unit.ending()),
                error::first_fault(
                    dates::suffixed(reference_names(all), unit.ending()),
                    dates::taken_fault("TimeSince"@, x@),
                ) is None,
                fault == elapsed_fault(unit, x@),
                error::first_fault(all.take(i as int), fault) is None,
                more == Seq::new(all.len(), |k: int| since_column(unit, x@, all[k])),
                base.len() == width,
                columns.len() == width + i,
                forall|k: int|
                    0 <= k < columns.len() ==> frame::column_settled(
                        #[trigger] columns@[k],
                        program@.len(),
                    ) && frame::sheet_column(columns@[k], program@) == (base + more)[k],
            decreases state.names.len() - i,
        {
            proof {
                error::lemma_fault_step(all, fault, i as int);
            }
            let name = &state.names[i];
            assert(all[i as int].0 == name@);
            let reference: ReferenceValue = state.references[i];
            let at: usize = match x.find(name) {
                Some(at) => at,
                None => {
                    return Err(Error::about(Problem::ColumnNotFound, "TimeSince", name));
                },
            };
            let column = x.column(at);
            let ghost held = program@;
            let numbers: Vec<Option<Number>> = match elapsed_series(
                reference,
                self.unit,
                &column.values,
                &mut program,
            ) {
                Some(numbers) => numbers,
                None => {
                    return Err(
                        Error::detailed(
                            Problem::ExpectedDate,
                            "TimeSince",
                            name,
                            column.values.dtype(),
                        ),
                    );
                },
            };
            let added: SheetColumn = SheetColumn {
                name: made[i].duplicate(),
                cells: Cells::Float64(numbers),
            };
            proof {
                assert forall|k: int| 0 <= k < columns.len() implies frame::column_settled(
                    #[trigger] columns@[k],
                    program@.len(),
                ) && frame::sheet_column(columns@[k], program@) == (base + more)[k] by {
                    frame::lemma_column_settled(columns@[k], held, program@);
                }
                assert(text::views(made@)[i as int] == name@ + unit.ending());
                assert(frame::sheet_column(added, program@) == more[i as int]);
                assert((base + more)[width + i] == more[i as int]);
            }
            columns.push(added);
            i += 1;
        }
        proof {
            assert(all.take(i as int) =~= all);
            assert(frame::sheet_columns(columns@, program@) =~= base + more);
        }
        Ok(Sheet { height: x.height(), columns, program })
    }
}

/// Chosen columns hold dates or times.
proof fn lemma_chosen_dated(who: Seq<char>, asked: Option<Seq<Seq<char>>>, x: FrameView)
    requires
        x.valid(),
        dates::choice_fault(who, asked, x) is None,
    ensures
        forall|k: int|
            0 <= k < dates::chosen(asked, x).len() ==> dates::date_fault(who, x)(
                #[trigger] dates::chosen(asked, x)[k],
            ) is None,
{
    let names = dates::chosen(asked, x);
    let fault = dates::date_fault(who, x);
    if asked is None || asked->0.len() == 0 {
        assert forall|k: int| 0 <= k < names.len() implies fault(#[trigger] names[k]) is None by {
            let i = lemma_dated_names(x.columns, k);
            frame::lemma_find(x, names[k], i);
        }
    } else {
        error::lemma_faultless(asked->0, fault);
        dates::law_deduplicated(asked->0);
        assert forall|k: int| 0 <= k < names.len() implies fault(#[trigger] names[k]) is None by {
            assert(names.contains(names[k]));
            assert(asked->0.contains(names[k]));
            let i = choose|i: int| 0 <= i < asked->0.len() && asked->0[i] == names[k];
            assert(fault(asked->0[i]) is None);
        }
    }
}

/// A name of a column of dates or times is that of such a column.
proof fn lemma_dated_names(columns: Seq<crate::frame::ColumnView>, k: int) -> (i: int)
    requires
        0 <= k < dates::dated_names(columns).len(),
    ensures
        0 <= i < columns.len(),
        columns[i].name == dates::dated_names(columns)[k],
        dates::dated(columns[i].values),
    decreases columns.len(),
{
    let front = columns.drop_last();
    if k < dates::dated_names(front).len() {
        let i = lemma_dated_names(front, k);
        assert(front[i] == columns[i]);
        i
    } else {
        columns.len() - 1
    }
}

impl Default for TimeSince {
    fn default() -> (r: TimeSince)
        ensures
            r.fitted() is None,
            r.asked_for() is None,
            r.given_in() == TimeUnit::Days,
            r.counted_from() == ReferenceTime::Min,
    {
        TimeSince::new()
    }
}

/// The seconds of a unit.
pub open spec fn seconds_of(unit: TimeUnit) -> real {
    match unit {
        TimeUnit::Seconds => 1real,
        TimeUnit::Minutes => 60real,
        TimeUnit::Hours => 3600real,
        TimeUnit::Days => 86400real,
        TimeUnit::Weeks => 604800real,
    }
}

/// Elapsed time, times the seconds of its unit, is the seconds from the reference
/// to the date or time: a date has 86400 seconds, and a time counts thousandths,
/// millionths or billionths of a second by its resolution. Missing values stay
/// missing. In exact arithmetic.
pub proof fn law_elapsed_time(
    reference: ReferenceValue,
    unit: TimeUnit,
    values: ValuesView,
    i: int,
    value: spec_fn(Double) -> real,
)
    requires
        0 <= i < values.len(),
    ensures
        match (values, reference) {
            (ValuesView::Date(cells), ReferenceValue::Days(days)) => elapsed(
                reference,
                unit,
                values,
            ) matches Some(made) && made.len() == cells.len() && match cells[i] {
                Some(v) => made[i] matches Some(t) && program::exact(t, value) * seconds_of(unit)
                    == ((v - days) * 86400) as real,
                None => made[i] is None,
            },
            (ValuesView::Datetime(resolution, cells), ReferenceValue::Nanos(nanos)) => {
                let per_unit: int = match resolution {
                    Resolution::Milliseconds => 1_000_000,
                    Resolution::Microseconds => 1_000,
                    Resolution::Nanoseconds => 1,
                };
                elapsed(reference, unit, values) matches Some(made) && made.len() == cells.len()
                    && match cells[i] {
                    Some(v) => made[i] matches Some(t) && (program::exact(t, value) * seconds_of(
                        unit,
                    )) * 1_000_000_000real == (v * per_unit - nanos) as real,
                    None => made[i] is None,
                }
            },
            _ => true,
        },
{
    match (values, reference) {
        (ValuesView::Date(cells), ReferenceValue::Days(days)) => {
            if let Some(v) = cells[i] {
                reveal_with_fuel(program::exact, 2);
                lemma_converted(unit, Term::Integer(v - days), value);
                assert(((v - days) * 86400) as real == ((v - days) as real) * 86400real);
            }
        },
        (ValuesView::Datetime(resolution, cells), ReferenceValue::Nanos(nanos)) => {
            if let Some(v) = cells[i] {
                let term = days_since(resolution, nanos as int, v as int);
                law_days_since(resolution, nanos as int, v as int, value);
                lemma_converted(unit, term, value);
                let gap = nanos_since(resolution, nanos as int, v as int) as real;
                calculus::lemma_quotient(gap, 86_400_000_000_000real);
            }
        },
        _ => {},
    }
}

/// Days in a unit, times the seconds of the unit, are the seconds of the days.
proof fn lemma_converted(unit: TimeUnit, days: Term, value: spec_fn(Double) -> real)
    ensures
        program::exact(unit.converted(days), value) * seconds_of(unit) == program::exact(
            days,
            value,
        ) * 86400real,
{
    reveal_with_fuel(program::exact, 2);
    let d = program::exact(days, value);
    assert(program::exact(Term::Natural(86_400), value) == 86400real);
    assert(program::exact(Term::Natural(1_440), value) == 1440real);
    assert(program::exact(Term::Natural(24), value) == 24real);
    assert(program::exact(Term::Natural(7), value) == 7real);
}

/// The reference of a column is the day or the time that it is counted from: a
/// fixed time, for dates the day that it falls on; or the least or the greatest
/// date or time of the column.
pub proof fn law_reference(reference: ReferenceTime, values: ValuesView)
    requires
        reference is Fixed,
    ensures
        match values {
            ValuesView::Date(_) => learned(reference, values) matches Some(r) && r matches ReferenceValue::Days(
            d) && d * 86_400_000_000 <= reference->Fixed_0 < (d + 1) * 86_400_000_000,
            ValuesView::Datetime(_, _) => learned(reference, values) matches Some(r)
                && r matches ReferenceValue::Nanos(n) && n == reference->Fixed_0 * 1000,
            _ => learned(reference, values) is None,
        },
{
    let t = reference->Fixed_0 as int;
    vstd::arithmetic::div_mod::lemma_fundamental_div_mod(t, 86_400_000_000);
}

} // verus!
