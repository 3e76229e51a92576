//! Cyclical features.
//!
//! [`CyclicalEncoder`] maps features that return to where they began (the hour
//! of a day, the day of a week) to a point on a circle.

use crate::calculus;
use crate::calculus::Calculus;
use crate::draft;
use crate::draft::Draft;
use crate::error;
use crate::error::Error;
use crate::error::ErrorView;
use crate::error::Problem;
use crate::frame;
use crate::frame::CellsView;
use crate::frame::Frame;
use crate::frame::FrameView;
use crate::frame::Number;
use crate::frame::Sheet;
use crate::frame::SheetColumnView;
use crate::frame::SheetView;
use crate::program;
use crate::program::Operation;
use crate::program::Program;
use crate::program::Term;
use crate::text;
use crate::text::Text;
use crate::util;
use vstd::prelude::*;

verus! {

/// The angle of a value on a circle that is gone round in a period.
pub open spec fn angle(value: Term, period: nat) -> Term {
    Term::Over(
        Box::new(Term::Times(Box::new(Term::FullTurn), Box::new(value))),
        Box::new(Term::Natural(period)),
    )
}

/// The sines of the angles of a column.
pub open spec fn sines(cells: Seq<Option<Term>>, period: nat) -> Seq<Option<Term>> {
    Seq::new(
        cells.len(),
        |i: int|
            match cells[i] {
                Some(v) => Some(Term::Sine(Box::new(angle(v, period)))),
                None => None,
            },
    )
}

/// The cosines of the angles of a column.
pub open spec fn cosines(cells: Seq<Option<Term>>, period: nat) -> Seq<Option<Term>> {
    Seq::new(
        cells.len(),
        |i: int|
            match cells[i] {
                Some(v) => Some(Term::Cosine(Box::new(angle(v, period)))),
                None => None,
            },
    )
}

/// Where a value stands on a circle that is gone round in a period: `turn` times
/// the value over the period.
pub open spec fn angle_of(v: real, period: nat, c: Calculus) -> real {
    c.turn * v / (period as int as real)
}

/// The cells of a value are the sine and the cosine of its angle, with their
/// signs; a missing value has none.
pub proof fn law_points(cells: Seq<Option<Term>>, period: nat, i: int, c: Calculus)
    requires
        0 <= i < cells.len(),
    ensures
        sines(cells, period).len() == cells.len(),
        cosines(cells, period).len() == cells.len(),
        match (cells[i], sines(cells, period)[i], cosines(cells, period)[i]) {
            (Some(v), Some(s), Some(t)) => {
                let at = angle_of(calculus::computed(v, c), period, c);
                calculus::computed(s, c) == (c.sine)(at) && calculus::computed(t, c) == (c.cosine)(
                    at,
                )
            },
            (None, None, None) => true,
            _ => false,
        },
{
    reveal_with_fuel(calculus::computed, 4);
}

/// A value and its mirror image, as 6 and 18 of 24 hours, have opposite sines and
/// the same cosine; so have a value and its negative. A value that is a whole
/// period greater has the same sine and cosine.
pub proof fn law_mirrored_points(
    cells: Seq<Option<Term>>,
    period: nat,
    i: int,
    j: int,
    c: Calculus,
)
    requires
        period >= 1,
        0 <= i < cells.len(),
        0 <= j < cells.len(),
        cells[i] is Some,
        cells[j] is Some,
        forall|x: real| #[trigger] (c.sine)(-x) == -(c.sine)(x),
        forall|x: real| #[trigger] (c.cosine)(-x) == (c.cosine)(x),
        forall|x: real| #[trigger] (c.sine)(x + c.turn) == (c.sine)(x),
        forall|x: real| #[trigger] (c.cosine)(x + c.turn) == (c.cosine)(x),
    ensures
        ({
            let (v, w) = (
                calculus::computed(cells[i]->0, c),
                calculus::computed(cells[j]->0, c),
            );
            let p = period as int as real;
            let (s, t) = (
                calculus::computed(sines(cells, period)[i]->0, c),
                calculus::computed(sines(cells, period)[j]->0, c),
            );
            let (a, b) = (
                calculus::computed(cosines(cells, period)[i]->0, c),
                calculus::computed(cosines(cells, period)[j]->0, c),
            );
            &&& w == p - v || w == -v ==> t == -s && b == a
            &&& w == v + p ==> t == s && b == a
        }),
{
    law_points(cells, period, i, c);
    law_points(cells, period, j, c);
    let (v, w) = (calculus::computed(cells[i]->0, c), calculus::computed(cells[j]->0, c));
    let p = period as int as real;
    let turn = c.turn;
    let (x, y) = (angle_of(v, period, c), angle_of(w, period, c));
    assert(w == -v ==> y == -x) by (nonlinear_arith)
        requires
            x == turn * v / p,
            y == turn * w / p,
            p > 0real,
    ;
    assert(w == p - v ==> y == -x + turn) by (nonlinear_arith)
        requires
            x == turn * v / p,
            y == turn * w / p,
            p > 0real,
    ;
    assert(w == v + p ==> y == x + turn) by (nonlinear_arith)
        requires
            x == turn * v / p,
            y == turn * w / p,
            p > 0real,
    ;
    assert((c.sine)(-x + turn) == (c.sine)(-x));
    assert((c.cosine)(-x + turn) == (c.cosine)(-x));
    assert((c.sine)(x + turn) == (c.sine)(x));
    assert((c.cosine)(x + turn) == (c.cosine)(x));
}

/// Whether sine and cosine together tell angles apart, up to whole turns.
pub open spec fn tells_angles(c: Calculus) -> bool {
    &&& c.turn > 0real
    &&& forall|x: real, y: real|
        (#[trigger] (c.sine)(x)) == (#[trigger] (c.sine)(y)) && (c.cosine)(x) == (c.cosine)(y)
            ==> exists|n: int| #[trigger] turns_apart(x, y, n, c)
}

/// Whether two angles are `n` turns apart.
pub open spec fn turns_apart(x: real, y: real, n: int, c: Calculus) -> bool {
    x - y == (n as real) * c.turn
}

/// Two values less than a period apart that are encoded alike are the same.
pub proof fn law_points_tell_apart(
    cells: Seq<Option<Term>>,
    period: nat,
    i: int,
    j: int,
    c: Calculus,
)
    requires
        period >= 1,
        0 <= i < cells.len(),
        0 <= j < cells.len(),
        cells[i] is Some,
        cells[j] is Some,
        tells_angles(c),
        calculus::magnitude(
            calculus::computed(cells[i]->0, c) - calculus::computed(cells[j]->0, c),
        ) < period as int as real,
        calculus::computed(sines(cells, period)[i]->0, c) == calculus::computed(
            sines(cells, period)[j]->0,
            c,
        ),
        calculus::computed(cosines(cells, period)[i]->0, c) == calculus::computed(
            cosines(cells, period)[j]->0,
            c,
        ),
    ensures
        calculus::computed(cells[i]->0, c) == calculus::computed(cells[j]->0, c),
{
    law_points(cells, period, i, c);
    law_points(cells, period, j, c);
    let (v, w) = (calculus::computed(cells[i]->0, c), calculus::computed(cells[j]->0, c));
    let p = period as int as real;
    let turn = c.turn;
    let (x, y) = (angle_of(v, period, c), angle_of(w, period, c));
    assert((c.sine)(x) == (c.sine)(y));
    let n = choose|n: int| #[trigger] turns_apart(x, y, n, c);
    let k = n as real;
    assert(v - w == k * p) by (nonlinear_arith)
        requires
            x == turn * v / p,
            y == turn * w / p,
            x - y == k * turn,
            turn > 0real,
            p > 0real,
    ;
    if n >= 1 {
        assert(k >= 1real);
        assert(k * p >= p) by (nonlinear_arith)
            requires
                k >= 1real,
                p > 0real,
        ;
    } else if n <= -1 {
        assert(k <= -1real);
        assert(k * p <= -p) by (nonlinear_arith)
            requires
                k <= -1real,
                p > 0real,
        ;
    } else {
        assert(0real * p == 0real) by (nonlinear_arith);
    }
}

/// The columns after one more column was encoded.
pub open spec fn cyclical_step(x: FrameView) -> spec_fn(
    Seq<SheetColumnView>,
    (Seq<char>, nat),
) -> Result<Seq<SheetColumnView>, ErrorView> {
    |made: Seq<SheetColumnView>, column: (Seq<char>, nat)|
        match draft::place(made, column.0) {
            None => Err(ErrorView::about(Problem::ColumnNotFound, "CyclicalEncoder"@, column.0)),
            Some(i) => match draft::cell_numbers(x, made[i].cells) {
                None => Err(
                    ErrorView::detailed(
                        Problem::ExpectedFloat64,
                        "CyclicalEncoder"@,
                        column.0,
                        draft::cell_type(x, made[i].cells),
                    ),
                ),
                Some(cells) => Ok(
                    draft::laid(
                        draft::laid(
                            made,
                            SheetColumnView {
                                name: column.0 + "_sin"@,
                                cells: CellsView::Float64(sines(cells, column.1)),
                            },
                        ),
                        SheetColumnView {
                            name: column.0 + "_cos"@,
                            cells: CellsView::Float64(cosines(cells, column.1)),
                        },
                    ),
                ),
            },
        }
}

/// What an encoder makes of a frame.
pub open spec fn cyclical_outcome(
    fitted: bool,
    x: FrameView,
    columns: Seq<(Seq<char>, nat)>,
) -> Result<SheetView, ErrorView> {
    if !fitted {
        Err(ErrorView::plain(Problem::NotFitted, "CyclicalEncoder"@))
    } else {
        match draft::steps(frame::kept_columns(x), columns, cyclical_step(x)) {
            Err(e) => Err(e),
            Ok(made) => Ok(SheetView { height: x.height, columns: made }),
        }
    }
}

/// Why a column cannot be encoded.
pub open spec fn column_fault(x: FrameView) -> spec_fn((Seq<char>, nat)) -> Option<ErrorView> {
    |column: (Seq<char>, nat)| util::number_fault("CyclicalEncoder"@, x, column.0)
}

/// Why a period cannot be used.
pub open spec fn period_fault() -> spec_fn((Seq<char>, nat)) -> Option<ErrorView> {
    |column: (Seq<char>, nat)|
        if column.1 < 1 {
            Some(ErrorView::about(Problem::InvalidPeriod, "CyclicalEncoder"@, column.0))
        } else {
            None
        }
}

/// Why an encoder cannot be fitted.
pub open spec fn cyclical_fault(columns: Seq<(Seq<char>, nat)>, x: FrameView) -> Option<ErrorView> {
    if x.height == 0 || x.columns.len() == 0 {
        Some(ErrorView::plain(Problem::EmptyFrame, "CyclicalEncoder"@))
    } else if columns.len() == 0 {
        Some(ErrorView::plain(Problem::NoColumnsGiven, "CyclicalEncoder"@))
    } else {
        match error::first_fault(columns, column_fault(x)) {
            Some(e) => Some(e),
            None => error::first_fault(columns, period_fault()),
        }
    }
}

/// Encodes columns as points on a circle.
pub struct CyclicalEncoder {
    fitted: bool,
    /// The columns to encode, with their periods.
    pub columns: Vec<(Text, usize)>,
}

/// The views of columns with their periods.
pub open spec fn period_views(columns: Seq<(Text, usize)>) -> Seq<(Seq<char>, nat)> {
    Seq::new(columns.len(), |i: int| (columns[i].0@, columns[i].1 as nat))
}

impl CyclicalEncoder {
    /// The columns to encode, with their periods.
    pub closed spec fn columns(self) -> Seq<(Seq<char>, nat)> {
        period_views(self.columns@)
    }

    /// Whether the encoder has been fitted.
    pub closed spec fn fitted(self) -> bool {
        self.fitted
    }

    /// An encoder of columns that all have the same period.
    pub fn new(columns: &[&str], period: usize) -> (r: CyclicalEncoder)
        ensures
            !r.fitted(),
            r.columns() == Seq::new(
                columns@.len(),
                |i: int| (text::str_views(columns@)[i], period as nat),
            ),
    {
        let mut list: Vec<(Text, usize)> = Vec::new();
        let mut i: usize = 0;
        while i < columns.len()
            invariant
                i <= columns.len(),
                list.len() == i,
                forall|k: int|
                    0 <= k < i ==> (#[trigger] list@[k]).0@ == columns@[k]@ && list@[k].1 == period,
            decreases columns.len() - i,
        {
            list.push((Text::of(columns[i]), period));
            i += 1;
        }
        assert(period_views(list@) =~= Seq::new(
            columns@.len(),
            |k: int| (text::str_views(columns@)[k], period as nat),
        ));
        CyclicalEncoder { fitted: false, columns: list }
    }

    /// An encoder of columns with periods of their own.
    pub fn with_periods(columns: &[(&str, usize)]) -> (r: CyclicalEncoder)
        ensures
            !r.fitted(),
            r.columns() == Seq::new(
                columns@.len(),
                |i: int| (columns@[i].0@, columns@[i].1 as nat),
            ),
    {
        let mut list: Vec<(Text, usize)> = Vec::new();
        let mut i: usize = 0;
        while i < columns.len()
            invariant
                i <= columns.len(),
                list.len() == i,
                forall|k: int|
                    0 <= k < i ==> (#[trigger] list@[k]).0@ == columns@[k].0@ && list@[k].1
                        == columns@[k].1,
            decreases columns.len() - i,
        {
            list.push((Text::of(columns[i].0), columns[i].1));
            i += 1;
        }
        assert(period_views(list@) =~= Seq::new(
            columns@.len(),
            |k: int| (columns@[k].0@, columns@[k].1 as nat),
        ));
        CyclicalEncoder { fitted: false, columns: list }
    }

    /// Checks that the columns can be encoded. After a failure the encoder is
    /// unfitted.
    pub fn fit(&mut self, x: &Frame) -> (r: Result<(), Error>)
        ensures
            final(self).columns() == old(self).columns(),
            match cyclical_fault(old(self).columns(), x@) {
                Some(e) => r is Err && r->Err_0@ == e && !final(self).fitted(),
                None => r is Ok && final(self).fitted(),
            },
    {
        self.fitted = false;
        if x.height() == 0 || x.width() == 0 {
            return Err(Error::plain(Problem::EmptyFrame, "CyclicalEncoder"));
        }
        if self.columns.len() == 0 {
            return Err(Error::plain(Problem::NoColumnsGiven, "CyclicalEncoder"));
        }
        let ghost list = self.columns();
        let ghost fault = column_fault(x@);
        let ghost second = period_fault();
        proof {
            error::lemma_fault_ends(list, fault);
            error::lemma_fault_ends(list, second);
        }
        let mut i: usize = 0;
        while i < self.columns.len()
            invariant
                i <= self.columns.len(),
                !self.fitted,
                list == self.columns(),
                list == old(self).columns(),
                list.len() > 0,
                x@.height > 0,
                x@.columns.len() > 0,
                fault == column_fault(x@),
                error::first_fault(list.take(i as int), fault) is None,
            decreases self.columns.len() - i,
        {
            proof {
                error::lemma_fault_step(list, fault, i as int);
            }
            match util::find_f64_column(x, &self.columns[i].0, "CyclicalEncoder") {
                Ok(_) => {},
                Err(e) => {
                    return Err(e);
                },
            }
            i += 1;
        }
        assert(list.take(i as int) =~= list);
        let mut j: usize = 0;
        while j < self.columns.len()
            invariant
                j <= self.columns.len(),
                !self.fitted,
                list == self.columns(),
                list == old(self).columns(),
                list.len() > 0,
                x@.height > 0,
                x@.columns.len() > 0,
                second == period_fault(),
                error::first_fault(list, column_fault(x@)) is None,
                error::first_fault(list.take(j as int), second) is None,
            decreases self.columns.len() - j,
        {
            proof {
                error::lemma_fault_step(list, second, j as int);
            }
            if self.columns[j].1 < 1 {
                return Err(
                    Error::about(Problem::InvalidPeriod, "CyclicalEncoder", &self.columns[j].0),
                );
            }
            j += 1;
        }
        assert(list.take(j as int) =~= list);
        self.fitted = true;
        Ok(())
    }

    /// Adds the sine and the cosine of the angle of each column.
    pub fn transform(&self, x: &Frame) -> (r: Result<Sheet, Error>)
        ensures
            frame::outcome(r) == cyclical_outcome(self.fitted(), x@, self.columns()),
    {
        if !self.fitted {
            return Err(Error::plain(Problem::NotFitted, "CyclicalEncoder"));
        }
        let ghost list = self.columns();
        let ghost width = x@.columns.len();
        let ghost first = frame::kept_columns(x@);
        let ghost step = cyclical_step(x@);
        let mut draft: Draft = Draft::new(x);
        let mut program: Program = Program::new();
        let mut i: usize = 0;
        assert(list.take(0) =~= Seq::empty());
        while i < self.columns.len()
            invariant
                i <= self.columns.len(),
                list == self.columns(),
                width == x@.columns.len(),
                self.fitted,
                first == frame::kept_columns(x@),
                step == cyclical_step(x@),
                draft.over(width, program@.len()),
                draft::steps(first, list.take(i as int), step) == Ok::<
                    Seq<SheetColumnView>,
                    ErrorView,
                >(draft.columns(program@)),
            decreases self.columns.len() - i,
        {
            let ghost held = program@;
            let column: &Text = &self.columns[i].0;
            let period: usize = self.columns[i].1;
            proof {
                draft::lemma_step(first, list, step, i as int);
            }
            let at: usize = match draft.find(column, Ghost(held)) {
                Some(at) => at,
                None => {
                    return Err(Error::about(Problem::ColumnNotFound, "CyclicalEncoder", column));
                },
            };
            let cells: Vec<Option<Number>> = match draft.numbers(x, at, Ghost(held)) {
                Some(cells) => cells,
                None => {
                    let dtype: Text = draft.dtype(x, at, Ghost(held));
                    return Err(
                        Error::detailed(
                            Problem::ExpectedFloat64,
                            "CyclicalEncoder",
                            column,
                            dtype,
                        ),
                    );
                },
            };
            let (sin, cos) = append_points(&cells, period, &mut program);
            proof {
                draft.lemma_extended(width, held, program@);
            }
            let mut sin_name: Text = column.duplicate();
            sin_name.push_str("_sin");
            let mut cos_name: Text = column.duplicate();
            cos_name.push_str("_cos");
            draft.lay(sin_name, sin, Ghost(width), Ghost(program@));
            draft.lay(cos_name, cos, Ghost(width), Ghost(program@));
            i += 1;
        }
        assert(list.take(i as int) =~= list);
        Ok(draft.finish(x.height(), program))
    }
}

/// Appends the sines and the cosines of the angles of a column.
fn append_points(list: &Vec<Option<Number>>, period: usize, program: &mut Program) -> (r: (
    Vec<Option<Number>>,
    Vec<Option<Number>>,
))
    requires
        draft::all_settled(list@, old(program)@.len()),
    ensures
        program::extends(old(program)@, final(program)@),
        frame::terms_of(r.0@, final(program)@) == sines(
            frame::terms_of(list@, old(program)@),
            period as nat,
        ),
        frame::terms_of(r.1@, final(program)@) == cosines(
            frame::terms_of(list@, old(program)@),
            period as nat,
        ),
        draft::all_settled(r.0@, final(program)@.len()),
        draft::all_settled(r.1@, final(program)@.len()),
{
    let ghost before = program@;
    let ghost cells = frame::terms_of(list@, before);
    let ghost high = sines(cells, period as nat);
    let ghost wide = cosines(cells, period as nat);
    let at: Vec<Option<usize>> = draft::load_all(list, program);
    let turn: usize = program.append(Operation::FullTurn);
    let length: usize = program.append(Operation::Natural(period as u64));
    proof {
        draft::lemma_loaded(at@, cells, program@.take(turn as int), program@);
    }
    let mut sin: Vec<Option<Number>> = Vec::new();
    let mut cos: Vec<Option<Number>> = Vec::new();
    let mut i: usize = 0;
    while i < at.len()
        invariant
            i <= at.len(),
            before == old(program)@,
            program::extends(before, program@),
            draft::loaded(at@, cells, program@),
            turn < program@.len(),
            program@[turn as int] == Term::FullTurn,
            length < program@.len(),
            program@[length as int] == Term::Natural(period as nat),
            high == sines(cells, period as nat),
            wide == cosines(cells, period as nat),
            sin.len() == i,
            cos.len() == i,
            draft::all_settled(sin@, program@.len()),
            draft::all_settled(cos@, program@.len()),
            forall|k: int|
                0 <= k < i ==> frame::optional_term(#[trigger] sin@[k], program@) == high[k],
            forall|k: int|
                0 <= k < i ==> frame::optional_term(#[trigger] cos@[k], program@) == wide[k],
        decreases at.len() - i,
    {
        let ghost held = program@;
        match at[i] {
            Some(p) => {
                assert(at@[i as int] == Some(p));
                let product: usize = program.append(Operation::Times(turn, p));
                let theta: usize = program.append(Operation::Over(product, length));
                let s: usize = program.append(Operation::Sine(theta));
                let c: usize = program.append(Operation::Cosine(theta));
                assert(Some(program@[s as int]) == high[i as int]);
                assert(Some(program@[c as int]) == wide[i as int]);
                sin.push(Some(Number::Register(s)));
                cos.push(Some(Number::Register(c)));
            },
            None => {
                assert(at@[i as int] is None);
                sin.push(None);
                cos.push(None);
            },
        }
        proof {
            draft::lemma_loaded(at@, cells, held, program@);
            assert forall|k: int| 0 <= k < i + 1 implies frame::settled(
                #[trigger] sin@[k],
                program@.len(),
            ) && frame::optional_term(sin@[k], program@) == high[k] by {
                if k < i {
                    assert(frame::settled(sin@[k], held.len()));
                    assert(frame::optional_term(sin@[k], held) == high[k]);
                }
            }
            assert forall|k: int| 0 <= k < i + 1 implies frame::settled(
                #[trigger] cos@[k],
                program@.len(),
            ) && frame::optional_term(cos@[k], program@) == wide[k] by {
                if k < i {
                    assert(frame::settled(cos@[k], held.len()));
                    assert(frame::optional_term(cos@[k], held) == wide[k]);
                }
            }
        }
        i += 1;
    }
    assert(frame::terms_of(sin@, program@) =~= high);
    assert(frame::terms_of(cos@, program@) =~= wide);
    (sin, cos)
}

} // verus!
