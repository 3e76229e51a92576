//! Binarization.
//!
//! [`Binarizer`] replaces each number by whether it exceeds a threshold.

use crate::double::Double;
use crate::error::Error;
use crate::error::ErrorView;
use crate::error::Problem;
use crate::frame;
use crate::frame::CellsView;
use crate::frame::Frame;
use crate::frame::FrameView;
use crate::frame::Number;
use crate::frame::Sheet;
use crate::frame::SheetColumn;
use crate::frame::SheetColumnView;
use crate::frame::SheetView;
use crate::frame::ValuesView;
use crate::program::Program;
use crate::program::Term;
use crate::util;
use vstd::prelude::*;

verus! {

/// A number as a flag: `1.0` above the threshold, `0.0` elsewhere, and missing
/// for NaN.
pub open spec fn flag(v: Double, threshold: Double) -> Option<Double> {
    if v.nan() {
        None
    } else if threshold.below(v) {
        Some(Double { bits: crate::double::ONE })
    } else {
        Some(Double { bits: 0 })
    }
}

/// The numbers of a column as flags; missing values stay missing.
pub open spec fn flags(cells: Seq<Option<Double>>, threshold: Double) -> Seq<Option<Term>> {
    Seq::new(
        cells.len(),
        |i: int|
            match cells[i] {
                Some(v) => match flag(v, threshold) {
                    Some(d) => Some(Term::Value(d)),
                    None => None,
                },
                None => None,
            },
    )
}

/// The columns of a frame, the numbers among them as flags.
pub open spec fn flag_columns(x: FrameView, threshold: Double) -> Seq<SheetColumnView> {
    Seq::new(
        x.columns.len(),
        |i: int|
            SheetColumnView {
                name: x.columns[i].name,
                cells: match x.columns[i].values {
                    ValuesView::Float64(c) => CellsView::Float64(flags(c, threshold)),
                    _ => CellsView::Kept(i),
                },
            },
    )
}

/// What a binarizer makes of a frame.
pub open spec fn binarized(fitted: bool, threshold: Double, x: FrameView) -> Result<
    SheetView,
    ErrorView,
> {
    if !fitted {
        Err(ErrorView::plain(Problem::NotFitted, "Binarizer"@))
    } else {
        Ok(SheetView { height: x.height, columns: flag_columns(x, threshold) })
    }
}

/// Why a binarizer cannot be fitted.
pub open spec fn binarizer_fault(threshold: Double, x: FrameView) -> Option<ErrorView> {
    if !threshold.finite() {
        Some(ErrorView::plain(Problem::NonFiniteThreshold(threshold), "Binarizer"@))
    } else if x.height == 0 || x.columns.len() == 0 {
        Some(ErrorView::plain(Problem::EmptyFrame, "Binarizer"@))
    } else {
        None
    }
}

/// Only NaN has no flag, and of two numbers the greater does not have the
/// lesser flag.
pub proof fn law_flags_ascend(a: Double, b: Double, threshold: Double)
    requires
        !threshold.nan(),
        a.below(b),
    ensures
        flag(a, threshold) is Some,
        flag(b, threshold) is Some,
        !(flag(b, threshold)->0).below(flag(a, threshold)->0),
{
}

/// Replaces each number by whether it exceeds a threshold.
pub struct Binarizer {
    fitted: bool,
    threshold: Double,
}

impl Binarizer {
    /// Whether the binarizer has been fitted.
    pub closed spec fn fitted(self) -> bool {
        self.fitted
    }

    /// The threshold.
    pub closed spec fn threshold(self) -> Double {
        self.threshold
    }

    /// A binarizer with a threshold.
    pub fn new(threshold: Double) -> (r: Binarizer)
        ensures
            !r.fitted(),
            r.threshold() == threshold,
    {
        Binarizer { fitted: false, threshold }
    }

    /// Whether the binarizer has been fitted.
    pub fn is_fitted(&self) -> (r: bool)
        ensures
            r == self.fitted(),
    {
        self.fitted
    }

    /// Checks the threshold and the frame. After a failure the binarizer is
    /// unfitted.
    pub fn fit(&mut self, x: &Frame) -> (r: Result<(), Error>)
        ensures
            final(self).threshold() == old(self).threshold(),
            match binarizer_fault(old(self).threshold(), x@) {
                Some(e) => r is Err && r->Err_0@ == e && !final(self).fitted(),
                None => r is Ok && final(self).fitted(),
            },
    {
        self.fitted = false;
        if !self.threshold.is_finite() {
            return Err(Error::plain(Problem::NonFiniteThreshold(self.threshold), "Binarizer"));
        }
        if x.height() == 0 || x.width() == 0 {
            return Err(Error::plain(Problem::EmptyFrame, "Binarizer"));
        }
        self.fitted = true;
        Ok(())
    }

    /// Replaces the numbers of every column of numbers by flags.
    pub fn transform(&self, x: &Frame) -> (r: Result<Sheet, Error>)
        ensures
            frame::outcome(r) == binarized(self.fitted(), self.threshold(), x@),
    {
        if !self.fitted {
            return Err(Error::plain(Problem::NotFitted, "Binarizer"));
        }
        let threshold: Double = self.threshold;
        let mut out: Vec<SheetColumn> = frame::keep_all(x);
        let ghost kept = out@;
        let ghost terms = Seq::<Term>::empty();
        let ghost wanted = flag_columns(x@, threshold);
        let n: usize = x.width();
        proof {
            assert(frame::sheet_columns(kept, terms) == frame::kept_columns(x@));
        }
        let mut i: usize = 0;
        while i < n
            invariant
                i <= n,
                n == x@.columns.len(),
                x@.valid(),
                out.len() == n,
                kept.len() == n,
                terms == Seq::<Term>::empty(),
                frame::sheet_columns(kept, terms) == frame::kept_columns(x@),
                wanted == flag_columns(x@, threshold),
                forall|k: int| i <= k < n ==> #[trigger] out@[k] == kept[k],
                forall|k: int|
                    0 <= k < i ==> frame::sheet_column(#[trigger] out@[k], terms) == wanted[k],
            decreases n - i,
        {
            let column: &frame::Column = x.column(i);
            let ghost before = out@;
            assert(frame::sheet_columns(kept, terms)[i as int] == frame::kept_columns(
                x@,
            )[i as int]);
            assert(out@[i as int] == kept[i as int]);
            match &column.values {
                frame::Values::Float64(cells) => {
                    let f = |v: Double| -> (r: Option<Number>)
                        ensures
                            r == (match flag(v, threshold) {
                                Some(d) => Some(Number::Known(d)),
                                None => None,
                            }),
                        {
                            if v.is_nan() {
                                None
                            } else if threshold.is_below(v) {
                                Some(Number::Known(Double::one()))
                            } else {
                                Some(Number::Known(Double::zero()))
                            }
                        };
                    proof {
                        assert(x@.holds(column.name@, i as int));
                        frame::lemma_find(x@, column.name@, i as int);
                        assert(x@.columns[i as int].values.len() == x@.height);
                    }
                    let done: Result<(), Error> = util::replace_f64_column_opt(
                        x,
                        &mut out,
                        &column.name,
                        "Binarizer",
                        f,
                    );
                    proof {
                        let made = out@[i as int].cells->Float64_0@;
                        assert(frame::terms_of(made, terms) =~= flags(cells@, threshold));
                        assert(frame::sheet_column(out@[i as int], terms) == wanted[i as int]);
                        assert forall|k: int| 0 <= k < i implies frame::sheet_column(
                            #[trigger] out@[k],
                            terms,
                        ) == wanted[k] by {
                            assert(out@[k] == before[k]);
                        }
                    }
                },
                _ => {
                    assert(frame::sheet_column(out@[i as int], terms) == wanted[i as int]);
                },
            }
            i += 1;
        }
        let program: Program = Program::new();
        assert(frame::sheet_columns(out@, terms) =~= wanted);
        Ok(Sheet { height: x.height(), columns: out, program })
    }
}

impl Default for Binarizer {
    fn default() -> (r: Binarizer)
        ensures
            !r.fitted(),
            r.threshold() == (Double { bits: 0 }),
    {
        Binarizer::new(Double::zero())
    }
}

/// A number has the flag one if it is above the threshold, and zero if it is at
/// the threshold or below; missing values and NaN have none.
pub proof fn law_flags(cells: Seq<Option<Double>>, threshold: Double, i: int)
    requires
        !threshold.nan(),
        0 <= i < cells.len(),
    ensures
        ({
            let made = flags(cells, threshold);
            &&& made.len() == cells.len()
            &&& made[i] is None <==> (cells[i] is None || (cells[i]->0).nan())
            &&& cells[i] is Some && threshold.below(cells[i]->0) ==> made[i] == Some(
                Term::Value(Double { bits: 0x3ff0_0000_0000_0000 }),
            )
            &&& cells[i] is Some && ((cells[i]->0).below(threshold) || (cells[i]->0).equals(
                threshold,
            )) ==> made[i] == Some(Term::Value(Double { bits: 0 }))
        }),
{
}

} // verus!
