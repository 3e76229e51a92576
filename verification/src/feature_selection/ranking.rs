//! Ranking of scored features.

use crate::double::Double;
use crate::doubles;
use crate::error::Error;
use crate::error::ErrorView;
use crate::error::Problem;
use crate::frame;
use crate::frame::Cells;
use crate::frame::CellsView;
use crate::frame::Frame;
use crate::frame::FrameView;
use crate::frame::Sheet;
use crate::frame::SheetColumn;
use crate::frame::SheetColumnView;
use crate::frame::SheetView;
use crate::order;
use crate::preprocessing::encoder;
use crate::program::Program;
use crate::program::Term;
use crate::text;
use crate::text::Text;
use vstd::prelude::*;

verus! {

/// The views of a list of named scores.
pub open spec fn score_views(scores: Seq<(Text, Double)>) -> Seq<(Seq<char>, Double)> {
    Seq::new(scores.len(), |i: int| (scores[i].0@, scores[i].1))
}

/// The names of a list of named scores.
pub open spec fn score_names(scores: Seq<(Seq<char>, Double)>) -> Seq<Seq<char>> {
    Seq::new(scores.len(), |i: int| scores[i].0)
}

/// The place of a score among all; where `nan_last`, NaN counts as negative
/// infinity.
pub open spec fn standing(d: Double, nan_last: bool) -> int {
    if nan_last && d.nan() {
        (Double { bits: crate::double::NEGATIVE_INFINITE }).total_rank()
    } else {
        d.total_rank()
    }
}

/// Keys that put higher scores first.
pub open spec fn score_keys(scores: Seq<(Seq<char>, Double)>, nan_last: bool) -> Seq<int> {
    Seq::new(scores.len(), |i: int| -standing(scores[i].1, nan_last))
}

/// Named scores, higher ones first; equal scores stay in their order.
pub open spec fn best_first(scores: Seq<(Seq<char>, Double)>, nan_last: bool) -> Seq<
    (Seq<char>, Double),
> {
    doubles::arranged(scores, order::order(score_keys(scores, nan_last)))
}

/// How many names of a list come before a name.
pub open spec fn names_before(names: Seq<Seq<char>>, name: Seq<char>) -> nat
    decreases names.len(),
{
    if names.len() == 0 {
        0
    } else {
        names_before(names.drop_last(), name) + if text::less(names.last(), name) {
            1nat
        } else {
            0nat
        }
    }
}

/// Keys that put names in order.
pub open spec fn name_keys(scores: Seq<(Seq<char>, Double)>) -> Seq<int> {
    Seq::new(scores.len(), |i: int| names_before(score_names(scores), scores[i].0) as int)
}

/// Named scores in the order of their names.
pub open spec fn by_name(scores: Seq<(Seq<char>, Double)>) -> Seq<(Seq<char>, Double)> {
    doubles::arranged(scores, order::order(name_keys(scores)))
}

/// Named scores, higher ones first; equal scores in the order of their names.
pub open spec fn best_first_by_name(scores: Seq<(Seq<char>, Double)>, nan_last: bool) -> Seq<
    (Seq<char>, Double),
> {
    best_first(by_name(scores), nan_last)
}

/// The first `k` names, or all where there are fewer.
pub open spec fn leaders(scores: Seq<(Seq<char>, Double)>, k: nat) -> Seq<Seq<char>> {
    score_names(
        scores.take(
            if k < scores.len() {
                k as int
            } else {
                scores.len() as int
            },
        ),
    )
}

/// A ranking holds every score once, no score stands after a lower one, and
/// equal scores keep their order.
pub proof fn law_best_first(scores: Seq<(Seq<char>, Double)>, nan_last: bool)
    ensures
        ({
            let p = order::order(score_keys(scores, nan_last));
            let ranked = best_first(scores, nan_last);
            &&& order::covers(p, 0, scores.len() as int)
            &&& ranked.len() == scores.len()
            &&& forall|i: int| 0 <= i < ranked.len() ==> #[trigger] ranked[i] == scores[p[i]]
            &&& forall|i: int, j: int|
                0 <= i < j < ranked.len() ==> {
                    ||| standing((#[trigger] ranked[i]).1, nan_last) > standing(
                        (#[trigger] ranked[j]).1,
                        nan_last,
                    )
                    ||| standing(ranked[i].1, nan_last) == standing(ranked[j].1, nan_last) && p[i]
                        < p[j]
                }
        }),
{
    let keys = score_keys(scores, nan_last);
    let p = order::order(keys);
    let ranked = best_first(scores, nan_last);
    order::law_order_exists(keys);
    assert forall|i: int, j: int| 0 <= i < j < ranked.len() implies {
        ||| standing((#[trigger] ranked[i]).1, nan_last) > standing(
            (#[trigger] ranked[j]).1,
            nan_last,
        )
        ||| standing(ranked[i].1, nan_last) == standing(ranked[j].1, nan_last) && p[i] < p[j]
    } by {
        assert(0 <= p[i] < keys.len());
        assert(0 <= p[j] < keys.len());
        assert(order::before(keys, p[i], p[j]));
    }
}

/// A name of a list comes before fewer names than a later name does.
proof fn lemma_names_before(names: Seq<Seq<char>>, a: Seq<char>, b: Seq<char>)
    requires
        text::less(a, b),
    ensures
        names_before(names, a) <= names_before(names, b),
        names.contains(a) ==> names_before(names, a) < names_before(names, b),
        names_before(names, a) <= names.len(),
    decreases names.len(),
{
    if names.len() > 0 {
        let front = names.drop_last();
        let last = names.last();
        lemma_names_before(front, a, b);
        if text::less(last, a) {
            text::law_less_transitive(last, a, b);
        }
        if names.contains(a) && !front.contains(a) {
            let k = choose|k: int| 0 <= k < names.len() && names[k] == a;
            if k < front.len() {
                assert(front[k] == a);
            }
            assert(last == a);
            text::law_less_irreflexive(a);
        }
    }
}

/// In a ranking by score and name no score stands after a lower one, and of
/// equal scores none stands after one with a later name.
pub proof fn law_best_first_by_name(scores: Seq<(Seq<char>, Double)>, nan_last: bool)
    ensures
        ({
            let ranked = best_first_by_name(scores, nan_last);
            &&& ranked.len() == scores.len()
            &&& ranked.to_multiset() == scores.to_multiset()
            &&& forall|s: (Seq<char>, Double)| #[trigger] ranked.contains(s) <==> scores.contains(s)
            &&& forall|i: int, j: int|
                0 <= i < j < ranked.len() ==> {
                    ||| standing((#[trigger] ranked[i]).1, nan_last) > standing(
                        (#[trigger] ranked[j]).1,
                        nan_last,
                    )
                    ||| standing(ranked[i].1, nan_last) == standing(ranked[j].1, nan_last)
                        && !text::less(ranked[j].0, ranked[i].0)
                }
        }),
{
    let keys = name_keys(scores);
    let q = order::order(keys);
    let named = by_name(scores);
    let ranked = best_first_by_name(scores, nan_last);
    let p = order::order(score_keys(named, nan_last));
    order::law_order_exists(keys);
    law_best_first(named, nan_last);
    doubles::lemma_arranged(scores, q);
    order::law_order_exists(score_keys(named, nan_last));
    doubles::lemma_arranged(named, p);
    assert forall|s: (Seq<char>, Double)| #[trigger] ranked.contains(s) <==> scores.contains(
        s,
    ) by {
        if ranked.contains(s) {
            let i = choose|i: int| 0 <= i < ranked.len() && ranked[i] == s;
            assert(0 <= p[i] < named.len());
            assert(0 <= q[p[i]] < scores.len());
            assert(scores[q[p[i]]] == s);
        }
        if scores.contains(s) {
            let k = choose|k: int| 0 <= k < scores.len() && scores[k] == s;
            assert(q.contains(k));
            let m = choose|m: int| 0 <= m < q.len() && q[m] == k;
            assert(named[m] == s);
            assert(p.contains(m));
            let i = choose|i: int| 0 <= i < p.len() && p[i] == m;
            assert(ranked[i] == s);
        }
    }
    assert forall|i: int, j: int| 0 <= i < j < ranked.len() implies {
        ||| standing((#[trigger] ranked[i]).1, nan_last) > standing(
            (#[trigger] ranked[j]).1,
            nan_last,
        )
        ||| standing(ranked[i].1, nan_last) == standing(ranked[j].1, nan_last) && !text::less(
            ranked[j].0,
            ranked[i].0,
        )
    } by {
        let a = p[i];
        let b = p[j];
        assert(0 <= a < named.len());
        assert(0 <= b < named.len());
        assert(ranked[i] == named[a]);
        assert(ranked[j] == named[b]);
        if a < b && text::less(ranked[j].0, ranked[i].0) {
            assert(0 <= q[a] < scores.len());
            assert(0 <= q[b] < scores.len());
            assert(order::before(keys, q[a], q[b]));
            let names = score_names(scores);
            assert(names[q[b]] == ranked[j].0);
            lemma_names_before(names, ranked[j].0, ranked[i].0);
        }
    }
}

/// What keeping some columns of a frame gives.
pub open spec fn selection(who: Seq<char>, x: FrameView, names: Seq<Seq<char>>) -> Result<
    SheetView,
    ErrorView,
> {
    match crate::error::first_fault(names, absent_fault(who, x)) {
        Some(e) => Err(e),
        None => match encoder::collision(Seq::empty(), names) {
            Some(name) => Err(ErrorView::about(Problem::SelectedTwice, who, name)),
            None => Ok(
                SheetView {
                    height: x.height,
                    columns: Seq::new(
                        names.len(),
                        |k: int|
                            SheetColumnView {
                                name: names[k],
                                cells: CellsView::Kept(x.find(names[k])->0),
                            },
                    ),
                },
            ),
        },
    }
}

/// Why a column cannot be kept.
pub open spec fn absent_fault(who: Seq<char>, x: FrameView) -> spec_fn(Seq<char>) -> Option<
    ErrorView,
> {
    |name: Seq<char>|
        if x.find(name) is None {
            Some(ErrorView::about(Problem::SelectedNotFound, who, name))
        } else {
            None
        }
}

/// What a selector makes of a frame, where it has selected columns.
pub open spec fn selection_outcome(
    who: Seq<char>,
    selected: Option<Seq<Seq<char>>>,
    x: FrameView,
) -> Result<SheetView, ErrorView> {
    match selected {
        None => Err(ErrorView::plain(Problem::NotFitted, who)),
        Some(names) => selection(who, x, names),
    }
}

/// Keeps some columns of a frame.
pub fn select(x: &Frame, names: &Vec<Text>, who: &str) -> (r: Result<Sheet, Error>)
    ensures
        frame::outcome(r) == selection(who@, x@, text::views(names@)),
{
    let ghost list = text::views(names@);
    let ghost fault = absent_fault(who@, x@);
    let ghost terms = Seq::<Term>::empty();
    proof {
        crate::error::lemma_fault_ends(list, fault);
    }
    let mut columns: Vec<SheetColumn> = Vec::new();
    let mut i: usize = 0;
    while i < names.len()
        invariant
            i <= names.len(),
            list == text::views(names@),
            fault == absent_fault(who@, x@),
            crate::error::first_fault(list.take(i as int), fault) is None,
            columns.len() == i,
            forall|k: int|
                0 <= k < i ==> frame::sheet_column(#[trigger] columns@[k], terms) == (
                SheetColumnView { name: list[k], cells: CellsView::Kept(x@.find(list[k])->0) }),
        decreases names.len() - i,
    {
        proof {
            crate::error::lemma_fault_step(list, fault, i as int);
        }
        match x.find(&names[i]) {
            None => {
                return Err(Error::about(Problem::SelectedNotFound, who, &names[i]));
            },
            Some(at) => {
                let column: SheetColumn = SheetColumn {
                    name: names[i].duplicate(),
                    cells: Cells::Kept(at),
                };
                assert(frame::sheet_column(column, terms) == (SheetColumnView {
                    name: list[i as int],
                    cells: CellsView::Kept(x@.find(list[i as int])->0),
                }));
                columns.push(column);
            },
        }
        i += 1;
    }
    assert(list.take(i as int) =~= list);
    let taken: Vec<Text> = Vec::new();
    assert(text::views(taken@) =~= Seq::empty());
    match encoder::find_collision(&taken, names) {
        Some(at) => {
            return Err(Error::about(Problem::SelectedTwice, who, &names[at]));
        },
        None => {},
    }
    let program: Program = Program::new();
    proof {
        let wanted = Seq::new(
            list.len(),
            |k: int|
                SheetColumnView { name: list[k], cells: CellsView::Kept(x@.find(list[k])->0) },
        );
        assert(frame::sheet_columns(columns@, program@) =~= wanted) by {
            assert forall|k: int| 0 <= k < list.len() implies frame::sheet_column(
                columns@[k],
                program@,
            ) == wanted[k] by {
                assert(frame::sheet_column(columns@[k], terms) == wanted[k]);
            }
        }
    }
    Ok(Sheet { height: x.height(), columns, program })
}

/// Named scores in the order of some positions.
fn arrange(scores: &Vec<(Text, Double)>, p: &Vec<usize>) -> (r: Vec<(Text, Double)>)
    requires
        forall|k: int| 0 <= k < p.len() ==> (#[trigger] p@[k]) < scores.len(),
    ensures
        score_views(r@) == doubles::arranged(score_views(scores@), order::positions(p@)),
{
    let mut r: Vec<(Text, Double)> = Vec::new();
    let mut i: usize = 0;
    while i < p.len()
        invariant
            i <= p.len(),
            forall|k: int| 0 <= k < p.len() ==> (#[trigger] p@[k]) < scores.len(),
            r.len() == i,
            forall|k: int|
                0 <= k < i ==> (#[trigger] r@[k]).0@ == scores@[p@[k] as int].0@ && r@[k].1
                    == scores@[p@[k] as int].1,
        decreases p.len() - i,
    {
        assert(p@[i as int] < scores.len());
        let at: usize = p[i];
        r.push((scores[at].0.duplicate(), scores[at].1));
        i += 1;
    }
    assert(score_views(r@) =~= doubles::arranged(score_views(scores@), order::positions(p@)));
    r
}

/// Puts named scores in order, higher ones first; equal scores stay in their
/// order.
pub fn rank(scores: &Vec<(Text, Double)>, nan_last: bool) -> (r: Vec<(Text, Double)>)
    ensures
        score_views(r@) == best_first(score_views(scores@), nan_last),
{
    let mut keys: Vec<i128> = Vec::new();
    let mut i: usize = 0;
    while i < scores.len()
        invariant
            i <= scores.len(),
            keys.len() == i,
            forall|k: int|
                0 <= k < i ==> #[trigger] keys@[k] == -standing(scores@[k].1, nan_last),
        decreases scores.len() - i,
    {
        let score: Double = if nan_last && scores[i].1.is_nan() {
            Double { bits: crate::double::NEGATIVE_INFINITE }
        } else {
            scores[i].1
        };
        keys.push(-doubles::total_key(score));
        i += 1;
    }
    assert(order::key_values(keys@) =~= score_keys(score_views(scores@), nan_last));
    let p: Vec<usize> = order::sorted(&keys);
    arrange(scores, &p)
}

/// Puts named scores in order, higher ones first; equal scores in the order of
/// their names.
pub fn rank_by_name(scores: &Vec<(Text, Double)>, nan_last: bool) -> (r: Vec<(Text, Double)>)
    ensures
        score_views(r@) == best_first_by_name(score_views(scores@), nan_last),
{
    let ghost names = score_names(score_views(scores@));
    let mut keys: Vec<i128> = Vec::new();
    let mut i: usize = 0;
    while i < scores.len()
        invariant
            i <= scores.len(),
            names == score_names(score_views(scores@)),
            keys.len() == i,
            forall|k: int|
                0 <= k < i ==> #[trigger] keys@[k] == names_before(names, scores@[k].0@),
        decreases scores.len() - i,
    {
        let mut count: usize = 0;
        let mut j: usize = 0;
        assert(names.take(0) =~= Seq::<Seq<char>>::empty());
        while j < scores.len()
            invariant
                j <= scores.len(),
                i < scores.len(),
                names == score_names(score_views(scores@)),
                count == names_before(names.take(j as int), scores@[i as int].0@),
                count <= j,
            decreases scores.len() - j,
        {
            assert(names.take(j + 1).drop_last() =~= names.take(j as int));
            if scores[j].0.precedes(&scores[i].0) {
                count += 1;
            }
            j += 1;
        }
        assert(names.take(j as int) =~= names);
        keys.push(count as i128);
        i += 1;
    }
    assert(order::key_values(keys@) =~= name_keys(score_views(scores@)));
    let p: Vec<usize> = order::sorted(&keys);
    let named: Vec<(Text, Double)> = arrange(scores, &p);
    rank(&named, nan_last)
}

/// The first `k` names, or all where there are fewer.
pub fn lead(scores: &Vec<(Text, Double)>, k: usize) -> (r: Vec<Text>)
    ensures
        text::views(r@) == leaders(score_views(scores@), k as nat),
{
    let n: usize = if k < scores.len() {
        k
    } else {
        scores.len()
    };
    let mut r: Vec<Text> = Vec::new();
    let mut i: usize = 0;
    while i < n
        invariant
            i <= n,
            n <= scores.len(),
            r.len() == i,
            forall|m: int| 0 <= m < i ==> (#[trigger] r@[m])@ == scores@[m].0@,
        decreases n - i,
    {
        let name: Text = scores[i].0.duplicate();
        r.push(name);
        i += 1;
    }
    assert(text::views(r@) =~= leaders(score_views(scores@), k as nat));
    r
}

} // verus!
