//! Vocabularies: the terms of documents, ranked by how often they occur.
//!
//! A vocabulary is learned in two steps. A [`VocabularyPlan`] lists the terms
//! of all documents with their frequencies, and the two numbers to compute for
//! each: a term is admitted if the first is at most the second. With the
//! results, [`choose_terms`] ranks the terms that are admitted.

use crate::count;
use crate::double::Double;
use crate::error::Error;
use crate::error::ErrorView;
use crate::error::Problem;
use crate::frame;
use crate::frame::Cells;
use crate::frame::CellsView;
use crate::frame::FrameView;
use crate::frame::Number;
use crate::frame::SheetColumn;
use crate::frame::SheetColumnView;
use crate::frame::SheetView;
use crate::order;
use crate::preprocessing::encoder;
use crate::program;
use crate::program::Operation;
use crate::program::Program;
use crate::program::Term;
use crate::reals;
use crate::tally;
use crate::tally::Tally;
use crate::text;
use crate::text::Text;
use vstd::prelude::*;

verus! {

/// The terms of all documents, one document after the other.
pub open spec fn all_terms(docs: Seq<Seq<Seq<char>>>) -> Seq<Seq<char>>
    decreases docs.len(),
{
    if docs.len() == 0 {
        Seq::empty()
    } else {
        all_terms(docs.drop_last()) + docs.last()
    }
}

/// In how many documents a term occurs.
pub open spec fn documents_with(docs: Seq<Seq<Seq<char>>>, term: Seq<char>) -> nat
    decreases docs.len(),
{
    if docs.len() == 0 {
        0
    } else {
        documents_with(docs.drop_last(), term) + if docs.last().contains(term) {
            1nat
        } else {
            0
        }
    }
}

/// How often a term occurs in all documents.
pub open spec fn total_of(docs: Seq<Seq<Seq<char>>>, term: Seq<char>) -> nat
    decreases docs.len(),
{
    if docs.len() == 0 {
        0
    } else {
        total_of(docs.drop_last(), term) + tally::occurrences(docs.last(), term)
    }
}

/// A term with its frequencies, and the two numbers that decide on it.
#[verifier::ext_equal]
pub struct Candidate<T> {
    pub term: Seq<char>,
    pub documents: nat,
    pub total: nat,
    pub left: T,
    pub right: T,
}

/// How the two numbers that decide on a term are computed from the number of
/// documents with it and the number of all documents.
#[derive(Clone, Copy, Debug, PartialEq, Eq, Structural)]
pub enum Ceiling {
    /// The number of documents with the term, against a share of all.
    Product(Double),
    /// The share of documents with the term, against a share.
    Quotient(Double),
}

impl Ceiling {
    /// The first of the two numbers.
    pub open spec fn left(self, documents: nat, all: nat) -> Term {
        match self {
            Ceiling::Product(_) => Term::Natural(documents),
            Ceiling::Quotient(_) => Term::Over(
                Box::new(Term::Natural(documents)),
                Box::new(Term::Natural(all)),
            ),
        }
    }

    /// The second of the two numbers.
    pub open spec fn right(self, all: nat) -> Term {
        match self {
            Ceiling::Product(share) => Term::Times(
                Box::new(Term::Value(share)),
                Box::new(Term::Natural(all)),
            ),
            Ceiling::Quotient(share) => Term::Value(share),
        }
    }
}

/// What is planned for documents: each of their terms, in ascending order.
pub open spec fn candidates(docs: Seq<Seq<Seq<char>>>, ceiling: Ceiling) -> Seq<Candidate<Term>> {
    let terms = tally::distinct(all_terms(docs));
    Seq::new(
        terms.len(),
        |k: int|
            Candidate {
                term: terms[k],
                documents: documents_with(docs, terms[k]),
                total: total_of(docs, terms[k]),
                left: ceiling.left(documents_with(docs, terms[k]), docs.len()),
                right: ceiling.right(docs.len()),
            },
    )
}

/// The terms that positions of a program stand for.
pub open spec fn resolved(list: Seq<Candidate<int>>, terms: Seq<Term>) -> Seq<Candidate<Term>> {
    Seq::new(
        list.len(),
        |k: int|
            Candidate {
                term: list[k].term,
                documents: list[k].documents,
                total: list[k].total,
                left: terms[list[k].left],
                right: terms[list[k].right],
            },
    )
}

/// Whether `a` is at most `b`; false where either is NaN.
pub open spec fn at_most(a: Double, b: Double) -> bool {
    a.below(b) || a.equals(b)
}

/// Whether a term is admitted: it occurs in enough documents, and not in too
/// many.
pub open spec fn admitted(c: Candidate<int>, least: nat, values: Seq<Double>) -> bool {
    c.documents >= least && at_most(values[c.left], values[c.right])
}

/// The terms that are admitted, in order.
pub open spec fn survivors(list: Seq<Candidate<int>>, least: nat, values: Seq<Double>) -> Seq<
    Candidate<int>,
>
    decreases list.len(),
{
    if list.len() == 0 {
        Seq::empty()
    } else {
        let front = survivors(list.drop_last(), least, values);
        if admitted(list.last(), least, values) {
            front.push(list.last())
        } else {
            front
        }
    }
}

/// The keys by which terms are ranked: those that occur more often first.
pub open spec fn rank_keys(list: Seq<Candidate<int>>) -> Seq<int> {
    Seq::new(list.len(), |k: int| -(list[k].total as int))
}

/// Terms by rank: the most frequent first, and where two are equally frequent,
/// in the order in which they stand.
pub open spec fn ranked(list: Seq<Candidate<int>>) -> Seq<Candidate<int>> {
    let p = order::order(rank_keys(list));
    Seq::new(p.len(), |k: int| list[p[k]])
}

/// The vocabulary: the terms that are admitted, by rank, at most so many.
pub open spec fn vocabulary(
    list: Seq<Candidate<int>>,
    least: nat,
    most: Option<usize>,
    values: Seq<Double>,
) -> Seq<Candidate<int>> {
    let all = ranked(survivors(list, least, values));
    match most {
        Some(n) => if n < all.len() {
            all.take(n as int)
        } else {
            all
        },
        None => all,
    }
}

/// The terms of a list.
pub open spec fn term_list<T>(list: Seq<Candidate<T>>) -> Seq<Seq<char>> {
    Seq::new(list.len(), |k: int| list[k].term)
}

/// Whether candidates refer only to positions before `limit`.
pub open spec fn within(list: Seq<Candidate<int>>, limit: nat) -> bool {
    forall|k: int|
        0 <= k < list.len() ==> 0 <= (#[trigger] list[k]).left < limit && 0 <= list[k].right < limit
}

/// A term that is admitted is one of the list.
proof fn lemma_survivor(list: Seq<Candidate<int>>, least: nat, values: Seq<Double>, k: int) -> (i:
    int)
    requires
        0 <= k < survivors(list, least, values).len(),
    ensures
        0 <= i < list.len(),
        list[i] == survivors(list, least, values)[k],
        admitted(list[i], least, values),
        k <= i,
    decreases list.len(),
{
    let front = survivors(list.drop_last(), least, values);
    if k < front.len() {
        let i = lemma_survivor(list.drop_last(), least, values, k);
        assert(list.drop_last()[i] == list[i]);
        i
    } else {
        lemma_survivors_len(list.drop_last(), least, values);
        list.len() - 1
    }
}

/// No more terms are admitted than there are.
proof fn lemma_survivors_len(list: Seq<Candidate<int>>, least: nat, values: Seq<Double>)
    ensures
        survivors(list, least, values).len() <= list.len(),
    decreases list.len(),
{
    if list.len() > 0 {
        lemma_survivors_len(list.drop_last(), least, values);
    }
}

/// Terms that are admitted keep their order.
proof fn lemma_survivors_ascend(
    list: Seq<Candidate<int>>,
    least: nat,
    values: Seq<Double>,
    a: int,
    b: int,
)
    requires
        tally::ascending(term_list(list)),
        0 <= a < b < survivors(list, least, values).len(),
    ensures
        text::less(
            survivors(list, least, values)[a].term,
            survivors(list, least, values)[b].term,
        ),
    decreases list.len(),
{
    let rest = list.drop_last();
    let front = survivors(rest, least, values);
    assert(forall|i: int| 0 <= i < rest.len() ==> term_list(rest)[i] == term_list(list)[i]);
    assert(tally::ascending(term_list(rest)));
    if b < front.len() {
        lemma_survivors_ascend(rest, least, values, a, b);
    } else {
        let i = lemma_survivor(rest, least, values, a);
        assert(term_list(list)[i] == rest[i].term);
        assert(term_list(list)[list.len() - 1] == list.last().term);
    }
}

/// Every term of a vocabulary was admitted; the terms stand by rank: those
/// that occur more often first, and in ascending order where two occur equally
/// often.
pub proof fn law_vocabulary_ranked(
    list: Seq<Candidate<int>>,
    least: nat,
    most: Option<usize>,
    values: Seq<Double>,
    a: int,
    b: int,
)
    requires
        tally::ascending(term_list(list)),
        0 <= a < b < vocabulary(list, least, most, values).len(),
    ensures
        ({
            let v = vocabulary(list, least, most, values);
            &&& v[a].total > v[b].total || v[a].total == v[b].total && text::less(
                v[a].term,
                v[b].term,
            )
            &&& admitted(v[a], least, values)
            &&& admitted(v[b], least, values)
            &&& most matches Some(n) ==> v.len() <= n
        }),
{
    let kept = survivors(list, least, values);
    let keys = rank_keys(kept);
    order::law_order_exists(keys);
    let p = order::order(keys);
    assert(order::before(keys, p[a], p[b]));
    let i = lemma_survivor(list, least, values, p[a]);
    let j = lemma_survivor(list, least, values, p[b]);
    if kept[p[a]].total == kept[p[b]].total {
        lemma_survivors_ascend(list, least, values, p[a], p[b]);
    }
}

/// Whether the term at a position is admitted.
pub open spec fn admits(list: Seq<Candidate<int>>, least: nat, values: Seq<Double>) -> spec_fn(
    int,
) -> bool {
    |k: int| admitted(list[k], least, values)
}

/// How many terms are admitted.
proof fn lemma_survivors_counted(list: Seq<Candidate<int>>, least: nat, values: Seq<Double>)
    ensures
        survivors(list, least, values).len() == count::counted(
            list.len(),
            admits(list, least, values),
        ),
    decreases list.len(),
{
    if list.len() > 0 {
        let front = list.drop_last();
        lemma_survivors_counted(front, least, values);
        count::lemma_agreeing(
            front.len(),
            admits(front, least, values),
            admits(list, least, values),
        );
    }
}

/// Where every term is admitted and there is no limit, a vocabulary has them all.
pub proof fn lemma_all_survive(list: Seq<Candidate<int>>, least: nat, values: Seq<Double>)
    requires
        forall|k: int| 0 <= k < list.len() ==> admitted(#[trigger] list[k], least, values),
    ensures
        vocabulary(list, least, None, values).len() == list.len(),
{
    lemma_all_kept(list, least, values);
    order::law_order_exists(rank_keys(survivors(list, least, values)));
}

/// Where every term is admitted, none is left out.
proof fn lemma_all_kept(list: Seq<Candidate<int>>, least: nat, values: Seq<Double>)
    requires
        forall|k: int| 0 <= k < list.len() ==> admitted(#[trigger] list[k], least, values),
    ensures
        survivors(list, least, values).len() == list.len(),
    decreases list.len(),
{
    if list.len() > 0 {
        let front = list.drop_last();
        assert forall|k: int| 0 <= k < front.len() implies admitted(
            #[trigger] front[k],
            least,
            values,
        ) by {
            assert(front[k] == list[k]);
        }
        lemma_all_kept(front, least, values);
        assert(admitted(list[list.len() - 1], least, values));
    }
}

/// A vocabulary has as many terms as are admitted, or as many as it may have
/// where those are fewer. A term that is admitted is in it, or else it is full,
/// and every term in it occurs more often, or equally often and comes before.
pub proof fn law_vocabulary_complete(
    list: Seq<Candidate<int>>,
    least: nat,
    most: Option<usize>,
    values: Seq<Double>,
    k: int,
)
    requires
        tally::ascending(term_list(list)),
        0 <= k < list.len(),
        admitted(list[k], least, values),
    ensures
        ({
            let v = vocabulary(list, least, most, values);
            let all = count::counted(list.len(), admits(list, least, values));
            &&& v.len() == match most {
                Some(n) => if n < all {
                    n as nat
                } else {
                    all
                },
                None => all,
            }
            &&& v.contains(list[k]) || {
                &&& most == Some(v.len() as usize)
                &&& forall|a: int|
                    0 <= a < v.len() ==> {
                        ||| (#[trigger] v[a]).total > list[k].total
                        ||| v[a].total == list[k].total && text::less(v[a].term, list[k].term)
                    }
            }
        }),
{
    let kept = survivors(list, least, values);
    let keys = rank_keys(kept);
    let v = vocabulary(list, least, most, values);
    lemma_survivors_counted(list, least, values);
    lemma_admitted_survives(list, least, values, k);
    let m = choose|m: int| 0 <= m < kept.len() && kept[m] == list[k];
    order::law_order_exists(keys);
    let p = order::order(keys);
    assert(p.contains(m));
    let i = choose|i: int| 0 <= i < p.len() && p[i] == m;
    if i < v.len() {
        assert(v[i] == list[k]);
    } else {
        assert forall|a: int| 0 <= a < v.len() implies {
            ||| (#[trigger] v[a]).total > list[k].total
            ||| v[a].total == list[k].total && text::less(v[a].term, list[k].term)
        } by {
            assert(order::before(keys, p[a], p[i]));
            if v[a].total == list[k].total {
                lemma_survivors_ascend(list, least, values, p[a], m);
            }
        }
    }
}

/// A term that is admitted is among those that are.
proof fn lemma_admitted_survives(
    list: Seq<Candidate<int>>,
    least: nat,
    values: Seq<Double>,
    k: int,
)
    requires
        0 <= k < list.len(),
        admitted(list[k], least, values),
    ensures
        survivors(list, least, values).contains(list[k]),
    decreases list.len(),
{
    let rest = list.drop_last();
    let front = survivors(rest, least, values);
    let all = survivors(list, least, values);
    if k < rest.len() {
        lemma_admitted_survives(rest, least, values, k);
        let m = choose|m: int| 0 <= m < front.len() && front[m] == rest[k];
        assert(all[m] == list[k]);
    } else {
        assert(all[all.len() - 1] == list[k]);
    }
}

/// A vocabulary holds no term twice, and none that is not in the list.
pub proof fn law_vocabulary_without_repeats(
    list: Seq<Candidate<int>>,
    least: nat,
    most: Option<usize>,
    values: Seq<Double>,
)
    requires
        tally::ascending(term_list(list)),
    ensures
        ({
            let terms = term_list(vocabulary(list, least, most, values));
            &&& tally::without_repeats(terms)
            &&& forall|k: int|
                0 <= k < terms.len() ==> term_list(list).contains(#[trigger] terms[k])
        }),
{
    let v = vocabulary(list, least, most, values);
    let terms = term_list(v);
    let kept = survivors(list, least, values);
    let keys = rank_keys(kept);
    let p = order::order(keys);
    order::law_order_exists(keys);
    assert forall|a: int, b: int| 0 <= a < b < terms.len() implies #[trigger] terms[a]
        != #[trigger] terms[b] by {
        assert(order::before(keys, p[a], p[b]));
        if p[a] < p[b] {
            lemma_survivors_ascend(list, least, values, p[a], p[b]);
        } else {
            lemma_survivors_ascend(list, least, values, p[b], p[a]);
        }
        text::law_less_irreflexive(terms[a]);
    }
    assert forall|k: int| 0 <= k < terms.len() implies term_list(list).contains(
        #[trigger] terms[k],
    ) by {
        let i = lemma_survivor(list, least, values, p[k]);
        assert(term_list(list)[i] == terms[k]);
    }
}

/// A plan is one for the terms of the documents, in ascending order.
pub proof fn lemma_planned_terms(
    list: Seq<Candidate<int>>,
    planned: Seq<Term>,
    docs: Seq<Seq<Seq<char>>>,
    ceiling: Ceiling,
)
    requires
        resolved(list, planned) == candidates(docs, ceiling),
    ensures
        term_list(list) == tally::distinct(all_terms(docs)),
{
    let terms = tally::distinct(all_terms(docs));
    assert(resolved(list, planned).len() == terms.len());
    assert forall|k: int| 0 <= k < terms.len() implies term_list(list)[k] == terms[k] by {
        assert(resolved(list, planned)[k] == candidates(docs, ceiling)[k]);
    }
    assert(term_list(list) =~= terms);
}

/// Where every term of documents is admitted and the vocabulary has no limit,
/// the counts of a document add up to the number of its terms.
pub proof fn law_counts_add_up(
    list: Seq<Candidate<int>>,
    docs: Seq<Seq<Seq<char>>>,
    least: nat,
    values: Seq<Double>,
    i: int,
)
    requires
        term_list(list) == tally::distinct(all_terms(docs)),
        forall|k: int| 0 <= k < list.len() ==> admitted(#[trigger] list[k], least, values),
        0 <= i < docs.len(),
    ensures
        tally::total(counts_of(term_list(vocabulary(list, least, None, values)), docs[i]))
            == docs[i].len(),
{
    let v = vocabulary(list, least, None, values);
    let terms = term_list(v);
    let doc = docs[i];
    tally::law_distinct(all_terms(docs));
    law_vocabulary_without_repeats(list, least, None, values);
    assert forall|m: int| 0 <= m < doc.len() implies terms.contains(#[trigger] doc[m]) by {
        lemma_term_of_all(docs, i, m);
        assert(tally::distinct(all_terms(docs)).contains(doc[m]));
        let k = choose|k: int| 0 <= k < term_list(list).len() && term_list(list)[k] == doc[m];
        law_vocabulary_complete(list, least, None, values, k);
        let at = choose|at: int| 0 <= at < v.len() && v[at] == list[k];
        assert(terms[at] == doc[m]);
    }
    tally::law_all_counted(terms, doc);
    assert(counts_of(terms, doc) =~= tally::frequencies(terms, doc));
}

/// A term of one document is one of all documents.
proof fn lemma_term_of_all(docs: Seq<Seq<Seq<char>>>, i: int, m: int)
    requires
        0 <= i < docs.len(),
        0 <= m < docs[i].len(),
    ensures
        all_terms(docs).contains(docs[i][m]),
    decreases docs.len(),
{
    let front = docs.drop_last();
    let a = all_terms(front);
    if i < front.len() {
        lemma_term_of_all(front, i, m);
        let k = choose|k: int| 0 <= k < a.len() && a[k] == docs[i][m];
        assert(all_terms(docs)[k] == docs[i][m]);
    } else {
        assert(all_terms(docs)[a.len() + m] == docs[i][m]);
    }
}

/// In exact arithmetic, where the share is one, no term occurs in too many
/// documents.
pub proof fn law_whole_share(
    docs: Seq<Seq<Seq<char>>>,
    ceiling: Ceiling,
    term: Seq<char>,
    value: spec_fn(Double) -> real,
)
    requires
        all_terms(docs).contains(term),
        match ceiling {
            Ceiling::Product(share) => value(share) == 1real,
            Ceiling::Quotient(share) => value(share) == 1real,
        },
    ensures
        program::exact(ceiling.left(documents_with(docs, term), docs.len()), value)
            <= program::exact(ceiling.right(docs.len()), value),
{
    law_documents_with(docs, term);
    reveal_with_fuel(program::exact, 2);
    let (d, n) = (documents_with(docs, term) as int as real, docs.len() as int as real);
    assert(1real * n == n) by (nonlinear_arith);
    assert(d / n <= 1real) by (nonlinear_arith)
        requires
            d <= n,
            n > 0real,
    ;
}

/// Where one document is enough and the share is one, every term is admitted by
/// the numbers that are computed for it.
pub proof fn law_all_admitted(
    list: Seq<Candidate<int>>,
    planned: Seq<Term>,
    docs: Seq<Seq<Seq<char>>>,
    ceiling: Ceiling,
    least: nat,
    value: spec_fn(Double) -> real,
    number: spec_fn(real) -> Double,
    k: int,
)
    requires
        resolved(list, planned) == candidates(docs, ceiling),
        within(list, planned.len()),
        least <= 1,
        match ceiling {
            Ceiling::Product(share) => value(share) == 1real,
            Ceiling::Quotient(share) => value(share) == 1real,
        },
        reals::rounds(number),
        0 <= k < list.len(),
    ensures
        admitted(list[k], least, reals::answered(planned, value, number)),
{
    let terms = tally::distinct(all_terms(docs));
    let made = resolved(list, planned);
    assert(made.len() == list.len());
    assert(made[k] == candidates(docs, ceiling)[k]);
    tally::law_distinct(all_terms(docs));
    assert(terms.contains(terms[k]));
    law_documents_with(docs, terms[k]);
    law_whole_share(docs, ceiling, terms[k], value);
    assert(0 <= list[k].left < planned.len() && 0 <= list[k].right < planned.len());
    let (left, right) = (
        program::exact(planned[list[k].left], value),
        program::exact(planned[list[k].right], value),
    );
    assert(number(left).below(number(right)) || number(left).equals(number(right)));
}

/// More than any term can occur in the documents of a frame.
pub const MOST_OCCURRENCES: u128 = 0x1_0000_0000_0000_0000_0000_0000;

/// The frequencies of a term are bounded by the documents.
proof fn lemma_frequencies_bounded(docs: Seq<Seq<Seq<char>>>, term: Seq<char>)
    requires
        forall|i: int| 0 <= i < docs.len() ==> (#[trigger] docs[i]).len() <= u64::MAX,
    ensures
        documents_with(docs, term) <= docs.len(),
        total_of(docs, term) <= docs.len() * (u64::MAX as nat),
        documents_with(docs, term) > 0 <==> total_of(docs, term) > 0,
    decreases docs.len(),
{
    if docs.len() > 0 {
        let front = docs.drop_last();
        assert(forall|i: int| 0 <= i < front.len() ==> front[i] == docs[i]);
        lemma_frequencies_bounded(front, term);
        tally::lemma_occurrences_bounded(docs.last(), term);
        assert(docs[docs.len() - 1].len() <= u64::MAX);
        assert((docs.len() - 1) * (u64::MAX as nat) + (u64::MAX as nat) == docs.len() * (
        u64::MAX as nat)) by (nonlinear_arith);
    }
}

/// A term of some document is a term of all.
proof fn lemma_all_terms(docs: Seq<Seq<Seq<char>>>, doc: Seq<Seq<char>>, term: Seq<char>)
    ensures
        all_terms(docs.push(doc)).contains(term) <==> all_terms(docs).contains(term)
            || doc.contains(term),
        documents_with(docs.push(doc), term) == documents_with(docs, term) + if doc.contains(
            term,
        ) {
            1nat
        } else {
            0
        },
        total_of(docs.push(doc), term) == total_of(docs, term) + tally::occurrences(doc, term),
{
    assert(docs.push(doc).drop_last() =~= docs);
    let a = all_terms(docs);
    let both = a + doc;
    if a.contains(term) {
        let k = choose|k: int| 0 <= k < a.len() && a[k] == term;
        assert(both[k] == term);
    }
    if doc.contains(term) {
        let k = choose|k: int| 0 <= k < doc.len() && doc[k] == term;
        assert(both[a.len() + k] == term);
    }
}

/// A term of documents occurs in at least one of them, and in no more than
/// there are.
pub proof fn law_documents_with(docs: Seq<Seq<Seq<char>>>, term: Seq<char>)
    requires
        all_terms(docs).contains(term),
    ensures
        1 <= documents_with(docs, term) <= docs.len(),
    decreases docs.len(),
{
    let front = docs.drop_last();
    assert(docs =~= front.push(docs.last()));
    lemma_all_terms(front, docs.last(), term);
    if all_terms(front).contains(term) {
        law_documents_with(front, term);
    } else {
        lemma_absent(front, term);
    }
}

/// A term that occurs nowhere has no frequencies.
proof fn lemma_absent(docs: Seq<Seq<Seq<char>>>, term: Seq<char>)
    requires
        !all_terms(docs).contains(term),
    ensures
        documents_with(docs, term) == 0,
        total_of(docs, term) == 0,
    decreases docs.len(),
{
    if docs.len() > 0 {
        let front = docs.drop_last();
        assert(docs =~= front.push(docs.last()));
        lemma_all_terms(front, docs.last(), term);
        lemma_absent(front, term);
        tally::lemma_occurrences_bounded(docs.last(), term);
    }
}

/// The frequencies of the terms of documents, one document after the other.
pub struct Ledger {
    terms: Vec<Text>,
    documents: Vec<u64>,
    totals: Vec<u128>,
    size: u64,
    read: Ghost<Seq<Seq<Seq<char>>>>,
}

impl Ledger {
    /// The documents that were read.
    pub closed spec fn docs(self) -> Seq<Seq<Seq<char>>> {
        self.read@
    }

    pub closed spec fn well_formed(self) -> bool {
        &&& text::views(self.terms@) == tally::distinct(all_terms(self.read@))
        &&& self.documents.len() == self.terms.len()
        &&& self.totals.len() == self.terms.len()
        &&& self.size == self.read@.len()
        &&& self.read@.len() <= frame::MOST_ROWS
        &&& forall|i: int|
            0 <= i < self.read@.len() ==> (#[trigger] self.read@[i]).len() <= u64::MAX
        &&& forall|k: int|
            0 <= k < self.terms.len() ==> {
                &&& self.documents@[k] == documents_with(
                    self.read@,
                    (#[trigger] self.terms@[k])@,
                )
                &&& self.totals@[k] == total_of(self.read@, self.terms@[k]@)
            }
    }

    /// No documents.
    pub fn new() -> (r: Ledger)
        ensures
            r.well_formed(),
            r.docs() == Seq::<Seq<Seq<char>>>::empty(),
    {
        let r: Ledger = Ledger {
            terms: Vec::new(),
            documents: Vec::new(),
            totals: Vec::new(),
            size: 0,
            read: Ghost(Seq::empty()),
        };
        assert(text::views(r.terms@) =~= tally::distinct(all_terms(r.read@)));
        r
    }

    /// Reads one more document.
    #[verifier::rlimit(60)]
    pub fn add(&mut self, doc: &Vec<Text>)
        requires
            old(self).well_formed(),
            old(self).docs().len() < frame::MOST_ROWS,
        ensures
            final(self).well_formed(),
            final(self).docs() == old(self).docs().push(text::views(doc@)),
    {
        let ghost docs = self.read@;
        let ghost words = text::views(doc@);
        let mut tally: Tally = Tally::new();
        let mut i: usize = 0;
        assert(words.take(0) =~= Seq::<Seq<char>>::empty());
        while i < doc.len()
            invariant
                i <= doc.len(),
                words == text::views(doc@),
                tally.well_formed(),
                tally.items() == words.take(i as int),
            decreases doc.len() - i,
        {
            tally.add(&doc[i]);
            i += 1;
            assert(words.take(i as int) =~= words.take(i - 1).push(words[i - 1]));
        }
        assert(words.take(i as int) =~= words);
        let (own, counts) = tally.into_parts();
        let ghost fresh = text::views(own@);
        proof {
            tally::law_distinct(words);
            tally::law_distinct(all_terms(docs));
        }
        let mut terms: Vec<Text> = Vec::new();
        let mut documents: Vec<u64> = Vec::new();
        let mut totals: Vec<u128> = Vec::new();
        std::mem::swap(&mut terms, &mut self.terms);
        std::mem::swap(&mut documents, &mut self.documents);
        std::mem::swap(&mut totals, &mut self.totals);
        let ghost start = text::views(terms@);
        assert forall|t: Seq<char>| #[trigger] start.contains(t) <==> start.contains(t)
            || fresh.take(0).contains(t) by {}
        let mut j: usize = 0;
        while j < own.len()
            invariant
                j <= own.len(),
                fresh == text::views(own@),
                tally::ascending(fresh),
                fresh == tally::distinct(words),
                forall|t: Seq<char>| #[trigger] fresh.contains(t) <==> words.contains(t),
                counts.len() == own.len(),
                forall|k: int|
                    0 <= k < counts.len() ==> #[trigger] counts@[k] == tally::occurrences(
                        words,
                        fresh[k],
                    ),
                start == tally::distinct(all_terms(docs)),
                forall|t: Seq<char>| #[trigger] start.contains(t) <==> all_terms(docs).contains(t),
                docs.len() < frame::MOST_ROWS,
                forall|k: int| 0 <= k < docs.len() ==> (#[trigger] docs[k]).len() <= u64::MAX,
                tally::ascending(text::views(terms@)),
                documents.len() == terms.len(),
                totals.len() == terms.len(),
                forall|t: Seq<char>|
                    #[trigger] text::views(terms@).contains(t) <==> start.contains(t)
                        || fresh.take(j as int).contains(t),
                forall|k: int|
                    0 <= k < terms.len() ==> {
                        let t = (#[trigger] terms@[k])@;
                        let new = fresh.take(j as int).contains(t);
                        &&& documents@[k] == documents_with(docs, t) + if new {
                            1nat
                        } else {
                            0
                        }
                        &&& totals@[k] == total_of(docs, t) + if new {
                            tally::occurrences(words, t)
                        } else {
                            0
                        }
                    },
            decreases own.len() - j,
        {
            let ghost list = text::views(terms@);
            let ghost old_terms = terms@;
            let ghost old_documents = documents@;
            let ghost old_totals = totals@;
            let ghost item = own@[j as int]@;
            let ghost past = fresh.take(j as int);
            let ghost next = fresh.take(j + 1);
            proof {
                assert(item == fresh[j as int]);
                assert(!past.contains(item)) by {
                    if past.contains(item) {
                        let m = choose|m: int| 0 <= m < past.len() && past[m] == item;
                        text::lemma_less_asymmetric(fresh[m], fresh[j as int]);
                    }
                }
                lemma_take_next(fresh, j as int);
                lemma_frequencies_bounded(docs, item);
                assert(docs.len() * (u64::MAX as nat) <= (frame::MOST_ROWS as nat) * (
                u64::MAX as nat)) by (nonlinear_arith)
                    requires
                        docs.len() <= frame::MOST_ROWS,
                ;
            }
            let at: usize = tally::place(&terms, &own[j]);
            if at < terms.len() && terms[at].same(&own[j]) {
                proof {
                    assert(list[at as int] == item);
                    assert(terms@[at as int]@ == item);
                }
                let d: u64 = documents[at];
                documents.set(at, d + 1);
                let t: u128 = totals[at];
                totals.set(at, t + counts[j] as u128);
                proof {
                    assert forall|t: Seq<char>| #[trigger] list.contains(t) <==> start.contains(t)
                        || next.contains(t) by {
                        assert(next.contains(t) <==> past.contains(t) || t == item);
                    }
                    assert forall|k: int| 0 <= k < terms.len() implies {
                        let t = (#[trigger] terms@[k])@;
                        let new = next.contains(t);
                        &&& documents@[k] == documents_with(docs, t) + if new {
                            1nat
                        } else {
                            0
                        }
                        &&& totals@[k] == total_of(docs, t) + if new {
                            tally::occurrences(words, t)
                        } else {
                            0
                        }
                    } by {
                        let t = terms@[k]@;
                        assert(list[k] == t);
                        assert(next.contains(t) <==> past.contains(t) || t == item);
                        if k < at {
                            text::lemma_less_asymmetric(list[k], list[at as int]);
                        } else if at < k {
                            text::lemma_less_asymmetric(list[at as int], list[k]);
                        }
                    }
                }
            } else {
                proof {
                    assert forall|i: int| 0 <= i < list.len() implies #[trigger] list[i]
                        != item by {
                        text::law_less_irreflexive(item);
                        if at < i && list[i] == item {
                            assert(text::less(list[at as int], list[i]));
                        }
                    }
                    assert(!list.contains(item));
                    assert(!start.contains(item));
                    lemma_absent(docs, item);
                    tally::lemma_placed(list, item, at as int);
                    tally::lemma_placed_keeps(list, item);
                }
                terms.insert(at, own[j].duplicate());
                documents.insert(at, 1);
                totals.insert(at, counts[j] as u128);
                proof {
                    let now = text::views(terms@);
                    assert(now =~= list.insert(at as int, item));
                    assert forall|t: Seq<char>| #[trigger] now.contains(t) <==> start.contains(t)
                        || next.contains(t) by {
                        assert(now.contains(t) <==> list.contains(t) || t == item);
                        assert(next.contains(t) <==> past.contains(t) || t == item);
                    }
                    assert forall|k: int| 0 <= k < terms.len() implies {
                        let t = (#[trigger] terms@[k])@;
                        let new = next.contains(t);
                        &&& documents@[k] == documents_with(docs, t) + if new {
                            1nat
                        } else {
                            0
                        }
                        &&& totals@[k] == total_of(docs, t) + if new {
                            tally::occurrences(words, t)
                        } else {
                            0
                        }
                    } by {
                        let t = terms@[k]@;
                        assert(next.contains(t) <==> past.contains(t) || t == item);
                        if k < at {
                            assert(terms@[k] == old_terms[k]);
                            assert(documents@[k] == old_documents[k]);
                            assert(totals@[k] == old_totals[k]);
                            assert(list[k] == t);
                        } else if at < k {
                            assert(terms@[k] == old_terms[k - 1]);
                            assert(documents@[k] == old_documents[k - 1]);
                            assert(totals@[k] == old_totals[k - 1]);
                            assert(list[k - 1] == t);
                        } else {
                            assert(t == item);
                            assert(counts@[j as int] == tally::occurrences(words, item));
                        }
                    }
                }
            }
            j += 1;
        }
        self.terms = terms;
        self.documents = documents;
        self.totals = totals;
        self.size = self.size + 1;
        self.read = Ghost(docs.push(words));
        proof {
            let after = docs.push(words);
            assert(fresh.take(j as int) =~= fresh);
            let list = text::views(self.terms@);
            assert forall|t: Seq<char>| #[trigger] list.contains(t) <==> tally::distinct(
                all_terms(after),
            ).contains(t) by {
                tally::law_distinct(all_terms(after));
                lemma_all_terms(docs, words, t);
                assert(fresh.contains(t) <==> words.contains(t));
            }
            tally::law_distinct(all_terms(after));
            tally::law_ascending_unique(list, tally::distinct(all_terms(after)));
            assert forall|k: int| 0 <= k < self.terms.len() implies {
                &&& self.documents@[k] == documents_with(after, (#[trigger] self.terms@[k])@)
                &&& self.totals@[k] == total_of(after, self.terms@[k]@)
            } by {
                let t = self.terms@[k]@;
                lemma_all_terms(docs, words, t);
                assert(fresh.contains(t) <==> words.contains(t));
                tally::lemma_occurrences_bounded(words, t);
            }
            assert forall|i: int| 0 <= i < after.len() implies (#[trigger] after[i]).len()
                <= u64::MAX by {
                if i < docs.len() {
                    assert(after[i] == docs[i]);
                } else {
                    assert(after[i] == words);
                }
            }
        }
    }

    /// What is planned for the documents that were read.
    pub fn plan(self, ceiling: Ceiling) -> (r: VocabularyPlan)
        requires
            self.well_formed(),
        ensures
            resolved(r.shape(), r.terms()) == candidates(self.docs(), ceiling),
            within(r.shape(), r.terms().len()),
            tally::ascending(term_list(r.shape())),
    {
        let ghost docs = self.read@;
        let all: u64 = self.size;
        let mut program: Program = Program::new();
        let right: usize = match ceiling {
            Ceiling::Product(share) => {
                let a: usize = program.append(Operation::Value(share));
                let b: usize = program.append(Operation::Natural(all));
                program.append(Operation::Times(a, b))
            },
            Ceiling::Quotient(share) => program.append(Operation::Value(share)),
        };
        let mut left: Vec<usize> = Vec::new();
        let mut k: usize = 0;
        let ghost list = tally::distinct(all_terms(docs));
        while k < self.terms.len()
            invariant
                k <= self.terms.len(),
                self.well_formed(),
                docs == self.read@,
                all == docs.len(),
                list == tally::distinct(all_terms(docs)),
                left.len() == k,
                right < program@.len(),
                program@[right as int] == ceiling.right(docs.len()),
                forall|m: int|
                    0 <= m < k ==> (#[trigger] left@[m]) < program@.len()
                        && program@[left@[m] as int] == ceiling.left(
                        documents_with(docs, list[m]),
                        docs.len(),
                    ),
            decreases self.terms.len() - k,
        {
            assert(text::views(self.terms@)[k as int] == self.terms@[k as int]@);
            let count: usize = program.append(Operation::Natural(self.documents[k]));
            let at: usize = match ceiling {
                Ceiling::Product(_) => count,
                Ceiling::Quotient(_) => {
                    let whole: usize = program.append(Operation::Natural(all));
                    program.append(Operation::Over(count, whole))
                },
            };
            left.push(at);
            k += 1;
        }
        proof {
            assert forall|m: int| 0 <= m < self.totals.len() implies (#[trigger] self.totals@[m])
                < MOST_OCCURRENCES by {
                let t = self.terms@[m]@;
                lemma_frequencies_bounded(docs, t);
                assert(docs.len() * (u64::MAX as nat) <= (frame::MOST_ROWS as nat) * (
                u64::MAX as nat)) by (nonlinear_arith)
                    requires
                        docs.len() <= frame::MOST_ROWS,
                ;
            }
        }
        let ghost held_terms = self.terms@;
        let ghost held_documents = self.documents@;
        let ghost held_totals = self.totals@;
        let Ledger { terms, documents, totals, size: _, read: _ } = self;
        let r: VocabularyPlan = VocabularyPlan { terms, documents, totals, left, right, program };
        proof {
            let made = resolved(r.shape(), r.terms());
            let wanted = candidates(docs, ceiling);
            assert(text::views(held_terms) == list);
            assert forall|m: int| 0 <= m < wanted.len() implies made[m] == wanted[m] by {
                assert(text::views(held_terms)[m] == held_terms[m]@);
                assert(left@[m] < program@.len());
            }
            assert(made =~= wanted);
            tally::law_distinct(all_terms(docs));
            assert(term_list(r.shape()) =~= list);
        }
        r
    }
}

/// The first items of a list, and one more.
proof fn lemma_take_next(list: Seq<Seq<char>>, j: int)
    requires
        0 <= j < list.len(),
    ensures
        forall|t: Seq<char>|
            #[trigger] list.take(j + 1).contains(t) <==> list.take(j).contains(t) || t == list[j],
{
    let a = list.take(j);
    let b = list.take(j + 1);
    assert forall|t: Seq<char>| #[trigger] b.contains(t) <==> a.contains(t) || t == list[j] by {
        if b.contains(t) {
            let m = choose|m: int| 0 <= m < b.len() && b[m] == t;
            if m < j {
                assert(a[m] == t);
            }
        }
        if a.contains(t) {
            let m = choose|m: int| 0 <= m < a.len() && a[m] == t;
            assert(b[m] == t);
        }
        assert(b[j] == list[j]);
    }
}

/// What is left to compute of a vocabulary: a program, and what its results
/// decide.
pub struct VocabularyPlan {
    terms: Vec<Text>,
    documents: Vec<u64>,
    totals: Vec<u128>,
    left: Vec<usize>,
    right: usize,
    program: Program,
}

impl VocabularyPlan {
    #[verifier::type_invariant]
    spec fn well_formed(self) -> bool {
        &&& self.documents.len() == self.terms.len()
        &&& self.totals.len() == self.terms.len()
        &&& self.left.len() == self.terms.len()
        &&& self.right < self.program@.len()
        &&& forall|k: int| 0 <= k < self.left.len() ==> (#[trigger] self.left@[k]) < self.program@.len()
        &&& forall|k: int| 0 <= k < self.totals.len() ==> (#[trigger] self.totals@[k]) < MOST_OCCURRENCES
    }

    /// The candidates, with positions of the program in place of terms.
    pub closed spec fn shape(self) -> Seq<Candidate<int>> {
        Seq::new(
            self.terms@.len(),
            |k: int|
                Candidate {
                    term: self.terms@[k]@,
                    documents: self.documents@[k] as nat,
                    total: self.totals@[k] as nat,
                    left: self.left@[k] as int,
                    right: self.right as int,
                },
        )
    }

    /// The terms of the program.
    pub closed spec fn terms(self) -> Seq<Term> {
        self.program@
    }

    /// The program to evaluate.
    pub fn program(&self) -> (r: &Program)
        ensures
            r@ == self.terms(),
    {
        &self.program
    }
}

/// The terms of a vocabulary, and in how many documents each occurs.
pub open spec fn chosen(list: Seq<Candidate<int>>) -> Seq<(Seq<char>, nat)> {
    Seq::new(list.len(), |k: int| (list[k].term, list[k].documents))
}

/// Terms with their numbers of documents.
pub open spec fn entries(terms: Seq<Text>, documents: Seq<u64>) -> Seq<(Seq<char>, nat)> {
    Seq::new(terms.len(), |k: int| (terms[k]@, documents[k] as nat))
}

/// Chooses the vocabulary, from the results of the plan's program, one for
/// each of its operations.
pub fn choose_terms(
    plan: &VocabularyPlan,
    least: usize,
    most: Option<usize>,
    values: &Vec<Double>,
) -> (r: (Vec<Text>, Vec<u64>))
    requires
        values.len() == plan.terms().len(),
    ensures
        r.0.len() == r.1.len(),
        entries(r.0@, r.1@) == chosen(vocabulary(plan.shape(), least as nat, most, values@)),
{
    proof {
        use_type_invariant(plan);
    }
    let ghost list = plan.shape();
    let mut kept: Vec<usize> = Vec::new();
    let mut keys: Vec<i128> = Vec::new();
    let mut k: usize = 0;
    let ceiling: Double = values[plan.right];
    assert(list.take(0) =~= Seq::<Candidate<int>>::empty());
    while k < plan.terms.len()
        invariant
            k <= plan.terms.len(),
            plan.well_formed(),
            list == plan.shape(),
            values.len() == plan.program@.len(),
            ceiling == values@[plan.right as int],
            kept.len() == survivors(list.take(k as int), least as nat, values@).len(),
            keys.len() == kept.len(),
            forall|m: int|
                0 <= m < kept.len() ==> (#[trigger] kept@[m]) < list.len() && list[kept@[m] as int]
                    == survivors(list.take(k as int), least as nat, values@)[m],
            forall|m: int|
                0 <= m < keys.len() ==> #[trigger] keys@[m] == -(list[kept@[m] as int].total as int),
        decreases plan.terms.len() - k,
    {
        assert(list.take(k + 1).drop_last() =~= list.take(k as int));
        let share: Double = values[plan.left[k]];
        if plan.documents[k] >= least as u64 && (share.is_below(ceiling) || share.is_equal(ceiling)) {
            kept.push(k);
            assert(plan.totals@[k as int] < MOST_OCCURRENCES);
            keys.push(-(plan.totals[k] as i128));
        }
        k += 1;
    }
    assert(list.take(k as int) =~= list);
    let ghost alive = survivors(list, least as nat, values@);
    assert(order::key_values(keys@) =~= rank_keys(alive));
    let p: Vec<usize> = order::sorted(&keys);
    let ghost q = order::order(rank_keys(alive));
    assert(order::positions(p@) == q);
    let count: usize = match most {
        Some(n) => if n < p.len() {
            n
        } else {
            p.len()
        },
        None => p.len(),
    };
    let ghost wanted = vocabulary(list, least as nat, most, values@);
    let mut terms: Vec<Text> = Vec::new();
    let mut documents: Vec<u64> = Vec::new();
    let mut i: usize = 0;
    while i < count
        invariant
            i <= count <= p.len(),
            plan.well_formed(),
            list == plan.shape(),
            alive == survivors(list, least as nat, values@),
            p.len() == kept.len(),
            q == order::positions(p@),
            wanted.len() == count,
            forall|m: int| 0 <= m < count ==> #[trigger] wanted[m] == alive[q[m]],
            forall|m: int| 0 <= m < p.len() ==> (#[trigger] p@[m]) < kept.len(),
            forall|m: int|
                0 <= m < kept.len() ==> (#[trigger] kept@[m]) < list.len() && list[kept@[m] as int]
                    == alive[m],
            terms.len() == i,
            documents.len() == i,
            forall|m: int|
                0 <= m < i ==> (#[trigger] terms@[m])@ == wanted[m].term && documents@[m]
                    == wanted[m].documents,
        decreases count - i,
    {
        let at: usize = kept[p[i]];
        assert(q[i as int] == p@[i as int]);
        assert(list[at as int] == alive[q[i as int]]);
        terms.push(plan.terms[at].duplicate());
        documents.push(plan.documents[at]);
        i += 1;
    }
    assert(entries(terms@, documents@) =~= chosen(wanted));
    (terms, documents)
}

/// How often each term of a vocabulary occurs in a document.
pub open spec fn counts_of(terms: Seq<Seq<char>>, doc: Seq<Seq<char>>) -> Seq<nat> {
    Seq::new(terms.len(), |k: int| tally::occurrences(doc, terms[k]))
}

/// How often each term of a vocabulary occurs in a document.
pub fn count_terms(terms: &Vec<Text>, doc: &Vec<Text>) -> (r: Vec<u64>)
    ensures
        r.len() == terms.len(),
        forall|k: int|
            0 <= k < r.len() ==> #[trigger] r@[k] == counts_of(
                text::views(terms@),
                text::views(doc@),
            )[k],
{
    let ghost words = text::views(doc@);
    let ghost wanted = counts_of(text::views(terms@), words);
    let mut tally: Tally = Tally::new();
    let mut i: usize = 0;
    assert(words.take(0) =~= Seq::<Seq<char>>::empty());
    while i < doc.len()
        invariant
            i <= doc.len(),
            words == text::views(doc@),
            tally.well_formed(),
            tally.items() == words.take(i as int),
        decreases doc.len() - i,
    {
        tally.add(&doc[i]);
        i += 1;
        assert(words.take(i as int) =~= words.take(i - 1).push(words[i - 1]));
    }
    assert(words.take(i as int) =~= words);
    let (own, counts) = tally.into_parts();
    proof {
        tally::law_distinct(words);
    }
    let mut r: Vec<u64> = Vec::new();
    let mut k: usize = 0;
    while k < terms.len()
        invariant
            k <= terms.len(),
            r.len() == k,
            wanted == counts_of(text::views(terms@), words),
            text::views(own@) == tally::distinct(words),
            tally::ascending(text::views(own@)),
            forall|t: Seq<char>|
                #[trigger] tally::distinct(words).contains(t) <==> words.contains(t),
            counts.len() == own.len(),
            forall|m: int|
                0 <= m < counts.len() ==> #[trigger] counts@[m] == tally::occurrences(
                    words,
                    tally::distinct(words)[m],
                ),
            forall|m: int| 0 <= m < k ==> #[trigger] r@[m] == wanted[m],
        decreases terms.len() - k,
    {
        let found: Option<usize> = tally::find(&own, &terms[k]);
        let count: u64 = match found {
            Some(m) => counts[m],
            None => 0,
        };
        proof {
            tally::lemma_occurrences_bounded(words, terms@[k as int]@);
        }
        r.push(count);
        k += 1;
    }
    r
}

/// The columns of the counts of a vocabulary in documents.
pub open spec fn count_columns(terms: Seq<Seq<char>>, docs: Seq<Seq<Seq<char>>>) -> Seq<
    SheetColumnView,
> {
    Seq::new(
        terms.len(),
        |k: int|
            SheetColumnView {
                name: terms[k],
                cells: CellsView::Float64(
                    Seq::new(
                        docs.len(),
                        |i: int| Some(Term::Natural(tally::occurrences(docs[i], terms[k]))),
                    ),
                ),
            },
    )
}

/// What becomes of counts: without terms there are neither rows nor columns.
pub open spec fn count_sheet(terms: Seq<Seq<char>>, height: nat, docs: Seq<Seq<Seq<char>>>) -> SheetView {
    if terms.len() == 0 {
        SheetView { height: 0, columns: Seq::empty() }
    } else {
        SheetView { height, columns: count_columns(terms, docs) }
    }
}

/// Whether rows hold the counts of a vocabulary in documents.
pub open spec fn counted(
    rows: Seq<Vec<u64>>,
    terms: Seq<Seq<char>>,
    docs: Seq<Seq<Seq<char>>>,
) -> bool {
    &&& rows.len() == docs.len()
    &&& forall|i: int| 0 <= i < rows.len() ==> (#[trigger] rows[i]).len() == terms.len()
    &&& forall|i: int, k: int|
        0 <= i < rows.len() && 0 <= k < terms.len() ==> #[trigger] rows[i]@[k]
            == tally::occurrences(docs[i], terms[k])
}

/// The columns of counts, from their rows.
pub(crate) fn make_count_columns(
    terms: &Vec<Text>,
    rows: &Vec<Vec<u64>>,
    docs: Ghost<Seq<Seq<Seq<char>>>>,
) -> (r: Vec<SheetColumn>)
    requires
        counted(rows@, text::views(terms@), docs@),
    ensures
        frame::sheet_columns(r@, Seq::<Term>::empty()) == count_columns(
            text::views(terms@),
            docs@,
        ),
{
    let ghost none = Seq::<Term>::empty();
    let ghost list = text::views(terms@);
    let ghost wanted = count_columns(list, docs@);
    let mut r: Vec<SheetColumn> = Vec::new();
    let mut k: usize = 0;
    while k < terms.len()
        invariant
            k <= terms.len(),
            r.len() == k,
            none == Seq::<Term>::empty(),
            list == text::views(terms@),
            wanted == count_columns(list, docs@),
            counted(rows@, list, docs@),
            forall|m: int| 0 <= m < k ==> frame::sheet_column(#[trigger] r@[m], none) == wanted[m],
        decreases terms.len() - k,
    {
        let mut cells: Vec<Option<Number>> = Vec::new();
        let mut i: usize = 0;
        while i < rows.len()
            invariant
                i <= rows.len(),
                k < terms.len(),
                cells.len() == i,
                none == Seq::<Term>::empty(),
                list == text::views(terms@),
                counted(rows@, list, docs@),
                forall|m: int|
                    0 <= m < i ==> frame::optional_term(#[trigger] cells@[m], none) == Some(
                        Term::Natural(tally::occurrences(docs@[m], list[k as int])),
                    ),
            decreases rows.len() - i,
        {
            assert(rows@[i as int].len() == list.len());
            assert(rows@[i as int]@[k as int] == tally::occurrences(
                docs@[i as int],
                list[k as int],
            ));
            cells.push(Some(Number::Natural(rows[i][k])));
            i += 1;
        }
        let column: SheetColumn = SheetColumn {
            name: terms[k].duplicate(),
            cells: Cells::Float64(cells),
        };
        proof {
            assert(frame::terms_of(cells@, none) =~= Seq::new(
                docs@.len(),
                |m: int| Some(Term::Natural(tally::occurrences(docs@[m], list[k as int]))),
            ));
            assert(frame::sheet_column(column, none) == wanted[k as int]);
        }
        r.push(column);
        k += 1;
    }
    assert(frame::sheet_columns(r@, none) =~= wanted);
    r
}

/// Why the bounds of a vocabulary cannot be used.
pub open spec fn bounds_fault(
    who: Seq<char>,
    low: nat,
    high: nat,
    least: nat,
    most: Option<usize>,
    share: Double,
) -> Option<ErrorView> {
    if low < 1 || low > high {
        Some(ErrorView::plain(Problem::InvalidRange(low as usize, high as usize), who))
    } else if least == 0 {
        Some(ErrorView::plain(Problem::InvalidMinDf, who))
    } else if most == Some(0usize) {
        Some(ErrorView::plain(Problem::InvalidMaxFeatures, who))
    } else if !((Double { bits: 0 }).below(share) && at_most(
        share,
        Double { bits: crate::double::ONE },
    )) {
        Some(ErrorView::plain(Problem::InvalidMaxDf(share), who))
    } else {
        None
    }
}

/// Checks the bounds of a vocabulary.
pub fn check_bounds(
    who: &str,
    low: usize,
    high: usize,
    least: usize,
    most: Option<usize>,
    share: Double,
) -> (r: Result<(), Error>)
    ensures
        match r {
            Ok(_) => bounds_fault(who@, low as nat, high as nat, least as nat, most, share) is None,
            Err(e) => bounds_fault(who@, low as nat, high as nat, least as nat, most, share) == Some(
                e@,
            ),
        },
{
    if low < 1 || low > high {
        return Err(Error::plain(Problem::InvalidRange(low, high), who));
    }
    if least == 0 {
        return Err(Error::plain(Problem::InvalidMinDf, who));
    }
    match most {
        Some(n) => {
            if n == 0 {
                return Err(Error::plain(Problem::InvalidMaxFeatures, who));
            }
        },
        None => {},
    }
    if Double::zero().is_below(share) && (share.is_below(Double::one()) || share.is_equal(
        Double::one(),
    )) {
        Ok(())
    } else {
        Err(Error::plain(Problem::InvalidMaxDf(share), who))
    }
}

/// Why the column to vectorize cannot be had.
pub open spec fn column_fault(who: Seq<char>, column: Option<Seq<char>>, x: FrameView) -> Option<
    ErrorView,
> {
    match column {
        None => Some(ErrorView::plain(Problem::NoColumnConfigured, who)),
        Some(name) => encoder::text_fault(who, x)(name),
    }
}

} // verus!
