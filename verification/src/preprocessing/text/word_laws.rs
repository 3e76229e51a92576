//! What words, runs of items, terms and n-grams are.

use crate::count;
use crate::double::Double;
use crate::preprocessing::text::char_ngram_vectorizer;
use crate::preprocessing::text::char_ngram_vectorizer::Analyzer;
use crate::preprocessing::text::vocabulary;
use crate::preprocessing::text::vocabulary::Ceiling;
use crate::preprocessing::text::words;
use crate::program;
use crate::tally;
use vstd::prelude::*;

verus! {

/// White space parts words: the words of two texts with white space between them
/// are those of the one and then those of the other.
pub proof fn law_words_of_two_texts(a: Seq<char>, space: char, b: Seq<char>)
    requires
        words::space(space),
    ensures
        words::words(a.push(space) + b) == words::words(a) + words::words(b),
{
    lemma_words_of_two_texts(a, space, b);
    assert(words::words(a.push(space) + b) =~= words::words(a) + words::words(b));
}

/// The words of two texts, up to the last.
proof fn lemma_words_of_two_texts(a: Seq<char>, space: char, b: Seq<char>)
    requires
        words::space(space),
    ensures
        words::tail(a.push(space) + b) == words::tail(b),
        words::words_before(a.push(space) + b) == words::words(a) + words::words_before(b),
    decreases b.len(),
{
    let t = a.push(space) + b;
    if b.len() == 0 {
        assert(t =~= a.push(space));
        assert(t.drop_last() =~= a);
        assert(words::words_before(t) =~= words::words(a) + words::words_before(b));
    } else {
        let (c, front) = (b.last(), b.drop_last());
        lemma_words_of_two_texts(a, space, front);
        assert(t.drop_last() =~= a.push(space) + front);
        assert(t.last() == c);
        reveal_with_fuel(words::words_before, 3);
        reveal_with_fuel(words::words, 3);
        assert(words::words(t.drop_last()) =~= words::words(a) + words::words(front));
        assert(words::words_before(t) =~= words::words(a) + words::words_before(b));
    }
}

/// A text without white space is one word; an empty one has none.
pub proof fn law_one_word(t: Seq<char>)
    requires
        forall|i: int| 0 <= i < t.len() ==> !words::space(#[trigger] t[i]),
    ensures
        words::words(t) == if t.len() == 0 {
            Seq::<Seq<char>>::empty()
        } else {
            seq![t]
        },
{
    lemma_one_word(t);
    assert(words::words(t) =~= if t.len() == 0 {
        Seq::<Seq<char>>::empty()
    } else {
        seq![t]
    });
}

/// A text without white space ends in the word that it is.
proof fn lemma_one_word(t: Seq<char>)
    requires
        forall|i: int| 0 <= i < t.len() ==> !words::space(#[trigger] t[i]),
    ensures
        words::tail(t) == t,
        words::words_before(t) == Seq::<Seq<char>>::empty(),
    decreases t.len(),
{
    if t.len() > 0 {
        let front = t.drop_last();
        assert forall|i: int| 0 <= i < front.len() implies !words::space(#[trigger] front[i]) by {
            assert(front[i] == t[i]);
        }
        assert(!words::space(t[t.len() - 1]));
        lemma_one_word(front);
        assert(front.push(t.last()) =~= t);
    }
}

/// Where two texts do not meet in white space on both sides, each is collapsed by
/// itself.
pub proof fn law_collapsed_apart(a: Seq<char>, b: Seq<char>)
    requires
        a.len() == 0 || b.len() == 0 || !words::space(a.last()) || !words::space(b[0]),
    ensures
        words::collapsed(a + b) == words::collapsed(a) + words::collapsed(b),
    decreases b.len(),
{
    if b.len() == 0 {
        assert(a + b =~= a);
        assert(words::collapsed(a) + words::collapsed(b) =~= words::collapsed(a));
    } else {
        let (c, front) = (b.last(), b.drop_last());
        let t = a + b;
        law_collapsed_apart(a, front);
        assert(t.drop_last() =~= a + front);
        if front.len() > 0 {
            words::lemma_collapsed_end(front);
            assert(t[t.len() - 2] == b[b.len() - 2]);
        } else if a.len() > 0 {
            assert(t[t.len() - 2] == a.last());
            assert(b[0] == c);
        }
        let (x, y) = (words::collapsed(a), words::collapsed(front));
        assert(words::collapsed(t) =~= x + words::collapsed(b));
    }
}

/// A run of two or more white space characters becomes one space, and a single
/// character stays as it is.
pub proof fn law_collapsed_run(run: Seq<char>)
    requires
        run.len() > 0,
        run.len() > 1 ==> forall|i: int| 0 <= i < run.len() ==> words::space(#[trigger] run[i]),
    ensures
        words::collapsed(run) == if run.len() == 1 {
            run
        } else {
            seq![' ']
        },
    decreases run.len(),
{
    let front = run.drop_last();
    if run.len() == 1 {
        assert(words::collapsed(front) =~= Seq::<char>::empty());
        assert(words::collapsed(run) =~= run);
    } else {
        assert(words::space(run[run.len() - 1]) && words::space(run[run.len() - 2]));
        assert forall|i: int| 0 <= i < front.len() implies words::space(#[trigger] front[i]) by {
            assert(front[i] == run[i]);
        }
        law_collapsed_run(front);
        assert(words::collapsed(run) =~= seq![' ']);
    }
}

/// The runs of a list stand by their length and then by where they start: the run
/// of `n` items from `start` on comes after all shorter ones and those that start
/// before.
pub proof fn law_run_at<T>(list: Seq<T>, low: nat, high: nat, n: nat, start: int)
    requires
        1 <= low <= n <= high,
        0 <= start,
        start + n <= list.len(),
    ensures
        ({
            let at = words::gram_count(list.len(), low, (n - 1) as nat) + start;
            &&& at < words::grams(list, low, high).len()
            &&& words::grams(list, low, high)[at] == list.subrange(start, start + n)
        }),
    decreases high,
{
    let front = words::grams(list, low, (high - 1) as nat);
    words::law_gram_count(list, low, (high - 1) as nat);
    if n < high {
        law_run_at(list, low, (high - 1) as nat, n, start);
    }
}

/// The runs of a list are its stretches of `low` up to `high` items, and no others.
pub proof fn law_runs<T>(list: Seq<T>, low: nat, high: nat, run: Seq<T>)
    requires
        low >= 1,
    ensures
        words::grams(list, low, high).contains(run) <==> exists|start: int|
            #[trigger] is_stretch(list, run, start) && low <= run.len() <= high,
    decreases high,
{
    let all = words::grams(list, low, high);
    if exists|start: int| #[trigger] is_stretch(list, run, start) && low <= run.len() <= high {
        let start = choose|start: int|
            #[trigger] is_stretch(list, run, start) && low <= run.len() <= high;
        law_run_at(list, low, high, run.len(), start);
        let at = words::gram_count(list.len(), low, (run.len() - 1) as nat) + start;
        assert(all[at] == run);
    }
    if all.contains(run) {
        let k = choose|k: int| 0 <= k < all.len() && all[k] == run;
        let front = words::grams(list, low, (high - 1) as nat);
        if k < front.len() {
            assert(front[k] == run);
            law_runs(list, low, (high - 1) as nat, run);
        } else {
            let start = k - front.len();
            assert(words::windows(list, high)[start] == run);
            assert(is_stretch(list, run, start));
        }
    }
}

/// Whether a run stands in a list from `start` on.
pub open spec fn is_stretch<T>(list: Seq<T>, run: Seq<T>, start: int) -> bool {
    0 <= start && start + run.len() <= list.len() && run == list.subrange(
        start,
        start + run.len(),
    )
}

/// Texts are put together with one space between them: two lists of texts put
/// together are those of the one, a space, and those of the other; and one text is
/// itself.
pub proof fn law_spaced(a: Seq<Seq<char>>, b: Seq<Seq<char>>)
    requires
        a.len() > 0,
        b.len() > 0,
    ensures
        words::spaced(a + b) == words::spaced(a).push(' ') + words::spaced(b),
        a.len() == 1 ==> words::spaced(a) == a[0],
    decreases b.len(),
{
    reveal_strlit(" ");
    let front = b.drop_last();
    assert((a + b).drop_last() =~= a + front);
    if b.len() == 1 {
        assert(a + front =~= a);
    } else {
        law_spaced(a, front);
    }
    assert(words::spaced(a + b) =~= words::spaced(a).push(' ') + words::spaced(b));
}

/// A token that is not empty and not left out is kept as often as it occurs, and
/// any other not at all.
pub proof fn law_tokens_kept(
    tokens: Seq<Seq<char>>,
    left_out: Seq<Seq<char>>,
    token: Seq<char>,
)
    ensures
        tally::occurrences(words::kept_tokens(tokens, left_out), token) == if token.len() == 0
            || left_out.contains(token) {
            0
        } else {
            tally::occurrences(tokens, token)
        },
    decreases tokens.len(),
{
    if tokens.len() > 0 {
        let front = words::kept_tokens(tokens.drop_last(), left_out);
        law_tokens_kept(tokens.drop_last(), left_out, token);
        let last = tokens.last();
        assert(front.push(last).drop_last() =~= front);
    }
}

/// Kept tokens keep their order: those of two lists are those of the one and then
/// those of the other.
pub proof fn law_tokens_in_order(
    a: Seq<Seq<char>>,
    b: Seq<Seq<char>>,
    left_out: Seq<Seq<char>>,
)
    ensures
        words::kept_tokens(a + b, left_out) == words::kept_tokens(a, left_out)
            + words::kept_tokens(b, left_out),
    decreases b.len(),
{
    if b.len() == 0 {
        assert(a + b =~= a);
        assert(words::kept_tokens(a, left_out) + words::kept_tokens(b, left_out)
            =~= words::kept_tokens(a, left_out));
    } else {
        law_tokens_in_order(a, b.drop_last(), left_out);
        assert((a + b).drop_last() =~= a + b.drop_last());
        assert(words::kept_tokens(a + b, left_out) =~= words::kept_tokens(a, left_out)
            + words::kept_tokens(b, left_out));
    }
}

/// The n-grams of the words of two texts, one after the other.
proof fn lemma_word_grams(a: Seq<Seq<char>>, b: Seq<Seq<char>>, low: nat, high: nat)
    ensures
        char_ngram_vectorizer::word_grams(a + b, low, high) == char_ngram_vectorizer::word_grams(
            a,
            low,
            high,
        ) + char_ngram_vectorizer::word_grams(b, low, high),
    decreases b.len(),
{
    let x = char_ngram_vectorizer::word_grams(a, low, high);
    if b.len() == 0 {
        assert(a + b =~= a);
        assert(x + char_ngram_vectorizer::word_grams(b, low, high) =~= x);
    } else {
        lemma_word_grams(a, b.drop_last(), low, high);
        assert((a + b).drop_last() =~= a + b.drop_last());
        assert(char_ngram_vectorizer::word_grams(a + b, low, high) =~= x
            + char_ngram_vectorizer::word_grams(b, low, high));
    }
}

/// The n-grams within words of two texts with white space between them are those
/// of the one and then those of the other; those of a word are the runs of its
/// characters with a space before and after it. Those of a text without two white
/// space characters side by side are the runs of its characters.
pub proof fn law_grams_of_texts(a: Seq<char>, space: char, b: Seq<char>, low: nat, high: nat)
    requires
        words::space(space),
    ensures
        char_ngram_vectorizer::text_grams(Analyzer::CharWb, a.push(space) + b, low, high)
            == char_ngram_vectorizer::text_grams(Analyzer::CharWb, a, low, high)
            + char_ngram_vectorizer::text_grams(Analyzer::CharWb, b, low, high),
        a.len() > 0 && (forall|i: int| 0 <= i < a.len() ==> !words::space(#[trigger] a[i]))
            ==> char_ngram_vectorizer::text_grams(Analyzer::CharWb, a, low, high) == words::grams(
            seq![' '] + a + seq![' '],
            low,
            high,
        ),
        (forall|i: int| 0 <= i < a.len() - 1 ==> !(words::space(#[trigger] a[i]) && words::space(
            a[i + 1],
        ))) ==> char_ngram_vectorizer::text_grams(Analyzer::CharOnly, a, low, high)
            == words::grams(a, low, high),
{
    law_words_of_two_texts(a, space, b);
    lemma_word_grams(words::words(a), words::words(b), low, high);
    if a.len() > 0 && (forall|i: int| 0 <= i < a.len() ==> !words::space(#[trigger] a[i])) {
        law_one_word(a);
        let list = seq![a];
        assert(list.drop_last() =~= Seq::<Seq<char>>::empty());
        reveal_with_fuel(char_ngram_vectorizer::word_grams, 2);
        assert(char_ngram_vectorizer::word_grams(list, low, high) =~= words::grams(
            char_ngram_vectorizer::padded(a),
            low,
            high,
        ));
    }
    if forall|i: int| 0 <= i < a.len() - 1 ==> !(words::space(#[trigger] a[i]) && words::space(
        a[i + 1],
    )) {
        words::lemma_collapsed_stays(a);
    }
}

/// A term occurs in no more documents than a share of all allows, by either way to
/// compare them, if the number of documents with it is no more than the share times
/// the number of all. In exact arithmetic.
pub proof fn law_share_of_documents(
    documents: nat,
    all: nat,
    share: Double,
    value: spec_fn(Double) -> real,
)
    requires
        all > 0,
    ensures
        ({
            let few = documents as int as real <= value(share) * (all as int as real);
            let (p, q) = (Ceiling::Product(share), Ceiling::Quotient(share));
            &&& (program::exact(p.left(documents, all), value) <= program::exact(
                p.right(all),
                value,
            )) == few
            &&& (program::exact(q.left(documents, all), value) <= program::exact(
                q.right(all),
                value,
            )) == few
        }),
{
    reveal_with_fuel(program::exact, 2);
    let (d, n, s) = (documents as int as real, all as int as real, value(share));
    crate::calculus::lemma_quotient(d, n);
    let r = d / n;
    let gap = s - r;
    assert((s - r) * n == s * n - r * n) by (nonlinear_arith);
    if gap >= 0real {
        crate::calculus::lemma_product(gap, n);
    } else {
        assert(gap * n < 0real) by (nonlinear_arith)
            requires
                gap < 0real,
                n > 0real,
        ;
    }
}

/// Whether document `i` holds a term.
pub open spec fn document_holds(
    docs: Seq<Seq<Seq<char>>>,
    term: Seq<char>,
) -> spec_fn(int) -> bool {
    |i: int| docs[i].contains(term)
}

/// The frequencies of a term are the number of documents that hold it, and how
/// often it occurs in all of them together.
pub proof fn law_frequencies(docs: Seq<Seq<Seq<char>>>, term: Seq<char>)
    ensures
        vocabulary::documents_with(docs, term) == count::counted(
            docs.len(),
            document_holds(docs, term),
        ),
        vocabulary::total_of(docs, term) == tally::occurrences(vocabulary::all_terms(docs), term),
    decreases docs.len(),
{
    if docs.len() > 0 {
        let front = docs.drop_last();
        law_frequencies(front, term);
        count::lemma_agreeing(
            front.len(),
            document_holds(front, term),
            document_holds(docs, term),
        );
        lemma_occurrences_joined(vocabulary::all_terms(front), docs.last(), term);
    }
}

/// What two lists hold.
proof fn lemma_occurrences_joined(a: Seq<Seq<char>>, b: Seq<Seq<char>>, item: Seq<char>)
    ensures
        tally::occurrences(a + b, item) == tally::occurrences(a, item) + tally::occurrences(b, item),
    decreases b.len(),
{
    if b.len() == 0 {
        assert(a + b =~= a);
    } else {
        lemma_occurrences_joined(a, b.drop_last(), item);
        assert((a + b).drop_last() =~= a + b.drop_last());
    }
}

} // verus!
