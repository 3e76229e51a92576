//! Character n-gram vectorization.
//!
//! Each row of a text column is a document, and each document is turned into
//! the runs of adjacent characters in it.

use crate::double::Double;
use crate::error::Error;
use crate::error::ErrorView;
use crate::error::Problem;
use crate::frame;
use crate::frame::Frame;
use crate::frame::FrameView;
use crate::frame::Sheet;
use crate::frame::SheetColumn;
use crate::frame::SheetView;
use crate::preprocessing::encoder;
use crate::preprocessing::text::count_vectorizer;
use crate::preprocessing::text::vocabulary;
use crate::preprocessing::text::vocabulary::Candidate;
use crate::preprocessing::text::vocabulary::Ceiling;
use crate::preprocessing::text::vocabulary::Ledger;
use crate::preprocessing::text::vocabulary::VocabularyPlan;
use crate::preprocessing::text::words;
use crate::program::Program;
use crate::program::Term;
use crate::reals;
use crate::tally;
use crate::text;
use crate::text::Text;
use vstd::prelude::*;

verus! {

/// Which characters n-grams are taken from.
#[derive(Clone, Copy, Debug, PartialEq, Eq, Structural)]
pub enum Analyzer {
    /// The whole document, its runs of white space collapsed.
    CharOnly,
    /// Each word on its own, with a space before and after it.
    CharWb,
}

impl Default for Analyzer {
    fn default() -> (r: Analyzer)
        ensures
            r == Analyzer::CharOnly,
    {
        Analyzer::CharOnly
    }
}

/// A word with a space before and after it.
pub open spec fn padded(word: Seq<char>) -> Seq<char> {
    seq![' '] + word + seq![' ']
}

/// The n-grams of each of a list of words, one word after the other.
pub open spec fn word_grams(list: Seq<Seq<char>>, low: nat, high: nat) -> Seq<Seq<char>>
    decreases list.len(),
{
    if list.len() == 0 {
        Seq::empty()
    } else {
        word_grams(list.drop_last(), low, high) + words::grams(padded(list.last()), low, high)
    }
}

/// The n-grams of a text.
pub open spec fn text_grams(analyzer: Analyzer, t: Seq<char>, low: nat, high: nat) -> Seq<
    Seq<char>,
> {
    match analyzer {
        Analyzer::CharOnly => words::grams(words::collapsed(t), low, high),
        Analyzer::CharWb => word_grams(words::words(t), low, high),
    }
}

/// Every n-gram is as long as one of the lengths asked for.
pub proof fn law_text_grams_length(analyzer: Analyzer, t: Seq<char>, low: nat, high: nat, k: int)
    requires
        0 <= k < text_grams(analyzer, t, low, high).len(),
    ensures
        low <= text_grams(analyzer, t, low, high)[k].len() <= high,
{
    match analyzer {
        Analyzer::CharOnly => {
            words::law_grams_length(words::collapsed(t), low, high, k);
        },
        Analyzer::CharWb => {
            lemma_word_grams_length(words::words(t), low, high, k);
        },
    }
}

/// The n-grams of words are as long as asked for.
proof fn lemma_word_grams_length(list: Seq<Seq<char>>, low: nat, high: nat, k: int)
    requires
        0 <= k < word_grams(list, low, high).len(),
    ensures
        low <= word_grams(list, low, high)[k].len() <= high,
    decreases list.len(),
{
    if list.len() > 0 {
        let front = word_grams(list.drop_last(), low, high);
        if k < front.len() {
            lemma_word_grams_length(list.drop_last(), low, high, k);
        } else {
            words::law_grams_length(padded(list.last()), low, high, k - front.len());
        }
    }
}

/// A text that is too short has no n-grams.
pub proof fn law_short_text(t: Seq<char>, low: nat, high: nat)
    requires
        words::collapsed(t).len() < low,
    ensures
        text_grams(Analyzer::CharOnly, t, low, high).len() == 0,
    decreases high,
{
    if high >= low && high > 0 {
        law_short_text(t, low, (high - 1) as nat);
    }
}

/// A run of white space gives the n-grams that a single space gives.
pub proof fn law_runs_of_space(t: Seq<char>, low: nat, high: nat)
    ensures
        text_grams(Analyzer::CharOnly, words::collapsed(t), low, high) == text_grams(
            Analyzer::CharOnly,
            t,
            low,
            high,
        ),
{
    words::law_collapsed_twice(t);
}

/// An n-gram within words spans no two of them: white space stands at its
/// ends only.
pub proof fn law_grams_within_words(t: Seq<char>, low: nat, high: nat, k: int, i: int)
    requires
        0 <= k < text_grams(Analyzer::CharWb, t, low, high).len(),
        0 < i < text_grams(Analyzer::CharWb, t, low, high)[k].len() - 1,
    ensures
        !words::space(text_grams(Analyzer::CharWb, t, low, high)[k][i]),
{
    assert forall|m: int, c: int|
        0 <= m < words::words(t).len() && 0 <= c < words::words(t)[m].len() implies !words::space(
        #[trigger] words::words(t)[m][c],
    ) by {
        words::law_words(t, m);
    }
    lemma_grams_within_words(words::words(t), low, high, k, i);
}

/// The n-grams of words without white space have it at their ends only.
proof fn lemma_grams_within_words(
    list: Seq<Seq<char>>,
    low: nat,
    high: nat,
    k: int,
    i: int,
)
    requires
        forall|m: int, c: int|
            0 <= m < list.len() && 0 <= c < list[m].len() ==> !words::space(
                #[trigger] list[m][c],
            ),
        0 <= k < word_grams(list, low, high).len(),
        0 < i < word_grams(list, low, high)[k].len() - 1,
    ensures
        !words::space(word_grams(list, low, high)[k][i]),
    decreases list.len(),
{
    if list.len() > 0 {
        let rest = list.drop_last();
        let front = word_grams(rest, low, high);
        if k < front.len() {
            assert forall|m: int, c: int|
                0 <= m < rest.len() && 0 <= c < rest[m].len() implies !words::space(
                #[trigger] rest[m][c],
            ) by {
                assert(rest[m][c] == list[m][c]);
            }
            lemma_grams_within_words(rest, low, high, k, i);
        } else {
            let word = list.last();
            let wide = padded(word);
            let gram = words::grams(wide, low, high)[k - front.len()];
            words::lemma_grams_within(wide, low, high, k - front.len(), i);
            let start = choose|start: int|
                0 <= start && start + gram.len() <= wide.len() && gram[i] == #[trigger] wide[start
                    + i];
            assert(wide[start + i] == word[start + i - 1]);
            assert(list[list.len() - 1][start + i - 1] == word[start + i - 1]);
        }
    }
}

/// The settings of a vectorizer.
#[verifier::ext_equal]
pub struct CharSettings {
    /// The column to vectorize.
    pub column: Option<Seq<char>>,
    pub analyzer: Analyzer,
    /// The least length of an n-gram.
    pub low: nat,
    /// The greatest length of an n-gram.
    pub high: nat,
    /// The greatest number of terms.
    pub max_features: Option<usize>,
    /// The least number of documents with a term.
    pub min_df: nat,
    /// The greatest share of documents with a term.
    pub max_df: Double,
    /// Whether documents are put in lower case.
    pub lowercase: bool,
}

impl CharSettings {
    /// The settings to begin with.
    pub open spec fn initial() -> CharSettings {
        CharSettings {
            column: None,
            analyzer: Analyzer::CharOnly,
            low: 2,
            high: 4,
            max_features: None,
            min_df: 1,
            max_df: Double { bits: crate::double::ONE },
            lowercase: true,
        }
    }

    /// The n-grams of a document; a missing one has none.
    pub open spec fn terms(self, doc: Option<Seq<char>>) -> Seq<Seq<char>> {
        match doc {
            None => Seq::empty(),
            Some(t) => text_grams(
                self.analyzer,
                if self.lowercase {
                    words::lower_case(t)
                } else {
                    t
                },
                self.low,
                self.high,
            ),
        }
    }

    /// How many n-grams a document has; a missing one has none.
    pub open spec fn gram_count(self, doc: Option<Seq<char>>) -> nat {
        match doc {
            None => 0,
            Some(t) => text_gram_count(
                self.analyzer,
                if self.lowercase {
                    words::lower_case(t)
                } else {
                    t
                },
                self.low,
                self.high,
            ),
        }
    }

    /// The n-grams of all documents of a column.
    pub open spec fn documents(self, cells: Seq<Option<Seq<char>>>) -> Seq<Seq<Seq<char>>> {
        Seq::new(cells.len(), |i: int| self.terms(cells[i]))
    }

    /// The documents of a frame.
    pub open spec fn documents_in(self, x: FrameView) -> Seq<Seq<Seq<char>>> {
        self.documents(encoder::text_cells(x, self.column->0))
    }

    /// Why no vocabulary can be learned from a frame.
    pub open spec fn fault(self, x: FrameView) -> Option<ErrorView> {
        let who = "CharacterNGramVectorizer"@;
        if x.columns.len() == 0 || x.height == 0 {
            Some(ErrorView::plain(Problem::EmptyFrame, who))
        } else {
            match vocabulary::column_fault(who, self.column, x) {
                Some(e) => Some(e),
                None => vocabulary::bounds_fault(
                    who,
                    self.low,
                    self.high,
                    self.min_df,
                    self.max_features,
                    self.max_df,
                ),
            }
        }
    }
}

/// What a vectorizer makes of a frame.
pub open spec fn char_outcome(
    settings: CharSettings,
    fitted: Option<Seq<(Seq<char>, nat)>>,
    x: FrameView,
) -> Result<SheetView, ErrorView> {
    let who = "CharacterNGramVectorizer"@;
    match fitted {
        None => Err(ErrorView::plain(Problem::NotFitted, who)),
        Some(entries) => match settings.column {
            None => Err(ErrorView::plain(Problem::NotFitted, who)),
            Some(name) => match encoder::text_fault(who, x)(name) {
                Some(e) => Err(e),
                None => Ok(
                    vocabulary::count_sheet(
                        count_vectorizer::entry_terms(entries),
                        x.height,
                        settings.documents_in(x),
                    ),
                ),
            },
        },
    }
}

/// How many n-grams words have that stand between spaces.
pub open spec fn word_gram_count(list: Seq<Seq<char>>, low: nat, high: nat) -> nat
    decreases list.len(),
{
    if list.len() == 0 {
        0
    } else {
        word_gram_count(list.drop_last(), low, high) + words::gram_count(
            list.last().len() + 2,
            low,
            high,
        )
    }
}

/// How many n-grams a text has: for each length from `low` to `high`, one for
/// each place where one can start, in the text with its runs of white space
/// made one, or in each of its words with a space on either side.
pub open spec fn text_gram_count(analyzer: Analyzer, t: Seq<char>, low: nat, high: nat) -> nat {
    match analyzer {
        Analyzer::CharOnly => words::gram_count(words::collapsed(t).len(), low, high),
        Analyzer::CharWb => word_gram_count(words::words(t), low, high),
    }
}

/// Words have as many n-grams as their lengths allow.
proof fn lemma_word_gram_count(list: Seq<Seq<char>>, low: nat, high: nat)
    ensures
        word_grams(list, low, high).len() == word_gram_count(list, low, high),
    decreases list.len(),
{
    if list.len() > 0 {
        lemma_word_gram_count(list.drop_last(), low, high);
        words::law_gram_count(padded(list.last()), low, high);
    }
}

/// A text has as many n-grams as its length allows.
pub proof fn law_text_gram_count(analyzer: Analyzer, t: Seq<char>, low: nat, high: nat)
    ensures
        text_grams(analyzer, t, low, high).len() == text_gram_count(analyzer, t, low, high),
{
    match analyzer {
        Analyzer::CharOnly => {
            words::law_gram_count(words::collapsed(t), low, high);
        },
        Analyzer::CharWb => {
            lemma_word_gram_count(words::words(t), low, high);
        },
    }
}

/// Every column is named by an n-gram of one of the lengths asked for, and no
/// two have the same name.
pub proof fn law_names_of_columns(
    settings: CharSettings,
    list: Seq<Candidate<int>>,
    planned: Seq<Term>,
    x: FrameView,
    values: Seq<Double>,
)
    requires
        vocabulary::resolved(list, planned) == vocabulary::candidates(
            settings.documents_in(x),
            Ceiling::Quotient(settings.max_df),
        ),
    ensures
        ({
            let terms = count_vectorizer::entry_terms(
                vocabulary::chosen(
                    vocabulary::vocabulary(list, settings.min_df, settings.max_features, values),
                ),
            );
            &&& tally::without_repeats(terms)
            &&& forall|k: int|
                0 <= k < terms.len() ==> settings.low <= (#[trigger] terms[k]).len()
                    <= settings.high
        }),
{
    let docs = settings.documents_in(x);
    let all = vocabulary::all_terms(docs);
    let v = vocabulary::vocabulary(list, settings.min_df, settings.max_features, values);
    let terms = count_vectorizer::entry_terms(vocabulary::chosen(v));
    assert(terms =~= vocabulary::term_list(v));
    vocabulary::lemma_planned_terms(list, planned, docs, Ceiling::Quotient(settings.max_df));
    tally::law_distinct(all);
    vocabulary::law_vocabulary_without_repeats(
        list,
        settings.min_df,
        settings.max_features,
        values,
    );
    assert forall|k: int| 0 <= k < terms.len() implies settings.low <= (#[trigger] terms[k]).len()
        <= settings.high by {
        assert(tally::distinct(all).contains(terms[k]));
        lemma_term_length(settings, docs, encoder::text_cells(x, settings.column->0), terms[k]);
    }
}

/// The n-grams of documents are as long as asked for.
proof fn lemma_term_length(
    settings: CharSettings,
    docs: Seq<Seq<Seq<char>>>,
    cells: Seq<Option<Seq<char>>>,
    term: Seq<char>,
)
    requires
        docs == settings.documents(cells),
        vocabulary::all_terms(docs).contains(term),
    ensures
        settings.low <= term.len() <= settings.high,
    decreases cells.len(),
{
    let front = docs.drop_last();
    let a = vocabulary::all_terms(front);
    let k = choose|k: int|
        0 <= k < vocabulary::all_terms(docs).len() && vocabulary::all_terms(docs)[k] == term;
    if k < a.len() {
        assert(a[k] == term);
        assert(front =~= settings.documents(cells.drop_last()));
        lemma_term_length(settings, front, cells.drop_last(), term);
    } else {
        let doc = docs.last();
        assert(doc[k - a.len()] == term);
        if let Some(t) = cells.last() {
            let seen = if settings.lowercase {
                words::lower_case(t)
            } else {
                t
            };
            law_text_grams_length(
                settings.analyzer,
                seen,
                settings.low,
                settings.high,
                k - a.len(),
            );
        }
    }
}

/// A row of a sheet of counts.
pub open spec fn count_row(sheet: SheetView, i: int) -> Seq<nat> {
    Seq::new(
        sheet.columns.len(),
        |k: int| ((sheet.columns[k].cells->Float64_0)[i]->0)->Natural_0,
    )
}

/// Where every n-gram of a frame is admitted and the vocabulary has no limit,
/// every row of the frame's counts adds up to the number of n-grams of its
/// document; that of a missing one is zero.
pub proof fn law_rows_add_up(
    settings: CharSettings,
    list: Seq<Candidate<int>>,
    planned: Seq<Term>,
    x: FrameView,
    values: Seq<Double>,
    i: int,
)
    requires
        settings.max_features is None,
        vocabulary::resolved(list, planned) == vocabulary::candidates(
            settings.documents_in(x),
            Ceiling::Quotient(settings.max_df),
        ),
        forall|k: int|
            0 <= k < list.len() ==> vocabulary::admitted(
                #[trigger] list[k],
                settings.min_df,
                values,
            ),
        0 <= i < settings.documents_in(x).len(),
    ensures
        ({
            let entries = vocabulary::chosen(
                vocabulary::vocabulary(list, settings.min_df, None, values),
            );
            let outcome = char_outcome(settings, Some(entries), x);
            let cell = encoder::text_cells(x, settings.column->0)[i];
            &&& forall|k: int|
                outcome is Ok && 0 <= k < entries.len() ==> {
                    let cells = (#[trigger] outcome->Ok_0.columns[k]).cells;
                    &&& cells is Float64
                    &&& (cells->Float64_0)[i] matches Some(Term::Natural(_))
                }
            &&& outcome is Ok ==> tally::total(count_row(outcome->Ok_0, i))
                == settings.gram_count(cell)
        }),
{
    let docs = settings.documents_in(x);
    let v = vocabulary::vocabulary(list, settings.min_df, None, values);
    let entries = vocabulary::chosen(v);
    let terms = count_vectorizer::entry_terms(entries);
    assert(terms =~= vocabulary::term_list(v));
    vocabulary::lemma_planned_terms(list, planned, docs, Ceiling::Quotient(settings.max_df));
    vocabulary::law_counts_add_up(list, docs, settings.min_df, values, i);
    let outcome = char_outcome(settings, Some(entries), x);
    if outcome is Ok {
        assert(count_row(outcome->Ok_0, i) =~= vocabulary::counts_of(terms, docs[i]));
    }
    if let Some(t) = encoder::text_cells(x, settings.column->0)[i] {
        law_text_gram_count(
            settings.analyzer,
            if settings.lowercase {
                words::lower_case(t)
            } else {
                t
            },
            settings.low,
            settings.high,
        );
    }
}

/// A vectorizer that takes every n-gram, fitted to a frame and applied to it:
/// the result has the rows of the frame and nothing but columns of whole
/// numbers, each named by an n-gram of one of the lengths asked for, no two
/// alike; and every row adds up to the number of n-grams of its document, which
/// for the whole text is the sum over the lengths `n` of the number of places
/// where a run of `n` characters can start. A missing document has none.
pub proof fn law_counts_of_a_frame(
    settings: CharSettings,
    list: Seq<Candidate<int>>,
    planned: Seq<Term>,
    x: FrameView,
    value: spec_fn(Double) -> real,
    number: spec_fn(real) -> Double,
)
    requires
        x.valid(),
        settings.fault(x) is None,
        settings.min_df == 1,
        settings.max_features is None,
        value(settings.max_df) == 1real,
        reals::rounds(number),
        vocabulary::resolved(list, planned) == vocabulary::candidates(
            settings.documents_in(x),
            Ceiling::Quotient(settings.max_df),
        ),
        vocabulary::within(list, planned.len()),
    ensures
        ({
            let values = reals::answered(planned, value, number);
            let entries = vocabulary::chosen(
                vocabulary::vocabulary(list, settings.min_df, settings.max_features, values),
            );
            let outcome = char_outcome(settings, Some(entries), x);
            let columns = outcome->Ok_0.columns;
            let cells = encoder::text_cells(x, settings.column->0);
            &&& outcome is Ok
            &&& columns.len() == entries.len() == list.len()
            &&& entries.len() > 0 ==> outcome->Ok_0.height == x.height
            &&& cells.len() == x.height
            &&& forall|k: int|
                0 <= k < columns.len() ==> {
                    let column = #[trigger] columns[k];
                    &&& column.name == entries[k].0
                    &&& settings.low <= column.name.len() <= settings.high
                    &&& column.cells is Float64
                    &&& (column.cells->Float64_0).len() == x.height
                }
            &&& forall|k: int, m: int|
                0 <= k < m < columns.len() ==> (#[trigger] columns[k]).name != (
                #[trigger] columns[m]).name
            &&& forall|k: int, i: int|
                0 <= k < columns.len() && 0 <= i < x.height ==> ((
                #[trigger] (columns[k].cells->Float64_0)[i]) matches Some(Term::Natural(_)))
            &&& forall|i: int|
                0 <= i < x.height ==> tally::total(#[trigger] count_row(outcome->Ok_0, i))
                    == settings.gram_count(cells[i])
        }),
{
    let values = reals::answered(planned, value, number);
    let docs = settings.documents_in(x);
    let ceiling = Ceiling::Quotient(settings.max_df);
    let v = vocabulary::vocabulary(list, settings.min_df, settings.max_features, values);
    let entries = vocabulary::chosen(v);
    let terms = count_vectorizer::entry_terms(entries);
    let outcome = char_outcome(settings, Some(entries), x);
    let columns = outcome->Ok_0.columns;
    let at = x.find(settings.column->0)->0;
    assert(x.holds(settings.column->0, at));
    assert(x.columns[at].values.len() == x.height);
    assert forall|k: int| 0 <= k < list.len() implies vocabulary::admitted(
        #[trigger] list[k],
        settings.min_df,
        values,
    ) by {
        vocabulary::law_all_admitted(
            list,
            planned,
            docs,
            ceiling,
            settings.min_df,
            value,
            number,
            k,
        );
    }
    vocabulary::lemma_all_survive(list, settings.min_df, values);
    law_names_of_columns(settings, list, planned, x, values);
    assert forall|k: int| 0 <= k < columns.len() implies (#[trigger] columns[k]).name == terms[k]
        by {}
    assert forall|k: int, m: int| 0 <= k < m < columns.len() implies (#[trigger] columns[k]).name
        != (#[trigger] columns[m]).name by {
        assert(terms[k] != terms[m]);
    }
    assert forall|i: int| 0 <= i < x.height implies tally::total(
        #[trigger] count_row(outcome->Ok_0, i),
    ) == settings.gram_count(encoder::text_cells(x, settings.column->0)[i]) by {
        law_rows_add_up(settings, list, planned, x, values, i);
    }
}

/// Turns a text column into counts of character n-grams.
///
/// A fit has two steps: [`fit`](CharacterNGramVectorizer::fit) lists the
/// n-grams and says what is to be computed, and
/// [`finish_fit`](CharacterNGramVectorizer::finish_fit) takes the results.
pub struct CharacterNGramVectorizer {
    column: Option<Text>,
    analyzer: Analyzer,
    low: usize,
    high: usize,
    max_features: Option<usize>,
    min_df: usize,
    max_df: Double,
    lowercase: bool,
    learned: Option<(Vec<Text>, Vec<u64>)>,
}

impl CharacterNGramVectorizer {
    #[verifier::type_invariant]
    spec fn well_formed(self) -> bool {
        self.learned matches Some(l) ==> l.0.len() == l.1.len() && self.low >= 1
    }

    /// The settings.
    pub closed spec fn settings(self) -> CharSettings {
        CharSettings {
            column: match self.column {
                Some(name) => Some(name@),
                None => None,
            },
            analyzer: self.analyzer,
            low: self.low as nat,
            high: self.high as nat,
            max_features: self.max_features,
            min_df: self.min_df as nat,
            max_df: self.max_df,
            lowercase: self.lowercase,
        }
    }

    /// The vocabulary, and in how many documents each of its terms occurs; none
    /// before a fit is finished, or after a setting was changed.
    pub closed spec fn fitted(self) -> Option<Seq<(Seq<char>, nat)>> {
        match self.learned {
            Some(l) => Some(vocabulary::entries(l.0@, l.1@)),
            None => None,
        }
    }

    /// A vectorizer of n-grams of two to four characters.
    pub fn new() -> (r: CharacterNGramVectorizer)
        ensures
            r.fitted() is None,
            r.settings() == CharSettings::initial(),
    {
        CharacterNGramVectorizer {
            column: None,
            analyzer: Analyzer::CharOnly,
            low: 2,
            high: 4,
            max_features: None,
            min_df: 1,
            max_df: Double::one(),
            lowercase: true,
            learned: None,
        }
    }

    /// Sets the column to vectorize.
    pub fn column(self, c: &str) -> (r: CharacterNGramVectorizer)
        ensures
            r.fitted() is None,
            r.settings() == (CharSettings { column: Some(c@), ..self.settings() }),
    {
        CharacterNGramVectorizer { column: Some(Text::of(c)), learned: None, ..self }
    }

    /// Sets the analyzer.
    pub fn analyzer(self, a: Analyzer) -> (r: CharacterNGramVectorizer)
        ensures
            r.fitted() is None,
            r.settings() == (CharSettings { analyzer: a, ..self.settings() }),
    {
        CharacterNGramVectorizer { analyzer: a, learned: None, ..self }
    }

    /// Sets the least and the greatest length of an n-gram.
    pub fn ngram_range(self, lo: usize, hi: usize) -> (r: CharacterNGramVectorizer)
        ensures
            r.fitted() is None,
            r.settings() == (CharSettings { low: lo as nat, high: hi as nat, ..self.settings() }),
    {
        CharacterNGramVectorizer { low: lo, high: hi, learned: None, ..self }
    }

    /// Sets the greatest number of terms.
    pub fn max_features(self, n: usize) -> (r: CharacterNGramVectorizer)
        ensures
            r.fitted() is None,
            r.settings() == (CharSettings { max_features: Some(n), ..self.settings() }),
    {
        CharacterNGramVectorizer { max_features: Some(n), learned: None, ..self }
    }

    /// Sets the least number of documents with a term.
    pub fn min_df(self, n: usize) -> (r: CharacterNGramVectorizer)
        ensures
            r.fitted() is None,
            r.settings() == (CharSettings { min_df: n as nat, ..self.settings() }),
    {
        CharacterNGramVectorizer { min_df: n, learned: None, ..self }
    }

    /// Sets the greatest share of documents with a term.
    pub fn max_df(self, p: Double) -> (r: CharacterNGramVectorizer)
        ensures
            r.fitted() is None,
            r.settings() == (CharSettings { max_df: p, ..self.settings() }),
    {
        CharacterNGramVectorizer { max_df: p, learned: None, ..self }
    }

    /// Sets whether documents are put in lower case.
    pub fn lowercase(self, b: bool) -> (r: CharacterNGramVectorizer)
        ensures
            r.fitted() is None,
            r.settings() == (CharSettings { lowercase: b, ..self.settings() }),
    {
        CharacterNGramVectorizer { lowercase: b, learned: None, ..self }
    }

    /// The n-grams of a document.
    fn document_terms(&self, doc: &Option<Text>) -> (r: Vec<Text>)
        requires
            self.low >= 1,
        ensures
            text::views(r@) == self.settings().terms(
                match doc {
                    Some(t) => Some(t@),
                    None => None,
                },
            ),
    {
        match doc {
            None => {
                let r: Vec<Text> = Vec::new();
                assert(text::views(r@) =~= Seq::<Seq<char>>::empty());
                r
            },
            Some(t) => if self.lowercase {
                ngrams_in_text(
                    &words::to_lower_case(t),
                    self.analyzer,
                    self.low,
                    self.high,
                )
            } else {
                ngrams_in_text(t, self.analyzer, self.low, self.high)
            },
        }
    }

    /// Lists the n-grams of the documents, and says what is to be computed. The
    /// vectorizer is unfitted until the fit is finished.
    pub fn fit(&mut self, x: &Frame) -> (r: Result<VocabularyPlan, Error>)
        ensures
            final(self).settings() == old(self).settings(),
            final(self).fitted() is None,
            match old(self).settings().fault(x@) {
                Some(e) => r is Err && r->Err_0@ == e,
                None => {
                    &&& r is Ok
                    &&& vocabulary::resolved(r->Ok_0.shape(), r->Ok_0.terms())
                        == vocabulary::candidates(
                        old(self).settings().documents_in(x@),
                        Ceiling::Quotient(old(self).settings().max_df),
                    )
                    &&& vocabulary::within(r->Ok_0.shape(), r->Ok_0.terms().len())
                    &&& tally::ascending(vocabulary::term_list(r->Ok_0.shape()))
                },
            },
    {
        self.learned = None;
        if x.width() == 0 || x.height() == 0 {
            return Err(Error::plain(Problem::EmptyFrame, "CharacterNGramVectorizer"));
        }
        let name = match &self.column {
            Some(name) => name,
            None => {
                return Err(
                    Error::plain(Problem::NoColumnConfigured, "CharacterNGramVectorizer"),
                );
            },
        };
        let cells = match encoder::find_text("CharacterNGramVectorizer", x, name) {
            Ok(cells) => cells,
            Err(e) => {
                return Err(e);
            },
        };
        match vocabulary::check_bounds(
            "CharacterNGramVectorizer",
            self.low,
            self.high,
            self.min_df,
            self.max_features,
            self.max_df,
        ) {
            Ok(_) => {},
            Err(e) => {
                return Err(e);
            },
        }
        let ghost all = self.settings().documents(frame::gap_views(cells@));
        let mut ledger: Ledger = Ledger::new();
        let mut i: usize = 0;
        assert(all.take(0) =~= Seq::<Seq<Seq<char>>>::empty());
        while i < cells.len()
            invariant
                i <= cells.len() <= frame::MOST_ROWS,
                self.low >= 1,
                all == self.settings().documents(frame::gap_views(cells@)),
                ledger.well_formed(),
                ledger.docs() == all.take(i as int),
            decreases cells.len() - i,
        {
            let terms: Vec<Text> = self.document_terms(&cells[i]);
            assert(text::views(terms@) == all[i as int]);
            ledger.add(&terms);
            i += 1;
            assert(all.take(i as int) =~= all.take(i - 1).push(all[i - 1]));
        }
        assert(all.take(i as int) =~= all);
        Ok(ledger.plan(Ceiling::Quotient(self.max_df)))
    }

    /// Finishes a fit with the results of the plan's program, one for each of
    /// its operations.
    pub fn finish_fit(&mut self, plan: &VocabularyPlan, values: &Vec<Double>)
        requires
            old(self).settings().low >= 1,
            values.len() == plan.terms().len(),
        ensures
            final(self).settings() == old(self).settings(),
            final(self).fitted() == Some(
                vocabulary::chosen(
                    vocabulary::vocabulary(
                        plan.shape(),
                        old(self).settings().min_df,
                        old(self).settings().max_features,
                        values@,
                    ),
                ),
            ),
    {
        let learned: (Vec<Text>, Vec<u64>) = vocabulary::choose_terms(
            plan,
            self.min_df,
            self.max_features,
            values,
        );
        self.learned = Some(learned);
    }

    /// Counts the terms of the vocabulary in each document.
    pub fn transform(&self, x: &Frame) -> (r: Result<Sheet, Error>)
        ensures
            frame::outcome(r) == char_outcome(self.settings(), self.fitted(), x@),
    {
        proof {
            use_type_invariant(self);
        }
        let terms = match &self.learned {
            Some(l) => &l.0,
            None => {
                return Err(Error::plain(Problem::NotFitted, "CharacterNGramVectorizer"));
            },
        };
        let ghost list = text::views(terms@);
        assert(list =~= count_vectorizer::entry_terms(self.fitted()->0));
        let name = match &self.column {
            Some(name) => name,
            None => {
                return Err(Error::plain(Problem::NotFitted, "CharacterNGramVectorizer"));
            },
        };
        let cells = match encoder::find_text("CharacterNGramVectorizer", x, name) {
            Ok(cells) => cells,
            Err(e) => {
                return Err(e);
            },
        };
        if terms.len() == 0 {
            let columns: Vec<SheetColumn> = Vec::new();
            let r: Sheet = Sheet { height: 0, columns, program: Program::new() };
            assert(r@.columns =~= Seq::empty());
            return Ok(r);
        }
        let ghost all = self.settings().documents(frame::gap_views(cells@));
        let mut rows: Vec<Vec<u64>> = Vec::new();
        let mut i: usize = 0;
        while i < cells.len()
            invariant
                i <= cells.len(),
                self.low >= 1,
                all == self.settings().documents(frame::gap_views(cells@)),
                list == text::views(terms@),
                rows.len() == i,
                forall|m: int| 0 <= m < i ==> (#[trigger] rows@[m]).len() == list.len(),
                forall|m: int, k: int|
                    0 <= m < i && 0 <= k < list.len() ==> #[trigger] rows@[m]@[k]
                        == tally::occurrences(all[m], list[k]),
            decreases cells.len() - i,
        {
            let own: Vec<Text> = self.document_terms(&cells[i]);
            assert(text::views(own@) == all[i as int]);
            let counts: Vec<u64> = vocabulary::count_terms(terms, &own);
            rows.push(counts);
            i += 1;
        }
        let columns: Vec<SheetColumn> = vocabulary::make_count_columns(terms, &rows, Ghost(all));
        Ok(Sheet { height: x.height(), columns, program: Program::new() })
    }
}

/// The n-grams of a text.
pub fn ngrams_in_text(t: &Text, analyzer: Analyzer, low: usize, high: usize) -> (r: Vec<
    Text,
>)
    requires
        low >= 1,
    ensures
        text::views(r@) == text_grams(analyzer, t@, low as nat, high as nat),
{
    match analyzer {
        Analyzer::CharOnly => {
            let flat: Text = words::collapse_whitespace_runs(t);
            words::char_grams(&flat.chars, low, high)
        },
        Analyzer::CharWb => {
            let list: Vec<Text> = words::split_words(t);
            let ghost all = text::views(list@);
            let mut r: Vec<Text> = Vec::new();
            let mut i: usize = 0;
            assert(all.take(0) =~= Seq::<Seq<char>>::empty());
            assert(text::views(r@) =~= Seq::<Seq<char>>::empty());
            while i < list.len()
                invariant
                    i <= list.len(),
                    low >= 1,
                    all == text::views(list@),
                    text::views(r@) == word_grams(all.take(i as int), low as nat, high as nat),
                decreases list.len() - i,
            {
                let ghost before = text::views(r@);
                assert(all.take(i + 1).drop_last() =~= all.take(i as int));
                let mut wide: Text = Text::new();
                wide.chars.push(' ');
                wide.append(&list[i]);
                wide.chars.push(' ');
                assert(wide@ =~= padded(all[i as int]));
                let mut own: Vec<Text> = words::char_grams(&wide.chars, low, high);
                let ghost more = text::views(own@);
                r.append(&mut own);
                assert(text::views(r@) =~= before + more);
                i += 1;
            }
            assert(all.take(i as int) =~= all);
            r
        },
    }
}

impl Default for CharacterNGramVectorizer {
    fn default() -> (r: CharacterNGramVectorizer)
        ensures
            r.fitted() is None,
            r.settings() == CharSettings::initial(),
    {
        CharacterNGramVectorizer::new()
    }
}

} // verus!
