//! Bag-of-words vectorization.
//!
//! Each row of a text column is a document, and each document is turned into
//! terms: its tokens, and runs of adjacent tokens. A vocabulary is learned from
//! the terms of all documents, and each of its terms becomes a column that
//! counts it.

use crate::double::Double;
use crate::error::Error;
use crate::error::ErrorView;
use crate::error::Problem;
use crate::frame;
use crate::frame::Frame;
use crate::frame::FrameView;
use crate::frame::Sheet;
use crate::frame::SheetColumn;
use crate::frame::SheetView;
use crate::preprocessing::encoder;
use crate::preprocessing::text::vocabulary;
use crate::preprocessing::text::vocabulary::Ceiling;
use crate::preprocessing::text::vocabulary::Ledger;
use crate::preprocessing::text::vocabulary::VocabularyPlan;
use crate::preprocessing::text::words;
use crate::program::Program;
use crate::tally;
use crate::text;
use crate::text::Text;
use vstd::prelude::*;

verus! {

/// How a document is turned into tokens.
#[derive(Clone, Debug, PartialEq, Eq)]
pub enum Tokenizer {
    /// The words between white space.
    Whitespace,
    /// The matches of a regular expression that are not empty.
    WordRegex(Text),
}

/// The view of a [`Tokenizer`].
#[verifier::ext_equal]
pub enum TokenizerView {
    Whitespace,
    WordRegex(Seq<char>),
}

impl View for Tokenizer {
    type V = TokenizerView;

    open spec fn view(&self) -> TokenizerView {
        match self {
            Tokenizer::Whitespace => TokenizerView::Whitespace,
            Tokenizer::WordRegex(p) => TokenizerView::WordRegex(p@),
        }
    }
}

impl Default for Tokenizer {
    fn default() -> (r: Tokenizer)
        ensures
            r@ == TokenizerView::Whitespace,
    {
        Tokenizer::Whitespace
    }
}

impl Tokenizer {
    /// A tokenizer that does the same.
    pub fn duplicate(&self) -> (r: Tokenizer)
        ensures
            r@ == self@,
    {
        match self {
            Tokenizer::Whitespace => Tokenizer::Whitespace,
            Tokenizer::WordRegex(p) => Tokenizer::WordRegex(p.duplicate()),
        }
    }

    /// Whether the pattern, if there is one, is a regular expression.
    pub fn is_usable(&self) -> (r: bool)
        ensures
            r == usable(self@),
    {
        match self {
            Tokenizer::Whitespace => true,
            Tokenizer::WordRegex(p) => words::check_pattern(p),
        }
    }
}

/// Whether the pattern of a tokenizer, if there is one, is a regular
/// expression.
pub open spec fn usable(tokenizer: TokenizerView) -> bool {
    tokenizer matches TokenizerView::WordRegex(p) ==> words::is_pattern(p)
}

/// The pattern of a tokenizer.
pub open spec fn pattern_of(tokenizer: TokenizerView) -> Seq<char> {
    match tokenizer {
        TokenizerView::Whitespace => Seq::empty(),
        TokenizerView::WordRegex(p) => p,
    }
}

/// The settings of a vectorizer.
#[verifier::ext_equal]
pub struct CountSettings {
    /// The column to vectorize.
    pub column: Option<Seq<char>>,
    pub tokenizer: TokenizerView,
    /// The least number of tokens of a term.
    pub low: nat,
    /// The greatest number of tokens of a term.
    pub high: nat,
    /// The greatest number of terms.
    pub max_features: Option<usize>,
    /// The least number of documents with a term.
    pub min_df: nat,
    /// The greatest share of documents with a term.
    pub max_df: Double,
    /// Tokens that are left out.
    pub stop_words: Seq<Seq<char>>,
    /// Whether documents are put in lower case.
    pub lowercase: bool,
}

impl CountSettings {
    /// The settings to begin with.
    pub open spec fn initial() -> CountSettings {
        CountSettings {
            column: None,
            tokenizer: TokenizerView::Whitespace,
            low: 1,
            high: 1,
            max_features: None,
            min_df: 1,
            max_df: Double { bits: crate::double::ONE },
            stop_words: Seq::empty(),
            lowercase: true,
        }
    }

    /// The terms of a document, where `found` are the matches of the pattern
    /// in it.
    pub open spec fn terms_found(self, prepared: Seq<char>, found: Seq<Seq<char>>) -> Seq<
        Seq<char>,
    > {
        let tokens = match self.tokenizer {
            TokenizerView::Whitespace => words::words(prepared),
            TokenizerView::WordRegex(_) => found,
        };
        words::token_terms(words::kept_tokens(tokens, self.stop_words), self.low, self.high)
    }

    /// A document as it is before it is turned into tokens.
    pub open spec fn prepared(self, doc: Seq<char>) -> Seq<char> {
        if self.lowercase {
            words::lower_case(doc)
        } else {
            doc
        }
    }

    /// The terms of a document; a missing one has none.
    pub open spec fn terms(self, doc: Option<Seq<char>>) -> Seq<Seq<char>> {
        match doc {
            None => Seq::empty(),
            Some(t) => {
                let ready = self.prepared(t);
                self.terms_found(
                    ready,
                    words::pattern_matches(pattern_of(self.tokenizer), ready),
                )
            },
        }
    }

    /// The terms of all documents of a column.
    pub open spec fn documents(self, cells: Seq<Option<Seq<char>>>) -> Seq<Seq<Seq<char>>> {
        Seq::new(cells.len(), |i: int| self.terms(cells[i]))
    }

    /// Why no vocabulary can be learned from a frame.
    pub open spec fn fault(self, who: Seq<char>, x: FrameView) -> Option<ErrorView> {
        if x.columns.len() == 0 || x.height == 0 {
            Some(ErrorView::plain(Problem::EmptyFrame, who))
        } else {
            match vocabulary::column_fault(who, self.column, x) {
                Some(e) => Some(e),
                None => match vocabulary::bounds_fault(
                    who,
                    self.low,
                    self.high,
                    self.min_df,
                    self.max_features,
                    self.max_df,
                ) {
                    Some(e) => Some(e),
                    None => if !usable(self.tokenizer) {
                        Some(
                            ErrorView::about(
                                Problem::InvalidPattern,
                                who,
                                pattern_of(self.tokenizer),
                            ),
                        )
                    } else {
                        None
                    },
                },
            }
        }
    }

    /// The documents of a frame.
    pub open spec fn documents_in(self, x: FrameView) -> Seq<Seq<Seq<char>>> {
        self.documents(encoder::text_cells(x, self.column->0))
    }

    /// Why the terms of a vocabulary cannot be counted in a frame.
    pub open spec fn count_fault(self, who: Seq<char>, terms: Seq<Seq<char>>, x: FrameView) -> Option<
        ErrorView,
    > {
        match self.column {
            None => Some(ErrorView::plain(Problem::NotFitted, who)),
            Some(name) => match encoder::text_fault(who, x)(name) {
                Some(e) => Some(e),
                None => if terms.len() > 0 && !usable(self.tokenizer) {
                    Some(
                        ErrorView::about(
                            Problem::InvalidPattern,
                            who,
                            pattern_of(self.tokenizer),
                        ),
                    )
                } else {
                    None
                },
            },
        }
    }
}

/// The terms of a vocabulary, from its entries.
pub open spec fn entry_terms(entries: Seq<(Seq<char>, nat)>) -> Seq<Seq<char>> {
    Seq::new(entries.len(), |k: int| entries[k].0)
}

/// What a vectorizer makes of a frame.
pub open spec fn count_outcome(
    settings: CountSettings,
    fitted: Option<Seq<(Seq<char>, nat)>>,
    x: FrameView,
) -> Result<SheetView, ErrorView> {
    match fitted {
        None => Err(ErrorView::plain(Problem::NotFitted, "CountVectorizer"@)),
        Some(entries) => {
            let terms = entry_terms(entries);
            match settings.count_fault("CountVectorizer"@, terms, x) {
                Some(e) => Err(e),
                None => Ok(
                    vocabulary::count_sheet(terms, x.height, settings.documents_in(x)),
                ),
            }
        },
    }
}

/// Turns a text column into counts of terms.
///
/// A fit has two steps: [`fit`](CountVectorizer::fit) lists the terms and says
/// what is to be computed, and [`finish_fit`](CountVectorizer::finish_fit)
/// takes the results.
pub struct CountVectorizer {
    column: Option<Text>,
    tokenizer: Tokenizer,
    low: usize,
    high: usize,
    max_features: Option<usize>,
    min_df: usize,
    max_df: Double,
    stop_words: Vec<Text>,
    lowercase: bool,
    learned: Option<(Vec<Text>, Vec<u64>)>,
}

impl CountVectorizer {
    #[verifier::type_invariant]
    spec fn well_formed(self) -> bool {
        self.learned matches Some(l) ==> l.0.len() == l.1.len() && self.low >= 1
    }

    /// The settings.
    pub closed spec fn settings(self) -> CountSettings {
        CountSettings {
            column: match self.column {
                Some(name) => Some(name@),
                None => None,
            },
            tokenizer: self.tokenizer@,
            low: self.low as nat,
            high: self.high as nat,
            max_features: self.max_features,
            min_df: self.min_df as nat,
            max_df: self.max_df,
            stop_words: text::views(self.stop_words@),
            lowercase: self.lowercase,
        }
    }

    /// The vocabulary, and in how many documents each of its terms occurs; none
    /// before a fit is finished, or after a setting was changed.
    pub closed spec fn fitted(self) -> Option<Seq<(Seq<char>, nat)>> {
        match self.learned {
            Some(l) => Some(vocabulary::entries(l.0@, l.1@)),
            None => None,
        }
    }

    /// A vectorizer of words.
    pub fn new() -> (r: CountVectorizer)
        ensures
            r.fitted() is None,
            r.settings() == CountSettings::initial(),
    {
        let r: CountVectorizer = CountVectorizer {
            column: None,
            tokenizer: Tokenizer::Whitespace,
            low: 1,
            high: 1,
            max_features: None,
            min_df: 1,
            max_df: Double::one(),
            stop_words: Vec::new(),
            lowercase: true,
            learned: None,
        };
        assert(text::views(r.stop_words@) =~= Seq::<Seq<char>>::empty());
        r
    }

    /// Sets the column to vectorize.
    pub fn column(self, c: &str) -> (r: CountVectorizer)
        ensures
            r.fitted() is None,
            r.settings() == (CountSettings { column: Some(c@), ..self.settings() }),
    {
        CountVectorizer { column: Some(Text::of(c)), learned: None, ..self }
    }

    /// Sets the tokenizer.
    pub fn tokenizer(self, t: Tokenizer) -> (r: CountVectorizer)
        ensures
            r.fitted() is None,
            r.settings() == (CountSettings { tokenizer: t@, ..self.settings() }),
    {
        CountVectorizer { tokenizer: t, learned: None, ..self }
    }

    /// Sets the least and the greatest number of tokens of a term.
    pub fn ngram_range(self, lo: usize, hi: usize) -> (r: CountVectorizer)
        ensures
            r.fitted() is None,
            r.settings() == (CountSettings {
                low: lo as nat,
                high: hi as nat,
                ..self.settings()
            }),
    {
        CountVectorizer { low: lo, high: hi, learned: None, ..self }
    }

    /// Sets the greatest number of terms.
    pub fn max_features(self, n: usize) -> (r: CountVectorizer)
        ensures
            r.fitted() is None,
            r.settings() == (CountSettings { max_features: Some(n), ..self.settings() }),
    {
        CountVectorizer { max_features: Some(n), learned: None, ..self }
    }

    /// Sets the least number of documents with a term.
    pub fn min_df(self, n: usize) -> (r: CountVectorizer)
        ensures
            r.fitted() is None,
            r.settings() == (CountSettings { min_df: n as nat, ..self.settings() }),
    {
        CountVectorizer { min_df: n, learned: None, ..self }
    }

    /// Sets the greatest share of documents with a term.
    pub fn max_df(self, p: Double) -> (r: CountVectorizer)
        ensures
            r.fitted() is None,
            r.settings() == (CountSettings { max_df: p, ..self.settings() }),
    {
        CountVectorizer { max_df: p, learned: None, ..self }
    }

    /// Sets the tokens that are left out.
    pub fn stop_words(self, words: Vec<Text>) -> (r: CountVectorizer)
        ensures
            r.fitted() is None,
            r.settings() == (CountSettings {
                stop_words: text::views(words@),
                ..self.settings()
            }),
    {
        CountVectorizer { stop_words: words, learned: None, ..self }
    }

    /// Sets whether documents are put in lower case.
    pub fn lowercase(self, b: bool) -> (r: CountVectorizer)
        ensures
            r.fitted() is None,
            r.settings() == (CountSettings { lowercase: b, ..self.settings() }),
    {
        CountVectorizer { lowercase: b, learned: None, ..self }
    }

    /// Discards the vocabulary.
    pub fn reset(&mut self)
        ensures
            final(self).fitted() is None,
            final(self).settings() == old(self).settings(),
    {
        self.learned = None;
    }

    /// The terms of a document.
    fn document_terms(&self, doc: &Option<Text>) -> (r: Vec<Text>)
        requires
            self.low >= 1,
            usable(self.tokenizer@),
        ensures
            text::views(r@) == self.settings().terms(
                match doc {
                    Some(t) => Some(t@),
                    None => None,
                },
            ),
    {
        match doc {
            None => {
                let r: Vec<Text> = Vec::new();
                assert(text::views(r@) =~= Seq::<Seq<char>>::empty());
                r
            },
            Some(t) => {
                let ready: Text = if self.lowercase {
                    words::to_lower_case(t)
                } else {
                    t.duplicate()
                };
                let found: Vec<Text> = match &self.tokenizer {
                    Tokenizer::Whitespace => Vec::new(),
                    Tokenizer::WordRegex(p) => words::find_matches(p, &ready),
                };
                self.terms_from(&ready, found)
            },
        }
    }

    /// The terms of a document that is ready to be turned into tokens, where
    /// `found` are the matches of the pattern in it.
    pub fn terms_from(&self, ready: &Text, found: Vec<Text>) -> (r: Vec<Text>)
        requires
            self.settings().low >= 1,
        ensures
            text::views(r@) == self.settings().terms_found(ready@, text::views(found@)),
    {
        let tokens: Vec<Text> = match &self.tokenizer {
            Tokenizer::Whitespace => words::split_words(ready),
            Tokenizer::WordRegex(_) => found,
        };
        let kept: Vec<Text> = words::keep_tokens(tokens, &self.stop_words);
        words::make_terms(&kept, self.low, self.high)
    }

    /// Lists the terms of the documents, under the name of `who`.
    pub fn plan_as(&self, who: &str, x: &Frame) -> (r: Result<VocabularyPlan, Error>)
        ensures
            match self.settings().fault(who@, x@) {
                Some(e) => r is Err && r->Err_0@ == e,
                None => {
                    &&& r is Ok
                    &&& vocabulary::resolved(r->Ok_0.shape(), r->Ok_0.terms())
                        == vocabulary::candidates(
                        self.settings().documents_in(x@),
                        Ceiling::Product(self.settings().max_df),
                    )
                    &&& vocabulary::within(r->Ok_0.shape(), r->Ok_0.terms().len())
                    &&& tally::ascending(vocabulary::term_list(r->Ok_0.shape()))
                },
            },
    {
        if x.width() == 0 || x.height() == 0 {
            return Err(Error::plain(Problem::EmptyFrame, who));
        }
        let name = match &self.column {
            Some(name) => name,
            None => {
                return Err(Error::plain(Problem::NoColumnConfigured, who));
            },
        };
        let cells = match encoder::find_text(who, x, name) {
            Ok(cells) => cells,
            Err(e) => {
                return Err(e);
            },
        };
        match vocabulary::check_bounds(
            who,
            self.low,
            self.high,
            self.min_df,
            self.max_features,
            self.max_df,
        ) {
            Ok(_) => {},
            Err(e) => {
                return Err(e);
            },
        }
        match &self.tokenizer {
            Tokenizer::Whitespace => {},
            Tokenizer::WordRegex(p) => {
                if !words::check_pattern(p) {
                    return Err(Error::about(Problem::InvalidPattern, who, p));
                }
            },
        }
        let ghost all = self.settings().documents(frame::gap_views(cells@));
        let mut ledger: Ledger = Ledger::new();
        let mut i: usize = 0;
        assert(all.take(0) =~= Seq::<Seq<Seq<char>>>::empty());
        while i < cells.len()
            invariant
                i <= cells.len() <= frame::MOST_ROWS,
                self.low >= 1,
                usable(self.tokenizer@),
                all == self.settings().documents(frame::gap_views(cells@)),
                ledger.well_formed(),
                ledger.docs() == all.take(i as int),
            decreases cells.len() - i,
        {
            let terms: Vec<Text> = self.document_terms(&cells[i]);
            assert(text::views(terms@) == all[i as int]);
            ledger.add(&terms);
            i += 1;
            assert(all.take(i as int) =~= all.take(i - 1).push(all[i - 1]));
        }
        assert(all.take(i as int) =~= all);
        Ok(ledger.plan(Ceiling::Product(self.max_df)))
    }

    /// Lists the terms of the documents, and says what is to be computed. The
    /// vectorizer is unfitted until the fit is finished.
    pub fn fit(&mut self, x: &Frame) -> (r: Result<VocabularyPlan, Error>)
        ensures
            final(self).settings() == old(self).settings(),
            final(self).fitted() is None,
            match old(self).settings().fault("CountVectorizer"@, x@) {
                Some(e) => r is Err && r->Err_0@ == e,
                None => {
                    &&& r is Ok
                    &&& vocabulary::resolved(r->Ok_0.shape(), r->Ok_0.terms())
                        == vocabulary::candidates(
                        old(self).settings().documents_in(x@),
                        Ceiling::Product(old(self).settings().max_df),
                    )
                    &&& vocabulary::within(r->Ok_0.shape(), r->Ok_0.terms().len())
                    &&& tally::ascending(vocabulary::term_list(r->Ok_0.shape()))
                },
            },
    {
        self.reset();
        self.plan_as("CountVectorizer", x)
    }

    /// Finishes a fit with the results of the plan's program, one for each of
    /// its operations.
    pub fn finish_fit(&mut self, plan: &VocabularyPlan, values: &Vec<Double>)
        requires
            old(self).settings().low >= 1,
            values.len() == plan.terms().len(),
        ensures
            final(self).settings() == old(self).settings(),
            final(self).fitted() == Some(
                vocabulary::chosen(
                    vocabulary::vocabulary(
                        plan.shape(),
                        old(self).settings().min_df,
                        old(self).settings().max_features,
                        values@,
                    ),
                ),
            ),
    {
        let learned: (Vec<Text>, Vec<u64>) = vocabulary::choose_terms(
            plan,
            self.min_df,
            self.max_features,
            values,
        );
        self.learned = Some(learned);
    }

    /// In how many documents each term of the vocabulary occurs.
    pub fn document_frequencies(&self) -> (r: Option<&Vec<u64>>)
        ensures
            match r {
                Some(list) => {
                    &&& self.fitted() is Some
                    &&& self.settings().low >= 1
                    &&& list.len() == self.fitted()->0.len()
                    &&& forall|k: int|
                        0 <= k < list.len() ==> #[trigger] list@[k] == self.fitted()->0[k].1
                },
                None => self.fitted() is None,
            },
    {
        proof {
            use_type_invariant(self);
        }
        match &self.learned {
            Some(l) => Some(&l.1),
            None => None,
        }
    }

    /// The vocabulary, in the order of its columns.
    pub fn vocabulary(&self) -> (r: Option<&Vec<Text>>)
        ensures
            match r {
                Some(list) => self.fitted() is Some && text::views(list@) == entry_terms(
                    self.fitted()->0,
                ),
                None => self.fitted() is None,
            },
    {
        match &self.learned {
            Some(l) => {
                assert(text::views(l.0@) =~= entry_terms(self.fitted()->0));
                Some(&l.0)
            },
            None => None,
        }
    }

    /// The counts of given terms in the documents of a frame, row by row, under
    /// the name of `who`; no rows where there are no terms.
    pub fn count_as(&self, who: &str, terms: &Vec<Text>, x: &Frame) -> (r: Result<
        Vec<Vec<u64>>,
        Error,
    >)
        requires
            self.settings().low >= 1,
        ensures
            match self.settings().count_fault(who@, text::views(terms@), x@) {
                Some(e) => r is Err && r->Err_0@ == e,
                None => {
                    &&& r is Ok
                    &&& terms.len() == 0 ==> r->Ok_0.len() == 0
                    &&& terms.len() > 0 ==> vocabulary::counted(
                        r->Ok_0@,
                        text::views(terms@),
                        self.settings().documents_in(x@),
                    )
                },
            },
            x@.valid(),
    {
        let _height: usize = x.height();
        let name = match &self.column {
            Some(name) => name,
            None => {
                return Err(Error::plain(Problem::NotFitted, who));
            },
        };
        let cells = match encoder::find_text(who, x, name) {
            Ok(cells) => cells,
            Err(e) => {
                return Err(e);
            },
        };
        let mut rows: Vec<Vec<u64>> = Vec::new();
        if terms.len() == 0 {
            return Ok(rows);
        }
        match &self.tokenizer {
            Tokenizer::Whitespace => {},
            Tokenizer::WordRegex(p) => {
                if !words::check_pattern(p) {
                    return Err(Error::about(Problem::InvalidPattern, who, p));
                }
            },
        }
        let ghost all = self.settings().documents(frame::gap_views(cells@));
        let ghost list = text::views(terms@);
        let mut i: usize = 0;
        while i < cells.len()
            invariant
                i <= cells.len(),
                self.low >= 1,
                usable(self.tokenizer@),
                all == self.settings().documents(frame::gap_views(cells@)),
                list == text::views(terms@),
                rows.len() == i,
                forall|m: int| 0 <= m < i ==> (#[trigger] rows@[m]).len() == list.len(),
                forall|m: int, k: int|
                    0 <= m < i && 0 <= k < list.len() ==> #[trigger] rows@[m]@[k]
                        == tally::occurrences(all[m], list[k]),
            decreases cells.len() - i,
        {
            let own: Vec<Text> = self.document_terms(&cells[i]);
            assert(text::views(own@) == all[i as int]);
            let counts: Vec<u64> = vocabulary::count_terms(terms, &own);
            rows.push(counts);
            i += 1;
        }
        Ok(rows)
    }

    /// Counts the terms of the vocabulary in each document.
    pub fn transform(&self, x: &Frame) -> (r: Result<Sheet, Error>)
        ensures
            frame::outcome(r) == count_outcome(self.settings(), self.fitted(), x@),
    {
        proof {
            use_type_invariant(self);
        }
        let terms = match self.vocabulary() {
            Some(terms) => terms,
            None => {
                return Err(Error::plain(Problem::NotFitted, "CountVectorizer"));
            },
        };
        let rows: Vec<Vec<u64>> = match self.count_as("CountVectorizer", terms, x) {
            Ok(rows) => rows,
            Err(e) => {
                return Err(e);
            },
        };
        if terms.len() == 0 {
            let columns: Vec<SheetColumn> = Vec::new();
            let r: Sheet = Sheet { height: 0, columns, program: Program::new() };
            assert(r@.columns =~= Seq::empty());
            return Ok(r);
        }
        let docs: Ghost<Seq<Seq<Seq<char>>>> = Ghost(self.settings().documents_in(x@));
        let columns: Vec<SheetColumn> = vocabulary::make_count_columns(terms, &rows, docs);
        Ok(Sheet { height: x.height(), columns, program: Program::new() })
    }
}

impl Default for CountVectorizer {
    fn default() -> (r: CountVectorizer)
        ensures
            r.fitted() is None,
            r.settings() == CountSettings::initial(),
    {
        CountVectorizer::new()
    }
}

} // verus!
