//! Words, tokens and n-grams.

use crate::text;
use crate::text::Text;
use regex::Regex;
use vstd::prelude::*;

verus! {

/// Whether a character is white space, by the Unicode property `White_Space`.
pub open spec fn space(c: char) -> bool {
    let n = c as int;
    ||| 0x9 <= n <= 0xd
    ||| n == 0x20
    ||| n == 0x85
    ||| n == 0xa0
    ||| n == 0x1680
    ||| 0x2000 <= n <= 0x200a
    ||| n == 0x2028
    ||| n == 0x2029
    ||| n == 0x202f
    ||| n == 0x205f
    ||| n == 0x3000
}

/// Whether a character is white space.
pub fn is_space(c: char) -> (r: bool)
    ensures
        r == space(c),
{
    let n: u32 = c as u32;
    (0x9 <= n && n <= 0xd) || n == 0x20 || n == 0x85 || n == 0xa0 || n == 0x1680 || (0x2000 <= n && n
        <= 0x200a) || n == 0x2028 || n == 0x2029 || n == 0x202f || n == 0x205f || n == 0x3000
}

/// The word at the end of a text.
pub open spec fn tail(t: Seq<char>) -> Seq<char>
    decreases t.len(),
{
    if t.len() == 0 || space(t.last()) {
        Seq::empty()
    } else {
        tail(t.drop_last()).push(t.last())
    }
}

/// The words of a text before the one at its end.
pub open spec fn words_before(t: Seq<char>) -> Seq<Seq<char>>
    decreases t.len(), 0int,
{
    if t.len() == 0 {
        Seq::empty()
    } else if space(t.last()) {
        words(t.drop_last())
    } else {
        words_before(t.drop_last())
    }
}

/// The words of a text: its longest runs without white space, in order.
pub open spec fn words(t: Seq<char>) -> Seq<Seq<char>>
    decreases t.len(), 1int,
{
    if tail(t).len() == 0 {
        words_before(t)
    } else {
        words_before(t).push(tail(t))
    }
}

/// The word at the end of a text has no white space.
proof fn lemma_tail(t: Seq<char>)
    ensures
        forall|i: int| 0 <= i < tail(t).len() ==> !space(#[trigger] tail(t)[i]),
    decreases t.len(),
{
    if t.len() > 0 && !space(t.last()) {
        let front = tail(t.drop_last());
        lemma_tail(t.drop_last());
        assert forall|i: int| 0 <= i < tail(t).len() implies !space(#[trigger] tail(t)[i]) by {
            if i < front.len() {
                assert(tail(t)[i] == front[i]);
            }
        }
    }
}

/// Words are not empty and hold no white space.
pub proof fn law_words(t: Seq<char>, k: int)
    requires
        0 <= k < words(t).len(),
    ensures
        words(t)[k].len() > 0,
        forall|i: int| 0 <= i < words(t)[k].len() ==> !space(#[trigger] words(t)[k][i]),
    decreases t.len(), 1int,
{
    lemma_tail(t);
    if k < words_before(t).len() {
        lemma_words_before(t, k);
    }
}

/// Words before the one at the end are not empty and hold no white space.
proof fn lemma_words_before(t: Seq<char>, k: int)
    requires
        0 <= k < words_before(t).len(),
    ensures
        words_before(t)[k].len() > 0,
        forall|i: int|
            0 <= i < words_before(t)[k].len() ==> !space(#[trigger] words_before(t)[k][i]),
    decreases t.len(), 0int,
{
    if t.len() > 0 {
        if space(t.last()) {
            law_words(t.drop_last(), k);
        } else {
            lemma_words_before(t.drop_last(), k);
        }
    }
}

/// The words of a text.
pub fn split_words(t: &Text) -> (r: Vec<Text>)
    ensures
        text::views(r@) == words(t@),
{
    let mut r: Vec<Text> = Vec::new();
    let mut word: Text = Text::new();
    let mut i: usize = 0;
    assert(t@.take(0) =~= Seq::<char>::empty());
    assert(text::views(r@) =~= words_before(t@.take(0)));
    while i < t.chars.len()
        invariant
            i <= t.chars.len(),
            text::views(r@) == words_before(t@.take(i as int)),
            word@ == tail(t@.take(i as int)),
        decreases t.chars.len() - i,
    {
        let ghost seen = text::views(r@);
        assert(t@.take(i + 1).drop_last() =~= t@.take(i as int));
        assert(words(t@.take(i as int)) == if word@.len() == 0 {
            seen
        } else {
            seen.push(word@)
        });
        let c: char = t.chars[i];
        if is_space(c) {
            if word.chars.len() > 0 {
                r.push(word);
                assert(text::views(r@) =~= seen.push(tail(t@.take(i as int))));
                word = Text::new();
            }
            assert(word@ =~= Seq::<char>::empty());
        } else {
            word.chars.push(c);
        }
        i += 1;
    }
    assert(t@.take(i as int) =~= t@);
    if word.chars.len() > 0 {
        let ghost seen = text::views(r@);
        r.push(word);
        assert(text::views(r@) =~= seen.push(tail(t@)));
    }
    r
}

/// A text with every run of two or more white space characters as one space;
/// a single white space character stays as it is.
pub open spec fn collapsed(t: Seq<char>) -> Seq<char>
    decreases t.len(),
{
    if t.len() == 0 {
        Seq::empty()
    } else {
        let front = collapsed(t.drop_last());
        if t.len() > 1 && space(t.last()) && space(t[t.len() - 2]) {
            front.drop_last().push(' ')
        } else {
            front.push(t.last())
        }
    }
}

/// A collapsed text ends as the text does: in white space or not.
pub proof fn lemma_collapsed_end(t: Seq<char>)
    requires
        t.len() > 0,
    ensures
        collapsed(t).len() > 0,
        space(collapsed(t).last()) == space(t.last()),
    decreases t.len(),
{
    if t.len() > 1 {
        lemma_collapsed_end(t.drop_last());
    }
}

/// A collapsed text has no two white space characters side by side.
pub proof fn law_collapsed(t: Seq<char>)
    ensures
        forall|i: int|
            0 <= i < collapsed(t).len() - 1 ==> !(space(#[trigger] collapsed(t)[i]) && space(
                collapsed(t)[i + 1],
            )),
    decreases t.len(),
{
    if t.len() > 0 {
        let front = collapsed(t.drop_last());
        law_collapsed(t.drop_last());
        if t.len() > 1 {
            lemma_collapsed_end(t.drop_last());
        }
        let whole = collapsed(t);
        assert forall|i: int| 0 <= i < whole.len() - 1 implies !(space(#[trigger] whole[i])
            && space(whole[i + 1])) by {
            assert(whole[i] == front[i]);
            if i + 1 < whole.len() - 1 {
                assert(whole[i + 1] == front[i + 1]);
            } else if t.len() > 1 && space(t.last()) && space(t[t.len() - 2]) {
                assert(front[i + 1] == front.last());
            }
        }
    }
}

/// A text without white space characters side by side stays as it is.
pub proof fn lemma_collapsed_stays(t: Seq<char>)
    requires
        forall|i: int| 0 <= i < t.len() - 1 ==> !(space(#[trigger] t[i]) && space(t[i + 1])),
    ensures
        collapsed(t) == t,
    decreases t.len(),
{
    if t.len() > 0 {
        let front = t.drop_last();
        assert forall|i: int| 0 <= i < front.len() - 1 implies !(space(#[trigger] front[i])
            && space(front[i + 1])) by {
            assert(front[i] == t[i]);
        }
        lemma_collapsed_stays(front);
        if t.len() > 1 {
            assert(!(space(t[t.len() - 2]) && space(t[t.len() - 2 + 1])));
        }
        assert(front.push(t.last()) =~= t);
    }
}

/// Collapsing a collapsed text changes nothing.
pub proof fn law_collapsed_twice(t: Seq<char>)
    ensures
        collapsed(collapsed(t)) == collapsed(t),
{
    law_collapsed(t);
    lemma_collapsed_stays(collapsed(t));
}

/// A text with its runs of white space collapsed.
pub fn collapse_whitespace_runs(t: &Text) -> (r: Text)
    ensures
        r@ == collapsed(t@),
{
    let mut r: Text = Text::new();
    let mut after_space: bool = false;
    let mut i: usize = 0;
    assert(t@.take(0) =~= Seq::<char>::empty());
    while i < t.chars.len()
        invariant
            i <= t.chars.len(),
            r@ == collapsed(t@.take(i as int)),
            after_space == (i > 0 && space(t@[i - 1])),
        decreases t.chars.len() - i,
    {
        assert(t@.take(i + 1).drop_last() =~= t@.take(i as int));
        let c: char = t.chars[i];
        let white: bool = is_space(c);
        if white && after_space {
            proof {
                lemma_collapsed_end(t@.take(i as int));
            }
            let at: usize = r.chars.len() - 1;
            r.chars.set(at, ' ');
            assert(r@ =~= collapsed(t@.take(i + 1)));
        } else {
            r.chars.push(c);
        }
        after_space = white;
        i += 1;
    }
    assert(t@.take(i as int) =~= t@);
    r
}

/// The runs of `n` items of a list, by where they start.
pub open spec fn windows<T>(list: Seq<T>, n: nat) -> Seq<Seq<T>> {
    if n > list.len() {
        Seq::empty()
    } else {
        Seq::new((list.len() - n + 1) as nat, |i: int| list.subrange(i, i + n))
    }
}

/// The runs of `low` up to `high` items of a list, shorter ones first.
pub open spec fn grams<T>(list: Seq<T>, low: nat, high: nat) -> Seq<Seq<T>>
    decreases high,
{
    if high < low || high == 0 {
        Seq::empty()
    } else {
        grams(list, low, (high - 1) as nat) + windows(list, high)
    }
}

/// There are no runs longer than the list.
proof fn lemma_grams_end<T>(list: Seq<T>, low: nat, high: nat)
    requires
        low >= 1,
        high >= list.len(),
    ensures
        grams(list, low, high) == grams(list, low, list.len()),
    decreases high,
{
    if high > list.len() {
        lemma_grams_end(list, low, (high - 1) as nat);
        if low <= high {
            assert(grams(list, low, high) =~= grams(list, low, (high - 1) as nat));
        } else {
            assert(grams(list, low, list.len()) =~= Seq::<Seq<T>>::empty());
        }
    }
}

/// How many runs of `n` items a list of `length` has.
pub open spec fn window_count(length: nat, n: nat) -> nat {
    if n > length {
        0
    } else {
        (length - n + 1) as nat
    }
}

/// How many runs of `low` up to `high` items a list of `length` has.
pub open spec fn gram_count(length: nat, low: nat, high: nat) -> nat
    decreases high,
{
    if high < low || high == 0 {
        0
    } else {
        gram_count(length, low, (high - 1) as nat) + window_count(length, high)
    }
}

/// A list has as many runs as its length allows for each number of items.
pub proof fn law_gram_count<T>(list: Seq<T>, low: nat, high: nat)
    ensures
        grams(list, low, high).len() == gram_count(list.len(), low, high),
    decreases high,
{
    if high >= low && high > 0 {
        law_gram_count(list, low, (high - 1) as nat);
    }
}

/// Runs have the lengths that were asked for.
pub proof fn law_grams_length<T>(list: Seq<T>, low: nat, high: nat, k: int)
    requires
        0 <= k < grams(list, low, high).len(),
    ensures
        low <= grams(list, low, high)[k].len() <= high,
    decreases high,
{
    if high >= low && high > 0 {
        let front = grams(list, low, (high - 1) as nat);
        if k < front.len() {
            law_grams_length(list, low, (high - 1) as nat, k);
        } else {
            assert(grams(list, low, high)[k] == windows(list, high)[k - front.len()]);
        }
    }
}

/// The runs of `low` up to `high` characters, shorter ones first.
pub fn char_grams(chars: &Vec<char>, low: usize, high: usize) -> (r: Vec<Text>)
    requires
        low >= 1,
    ensures
        text::views(r@) == grams(chars@, low as nat, high as nat),
{
    let end: usize = if high < chars.len() {
        high
    } else {
        chars.len()
    };
    proof {
        if high >= chars.len() {
            lemma_grams_end(chars@, low as nat, high as nat);
        }
    }
    let mut r: Vec<Text> = Vec::new();
    if low > end {
        assert(text::views(r@) =~= grams(chars@, low as nat, end as nat));
        return r;
    }
    let mut done: usize = low - 1;
    assert(text::views(r@) =~= grams(chars@, low as nat, done as nat));
    while done < end
        invariant
            1 <= low,
            low - 1 <= done <= end,
            end <= chars.len(),
            grams(chars@, low as nat, high as nat) == grams(chars@, low as nat, end as nat),
            text::views(r@) == grams(chars@, low as nat, done as nat),
        decreases end - done,
    {
        let n: usize = done + 1;
        let ghost base = text::views(r@);
        let ghost more = windows(chars@, n as nat);
        let count: usize = chars.len() - done;
        let mut i: usize = 0;
        assert(text::views(r@) =~= base + more.take(0));
        while i < count
            invariant
                i <= count,
                n == done + 1,
                n <= chars.len(),
                count == chars.len() - done,
                more == windows(chars@, n as nat),
                text::views(r@) == base + more.take(i as int),
            decreases count - i,
        {
            let ghost seen = text::views(r@);
            let mut gram: Text = Text::new();
            let mut j: usize = 0;
            while j < n
                invariant
                    j <= n,
                    i + n <= chars.len(),
                    gram@ == chars@.subrange(i as int, i + j),
                decreases n - j,
            {
                gram.chars.push(chars[i + j]);
                j += 1;
                assert(gram@ =~= chars@.subrange(i as int, i + j));
            }
            r.push(gram);
            assert(text::views(r@) =~= seen.push(more[i as int]));
            assert(base + more.take(i + 1) =~= (base + more.take(i as int)).push(more[i as int]));
            i += 1;
        }
        assert(more.take(i as int) =~= more);
        done = n;
    }
    r
}

/// Texts put together with single spaces between them.
pub open spec fn spaced(list: Seq<Seq<char>>) -> Seq<char>
    decreases list.len(),
{
    if list.len() == 0 {
        Seq::empty()
    } else if list.len() == 1 {
        list[0]
    } else {
        spaced(list.drop_last()) + " "@ + list.last()
    }
}

/// The terms of a list of tokens: the runs of `low` up to `high` of them, put
/// together with single spaces.
pub open spec fn token_terms(tokens: Seq<Seq<char>>, low: nat, high: nat) -> Seq<Seq<char>> {
    let runs = grams(tokens, low, high);
    Seq::new(runs.len(), |k: int| spaced(runs[k]))
}

/// The terms of a list of tokens.
pub fn make_terms(tokens: &Vec<Text>, low: usize, high: usize) -> (r: Vec<Text>)
    requires
        low >= 1,
    ensures
        text::views(r@) == token_terms(text::views(tokens@), low as nat, high as nat),
{
    let ghost all = text::views(tokens@);
    let end: usize = if high < tokens.len() {
        high
    } else {
        tokens.len()
    };
    proof {
        if high >= tokens.len() {
            lemma_grams_end(all, low as nat, high as nat);
        }
    }
    let mut r: Vec<Text> = Vec::new();
    if low > end {
        assert(text::views(r@) =~= token_terms(all, low as nat, end as nat));
        return r;
    }
    let mut done: usize = low - 1;
    assert(text::views(r@) =~= token_terms(all, low as nat, done as nat));
    while done < end
        invariant
            1 <= low,
            low - 1 <= done <= end,
            end <= tokens.len(),
            all == text::views(tokens@),
            grams(all, low as nat, high as nat) == grams(all, low as nat, end as nat),
            text::views(r@) == token_terms(all, low as nat, done as nat),
        decreases end - done,
    {
        let n: usize = done + 1;
        let ghost base = text::views(r@);
        let ghost runs = windows(all, n as nat);
        let ghost more = Seq::new(runs.len(), |k: int| spaced(runs[k]));
        let count: usize = tokens.len() - done;
        let mut i: usize = 0;
        assert(text::views(r@) =~= base + more.take(0));
        while i < count
            invariant
                i <= count,
                n == done + 1,
                n <= tokens.len(),
                count == tokens.len() - done,
                all == text::views(tokens@),
                runs == windows(all, n as nat),
                more == Seq::new(runs.len(), |k: int| spaced(runs[k])),
                text::views(r@) == base + more.take(i as int),
            decreases count - i,
        {
            let ghost seen = text::views(r@);
            let mut term: Text = tokens[i].duplicate();
            let mut j: usize = 1;
            assert(all.subrange(i as int, i + 1) =~= seq![all[i as int]]);
            while j < n
                invariant
                    1 <= j <= n,
                    i + n <= tokens.len(),
                    all == text::views(tokens@),
                    term@ == spaced(all.subrange(i as int, i + j)),
                decreases n - j,
            {
                assert(all.subrange(i as int, i + j + 1).drop_last() =~= all.subrange(
                    i as int,
                    i + j,
                ));
                term.push_str(" ");
                term.append(&tokens[i + j]);
                j += 1;
            }
            assert(runs[i as int] == all.subrange(i as int, i + n));
            r.push(term);
            assert(text::views(r@) =~= seen.push(more[i as int]));
            assert(base + more.take(i + 1) =~= (base + more.take(i as int)).push(more[i as int]));
            i += 1;
        }
        assert(more.take(i as int) =~= more);
        assert(grams(all, low as nat, n as nat) == grams(all, low as nat, done as nat) + runs);
        assert(token_terms(all, low as nat, n as nat) =~= base + more);
        done = n;
    }
    r
}

/// The texts of a list that are not empty and not among those left out.
pub open spec fn kept_tokens(tokens: Seq<Seq<char>>, left_out: Seq<Seq<char>>) -> Seq<Seq<char>>
    decreases tokens.len(),
{
    if tokens.len() == 0 {
        Seq::empty()
    } else {
        let front = kept_tokens(tokens.drop_last(), left_out);
        let last = tokens.last();
        if last.len() == 0 || left_out.contains(last) {
            front
        } else {
            front.push(last)
        }
    }
}

/// A token that is kept was among the tokens, and is none that is left out.
pub proof fn law_kept_tokens(tokens: Seq<Seq<char>>, left_out: Seq<Seq<char>>, k: int)
    requires
        0 <= k < kept_tokens(tokens, left_out).len(),
    ensures
        tokens.contains(kept_tokens(tokens, left_out)[k]),
        !left_out.contains(kept_tokens(tokens, left_out)[k]),
        kept_tokens(tokens, left_out)[k].len() > 0,
    decreases tokens.len(),
{
    if tokens.len() > 0 {
        let front = kept_tokens(tokens.drop_last(), left_out);
        if k < front.len() {
            law_kept_tokens(tokens.drop_last(), left_out, k);
            let m = choose|m: int|
                0 <= m < tokens.len() - 1 && tokens.drop_last()[m] == front[k];
            assert(tokens[m] == front[k]);
        } else {
            assert(tokens[tokens.len() - 1] == kept_tokens(tokens, left_out)[k]);
        }
    }
}

/// The items of a run are items of the list.
pub proof fn lemma_grams_within<T>(list: Seq<T>, low: nat, high: nat, k: int, j: int)
    requires
        0 <= k < grams(list, low, high).len(),
        0 <= j < grams(list, low, high)[k].len(),
    ensures
        exists|start: int|
            0 <= start && start + grams(list, low, high)[k].len() <= list.len() && grams(
                list,
                low,
                high,
            )[k][j] == #[trigger] list[start + j],
    decreases high,
{
    if high >= low && high > 0 {
        let front = grams(list, low, (high - 1) as nat);
        if k < front.len() {
            lemma_grams_within(list, low, (high - 1) as nat, k, j);
        } else {
            let start = k - front.len();
            assert(grams(list, low, high)[k] == list.subrange(start, start + high));
            assert(grams(list, low, high)[k][j] == list[start + j]);
        }
    }
}

/// No term is put together from a token that is left out.
pub proof fn law_terms_without_left_out(
    tokens: Seq<Seq<char>>,
    left_out: Seq<Seq<char>>,
    low: nat,
    high: nat,
    k: int,
    j: int,
)
    requires
        0 <= k < grams(kept_tokens(tokens, left_out), low, high).len(),
        0 <= j < grams(kept_tokens(tokens, left_out), low, high)[k].len(),
    ensures
        token_terms(kept_tokens(tokens, left_out), low, high)[k] == spaced(
            grams(kept_tokens(tokens, left_out), low, high)[k],
        ),
        !left_out.contains(grams(kept_tokens(tokens, left_out), low, high)[k][j]),
{
    let kept = kept_tokens(tokens, left_out);
    let run = grams(kept, low, high)[k];
    lemma_grams_within(kept, low, high, k, j);
    let start = choose|start: int|
        0 <= start && start + run.len() <= kept.len() && run[j] == #[trigger] kept[start + j];
    law_kept_tokens(tokens, left_out, start + j);
}

/// The tokens that are not empty and not among those left out.
pub fn keep_tokens(tokens: Vec<Text>, left_out: &Vec<Text>) -> (r: Vec<Text>)
    ensures
        text::views(r@) == kept_tokens(text::views(tokens@), text::views(left_out@)),
{
    let ghost all = text::views(tokens@);
    let ghost stops = text::views(left_out@);
    let mut r: Vec<Text> = Vec::new();
    let mut i: usize = 0;
    assert(all.take(0) =~= Seq::<Seq<char>>::empty());
    assert(text::views(r@) =~= Seq::<Seq<char>>::empty());
    while i < tokens.len()
        invariant
            i <= tokens.len(),
            all == text::views(tokens@),
            stops == text::views(left_out@),
            text::views(r@) == kept_tokens(all.take(i as int), stops),
        decreases tokens.len() - i,
    {
        let ghost seen = text::views(r@);
        assert(all.take(i + 1).drop_last() =~= all.take(i as int));
        assert(all.take(i + 1).last() == tokens@[i as int]@);
        if tokens[i].chars.len() > 0 && !text::contains(left_out, &tokens[i]) {
            r.push(tokens[i].duplicate());
            assert(text::views(r@) =~= seen.push(tokens@[i as int]@));
        }
        i += 1;
    }
    assert(all.take(i as int) =~= all);
    r
}

/// The lower case of a text.
pub uninterp spec fn lower_case(t: Seq<char>) -> Seq<char>;

/// The lower case of a text.
///
/// This is `str::to_lowercase` of the standard library; what it gives for each
/// text is left to it.
#[verifier::external_body]
pub(crate) fn to_lower_case(t: &Text) -> (r: Text)
    ensures
        r@ == lower_case(t@),
{
    let s: String = t.chars.iter().collect();
    Text { chars: s.to_lowercase().chars().collect() }
}

/// Whether a pattern is a regular expression.
pub uninterp spec fn is_pattern(pattern: Seq<char>) -> bool;

/// Whether a pattern is a regular expression.
///
/// This is whether `Regex::new` of the crate `regex` takes the pattern.
#[verifier::external_body]
pub(crate) fn check_pattern(pattern: &Text) -> (r: bool)
    ensures
        r == is_pattern(pattern@),
{
    let s: String = pattern.chars.iter().collect();
    Regex::new(&s).is_ok()
}

/// The matches of a regular expression in a text, in order.
pub uninterp spec fn pattern_matches(pattern: Seq<char>, t: Seq<char>) -> Seq<Seq<char>>;

/// The matches of a regular expression in a text, in order.
///
/// This is `Regex::find_iter` of the crate `regex`: the whole matches, from
/// left to right, that do not overlap. Which they are is left to the crate.
#[verifier::external_body]
pub(crate) fn find_matches(pattern: &Text, t: &Text) -> (r: Vec<Text>)
    requires
        is_pattern(pattern@),
    ensures
        text::views(r@) == pattern_matches(pattern@, t@),
{
    let p: String = pattern.chars.iter().collect();
    let s: String = t.chars.iter().collect();
    let regex = Regex::new(&p).unwrap();
    regex.find_iter(&s).map(|m| Text { chars: m.as_str().chars().collect() }).collect()
}

} // verus!
