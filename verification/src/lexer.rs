//! The tokenizer: text to tokens.
//!
//! The text is cut into runs. A run ends where the next character opens a new
//! token; its characters, but for white space that directly follows a `#`, are
//! the token's text, and the place of its first character is the token's place.

use vstd::prelude::*;
use crate::chars::{is_special_char, is_whitespace, special, whitespace};

verus! {

/// A lexical token: a run of plain characters or a run of markup characters,
/// with the line and column at which the run begins (both count from 1).
#[derive(Debug)]
pub struct Token {
    pub data: String,
    pub line: usize,
    pub col: usize,
}

/// What a token is: its text and its place.
pub struct TokenView {
    pub text: Seq<char>,
    pub line: nat,
    pub col: nat,
}

impl View for Token {
    type V = TokenView;

    open spec fn view(&self) -> TokenView {
        TokenView { text: self.data@, line: self.line as nat, col: self.col as nat }
    }
}

impl Clone for Token {
    fn clone(&self) -> (copy: Token)
        ensures
            copy == *self,
    {
        Token { data: self.data.clone(), line: self.line, col: self.col }
    }
}

/// The views of a sequence of tokens.
pub open spec fn token_views(tokens: Seq<Token>) -> Seq<TokenView> {
    tokens.map_values(|t: Token| t@)
}

/// A line terminator.
pub open spec fn line_break(c: char) -> bool {
    c == '\n' || c == '\r'
}

/// The characters that open a new token wherever they stand.
pub open spec fn opener(c: char) -> bool {
    c == '#' || c == '[' || c == '(' || c == '!' || line_break(c)
}

/// A token begins between two characters that stand side by side: the first
/// ends a line, or one of the two is markup-special and the other is not, or
/// the second is an opener.
pub open spec fn joint(before: char, at: char) -> bool {
    line_break(before) || special(before) != special(at) || opener(at)
}

/// A token begins at index `i` of `s`, other than the first.
pub open spec fn starts_token(s: Seq<char>, i: int) -> bool {
    0 < i < s.len() && joint(s[i - 1], s[i])
}

/// The character at index `i` of `s` is left out of every token: it is white
/// space and comes directly after a `#`.
pub open spec fn dropped(s: Seq<char>, i: int) -> bool {
    0 < i < s.len() && s[i - 1] == '#' && whitespace(s[i])
}

/// The first index from `i` on at which a token begins, or the length of `s`
/// where there is none.
pub open spec fn run_end(s: Seq<char>, i: int) -> int
    decreases s.len() - i,
{
    if i >= s.len() {
        s.len() as int
    } else if starts_token(s, i) {
        i
    } else {
        run_end(s, i + 1)
    }
}

/// The characters of `s` from `from` up to `to` that are not dropped.
pub open spec fn run_text(s: Seq<char>, from: int, to: int) -> Seq<char>
    decreases to - from,
{
    if to <= from {
        Seq::empty()
    } else if dropped(s, to - 1) {
        run_text(s, from, to - 1)
    } else {
        run_text(s, from, to - 1).push(s[to - 1])
    }
}

/// The line of index `i` of `s`: one more than the number of `\n` before it.
pub open spec fn line_of(s: Seq<char>, i: int) -> nat
    decreases i,
{
    if i <= 0 {
        1
    } else if s[i - 1] == '\n' {
        line_of(s, i - 1) + 1
    } else {
        line_of(s, i - 1)
    }
}

/// The column of index `i` of `s`: one more than the number of characters
/// between it and the `\n` before it, or the start of `s`.
pub open spec fn col_of(s: Seq<char>, i: int) -> nat
    decreases i,
{
    if i <= 0 {
        1
    } else if s[i - 1] == '\n' {
        1
    } else {
        col_of(s, i - 1) + 1
    }
}

/// The token made of the run of `s` from `from` up to `to`.
pub open spec fn token_at(s: Seq<char>, from: int, to: int) -> TokenView {
    TokenView { text: run_text(s, from, to), line: line_of(s, from), col: col_of(s, from) }
}

/// `run_end(s, i)` lies between `i` and the length of `s`.
pub proof fn lemma_run_end_bounds(s: Seq<char>, i: int)
    requires
        i <= s.len(),
    ensures
        i <= run_end(s, i) <= s.len(),
    decreases s.len() - i,
{
    if i < s.len() && !starts_token(s, i) {
        lemma_run_end_bounds(s, i + 1);
    }
}

/// The tokens of the runs of `s` that begin at `from` or later, where a run
/// begins at `from`.
pub open spec fn tokens_from(s: Seq<char>, from: int) -> Seq<TokenView>
    decreases s.len() - from,
{
    if from >= s.len() {
        Seq::empty()
    } else {
        proof {
            lemma_run_end_bounds(s, from + 1);
        }
        let to = run_end(s, from + 1);
        seq![token_at(s, from, to)] + tokens_from(s, to)
    }
}

/// The token that ends every token sequence: a line feed that is not part of
/// the text. It stands at the place of the token before it.
pub open spec fn sentinel(before: TokenView) -> TokenView {
    TokenView { text: seq!['\n'], line: before.line, col: before.col }
}

/// The tokens of the text `s`: one for each run, then the sentinel. The empty
/// text has one run, which is empty.
pub open spec fn tokens_of(s: Seq<char>) -> Seq<TokenView> {
    let runs = if s.len() == 0 {
        seq![token_at(s, 0, 0)]
    } else {
        tokens_from(s, 0)
    };
    runs.push(sentinel(runs.last()))
}

/// Where no token begins between `from` and `to`, and one begins at `to` or
/// `to` is the end of `s`, the run that `from` lies in ends at `to`.
pub proof fn lemma_run_end_is(s: Seq<char>, from: int, to: int)
    requires
        from <= to <= s.len(),
        forall|j: int| from <= j < to ==> !starts_token(s, j),
        to == s.len() || starts_token(s, to),
    ensures
        run_end(s, from) == to,
    decreases to - from,
{
    if from < to {
        lemma_run_end_is(s, from + 1, to);
    }
}

/// Lines and columns of the indices of `s` are at most one more than the index.
pub proof fn lemma_place_bounds(s: Seq<char>, i: int)
    requires
        0 <= i,
    ensures
        1 <= line_of(s, i) <= i + 1,
        1 <= col_of(s, i) <= i + 1,
    decreases i,
{
    if i > 0 {
        lemma_place_bounds(s, i - 1);
    }
}

/// The text of a run is the text of its first part, then that of the rest.
pub proof fn lemma_run_text_split(s: Seq<char>, from: int, mid: int, to: int)
    requires
        from <= mid <= to,
    ensures
        run_text(s, from, to) == run_text(s, from, mid) + run_text(s, mid, to),
    decreases to - mid,
{
    if mid < to {
        lemma_run_text_split(s, from, mid, to - 1);
        assert(run_text(s, from, to) =~= run_text(s, from, mid) + run_text(s, mid, to));
    } else {
        assert(run_text(s, from, to) =~= run_text(s, from, mid) + run_text(s, mid, to));
    }
}

/// The text of a run without dropped characters is the run itself.
pub proof fn lemma_run_text_kept(s: Seq<char>, from: int, to: int)
    requires
        0 <= from <= to <= s.len(),
        forall|j: int| from <= j < to ==> !dropped(s, j),
    ensures
        run_text(s, from, to) == s.subrange(from, to),
    decreases to - from,
{
    if from < to {
        lemma_run_text_kept(s, from, to - 1);
    }
    assert(run_text(s, from, to) =~= s.subrange(from, to));
}

/// Where no `\n` stands before index `i`, `i` lies in line 1 at column `i + 1`.
pub proof fn lemma_first_line(s: Seq<char>, i: int)
    requires
        0 <= i <= s.len(),
        forall|j: int| 0 <= j < i ==> s[j] != '\n',
    ensures
        line_of(s, i) == 1,
        col_of(s, i) == i + 1,
    decreases i,
{
    if i > 0 {
        lemma_first_line(s, i - 1);
    }
}

/// The runs of `s` from the cut of index `k` on, where `cuts` lists the
/// indices at which the tokens of `s` begin, and the length of `s` last.
pub open spec fn runs_at(s: Seq<char>, cuts: Seq<int>, k: int) -> Seq<TokenView> {
    Seq::new(
        (cuts.len() - 1 - k) as nat,
        |i: int| token_at(s, cuts[k + i], cuts[k + i + 1]),
    )
}

/// `cuts` lists, in order, the indices of `s` at which a token begins, from 0
/// on, and the length of `s` last.
pub open spec fn cuts_of(s: Seq<char>, cuts: Seq<int>) -> bool {
    &&& cuts.len() >= 2
    &&& cuts[0] == 0
    &&& cuts.last() == s.len()
    &&& forall|k: int| 0 <= k < cuts.len() - 1 ==> cuts[k] < #[trigger] cuts[k + 1]
    &&& forall|k: int| 0 < k < cuts.len() - 1 ==> starts_token(s, #[trigger] cuts[k])
    &&& forall|k: int, j: int|
        #![trigger cuts[k], starts_token(s, j)]
        0 <= k < cuts.len() - 1 && cuts[k] < j < cuts[k + 1] ==> !starts_token(s, j)
}

/// The tokens of a text are its runs: one from each index at which a token
/// begins up to the next such index.
pub proof fn lemma_tokens_are_runs(s: Seq<char>, cuts: Seq<int>, k: int)
    requires
        cuts_of(s, cuts),
        0 <= k < cuts.len() - 1,
    ensures
        tokens_from(s, cuts[k]) == runs_at(s, cuts, k),
    decreases cuts.len() - k,
{
    let from = cuts[k];
    let to = cuts[k + 1];
    assert(forall|i: int| 0 <= i < cuts.len() - 1 ==> cuts[i] < #[trigger] cuts[i + 1]);
    assert(from < to);
    assert(to <= s.len()) by {
        lemma_cuts_bounded(s, cuts, k + 1);
    }
    assert forall|j: int| from + 1 <= j < to implies !starts_token(s, j) by {
        assert(cuts[k] < j < cuts[k + 1]);
    }
    if k + 1 < cuts.len() - 1 {
        assert(starts_token(s, cuts[k + 1]));
    }
    lemma_run_end_is(s, from + 1, to);
    if k + 1 < cuts.len() - 1 {
        lemma_tokens_are_runs(s, cuts, k + 1);
        assert(runs_at(s, cuts, k) =~= seq![token_at(s, from, to)] + runs_at(s, cuts, k + 1));
    } else {
        assert(tokens_from(s, to) =~= Seq::<TokenView>::empty());
        assert(runs_at(s, cuts, k) =~= seq![token_at(s, from, to)]);
    }
}

/// No cut lies behind the end of the text.
pub proof fn lemma_cuts_bounded(s: Seq<char>, cuts: Seq<int>, k: int)
    requires
        cuts_of(s, cuts),
        0 <= k < cuts.len(),
    ensures
        cuts[k] <= s.len(),
    decreases cuts.len() - k,
{
    if k < cuts.len() - 1 {
        lemma_cuts_bounded(s, cuts, k + 1);
        assert(cuts[k] < cuts[k + 1]);
    }
}

/// The tokens of a text of which no character is dropped: the pieces between
/// the cuts, each at the place of its first character, and the sentinel.
pub proof fn lemma_tokens_at_cuts(s: Seq<char>, cuts: Seq<int>)
    requires
        cuts_of(s, cuts),
        forall|j: int| 0 <= j < s.len() ==> !dropped(s, j),
    ensures
        tokens_of(s).len() == cuts.len(),
        forall|k: int|
            0 <= k < cuts.len() - 1 ==> #[trigger] tokens_of(s)[k] == (TokenView {
                text: s.subrange(cuts[k], cuts[k + 1]),
                line: line_of(s, cuts[k]),
                col: col_of(s, cuts[k]),
            }),
        tokens_of(s)[cuts.len() - 1] == sentinel(tokens_of(s)[cuts.len() - 2]),
{
    lemma_tokens_are_runs(s, cuts, 0);
    let runs = runs_at(s, cuts, 0);
    assert(tokens_of(s) == runs.push(sentinel(runs.last())));
    assert forall|k: int| 0 <= k < cuts.len() - 1 implies #[trigger] tokens_of(s)[k] == (TokenView {
        text: s.subrange(cuts[k], cuts[k + 1]),
        line: line_of(s, cuts[k]),
        col: col_of(s, cuts[k]),
    }) by {
        assert(runs[k] == token_at(s, cuts[0 + k], cuts[0 + k + 1]));
        lemma_cuts_bounded(s, cuts, k + 1);
        assert(cuts[k] < cuts[k + 1]);
        lemma_cuts_positive(s, cuts, k);
        lemma_run_text_kept(s, cuts[k], cuts[k + 1]);
    }
}

/// No cut lies before the start of the text.
pub proof fn lemma_cuts_positive(s: Seq<char>, cuts: Seq<int>, k: int)
    requires
        cuts_of(s, cuts),
        0 <= k < cuts.len(),
    ensures
        0 <= cuts[k],
    decreases k,
{
    if k > 0 {
        lemma_cuts_positive(s, cuts, k - 1);
        assert(cuts[k - 1] < cuts[k - 1 + 1]);
    }
}

/// A piece of text that is not empty and in which no token begins but the
/// first.
pub open spec fn solid(piece: Seq<char>) -> bool {
    &&& piece.len() > 0
    &&& forall|i: int| 0 < i < piece.len() ==> !joint(piece[i - 1], #[trigger] piece[i])
}

/// `pieces` are solid, and a token begins wherever one of them follows
/// another.
pub open spec fn broken_into(pieces: Seq<Seq<char>>) -> bool {
    &&& forall|k: int| 0 <= k < pieces.len() ==> solid(#[trigger] pieces[k])
    &&& forall|k: int|
        0 < k < pieces.len() ==> joint(pieces[k - 1].last(), (#[trigger] pieces[k])[0])
}

/// The tokens of a text that ends in solid pieces, from the first of them on,
/// are these pieces, where no character is dropped.
pub proof fn lemma_pieces_from(s: Seq<char>, prefix: Seq<char>, pieces: Seq<Seq<char>>)
    requires
        s == prefix + pieces.flatten(),
        broken_into(pieces),
        forall|j: int| 0 <= j < s.len() ==> !dropped(s, j),
    ensures
        tokens_from(s, prefix.len() as int).len() == pieces.len(),
        forall|k: int|
            0 <= k < pieces.len() ==> (#[trigger] tokens_from(s, prefix.len() as int)[k]).text
                == pieces[k],
    decreases pieces.len(),
{
    let from = prefix.len() as int;
    if pieces.len() == 0 {
        assert(pieces.flatten() =~= Seq::<char>::empty());
        assert(s =~= prefix);
    } else {
        let first = pieces.first();
        let rest = pieces.drop_first();
        let to = from + first.len();
        assert(solid(pieces[0]));
        assert(pieces.flatten() == first + rest.flatten());
        assert(s =~= (prefix + first) + rest.flatten());
        assert forall|k: int| 0 <= k < rest.len() implies solid(#[trigger] rest[k]) by {
            assert(rest[k] == pieces[k + 1]);
        }
        assert forall|k: int| 0 < k < rest.len() implies joint(
            rest[k - 1].last(),
            (#[trigger] rest[k])[0],
        ) by {
            assert(rest[k] == pieces[k + 1]);
            assert(rest[k - 1] == pieces[k]);
        }
        lemma_pieces_from(s, prefix + first, rest);
        assert forall|j: int| from + 1 <= j < to implies !starts_token(s, j) by {
            assert(s[j] == first[j - from]);
            assert(s[j - 1] == first[j - from - 1]);
        }
        if rest.len() > 0 {
            assert(solid(pieces[1]));
            assert(rest.flatten() == rest.first() + rest.drop_first().flatten());
            assert(s[to] == rest[0][0]);
            assert(s[to - 1] == first.last());
            assert(rest[0] == pieces[1]);
            assert(starts_token(s, to));
        } else {
            assert(rest.flatten() =~= Seq::<char>::empty());
            assert(to == s.len());
        }
        lemma_run_end_is(s, from + 1, to);
        lemma_run_text_kept(s, from, to);
        assert(s.subrange(from, to) =~= first);
        let tokens = tokens_from(s, from);
        assert(tokens =~= seq![token_at(s, from, to)] + tokens_from(s, to));
        assert forall|k: int| 0 <= k < pieces.len() implies (#[trigger] tokens[k]).text
            == pieces[k] by {
            if k > 0 {
                assert(tokens[k] == tokens_from(s, to)[k - 1]);
                assert(rest[k - 1] == pieces[k]);
            }
        }
    }
}

/// A text made of solid pieces, with a token beginning wherever one of them
/// follows another and no character dropped, has these pieces as the texts of
/// its tokens, and the sentinel behind them.
pub proof fn lemma_pieces_tokens(pieces: Seq<Seq<char>>)
    requires
        pieces.len() > 0,
        broken_into(pieces),
        forall|j: int| 0 <= j < pieces.flatten().len() ==> !dropped(pieces.flatten(), j),
    ensures
        tokens_of(pieces.flatten()).len() == pieces.len() + 1,
        forall|k: int|
            0 <= k < pieces.len() ==> (#[trigger] tokens_of(pieces.flatten())[k]).text
                == pieces[k],
        tokens_of(pieces.flatten())[pieces.len() as int].text == seq!['\n'],
{
    let s = pieces.flatten();
    assert(s =~= Seq::<char>::empty() + s);
    lemma_pieces_from(s, Seq::empty(), pieces);
    assert(solid(pieces[0]));
    assert(s == pieces.first() + pieces.drop_first().flatten());
    assert(s.len() > 0);
    let runs = tokens_from(s, 0);
    assert forall|k: int| 0 <= k < pieces.len() implies (#[trigger] tokens_of(s)[k]).text
        == pieces[k] by {
        assert(tokens_of(s)[k] == runs[k]);
    }
}

/// The texts of a sequence of tokens.
pub open spec fn texts_of(tokens: Seq<TokenView>) -> Seq<Seq<char>> {
    tokens.map_values(|t: TokenView| t.text)
}

/// No token begins between `i` and `run_end(s, i)`, and one begins there
/// unless the text ends there.
pub proof fn lemma_run_end_first(s: Seq<char>, i: int)
    requires
        i <= s.len(),
    ensures
        forall|j: int| i <= j < run_end(s, i) ==> !starts_token(s, j),
        run_end(s, i) < s.len() ==> starts_token(s, run_end(s, i)),
    decreases s.len() - i,
{
    if i < s.len() && !starts_token(s, i) {
        lemma_run_end_first(s, i + 1);
    }
}

/// The tokens of a text of which no character is dropped cut it into solid
/// pieces: from a token's first index `from` on, the texts of the tokens are
/// solid, a token begins wherever one follows another, and joined they are the
/// text from `from` on.
pub proof fn lemma_runs_are_pieces(s: Seq<char>, from: int)
    requires
        0 <= from < s.len(),
        forall|j: int| 0 <= j < s.len() ==> !dropped(s, j),
    ensures
        texts_of(tokens_from(s, from)).len() > 0,
        broken_into(texts_of(tokens_from(s, from))),
        texts_of(tokens_from(s, from)).flatten() == s.subrange(from, s.len() as int),
        texts_of(tokens_from(s, from))[0][0] == s[from],
        texts_of(tokens_from(s, from)).last().last() == s.last(),
    decreases s.len() - from,
{
    let n = s.len() as int;
    let to = run_end(s, from + 1);
    lemma_run_end_bounds(s, from + 1);
    lemma_run_end_first(s, from + 1);
    lemma_run_text_kept(s, from, to);
    let piece = s.subrange(from, to);
    let rest = texts_of(tokens_from(s, to));
    let pieces = texts_of(tokens_from(s, from));
    assert(pieces =~= seq![piece] + rest);
    assert(solid(piece)) by {
        assert forall|i: int| 0 < i < piece.len() implies !joint(
            piece[i - 1],
            #[trigger] piece[i],
        ) by {
            assert(!starts_token(s, from + i));
        }
    }
    assert(pieces.first() == piece);
    assert(pieces.drop_first() =~= rest);
    if to < n {
        lemma_runs_are_pieces(s, to);
        assert forall|k: int| 0 <= k < pieces.len() implies solid(#[trigger] pieces[k]) by {
            if k > 0 {
                assert(pieces[k] == rest[k - 1]);
            }
        }
        assert forall|k: int| 0 < k < pieces.len() implies joint(
            pieces[k - 1].last(),
            (#[trigger] pieces[k])[0],
        ) by {
            assert(pieces[k] == rest[k - 1]);
            if k > 1 {
                assert(pieces[k - 1] == rest[k - 2]);
            } else {
                assert(starts_token(s, to));
            }
        }
        assert(pieces.flatten() =~= s.subrange(from, n));
        assert(pieces.last() == rest.last());
    } else {
        assert(tokens_from(s, to) =~= Seq::<TokenView>::empty());
        assert(rest =~= Seq::<Seq<char>>::empty());
        assert(rest.flatten() =~= Seq::<char>::empty());
        assert(pieces.flatten() =~= s.subrange(from, n));
    }
}

/// Every text has at least two tokens, and the last of them is the sentinel:
/// a line feed at the place of the token before it.
pub proof fn lemma_sentinel_is_last(s: Seq<char>)
    ensures
        tokens_of(s).len() >= 2,
        tokens_of(s).last() == sentinel(tokens_of(s)[tokens_of(s).len() - 2]),
        tokens_of(s).last().text == seq!['\n'],
{
    if s.len() > 0 {
        lemma_run_end_bounds(s, 1);
        let to = run_end(s, 1);
        assert(tokens_from(s, 0) == seq![token_at(s, 0, to)] + tokens_from(s, to));
    }
}

/// Tokenizing loses nothing but the dropped characters: the texts of the
/// tokens from a token's first index `from` on, joined, are the characters of
/// `s` from `from` on that are not dropped.
pub proof fn tokenizing_keeps_the_text(s: Seq<char>, from: int)
    requires
        0 <= from <= s.len(),
    ensures
        texts_of(tokens_from(s, from)).flatten() == run_text(s, from, s.len() as int),
    decreases s.len() - from,
{
    let n = s.len() as int;
    if from < n {
        let to = run_end(s, from + 1);
        lemma_run_end_bounds(s, from + 1);
        tokenizing_keeps_the_text(s, to);
        lemma_run_text_split(s, from, to, n);
        let pieces = texts_of(tokens_from(s, from));
        assert(pieces.first() == run_text(s, from, to));
        assert(pieces.drop_first() =~= texts_of(tokens_from(s, to)));
    } else {
        assert(texts_of(tokens_from(s, from)) =~= Seq::<Seq<char>>::empty());
    }
}

/// Cuts `chars` into tokens and appends the sentinel.
pub fn tokenize(chars: &Vec<char>) -> (tokens: Vec<Token>)
    ensures
        token_views(tokens@) == tokens_of(chars@),
        tokens.len() >= 2,
{
    proof {
        lemma_sentinel_is_last(chars@);
    }
    let ghost s = chars@;
    let n = chars.len();
    let mut tokens: Vec<Token> = Vec::new();
    let mut data = String::new();
    let mut line: usize = 1;
    let mut col: usize = 1;
    let mut start_line: usize = 1;
    let mut start_col: usize = 1;
    let mut prev: char = ' ';
    let ghost start: int = 0;
    let mut i: usize = 0;
    while i < n
        invariant
            s == chars@,
            n == s.len(),
            0 <= start <= i <= n,
            i > 0 ==> start < i && prev == s[i - 1],
            forall|j: int| start < j < i ==> !starts_token(s, j),
            data@ == run_text(s, start, i as int),
            line == line_of(s, if i > 0 { i - 1 } else { 0 }),
            col == col_of(s, if i > 0 { i - 1 } else { 0 }),
            start_line == line_of(s, start),
            start_col == col_of(s, start),
            token_views(tokens@) + tokens_from(s, start) == tokens_from(s, 0),
        decreases n - i,
    {
        let c = chars[i];
        if i > 0 {
            proof {
                lemma_place_bounds(s, i as int);
            }
            if prev == '\n' {
                line = line + 1;
                col = 1;
            } else {
                col = col + 1;
            }
            if prev == '\n' || prev == '\r' || is_special_char(prev) != is_special_char(c) || c
                == '#' || c == '[' || c == '(' || c == '!' || c == '\n' || c == '\r' {
                proof {
                    lemma_run_end_is(s, start + 1, i as int);
                    lemma_run_end_bounds(s, i as int + 1);
                    assert(token_views(tokens@.push(Token { data, line: start_line, col: start_col }))
                        =~= token_views(tokens@).push(token_at(s, start, i as int)));
                    assert(token_views(tokens@).push(token_at(s, start, i as int)) + tokens_from(
                        s,
                        i as int,
                    ) =~= token_views(tokens@) + tokens_from(s, start));
                    start = i as int;
                    assert(run_text(s, start, start) =~= Seq::<char>::empty());
                }
                tokens.push(Token { data, line: start_line, col: start_col });
                data = String::new();
                start_line = line;
                start_col = col;
            }
            if !(prev == '#' && is_whitespace(c)) {
                data.push(c);
            }
        } else {
            data.push(c);
        }
        prev = c;
        i = i + 1;
    }
    proof {
        if n > 0 {
            lemma_run_end_is(s, start + 1, n as int);
            assert(tokens_from(s, n as int) =~= Seq::<TokenView>::empty());
            assert(tokens_from(s, start) =~= seq![token_at(s, start, n as int)]);
        }
        assert(token_views(tokens@.push(Token { data, line: start_line, col: start_col }))
            =~= token_views(tokens@).push(token_at(s, start, n as int)));
    }
    tokens.push(Token { data, line: start_line, col: start_col });
    let mut newline = String::new();
    newline.push('\n');
    proof {
        let last = Token { data: newline, line: start_line, col: start_col };
        assert(token_views(tokens@.push(last)) =~= token_views(tokens@).push(
            sentinel(token_at(s, start, n as int)),
        ));
    }
    tokens.push(Token { data: newline, line: start_line, col: start_col });
    tokens
}

} // verus!
