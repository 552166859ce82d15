//! What holds of the converter on whole families of texts and token
//! sequences.

use vstd::prelude::*;
use crate::chars::special;
use crate::grammar::{
    accepts,
    blocks,
    document,
    emphasis,
    hashes,
    header,
    inline_at,
    inlines,
    line_stops,
    node_at,
    raw_until,
    target,
    Failure,
};
use crate::html_of;
use crate::lexer::{
    cuts_of,
    dropped,
    broken_into,
    joint,
    lemma_first_line,
    lemma_pieces_tokens,
    lemma_runs_are_pieces,
    texts_of,
    solid,
    lemma_run_text_kept,
    lemma_run_text_split,
    lemma_tokens_are_runs,
    lemma_tokens_at_cuts,
    line_break,
    run_text,
    runs_at,
    sentinel,
    starts_token,
    token_at,
    tokens_from,
    tokens_of,
    TokenView,
};
use crate::nodes::{
    block_html,
    document_html,
    inline_html,
    inlines_html,
    BlockView,
    InlineView,
    Node,
};
use crate::parser::{FoundView, ParseErrorView};
use crate::strings::{decimal, strip_cr};

verus! {

/// A text without markup-special characters and without line terminators.
pub open spec fn plain(word: Seq<char>) -> bool {
    forall|i: int| 0 <= i < word.len() ==> !special(#[trigger] word[i]) && !line_break(word[i])
}

/// The literals of the grammar, character by character.
pub proof fn lemma_literals()
    ensures
        "\n"@ == seq!['\n'],
        "#"@ == seq!['#'],
        "_"@ == seq!['_'],
        "*"@ == seq!['*'],
        "__"@ == seq!['_', '_'],
        "**"@ == seq!['*', '*'],
        "`"@ == seq!['`'],
        "```"@ == seq!['`', '`', '`'],
        "!"@ == seq!['!'],
        "["@ == seq!['['],
        "]"@ == seq![']'],
        "("@ == seq!['('],
        ")"@ == seq![')'],
{
    reveal_strlit("\n");
    reveal_strlit("#");
    reveal_strlit("_");
    reveal_strlit("*");
    reveal_strlit("__");
    reveal_strlit("**");
    reveal_strlit("`");
    reveal_strlit("```");
    reveal_strlit("!");
    reveal_strlit("[");
    reveal_strlit("]");
    reveal_strlit("(");
    reveal_strlit(")");
    assert("\n"@ =~= seq!['\n']);
    assert("#"@ =~= seq!['#']);
    assert("_"@ =~= seq!['_']);
    assert("*"@ =~= seq!['*']);
    assert("__"@ =~= seq!['_', '_']);
    assert("**"@ =~= seq!['*', '*']);
    assert("`"@ =~= seq!['`']);
    assert("```"@ =~= seq!['`', '`', '`']);
    assert("!"@ =~= seq!['!']);
    assert("["@ =~= seq!['[']);
    assert("]"@ =~= seq![']']);
    assert("("@ =~= seq!['(']);
    assert(")"@ =~= seq![')']);
}

/// A plain text is no literal of the grammar: it is read as text.
pub proof fn lemma_plain_is_text(tokens: Seq<TokenView>, pos: nat, stops: Set<Seq<char>>)
    requires
        pos < tokens.len(),
        plain(tokens[pos as int].text),
    ensures
        tokens[pos as int].text != "\n"@,
        inline_at(tokens, pos, stops) == Ok::<_, Failure>(
            (InlineView::Text { text: tokens[pos as int].text }, (pos + 1) as nat),
        ),
{
    lemma_literals();
    let text = tokens[pos as int].text;
    if text.len() > 0 {
        assert(!special(text[0]) && !line_break(text[0]));
    }
}

/// Nothing is removed from a text without carriage returns.
pub proof fn lemma_strip_cr_keeps(text: Seq<char>)
    requires
        forall|i: int| 0 <= i < text.len() ==> text[i] != '\r',
    ensures
        strip_cr(text) == text,
    decreases text.len(),
{
    reveal(Seq::filter);
    if text.len() > 0 {
        lemma_strip_cr_keeps(text.drop_last());
        assert(text.drop_last().push(text.last()) =~= text);
    }
}

/// A line of plain text that ends at a line feed is one text node.
pub proof fn lemma_plain_line(tokens: Seq<TokenView>, pos: nat)
    requires
        pos + 1 < tokens.len(),
        plain(tokens[pos as int].text),
        tokens[pos as int + 1].text == "\n"@,
    ensures
        inlines(tokens, pos, line_stops()) == Ok::<_, Failure>(
            (seq![InlineView::Text { text: tokens[pos as int].text }], (pos + 1) as nat),
        ),
{
    lemma_plain_is_text(tokens, pos, line_stops());
    let next = (pos + 1) as nat;
    assert(line_stops().contains(tokens[next as int].text));
    assert(inlines(tokens, next, line_stops()) == Ok::<_, Failure>(
        (Seq::<InlineView>::empty(), next),
    ));
    let node = InlineView::Text { text: tokens[pos as int].text };
    assert(seq![node] + Seq::<InlineView>::empty() =~= seq![node]);
}

/// The HTML of one inline node, and of one block.
pub proof fn lemma_html_of_one(node: InlineView, block: BlockView)
    ensures
        inlines_html(seq![node]) == inline_html(node),
        document_html(seq![block]) == block_html(block),
{
    assert(seq![node].drop_last() =~= Seq::<InlineView>::empty());
    assert(inlines_html(seq![node].drop_last()) =~= Seq::<char>::empty());
    assert(inlines_html(seq![node]) =~= inline_html(node));
    assert(seq![block].drop_last() =~= Seq::<BlockView>::empty());
    assert(document_html(seq![block].drop_last()) =~= Seq::<char>::empty());
    assert(document_html(seq![block]) =~= block_html(block));
}

/// `level` times `#`, a space, and `word`.
pub open spec fn header_line(level: nat, word: Seq<char>) -> Seq<char> {
    Seq::new(level, |i: int| '#') + seq![' '] + word
}

/// Where the tokens of a header line begin, and which of its characters are
/// dropped.
proof fn lemma_header_line_starts(level: nat, word: Seq<char>)
    requires
        level >= 1,
        plain(word),
    ensures
        header_line(level, word).len() == level + 1 + word.len(),
        forall|j: int| 0 <= j < level ==> header_line(level, word)[j] == '#',
        forall|j: int| 0 < j <= level ==> starts_token(header_line(level, word), j),
        forall|j: int|
            level < j < header_line(level, word).len() ==> !starts_token(
                header_line(level, word),
                j,
            ),
        forall|j: int|
            0 <= j < header_line(level, word).len() && j != level ==> !dropped(
                header_line(level, word),
                j,
            ),
        dropped(header_line(level, word), level as int),
        header_line(level, word).subrange(level as int + 1, header_line(level, word).len() as int)
            == word,
{
    let s = header_line(level, word);
    let l = level as int;
    assert forall|j: int| l < j < s.len() implies !special(s[j]) && !line_break(s[j]) by {
        assert(s[j] == word[j - l - 1]);
    }
    assert forall|j: int| l < j < s.len() implies !starts_token(s, j) by {
        assert(!special(s[j]) && !line_break(s[j]));
        if j - 1 > l {
            assert(!special(s[j - 1]) && !line_break(s[j - 1]));
        }
    }
    assert forall|j: int| 0 <= j < s.len() && j != l implies !dropped(s, j) by {
        if j > l + 1 {
            assert(!special(s[j - 1]));
        }
    }
    assert(s.subrange(l + 1, s.len() as int) =~= word);
}

/// The tokens of a header line: each `#`, the word, and the sentinel.
pub proof fn lemma_header_line_tokens(level: nat, word: Seq<char>)
    requires
        level >= 1,
        plain(word),
    ensures
        tokens_of(header_line(level, word)).len() == level + 2,
        forall|k: int|
            0 <= k < level ==> (#[trigger] tokens_of(header_line(level, word))[k]).text == "#"@,
        tokens_of(header_line(level, word))[level as int].text == word,
        tokens_of(header_line(level, word))[level as int + 1].text == "\n"@,
{
    lemma_literals();
    lemma_header_line_starts(level, word);
    let s = header_line(level, word);
    let n = s.len() as int;
    let l = level as int;
    let cuts = Seq::new(level + 2, |k: int| if k <= l { k } else { n });
    assert(cuts_of(s, cuts)) by {
        assert forall|k: int, j: int|
            #![trigger cuts[k], starts_token(s, j)]
            0 <= k < cuts.len() - 1 && cuts[k] < j < cuts[k + 1] implies !starts_token(s, j) by {
            assert(k == l);
        }
    }
    lemma_tokens_are_runs(s, cuts, 0);
    let runs = runs_at(s, cuts, 0);
    assert(tokens_of(s) == runs.push(sentinel(runs.last())));
    assert forall|k: int| 0 <= k < l implies (#[trigger] tokens_of(s)[k]).text == "#"@ by {
        assert(runs[k] == token_at(s, cuts[0 + k], cuts[0 + k + 1]));
        lemma_run_text_kept(s, k, k + 1);
        assert(s.subrange(k, k + 1) =~= seq!['#']);
    }
    assert(runs[l] == token_at(s, cuts[0 + l], cuts[0 + l + 1]));
    lemma_run_text_split(s, l, l + 1, n);
    assert(run_text(s, l, l + 1) =~= Seq::<char>::empty()) by {
        assert(run_text(s, l, l) =~= Seq::<char>::empty());
    }
    lemma_run_text_kept(s, l + 1, n);
    assert(run_text(s, l, n) =~= word);
}

/// `count` tokens `#` in a row are counted as such.
pub proof fn lemma_hashes_counted(tokens: Seq<TokenView>, pos: nat, end: nat)
    requires
        pos <= end < tokens.len(),
        forall|k: int| pos <= k < end ==> (#[trigger] tokens[k]).text == "#"@,
        tokens[end as int].text != "#"@,
    ensures
        hashes(tokens, pos) == end - pos,
    decreases end - pos,
{
    if pos < end {
        assert(tokens[pos as int].text == "#"@);
        lemma_hashes_counted(tokens, (pos + 1) as nat, end);
    }
}

/// A header line of any level renders to a header of that level: for every
/// level from 1 on and every plain word, the text made of that many `#`, a
/// space and the word becomes `<hN>`, the word, `</hN>` and a line feed, where
/// `N` is the level in decimal.
pub proof fn header_renders_its_level(level: nat, word: Seq<char>)
    requires
        level >= 1,
        plain(word),
    ensures
        html_of(header_line(level, word)) == Ok::<_, ParseErrorView>(
            "<h"@ + decimal(level) + ">"@ + word + "</h"@ + decimal(level) + ">\n"@,
        ),
{
    lemma_literals();
    lemma_header_line_tokens(level, word);
    let tokens = tokens_of(header_line(level, word));
    let text = InlineView::Text { text: word };
    let node = BlockView::Header { level, children: seq![text] };
    assert(tokens[0].text == "#"@);
    assert(tokens[level as int].text != "#"@) by {
        if word.len() > 0 {
            assert(!special(word[0]));
        }
    }
    lemma_hashes_counted(tokens, 1, level);
    lemma_plain_line(tokens, level);
    assert(header(tokens, 1) == Ok::<_, Failure>((node, (level + 1) as nat)));
    assert(node_at(tokens, 0) == Ok::<_, Failure>((Some(node), (level + 1) as nat)));
    assert(blocks(tokens, (level + 1) as nat) == Ok::<_, Failure>(
        (Seq::<BlockView>::empty(), (level + 1) as nat),
    ));
    assert(seq![node] + Seq::<BlockView>::empty() =~= seq![node]);
    assert(blocks(tokens, 0) == Ok::<_, Failure>((seq![node], (level + 1) as nat)));
    lemma_html_of_one(text, node);
    assert forall|i: int| 0 <= i < word.len() implies word[i] != '\r' by {
        assert(!line_break(word[i]));
    }
    lemma_strip_cr_keeps(word);
}

/// In a text without `#` no character is dropped.
pub proof fn lemma_nothing_dropped(s: Seq<char>)
    requires
        forall|j: int| 0 <= j < s.len() ==> s[j] != '#',
    ensures
        forall|j: int| 0 <= j < s.len() ==> !dropped(s, j),
{
}

/// A plain text that is not empty is no literal at which a block begins: it
/// begins a paragraph.
pub proof fn lemma_plain_opens_paragraph(tokens: Seq<TokenView>, pos: nat)
    requires
        pos < tokens.len(),
        plain(tokens[pos as int].text),
    ensures
        !accepts(tokens, pos, "#"@),
        !accepts(tokens, pos, "```"@),
        !accepts(tokens, pos, "!"@),
        !accepts(tokens, pos, "\n"@),
{
    lemma_literals();
    let text = tokens[pos as int].text;
    if text.len() > 0 {
        assert(!special(text[0]) && !line_break(text[0]));
    }
}

/// Two lines of plain text with an empty line between them.
pub open spec fn two_lines(first: Seq<char>, second: Seq<char>) -> Seq<char> {
    first + seq!['\n', '\n'] + second
}

/// The tokens of two lines with an empty line between them: the first line,
/// two line feeds, the second line, and the sentinel.
proof fn lemma_two_lines_tokens(first: Seq<char>, second: Seq<char>)
    requires
        plain(first),
        plain(second),
        first.len() > 0,
        second.len() > 0,
    ensures
        tokens_of(two_lines(first, second)).len() == 5,
        tokens_of(two_lines(first, second))[0].text == first,
        tokens_of(two_lines(first, second))[1].text == "\n"@,
        tokens_of(two_lines(first, second))[2].text == "\n"@,
        tokens_of(two_lines(first, second))[3].text == second,
        tokens_of(two_lines(first, second))[4].text == "\n"@,
{
    lemma_literals();
    let s = two_lines(first, second);
    let a = first.len() as int;
    let n = s.len() as int;
    assert forall|j: int| 0 <= j < n && j != a && j != a + 1 implies !special(s[j])
        && !line_break(s[j]) by {
        if j < a {
            assert(s[j] == first[j]);
        } else {
            assert(s[j] == second[j - a - 2]);
        }
    }
    lemma_nothing_dropped(s);
    let cuts = seq![0, a, a + 1, a + 2, n];
    assert(cuts_of(s, cuts)) by {
        assert forall|k: int, j: int|
            #![trigger cuts[k], starts_token(s, j)]
            0 <= k < cuts.len() - 1 && cuts[k] < j < cuts[k + 1] implies !starts_token(s, j) by {
            assert(k == 0 || k == 3);
            assert(!special(s[j]) && !line_break(s[j]));
            assert(!special(s[j - 1]) && !line_break(s[j - 1]));
        }
    }
    lemma_tokens_at_cuts(s, cuts);
    let tokens = tokens_of(s);
    assert(tokens[0].text == s.subrange(cuts[0], cuts[0 + 1int]));
    assert(tokens[1].text == s.subrange(cuts[1], cuts[1 + 1int]));
    assert(tokens[2].text == s.subrange(cuts[2], cuts[2 + 1int]));
    assert(tokens[3].text == s.subrange(cuts[3], cuts[3 + 1int]));
    assert(s.subrange(0, a) =~= first);
    assert(s.subrange(a, a + 1) =~= seq!['\n']);
    assert(s.subrange(a + 1, a + 2) =~= seq!['\n']);
    assert(s.subrange(a + 2, n) =~= second);
}

/// Two paragraphs with an empty line between them render to two paragraphs,
/// in their order: for plain texts `first` and `second`, neither empty, the
/// text `first`, two line feeds, `second` becomes `<p>first</p>`, two line
/// feeds, `<p>second</p>`, two line feeds.
pub proof fn paragraphs_stay_apart(first: Seq<char>, second: Seq<char>)
    requires
        plain(first),
        plain(second),
        first.len() > 0,
        second.len() > 0,
    ensures
        html_of(two_lines(first, second)) == Ok::<_, ParseErrorView>(
            "<p>"@ + first + "</p>\n\n"@ + ("<p>"@ + second + "</p>\n\n"@),
        ),
{
    lemma_literals();
    lemma_two_lines_tokens(first, second);
    let tokens = tokens_of(two_lines(first, second));
    let one = InlineView::Text { text: first };
    let two = InlineView::Text { text: second };
    let upper = BlockView::Paragraph { children: seq![one] };
    let lower = BlockView::Paragraph { children: seq![two] };
    let none = Seq::<BlockView>::empty();
    lemma_plain_opens_paragraph(tokens, 0);
    lemma_plain_line(tokens, 0);
    lemma_plain_opens_paragraph(tokens, 3);
    lemma_plain_line(tokens, 3);
    assert(blocks(tokens, 4) == Ok::<_, Failure>((none, 4nat)));
    assert(node_at(tokens, 3) == Ok::<_, Failure>((Some(lower), 4nat)));
    assert(seq![lower] + none =~= seq![lower]);
    assert(blocks(tokens, 3) == Ok::<_, Failure>((seq![lower], 4nat)));
    assert("\n"@[0] == '\n' && "#"@[0] == '#' && "```"@[0] == '`' && "!"@[0] == '!');
    assert(node_at(tokens, 2) == Ok::<_, Failure>((None::<BlockView>, 3nat)));
    assert(blocks(tokens, 2) == Ok::<_, Failure>((seq![lower], 4nat)));
    assert(node_at(tokens, 1) == Ok::<_, Failure>((None::<BlockView>, 2nat)));
    assert(blocks(tokens, 1) == Ok::<_, Failure>((seq![lower], 4nat)));
    assert(node_at(tokens, 0) == Ok::<_, Failure>((Some(upper), 1nat)));
    assert(seq![upper] + seq![lower] =~= seq![upper, lower]);
    assert(blocks(tokens, 0) == Ok::<_, Failure>((seq![upper, lower], 4nat)));
    lemma_html_of_one(one, upper);
    lemma_html_of_one(two, lower);
    assert(seq![upper, lower].drop_last() =~= seq![upper]);
    assert(document_html(seq![upper, lower]) == document_html(seq![upper]) + block_html(lower));
    assert forall|i: int| 0 <= i < first.len() implies first[i] != '\r' by {
        assert(!line_break(first[i]));
    }
    assert forall|i: int| 0 <= i < second.len() implies second[i] != '\r' by {
        assert(!line_break(second[i]));
    }
    lemma_strip_cr_keeps(first);
    lemma_strip_cr_keeps(second);
}

/// An emphasis mark: `*` or `_`.
pub open spec fn emphasis_mark(c: char) -> bool {
    c == '*' || c == '_'
}

/// The tokens of a mark and a plain word: the mark, the word unless it is
/// empty, and the sentinel, all in line 1.
proof fn lemma_marked_word_tokens(mark: char, word: Seq<char>)
    requires
        emphasis_mark(mark),
        plain(word),
    ensures
        word.len() > 0 ==> {
            &&& tokens_of(seq![mark] + word).len() == 3
            &&& tokens_of(seq![mark] + word)[0].text == seq![mark]
            &&& tokens_of(seq![mark] + word)[1].text == word
            &&& tokens_of(seq![mark] + word)[2] == (TokenView {
                text: "\n"@,
                line: 1,
                col: 2,
            })
        },
        word.len() == 0 ==> {
            &&& tokens_of(seq![mark] + word).len() == 2
            &&& tokens_of(seq![mark] + word)[0].text == seq![mark]
            &&& tokens_of(seq![mark] + word)[1] == (TokenView { text: "\n"@, line: 1, col: 1 })
        },
{
    lemma_literals();
    let s = seq![mark] + word;
    let n = s.len() as int;
    assert forall|j: int| 1 <= j < n implies !special(s[j]) && !line_break(s[j]) by {
        assert(s[j] == word[j - 1]);
    }
    lemma_nothing_dropped(s);
    lemma_first_line(s, 0);
    if word.len() > 0 {
        let cuts = seq![0, 1, n];
        assert(cuts_of(s, cuts)) by {
            assert forall|k: int, j: int|
                #![trigger cuts[k], starts_token(s, j)]
                0 <= k < cuts.len() - 1 && cuts[k] < j < cuts[k + 1] implies !starts_token(
                s,
                j,
            ) by {
                assert(k == 1);
                assert(!special(s[j]) && !line_break(s[j]));
                assert(!special(s[j - 1]) && !line_break(s[j - 1]));
            }
        }
        lemma_tokens_at_cuts(s, cuts);
        let tokens = tokens_of(s);
        assert(tokens[0].text == s.subrange(cuts[0], cuts[0 + 1int]));
        assert(tokens[1].text == s.subrange(cuts[1], cuts[1 + 1int]));
        assert(s.subrange(0, 1) =~= seq![mark]);
        assert(s.subrange(1, n) =~= word);
        lemma_first_line(s, 1);
    } else {
        let cuts = seq![0, n];
        assert(cuts_of(s, cuts));
        lemma_tokens_at_cuts(s, cuts);
        let tokens = tokens_of(s);
        assert(tokens[0].text == s.subrange(cuts[0], cuts[0 + 1int]));
        assert(s.subrange(0, 1) =~= seq![mark]);
    }
}

/// An emphasis that is not closed before the end of its line fails: where the
/// inline nodes behind the opening token end at a token that is neither of the
/// two closing literals, the parse fails at that token, and the second literal
/// is the one that was expected.
pub proof fn unclosed_emphasis_fails_at_stop(
    tokens: Seq<TokenView>,
    pos: nat,
    stops: Set<Seq<char>>,
    close: Seq<char>,
    other: Seq<char>,
)
    requires
        inlines(tokens, pos, stops.insert(close).insert(other)) matches Ok((_, end))
            && tokens[end as int].text != close && tokens[end as int].text != other,
    ensures
        inlines(tokens, pos, stops.insert(close).insert(other)) matches Ok((_, end)) && emphasis(
            tokens,
            pos,
            stops,
            close,
            other,
        ) == Err::<(Seq<InlineView>, nat), _>(Failure { at: end, expected: other }),
{
}

/// An emphasis mark and a word without the closing mark give an error, and
/// nothing is rendered: for a mark `*` or `_` and a plain word, the text made
/// of the mark and the word fails at the end of the line, where `_` was
/// expected and text was found.
pub proof fn unclosed_emphasis_fails(mark: char, word: Seq<char>)
    requires
        emphasis_mark(mark),
        plain(word),
    ensures
        html_of(seq![mark] + word) == Err::<Seq<char>, _>(
            ParseErrorView {
                line: 1,
                col: if word.len() > 0 {
                    2
                } else {
                    1
                },
                expected: "_"@,
                found: FoundView::Text,
            },
        ),
{
    lemma_literals();
    lemma_marked_word_tokens(mark, word);
    let tokens = tokens_of(seq![mark] + word);
    let stops = line_stops().insert("*"@).insert("_"@);
    assert(tokens[0].text == "*"@ || tokens[0].text == "_"@);
    let last = (tokens.len() - 1) as nat;
    assert(stops.contains(tokens[last as int].text));
    assert(inlines(tokens, last, stops) == Ok::<_, Failure>((Seq::<InlineView>::empty(), last)));
    if word.len() > 0 {
        lemma_plain_is_text(tokens, 1, stops);
        assert(!stops.contains(word)) by {
            assert(!special(word[0]) && !line_break(word[0]));
        }
        assert(inlines(tokens, 1, stops) matches Ok((_, end)) && end == 2);
    }
    assert(!accepts(tokens, last, "*"@) && !accepts(tokens, last, "_"@)) by {
        assert("\n"@[0] == '\n' && "*"@[0] == '*' && "_"@[0] == '_');
    }
    assert(emphasis(tokens, 1, line_stops(), "*"@, "_"@) == Err::<(Seq<InlineView>, nat), _>(
        Failure { at: last, expected: "_"@ },
    ));
    assert(!line_stops().contains(tokens[0].text)) by {
        assert("\n"@[0] == '\n' && tokens[0].text[0] == mark);
    }
    assert(inline_at(tokens, 0, line_stops()) == Err::<(InlineView, nat), _>(
        Failure { at: last, expected: "_"@ },
    ));
    assert(inlines(tokens, 0, line_stops()) == Err::<(Seq<InlineView>, nat), _>(
        Failure { at: last, expected: "_"@ },
    ));
    assert(node_at(tokens, 0) == Err::<(Option<BlockView>, nat), _>(
        Failure { at: last, expected: "_"@ },
    ));
    assert(blocks(tokens, 0) == Err::<(Seq<BlockView>, nat), _>(
        Failure { at: last, expected: "_"@ },
    ));
    assert(!special('\n'));
}

/// The texts of the tokens from `from` up to `to`, joined.
pub open spec fn joined_texts(tokens: Seq<TokenView>, from: nat, to: nat) -> Seq<char>
    decreases to - from,
{
    if from >= to {
        Seq::empty()
    } else {
        tokens[from as int].text + joined_texts(tokens, (from + 1) as nat, to)
    }
}

/// Raw text is kept as it is: where the first token from `pos` on that is
/// `close` stands at `end`, the raw text is made of every token between the
/// two, whatever it holds, and the parse goes on behind `end`.
pub proof fn raw_text_is_verbatim(tokens: Seq<TokenView>, pos: nat, end: nat, close: Seq<char>)
    requires
        pos <= end < tokens.len(),
        tokens[end as int].text == close,
        forall|k: int| pos <= k < end ==> (#[trigger] tokens[k]).text != close,
    ensures
        raw_until(tokens, pos, close) == Ok::<_, Failure>(
            (joined_texts(tokens, pos, end), (end + 1) as nat),
        ),
    decreases end - pos,
{
    if pos < end {
        assert(tokens[pos as int].text != close);
        raw_text_is_verbatim(tokens, (pos + 1) as nat, end, close);
    }
}

/// A code span renders verbatim: a token `` ` ``, any tokens that are not
/// `` ` ``, and a token `` ` `` are read as one code span, which renders to
/// `<code>`, the texts of the tokens between the two, and `</code>`.
pub proof fn code_span_is_verbatim(
    tokens: Seq<TokenView>,
    pos: nat,
    end: nat,
    stops: Set<Seq<char>>,
)
    requires
        pos < end < tokens.len(),
        tokens[pos as int].text == "`"@,
        tokens[end as int].text == "`"@,
        forall|k: int| pos < k < end ==> (#[trigger] tokens[k]).text != "`"@,
    ensures
        inline_at(tokens, pos, stops) matches Ok((node, next)) && next == end + 1 && inline_html(
            node,
        ) == "<code>"@ + joined_texts(tokens, (pos + 1) as nat, end) + "</code>"@,
{
    lemma_literals();
    raw_text_is_verbatim(tokens, (pos + 1) as nat, end, "`"@);
    assert("`"@[0] == '`' && "_"@[0] == '_' && "*"@[0] == '*' && "__"@[0] == '_' && "**"@[0]
        == '*');
}

/// A fenced code block renders verbatim: a token `` ``` ``, any tokens that
/// are not `` ``` ``, and a token `` ``` `` are read as one code block, which
/// renders to `<pre><code>`, the texts of the tokens between the two,
/// `</code></pre>` and two line feeds.
pub proof fn code_block_is_verbatim(tokens: Seq<TokenView>, pos: nat, end: nat)
    requires
        pos < end < tokens.len(),
        tokens[pos as int].text == "```"@,
        tokens[end as int].text == "```"@,
        forall|k: int| pos < k < end ==> (#[trigger] tokens[k]).text != "```"@,
    ensures
        node_at(tokens, pos) matches Ok((Some(node), next)) && next == end + 1 && block_html(node)
            == "<pre><code>"@ + joined_texts(tokens, (pos + 1) as nat, end)
            + "</code></pre>\n\n"@,
{
    lemma_literals();
    raw_text_is_verbatim(tokens, (pos + 1) as nat, end, "```"@);
    assert("```"@[0] == '`' && "#"@[0] == '#');
}

/// Rendering is a function of the tree: whatever two calls of `get_string`
/// return for the same node, the two strings hold the same characters.
pub proof fn rendering_is_repeatable<N: Node>(node: N, first: String, second: String)
    requires
        call_ensures(N::get_string, (&node,), first),
        call_ensures(N::get_string, (&node,), second),
    ensures
        first@ == second@,
{
}

/// A plain text that is not empty is solid, and a token begins where it
/// meets a markup-special character, before it or behind it.
pub proof fn lemma_plain_solid(word: Seq<char>, mark: char)
    requires
        plain(word),
        word.len() > 0,
        special(mark),
    ensures
        solid(word),
        joint(mark, word[0]),
        joint(word.last(), mark),
        forall|i: int| 0 <= i < word.len() ==> word[i] != '#',
{
    assert(!special(word[0]) && !special(word.last()));
    assert forall|i: int| 0 < i < word.len() implies !joint(word[i - 1], #[trigger] word[i]) by {
        assert(!special(word[i - 1]) && !line_break(word[i - 1]));
        assert(!special(word[i]) && !line_break(word[i]));
    }
    assert forall|i: int| 0 <= i < word.len() implies word[i] != '#' by {
        assert(!special(word[i]));
    }
}

/// Nothing is removed from a plain text.
pub proof fn lemma_plain_keeps(word: Seq<char>)
    requires
        plain(word),
    ensures
        strip_cr(word) == word,
{
    assert forall|i: int| 0 <= i < word.len() implies word[i] != '\r' by {
        assert(!line_break(word[i]));
    }
    lemma_strip_cr_keeps(word);
}

/// A word between two emphasis marks: the tokens are the opening run, the
/// word, the closing run, and the sentinel.
proof fn lemma_enclosed_word_tokens(open: Seq<char>, word: Seq<char>, close: Seq<char>)
    requires
        plain(word),
        word.len() > 0,
        open == seq![open[0]] || open == seq![open[0], open[0]],
        close == seq![close[0]] || close == seq![close[0], close[0]],
        emphasis_mark(open[0]),
        emphasis_mark(close[0]),
    ensures
        tokens_of(open + word + close).len() == 4,
        tokens_of(open + word + close)[0].text == open,
        tokens_of(open + word + close)[1].text == word,
        tokens_of(open + word + close)[2].text == close,
        tokens_of(open + word + close)[3].text == "\n"@,
{
    lemma_literals();
    let pieces = seq![open, word, close];
    reveal_with_fuel(Seq::flatten, 4);
    assert(pieces.flatten() =~= open + word + close);
    let s = pieces.flatten();
    lemma_plain_solid(word, open[0]);
    lemma_plain_solid(word, close[0]);
    assert(solid(open));
    assert(solid(close));
    assert(broken_into(pieces)) by {
        assert(pieces[0] == open && pieces[1] == word && pieces[2] == close);
        assert(open.last() == open[0]);
    }
    assert forall|j: int| 0 <= j < s.len() implies s[j] != '#' by {
        if j < open.len() {
            assert(s[j] == open[j]);
        } else if j < open.len() + word.len() {
            assert(s[j] == word[j - open.len()]);
        } else {
            assert(s[j] == close[j - open.len() - word.len()]);
        }
    }
    lemma_nothing_dropped(s);
    lemma_pieces_tokens(pieces);
    let tokens = tokens_of(s);
    assert(tokens[0].text == pieces[0]);
    assert(tokens[1].text == pieces[1]);
    assert(tokens[2].text == pieces[2]);
}

/// A paragraph that is one emphasis around one plain word, on tokens: the
/// opening token is one of the two literals of its kind, and so is the closing
/// token.
proof fn lemma_enclosed_word_parses(tokens: Seq<TokenView>, close: Seq<char>, other: Seq<char>)
    requires
        tokens.len() == 4,
        tokens[0].text == close || tokens[0].text == other,
        tokens[2].text == close || tokens[2].text == other,
        plain(tokens[1].text),
        tokens[1].text.len() > 0,
        tokens[3].text == "\n"@,
        (close == "*"@ && other == "_"@) || (close == "**"@ && other == "__"@),
    ensures
        emphasis(tokens, 1, line_stops(), close, other) == Ok::<_, Failure>(
            (seq![InlineView::Text { text: tokens[1].text }], 3nat),
        ),
        !line_stops().contains(tokens[0].text),
        inlines(tokens, 3, line_stops()) == Ok::<_, Failure>((Seq::<InlineView>::empty(), 3nat)),
        !accepts(tokens, 0, "#"@),
        !accepts(tokens, 0, "```"@),
        !accepts(tokens, 0, "!"@),
        !accepts(tokens, 0, "\n"@),
{
    lemma_literals();
    let stops = line_stops().insert(close).insert(other);
    let word = tokens[1].text;
    let node = InlineView::Text { text: word };
    assert(!special(word[0]) && !line_break(word[0]));
    assert(close[0] == '*' && other[0] == '_' && "\n"@[0] == '\n' && "#"@[0] == '#' && "!"@[0]
        == '!' && "```"@[0] == '`');
    assert(!stops.contains(word));
    lemma_plain_is_text(tokens, 1, stops);
    assert(stops.contains(tokens[2].text));
    assert(inlines(tokens, 2, stops) == Ok::<_, Failure>((Seq::<InlineView>::empty(), 2nat)));
    assert(seq![node] + Seq::<InlineView>::empty() =~= seq![node]);
    assert(inlines(tokens, 1, stops) == Ok::<_, Failure>((seq![node], 2nat)));
    assert(line_stops().contains(tokens[3].text));
}

/// The block list of a text that is one block up to the sentinel.
proof fn lemma_one_block(tokens: Seq<TokenView>, block: BlockView)
    requires
        tokens.len() >= 2,
        node_at(tokens, 0) == Ok::<_, Failure>((Some(block), (tokens.len() - 1) as nat)),
    ensures
        document(tokens) == Ok::<_, Failure>(seq![block]),
        document_html(seq![block]) == block_html(block),
{
    let last = (tokens.len() - 1) as nat;
    assert(blocks(tokens, last) == Ok::<_, Failure>((Seq::<BlockView>::empty(), last)));
    assert(seq![block] + Seq::<BlockView>::empty() =~= seq![block]);
    assert(blocks(tokens, 0) == Ok::<_, Failure>((seq![block], last)));
    lemma_html_of_one(InlineView::Text { text: Seq::empty() }, block);
}

/// A word between emphasis marks renders as emphasis, whichever of the two
/// marks opens and whichever closes: for marks `*` or `_` and a plain word
/// that is not empty, the text made of a mark, the word and a mark becomes a
/// paragraph that holds `<em>`, the word and `</em>`.
pub proof fn word_is_emphasized(open: char, word: Seq<char>, close: char)
    requires
        emphasis_mark(open),
        emphasis_mark(close),
        plain(word),
        word.len() > 0,
    ensures
        html_of(seq![open] + word + seq![close]) == Ok::<_, ParseErrorView>(
            "<p>"@ + ("<em>"@ + word + "</em>"@) + "</p>\n\n"@,
        ),
{
    lemma_literals();
    lemma_enclosed_word_tokens(seq![open], word, seq![close]);
    let tokens = tokens_of(seq![open] + word + seq![close]);
    lemma_enclosed_word_parses(tokens, "*"@, "_"@);
    let text = InlineView::Text { text: word };
    let node = InlineView::Italic { children: seq![text] };
    let block = BlockView::Paragraph { children: seq![node] };
    assert(inline_at(tokens, 0, line_stops()) == Ok::<_, Failure>((node, 3nat)));
    assert(seq![node] + Seq::<InlineView>::empty() =~= seq![node]);
    assert(inlines(tokens, 0, line_stops()) == Ok::<_, Failure>((seq![node], 3nat)));
    assert(node_at(tokens, 0) == Ok::<_, Failure>((Some(block), 3nat)));
    lemma_one_block(tokens, block);
    lemma_html_of_one(text, block);
    lemma_html_of_one(node, block);
    lemma_plain_keeps(word);
}

/// A word between strong-emphasis marks renders as strong emphasis,
/// whichever of the two marks opens and whichever closes: for marks `*` or
/// `_` and a plain word that is not empty, the text made of a mark twice, the
/// word and a mark twice becomes a paragraph that holds `<strong>`, the word
/// and `</strong>`.
pub proof fn word_is_strongly_emphasized(open: char, word: Seq<char>, close: char)
    requires
        emphasis_mark(open),
        emphasis_mark(close),
        plain(word),
        word.len() > 0,
    ensures
        html_of(seq![open, open] + word + seq![close, close]) == Ok::<_, ParseErrorView>(
            "<p>"@ + ("<strong>"@ + word + "</strong>"@) + "</p>\n\n"@,
        ),
{
    lemma_literals();
    lemma_enclosed_word_tokens(seq![open, open], word, seq![close, close]);
    let tokens = tokens_of(seq![open, open] + word + seq![close, close]);
    assert(seq![open, open] =~= "**"@ || seq![open, open] =~= "__"@);
    assert(seq![close, close] =~= "**"@ || seq![close, close] =~= "__"@);
    lemma_enclosed_word_parses(tokens, "**"@, "__"@);
    let text = InlineView::Text { text: word };
    let node = InlineView::Bold { children: seq![text] };
    let block = BlockView::Paragraph { children: seq![node] };
    assert(tokens[0].text != "_"@ && tokens[0].text != "*"@) by {
        assert(tokens[0].text.len() == 2 && "_"@.len() == 1 && "*"@.len() == 1);
    }
    assert(inline_at(tokens, 0, line_stops()) == Ok::<_, Failure>((node, 3nat)));
    assert(seq![node] + Seq::<InlineView>::empty() =~= seq![node]);
    assert(inlines(tokens, 0, line_stops()) == Ok::<_, Failure>((seq![node], 3nat)));
    assert(node_at(tokens, 0) == Ok::<_, Failure>((Some(block), 3nat)));
    lemma_one_block(tokens, block);
    lemma_html_of_one(text, block);
    lemma_html_of_one(node, block);
    lemma_plain_keeps(word);
}

/// No character of a text made of the pieces `pieces` is dropped, where none
/// of the pieces holds a `#`.
proof fn lemma_pieces_keep_all(pieces: Seq<Seq<char>>)
    requires
        forall|k: int, i: int|
            0 <= k < pieces.len() && 0 <= i < pieces[k].len() ==> (#[trigger] pieces[k][i]) != '#',
    ensures
        forall|j: int| 0 <= j < pieces.flatten().len() ==> pieces.flatten()[j] != '#',
        forall|j: int| 0 <= j < pieces.flatten().len() ==> !dropped(pieces.flatten(), j),
    decreases pieces.len(),
{
    let s = pieces.flatten();
    if pieces.len() > 0 {
        let rest = pieces.drop_first();
        assert forall|k: int, i: int| 0 <= k < rest.len() && 0 <= i < rest[k].len() implies (
        #[trigger] rest[k][i]) != '#' by {
            assert(rest[k][i] == pieces[k + 1][i]);
        }
        lemma_pieces_keep_all(rest);
        assert(s == pieces.first() + rest.flatten());
        assert forall|j: int| 0 <= j < s.len() implies s[j] != '#' by {
            if j < pieces.first().len() {
                assert(s[j] == pieces[0][j]);
            } else {
                assert(s[j] == rest.flatten()[j - pieces.first().len()]);
            }
        }
    } else {
        assert(s =~= Seq::<char>::empty());
    }
    lemma_nothing_dropped(s);
}

/// The text of an image: `![`, the alternative text, `](`, the source, `)`.
pub open spec fn image_text(alt: Seq<char>, url: Seq<char>) -> Seq<char> {
    seq!['!', '['] + alt + seq![']', '('] + url + seq![')']
}

/// The text of a link: `[`, the text, `](`, the target, `)`.
pub open spec fn link_text(text: Seq<char>, url: Seq<char>) -> Seq<char> {
    seq!['['] + text + seq![']', '('] + url + seq![')']
}

/// The tokens of a link, behind the tokens `lead`, each of which is one
/// markup-special character: these, `[`, the text, `]`, `(`, the target, `)`,
/// and the sentinel.
proof fn lemma_link_tokens(lead: Seq<char>, text: Seq<char>, url: Seq<char>)
    requires
        plain(text),
        plain(url),
        text.len() > 0,
        url.len() > 0,
        lead.len() == 0 || lead == seq!['!'],
    ensures
        tokens_of(lead + link_text(text, url)).len() == lead.len() + 7,
        lead.len() == 1 ==> tokens_of(lead + link_text(text, url))[0].text == "!"@,
        tokens_of(lead + link_text(text, url))[lead.len() as int].text == "["@,
        tokens_of(lead + link_text(text, url))[lead.len() as int + 1].text == text,
        tokens_of(lead + link_text(text, url))[lead.len() as int + 2].text == "]"@,
        tokens_of(lead + link_text(text, url))[lead.len() as int + 3].text == "("@,
        tokens_of(lead + link_text(text, url))[lead.len() as int + 4].text == url,
        tokens_of(lead + link_text(text, url))[lead.len() as int + 5].text == ")"@,
        tokens_of(lead + link_text(text, url))[lead.len() as int + 6].text == "\n"@,
{
    lemma_literals();
    let tail = seq![seq!['['], text, seq![']'], seq!['('], url, seq![')']];
    let pieces = if lead.len() == 0 {
        tail
    } else {
        seq![lead] + tail
    };
    reveal_with_fuel(Seq::flatten, 8);
    assert(tail.flatten() =~= link_text(text, url));
    assert(pieces.flatten() =~= lead + link_text(text, url)) by {
        if lead.len() > 0 {
            assert(pieces.drop_first() =~= tail);
            assert(pieces.flatten() == lead + tail.flatten());
        } else {
            assert(lead + link_text(text, url) =~= link_text(text, url));
        }
    }
    lemma_plain_solid(text, '[');
    lemma_plain_solid(text, ']');
    lemma_plain_solid(url, '(');
    lemma_plain_solid(url, ')');
    let n = lead.len() as int;
    assert(pieces[n] == seq!['['] && pieces[n + 1] == text && pieces[n + 2] == seq![']']
        && pieces[n + 3] == seq!['('] && pieces[n + 4] == url && pieces[n + 5] == seq![')']);
    assert(broken_into(pieces)) by {
        assert forall|k: int| 0 <= k < pieces.len() implies solid(#[trigger] pieces[k]) by {
            if k < n {
                assert(pieces[k] == lead);
            }
        }
        assert forall|k: int| 0 < k < pieces.len() implies joint(
            pieces[k - 1].last(),
            (#[trigger] pieces[k])[0],
        ) by {
            if k == n {
                assert(pieces[k - 1] == lead);
            }
        }
    }
    assert forall|k: int, i: int| 0 <= k < pieces.len() && 0 <= i < pieces[k].len() implies (
    #[trigger] pieces[k][i]) != '#' by {
        if k < n {
            assert(pieces[k] == lead);
        }
    }
    lemma_pieces_keep_all(pieces);
    lemma_pieces_tokens(pieces);
    let tokens = tokens_of(pieces.flatten());
    assert(tokens[n].text == pieces[n]);
    assert(tokens[n + 1].text == pieces[n + 1]);
    assert(tokens[n + 2].text == pieces[n + 2]);
    assert(tokens[n + 3].text == pieces[n + 3]);
    assert(tokens[n + 4].text == pieces[n + 4]);
    assert(tokens[n + 5].text == pieces[n + 5]);
    if n == 1 {
        assert(tokens[0].text == pieces[0]);
    }
}

/// A text and a target between their delimiters are read as they stand.
proof fn lemma_target_read(tokens: Seq<TokenView>, pos: nat)
    requires
        pos + 5 <= tokens.len(),
        tokens[pos as int + 1].text == "]"@,
        tokens[pos as int + 2].text == "("@,
        tokens[pos as int + 4].text == ")"@,
    ensures
        target(tokens, pos) == Ok::<_, Failure>(
            ((tokens[pos as int].text, tokens[pos as int + 3].text), (pos + 5) as nat),
        ),
{
}

/// An image renders its source and its alternative text: for plain texts
/// `alt` and `url`, neither empty, the text `![alt](url)` becomes
/// `<img src="url" alt="alt" />` and two line feeds.
pub proof fn image_renders_source_and_text(alt: Seq<char>, url: Seq<char>)
    requires
        plain(alt),
        plain(url),
        alt.len() > 0,
        url.len() > 0,
    ensures
        html_of(image_text(alt, url)) == Ok::<_, ParseErrorView>(
            "<img src=\""@ + url + "\" alt=\""@ + alt + "\" />\n\n"@,
        ),
{
    lemma_literals();
    lemma_link_tokens(seq!['!'], alt, url);
    assert(seq!['!'] + link_text(alt, url) =~= image_text(alt, url));
    let tokens = tokens_of(image_text(alt, url));
    let block = BlockView::Image { alt, url };
    assert("!"@[0] == '!' && "#"@[0] == '#' && "```"@[0] == '`');
    lemma_target_read(tokens, 2);
    assert(node_at(tokens, 0) == Ok::<_, Failure>((Some(block), 7nat)));
    lemma_one_block(tokens, block);
}

/// A link renders its target and its text: for plain texts `text` and `url`,
/// neither empty, the text `[text](url)` becomes a paragraph that holds
/// `<a href="url">text</a>`.
pub proof fn link_renders_target_and_text(text: Seq<char>, url: Seq<char>)
    requires
        plain(text),
        plain(url),
        text.len() > 0,
        url.len() > 0,
    ensures
        html_of(link_text(text, url)) == Ok::<_, ParseErrorView>(
            "<p>"@ + ("<a href=\""@ + url + "\">"@ + text + "</a>"@) + "</p>\n\n"@,
        ),
{
    lemma_literals();
    lemma_link_tokens(Seq::empty(), text, url);
    assert(Seq::<char>::empty() + link_text(text, url) =~= link_text(text, url));
    let tokens = tokens_of(link_text(text, url));
    let node = InlineView::Link { text, url };
    let block = BlockView::Paragraph { children: seq![node] };
    assert("["@[0] == '[' && "#"@[0] == '#' && "```"@[0] == '`' && "!"@[0] == '!' && "\n"@[0]
        == '\n' && "_"@[0] == '_' && "*"@[0] == '*' && "__"@[0] == '_' && "**"@[0] == '*' && "`"@[0]
        == '`');
    lemma_target_read(tokens, 1);
    assert(!line_stops().contains(tokens[0].text));
    assert(inline_at(tokens, 0, line_stops()) == Ok::<_, Failure>((node, 6nat)));
    assert(line_stops().contains(tokens[6].text));
    assert(inlines(tokens, 6, line_stops()) == Ok::<_, Failure>(
        (Seq::<InlineView>::empty(), 6nat),
    ));
    assert(seq![node] + Seq::<InlineView>::empty() =~= seq![node]);
    assert(inlines(tokens, 0, line_stops()) == Ok::<_, Failure>((seq![node], 6nat)));
    assert(node_at(tokens, 0) == Ok::<_, Failure>((Some(block), 6nat)));
    lemma_one_block(tokens, block);
    lemma_html_of_one(node, block);
}

/// A text that stays as it is between two fences `fence`, which are runs of
/// `` ` ``: it is not empty; a token begins where it begins and where it
/// ends, so that both fences stand alone; none of its characters is dropped;
/// and none of its own tokens is the fence, which would close it early.
pub open spec fn verbatim(content: Seq<char>, fence: Seq<char>) -> bool {
    &&& content.len() > 0
    &&& joint('`', content[0])
    &&& joint(content.last(), '`')
    &&& forall|j: int| 0 <= j < content.len() ==> !dropped(content, j)
    &&& forall|k: int|
        0 <= k < tokens_of(content).len() ==> (#[trigger] tokens_of(content)[k]).text != fence
}

/// The joined texts of tokens are their texts, flattened.
pub proof fn lemma_joined_is_flatten(tokens: Seq<TokenView>, from: nat, pieces: Seq<Seq<char>>)
    requires
        from + pieces.len() <= tokens.len(),
        forall|k: int| 0 <= k < pieces.len() ==> tokens[from + k].text == #[trigger] pieces[k],
    ensures
        joined_texts(tokens, from, from + pieces.len()) == pieces.flatten(),
    decreases pieces.len(),
{
    if pieces.len() > 0 {
        let rest = pieces.drop_first();
        assert forall|k: int| 0 <= k < rest.len() implies tokens[from + 1 + k].text
            == #[trigger] rest[k] by {
            assert(rest[k] == pieces[k + 1]);
        }
        lemma_joined_is_flatten(tokens, from + 1, rest);
        assert(tokens[from as int].text == pieces[0]);
    }
}

/// The tokens of a text between two fences: the fence, the tokens of the
/// text, none of which is the fence, the fence again, and the sentinel.
proof fn lemma_fenced_tokens(fence: Seq<char>, content: Seq<char>)
    requires
        fence == "`"@ || fence == "```"@,
        verbatim(content, fence),
    ensures
        tokens_of(fence + content + fence).len() >= 4,
        tokens_of(fence + content + fence)[0].text == fence,
        tokens_of(fence + content + fence)[tokens_of(fence + content + fence).len() - 2].text
            == fence,
        tokens_of(fence + content + fence).last().text == "\n"@,
        forall|k: int|
            0 < k < tokens_of(fence + content + fence).len() - 2 ==> (#[trigger] tokens_of(
                fence + content + fence,
            )[k]).text != fence,
        joined_texts(
            tokens_of(fence + content + fence),
            1,
            (tokens_of(fence + content + fence).len() - 2) as nat,
        ) == content,
{
    lemma_literals();
    broadcast use Seq::lemma_flatten_push;

    let s = fence + content + fence;
    let f = fence.len() as int;
    let c = content.len() as int;
    let inner = texts_of(tokens_from(content, 0));
    lemma_runs_are_pieces(content, 0);
    assert(content.subrange(0, c) =~= content);
    let front = seq![fence] + inner;
    let pieces = front.push(fence);
    assert(front.first() == fence);
    assert(front.drop_first() =~= inner);
    assert(front.flatten() == fence + inner.flatten());
    assert(pieces.flatten() =~= s);
    assert forall|i: int| 0 <= i < f implies fence[i] == '`' by {}
    assert(solid(fence));
    assert(broken_into(pieces)) by {
        assert forall|k: int| 0 <= k < pieces.len() implies solid(#[trigger] pieces[k]) by {
            if 0 < k <= inner.len() {
                assert(pieces[k] == inner[k - 1]);
            }
        }
        assert forall|k: int| 0 < k < pieces.len() implies joint(
            pieces[k - 1].last(),
            (#[trigger] pieces[k])[0],
        ) by {
            if k <= inner.len() {
                assert(pieces[k] == inner[k - 1]);
                if k > 1 {
                    assert(pieces[k - 1] == inner[k - 2]);
                }
            } else {
                assert(pieces[k - 1] == inner[k - 2]);
                assert(pieces[k - 1] == inner.last());
            }
        }
    }
    assert forall|j: int| 0 <= j < s.len() implies !dropped(s, j) by {
        if f < j < f + c {
            assert(s[j] == content[j - f] && s[j - 1] == content[j - f - 1]);
            assert(!dropped(content, j - f));
        } else if j == f {
            assert(s[j - 1] == fence[f - 1]);
        } else if j < f {
            assert(s[j] == fence[j]);
        } else {
            assert(s[j] == fence[j - f - c]);
        }
    }
    lemma_pieces_tokens(pieces);
    let tokens = tokens_of(s);
    let m = tokens.len() as int;
    assert(m == inner.len() + 3);
    assert(tokens[0].text == pieces[0]);
    assert(tokens[m - 2].text == pieces[m - 2]);
    assert(tokens_of(content) == tokens_from(content, 0).push(
        sentinel(tokens_from(content, 0).last()),
    ));
    assert forall|k: int| 0 <= k < inner.len() implies tokens[1 + k].text == #[trigger] inner[k]
        && inner[k] != fence by {
        assert(tokens[1 + k].text == pieces[1 + k]);
        assert(tokens_of(content)[k].text == inner[k]);
    }
    assert forall|k: int| 0 < k < m - 2 implies (#[trigger] tokens[k]).text != fence by {
        assert(tokens[1 + (k - 1)].text == inner[k - 1]);
    }
    lemma_joined_is_flatten(tokens, 1, inner);
}

/// A code span keeps its content: for a text that is verbatim between single
/// `` ` ``, the text made of `` ` ``, the content and `` ` `` becomes a
/// paragraph that holds `<code>`, the content as it is, markup-special
/// characters included, and `</code>`.
///
/// The texts that are left out are those that the tokenizer changes or reads
/// otherwise: white space directly behind a `#` is dropped, a `` ` `` that
/// follows or precedes another markup character without a break belongs to
/// that run, and a `` ` `` that stands alone inside the content closes the
/// span.
pub proof fn code_span_keeps_its_content(content: Seq<char>)
    requires
        verbatim(content, "`"@),
    ensures
        html_of("`"@ + content + "`"@) == Ok::<_, ParseErrorView>(
            "<p>"@ + ("<code>"@ + content + "</code>"@) + "</p>\n\n"@,
        ),
{
    lemma_literals();
    lemma_fenced_tokens("`"@, content);
    let tokens = tokens_of("`"@ + content + "`"@);
    let last = (tokens.len() - 1) as nat;
    let end = (tokens.len() - 2) as nat;
    let node = InlineView::Code { text: content };
    let block = BlockView::Paragraph { children: seq![node] };
    raw_text_is_verbatim(tokens, 1, end, "`"@);
    assert("`"@[0] == '`' && "#"@[0] == '#' && "```"@.len() == 3 && "!"@[0] == '!' && "\n"@[0]
        == '\n' && "_"@[0] == '_' && "*"@[0] == '*' && "__"@[0] == '_' && "**"@[0] == '*');
    assert(!line_stops().contains(tokens[0].text));
    assert(inline_at(tokens, 0, line_stops()) == Ok::<_, Failure>((node, last)));
    assert(line_stops().contains(tokens[last as int].text));
    assert(inlines(tokens, last, line_stops()) == Ok::<_, Failure>(
        (Seq::<InlineView>::empty(), last),
    ));
    assert(seq![node] + Seq::<InlineView>::empty() =~= seq![node]);
    assert(inlines(tokens, 0, line_stops()) == Ok::<_, Failure>((seq![node], last)));
    assert(node_at(tokens, 0) == Ok::<_, Failure>((Some(block), last)));
    lemma_one_block(tokens, block);
    lemma_html_of_one(node, block);
}

/// A fenced code block keeps its content: for a text that is verbatim between
/// `` ``` ``, the text made of `` ``` ``, the content and `` ``` `` becomes
/// `<pre><code>`, the content as it is, markup-special characters included,
/// `</code></pre>` and two line feeds. Nothing inside is read as markup.
///
/// The texts that are left out are those of `code_span_keeps_its_content`,
/// with `` ``` `` in the place of `` ` ``.
pub proof fn code_block_keeps_its_content(content: Seq<char>)
    requires
        verbatim(content, "```"@),
    ensures
        html_of("```"@ + content + "```"@) == Ok::<_, ParseErrorView>(
            "<pre><code>"@ + content + "</code></pre>\n\n"@,
        ),
{
    lemma_literals();
    lemma_fenced_tokens("```"@, content);
    let tokens = tokens_of("```"@ + content + "```"@);
    let last = (tokens.len() - 1) as nat;
    let end = (tokens.len() - 2) as nat;
    let block = BlockView::CodeBlock { text: content };
    raw_text_is_verbatim(tokens, 1, end, "```"@);
    assert("```"@[0] == '`' && "#"@[0] == '#');
    assert(node_at(tokens, 0) == Ok::<_, Failure>((Some(block), last)));
    lemma_one_block(tokens, block);
}

} // verus!
