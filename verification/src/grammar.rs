//! The grammar of the markup language, as functions on token sequences.
//!
//! Each function reads the tokens from a position on and gives the tree it
//! finds there with the position behind it, or the failure that ends the
//! parse. A token past the end counts as missing.

use vstd::prelude::*;
use crate::lexer::TokenView;
use crate::nodes::{BlockView, InlineView};

verus! {

/// Why a parse ends without a tree: the token at index `at` is not the literal
/// `expected`, or there is no such token.
pub struct Failure {
    pub at: nat,
    pub expected: Seq<char>,
}

/// The result of reading a `T`: the value and the position behind it, or a
/// failure.
pub type Parsed<T> = Result<(T, nat), Failure>;

/// The token at `pos` exists and its text is `literal`.
pub open spec fn accepts(tokens: Seq<TokenView>, pos: nat, literal: Seq<char>) -> bool {
    pos < tokens.len() && tokens[pos as int].text == literal
}

/// The position behind the token at `pos`, which must be `literal`.
pub open spec fn expects(tokens: Seq<TokenView>, pos: nat, literal: Seq<char>) -> Result<
    nat,
    Failure,
> {
    if accepts(tokens, pos, literal) {
        Ok((pos + 1) as nat)
    } else {
        Err(Failure { at: pos, expected: literal })
    }
}

/// The texts of the tokens from `pos` up to the first one that is `close`,
/// joined, and the position behind that one. Where the tokens end before
/// there is one, the parse fails: `close` is missing.
pub open spec fn raw_until(tokens: Seq<TokenView>, pos: nat, close: Seq<char>) -> Parsed<Seq<char>>
    decreases tokens.len() - pos,
{
    if pos >= tokens.len() {
        Err(Failure { at: pos, expected: close })
    } else if tokens[pos as int].text == close {
        Ok((Seq::empty(), (pos + 1) as nat))
    } else {
        match raw_until(tokens, (pos + 1) as nat, close) {
            Ok((rest, next)) => Ok((tokens[pos as int].text + rest, next)),
            Err(failure) => Err(failure),
        }
    }
}

/// A text and a target: one token, `]`, `(`, one token, `)`. The two tokens
/// are taken as they are, whatever they hold. Where the tokens end before the
/// text or the target, the delimiter behind it is the one that is missing.
pub open spec fn target(tokens: Seq<TokenView>, pos: nat) -> Parsed<(Seq<char>, Seq<char>)> {
    if pos >= tokens.len() {
        Err(Failure { at: pos, expected: "]"@ })
    } else {
        match expects(tokens, (pos + 1) as nat, "]"@) {
            Err(failure) => Err(failure),
            Ok(paren) => match expects(tokens, paren, "("@) {
                Err(failure) => Err(failure),
                Ok(inside) => if inside >= tokens.len() {
                    Err(Failure { at: inside, expected: ")"@ })
                } else {
                    match expects(tokens, (inside + 1) as nat, ")"@) {
                        Err(failure) => Err(failure),
                        Ok(next) => Ok(((tokens[pos as int].text, tokens[inside as int].text), next)),
                    }
                },
            },
        }
    }
}

/// The inline node that begins with the token at `pos`, inside a scope that
/// the literals of `stops` end.
pub open spec fn inline_at(tokens: Seq<TokenView>, pos: nat, stops: Set<Seq<char>>) -> Parsed<
    InlineView,
>
    decreases tokens.len() - pos, 0nat,
{
    if pos >= tokens.len() {
        Err(Failure { at: pos, expected: "\n"@ })
    } else {
        let text = tokens[pos as int].text;
        let behind = (pos + 1) as nat;
        if text == "_"@ || text == "*"@ {
            match emphasis(tokens, behind, stops, "*"@, "_"@) {
                Ok((children, next)) => Ok((InlineView::Italic { children }, next)),
                Err(failure) => Err(failure),
            }
        } else if text == "__"@ || text == "**"@ {
            match emphasis(tokens, behind, stops, "**"@, "__"@) {
                Ok((children, next)) => Ok((InlineView::Bold { children }, next)),
                Err(failure) => Err(failure),
            }
        } else if text == "`"@ {
            match raw_until(tokens, behind, "`"@) {
                Ok((text, next)) => Ok((InlineView::Code { text }, next)),
                Err(failure) => Err(failure),
            }
        } else if text == "["@ {
            match target(tokens, behind) {
                Ok(((text, url), next)) => Ok((InlineView::Link { text, url }, next)),
                Err(failure) => Err(failure),
            }
        } else {
            Ok((InlineView::Text { text }, behind))
        }
    }
}

/// The inline nodes from `pos` up to the first token that is in `stops`; that
/// token is left where it is. Where the tokens end before there is one, the
/// parse fails: the line feed that ends every line is missing.
///
/// Every inline node takes at least one token and none past the end
/// (`lemma_inline_advances`), so the branch for a node that does otherwise is
/// never entered; it is there for the definition to be seen to end.
pub open spec fn inlines(tokens: Seq<TokenView>, pos: nat, stops: Set<Seq<char>>) -> Parsed<
    Seq<InlineView>,
>
    decreases tokens.len() - pos, 1nat,
{
    if pos >= tokens.len() {
        Err(Failure { at: pos, expected: "\n"@ })
    } else if stops.contains(tokens[pos as int].text) {
        Ok((Seq::empty(), pos))
    } else {
        match inline_at(tokens, pos, stops) {
            Err(failure) => Err(failure),
            Ok((node, next)) => if !(pos < next <= tokens.len()) {
                Err(Failure { at: next, expected: "\n"@ })
            } else {
                match inlines(tokens, next, stops) {
                    Err(failure) => Err(failure),
                    Ok((rest, end)) => Ok((seq![node] + rest, end)),
                }
            },
        }
    }
}

/// The children of an emphasis whose opening token stands before `pos`: the
/// inline nodes up to a token of `stops` or one of the two closing literals,
/// which must then be one of these two. `close` is tried first, and a failure
/// names `other`.
pub open spec fn emphasis(
    tokens: Seq<TokenView>,
    pos: nat,
    stops: Set<Seq<char>>,
    close: Seq<char>,
    other: Seq<char>,
) -> Parsed<Seq<InlineView>>
    decreases tokens.len() - pos, 2nat,
{
    match inlines(tokens, pos, stops.insert(close).insert(other)) {
        Err(failure) => Err(failure),
        Ok((children, end)) => if accepts(tokens, end, close) {
            Ok((children, (end + 1) as nat))
        } else {
            match expects(tokens, end, other) {
                Err(failure) => Err(failure),
                Ok(next) => Ok((children, next)),
            }
        },
    }
}

/// The scope of a header or a paragraph: it ends at a line feed.
pub open spec fn line_stops() -> Set<Seq<char>> {
    set!["\n"@]
}

/// The number of tokens `#` in a row from `pos` on.
pub open spec fn hashes(tokens: Seq<TokenView>, pos: nat) -> nat
    decreases tokens.len() - pos,
{
    if accepts(tokens, pos, "#"@) {
        1 + hashes(tokens, (pos + 1) as nat)
    } else {
        0
    }
}

/// The header whose first `#` stands before `pos`: its level is one more than
/// the number of `#` that follow, and its children are the rest of the line.
pub open spec fn header(tokens: Seq<TokenView>, pos: nat) -> Parsed<BlockView> {
    let more = hashes(tokens, pos);
    match inlines(tokens, pos + more, line_stops()) {
        Ok((children, next)) => Ok((BlockView::Header { level: 1 + more, children }, next)),
        Err(failure) => Err(failure),
    }
}

/// The block that begins with the token at `pos`, or none where that token is
/// a line feed.
pub open spec fn node_at(tokens: Seq<TokenView>, pos: nat) -> Parsed<Option<BlockView>> {
    let behind = (pos + 1) as nat;
    if accepts(tokens, pos, "#"@) {
        match header(tokens, behind) {
            Ok((node, next)) => Ok((Some(node), next)),
            Err(failure) => Err(failure),
        }
    } else if accepts(tokens, pos, "```"@) {
        match raw_until(tokens, behind, "```"@) {
            Ok((text, next)) => Ok((Some(BlockView::CodeBlock { text }), next)),
            Err(failure) => Err(failure),
        }
    } else if accepts(tokens, pos, "!"@) {
        match expects(tokens, behind, "["@) {
            Err(failure) => Err(failure),
            Ok(inside) => match target(tokens, inside) {
                Ok(((alt, url), next)) => Ok((Some(BlockView::Image { alt, url }), next)),
                Err(failure) => Err(failure),
            },
        }
    } else if accepts(tokens, pos, "\n"@) {
        Ok((None, behind))
    } else {
        match inlines(tokens, pos, line_stops()) {
            Ok((children, next)) => Ok((Some(BlockView::Paragraph { children }), next)),
            Err(failure) => Err(failure),
        }
    }
}

/// The blocks from `pos` up to the last token, which is never read as part of
/// a block that begins there.
///
/// Every block takes at least one token and none past the end
/// (`lemma_node_advances`), so the branch for one that does otherwise is never
/// entered.
pub open spec fn blocks(tokens: Seq<TokenView>, pos: nat) -> Parsed<Seq<BlockView>>
    decreases tokens.len() - pos,
{
    if pos + 1 >= tokens.len() {
        Ok((Seq::empty(), pos))
    } else {
        match node_at(tokens, pos) {
            Err(failure) => Err(failure),
            Ok((node, next)) => if !(pos < next <= tokens.len()) {
                Err(Failure { at: next, expected: "\n"@ })
            } else {
                match blocks(tokens, next) {
                    Err(failure) => Err(failure),
                    Ok((rest, end)) => Ok(
                        (
                            match node {
                                Some(block) => seq![block] + rest,
                                None => rest,
                            },
                            end,
                        ),
                    ),
                }
            },
        }
    }
}

/// The document that a token sequence stands for.
pub open spec fn document(tokens: Seq<TokenView>) -> Result<Seq<BlockView>, Failure> {
    match blocks(tokens, 0) {
        Ok((nodes, _)) => Ok(nodes),
        Err(failure) => Err(failure),
    }
}

/// Raw text that is closed takes at least its closing token, and none past
/// the end.
pub proof fn lemma_raw_until_advances(tokens: Seq<TokenView>, pos: nat, close: Seq<char>)
    ensures
        raw_until(tokens, pos, close) matches Ok((_, next)) ==> pos < next <= tokens.len(),
    decreases tokens.len() - pos,
{
    if pos < tokens.len() && tokens[pos as int].text != close {
        lemma_raw_until_advances(tokens, (pos + 1) as nat, close);
    }
}

/// The inline nodes of a scope end at a token of that scope, at `pos` or
/// later; where the token at `pos` is not one, later.
pub proof fn lemma_inlines_end(tokens: Seq<TokenView>, pos: nat, stops: Set<Seq<char>>)
    ensures
        inlines(tokens, pos, stops) matches Ok((_, end)) ==> {
            &&& pos <= end < tokens.len()
            &&& stops.contains(tokens[end as int].text)
            &&& !stops.contains(tokens[pos as int].text) ==> pos < end
        },
    decreases tokens.len() - pos, 1nat,
{
    if pos < tokens.len() && !stops.contains(tokens[pos as int].text) {
        lemma_inline_advances(tokens, pos, stops);
        if let Ok((_, next)) = inline_at(tokens, pos, stops) {
            lemma_inlines_end(tokens, next, stops);
        }
    }
}

/// An inline node takes at least one token, and none past the end.
pub proof fn lemma_inline_advances(tokens: Seq<TokenView>, pos: nat, stops: Set<Seq<char>>)
    ensures
        inline_at(tokens, pos, stops) matches Ok((_, next)) ==> pos < next <= tokens.len(),
    decreases tokens.len() - pos, 0nat,
{
    if pos < tokens.len() {
        let behind = (pos + 1) as nat;
        lemma_inlines_end(tokens, behind, stops.insert("*"@).insert("_"@));
        lemma_inlines_end(tokens, behind, stops.insert("**"@).insert("__"@));
        lemma_raw_until_advances(tokens, behind, "`"@);
    }
}

/// A block, or a blank line, takes at least one token, and none past the end.
pub proof fn lemma_node_advances(tokens: Seq<TokenView>, pos: nat)
    ensures
        node_at(tokens, pos) matches Ok((_, next)) ==> pos < next <= tokens.len(),
{
    let behind = (pos + 1) as nat;
    lemma_inlines_end(tokens, behind + hashes(tokens, behind), line_stops());
    lemma_raw_until_advances(tokens, behind, "```"@);
    lemma_inlines_end(tokens, pos, line_stops());
}

} // verus!
