//! The parser: tokens to syntax tree, by recursive descent with one cursor
//! that only moves forward.
//!
//! Every method reads from the cursor on and does what the function of the
//! same purpose in `grammar` says: it returns the tree and leaves the cursor
//! behind it, or it returns the error and leaves the cursor at the token that
//! was not the expected one.

use vstd::prelude::*;
use vstd::string::*;
use crate::chars::{is_special_char, special};
use crate::grammar::{
    accepts,
    blocks,
    emphasis,
    expects,
    hashes,
    header,
    inline_at,
    inlines,
    lemma_inline_advances,
    lemma_inlines_end,
    lemma_node_advances,
    line_stops,
    node_at,
    raw_until,
    target,
    Failure,
};
use crate::lexer::{token_views, tokenize, tokens_of, Token, TokenView};
use crate::nodes::{
    block_views,
    inline_views,
    lemma_container_views,
    Block,
    BlockView,
    Bold,
    Code,
    CodeBlock,
    Header,
    Image,
    Inline,
    InlineView,
    Italic,
    Link,
    Paragraph,
    Text,
};
use crate::strings::{push_decimal, decimal, texts, to_chars};

verus! {

/// What stood where a literal was expected.
pub enum Found {
    /// A token of plain text, or an empty one.
    Text,
    /// A token that begins with a markup-special character.
    Special(String),
    /// Nothing: the tokens had ended.
    Nothing,
}

/// A token that was not the expected literal, or that was missing. `line` and
/// `col` are those of the token, or of the last token where one was missing.
pub struct ParseError {
    pub line: usize,
    pub col: usize,
    pub expected: String,
    pub found: Found,
}

/// What a `Found` is.
pub enum FoundView {
    Text,
    Special(Seq<char>),
    Nothing,
}

/// What a `ParseError` is.
pub struct ParseErrorView {
    pub line: nat,
    pub col: nat,
    pub expected: Seq<char>,
    pub found: FoundView,
}

impl View for Found {
    type V = FoundView;

    open spec fn view(&self) -> FoundView {
        match self {
            Found::Text => FoundView::Text,
            Found::Special(text) => FoundView::Special(text@),
            Found::Nothing => FoundView::Nothing,
        }
    }
}

impl View for ParseError {
    type V = ParseErrorView;

    open spec fn view(&self) -> ParseErrorView {
        ParseErrorView {
            line: self.line as nat,
            col: self.col as nat,
            expected: self.expected@,
            found: self.found@,
        }
    }
}

/// The error that reports `failure` on `tokens`.
pub open spec fn diagnose(tokens: Seq<TokenView>, failure: Failure) -> ParseErrorView {
    if failure.at < tokens.len() {
        let token = tokens[failure.at as int];
        ParseErrorView {
            line: token.line,
            col: token.col,
            expected: failure.expected,
            found: if token.text.len() > 0 && special(token.text[0]) {
                FoundView::Special(token.text)
            } else {
                FoundView::Text
            },
        }
    } else if tokens.len() > 0 {
        ParseErrorView {
            line: tokens.last().line,
            col: tokens.last().col,
            expected: failure.expected,
            found: FoundView::Nothing,
        }
    } else {
        ParseErrorView { line: 1, col: 1, expected: failure.expected, found: FoundView::Nothing }
    }
}

/// The message of an error: its place, the expected literal, and what stood
/// there.
pub open spec fn message_of(error: ParseErrorView) -> Seq<char> {
    let head = "error: "@ + decimal(error.line) + ":"@ + decimal(error.col) + " expected `"@
        + error.expected;
    match error.found {
        FoundView::Text => head + "` got text"@,
        FoundView::Special(text) => head + "` got `"@ + text + "`"@,
        FoundView::Nothing => head + "` got nothing"@,
    }
}

impl ParseError {
    /// The message of the error.
    pub fn message(&self) -> (out: String)
        ensures
            out@ == message_of(self@),
    {
        let mut out = String::from_str("error: ");
        push_decimal(&mut out, self.line);
        out.append(":");
        push_decimal(&mut out, self.col);
        out.append(" expected `");
        out.append(self.expected.as_str());
        match &self.found {
            Found::Text => {
                out.append("` got text");
            },
            Found::Special(text) => {
                out.append("` got `");
                out.append(text.as_str());
                out.append("`");
            },
            Found::Nothing => {
                out.append("` got nothing");
            },
        }
        out
    }
}

/// The tokens of a document and the cursor into them.
pub struct Parser {
    pub tokens: Vec<Token>,
    pub index: usize,
}

/// The set of the literals in `bounds`.
pub open spec fn stop_set(bounds: Seq<String>) -> Set<Seq<char>> {
    texts(bounds).to_set()
}

/// After `before` the parser is `after`: the same tokens, the cursor at `next`.
pub open spec fn moved(before: Parser, after: Parser, next: nat) -> bool {
    after.tokens == before.tokens && after.index == next
}

/// After `before` the parser is `after` and has failed with `error`: the same
/// tokens, the cursor where `failure` is, and `error` reports `failure`.
pub open spec fn failed(before: Parser, after: Parser, failure: Failure, error: ParseError) -> bool {
    &&& after.tokens == before.tokens
    &&& after.index == failure.at
    &&& error@ == diagnose(before.stream(), failure)
}

/// Tokenizes `contents` and puts the cursor at the first token.
pub fn create_parser(contents: String) -> (parser: Parser)
    ensures
        parser.index == 0,
        parser.stream() == tokens_of(contents@),
{
    let chars = to_chars(contents.as_str());
    Parser { tokens: tokenize(&chars), index: 0 }
}

/// Tells whether `text` is one of `bounds`.
fn is_bound(bounds: &Vec<String>, text: &String) -> (found: bool)
    ensures
        found == stop_set(bounds@).contains(text@),
{
    let mut i: usize = 0;
    while i < bounds.len()
        invariant
            i <= bounds.len(),
            forall|j: int| 0 <= j < i ==> bounds[j]@ != text@,
        decreases bounds.len() - i,
    {
        if bounds[i] == *text {
            assert(texts(bounds@)[i as int] == text@);
            return true;
        }
        i = i + 1;
    }
    false
}

/// `bounds` and the two literals `first` and `second`.
fn with_closers(bounds: &Vec<String>, first: &str, second: &str) -> (wider: Vec<String>)
    ensures
        stop_set(wider@) == stop_set(bounds@).insert(first@).insert(second@),
{
    let mut wider: Vec<String> = Vec::new();
    let mut i: usize = 0;
    while i < bounds.len()
        invariant
            i <= bounds.len(),
            texts(wider@) == texts(bounds@).take(i as int),
        decreases bounds.len() - i,
    {
        let ghost before = wider@;
        let literal = bounds[i].clone();
        wider.push(literal);
        assert(texts(wider@) =~= texts(before).push(bounds[i as int]@));
        assert(texts(wider@) =~= texts(bounds@).take(i + 1));
        i = i + 1;
    }
    assert(texts(bounds@).take(bounds@.len() as int) =~= texts(bounds@));
    wider.push(String::from_str(first));
    wider.push(String::from_str(second));
    proof {
        let all = texts(wider@);
        let some = texts(bounds@);
        assert(all =~= some.push(first@).push(second@));
        assert forall|t: Seq<char>| all.to_set().contains(t) <==> some.to_set().insert(
            first@,
        ).insert(second@).contains(t) by {
            if some.contains(t) {
                let k = some.index_of(t);
                assert(all[k] == t);
            }
            assert(all[some.len() as int] == first@);
            assert(all[some.len() as int + 1] == second@);
        }
        assert(stop_set(wider@) =~= stop_set(bounds@).insert(first@).insert(second@));
    }
    wider
}

impl Parser {
    /// The tokens, as the grammar reads them.
    pub open spec fn stream(&self) -> Seq<TokenView> {
        token_views(self.tokens@)
    }

    /// The cursor.
    pub open spec fn position(&self) -> nat {
        self.index as nat
    }

    /// The token at the cursor, if there is one. The cursor stays.
    pub fn peek(&self) -> (top: Option<Token>)
        ensures
            self.index < self.tokens.len() ==> top == Some(self.tokens[self.index as int]),
            self.index >= self.tokens.len() ==> top.is_none(),
    {
        if self.index < self.tokens.len() {
            Some(self.tokens[self.index].clone())
        } else {
            None
        }
    }

    /// Takes the token at the cursor, if there is one, and moves the cursor
    /// behind it.
    pub fn pop(&mut self) -> (top: Option<Token>)
        ensures
            final(self).tokens == old(self).tokens,
            old(self).index < old(self).tokens.len() ==> top == Some(
                old(self).tokens[old(self).index as int],
            ) && final(self).index == old(self).index + 1,
            old(self).index >= old(self).tokens.len() ==> top.is_none() && final(self).index
                == old(self).index,
    {
        if self.index < self.tokens.len() {
            self.index = self.index + 1;
            Some(self.tokens[self.index - 1].clone())
        } else {
            None
        }
    }

    /// Takes the token at the cursor if its text is `data`; otherwise nothing
    /// changes.
    pub fn accept(&mut self, data: &String) -> (top: Option<Token>)
        ensures
            final(self).tokens == old(self).tokens,
            accepts(old(self).stream(), old(self).position(), data@) ==> top == Some(
                old(self).tokens[old(self).index as int],
            ) && final(self).index == old(self).index + 1,
            !accepts(old(self).stream(), old(self).position(), data@) ==> top.is_none()
                && final(self).index == old(self).index,
    {
        if self.index < self.tokens.len() && self.tokens[self.index].data == *data {
            self.pop()
        } else {
            None
        }
    }

    /// The error for the literal `expected`, which is not at the cursor.
    fn failure(&self, expected: String) -> (error: ParseError)
        ensures
            error@ == diagnose(
                self.stream(),
                Failure { at: self.position(), expected: expected@ },
            ),
    {
        let n = self.tokens.len();
        if self.index < n {
            let token = &self.tokens[self.index];
            let text = token.data.as_str();
            let found = if !text.is_empty() && is_special_char(text.get_char(0)) {
                Found::Special(token.data.clone())
            } else {
                Found::Text
            };
            ParseError { line: token.line, col: token.col, expected, found }
        } else if n > 0 {
            let token = &self.tokens[n - 1];
            ParseError { line: token.line, col: token.col, expected, found: Found::Nothing }
        } else {
            ParseError { line: 1, col: 1, expected, found: Found::Nothing }
        }
    }

    /// Takes the token at the cursor if its text is `data`; otherwise fails,
    /// and the cursor stays.
    pub fn expect(&mut self, data: String) -> (done: Result<(), ParseError>)
        ensures
            match expects(old(self).stream(), old(self).position(), data@) {
                Ok(next) => done.is_ok() && moved(*old(self), *final(self), next),
                Err(failure) => done matches Err(error) && failed(
                    *old(self),
                    *final(self),
                    failure,
                    error,
                ),
            },
    {
        match self.accept(&data) {
            Some(_) => Ok(()),
            None => Err(self.failure(data)),
        }
    }
}

impl Parser {
    /// Takes tokens as raw text up to the first one that is `close`, and that
    /// one too.
    fn take_until(&mut self, close: &String) -> (taken: Result<String, ParseError>)
        ensures
            match raw_until(old(self).stream(), old(self).position(), close@) {
                Ok((text, next)) => taken matches Ok(raw) && raw@ == text && moved(
                    *old(self),
                    *final(self),
                    next,
                ),
                Err(failure) => taken matches Err(error) && failed(
                    *old(self),
                    *final(self),
                    failure,
                    error,
                ),
            },
    {
        let mut text = String::new();
        let ghost tokens = self.stream();
        let ghost start = self.position();
        loop
            invariant
                self.tokens == old(self).tokens,
                tokens == old(self).stream(),
                start == old(self).position(),
                match raw_until(tokens, self.position(), close@) {
                    Ok((rest, next)) => raw_until(tokens, start, close@) == Ok::<_, Failure>(
                        (text@ + rest, next),
                    ),
                    Err(failure) => raw_until(tokens, start, close@) == Err::<(Seq<char>, nat), _>(
                        failure,
                    ),
                },
            decreases self.tokens.len() - self.index,
        {
            if self.accept(close).is_some() {
                assert(text@ + Seq::<char>::empty() =~= text@);
                return Ok(text);
            }
            match self.pop() {
                Some(token) => {
                    proof {
                        let here = token@.text;
                        if let Ok((rest, _)) = raw_until(tokens, self.position(), close@) {
                            assert(text@ + (here + rest) =~= (text@ + here) + rest);
                        }
                    }
                    text.append(token.data.as_str());
                },
                None => {
                    return Err(self.failure(close.clone()));
                },
            }
        }
    }

    /// Reads a text and a target: one token, `]`, `(`, one token, `)`.
    fn text_and_target(&mut self) -> (read: Result<(String, String), ParseError>)
        ensures
            match target(old(self).stream(), old(self).position()) {
                Ok(((text, url), next)) => read matches Ok(pair) && pair.0@ == text && pair.1@
                    == url && moved(*old(self), *final(self), next),
                Err(failure) => read matches Err(error) && failed(
                    *old(self),
                    *final(self),
                    failure,
                    error,
                ),
            },
    {
        let text = match self.pop() {
            Some(token) => token.data,
            None => {
                return Err(self.failure(String::from_str("]")));
            },
        };
        match self.expect(String::from_str("]")) {
            Ok(_) => {},
            Err(error) => {
                return Err(error);
            },
        }
        match self.expect(String::from_str("(")) {
            Ok(_) => {},
            Err(error) => {
                return Err(error);
            },
        }
        let url = match self.pop() {
            Some(token) => token.data,
            None => {
                return Err(self.failure(String::from_str(")")));
            },
        };
        match self.expect(String::from_str(")")) {
            Ok(_) => {},
            Err(error) => {
                return Err(error);
            },
        }
        Ok((text, url))
    }

    /// Reads a code span whose opening `` ` `` has been taken.
    pub fn parse_code(&mut self) -> (parsed: Result<Code, ParseError>)
        ensures
            match raw_until(old(self).stream(), old(self).position(), "`"@) {
                Ok((text, next)) => parsed matches Ok(node) && node.text@ == text && moved(
                    *old(self),
                    *final(self),
                    next,
                ),
                Err(failure) => parsed matches Err(error) && failed(
                    *old(self),
                    *final(self),
                    failure,
                    error,
                ),
            },
    {
        match self.take_until(&String::from_str("`")) {
            Ok(text) => Ok(Code { text }),
            Err(error) => Err(error),
        }
    }

    /// Reads a code block whose opening `` ``` `` has been taken.
    pub fn parse_code_block(&mut self) -> (parsed: Result<CodeBlock, ParseError>)
        ensures
            match raw_until(old(self).stream(), old(self).position(), "```"@) {
                Ok((text, next)) => parsed matches Ok(node) && node.text@ == text && moved(
                    *old(self),
                    *final(self),
                    next,
                ),
                Err(failure) => parsed matches Err(error) && failed(
                    *old(self),
                    *final(self),
                    failure,
                    error,
                ),
            },
    {
        match self.take_until(&String::from_str("```")) {
            Ok(text) => Ok(CodeBlock { text }),
            Err(error) => Err(error),
        }
    }

    /// Reads a link whose opening `[` has been taken.
    pub fn parse_link(&mut self) -> (parsed: Result<Link, ParseError>)
        ensures
            match target(old(self).stream(), old(self).position()) {
                Ok(((text, url), next)) => parsed matches Ok(node) && node.text@ == text
                    && node.url@ == url && moved(*old(self), *final(self), next),
                Err(failure) => parsed matches Err(error) && failed(
                    *old(self),
                    *final(self),
                    failure,
                    error,
                ),
            },
    {
        match self.text_and_target() {
            Ok((text, url)) => Ok(Link { text, url }),
            Err(error) => Err(error),
        }
    }

    /// Reads an image whose opening `!` has been taken.
    pub fn parse_image(&mut self) -> (parsed: Result<Image, ParseError>)
        ensures
            match expects(old(self).stream(), old(self).position(), "["@) {
                Err(failure) => parsed matches Err(error) && failed(
                    *old(self),
                    *final(self),
                    failure,
                    error,
                ),
                Ok(inside) => match target(old(self).stream(), inside) {
                    Ok(((alt, url), next)) => parsed matches Ok(node) && node.text@ == alt
                        && node.url@ == url && moved(*old(self), *final(self), next),
                    Err(failure) => parsed matches Err(error) && failed(
                        *old(self),
                        *final(self),
                        failure,
                        error,
                    ),
                },
            },
    {
        match self.expect(String::from_str("[")) {
            Ok(_) => {},
            Err(error) => {
                return Err(error);
            },
        }
        match self.text_and_target() {
            Ok((text, url)) => Ok(Image { text, url }),
            Err(error) => Err(error),
        }
    }
}

impl Parser {
    /// Reads the children of an emphasis whose opening token has been taken,
    /// and its closing token, `close` or `other`.
    fn parse_emphasis(&mut self, bounds: &Vec<String>, close: &str, other: &str) -> (parsed:
        Result<Vec<Inline>, ParseError>)
        ensures
            match emphasis(
                old(self).stream(),
                old(self).position(),
                stop_set(bounds@),
                close@,
                other@,
            ) {
                Ok((children, next)) => parsed matches Ok(nodes) && inline_views(nodes@)
                    == children && moved(*old(self), *final(self), next),
                Err(failure) => parsed matches Err(error) && failed(
                    *old(self),
                    *final(self),
                    failure,
                    error,
                ),
            },
        decreases old(self).tokens.len() - old(self).index, 2nat,
    {
        let new_bounds = with_closers(bounds, close, other);
        let children = match self.parse_formatted_text(&new_bounds) {
            Ok(children) => children,
            Err(error) => {
                return Err(error);
            },
        };
        if self.accept(&String::from_str(close)).is_none() {
            match self.expect(String::from_str(other)) {
                Ok(_) => {},
                Err(error) => {
                    return Err(error);
                },
            }
        }
        Ok(children)
    }

    /// Reads an emphasis whose opening `*` or `_` has been taken: its children
    /// up to a token of `bounds`, `*` or `_`, which must be `*` or `_`.
    pub fn parse_italic(&mut self, bounds: &Vec<String>) -> (parsed: Result<Italic, ParseError>)
        ensures
            match emphasis(
                old(self).stream(),
                old(self).position(),
                stop_set(bounds@),
                "*"@,
                "_"@,
            ) {
                Ok((children, next)) => parsed matches Ok(node) && inline_views(node.children@)
                    == children && moved(*old(self), *final(self), next),
                Err(failure) => parsed matches Err(error) && failed(
                    *old(self),
                    *final(self),
                    failure,
                    error,
                ),
            },
        decreases old(self).tokens.len() - old(self).index, 3nat,
    {
        match self.parse_emphasis(bounds, "*", "_") {
            Ok(children) => Ok(Italic { children }),
            Err(error) => Err(error),
        }
    }

    /// Reads a strong emphasis whose opening `**` or `__` has been taken: its
    /// children up to a token of `bounds`, `**` or `__`, which must be `**` or
    /// `__`.
    pub fn parse_bold(&mut self, bounds: &Vec<String>) -> (parsed: Result<Bold, ParseError>)
        ensures
            match emphasis(
                old(self).stream(),
                old(self).position(),
                stop_set(bounds@),
                "**"@,
                "__"@,
            ) {
                Ok((children, next)) => parsed matches Ok(node) && inline_views(node.children@)
                    == children && moved(*old(self), *final(self), next),
                Err(failure) => parsed matches Err(error) && failed(
                    *old(self),
                    *final(self),
                    failure,
                    error,
                ),
            },
        decreases old(self).tokens.len() - old(self).index, 3nat,
    {
        match self.parse_emphasis(bounds, "**", "__") {
            Ok(children) => Ok(Bold { children }),
            Err(error) => Err(error),
        }
    }

    /// Reads the inline node that begins at the cursor.
    fn parse_inline(&mut self, bounds: &Vec<String>) -> (parsed: Result<Inline, ParseError>)
        ensures
            match inline_at(old(self).stream(), old(self).position(), stop_set(bounds@)) {
                Ok((node, next)) => parsed matches Ok(inline) && inline@ == node && moved(
                    *old(self),
                    *final(self),
                    next,
                ),
                Err(failure) => parsed matches Err(error) && failed(
                    *old(self),
                    *final(self),
                    failure,
                    error,
                ),
            },
        decreases old(self).tokens.len() - old(self).index, 0nat,
    {
        if self.accept(&String::from_str("_")).is_some() || self.accept(
            &String::from_str("*"),
        ).is_some() {
            match self.parse_italic(bounds) {
                Ok(node) => {
                    proof {
                        lemma_container_views(node.children);
                    }
                    Ok(Inline::Italic(node))
                },
                Err(error) => Err(error),
            }
        } else if self.accept(&String::from_str("__")).is_some() || self.accept(
            &String::from_str("**"),
        ).is_some() {
            match self.parse_bold(bounds) {
                Ok(node) => {
                    proof {
                        lemma_container_views(node.children);
                    }
                    Ok(Inline::Bold(node))
                },
                Err(error) => Err(error),
            }
        } else if self.accept(&String::from_str("`")).is_some() {
            match self.parse_code() {
                Ok(node) => Ok(Inline::Code(node)),
                Err(error) => Err(error),
            }
        } else if self.accept(&String::from_str("[")).is_some() {
            match self.parse_link() {
                Ok(node) => Ok(Inline::Link(node)),
                Err(error) => Err(error),
            }
        } else {
            match self.pop() {
                Some(token) => Ok(Inline::Text(Text { text: token.data })),
                None => Err(self.failure(String::from_str("\n"))),
            }
        }
    }

    /// Reads inline nodes up to the first token that is one of `bounds`, which
    /// stays at the cursor.
    pub fn parse_formatted_text(&mut self, bounds: &Vec<String>) -> (parsed: Result<
        Vec<Inline>,
        ParseError,
    >)
        ensures
            match inlines(old(self).stream(), old(self).position(), stop_set(bounds@)) {
                Ok((nodes, end)) => parsed matches Ok(read) && inline_views(read@) == nodes
                    && moved(*old(self), *final(self), end),
                Err(failure) => parsed matches Err(error) && failed(
                    *old(self),
                    *final(self),
                    failure,
                    error,
                ),
            },
        decreases old(self).tokens.len() - old(self).index, 1nat,
    {
        let mut retval: Vec<Inline> = Vec::new();
        let ghost tokens = self.stream();
        let ghost start = self.position();
        let ghost stops = stop_set(bounds@);
        loop
            invariant
                self.tokens == old(self).tokens,
                tokens == old(self).stream(),
                start == old(self).position(),
                stops == stop_set(bounds@),
                start <= self.index,
                match inlines(tokens, self.position(), stops) {
                    Ok((rest, end)) => inlines(tokens, start, stops) == Ok::<_, Failure>(
                        (inline_views(retval@) + rest, end),
                    ),
                    Err(failure) => inlines(tokens, start, stops) == Err::<
                        (Seq<InlineView>, nat),
                        _,
                    >(failure),
                },
            decreases self.tokens.len() - self.index,
        {
            match self.peek() {
                None => {
                    return Err(self.failure(String::from_str("\n")));
                },
                Some(token) => {
                    if is_bound(bounds, &token.data) {
                        assert(inline_views(retval@) + Seq::<InlineView>::empty() =~= inline_views(
                            retval@,
                        ));
                        return Ok(retval);
                    }
                },
            }
            let ghost here = self.position();
            proof {
                lemma_inline_advances(tokens, here, stops);
            }
            match self.parse_inline(bounds) {
                Ok(node) => {
                    proof {
                        let views = inline_views(retval@);
                        assert(inline_views(retval@.push(node)) =~= views.push(node@));
                        if let Ok((rest, _)) = inlines(tokens, self.position(), stops) {
                            assert(views + (seq![node@] + rest) =~= views.push(node@) + rest);
                        }
                    }
                    retval.push(node);
                },
                Err(error) => {
                    return Err(error);
                },
            }
        }
    }
}

/// The view of a block that may be absent.
pub open spec fn optional_view(node: Option<Block>) -> Option<BlockView> {
    match node {
        Some(block) => Some(block@),
        None => None,
    }
}

/// The bounds of a header or a paragraph: the line feed.
fn line_bounds() -> (bounds: Vec<String>)
    ensures
        stop_set(bounds@) == line_stops(),
{
    let mut bounds: Vec<String> = Vec::new();
    bounds.push(String::from_str("\n"));
    proof {
        let all = texts(bounds@);
        assert(all =~= seq!["\n"@]);
        assert(all[0] == "\n"@);
        assert(stop_set(bounds@) =~= line_stops());
    }
    bounds
}

impl Parser {
    /// Reads a header whose first `#` has been taken: the `#` that follow,
    /// then the rest of the line.
    pub fn parse_header(&mut self) -> (parsed: Result<Header, ParseError>)
        ensures
            match header(old(self).stream(), old(self).position()) {
                Ok((node, next)) => parsed matches Ok(read) && Block::Header(read)@ == node
                    && read.size >= 1 && moved(*old(self), *final(self), next),
                Err(failure) => parsed matches Err(error) && failed(
                    *old(self),
                    *final(self),
                    failure,
                    error,
                ),
            },
    {
        let ghost tokens = self.stream();
        let first = self.index;
        let hash = String::from_str("#");
        while self.accept(&hash).is_some()
            invariant
                self.tokens == old(self).tokens,
                tokens == old(self).stream(),
                first == old(self).index,
                hash@ == "#"@,
                first <= self.index,
                hashes(tokens, first as nat) == (self.index - first) + hashes(
                    tokens,
                    self.position(),
                ),
            decreases self.tokens.len() - self.index,
        {
        }
        let rest = self.index;
        let bounds = line_bounds();
        proof {
            lemma_inlines_end(tokens, rest as nat, line_stops());
        }
        match self.parse_formatted_text(&bounds) {
            Ok(children) => {
                assert(rest < tokens.len() == self.tokens.len());
                // One for the `#` taken before the call, one for each taken here.
                Ok(Header { size: rest - first + 1, children })
            },
            Err(error) => Err(error),
        }
    }

    /// Reads a paragraph: the rest of the line.
    pub fn parse_paragraph(&mut self) -> (parsed: Result<Paragraph, ParseError>)
        ensures
            match inlines(old(self).stream(), old(self).position(), line_stops()) {
                Ok((children, next)) => parsed matches Ok(read) && inline_views(read.children@)
                    == children && moved(*old(self), *final(self), next),
                Err(failure) => parsed matches Err(error) && failed(
                    *old(self),
                    *final(self),
                    failure,
                    error,
                ),
            },
    {
        let bounds = line_bounds();
        match self.parse_formatted_text(&bounds) {
            Ok(children) => Ok(Paragraph { children }),
            Err(error) => Err(error),
        }
    }

    /// Reads the block that begins at the cursor; a line feed there is taken
    /// and gives no block.
    pub fn parse_node(&mut self) -> (parsed: Result<Option<Block>, ParseError>)
        ensures
            match node_at(old(self).stream(), old(self).position()) {
                Ok((node, next)) => parsed matches Ok(read) && optional_view(read) == node
                    && moved(*old(self), *final(self), next),
                Err(failure) => parsed matches Err(error) && failed(
                    *old(self),
                    *final(self),
                    failure,
                    error,
                ),
            },
    {
        if self.accept(&String::from_str("#")).is_some() {
            match self.parse_header() {
                Ok(node) => Ok(Some(Block::Header(node))),
                Err(error) => Err(error),
            }
        } else if self.accept(&String::from_str("```")).is_some() {
            match self.parse_code_block() {
                Ok(node) => Ok(Some(Block::CodeBlock(node))),
                Err(error) => Err(error),
            }
        } else if self.accept(&String::from_str("!")).is_some() {
            match self.parse_image() {
                Ok(node) => Ok(Some(Block::Image(node))),
                Err(error) => Err(error),
            }
        } else if self.accept(&String::from_str("\n")).is_some() {
            Ok(None)
        } else {
            match self.parse_paragraph() {
                Ok(node) => Ok(Some(Block::Paragraph(node))),
                Err(error) => Err(error),
            }
        }
    }

    /// Reads the blocks from the cursor up to the last token.
    pub fn parse_document(&mut self) -> (parsed: Result<Vec<Block>, ParseError>)
        ensures
            match blocks(old(self).stream(), old(self).position()) {
                Ok((nodes, end)) => parsed matches Ok(read) && block_views(read@) == nodes
                    && moved(*old(self), *final(self), end),
                Err(failure) => parsed matches Err(error) && failed(
                    *old(self),
                    *final(self),
                    failure,
                    error,
                ),
            },
    {
        let mut retval: Vec<Block> = Vec::new();
        let ghost tokens = self.stream();
        let ghost start = self.position();
        while self.tokens.len() > 0 && self.index < self.tokens.len() - 1
            invariant
                self.tokens == old(self).tokens,
                tokens == old(self).stream(),
                start == old(self).position(),
                match blocks(tokens, self.position()) {
                    Ok((rest, end)) => blocks(tokens, start) == Ok::<_, Failure>(
                        (block_views(retval@) + rest, end),
                    ),
                    Err(failure) => blocks(tokens, start) == Err::<(Seq<BlockView>, nat), _>(
                        failure,
                    ),
                },
            decreases self.tokens.len() - self.index,
        {
            proof {
                lemma_node_advances(tokens, self.position());
            }
            match self.parse_node() {
                Ok(Some(node)) => {
                    proof {
                        let views = block_views(retval@);
                        assert(block_views(retval@.push(node)) =~= views.push(node@));
                        if let Ok((rest, _)) = blocks(tokens, self.position()) {
                            assert(views + (seq![node@] + rest) =~= views.push(node@) + rest);
                        }
                    }
                    retval.push(node);
                },
                Ok(None) => {},
                Err(error) => {
                    return Err(error);
                },
            }
        }
        assert(block_views(retval@) + Seq::<BlockView>::empty() =~= block_views(retval@));
        Ok(retval)
    }
}

} // verus!
