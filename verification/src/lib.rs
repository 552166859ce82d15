//! A converter from a light markup language to HTML: a tokenizer, a parser by
//! recursive descent, and a renderer, each with its contract.

use vstd::prelude::*;

pub mod chars;
pub mod grammar;
pub mod laws;
pub mod lexer;
pub mod nodes;
pub mod parser;
pub mod strings;

use crate::grammar::document;
use crate::lexer::tokens_of;
use crate::nodes::{document_html, render_document};
use crate::parser::{create_parser, diagnose, ParseError, ParseErrorView};

verus! {

/// The HTML of the text `text`, or the error that its parse ends in.
pub open spec fn html_of(text: Seq<char>) -> Result<Seq<char>, ParseErrorView> {
    let tokens = tokens_of(text);
    match document(tokens) {
        Ok(nodes) => Ok(document_html(nodes)),
        Err(failure) => Err(diagnose(tokens, failure)),
    }
}

/// Converts a whole text to HTML: tokenizes it, parses the tokens, and renders
/// the blocks in order. Nothing is rendered where the parse fails.
pub fn to_html(contents: String) -> (out: Result<String, ParseError>)
    ensures
        match html_of(contents@) {
            Ok(html) => out matches Ok(rendered) && rendered@ == html,
            Err(wrong) => out matches Err(error) && error@ == wrong,
        },
{
    let mut parser = create_parser(contents);
    match parser.parse_document() {
        Ok(nodes) => Ok(render_document(&nodes)),
        Err(error) => Err(error),
    }
}

} // verus!
