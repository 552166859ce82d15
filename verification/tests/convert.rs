use md_to_html::parser::{Found, ParseError};
use md_to_html::to_html;

fn html(text: &str) -> String {
    match to_html(text.to_string()) {
        Ok(out) => out,
        Err(error) => panic!("{}", error.message()),
    }
}

fn error(text: &str) -> ParseError {
    match to_html(text.to_string()) {
        Ok(out) => panic!("rendered {:?}", out),
        Err(error) => error,
    }
}

#[test]
fn header_levels_one_to_seven() {
    assert_eq!(html("# Title"), "<h1>Title</h1>\n");
    assert_eq!(html("## Title"), "<h2>Title</h2>\n");
    assert_eq!(html("### Title"), "<h3>Title</h3>\n");
    assert_eq!(html("#### Title"), "<h4>Title</h4>\n");
    assert_eq!(html("##### Title"), "<h5>Title</h5>\n");
    assert_eq!(html("###### Title"), "<h6>Title</h6>\n");
    assert_eq!(html("####### Title"), "<h7>Title</h7>\n");
}

#[test]
fn header_of_every_level_up_to_forty() {
    for level in 1..=40usize {
        let text = format!("{} W", "#".repeat(level));
        assert_eq!(html(&text), format!("<h{}>W</h{}>\n", level, level));
    }
}

#[test]
fn header_without_a_space_takes_the_next_line() {
    assert_eq!(html("#\nfoo"), "<h1>foo</h1>\n");
    assert_eq!(html("#\n"), "<h1></h1>\n");
}

#[test]
fn header_keeps_further_spaces() {
    assert_eq!(html("#  x"), "<h1> x</h1>\n");
}

#[test]
fn header_holds_inline_nodes() {
    assert_eq!(html("## a *b* `c`\nnext"), "<h2>a <em>b</em> <code>c</code></h2>\n<p>next</p>\n\n");
}

#[test]
fn emphasis_with_either_delimiter() {
    assert_eq!(html("*word*"), "<p><em>word</em></p>\n\n");
    assert_eq!(html("_word_"), "<p><em>word</em></p>\n\n");
    assert_eq!(html("**word**"), "<p><strong>word</strong></p>\n\n");
    assert_eq!(html("__word__"), "<p><strong>word</strong></p>\n\n");
}

#[test]
fn emphasis_closes_with_the_other_delimiter() {
    assert_eq!(html("*word_"), "<p><em>word</em></p>\n\n");
    assert_eq!(html("_word*"), "<p><em>word</em></p>\n\n");
    assert_eq!(html("**word__"), "<p><strong>word</strong></p>\n\n");
    assert_eq!(html("__word**"), "<p><strong>word</strong></p>\n\n");
}

#[test]
fn emphasis_nested() {
    assert_eq!(html("*a **b** c*"), "<p><em>a <strong>b</strong> c</em></p>\n\n");
    assert_eq!(html("**a *b* c**"), "<p><strong>a <em>b</em> c</strong></p>\n\n");
}

#[test]
fn code_span_is_verbatim() {
    assert_eq!(html("`code`"), "<p><code>code</code></p>\n\n");
    assert_eq!(html("`a*b_c`"), "<p><code>a*b_c</code></p>\n\n");
    assert_eq!(html("`a **b** [c](d) e`"), "<p><code>a **b** [c](d) e</code></p>\n\n");
    assert_eq!(html("`<b>&amp;`"), "<p><code><b>&amp;</code></p>\n\n");
}

#[test]
fn code_span_loses_whitespace_after_a_hash() {
    assert_eq!(html("`a # b`"), "<p><code>a #b</code></p>\n\n");
}

#[test]
fn code_block_is_verbatim() {
    assert_eq!(html("```text```"), "<pre><code>text</code></pre>\n\n");
    assert_eq!(html("```a*b_c```"), "<pre><code>a*b_c</code></pre>\n\n");
    assert_eq!(html("```\nlet x = *y;\n```"), "<pre><code>\nlet x = *y;\n</code></pre>\n\n");
    assert_eq!(html("```a `b` c```"), "<pre><code>a `b` c</code></pre>\n\n");
}

#[test]
fn image_and_link() {
    assert_eq!(html("![alt](url)"), "<img src=\"url\" alt=\"alt\" />\n\n");
    assert_eq!(html("[text](url)"), "<p><a href=\"url\">text</a></p>\n\n");
    assert_eq!(
        html("see [the site](http://example.com/a.b?c=d) now"),
        "<p>see <a href=\"http://example.com/a.b?c=d\">the site</a> now</p>\n\n"
    );
}

#[test]
fn two_paragraphs() {
    assert_eq!(html("one\n\ntwo"), "<p>one</p>\n\n<p>two</p>\n\n");
    assert_eq!(html("one\ntwo"), "<p>one</p>\n\n<p>two</p>\n\n");
    assert_eq!(html("one\n\n\n\ntwo\n"), "<p>one</p>\n\n<p>two</p>\n\n");
}

#[test]
fn blank_lines_give_nothing() {
    assert_eq!(html("\n"), "");
    assert_eq!(html("\n\n\n"), "");
}

#[test]
fn empty_text_gives_an_empty_paragraph() {
    assert_eq!(html(""), "<p></p>\n\n");
}

#[test]
fn carriage_returns_leave_the_text() {
    assert_eq!(html("a\r\nb"), "<p>a</p>\n\n<p>b</p>\n\n");
}

#[test]
fn text_is_not_escaped() {
    assert_eq!(html("a < b & c > d"), "<p>a < b & c > d</p>\n\n");
    assert_eq!(html("<h1>"), "<p><h1></p>\n\n");
}

#[test]
fn closers_alone_are_text() {
    assert_eq!(html("a) b] c"), "<p>a) b] c</p>\n\n");
    assert_eq!(html("wow!"), "<p>wow!</p>\n\n");
}

#[test]
fn whole_document() {
    let text = "# Title\n\nSome *text* with **bold** and `code`.\n\n![pic](p.png)\n```\nraw *x*\n```\n## End";
    let expected = "<h1>Title</h1>\n<p>Some <em>text</em> with <strong>bold</strong> and <code>code</code>.</p>\n\n<img src=\"p.png\" alt=\"pic\" />\n\n<pre><code>\nraw *x*\n</code></pre>\n\n<h2>End</h2>\n";
    assert_eq!(html(text), expected);
}

#[test]
fn unterminated_emphasis_is_an_error() {
    let e = error("*word");
    assert_eq!((e.line, e.col), (1, 2));
    assert_eq!(e.expected, "_");
    assert!(matches!(e.found, Found::Text));
    assert_eq!(e.message(), "error: 1:2 expected `_` got text");
    assert_eq!(error("_word").message(), "error: 1:2 expected `_` got text");
    assert_eq!(error("*").message(), "error: 1:1 expected `_` got text");
}

#[test]
fn unterminated_emphasis_stops_at_the_end_of_its_line() {
    let e = error("*word\nnext*");
    assert_eq!((e.line, e.col), (1, 6));
    assert_eq!(e.message(), "error: 1:6 expected `_` got text");
}

#[test]
fn unterminated_strong_emphasis_is_an_error() {
    assert_eq!(error("**word").message(), "error: 1:3 expected `__` got text");
    assert_eq!(error("a **b* c").message(), "error: 1:7 expected `_` got text");
    assert_eq!(error("*a **b* c").message(), "error: 1:7 expected `__` got `*`");
}

#[test]
fn error_on_a_later_line() {
    let e = error("ok\n*bad");
    assert_eq!((e.line, e.col), (2, 2));
    assert_eq!(e.message(), "error: 2:2 expected `_` got text");
}

#[test]
fn wrong_delimiter_is_named() {
    let e = error("[text)(url)");
    assert_eq!((e.line, e.col), (1, 6));
    assert_eq!(e.expected, "]");
    match &e.found {
        Found::Special(found) => assert_eq!(found, ")"),
        _ => panic!("not a special token"),
    }
    assert_eq!(e.message(), "error: 1:6 expected `]` got `)`");
}

#[test]
fn link_without_its_end_is_an_error() {
    assert_eq!(error("[text](url").message(), "error: 1:8 expected `)` got text");
    assert_eq!(error("[text] (url)").message(), "error: 1:7 expected `(` got text");
}

#[test]
fn image_without_its_bracket_is_an_error() {
    assert_eq!(error("!alt").message(), "error: 1:2 expected `[` got text");
    assert_eq!(error("![alt]").message(), "error: 1:6 expected `(` got text");
}

#[test]
fn missing_token_is_an_error() {
    let e = error("![");
    assert_eq!((e.line, e.col), (1, 2));
    assert_eq!(e.expected, "]");
    assert!(matches!(e.found, Found::Nothing));
    assert_eq!(e.message(), "error: 1:2 expected `]` got nothing");
}

#[test]
fn unterminated_code_is_an_error() {
    let e = error("```code");
    assert_eq!(e.expected, "```");
    assert!(matches!(e.found, Found::Nothing));
    assert_eq!(e.message(), "error: 1:4 expected ````` got nothing");
    assert_eq!(error("a `b").message(), "error: 1:4 expected ``` got nothing");
}

#[test]
fn code_closed_by_a_joined_run_is_an_error() {
    assert!(to_html("`a*`".to_string()).is_err());
    assert!(to_html("```a*```".to_string()).is_err());
}

#[test]
fn nothing_is_rendered_after_an_error() {
    assert!(to_html("# fine\n\n*broken".to_string()).is_err());
}

#[test]
fn converting_twice_gives_the_same() {
    let text = "# a\n*b* `c`";
    assert_eq!(html(text), html(text));
}
