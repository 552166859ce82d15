use md_to_html::nodes::{Block, Inline};
use md_to_html::parser::{create_parser, Found, Parser};

fn lit(s: &str) -> String {
    s.to_string()
}

fn line() -> Vec<String> {
    vec![lit("\n")]
}

#[test]
fn parser_starts_at_the_first_token() {
    let parser = create_parser(lit("a*"));
    assert_eq!(parser.index, 0);
    assert_eq!(parser.tokens.len(), 3);
}

#[test]
fn peek_does_not_move() {
    let parser = create_parser(lit("a*"));
    assert_eq!(parser.peek().map(|t| t.data), Some(lit("a")));
    assert_eq!(parser.peek().map(|t| t.data), Some(lit("a")));
    assert_eq!(parser.index, 0);
}

#[test]
fn pop_takes_each_token_once() {
    let mut parser = create_parser(lit("a*"));
    assert_eq!(parser.pop().map(|t| t.data), Some(lit("a")));
    assert_eq!(parser.pop().map(|t| t.data), Some(lit("*")));
    assert_eq!(parser.pop().map(|t| t.data), Some(lit("\n")));
    assert_eq!(parser.index, 3);
    assert!(parser.pop().is_none());
    assert!(parser.peek().is_none());
    assert_eq!(parser.index, 3);
}

#[test]
fn accept_takes_only_the_literal() {
    let mut parser = create_parser(lit("a*"));
    assert!(parser.accept(&lit("*")).is_none());
    assert_eq!(parser.index, 0);
    assert_eq!(parser.accept(&lit("a")).map(|t| (t.data, t.line, t.col)), Some((lit("a"), 1, 1)));
    assert_eq!(parser.index, 1);
    assert!(parser.accept(&lit("*")).is_some());
    assert!(parser.accept(&lit("\n")).is_some());
    assert!(parser.accept(&lit("\n")).is_none());
    assert_eq!(parser.index, 3);
}

#[test]
fn expect_fails_on_text_and_on_another_delimiter() {
    let mut parser = create_parser(lit("a*"));
    let e = parser.expect(lit("]")).unwrap_err();
    assert_eq!((e.line, e.col, e.expected.as_str()), (1, 1, "]"));
    assert!(matches!(e.found, Found::Text));
    assert_eq!(parser.index, 0);
    assert!(parser.expect(lit("a")).is_ok());
    assert_eq!(parser.index, 1);
    let e = parser.expect(lit("]")).unwrap_err();
    assert_eq!((e.line, e.col), (1, 2));
    match e.found {
        Found::Special(found) => assert_eq!(found, "*"),
        _ => panic!("not a special token"),
    }
    assert_eq!(parser.index, 1);
}

#[test]
fn expect_fails_behind_the_last_token() {
    let mut parser = create_parser(lit("a"));
    assert!(parser.pop().is_some());
    assert!(parser.pop().is_some());
    let e = parser.expect(lit(")")).unwrap_err();
    assert!(matches!(e.found, Found::Nothing));
    assert_eq!(e.message(), "error: 1:1 expected `)` got nothing");
}

#[test]
fn expect_on_an_empty_token_finds_text() {
    let mut parser = create_parser(lit(""));
    let e = parser.expect(lit("x")).unwrap_err();
    assert!(matches!(e.found, Found::Text));
}

#[test]
fn parser_without_tokens() {
    let mut parser = Parser { tokens: Vec::new(), index: 0 };
    assert!(parser.peek().is_none());
    assert!(parser.pop().is_none());
    assert_eq!(parser.parse_document().map(|nodes| nodes.len()).ok(), Some(0));
    let e = parser.expect(lit("x")).unwrap_err();
    assert_eq!(e.message(), "error: 1:1 expected `x` got nothing");
    let e = parser.parse_formatted_text(&line()).err().unwrap();
    assert_eq!(e.message(), "error: 1:1 expected `\n` got nothing");
}

#[test]
fn formatted_text_stops_at_a_bound() {
    let mut parser = create_parser(lit("a *b* c\nd"));
    let nodes = parser.parse_formatted_text(&line()).ok().unwrap();
    assert_eq!(nodes.len(), 3);
    assert!(matches!(&nodes[0], Inline::Text(t) if t.text == "a "));
    assert!(matches!(&nodes[1], Inline::Italic(i) if i.children.len() == 1));
    assert!(matches!(&nodes[2], Inline::Text(t) if t.text == " c"));
    assert_eq!(parser.index, 5);
    assert_eq!(parser.peek().map(|t| t.data), Some(lit("\n")));
}

#[test]
fn formatted_text_with_other_bounds() {
    let mut parser = create_parser(lit("a]b"));
    let nodes = parser.parse_formatted_text(&vec![lit("]")]).ok().unwrap();
    assert_eq!(nodes.len(), 1);
    assert_eq!(parser.index, 1);
    let nodes = parser.parse_formatted_text(&vec![lit("]")]).ok().unwrap();
    assert_eq!(nodes.len(), 0);
    assert_eq!(parser.index, 1);
}

#[test]
fn italic_and_bold_read_up_to_their_closer() {
    let mut parser = create_parser(lit("*a_ b"));
    assert!(parser.accept(&lit("*")).is_some());
    let node = parser.parse_italic(&line()).ok().unwrap();
    assert_eq!(node.children.len(), 1);
    assert_eq!(parser.index, 3);

    let mut parser = create_parser(lit("__a *b* c** d"));
    assert!(parser.accept(&lit("__")).is_some());
    let node = parser.parse_bold(&line()).ok().unwrap();
    assert_eq!(node.children.len(), 3);
    assert_eq!(parser.peek().map(|t| t.data), Some(lit(" d")));
}

#[test]
fn italic_inside_bold_cannot_pass_the_outer_closer() {
    let mut parser = create_parser(lit("**a *b** c"));
    let e = parser.parse_document().err().unwrap();
    assert_eq!(e.message(), "error: 1:7 expected `_` got `**`");
    assert_eq!(parser.index, 4);
}

#[test]
fn code_and_code_block_join_raw_tokens() {
    let mut parser = create_parser(lit("`a*b` c"));
    assert!(parser.accept(&lit("`")).is_some());
    assert_eq!(parser.parse_code().ok().unwrap().text, "a*b");
    assert_eq!(parser.index, 5);

    let mut parser = create_parser(lit("```x\n# y```z"));
    assert!(parser.accept(&lit("```")).is_some());
    assert_eq!(parser.parse_code_block().ok().unwrap().text, "x\n#y");
    assert_eq!(parser.peek().map(|t| t.data), Some(lit("z")));
}

#[test]
fn link_and_image_take_any_token_as_text() {
    let mut parser = create_parser(lit("[\n](\r)"));
    assert!(parser.accept(&lit("[")).is_some());
    let link = parser.parse_link().ok().unwrap();
    assert_eq!((link.text.as_str(), link.url.as_str()), ("\n", "\r"));

    let mut parser = create_parser(lit("![a](b)"));
    assert!(parser.accept(&lit("!")).is_some());
    let image = parser.parse_image().ok().unwrap();
    assert_eq!((image.text.as_str(), image.url.as_str()), ("a", "b"));
    assert_eq!(parser.index, 7);
}

#[test]
fn header_counts_its_hashes() {
    let mut parser = create_parser(lit("### a"));
    assert!(parser.accept(&lit("#")).is_some());
    let header = parser.parse_header().ok().unwrap();
    assert_eq!(header.size, 3);
    assert_eq!(header.children.len(), 1);
    assert_eq!(parser.index, 4);
}

#[test]
fn paragraph_reads_one_line() {
    let mut parser = create_parser(lit("a `b`\nc"));
    let paragraph = parser.parse_paragraph().ok().unwrap();
    assert_eq!(paragraph.children.len(), 2);
    assert_eq!(parser.peek().map(|t| t.data), Some(lit("\n")));
}

#[test]
fn node_is_chosen_by_its_first_token() {
    let mut parser = create_parser(lit("# h\n```c```![a](u)\np"));
    assert!(matches!(parser.parse_node(), Ok(Some(Block::Header(_)))));
    assert!(matches!(parser.parse_node(), Ok(None)));
    assert!(matches!(parser.parse_node(), Ok(Some(Block::CodeBlock(_)))));
    assert!(matches!(parser.parse_node(), Ok(Some(Block::Image(_)))));
    assert!(matches!(parser.parse_node(), Ok(None)));
    assert!(matches!(parser.parse_node(), Ok(Some(Block::Paragraph(_)))));
    assert_eq!(parser.index, parser.tokens.len() - 1);
}

#[test]
fn document_keeps_the_order_of_its_blocks() {
    let mut parser = create_parser(lit("p\n# h\n![a](u)"));
    let nodes = parser.parse_document().ok().unwrap();
    assert_eq!(nodes.len(), 3);
    assert!(matches!(nodes[0], Block::Paragraph(_)));
    assert!(matches!(nodes[1], Block::Header(_)));
    assert!(matches!(nodes[2], Block::Image(_)));
    assert_eq!(parser.index, parser.tokens.len() - 1);
    assert_eq!(parser.parse_document().ok().unwrap().len(), 0);
}
