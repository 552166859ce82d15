use md_to_html::nodes::{
    get_child_html_vec, inline_string, render_document, Block, Bold, Code, CodeBlock, Header,
    Image, Inline, Italic, Link, Node, Paragraph, Text,
};
use md_to_html::strings::{join_all, to_decimal, without_cr};

fn text(s: &str) -> Inline {
    Inline::Text(Text { text: s.to_string() })
}

#[test]
fn decimal_numerals() {
    assert_eq!(to_decimal(0), "0");
    assert_eq!(to_decimal(7), "7");
    assert_eq!(to_decimal(10), "10");
    assert_eq!(to_decimal(12345), "12345");
    assert_eq!(to_decimal(usize::MAX), usize::MAX.to_string());
}

#[test]
fn carriage_returns_are_removed() {
    assert_eq!(without_cr("a\r\nb\r"), "a\nb");
    assert_eq!(without_cr("\r\r"), "");
    assert_eq!(without_cr("plain"), "plain");
}

#[test]
fn strings_are_joined_in_order() {
    assert_eq!(join_all(&vec!["ab".to_string(), "".to_string(), "c".to_string()]), "abc");
    assert_eq!(join_all(&Vec::new()), "");
}

#[test]
fn text_renders_without_carriage_returns_and_unescaped() {
    assert_eq!(Text { text: "a < b & c\r".to_string() }.get_string(), "a < b & c");
}

#[test]
fn code_renders_verbatim() {
    assert_eq!(Code { text: "a*b\r<i>".to_string() }.get_string(), "<code>a*b\r<i></code>");
}

#[test]
fn link_renders_target_and_text() {
    let link = Link { text: "text".to_string(), url: "url".to_string() };
    assert_eq!(link.get_string(), "<a href=\"url\">text</a>");
}

#[test]
fn italic_and_bold_render_their_children() {
    let italic = Italic { children: vec![text("a "), text("b")] };
    assert_eq!(italic.get_string(), "<em>a b</em>");
    let bold = Bold { children: vec![text("x"), Inline::Italic(italic)] };
    assert_eq!(bold.get_string(), "<strong>x<em>a b</em></strong>");
    assert_eq!(Italic { children: Vec::new() }.get_string(), "<em></em>");
}

#[test]
fn inline_nodes_render_as_their_variant() {
    assert_eq!(text("t\r").get_string(), "t");
    assert_eq!(Inline::Code(Code { text: "c".to_string() }).get_string(), "<code>c</code>");
    assert_eq!(inline_string(&Inline::Bold(Bold { children: vec![text("b")] })), "<strong>b</strong>");
    let link = Inline::Link(Link { text: "t".to_string(), url: "u".to_string() });
    assert_eq!(inline_string(&link), "<a href=\"u\">t</a>");
}

#[test]
fn children_render_one_by_one() {
    let children = vec![text("a"), Inline::Code(Code { text: "b".to_string() }), text("c\r")];
    assert_eq!(get_child_html_vec(&children), vec!["a", "<code>b</code>", "c"]);
    assert_eq!(get_child_html_vec(&Vec::new()), Vec::<String>::new());
}

#[test]
fn header_ends_in_one_line_feed() {
    let header = Header { size: 2, children: vec![text("Title")] };
    assert_eq!(header.get_string(), "<h2>Title</h2>\n");
}

#[test]
fn header_level_is_not_clamped() {
    let header = Header { size: 12, children: vec![text("deep")] };
    assert_eq!(header.get_string(), "<h12>deep</h12>\n");
}

#[test]
fn header_text_is_not_trimmed() {
    let header = Header { size: 1, children: vec![text("  spaced ")] };
    assert_eq!(header.get_string(), "<h1>  spaced </h1>\n");
}

#[test]
fn paragraph_ends_in_two_line_feeds() {
    let paragraph = Paragraph { children: vec![text("a"), text("b")] };
    assert_eq!(paragraph.get_string(), "<p>ab</p>\n\n");
}

#[test]
fn code_block_ends_in_two_line_feeds() {
    let block = CodeBlock { text: "x < y\n*z*".to_string() };
    assert_eq!(block.get_string(), "<pre><code>x < y\n*z*</code></pre>\n\n");
}

#[test]
fn image_ends_in_two_line_feeds() {
    let image = Image { text: "alt".to_string(), url: "url".to_string() };
    assert_eq!(image.get_string(), "<img src=\"url\" alt=\"alt\" />\n\n");
}

#[test]
fn document_renders_blocks_in_order() {
    let nodes = vec![
        Block::Header(Header { size: 1, children: vec![text("T")] }),
        Block::Paragraph(Paragraph { children: vec![text("p")] }),
        Block::CodeBlock(CodeBlock { text: "c".to_string() }),
        Block::Image(Image { text: "a".to_string(), url: "u".to_string() }),
    ];
    assert_eq!(
        render_document(&nodes),
        "<h1>T</h1>\n<p>p</p>\n\n<pre><code>c</code></pre>\n\n<img src=\"u\" alt=\"a\" />\n\n"
    );
    assert_eq!(nodes[0].get_string(), "<h1>T</h1>\n");
    assert_eq!(render_document(&Vec::new()), "");
}

#[test]
fn rendering_twice_gives_the_same() {
    let node = Block::Paragraph(Paragraph {
        children: vec![
            text("a\r"),
            Inline::Italic(Italic { children: vec![text("b"), Inline::Bold(Bold { children: vec![text("c")] })] }),
        ],
    });
    let first = node.get_string();
    let second = node.get_string();
    assert_eq!(first, second);
    assert_eq!(first, "<p>a<em>b<strong>c</strong></em></p>\n\n");
}
