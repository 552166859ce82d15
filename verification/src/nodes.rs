//! The syntax tree and its rendering to HTML.
//!
//! A document is a sequence of blocks; headers and paragraphs hold inline
//! nodes, and emphasis holds inline nodes in turn. Rendering inserts every text
//! as it is: nothing is escaped. A header ends in one line feed, every other
//! block in two, and a header's text is rendered untrimmed.

use vstd::prelude::*;
use vstd::string::*;
use crate::strings::{join_all, decimal, push_decimal, strip_cr, texts, without_cr};

verus! {

/// Plain text.
pub struct Text {
    pub text: String,
}

/// Emphasis: `*...*` or `_..._`.
pub struct Italic {
    pub children: Vec<Inline>,
}

/// Strong emphasis: `**...**` or `__...__`.
pub struct Bold {
    pub children: Vec<Inline>,
}

/// A code span, kept verbatim.
pub struct Code {
    pub text: String,
}

/// A link with its text and its target.
pub struct Link {
    pub text: String,
    pub url: String,
}

/// A node inside a block.
pub enum Inline {
    Text(Text),
    Italic(Italic),
    Bold(Bold),
    Code(Code),
    Link(Link),
}

/// A header of level `size`, which is 1 or more.
pub struct Header {
    pub size: usize,
    pub children: Vec<Inline>,
}

/// A paragraph.
pub struct Paragraph {
    pub children: Vec<Inline>,
}

/// A fenced code block, kept verbatim.
pub struct CodeBlock {
    pub text: String,
}

/// An image with its alternative text and its source.
pub struct Image {
    pub text: String,
    pub url: String,
}

/// A top-level node of a document.
pub enum Block {
    Header(Header),
    Paragraph(Paragraph),
    CodeBlock(CodeBlock),
    Image(Image),
}

/// What an inline node is.
pub enum InlineView {
    Text { text: Seq<char> },
    Italic { children: Seq<InlineView> },
    Bold { children: Seq<InlineView> },
    Code { text: Seq<char> },
    Link { text: Seq<char>, url: Seq<char> },
}

/// What a block is.
pub enum BlockView {
    Header { level: nat, children: Seq<InlineView> },
    Paragraph { children: Seq<InlineView> },
    CodeBlock { text: Seq<char> },
    Image { alt: Seq<char>, url: Seq<char> },
}

/// The view of an inline node.
pub open spec fn inline_view(node: Inline) -> InlineView
    decreases node,
{
    match node {
        Inline::Text(t) => InlineView::Text { text: t.text@ },
        Inline::Italic(e) => InlineView::Italic {
            children: Seq::new(
                e.children@.len(),
                |i: int|
                    if 0 <= i < e.children@.len() {
                        inline_view(e.children@[i])
                    } else {
                        arbitrary()
                    },
            ),
        },
        Inline::Bold(e) => InlineView::Bold {
            children: Seq::new(
                e.children@.len(),
                |i: int|
                    if 0 <= i < e.children@.len() {
                        inline_view(e.children@[i])
                    } else {
                        arbitrary()
                    },
            ),
        },
        Inline::Code(c) => InlineView::Code { text: c.text@ },
        Inline::Link(l) => InlineView::Link { text: l.text@, url: l.url@ },
    }
}

/// The views of a sequence of inline nodes.
pub open spec fn inline_views(nodes: Seq<Inline>) -> Seq<InlineView> {
    nodes.map_values(|n: Inline| inline_view(n))
}

/// The view of a block.
pub open spec fn block_view(node: Block) -> BlockView {
    match node {
        Block::Header(h) => BlockView::Header {
            level: h.size as nat,
            children: inline_views(h.children@),
        },
        Block::Paragraph(p) => BlockView::Paragraph { children: inline_views(p.children@) },
        Block::CodeBlock(c) => BlockView::CodeBlock { text: c.text@ },
        Block::Image(i) => BlockView::Image { alt: i.text@, url: i.url@ },
    }
}

/// The views of a sequence of blocks.
pub open spec fn block_views(nodes: Seq<Block>) -> Seq<BlockView> {
    nodes.map_values(|n: Block| block_view(n))
}

impl View for Inline {
    type V = InlineView;

    open spec fn view(&self) -> InlineView {
        inline_view(*self)
    }
}

impl View for Block {
    type V = BlockView;

    open spec fn view(&self) -> BlockView {
        block_view(*self)
    }
}

/// The HTML of an inline node.
pub open spec fn inline_html(node: InlineView) -> Seq<char>
    decreases node,
{
    match node {
        InlineView::Text { text } => strip_cr(text),
        InlineView::Italic { children } => "<em>"@ + inlines_html(children) + "</em>"@,
        InlineView::Bold { children } => "<strong>"@ + inlines_html(children) + "</strong>"@,
        InlineView::Code { text } => "<code>"@ + text + "</code>"@,
        InlineView::Link { text, url } => "<a href=\""@ + url + "\">"@ + text + "</a>"@,
    }
}

/// The HTML of a sequence of inline nodes: that of each, in order.
pub open spec fn inlines_html(nodes: Seq<InlineView>) -> Seq<char>
    decreases nodes,
{
    if nodes.len() == 0 {
        Seq::empty()
    } else {
        inlines_html(nodes.drop_last()) + inline_html(nodes.last())
    }
}

/// The HTML of a block.
pub open spec fn block_html(node: BlockView) -> Seq<char> {
    match node {
        BlockView::Header { level, children } => "<h"@ + decimal(level) + ">"@ + inlines_html(
            children,
        ) + "</h"@ + decimal(level) + ">\n"@,
        BlockView::Paragraph { children } => "<p>"@ + inlines_html(children) + "</p>\n\n"@,
        BlockView::CodeBlock { text } => "<pre><code>"@ + text + "</code></pre>\n\n"@,
        BlockView::Image { alt, url } => "<img src=\""@ + url + "\" alt=\""@ + alt
            + "\" />\n\n"@,
    }
}

/// The HTML of a document: that of each block, in order.
pub open spec fn document_html(nodes: Seq<BlockView>) -> Seq<char>
    decreases nodes.len(),
{
    if nodes.len() == 0 {
        Seq::empty()
    } else {
        document_html(nodes.drop_last()) + block_html(nodes.last())
    }
}

/// The view of emphasis is made of the views of its children.
pub proof fn lemma_container_views(children: Vec<Inline>)
    ensures
        inline_view(Inline::Italic(Italic { children })) == (InlineView::Italic {
            children: inline_views(children@),
        }),
        inline_view(Inline::Bold(Bold { children })) == (InlineView::Bold {
            children: inline_views(children@),
        }),
{
    let views = inline_views(children@);
    assert(inline_view(Inline::Italic(Italic { children }))->Italic_children =~= views);
    assert(inline_view(Inline::Bold(Bold { children }))->Bold_children =~= views);
}

/// The HTML of a sequence of inline nodes is the HTML of each of them, joined.
pub proof fn lemma_inlines_html_joined(parts: Seq<Seq<char>>, nodes: Seq<InlineView>)
    requires
        parts.len() == nodes.len(),
        forall|i: int| 0 <= i < nodes.len() ==> parts[i] == inline_html(nodes[i]),
    ensures
        parts.flatten() == inlines_html(nodes),
    decreases nodes.len(),
{
    broadcast use Seq::lemma_flatten_push;

    if nodes.len() > 0 {
        lemma_inlines_html_joined(parts.drop_last(), nodes.drop_last());
        assert(parts =~= parts.drop_last().push(parts.last()));
    }
}

/// A node of the syntax tree: it renders itself to HTML.
pub trait Node {
    /// The HTML of the node.
    spec fn html(&self) -> Seq<char>;

    /// Renders the node to HTML.
    fn get_string(&self) -> (out: String)
        ensures
            out@ == self.html(),
    ;
}

/// Renders each of `children`, in order.
pub fn get_child_html_vec(children: &Vec<Inline>) -> (parts: Vec<String>)
    ensures
        parts.len() == children.len(),
        forall|i: int| 0 <= i < children.len() ==> parts[i]@ == inline_html(children[i]@),
    decreases children, 0nat,
{
    let mut parts: Vec<String> = Vec::new();
    let mut i: usize = 0;
    while i < children.len()
        invariant
            i <= children.len(),
            parts.len() == i,
            forall|j: int| 0 <= j < i ==> parts[j]@ == inline_html(children[j]@),
        decreases children.len() - i,
    {
        let part = inline_string(&children[i]);
        parts.push(part);
        i = i + 1;
    }
    parts
}

/// Renders `children` one after another, between `open` and `close`.
fn enclosed(open: &str, children: &Vec<Inline>, close: &str) -> (out: String)
    ensures
        out@ == open@ + inlines_html(inline_views(children@)) + close@,
    decreases children, 1nat,
{
    let parts = get_child_html_vec(children);
    proof {
        lemma_inlines_html_joined(texts(parts@), inline_views(children@));
    }
    let inner = join_all(&parts);
    let mut out = String::from_str(open);
    out.append(inner.as_str());
    out.append(close);
    out
}

/// Renders an inline node to HTML.
pub fn inline_string(node: &Inline) -> (out: String)
    ensures
        out@ == inline_html(node@),
    decreases node, 0nat,
{
    match node {
        Inline::Text(t) => t.get_string(),
        Inline::Italic(e) => {
            proof {
                lemma_container_views(e.children);
            }
            enclosed("<em>", &e.children, "</em>")
        },
        Inline::Bold(e) => {
            proof {
                lemma_container_views(e.children);
            }
            enclosed("<strong>", &e.children, "</strong>")
        },
        Inline::Code(c) => c.get_string(),
        Inline::Link(l) => l.get_string(),
    }
}

impl Node for Text {
    open spec fn html(&self) -> Seq<char> {
        inline_html(InlineView::Text { text: self.text@ })
    }

    fn get_string(&self) -> (out: String) {
        without_cr(self.text.as_str())
    }
}

impl Node for Italic {
    open spec fn html(&self) -> Seq<char> {
        inline_html(InlineView::Italic { children: inline_views(self.children@) })
    }

    fn get_string(&self) -> (out: String) {
        enclosed("<em>", &self.children, "</em>")
    }
}

impl Node for Bold {
    open spec fn html(&self) -> Seq<char> {
        inline_html(InlineView::Bold { children: inline_views(self.children@) })
    }

    fn get_string(&self) -> (out: String) {
        enclosed("<strong>", &self.children, "</strong>")
    }
}

impl Node for Code {
    open spec fn html(&self) -> Seq<char> {
        inline_html(InlineView::Code { text: self.text@ })
    }

    fn get_string(&self) -> (out: String) {
        let mut out = String::from_str("<code>");
        out.append(self.text.as_str());
        out.append("</code>");
        out
    }
}

impl Node for Link {
    open spec fn html(&self) -> Seq<char> {
        inline_html(InlineView::Link { text: self.text@, url: self.url@ })
    }

    fn get_string(&self) -> (out: String) {
        let mut out = String::from_str("<a href=\"");
        out.append(self.url.as_str());
        out.append("\">");
        out.append(self.text.as_str());
        out.append("</a>");
        out
    }
}

impl Node for Inline {
    open spec fn html(&self) -> Seq<char> {
        inline_html(self@)
    }

    fn get_string(&self) -> (out: String) {
        inline_string(self)
    }
}

impl Node for Header {
    open spec fn html(&self) -> Seq<char> {
        block_html(
            BlockView::Header { level: self.size as nat, children: inline_views(self.children@) },
        )
    }

    fn get_string(&self) -> (out: String) {
        let mut open = String::from_str("<h");
        push_decimal(&mut open, self.size);
        open.append(">");
        let mut close = String::from_str("</h");
        push_decimal(&mut close, self.size);
        close.append(">\n");
        let out = enclosed(open.as_str(), &self.children, close.as_str());
        assert(out@ =~= self.html());
        out
    }
}

impl Node for Paragraph {
    open spec fn html(&self) -> Seq<char> {
        block_html(BlockView::Paragraph { children: inline_views(self.children@) })
    }

    fn get_string(&self) -> (out: String) {
        enclosed("<p>", &self.children, "</p>\n\n")
    }
}

impl Node for CodeBlock {
    open spec fn html(&self) -> Seq<char> {
        block_html(BlockView::CodeBlock { text: self.text@ })
    }

    fn get_string(&self) -> (out: String) {
        let mut out = String::from_str("<pre><code>");
        out.append(self.text.as_str());
        out.append("</code></pre>\n\n");
        out
    }
}

impl Node for Image {
    open spec fn html(&self) -> Seq<char> {
        block_html(BlockView::Image { alt: self.text@, url: self.url@ })
    }

    fn get_string(&self) -> (out: String) {
        let mut out = String::from_str("<img src=\"");
        out.append(self.url.as_str());
        out.append("\" alt=\"");
        out.append(self.text.as_str());
        out.append("\" />\n\n");
        out
    }
}

impl Node for Block {
    open spec fn html(&self) -> Seq<char> {
        block_html(self@)
    }

    fn get_string(&self) -> (out: String) {
        match self {
            Block::Header(h) => h.get_string(),
            Block::Paragraph(p) => p.get_string(),
            Block::CodeBlock(c) => c.get_string(),
            Block::Image(i) => i.get_string(),
        }
    }
}

/// Renders a document: the HTML of each block, in order.
pub fn render_document(nodes: &Vec<Block>) -> (out: String)
    ensures
        out@ == document_html(block_views(nodes@)),
{
    let mut out = String::new();
    let mut i: usize = 0;
    while i < nodes.len()
        invariant
            i <= nodes.len(),
            out@ == document_html(block_views(nodes@.take(i as int))),
        decreases nodes.len() - i,
    {
        proof {
            let views = block_views(nodes@.take(i + 1));
            assert(views.drop_last() =~= block_views(nodes@.take(i as int)));
        }
        let part = nodes[i].get_string();
        out.append(part.as_str());
        i = i + 1;
    }
    assert(nodes@.take(nodes@.len() as int) =~= nodes@);
    out
}

} // verus!
