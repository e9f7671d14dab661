//! The Markdown parser and serializer, Comrak, as the formatter uses it.
//!
//! The formatter asks Comrak two things: an outline of the parsed document
//! (each node's kind and source lines, and the contents of each math span),
//! and the CommonMark serialization of the document with some math spans'
//! contents replaced. Both depend on nothing but the Markdown and the dialect
//! it is parsed in, and each is named here rather than described: what
//! CommonMark parsing and serialization produce takes a specification of its
//! own.

use vstd::prelude::*;

verus! {

#[verifier::external_type_specification]
#[verifier::external_body]
pub struct ExFmtError(std::fmt::Error);

#[verifier::external_type_specification]
#[verifier::external_body]
pub struct ExComrakOptions<'c>(comrak::Options<'c>);

#[verifier::external_type_specification]
#[verifier::external_body]
pub struct ExComrakAst(comrak::nodes::Ast);

/// The Markdown dialect a document is read and written in: which
/// extensions are on, and how the serializer lays text out.
pub struct Dialect {
    pub math_dollars: bool,
    pub math_latex: bool,
    pub table: bool,
    pub tasklist: bool,
    pub strikethrough: bool,
    pub alerts: bool,
    pub front_matter_delimiter: String,
    /// Line width the serializer wraps prose at; `0` for none.
    pub width: usize,
    pub prefer_fenced: bool,
}

pub struct DialectView {
    pub math_dollars: bool,
    pub math_latex: bool,
    pub table: bool,
    pub tasklist: bool,
    pub strikethrough: bool,
    pub alerts: bool,
    pub front_matter_delimiter: Seq<char>,
    pub width: nat,
    pub prefer_fenced: bool,
}

impl View for Dialect {
    type V = DialectView;

    open spec fn view(&self) -> DialectView {
        DialectView {
            math_dollars: self.math_dollars,
            math_latex: self.math_latex,
            table: self.table,
            tasklist: self.tasklist,
            strikethrough: self.strikethrough,
            alerts: self.alerts,
            front_matter_delimiter: self.front_matter_delimiter@,
            width: self.width as nat,
            prefer_fenced: self.prefer_fenced,
        }
    }
}

/// What a node of a parsed document is, as far as the formatter cares.
pub enum NodeKind {
    CodeBlock,
    HtmlBlock,
    FrontMatter,
    Math { display: bool, dollar: bool, literal: String },
    Other,
}

pub enum NodeKindView {
    CodeBlock,
    HtmlBlock,
    FrontMatter,
    Math { display: bool, dollar: bool, literal: Seq<char> },
    Other,
}

/// One node: its kind and the first and last source lines it spans,
/// counted from one.
pub struct Outline {
    pub kind: NodeKind,
    pub start_line: usize,
    pub end_line: usize,
}

pub struct OutlineView {
    pub kind: NodeKindView,
    pub start_line: nat,
    pub end_line: nat,
}

impl View for NodeKind {
    type V = NodeKindView;

    open spec fn view(&self) -> NodeKindView {
        match self {
            NodeKind::CodeBlock => NodeKindView::CodeBlock,
            NodeKind::HtmlBlock => NodeKindView::HtmlBlock,
            NodeKind::FrontMatter => NodeKindView::FrontMatter,
            NodeKind::Math { display, dollar, literal } => NodeKindView::Math {
                display: *display,
                dollar: *dollar,
                literal: literal@,
            },
            NodeKind::Other => NodeKindView::Other,
        }
    }
}

impl View for Outline {
    type V = OutlineView;

    open spec fn view(&self) -> OutlineView {
        OutlineView {
            kind: self.kind@,
            start_line: self.start_line as nat,
            end_line: self.end_line as nat,
        }
    }
}

pub open spec fn outline_views(v: Seq<Outline>) -> Seq<OutlineView> {
    v.map_values(|o: Outline| o@)
}

pub open spec fn string_views(v: Seq<Option<String>>) -> Seq<Option<Seq<char>>> {
    v.map_values(
        |o: Option<String>|
            match o {
                Some(s) => Some(s@),
                None => None,
            },
    )
}

/// The nodes Comrak parses `markdown` into, in document order.
pub uninterp spec fn comrak_outline(markdown: Seq<char>, dialect: DialectView) -> Seq<OutlineView>;

/// Comrak's CommonMark serialization of `markdown`, after the contents of
/// each node for which `literals` holds a text (counted in document order)
/// are replaced by that text; `None` where the serializer reports an error.
pub uninterp spec fn comrak_commonmark(
    markdown: Seq<char>,
    dialect: DialectView,
    literals: Seq<Option<Seq<char>>>,
) -> Option<Seq<char>>;

/// Comrak's options for a dialect, field for field: `comrak::Options` with
/// the extension and render fields the dialect names, every other field at
/// its default.
#[verifier::external_body]
fn comrak_options(d: &Dialect) -> comrak::Options<'static> {
    let mut o = comrak::Options::default();
    o.extension.math_dollars = d.math_dollars;
    o.extension.math_latex = d.math_latex;
    o.extension.table = d.table;
    o.extension.tasklist = d.tasklist;
    o.extension.strikethrough = d.strikethrough;
    o.extension.alerts = d.alerts;
    o.extension.front_matter_delimiter = Some(d.front_matter_delimiter.clone());
    o.render.width = d.width;
    o.render.prefer_fenced = d.prefer_fenced;
    o
}

/// One node of Comrak's tree (`comrak::nodes::Ast`) as an `Outline`: the
/// variant of its `NodeValue`, and its `sourcepos` lines.
#[verifier::external_body]
fn outline_of(ast: &comrak::nodes::Ast) -> Outline {
    let kind = match &ast.value {
        comrak::nodes::NodeValue::CodeBlock(_) => NodeKind::CodeBlock,
        comrak::nodes::NodeValue::HtmlBlock(_) => NodeKind::HtmlBlock,
        comrak::nodes::NodeValue::FrontMatter(_) => NodeKind::FrontMatter,
        comrak::nodes::NodeValue::Math(m) => NodeKind::Math {
            display: m.display_math,
            dollar: m.dollar_math,
            literal: m.literal.clone(),
        },
        _ => NodeKind::Other,
    };
    Outline { kind, start_line: ast.sourcepos.start.line, end_line: ast.sourcepos.end.line }
}

/// `comrak::parse_document`, then every node of the tree in the order
/// `Node::descendants` visits them. The contract names the result; it
/// states nothing of what the parser makes of a particular document.
#[verifier::external_body]
pub(crate) fn outline(markdown: &str, dialect: &Dialect) -> (nodes: Vec<Outline>)
    ensures
        outline_views(nodes@) == comrak_outline(markdown@, dialect@),
{
    let arena = comrak::Arena::new();
    let root = comrak::parse_document(&arena, markdown, &comrak_options(dialect));
    root.descendants().map(|node| outline_of(&node.data())).collect()
}

/// `comrak::parse_document`, the literal of each math node replaced by the
/// text `literals` holds at that node's place in `Node::descendants`, then
/// `comrak::format_commonmark` into a `String`. The contract names the
/// result, and says that an error of the serializer comes back as `Err`.
#[verifier::external_body]
pub(crate) fn commonmark(markdown: &str, dialect: &Dialect, literals: &Vec<Option<String>>) -> (r:
    Result<String, std::fmt::Error>)
    ensures
        match r {
            Ok(s) => comrak_commonmark(markdown@, dialect@, string_views(literals@)) == Some(s@),
            Err(_) => comrak_commonmark(markdown@, dialect@, string_views(literals@)) is None,
        },
{
    let arena = comrak::Arena::new();
    let root = comrak::parse_document(&arena, markdown, &comrak_options(dialect));
    for (node, literal) in root.descendants().zip(literals.iter()) {
        if let (comrak::nodes::NodeValue::Math(math), Some(text)) = (&mut node.data_mut().value, literal) {
            math.literal = text.clone();
        }
    }
    let mut out = String::new();
    comrak::format_commonmark(root, &comrak_options(dialect), &mut out)?;
    Ok(out)
}

} // verus!
