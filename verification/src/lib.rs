//! Opinionated Markdown formatting with syntax-aware display-math layout.

pub mod admission;
mod environments;
pub mod extraction;
pub mod laws;
mod markdown;
mod math;
pub mod paths;
mod preparse;
pub mod retokenize;
pub mod roundtrip;
pub mod spacing;
pub mod stability;
pub mod run;
mod text;

use vstd::prelude::*;

use crate::markdown::{
    commonmark, comrak_commonmark, comrak_outline, outline, outline_views, string_views, Dialect,
    DialectView, NodeKind, NodeKindView, OutlineView,
};
use crate::preparse::{
    extract, extract_exec, extract_inline, extract_inline_exec, math_layout, restore_blocks,
    restore_inline, verbatim_lines, verbatim_lines_of, BlockMath, BlockMathView, InlineMath,
    InlineMathView, Verbatim,
};
use crate::text::{
    append, begins, chars_of, finishes, index_of, is_blank_text, pieces,
    slice, split_pieces, starts_with, string_of, trim, trim_end, trimmed_end, views,
};

verus! {

/// How Marklign lays out ordinary display equations.
#[derive(Clone, Copy, Debug, PartialEq, Eq, Structural)]
pub enum MathStyle {
    /// Reflow broken source lines, keeping `\qquad` with the clause it introduces.
    Readable,
    /// Prefer a single line unless the expression exceeds `math_width`.
    Compact,
}

impl Default for MathStyle {
    fn default() -> (r: Self)
        ensures
            r == MathStyle::Readable,
    {
        MathStyle::Readable
    }
}

/// Narrowest accepted `math_width`; below this even short terms cannot fit.
pub const MIN_MATH_WIDTH: usize = 20;

/// Default preferred width of a display-equation source line.
pub const DEFAULT_MATH_WIDTH: usize = 88;

/// Formatting preferences. Long indivisible TeX tokens may exceed `math_width`.
#[derive(Clone, Copy, Debug, PartialEq, Eq, Structural)]
pub struct FormatOptions {
    pub math_style: MathStyle,
    pub math_width: usize,
}

impl Default for FormatOptions {
    fn default() -> (r: Self)
        ensures
            r.math_style == MathStyle::Readable,
            r.math_width == DEFAULT_MATH_WIDTH,
    {
        FormatOptions { math_style: MathStyle::Readable, math_width: DEFAULT_MATH_WIDTH }
    }
}

// ---------------------------------------------------------------------------
// The Markdown dialect
// ---------------------------------------------------------------------------

/// The dialect Marklign reads and writes: dollar math, tables, task lists,
/// strikethrough, alerts, and `---` front matter; no LaTeX math extension,
/// which would read Comrak's own `\[` escape of a prose bracket back as
/// display math and restyle `\(x\)` as `$x$`; no wrapping of prose; fenced
/// code blocks.
pub open spec fn standard_dialect() -> DialectView {
    DialectView {
        math_dollars: true,
        math_latex: false,
        table: true,
        tasklist: true,
        strikethrough: true,
        alerts: true,
        front_matter_delimiter: "---"@,
        width: 0,
        prefer_fenced: true,
    }
}

fn dialect() -> (d: Dialect)
    ensures
        d@ == standard_dialect(),
{
    Dialect {
        math_dollars: true,
        math_latex: false,
        table: true,
        tasklist: true,
        strikethrough: true,
        alerts: true,
        front_matter_delimiter: string_of(&chars_of("---")),
        width: 0,
        prefer_fenced: true,
    }
}

// ---------------------------------------------------------------------------
// Tidying the serializer's output
// ---------------------------------------------------------------------------

pub open spec fn end_list_marker() -> Seq<char> {
    "<!-- end list -->"@
}

pub open spec fn quote_blank(s: Seq<char>) -> bool {
    forall|k: int| 0 <= k < s.len() ==> #[trigger] s[k] == '>' || s[k] == ' ' || s[k] == '\t'
}

/// `s` without trailing spaces and tabs.
pub open spec fn trim_end_blank(s: Seq<char>) -> Seq<char>
    decreases s.len(),
{
    if s.len() > 0 && (s.last() == ' ' || s.last() == '\t') {
        trim_end_blank(s.drop_last())
    } else {
        s
    }
}

/// Comrak separates a list from a following code block with an HTML
/// comment. When line `index` is that comment and a fence follows it, the
/// number of lines to drop: the comment, and the blank line after it.
pub open spec fn separator_skip(ps: Seq<Seq<char>>, vb: Seq<Option<Verbatim>>, index: int) -> Option<
    int,
> {
    let line = trim_end(ps[index]);
    let sep = end_list_marker();
    if vb[index] == Some(Verbatim::Html) && finishes(line, sep) {
        let prefix = line.take(line.len() - sep.len());
        let skipped = if index + 1 < ps.len() && trim(ps[index + 1]).len() == 0 {
            2int
        } else {
            1int
        };
        if index + skipped < ps.len() && {
            let next = trim_end(ps[index + skipped]);
            begins(next, prefix) && {
                let code = next.skip(prefix.len() as int);
                begins(code, "```"@) || begins(code, "~~~"@)
            }
        } {
            Some(skipped)
        } else {
            None
        }
    } else {
        None
    }
}

pub open spec fn tidy_from(ps: Seq<Seq<char>>, vb: Seq<Option<Verbatim>>, index: int, out: Seq<
    char,
>) -> Seq<char>
    decreases ps.len() - index,
{
    if index < 0 || index >= ps.len() {
        out
    } else if vb[index] == Some(Verbatim::Code) || vb[index] == Some(Verbatim::FrontMatter) {
        tidy_from(ps, vb, index + 1, out + ps[index])
    } else {
        match separator_skip(ps, vb, index) {
            Some(k) => if k <= 0 || index + k > ps.len() {
                out
            } else {
                tidy_from(ps, vb, index + k, out)
            },
            None => {
                let line = trim_end(ps[index]);
                if quote_blank(line) {
                    tidy_from(ps, vb, index + 1, out + trim_end_blank(line).push('\n'))
                } else {
                    tidy_from(ps, vb, index + 1, out + ps[index])
                }
            },
        }
    }
}

/// Two blemishes of the Markdown serializer, cleaned up outside code blocks
/// and front matter, where every character is the author's: the
/// `<!-- end list -->` comment before a fence, and the container prefix left
/// on a blank line inside a list item or block quote. Trailing whitespace on
/// a line that has content is content: two spaces are a hard line break.
pub open spec fn tidy(rendered: Seq<char>, d: DialectView) -> Seq<char> {
    tidy_from(pieces(rendered), verbatim_lines(rendered, d), 0, seq![])
}

fn trim_end_blank_exec(s: &Vec<char>) -> (r: Vec<char>)
    ensures
        r@ == trim_end_blank(s@),
{
    let mut k = s.len();
    assert(s@.subrange(0, s.len() as int) =~= s@);
    while k > 0 && (s[k - 1] == ' ' || s[k - 1] == '\t')
        invariant
            k <= s.len(),
            trim_end_blank(s@.subrange(0, k as int)) == trim_end_blank(s@),
        decreases k,
    {
        assert(s@.subrange(0, k as int).drop_last() =~= s@.subrange(0, k - 1));
        k = k - 1;
    }
    slice(s, 0, k)
}

fn is_quote_blank(s: &Vec<char>) -> (r: bool)
    ensures
        r == quote_blank(s@),
{
    let mut k: usize = 0;
    while k < s.len()
        invariant
            k <= s.len(),
            forall|j: int| 0 <= j < k ==> #[trigger] s@[j] == '>' || s@[j] == ' ' || s@[j] == '\t',
        decreases s.len() - k,
    {
        if !(s[k] == '>' || s[k] == ' ' || s[k] == '\t') {
            return false;
        }
        k = k + 1;
    }
    true
}

fn separator_skip_exec(ps: &Vec<Vec<char>>, vb: &Vec<Option<Verbatim>>, index: usize) -> (r: Option<
    usize,
>)
    requires
        index < ps.len(),
        vb@.len() > index,
    ensures
        match r {
            Some(k) => separator_skip(views(ps@), vb@, index as int) == Some(k as int) && 0 < k
                && index + k < ps.len(),
            None => separator_skip(views(ps@), vb@, index as int) is None,
        },
{
    let ghost pv = views(ps@);
    assert(pv[index as int] == ps@[index as int]@);
    let line = trimmed_end(&ps[index]);
    let sep = chars_of("<!-- end list -->");
    let html = match vb[index] {
        Some(Verbatim::Html) => true,
        _ => false,
    };
    if !(html && crate::text::ends_with(&line, &sep)) {
        return None;
    }
    let prefix = slice(&line, 0, line.len() - sep.len());
    assert(prefix@ =~= line@.take(line@.len() - sep@.len()));
    let skipped: usize = if index + 1 < ps.len() && is_blank_text(&ps[index + 1]) {
        assert(pv[index + 1] == ps@[index + 1]@);
        2
    } else {
        proof {
            if index + 1 < ps.len() {
                assert(pv[index + 1] == ps@[index + 1]@);
            }
        }
        1
    };
    if index + skipped >= ps.len() {
        return None;
    }
    assert(pv[index + skipped] == ps@[index + skipped as int]@);
    let next = trimmed_end(&ps[index + skipped]);
    if !starts_with(&next, &prefix) {
        return None;
    }
    let code = slice(&next, prefix.len(), next.len());
    assert(code@ =~= next@.skip(prefix@.len() as int));
    if starts_with(&code, &chars_of("```")) || starts_with(&code, &chars_of("~~~")) {
        Some(skipped)
    } else {
        None
    }
}

fn tidy_exec(rendered: &Vec<char>, d: &Dialect) -> (r: Vec<char>)
    ensures
        r@ == tidy(rendered@, d@),
{
    let vb = verbatim_lines_of(rendered, d);
    let ps = split_pieces(rendered);
    let ghost pv = views(ps@);
    let mut out: Vec<char> = Vec::new();
    let mut index: usize = 0;
    while index < ps.len()
        invariant
            index <= ps.len(),
            pv == views(ps@),
            pv == pieces(rendered@),
            vb@ == verbatim_lines(rendered@, d@),
            vb@.len() == ps.len() + 1,
            tidy_from(pv, vb@, index as int, out@) == tidy(rendered@, d@),
        decreases ps.len() - index,
    {
        assert(pv[index as int] == ps@[index as int]@);
        let verbatim_kept = match vb[index] {
            Some(Verbatim::Code) => true,
            Some(Verbatim::FrontMatter) => true,
            _ => false,
        };
        if verbatim_kept {
            append(&mut out, &ps[index]);
            index = index + 1;
            continue;
        }
        match separator_skip_exec(&ps, &vb, index) {
            Some(k) => {
                index = index + k;
            },
            None => {
                let line = trimmed_end(&ps[index]);
                if is_quote_blank(&line) {
                    let t = trim_end_blank_exec(&line);
                    append(&mut out, &t);
                    out.push('\n');
                } else {
                    append(&mut out, &ps[index]);
                }
                index = index + 1;
            },
        }
    }
    out
}

// ---------------------------------------------------------------------------
// Rendering through the parser
// ---------------------------------------------------------------------------

/// The new contents of a node: the layout of display dollar math, nothing
/// for any other node.
pub open spec fn literal_for(o: OutlineView, prefs: FormatOptions) -> Option<Seq<char>> {
    match o.kind {
        NodeKindView::Math { display, dollar, literal } => if display && dollar {
            Some(math_layout(literal, prefs))
        } else {
            None
        },
        _ => None,
    }
}

pub open spec fn literals(nodes: Seq<OutlineView>, prefs: FormatOptions) -> Seq<Option<Seq<char>>> {
    nodes.map_values(|o: OutlineView| literal_for(o, prefs))
}

/// Parse, lay out the display math the parser found inside paragraphs,
/// serialize, and tidy; `None` where the serializer fails.
pub open spec fn rendered(markdown: Seq<char>, prefs: FormatOptions, d: DialectView) -> Option<
    Seq<char>,
> {
    match comrak_commonmark(markdown, d, literals(comrak_outline(markdown, d), prefs)) {
        Some(out) => Some(tidy(out, d)),
        None => None,
    }
}

fn render(markdown: &Vec<char>, prefs: FormatOptions, d: &Dialect) -> (r: Result<
    Vec<char>,
    std::fmt::Error,
>)
    ensures
        match r {
            Ok(v) => rendered(markdown@, prefs, d@) == Some(v@),
            Err(_) => rendered(markdown@, prefs, d@) is None,
        },
{
    let text = string_of(markdown);
    let nodes = outline(&text, d);
    let ghost nv = outline_views(nodes@);
    let mut lits: Vec<Option<String>> = Vec::new();
    let mut i: usize = 0;
    while i < nodes.len()
        invariant
            i <= nodes.len(),
            nv == outline_views(nodes@),
            string_views(lits@) == literals(nv, prefs).subrange(0, i as int),
        decreases nodes.len() - i,
    {
        assert(nv[i as int] == nodes@[i as int]@);
        let lit: Option<String> = match &nodes[i].kind {
            NodeKind::Math { display, dollar, literal } => {
                if *display && *dollar {
                    let laid = crate::preparse::math_layout_exec(&chars_of(literal.as_str()), prefs);
                    Some(string_of(&laid))
                } else {
                    None
                }
            },
            _ => None,
        };
        let ghost old_lits = string_views(lits@);
        lits.push(lit);
        assert(string_views(lits@) =~= old_lits.push(literal_for(nv[i as int], prefs)));
        i = i + 1;
        assert(string_views(lits@) =~= literals(nv, prefs).subrange(0, i as int));
    }
    assert(literals(nv, prefs).subrange(0, i as int) =~= literals(nv, prefs));
    match commonmark(&text, d, &lits) {
        Ok(out) => Ok(tidy_exec(&chars_of(out.as_str()), d)),
        Err(e) => Err(e),
    }
}

// ---------------------------------------------------------------------------
// Line endings
// ---------------------------------------------------------------------------

/// The document's first line ends in a carriage return and a line feed.
pub open spec fn uses_crlf(input: Seq<char>) -> bool {
    match index_of(input, seq!['\n'], 0) {
        Some(at) => at > 0 && input[at - 1] == '\r',
        None => false,
    }
}

/// `str::replace("\r\n", "\n")`, from index `i`.
pub open spec fn crlf_to_lf(s: Seq<char>, i: int) -> Seq<char>
    decreases s.len() - i,
{
    if i < 0 || i >= s.len() {
        seq![]
    } else if s[i] == '\r' && i + 1 < s.len() && s[i + 1] == '\n' {
        seq!['\n'] + crlf_to_lf(s, i + 2)
    } else {
        seq![s[i]] + crlf_to_lf(s, i + 1)
    }
}

/// `str::replace('\n', "\r\n")`, from index `i`.
pub open spec fn lf_to_crlf(s: Seq<char>, i: int) -> Seq<char>
    decreases s.len() - i,
{
    if i < 0 || i >= s.len() {
        seq![]
    } else if s[i] == '\n' {
        seq!['\r', '\n'] + lf_to_crlf(s, i + 1)
    } else {
        seq![s[i]] + lf_to_crlf(s, i + 1)
    }
}

/// The output with the input's own line endings: a Markdown parser reads
/// CRLF and writes LF, which would rewrite every line of a document written
/// on Windows.
pub open spec fn line_endings_of(output: Seq<char>, input: Seq<char>) -> Seq<char> {
    if uses_crlf(input) {
        lf_to_crlf(crlf_to_lf(output, 0), 0)
    } else {
        output
    }
}

fn with_line_endings_of(output: Vec<char>, input: &Vec<char>) -> (r: Vec<char>)
    ensures
        r@ == line_endings_of(output@, input@),
{
    let nl = chars_of("\n");
    proof {
        reveal_strlit("\n");
    }
    assert(nl@ =~= seq!['\n']);
    let crlf = match find(input, &nl) {
        Some(at) => {
            proof {
                crate::text::lemma_index_of_bounds(input@, nl@, 0);
            }
            at > 0 && input[at - 1] == '\r'
        },
        None => false,
    };
    if !crlf {
        return output;
    }
    let mut lf: Vec<char> = Vec::new();
    let mut i: usize = 0;
    while i < output.len()
        invariant
            i <= output.len(),
            lf@ + crlf_to_lf(output@, i as int) == crlf_to_lf(output@, 0),
        decreases output.len() - i,
    {
        let ghost before = lf@;
        if output[i] == '\r' && i + 1 < output.len() && output[i + 1] == '\n' {
            lf.push('\n');
            assert(lf@ + crlf_to_lf(output@, i + 2) =~= before + crlf_to_lf(output@, i as int));
            i = i + 2;
        } else {
            lf.push(output[i]);
            assert(lf@ + crlf_to_lf(output@, i + 1) =~= before + crlf_to_lf(output@, i as int));
            i = i + 1;
        }
    }
    assert(lf@ =~= crlf_to_lf(output@, 0));
    let mut out: Vec<char> = Vec::new();
    let mut j: usize = 0;
    while j < lf.len()
        invariant
            j <= lf.len(),
            out@ + lf_to_crlf(lf@, j as int) == lf_to_crlf(lf@, 0),
        decreases lf.len() - j,
    {
        let ghost before = out@;
        if lf[j] == '\n' {
            out.push('\r');
            out.push('\n');
        } else {
            out.push(lf[j]);
        }
        assert(out@ + lf_to_crlf(lf@, j + 1) =~= before + lf_to_crlf(lf@, j as int));
        j = j + 1;
    }
    assert(out@ =~= lf_to_crlf(lf@, 0));
    out
}

fn find(s: &Vec<char>, p: &Vec<char>) -> (r: Option<usize>)
    ensures
        r matches Some(i) ==> index_of(s@, p@, 0) == Some(i as int),
        r is None ==> index_of(s@, p@, 0) is None,
{
    crate::text::find(s, p)
}

// ---------------------------------------------------------------------------
// The whole document
// ---------------------------------------------------------------------------

/// The preferences in force: `math_width` is at least `MIN_MATH_WIDTH`.
pub open spec fn effective(prefs: FormatOptions) -> FormatOptions {
    FormatOptions {
        math_style: prefs.math_style,
        math_width: if prefs.math_width < MIN_MATH_WIDTH {
            MIN_MATH_WIDTH
        } else {
            prefs.math_width
        },
    }
}

/// A formatted document, or `None` where the serializer fails. Display
/// equations that own their source lines are formatted and held aside,
/// inline `\(...\)` spans are held aside, the rest is parsed, laid out and
/// serialized, and the held text is put back. If a placeholder does not
/// survive, the document is formatted again without holding anything aside.
pub open spec fn document(input: Seq<char>, prefs: FormatOptions) -> Option<Seq<char>> {
    let p = effective(prefs);
    let d = standard_dialect();
    let held = extract(input, p, d);
    let inline = extract_inline(held.text, d);
    match rendered(inline.text, p, d) {
        None => None,
        Some(r) => {
            let restored = match restore_inline(inline, r) {
                Some(x) => restore_blocks(held, x),
                None => None,
            };
            match restored {
                Some(o) => Some(line_endings_of(o, input)),
                None => match rendered(input, p, d) {
                    None => None,
                    Some(o) => Some(line_endings_of(o, input)),
                },
            }
        },
    }
}

pub open spec fn result_ok(r: Result<String, std::fmt::Error>, spec: Option<Seq<char>>) -> bool {
    match r {
        Ok(s) => spec == Some(s@),
        Err(_) => spec is None,
    }
}

/// Format a Markdown document with the default readable math style.
pub fn format_document(input: &str) -> (r: Result<String, std::fmt::Error>)
    ensures
        result_ok(
            r,
            document(
                input@,
                FormatOptions { math_style: MathStyle::Readable, math_width: DEFAULT_MATH_WIDTH },
            ),
        ),
{
    format_document_with_options(input, FormatOptions::default())
}

/// Format Markdown, leaving code blocks, raw HTML, and inline math alone.
///
/// Every display equation that owns its source lines is formatted and held
/// aside during Markdown parsing: to a block parser an isolated `=` line
/// inside one is a setext heading underline, which would destroy the
/// equation. Each is restored afterwards with the delimiters its author
/// chose. Display math that shares a line with prose is reflowed in the
/// syntax tree instead. Inline `\(...\)` spans, which a CommonMark parser
/// reads as escaped parentheses, are held aside and put back verbatim.
/// Unknown environments, comments, metadata, and malformed groups are left
/// unchanged by the math pass rather than risking changed mathematical
/// meaning.
pub fn format_document_with_options(input: &str, preferences: FormatOptions) -> (r: Result<
    String,
    std::fmt::Error,
>)
    ensures
        result_ok(r, document(input@, preferences)),
{
    let preferences = FormatOptions {
        math_style: preferences.math_style,
        math_width: if preferences.math_width < MIN_MATH_WIDTH {
            MIN_MATH_WIDTH
        } else {
            preferences.math_width
        },
    };
    let d = dialect();
    let source = chars_of(input);
    let held = extract_exec(&source, preferences, &d);
    let inline = extract_inline_exec(&held.text, &d);
    let rendered = match render(&inline.text, preferences, &d) {
        Ok(r) => r,
        Err(e) => return Err(e),
    };
    let restored = match inline.restore(&rendered) {
        Some(x) => held.restore(&x),
        None => None,
    };
    let output = match restored {
        Some(o) => o,
        None => match render(&source, preferences, &d) {
            Ok(o) => o,
            Err(e) => return Err(e),
        },
    };
    Ok(string_of(&with_line_endings_of(output, &source)))
}

// ---------------------------------------------------------------------------
// The passes, one at a time
// ---------------------------------------------------------------------------

/// Reflow a plain display equation; existing source newlines are not
/// mathematical line breaks (unlike explicit TeX `\\`). See
/// [`math::display_math`] for the layout rules.
pub fn format_display_math(input: &str, style: MathStyle, width: usize) -> (r: String)
    ensures
        r@ == math::display_math(input@, style, width as nat),
{
    string_of(&math::format_display_math(&chars_of(input), style, width))
}

/// Lay out a standalone `aligned`, `split`, or `cases` environment row by
/// row, or `None` if the input is not one that is safely understood.
pub fn format_environment(input: &str) -> (r: Option<String>)
    ensures
        match r {
            Some(s) => environments::environment(input@) == Some(s@),
            None => environments::environment(input@) is None,
        },
{
    match environments::format_environment(&chars_of(input)) {
        Some(v) => Some(string_of(&v)),
        None => None,
    }
}

/// A document with its standalone display equations formatted and held
/// aside, one placeholder line each.
pub struct HeldBlocks {
    held: BlockMath,
}

impl HeldBlocks {
    #[verifier::type_invariant]
    spec fn inv(self) -> bool {
        self.held.wf()
    }

    pub closed spec fn view(&self) -> BlockMathView {
        self.held@
    }

    /// The Markdown handed to the parser.
    pub fn text(&self) -> (r: String)
        ensures
            r@ == self.view().text,
    {
        string_of(&self.held.text)
    }

    /// Put the held equations back into a rendering of [`Self::text`], or
    /// `None` if a placeholder did not survive it.
    pub fn restore(&self, rendered: &str) -> (r: Option<String>)
        ensures
            match r {
                Some(s) => restore_blocks(self.view(), rendered@) == Some(s@),
                None => restore_blocks(self.view(), rendered@) is None,
            },
    {
        proof {
            use_type_invariant(self);
        }
        match self.held.restore(&chars_of(rendered)) {
            Some(v) => Some(string_of(&v)),
            None => None,
        }
    }
}

/// Format every display equation that owns its source lines and hold it
/// aside, as [`format_document_with_options`] does before parsing.
pub fn hold_blocks(input: &str, preferences: FormatOptions) -> (r: HeldBlocks)
    ensures
        r.view() == extract(input@, preferences, standard_dialect()),
{
    let d = dialect();
    HeldBlocks { held: extract_exec(&chars_of(input), preferences, &d) }
}

/// A document with its inline `\(...\)` spans held aside.
pub struct HeldSpans {
    held: InlineMath,
}

impl HeldSpans {
    pub closed spec fn view(&self) -> InlineMathView {
        self.held@
    }

    /// The Markdown handed to the parser.
    pub fn text(&self) -> (r: String)
        ensures
            r@ == self.view().text,
    {
        string_of(&self.held.text)
    }

    /// The placeholder stem each held span's index is bracketed by.
    pub fn token(&self) -> (r: String)
        ensures
            r@ == self.view().token,
    {
        string_of(&self.held.token)
    }

    /// Put the spans back into a rendering of [`Self::text`], or `None` if a
    /// placeholder did not survive it.
    pub fn restore(&self, rendered: &str) -> (r: Option<String>)
        ensures
            match r {
                Some(s) => restore_inline(self.view(), rendered@) == Some(s@),
                None => restore_inline(self.view(), rendered@) is None,
            },
    {
        match self.held.restore(&chars_of(rendered)) {
            Some(v) => Some(string_of(&v)),
            None => None,
        }
    }
}

/// Hold every inline `\(...\)` span aside, as [`format_document_with_options`]
/// does before parsing.
pub fn hold_spans(input: &str) -> (r: HeldSpans)
    ensures
        r.view() == extract_inline(input@, standard_dialect()),
{
    let d = dialect();
    HeldSpans { held: extract_inline_exec(&chars_of(input), &d) }
}

} // verus!