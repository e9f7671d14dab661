//! Hold display-math blocks aside during Markdown block parsing.
//!
//! Math delimiters are an inline construct: a Markdown block parser reaches a
//! line containing only `=` or `-` inside an equation first and reads it as a
//! setext heading underline, which silently destroys the mathematics. Every
//! equation that owns its source lines is therefore formatted and replaced by
//! an opaque placeholder before parsing, then restored afterwards. Blocks
//! inside list items and block quotes are held aside too, and put back with
//! whatever prefix their container ended up with.

use vstd::prelude::*;

use crate::environments::{environment, format_environment};
use crate::markdown::{comrak_outline, outline, outline_views, Dialect, NodeKind, NodeKindView, OutlineView};
use crate::math::{display_math, format_display_math, join_lines, join_with_newlines};
use crate::text::{
    append, append_range, begins, chars_of, contains, contains_char, copy, decimal, find,
    find_from, holds, index_of, is_blank, is_blank_text, is_digit, is_whitespace, is_ws,
    lines, next_newline, parse_decimal, parse_usize, pieces, push_decimal, slice, split_lines,
    split_pieces, starts_with, string_of, trim, trim_end, trim_start, trimmed, trimmed_end,
    trimmed_start, views,
};
use crate::FormatOptions;

verus! {

// ---------------------------------------------------------------------------
// Lines the parser reproduces verbatim
// ---------------------------------------------------------------------------

/// What a Markdown parser reproduces character for character.
#[derive(Clone, Copy, Debug, PartialEq, Eq, Structural)]
pub enum Verbatim {
    Code,
    Html,
    FrontMatter,
}

pub open spec fn verbatim_kind(k: NodeKindView) -> Option<Verbatim> {
    match k {
        NodeKindView::CodeBlock => Some(Verbatim::Code),
        NodeKindView::HtmlBlock => Some(Verbatim::Html),
        NodeKindView::FrontMatter => Some(Verbatim::FrontMatter),
        _ => None,
    }
}

/// Line `k`, counted from zero, lies within the node's source lines.
pub open spec fn covers(o: OutlineView, k: int) -> bool {
    if k == 0 {
        o.start_line <= 1 && o.start_line <= o.end_line
    } else {
        o.start_line <= k + 1 && k + 1 <= o.end_line
    }
}

pub open spec fn mark(v: Seq<Option<Verbatim>>, o: OutlineView) -> Seq<Option<Verbatim>> {
    match verbatim_kind(o.kind) {
        None => v,
        Some(x) => Seq::new(
            v.len(),
            |k: int|
                if covers(o, k) {
                    Some(x)
                } else {
                    v[k]
                },
        ),
    }
}

pub open spec fn marks_from(nodes: Seq<OutlineView>, i: int, v: Seq<Option<Verbatim>>) -> Seq<
    Option<Verbatim>,
>
    decreases nodes.len() - i,
{
    if i < 0 || i >= nodes.len() {
        v
    } else {
        marks_from(nodes, i + 1, mark(v, nodes[i]))
    }
}

/// Each line of a document, indexed from zero, classified by the node of the
/// parsed document that covers it; a later node in document order wins.
pub open spec fn verbatim_lines(input: Seq<char>, d: crate::markdown::DialectView) -> Seq<
    Option<Verbatim>,
> {
    marks_from(comrak_outline(input, d), 0, Seq::new(pieces(input).len() + 1, |k: int| None))
}

fn verbatim_of(k: &NodeKind) -> (r: Option<Verbatim>)
    ensures
        r == verbatim_kind(k@),
{
    match k {
        NodeKind::CodeBlock => Some(Verbatim::Code),
        NodeKind::HtmlBlock => Some(Verbatim::Html),
        NodeKind::FrontMatter => Some(Verbatim::FrontMatter),
        _ => None,
    }
}

/// Classify each line of a document by asking the parser, which beats
/// re-deriving the fence and indentation rules that depend on the
/// enclosing list.
pub fn verbatim_lines_of(input: &Vec<char>, d: &Dialect) -> (r: Vec<Option<Verbatim>>)
    ensures
        r@ == verbatim_lines(input@, d@),
        r@.len() == pieces(input@).len() + 1,
{
    let text = string_of(input);
    let nodes = outline(&text, d);
    let ghost nv = outline_views(nodes@);
    let n = split_pieces(input).len();
    let mut lines: Vec<Option<Verbatim>> = Vec::new();
    let mut k: usize = 0;
    while k < n
        invariant
            k <= n,
            n == pieces(input@).len(),
            lines@ == Seq::new(k as nat, |j: int| None::<Verbatim>),
        decreases n - k,
    {
        lines.push(None);
        k = k + 1;
        assert(lines@ =~= Seq::new(k as nat, |j: int| None::<Verbatim>));
    }
    lines.push(None);
    assert(lines@ =~= Seq::new((n + 1) as nat, |j: int| None::<Verbatim>));
    let mut i: usize = 0;
    while i < nodes.len()
        invariant
            i <= nodes.len(),
            nv == outline_views(nodes@),
            nv == comrak_outline(input@, d@),
            lines@.len() == n + 1,
            n == pieces(input@).len(),
            marks_from(nv, i as int, lines@) == verbatim_lines(input@, d@),
        decreases nodes.len() - i,
    {
        let node = &nodes[i];
        assert(nv[i as int] == node@);
        match verbatim_of(&node.kind) {
            None => {},
            Some(x) => {
                let ghost before = lines@;
                let mut k: usize = 0;
                while k < lines.len()
                    invariant
                        k <= lines@.len(),
                        lines@.len() == before.len(),
                        forall|j: int|
                            0 <= j < k ==> lines@[j] == (if covers(node@, j) {
                                Some(x)
                            } else {
                                before[j]
                            }),
                        forall|j: int| k <= j < lines@.len() ==> lines@[j] == before[j],
                    decreases lines@.len() - k,
                {
                    let cover = if k == 0 {
                        node.start_line <= 1 && node.start_line <= node.end_line
                    } else {
                        node.start_line <= k + 1 && k + 1 <= node.end_line
                    };
                    if cover {
                        lines.set(k, Some(x));
                    }
                    k = k + 1;
                }
                assert(lines@ =~= mark(before, nv[i as int]));
            },
        }
        i = i + 1;
    }
    lines
}

// ---------------------------------------------------------------------------
// Recognizing a display block
// ---------------------------------------------------------------------------

/// The two delimiter pairs: `$$ ... $$` and `\[ ... \]`.
pub open spec fn delim_open(k: int) -> Seq<char> {
    if k == 0 {
        "$$"@
    } else {
        "\\["@
    }
}

pub open spec fn delim_close(k: int) -> Seq<char> {
    if k == 0 {
        "$$"@
    } else {
        "\\]"@
    }
}

fn delimiters(k: usize) -> (r: (Vec<char>, Vec<char>))
    ensures
        r.0@ == delim_open(k as int),
        r.1@ == delim_close(k as int),
{
    if k == 0 {
        (chars_of("$$"), chars_of("$$"))
    } else {
        (chars_of("\\["), chars_of("\\]"))
    }
}

/// `s` with every trailing `c` removed.
pub open spec fn drop_trailing(s: Seq<char>, c: char) -> Seq<char>
    decreases s.len(),
{
    if s.len() > 0 && s.last() == c {
        drop_trailing(s.drop_last(), c)
    } else {
        s
    }
}

/// `s` with every leading `c` removed.
pub open spec fn drop_leading(s: Seq<char>, c: char) -> Seq<char>
    decreases s.len(),
{
    if s.len() > 0 && s[0] == c {
        drop_leading(s.skip(1), c)
    } else {
        s
    }
}

/// A line without its line feeds, and then without its carriage returns.
pub open spec fn strip_newline(line: Seq<char>) -> Seq<char> {
    drop_trailing(drop_trailing(line, '\n'), '\r')
}

fn without_trailing(s: &Vec<char>, c: char) -> (r: Vec<char>)
    ensures
        r@ == drop_trailing(s@, c),
{
    let mut k = s.len();
    assert(s@.subrange(0, s.len() as int) =~= s@);
    while k > 0 && s[k - 1] == c
        invariant
            k <= s.len(),
            drop_trailing(s@.subrange(0, k as int), c) == drop_trailing(s@, c),
        decreases k,
    {
        assert(s@.subrange(0, k as int).drop_last() =~= s@.subrange(0, k - 1));
        k = k - 1;
    }
    assert(s@.subrange(0, s.len() as int) =~= s@);
    slice(s, 0, k)
}

fn without_leading(s: &Vec<char>, c: char) -> (r: Vec<char>)
    ensures
        r@ == drop_leading(s@, c),
{
    let mut k: usize = 0;
    assert(s@.subrange(0, s.len() as int) =~= s@);
    while k < s.len() && s[k] == c
        invariant
            k <= s.len(),
            drop_leading(s@.subrange(k as int, s.len() as int), c) == drop_leading(s@, c),
        decreases s.len() - k,
    {
        assert(s@.subrange(k as int, s.len() as int).skip(1) =~= s@.subrange(k + 1, s.len() as int));
        k = k + 1;
    }
    assert(s@.subrange(0, s.len() as int) =~= s@);
    slice(s, k, s.len())
}

pub fn stripped_newline(line: &Vec<char>) -> (r: Vec<char>)
    ensures
        r@ == strip_newline(line@),
{
    let a = without_trailing(line, '\n');
    without_trailing(&a, '\r')
}

/// First index at or after `i` that is not a space, a tab, or `>`.
pub open spec fn skip_container(s: Seq<char>, i: int) -> int
    decreases s.len() - i,
{
    if i < 0 || i >= s.len() {
        if i < 0 {
            0
        } else {
            s.len() as int
        }
    } else if is_blank(s[i]) || s[i] == '>' {
        skip_container(s, i + 1)
    } else {
        i
    }
}

/// First index at or after `i` that is not a space or a tab.
pub open spec fn skip_blank(s: Seq<char>, i: int) -> int
    decreases s.len() - i,
{
    if i < 0 || i >= s.len() {
        if i < 0 {
            0
        } else {
            s.len() as int
        }
    } else if is_blank(s[i]) {
        skip_blank(s, i + 1)
    } else {
        i
    }
}

pub(crate) proof fn lemma_skip_container(s: Seq<char>, i: int)
    requires
        0 <= i <= s.len(),
    ensures
        i <= skip_container(s, i) <= s.len(),
    decreases s.len() - i,
{
    if i < s.len() && (is_blank(s[i]) || s[i] == '>') {
        lemma_skip_container(s, i + 1);
    }
}

proof fn lemma_skip_blank(s: Seq<char>, i: int)
    requires
        0 <= i <= s.len(),
    ensures
        i <= skip_blank(s, i) <= s.len(),
    decreases s.len() - i,
{
    if i < s.len() && is_blank(s[i]) {
        lemma_skip_blank(s, i + 1);
    }
}

fn skip_container_exec(s: &Vec<char>) -> (r: usize)
    ensures
        r == skip_container(s@, 0),
        r <= s.len(),
{
    let mut k: usize = 0;
    while k < s.len() && (s[k] == ' ' || s[k] == '\t' || s[k] == '>')
        invariant
            k <= s.len(),
            skip_container(s@, k as int) == skip_container(s@, 0),
        decreases s.len() - k,
    {
        k = k + 1;
    }
    k
}

fn skip_blank_exec(s: &Vec<char>) -> (r: usize)
    ensures
        r == skip_blank(s@, 0),
        r <= s.len(),
{
    let mut k: usize = 0;
    while k < s.len() && (s[k] == ' ' || s[k] == '\t')
        invariant
            k <= s.len(),
            skip_blank(s@, k as int) == skip_blank(s@, 0),
        decreases s.len() - k,
    {
        k = k + 1;
    }
    k
}

/// An opening delimiter line: its container prefix, which delimiter pair
/// opens it, and whatever mathematics follows on the same line.
pub open spec fn opening(line: Seq<char>) -> Option<(Seq<char>, int, Seq<char>)> {
    let c = skip_container(line, 0);
    let content = line.skip(c);
    if begins(content, delim_open(0)) {
        Some((line.take(c), 0, content.skip(delim_open(0).len() as int)))
    } else if begins(content, delim_open(1)) {
        Some((line.take(c), 1, content.skip(delim_open(1).len() as int)))
    } else {
        None
    }
}

/// Offset of a closing delimiter that ends its line, or `None`.
pub open spec fn close_at(content: Seq<char>, closer: Seq<char>) -> Option<int> {
    match index_of(content, closer, 0) {
        Some(at) => if trim(content.skip(at + closer.len())).len() == 0 {
            Some(at)
        } else {
            None
        },
        None => None,
    }
}

pub open spec fn count_char(s: Seq<char>, c: char) -> nat
    decreases s.len(),
{
    if s.len() == 0 {
        0
    } else {
        count_char(s.drop_last(), c) + if s.last() == c {
            1nat
        } else {
            0nat
        }
    }
}

/// Two trailing spaces after the closing delimiter are a Markdown hard line
/// break, which is content rather than stray whitespace. A tab is not.
pub open spec fn hard_break(trailing: Seq<char>) -> bool {
    count_char(trailing, ' ') >= 2
}

/// Remove `depth` block-quote markers and any indentation, or `None` if the
/// line does not continue that container.
pub open spec fn strip_markers(s: Seq<char>, depth: nat) -> Option<Seq<char>>
    decreases depth,
{
    let t = s.skip(skip_blank(s, 0));
    if depth == 0 {
        Some(t)
    } else if t.len() > 0 && t[0] == '>' {
        strip_markers(t.skip(1), (depth - 1) as nat)
    } else {
        None
    }
}

fn count_of(s: &Vec<char>, c: char) -> (r: usize)
    ensures
        r == count_char(s@, c),
{
    let mut n: usize = 0;
    let mut i: usize = 0;
    while i < s.len()
        invariant
            i <= s.len(),
            n <= i,
            n == count_char(s@.subrange(0, i as int), c),
        decreases s.len() - i,
    {
        assert(s@.subrange(0, i + 1).drop_last() =~= s@.subrange(0, i as int));
        if s[i] == c {
            n = n + 1;
        }
        i = i + 1;
    }
    assert(s@.subrange(0, s.len() as int) =~= s@);
    n
}

fn strip_markers_exec(s: &Vec<char>, depth: usize) -> (r: Option<Vec<char>>)
    ensures
        match r {
            Some(v) => strip_markers(s@, depth as nat) == Some(v@),
            None => strip_markers(s@, depth as nat) is None,
        },
    decreases depth,
{
    let b = skip_blank_exec(s);
    let t = slice(s, b, s.len());
    assert(t@ =~= s@.skip(skip_blank(s@, 0)));
    if depth == 0 {
        Some(t)
    } else if t.len() > 0 && t[0] == '>' {
        let u = slice(&t, 1, t.len());
        assert(u@ =~= t@.skip(1));
        strip_markers_exec(&u, depth - 1)
    } else {
        None
    }
}

pub open spec fn close_at_ok(content: Seq<char>, closer: Seq<char>, r: Option<usize>) -> bool {
    match r {
        Some(at) => close_at(content, closer) == Some(at as int),
        None => close_at(content, closer) is None,
    }
}

fn close_at_exec(content: &Vec<char>, closer: &Vec<char>) -> (r: Option<usize>)
    ensures
        close_at_ok(content@, closer@, r),
        r matches Some(at) ==> at + closer@.len() <= content@.len(),
{
    match find(content, closer) {
        None => None,
        Some(at) => {
            proof {
                crate::text::lemma_index_of_bounds(content@, closer@, 0);
            }
            assert(crate::text::occurs(content@, closer@, at as int));
            assert(at + closer@.len() <= content@.len());
            assert(at + closer.len() <= content.len());
            let rest = slice(content, at + closer.len(), content.len());
            assert(rest@ =~= content@.skip(at + closer@.len()));
            if is_blank_text(&rest) {
                Some(at)
            } else {
                None
            }
        },
    }
}

// ---------------------------------------------------------------------------
// Laying out a held block
// ---------------------------------------------------------------------------

pub open spec fn first_nonempty(ls: Seq<Seq<char>>, i: int) -> Option<int>
    decreases ls.len() - i,
{
    if i < 0 || i >= ls.len() {
        None
    } else if ls[i].len() > 0 {
        Some(i)
    } else {
        first_nonempty(ls, i + 1)
    }
}

pub open spec fn last_nonempty(ls: Seq<Seq<char>>, j: int) -> Option<int>
    decreases j,
{
    if j <= 0 || j > ls.len() {
        None
    } else if ls[j - 1].len() > 0 {
        Some(j - 1)
    } else {
        last_nonempty(ls, j - 1)
    }
}

pub open spec fn trim_ends(ls: Seq<Seq<char>>) -> Seq<Seq<char>> {
    ls.map_values(|l: Seq<char>| trim_end(l))
}

/// Drop the whitespace an equation picked up from its delimiter lines, and
/// nothing else: leading and trailing blank lines, trailing whitespace on
/// each line, and leading whitespace on the first.
pub open spec fn trim_block(source: Seq<char>) -> Seq<char> {
    let ls = trim_ends(lines(source));
    match first_nonempty(ls, 0) {
        None => seq![],
        Some(f) => match last_nonempty(ls, ls.len() as int) {
            None => seq![],
            Some(l) => if l < f {
                seq![]
            } else {
                join_lines(seq![trim_start(ls[f])] + ls.subrange(f + 1, l + 1))
            },
        },
    }
}

proof fn lemma_first_nonempty(ls: Seq<Seq<char>>, i: int)
    requires
        0 <= i,
    ensures
        first_nonempty(ls, i) matches Some(f) ==> i <= f < ls.len() && ls[f].len() > 0,
        first_nonempty(ls, i) is None ==> forall|k: int| i <= k < ls.len() ==> ls[k].len() == 0,
    decreases ls.len() - i,
{
    if i < ls.len() && ls[i].len() == 0 {
        lemma_first_nonempty(ls, i + 1);
    }
}

proof fn lemma_last_nonempty(ls: Seq<Seq<char>>, j: int)
    requires
        0 <= j <= ls.len(),
    ensures
        last_nonempty(ls, j) matches Some(l) ==> 0 <= l < j && ls[l].len() > 0,
        last_nonempty(ls, j) is None ==> forall|k: int| 0 <= k < j ==> ls[k].len() == 0,
    decreases j,
{
    if j > 0 && ls[j - 1].len() == 0 {
        lemma_last_nonempty(ls, j - 1);
    }
}

fn trim_block_exec(source: &Vec<char>) -> (r: Vec<char>)
    ensures
        r@ == trim_block(source@),
{
    let raw = split_lines(source);
    let mut ls: Vec<Vec<char>> = Vec::new();
    let mut i: usize = 0;
    while i < raw.len()
        invariant
            i <= raw.len(),
            views(raw@) == lines(source@),
            views(ls@) == trim_ends(lines(source@)).subrange(0, i as int),
        decreases raw.len() - i,
    {
        assert(views(raw@)[i as int] == raw@[i as int]@);
        let t = trimmed_end(&raw[i]);
        let ghost old_ls = views(ls@);
        ls.push(t);
        assert(views(ls@) =~= old_ls.push(t@));
        i = i + 1;
        assert(views(ls@) =~= trim_ends(lines(source@)).subrange(0, i as int));
    }
    let ghost lv = trim_ends(lines(source@));
    assert(views(ls@) =~= lv);
    proof {
        lemma_first_nonempty(lv, 0);
        lemma_last_nonempty(lv, lv.len() as int);
    }
    let mut f: usize = 0;
    while f < ls.len() && ls[f].len() == 0
        invariant
            f <= ls.len(),
            views(ls@) == lv,
            first_nonempty(lv, f as int) == first_nonempty(lv, 0),
        decreases ls.len() - f,
    {
        assert(views(ls@)[f as int] == ls@[f as int]@);
        f = f + 1;
    }
    if f == ls.len() {
        return Vec::new();
    }
    assert(views(ls@)[f as int] == ls@[f as int]@);
    let mut l = ls.len();
    while l > 0 && ls[l - 1].len() == 0
        invariant
            l <= ls.len(),
            views(ls@) == lv,
            last_nonempty(lv, l as int) == last_nonempty(lv, lv.len() as int),
        decreases l,
    {
        assert(views(ls@)[l - 1] == ls@[l - 1]@);
        l = l - 1;
    }
    if l == 0 {
        return Vec::new();
    }
    assert(views(ls@)[l - 1] == ls@[l - 1]@);
    let l = l - 1;
    if l < f {
        return Vec::new();
    }
    let mut body: Vec<Vec<char>> = Vec::new();
    body.push(trimmed_start(&ls[f]));
    let mut k = f + 1;
    while k <= l
        invariant
            f < k <= l + 1,
            l < ls.len(),
            views(ls@) == lv,
            views(body@) == seq![trim_start(lv[f as int])] + lv.subrange(f + 1, k as int),
        decreases l + 1 - k,
    {
        assert(views(ls@)[k as int] == ls@[k as int]@);
        let c = copy(&ls[k]);
        let ghost old_body = views(body@);
        body.push(c);
        assert(views(body@) =~= old_body.push(c@));
        k = k + 1;
        assert(views(body@) =~= seq![trim_start(lv[f as int])] + lv.subrange(f + 1, k as int));
    }
    join_with_newlines(&body)
}

/// A character that, opening a line with a blank or a repeat of itself
/// after it, makes Markdown read the line as a setext underline, thematic
/// break, list item, heading, table row, or code fence.
pub open spec fn claim_char(c: char) -> bool {
    c == '=' || c == '-' || c == '+' || c == '*' || c == '_' || c == '#' || c == '|' || c == '`'
        || c == '~'
}

/// The start of an ordered list item that may interrupt a paragraph: `1.`
/// or `1)`, alone or followed by a blank.
pub open spec fn ordered_start(t: Seq<char>) -> bool {
    t.len() >= 2 && t[0] == '1' && (t[1] == '.' || t[1] == ')') && (t.len() == 2 || is_blank(t[2]))
}

/// A line a Markdown block parser would take away from the paragraph the
/// equation lives in.
pub open spec fn claimed(l: Seq<char>) -> bool {
    let t = l.skip(skip_blank(l, 0));
    t.len() > 0 && (t[0] == '>' || (claim_char(t[0]) && (t.len() == 1 || is_blank(t[1]) || t[1]
        == t[0])) || ordered_start(t))
}

/// `str::split('\n')` from index `i`.
pub open spec fn split_lf_from(s: Seq<char>, i: int) -> Seq<Seq<char>>
    decreases s.len() - i,
{
    if i < 0 || i > s.len() {
        seq![]
    } else {
        let e = next_newline(s, i);
        if e >= s.len() || e < i {
            seq![s.subrange(i, s.len() as int)]
        } else {
            seq![s.subrange(i, e)] + split_lf_from(s, e + 1)
        }
    }
}

/// Each claimed line after the first joined to the line above it.
pub open spec fn merge_from(segs: Seq<Seq<char>>, i: int, acc: Seq<Seq<char>>) -> Seq<Seq<char>>
    decreases segs.len() - i,
{
    if i < 0 || i >= segs.len() {
        acc
    } else if acc.len() > 0 && claimed(segs[i]) {
        merge_from(
            segs,
            i + 1,
            acc.update(
                acc.len() - 1,
                acc.last().push(' ') + segs[i].skip(skip_blank(segs[i], 0)),
            ),
        )
    } else {
        merge_from(segs, i + 1, acc.push(segs[i]))
    }
}

pub open spec fn join_claimed(text: Seq<char>) -> Seq<char> {
    join_lines(merge_from(split_lf_from(text, 0), 0, seq![]))
}

/// The environment layout where it applies, the display layout otherwise.
pub open spec fn math_layout(s: Seq<char>, prefs: FormatOptions) -> Seq<char> {
    match environment(s) {
        Some(e) => e,
        None => display_math(s, prefs.math_style, prefs.math_width as nat),
    }
}

/// Lay out an equation held aside: trimmed of its delimiter whitespace,
/// formatted, and with no line a Markdown block parser would claim, unless
/// it holds a `%` comment or `\verb`, which would swallow a joined line.
pub open spec fn format_block(source: Seq<char>, prefs: FormatOptions) -> Seq<char> {
    let s = trim_block(source);
    if s.len() == 0 {
        s
    } else {
        let f = drop_leading(drop_trailing(math_layout(s, prefs), '\n'), '\n');
        if s.contains('%') || holds(s, "\\verb"@) {
            f
        } else {
            join_claimed(f)
        }
    }
}

fn is_claimed(l: &Vec<char>) -> (r: bool)
    ensures
        r == claimed(l@),
{
    let b = skip_blank_exec(l);
    proof {
        lemma_skip_blank(l@, 0);
    }
    let t = slice(l, b, l.len());
    assert(t@ =~= l@.skip(skip_blank(l@, 0)));
    if t.len() == 0 {
        return false;
    }
    let c = t[0];
    if c == '>' {
        return true;
    }
    if (c == '=' || c == '-' || c == '+' || c == '*' || c == '_' || c == '#' || c == '|' || c == '`'
        || c == '~') && (t.len() == 1 || t[1] == ' ' || t[1] == '\t' || t[1] == c) {
        return true;
    }
    t.len() >= 2 && c == '1' && (t[1] == '.' || t[1] == ')') && (t.len() == 2 || t[2] == ' ' || t[2]
        == '\t')
}

fn split_lf(s: &Vec<char>) -> (r: Vec<Vec<char>>)
    ensures
        views(r@) == split_lf_from(s@, 0),
{
    let mut r: Vec<Vec<char>> = Vec::new();
    let mut i: usize = 0;
    loop
        invariant
            i <= s.len(),
            views(r@) + split_lf_from(s@, i as int) == split_lf_from(s@, 0),
        decreases s.len() - i,
    {
        let mut e = i;
        while e < s.len() && s[e] != '\n'
            invariant
                i <= e <= s.len(),
                next_newline(s@, e as int) == next_newline(s@, i as int),
            decreases s.len() - e,
        {
            e = e + 1;
        }
        let part = slice(s, i, e);
        let ghost old_r = views(r@);
        r.push(part);
        assert(views(r@) =~= old_r.push(part@));
        if e >= s.len() {
            assert(views(r@) =~= old_r + split_lf_from(s@, i as int));
            return r;
        }
        assert(views(r@) + split_lf_from(s@, e + 1) =~= old_r + split_lf_from(s@, i as int));
        i = e + 1;
    }
}

fn join_claimed_exec(text: &Vec<char>) -> (r: Vec<char>)
    ensures
        r@ == join_claimed(text@),
{
    let segs = split_lf(text);
    let ghost sv = views(segs@);
    let mut acc: Vec<Vec<char>> = Vec::new();
    let mut i: usize = 0;
    assert(views(acc@) =~= seq![]);
    while i < segs.len()
        invariant
            i <= segs.len(),
            sv == views(segs@),
            merge_from(sv, i as int, views(acc@)) == merge_from(sv, 0, seq![]),
        decreases segs.len() - i,
    {
        assert(sv[i as int] == segs@[i as int]@);
        let ghost old_acc = views(acc@);
        if acc.len() > 0 && is_claimed(&segs[i]) {
            let mut last = acc.pop().unwrap();
            assert(last@ == old_acc.last());
            last.push(' ');
            let b = skip_blank_exec(&segs[i]);
            proof {
                lemma_skip_blank(segs@[i as int]@, 0);
            }
            append_range(&mut last, &segs[i], b, segs[i].len());
            acc.push(last);
            assert(views(acc@) =~= old_acc.update(
                old_acc.len() - 1,
                old_acc.last().push(' ') + sv[i as int].skip(skip_blank(sv[i as int], 0)),
            ));
        } else {
            let c = copy(&segs[i]);
            acc.push(c);
            assert(views(acc@) =~= old_acc.push(sv[i as int]));
        }
        i = i + 1;
    }
    join_with_newlines(&acc)
}

pub fn math_layout_exec(s: &Vec<char>, prefs: FormatOptions) -> (r: Vec<char>)
    ensures
        r@ == math_layout(s@, prefs),
{
    match format_environment(s) {
        Some(e) => e,
        None => format_display_math(s, prefs.math_style, prefs.math_width),
    }
}

fn format_block_exec(source: &Vec<char>, prefs: FormatOptions) -> (r: Vec<char>)
    ensures
        r@ == format_block(source@, prefs),
{
    let s = trim_block_exec(source);
    if s.len() == 0 {
        return s;
    }
    let laid = math_layout_exec(&s, prefs);
    let a = without_trailing(&laid, '\n');
    let f = without_leading(&a, '\n');
    if contains_char(&s, '%') || contains(&s, &chars_of("\\verb")) {
        f
    } else {
        join_claimed_exec(&f)
    }
}

// ---------------------------------------------------------------------------
// Finding the blocks
// ---------------------------------------------------------------------------

/// A formatted equation waiting to be put back, with the delimiters the
/// author chose: Marklign reflows mathematics but never restyles delimiters.
pub struct HeldView {
    /// Which delimiter pair: 0 for `$$`, 1 for `\[ \]`.
    pub pair: int,
    pub body: Seq<char>,
    /// The source kept the delimiters on the equation's own line, which is
    /// honored as long as the formatted equation still fits on one line.
    pub one_line: bool,
    /// The closing delimiter carried a trailing hard line break.
    pub hard_break: bool,
}

pub struct Held {
    pub pair: usize,
    pub body: Vec<char>,
    pub one_line: bool,
    pub hard_break: bool,
}

impl View for Held {
    type V = HeldView;

    open spec fn view(&self) -> HeldView {
        HeldView {
            pair: self.pair as int,
            body: self.body@,
            one_line: self.one_line,
            hard_break: self.hard_break,
        }
    }
}

pub open spec fn helds(v: Seq<Held>) -> Seq<HeldView> {
    v.map_values(|h: Held| h@)
}

/// Searching on from line `j` for the line that closes an equation opened
/// with delimiter pair `k` inside `depth` block quotes.
pub open spec fn scan_block(
    ls: Seq<Seq<char>>,
    vb: Seq<Option<Verbatim>>,
    prefs: FormatOptions,
    prefix: Seq<char>,
    k: int,
    depth: nat,
    j: int,
    source: Seq<char>,
    blank: bool,
) -> Option<(Seq<char>, HeldView, int)>
    decreases ls.len() - j,
{
    if j < 0 || j >= ls.len() {
        None
    } else if vb[j] is Some {
        // A fenced block can interrupt a paragraph, and its contents are not
        // mathematics however much they look like it.
        None
    } else {
        let src = source.push('\n');
        let closer = delim_close(k);
        match strip_markers(strip_newline(ls[j]), depth) {
            // Leaving the container ends the equation.
            None => None,
            Some(content) => if trim(content).len() == 0 {
                scan_block(ls, vb, prefs, prefix, k, depth, j + 1, src, true)
            } else if content[0] == '>' && holds(content, closer) {
                // A quote marker in front of the closing delimiter: the
                // closer belongs to a quote, not to this equation.
                None
            } else {
                match close_at(content, closer) {
                    None => if holds(content, closer) {
                        None
                    } else {
                        scan_block(ls, vb, prefs, prefix, k, depth, j + 1, src + content, blank)
                    },
                    Some(at) => {
                        let full = src + content.take(at);
                        let body = if blank {
                            trim_block(full)
                        } else {
                            format_block(full, prefs)
                        };
                        if body.len() == 0 {
                            None
                        } else {
                            Some(
                                (
                                    prefix,
                                    HeldView {
                                        pair: k,
                                        body,
                                        one_line: false,
                                        hard_break: hard_break(content.skip(at + closer.len())),
                                    },
                                    j,
                                ),
                            )
                        }
                    },
                }
            },
        }
    }
}

/// A display equation that owns its source lines, starting at line `open`:
/// its container prefix, its formatted contents, and its last line.
pub open spec fn block_at(
    ls: Seq<Seq<char>>,
    open: int,
    vb: Seq<Option<Verbatim>>,
    prefs: FormatOptions,
) -> Option<(Seq<char>, HeldView, int)> {
    match opening(strip_newline(ls[open])) {
        None => None,
        Some((prefix, k, first)) => {
            let closer = delim_close(k);
            match close_at(first, closer) {
                Some(at) => {
                    let body = format_block(first.take(at), prefs);
                    if body.len() == 0 {
                        None
                    } else {
                        Some(
                            (
                                prefix,
                                HeldView {
                                    pair: k,
                                    body,
                                    one_line: true,
                                    hard_break: hard_break(first.skip(at + closer.len())),
                                },
                                open,
                            ),
                        )
                    }
                },
                None => if holds(first, closer) {
                    // Prose follows the closing delimiter on the opening
                    // line, as in the escaped brackets a serializer writes
                    // around a prose `[note]`.
                    None
                } else {
                    scan_block(
                        ls,
                        vb,
                        prefs,
                        prefix,
                        k,
                        count_char(prefix, '>'),
                        open + 1,
                        first,
                        false,
                    )
                },
            }
        },
    }
}

pub(crate) proof fn lemma_scan_block_end(
    ls: Seq<Seq<char>>,
    vb: Seq<Option<Verbatim>>,
    prefs: FormatOptions,
    prefix: Seq<char>,
    k: int,
    depth: nat,
    j: int,
    source: Seq<char>,
    blank: bool,
)
    requires
        0 <= j,
    ensures
        scan_block(ls, vb, prefs, prefix, k, depth, j, source, blank) matches Some((p, _, e)) ==> j
            <= e < ls.len() && p == prefix,
    decreases ls.len() - j,
{
    if j < ls.len() && vb[j] is None {
        let src = source.push('\n');
        let closer = delim_close(k);
        match strip_markers(strip_newline(ls[j]), depth) {
            None => {},
            Some(content) => {
                if trim(content).len() == 0 {
                    lemma_scan_block_end(ls, vb, prefs, prefix, k, depth, j + 1, src, true);
                } else {
                    lemma_scan_block_end(
                        ls,
                        vb,
                        prefs,
                        prefix,
                        k,
                        depth,
                        j + 1,
                        src + content,
                        blank,
                    );
                }
            },
        }
    }
}

pub open spec fn block_ok(
    ls: Seq<Seq<char>>,
    open: int,
    vb: Seq<Option<Verbatim>>,
    prefs: FormatOptions,
    r: Option<(Vec<char>, Held, usize)>,
) -> bool {
    match r {
        Some((p, h, e)) => block_at(ls, open, vb, prefs) == Some((p@, h@, e as int)),
        None => block_at(ls, open, vb, prefs) is None,
    }
}

fn block_at_exec(
    ls: &Vec<Vec<char>>,
    open: usize,
    vb: &Vec<Option<Verbatim>>,
    prefs: FormatOptions,
) -> (r: Option<(Vec<char>, Held, usize)>)
    requires
        open < ls.len(),
        vb@.len() >= ls.len(),
    ensures
        block_ok(views(ls@), open as int, vb@, prefs, r),
        r matches Some((_, _, e)) ==> open <= e < ls.len(),
        r matches Some((_, h, _)) ==> h.pair < 2,
{
    let ghost lv = views(ls@);
    assert(lv[open as int] == ls@[open as int]@);
    let line = stripped_newline(&ls[open]);
    let c = skip_container_exec(&line);
    let content = slice(&line, c, line.len());
    assert(content@ =~= line@.skip(c as int));
    let prefix = slice(&line, 0, c);
    assert(prefix@ =~= line@.take(c as int));
    let (o0, c0) = delimiters(0);
    let (o1, c1) = delimiters(1);
    let (k, opener, closer): (usize, Vec<char>, Vec<char>) = if starts_with(&content, &o0) {
        (0, o0, c0)
    } else if starts_with(&content, &o1) {
        (1, o1, c1)
    } else {
        return None;
    };
    let first = slice(&content, opener.len(), content.len());
    assert(first@ =~= content@.skip(delim_open(k as int).len() as int));
    match close_at_exec(&first, &closer) {
        Some(at) => {
            let head = slice(&first, 0, at);
            assert(head@ =~= first@.take(at as int));
            let body = format_block_exec(&head, prefs);
            if body.len() == 0 {
                return None;
            }
            let tail = slice(&first, at + closer.len(), first.len());
            assert(tail@ =~= first@.skip(at + closer@.len()));
            let hb = count_of(&tail, ' ') >= 2;
            return Some((prefix, Held { pair: k, body, one_line: true, hard_break: hb }, open));
        },
        None => {},
    }
    if contains(&first, &closer) {
        return None;
    }
    let depth = count_of(&prefix, '>');
    let mut source = first;
    let mut blank = false;
    let mut j = open + 1;
    let ghost target = block_at(lv, open as int, vb@, prefs);
    assert(target == scan_block(lv, vb@, prefs, prefix@, k as int, depth as nat, j as int, source@, blank));
    while j < ls.len()
        invariant
            open < j <= ls.len(),
            lv == views(ls@),
            vb@.len() >= ls.len(),
            closer@ == delim_close(k as int),
            target == block_at(lv, open as int, vb@, prefs),
            target == scan_block(lv, vb@, prefs, prefix@, k as int, depth as nat, j as int, source@, blank),
            k < 2,
        decreases ls.len() - j,
    {
        assert(lv[j as int] == ls@[j as int]@);
        if vb[j].is_some() {
            return None;
        }
        source.push('\n');
        let stripped = stripped_newline(&ls[j]);
        let content = match strip_markers_exec(&stripped, depth) {
            Some(c) => c,
            None => return None,
        };
        if is_blank_text(&content) {
            blank = true;
            j = j + 1;
            continue;
        }
        if content[0] == '>' && contains(&content, &closer) {
            return None;
        }
        match close_at_exec(&content, &closer) {
            None => {
                if contains(&content, &closer) {
                    return None;
                }
                append(&mut source, &content);
                j = j + 1;
            },
            Some(at) => {
                append_range(&mut source, &content, 0, at);
                assert(content@.subrange(0, at as int) =~= content@.take(at as int));
                let body = if blank {
                    trim_block_exec(&source)
                } else {
                    format_block_exec(&source, prefs)
                };
                if body.len() == 0 {
                    return None;
                }
                let tail = slice(&content, at + closer.len(), content.len());
                assert(tail@ =~= content@.skip(at + closer@.len()));
                let hb = count_of(&tail, ' ') >= 2;
                return Some((prefix, Held { pair: k, body, one_line: false, hard_break: hb }, j));
            },
        }
    }
    None
}

/// The block placeholder stem: letters only, so Markdown never escapes or
/// reflows one.
pub open spec fn block_stem() -> Seq<char> {
    "MARKLIGNMATHBLOCK"@
}

/// `token`, lengthened with `X` until the input does not contain it.
pub open spec fn fresh_from(input: Seq<char>, token: Seq<char>) -> Seq<char>
    decreases input.len() + 1 - token.len(),
{
    if token.len() <= input.len() && holds(input, token) {
        fresh_from(input, token.push('X'))
    } else {
        token
    }
}

pub fn fresh_token(input: &Vec<char>, stem: Vec<char>) -> (r: Vec<char>)
    ensures
        r@ == fresh_from(input@, stem@),
{
    let mut token = stem;
    let ghost target = fresh_from(input@, token@);
    while token.len() <= input.len() && contains(input, &token)
        invariant
            fresh_from(input@, token@) == target,
        decreases input.len() + 1 - token.len(),
    {
        token.push('X');
    }
    token
}

pub struct BlockMathView {
    pub text: Seq<char>,
    pub blocks: Seq<HeldView>,
    pub token: Seq<char>,
}

/// A document whose standalone display-math blocks have been set aside.
pub struct BlockMath {
    /// Markdown to parse, with one placeholder line per extracted block.
    pub text: Vec<char>,
    pub blocks: Vec<Held>,
    pub token: Vec<char>,
}

impl View for BlockMath {
    type V = BlockMathView;

    open spec fn view(&self) -> BlockMathView {
        BlockMathView { text: self.text@, blocks: helds(self.blocks@), token: self.token@ }
    }
}

pub open spec fn extract_from(
    ls: Seq<Seq<char>>,
    vb: Seq<Option<Verbatim>>,
    prefs: FormatOptions,
    token: Seq<char>,
    index: int,
    text: Seq<char>,
    blocks: Seq<HeldView>,
) -> (Seq<char>, Seq<HeldView>)
    decreases ls.len() - index,
{
    if index < 0 || index >= ls.len() {
        (text, blocks)
    } else {
        match (if vb[index] is None {
            block_at(ls, index, vb, prefs)
        } else {
            None
        }) {
            Some((prefix, held, end)) => if index <= end < ls.len() {
                extract_from(
                    ls,
                    vb,
                    prefs,
                    token,
                    end + 1,
                    text + prefix + token + decimal(blocks.len()).push('\n'),
                    blocks.push(held),
                )
            } else {
                (text, blocks)
            },
            None => extract_from(ls, vb, prefs, token, index + 1, text + ls[index], blocks),
        }
    }
}

/// Every equation that owns its source lines, formatted and replaced by a
/// placeholder line with its container prefix.
pub open spec fn extract(input: Seq<char>, prefs: FormatOptions, d: crate::markdown::DialectView) -> BlockMathView {
    let token = fresh_from(input, block_stem());
    let r = extract_from(
        pieces(input),
        verbatim_lines(input, d),
        prefs,
        token,
        0,
        seq![],
        seq![],
    );
    BlockMathView { text: r.0, blocks: r.1, token }
}

pub fn extract_exec(input: &Vec<char>, prefs: FormatOptions, d: &Dialect) -> (r: BlockMath)
    ensures
        r@ == extract(input@, prefs, d@),
        r.wf(),
{
    let token = fresh_token(input, chars_of("MARKLIGNMATHBLOCK"));
    let ls = split_pieces(input);
    let vb = verbatim_lines_of(input, d);
    let ghost lv = views(ls@);
    let mut text: Vec<char> = Vec::new();
    let mut blocks: Vec<Held> = Vec::new();
    let mut index: usize = 0;
    assert(helds(blocks@) =~= seq![]);
    while index < ls.len()
        invariant
            index <= ls.len(),
            lv == views(ls@),
            lv == pieces(input@),
            vb@ == verbatim_lines(input@, d@),
            vb@.len() == ls.len() + 1,
            token@ == fresh_from(input@, block_stem()),
            extract_from(lv, vb@, prefs, token@, index as int, text@, helds(blocks@))
                == extract_from(lv, vb@, prefs, token@, 0, seq![], seq![]),
            held_wf(helds(blocks@)),
        decreases ls.len() - index,
    {
        assert(lv[index as int] == ls@[index as int]@);
        if vb[index].is_none() {
            match block_at_exec(&ls, index, &vb, prefs) {
                Some((prefix, held, end)) => {
                    let ghost old_blocks = helds(blocks@);
                    append(&mut text, &prefix);
                    append(&mut text, &token);
                    push_decimal(&mut text, blocks.len());
                    text.push('\n');
                    blocks.push(held);
                    assert(helds(blocks@) =~= old_blocks.push(held@));
                    index = end + 1;
                    continue;
                },
                None => {},
            }
        }
        append(&mut text, &ls[index]);
        index = index + 1;
    }
    BlockMath { text, blocks, token }
}

// ---------------------------------------------------------------------------
// Putting the blocks back
// ---------------------------------------------------------------------------

/// A character that can make up the container prefix of a placeholder line:
/// indentation, block-quote markers, and list markers.
pub open spec fn is_container_char(c: char) -> bool {
    is_ws(c) || c == '>' || c == '-' || c == '*' || c == '+' || c == '.' || c == ')' || is_digit(c)
}

pub open spec fn all_container(s: Seq<char>) -> bool {
    forall|k: int| 0 <= k < s.len() ==> is_container_char(#[trigger] s[k])
}

/// A line holding nothing but a placeholder: the container prefix the
/// serializer settled on, and the index of the held block.
pub open spec fn placeholder(line: Seq<char>, token: Seq<char>, n: nat) -> Option<(Seq<char>, int)> {
    match index_of(line, token, 0) {
        None => None,
        Some(start) => {
            let prefix = line.take(start);
            if !all_container(prefix) {
                None
            } else {
                match parse_usize(trim_end(line.skip(start + token.len()))) {
                    None => None,
                    Some(p) => if p < n {
                        Some((prefix, p as int))
                    } else {
                        None
                    },
                }
            }
        },
    }
}

/// A list marker belongs to the first line only; indentation and quote
/// markers repeat below it.
pub open spec fn continuation(prefix: Seq<char>) -> Seq<char> {
    Seq::new(
        prefix.len(),
        |k: int|
            if prefix[k] == '>' || is_ws(prefix[k]) {
                prefix[k]
            } else {
                ' '
            },
    )
}

pub open spec fn emit_lines(
    ls: Seq<Seq<char>>,
    prefix: Seq<char>,
    cont: Seq<char>,
    i: int,
    acc: Seq<char>,
) -> Seq<char>
    decreases ls.len() - i,
{
    if i < 0 || i >= ls.len() {
        acc
    } else {
        let p = if i == 0 {
            prefix
        } else {
            cont
        };
        emit_lines(ls, prefix, cont, i + 1, acc + trim_end(p + ls[i]).push('\n'))
    }
}

/// A held equation written back in place of its placeholder line.
pub open spec fn emit(prefix: Seq<char>, h: HeldView) -> Seq<char> {
    let open = delim_open(h.pair);
    let close = delim_close(h.pair);
    let main = if h.one_line && !h.body.contains('\n') {
        prefix + open + h.body + close
    } else {
        let cont = continuation(prefix);
        emit_lines(seq![open] + lines(h.body), prefix, cont, 0, seq![]) + cont + close
    };
    (main + if h.hard_break {
        "  "@
    } else {
        seq![]
    }).push('\n')
}

pub open spec fn all_true(v: Seq<bool>) -> bool {
    forall|k: int| 0 <= k < v.len() ==> #[trigger] v[k]
}

pub open spec fn restore_from(
    bm: BlockMathView,
    ps: Seq<Seq<char>>,
    i: int,
    out: Seq<char>,
    restored: Seq<bool>,
) -> Option<Seq<char>>
    decreases ps.len() - i,
{
    if i < 0 || i >= ps.len() {
        if all_true(restored) {
            Some(out)
        } else {
            None
        }
    } else {
        match placeholder(strip_newline(ps[i]), bm.token, bm.blocks.len()) {
            Some((prefix, pos)) => restore_from(
                bm,
                ps,
                i + 1,
                out + emit(prefix, bm.blocks[pos]),
                restored.update(pos, true),
            ),
            None => restore_from(bm, ps, i + 1, out + ps[i], restored),
        }
    }
}

/// Put the formatted equations back, or `None` if a placeholder did not
/// survive rendering.
pub open spec fn restore_blocks(bm: BlockMathView, rendered: Seq<char>) -> Option<Seq<char>> {
    if bm.blocks.len() == 0 {
        Some(rendered)
    } else {
        restore_from(bm, pieces(rendered), 0, seq![], Seq::new(bm.blocks.len(), |k: int| false))
    }
}

pub open spec fn placeholder_ok(
    line: Seq<char>,
    token: Seq<char>,
    n: nat,
    r: Option<(Vec<char>, usize)>,
) -> bool {
    match r {
        Some((p, pos)) => placeholder(line, token, n) == Some((p@, pos as int)),
        None => placeholder(line, token, n) is None,
    }
}

fn is_container(c: char) -> (r: bool)
    ensures
        r == is_container_char(c),
{
    is_whitespace(c) || c == '>' || c == '-' || c == '*' || c == '+' || c == '.' || c == ')' || ((c
        as u32) >= 48 && (c as u32) <= 57)
}

fn placeholder_exec(line: &Vec<char>, token: &Vec<char>, n: usize) -> (r: Option<(Vec<char>, usize)>)
    ensures
        placeholder_ok(line@, token@, n as nat, r),
        r matches Some((_, pos)) ==> pos < n,
{
    let start = match find(line, token) {
        Some(s) => s,
        None => return None,
    };
    proof {
        crate::text::lemma_index_of_bounds(line@, token@, 0);
    }
    assert(crate::text::occurs(line@, token@, start as int));
    let prefix = slice(line, 0, start);
    assert(prefix@ =~= line@.take(start as int));
    let mut k: usize = 0;
    while k < prefix.len()
        invariant
            k <= prefix.len(),
            prefix@ == line@.take(start as int),
            start + token@.len() <= line@.len(),
            index_of(line@, token@, 0) == Some(start as int),
            forall|j: int| 0 <= j < k ==> is_container_char(#[trigger] prefix@[j]),
        decreases prefix.len() - k,
    {
        if !is_container(prefix[k]) {
            assert(line@.take(start as int)[k as int] == prefix@[k as int]);
            assert(!all_container(line@.take(start as int)));
            return None;
        }
        k = k + 1;
    }
    let tl = token.len();
    assert(start + tl <= line.len());
    let after: usize = start + tl;
    let rest = slice(line, after, line.len());
    assert(rest@ =~= line@.skip(start + token@.len()));
    let number = trimmed_end(&rest);
    match parse_decimal(&number) {
        Some(p) => if p < n {
            Some((prefix, p))
        } else {
            None
        },
        None => None,
    }
}

fn continuation_exec(prefix: &Vec<char>) -> (r: Vec<char>)
    ensures
        r@ == continuation(prefix@),
{
    let mut r: Vec<char> = Vec::new();
    let mut k: usize = 0;
    while k < prefix.len()
        invariant
            k <= prefix.len(),
            r@ == continuation(prefix@).subrange(0, k as int),
        decreases prefix.len() - k,
    {
        let c = prefix[k];
        if c == '>' || is_whitespace(c) {
            r.push(c);
        } else {
            r.push(' ');
        }
        k = k + 1;
        assert(r@ =~= continuation(prefix@).subrange(0, k as int));
    }
    assert(continuation(prefix@).subrange(0, k as int) =~= continuation(prefix@));
    r
}

fn emit_exec(out: &mut Vec<char>, prefix: &Vec<char>, h: &Held)
    requires
        h.pair < 2,
    ensures
        final(out)@ == old(out)@ + emit(prefix@, h@),
{
    let (open, close) = delimiters(h.pair);
    let ghost start = out@;
    if h.one_line && !contains_char(&h.body, '\n') {
        append(out, prefix);
        append(out, &open);
        append(out, &h.body);
        append(out, &close);
    } else {
        let cont = continuation_exec(prefix);
        let body_lines = split_lines(&h.body);
        let mut ls: Vec<Vec<char>> = Vec::new();
        ls.push(copy(&open));
        let mut k: usize = 0;
        while k < body_lines.len()
            invariant
                k <= body_lines.len(),
                views(body_lines@) == lines(h.body@),
                views(ls@) == seq![open@] + lines(h.body@).subrange(0, k as int),
            decreases body_lines.len() - k,
        {
            assert(views(body_lines@)[k as int] == body_lines@[k as int]@);
            let c = copy(&body_lines[k]);
            let ghost old_ls = views(ls@);
            ls.push(c);
            assert(views(ls@) =~= old_ls.push(c@));
            k = k + 1;
            assert(views(ls@) =~= seq![open@] + lines(h.body@).subrange(0, k as int));
        }
        assert(lines(h.body@).subrange(0, k as int) =~= lines(h.body@));
        let ghost lv = views(ls@);
        let mut acc: Vec<char> = Vec::new();
        let mut i: usize = 0;
        while i < ls.len()
            invariant
                i <= ls.len(),
                lv == views(ls@),
                emit_lines(lv, prefix@, cont@, i as int, acc@) == emit_lines(
                    lv,
                    prefix@,
                    cont@,
                    0,
                    seq![],
                ),
            decreases ls.len() - i,
        {
            assert(lv[i as int] == ls@[i as int]@);
            let mut line: Vec<char> = if i == 0 {
                copy(prefix)
            } else {
                copy(&cont)
            };
            append(&mut line, &ls[i]);
            let t = trimmed_end(&line);
            append(&mut acc, &t);
            acc.push('\n');
            i = i + 1;
        }
        append(out, &acc);
        append(out, &cont);
        append(out, &close);
    }
    let ghost mid = out@;
    if h.hard_break {
        out.push(' ');
        out.push(' ');
        proof {
            reveal_strlit("  ");
        }
        assert(out@ =~= mid + "  "@);
    } else {
        assert(out@ =~= mid + seq![]);
    }
    out.push('\n');
    assert(out@ =~= start + emit(prefix@, h@));
}

pub open spec fn held_wf(blocks: Seq<HeldView>) -> bool {
    forall|k: int| 0 <= k < blocks.len() ==> 0 <= #[trigger] blocks[k].pair < 2
}

pub open spec fn option_ok(r: Option<Vec<char>>, s: Option<Seq<char>>) -> bool {
    match r {
        Some(v) => s == Some(v@),
        None => s is None,
    }
}

impl BlockMath {
    pub open spec fn wf(&self) -> bool {
        held_wf(helds(self.blocks@))
    }

    /// Put the formatted equations back, or `None` if a placeholder did not
    /// survive rendering; the caller then formats without extraction rather
    /// than emitting a document with an equation missing.
    pub fn restore(&self, rendered: &Vec<char>) -> (r: Option<Vec<char>>)
        requires
            self.wf(),
        ensures
            option_ok(r, restore_blocks(self@, rendered@)),
    {
        if self.blocks.len() == 0 {
            return Some(copy(rendered));
        }
        let ghost bm = self@;
        let ps = split_pieces(rendered);
        let ghost pv = views(ps@);
        let n = self.blocks.len();
        let mut restored: Vec<bool> = Vec::new();
        let mut k: usize = 0;
        while k < n
            invariant
                k <= n,
                restored@ == Seq::new(k as nat, |j: int| false),
            decreases n - k,
        {
            restored.push(false);
            k = k + 1;
            assert(restored@ =~= Seq::new(k as nat, |j: int| false));
        }
        let mut out: Vec<char> = Vec::new();
        let mut i: usize = 0;
        while i < ps.len()
            invariant
                i <= ps.len(),
                pv == views(ps@),
                pv == pieces(rendered@),
                bm == self@,
                self.wf(),
                n == self.blocks.len(),
                restored@.len() == n,
                restore_from(bm, pv, i as int, out@, restored@) == restore_from(
                    bm,
                    pv,
                    0,
                    seq![],
                    Seq::new(bm.blocks.len(), |j: int| false),
                ),
            decreases ps.len() - i,
        {
            assert(pv[i as int] == ps@[i as int]@);
            let line = stripped_newline(&ps[i]);
            match placeholder_exec(&line, &self.token, n) {
                Some((prefix, position)) => {
                    assert(helds(self.blocks@)[position as int] == self.blocks@[position as int]@);
                    emit_exec(&mut out, &prefix, &self.blocks[position]);
                    restored.set(position, true);
                },
                None => {
                    append(&mut out, &ps[i]);
                },
            }
            i = i + 1;
        }
        let mut k: usize = 0;
        assert(restore_blocks(self@, rendered@) == (if all_true(restored@) {
            Some(out@)
        } else {
            None
        }));
        while k < n
            invariant
                k <= n,
                restored@.len() == n,
                forall|j: int| 0 <= j < k ==> #[trigger] restored@[j],
                restore_blocks(self@, rendered@) == (if all_true(restored@) {
                    Some(out@)
                } else {
                    None
                }),
            decreases n - k,
        {
            if !restored[k] {
                return None;
            }
            k = k + 1;
        }
        Some(out)
    }
}

// ---------------------------------------------------------------------------
// Inline `\(...\)` spans
// ---------------------------------------------------------------------------

/// First index at or after `i` that does not hold `c`.
pub open spec fn run_end(s: Seq<char>, i: int, c: char) -> int
    decreases s.len() - i,
{
    if 0 <= i < s.len() && s[i] == c {
        run_end(s, i + 1, c)
    } else {
        i
    }
}

/// Searching from `index` for a run of `d` as long as the opening one,
/// which closes the span; `open` when the line ends first.
pub open spec fn close_scan(line: Seq<char>, d: char, width: int, index: int, open: int) -> int
    decreases line.len() - index,
{
    if index < 1 || index >= line.len() {
        open
    } else if line[index] != d {
        close_scan(line, d, width, index + 1, open)
    } else {
        let close = run_end(line, index, d);
        if close <= index || close > line.len() {
            open
        } else if close - index == width && !(d == '$' && is_ascii_ws_char(line[index - 1])) {
            close
        } else {
            close_scan(line, d, width, close, open)
        }
    }
}

pub open spec fn is_ascii_ws_char(c: char) -> bool {
    c == ' ' || c == '\t' || c == '\n' || c == '\x0C' || c == '\r'
}

/// Offset just past the inline code span or `$`-delimited math opening at
/// `start`, or just past the delimiter run when nothing on the line closes
/// it. Dollar math opens only on a delimiter the mathematics follows
/// immediately, and closes only on one the mathematics runs up to.
pub open spec fn delimited_end(line: Seq<char>, start: int) -> int {
    let d = line[start];
    let open = run_end(line, start, d);
    if d == '$' && (open >= line.len() || is_ascii_ws_char(line[open])) {
        open
    } else {
        close_scan(line, d, open - start, open, open)
    }
}

/// Offset just past the `\)` that closes a span whose contents begin the
/// sequence, or `None` when the line ends first.
pub open spec fn inline_close_from(rest: Seq<char>, i: int) -> Option<int>
    decreases rest.len() - i,
{
    if i < 0 || i + 1 >= rest.len() {
        None
    } else if rest[i] != '\\' {
        inline_close_from(rest, i + 1)
    } else if rest[i + 1] == ')' {
        Some(i + 2)
    } else {
        inline_close_from(rest, i + 2)
    }
}

/// Copy one line, replacing every `\(...\)` span with a placeholder. Inline
/// code and `$`-delimited math are stepped over: what they hold is theirs.
/// A backslash escape consumes the character after it.
pub open spec fn hold_from(
    line: Seq<char>,
    token: Seq<char>,
    index: int,
    text: Seq<char>,
    spans: Seq<Seq<char>>,
) -> (Seq<char>, Seq<Seq<char>>)
    decreases line.len() - index,
{
    if index < 0 || index >= line.len() {
        (text, spans)
    } else {
        let c = line[index];
        if c == '`' || c == '$' {
            let end = delimited_end(line, index);
            if end <= index || end > line.len() {
                (text, spans)
            } else {
                hold_from(line, token, end, text + line.subrange(index, end), spans)
            }
        } else if c == '\\' {
            let closed = if index + 1 < line.len() && line[index + 1] == '(' {
                inline_close_from(line.skip(index + 2), 0)
            } else {
                None
            };
            match closed {
                Some(at) => {
                    let end = index + 2 + at;
                    if at < 0 || end > line.len() {
                        (text, spans)
                    } else {
                        hold_from(
                            line,
                            token,
                            end,
                            text + token + decimal(spans.len()) + token,
                            spans.push(line.subrange(index, end)),
                        )
                    }
                },
                None => {
                    let end = if index + 1 < line.len() {
                        index + 2
                    } else {
                        index + 1
                    };
                    hold_from(line, token, end, text + line.subrange(index, end), spans)
                },
            }
        } else {
            hold_from(line, token, index + 1, text.push(c), spans)
        }
    }
}

pub open spec fn inline_from(
    ps: Seq<Seq<char>>,
    vb: Seq<Option<Verbatim>>,
    token: Seq<char>,
    i: int,
    text: Seq<char>,
    spans: Seq<Seq<char>>,
) -> (Seq<char>, Seq<Seq<char>>)
    decreases ps.len() - i,
{
    if i < 0 || i >= ps.len() {
        (text, spans)
    } else if vb[i] is Some {
        inline_from(ps, vb, token, i + 1, text + ps[i], spans)
    } else {
        let r = hold_from(ps[i], token, 0, text, spans);
        inline_from(ps, vb, token, i + 1, r.0, r.1)
    }
}

pub open spec fn inline_stem() -> Seq<char> {
    "MARKLIGNMATHINLINE"@
}

pub struct InlineMathView {
    pub text: Seq<char>,
    pub spans: Seq<Seq<char>>,
    pub token: Seq<char>,
}

/// A document whose inline `\(...\)` math spans have been set aside.
pub struct InlineMath {
    /// Markdown to parse, with one placeholder per extracted span.
    pub text: Vec<char>,
    pub spans: Vec<Vec<char>>,
    pub token: Vec<char>,
}

impl View for InlineMath {
    type V = InlineMathView;

    open spec fn view(&self) -> InlineMathView {
        InlineMathView { text: self.text@, spans: views(self.spans@), token: self.token@ }
    }
}

/// Every `\(...\)` span outside verbatim lines, replaced by a placeholder
/// that brackets the span's index with the stem on both sides.
pub open spec fn extract_inline(input: Seq<char>, d: crate::markdown::DialectView) -> InlineMathView {
    let token = fresh_from(input, inline_stem());
    let r = inline_from(pieces(input), verbatim_lines(input, d), token, 0, seq![], seq![]);
    InlineMathView { text: r.0, spans: r.1, token }
}

pub open spec fn restore_inline_from(
    im: InlineMathView,
    r: Seq<char>,
    i: int,
    out: Seq<char>,
    restored: Seq<bool>,
) -> Option<Seq<char>>
    decreases r.len() - i,
{
    if i < 0 || i > r.len() || im.token.len() == 0 {
        None
    } else {
        match index_of(r, im.token, i) {
            None => if all_true(restored) {
                Some(out + r.subrange(i, r.len() as int))
            } else {
                None
            },
            Some(start) => {
                let tail = start + im.token.len();
                match index_of(r, im.token, tail) {
                    None => None,
                    Some(end) => match parse_usize(r.subrange(tail, end)) {
                        None => None,
                        Some(pos) => if pos >= im.spans.len() || end + im.token.len() <= i || end
                            + im.token.len() > r.len() {
                            None
                        } else {
                            restore_inline_from(
                                im,
                                r,
                                end + im.token.len(),
                                out + r.subrange(i, start) + im.spans[pos as int],
                                restored.update(pos as int, true),
                            )
                        },
                    },
                }
            },
        }
    }
}

/// Put the spans back, or `None` if a placeholder did not survive rendering.
pub open spec fn restore_inline(im: InlineMathView, rendered: Seq<char>) -> Option<Seq<char>> {
    if im.spans.len() == 0 {
        Some(rendered)
    } else {
        restore_inline_from(im, rendered, 0, seq![], Seq::new(im.spans.len(), |k: int| false))
    }
}

pub proof fn lemma_run_end(s: Seq<char>, i: int, c: char)
    requires
        0 <= i <= s.len(),
    ensures
        i <= run_end(s, i, c) <= s.len(),
        i < s.len() && s[i] == c ==> i < run_end(s, i, c),
    decreases s.len() - i,
{
    if i < s.len() && s[i] == c {
        lemma_run_end(s, i + 1, c);
    }
}

pub proof fn lemma_close_scan(line: Seq<char>, d: char, width: int, index: int, open: int)
    requires
        0 <= index <= line.len(),
        0 <= open <= line.len(),
    ensures
        0 <= close_scan(line, d, width, index, open) <= line.len(),
        close_scan(line, d, width, index, open) == open || close_scan(line, d, width, index, open)
            > index,
    decreases line.len() - index,
{
    if index >= 1 && index < line.len() {
        if line[index] != d {
            lemma_close_scan(line, d, width, index + 1, open);
        } else {
            lemma_run_end(line, index, d);
            let close = run_end(line, index, d);
            if close > index && !(close - index == width && !(d == '$' && is_ascii_ws_char(
                line[index - 1],
            ))) {
                lemma_close_scan(line, d, width, close, open);
            }
        }
    }
}

fn run_end_exec(s: &Vec<char>, i: usize, c: char) -> (r: usize)
    requires
        i <= s.len(),
    ensures
        r == run_end(s@, i as int, c),
        i <= r <= s.len(),
{
    let mut k = i;
    while k < s.len() && s[k] == c
        invariant
            i <= k <= s.len(),
            run_end(s@, k as int, c) == run_end(s@, i as int, c),
        decreases s.len() - k,
    {
        k = k + 1;
    }
    k
}

fn is_ascii_space(c: char) -> (r: bool)
    ensures
        r == is_ascii_ws_char(c),
{
    c == ' ' || c == '\t' || c == '\n' || c == '\x0C' || c == '\r'
}

fn delimited_end_exec(line: &Vec<char>, start: usize) -> (r: usize)
    requires
        start < line.len(),
    ensures
        r == delimited_end(line@, start as int),
        start < r <= line.len(),
{
    let d = line[start];
    let open = run_end_exec(line, start, d);
    proof {
        lemma_run_end(line@, start as int, d);
    }
    if d == '$' && (open >= line.len() || is_ascii_space(line[open])) {
        return open;
    }
    let width = open - start;
    let mut index = open;
    proof {
        lemma_close_scan(line@, d, width as int, open as int, open as int);
    }
    while index < line.len()
        invariant
            start < open <= index <= line.len(),
            width == open - start,
            d == line@[start as int],
            close_scan(line@, d, width as int, index as int, open as int) == delimited_end(
                line@,
                start as int,
            ),
        decreases line.len() - index,
    {
        if line[index] != d {
            index = index + 1;
            continue;
        }
        let close = run_end_exec(line, index, d);
        proof {
            lemma_run_end(line@, index as int, d);
        }
        if close - index == width && !(d == '$' && is_ascii_space(line[index - 1])) {
            return close;
        }
        index = close;
    }
    open
}

fn inline_close(rest: &Vec<char>) -> (r: Option<usize>)
    ensures
        opt_usize(r) == inline_close_from(rest@, 0),
        r matches Some(at) ==> at <= rest.len(),
{
    let mut i: usize = 0;
    while rest.len() > 0 && i < rest.len() - 1
        invariant
            inline_close_from(rest@, i as int) == inline_close_from(rest@, 0),
        decreases rest.len() - i,
    {
        if rest[i] != '\\' {
            i = i + 1;
        } else if rest[i + 1] == ')' {
            return Some(i + 2);
        } else {
            i = i + 2;
        }
    }
    None
}

pub open spec fn opt_usize(o: Option<usize>) -> Option<int> {
    match o {
        Some(v) => Some(v as int),
        None => None,
    }
}

fn hold_spans(line: &Vec<char>, token: &Vec<char>, spans: &mut Vec<Vec<char>>, text: &mut Vec<char>)
    ensures
        (final(text)@, views(final(spans)@)) == hold_from(line@, token@, 0, old(text)@, views(old(spans)@)),
{
    let ghost target = hold_from(line@, token@, 0, text@, views(spans@));
    let mut index: usize = 0;
    while index < line.len()
        invariant
            index <= line.len(),
            hold_from(line@, token@, index as int, text@, views(spans@)) == target,
        decreases line.len() - index,
    {
        let c = line[index];
        if c == '`' || c == '$' {
            let end = delimited_end_exec(line, index);
            append_range(text, line, index, end);
            index = end;
            continue;
        }
        if c == '\\' {
            let mut closed: Option<usize> = None;
            if index + 1 < line.len() && line[index + 1] == '(' {
                let rest = slice(line, index + 2, line.len());
                assert(rest@ =~= line@.skip(index + 2));
                closed = inline_close(&rest);
            }
            match closed {
                Some(at) => {
                    let end = index + 2 + at;
                    append(text, token);
                    push_decimal(text, spans.len());
                    append(text, token);
                    let span = slice(line, index, end);
                    let ghost old_spans = views(spans@);
                    spans.push(span);
                    assert(views(spans@) =~= old_spans.push(span@));
                    index = end;
                },
                None => {
                    let end = if index + 1 < line.len() {
                        index + 2
                    } else {
                        index + 1
                    };
                    append_range(text, line, index, end);
                    index = end;
                },
            }
            continue;
        }
        text.push(c);
        index = index + 1;
    }
}

pub fn extract_inline_exec(input: &Vec<char>, d: &Dialect) -> (r: InlineMath)
    ensures
        r@ == extract_inline(input@, d@),
{
    let token = fresh_token(input, chars_of("MARKLIGNMATHINLINE"));
    let vb = verbatim_lines_of(input, d);
    let ps = split_pieces(input);
    let ghost pv = views(ps@);
    let mut text: Vec<char> = Vec::new();
    let mut spans: Vec<Vec<char>> = Vec::new();
    assert(views(spans@) =~= seq![]);
    let mut i: usize = 0;
    while i < ps.len()
        invariant
            i <= ps.len(),
            pv == views(ps@),
            pv == pieces(input@),
            vb@ == verbatim_lines(input@, d@),
            vb@.len() == ps.len() + 1,
            inline_from(pv, vb@, token@, i as int, text@, views(spans@)) == inline_from(
                pv,
                vb@,
                token@,
                0,
                seq![],
                seq![],
            ),
        decreases ps.len() - i,
    {
        assert(pv[i as int] == ps@[i as int]@);
        if vb[i].is_some() {
            append(&mut text, &ps[i]);
        } else {
            hold_spans(&ps[i], &token, &mut spans, &mut text);
        }
        i = i + 1;
    }
    InlineMath { text, spans, token }
}

impl InlineMath {
    /// Put the spans back, or `None` if a placeholder did not survive
    /// rendering; as with a held block, the caller then formats the document
    /// without extraction rather than emitting one with mathematics missing.
    pub fn restore(&self, rendered: &Vec<char>) -> (r: Option<Vec<char>>)
        ensures
            option_ok(r, restore_inline(self@, rendered@)),
    {
        if self.spans.len() == 0 {
            return Some(copy(rendered));
        }
        let ghost im = self@;
        let n = self.spans.len();
        let mut restored: Vec<bool> = Vec::new();
        let mut k: usize = 0;
        while k < n
            invariant
                k <= n,
                restored@ == Seq::new(k as nat, |j: int| false),
            decreases n - k,
        {
            restored.push(false);
            k = k + 1;
            assert(restored@ =~= Seq::new(k as nat, |j: int| false));
        }
        if self.token.len() == 0 {
            return None;
        }
        let tl = self.token.len();
        let mut out: Vec<char> = Vec::new();
        let mut i: usize = 0;
        loop
            invariant
                i <= rendered.len(),
                im == self@,
                n == self.spans.len(),
                tl == self.token.len(),
                tl > 0,
                restored@.len() == n,
                restore_inline_from(im, rendered@, i as int, out@, restored@) == restore_inline(
                    im,
                    rendered@,
                ),
            decreases rendered.len() - i,
        {
            match find_from(rendered, &self.token, i) {
                None => {
                    let mut k: usize = 0;
                    let ghost res = restore_inline(self@, rendered@);
                    assert(res == (if all_true(restored@) {
                        Some(out@ + rendered@.subrange(i as int, rendered@.len() as int))
                    } else {
                        None
                    }));
                    while k < n
                        invariant
                            k <= n,
                            restored@.len() == n,
                            forall|j: int| 0 <= j < k ==> #[trigger] restored@[j],
                            res == restore_inline(self@, rendered@),
                            res == (if all_true(restored@) {
                                Some(out@ + rendered@.subrange(i as int, rendered@.len() as int))
                            } else {
                                None
                            }),
                        decreases n - k,
                    {
                        if !restored[k] {
                            return None;
                        }
                        k = k + 1;
                    }
                    append_range(&mut out, rendered, i, rendered.len());
                    return Some(out);
                },
                Some(start) => {
                    proof {
                        crate::text::lemma_index_of_bounds(rendered@, self.token@, i as int);
                    }
                    assert(crate::text::occurs(rendered@, self.token@, start as int));
                    let tail = start + tl;
                    let end = match find_from(rendered, &self.token, tail) {
                        Some(e) => e,
                        None => return None,
                    };
                    proof {
                        crate::text::lemma_index_of_bounds(rendered@, self.token@, tail as int);
                    }
                    assert(crate::text::occurs(rendered@, self.token@, end as int));
                    let number = slice(rendered, tail, end);
                    let position = match parse_decimal(&number) {
                        Some(p) => p,
                        None => return None,
                    };
                    if position >= n {
                        return None;
                    }
                    append_range(&mut out, rendered, i, start);
                    assert(views(self.spans@)[position as int] == self.spans@[position as int]@);
                    append(&mut out, &self.spans[position]);
                    restored.set(position, true);
                    i = end + tl;
                },
            }
        }
    }
}

} // verus!
