//! Row-aware formatting for a deliberately small set of display-math environments.
//!
//! Only an entire `aligned`, `split`, or `cases` environment is eligible. Row
//! delimiters and alignment tabs are scanned at brace depth zero, so braced
//! command arguments are never split. Anything ambiguous is left unchanged.

use vstd::prelude::*;

use crate::math::{alpha_end, display_math, format_display_math};
use crate::text::{
    append, chars_of, contains, contains_char, ends_with, finishes, begins, holds,
    is_ascii_alpha, is_ascii_alphabetic, is_blank_text, slice, starts_with, trim, trim_end,
    trimmed, trimmed_end, views,
};
use crate::MathStyle;

verus! {

/// The environments whose rows Marklign lays out, in the order they are tried.
pub open spec fn opener(k: int) -> Seq<char> {
    if k == 0 {
        "\\begin{aligned}"@
    } else if k == 1 {
        "\\begin{split}"@
    } else {
        "\\begin{cases}"@
    }
}

pub open spec fn closer(k: int) -> Seq<char> {
    if k == 0 {
        "\\end{aligned}"@
    } else if k == 1 {
        "\\end{split}"@
    } else {
        "\\end{cases}"@
    }
}

/// The first environment the whole source is wrapped in.
pub open spec fn which_environment(source: Seq<char>) -> Option<int> {
    if begins(source, opener(0)) && finishes(source, closer(0)) {
        Some(0)
    } else if begins(source, opener(1)) && finishes(source, closer(1)) {
        Some(1)
    } else if begins(source, opener(2)) && finishes(source, closer(2)) {
        Some(2)
    } else {
        None
    }
}

/// Comments, nested environments, metadata, and row-break options need a
/// fuller parser.
pub open spec fn unsupported_body(body: Seq<char>) -> bool {
    body.contains('%') || holds(body, "\\begin"@) || holds(body, "\\end"@) || holds(body, "\\tag"@)
        || holds(body, "\\label"@) || holds(body, "\\intertext"@) || holds(body, "\\verb"@) || holds(
        body,
        "\\def"@,
    ) || holds(body, "\\newcommand"@) || holds(body, "\\\\["@) || holds(body, "\\\\*"@)
        || body.contains('\r')
}

/// Split at top-level `\\` (rows) or `&` (columns), tracking brace depth.
/// `None` where a row break stands inside braces or inside a cell, a
/// backslash ends the text, or braces do not balance.
pub open spec fn split_go(
    s: Seq<char>,
    rows: bool,
    i: int,
    depth: nat,
    start: int,
    parts: Seq<Seq<char>>,
) -> Option<Seq<Seq<char>>>
    decreases s.len() - i,
{
    if i < 0 || i >= s.len() {
        if depth != 0 {
            None
        } else {
            Some(parts.push(s.subrange(start, s.len() as int)))
        }
    } else if s[i] == '\\' {
        if i + 1 >= s.len() {
            None
        } else if s[i + 1] == '\\' {
            if depth > 0 || !rows {
                None
            } else {
                split_go(s, rows, i + 2, depth, i + 2, parts.push(s.subrange(start, i)))
            }
        } else {
            let j = if is_ascii_alpha(s[i + 1]) {
                alpha_end(s, i + 2)
            } else {
                i + 2
            };
            if j <= i || j > s.len() {
                None
            } else {
                split_go(s, rows, j, depth, start, parts)
            }
        }
    } else if s[i] == '{' {
        split_go(s, rows, i + 1, depth + 1, start, parts)
    } else if s[i] == '}' {
        if depth == 0 {
            None
        } else {
            split_go(s, rows, i + 1, (depth - 1) as nat, start, parts)
        }
    } else if s[i] == '&' && depth == 0 && !rows {
        split_go(s, rows, i + 1, depth, i + 1, parts.push(s.subrange(start, i)))
    } else {
        split_go(s, rows, i + 1, depth, start, parts)
    }
}

pub open spec fn split_top(s: Seq<char>, rows: bool) -> Option<Seq<Seq<char>>> {
    split_go(s, rows, 0, 0, 0, seq![])
}

/// The formatted cells of a row, joined by alignment tabs.
pub open spec fn cells_from(cells: Seq<Seq<char>>, index: int, acc: Seq<char>) -> Option<
    Seq<char>,
>
    decreases cells.len() - index,
{
    if index < 0 || index >= cells.len() {
        Some(acc)
    } else {
        let cell = trim(cells[index]);
        if cell.len() == 0 && index != 0 {
            None
        } else {
            let value = display_math(cell, MathStyle::Compact, usize::MAX as nat);
            if value.contains('\n') {
                None
            } else {
                let tab = if index > 0 {
                    if value.len() > 0 && value[0] == '=' {
                        " &"@
                    } else {
                        " & "@
                    }
                } else {
                    seq![]
                };
                cells_from(cells, index + 1, acc + tab + value)
            }
        }
    }
}

pub open spec fn all_blank(cells: Seq<Seq<char>>) -> bool {
    forall|k: int| 0 <= k < cells.len() ==> trim(#[trigger] cells[k]).len() == 0
}

pub open spec fn dangling(x: Seq<char>) -> bool {
    x.len() > 0 && (x.last() == '+' || x.last() == '-' || x.last() == '=')
}

/// One row on one line, indented by two spaces; `None` for a row whose
/// column placement or completeness is unclear.
pub open spec fn format_row(row: Seq<char>) -> Option<Seq<char>> {
    match split_top(row, false) {
        None => None,
        Some(cells) => if all_blank(cells) {
            None
        } else {
            match cells_from(cells, 0, seq![]) {
                None => None,
                Some(f) => if dangling(trim_end(f)) {
                    None
                } else {
                    Some("  "@ + trim_end(f))
                },
            }
        },
    }
}

pub open spec fn rows_from(rows: Seq<Seq<char>>, i: int, acc: Seq<Seq<char>>) -> Option<
    Seq<Seq<char>>,
>
    decreases rows.len() - i,
{
    if i < 0 || i >= rows.len() {
        Some(acc)
    } else {
        match format_row(rows[i]) {
            None => None,
            Some(r) => rows_from(rows, i + 1, acc.push(r)),
        }
    }
}

/// Lines joined by `sep`.
pub open spec fn join_with(ls: Seq<Seq<char>>, sep: Seq<char>) -> Seq<char>
    decreases ls.len(),
{
    if ls.len() == 0 {
        seq![]
    } else if ls.len() == 1 {
        ls[0]
    } else {
        join_with(ls.drop_last(), sep) + sep + ls.last()
    }
}

pub open spec fn row_separator() -> Seq<char> {
    " \\\\\n"@
}

/// An `aligned`, `split`, or `cases` environment with each row on a line of
/// its own, or `None` where the input is not one Marklign safely understands.
pub open spec fn environment(input: Seq<char>) -> Option<Seq<char>> {
    let source = trim(input);
    match which_environment(source) {
        None => None,
        Some(k) => {
            let open = opener(k);
            let close = closer(k);
            let rest = source.skip(open.len() as int);
            if !finishes(rest, close) {
                None
            } else {
                let body = rest.subrange(0, rest.len() - close.len());
                if unsupported_body(body) {
                    None
                } else {
                    match split_top(body, true) {
                        None => None,
                        Some(rows) => if rows.len() == 0 || exists|i: int|
                            0 <= i < rows.len() && trim(#[trigger] rows[i]).len() == 0 {
                            None
                        } else {
                            match rows_from(rows, 0, seq![]) {
                                None => None,
                                Some(lines) => Some(
                                    open.push('\n') + join_with(lines, row_separator()).push('\n')
                                        + close,
                                ),
                            }
                        },
                    }
                }
            }
        },
    }
}

proof fn lemma_alpha_end_range(s: Seq<char>, p: int)
    requires
        0 <= p <= s.len(),
    ensures
        p <= alpha_end(s, p) <= s.len(),
    decreases s.len() - p,
{
    if p < s.len() && is_ascii_alpha(s[p]) {
        lemma_alpha_end_range(s, p + 1);
    }
}

fn split_top_level(s: &Vec<char>, rows: bool) -> (r: Option<Vec<Vec<char>>>)
    ensures
        match r {
            Some(v) => split_top(s@, rows) == Some(views(v@)),
            None => split_top(s@, rows) is None,
        },
{
    let mut parts: Vec<Vec<char>> = Vec::new();
    let mut depth: usize = 0;
    let mut start: usize = 0;
    let mut i: usize = 0;
    assert(views(parts@) =~= seq![]);
    while i < s.len()
        invariant
            start <= i <= s.len(),
            depth <= i,
            split_go(s@, rows, i as int, depth as nat, start as int, views(parts@)) == split_top(
                s@,
                rows,
            ),
        decreases s.len() - i,
    {
        if s[i] == '\\' {
            if i + 1 >= s.len() {
                return None;
            }
            if s[i + 1] == '\\' {
                if depth > 0 || !rows {
                    return None;
                }
                let part = slice(s, start, i);
                let ghost old_parts = views(parts@);
                parts.push(part);
                assert(views(parts@) =~= old_parts.push(s@.subrange(start as int, i as int)));
                i = i + 2;
                start = i;
            } else {
                if is_ascii_alphabetic(s[i + 1]) {
                    proof {
                        lemma_alpha_end_range(s@, i + 2);
                    }
                    let mut k = i + 2;
                    while k < s.len() && is_ascii_alphabetic(s[k])
                        invariant
                            i + 2 <= k <= s.len(),
                            alpha_end(s@, k as int) == alpha_end(s@, i + 2),
                        decreases s.len() - k,
                    {
                        k = k + 1;
                    }
                    i = k;
                } else {
                    i = i + 2;
                }
            }
        } else if s[i] == '{' {
            depth = depth + 1;
            i = i + 1;
        } else if s[i] == '}' {
            if depth == 0 {
                return None;
            }
            depth = depth - 1;
            i = i + 1;
        } else if s[i] == '&' && depth == 0 && !rows {
            let part = slice(s, start, i);
            let ghost old_parts = views(parts@);
            parts.push(part);
            assert(views(parts@) =~= old_parts.push(s@.subrange(start as int, i as int)));
            i = i + 1;
            start = i;
        } else {
            i = i + 1;
        }
    }
    if depth != 0 {
        return None;
    }
    let part = slice(s, start, s.len());
    let ghost old_parts = views(parts@);
    parts.push(part);
    assert(views(parts@) =~= old_parts.push(s@.subrange(start as int, s@.len() as int)));
    Some(parts)
}

fn format_cells(cells: &Vec<Vec<char>>) -> (r: Option<Vec<char>>)
    ensures
        match r {
            Some(v) => cells_from(views(cells@), 0, seq![]) == Some(v@),
            None => cells_from(views(cells@), 0, seq![]) is None,
        },
{
    let ghost cv = views(cells@);
    let mut out: Vec<char> = Vec::new();
    let mut index: usize = 0;
    while index < cells.len()
        invariant
            index <= cells.len(),
            cv == views(cells@),
            cells_from(cv, index as int, out@) == cells_from(cv, 0, seq![]),
        decreases cells.len() - index,
    {
        assert(cv[index as int] == cells@[index as int]@);
        let cell = trimmed(&cells[index]);
        if cell.len() == 0 && index != 0 {
            return None;
        }
        let value = format_display_math(&cell, MathStyle::Compact, usize::MAX);
        if contains_char(&value, '\n') {
            return None;
        }
        let ghost before = out@;
        if index > 0 {
            if value.len() > 0 && value[0] == '=' {
                out.push(' ');
                out.push('&');
                proof {
                    reveal_strlit(" &");
                }
                assert(out@ =~= before + " &"@);
            } else {
                out.push(' ');
                out.push('&');
                out.push(' ');
                proof {
                    reveal_strlit(" & ");
                }
                assert(out@ =~= before + " & "@);
            }
        } else {
            assert(out@ =~= before + seq![]);
        }
        append(&mut out, &value);
        index = index + 1;
    }
    Some(out)
}

fn all_cells_blank(cells: &Vec<Vec<char>>) -> (r: bool)
    ensures
        r == all_blank(views(cells@)),
{
    let mut i: usize = 0;
    while i < cells.len()
        invariant
            i <= cells.len(),
            forall|k: int| 0 <= k < i ==> trim(#[trigger] views(cells@)[k]).len() == 0,
        decreases cells.len() - i,
    {
        assert(views(cells@)[i as int] == cells@[i as int]@);
        if !is_blank_text(&cells[i]) {
            return false;
        }
        i = i + 1;
    }
    true
}

fn row_line(row: &Vec<char>) -> (r: Option<Vec<char>>)
    ensures
        match r {
            Some(v) => format_row(row@) == Some(v@),
            None => format_row(row@) is None,
        },
{
    let cells = match split_top_level(row, false) {
        Some(c) => c,
        None => return None,
    };
    if all_cells_blank(&cells) {
        return None;
    }
    let f = match format_cells(&cells) {
        Some(f) => f,
        None => return None,
    };
    let t = trimmed_end(&f);
    if t.len() > 0 && (t[t.len() - 1] == '+' || t[t.len() - 1] == '-' || t[t.len() - 1] == '=') {
        return None;
    }
    let mut out: Vec<char> = Vec::new();
    out.push(' ');
    out.push(' ');
    proof {
        reveal_strlit("  ");
    }
    assert(out@ =~= "  "@);
    append(&mut out, &t);
    Some(out)
}

fn is_unsupported(body: &Vec<char>) -> (r: bool)
    ensures
        r == unsupported_body(body@),
{
    contains_char(body, '%') || contains(body, &chars_of("\\begin")) || contains(
        body,
        &chars_of("\\end"),
    ) || contains(body, &chars_of("\\tag")) || contains(body, &chars_of("\\label")) || contains(
        body,
        &chars_of("\\intertext"),
    ) || contains(body, &chars_of("\\verb")) || contains(body, &chars_of("\\def")) || contains(
        body,
        &chars_of("\\newcommand"),
    ) || contains(body, &chars_of("\\\\[")) || contains(body, &chars_of("\\\\*")) || contains_char(
        body,
        '\r',
    )
}

fn pair(k: usize) -> (r: (Vec<char>, Vec<char>))
    requires
        k < 3,
    ensures
        r.0@ == opener(k as int),
        r.1@ == closer(k as int),
{
    if k == 0 {
        (chars_of("\\begin{aligned}"), chars_of("\\end{aligned}"))
    } else if k == 1 {
        (chars_of("\\begin{split}"), chars_of("\\end{split}"))
    } else {
        (chars_of("\\begin{cases}"), chars_of("\\end{cases}"))
    }
}

pub(crate) fn join_rows(ls: &Vec<Vec<char>>, sep: &Vec<char>) -> (r: Vec<char>)
    ensures
        r@ == join_with(views(ls@), sep@),
{
    let mut out: Vec<char> = Vec::new();
    let mut i: usize = 0;
    while i < ls.len()
        invariant
            i <= ls.len(),
            out@ == join_with(views(ls@).subrange(0, i as int), sep@),
        decreases ls.len() - i,
    {
        let ghost before = out@;
        if i > 0 {
            append(&mut out, sep);
        }
        append(&mut out, &ls[i]);
        proof {
            let s = views(ls@).subrange(0, i + 1);
            assert(s.drop_last() =~= views(ls@).subrange(0, i as int));
            assert(s.last() == ls@[i as int]@);
            if i == 0 {
                assert(out@ =~= s[0]);
            } else {
                assert(out@ =~= join_with(s.drop_last(), sep@) + sep@ + s.last());
            }
        }
        i = i + 1;
    }
    assert(views(ls@).subrange(0, i as int) =~= views(ls@));
    out
}

/// Lay out an `aligned`, `split`, or `cases` environment row by row, or
/// return `None` if this is not a supported, safely understood environment.
pub fn format_environment(input: &Vec<char>) -> (r: Option<Vec<char>>)
    ensures
        match r {
            Some(v) => environment(input@) == Some(v@),
            None => environment(input@) is None,
        },
{
    let source = trimmed(input);
    let mut k: usize = 0;
    let mut found = false;
    let mut open: Vec<char> = Vec::new();
    let mut close: Vec<char> = Vec::new();
    while k < 3 && !found
        invariant
            k <= 3,
            found ==> k >= 1 && which_environment(source@) == Some((k - 1) as int) && open@ == opener(
                (k - 1) as int,
            ) && close@ == closer((k - 1) as int),
            !found ==> forall|j: int|
                0 <= j < k ==> !(begins(source@, opener(j)) && finishes(source@, closer(j))),
        decreases 3 - k,
    {
        let (o, c) = pair(k);
        if starts_with(&source, &o) && ends_with(&source, &c) {
            found = true;
            open = o;
            close = c;
        }
        k = k + 1;
    }
    if !found {
        return None;
    }
    let rest = slice(&source, open.len(), source.len());
    assert(rest@ =~= source@.skip(open@.len() as int));
    if !ends_with(&rest, &close) {
        return None;
    }
    let body = slice(&rest, 0, rest.len() - close.len());
    if is_unsupported(&body) {
        return None;
    }
    let rows = match split_top_level(&body, true) {
        Some(r) => r,
        None => return None,
    };
    let ghost rv = views(rows@);
    if rows.len() == 0 {
        return None;
    }
    let mut i: usize = 0;
    assert(forall|j: int|
        0 <= j < rv.len() && trim(#[trigger] rv[j]).len() == 0 ==> environment(input@) is None);
    while i < rows.len()
        invariant
            i <= rows.len(),
            rv == views(rows@),
            forall|j: int| 0 <= j < i ==> trim(#[trigger] rv[j]).len() != 0,
            forall|j: int|
                0 <= j < rv.len() && trim(#[trigger] rv[j]).len() == 0 ==> environment(input@)
                    is None,
        decreases rows.len() - i,
    {
        assert(rv[i as int] == rows@[i as int]@);
        if is_blank_text(&rows[i]) {
            assert(trim(rv[i as int]).len() == 0);
            return None;
        }
        i = i + 1;
    }
    let mut lines: Vec<Vec<char>> = Vec::new();
    let mut i: usize = 0;
    assert(views(lines@) =~= seq![]);
    assert(rows_from(rv, 0, seq![]) is None ==> environment(input@) is None);
    while i < rows.len()
        invariant
            i <= rows.len(),
            rv == views(rows@),
            rows_from(rv, i as int, views(lines@)) == rows_from(rv, 0, seq![]),
            rows_from(rv, 0, seq![]) is None ==> environment(input@) is None,
        decreases rows.len() - i,
    {
        assert(rv[i as int] == rows@[i as int]@);
        match row_line(&rows[i]) {
            Some(l) => {
                let ghost old_lines = views(lines@);
                lines.push(l);
                assert(views(lines@) =~= old_lines.push(l@));
            },
            None => return None,
        }
        i = i + 1;
    }
    let sep = chars_of(" \\\\\n");
    let joined = join_rows(&lines, &sep);
    let mut out = open;
    out.push('\n');
    append(&mut out, &joined);
    out.push('\n');
    append(&mut out, &close);
    Some(out)
}

} // verus!
