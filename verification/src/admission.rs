//! What the formatter takes on, stated over its inputs: which equations
//! are reflowed and which environments are laid out (everything but the
//! documented constructs), the width a held equation is laid out at, where
//! an inline span closes, and the names a directory walk matches against.
use vstd::prelude::*;

use crate::environments::{closer, environment, join_with, opener, row_separator, rows_from, split_top, which_environment};
use crate::math::{ambiguous, braces_balanced, display_lines, display_math, join_lines, joined, tokenize};
use crate::paths::{key_of, slashed};
use crate::preparse::{hold_from, inline_close_from, math_layout};
use crate::text::{decimal, finishes, holds, trim};
use crate::FormatOptions;

verus! {

/// An ordinary display equation is reflowed unless it holds one of the
/// documented layout constructs: a row break `\\`, an alignment tab `&`, a
/// `%` comment, `\begin`, `\end`, `\verb`, `\def`, `\newcommand`, `\tag`,
/// `\label`, `\intertext`, or a carriage return. Whatever else it holds
/// (superscripts, fractions, any command), as long as its braces balance and
/// no two operators clash, its result is its tokens laid out at the given
/// style and width.
pub proof fn law_equations_without_layout_constructs_are_reflowed(
    input: Seq<char>,
    style: crate::MathStyle,
    width: nat,
)
    requires
        trim(input).len() > 0,
        !holds(input, "\\\\"@),
        !input.contains('&'),
        !input.contains('%'),
        !holds(input, "\\begin"@),
        !holds(input, "\\end"@),
        !holds(input, "\\verb"@),
        !holds(input, "\\def"@),
        !holds(input, "\\newcommand"@),
        !holds(input, "\\tag"@),
        !holds(input, "\\label"@),
        !holds(input, "\\intertext"@),
        !input.contains('\r'),
        braces_balanced(input, 0, 0),
        tokenize(joined(input)).len() > 0,
        !ambiguous(tokenize(joined(input))),
    ensures
        display_math(input, style, width) == join_lines(display_lines(tokenize(joined(input)), style, width)),
{
}

/// An `aligned`, `split`, or `cases` environment is laid out unless its body
/// holds one of the documented unsupported constructs: a `%` comment,
/// `\begin`, `\end`, `\tag`, `\label`, `\intertext`, `\verb`, `\def`,
/// `\newcommand`, a `\\[` or `\\*` row break, or a carriage return. A body
/// free of them that splits into non-blank rows whose cells each format to
/// one line comes back with one line per row between its delimiters.
pub proof fn law_environments_without_unsupported_constructs_are_laid_out(input: Seq<char>, k: int)
    requires
        which_environment(trim(input)) == Some(k),
        ({
            let rest = trim(input).skip(opener(k).len() as int);
            let body = rest.subrange(0, rest.len() - closer(k).len());
            &&& finishes(rest, closer(k))
            &&& !body.contains('%')
            &&& !holds(body, "\\begin"@)
            &&& !holds(body, "\\end"@)
            &&& !holds(body, "\\tag"@)
            &&& !holds(body, "\\label"@)
            &&& !holds(body, "\\intertext"@)
            &&& !holds(body, "\\verb"@)
            &&& !holds(body, "\\def"@)
            &&& !holds(body, "\\newcommand"@)
            &&& !holds(body, "\\\\["@)
            &&& !holds(body, "\\\\*"@)
            &&& !body.contains('\r')
            &&& split_top(body, true) matches Some(rows) && rows.len() > 0 && (forall|i: int|
                0 <= i < rows.len() ==> trim(#[trigger] rows[i]).len() > 0) && rows_from(rows, 0, seq![])
                is Some
        }),
    ensures
        ({
            let rest = trim(input).skip(opener(k).len() as int);
            let body = rest.subrange(0, rest.len() - closer(k).len());
            let rows = split_top(body, true)->0;
            let lines = rows_from(rows, 0, seq![])->0;
            environment(input) == Some(
                opener(k).push('\n') + join_with(lines, row_separator()).push('\n') + closer(k),
            )
        }),
{
}

/// An equation holding one of the documented layout constructs, or whose
/// braces do not balance, is left exactly as it was written.
pub proof fn law_equations_with_layout_constructs_are_left_alone(
    input: Seq<char>,
    style: crate::MathStyle,
    width: nat,
)
    requires
        holds(input, "\\\\"@) || input.contains('&') || input.contains('%') || holds(input, "\\begin"@)
            || holds(input, "\\end"@) || holds(input, "\\verb"@) || holds(input, "\\def"@) || holds(
            input,
            "\\newcommand"@,
        ) || holds(input, "\\tag"@) || holds(input, "\\label"@) || holds(input, "\\intertext"@)
            || input.contains('\r') || !braces_balanced(input, 0, 0),
    ensures
        display_math(input, style, width) == input,
{
}

/// Text without braces balances; text that opens with a closing brace does
/// not.
pub proof fn law_brace_balance(s: Seq<char>, i: int)
    requires
        0 <= i,
    ensures
        (forall|j: int| i <= j < s.len() ==> #[trigger] s[j] != '{' && s[j] != '}') ==> braces_balanced(
            s,
            i,
            0,
        ),
        i < s.len() && s[i] == '}' ==> !braces_balanced(s, i, 0),
    decreases s.len() - i,
{
    if i < s.len() {
        law_brace_balance(s, i + 1);
        if i + 2 <= s.len() {
            law_brace_balance(s, i + 2);
        }
    }
}

/// An environment whose body holds one of the documented unsupported
/// constructs is not laid out.
pub proof fn law_environments_with_unsupported_constructs_are_refused(input: Seq<char>, k: int)
    requires
        which_environment(trim(input)) == Some(k),
        ({
            let rest = trim(input).skip(opener(k).len() as int);
            let body = rest.subrange(0, rest.len() - closer(k).len());
            ||| body.contains('%')
            ||| holds(body, "\\begin"@)
            ||| holds(body, "\\end"@)
            ||| holds(body, "\\tag"@)
            ||| holds(body, "\\label"@)
            ||| holds(body, "\\intertext"@)
            ||| holds(body, "\\verb"@)
            ||| holds(body, "\\def"@)
            ||| holds(body, "\\newcommand"@)
            ||| holds(body, "\\\\["@)
            ||| holds(body, "\\\\*"@)
            ||| body.contains('\r')
        }),
    ensures
        environment(input) is None,
{
}

/// An equation held aside from a document is laid out as an environment
/// where it is one, and otherwise exactly as `format_display_math` lays it
/// out at the caller's style and width: the document formatter honours the
/// width it was given.
pub proof fn law_held_equations_take_the_callers_width(s: Seq<char>, prefs: FormatOptions)
    ensures
        environment(s) is None ==> math_layout(s, prefs) == display_math(
            s,
            prefs.math_style,
            prefs.math_width as nat,
        ),
        environment(s) matches Some(e) ==> math_layout(s, prefs) == e,
{
}

/// An inline span closes at the first `\)` after its contents begin, when no
/// backslash stands between: whatever else the contents hold.
pub proof fn law_inline_spans_close_at_the_first_closer(rest: Seq<char>, i: int, p: int)
    requires
        0 <= i <= p,
        p + 1 < rest.len(),
        rest[p] == '\\',
        rest[p + 1] == ')',
        forall|j: int| i <= j < p ==> #[trigger] rest[j] != '\\',
    ensures
        inline_close_from(rest, i) == Some(p + 2),
    decreases p - i,
{
    if i < p {
        law_inline_spans_close_at_the_first_closer(rest, i + 1, p);
    }
}

/// Inside a span a backslash escape consumes the character after it: a
/// backslash not followed by `)` never closes the span, nor does the
/// character it escapes.
pub proof fn law_inline_escapes_are_stepped_over(rest: Seq<char>, i: int)
    requires
        0 <= i,
        i + 1 < rest.len(),
        rest[i] == '\\',
        rest[i + 1] != ')',
    ensures
        inline_close_from(rest, i) == inline_close_from(rest, i + 2),
{
}

/// Where a span closes, a `\)` stands, at or after the start of its
/// contents.
pub proof fn law_inline_spans_close_on_a_closer(rest: Seq<char>, i: int)
    requires
        0 <= i,
    ensures
        inline_close_from(rest, i) matches Some(e) ==> i + 2 <= e <= rest.len() && rest[e - 2] == '\\'
            && rest[e - 1] == ')',
    decreases rest.len() - i,
{
    if i + 1 < rest.len() {
        if rest[i] != '\\' {
            law_inline_spans_close_on_a_closer(rest, i + 1);
        } else if rest[i + 1] != ')' {
            law_inline_spans_close_on_a_closer(rest, i + 2);
        }
    }
}

/// A `\(` whose line carries a `\)` after it, with no backslash between,
/// opens a held span: the whole `\(...\)` is held, and the text gets a
/// placeholder in its place, whatever the span holds.
pub proof fn law_inline_spans_are_held(
    line: Seq<char>,
    token: Seq<char>,
    index: int,
    p: int,
    text: Seq<char>,
    spans: Seq<Seq<char>>,
)
    requires
        0 <= index,
        index + 2 <= p,
        p + 1 < line.len(),
        line[index] == '\\',
        line[index + 1] == '(',
        line[p] == '\\',
        line[p + 1] == ')',
        forall|j: int| index + 2 <= j < p ==> #[trigger] line[j] != '\\',
    ensures
        hold_from(line, token, index, text, spans) == hold_from(
            line,
            token,
            p + 2,
            text + token + decimal(spans.len()) + token,
            spans.push(line.subrange(index, p + 2)),
        ),
{
    let r = line.skip(index + 2);
    assert forall|j: int| 0 <= j < p - index - 2 implies #[trigger] r[j] != '\\' by {
        assert(r[j] == line[index + 2 + j]);
    }
    law_inline_spans_close_at_the_first_closer(r, 0, p - index - 2);
}

/// The name a file is matched against is `/` before each of its
/// components, with nothing after the last: a file directly in the walked
/// directory is `/` and its name. A directory's name ends with `/`.
pub proof fn law_walk_keys(parts: Seq<Seq<char>>, p: Seq<char>)
    ensures
        key_of(seq![p], false) == seq!['/'] + p,
        key_of(parts.push(p), false) == key_of(parts, false) + seq!['/'] + p || parts.len() == 0,
        parts.len() > 0 ==> key_of(parts, false) == slashed(parts),
        key_of(parts, true).last() == '/',
        key_of(Seq::<Seq<char>>::empty(), false) == seq!['/'],
        key_of(parts, true) == key_of(parts, false) || key_of(parts, true) == key_of(parts, false).push('/'),
{
    let one = seq![p];
    assert(one.drop_last() =~= Seq::<Seq<char>>::empty());
    assert(one.last() == p);
    assert(slashed(one.drop_last()) =~= Seq::<char>::empty());
    assert(slashed(one) == slashed(one.drop_last()) + seq!['/'] + one.last());
    assert(slashed(one) =~= seq!['/'] + p);
    assert(parts.push(p).drop_last() =~= parts);
    if parts.len() > 0 {
        assert(slashed(parts).len() > 0);
    }
}

} // verus!
