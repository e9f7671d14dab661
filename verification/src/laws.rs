//! Properties of the layout that hold for every input.

use vstd::prelude::*;

use crate::math::{
    clause_start, clauses_from, display_lines, display_math, gap, joined,
    joined_from, join_lines, legal, lemma_best_fit_range,
    lemma_token_end, md_char, next_break, render, token_end, tokenize, tokens_acc, wrap, wrap_from,
    Lexeme,
};
use crate::text::{
    is_blank, is_ws, back_ws, lemma_back_ws, lemma_next_newline, lemma_piece_end, lemma_skip_ws, line_of, lines,
    next_newline, piece_end, pieces, pieces_from, skip_ws, trim, trim_end, trim_start,
};
use crate::environments::{cells_from, closer, environment, format_row, join_with, opener, row_separator, rows_from, split_top, which_environment};
use crate::preparse::{claimed, join_claimed, merge_from, skip_blank, split_lf_from};
use crate::{document, effective, lf_to_crlf, line_endings_of, uses_crlf, FormatOptions, MathStyle, MIN_MATH_WIDTH};

verus! {

/// No line feed anywhere in `s`.
pub open spec fn nl_free(s: Seq<char>) -> bool {
    forall|k: int| 0 <= k < s.len() ==> s[k] != '\n'
}

/// Every token has text, and none holds a line feed.
pub open spec fn well_tokens(t: Seq<Lexeme>) -> bool {
    forall|k: int| 0 <= k < t.len() ==> #[trigger] t[k].text.len() > 0 && nl_free(t[k].text)
}

proof fn lemma_lines_nl_free(s: Seq<char>, i: int)
    requires
        0 <= i <= s.len(),
    ensures
        forall|k: int|
            0 <= k < pieces_from(s, i).len() ==> nl_free(line_of(#[trigger] pieces_from(s, i)[k])),
    decreases s.len() - i,
{
    if i < s.len() {
        lemma_next_newline(s, i);
        lemma_piece_end(s, i);
        let e = piece_end(s, i);
        let piece = s.subrange(i, e);
        let nn = next_newline(s, i);
        lemma_lines_nl_free(s, e);
        assert(nl_free(line_of(piece))) by {
            if nn < s.len() {
                assert(piece.last() == '\n');
                let q = piece.drop_last();
                assert(nl_free(q));
                if q.len() > 0 && q.last() == '\r' {
                    assert(nl_free(q.drop_last()));
                }
            } else {
                assert(nl_free(piece));
                if piece.len() > 0 {
                    assert(piece.last() != '\n');
                }
            }
        }
        assert forall|k: int| 0 <= k < pieces_from(s, i).len() implies nl_free(
            line_of(#[trigger] pieces_from(s, i)[k]),
        ) by {
            if k > 0 {
                assert(pieces_from(s, i)[k] == pieces_from(s, e)[k - 1]);
            }
        }
    }
}

proof fn lemma_trim_nl_free(l: Seq<char>)
    requires
        nl_free(l),
    ensures
        nl_free(trim(l)),
{
    lemma_skip_ws(l, 0);
    let a = trim_start(l);
    assert(nl_free(a));
    lemma_back_ws(a, a.len() as int);
    assert(nl_free(trim_end(a)));
}

proof fn lemma_joined_nl_free(ls: Seq<Seq<char>>, i: int, acc: Seq<char>, first: bool)
    requires
        0 <= i <= ls.len(),
        nl_free(acc),
        forall|k: int| 0 <= k < ls.len() ==> nl_free(#[trigger] ls[k]),
    ensures
        nl_free(joined_from(ls, i, acc, first)),
    decreases ls.len() - i,
{
    if i < ls.len() {
        let l = trim(ls[i]);
        lemma_trim_nl_free(ls[i]);
        if l.len() == 0 {
            lemma_joined_nl_free(ls, i + 1, acc, first);
        } else if first {
            assert(nl_free(acc + l));
            lemma_joined_nl_free(ls, i + 1, acc + l, false);
        } else {
            assert(nl_free(acc.push(' ') + l));
            lemma_joined_nl_free(ls, i + 1, acc.push(' ') + l, false);
        }
    }
}

/// The equation joined onto one line holds no line feed.
pub proof fn lemma_joined_is_one_line(input: Seq<char>)
    ensures
        nl_free(joined(input)),
{
    lemma_lines_nl_free(input, 0);
    assert forall|k: int| 0 <= k < lines(input).len() implies nl_free(#[trigger] lines(input)[k]) by {
        assert(lines(input)[k] == line_of(pieces(input)[k]));
    }
    lemma_joined_nl_free(lines(input), 0, seq![], true);
}

pub(crate) proof fn lemma_tokens_well(s: Seq<char>, pos: int, spaced: bool, acc: Seq<Lexeme>)
    requires
        0 <= pos <= s.len(),
        nl_free(s),
        well_tokens(acc),
    ensures
        well_tokens(tokens_acc(s, pos, spaced, acc)),
    decreases s.len() - pos,
{
    if pos < s.len() {
        if crate::text::is_ws(s[pos]) {
            lemma_tokens_well(s, pos + 1, true, acc);
        } else {
            lemma_token_end(s, pos);
            let e = token_end(s, pos);
            let x = Lexeme { text: s.subrange(pos, e), kind: crate::math::kind_of(s[pos]), spaced };
            assert(nl_free(x.text));
            assert(well_tokens(acc.push(x))) by {
                assert forall|k: int| 0 <= k < acc.push(x).len() implies #[trigger] acc.push(
                    x,
                )[k].text.len() > 0 && nl_free(acc.push(x)[k].text) by {
                    if k < acc.len() {
                        assert(acc.push(x)[k] == acc[k]);
                    }
                }
            }
            lemma_tokens_well(s, e, false, acc.push(x));
        }
    }
}

/// Tokens `a..b` on one line: never empty, free of line feeds, opening with
/// the first token and closing with the last.
pub(crate) proof fn lemma_render_shape(t: Seq<Lexeme>, a: int, b: int)
    requires
        0 <= a < b <= t.len(),
        well_tokens(t),
    ensures
        render(t, a, b).len() > 0,
        nl_free(render(t, a, b)),
        render(t, a, b)[0] == t[a].text[0],
        render(t, a, b).last() == t[b - 1].text.last(),
    decreases b - a,
{
    assert(t[b - 1].text.len() > 0 && nl_free(t[b - 1].text));
    if b == a + 1 {
        assert(render(t, a, a) == Seq::<char>::empty());
        assert(render(t, a, b) =~= t[a].text);
    } else {
        lemma_render_shape(t, a, b - 1);
        let head = render(t, a, b - 1);
        let g = if b - 1 > a && gap(t, b - 1) {
            seq![' ']
        } else {
            seq![]
        };
        assert(render(t, a, b) == head + g + t[b - 1].text);
        assert(nl_free(head + g + t[b - 1].text));
    }
}

proof fn lemma_next_break_legal(t: Seq<Lexeme>, w: nat, a: int)
    requires
        0 <= a < t.len(),
    ensures
        next_break(t, w, a) matches Some(p) ==> a < p < t.len() && legal(t, p),
{
    lemma_best_fit_range(t, w, a, a + 1, None);
}

/// What a line may open and close with, line by line.
pub open spec fn safe_lines(r: Seq<Seq<char>>) -> bool {
    &&& forall|k: int| 0 <= k < r.len() ==> #[trigger] r[k].len() > 0 && nl_free(r[k])
    &&& forall|k: int| 1 <= k < r.len() ==> !md_char(#[trigger] r[k][0])
    &&& forall|k: int| 0 <= k < r.len() - 1 ==> #[trigger] r[k].last() != '='
}

proof fn lemma_wrap_from_shape(t: Seq<Lexeme>, w: nat, a: int)
    requires
        0 <= a < t.len(),
        well_tokens(t),
    ensures
        wrap_from(t, w, a).len() > 0,
        safe_lines(wrap_from(t, w, a)),
        wrap_from(t, w, a)[0][0] == t[a].text[0],
        wrap_from(t, w, a).last().last() == t[t.len() - 1].text.last(),
    decreases t.len() - a,
{
    lemma_next_break_legal(t, w, a);
    match next_break(t, w, a) {
        Some(p) => {
            lemma_render_shape(t, a, p);
            lemma_wrap_from_shape(t, w, p);
            let head = render(t, a, p);
            let rest = wrap_from(t, w, p);
            let r = seq![head] + rest;
            assert(wrap_from(t, w, a) == r);
            assert(t[p].text.len() > 0);
            assert(!md_char(t[p].text[0]));
            assert(t[p - 1].text.len() > 0);
            assert(t[p - 1].text.last() != '=');
            assert forall|k: int| 0 <= k < r.len() implies #[trigger] r[k].len() > 0 && nl_free(
                r[k],
            ) by {
                if k > 0 {
                    assert(r[k] == rest[k - 1]);
                }
            }
            assert forall|k: int| 1 <= k < r.len() implies !md_char(#[trigger] r[k][0]) by {
                assert(r[k] == rest[k - 1]);
            }
            assert forall|k: int| 0 <= k < r.len() - 1 implies #[trigger] r[k].last() != '=' by {
                if k > 0 {
                    assert(r[k] == rest[k - 1]);
                }
            }
        },
        None => {
            lemma_render_shape(t, a, t.len() as int);
        },
    }
}

/// The lines of one clause.
proof fn lemma_wrap_shape(t: Seq<Lexeme>, w: nat)
    requires
        t.len() > 0,
        well_tokens(t),
    ensures
        wrap(t, w).len() > 0,
        safe_lines(wrap(t, w)),
        wrap(t, w)[0][0] == t[0].text[0],
        wrap(t, w).last().last() == t[t.len() - 1].text.last(),
{
    lemma_wrap_from_shape(t, w, 0);
}

proof fn lemma_well_subrange(t: Seq<Lexeme>, a: int, b: int)
    requires
        0 <= a <= b <= t.len(),
        well_tokens(t),
    ensures
        well_tokens(t.subrange(a, b)),
{
    assert forall|k: int| 0 <= k < t.subrange(a, b).len() implies #[trigger] t.subrange(
        a,
        b,
    )[k].text.len() > 0 && nl_free(t.subrange(a, b)[k].text) by {
        assert(t.subrange(a, b)[k] == t[a + k]);
    }
}

proof fn lemma_safe_concat(x: Seq<Seq<char>>, y: Seq<Seq<char>>)
    requires
        x.len() > 0,
        y.len() > 0,
        safe_lines(x),
        safe_lines(y),
        !md_char(y[0][0]),
        x.last().last() != '=',
    ensures
        safe_lines(x + y),
        (x + y)[0] == x[0],
        (x + y).last() == y.last(),
{
    let r = x + y;
    assert forall|k: int| 0 <= k < r.len() implies #[trigger] r[k].len() > 0 && nl_free(r[k]) by {
        if k >= x.len() {
            assert(r[k] == y[k - x.len()]);
        }
    }
    assert forall|k: int| 1 <= k < r.len() implies !md_char(#[trigger] r[k][0]) by {
        if k >= x.len() {
            assert(r[k] == y[k - x.len()]);
        }
    }
    assert forall|k: int| 0 <= k < r.len() - 1 implies #[trigger] r[k].last() != '=' by {
        if k >= x.len() {
            assert(r[k] == y[k - x.len()]);
        }
    }
}

proof fn lemma_clauses_shape(t: Seq<Lexeme>, w: nat, start: int, i: int)
    requires
        0 <= start < t.len(),
        well_tokens(t),
    ensures
        clauses_from(t, w, start, i).len() > 0,
        safe_lines(clauses_from(t, w, start, i)),
        clauses_from(t, w, start, i)[0][0] == t[start].text[0],
    decreases t.len() - i,
{
    if i < 1 || i >= t.len() - 1 || i <= start {
        lemma_well_subrange(t, start, t.len() as int);
        lemma_wrap_shape(t.subrange(start, t.len() as int), w);
    } else if clause_start(t, i) {
        lemma_well_subrange(t, start, i);
        lemma_wrap_shape(t.subrange(start, i), w);
        lemma_clauses_shape(t, w, i, i + 1);
        let x = wrap(t.subrange(start, i), w);
        let y = clauses_from(t, w, i, i + 1);
        assert(t.subrange(start, i)[i - start - 1] == t[i - 1]);
        assert(t[i - 1].text.len() > 0);
        assert(x.last().last() != '=');
        assert(t[i].text == "\\qquad"@);
        reveal_strlit("\\qquad");
        assert(y[0][0] == '\\');
        lemma_safe_concat(x, y);
    } else {
        lemma_clauses_shape(t, w, start, i + 1);
    }
}

proof fn lemma_join_lines_safe(ls: Seq<Seq<char>>)
    requires
        ls.len() > 0,
        safe_lines(ls),
    ensures
        join_lines(ls).len() > 0,
        join_lines(ls).last() == ls.last().last(),
        forall|j: int|
            0 <= j < join_lines(ls).len() && #[trigger] join_lines(ls)[j] == '\n' ==> 1 <= j && j
                + 1 < join_lines(ls).len() && !md_char(join_lines(ls)[j + 1]) && join_lines(ls)[j
                - 1] != '=',
    decreases ls.len(),
{
    let out = join_lines(ls);
    assert(ls[ls.len() - 1].len() > 0 && nl_free(ls[ls.len() - 1]));
    if ls.len() == 1 {
        assert(out == ls[0]);
    } else {
        let front = ls.drop_last();
        assert(safe_lines(front)) by {
            assert forall|k: int| 0 <= k < front.len() implies #[trigger] front[k].len() > 0
                && nl_free(front[k]) by {
                assert(front[k] == ls[k]);
            }
            assert forall|k: int| 1 <= k < front.len() implies !md_char(#[trigger] front[k][0]) by {
                assert(front[k] == ls[k]);
            }
            assert forall|k: int| 0 <= k < front.len() - 1 implies #[trigger] front[k].last()
                != '=' by {
                assert(front[k] == ls[k]);
            }
        }
        lemma_join_lines_safe(front);
        let p = join_lines(front);
        let last = ls.last();
        assert(out == p.push('\n') + last);
        assert(front.last() == ls[ls.len() - 2]);
        assert(ls[ls.len() - 2].last() != '=');
        assert(!md_char(ls[ls.len() - 1][0]));
        assert forall|j: int| 0 <= j < out.len() && #[trigger] out[j] == '\n' implies 1 <= j && j
            + 1 < out.len() && !md_char(out[j + 1]) && out[j - 1] != '=' by {
            if j < p.len() {
                assert(out[j] == p[j]);
                assert(out[j + 1] == p[j + 1]);
                assert(out[j - 1] == p[j - 1]);
            } else if j == p.len() {
                assert(out[j + 1] == last[0]);
                assert(out[j - 1] == p.last());
            } else {
                assert(out[j] == last[j - p.len() - 1]);
            }
        }
    }
}

/// Markdown cannot misread a reflowed equation: every line after the first
/// opens with a character no Markdown block construct starts with (not
/// `-`, `+`, `*`, `>`, `#`, `=`, or `|`, so no line is a lone operator
/// either), and no line but the last ends with `=`, which stays with the
/// expression before it and its right-hand side. An equation the layout
/// pass does not touch comes back unchanged.
pub proof fn law_reflowed_lines_are_markdown_safe(input: Seq<char>, style: MathStyle, width: nat)
    ensures
        display_math(input, style, width) == input || forall|j: int|
            0 <= j < display_math(input, style, width).len() && #[trigger] display_math(
                input,
                style,
                width,
            )[j] == '\n' ==> 1 <= j && j + 1 < display_math(input, style, width).len()
                && !md_char(display_math(input, style, width)[j + 1]) && display_math(
                input,
                style,
                width,
            )[j - 1] != '=',
{
    if display_math(input, style, width) != input {
        let j = joined(input);
        lemma_joined_is_one_line(input);
        lemma_tokens_well(j, 0, false, seq![]);
        let t = tokenize(j);
        assert(t.len() > 0);
        let ls = display_lines(t, style, width);
        match style {
            MathStyle::Readable => lemma_clauses_shape(t, width, 0, 1),
            MathStyle::Compact => lemma_wrap_shape(t, width),
        }
        lemma_join_lines_safe(ls);
    }
}

// ---------------------------------------------------------------------------
// Reflowing changes whitespace and nothing else
// ---------------------------------------------------------------------------

/// The characters of `s` that are not whitespace, in order.
pub open spec fn visible(s: Seq<char>) -> Seq<char>
    decreases s.len(),
{
    if s.len() == 0 {
        seq![]
    } else {
        visible(s.drop_last()) + if is_ws(s.last()) {
            seq![]
        } else {
            seq![s.last()]
        }
    }
}

/// The visible characters of each sequence in turn.
pub open spec fn vis_all(ls: Seq<Seq<char>>) -> Seq<char>
    decreases ls.len(),
{
    if ls.len() == 0 {
        seq![]
    } else {
        vis_all(ls.drop_last()) + visible(ls.last())
    }
}

/// The visible characters of tokens `a..b`.
pub open spec fn vis_tokens(t: Seq<Lexeme>, a: int, b: int) -> Seq<char>
    decreases b - a,
{
    if b <= a {
        seq![]
    } else {
        vis_tokens(t, a, b - 1) + visible(t[b - 1].text)
    }
}

pub(crate) proof fn lemma_visible_concat(a: Seq<char>, b: Seq<char>)
    ensures
        visible(a + b) == visible(a) + visible(b),
    decreases b.len(),
{
    if b.len() == 0 {
        assert(a + b =~= a);
        assert(visible(a) + visible(b) =~= visible(a));
    } else {
        lemma_visible_concat(a, b.drop_last());
        assert((a + b).drop_last() =~= a + b.drop_last());
        assert((a + b).last() == b.last());
        assert(visible(a + b) =~= visible(a) + visible(b));
    }
}

pub(crate) proof fn lemma_visible_blank(s: Seq<char>)
    requires
        forall|k: int| 0 <= k < s.len() ==> is_ws(#[trigger] s[k]),
    ensures
        visible(s) == Seq::<char>::empty(),
    decreases s.len(),
{
    if s.len() > 0 {
        lemma_visible_blank(s.drop_last());
        assert(is_ws(s[s.len() - 1]));
        assert(visible(s) =~= Seq::<char>::empty());
    }
}

pub(crate) proof fn lemma_visible_one(c: char)
    ensures
        visible(seq![c]) == (if is_ws(c) {
            Seq::<char>::empty()
        } else {
            seq![c]
        }),
{
    assert(seq![c].drop_last() =~= Seq::<char>::empty());
    assert(seq![c].last() == c);
    assert(visible(Seq::<char>::empty()) == Seq::<char>::empty());
    assert(visible(seq![c]) =~= (if is_ws(c) {
        Seq::<char>::empty()
    } else {
        seq![c]
    }));
}

pub(crate) proof fn lemma_vis_all_one(x: Seq<char>)
    ensures
        vis_all(seq![x]) == visible(x),
{
    assert(seq![x].drop_last() =~= Seq::<Seq<char>>::empty());
    assert(seq![x].last() == x);
    assert(vis_all(Seq::<Seq<char>>::empty()) == Seq::<char>::empty());
    assert(Seq::<char>::empty() + visible(x) =~= visible(x));
}

pub(crate) proof fn lemma_vis_all_concat(x: Seq<Seq<char>>, y: Seq<Seq<char>>)
    ensures
        vis_all(x + y) == vis_all(x) + vis_all(y),
    decreases y.len(),
{
    if y.len() == 0 {
        assert(x + y =~= x);
        assert(vis_all(x) + vis_all(y) =~= vis_all(x));
    } else {
        lemma_vis_all_concat(x, y.drop_last());
        assert((x + y).drop_last() =~= x + y.drop_last());
        assert((x + y).last() == y.last());
        assert(vis_all(x + y) =~= vis_all(x) + vis_all(y));
    }
}

proof fn lemma_vis_tokens_split(t: Seq<Lexeme>, a: int, m: int, b: int)
    requires
        a <= m <= b,
    ensures
        vis_tokens(t, a, b) == vis_tokens(t, a, m) + vis_tokens(t, m, b),
    decreases b - m,
{
    if b == m {
        assert(vis_tokens(t, a, m) + vis_tokens(t, m, b) =~= vis_tokens(t, a, m));
    } else {
        lemma_vis_tokens_split(t, a, m, b - 1);
        assert(vis_tokens(t, a, b) =~= vis_tokens(t, a, m) + vis_tokens(t, m, b));
    }
}

proof fn lemma_vis_tokens_shift(t: Seq<Lexeme>, a: int, b: int, k: int)
    requires
        0 <= a <= a + k <= b <= t.len(),
    ensures
        vis_tokens(t.subrange(a, b), 0, k) == vis_tokens(t, a, a + k),
    decreases k,
{
    if k > 0 {
        lemma_vis_tokens_shift(t, a, b, k - 1);
        assert(t.subrange(a, b)[k - 1] == t[a + k - 1]);
    }
}

proof fn lemma_render_visible(t: Seq<Lexeme>, a: int, b: int)
    requires
        0 <= a <= b <= t.len(),
    ensures
        visible(render(t, a, b)) == vis_tokens(t, a, b),
    decreases b - a,
{
    if b > a {
        lemma_render_visible(t, a, b - 1);
        let g = if b - 1 > a && gap(t, b - 1) {
            seq![' ']
        } else {
            seq![]
        };
        lemma_visible_concat(render(t, a, b - 1), g);
        lemma_visible_concat(render(t, a, b - 1) + g, t[b - 1].text);
        lemma_visible_one(' ');
        assert(visible(g) =~= Seq::<char>::empty()) by {
            if g.len() == 0 {
                assert(g =~= Seq::<char>::empty());
            }
        }
        assert(visible(render(t, a, b)) =~= vis_tokens(t, a, b));
    }
}

proof fn lemma_wrap_from_visible(t: Seq<Lexeme>, w: nat, a: int)
    requires
        0 <= a <= t.len(),
    ensures
        vis_all(wrap_from(t, w, a)) == vis_tokens(t, a, t.len() as int),
    decreases t.len() - a,
{
    if a < t.len() {
        match next_break(t, w, a) {
            Some(p) => {
                if a < p && p < t.len() {
                    lemma_wrap_from_visible(t, w, p);
                    lemma_render_visible(t, a, p);
                    lemma_vis_all_concat(seq![render(t, a, p)], wrap_from(t, w, p));
                    lemma_vis_all_one(render(t, a, p));
                    lemma_vis_tokens_split(t, a, p, t.len() as int);
                } else {
                    lemma_render_visible(t, a, t.len() as int);
                    lemma_vis_all_one(render(t, a, t.len() as int));
                }
            },
            None => {
                lemma_render_visible(t, a, t.len() as int);
                lemma_vis_all_one(render(t, a, t.len() as int));
            },
        }
    } else {
        assert(vis_tokens(t, a, t.len() as int) =~= Seq::<char>::empty());
    }
}

proof fn lemma_wrap_visible(t: Seq<Lexeme>, w: nat, a: int, b: int, full: Seq<Lexeme>)
    requires
        0 <= a <= b <= full.len(),
        t == full.subrange(a, b),
    ensures
        vis_all(wrap(t, w)) == vis_tokens(full, a, b),
{
    lemma_wrap_from_visible(t, w, 0);
    lemma_vis_tokens_shift(full, a, b, b - a);
}

proof fn lemma_clauses_visible(t: Seq<Lexeme>, w: nat, start: int, i: int)
    requires
        0 <= start <= t.len(),
    ensures
        vis_all(clauses_from(t, w, start, i)) == vis_tokens(t, start, t.len() as int),
    decreases t.len() - i,
{
    if i < 1 || i >= t.len() - 1 || i <= start {
        lemma_wrap_visible(t.subrange(start, t.len() as int), w, start, t.len() as int, t);
    } else if clause_start(t, i) {
        lemma_wrap_visible(t.subrange(start, i), w, start, i, t);
        lemma_clauses_visible(t, w, i, i + 1);
        lemma_vis_all_concat(wrap(t.subrange(start, i), w), clauses_from(t, w, i, i + 1));
        lemma_vis_tokens_split(t, start, i, t.len() as int);
    } else {
        lemma_clauses_visible(t, w, start, i + 1);
    }
}

pub(crate) proof fn lemma_join_lines_visible(ls: Seq<Seq<char>>)
    ensures
        visible(join_lines(ls)) == vis_all(ls),
    decreases ls.len(),
{
    if ls.len() == 1 {
        assert(ls =~= seq![ls[0]]);
        lemma_vis_all_one(ls[0]);
    } else if ls.len() > 1 {
        lemma_join_lines_visible(ls.drop_last());
        let p = join_lines(ls.drop_last());
        lemma_visible_concat(p.push('\n'), ls.last());
        assert(p.push('\n') =~= p + seq!['\n']);
        lemma_visible_concat(p, seq!['\n']);
        lemma_visible_one('\n');
        assert(visible(join_lines(ls)) =~= vis_all(ls));
    }
}

proof fn lemma_tokens_visible(s: Seq<char>, pos: int, spaced: bool, acc: Seq<Lexeme>)
    requires
        0 <= pos <= s.len(),
    ensures
        vis_tokens(tokens_acc(s, pos, spaced, acc), 0, tokens_acc(s, pos, spaced, acc).len() as int)
            == vis_tokens(acc, 0, acc.len() as int) + visible(s.subrange(pos, s.len() as int)),
    decreases s.len() - pos,
{
    if pos >= s.len() {
        assert(s.subrange(pos, s.len() as int) =~= Seq::<char>::empty());
        assert(vis_tokens(acc, 0, acc.len() as int) + visible(Seq::<char>::empty()) =~= vis_tokens(
            acc,
            0,
            acc.len() as int,
        ));
    } else if is_ws(s[pos]) {
        lemma_tokens_visible(s, pos + 1, true, acc);
        assert(s.subrange(pos, s.len() as int) =~= seq![s[pos]] + s.subrange(pos + 1, s.len() as int));
        lemma_visible_concat(seq![s[pos]], s.subrange(pos + 1, s.len() as int));
        lemma_visible_one(s[pos]);
        assert(visible(s.subrange(pos, s.len() as int)) =~= visible(s.subrange(pos + 1, s.len() as int)));
    } else {
        lemma_token_end(s, pos);
        let e = token_end(s, pos);
        let x = Lexeme { text: s.subrange(pos, e), kind: crate::math::kind_of(s[pos]), spaced };
        lemma_tokens_visible(s, e, false, acc.push(x));
        let acc2 = acc.push(x);
        assert(vis_tokens(acc2, 0, acc2.len() as int) == vis_tokens(acc2, 0, acc.len() as int)
            + visible(x.text));
        lemma_vis_tokens_prefix(acc2, acc, acc.len() as int);
        assert(s.subrange(pos, s.len() as int) =~= s.subrange(pos, e) + s.subrange(e, s.len() as int));
        lemma_visible_concat(s.subrange(pos, e), s.subrange(e, s.len() as int));
        assert(vis_tokens(acc2, 0, acc2.len() as int) + visible(s.subrange(e, s.len() as int))
            =~= vis_tokens(acc, 0, acc.len() as int) + visible(s.subrange(pos, s.len() as int)));
    }
}

proof fn lemma_vis_tokens_prefix(t: Seq<Lexeme>, u: Seq<Lexeme>, k: int)
    requires
        0 <= k <= u.len() <= t.len(),
        forall|j: int| 0 <= j < u.len() ==> t[j] == u[j],
    ensures
        vis_tokens(t, 0, k) == vis_tokens(u, 0, k),
    decreases k,
{
    if k > 0 {
        lemma_vis_tokens_prefix(t, u, k - 1);
    }
}

pub(crate) proof fn lemma_trim_visible(l: Seq<char>)
    ensures
        visible(trim(l)) == visible(l),
{
    lemma_skip_ws(l, 0);
    let a = skip_ws(l, 0);
    let ts = trim_start(l);
    assert(l =~= l.subrange(0, a) + ts);
    lemma_visible_concat(l.subrange(0, a), ts);
    lemma_visible_blank(l.subrange(0, a));
    lemma_back_ws(ts, ts.len() as int);
    let b = back_ws(ts, ts.len() as int);
    assert(ts =~= ts.subrange(0, b) + ts.subrange(b, ts.len() as int));
    lemma_visible_concat(ts.subrange(0, b), ts.subrange(b, ts.len() as int));
    lemma_visible_blank(ts.subrange(b, ts.len() as int));
    assert(visible(trim(l)) =~= visible(l));
}

proof fn lemma_joined_visible(ls: Seq<Seq<char>>, i: int, acc: Seq<char>, first: bool)
    requires
        0 <= i <= ls.len(),
    ensures
        visible(joined_from(ls, i, acc, first)) == visible(acc) + vis_all(ls.subrange(i, ls.len() as int)),
    decreases ls.len() - i,
{
    if i >= ls.len() {
        assert(ls.subrange(i, ls.len() as int) =~= Seq::<Seq<char>>::empty());
        assert(visible(acc) + vis_all(Seq::<Seq<char>>::empty()) =~= visible(acc));
    } else {
        let l = trim(ls[i]);
        lemma_trim_visible(ls[i]);
        let rest = ls.subrange(i + 1, ls.len() as int);
        assert(ls.subrange(i, ls.len() as int) =~= seq![ls[i]] + rest);
        lemma_vis_all_concat(seq![ls[i]], rest);
        lemma_vis_all_one(ls[i]);
        if l.len() == 0 {
            lemma_joined_visible(ls, i + 1, acc, first);
            assert(visible(l) =~= Seq::<char>::empty());
        } else if first {
            lemma_joined_visible(ls, i + 1, acc + l, false);
            lemma_visible_concat(acc, l);
        } else {
            lemma_joined_visible(ls, i + 1, acc.push(' ') + l, false);
            assert(acc.push(' ') =~= acc + seq![' ']);
            lemma_visible_concat(acc, seq![' ']);
            lemma_visible_one(' ');
            lemma_visible_concat(acc.push(' '), l);
        }
        assert(visible(joined_from(ls, i, acc, first)) =~= visible(acc) + vis_all(
            ls.subrange(i, ls.len() as int),
        ));
    }
}

pub(crate) proof fn lemma_pieces_visible(s: Seq<char>, i: int)
    requires
        0 <= i <= s.len(),
    ensures
        vis_all(pieces_from(s, i).map_values(|p: Seq<char>| line_of(p))) == visible(
            s.subrange(i, s.len() as int),
        ),
    decreases s.len() - i,
{
    if i >= s.len() {
        assert(pieces_from(s, i).map_values(|p: Seq<char>| line_of(p)) =~= Seq::<Seq<char>>::empty());
        assert(s.subrange(i, s.len() as int) =~= Seq::<char>::empty());
    } else {
        lemma_piece_end(s, i);
        lemma_next_newline(s, i);
        let e = piece_end(s, i);
        let piece = s.subrange(i, e);
        lemma_pieces_visible(s, e);
        let rest = pieces_from(s, e).map_values(|p: Seq<char>| line_of(p));
        assert(pieces_from(s, i).map_values(|p: Seq<char>| line_of(p)) =~= seq![line_of(piece)]
            + rest);
        lemma_vis_all_concat(seq![line_of(piece)], rest);
        lemma_vis_all_one(line_of(piece));
        assert(visible(line_of(piece)) == visible(piece)) by {
            if piece.len() > 0 && piece.last() == '\n' {
                let q = piece.drop_last();
                assert(piece =~= q + seq!['\n']);
                lemma_visible_concat(q, seq!['\n']);
                lemma_visible_one('\n');
                if q.len() > 0 && q.last() == '\r' {
                    assert(q =~= q.drop_last() + seq!['\r']);
                    lemma_visible_concat(q.drop_last(), seq!['\r']);
                    lemma_visible_one('\r');
                }
            }
        }
        assert(s.subrange(i, s.len() as int) =~= piece + s.subrange(e, s.len() as int));
        lemma_visible_concat(piece, s.subrange(e, s.len() as int));
    }
}

/// Joining the source lines keeps every visible character.
proof fn lemma_joined_keeps_visible(input: Seq<char>)
    ensures
        visible(joined(input)) == visible(input),
{
    lemma_joined_visible(lines(input), 0, seq![], true);
    assert(lines(input).subrange(0, lines(input).len() as int) =~= lines(input));
    lemma_pieces_visible(input, 0);
    assert(input.subrange(0, input.len() as int) =~= input);
    assert(visible(Seq::<char>::empty()) =~= Seq::<char>::empty());
    assert(Seq::<char>::empty() + vis_all(lines(input)) =~= vis_all(lines(input)));
}

/// Reflowing an equation changes whitespace and nothing else: the
/// characters that are not whitespace come back in the same order. What a
/// renderer makes of the mathematics is therefore unchanged, beyond
/// whitespace, which is insignificant in TeX math mode between these
/// tokens.
pub proof fn law_reflow_changes_only_whitespace(input: Seq<char>, style: MathStyle, width: nat)
    ensures
        visible(display_math(input, style, width)) == visible(input),
{
    if display_math(input, style, width) != input {
        let j = joined(input);
        let t = tokenize(j);
        lemma_joined_keeps_visible(input);
        lemma_tokens_visible(j, 0, false, seq![]);
        assert(j.subrange(0, j.len() as int) =~= j);
        assert(vis_tokens(Seq::<Lexeme>::empty(), 0, 0) =~= Seq::<char>::empty());
        let ls = display_lines(t, style, width);
        match style {
            MathStyle::Readable => lemma_clauses_visible(t, width, 0, 1),
            MathStyle::Compact => {
                assert(t.subrange(0, t.len() as int) =~= t);
                lemma_wrap_visible(t, width, 0, t.len() as int, t);
            },
        }
        lemma_join_lines_visible(ls);
    }
}

// ---------------------------------------------------------------------------
// Line endings and preferences
// ---------------------------------------------------------------------------

/// Every line feed of `s` comes right after a carriage return.
pub open spec fn crlf_only(s: Seq<char>) -> bool {
    forall|j: int| 0 <= j < s.len() && #[trigger] s[j] == '\n' ==> j > 0 && s[j - 1] == '\r'
}

proof fn lemma_lf_to_crlf(s: Seq<char>, i: int)
    requires
        0 <= i <= s.len(),
    ensures
        crlf_only(lf_to_crlf(s, i)),
        lf_to_crlf(s, i).len() == 0 || lf_to_crlf(s, i)[0] != '\n',
    decreases s.len() - i,
{
    if i < s.len() {
        lemma_lf_to_crlf(s, i + 1);
        let rest = lf_to_crlf(s, i + 1);
        if s[i] == '\n' {
            let out = seq!['\r', '\n'] + rest;
            assert(out == lf_to_crlf(s, i));
            assert forall|j: int| 0 <= j < out.len() && #[trigger] out[j] == '\n' implies j > 0 && out[j - 1]
                == '\r' by {
                if j >= 2 {
                    assert(out[j] == rest[j - 2]);
                    if j == 2 {
                        assert(rest[0] != '\n');
                    } else {
                        assert(out[j - 1] == rest[j - 3]);
                    }
                }
            }
        } else {
            let out = seq![s[i]] + rest;
            assert(out == lf_to_crlf(s, i));
            assert forall|j: int| 0 <= j < out.len() && #[trigger] out[j] == '\n' implies j > 0 && out[j - 1]
                == '\r' by {
                if j >= 1 {
                    assert(out[j] == rest[j - 1]);
                    if j == 1 {
                        assert(rest[0] != '\n');
                    } else {
                        assert(out[j - 1] == rest[j - 2]);
                    }
                }
            }
        }
    }
}

/// A document keeps its own line endings: when the first line of the input
/// ends in a carriage return and a line feed, so does every line of the
/// formatted document, though the Markdown serializer writes bare line feeds.
pub proof fn law_crlf_documents_stay_crlf(input: Seq<char>, prefs: FormatOptions)
    ensures
        uses_crlf(input) && document(input, prefs) is Some ==> crlf_only(
            document(input, prefs)->0,
        ),
{
    if uses_crlf(input) && document(input, prefs) is Some {
        let out = document(input, prefs)->0;
        assert(exists|o: Seq<char>| out == line_endings_of(o, input)) by {
            let p = effective(prefs);
            let d = crate::standard_dialect();
            let held = crate::preparse::extract(input, p, d);
            let inline = crate::preparse::extract_inline(held.text, d);
            let r = crate::rendered(inline.text, p, d)->0;
            let restored = match crate::preparse::restore_inline(inline, r) {
                Some(x) => crate::preparse::restore_blocks(held, x),
                None => None,
            };
            match restored {
                Some(o) => assert(out == line_endings_of(o, input)),
                None => {
                    let o = crate::rendered(input, p, d)->0;
                    assert(out == line_endings_of(o, input));
                },
            }
        }
        let o = choose|o: Seq<char>| out == line_endings_of(o, input);
        lemma_lf_to_crlf(crate::crlf_to_lf(o, 0), 0);
    }
}

/// A preferred width below the narrowest accepted one acts as that one.
pub proof fn law_narrow_widths_act_as_the_minimum(input: Seq<char>, prefs: FormatOptions)
    ensures
        prefs.math_width < MIN_MATH_WIDTH ==> document(input, prefs) == document(
            input,
            FormatOptions { math_style: prefs.math_style, math_width: MIN_MATH_WIDTH },
        ),
{
    let q = FormatOptions { math_style: prefs.math_style, math_width: MIN_MATH_WIDTH };
    if prefs.math_width < MIN_MATH_WIDTH {
        assert(effective(prefs) == effective(q));
    }
}

// ---------------------------------------------------------------------------
// Held equations keep no line Markdown would claim
// ---------------------------------------------------------------------------

/// A line of nothing but blanks.
pub open spec fn blank_line(l: Seq<char>) -> bool {
    skip_blank(l, 0) >= l.len()
}

/// No blank line, after the first line, comes directly before a line
/// Markdown would claim.
pub open spec fn no_claim_after_blank(segs: Seq<Seq<char>>) -> bool {
    forall|j: int|
        1 <= j && j + 1 < segs.len() && blank_line(#[trigger] segs[j]) ==> !claimed(segs[j + 1])
}

proof fn lemma_skip_blank_prefix(l: Seq<char>, x: Seq<char>, i: int)
    requires
        0 <= i <= l.len(),
        skip_blank(l, i) < l.len(),
    ensures
        skip_blank(l + x, i) == skip_blank(l, i),
    decreases l.len() - i,
{
    assert((l + x)[i] == l[i]);
    if is_blank(l[i]) {
        lemma_skip_blank_prefix(l, x, i + 1);
    }
}

proof fn lemma_skip_blank_stops(s: Seq<char>, i: int, k: int)
    requires
        0 <= i <= k < s.len(),
        !is_blank(s[k]),
    ensures
        skip_blank(s, i) <= k,
        skip_blank(s, i) < s.len(),
        !is_blank(s[skip_blank(s, i)]),
    decreases k - i,
{
    if i < k && is_blank(s[i]) {
        lemma_skip_blank_stops(s, i + 1, k);
    }
}

proof fn lemma_skip_blank_end(s: Seq<char>, i: int)
    requires
        0 <= i <= s.len(),
    ensures
        i <= skip_blank(s, i) <= s.len(),
        skip_blank(s, i) < s.len() ==> !is_blank(s[skip_blank(s, i)]),
    decreases s.len() - i,
{
    if i < s.len() && is_blank(s[i]) {
        lemma_skip_blank_end(s, i + 1);
    }
}

/// Text added after a line that is neither blank nor claimed leaves it
/// unclaimed: a claim is decided by the start of the line.
proof fn lemma_unclaimed_extended(l: Seq<char>, x: Seq<char>)
    requires
        !blank_line(l),
        !claimed(l),
        x.len() > 0 ==> is_blank(x[0]),
    ensures
        !claimed(l + x),
{
    lemma_skip_blank_end(l, 0);
    lemma_skip_blank_prefix(l, x, 0);
    let b = skip_blank(l, 0);
    let t = l.skip(b);
    let u = (l + x).skip(b);
    assert(u =~= t + x);
    assert(u[0] == t[0]);
    if t.len() > 1 {
        assert(u[1] == t[1]);
    }
    if t.len() > 2 {
        assert(u[2] == t[2]);
    }
    if t.len() == 1 && x.len() > 0 {
        assert(u[1] == x[0]);
    }
}

proof fn lemma_split_lf_nl_free(s: Seq<char>, i: int)
    requires
        0 <= i <= s.len() + 1,
    ensures
        forall|k: int| 0 <= k < split_lf_from(s, i).len() ==> nl_free(#[trigger] split_lf_from(s, i)[k]),
    decreases s.len() - i,
{
    if i <= s.len() {
        lemma_next_newline(s, i);
        let e = next_newline(s, i);
        if e < s.len() {
            lemma_split_lf_nl_free(s, e + 1);
            let rest = split_lf_from(s, e + 1);
            let out = seq![s.subrange(i, e)] + rest;
            assert forall|k: int| 0 <= k < out.len() implies nl_free(#[trigger] out[k]) by {
                if k > 0 {
                    assert(out[k] == rest[k - 1]);
                }
            }
        }
    }
}

/// The lines merged so far: none after the first is claimed, none holds a
/// line feed, and a blank last line (after the first) is the segment just
/// taken, as it was.
spec fn merge_invariant(segs: Seq<Seq<char>>, i: int, acc: Seq<Seq<char>>) -> bool {
    &&& acc.len() <= i
    &&& (forall|k: int| 1 <= k < acc.len() ==> !claimed(#[trigger] acc[k]))
    &&& (forall|k: int| 0 <= k < acc.len() ==> nl_free(#[trigger] acc[k]))
    &&& (acc.len() >= 2 && blank_line(acc.last()) ==> i >= 2 && acc.last() == segs[i - 1])
}

proof fn lemma_merge_from(segs: Seq<Seq<char>>, i: int, acc: Seq<Seq<char>>)
    requires
        0 <= i <= segs.len(),
        no_claim_after_blank(segs),
        forall|k: int| 0 <= k < segs.len() ==> nl_free(#[trigger] segs[k]),
        merge_invariant(segs, i, acc),
        segs.len() > 0 ==> (i > 0 <==> acc.len() > 0),
    ensures
        merge_invariant(segs, segs.len() as int, merge_from(segs, i, acc)),
        segs.len() > 0 ==> merge_from(segs, i, acc).len() > 0,
    decreases segs.len() - i,
{
    if i < segs.len() {
        let seg = segs[i];
        if acc.len() > 0 && claimed(seg) {
            let last = acc.last();
            lemma_skip_blank_end(seg, 0);
            let b = skip_blank(seg, 0);
            let rest = seg.skip(b);
            let merged = last.push(' ') + rest;
            assert(merged =~= last + (seq![' '] + rest));
            if acc.len() >= 2 {
                if blank_line(last) {
                    assert(blank_line(segs[i - 1]));
                    assert(!claimed(segs[i]));
                }
                lemma_unclaimed_extended(last, seq![' '] + rest);
            }
            assert(merged[last.len() as int + 1] == rest[0]);
            lemma_skip_blank_stops(merged, 0, last.len() as int + 1);
            let acc2 = acc.update(acc.len() - 1, merged);
            assert(nl_free(merged)) by {
                assert forall|k: int| 0 <= k < merged.len() implies merged[k] != '\n' by {
                    if k < last.len() {
                        assert(merged[k] == last[k]);
                    } else if k > last.len() {
                        assert(merged[k] == seg[k - last.len() - 1 + b]);
                    }
                }
            }
            assert forall|k: int| 1 <= k < acc2.len() implies !claimed(#[trigger] acc2[k]) by {
                if k < acc.len() - 1 {
                    assert(acc2[k] == acc[k]);
                }
            }
            assert forall|k: int| 0 <= k < acc2.len() implies nl_free(#[trigger] acc2[k]) by {
                if k < acc.len() - 1 {
                    assert(acc2[k] == acc[k]);
                }
            }
            lemma_merge_from(segs, i + 1, acc2);
        } else {
            let acc2 = acc.push(seg);
            assert forall|k: int| 1 <= k < acc2.len() implies !claimed(#[trigger] acc2[k]) by {
                if k < acc.len() {
                    assert(acc2[k] == acc[k]);
                }
            }
            assert forall|k: int| 0 <= k < acc2.len() implies nl_free(#[trigger] acc2[k]) by {
                if k < acc.len() {
                    assert(acc2[k] == acc[k]);
                }
            }
            lemma_merge_from(segs, i + 1, acc2);
        }
    }
}

/// An equation held aside comes back with no line after its first that a
/// Markdown block parser would claim (a setext underline, thematic break,
/// list item, heading, table row, or block quote): each such line is joined
/// to the line above it. The output is the merged lines joined by line
/// feeds, and none of them holds a line feed of its own, so these are the
/// output's lines. A blank line right before a claimed one is the one
/// exception: joining to it would leave the claimed text opening a line.
pub proof fn law_joined_lines_are_not_claimed(text: Seq<char>)
    requires
        no_claim_after_blank(split_lf_from(text, 0)),
    ensures
        ({
            let ls = merge_from(split_lf_from(text, 0), 0, seq![]);
            &&& join_claimed(text) == join_lines(ls)
            &&& forall|k: int| 0 <= k < ls.len() ==> nl_free(#[trigger] ls[k])
            &&& forall|k: int| 1 <= k < ls.len() ==> !claimed(#[trigger] ls[k])
        }),
{
    let segs = split_lf_from(text, 0);
    lemma_split_lf_nl_free(text, 0);
    lemma_merge_from(segs, 0, seq![]);
}

// ---------------------------------------------------------------------------
// Compact lines and environment rows
// ---------------------------------------------------------------------------

/// In the compact style an equation whose tokens fit the preferred width on
/// one line is laid out on that one line.
pub proof fn law_compact_keeps_what_fits_on_one_line(input: Seq<char>, width: nat)
    ensures
        ({
            let t = tokenize(joined(input));
            display_math(input, MathStyle::Compact, width) != input && render(t, 0, t.len() as int).len()
                <= width ==> display_math(input, MathStyle::Compact, width) == render(
                t,
                0,
                t.len() as int,
            )
        }),
{
    let t = tokenize(joined(input));
    if display_math(input, MathStyle::Compact, width) != input && render(t, 0, t.len() as int).len()
        <= width {
        assert(next_break(t, width, 0) is None);
        assert(wrap(t, width) == seq![render(t, 0, t.len() as int)]);
    }
}

proof fn lemma_cells_nl_free(cells: Seq<Seq<char>>, index: int, acc: Seq<char>)
    requires
        nl_free(acc),
    ensures
        cells_from(cells, index, acc) matches Some(f) ==> nl_free(f),
    decreases cells.len() - index,
{
    reveal_strlit(" &");
    reveal_strlit(" & ");
    if 0 <= index < cells.len() {
        let cell = trim(cells[index]);
        if !(cell.len() == 0 && index != 0) {
            let value = display_math(cell, MathStyle::Compact, usize::MAX as nat);
            if !value.contains('\n') {
                let tab = if index > 0 {
                    if value.len() > 0 && value[0] == '=' {
                        " &"@
                    } else {
                        " & "@
                    }
                } else {
                    seq![]
                };
                let next = acc + tab + value;
                assert(nl_free(next)) by {
                    assert forall|k: int| 0 <= k < next.len() implies next[k] != '\n' by {
                        if k >= acc.len() + tab.len() {
                            assert(next[k] == value[k - acc.len() - tab.len()]);
                        }
                    }
                }
                lemma_cells_nl_free(cells, index + 1, next);
            }
        }
    }
}

/// A row line: indented by two spaces, with no line feed of its own.
pub open spec fn row_line(l: Seq<char>) -> bool {
    l.len() >= 2 && l[0] == ' ' && l[1] == ' ' && nl_free(l)
}

proof fn lemma_rows_lines(rows: Seq<Seq<char>>, i: int, acc: Seq<Seq<char>>)
    requires
        0 <= i <= rows.len(),
        acc.len() == i,
        forall|k: int| 0 <= k < acc.len() ==> row_line(#[trigger] acc[k]),
    ensures
        rows_from(rows, i, acc) matches Some(ls) ==> ls.len() == rows.len() && forall|k: int|
            0 <= k < ls.len() ==> row_line(#[trigger] ls[k]),
    decreases rows.len() - i,
{
    if i < rows.len() {
        if let Some(r) = format_row(rows[i]) {
            reveal_strlit("  ");
            let cells = split_top(rows[i], false)->0;
            lemma_cells_nl_free(cells, 0, seq![]);
            let f = cells_from(cells, 0, seq![])->0;
            lemma_back_ws(f, f.len() as int);
            assert(r == "  "@ + trim_end(f));
            assert(row_line(r)) by {
                assert forall|k: int| 0 <= k < r.len() implies r[k] != '\n' by {
                    if k >= 2 {
                        assert(r[k] == f[k - 2]);
                    }
                }
            }
            let acc2 = acc.push(r);
            assert forall|k: int| 0 <= k < acc2.len() implies row_line(#[trigger] acc2[k]) by {
                if k < acc.len() {
                    assert(acc2[k] == acc[k]);
                }
            }
            lemma_rows_lines(rows, i + 1, acc2);
        }
    }
}

/// A row-aware environment comes back with its opening line, each row on a
/// line of its own indented by two spaces, the rows separated by explicit
/// row breaks at the ends of their lines, and its closing line.
pub proof fn law_environment_rows_stand_on_their_own_lines(input: Seq<char>)
    ensures
        environment(input) matches Some(out) ==> exists|k: int, ls: Seq<Seq<char>>|
            0 <= k < 3 && ls.len() > 0 && (forall|i: int| 0 <= i < ls.len() ==> row_line(#[trigger] ls[i]))
                && out == opener(k).push('\n') + join_with(ls, row_separator()).push('\n') + closer(k),
{
    if let Some(out) = environment(input) {
        let source = trim(input);
        let k = which_environment(source)->0;
        let open = opener(k);
        let close = closer(k);
        let rest = source.skip(open.len() as int);
        let body = rest.subrange(0, rest.len() - close.len());
        let rows = split_top(body, true)->0;
        lemma_rows_lines(rows, 0, seq![]);
        let ls = rows_from(rows, 0, seq![])->0;
        assert(0 <= k < 3);
        assert(out == open.push('\n') + join_with(ls, row_separator()).push('\n') + close);
    }
}

// ---------------------------------------------------------------------------
// Wrapping only breaks lines
// ---------------------------------------------------------------------------

proof fn lemma_render_split(t: Seq<Lexeme>, a: int, p: int, b: int)
    requires
        0 <= a < p < b <= t.len(),
    ensures
        render(t, a, b) == render(t, a, p) + (if gap(t, p) {
            seq![' ']
        } else {
            Seq::<char>::empty()
        }) + render(t, p, b),
    decreases b - p,
{
    if b - 1 > p {
        lemma_render_split(t, a, p, b - 1);
    } else {
        assert(render(t, p, p) =~= Seq::<char>::empty());
    }
    let g = if gap(t, p) {
        seq![' ']
    } else {
        Seq::<char>::empty()
    };
    assert(render(t, a, b) =~= render(t, a, p) + g + render(t, p, b));
}

proof fn lemma_join_with_front(x: Seq<char>, rest: Seq<Seq<char>>, sep: Seq<char>)
    requires
        rest.len() > 0,
    ensures
        join_with(seq![x] + rest, sep) == x + sep + join_with(rest, sep),
    decreases rest.len(),
{
    let ls = seq![x] + rest;
    assert(ls.drop_last() =~= seq![x] + rest.drop_last());
    assert(ls.last() == rest.last());
    if rest.len() == 1 {
        assert(seq![x] + rest.drop_last() =~= seq![x]);
        assert(join_with(seq![x], sep) == x);
        assert(join_with(rest, sep) == rest[0]);
    } else {
        lemma_join_with_front(x, rest.drop_last(), sep);
        assert(join_with(ls, sep) =~= x + sep + join_with(rest, sep));
    }
}

proof fn lemma_wrap_joins(t: Seq<Lexeme>, w: nat, a: int)
    requires
        0 <= a < t.len(),
        forall|k: int| 0 <= k < t.len() ==> (#[trigger] t[k]).text.len() > 0,
    ensures
        wrap_from(t, w, a).len() > 0,
        join_with(wrap_from(t, w, a), seq![' ']) == render(t, a, t.len() as int),
        forall|k: int| 0 <= k < wrap_from(t, w, a).len() ==> (#[trigger] wrap_from(t, w, a)[k]).len() > 0,
    decreases t.len() - a,
{
    let n = t.len() as int;
    lemma_next_break_legal(t, w, a);
    lemma_render_nonempty(t, a, n);
    match next_break(t, w, a) {
        Some(p) => if a < p && p < n {
            lemma_wrap_joins(t, w, p);
            lemma_render_nonempty(t, a, p);
            lemma_render_split(t, a, p, n);
            crate::retokenize::lemma_legal_gap(t, p);
            lemma_join_with_front(render(t, a, p), wrap_from(t, w, p), seq![' ']);
            let ls = wrap_from(t, w, a);
            assert forall|k: int| 0 <= k < ls.len() implies (#[trigger] ls[k]).len() > 0 by {
                if k > 0 {
                    assert(ls[k] == wrap_from(t, w, p)[k - 1]);
                }
            }
        } else {
            assert(join_with(seq![render(t, a, n)], seq![' ']) == render(t, a, n));
        },
        None => {
            assert(join_with(seq![render(t, a, n)], seq![' ']) == render(t, a, n));
        },
    }
}

proof fn lemma_render_nonempty(t: Seq<Lexeme>, a: int, b: int)
    requires
        0 <= a < b <= t.len(),
        forall|k: int| 0 <= k < t.len() ==> (#[trigger] t[k]).text.len() > 0,
    ensures
        render(t, a, b).len() > 0,
{
    assert(t[b - 1].text.len() > 0);
}

/// Wrapping only turns spaces into line breaks: the wrapped lines, joined
/// by single spaces, are the tokens rendered on one line, and no line is
/// empty. A break never splits or drops a token.
pub proof fn law_wrapping_only_breaks_lines(t: Seq<Lexeme>, w: nat)
    requires
        t.len() > 0,
        forall|k: int| 0 <= k < t.len() ==> (#[trigger] t[k]).text.len() > 0,
    ensures
        join_with(wrap(t, w), seq![' ']) == render(t, 0, t.len() as int),
        forall|k: int| 0 <= k < wrap(t, w).len() ==> (#[trigger] wrap(t, w)[k]).len() > 0,
{
    lemma_wrap_joins(t, w, 0);
}

} // verus!
