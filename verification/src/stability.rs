//! Reflowing is stable: the tokens of a reflowed equation, read back and
//! laid out again, give the same lines.
use vstd::prelude::*;

use crate::math::{
    best_fit, clause_start, clauses_from, depth_at, fits, gap, legal, next_break,
    render, tokens_acc, unary, wrap, wrap_from, kind_of, Lexeme,
};
use crate::retokenize::{
    ends, laid_as, lemma_flat_at, lemma_joinable_safe, lemma_separator_safe,
    lemma_token_end_local, piece_ok, well_read, whole,
};
use crate::roundtrip::flat;
use crate::laws::{lemma_render_shape, nl_free, well_tokens};
use crate::math::{display_lines, display_math, join_lines, joined, joined_from, tokenize};
use crate::retokenize::{
    clause_starts, keeps_spacing, lemma_clauses_laid, lemma_source_spaced_gap,
    lemma_tokenize_well_read, lemma_wrap_laid, range_keeps, range_ok, range_piece, source_spaced,
};
use crate::MathStyle;
use crate::text::{
    back_ws, is_ws, lemma_back_ws, lemma_skip_ws, line_of, lines, next_newline, piece_end,
    pieces_from, skip_ws, trim,
};

verus! {

/// Two token sequences the layout cannot tell apart: the same texts and
/// kinds, and the same spacing between every two neighbours.
pub open spec fn alike(u: Seq<Lexeme>, v: Seq<Lexeme>) -> bool {
    &&& u.len() == v.len()
    &&& forall|k: int| 0 <= k < u.len() ==> #[trigger] same_token(u, v, k)
    &&& forall|k: int| 0 < k < u.len() ==> #[trigger] gap(u, k) == gap(v, k)
}

pub open spec fn same_token(u: Seq<Lexeme>, v: Seq<Lexeme>, k: int) -> bool {
    u[k].text == v[k].text && u[k].kind == v[k].kind
}

proof fn lemma_render_alike(u: Seq<Lexeme>, v: Seq<Lexeme>, a: int, b: int)
    requires
        alike(u, v),
        0 <= a,
        b <= u.len(),
    ensures
        render(u, a, b) == render(v, a, b),
    decreases b - a,
{
    if b > a {
        lemma_render_alike(u, v, a, b - 1);
        assert(same_token(u, v, b - 1));
        if b - 1 > a {
            assert(gap(u, b - 1) == gap(v, b - 1));
        }
    }
}

proof fn lemma_legal_alike(u: Seq<Lexeme>, v: Seq<Lexeme>, p: int)
    requires
        alike(u, v),
    ensures
        legal(u, p) == legal(v, p),
{
    if 0 < p < u.len() {
        assert(same_token(u, v, p));
        assert(same_token(u, v, p - 1));
        assert(gap(u, p) == gap(v, p));
        if p - 1 > 0 {
            assert(same_token(u, v, p - 2));
        }
        assert(unary(u, p - 1) == unary(v, p - 1));
    }
}

proof fn lemma_depth_alike(u: Seq<Lexeme>, v: Seq<Lexeme>, p: int)
    requires
        alike(u, v),
    ensures
        depth_at(u, p) == depth_at(v, p),
    decreases p,
{
    if 0 < p <= u.len() {
        lemma_depth_alike(u, v, p - 1);
        assert(same_token(u, v, p - 1));
    }
}

proof fn lemma_best_fit_alike(u: Seq<Lexeme>, v: Seq<Lexeme>, w: nat, a: int, p: int, best: Option<int>)
    requires
        alike(u, v),
        0 <= a,
    ensures
        best_fit(u, w, a, p, best) == best_fit(v, w, a, p, best),
    decreases u.len() - p,
{
    if 0 <= p < u.len() {
        lemma_legal_alike(u, v, p);
        lemma_render_alike(u, v, a, p);
        lemma_depth_alike(u, v, p);
        if let Some(b) = best {
            lemma_depth_alike(u, v, b);
        }
        let take = legal(u, p) && fits(u, w, a, p) && match best {
            None => true,
            Some(b) => depth_at(u, p) <= depth_at(u, b),
        };
        lemma_best_fit_alike(u, v, w, a, p + 1, if take {
            Some(p)
        } else {
            best
        });
    }
}

/// Sequences the layout cannot tell apart are wrapped alike.
proof fn lemma_wrap_alike(u: Seq<Lexeme>, v: Seq<Lexeme>, w: nat, a: int)
    requires
        alike(u, v),
        0 <= a,
    ensures
        wrap_from(u, w, a) == wrap_from(v, w, a),
    decreases u.len() - a,
{
    if a < u.len() {
        lemma_render_alike(u, v, a, u.len() as int);
        lemma_best_fit_alike(u, v, w, a, a + 1, None);
        assert(next_break(u, w, a) == next_break(v, w, a));
        match next_break(u, w, a) {
            Some(p) => if a < p && p < u.len() {
                lemma_render_alike(u, v, a, p);
                lemma_wrap_alike(u, v, w, p);
            },
            None => {},
        }
    }
}

// ---------------------------------------------------------------------------
// Reading a layout back, token by token
// ---------------------------------------------------------------------------

/// The tokens a layout reads back as: the same texts and kinds, each set
/// apart from the one before it where the layout wrote a separator.
pub open spec fn respaced(t: Seq<Lexeme>, ps: Seq<Seq<char>>) -> Seq<Lexeme> {
    Seq::new(
        t.len(),
        |k: int| Lexeme { text: t[k].text, kind: t[k].kind, spaced: k > 0 && ps[k] != t[k].text },
    )
}

proof fn lemma_read_back(out: Seq<char>, ps: Seq<Seq<char>>, t: Seq<Lexeme>, k: int, acc: Seq<Lexeme>)
    requires
        well_read(t),
        laid_as(ps, t),
        out == flat(ps),
        0 <= k <= t.len(),
        acc == respaced(t, ps).take(k),
    ensures
        tokens_acc(out, flat(ps.take(k)).len() as int, false, acc) == respaced(t, ps),
    decreases t.len() - k,
{
    let pk = flat(ps.take(k)).len() as int;
    let r = respaced(t, ps);
    if k == t.len() {
        assert(ps.take(k) =~= ps);
        assert(r.take(k) =~= r);
    } else {
        lemma_flat_at(ps, k);
        let x = t[k].text;
        reveal(whole);
        assert(whole(x) && t[k].kind == kind_of(x[0]));
        assert(out.subrange(pk, pk + ps[k].len()) =~= ps[k]);
        let pos = if ps[k] == x {
            pk
        } else {
            pk + 1
        };
        if k > 0 {
            assert(piece_ok(ps, t, k));
        }
        assert(ps[k] == x || ps[k] == seq![' '] + x || ps[k] == seq!['\n'] + x);
        assert(out.subrange(pos, pos + x.len()) =~= x) by {
            assert forall|j: int| 0 <= j < x.len() implies out.subrange(pos, pos + x.len())[j] == x[j] by {
                assert(out[pos + j] == ps[k][pos + j - pk]);
            }
        }
        let next = pk + ps[k].len();
        if next < out.len() {
            assert(k + 1 < t.len()) by {
                if k + 1 == t.len() {
                    assert(ps.skip(k + 1) =~= Seq::<Seq<char>>::empty());
                }
            }
            lemma_flat_at(ps, k + 1);
            assert(ps.skip(k + 1) =~= seq![ps[k + 1]] + ps.skip(k + 2));
            crate::roundtrip::lemma_flat_front(ps[k + 1], ps.skip(k + 2));
            assert(piece_ok(ps, t, k + 1));
            assert(whole(t[k + 1].text));
            assert(out[next] == ps[k + 1][0]);
            if ps[k + 1] == t[k + 1].text {
                lemma_joinable_safe(t, k + 1);
            } else {
                assert(ends(x));
                lemma_separator_safe(x);
            }
        }
        lemma_token_end_local(out, pos, x);
        let tok = Lexeme { text: out.subrange(pos, pos + x.len()), kind: kind_of(out[pos]), spaced: pos
            != pk };
        assert(out[pos] == x[0]);
        assert(tok == r[k]) by {
            if k == 0 {
                assert(ps[0] == x);
            }
            if pos != pk {
                assert(ps[k].len() == x.len() + 1);
            }
        }
        assert(acc.push(tok) =~= r.take(k + 1));
        assert(!is_ws(out[pos]));
        assert(tokens_acc(out, pos, tok.spaced, acc) == tokens_acc(out, next, false, acc.push(tok)));
        if pos == pk + 1 {
            assert(out[pk] == ps[k][0]);
            assert(is_ws(out[pk]));
            assert(tokens_acc(out, pk, false, acc) == tokens_acc(out, pk + 1, true, acc));
        }
        assert(flat(ps.take(k + 1)).len() == next);
        lemma_read_back(out, ps, t, k + 1, acc.push(tok));
    }
}

/// A layout reads back as its tokens, respaced.
proof fn lemma_tokenize_layout(ps: Seq<Seq<char>>, t: Seq<Lexeme>)
    requires
        well_read(t),
        laid_as(ps, t),
    ensures
        crate::math::tokenize(flat(ps)) == respaced(t, ps),
{
    assert(ps.take(0) =~= Seq::<Seq<char>>::empty());
    assert(flat(Seq::<Seq<char>>::empty()) =~= Seq::<char>::empty());
    assert(respaced(t, ps).take(0) =~= Seq::<Lexeme>::empty());
    lemma_read_back(flat(ps), ps, t, 0, seq![]);
}

// ---------------------------------------------------------------------------
// The source a layout joins back into
// ---------------------------------------------------------------------------

/// Every line feed turned into a space.
pub open spec fn spaced_out(s: Seq<char>) -> Seq<char> {
    s.map_values(|c: char| if c == '\n' { ' ' } else { c })
}

/// No line ends in whitespace: not the last, and none before a line feed.
pub open spec fn clean_ends(s: Seq<char>) -> bool {
    &&& s.len() > 0
    &&& !is_ws(s.last())
    &&& forall|j: int| 0 <= j < s.len() && #[trigger] s[j] == '\n' ==> j > 0 && !is_ws(s[j - 1])
}

/// A line as the layout writes it: not empty, without a line feed, and
/// opening with a character that is not whitespace.
pub open spec fn written_line(l: Seq<char>) -> bool {
    l.len() > 0 && nl_free(l) && !is_ws(l[0])
}

pub(crate) proof fn lemma_next_newline_shift(a: Seq<char>, r: Seq<char>, i: int)
    requires
        0 <= i <= r.len(),
    ensures
        next_newline(a + r, a.len() + i) == a.len() + next_newline(r, i),
    decreases r.len() - i,
{
    if i < r.len() {
        assert((a + r)[a.len() + i] == r[i]);
        if r[i] != '\n' {
            lemma_next_newline_shift(a, r, i + 1);
        }
    }
}

pub(crate) proof fn lemma_pieces_shift(a: Seq<char>, r: Seq<char>, i: int)
    requires
        0 <= i <= r.len(),
    ensures
        pieces_from(a + r, a.len() + i) == pieces_from(r, i),
    decreases r.len() - i,
{
    if i < r.len() {
        lemma_next_newline_shift(a, r, i);
        crate::text::lemma_piece_end(r, i);
        let e = piece_end(r, i);
        assert(piece_end(a + r, a.len() + i) == a.len() + e);
        lemma_pieces_shift(a, r, e);
        assert((a + r).subrange(a.len() + i, a.len() + e) =~= r.subrange(i, e));
    }
}

proof fn lemma_nl_free_next(l: Seq<char>, i: int)
    requires
        nl_free(l),
        0 <= i <= l.len(),
    ensures
        next_newline(l, i) == l.len(),
    decreases l.len() - i,
{
    if i < l.len() {
        lemma_nl_free_next(l, i + 1);
    }
}

pub(crate) proof fn lemma_next_newline_skip(s: Seq<char>, i: int, j: int)
    requires
        0 <= i <= j <= s.len(),
        forall|k: int| i <= k < j ==> s[k] != '\n',
    ensures
        next_newline(s, i) == next_newline(s, j),
    decreases j - i,
{
    if i < j {
        lemma_next_newline_skip(s, i + 1, j);
    }
}

proof fn lemma_join_front(ls: Seq<Seq<char>>)
    requires
        ls.len() >= 2,
    ensures
        join_lines(ls) == ls[0] + seq!['\n'] + join_lines(ls.skip(1)),
{
    crate::retokenize::lemma_join_lines_concat(seq![ls[0]], ls.skip(1));
    assert(seq![ls[0]] + ls.skip(1) =~= ls);
    assert(join_lines(seq![ls[0]]) == ls[0]);
}

/// Split into lines, the layout's text gives back its lines.
proof fn lemma_lines_of_join(ls: Seq<Seq<char>>)
    requires
        ls.len() > 0,
        forall|k: int| 0 <= k < ls.len() ==> #[trigger] written_line(ls[k]) && !is_ws(ls[k].last()),
    ensures
        lines(join_lines(ls)) == ls,
    decreases ls.len(),
{
    let l0 = ls[0];
    assert(written_line(l0) && !is_ws(l0.last()));
    lemma_nl_free_next(l0, 0);
    if ls.len() == 1 {
        assert(join_lines(ls) == l0);
        assert(piece_end(l0, 0) == l0.len());
        assert(l0.subrange(0, l0.len() as int) =~= l0);
        assert(pieces_from(l0, l0.len() as int) =~= Seq::<Seq<char>>::empty());
        assert(pieces_from(l0, 0) =~= seq![l0]);
        assert(lines(l0) =~= ls);
    } else {
        lemma_join_front(ls);
        let rest = ls.skip(1);
        assert forall|k: int| 0 <= k < rest.len() implies #[trigger] written_line(rest[k]) && !is_ws(
            rest[k].last(),
        ) by {
            assert(rest[k] == ls[k + 1]);
            assert(written_line(ls[k + 1]));
        }
        lemma_lines_of_join(rest);
        let r = join_lines(rest);
        let head = l0 + seq!['\n'];
        let s = join_lines(ls);
        assert(s =~= head + r);
        assert(next_newline(s, 0) == l0.len()) by {
            assert forall|k: int| 0 <= k < l0.len() implies s[k] != '\n' by {
                assert(s[k] == l0[k]);
            }
            lemma_next_newline_skip(s, 0, l0.len() as int);
            assert(s[l0.len() as int] == '\n');
        }
        assert(piece_end(s, 0) == head.len());
        assert(s.subrange(0, head.len() as int) =~= head);
        lemma_pieces_shift(head, r, 0);
        assert(pieces_from(s, head.len() as int) == pieces_from(r, 0));
        assert(pieces_from(s, 0) =~= seq![head] + pieces_from(r, 0));
        assert(head.drop_last() =~= l0);
        assert(line_of(head) == l0);
        assert(lines(s) =~= seq![l0] + lines(r));
        assert(ls =~= seq![l0] + rest);
    }
}

proof fn lemma_trim_written(l: Seq<char>)
    requires
        written_line(l),
        !is_ws(l.last()),
    ensures
        trim(l) == l,
{
    lemma_skip_ws(l, 0);
    assert(skip_ws(l, 0) == 0);
    assert(crate::text::trim_start(l) =~= l);
    lemma_back_ws(l, l.len() as int);
    assert(back_ws(l, l.len() as int) == l.len());
    assert(crate::text::trim_end(l) =~= l);
}

proof fn lemma_joined_rest(ls: Seq<Seq<char>>, i: int, acc: Seq<char>)
    requires
        1 <= i <= ls.len(),
        forall|k: int| 0 <= k < ls.len() ==> #[trigger] written_line(ls[k]) && !is_ws(ls[k].last()),
    ensures
        i < ls.len() ==> joined_from(ls, i, acc, false) == acc + seq![' '] + spaced_out(
            join_lines(ls.subrange(i, ls.len() as int)),
        ),
        i == ls.len() ==> joined_from(ls, i, acc, false) == acc,
    decreases ls.len() - i,
{
    let n = ls.len() as int;
    if i < n {
        assert(written_line(ls[i]) && !is_ws(ls[i].last()));
        lemma_trim_written(ls[i]);
        let acc2 = acc.push(' ') + ls[i];
        lemma_joined_rest(ls, i + 1, acc2);
        let sub = ls.subrange(i, n);
        assert(spaced_out(ls[i]) =~= ls[i]);
        if i + 1 == n {
            assert(join_lines(sub) == sub[0]);
            assert(sub[0] == ls[i]);
            assert(acc2 =~= acc + seq![' '] + spaced_out(join_lines(sub)));
        } else {
            lemma_join_front(sub);
            assert(sub.skip(1) =~= ls.subrange(i + 1, n));
            let j2 = join_lines(ls.subrange(i + 1, n));
            assert(spaced_out(ls[i] + seq!['\n'] + j2) =~= ls[i] + seq![' '] + spaced_out(j2));
            assert(acc2 + seq![' '] + spaced_out(j2) =~= acc + seq![' '] + spaced_out(join_lines(sub)));
        }
    }
}

/// Joining the lines of a layout back into one source line puts a space
/// where each line feed was.
proof fn lemma_joined_of_layout(ls: Seq<Seq<char>>)
    requires
        ls.len() > 0,
        forall|k: int| 0 <= k < ls.len() ==> #[trigger] written_line(ls[k]) && !is_ws(ls[k].last()),
    ensures
        joined(join_lines(ls)) == spaced_out(join_lines(ls)),
{
    lemma_lines_of_join(ls);
    assert(written_line(ls[0]) && !is_ws(ls[0].last()));
    lemma_trim_written(ls[0]);
    lemma_joined_rest(ls, 1, Seq::<char>::empty() + ls[0]);
    assert(Seq::<char>::empty() + ls[0] =~= ls[0]);
    assert(spaced_out(ls[0]) =~= ls[0]);
    if ls.len() == 1 {
        assert(join_lines(ls) == ls[0]);
    } else {
        lemma_join_front(ls);
        assert(ls.skip(1) =~= ls.subrange(1, ls.len() as int));
        let j2 = join_lines(ls.subrange(1, ls.len() as int));
        assert(spaced_out(ls[0] + seq!['\n'] + j2) =~= ls[0] + seq![' '] + spaced_out(j2));
    }
}

/// A text whose lines end clean has lines ending clean.
proof fn lemma_clean_lines(ls: Seq<Seq<char>>)
    requires
        ls.len() > 0,
        forall|k: int| 0 <= k < ls.len() ==> #[trigger] written_line(ls[k]),
        clean_ends(join_lines(ls)),
    ensures
        forall|k: int| 0 <= k < ls.len() ==> !is_ws(#[trigger] ls[k].last()),
    decreases ls.len(),
{
    assert(written_line(ls[0]));
    if ls.len() == 1 {
        assert(join_lines(ls) == ls[0]);
    } else {
        lemma_join_front(ls);
        let rest = ls.skip(1);
        let s = join_lines(ls);
        let r = join_lines(rest);
        let n0 = ls[0].len() as int;
        assert(s[n0] == '\n');
        assert(s[n0 - 1] == ls[0].last());
        assert forall|k: int| 0 <= k < rest.len() implies #[trigger] written_line(rest[k]) by {
            assert(rest[k] == ls[k + 1]);
        }
        assert(clean_ends(r)) by {
            assert(r.len() > 0) by {
                assert(written_line(rest[0]));
                if rest.len() == 1 {
                    assert(r == rest[0]);
                } else {
                    lemma_join_front(rest);
                }
            }
            assert(r.last() == s.last());
            assert forall|j: int| 0 <= j < r.len() && #[trigger] r[j] == '\n' implies j > 0 && !is_ws(
                r[j - 1],
            ) by {
                assert(s[n0 + 1 + j] == r[j]);
                if j == 0 {
                    assert(written_line(rest[0]));
                    if rest.len() == 1 {
                        assert(r == rest[0]);
                    } else {
                        lemma_join_front(rest);
                    }
                    assert(r[0] == rest[0][0]);
                } else {
                    assert(s[n0 + j] == r[j - 1]);
                }
            }
        }
        lemma_clean_lines(rest);
        assert forall|k: int| 0 <= k < ls.len() implies !is_ws(#[trigger] ls[k].last()) by {
            if k > 0 {
                assert(ls[k] == rest[k - 1]);
            }
        }
    }
}

// ---------------------------------------------------------------------------
// Laying the tokens out again
// ---------------------------------------------------------------------------

/// Tokens with text, no line feed, and no whitespace to open with.
pub open spec fn writable(t: Seq<Lexeme>) -> bool {
    forall|k: int| 0 <= k < t.len() ==> #[trigger] t[k].text.len() > 0 && nl_free(t[k].text) && !is_ws(
        t[k].text[0],
    )
}

proof fn lemma_writable_sub(t: Seq<Lexeme>, a: int, b: int)
    requires
        writable(t),
        0 <= a <= b <= t.len(),
    ensures
        writable(t.subrange(a, b)),
        well_tokens(t.subrange(a, b)),
{
    assert forall|k: int| 0 <= k < b - a implies #[trigger] t.subrange(a, b)[k].text.len() > 0 && nl_free(
        t.subrange(a, b)[k].text,
    ) && !is_ws(t.subrange(a, b)[k].text[0]) by {
        assert(t.subrange(a, b)[k] == t[a + k]);
    }
}

proof fn lemma_wrap_written(t: Seq<Lexeme>, w: nat, a: int)
    requires
        writable(t),
        0 <= a,
    ensures
        forall|k: int| 0 <= k < wrap_from(t, w, a).len() ==> written_line(#[trigger] wrap_from(t, w, a)[k]),
    decreases t.len() - a,
{
    if a < t.len() {
        lemma_writable_sub(t, 0, t.len() as int);
        assert(t.subrange(0, t.len() as int) =~= t);
        let n = t.len() as int;
        assert(t[a].text.len() > 0 && !is_ws(t[a].text[0]));
        match next_break(t, w, a) {
            Some(p) => if a < p && p < n {
                lemma_render_shape(t, a, p);
                lemma_wrap_written(t, w, p);
                let rest = wrap_from(t, w, p);
                assert forall|k: int| 0 <= k < wrap_from(t, w, a).len() implies written_line(
                    #[trigger] wrap_from(t, w, a)[k],
                ) by {
                    if k > 0 {
                        assert(wrap_from(t, w, a)[k] == rest[k - 1]);
                    }
                }
            } else {
                lemma_render_shape(t, a, n);
            },
            None => {
                lemma_render_shape(t, a, n);
            },
        }
    }
}

proof fn lemma_clauses_written(t: Seq<Lexeme>, w: nat, start: int, i: int)
    requires
        writable(t),
        0 <= start < t.len(),
        start < i,
    ensures
        forall|k: int|
            0 <= k < clauses_from(t, w, start, i).len() ==> written_line(
                #[trigger] clauses_from(t, w, start, i)[k],
            ),
    decreases t.len() - i,
{
    let n = t.len() as int;
    if i < 1 || i >= n - 1 || i <= start {
        lemma_writable_sub(t, start, n);
        lemma_wrap_written(t.subrange(start, n), w, 0);
        assert(clauses_from(t, w, start, i) == wrap_from(t.subrange(start, n), w, 0));
    } else if clause_start(t, i) {
        assert(clauses_from(t, w, start, i) == wrap(t.subrange(start, i), w) + clauses_from(
            t,
            w,
            i,
            i + 1,
        ));
        lemma_writable_sub(t, start, i);
        lemma_wrap_written(t.subrange(start, i), w, 0);
        lemma_clauses_written(t, w, i, i + 1);
        let left = wrap(t.subrange(start, i), w);
        let right = clauses_from(t, w, i, i + 1);
        assert forall|k: int| 0 <= k < clauses_from(t, w, start, i).len() implies written_line(
            #[trigger] clauses_from(t, w, start, i)[k],
        ) by {
            if k < left.len() {
                assert(clauses_from(t, w, start, i)[k] == left[k]);
            } else {
                assert(clauses_from(t, w, start, i)[k] == right[k - left.len()]);
            }
        }
    } else {
        lemma_clauses_written(t, w, start, i + 1);
        assert(clauses_from(t, w, start, i) == clauses_from(t, w, start, i + 1));
    }
}

proof fn lemma_spaced_flat(ps: Seq<Seq<char>>)
    ensures
        spaced_out(flat(ps)) == flat(ps.map_values(|p: Seq<char>| spaced_out(p))),
    decreases ps.len(),
{
    let m = ps.map_values(|p: Seq<char>| spaced_out(p));
    if ps.len() == 0 {
        assert(spaced_out(flat(ps)) =~= flat(m));
    } else {
        lemma_spaced_flat(ps.drop_last());
        assert(m.drop_last() =~= ps.drop_last().map_values(|p: Seq<char>| spaced_out(p)));
        assert(spaced_out(flat(ps.drop_last()) + ps.last()) =~= spaced_out(flat(ps.drop_last()))
            + spaced_out(ps.last()));
    }
}

/// With its line feeds turned into spaces, a layout is still a layout of
/// the same tokens, setting apart the same ones.
proof fn lemma_spaced_layout(ps: Seq<Seq<char>>, t: Seq<Lexeme>)
    requires
        laid_as(ps, t),
        writable(t),
    ensures
        laid_as(ps.map_values(|p: Seq<char>| spaced_out(p)), t),
        respaced(t, ps.map_values(|p: Seq<char>| spaced_out(p))) == respaced(t, ps),
{
    let m = ps.map_values(|p: Seq<char>| spaced_out(p));
    assert forall|k: int| 0 <= k < t.len() implies spaced_out(#[trigger] t[k].text) == t[k].text by {
        assert(nl_free(t[k].text));
        assert(spaced_out(t[k].text) =~= t[k].text);
    }
    assert forall|k: int| 0 <= k < t.len() implies (#[trigger] m[k] != t[k].text) == (ps[k] != t[k].text) && (
        k > 0 ==> m[k] == t[k].text || m[k] == seq![' '] + t[k].text) && (k == 0 ==> m[k] == t[k].text) by {
        assert(spaced_out(t[k].text) == t[k].text);
        if k == 0 {
            assert(ps[0] == t[0].text);
        } else {
            assert(piece_ok(ps, t, k));
            if ps[k] == seq![' '] + t[k].text || ps[k] == seq!['\n'] + t[k].text {
                assert(m[k] =~= seq![' '] + t[k].text);
                assert(m[k].len() == t[k].text.len() + 1);
            }
        }
    }
    assert forall|k: int| 1 <= k < t.len() implies #[trigger] piece_ok(m, t, k) by {
        assert(piece_ok(ps, t, k));
        assert((m[k] != t[k].text) == (ps[k] != t[k].text));
    }
    assert(respaced(t, m) =~= respaced(t, ps));
}

/// The read-back tokens of a stretch that holds no clause start but
/// perhaps its first are laid out alike to the tokens they came from.
proof fn lemma_respaced_alike(t: Seq<Lexeme>, ps: Seq<Seq<char>>, ex: Set<int>, a: int, b: int)
    requires
        0 <= a < b <= t.len(),
        ps.len() == t.len(),
        range_keeps(ps, t, 0, t.len() as int, ex),
        forall|k: int| a < k < b ==> !ex.contains(k),
    ensures
        alike(respaced(t, ps).subrange(a, b), t.subrange(a, b)),
{
    let u = respaced(t, ps).subrange(a, b);
    let v = t.subrange(a, b);
    assert forall|k: int| 0 <= k < u.len() implies #[trigger] same_token(u, v, k) by {
        assert(u[k] == respaced(t, ps)[a + k]);
        assert(v[k] == t[a + k]);
    }
    assert forall|j: int| 0 < j < u.len() implies #[trigger] gap(u, j) == gap(v, j) by {
        assert(same_token(u, v, j));
        assert(same_token(u, v, j - 1));
        if j >= 2 {
            assert(same_token(u, v, j - 2));
        }
        if source_spaced(v[j - 1], v[j]) {
            lemma_source_spaced_gap(v, j);
            lemma_source_spaced_gap(u, j);
            assert(keeps_spacing(ps, t, 0, a + j));
            assert(u[j].spaced == (ps[a + j] != t[a + j].text));
        }
    }
}

proof fn lemma_clauses_alike(u: Seq<Lexeme>, v: Seq<Lexeme>, w: nat, start: int, i: int)
    requires
        u.len() == v.len(),
        forall|k: int| 0 <= k < u.len() ==> #[trigger] same_token(u, v, k),
        forall|a: int, b: int|
            0 <= a < b <= u.len() && (forall|k: int| a < k < b ==> !clause_start(v, k)) ==> #[trigger] alike(
                u.subrange(a, b),
                v.subrange(a, b),
            ),
        0 <= start < u.len(),
        start < i,
        forall|k: int| start < k < i ==> !clause_start(v, k),
    ensures
        clauses_from(u, w, start, i) == clauses_from(v, w, start, i),
    decreases u.len() - i,
{
    let n = u.len() as int;
    if i >= 1 && i < n - 1 {
        assert(same_token(u, v, i));
        assert(same_token(u, v, i - 1));
        assert(same_token(u, v, i + 1));
        assert(clause_start(u, i) == clause_start(v, i));
    }
    if i < 1 || i >= n - 1 || i <= start {
        assert(alike(u.subrange(start, n), v.subrange(start, n)));
        lemma_wrap_alike(u.subrange(start, n), v.subrange(start, n), w, 0);
    } else if clause_start(v, i) {
        assert(alike(u.subrange(start, i), v.subrange(start, i)));
        lemma_wrap_alike(u.subrange(start, i), v.subrange(start, i), w, 0);
        lemma_clauses_alike(u, v, w, i, i + 1);
    } else {
        lemma_clauses_alike(u, v, w, start, i + 1);
    }
}

/// Reflowing is idempotent: a reflowed equation, reflowed again, comes
/// back as it is, in either style and at any width, as long as none of its
/// lines ends in whitespace. A line can end in whitespace only where it
/// ends in a control symbol made of a backslash and a blank: joining the
/// lines again turns a control tab into a control space, and glues the
/// token after a control space to it, so that the break after it is no
/// longer legal (`aaaaaaaaaaaaaaaaaa\  1 b c`, compact at width 20, is one
/// such equation). An equation the layout pass leaves alone is left alone
/// again.
pub proof fn law_reflowing_twice_is_reflowing_once(input: Seq<char>, style: MathStyle, width: nat)
    ensures
        ({
            let out = display_math(input, style, width);
            out == input || clean_ends(out) ==> display_math(out, style, width) == out
        }),
{
    let out = display_math(input, style, width);
    if out != input && clean_ends(out) {
        let j = joined(input);
        let t = tokenize(j);
        lemma_tokenize_well_read(j);
        crate::laws::lemma_joined_is_one_line(input);
        crate::laws::lemma_tokens_well(j, 0, false, seq![]);
        assert(writable(t)) by {
            reveal(whole);
            assert forall|k: int| 0 <= k < t.len() implies #[trigger] t[k].text.len() > 0 && nl_free(
                t[k].text,
            ) && !is_ws(t[k].text[0]) by {
                assert(whole(t[k].text));
            }
        }
        let ls = display_lines(t, style, width);
        let ex = match style {
            MathStyle::Readable => clause_starts(t),
            MathStyle::Compact => Set::<int>::empty(),
        };
        let ps = match style {
            MathStyle::Readable => {
                lemma_clauses_written(t, width, 0, 1);
                lemma_clauses_laid(t, width, 0, 1)
            },
            MathStyle::Compact => {
                lemma_wrap_written(t, width, 0);
                lemma_wrap_laid(t, width, 0)
            },
        };
        assert(out == join_lines(ls));
        assert(out == flat(ps));
        assert(range_keeps(ps, t, 0, t.len() as int, ex));
        assert(laid_as(ps, t)) by {
            assert forall|k: int| 1 <= k < t.len() implies #[trigger] piece_ok(ps, t, k) by {
                assert(range_piece(ps, t, 0, k));
            }
        }
        assert(ls.len() > 0);
        lemma_clean_lines(ls);
        lemma_joined_of_layout(ls);
        let m = ps.map_values(|p: Seq<char>| spaced_out(p));
        lemma_spaced_flat(ps);
        lemma_spaced_layout(ps, t);
        lemma_tokenize_layout(m, t);
        let t2 = tokenize(joined(out));
        assert(t2 == respaced(t, ps));
        match style {
            MathStyle::Readable => {
                assert forall|k: int| 0 <= k < t2.len() implies #[trigger] same_token(t2, t, k) by {}
                assert forall|a: int, b: int|
                    0 <= a < b <= t2.len() && (forall|k: int| a < k < b ==> !clause_start(t, k)) implies #[trigger] alike(
                    t2.subrange(a, b),
                    t.subrange(a, b),
                ) by {
                    lemma_respaced_alike(t, ps, ex, a, b);
                }
                lemma_clauses_alike(t2, t, width, 0, 1);
            },
            MathStyle::Compact => {
                lemma_respaced_alike(t, ps, ex, 0, t.len() as int);
                assert(t2.subrange(0, t2.len() as int) =~= t2);
                assert(t.subrange(0, t.len() as int) =~= t);
                lemma_wrap_alike(t2, t, width, 0);
            },
        }
        assert(join_lines(display_lines(t2, style, width)) == out);
    }
}

} // verus!
