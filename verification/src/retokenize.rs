//! Reflowing an equation keeps its tokens: read back, the laid-out lines
//! give the same control words, groups, letters, and symbols in the same
//! order, so no control word runs into a following letter and no group is
//! split or merged.
use vstd::prelude::*;

use crate::math::{
    alnum_end, alpha_end, alphanumeric, group_end, is_operator_char, kind_of,
    lemma_group_end, lemma_token_end, opens, tight_after, tight_before, token_end, tokens_acc,
    Kind, Lexeme, clause_start, clauses_from, display_math, gap, join_lines, joined,
    next_break, render, tokenize, wrap, wrap_from, best_fit, legal, lemma_best_fit_range,
    spaced_word,
};
use crate::MathStyle;
use crate::roundtrip::{flat, lemma_flat_front};
use crate::text::{is_ascii_alpha, is_ws};

verus! {

// ---------------------------------------------------------------------------
// Scanners, read locally
// ---------------------------------------------------------------------------

/// Whether the group scan from `p`, with `depth` braces open, closes them
/// all before the text ends.
pub open spec fn group_closes(s: Seq<char>, p: int, depth: nat) -> bool
    decreases s.len() - p,
{
    if depth == 0 {
        true
    } else if p < 0 || p >= s.len() {
        false
    } else if s[p] == '\\' {
        if p + 1 < s.len() && (s[p + 1] == '{' || s[p + 1] == '}') {
            group_closes(s, p + 2, depth)
        } else {
            group_closes(s, p + 1, depth)
        }
    } else if s[p] == '{' {
        group_closes(s, p + 1, depth + 1)
    } else if s[p] == '}' {
        group_closes(s, p + 1, (depth - 1) as nat)
    } else {
        group_closes(s, p + 1, depth)
    }
}

/// The group scan reads the same whatever stands before the text.
proof fn lemma_group_shift(a: Seq<char>, s: Seq<char>, p: int, d: nat)
    requires
        0 <= p <= s.len(),
    ensures
        group_end(a + s, a.len() + p, d) == a.len() + group_end(s, p, d),
        group_closes(a + s, a.len() + p, d) == group_closes(s, p, d),
    decreases s.len() - p,
{
    let t = a + s;
    let q = a.len() + p;
    if d == 0 || p >= s.len() {
    } else {
        assert(t[q] == s[p]);
        if s[p] == '\\' {
            if p + 1 < s.len() {
                assert(t[q + 1] == s[p + 1]);
            }
            if p + 1 < s.len() && (s[p + 1] == '{' || s[p + 1] == '}') {
                lemma_group_shift(a, s, p + 2, d);
            } else {
                lemma_group_shift(a, s, p + 1, d);
            }
        } else if s[p] == '{' {
            lemma_group_shift(a, s, p + 1, d + 1);
        } else if s[p] == '}' {
            lemma_group_shift(a, s, p + 1, (d - 1) as nat);
        } else {
            lemma_group_shift(a, s, p + 1, d);
        }
    }
}

/// A group that closes within the text closes at the same place whatever
/// follows the text.
proof fn lemma_group_extend(s: Seq<char>, b: Seq<char>, p: int, d: nat)
    requires
        0 <= p <= s.len(),
        group_closes(s, p, d),
    ensures
        group_end(s + b, p, d) == group_end(s, p, d),
        group_closes(s + b, p, d),
    decreases s.len() - p,
{
    let t = s + b;
    if d > 0 && p < s.len() {
        assert(t[p] == s[p]);
        if s[p] == '\\' {
            if p + 1 < s.len() {
                assert(t[p + 1] == s[p + 1]);
                if s[p + 1] == '{' || s[p + 1] == '}' {
                    lemma_group_extend(s, b, p + 2, d);
                } else {
                    lemma_group_extend(s, b, p + 1, d);
                }
            } else {
                assert(!group_closes(s, p + 1, d));
            }
        } else if s[p] == '{' {
            lemma_group_extend(s, b, p + 1, d + 1);
        } else if s[p] == '}' {
            lemma_group_extend(s, b, p + 1, (d - 1) as nat);
        } else {
            lemma_group_extend(s, b, p + 1, d);
        }
    }
}

proof fn lemma_group_advances(s: Seq<char>, p: int, d: nat)
    requires
        0 <= p < s.len(),
        d > 0,
    ensures
        group_end(s, p, d) > p,
{
    if s[p] == '\\' && p + 1 < s.len() && (s[p + 1] == '{' || s[p + 1] == '}') {
        lemma_group_end(s, p + 2, d);
    } else if s[p] == '{' {
        lemma_group_end(s, p + 1, d + 1);
    } else if s[p] == '}' {
        lemma_group_end(s, p + 1, (d - 1) as nat);
    } else {
        lemma_group_end(s, p + 1, d);
    }
}

/// A group that closes before the text ends closes within any prefix that
/// holds it.
proof fn lemma_group_truncate(s: Seq<char>, b: Seq<char>, p: int, d: nat)
    requires
        0 <= p <= s.len(),
        group_closes(s + b, p, d),
        group_end(s + b, p, d) <= s.len(),
    ensures
        group_end(s, p, d) == group_end(s + b, p, d),
        group_closes(s, p, d),
    decreases s.len() - p,
{
    let t = s + b;
    if d > 0 {
        if p >= s.len() {
            lemma_group_advances(t, p, d);
        } else {
            assert(t[p] == s[p]);
            if s[p] == '\\' {
                if p + 1 < s.len() {
                    assert(t[p + 1] == s[p + 1]);
                    if s[p + 1] == '{' || s[p + 1] == '}' {
                        lemma_group_truncate(s, b, p + 2, d);
                    } else {
                        lemma_group_truncate(s, b, p + 1, d);
                    }
                } else if p + 1 < t.len() && (t[p + 1] == '{' || t[p + 1] == '}') {
                    lemma_group_end(t, p + 2, d);
                } else {
                    lemma_group_truncate(s, b, p + 1, d);
                }
            } else if s[p] == '{' {
                lemma_group_truncate(s, b, p + 1, d + 1);
            } else if s[p] == '}' {
                lemma_group_truncate(s, b, p + 1, (d - 1) as nat);
            } else {
                lemma_group_truncate(s, b, p + 1, d);
            }
        }
    }
}

/// A run of alphanumeric characters ends at the first that is not one.
proof fn lemma_alnum_end_at(s: Seq<char>, p: int, e: int)
    requires
        0 <= p <= e <= s.len(),
        forall|k: int| p <= k < e ==> alphanumeric(#[trigger] s[k]),
        e == s.len() || !alphanumeric(s[e]),
    ensures
        alnum_end(s, p) == e,
    decreases e - p,
{
    if p < e {
        lemma_alnum_end_at(s, p + 1, e);
    }
}

proof fn lemma_alnum_end_run(s: Seq<char>, p: int)
    requires
        0 <= p <= s.len(),
    ensures
        p <= alnum_end(s, p) <= s.len(),
        forall|k: int| p <= k < alnum_end(s, p) ==> alphanumeric(#[trigger] s[k]),
        alnum_end(s, p) == s.len() || !alphanumeric(s[alnum_end(s, p)]),
    decreases s.len() - p,
{
    if p < s.len() && alphanumeric(s[p]) {
        lemma_alnum_end_run(s, p + 1);
    }
}

/// A run of ASCII letters ends at the first character that is not one.
proof fn lemma_alpha_end_at(s: Seq<char>, p: int, e: int)
    requires
        0 <= p <= e <= s.len(),
        forall|k: int| p <= k < e ==> is_ascii_alpha(#[trigger] s[k]),
        e == s.len() || !is_ascii_alpha(s[e]),
    ensures
        alpha_end(s, p) == e,
    decreases e - p,
{
    if p < e {
        lemma_alpha_end_at(s, p + 1, e);
    }
}

proof fn lemma_alpha_end_run(s: Seq<char>, p: int)
    requires
        0 <= p <= s.len(),
    ensures
        p <= alpha_end(s, p) <= s.len(),
        forall|k: int| p <= k < alpha_end(s, p) ==> is_ascii_alpha(#[trigger] s[k]),
        alpha_end(s, p) == s.len() || !is_ascii_alpha(s[alpha_end(s, p)]),
    decreases s.len() - p,
{
    if p < s.len() && is_ascii_alpha(s[p]) {
        lemma_alpha_end_run(s, p + 1);
    }
}

// ---------------------------------------------------------------------------
// Whole tokens
// ---------------------------------------------------------------------------

/// A text the tokenizer reads as one token when nothing runs on after it:
/// a control word, a control symbol, a braced group, an operator, a run of
/// letters and digits, or one other character.
#[verifier::opaque]
pub open spec fn whole(x: Seq<char>) -> bool {
    &&& x.len() > 0
    &&& !is_ws(x[0])
    &&& if x[0] == '\\' {
        x.len() == 1 || (x.len() == 2 && !is_ascii_alpha(x[1])) || (x.len() >= 2 && forall|k: int|
            1 <= k < x.len() ==> is_ascii_alpha(#[trigger] x[k]))
    } else if x[0] == '{' {
        group_end(x, 1, 1) == x.len()
    } else if is_operator_char(x[0]) {
        x.len() == 1
    } else if alphanumeric(x[0]) {
        forall|k: int| 0 <= k < x.len() ==> alphanumeric(#[trigger] x[k])
    } else {
        x.len() == 1
    }
}

/// Whether the token would take in a character `c` written right after it.
#[verifier::opaque]
pub open spec fn runs_into(x: Seq<char>, c: char) -> bool {
    if x[0] == '\\' {
        x.len() == 1 || (is_ascii_alpha(x[1]) && is_ascii_alpha(c))
    } else if x[0] == '{' {
        !group_closes(x, 1, 1)
    } else if is_operator_char(x[0]) {
        false
    } else if alphanumeric(x[0]) {
        alphanumeric(c)
    } else {
        false
    }
}

/// A token that can be followed by anything that is neither a letter nor a
/// digit: not a lone backslash, and not a group left open.
#[verifier::opaque]
pub open spec fn ends(x: Seq<char>) -> bool {
    &&& !(x[0] == '\\' && x.len() == 1)
    &&& (x[0] == '{' ==> group_closes(x, 1, 1))
}

proof fn lemma_group_open_runs_to_end(s: Seq<char>, p: int, d: nat)
    requires
        0 <= p <= s.len(),
        !group_closes(s, p, d),
    ensures
        group_end(s, p, d) == s.len(),
    decreases s.len() - p,
{
    if d > 0 && p < s.len() {
        if s[p] == '\\' {
            if p + 1 < s.len() && (s[p + 1] == '{' || s[p + 1] == '}') {
                lemma_group_open_runs_to_end(s, p + 2, d);
            } else {
                lemma_group_open_runs_to_end(s, p + 1, d);
            }
        } else if s[p] == '{' {
            lemma_group_open_runs_to_end(s, p + 1, d + 1);
        } else if s[p] == '}' {
            lemma_group_open_runs_to_end(s, p + 1, (d - 1) as nat);
        } else {
            lemma_group_open_runs_to_end(s, p + 1, d);
        }
    }
}

/// A whole token, written at `pos`, is read back whole, unless it would run
/// into the character written after it.
pub(crate) proof fn lemma_token_end_local(out: Seq<char>, pos: int, x: Seq<char>)
    requires
        0 <= pos,
        pos + x.len() <= out.len(),
        out.subrange(pos, pos + x.len()) == x,
        whole(x),
        pos + x.len() < out.len() ==> !runs_into(x, out[pos + x.len()]),
    ensures
        token_end(out, pos) == pos + x.len(),
{
    reveal(whole);
    reveal(runs_into);
    let n = x.len() as int;
    assert(out[pos] == x[0]);
    if x[0] == '\\' {
        if n == 1 {
        } else {
            assert(out[pos + 1] == x[1]);
            if is_ascii_alpha(x[1]) {
                assert forall|k: int| pos + 1 <= k < pos + n implies is_ascii_alpha(#[trigger] out[k]) by {
                    assert(out[k] == x[k - pos]);
                }
                lemma_alpha_end_at(out, pos + 1, pos + n);
            }
        }
    } else if x[0] == '{' {
        let pre = out.subrange(0, pos);
        let rest = out.subrange(pos + n, out.len() as int);
        assert(out =~= pre + (x + rest));
        if group_closes(x, 1, 1) {
            lemma_group_extend(x, rest, 1, 1);
        } else {
            assert(rest =~= Seq::<char>::empty());
            assert(x + rest =~= x);
        }
        lemma_group_shift(pre, x + rest, 1, 1);
    } else if is_operator_char(x[0]) {
    } else if alphanumeric(x[0]) {
        assert forall|k: int| pos + 1 <= k < pos + n implies alphanumeric(#[trigger] out[k]) by {
            assert(out[k] == x[k - pos]);
        }
        lemma_alnum_end_at(out, pos + 1, pos + n);
    }
}

/// What the tokenizer reads at `pos` is whole, and it ends where it does
/// because the next character would not run on from it.
proof fn lemma_read_whole(s: Seq<char>, pos: int)
    requires
        0 <= pos < s.len(),
        !is_ws(s[pos]),
    ensures
        ({
            let e = token_end(s, pos);
            let x = s.subrange(pos, e);
            &&& pos < e <= s.len()
            &&& whole(x)
            &&& e < s.len() ==> ends(x) && !runs_into(x, s[e])
        }),
{
    reveal(whole);
    reveal(runs_into);
    reveal(ends);
    lemma_token_end(s, pos);
    let e = token_end(s, pos);
    let x = s.subrange(pos, e);
    assert(x[0] == s[pos]);
    if s[pos] == '\\' {
        if pos + 1 < s.len() {
            lemma_alpha_end_run(s, pos + 1);
            if is_ascii_alpha(s[pos + 1]) {
                lemma_alpha_end_run(s, pos + 2);
                assert(e >= pos + 2);
            }
            assert(x[1] == s[pos + 1]);
            if is_ascii_alpha(s[pos + 1]) {
                assert forall|k: int| 1 <= k < x.len() implies is_ascii_alpha(#[trigger] x[k]) by {
                    assert(x[k] == s[pos + k]);
                }
            }
        }
    } else if s[pos] == '{' {
        let pre = s.subrange(0, pos);
        let rest = s.subrange(e, s.len() as int);
        assert(s =~= pre + (x + rest));
        lemma_group_shift(pre, x + rest, 1, 1);
        lemma_group_end(x + rest, 1, 1);
        if group_closes(s, pos + 1, 1) {
            lemma_group_truncate(x, rest, 1, 1);
        } else {
            lemma_group_open_runs_to_end(s, pos + 1, 1);
            assert(rest =~= Seq::<char>::empty());
            assert(x + rest =~= x);
        }
    } else if is_operator_char(s[pos]) {
    } else if alphanumeric(s[pos]) {
        lemma_alnum_end_run(s, pos + 1);
        assert forall|k: int| 0 <= k < x.len() implies alphanumeric(#[trigger] x[k]) by {
            assert(x[k] == s[pos + k]);
        }
    }
}

// ---------------------------------------------------------------------------
// What the tokenizer reads
// ---------------------------------------------------------------------------

pub open spec fn texts(t: Seq<Lexeme>) -> Seq<Seq<char>> {
    t.map_values(|l: Lexeme| l.text)
}

/// Tokens as the tokenizer reads them: each whole and of the kind its
/// first character gives, each but the last able to end, and none running
/// on from a token written right before it.
pub open spec fn well_read(t: Seq<Lexeme>) -> bool {
    &&& forall|k: int| 0 <= k < t.len() ==> whole(#[trigger] t[k].text) && t[k].kind == kind_of(t[k].text[0])
    &&& forall|k: int| 0 <= k < t.len() - 1 ==> ends(#[trigger] t[k].text)
    &&& forall|k: int| 1 <= k < t.len() ==> #[trigger] follows_on(t, k)
}

/// Token `k` was written apart from the one before it, or does not let it
/// run on.
pub open spec fn follows_on(t: Seq<Lexeme>, k: int) -> bool {
    t[k].spaced || !runs_into(t[k - 1].text, t[k].text[0])
}

proof fn lemma_push_read(acc: Seq<Lexeme>, tok: Lexeme)
    requires
        well_read(acc),
        whole(tok.text),
        tok.kind == kind_of(tok.text[0]),
        acc.len() > 0 ==> ends(acc.last().text),
        acc.len() > 0 && !tok.spaced ==> !runs_into(acc.last().text, tok.text[0]),
    ensures
        well_read(acc.push(tok)),
{
    let acc2 = acc.push(tok);
    assert forall|k: int| 0 <= k < acc2.len() implies whole(#[trigger] acc2[k].text) && acc2[k].kind
        == kind_of(acc2[k].text[0]) by {
        if k < acc.len() {
            assert(acc2[k] == acc[k]);
        }
    }
    assert forall|k: int| 0 <= k < acc2.len() - 1 implies ends(#[trigger] acc2[k].text) by {
        assert(acc2[k] == acc[k]);
        if k == acc.len() - 1 {
            assert(acc[k] == acc.last());
        }
    }
    assert forall|k: int| 1 <= k < acc2.len() implies #[trigger] follows_on(acc2, k) by {
        assert(acc2[k - 1] == acc[k - 1]);
        if k < acc.len() {
            assert(acc2[k] == acc[k]);
            assert(follows_on(acc, k));
        } else {
            assert(acc[k - 1] == acc.last());
        }
    }
}

proof fn lemma_tokens_read(s: Seq<char>, pos: int, spaced: bool, acc: Seq<Lexeme>, prev_end: int)
    requires
        0 <= pos <= s.len(),
        0 <= prev_end <= pos,
        well_read(acc),
        acc.len() > 0 && prev_end < s.len() ==> ends(acc.last().text) && !runs_into(
            acc.last().text,
            s[prev_end],
        ),
        acc.len() > 0 && !spaced ==> pos == prev_end,
    ensures
        well_read(tokens_acc(s, pos, spaced, acc)),
    decreases s.len() - pos,
{
    if pos < s.len() {
        if is_ws(s[pos]) {
            lemma_tokens_read(s, pos + 1, true, acc, prev_end);
        } else {
            lemma_read_whole(s, pos);
            let e = token_end(s, pos);
            let x = s.subrange(pos, e);
            assert(x[0] == s[pos]);
            let tok = Lexeme { text: x, kind: kind_of(s[pos]), spaced };
            lemma_push_read(acc, tok);
            lemma_tokens_read(s, e, false, acc.push(tok), e);
        }
    }
}

/// The tokens of any text are well read.
pub(crate) proof fn lemma_tokenize_well_read(s: Seq<char>)
    ensures
        well_read(crate::math::tokenize(s)),
{
    lemma_tokens_read(s, 0, false, seq![], 0);
}

// ---------------------------------------------------------------------------
// Reading a layout back
// ---------------------------------------------------------------------------

/// Two tokens the layout may write with nothing between them.
pub open spec fn joinable(prev: Lexeme, cur: Lexeme) -> bool {
    ||| cur.kind == Kind::Operator && opens(prev.text)
    ||| prev.kind == Kind::Operator
    ||| tight_before(cur.text)
    ||| tight_after(prev.text)
    ||| cur.kind == Kind::Group && prev.kind == Kind::Command
    ||| !cur.spaced
}

/// Piece `k` of a layout: token `k`'s text, right after the token before
/// it where the two may be joined, or after a space or a line feed.
pub open spec fn piece_ok(ps: Seq<Seq<char>>, t: Seq<Lexeme>, k: int) -> bool {
    ||| ps[k] == t[k].text && joinable(t[k - 1], t[k])
    ||| ps[k] == seq![' '] + t[k].text
    ||| ps[k] == seq!['\n'] + t[k].text
}

/// The pieces lay the tokens out, one piece per token.
pub open spec fn laid_as(ps: Seq<Seq<char>>, t: Seq<Lexeme>) -> bool {
    &&& ps.len() == t.len()
    &&& t.len() > 0 ==> ps[0] == t[0].text
    &&& forall|k: int| 1 <= k < t.len() ==> #[trigger] piece_ok(ps, t, k)
}

proof fn lemma_ascii_apart(c: char)
    requires
        (c as u32) < 128,
        !is_ascii_alpha(c),
        !crate::text::is_digit(c),
    ensures
        !alphanumeric(c),
{
}

/// Tokens the layout joins do not run together.
pub(crate) proof fn lemma_joinable_safe(t: Seq<Lexeme>, k: int)
    requires
        well_read(t),
        1 <= k < t.len(),
        joinable(t[k - 1], t[k]),
    ensures
        !runs_into(t[k - 1].text, t[k].text[0]),
{
    reveal(runs_into);
    reveal(ends);
    reveal(whole);
    let prev = t[k - 1];
    let cur = t[k];
    assert(whole(prev.text) && prev.kind == kind_of(prev.text[0]));
    assert(whole(cur.text) && cur.kind == kind_of(cur.text[0]));
    assert(ends(prev.text));
    assert(follows_on(t, k));
    let c = cur.text[0];
    let x = prev.text;
    if !cur.spaced {
    } else if prev.kind == Kind::Operator {
    } else if cur.kind == Kind::Operator && opens(x) {
        lemma_ascii_apart(x[0]);
    } else if tight_after(x) {
        lemma_ascii_apart(x[0]);
    } else if tight_before(cur.text) {
        lemma_ascii_apart(c);
    } else {
        assert(c == '{');
        assert(x[0] == '\\');
    }
}

/// A token that can end is not run into by a space or a line feed.
pub(crate) proof fn lemma_separator_safe(x: Seq<char>)
    requires
        whole(x),
        ends(x),
    ensures
        !runs_into(x, ' '),
        !runs_into(x, '\n'),
{
    reveal(runs_into);
    reveal(ends);
    reveal(whole);
    lemma_ascii_apart(' ');
    lemma_ascii_apart('\n');
}

pub(crate) proof fn lemma_flat_concat(a: Seq<Seq<char>>, b: Seq<Seq<char>>)
    ensures
        flat(a + b) == flat(a) + flat(b),
    decreases b.len(),
{
    if b.len() == 0 {
        assert(a + b =~= a);
        assert(flat(a) + flat(b) =~= flat(a));
    } else {
        lemma_flat_concat(a, b.drop_last());
        assert((a + b).drop_last() =~= a + b.drop_last());
        assert((a + b).last() == b.last());
        assert(flat(a + b) =~= flat(a) + flat(b));
    }
}

pub(crate) proof fn lemma_flat_at(ps: Seq<Seq<char>>, k: int)
    requires
        0 <= k < ps.len(),
    ensures
        flat(ps) == flat(ps.take(k)) + ps[k] + flat(ps.skip(k + 1)),
        flat(ps.take(k + 1)) == flat(ps.take(k)) + ps[k],
{
    assert(ps =~= ps.take(k) + (seq![ps[k]] + ps.skip(k + 1)));
    lemma_flat_concat(ps.take(k), seq![ps[k]] + ps.skip(k + 1));
    lemma_flat_front(ps[k], ps.skip(k + 1));
    assert(ps.take(k + 1).drop_last() =~= ps.take(k));
    assert(ps.take(k + 1).last() == ps[k]);
}

proof fn lemma_retokenize(
    out: Seq<char>,
    ps: Seq<Seq<char>>,
    t: Seq<Lexeme>,
    k: int,
    sp: bool,
    acc: Seq<Lexeme>,
)
    requires
        well_read(t),
        laid_as(ps, t),
        out == flat(ps),
        0 <= k <= t.len(),
        texts(acc) == texts(t).take(k),
    ensures
        texts(tokens_acc(out, flat(ps.take(k)).len() as int, sp, acc)) == texts(t),
    decreases t.len() - k,
{
    let pk = flat(ps.take(k)).len() as int;
    if k == t.len() {
        assert(ps.take(k) =~= ps);
        assert(texts(t).take(k) =~= texts(t));
    } else {
        lemma_flat_at(ps, k);
        let x = t[k].text;
        reveal(whole);
        assert(whole(x));
        assert(out.subrange(pk, pk + ps[k].len()) =~= ps[k]);
        let pos = if ps[k] == x {
            pk
        } else {
            pk + 1
        };
        if k > 0 {
            assert(piece_ok(ps, t, k));
        }
        assert(ps[k] == x || ps[k] == seq![' '] + x || ps[k] == seq!['\n'] + x);
        assert(out.subrange(pos, pos + x.len()) =~= x) by {
            assert forall|j: int| 0 <= j < x.len() implies out.subrange(pos, pos + x.len())[j] == x[j] by {
                assert(out[pos + j] == ps[k][pos + j - pk]);
            }
        }
        let next = pk + ps[k].len();
        assert(next == pos + x.len());
        if next < out.len() {
            assert(k + 1 < t.len()) by {
                if k + 1 == t.len() {
                    assert(ps.skip(k + 1) =~= Seq::<Seq<char>>::empty());
                }
            }
            lemma_flat_at(ps, k + 1);
            assert(ps.skip(k + 1) =~= seq![ps[k + 1]] + ps.skip(k + 2));
            lemma_flat_front(ps[k + 1], ps.skip(k + 2));
            assert(piece_ok(ps, t, k + 1));
            assert(whole(t[k + 1].text));
            assert(out[next] == ps[k + 1][0]);
            if ps[k + 1] == t[k + 1].text {
                lemma_joinable_safe(t, k + 1);
            } else {
                assert(ends(x));
                lemma_separator_safe(x);
            }
        }
        lemma_token_end_local(out, pos, x);
        let tok = Lexeme { text: out.subrange(pos, pos + x.len()), kind: kind_of(out[pos]), spaced: if pos
            == pk {
            sp
        } else {
            true
        } };
        assert(tok.text == x);
        assert(texts(acc.push(tok)) =~= texts(acc).push(x));
        assert(texts(t).take(k + 1) =~= texts(t).take(k).push(x));
        assert(out[pos] == x[0]);
        assert(!is_ws(out[pos]));
        assert(tokens_acc(out, pos, tok.spaced, acc) == tokens_acc(out, next, false, acc.push(tok)));
        if pos == pk + 1 {
            assert(out[pk] == ps[k][0]);
            assert(is_ws(out[pk]));
            assert(tokens_acc(out, pk, sp, acc) == tokens_acc(out, pk + 1, true, acc));
        }
        assert(flat(ps.take(k + 1)).len() == next);
        lemma_retokenize(out, ps, t, k + 1, false, acc.push(tok));
    }
}

// ---------------------------------------------------------------------------
// What the layout writes
// ---------------------------------------------------------------------------

/// Piece `j` of a layout of tokens `a..`, as `piece_ok` says of a whole
/// layout.
pub open spec fn range_piece(ps: Seq<Seq<char>>, t: Seq<Lexeme>, a: int, j: int) -> bool {
    ||| ps[j] == t[a + j].text && joinable(t[a + j - 1], t[a + j])
    ||| ps[j] == seq![' '] + t[a + j].text
    ||| ps[j] == seq!['\n'] + t[a + j].text
}

/// The pieces lay out tokens `a..b`.
pub open spec fn range_ok(ps: Seq<Seq<char>>, t: Seq<Lexeme>, a: int, b: int) -> bool {
    &&& ps.len() == b - a
    &&& b > a ==> ps[0] == t[a].text
    &&& forall|j: int| 1 <= j < b - a ==> #[trigger] range_piece(ps, t, a, j)
}

/// Where the layout leaves no space between two tokens, they may be joined.
proof fn lemma_no_gap_joinable(t: Seq<Lexeme>, i: int)
    requires
        0 < i < t.len(),
        !gap(t, i),
    ensures
        joinable(t[i - 1], t[i]),
{
}

/// Neighbours whose spacing the layout takes from the source: set apart
/// exactly where whitespace separated them there.
pub open spec fn source_spaced(prev: Lexeme, cur: Lexeme) -> bool {
    &&& cur.kind != Kind::Operator
    &&& prev.kind != Kind::Operator
    &&& !tight_before(cur.text)
    &&& !tight_after(prev.text)
    &&& !(cur.kind == Kind::Group && prev.kind == Kind::Command)
    &&& !spaced_word(cur.text)
    &&& !(prev.kind == Kind::Command && cur.text.len() > 0 && is_ascii_alpha(cur.text[0]))
}

/// Piece `j` of a layout of tokens `a..` separates its token from the one
/// before it exactly where the source did, if that spacing is the
/// source's to give.
pub open spec fn keeps_spacing(ps: Seq<Seq<char>>, t: Seq<Lexeme>, a: int, j: int) -> bool {
    source_spaced(t[a + j - 1], t[a + j]) ==> ((ps[j] != t[a + j].text) == t[a + j].spaced)
}

/// Every piece of a layout of tokens `a..b` keeps the source's spacing,
/// but where its token's index is excluded.
pub open spec fn range_keeps(ps: Seq<Seq<char>>, t: Seq<Lexeme>, a: int, b: int, ex: Set<int>) -> bool {
    forall|j: int| 1 <= j < b - a && !ex.contains(a + j) ==> #[trigger] keeps_spacing(ps, t, a, j)
}

/// The indices where a new clause begins.
pub open spec fn clause_starts(t: Seq<Lexeme>) -> Set<int> {
    Set::new(|k: int| clause_start(t, k))
}

pub(crate) proof fn lemma_source_spaced_gap(t: Seq<Lexeme>, i: int)
    requires
        0 < i < t.len(),
        source_spaced(t[i - 1], t[i]),
    ensures
        gap(t, i) == t[i].spaced,
{
}

pub(crate) proof fn lemma_legal_gap(t: Seq<Lexeme>, p: int)
    requires
        legal(t, p),
    ensures
        gap(t, p),
{
}

pub open spec fn render_pieces(t: Seq<Lexeme>, a: int, b: int) -> Seq<Seq<char>> {
    Seq::new(
        (b - a) as nat,
        |j: int|
            if j > 0 && gap(t, a + j) {
                seq![' '] + t[a + j].text
            } else {
                t[a + j].text
            },
    )
}

proof fn lemma_render_pieces(t: Seq<Lexeme>, a: int, b: int)
    requires
        0 <= a < b <= t.len(),
    ensures
        render(t, a, b) == flat(render_pieces(t, a, b)),
        range_ok(render_pieces(t, a, b), t, a, b),
        range_keeps(render_pieces(t, a, b), t, a, b, Set::empty()),
    decreases b - a,
{
    let ps = render_pieces(t, a, b);
    assert forall|j: int| 1 <= j < b - a && !Set::<int>::empty().contains(a + j) implies #[trigger] keeps_spacing(
        ps,
        t,
        a,
        j,
    ) by {
        if source_spaced(t[a + j - 1], t[a + j]) {
            lemma_source_spaced_gap(t, a + j);
            if gap(t, a + j) {
                assert(ps[j].len() == t[a + j].text.len() + 1);
            }
        }
    }
    if b - 1 > a {
        lemma_render_pieces(t, a, b - 1);
        assert(ps.drop_last() =~= render_pieces(t, a, b - 1));
        let g = if b - 1 > a && gap(t, b - 1) {
            seq![' ']
        } else {
            Seq::<char>::empty()
        };
        assert(ps.last() =~= g + t[b - 1].text);
        assert(render(t, a, b) =~= flat(ps));
    } else {
        assert(ps.drop_last() =~= Seq::<Seq<char>>::empty());
        assert(flat(Seq::<Seq<char>>::empty()) =~= Seq::<char>::empty());
        assert(render(t, a, a) =~= Seq::<char>::empty());
        assert(render(t, a, b) =~= flat(ps));
    }
    assert forall|j: int| 1 <= j < b - a implies #[trigger] range_piece(ps, t, a, j) by {
        if !gap(t, a + j) {
            lemma_no_gap_joinable(t, a + j);
        }
    }
}

pub(crate) proof fn lemma_join_lines_concat(x: Seq<Seq<char>>, y: Seq<Seq<char>>)
    requires
        x.len() > 0,
        y.len() > 0,
    ensures
        join_lines(x + y) == join_lines(x) + seq!['\n'] + join_lines(y),
    decreases y.len(),
{
    let xy = x + y;
    if y.len() == 1 {
        assert(xy.drop_last() =~= x);
        assert(xy.last() == y[0]);
        assert(join_lines(xy) =~= join_lines(x) + seq!['\n'] + join_lines(y));
    } else {
        lemma_join_lines_concat(x, y.drop_last());
        assert(xy.drop_last() =~= x + y.drop_last());
        assert(xy.last() == y.last());
        assert(join_lines(xy) =~= join_lines(x) + seq!['\n'] + join_lines(y));
    }
}

/// Two layouts of consecutive ranges, the second begun on a new line.
proof fn lemma_range_concat(
    ps1: Seq<Seq<char>>,
    ps2: Seq<Seq<char>>,
    t: Seq<Lexeme>,
    a: int,
    m: int,
    b: int,
    ex: Set<int>,
)
    requires
        a < m < b,
        range_ok(ps1, t, a, m),
        range_ok(ps2, t, m, b),
        range_keeps(ps1, t, a, m, ex),
        range_keeps(ps2, t, m, b, ex),
        ex.contains(m) || (source_spaced(t[m - 1], t[m]) ==> t[m].spaced),
    ensures
        range_ok(ps1 + ps2.update(0, seq!['\n'] + ps2[0]), t, a, b),
        range_keeps(ps1 + ps2.update(0, seq!['\n'] + ps2[0]), t, a, b, ex),
        flat(ps1 + ps2.update(0, seq!['\n'] + ps2[0])) == flat(ps1) + seq!['\n'] + flat(ps2),
{
    let q = ps2.update(0, seq!['\n'] + ps2[0]);
    let ps = ps1 + q;
    assert forall|j: int| 1 <= j < b - a && !ex.contains(a + j) implies #[trigger] keeps_spacing(
        ps,
        t,
        a,
        j,
    ) by {
        if j < m - a {
            assert(ps[j] == ps1[j]);
            assert(keeps_spacing(ps1, t, a, j));
        } else if j == m - a {
            assert(ps[j] == seq!['\n'] + t[m].text);
            assert(ps[j].len() == t[m].text.len() + 1);
        } else {
            assert(ps[j] == ps2[j - (m - a)]);
            assert(keeps_spacing(ps2, t, m, j - (m - a)));
        }
    }
    assert forall|j: int| 1 <= j < b - a implies #[trigger] range_piece(ps, t, a, j) by {
        if j < m - a {
            assert(ps[j] == ps1[j]);
            assert(range_piece(ps1, t, a, j));
        } else if j == m - a {
            assert(ps[j] == seq!['\n'] + t[m].text);
        } else {
            assert(ps[j] == ps2[j - (m - a)]);
            assert(range_piece(ps2, t, m, j - (m - a)));
        }
    }
    lemma_flat_concat(ps1, q);
    assert(q =~= seq![seq!['\n'] + ps2[0]] + ps2.skip(1));
    assert(ps2 =~= seq![ps2[0]] + ps2.skip(1));
    lemma_flat_front(seq!['\n'] + ps2[0], ps2.skip(1));
    lemma_flat_front(ps2[0], ps2.skip(1));
    assert(flat(ps) =~= flat(ps1) + seq!['\n'] + flat(ps2));
}

pub(crate) proof fn lemma_wrap_laid(t: Seq<Lexeme>, w: nat, a: int) -> (ps: Seq<Seq<char>>)
    requires
        0 <= a < t.len(),
    ensures
        wrap_from(t, w, a).len() > 0,
        join_lines(wrap_from(t, w, a)) == flat(ps),
        range_ok(ps, t, a, t.len() as int),
        range_keeps(ps, t, a, t.len() as int, Set::empty()),
    decreases t.len() - a,
{
    let n = t.len() as int;
    let split = match next_break(t, w, a) {
        Some(p) => a < p && p < n,
        None => false,
    };
    if split {
        let p = next_break(t, w, a)->0;
        lemma_render_pieces(t, a, p);
        let ps2 = lemma_wrap_laid(t, w, p);
        let rest = wrap_from(t, w, p);
        assert(wrap_from(t, w, a) == seq![render(t, a, p)] + rest);
        lemma_join_lines_concat(seq![render(t, a, p)], rest);
        assert(join_lines(seq![render(t, a, p)]) == render(t, a, p));
        assert(legal(t, p)) by {
            lemma_best_fit_range(t, w, a, a + 1, None);
        }
        lemma_legal_gap(t, p);
        if source_spaced(t[p - 1], t[p]) {
            lemma_source_spaced_gap(t, p);
        }
        lemma_range_concat(render_pieces(t, a, p), ps2, t, a, p, n, Set::empty());
        render_pieces(t, a, p) + ps2.update(0, seq!['\n'] + ps2[0])
    } else {
        lemma_render_pieces(t, a, n);
        assert(wrap_from(t, w, a) == seq![render(t, a, n)]);
        assert(join_lines(seq![render(t, a, n)]) == render(t, a, n));
        render_pieces(t, a, n)
    }
}

/// A layout of a stretch of tokens is a layout of that range of the whole.
proof fn lemma_range_shift(ps: Seq<Seq<char>>, t: Seq<Lexeme>, a: int, b: int, ex: Set<int>)
    requires
        0 <= a < b <= t.len(),
        range_ok(ps, t.subrange(a, b), 0, b - a),
        range_keeps(ps, t.subrange(a, b), 0, b - a, Set::empty()),
    ensures
        range_ok(ps, t, a, b),
        range_keeps(ps, t, a, b, ex),
{
    let seg = t.subrange(a, b);
    assert forall|j: int| 1 <= j < b - a && !ex.contains(a + j) implies #[trigger] keeps_spacing(
        ps,
        t,
        a,
        j,
    ) by {
        assert(keeps_spacing(ps, seg, 0, j));
        assert(seg[j] == t[a + j]);
        assert(seg[j - 1] == t[a + j - 1]);
    }
    assert forall|j: int| 1 <= j < b - a implies #[trigger] range_piece(ps, t, a, j) by {
        assert(range_piece(ps, seg, 0, j));
        assert(seg[j] == t[a + j]);
        assert(seg[j - 1] == t[a + j - 1]);
    }
}

pub(crate) proof fn lemma_clauses_laid(t: Seq<Lexeme>, w: nat, start: int, i: int) -> (ps: Seq<Seq<char>>)
    requires
        0 <= start < t.len(),
        start < i,
    ensures
        clauses_from(t, w, start, i).len() > 0,
        join_lines(clauses_from(t, w, start, i)) == flat(ps),
        range_ok(ps, t, start, t.len() as int),
        range_keeps(ps, t, start, t.len() as int, clause_starts(t)),
    decreases t.len() - i,
{
    let n = t.len() as int;
    if i < 1 || i >= n - 1 || i <= start {
        let seg = t.subrange(start, n);
        let ps = lemma_wrap_laid(seg, w, 0);
        lemma_range_shift(ps, t, start, n, clause_starts(t));
        ps
    } else if clause_start(t, i) {
        let seg = t.subrange(start, i);
        let ps1 = lemma_wrap_laid(seg, w, 0);
        lemma_range_shift(ps1, t, start, i, clause_starts(t));
        let ps2 = lemma_clauses_laid(t, w, i, i + 1);
        lemma_join_lines_concat(wrap(seg, w), clauses_from(t, w, i, i + 1));
        assert(clause_starts(t).contains(i));
        lemma_range_concat(ps1, ps2, t, start, i, n, clause_starts(t));
        ps1 + ps2.update(0, seq!['\n'] + ps2[0])
    } else {
        lemma_clauses_laid(t, w, start, i + 1)
    }
}

/// Reflowing an equation keeps its tokens: read back, the laid-out lines
/// give the same control words, braced groups, runs of letters and digits,
/// operators, and symbols, in the same order, as the source lines joined.
/// No control word runs into a letter after it, no group is split or
/// merged, and no two runs of letters become one. (An equation the layout
/// pass leaves alone comes back as it was.)
pub proof fn law_reflow_keeps_the_tokens(input: Seq<char>, style: MathStyle, width: nat)
    ensures
        display_math(input, style, width) != input ==> texts(tokenize(display_math(input, style, width)))
            == texts(tokenize(joined(input))),
{
    let out = display_math(input, style, width);
    if out != input {
        let t = tokenize(joined(input));
        lemma_tokenize_well_read(joined(input));
        let ps = match style {
            MathStyle::Readable => lemma_clauses_laid(t, width, 0, 1),
            MathStyle::Compact => lemma_wrap_laid(t, width, 0),
        };
        assert(out == flat(ps));
        assert(laid_as(ps, t)) by {
            assert forall|k: int| 1 <= k < t.len() implies #[trigger] piece_ok(ps, t, k) by {
                assert(range_piece(ps, t, 0, k));
            }
        }
        assert(ps.take(0) =~= Seq::<Seq<char>>::empty());
        assert(flat(Seq::<Seq<char>>::empty()) =~= Seq::<char>::empty());
        assert(texts(Seq::<Lexeme>::empty()) =~= texts(t).take(0));
        lemma_retokenize(out, ps, t, 0, false, seq![]);
    }
}

} // verus!
