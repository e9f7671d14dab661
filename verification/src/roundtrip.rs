//! Inline `\(...\)` spans come back as they went: holding them aside and
//! putting them back, with nothing in between, gives the document back
//! character for character.
use vstd::prelude::*;

use crate::markdown::DialectView;
use crate::preparse::{
    all_true, delimited_end, extract_inline, fresh_from, hold_from, inline_close_from,
    inline_from, inline_stem, restore_inline, restore_inline_from, run_end, verbatim_lines,
    InlineMathView,
};
use crate::text::{
    all_digits, decimal, digit_char, digits_value, holds, index_of, is_digit, lemma_index_of_bounds,
    lemma_piece_end, occurs, parse_usize, piece_end, pieces, pieces_from,
};

verus! {

/// The placeholder that stands for span `k`.
pub open spec fn placeholder(k: nat, token: Seq<char>) -> Seq<char> {
    token + decimal(k) + token
}

/// The text from gap `k` on, with each span replaced by its placeholder.
pub open spec fn with_placeholders(gaps: Seq<Seq<char>>, token: Seq<char>, k: int) -> Seq<char>
    decreases gaps.len() - k,
{
    if k < 0 || k >= gaps.len() {
        seq![]
    } else if k == gaps.len() - 1 {
        gaps[k]
    } else {
        gaps[k] + placeholder(k as nat, token) + with_placeholders(gaps, token, k + 1)
    }
}

/// The text from gap `k` on, with each span in its place.
pub open spec fn with_spans(gaps: Seq<Seq<char>>, spans: Seq<Seq<char>>, k: int) -> Seq<char>
    decreases gaps.len() - k,
{
    if k < 0 || k >= gaps.len() {
        seq![]
    } else if k == gaps.len() - 1 {
        gaps[k]
    } else {
        gaps[k] + spans[k] + with_spans(gaps, spans, k + 1)
    }
}

proof fn lemma_extend_gap(gaps: Seq<Seq<char>>, spans: Seq<Seq<char>>, token: Seq<char>, c: Seq<char>, k: int)
    requires
        0 <= k < gaps.len(),
    ensures
        with_placeholders(gaps.update(gaps.len() - 1, gaps.last() + c), token, k)
            == with_placeholders(gaps, token, k) + c,
        with_spans(gaps.update(gaps.len() - 1, gaps.last() + c), spans, k) == with_spans(gaps, spans, k) + c,
    decreases gaps.len() - k,
{
    let g2 = gaps.update(gaps.len() - 1, gaps.last() + c);
    if k < gaps.len() - 1 {
        lemma_extend_gap(gaps, spans, token, c, k + 1);
        assert(g2[k] == gaps[k]);
        assert(with_placeholders(g2, token, k) =~= with_placeholders(gaps, token, k) + c);
        assert(with_spans(g2, spans, k) =~= with_spans(gaps, spans, k) + c);
    }
}

proof fn lemma_new_gap(gaps: Seq<Seq<char>>, spans: Seq<Seq<char>>, token: Seq<char>, s: Seq<char>, k: int)
    requires
        0 <= k < gaps.len(),
        gaps.len() == spans.len() + 1,
    ensures
        with_placeholders(gaps.push(seq![]), token, k) == with_placeholders(gaps, token, k)
            + placeholder(spans.len(), token),
        with_spans(gaps.push(seq![]), spans.push(s), k) == with_spans(gaps, spans, k) + s,
    decreases gaps.len() - k,
{
    let g2 = gaps.push(seq![]);
    let s2 = spans.push(s);
    assert(g2[k] == gaps[k]);
    if k < gaps.len() - 1 {
        lemma_new_gap(gaps, spans, token, s, k + 1);
        assert(s2[k] == spans[k]);
        assert(with_placeholders(g2, token, k) =~= with_placeholders(gaps, token, k) + placeholder(
            spans.len(),
            token,
        ));
        assert(with_spans(g2, s2, k) =~= with_spans(gaps, spans, k) + s);
    } else {
        assert(with_placeholders(g2, token, k + 1) == g2[k + 1]);
        assert(with_spans(g2, s2, k + 1) == g2[k + 1]);
        assert(g2[k + 1] =~= Seq::<char>::empty());
        assert(s2[k] == s);
        assert(with_placeholders(g2, token, k) =~= with_placeholders(gaps, token, k) + placeholder(
            spans.len(),
            token,
        ));
        assert(with_spans(g2, s2, k) =~= with_spans(gaps, spans, k) + s);
    }
}

// ---------------------------------------------------------------------------
// Decimal numbers read back
// ---------------------------------------------------------------------------

proof fn lemma_digit_char(d: nat)
    requires
        d < 10,
    ensures
        digit_char(d) as u32 == 48 + d,
        is_digit(digit_char(d)),
{
}

pub(crate) proof fn lemma_decimal(n: nat)
    ensures
        decimal(n).len() > 0,
        all_digits(decimal(n)),
        digits_value(decimal(n)) == n,
    decreases n,
{
    if n < 10 {
        lemma_digit_char(n);
        let d = decimal(n);
        assert(d.drop_last() =~= Seq::<char>::empty());
        assert(d.last() == digit_char(n));
        assert(digits_value(d.drop_last()) == 0);
    } else {
        lemma_decimal(n / 10);
        lemma_digit_char(n % 10);
        let d = decimal(n);
        assert(d.drop_last() =~= decimal(n / 10));
        assert(d.last() == digit_char(n % 10));
        assert(digits_value(d) == digits_value(decimal(n / 10)) * 10 + n % 10);
        assert((n / 10) * 10 + n % 10 == n);
        assert forall|k: int| 0 <= k < d.len() implies is_digit(#[trigger] d[k]) by {
            if k < d.len() - 1 {
                assert(d[k] == decimal(n / 10)[k]);
            }
        }
    }
}

pub(crate) proof fn lemma_decimal_parses(n: nat)
    requires
        n <= usize::MAX,
    ensures
        parse_usize(decimal(n)) == Some(n),
{
    lemma_decimal(n);
    assert(is_digit(decimal(n)[0]));
}

// ---------------------------------------------------------------------------
// The placeholder token
// ---------------------------------------------------------------------------

/// No proper prefix of `t` is also a suffix of it: two occurrences of `t`
/// cannot overlap.
pub open spec fn unbordered(t: Seq<char>) -> bool {
    forall|l: int| 0 < l < t.len() ==> #[trigger] t.subrange(0, l) != t.subrange(t.len() - l, t.len() as int)
}

pub(crate) proof fn lemma_fresh_shape(input: Seq<char>, t: Seq<char>)
    ensures
        fresh_from(input, t).len() >= t.len(),
        forall|j: int| 0 <= j < t.len() ==> #[trigger] fresh_from(input, t)[j] == t[j],
        forall|j: int| t.len() <= j < fresh_from(input, t).len() ==> #[trigger] fresh_from(input, t)[j] == 'X',
        !holds(input, fresh_from(input, t)),
    decreases input.len() + 1 - t.len(),
{
    if t.len() <= input.len() && holds(input, t) {
        lemma_fresh_shape(input, t.push('X'));
        let f = fresh_from(input, t);
        assert forall|j: int| t.len() <= j < f.len() implies #[trigger] f[j] == 'X' by {
            if j == t.len() {
                assert(t.push('X')[j] == 'X');
            }
        }
    } else {
        if t.len() > input.len() {
            assert(index_of(input, t, 0) is None);
        }
    }
}

proof fn lemma_inline_token(input: Seq<char>)
    ensures
        ({
            let t = fresh_from(input, inline_stem());
            &&& t.len() >= 18
            &&& t[0] == 'M'
            &&& unbordered(t)
            &&& !holds(input, t)
        }),
{
    reveal_strlit("MARKLIGNMATHINLINE");
    let stem = inline_stem();
    assert(stem.len() == 18);
    lemma_fresh_shape(input, stem);
    let t = fresh_from(input, stem);
    let n = t.len() as int;
    assert forall|l: int| 0 < l < n implies #[trigger] t.subrange(0, l) != t.subrange(n - l, n) by {
        if t.subrange(0, l) == t.subrange(n - l, n) {
            assert(t.subrange(0, l)[0] == t[0]);
            assert(t.subrange(n - l, n)[0] == t[n - l]);
            assert(t[0] == 'M');
            if n - l >= 18 {
                assert(t[n - l] == 'X');
            } else if n - l != 8 {
                assert(t[n - l] == stem[n - l]);
            } else {
                assert(t.subrange(0, l)[2] == t[2]);
                assert(t.subrange(n - l, n)[2] == t[10]);
                assert(t[2] == stem[2]);
                assert(t[10] == stem[10]);
            }
        }
    }
}

// ---------------------------------------------------------------------------
// What extraction builds
// ---------------------------------------------------------------------------

/// The sequences one after another.
pub open spec fn flat(ps: Seq<Seq<char>>) -> Seq<char>
    decreases ps.len(),
{
    if ps.len() == 0 {
        seq![]
    } else {
        flat(ps.drop_last()) + ps.last()
    }
}

pub(crate) proof fn lemma_flat_front(a: Seq<char>, rest: Seq<Seq<char>>)
    ensures
        flat(seq![a] + rest) == a + flat(rest),
    decreases rest.len(),
{
    if rest.len() == 0 {
        assert(seq![a] + rest =~= seq![a]);
        assert(seq![a].drop_last() =~= Seq::<Seq<char>>::empty());
        assert(seq![a].last() == a);
        assert(flat(Seq::<Seq<char>>::empty()) =~= Seq::<char>::empty());
        assert(flat(seq![a]) =~= a);
        assert(a + flat(rest) =~= a);
    } else {
        lemma_flat_front(a, rest.drop_last());
        assert((seq![a] + rest).drop_last() =~= seq![a] + rest.drop_last());
        assert((seq![a] + rest).last() == rest.last());
        assert(flat(seq![a] + rest) =~= a + flat(rest));
    }
}

pub(crate) proof fn lemma_flat_pieces(s: Seq<char>, i: int)
    requires
        0 <= i <= s.len(),
    ensures
        flat(pieces_from(s, i)) == s.subrange(i, s.len() as int),
    decreases s.len() - i,
{
    if i < s.len() {
        lemma_piece_end(s, i);
        let e = piece_end(s, i);
        lemma_flat_pieces(s, e);
        lemma_flat_front(s.subrange(i, e), pieces_from(s, e));
        assert(s.subrange(i, s.len() as int) =~= s.subrange(i, e) + s.subrange(e, s.len() as int));
    } else {
        assert(s.subrange(i, s.len() as int) =~= Seq::<char>::empty());
    }
}

/// What extraction has built: the text is the gaps with placeholders
/// between them, and what it has read is the gaps with the spans between
/// them.
pub open spec fn built(
    gaps: Seq<Seq<char>>,
    spans: Seq<Seq<char>>,
    token: Seq<char>,
    text: Seq<char>,
    read: Seq<char>,
) -> bool {
    &&& gaps.len() == spans.len() + 1
    &&& text == with_placeholders(gaps, token, 0)
    &&& read == with_spans(gaps, spans, 0)
    &&& spans.len() <= read.len()
}

proof fn lemma_inline_close(rest: Seq<char>, i: int)
    requires
        0 <= i,
    ensures
        inline_close_from(rest, i) matches Some(at) ==> i + 2 <= at <= rest.len(),
    decreases rest.len() - i,
{
    if i + 1 < rest.len() && rest[i] != '\\' {
        lemma_inline_close(rest, i + 1);
    } else if i + 1 < rest.len() && rest[i + 1] != ')' {
        lemma_inline_close(rest, i + 2);
    }
}

proof fn lemma_delimited(line: Seq<char>, start: int)
    requires
        0 <= start < line.len(),
    ensures
        start < delimited_end(line, start) <= line.len(),
{
    let d = line[start];
    crate::preparse::lemma_run_end(line, start, d);
    let open = run_end(line, start, d);
    crate::preparse::lemma_close_scan(line, d, open - start, open, open);
}

proof fn lemma_extend_built(
    gaps: Seq<Seq<char>>,
    spans: Seq<Seq<char>>,
    token: Seq<char>,
    text: Seq<char>,
    read: Seq<char>,
    c: Seq<char>,
) -> (g2: Seq<Seq<char>>)
    requires
        built(gaps, spans, token, text, read),
    ensures
        built(g2, spans, token, text + c, read + c),
{
    lemma_extend_gap(gaps, spans, token, c, 0);
    gaps.update(gaps.len() - 1, gaps.last() + c)
}

proof fn lemma_hold(
    line: Seq<char>,
    token: Seq<char>,
    index: int,
    text: Seq<char>,
    spans: Seq<Seq<char>>,
    gaps: Seq<Seq<char>>,
    prefix: Seq<char>,
) -> (g2: Seq<Seq<char>>)
    requires
        0 <= index <= line.len(),
        built(gaps, spans, token, text, prefix + line.subrange(0, index)),
    ensures
        built(
            g2,
            hold_from(line, token, index, text, spans).1,
            token,
            hold_from(line, token, index, text, spans).0,
            prefix + line,
        ),
    decreases line.len() - index,
{
    let read = prefix + line.subrange(0, index);
    if index >= line.len() {
        assert(line.subrange(0, index) =~= line);
        gaps
    } else {
        let c = line[index];
        if c == '`' || c == '$' {
            lemma_delimited(line, index);
            let end = delimited_end(line, index);
            let chunk = line.subrange(index, end);
            let g = lemma_extend_built(gaps, spans, token, text, read, chunk);
            assert(read + chunk =~= prefix + line.subrange(0, end));
            lemma_hold(line, token, end, text + chunk, spans, g, prefix)
        } else if c == '\\' {
            let closed = if index + 1 < line.len() && line[index + 1] == '(' {
                inline_close_from(line.skip(index + 2), 0)
            } else {
                None
            };
            match closed {
                Some(at) => {
                    lemma_inline_close(line.skip(index + 2), 0);
                    let end = index + 2 + at;
                    let span = line.subrange(index, end);
                    lemma_new_gap(gaps, spans, token, span, 0);
                    let g = gaps.push(seq![]);
                    assert(text + token + decimal(spans.len()) + token =~= text + placeholder(
                        spans.len(),
                        token,
                    ));
                    assert(read + span =~= prefix + line.subrange(0, end));
                    lemma_hold(
                        line,
                        token,
                        end,
                        text + token + decimal(spans.len()) + token,
                        spans.push(span),
                        g,
                        prefix,
                    )
                },
                None => {
                    let end = if index + 1 < line.len() {
                        index + 2
                    } else {
                        index + 1
                    };
                    let chunk = line.subrange(index, end);
                    let g = lemma_extend_built(gaps, spans, token, text, read, chunk);
                    assert(read + chunk =~= prefix + line.subrange(0, end));
                    lemma_hold(line, token, end, text + chunk, spans, g, prefix)
                },
            }
        } else {
            let chunk = line.subrange(index, index + 1);
            let g = lemma_extend_built(gaps, spans, token, text, read, chunk);
            assert(text.push(c) =~= text + chunk);
            assert(read + chunk =~= prefix + line.subrange(0, index + 1));
            lemma_hold(line, token, index + 1, text.push(c), spans, g, prefix)
        }
    }
}

proof fn lemma_inline(
    ps: Seq<Seq<char>>,
    vb: Seq<Option<crate::preparse::Verbatim>>,
    token: Seq<char>,
    i: int,
    text: Seq<char>,
    spans: Seq<Seq<char>>,
    gaps: Seq<Seq<char>>,
) -> (g2: Seq<Seq<char>>)
    requires
        0 <= i <= ps.len(),
        built(gaps, spans, token, text, flat(ps.take(i))),
    ensures
        built(
            g2,
            inline_from(ps, vb, token, i, text, spans).1,
            token,
            inline_from(ps, vb, token, i, text, spans).0,
            flat(ps),
        ),
    decreases ps.len() - i,
{
    if i >= ps.len() {
        assert(ps.take(i) =~= ps);
        gaps
    } else {
        assert(ps.take(i + 1).drop_last() =~= ps.take(i));
        assert(ps.take(i + 1).last() == ps[i]);
        let read = flat(ps.take(i));
        if vb[i] is Some {
            let g = lemma_extend_built(gaps, spans, token, text, read, ps[i]);
            lemma_inline(ps, vb, token, i + 1, text + ps[i], spans, g)
        } else {
            assert(ps[i].subrange(0, 0) =~= Seq::<char>::empty());
            assert(read + ps[i].subrange(0, 0) =~= read);
            let g = lemma_hold(ps[i], token, 0, text, spans, gaps, read);
            let r = hold_from(ps[i], token, 0, text, spans);
            lemma_inline(ps, vb, token, i + 1, r.0, r.1, g)
        }
    }
}

// ---------------------------------------------------------------------------
// What restoring finds
// ---------------------------------------------------------------------------

pub(crate) proof fn lemma_index_of_is(s: Seq<char>, p: Seq<char>, from: int, q: int)
    requires
        0 <= from <= q,
        occurs(s, p, q),
        forall|j: int| from <= j < q ==> !occurs(s, p, j),
    ensures
        index_of(s, p, from) == Some(q),
{
    lemma_index_of_bounds(s, p, from);
    if let Some(x) = index_of(s, p, from) {
        if x > q {
            assert(!occurs(s, p, q));
        }
    }
}

proof fn lemma_occurs_shift(r: Seq<char>, p: Seq<char>, i: int, j: int)
    requires
        0 <= i <= j,
        i <= r.len(),
    ensures
        occurs(r, p, j) == occurs(r.subrange(i, r.len() as int), p, j - i),
{
    let ri = r.subrange(i, r.len() as int);
    if j + p.len() <= r.len() {
        assert(ri.subrange(j - i, j - i + p.len()) =~= r.subrange(j, j + p.len()));
    }
}

pub(crate) proof fn lemma_not_held(g: Seq<char>, p: Seq<char>, j: int)
    requires
        !holds(g, p),
        0 <= j,
    ensures
        !occurs(g, p, j),
{
    lemma_index_of_bounds(g, p, 0);
}

/// The first occurrence of the token at or after the start of a gap is
/// the placeholder that follows the gap: it does not occur inside the gap,
/// and an occurrence running from the gap into the placeholder would make
/// the token overlap itself.
pub(crate) proof fn lemma_first_after_gap(ri: Seq<char>, g: Seq<char>, p: Seq<char>, rest: Seq<char>)
    requires
        ri == g + p + rest,
        !holds(g, p),
        unbordered(p),
        p.len() > 0,
    ensures
        forall|j: int| 0 <= j < g.len() ==> !occurs(ri, p, j),
        occurs(ri, p, g.len() as int),
{
    let n = p.len() as int;
    assert(ri.subrange(g.len() as int, g.len() + n) =~= p);
    assert forall|j: int| 0 <= j < g.len() implies !occurs(ri, p, j) by {
        if occurs(ri, p, j) {
            if j + n <= g.len() {
                assert(g.subrange(j, j + n) =~= ri.subrange(j, j + n));
                lemma_not_held(g, p, j);
            } else {
                let a = g.len() - j;
                let l = n - a;
                assert(p.subrange(0, l) =~= ri.subrange(g.len() as int, j + n));
                assert(ri.subrange(j, j + n).subrange(a, n) =~= ri.subrange(g.len() as int, j + n));
                assert(p.subrange(n - l, n) =~= p.subrange(a, n));
                assert(p.subrange(0, l) == p.subrange(n - l, n));
            }
        }
    }
}

proof fn lemma_restore(
    im: InlineMathView,
    r: Seq<char>,
    i: int,
    out: Seq<char>,
    restored: Seq<bool>,
    k: int,
    gaps: Seq<Seq<char>>,
)
    requires
        im.token.len() > 0,
        im.token[0] == 'M',
        unbordered(im.token),
        gaps.len() == im.spans.len() + 1,
        forall|j: int| 0 <= j < gaps.len() ==> !holds(#[trigger] gaps[j], im.token),
        im.spans.len() <= usize::MAX,
        0 <= k < gaps.len(),
        0 <= i <= r.len(),
        r.subrange(i, r.len() as int) == with_placeholders(gaps, im.token, k),
        restored == Seq::new(im.spans.len(), |j: int| j < k),
    ensures
        restore_inline_from(im, r, i, out, restored) == Some(out + with_spans(gaps, im.spans, k)),
    decreases gaps.len() - k,
{
    let p = im.token;
    let n = p.len() as int;
    let g = gaps[k];
    let ri = r.subrange(i, r.len() as int);
    if k == gaps.len() - 1 {
        assert(ri == g);
        assert forall|j: int| i <= j implies !occurs(r, p, j) by {
            lemma_occurs_shift(r, p, i, j);
            lemma_not_held(g, p, j - i);
        }
        lemma_index_of_bounds(r, p, i);
        assert(index_of(r, p, i) is None);
        assert(all_true(restored));
        assert(out + r.subrange(i, r.len() as int) == out + with_spans(gaps, im.spans, k));
    } else {
        let dec = decimal(k as nat);
        let later = with_placeholders(gaps, p, k + 1);
        assert(ri =~= g + p + (dec + p + later));
        lemma_first_after_gap(ri, g, p, dec + p + later);
        let start = i + g.len();
        assert forall|j: int| i <= j < start implies !occurs(r, p, j) by {
            lemma_occurs_shift(r, p, i, j);
        }
        lemma_occurs_shift(r, p, i, start);
        lemma_index_of_is(r, p, i, start);
        let tail = start + n;
        let end = tail + dec.len();
        lemma_decimal(k as nat);
        assert forall|j: int| tail <= j < end implies !occurs(r, p, j) by {
            assert(r[j] == ri[j - i]);
            assert(ri[j - i] == dec[j - tail]);
            assert(is_digit(dec[j - tail]));
            if occurs(r, p, j) {
                assert(r.subrange(j, j + n)[0] == r[j]);
            }
        }
        assert(r.subrange(end, end + n) =~= p) by {
            assert forall|x: int| 0 <= x < n implies r.subrange(end, end + n)[x] == p[x] by {
                assert(r[end + x] == ri[end + x - i]);
            }
        }
        lemma_index_of_is(r, p, tail, end);
        assert(r.subrange(tail, end) =~= dec) by {
            assert forall|x: int| 0 <= x < dec.len() implies r.subrange(tail, end)[x] == dec[x] by {
                assert(r[tail + x] == ri[tail + x - i]);
            }
        }
        lemma_decimal_parses(k as nat);
        assert(r.subrange(i, start) =~= g) by {
            assert forall|x: int| 0 <= x < g.len() implies r.subrange(i, start)[x] == g[x] by {
                assert(r[i + x] == ri[x]);
            }
        }
        let next = end + n;
        assert(r.subrange(next, r.len() as int) =~= later) by {
            assert forall|x: int| 0 <= x < later.len() implies r.subrange(next, r.len() as int)[x]
                == later[x] by {
                assert(r[next + x] == ri[next + x - i]);
            }
        }
        let restored2 = restored.update(k, true);
        assert(restored2 =~= Seq::new(im.spans.len(), |j: int| j < k + 1));
        lemma_restore(im, r, next, out + g + im.spans[k], restored2, k + 1, gaps);
        assert(out + r.subrange(i, start) + im.spans[k] == out + g + im.spans[k]);
        assert(out + g + im.spans[k] + with_spans(gaps, im.spans, k + 1) =~= out + with_spans(
            gaps,
            im.spans,
            k,
        ));
    }
}

pub(crate) proof fn lemma_holds_within(a: Seq<char>, x: Seq<char>, b: Seq<char>, p: Seq<char>)
    requires
        holds(x, p),
    ensures
        holds(a + x + b, p),
{
    lemma_index_of_bounds(x, p, 0);
    let q = index_of(x, p, 0)->0;
    let y = a + x + b;
    assert(y.subrange(a.len() + q, a.len() + q + p.len()) =~= x.subrange(q, q + p.len()));
    assert(occurs(y, p, a.len() + q));
    lemma_index_of_bounds(y, p, 0);
}

/// Each gap is a stretch of the text with the spans in place, so the token
/// occurs in no gap when it occurs nowhere in that text.
proof fn lemma_gaps_clear(gaps: Seq<Seq<char>>, spans: Seq<Seq<char>>, p: Seq<char>, k: int, j: int)
    requires
        0 <= k <= j < gaps.len(),
        !holds(with_spans(gaps, spans, k), p),
    ensures
        !holds(gaps[j], p),
    decreases j - k,
{
    if k < gaps.len() - 1 {
        let rest = spans[k] + with_spans(gaps, spans, k + 1);
        assert(with_spans(gaps, spans, k) =~= Seq::<char>::empty() + gaps[k] + rest);
        if j == k {
            if holds(gaps[j], p) {
                lemma_holds_within(Seq::<char>::empty(), gaps[k], rest, p);
            }
        } else {
            let before = gaps[k] + spans[k];
            assert(with_spans(gaps, spans, k) =~= before + with_spans(gaps, spans, k + 1)
                + Seq::<char>::empty());
            if holds(with_spans(gaps, spans, k + 1), p) {
                lemma_holds_within(before, with_spans(gaps, spans, k + 1), Seq::<char>::empty(), p);
            }
            lemma_gaps_clear(gaps, spans, p, k + 1, j);
        }
    }
}

/// Holding the inline `\(...\)` spans of a document aside and putting them
/// back gives the document back character for character, with the
/// delimiters its author wrote: a placeholder cannot be confused with text
/// of the document, since its token occurs nowhere in the document and
/// cannot overlap itself. (An input is at most `usize::MAX` characters long,
/// which bounds the number of spans a placeholder can count.)
pub proof fn law_inline_spans_come_back(input: Seq<char>, d: DialectView)
    requires
        input.len() <= usize::MAX,
    ensures
        restore_inline(extract_inline(input, d), extract_inline(input, d).text) == Some(input),
{
    let im = extract_inline(input, d);
    let token = fresh_from(input, inline_stem());
    lemma_inline_token(input);
    let ps = pieces(input);
    let vb = verbatim_lines(input, d);
    let start: Seq<Seq<char>> = seq![seq![]];
    assert(with_placeholders(start, token, 0) =~= Seq::<char>::empty());
    assert(ps.take(0) =~= Seq::<Seq<char>>::empty());
    assert(flat(ps.take(0)) =~= Seq::<char>::empty());
    let gaps = lemma_inline(ps, vb, token, 0, seq![], seq![], start);
    lemma_flat_pieces(input, 0);
    assert(input.subrange(0, input.len() as int) =~= input);
    assert(built(gaps, im.spans, token, im.text, input));
    assert forall|j: int| 0 <= j < gaps.len() implies !holds(#[trigger] gaps[j], im.token) by {
        lemma_gaps_clear(gaps, im.spans, token, 0, j);
    }
    if im.spans.len() > 0 {
        let restored = Seq::new(im.spans.len(), |k: int| false);
        assert(restored =~= Seq::new(im.spans.len(), |j: int| j < 0));
        assert(im.text.subrange(0, im.text.len() as int) =~= im.text);
        lemma_restore(im, im.text, 0, seq![], restored, 0, gaps);
        assert(Seq::<char>::empty() + with_spans(gaps, im.spans, 0) =~= input);
    }
}

} // verus!
