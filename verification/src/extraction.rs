//! Held display equations come back: the placeholder token occurs nowhere
//! in the document, each placeholder line is read back as the block it
//! stands for, and a document with nothing held is left as it was.
use vstd::prelude::*;

use crate::markdown::DialectView;
use crate::preparse::{
    all_container, block_at, block_stem, close_at, delim_close, drop_trailing, extract,
    extract_from, fresh_from, is_container_char, lemma_scan_block_end, lemma_skip_container,
    opening, placeholder, restore_blocks, restore_from, skip_container, strip_newline,
    verbatim_lines, BlockMathView, HeldView, Verbatim,
};
use crate::retokenize::lemma_flat_at;
use crate::roundtrip::{
    flat, lemma_decimal, lemma_decimal_parses, lemma_first_after_gap, lemma_flat_front,
    lemma_flat_pieces, lemma_fresh_shape, lemma_holds_within, lemma_index_of_is, unbordered,
};
use crate::stability::{lemma_next_newline_skip, lemma_pieces_shift};
use crate::text::{
    back_ws, decimal, holds, is_blank, is_digit, is_ws, lemma_back_ws, lemma_next_newline,
    lemma_piece_end, next_newline, piece_end, pieces, pieces_from, trim_end,
};
use crate::FormatOptions;

verus! {

// ---------------------------------------------------------------------------
// Lines
// ---------------------------------------------------------------------------

/// Pieces of a text split after each line feed: none empty, a line feed at
/// most at the end of each, and at the end of every one but the last.
pub open spec fn line_shaped(ps: Seq<Seq<char>>) -> bool {
    &&& forall|k: int| 0 <= k < ps.len() ==> #[trigger] ps[k].len() > 0
    &&& forall|k: int, j: int| 0 <= k < ps.len() && 0 <= j < ps[k].len() - 1 ==> #[trigger] ps[k][j] != '\n'
    &&& forall|k: int| 0 <= k < ps.len() - 1 ==> #[trigger] ps[k].last() == '\n'
}

proof fn lemma_pieces_shaped(s: Seq<char>, i: int)
    requires
        0 <= i <= s.len(),
    ensures
        line_shaped(pieces_from(s, i)),
    decreases s.len() - i,
{
    if i < s.len() {
        lemma_next_newline(s, i);
        lemma_piece_end(s, i);
        let e = piece_end(s, i);
        lemma_pieces_shaped(s, e);
        let head = s.subrange(i, e);
        let rest = pieces_from(s, e);
        let ps = pieces_from(s, i);
        assert(ps == seq![head] + rest);
        assert forall|k: int| 0 <= k < ps.len() implies #[trigger] ps[k].len() > 0 by {
            if k > 0 {
                assert(ps[k] == rest[k - 1]);
            }
        }
        assert forall|k: int, j: int| 0 <= k < ps.len() && 0 <= j < ps[k].len() - 1 implies #[trigger] ps[k][j]
            != '\n' by {
            if k > 0 {
                assert(ps[k] == rest[k - 1]);
            } else {
                assert(head[j] == s[i + j]);
            }
        }
        assert forall|k: int| 0 <= k < ps.len() - 1 implies #[trigger] ps[k].last() == '\n' by {
            if k > 0 {
                assert(ps[k] == rest[k - 1]);
            } else {
                assert(rest.len() > 0);
                assert(e < s.len());
            }
        }
    }
}

/// Line-shaped pieces, laid end to end, split back into themselves.
proof fn lemma_pieces_of_flat(ps: Seq<Seq<char>>)
    requires
        line_shaped(ps),
    ensures
        pieces_from(flat(ps), 0) == ps,
        flat(ps).len() >= ps.len(),
    decreases ps.len(),
{
    if ps.len() == 0 {
        assert(pieces_from(flat(ps), 0) =~= ps);
    } else {
        let f = ps[0];
        let rest = ps.skip(1);
        assert(ps =~= seq![f] + rest);
        lemma_flat_front(f, rest);
        let r = flat(rest);
        let s = flat(ps);
        assert(s == f + r);
        assert(line_shaped(rest)) by {
            assert forall|k: int| 0 <= k < rest.len() implies #[trigger] rest[k].len() > 0 by {
                assert(rest[k] == ps[k + 1]);
            }
            assert forall|k: int, j: int| 0 <= k < rest.len() && 0 <= j < rest[k].len() - 1 implies #[trigger] rest[k][j]
                != '\n' by {
                assert(rest[k] == ps[k + 1]);
                assert(ps[k + 1][j] != '\n');
            }
            assert forall|k: int| 0 <= k < rest.len() - 1 implies #[trigger] rest[k].last() == '\n' by {
                assert(rest[k] == ps[k + 1]);
            }
        }
        lemma_pieces_of_flat(rest);
        assert(f.len() > 0);
        assert forall|j: int| 0 <= j < f.len() - 1 implies s[j] != '\n' by {
            assert(s[j] == f[j]);
            assert(ps[0][j] != '\n');
        }
        lemma_next_newline_skip(s, 0, f.len() - 1);
        if f.last() == '\n' {
            assert(s[f.len() - 1] == '\n');
            assert(next_newline(s, 0) == f.len() - 1);
            assert(piece_end(s, 0) == f.len());
        } else {
            assert(ps.len() == 1);
            assert(rest =~= Seq::<Seq<char>>::empty());
            assert(r =~= Seq::<char>::empty());
            assert(s =~= f);
            lemma_next_newline(s, f.len() - 1);
            assert(next_newline(s, 0) == f.len());
            assert(piece_end(s, 0) == f.len());
        }
        assert(s.subrange(0, f.len() as int) =~= f);
        lemma_pieces_shift(f, r, 0);
        assert(pieces_from(s, 0) =~= seq![f] + pieces_from(r, 0));
    }
}

proof fn lemma_drop_trailing_prefix(s: Seq<char>, c: char)
    ensures
        drop_trailing(s, c).len() <= s.len(),
        drop_trailing(s, c) == s.take(drop_trailing(s, c).len() as int),
    decreases s.len(),
{
    if s.len() > 0 && s.last() == c {
        lemma_drop_trailing_prefix(s.drop_last(), c);
        assert(s.drop_last().take(drop_trailing(s, c).len() as int) =~= s.take(
            drop_trailing(s, c).len() as int,
        ));
    } else {
        assert(s.take(s.len() as int) =~= s);
    }
}

/// A line without its line feed is the start of the line.
proof fn lemma_strip_newline_prefix(s: Seq<char>)
    ensures
        strip_newline(s).len() <= s.len(),
        strip_newline(s) == s.take(strip_newline(s).len() as int),
{
    lemma_drop_trailing_prefix(s, '\n');
    let a = drop_trailing(s, '\n');
    lemma_drop_trailing_prefix(a, '\r');
    assert(a.take(strip_newline(s).len() as int) =~= s.take(strip_newline(s).len() as int));
}

// ---------------------------------------------------------------------------
// The token and the placeholder lines
// ---------------------------------------------------------------------------

/// The stem spelled out: capital letters, none a digit or a line feed.
proof fn lemma_block_token(input: Seq<char>)
    ensures
        ({
            let t = fresh_from(input, block_stem());
            &&& t.len() >= 17
            &&& unbordered(t)
            &&& !holds(input, t)
            &&& forall|j: int| 0 <= j < t.len() ==> #[trigger] t[j] != '\n' && !is_digit(t[j]) && !is_ws(t[j])
        }),
{
    reveal_strlit("MARKLIGNMATHBLOCK");
    let stem = block_stem();
    assert(stem.len() == 17);
    lemma_fresh_shape(input, stem);
    let t = fresh_from(input, stem);
    let n = t.len() as int;
    assert forall|j: int| 0 <= j < n implies #[trigger] t[j] != '\n' && !is_digit(t[j]) && !is_ws(t[j]) by {
        if j < 17 {
            assert(t[j] == stem[j]);
        }
    }
    assert forall|l: int| 0 < l < n implies #[trigger] t.subrange(0, l) != t.subrange(n - l, n) by {
        if t.subrange(0, l) == t.subrange(n - l, n) {
            assert(t.subrange(0, l)[0] == t[0]);
            assert(t.subrange(n - l, n)[0] == t[n - l]);
            assert(t[0] == 'M');
            if n - l >= 17 {
                assert(t[n - l] == 'X');
            } else if n - l != 8 {
                assert(t[n - l] == stem[n - l]);
            } else {
                assert(t.subrange(0, l)[2] == t[2]);
                assert(t.subrange(n - l, n)[2] == t[10]);
                assert(t[2] == stem[2]);
                assert(t[10] == stem[10]);
            }
        }
    }
}

/// The placeholder line of block `b`, with its line feed.
pub open spec fn placeholder_line(prefix: Seq<char>, token: Seq<char>, b: nat) -> Seq<char> {
    (prefix + token + decimal(b)).push('\n')
}

/// A placeholder line is read back as the block it stands for.
proof fn lemma_placeholder_read(prefix: Seq<char>, token: Seq<char>, b: nat, n: nat)
    requires
        all_container(prefix),
        !holds(prefix, token),
        unbordered(token),
        token.len() > 0,
        b < n,
        b <= usize::MAX,
    ensures
        placeholder(strip_newline(placeholder_line(prefix, token, b)), token, n) == Some((prefix, b as int)),
{
    let d = decimal(b);
    lemma_decimal(b);
    let l = prefix + token + d;
    let full = l.push('\n');
    assert(full.drop_last() =~= l);
    assert(d.last() != '\n' && d.last() != '\r') by {
        assert(is_digit(d[d.len() - 1]));
    }
    assert(l.last() == d.last());
    assert(drop_trailing(l, '\n') == l);
    assert(drop_trailing(full, '\n') == drop_trailing(l, '\n'));
    assert(drop_trailing(l, '\r') == l);
    assert(strip_newline(full) == l);
    lemma_first_after_gap(l, prefix, token, d);
    lemma_index_of_is(l, token, 0, prefix.len() as int);
    assert(l.take(prefix.len() as int) =~= prefix);
    assert(l.skip(prefix.len() + token.len() as int) =~= d);
    lemma_back_ws(d, d.len() as int);
    assert(!is_ws(d[d.len() - 1])) by {
        assert(is_digit(d[d.len() - 1]));
    }
    assert(back_ws(d, d.len() as int) == d.len());
    assert(trim_end(d) =~= d);
    lemma_decimal_parses(b);
}

/// A line of the document is read as no placeholder.
proof fn lemma_copied_read(line: Seq<char>, token: Seq<char>, n: nat)
    requires
        !holds(line, token),
    ensures
        placeholder(strip_newline(line), token, n) is None,
{
    lemma_strip_newline_prefix(line);
    let s = strip_newline(line);
    if holds(s, token) {
        lemma_holds_within(Seq::<char>::empty(), s, line.skip(s.len() as int), token);
        assert(Seq::<char>::empty() + s + line.skip(s.len() as int) =~= line);
    }
}

// ---------------------------------------------------------------------------
// Where an equation starts and ends
// ---------------------------------------------------------------------------

proof fn lemma_skip_container_chars(s: Seq<char>, i: int)
    requires
        0 <= i <= s.len(),
    ensures
        forall|j: int| i <= j < skip_container(s, i) ==> is_blank(#[trigger] s[j]) || s[j] == '>',
    decreases s.len() - i,
{
    if i < s.len() && (is_blank(s[i]) || s[i] == '>') {
        lemma_skip_container_chars(s, i + 1);
    }
}

/// An equation found at line `open` ends on that line or below it, and its
/// container prefix is made of indentation and quote markers taken from the
/// start of the opening line.
proof fn lemma_block_at(ls: Seq<Seq<char>>, open: int, vb: Seq<Option<Verbatim>>, prefs: FormatOptions)
    requires
        0 <= open < ls.len(),
    ensures
        block_at(ls, open, vb, prefs) matches Some((p, _, e)) ==> {
            &&& open <= e < ls.len()
            &&& p.len() <= strip_newline(ls[open]).len()
            &&& p == strip_newline(ls[open]).take(p.len() as int)
            &&& forall|j: int| 0 <= j < p.len() ==> is_blank(#[trigger] p[j]) || p[j] == '>'
        },
{
    let line = strip_newline(ls[open]);
    match opening(line) {
        None => {},
        Some((prefix, k, first)) => {
            lemma_skip_container(line, 0);
            lemma_skip_container_chars(line, 0);
            let c = skip_container(line, 0);
            assert(prefix =~= line.take(c));
            assert forall|j: int| 0 <= j < prefix.len() implies is_blank(#[trigger] prefix[j])
                || prefix[j] == '>' by {
                assert(prefix[j] == line[j]);
            }
            let closer = delim_close(k);
            if close_at(first, closer) is None && !holds(first, closer) {
                lemma_scan_block_end(
                    ls,
                    vb,
                    prefs,
                    prefix,
                    k,
                    crate::preparse::count_char(prefix, '>'),
                    open + 1,
                    first,
                    false,
                );
            }
        },
    }
}

// ---------------------------------------------------------------------------
// The extracted text, line by line
// ---------------------------------------------------------------------------

/// The lines of an extracted text: each is either a line of the document,
/// in which the token does not occur (`tags[k]` is `None`), or the
/// placeholder line of block `b` (`tags[k]` is `Some(b)`) with its prefix in
/// `prefixes[k]`; block `b` stands at line `pos[b]`, for each of the `n`
/// blocks.
pub open spec fn held_lines(
    ps: Seq<Seq<char>>,
    tags: Seq<Option<nat>>,
    prefixes: Seq<Seq<char>>,
    pos: Seq<int>,
    token: Seq<char>,
    n: nat,
) -> bool {
    &&& line_shaped(ps)
    &&& tags.len() == ps.len()
    &&& prefixes.len() == ps.len()
    &&& forall|k: int| 0 <= k < ps.len() && #[trigger] tags[k] is None ==> !holds(ps[k], token)
    &&& forall|k: int|
        0 <= k < ps.len() && #[trigger] tags[k] is Some ==> {
            &&& tags[k]->0 < n
            &&& all_container(prefixes[k])
            &&& !holds(prefixes[k], token)
            &&& ps[k] == placeholder_line(prefixes[k], token, tags[k]->0)
        }
    &&& pos.len() == n
    &&& forall|b: int| 0 <= b < n ==> 0 <= #[trigger] pos[b] < ps.len() && tags[pos[b]] == Some(b as nat)
}

/// A placeholder line is line-shaped: not empty, and its only line feed is
/// its last character.
proof fn lemma_placeholder_shape(prefix: Seq<char>, token: Seq<char>, b: nat)
    requires
        forall|j: int| 0 <= j < prefix.len() ==> is_blank(#[trigger] prefix[j]) || prefix[j] == '>',
        forall|j: int| 0 <= j < token.len() ==> #[trigger] token[j] != '\n',
    ensures
        ({
            let l = placeholder_line(prefix, token, b);
            &&& l.len() > 0
            &&& l.last() == '\n'
            &&& forall|j: int| 0 <= j < l.len() - 1 ==> #[trigger] l[j] != '\n'
        }),
{
    lemma_decimal(b);
    let d = decimal(b);
    let l = placeholder_line(prefix, token, b);
    assert forall|j: int| 0 <= j < l.len() - 1 implies #[trigger] l[j] != '\n' by {
        if j < prefix.len() {
            assert(l[j] == prefix[j]);
        } else if j < prefix.len() + token.len() {
            assert(l[j] == token[j - prefix.len()]);
        } else {
            assert(l[j] == d[j - prefix.len() - token.len()]);
            assert(is_digit(d[j - prefix.len() - token.len()]));
        }
    }
}

proof fn lemma_flat_push(ps: Seq<Seq<char>>, x: Seq<char>)
    ensures
        flat(ps.push(x)) == flat(ps) + x,
{
    assert(ps.push(x).drop_last() =~= ps);
}

/// A placeholder line appended after whole lines keeps the layout.
proof fn lemma_push_placeholder(
    ps: Seq<Seq<char>>,
    tags: Seq<Option<nat>>,
    prefixes: Seq<Seq<char>>,
    pos: Seq<int>,
    token: Seq<char>,
    n: nat,
    prefix: Seq<char>,
)
    requires
        held_lines(ps, tags, prefixes, pos, token, n),
        ps.len() > 0 ==> ps.last().last() == '\n',
        forall|j: int| 0 <= j < token.len() ==> #[trigger] token[j] != '\n',
        forall|j: int| 0 <= j < prefix.len() ==> is_blank(#[trigger] prefix[j]) || prefix[j] == '>',
        !holds(prefix, token),
    ensures
        held_lines(
            ps.push(placeholder_line(prefix, token, n)),
            tags.push(Some(n)),
            prefixes.push(prefix),
            pos.push(ps.len() as int),
            token,
            n + 1,
        ),
{
    let line = placeholder_line(prefix, token, n);
    lemma_placeholder_shape(prefix, token, n);
    let ps2 = ps.push(line);
    let tags2 = tags.push(Some(n));
    let prefixes2 = prefixes.push(prefix);
    let pos2 = pos.push(ps.len() as int);
    assert(all_container(prefix)) by {
        assert forall|j: int| 0 <= j < prefix.len() implies is_container_char(#[trigger] prefix[j]) by {
            assert(is_blank(prefix[j]) || prefix[j] == '>');
        }
    }
    assert forall|k: int| 0 <= k < ps2.len() implies #[trigger] ps2[k].len() > 0 by {
        if k < ps.len() {
            assert(ps2[k] == ps[k]);
        }
    }
    assert forall|k: int, j: int| 0 <= k < ps2.len() && 0 <= j < ps2[k].len() - 1 implies #[trigger] ps2[k][j]
        != '\n' by {
        if k < ps.len() {
            assert(ps2[k] == ps[k]);
        }
    }
    assert forall|k: int| 0 <= k < ps2.len() - 1 implies #[trigger] ps2[k].last() == '\n' by {
        assert(ps2[k] == ps[k]);
    }
    assert forall|k: int| 0 <= k < ps2.len() && #[trigger] tags2[k] is None implies !holds(ps2[k], token) by {
        assert(tags2[k] == tags[k]);
        assert(ps2[k] == ps[k]);
    }
    assert forall|k: int| 0 <= k < ps2.len() && #[trigger] tags2[k] is Some implies {
        &&& tags2[k]->0 < n + 1
        &&& all_container(prefixes2[k])
        &&& !holds(prefixes2[k], token)
        &&& ps2[k] == placeholder_line(prefixes2[k], token, tags2[k]->0)
    } by {
        if k < ps.len() {
            assert(tags2[k] == tags[k]);
            assert(ps2[k] == ps[k]);
            assert(prefixes2[k] == prefixes[k]);
        }
    }
    assert forall|c: int| 0 <= c < n + 1 implies 0 <= #[trigger] pos2[c] < ps2.len() && tags2[pos2[c]] == Some(
        c as nat,
    ) by {
        if c < n {
            assert(pos2[c] == pos[c]);
            assert(tags2[pos[c]] == tags[pos[c]]);
        }
    }
}

/// A line of the document, copied, keeps the layout.
proof fn lemma_push_copied(
    ps: Seq<Seq<char>>,
    tags: Seq<Option<nat>>,
    prefixes: Seq<Seq<char>>,
    pos: Seq<int>,
    token: Seq<char>,
    n: nat,
    line: Seq<char>,
)
    requires
        held_lines(ps, tags, prefixes, pos, token, n),
        ps.len() > 0 ==> ps.last().last() == '\n',
        line.len() > 0,
        forall|j: int| 0 <= j < line.len() - 1 ==> #[trigger] line[j] != '\n',
        !holds(line, token),
    ensures
        held_lines(ps.push(line), tags.push(None), prefixes.push(Seq::<char>::empty()), pos, token, n),
{
    let ps2 = ps.push(line);
    let tags2 = tags.push(None::<nat>);
    let prefixes2 = prefixes.push(Seq::<char>::empty());
    assert forall|k: int| 0 <= k < ps2.len() implies #[trigger] ps2[k].len() > 0 by {
        if k < ps.len() {
            assert(ps2[k] == ps[k]);
        }
    }
    assert forall|k: int, j: int| 0 <= k < ps2.len() && 0 <= j < ps2[k].len() - 1 implies #[trigger] ps2[k][j]
        != '\n' by {
        if k < ps.len() {
            assert(ps2[k] == ps[k]);
        }
    }
    assert forall|k: int| 0 <= k < ps2.len() - 1 implies #[trigger] ps2[k].last() == '\n' by {
        assert(ps2[k] == ps[k]);
    }
    assert forall|k: int| 0 <= k < ps2.len() && #[trigger] tags2[k] is None implies !holds(ps2[k], token) by {
        if k < ps.len() {
            assert(tags2[k] == tags[k]);
            assert(ps2[k] == ps[k]);
        }
    }
    assert forall|k: int| 0 <= k < ps2.len() && #[trigger] tags2[k] is Some implies {
        &&& tags2[k]->0 < n
        &&& all_container(prefixes2[k])
        &&& !holds(prefixes2[k], token)
        &&& ps2[k] == placeholder_line(prefixes2[k], token, tags2[k]->0)
    } by {
        assert(tags2[k] == tags[k]);
        assert(ps2[k] == ps[k]);
        assert(prefixes2[k] == prefixes[k]);
    }
    assert forall|c: int| 0 <= c < n implies 0 <= #[trigger] pos[c] < ps2.len() && tags2[pos[c]] == Some(
        c as nat,
    ) by {
        assert(tags2[pos[c]] == tags[pos[c]]);
    }
}

/// Following the extraction from line `index` on: the text it builds is
/// laid out in lines as `held_lines` says, with the blocks numbered in the
/// order they were found, and a text with no block held is the document's
/// lines unchanged.
proof fn lemma_extract(
    ls: Seq<Seq<char>>,
    vb: Seq<Option<Verbatim>>,
    prefs: FormatOptions,
    token: Seq<char>,
    index: int,
    text: Seq<char>,
    blocks: Seq<HeldView>,
    ps: Seq<Seq<char>>,
    tags: Seq<Option<nat>>,
    prefixes: Seq<Seq<char>>,
    pos: Seq<int>,
) -> (r: (Seq<Seq<char>>, Seq<Option<nat>>, Seq<Seq<char>>, Seq<int>))
    requires
        line_shaped(ls),
        forall|k: int| 0 <= k < ls.len() ==> !holds(#[trigger] ls[k], token),
        forall|j: int| 0 <= j < token.len() ==> #[trigger] token[j] != '\n',
        0 <= index <= ls.len(),
        text == flat(ps),
        held_lines(ps, tags, prefixes, pos, token, blocks.len()),
        ps.len() > 0 && ps.last().last() != '\n' ==> index == ls.len(),
        blocks.len() == 0 ==> ps == ls.take(index),
        blocks.len() <= index,
    ensures
        ({
            let out = extract_from(ls, vb, prefs, token, index, text, blocks);
            &&& out.0 == flat(r.0)
            &&& held_lines(r.0, r.1, r.2, r.3, token, out.1.len())
            &&& out.1.len() <= ls.len()
            &&& out.1.len() == 0 ==> r.0 == ls
        }),
    decreases ls.len() - index,
{
    if index >= ls.len() {
        if blocks.len() == 0 {
            assert(ls.take(index) =~= ls);
        }
        return (ps, tags, prefixes, pos);
    }
    let found = if vb[index] is None {
        block_at(ls, index, vb, prefs)
    } else {
        None
    };
    match found {
        Some((prefix, held, end)) => {
            lemma_block_at(ls, index, vb, prefs);
            let b = blocks.len();
            let line = placeholder_line(prefix, token, b);
            lemma_placeholder_shape(prefix, token, b);
            lemma_strip_newline_prefix(ls[index]);
            assert(!holds(prefix, token)) by {
                if holds(prefix, token) {
                    let rest = ls[index].skip(prefix.len() as int);
                    assert(ls[index] =~= Seq::<char>::empty() + prefix + rest);
                    lemma_holds_within(Seq::<char>::empty(), prefix, rest, token);
                }
            }
            lemma_push_placeholder(ps, tags, prefixes, pos, token, b, prefix);
            lemma_flat_push(ps, line);
            let text2 = text + prefix + token + decimal(b).push('\n');
            assert(text2 =~= flat(ps.push(line)));
            lemma_extract(
                ls,
                vb,
                prefs,
                token,
                end + 1,
                text2,
                blocks.push(held),
                ps.push(line),
                tags.push(Some(b)),
                prefixes.push(prefix),
                pos.push(ps.len() as int),
            )
        },
        None => {
            let line = ls[index];
            lemma_push_copied(ps, tags, prefixes, pos, token, blocks.len(), line);
            lemma_flat_push(ps, line);
            if line.last() != '\n' {
                assert(index == ls.len() - 1);
            }
            if blocks.len() == 0 {
                assert(ps.push(line) =~= ls.take(index + 1));
            }
            lemma_extract(
                ls,
                vb,
                prefs,
                token,
                index + 1,
                text + line,
                blocks,
                ps.push(line),
                tags.push(None::<nat>),
                prefixes.push(Seq::<char>::empty()),
                pos,
            )
        },
    }
}

// ---------------------------------------------------------------------------
// Reading the text back
// ---------------------------------------------------------------------------

/// Walking the lines of an extracted text from line `i` on, every block not
/// yet put back still has its placeholder line ahead, so each one is found.
proof fn lemma_restore(
    bm: BlockMathView,
    ps: Seq<Seq<char>>,
    tags: Seq<Option<nat>>,
    prefixes: Seq<Seq<char>>,
    pos: Seq<int>,
    i: int,
    out: Seq<char>,
    restored: Seq<bool>,
)
    requires
        held_lines(ps, tags, prefixes, pos, bm.token, bm.blocks.len()),
        unbordered(bm.token),
        bm.token.len() > 0,
        bm.blocks.len() <= usize::MAX,
        0 <= i <= ps.len(),
        restored.len() == bm.blocks.len(),
        forall|b: int| 0 <= b < bm.blocks.len() ==> #[trigger] restored[b] || pos[b] >= i,
    ensures
        restore_from(bm, ps, i, out, restored) is Some,
    decreases ps.len() - i,
{
    let n = bm.blocks.len();
    if i >= ps.len() {
        assert forall|b: int| 0 <= b < restored.len() implies #[trigger] restored[b] by {
            assert(pos[b] < ps.len());
        }
        return;
    }
    if tags[i] is None {
        lemma_copied_read(ps[i], bm.token, n);
        assert forall|b: int| 0 <= b < n implies #[trigger] restored[b] || pos[b] >= i + 1 by {
            if !restored[b] && pos[b] == i {
                assert(tags[pos[b]] == Some(b as nat));
            }
        }
        lemma_restore(bm, ps, tags, prefixes, pos, i + 1, out + ps[i], restored);
    } else {
        let b0 = tags[i]->0;
        lemma_placeholder_read(prefixes[i], bm.token, b0, n);
        let restored2 = restored.update(b0 as int, true);
        assert forall|b: int| 0 <= b < n implies #[trigger] restored2[b] || pos[b] >= i + 1 by {
            if b != b0 {
                assert(restored2[b] == restored[b]);
                if !restored[b] && pos[b] == i {
                    assert(tags[pos[b]] == Some(b as nat));
                }
            }
        }
        lemma_restore(
            bm,
            ps,
            tags,
            prefixes,
            pos,
            i + 1,
            out + crate::preparse::emit(prefixes[i], bm.blocks[b0 as int]),
            restored2,
        );
    }
}

/// Extraction sets display equations aside so that they come back: the
/// placeholder token occurs nowhere in the document; each line of the
/// extracted text is either a line of the document or the placeholder line
/// of one held equation (its container prefix, the token, and its index),
/// with one such line for each; restoring the extracted text as it stands
/// finds every placeholder and puts every held equation back; and a
/// document in which no equation was held is the extracted text unchanged.
/// This holds whatever the Markdown parser reports as verbatim lines.
pub proof fn law_held_blocks_come_back(input: Seq<char>, prefs: FormatOptions, d: DialectView)
    requires
        input.len() <= usize::MAX,
    ensures
        ({
            let held = extract(input, prefs, d);
            &&& !holds(input, held.token)
            &&& exists|tags: Seq<Option<nat>>, prefixes: Seq<Seq<char>>, pos: Seq<int>|
                held_lines(pieces(held.text), tags, prefixes, pos, held.token, held.blocks.len())
            &&& restore_blocks(held, held.text) is Some
            &&& held.blocks.len() == 0 ==> held.text == input
        }),
{
    let ls = pieces(input);
    let vb = verbatim_lines(input, d);
    let token = fresh_from(input, block_stem());
    lemma_block_token(input);
    lemma_pieces_shaped(input, 0);
    lemma_flat_pieces(input, 0);
    assert(input.subrange(0, input.len() as int) =~= input);
    lemma_pieces_of_flat(ls);
    assert forall|k: int| 0 <= k < ls.len() implies !holds(#[trigger] ls[k], token) by {
        lemma_flat_at(ls, k);
        if holds(ls[k], token) {
            lemma_holds_within(flat(ls.take(k)), ls[k], flat(ls.skip(k + 1)), token);
        }
    }
    let e = Seq::<Seq<char>>::empty();
    assert(flat(e) =~= Seq::<char>::empty());
    assert(ls.take(0) =~= e);
    let r = lemma_extract(
        ls,
        vb,
        prefs,
        token,
        0,
        seq![],
        seq![],
        e,
        Seq::<Option<nat>>::empty(),
        e,
        Seq::<int>::empty(),
    );
    let held = extract(input, prefs, d);
    lemma_pieces_of_flat(r.0);
    assert(held_lines(pieces(held.text), r.1, r.2, r.3, held.token, held.blocks.len()));
    if held.blocks.len() > 0 {
        let n = held.blocks.len();
        lemma_restore(held, r.0, r.1, r.2, r.3, 0, seq![], Seq::new(n, |k: int| false));
    }
}

} // verus!
