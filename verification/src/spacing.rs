//! Formatting a held equation changes whitespace and nothing else: the
//! characters that are not whitespace come back in the same order, through
//! the trimming of its delimiter lines, the layout of rows and equations,
//! and the joining of lines Markdown would claim.
use vstd::prelude::*;

use crate::MathStyle;

use crate::laws::{
    law_reflow_changes_only_whitespace,
    lemma_join_lines_visible, lemma_pieces_visible, lemma_trim_visible, lemma_vis_all_concat,
    lemma_vis_all_one, lemma_visible_blank, lemma_visible_concat, lemma_visible_one, vis_all,
    visible,
};
use crate::environments::{
    cells_from, closer, environment, format_row, join_with, opener, row_separator, rows_from,
    split_go, split_top, which_environment,
};
use crate::math::display_math;
use crate::preparse::{
    claimed, drop_leading, format_block, math_layout, drop_trailing, first_nonempty, join_claimed, last_nonempty,
    merge_from, skip_blank, split_lf_from, trim_block, trim_ends,
};
use crate::text::{
    back_ws, is_blank, is_ws, lemma_back_ws, lemma_next_newline, line_of, lines, next_newline,
    trim, trim_end, trim_start, skip_ws, lemma_skip_ws, begins, finishes,
};

verus! {

proof fn lemma_trim_end_visible(l: Seq<char>)
    ensures
        visible(trim_end(l)) == visible(l),
{
    lemma_back_ws(l, l.len() as int);
    let b = back_ws(l, l.len() as int);
    assert(l =~= l.subrange(0, b) + l.subrange(b, l.len() as int));
    lemma_visible_concat(l.subrange(0, b), l.subrange(b, l.len() as int));
    lemma_visible_blank(l.subrange(b, l.len() as int));
    assert(visible(l.subrange(0, b)) + Seq::<char>::empty() =~= visible(l.subrange(0, b)));
}

proof fn lemma_trim_start_visible(l: Seq<char>)
    ensures
        visible(trim_start(l)) == visible(l),
{
    lemma_skip_ws(l, 0);
    let a = skip_ws(l, 0);
    assert(l =~= l.subrange(0, a) + l.subrange(a, l.len() as int));
    lemma_visible_concat(l.subrange(0, a), l.subrange(a, l.len() as int));
    lemma_visible_blank(l.subrange(0, a));
    assert(Seq::<char>::empty() + visible(trim_start(l)) =~= visible(trim_start(l)));
}

proof fn lemma_vis_all_empty(ls: Seq<Seq<char>>)
    requires
        forall|k: int| 0 <= k < ls.len() ==> (#[trigger] ls[k]).len() == 0,
    ensures
        vis_all(ls) == Seq::<char>::empty(),
    decreases ls.len(),
{
    if ls.len() > 0 {
        lemma_vis_all_empty(ls.drop_last());
        assert(ls.last().len() == 0);
        assert(ls.last() =~= Seq::<char>::empty());
        lemma_visible_blank(ls.last());
        assert(vis_all(ls) =~= Seq::<char>::empty());
    }
}

proof fn lemma_vis_all_trim_ends(ls: Seq<Seq<char>>)
    ensures
        vis_all(trim_ends(ls)) == vis_all(ls),
    decreases ls.len(),
{
    if ls.len() > 0 {
        lemma_vis_all_trim_ends(ls.drop_last());
        assert(trim_ends(ls).drop_last() =~= trim_ends(ls.drop_last()));
        lemma_trim_end_visible(ls.last());
    }
}

proof fn lemma_vis_all_split3(ls: Seq<Seq<char>>, a: int, b: int)
    requires
        0 <= a <= b <= ls.len(),
    ensures
        vis_all(ls) == vis_all(ls.subrange(0, a)) + vis_all(ls.subrange(a, b)) + vis_all(
            ls.subrange(b, ls.len() as int),
        ),
{
    assert(ls =~= ls.subrange(0, a) + ls.subrange(a, b) + ls.subrange(b, ls.len() as int));
    lemma_vis_all_concat(ls.subrange(0, a) + ls.subrange(a, b), ls.subrange(b, ls.len() as int));
    lemma_vis_all_concat(ls.subrange(0, a), ls.subrange(a, b));
}

proof fn lemma_first(ls: Seq<Seq<char>>, i: int)
    requires
        0 <= i,
    ensures
        first_nonempty(ls, i) matches Some(f) ==> i <= f < ls.len() && ls[f].len() > 0 && forall|
            k: int,
        | i <= k < f ==> (#[trigger] ls[k]).len() == 0,
        first_nonempty(ls, i) is None ==> forall|k: int| i <= k < ls.len() ==> (#[trigger] ls[k]).len()
            == 0,
    decreases ls.len() - i,
{
    if i < ls.len() && ls[i].len() == 0 {
        lemma_first(ls, i + 1);
    }
}

proof fn lemma_last(ls: Seq<Seq<char>>, j: int)
    requires
        0 <= j <= ls.len(),
    ensures
        last_nonempty(ls, j) matches Some(l) ==> 0 <= l < j && ls[l].len() > 0 && forall|k: int|
            l < k < j ==> (#[trigger] ls[k]).len() == 0,
        last_nonempty(ls, j) is None ==> forall|k: int| 0 <= k < j ==> (#[trigger] ls[k]).len() == 0,
    decreases j,
{
    if j > 0 && ls[j - 1].len() == 0 {
        lemma_last(ls, j - 1);
    }
}

proof fn lemma_vis_all_lines(s: Seq<char>)
    ensures
        vis_all(lines(s)) == visible(s),
{
    lemma_pieces_visible(s, 0);
    assert(lines(s) =~= crate::text::pieces_from(s, 0).map_values(|p: Seq<char>| line_of(p)));
    assert(s.subrange(0, s.len() as int) =~= s);
}

/// Trimming a held equation of its delimiter whitespace drops whitespace
/// only.
proof fn lemma_trim_block_visible(source: Seq<char>)
    ensures
        visible(trim_block(source)) == visible(source),
{
    let ls = trim_ends(lines(source));
    lemma_vis_all_lines(source);
    lemma_vis_all_trim_ends(lines(source));
    lemma_first(ls, 0);
    lemma_last(ls, ls.len() as int);
    match first_nonempty(ls, 0) {
        None => {
            lemma_vis_all_empty(ls);
            assert(visible(Seq::<char>::empty()) =~= Seq::<char>::empty());
        },
        Some(f) => match last_nonempty(ls, ls.len() as int) {
            None => {
                lemma_vis_all_empty(ls);
            },
            Some(l) => {
                assert(f <= l);
                let body = seq![trim_start(ls[f])] + ls.subrange(f + 1, l + 1);
                lemma_join_lines_visible(body);
                lemma_vis_all_concat(seq![trim_start(ls[f])], ls.subrange(f + 1, l + 1));
                lemma_vis_all_one(trim_start(ls[f]));
                lemma_trim_start_visible(ls[f]);
                lemma_vis_all_concat(seq![ls[f]], ls.subrange(f + 1, l + 1));
                lemma_vis_all_one(ls[f]);
                assert(ls.subrange(f, l + 1) =~= seq![ls[f]] + ls.subrange(f + 1, l + 1));
                lemma_vis_all_split3(ls, f, l + 1);
                assert forall|k: int| 0 <= k < f implies (#[trigger] ls.subrange(0, f)[k]).len()
                    == 0 by {
                    assert(ls.subrange(0, f)[k] == ls[k]);
                }
                assert forall|k: int| 0 <= k < ls.len() - (l + 1) implies (#[trigger] ls.subrange(
                    l + 1,
                    ls.len() as int,
                )[k]).len() == 0 by {
                    assert(ls.subrange(l + 1, ls.len() as int)[k] == ls[l + 1 + k]);
                }
                lemma_vis_all_empty(ls.subrange(0, f));
                lemma_vis_all_empty(ls.subrange(l + 1, ls.len() as int));
                assert(vis_all(ls) =~= vis_all(ls.subrange(f, l + 1)));
            },
        },
    }
}

proof fn lemma_drop_trailing_visible(s: Seq<char>, c: char)
    requires
        is_ws(c),
    ensures
        visible(drop_trailing(s, c)) == visible(s),
    decreases s.len(),
{
    if s.len() > 0 && s.last() == c {
        lemma_drop_trailing_visible(s.drop_last(), c);
        assert(s =~= s.drop_last() + seq![c]);
        lemma_visible_concat(s.drop_last(), seq![c]);
        lemma_visible_one(c);
        assert(visible(s.drop_last()) + Seq::<char>::empty() =~= visible(s.drop_last()));
    }
}

proof fn lemma_drop_leading_visible(s: Seq<char>, c: char)
    requires
        is_ws(c),
    ensures
        visible(drop_leading(s, c)) == visible(s),
    decreases s.len(),
{
    if s.len() > 0 && s[0] == c {
        lemma_drop_leading_visible(s.skip(1), c);
        assert(s =~= seq![c] + s.skip(1));
        lemma_visible_concat(seq![c], s.skip(1));
        lemma_visible_one(c);
        assert(Seq::<char>::empty() + visible(s.skip(1)) =~= visible(s.skip(1)));
    }
}

proof fn lemma_split_lf_visible(s: Seq<char>, i: int)
    requires
        0 <= i <= s.len(),
    ensures
        vis_all(split_lf_from(s, i)) == visible(s.subrange(i, s.len() as int)),
    decreases s.len() - i,
{
    lemma_next_newline(s, i);
    let e = next_newline(s, i);
    if e >= s.len() {
        lemma_vis_all_one(s.subrange(i, s.len() as int));
    } else {
        lemma_split_lf_visible(s, e + 1);
        let head = s.subrange(i, e);
        let rest = split_lf_from(s, e + 1);
        lemma_vis_all_concat(seq![head], rest);
        lemma_vis_all_one(head);
        assert(s.subrange(i, s.len() as int) =~= head + (seq!['\n'] + s.subrange(e + 1, s.len() as int)));
        lemma_visible_concat(head, seq!['\n'] + s.subrange(e + 1, s.len() as int));
        lemma_visible_concat(seq!['\n'], s.subrange(e + 1, s.len() as int));
        lemma_visible_one('\n');
        assert(Seq::<char>::empty() + visible(s.subrange(e + 1, s.len() as int)) =~= visible(
            s.subrange(e + 1, s.len() as int),
        ));
    }
}

proof fn lemma_skip_blank_visible(s: Seq<char>, i: int)
    requires
        0 <= i <= s.len(),
    ensures
        i <= skip_blank(s, i) <= s.len(),
        visible(s.subrange(i, skip_blank(s, i))) == Seq::<char>::empty(),
    decreases s.len() - i,
{
    if i < s.len() && is_blank(s[i]) {
        lemma_skip_blank_visible(s, i + 1);
        let b = skip_blank(s, i);
        assert(s.subrange(i, b) =~= seq![s[i]] + s.subrange(i + 1, b));
        lemma_visible_concat(seq![s[i]], s.subrange(i + 1, b));
        lemma_visible_one(s[i]);
    } else {
        assert(s.subrange(i, skip_blank(s, i)) =~= Seq::<char>::empty());
        lemma_visible_blank(Seq::<char>::empty());
    }
}

proof fn lemma_merge_visible(segs: Seq<Seq<char>>, i: int, acc: Seq<Seq<char>>)
    requires
        0 <= i <= segs.len(),
    ensures
        vis_all(merge_from(segs, i, acc)) == vis_all(acc) + vis_all(
            segs.subrange(i, segs.len() as int),
        ),
    decreases segs.len() - i,
{
    if i >= segs.len() {
        assert(segs.subrange(i, segs.len() as int) =~= Seq::<Seq<char>>::empty());
        assert(vis_all(acc) + vis_all(Seq::<Seq<char>>::empty()) =~= vis_all(acc));
    } else {
        let seg = segs[i];
        let rest = segs.subrange(i + 1, segs.len() as int);
        assert(segs.subrange(i, segs.len() as int) =~= seq![seg] + rest);
        lemma_vis_all_concat(seq![seg], rest);
        lemma_vis_all_one(seg);
        if acc.len() > 0 && claimed(seg) {
            lemma_skip_blank_visible(seg, 0);
            let b = skip_blank(seg, 0);
            let merged = acc.last().push(' ') + seg.skip(b);
            let acc2 = acc.update(acc.len() - 1, merged);
            lemma_merge_visible(segs, i + 1, acc2);
            let front = acc.drop_last();
            assert(acc =~= front + seq![acc.last()]);
            assert(acc2 =~= front + seq![merged]);
            lemma_vis_all_concat(front, seq![acc.last()]);
            lemma_vis_all_concat(front, seq![merged]);
            lemma_vis_all_one(acc.last());
            lemma_vis_all_one(merged);
            assert(acc.last().push(' ') =~= acc.last() + seq![' ']);
            lemma_visible_concat(acc.last() + seq![' '], seg.skip(b));
            lemma_visible_concat(acc.last(), seq![' ']);
            lemma_visible_one(' ');
            assert(seg =~= seg.subrange(0, b) + seg.skip(b));
            lemma_visible_concat(seg.subrange(0, b), seg.skip(b));
            assert(visible(merged) =~= visible(acc.last()) + visible(seg));
            assert(vis_all(acc2) + vis_all(rest) =~= vis_all(acc) + (visible(seg) + vis_all(rest)));
        } else {
            lemma_merge_visible(segs, i + 1, acc.push(seg));
            assert(acc.push(seg) =~= acc + seq![seg]);
            lemma_vis_all_concat(acc, seq![seg]);
            assert(vis_all(acc.push(seg)) + vis_all(rest) =~= vis_all(acc) + (visible(seg) + vis_all(
                rest,
            )));
        }
    }
}

/// Joining the lines Markdown would claim changes whitespace only.
proof fn lemma_join_claimed_visible(text: Seq<char>)
    ensures
        visible(join_claimed(text)) == visible(text),
{
    let segs = split_lf_from(text, 0);
    lemma_split_lf_visible(text, 0);
    lemma_merge_visible(segs, 0, seq![]);
    lemma_join_lines_visible(merge_from(segs, 0, seq![]));
    assert(segs.subrange(0, segs.len() as int) =~= segs);
    assert(text.subrange(0, text.len() as int) =~= text);
    assert(vis_all(Seq::<Seq<char>>::empty()) =~= Seq::<char>::empty());
    assert(Seq::<char>::empty() + vis_all(segs) =~= vis_all(segs));
}

// ---------------------------------------------------------------------------
// Row-aware environments
// ---------------------------------------------------------------------------

/// The separator a split removes: a row break, or an alignment tab.
pub open spec fn split_sep(rows: bool) -> Seq<char> {
    if rows {
        seq!['\\', '\\']
    } else {
        seq!['&']
    }
}

/// The parts so far, joined by `sep`, followed by the rest of the text.
pub open spec fn joined_then(parts: Seq<Seq<char>>, tail: Seq<char>, sep: Seq<char>) -> Seq<char> {
    if parts.len() == 0 {
        tail
    } else {
        join_with(parts, sep) + sep + tail
    }
}

proof fn lemma_join_push(parts: Seq<Seq<char>>, x: Seq<char>, sep: Seq<char>)
    ensures
        join_with(parts.push(x), sep) == joined_then(parts, x, sep),
{
    assert(parts.push(x).drop_last() =~= parts);
    assert(parts.push(x).last() == x);
    if parts.len() == 0 {
        assert(parts.push(x)[0] == x);
    }
}

/// What a split returns, joined by the separator it removed, is the text
/// it split.
proof fn lemma_split_go(
    s: Seq<char>,
    rows: bool,
    i: int,
    depth: nat,
    start: int,
    parts: Seq<Seq<char>>,
)
    requires
        0 <= start <= i <= s.len(),
    ensures
        split_go(s, rows, i, depth, start, parts) matches Some(res) ==> join_with(res, split_sep(rows))
            == joined_then(parts, s.subrange(start, s.len() as int), split_sep(rows)),
    decreases s.len() - i,
{
    let sep = split_sep(rows);
    if i >= s.len() {
        lemma_join_push(parts, s.subrange(start, s.len() as int), sep);
    } else if s[i] == '\\' {
        if i + 1 < s.len() {
            if s[i + 1] == '\\' {
                if depth == 0 && rows {
                    lemma_split_go(s, rows, i + 2, depth, i + 2, parts.push(s.subrange(start, i)));
                    lemma_join_push(parts, s.subrange(start, i), sep);
                    assert(s.subrange(start, s.len() as int) =~= s.subrange(start, i) + sep + s.subrange(
                        i + 2,
                        s.len() as int,
                    ));
                    if parts.len() == 0 {
                        assert(joined_then(parts, s.subrange(start, i), sep) + sep + s.subrange(
                            i + 2,
                            s.len() as int,
                        ) =~= joined_then(parts, s.subrange(start, s.len() as int), sep));
                    } else {
                        assert(joined_then(parts, s.subrange(start, i), sep) + sep + s.subrange(
                            i + 2,
                            s.len() as int,
                        ) =~= joined_then(parts, s.subrange(start, s.len() as int), sep));
                    }
                }
            } else {
                let j = if crate::text::is_ascii_alpha(s[i + 1]) {
                    crate::math::alpha_end(s, i + 2)
                } else {
                    i + 2
                };
                if i < j <= s.len() {
                    lemma_split_go(s, rows, j, depth, start, parts);
                }
            }
        }
    } else if s[i] == '{' {
        lemma_split_go(s, rows, i + 1, depth + 1, start, parts);
    } else if s[i] == '}' {
        if depth > 0 {
            lemma_split_go(s, rows, i + 1, (depth - 1) as nat, start, parts);
        }
    } else if s[i] == '&' && depth == 0 && !rows {
        lemma_split_go(s, rows, i + 1, depth, i + 1, parts.push(s.subrange(start, i)));
        lemma_join_push(parts, s.subrange(start, i), sep);
        assert(s.subrange(start, s.len() as int) =~= s.subrange(start, i) + sep + s.subrange(
            i + 1,
            s.len() as int,
        ));
        assert(joined_then(parts, s.subrange(start, i), sep) + sep + s.subrange(i + 1, s.len() as int)
            =~= joined_then(parts, s.subrange(start, s.len() as int), sep));
    } else {
        lemma_split_go(s, rows, i + 1, depth, start, parts);
    }
}

pub open spec fn visibles(ls: Seq<Seq<char>>) -> Seq<Seq<char>> {
    ls.map_values(|l: Seq<char>| visible(l))
}

proof fn lemma_join_visible(ls: Seq<Seq<char>>, sep: Seq<char>)
    ensures
        visible(join_with(ls, sep)) == join_with(visibles(ls), visible(sep)),
    decreases ls.len(),
{
    if ls.len() == 0 {
        assert(visible(Seq::<char>::empty()) =~= Seq::<char>::empty());
    } else if ls.len() == 1 {
        assert(visibles(ls)[0] == visible(ls[0]));
    } else {
        lemma_join_visible(ls.drop_last(), sep);
        assert(visibles(ls).drop_last() =~= visibles(ls.drop_last()));
        assert(visibles(ls).last() == visible(ls.last()));
        lemma_visible_concat(join_with(ls.drop_last(), sep) + sep, ls.last());
        lemma_visible_concat(join_with(ls.drop_last(), sep), sep);
    }
}

proof fn lemma_sep_visible(rows: bool)
    ensures
        visible(split_sep(rows)) == split_sep(rows),
{
    if rows {
        assert(split_sep(rows) =~= seq!['\\'] + seq!['\\']);
        lemma_visible_concat(seq!['\\'], seq!['\\']);
        lemma_visible_one('\\');
    } else {
        lemma_visible_one('&');
    }
}

/// A split text, seen without whitespace, is its parts seen without
/// whitespace, joined by the separator.
proof fn lemma_split_top_visible(s: Seq<char>, rows: bool)
    ensures
        split_top(s, rows) matches Some(parts) ==> visible(s) == join_with(
            visibles(parts),
            split_sep(rows),
        ),
{
    lemma_split_go(s, rows, 0, 0, 0, seq![]);
    if let Some(parts) = split_top(s, rows) {
        assert(s.subrange(0, s.len() as int) =~= s);
        lemma_join_visible(parts, split_sep(rows));
        lemma_sep_visible(rows);
    }
}

proof fn lemma_cells_from(cells: Seq<Seq<char>>, index: int, acc: Seq<char>)
    requires
        0 <= index <= cells.len(),
        visible(acc) == join_with(visibles(cells.take(index)), seq!['&']),
    ensures
        cells_from(cells, index, acc) matches Some(f) ==> visible(f) == join_with(
            visibles(cells),
            seq!['&'],
        ),
    decreases cells.len() - index,
{
    if index >= cells.len() {
        assert(cells.take(index) =~= cells);
    } else {
        let cell = trim(cells[index]);
        if !(cell.len() == 0 && index != 0) {
            let value = display_math(cell, MathStyle::Compact, usize::MAX as nat);
            if !value.contains('\n') {
                let tab = if index > 0 {
                    if value.len() > 0 && value[0] == '=' {
                        " &"@
                    } else {
                        " & "@
                    }
                } else {
                    seq![]
                };
                reveal_strlit(" &");
                reveal_strlit(" & ");
                law_reflow_changes_only_whitespace(cell, MathStyle::Compact, usize::MAX as nat);
                lemma_trim_visible(cells[index]);
                lemma_visible_concat(acc + tab, value);
                lemma_visible_concat(acc, tab);
                if index > 0 {
                    assert(visible(tab) == seq!['&']) by {
                        if value.len() > 0 && value[0] == '=' {
                            assert(tab =~= seq![' '] + seq!['&']);
                            lemma_visible_concat(seq![' '], seq!['&']);
                        } else {
                            assert(tab =~= seq![' '] + seq!['&'] + seq![' ']);
                            lemma_visible_concat(seq![' '] + seq!['&'], seq![' ']);
                            lemma_visible_concat(seq![' '], seq!['&']);
                        }
                        lemma_visible_one(' ');
                        lemma_visible_one('&');
                    }
                } else {
                    assert(visible(tab) =~= Seq::<char>::empty()) by {
                        lemma_visible_blank(tab);
                    }
                }
                let vt = visibles(cells.take(index + 1));
                assert(vt.drop_last() =~= visibles(cells.take(index)));
                assert(vt.last() == visible(cells[index]));
                if index == 0 {
                    assert(vt =~= seq![visible(cells[0])]);
                    assert(visible(acc) =~= Seq::<char>::empty());
                }
                assert(visible(acc + tab + value) =~= join_with(vt, seq!['&']));
                lemma_cells_from(cells, index + 1, acc + tab + value);
            }
        }
    }
}

/// A row laid out on its line keeps the characters that are not
/// whitespace.
proof fn lemma_format_row_visible(row: Seq<char>)
    ensures
        format_row(row) matches Some(line) ==> visible(line) == visible(row),
{
    if let Some(line) = format_row(row) {
        let cells = split_top(row, false)->0;
        lemma_split_top_visible(row, false);
        assert(cells.take(0) =~= Seq::<Seq<char>>::empty());
        assert(visibles(Seq::<Seq<char>>::empty()) =~= Seq::<Seq<char>>::empty());
        assert(visible(Seq::<char>::empty()) =~= Seq::<char>::empty());
        lemma_cells_from(cells, 0, seq![]);
        let f = cells_from(cells, 0, seq![])->0;
        reveal_strlit("  ");
        lemma_trim_end_visible(f);
        lemma_visible_concat("  "@, trim_end(f));
        lemma_visible_blank("  "@);
        assert(Seq::<char>::empty() + visible(trim_end(f)) =~= visible(trim_end(f)));
    }
}

proof fn lemma_rows_from(rows: Seq<Seq<char>>, i: int, acc: Seq<Seq<char>>)
    requires
        0 <= i <= rows.len(),
        visibles(acc) == visibles(rows.take(i)),
    ensures
        rows_from(rows, i, acc) matches Some(lines) ==> visibles(lines) == visibles(rows),
    decreases rows.len() - i,
{
    if i >= rows.len() {
        assert(rows.take(i) =~= rows);
    } else if let Some(r) = format_row(rows[i]) {
        lemma_format_row_visible(rows[i]);
        assert(visibles(acc.push(r)) =~= visibles(rows.take(i + 1))) by {
            assert(visibles(acc.push(r)) =~= visibles(acc).push(visible(r)));
            assert(visibles(rows.take(i + 1)) =~= visibles(rows.take(i)).push(visible(rows[i])));
        }
        lemma_rows_from(rows, i + 1, acc.push(r));
    }
}

/// Laying out an environment row by row keeps the characters that are not
/// whitespace, row breaks and alignment tabs among them.
proof fn lemma_environment_visible(input: Seq<char>)
    ensures
        environment(input) matches Some(out) ==> visible(out) == visible(input),
{
    if let Some(out) = environment(input) {
        let source = trim(input);
        let k = which_environment(source)->0;
        let open = opener(k);
        let close = closer(k);
        let rest = source.skip(open.len() as int);
        let body = rest.subrange(0, rest.len() - close.len());
        let rows = split_top(body, true)->0;
        let lines = rows_from(rows, 0, seq![])->0;
        assert(rows.take(0) =~= Seq::<Seq<char>>::empty());
        assert(visibles(Seq::<Seq<char>>::empty()) =~= Seq::<Seq<char>>::empty());
        lemma_rows_from(rows, 0, seq![]);
        lemma_split_top_visible(body, true);
        lemma_join_visible(lines, row_separator());
        reveal_strlit(" \\\\\n");
        assert(row_separator() =~= seq![' '] + split_sep(true) + seq!['\n']);
        lemma_visible_concat(seq![' '] + split_sep(true), seq!['\n']);
        lemma_visible_concat(seq![' '], split_sep(true));
        lemma_visible_one(' ');
        lemma_visible_one('\n');
        lemma_sep_visible(true);
        assert(visible(row_separator()) =~= split_sep(true));
        let mid = join_with(lines, row_separator());
        assert(out =~= open + seq!['\n'] + mid + seq!['\n'] + close);
        lemma_visible_concat(open + seq!['\n'] + mid + seq!['\n'], close);
        lemma_visible_concat(open + seq!['\n'] + mid, seq!['\n']);
        lemma_visible_concat(open + seq!['\n'], mid);
        lemma_visible_concat(open, seq!['\n']);
        assert(begins(source, open) && finishes(source, close));
        assert(source =~= open + body + close);
        lemma_visible_concat(open + body, close);
        lemma_visible_concat(open, body);
        lemma_trim_visible(input);
        assert(visible(out) =~= visible(source));
    }
}

// ---------------------------------------------------------------------------
// A held equation
// ---------------------------------------------------------------------------

/// The layout of an equation, environment or display, changes whitespace
/// only.
proof fn lemma_math_layout_visible(s: Seq<char>, prefs: crate::FormatOptions)
    ensures
        visible(math_layout(s, prefs)) == visible(s),
{
    lemma_environment_visible(s);
    law_reflow_changes_only_whitespace(s, prefs.math_style, prefs.math_width as nat);
}

/// Formatting an equation held aside changes whitespace and nothing else:
/// its characters that are not whitespace, the delimiters' contents, row
/// breaks, and alignment tabs among them, come back in the same order.
/// What a renderer makes of it is therefore unchanged, beyond whitespace,
/// which TeX math mode does not set.
pub proof fn law_held_equations_change_only_whitespace(
    source: Seq<char>,
    prefs: crate::FormatOptions,
)
    ensures
        visible(format_block(source, prefs)) == visible(source),
{
    lemma_trim_block_visible(source);
    let s = trim_block(source);
    if s.len() > 0 {
        let laid = math_layout(s, prefs);
        lemma_math_layout_visible(s, prefs);
        lemma_drop_trailing_visible(laid, '\n');
        lemma_drop_leading_visible(drop_trailing(laid, '\n'), '\n');
        let f = drop_leading(drop_trailing(laid, '\n'), '\n');
        lemma_join_claimed_visible(f);
    }
}

} // verus!
