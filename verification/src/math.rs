//! Conservative, token-aware layout of ordinary display math.
//!
//! TeX environments, comments, alignment markers, and explicit line breaks are
//! left unchanged: those need an environment-aware parser, not a whitespace
//! pass. Everything else is split into tokens -- control sequences, braced
//! groups, the operators `+ - =`, runs of letters and digits, and single
//! punctuation characters -- and laid out again. Source newlines between
//! tokens are insignificant; a line is broken only where Markdown cannot
//! misread the line that follows.

use vstd::prelude::*;

use crate::text::{
    append, chars_of, contains, contains_char, copy, holds, is_ascii_alpha, is_ascii_alphabetic,
    is_blank_text, is_digit, is_whitespace, is_ws, lines, matches_at, slice, split_lines, trim,
    trimmed, views,
};
use crate::MathStyle;

verus! {

// ---------------------------------------------------------------------------
// Tokens
// ---------------------------------------------------------------------------

#[derive(Clone, Copy, PartialEq, Eq, Structural)]
pub enum Kind {
    Command,
    Group,
    Operator,
    Atom,
    Punctuation,
}

/// A token as the specifications see it.
pub struct Lexeme {
    pub text: Seq<char>,
    pub kind: Kind,
    /// Whitespace separated it from the token before it in the source.
    pub spaced: bool,
}

pub struct Token {
    pub text: Vec<char>,
    pub kind: Kind,
    pub spaced: bool,
}

impl View for Token {
    type V = Lexeme;

    open spec fn view(&self) -> Lexeme {
        Lexeme { text: self.text@, kind: self.kind, spaced: self.spaced }
    }
}

pub open spec fn lexemes(v: Seq<Token>) -> Seq<Lexeme> {
    v.map_values(|t: Token| t@)
}

/// What `char::is_alphanumeric` reports: the Unicode `Alphabetic` or
/// `Numeric` property.
pub uninterp spec fn unicode_alphanumeric(c: char) -> bool;

/// Calls `char::is_alphanumeric`. Claimed: the answer is the one
/// `unicode_alphanumeric` names for `c`.
#[verifier::external_body]
fn is_alphanumeric(c: char) -> (r: bool)
    ensures
        r == unicode_alphanumeric(c),
{
    c.is_alphanumeric()
}

/// A letter or a digit: among ASCII characters exactly the letters and the
/// digits, beyond ASCII the Unicode `Alphabetic` or `Numeric` property.
/// This is `char::is_alphanumeric`, asked only where ASCII does not settle
/// it.
pub open spec fn alphanumeric(c: char) -> bool {
    if (c as u32) < 128 {
        is_ascii_alpha(c) || is_digit(c)
    } else {
        unicode_alphanumeric(c)
    }
}

fn is_alnum(c: char) -> (r: bool)
    ensures
        r == alphanumeric(c),
{
    let u = c as u32;
    if u < 128 {
        (97 <= u && u <= 122) || (65 <= u && u <= 90) || (48 <= u && u <= 57)
    } else {
        is_alphanumeric(c)
    }
}

pub open spec fn is_operator_char(c: char) -> bool {
    c == '+' || c == '-' || c == '='
}

pub open spec fn kind_of(c: char) -> Kind {
    if c == '\\' {
        Kind::Command
    } else if c == '{' {
        Kind::Group
    } else if is_operator_char(c) {
        Kind::Operator
    } else if alphanumeric(c) {
        Kind::Atom
    } else {
        Kind::Punctuation
    }
}

/// End of the run of ASCII letters starting at `p`.
pub open spec fn alpha_end(s: Seq<char>, p: int) -> int
    decreases s.len() - p,
{
    if 0 <= p < s.len() && is_ascii_alpha(s[p]) {
        alpha_end(s, p + 1)
    } else {
        p
    }
}

/// End of the run of alphanumeric characters starting at `p`.
pub open spec fn alnum_end(s: Seq<char>, p: int) -> int
    decreases s.len() - p,
{
    if 0 <= p < s.len() && alphanumeric(s[p]) {
        alnum_end(s, p + 1)
    } else {
        p
    }
}

/// End of a control sequence whose backslash stands just before `p`: a
/// control word takes every following letter, a control symbol one character.
pub open spec fn command_end(s: Seq<char>, p: int) -> int {
    if 0 <= p < s.len() {
        if is_ascii_alpha(s[p]) {
            alpha_end(s, p)
        } else {
            p + 1
        }
    } else {
        p
    }
}

/// End of a braced group, scanning from `p` with `depth` braces open. An
/// escaped brace does not count, and the group runs to the end of the text
/// if it is never closed.
pub open spec fn group_end(s: Seq<char>, p: int, depth: nat) -> int
    decreases s.len() - p,
{
    if depth == 0 || p < 0 || p >= s.len() {
        p
    } else if s[p] == '\\' {
        if p + 1 < s.len() && (s[p + 1] == '{' || s[p + 1] == '}') {
            group_end(s, p + 2, depth)
        } else {
            group_end(s, p + 1, depth)
        }
    } else if s[p] == '{' {
        group_end(s, p + 1, depth + 1)
    } else if s[p] == '}' {
        group_end(s, p + 1, (depth - 1) as nat)
    } else {
        group_end(s, p + 1, depth)
    }
}

/// End of the token whose first character is `s[p]`.
pub open spec fn token_end(s: Seq<char>, p: int) -> int {
    let c = s[p];
    if c == '\\' {
        command_end(s, p + 1)
    } else if c == '{' {
        group_end(s, p + 1, 1)
    } else if is_operator_char(c) {
        p + 1
    } else if alphanumeric(c) {
        alnum_end(s, p + 1)
    } else {
        p + 1
    }
}

pub open spec fn tokens_acc(s: Seq<char>, pos: int, spaced: bool, acc: Seq<Lexeme>) -> Seq<
    Lexeme,
>
    decreases s.len() - pos,
{
    if pos < 0 || pos >= s.len() {
        acc
    } else if is_ws(s[pos]) {
        tokens_acc(s, pos + 1, true, acc)
    } else {
        let e = token_end(s, pos);
        if e <= pos || e > s.len() {
            acc
        } else {
            tokens_acc(
                s,
                e,
                false,
                acc.push(Lexeme { text: s.subrange(pos, e), kind: kind_of(s[pos]), spaced }),
            )
        }
    }
}

/// The tokens of a joined equation, in order.
pub open spec fn tokenize(s: Seq<char>) -> Seq<Lexeme> {
    tokens_acc(s, 0, false, seq![])
}

pub proof fn lemma_alpha_end(s: Seq<char>, p: int)
    requires
        0 <= p <= s.len(),
    ensures
        p <= alpha_end(s, p) <= s.len(),
    decreases s.len() - p,
{
    if p < s.len() && is_ascii_alpha(s[p]) {
        lemma_alpha_end(s, p + 1);
    }
}

pub proof fn lemma_alnum_end(s: Seq<char>, p: int)
    requires
        0 <= p <= s.len(),
    ensures
        p <= alnum_end(s, p) <= s.len(),
    decreases s.len() - p,
{
    if p < s.len() && alphanumeric(s[p]) {
        lemma_alnum_end(s, p + 1);
    }
}

pub proof fn lemma_group_end(s: Seq<char>, p: int, depth: nat)
    requires
        0 <= p <= s.len(),
    ensures
        p <= group_end(s, p, depth) <= s.len(),
    decreases s.len() - p,
{
    if depth == 0 || p >= s.len() {
    } else if s[p] == '\\' {
        if p + 1 < s.len() && (s[p + 1] == '{' || s[p + 1] == '}') {
            lemma_group_end(s, p + 2, depth);
        } else {
            lemma_group_end(s, p + 1, depth);
        }
    } else if s[p] == '{' {
        lemma_group_end(s, p + 1, depth + 1);
    } else if s[p] == '}' {
        lemma_group_end(s, p + 1, (depth - 1) as nat);
    } else {
        lemma_group_end(s, p + 1, depth);
    }
}

pub proof fn lemma_token_end(s: Seq<char>, p: int)
    requires
        0 <= p < s.len(),
    ensures
        p < token_end(s, p) <= s.len(),
{
    lemma_alpha_end(s, p + 1);
    lemma_alnum_end(s, p + 1);
    lemma_group_end(s, p + 1, 1);
    if p + 1 < s.len() && is_ascii_alpha(s[p + 1]) {
        lemma_alpha_end(s, p + 1);
    }
}

fn scan_alpha(s: &Vec<char>, p: usize) -> (r: usize)
    requires
        p <= s.len(),
    ensures
        r == alpha_end(s@, p as int),
        p <= r <= s.len(),
{
    let mut k = p;
    while k < s.len() && is_ascii_alphabetic(s[k])
        invariant
            p <= k <= s.len(),
            alpha_end(s@, k as int) == alpha_end(s@, p as int),
        decreases s.len() - k,
    {
        k = k + 1;
    }
    k
}

fn scan_alnum(s: &Vec<char>, p: usize) -> (r: usize)
    requires
        p <= s.len(),
    ensures
        r == alnum_end(s@, p as int),
        p <= r <= s.len(),
{
    let mut k = p;
    while k < s.len() && is_alnum(s[k])
        invariant
            p <= k <= s.len(),
            alnum_end(s@, k as int) == alnum_end(s@, p as int),
        decreases s.len() - k,
    {
        k = k + 1;
    }
    k
}

fn scan_group(s: &Vec<char>, p: usize) -> (r: usize)
    requires
        1 <= p <= s.len(),
    ensures
        r == group_end(s@, p as int, 1),
        p <= r <= s.len(),
{
    let mut k = p;
    let mut depth: usize = 1;
    while depth > 0 && k < s.len()
        invariant
            1 <= p <= k <= s.len(),
            depth <= k - p + 1,
            group_end(s@, k as int, depth as nat) == group_end(s@, p as int, 1),
        decreases s.len() - k,
    {
        let c = s[k];
        if c == '\\' {
            if k + 1 < s.len() && (s[k + 1] == '{' || s[k + 1] == '}') {
                k = k + 2;
            } else {
                k = k + 1;
            }
        } else if c == '{' {
            depth = depth + 1;
            k = k + 1;
        } else if c == '}' {
            depth = depth - 1;
            k = k + 1;
        } else {
            k = k + 1;
        }
    }
    k
}

fn kind_at(c: char) -> (k: Kind)
    ensures
        k == kind_of(c),
{
    if c == '\\' {
        Kind::Command
    } else if c == '{' {
        Kind::Group
    } else if c == '+' || c == '-' || c == '=' {
        Kind::Operator
    } else if is_alnum(c) {
        Kind::Atom
    } else {
        Kind::Punctuation
    }
}

fn scan_token(s: &Vec<char>, p: usize) -> (r: usize)
    requires
        p < s.len(),
    ensures
        r == token_end(s@, p as int),
        p < r <= s.len(),
{
    proof {
        lemma_token_end(s@, p as int);
    }
    let c = s[p];
    if c == '\\' {
        if p + 1 < s.len() {
            if is_ascii_alphabetic(s[p + 1]) {
                scan_alpha(s, p + 1)
            } else {
                p + 2
            }
        } else {
            p + 1
        }
    } else if c == '{' {
        scan_group(s, p + 1)
    } else if c == '+' || c == '-' || c == '=' {
        p + 1
    } else if is_alnum(c) {
        scan_alnum(s, p + 1)
    } else {
        p + 1
    }
}

pub fn tokenize_exec(s: &Vec<char>) -> (t: Vec<Token>)
    ensures
        lexemes(t@) == tokenize(s@),
{
    let mut tokens: Vec<Token> = Vec::new();
    let mut pos: usize = 0;
    let mut spaced = false;
    assert(lexemes(tokens@) =~= seq![]);
    while pos < s.len()
        invariant
            pos <= s.len(),
            tokens_acc(s@, pos as int, spaced, lexemes(tokens@)) == tokenize(s@),
        decreases s.len() - pos,
    {
        if is_whitespace(s[pos]) {
            pos = pos + 1;
            spaced = true;
        } else {
            let e = scan_token(s, pos);
            let text = slice(s, pos, e);
            let kind = kind_at(s[pos]);
            let ghost old_tokens = tokens@;
            tokens.push(Token { text, kind, spaced });
            assert(lexemes(tokens@) =~= lexemes(old_tokens).push(
                Lexeme { text: s@.subrange(pos as int, e as int), kind: kind_of(s@[pos as int]), spaced },
            ));
            pos = e;
            spaced = false;
        }
    }
    tokens
}

// ---------------------------------------------------------------------------
// What may be reflowed
// ---------------------------------------------------------------------------

/// Braces balance, an escaped brace not counting.
pub open spec fn braces_balanced(s: Seq<char>, i: int, depth: nat) -> bool
    decreases s.len() - i,
{
    if i < 0 || i >= s.len() {
        depth == 0
    } else if s[i] == '\\' {
        if i + 1 < s.len() && (s[i + 1] == '{' || s[i + 1] == '}') {
            braces_balanced(s, i + 2, depth)
        } else {
            braces_balanced(s, i + 1, depth)
        }
    } else if s[i] == '{' {
        braces_balanced(s, i + 1, depth + 1)
    } else if s[i] == '}' {
        depth > 0 && braces_balanced(s, i + 1, (depth - 1) as nat)
    } else {
        braces_balanced(s, i + 1, depth)
    }
}

/// Constructs with layout or lexical meaning a token pass cannot keep:
/// explicit row breaks, alignment tabs, comments, environments, verbatim,
/// definitions, equation tags and labels, interjected text.
pub open spec fn has_layout_construct(s: Seq<char>) -> bool {
    holds(s, "\\\\"@) || s.contains('&') || s.contains('%') || holds(s, "\\begin"@) || holds(
        s,
        "\\end"@,
    ) || holds(s, "\\verb"@) || holds(s, "\\def"@) || holds(s, "\\newcommand"@) || holds(
        s,
        "\\tag"@,
    ) || holds(s, "\\label"@) || holds(s, "\\intertext"@) || s.contains('\r')
}

pub open spec fn reflowable(s: Seq<char>) -> bool {
    !has_layout_construct(s) && braces_balanced(s, 0, 0)
}

fn holds_word(s: &Vec<char>, w: &str) -> (r: bool)
    ensures
        r == holds(s@, w@),
{
    contains(s, &chars_of(w))
}

fn is_reflowable(s: &Vec<char>) -> (r: bool)
    ensures
        r == reflowable(s@),
{
    if holds_word(s, "\\\\") || contains_char(s, '&') || contains_char(s, '%') || holds_word(
        s,
        "\\begin",
    ) || holds_word(s, "\\end") || holds_word(s, "\\verb") || holds_word(s, "\\def")
        || holds_word(s, "\\newcommand") || holds_word(s, "\\tag") || holds_word(s, "\\label")
        || holds_word(s, "\\intertext") || contains_char(s, '\r') {
        return false;
    }
    let mut depth: usize = 0;
    let mut i: usize = 0;
    while i < s.len()
        invariant
            i <= s.len(),
            depth <= i,
            braces_balanced(s@, i as int, depth as nat) == braces_balanced(s@, 0, 0),
        decreases s.len() - i,
    {
        let c = s[i];
        if c == '\\' {
            if i + 1 < s.len() && (s[i + 1] == '{' || s[i + 1] == '}') {
                i = i + 2;
            } else {
                i = i + 1;
            }
        } else if c == '{' {
            depth = depth + 1;
            i = i + 1;
        } else if c == '}' {
            if depth == 0 {
                return false;
            }
            depth = depth - 1;
            i = i + 1;
        } else {
            i = i + 1;
        }
    }
    depth == 0
}

// ---------------------------------------------------------------------------
// Spacing between tokens
// ---------------------------------------------------------------------------

pub open spec fn is1(x: Seq<char>, c: char) -> bool {
    x.len() == 1 && x[0] == c
}

pub open spec fn is_sign(x: Seq<char>) -> bool {
    is1(x, '+') || is1(x, '-')
}

pub open spec fn opens(x: Seq<char>) -> bool {
    is1(x, '(') || is1(x, '[')
}

pub open spec fn closes(x: Seq<char>) -> bool {
    is1(x, ')') || is1(x, ']')
}

/// A sign that applies to what follows it rather than joining two terms.
pub open spec fn unary(t: Seq<Lexeme>, i: int) -> bool {
    is_sign(t[i].text) && (i == 0 || t[i - 1].kind == Kind::Operator || opens(t[i - 1].text))
}

pub open spec fn tight_before(x: Seq<char>) -> bool {
    is1(x, '.') || is1(x, ',') || is1(x, ';') || is1(x, ':') || is1(x, '!') || is1(x, '?')
        || is1(x, ')') || is1(x, ']') || is1(x, '^') || is1(x, '_') || is1(x, '\'')
}

pub open spec fn tight_after(x: Seq<char>) -> bool {
    is1(x, '(') || is1(x, '[') || is1(x, '^') || is1(x, '_')
}

/// Commands set apart from what precedes them.
pub open spec fn spaced_word(x: Seq<char>) -> bool {
    x == "\\frac"@ || x == "\\sqrt"@ || x == "\\text"@ || x == "\\operatorname"@
}

/// Whether a space separates token `i` from the token before it.
pub open spec fn gap(t: Seq<Lexeme>, i: int) -> bool {
    if i <= 0 || i >= t.len() {
        false
    } else {
        let prev = t[i - 1];
        let cur = t[i];
        if cur.kind == Kind::Operator {
            !(unary(t, i) && opens(prev.text))
        } else if prev.kind == Kind::Operator {
            !unary(t, i - 1)
        } else if tight_before(cur.text) || tight_after(prev.text) {
            false
        } else if cur.kind == Kind::Group && prev.kind == Kind::Command {
            false
        } else if spaced_word(cur.text) {
            true
        } else if prev.kind == Kind::Command && cur.text.len() > 0 && is_ascii_alpha(cur.text[0]) {
            true
        } else {
            cur.spaced
        }
    }
}

/// Tokens `a..b` on one line.
pub open spec fn render(t: Seq<Lexeme>, a: int, b: int) -> Seq<char>
    decreases b - a,
{
    if b <= a {
        seq![]
    } else {
        render(t, a, b - 1) + (if b - 1 > a && gap(t, b - 1) {
            seq![' ']
        } else {
            seq![]
        }) + t[b - 1].text
    }
}

/// The command words the layout rules name, spelled out once.
pub struct Lexicon {
    pub qquad: Vec<char>,
    pub quad: Vec<char>,
    pub frac: Vec<char>,
    pub sqrt: Vec<char>,
    pub text: Vec<char>,
    pub operatorname: Vec<char>,
}

impl Lexicon {
    pub open spec fn wf(&self) -> bool {
        &&& self.qquad@ == "\\qquad"@
        &&& self.quad@ == "\\quad"@
        &&& self.frac@ == "\\frac"@
        &&& self.sqrt@ == "\\sqrt"@
        &&& self.text@ == "\\text"@
        &&& self.operatorname@ == "\\operatorname"@
    }

    pub fn new() -> (l: Lexicon)
        ensures
            l.wf(),
    {
        Lexicon {
            qquad: chars_of("\\qquad"),
            quad: chars_of("\\quad"),
            frac: chars_of("\\frac"),
            sqrt: chars_of("\\sqrt"),
            text: chars_of("\\text"),
            operatorname: chars_of("\\operatorname"),
        }
    }
}

fn same(a: &Vec<char>, b: &Vec<char>) -> (r: bool)
    ensures
        r == (a@ == b@),
{
    if a.len() != b.len() {
        return false;
    }
    let r = matches_at(a, b, 0);
    proof {
        if r {
            assert(a@.subrange(0, b@.len() as int) =~= a@);
        } else {
            assert(a@.subrange(0, b@.len() as int) =~= a@);
        }
    }
    r
}

fn one(x: &Vec<char>, c: char) -> (r: bool)
    ensures
        r == is1(x@, c),
{
    x.len() == 1 && x[0] == c
}

fn is_unary(t: &Vec<Token>, i: usize) -> (r: bool)
    requires
        i < t.len(),
    ensures
        r == unary(lexemes(t@), i as int),
{
    (one(&t[i].text, '+') || one(&t[i].text, '-')) && (i == 0 || t[i - 1].kind == Kind::Operator
        || one(&t[i - 1].text, '(') || one(&t[i - 1].text, '['))
}

fn gap_before(t: &Vec<Token>, i: usize, lex: &Lexicon) -> (r: bool)
    requires
        lex.wf(),
    ensures
        r == gap(lexemes(t@), i as int),
{
    if i == 0 || i >= t.len() {
        return false;
    }
    let prev = &t[i - 1];
    let cur = &t[i];
    if cur.kind == Kind::Operator {
        !(is_unary(t, i) && (one(&prev.text, '(') || one(&prev.text, '[')))
    } else if prev.kind == Kind::Operator {
        !is_unary(t, i - 1)
    } else if one(&cur.text, '.') || one(&cur.text, ',') || one(&cur.text, ';') || one(
        &cur.text,
        ':',
    ) || one(&cur.text, '!') || one(&cur.text, '?') || one(&cur.text, ')') || one(&cur.text, ']')
        || one(&cur.text, '^') || one(&cur.text, '_') || one(&cur.text, '\'') || one(
        &prev.text,
        '(',
    ) || one(&prev.text, '[') || one(&prev.text, '^') || one(&prev.text, '_') {
        false
    } else if cur.kind == Kind::Group && prev.kind == Kind::Command {
        false
    } else if same(&cur.text, &lex.frac) || same(&cur.text, &lex.sqrt) || same(&cur.text, &lex.text)
        || same(&cur.text, &lex.operatorname) {
        true
    } else if prev.kind == Kind::Command && cur.text.len() > 0 && is_ascii_alphabetic(cur.text[0]) {
        true
    } else {
        cur.spaced
    }
}

fn render_range(t: &Vec<Token>, a: usize, b: usize, lex: &Lexicon) -> (r: Vec<char>)
    requires
        a <= b <= t.len(),
        lex.wf(),
    ensures
        r@ == render(lexemes(t@), a as int, b as int),
{
    let mut out: Vec<char> = Vec::new();
    let mut i = a;
    while i < b
        invariant
            a <= i <= b <= t.len(),
            lex.wf(),
            out@ == render(lexemes(t@), a as int, i as int),
        decreases b - i,
    {
        let ghost before = out@;
        if i > a && gap_before(t, i, lex) {
            out.push(' ');
        }
        append(&mut out, &t[i].text);
        assert(out@ =~= render(lexemes(t@), a as int, i + 1));
        i = i + 1;
    }
    out
}

// ---------------------------------------------------------------------------
// Where a line may break
// ---------------------------------------------------------------------------

/// A character Markdown reads, at the start of a line, as a list item,
/// heading, quote, table row, or setext underline.
pub open spec fn md_char(c: char) -> bool {
    c == '-' || c == '+' || c == '*' || c == '>' || c == '#' || c == '=' || c == '|'
}

pub open spec fn opens_markdown(x: Seq<char>) -> bool {
    x.len() > 0 && md_char(x[0])
}

pub open spec fn ends_in_equals(x: Seq<char>) -> bool {
    x.len() > 0 && x.last() == '='
}

/// `\qquad` and `\quad` stay with the clause that follows them.
pub open spec fn spacer(x: Seq<char>) -> bool {
    x == "\\qquad"@ || x == "\\quad"@
}

/// A line may begin with token `p`: after a binary `+` or `-`, so that a sum
/// wraps after its operator, or at a space between two non-operator tokens.
/// Never next to `=`, never before a group, never where the new line would
/// open with a character Markdown claims, and never right after a spacer.
pub open spec fn legal(t: Seq<Lexeme>, p: int) -> bool {
    0 < p < t.len() && {
        let prev = t[p - 1];
        let cur = t[p];
        &&& cur.kind != Kind::Operator
        &&& !opens_markdown(cur.text)
        &&& !ends_in_equals(prev.text)
        &&& !spacer(prev.text)
        &&& if prev.kind == Kind::Operator {
            !unary(t, p - 1)
        } else {
            cur.kind != Kind::Group && gap(t, p)
        }
    }
}

pub open spec fn bracket_delta(x: Seq<char>) -> int {
    if opens(x) {
        1
    } else if closes(x) {
        -1
    } else {
        0
    }
}

/// Bracket nesting just before token `p`.
pub open spec fn depth_at(t: Seq<Lexeme>, p: int) -> int
    decreases p,
{
    if p <= 0 || p > t.len() {
        0
    } else {
        depth_at(t, p - 1) + bracket_delta(t[p - 1].text)
    }
}

pub open spec fn fits(t: Seq<Lexeme>, w: nat, a: int, p: int) -> bool {
    render(t, a, p).len() <= w
}

/// Scanning from `p`, the break that fits and is least deeply bracketed,
/// the later one where two are equally deep.
pub open spec fn best_fit(t: Seq<Lexeme>, w: nat, a: int, p: int, best: Option<int>) -> Option<
    int,
>
    decreases t.len() - p,
{
    if p < 0 || p >= t.len() {
        best
    } else {
        let take = legal(t, p) && fits(t, w, a, p) && match best {
            None => true,
            Some(b) => depth_at(t, p) <= depth_at(t, b),
        };
        best_fit(
            t,
            w,
            a,
            p + 1,
            if take {
                Some(p)
            } else {
                best
            },
        )
    }
}

/// Where the line starting at token `a` ends: nowhere if the rest fits,
/// else at the best break that fits, else nowhere, and the line runs long.
pub open spec fn next_break(t: Seq<Lexeme>, w: nat, a: int) -> Option<int> {
    if fits(t, w, a, t.len() as int) {
        None
    } else {
        best_fit(t, w, a, a + 1, None)
    }
}

pub open spec fn wrap_from(t: Seq<Lexeme>, w: nat, a: int) -> Seq<Seq<char>>
    decreases t.len() - a,
{
    if a < 0 || a >= t.len() {
        seq![]
    } else {
        match next_break(t, w, a) {
            Some(p) => if a < p && p < t.len() {
                seq![render(t, a, p)] + wrap_from(t, w, p)
            } else {
                seq![render(t, a, t.len() as int)]
            },
            None => seq![render(t, a, t.len() as int)],
        }
    }
}

/// The lines of one clause.
pub open spec fn wrap(t: Seq<Lexeme>, w: nat) -> Seq<Seq<char>> {
    wrap_from(t, w, 0)
}

pub proof fn lemma_best_fit_range(t: Seq<Lexeme>, w: nat, a: int, p: int, best: Option<int>)
    requires
        0 <= a < p,
        best matches Some(b) ==> a < b < t.len() && b < p && legal(t, b),
    ensures
        best_fit(t, w, a, p, best) matches Some(b) ==> a < b < t.len() && legal(t, b),
    decreases t.len() - p,
{
    if p < t.len() {
        let take = legal(t, p) && fits(t, w, a, p) && match best {
            None => true,
            Some(b) => depth_at(t, p) <= depth_at(t, b),
        };
        lemma_best_fit_range(
            t,
            w,
            a,
            p + 1,
            if take {
                Some(p)
            } else {
                best
            },
        );
    }
}

pub proof fn lemma_depth_bound(t: Seq<Lexeme>, p: int)
    requires
        0 <= p <= t.len(),
    ensures
        -p <= depth_at(t, p) <= p,
    decreases p,
{
    if p > 0 {
        lemma_depth_bound(t, p - 1);
    }
}

fn delta(x: &Vec<char>) -> (d: i128)
    ensures
        d == bracket_delta(x@),
{
    if one(x, '(') || one(x, '[') {
        1
    } else if one(x, ')') || one(x, ']') {
        -1
    } else {
        0
    }
}

fn depth_before(t: &Vec<Token>, p: usize) -> (d: i128)
    requires
        p <= t.len(),
    ensures
        d == depth_at(lexemes(t@), p as int),
{
    let mut d: i128 = 0;
    let mut i: usize = 0;
    while i < p
        invariant
            i <= p <= t.len(),
            d == depth_at(lexemes(t@), i as int),
        decreases p - i,
    {
        proof {
            lemma_depth_bound(lexemes(t@), i as int);
        }
        d = d + delta(&t[i].text);
        i = i + 1;
    }
    d
}

fn is_legal(t: &Vec<Token>, p: usize, lex: &Lexicon) -> (r: bool)
    requires
        lex.wf(),
    ensures
        r == legal(lexemes(t@), p as int),
{
    if p == 0 || p >= t.len() {
        return false;
    }
    let prev = &t[p - 1];
    let cur = &t[p];
    if cur.kind == Kind::Operator {
        return false;
    }
    if cur.text.len() > 0 {
        let c = cur.text[0];
        if c == '-' || c == '+' || c == '*' || c == '>' || c == '#' || c == '=' || c == '|' {
            return false;
        }
    }
    if prev.text.len() > 0 && prev.text[prev.text.len() - 1] == '=' {
        return false;
    }
    if same(&prev.text, &lex.qquad) || same(&prev.text, &lex.quad) {
        return false;
    }
    if prev.kind == Kind::Operator {
        !is_unary(t, p - 1)
    } else {
        cur.kind != Kind::Group && gap_before(t, p, lex)
    }
}

pub open spec fn opt_int(o: Option<usize>) -> Option<int> {
    match o {
        Some(v) => Some(v as int),
        None => None,
    }
}

fn find_break(t: &Vec<Token>, w: usize, a: usize, lex: &Lexicon) -> (r: Option<usize>)
    requires
        a < t.len(),
        lex.wf(),
    ensures
        opt_int(r) == next_break(lexemes(t@), w as nat, a as int),
        r matches Some(p) ==> a < p < t.len(),
{
    let ghost tv = lexemes(t@);
    let n = t.len();
    let mut line = copy(&t[a].text);
    assert(render(tv, a as int, a as int) =~= seq![]);
    assert(tv[a as int].text == t@[a as int].text@);
    assert(line@ =~= render(tv, a as int, a + 1));
    let mut best: Option<usize> = None;
    let mut best_depth: i128 = 0;
    let mut p = a + 1;
    let mut depth = depth_before(t, p);
    while p < n
        invariant
            n == t.len(),
            tv == lexemes(t@),
            lex.wf(),
            a < p <= n,
            line@ == render(tv, a as int, p as int),
            depth == depth_at(tv, p as int),
            best_fit(tv, w as nat, a as int, p as int, opt_int(best)) == best_fit(
                tv,
                w as nat,
                a as int,
                a + 1,
                None,
            ),
            best matches Some(b) ==> a < b < p && best_depth == depth_at(tv, b as int),
        decreases n - p,
    {
        let ok = is_legal(t, p, lex);
        let fits_now = line.len() <= w;
        let better = match best {
            None => true,
            Some(_) => depth <= best_depth,
        };
        if ok && fits_now && better {
            best = Some(p);
            best_depth = depth;
        }
        if gap_before(t, p, lex) {
            line.push(' ');
        }
        append(&mut line, &t[p].text);
        assert(line@ =~= render(tv, a as int, p + 1));
        proof {
            lemma_depth_bound(tv, p as int);
            lemma_depth_bound(tv, p + 1);
        }
        depth = depth + delta(&t[p].text);
        p = p + 1;
    }
    proof {
        lemma_best_fit_range(tv, w as nat, a as int, a + 1, None);
    }
    if line.len() <= w {
        None
    } else {
        best
    }
}


fn wrap_tokens(t: &Vec<Token>, w: usize, lex: &Lexicon) -> (r: Vec<Vec<char>>)
    requires
        lex.wf(),
    ensures
        views(r@) == wrap(lexemes(t@), w as nat),
{
    let ghost tv = lexemes(t@);
    let mut lines: Vec<Vec<char>> = Vec::new();
    let mut a: usize = 0;
    while a < t.len()
        invariant
            tv == lexemes(t@),
            lex.wf(),
            a <= t.len(),
            views(lines@) + wrap_from(tv, w as nat, a as int) == wrap(tv, w as nat),
        decreases t.len() - a,
    {
        let ghost old_lines = lines@;
        match find_break(t, w, a, lex) {
            Some(p) => {
                let l = render_range(t, a, p, lex);
                lines.push(l);
                assert(views(lines@) + wrap_from(tv, w as nat, p as int) =~= views(old_lines)
                    + wrap_from(tv, w as nat, a as int));
                a = p;
            },
            None => {
                let l = render_range(t, a, t.len(), lex);
                lines.push(l);
                assert(views(lines@) + wrap_from(tv, w as nat, t.len() as int) =~= views(
                    old_lines,
                ) + wrap_from(tv, w as nat, a as int));
                a = t.len();
            },
        }
    }
    assert(views(lines@) =~= views(lines@) + wrap_from(tv, w as nat, a as int));
    lines
}

// ---------------------------------------------------------------------------
// Clauses and the whole equation
// ---------------------------------------------------------------------------

/// In the readable style a `\qquad` starts a new line, unless it is doubled,
/// followed by another spacer, or would leave an `=` ending the line above.
pub open spec fn clause_start(t: Seq<Lexeme>, i: int) -> bool {
    &&& 0 < i < t.len() - 1
    &&& t[i].text == "\\qquad"@
    &&& t[i - 1].text != "\\qquad"@
    &&& t[i + 1].text != "\\qquad"@
    &&& t[i + 1].text != "\\quad"@
    &&& !ends_in_equals(t[i - 1].text)
}

pub open spec fn clauses_from(t: Seq<Lexeme>, w: nat, start: int, i: int) -> Seq<Seq<char>>
    decreases t.len() - i,
{
    if start < 0 || start > t.len() {
        seq![]
    } else if i < 1 || i >= t.len() - 1 || i <= start {
        wrap(t.subrange(start, t.len() as int), w)
    } else if clause_start(t, i) {
        wrap(t.subrange(start, i), w) + clauses_from(t, w, i, i + 1)
    } else {
        clauses_from(t, w, start, i + 1)
    }
}

/// The lines an equation's tokens are laid out on.
pub open spec fn display_lines(t: Seq<Lexeme>, style: MathStyle, w: nat) -> Seq<Seq<char>> {
    match style {
        MathStyle::Readable => clauses_from(t, w, 0, 1),
        MathStyle::Compact => wrap(t, w),
    }
}

fn copy_token(t: &Token) -> (r: Token)
    ensures
        r@ == t@,
{
    Token { text: copy(&t.text), kind: t.kind, spaced: t.spaced }
}

fn segment(t: &Vec<Token>, a: usize, b: usize) -> (r: Vec<Token>)
    requires
        a <= b <= t.len(),
    ensures
        lexemes(r@) == lexemes(t@).subrange(a as int, b as int),
{
    let mut r: Vec<Token> = Vec::new();
    let mut i = a;
    while i < b
        invariant
            a <= i <= b <= t.len(),
            lexemes(r@) == lexemes(t@).subrange(a as int, i as int),
        decreases b - i,
    {
        let x = copy_token(&t[i]);
        let ghost old_r = r@;
        r.push(x);
        assert(lexemes(r@) =~= lexemes(old_r).push(t@[i as int]@));
        i = i + 1;
        assert(lexemes(r@) =~= lexemes(t@).subrange(a as int, i as int));
    }
    r
}

fn extend(lines: &mut Vec<Vec<char>>, more: Vec<Vec<char>>)
    ensures
        views(final(lines)@) == views(old(lines)@) + views(more@),
{
    let mut more = more;
    let ghost m = views(more@);
    let mut rest: Vec<Vec<char>> = Vec::new();
    while more.len() > 0
        invariant
            views(more@) + views(rest@).reverse() == m,
        decreases more.len(),
    {
        let x = more.pop().unwrap();
        rest.push(x);
        proof {
            assert(views(more@) + views(rest@).reverse() =~= m);
        }
    }
    let ghost base = views(lines@);
    while rest.len() > 0
        invariant
            views(lines@) + views(rest@).reverse() == base + m,
        decreases rest.len(),
    {
        let x = rest.pop().unwrap();
        lines.push(x);
        proof {
            assert(views(lines@) + views(rest@).reverse() =~= base + m);
        }
    }
    assert(views(lines@) =~= base + m);
}

fn is_clause_start(t: &Vec<Token>, i: usize, lex: &Lexicon) -> (r: bool)
    requires
        lex.wf(),
    ensures
        r == clause_start(lexemes(t@), i as int),
{
    if i == 0 || t.len() == 0 || i >= t.len() - 1 {
        return false;
    }
    let prev = &t[i - 1].text;
    same(&t[i].text, &lex.qquad) && !same(prev, &lex.qquad) && !same(&t[i + 1].text, &lex.qquad)
        && !same(&t[i + 1].text, &lex.quad) && !(prev.len() > 0 && prev[prev.len() - 1] == '=')
}

fn lay_out(t: &Vec<Token>, style: MathStyle, w: usize, lex: &Lexicon) -> (r: Vec<Vec<char>>)
    requires
        lex.wf(),
    ensures
        views(r@) == display_lines(lexemes(t@), style, w as nat),
{
    let ghost tv = lexemes(t@);
    match style {
        MathStyle::Compact => wrap_tokens(t, w, lex),
        MathStyle::Readable => {
            let n = t.len();
            let mut lines: Vec<Vec<char>> = Vec::new();
            let mut start: usize = 0;
            let mut i: usize = 1;
            while n > 0 && i < n - 1
                invariant
                    n == t.len(),
                    tv == lexemes(t@),
                    lex.wf(),
                    start < i,
                    start <= n,
                    i <= n || n == 0,
                    views(lines@) + clauses_from(tv, w as nat, start as int, i as int)
                        == clauses_from(tv, w as nat, 0, 1),
                decreases n - i,
            {
                if is_clause_start(t, i, lex) {
                    let seg = segment(t, start, i);
                    let more = wrap_tokens(&seg, w, lex);
                    let ghost old_lines = views(lines@);
                    extend(&mut lines, more);
                    assert(views(lines@) + clauses_from(tv, w as nat, i as int, i + 1)
                        =~= old_lines + clauses_from(tv, w as nat, start as int, i as int));
                    start = i;
                }
                i = i + 1;
            }
            let seg = segment(t, start, n);
            let more = wrap_tokens(&seg, w, lex);
            let ghost old_lines = views(lines@);
            extend(&mut lines, more);
            assert(views(lines@) =~= old_lines + clauses_from(tv, w as nat, start as int, i as int));
            lines
        },
    }
}

// ---------------------------------------------------------------------------
// The whole equation
// ---------------------------------------------------------------------------

/// Source lines, trimmed, without the blank ones, joined by single spaces.
pub open spec fn joined_from(ls: Seq<Seq<char>>, i: int, acc: Seq<char>, first: bool) -> Seq<
    char,
>
    decreases ls.len() - i,
{
    if i < 0 || i >= ls.len() {
        acc
    } else {
        let l = trim(ls[i]);
        if l.len() == 0 {
            joined_from(ls, i + 1, acc, first)
        } else if first {
            joined_from(ls, i + 1, acc + l, false)
        } else {
            joined_from(ls, i + 1, acc.push(' ') + l, false)
        }
    }
}

pub open spec fn joined(input: Seq<char>) -> Seq<char> {
    joined_from(lines(input), 0, seq![], true)
}

/// Lines separated by line feeds.
pub open spec fn join_lines(ls: Seq<Seq<char>>) -> Seq<char>
    decreases ls.len(),
{
    if ls.len() == 0 {
        seq![]
    } else if ls.len() == 1 {
        ls[0]
    } else {
        join_lines(ls.drop_last()).push('\n') + ls.last()
    }
}

/// Tokens `i` and `i + 1` are both operators, and the second is not a sign.
pub open spec fn clash(t: Seq<Lexeme>, i: int) -> bool {
    t[i].kind == Kind::Operator && t[i + 1].kind == Kind::Operator && !(is_sign(t[i + 1].text)
        && unary(t, i + 1))
}

pub open spec fn ambiguous(t: Seq<Lexeme>) -> bool {
    exists|i: int| 0 <= i < t.len() - 1 && #[trigger] clash(t, i)
}

/// A display equation laid out by the rules above, or the input unchanged
/// where it is blank, holds a construct the token pass cannot keep, or has
/// two operators in a row that are not a sign after an operator.
pub open spec fn display_math(input: Seq<char>, style: MathStyle, width: nat) -> Seq<char> {
    if trim(input).len() == 0 || !reflowable(input) {
        input
    } else {
        let t = tokenize(joined(input));
        if t.len() == 0 || ambiguous(t) {
            input
        } else {
            join_lines(display_lines(t, style, width))
        }
    }
}

fn join_nonblank(input: &Vec<char>) -> (r: Vec<char>)
    ensures
        r@ == joined(input@),
{
    let ls = split_lines(input);
    let mut out: Vec<char> = Vec::new();
    let mut first = true;
    let mut i: usize = 0;
    while i < ls.len()
        invariant
            i <= ls.len(),
            views(ls@) == lines(input@),
            joined_from(lines(input@), i as int, out@, first) == joined(input@),
        decreases ls.len() - i,
    {
        let l = trimmed(&ls[i]);
        assert(views(ls@)[i as int] == ls@[i as int]@);
        if l.len() > 0 {
            if !first {
                out.push(' ');
            }
            append(&mut out, &l);
            first = false;
        }
        i = i + 1;
    }
    out
}

pub fn join_with_newlines(ls: &Vec<Vec<char>>) -> (r: Vec<char>)
    ensures
        r@ == join_lines(views(ls@)),
{
    let mut out: Vec<char> = Vec::new();
    let mut i: usize = 0;
    while i < ls.len()
        invariant
            i <= ls.len(),
            out@ == join_lines(views(ls@).subrange(0, i as int)),
        decreases ls.len() - i,
    {
        let ghost before = out@;
        if i > 0 {
            out.push('\n');
        }
        append(&mut out, &ls[i]);
        proof {
            let s = views(ls@).subrange(0, i + 1);
            assert(s.drop_last() =~= views(ls@).subrange(0, i as int));
            assert(s.last() == ls@[i as int]@);
            if i == 0 {
                assert(out@ =~= s[0]);
            } else {
                assert(out@ =~= join_lines(s.drop_last()).push('\n') + s.last());
            }
        }
        i = i + 1;
    }
    assert(views(ls@).subrange(0, i as int) =~= views(ls@));
    out
}

fn is_ambiguous(t: &Vec<Token>) -> (r: bool)
    ensures
        r == ambiguous(lexemes(t@)),
{
    let ghost tv = lexemes(t@);
    let mut i: usize = 0;
    while t.len() > 0 && i < t.len() - 1
        invariant
            tv == lexemes(t@),
            forall|j: int| 0 <= j < i ==> !#[trigger] clash(tv, j),
        decreases t.len() - i,
    {
        if t[i].kind == Kind::Operator && t[i + 1].kind == Kind::Operator && !((one(
            &t[i + 1].text,
            '+',
        ) || one(&t[i + 1].text, '-')) && is_unary(t, i + 1)) {
            assert(clash(tv, i as int));
            return true;
        }
        i = i + 1;
    }
    false
}

/// Reflow a plain display equation; never interpret existing source newlines as
/// mathematical line breaks (unlike explicit TeX `\\`).
pub fn format_display_math(input: &Vec<char>, style: MathStyle, width: usize) -> (r: Vec<char>)
    ensures
        r@ == display_math(input@, style, width as nat),
{
    if is_blank_text(input) || !is_reflowable(input) {
        return copy(input);
    }
    let joined = join_nonblank(input);
    let tokens = tokenize_exec(&joined);
    if tokens.len() == 0 || is_ambiguous(&tokens) {
        return copy(input);
    }
    let lex = Lexicon::new();
    let lines = lay_out(&tokens, style, width, &lex);
    join_with_newlines(&lines)
}

} // verus!
