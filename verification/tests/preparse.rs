//! Holding display blocks and inline spans aside around the Markdown parser.

use marklign::{FormatOptions, hold_blocks, hold_spans};


fn formatted(input: &str) -> String {
    let held = hold_blocks(input, FormatOptions::default());
    held.restore(&held.text()).expect("placeholders survive")
}

/// The Markdown handed to the parser, with every span replaced by an
/// index, so a test can say which spans were recognized and where.
fn protected(input: &str) -> String {
    let inline = hold_spans(input);
    let held = inline.text().replace(&inline.token(), "@");
    assert_eq!(
        inline.restore(&inline.text()).as_deref(),
        Some(input),
        "spans do not round-trip"
    );
    held
}

#[test]
fn rescues_an_equation_from_becoming_a_setext_heading() {
    assert_eq!(formatted("$$\nu\n=\ng\n$$\n"), "$$\nu = g\n$$\n");
}

#[test]
fn normalizes_environment_rows_and_is_idempotent() {
    let expected = "$$\n\\begin{aligned}\n  a &= b \\\\\n  c &= d\n\\end{aligned}\n$$\n";
    let input = "$$\n\\begin{aligned}\na\n&\n=\nb \\\\\nc &= d\n\\end{aligned}\n$$\n";
    assert_eq!(formatted(input), expected);
    assert_eq!(formatted(expected), expected);
}

#[test]
fn holds_blocks_inside_quotes_and_list_items() {
    assert_eq!(
        formatted("> $$\n> a\n> =\n> b\n> $$\n"),
        "> $$\n> a = b\n> $$\n"
    );
    assert_eq!(
        formatted("  $$\n  a\n  =\n  b\n  $$\n"),
        "  $$\n  a = b\n  $$\n"
    );
}

#[test]
fn preserves_code_blocks_and_raw_html() {
    for input in [
        "```latex\n$$\na\n=\nb\n$$\n```\n",
        "~~~latex\n$$\na\n=\nb\n$$\n~~~\n",
        "> ```latex\n> $$\n> a\n> =\n> b\n> $$\n> ```\n",
        "<pre>\n$$\na\n=\nb\n$$\n</pre>\n",
    ] {
        assert_eq!(formatted(input), input, "{input:?}");
    }
}

#[test]
fn keeps_an_equation_with_a_blank_line_verbatim_rather_than_reflowing_it() {
    // The delimiters no longer bracket one Markdown block, so the layout
    // the author meant by the blank line cannot be second-guessed; the
    // equation is held aside only to keep `= a` and `* b` out of the
    // block parser's hands.
    assert_eq!(formatted("$$\n= a\n\n* b\n  $$\n"), "$$\n= a\n\n* b\n$$\n");
    assert_eq!(
        formatted("> $$\n> = a\n>\n> * b\n> $$\n"),
        "> $$\n> = a\n>\n> * b\n> $$\n"
    );
}

#[test]
fn holds_inline_latex_spans_aside_but_not_code_escapes_or_dollar_math() {
    assert_eq!(protected("rate \\(\\alpha\\) here\n"), "rate @0@ here\n");
    assert_eq!(protected("\\(a\\) and \\(b\\)\n"), "@0@ and @1@\n");
    for input in [
        // Inline code and dollar math own what is between their own
        // delimiters, and `\\` is an escaped backslash, not an opener.
        "`\\(x\\)` and $\\(x\\)$ and $$\\(x\\)$$\n",
        "escaped \\\\(x\\\\)\n",
        "```\n\\(x\\)\n```\n",
        // A span is never continued onto the next line.
        "unclosed \\(x\n",
    ] {
        assert_eq!(protected(input), input, "{input:?}");
    }
}

#[test]
fn leaves_indented_code_unsupported_environments_and_broken_blocks_alone() {
    for input in [
        "    $$\n    a\n    =\n    b\n    $$\n",
        "$$\n\\begin{matrix}\na&b\n\\end{matrix}\n$$\n",
        "$$\na\n=\nb\n",
        "$$\n\n$$\n",
        "$$\na\n=\nb\n> $$\n",
        // The delimiters close on the opening line with prose after
        // them: a later `\]` must not be read as this one's closer.
        "\\[TODO: link\\].\n\nprose\n\nhere\\]\n",
    ] {
        assert_eq!(formatted(input), input, "{input:?}");
    }
}
