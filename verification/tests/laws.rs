//! The laws of the library, each on concrete values.

use marklign::{
    format_display_math, format_document, format_document_with_options, hold_blocks, hold_spans,
    FormatOptions, MathStyle,
};

fn visible(s: &str) -> String {
    s.chars().filter(|c| !c.is_whitespace()).collect()
}

#[test]
fn reflowing_keeps_every_visible_character_in_order() {
    let input = "\\alpha u\n+\n\\beta\\frac{\\partial u}{\\partial n} =\ng\n\\qquad\n\\text{on } \\partial\\Omega.";
    for style in [MathStyle::Readable, MathStyle::Compact] {
        for width in [20, 40, 88] {
            let output = format_display_math(input, style, width);
            assert_eq!(visible(&output), visible(input), "{style:?} {width}: {output:?}");
        }
    }
}

#[test]
fn wrapped_lines_never_open_with_a_markdown_marker() {
    let input = "a + b + c + d + e + f + g + h + i + j + k + l + m + n + o + p + q = r - s - t - u - v - w";
    let output = format_display_math(input, MathStyle::Compact, 20);
    assert!(output.contains('\n'), "{output:?}");
    for (k, line) in output.lines().enumerate() {
        if k > 0 {
            let first = line.chars().next().unwrap();
            assert!(!"-+*>#=|".contains(first), "{output:?}");
        }
        if k + 1 < output.lines().count() {
            assert!(!line.ends_with('='), "{output:?}");
        }
    }
}

#[test]
fn held_environments_and_equations_keep_their_visible_characters() {
    for input in [
        "$$\n\\begin{aligned}\n\\alpha u\n&\n=\ng\n+\nh \\\\\n\\beta u\n&=\nk\n\\end{aligned}\n$$\n",
        "$$\nu\n=\ng\n\\qquad\n\\text{on } \\partial\\Omega.\n$$\n",
        "$$\n\\begin{bmatrix} a \\\\ b \\end{bmatrix}\n=\n\\begin{bmatrix} c \\\\ d \\end{bmatrix}\n$$\n",
    ] {
        let held = hold_blocks(input, FormatOptions::default());
        let output = held.restore(&held.text()).expect("placeholders survive");
        assert_ne!(output, input);
        assert_eq!(visible(&output), visible(input), "{output:?}");
    }
}

#[test]
fn a_held_equation_keeps_no_line_markdown_would_claim() {
    let input = "$$\n\\begin{bmatrix} a \\\\ b \\end{bmatrix}\n=\n- c\n> d\n$$\n";
    let held = hold_blocks(input, FormatOptions::default());
    let output = held.restore(&held.text()).expect("placeholders survive");
    let body: Vec<&str> = output.lines().collect();
    for line in &body[2..body.len() - 1] {
        let t = line.trim_start();
        assert!(!t.starts_with('>') && !t.starts_with("= ") && !t.starts_with("- "), "{output:?}");
    }
}

#[test]
fn inline_spans_come_back_character_for_character() {
    for input in [
        "Inline \\(\\alpha + \\beta\\) and \\(x\\) here.\n",
        "MARKLIGNMATHINLINE0MARKLIGNMATHINLINE and \\(a\\)\n",
        "no spans at all\n",
        "`\\(code\\)` and $\\(dollar\\)$ and \\(real\\)\n",
    ] {
        let held = hold_spans(input);
        assert_eq!(held.restore(&held.text()).as_deref(), Some(input), "{input:?}");
    }
}

#[test]
fn a_crlf_document_comes_back_crlf_throughout() {
    let output = format_document("Text\r\n\r\n$$\r\nu\r\n=\r\ng\r\n$$\r\n\r\n- item\r\n").unwrap();
    let bytes: Vec<char> = output.chars().collect();
    for (k, c) in bytes.iter().enumerate() {
        if *c == '\n' {
            assert!(k > 0 && bytes[k - 1] == '\r', "{output:?}");
        }
    }
}

#[test]
fn a_width_below_the_minimum_acts_as_the_minimum() {
    let input = "$$\na + b + c + d + e + f + g + h + i = j\n$$\n";
    let narrow = FormatOptions { math_style: MathStyle::Compact, math_width: 3 };
    let minimum = FormatOptions { math_style: MathStyle::Compact, math_width: 20 };
    assert_eq!(
        format_document_with_options(input, narrow).unwrap(),
        format_document_with_options(input, minimum).unwrap()
    );
}

#[test]
fn reflowing_never_glues_a_control_word_to_a_letter() {
    for (input, expected) in [
        ("\\beta\nu", "\\beta u"),
        ("\\alpha\n\\beta\nx", "\\alpha \\beta x"),
        ("\\frac{a}{b}\n=\n\\sin\nx", "\\frac{a}{b} = \\sin x"),
        ("a\nb", "a b"),
    ] {
        assert_eq!(format_display_math(input, MathStyle::Readable, 88), expected);
        assert_eq!(format_display_math(input, MathStyle::Compact, 88), expected);
    }
}

#[test]
fn compact_style_uses_one_line_whenever_it_fits() {
    let input = "a\n+\nb\n=\nc";
    assert_eq!(format_display_math(input, MathStyle::Compact, 20), "a + b = c");
    let long = "aaaa + bbbb + cccc + dddd + eeee + ffff";
    let wrapped = format_display_math(long, MathStyle::Compact, 20);
    assert!(wrapped.contains('\n'), "{wrapped:?}");
    assert_eq!(wrapped.replace('\n', " "), long);
}

#[test]
fn environment_rows_stand_on_their_own_indented_lines() {
    let output = marklign::format_environment(
        "\\begin{cases}\nx\n&\n\\text{if } x > 0 \\\\\n-x\n& \\text{otherwise}\n\\end{cases}",
    )
    .expect("a cases environment");
    let lines: Vec<&str> = output.lines().collect();
    assert_eq!(lines.first(), Some(&"\\begin{cases}"));
    assert_eq!(lines.last(), Some(&"\\end{cases}"));
    for row in &lines[1..lines.len() - 1] {
        assert!(row.starts_with("  "), "{output:?}");
    }
    assert_eq!(lines[1], "  x & \\text{if } x > 0 \\\\");
    assert_eq!(lines[2], "  -x & \\text{otherwise}");
}

#[test]
fn unicode_letters_and_digits_stay_in_their_runs() {
    assert_eq!(format_display_math("x²\n=\nαβ", MathStyle::Readable, 88), "x² = αβ");
    assert_eq!(format_display_math("\\alpha\nβ", MathStyle::Readable, 88), "\\alpha β");
    assert_eq!(format_display_math("é·x\n=\ny", MathStyle::Readable, 88), "é·x = y");
}

#[test]
fn reflowing_twice_is_reflowing_once() {
    let inputs = [
        "\\alpha u\n+\n\\beta\\frac{\\partial u}{\\partial n} =\ng\n\\qquad\n\\text{on } \\partial\\Omega.",
        "a + b + c + d + e + f + g + h + i + j + k + l + m + n + o + p + q = r - s - t - u - v - w",
        "f(x)\n=\n\\sum_{k=0}^{n} a_k x^k\n\\qquad\n\\text{for } x \\in [0, 1]",
        "x\n=\n-y",
    ];
    for input in inputs {
        for style in [MathStyle::Readable, MathStyle::Compact] {
            for width in [20, 30, 88] {
                let once = format_display_math(input, style, width);
                let twice = format_display_math(&once, style, width);
                assert_eq!(twice, once, "{style:?} {width}: {input:?}");
            }
        }
    }
}

#[test]
fn held_blocks_come_back_from_their_own_text() {
    let documents = [
        "Intro\n\n$$\na\n=\nb\n$$\n\nText\n",
        "> $$\n> x\n> +\n> y\n> $$\n",
        "- item\n\n  $$\n  \\begin{aligned}\n  a &= b \\\\\n  c &= d\n  \\end{aligned}\n  $$\n",
        "MARKLIGNMATHBLOCK0 stays prose\n\n$$\nu\n$$\n\\[\nv\n\\]\n",
        "no mathematics at all\n",
        "",
    ];
    for document in documents {
        let held = hold_blocks(document, FormatOptions::default());
        let text = held.text();
        assert!(held.restore(&text).is_some(), "{document:?} -> {text:?}");
    }
    for document in ["no mathematics at all\n", "", "Inline $x$ only.\n"] {
        assert_eq!(hold_blocks(document, FormatOptions::default()).text(), document);
    }
    let held = hold_blocks("MARKLIGNMATHBLOCK0 stays prose\n\n$$\nu\n$$\n", FormatOptions::default());
    assert!(held.text().starts_with("MARKLIGNMATHBLOCK0 stays prose\n\n"));
    assert!(held.text().ends_with("X0\n"));
}

#[test]
fn wrapping_only_turns_spaces_into_line_breaks() {
    let input = "a + b + c + d + e + f + g + h + i + j + k + l + m + n + o + p + q = r - s - t - u - v - w";
    let one_line = format_display_math(input, MathStyle::Compact, 1000);
    assert!(!one_line.contains('\n'));
    for width in [20, 30, 40] {
        let wrapped = format_display_math(input, MathStyle::Compact, width);
        assert!(wrapped.contains('\n'));
        assert!(wrapped.lines().all(|line| !line.is_empty()));
        assert_eq!(wrapped.lines().collect::<Vec<_>>().join(" "), one_line);
    }
}

/// A line may end in a control space where a break follows it; joining the
/// lines again glues the next token to that control space, so a second
/// pass lays the equation out otherwise. The idempotence law leaves out
/// every reflowed equation with a line ending in whitespace for that reason.
#[test]
fn a_line_ending_in_a_control_space_is_laid_out_again() {
    let once = format_display_math("aaaaaaaaaaaaaaaaaa\\  1 b c", MathStyle::Compact, 20);
    assert_eq!(once, "aaaaaaaaaaaaaaaaaa\\ \n1 b c");
    assert_eq!(format_display_math(&once, MathStyle::Compact, 20), "aaaaaaaaaaaaaaaaaa\\ 1 b c");
}
