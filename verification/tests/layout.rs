//! Layout rules of ordinary display math, and the document formatter end to end.

use marklign::{FormatOptions, MathStyle, format_display_math, format_document, format_document_with_options};

/// The boundary-condition notes shipped as an example document.
const BOUNDARY_CONDITIONS: &str = "### Why PDEs Differ from ODEs\n\nFor an ODE, specifying enough initial data often determines a trajectory. A PDE also needs information about the spatial domain and its boundary.\n\nFor a domain $\\Omega$, typical boundary conditions include:\n\n**Dirichlet**\n\n$$\nu=g\n\\qquad\n\\text{on } \\partial\\Omega.\n$$\n\n**Neumann**\n\n$$\n\\frac{\\partial u}{\\partial n}=g\n\\qquad\n\\text{on } \\partial\\Omega.\n$$\n\n**Robin**\n\n$$\n\\alpha u\n+\n\\beta\\frac{\\partial u}{\\partial n} =\ng\n\\qquad\n\\text{on } \\partial\\Omega.\n$$\n";
const ROBIN: &str = "\\alpha u\n+\n\\beta\\frac{\\partial u}{\\partial n} =\ng\n\\qquad\n\\text{on } \\partial\\Omega.";
const ROBIN_READABLE: &str = "\\alpha u + \\beta \\frac{\\partial u}{\\partial n} = g\n\\qquad \\text{on } \\partial\\Omega.";

#[test]
fn robin_boundary_condition_is_not_left_broken() {
    assert_eq!(
        format_display_math(ROBIN, MathStyle::Readable, 88),
        ROBIN_READABLE
    );
}

#[test]
fn compact_style_keeps_short_equation_on_one_line() {
    assert_eq!(
        format_display_math(ROBIN, MathStyle::Compact, 88),
        ROBIN_READABLE.replace('\n', " ")
    );
}

#[test]
fn joins_isolated_operators_and_keeps_unary_minus() {
    assert_eq!(
        format_display_math("a\n+\nb\n=\n-c", MathStyle::Readable, 88),
        "a + b = -c"
    );
    assert_eq!(
        format_display_math("a\n-\nb", MathStyle::Readable, 88),
        "a - b"
    );
}

#[test]
fn formats_dirichlet_and_neumann() {
    assert_eq!(
        format_display_math(
            "u=g\n\\qquad\n\\text{on } \\partial\\Omega.",
            MathStyle::Readable,
            88
        ),
        "u = g\n\\qquad \\text{on } \\partial\\Omega."
    );
    assert_eq!(
        format_display_math(
            "\\frac{\\partial u}{\\partial n}=g",
            MathStyle::Readable,
            88
        ),
        "\\frac{\\partial u}{\\partial n} = g"
    );
}

#[test]
fn leaves_opaque_groups_and_command_names_intact() {
    assert_eq!(
        format_display_math("\\alpha\nu+\\frac{a + b}{c - d}=g", MathStyle::Readable, 88),
        "\\alpha u + \\frac{a + b}{c - d} = g"
    );
    assert_eq!(
        format_display_math("\\partial\\Omega = g", MathStyle::Readable, 88),
        "\\partial\\Omega = g"
    );
}

/// No wrapped line may begin with a character Markdown reads as a list
/// item, heading, quote, or table row, and none may be an operator by
/// itself or leave an equality hanging at the end of a line.
fn assert_markdown_safe(output: &str) {
    for line in output.lines() {
        assert!(!matches!(line.trim(), "+" | "-" | "="), "{output:?}");
        assert!(
            !line.starts_with(['-', '+', '*', '>', '#', '=', '|']),
            "{output:?}"
        );
        assert!(!line.trim_end().ends_with('='), "{output:?}");
    }
}

#[test]
fn wrapped_lines_never_open_with_markdown_syntax() {
    assert_markdown_safe(&format_display_math(ROBIN, MathStyle::Readable, 24));
    assert_markdown_safe(&format_display_math(
        "\\text{Var}(X) = \\left(\\frac{1}{2}\\right)(0 - 50)^2 + \\left(\\frac{1}{2}\\right)(100 - 50)^2",
        MathStyle::Readable,
        60,
    ));
}

#[test]
fn wraps_a_long_sum_after_its_operators() {
    let output = format_display_math(
        "alpha + beta + gamma + delta + epsilon = zeta",
        MathStyle::Readable,
        20,
    );
    assert_eq!(output, "alpha + beta +\ngamma + delta +\nepsilon = zeta");
    assert_markdown_safe(&output);
}

#[test]
fn prefers_a_break_outside_brackets() {
    assert_eq!(
        format_display_math(
            "f(alpha + beta) + g(gamma + delta)",
            MathStyle::Readable,
            24
        ),
        "f(alpha + beta) +\ng(gamma + delta)"
    );
}

#[test]
fn skips_explicit_tex_line_breaks_alignments_and_comments() {
    for input in [
        r"a &= b \\ c &= d",
        r"\begin{aligned} a &= b \\ \end{aligned}",
        "a% commentary\n+ b",
        "\\text{unclosed\n+ b",
        "\\tag{1} x=y",
    ] {
        assert_eq!(format_display_math(input, MathStyle::Readable, 88), input);
    }
}

#[test]
fn document_formats_robin_and_preserves_inline_math() {
    let input = format!("For $\\Omega$:\n\n$$\n{ROBIN}\n$$\n");
    let output = format_document(&input).unwrap();
    assert!(output.contains("$\\Omega$"));
    assert!(output.contains(ROBIN_READABLE));
    assert!(!output.contains("\n+\n"));
    assert!(!output.contains("\n=\n"));
}

#[test]
fn document_can_select_compact_style() {
    let output = format_document_with_options(
        &format!("$$\n{ROBIN}\n$$\n"),
        FormatOptions {
            math_style: MathStyle::Compact,
            math_width: 88,
        },
    )
    .unwrap();
    assert!(output.contains(&ROBIN_READABLE.replace('\n', " ")));
}

#[test]
fn document_formats_aligned_environment_and_is_idempotent() {
    let input =
        "# Math\n\n$$\n\\begin{aligned}\na\n&\n=\nb\n+\nc \\\\\nd &= e\n\\end{aligned}\n$$\n";
    let once = format_document(input).unwrap();
    assert!(
        once.contains("\\begin{aligned}\n  a &= b + c \\\\\n  d &= e\n\\end{aligned}"),
        "actual: {once:?}"
    );
    assert_eq!(once, format_document(&once).unwrap());
}

#[test]
fn document_preserves_unsupported_nested_environment_and_code() {
    let nested = r"\begin{aligned}\begin{cases}x&1\end{cases}\end{aligned}";
    let input = format!("$$\n{nested}\n$$\n\n```latex\n{nested}\n```\n");
    let output = format_document(&input).unwrap();
    assert_eq!(output.matches(nested).count(), 2);
}

#[test]
fn does_not_rewrite_fenced_code() {
    let output = format_document("```latex\na\n+\nb\n```\n").unwrap();
    assert!(output.contains("a\n+\nb"));
}

#[test]
fn preserves_front_matter() {
    let input = "---\ntitle: PDE notes\n---\n\n# Introduction\n";
    let output = format_document(input).unwrap();
    assert!(output.starts_with("---\ntitle: PDE notes\n---"));
}

#[test]
fn formatting_is_idempotent_for_full_boundary_conditions() {
    // The expectations below are written with LF; CRLF has a test of its own.
    let input = BOUNDARY_CONDITIONS.replace("\r\n", "\n");
    let once = format_document(&input).unwrap();
    assert_eq!(once, format_document(&once).unwrap());
    assert!(once.contains(ROBIN_READABLE));
}

#[test]
fn an_atom_wider_than_the_line_runs_long() {
    let input = "x_{abcdefghijklmnopqrstuvwxyz}\n+\nb";
    assert_eq!(
        format_display_math(input, MathStyle::Compact, 20),
        "x_{abcdefghijklmnopqrstuvwxyz} + b"
    );
}
