//! Row-aware formatting of standalone environments.

use marklign::format_environment;


#[test]
fn formats_aligned_rows_without_losing_alignment() {
    let input = "\\begin{aligned}\n\\alpha u\n&\n=\ng\n+\nh \\\\\n\\beta u\n&=\nk\n\\end{aligned}";
    let expected = "\\begin{aligned}\n  \\alpha u &= g + h \\\\\n  \\beta u &= k\n\\end{aligned}";
    assert_eq!(format_environment(input).as_deref(), Some(expected));
    assert_eq!(format_environment(expected).as_deref(), Some(expected));
}

#[test]
fn formats_cases_without_moving_column_markers() {
    let input = "\\begin{cases}\nx^2&x>0 \\\\\n0&\\text{otherwise}\n\\end{cases}";
    let expected = "\\begin{cases}\n  x^2 & x>0 \\\\\n  0 & \\text{otherwise}\n\\end{cases}";
    assert_eq!(format_environment(input).as_deref(), Some(expected));
}

#[test]
fn keeps_escaped_ampersands_inside_groups() {
    let input = r"\begin{aligned} \text{A \& B} &= c \end{aligned}";
    let expected = "\\begin{aligned}\n  \\text{A \\& B} &= c\n\\end{aligned}";
    assert_eq!(format_environment(input).as_deref(), Some(expected));
}

#[test]
fn leaves_unsupported_or_ambiguous_environments_unchanged() {
    for input in [
        r"\begin{matrix}a&b\\c&d\end{matrix}",
        r"\begin{aligned}\begin{cases}a&b\end{cases}\end{aligned}",
        r"\begin{aligned}a&=b\\[2pt]c&=d\end{aligned}",
        r"\begin{aligned}a&=b% comment\end{aligned}",
        r"\begin{aligned}a&=b\\\end{aligned}",
        r"\begin{aligned}a&={b\end{aligned}",
    ] {
        assert_eq!(format_environment(input), None, "{input}");
    }
}

#[test]
fn a_formatted_environment_is_formatted_again_unchanged() {
    let inputs = [
        "\\begin{aligned}\na\\ & b\n\\end{aligned}",
        "\\begin{aligned}\na &= b\\\\\nc &= d\n\\end{aligned}",
        "\\begin{aligned}\na\\\t& b\n\\end{aligned}",
        "\\begin{cases}\nx & y\\ \\\\\nz & w\n\\end{cases}",
        "\\begin{aligned}\n& a = b\n\\end{aligned}",
        "\\begin{aligned}\n\\left( a \\right) &= {b}\n\\end{aligned}",
        "\\begin{aligned}\na+-b &= c\n\\end{aligned}",
        "\\begin{split}\n  a\n  b &= c\n\\end{split}",
        "\\begin{aligned}\n\\, a &= \\; b\n\\end{aligned}",
    ];
    for input in inputs {
        let once = format_environment(input).expect(input);
        assert_eq!(format_environment(&once).as_deref(), Some(once.as_str()), "{input:?}");
    }
    assert_eq!(format_environment("\\begin{aligned}\na & \\\\\nc & d\n\\end{aligned}"), None);
}
