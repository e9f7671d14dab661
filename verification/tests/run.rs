//! What a run decides around the formatter: preferences, actions, reports.

use marklign::run::{diff, nothing_to_do, preferences, settle, Action, Flags, Report, INTERNAL_ERROR};
use marklign::{FormatOptions, MathStyle};

const WRITING: Flags = Flags { check: false, diff: false, verbose: false, quiet: false };

#[test]
fn only_check_and_diff_stop_a_run_from_writing() {
    assert!(WRITING.writing());
    assert!(!Flags { check: true, ..WRITING }.writing());
    assert!(!Flags { diff: true, ..WRITING }.writing());
}

#[test]
fn a_width_below_twenty_is_refused() {
    assert_eq!(
        preferences(MathStyle::Compact, 19).err().as_deref(),
        Some("--math-width must be at least 20")
    );
    assert_eq!(
        preferences(MathStyle::Compact, 20).ok(),
        Some(FormatOptions { math_style: MathStyle::Compact, math_width: 20 })
    );
}

#[test]
fn an_empty_run_has_nothing_to_do_unless_something_was_unreadable() {
    assert!(nothing_to_do(0, 0));
    assert!(!nothing_to_do(0, 1));
    assert!(!nothing_to_do(2, 0));
}

#[test]
fn a_changed_file_is_rewritten_and_an_unchanged_one_left_alone() {
    let changed = settle("a.md", true, "a\n", "b\n", &WRITING);
    assert!(changed.changed);
    assert_eq!(changed.action, Action::Rewrite);
    assert!(changed.diff.is_none());
    let same = settle("a.md", true, "a\n", "a\n", &WRITING);
    assert!(!same.changed);
    assert_eq!(same.action, Action::Leave);
}

#[test]
fn standard_input_is_printed_whether_or_not_it_changed() {
    assert_eq!(settle("-", false, "a\n", "a\n", &WRITING).action, Action::Print);
    assert_eq!(settle("-", false, "a\n", "b\n", &WRITING).action, Action::Print);
    let checking = Flags { check: true, ..WRITING };
    assert_eq!(settle("-", false, "a\n", "b\n", &checking).action, Action::Leave);
}

#[test]
fn diff_shows_what_would_change_and_writes_nothing() {
    let flags = Flags { diff: true, ..WRITING };
    let outcome = settle("notes.md", true, "a\n=\nb\n", "a = b\n", &flags);
    assert_eq!(outcome.action, Action::Leave);
    let shown = outcome.diff.expect("a diff of a changed file");
    assert_eq!(
        shown,
        "--- notes.md\t(original)\n+++ notes.md\t(marklign)\n@@ -1,3 +1 @@\n-a\n-=\n-b\n+a = b\n"
    );
    assert!(settle("notes.md", true, "a\n", "a\n", &flags).diff.is_none());
}

#[test]
fn a_unified_diff_names_both_sides() {
    let text = diff("x.md", "one\n", "two\n");
    assert!(text.starts_with("--- x.md\t(original)\n+++ x.md\t(marklign)\n"), "{text}");
    assert!(text.contains("-one\n+two\n"), "{text}");
}

#[test]
fn a_report_names_reformatted_files_unless_quiet() {
    let mut report = Report::new(&WRITING);
    assert_eq!(report.done("a.md", true).as_deref(), Some("reformatted a.md"));
    assert_eq!(report.done("b.md", false), None);
    let mut looking = Report::new(&Flags { check: true, ..WRITING });
    assert_eq!(looking.done("a.md", true).as_deref(), Some("would reformat a.md"));
    let mut quiet = Report::new(&Flags { quiet: true, ..WRITING });
    assert_eq!(quiet.done("a.md", true), None);
    let mut verbose = Report::new(&Flags { verbose: true, ..WRITING });
    assert_eq!(verbose.done("b.md", false).as_deref(), Some("b.md is already formatted"));
}

#[test]
fn failures_are_reported_and_counted() {
    let mut report = Report::new(&WRITING);
    assert_eq!(report.failed("a.md", "invalid UTF-8"), "error: cannot format a.md: invalid UTF-8");
    assert_eq!(report.unreadable("docs: permission denied"), "error: docs: permission denied");
    assert_eq!(report.counts(), (0, 0, 2));
    assert_eq!(report.exit(), INTERNAL_ERROR);
}

#[test]
fn the_summary_counts_in_black_words() {
    let mut report = Report::new(&WRITING);
    report.done("a.md", true);
    report.done("b.md", false);
    report.done("c.md", false);
    assert_eq!(report.summary(), "1 file reformatted, 2 files left unchanged.");
    assert_eq!(report.exit(), 0);

    let mut looking = Report::new(&Flags { check: true, ..WRITING });
    looking.done("a.md", true);
    looking.done("b.md", true);
    looking.failed("c.md", "bad");
    assert_eq!(
        looking.summary(),
        "2 files would be reformatted, 1 file would fail to reformat."
    );
    assert_eq!(looking.exit(), INTERNAL_ERROR);

    assert_eq!(Report::new(&WRITING).summary(), ".");
}

#[test]
fn check_exits_one_only_when_something_would_change() {
    let mut clean = Report::new(&Flags { check: true, ..WRITING });
    clean.done("a.md", false);
    assert_eq!(clean.exit(), 0);
    let mut dirty = Report::new(&Flags { check: true, ..WRITING });
    dirty.done("a.md", true);
    assert_eq!(dirty.exit(), 1);
    let mut written = Report::new(&WRITING);
    written.done("a.md", true);
    assert_eq!(written.exit(), 0);
}
