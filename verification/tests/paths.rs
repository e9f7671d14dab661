//! The patterns that decide which files a run formats.

use marklign::paths::{key, Filters, DEFAULT_EXCLUDE, DEFAULT_INCLUDE};

fn parts(names: &[&str]) -> Vec<String> {
    names.iter().map(|name| name.to_string()).collect()
}

fn defaults(force: Option<&str>) -> Filters {
    Filters::new(DEFAULT_INCLUDE, DEFAULT_EXCLUDE, None, force).expect("the defaults compile")
}

#[test]
fn a_key_starts_with_a_slash_and_a_directory_ends_with_one() {
    assert_eq!(key(&parts(&["docs", "notes.md"]), false), "/docs/notes.md");
    assert_eq!(key(&parts(&["docs", "vendor"]), true), "/docs/vendor/");
    assert_eq!(key(&parts(&[]), false), "/");
    assert_eq!(key(&parts(&[]), true), "/");
}

#[test]
fn the_default_walk_takes_markdown_whatever_its_case() {
    let filters = defaults(None);
    assert!(filters.wanted("/README.md"));
    assert!(filters.wanted("/docs/README.MD"));
    assert!(filters.wanted("/notes.markdown"));
    assert!(!filters.wanted("/src/lib.rs"));
}

#[test]
fn the_default_walk_skips_build_and_vendor_directories() {
    let filters = defaults(None);
    assert!(filters.excluded("/target/"));
    assert!(filters.excluded("/web/node_modules/"));
    assert!(filters.excluded("/.git/"));
    assert!(!filters.excluded("/docs/"));
    assert!(!filters.wanted("/target/notes.md"));
}

#[test]
fn extend_exclude_adds_to_the_default() {
    let filters = Filters::new(DEFAULT_INCLUDE, DEFAULT_EXCLUDE, Some("/drafts/"), None).unwrap();
    assert!(filters.excluded("/drafts/"));
    assert!(filters.excluded("/target/"));
    assert!(!filters.wanted("/drafts/plan.md"));
    assert!(filters.wanted("/final/plan.md"));
}

#[test]
fn whitespace_in_a_pattern_is_insignificant() {
    let filters = Filters::new("\\. md $", "/ vendor /", None, None).unwrap();
    assert!(filters.wanted("/a.md"));
    assert!(filters.excluded("/vendor/"));
}

#[test]
fn force_exclude_applies_to_named_paths_and_nothing_else_does() {
    let filters = defaults(Some("generated"));
    assert!(!filters.allows_named(&parts(&["docs", "generated.md"]), false));
    assert!(filters.allows_named(&parts(&["target", "notes.txt"]), false));
    assert!(filters.excluded("/generated/"));
    let open = defaults(None);
    assert!(open.allows_named(&parts(&["docs", "generated.md"]), false));
}

#[test]
fn an_invalid_pattern_is_reported_with_its_flag() {
    for (flag, result) in [
        ("--include", Filters::new("(", DEFAULT_EXCLUDE, None, None)),
        ("--exclude", Filters::new(DEFAULT_INCLUDE, "[", None, None)),
        ("--extend-exclude", Filters::new(DEFAULT_INCLUDE, DEFAULT_EXCLUDE, Some("("), None)),
        ("--force-exclude", Filters::new(DEFAULT_INCLUDE, DEFAULT_EXCLUDE, None, Some("("))),
    ] {
        let message = result.err().expect("the pattern is refused");
        assert!(
            message.starts_with(&format!("{flag} is not a valid regular expression: ")),
            "{message}"
        );
        assert!(message.len() > flag.len() + 36, "{message}");
    }
}

#[test]
fn the_first_invalid_pattern_is_the_one_reported() {
    let message = Filters::new("(", "[", None, None).err().unwrap();
    assert!(message.starts_with("--include "), "{message}");
}
