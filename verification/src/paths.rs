//! Which files Marklign formats.
//!
//! A directory is walked the way Black walks a project: `.gitignore` files are
//! honored, hidden entries are skipped, and every remaining path is matched
//! against a pattern of files to format and a pattern of paths to skip. Patterns are matched
//! against the path relative to the directory being walked, written with `/`
//! separators, beginning with `/`, and ending with `/` for a directory, so
//! `vendor/` excludes a directory anywhere below, and an unanchored pattern
//! means what it looks like.
//!
//! A path reaches this module as the names of its components below the
//! directory being walked; the walk itself, which reads the disk, is the
//! caller's.
use vstd::prelude::*;

use crate::text::{append, chars_of, string_of};

verus! {

#[verifier::external_type_specification]
#[verifier::external_body]
pub struct ExRegex(regex::Regex);

/// `regex::Regex::clone`, which shares the compiled program. Nothing is
/// claimed of the copy; what this crate knows of a compiled pattern is
/// carried beside it.
pub assume_specification[ <regex::Regex as Clone>::clone ](r: &regex::Regex) -> regex::Regex;

/// Files a directory walk offers to the formatter. Case-insensitive, because
/// `README.MD` is the same document as `README.md` and half the world writes
/// it that way. A file named on the command line is formatted whatever it is
/// called.
pub const DEFAULT_INCLUDE: &'static str = "(?i)\\.(md|markdown)$";

/// Directories a formatter has no business walking into.
pub const DEFAULT_EXCLUDE: &'static str =
    "/(\\.git|\\.hg|\\.svn|\\.venv|venv|node_modules|target|build|dist|_build)/";

/// What `regex::RegexBuilder::build` reports for `pattern` compiled with
/// insignificant whitespace: `None` when it compiles, or the text of the
/// error it returns.
pub uninterp spec fn regex_rejection(pattern: Seq<char>) -> Option<Seq<char>>;

/// Whether `regex::Regex::is_match` finds `pattern`, compiled with
/// insignificant whitespace, anywhere in `haystack`.
pub uninterp spec fn regex_finds(pattern: Seq<char>, haystack: Seq<char>) -> bool;

/// A compiled pattern together with the text it was compiled from.
#[derive(Clone)]
struct Pattern {
    source: String,
    compiled: regex::Regex,
}

impl Pattern {
    closed spec fn source(&self) -> Seq<char> {
        self.source@
    }

    /// Calls `regex::RegexBuilder::new(pattern).ignore_whitespace(true).build()`.
    /// Claimed: the result is `Ok` exactly when the pattern compiles, and the
    /// compiled pattern remembers its source; otherwise the error's text is
    /// the one `regex_rejection` names.
    #[verifier::external_body]
    fn compile(pattern: &str) -> (r: Result<Pattern, String>)
        ensures
            match r {
                Ok(p) => regex_rejection(pattern@) is None && p.source() == pattern@,
                Err(message) => regex_rejection(pattern@) == Some(message@),
            },
    {
        match regex::RegexBuilder::new(pattern).ignore_whitespace(true).build() {
            Ok(compiled) => Ok(Pattern { source: pattern.to_string(), compiled }),
            Err(error) => Err(error.to_string()),
        }
    }

    /// Calls `regex::Regex::is_match`. Claimed: the answer is the one
    /// `regex_finds` names for the source this pattern was compiled from;
    /// `compile` is the only place a `Pattern` is made.
    #[verifier::external_body]
    fn is_match(&self, haystack: &str) -> (r: bool)
        ensures
            r == regex_finds(self.source(), haystack@),
    {
        self.compiled.is_match(haystack)
    }
}

/// The text of each pattern of a run.
pub struct FiltersView {
    pub accept: Seq<char>,
    pub exclude: Seq<char>,
    pub extend_exclude: Option<Seq<char>>,
    pub force_exclude: Option<Seq<char>>,
}

/// The patterns of one run: the files to format, and the paths to skip.
#[derive(Clone)]
pub struct Filters {
    accept: Pattern,
    exclude: Pattern,
    extend_exclude: Option<Pattern>,
    force_exclude: Option<Pattern>,
}

pub open spec fn text_of(s: Option<&str>) -> Option<Seq<char>> {
    match s {
        Some(t) => Some(t@),
        None => None,
    }
}

spec fn source_of(p: Option<Pattern>) -> Option<Seq<char>> {
    match p {
        Some(q) => Some(q.source()),
        None => None,
    }
}

/// Whether an optional pattern finds a match in `name`.
pub open spec fn finds_some(pattern: Option<Seq<char>>, name: Seq<char>) -> bool {
    match pattern {
        Some(p) => regex_finds(p, name),
        None => false,
    }
}

/// The command-line flag that sets the pattern of files a walk formats,
/// spelled out by its characters.
pub open spec fn files_flag() -> Seq<char> {
    seq!['-', '-', 'i', 'n', 'c', 'l', 'u', 'd', 'e']
}

fn files_flag_chars() -> (r: Vec<char>)
    ensures
        r@ == files_flag(),
{
    let r = vec!['-', '-', 'i', 'n', 'c', 'l', 'u', 'd', 'e'];
    assert(r@ =~= files_flag());
    r
}

/// The message for a pattern given to `flag` that does not compile.
pub open spec fn rejection_message(flag: Seq<char>, error: Seq<char>) -> Seq<char> {
    flag + " is not a valid regular expression: "@ + error
}

/// The first of the four patterns, in the order of their flags, that does
/// not compile, as the message that reports it.
pub open spec fn first_rejection(
    accept: Seq<char>,
    exclude: Seq<char>,
    extend_exclude: Option<Seq<char>>,
    force_exclude: Option<Seq<char>>,
) -> Option<Seq<char>> {
    if let Some(e) = regex_rejection(accept) {
        Some(rejection_message(files_flag(), e))
    } else if let Some(e) = regex_rejection(exclude) {
        Some(rejection_message("--exclude"@, e))
    } else if extend_exclude is Some && regex_rejection(extend_exclude->0) is Some {
        Some(rejection_message("--extend-exclude"@, regex_rejection(extend_exclude->0)->0))
    } else if force_exclude is Some && regex_rejection(force_exclude->0) is Some {
        Some(rejection_message("--force-exclude"@, regex_rejection(force_exclude->0)->0))
    } else {
        None
    }
}

/// Whether a path found by walking is excluded, directory or file.
pub open spec fn excluded_by(f: FiltersView, name: Seq<char>) -> bool {
    regex_finds(f.exclude, name) || finds_some(f.extend_exclude, name) || finds_some(
        f.force_exclude,
        name,
    )
}

/// Whether a file found by walking is formatted.
pub open spec fn wanted_by(f: FiltersView, name: Seq<char>) -> bool {
    regex_finds(f.accept, name) && !excluded_by(f, name)
}

/// Each component, preceded by `/`.
pub open spec fn slashed(parts: Seq<Seq<char>>) -> Seq<char>
    decreases parts.len(),
{
    if parts.len() == 0 {
        seq![]
    } else {
        slashed(parts.drop_last()) + seq!['/'] + parts.last()
    }
}

/// The text a pattern is matched against, for a path whose components below
/// the walked directory are `parts`: each preceded by `/`, just `/` for the
/// directory itself, and a directory ends with `/`.
pub open spec fn key_of(parts: Seq<Seq<char>>, is_dir: bool) -> Seq<char> {
    let name = if parts.len() == 0 {
        seq!['/']
    } else {
        slashed(parts)
    };
    if is_dir && name.last() != '/' {
        name.push('/')
    } else {
        name
    }
}

pub open spec fn part_views(parts: Seq<String>) -> Seq<Seq<char>> {
    parts.map_values(|p: String| p@)
}

/// Compile one pattern. Whitespace is insignificant, as in Black, so a long
/// exclude pattern can be written legibly.
fn compile(flag: &str, pattern: &str) -> (r: Result<Pattern, String>)
    ensures
        match r {
            Ok(p) => regex_rejection(pattern@) is None && p.source() == pattern@,
            Err(message) => regex_rejection(pattern@) matches Some(e) && message@
                == rejection_message(flag@, e),
        },
{
    match Pattern::compile(pattern) {
        Ok(p) => Ok(p),
        Err(error) => {
            let mut text = chars_of(flag);
            append(&mut text, &chars_of(" is not a valid regular expression: "));
            append(&mut text, &chars_of(error.as_str()));
            Err(string_of(&text))
        },
    }
}

fn compile_optional(flag: &str, pattern: Option<&str>) -> (r: Result<Option<Pattern>, String>)
    ensures
        match r {
            Ok(p) => (pattern is None ==> p is None) && (pattern matches Some(q) ==> regex_rejection(
                q@,
            ) is None && p is Some && p->0.source() == q@),
            Err(message) => pattern matches Some(q) && regex_rejection(q@) matches Some(e)
                && message@ == rejection_message(flag@, e),
        },
{
    match pattern {
        None => Ok(None),
        Some(q) => match compile(flag, q) {
            Ok(p) => Ok(Some(p)),
            Err(message) => Err(message),
        },
    }
}

impl Filters {
    pub closed spec fn view(&self) -> FiltersView {
        FiltersView {
            accept: self.accept.source(),
            exclude: self.exclude.source(),
            extend_exclude: source_of(self.extend_exclude),
            force_exclude: source_of(self.force_exclude),
        }
    }

    /// The filters of a run, or the message for the first pattern that is
    /// not a valid regular expression.
    pub fn new(
        accept: &str,
        exclude: &str,
        extend_exclude: Option<&str>,
        force_exclude: Option<&str>,
    ) -> (r: Result<Self, String>)
        ensures
            match r {
                Ok(f) => first_rejection(
                    accept@,
                    exclude@,
                    text_of(extend_exclude),
                    text_of(force_exclude),
                ) is None && f@ == (FiltersView {
                    accept: accept@,
                    exclude: exclude@,
                    extend_exclude: text_of(extend_exclude),
                    force_exclude: text_of(force_exclude),
                }),
                Err(message) => first_rejection(
                    accept@,
                    exclude@,
                    text_of(extend_exclude),
                    text_of(force_exclude),
                ) == Some(message@),
            },
    {
        let flag = string_of(&files_flag_chars());
        let accept = match compile(flag.as_str(), accept) {
            Ok(p) => p,
            Err(message) => return Err(message),
        };
        let exclude = match compile("--exclude", exclude) {
            Ok(p) => p,
            Err(message) => return Err(message),
        };
        let extend = match compile_optional("--extend-exclude", extend_exclude) {
            Ok(p) => p,
            Err(message) => return Err(message),
        };
        let force = match compile_optional("--force-exclude", force_exclude) {
            Ok(p) => p,
            Err(message) => return Err(message),
        };
        Ok(Filters { accept, exclude, extend_exclude: extend, force_exclude: force })
    }

    /// Whether a path named on the command line survives `--force-exclude`.
    /// Nothing else applies to it: a named file is one the user chose. The
    /// path is given by its components.
    pub fn allows_named(&self, parts: &Vec<String>, is_dir: bool) -> (r: bool)
        ensures
            r == !finds_some(self@.force_exclude, key_of(part_views(parts@), is_dir)),
    {
        let name = key(parts, is_dir);
        match &self.force_exclude {
            Some(pattern) => !pattern.is_match(name.as_str()),
            None => true,
        }
    }

    /// Whether a path found by walking is excluded, directory or file.
    pub fn excluded(&self, name: &str) -> (r: bool)
        ensures
            r == excluded_by(self@, name@),
    {
        if self.exclude.is_match(name) {
            return true;
        }
        if let Some(pattern) = &self.extend_exclude {
            if pattern.is_match(name) {
                return true;
            }
        }
        if let Some(pattern) = &self.force_exclude {
            if pattern.is_match(name) {
                return true;
            }
        }
        false
    }

    /// Whether a file found by walking is formatted.
    pub fn wanted(&self, name: &str) -> (r: bool)
        ensures
            r == wanted_by(self@, name@),
    {
        self.accept.is_match(name) && !self.excluded(name)
    }
}

/// The text a pattern is matched against, for a path
/// given by the names of its components below the directory being walked.
pub fn key(parts: &Vec<String>, is_dir: bool) -> (r: String)
    ensures
        r@ == key_of(part_views(parts@), is_dir),
{
    let ghost views = part_views(parts@);
    let mut name: Vec<char> = Vec::new();
    let mut i: usize = 0;
    while i < parts.len()
        invariant
            i <= parts.len(),
            views == part_views(parts@),
            name@ == slashed(views.take(i as int)),
        decreases parts.len() - i,
    {
        name.push('/');
        append(&mut name, &chars_of(parts[i].as_str()));
        proof {
            assert(views.take(i + 1).drop_last() =~= views.take(i as int));
            assert(views.take(i + 1).last() == parts@[i as int]@);
        }
        i = i + 1;
    }
    proof {
        assert(views.take(parts.len() as int) =~= views);
    }
    if name.len() == 0 {
        name.push('/');
    }
    if is_dir && name[name.len() - 1] != '/' {
        name.push('/');
    }
    proof {
        if views.len() > 0 {
            assert(slashed(views).len() > 0);
        }
    }
    string_of(&name)
}

} // verus!
