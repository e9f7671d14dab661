//! What a formatting run decides around the formatter: which preferences it
//! accepts, what it does with each formatted document, what it reports, and
//! how it exits. Counted and worded after Black, so that the last line of a
//! build log reads the same way. Reading files, writing them, and printing
//! are the caller's.
use vstd::prelude::*;

use crate::environments::{join_rows, join_with};
use crate::text::{append, chars_of, decimal, push_decimal, string_of, views};
use crate::{FormatOptions, MathStyle, MIN_MATH_WIDTH};

verus! {

/// Reserved, as in Black, for a run the formatter could not complete. A file
/// that merely needs formatting is not an internal error.
pub const INTERNAL_ERROR: u8 = 123;

/// What `similar::TextDiff::from_lines(old, new).unified_diff()` writes
/// under the given headers.
pub uninterp spec fn unified_diff_text(
    old: Seq<char>,
    new: Seq<char>,
    old_header: Seq<char>,
    new_header: Seq<char>,
) -> Seq<char>;

/// Calls `similar::TextDiff::from_lines(old, new).unified_diff().header(..)`
/// and renders it. Claimed: the text is the one `unified_diff_text` names
/// for these four arguments (the line diff has no deadline, so it depends on
/// nothing else).
#[verifier::external_body]
fn unified_diff(old: &str, new: &str, old_header: &str, new_header: &str) -> (r: String)
    ensures
        r@ == unified_diff_text(old@, new@, old_header@, new_header@),
{
    similar::TextDiff::from_lines(old, new).unified_diff().header(old_header, new_header).to_string()
}

/// The flags of a run that decide what it writes and what it says.
#[derive(Clone, Copy, Debug, PartialEq, Eq, Structural)]
pub struct Flags {
    /// Do not write anything; exit 1 if a file would be reformatted.
    pub check: bool,
    /// Do not write anything; print a diff of what would change.
    pub diff: bool,
    /// Report each file that is already formatted as well.
    pub verbose: bool,
    /// Report nothing but errors.
    pub quiet: bool,
}

impl Flags {
    /// Whether this run may rewrite files. `--check` and `--diff` only look.
    pub fn writing(&self) -> (r: bool)
        ensures
            r == (!self.check && !self.diff),
    {
        !self.check && !self.diff
    }
}

/// The message refusing a `--math-width` below the narrowest accepted.
pub open spec fn narrow_width_message() -> Seq<char> {
    "--math-width must be at least "@ + decimal(MIN_MATH_WIDTH as nat)
}

/// The preferences of a run, or the message refusing its width.
pub fn preferences(style: MathStyle, width: usize) -> (r: Result<FormatOptions, String>)
    ensures
        width < MIN_MATH_WIDTH ==> (r matches Err(m) && m@ == narrow_width_message()),
        width >= MIN_MATH_WIDTH ==> r == Ok::<FormatOptions, String>(
            FormatOptions { math_style: style, math_width: width },
        ),
{
    if width < MIN_MATH_WIDTH {
        let mut text = chars_of("--math-width must be at least ");
        push_decimal(&mut text, MIN_MATH_WIDTH);
        Err(string_of(&text))
    } else {
        Ok(FormatOptions { math_style: style, math_width: width })
    }
}

/// Whether a run found nothing to do: nothing to format and nothing that
/// could not be read. That is not a failure: a project may hold no Markdown
/// yet, or all of it may be excluded, and a `--check` job should not fail
/// for that.
pub fn nothing_to_do(inputs: usize, problems: usize) -> (r: bool)
    ensures
        r == (inputs == 0 && problems == 0),
{
    inputs == 0 && problems == 0
}

/// What becomes of a formatted document.
#[derive(Clone, Copy, Debug, PartialEq, Eq, Structural)]
pub enum Action {
    /// Write it back over the file it came from.
    Rewrite,
    /// Write it to standard output.
    Print,
    /// Leave everything as it is.
    Leave,
}

/// What a run does with one formatted document.
pub struct Outcome {
    /// Whether formatting changed the document.
    pub changed: bool,
    /// The unified diff to print, under `--diff`, of a changed document.
    pub diff: Option<String>,
    pub action: Action,
}

/// The action for a document: a file is rewritten only when it needs it, so
/// that files already formatted keep their modification time; standard
/// input has no file to rewrite, and the formatted document is the output of
/// the run whether or not anything changed.
pub open spec fn action_for(from_file: bool, writing: bool, changed: bool) -> Action {
    if from_file {
        if writing && changed {
            Action::Rewrite
        } else {
            Action::Leave
        }
    } else if writing {
        Action::Print
    } else {
        Action::Leave
    }
}

pub open spec fn original_header(name: Seq<char>) -> Seq<char> {
    name + "\t(original)"@
}

pub open spec fn formatted_header(name: Seq<char>) -> Seq<char> {
    name + "\t(marklign)"@
}

fn same_text(a: &str, b: &str) -> (r: bool)
    ensures
        r == (a@ == b@),
{
    let x = chars_of(a);
    let y = chars_of(b);
    if x.len() != y.len() {
        return false;
    }
    let mut i: usize = 0;
    while i < x.len()
        invariant
            x@ == a@,
            y@ == b@,
            x.len() == y.len(),
            i <= x.len(),
            forall|k: int| 0 <= k < i ==> x@[k] == y@[k],
        decreases x.len() - i,
    {
        if x[i] != y[i] {
            return false;
        }
        i = i + 1;
    }
    assert(x@ =~= y@);
    true
}

/// The unified diff of a document named `name` against its formatted text.
pub fn diff(name: &str, original: &str, formatted: &str) -> (r: String)
    ensures
        r@ == unified_diff_text(original@, formatted@, original_header(name@), formatted_header(name@)),
{
    let mut old_header = chars_of(name);
    append(&mut old_header, &chars_of("\t(original)"));
    let mut new_header = chars_of(name);
    append(&mut new_header, &chars_of("\t(marklign)"));
    let a = string_of(&old_header);
    let b = string_of(&new_header);
    unified_diff(original, formatted, a.as_str(), b.as_str())
}

/// What a run does with the document named `name`, read from a file or from
/// standard input, once it has been formatted.
pub fn settle(name: &str, from_file: bool, original: &str, formatted: &str, flags: &Flags) -> (r:
    Outcome)
    ensures
        r.changed == (original@ != formatted@),
        r.action == action_for(from_file, !flags.check && !flags.diff, r.changed),
        r.diff is Some <==> flags.diff && r.changed,
        r.diff matches Some(d) ==> d@ == unified_diff_text(
            original@,
            formatted@,
            original_header(name@),
            formatted_header(name@),
        ),
{
    let changed = !same_text(original, formatted);
    let shown = if flags.diff && changed {
        Some(diff(name, original, formatted))
    } else {
        None
    };
    let writing = flags.writing();
    let action = if from_file {
        if writing && changed {
            Action::Rewrite
        } else {
            Action::Leave
        }
    } else if writing {
        Action::Print
    } else {
        Action::Leave
    };
    Outcome { changed, diff: shown, action }
}

/// What a run has done so far.
pub struct ReportView {
    /// True when nothing is written, under `--check` or `--diff`.
    pub looking_only: bool,
    pub quiet: bool,
    pub verbose: bool,
    pub reformatted: nat,
    pub unchanged: nat,
    pub failed: nat,
}

/// What a run did, and what it says about it.
pub struct Report {
    looking_only: bool,
    quiet: bool,
    verbose: bool,
    reformatted: usize,
    unchanged: usize,
    failed: usize,
}

/// The message for a document formatting changed, unless the run is quiet.
pub open spec fn changed_message(looking_only: bool, name: Seq<char>) -> Seq<char> {
    (if looking_only {
        "would reformat "@
    } else {
        "reformatted "@
    }) + name
}

pub open spec fn unchanged_message(name: Seq<char>) -> Seq<char> {
    name + " is already formatted"@
}

pub open spec fn failure_message(name: Seq<char>, error: Seq<char>) -> Seq<char> {
    "error: cannot format "@ + name + ": "@ + error
}

pub open spec fn problem_message(problem: Seq<char>) -> Seq<char> {
    "error: "@ + problem
}

/// `file` or `files`, as `count` asks.
pub open spec fn files(count: nat) -> Seq<char> {
    if count == 1 {
        "file"@
    } else {
        "files"@
    }
}

pub open spec fn count_phrase(count: nat, tail: Seq<char>) -> Seq<char> {
    decimal(count) + " "@ + files(count) + " "@ + tail
}

/// The clauses of the closing summary, in order, each only where its count
/// is not zero.
pub open spec fn summary_parts(v: ReportView) -> Seq<Seq<char>> {
    let first: Seq<Seq<char>> = if v.reformatted > 0 {
        seq![
            count_phrase(
                v.reformatted,
                if v.looking_only {
                    "would be reformatted"@
                } else {
                    "reformatted"@
                },
            ),
        ]
    } else {
        seq![]
    };
    let second: Seq<Seq<char>> = if v.unchanged > 0 {
        seq![count_phrase(v.unchanged, "left unchanged"@)]
    } else {
        seq![]
    };
    let third: Seq<Seq<char>> = if v.failed > 0 {
        seq![
            count_phrase(
                v.failed,
                if v.looking_only {
                    "would fail to reformat"@
                } else {
                    "failed to reformat"@
                },
            ),
        ]
    } else {
        seq![]
    };
    first + second + third
}

/// The closing line of a run, such as `1 file reformatted, 2 files left
/// unchanged.`
pub open spec fn summary_of(v: ReportView) -> Seq<char> {
    join_with(summary_parts(v), ", "@) + "."@
}

/// The exit status of a run: 123 when a file could not be formatted or a
/// path could not be read, 1 when `--check` or `--diff` found a file to
/// reformat, and 0 otherwise.
pub open spec fn exit_status(v: ReportView) -> u8 {
    if v.failed > 0 {
        INTERNAL_ERROR
    } else if v.looking_only && v.reformatted > 0 {
        1
    } else {
        0
    }
}

fn count_text(count: usize, tail: &str) -> (r: Vec<char>)
    ensures
        r@ == count_phrase(count as nat, tail@),
{
    let mut text: Vec<char> = Vec::new();
    push_decimal(&mut text, count);
    append(&mut text, &chars_of(" "));
    if count == 1 {
        append(&mut text, &chars_of("file"));
    } else {
        append(&mut text, &chars_of("files"));
    }
    append(&mut text, &chars_of(" "));
    append(&mut text, &chars_of(tail));
    proof {
        assert(text@ =~= count_phrase(count as nat, tail@));
    }
    text
}

impl Report {
    pub closed spec fn view(&self) -> ReportView {
        ReportView {
            looking_only: self.looking_only,
            quiet: self.quiet,
            verbose: self.verbose,
            reformatted: self.reformatted as nat,
            unchanged: self.unchanged as nat,
            failed: self.failed as nat,
        }
    }

    /// A report with nothing counted yet.
    pub fn new(flags: &Flags) -> (r: Report)
        ensures
            r@ == (ReportView {
                looking_only: flags.check || flags.diff,
                quiet: flags.quiet,
                verbose: flags.verbose,
                reformatted: 0,
                unchanged: 0,
                failed: 0,
            }),
    {
        Report {
            looking_only: !flags.writing(),
            quiet: flags.quiet,
            verbose: flags.verbose,
            reformatted: 0,
            unchanged: 0,
            failed: 0,
        }
    }

    /// The counts so far: reformatted, unchanged, failed.
    pub fn counts(&self) -> (r: (usize, usize, usize))
        ensures
            r.0 == self@.reformatted,
            r.1 == self@.unchanged,
            r.2 == self@.failed,
    {
        (self.reformatted, self.unchanged, self.failed)
    }

    /// Count a document formatted, and return what to say about it, if
    /// anything.
    pub fn done(&mut self, name: &str, changed: bool) -> (r: Option<String>)
        requires
            changed ==> old(self)@.reformatted < usize::MAX,
            !changed ==> old(self)@.unchanged < usize::MAX,
        ensures
            final(self)@ == (if changed {
                ReportView { reformatted: old(self)@.reformatted + 1, ..old(self)@ }
            } else {
                ReportView { unchanged: old(self)@.unchanged + 1, ..old(self)@ }
            }),
            changed ==> (r is Some <==> !old(self)@.quiet),
            !changed ==> (r is Some <==> old(self)@.verbose),
            r matches Some(m) ==> m@ == (if changed {
                changed_message(old(self)@.looking_only, name@)
            } else {
                unchanged_message(name@)
            }),
    {
        if changed {
            self.reformatted = self.reformatted + 1;
            if self.quiet {
                None
            } else {
                let mut text = if self.looking_only {
                    chars_of("would reformat ")
                } else {
                    chars_of("reformatted ")
                };
                append(&mut text, &chars_of(name));
                Some(string_of(&text))
            }
        } else {
            self.unchanged = self.unchanged + 1;
            if self.verbose {
                let mut text = chars_of(name);
                append(&mut text, &chars_of(" is already formatted"));
                Some(string_of(&text))
            } else {
                None
            }
        }
    }

    /// Count a document that could not be formatted, and return the message
    /// that reports it.
    pub fn failed(&mut self, name: &str, error: &str) -> (r: String)
        requires
            old(self)@.failed < usize::MAX,
        ensures
            final(self)@ == (ReportView { failed: old(self)@.failed + 1, ..old(self)@ }),
            r@ == failure_message(name@, error@),
    {
        self.failed = self.failed + 1;
        let mut text = chars_of("error: cannot format ");
        append(&mut text, &chars_of(name));
        append(&mut text, &chars_of(": "));
        append(&mut text, &chars_of(error));
        proof {
            assert(text@ =~= failure_message(name@, error@));
        }
        string_of(&text)
    }

    /// Count a path that could not even be looked at: the run did not see
    /// everything it was asked to see. Returns the message that reports it.
    pub fn unreadable(&mut self, problem: &str) -> (r: String)
        requires
            old(self)@.failed < usize::MAX,
        ensures
            final(self)@ == (ReportView { failed: old(self)@.failed + 1, ..old(self)@ }),
            r@ == problem_message(problem@),
    {
        self.failed = self.failed + 1;
        let mut text = chars_of("error: ");
        append(&mut text, &chars_of(problem));
        string_of(&text)
    }

    /// The exit status the run ends with.
    pub fn exit(&self) -> (r: u8)
        ensures
            r == exit_status(self@),
    {
        if self.failed > 0 {
            INTERNAL_ERROR
        } else if self.looking_only && self.reformatted > 0 {
            1
        } else {
            0
        }
    }

    /// The closing line of the run.
    pub fn summary(&self) -> (r: String)
        ensures
            r@ == summary_of(self@),
    {
        let mut parts: Vec<Vec<char>> = Vec::new();
        if self.reformatted > 0 {
            let tail = if self.looking_only {
                "would be reformatted"
            } else {
                "reformatted"
            };
            parts.push(count_text(self.reformatted, tail));
        }
        if self.unchanged > 0 {
            parts.push(count_text(self.unchanged, "left unchanged"));
        }
        if self.failed > 0 {
            let tail = if self.looking_only {
                "would fail to reformat"
            } else {
                "failed to reformat"
            };
            parts.push(count_text(self.failed, tail));
        }
        proof {
            assert(views(parts@) =~= summary_parts(self@));
        }
        let mut text = join_rows(&parts, &chars_of(", "));
        append(&mut text, &chars_of("."));
        proof {
            assert(text@ =~= summary_of(self@));
        }
        string_of(&text)
    }
}

} // verus!
