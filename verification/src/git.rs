//! The editor's own git commands: what a buffer's file has been through, and who changed the
//! line under the cursor. They answer in the status line and, for more, in the sidebar.

use crate::text::{append_str, chars, same_str, string};
use vstd::prelude::*;

verus! {

/// A commit, as far as it is told of.
#[derive(Debug)]
pub struct Commit {
    pub short: String,
    pub subject: String,
    /// How long ago it was made, in words.
    pub age: String,
}

impl Commit {
    /// The same commit, told of in the same words.
    pub open spec fn same(self, other: Commit) -> bool {
        self.short@ == other.short@ && self.subject@ == other.subject@ && self.age@ == other.age@
    }

    pub fn copy(&self) -> (r: Commit)
        ensures
            r.same(*self),
    {
        Commit { short: self.short.clone(), subject: self.subject.clone(), age: self.age.clone() }
    }
}

/// Who last changed a line, and in which commit; in none where it is not committed yet.
#[derive(Debug)]
pub struct Blame {
    pub author: String,
    pub commit: Option<Commit>,
}

/// Which line is asked about, of which text: the revision it is in, or none where it is the
/// buffer's own.
#[derive(Debug)]
pub struct BlameRequest {
    pub path: String,
    pub line: usize,
    pub revision: Option<String>,
}

/// The line blamed last, so blaming it again opens its commit.
#[derive(Debug)]
pub struct LastBlame {
    pub path: String,
    pub line: usize,
    pub revision: Option<String>,
    pub blame: Blame,
}

/// What is left to do once a command has run.
#[derive(Debug)]
pub enum GitTask {
    /// The history of a file is shown in the sidebar.
    ShowHistory(String),
    /// The panels of a review, one after the other.
    CycleReview,
    ToggleCommits,
    ToggleCode,
    ToggleCommitFiles,
    ToggleContext,
    ToggleSideBySide,
}

/// What commands leave behind: what is done next, and what is said.
#[derive(Debug)]
pub struct Context {
    pub callback: Vec<GitTask>,
    pub error: Option<String>,
}

impl Context {
    pub fn new() -> (r: Context)
        ensures
            r.callback@.len() == 0,
            r.error is None,
    {
        Context { callback: Vec::new(), error: None }
    }

    /// The same with one thing more to do.
    pub open spec fn does(self, before: Context, task: GitTask) -> bool {
        self.callback@ == before.callback@.push(task) && self.error == before.error
    }
}

/// Shows the history of the current file in the sidebar; a buffer without one says so.
pub fn file_history(cx: &mut Context, path: Option<String>)
    ensures
        match path {
            Some(path) => final(cx).does(*old(cx), GitTask::ShowHistory(path)),
            None => final(cx).callback == old(cx).callback && final(cx).error.deep_view() == Some(
                "The buffer has no file to show the history of"@,
            ),
        },
{
    match path {
        Some(path) => {
            cx.callback.push(GitTask::ShowHistory(path));
        },
        None => {
            cx.error = Some("The buffer has no file to show the history of".to_string());
        },
    }
}

/// Review controls are commands so menus, configured keys and the palette share them.
pub fn review_cycle(cx: &mut Context)
    ensures
        final(cx).does(*old(cx), GitTask::CycleReview),
{
    cx.callback.push(GitTask::CycleReview);
}

pub fn review_commits_toggle(cx: &mut Context)
    ensures
        final(cx).does(*old(cx), GitTask::ToggleCommits),
{
    cx.callback.push(GitTask::ToggleCommits);
}

pub fn review_code_toggle(cx: &mut Context)
    ensures
        final(cx).does(*old(cx), GitTask::ToggleCode),
{
    cx.callback.push(GitTask::ToggleCode);
}

pub fn review_files_toggle(cx: &mut Context)
    ensures
        final(cx).does(*old(cx), GitTask::ToggleCommitFiles),
{
    cx.callback.push(GitTask::ToggleCommitFiles);
}

pub fn review_context_toggle(cx: &mut Context)
    ensures
        final(cx).does(*old(cx), GitTask::ToggleContext),
{
    cx.callback.push(GitTask::ToggleContext);
}

pub fn review_side_by_side_toggle(cx: &mut Context)
    ensures
        final(cx).does(*old(cx), GitTask::ToggleSideBySide),
{
    cx.callback.push(GitTask::ToggleSideBySide);
}

// ---------------------------------------------------------------------------------------
// Blame
// ---------------------------------------------------------------------------------------

/// What asking who changed a line does.
#[derive(Debug)]
pub enum BlameStep {
    /// There is no line to ask about, and what is said.
    Refused(&'static str),
    /// The line was asked about last: its commit is opened.
    OpenCommit(Commit),
    /// The line was asked about last, and is not committed yet.
    NotCommitted,
    /// Git is asked.
    Ask(BlameRequest),
}

/// Whether a line is the one blamed last.
pub open spec fn blamed_last(last: Option<LastBlame>, request: BlameRequest) -> bool {
    last matches Some(last) && last.path@ == request.path@ && last.line == request.line
        && last.revision.deep_view() == request.revision.deep_view()
}

/// The line that is asked about: the buffer's, or the one a diff shows.
pub open spec fn asked_about(buffer: Option<BlameRequest>, diff: Option<BlameRequest>) -> Option<
    BlameRequest,
> {
    match buffer {
        Some(_) => buffer,
        None => diff,
    }
}

/// What asking who changed a line does.
pub open spec fn asking(
    last: Option<LastBlame>,
    buffer: Option<BlameRequest>,
    diff: Option<BlameRequest>,
    in_review: bool,
    step: BlameStep,
) -> bool {
    match asked_about(buffer, diff) {
        None => step is Refused && step->Refused_0@ == if in_review {
            "Put the cursor on a line of code to blame it"@
        } else {
            "The buffer has no file to blame"@
        },
        Some(request) => if blamed_last(last, request) {
            if (last->0).blame.commit is Some {
                step is OpenCommit && step->OpenCommit_0.same((last->0).blame.commit->0)
            } else {
                step == BlameStep::NotCommitted
            }
        } else {
            step == BlameStep::Ask(request)
        },
    }
}

fn same_revision(a: &Option<String>, b: &Option<String>) -> (r: bool)
    ensures
        r == (a.deep_view() == b.deep_view()),
{
    match (a, b) {
        (Some(a), Some(b)) => same_str(a.as_str(), b.as_str()),
        (None, None) => true,
        _ => false,
    }
}

/// Who last changed the line under the cursor is asked of git, counting the buffer's unsaved
/// text, or, in a diff, in the text the diff shows the line in; asked again on the same line,
/// that commit is opened in the sidebar. `buffer` is the line of a buffer with a file, `diff`
/// the one a diff shows, and `in_review` says that the buffer is a review's.
pub fn blame_line(
    last: &Option<LastBlame>,
    buffer: Option<BlameRequest>,
    diff: Option<BlameRequest>,
    in_review: bool,
) -> (r: BlameStep)
    ensures
        asking(*last, buffer, diff, in_review, r),
{
    let request: BlameRequest = match (buffer, diff) {
        (Some(request), _) => request,
        (None, Some(request)) => request,
        (None, None) => {
            return BlameStep::Refused(
                if in_review {
                    "Put the cursor on a line of code to blame it"
                } else {
                    "The buffer has no file to blame"
                },
            );
        },
    };
    if let Some(last) = last {
        if same_str(last.path.as_str(), request.path.as_str()) && last.line == request.line
            && same_revision(&last.revision, &request.revision) {
            return match &last.blame.commit {
                Some(commit) => BlameStep::OpenCommit(commit.copy()),
                None => BlameStep::NotCommitted,
            };
        }
    }
    BlameStep::Ask(request)
}

/// What is said of who changed a line.
pub open spec fn blame_words(blame: Blame) -> Seq<char> {
    match blame.commit {
        Some(commit) => commit.short@ + " \u{b7} "@ + blame.author@ + " \u{b7} "@ + commit.age@
            + " ago \u{b7} "@ + commit.subject@ + " (blame again to open it)"@,
        None => "Not committed yet"@,
    }
}

impl Blame {
    pub fn says(&self) -> (r: String)
        ensures
            r@ == blame_words(*self),
    {
        match &self.commit {
            Some(commit) => {
                let mut out: Vec<char> = chars(commit.short.as_str());
                append_str(&mut out, " \u{b7} ");
                append_str(&mut out, self.author.as_str());
                append_str(&mut out, " \u{b7} ");
                append_str(&mut out, commit.age.as_str());
                append_str(&mut out, " ago \u{b7} ");
                append_str(&mut out, commit.subject.as_str());
                append_str(&mut out, " (blame again to open it)");
                string(out.as_slice())
            },
            None => "Not committed yet".to_string(),
        }
    }
}

/// What git answered, told: it becomes the line blamed last; an error is told, and the line
/// blamed last stays.
pub fn blamed(last: &mut Option<LastBlame>, request: BlameRequest, answer: Result<Blame, String>) -> (r:
    Result<String, String>)
    ensures
        match answer {
            Err(err) => r == Err::<String, String>(err) && *final(last) == *old(last),
            Ok(blame) => {
                &&& r is Ok && (r->Ok_0)@ == blame_words(blame)
                &&& *final(last) == Some(
                    LastBlame {
                        path: request.path,
                        line: request.line,
                        revision: request.revision,
                        blame,
                    },
                )
            },
        },
{
    match answer {
        Err(err) => Err(err),
        Ok(blame) => {
            let text: String = blame.says();
            *last =
            Some(
                LastBlame {
                    path: request.path,
                    line: request.line,
                    revision: request.revision,
                    blame,
                },
            );
            Ok(text)
        },
    }
}

/// A line blamed twice opens its commit the second time.
pub proof fn blaming_again_opens_the_commit(request: BlameRequest, again: BlameRequest, blame: Blame)
    requires
        again.path@ == request.path@,
        again.line == request.line,
        again.revision.deep_view() == request.revision.deep_view(),
    ensures
        blamed_last(
            Some(
                LastBlame {
                    path: request.path,
                    line: request.line,
                    revision: request.revision,
                    blame,
                },
            ),
            again,
        ),
{
}

/// Git is asked about the very line under the cursor, the buffer's before that of a diff, and
/// about no other; nothing is opened but the commit of that line, once it was asked about.
pub proof fn git_is_asked_about_the_line(
    last: Option<LastBlame>,
    buffer: Option<BlameRequest>,
    diff: Option<BlameRequest>,
    in_review: bool,
    step: BlameStep,
)
    requires
        asking(last, buffer, diff, in_review, step),
    ensures
        step is Refused <==> buffer is None && diff is None,
        step matches BlameStep::Ask(request) ==> Some(request) == (if buffer is Some {
            buffer
        } else {
            diff
        }),
        last is None && (buffer is Some || diff is Some) ==> step is Ask,
        step matches BlameStep::OpenCommit(commit) ==> {
            let request = if buffer is Some {
                buffer->0
            } else {
                diff->0
            };
            &&& last matches Some(told) && told.path@ == request.path@ && told.line == request.line
            &&& (last->0).blame.commit is Some && commit.short@ == (
            last->0).blame.commit->0.short@
        },
        // Another line is asked about anew.
        buffer is Some && last is Some && (buffer->0).line != (last->0).line ==> step is Ask,
{
}

} // verus!
