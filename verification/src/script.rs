//! Work that alternates with the outside: requests, replies, and how far a run of them has come.
//!
//! A piece of work is run from its start on the replies that are there. Where it needs a reply
//! that is not there yet, it stops and names the request; once the reply is there too, it is run
//! again. So the work itself is an ordinary function of the replies.
use vstd::prelude::*;

use crate::command::{Invocation, InvocationView};
use crate::encoding::{decode_text, show_bytes, shown_text, utf8_text};
use crate::failure::{fail, outcome, refusal, Failure, FailureKind, Refusal};
use crate::scan::{trim, trimmed};
use crate::text::{concat4, copy, opt_text, texts};

verus! {

// ---------------------------------------------------------------------------------------------
// Conflicts
// ---------------------------------------------------------------------------------------------

/// A file in conflict: its text with the markers, or nothing where the file is gone.
#[derive(Clone, Debug, PartialEq, Eq)]
pub struct ConflictFile {
    pub path: String,
    pub content: Option<String>,
}

/// A file in conflict over plain texts.
#[verifier::ext_equal]
pub struct ConflictFileView {
    pub path: Seq<char>,
    pub content: Option<Seq<char>>,
}

impl View for ConflictFile {
    type V = ConflictFileView;

    open spec fn view(&self) -> ConflictFileView {
        ConflictFileView { path: self.path@, content: opt_text(self.content) }
    }
}

/// Files in conflict over plain texts.
pub open spec fn file_views(s: Seq<ConflictFile>) -> Seq<ConflictFileView> {
    Seq::new(s.len(), |i: int| s[i]@)
}

/// A commit that could not be replayed, and the files that are in its way.
#[derive(Clone, Debug, PartialEq, Eq)]
pub struct ConflictCase {
    pub purpose: String,
    pub files: Vec<ConflictFile>,
}

/// A conflict over plain texts.
#[verifier::ext_equal]
pub struct ConflictView {
    pub purpose: Seq<char>,
    pub files: Seq<ConflictFileView>,
}

impl View for ConflictCase {
    type V = ConflictView;

    open spec fn view(&self) -> ConflictView {
        ConflictView { purpose: self.purpose@, files: file_views(self.files@) }
    }
}

/// The same files again.
pub fn copy_files(files: &[ConflictFile]) -> (r: Vec<ConflictFile>)
    ensures
        file_views(r@) == file_views(files@),
{
    let mut r: Vec<ConflictFile> = Vec::new();
    let mut i: usize = 0;
    while i < files.len()
        invariant
            i <= files@.len(),
            r@.len() == i,
            forall|k: int| 0 <= k < i ==> (#[trigger] r@[k])@ == files@[k]@,
        decreases files@.len() - i,
    {
        let content = match &files[i].content {
            Some(text) => Some(copy(text.as_str())),
            None => None,
        };
        r.push(ConflictFile { path: copy(files[i].path.as_str()), content });
        i = i + 1;
    }
    assert(file_views(r@) =~= file_views(files@));
    r
}

// ---------------------------------------------------------------------------------------------
// Requests and replies
// ---------------------------------------------------------------------------------------------

/// What the outside is asked for.
#[derive(Debug)]
pub enum Request {
    /// Run Git.
    Git(Invocation),
    /// Lock the repository against other sessions, until the work is done or a conflict is handed
    /// out.
    Lock,
    /// The parts of an identifier that has not been given out before.
    FreshId,
    /// Whether there is something at a path.
    Exists(String),
    /// Whether a path is a link, and how large a file is.
    Inspect(String),
    /// The bytes of a file.
    ReadFile(String),
    WriteFile { path: String, content: String },
    RemoveFile(String),
    /// Make a directory and the ones above it.
    MakeDirectory(String),
    /// The entries of a directory.
    ListDirectory(String),
    /// Open a lock file and take its lock.
    TakeLock(String),
    /// The lock files of all sessions.
    ListLocks(String),
    /// Whether nobody holds the lock of a file.
    TryLock(String),
    /// The path without links and dots.
    Canonicalize(String),
    /// Resolve a conflict.
    Resolve(ConflictCase),
}

/// What the outside is asked for, over plain texts.
pub enum RequestView {
    Git(InvocationView),
    Lock,
    FreshId,
    Exists(Seq<char>),
    Inspect(Seq<char>),
    ReadFile(Seq<char>),
    WriteFile { path: Seq<char>, content: Seq<char> },
    RemoveFile(Seq<char>),
    MakeDirectory(Seq<char>),
    ListDirectory(Seq<char>),
    TakeLock(Seq<char>),
    ListLocks(Seq<char>),
    TryLock(Seq<char>),
    Canonicalize(Seq<char>),
    Resolve(ConflictView),
}

impl View for Request {
    type V = RequestView;

    open spec fn view(&self) -> RequestView {
        match *self {
            Request::Git(run) => RequestView::Git(run@),
            Request::Lock => RequestView::Lock,
            Request::FreshId => RequestView::FreshId,
            Request::Exists(path) => RequestView::Exists(path@),
            Request::Inspect(path) => RequestView::Inspect(path@),
            Request::ReadFile(path) => RequestView::ReadFile(path@),
            Request::WriteFile { path, content } => RequestView::WriteFile {
                path: path@,
                content: content@,
            },
            Request::RemoveFile(path) => RequestView::RemoveFile(path@),
            Request::MakeDirectory(path) => RequestView::MakeDirectory(path@),
            Request::ListDirectory(path) => RequestView::ListDirectory(path@),
            Request::TakeLock(path) => RequestView::TakeLock(path@),
            Request::ListLocks(path) => RequestView::ListLocks(path@),
            Request::TryLock(path) => RequestView::TryLock(path@),
            Request::Canonicalize(path) => RequestView::Canonicalize(path@),
            Request::Resolve(conflict) => RequestView::Resolve(conflict@),
        }
    }
}

/// What a run of Git gave.
#[derive(Debug)]
pub struct GitOutput {
    pub success: bool,
    /// How the run ended, in words.
    pub status: String,
    pub stdout: Vec<u8>,
    pub stderr: Vec<u8>,
}

/// One entry of a directory.
#[derive(Debug)]
pub struct DirectoryEntry {
    pub name: String,
    pub is_directory: bool,
}

/// One lock file.
#[derive(Debug)]
pub struct LockEntry {
    pub path: String,
    /// The file's name without its extension, where it is a text.
    pub stem: Option<String>,
    /// How many seconds ago the file was modified.
    pub age_seconds: u64,
}

/// What the outside replies.
#[derive(Debug)]
pub enum Reply {
    Git(GitOutput),
    /// What was asked for failed; the message says why.
    Failed(String),
    Done,
    /// There is no such file.
    Missing,
    Flag(bool),
    Text(String),
    Bytes(Vec<u8>),
    Inspected { is_symlink: bool, len: Option<u64> },
    Entries(Vec<DirectoryEntry>),
    Locks(Vec<LockEntry>),
    Id { nanos: u128, process: u32, counter: u64 },
    Resolved(Vec<ConflictFile>),
}

/// How far a piece of work comes on the replies that are there: it waits for the reply to a
/// request, or it is done and has used up so many replies.
pub enum Script<T> {
    Ask(RequestView),
    Done(nat, T),
}

/// The refusal of a reply that does not answer the request.
pub open spec fn reply_refusal(reply: Reply) -> Refusal {
    match reply {
        Reply::Failed(message) => (FailureKind::GitFailed, message@),
        _ => (FailureKind::UnexpectedReply, "the reply does not answer the request"@),
    }
}

/// The refusal of a run of Git that failed.
pub open spec fn status_refusal(output: GitOutput) -> Refusal {
    (
        FailureKind::GitFailed,
        "git failed with "@ + output.status@ + ": "@ + trimmed(shown_text(output.stderr@)),
    )
}

/// Whether a run of Git worked.
pub open spec fn run_done(reply: Reply) -> Result<(), Refusal> {
    match reply {
        Reply::Git(output) => if output.success {
            Ok(())
        } else {
            Err(status_refusal(output))
        },
        _ => Err(reply_refusal(reply)),
    }
}

/// What a run of Git that worked wrote.
pub open spec fn run_text(reply: Reply) -> Result<Seq<char>, Refusal> {
    match run_done(reply) {
        Err(refusal) => Err(refusal),
        Ok(()) => match utf8_text(reply->Git_0.stdout@) {
            None => Err((FailureKind::NotUtf8, "Git output was not UTF-8"@)),
            Some(text) => Ok(text),
        },
    }
}

/// Whether something other than a run of Git worked.
pub open spec fn deed_done(reply: Reply) -> Result<(), Refusal> {
    match reply {
        Reply::Done => Ok(()),
        _ => Err(reply_refusal(reply)),
    }
}

/// Asks for a run of Git that has to work.
pub open spec fn run(log: Seq<Reply>, at: nat, what: InvocationView) -> Script<Result<(), Refusal>> {
    if at < log.len() {
        Script::Done(at + 1, run_done(log[at as int]))
    } else {
        Script::Ask(RequestView::Git(what))
    }
}

/// Asks for what a run of Git writes.
pub open spec fn text(log: Seq<Reply>, at: nat, what: InvocationView) -> Script<
    Result<Seq<char>, Refusal>,
> {
    if at < log.len() {
        Script::Done(at + 1, run_text(log[at as int]))
    } else {
        Script::Ask(RequestView::Git(what))
    }
}

/// Asks for what a run of Git writes, without the white space around it.
pub open spec fn word(log: Seq<Reply>, at: nat, what: InvocationView) -> Script<
    Result<Seq<char>, Refusal>,
> {
    match text(log, at, what) {
        Script::Ask(request) => Script::Ask(request),
        Script::Done(next, Err(refusal)) => Script::Done(next, Err(refusal)),
        Script::Done(next, Ok(written)) => Script::Done(next, Ok(trimmed(written))),
    }
}

/// Asks for a deed other than a run of Git.
pub open spec fn deed(log: Seq<Reply>, at: nat, what: RequestView) -> Script<Result<(), Refusal>> {
    if at < log.len() {
        Script::Done(at + 1, deed_done(log[at as int]))
    } else {
        Script::Ask(what)
    }
}

/// The replies that are there, how many are used up, and what is asked for next.
#[derive(Debug)]
pub struct Session<'a> {
    pub replies: &'a Vec<Reply>,
    pub at: usize,
    pub wanted: Option<Request>,
}

/// Whether an exec run ended as a script says: it waits for the reply to the same request, or it
/// is done with the same value and has used up as many replies.
pub open spec fn follows<T>(script: Script<T>, io: Session, value: Option<T>) -> bool {
    match script {
        Script::Ask(request) => value is None && (io.wanted matches Some(wanted) && wanted@
            == request),
        Script::Done(at, expected) => value == Some(expected) && io.at == at && at
            <= io.replies@.len(),
    }
}

/// A finished step with nothing to say but whether it worked.
pub open spec fn opt_refusal(r: Option<Result<(), Failure>>) -> Option<Result<(), Refusal>> {
    match r {
        None => None,
        Some(Ok(())) => Some(Ok(())),
        Some(Err(failure)) => Some(Err(failure@)),
    }
}

/// A finished step with a value.
pub open spec fn opt_outcome<T: View>(r: Option<Result<T, Failure>>) -> Option<
    Result<T::V, Refusal>,
> {
    match r {
        None => None,
        Some(result) => Some(outcome(result)),
    }
}

/// A finished step with a yes or a no.
pub open spec fn opt_flag(r: Option<Result<bool, Failure>>) -> Option<Result<bool, Refusal>> {
    match r {
        None => None,
        Some(Ok(flag)) => Some(Ok(flag)),
        Some(Err(failure)) => Some(Err(failure@)),
    }
}

/// The failure that a reply stands for where it does not answer the request.
pub fn reply_failure(reply: &Reply) -> (r: Failure)
    ensures
        r@ == reply_refusal(*reply),
{
    match reply {
        Reply::Failed(message) => fail(FailureKind::GitFailed, message.as_str()),
        _ => fail(FailureKind::UnexpectedReply, "the reply does not answer the request"),
    }
}

/// Accepts a run of Git that worked.
pub fn check_status(reply: &Reply) -> (r: Result<(), Failure>)
    ensures
        (match r {
            Ok(()) => Ok::<(), Refusal>(()),
            Err(failure) => Err(failure@),
        }) == run_done(*reply),
{
    match reply {
        Reply::Git(output) => {
            if output.success {
                return Ok(());
            }
            let words = show_bytes(output.stderr.as_slice());
            let reason = trim(words.as_str());
            Err(
                Failure {
                    kind: FailureKind::GitFailed,
                    message: concat4(
                        "git failed with ",
                        output.status.as_str(),
                        ": ",
                        reason.as_str(),
                    ),
                },
            )
        },
        _ => Err(reply_failure(reply)),
    }
}

/// What a run of Git that worked wrote.
pub fn command_text(reply: &Reply) -> (r: Result<String, Failure>)
    ensures
        outcome(r) == run_text(*reply),
{
    match check_status(reply) {
        Err(failure) => return Err(failure),
        Ok(()) => {},
    }
    match reply {
        Reply::Git(output) => match decode_text(output.stdout.as_slice()) {
            None => Err(fail(FailureKind::NotUtf8, "Git output was not UTF-8")),
            Some(text) => Ok(text),
        },
        _ => Err(reply_failure(reply)),
    }
}

impl<'a> Session<'a> {
    /// Whether no more replies are used up than are there.
    pub open spec fn wf(&self) -> bool {
        self.at <= self.replies@.len()
    }

    /// The replies that are there.
    pub open spec fn log(&self) -> Seq<Reply> {
        self.replies@
    }

    /// A session that has used up nothing yet.
    pub fn new(replies: &'a Vec<Reply>) -> (r: Session<'a>)
        ensures
            r.wf(),
            r.log() == replies@,
            r.at == 0,
            r.wanted is None,
    {
        Session { replies, at: 0, wanted: None }
    }

    /// The next reply, or a note of what is asked for.
    pub fn next(&mut self, request: Request) -> (r: Option<&'a Reply>)
        requires
            old(self).wf(),
        ensures
            final(self).wf(),
            final(self).replies == old(self).replies,
            match r {
                None => old(self).at >= old(self).log().len() && final(self).wanted == Some(request),
                Some(reply) => old(self).at < old(self).log().len() && final(self).at == old(self).at
                    + 1 && *reply == old(self).log()[old(self).at as int],
            },
    {
        if self.at < self.replies.len() {
            let replies = self.replies;
            let reply = &replies[self.at];
            self.at = self.at + 1;
            Some(reply)
        } else {
            self.wanted = Some(request);
            None
        }
    }

    /// Asks for a run of Git that has to work.
    pub fn run(&mut self, what: Invocation) -> (r: Option<Result<(), Failure>>)
        requires
            old(self).wf(),
        ensures
            final(self).wf(),
            final(self).replies == old(self).replies,
            follows(
                run(old(self).log(), old(self).at as nat, what@),
                *final(self),
                opt_refusal(r),
            ),
    {
        let reply = self.next(Request::Git(what))?;
        Some(check_status(reply))
    }

    /// Asks for what a run of Git writes.
    pub fn text(&mut self, what: Invocation) -> (r: Option<Result<String, Failure>>)
        requires
            old(self).wf(),
        ensures
            final(self).wf(),
            final(self).replies == old(self).replies,
            follows(
                text(old(self).log(), old(self).at as nat, what@),
                *final(self),
                opt_outcome(r),
            ),
    {
        let reply = self.next(Request::Git(what))?;
        Some(command_text(reply))
    }

    /// Asks for what a run of Git writes, without the white space around it.
    pub fn word(&mut self, what: Invocation) -> (r: Option<Result<String, Failure>>)
        requires
            old(self).wf(),
        ensures
            final(self).wf(),
            final(self).replies == old(self).replies,
            follows(
                word(old(self).log(), old(self).at as nat, what@),
                *final(self),
                opt_outcome(r),
            ),
    {
        match self.text(what)? {
            Err(failure) => Some(Err(failure)),
            Ok(written) => Some(Ok(trim(written.as_str()))),
        }
    }

    /// Asks for a deed other than a run of Git.
    pub fn deed(&mut self, what: Request) -> (r: Option<Result<(), Failure>>)
        requires
            old(self).wf(),
        ensures
            final(self).wf(),
            final(self).replies == old(self).replies,
            follows(
                deed(old(self).log(), old(self).at as nat, what@),
                *final(self),
                opt_refusal(r),
            ),
    {
        let reply = self.next(what)?;
        match reply {
            Reply::Done => Some(Ok(())),
            _ => Some(Err(reply_failure(reply))),
        }
    }
}

} // verus!
