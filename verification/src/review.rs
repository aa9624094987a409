//! The session's work on the review queue: observing the parent, replaying commits onto it, and
//! handing patches over to it.
use vstd::prelude::*;

use crate::command::{abort_pick, abort_pick_run, branch_name, branch_name_run, cherry_pick_as_agent,
    cherry_pick_as_agent_run, commit_tree, commit_tree_run, common_dir, common_dir_run, git_diff,
    git_diff_run, git_dir, git_dir_run, git_show, git_show_run, head, head_run, read_tree,
    read_tree_run, reset_hard, reset_hard_run, stage_all_in, stage_all_in_run, tree_of, tree_of_run,
    unmerged_entries, unmerged_entries_run, write_tree, write_tree_run};
use crate::encoding::{hex_padded, hex_text};
use crate::failure::{fail, fail_within, within, Failure, FailureKind, Refusal};
use crate::git::{add_alias, alias_map, commit_views, copy_commits, lemma_commit_views_push,
    ui_views, Alias, CommitView, GitUiEvent, GitUiState, ReviewCommit, UiView, WorkspaceMode};
use crate::paths::{join_path, joined_path};
use crate::script::{deed, follows, opt_flag, opt_outcome, opt_refusal, reply_failure, reply_refusal,
    run, text, word, Reply, Request, RequestView, Script, Session};
use crate::text::{chars_of, concat, concat3, concat4, copy, same_text, texts};

verus! {

/// A session on a repository: where its worktree is, what it has seen of the parent, and the
/// commits that wait for review.
#[derive(Debug)]
pub struct GitWorkspace {
    pub repo_root: String,
    pub worktree: String,
    pub state_dir: String,
    pub branch: String,
    pub session_branch: String,
    pub lock_path: String,
    /// The snapshot on which the commits stand.
    pub baseline: String,
    /// The last snapshot that was taken note of.
    pub observed: String,
    pub mode: WorkspaceMode,
    pub commits: Vec<ReviewCommit>,
    pub aliases: Vec<Alias>,
    /// What there is to show or to notice, the oldest first.
    pub outbox: Vec<GitUiEvent>,
    pub cleaned: bool,
}

/// A session over plain texts.
#[verifier::ext_equal]
pub struct GitView {
    pub repo_root: Seq<char>,
    pub worktree: Seq<char>,
    pub state_dir: Seq<char>,
    pub branch: Seq<char>,
    pub session_branch: Seq<char>,
    pub lock_path: Seq<char>,
    pub baseline: Seq<char>,
    pub observed: Seq<char>,
    pub mode: WorkspaceMode,
    pub commits: Seq<CommitView>,
    pub aliases: Map<Seq<char>, Seq<char>>,
    pub outbox: Seq<UiView>,
    pub cleaned: bool,
}

impl View for GitWorkspace {
    type V = GitView;

    open spec fn view(&self) -> GitView {
        GitView {
            repo_root: self.repo_root@,
            worktree: self.worktree@,
            state_dir: self.state_dir@,
            branch: self.branch@,
            session_branch: self.session_branch@,
            lock_path: self.lock_path@,
            baseline: self.baseline@,
            observed: self.observed@,
            mode: self.mode,
            commits: commit_views(self.commits@),
            aliases: alias_map(self.aliases@),
            outbox: ui_views(self.outbox@),
            cleaned: self.cleaned,
        }
    }
}

impl GitView {
    /// The session with one more event.
    pub open spec fn noting(self, event: UiView) -> GitView {
        GitView { outbox: self.outbox.push(event), ..self }
    }

    /// The session after its state was shown.
    pub open spec fn shown(self) -> GitView {
        self.noting(
            UiView::State { mode: self.mode, branch: self.branch, commits: self.commits },
        )
    }

    /// The commit on top of the worktree.
    pub open spec fn tip(self) -> Seq<char> {
        if self.commits.len() == 0 {
            self.baseline
        } else {
            self.commits.last().id
        }
    }

    /// The session with one more commit on top.
    pub open spec fn with_commit(self, commit: CommitView) -> GitView {
        GitView { commits: self.commits.push(commit), ..self }
    }

    /// The session without aliases where there are no commits left that they could lead to.
    pub open spec fn tidied(self) -> GitView {
        if self.commits.len() == 0 {
            GitView { aliases: Map::empty(), ..self }
        } else {
            self
        }
    }
}

/// A finished step of a session, together with the state it leaves.
pub open spec fn stateful<T>(state: GitView, value: Option<T>) -> Option<(GitView, T)> {
    match value {
        None => None,
        Some(v) => Some((state, v)),
    }
}

// ---------------------------------------------------------------------------------------------
// Identifiers
// ---------------------------------------------------------------------------------------------

/// The identifier that time, process and count make: fixed-width hexadecimal numbers.
pub open spec fn session_id(nanos: u128, process: u32, counter: u64) -> Seq<char> {
    hex_padded(nanos as nat, 32) + "-"@ + hex_padded(process as nat, 8) + "-"@ + hex_padded(
        counter as nat,
        16,
    )
}

/// The identifier that time, process and count make.
pub fn unique_id(nanos: u128, process: u32, counter: u64) -> (r: String)
    ensures
        r@ == session_id(nanos, process, counter),
{
    let mut id = concat(hex_text(nanos, 32).as_str(), "-");
    id.push_str(hex_text(process as u128, 8).as_str());
    id.push_str("-");
    id.push_str(hex_text(counter as u128, 16).as_str());
    id
}

/// Asks for a new identifier.
pub open spec fn fresh_id(log: Seq<Reply>, at: nat) -> Script<Result<Seq<char>, Refusal>> {
    if at < log.len() {
        Script::Done(
            at + 1,
            match log[at as int] {
                Reply::Id { nanos, process, counter } => Ok(session_id(nanos, process, counter)),
                _ => Err(reply_refusal(log[at as int])),
            },
        )
    } else {
        Script::Ask(RequestView::FreshId)
    }
}

/// Asks for a new identifier.
pub fn ask_fresh_id(io: &mut Session) -> (r: Option<Result<String, Failure>>)
    requires
        old(io).wf(),
    ensures
        final(io).wf(),
        final(io).replies == old(io).replies,
        follows(fresh_id(old(io).log(), old(io).at as nat), *final(io), opt_outcome(r)),
{
    let reply = io.next(Request::FreshId)?;
    match reply {
        Reply::Id { nanos, process, counter } => Some(Ok(unique_id(*nanos, *process, *counter))),
        _ => Some(Err(reply_failure(reply))),
    }
}

// ---------------------------------------------------------------------------------------------
// The parent
// ---------------------------------------------------------------------------------------------

/// Asks for the removal of a file, and goes on whatever comes of it.
pub open spec fn dropping<T>(log: Seq<Reply>, at: nat, path: Seq<char>, value: T) -> Script<T> {
    if at < log.len() {
        Script::Done(at + 1, value)
    } else {
        Script::Ask(RequestView::RemoveFile(path))
    }
}

/// The index file of a snapshot.
pub open spec fn snapshot_index(state_dir: Seq<char>, id: Seq<char>) -> Seq<char> {
    joined_path(state_dir, "snapshot-"@ + id + ".index"@)
}

/// Makes a commit of all files in the parent's worktree on top of its head, in an index of its own:
/// the parent's index stays as it is.
pub open spec fn snapshot(
    log: Seq<Reply>,
    at: nat,
    root: Seq<char>,
    state_dir: Seq<char>,
    parent: Seq<char>,
) -> Script<Result<Seq<char>, Refusal>> {
    match fresh_id(log, at) {
        Script::Ask(request) => Script::Ask(request),
        Script::Done(at, Err(refusal)) => Script::Done(at, Err(refusal)),
        Script::Done(at, Ok(id)) => {
            let index = snapshot_index(state_dir, id);
            match run(log, at, read_tree_run(root, index, parent)) {
                Script::Ask(request) => Script::Ask(request),
                Script::Done(at, Err(refusal)) => Script::Done(at, Err(refusal)),
                Script::Done(at, Ok(_)) => snapshot_staged(log, at, root, index, parent),
            }
        },
    }
}

/// The second half of a snapshot, once its index is filled from the parent's head.
pub open spec fn snapshot_staged(
    log: Seq<Reply>,
    at: nat,
    root: Seq<char>,
    index: Seq<char>,
    parent: Seq<char>,
) -> Script<Result<Seq<char>, Refusal>> {
    match run(log, at, stage_all_in_run(root, index)) {
        Script::Ask(request) => Script::Ask(request),
        Script::Done(at, Err(refusal)) => dropping(
            log,
            at,
            index,
            Err(within("snapshot parent working tree"@, refusal)),
        ),
        Script::Done(at, Ok(_)) => match word(log, at, write_tree_run(root, index)) {
            Script::Ask(request) => Script::Ask(request),
            Script::Done(at, Err(refusal)) => Script::Done(at, Err(refusal)),
            Script::Done(at, Ok(tree)) => match word(
                log,
                at,
                commit_tree_run(root, tree, parent),
            ) {
                Script::Ask(request) => Script::Ask(request),
                Script::Done(at, result) => dropping(log, at, index, result),
            },
        },
    }
}

/// Makes a commit of all files in the parent's worktree on top of its head.
pub fn snapshot_parent(root: &str, state_dir: &str, parent: &str, io: &mut Session) -> (r: Option<
    Result<String, Failure>,
>)
    requires
        old(io).wf(),
    ensures
        final(io).wf(),
        final(io).replies == old(io).replies,
        follows(
            snapshot(old(io).log(), old(io).at as nat, root@, state_dir@, parent@),
            *final(io),
            opt_outcome(r),
        ),
{
    let id = match ask_fresh_id(io)? {
        Err(failure) => return Some(Err(failure)),
        Ok(id) => id,
    };
    let name = concat3("snapshot-", id.as_str(), ".index");
    let index = join_path(state_dir, name.as_str());
    match io.run(read_tree(root, index.as_str(), parent))? {
        Err(failure) => return Some(Err(failure)),
        Ok(()) => {},
    }
    match io.run(stage_all_in(root, index.as_str()))? {
        Err(failure) => {
            io.next(Request::RemoveFile(copy(index.as_str())))?;
            return Some(Err(fail_within("snapshot parent working tree", failure)));
        },
        Ok(()) => {},
    }
    let tree = match io.word(write_tree(root, index.as_str()))? {
        Err(failure) => return Some(Err(failure)),
        Ok(tree) => tree,
    };
    let result = io.word(commit_tree(root, tree.as_str(), parent))?;
    io.next(Request::RemoveFile(index))?;
    Some(result)
}

/// The names that show an operation in progress, and a rebase at the end.
pub open spec fn marker_name(k: int) -> Seq<char> {
    if k == 0 {
        "MERGE_HEAD"@
    } else if k == 1 {
        "CHERRY_PICK_HEAD"@
    } else if k == 2 {
        "REVERT_HEAD"@
    } else if k == 3 {
        "REBASE_HEAD"@
    } else if k == 4 {
        "rebase-merge"@
    } else {
        "rebase-apply"@
    }
}

/// The refusal of a repository in which a marker was found.
pub open spec fn marker_refusal(k: int) -> Refusal {
    (
        FailureKind::OperationInProgress,
        if k < 4 {
            "repository has an in-progress Git operation ("@ + marker_name(k) + ")"@
        } else {
            "repository has an in-progress rebase"@
        },
    )
}

/// Looks for the markers from the `k`-th on in a directory.
pub open spec fn no_marker(log: Seq<Reply>, at: nat, directory: Seq<char>, k: int) -> Script<
    Result<(), Refusal>,
>
    decreases 6 - k,
{
    if k >= 6 {
        Script::Done(at, Ok(()))
    } else if at >= log.len() {
        Script::Ask(RequestView::Exists(joined_path(directory, marker_name(k))))
    } else {
        match log[at as int] {
            Reply::Flag(found) => if found {
                Script::Done(at + 1, Err(marker_refusal(k)))
            } else {
                no_marker(log, at + 1, directory, k + 1)
            },
            _ => Script::Done(at + 1, Err(reply_refusal(log[at as int]))),
        }
    }
}

/// A path below a directory; an absolute path stands for itself.
pub open spec fn path_in(directory: Seq<char>, path: Seq<char>) -> Seq<char> {
    if path.len() > 0 && path[0] == '/' {
        path
    } else {
        joined_path(directory, path)
    }
}

/// A path below a directory; an absolute path stands for itself.
pub fn resolve_in(directory: &str, path: &str) -> (r: String)
    ensures
        r@ == path_in(directory@, path@),
{
    let chars = chars_of(path);
    if chars.len() > 0 && chars[0] == '/' {
        copy(path)
    } else {
        join_path(directory, path)
    }
}

/// Accepts a repository in which no operation is in progress and nothing is unmerged.
pub open spec fn settled(log: Seq<Reply>, at: nat, root: Seq<char>) -> Script<Result<(), Refusal>> {
    match word(log, at, common_dir_run(root)) {
        Script::Ask(request) => Script::Ask(request),
        Script::Done(at, Err(refusal)) => Script::Done(at, Err(refusal)),
        Script::Done(at, Ok(common)) => match word(log, at, git_dir_run(root)) {
            Script::Ask(request) => Script::Ask(request),
            Script::Done(at, Err(refusal)) => Script::Done(at, Err(refusal)),
            Script::Done(at, Ok(own)) => match no_marker(log, at, path_in(root, common), 0) {
                Script::Ask(request) => Script::Ask(request),
                Script::Done(at, Err(refusal)) => Script::Done(at, Err(refusal)),
                Script::Done(at, Ok(_)) => match no_marker(log, at, path_in(root, own), 0) {
                    Script::Ask(request) => Script::Ask(request),
                    Script::Done(at, Err(refusal)) => Script::Done(at, Err(refusal)),
                    Script::Done(at, Ok(_)) => all_merged(log, at, root),
                },
            },
        },
    }
}

/// Accepts a repository whose index holds no unmerged entries.
pub open spec fn all_merged(log: Seq<Reply>, at: nat, root: Seq<char>) -> Script<
    Result<(), Refusal>,
> {
    match text(log, at, unmerged_entries_run(root)) {
        Script::Ask(request) => Script::Ask(request),
        Script::Done(at, Err(refusal)) => Script::Done(at, Err(refusal)),
        Script::Done(at, Ok(entries)) => if entries.len() > 0 {
            Script::Done(
                at,
                Err(
                    (
                        FailureKind::UnmergedEntries,
                        "repository index contains unmerged entries"@,
                    ),
                ),
            )
        } else {
            Script::Done(at, Ok(()))
        },
    }
}

/// The names that show an operation in progress.
fn marker(k: usize) -> (r: &'static str)
    ensures
        r@ == marker_name(k as int),
{
    if k == 0 {
        "MERGE_HEAD"
    } else if k == 1 {
        "CHERRY_PICK_HEAD"
    } else if k == 2 {
        "REVERT_HEAD"
    } else if k == 3 {
        "REBASE_HEAD"
    } else if k == 4 {
        "rebase-merge"
    } else {
        "rebase-apply"
    }
}

/// Looks for the markers of an operation in progress in a directory.
fn find_markers(directory: &str, io: &mut Session) -> (r: Option<Result<(), Failure>>)
    requires
        old(io).wf(),
    ensures
        final(io).wf(),
        final(io).replies == old(io).replies,
        follows(
            no_marker(old(io).log(), old(io).at as nat, directory@, 0),
            *final(io),
            opt_refusal(r),
        ),
{
    let ghost log = io.log();
    let ghost start = io.at as nat;
    let mut k: usize = 0;
    while k < 6
        invariant
            io.wf(),
            io.replies == old(io).replies,
            log == io.log(),
            k <= 6,
            no_marker(log, start, directory@, 0) == no_marker(
                log,
                io.at as nat,
                directory@,
                k as int,
            ),
            start == old(io).at,
            log == old(io).log(),
        decreases 6 - k,
    {
        let path = join_path(directory, marker(k));
        let reply = io.next(Request::Exists(path))?;
        match reply {
            Reply::Flag(found) => {
                if *found {
                    let message = if k < 4 {
                        concat3("repository has an in-progress Git operation (", marker(k), ")")
                    } else {
                        copy("repository has an in-progress rebase")
                    };
                    return Some(
                        Err(Failure { kind: FailureKind::OperationInProgress, message }),
                    );
                }
            },
            _ => return Some(Err(reply_failure(reply))),
        }
        k = k + 1;
    }
    Some(Ok(()))
}

/// Accepts a repository in which no operation is in progress and nothing is unmerged.
pub fn validate_repository_state(root: &str, io: &mut Session) -> (r: Option<Result<(), Failure>>)
    requires
        old(io).wf(),
    ensures
        final(io).wf(),
        final(io).replies == old(io).replies,
        follows(
            settled(old(io).log(), old(io).at as nat, root@),
            *final(io),
            opt_refusal(r),
        ),
{
    let common = match io.word(common_dir(root))? {
        Err(failure) => return Some(Err(failure)),
        Ok(path) => resolve_in(root, path.as_str()),
    };
    let own = match io.word(git_dir(root))? {
        Err(failure) => return Some(Err(failure)),
        Ok(path) => resolve_in(root, path.as_str()),
    };
    match find_markers(common.as_str(), io)? {
        Err(failure) => return Some(Err(failure)),
        Ok(()) => {},
    }
    match find_markers(own.as_str(), io)? {
        Err(failure) => return Some(Err(failure)),
        Ok(()) => {},
    }
    match io.text(unmerged_entries(root))? {
        Err(failure) => Some(Err(failure)),
        Ok(entries) => {
            if entries.as_str().is_empty() {
                Some(Ok(()))
            } else {
                Some(
                    Err(
                        fail(
                            FailureKind::UnmergedEntries,
                            "repository index contains unmerged entries",
                        ),
                    ),
                )
            }
        },
    }
}

/// Whether two commits hold the same files.
pub open spec fn equal_trees(
    log: Seq<Reply>,
    at: nat,
    cwd: Seq<char>,
    left: Seq<char>,
    right: Seq<char>,
) -> Script<Result<bool, Refusal>> {
    match word(log, at, tree_of_run(cwd, left)) {
        Script::Ask(request) => Script::Ask(request),
        Script::Done(at, Err(refusal)) => Script::Done(at, Err(refusal)),
        Script::Done(at, Ok(first)) => match word(log, at, tree_of_run(cwd, right)) {
            Script::Ask(request) => Script::Ask(request),
            Script::Done(at, Err(refusal)) => Script::Done(at, Err(refusal)),
            Script::Done(at, Ok(second)) => Script::Done(at, Ok(first == second)),
        },
    }
}

/// Whether two commits hold the same files.
pub fn same_tree(cwd: &str, left: &str, right: &str, io: &mut Session) -> (r: Option<
    Result<bool, Failure>,
>)
    requires
        old(io).wf(),
    ensures
        final(io).wf(),
        final(io).replies == old(io).replies,
        follows(
            equal_trees(old(io).log(), old(io).at as nat, cwd@, left@, right@),
            *final(io),
            opt_flag(r),
        ),
{
    let first = match io.word(tree_of(cwd, left))? {
        Err(failure) => return Some(Err(failure)),
        Ok(tree) => tree,
    };
    let second = match io.word(tree_of(cwd, right))? {
        Err(failure) => return Some(Err(failure)),
        Ok(tree) => tree,
    };
    Some(Ok(same_text(first.as_str(), second.as_str())))
}

// ---------------------------------------------------------------------------------------------
// Observing the parent
// ---------------------------------------------------------------------------------------------

/// Accepts the parent only on the branch on which the session began.
pub open spec fn on_branch(log: Seq<Reply>, at: nat, root: Seq<char>, branch: Seq<char>) -> Script<
    Result<(), Refusal>,
> {
    match word(log, at, branch_name_run(root)) {
        Script::Ask(request) => Script::Ask(request),
        Script::Done(at, Err(refusal)) => Script::Done(
            at,
            Err(within("parent worktree no longer has a checked-out branch"@, refusal)),
        ),
        Script::Done(at, Ok(current)) => if current == branch {
            Script::Done(at, Ok(()))
        } else {
            Script::Done(
                at,
                Err(
                    (
                        FailureKind::BranchChanged,
                        "parent branch changed from "@ + branch + " to "@ + current
                            + "; restore it or restart Nuillu Code"@,
                    ),
                ),
            )
        },
    }
}

/// Takes a snapshot of the parent's worktree on top of its head.
pub open spec fn parent_snapshot(
    log: Seq<Reply>,
    at: nat,
    root: Seq<char>,
    state_dir: Seq<char>,
) -> Script<Result<Seq<char>, Refusal>> {
    match word(log, at, head_run(root)) {
        Script::Ask(request) => Script::Ask(request),
        Script::Done(at, Err(refusal)) => Script::Done(at, Err(refusal)),
        Script::Done(at, Ok(parent)) => snapshot(log, at, root, state_dir, parent),
    }
}

/// Looks at the parent: the new snapshot and what changed since the last one, or nothing where
/// nothing changed.
pub open spec fn observation(log: Seq<Reply>, at: nat, state: GitView) -> Script<
    Result<Option<(Seq<char>, Seq<char>)>, Refusal>,
> {
    match deed(log, at, RequestView::Lock) {
        Script::Ask(request) => Script::Ask(request),
        Script::Done(at, Err(refusal)) => Script::Done(at, Err(refusal)),
        Script::Done(at, Ok(_)) => match on_branch(log, at, state.repo_root, state.branch) {
            Script::Ask(request) => Script::Ask(request),
            Script::Done(at, Err(refusal)) => Script::Done(at, Err(refusal)),
            Script::Done(at, Ok(_)) => match settled(log, at, state.repo_root) {
                Script::Ask(request) => Script::Ask(request),
                Script::Done(at, Err(refusal)) => Script::Done(at, Err(refusal)),
                Script::Done(at, Ok(_)) => match parent_snapshot(
                    log,
                    at,
                    state.repo_root,
                    state.state_dir,
                ) {
                    Script::Ask(request) => Script::Ask(request),
                    Script::Done(at, Err(refusal)) => Script::Done(at, Err(refusal)),
                    Script::Done(at, Ok(next)) => difference(log, at, state, next),
                },
            },
        },
    }
}

/// What changed between the last snapshot and a new one, or nothing.
pub open spec fn difference(log: Seq<Reply>, at: nat, state: GitView, next: Seq<char>) -> Script<
    Result<Option<(Seq<char>, Seq<char>)>, Refusal>,
> {
    match equal_trees(log, at, state.repo_root, next, state.observed) {
        Script::Ask(request) => Script::Ask(request),
        Script::Done(at, Err(refusal)) => Script::Done(at, Err(refusal)),
        Script::Done(at, Ok(same)) => if same {
            Script::Done(at, Ok(None))
        } else {
            match text(log, at, git_diff_run(state.repo_root, state.observed, next)) {
                Script::Ask(request) => Script::Ask(request),
                Script::Done(at, Err(refusal)) => Script::Done(at, Err(refusal)),
                Script::Done(at, Ok(diff)) => Script::Done(at, Ok(Some((next, diff)))),
            }
        },
    }
}

/// What is said about changes that others made.
pub open spec fn external_change(
    branch: Seq<char>,
    previous: Seq<char>,
    next: Seq<char>,
    diff: Seq<char>,
) -> Seq<char> {
    "Observed external workspace changes on branch "@ + branch + ".\nold snapshot: "@ + previous
        + "\nnew snapshot: "@ + next + "\n\n"@ + diff
}

impl GitView {
    /// The session after it took note of a new snapshot. An empty difference is not worth a word.
    pub open spec fn observing(self, next: Seq<char>, diff: Seq<char>) -> GitView {
        let seen = GitView { observed: next, ..self };
        if diff.len() == 0 {
            seen
        } else {
            seen.noting(
                UiView::Sensory(external_change(self.branch, self.observed, next, diff)),
            )
        }
    }
}

/// A snapshot and a difference, over plain texts.
pub open spec fn opt_observation(r: Option<Result<Option<(String, String)>, Failure>>) -> Option<
    Result<Option<(Seq<char>, Seq<char>)>, Refusal>,
> {
    match r {
        None => None,
        Some(Err(failure)) => Some(Err(failure@)),
        Some(Ok(None)) => Some(Ok(None)),
        Some(Ok(Some((next, diff)))) => Some(Ok(Some((next@, diff@)))),
    }
}

// ---------------------------------------------------------------------------------------------
// Replaying
// ---------------------------------------------------------------------------------------------

/// What is said about a commit that had to go.
pub open spec fn discarded(item: CommitView, because: Seq<char>, reason: Seq<char>) -> Seq<char> {
    "Discarded conflicting review commit "@ + item.id + " ("@ + item.purpose + ") because "@
        + because + ": "@ + reason + "\n\n"@ + item.diff
}

/// Takes a commit that was just made in the worktree into the queue, under its new identifier and
/// with its new diff.
pub open spec fn readmit(
    log: Seq<Reply>,
    at: nat,
    state: GitView,
    item: CommitView,
    with_alias: bool,
) -> Script<(GitView, Result<(), Refusal>)> {
    match word(log, at, head_run(state.worktree)) {
        Script::Ask(request) => Script::Ask(request),
        Script::Done(at, Err(refusal)) => Script::Done(at, (state, Err(refusal))),
        Script::Done(at, Ok(id)) => match text(log, at, git_show_run(state.worktree, id)) {
            Script::Ask(request) => Script::Ask(request),
            Script::Done(at, Err(refusal)) => Script::Done(at, (state, Err(refusal))),
            Script::Done(at, Ok(diff)) => {
                let kept = state.with_commit(CommitView { id, diff, ..item });
                let named = if with_alias {
                    GitView { aliases: kept.aliases.insert(item.id, id), ..kept }
                } else {
                    kept
                };
                Script::Done(at, (named, Ok(())))
            },
        },
    }
}

/// Replays the commits from the `i`-th on, one on top of another. A commit that conflicts is
/// dropped with a word about it; the others keep their order.
pub open spec fn replay_items(
    log: Seq<Reply>,
    at: nat,
    state: GitView,
    items: Seq<CommitView>,
    i: int,
) -> Script<(GitView, Result<(), Refusal>)>
    decreases items.len() - i,
{
    if i < 0 || i >= items.len() {
        Script::Done(at, (state.tidied(), Ok(())))
    } else {
        match run(log, at, cherry_pick_as_agent_run(state.worktree, items[i].id)) {
            Script::Ask(request) => Script::Ask(request),
            Script::Done(at, Ok(_)) => match readmit(log, at, state, items[i], true) {
                Script::Ask(request) => Script::Ask(request),
                Script::Done(at, (next, Err(refusal))) => Script::Done(at, (next, Err(refusal))),
                Script::Done(at, (next, Ok(_))) => replay_items(log, at, next, items, i + 1),
            },
            Script::Done(at, Err(conflict)) => if at >= log.len() {
                Script::Ask(RequestView::Git(abort_pick_run(state.worktree)))
            } else {
                match run(log, at + 1, reset_hard_run(state.worktree, state.tip())) {
                    Script::Ask(request) => Script::Ask(request),
                    Script::Done(at, Err(refusal)) => Script::Done(at, (state, Err(refusal))),
                    Script::Done(at, Ok(_)) => replay_items(
                        log,
                        at,
                        state.noting(
                            UiView::Sensory(discarded(items[i], "replay failed"@, conflict.1)),
                        ),
                        items,
                        i + 1,
                    ),
                }
            },
        }
    }
}

/// Puts the worktree onto a snapshot and replays the queue there.
pub open spec fn replay(log: Seq<Reply>, at: nat, state: GitView, baseline: Seq<char>) -> Script<
    (GitView, Result<(), Refusal>),
> {
    let emptied = GitView { commits: Seq::empty(), ..state };
    match run(log, at, reset_hard_run(state.worktree, baseline)) {
        Script::Ask(request) => Script::Ask(request),
        Script::Done(at, Err(refusal)) => Script::Done(at, (emptied, Err(refusal))),
        Script::Done(at, Ok(_)) => replay_items(
            log,
            at,
            GitView { baseline, ..emptied },
            state.commits,
            0,
        ),
    }
}

/// Brings the session up to date with the parent.
pub open spec fn synchronization(log: Seq<Reply>, at: nat, state: GitView) -> Script<
    (GitView, Result<(), Refusal>),
> {
    match observation(log, at, state) {
        Script::Ask(request) => Script::Ask(request),
        Script::Done(at, Err(refusal)) => Script::Done(at, (state, Err(refusal))),
        Script::Done(at, Ok(None)) => Script::Done(at, (state, Ok(()))),
        Script::Done(at, Ok(Some((next, diff)))) => match replay(log, at, state, next) {
            Script::Ask(request) => Script::Ask(request),
            Script::Done(at, (replayed, Err(refusal))) => Script::Done(
                at,
                (replayed, Err(refusal)),
            ),
            Script::Done(at, (replayed, Ok(_))) => Script::Done(
                at,
                (replayed.observing(next, diff).shown(), Ok(())),
            ),
        },
    }
}

impl GitWorkspace {
    /// The same session again.
    pub fn copy(&self) -> (r: GitWorkspace)
        ensures
            r@ == self@,
    {
        let mut aliases: Vec<Alias> = Vec::new();
        let mut i: usize = 0;
        assert(self.aliases@.take(0) =~= Seq::empty());
        while i < self.aliases.len()
            invariant
                i <= self.aliases@.len(),
                alias_map(aliases@) == alias_map(self.aliases@.take(i as int)),
            decreases self.aliases@.len() - i,
        {
            assert(self.aliases@.take(i + 1).drop_last() =~= self.aliases@.take(i as int));
            add_alias(&mut aliases, self.aliases[i].from.as_str(), self.aliases[i].to.as_str());
            i = i + 1;
        }
        assert(self.aliases@.take(i as int) =~= self.aliases@);
        let mut outbox: Vec<GitUiEvent> = Vec::new();
        let mut k: usize = 0;
        while k < self.outbox.len()
            invariant
                k <= self.outbox@.len(),
                outbox@.len() == k,
                forall|j: int| 0 <= j < k ==> (#[trigger] outbox@[j])@ == self.outbox@[j]@,
            decreases self.outbox@.len() - k,
        {
            let event = match &self.outbox[k] {
                GitUiEvent::State(state) => GitUiEvent::State(
                    GitUiState {
                        mode: state.mode,
                        branch: copy(state.branch.as_str()),
                        commits: copy_commits(state.commits.as_slice()),
                    },
                ),
                GitUiEvent::Error(message) => GitUiEvent::Error(copy(message.as_str())),
                GitUiEvent::Sensory(message) => GitUiEvent::Sensory(copy(message.as_str())),
            };
            outbox.push(event);
            k = k + 1;
        }
        assert(ui_views(outbox@) =~= ui_views(self.outbox@));
        GitWorkspace {
            repo_root: copy(self.repo_root.as_str()),
            worktree: copy(self.worktree.as_str()),
            state_dir: copy(self.state_dir.as_str()),
            branch: copy(self.branch.as_str()),
            session_branch: copy(self.session_branch.as_str()),
            lock_path: copy(self.lock_path.as_str()),
            baseline: copy(self.baseline.as_str()),
            observed: copy(self.observed.as_str()),
            mode: self.mode,
            commits: copy_commits(self.commits.as_slice()),
            aliases,
            outbox,
            cleaned: self.cleaned,
        }
    }

    /// What becomes of patches.
    pub fn mode(&self) -> (r: WorkspaceMode)
        ensures
            r == self@.mode,
    {
        self.mode
    }

    /// Adds an event.
    pub fn note(&mut self, event: GitUiEvent)
        ensures
            final(self)@ == old(self)@.noting(event@),
    {
        assert(ui_views(self.outbox@.push(event)) =~= ui_views(self.outbox@).push(event@));
        self.outbox.push(event);
    }

    /// The state as it is shown.
    pub fn ui_state(&self) -> (r: GitUiState)
        ensures
            r.mode == self@.mode,
            r.branch@ == self@.branch,
            commit_views(r.commits@) == self@.commits,
    {
        GitUiState {
            mode: self.mode,
            branch: copy(self.branch.as_str()),
            commits: copy_commits(self.commits.as_slice()),
        }
    }

    /// Shows the state.
    pub fn emit_state(&mut self)
        ensures
            final(self)@ == old(self)@.shown(),
    {
        let state = self.ui_state();
        self.note(GitUiEvent::State(state));
    }

    /// Takes note of a new snapshot, with a word about the changes that others made.
    pub fn emit_sensory(&mut self, next: &str, diff: &str)
        ensures
            final(self)@ == old(self)@.observing(next@, diff@),
    {
        if !diff.is_empty() {
            let mut message = concat4(
                "Observed external workspace changes on branch ",
                self.branch.as_str(),
                ".\nold snapshot: ",
                self.observed.as_str(),
            );
            message.push_str("\nnew snapshot: ");
            message.push_str(next);
            message.push_str("\n\n");
            message.push_str(diff);
            self.note(GitUiEvent::Sensory(message));
        }
        self.observed = copy(next);
    }

    /// The commit on top of the worktree.
    pub fn tip(&self) -> (r: String)
        ensures
            r@ == self@.tip(),
    {
        let n: usize = self.commits.len();
        if n == 0 {
            copy(self.baseline.as_str())
        } else {
            assert(self@.commits.last() == self.commits@[n - 1]@);
            copy(self.commits[n - 1].id.as_str())
        }
    }

    /// Forgets aliases that lead nowhere any more.
    pub fn tidy(&mut self)
        ensures
            final(self)@ == old(self)@.tidied(),
    {
        if self.commits.len() == 0 {
            self.aliases = Vec::new();
        }
    }

    /// Accepts the parent only on the branch on which the session began.
    pub fn validate_branch(&self, io: &mut Session) -> (r: Option<Result<(), Failure>>)
        requires
            old(io).wf(),
        ensures
            final(io).wf(),
            final(io).replies == old(io).replies,
            follows(
                on_branch(old(io).log(), old(io).at as nat, self@.repo_root, self@.branch),
                *final(io),
                opt_refusal(r),
            ),
    {
        match io.word(branch_name(self.repo_root.as_str()))? {
            Err(failure) => Some(
                Err(
                    fail_within("parent worktree no longer has a checked-out branch", failure),
                ),
            ),
            Ok(current) => {
                if same_text(current.as_str(), self.branch.as_str()) {
                    return Some(Ok(()));
                }
                let mut message = concat4(
                    "parent branch changed from ",
                    self.branch.as_str(),
                    " to ",
                    current.as_str(),
                );
                message.push_str("; restore it or restart Nuillu Code");
                Some(Err(Failure { kind: FailureKind::BranchChanged, message }))
            },
        }
    }

    /// Takes a snapshot of the parent's worktree on top of its head.
    pub fn take_snapshot(&self, io: &mut Session) -> (r: Option<Result<String, Failure>>)
        requires
            old(io).wf(),
        ensures
            final(io).wf(),
            final(io).replies == old(io).replies,
            follows(
                parent_snapshot(
                    old(io).log(),
                    old(io).at as nat,
                    self@.repo_root,
                    self@.state_dir,
                ),
                *final(io),
                opt_outcome(r),
            ),
    {
        let parent = match io.word(head(self.repo_root.as_str()))? {
            Err(failure) => return Some(Err(failure)),
            Ok(parent) => parent,
        };
        snapshot_parent(self.repo_root.as_str(), self.state_dir.as_str(), parent.as_str(), io)
    }

    /// Looks at the parent: the new snapshot and what changed since the last one, or nothing where
    /// nothing changed.
    pub fn observe(&self, io: &mut Session) -> (r: Option<
        Result<Option<(String, String)>, Failure>,
    >)
        requires
            old(io).wf(),
        ensures
            final(io).wf(),
            final(io).replies == old(io).replies,
            follows(
                observation(old(io).log(), old(io).at as nat, self@),
                *final(io),
                opt_observation(r),
            ),
    {
        match io.deed(Request::Lock)? {
            Err(failure) => return Some(Err(failure)),
            Ok(()) => {},
        }
        match self.validate_branch(io)? {
            Err(failure) => return Some(Err(failure)),
            Ok(()) => {},
        }
        match validate_repository_state(self.repo_root.as_str(), io)? {
            Err(failure) => return Some(Err(failure)),
            Ok(()) => {},
        }
        let next = match self.take_snapshot(io)? {
            Err(failure) => return Some(Err(failure)),
            Ok(next) => next,
        };
        match same_tree(self.repo_root.as_str(), next.as_str(), self.observed.as_str(), io)? {
            Err(failure) => return Some(Err(failure)),
            Ok(same) => {
                if same {
                    return Some(Ok(None));
                }
            },
        }
        match io.text(
            git_diff(self.repo_root.as_str(), self.observed.as_str(), next.as_str()),
        )? {
            Err(failure) => Some(Err(failure)),
            Ok(diff) => Some(Ok(Some((next, diff)))),
        }
    }

    /// Takes a commit that was just made in the worktree into the queue, under its new identifier
    /// and with its new diff.
    pub fn readmit(&mut self, item: &ReviewCommit, with_alias: bool, io: &mut Session) -> (r: Option<
        Result<(), Failure>,
    >)
        requires
            old(io).wf(),
        ensures
            final(io).wf(),
            final(io).replies == old(io).replies,
            follows(
                readmit(old(io).log(), old(io).at as nat, old(self)@, item@, with_alias),
                *final(io),
                stateful(final(self)@, opt_refusal(r)),
            ),
    {
        let id = match io.word(head(self.worktree.as_str()))? {
            Err(failure) => return Some(Err(failure)),
            Ok(id) => id,
        };
        let diff = match io.text(git_show(self.worktree.as_str(), id.as_str()))? {
            Err(failure) => return Some(Err(failure)),
            Ok(diff) => diff,
        };
        if with_alias {
            add_alias(&mut self.aliases, item.id.as_str(), id.as_str());
        }
        let mut kept = item.copy();
        kept.id = id;
        kept.diff = diff;
        proof {
            lemma_commit_views_push(self.commits@, kept);
        }
        self.commits.push(kept);
        Some(Ok(()))
    }

    /// Adds a word about a commit that had to go.
    pub fn note_discarded(&mut self, item: &ReviewCommit, because: &str, reason: &str)
        ensures
            final(self)@ == old(self)@.noting(
                UiView::Sensory(discarded(item@, because@, reason@)),
            ),
    {
        let mut message = concat4(
            "Discarded conflicting review commit ",
            item.id.as_str(),
            " (",
            item.purpose.as_str(),
        );
        message.push_str(") because ");
        message.push_str(because);
        message.push_str(": ");
        message.push_str(reason);
        message.push_str("\n\n");
        message.push_str(item.diff.as_str());
        self.note(GitUiEvent::Sensory(message));
    }

    /// Puts the worktree onto a snapshot and replays the queue there. A commit that conflicts is
    /// dropped with a word about it; the others keep their order.
    pub fn replay_onto(&mut self, baseline: &str, io: &mut Session) -> (r: Option<
        Result<(), Failure>,
    >)
        requires
            old(io).wf(),
        ensures
            final(io).wf(),
            final(io).replies == old(io).replies,
            follows(
                replay(old(io).log(), old(io).at as nat, old(self)@, baseline@),
                *final(io),
                stateful(final(self)@, opt_refusal(r)),
            ),
    {
        let items = copy_commits(self.commits.as_slice());
        let ghost views = commit_views(items@);
        self.commits = Vec::new();
        assert(commit_views(self.commits@) =~= Seq::empty());
        match io.run(reset_hard(self.worktree.as_str(), baseline))? {
            Err(failure) => return Some(Err(failure)),
            Ok(()) => {},
        }
        self.baseline = copy(baseline);
        let ghost goal = replay(old(io).log(), old(io).at as nat, old(self)@, baseline@);
        let mut i: usize = 0;
        while i < items.len()
            invariant
                io.wf(),
                io.replies == old(io).replies,
                views == commit_views(items@),
                i <= items@.len(),
                goal == replay(old(io).log(), old(io).at as nat, old(self)@, baseline@),
                goal == replay_items(io.log(), io.at as nat, self@, views, i as int),
            decreases items@.len() - i,
        {
            assert(views[i as int] == items@[i as int]@);
            match io.run(cherry_pick_as_agent(self.worktree.as_str(), items[i].id.as_str()))? {
                Ok(()) => {
                    match self.readmit(&items[i], true, io)? {
                        Err(failure) => return Some(Err(failure)),
                        Ok(()) => {},
                    }
                },
                Err(conflict) => {
                    io.next(Request::Git(abort_pick(self.worktree.as_str())))?;
                    let tip = self.tip();
                    match io.run(reset_hard(self.worktree.as_str(), tip.as_str()))? {
                        Err(failure) => return Some(Err(failure)),
                        Ok(()) => {},
                    }
                    self.note_discarded(&items[i], "replay failed", conflict.message.as_str());
                },
            }
            i = i + 1;
        }
        self.tidy();
        Some(Ok(()))
    }

    /// Brings the session up to date with the parent.
    pub fn sync_from_parent(&mut self, io: &mut Session) -> (r: Option<Result<(), Failure>>)
        requires
            old(io).wf(),
        ensures
            final(io).wf(),
            final(io).replies == old(io).replies,
            follows(
                synchronization(old(io).log(), old(io).at as nat, old(self)@),
                *final(io),
                stateful(final(self)@, opt_refusal(r)),
            ),
    {
        let (next, diff) = match self.observe(io)? {
            Err(failure) => return Some(Err(failure)),
            Ok(None) => return Some(Ok(())),
            Ok(Some(found)) => found,
        };
        match self.replay_onto(next.as_str(), io)? {
            Err(failure) => return Some(Err(failure)),
            Ok(()) => {},
        }
        self.emit_sensory(next.as_str(), diff.as_str());
        self.emit_state();
        Some(Ok(()))
    }
}

} // verus!
