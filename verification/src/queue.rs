//! The review queue at work: patches that come in, and what the user does with them.
use vstd::prelude::*;

use crate::command::{apply, apply_cached, apply_cached_run, apply_reverse, apply_reverse_run,
    apply_run, check_apply, check_apply_run, check_cached, check_cached_run, check_reverse,
    check_reverse_run, clean_untracked, clean_untracked_run, git_commit, git_commit_run, git_diff,
    git_diff_run, git_show, git_show_run, head, head_run, read_tree, read_tree_run, reset_hard,
    reset_hard_run, reset_soft, reset_soft_run, stage_all, stage_all_run};
use crate::failure::{fail, fail_within, within, Failure, FailureKind, Refusal};
use crate::git::{add_alias, alias_map, commit_views, copy_commits, find_alias, find_commit,
    lemma_alias_map_finite, lemma_commit_views_push, position, resolved_alias, CommitView,
    DispositionView, GitControlCommand, GitUiEvent, PatchDisposition, ReviewCommit, UiView,
    WorkspaceMode};
use crate::paths::{join_path, joined_path};
use crate::review::{ask_fresh_id, dropping, fresh_id, on_branch, parent_snapshot, replay, stateful,
    synchronization, GitView, GitWorkspace};
use crate::scan::{join, joined};
use crate::script::{deed, follows, opt_flag, opt_outcome, opt_refusal, reply_failure, reply_refusal,
    run, text, word, Reply, Request, RequestView, Script, Session};
use crate::sorted::{insert_unique, is_sorted_set, sorted_members, sorted_sets_are_unique};
use crate::text::{concat3, copy, copy_all, lemma_texts_push, texts};

verus! {

// ---------------------------------------------------------------------------------------------
// Dependencies
// ---------------------------------------------------------------------------------------------

/// Whether a diff applies to a commit, tried in an index of its own.
pub open spec fn applies_alone(
    log: Seq<Reply>,
    at: nat,
    state: GitView,
    patch: Seq<char>,
) -> Script<Result<bool, Refusal>> {
    match fresh_id(log, at) {
        Script::Ask(request) => Script::Ask(request),
        Script::Done(at, Err(refusal)) => Script::Done(at, Err(refusal)),
        Script::Done(at, Ok(id)) => {
            let index = joined_path(state.state_dir, "dependency-"@ + id + ".index"@);
            match run(log, at, read_tree_run(state.repo_root, index, state.baseline)) {
                Script::Ask(request) => Script::Ask(request),
                Script::Done(at, Err(refusal)) => Script::Done(at, Err(refusal)),
                Script::Done(at, Ok(_)) => if at >= log.len() {
                    Script::Ask(RequestView::Git(check_cached_run(state.repo_root, index, patch)))
                } else {
                    match log[at as int] {
                        Reply::Git(output) => dropping(log, at + 1, index, Ok(output.success)),
                        _ => Script::Done(at + 1, Err(reply_refusal(log[at as int]))),
                    }
                },
            }
        },
    }
}

/// Whether a diff applies on top of another one, in an index that is filled from the baseline.
pub open spec fn applies_on_top(
    log: Seq<Reply>,
    at: nat,
    state: GitView,
    index: Seq<char>,
    first: Seq<char>,
    second: Seq<char>,
) -> Script<Result<bool, Refusal>> {
    match run(log, at, read_tree_run(state.repo_root, index, state.baseline)) {
        Script::Ask(request) => Script::Ask(request),
        Script::Done(at, Err(refusal)) => Script::Done(at, Err(refusal)),
        Script::Done(at, Ok(_)) => if at >= log.len() {
            Script::Ask(RequestView::Git(apply_cached_run(state.repo_root, index, first)))
        } else {
            match log[at as int] {
                Reply::Git(output) => if !output.success {
                    Script::Done(at + 1, Ok(false))
                } else if at + 1 >= log.len() {
                    Script::Ask(RequestView::Git(check_cached_run(state.repo_root, index, second)))
                } else {
                    match log[(at + 1) as int] {
                        Reply::Git(second_output) => Script::Done(
                            at + 2,
                            Ok(second_output.success),
                        ),
                        _ => Script::Done(at + 2, Err(reply_refusal(log[(at + 1) as int]))),
                    }
                },
                _ => Script::Done(at + 1, Err(reply_refusal(log[at as int]))),
            }
        },
    }
}

/// Whether a diff applies on top of another one.
pub open spec fn applies_after(
    log: Seq<Reply>,
    at: nat,
    state: GitView,
    first: Seq<char>,
    second: Seq<char>,
) -> Script<Result<bool, Refusal>> {
    match fresh_id(log, at) {
        Script::Ask(request) => Script::Ask(request),
        Script::Done(at, Err(refusal)) => Script::Done(at, Err(refusal)),
        Script::Done(at, Ok(id)) => {
            let index = joined_path(state.state_dir, "dependency-pair-"@ + id + ".index"@);
            match applies_on_top(log, at, state, index, first, second) {
                Script::Ask(request) => Script::Ask(request),
                Script::Done(at, result) => dropping(log, at, index, result),
            }
        },
    }
}

/// The first commit from the `i`-th on, before the newest one, on top of which the newest diff
/// applies.
pub open spec fn dependency(log: Seq<Reply>, at: nat, state: GitView, i: int) -> Script<Option<int>>
    decreases state.commits.len() - i,
{
    if i < 0 || i >= state.commits.len() - 1 {
        Script::Done(at, None)
    } else {
        match applies_after(log, at, state, state.commits[i].diff, state.commits.last().diff) {
            Script::Ask(request) => Script::Ask(request),
            Script::Done(at, Ok(true)) => Script::Done(at, Some(i)),
            Script::Done(at, _) => dependency(log, at, state, i + 1),
        }
    }
}

/// The purposes of commits as one.
pub open spec fn all_purposes(commits: Seq<CommitView>) -> Seq<char> {
    joined(Seq::new(commits.len(), |i: int| commits[i].purpose), "; "@)
}

/// The paths that any of the first `n` commits changed.
pub open spec fn all_paths(commits: Seq<CommitView>, n: int) -> Set<Seq<char>>
    decreases n,
{
    if n <= 0 {
        Set::empty()
    } else {
        all_paths(commits, n - 1).union(commits[n - 1].changed_paths.to_set())
    }
}

/// Makes one commit of the whole queue.
pub open spec fn combination(log: Seq<Reply>, at: nat, state: GitView) -> Script<
    (GitView, Result<(), Refusal>),
> {
    match run(log, at, reset_soft_run(state.worktree, state.baseline)) {
        Script::Ask(request) => Script::Ask(request),
        Script::Done(at, Err(refusal)) => Script::Done(at, (state, Err(refusal))),
        Script::Done(at, Ok(_)) => match run(
            log,
            at,
            git_commit_run(state.worktree, all_purposes(state.commits)),
        ) {
            Script::Ask(request) => Script::Ask(request),
            Script::Done(at, Err(refusal)) => Script::Done(at, (state, Err(refusal))),
            Script::Done(at, Ok(_)) => match word(log, at, head_run(state.worktree)) {
                Script::Ask(request) => Script::Ask(request),
                Script::Done(at, Err(refusal)) => Script::Done(at, (state, Err(refusal))),
                Script::Done(at, Ok(id)) => match text(
                    log,
                    at,
                    git_show_run(state.worktree, id),
                ) {
                    Script::Ask(request) => Script::Ask(request),
                    Script::Done(at, Err(refusal)) => Script::Done(at, (state, Err(refusal))),
                    Script::Done(at, Ok(diff)) => Script::Done(
                        at,
                        (
                            GitView {
                                commits: seq![
                                    CommitView {
                                        id,
                                        purpose: all_purposes(state.commits),
                                        diff,
                                        changed_paths: sorted_members(
                                            all_paths(
                                                state.commits,
                                                state.commits.len() as int,
                                            ),
                                        ),
                                    },
                                ],
                                ..state
                            },
                            Ok(()),
                        ),
                    ),
                },
            },
        },
    }
}

/// Applies a diff to a worktree, once it is known to apply.
pub open spec fn applying(log: Seq<Reply>, at: nat, cwd: Seq<char>, patch: Seq<char>) -> Script<
    Result<(), Refusal>,
> {
    match run(log, at, check_apply_run(cwd, patch)) {
        Script::Ask(request) => Script::Ask(request),
        Script::Done(at, Err(refusal)) => Script::Done(at, Err(refusal)),
        Script::Done(at, Ok(_)) => run(log, at, apply_run(cwd, patch)),
    }
}

/// Takes a diff back in a worktree, once it is known that it can be.
pub open spec fn reversing(log: Seq<Reply>, at: nat, cwd: Seq<char>, patch: Seq<char>) -> Script<
    Result<(), Refusal>,
> {
    match run(log, at, check_reverse_run(cwd, patch)) {
        Script::Ask(request) => Script::Ask(request),
        Script::Done(at, Err(refusal)) => Script::Done(at, Err(refusal)),
        Script::Done(at, Ok(_)) => run(log, at, apply_reverse_run(cwd, patch)),
    }
}

/// A commit together with one that depends on it: what the commit of both says.
pub open spec fn merged(item: CommitView, newest: CommitView) -> CommitView {
    CommitView {
        purpose: item.purpose + "; "@ + newest.purpose,
        changed_paths: sorted_members(
            item.changed_paths.to_set().union(newest.changed_paths.to_set()),
        ),
        ..item
    }
}

/// Puts the diff of a commit into the worktree, and that of the newest commit on top where that
/// one depends on it.
pub open spec fn restoring(
    log: Seq<Reply>,
    at: nat,
    state: GitView,
    item: CommitView,
    newest: Option<CommitView>,
) -> Script<Result<(), Refusal>> {
    match applying(log, at, state.worktree, item.diff) {
        Script::Ask(request) => Script::Ask(request),
        Script::Done(at, Err(refusal)) => Script::Done(at, Err(refusal)),
        Script::Done(at, Ok(_)) => match newest {
            None => Script::Done(at, Ok(())),
            Some(top) => applying(log, at, state.worktree, top.diff),
        },
    }
}

/// Commits everything in the worktree and asks for the commit's identifier and diff.
pub open spec fn committing(log: Seq<Reply>, at: nat, cwd: Seq<char>, purpose: Seq<char>) -> Script<
    Result<(Seq<char>, Seq<char>), Refusal>,
> {
    match run(log, at, stage_all_run(cwd)) {
        Script::Ask(request) => Script::Ask(request),
        Script::Done(at, Err(refusal)) => Script::Done(at, Err(refusal)),
        Script::Done(at, Ok(_)) => match run(log, at, git_commit_run(cwd, purpose)) {
            Script::Ask(request) => Script::Ask(request),
            Script::Done(at, Err(refusal)) => Script::Done(at, Err(refusal)),
            Script::Done(at, Ok(_)) => match word(log, at, head_run(cwd)) {
                Script::Ask(request) => Script::Ask(request),
                Script::Done(at, Err(refusal)) => Script::Done(at, Err(refusal)),
                Script::Done(at, Ok(id)) => match text(log, at, git_show_run(cwd, id)) {
                    Script::Ask(request) => Script::Ask(request),
                    Script::Done(at, Err(refusal)) => Script::Done(at, Err(refusal)),
                    Script::Done(at, Ok(diff)) => Script::Done(at, Ok((id, diff))),
                },
            },
        },
    }
}

/// Makes the commits of the queue again from the `i`-th on, with the newest one merged into the
/// one it depends on. A commit that only got a new identifier is still found under its old one.
pub open spec fn rebuilding(
    log: Seq<Reply>,
    at: nat,
    state: GitView,
    dependency: int,
    i: int,
    rebuilt: Seq<CommitView>,
) -> Script<(GitView, Result<Seq<CommitView>, Refusal>)>
    decreases state.commits.len() - i,
{
    if i < 0 || i >= state.commits.len() - 1 {
        Script::Done(at, (state, Ok(rebuilt)))
    } else {
        let item = state.commits[i];
        let newest = state.commits.last();
        let top = if i == dependency {
            Some(newest)
        } else {
            None
        };
        let told = if i == dependency {
            merged(item, newest)
        } else {
            item
        };
        match restoring(log, at, state, item, top) {
            Script::Ask(request) => Script::Ask(request),
            Script::Done(at, Err(refusal)) => Script::Done(at, (state, Err(refusal))),
            Script::Done(at, Ok(_)) => match committing(log, at, state.worktree, told.purpose) {
                Script::Ask(request) => Script::Ask(request),
                Script::Done(at, Err(refusal)) => Script::Done(at, (state, Err(refusal))),
                Script::Done(at, Ok((id, diff))) => {
                    let named = if i == dependency {
                        state
                    } else {
                        GitView { aliases: state.aliases.insert(item.id, id), ..state }
                    };
                    rebuilding(
                        log,
                        at,
                        named,
                        dependency,
                        i + 1,
                        rebuilt.push(CommitView { id, diff, ..told }),
                    )
                },
            },
        }
    }
}

/// Merges the newest commit into the one it depends on. Where that fails, the queue stays as it
/// was.
pub open spec fn merging(log: Seq<Reply>, at: nat, state: GitView, dependency: int) -> Script<
    (GitView, Result<(), Refusal>),
> {
    match run(log, at, reset_hard_run(state.worktree, state.baseline)) {
        Script::Ask(request) => Script::Ask(request),
        Script::Done(at, Err(refusal)) => merge_failed(log, at, state, refusal),
        Script::Done(at, Ok(_)) => match rebuilding(
            log,
            at,
            state,
            dependency,
            0,
            Seq::empty(),
        ) {
            Script::Ask(request) => Script::Ask(request),
            Script::Done(at, (named, Err(refusal))) => merge_failed(log, at, named, refusal),
            Script::Done(at, (named, Ok(rebuilt))) => Script::Done(
                at,
                (GitView { commits: rebuilt, ..named }, Ok(())),
            ),
        },
    }
}

/// Puts the worktree back on top of the queue after a failed merge.
pub open spec fn merge_failed(log: Seq<Reply>, at: nat, state: GitView, refusal: Refusal) -> Script<
    (GitView, Result<(), Refusal>),
> {
    if at >= log.len() {
        Script::Ask(RequestView::Git(reset_hard_run(state.worktree, state.commits.last().id)))
    } else {
        Script::Done(at + 1, (state, Err(within("rebuild dependent review component"@, refusal))))
    }
}

/// Keeps the commits of the queue independent of each other: a newest commit that does not apply
/// alone is merged into the first one on top of which it applies, or the whole queue becomes one
/// commit.
pub open spec fn collapse(log: Seq<Reply>, at: nat, state: GitView) -> Script<
    (GitView, Result<(), Refusal>),
> {
    if state.commits.len() < 2 {
        Script::Done(at, (state, Ok(())))
    } else {
        match applies_alone(log, at, state, state.commits.last().diff) {
            Script::Ask(request) => Script::Ask(request),
            Script::Done(at, Err(refusal)) => Script::Done(at, (state, Err(refusal))),
            Script::Done(at, Ok(true)) => Script::Done(at, (state, Ok(()))),
            Script::Done(at, Ok(false)) => match dependency(log, at, state, 0) {
                Script::Ask(request) => Script::Ask(request),
                Script::Done(at, Some(i)) => merging(log, at, state, i),
                Script::Done(at, None) => combination(log, at, state),
            },
        }
    }
}

/// An identifier and a diff, over plain texts.
pub open spec fn opt_pair(r: Option<Result<(String, String), Failure>>) -> Option<
    Result<(Seq<char>, Seq<char>), Refusal>,
> {
    match r {
        None => None,
        Some(Err(failure)) => Some(Err(failure@)),
        Some(Ok((id, diff))) => Some(Ok((id@, diff@))),
    }
}

/// Commits or a refusal, over plain texts.
pub open spec fn opt_commits(r: Option<Result<Vec<ReviewCommit>, Failure>>) -> Option<
    Result<Seq<CommitView>, Refusal>,
> {
    match r {
        None => None,
        Some(Err(failure)) => Some(Err(failure@)),
        Some(Ok(commits)) => Some(Ok(commit_views(commits@))),
    }
}

/// A position, if there is one.
pub open spec fn opt_position(r: Option<Option<usize>>) -> Option<Option<int>> {
    match r {
        None => None,
        Some(None) => Some(None),
        Some(Some(i)) => Some(Some(i as int)),
    }
}

/// Applies a diff to a worktree, once it is known to apply.
pub fn apply_patch_to_worktree(cwd: &str, patch: &str, io: &mut Session) -> (r: Option<
    Result<(), Failure>,
>)
    requires
        old(io).wf(),
    ensures
        final(io).wf(),
        final(io).replies == old(io).replies,
        follows(
            applying(old(io).log(), old(io).at as nat, cwd@, patch@),
            *final(io),
            opt_refusal(r),
        ),
{
    match io.run(check_apply(cwd, patch))? {
        Err(failure) => return Some(Err(failure)),
        Ok(()) => {},
    }
    io.run(apply(cwd, patch))
}

/// Takes a diff back in a worktree, once it is known that it can be.
pub fn reverse_patch(cwd: &str, patch: &str, io: &mut Session) -> (r: Option<Result<(), Failure>>)
    requires
        old(io).wf(),
    ensures
        final(io).wf(),
        final(io).replies == old(io).replies,
        follows(
            reversing(old(io).log(), old(io).at as nat, cwd@, patch@),
            *final(io),
            opt_refusal(r),
        ),
{
    match io.run(check_reverse(cwd, patch))? {
        Err(failure) => return Some(Err(failure)),
        Ok(()) => {},
    }
    io.run(apply_reverse(cwd, patch))
}

/// Commits everything in a worktree and asks for the commit's identifier and diff.
fn commit_everything(cwd: &str, purpose: &str, io: &mut Session) -> (r: Option<
    Result<(String, String), Failure>,
>)
    requires
        old(io).wf(),
    ensures
        final(io).wf(),
        final(io).replies == old(io).replies,
        follows(
            committing(old(io).log(), old(io).at as nat, cwd@, purpose@),
            *final(io),
            opt_pair(r),
        ),
{
    match io.run(stage_all(cwd))? {
        Err(failure) => return Some(Err(failure)),
        Ok(()) => {},
    }
    match io.run(git_commit(cwd, purpose))? {
        Err(failure) => return Some(Err(failure)),
        Ok(()) => {},
    }
    let id = match io.word(head(cwd))? {
        Err(failure) => return Some(Err(failure)),
        Ok(id) => id,
    };
    match io.text(git_show(cwd, id.as_str()))? {
        Err(failure) => Some(Err(failure)),
        Ok(diff) => Some(Ok((id, diff))),
    }
}

/// Adds paths to a sorted list.
fn add_paths(list: &mut Vec<String>, paths: &Vec<String>)
    requires
        is_sorted_set(texts(old(list)@)),
    ensures
        is_sorted_set(texts(final(list)@)),
        texts(final(list)@).to_set() == texts(old(list)@).to_set().union(texts(paths@).to_set()),
{
    let ghost start = texts(list@).to_set();
    let ghost all = texts(paths@);
    let mut i: usize = 0;
    assert(all.take(0).to_set() =~= Set::empty());
    assert(start =~= start.union(all.take(0).to_set()));
    while i < paths.len()
        invariant
            all == texts(paths@),
            i <= paths@.len(),
            is_sorted_set(texts(list@)),
            texts(list@).to_set() == start.union(all.take(i as int).to_set()),
        decreases paths@.len() - i,
    {
        insert_unique(list, paths[i].as_str());
        proof {
            let fewer = all.take(i as int);
            let more = all.take(i + 1);
            assert(more =~= fewer.push(all[i as int]));
            assert(more.to_set() =~= fewer.to_set().insert(all[i as int])) by {
                assert forall|p: Seq<char>|
                    more.to_set().contains(p) <==> fewer.to_set().insert(all[i as int]).contains(
                        p,
                    ) by {
                    if fewer.contains(p) {
                        assert(more[fewer.index_of(p)] == p);
                    }
                    if p == all[i as int] {
                        assert(more[i as int] == p);
                    }
                    if more.contains(p) && p != all[i as int] {
                        let k = more.index_of(p);
                        assert(fewer[k] == p);
                    }
                }
            }
            assert(texts(list@).to_set() =~= start.union(more.to_set()));
        }
        i = i + 1;
    }
    assert(all.take(i as int) =~= all);
}

/// What the commit of a commit and one that depends on it says.
fn merge_words(item: &ReviewCommit, newest: &ReviewCommit) -> (r: ReviewCommit)
    ensures
        r@ == merged(item@, newest@),
{
    let mut paths: Vec<String> = Vec::new();
    assert(texts(paths@) =~= Seq::empty());
    assert(texts(paths@).to_set() =~= Set::empty());
    add_paths(&mut paths, &item.changed_paths);
    add_paths(&mut paths, &newest.changed_paths);
    proof {
        assert(texts(paths@).to_set() =~= item@.changed_paths.to_set().union(
            newest@.changed_paths.to_set(),
        ));
        sorted_sets_are_unique(texts(paths@));
    }
    ReviewCommit {
        id: copy(item.id.as_str()),
        purpose: concat3(item.purpose.as_str(), "; ", newest.purpose.as_str()),
        diff: copy(item.diff.as_str()),
        changed_paths: paths,
    }
}

impl GitWorkspace {
    /// Whether a diff applies to the baseline alone.
    pub fn patch_applies_to_tree(&self, patch: &str, io: &mut Session) -> (r: Option<
        Result<bool, Failure>,
    >)
        requires
            old(io).wf(),
        ensures
            final(io).wf(),
            final(io).replies == old(io).replies,
            follows(
                applies_alone(old(io).log(), old(io).at as nat, self@, patch@),
                *final(io),
                opt_flag(r),
            ),
    {
        let id = match ask_fresh_id(io)? {
            Err(failure) => return Some(Err(failure)),
            Ok(id) => id,
        };
        let name = concat3("dependency-", id.as_str(), ".index");
        let index = join_path(self.state_dir.as_str(), name.as_str());
        match io.run(read_tree(self.repo_root.as_str(), index.as_str(), self.baseline.as_str()))? {
            Err(failure) => return Some(Err(failure)),
            Ok(()) => {},
        }
        let reply = io.next(
            Request::Git(check_cached(self.repo_root.as_str(), index.as_str(), patch)),
        )?;
        match reply {
            Reply::Git(output) => {
                io.next(Request::RemoveFile(index))?;
                Some(Ok(output.success))
            },
            _ => Some(Err(reply_failure(reply))),
        }
    }

    /// Whether a diff applies on top of another one, in an index that is filled from the baseline.
    fn applies_in_index(&self, index: &str, first: &str, second: &str, io: &mut Session) -> (r:
        Option<Result<bool, Failure>>)
        requires
            old(io).wf(),
        ensures
            final(io).wf(),
            final(io).replies == old(io).replies,
            follows(
                applies_on_top(
                    old(io).log(),
                    old(io).at as nat,
                    self@,
                    index@,
                    first@,
                    second@,
                ),
                *final(io),
                opt_flag(r),
            ),
    {
        match io.run(read_tree(self.repo_root.as_str(), index, self.baseline.as_str()))? {
            Err(failure) => return Some(Err(failure)),
            Ok(()) => {},
        }
        let reply = io.next(Request::Git(apply_cached(self.repo_root.as_str(), index, first)))?;
        match reply {
            Reply::Git(output) => {
                if !output.success {
                    return Some(Ok(false));
                }
            },
            _ => return Some(Err(reply_failure(reply))),
        }
        let reply = io.next(Request::Git(check_cached(self.repo_root.as_str(), index, second)))?;
        match reply {
            Reply::Git(output) => Some(Ok(output.success)),
            _ => Some(Err(reply_failure(reply))),
        }
    }

    /// Whether a diff applies on top of another one.
    pub fn patch_applies_after_patch(&self, first: &str, second: &str, io: &mut Session) -> (r:
        Option<Result<bool, Failure>>)
        requires
            old(io).wf(),
        ensures
            final(io).wf(),
            final(io).replies == old(io).replies,
            follows(
                applies_after(old(io).log(), old(io).at as nat, self@, first@, second@),
                *final(io),
                opt_flag(r),
            ),
    {
        let id = match ask_fresh_id(io)? {
            Err(failure) => return Some(Err(failure)),
            Ok(id) => id,
        };
        let name = concat3("dependency-pair-", id.as_str(), ".index");
        let index = join_path(self.state_dir.as_str(), name.as_str());
        let result = self.applies_in_index(index.as_str(), first, second, io)?;
        io.next(Request::RemoveFile(index))?;
        Some(result)
    }

    /// The first commit before the newest one on top of which the newest diff applies.
    fn find_dependency(&self, io: &mut Session) -> (r: Option<Option<usize>>)
        requires
            old(io).wf(),
            self.commits@.len() >= 2,
        ensures
            final(io).wf(),
            final(io).replies == old(io).replies,
            follows(
                dependency(old(io).log(), old(io).at as nat, self@, 0),
                *final(io),
                opt_position(r),
            ),
            r matches Some(Some(i)) ==> i < self.commits@.len() - 1,
    {
        let last: usize = self.commits.len() - 1;
        let ghost goal = dependency(old(io).log(), old(io).at as nat, self@, 0);
        let mut i: usize = 0;
        while i < last
            invariant
                io.wf(),
                io.replies == old(io).replies,
                last == self.commits@.len() - 1,
                i <= last,
                goal == dependency(old(io).log(), old(io).at as nat, self@, 0),
                goal == dependency(io.log(), io.at as nat, self@, i as int),
            decreases last - i,
        {
            assert(self@.commits[i as int] == self.commits@[i as int]@);
            assert(self@.commits.last() == self.commits@[last as int]@);
            match self.patch_applies_after_patch(
                self.commits[i].diff.as_str(),
                self.commits[last].diff.as_str(),
                io,
            )? {
                Ok(true) => return Some(Some(i)),
                _ => {},
            }
            i = i + 1;
        }
        Some(None)
    }

    /// Makes one commit of the whole queue.
    fn combine(&mut self, io: &mut Session) -> (r: Option<Result<(), Failure>>)
        requires
            old(io).wf(),
        ensures
            final(io).wf(),
            final(io).replies == old(io).replies,
            follows(
                combination(old(io).log(), old(io).at as nat, old(self)@),
                *final(io),
                stateful(final(self)@, opt_refusal(r)),
            ),
    {
        let mut purposes: Vec<String> = Vec::new();
        let mut paths: Vec<String> = Vec::new();
        let ghost views = self@.commits;
        let ghost words = Seq::new(views.len(), |k: int| views[k].purpose);
        let mut i: usize = 0;
        proof {
            assert(texts(paths@) =~= Seq::empty());
            assert(texts(paths@).to_set() =~= Set::empty());
            assert(texts(purposes@) =~= words.take(0));
        }
        while i < self.commits.len()
            invariant
                views == commit_views(self.commits@),
                words == Seq::new(views.len(), |k: int| views[k].purpose),
                i <= self.commits@.len(),
                texts(purposes@) == words.take(i as int),
                is_sorted_set(texts(paths@)),
                texts(paths@).to_set() == all_paths(views, i as int),
            decreases self.commits@.len() - i,
        {
            assert(views[i as int] == self.commits@[i as int]@);
            let purpose = copy(self.commits[i].purpose.as_str());
            proof {
                lemma_texts_push(purposes@, purpose);
                assert(words.take(i + 1) =~= words.take(i as int).push(words[i as int]));
            }
            purposes.push(purpose);
            add_paths(&mut paths, &self.commits[i].changed_paths);
            i = i + 1;
        }
        proof {
            assert(words.take(i as int) =~= words);
            sorted_sets_are_unique(texts(paths@));
        }
        let purpose = join(&purposes, "; ");
        match io.run(reset_soft(self.worktree.as_str(), self.baseline.as_str()))? {
            Err(failure) => return Some(Err(failure)),
            Ok(()) => {},
        }
        match io.run(git_commit(self.worktree.as_str(), purpose.as_str()))? {
            Err(failure) => return Some(Err(failure)),
            Ok(()) => {},
        }
        let id = match io.word(head(self.worktree.as_str()))? {
            Err(failure) => return Some(Err(failure)),
            Ok(id) => id,
        };
        let diff = match io.text(git_show(self.worktree.as_str(), id.as_str()))? {
            Err(failure) => return Some(Err(failure)),
            Ok(diff) => diff,
        };
        let mut commits: Vec<ReviewCommit> = Vec::new();
        commits.push(ReviewCommit { id, purpose, diff, changed_paths: paths });
        assert(commit_views(commits@) =~= seq![commits@[0]@]);
        self.commits = commits;
        Some(Ok(()))
    }

    /// Puts the diff of a commit into the worktree, and that of the newest commit on top where
    /// that one depends on it.
    fn restore(&self, item: &ReviewCommit, newest: Option<&ReviewCommit>, io: &mut Session) -> (r:
        Option<Result<(), Failure>>)
        requires
            old(io).wf(),
        ensures
            final(io).wf(),
            final(io).replies == old(io).replies,
            follows(
                restoring(
                    old(io).log(),
                    old(io).at as nat,
                    self@,
                    item@,
                    (match newest {
                        Some(top) => Some(top@),
                        None => None,
                    }),
                ),
                *final(io),
                opt_refusal(r),
            ),
    {
        match apply_patch_to_worktree(self.worktree.as_str(), item.diff.as_str(), io)? {
            Err(failure) => return Some(Err(failure)),
            Ok(()) => {},
        }
        match newest {
            None => Some(Ok(())),
            Some(top) => apply_patch_to_worktree(self.worktree.as_str(), top.diff.as_str(), io),
        }
    }

    /// Makes the commits of the queue again, with the newest one merged into the one it depends
    /// on.
    fn rebuild(&mut self, dependency: usize, io: &mut Session) -> (r: Option<
        Result<Vec<ReviewCommit>, Failure>,
    >)
        requires
            old(io).wf(),
            old(self).commits@.len() >= 1,
        ensures
            final(io).wf(),
            final(io).replies == old(io).replies,
            final(self).commits@ == old(self).commits@,
            follows(
                rebuilding(
                    old(io).log(),
                    old(io).at as nat,
                    old(self)@,
                    dependency as int,
                    0,
                    Seq::empty(),
                ),
                *final(io),
                stateful(final(self)@, opt_commits(r)),
            ),
    {
        let last: usize = self.commits.len() - 1;
        let ghost goal = rebuilding(
            old(io).log(),
            old(io).at as nat,
            old(self)@,
            dependency as int,
            0,
            Seq::empty(),
        );
        let mut rebuilt: Vec<ReviewCommit> = Vec::new();
        assert(commit_views(rebuilt@) =~= Seq::empty());
        let mut i: usize = 0;
        while i < last
            invariant
                io.wf(),
                io.replies == old(io).replies,
                self.commits@ == old(self).commits@,
                last == self.commits@.len() - 1,
                i <= last,
                goal == rebuilding(
                    old(io).log(),
                    old(io).at as nat,
                    old(self)@,
                    dependency as int,
                    0,
                    Seq::empty(),
                ),
                goal == rebuilding(
                    io.log(),
                    io.at as nat,
                    self@,
                    dependency as int,
                    i as int,
                    commit_views(rebuilt@),
                ),
            decreases last - i,
        {
            assert(self@.commits[i as int] == self.commits@[i as int]@);
            assert(self@.commits.last() == self.commits@[last as int]@);
            let mut told = self.commits[i].copy();
            if i == dependency {
                told = merge_words(&self.commits[i], &self.commits[last]);
                match self.restore(&self.commits[i], Some(&self.commits[last]), io)? {
                    Err(failure) => return Some(Err(failure)),
                    Ok(()) => {},
                }
            } else {
                match self.restore(&self.commits[i], None, io)? {
                    Err(failure) => return Some(Err(failure)),
                    Ok(()) => {},
                }
            }
            let (id, diff) = match commit_everything(
                self.worktree.as_str(),
                told.purpose.as_str(),
                io,
            )? {
                Err(failure) => return Some(Err(failure)),
                Ok(made) => made,
            };
            if i != dependency {
                let earlier = copy(self.commits[i].id.as_str());
                add_alias(&mut self.aliases, earlier.as_str(), id.as_str());
            }
            told.id = id;
            told.diff = diff;
            proof {
                lemma_commit_views_push(rebuilt@, told);
            }
            rebuilt.push(told);
            i = i + 1;
        }
        Some(Ok(rebuilt))
    }

    /// Merges the newest commit into the one it depends on. Where that fails, the queue stays as
    /// it was.
    pub fn merge_dependency_component(&mut self, dependency: usize, io: &mut Session) -> (r: Option<
        Result<(), Failure>,
    >)
        requires
            old(io).wf(),
            old(self).commits@.len() >= 1,
        ensures
            final(io).wf(),
            final(io).replies == old(io).replies,
            follows(
                merging(old(io).log(), old(io).at as nat, old(self)@, dependency as int),
                *final(io),
                stateful(final(self)@, opt_refusal(r)),
            ),
    {
        let last: usize = self.commits.len() - 1;
        assert(self@.commits.last() == self.commits@[last as int]@);
        let tip = copy(self.commits[last].id.as_str());
        let result = match io.run(reset_hard(self.worktree.as_str(), self.baseline.as_str()))? {
            Err(failure) => Err(failure),
            Ok(()) => self.rebuild(dependency, io)?,
        };
        match result {
            Ok(rebuilt) => {
                self.commits = rebuilt;
                Some(Ok(()))
            },
            Err(failure) => {
                io.next(Request::Git(reset_hard(self.worktree.as_str(), tip.as_str())))?;
                Some(Err(fail_within("rebuild dependent review component", failure)))
            },
        }
    }

    /// Keeps the commits of the queue independent of each other: a newest commit that does not
    /// apply alone is merged into the first one on top of which it applies, or the whole queue
    /// becomes one commit.
    pub fn collapse_dependent_commits(&mut self, io: &mut Session) -> (r: Option<
        Result<(), Failure>,
    >)
        requires
            old(io).wf(),
        ensures
            final(io).wf(),
            final(io).replies == old(io).replies,
            follows(
                collapse(old(io).log(), old(io).at as nat, old(self)@),
                *final(io),
                stateful(final(self)@, opt_refusal(r)),
            ),
    {
        let n: usize = self.commits.len();
        if n < 2 {
            return Some(Ok(()));
        }
        assert(self@.commits.last() == self.commits@[n - 1]@);
        match self.patch_applies_to_tree(self.commits[n - 1].diff.as_str(), io)? {
            Err(failure) => return Some(Err(failure)),
            Ok(applies) => {
                if applies {
                    return Some(Ok(()));
                }
            },
        }
        match self.find_dependency(io)? {
            Some(i) => self.merge_dependency_component(i, io),
            None => self.combine(io),
        }
    }
}

// ---------------------------------------------------------------------------------------------
// Patches that come in
// ---------------------------------------------------------------------------------------------

/// Takes a snapshot of the parent and puts the worktree onto it.
pub open spec fn finalizing(log: Seq<Reply>, at: nat, state: GitView) -> Script<
    Result<Seq<char>, Refusal>,
> {
    match parent_snapshot(log, at, state.repo_root, state.state_dir) {
        Script::Ask(request) => Script::Ask(request),
        Script::Done(at, Err(refusal)) => Script::Done(at, Err(refusal)),
        Script::Done(at, Ok(next)) => match run(log, at, reset_hard_run(state.worktree, next)) {
            Script::Ask(request) => Script::Ask(request),
            Script::Done(at, Err(refusal)) => Script::Done(at, Err(refusal)),
            Script::Done(at, Ok(_)) => Script::Done(at, Ok(next)),
        },
    }
}

/// Puts the worktree back onto the baseline, so that the temporary commit is gone, and fails.
pub open spec fn discarding<T>(log: Seq<Reply>, at: nat, state: GitView, refusal: Refusal) -> Script<
    (GitView, Result<T, Refusal>),
> {
    match run(log, at, reset_hard_run(state.worktree, state.baseline)) {
        Script::Ask(request) => Script::Ask(request),
        Script::Done(at, Err(worse)) => Script::Done(at, (state, Err(worse))),
        Script::Done(at, Ok(_)) => Script::Done(at, (state, Err(refusal))),
    }
}

/// Hands a temporary commit over to the parent and forgets it. Where that fails, the parent gets
/// its files back.
pub open spec fn writing(log: Seq<Reply>, at: nat, state: GitView, diff: Seq<char>) -> Script<
    (GitView, Result<DispositionView, Refusal>),
> {
    match applying(log, at, state.repo_root, diff) {
        Script::Ask(request) => Script::Ask(request),
        Script::Done(at, Err(refusal)) => discarding(
            log,
            at,
            state,
            within("automatic Write apply failed; temporary commit discarded"@, refusal),
        ),
        Script::Done(at, Ok(_)) => match finalizing(log, at, state) {
            Script::Ask(request) => Script::Ask(request),
            Script::Done(at, Ok(next)) => Script::Done(
                at,
                (
                    (GitView { baseline: next, observed: next, ..state }).shown(),
                    Ok(DispositionView::WriteApplied),
                ),
            ),
            Script::Done(at, Err(refusal)) => match reversing(log, at, state.repo_root, diff) {
                Script::Ask(request) => Script::Ask(request),
                Script::Done(at, Err(worse)) => Script::Done(
                    at,
                    (
                        state,
                        Err(
                            within(
                                "Write finalization failed and parent rollback also failed"@,
                                worse,
                            ),
                        ),
                    ),
                ),
                Script::Done(at, Ok(_)) => discarding(
                    log,
                    at,
                    state,
                    within("finalize automatic Write apply"@, refusal),
                ),
            },
        },
    }
}

/// Adds a commit to the queue and keeps the queue independent.
pub open spec fn queueing(log: Seq<Reply>, at: nat, state: GitView, commit: CommitView) -> Script<
    (GitView, Result<DispositionView, Refusal>),
> {
    match collapse(log, at, state.with_commit(commit)) {
        Script::Ask(request) => Script::Ask(request),
        Script::Done(at, (next, Err(refusal))) => Script::Done(at, (next, Err(refusal))),
        Script::Done(at, (next, Ok(_))) => {
            let id = if next.commits.len() == 0 {
                commit.id
            } else {
                next.commits.last().id
            };
            Script::Done(at, (next.shown(), Ok(DispositionView::Review(id))))
        },
    }
}

/// Commits everything in the worktree and asks for the commit's identifier and diff; where Git
/// does not tell the diff, the given one stands for it.
pub open spec fn recording(
    log: Seq<Reply>,
    at: nat,
    cwd: Seq<char>,
    purpose: Seq<char>,
    rendered_diff: Seq<char>,
) -> Script<Result<(Seq<char>, Seq<char>), Refusal>> {
    match run(log, at, stage_all_run(cwd)) {
        Script::Ask(request) => Script::Ask(request),
        Script::Done(at, Err(refusal)) => Script::Done(at, Err(refusal)),
        Script::Done(at, Ok(_)) => match run(log, at, git_commit_run(cwd, purpose)) {
            Script::Ask(request) => Script::Ask(request),
            Script::Done(at, Err(refusal)) => Script::Done(at, Err(refusal)),
            Script::Done(at, Ok(_)) => match word(log, at, head_run(cwd)) {
                Script::Ask(request) => Script::Ask(request),
                Script::Done(at, Err(refusal)) => Script::Done(at, Err(refusal)),
                Script::Done(at, Ok(id)) => match text(log, at, git_show_run(cwd, id)) {
                    Script::Ask(request) => Script::Ask(request),
                    Script::Done(at, Err(_)) => Script::Done(at, Ok((id, rendered_diff))),
                    Script::Done(at, Ok(diff)) => Script::Done(at, Ok((id, diff))),
                },
            },
        },
    }
}

/// Takes a patch back that was carried out in a worktree: the changes of files that Git knows, and
/// then the files and directories that it does not.
pub open spec fn taking_patch_back(log: Seq<Reply>, at: nat, worktree: Seq<char>) -> Script<
    Result<(), Refusal>,
> {
    match run(log, at, reset_hard_run(worktree, "HEAD"@)) {
        Script::Ask(request) => Script::Ask(request),
        Script::Done(at, Err(refusal)) => Script::Done(at, Err(refusal)),
        Script::Done(at, Ok(_)) => run(log, at, clean_untracked_run(worktree)),
    }
}

/// What becomes of a patch that was carried out in the worktree. Read-only takes it back, Review
/// commits it and keeps the commit, Write commits it, hands it over and forgets the commit.
pub open spec fn finishing(
    log: Seq<Reply>,
    at: nat,
    state: GitView,
    purpose: Seq<char>,
    rendered_diff: Seq<char>,
    changed_paths: Seq<Seq<char>>,
) -> Script<(GitView, Result<DispositionView, Refusal>)> {
    match deed(log, at, RequestView::Lock) {
        Script::Ask(request) => Script::Ask(request),
        Script::Done(at, Err(refusal)) => Script::Done(at, (state, Err(refusal))),
        Script::Done(at, Ok(_)) => match on_branch(log, at, state.repo_root, state.branch) {
            Script::Ask(request) => Script::Ask(request),
            Script::Done(at, Err(refusal)) => Script::Done(at, (state, Err(refusal))),
            Script::Done(at, Ok(_)) => if state.mode == WorkspaceMode::ReadOnly {
                match taking_patch_back(log, at, state.worktree) {
                    Script::Ask(request) => Script::Ask(request),
                    Script::Done(at, Err(refusal)) => Script::Done(at, (state, Err(refusal))),
                    Script::Done(at, Ok(_)) => Script::Done(
                        at,
                        (
                            state,
                            Err(
                                (
                                    FailureKind::ReadOnly,
                                    "workspace is read-only; select Review or Write before patching"@,
                                ),
                            ),
                        ),
                    ),
                }
            } else {
                match recording(log, at, state.worktree, purpose, rendered_diff) {
                    Script::Ask(request) => Script::Ask(request),
                    Script::Done(at, Err(refusal)) => Script::Done(at, (state, Err(refusal))),
                    Script::Done(at, Ok((id, diff))) => if state.mode == WorkspaceMode::Write {
                        writing(log, at, state, diff)
                    } else {
                        queueing(log, at, state, CommitView { id, purpose, diff, changed_paths })
                    },
                }
            },
        },
    }
}

/// Commits everything in a worktree and asks for the commit's identifier and diff.
fn record(cwd: &str, purpose: &str, rendered_diff: &str, io: &mut Session) -> (r: Option<
    Result<(String, String), Failure>,
>)
    requires
        old(io).wf(),
    ensures
        final(io).wf(),
        final(io).replies == old(io).replies,
        follows(
            recording(old(io).log(), old(io).at as nat, cwd@, purpose@, rendered_diff@),
            *final(io),
            opt_pair(r),
        ),
{
    match io.run(stage_all(cwd))? {
        Err(failure) => return Some(Err(failure)),
        Ok(()) => {},
    }
    match io.run(git_commit(cwd, purpose))? {
        Err(failure) => return Some(Err(failure)),
        Ok(()) => {},
    }
    let id = match io.word(head(cwd))? {
        Err(failure) => return Some(Err(failure)),
        Ok(id) => id,
    };
    match io.text(git_show(cwd, id.as_str()))? {
        Err(_) => Some(Ok((id, copy(rendered_diff)))),
        Ok(diff) => Some(Ok((id, diff))),
    }
}

impl GitWorkspace {
    /// Takes a snapshot of the parent and puts the worktree onto it.
    fn finalize(&self, io: &mut Session) -> (r: Option<Result<String, Failure>>)
        requires
            old(io).wf(),
        ensures
            final(io).wf(),
            final(io).replies == old(io).replies,
            follows(
                finalizing(old(io).log(), old(io).at as nat, self@),
                *final(io),
                opt_outcome(r),
            ),
    {
        let next = match self.take_snapshot(io)? {
            Err(failure) => return Some(Err(failure)),
            Ok(next) => next,
        };
        match io.run(reset_hard(self.worktree.as_str(), next.as_str()))? {
            Err(failure) => Some(Err(failure)),
            Ok(()) => Some(Ok(next)),
        }
    }

    /// Puts the worktree back onto the baseline, so that the temporary commit is gone, and fails.
    fn discard_temporary(&self, failure: Failure, io: &mut Session) -> (r: Option<
        Result<PatchDisposition, Failure>,
    >)
        requires
            old(io).wf(),
        ensures
            final(io).wf(),
            final(io).replies == old(io).replies,
            follows(
                discarding(old(io).log(), old(io).at as nat, self@, failure@),
                *final(io),
                stateful(self@, opt_outcome(r)),
            ),
    {
        match io.run(reset_hard(self.worktree.as_str(), self.baseline.as_str()))? {
            Err(worse) => Some(Err(worse)),
            Ok(()) => Some(Err(failure)),
        }
    }

    /// Hands a temporary commit over to the parent and forgets it. Where that fails, the parent
    /// gets its files back.
    fn write_through(&mut self, diff: &str, io: &mut Session) -> (r: Option<
        Result<PatchDisposition, Failure>,
    >)
        requires
            old(io).wf(),
        ensures
            final(io).wf(),
            final(io).replies == old(io).replies,
            follows(
                writing(old(io).log(), old(io).at as nat, old(self)@, diff@),
                *final(io),
                stateful(final(self)@, opt_outcome(r)),
            ),
    {
        match apply_patch_to_worktree(self.repo_root.as_str(), diff, io)? {
            Err(failure) => {
                let told = fail_within(
                    "automatic Write apply failed; temporary commit discarded",
                    failure,
                );
                return self.discard_temporary(told, io);
            },
            Ok(()) => {},
        }
        match self.finalize(io)? {
            Ok(next) => {
                self.baseline = copy(next.as_str());
                self.observed = next;
                self.emit_state();
                Some(Ok(PatchDisposition::WriteApplied))
            },
            Err(failure) => {
                match reverse_patch(self.repo_root.as_str(), diff, io)? {
                    Err(worse) => Some(
                        Err(
                            fail_within(
                                "Write finalization failed and parent rollback also failed",
                                worse,
                            ),
                        ),
                    ),
                    Ok(()) => {
                        let told = fail_within("finalize automatic Write apply", failure);
                        self.discard_temporary(told, io)
                    },
                }
            },
        }
    }

    /// Adds a commit to the queue and keeps the queue independent.
    fn enqueue(&mut self, item: ReviewCommit, io: &mut Session) -> (r: Option<
        Result<PatchDisposition, Failure>,
    >)
        requires
            old(io).wf(),
        ensures
            final(io).wf(),
            final(io).replies == old(io).replies,
            follows(
                queueing(old(io).log(), old(io).at as nat, old(self)@, item@),
                *final(io),
                stateful(final(self)@, opt_outcome(r)),
            ),
    {
        let fallback = copy(item.id.as_str());
        proof {
            lemma_commit_views_push(self.commits@, item);
        }
        self.commits.push(item);
        match self.collapse_dependent_commits(io)? {
            Err(failure) => return Some(Err(failure)),
            Ok(()) => {},
        }
        let n: usize = self.commits.len();
        let review_commit = if n == 0 {
            fallback
        } else {
            assert(self@.commits.last() == self.commits@[n - 1]@);
            copy(self.commits[n - 1].id.as_str())
        };
        self.emit_state();
        Some(Ok(PatchDisposition::Review { review_commit }))
    }

    /// Settles what becomes of a patch that was carried out in the worktree. Read-only takes it
    /// back, Review commits it and keeps the commit, Write commits it, hands it over and forgets
    /// the commit.
    pub fn finish_patch(
        &mut self,
        purpose: &str,
        rendered_diff: &str,
        changed_paths: &Vec<String>,
        io: &mut Session,
    ) -> (r: Option<Result<PatchDisposition, Failure>>)
        requires
            old(io).wf(),
        ensures
            final(io).wf(),
            final(io).replies == old(io).replies,
            follows(
                finishing(
                    old(io).log(),
                    old(io).at as nat,
                    old(self)@,
                    purpose@,
                    rendered_diff@,
                    texts(changed_paths@),
                ),
                *final(io),
                stateful(final(self)@, opt_outcome(r)),
            ),
    {
        match io.deed(Request::Lock)? {
            Err(failure) => return Some(Err(failure)),
            Ok(()) => {},
        }
        match self.validate_branch(io)? {
            Err(failure) => return Some(Err(failure)),
            Ok(()) => {},
        }
        match self.mode {
            WorkspaceMode::ReadOnly => {
                match self.discard_uncommitted(io)? {
                    Err(failure) => return Some(Err(failure)),
                    Ok(()) => {},
                }
                match io.run(clean_untracked(self.worktree.as_str()))? {
                    Err(failure) => return Some(Err(failure)),
                    Ok(()) => {},
                }
                return Some(
                    Err(
                        fail(
                            FailureKind::ReadOnly,
                            "workspace is read-only; select Review or Write before patching",
                        ),
                    ),
                );
            },
            _ => {},
        }
        let (id, diff) = match record(self.worktree.as_str(), purpose, rendered_diff, io)? {
            Err(failure) => return Some(Err(failure)),
            Ok(made) => made,
        };
        match self.mode {
            WorkspaceMode::Write => self.write_through(diff.as_str(), io),
            _ => {
                let item = ReviewCommit {
                    id,
                    purpose: copy(purpose),
                    diff,
                    changed_paths: copy_all(changed_paths),
                };
                self.enqueue(item, io)
            },
        }
    }

    /// Takes the uncommitted changes of files that Git knows in the worktree back. New files that
    /// it does not know stay.
    pub fn discard_uncommitted(&self, io: &mut Session) -> (r: Option<Result<(), Failure>>)
        requires
            old(io).wf(),
        ensures
            final(io).wf(),
            final(io).replies == old(io).replies,
            follows(
                run(old(io).log(), old(io).at as nat, reset_hard_run(self@.worktree, "HEAD"@)),
                *final(io),
                opt_refusal(r),
            ),
    {
        io.run(reset_hard(self.worktree.as_str(), "HEAD"))
    }
}

// ---------------------------------------------------------------------------------------------
// What the user asks for
// ---------------------------------------------------------------------------------------------

/// Takes a snapshot of the parent and replays the queue there; the snapshot counts as seen.
pub open spec fn adopting(log: Seq<Reply>, at: nat, state: GitView) -> Script<
    (GitView, Result<(), Refusal>),
> {
    match parent_snapshot(log, at, state.repo_root, state.state_dir) {
        Script::Ask(request) => Script::Ask(request),
        Script::Done(at, Err(refusal)) => Script::Done(at, (state, Err(refusal))),
        Script::Done(at, Ok(next)) => replay(log, at, GitView { observed: next, ..state }, next),
    }
}

/// What is said when a handed-over diff could not be settled.
pub open spec fn apply_words(whole: bool) -> (Seq<char>, Seq<char>) {
    if whole {
        ("Apply-all failed and parent rollback also failed"@, "finalize Apply-all"@)
    } else {
        (
            "individual Apply failed and parent rollback also failed"@,
            "finalize individual Apply"@,
        )
    }
}

/// Takes a diff back that was handed over, and restores the queue.
pub open spec fn taking_back(
    log: Seq<Reply>,
    at: nat,
    state: GitView,
    failed: GitView,
    diff: Seq<char>,
    whole: bool,
    refusal: Refusal,
) -> Script<(GitView, Result<(), Refusal>)> {
    match reversing(log, at, state.repo_root, diff) {
        Script::Ask(request) => Script::Ask(request),
        Script::Done(at, Err(worse)) => Script::Done(
            at,
            (failed, Err(within(apply_words(whole).0, worse))),
        ),
        Script::Done(at, Ok(_)) => match replay(
            log,
            at,
            GitView { commits: state.commits, ..failed },
            state.baseline,
        ) {
            Script::Ask(request) => Script::Ask(request),
            Script::Done(at, (next, Err(worse))) => Script::Done(at, (next, Err(worse))),
            Script::Done(at, (next, Ok(_))) => Script::Done(
                at,
                (next, Err(within(apply_words(whole).1, refusal))),
            ),
        },
    }
}

/// Hands a diff over to the parent, with the commits that stay in the queue. Where that fails
/// half-way, the parent gets its files back and the queue its commits.
pub open spec fn handing_over(
    log: Seq<Reply>,
    at: nat,
    state: GitView,
    diff: Seq<char>,
    left: Seq<CommitView>,
    whole: bool,
) -> Script<(GitView, Result<(), Refusal>)> {
    match applying(log, at, state.repo_root, diff) {
        Script::Ask(request) => Script::Ask(request),
        Script::Done(at, Err(refusal)) => Script::Done(at, (state, Err(refusal))),
        Script::Done(at, Ok(_)) => match adopting(log, at, GitView { commits: left, ..state }) {
            Script::Ask(request) => Script::Ask(request),
            Script::Done(at, (next, Ok(_))) => Script::Done(at, (next, Ok(()))),
            Script::Done(at, (failed, Err(refusal))) => taking_back(
                log,
                at,
                state,
                failed,
                diff,
                whole,
                refusal,
            ),
        },
    }
}

/// The position of the commit that an identifier leads to.
pub open spec fn named_position(state: GitView, id: Seq<char>) -> Option<int> {
    position(state.commits, resolved_alias(state.aliases, Set::empty(), id), 0)
}

/// The refusal of an identifier that leads to no commit.
pub open spec fn unknown_commit() -> Refusal {
    (FailureKind::UnknownCommit, "review commit not found"@)
}

/// Applies one commit.
pub open spec fn applying_one(log: Seq<Reply>, at: nat, state: GitView, id: Seq<char>) -> Script<
    (GitView, Result<(), Refusal>),
> {
    match named_position(state, id) {
        None => Script::Done(at, (state, Err(unknown_commit()))),
        Some(i) => handing_over(
            log,
            at,
            state,
            state.commits[i].diff,
            state.commits.remove(i),
            false,
        ),
    }
}

/// Discards one commit and replays the others.
pub open spec fn discarding_one(log: Seq<Reply>, at: nat, state: GitView, id: Seq<char>) -> Script<
    (GitView, Result<(), Refusal>),
> {
    match named_position(state, id) {
        None => Script::Done(at, (state, Err(unknown_commit()))),
        Some(i) => replay(
            log,
            at,
            GitView { commits: state.commits.remove(i), ..state },
            state.baseline,
        ),
    }
}

/// Applies the whole queue as one diff.
pub open spec fn applying_all(log: Seq<Reply>, at: nat, state: GitView) -> Script<
    (GitView, Result<(), Refusal>),
> {
    if state.commits.len() == 0 {
        Script::Done(at, (state, Ok(())))
    } else {
        match text(log, at, git_diff_run(state.worktree, state.baseline, state.tip())) {
            Script::Ask(request) => Script::Ask(request),
            Script::Done(at, Err(refusal)) => Script::Done(at, (state, Err(refusal))),
            Script::Done(at, Ok(diff)) => handing_over(log, at, state, diff, Seq::empty(), true),
        }
    }
}

/// Selects a mode. From Review to Write the queue is applied first.
pub open spec fn selecting(log: Seq<Reply>, at: nat, state: GitView, mode: WorkspaceMode) -> Script<
    (GitView, Result<(), Refusal>),
> {
    if state.mode == mode {
        Script::Done(at, (state, Ok(())))
    } else if state.mode == WorkspaceMode::Review && mode == WorkspaceMode::Write {
        match applying_all(log, at, state) {
            Script::Ask(request) => Script::Ask(request),
            Script::Done(at, (next, Err(refusal))) => Script::Done(at, (next, Err(refusal))),
            Script::Done(at, (next, Ok(_))) => Script::Done(
                at,
                (GitView { mode, ..next }, Ok(())),
            ),
        }
    } else {
        Script::Done(at, (GitView { mode, ..state }, Ok(())))
    }
}

/// Does what the user asked for.
pub open spec fn obeying(log: Seq<Reply>, at: nat, state: GitView, command: GitControlCommand) -> Script<
    (GitView, Result<(), Refusal>),
> {
    match command {
        GitControlCommand::SetMode(mode) => selecting(log, at, state, mode),
        GitControlCommand::Apply(id) => applying_one(log, at, state, id@),
        GitControlCommand::Discard(id) => discarding_one(log, at, state, id@),
        GitControlCommand::ApplyAll => applying_all(log, at, state),
    }
}

/// Does what the user asked for under the repository's lock, tells of a failure, and shows the
/// state.
pub open spec fn controlling(
    log: Seq<Reply>,
    at: nat,
    state: GitView,
    command: GitControlCommand,
) -> Script<(GitView, Result<(), Refusal>)> {
    match deed(log, at, RequestView::Lock) {
        Script::Ask(request) => Script::Ask(request),
        Script::Done(at, Err(refusal)) => Script::Done(at, (state, Err(refusal))),
        Script::Done(at, Ok(_)) => match obeying(log, at, state, command) {
            Script::Ask(request) => Script::Ask(request),
            Script::Done(at, (next, Ok(_))) => Script::Done(at, (next.shown(), Ok(()))),
            Script::Done(at, (next, Err(refusal))) => Script::Done(
                at,
                (next.noting(UiView::Error(refusal.1)).shown(), Err(refusal)),
            ),
        },
    }
}

/// Brings the session up to date with the parent and does what the user asked for.
pub open spec fn handling(
    log: Seq<Reply>,
    at: nat,
    state: GitView,
    command: GitControlCommand,
) -> Script<(GitView, Result<(), Refusal>)> {
    match synchronization(log, at, state) {
        Script::Ask(request) => Script::Ask(request),
        Script::Done(at, (next, Err(refusal))) => Script::Done(at, (next, Err(refusal))),
        Script::Done(at, (next, Ok(_))) => controlling(log, at, next, command),
    }
}

impl GitWorkspace {
    /// What an identifier stands for in the end.
    pub fn resolve_alias(&self, id: &str) -> (r: String)
        ensures
            r@ == resolved_alias(self@.aliases, Set::empty(), id@),
    {
        let mut current = copy(id);
        let mut seen: Vec<String> = Vec::new();
        let ghost aliases = self@.aliases;
        let ghost known = aliases.dom();
        proof {
            lemma_alias_map_finite(self.aliases@);
            assert(texts(seen@) =~= Seq::empty());
            assert(texts(seen@).to_set() =~= Set::empty());
        }
        loop
            invariant
                aliases == alias_map(self.aliases@),
                known == aliases.dom(),
                known.finite(),
                is_sorted_set(texts(seen@)),
                resolved_alias(aliases, Set::empty(), id@) == resolved_alias(
                    aliases,
                    texts(seen@).to_set(),
                    current@,
                ),
            ensures
                current@ == resolved_alias(aliases, Set::empty(), id@),
            decreases known.difference(texts(seen@).to_set()).len(),
        {
            let ghost before = texts(seen@).to_set();
            if !insert_unique(&mut seen, current.as_str()) {
                assert(before.contains(current@));
                break;
            }
            assert(!before.contains(current@));
            match find_alias(&self.aliases, current.as_str()) {
                None => {
                    break;
                },
                Some(next) => {
                    proof {
                        assert(known.difference(texts(seen@).to_set()) =~= known.difference(
                            before,
                        ).remove(current@));
                    }
                    current = copy(next);
                },
            }
        }
        current
    }

    /// The position of the commit that an identifier leads to.
    fn find_named(&self, id: &str) -> (r: Result<usize, Failure>)
        ensures
            match r {
                Ok(i) => named_position(self@, id@) == Some(i as int) && i < self.commits@.len(),
                Err(failure) => named_position(self@, id@) is None && failure@ == unknown_commit(),
            },
    {
        let current = self.resolve_alias(id);
        match find_commit(self.commits.as_slice(), current.as_str()) {
            Some(i) => Ok(i),
            None => Err(fail(FailureKind::UnknownCommit, "review commit not found")),
        }
    }

    /// Takes a snapshot of the parent and replays the queue there; the snapshot counts as seen.
    pub fn adopt_parent_and_replay(&mut self, io: &mut Session) -> (r: Option<Result<(), Failure>>)
        requires
            old(io).wf(),
        ensures
            final(io).wf(),
            final(io).replies == old(io).replies,
            follows(
                adopting(old(io).log(), old(io).at as nat, old(self)@),
                *final(io),
                stateful(final(self)@, opt_refusal(r)),
            ),
    {
        let next = match self.take_snapshot(io)? {
            Err(failure) => return Some(Err(failure)),
            Ok(next) => next,
        };
        self.observed = copy(next.as_str());
        self.replay_onto(next.as_str(), io)
    }

    /// Hands a diff over to the parent, with the commits that stay in the queue. Where that fails
    /// half-way, the parent gets its files back and the queue its commits.
    fn hand_over(
        &mut self,
        diff: &str,
        left: Vec<ReviewCommit>,
        whole: bool,
        io: &mut Session,
    ) -> (r: Option<Result<(), Failure>>)
        requires
            old(io).wf(),
        ensures
            final(io).wf(),
            final(io).replies == old(io).replies,
            follows(
                handing_over(
                    old(io).log(),
                    old(io).at as nat,
                    old(self)@,
                    diff@,
                    commit_views(left@),
                    whole,
                ),
                *final(io),
                stateful(final(self)@, opt_refusal(r)),
            ),
    {
        let original = copy_commits(self.commits.as_slice());
        let baseline = copy(self.baseline.as_str());
        match apply_patch_to_worktree(self.repo_root.as_str(), diff, io)? {
            Err(failure) => return Some(Err(failure)),
            Ok(()) => {},
        }
        self.commits = left;
        let root = copy(self.repo_root.as_str());
        let failure = match self.adopt_parent_and_replay(io)? {
            Ok(()) => return Some(Ok(())),
            Err(failure) => failure,
        };
        match reverse_patch(root.as_str(), diff, io)? {
            Err(worse) => {
                let context = if whole {
                    "Apply-all failed and parent rollback also failed"
                } else {
                    "individual Apply failed and parent rollback also failed"
                };
                return Some(Err(fail_within(context, worse)));
            },
            Ok(()) => {},
        }
        self.commits = original;
        match self.replay_onto(baseline.as_str(), io)? {
            Err(worse) => return Some(Err(worse)),
            Ok(()) => {},
        }
        let context = if whole {
            "finalize Apply-all"
        } else {
            "finalize individual Apply"
        };
        Some(Err(fail_within(context, failure)))
    }

    /// Applies one commit to the parent and replays the others.
    pub fn apply_one(&mut self, id: &str, io: &mut Session) -> (r: Option<Result<(), Failure>>)
        requires
            old(io).wf(),
        ensures
            final(io).wf(),
            final(io).replies == old(io).replies,
            follows(
                applying_one(old(io).log(), old(io).at as nat, old(self)@, id@),
                *final(io),
                stateful(final(self)@, opt_refusal(r)),
            ),
    {
        let i: usize = match self.find_named(id) {
            Err(failure) => return Some(Err(failure)),
            Ok(i) => i,
        };
        let diff = copy(self.commits[i].diff.as_str());
        let mut left = copy_commits(self.commits.as_slice());
        proof {
            assert(self@.commits[i as int] == self.commits@[i as int]@);
            assert(commit_views(left@.remove(i as int)) =~= commit_views(left@).remove(i as int));
            assert(commit_views(left@).len() == left@.len());
            assert(self@.commits.len() == self.commits@.len());
        }
        left.remove(i);
        self.hand_over(diff.as_str(), left, false, io)
    }

    /// Discards one commit and replays the others.
    pub fn discard_one(&mut self, id: &str, io: &mut Session) -> (r: Option<Result<(), Failure>>)
        requires
            old(io).wf(),
        ensures
            final(io).wf(),
            final(io).replies == old(io).replies,
            follows(
                discarding_one(old(io).log(), old(io).at as nat, old(self)@, id@),
                *final(io),
                stateful(final(self)@, opt_refusal(r)),
            ),
    {
        let i: usize = match self.find_named(id) {
            Err(failure) => return Some(Err(failure)),
            Ok(i) => i,
        };
        proof {
            assert(commit_views(self.commits@.remove(i as int)) =~= commit_views(
                self.commits@,
            ).remove(i as int));
        }
        self.commits.remove(i);
        let baseline = copy(self.baseline.as_str());
        self.replay_onto(baseline.as_str(), io)
    }

    /// Applies the whole queue to the parent as one diff.
    pub fn apply_all(&mut self, io: &mut Session) -> (r: Option<Result<(), Failure>>)
        requires
            old(io).wf(),
        ensures
            final(io).wf(),
            final(io).replies == old(io).replies,
            follows(
                applying_all(old(io).log(), old(io).at as nat, old(self)@),
                *final(io),
                stateful(final(self)@, opt_refusal(r)),
            ),
    {
        if self.commits.len() == 0 {
            return Some(Ok(()));
        }
        let tip = self.tip();
        let diff = match io.text(
            git_diff(self.worktree.as_str(), self.baseline.as_str(), tip.as_str()),
        )? {
            Err(failure) => return Some(Err(failure)),
            Ok(diff) => diff,
        };
        let left: Vec<ReviewCommit> = Vec::new();
        assert(commit_views(left@) =~= Seq::empty());
        self.hand_over(diff.as_str(), left, true, io)
    }

    /// Selects a mode. From Review to Write the queue is applied first.
    pub fn set_mode(&mut self, mode: WorkspaceMode, io: &mut Session) -> (r: Option<
        Result<(), Failure>,
    >)
        requires
            old(io).wf(),
        ensures
            final(io).wf(),
            final(io).replies == old(io).replies,
            follows(
                selecting(old(io).log(), old(io).at as nat, old(self)@, mode),
                *final(io),
                stateful(final(self)@, opt_refusal(r)),
            ),
    {
        if self.mode == mode {
            return Some(Ok(()));
        }
        if self.mode == WorkspaceMode::Review && mode == WorkspaceMode::Write {
            match self.apply_all(io)? {
                Err(failure) => return Some(Err(failure)),
                Ok(()) => {},
            }
        }
        self.mode = mode;
        Some(Ok(()))
    }

    /// Does what the user asked for under the repository's lock, tells of a failure, and shows
    /// the state.
    pub fn obey(&mut self, command: &GitControlCommand, io: &mut Session) -> (r: Option<
        Result<(), Failure>,
    >)
        requires
            old(io).wf(),
        ensures
            final(io).wf(),
            final(io).replies == old(io).replies,
            follows(
                controlling(old(io).log(), old(io).at as nat, old(self)@, *command),
                *final(io),
                stateful(final(self)@, opt_refusal(r)),
            ),
    {
        match io.deed(Request::Lock)? {
            Err(failure) => return Some(Err(failure)),
            Ok(()) => {},
        }
        let result = match command {
            GitControlCommand::SetMode(mode) => self.set_mode(*mode, io)?,
            GitControlCommand::Apply(id) => self.apply_one(id.as_str(), io)?,
            GitControlCommand::Discard(id) => self.discard_one(id.as_str(), io)?,
            GitControlCommand::ApplyAll => self.apply_all(io)?,
        };
        match &result {
            Err(failure) => self.note(GitUiEvent::Error(copy(failure.message.as_str()))),
            Ok(()) => {},
        }
        self.emit_state();
        Some(result)
    }

    /// Brings the session up to date with the parent and does what the user asked for.
    pub fn handle_control(&mut self, command: &GitControlCommand, io: &mut Session) -> (r: Option<
        Result<(), Failure>,
    >)
        requires
            old(io).wf(),
        ensures
            final(io).wf(),
            final(io).replies == old(io).replies,
            follows(
                handling(old(io).log(), old(io).at as nat, old(self)@, *command),
                *final(io),
                stateful(final(self)@, opt_refusal(r)),
            ),
    {
        match self.sync_from_parent(io)? {
            Err(failure) => return Some(Err(failure)),
            Ok(()) => {},
        }
        self.obey(command, io)
    }
}

} // verus!
