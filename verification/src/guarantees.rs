//! What a session guarantees, whatever Git and the outside reply.
use vstd::prelude::*;

use crate::command::{add_worktree_run, apply_reverse_run, apply_run, check_apply_run,
    check_reverse_run, cherry_pick_as_agent_run, clean_untracked_run, delete_branch_run,
    prune_worktrees_run, remove_worktree_run, reset_hard_run, InvocationView};
use crate::conflict::{adopting_resolution, capturing, covers, handling_resolved, has_marker,
    needs_new_review, reading_conflict, reading_conflicts, replaying, replaying_item,
    replaying_items, resolving, review_again, storing, storing_all, synchronizing};
use crate::encoding::{hex_padded, hex_padded_is_hexadecimal, hex_padded_is_injective, hex_range,
    is_lower_hex, lemma_hex_padded_len};
use crate::failure::{FailureKind, Refusal};
use crate::git::{earlier_identifiers_lead_to_the_last, resolved_alias, CommitView, DispositionView,
    GitControlCommand, UiView, WorkspaceMode};
use crate::paths::{is_conflict_path, joined_path};
use crate::queue::{adopting, applies_after, applies_alone, applies_on_top, applying, applying_all,
    collapse, committing, controlling, dependency, finalizing, finishing, handing_over, handling,
    merged, merging, obeying, rebuilding, recording, restoring, reversing, selecting, writing};
use crate::repository::{admitting, ancestor_count, cleaning_up, clearing_sessions, ending,
    finding_root, founding, identifying, inner_directories, locating, lock_file, making_room,
    new_session, opening, populating, removing_session, scanning, session_branch, without_filters,
    without_settings, worktree_path, STALE_WORKTREE_SECONDS};
use crate::review::{difference, discarded, fresh_id, no_marker, observation, on_branch,
    parent_snapshot, readmit, replay, replay_items, session_id, settled, snapshot, snapshot_staged,
    synchronization, GitView};
use crate::script::{deed, run, ConflictFileView, ConflictView, LockEntry, Reply, RequestView,
    Script};

verus! {

// ---------------------------------------------------------------------------------------------
// The parent's history
// ---------------------------------------------------------------------------------------------

/// Whether a run of Git neither moves a branch nor changes the index where it runs: it only asks,
/// it works on an index of its own, it makes a commit that no branch leads to, or it changes
/// nothing but files.
pub open spec fn leaves_history_alone(run: InvocationView) -> bool {
    let verb = run.args[0];
    ||| verb == "rev-parse"@ || verb == "symbolic-ref"@ || verb == "ls-files"@ || verb == "diff"@
    ||| run.index is Some
    ||| verb == "commit-tree"@
    ||| verb == "apply"@ && !run.args.contains("--cached"@) && !run.args.contains("--index"@)
}

/// Whether a run of Git makes no commit.
pub open spec fn makes_no_commit(run: InvocationView) -> bool {
    let verb = run.args[0];
    ||| verb == "rev-parse"@ || verb == "symbolic-ref"@ || verb == "ls-files"@ || verb == "diff"@
    ||| verb == "show"@ || verb == "read-tree"@ || verb == "write-tree"@ || verb == "add"@
    ||| verb == "reset"@ || verb == "clean"@ || verb == "apply"@
    ||| run.args == seq!["cherry-pick"@, "--abort"@]
}

/// Whether a request leaves the history and the index of the parent alone, and makes commits only
/// as the agent.
pub open spec fn spares(root: Seq<char>, request: RequestView) -> bool {
    request matches RequestView::Git(run) ==> {
        &&& run.cwd == root ==> leaves_history_alone(run)
        &&& run.as_agent || makes_no_commit(run)
    }
}

/// Whether what a piece of work asks for next, if anything, leaves the history and the index of
/// the parent alone, and makes commits only as the agent.
pub open spec fn sparing<T>(root: Seq<char>, script: Script<T>) -> bool {
    script matches Script::Ask(request) ==> spares(root, request)
}

/// Whether the session's worktree is not the parent's.
pub open spec fn is_apart(state: GitView) -> bool {
    state.worktree != state.repo_root
}

proof fn lemma_files_only(args: Seq<Seq<char>>)
    requires
        forall|i: int|
            0 <= i < args.len() ==> #[trigger] args[i] == "apply"@ || args[i] == "--check"@
                || args[i] == "--reverse"@ || args[i] == "--binary"@ || args[i] == "-"@,
    ensures
        !args.contains("--cached"@),
        !args.contains("--index"@),
{
    reveal_strlit("--cached");
    reveal_strlit("--index");
    reveal_strlit("apply");
    reveal_strlit("--check");
    reveal_strlit("--reverse");
    reveal_strlit("--binary");
    reveal_strlit("-");
    assert("--cached"@[2] == 'c');
    assert("--index"@[2] == 'i');
    assert("--check"@[2] == 'c');
    assert("--binary"@[2] == 'b');
    assert("apply"@.len() == 5 && "-"@.len() == 1 && "--reverse"@.len() == 9);
    assert("--cached"@.len() == 8 && "--index"@.len() == 7);
    assert("--check"@ != "--cached"@ && "--check"@ != "--index"@);
    assert("--binary"@ != "--cached"@ && "--binary"@ != "--index"@);
}

proof fn lemma_apply_spares(cwd: Seq<char>, patch: Seq<char>)
    ensures
        leaves_history_alone(apply_run(cwd, patch)),
        leaves_history_alone(check_apply_run(cwd, patch)),
        leaves_history_alone(apply_reverse_run(cwd, patch)),
        leaves_history_alone(check_reverse_run(cwd, patch)),
{
    lemma_files_only(apply_run(cwd, patch).args);
    lemma_files_only(check_apply_run(cwd, patch).args);
    lemma_files_only(apply_reverse_run(cwd, patch).args);
    lemma_files_only(check_reverse_run(cwd, patch).args);
}

proof fn lemma_snapshot_spares(
    log: Seq<Reply>,
    at: nat,
    root: Seq<char>,
    state_dir: Seq<char>,
    parent: Seq<char>,
)
    ensures
        sparing(root, snapshot(log, at, root, state_dir, parent)),
        sparing(root, parent_snapshot(log, at, root, state_dir)),
{
    assert(forall|a: nat, i: Seq<char>, p: Seq<char>| sparing(
        root,
        #[trigger] snapshot_staged(log, a, root, i, p),
    ));
}

proof fn lemma_markers_spare(
    log: Seq<Reply>,
    at: nat,
    root: Seq<char>,
    directory: Seq<char>,
    k: int,
)
    ensures
        sparing(root, no_marker(log, at, directory, k)),
    decreases 6 - k,
{
    if k < 6 {
        lemma_markers_spare(log, at + 1, root, directory, k + 1);
    }
}

proof fn lemma_settled_spares(log: Seq<Reply>, at: nat, root: Seq<char>)
    ensures
        sparing(root, settled(log, at, root)),
{
    assert forall|a: nat, d: Seq<char>| sparing(root, #[trigger] no_marker(log, a, d, 0)) by {
        lemma_markers_spare(log, a, root, d, 0);
    }
}

proof fn lemma_observation_spares(log: Seq<Reply>, at: nat, state: GitView)
    ensures
        sparing(state.repo_root, observation(log, at, state)),
{
    let root = state.repo_root;
    assert forall|a: nat| sparing(root, #[trigger] settled(log, a, root)) by {
        lemma_settled_spares(log, a, root);
    }
    assert forall|a: nat| sparing(
        root,
        #[trigger] parent_snapshot(log, a, root, state.state_dir),
    ) by {
        lemma_snapshot_spares(log, a, root, state.state_dir, root);
    }
    assert(forall|a: nat, n: Seq<char>| sparing(root, #[trigger] difference(log, a, state, n)));
    assert(forall|a: nat, b: Seq<char>| sparing(root, #[trigger] on_branch(log, a, root, b)));
}

/// Whether two states belong to the same session, in the same mode.
pub open spec fn same_place(a: GitView, b: GitView) -> bool {
    &&& a.repo_root == b.repo_root
    &&& a.worktree == b.worktree
    &&& a.state_dir == b.state_dir
    &&& a.branch == b.branch
    &&& a.mode == b.mode
}

/// Whether a piece of work of a session, when it is done, leaves the session in its place.
pub open spec fn staying<T>(state: GitView, script: Script<(GitView, T)>) -> bool {
    script matches Script::Done(_, (next, _)) ==> same_place(state, next)
}

proof fn lemma_replay_items_spare(
    log: Seq<Reply>,
    at: nat,
    state: GitView,
    items: Seq<CommitView>,
    i: int,
)
    requires
        is_apart(state),
    ensures
        sparing(state.repo_root, replay_items(log, at, state, items, i)),
        staying(state, replay_items(log, at, state, items, i)),
    decreases items.len() - i,
{
    if 0 <= i < items.len() {
        match run(log, at, cherry_pick_as_agent_run(state.worktree, items[i].id)) {
            Script::Ask(_) => {},
            Script::Done(a, Ok(_)) => match readmit(log, a, state, items[i], true) {
                Script::Done(b, (next, Ok(_))) => {
                    lemma_replay_items_spare(log, b, next, items, i + 1);
                },
                _ => {},
            },
            Script::Done(a, Err(conflict)) => {
                if a < log.len() {
                    match run(log, a + 1, reset_hard_run(state.worktree, state.tip())) {
                        Script::Done(b, Ok(_)) => {
                            lemma_replay_items_spare(
                                log,
                                b,
                                state.noting(
                                    UiView::Sensory(
                                        discarded(items[i], "replay failed"@, conflict.1),
                                    ),
                                ),
                                items,
                                i + 1,
                            );
                        },
                        _ => {},
                    }
                }
            },
        }
    }
}

/// A replay asks for nothing that changes the parent's history or index.
proof fn lemma_replay_spares(log: Seq<Reply>, at: nat, state: GitView, baseline: Seq<char>)
    requires
        is_apart(state),
    ensures
        sparing(state.repo_root, replay(log, at, state, baseline)),
        staying(state, replay(log, at, state, baseline)),
{
    lemma_replay_items_spare(
        log,
        at + 1,
        GitView { commits: Seq::empty(), baseline, ..state },
        state.commits,
        0,
    );
}

proof fn lemma_synchronization_spares(log: Seq<Reply>, at: nat, state: GitView)
    requires
        is_apart(state),
    ensures
        sparing(state.repo_root, synchronization(log, at, state)),
        staying(state, synchronization(log, at, state)),
{
    lemma_observation_spares(log, at, state);
    match observation(log, at, state) {
        Script::Done(a, Ok(Some((next, diff)))) => {
            lemma_replay_spares(log, a, state, next);
        },
        _ => {},
    }
}

proof fn lemma_applying_spares(log: Seq<Reply>, at: nat, root: Seq<char>, cwd: Seq<char>, patch: Seq<char>)
    ensures
        sparing(root, applying(log, at, cwd, patch)),
        sparing(root, reversing(log, at, cwd, patch)),
{
    lemma_apply_spares(cwd, patch);
}

proof fn lemma_dependency_spares(log: Seq<Reply>, at: nat, state: GitView, i: int)
    requires
        is_apart(state),
    ensures
        sparing(state.repo_root, dependency(log, at, state, i)),
    decreases state.commits.len() - i,
{
    if 0 <= i < state.commits.len() - 1 {
        let first = state.commits[i].diff;
        let second = state.commits.last().diff;
        lemma_applies_after_spares(log, at, state, first, second);
        match applies_after(log, at, state, first, second) {
            Script::Ask(_) => {},
            Script::Done(a, _) => {
                lemma_dependency_spares(log, a, state, i + 1);
            },
        }
    }
}

proof fn lemma_applies_after_spares(
    log: Seq<Reply>,
    at: nat,
    state: GitView,
    first: Seq<char>,
    second: Seq<char>,
)
    ensures
        sparing(state.repo_root, applies_after(log, at, state, first, second)),
        sparing(state.repo_root, applies_alone(log, at, state, second)),
{
    assert(forall|a: nat, index: Seq<char>| sparing(
        state.repo_root,
        #[trigger] applies_on_top(log, a, state, index, first, second),
    ));
}

proof fn lemma_rebuilding_spares(
    log: Seq<Reply>,
    at: nat,
    state: GitView,
    dependency: int,
    i: int,
    rebuilt: Seq<CommitView>,
)
    requires
        is_apart(state),
    ensures
        sparing(state.repo_root, rebuilding(log, at, state, dependency, i, rebuilt)),
        staying(state, rebuilding(log, at, state, dependency, i, rebuilt)),
    decreases state.commits.len() - i,
{
    if 0 <= i < state.commits.len() - 1 {
        let item = state.commits[i];
        let newest = state.commits.last();
        let top = if i == dependency {
            Some(newest)
        } else {
            None
        };
        let told = if i == dependency {
            merged(item, newest)
        } else {
            item
        };
        lemma_restoring_spares(log, at, state, item, top);
        match restoring(log, at, state, item, top) {
            Script::Done(a, Ok(_)) => match committing(log, a, state.worktree, told.purpose) {
                Script::Done(b, Ok((id, diff))) => {
                    let named = if i == dependency {
                        state
                    } else {
                        GitView { aliases: state.aliases.insert(item.id, id), ..state }
                    };
                    lemma_rebuilding_spares(
                        log,
                        b,
                        named,
                        dependency,
                        i + 1,
                        rebuilt.push(CommitView { id, diff, ..told }),
                    );
                },
                _ => {},
            },
            _ => {},
        }
    }
}

proof fn lemma_restoring_spares(
    log: Seq<Reply>,
    at: nat,
    state: GitView,
    item: CommitView,
    newest: Option<CommitView>,
)
    requires
        is_apart(state),
    ensures
        sparing(state.repo_root, restoring(log, at, state, item, newest)),
{
}

proof fn lemma_collapse_spares(log: Seq<Reply>, at: nat, state: GitView)
    requires
        is_apart(state),
    ensures
        sparing(state.repo_root, collapse(log, at, state)),
        staying(state, collapse(log, at, state)),
{
    if state.commits.len() >= 2 {
        let newest = state.commits.last().diff;
        lemma_applies_after_spares(log, at, state, newest, newest);
        match applies_alone(log, at, state, newest) {
            Script::Done(a, Ok(false)) => {
                lemma_dependency_spares(log, a, state, 0);
                match dependency(log, a, state, 0) {
                    Script::Done(b, Some(i)) => {
                        lemma_merging_spares(log, b, state, i);
                    },
                    _ => {},
                }
            },
            _ => {},
        }
    }
}

proof fn lemma_merging_spares(log: Seq<Reply>, at: nat, state: GitView, dependency: int)
    requires
        is_apart(state),
    ensures
        sparing(state.repo_root, merging(log, at, state, dependency)),
        staying(state, merging(log, at, state, dependency)),
{
    lemma_rebuilding_spares(log, at + 1, state, dependency, 0, Seq::empty());
}

proof fn lemma_writing_spares(log: Seq<Reply>, at: nat, state: GitView, diff: Seq<char>)
    requires
        is_apart(state),
    ensures
        sparing(state.repo_root, writing(log, at, state, diff)),
        staying(state, writing(log, at, state, diff)),
{
    let root = state.repo_root;
    lemma_applying_spares(log, at, root, root, diff);
    match applying(log, at, root, diff) {
        Script::Done(a, Ok(_)) => {
            lemma_snapshot_spares(log, a, root, state.state_dir, root);
            match finalizing(log, a, state) {
                Script::Done(b, Err(_)) => {
                    lemma_applying_spares(log, b, root, root, diff);
                },
                _ => {},
            }
        },
        _ => {},
    }
}

proof fn lemma_finishing_spares(
    log: Seq<Reply>,
    at: nat,
    state: GitView,
    purpose: Seq<char>,
    rendered_diff: Seq<char>,
    changed_paths: Seq<Seq<char>>,
)
    requires
        is_apart(state),
    ensures
        sparing(
            state.repo_root,
            finishing(log, at, state, purpose, rendered_diff, changed_paths),
        ),
        staying(state, finishing(log, at, state, purpose, rendered_diff, changed_paths)),
{
    match deed(log, at, RequestView::Lock) {
        Script::Done(a, Ok(_)) => match on_branch(log, a, state.repo_root, state.branch) {
            Script::Done(b, Ok(_)) => match recording(
                log,
                b,
                state.worktree,
                purpose,
                rendered_diff,
            ) {
                Script::Done(c, Ok((id, diff))) => {
                    lemma_writing_spares(log, c, state, diff);
                    lemma_collapse_spares(
                        log,
                        c,
                        state.with_commit(CommitView { id, purpose, diff, changed_paths }),
                    );
                },
                _ => {},
            },
            _ => {},
        },
        _ => {},
    }
}

proof fn lemma_handing_over_spares(
    log: Seq<Reply>,
    at: nat,
    state: GitView,
    diff: Seq<char>,
    left: Seq<CommitView>,
    whole: bool,
)
    requires
        is_apart(state),
    ensures
        sparing(state.repo_root, handing_over(log, at, state, diff, left, whole)),
        staying(state, handing_over(log, at, state, diff, left, whole)),
{
    let root = state.repo_root;
    lemma_applying_spares(log, at, root, root, diff);
    match applying(log, at, root, diff) {
        Script::Done(a, Ok(_)) => {
            let fewer = GitView { commits: left, ..state };
            lemma_snapshot_spares(log, a, root, state.state_dir, root);
            match parent_snapshot(log, a, root, state.state_dir) {
                Script::Done(b, Ok(next)) => {
                    lemma_replay_spares(log, b, GitView { observed: next, ..fewer }, next);
                },
                _ => {},
            }
            match adopting(log, a, fewer) {
                Script::Done(b, (failed, Err(refusal))) => {
                    lemma_applying_spares(log, b, root, root, diff);
                    match reversing(log, b, root, diff) {
                        Script::Done(c, Ok(_)) => {
                            lemma_replay_spares(
                                log,
                                c,
                                GitView { commits: state.commits, ..failed },
                                state.baseline,
                            );
                        },
                        _ => {},
                    }
                },
                _ => {},
            }
        },
        _ => {},
    }
}

/// Whether a piece of work of a session, when it is done, leaves the session in its place, but
/// perhaps in another mode.
pub open spec fn remaining<T>(state: GitView, script: Script<(GitView, T)>) -> bool {
    script matches Script::Done(_, (next, _)) ==> same_place(
        GitView { mode: next.mode, ..state },
        next,
    )
}

proof fn lemma_obeying_spares(log: Seq<Reply>, at: nat, state: GitView, command: GitControlCommand)
    requires
        is_apart(state),
    ensures
        sparing(state.repo_root, obeying(log, at, state, command)),
        remaining(state, obeying(log, at, state, command)),
        !(command is SetMode) ==> staying(state, obeying(log, at, state, command)),
{
    lemma_applying_all_spares(log, at, state);
    match command {
        GitControlCommand::Apply(id) => {
            match crate::queue::named_position(state, id@) {
                Some(i) => {
                    lemma_handing_over_spares(
                        log,
                        at,
                        state,
                        state.commits[i].diff,
                        state.commits.remove(i),
                        false,
                    );
                },
                None => {},
            }
        },
        GitControlCommand::Discard(id) => {
            match crate::queue::named_position(state, id@) {
                Some(i) => {
                    lemma_replay_spares(
                        log,
                        at,
                        GitView { commits: state.commits.remove(i), ..state },
                        state.baseline,
                    );
                },
                None => {},
            }
        },
        _ => {},
    }
}

proof fn lemma_applying_all_spares(log: Seq<Reply>, at: nat, state: GitView)
    requires
        is_apart(state),
    ensures
        sparing(state.repo_root, applying_all(log, at, state)),
        staying(state, applying_all(log, at, state)),
{
    match crate::script::text(
        log,
        at,
        crate::command::git_diff_run(state.worktree, state.baseline, state.tip()),
    ) {
        Script::Done(a, Ok(diff)) => {
            lemma_handing_over_spares(log, a, state, diff, Seq::empty(), true);
        },
        _ => {},
    }
}

proof fn lemma_controlling_spares(
    log: Seq<Reply>,
    at: nat,
    state: GitView,
    command: GitControlCommand,
)
    requires
        is_apart(state),
    ensures
        sparing(state.repo_root, controlling(log, at, state, command)),
        remaining(state, controlling(log, at, state, command)),
        !(command is SetMode) ==> staying(state, controlling(log, at, state, command)),
{
    lemma_obeying_spares(log, at + 1, state, command);
}

proof fn lemma_storing_all_spares(
    log: Seq<Reply>,
    at: nat,
    root: Seq<char>,
    worktree: Seq<char>,
    files: Seq<ConflictFileView>,
    i: int,
)
    ensures
        sparing(root, storing_all(log, at, worktree, files, i)),
    decreases files.len() - i,
{
    if 0 <= i < files.len() {
        match storing(log, at, worktree, files[i]) {
            Script::Done(a, Ok(_)) => {
                lemma_storing_all_spares(log, a, root, worktree, files, i + 1);
            },
            _ => {},
        }
    }
}

proof fn lemma_reading_conflicts_spares(
    log: Seq<Reply>,
    at: nat,
    root: Seq<char>,
    worktree: Seq<char>,
    names: Seq<Seq<char>>,
    i: int,
    files: Seq<ConflictFileView>,
)
    ensures
        sparing(root, reading_conflicts(log, at, worktree, names, i, files)),
    decreases names.len() - i,
{
    if 0 <= i < names.len() {
        if names[i].len() == 0 {
            lemma_reading_conflicts_spares(log, at, root, worktree, names, i + 1, files);
        } else {
            match reading_conflict(log, at, worktree, names[i]) {
                Script::Done(a, Ok(file)) => {
                    lemma_reading_conflicts_spares(
                        log,
                        a,
                        root,
                        worktree,
                        names,
                        i + 1,
                        files.push(file),
                    );
                },
                _ => {},
            }
        }
    }
}

proof fn lemma_replaying_item_spares(log: Seq<Reply>, at: nat, state: GitView, item: CommitView)
    requires
        is_apart(state),
    ensures
        sparing(state.repo_root, replaying_item(log, at, state, item)),
        staying(state, replaying_item(log, at, state, item)),
{
    let root = state.repo_root;
    match deed(log, at, RequestView::Lock) {
        Script::Done(a, Ok(_)) => match run(log, a, cherry_pick_as_agent_run(state.worktree, item.id)) {
            Script::Done(b, Err(_)) => {
                match crate::script::text(
                    log,
                    b,
                    crate::command::unmerged_names_run(state.worktree),
                ) {
                    Script::Done(c, Ok(names)) => {
                        lemma_reading_conflicts_spares(
                            log,
                            c,
                            root,
                            state.worktree,
                            crate::scan::lines(names),
                            0,
                            Seq::empty(),
                        );
                    },
                    _ => {},
                }
                match capturing(log, b, state.worktree, item.purpose) {
                    Script::Done(c, Ok(conflict)) => {
                        if c + 1 < log.len() {
                            match log[(c + 1) as int] {
                                Reply::Resolved(files) => {
                                    lemma_adopting_resolution_spares(
                                        log,
                                        c + 2,
                                        state,
                                        item,
                                        conflict,
                                        crate::script::file_views(files@),
                                    );
                                },
                                _ => {},
                            }
                        }
                    },
                    _ => {},
                }
            },
            _ => {},
        },
        _ => {},
    }
}

proof fn lemma_adopting_resolution_spares(
    log: Seq<Reply>,
    at: nat,
    state: GitView,
    item: CommitView,
    conflict: ConflictView,
    resolved: Seq<ConflictFileView>,
)
    requires
        is_apart(state),
    ensures
        sparing(state.repo_root, adopting_resolution(log, at, state, item, conflict, resolved)),
        staying(state, adopting_resolution(log, at, state, item, conflict, resolved)),
{
    lemma_storing_all_spares(log, at + 1, state.repo_root, state.worktree, resolved, 0);
}

proof fn lemma_replaying_items_spare(
    log: Seq<Reply>,
    at: nat,
    state: GitView,
    items: Seq<CommitView>,
    i: int,
    changed: bool,
)
    requires
        is_apart(state),
    ensures
        sparing(state.repo_root, replaying_items(log, at, state, items, i, changed)),
        staying(state, replaying_items(log, at, state, items, i, changed)),
    decreases items.len() - i,
{
    if 0 <= i < items.len() {
        lemma_replaying_item_spares(log, at, state, items[i]);
        match replaying_item(log, at, state, items[i]) {
            Script::Done(a, (next, Ok(differs))) => {
                lemma_replaying_items_spare(log, a, next, items, i + 1, changed || differs);
            },
            _ => {},
        }
    }
}

proof fn lemma_synchronizing_spares(log: Seq<Reply>, at: nat, state: GitView)
    requires
        is_apart(state),
    ensures
        sparing(state.repo_root, synchronizing(log, at, state)),
        staying(state, synchronizing(log, at, state)),
{
    lemma_observation_spares(log, at, state);
    match observation(log, at, state) {
        Script::Done(a, Ok(Some((next, diff)))) => {
            lemma_replaying_items_spare(
                log,
                a + 1,
                GitView { commits: Seq::empty(), baseline: next, ..state },
                state.commits,
                0,
                false,
            );
        },
        _ => {},
    }
}

proof fn lemma_handling_spares(log: Seq<Reply>, state: GitView, command: GitControlCommand)
    requires
        is_apart(state),
    ensures
        sparing(state.repo_root, handling(log, 0, state, command)),
        sparing(state.repo_root, handling_resolved(log, 0, state, command)),
{
    lemma_synchronization_spares(log, 0, state);
    lemma_synchronizing_spares(log, 0, state);
    match synchronization(log, 0, state) {
        Script::Done(a, (next, Ok(_))) => {
            lemma_controlling_spares(log, a, next, command);
        },
        _ => {},
    }
    match synchronizing(log, 0, state) {
        Script::Done(a, (next, Ok(_))) => {
            lemma_controlling_spares(log, a, next, command);
        },
        _ => {},
    }
}

/// Whatever an open session is asked to do with patches, the parent or commands, and whatever the
/// replies are, it never asks for anything that would commit on the user's branch or change the
/// parent's index, and every commit that it asks for is the agent's.
pub proof fn the_parents_history_is_left_alone(
    log: Seq<Reply>,
    state: GitView,
    purpose: Seq<char>,
    rendered_diff: Seq<char>,
    changed_paths: Seq<Seq<char>>,
    command: GitControlCommand,
)
    requires
        is_apart(state),
    ensures
        sparing(state.repo_root, finishing(log, 0, state, purpose, rendered_diff, changed_paths)),
        sparing(state.repo_root, run(log, 0, reset_hard_run(state.worktree, "HEAD"@))),
        sparing(state.repo_root, synchronization(log, 0, state)),
        sparing(state.repo_root, synchronizing(log, 0, state)),
        sparing(state.repo_root, handling(log, 0, state, command)),
        sparing(state.repo_root, handling_resolved(log, 0, state, command)),
{
    lemma_finishing_spares(log, 0, state, purpose, rendered_diff, changed_paths);
    lemma_synchronization_spares(log, 0, state);
    lemma_synchronizing_spares(log, 0, state);
    lemma_handling_spares(log, state, command);
}

/// Whether a branch is one that a session made for itself.
pub open spec fn is_session_branch(branch: Seq<char>) -> bool {
    "nuillu/session/"@.is_prefix_of(branch)
}

/// Whether a run of Git only makes, removes or forgets a session's worktree, with the session's own
/// branch.
pub open spec fn minds_sessions(run: InvocationView) -> bool {
    ||| run.args.len() == 7 && run.args == seq![
        "worktree"@,
        "add"@,
        "--no-checkout"@,
        "-b"@,
        run.args[4],
        run.args[5],
        "HEAD"@,
    ] && is_session_branch(run.args[4])
    ||| run.args.len() == 4 && run.args == seq!["worktree"@, "remove"@, "--force"@, run.args[3]]
    ||| run.args == seq!["worktree"@, "prune"@]
    ||| run.args.len() == 3 && run.args == seq!["branch"@, "-D"@, run.args[2]] && is_session_branch(
        run.args[2],
    )
}

/// Whether a directory is the worktree of a session on a repository, below the repository's state
/// directory.
pub open spec fn is_session_worktree(root: Seq<char>, directory: Seq<char>) -> bool {
    exists|id: Seq<char>| directory == #[trigger] worktree_path(joined_path(root, ".nuillu"@), id)
}

/// Whether a run of Git, wherever it runs, leaves the user's branches and index alone, and makes
/// commits only as the agent: it is harmless in itself, it asks for a setting, or it minds sessions
/// and their branches.
pub open spec fn leaves_user_alone(run: InvocationView) -> bool {
    &&& {
        ||| leaves_history_alone(run)
        ||| run.args[0] == "config"@
        ||| minds_sessions(run)
    }
    &&& {
        ||| run.as_agent
        ||| makes_no_commit(run)
        ||| run.args[0] == "config"@
        ||| minds_sessions(run)
    }
}

/// Whether what a piece of work asks for next, if it is a run of Git, leaves the user's branches and
/// index alone.
pub open spec fn discreet<T>(script: Script<T>) -> bool {
    script matches Script::Ask(RequestView::Git(run)) ==> leaves_user_alone(run)
}

/// Whether what a piece of work asks for next, if it is a run of Git, leaves the user's branches and
/// index alone, or runs in the worktree of a session on the repository, which is not the user's,
/// and makes no commit there.
pub open spec fn discreet_at<T>(root: Seq<char>, script: Script<T>) -> bool {
    script matches Script::Ask(RequestView::Git(run)) ==> {
        ||| leaves_user_alone(run)
        ||| is_session_worktree(root, run.cwd) && run.cwd != root && makes_no_commit(run)
    }
}

proof fn lemma_session_worktree_is_apart(root: Seq<char>, id: Seq<char>)
    ensures
        worktree_path(joined_path(root, ".nuillu"@), id) != root,
{
    reveal_strlit(".nuillu");
    reveal_strlit("worktrees");
    assert(worktree_path(joined_path(root, ".nuillu"@), id).len() > root.len());
}

proof fn lemma_marker_discreet(log: Seq<Reply>, at: nat, directory: Seq<char>, k: int)
    ensures
        discreet(no_marker(log, at, directory, k)),
    decreases 6 - k,
{
    if k < 6 {
        lemma_marker_discreet(log, at + 1, directory, k + 1);
    }
}

proof fn lemma_settled_discreet(log: Seq<Reply>, at: nat, root: Seq<char>)
    ensures
        discreet(settled(log, at, root)),
{
    assert forall|a: nat, d: Seq<char>| discreet(#[trigger] no_marker(log, a, d, 0)) by {
        lemma_marker_discreet(log, a, d, 0);
    }
}

proof fn lemma_finding_root_discreet(log: Seq<Reply>, at: nat, cwd: Seq<char>, up: int)
    ensures
        discreet(finding_root(log, at, cwd, up)),
    decreases ancestor_count(cwd) - up,
{
    if 0 <= up < ancestor_count(cwd) {
        lemma_finding_root_discreet(log, at + 1, cwd, up + 1);
    }
}

proof fn lemma_locating_discreet(log: Seq<Reply>, at: nat, cwd: Seq<char>, executable: Seq<char>)
    ensures
        discreet(locating(log, at, cwd, executable)),
{
    assert forall|a: nat, here: Seq<char>| discreet(#[trigger] finding_root(log, a, here, 0)) by {
        lemma_finding_root_discreet(log, a, here, 0);
    }
}

proof fn lemma_scanning_discreet(log: Seq<Reply>, at: nat, stack: Seq<Seq<char>>)
    ensures
        discreet(scanning(log, at, stack)),
    decreases log.len() - at,
{
    if stack.len() > 0 && at < log.len() {
        match log[at as int] {
            Reply::Entries(entries) => {
                let rest = stack.drop_last() + inner_directories(stack.last(), entries@);
                lemma_scanning_discreet(log, at + 1, rest);
                if at + 1 < log.len() {
                    lemma_scanning_discreet(log, at + 2, rest);
                }
            },
            _ => {},
        }
    }
}

proof fn lemma_admitting_discreet(log: Seq<Reply>, at: nat, root: Seq<char>)
    ensures
        discreet(admitting(log, at, root)),
{
    lemma_settled_discreet(log, at, root);
    assert forall|a: nat| discreet(#[trigger] scanning(log, a, seq![root])) by {
        lemma_scanning_discreet(log, a, seq![root]);
    }
    assert(forall|a: nat| discreet(#[trigger] without_settings(log, a, root)));
    assert(forall|a: nat| discreet(#[trigger] without_filters(log, a, root)));
}

proof fn lemma_removing_discreet<T>(
    log: Seq<Reply>,
    at: nat,
    root: Seq<char>,
    worktree: Seq<char>,
    branch: Seq<char>,
    lock: Seq<char>,
    value: T,
)
    requires
        is_session_branch(branch),
    ensures
        discreet(removing_session(log, at, root, worktree, branch, lock, value)),
{
    assert(minds_sessions(remove_worktree_run(root, worktree)));
    assert(minds_sessions(delete_branch_run(root, branch)));
}

proof fn lemma_session_branch(id: Seq<char>)
    ensures
        is_session_branch(session_branch(id)),
{
    assert(session_branch(id).take("nuillu/session/"@.len() as int) =~= "nuillu/session/"@);
}

proof fn lemma_clearing_discreet(
    log: Seq<Reply>,
    at: nat,
    root: Seq<char>,
    state_dir: Seq<char>,
    locks: Seq<LockEntry>,
    i: int,
)
    ensures
        discreet(clearing_sessions(log, at, root, state_dir, locks, i)),
    decreases locks.len() - i,
{
    if 0 <= i < locks.len() {
        lemma_clearing_discreet(log, at, root, state_dir, locks, i + 1);
        lemma_clearing_discreet(log, at + 1, root, state_dir, locks, i + 1);
        match locks[i].stem {
            Some(id) => {
                lemma_session_branch(id@);
                lemma_removing_discreet(
                    log,
                    at + 1,
                    root,
                    worktree_path(state_dir, id@),
                    session_branch(id@),
                    locks[i].path@,
                    (),
                );
                lemma_clearing_discreet(log, at + 4, root, state_dir, locks, i + 1);
            },
            None => {},
        }
    }
}

proof fn lemma_making_room_discreet(
    log: Seq<Reply>,
    at: nat,
    root: Seq<char>,
    state_dir: Seq<char>,
)
    ensures
        discreet(making_room(log, at, root, state_dir)),
{
    assert forall|a: nat, locks: Seq<LockEntry>| discreet(
        #[trigger] clearing_sessions(log, a, root, state_dir, locks, 0),
    ) by {
        lemma_clearing_discreet(log, a, root, state_dir, locks, 0);
    }
    assert(minds_sessions(prune_worktrees_run(root)));
    assert(forall|a: nat| discreet(#[trigger] cleaning_up(log, a, root, state_dir)));
}

proof fn lemma_populating_discreet(
    log: Seq<Reply>,
    at: nat,
    root: Seq<char>,
    state_dir: Seq<char>,
    worktree: Seq<char>,
)
    requires
        is_session_worktree(root, worktree),
        worktree != root,
    ensures
        discreet_at(root, populating(log, at, root, state_dir, worktree)),
{
    assert(forall|a: nat, i: Seq<char>, p: Seq<char>| discreet(
        #[trigger] snapshot_staged(log, a, root, i, p),
    ));
}

proof fn lemma_founding_discreet(log: Seq<Reply>, at: nat, root: Seq<char>, branch: Seq<char>)
    ensures
        discreet_at(root, founding(log, at, root, branch)),
{
    let state_dir = joined_path(root, ".nuillu"@);
    match fresh_id(log, at) {
        Script::Done(a, Ok(id)) => {
            let worktree = worktree_path(state_dir, id);
            lemma_session_branch(id);
            lemma_session_worktree_is_apart(root, id);
            assert(is_session_worktree(root, worktree));
            assert(minds_sessions(add_worktree_run(root, session_branch(id), worktree)));
            lemma_populating_discreet(log, a + 2, root, state_dir, worktree);
            match populating(log, a + 2, root, state_dir, worktree) {
                Script::Done(b, Err(refusal)) => {
                    lemma_removing_discreet::<Result<GitView, Refusal>>(
                        log,
                        b,
                        root,
                        worktree,
                        session_branch(id),
                        lock_file(state_dir, id),
                        Err(refusal),
                    );
                },
                _ => {},
            }
        },
        _ => {},
    }
}

/// Opening a session and ending it leave the user's branches and index alone too: all that they
/// change is sessions' worktrees and the branches that sessions made for themselves, and every
/// commit that they ask for is the agent's. Nothing but these runs outside a session's worktree,
/// and in one nothing runs before the repository's root is known.
pub proof fn opening_and_ending_leave_the_user_alone(
    log: Seq<Reply>,
    cwd: Seq<char>,
    executable: Seq<char>,
    state: GitView,
)
    requires
        is_session_branch(state.session_branch),
    ensures
        match locating(log, 0, cwd, executable) {
            Script::Done(_, Ok(root)) => discreet_at(root, opening(log, 0, cwd, executable)),
            _ => discreet(opening(log, 0, cwd, executable)),
        },
        discreet(ending(log, 0, state)),
        opening(log, 0, cwd, executable) matches Script::Done(_, Ok(opened)) ==> is_session_branch(
            opened.session_branch,
        ),
{
    lemma_locating_discreet(log, 0, cwd, executable);
    match locating(log, 0, cwd, executable) {
        Script::Done(a, Ok(root)) => match identifying(log, a, root) {
            Script::Done(b, Ok(branch)) => {
                lemma_admitting_discreet(log, b, root);
                match admitting(log, b, root) {
                    Script::Done(c, Ok(_)) => {
                        let state_dir = joined_path(root, ".nuillu"@);
                        lemma_making_room_discreet(log, c, root, state_dir);
                        match making_room(log, c, root, state_dir) {
                            Script::Done(d, Ok(_)) => {
                                lemma_founding_discreet(log, d, root, branch);
                                match fresh_id(log, d) {
                                    Script::Done(_, Ok(id)) => {
                                        lemma_session_branch(id);
                                    },
                                    _ => {},
                                }
                            },
                            _ => {},
                        }
                    },
                    _ => {},
                }
            },
            _ => {},
        },
        _ => {},
    }
    lemma_removing_discreet(
        log,
        0,
        state.repo_root,
        state.worktree,
        state.session_branch,
        state.lock_path,
        (GitView { cleaned: true, ..state }, ()),
    );
}

/// Only the user changes the mode, by asking for it: patches and synchronization keep it, and so
/// does every command but the one that sets it.
pub proof fn only_the_user_changes_the_mode(
    log: Seq<Reply>,
    state: GitView,
    purpose: Seq<char>,
    rendered_diff: Seq<char>,
    changed_paths: Seq<Seq<char>>,
    command: GitControlCommand,
)
    requires
        is_apart(state),
    ensures
        staying(state, finishing(log, 0, state, purpose, rendered_diff, changed_paths)),
        staying(state, synchronization(log, 0, state)),
        staying(state, synchronizing(log, 0, state)),
        !(command is SetMode) ==> staying(state, handling(log, 0, state, command)),
        !(command is SetMode) ==> staying(state, handling_resolved(log, 0, state, command)),
{
    lemma_finishing_spares(log, 0, state, purpose, rendered_diff, changed_paths);
    lemma_synchronization_spares(log, 0, state);
    lemma_synchronizing_spares(log, 0, state);
    match synchronization(log, 0, state) {
        Script::Done(a, (next, Ok(_))) => {
            lemma_controlling_spares(log, a, next, command);
        },
        _ => {},
    }
    match synchronizing(log, 0, state) {
        Script::Done(a, (next, Ok(_))) => {
            lemma_controlling_spares(log, a, next, command);
        },
        _ => {},
    }
}

// ---------------------------------------------------------------------------------------------
// The parent's files
// ---------------------------------------------------------------------------------------------

/// Whether what a piece of work asks for next hands the parent no diff but the given one.
pub open spec fn handing_only<T>(root: Seq<char>, diff: Seq<char>, script: Script<T>) -> bool {
    script matches Script::Ask(RequestView::Git(run)) ==> run.cwd == root && run.input is Some
        ==> run.input == Some(diff)
}

proof fn lemma_snapshot_hands_nothing(
    log: Seq<Reply>,
    at: nat,
    root: Seq<char>,
    state_dir: Seq<char>,
    diff: Seq<char>,
)
    ensures
        handing_only(root, diff, parent_snapshot(log, at, root, state_dir)),
{
    assert(forall|a: nat, i: Seq<char>, p: Seq<char>| handing_only(
        root,
        diff,
        #[trigger] snapshot_staged(log, a, root, i, p),
    ));
}

/// A Write transaction applies its own diff to the parent, and takes back no other.
pub proof fn a_write_hands_over_its_own_diff_only(
    log: Seq<Reply>,
    at: nat,
    state: GitView,
    diff: Seq<char>,
)
    requires
        is_apart(state),
    ensures
        handing_only(state.repo_root, diff, writing(log, at, state, diff)),
{
    let root = state.repo_root;
    match applying(log, at, root, diff) {
        Script::Done(a, Ok(_)) => {
            lemma_snapshot_hands_nothing(log, a, root, state.state_dir, diff);
        },
        _ => {},
    }
}

/// Whether what a piece of work asks for next, if anything, does not run Git in the parent.
pub open spec fn keeping_out<T>(root: Seq<char>, script: Script<T>) -> bool {
    script matches Script::Ask(RequestView::Git(run)) ==> run.cwd != root
}

proof fn lemma_replay_keeps_out(
    log: Seq<Reply>,
    at: nat,
    state: GitView,
    items: Seq<CommitView>,
    i: int,
)
    requires
        is_apart(state),
    ensures
        keeping_out(state.repo_root, replay_items(log, at, state, items, i)),
    decreases items.len() - i,
{
    if 0 <= i < items.len() {
        match run(log, at, cherry_pick_as_agent_run(state.worktree, items[i].id)) {
            Script::Ask(_) => {},
            Script::Done(a, Ok(_)) => match readmit(log, a, state, items[i], true) {
                Script::Done(b, (next, Ok(_))) => {
                    lemma_replay_keeps_out(log, b, next, items, i + 1);
                },
                _ => {},
            },
            Script::Done(a, Err(conflict)) => {
                if a < log.len() {
                    match run(log, a + 1, reset_hard_run(state.worktree, state.tip())) {
                        Script::Done(b, Ok(_)) => {
                            lemma_replay_keeps_out(
                                log,
                                b,
                                state.noting(
                                    UiView::Sensory(
                                        discarded(items[i], "replay failed"@, conflict.1),
                                    ),
                                ),
                                items,
                                i + 1,
                            );
                        },
                        _ => {},
                    }
                }
            },
        }
    }
}

/// Applying a commit, or the whole queue, hands the parent that diff, and takes back no other.
pub proof fn an_apply_hands_over_its_own_diff_only(
    log: Seq<Reply>,
    at: nat,
    state: GitView,
    diff: Seq<char>,
    left: Seq<CommitView>,
    whole: bool,
)
    requires
        is_apart(state),
    ensures
        handing_only(state.repo_root, diff, handing_over(log, at, state, diff, left, whole)),
{
    let root = state.repo_root;
    match applying(log, at, root, diff) {
        Script::Done(a, Ok(_)) => {
            let fewer = GitView { commits: left, ..state };
            lemma_snapshot_hands_nothing(log, a, root, state.state_dir, diff);
            match parent_snapshot(log, a, root, state.state_dir) {
                Script::Done(b, Ok(next)) => {
                    lemma_replay_keeps_out(
                        log,
                        b + 1,
                        GitView { observed: next, commits: Seq::empty(), baseline: next, ..state },
                        left,
                        0,
                    );
                    lemma_replay_spares(log, b, GitView { observed: next, ..fewer }, next);
                },
                _ => {},
            }
            match adopting(log, a, fewer) {
                Script::Done(b, (failed, Err(refusal))) => {
                    match reversing(log, b, root, diff) {
                        Script::Done(c, Ok(_)) => {
                            lemma_replay_keeps_out(
                                log,
                                c + 1,
                                GitView {
                                    commits: Seq::empty(),
                                    baseline: state.baseline,
                                    ..failed
                                },
                                state.commits,
                                0,
                            );
                        },
                        _ => {},
                    }
                },
                _ => {},
            }
        },
        _ => {},
    }
}

/// An apply that the parent refuses changes nothing. One that fails later takes the diff back from
/// the parent and replays the whole queue where it stood before, or says that it could not.
pub proof fn a_failed_apply_is_taken_back(
    log: Seq<Reply>,
    at: nat,
    state: GitView,
    diff: Seq<char>,
    left: Seq<CommitView>,
    whole: bool,
    end: nat,
    next: GitView,
    refusal: Refusal,
)
    requires
        handing_over(log, at, state, diff, left, whole) == Script::<
            (GitView, Result<(), Refusal>),
        >::Done(end, (next, Err(refusal))),
    ensures
        next == state || exists|from: nat| #[trigger]
            apply_undone(log, from, state, diff, end, next),
{
    match applying(log, at, state.repo_root, diff) {
        Script::Done(a, Ok(_)) => match adopting(log, a, GitView { commits: left, ..state }) {
            Script::Done(b, (failed, Err(_))) => {
                match reversing(log, b, state.repo_root, diff) {
                    Script::Done(c, Ok(_)) => {
                        let before = GitView { commits: state.commits, ..failed };
                        assert(replays_to(log, c, before, state.baseline, end, next));
                    },
                    _ => {},
                }
                assert(apply_undone(log, b, state, diff, end, next));
            },
            _ => {},
        },
        _ => {},
    }
}

/// Whether a diff was taken back from a reply on and the queue replayed where it stood before, or
/// the diff could not be taken back.
pub open spec fn apply_undone(
    log: Seq<Reply>,
    from: nat,
    state: GitView,
    diff: Seq<char>,
    end: nat,
    next: GitView,
) -> bool {
    match reversing(log, from, state.repo_root, diff) {
        Script::Ask(_) => false,
        Script::Done(to, Err(_)) => to == end,
        Script::Done(to, Ok(_)) => exists|before: GitView|
            before.commits == state.commits && #[trigger] replays_to(
                log,
                to,
                before,
                state.baseline,
                end,
                next,
            ),
    }
}

/// Whether a replay from a reply on ends with a state.
pub open spec fn replays_to(
    log: Seq<Reply>,
    from: nat,
    state: GitView,
    baseline: Seq<char>,
    end: nat,
    next: GitView,
) -> bool {
    match replay(log, from, state, baseline) {
        Script::Ask(_) => false,
        Script::Done(to, (replayed, _)) => to == end && replayed == next,
    }
}

/// A Write transaction that works leaves no commit in the queue, and the snapshot that it ends on
/// counts as seen: nothing is said about the agent's own changes. One that fails leaves the
/// session as it was.
pub proof fn a_write_leaves_no_commit(log: Seq<Reply>, at: nat, state: GitView, diff: Seq<char>)
    ensures
        writing(log, at, state, diff) matches Script::Done(_, (next, result)) ==> match result {
            Ok(disposition) => {
                &&& disposition is WriteApplied
                &&& next.commits == state.commits
                &&& next.aliases == state.aliases
                &&& next.mode == state.mode
                &&& next.baseline == next.observed
                &&& next.outbox.len() == state.outbox.len() + 1
                &&& next.outbox.last() is State
            },
            Err(_) => next == state,
        },
{
}

/// How a Write transaction that has changed the parent can fail: the change was taken back, or
/// the failure says that it could not be.
pub proof fn a_failed_write_gives_the_files_back(
    log: Seq<Reply>,
    at: nat,
    applied: nat,
    state: GitView,
    diff: Seq<char>,
    end: nat,
    next: GitView,
    refusal: Refusal,
)
    requires
        applying(log, at, state.repo_root, diff) == Script::<Result<(), Refusal>>::Done(
            applied,
            Ok(()),
        ),
        writing(log, at, state, diff) == Script::<
            (GitView, Result<DispositionView, Refusal>),
        >::Done(end, (next, Err(refusal))),
    ensures
        exists|from: nat|
            applied <= from && #[trigger] taken_back(
                log,
                from,
                state.repo_root,
                diff,
                end,
                refusal,
            ),
{
    lemma_finalizing_grows(log, applied, state);
    match finalizing(log, applied, state) {
        Script::Done(from, Err(_)) => {
            assert(taken_back(log, from, state.repo_root, diff, end, refusal));
        },
        _ => {},
    }
}

/// Whether a diff was taken back from a reply on, before the `end`, or the failure says that it
/// could not be.
pub open spec fn taken_back(
    log: Seq<Reply>,
    from: nat,
    root: Seq<char>,
    diff: Seq<char>,
    end: nat,
    refusal: Refusal,
) -> bool {
    match reversing(log, from, root, diff) {
        Script::Ask(_) => false,
        Script::Done(to, Ok(_)) => to <= end,
        Script::Done(to, Err(worse)) => to <= end && refusal == crate::failure::within(
            "Write finalization failed and parent rollback also failed"@,
            worse,
        ),
    }
}

proof fn lemma_finalizing_grows(log: Seq<Reply>, at: nat, state: GitView)
    ensures
        finalizing(log, at, state) matches Script::Done(end, _) ==> at <= end,
{
    assert(forall|a: nat, i: Seq<char>, p: Seq<char>|
        (#[trigger] snapshot_staged(log, a, state.repo_root, i, p) matches Script::Done(end, _)
            ==> a <= end));
}

/// In Read-only every patch is refused, the session stays as it is, and the parent's files are
/// not touched.
pub proof fn read_only_refuses_patches(
    log: Seq<Reply>,
    at: nat,
    state: GitView,
    purpose: Seq<char>,
    rendered_diff: Seq<char>,
    changed_paths: Seq<Seq<char>>,
)
    requires
        is_apart(state),
        state.mode == WorkspaceMode::ReadOnly,
    ensures
        match finishing(log, at, state, purpose, rendered_diff, changed_paths) {
            Script::Done(_, (next, result)) => next == state && result is Err,
            Script::Ask(RequestView::Git(run)) => run.cwd == state.repo_root ==> run.input is None
                && run.args[0] == "symbolic-ref"@,
            Script::Ask(request) => request is Lock,
        },
{
}

/// A patch that Read-only refuses leaves the agent's worktree as it was too: the worktree is reset
/// to its commit and then cleaned of the files that the patch made, and the refusal comes only once
/// both have worked.
pub proof fn read_only_takes_patches_back(
    log: Seq<Reply>,
    at: nat,
    locked: nat,
    checked: nat,
    state: GitView,
    purpose: Seq<char>,
    rendered_diff: Seq<char>,
    changed_paths: Seq<Seq<char>>,
)
    requires
        state.mode == WorkspaceMode::ReadOnly,
        deed(log, at, RequestView::Lock) == Script::<Result<(), Refusal>>::Done(locked, Ok(())),
        on_branch(log, locked, state.repo_root, state.branch) == Script::<
            Result<(), Refusal>,
        >::Done(checked, Ok(())),
    ensures
        ({
            let script = finishing(log, at, state, purpose, rendered_diff, changed_paths);
            let reset = run(log, checked, reset_hard_run(state.worktree, "HEAD"@));
            let clean = run(log, checked + 1, clean_untracked_run(state.worktree));
            let worked = Script::<Result<(), Refusal>>::Done(checked + 1, Ok(()));
            &&& reset matches Script::Ask(request) ==> script == Script::<
                (GitView, Result<DispositionView, Refusal>),
            >::Ask(request)
            &&& reset == worked ==> (clean matches Script::Ask(request) ==> script == Script::<
                (GitView, Result<DispositionView, Refusal>),
            >::Ask(request))
            &&& script matches Script::Done(end, (next, Err(refusal))) ==> refusal.0
                == FailureKind::ReadOnly ==> reset == worked && clean == Script::<
                Result<(), Refusal>,
            >::Done(end, Ok(()))
        }),
{
}

// ---------------------------------------------------------------------------------------------
// Blocking
// ---------------------------------------------------------------------------------------------

/// A parent that is on another branch, or on none, blocks patches, synchronization and commands,
/// and the session stays as it is.
pub proof fn another_branch_blocks_everything(
    log: Seq<Reply>,
    state: GitView,
    locked: nat,
    end: nat,
    refusal: Refusal,
    purpose: Seq<char>,
    rendered_diff: Seq<char>,
    changed_paths: Seq<Seq<char>>,
    command: GitControlCommand,
)
    requires
        deed(log, 0, RequestView::Lock) == Script::<Result<(), Refusal>>::Done(locked, Ok(())),
        on_branch(log, locked, state.repo_root, state.branch) == Script::<
            Result<(), Refusal>,
        >::Done(end, Err(refusal)),
    ensures
        finishing(log, 0, state, purpose, rendered_diff, changed_paths) == Script::<
            (GitView, Result<DispositionView, Refusal>),
        >::Done(end, (state, Err(refusal))),
        synchronization(log, 0, state) == Script::<(GitView, Result<(), Refusal>)>::Done(
            end,
            (state, Err(refusal)),
        ),
        synchronizing(log, 0, state) == Script::<(GitView, Result<bool, Refusal>)>::Done(
            end,
            (state, Err(refusal)),
        ),
        handling(log, 0, state, command) == Script::<(GitView, Result<(), Refusal>)>::Done(
            end,
            (state, Err(refusal)),
        ),
        handling_resolved(log, 0, state, command) == Script::<
            (GitView, Result<(), Refusal>),
        >::Done(end, (state, Err(refusal))),
{
}

/// A parent whose files did not change leaves the session as it is, and nothing is said.
pub proof fn an_unchanged_parent_changes_nothing(log: Seq<Reply>, state: GitView, end: nat)
    requires
        observation(log, 0, state) == Script::<
            Result<Option<(Seq<char>, Seq<char>)>, Refusal>,
        >::Done(end, Ok(None)),
    ensures
        synchronization(log, 0, state) == Script::<(GitView, Result<(), Refusal>)>::Done(
            end,
            (state, Ok(())),
        ),
        synchronizing(log, 0, state) == Script::<(GitView, Result<bool, Refusal>)>::Done(
            end,
            (state, Ok(false)),
        ),
{
}

/// Where resolving conflicts changed what there is to review, the queue is not applied: neither
/// as a whole nor on the way to Write. The command does nothing but say so.
pub proof fn changed_reviews_are_not_applied(
    log: Seq<Reply>,
    state: GitView,
    end: nat,
    next: GitView,
    command: GitControlCommand,
)
    requires
        synchronizing(log, 0, state) == Script::<(GitView, Result<bool, Refusal>)>::Done(
            end,
            (next, Ok(true)),
        ),
        needs_new_review(command),
    ensures
        handling_resolved(log, 0, state, command) == Script::<
            (GitView, Result<(), Refusal>),
        >::Done(end, (next.noting(UiView::Error(review_again())).shown(), Ok(()))),
{
}

/// A mode that was selected is the mode, and on the way from Review to Write the queue was applied
/// first.
pub proof fn a_selected_mode_is_in_force(
    log: Seq<Reply>,
    at: nat,
    state: GitView,
    mode: WorkspaceMode,
)
    ensures
        selecting(log, at, state, mode) matches Script::Done(end, (next, Ok(_))) ==> next.mode
            == mode && (state.mode == WorkspaceMode::Review && mode == WorkspaceMode::Write ==> (
        applying_all(log, at, state) matches Script::Done(applied, (emptied, Ok(_))) && next
            == GitView { mode, ..emptied })),
{
}

// ---------------------------------------------------------------------------------------------
// The queue
// ---------------------------------------------------------------------------------------------

/// Whether a commit is another one made again: the same purpose and paths, with an identifier and
/// a diff of its own.
pub open spec fn made_again(item: CommitView, commit: CommitView) -> bool {
    item.purpose == commit.purpose && item.changed_paths == commit.changed_paths
}

/// Whether the commits from `base` on are some of the first `n` items made again, in their order:
/// `picks` says which.
pub open spec fn in_order(
    commits: Seq<CommitView>,
    base: int,
    items: Seq<CommitView>,
    n: int,
    picks: Seq<int>,
) -> bool {
    &&& commits.len() == base + picks.len()
    &&& forall|k: int|
        0 <= k < picks.len() ==> 0 <= #[trigger] picks[k] < n && made_again(
            items[picks[k]],
            commits[base + k],
        )
    &&& forall|j: int, k: int| 0 <= j < k < picks.len() ==> #[trigger] picks[j] < #[trigger] picks[k]
}

proof fn lemma_replay_order(
    log: Seq<Reply>,
    at: nat,
    state: GitView,
    items: Seq<CommitView>,
    i: int,
    picks: Seq<int>,
) -> (all: Seq<int>)
    requires
        0 <= i <= items.len(),
        in_order(state.commits, 0, items, i, picks),
    ensures
        replay_items(log, at, state, items, i) matches Script::Done(_, (next, Ok(_))) ==> in_order(
            next.commits,
            0,
            items,
            items.len() as int,
            all,
        ) && next.outbox.len() + next.commits.len() == state.outbox.len() + state.commits.len() + (
        items.len() - i),
    decreases items.len() - i,
{
    if i < items.len() {
        match run(log, at, cherry_pick_as_agent_run(state.worktree, items[i].id)) {
            Script::Ask(_) => picks,
            Script::Done(a, Ok(_)) => match readmit(log, a, state, items[i], true) {
                Script::Done(b, (next, Ok(_))) => {
                    assert(in_order(next.commits, 0, items, i + 1, picks.push(i)));
                    lemma_replay_order(log, b, next, items, i + 1, picks.push(i))
                },
                _ => picks,
            },
            Script::Done(a, Err(conflict)) => {
                if a < log.len() {
                    match run(log, a + 1, reset_hard_run(state.worktree, state.tip())) {
                        Script::Done(b, Ok(_)) => {
                            let next = state.noting(
                                UiView::Sensory(
                                    discarded(items[i], "replay failed"@, conflict.1),
                                ),
                            );
                            lemma_replay_order(log, b, next, items, i + 1, picks)
                        },
                        _ => picks,
                    }
                } else {
                    picks
                }
            },
        }
    } else {
        picks
    }
}

/// A replay that ends well keeps the commits that still fit, with their purposes and paths and in
/// their order, and says a word about each of the others. The session stands on the new snapshot.
pub proof fn a_replay_keeps_the_order(
    log: Seq<Reply>,
    at: nat,
    state: GitView,
    baseline: Seq<char>,
    end: nat,
    next: GitView,
)
    requires
        replay(log, at, state, baseline) == Script::<(GitView, Result<(), Refusal>)>::Done(
            end,
            (next, Ok(())),
        ),
    ensures
        exists|picks: Seq<int>|
            #[trigger] in_order(
                next.commits,
                0,
                state.commits,
                state.commits.len() as int,
                picks,
            ),
        next.outbox.len() + next.commits.len() == state.outbox.len() + state.commits.len(),
        next.baseline == baseline,
{
    let based = GitView { commits: Seq::empty(), baseline, ..state };
    let picks = lemma_replay_order(log, at + 1, based, state.commits, 0, Seq::empty());
    lemma_replay_baseline(log, at + 1, based, state.commits, 0);
}

proof fn lemma_replay_baseline(
    log: Seq<Reply>,
    at: nat,
    state: GitView,
    items: Seq<CommitView>,
    i: int,
)
    ensures
        replay_items(log, at, state, items, i) matches Script::Done(_, (next, _)) ==> next.baseline
            == state.baseline,
    decreases items.len() - i,
{
    if 0 <= i < items.len() {
        match run(log, at, cherry_pick_as_agent_run(state.worktree, items[i].id)) {
            Script::Ask(_) => {},
            Script::Done(a, Ok(_)) => match readmit(log, a, state, items[i], true) {
                Script::Done(b, (next, Ok(_))) => {
                    lemma_replay_baseline(log, b, next, items, i + 1);
                },
                _ => {},
            },
            Script::Done(a, Err(conflict)) => {
                if a < log.len() {
                    match run(log, a + 1, reset_hard_run(state.worktree, state.tip())) {
                        Script::Done(b, Ok(_)) => {
                            lemma_replay_baseline(
                                log,
                                b,
                                state.noting(
                                    UiView::Sensory(
                                        discarded(items[i], "replay failed"@, conflict.1),
                                    ),
                                ),
                                items,
                                i + 1,
                            );
                        },
                        _ => {},
                    }
                }
            },
        }
    }
}

proof fn lemma_replaying_item(log: Seq<Reply>, at: nat, state: GitView, item: CommitView)
    ensures
        replaying_item(log, at, state, item) matches Script::Done(_, (next, Ok(changed))) ==> {
            &&& next.baseline == state.baseline
            &&& next.commits == state.commits || (next.commits.len() == state.commits.len() + 1
                && next.commits.drop_last() == state.commits && made_again(
                item,
                next.commits.last(),
            ))
            &&& !changed ==> next.commits.len() == state.commits.len() + 1
        },
{
    assert(forall|c: CommitView| #[trigger]
        state.commits.push(c).drop_last() =~= state.commits && state.commits.push(c).last() == c);
}

proof fn lemma_resolved_order(
    log: Seq<Reply>,
    at: nat,
    state: GitView,
    items: Seq<CommitView>,
    i: int,
    changed: bool,
    picks: Seq<int>,
) -> (all: Seq<int>)
    requires
        0 <= i <= items.len(),
        in_order(state.commits, 0, items, i, picks),
        !changed ==> state.commits.len() == i,
    ensures
        replaying_items(log, at, state, items, i, changed) matches Script::Done(
            _,
            (next, Ok(differs)),
        ) ==> in_order(next.commits, 0, items, items.len() as int, all) && next.baseline
            == state.baseline && (!differs ==> next.commits.len() == items.len()),
    decreases items.len() - i,
{
    if i < items.len() {
        lemma_replaying_item(log, at, state, items[i]);
        match replaying_item(log, at, state, items[i]) {
            Script::Done(a, (next, Ok(differs))) => {
                if next.commits == state.commits {
                    lemma_resolved_order(log, a, next, items, i + 1, changed || differs, picks)
                } else {
                    let more = picks.push(i);
                    assert forall|k: int| 0 <= k < more.len() implies 0 <= #[trigger] more[k] < i + 1
                        && made_again(items[more[k]], next.commits[0 + k]) by {
                        if k < picks.len() {
                            assert(more[k] == picks[k]);
                            assert(next.commits[k] == next.commits.drop_last()[k]);
                        }
                    }
                    assert(in_order(next.commits, 0, items, i + 1, more));
                    lemma_resolved_order(log, a, next, items, i + 1, changed || differs, more)
                }
            },
            _ => picks,
        }
    } else {
        picks
    }
}

/// A replay with resolved conflicts keeps the commits in their order too, and where it says that
/// nothing there is to review changed, no commit is missing.
pub proof fn a_resolved_replay_keeps_the_order(
    log: Seq<Reply>,
    at: nat,
    state: GitView,
    baseline: Seq<char>,
    end: nat,
    next: GitView,
    changed: bool,
)
    requires
        replaying(log, at, state, baseline) == Script::<(GitView, Result<bool, Refusal>)>::Done(
            end,
            (next, Ok(changed)),
        ),
    ensures
        exists|picks: Seq<int>|
            #[trigger] in_order(
                next.commits,
                0,
                state.commits,
                state.commits.len() as int,
                picks,
            ),
        !changed ==> next.commits.len() == state.commits.len(),
        next.baseline == baseline,
{
    let based = GitView { commits: Seq::empty(), baseline, ..state };
    let picks = lemma_resolved_order(
        log,
        at + 1,
        based,
        state.commits,
        0,
        false,
        Seq::empty(),
    );
}

/// A commit that is replayed is found under the identifier that it had before, unless its new
/// identifier stood for another one already.
pub proof fn a_replayed_commit_is_found_under_its_old_identifier(
    log: Seq<Reply>,
    at: nat,
    state: GitView,
    item: CommitView,
    end: nat,
    next: GitView,
)
    requires
        state.aliases.dom().finite(),
        readmit(log, at, state, item, true) == Script::<(GitView, Result<(), Refusal>)>::Done(
            end,
            (next, Ok(())),
        ),
        !state.aliases.dom().contains(next.commits.last().id),
        next.commits.last().id != item.id,
    ensures
        made_again(item, next.commits.last()),
        resolved_alias(next.aliases, Set::empty(), item.id) == next.commits.last().id,
{
    let chain = seq![item.id, next.commits.last().id];
    assert(chain.last() == next.commits.last().id);
    earlier_identifiers_lead_to_the_last(next.aliases, chain, 0);
}

/// What the commits of a queue say after its newest one was merged into another.
pub open spec fn merged_queue(
    commits: Seq<CommitView>,
    dependency: int,
    rebuilt: Seq<CommitView>,
    n: int,
) -> bool {
    &&& rebuilt.len() == n
    &&& forall|i: int|
        0 <= i < n ==> made_again(
            if i == dependency {
                merged(commits[i], commits.last())
            } else {
                commits[i]
            },
            #[trigger] rebuilt[i],
        )
}

proof fn lemma_rebuilding(
    log: Seq<Reply>,
    at: nat,
    state: GitView,
    dependency: int,
    i: int,
    rebuilt: Seq<CommitView>,
)
    requires
        0 <= i <= state.commits.len() - 1,
        merged_queue(state.commits, dependency, rebuilt, i),
    ensures
        rebuilding(log, at, state, dependency, i, rebuilt) matches Script::Done(
            _,
            (next, result),
        ) ==> next.commits == state.commits && (result matches Ok(commits) ==> merged_queue(
            state.commits,
            dependency,
            commits,
            state.commits.len() - 1,
        )),
    decreases state.commits.len() - i,
{
    if i < state.commits.len() - 1 {
        let item = state.commits[i];
        let newest = state.commits.last();
        let top = if i == dependency {
            Some(newest)
        } else {
            None
        };
        let told = if i == dependency {
            merged(item, newest)
        } else {
            item
        };
        match restoring(log, at, state, item, top) {
            Script::Done(a, Ok(_)) => match committing(log, a, state.worktree, told.purpose) {
                Script::Done(b, Ok((id, diff))) => {
                    let named = if i == dependency {
                        state
                    } else {
                        GitView { aliases: state.aliases.insert(item.id, id), ..state }
                    };
                    lemma_rebuilding(
                        log,
                        b,
                        named,
                        dependency,
                        i + 1,
                        rebuilt.push(CommitView { id, diff, ..told }),
                    );
                },
                _ => {},
            },
            _ => {},
        }
    }
}

/// A commit that depends on one other is merged with that one alone: the queue gets one commit
/// shorter, and the others keep their purposes, paths and places. Where the merge fails, the
/// queue stays as it was.
pub proof fn a_dependent_commit_joins_the_one_it_needs(
    log: Seq<Reply>,
    at: nat,
    state: GitView,
    dependency: int,
)
    requires
        state.commits.len() >= 2,
    ensures
        merging(log, at, state, dependency) matches Script::Done(_, (next, result)) ==> match result {
            Ok(_) => merged_queue(
                state.commits,
                dependency,
                next.commits,
                state.commits.len() - 1,
            ),
            Err(_) => next.commits == state.commits,
        },
{
    lemma_rebuilding(log, at + 1, state, dependency, 0, Seq::empty());
}

/// A queue whose newest commit applies alone stays as it is.
pub proof fn independent_commits_stay_apart(log: Seq<Reply>, at: nat, state: GitView, end: nat)
    requires
        state.commits.len() >= 2,
        applies_alone(log, at, state, state.commits.last().diff) == Script::<
            Result<bool, Refusal>,
        >::Done(end, Ok(true)),
    ensures
        collapse(log, at, state) == Script::<(GitView, Result<(), Refusal>)>::Done(
            end,
            (state, Ok(())),
        ),
{
}

// ---------------------------------------------------------------------------------------------
// Conflicts
// ---------------------------------------------------------------------------------------------

/// Whether a file stays inside the worktree and holds no leftover markers.
pub open spec fn is_clean(file: ConflictFileView) -> bool {
    &&& is_conflict_path(file.path)
    &&& file.content matches Some(content) ==> !has_marker(content)
}

proof fn lemma_stored_files_are_clean(
    log: Seq<Reply>,
    at: nat,
    worktree: Seq<char>,
    files: Seq<ConflictFileView>,
    i: int,
)
    requires
        0 <= i <= files.len(),
    ensures
        storing_all(log, at, worktree, files, i) matches Script::Done(_, Ok(_)) ==> forall|k: int|
            i <= k < files.len() ==> is_clean(#[trigger] files[k]),
    decreases files.len() - i,
{
    if i < files.len() {
        match storing(log, at, worktree, files[i]) {
            Script::Done(a, Ok(_)) => {
                lemma_stored_files_are_clean(log, a, worktree, files, i + 1);
            },
            _ => {},
        }
    }
}

/// A resolution that is taken over holds each path in conflict once and no other, stays inside
/// the worktree, and holds no leftover markers.
pub proof fn accepted_resolutions_are_complete_and_clean(
    log: Seq<Reply>,
    at: nat,
    worktree: Seq<char>,
    conflict: ConflictView,
    resolved: Seq<ConflictFileView>,
    end: nat,
)
    requires
        resolving(log, at, worktree, conflict, resolved) == Script::<Result<(), Refusal>>::Done(
            end,
            Ok(()),
        ),
    ensures
        covers(conflict, resolved),
        forall|k: int|
            0 <= k < resolved.len() ==> is_clean(#[trigger] resolved[k]),
{
    lemma_stored_files_are_clean(log, at, worktree, resolved, 0);
}

/// A commit whose conflict cannot be resolved goes alone, and its whole diff and the reason are
/// told; the rest of the queue stays.
pub proof fn a_failed_resolution_drops_one_commit(
    state: GitView,
    item: CommitView,
    refusal: Refusal,
)
    ensures
        state.without_conflicting(item, refusal).commits == state.commits,
        state.without_conflicting(item, refusal).outbox == state.outbox.push(
            UiView::Sensory(discarded(item, "conflict resolution failed"@, refusal.1)),
        ),
{
}

// ---------------------------------------------------------------------------------------------
// Sessions
// ---------------------------------------------------------------------------------------------

/// Every session starts in Read-only with an empty queue and in a worktree of its own. The snapshot
/// it starts from counts as seen: nothing is said about it.
pub proof fn a_session_starts_read_only(
    log: Seq<Reply>,
    at: nat,
    cwd: Seq<char>,
    executable: Seq<char>,
    end: nat,
    state: GitView,
)
    requires
        opening(log, at, cwd, executable) == Script::<Result<GitView, Refusal>>::Done(
            end,
            Ok(state),
        ),
    ensures
        state.mode == WorkspaceMode::ReadOnly,
        state.commits.len() == 0,
        state.baseline == state.observed,
        state.outbox.len() == 1 && state.outbox[0] is State,
        is_apart(state),
{
    assert(forall|root: Seq<char>, branch: Seq<char>, id: Seq<char>, baseline: Seq<char>|
        (#[trigger] new_session(root, branch, id, baseline)).worktree.len() > root.len()) by {
        reveal_strlit(".nuillu");
        reveal_strlit("worktrees");
    }
}

/// The sessions of others are left alone for a day: while no lock file is older, none is tried and
/// nothing is removed.
pub proof fn young_sessions_are_left_alone(
    log: Seq<Reply>,
    at: nat,
    root: Seq<char>,
    state_dir: Seq<char>,
    locks: Seq<LockEntry>,
    i: int,
)
    requires
        0 <= i <= locks.len(),
        forall|k: int|
            i <= k < locks.len() ==> (#[trigger] locks[k]).age_seconds < STALE_WORKTREE_SECONDS,
    ensures
        clearing_sessions(log, at, root, state_dir, locks, i) == Script::<
            Result<(), Refusal>,
        >::Done(at, Ok(())),
    decreases locks.len() - i,
{
    if i < locks.len() {
        young_sessions_are_left_alone(log, at, root, state_dir, locks, i + 1);
    }
}

/// Ending a session twice asks for nothing the second time.
pub proof fn a_session_ends_once(log: Seq<Reply>, at: nat, state: GitView, end: nat, ended: GitView)
    requires
        ending(log, at, state) == Script::<(GitView, ())>::Done(end, (ended, ())),
    ensures
        ending(log, end, ended) == Script::<(GitView, ())>::Done(end, (ended, ())),
{
}

// ---------------------------------------------------------------------------------------------
// Identifiers
// ---------------------------------------------------------------------------------------------

/// Session identifiers differ wherever time, process or count differ, and hold nothing but
/// hexadecimal digits and hyphens.
pub proof fn session_ids_are_distinct_and_plain(
    nanos: u128,
    process: u32,
    counter: u64,
    other_nanos: u128,
    other_process: u32,
    other_counter: u64,
)
    ensures
        session_id(nanos, process, counter) == session_id(other_nanos, other_process, other_counter)
            ==> nanos == other_nanos && process == other_process && counter == other_counter,
        forall|i: int|
            0 <= i < session_id(nanos, process, counter).len() ==> is_lower_hex(
                #[trigger] session_id(nanos, process, counter)[i],
            ) || session_id(nanos, process, counter)[i] == '-',
{
    let a = session_id(nanos, process, counter);
    let b = session_id(other_nanos, other_process, other_counter);
    reveal_strlit("-");
    hex_padded_is_hexadecimal(nanos as nat, 32);
    hex_padded_is_hexadecimal(process as nat, 8);
    hex_padded_is_hexadecimal(counter as nat, 16);
    hex_padded_is_hexadecimal(other_nanos as nat, 32);
    hex_padded_is_hexadecimal(other_process as nat, 8);
    hex_padded_is_hexadecimal(other_counter as nat, 16);
    lemma_hex_ranges();
    lemma_hex_padded_len(nanos as nat, 32);
    lemma_hex_padded_len(process as nat, 8);
    lemma_hex_padded_len(counter as nat, 16);
    lemma_hex_padded_len(other_nanos as nat, 32);
    lemma_hex_padded_len(other_process as nat, 8);
    lemma_hex_padded_len(other_counter as nat, 16);
    assert forall|i: int| 0 <= i < a.len() implies is_lower_hex(#[trigger] a[i]) || a[i] == '-' by {
        if i < 32 {
            assert(a[i] == hex_padded(nanos as nat, 32)[i]);
        } else if 33 <= i < 41 {
            assert(a[i] == hex_padded(process as nat, 8)[i - 33]);
        } else if i >= 42 {
            assert(a[i] == hex_padded(counter as nat, 16)[i - 42]);
        }
    }
    if a == b {
        assert(a.subrange(0, 32) =~= hex_padded(nanos as nat, 32));
        assert(b.subrange(0, 32) =~= hex_padded(other_nanos as nat, 32));
        assert(a.subrange(33, 41) =~= hex_padded(process as nat, 8));
        assert(b.subrange(33, 41) =~= hex_padded(other_process as nat, 8));
        assert(a.subrange(42, 58) =~= hex_padded(counter as nat, 16));
        assert(b.subrange(42, 58) =~= hex_padded(other_counter as nat, 16));
        hex_padded_is_injective(nanos as nat, other_nanos as nat, 32);
        hex_padded_is_injective(process as nat, other_process as nat, 8);
        hex_padded_is_injective(counter as nat, other_counter as nat, 16);
    }
}

proof fn lemma_hex_ranges()
    ensures
        hex_range(8) == 0x1_0000_0000,
        hex_range(16) == 0x1_0000_0000_0000_0000,
        hex_range(32) == 0x1_0000_0000_0000_0000_0000_0000_0000_0000,
{
    reveal_with_fuel(hex_range, 33);
}

} // verus!
