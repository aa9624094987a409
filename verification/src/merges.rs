//! How the queue is kept independent: what the trials ask for, and what becomes of commits that depend on
//! each other.
use vstd::prelude::*;

use crate::command::InvocationView;
use crate::conflict::{adopting_resolution, capturing, having_resolved, recommitting, replaying,
    replaying_item, replaying_items, resolving};
use crate::effects::{asks, below, git, git_as_agent, git_beside, is_applied, lemma_applied,
    lemma_run_text, lemma_word, worked, wrote, wrote_word};
use crate::failure::Refusal;
use crate::git::{CommitView, GitControlCommand, UiView, WorkspaceMode};
use crate::queue::{all_paths, applies_after, applies_alone, applying, combination, committing,
    controlling, dependency, handling, merged, merging, obeying, rebuilding, restoring};
use crate::review::{session_id, synchronization, GitView};
use crate::scan::joined;
use crate::script::{file_views, reply_refusal, run_done, ConflictFileView, ConflictView, Reply,
    RequestView, Script};
use crate::sorted::{is_sorted_set, sorted_members};

verus! {

/// A run of Git in a directory with an index file of its own, on a text.
pub open spec fn git_trial(
    cwd: Seq<char>,
    args: Seq<Seq<char>>,
    index: Seq<char>,
    input: Seq<char>,
) -> RequestView {
    RequestView::Git(
        InvocationView { cwd, args, as_agent: false, index: Some(index), input: Some(input) },
    )
}

/// Whether an index of its own is filled from the snapshot on which the queue stands, by two requests
/// after `p` replies.
pub open spec fn is_prepared<T>(
    work: spec_fn(Seq<Reply>) -> Script<T>,
    log: Seq<Reply>,
    p: int,
    state: GitView,
    name: Seq<char>,
    index: Seq<char>,
) -> bool {
    &&& asks(work, log, p, RequestView::FreshId)
    &&& log[p] matches Reply::Id { nanos, process, counter } && index == below(
        state.state_dir,
        name + session_id(nanos, process, counter) + ".index"@,
    )
    &&& asks(
        work,
        log,
        p + 1,
        git_beside(state.repo_root, seq!["read-tree"@, state.baseline], index),
    )
    &&& worked(log[p + 1])
}

/// A commit counts as independent exactly if Git can apply its diff to the snapshot on which the queue
/// stands, in an index of its own that is removed again.
pub proof fn a_trial_alone_asks_git(
    log: Seq<Reply>,
    at: nat,
    state: GitView,
    patch: Seq<char>,
    end: nat,
    answer: bool,
)
    requires
        applies_alone(log, at, state, patch) == Script::<Result<bool, Refusal>>::Done(
            end,
            Ok(answer),
        ),
    ensures
        end == at + 4,
        answer <==> worked(log[(at + 2) as int]),
        ({
            let work = |l: Seq<Reply>| applies_alone(l, at, state, patch);
            exists|index: Seq<char>|
                {
                    &&& #[trigger] is_prepared(work, log, at as int, state, "dependency-"@, index)
                    &&& asks(
                        work,
                        log,
                        (at + 2) as int,
                        git_trial(
                            state.repo_root,
                            seq!["apply"@, "--cached"@, "--check"@, "--binary"@, "-"@],
                            index,
                            patch,
                        ),
                    )
                    &&& asks(work, log, (at + 3) as int, RequestView::RemoveFile(index))
                }
        }),
{
    let work = |l: Seq<Reply>| applies_alone(l, at, state, patch);
    assert(at + 2 < log.len());
    lemma_run_text(log[(at + 1) as int]);
    let id = crate::review::fresh_id(log, at)->Done_1->Ok_0;
    let index = below(state.state_dir, "dependency-"@ + id + ".index"@);
    let l1 = log.take((at + 1) as int);
    let l2 = log.take((at + 2) as int);
    let l3 = log.take((at + 3) as int);
    assert(l1[at as int] == log[at as int]);
    assert(l2[at as int] == log[at as int] && l2[(at + 1) as int] == log[(at + 1) as int]);
    assert(l3[at as int] == log[at as int] && l3[(at + 1) as int] == log[(at + 1) as int]);
    assert(l3[(at + 2) as int] == log[(at + 2) as int]);
    assert(log.take(at as int).len() == at);
    assert(is_prepared(work, log, at as int, state, "dependency-"@, index));
}

/// A commit counts as one that another needs exactly if Git can apply the diffs of both, one on top of
/// the other, to the snapshot on which the queue stands.
pub proof fn a_trial_on_top_asks_git(
    log: Seq<Reply>,
    at: nat,
    state: GitView,
    first: Seq<char>,
    second: Seq<char>,
    end: nat,
    answer: bool,
)
    requires
        applies_after(log, at, state, first, second) == Script::<Result<bool, Refusal>>::Done(
            end,
            Ok(answer),
        ),
    ensures
        answer <==> worked(log[(at + 2) as int]) && worked(log[(at + 3) as int]),
        worked(log[(at + 2) as int]) ==> end == at + 5,
        !worked(log[(at + 2) as int]) ==> end == at + 4,
        ({
            let work = |l: Seq<Reply>| applies_after(l, at, state, first, second);
            exists|index: Seq<char>|
                {
                    &&& #[trigger] is_prepared(work, log, at as int, state, "dependency-pair-"@, index)
                    &&& asks(
                        work,
                        log,
                        (at + 2) as int,
                        git_trial(
                            state.repo_root,
                            seq!["apply"@, "--cached"@, "--binary"@, "-"@],
                            index,
                            first,
                        ),
                    )
                    &&& worked(log[(at + 2) as int]) ==> asks(
                        work,
                        log,
                        (at + 3) as int,
                        git_trial(
                            state.repo_root,
                            seq!["apply"@, "--cached"@, "--check"@, "--binary"@, "-"@],
                            index,
                            second,
                        ),
                    )
                    &&& asks(work, log, end - 1, RequestView::RemoveFile(index))
                }
        }),
{
    let work = |l: Seq<Reply>| applies_after(l, at, state, first, second);
    assert(at + 2 < log.len());
    lemma_run_text(log[(at + 1) as int]);
    let id = crate::review::fresh_id(log, at)->Done_1->Ok_0;
    let index = below(state.state_dir, "dependency-pair-"@ + id + ".index"@);
    let l1 = log.take((at + 1) as int);
    let l2 = log.take((at + 2) as int);
    let l3 = log.take((at + 3) as int);
    assert(l1[at as int] == log[at as int]);
    assert(l2[at as int] == log[at as int] && l2[(at + 1) as int] == log[(at + 1) as int]);
    assert(l3[at as int] == log[at as int] && l3[(at + 1) as int] == log[(at + 1) as int]);
    assert(l3[(at + 2) as int] == log[(at + 2) as int]);
    if worked(log[(at + 2) as int]) {
        let l4 = log.take((at + 4) as int);
        assert(l4[at as int] == log[at as int] && l4[(at + 1) as int] == log[(at + 1) as int]);
        assert(l4[(at + 2) as int] == log[(at + 2) as int]);
        assert(l4[(at + 3) as int] == log[(at + 3) as int]);
    }
    assert(log.take(at as int).len() == at);
    assert(is_prepared(work, log, at as int, state, "dependency-pair-"@, index));
}

/// Whether trials of the newest commit on top of each of the first `n` commits, one after another from the
/// given replies on, all failed.
pub open spec fn all_failed(log: Seq<Reply>, state: GitView, starts: Seq<nat>, n: int) -> bool {
    &&& starts.len() == n + 1
    &&& forall|j: int|
        0 <= j < n ==> (applies_after(
            log,
            #[trigger] starts[j],
            state,
            state.commits[j].diff,
            state.commits.last().diff,
        ) matches Script::Done(next, result) && next == starts[j + 1] && !(result matches Ok(true)))
}

proof fn lemma_dependency(log: Seq<Reply>, state: GitView, i: int, starts: Seq<nat>) -> (all: Seq<nat>)
    requires
        0 <= i <= state.commits.len() - 1,
        all_failed(log, state, starts, i),
    ensures
        dependency(log, starts.last(), state, i) matches Script::Done(end, found) ==> {
            let n = match found {
                Some(k) => k,
                None => state.commits.len() - 1,
            };
            &&& i <= n <= state.commits.len() - 1
            &&& all_failed(log, state, all, n)
            &&& all[0] == starts[0]
            &&& match found {
                Some(k) => k < state.commits.len() - 1 && (applies_after(
                    log,
                    all.last(),
                    state,
                    state.commits[k].diff,
                    state.commits.last().diff,
                ) matches Script::Done(next, Ok(true)) && next == end),
                None => all.last() == end,
            }
        },
    decreases state.commits.len() - i,
{
    if i == state.commits.len() - 1 {
        starts
    } else {
        match applies_after(
            log,
            starts.last(),
            state,
            state.commits[i].diff,
            state.commits.last().diff,
        ) {
            Script::Ask(_) => starts,
            Script::Done(next, Ok(true)) => starts,
            Script::Done(next, result) => {
                let more = starts.push(next);
                assert forall|j: int| 0 <= j < i + 1 implies (applies_after(
                    log,
                    #[trigger] more[j],
                    state,
                    state.commits[j].diff,
                    state.commits.last().diff,
                ) matches Script::Done(next, result) && next == more[j + 1] && !(result matches Ok(
                    true,
                ))) by {
                    if j < i {
                        assert(more[j] == starts[j] && more[j + 1] == starts[j + 1]);
                    }
                }
                lemma_dependency(log, state, i + 1, more)
            },
        }
    }
}

/// Whether trials from the given replies on tell which commit the newest one needs.
pub open spec fn tells_needed(
    log: Seq<Reply>,
    at: nat,
    state: GitView,
    end: nat,
    found: Option<int>,
    starts: Seq<nat>,
) -> bool {
    &&& starts[0] == at
    &&& match found {
        Some(k) => {
            &&& 0 <= k < state.commits.len() - 1
            &&& all_failed(log, state, starts, k)
            &&& applies_after(
                log,
                starts.last(),
                state,
                state.commits[k].diff,
                state.commits.last().diff,
            ) matches Script::Done(next, Ok(true)) && next == end
        },
        None => {
            &&& all_failed(log, state, starts, state.commits.len() - 1)
            &&& starts.last() == end
        },
    }
}

/// The commit that the newest one needs is the first on top of which it applies; there is none only where
/// every trial failed.
pub proof fn the_first_commit_that_fits_is_needed(log: Seq<Reply>, at: nat, state: GitView)
    requires
        state.commits.len() > 0,
    ensures
        dependency(log, at, state, 0) matches Script::Done(end, found) ==> exists|starts: Seq<nat>|
            #[trigger] tells_needed(log, at, state, end, found, starts),
{
    let starts = lemma_dependency(log, state, 0, seq![at]);
    if let Script::Done(end, found) = dependency(log, at, state, 0) {
        assert(tells_needed(log, at, state, end, found, starts));
    }
}

// ---------------------------------------------------------------------------------------------
// Merging
// ---------------------------------------------------------------------------------------------

/// Whether paths are those of two commits together, in sorted order and each once.
pub open spec fn are_paths_of_both(a: CommitView, b: CommitView, paths: Seq<Seq<char>>) -> bool {
    &&& is_sorted_set(paths)
    &&& forall|path: Seq<char>| #[trigger]
        paths.contains(path) <==> a.changed_paths.contains(path) || b.changed_paths.contains(path)
}

proof fn lemma_sorted_members(s: Set<Seq<char>>)
    requires
        exists|list: Seq<Seq<char>>| #[trigger] list.to_set() == s,
    ensures
        is_sorted_set(sorted_members(s)),
        sorted_members(s).to_set() == s,
{
    let list = choose|list: Seq<Seq<char>>| #[trigger] list.to_set() == s;
    lemma_sortable(list);
}

proof fn lemma_sortable(list: Seq<Seq<char>>)
    ensures
        exists|t: Seq<Seq<char>>| is_sorted_set(t) && #[trigger] t.to_set() == list.to_set(),
    decreases list.len(),
{
    if list.len() == 0 {
        assert(is_sorted_set(list) && list.to_set() == list.to_set());
    } else {
        let rest = list.drop_last();
        let x = list.last();
        lemma_sortable(rest);
        let t = choose|t: Seq<Seq<char>>| is_sorted_set(t) && #[trigger] t.to_set() == rest.to_set();
        assert(list =~= rest.push(x));
        assert(list.to_set() =~= rest.to_set().insert(x)) by {
            assert forall|y: Seq<char>| list.to_set().contains(y) <==> rest.to_set().insert(x).contains(y) by {
                if rest.contains(y) {
                    assert(list[rest.index_of(y)] == y);
                }
                if y == x {
                    assert(list[list.len() - 1] == y);
                }
                if list.contains(y) && y != x {
                    let k = list.index_of(y);
                    assert(rest[k] == y);
                }
            }
        }
        if t.contains(x) {
            assert(t.to_set().contains(x));
            assert(t.to_set() == rest.to_set());
            assert(rest.to_set().insert(x) =~= rest.to_set());
            assert(is_sorted_set(t) && t.to_set() == list.to_set());
        } else {
            let grown = crate::sorted::lemma_sorted_insert(t, x);
            assert(is_sorted_set(grown) && grown.to_set() == list.to_set());
        }
    }
}

/// A merged commit has the purposes of both and the paths of both.
pub proof fn a_merged_commit_speaks_for_both(item: CommitView, newest: CommitView)
    ensures
        merged(item, newest).purpose == item.purpose + "; "@ + newest.purpose,
        are_paths_of_both(item, newest, merged(item, newest).changed_paths),
{
    let s = item.changed_paths.to_set().union(newest.changed_paths.to_set());
    let both = item.changed_paths + newest.changed_paths;
    assert(both.to_set() =~= s) by {
        assert forall|p: Seq<char>| both.to_set().contains(p) <==> s.contains(p) by {
            if item.changed_paths.contains(p) {
                assert(both[item.changed_paths.index_of(p)] == p);
            }
            if newest.changed_paths.contains(p) {
                assert(both[item.changed_paths.len() + newest.changed_paths.index_of(p)] == p);
            }
            if both.contains(p) {
                let k = both.index_of(p);
                if k < item.changed_paths.len() {
                    assert(item.changed_paths[k] == p);
                } else {
                    assert(newest.changed_paths[k - item.changed_paths.len()] == p);
                }
            }
        }
    }
    lemma_sorted_members(s);
    let paths = sorted_members(s);
    assert forall|path: Seq<char>| #[trigger] paths.contains(path) <==> item.changed_paths.contains(path)
        || newest.changed_paths.contains(path) by {
        assert(paths.contains(path) <==> paths.to_set().contains(path));
    }
}

/// Whether a commit is made again from diffs by the requests after `p` replies: each diff is applied to
/// the worktree, everything is staged and committed as the agent's, and Git tells the identifier and the
/// diff.
pub open spec fn is_rebuilt<T>(
    work: spec_fn(Seq<Reply>) -> Script<T>,
    log: Seq<Reply>,
    p: int,
    worktree: Seq<char>,
    first: Seq<char>,
    second: Option<Seq<char>>,
    commit: CommitView,
) -> bool {
    let q = if second is Some { p + 4 } else { p + 2 };
    &&& is_applied(work, log, p, worktree, first)
    &&& second matches Some(diff) ==> is_applied(work, log, p + 2, worktree, diff)
    &&& asks(work, log, q, git(worktree, seq!["add"@, "-A"@, "--"@, "."@]))
    &&& worked(log[q])
    &&& asks(
        work,
        log,
        q + 1,
        git_as_agent(
            worktree,
            seq!["commit"@, "--no-verify"@, "--no-gpg-sign"@, "-m"@, commit.purpose],
        ),
    )
    &&& worked(log[q + 1])
    &&& asks(work, log, q + 2, git(worktree, seq!["rev-parse"@, "HEAD"@]))
    &&& wrote_word(log[q + 2], commit.id)
    &&& asks(
        work,
        log,
        q + 3,
        git(
            worktree,
            seq!["show"@, "--format="@, "--binary"@, "--no-ext-diff"@, "--no-textconv"@, commit.id],
        ),
    )
    &&& wrote(log[q + 3], commit.diff)
}

proof fn lemma_committed(log: Seq<Reply>, at: nat, cwd: Seq<char>, purpose: Seq<char>)
    ensures
        committing(log, at, cwd, purpose) matches Script::Done(end, Ok((id, diff))) ==> {
            let work = |l: Seq<Reply>| committing(l, at, cwd, purpose);
            &&& end == at + 4 && end <= log.len()
            &&& asks(work, log, at as int, git(cwd, seq!["add"@, "-A"@, "--"@, "."@]))
            &&& worked(log[at as int])
            &&& asks(
                work,
                log,
                (at + 1) as int,
                git_as_agent(
                    cwd,
                    seq!["commit"@, "--no-verify"@, "--no-gpg-sign"@, "-m"@, purpose],
                ),
            )
            &&& worked(log[(at + 1) as int])
            &&& asks(work, log, (at + 2) as int, git(cwd, seq!["rev-parse"@, "HEAD"@]))
            &&& wrote_word(log[(at + 2) as int], id)
            &&& asks(
                work,
                log,
                (at + 3) as int,
                git(
                    cwd,
                    seq!["show"@, "--format="@, "--binary"@, "--no-ext-diff"@, "--no-textconv"@, id],
                ),
            )
            &&& wrote(log[(at + 3) as int], diff)
            &&& forall|m: int|
                end <= m <= log.len() ==> committing(#[trigger] log.take(m), at, cwd, purpose)
                    == committing(log, at, cwd, purpose)
        },
{
    if let Script::Done(end, Ok((id, diff))) = committing(log, at, cwd, purpose) {
        lemma_run_text(log[at as int]);
        lemma_run_text(log[(at + 1) as int]);
        lemma_word(log, at + 2, crate::command::head_run(cwd));
        lemma_word(log, at + 3, crate::command::git_show_run(cwd, id));
        let l1 = log.take((at + 1) as int);
        let l2 = log.take((at + 2) as int);
        let l3 = log.take((at + 3) as int);
        assert(l1[at as int] == log[at as int]);
        assert(l2[at as int] == log[at as int] && l2[(at + 1) as int] == log[(at + 1) as int]);
        assert(l3[at as int] == log[at as int] && l3[(at + 1) as int] == log[(at + 1) as int]);
        assert(l3[(at + 2) as int] == log[(at + 2) as int]);
        assert forall|m: int| end <= m <= log.len() implies committing(
            #[trigger] log.take(m),
            at,
            cwd,
            purpose,
        ) == committing(log, at, cwd, purpose) by {
            let l = log.take(m);
            assert(l[at as int] == log[at as int] && l[(at + 1) as int] == log[(at + 1) as int]);
            assert(l[(at + 2) as int] == log[(at + 2) as int]);
            assert(l[(at + 3) as int] == log[(at + 3) as int]);
        }
    }
}

proof fn lemma_restored(
    log: Seq<Reply>,
    at: nat,
    state: GitView,
    item: CommitView,
    newest: Option<CommitView>,
)
    ensures
        restoring(log, at, state, item, newest) matches Script::Done(end, Ok(_)) ==> {
            let work = |l: Seq<Reply>| restoring(l, at, state, item, newest);
            &&& end == at + (if newest is Some { 4int } else { 2int }) && end <= log.len()
            &&& is_applied(work, log, at as int, state.worktree, item.diff)
            &&& newest matches Some(top) ==> is_applied(
                work,
                log,
                (at + 2) as int,
                state.worktree,
                top.diff,
            )
            &&& forall|m: int|
                end <= m <= log.len() ==> restoring(#[trigger] log.take(m), at, state, item, newest)
                    == restoring(log, at, state, item, newest)
        },
{
    let work = |l: Seq<Reply>| restoring(l, at, state, item, newest);
    if let Script::Done(end, Ok(_)) = restoring(log, at, state, item, newest) {
        let first = |l: Seq<Reply>| applying(l, at, state.worktree, item.diff);
        lemma_applied(log, at, state.worktree, item.diff);
        assert forall|k: int, request: RequestView|
            k < at + 2 && #[trigger] asks(first, log, k, request) implies asks(work, log, k, request) by {}
        if let Some(top) = newest {
            let second = |l: Seq<Reply>| applying(l, at + 2, state.worktree, top.diff);
            lemma_applied(log, at + 2, state.worktree, top.diff);
            assert forall|k: int, request: RequestView|
                at + 2 <= k && #[trigger] asks(second, log, k, request) implies asks(
                work,
                log,
                k,
                request,
            ) by {
                assert(first(log.take(k)) == first(log));
            }
            assert forall|m: int| end <= m <= log.len() implies restoring(
                #[trigger] log.take(m),
                at,
                state,
                item,
                newest,
            ) == restoring(log, at, state, item, newest) by {
                assert(first(log.take(m)) == first(log));
                assert(second(log.take(m)) == second(log));
            }
        } else {
            assert forall|m: int| end <= m <= log.len() implies restoring(
                #[trigger] log.take(m),
                at,
                state,
                item,
                newest,
            ) == restoring(log, at, state, item, newest) by {
                assert(first(log.take(m)) == first(log));
            }
        }
    }
}

/// Where the requests for the `j`-th commit start, if those for the `i`-th start at `at`: each commit takes
/// six replies, and the one that the newest is merged into takes two more.
pub open spec fn start_of(at: int, i: int, needed: int, j: int) -> int {
    at + 6 * (j - i) + (if i <= needed < j { 2int } else { 0int })
}

/// Whether the commits of a queue from the `i`-th on, but for the newest, are made again, each with its own
/// diff, and the needed one with that of the newest on top, with both purposes and the paths of both.
pub open spec fn are_rebuilt<T>(
    work: spec_fn(Seq<Reply>) -> Script<T>,
    log: Seq<Reply>,
    at: int,
    worktree: Seq<char>,
    commits: Seq<CommitView>,
    needed: int,
    i: int,
    rebuilt: Seq<CommitView>,
) -> bool {
    &&& rebuilt.len() == commits.len() - 1
    &&& forall|j: int|
        i <= j < rebuilt.len() ==> {
            let commit = #[trigger] rebuilt[j];
            let newest = commits.last();
            &&& is_rebuilt(
                work,
                log,
                start_of(at, i, needed, j),
                worktree,
                commits[j].diff,
                if j == needed {
                    Some(newest.diff)
                } else {
                    None
                },
                commit,
            )
            &&& if j == needed {
                &&& commit.purpose == commits[j].purpose + "; "@ + newest.purpose
                &&& are_paths_of_both(commits[j], newest, commit.changed_paths)
            } else {
                &&& commit.purpose == commits[j].purpose
                &&& commit.changed_paths == commits[j].changed_paths
            }
        }
}

proof fn lemma_rebuilt_once(
    log: Seq<Reply>,
    at: nat,
    state: GitView,
    needed: int,
    i: int,
    rebuilt: Seq<CommitView>,
) -> (made: (nat, GitView, CommitView))
    requires
        0 <= i < state.commits.len() - 1,
        rebuilding(log, at, state, needed, i, rebuilt) matches Script::Done(_, (_, Ok(_))),
    ensures
        ({
            let work = |l: Seq<Reply>| rebuilding(l, at, state, needed, i, rebuilt);
            let (b, named, commit) = made;
            let newest = state.commits.last();
            &&& b == start_of(at as int, i, needed, i + 1) && b <= log.len()
            &&& named.commits == state.commits
            &&& named.worktree == state.worktree
            &&& is_rebuilt(
                work,
                log,
                at as int,
                state.worktree,
                state.commits[i].diff,
                if i == needed {
                    Some(newest.diff)
                } else {
                    None
                },
                commit,
            )
            &&& if i == needed {
                &&& commit.purpose == state.commits[i].purpose + "; "@ + newest.purpose
                &&& are_paths_of_both(state.commits[i], newest, commit.changed_paths)
            } else {
                &&& commit.purpose == state.commits[i].purpose
                &&& commit.changed_paths == state.commits[i].changed_paths
            }
            &&& forall|m: int|
                b <= m <= log.len() ==> rebuilding(#[trigger] log.take(m), at, state, needed, i, rebuilt)
                    == rebuilding(log.take(m), b, named, needed, i + 1, rebuilt.push(commit))
        }),
{
    let work = |l: Seq<Reply>| rebuilding(l, at, state, needed, i, rebuilt);
    let item = state.commits[i];
    let newest = state.commits.last();
    let top = if i == needed {
        Some(newest)
    } else {
        None
    };
    let told = if i == needed {
        merged(item, newest)
    } else {
        item
    };
    a_merged_commit_speaks_for_both(item, newest);
    let first = |l: Seq<Reply>| restoring(l, at, state, item, top);
    lemma_restored(log, at, state, item, top);
    match restoring(log, at, state, item, top) {
        Script::Done(a, Ok(_)) => {
            let second = |l: Seq<Reply>| committing(l, a, state.worktree, told.purpose);
            lemma_committed(log, a, state.worktree, told.purpose);
            match committing(log, a, state.worktree, told.purpose) {
                Script::Done(b, Ok((id, diff))) => {
                    let named = if i == needed {
                        state
                    } else {
                        GitView { aliases: state.aliases.insert(item.id, id), ..state }
                    };
                    let commit = CommitView { id, diff, ..told };
                    assert forall|k: int, request: RequestView|
                        k < a && #[trigger] asks(first, log, k, request) implies asks(
                        work,
                        log,
                        k,
                        request,
                    ) by {}
                    assert forall|k: int, request: RequestView|
                        a <= k < b && #[trigger] asks(second, log, k, request) implies asks(
                        work,
                        log,
                        k,
                        request,
                    ) by {
                        assert(first(log.take(k)) == first(log));
                    }
                    assert forall|m: int| b <= m <= log.len() implies rebuilding(
                        #[trigger] log.take(m),
                        at,
                        state,
                        needed,
                        i,
                        rebuilt,
                    ) == rebuilding(log.take(m), b, named, needed, i + 1, rebuilt.push(commit)) by {
                        assert(first(log.take(m)) == first(log));
                        assert(second(log.take(m)) == second(log));
                    }
                    (b, named, commit)
                },
                _ => (0, state, item),
            }
        },
        _ => (0, state, item),
    }
}

proof fn lemma_same_rebuilt<A, B>(
    inner: spec_fn(Seq<Reply>) -> Script<A>,
    work: spec_fn(Seq<Reply>) -> Script<B>,
    log: Seq<Reply>,
    from: int,
    p: int,
    worktree: Seq<char>,
    first: Seq<char>,
    second: Option<Seq<char>>,
    commit: CommitView,
)
    requires
        from <= p,
        is_rebuilt(inner, log, p, worktree, first, second, commit),
        forall|k: int, request: RequestView|
            from <= k && #[trigger] asks(inner, log, k, request) ==> asks(work, log, k, request),
    ensures
        is_rebuilt(work, log, p, worktree, first, second, commit),
{
}

proof fn lemma_rebuilt(
    log: Seq<Reply>,
    at: nat,
    state: GitView,
    needed: int,
    i: int,
    rebuilt: Seq<CommitView>,
)
    requires
        0 <= i <= state.commits.len() - 1,
        rebuilt.len() == i,
    ensures
        rebuilding(log, at, state, needed, i, rebuilt) matches Script::Done(end, (next, Ok(all))) ==> {
            &&& end == start_of(at as int, i, needed, state.commits.len() - 1)
            &&& i < state.commits.len() - 1 ==> end <= log.len()
            &&& next.commits == state.commits
            &&& all.take(i) == rebuilt
            &&& are_rebuilt(
                |l: Seq<Reply>| rebuilding(l, at, state, needed, i, rebuilt),
                log,
                at as int,
                state.worktree,
                state.commits,
                needed,
                i,
                all,
            )
        },
    decreases state.commits.len() - i,
{
    let work = |l: Seq<Reply>| rebuilding(l, at, state, needed, i, rebuilt);
    if let Script::Done(end, (next, Ok(all))) = rebuilding(log, at, state, needed, i, rebuilt) {
        if i < state.commits.len() - 1 {
            let (b, named, commit) = lemma_rebuilt_once(log, at, state, needed, i, rebuilt);
            let more = rebuilt.push(commit);
            let later = |l: Seq<Reply>| rebuilding(l, b, named, needed, i + 1, more);
            assert(log.take(log.len() as int) =~= log);
            assert(work(log.take(log.len() as int)) == later(log.take(log.len() as int)));
            lemma_rebuilt(log, b, named, needed, i + 1, more);
            assert(all.take(i + 1) == more);
            assert(all.take(i) =~= all.take(i + 1).take(i));
            assert(more.take(i) =~= rebuilt);
            assert(all[i] == all.take(i + 1)[i]);
            assert forall|k: int, request: RequestView|
                b <= k && #[trigger] asks(later, log, k, request) implies asks(work, log, k, request) by {
                assert(work(log.take(k)) == later(log.take(k)));
            }
            assert forall|j: int| i <= j < all.len() implies {
                let commit = #[trigger] all[j];
                let newest = state.commits.last();
                &&& is_rebuilt(
                    work,
                    log,
                    start_of(at as int, i, needed, j),
                    state.worktree,
                    state.commits[j].diff,
                    if j == needed {
                        Some(newest.diff)
                    } else {
                        None
                    },
                    commit,
                )
                &&& if j == needed {
                    &&& commit.purpose == state.commits[j].purpose + "; "@ + newest.purpose
                    &&& are_paths_of_both(state.commits[j], newest, commit.changed_paths)
                } else {
                    &&& commit.purpose == state.commits[j].purpose
                    &&& commit.changed_paths == state.commits[j].changed_paths
                }
            } by {
                if j > i {
                    assert(start_of(b as int, i + 1, needed, j) == start_of(at as int, i, needed, j));
                    lemma_same_rebuilt(
                        later,
                        work,
                        log,
                        b as int,
                        start_of(b as int, i + 1, needed, j),
                        state.worktree,
                        state.commits[j].diff,
                        if j == needed {
                            Some(state.commits.last().diff)
                        } else {
                            None
                        },
                        all[j],
                    );
                } else {
                    assert(start_of(at as int, i, needed, i) == at);
                }
            }
        } else {
            assert(all.take(i) =~= rebuilt);
        }
    }
}

/// Merging the newest commit into the one it needs resets the worktree to the snapshot on which the queue
/// stands and makes every other commit again with its own diff, the needed one with the newest on top.
pub proof fn a_merge_makes_every_commit_again(
    log: Seq<Reply>,
    at: nat,
    state: GitView,
    needed: int,
    end: nat,
    next: GitView,
)
    requires
        state.commits.len() >= 1,
        merging(log, at, state, needed) == Script::<(GitView, Result<(), Refusal>)>::Done(
            end,
            (next, Ok(())),
        ),
    ensures
        ({
            let work = |l: Seq<Reply>| merging(l, at, state, needed);
            &&& asks(
                work,
                log,
                at as int,
                git(state.worktree, seq!["reset"@, "--hard"@, state.baseline]),
            )
            &&& worked(log[at as int])
            &&& are_rebuilt(
                work,
                log,
                (at + 1) as int,
                state.worktree,
                state.commits,
                needed,
                0,
                next.commits,
            )
        }),
{
    let work = |l: Seq<Reply>| merging(l, at, state, needed);
    let inner = |l: Seq<Reply>| rebuilding(l, at + 1, state, needed, 0, Seq::empty());
    lemma_run_text(log[at as int]);
    lemma_rebuilt(log, at + 1, state, needed, 0, Seq::empty());
    assert(log.take(at as int).len() == at);
    match rebuilding(log, at + 1, state, needed, 0, Seq::empty()) {
        Script::Done(b, (named, Ok(rebuilt))) => {
            assert forall|k: int, request: RequestView|
                at + 1 <= k && #[trigger] asks(inner, log, k, request) implies asks(
                work,
                log,
                k,
                request,
            ) by {
                assert(log.take(k)[at as int] == log[at as int]);
            }
            assert forall|j: int| 0 <= j < rebuilt.len() implies is_rebuilt(
                work,
                log,
                start_of((at + 1) as int, 0, needed, j),
                state.worktree,
                state.commits[j].diff,
                if j == needed {
                    Some(state.commits.last().diff)
                } else {
                    None
                },
                #[trigger] rebuilt[j],
            ) by {
                lemma_same_rebuilt(
                    inner,
                    work,
                    log,
                    (at + 1) as int,
                    start_of((at + 1) as int, 0, needed, j),
                    state.worktree,
                    state.commits[j].diff,
                    if j == needed {
                        Some(state.commits.last().diff)
                    } else {
                        None
                    },
                    rebuilt[j],
                );
            }
        },
        _ => {},
    }
}

// ---------------------------------------------------------------------------------------------
// One commit of all
// ---------------------------------------------------------------------------------------------

proof fn lemma_all_paths(commits: Seq<CommitView>, n: int) -> (list: Seq<Seq<char>>)
    requires
        0 <= n <= commits.len(),
    ensures
        list.to_set() == all_paths(commits, n),
        forall|path: Seq<char>| #[trigger]
            all_paths(commits, n).contains(path) <==> exists|i: int|
                0 <= i < n && (#[trigger] commits[i]).changed_paths.contains(path),
    decreases n,
{
    if n == 0 {
        assert(Seq::<Seq<char>>::empty().to_set() =~= Set::empty());
        Seq::empty()
    } else {
        let fewer = lemma_all_paths(commits, n - 1);
        let last = commits[n - 1].changed_paths;
        let list = fewer + last;
        assert(list.to_set() =~= all_paths(commits, n)) by {
            assert forall|p: Seq<char>| list.to_set().contains(p) <==> all_paths(commits, n).contains(p) by {
                if fewer.contains(p) {
                    assert(list[fewer.index_of(p)] == p);
                    assert(fewer.to_set().contains(p));
                }
                if last.contains(p) {
                    assert(list[fewer.len() + last.index_of(p)] == p);
                    assert(last.to_set().contains(p));
                }
                if list.contains(p) {
                    let k = list.index_of(p);
                    if k < fewer.len() {
                        assert(fewer[k] == p);
                        assert(fewer.to_set().contains(p));
                    } else {
                        assert(last[k - fewer.len()] == p);
                        assert(last.to_set().contains(p));
                    }
                }
                if all_paths(commits, n).contains(p) {
                    assert(all_paths(commits, n - 1).contains(p) || last.to_set().contains(p));
                    if all_paths(commits, n - 1).contains(p) {
                        assert(fewer.to_set().contains(p));
                    }
                }
            }
        }
        assert forall|path: Seq<char>| #[trigger]
            all_paths(commits, n).contains(path) <==> exists|i: int|
                0 <= i < n && (#[trigger] commits[i]).changed_paths.contains(path) by {
            if all_paths(commits, n).contains(path) {
                if all_paths(commits, n - 1).contains(path) {
                    let i = choose|i: int|
                        0 <= i < n - 1 && (#[trigger] commits[i]).changed_paths.contains(path);
                    assert(commits[i].changed_paths.contains(path));
                } else {
                    assert(commits[n - 1].changed_paths.contains(path));
                }
            }
            if exists|i: int| 0 <= i < n && (#[trigger] commits[i]).changed_paths.contains(path) {
                let i = choose|i: int|
                    0 <= i < n && (#[trigger] commits[i]).changed_paths.contains(path);
                if i < n - 1 {
                    assert(all_paths(commits, n - 1).contains(path));
                } else {
                    assert(last.to_set().contains(path));
                }
            }
        }
        list
    }
}

/// A queue that becomes one commit is committed as a whole, on top of the snapshot on which it stands: the
/// commit has the purposes of all, in their order, and the paths of all, in sorted order and each once.
pub proof fn a_combined_commit_speaks_for_all(
    log: Seq<Reply>,
    at: nat,
    state: GitView,
    end: nat,
    next: GitView,
)
    requires
        combination(log, at, state) == Script::<(GitView, Result<(), Refusal>)>::Done(
            end,
            (next, Ok(())),
        ),
    ensures
        end == at + 4,
        next.commits.len() == 1,
        ({
            let work = |l: Seq<Reply>| combination(l, at, state);
            let commit = next.commits[0];
            &&& commit.purpose == joined(
                Seq::new(state.commits.len(), |i: int| state.commits[i].purpose),
                "; "@,
            )
            &&& is_sorted_set(commit.changed_paths)
            &&& forall|path: Seq<char>| #[trigger]
                commit.changed_paths.contains(path) <==> exists|i: int|
                    0 <= i < state.commits.len() && (
                    #[trigger] state.commits[i]).changed_paths.contains(path)
            &&& wrote_word(log[(at + 2) as int], commit.id)
            &&& wrote(log[(at + 3) as int], commit.diff)
            &&& worked(log[at as int]) && worked(log[(at + 1) as int])
            &&& asks(
                work,
                log,
                at as int,
                git(state.worktree, seq!["reset"@, "--soft"@, state.baseline]),
            )
            &&& asks(
                work,
                log,
                (at + 1) as int,
                git_as_agent(
                    state.worktree,
                    seq!["commit"@, "--no-verify"@, "--no-gpg-sign"@, "-m"@, commit.purpose],
                ),
            )
        }),
{
    assert(at + 3 < log.len());
    lemma_run_text(log[at as int]);
    lemma_run_text(log[(at + 1) as int]);
    lemma_word(log, at + 2, crate::command::head_run(state.worktree));
    let commit = next.commits[0];
    lemma_word(log, at + 3, crate::command::git_show_run(state.worktree, commit.id));
    let l1 = log.take((at + 1) as int);
    assert(l1[at as int] == log[at as int]);
    assert(log.take(at as int).len() == at);
    let n = state.commits.len() as int;
    let list = lemma_all_paths(state.commits, n);
    lemma_sorted_members(all_paths(state.commits, n));
    assert forall|path: Seq<char>| #[trigger]
        commit.changed_paths.contains(path) <==> exists|i: int|
            0 <= i < state.commits.len() && (#[trigger] state.commits[i]).changed_paths.contains(path) by {
        assert(commit.changed_paths.contains(path) <==> commit.changed_paths.to_set().contains(path));
        assert(commit.changed_paths.to_set().contains(path) <==> all_paths(state.commits, n).contains(
            path,
        ));
    }
}

// ---------------------------------------------------------------------------------------------
// Commands
// ---------------------------------------------------------------------------------------------

/// Selecting a mode asks for nothing and changes nothing but the mode, unless the queue has to be applied on
/// the way from Review to Write; then it is applied as a whole first, and the mode changes only if that works.
pub proof fn selecting_a_mode_changes_the_mode_only(
    log: Seq<Reply>,
    at: nat,
    state: GitView,
    mode: WorkspaceMode,
)
    ensures
        ({
            let script = obeying(log, at, state, GitControlCommand::SetMode(mode));
            if state.mode == WorkspaceMode::Review && mode == WorkspaceMode::Write {
                match obeying(log, at, state, GitControlCommand::ApplyAll) {
                    Script::Ask(request) => script == Script::<
                        (GitView, Result<(), Refusal>),
                    >::Ask(request),
                    Script::Done(end, (next, Err(refusal))) => script == Script::<
                        (GitView, Result<(), Refusal>),
                    >::Done(end, (next, Err(refusal))),
                    Script::Done(end, (next, Ok(_))) => script == Script::<
                        (GitView, Result<(), Refusal>),
                    >::Done(end, (GitView { mode: WorkspaceMode::Write, ..next }, Ok(()))),
                }
            } else {
                script == Script::<(GitView, Result<(), Refusal>)>::Done(
                    at,
                    (GitView { mode, ..state }, Ok(())),
                )
            }
        }),
{
}

/// The state of a session as it is shown.
pub open spec fn is_state_of(state: GitView, event: UiView) -> bool {
    event == UiView::State { mode: state.mode, branch: state.branch, commits: state.commits }
}

/// Whether a session is another one with some events more.
pub open spec fn differs_in_events(state: GitView, next: GitView, events: Seq<UiView>) -> bool {
    next == GitView { outbox: state.outbox + events, ..state }
}

/// A command is obeyed under the repository's lock. Where that works, the state is shown; where it fails, the
/// failure is told and then the state is shown, and the command fails with it.
pub proof fn a_command_is_obeyed_and_shown(
    log: Seq<Reply>,
    at: nat,
    state: GitView,
    command: GitControlCommand,
    end: nat,
    next: GitView,
    result: Result<(), Refusal>,
)
    requires
        controlling(log, at, state, command) == Script::<(GitView, Result<(), Refusal>)>::Done(
            end,
            (next, result),
        ),
    ensures
        asks(
            |l: Seq<Reply>| controlling(l, at, state, command),
            log,
            at as int,
            RequestView::Lock,
        ),
        log[at as int] is Done ==> (obeying(log, at + 1, state, command) matches Script::Done(
            to,
            (obeyed, outcome),
        ) && {
            &&& to == end
            &&& match outcome {
                Ok(_) => {
                    &&& result is Ok
                    &&& next.outbox.len() == obeyed.outbox.len() + 1
                    &&& is_state_of(obeyed, next.outbox.last())
                    &&& differs_in_events(obeyed, next, seq![next.outbox.last()])
                },
                Err(refusal) => {
                    &&& result == Err::<(), Refusal>(refusal)
                    &&& next.outbox.len() == obeyed.outbox.len() + 2
                    &&& next.outbox[obeyed.outbox.len() as int] == UiView::Error(refusal.1)
                    &&& is_state_of(obeyed, next.outbox.last())
                    &&& differs_in_events(
                        obeyed,
                        next,
                        seq![UiView::Error(refusal.1), next.outbox.last()],
                    )
                },
            }
        }),
        !(log[at as int] is Done) ==> result is Err && next == state,
{
    assert(log.take(at as int).len() == at);
    if log[at as int] is Done {
        match obeying(log, at + 1, state, command) {
            Script::Done(to, (obeyed, Ok(_))) => {
                assert(next.outbox =~= obeyed.outbox + seq![next.outbox.last()]);
            },
            Script::Done(to, (obeyed, Err(refusal))) => {
                assert(next.outbox =~= obeyed.outbox + seq![
                    UiView::Error(refusal.1),
                    next.outbox.last(),
                ]);
            },
            _ => {},
        }
    }
}

/// What the user asks for is done on a session that is up to date: the parent is looked at first, and where
/// that fails the command is not obeyed.
pub proof fn commands_come_after_a_look_at_the_parent(
    log: Seq<Reply>,
    at: nat,
    state: GitView,
    command: GitControlCommand,
    end: nat,
    next: GitView,
    result: Result<(), Refusal>,
)
    requires
        handling(log, at, state, command) == Script::<(GitView, Result<(), Refusal>)>::Done(
            end,
            (next, result),
        ),
    ensures
        synchronization(log, at, state) matches Script::Done(a, (current, looked)) && match looked {
            Err(refusal) => a == end && next == current && result == Err::<(), Refusal>(refusal),
            Ok(_) => controlling(log, a, current, command) == Script::<
                (GitView, Result<(), Refusal>),
            >::Done(end, (next, result)),
        },
{
}

// ---------------------------------------------------------------------------------------------
// Replaying with a resolver
// ---------------------------------------------------------------------------------------------

/// Whether one of the events from the given one on tells that a commit had to go for want of a resolution.
pub open spec fn is_told_lost(item: CommitView, events: Seq<UiView>, from: int) -> bool {
    exists|k: int| from <= k < events.len() && is_loss_of(item, #[trigger] events[k])
}

/// Whether an event tells that a commit had to go for want of a resolution, with its purpose and diff.
pub open spec fn is_loss_of(item: CommitView, event: UiView) -> bool {
    exists|id: Seq<char>, reason: Seq<char>|
        event == UiView::Sensory(
            "Discarded conflicting review commit "@ + #[trigger] (id + " ("@ + item.purpose)
                + ") because conflict resolution failed: "@ + #[trigger] (reason + "\n\n"@ + item.diff),
        )
}

/// Whether a commit is taken into the queue again, or the queue stays and there is a word about it.
pub open spec fn is_taken_or_told(state: GitView, item: CommitView, next: GitView) -> bool {
    &&& state.outbox.is_prefix_of(next.outbox)
    &&& {
        ||| {
            &&& next.outbox == state.outbox
            &&& next.commits.len() == state.commits.len() + 1
            &&& next.commits.drop_last() == state.commits
            &&& next.commits.last().purpose == item.purpose
            &&& next.commits.last().changed_paths == item.changed_paths
        }
        ||| {
            &&& next.commits == state.commits
            &&& next.outbox.len() == state.outbox.len() + 1
            &&& is_loss_of(item, next.outbox.last())
        }
    }
}

proof fn lemma_loss(state: GitView, item: CommitView, refusal: Refusal, told: CommitView)
    requires
        told.purpose == item.purpose,
        told.diff == item.diff,
    ensures
        is_taken_or_told(state, item, state.without_conflicting(told, refusal)),
{
    let next = state.without_conflicting(told, refusal);
    let id = told.id;
    let reason = refusal.1;
    assert(state.outbox =~= next.outbox.take(state.outbox.len() as int));
    reveal_strlit(") because ");
    reveal_strlit("conflict resolution failed");
    reveal_strlit(": ");
    reveal_strlit(") because conflict resolution failed: ");
    assert(") because "@ + "conflict resolution failed"@ + ": "@
        =~= ") because conflict resolution failed: "@);
    assert("Discarded conflicting review commit "@ + id + " ("@ + item.purpose + ") because "@
        + "conflict resolution failed"@ + ": "@ + reason + "\n\n"@ + item.diff
        =~= "Discarded conflicting review commit "@ + (id + " ("@ + item.purpose)
        + ") because conflict resolution failed: "@ + (reason + "\n\n"@ + item.diff));
    assert(is_loss_of(item, next.outbox.last()));
}

proof fn lemma_taken(state: GitView, item: CommitView, next: GitView, commit: CommitView)
    requires
        next.outbox == state.outbox,
        next.commits == state.commits.push(commit),
        commit.purpose == item.purpose,
        commit.changed_paths == item.changed_paths,
    ensures
        is_taken_or_told(state, item, next),
{
    assert(next.commits.drop_last() =~= state.commits);
    assert(state.outbox =~= state.outbox.take(state.outbox.len() as int));
}

proof fn lemma_item(log: Seq<Reply>, at: nat, state: GitView, item: CommitView)
    ensures
        replaying_item(log, at, state, item) matches Script::Done(_, (next, Ok(_))) ==> is_taken_or_told(
            state,
            item,
            next,
        ),
{
    if let Script::Done(_, (next, Ok(_))) = replaying_item(log, at, state, item) {
        if run_done(log[(at + 1) as int]) is Ok {
            lemma_taken(state, item, next, next.commits.last());
        } else {
            lemma_resolved_item(log, at + 2, state, item);
        }
    }
}

proof fn lemma_resolved_item(log: Seq<Reply>, at: nat, state: GitView, item: CommitView)
    ensures
        having_resolved(log, at, state, item) matches Script::Done(_, (next, Ok(_))) ==> is_taken_or_told(
            state,
            item,
            next,
        ),
{
    if let Script::Done(_, (next, Ok(_))) = having_resolved(log, at, state, item) {
        match capturing(log, at, state.worktree, item.purpose) {
            Script::Done(b, Err(refusal)) => {
                lemma_loss(state, item, refusal, item);
            },
            Script::Done(b, Ok(conflict)) => {
                match log[(b + 1) as int] {
                    Reply::Resolved(files) => {
                        lemma_adopted(log, b + 2, state, item, conflict, file_views(files@));
                    },
                    _ => {
                        lemma_loss(state, item, reply_refusal(log[(b + 1) as int]), item);
                    },
                }
            },
            _ => {},
        }
    }
}

proof fn lemma_adopted(
    log: Seq<Reply>,
    at: nat,
    state: GitView,
    item: CommitView,
    conflict: ConflictView,
    resolved: Seq<ConflictFileView>,
)
    ensures
        adopting_resolution(log, at, state, item, conflict, resolved) matches Script::Done(
            _,
            (next, Ok(_)),
        ) ==> is_taken_or_told(state, item, next),
{
    if let Script::Done(_, (next, Ok(_))) = adopting_resolution(
        log,
        at,
        state,
        item,
        conflict,
        resolved,
    ) {
        match resolving(log, at + 1, state.worktree, conflict, resolved) {
            Script::Done(b, Err(refusal)) => {
                lemma_loss(state, item, refusal, item);
            },
            Script::Done(b, Ok(_)) => match recommitting(log, b, state, item) {
                Script::Done(c, (middle, Ok(_))) => {
                    lemma_taken(state, item, middle, middle.commits.last());
                },
                Script::Done(c, (middle, Err((refusal, told)))) => {
                    lemma_loss(state, item, refusal, told);
                },
                _ => {},
            },
            _ => {},
        }
    }
}

proof fn lemma_items(
    log: Seq<Reply>,
    at: nat,
    state: GitView,
    items: Seq<CommitView>,
    i: int,
    changed: bool,
)
    requires
        0 <= i <= items.len(),
    ensures
        replaying_items(log, at, state, items, i, changed) matches Script::Done(_, (next, Ok(_))) ==> {
            &&& state.outbox.is_prefix_of(next.outbox)
            &&& state.commits.is_prefix_of(next.commits)
            &&& next.outbox.len() + next.commits.len() == state.outbox.len() + state.commits.len()
                + items.len() - i
            &&& forall|j: int|
                i <= j < items.len() ==> is_told_lost(
                    #[trigger] items[j],
                    next.outbox,
                    state.outbox.len() as int,
                ) || is_kept(items[j], next.commits, state.commits.len() as int)
        },
    decreases items.len() - i,
{
    if i < items.len() {
        lemma_item(log, at, state, items[i]);
        if let Script::Done(a, (middle, Ok(differs))) = replaying_item(log, at, state, items[i]) {
            lemma_items(log, a, middle, items, i + 1, changed || differs);
            if let Script::Done(_, (next, Ok(_))) = replaying_items(log, at, state, items, i, changed) {
                let n = state.outbox.len() as int;
                let c = state.commits.len() as int;
                assert(state.outbox =~= next.outbox.take(n)) by {
                    assert(state.outbox =~= middle.outbox.take(n));
                    assert(middle.outbox =~= next.outbox.take(middle.outbox.len() as int));
                }
                assert(middle.commits =~= next.commits.take(middle.commits.len() as int));
                assert(state.commits =~= middle.commits.take(c));
                assert(state.commits =~= next.commits.take(c));
                assert forall|j: int| i <= j < items.len() implies is_told_lost(
                    #[trigger] items[j],
                    next.outbox,
                    n,
                ) || is_kept(items[j], next.commits, c) by {
                    if j == i {
                        if middle.commits == state.commits {
                            assert(middle.outbox[n] == next.outbox[n]);
                            assert(is_loss_of(items[j], next.outbox[n]));
                        } else {
                            assert(next.commits[c] == middle.commits[c]);
                            assert(next.commits[c].purpose == items[j].purpose);
                        }
                    } else {
                        assert(is_told_lost(items[j], next.outbox, middle.outbox.len() as int)
                            || is_kept(items[j], next.commits, middle.commits.len() as int));
                    }
                }
            }
        }
    } else {
        assert(state.outbox =~= state.outbox.take(state.outbox.len() as int));
        assert(state.commits =~= state.commits.take(state.commits.len() as int));
    }
}

/// Whether one of the commits from the given one on is another one made again, with its purpose and paths.
pub open spec fn is_kept(item: CommitView, commits: Seq<CommitView>, from: int) -> bool {
    exists|k: int|
        from <= k < commits.len() && (#[trigger] commits[k]).purpose == item.purpose
            && commits[k].changed_paths == item.changed_paths
}

/// A replay with a resolver loses no commit in silence: each one is in the queue again, with its purpose and
/// paths, or there is a word about it, and there are no other commits and no other words.
pub proof fn a_resolved_replay_loses_nothing_in_silence(
    log: Seq<Reply>,
    at: nat,
    state: GitView,
    baseline: Seq<char>,
    end: nat,
    next: GitView,
    changed: bool,
)
    requires
        replaying(log, at, state, baseline) == Script::<(GitView, Result<bool, Refusal>)>::Done(
            end,
            (next, Ok(changed)),
        ),
    ensures
        state.outbox.is_prefix_of(next.outbox),
        next.outbox.len() + next.commits.len() == state.outbox.len() + state.commits.len(),
        forall|j: int|
            0 <= j < state.commits.len() ==> is_told_lost(
                #[trigger] state.commits[j],
                next.outbox,
                state.outbox.len() as int,
            ) || is_kept(state.commits[j], next.commits, 0),
{
    lemma_items(
        log,
        at + 1,
        GitView { commits: Seq::empty(), baseline, ..state },
        state.commits,
        0,
        false,
    );
}

} // verus!
