//! What a session's work asks for and what comes of it, told by the requests it makes and the replies
//! it gets.
use vstd::prelude::*;
use vstd::utf8::encode_utf8;

use crate::command::InvocationView;
use crate::conflict::{adopting_resolution, file_paths, recommitting, resolving, storing,
    storing_all};
use crate::encoding::texts_read_back;
use crate::failure::Refusal;
use crate::git::{position, resolved_alias, CommitView, DispositionView, GitControlCommand, UiView,
    WorkspaceMode};
use crate::queue::{adopting, applying, collapse, finishing, handing_over, named_position, obeying,
    queueing, recording, writing};
use crate::review::{fresh_id, parent_snapshot, readmit, replay, replay_items, session_id,
    snapshot_staged, GitView};
use crate::scan::{is_around, trimming_takes_white_space_off};
use crate::script::{run, run_done, run_text, ConflictFileView, ConflictView, Reply, RequestView,
    Script};

verus! {

// ---------------------------------------------------------------------------------------------
// Requests and replies
// ---------------------------------------------------------------------------------------------

/// A run of Git in a directory.
pub open spec fn git(cwd: Seq<char>, args: Seq<Seq<char>>) -> RequestView {
    RequestView::Git(InvocationView { cwd, args, as_agent: false, index: None, input: None })
}

/// A run of Git in a directory whose commits are the agent's.
pub open spec fn git_as_agent(cwd: Seq<char>, args: Seq<Seq<char>>) -> RequestView {
    RequestView::Git(InvocationView { cwd, args, as_agent: true, index: None, input: None })
}

/// A run of Git in a directory on a text.
pub open spec fn git_on(cwd: Seq<char>, args: Seq<Seq<char>>, input: Seq<char>) -> RequestView {
    RequestView::Git(InvocationView { cwd, args, as_agent: false, index: None, input: Some(input) })
}

/// A run of Git in a directory with an index file of its own.
pub open spec fn git_beside(cwd: Seq<char>, args: Seq<Seq<char>>, index: Seq<char>) -> RequestView {
    RequestView::Git(InvocationView { cwd, args, as_agent: false, index: Some(index), input: None })
}

/// Whether a piece of work asks for something after the first `k` replies of a log.
pub open spec fn asks<T>(
    work: spec_fn(Seq<Reply>) -> Script<T>,
    log: Seq<Reply>,
    k: int,
    request: RequestView,
) -> bool {
    0 <= k <= log.len() && work(log.take(k)) == Script::<T>::Ask(request)
}

/// Whether a reply is a run of Git that worked.
pub open spec fn worked(reply: Reply) -> bool {
    reply matches Reply::Git(output) && output.success
}

/// Whether a reply is a run of Git that worked and wrote a text.
pub open spec fn wrote(reply: Reply, text: Seq<char>) -> bool {
    reply matches Reply::Git(output) && output.success && output.stdout@ == encode_utf8(text)
}

/// Whether a reply is a run of Git that worked and wrote a text, whatever it is.
pub open spec fn wrote_text(reply: Reply) -> bool {
    exists|text: Seq<char>| wrote(reply, text)
}

/// Whether a reply is a run of Git that worked and wrote a word, with white space around it or not.
pub open spec fn wrote_word(reply: Reply, word: Seq<char>) -> bool {
    exists|text: Seq<char>| #[trigger] wrote(reply, text) && is_around(text, word)
}

pub(crate) proof fn lemma_run_text(reply: Reply)
    ensures
        run_done(reply) is Ok <==> worked(reply),
        run_text(reply) matches Ok(text) ==> wrote(reply, text),
        forall|text: Seq<char>| #[trigger] wrote(reply, text) ==> run_text(reply) == Ok::<
            Seq<char>,
            Refusal,
        >(text),
{
    if worked(reply) {
        let bytes = reply->Git_0.stdout@;
        texts_read_back(bytes);
        if run_text(reply) is Ok {
            let text = run_text(reply)->Ok_0;
            assert(bytes == encode_utf8(text));
        }
        assert forall|text: Seq<char>| #[trigger] wrote(reply, text) implies run_text(reply) == Ok::<
            Seq<char>,
            Refusal,
        >(text) by {
            assert(bytes == encode_utf8(text));
        }
    }
}

pub(crate) proof fn lemma_word(log: Seq<Reply>, at: nat, what: InvocationView)
    requires
        at < log.len(),
    ensures
        crate::script::word(log, at, what) matches Script::Done(next, Ok(found)) ==> next == at + 1
            && wrote_word(log[at as int], found),
        crate::script::text(log, at, what) matches Script::Done(next, Ok(found)) ==> next == at + 1
            && wrote(log[at as int], found),
        run(log, at, what) matches Script::Done(next, result) && (result is Ok <==> worked(
            log[at as int],
        )),
{
    lemma_run_text(log[at as int]);
    if run_text(log[at as int]) is Ok {
        trimming_takes_white_space_off(run_text(log[at as int])->Ok_0);
    }
}

// ---------------------------------------------------------------------------------------------
// Replaying
// ---------------------------------------------------------------------------------------------

/// Whether a commit is another one made again, as Git tells of it: the purpose and the paths stay, and
/// the identifier and the diff are what Git wrote.
pub open spec fn is_remade(
    item: CommitView,
    commit: CommitView,
    told_id: Reply,
    told_diff: Reply,
) -> bool {
    &&& commit.purpose == item.purpose
    &&& commit.changed_paths == item.changed_paths
    &&& wrote_word(told_id, commit.id)
    &&& wrote(told_diff, commit.diff)
}

/// Whether the made commits are the items, from the `i`-th on, that Git could pick, in their order;
/// each item takes three replies from the one at `at` on, and `picks` says which items those are.
pub open spec fn are_remade(
    log: Seq<Reply>,
    at: int,
    items: Seq<CommitView>,
    i: int,
    picks: Seq<int>,
    made: Seq<CommitView>,
) -> bool {
    &&& picks.len() == made.len()
    &&& forall|k: int|
        0 <= k < picks.len() ==> i <= #[trigger] picks[k] < items.len() && is_remade(
            items[picks[k]],
            made[k],
            log[at + 3 * (picks[k] - i) + 1],
            log[at + 3 * (picks[k] - i) + 2],
        )
    &&& forall|j: int, k: int| 0 <= j < k < picks.len() ==> #[trigger] picks[j] < #[trigger] picks[k]
    &&& forall|j: int|
        i <= j < items.len() ==> (picks.contains(j) <==> worked(#[trigger] log[at + 3 * (j - i)]))
}

/// What is said about a commit that could not be replayed.
pub open spec fn is_word_about(item: CommitView, event: UiView) -> bool {
    exists|reason: Seq<char>| event == UiView::Sensory(
        "Discarded conflicting review commit "@ + item.id + " ("@ + item.purpose
            + ") because replay failed: "@ + #[trigger] (reason + "\n\n"@ + item.diff),
    )
}

/// Whether one of the events from the given one on is a word about a commit.
pub open spec fn is_told(item: CommitView, events: Seq<UiView>, from: int) -> bool {
    exists|k: int| from <= k < events.len() && is_word_about(item, #[trigger] events[k])
}

/// Whether the rest of a session stays as it is.
pub open spec fn stays_put(state: GitView, next: GitView) -> bool {
    &&& next.repo_root == state.repo_root
    &&& next.worktree == state.worktree
    &&& next.state_dir == state.state_dir
    &&& next.branch == state.branch
    &&& next.session_branch == state.session_branch
    &&& next.lock_path == state.lock_path
    &&& next.mode == state.mode
    &&& next.cleaned == state.cleaned
}

/// What a replay of the items from the `i`-th on comes to, three replies for each of them.
pub open spec fn replay_came_to(
    log: Seq<Reply>,
    at: int,
    state: GitView,
    items: Seq<CommitView>,
    i: int,
    picks: Seq<int>,
    end: int,
    next: GitView,
) -> bool {
    &&& end == at + 3 * (items.len() - i)
    &&& i < items.len() ==> end <= log.len()
    &&& state.commits.is_prefix_of(next.commits)
    &&& are_remade(log, at, items, i, picks, next.commits.skip(state.commits.len() as int))
    &&& state.outbox.is_prefix_of(next.outbox)
    &&& next.outbox.len() - state.outbox.len() == items.len() - i - picks.len()
    &&& forall|j: int|
        i <= j < items.len() && !worked(log[at + 3 * (j - i)]) ==> is_told(
            #[trigger] items[j],
            next.outbox,
            state.outbox.len() as int,
        )
    &&& stays_put(state, next)
    &&& next.baseline == state.baseline
    &&& next.observed == state.observed
}

proof fn lemma_replay_outcome(
    log: Seq<Reply>,
    at: nat,
    state: GitView,
    items: Seq<CommitView>,
    i: int,
) -> (picks: Seq<int>)
    requires
        0 <= i <= items.len(),
    ensures
        replay_items(log, at, state, items, i) matches Script::Done(end, (next, Ok(_)))
            ==> replay_came_to(log, at as int, state, items, i, picks, end as int, next),
    decreases items.len() - i,
{
    if i == items.len() {
        assert(state.commits.skip(state.commits.len() as int) =~= Seq::empty());
        Seq::empty()
    } else if at >= log.len() {
        Seq::empty()
    } else {
        let item = items[i];
        lemma_run_text(log[at as int]);
        if worked(log[at as int]) {
            match readmit(log, at + 1, state, item, true) {
                Script::Done(b, (middle, Ok(_))) => {
                    let rest = lemma_replay_outcome(log, b, middle, items, i + 1);
                    let picks = seq![i] + rest;
                    if let Script::Done(end, (next, Ok(_))) = replay_items(log, at, state, items, i) {
                        assert(at + 2 < log.len());
                        lemma_word(log, at + 1, crate::command::head_run(state.worktree));
                        let id = middle.commits.last().id;
                        lemma_word(log, at + 2, crate::command::git_show_run(state.worktree, id));
                        let base = state.commits.len() as int;
                        let made = next.commits.skip(base);
                        let later = next.commits.skip(base + 1);
                        assert(made =~= seq![next.commits[base]] + later);
                        assert(next.commits[base] == middle.commits[base]);
                        assert(is_remade(item, made[0], log[(at + 1) as int], log[(at + 2) as int]));
                        assert forall|k: int| 0 <= k < picks.len() implies i <= #[trigger] picks[k]
                            < items.len() && is_remade(
                            items[picks[k]],
                            made[k],
                            log[at + 3 * (picks[k] - i) + 1],
                            log[at + 3 * (picks[k] - i) + 2],
                        ) by {
                            if k > 0 {
                                assert(picks[k] == rest[k - 1]);
                                assert(made[k] == later[k - 1]);
                                assert(b + 3 * (rest[k - 1] - (i + 1)) == at + 3 * (picks[k] - i));
                            }
                        }
                        assert forall|j: int| i <= j < items.len() implies (picks.contains(j)
                            <==> worked(#[trigger] log[at + 3 * (j - i)])) by {
                            if j == i {
                                assert(picks[0] == i);
                            } else {
                                assert(log[b + 3 * (j - (i + 1))] == log[at + 3 * (j - i)]);
                                if rest.contains(j) {
                                    let k = rest.index_of(j);
                                    assert(picks[k + 1] == j);
                                }
                                if picks.contains(j) {
                                    let k = picks.index_of(j);
                                    assert(rest[k - 1] == j);
                                }
                            }
                        }
                        assert forall|j: int|
                            i <= j < items.len() && !worked(log[at + 3 * (j - i)]) implies is_told(
                            #[trigger] items[j],
                            next.outbox,
                            state.outbox.len() as int,
                        ) by {
                            assert(b + 3 * (j - (i + 1)) == at + 3 * (j - i));
                            assert(is_told(items[j], next.outbox, middle.outbox.len() as int));
                        }
                        assert(are_remade(log, at as int, items, i, picks, made));
                        assert(state.commits =~= next.commits.take(base)) by {
                            assert(middle.commits =~= next.commits.take(base + 1));
                        }
                        assert(replay_came_to(log, at as int, state, items, i, picks, end as int, next));
                    }
                    picks
                },
                _ => Seq::empty(),
            }
        } else {
            let conflict = run_done(log[at as int])->Err_0;
            let event = UiView::Sensory(crate::review::discarded(item, "replay failed"@, conflict.1));
            let middle = state.noting(event);
            let picks = lemma_replay_outcome(log, at + 3, middle, items, i + 1);
            if let Script::Done(end, (next, Ok(_))) = replay_items(log, at, state, items, i) {
                assert(at + 2 < log.len());
                let reason = conflict.1;
                assert("Discarded conflicting review commit "@ + item.id + " ("@ + item.purpose
                    + ") because "@ + "replay failed"@ + ": "@ + reason + "\n\n"@ + item.diff
                    =~= "Discarded conflicting review commit "@ + item.id + " ("@ + item.purpose
                    + ") because replay failed: "@ + (reason + "\n\n"@ + item.diff)) by {
                    reveal_strlit(") because ");
                    reveal_strlit("replay failed");
                    reveal_strlit(": ");
                    reveal_strlit(") because replay failed: ");
                    assert(") because "@ + "replay failed"@ + ": "@ =~= ") because replay failed: "@);
                }
                assert(is_word_about(item, event));
                assert(next.outbox[state.outbox.len() as int] == middle.outbox[state.outbox.len() as int]);
                assert forall|k: int| 0 <= k < picks.len() implies i <= #[trigger] picks[k]
                    < items.len() && is_remade(
                    items[picks[k]],
                    next.commits.skip(state.commits.len() as int)[k],
                    log[at + 3 * (picks[k] - i) + 1],
                    log[at + 3 * (picks[k] - i) + 2],
                ) by {
                    assert(at + 3 + 3 * (picks[k] - (i + 1)) == at + 3 * (picks[k] - i));
                }
                assert forall|j: int| i <= j < items.len() implies (picks.contains(j) <==> worked(
                    #[trigger] log[at + 3 * (j - i)],
                )) by {
                    assert(at + 3 + 3 * (j - (i + 1)) == at + 3 * (j - i));
                    if j > i {
                        assert(log[at + 3 + 3 * (j - (i + 1))] == log[at + 3 * (j - i)]);
                    } else if picks.contains(j) {
                        let k = picks.index_of(j);
                        assert(picks[k] == j);
                    }
                }
                assert forall|j: int|
                    i <= j < items.len() && !worked(log[at + 3 * (j - i)]) implies is_told(
                    #[trigger] items[j],
                    next.outbox,
                    state.outbox.len() as int,
                ) by {
                    if j == i {
                        let k = state.outbox.len() as int;
                        assert(is_word_about(items[j], next.outbox[k]));
                    } else {
                        assert(at + 3 + 3 * (j - (i + 1)) == at + 3 * (j - i));
                        assert(is_told(items[j], next.outbox, middle.outbox.len() as int));
                    }
                }
                assert(state.outbox =~= next.outbox.take(state.outbox.len() as int)) by {
                    assert(middle.outbox =~= next.outbox.take(middle.outbox.len() as int));
                }
                assert(replay_came_to(log, at as int, state, items, i, picks, end as int, next));
            }
            picks
        }
    }
}

/// Whether a commit is on top of the worktree when the `j`-th item is picked: the one that came of the
/// nearest item before it that Git could pick, and `start` where there is none.
pub open spec fn is_top(
    log: Seq<Reply>,
    at: int,
    i: int,
    j: int,
    start: Seq<char>,
    tip: Seq<char>,
) -> bool {
    ||| tip == start && forall|m: int| i <= m < j ==> !worked(#[trigger] log[at + 3 * (m - i)])
    ||| exists|m: int|
        {
            &&& i <= m < j
            &&& worked(#[trigger] log[at + 3 * (m - i)])
            &&& wrote_word(log[at + 3 * (m - i) + 1], tip)
            &&& forall|n: int| m < n < j ==> !worked(#[trigger] log[at + 3 * (n - i)])
        }
}

/// Whether a replay asks for what it has to: the item is picked as the agent; where Git could do that,
/// the new commit's identifier and diff are asked for; otherwise the attempt is given up and the
/// worktree is put back on top of what was replayed before.
pub open spec fn replay_asks<T>(
    work: spec_fn(Seq<Reply>) -> Script<T>,
    log: Seq<Reply>,
    at: int,
    worktree: Seq<char>,
    items: Seq<CommitView>,
    i: int,
    j: int,
    start: Seq<char>,
) -> bool {
    let p = at + 3 * (j - i);
    &&& asks(
        work,
        log,
        p,
        git_as_agent(worktree, seq!["cherry-pick"@, "--no-gpg-sign"@, items[j].id]),
    )
    &&& if worked(log[p]) {
        &&& asks(work, log, p + 1, git(worktree, seq!["rev-parse"@, "HEAD"@]))
        &&& exists|id: Seq<char>| #[trigger]
            wrote_word(log[p + 1], id) && asks(
                work,
                log,
                p + 2,
                git(
                    worktree,
                    seq![
                        "show"@,
                        "--format="@,
                        "--binary"@,
                        "--no-ext-diff"@,
                        "--no-textconv"@,
                        id,
                    ],
                ),
            )
    } else {
        &&& asks(work, log, p + 1, git(worktree, seq!["cherry-pick"@, "--abort"@]))
        &&& exists|tip: Seq<char>| #[trigger]
            is_top(log, at, i, j, start, tip) && asks(
                work,
                log,
                p + 2,
                git(worktree, seq!["reset"@, "--hard"@, tip]),
            )
    }
}

proof fn lemma_top_step(
    log: Seq<Reply>,
    at: int,
    i: int,
    j: int,
    start: Seq<char>,
    middle: Seq<char>,
    tip: Seq<char>,
)
    requires
        i < j,
        is_top(log, at + 3, i + 1, j, middle, tip),
        worked(log[at]) ==> wrote_word(log[at + 1], middle),
        !worked(log[at]) ==> middle == start,
    ensures
        is_top(log, at, i, j, start, tip),
{
    if tip == middle && (forall|m: int|
        i + 1 <= m < j ==> !worked(#[trigger] log[at + 3 + 3 * (m - (i + 1))])) {
        assert forall|m: int| i + 1 <= m < j implies !worked(#[trigger] log[at + 3 * (m - i)]) by {
            assert(!worked(log[at + 3 + 3 * (m - (i + 1))]));
        }
        assert(log[at + 3 * (i - i)] == log[at]);
        assert(log[at + 3 * (i - i) + 1] == log[at + 1]);
    } else {
        let m = choose|m: int|
            {
                &&& i + 1 <= m < j
                &&& worked(#[trigger] log[at + 3 + 3 * (m - (i + 1))])
                &&& wrote_word(log[at + 3 + 3 * (m - (i + 1)) + 1], tip)
                &&& forall|n: int| m < n < j ==> !worked(#[trigger] log[at + 3 + 3 * (n - (i + 1))])
            };
        assert(log[at + 3 * (m - i)] == log[at + 3 + 3 * (m - (i + 1))]);
        assert forall|n: int| m < n < j implies !worked(#[trigger] log[at + 3 * (n - i)]) by {
            assert(!worked(log[at + 3 + 3 * (n - (i + 1))]));
        }
    }
}

proof fn lemma_replay_asks(
    log: Seq<Reply>,
    at: nat,
    state: GitView,
    items: Seq<CommitView>,
    i: int,
    j: int,
)
    requires
        0 <= i <= j < items.len(),
        at + 3 * (items.len() - i) <= log.len(),
        replay_items(log, at, state, items, i) matches Script::Done(_, (_, Ok(_))),
    ensures
        replay_asks(
            |l: Seq<Reply>| replay_items(l, at, state, items, i),
            log,
            at as int,
            state.worktree,
            items,
            i,
            j,
            state.tip(),
        ),
    decreases j - i,
{
    let work = |l: Seq<Reply>| replay_items(l, at, state, items, i);
    let p = at + 3 * (j - i);
    let l0 = log.take(p);
    let l1 = log.take(p + 1);
    let l2 = log.take(p + 2);
    let item = items[i];
    lemma_run_text(log[at as int]);
    lemma_word(log, at + 1, crate::command::head_run(state.worktree));
    if i == j {
        assert(l1[at as int] == log[at as int] && l2[at as int] == log[at as int]);
        assert(l2[(at + 1) as int] == log[(at + 1) as int]);
        if worked(log[at as int]) {
            let id = crate::script::word(log, at + 1, crate::command::head_run(state.worktree))->Done_1->Ok_0;
            assert(wrote_word(log[p + 1], id));
            assert(asks(
                work,
                log,
                p + 2,
                git(
                    state.worktree,
                    seq!["show"@, "--format="@, "--binary"@, "--no-ext-diff"@, "--no-textconv"@, id],
                ),
            ));
        } else {
            assert(is_top(log, at as int, i, j, state.tip(), state.tip()));
            assert(asks(
                work,
                log,
                p + 2,
                git(state.worktree, seq!["reset"@, "--hard"@, state.tip()]),
            ));
        }
    } else {
        assert(forall|k: int| 0 <= k < at + 3 ==> l0[k] == log[k] && l1[k] == log[k] && l2[k] == log[k]);
        let middle = if worked(log[at as int]) {
            readmit(log, at + 1, state, item, true)->Done_1.0
        } else {
            state.noting(
                UiView::Sensory(
                    crate::review::discarded(
                        item,
                        "replay failed"@,
                        run_done(log[at as int])->Err_0.1,
                    ),
                ),
            )
        };
        lemma_replay_asks(log, at + 3, middle, items, i + 1, j);
        let later = |l: Seq<Reply>| replay_items(l, at + 3, middle, items, i + 1);
        assert(at + 3 + 3 * (j - (i + 1)) == p);
        assert(work(l0) == later(l0));
        assert(work(l1) == later(l1));
        assert(work(l2) == later(l2));
        if !worked(log[p]) {
            let tip = choose|tip: Seq<char>| #[trigger]
                is_top(log, (at + 3) as int, i + 1, j, middle.tip(), tip) && asks(
                    later,
                    log,
                    p + 2,
                    git(state.worktree, seq!["reset"@, "--hard"@, tip]),
                );
            lemma_top_step(log, at as int, i, j, state.tip(), middle.tip(), tip);
            assert(asks(work, log, p + 2, git(state.worktree, seq!["reset"@, "--hard"@, tip])));
        } else {
            let id = choose|id: Seq<char>| #[trigger]
                wrote_word(log[p + 1], id) && asks(
                    later,
                    log,
                    p + 2,
                    git(
                        state.worktree,
                        seq![
                            "show"@,
                            "--format="@,
                            "--binary"@,
                            "--no-ext-diff"@,
                            "--no-textconv"@,
                            id,
                        ],
                    ),
                );
            assert(asks(
                work,
                log,
                p + 2,
                git(
                    state.worktree,
                    seq!["show"@, "--format="@, "--binary"@, "--no-ext-diff"@, "--no-textconv"@, id],
                ),
            ));
        }
    }
}

/// Whether a replay of a queue onto a snapshot came to an end state, from the reply at `at` on: the
/// worktree is put onto the snapshot, each commit is replayed, those that Git could pick are the queue
/// afterwards, in their order, and there is a word about each of the others.
pub open spec fn is_replay<T>(
    work: spec_fn(Seq<Reply>) -> Script<T>,
    log: Seq<Reply>,
    at: int,
    worktree: Seq<char>,
    items: Seq<CommitView>,
    baseline: Seq<char>,
    said: Seq<UiView>,
    end: int,
    next: GitView,
) -> bool {
    &&& end == at + 1 + 3 * items.len()
    &&& end <= log.len()
    &&& asks(work, log, at, git(worktree, seq!["reset"@, "--hard"@, baseline]))
    &&& worked(log[at])
    &&& forall|j: int|
        0 <= j < items.len() ==> {
            let item = #[trigger] items[j];
            &&& replay_asks(work, log, at + 1, worktree, items, 0, j, baseline)
            &&& !worked(log[at + 1 + 3 * j]) ==> is_told(item, next.outbox, said.len() as int)
        }
    &&& exists|picks: Seq<int>| #[trigger]
        are_remade(log, at + 1, items, 0, picks, next.commits) && next.outbox.len() - said.len()
            == items.len() - picks.len()
    &&& said.is_prefix_of(next.outbox)
    &&& next.baseline == baseline
}

pub(crate) proof fn lemma_replay(log: Seq<Reply>, at: nat, state: GitView, baseline: Seq<char>)
    ensures
        replay(log, at, state, baseline) matches Script::Done(end, (next, Ok(_))) ==> is_replay(
            |l: Seq<Reply>| replay(l, at, state, baseline),
            log,
            at as int,
            state.worktree,
            state.commits,
            baseline,
            state.outbox,
            end as int,
            next,
        ) && stays_put(state, next) && next.observed == state.observed,
{
    let work = |l: Seq<Reply>| replay(l, at, state, baseline);
    let items = state.commits;
    let based = GitView { commits: Seq::empty(), baseline, ..state };
    let inner = |l: Seq<Reply>| replay_items(l, at + 1, based, items, 0);
    if let Script::Done(end, (next, Ok(_))) = replay(log, at, state, baseline) {
        assert(at < log.len());
        lemma_run_text(log[at as int]);
        let picks = lemma_replay_outcome(log, at + 1, based, items, 0);
        assert(replay_came_to(log, (at + 1) as int, based, items, 0, picks, end as int, next));
        assert(next.commits.skip(0) =~= next.commits);
        assert(are_remade(log, (at + 1) as int, items, 0, picks, next.commits));
        assert(log.take(at as int).len() == at);
        assert forall|j: int| 0 <= j < items.len() implies {
            let item = #[trigger] items[j];
            &&& replay_asks(work, log, (at + 1) as int, state.worktree, items, 0, j, baseline)
            &&& !worked(log[at + 1 + 3 * j]) ==> is_told(item, next.outbox, state.outbox.len() as int)
        } by {
            lemma_replay_asks(log, at + 1, based, items, 0, j);
            let p = at + 1 + 3 * j;
            assert(p == at + 1 + 3 * (j - 0));
            assert(log.take(p)[at as int] == log[at as int]);
            assert(log.take(p + 1)[at as int] == log[at as int]);
            assert(log.take(p + 2)[at as int] == log[at as int]);
            assert(work(log.take(p)) == inner(log.take(p)));
            assert(work(log.take(p + 1)) == inner(log.take(p + 1)));
            assert(work(log.take(p + 2)) == inner(log.take(p + 2)));
            lemma_same_asks(inner, work, log, (at + 1) as int, state.worktree, items, j, baseline);
        }
    }
}

proof fn lemma_same_asks<A, B>(
    inner: spec_fn(Seq<Reply>) -> Script<A>,
    work: spec_fn(Seq<Reply>) -> Script<B>,
    log: Seq<Reply>,
    at: int,
    worktree: Seq<char>,
    items: Seq<CommitView>,
    j: int,
    start: Seq<char>,
)
    requires
        replay_asks(inner, log, at, worktree, items, 0, j, start),
        forall|k: int, request: RequestView|
            at + 3 * j <= k <= at + 3 * j + 2 && #[trigger] asks(inner, log, k, request) ==> asks(
                work,
                log,
                k,
                request,
            ),
    ensures
        replay_asks(work, log, at, worktree, items, 0, j, start),
{
    let p = at + 3 * (j - 0);
    if worked(log[p]) {
        let id = choose|id: Seq<char>| #[trigger]
            wrote_word(log[p + 1], id) && asks(
                inner,
                log,
                p + 2,
                git(
                    worktree,
                    seq!["show"@, "--format="@, "--binary"@, "--no-ext-diff"@, "--no-textconv"@, id],
                ),
            );
        assert(wrote_word(log[p + 1], id));
    } else {
        let tip = choose|tip: Seq<char>| #[trigger]
            is_top(log, at, 0, j, start, tip) && asks(
                inner,
                log,
                p + 2,
                git(worktree, seq!["reset"@, "--hard"@, tip]),
            );
        assert(is_top(log, at, 0, j, start, tip));
    }
}

/// A replay that ends well puts the worktree onto the snapshot and replays every commit of the queue
/// there. Those that Git could pick make up the queue, in their order and with what Git tells of them,
/// and there is a word about each of the others. Nothing else about the session changes.
pub proof fn a_replay_takes_every_commit(
    log: Seq<Reply>,
    at: nat,
    state: GitView,
    baseline: Seq<char>,
    end: nat,
    next: GitView,
)
    requires
        replay(log, at, state, baseline) == Script::<(GitView, Result<(), Refusal>)>::Done(
            end,
            (next, Ok(())),
        ),
    ensures
        is_replay(
            |l: Seq<Reply>| replay(l, at, state, baseline),
            log,
            at as int,
            state.worktree,
            state.commits,
            baseline,
            state.outbox,
            end as int,
            next,
        ),
        stays_put(state, next),
        next.observed == state.observed,
{
    lemma_replay(log, at, state, baseline);
}

// ---------------------------------------------------------------------------------------------
// Discarding
// ---------------------------------------------------------------------------------------------

/// Whether a list is another one without what stands at a position: what is in front of it stays, and
/// what is behind it moves up.
pub open spec fn is_without(all: Seq<CommitView>, i: int, rest: Seq<CommitView>) -> bool {
    &&& 0 <= i < all.len()
    &&& rest.len() == all.len() - 1
    &&& forall|k: int| 0 <= k < i ==> #[trigger] rest[k] == all[k]
    &&& forall|k: int| i <= k < rest.len() ==> #[trigger] rest[k] == all[k + 1]
}

/// Whether a position is that of the first commit with an identifier.
pub open spec fn is_first(commits: Seq<CommitView>, id: Seq<char>, i: int) -> bool {
    &&& 0 <= i < commits.len()
    &&& commits[i].id == id
    &&& forall|k: int| 0 <= k < i ==> (#[trigger] commits[k]).id != id
}

/// A commit is found by its identifier wherever it stands in the queue.
pub proof fn commits_are_found_by_their_identifiers(commits: Seq<CommitView>, id: Seq<char>)
    ensures
        match position(commits, id, 0) {
            Some(i) => is_first(commits, id, i),
            None => forall|k: int| 0 <= k < commits.len() ==> (#[trigger] commits[k]).id != id,
        },
{
    lemma_position(commits, id, 0);
}

proof fn lemma_position(commits: Seq<CommitView>, id: Seq<char>, i: int)
    requires
        0 <= i <= commits.len(),
        forall|k: int| 0 <= k < i ==> (#[trigger] commits[k]).id != id,
    ensures
        match position(commits, id, i) {
            Some(p) => is_first(commits, id, p),
            None => forall|k: int| 0 <= k < commits.len() ==> (#[trigger] commits[k]).id != id,
        },
    decreases commits.len() - i,
{
    if i < commits.len() && commits[i].id != id {
        lemma_position(commits, id, i + 1);
    }
}

proof fn lemma_named(state: GitView, id: Seq<char>)
    ensures
        match named_position(state, id) {
            Some(i) => is_first(state.commits, resolved_alias(state.aliases, Set::empty(), id), i)
                && is_without(state.commits, i, state.commits.remove(i)),
            None => forall|k: int|
                0 <= k < state.commits.len() ==> (#[trigger] state.commits[k]).id != resolved_alias(
                    state.aliases,
                    Set::empty(),
                    id,
                ),
        },
{
    commits_are_found_by_their_identifiers(
        state.commits,
        resolved_alias(state.aliases, Set::empty(), id),
    );
}

/// Discarding a commit fails at once for an identifier that leads to none. Where it works, the commit
/// that the identifier leads to is gone, and every other commit of the queue, in front of it and behind
/// it, is replayed on the snapshot where the queue stood: it stays in the queue, in its order, or there
/// is a word about it.
pub proof fn a_discard_takes_one_commit_only(
    log: Seq<Reply>,
    at: nat,
    state: GitView,
    id: String,
    end: nat,
    next: GitView,
    result: Result<(), Refusal>,
)
    requires
        obeying(log, at, state, GitControlCommand::Discard(id)) == Script::<
            (GitView, Result<(), Refusal>),
        >::Done(end, (next, result)),
    ensures
        ({
            let named = resolved_alias(state.aliases, Set::empty(), id@);
            let known = exists|k: int|
                0 <= k < state.commits.len() && (#[trigger] state.commits[k]).id == named;
            &&& !known ==> result is Err && next == state && end == at
            &&& result is Ok ==> exists|i: int, rest: Seq<CommitView>|
                {
                    &&& is_first(state.commits, named, i)
                    &&& #[trigger] is_without(state.commits, i, rest)
                    &&& is_replay(
                        |l: Seq<Reply>| obeying(l, at, state, GitControlCommand::Discard(id)),
                        log,
                        at as int,
                        state.worktree,
                        rest,
                        state.baseline,
                        state.outbox,
                        end as int,
                        next,
                    )
                }
            &&& result is Ok ==> stays_put(state, next) && next.observed == state.observed
        }),
{
    lemma_named(state, id@);
    match named_position(state, id@) {
        None => {},
        Some(i) => {
            let rest = state.commits.remove(i);
            let fewer = GitView { commits: rest, ..state };
            assert(state.commits[i].id == resolved_alias(state.aliases, Set::empty(), id@));
            if result is Ok {
                lemma_replay(log, at, fewer, state.baseline);
                let inner = |l: Seq<Reply>| replay(l, at, fewer, state.baseline);
                let work = |l: Seq<Reply>| obeying(l, at, state, GitControlCommand::Discard(id));
                lemma_same_replay(
                    inner,
                    work,
                    log,
                    at as int,
                    state.worktree,
                    rest,
                    state.baseline,
                    state.outbox,
                    end as int,
                    next,
                );
                assert(is_without(state.commits, i, rest));
            }
        },
    }
}

/// A piece of work that is a replay from some reply on asks for what the replay asks for.
pub(crate) proof fn lemma_same_replay<A, B>(
    inner: spec_fn(Seq<Reply>) -> Script<A>,
    work: spec_fn(Seq<Reply>) -> Script<B>,
    log: Seq<Reply>,
    at: int,
    worktree: Seq<char>,
    items: Seq<CommitView>,
    baseline: Seq<char>,
    said: Seq<UiView>,
    end: int,
    next: GitView,
)
    requires
        is_replay(inner, log, at, worktree, items, baseline, said, end, next),
        forall|k: int, request: RequestView|
            at <= k && #[trigger] asks(inner, log, k, request) ==> asks(work, log, k, request),
    ensures
        is_replay(work, log, at, worktree, items, baseline, said, end, next),
{
    assert forall|j: int| 0 <= j < items.len() implies {
        let item = #[trigger] items[j];
        &&& replay_asks(work, log, at + 1, worktree, items, 0, j, baseline)
        &&& !worked(log[at + 1 + 3 * j]) ==> is_told(item, next.outbox, said.len() as int)
    } by {
        assert(replay_asks(inner, log, at + 1, worktree, items, 0, j, baseline));
        lemma_same_asks(inner, work, log, at + 1, worktree, items, j, baseline);
    }
}

// ---------------------------------------------------------------------------------------------
// Conflicts
// ---------------------------------------------------------------------------------------------

/// A path below a directory.
pub open spec fn below(directory: Seq<char>, path: Seq<char>) -> Seq<char> {
    if directory.len() > 0 && directory.last() != '/' {
        directory + "/"@ + path
    } else {
        directory + path
    }
}

/// What brings a file into its resolved state: its whole content is written as it was given, or the
/// file is removed.
pub open spec fn storing_request(worktree: Seq<char>, file: ConflictFileView) -> RequestView {
    match file.content {
        Some(content) => RequestView::WriteFile { path: below(worktree, file.path), content },
        None => RequestView::RemoveFile(below(worktree, file.path)),
    }
}

/// Whether a resolved file is brought into the worktree by two requests, the first of them after `p`
/// replies: a look that finds no link, and the write or the removal, which works.
pub open spec fn is_stored<T>(
    work: spec_fn(Seq<Reply>) -> Script<T>,
    log: Seq<Reply>,
    p: int,
    worktree: Seq<char>,
    file: ConflictFileView,
) -> bool {
    &&& asks(work, log, p, RequestView::Inspect(below(worktree, file.path)))
    &&& log[p] matches Reply::Inspected { is_symlink, len } && !is_symlink
    &&& asks(work, log, p + 1, storing_request(worktree, file))
    &&& log[p + 1] is Done || (file.content is None && log[p + 1] is Missing)
}

proof fn lemma_stored(
    log: Seq<Reply>,
    at: nat,
    worktree: Seq<char>,
    files: Seq<ConflictFileView>,
    i: int,
    j: int,
)
    requires
        0 <= i <= files.len(),
    ensures
        storing_all(log, at, worktree, files, i) matches Script::Done(end, Ok(_)) ==> {
            &&& end == at + 2 * (files.len() - i)
            &&& i < files.len() ==> end <= log.len()
            &&& i <= j < files.len() ==> is_stored(
                |l: Seq<Reply>| storing_all(l, at, worktree, files, i),
                log,
                at + 2 * (j - i),
                worktree,
                files[j],
            )
        },
    decreases files.len() - i,
{
    if i < files.len() {
        let work = |l: Seq<Reply>| storing_all(l, at, worktree, files, i);
        let file = files[i];
        if let Script::Done(end, Ok(_)) = storing_all(log, at, worktree, files, i) {
            assert(at + 1 < log.len());
            let later = |l: Seq<Reply>| storing_all(l, at + 2, worktree, files, i + 1);
            lemma_stored(log, at + 2, worktree, files, i + 1, j);
            if j == i {
                let l0 = log.take(at as int);
                let l1 = log.take((at + 1) as int);
                assert(l1[at as int] == log[at as int]);
                assert(storing(l0, at, worktree, file) == Script::<Result<(), Refusal>>::Ask(
                    RequestView::Inspect(below(worktree, file.path)),
                ));
                assert(storing(l1, at, worktree, file) == Script::<Result<(), Refusal>>::Ask(
                    storing_request(worktree, file),
                ));
            } else if i < j < files.len() {
                let p = at + 2 * (j - i);
                assert(at + 2 + 2 * (j - (i + 1)) == p);
                let l0 = log.take(p);
                let l1 = log.take(p + 1);
                assert(l0[at as int] == log[at as int] && l1[at as int] == log[at as int]);
                assert(l0[(at + 1) as int] == log[(at + 1) as int] && l1[(at + 1) as int] == log[(at + 1) as int]);
                assert(work(l0) == later(l0));
                assert(work(l1) == later(l1));
            }
        }
    }
}

proof fn lemma_storing_writes(
    log: Seq<Reply>,
    at: nat,
    worktree: Seq<char>,
    files: Seq<ConflictFileView>,
    i: int,
)
    requires
        0 <= i <= files.len(),
    ensures
        storing_all(log, at, worktree, files, i) matches Script::Ask(request) ==> request is Inspect || (
        exists|j: int| i <= j < files.len() && request == storing_request(worktree, #[trigger] files[j])),
    decreases files.len() - i,
{
    if i < files.len() {
        match storing(log, at, worktree, files[i]) {
            Script::Ask(request) => {
                assert(request is Inspect || request == storing_request(worktree, files[i]));
            },
            Script::Done(b, Ok(_)) => {
                lemma_storing_writes(log, b, worktree, files, i + 1);
            },
            _ => {},
        }
    }
}

/// A resolution that is accepted names each path in conflict once and no other. Each of its files is
/// written with exactly the content that was given, or removed where none was, and then those paths are
/// staged and checked. Whether it is accepted or not, no other file is ever written.
pub proof fn a_resolution_is_stored_as_given(
    log: Seq<Reply>,
    at: nat,
    worktree: Seq<char>,
    conflict: ConflictView,
    resolved: Seq<ConflictFileView>,
)
    ensures
        ({
            let work = |l: Seq<Reply>| resolving(l, at, worktree, conflict, resolved);
            let n = resolved.len() as int;
            &&& resolving(log, at, worktree, conflict, resolved) matches Script::Done(end, Ok(_)) ==> {
                &&& forall|j: int|
                    0 <= j < n ==> is_stored(work, log, at + 2 * j, worktree, #[trigger] resolved[j])
                &&& forall|j: int, k: int|
                    0 <= j < k < n ==> (#[trigger] resolved[j]).path != (#[trigger] resolved[k]).path
                &&& forall|j: int|
                    0 <= j < n ==> exists|k: int|
                        0 <= k < conflict.files.len() && (#[trigger] conflict.files[k]).path == (
                        #[trigger] resolved[j]).path
                &&& forall|k: int|
                    0 <= k < conflict.files.len() ==> exists|j: int|
                        0 <= j < n && (#[trigger] resolved[j]).path == (
                        #[trigger] conflict.files[k]).path
                &&& asks(
                    work,
                    log,
                    at + 2 * n,
                    git(
                        worktree,
                        seq!["add"@, "-A"@, "--"@] + Seq::new(resolved.len(), |j: int| resolved[j].path),
                    ),
                )
                &&& asks(
                    work,
                    log,
                    at + 2 * n + 1,
                    git(
                        worktree,
                        seq!["diff"@, "--no-ext-diff"@, "--no-textconv"@, "--cached"@, "--check"@],
                    ),
                )
                &&& end == at + 2 * n + 2 && end <= log.len()
                &&& worked(log[at + 2 * n]) && worked(log[at + 2 * n + 1])
            }
            &&& resolving(log, at, worktree, conflict, resolved) matches Script::Ask(request) ==> {
                ||| request is Inspect
                ||| request is Git
                ||| exists|j: int|
                    0 <= j < n && request == storing_request(worktree, #[trigger] resolved[j])
            }
        }),
{
    let work = |l: Seq<Reply>| resolving(l, at, worktree, conflict, resolved);
    let inner = |l: Seq<Reply>| storing_all(l, at, worktree, resolved, 0);
    let n = resolved.len() as int;
    lemma_storing_writes(log, at, worktree, resolved, 0);
    if let Script::Done(end, Ok(_)) = resolving(log, at, worktree, conflict, resolved) {
        let paths = file_paths(resolved);
        let wanted = file_paths(conflict.files);
        lemma_stored(log, at, worktree, resolved, 0, 0);
        lemma_stored_prefix(log, at, worktree, resolved, 0, at + 2 * n);
        lemma_stored_prefix(log, at, worktree, resolved, 0, at + 2 * n + 1);
        let b = (at + 2 * n) as nat;
        assert(storing_all(log, at, worktree, resolved, 0) matches Script::Done(c, Ok(_)) && c == b);
        assert(b + 1 < log.len());
        lemma_run_text(log[b as int]);
        lemma_run_text(log[(b + 1) as int]);
        assert(log.take((b + 1) as int)[b as int] == log[b as int]);
        assert(seq!["add"@, "-A"@, "--"@] + Seq::new(resolved.len(), |j: int| resolved[j].path)
            =~= seq!["add"@, "-A"@, "--"@] + paths);
        assert forall|j: int| 0 <= j < n implies is_stored(
            work,
            log,
            at + 2 * j,
            worktree,
            #[trigger] resolved[j],
        ) by {
            lemma_stored(log, at, worktree, resolved, 0, j);
            assert(at + 2 * (j - 0) == at + 2 * j);
        }
        assert forall|j: int, k: int| 0 <= j < k < n implies (#[trigger] resolved[j]).path != (
        #[trigger] resolved[k]).path by {
            assert(paths[j] != paths[k]);
        }
        assert forall|j: int| 0 <= j < n implies exists|k: int|
            0 <= k < conflict.files.len() && (#[trigger] conflict.files[k]).path == (
            #[trigger] resolved[j]).path by {
            assert(paths.contains(paths[j]));
            assert(paths.to_set().contains(paths[j]));
            assert(wanted.to_set().contains(paths[j]));
            let k = wanted.index_of(paths[j]);
            assert(conflict.files[k].path == resolved[j].path);
        }
        assert forall|k: int| 0 <= k < conflict.files.len() implies exists|j: int|
            0 <= j < n && (#[trigger] resolved[j]).path == (#[trigger] conflict.files[k]).path by {
            assert(wanted.contains(wanted[k]));
            assert(wanted.to_set().contains(wanted[k]));
            assert(paths.to_set().contains(wanted[k]));
            let j = paths.index_of(wanted[k]);
            assert(resolved[j].path == conflict.files[k].path);
        }
    }
}

/// Replies behind those that were used up make no difference.
proof fn lemma_stored_prefix(
    log: Seq<Reply>,
    at: nat,
    worktree: Seq<char>,
    files: Seq<ConflictFileView>,
    i: int,
    m: int,
)
    requires
        0 <= i <= files.len(),
        storing_all(log, at, worktree, files, i) matches Script::Done(_, Ok(_)),
        at + 2 * (files.len() - i) <= m <= log.len(),
    ensures
        storing_all(log.take(m), at, worktree, files, i) == storing_all(log, at, worktree, files, i),
    decreases files.len() - i,
{
    if i < files.len() {
        let l = log.take(m);
        assert(l[at as int] == log[at as int] && l[(at + 1) as int] == log[(at + 1) as int]);
        lemma_stored_prefix(log, at + 2, worktree, files, i + 1, m);
    }
}

/// Whether a commit had to go for want of a resolution, with a word about it.
pub open spec fn is_dropped(state: GitView, item: CommitView, next: GitView) -> bool {
    &&& next.commits == state.commits
    &&& next.outbox.len() == state.outbox.len() + 1
    &&& state.outbox.is_prefix_of(next.outbox)
    &&& exists|reason: Seq<char>|
        next.outbox.last() == UiView::Sensory(
            "Discarded conflicting review commit "@ + item.id + " ("@ + item.purpose
                + ") because conflict resolution failed: "@ + #[trigger] (reason + "\n\n"@
                + item.diff),
        )
}

/// A resolution that is taken over and committed adds one commit to the queue: the one in conflict with
/// its purpose and paths, under the identifier and with the diff that Git tells of. One that is not
/// leaves the queue as it was and says a word about the commit that had to go.
pub proof fn a_resolution_is_recommitted(
    log: Seq<Reply>,
    at: nat,
    state: GitView,
    item: CommitView,
    conflict: ConflictView,
    resolved: Seq<ConflictFileView>,
    end: nat,
    next: GitView,
    changed: bool,
)
    requires
        adopting_resolution(log, at, state, item, conflict, resolved) == Script::<
            (GitView, Result<bool, Refusal>),
        >::Done(end, (next, Ok(changed))),
    ensures
        changed,
        stays_put(state, next),
        next.baseline == state.baseline,
        next.observed == state.observed,
        ({
            let work = |l: Seq<Reply>| adopting_resolution(l, at, state, item, conflict, resolved);
            let stored = resolving(log, at + 1, state.worktree, conflict, resolved);
            if next.commits != state.commits {
                &&& stored matches Script::Done(b, Ok(_)) && end == b + 3
                &&& end <= log.len()
                &&& next.commits.len() == state.commits.len() + 1
                &&& next.commits.drop_last() == state.commits
                &&& worked(log[end - 3])
                &&& is_remade(item, next.commits.last(), log[end - 2], log[end - 1])
                &&& next.outbox == state.outbox
                &&& asks(
                    work,
                    log,
                    end - 3,
                    git_as_agent(
                        state.worktree,
                        seq!["commit"@, "--no-verify"@, "--no-gpg-sign"@, "-m"@, item.purpose],
                    ),
                )
            } else {
                &&& exists|id: Seq<char>| #[trigger]
                    is_dropped(state, CommitView { id, ..item }, next) && (id == item.id || exists|k: int|
                        at <= k < end && wrote_word(#[trigger] log[k], id))
                &&& asks(
                    work,
                    log,
                    end - 1,
                    git(
                        state.worktree,
                        seq![
                            "reset"@,
                            "--hard"@,
                            if state.commits.len() == 0 {
                                state.baseline
                            } else {
                                state.commits.last().id
                            },
                        ],
                    ),
                )
            }
        }),
{
    let work = |l: Seq<Reply>| adopting_resolution(l, at, state, item, conflict, resolved);
    assert(at < log.len());
    a_resolution_is_stored_as_given(log, at + 1, state.worktree, conflict, resolved);
    match resolving(log, at + 1, state.worktree, conflict, resolved) {
        Script::Ask(_) => {},
        Script::Done(b, Err(refusal)) => {
            lemma_resolving_prefix(log, at + 1, state.worktree, conflict, resolved, end - 1);
            assert(log.take(end - 1)[at as int] == log[at as int]);
            lemma_drop_word(state, item, refusal);
            assert(is_dropped(state, CommitView { id: item.id, ..item }, next));
        },
        Script::Done(b, Ok(_)) => {
            assert(b < log.len());
            lemma_run_text(log[b as int]);
            lemma_resolving_prefix(log, at + 1, state.worktree, conflict, resolved, b as int);
            lemma_recommitting_grows(log, b, state, item);
            lemma_resolving_prefix(log, at + 1, state.worktree, conflict, resolved, end - 1);
            assert(log.take(end - 1)[at as int] == log[at as int]);
            if b + 1 < log.len() {
                lemma_word(log, b + 1, crate::command::head_run(state.worktree));
            }
            match recommitting(log, b, state, item) {
                Script::Done(c, (middle, Ok(_))) => {
                    assert(b + 2 < log.len());
                    let id = middle.commits.last().id;
                    lemma_word(log, b + 2, crate::command::git_show_run(state.worktree, id));
                    assert(middle.commits.drop_last() =~= state.commits);
                    assert(middle.commits.len() != state.commits.len());
                    assert(end == b + 3);
                    lemma_resolving_prefix(log, at + 1, state.worktree, conflict, resolved, end - 3);
                    assert(log.take(end - 3)[at as int] == log[at as int]);
                },
                Script::Done(c, (middle, Err((refusal, told)))) => {
                    lemma_recommitting_prefix(log, b, state, item, end - 1);
                    lemma_drop_word(state, told, refusal);
                    let id = told.id;
                    assert(CommitView { id, ..item } == told);
                    assert(id == item.id || wrote_word(log[(b + 1) as int], id));
                    assert(is_dropped(state, CommitView { id, ..item }, next));
                },
                _ => {},
            }
        },
    }
}

proof fn lemma_drop_word(state: GitView, item: CommitView, refusal: Refusal)
    ensures
        is_dropped(state, item, state.without_conflicting(item, refusal)),
{
    let next = state.without_conflicting(item, refusal);
    let reason = refusal.1;
    let id = item.id;
    assert(state.outbox =~= next.outbox.take(state.outbox.len() as int));
    assert("Discarded conflicting review commit "@ + id + " ("@ + item.purpose + ") because "@
        + "conflict resolution failed"@ + ": "@ + reason + "\n\n"@ + item.diff
        =~= "Discarded conflicting review commit "@ + id + " ("@ + item.purpose
        + ") because conflict resolution failed: "@ + (reason + "\n\n"@ + item.diff)) by {
        reveal_strlit(") because ");
        reveal_strlit("conflict resolution failed");
        reveal_strlit(": ");
        reveal_strlit(") because conflict resolution failed: ");
        assert(") because "@ + "conflict resolution failed"@ + ": "@
            =~= ") because conflict resolution failed: "@);
    }
}

proof fn lemma_resolving_prefix(
    log: Seq<Reply>,
    at: nat,
    worktree: Seq<char>,
    conflict: ConflictView,
    resolved: Seq<ConflictFileView>,
    m: int,
)
    requires
        resolving(log, at, worktree, conflict, resolved) matches Script::Done(b, _) && b <= m <= log.len(),
        at <= log.len(),
    ensures
        resolving(log.take(m), at, worktree, conflict, resolved) == resolving(
            log,
            at,
            worktree,
            conflict,
            resolved,
        ),
        resolving(log, at, worktree, conflict, resolved) matches Script::Done(b, _) ==> at <= b,
{
    let l = log.take(m);
    lemma_storing_done(log, at, worktree, resolved, 0, m);
    assert forall|k: int| 0 <= k < m implies l[k] == log[k] by {}
}

proof fn lemma_storing_done(
    log: Seq<Reply>,
    at: nat,
    worktree: Seq<char>,
    files: Seq<ConflictFileView>,
    i: int,
    m: int,
)
    requires
        0 <= i <= files.len(),
        0 <= m <= log.len(),
        at <= log.len(),
    ensures
        storing_all(log, at, worktree, files, i) matches Script::Done(b, _) ==> at <= b && (b <= m
            ==> storing_all(log.take(m), at, worktree, files, i) == storing_all(
            log,
            at,
            worktree,
            files,
            i,
        )),
    decreases files.len() - i,
{
    if i < files.len() {
        let l = log.take(m);
        if let Script::Done(b, result) = storing(log, at, worktree, files[i]) {
            if result is Ok {
                lemma_storing_done(log, b, worktree, files, i + 1, m);
            }
            if b <= m {
                assert forall|k: int| 0 <= k < m implies l[k] == log[k] by {}
                assert(storing(l, at, worktree, files[i]) == storing(log, at, worktree, files[i]));
            }
        }
    }
}

proof fn lemma_recommitting_grows(log: Seq<Reply>, at: nat, state: GitView, item: CommitView)
    ensures
        recommitting(log, at, state, item) matches Script::Done(b, _) ==> at < b <= at + 3 && b
            <= log.len(),
{
}

proof fn lemma_recommitting_prefix(log: Seq<Reply>, at: nat, state: GitView, item: CommitView, m: int)
    requires
        recommitting(log, at, state, item) matches Script::Done(b, _) && b <= m <= log.len(),
        at < log.len(),
    ensures
        recommitting(log.take(m), at, state, item) == recommitting(log, at, state, item),
        recommitting(log, at, state, item) matches Script::Done(b, _) ==> at < b,
{
    let l = log.take(m);
    assert forall|k: int| 0 <= k < m implies l[k] == log[k] by {}
}

// ---------------------------------------------------------------------------------------------
// Handing over
// ---------------------------------------------------------------------------------------------

/// Whether a diff is applied to the files in a directory by two requests, the first of them after `p`
/// replies: it is tried first, and both work.
pub open spec fn is_applied<T>(
    work: spec_fn(Seq<Reply>) -> Script<T>,
    log: Seq<Reply>,
    p: int,
    directory: Seq<char>,
    diff: Seq<char>,
) -> bool {
    &&& asks(work, log, p, git_on(directory, seq!["apply"@, "--check"@, "--binary"@, "-"@], diff))
    &&& asks(work, log, p + 1, git_on(directory, seq!["apply"@, "--binary"@, "-"@], diff))
    &&& worked(log[p])
    &&& worked(log[p + 1])
}

/// Whether a snapshot of all files of the parent is made, from some head and by way of some tree.
pub open spec fn makes_snapshot<T>(
    work: spec_fn(Seq<Reply>) -> Script<T>,
    log: Seq<Reply>,
    p: int,
    root: Seq<char>,
    state_dir: Seq<char>,
    snapshot: Seq<char>,
) -> bool {
    exists|head: Seq<char>, tree: Seq<char>|
        is_snapshot(work, log, p, root, state_dir, head, tree, snapshot)
}

/// Whether a snapshot of all files of the parent is made by seven requests, the first of them after `p`
/// replies: a tree of them is written in an index of its own, which is filled from the head and removed
/// again, and the snapshot is the commit of that tree on top of the head.
pub open spec fn is_snapshot<T>(
    work: spec_fn(Seq<Reply>) -> Script<T>,
    log: Seq<Reply>,
    p: int,
    root: Seq<char>,
    state_dir: Seq<char>,
    head: Seq<char>,
    tree: Seq<char>,
    snapshot: Seq<char>,
) -> bool {
    &&& asks(work, log, p, git(root, seq!["rev-parse"@, "HEAD"@]))
    &&& wrote_word(log[p], head)
    &&& asks(work, log, p + 1, RequestView::FreshId)
    &&& log[p + 1] matches Reply::Id { nanos, process, counter } && {
        let name = "snapshot-"@ + session_id(nanos, process, counter) + ".index"@;
        let index = below(state_dir, name);
        &&& asks(work, log, p + 2, git_beside(root, seq!["read-tree"@, head], index))
        &&& asks(work, log, p + 3, git_beside(root, seq!["add"@, "-A"@, "--"@, "."@], index))
        &&& asks(work, log, p + 4, git_beside(root, seq!["write-tree"@], index))
        &&& asks(work, log, p + 6, RequestView::RemoveFile(index))
    }
    &&& worked(log[p + 2])
    &&& worked(log[p + 3])
    &&& wrote_word(log[p + 4], tree)
    &&& asks(
        work,
        log,
        p + 5,
        git_as_agent(
            root,
            seq!["commit-tree"@, tree, "-p"@, head, "-m"@, "Nuillu parent snapshot"@],
        ),
    )
    &&& wrote_word(log[p + 5], snapshot)
}

pub(crate) proof fn lemma_applied(log: Seq<Reply>, at: nat, cwd: Seq<char>, patch: Seq<char>)
    ensures
        applying(log, at, cwd, patch) matches Script::Done(end, Ok(_)) ==> {
            &&& end == at + 2 && end <= log.len()
            &&& is_applied(|l: Seq<Reply>| applying(l, at, cwd, patch), log, at as int, cwd, patch)
            &&& forall|m: int|
                end <= m <= log.len() ==> applying(#[trigger] log.take(m), at, cwd, patch) == applying(
                    log,
                    at,
                    cwd,
                    patch,
                )
        },
{
    if let Script::Done(end, Ok(_)) = applying(log, at, cwd, patch) {
        lemma_run_text(log[at as int]);
        lemma_run_text(log[(at + 1) as int]);
        let l1 = log.take((at + 1) as int);
        assert(l1[at as int] == log[at as int]);
        assert forall|m: int| end <= m <= log.len() implies applying(
            #[trigger] log.take(m),
            at,
            cwd,
            patch,
        ) == applying(log, at, cwd, patch) by {
            let l = log.take(m);
            assert(l[at as int] == log[at as int] && l[(at + 1) as int] == log[(at + 1) as int]);
        }
    }
}

proof fn lemma_snapshot_staged(
    log: Seq<Reply>,
    at: nat,
    root: Seq<char>,
    index: Seq<char>,
    parent: Seq<char>,
    m: int,
) -> (tree: Seq<char>)
    requires
        0 <= m <= log.len(),
    ensures
        snapshot_staged(log, at, root, index, parent) matches Script::Done(end, Ok(made)) ==> {
            let work = |l: Seq<Reply>| snapshot_staged(l, at, root, index, parent);
            &&& end == at + 4 && end <= log.len()
            &&& asks(work, log, at as int, git_beside(root, seq!["add"@, "-A"@, "--"@, "."@], index))
            &&& asks(work, log, (at + 1) as int, git_beside(root, seq!["write-tree"@], index))
            &&& asks(
                work,
                log,
                (at + 2) as int,
                git_as_agent(
                    root,
                    seq!["commit-tree"@, tree, "-p"@, parent, "-m"@, "Nuillu parent snapshot"@],
                ),
            )
            &&& asks(work, log, (at + 3) as int, RequestView::RemoveFile(index))
            &&& worked(log[at as int])
            &&& wrote_word(log[(at + 1) as int], tree)
            &&& wrote_word(log[(at + 2) as int], made)
            &&& end <= m ==> snapshot_staged(log.take(m), at, root, index, parent) == snapshot_staged(
                log,
                at,
                root,
                index,
                parent,
            )
        },
{
    if let Script::Done(end, Ok(made)) = snapshot_staged(log, at, root, index, parent) {
        lemma_run_text(log[at as int]);
        lemma_word(log, at + 1, crate::command::write_tree_run(root, index));
        let tree = crate::script::word(
            log,
            at + 1,
            crate::command::write_tree_run(root, index),
        )->Done_1->Ok_0;
        lemma_word(log, at + 2, crate::command::commit_tree_run(root, tree, parent));
        let l1 = log.take((at + 1) as int);
        let l2 = log.take((at + 2) as int);
        let l3 = log.take((at + 3) as int);
        assert(l1[at as int] == log[at as int]);
        assert(l2[at as int] == log[at as int] && l2[(at + 1) as int] == log[(at + 1) as int]);
        assert(l3[at as int] == log[at as int] && l3[(at + 1) as int] == log[(at + 1) as int]);
        assert(l3[(at + 2) as int] == log[(at + 2) as int]);
        if end <= m {
            let l = log.take(m);
            assert(l[at as int] == log[at as int] && l[(at + 1) as int] == log[(at + 1) as int]);
            assert(l[(at + 2) as int] == log[(at + 2) as int]);
        }
        tree
    } else {
        Seq::empty()
    }
}

/// A snapshot of the parent holds all of its files and leaves its index alone.
pub proof fn a_snapshot_takes_every_file(
    log: Seq<Reply>,
    at: nat,
    root: Seq<char>,
    state_dir: Seq<char>,
    end: nat,
    made: Seq<char>,
)
    requires
        parent_snapshot(log, at, root, state_dir) == Script::<Result<Seq<char>, Refusal>>::Done(
            end,
            Ok(made),
        ),
    ensures
        end == at + 7,
        end <= log.len(),
        makes_snapshot(
            |l: Seq<Reply>| parent_snapshot(l, at, root, state_dir),
            log,
            at as int,
            root,
            state_dir,
            made,
        ),
        forall|m: int|
            end <= m <= log.len() ==> parent_snapshot(#[trigger] log.take(m), at, root, state_dir)
                == parent_snapshot(log, at, root, state_dir),
{
    let work = |l: Seq<Reply>| parent_snapshot(l, at, root, state_dir);
    assert(at < log.len());
    lemma_word(log, at, crate::command::head_run(root));
    let head = crate::script::word(log, at, crate::command::head_run(root))->Done_1->Ok_0;
    assert(at + 2 < log.len());
    let id = fresh_id(log, at + 1)->Done_1->Ok_0;
    let index = crate::review::snapshot_index(state_dir, id);
    lemma_run_text(log[(at + 2) as int]);
    let tree = lemma_snapshot_staged(log, at + 3, root, index, head, 0);
    let staged = |l: Seq<Reply>| snapshot_staged(l, at + 3, root, index, head);
    assert forall|m: int| 0 <= m <= log.len() implies {
        let l = #[trigger] log.take(m);
        &&& m == at ==> work(l) == Script::<Result<Seq<char>, Refusal>>::Ask(
            git(root, seq!["rev-parse"@, "HEAD"@]),
        )
        &&& m == at + 1 ==> work(l) == Script::<Result<Seq<char>, Refusal>>::Ask(RequestView::FreshId)
        &&& m == at + 2 ==> work(l) == Script::<Result<Seq<char>, Refusal>>::Ask(
            git_beside(root, seq!["read-tree"@, head], index),
        )
        &&& m >= at + 3 ==> work(l) == staged(l)
    } by {
        let l = log.take(m);
        if m > at {
            assert(l[at as int] == log[at as int]);
        }
        if m > at + 1 {
            assert(l[(at + 1) as int] == log[(at + 1) as int]);
        }
        if m > at + 2 {
            assert(l[(at + 2) as int] == log[(at + 2) as int]);
        }
    }
    assert forall|k: int, request: RequestView|
        at + 3 <= k && #[trigger] asks(staged, log, k, request) implies asks(work, log, k, request) by {
        assert(work(log.take(k)) == staged(log.take(k)));
    }
    assert(asks(work, log, at as int, git(root, seq!["rev-parse"@, "HEAD"@]))) by {
        assert(log.take(at as int).len() == at);
    }
    assert(is_snapshot(work, log, at as int, root, state_dir, head, tree, made));
    assert forall|m: int| end <= m <= log.len() implies parent_snapshot(
        #[trigger] log.take(m),
        at,
        root,
        state_dir,
    ) == parent_snapshot(log, at, root, state_dir) by {
        let again = lemma_snapshot_staged(log, at + 3, root, index, head, m);
        assert(work(log.take(m)) == staged(log.take(m)));
    }
}

/// Whether a diff is handed over: it is applied to the parent, a snapshot of the parent is made, and the
/// commits that are left are replayed on the snapshot, which counts as seen.
pub open spec fn is_handed_over<T>(
    work: spec_fn(Seq<Reply>) -> Script<T>,
    log: Seq<Reply>,
    at: int,
    state: GitView,
    diff: Seq<char>,
    left: Seq<CommitView>,
    end: int,
    next: GitView,
) -> bool {
    &&& is_applied(work, log, at, state.repo_root, diff)
    &&& makes_snapshot(work, log, at + 2, state.repo_root, state.state_dir, next.observed)
    &&& is_replay(
        work,
        log,
        at + 9,
        state.worktree,
        left,
        next.observed,
        state.outbox,
        end,
        next,
    )
    &&& stays_put(state, next)
}

proof fn lemma_handed_over(
    log: Seq<Reply>,
    at: nat,
    state: GitView,
    diff: Seq<char>,
    left: Seq<CommitView>,
    whole: bool,
)
    ensures
        handing_over(log, at, state, diff, left, whole) matches Script::Done(end, (next, Ok(_)))
            ==> is_handed_over(
            |l: Seq<Reply>| handing_over(l, at, state, diff, left, whole),
            log,
            at as int,
            state,
            diff,
            left,
            end as int,
            next,
        ),
{
    let work = |l: Seq<Reply>| handing_over(l, at, state, diff, left, whole);
    let root = state.repo_root;
    if let Script::Done(end, (next, Ok(_))) = handing_over(log, at, state, diff, left, whole) {
        let first = |l: Seq<Reply>| applying(l, at, root, diff);
        lemma_applied(log, at, root, diff);
        match applying(log, at, root, diff) {
            Script::Done(a, Ok(_)) => {
                let fewer = GitView { commits: left, ..state };
                let second = |l: Seq<Reply>| parent_snapshot(l, a, root, state.state_dir);
                match parent_snapshot(log, a, root, state.state_dir) {
                    Script::Done(b, Ok(made)) => {
                        a_snapshot_takes_every_file(log, a, root, state.state_dir, b, made);
                        let seen = GitView { observed: made, ..fewer };
                        let third = |l: Seq<Reply>| replay(l, b, seen, made);
                        lemma_replay(log, b, seen, made);
                        match replay(log, b, seen, made) {
                            Script::Done(c, (replayed, Ok(_))) => {
                                assert(c == end && replayed == next);
                                assert forall|k: int, request: RequestView|
                                    k < a && #[trigger] asks(first, log, k, request) implies asks(
                                    work,
                                    log,
                                    k,
                                    request,
                                ) by {}
                                assert forall|k: int, request: RequestView|
                                    a <= k < b && #[trigger] asks(second, log, k, request) implies asks(
                                    work,
                                    log,
                                    k,
                                    request,
                                ) by {
                                    assert(first(log.take(k)) == first(log));
                                }
                                assert forall|k: int, request: RequestView|
                                    b <= k && #[trigger] asks(third, log, k, request) implies asks(
                                    work,
                                    log,
                                    k,
                                    request,
                                ) by {
                                    assert(first(log.take(k)) == first(log));
                                    assert(second(log.take(k)) == second(log));
                                }
                                lemma_same_snapshot(
                                    second,
                                    work,
                                    log,
                                    a as int,
                                    root,
                                    state.state_dir,
                                    made,
                                );
                                lemma_same_replay(
                                    third,
                                    work,
                                    log,
                                    b as int,
                                    state.worktree,
                                    left,
                                    made,
                                    state.outbox,
                                    end as int,
                                    next,
                                );
                            },
                            _ => {
                                lemma_not_settled(log, at, state, diff, left, whole);
                            },
                        }
                    },
                    _ => {
                        lemma_not_settled(log, at, state, diff, left, whole);
                    },
                }
            },
            _ => {},
        }
    }
}

/// An apply that could not be settled never ends well.
proof fn lemma_not_settled(
    log: Seq<Reply>,
    at: nat,
    state: GitView,
    diff: Seq<char>,
    left: Seq<CommitView>,
    whole: bool,
)
    requires
        applying(log, at, state.repo_root, diff) matches Script::Done(a, Ok(_)) && !(adopting(
            log,
            a,
            GitView { commits: left, ..state },
        ) matches Script::Done(_, (_, Ok(_)))),
    ensures
        !(handing_over(log, at, state, diff, left, whole) matches Script::Done(_, (_, Ok(_)))),
{
}

/// Applying one commit fails at once for an identifier that leads to none. Where it works, the diff of
/// the commit that the identifier leads to is handed over to the parent, and all other commits are
/// replayed on the new snapshot.
pub proof fn an_apply_takes_one_commit_only(
    log: Seq<Reply>,
    at: nat,
    state: GitView,
    id: String,
    end: nat,
    next: GitView,
    result: Result<(), Refusal>,
)
    requires
        obeying(log, at, state, GitControlCommand::Apply(id)) == Script::<
            (GitView, Result<(), Refusal>),
        >::Done(end, (next, result)),
    ensures
        ({
            let named = resolved_alias(state.aliases, Set::empty(), id@);
            let known = exists|k: int|
                0 <= k < state.commits.len() && (#[trigger] state.commits[k]).id == named;
            &&& !known ==> result is Err && next == state && end == at
            &&& result is Ok ==> exists|i: int, rest: Seq<CommitView>|
                {
                    &&& is_first(state.commits, named, i)
                    &&& #[trigger] is_without(state.commits, i, rest)
                    &&& is_handed_over(
                        |l: Seq<Reply>| obeying(l, at, state, GitControlCommand::Apply(id)),
                        log,
                        at as int,
                        state,
                        state.commits[i].diff,
                        rest,
                        end as int,
                        next,
                    )
                }
        }),
{
    lemma_named(state, id@);
    match named_position(state, id@) {
        None => {},
        Some(i) => {
            let rest = state.commits.remove(i);
            let diff = state.commits[i].diff;
            assert(state.commits[i].id == resolved_alias(state.aliases, Set::empty(), id@));
            if result is Ok {
                let inner = |l: Seq<Reply>| handing_over(l, at, state, diff, rest, false);
                let work = |l: Seq<Reply>| obeying(l, at, state, GitControlCommand::Apply(id));
                lemma_handed_over(log, at, state, diff, rest, false);
                assert forall|k: int, request: RequestView| #[trigger]
                    asks(inner, log, k, request) implies asks(work, log, k, request) by {}
                lemma_same_hand_over(inner, work, log, at as int, state, diff, rest, end as int, next);
                assert(is_without(state.commits, i, rest));
            }
        },
    }
}

proof fn lemma_same_snapshot<A, B>(
    inner: spec_fn(Seq<Reply>) -> Script<A>,
    work: spec_fn(Seq<Reply>) -> Script<B>,
    log: Seq<Reply>,
    p: int,
    root: Seq<char>,
    state_dir: Seq<char>,
    snapshot: Seq<char>,
)
    requires
        makes_snapshot(inner, log, p, root, state_dir, snapshot),
        forall|k: int, request: RequestView|
            p <= k < p + 7 && #[trigger] asks(inner, log, k, request) ==> asks(work, log, k, request),
    ensures
        makes_snapshot(work, log, p, root, state_dir, snapshot),
{
    let (head, tree) = choose|head: Seq<char>, tree: Seq<char>|
        is_snapshot(inner, log, p, root, state_dir, head, tree, snapshot);
    assert(is_snapshot(work, log, p, root, state_dir, head, tree, snapshot));
}

proof fn lemma_same_hand_over<A, B>(
    inner: spec_fn(Seq<Reply>) -> Script<A>,
    work: spec_fn(Seq<Reply>) -> Script<B>,
    log: Seq<Reply>,
    at: int,
    state: GitView,
    diff: Seq<char>,
    left: Seq<CommitView>,
    end: int,
    next: GitView,
)
    requires
        is_handed_over(inner, log, at, state, diff, left, end, next),
        forall|k: int, request: RequestView|
            at <= k && #[trigger] asks(inner, log, k, request) ==> asks(work, log, k, request),
    ensures
        is_handed_over(work, log, at, state, diff, left, end, next),
{
    lemma_same_snapshot(
        inner,
        work,
        log,
        at + 2,
        state.repo_root,
        state.state_dir,
        next.observed,
    );
    lemma_same_replay(
        inner,
        work,
        log,
        at + 9,
        state.worktree,
        left,
        next.observed,
        state.outbox,
        end,
        next,
    );
}

/// Applying the whole queue does nothing where there is none. Otherwise the difference between the
/// snapshot on which the queue stands and its newest commit is handed over to the parent as one diff, and
/// the queue is empty.
pub proof fn an_apply_takes_the_whole_queue(
    log: Seq<Reply>,
    at: nat,
    state: GitView,
    end: nat,
    next: GitView,
)
    requires
        obeying(log, at, state, GitControlCommand::ApplyAll) == Script::<
            (GitView, Result<(), Refusal>),
        >::Done(end, (next, Ok(()))),
    ensures
        next.commits.len() == 0,
        state.commits.len() == 0 ==> next == state && end == at,
        ({
            let work = |l: Seq<Reply>| obeying(l, at, state, GitControlCommand::ApplyAll);
            state.commits.len() > 0 ==> {
                &&& asks(
                    work,
                    log,
                    at as int,
                    git(
                        state.worktree,
                        seq![
                            "diff"@,
                            "--binary"@,
                            "--no-ext-diff"@,
                            "--no-textconv"@,
                            state.baseline,
                            state.commits.last().id,
                        ],
                    ),
                )
                &&& exists|diff: Seq<char>| #[trigger]
                    wrote(log[at as int], diff) && is_handed_over(
                        work,
                        log,
                        (at + 1) as int,
                        state,
                        diff,
                        Seq::empty(),
                        end as int,
                        next,
                    )
            }
        }),
{
    if state.commits.len() > 0 {
        let work = |l: Seq<Reply>| obeying(l, at, state, GitControlCommand::ApplyAll);
        let what = crate::command::git_diff_run(state.worktree, state.baseline, state.tip());
        assert(at < log.len());
        lemma_word(log, at, what);
        let diff = crate::script::text(log, at, what)->Done_1->Ok_0;
        assert(wrote(log[at as int], diff));
        assert(log.take(at as int).len() == at);
        let inner = |l: Seq<Reply>| handing_over(l, at + 1, state, diff, Seq::empty(), true);
        lemma_handed_over(log, at + 1, state, diff, Seq::empty(), true);
        assert forall|k: int, request: RequestView|
            at + 1 <= k && #[trigger] asks(inner, log, k, request) implies asks(work, log, k, request) by {
            assert(log.take(k)[at as int] == log[at as int]);
        }
        lemma_same_hand_over(inner, work, log, (at + 1) as int, state, diff, Seq::empty(), end as int, next);
        let picks = choose|picks: Seq<int>| #[trigger]
            are_remade(log, (at + 1 + 9) as int + 1, Seq::empty(), 0, picks, next.commits)
                && next.outbox.len() - state.outbox.len() == Seq::<CommitView>::empty().len()
                - picks.len();
        if picks.len() > 0 {
            assert(0 <= picks[0] < 0);
        }
    }
}

// ---------------------------------------------------------------------------------------------
// Patches
// ---------------------------------------------------------------------------------------------

/// Whether everything in a worktree is committed as the agent's by four requests, the first of them after
/// `p` replies, and the identifier and the diff are what Git tells of the commit; where it does not tell
/// the diff, the one that was shown stands for it.
pub open spec fn is_recorded<T>(
    work: spec_fn(Seq<Reply>) -> Script<T>,
    log: Seq<Reply>,
    p: int,
    worktree: Seq<char>,
    purpose: Seq<char>,
    shown: Seq<char>,
    id: Seq<char>,
    diff: Seq<char>,
) -> bool {
    &&& asks(work, log, p, git(worktree, seq!["add"@, "-A"@, "--"@, "."@]))
    &&& worked(log[p])
    &&& asks(
        work,
        log,
        p + 1,
        git_as_agent(
            worktree,
            seq!["commit"@, "--no-verify"@, "--no-gpg-sign"@, "-m"@, purpose],
        ),
    )
    &&& worked(log[p + 1])
    &&& asks(work, log, p + 2, git(worktree, seq!["rev-parse"@, "HEAD"@]))
    &&& wrote_word(log[p + 2], id)
    &&& asks(
        work,
        log,
        p + 3,
        git(
            worktree,
            seq!["show"@, "--format="@, "--binary"@, "--no-ext-diff"@, "--no-textconv"@, id],
        ),
    )
    &&& if wrote_text(log[p + 3]) {
        wrote(log[p + 3], diff)
    } else {
        diff == shown
    }
}

/// Whether the parent is still on the session's branch, as two requests after `p` replies show.
pub open spec fn is_on_branch<T>(
    work: spec_fn(Seq<Reply>) -> Script<T>,
    log: Seq<Reply>,
    p: int,
    state: GitView,
) -> bool {
    &&& asks(work, log, p, RequestView::Lock)
    &&& log[p] is Done
    &&& asks(
        work,
        log,
        p + 1,
        git(state.repo_root, seq!["symbolic-ref"@, "--quiet"@, "--short"@, "HEAD"@]),
    )
    &&& wrote_word(log[p + 1], state.branch)
}

proof fn lemma_recorded(
    log: Seq<Reply>,
    at: nat,
    cwd: Seq<char>,
    purpose: Seq<char>,
    shown: Seq<char>,
)
    ensures
        recording(log, at, cwd, purpose, shown) matches Script::Done(end, Ok((id, diff))) ==> {
            &&& end == at + 4 && end <= log.len()
            &&& is_recorded(
                |l: Seq<Reply>| recording(l, at, cwd, purpose, shown),
                log,
                at as int,
                cwd,
                purpose,
                shown,
                id,
                diff,
            )
            &&& forall|m: int|
                end <= m <= log.len() ==> recording(#[trigger] log.take(m), at, cwd, purpose, shown)
                    == recording(log, at, cwd, purpose, shown)
        },
{
    if let Script::Done(end, Ok((id, diff))) = recording(log, at, cwd, purpose, shown) {
        lemma_run_text(log[at as int]);
        lemma_run_text(log[(at + 1) as int]);
        lemma_word(log, at + 2, crate::command::head_run(cwd));
        lemma_run_text(log[(at + 3) as int]);
        assert forall|m: int| 0 <= m <= log.len() implies forall|k: int|
            0 <= k < m ==> (#[trigger] log.take(m))[k] == log[k] by {}
        let l1 = log.take((at + 1) as int);
        let l2 = log.take((at + 2) as int);
        let l3 = log.take((at + 3) as int);
        assert(l1[at as int] == log[at as int]);
        assert(l2[at as int] == log[at as int] && l2[(at + 1) as int] == log[(at + 1) as int]);
        assert(l3[at as int] == log[at as int] && l3[(at + 1) as int] == log[(at + 1) as int]);
        assert(l3[(at + 2) as int] == log[(at + 2) as int]);
        if let Ok(told) = run_text(log[(at + 3) as int]) {
            assert(wrote(log[(at + 3) as int], told));
        }
        assert forall|m: int| end <= m <= log.len() implies recording(
            #[trigger] log.take(m),
            at,
            cwd,
            purpose,
            shown,
        ) == recording(log, at, cwd, purpose, shown) by {
            let l = log.take(m);
            assert(l[at as int] == log[at as int] && l[(at + 1) as int] == log[(at + 1) as int]);
            assert(l[(at + 2) as int] == log[(at + 2) as int]);
            assert(l[(at + 3) as int] == log[(at + 3) as int]);
        }
    }
}

/// What follows once a patch is committed: it is handed through, or it waits in the queue.
pub open spec fn finish_rest(
    log: Seq<Reply>,
    at: nat,
    state: GitView,
    id: Seq<char>,
    purpose: Seq<char>,
    diff: Seq<char>,
    paths: Seq<Seq<char>>,
) -> Script<(GitView, Result<DispositionView, Refusal>)> {
    if state.mode == WorkspaceMode::Write {
        writing(log, at, state, diff)
    } else {
        queueing(log, at, state, CommitView { id, purpose, diff, changed_paths: paths })
    }
}

proof fn lemma_finish_start(
    log: Seq<Reply>,
    at: nat,
    state: GitView,
    purpose: Seq<char>,
    shown: Seq<char>,
    paths: Seq<Seq<char>>,
) -> (made: (Seq<char>, Seq<char>))
    requires
        finishing(log, at, state, purpose, shown, paths) matches Script::Done(_, (_, Ok(_))),
    ensures
        at + 6 <= log.len(),
        state.mode != WorkspaceMode::ReadOnly,
        ({
            let work = |l: Seq<Reply>| finishing(l, at, state, purpose, shown, paths);
            let (id, diff) = made;
            &&& is_on_branch(work, log, at as int, state)
            &&& is_recorded(work, log, (at + 2) as int, state.worktree, purpose, shown, id, diff)
            &&& goes_on_as(
                work,
                |l: Seq<Reply>| finish_rest(l, at + 6, state, id, purpose, diff, paths),
                log,
                (at + 6) as int,
            )
            &&& finishing(log, at, state, purpose, shown, paths) == finish_rest(
                log,
                at + 6,
                state,
                id,
                purpose,
                diff,
                paths,
            )
        }),
{
    let work = |l: Seq<Reply>| finishing(l, at, state, purpose, shown, paths);
    assert(at + 1 < log.len());
    lemma_word(log, at + 1, crate::command::branch_name_run(state.repo_root));
    let inner = |l: Seq<Reply>| recording(l, at + 2, state.worktree, purpose, shown);
    lemma_recorded(log, at + 2, state.worktree, purpose, shown);
    match recording(log, at + 2, state.worktree, purpose, shown) {
        Script::Done(b, Ok((id, diff))) => {
            assert forall|m: int| at + 2 <= m <= log.len() implies {
                let l = #[trigger] log.take(m);
                &&& l[at as int] == log[at as int]
                &&& l[(at + 1) as int] == log[(at + 1) as int]
            } by {}
            let l1 = log.take((at + 1) as int);
            assert(l1[at as int] == log[at as int]);
            assert forall|k: int, request: RequestView|
                at + 2 <= k < at + 6 && #[trigger] asks(inner, log, k, request) implies asks(
                work,
                log,
                k,
                request,
            ) by {
                let l = log.take(k);
                assert(l[at as int] == log[at as int] && l[(at + 1) as int] == log[(at + 1) as int]);
            }
            let rest = |l: Seq<Reply>| finish_rest(l, at + 6, state, id, purpose, diff, paths);
            assert forall|m: int| at + 6 <= m <= log.len() implies #[trigger] work(log.take(m))
                == rest(log.take(m)) by {
                let l = log.take(m);
                assert(l[at as int] == log[at as int] && l[(at + 1) as int] == log[(at + 1) as int]);
                assert(recording(l, at + 2, state.worktree, purpose, shown) == recording(
                    log,
                    at + 2,
                    state.worktree,
                    purpose,
                    shown,
                ));
            }
            (id, diff)
        },
        _ => (Seq::empty(), Seq::empty()),
    }
}

proof fn lemma_written(log: Seq<Reply>, at: nat, state: GitView, diff: Seq<char>)
    ensures
        writing(log, at, state, diff) matches Script::Done(end, (next, Ok(_))) ==> {
            let work = |l: Seq<Reply>| writing(l, at, state, diff);
            &&& end == at + 10 && end <= log.len()
            &&& is_applied(work, log, at as int, state.repo_root, diff)
            &&& makes_snapshot(
                work,
                log,
                (at + 2) as int,
                state.repo_root,
                state.state_dir,
                next.observed,
            )
            &&& asks(
                work,
                log,
                (at + 9) as int,
                git(state.worktree, seq!["reset"@, "--hard"@, next.observed]),
            )
            &&& worked(log[(at + 9) as int])
            &&& next.baseline == next.observed
            &&& next.commits == state.commits
            &&& stays_put(state, next)
        },
{
    let work = |l: Seq<Reply>| writing(l, at, state, diff);
    let root = state.repo_root;
    if let Script::Done(end, (next, Ok(_))) = writing(log, at, state, diff) {
        let first = |l: Seq<Reply>| applying(l, at, root, diff);
        lemma_applied(log, at, root, diff);
        match applying(log, at, root, diff) {
            Script::Done(a, Ok(_)) => {
                let second = |l: Seq<Reply>| parent_snapshot(l, a, root, state.state_dir);
                match parent_snapshot(log, a, root, state.state_dir) {
                    Script::Done(b, Ok(made)) => {
                        a_snapshot_takes_every_file(log, a, root, state.state_dir, b, made);
                        assert(b < log.len());
                        lemma_run_text(log[b as int]);
                        assert(first(log.take(b as int)) == first(log));
                        assert(second(log.take(b as int)) == second(log));
                        assert forall|k: int, request: RequestView|
                            k < a && #[trigger] asks(first, log, k, request) implies asks(
                            work,
                            log,
                            k,
                            request,
                        ) by {}
                        assert forall|k: int, request: RequestView|
                            a <= k < b && #[trigger] asks(second, log, k, request) implies asks(
                            work,
                            log,
                            k,
                            request,
                        ) by {
                            assert(first(log.take(k)) == first(log));
                        }
                        lemma_same_snapshot(second, work, log, a as int, root, state.state_dir, made);
                    },
                    _ => {},
                }
            },
            _ => {},
        }
    }
}

/// Whether a queue is kept independent from the reply at `q` on, and what it is then.
pub open spec fn is_kept_apart(
    log: Seq<Reply>,
    q: nat,
    before: GitView,
    end: nat,
    kept: GitView,
) -> bool {
    collapse(log, q, before) == Script::<(GitView, Result<(), Refusal>)>::Done(end, (kept, Ok(())))
}

/// Whether a patch is committed after `p` replies and taken into the queue, which is kept independent
/// from the reply at `q` on and shown.
pub open spec fn is_queued<T>(
    work: spec_fn(Seq<Reply>) -> Script<T>,
    log: Seq<Reply>,
    p: int,
    q: nat,
    state: GitView,
    purpose: Seq<char>,
    shown: Seq<char>,
    paths: Seq<Seq<char>>,
    end: nat,
    next: GitView,
    fate: DispositionView,
) -> bool {
    exists|id: Seq<char>, diff: Seq<char>, longer: GitView, kept: GitView|
        {
            let commit = CommitView { id, purpose, diff, changed_paths: paths };
            &&& #[trigger] is_recorded(work, log, p, state.worktree, purpose, shown, id, diff)
            &&& longer == GitView { commits: state.commits.push(commit), ..state }
            &&& #[trigger] is_kept_apart(log, q, longer, end, kept)
            &&& next.commits == kept.commits
            &&& next.outbox == kept.outbox.push(
                UiView::State { mode: kept.mode, branch: kept.branch, commits: kept.commits },
            )
            &&& kept.commits.len() > 0 ==> fate == DispositionView::Review(kept.commits.last().id)
            &&& state.commits.len() == 0 ==> kept.commits == seq![commit]
        }
}

/// Whether a diff is applied to the parent from the reply at `at` on and the worktree put onto a snapshot of
/// the parent, which counts as seen, with the queue as it was.
pub open spec fn is_written_through<T>(
    work: spec_fn(Seq<Reply>) -> Script<T>,
    log: Seq<Reply>,
    at: int,
    state: GitView,
    diff: Seq<char>,
    end: int,
    next: GitView,
) -> bool {
    &&& end == at + 10 && end <= log.len()
    &&& is_applied(work, log, at, state.repo_root, diff)
    &&& makes_snapshot(work, log, at + 2, state.repo_root, state.state_dir, next.observed)
    &&& asks(work, log, at + 9, git(state.worktree, seq!["reset"@, "--hard"@, next.observed]))
    &&& worked(log[at + 9])
    &&& next.baseline == next.observed
    &&& next.commits == state.commits
    &&& stays_put(state, next)
}

/// Whether a piece of work goes on as another one from the reply at `from` on.
pub open spec fn goes_on_as<T>(
    work: spec_fn(Seq<Reply>) -> Script<T>,
    inner: spec_fn(Seq<Reply>) -> Script<T>,
    log: Seq<Reply>,
    from: int,
) -> bool {
    forall|m: int| from <= m <= log.len() ==> #[trigger] work(log.take(m)) == inner(log.take(m))
}

proof fn lemma_written_through<T>(
    work: spec_fn(Seq<Reply>) -> Script<T>,
    inner: spec_fn(Seq<Reply>) -> Script<T>,
    log: Seq<Reply>,
    at: int,
    state: GitView,
    diff: Seq<char>,
    end: int,
    next: GitView,
)
    requires
        goes_on_as(work, inner, log, at),
        is_written_through(inner, log, at, state, diff, end, next),
    ensures
        is_written_through(work, log, at, state, diff, end, next),
{
    assert forall|k: int, request: RequestView|
        at <= k && #[trigger] asks(inner, log, k, request) implies asks(work, log, k, request) by {
        assert(work(log.take(k)) == inner(log.take(k)));
    }
    lemma_same_snapshot(inner, work, log, at + 2, state.repo_root, state.state_dir, next.observed);
}

proof fn lemma_all_written<T>(
    work: spec_fn(Seq<Reply>) -> Script<T>,
    log: Seq<Reply>,
    p: int,
    q: int,
    state: GitView,
    purpose: Seq<char>,
    shown: Seq<char>,
    id: Seq<char>,
    diff: Seq<char>,
    end: int,
    next: GitView,
)
    requires
        is_recorded(work, log, p, state.worktree, purpose, shown, id, diff),
        is_written_through(work, log, q, state, diff, end, next),
    ensures
        is_committed_and_written(work, log, p, q, state, purpose, shown, end, next),
{
}

/// Whether a patch is committed after `p` replies and its diff handed through to the parent after `q`.
pub open spec fn is_committed_and_written<T>(
    work: spec_fn(Seq<Reply>) -> Script<T>,
    log: Seq<Reply>,
    p: int,
    q: int,
    state: GitView,
    purpose: Seq<char>,
    shown: Seq<char>,
    end: int,
    next: GitView,
) -> bool {
    exists|id: Seq<char>, diff: Seq<char>|
        #[trigger] is_recorded(work, log, p, state.worktree, purpose, shown, id, diff)
            && is_written_through(work, log, q, state, diff, end, next)
}

/// A patch that is taken in Write mode is committed in the agent's worktree, its diff is applied to the
/// parent, and the worktree is put onto a snapshot of the parent, which counts as seen. So the commit is
/// gone and the queue stays as it is.
pub proof fn a_written_patch_reaches_the_parent(
    log: Seq<Reply>,
    at: nat,
    state: GitView,
    purpose: Seq<char>,
    shown: Seq<char>,
    paths: Seq<Seq<char>>,
    end: nat,
    next: GitView,
    fate: DispositionView,
)
    requires
        state.mode == WorkspaceMode::Write,
        finishing(log, at, state, purpose, shown, paths) == Script::<
            (GitView, Result<DispositionView, Refusal>),
        >::Done(end, (next, Ok(fate))),
    ensures
        fate is WriteApplied,
        is_on_branch(
            |l: Seq<Reply>| finishing(l, at, state, purpose, shown, paths),
            log,
            at as int,
            state,
        ),
        is_committed_and_written(
            |l: Seq<Reply>| finishing(l, at, state, purpose, shown, paths),
            log,
            (at + 2) as int,
            (at + 6) as int,
            state,
            purpose,
            shown,
            end as int,
            next,
        ),
{
    let work = |l: Seq<Reply>| finishing(l, at, state, purpose, shown, paths);
    let (id, diff) = lemma_finish_start(log, at, state, purpose, shown, paths);
    let rest = |l: Seq<Reply>| finish_rest(l, at + 6, state, id, purpose, diff, paths);
    lemma_rest_is_written(log, at + 6, state, id, purpose, diff, paths, end, next, fate);
    lemma_written_through(work, rest, log, (at + 6) as int, state, diff, end as int, next);
    lemma_all_written(
        work,
        log,
        (at + 2) as int,
        (at + 6) as int,
        state,
        purpose,
        shown,
        id,
        diff,
        end as int,
        next,
    );
}

proof fn lemma_rest_is_written(
    log: Seq<Reply>,
    at: nat,
    state: GitView,
    id: Seq<char>,
    purpose: Seq<char>,
    diff: Seq<char>,
    paths: Seq<Seq<char>>,
    end: nat,
    next: GitView,
    fate: DispositionView,
)
    requires
        state.mode == WorkspaceMode::Write,
        finish_rest(log, at, state, id, purpose, diff, paths) == Script::<
            (GitView, Result<DispositionView, Refusal>),
        >::Done(end, (next, Ok(fate))),
    ensures
        fate is WriteApplied,
        is_written_through(
            |l: Seq<Reply>| finish_rest(l, at, state, id, purpose, diff, paths),
            log,
            at as int,
            state,
            diff,
            end as int,
            next,
        ),
{
    let rest = |l: Seq<Reply>| finish_rest(l, at, state, id, purpose, diff, paths);
    let inner = |l: Seq<Reply>| writing(l, at, state, diff);
    lemma_writing_through(log, at, state, diff, end, next, fate);
    assert(goes_on_as(rest, inner, log, at as int));
    lemma_written_through(rest, inner, log, at as int, state, diff, end as int, next);
}

proof fn lemma_writing_through(
    log: Seq<Reply>,
    at: nat,
    state: GitView,
    diff: Seq<char>,
    end: nat,
    next: GitView,
    fate: DispositionView,
)
    requires
        writing(log, at, state, diff) == Script::<
            (GitView, Result<DispositionView, Refusal>),
        >::Done(end, (next, Ok(fate))),
    ensures
        fate is WriteApplied,
        is_written_through(
            |l: Seq<Reply>| writing(l, at, state, diff),
            log,
            at as int,
            state,
            diff,
            end as int,
            next,
        ),
{
    lemma_written(log, at, state, diff);
}

/// A patch that is taken in Review mode is committed in the agent's worktree. The commit, with the given
/// purpose and paths and with what Git tells of it, is the newest of the queue, which is then kept
/// independent; the parent is not touched, and the answer names the newest commit of the queue.
pub proof fn a_reviewed_patch_waits_in_the_queue(
    log: Seq<Reply>,
    at: nat,
    state: GitView,
    purpose: Seq<char>,
    shown: Seq<char>,
    paths: Seq<Seq<char>>,
    end: nat,
    next: GitView,
    fate: DispositionView,
)
    requires
        state.mode == WorkspaceMode::Review,
        finishing(log, at, state, purpose, shown, paths) == Script::<
            (GitView, Result<DispositionView, Refusal>),
        >::Done(end, (next, Ok(fate))),
    ensures
        ({
            let work = |l: Seq<Reply>| finishing(l, at, state, purpose, shown, paths);
            &&& is_on_branch(work, log, at as int, state)
            &&& is_queued(
                work,
                log,
                (at + 2) as int,
                at + 6,
                state,
                purpose,
                shown,
                paths,
                end,
                next,
                fate,
            )
        }),
{
    let work = |l: Seq<Reply>| finishing(l, at, state, purpose, shown, paths);
    let (id, diff) = lemma_finish_start(log, at, state, purpose, shown, paths);
    let commit = CommitView { id, purpose, diff, changed_paths: paths };
    lemma_queued(log, at + 6, state, commit, end, next, fate);
    lemma_is_queued(work, log, (at + 2) as int, at + 6, state, commit, shown, end, next, fate);
}

/// Whether a commit is the newest of a queue that is then kept independent and shown.
pub open spec fn joins_queue(
    log: Seq<Reply>,
    q: nat,
    state: GitView,
    commit: CommitView,
    end: nat,
    next: GitView,
    fate: DispositionView,
    kept: GitView,
) -> bool {
    &&& is_kept_apart(
        log,
        q,
        GitView { commits: state.commits.push(commit), ..state },
        end,
        kept,
    )
    &&& next.commits == kept.commits
    &&& next.outbox == kept.outbox.push(
        UiView::State { mode: kept.mode, branch: kept.branch, commits: kept.commits },
    )
    &&& kept.commits.len() > 0 ==> fate == DispositionView::Review(kept.commits.last().id)
    &&& state.commits.len() == 0 ==> kept.commits == seq![commit]
}

proof fn lemma_queued(
    log: Seq<Reply>,
    at: nat,
    state: GitView,
    commit: CommitView,
    end: nat,
    next: GitView,
    fate: DispositionView,
)
    requires
        queueing(log, at, state, commit) == Script::<
            (GitView, Result<DispositionView, Refusal>),
        >::Done(end, (next, Ok(fate))),
    ensures
        exists|kept: GitView| #[trigger] joins_queue(log, at, state, commit, end, next, fate, kept),
{
    let longer = GitView { commits: state.commits.push(commit), ..state };
    match collapse(log, at, longer) {
        Script::Done(b, (kept, Ok(_))) => {
            if state.commits.len() == 0 {
                assert(longer.commits =~= seq![commit]);
            }
            assert(joins_queue(log, at, state, commit, end, next, fate, kept));
        },
        _ => {},
    }
}

proof fn lemma_is_queued<T>(
    work: spec_fn(Seq<Reply>) -> Script<T>,
    log: Seq<Reply>,
    p: int,
    q: nat,
    state: GitView,
    commit: CommitView,
    shown: Seq<char>,
    end: nat,
    next: GitView,
    fate: DispositionView,
)
    requires
        is_recorded(work, log, p, state.worktree, commit.purpose, shown, commit.id, commit.diff),
        exists|kept: GitView| #[trigger] joins_queue(log, q, state, commit, end, next, fate, kept),
    ensures
        is_queued(
            work,
            log,
            p,
            q,
            state,
            commit.purpose,
            shown,
            commit.changed_paths,
            end,
            next,
            fate,
        ),
{
    let kept = choose|kept: GitView| #[trigger]
        joins_queue(log, q, state, commit, end, next, fate, kept);
    let longer = GitView { commits: state.commits.push(commit), ..state };
    assert(is_recorded(
        work,
        log,
        p,
        state.worktree,
        commit.purpose,
        shown,
        commit.id,
        commit.diff,
    ) && is_kept_apart(log, q, longer, end, kept));
}

} // verus!
