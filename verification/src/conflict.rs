//! Conflicts: commits that do not fit the parent any more, handed out to be resolved.
use vstd::prelude::*;

use crate::command::{abort_pick, abort_pick_run, check_staged, check_staged_run,
    cherry_pick_as_agent, cherry_pick_as_agent_run, git_commit, git_commit_run, git_show,
    git_show_run, head, head_run, reset_hard, reset_hard_run, stage_paths, stage_paths_run,
    unmerged_names, unmerged_names_run};
use crate::encoding::{decode_text, utf8_text};
use crate::failure::{fail, fail_about, fail_within, within, Failure, FailureKind, Refusal};
use crate::git::{commit_views, copy_commits, lemma_commit_views_push, CommitView, GitControlCommand,
    GitUiEvent, ReviewCommit, UiView, WorkspaceMode};
use crate::paths::{conflict_path_is_valid, is_conflict_path, join_path, joined_path};
use crate::queue::controlling;
use crate::review::{discarded, observation, readmit, stateful, GitView, GitWorkspace};
use crate::scan::{begins_with, lines, lines_of, stands_at};
use crate::script::{copy_files, deed, file_views, follows, opt_flag, opt_outcome, opt_refusal,
    reply_failure, reply_refusal, run, text, word, ConflictCase, ConflictFile, ConflictFileView,
    ConflictView, Reply, Request, RequestView, Script, Session};
use crate::sorted::{insert_unique, is_sorted_set, sorted_members, sorted_sets_are_unique};
use crate::text::{concat, copy, lemma_texts_push, same_text, texts};

verus! {

/// Bytes of the largest file in conflict that is handed out.
pub const MAX_CONFLICT_FILE_BYTES: u64 = 16777216;

// ---------------------------------------------------------------------------------------------
// Markers
// ---------------------------------------------------------------------------------------------

/// Whether a line is one that Git leaves around two versions.
pub open spec fn is_marker_line(line: Seq<char>) -> bool {
    stands_at(line, "<<<<<<< "@, 0) || line == "======="@ || stands_at(line, ">>>>>>> "@, 0)
}

/// Whether a text holds a line that Git leaves around two versions.
pub open spec fn has_marker(content: Seq<char>) -> bool {
    exists|i: int| 0 <= i < lines(content).len() && is_marker_line(#[trigger] lines(content)[i])
}

/// Whether a text holds a line that Git leaves around two versions.
pub fn contains_conflict_markers(content: &str) -> (r: bool)
    ensures
        r == has_marker(content@),
{
    let all = lines_of(content);
    let ghost views = lines(content@);
    let mut i: usize = 0;
    while i < all.len()
        invariant
            texts(all@) == views,
            views == lines(content@),
            i <= all@.len(),
            forall|k: int| 0 <= k < i ==> !is_marker_line(#[trigger] views[k]),
        decreases all@.len() - i,
    {
        assert(views.len() == all@.len() && views[i as int] == all@[i as int]@);
        let line = all[i].as_str();
        if begins_with(line, "<<<<<<< ") || same_text(line, "=======") || begins_with(
            line,
            ">>>>>>> ",
        ) {
            assert(is_marker_line(views[i as int]));
            return true;
        }
        i = i + 1;
    }
    assert(views.len() == all@.len());
    false
}

// ---------------------------------------------------------------------------------------------
// Capturing
// ---------------------------------------------------------------------------------------------

/// The refusal of a path that cannot be in conflict.
pub open spec fn conflict_path_refusal(path: Seq<char>) -> Refusal {
    (FailureKind::BadConflictPath, "invalid conflicted path: "@ + path)
}

/// The content of a file in conflict, as far as it was read.
pub open spec fn conflict_content(path: Seq<char>, reply: Reply) -> Result<
    Option<Seq<char>>,
    Refusal,
> {
    match reply {
        Reply::Bytes(bytes) => match utf8_text(bytes@) {
            Some(content) => Ok(Some(content)),
            None => Err((FailureKind::NotUtf8, "conflict file is not UTF-8: "@ + path)),
        },
        Reply::Missing => Ok(None),
        _ => Err(within("read conflict file "@ + path, reply_refusal(reply))),
    }
}

/// Reads a file in conflict.
pub open spec fn reading_conflict(
    log: Seq<Reply>,
    at: nat,
    worktree: Seq<char>,
    path: Seq<char>,
) -> Script<Result<ConflictFileView, Refusal>> {
    let target = joined_path(worktree, path);
    if !is_conflict_path(path) {
        Script::Done(at, Err(conflict_path_refusal(path)))
    } else if at >= log.len() {
        Script::Ask(RequestView::Inspect(target))
    } else {
        match log[at as int] {
            Reply::Inspected { is_symlink, len } => if is_symlink {
                Script::Done(
                    at + 1,
                    Err(
                        (
                            FailureKind::SymbolicLink,
                            "conflict resolver cannot read a symbolic link: "@ + path,
                        ),
                    ),
                )
            } else if len matches Some(n) && n > MAX_CONFLICT_FILE_BYTES {
                Script::Done(
                    at + 1,
                    Err((FailureKind::TooLarge, "conflict file exceeds 16 MiB: "@ + path)),
                )
            } else if at + 1 >= log.len() {
                Script::Ask(RequestView::ReadFile(target))
            } else {
                Script::Done(
                    at + 2,
                    match conflict_content(path, log[(at + 1) as int]) {
                        Err(refusal) => Err(refusal),
                        Ok(content) => Ok(ConflictFileView { path, content }),
                    },
                )
            },
            _ => Script::Done(at + 1, Err(reply_refusal(log[at as int]))),
        }
    }
}

/// Reads the files in conflict from the `i`-th name on.
pub open spec fn reading_conflicts(
    log: Seq<Reply>,
    at: nat,
    worktree: Seq<char>,
    names: Seq<Seq<char>>,
    i: int,
    files: Seq<ConflictFileView>,
) -> Script<Result<Seq<ConflictFileView>, Refusal>>
    decreases names.len() - i,
{
    if i < 0 || i >= names.len() {
        Script::Done(at, Ok(files))
    } else if names[i].len() == 0 {
        reading_conflicts(log, at, worktree, names, i + 1, files)
    } else {
        match reading_conflict(log, at, worktree, names[i]) {
            Script::Ask(request) => Script::Ask(request),
            Script::Done(at, Err(refusal)) => Script::Done(at, Err(refusal)),
            Script::Done(at, Ok(file)) => reading_conflicts(
                log,
                at,
                worktree,
                names,
                i + 1,
                files.push(file),
            ),
        }
    }
}

/// Collects what is in the way of a commit.
pub open spec fn capturing(
    log: Seq<Reply>,
    at: nat,
    worktree: Seq<char>,
    purpose: Seq<char>,
) -> Script<Result<ConflictView, Refusal>> {
    match text(log, at, unmerged_names_run(worktree)) {
        Script::Ask(request) => Script::Ask(request),
        Script::Done(at, Err(refusal)) => Script::Done(at, Err(refusal)),
        Script::Done(at, Ok(names)) => match reading_conflicts(
            log,
            at,
            worktree,
            lines(names),
            0,
            Seq::empty(),
        ) {
            Script::Ask(request) => Script::Ask(request),
            Script::Done(at, Err(refusal)) => Script::Done(at, Err(refusal)),
            Script::Done(at, Ok(files)) => if files.len() == 0 {
                Script::Done(
                    at,
                    Err(
                        (
                            FailureKind::NoConflict,
                            "cherry-pick failed without reporting conflicted files"@,
                        ),
                    ),
                )
            } else {
                Script::Done(at, Ok(ConflictView { purpose, files }))
            },
        },
    }
}

/// Reads a file in conflict.
fn read_conflict(worktree: &str, path: &str, io: &mut Session) -> (r: Option<
    Result<ConflictFile, Failure>,
>)
    requires
        old(io).wf(),
    ensures
        final(io).wf(),
        final(io).replies == old(io).replies,
        follows(
            reading_conflict(old(io).log(), old(io).at as nat, worktree@, path@),
            *final(io),
            opt_outcome(r),
        ),
{
    if !conflict_path_is_valid(path) {
        return Some(
            Err(fail_about(FailureKind::BadConflictPath, "invalid conflicted path: ", path)),
        );
    }
    let target = join_path(worktree, path);
    let reply = io.next(Request::Inspect(copy(target.as_str())))?;
    match reply {
        Reply::Inspected { is_symlink, len } => {
            if *is_symlink {
                return Some(
                    Err(
                        fail_about(
                            FailureKind::SymbolicLink,
                            "conflict resolver cannot read a symbolic link: ",
                            path,
                        ),
                    ),
                );
            }
            let too_large = match *len {
                Some(n) => n > MAX_CONFLICT_FILE_BYTES,
                None => false,
            };
            if too_large {
                return Some(
                    Err(fail_about(FailureKind::TooLarge, "conflict file exceeds 16 MiB: ", path)),
                );
            }
        },
        _ => return Some(Err(reply_failure(reply))),
    }
    let reply = io.next(Request::ReadFile(target))?;
    match reply {
        Reply::Bytes(bytes) => match decode_text(bytes.as_slice()) {
            Some(content) => Some(
                Ok(ConflictFile { path: copy(path), content: Some(content) }),
            ),
            None => Some(
                Err(fail_about(FailureKind::NotUtf8, "conflict file is not UTF-8: ", path)),
            ),
        },
        Reply::Missing => Some(Ok(ConflictFile { path: copy(path), content: None })),
        _ => {
            let doing = concat("read conflict file ", path);
            Some(Err(fail_within(doing.as_str(), reply_failure(reply))))
        },
    }
}

/// Collects what is in the way of a commit.
pub fn capture_conflict(worktree: &str, purpose: &str, io: &mut Session) -> (r: Option<
    Result<ConflictCase, Failure>,
>)
    requires
        old(io).wf(),
    ensures
        final(io).wf(),
        final(io).replies == old(io).replies,
        follows(
            capturing(old(io).log(), old(io).at as nat, worktree@, purpose@),
            *final(io),
            opt_outcome(r),
        ),
{
    let listed = match io.text(unmerged_names(worktree))? {
        Err(failure) => return Some(Err(failure)),
        Ok(listed) => listed,
    };
    let names = lines_of(listed.as_str());
    let ghost views = lines(listed@);
    let ghost goal = reading_conflicts(
        io.log(),
        io.at as nat,
        worktree@,
        views,
        0,
        Seq::empty(),
    );
    let ghost whole = capturing(old(io).log(), old(io).at as nat, worktree@, purpose@);
    let mut files: Vec<ConflictFile> = Vec::new();
    assert(file_views(files@) =~= Seq::empty());
    let mut i: usize = 0;
    while i < names.len()
        invariant
            io.wf(),
            io.replies == old(io).replies,
            texts(names@) == views,
            i <= names@.len(),
            goal == reading_conflicts(
                io.log(),
                io.at as nat,
                worktree@,
                views,
                i as int,
                file_views(files@),
            ),
            whole == capturing(old(io).log(), old(io).at as nat, worktree@, purpose@),
            goal matches Script::Ask(request) ==> whole == Script::<
                Result<ConflictView, Refusal>,
            >::Ask(request),
            goal matches Script::Done(at, Err(refusal)) ==> whole == Script::<
                Result<ConflictView, Refusal>,
            >::Done(at, Err(refusal)),
        decreases names@.len() - i,
    {
        assert(views.len() == names@.len() && views[i as int] == names@[i as int]@);
        if !names[i].as_str().is_empty() {
            match read_conflict(worktree, names[i].as_str(), io)? {
                Err(failure) => return Some(Err(failure)),
                Ok(file) => {
                    assert(file_views(files@.push(file)) =~= file_views(files@).push(file@));
                    files.push(file);
                },
            }
        }
        i = i + 1;
    }
    assert(views.len() == names@.len());
    assert(file_views(files@).len() == files@.len());
    if files.len() == 0 {
        return Some(
            Err(
                fail(
                    FailureKind::NoConflict,
                    "cherry-pick failed without reporting conflicted files",
                ),
            ),
        );
    }
    Some(Ok(ConflictCase { purpose: copy(purpose), files }))
}

// ---------------------------------------------------------------------------------------------
// Resolving
// ---------------------------------------------------------------------------------------------

/// The paths of files.
pub open spec fn file_paths(files: Seq<ConflictFileView>) -> Seq<Seq<char>> {
    Seq::new(files.len(), |i: int| files[i].path)
}

/// Whether a resolution holds each path in conflict once and no other.
pub open spec fn covers(conflict: ConflictView, resolved: Seq<ConflictFileView>) -> bool {
    &&& file_paths(resolved).to_set() == file_paths(conflict.files).to_set()
    &&& file_paths(resolved).no_duplicates()
}

/// The refusal of a file that an attempted write or removal could not bring into its resolved state.
pub open spec fn storing_refusal(file: ConflictFileView, reply: Reply) -> Option<Refusal> {
    match file.content {
        Some(_) => if reply is Done {
            None
        } else {
            Some(within("write resolved conflict "@ + file.path, reply_refusal(reply)))
        },
        None => if reply is Done || reply is Missing {
            None
        } else {
            Some(within("delete resolved conflict "@ + file.path, reply_refusal(reply)))
        },
    }
}

/// Brings a file into its resolved state.
pub open spec fn storing(
    log: Seq<Reply>,
    at: nat,
    worktree: Seq<char>,
    file: ConflictFileView,
) -> Script<Result<(), Refusal>> {
    let target = joined_path(worktree, file.path);
    if !is_conflict_path(file.path) {
        Script::Done(at, Err(conflict_path_refusal(file.path)))
    } else if at >= log.len() {
        Script::Ask(RequestView::Inspect(target))
    } else {
        match log[at as int] {
            Reply::Inspected { is_symlink, len } => if is_symlink {
                Script::Done(
                    at + 1,
                    Err(
                        (
                            FailureKind::SymbolicLink,
                            "conflict resolver cannot write a symbolic link: "@ + file.path,
                        ),
                    ),
                )
            } else if file.content matches Some(content) && has_marker(content) {
                Script::Done(
                    at + 1,
                    Err((FailureKind::MarkersRemain, "conflict markers remain in "@ + file.path)),
                )
            } else if at + 1 >= log.len() {
                Script::Ask(
                    match file.content {
                        Some(content) => RequestView::WriteFile { path: target, content },
                        None => RequestView::RemoveFile(target),
                    },
                )
            } else {
                Script::Done(
                    at + 2,
                    match storing_refusal(file, log[(at + 1) as int]) {
                        Some(refusal) => Err(refusal),
                        None => Ok(()),
                    },
                )
            },
            _ => Script::Done(at + 1, Err(reply_refusal(log[at as int]))),
        }
    }
}

/// Brings the files from the `i`-th on into their resolved state.
pub open spec fn storing_all(
    log: Seq<Reply>,
    at: nat,
    worktree: Seq<char>,
    files: Seq<ConflictFileView>,
    i: int,
) -> Script<Result<(), Refusal>>
    decreases files.len() - i,
{
    if i < 0 || i >= files.len() {
        Script::Done(at, Ok(()))
    } else {
        match storing(log, at, worktree, files[i]) {
            Script::Ask(request) => Script::Ask(request),
            Script::Done(at, Err(refusal)) => Script::Done(at, Err(refusal)),
            Script::Done(at, Ok(_)) => storing_all(log, at, worktree, files, i + 1),
        }
    }
}

/// Takes a resolution over into the worktree and stages it, if it is complete and clean.
pub open spec fn resolving(
    log: Seq<Reply>,
    at: nat,
    worktree: Seq<char>,
    conflict: ConflictView,
    resolved: Seq<ConflictFileView>,
) -> Script<Result<(), Refusal>> {
    if !covers(conflict, resolved) {
        Script::Done(
            at,
            Err(
                (
                    FailureKind::IncompleteResolution,
                    "conflict resolver must return every conflicted path exactly once"@,
                ),
            ),
        )
    } else {
        match storing_all(log, at, worktree, resolved, 0) {
            Script::Ask(request) => Script::Ask(request),
            Script::Done(at, Err(refusal)) => Script::Done(at, Err(refusal)),
            Script::Done(at, Ok(_)) => match run(
                log,
                at,
                stage_paths_run(worktree, file_paths(resolved)),
            ) {
                Script::Ask(request) => Script::Ask(request),
                Script::Done(at, Err(refusal)) => Script::Done(at, Err(refusal)),
                Script::Done(at, Ok(_)) => run(log, at, check_staged_run(worktree)),
            },
        }
    }
}

/// Whether a resolution holds each path in conflict once and no other.
fn is_complete(conflict: &ConflictCase, resolved: &[ConflictFile]) -> (r: bool)
    ensures
        r == covers(conflict@, file_views(resolved@)),
{
    let expected = path_set(conflict.files.as_slice());
    let actual = path_set(resolved);
    let ghost wanted = file_paths(conflict@.files);
    let ghost given = file_paths(file_views(resolved@));
    proof {
        sorted_sets_are_unique(texts(expected@));
        sorted_sets_are_unique(texts(actual@));
        assert(texts(actual@).len() == actual@.len());
        assert(texts(expected@).len() == expected@.len());
        assert(given.len() == resolved@.len());
        lemma_distinct_len(given, texts(actual@));
    }
    if actual.len() != resolved.len() || actual.len() != expected.len() {
        return false;
    }
    let mut i: usize = 0;
    while i < actual.len()
        invariant
            wanted == file_paths(conflict@.files),
            given == file_paths(file_views(resolved@)),
            texts(expected@).to_set() == wanted.to_set(),
            texts(actual@).to_set() == given.to_set(),
            is_sorted_set(texts(expected@)),
            is_sorted_set(texts(actual@)),
            texts(expected@) == sorted_members(texts(expected@).to_set()),
            texts(actual@) == sorted_members(texts(actual@).to_set()),
            actual@.len() == expected@.len(),
            i <= actual@.len(),
            forall|k: int| 0 <= k < i ==> texts(actual@)[k] == texts(expected@)[k],
        decreases actual@.len() - i,
    {
        if !same_text(actual[i].as_str(), expected[i].as_str()) {
            assert(texts(actual@)[i as int] != texts(expected@)[i as int]);
            return false;
        }
        i = i + 1;
    }
    assert(texts(actual@) =~= texts(expected@));
    true
}

/// The paths of files in sorted order.
fn path_set(files: &[ConflictFile]) -> (r: Vec<String>)
    ensures
        is_sorted_set(texts(r@)),
        texts(r@).to_set() == file_paths(file_views(files@)).to_set(),
{
    let ghost all = file_paths(file_views(files@));
    let mut r: Vec<String> = Vec::new();
    let mut i: usize = 0;
    proof {
        assert(texts(r@) =~= Seq::empty());
        assert(texts(r@).to_set() =~= all.take(0).to_set());
    }
    while i < files.len()
        invariant
            all == file_paths(file_views(files@)),
            i <= files@.len(),
            is_sorted_set(texts(r@)),
            texts(r@).to_set() == all.take(i as int).to_set(),
        decreases files@.len() - i,
    {
        assert(all[i as int] == files@[i as int].path@);
        insert_unique(&mut r, files[i].path.as_str());
        proof {
            let fewer = all.take(i as int);
            let more = all.take(i + 1);
            assert(more =~= fewer.push(all[i as int]));
            assert(more.to_set() =~= fewer.to_set().insert(all[i as int])) by {
                assert forall|p: Seq<char>|
                    more.to_set().contains(p) <==> fewer.to_set().insert(all[i as int]).contains(
                        p,
                    ) by {
                    if fewer.contains(p) {
                        assert(more[fewer.index_of(p)] == p);
                    }
                    if p == all[i as int] {
                        assert(more[i as int] == p);
                    }
                    if more.contains(p) && p != all[i as int] {
                        let k = more.index_of(p);
                        assert(fewer[k] == p);
                    }
                }
            }
        }
        i = i + 1;
    }
    assert(all.take(i as int) =~= all);
    r
}

/// A list is as long as the list of its distinct members only if it has no duplicates.
proof fn lemma_distinct_len(all: Seq<Seq<char>>, members: Seq<Seq<char>>)
    requires
        members.no_duplicates(),
        members.to_set() == all.to_set(),
    ensures
        all.no_duplicates() <==> all.len() == members.len(),
{
    members.unique_seq_to_set();
    vstd::seq_lib::seq_to_set_is_finite(all);
    if all.no_duplicates() {
        all.unique_seq_to_set();
    } else {
        lemma_duplicates_shrink(all);
    }
}

/// A list with duplicates has fewer members than places.
proof fn lemma_duplicates_shrink(all: Seq<Seq<char>>)
    requires
        !all.no_duplicates(),
    ensures
        all.to_set().len() < all.len(),
{
    let (i, j) = choose|i: int, j: int|
        0 <= i < j < all.len() && #[trigger] all[i] == #[trigger] all[j];
    assert(exists|i: int, j: int| 0 <= i < j < all.len() && all[i] == all[j]) by {
        let (a, b) = choose|a: int, b: int|
            0 <= a < all.len() && 0 <= b < all.len() && a != b && #[trigger] all[a]
                == #[trigger] all[b];
        if a < b {
            assert(all[a] == all[b]);
        } else {
            assert(all[b] == all[a]);
        }
    }
    let rest = all.remove(j);
    assert(rest.to_set() =~= all.to_set()) by {
        assert forall|p: Seq<char>| rest.to_set().contains(p) <==> all.to_set().contains(p) by {
            if all.contains(p) {
                let k = all.index_of(p);
                if k < j {
                    assert(rest[k] == p);
                } else if k > j {
                    assert(rest[k - 1] == p);
                } else {
                    assert(rest[i] == p);
                }
            }
            if rest.contains(p) {
                let k = rest.index_of(p);
                if k < j {
                    assert(all[k] == p);
                } else {
                    assert(all[k + 1] == p);
                }
            }
        }
    }
    vstd::seq_lib::seq_to_set_is_finite(rest);
    rest.lemma_cardinality_of_set();
}

/// Brings a file into its resolved state.
fn store(worktree: &str, file: &ConflictFile, io: &mut Session) -> (r: Option<Result<(), Failure>>)
    requires
        old(io).wf(),
    ensures
        final(io).wf(),
        final(io).replies == old(io).replies,
        follows(
            storing(old(io).log(), old(io).at as nat, worktree@, file@),
            *final(io),
            opt_refusal(r),
        ),
{
    let path = file.path.as_str();
    if !conflict_path_is_valid(path) {
        return Some(
            Err(fail_about(FailureKind::BadConflictPath, "invalid conflicted path: ", path)),
        );
    }
    let target = join_path(worktree, path);
    let reply = io.next(Request::Inspect(copy(target.as_str())))?;
    match reply {
        Reply::Inspected { is_symlink, len } => {
            if *is_symlink {
                return Some(
                    Err(
                        fail_about(
                            FailureKind::SymbolicLink,
                            "conflict resolver cannot write a symbolic link: ",
                            path,
                        ),
                    ),
                );
            }
        },
        _ => return Some(Err(reply_failure(reply))),
    }
    match &file.content {
        Some(content) => {
            if contains_conflict_markers(content.as_str()) {
                return Some(
                    Err(
                        fail_about(
                            FailureKind::MarkersRemain,
                            "conflict markers remain in ",
                            path,
                        ),
                    ),
                );
            }
            let reply = io.next(
                Request::WriteFile { path: target, content: copy(content.as_str()) },
            )?;
            match reply {
                Reply::Done => Some(Ok(())),
                _ => {
                    let doing = concat("write resolved conflict ", path);
                    Some(Err(fail_within(doing.as_str(), reply_failure(reply))))
                },
            }
        },
        None => {
            let reply = io.next(Request::RemoveFile(target))?;
            match reply {
                Reply::Done | Reply::Missing => Some(Ok(())),
                _ => {
                    let doing = concat("delete resolved conflict ", path);
                    Some(Err(fail_within(doing.as_str(), reply_failure(reply))))
                },
            }
        },
    }
}

/// Brings files into their resolved state.
fn store_all(worktree: &str, files: &[ConflictFile], io: &mut Session) -> (r: Option<
    Result<(), Failure>,
>)
    requires
        old(io).wf(),
    ensures
        final(io).wf(),
        final(io).replies == old(io).replies,
        follows(
            storing_all(old(io).log(), old(io).at as nat, worktree@, file_views(files@), 0),
            *final(io),
            opt_refusal(r),
        ),
{
    let ghost views = file_views(files@);
    let ghost goal = storing_all(old(io).log(), old(io).at as nat, worktree@, views, 0);
    let mut i: usize = 0;
    while i < files.len()
        invariant
            io.wf(),
            io.replies == old(io).replies,
            views == file_views(files@),
            i <= files@.len(),
            goal == storing_all(old(io).log(), old(io).at as nat, worktree@, views, 0),
            goal == storing_all(io.log(), io.at as nat, worktree@, views, i as int),
        decreases files@.len() - i,
    {
        assert(views[i as int] == files@[i as int]@);
        match store(worktree, &files[i], io)? {
            Err(failure) => return Some(Err(failure)),
            Ok(()) => {},
        }
        i = i + 1;
    }
    Some(Ok(()))
}

/// Takes a resolution over into the worktree and stages it, if it is complete and clean.
pub fn apply_conflict_resolution(
    worktree: &str,
    conflict: &ConflictCase,
    resolved: &[ConflictFile],
    io: &mut Session,
) -> (r: Option<Result<(), Failure>>)
    requires
        old(io).wf(),
    ensures
        final(io).wf(),
        final(io).replies == old(io).replies,
        follows(
            resolving(
                old(io).log(),
                old(io).at as nat,
                worktree@,
                conflict@,
                file_views(resolved@),
            ),
            *final(io),
            opt_refusal(r),
        ),
{
    if !is_complete(conflict, resolved) {
        return Some(
            Err(
                fail(
                    FailureKind::IncompleteResolution,
                    "conflict resolver must return every conflicted path exactly once",
                ),
            ),
        );
    }
    match store_all(worktree, resolved, io)? {
        Err(failure) => return Some(Err(failure)),
        Ok(()) => {},
    }
    let ghost all = file_paths(file_views(resolved@));
    let mut paths: Vec<String> = Vec::new();
    let mut i: usize = 0;
    assert(texts(paths@) =~= all.take(0));
    while i < resolved.len()
        invariant
            all == file_paths(file_views(resolved@)),
            i <= resolved@.len(),
            texts(paths@) == all.take(i as int),
        decreases resolved@.len() - i,
    {
        let path = copy(resolved[i].path.as_str());
        proof {
            lemma_texts_push(paths@, path);
            assert(all.take(i + 1) =~= all.take(i as int).push(all[i as int]));
        }
        paths.push(path);
        i = i + 1;
    }
    assert(all.take(i as int) =~= all);
    match io.run(stage_paths(worktree, &paths))? {
        Err(failure) => return Some(Err(failure)),
        Ok(()) => {},
    }
    io.run(check_staged(worktree))
}

// ---------------------------------------------------------------------------------------------
// Replaying with a resolver
// ---------------------------------------------------------------------------------------------

/// Commits a resolution that is staged and takes the commit into the queue. Where it fails, the
/// commit is told of under the identifier that it has by then.
pub open spec fn recommitting(log: Seq<Reply>, at: nat, state: GitView, item: CommitView) -> Script<
    (GitView, Result<(), (Refusal, CommitView)>),
> {
    match run(log, at, git_commit_run(state.worktree, item.purpose)) {
        Script::Ask(request) => Script::Ask(request),
        Script::Done(at, Err(refusal)) => Script::Done(at, (state, Err((refusal, item)))),
        Script::Done(at, Ok(_)) => match word(log, at, head_run(state.worktree)) {
            Script::Ask(request) => Script::Ask(request),
            Script::Done(at, Err(refusal)) => Script::Done(at, (state, Err((refusal, item)))),
            Script::Done(at, Ok(id)) => match text(log, at, git_show_run(state.worktree, id)) {
                Script::Ask(request) => Script::Ask(request),
                Script::Done(at, Err(refusal)) => Script::Done(
                    at,
                    (state, Err((refusal, CommitView { id, ..item }))),
                ),
                Script::Done(at, Ok(diff)) => Script::Done(
                    at,
                    (state.with_commit(CommitView { id, diff, ..item }), Ok(())),
                ),
            },
        },
    }
}

impl GitView {
    /// The session after a commit in conflict had to go.
    pub open spec fn without_conflicting(self, item: CommitView, refusal: Refusal) -> GitView {
        self.noting(
            UiView::Sensory(discarded(item, "conflict resolution failed"@, refusal.1)),
        )
    }
}

/// Puts the worktree back on top of the queue and drops the commit in conflict.
pub open spec fn dropping_conflicting(
    log: Seq<Reply>,
    at: nat,
    state: GitView,
    item: CommitView,
    refusal: Refusal,
) -> Script<(GitView, Result<bool, Refusal>)> {
    if at >= log.len() {
        Script::Ask(RequestView::Git(reset_hard_run(state.worktree, state.tip())))
    } else {
        Script::Done(at + 1, (state.without_conflicting(item, refusal), Ok(true)))
    }
}

/// Takes a resolution over and commits it, or drops the commit in conflict.
pub open spec fn adopting_resolution(
    log: Seq<Reply>,
    at: nat,
    state: GitView,
    item: CommitView,
    conflict: ConflictView,
    resolved: Seq<ConflictFileView>,
) -> Script<(GitView, Result<bool, Refusal>)> {
    match deed(log, at, RequestView::Lock) {
        Script::Ask(request) => Script::Ask(request),
        Script::Done(at, Err(refusal)) => Script::Done(at, (state, Err(refusal))),
        Script::Done(at, Ok(_)) => match resolving(log, at, state.worktree, conflict, resolved) {
            Script::Ask(request) => Script::Ask(request),
            Script::Done(at, Err(refusal)) => dropping_conflicting(log, at, state, item, refusal),
            Script::Done(at, Ok(_)) => match recommitting(log, at, state, item) {
                Script::Ask(request) => Script::Ask(request),
                Script::Done(at, (next, Ok(_))) => Script::Done(at, (next, Ok(true))),
                Script::Done(at, (next, Err((refusal, told)))) => dropping_conflicting(
                    log,
                    at,
                    next,
                    told,
                    refusal,
                ),
            },
        },
    }
}

/// Has a conflict resolved, from the refused replay on.
pub open spec fn having_resolved(log: Seq<Reply>, at: nat, state: GitView, item: CommitView) -> Script<
    (GitView, Result<bool, Refusal>),
> {
    match capturing(log, at, state.worktree, item.purpose) {
        Script::Ask(request) => Script::Ask(request),
        Script::Done(at, captured) => if at >= log.len() {
            Script::Ask(RequestView::Git(abort_pick_run(state.worktree)))
        } else {
            match captured {
                Err(refusal) => Script::Done(
                    at + 1,
                    (state.without_conflicting(item, refusal), Ok(true)),
                ),
                Ok(conflict) => if at + 1 >= log.len() {
                    Script::Ask(RequestView::Resolve(conflict))
                } else {
                    match log[(at + 1) as int] {
                        Reply::Resolved(files) => adopting_resolution(
                            log,
                            at + 2,
                            state,
                            item,
                            conflict,
                            file_views(files@),
                        ),
                        _ => Script::Done(
                            at + 2,
                            (
                                state.without_conflicting(
                                    item,
                                    reply_refusal(log[(at + 1) as int]),
                                ),
                                Ok(true),
                            ),
                        ),
                    }
                },
            }
        },
    }
}

/// Replays one commit and has a conflict resolved; says whether what there is to review changed.
pub open spec fn replaying_item(log: Seq<Reply>, at: nat, state: GitView, item: CommitView) -> Script<
    (GitView, Result<bool, Refusal>),
> {
    match deed(log, at, RequestView::Lock) {
        Script::Ask(request) => Script::Ask(request),
        Script::Done(at, Err(refusal)) => Script::Done(at, (state, Err(refusal))),
        Script::Done(at, Ok(_)) => match run(log, at, cherry_pick_as_agent_run(state.worktree, item.id)) {
            Script::Ask(request) => Script::Ask(request),
            Script::Done(at, Ok(_)) => match readmit(log, at, state, item, true) {
                Script::Ask(request) => Script::Ask(request),
                Script::Done(at, (next, Err(refusal))) => Script::Done(at, (next, Err(refusal))),
                Script::Done(at, (next, Ok(_))) => Script::Done(at, (next, Ok(false))),
            },
            Script::Done(at, Err(_)) => having_resolved(log, at, state, item),
        },
    }
}

/// Replays the commits from the `i`-th on and has conflicts resolved.
pub open spec fn replaying_items(
    log: Seq<Reply>,
    at: nat,
    state: GitView,
    items: Seq<CommitView>,
    i: int,
    changed: bool,
) -> Script<(GitView, Result<bool, Refusal>)>
    decreases items.len() - i,
{
    if i < 0 || i >= items.len() {
        Script::Done(at, (state, Ok(changed)))
    } else {
        match replaying_item(log, at, state, items[i]) {
            Script::Ask(request) => Script::Ask(request),
            Script::Done(at, (next, Err(refusal))) => Script::Done(at, (next, Err(refusal))),
            Script::Done(at, (next, Ok(differs))) => replaying_items(
                log,
                at,
                next,
                items,
                i + 1,
                changed || differs,
            ),
        }
    }
}

/// Puts the worktree onto a snapshot and replays the queue there, with conflicts resolved.
pub open spec fn replaying(log: Seq<Reply>, at: nat, state: GitView, baseline: Seq<char>) -> Script<
    (GitView, Result<bool, Refusal>),
> {
    let emptied = GitView { commits: Seq::empty(), ..state };
    match run(log, at, reset_hard_run(state.worktree, baseline)) {
        Script::Ask(request) => Script::Ask(request),
        Script::Done(at, Err(refusal)) => Script::Done(at, (emptied, Err(refusal))),
        Script::Done(at, Ok(_)) => replaying_items(
            log,
            at,
            GitView { baseline, ..emptied },
            state.commits,
            0,
            false,
        ),
    }
}

/// Brings the session up to date with the parent and has conflicts resolved; says whether what
/// there is to review changed.
pub open spec fn synchronizing(log: Seq<Reply>, at: nat, state: GitView) -> Script<
    (GitView, Result<bool, Refusal>),
> {
    match observation(log, at, state) {
        Script::Ask(request) => Script::Ask(request),
        Script::Done(at, Err(refusal)) => Script::Done(at, (state, Err(refusal))),
        Script::Done(at, Ok(None)) => Script::Done(at, (state, Ok(false))),
        Script::Done(at, Ok(Some((next, diff)))) => match replaying(log, at, state, next) {
            Script::Ask(request) => Script::Ask(request),
            Script::Done(at, (replayed, Err(refusal))) => Script::Done(
                at,
                (replayed, Err(refusal)),
            ),
            Script::Done(at, (replayed, Ok(changed))) => Script::Done(
                at,
                (replayed.tidied().observing(next, diff).shown(), Ok(changed)),
            ),
        },
    }
}

/// Whether a command would apply commits that nobody has seen in their new form.
pub open spec fn needs_new_review(command: GitControlCommand) -> bool {
    match command {
        GitControlCommand::ApplyAll => true,
        GitControlCommand::SetMode(mode) => mode == WorkspaceMode::Write,
        _ => false,
    }
}

/// What is said instead of applying changed commits.
pub open spec fn review_again() -> Seq<char> {
    "review commits changed during synchronization; review the updated diff before applying"@
}

/// Brings the session up to date with the parent, has conflicts resolved, and does what the user
/// asked for. Where that means to apply the queue and the queue changed, it stops for review.
pub open spec fn handling_resolved(
    log: Seq<Reply>,
    at: nat,
    state: GitView,
    command: GitControlCommand,
) -> Script<(GitView, Result<(), Refusal>)> {
    match synchronizing(log, at, state) {
        Script::Ask(request) => Script::Ask(request),
        Script::Done(at, (next, Err(refusal))) => Script::Done(at, (next, Err(refusal))),
        Script::Done(at, (next, Ok(changed))) => if changed && needs_new_review(command) {
            Script::Done(at, (next.noting(UiView::Error(review_again())).shown(), Ok(())))
        } else {
            controlling(log, at, next, command)
        },
    }
}

/// A failure together with the commit it is told of, over plain texts.
pub open spec fn opt_told(r: Option<Result<(), (Failure, ReviewCommit)>>) -> Option<
    Result<(), (Refusal, CommitView)>,
> {
    match r {
        None => None,
        Some(Ok(())) => Some(Ok(())),
        Some(Err((failure, item))) => Some(Err((failure@, item@))),
    }
}

impl GitWorkspace {
    /// Adds a word about a commit in conflict that had to go.
    fn discard_conflicting_item(&mut self, item: &ReviewCommit, failure: &Failure)
        ensures
            final(self)@ == old(self)@.without_conflicting(item@, failure@),
    {
        self.note_discarded(item, "conflict resolution failed", failure.message.as_str());
    }

    /// Commits a resolution that is staged and takes the commit into the queue.
    fn recommit(&mut self, item: &ReviewCommit, io: &mut Session) -> (r: Option<
        Result<(), (Failure, ReviewCommit)>,
    >)
        requires
            old(io).wf(),
        ensures
            final(io).wf(),
            final(io).replies == old(io).replies,
            follows(
                recommitting(old(io).log(), old(io).at as nat, old(self)@, item@),
                *final(io),
                stateful(final(self)@, opt_told(r)),
            ),
    {
        let mut made = item.copy();
        match io.run(git_commit(self.worktree.as_str(), item.purpose.as_str()))? {
            Err(failure) => return Some(Err((failure, made))),
            Ok(()) => {},
        }
        match io.word(head(self.worktree.as_str()))? {
            Err(failure) => return Some(Err((failure, made))),
            Ok(id) => {
                made.id = id;
            },
        }
        match io.text(git_show(self.worktree.as_str(), made.id.as_str()))? {
            Err(failure) => return Some(Err((failure, made))),
            Ok(diff) => {
                made.diff = diff;
            },
        }
        proof {
            lemma_commit_views_push(self.commits@, made);
        }
        self.commits.push(made);
        Some(Ok(()))
    }

    /// Puts the worktree back on top of the queue and drops the commit in conflict.
    fn drop_conflicting(&mut self, item: &ReviewCommit, failure: &Failure, io: &mut Session) -> (r:
        Option<Result<bool, Failure>>)
        requires
            old(io).wf(),
        ensures
            final(io).wf(),
            final(io).replies == old(io).replies,
            follows(
                dropping_conflicting(
                    old(io).log(),
                    old(io).at as nat,
                    old(self)@,
                    item@,
                    failure@,
                ),
                *final(io),
                stateful(final(self)@, opt_flag(r)),
            ),
    {
        let tip = self.tip();
        io.next(Request::Git(reset_hard(self.worktree.as_str(), tip.as_str())))?;
        self.discard_conflicting_item(item, failure);
        Some(Ok(true))
    }

    /// Takes a resolution over and commits it, or drops the commit in conflict.
    pub fn adopt_resolution(
        &mut self,
        item: &ReviewCommit,
        conflict: &ConflictCase,
        resolved: &[ConflictFile],
        io: &mut Session,
    ) -> (r: Option<Result<bool, Failure>>)
        requires
            old(io).wf(),
        ensures
            final(io).wf(),
            final(io).replies == old(io).replies,
            follows(
                adopting_resolution(
                    old(io).log(),
                    old(io).at as nat,
                    old(self)@,
                    item@,
                    conflict@,
                    file_views(resolved@),
                ),
                *final(io),
                stateful(final(self)@, opt_flag(r)),
            ),
    {
        match io.deed(Request::Lock)? {
            Err(failure) => return Some(Err(failure)),
            Ok(()) => {},
        }
        match apply_conflict_resolution(self.worktree.as_str(), conflict, resolved, io)? {
            Err(failure) => return self.drop_conflicting(item, &failure, io),
            Ok(()) => {},
        }
        match self.recommit(item, io)? {
            Ok(()) => Some(Ok(true)),
            Err((failure, told)) => self.drop_conflicting(&told, &failure, io),
        }
    }

    /// Has a conflict resolved, from the refused replay on.
    fn have_resolved(&mut self, item: &ReviewCommit, io: &mut Session) -> (r: Option<
        Result<bool, Failure>,
    >)
        requires
            old(io).wf(),
        ensures
            final(io).wf(),
            final(io).replies == old(io).replies,
            follows(
                having_resolved(old(io).log(), old(io).at as nat, old(self)@, item@),
                *final(io),
                stateful(final(self)@, opt_flag(r)),
            ),
    {
        let captured = capture_conflict(self.worktree.as_str(), item.purpose.as_str(), io)?;
        io.next(Request::Git(abort_pick(self.worktree.as_str())))?;
        let conflict = match captured {
            Err(failure) => {
                self.discard_conflicting_item(item, &failure);
                return Some(Ok(true));
            },
            Ok(conflict) => conflict,
        };
        let handed = ConflictCase {
            purpose: copy(conflict.purpose.as_str()),
            files: copy_files(conflict.files.as_slice()),
        };
        let reply = io.next(Request::Resolve(handed))?;
        match reply {
            Reply::Resolved(files) => self.adopt_resolution(item, &conflict, files.as_slice(), io),
            _ => {
                let failure = reply_failure(reply);
                self.discard_conflicting_item(item, &failure);
                Some(Ok(true))
            },
        }
    }

    /// Replays one commit and has a conflict resolved; says whether what there is to review
    /// changed.
    pub fn replay_item_with_resolver(&mut self, item: &ReviewCommit, io: &mut Session) -> (r: Option<
        Result<bool, Failure>,
    >)
        requires
            old(io).wf(),
        ensures
            final(io).wf(),
            final(io).replies == old(io).replies,
            follows(
                replaying_item(old(io).log(), old(io).at as nat, old(self)@, item@),
                *final(io),
                stateful(final(self)@, opt_flag(r)),
            ),
    {
        match io.deed(Request::Lock)? {
            Err(failure) => return Some(Err(failure)),
            Ok(()) => {},
        }
        match io.run(cherry_pick_as_agent(self.worktree.as_str(), item.id.as_str()))? {
            Ok(()) => {
                match self.readmit(item, true, io)? {
                    Err(failure) => Some(Err(failure)),
                    Ok(()) => Some(Ok(false)),
                }
            },
            Err(_) => self.have_resolved(item, io),
        }
    }

    /// Brings the session up to date with the parent and has conflicts resolved; says whether
    /// what there is to review changed.
    pub fn sync_with_resolver(&mut self, io: &mut Session) -> (r: Option<Result<bool, Failure>>)
        requires
            old(io).wf(),
        ensures
            final(io).wf(),
            final(io).replies == old(io).replies,
            follows(
                synchronizing(old(io).log(), old(io).at as nat, old(self)@),
                *final(io),
                stateful(final(self)@, opt_flag(r)),
            ),
    {
        let (next, diff) = match self.observe(io)? {
            Err(failure) => return Some(Err(failure)),
            Ok(None) => return Some(Ok(false)),
            Ok(Some(found)) => found,
        };
        let changed = match self.replay_with_resolver(next.as_str(), io)? {
            Err(failure) => return Some(Err(failure)),
            Ok(changed) => changed,
        };
        self.tidy();
        self.emit_sensory(next.as_str(), diff.as_str());
        self.emit_state();
        Some(Ok(changed))
    }

    /// Puts the worktree onto a snapshot and replays the queue there, with conflicts resolved.
    fn replay_with_resolver(&mut self, baseline: &str, io: &mut Session) -> (r: Option<
        Result<bool, Failure>,
    >)
        requires
            old(io).wf(),
        ensures
            final(io).wf(),
            final(io).replies == old(io).replies,
            follows(
                replaying(old(io).log(), old(io).at as nat, old(self)@, baseline@),
                *final(io),
                stateful(final(self)@, opt_flag(r)),
            ),
    {
        let items = copy_commits(self.commits.as_slice());
        let ghost views = commit_views(items@);
        self.commits = Vec::new();
        assert(commit_views(self.commits@) =~= Seq::empty());
        match io.run(reset_hard(self.worktree.as_str(), baseline))? {
            Err(failure) => return Some(Err(failure)),
            Ok(()) => {},
        }
        self.baseline = copy(baseline);
        let ghost goal = replaying(old(io).log(), old(io).at as nat, old(self)@, baseline@);
        let mut changed = false;
        let mut i: usize = 0;
        while i < items.len()
            invariant
                io.wf(),
                io.replies == old(io).replies,
                views == commit_views(items@),
                i <= items@.len(),
                goal == replaying(old(io).log(), old(io).at as nat, old(self)@, baseline@),
                goal == replaying_items(
                    io.log(),
                    io.at as nat,
                    self@,
                    views,
                    i as int,
                    changed,
                ),
            decreases items@.len() - i,
        {
            assert(views[i as int] == items@[i as int]@);
            match self.replay_item_with_resolver(&items[i], io)? {
                Err(failure) => return Some(Err(failure)),
                Ok(differs) => {
                    changed = changed || differs;
                },
            }
            i = i + 1;
        }
        Some(Ok(changed))
    }

    /// Brings the session up to date with the parent, has conflicts resolved, and does what the
    /// user asked for. Where that means to apply the queue and the queue changed, it stops for
    /// review.
    pub fn handle_control_with_resolver(&mut self, command: &GitControlCommand, io: &mut Session) -> (r:
        Option<Result<(), Failure>>)
        requires
            old(io).wf(),
        ensures
            final(io).wf(),
            final(io).replies == old(io).replies,
            follows(
                handling_resolved(old(io).log(), old(io).at as nat, old(self)@, *command),
                *final(io),
                stateful(final(self)@, opt_refusal(r)),
            ),
    {
        let changed = match self.sync_with_resolver(io)? {
            Err(failure) => return Some(Err(failure)),
            Ok(changed) => changed,
        };
        let applies_queue = match command {
            GitControlCommand::ApplyAll => true,
            GitControlCommand::SetMode(mode) => *mode == WorkspaceMode::Write,
            _ => false,
        };
        if changed && applies_queue {
            let message = copy(
                "review commits changed during synchronization; review the updated diff before applying",
            );
            self.note(GitUiEvent::Error(message));
            self.emit_state();
            return Some(Ok(()));
        }
        self.obey(command, io)
    }
}

} // verus!
