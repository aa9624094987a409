//! Taking a repository into use: what it has to be like, and the session that is made on it.
use vstd::prelude::*;

use crate::command::{add_worktree, add_worktree_run, branch_name, branch_name_run, common_dir,
    common_dir_run, config_matching, config_matching_run, config_value, config_value_run,
    delete_branch, delete_branch_run, head, head_run, is_bare, is_bare_run, prune_worktrees,
    prune_worktrees_run, remove_worktree, remove_worktree_run, reset_hard, reset_hard_run,
    superproject, superproject_run, top_level, top_level_run};
use crate::encoding::{decode_text, utf8_text};
use crate::executable::{inside_refusal, GitExecutable};
use crate::failure::{fail, fail_about, fail_within, refusal, within, Failure, FailureKind, Refusal};
use crate::git::WorkspaceMode;
use crate::paths::{join_path, joined_path};
use crate::review::{ask_fresh_id, fresh_id, path_in, resolve_in, settled, snapshot, snapshot_parent,
    stateful, validate_repository_state, GitView, GitWorkspace};
use crate::scan::{has_text, holds_text, join, joined, lines, lines_of, pieces, split, trim,
    trimmed};
use crate::script::{deed, follows, opt_outcome, opt_refusal, reply_failure, reply_refusal, run,
    text, word, DirectoryEntry, LockEntry, Reply, Request, RequestView, Script, Session};
use crate::text::{concat, copy, lemma_texts_push, same_text, string_of, texts};

verus! {

/// Seconds after which the worktree of another session counts as left behind.
pub const STALE_WORKTREE_SECONDS: u64 = 86400;

// ---------------------------------------------------------------------------------------------
// Filters
// ---------------------------------------------------------------------------------------------

/// Whether a reply shows that a setting is there. Git fails where there is none.
pub open spec fn shows_setting(result: Result<Seq<char>, Refusal>) -> bool {
    result matches Ok(value) && trimmed(value).len() > 0
}

/// Accepts a repository without a setting.
pub open spec fn without_setting(
    log: Seq<Reply>,
    at: nat,
    what: crate::command::InvocationView,
    message: Seq<char>,
) -> Script<Result<(), Refusal>> {
    match text(log, at, what) {
        Script::Ask(request) => Script::Ask(request),
        Script::Done(at, result) => if shows_setting(result) {
            Script::Done(at, Err((FailureKind::UnsupportedSetting, message)))
        } else {
            Script::Done(at, Ok(()))
        },
    }
}

/// Accepts a repository without a setting.
fn reject_setting(what: crate::command::Invocation, message: &str, io: &mut Session) -> (r: Option<
    Result<(), Failure>,
>)
    requires
        old(io).wf(),
    ensures
        final(io).wf(),
        final(io).replies == old(io).replies,
        follows(
            without_setting(old(io).log(), old(io).at as nat, what@, message@),
            *final(io),
            opt_refusal(r),
        ),
{
    match io.text(what)? {
        Err(_) => Some(Ok(())),
        Ok(value) => {
            let bare = trim(value.as_str());
            if bare.as_str().is_empty() {
                Some(Ok(()))
            } else {
                Some(Err(fail(FailureKind::UnsupportedSetting, message)))
            }
        },
    }
}

/// Accepts a repository without settings that would have Git run other programs.
pub open spec fn without_settings(log: Seq<Reply>, at: nat, root: Seq<char>) -> Script<
    Result<(), Refusal>,
> {
    match without_setting(
        log,
        at,
        config_value_run(root, "diff.external"@),
        "repository-local external diff is not supported"@,
    ) {
        Script::Ask(request) => Script::Ask(request),
        Script::Done(at, Err(refusal)) => Script::Done(at, Err(refusal)),
        Script::Done(at, Ok(_)) => match without_setting(
            log,
            at,
            config_matching_run(root, "^diff\\..*\\.textconv$"@),
            "repository-local textconv is not supported"@,
        ) {
            Script::Ask(request) => Script::Ask(request),
            Script::Done(at, Err(refusal)) => Script::Done(at, Err(refusal)),
            Script::Done(at, Ok(_)) => match without_setting(
                log,
                at,
                config_matching_run(root, "^filter\\."@),
                "custom Git clean/smudge filters are not supported"@,
            ) {
                Script::Ask(request) => Script::Ask(request),
                Script::Done(at, Err(refusal)) => Script::Done(at, Err(refusal)),
                Script::Done(at, Ok(_)) => without_setting(
                    log,
                    at,
                    config_value_run(root, "core.attributesfile"@),
                    "repository-local core.attributesFile is not supported"@,
                ),
            },
        },
    }
}

/// Accepts a repository without settings that would have Git run other programs.
fn reject_settings(root: &str, io: &mut Session) -> (r: Option<Result<(), Failure>>)
    requires
        old(io).wf(),
    ensures
        final(io).wf(),
        final(io).replies == old(io).replies,
        follows(
            without_settings(old(io).log(), old(io).at as nat, root@),
            *final(io),
            opt_refusal(r),
        ),
{
    match reject_setting(
        config_value(root, "diff.external"),
        "repository-local external diff is not supported",
        io,
    )? {
        Err(failure) => return Some(Err(failure)),
        Ok(()) => {},
    }
    match reject_setting(
        config_matching(root, "^diff\\..*\\.textconv$"),
        "repository-local textconv is not supported",
        io,
    )? {
        Err(failure) => return Some(Err(failure)),
        Ok(()) => {},
    }
    match reject_setting(
        config_matching(root, "^filter\\."),
        "custom Git clean/smudge filters are not supported",
        io,
    )? {
        Err(failure) => return Some(Err(failure)),
        Ok(()) => {},
    }
    reject_setting(
        config_value(root, "core.attributesfile"),
        "repository-local core.attributesFile is not supported",
        io,
    )
}

/// Whether an attributes file, as far as it could be read, names a filter.
pub open spec fn names_filter(reply: Reply) -> bool {
    match reply {
        Reply::Bytes(bytes) => match utf8_text(bytes@) {
            Some(content) => has_filter_line(content),
            None => false,
        },
        _ => false,
    }
}

/// Whether a line of an attributes file names a filter.
pub open spec fn has_filter_line(content: Seq<char>) -> bool {
    exists|i: int| 0 <= i < lines(content).len() && holds_text(#[trigger] lines(content)[i], "filter="@)
}

/// Whether an attributes file, as far as it could be read, names a filter.
fn reply_names_filter(reply: &Reply) -> (r: bool)
    ensures
        r == names_filter(*reply),
{
    match reply {
        Reply::Bytes(bytes) => match decode_text(bytes.as_slice()) {
            Some(content) => find_filter_line(content.as_str()),
            None => false,
        },
        _ => false,
    }
}

/// Whether a line of an attributes file names a filter.
pub fn find_filter_line(content: &str) -> (r: bool)
    ensures
        r == has_filter_line(content@),
{
    let all = lines_of(content);
    let ghost views = lines(content@);
    let mut i: usize = 0;
    while i < all.len()
        invariant
            texts(all@) == views,
            views == lines(content@),
            i <= all@.len(),
            forall|k: int| 0 <= k < i ==> !holds_text(#[trigger] views[k], "filter="@),
        decreases all@.len() - i,
    {
        assert(views.len() == all@.len() && views[i as int] == all@[i as int]@);
        if has_text(all[i].as_str(), "filter=") {
            return true;
        }
        i = i + 1;
    }
    assert(views.len() == all@.len());
    false
}

/// The directories to look into below one, in the order in which they were listed: all but Git's
/// own and the agent's state.
pub open spec fn inner_directories(directory: Seq<char>, entries: Seq<DirectoryEntry>) -> Seq<
    Seq<char>,
>
    decreases entries.len(),
{
    if entries.len() == 0 {
        Seq::empty()
    } else {
        let before = inner_directories(directory, entries.drop_last());
        let last = entries.last();
        if last.is_directory && last.name@ != ".git"@ && last.name@ != ".nuillu"@ {
            before.push(joined_path(directory, last.name@))
        } else {
            before
        }
    }
}

/// Whether a directory holds an attributes file.
pub open spec fn holds_attributes(entries: Seq<DirectoryEntry>) -> bool {
    exists|i: int| 0 <= i < entries.len() && is_attributes_file(#[trigger] entries[i])
}

/// Whether an entry is an attributes file.
pub open spec fn is_attributes_file(entry: DirectoryEntry) -> bool {
    !entry.is_directory && entry.name@ == ".gitattributes"@
}

/// The refusal of an attributes file that names a filter.
pub open spec fn attribute_refusal(directory: Seq<char>) -> Refusal {
    (
        FailureKind::UnsupportedFilter,
        "custom Git filter attribute is not supported: "@ + joined_path(
            directory,
            ".gitattributes"@,
        ),
    )
}

/// Looks through directories, the last one first, for attributes files that name a filter.
pub open spec fn scanning(log: Seq<Reply>, at: nat, stack: Seq<Seq<char>>) -> Script<
    Result<(), Refusal>,
>
    decreases log.len() - at,
{
    if stack.len() == 0 {
        Script::Done(at, Ok(()))
    } else {
        let directory = stack.last();
        if at >= log.len() {
            Script::Ask(RequestView::ListDirectory(directory))
        } else {
            match log[at as int] {
                Reply::Entries(entries) => {
                    let rest = stack.drop_last() + inner_directories(directory, entries@);
                    if !holds_attributes(entries@) {
                        scanning(log, at + 1, rest)
                    } else if at + 1 >= log.len() {
                        Script::Ask(
                            RequestView::ReadFile(joined_path(directory, ".gitattributes"@)),
                        )
                    } else if names_filter(log[(at + 1) as int]) {
                        Script::Done(at + 2, Err(attribute_refusal(directory)))
                    } else {
                        scanning(log, at + 2, rest)
                    }
                },
                _ => Script::Done(
                    at + 1,
                    Err(
                        within(
                            "inspect attributes under "@ + directory,
                            reply_refusal(log[at as int]),
                        ),
                    ),
                ),
            }
        }
    }
}

/// Whether a directory holds an attributes file.
fn find_attributes(entries: &Vec<DirectoryEntry>) -> (r: bool)
    ensures
        r == holds_attributes(entries@),
{
    let mut i: usize = 0;
    while i < entries.len()
        invariant
            i <= entries@.len(),
            forall|k: int| 0 <= k < i ==> !is_attributes_file(#[trigger] entries@[k]),
        decreases entries@.len() - i,
    {
        if !entries[i].is_directory && same_text(entries[i].name.as_str(), ".gitattributes") {
            assert(is_attributes_file(entries@[i as int]));
            return true;
        }
        i = i + 1;
    }
    false
}

/// Adds the directories to look into below one.
fn push_directories(stack: &mut Vec<String>, directory: &str, entries: &Vec<DirectoryEntry>)
    ensures
        texts(final(stack)@) == texts(old(stack)@) + inner_directories(directory@, entries@),
{
    let ghost start = texts(stack@);
    let mut i: usize = 0;
    assert(entries@.take(0) =~= Seq::empty());
    assert(texts(stack@) =~= start + inner_directories(directory@, entries@.take(0)));
    while i < entries.len()
        invariant
            i <= entries@.len(),
            texts(stack@) == start + inner_directories(directory@, entries@.take(i as int)),
        decreases entries@.len() - i,
    {
        let ghost before = inner_directories(directory@, entries@.take(i as int));
        assert(entries@.take(i + 1).drop_last() =~= entries@.take(i as int));
        let name = entries[i].name.as_str();
        if entries[i].is_directory && !same_text(name, ".git") && !same_text(name, ".nuillu") {
            let path = join_path(directory, name);
            proof {
                lemma_texts_push(stack@, path);
                assert((start + before).push(path@) =~= start + before.push(path@));
            }
            stack.push(path);
        }
        i = i + 1;
    }
    assert(entries@.take(i as int) =~= entries@);
}

/// Looks through a directory and the ones below for attributes files that name a filter.
fn scan_attributes(root: &str, io: &mut Session) -> (r: Option<Result<(), Failure>>)
    requires
        old(io).wf(),
    ensures
        final(io).wf(),
        final(io).replies == old(io).replies,
        follows(
            scanning(old(io).log(), old(io).at as nat, seq![root@]),
            *final(io),
            opt_refusal(r),
        ),
{
    let ghost goal = scanning(old(io).log(), old(io).at as nat, seq![root@]);
    let mut stack: Vec<String> = Vec::new();
    stack.push(copy(root));
    assert(texts(stack@) =~= seq![root@]);
    while stack.len() > 0
        invariant
            io.wf(),
            io.replies == old(io).replies,
            goal == scanning(old(io).log(), old(io).at as nat, seq![root@]),
            goal == scanning(io.log(), io.at as nat, texts(stack@)),
        decreases io.replies@.len() - io.at,
    {
        let ghost views = texts(stack@);
        assert(views.len() == stack@.len());
        let directory = match stack.pop() {
            Some(directory) => directory,
            None => return Some(Ok(())),
        };
        proof {
            assert(views.last() == directory@);
            assert(texts(stack@) =~= views.drop_last());
        }
        let reply = io.next(Request::ListDirectory(copy(directory.as_str())))?;
        match reply {
            Reply::Entries(entries) => {
                push_directories(&mut stack, directory.as_str(), entries);
                if find_attributes(entries) {
                    let path = join_path(directory.as_str(), ".gitattributes");
                    let content = io.next(Request::ReadFile(copy(path.as_str())))?;
                    if reply_names_filter(content) {
                        return Some(
                            Err(
                                fail_about(
                                    FailureKind::UnsupportedFilter,
                                    "custom Git filter attribute is not supported: ",
                                    path.as_str(),
                                ),
                            ),
                        );
                    }
                }
            },
            _ => {
                let doing = concat("inspect attributes under ", directory.as_str());
                return Some(Err(fail_within(doing.as_str(), reply_failure(reply))));
            },
        }
    }
    assert(texts(stack@).len() == 0);
    Some(Ok(()))
}

/// Accepts a repository that would not have Git run other programs on its files: no such settings,
/// no filter in the attributes files of the worktree and none in the repository's own.
pub open spec fn without_filters(log: Seq<Reply>, at: nat, root: Seq<char>) -> Script<
    Result<(), Refusal>,
> {
    match without_settings(log, at, root) {
        Script::Ask(request) => Script::Ask(request),
        Script::Done(at, Err(refusal)) => Script::Done(at, Err(refusal)),
        Script::Done(at, Ok(_)) => match scanning(log, at, seq![root]) {
            Script::Ask(request) => Script::Ask(request),
            Script::Done(at, Err(refusal)) => Script::Done(at, Err(refusal)),
            Script::Done(at, Ok(_)) => match word(log, at, common_dir_run(root)) {
                Script::Ask(request) => Script::Ask(request),
                Script::Done(at, Err(refusal)) => Script::Done(at, Err(refusal)),
                Script::Done(at, Ok(common)) => if at >= log.len() {
                    Script::Ask(
                        RequestView::ReadFile(
                            joined_path(path_in(root, common), "info/attributes"@),
                        ),
                    )
                } else if names_filter(log[at as int]) {
                    Script::Done(
                        at + 1,
                        Err(
                            (
                                FailureKind::UnsupportedFilter,
                                "Git info/attributes contains a custom filter"@,
                            ),
                        ),
                    )
                } else {
                    Script::Done(at + 1, Ok(()))
                },
            },
        },
    }
}

/// Accepts a repository that would not have Git run other programs on its files.
pub fn reject_external_filters(root: &str, io: &mut Session) -> (r: Option<Result<(), Failure>>)
    requires
        old(io).wf(),
    ensures
        final(io).wf(),
        final(io).replies == old(io).replies,
        follows(
            without_filters(old(io).log(), old(io).at as nat, root@),
            *final(io),
            opt_refusal(r),
        ),
{
    match reject_settings(root, io)? {
        Err(failure) => return Some(Err(failure)),
        Ok(()) => {},
    }
    match scan_attributes(root, io)? {
        Err(failure) => return Some(Err(failure)),
        Ok(()) => {},
    }
    let common = match io.word(common_dir(root))? {
        Err(failure) => return Some(Err(failure)),
        Ok(path) => resolve_in(root, path.as_str()),
    };
    let path = join_path(common.as_str(), "info/attributes");
    let reply = io.next(Request::ReadFile(path))?;
    if reply_names_filter(reply) {
        return Some(
            Err(
                fail(
                    FailureKind::UnsupportedFilter,
                    "Git info/attributes contains a custom filter",
                ),
            ),
        );
    }
    Some(Ok(()))
}

// ---------------------------------------------------------------------------------------------
// The state directory
// ---------------------------------------------------------------------------------------------

/// Whether a line of a `.gitignore` ignores the state directory at the root.
pub open spec fn is_state_rule(line: Seq<char>) -> bool {
    let rule = trimmed(line);
    rule == ".nuillu"@ || rule == ".nuillu/"@ || rule == "/.nuillu"@ || rule == "/.nuillu/"@
}

/// Whether a `.gitignore` ignores the state directory at the root.
pub open spec fn has_state_rule(content: Seq<char>) -> bool {
    exists|i: int| 0 <= i < lines(content).len() && is_state_rule(#[trigger] lines(content)[i])
}

/// Accepts a repository whose `.gitignore` names the state directory.
pub open spec fn ignoring_state(log: Seq<Reply>, at: nat, root: Seq<char>) -> Script<
    Result<(), Refusal>,
> {
    let path = joined_path(root, ".gitignore"@);
    if at >= log.len() {
        Script::Ask(RequestView::ReadFile(path))
    } else {
        Script::Done(
            at + 1,
            match log[at as int] {
                Reply::Bytes(bytes) => match utf8_text(bytes@) {
                    None => Err((FailureKind::NotUtf8, "read required "@ + path)),
                    Some(content) => if has_state_rule(content) {
                        Ok(())
                    } else {
                        Err(
                            (
                                FailureKind::StateDirNotIgnored,
                                "repository .gitignore must contain a root .nuillu ignore rule"@,
                            ),
                        )
                    },
                },
                _ => Err(within("read required "@ + path, reply_refusal(log[at as int]))),
            },
        )
    }
}

/// Whether a `.gitignore` ignores the state directory at the root.
pub fn find_state_rule(content: &str) -> (r: bool)
    ensures
        r == has_state_rule(content@),
{
    let all = lines_of(content);
    let ghost views = lines(content@);
    let mut i: usize = 0;
    while i < all.len()
        invariant
            texts(all@) == views,
            views == lines(content@),
            i <= all@.len(),
            forall|k: int| 0 <= k < i ==> !is_state_rule(#[trigger] views[k]),
        decreases all@.len() - i,
    {
        assert(views.len() == all@.len() && views[i as int] == all@[i as int]@);
        let rule = trim(all[i].as_str());
        let rule = rule.as_str();
        if same_text(rule, ".nuillu") || same_text(rule, ".nuillu/") || same_text(rule, "/.nuillu")
            || same_text(rule, "/.nuillu/") {
            assert(is_state_rule(views[i as int]));
            return true;
        }
        i = i + 1;
    }
    assert(views.len() == all@.len());
    false
}

/// Accepts a repository whose `.gitignore` names the state directory.
pub fn validate_state_ignore(root: &str, io: &mut Session) -> (r: Option<Result<(), Failure>>)
    requires
        old(io).wf(),
    ensures
        final(io).wf(),
        final(io).replies == old(io).replies,
        follows(
            ignoring_state(old(io).log(), old(io).at as nat, root@),
            *final(io),
            opt_refusal(r),
        ),
{
    let path = join_path(root, ".gitignore");
    let reply = io.next(Request::ReadFile(copy(path.as_str())))?;
    match reply {
        Reply::Bytes(bytes) => match decode_text(bytes.as_slice()) {
            None => Some(Err(fail_about(FailureKind::NotUtf8, "read required ", path.as_str()))),
            Some(content) => {
                if find_state_rule(content.as_str()) {
                    Some(Ok(()))
                } else {
                    Some(
                        Err(
                            fail(
                                FailureKind::StateDirNotIgnored,
                                "repository .gitignore must contain a root .nuillu ignore rule",
                            ),
                        ),
                    )
                }
            },
        },
        _ => {
            let doing = concat("read required ", path.as_str());
            Some(Err(fail_within(doing.as_str(), reply_failure(reply))))
        },
    }
}

// ---------------------------------------------------------------------------------------------
// Sessions that were left behind
// ---------------------------------------------------------------------------------------------

/// The worktree of a session.
pub open spec fn worktree_path(state_dir: Seq<char>, id: Seq<char>) -> Seq<char> {
    joined_path(joined_path(state_dir, "worktrees"@), id)
}

/// The branch of a session.
pub open spec fn session_branch(id: Seq<char>) -> Seq<char> {
    "nuillu/session/"@ + id
}

/// The lock file of a session.
pub open spec fn lock_file(state_dir: Seq<char>, id: Seq<char>) -> Seq<char> {
    joined_path(joined_path(state_dir, "worktree-locks"@), id + ".lock"@)
}

/// Removes the worktree, the branch and the lock file of a session, whatever comes of each, and
/// goes on.
pub open spec fn removing_session<T>(
    log: Seq<Reply>,
    at: nat,
    root: Seq<char>,
    worktree: Seq<char>,
    branch: Seq<char>,
    lock: Seq<char>,
    value: T,
) -> Script<T> {
    if at >= log.len() {
        Script::Ask(RequestView::Git(remove_worktree_run(root, worktree)))
    } else if at + 1 >= log.len() {
        Script::Ask(RequestView::Git(delete_branch_run(root, branch)))
    } else if at + 2 >= log.len() {
        Script::Ask(RequestView::RemoveFile(lock))
    } else {
        Script::Done(at + 3, value)
    }
}

/// Removes the sessions from the `i`-th lock on that are old, that nobody holds and that have a
/// name.
pub open spec fn clearing_sessions(
    log: Seq<Reply>,
    at: nat,
    root: Seq<char>,
    state_dir: Seq<char>,
    locks: Seq<LockEntry>,
    i: int,
) -> Script<Result<(), Refusal>>
    decreases locks.len() - i,
{
    if i < 0 || i >= locks.len() {
        Script::Done(at, Ok(()))
    } else if locks[i].age_seconds < STALE_WORKTREE_SECONDS {
        clearing_sessions(log, at, root, state_dir, locks, i + 1)
    } else if at >= log.len() {
        Script::Ask(RequestView::TryLock(locks[i].path@))
    } else {
        match log[at as int] {
            Reply::Flag(free) => match locks[i].stem {
                Some(id) => if !free {
                    clearing_sessions(log, at + 1, root, state_dir, locks, i + 1)
                } else {
                    match removing_session(
                        log,
                        at + 1,
                        root,
                        worktree_path(state_dir, id@),
                        session_branch(id@),
                        locks[i].path@,
                        (),
                    ) {
                        Script::Ask(request) => Script::Ask(request),
                        Script::Done(at, _) => clearing_sessions(
                            log,
                            at,
                            root,
                            state_dir,
                            locks,
                            i + 1,
                        ),
                    }
                },
                None => clearing_sessions(log, at + 1, root, state_dir, locks, i + 1),
            },
            _ => Script::Done(at + 1, Err(reply_refusal(log[at as int]))),
        }
    }
}

/// Removes the sessions that were left behind.
pub open spec fn cleaning_up(
    log: Seq<Reply>,
    at: nat,
    root: Seq<char>,
    state_dir: Seq<char>,
) -> Script<Result<(), Refusal>> {
    match deed(log, at, RequestView::Lock) {
        Script::Ask(request) => Script::Ask(request),
        Script::Done(at, Err(refusal)) => Script::Done(at, Err(refusal)),
        Script::Done(at, Ok(_)) => if at >= log.len() {
            Script::Ask(RequestView::ListLocks(joined_path(state_dir, "worktree-locks"@)))
        } else {
            match log[at as int] {
                Reply::Locks(locks) => match clearing_sessions(
                    log,
                    at + 1,
                    root,
                    state_dir,
                    locks@,
                    0,
                ) {
                    Script::Ask(request) => Script::Ask(request),
                    Script::Done(at, Err(refusal)) => Script::Done(at, Err(refusal)),
                    Script::Done(at, Ok(_)) => if at >= log.len() {
                        Script::Ask(RequestView::Git(prune_worktrees_run(root)))
                    } else {
                        Script::Done(at + 1, Ok(()))
                    },
                },
                _ => Script::Done(
                    at + 1,
                    Err(within("list worktree locks"@, reply_refusal(log[at as int]))),
                ),
            }
        },
    }
}

/// Removes the worktree, the branch and the lock file of a session, whatever comes of each.
fn remove_session(root: &str, worktree: &str, branch: &str, lock: &str, io: &mut Session) -> (r:
    Option<()>)
    requires
        old(io).wf(),
    ensures
        final(io).wf(),
        final(io).replies == old(io).replies,
        follows(
            removing_session(
                old(io).log(),
                old(io).at as nat,
                root@,
                worktree@,
                branch@,
                lock@,
                (),
            ),
            *final(io),
            r,
        ),
{
    io.next(Request::Git(remove_worktree(root, worktree)))?;
    io.next(Request::Git(delete_branch(root, branch)))?;
    io.next(Request::RemoveFile(copy(lock)))?;
    Some(())
}

/// The worktree of a session.
fn worktree_of(state_dir: &str, id: &str) -> (r: String)
    ensures
        r@ == worktree_path(state_dir@, id@),
{
    let directory = join_path(state_dir, "worktrees");
    join_path(directory.as_str(), id)
}

/// Removes the sessions that were left behind.
pub fn cleanup_stale_worktrees(root: &str, state_dir: &str, io: &mut Session) -> (r: Option<
    Result<(), Failure>,
>)
    requires
        old(io).wf(),
    ensures
        final(io).wf(),
        final(io).replies == old(io).replies,
        follows(
            cleaning_up(old(io).log(), old(io).at as nat, root@, state_dir@),
            *final(io),
            opt_refusal(r),
        ),
{
    match io.deed(Request::Lock)? {
        Err(failure) => return Some(Err(failure)),
        Ok(()) => {},
    }
    let directory = join_path(state_dir, "worktree-locks");
    let reply = io.next(Request::ListLocks(directory))?;
    match reply {
        Reply::Locks(locks) => {
            match clear_sessions(root, state_dir, locks, io)? {
                Err(failure) => return Some(Err(failure)),
                Ok(()) => {},
            }
            io.next(Request::Git(prune_worktrees(root)))?;
            Some(Ok(()))
        },
        _ => Some(Err(fail_within("list worktree locks", reply_failure(reply)))),
    }
}

/// Removes the sessions that are old, that nobody holds and that have a name.
fn clear_sessions(root: &str, state_dir: &str, locks: &Vec<LockEntry>, io: &mut Session) -> (r:
    Option<Result<(), Failure>>)
    requires
        old(io).wf(),
    ensures
        final(io).wf(),
        final(io).replies == old(io).replies,
        follows(
            clearing_sessions(old(io).log(), old(io).at as nat, root@, state_dir@, locks@, 0),
            *final(io),
            opt_refusal(r),
        ),
{
    let ghost goal = clearing_sessions(
        old(io).log(),
        old(io).at as nat,
        root@,
        state_dir@,
        locks@,
        0,
    );
    let mut i: usize = 0;
    while i < locks.len()
        invariant
            io.wf(),
            io.replies == old(io).replies,
            i <= locks@.len(),
            goal == clearing_sessions(
                old(io).log(),
                old(io).at as nat,
                root@,
                state_dir@,
                locks@,
                0,
            ),
            goal == clearing_sessions(
                io.log(),
                io.at as nat,
                root@,
                state_dir@,
                locks@,
                i as int,
            ),
        decreases locks@.len() - i,
    {
        if locks[i].age_seconds >= STALE_WORKTREE_SECONDS {
            let reply = io.next(Request::TryLock(copy(locks[i].path.as_str())))?;
            match reply {
                Reply::Flag(free) => {
                    match &locks[i].stem {
                        Some(id) => {
                            if *free {
                                let worktree = worktree_of(state_dir, id.as_str());
                                let branch = concat("nuillu/session/", id.as_str());
                                remove_session(
                                    root,
                                    worktree.as_str(),
                                    branch.as_str(),
                                    locks[i].path.as_str(),
                                    io,
                                )?;
                            }
                        },
                        None => {},
                    }
                },
                _ => return Some(Err(reply_failure(reply))),
            }
        }
        i = i + 1;
    }
    Some(Ok(()))
}

// ---------------------------------------------------------------------------------------------
// Opening
// ---------------------------------------------------------------------------------------------

/// How many directories a path goes through on the way up to the root, itself counted.
pub open spec fn ancestor_count(path: Seq<char>) -> nat {
    if path == "/"@ {
        1
    } else {
        pieces(path, '/').len()
    }
}

/// The directory `up` levels above a path.
pub open spec fn directory_above(path: Seq<char>, up: int) -> Seq<char> {
    let kept = joined(pieces(path, '/').take(pieces(path, '/').len() - up), "/"@);
    if up == 0 {
        path
    } else if kept.len() == 0 {
        "/"@
    } else {
        kept
    }
}

/// Looks for the nearest directory, from `up` levels above a path on, that holds Git's data.
pub open spec fn finding_root(log: Seq<Reply>, at: nat, cwd: Seq<char>, up: int) -> Script<
    Result<Seq<char>, Refusal>,
>
    decreases ancestor_count(cwd) - up,
{
    if up < 0 || up >= ancestor_count(cwd) {
        Script::Done(
            at,
            Err(
                (
                    FailureKind::NotInRepository,
                    "cwd must be inside a non-bare Git worktree"@,
                ),
            ),
        )
    } else if at >= log.len() {
        Script::Ask(RequestView::Exists(joined_path(directory_above(cwd, up), ".git"@)))
    } else {
        match log[at as int] {
            Reply::Flag(found) => if found {
                Script::Done(at + 1, Ok(directory_above(cwd, up)))
            } else {
                finding_root(log, at + 1, cwd, up + 1)
            },
            _ => Script::Done(at + 1, Err(reply_refusal(log[at as int]))),
        }
    }
}

/// Asks for a path without links and dots.
pub open spec fn canonical(
    log: Seq<Reply>,
    at: nat,
    path: Seq<char>,
    doing: Seq<char>,
) -> Script<Result<Seq<char>, Refusal>> {
    if at >= log.len() {
        Script::Ask(RequestView::Canonicalize(path))
    } else {
        Script::Done(
            at + 1,
            match log[at as int] {
                Reply::Text(resolved) => Ok(resolved@),
                _ => Err(within(doing, reply_refusal(log[at as int]))),
            },
        )
    }
}

/// Finds the root of the repository that holds a directory, which must not hold the executable.
pub open spec fn locating(log: Seq<Reply>, at: nat, cwd: Seq<char>, executable: Seq<char>) -> Script<
    Result<Seq<char>, Refusal>,
> {
    match canonical(log, at, cwd, "resolve cwd "@ + cwd) {
        Script::Ask(request) => Script::Ask(request),
        Script::Done(at, Err(refusal)) => Script::Done(at, Err(refusal)),
        Script::Done(at, Ok(here)) => match finding_root(log, at, here, 0) {
            Script::Ask(request) => Script::Ask(request),
            Script::Done(at, Err(refusal)) => Script::Done(at, Err(refusal)),
            Script::Done(at, Ok(marked)) => match inside_refusal(marked, executable) {
                Some(refusal) => Script::Done(at, Err(refusal)),
                None => match word(log, at, top_level_run(here)) {
                    Script::Ask(request) => Script::Ask(request),
                    Script::Done(at, Err(refusal)) => Script::Done(at, Err(refusal)),
                    Script::Done(at, Ok(named)) => match canonical(
                        log,
                        at,
                        named,
                        "resolve repository root"@,
                    ) {
                        Script::Ask(request) => Script::Ask(request),
                        Script::Done(at, Err(refusal)) => Script::Done(at, Err(refusal)),
                        Script::Done(at, Ok(root)) => Script::Done(
                            at,
                            match inside_refusal(root, executable) {
                                Some(refusal) => Err(refusal),
                                None => Ok(root),
                            },
                        ),
                    },
                },
            },
        },
    }
}

/// Asks for the branch of a repository that has a worktree of its own.
pub open spec fn identifying(log: Seq<Reply>, at: nat, root: Seq<char>) -> Script<
    Result<Seq<char>, Refusal>,
> {
    match word(log, at, is_bare_run(root)) {
        Script::Ask(request) => Script::Ask(request),
        Script::Done(at, Err(refusal)) => Script::Done(at, Err(refusal)),
        Script::Done(at, Ok(bare)) => if bare != "false"@ {
            Script::Done(
                at,
                Err(
                    (
                        FailureKind::BareRepository,
                        "bare Git repositories are not supported"@,
                    ),
                ),
            )
        } else {
            match word(log, at, superproject_run(root)) {
                Script::Ask(request) => Script::Ask(request),
                Script::Done(at, Err(refusal)) => Script::Done(at, Err(refusal)),
                Script::Done(at, Ok(outer)) => if outer.len() > 0 {
                    Script::Done(
                        at,
                        Err(
                            (
                                FailureKind::Submodule,
                                "starting inside a Git submodule is not supported"@,
                            ),
                        ),
                    )
                } else {
                    match word(log, at, branch_name_run(root)) {
                        Script::Ask(request) => Script::Ask(request),
                        Script::Done(at, Err(refusal)) => Script::Done(
                            at,
                            Err(within("cwd must have a checked-out branch"@, refusal)),
                        ),
                        Script::Done(at, Ok(branch)) => Script::Done(at, Ok(branch)),
                    }
                },
            }
        },
    }
}

/// Accepts a repository that is settled, runs no other programs and ignores the state directory.
pub open spec fn admitting(log: Seq<Reply>, at: nat, root: Seq<char>) -> Script<
    Result<(), Refusal>,
> {
    match settled(log, at, root) {
        Script::Ask(request) => Script::Ask(request),
        Script::Done(at, Err(refusal)) => Script::Done(at, Err(refusal)),
        Script::Done(at, Ok(_)) => match without_filters(log, at, root) {
            Script::Ask(request) => Script::Ask(request),
            Script::Done(at, Err(refusal)) => Script::Done(at, Err(refusal)),
            Script::Done(at, Ok(_)) => ignoring_state(log, at, root),
        },
    }
}

/// Makes a directory.
pub open spec fn making_directory(
    log: Seq<Reply>,
    at: nat,
    path: Seq<char>,
    doing: Seq<char>,
) -> Script<Result<(), Refusal>> {
    match deed(log, at, RequestView::MakeDirectory(path)) {
        Script::Ask(request) => Script::Ask(request),
        Script::Done(at, Err(refusal)) => Script::Done(at, Err(within(doing, refusal))),
        Script::Done(at, Ok(_)) => Script::Done(at, Ok(())),
    }
}

/// Makes room for a new session and clears old ones away.
pub open spec fn making_room(
    log: Seq<Reply>,
    at: nat,
    root: Seq<char>,
    state_dir: Seq<char>,
) -> Script<Result<(), Refusal>> {
    match making_directory(
        log,
        at,
        joined_path(state_dir, "worktrees"@),
        "create worktree state directory"@,
    ) {
        Script::Ask(request) => Script::Ask(request),
        Script::Done(at, Err(refusal)) => Script::Done(at, Err(refusal)),
        Script::Done(at, Ok(_)) => match making_directory(
            log,
            at,
            joined_path(state_dir, "worktree-locks"@),
            "create worktree lock directory"@,
        ) {
            Script::Ask(request) => Script::Ask(request),
            Script::Done(at, Err(refusal)) => Script::Done(at, Err(refusal)),
            Script::Done(at, Ok(_)) => cleaning_up(log, at, root, state_dir),
        },
    }
}

/// A session on a snapshot: Read-only, with nothing in its queue, and shown once. The snapshot is
/// what there is to begin with, so nothing is said about it.
pub open spec fn new_session(
    root: Seq<char>,
    branch: Seq<char>,
    id: Seq<char>,
    baseline: Seq<char>,
) -> GitView {
    let state_dir = joined_path(root, ".nuillu"@);
    (GitView {
        repo_root: root,
        worktree: worktree_path(state_dir, id),
        state_dir,
        branch,
        session_branch: session_branch(id),
        lock_path: lock_file(state_dir, id),
        baseline,
        observed: baseline,
        mode: WorkspaceMode::ReadOnly,
        commits: Seq::empty(),
        aliases: Map::empty(),
        outbox: Seq::empty(),
        cleaned: false,
    }).shown()
}

/// Takes a snapshot of the parent and puts the new worktree onto it.
pub open spec fn populating(
    log: Seq<Reply>,
    at: nat,
    root: Seq<char>,
    state_dir: Seq<char>,
    worktree: Seq<char>,
) -> Script<Result<Seq<char>, Refusal>> {
    match word(log, at, head_run(root)) {
        Script::Ask(request) => Script::Ask(request),
        Script::Done(at, Err(refusal)) => Script::Done(at, Err(refusal)),
        Script::Done(at, Ok(parent)) => match snapshot(log, at, root, state_dir, parent) {
            Script::Ask(request) => Script::Ask(request),
            Script::Done(at, Err(refusal)) => Script::Done(at, Err(refusal)),
            Script::Done(at, Ok(baseline)) => match run(
                log,
                at,
                reset_hard_run(worktree, baseline),
            ) {
                Script::Ask(request) => Script::Ask(request),
                Script::Done(at, Err(refusal)) => Script::Done(at, Err(refusal)),
                Script::Done(at, Ok(_)) => Script::Done(at, Ok(baseline)),
            },
        },
    }
}

/// Makes the worktree of a new session. A worktree that cannot be filled is removed again.
pub open spec fn founding(log: Seq<Reply>, at: nat, root: Seq<char>, branch: Seq<char>) -> Script<
    Result<GitView, Refusal>,
> {
    let state_dir = joined_path(root, ".nuillu"@);
    match fresh_id(log, at) {
        Script::Ask(request) => Script::Ask(request),
        Script::Done(at, Err(refusal)) => Script::Done(at, Err(refusal)),
        Script::Done(at, Ok(id)) => {
            let worktree = worktree_path(state_dir, id);
            let lock = lock_file(state_dir, id);
            match deed(log, at, RequestView::TakeLock(lock)) {
                Script::Ask(request) => Script::Ask(request),
                Script::Done(at, Err(refusal)) => Script::Done(at, Err(refusal)),
                Script::Done(at, Ok(_)) => match run(
                    log,
                    at,
                    add_worktree_run(root, session_branch(id), worktree),
                ) {
                    Script::Ask(request) => Script::Ask(request),
                    Script::Done(at, Err(refusal)) => Script::Done(at, Err(refusal)),
                    Script::Done(at, Ok(_)) => match populating(
                        log,
                        at,
                        root,
                        state_dir,
                        worktree,
                    ) {
                        Script::Ask(request) => Script::Ask(request),
                        Script::Done(at, Err(refusal)) => removing_session(
                            log,
                            at,
                            root,
                            worktree,
                            session_branch(id),
                            lock,
                            Err(refusal),
                        ),
                        Script::Done(at, Ok(baseline)) => Script::Done(
                            at,
                            Ok(new_session(root, branch, id, baseline)),
                        ),
                    },
                },
            }
        },
    }
}

/// Opens a session on the repository that holds a directory.
pub open spec fn opening(log: Seq<Reply>, at: nat, cwd: Seq<char>, executable: Seq<char>) -> Script<
    Result<GitView, Refusal>,
> {
    match locating(log, at, cwd, executable) {
        Script::Ask(request) => Script::Ask(request),
        Script::Done(at, Err(refusal)) => Script::Done(at, Err(refusal)),
        Script::Done(at, Ok(root)) => match identifying(log, at, root) {
            Script::Ask(request) => Script::Ask(request),
            Script::Done(at, Err(refusal)) => Script::Done(at, Err(refusal)),
            Script::Done(at, Ok(branch)) => match admitting(log, at, root) {
                Script::Ask(request) => Script::Ask(request),
                Script::Done(at, Err(refusal)) => Script::Done(at, Err(refusal)),
                Script::Done(at, Ok(_)) => match making_room(
                    log,
                    at,
                    root,
                    joined_path(root, ".nuillu"@),
                ) {
                    Script::Ask(request) => Script::Ask(request),
                    Script::Done(at, Err(refusal)) => Script::Done(at, Err(refusal)),
                    Script::Done(at, Ok(_)) => founding(log, at, root, branch),
                },
            },
        },
    }
}

/// The directory `up` levels above a path.
fn ancestor_of(path: &str, up: usize) -> (r: String)
    requires
        up <= pieces(path@, '/').len(),
    ensures
        r@ == directory_above(path@, up as int),
{
    if up == 0 {
        return copy(path);
    }
    let parts = split(path, '/');
    let ghost segments = pieces(path@, '/');
    let mut names: Vec<String> = Vec::new();
    let count: usize = parts.len() - up;
    let mut i: usize = 0;
    while i < count
        invariant
            parts@.len() == segments.len(),
            count <= parts@.len(),
            forall|k: int| 0 <= k < parts@.len() ==> (#[trigger] parts@[k])@ == segments[k],
            i <= count,
            texts(names@) == segments.take(i as int),
        decreases count - i,
    {
        let name = string_of(parts[i].as_slice());
        proof {
            lemma_texts_push(names@, name);
            assert(segments.take(i + 1) =~= segments.take(i as int).push(segments[i as int]));
        }
        names.push(name);
        i = i + 1;
    }
    let kept = join(&names, "/");
    if kept.as_str().is_empty() {
        copy("/")
    } else {
        kept
    }
}

/// Looks for the nearest directory that holds Git's data.
fn find_root(cwd: &str, io: &mut Session) -> (r: Option<Result<String, Failure>>)
    requires
        old(io).wf(),
    ensures
        final(io).wf(),
        final(io).replies == old(io).replies,
        follows(
            finding_root(old(io).log(), old(io).at as nat, cwd@, 0),
            *final(io),
            opt_outcome(r),
        ),
{
    let parts = split(cwd, '/');
    let count: usize = if same_text(cwd, "/") {
        1
    } else {
        parts.len()
    };
    let ghost goal = finding_root(old(io).log(), old(io).at as nat, cwd@, 0);
    proof {
        crate::scan::lemma_pieces_nonempty(cwd@, '/');
    }
    let mut up: usize = 0;
    while up < count
        invariant
            io.wf(),
            io.replies == old(io).replies,
            count == ancestor_count(cwd@),
            count <= pieces(cwd@, '/').len(),
            up <= count,
            goal == finding_root(old(io).log(), old(io).at as nat, cwd@, 0),
            goal == finding_root(io.log(), io.at as nat, cwd@, up as int),
        decreases count - up,
    {
        let directory = ancestor_of(cwd, up);
        let path = join_path(directory.as_str(), ".git");
        let reply = io.next(Request::Exists(path))?;
        match reply {
            Reply::Flag(found) => {
                if *found {
                    return Some(Ok(directory));
                }
            },
            _ => return Some(Err(reply_failure(reply))),
        }
        up = up + 1;
    }
    Some(
        Err(
            fail(
                FailureKind::NotInRepository,
                "cwd must be inside a non-bare Git worktree",
            ),
        ),
    )
}

/// Asks for a path without links and dots.
fn canonicalize(path: &str, doing: &str, io: &mut Session) -> (r: Option<Result<String, Failure>>)
    requires
        old(io).wf(),
    ensures
        final(io).wf(),
        final(io).replies == old(io).replies,
        follows(
            canonical(old(io).log(), old(io).at as nat, path@, doing@),
            *final(io),
            opt_outcome(r),
        ),
{
    let reply = io.next(Request::Canonicalize(copy(path)))?;
    match reply {
        Reply::Text(resolved) => Some(Ok(copy(resolved.as_str()))),
        _ => Some(Err(fail_within(doing, reply_failure(reply)))),
    }
}

/// Finds the root of the repository that holds a directory, which must not hold the executable.
fn locate(cwd: &str, git: &GitExecutable, io: &mut Session) -> (r: Option<Result<String, Failure>>)
    requires
        old(io).wf(),
    ensures
        final(io).wf(),
        final(io).replies == old(io).replies,
        follows(
            locating(old(io).log(), old(io).at as nat, cwd@, git.identity@.0),
            *final(io),
            opt_outcome(r),
        ),
{
    let doing = concat("resolve cwd ", cwd);
    let here = match canonicalize(cwd, doing.as_str(), io)? {
        Err(failure) => return Some(Err(failure)),
        Ok(here) => here,
    };
    let marked = match find_root(here.as_str(), io)? {
        Err(failure) => return Some(Err(failure)),
        Ok(marked) => marked,
    };
    match git.reject_inside(marked.as_str()) {
        Err(failure) => return Some(Err(failure)),
        Ok(()) => {},
    }
    let named = match io.word(top_level(here.as_str()))? {
        Err(failure) => return Some(Err(failure)),
        Ok(named) => named,
    };
    let root = match canonicalize(named.as_str(), "resolve repository root", io)? {
        Err(failure) => return Some(Err(failure)),
        Ok(root) => root,
    };
    match git.reject_inside(root.as_str()) {
        Err(failure) => Some(Err(failure)),
        Ok(()) => Some(Ok(root)),
    }
}

/// Asks for the branch of a repository that has a worktree of its own.
fn identify(root: &str, io: &mut Session) -> (r: Option<Result<String, Failure>>)
    requires
        old(io).wf(),
    ensures
        final(io).wf(),
        final(io).replies == old(io).replies,
        follows(
            identifying(old(io).log(), old(io).at as nat, root@),
            *final(io),
            opt_outcome(r),
        ),
{
    match io.word(is_bare(root))? {
        Err(failure) => return Some(Err(failure)),
        Ok(bare) => {
            if !same_text(bare.as_str(), "false") {
                return Some(
                    Err(
                        fail(
                            FailureKind::BareRepository,
                            "bare Git repositories are not supported",
                        ),
                    ),
                );
            }
        },
    }
    match io.word(superproject(root))? {
        Err(failure) => return Some(Err(failure)),
        Ok(outer) => {
            if !outer.as_str().is_empty() {
                return Some(
                    Err(
                        fail(
                            FailureKind::Submodule,
                            "starting inside a Git submodule is not supported",
                        ),
                    ),
                );
            }
        },
    }
    match io.word(branch_name(root))? {
        Err(failure) => Some(Err(fail_within("cwd must have a checked-out branch", failure))),
        Ok(branch) => Some(Ok(branch)),
    }
}

/// Accepts a repository that is settled, runs no other programs and ignores the state directory.
fn admit_repository(root: &str, io: &mut Session) -> (r: Option<Result<(), Failure>>)
    requires
        old(io).wf(),
    ensures
        final(io).wf(),
        final(io).replies == old(io).replies,
        follows(
            admitting(old(io).log(), old(io).at as nat, root@),
            *final(io),
            opt_refusal(r),
        ),
{
    match validate_repository_state(root, io)? {
        Err(failure) => return Some(Err(failure)),
        Ok(()) => {},
    }
    match reject_external_filters(root, io)? {
        Err(failure) => return Some(Err(failure)),
        Ok(()) => {},
    }
    validate_state_ignore(root, io)
}

/// Makes a directory.
fn make_directory(path: String, doing: &str, io: &mut Session) -> (r: Option<Result<(), Failure>>)
    requires
        old(io).wf(),
    ensures
        final(io).wf(),
        final(io).replies == old(io).replies,
        follows(
            making_directory(old(io).log(), old(io).at as nat, path@, doing@),
            *final(io),
            opt_refusal(r),
        ),
{
    match io.deed(Request::MakeDirectory(path))? {
        Err(failure) => Some(Err(fail_within(doing, failure))),
        Ok(()) => Some(Ok(())),
    }
}

/// Makes room for a new session and clears old ones away.
fn make_room(root: &str, state_dir: &str, io: &mut Session) -> (r: Option<Result<(), Failure>>)
    requires
        old(io).wf(),
    ensures
        final(io).wf(),
        final(io).replies == old(io).replies,
        follows(
            making_room(old(io).log(), old(io).at as nat, root@, state_dir@),
            *final(io),
            opt_refusal(r),
        ),
{
    let worktrees = join_path(state_dir, "worktrees");
    match make_directory(worktrees, "create worktree state directory", io)? {
        Err(failure) => return Some(Err(failure)),
        Ok(()) => {},
    }
    let locks = join_path(state_dir, "worktree-locks");
    match make_directory(locks, "create worktree lock directory", io)? {
        Err(failure) => return Some(Err(failure)),
        Ok(()) => {},
    }
    cleanup_stale_worktrees(root, state_dir, io)
}

/// Takes a snapshot of the parent and puts the new worktree onto it.
fn populate(root: &str, state_dir: &str, worktree: &str, io: &mut Session) -> (r: Option<
    Result<String, Failure>,
>)
    requires
        old(io).wf(),
    ensures
        final(io).wf(),
        final(io).replies == old(io).replies,
        follows(
            populating(old(io).log(), old(io).at as nat, root@, state_dir@, worktree@),
            *final(io),
            opt_outcome(r),
        ),
{
    let parent = match io.word(head(root))? {
        Err(failure) => return Some(Err(failure)),
        Ok(parent) => parent,
    };
    let baseline = match snapshot_parent(root, state_dir, parent.as_str(), io)? {
        Err(failure) => return Some(Err(failure)),
        Ok(baseline) => baseline,
    };
    match io.run(reset_hard(worktree, baseline.as_str()))? {
        Err(failure) => Some(Err(failure)),
        Ok(()) => Some(Ok(baseline)),
    }
}

/// Makes the worktree of a new session. A worktree that cannot be filled is removed again.
fn found(root: &str, branch: &str, io: &mut Session) -> (r: Option<Result<GitWorkspace, Failure>>)
    requires
        old(io).wf(),
    ensures
        final(io).wf(),
        final(io).replies == old(io).replies,
        follows(
            founding(old(io).log(), old(io).at as nat, root@, branch@),
            *final(io),
            opt_outcome(r),
        ),
{
    let state_dir = join_path(root, ".nuillu");
    let id = match ask_fresh_id(io)? {
        Err(failure) => return Some(Err(failure)),
        Ok(id) => id,
    };
    let worktree = worktree_of(state_dir.as_str(), id.as_str());
    let session = concat("nuillu/session/", id.as_str());
    let locks = join_path(state_dir.as_str(), "worktree-locks");
    let name = concat(id.as_str(), ".lock");
    let lock = join_path(locks.as_str(), name.as_str());
    match io.deed(Request::TakeLock(copy(lock.as_str())))? {
        Err(failure) => return Some(Err(failure)),
        Ok(()) => {},
    }
    match io.run(add_worktree(root, session.as_str(), worktree.as_str()))? {
        Err(failure) => return Some(Err(failure)),
        Ok(()) => {},
    }
    let baseline = match populate(root, state_dir.as_str(), worktree.as_str(), io)? {
        Err(failure) => {
            remove_session(root, worktree.as_str(), session.as_str(), lock.as_str(), io)?;
            return Some(Err(failure));
        },
        Ok(baseline) => baseline,
    };
    let mut state = GitWorkspace {
        repo_root: copy(root),
        worktree,
        state_dir,
        branch: copy(branch),
        session_branch: session,
        lock_path: lock,
        baseline: copy(baseline.as_str()),
        observed: baseline,
        mode: WorkspaceMode::ReadOnly,
        commits: Vec::new(),
        aliases: Vec::new(),
        outbox: Vec::new(),
        cleaned: false,
    };
    proof {
        assert(state@.commits =~= Seq::empty());
        assert(state@.outbox =~= Seq::empty());
    }
    state.emit_state();
    Some(Ok(state))
}

impl GitWorkspace {
    /// Opens a session on the repository that holds a directory.
    pub fn open(cwd: &str, git: &GitExecutable, io: &mut Session) -> (r: Option<
        Result<GitWorkspace, Failure>,
    >)
        requires
            old(io).wf(),
        ensures
            final(io).wf(),
            final(io).replies == old(io).replies,
            follows(
                opening(old(io).log(), old(io).at as nat, cwd@, git.identity@.0),
                *final(io),
                opt_outcome(r),
            ),
    {
        let root = match locate(cwd, git, io)? {
            Err(failure) => return Some(Err(failure)),
            Ok(root) => root,
        };
        let branch = match identify(root.as_str(), io)? {
            Err(failure) => return Some(Err(failure)),
            Ok(branch) => branch,
        };
        match admit_repository(root.as_str(), io)? {
            Err(failure) => return Some(Err(failure)),
            Ok(()) => {},
        }
        let state_dir = join_path(root.as_str(), ".nuillu");
        match make_room(root.as_str(), state_dir.as_str(), io)? {
            Err(failure) => return Some(Err(failure)),
            Ok(()) => {},
        }
        found(root.as_str(), branch.as_str(), io)
    }

    /// Removes what the session made. A second time there is nothing left to do.
    pub fn cleanup(&mut self, io: &mut Session) -> (r: Option<()>)
        requires
            old(io).wf(),
        ensures
            final(io).wf(),
            final(io).replies == old(io).replies,
            follows(
                ending(old(io).log(), old(io).at as nat, old(self)@),
                *final(io),
                stateful(final(self)@, r),
            ),
    {
        if self.cleaned {
            return Some(());
        }
        self.cleaned = true;
        remove_session(
            self.repo_root.as_str(),
            self.worktree.as_str(),
            self.session_branch.as_str(),
            self.lock_path.as_str(),
            io,
        )
    }
}

/// Removes what a session made, unless that was done before.
pub open spec fn ending(log: Seq<Reply>, at: nat, state: GitView) -> Script<(GitView, ())> {
    if state.cleaned {
        Script::Done(at, (state, ()))
    } else {
        removing_session(
            log,
            at,
            state.repo_root,
            state.worktree,
            state.session_branch,
            state.lock_path,
            (GitView { cleaned: true, ..state }, ()),
        )
    }
}

} // verus!
