//! What a session makes sure of by looking: at the repository, at the parent and at files in conflict.
use vstd::prelude::*;
use vstd::utf8::encode_utf8;

use crate::conflict::{capturing, is_marker_line, reading_conflict, reading_conflicts};
use crate::effects::{asks, below, git, is_replay, lemma_replay, lemma_run_text, lemma_word,
    stays_put, wrote, wrote_word};
use crate::encoding::{texts_read_back, utf8_text};
use crate::failure::Refusal;
use crate::git::UiView;
use crate::repository::{admitting, clearing_sessions, ending, founding, holds_attributes,
    identifying, ignoring_state, inner_directories, is_attributes_file, is_state_rule, locating,
    making_room, names_filter, opening, scanning, shows_setting, without_filters, without_settings};
use crate::review::{difference, no_marker, observation, replay, settled, synchronization, GitView};
use crate::scan::{consists_of, holds_text, is_around, is_white, lines, lines_are_the_whole_text,
    stands_at, trimmed, trimming_takes_white_space_off, words_are_unique};
use crate::script::{run_text, text, ConflictFileView, ConflictView, DirectoryEntry, LockEntry,
    Reply, RequestView, Script};

verus! {

// ---------------------------------------------------------------------------------------------
// Filters
// ---------------------------------------------------------------------------------------------

/// Whether a text stands somewhere in a line.
pub open spec fn is_part(part: Seq<char>, line: Seq<char>) -> bool {
    exists|before: Seq<char>, behind: Seq<char>| line == #[trigger] (before + part + behind)
}

proof fn lemma_part(part: Seq<char>, line: Seq<char>)
    ensures
        holds_text(line, part) <==> is_part(part, line),
{
    if holds_text(line, part) {
        let at = choose|at: int| stands_at(line, part, at);
        let before = line.take(at);
        let behind = line.skip(at + part.len());
        assert(line =~= before + part + behind);
    }
    if is_part(part, line) {
        let (before, behind) = choose|before: Seq<char>, behind: Seq<char>| line
            == #[trigger] (before + part + behind);
        let at = before.len() as int;
        assert(line.subrange(at, at + part.len()) =~= part);
        assert(stands_at(line, part, at));
    }
}

/// Whether a reply gives no attributes file that names a filter: it gives no text, or one no line of which
/// holds the word.
pub open spec fn is_harmless(reply: Reply) -> bool {
    reply matches Reply::Bytes(bytes) ==> {
        ||| forall|content: Seq<char>| bytes@ != #[trigger] encode_utf8(content)
        ||| exists|content: Seq<char>, all: Seq<Seq<char>>, ends: Seq<Seq<char>>|
            bytes@ == encode_utf8(content) && #[trigger] consists_of(content, all, ends) && forall|i: int|
                0 <= i < all.len() ==> !is_part("filter="@, #[trigger] all[i])
    }
}

proof fn lemma_harmless(reply: Reply)
    ensures
        !names_filter(reply) ==> is_harmless(reply),
{
    if !names_filter(reply) {
        if let Reply::Bytes(bytes) = reply {
            texts_read_back(bytes@);
            if let Some(content) = utf8_text(bytes@) {
                assert(bytes@ == encode_utf8(content));
                lines_are_the_whole_text(content);
                let all = lines(content);
                let ends = choose|ends: Seq<Seq<char>>| #[trigger] consists_of(content, all, ends);
                assert forall|i: int| 0 <= i < all.len() implies !is_part(
                    "filter="@,
                    #[trigger] all[i],
                ) by {
                    lemma_part("filter="@, all[i]);
                }
                assert(consists_of(content, all, ends));
            }
        }
    }
}

/// Whether a directory was looked into after `p` replies: its entries are known, each directory among them,
/// but for Git's own and the agent's state, is in the list of directories, and an attributes file among them
/// was read and is harmless.
pub open spec fn is_searched<T>(
    work: spec_fn(Seq<Reply>) -> Script<T>,
    log: Seq<Reply>,
    p: int,
    directory: Seq<char>,
    directories: Seq<Seq<char>>,
) -> bool {
    &&& asks(work, log, p, RequestView::ListDirectory(directory))
    &&& log[p] matches Reply::Entries(entries) && {
        &&& forall|i: int|
            0 <= i < entries@.len() && (#[trigger] entries@[i]).is_directory && entries@[i].name@
                != ".git"@ && entries@[i].name@ != ".nuillu"@ ==> directories.contains(
                below(directory, entries@[i].name@),
            )
        &&& (exists|i: int|
            0 <= i < entries@.len() && !(#[trigger] entries@[i]).is_directory && entries@[i].name@
                == ".gitattributes"@) ==> {
            &&& asks(work, log, p + 1, RequestView::ReadFile(below(directory, ".gitattributes"@)))
            &&& is_harmless(log[p + 1])
        }
    }
}

/// Whether all the directories were looked into, after these many replies each.
pub open spec fn are_searched<T>(
    work: spec_fn(Seq<Reply>) -> Script<T>,
    log: Seq<Reply>,
    places: Seq<int>,
    directories: Seq<Seq<char>>,
) -> bool {
    &&& places.len() == directories.len()
    &&& forall|k: int|
        0 <= k < places.len() ==> is_searched(
            work,
            log,
            #[trigger] places[k],
            directories[k],
            directories,
        )
}

proof fn lemma_inner(directory: Seq<char>, entries: Seq<DirectoryEntry>)
    ensures
        forall|i: int|
            0 <= i < entries.len() && (#[trigger] entries[i]).is_directory && entries[i].name@ != ".git"@
                && entries[i].name@ != ".nuillu"@ ==> inner_directories(directory, entries).contains(
                below(directory, entries[i].name@),
            ),
    decreases entries.len(),
{
    if entries.len() > 0 {
        lemma_inner(directory, entries.drop_last());
        let before = inner_directories(directory, entries.drop_last());
        let all = inner_directories(directory, entries);
        assert forall|i: int|
            0 <= i < entries.len() && (#[trigger] entries[i]).is_directory && entries[i].name@ != ".git"@
                && entries[i].name@ != ".nuillu"@ implies all.contains(
            below(directory, entries[i].name@),
        ) by {
            if i < entries.len() - 1 {
                assert(entries.drop_last()[i] == entries[i]);
                let k = before.index_of(below(directory, entries[i].name@));
                assert(all[k] == before[k]);
            } else {
                assert(all[all.len() - 1] == below(directory, entries[i].name@));
            }
        }
    }
}

proof fn lemma_scanned(log: Seq<Reply>, at: nat, stack: Seq<Seq<char>>) -> (found: (
    Seq<int>,
    Seq<Seq<char>>,
))
    ensures
        scanning(log, at, stack) matches Script::Done(end, Ok(_)) ==> {
            &&& are_searched(|l: Seq<Reply>| scanning(l, at, stack), log, found.0, found.1)
            &&& forall|d: Seq<char>| #[trigger] stack.contains(d) ==> found.1.contains(d)
            &&& at <= end
            &&& forall|k: int| 0 <= k < found.0.len() ==> at <= #[trigger] found.0[k]
            &&& stack.len() > 0 ==> end <= log.len()
        },
    decreases log.len() - at,
{
    let work = |l: Seq<Reply>| scanning(l, at, stack);
    if stack.len() == 0 || at >= log.len() {
        (Seq::empty(), Seq::empty())
    } else {
        let directory = stack.last();
        match log[at as int] {
            Reply::Entries(entries) => {
                let rest = stack.drop_last() + inner_directories(directory, entries@);
                let held = holds_attributes(entries@);
                let b: nat = if held { at + 2 } else { at + 1 };
                let (places, directories) = if b <= log.len() {
                    lemma_scanned(log, b, rest)
                } else {
                    (Seq::empty(), Seq::empty())
                };
                let all_places = places.push(at as int);
                let all = directories.push(directory);
                if let Script::Done(end, Ok(_)) = scanning(log, at, stack) {
                    let later = |l: Seq<Reply>| scanning(l, b, rest);
                    lemma_inner(directory, entries@);
                    if held {
                        lemma_harmless(log[(at + 1) as int]);
                        assert(log.take((at + 1) as int)[at as int] == log[at as int]);
                    }
                    assert forall|m: int| b <= m <= log.len() implies #[trigger] work(log.take(m))
                        == later(log.take(m)) by {
                        assert(log.take(m)[at as int] == log[at as int]);
                        if held {
                            assert(log.take(m)[(at + 1) as int] == log[(at + 1) as int]);
                        }
                    }
                    assert forall|d: Seq<char>| #[trigger] directories.contains(d) implies all.contains(
                        d,
                    ) by {
                        let k = directories.index_of(d);
                        assert(all[k] == d);
                    }
                    assert forall|d: Seq<char>| #[trigger]
                        inner_directories(directory, entries@).contains(d) implies all.contains(d) by {
                        let k = inner_directories(directory, entries@).index_of(d);
                        assert(rest[stack.len() - 1 + k] == d);
                        assert(rest.contains(d));
                    }
                    assert forall|d: Seq<char>| #[trigger] stack.contains(d) implies all.contains(d) by {
                        let k = stack.index_of(d);
                        if k < stack.len() - 1 {
                            assert(rest[k] == d);
                            assert(rest.contains(d));
                        } else {
                            assert(all[all.len() - 1] == d);
                        }
                    }
                    assert(is_searched(work, log, at as int, directory, all)) by {
                        if exists|i: int|
                            0 <= i < entries@.len() && !(#[trigger] entries@[i]).is_directory
                                && entries@[i].name@ == ".gitattributes"@ {
                            let i = choose|i: int|
                                0 <= i < entries@.len() && !(#[trigger] entries@[i]).is_directory
                                    && entries@[i].name@ == ".gitattributes"@;
                            assert(is_attributes_file(entries@[i]));
                        }
                    }
                    assert forall|k: int| 0 <= k < all_places.len() implies is_searched(
                        work,
                        log,
                        #[trigger] all_places[k],
                        all[k],
                        all,
                    ) by {
                        if k < places.len() {
                            let p = places[k];
                            assert(is_searched(later, log, p, directories[k], directories));
                            lemma_searched_on(work, later, log, p, b as int, directories[k], directories, all);
                        }
                    }
                }
                (all_places, all)
            },
            _ => (Seq::empty(), Seq::empty()),
        }
    }
}

proof fn lemma_searched_on<T>(
    work: spec_fn(Seq<Reply>) -> Script<T>,
    later: spec_fn(Seq<Reply>) -> Script<T>,
    log: Seq<Reply>,
    p: int,
    from: int,
    directory: Seq<char>,
    fewer: Seq<Seq<char>>,
    all: Seq<Seq<char>>,
)
    requires
        from <= p,
        forall|m: int| from <= m <= log.len() ==> #[trigger] work(log.take(m)) == later(log.take(m)),
        is_searched(later, log, p, directory, fewer),
        forall|d: Seq<char>| #[trigger] fewer.contains(d) ==> all.contains(d),
    ensures
        is_searched(work, log, p, directory, all),
{
    assert(work(log.take(p)) == later(log.take(p)));
    if p + 1 <= log.len() {
        assert(work(log.take(p + 1)) == later(log.take(p + 1)));
    }
}

/// Whether some directories and all below them were looked into.
pub open spec fn is_searched_through<T>(
    work: spec_fn(Seq<Reply>) -> Script<T>,
    log: Seq<Reply>,
    stack: Seq<Seq<char>>,
) -> bool {
    exists|places: Seq<int>, directories: Seq<Seq<char>>|
        #[trigger] are_searched(work, log, places, directories) && forall|d: Seq<char>| #[trigger]
            stack.contains(d) ==> directories.contains(d)
}

/// A search for filters that ends well has looked into every directory of the repository, from the given ones
/// down, and into each attributes file in them, and found no filter.
pub proof fn every_attributes_file_is_read(log: Seq<Reply>, at: nat, stack: Seq<Seq<char>>)
    requires
        scanning(log, at, stack) matches Script::Done(_, Ok(_)),
    ensures
        is_searched_through(|l: Seq<Reply>| scanning(l, at, stack), log, stack),
{
    let (places, directories) = lemma_scanned(log, at, stack);
    let work = |l: Seq<Reply>| scanning(l, at, stack);
    assert(are_searched(work, log, places, directories));
}

/// Whether a reply shows no value of a setting: there is none, or nothing but white space.
pub open spec fn shows_nothing(reply: Reply) -> bool {
    forall|value: Seq<char>, i: int| #![trigger wrote(reply, value), value[i]]
        wrote(reply, value) && 0 <= i < value.len() ==> is_white(value[i])
}

proof fn lemma_shows_nothing(reply: Reply)
    requires
        !shows_setting(run_text(reply)),
    ensures
        shows_nothing(reply),
{
    lemma_run_text(reply);
    assert forall|value: Seq<char>, i: int| #![trigger wrote(reply, value), value[i]]
        wrote(reply, value) && 0 <= i < value.len() implies is_white(value[i]) by {
        trimming_takes_white_space_off(value);
        let word = trimmed(value);
        let (lead, tail) = choose|lead: Seq<char>, tail: Seq<char>|
            {
                &&& value == #[trigger] (lead + word + tail)
                &&& forall|i: int| 0 <= i < lead.len() ==> is_white(#[trigger] lead[i])
                &&& forall|i: int| 0 <= i < tail.len() ==> is_white(#[trigger] tail[i])
            };
        if i < lead.len() {
            assert(is_white(lead[i]));
        } else {
            assert(is_white(tail[i - lead.len()]));
        }
    }
}

/// A repository is accepted only where none of the four kinds of settings that would have Git run other
/// programs shows a value.
pub proof fn no_setting_runs_other_programs(log: Seq<Reply>, at: nat, root: Seq<char>)
    requires
        without_settings(log, at, root) matches Script::Done(_, Ok(_)),
    ensures
        at + 4 <= log.len(),
        shows_nothing(log[at as int]) && shows_nothing(log[(at + 1) as int]) && shows_nothing(log[(at + 2) as int])
            && shows_nothing(log[(at + 3) as int]),
        ({
            let work = |l: Seq<Reply>| without_settings(l, at, root);
            &&& asks(
                work,
                log,
                at as int,
                git(root, seq!["config"@, "--local"@, "--get"@, "diff.external"@]),
            )
            &&& asks(
                work,
                log,
                (at + 1) as int,
                git(root, seq!["config"@, "--local"@, "--get-regexp"@, "^diff\\..*\\.textconv$"@]),
            )
            &&& asks(
                work,
                log,
                (at + 2) as int,
                git(root, seq!["config"@, "--local"@, "--get-regexp"@, "^filter\\."@]),
            )
            &&& asks(
                work,
                log,
                (at + 3) as int,
                git(root, seq!["config"@, "--local"@, "--get"@, "core.attributesfile"@]),
            )
        }),
{
    assert(at + 3 < log.len());
    lemma_shows_nothing(log[at as int]);
    lemma_shows_nothing(log[(at + 1) as int]);
    lemma_shows_nothing(log[(at + 2) as int]);
    lemma_shows_nothing(log[(at + 3) as int]);
    let l1 = log.take((at + 1) as int);
    let l2 = log.take((at + 2) as int);
    let l3 = log.take((at + 3) as int);
    assert(l1[at as int] == log[at as int]);
    assert(l2[at as int] == log[at as int] && l2[(at + 1) as int] == log[(at + 1) as int]);
    assert(l3[at as int] == log[at as int] && l3[(at + 1) as int] == log[(at + 1) as int]);
    assert(l3[(at + 2) as int] == log[(at + 2) as int]);
}

/// A repository is admitted only where no operation is in progress and nothing is unmerged, no setting and no
/// attributes file would have Git run other programs, and the state directory is ignored; and a session is
/// opened only on a repository that is admitted.
pub proof fn sessions_open_on_admitted_repositories(
    log: Seq<Reply>,
    at: nat,
    cwd: Seq<char>,
    executable: Seq<char>,
)
    requires
        opening(log, at, cwd, executable) matches Script::Done(_, Ok(_)),
    ensures
        exists|root: Seq<char>, branch: Seq<char>, a: nat, b: nat|
            #[trigger] is_opened_on(log, at, cwd, executable, root, branch, a, b),
{
    let (a, root) = (
        locating(log, at, cwd, executable)->Done_0,
        locating(log, at, cwd, executable)->Done_1->Ok_0,
    );
    let (b, branch) = (identifying(log, a, root)->Done_0, identifying(log, a, root)->Done_1->Ok_0);
    let c = admitting(log, b, root)->Done_0;
    let d = making_room(log, c, root, crate::paths::joined_path(root, ".nuillu"@))->Done_0;
    lemma_admitted(log, b, root);
    lemma_founded(log, d, root, branch);
    assert(is_opened_on(log, at, cwd, executable, root, branch, a, b));
}

proof fn lemma_admitted(log: Seq<Reply>, at: nat, root: Seq<char>)
    ensures
        admitting(log, at, root) matches Script::Done(_, Ok(_)) ==> is_admitted(log, at, root),
{
    if let Script::Done(_, Ok(_)) = admitting(log, at, root) {
        let a = settled(log, at, root)->Done_0;
        lemma_unfiltered(log, a, root);
    }
}

proof fn lemma_unfiltered(log: Seq<Reply>, at: nat, root: Seq<char>)
    ensures
        without_filters(log, at, root) matches Script::Done(end, Ok(_)) ==> (without_settings(
            log,
            at,
            root,
        ) matches Script::Done(b, Ok(_)) && (scanning(log, b, seq![root]) matches Script::Done(c, Ok(_))
            && {
            &&& c + 1 < log.len()
            &&& end == c + 2
            &&& crate::effects::wrote_text(log[c as int])
            &&& is_harmless(log[(c + 1) as int])
        })),
{
    if let Script::Done(end, Ok(_)) = without_filters(log, at, root) {
        let b = without_settings(log, at, root)->Done_0;
        let c = scanning(log, b, seq![root])->Done_0;
        lemma_run_text(log[c as int]);
        lemma_harmless(log[(c + 1) as int]);
        let told = run_text(log[c as int])->Ok_0;
        assert(wrote(log[c as int], told));
    }
}

proof fn lemma_founded(log: Seq<Reply>, at: nat, root: Seq<char>, branch: Seq<char>)
    ensures
        founding(log, at, root, branch) matches Script::Done(_, Ok(session)) ==> session.branch == branch
            && session.repo_root == root,
{
}

/// Whether a session is opened on the branch of the repository that was found, once it is admitted.
pub open spec fn is_opened_on(
    log: Seq<Reply>,
    at: nat,
    cwd: Seq<char>,
    executable: Seq<char>,
    root: Seq<char>,
    branch: Seq<char>,
    a: nat,
    b: nat,
) -> bool {
    &&& locating(log, at, cwd, executable) == Script::<Result<Seq<char>, Refusal>>::Done(a, Ok(root))
    &&& identifying(log, a, root) == Script::<Result<Seq<char>, Refusal>>::Done(b, Ok(branch))
    &&& is_admitted(log, b, root)
    &&& opening(log, at, cwd, executable) matches Script::Done(_, Ok(session)) && {
        &&& session.branch == branch
        &&& session.repo_root == root
    }
}

/// Whether the looks at a repository, from the reply at `at` on, show that it may be used.
pub open spec fn is_admitted(log: Seq<Reply>, at: nat, root: Seq<char>) -> bool {
    settled(log, at, root) matches Script::Done(a, Ok(_)) && (without_settings(log, a, root) matches Script::Done(
        b,
        Ok(_),
    ) && (scanning(log, b, seq![root]) matches Script::Done(c, Ok(_)) && {
        &&& c + 1 < log.len()
        &&& crate::effects::wrote_text(log[c as int])
        &&& is_harmless(log[(c + 1) as int])
        &&& ignoring_state(log, c + 2, root) matches Script::Done(_, Ok(_))
    }))
}

/// A directory of Git's shows no operation in progress only if none of six names is in it.
pub proof fn no_operation_is_in_progress(log: Seq<Reply>, at: nat, directory: Seq<char>)
    requires
        no_marker(log, at, directory, 0) matches Script::Done(_, Ok(_)),
    ensures
        ({
            let work = |l: Seq<Reply>| no_marker(l, at, directory, 0);
            let names = seq![
                "MERGE_HEAD"@,
                "CHERRY_PICK_HEAD"@,
                "REVERT_HEAD"@,
                "REBASE_HEAD"@,
                "rebase-merge"@,
                "rebase-apply"@,
            ];
            forall|k: int|
                0 <= k < 6 ==> asks(
                    work,
                    log,
                    at + k,
                    RequestView::Exists(below(directory, #[trigger] names[k])),
                ) && (log[at + k] matches Reply::Flag(found) && !found)
        }),
{
    reveal_with_fuel(no_marker, 8);
    let work = |l: Seq<Reply>| no_marker(l, at, directory, 0);
    assert(at + 5 < log.len());
    assert forall|k: int, j: int| 0 <= j < k <= 6 implies #[trigger] log.take(at + k)[at + j] == log[at
        + j] by {}
    let l0 = log.take((at + 0) as int);
    let l1 = log.take((at + 1) as int);
    let l2 = log.take((at + 2) as int);
    let l3 = log.take((at + 3) as int);
    let l4 = log.take((at + 4) as int);
    let l5 = log.take((at + 5) as int);
    assert(l1[at as int] == log[at as int]);
    assert(l2[at as int] == log[at as int] && l2[(at + 1) as int] == log[(at + 1) as int]);
    assert(l3[at as int] == log[at as int] && l3[(at + 1) as int] == log[(at + 1) as int] && l3[(at + 2) as int] == log[(at + 2) as int]);
    assert(l4[at as int] == log[at as int] && l4[(at + 1) as int] == log[(at + 1) as int] && l4[(at + 2) as int] == log[(at + 2) as int]);
    assert(l4[(at + 3) as int] == log[(at + 3) as int]);
    assert(l5[at as int] == log[at as int] && l5[(at + 1) as int] == log[(at + 1) as int] && l5[(at + 2) as int] == log[(at + 2) as int]);
    assert(l5[(at + 3) as int] == log[(at + 3) as int] && l5[(at + 4) as int] == log[(at + 4) as int]);
}

// ---------------------------------------------------------------------------------------------
// Conflicts
// ---------------------------------------------------------------------------------------------

/// Whether a file in conflict is handed out as it was read by two requests, the first of them after `p`
/// replies: it is no link and not too large, and its content is the text that its bytes hold, or none where
/// there is no file.
pub open spec fn is_captured<T>(
    work: spec_fn(Seq<Reply>) -> Script<T>,
    log: Seq<Reply>,
    p: int,
    worktree: Seq<char>,
    file: ConflictFileView,
) -> bool {
    &&& asks(work, log, p, RequestView::Inspect(below(worktree, file.path)))
    &&& log[p] matches Reply::Inspected { is_symlink, len } && !is_symlink && (len matches Some(n) ==> n
        <= 16777216)
    &&& asks(work, log, p + 1, RequestView::ReadFile(below(worktree, file.path)))
    &&& match log[p + 1] {
        Reply::Bytes(bytes) => file.content matches Some(content) && bytes@ == encode_utf8(content),
        Reply::Missing => file.content is None,
        _ => false,
    }
}

/// Whether files are those that a list names from the `i`-th line on, one for each line that is not empty, in
/// order, and each is captured; `picks` says which lines those are.
pub open spec fn are_captured<T>(
    work: spec_fn(Seq<Reply>) -> Script<T>,
    log: Seq<Reply>,
    at: int,
    worktree: Seq<char>,
    names: Seq<Seq<char>>,
    i: int,
    picks: Seq<int>,
    files: Seq<ConflictFileView>,
) -> bool {
    &&& picks.len() == files.len()
    &&& forall|k: int|
        0 <= k < picks.len() ==> i <= #[trigger] picks[k] < names.len() && files[k].path
            == names[picks[k]] && is_captured(work, log, at + 2 * k, worktree, files[k])
    &&& forall|j: int, k: int| 0 <= j < k < picks.len() ==> #[trigger] picks[j] < #[trigger] picks[k]
    &&& forall|j: int|
        i <= j < names.len() ==> (picks.contains(j) <==> (#[trigger] names[j]).len() > 0)
}

proof fn lemma_captured_once(log: Seq<Reply>, at: nat, worktree: Seq<char>, path: Seq<char>)
    ensures
        reading_conflict(log, at, worktree, path) matches Script::Done(end, Ok(file)) ==> {
            &&& end == at + 2 && end <= log.len()
            &&& file.path == path
            &&& is_captured(
                |l: Seq<Reply>| reading_conflict(l, at, worktree, path),
                log,
                at as int,
                worktree,
                file,
            )
            &&& forall|m: int|
                end <= m <= log.len() ==> reading_conflict(#[trigger] log.take(m), at, worktree, path)
                    == reading_conflict(log, at, worktree, path)
        },
{
    if let Script::Done(end, Ok(file)) = reading_conflict(log, at, worktree, path) {
        let l1 = log.take((at + 1) as int);
        assert(l1[at as int] == log[at as int]);
        if let Reply::Bytes(bytes) = log[(at + 1) as int] {
            texts_read_back(bytes@);
            let content = utf8_text(bytes@)->Some_0;
            assert(bytes@ == encode_utf8(content));
        }
        assert forall|m: int| end <= m <= log.len() implies reading_conflict(
            #[trigger] log.take(m),
            at,
            worktree,
            path,
        ) == reading_conflict(log, at, worktree, path) by {
            let l = log.take(m);
            assert(l[at as int] == log[at as int] && l[(at + 1) as int] == log[(at + 1) as int]);
        }
    }
}

proof fn lemma_captured(
    log: Seq<Reply>,
    at: nat,
    worktree: Seq<char>,
    names: Seq<Seq<char>>,
    i: int,
    files: Seq<ConflictFileView>,
) -> (picks: Seq<int>)
    requires
        0 <= i <= names.len(),
    ensures
        reading_conflicts(log, at, worktree, names, i, files) matches Script::Done(end, Ok(all)) ==> {
            &&& files.is_prefix_of(all)
            &&& end == at + 2 * picks.len()
            &&& picks.len() > 0 ==> end <= log.len()
            &&& are_captured(
                |l: Seq<Reply>| reading_conflicts(l, at, worktree, names, i, files),
                log,
                at as int,
                worktree,
                names,
                i,
                picks,
                all.skip(files.len() as int),
            )
        },
    decreases names.len() - i,
{
    let work = |l: Seq<Reply>| reading_conflicts(l, at, worktree, names, i, files);
    if i == names.len() {
        assert(files.skip(files.len() as int) =~= Seq::empty());
        Seq::empty()
    } else if names[i].len() == 0 {
        let picks = lemma_captured(log, at, worktree, names, i + 1, files);
        if let Script::Done(end, Ok(all)) = reading_conflicts(log, at, worktree, names, i, files) {
            let later = |l: Seq<Reply>| reading_conflicts(l, at, worktree, names, i + 1, files);
            let made = all.skip(files.len() as int);
            assert(are_captured(later, log, at as int, worktree, names, i + 1, picks, made));
            assert forall|k: int| 0 <= k < picks.len() implies i <= #[trigger] picks[k] < names.len()
                && made[k].path == names[picks[k]] && is_captured(
                work,
                log,
                at + 2 * k,
                worktree,
                made[k],
            ) by {
                assert(i + 1 <= picks[k]);
                assert(is_captured(later, log, at as int + 2 * k, worktree, made[k]));
                assert(work(log.take(at + 2 * k)) == later(log.take(at + 2 * k)));
                assert(work(log.take(at + 2 * k + 1)) == later(log.take(at + 2 * k + 1)));
            }
            assert forall|j: int| i <= j < names.len() implies (picks.contains(j) <==> (
            #[trigger] names[j]).len() > 0) by {
                if j == i && picks.contains(j) {
                    let k = picks.index_of(j);
                    assert(picks[k] == i);
                }
            }
        }
        picks
    } else {
        lemma_captured_once(log, at, worktree, names[i]);
        match reading_conflict(log, at, worktree, names[i]) {
            Script::Done(b, Ok(file)) => {
                let more = files.push(file);
                let rest = lemma_captured(log, b, worktree, names, i + 1, more);
                let picks = seq![i] + rest;
                if let Script::Done(end, Ok(all)) = reading_conflicts(
                    log,
                    at,
                    worktree,
                    names,
                    i,
                    files,
                ) {
                    let once = |l: Seq<Reply>| reading_conflict(l, at, worktree, names[i]);
                    let later = |l: Seq<Reply>| reading_conflicts(l, b, worktree, names, i + 1, more);
                    let base = files.len() as int;
                    let made = all.skip(base);
                    let others = all.skip(base + 1);
                    assert(more =~= all.take(base + 1));
                    assert(files =~= all.take(base));
                    assert(all[base] == all.take(base + 1)[base]);
                    assert(made =~= seq![file] + others);
                    assert forall|m: int| b <= m <= log.len() implies #[trigger] work(log.take(m))
                        == later(log.take(m)) by {
                        assert(once(log.take(m)) == once(log));
                    }
                    assert forall|k: int| 0 <= k < picks.len() implies i <= #[trigger] picks[k]
                        < names.len() && made[k].path == names[picks[k]] && is_captured(
                        work,
                        log,
                        at + 2 * k,
                        worktree,
                        made[k],
                    ) by {
                        if k > 0 {
                            assert(picks[k] == rest[k - 1] && made[k] == others[k - 1]);
                            assert(b + 2 * (k - 1) == at + 2 * k);
                            assert(is_captured(later, log, b + 2 * (k - 1), worktree, others[k - 1]));
                            assert(work(log.take(at + 2 * k)) == later(log.take(at + 2 * k)));
                            assert(work(log.take(at + 2 * k + 1)) == later(log.take(at + 2 * k + 1)));
                        } else {
                            assert(is_captured(once, log, at as int, worktree, file));
                        }
                    }
                    assert forall|j: int| i <= j < names.len() implies (picks.contains(j) <==> (
                    #[trigger] names[j]).len() > 0) by {
                        if j == i {
                            assert(picks[0] == i);
                        } else {
                            if rest.contains(j) {
                                let k = rest.index_of(j);
                                assert(picks[k + 1] == j);
                            }
                            if picks.contains(j) {
                                let k = picks.index_of(j);
                                assert(rest[k - 1] == j);
                            }
                        }
                    }
                }
                picks
            },
            _ => Seq::empty(),
        }
    }
}

/// Whether a conflict holds the files that Git names as unmerged, one for each line that is not empty.
pub open spec fn holds_unmerged<T>(
    work: spec_fn(Seq<Reply>) -> Script<T>,
    log: Seq<Reply>,
    at: int,
    worktree: Seq<char>,
    conflict: ConflictView,
) -> bool {
    exists|told: Seq<char>, all: Seq<Seq<char>>, ends: Seq<Seq<char>>, picks: Seq<int>|
        {
            &&& wrote(log[at], told)
            &&& #[trigger] consists_of(told, all, ends)
            &&& #[trigger] are_captured_from(work, log, at, worktree, all, picks, conflict.files)
        }
}

/// The same, from the reply behind Git's on.
pub open spec fn are_captured_from<T>(
    work: spec_fn(Seq<Reply>) -> Script<T>,
    log: Seq<Reply>,
    at: int,
    worktree: Seq<char>,
    names: Seq<Seq<char>>,
    picks: Seq<int>,
    files: Seq<ConflictFileView>,
) -> bool {
    are_captured(work, log, at + 1, worktree, names, 0, picks, files)
}

/// A conflict that is captured holds every file that Git names as unmerged, with its whole content, and no
/// other; there is at least one, and the purpose is that of the commit.
pub proof fn a_conflict_holds_the_unmerged_files(
    log: Seq<Reply>,
    at: nat,
    worktree: Seq<char>,
    purpose: Seq<char>,
    end: nat,
    conflict: ConflictView,
)
    requires
        capturing(log, at, worktree, purpose) == Script::<Result<ConflictView, Refusal>>::Done(
            end,
            Ok(conflict),
        ),
    ensures
        conflict.purpose == purpose,
        conflict.files.len() > 0,
        asks(
            |l: Seq<Reply>| capturing(l, at, worktree, purpose),
            log,
            at as int,
            git(
                worktree,
                seq!["diff"@, "--no-ext-diff"@, "--no-textconv"@, "--name-only"@, "--diff-filter=U"@],
            ),
        ),
        holds_unmerged(
            |l: Seq<Reply>| capturing(l, at, worktree, purpose),
            log,
            at as int,
            worktree,
            conflict,
        ),
{
    let work = |l: Seq<Reply>| capturing(l, at, worktree, purpose);
    assert(at < log.len());
    lemma_run_text(log[at as int]);
    let told = run_text(log[at as int])->Ok_0;
    let all = lines(told);
    lines_are_the_whole_text(told);
    let ends = choose|ends: Seq<Seq<char>>| #[trigger] consists_of(told, all, ends);
    let none = Seq::<ConflictFileView>::empty();
    let inner = |l: Seq<Reply>| reading_conflicts(l, at + 1, worktree, all, 0, none);
    let picks = lemma_captured(log, at + 1, worktree, all, 0, none);
    let files = conflict.files;
    assert(files.skip(0) =~= files);
    assert(log.take(at as int).len() == at);
    assert(are_captured(inner, log, (at + 1) as int, worktree, all, 0, picks, files));
    assert forall|k: int| 0 <= k < picks.len() implies 0 <= #[trigger] picks[k] < all.len()
        && files[k].path == all[picks[k]] && is_captured(
        work,
        log,
        at + 1 + 2 * k,
        worktree,
        files[k],
    ) by {
        let p = at + 1 + 2 * k;
        assert(0 <= picks[k]);
        assert(is_captured(inner, log, (at + 1) as int + 2 * k, worktree, files[k]));
        assert(log.take(p)[at as int] == log[at as int]);
        assert(log.take(p + 1)[at as int] == log[at as int]);
        assert(work(log.take(p)) == Script::<Result<ConflictView, Refusal>>::Ask(
            inner(log.take(p))->Ask_0,
        ));
        assert(work(log.take(p + 1)) == Script::<Result<ConflictView, Refusal>>::Ask(
            inner(log.take(p + 1))->Ask_0,
        ));
    }
    assert(are_captured_from(work, log, at as int, worktree, all, picks, files));
    assert(consists_of(told, all, ends));
}

// ---------------------------------------------------------------------------------------------
// The parent
// ---------------------------------------------------------------------------------------------

/// What is said about changes that others made.
pub open spec fn is_notice(state: GitView, snapshot: Seq<char>, diff: Seq<char>, event: UiView) -> bool {
    event == UiView::Sensory(
        "Observed external workspace changes on branch "@ + state.branch + ".\nold snapshot: "@
            + state.observed + "\nnew snapshot: "@ + snapshot + "\n\n"@ + diff,
    )
}

/// Whether a session takes note of a changed parent: its queue is replayed on the new snapshot, which counts
/// as seen, the difference is told once unless it is empty, and the state is shown.
pub open spec fn is_noted(
    log: Seq<Reply>,
    at: nat,
    state: GitView,
    snapshot: Seq<char>,
    diff: Seq<char>,
    end: nat,
    next: GitView,
    replayed: GitView,
) -> bool {
    &&& is_replay(
        |l: Seq<Reply>| replay(l, at, state, snapshot),
        log,
        at as int,
        state.worktree,
        state.commits,
        snapshot,
        state.outbox,
        end as int,
        replayed,
    )
    &&& next.commits == replayed.commits
    &&& next.observed == snapshot
    &&& next.baseline == snapshot
    &&& stays_put(state, next)
    &&& if diff.len() == 0 {
        next.outbox.len() == replayed.outbox.len() + 1
    } else {
        next.outbox.len() == replayed.outbox.len() + 2 && is_notice(
            state,
            snapshot,
            diff,
            next.outbox[replayed.outbox.len() as int],
        )
    }
    &&& replayed.outbox.is_prefix_of(next.outbox)
    &&& next.outbox.last() == UiView::State {
        mode: state.mode,
        branch: state.branch,
        commits: next.commits,
    }
}

/// A session whose parent changed takes note of it: the queue is replayed on the new snapshot, and the
/// difference is told.
pub proof fn a_changed_parent_is_noticed(
    log: Seq<Reply>,
    at: nat,
    state: GitView,
    seen: nat,
    snapshot: Seq<char>,
    diff: Seq<char>,
    end: nat,
    next: GitView,
)
    requires
        observation(log, at, state) == Script::<
            Result<Option<(Seq<char>, Seq<char>)>, Refusal>,
        >::Done(seen, Ok(Some((snapshot, diff)))),
        synchronization(log, at, state) == Script::<(GitView, Result<(), Refusal>)>::Done(
            end,
            (next, Ok(())),
        ),
    ensures
        exists|replayed: GitView|
            #[trigger] is_noted(log, seen, state, snapshot, diff, end, next, replayed),
{
    lemma_replay(log, seen, state, snapshot);
    match replay(log, seen, state, snapshot) {
        Script::Done(b, (replayed, Ok(_))) => {
            assert(replayed.outbox =~= next.outbox.take(replayed.outbox.len() as int));
            assert(is_noted(log, seen, state, snapshot, diff, end, next, replayed));
        },
        _ => {},
    }
}

/// The parent counts as unchanged exactly if the tree of the new snapshot is the tree of the last one;
/// otherwise the difference is what Git tells between the two.
pub proof fn differences_are_told_by_git(
    log: Seq<Reply>,
    at: nat,
    state: GitView,
    snapshot: Seq<char>,
    end: nat,
    found: Option<(Seq<char>, Seq<char>)>,
)
    requires
        difference(log, at, state, snapshot) == Script::<
            Result<Option<(Seq<char>, Seq<char>)>, Refusal>,
        >::Done(end, Ok(found)),
    ensures
        ({
            let work = |l: Seq<Reply>| difference(l, at, state, snapshot);
            &&& asks(
                work,
                log,
                at as int,
                git(state.repo_root, seq!["rev-parse"@, snapshot + "^{tree}"@]),
            )
            &&& asks(
                work,
                log,
                (at + 1) as int,
                git(state.repo_root, seq!["rev-parse"@, state.observed + "^{tree}"@]),
            )
            &&& exists|first: Seq<char>, second: Seq<char>|
                {
                    &&& #[trigger] wrote_word(log[at as int], first)
                    &&& #[trigger] wrote_word(log[(at + 1) as int], second)
                    &&& first == second <==> found is None
                }
            &&& found matches Some((next, diff)) ==> {
                &&& next == snapshot
                &&& wrote(log[(at + 2) as int], diff)
                &&& asks(
                    work,
                    log,
                    (at + 2) as int,
                    git(
                        state.repo_root,
                        seq![
                            "diff"@,
                            "--binary"@,
                            "--no-ext-diff"@,
                            "--no-textconv"@,
                            state.observed,
                            snapshot,
                        ],
                    ),
                )
            }
        }),
{
    assert(at + 1 < log.len());
    let left = crate::command::tree_of_run(state.repo_root, snapshot);
    let right = crate::command::tree_of_run(state.repo_root, state.observed);
    lemma_word(log, at, left);
    lemma_word(log, at + 1, right);
    let first = crate::script::word(log, at, left)->Done_1->Ok_0;
    let second = crate::script::word(log, at + 1, right)->Done_1->Ok_0;
    assert(wrote_word(log[at as int], first) && wrote_word(log[(at + 1) as int], second));
    let l1 = log.take((at + 1) as int);
    assert(l1[at as int] == log[at as int]);
    assert(log.take(at as int).len() == at);
    if found is Some {
        lemma_word(
            log,
            at + 2,
            crate::command::git_diff_run(state.repo_root, state.observed, snapshot),
        );
        let l2 = log.take((at + 2) as int);
        assert(l2[at as int] == log[at as int] && l2[(at + 1) as int] == log[(at + 1) as int]);
    }
}

// ---------------------------------------------------------------------------------------------
// Sessions that were left behind
// ---------------------------------------------------------------------------------------------

/// Whether an old session is looked after from the reply at `p` on: its lock is tried, and where nobody holds
/// it, its worktree, its branch and its lock file are removed.
pub open spec fn is_cleared<T>(
    work: spec_fn(Seq<Reply>) -> Script<T>,
    log: Seq<Reply>,
    p: int,
    root: Seq<char>,
    state_dir: Seq<char>,
    lock: LockEntry,
) -> bool {
    &&& asks(work, log, p, RequestView::TryLock(lock.path@))
    &&& lock.stem matches Some(id) ==> log[p] == Reply::Flag(true) ==> {
        &&& asks(
            work,
            log,
            p + 1,
            git(
                root,
                seq!["worktree"@, "remove"@, "--force"@, below(below(state_dir, "worktrees"@), id@)],
            ),
        )
        &&& asks(work, log, p + 2, git(root, seq!["branch"@, "-D"@, "nuillu/session/"@ + id@]))
        &&& asks(work, log, p + 3, RequestView::RemoveFile(lock.path@))
    }
}

/// Whether an old session is looked after at some time.
pub open spec fn gets_cleared<T>(
    work: spec_fn(Seq<Reply>) -> Script<T>,
    log: Seq<Reply>,
    from: int,
    root: Seq<char>,
    state_dir: Seq<char>,
    lock: LockEntry,
) -> bool {
    exists|p: int| from <= p && #[trigger] is_cleared(work, log, p, root, state_dir, lock)
}

proof fn lemma_cleared(
    log: Seq<Reply>,
    at: nat,
    root: Seq<char>,
    state_dir: Seq<char>,
    locks: Seq<LockEntry>,
    i: int,
    j: int,
)
    requires
        0 <= i <= j < locks.len(),
        locks[j].age_seconds >= 86400,
        clearing_sessions(log, at, root, state_dir, locks, i) matches Script::Done(_, Ok(_)),
    ensures
        gets_cleared(
            |l: Seq<Reply>| clearing_sessions(l, at, root, state_dir, locks, i),
            log,
            at as int,
            root,
            state_dir,
            locks[j],
        ),
    decreases j - i,
{
    let work = |l: Seq<Reply>| clearing_sessions(l, at, root, state_dir, locks, i);
    let lock = locks[i];
    if lock.age_seconds < 86400 {
        lemma_cleared(log, at, root, state_dir, locks, i + 1, j);
        let later = |l: Seq<Reply>| clearing_sessions(l, at, root, state_dir, locks, i + 1);
        lemma_cleared_on(work, later, log, at as int, at as int, root, state_dir, locks[j]);
    } else {
        let removed = lock.stem is Some && log[at as int] == Reply::Flag(true);
        let b: nat = if removed { at + 4 } else { at + 1 };
        assert(b <= log.len());
        if i == j {
            if removed {
                let l1 = log.take((at + 1) as int);
                let l2 = log.take((at + 2) as int);
                let l3 = log.take((at + 3) as int);
                assert(l1[at as int] == log[at as int]);
                assert(l2[at as int] == log[at as int]);
                assert(l3[at as int] == log[at as int]);
            }
            assert(log.take(at as int).len() == at);
            assert(is_cleared(work, log, at as int, root, state_dir, lock));
        } else {
            let later = |l: Seq<Reply>| clearing_sessions(l, b, root, state_dir, locks, i + 1);
            lemma_cleared(log, b, root, state_dir, locks, i + 1, j);
            assert forall|m: int| b <= m <= log.len() implies #[trigger] work(log.take(m)) == later(
                log.take(m),
            ) by {
                assert(log.take(m)[at as int] == log[at as int]);
            }
            lemma_cleared_on(work, later, log, b as int, at as int, root, state_dir, locks[j]);
        }
    }
}

proof fn lemma_cleared_on<T>(
    work: spec_fn(Seq<Reply>) -> Script<T>,
    later: spec_fn(Seq<Reply>) -> Script<T>,
    log: Seq<Reply>,
    from: int,
    start: int,
    root: Seq<char>,
    state_dir: Seq<char>,
    lock: LockEntry,
)
    requires
        start <= from,
        forall|m: int| from <= m <= log.len() ==> #[trigger] work(log.take(m)) == later(log.take(m)),
        gets_cleared(later, log, from, root, state_dir, lock),
    ensures
        gets_cleared(work, log, start, root, state_dir, lock),
{
    let p = choose|p: int| from <= p && #[trigger] is_cleared(later, log, p, root, state_dir, lock);
    assert forall|k: int, request: RequestView|
        from <= k && #[trigger] asks(later, log, k, request) implies asks(work, log, k, request) by {
        assert(work(log.take(k)) == later(log.take(k)));
    }
    assert(is_cleared(work, log, p, root, state_dir, lock));
}

/// Every session that is at least a day old is looked after: where nobody holds its lock, its worktree, its
/// branch and its lock file are removed.
pub proof fn old_sessions_are_cleared_away(
    log: Seq<Reply>,
    at: nat,
    root: Seq<char>,
    state_dir: Seq<char>,
    locks: Seq<LockEntry>,
    j: int,
)
    requires
        0 <= j < locks.len(),
        locks[j].age_seconds >= 86400,
        clearing_sessions(log, at, root, state_dir, locks, 0) matches Script::Done(_, Ok(_)),
    ensures
        gets_cleared(
            |l: Seq<Reply>| clearing_sessions(l, at, root, state_dir, locks, 0),
            log,
            at as int,
            root,
            state_dir,
            locks[j],
        ),
{
    lemma_cleared(log, at, root, state_dir, locks, 0, j);
}

/// Ending a session asks for the removal of its worktree, its branch and its lock file, and the session is
/// then over, whatever came of that.
pub proof fn an_ended_session_is_removed(log: Seq<Reply>, at: nat, state: GitView)
    requires
        !state.cleaned,
        at + 3 <= log.len(),
    ensures
        ({
            let work = |l: Seq<Reply>| ending(l, at, state);
            &&& asks(
                work,
                log,
                at as int,
                git(state.repo_root, seq!["worktree"@, "remove"@, "--force"@, state.worktree]),
            )
            &&& asks(
                work,
                log,
                (at + 1) as int,
                git(state.repo_root, seq!["branch"@, "-D"@, state.session_branch]),
            )
            &&& asks(work, log, (at + 2) as int, RequestView::RemoveFile(state.lock_path))
            &&& ending(log, at, state) == Script::<(GitView, ())>::Done(
                at + 3,
                (GitView { cleaned: true, ..state }, ()),
            )
        }),
{
    assert(log.take(at as int).len() == at);
    assert(log.take((at + 1) as int).len() == at + 1);
    assert(log.take((at + 2) as int).len() == at + 2);
}

// ---------------------------------------------------------------------------------------------
// Lines
// ---------------------------------------------------------------------------------------------

/// A line is one of Git's conflict markers exactly if it begins with seven angle brackets of one kind and a
/// space, or consists of seven equal signs.
pub proof fn markers_are_what_git_writes(line: Seq<char>)
    ensures
        is_marker_line(line) <==> "<<<<<<< "@.is_prefix_of(line) || line == "======="@
            || ">>>>>>> "@.is_prefix_of(line),
{
    lemma_prefix("<<<<<<< "@, line);
    lemma_prefix(">>>>>>> "@, line);
}

proof fn lemma_prefix(part: Seq<char>, line: Seq<char>)
    ensures
        stands_at(line, part, 0) <==> part.is_prefix_of(line),
{
    if stands_at(line, part, 0) {
        assert(part =~= line.subrange(0, part.len() as int));
    }
    if part.is_prefix_of(line) {
        assert(line.subrange(0, part.len() as int) =~= part);
    }
}

/// A line of the repository's ignore file names the state directory exactly if, but for white space around it,
/// it is the directory's name, with a separator in front of it or not and one behind it or not.
pub proof fn state_rules_name_the_directory(line: Seq<char>)
    ensures
        is_state_rule(line) ==> exists|rule: Seq<char>| #[trigger]
            is_around(line, rule) && (rule == ".nuillu"@ || rule == ".nuillu/"@ || rule == "/.nuillu"@
                || rule == "/.nuillu/"@),
        forall|rule: Seq<char>| #[trigger]
            is_around(line, rule) && rule.len() > 0 && (rule == ".nuillu"@ || rule == ".nuillu/"@ || rule
                == "/.nuillu"@ || rule == "/.nuillu/"@) ==> is_state_rule(line),
{
    trimming_takes_white_space_off(line);
    assert forall|rule: Seq<char>| #[trigger]
        is_around(line, rule) && rule.len() > 0 && (rule == ".nuillu"@ || rule == ".nuillu/"@ || rule
            == "/.nuillu"@ || rule == "/.nuillu/"@) implies is_state_rule(line) by {
        words_are_unique(line, rule, trimmed(line));
    }
}

} // verus!
