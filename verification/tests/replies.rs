use nuillu_code::conflict::{apply_conflict_resolution, capture_conflict};
use nuillu_code::executable::{ExecutableIdentity, GitExecutable};
use nuillu_code::failure::{Failure, FailureKind};
use nuillu_code::queue::{apply_patch_to_worktree, reverse_patch};
use nuillu_code::repository::{cleanup_stale_worktrees, reject_external_filters, validate_state_ignore};
use nuillu_code::review::{same_tree, snapshot_parent, validate_repository_state, GitWorkspace};
use nuillu_code::script::{ConflictCase, ConflictFile, GitOutput, LockEntry, Reply, Request, Session};

fn wrote(text: &str) -> Reply {
    Reply::Git(GitOutput {
        success: true,
        status: "exit status: 0".to_string(),
        stdout: text.as_bytes().to_vec(),
        stderr: Vec::new(),
    })
}

fn refused() -> Reply {
    Reply::Git(GitOutput {
        success: false,
        status: "exit status: 1".to_string(),
        stdout: Vec::new(),
        stderr: b"no\n".to_vec(),
    })
}

/// Runs work on replies that are all there.
fn done<T>(replies: Vec<Reply>, work: impl Fn(&mut Session) -> Option<T>) -> T {
    let mut io = Session::new(&replies);
    let value = work(&mut io).expect("the work is done");
    assert_eq!(io.at, replies.len(), "every reply is used up");
    value
}

/// Runs work on replies that do not suffice, and gives what it asks for.
fn asked<T>(replies: Vec<Reply>, work: impl Fn(&mut Session) -> Option<T>) -> Request {
    let mut io = Session::new(&replies);
    assert!(work(&mut io).is_none());
    io.wanted.unwrap()
}

fn git() -> GitExecutable {
    GitExecutable {
        identity: ExecutableIdentity {
            canonical_path: "/usr/bin/git".to_string(),
            len: 1,
            modified: None,
            device: 1,
            inode: 1,
        },
    }
}

fn open(replies: Vec<Reply>) -> Failure {
    done(replies, |io| GitWorkspace::open("/repo/sub", &git(), io)).unwrap_err()
}

fn located() -> Vec<Reply> {
    vec![
        Reply::Text("/repo/sub".to_string()),
        Reply::Flag(false),
        Reply::Flag(true),
        wrote("/repo\n"),
        Reply::Text("/repo".to_string()),
    ]
}

#[test]
fn opening_looks_upwards_for_a_repository() {
    let request = asked(vec![Reply::Text("/repo/sub".to_string())], |io| {
        GitWorkspace::open(".", &git(), io)
    });
    assert!(matches!(request, Request::Exists(path) if path == "/repo/sub/.git"));
    let nothing = open(vec![
        Reply::Text("/repo/sub".to_string()),
        Reply::Flag(false),
        Reply::Flag(false),
        Reply::Flag(false),
    ]);
    assert_eq!(nothing.kind, FailureKind::NotInRepository);
    assert_eq!(nothing.message, "cwd must be inside a non-bare Git worktree");
    let unresolved = open(vec![Reply::Failed("gone".to_string())]);
    assert_eq!(unresolved.message, "resolve cwd /repo/sub: gone");
    let inside = done(
        vec![Reply::Text("/usr".to_string()), Reply::Flag(true)],
        |io| GitWorkspace::open("/usr", &git(), io),
    );
    assert_eq!(inside.unwrap_err().kind, FailureKind::ExecutableInside);
}

#[test]
fn opening_needs_a_worktree_of_its_own() {
    let with = |more: Vec<Reply>| open(located().into_iter().chain(more).collect());
    let bare = with(vec![wrote("true\n")]);
    assert_eq!(bare.kind, FailureKind::BareRepository);
    assert_eq!(bare.message, "bare Git repositories are not supported");
    let inner = with(vec![wrote("false\n"), wrote("/outer\n")]);
    assert_eq!(inner.kind, FailureKind::Submodule);
    assert_eq!(inner.message, "starting inside a Git submodule is not supported");
    let detached = with(vec![wrote("false\n"), wrote("\n"), refused()]);
    assert_eq!(
        detached.message,
        "cwd must have a checked-out branch: git failed with exit status: 1: no"
    );
}

#[test]
fn repositories_have_to_be_settled() {
    let quiet = |n: usize| (0..n).map(|_| Reply::Flag(false));
    let check = |replies: Vec<Reply>| done(replies, |io| validate_repository_state("/repo", io));
    let start = || vec![wrote(".git\n"), wrote("/else/git\n")];
    let mut settled = start();
    settled.extend(quiet(12));
    settled.push(wrote(""));
    assert!(check(settled).is_ok());
    let mut unmerged = start();
    unmerged.extend(quiet(12));
    unmerged.push(wrote("100644 abc 1\ta\n"));
    let failure = check(unmerged).unwrap_err();
    assert_eq!(failure.kind, FailureKind::UnmergedEntries);
    let mut reverting = start();
    reverting.extend(quiet(8));
    reverting.push(Reply::Flag(true));
    let failure = check(reverting).unwrap_err();
    assert_eq!(failure.message, "repository has an in-progress Git operation (REVERT_HEAD)");
    let mut replies = start();
    replies.extend(quiet(6));
    let request = asked(replies, |io| validate_repository_state("/repo", io));
    assert!(matches!(request, Request::Exists(path) if path == "/else/git/MERGE_HEAD"));
}

#[test]
fn snapshots_use_an_index_of_their_own() {
    let id = || Reply::Id { nanos: 1, process: 2, counter: 3 };
    let take = |replies: Vec<Reply>| {
        done(replies, |io| snapshot_parent("/repo", "/repo/.nuillu", "c0", io))
    };
    let made = take(vec![id(), wrote(""), wrote(""), wrote("t\n"), wrote("c1\n"), Reply::Done]);
    assert_eq!(made.unwrap(), "c1");
    let failure = take(vec![id(), wrote(""), refused(), Reply::Done]).unwrap_err();
    assert!(failure.message.starts_with("snapshot parent working tree: "));
    match asked(vec![id()], |io| snapshot_parent("/repo", "/repo/.nuillu", "c0", io)) {
        Request::Git(run) => {
            assert_eq!(run.args, vec!["read-tree", "c0"]);
            assert!(run.index.unwrap().starts_with("/repo/.nuillu/snapshot-0000"));
        }
        other => panic!("{other:?}"),
    }
    assert!(done(vec![wrote("a\n"), wrote(" a")], |io| same_tree("/r", "x", "y", io)).unwrap());
    assert!(!done(vec![wrote("a\n"), wrote("b")], |io| same_tree("/r", "x", "y", io)).unwrap());
}

#[test]
fn diffs_are_tried_before_they_are_applied() {
    let apply = |replies: Vec<Reply>| done(replies, |io| apply_patch_to_worktree("/w", "d", io));
    assert!(apply(vec![wrote(""), wrote("")]).is_ok());
    assert!(apply(vec![refused()]).is_err());
    let request = asked(vec![wrote("")], |io| reverse_patch("/w", "d", io));
    match request {
        Request::Git(run) => {
            assert_eq!(run.args, vec!["apply", "--reverse", "--binary", "-"]);
            assert_eq!(run.input.as_deref(), Some("d"));
        }
        other => panic!("{other:?}"),
    }
}

fn seen() -> Reply {
    Reply::Inspected { is_symlink: false, len: Some(3) }
}

#[test]
fn conflicts_are_captured() {
    let capture = |replies: Vec<Reply>| done(replies, |io| capture_conflict("/w", "why", io));
    let case = capture(vec![
        wrote("a.txt\n\nb.txt\n"),
        seen(),
        Reply::Bytes(b"<<<".to_vec()),
        seen(),
        Reply::Missing,
    ])
    .unwrap();
    assert_eq!(case.purpose, "why");
    assert_eq!(case.files.len(), 2);
    assert_eq!(case.files[0].content.as_deref(), Some("<<<"));
    assert_eq!(case.files[1].content, None);
    let none = capture(vec![wrote("")]).unwrap_err();
    assert_eq!(none.kind, FailureKind::NoConflict);
    let outside = capture(vec![wrote("../a\n")]).unwrap_err();
    assert_eq!(outside.kind, FailureKind::BadConflictPath);
    assert_eq!(outside.message, "invalid conflicted path: ../a");
    let linked =
        capture(vec![wrote("a\n"), Reply::Inspected { is_symlink: true, len: None }]).unwrap_err();
    assert_eq!(linked.message, "conflict resolver cannot read a symbolic link: a");
    let large = Reply::Inspected { is_symlink: false, len: Some(16 * 1024 * 1024 + 1) };
    assert_eq!(capture(vec![wrote("a\n"), large]).unwrap_err().kind, FailureKind::TooLarge);
    let binary = capture(vec![wrote("a\n"), seen(), Reply::Bytes(vec![255])]).unwrap_err();
    assert_eq!(binary.message, "conflict file is not UTF-8: a");
    let unread =
        capture(vec![wrote("a\n"), seen(), Reply::Failed("denied".to_string())]).unwrap_err();
    assert_eq!(unread.message, "read conflict file a: denied");
}

#[test]
fn resolutions_are_complete_and_clean() {
    let file = |path: &str, content: Option<&str>| ConflictFile {
        path: path.to_string(),
        content: content.map(String::from),
    };
    let conflict = ConflictCase {
        purpose: "p".to_string(),
        files: vec![file("a", Some("<<<")), file("b", None)],
    };
    let resolve = |resolved: &[ConflictFile], replies: Vec<Reply>| {
        done(replies, |io| apply_conflict_resolution("/w", &conflict, resolved, io))
    };
    let good = [file("b", None), file("a", Some("x\n"))];
    let replies = vec![seen(), Reply::Missing, seen(), Reply::Done, wrote(""), wrote("")];
    assert!(resolve(&good, replies).is_ok());
    for bad in [
        vec![file("a", None)],
        vec![file("a", None), file("a", None)],
        vec![file("a", None), file("b", None), file("b", None)],
        vec![file("a", None), file("c", None)],
    ] {
        let failure = resolve(&bad, vec![]).unwrap_err();
        assert_eq!(failure.kind, FailureKind::IncompleteResolution);
    }
    let marked = [file("a", Some("=======\n")), file("b", None)];
    let failure = resolve(&marked, vec![seen()]).unwrap_err();
    assert_eq!(failure.kind, FailureKind::MarkersRemain);
    assert_eq!(failure.message, "conflict markers remain in a");
    let linked = vec![Reply::Inspected { is_symlink: true, len: None }];
    assert_eq!(resolve(&good, linked).unwrap_err().kind, FailureKind::SymbolicLink);
    let stuck = vec![seen(), Reply::Failed("busy".to_string())];
    assert_eq!(resolve(&good, stuck).unwrap_err().message, "delete resolved conflict b: busy");
    let full = vec![seen(), Reply::Done, seen(), Reply::Failed("full".to_string())];
    assert_eq!(resolve(&good, full).unwrap_err().message, "write resolved conflict a: full");
    let dirty = vec![seen(), Reply::Done, seen(), Reply::Done, wrote(""), refused()];
    assert!(resolve(&good, dirty).is_err());
}

#[test]
fn filters_are_searched_for_everywhere() {
    let check = |replies: Vec<Reply>| done(replies, |io| reject_external_filters("/repo", io));
    let settings = || vec![refused(), wrote("\n"), refused(), refused()];
    let mut clean = settings();
    clean.push(Reply::Entries(vec![]));
    clean.push(wrote(".git\n"));
    clean.push(Reply::Missing);
    assert!(check(clean).is_ok());
    let mut informed = settings();
    informed.push(Reply::Entries(vec![]));
    informed.push(wrote(".git\n"));
    informed.push(Reply::Bytes(b"* filter=lfs\n".to_vec()));
    let failure = check(informed).unwrap_err();
    assert_eq!(failure.message, "Git info/attributes contains a custom filter");
    let mut closed = settings();
    closed.push(Reply::Failed("denied".to_string()));
    let failure = check(closed).unwrap_err();
    assert_eq!(failure.message, "inspect attributes under /repo: denied");
    let failure = check(vec![wrote("tool\n")]).unwrap_err();
    assert_eq!(failure.kind, FailureKind::UnsupportedSetting);
    let ignore = |reply: Reply| done(vec![reply], |io| validate_state_ignore("/repo", io));
    assert!(ignore(Reply::Bytes(b"/.nuillu\n".to_vec())).is_ok());
    assert_eq!(ignore(Reply::Bytes(vec![255])).unwrap_err().kind, FailureKind::NotUtf8);
}

#[test]
fn lock_files_without_a_name_are_kept() {
    let lock = |stem: Option<&str>| LockEntry {
        path: "/s/worktree-locks/x.lock".to_string(),
        stem: stem.map(String::from),
        age_seconds: 90_000,
    };
    let clean = |replies: Vec<Reply>| done(replies, |io| cleanup_stale_worktrees("/repo", "/s", io));
    let locks = Reply::Locks(vec![lock(None), lock(Some("x"))]);
    let replies = vec![
        Reply::Done,
        locks,
        Reply::Flag(true),
        Reply::Flag(true),
        refused(),
        refused(),
        Reply::Missing,
        refused(),
    ];
    assert!(clean(replies).is_ok(), "what cannot be removed is left");
    let failure = clean(vec![Reply::Done, Reply::Failed("denied".to_string())]).unwrap_err();
    assert_eq!(failure.message, "list worktree locks: denied");
}
