use nuillu_code::executable::{
    files_args, read_limited, reports_ripgrep, search_args, ExecutableIdentity, ExecutableProbe,
    GitExecutable, RgExecutable, RgOutput, RG_OUTPUT_BYTE_LIMIT,
};
use nuillu_code::failure::FailureKind;
use nuillu_code::listing::FILE_LIMIT;
use nuillu_code::read::{FileEvidence, ReadInput, MAX_READ_FILE_BYTES, READ_BYTE_LIMIT, READ_LINE_LIMIT};
use nuillu_code::search::{
    collect_matches, JsonItem, RgEvent, SearchInput, SEARCH_MATCH_LIMIT,
};
use nuillu_code::workspace::{PathProbe, Workspace, WorkspaceToolOutput};

fn identity(path: &str, len: u64) -> ExecutableIdentity {
    ExecutableIdentity {
        canonical_path: path.to_string(),
        len,
        modified: Some(5),
        device: 1,
        inode: 2,
    }
}

fn probe(path: &str, len: u64) -> ExecutableProbe {
    ExecutableProbe { is_file: true, identity: identity(path, len) }
}

fn open() -> Workspace {
    let rg = RgExecutable::discover(
        "/work",
        Some(probe("/usr/bin/rg", 10)),
        &probe("/usr/bin/rg", 10),
        true,
        b"ripgrep 14.1.0\n",
    )
    .unwrap();
    Workspace::open("/work".to_string(), true, rg).unwrap()
}

fn entries(n: usize) -> Vec<PathProbe> {
    (0..n).map(|_| PathProbe::Entry).collect()
}

fn output(stdout: &[u8]) -> RgOutput {
    RgOutput { success: true, stdout: stdout.to_vec(), stderr: Vec::new(), truncated: false }
}

fn failed(stderr: &str) -> RgOutput {
    RgOutput {
        success: false,
        stdout: Vec::new(),
        stderr: stderr.as_bytes().to_vec(),
        truncated: false,
    }
}

/// The visible files of a workspace that holds one hidden file, one ignored file, one ignored
/// directory, and one 46-line visible file.
fn visible() -> RgOutput {
    output(b"visible.txt\0.gitignore\0.github/workflow.yml\0")
}

fn visible_text() -> String {
    let lines = (1..=45).map(|line| format!("line {line}")).collect::<Vec<_>>().join("\n");
    format!("needle\n{lines}\n")
}

fn file(bytes: &[u8]) -> FileEvidence {
    FileEvidence { is_file: true, len: bytes.len() as u64, bytes: bytes.to_vec() }
}

fn event(path: &str, line: u64, start: u64, text: &str) -> String {
    format!(
        r#"{{"type":"match","data":{{"path":{{"text":"{path}"}},"lines":{{"text":"{text}\n"}},"line_number":{line},"submatches":[{{"start":{start}}}]}}}}"#
    )
}

fn search_input(glob: Option<&str>, path: Option<&str>) -> SearchInput {
    SearchInput {
        pattern: "needle".to_string(),
        glob: glob.map(String::from),
        path: path.map(String::from),
    }
}

#[test]
fn visible_files_lists_hidden_files_but_not_ignored_ones() {
    let files = open().visible_files(None, None, FILE_LIMIT, &[], &visible()).unwrap();
    assert!(files.paths.contains(&".github/workflow.yml".to_owned()));
    assert!(files.paths.contains(&"visible.txt".to_owned()));
    assert!(!files.paths.contains(&"ignored.txt".to_owned()));
    assert!(!files.paths.contains(&"ignored-dir/secret.txt".to_owned()));
    assert!(!files.truncated);
}

#[test]
fn visible_files_filters_by_glob_and_path() {
    let workspace = open();
    let list = |glob: Option<&str>, path: Option<&str>, probes: &[PathProbe]| {
        workspace.visible_files(glob, path, FILE_LIMIT, probes, &visible()).unwrap().paths
    };
    assert_eq!(list(Some("*.yml"), None, &[]), vec![".github/workflow.yml"]);
    assert!(
        list(Some("ignored.txt"), None, &[]).is_empty(),
        "a glob must not re-expose an ignored file"
    );
    assert!(
        list(None, Some("ignored-dir"), &entries(1)).is_empty(),
        "a path scope must not re-expose an ignored directory"
    );
    assert_eq!(
        list(None, Some("."), &[]),
        list(None, None, &[]),
        "an explicit `.` scope means the whole workspace, like no scope"
    );
}

#[test]
fn listings_are_sorted_and_cut_at_the_limit() {
    let workspace = open();
    let listing = output(b"c\0a\0b\0");
    let files = workspace.visible_files(None, None, 2, &[], &listing).unwrap();
    assert_eq!(files.paths, vec!["a", "b"]);
    assert!(files.truncated);
    let mut cut = output(b"c\0a\0b");
    cut.truncated = true;
    let files = workspace.visible_files(None, None, 9, &[], &cut).unwrap();
    assert_eq!(files.paths, vec!["a", "c"]);
    assert!(files.truncated);
}

#[test]
fn listings_fail_in_order() {
    let workspace = open();
    let fail = |glob: Option<&str>, path: Option<&str>, probes: &[PathProbe], out: &RgOutput| {
        workspace.visible_files(glob, path, 5, probes, out).unwrap_err()
    };
    let link = [PathProbe::Symlink];
    assert_eq!(fail(Some("!x"), Some("../x"), &[], &visible()).kind, FailureKind::BadGlob);
    assert_eq!(fail(None, Some("../x"), &[], &visible()).kind, FailureKind::NotRelative);
    let linked = fail(None, Some("dir"), &link, &failed("boom"));
    assert_eq!(linked.kind, FailureKind::SymbolicLink);
    assert_eq!(linked.message, "symbolic links are forbidden: /work/dir");
    let broken = fail(None, None, &[], &failed(" boom \n"));
    assert_eq!(broken.kind, FailureKind::ListingFailed);
    assert_eq!(broken.message, "ripgrep file listing failed: boom");
    assert_eq!(fail(None, None, &[], &output(b"/x\0")).kind, FailureKind::NotRelative);
}

#[test]
fn links_are_found_on_the_whole_way() {
    let workspace = open();
    assert_eq!(
        workspace.path_prefixes("a/b/c.txt").unwrap(),
        vec!["/work/a", "/work/a/b", "/work/a/b/c.txt"]
    );
    let check = |allow_missing: bool, probes: Vec<PathProbe>| {
        workspace.validate_no_symlink_prefix("a/b", allow_missing, &probes)
    };
    assert_eq!(check(false, entries(2)).unwrap(), "/work/a/b");
    let linked = check(false, vec![PathProbe::Entry, PathProbe::Symlink]).unwrap_err();
    assert_eq!(linked.message, "symbolic links are forbidden: /work/a/b");
    let gone = || vec![PathProbe::Missing("not found".to_string())];
    assert_eq!(check(true, gone()).unwrap(), "/work/a/b");
    assert_eq!(check(false, gone()).unwrap_err().message, "inspect /work/a: not found");
    let denied = vec![PathProbe::Failed("denied".to_string())];
    assert_eq!(check(true, denied).unwrap_err().kind, FailureKind::Uninspectable);
    // Evidence that ends before the path does is no evidence.
    assert_eq!(check(false, entries(1)).unwrap_err().message, "inspect /work/a/b");
}

#[test]
fn new_paths_have_to_be_free() {
    let workspace = open();
    assert_eq!(workspace.root(), "/work");
    assert_eq!(workspace.state_dir(), "/work/.nuillu");
    assert_eq!(workspace.resolve_relative("a/b").unwrap(), "/work/a/b");
    assert_eq!(workspace.resolve_relative("/a").unwrap_err().kind, FailureKind::NotRelative);
    assert_eq!(workspace.validate_new_path("a", &entries(1), false).unwrap(), "/work/a");
    let taken = workspace.validate_new_path("a", &entries(1), true).unwrap_err();
    assert_eq!(taken.kind, FailureKind::DestinationExists);
    assert_eq!(taken.message, "destination already exists: a");
    let rg = RgExecutable { identity: identity("/usr/bin/rg", 1) };
    let failure = Workspace::open("/work/file".to_string(), false, rg).unwrap_err();
    assert_eq!(failure.kind, FailureKind::NotADirectory);
    assert_eq!(failure.message, "cwd is not a directory: /work/file");
}

#[test]
fn state_ignore_requires_explicit_root_rule() {
    let workspace = open();
    assert!(
        workspace.verify_state_dir_is_ignored("target/\n", &visible()).is_err(),
        "a .gitignore without a root .nuillu rule must be rejected"
    );
    assert!(workspace.verify_state_dir_is_ignored(".nuillu/\n", &visible()).is_ok());
    let shown = output(b"visible.txt\0.nuillu/model-set.eure\0");
    let failure = workspace.verify_state_dir_is_ignored(".nuillu/\n", &shown).unwrap_err();
    assert_eq!(
        failure.kind,
        FailureKind::StateDirVisible,
        "another ignore source must not be able to re-include .nuillu"
    );
    let failure = workspace.verify_state_dir_is_ignored(".nuillu/\n", &failed("")).unwrap_err();
    assert_eq!(failure.kind, FailureKind::ListingFailed);
    let mut cut = visible();
    cut.truncated = true;
    assert!(workspace.verify_state_dir_is_ignored(".nuillu/\n", &cut).is_err());
}

#[test]
fn search_reaches_hidden_files_but_skips_ignored_ones() {
    let stdout = format!(
        "{}\n{}\n{}\n{}\n",
        r#"{"type":"begin","data":{"path":{"text":"visible.txt"}}}"#,
        event("./visible.txt", 1, 0, "needle"),
        event("./.github/workflow.yml", 1, 0, "needle: hidden"),
        r#"{"type":"summary"}"#
    );
    let search = open().search(&search_input(None, None), &[], &output(stdout.as_bytes())).unwrap();
    let mut paths = search.matches.iter().map(|hit| hit.path.as_str()).collect::<Vec<_>>();
    paths.sort_unstable();
    assert_eq!(paths, vec![".github/workflow.yml", "visible.txt"]);
    assert!(search.matches.iter().all(|hit| hit.line == 1));
    assert_eq!(search.matches[0].column, 1);
    assert_eq!(search.matches[0].text, "needle");
    assert!(!search.truncated);
}

#[test]
fn search_glob_cannot_select_an_ignored_file() {
    let stdout = format!("{}\n", event("./visible.txt", 1, 0, "needle"));
    let search = open()
        .search(&search_input(Some("ignored.txt"), None), &[], &output(stdout.as_bytes()))
        .unwrap();
    assert!(search.matches.is_empty());
}

#[test]
fn searches_stop_at_the_limit() {
    let lines = |n: usize| {
        (0..n).map(|i| event("./a.txt", i as u64, 3, "x")).collect::<Vec<_>>().join("\n")
    };
    let workspace = open();
    let run = |n: usize| {
        workspace.search(&search_input(None, None), &[], &output(lines(n).as_bytes())).unwrap()
    };
    let full = run(SEARCH_MATCH_LIMIT);
    assert_eq!(full.matches.len(), 20);
    assert!(!full.truncated);
    assert_eq!(full.matches[19].line, 19);
    assert_eq!(full.matches[0].column, 4);
    let more = run(SEARCH_MATCH_LIMIT + 1);
    assert_eq!(more.matches.len(), 20);
    assert!(more.truncated);
    let mut cut = output(format!("{}\n{{\"type\":\"ma", event("./a.txt", 1, 0, "x")).as_bytes());
    cut.truncated = true;
    let kept = workspace.search(&search_input(None, None), &[], &cut).unwrap();
    assert_eq!(kept.matches.len(), 1);
    assert!(kept.truncated);
}

#[test]
fn matched_lines_are_cut() {
    let long = "あ".repeat(400);
    let stdout = event("./a.txt", 1, 0, &long);
    let search =
        open().search(&search_input(None, None), &[], &output(stdout.as_bytes())).unwrap();
    assert_eq!(search.matches[0].text, format!("{}…", "あ".repeat(340)));
    assert!(search.matches[0].text.len() <= 1024);
    let text = |line: &str| {
        let stdout = event("./a.txt", 1, 0, line);
        let found =
            open().search(&search_input(None, None), &[], &output(stdout.as_bytes())).unwrap();
        found.matches[0].text.clone()
    };
    assert_eq!(text(&"x".repeat(1024)), "x".repeat(1024));
    let cut = text(&"x".repeat(1025));
    assert_eq!(cut, format!("{}…", "x".repeat(1021)));
    assert_eq!(cut.len(), 1024);
}

#[test]
fn searches_fail_in_order() {
    let workspace = open();
    let fail = |input: &SearchInput, probes: &[PathProbe], out: &RgOutput| {
        workspace.search(input, probes, out).unwrap_err()
    };
    let mut empty = search_input(Some("!x"), Some("../x"));
    empty.pattern = String::new();
    assert_eq!(fail(&empty, &[], &visible()).kind, FailureKind::EmptyPattern);
    let scoped = search_input(Some("!x"), Some("../x"));
    assert_eq!(fail(&scoped, &[], &visible()).kind, FailureKind::NotRelative);
    assert_eq!(fail(&search_input(Some("!x"), None), &[], &visible()).kind, FailureKind::BadGlob);
    let plain = search_input(None, None);
    let broken = fail(&plain, &[], &failed("bad regex"));
    assert_eq!(broken.kind, FailureKind::SearchFailed);
    assert_eq!(broken.message, "ripgrep search failed: bad regex");
    assert_eq!(fail(&plain, &[], &output(b"\xff\n")).kind, FailureKind::NotUtf8);
    let bad = fail(&plain, &[], &output(b"{oops\n"));
    assert_eq!(bad.kind, FailureKind::BadEvent);
    assert!(bad.message.starts_with("decode ripgrep JSON event: "));
    let outside = event("./../x", 1, 0, "x");
    assert_eq!(fail(&plain, &[], &output(outside.as_bytes())).kind, FailureKind::NotRelative);
    let bare = br#"{"type":"match"}"#;
    assert_eq!(fail(&plain, &[], &output(bare)).message, "ripgrep match has no data");
    let unnamed = br#"{"type":"match","data":{"path":{"bytes":"/w=="}}}"#;
    assert_eq!(fail(&plain, &[], &output(unnamed)).kind, FailureKind::NonUtf8Path);
    let raw = br#"{"type":"match","data":{"path":{"text":"a"},"lines":{"bytes":"/w=="}}}"#;
    assert_eq!(fail(&plain, &[], &output(raw)).message, "ripgrep returned non-UTF-8 match text");
    // Without a word of complaint there was simply no match.
    assert!(workspace.search(&plain, &[], &failed("")).unwrap().matches.is_empty());
}

#[test]
fn events_are_read_from_their_members() {
    let line = concat(&[
        r#"{"type":"match","data":{"path":{"text":"./a"},"lines":{"text":"b\n"},"#,
        r#""line_number":7,"submatches":[{"start":3,"end":4},{"start":9}]}}"#,
    ]);
    let event = RgEvent::parse(&line).unwrap();
    assert_eq!(event.kind.as_deref(), Some("match"));
    assert!(event.has_data);
    assert_eq!(event.path.as_deref(), Some("./a"));
    assert_eq!(event.text.as_deref(), Some("b\n"));
    assert_eq!((event.line_number, event.start), (Some(7), Some(3)));

    let other = r#"{"data":{"path":{"text":5},"line_number":-1,"submatches":{"0":{"start":3}}}}"#;
    let event = RgEvent::parse(other).unwrap();
    assert!(event.kind.is_none() && event.has_data && event.path.is_none());
    assert!(event.line_number.is_none() && event.text.is_none());
    assert!(event.start.is_none(), "only a list has a first part");

    let event = RgEvent::parse("[1]").unwrap();
    assert!(event.kind.is_none() && !event.has_data);
    assert!(RgEvent::parse(r#"{"data":null}"#).unwrap().has_data);
    assert!(RgEvent::parse("{oops").unwrap_err().contains("line 1 column 2"));
}

fn concat(parts: &[&str]) -> String {
    parts.join("")
}

#[test]
fn events_take_texts_and_numbers_only() {
    let text = |value: &str| Some(JsonItem::Text(value.to_string()));
    let number = |value: u64| Some(JsonItem::Number(Some(value)));
    let read = RgEvent::from_items(
        text("match"),
        Some(JsonItem::Object),
        text("a"),
        number(2),
        Some(JsonItem::Array),
        number(0),
        text("line"),
    );
    assert_eq!((read.kind.as_deref(), read.path.as_deref()), (Some("match"), Some("a")));
    assert_eq!((read.line_number, read.start), (Some(2), Some(0)));
    assert_eq!(read.text.as_deref(), Some("line"));
    let odd = RgEvent::from_items(
        Some(JsonItem::Bool(true)),
        Some(JsonItem::Null),
        number(1),
        text("2"),
        Some(JsonItem::Object),
        number(0),
        Some(JsonItem::Number(None)),
    );
    assert!(odd.kind.is_none() && odd.has_data && odd.path.is_none());
    assert!(odd.line_number.is_none() && odd.start.is_none() && odd.text.is_none());
}

#[test]
fn matches_are_collected_from_events() {
    let hit = |path: &str, start: Option<u64>| {
        Ok(RgEvent {
            kind: Some("match".to_string()),
            has_data: true,
            path: Some(path.to_string()),
            line_number: None,
            start,
            text: Some("x\r\n".to_string()),
        })
    };
    let events = vec![hit("./src/a", Some(u64::MAX)), hit("b", None)];
    let found = collect_matches(&events, &Some("src".to_string()), None, false).unwrap();
    assert_eq!(found.matches.len(), 1);
    assert_eq!(found.matches[0].path, "src/a");
    assert_eq!((found.matches[0].line, found.matches[0].column), (0, u64::MAX));
    assert_eq!(found.matches[0].text, "x");
    let all = collect_matches(&events, &None, None, true).unwrap();
    assert_eq!(all.matches[1].column, 0);
    assert!(all.truncated);
    let broken = vec![hit("a", None), Err("why".to_string())];
    let failure = collect_matches(&broken, &None, None, false).unwrap_err();
    assert_eq!(failure.message, "decode ripgrep JSON event: why");
}

fn read(start: Option<usize>, end: Option<usize>, bytes: &[u8]) -> nuillu_code::read::ReadOutput {
    let input =
        ReadInput { path: "visible.txt".to_string(), start_line: start, end_line: end };
    open().read(&input, &entries(1), &visible(), &entries(1), &file(bytes)).unwrap()
}

#[test]
fn read_stops_at_the_line_limit_and_reports_truncation() {
    let read = read(Some(1), Some(45), visible_text().as_bytes());
    assert_eq!(read.lines.len(), READ_LINE_LIMIT);
    assert!(read.truncated);
}

#[test]
fn reads_return_the_requested_lines() {
    let text = visible_text();
    let some = read(Some(2), Some(3), text.as_bytes());
    assert_eq!(some.lines, vec!["line 1", "line 2"]);
    assert_eq!(some.start_line, 2);
    assert!(!some.truncated);
    assert_eq!(some.sha256, nuillu_code::encoding::sha256_hex(text.as_bytes()));
    let rest = read(Some(46), None, text.as_bytes());
    assert_eq!(rest.lines, vec!["line 45"]);
    assert!(!rest.truncated);
    // A request without an end that leaves lines out says so.
    assert!(read(None, None, text.as_bytes()).truncated);
    assert!(!read(Some(7), None, text.as_bytes()).truncated);
    let past = read(Some(90), Some(95), text.as_bytes());
    assert!(past.lines.is_empty());
    assert!(!past.truncated);
    let last = read(Some(usize::MAX), None, text.as_bytes());
    assert!(last.lines.is_empty());
}

#[test]
fn reads_stop_at_the_byte_limit() {
    let line = "x".repeat(READ_BYTE_LIMIT / 2);
    let text = format!("{line}\n{line}\ny\n");
    let read = read(None, None, text.as_bytes());
    assert_eq!(read.lines.len(), 2);
    assert!(read.truncated);
}

#[test]
fn read_rejects_ignored_files() {
    let input = ReadInput { path: "ignored.txt".to_owned(), start_line: None, end_line: None };
    let failure = open()
        .read(&input, &entries(1), &visible(), &entries(1), &file(b"needle\n"))
        .unwrap_err();
    assert_eq!(failure.kind, FailureKind::Hidden);
}

#[test]
fn read_rejects_a_symlink_to_a_visible_file() {
    let input = ReadInput { path: "linked.txt".to_owned(), start_line: None, end_line: None };
    let failure = open()
        .read(&input, &[PathProbe::Symlink], &visible(), &entries(1), &file(b"needle\n"))
        .unwrap_err();
    assert_eq!(failure.kind, FailureKind::SymbolicLink);
    // A link that takes the file's place after the listing is noticed too.
    let input = ReadInput { path: "visible.txt".to_owned(), start_line: None, end_line: None };
    let failure = open()
        .read(&input, &entries(1), &visible(), &[PathProbe::Symlink], &file(b"needle\n"))
        .unwrap_err();
    assert_eq!(failure.kind, FailureKind::SymbolicLink);
}

#[test]
fn reads_fail_in_order() {
    let fail = |start: Option<usize>, end: Option<usize>, listing: &RgOutput, file: FileEvidence| {
        let input =
            ReadInput { path: "visible.txt".to_string(), start_line: start, end_line: end };
        open().read(&input, &entries(1), listing, &entries(1), &file).unwrap_err()
    };
    let mut cut = visible();
    cut.truncated = true;
    assert_eq!(fail(None, None, &cut, file(b"")).kind, FailureKind::ListingTooLong);
    assert_eq!(fail(None, None, &failed("no"), file(b"")).kind, FailureKind::ListingFailed);
    let mut directory = file(b"");
    directory.is_file = false;
    assert_eq!(fail(None, None, &visible(), directory).kind, FailureKind::NotAFile);
    let mut large = file(b"");
    large.len = MAX_READ_FILE_BYTES + 1;
    assert_eq!(fail(None, None, &visible(), large).kind, FailureKind::TooLarge);
    assert_eq!(fail(None, None, &visible(), file(b"a\0b")).kind, FailureKind::Binary);
    assert_eq!(fail(None, None, &visible(), file(b"\xff")).kind, FailureKind::NotUtf8);
    let range = fail(Some(0), Some(1), &visible(), file(b"a"));
    assert_eq!(range.kind, FailureKind::BadRange);
    assert_eq!(range.message, "start_line is one-based");
    let range = fail(Some(3), Some(2), &visible(), file(b"a"));
    assert_eq!(range.message, "end_line must not precede start_line");
}

#[test]
fn patched_files_are_visible_text() {
    let workspace = open();
    let take = |file: &FileEvidence| {
        workspace.read_visible_bytes("visible.txt", &entries(1), &visible(), &entries(1), file)
    };
    assert_eq!(take(&file(b"abc")).unwrap(), b"abc");
    assert_eq!(take(&file(b"\xff")).unwrap_err().kind, FailureKind::Binary);
    assert_eq!(
        take(&file(b"a\0")).unwrap_err().message,
        "binary or non-UTF-8 files are forbidden"
    );
}

#[test]
fn executables_are_taken_from_outside_and_watched() {
    let discover = |found: Option<ExecutableProbe>, again: &ExecutableProbe, banner: &[u8]| {
        RgExecutable::discover("/work", found, again, true, banner)
    };
    let here = probe("/usr/bin/rg", 10);
    let none = discover(None, &here, b"ripgrep 1").unwrap_err();
    assert_eq!(none.kind, FailureKind::MissingExecutable);
    assert_eq!(none.message, "find `rg` in PATH");
    let inside = discover(Some(probe("/work/bin/rg", 10)), &here, b"ripgrep 1").unwrap_err();
    assert_eq!(inside.kind, FailureKind::ExecutableInside);
    let mut directory = probe("/usr/bin/rg", 10);
    directory.is_file = false;
    assert_eq!(discover(Some(directory), &here, b"").unwrap_err().kind, FailureKind::NotAFile);
    let changed = discover(Some(probe("/usr/bin/rg", 11)), &here, b"ripgrep 1").unwrap_err();
    assert_eq!(changed.kind, FailureKind::ExecutableChanged);
    let other = discover(Some(probe("/usr/bin/rg", 10)), &here, b"grep").unwrap_err();
    assert_eq!(other.kind, FailureKind::NotRipgrep);
    let rg = discover(Some(probe("/usr/bin/rg", 10)), &here, b"ripgrep 14").unwrap();
    assert!(rg.revalidate(&here).is_ok());
    let mut touched = probe("/usr/bin/rg", 10);
    touched.identity.modified = None;
    assert_eq!(rg.revalidate(&touched).unwrap_err().kind, FailureKind::ExecutableChanged);
    assert!(reports_ripgrep(b"ripgrep 14"));
    assert!(!reports_ripgrep(b"ripgrep"));
}

#[test]
fn repository_local_git_executable_is_rejected_and_identity_is_revalidated() {
    let executable = GitExecutable::discover(Some(probe("/repo/git", 5))).unwrap();
    assert!(executable.reject_inside("/repo").is_err());
    assert!(executable.reject_inside("/other").is_ok());
    assert!(executable.revalidate(&probe("/repo/git", 5)).is_ok());
    assert!(executable.revalidate(&probe("/repo/git", 16)).is_err());
    assert_eq!(GitExecutable::discover(None).unwrap_err().message, "find git in PATH");
}

#[test]
fn ripgrep_runs_with_fixed_arguments() {
    let listing = files_args();
    assert_eq!(
        listing,
        vec![
            "--no-config",
            "--no-require-git",
            "--hidden",
            "--path-separator",
            "/",
            "--glob",
            "!.git/**",
            "--glob",
            "!**/.nuillu-code-*.tmp",
            "--files",
            "--null",
        ]
    );
    let search = search_args("--pre=evil");
    assert_eq!(search[9..], ["--json", "--", "--pre=evil", "."]);
}

#[test]
fn outputs_are_kept_up_to_their_limits() {
    assert_eq!(read_limited(b"abcd", 3), (b"abc".to_vec(), true));
    assert_eq!(read_limited(b"abc", 3), (b"abc".to_vec(), false));
    let long = vec![b'x'; RG_OUTPUT_BYTE_LIMIT + 1];
    let kept = RgOutput::collect(true, &long, b"", RG_OUTPUT_BYTE_LIMIT);
    assert_eq!(kept.stdout.len(), RG_OUTPUT_BYTE_LIMIT);
    assert!(kept.truncated);
    let noisy = RgOutput::collect(false, b"", &vec![b'y'; 16385], 5);
    assert_eq!(noisy.stderr.len(), 16384);
    assert!(noisy.truncated);
    let report = RgOutput::collect(false, b"", b" caf\xff\n", 5);
    assert_eq!(report.stderr_text(), "caf\u{fffd}");
}

#[test]
fn tool_answers_hold_a_result_or_an_error() {
    let good = WorkspaceToolOutput::success(5u8);
    assert!(good.ok && good.result == Some(5) && good.error.is_none());
    let bad: WorkspaceToolOutput<u8> = WorkspaceToolOutput::failure("no".to_string());
    assert!(!bad.ok && bad.result.is_none() && bad.error.as_deref() == Some("no"));
}
