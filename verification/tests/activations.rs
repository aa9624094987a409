use nuillu_code::edit::{PatchInput, PatchOperation, PatchOutput, Replacement};
use nuillu_code::faculty::{
    activation_prompt, claim_call, duplicate_failure, files_experience_memo, observe_files,
    observe_patch, observe_read, observe_search, patch_experience_memo, quoted_path,
    read_experience_memo, search_experience_memo, system_prompt, Activation, FacultyCall,
    FilesInput, Turn, TurnAction, WorkspaceTools,
};
use nuillu_code::failure::{Failure, FailureKind};
use nuillu_code::listing::FileList;
use nuillu_code::read::{ReadInput, ReadOutput};
use nuillu_code::search::{SearchInput, SearchMatch, SearchOutput};

fn files_call(arguments: &str) -> WorkspaceTools {
    let value: serde_json::Value =
        serde_json::from_str(arguments).expect("decode tool arguments");
    let text = |name: &str| value.get(name).and_then(|v| v.as_str()).map(String::from);
    WorkspaceTools::Files(FilesInput { glob: text("glob"), path: text("path") })
}

/// Keying on the raw argument text would let the model repeat one call
/// simply by respelling its JSON, so the key is the decoded value.
#[test]
fn one_call_spelled_three_ways_is_still_one_call() {
    let mut issued = Vec::new();
    let accepted = [
        r#"{"path":"src","glob":null}"#,
        r#"{"glob":null,"path":"src"}"#,
        r#"{ "path" : "src" }"#,
    ]
    .into_iter()
    .filter(|arguments| claim_call(&mut issued, files_call(arguments)))
    .count();
    assert_eq!(accepted, 1);

    assert!(
        claim_call(&mut issued, files_call(r#"{"path":"tests"}"#)),
        "a genuinely different call must still be allowed"
    );
}

#[test]
fn tool_experience_memos_are_short_semantic_observations() {
    let search = search_experience_memo(
        &SearchInput {
            pattern: "secret needle".to_owned(),
            path: Some("src".to_owned()),
            glob: None,
        },
        &SearchOutput {
            matches: vec![SearchMatch {
                path: "src/lib.rs".to_owned(),
                line: 1,
                column: 1,
                text: "untrusted project contents".to_owned(),
            }],
            truncated: false,
        },
    );
    assert_eq!(search, "I searched visible workspace text under \"src\" and found 1 match.");
    assert!(!search.contains("secret needle"));
    assert!(!search.contains("untrusted project contents"));

    let patch = patch_experience_memo(&PatchOutput {
        applied: true,
        rejected: false,
        changed_paths: vec!["src/lib.rs".to_owned()],
        message: "untrusted message".to_owned(),
    });
    assert_eq!(patch, "I applied a code patch that changed 1 workspace path: \"src/lib.rs\".");
    assert!(!patch.contains("untrusted purpose"));
    assert!(!patch.contains("untrusted message"));
}

fn patch_call(old: &str) -> WorkspaceTools {
    WorkspaceTools::Patch(PatchInput {
        purpose: "p".to_string(),
        operations: vec![
            PatchOperation::Update {
                path: "a".to_string(),
                preimage_sha256: "h".to_string(),
                replacements: vec![Replacement {
                    old: old.to_string(),
                    new: "n".to_string(),
                    expected_occurrences: 1,
                }],
            },
            PatchOperation::Create { path: "b".to_string(), content: "c".to_string() },
            PatchOperation::Delete { path: "d".to_string(), preimage_sha256: "h".to_string() },
            PatchOperation::Rename {
                from: "f".to_string(),
                to: "t".to_string(),
                preimage_sha256: "h".to_string(),
            },
        ],
    })
}

fn read_call(start_line: Option<usize>) -> WorkspaceTools {
    WorkspaceTools::Read(ReadInput { path: "a".to_string(), start_line, end_line: None })
}

fn search_call(pattern: &str) -> WorkspaceTools {
    WorkspaceTools::Search(SearchInput { pattern: pattern.to_string(), glob: None, path: None })
}

#[test]
fn calls_are_compared_by_value() {
    let mut issued = Vec::new();
    assert!(claim_call(&mut issued, patch_call("x")));
    assert!(!claim_call(&mut issued, patch_call("x")));
    assert!(claim_call(&mut issued, patch_call("y")));
    assert!(claim_call(&mut issued, read_call(None)));
    assert!(claim_call(&mut issued, read_call(Some(1))));
    assert!(!claim_call(&mut issued, read_call(Some(1))));
    assert!(claim_call(&mut issued, search_call("x")));
    assert!(!claim_call(&mut issued, search_call("x")));
    assert_eq!(issued.len(), 5);
}

#[test]
fn memos_count_and_quote() {
    let list = |n: usize, truncated: bool| FileList {
        paths: (0..n).map(|i| format!("f{i}")).collect(),
        truncated,
    };
    let input = |path: Option<&str>| FilesInput { glob: None, path: path.map(String::from) };
    assert_eq!(
        files_experience_memo(&input(None), &list(1, false)),
        "I listed 1 visible workspace file under \".\"."
    );
    assert_eq!(
        files_experience_memo(&input(Some("a\"b\n")), &list(0, true)),
        "I listed 0 visible workspace files under \"a\\\"b\\n\"; the result was truncated."
    );
    // No path and the root are observed alike.
    assert_eq!(
        files_experience_memo(&input(None), &list(2, true)),
        files_experience_memo(&input(Some(".")), &list(2, true))
    );
    let searched = |path: Option<&str>, pattern: &str| {
        let input = SearchInput {
            pattern: pattern.to_owned(),
            glob: None,
            path: path.map(String::from),
        };
        search_experience_memo(&input, &SearchOutput { matches: vec![], truncated: true })
    };
    assert_eq!(searched(None, "a"), searched(Some("."), "b"));
    assert_eq!(
        searched(None, "a"),
        "I searched visible workspace text under \".\" and found 0 matches; the result was truncated."
    );
    let read = ReadOutput {
        path: "a.rs".to_string(),
        sha256: String::new(),
        start_line: 7,
        lines: vec!["secret".to_string()],
        truncated: true,
    };
    assert_eq!(
        read_experience_memo(&read),
        "I read 1 lines from \"a.rs\", starting at line 7; the result was truncated."
    );
    assert_eq!(quoted_path(&"x".repeat(300)), format!("\"{}…\"", "x".repeat(240)));
    assert_eq!(quoted_path("a\u{1}\\"), "\"a\\u0001\\\\\"");
    let patch = |n: usize| PatchOutput {
        applied: true,
        rejected: false,
        changed_paths: (0..n).map(|i| i.to_string()).collect(),
        message: String::new(),
    };
    assert_eq!(
        patch_experience_memo(&patch(10)),
        "I applied a code patch that changed 10 workspace paths: \
         \"0\", \"1\", \"2\", \"3\", \"4\", \"5\", \"6\", \"7\", and 2 more."
    );
    let mut rejected = patch(0);
    rejected.applied = false;
    assert_eq!(
        patch_experience_memo(&rejected),
        "My code patch completed without changing the workspace."
    );
    rejected.rejected = true;
    assert_eq!(
        patch_experience_memo(&rejected),
        "I proposed a code patch, and the user rejected it without changing the workspace."
    );
}

#[test]
fn every_result_is_observed_once() {
    let failure = || Failure { kind: FailureKind::Hidden, message: "secret reason".to_string() };
    let input = FilesInput { glob: None, path: None };
    let (memo, answer) = observe_files(&input, Err(failure()));
    assert_eq!(memo, "My `files` workspace tool attempt failed; I observed no successful result.");
    assert!(!answer.ok);
    assert_eq!(answer.error.as_deref(), Some("secret reason"));
    let (memo, answer) =
        observe_files(&input, Ok(FileList { paths: vec!["a".to_string()], truncated: false }));
    assert_eq!(memo, "I listed 1 visible workspace file under \".\".");
    assert_eq!(answer.result.unwrap().paths, vec!["a"]);
    let search = SearchInput { pattern: "x".to_string(), glob: None, path: None };
    assert!(observe_search(&search, Err(failure())).0.contains("`search`"));
    assert!(observe_read(Err(failure())).0.contains("`read`"));
    assert!(observe_patch(Err(failure())).0.contains("`patch`"));
    assert!(!observe_patch(Err(failure())).0.contains("secret reason"));
}

fn turn(call: WorkspaceTools) -> Turn {
    Turn::Called(vec![FacultyCall::Workspace(call)])
}

#[test]
fn an_activation_is_bounded() {
    let mut activation = Activation::new();
    assert_eq!(activation.offered().len(), 6);
    assert!(activation.notice().is_none());
    for i in 0..11 {
        let action = activation.take_turn(turn(read_call(Some(i)))).unwrap();
        assert!(matches!(action, TurnAction::Run));
        assert!(matches!(
            activation.current(),
            Some(WorkspaceTools::Read(ReadInput { start_line, .. })) if *start_line == Some(i)
        ));
    }
    let again = activation.take_turn(turn(read_call(Some(3)))).unwrap();
    assert!(matches!(again, TurnAction::RefuseDuplicate), "a duplicate uses the budget up too");
    assert!(!activation.available());
    assert_eq!(activation.offered(), vec!["publish_finding", "leave_finding_unchanged"]);
    assert!(activation.notice().unwrap().starts_with("The workspace tool budget is exhausted."));
    let over = activation.take_turn(turn(read_call(Some(99)))).unwrap_err();
    assert_eq!(over.kind, FailureKind::BudgetExhausted);
    assert!(activation.finished);
    assert_eq!(
        duplicate_failure().message,
        "duplicate tool call rejected; use the evidence already returned"
    );
}

#[test]
fn an_activation_ends_with_a_finding_or_without() {
    let mut activation = Activation::new();
    let finding = Turn::Called(vec![FacultyCall::PublishFinding(" done \n".to_string())]);
    match activation.take_turn(finding).unwrap() {
        TurnAction::Publish(Some(memo)) => assert_eq!(memo, "done"),
        other => panic!("{other:?}"),
    }
    assert!(activation.finished);
    let mut activation = Activation::new();
    let empty = Turn::Called(vec![FacultyCall::PublishFinding(" ".to_string())]);
    assert!(matches!(activation.take_turn(empty), Ok(TurnAction::Publish(None))));
    let mut activation = Activation::new();
    let leave = Turn::Called(vec![FacultyCall::LeaveFindingUnchanged("chat".to_string())]);
    assert!(matches!(activation.take_turn(leave), Ok(TurnAction::Leave)));
    let mut activation = Activation::new();
    let silent = activation.take_turn(Turn::Finished).unwrap_err();
    assert_eq!(silent.kind, FailureKind::NoToolCall);
    let mut activation = Activation::new();
    let two = Turn::Called(vec![
        FacultyCall::Workspace(read_call(None)),
        FacultyCall::Workspace(read_call(Some(1))),
    ]);
    assert_eq!(activation.take_turn(two).unwrap_err().kind, FailureKind::ManyToolCalls);
    assert!(activation.finished);
}

#[test]
fn prompts_list_the_tools() {
    let tools = vec![
        ("files".to_string(), "List files.".to_string()),
        ("read".to_string(), "Read lines.".to_string()),
    ];
    let prompt = system_prompt(&tools);
    assert!(prompt.starts_with("You are the single `code` module."));
    assert!(prompt.ends_with("\n\nTools:\n- `files`: List files.\n- `read`: Read lines."));
    assert_eq!(
        activation_prompt("hello"),
        "hello\n\nHandle this user-originated cognition as one bounded coding turn."
    );
}
