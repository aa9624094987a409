use std::collections::{BTreeMap, BTreeSet};

use nuillu_code::diff::{render_diff, Change, PreparedOperation, PATCH_DIFF_BYTE_LIMIT};
use nuillu_code::edit::{
    apply_replacements, claim_path, text_bytes, validate_hash, verify_hash, PatchInput,
    PatchOperation, PatchOutput, Replacement,
};
use nuillu_code::encoding::sha256_hex;
use nuillu_code::executable::{ExecutableIdentity, RgExecutable, RgOutput};
use nuillu_code::failure::{Failure, FailureKind};
use nuillu_code::panel::{PatchLogKind, PatchPanel};
use nuillu_code::patch::{
    claim_operation, validate_input, CallStage, OperationEvidence, PatchCall, PatchDecision,
    PatchExecutor, PatchGate, PatchUiEvent, PendingPatch, SourceEvidence, TargetEvidence,
};
use nuillu_code::read::FileEvidence;
use nuillu_code::transaction::{
    created_directories, parent_directories, snapshots, Occupant, Reply, Stage, Step, Transaction,
};
use nuillu_code::workspace::{PathProbe, Workspace};

fn workspace() -> Workspace {
    let identity = ExecutableIdentity {
        canonical_path: "/usr/bin/rg".to_string(),
        len: 1,
        modified: None,
        device: 1,
        inode: 1,
    };
    Workspace::open("/work".to_string(), true, RgExecutable { identity }).unwrap()
}

/// Files in memory, and a directory that the ignore rules hide.
struct Disk {
    files: BTreeMap<String, Vec<u8>>,
    directories: BTreeSet<String>,
    hidden: &'static str,
    /// A path at which every write fails.
    broken: &'static str,
}

impl Disk {
    fn new(files: &[(&str, &str)]) -> Disk {
        Disk {
            files: files
                .iter()
                .map(|(path, text)| (path.to_string(), text.as_bytes().to_vec()))
                .collect(),
            directories: BTreeSet::new(),
            hidden: "generated/",
            broken: "-",
        }
    }

    fn probes(&self, path: &str) -> Vec<PathProbe> {
        let segments = path.split('/').count();
        let mut probes = Vec::new();
        for n in 1..=segments {
            let prefix = path.split('/').take(n).collect::<Vec<_>>().join("/");
            let below = format!("{prefix}/");
            let there = self.files.keys().any(|file| *file == prefix || file.starts_with(&below))
                || self.directories.contains(&prefix);
            probes.push(if there {
                PathProbe::Entry
            } else {
                PathProbe::Missing("not found".to_string())
            });
        }
        probes
    }

    fn listing(&self) -> RgOutput {
        let mut stdout = Vec::new();
        for path in self.files.keys().filter(|path| !path.starts_with(self.hidden)) {
            stdout.extend_from_slice(path.as_bytes());
            stdout.push(0);
        }
        RgOutput { success: true, stdout, stderr: Vec::new(), truncated: false }
    }

    fn source(&self, path: &str) -> Option<SourceEvidence> {
        let bytes = self.files.get(path).cloned().unwrap_or_default();
        Some(SourceEvidence {
            probes: self.probes(path),
            listing: self.listing(),
            again: self.probes(path),
            file: FileEvidence {
                is_file: self.files.contains_key(path),
                len: bytes.len() as u64,
                bytes,
            },
        })
    }

    fn target(&self, path: &str) -> Option<TargetEvidence> {
        Some(TargetEvidence {
            probes: self.probes(path),
            exists: self.files.contains_key(path),
        })
    }

    fn evidence(&self, input: &PatchInput) -> Vec<OperationEvidence> {
        input
            .operations
            .iter()
            .map(|operation| match operation {
                PatchOperation::Create { path, .. } => {
                    OperationEvidence { source: None, target: self.target(path) }
                }
                PatchOperation::Update { path, .. } | PatchOperation::Delete { path, .. } => {
                    OperationEvidence { source: self.source(path), target: None }
                }
                PatchOperation::Rename { from, to, .. } => {
                    OperationEvidence { source: self.source(from), target: self.target(to) }
                }
            })
            .collect()
    }

    fn write(&mut self, path: &str, bytes: Vec<u8>) -> Reply {
        if path == self.broken {
            return Reply::Failed("disk is full".to_string());
        }
        for directory in parent_directories(path) {
            self.directories.insert(directory);
        }
        self.files.insert(path.to_string(), bytes);
        Reply::Done
    }

    fn perform(&mut self, step: Step<String, Vec<u8>>) -> Reply {
        match step {
            Step::Create { path, bytes } | Step::Replace { path, bytes } => {
                self.write(&path, bytes)
            }
            Step::InspectSource { path } => Reply::Inspected(self.probes(&path)),
            Step::InspectRename { from, to } => Reply::InspectedRename {
                source: self.probes(&from),
                target: self.probes(&to),
                exists: self.files.contains_key(&to),
            },
            Step::Delete { path } | Step::Unlink { path } | Step::Remove { path } => {
                self.files.remove(&path);
                Reply::Done
            }
            Step::Link { from, to } => {
                let bytes = self.files[&from].clone();
                self.write(&to, bytes)
            }
            Step::CheckVisible { path } => {
                Reply::Listed { probes: self.probes(&path), output: self.listing() }
            }
            Step::InspectUndo { path } => Reply::Found(if self.files.contains_key(&path) {
                Occupant::RegularFile
            } else {
                Occupant::Nothing
            }),
            Step::RemoveDirectory { path } => {
                if self.directories.remove(&path) {
                    Reply::Done
                } else {
                    Reply::Missing
                }
            }
            Step::Finished => panic!("nothing is left to do"),
        }
    }

    /// Carries prepared operations out.
    fn apply(&mut self, operations: Vec<PreparedOperation>) -> Result<Vec<String>, Failure> {
        let workspace = workspace();
        let existing = self.directories.iter().cloned().collect::<Vec<_>>();
        let mut transaction = Transaction::begin(operations, &existing);
        loop {
            let step = transaction.step();
            if matches!(step, Step::Finished) {
                return transaction.result().unwrap();
            }
            let reply = self.perform(step);
            transaction.answer(&workspace, reply);
        }
    }

    /// Runs a whole patch call.
    fn execute(
        &mut self,
        gate: &PatchGate,
        input: &PatchInput,
        decision: Option<PatchDecision>,
    ) -> (PatchCall, Result<PatchOutput, Failure>) {
        let executor = PatchExecutor::new(workspace());
        let mut call = PatchCall::new();
        call.propose(&executor, gate, input, &self.evidence(input));
        if call.stage == CallStage::Asking {
            call.decide(decision);
        }
        if call.stage == CallStage::Renewing {
            call.renew(&executor, input, &self.evidence(input));
        }
        if call.stage == CallStage::Applying {
            let result = self.apply(call.take_operations());
            call.conclude(result);
        }
        let answer = call.answer.take().unwrap();
        (call, answer)
    }
}

fn writing() -> PatchGate {
    let mut gate = PatchGate::new();
    gate.set_write_enabled(true);
    gate
}

fn update(path: &str, seen: &str, old: &str, new: &str) -> PatchOperation {
    PatchOperation::Update {
        path: path.to_string(),
        preimage_sha256: sha256_hex(seen.as_bytes()),
        replacements: vec![Replacement {
            old: old.to_string(),
            new: new.to_string(),
            expected_occurrences: 1,
        }],
    }
}

fn input(purpose: &str, operations: Vec<PatchOperation>) -> PatchInput {
    PatchInput { purpose: purpose.to_string(), operations }
}

fn delete(path: &str, seen: &str) -> PatchOperation {
    PatchOperation::Delete { path: path.to_string(), preimage_sha256: sha256_hex(seen.as_bytes()) }
}

fn create(path: &str, content: &str) -> PatchOperation {
    PatchOperation::Create { path: path.to_string(), content: content.to_string() }
}

fn rename(from: &str, to: &str, seen: &str) -> PatchOperation {
    PatchOperation::Rename {
        from: from.to_string(),
        to: to.to_string(),
        preimage_sha256: sha256_hex(seen.as_bytes()),
    }
}

#[test]
fn replacements_require_exact_occurrence_count() {
    let replacement = Replacement {
        old: "one".to_owned(),
        new: "two".to_owned(),
        expected_occurrences: 1,
    };
    assert_eq!(
        apply_replacements("x", b"one\n", std::slice::from_ref(&replacement)).unwrap(),
        b"two\n"
    );
    assert!(apply_replacements("x", b"one one", &[replacement]).is_err());
}

#[test]
fn replacements_follow_each_other_and_say_why_not() {
    let replace = |old: &str, new: &str, n: usize| Replacement {
        old: old.to_string(),
        new: new.to_string(),
        expected_occurrences: n,
    };
    let chained = [replace("a", "b", 2), replace("b", "あ", 3)];
    assert_eq!(apply_replacements("x", b"aab", &chained).unwrap(), "あああ".as_bytes());
    let fail = |bytes: &[u8], list: &[Replacement]| apply_replacements("x", bytes, list).unwrap_err();
    assert_eq!(fail(b"a", &[]).kind, FailureKind::NoReplacement);
    assert_eq!(fail(b"\xff", &[replace("a", "b", 1)]).kind, FailureKind::NotUtf8);
    assert_eq!(fail(b"a", &[replace("", "b", 1)]).kind, FailureKind::BadReplacement);
    assert_eq!(fail(b"a", &[replace("a", "b", 0)]).kind, FailureKind::BadReplacement);
    let wrong = fail(b"aa", &[replace("a", "b", 1)]);
    assert_eq!(wrong.kind, FailureKind::WrongOccurrences);
    assert_eq!(wrong.message, "replacement in x expected 1 occurrences but found 2");
    assert_eq!(fail(b"a", &[replace("a", "\0", 1)]).kind, FailureKind::NulByte);
}

#[test]
fn duplicate_transaction_paths_are_rejected() {
    let mut disk = Disk::new(&[("a.txt", "old\n")]);
    let input = input(
        "touch one path twice",
        vec![update("a.txt", "old\n", "old", "changed"), delete("a.txt", "old\n")],
    );
    let (_, answer) = disk.execute(&writing(), &input, None);
    assert_eq!(answer.unwrap_err().kind, FailureKind::DuplicatePath);
    assert_eq!(disk.files["a.txt"], b"old\n");
}

/// A whole-file dump would push the change past the display limit, so the user would approve a
/// patch they cannot see.
#[test]
fn render_diff_shows_only_the_changed_region_of_a_large_file() {
    let mut before = (1..=4000).map(|line| format!("line {line}")).collect::<Vec<_>>();
    let mut after = before.clone();
    // The only change sits at the very end of the file.
    after[3999] = "line 4000 CHANGED".to_owned();
    before.push(String::new());
    after.push(String::new());

    let diff = render_diff(&[Change::Update {
        path: "big.txt".to_owned(),
        before: before.join("\n").into_bytes(),
        after: after.join("\n").into_bytes(),
    }]);

    assert!(diff.starts_with("--- big.txt\n+++ big.txt\n"));
    assert!(
        !diff.contains("... diff display truncated ..."),
        "a one-line change must not overflow the display limit"
    );
    assert!(diff.contains("-line 4000\n"));
    assert!(diff.contains("+line 4000 CHANGED\n"));
    assert!(diff.contains(" line 3997\n"), "context must be shown");
    assert!(!diff.contains("line 100\n"), "unchanged regions must not be dumped");
}

#[test]
fn render_diff_handles_pure_insertion_and_deletion() {
    let inserted = render_diff(&[Change::Update {
        path: "a.txt".to_owned(),
        before: b"one\ntwo\n".to_vec(),
        after: b"one\nmiddle\ntwo\n".to_vec(),
    }]);
    assert!(inserted.contains("+middle\n"));
    assert!(!inserted.contains("-one\n"));

    let removed = render_diff(&[Change::Update {
        path: "a.txt".to_owned(),
        before: b"one\nmiddle\ntwo\n".to_vec(),
        after: b"one\ntwo\n".to_vec(),
    }]);
    assert!(removed.contains("-middle\n"));
    assert!(!removed.contains("+one\n"));
}

#[test]
fn every_change_is_shown() {
    let diff = render_diff(&[
        Change::Create { path: "n".to_string(), after: b"x\ny".to_vec() },
        Change::Update { path: "u".to_string(), before: b"1\n2\n".to_vec(), after: b"1\n3\n".to_vec() },
        Change::Delete { path: "d".to_string(), before: b"z\n".to_vec() },
        Change::Rename { from: "f".to_string(), to: "t".to_string(), before: b"q".to_vec() },
    ]);
    assert_eq!(
        diff,
        "--- /dev/null\n+++ n\n+x\n+y\n--- u\n+++ u\n@@ -1,2 +1,2 @@\n 1\n-2\n+3\n\
         --- d\n+++ /dev/null\n-z\nrename from f\nrename to t\n"
    );
    let large = render_diff(&[Change::Create {
        path: "n".to_string(),
        after: vec![b'x'; PATCH_DIFF_BYTE_LIMIT],
    }]);
    assert!(large.ends_with("\n... diff display truncated ...\n"));
    assert_eq!(large.len(), PATCH_DIFF_BYTE_LIMIT + "\n... diff display truncated ...\n".len());
}

#[test]
fn a_stale_preimage_is_rejected() {
    let mut disk = Disk::new(&[("a.txt", "old\n")]);
    let input = input(
        "update from a stale read",
        vec![update("a.txt", "what the model last read\n", "old", "new")],
    );
    let (_, answer) = disk.execute(&writing(), &input, None);
    let failure = answer.unwrap_err();
    assert_eq!(failure.kind, FailureKind::StalePreimage);
    assert_eq!(failure.message, "preimage hash mismatch for a.txt; read the file again");
    assert_eq!(disk.files["a.txt"], b"old\n");
    assert!(
        validate_hash("not-a-sha256").is_err(),
        "a malformed hash is rejected before the file is read"
    );
}

#[test]
fn hashes_are_checked_in_either_case() {
    let hash = sha256_hex(b"x");
    assert!(validate_hash(&hash).is_ok());
    assert!(verify_hash("p", b"x", &hash.to_uppercase()).is_ok());
    assert!(verify_hash("p", b"y", &hash).is_err());
    assert_eq!(validate_hash(&hash[1..]).unwrap_err().kind, FailureKind::BadHash);
    assert_eq!(validate_hash(&"é".repeat(32)).unwrap_err().kind, FailureKind::BadHash);
    assert_eq!(text_bytes("a\0").unwrap_err().message, "NUL bytes are forbidden");
    assert_eq!(text_bytes("é").unwrap(), "é".as_bytes());
}

#[test]
fn paths_are_claimed_once_in_any_case() {
    let mut claimed = Vec::new();
    assert!(claim_path(&mut claimed, "src/A.rs").is_ok());
    assert!(claim_path(&mut claimed, "src/b.rs").is_ok());
    let failure = claim_path(&mut claimed, "SRC/a.rs").unwrap_err();
    assert_eq!(failure.kind, FailureKind::DuplicatePath);
    assert_eq!(failure.message, "a path may occur only once per transaction: SRC/a.rs");
    let mut claimed = Vec::new();
    assert!(claim_operation(&mut claimed, &rename("a", "A", "x")).is_err());
    let mut claimed = Vec::new();
    let malformed = PatchOperation::Delete { path: "a".to_string(), preimage_sha256: String::new() };
    assert_eq!(claim_operation(&mut claimed, &malformed).unwrap_err().kind, FailureKind::BadHash);
}

#[test]
fn patches_have_a_purpose_and_a_bounded_size() {
    let many = |n: usize| (0..n).map(|i| create(&format!("f{i}"), "x")).collect::<Vec<_>>();
    assert!(validate_input(&input("p", many(32))).is_ok());
    let size = validate_input(&input("p", many(33))).unwrap_err();
    assert_eq!(size.kind, FailureKind::BadPatchSize);
    assert_eq!(size.message, "patch must contain between 1 and 32 operations");
    assert_eq!(validate_input(&input("p", vec![])).unwrap_err().kind, FailureKind::BadPatchSize);
    let purpose = validate_input(&input(" \n", many(1))).unwrap_err();
    assert_eq!(purpose.kind, FailureKind::EmptyPurpose);
}

#[test]
fn operations_are_prepared_on_what_is_there() {
    let disk = Disk::new(&[("a.txt", "old\n"), ("b.txt", "b\n")]);
    let executor = PatchExecutor::new(workspace());
    let prepare = |operations: Vec<PatchOperation>| {
        let input = input(" why ", operations);
        executor.prepare(&input, &disk.evidence(&input))
    };
    let patch = prepare(vec![
        update("a.txt", "old\n", "old", "new"),
        rename("b.txt", "c/b.txt", "b\n"),
        create("n.txt", "n"),
    ])
    .unwrap();
    assert_eq!(patch.purpose, "why");
    assert_eq!(patch.operations.len(), 3);
    assert!(patch.diff.contains("-old\n+new\n"));
    match &patch.operations[1] {
        Change::Rename { from, to, before } => {
            assert_eq!((from.as_str(), to.as_str(), before.as_slice()), ("b.txt", "c/b.txt", &b"b\n"[..]));
        }
        other => panic!("{other:?}"),
    }
    let kind = |operations: Vec<PatchOperation>| prepare(operations).unwrap_err().kind;
    assert_eq!(kind(vec![create("a.txt", "x")]), FailureKind::DestinationExists);
    assert_eq!(kind(vec![create("../x", "x")]), FailureKind::NotRelative);
    assert_eq!(kind(vec![create("x", "\0")]), FailureKind::NulByte);
    assert_eq!(kind(vec![rename("a.txt", "b.txt", "old\n")]), FailureKind::DestinationExists);
    assert_eq!(kind(vec![delete("gone.txt", "")]), FailureKind::Uninspectable);
    let unseen = executor.prepare(&input("p", vec![create("x", "x")]), &[]).unwrap_err();
    assert_eq!(unseen.message, "inspect x");
}

#[test]
fn a_failed_operation_rolls_the_whole_transaction_back() {
    let mut disk = Disk::new(&[("a.txt", "old\n")]);
    // The second operation lands on an ignored path, which fails after the first operation has
    // already been written.
    let input = input(
        "exercise rollback",
        vec![
            update("a.txt", "old\n", "old", "changed"),
            create("generated/ignored.txt", "must roll back\n"),
        ],
    );
    let (call, answer) = disk.execute(&writing(), &input, None);
    let failure = answer.unwrap_err();
    assert_eq!(failure.kind, FailureKind::IgnoredResult);
    assert_eq!(failure.message, "resulting path is ignored by ripgrep: generated/ignored.txt");
    assert_eq!(disk.files["a.txt"], b"old\n");
    assert_eq!(disk.files.len(), 1);
    assert!(
        !disk.directories.contains("generated"),
        "rollback must also remove the directory it created"
    );
    assert!(matches!(call.event, Some(PatchUiEvent::Failed { .. })));
}

#[test]
fn a_write_that_fails_half_way_is_undone() {
    let mut disk = Disk::new(&[("a.txt", "a\n"), ("b.txt", "b\n"), ("d.txt", "d\n")]);
    disk.broken = "z/last.txt";
    let before = disk.files.clone();
    let input = input(
        "all kinds",
        vec![
            update("a.txt", "a\n", "a", "A"),
            rename("b.txt", "deep/er/b.txt", "b\n"),
            delete("d.txt", "d\n"),
            create("z/last.txt", "x"),
        ],
    );
    let (_, answer) = disk.execute(&writing(), &input, None);
    let failure = answer.unwrap_err();
    assert_eq!(failure.kind, FailureKind::OperationFailed);
    assert_eq!(failure.message, "disk is full");
    assert_eq!(disk.files, before);
    assert!(disk.directories.is_empty());
}

#[test]
fn a_patch_does_all_of_its_changes() {
    let mut disk = Disk::new(&[("a.txt", "a\n"), ("b.txt", "b\n"), ("d.txt", "d\n")]);
    let input = input(
        "all kinds",
        vec![
            update("a.txt", "a\n", "a", "A"),
            rename("b.txt", "deep/b.txt", "b\n"),
            delete("d.txt", "d\n"),
            create("n.txt", "n"),
        ],
    );
    let (call, answer) = disk.execute(&writing(), &input, None);
    let output = answer.unwrap();
    assert!(output.applied && !output.rejected);
    assert_eq!(output.changed_paths, vec!["a.txt", "b.txt", "d.txt", "deep/b.txt", "n.txt"]);
    assert_eq!(output.message, "patch transaction applied");
    let files = disk.files.iter().map(|(path, bytes)| (path.as_str(), bytes.as_slice()));
    assert_eq!(
        files.collect::<Vec<_>>(),
        vec![("a.txt", &b"A\n"[..]), ("deep/b.txt", &b"b\n"[..]), ("n.txt", &b"n"[..])]
    );
    assert!(matches!(call.event, Some(PatchUiEvent::Applied { .. })));
}

#[test]
fn a_way_back_that_fails_is_told() {
    let workspace = workspace();
    let operations = vec![Change::Create { path: "n".to_string(), after: b"x".to_vec() }];
    let begin = |operations: Vec<PreparedOperation>| {
        let mut transaction = Transaction::begin(operations, &Vec::new());
        transaction.answer(&workspace, Reply::Failed("no".to_string()));
        transaction
    };
    let mut transaction = begin(operations);
    assert_eq!(transaction.stage, Stage::Undoing(1));
    transaction.answer(&workspace, Reply::Found(Occupant::Other));
    assert_eq!(transaction.stage, Stage::Stuck);
    let failure = transaction.result().unwrap().unwrap_err();
    assert_eq!(failure.kind, FailureKind::RollbackFailed);
    assert_eq!(
        failure.message,
        "patch failed and rollback also failed: rollback target became unsafe: /work/n"
    );
    let mut transaction =
        begin(vec![Change::Create { path: "d/n".to_string(), after: b"x".to_vec() }]);
    transaction.answer(&workspace, Reply::Found(Occupant::Nothing));
    assert_eq!(transaction.stage, Stage::Clearing(0));
    transaction.answer(&workspace, Reply::Failed("busy".to_string()));
    let failure = transaction.result().unwrap().unwrap_err();
    assert_eq!(failure.message, "patch failed and directory rollback also failed: busy");
    let mut transaction =
        begin(vec![Change::Delete { path: "d".to_string(), before: b"x".to_vec() }]);
    assert!(matches!(transaction.error, Some(Failure { kind: FailureKind::OperationFailed, .. })));
    transaction.answer(&workspace, Reply::Done);
    let failure = transaction.result().unwrap().unwrap_err();
    assert!(failure.message.ends_with("the reply does not answer the transaction step"));
}

#[test]
fn snapshots_and_directories_are_taken_before_writing() {
    let operations = [
        Change::Rename { from: "b".to_string(), to: "x/y/b".to_string(), before: b"B".to_vec() },
        Change::Create { path: "a/c".to_string(), after: b"C".to_vec() },
        Change::Create { path: "x/d".to_string(), after: b"D".to_vec() },
    ];
    let taken = snapshots(&operations);
    let shown = taken.iter().map(|s| (s.path.as_str(), s.before.as_deref())).collect::<Vec<_>>();
    assert_eq!(
        shown,
        vec![("a/c", None), ("b", Some(&b"B"[..])), ("x/d", None), ("x/y/b", None)]
    );
    assert_eq!(parent_directories("x/y/b"), vec!["x/y", "x"]);
    assert_eq!(created_directories(&operations, &vec![]), vec!["x/y", "a", "x"]);
    assert_eq!(created_directories(&operations, &vec!["x".to_string()]), vec!["x/y", "a"]);
}

#[test]
fn equally_deep_directories_are_in_path_order() {
    let create = |path: &str| Change::Create { path: path.to_string(), after: Vec::new() };
    let operations = [create("b/f"), create("a-b/c/f"), create("a/d/f"), create("a/c/f")];
    // Paths are ordered part by part: `a` comes before `a-b`, though `/` sorts behind `-`.
    assert_eq!(
        created_directories(&operations, &vec![]),
        vec!["a/c", "a/d", "a-b/c", "a", "a-b", "b"]
    );
}

#[test]
fn a_pending_patch_applies_when_write_mode_is_enabled() {
    let mut disk = Disk::new(&[("a.txt", "old\n")]);
    let mut gate = PatchGate::new();
    assert!(!gate.write_enabled());
    let input =
        input("apply after explicit toggle", vec![update("a.txt", "old\n", "old", "new")]);
    let executor = PatchExecutor::new(workspace());
    let mut call = PatchCall::new();
    call.propose(&executor, &gate, &input, &disk.evidence(&input));
    assert!(matches!(call.event, Some(PatchUiEvent::Pending(_))));
    gate.set_write_enabled(true);
    call.decide(Some(PatchDecision::Apply));
    call.renew(&executor, &input, &disk.evidence(&input));
    assert_eq!(call.stage, CallStage::Applying);
    let result = disk.apply(call.take_operations());
    call.conclude(result);
    assert!(call.answer.unwrap().unwrap().applied);
    assert_eq!(disk.files["a.txt"], b"new\n");
}

#[test]
fn rejected_and_abandoned_patches_change_nothing() {
    let mut disk = Disk::new(&[("a.txt", "old\n")]);
    let input = input("p", vec![update("a.txt", "old\n", "old", "new")]);
    let (_, answer) = disk.execute(&PatchGate::new(), &input, Some(PatchDecision::Reject));
    let output = answer.unwrap();
    assert!(output.rejected && !output.applied && output.changed_paths.is_empty());
    assert_eq!(output.message, "user rejected the pending patch");
    let (_, answer) = disk.execute(&PatchGate::new(), &input, None);
    assert_eq!(answer.unwrap_err().kind, FailureKind::Cancelled);
    assert_eq!(disk.files["a.txt"], b"old\n");
}

#[test]
fn a_proposal_that_goes_stale_while_it_waits_fails() {
    let mut disk = Disk::new(&[("a.txt", "old\n")]);
    let input = input("p", vec![update("a.txt", "old\n", "old", "new")]);
    let executor = PatchExecutor::new(workspace());
    let mut call = PatchCall::new();
    call.propose(&executor, &PatchGate::new(), &input, &disk.evidence(&input));
    disk.files.insert("a.txt".to_string(), b"changed by another\n".to_vec());
    call.decide(Some(PatchDecision::Apply));
    call.renew(&executor, &input, &disk.evidence(&input));
    assert_eq!(call.stage, CallStage::Finished);
    assert_eq!(call.answer.unwrap().unwrap_err().kind, FailureKind::StalePreimage);
}

fn pending(purpose: &str) -> PatchUiEvent {
    PatchUiEvent::Pending(PendingPatch { purpose: purpose.to_string(), diff: "diff".to_string() })
}

#[test]
fn the_panel_decides_with_the_write_mode() {
    let mut panel = PatchPanel::new();
    assert_eq!(panel.status(), "read only");
    assert_eq!(panel.take_event(pending("one")), None);
    assert!(panel.window_open);
    assert_eq!(panel.status(), "waiting for write mode");
    assert_eq!(panel.set_write_enabled(true), Some(PatchDecision::Apply));
    assert_eq!(panel.status(), "automatic writes enabled");
    assert_eq!(panel.take_event(pending("two")), Some(PatchDecision::Apply));
    assert_eq!(panel.set_write_enabled(false), None);
    panel.take_event(pending("three"));
    assert_eq!(panel.reject_pending(), Some(PatchDecision::Reject));
    assert_eq!(panel.reject_pending(), None);
    panel.take_event(PatchUiEvent::Applied { purpose: "one".to_string(), diff: "d".to_string() });
    panel.take_event(PatchUiEvent::Failed { purpose: "two".to_string(), message: "m".to_string() });
    panel.take_event(pending("four"));
    assert_eq!(panel.stop(), Some(PatchDecision::Reject));
    assert_eq!(panel.status(), "stopped");
    let log = panel.log.iter().map(|e| (e.kind.label(), e.purpose.as_str())).collect::<Vec<_>>();
    assert_eq!(
        log,
        vec![
            ("Approved", "one"),
            ("Applying", "two"),
            ("Rejected", "three"),
            ("Applied", "one"),
            ("Failed", "two"),
            ("Rejected", "four"),
        ]
    );
    assert_eq!(panel.log[4].kind, PatchLogKind::Failed);
    assert_eq!(panel.log[4].body, "m");
}
