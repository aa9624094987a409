use std::collections::{BTreeMap, BTreeSet};

use nuillu_code::command::{
    cherry_pick_as_agent, git_commit, commit_tree, config_value, read_tree, stage_paths, tree_of, Invocation,
};
use nuillu_code::conflict::contains_conflict_markers;
use nuillu_code::executable::{ExecutableIdentity, ExecutableProbe, GitExecutable};
use nuillu_code::failure::{Failure, FailureKind};
use nuillu_code::git::{GitControlCommand, GitUiEvent, PatchDisposition, WorkspaceMode};
use nuillu_code::repository::{find_filter_line, find_state_rule};
use nuillu_code::review::{unique_id, GitWorkspace};
use nuillu_code::script::{
    command_text, ConflictCase, ConflictFile, DirectoryEntry, GitOutput, LockEntry, Reply, Request,
    Session,
};

type Tree = BTreeMap<String, String>;
type Patch = Vec<(String, Option<String>, Option<String>)>;

/// A repository in memory that understands the commands of a session. A diff shows the new lines
/// and ends with the exact changes.
struct Repository {
    parent: Tree,
    /// The parent's own index.
    staged: Tree,
    branch: String,
    config: Vec<(String, String)>,
    worktree: Tree,
    /// The paths in the worktree's index.
    known: BTreeSet<String>,
    head: String,
    trees: BTreeMap<String, Tree>,
    parents: BTreeMap<String, String>,
    indexes: BTreeMap<String, Tree>,
    unmerged: Vec<String>,
    made: u64,
    /// A command that fails, by how its arguments begin, and how often it works before.
    broken: Option<(&'static str, usize)>,
    resolution: &'static str,
    runs: Vec<Vec<String>>,
    /// Where each run ran, and whether it had an index of its own.
    places: Vec<(String, bool)>,
    attributes: &'static str,
    locks: Vec<(u64, bool)>,
    markers: &'static str,
}

const ROOT: &str = "/repo";

fn changes(old: &Tree, new: &Tree) -> Patch {
    let mut patch = Vec::new();
    for path in old.keys().chain(new.keys().filter(|path| !old.contains_key(*path))) {
        let (before, after) = (old.get(path).cloned(), new.get(path).cloned());
        if before != after {
            patch.push((path.clone(), before, after));
        }
    }
    patch
}

fn render(patch: &Patch) -> String {
    if patch.is_empty() {
        return String::new();
    }
    let mut text = String::new();
    for (_, _, after) in patch {
        for line in after.as_deref().unwrap_or("").lines() {
            text.push_str(&format!("+{line}\n"));
        }
    }
    text.push_str(&serde_json::to_string(patch).unwrap());
    text
}

fn parse(diff: &str) -> Patch {
    serde_json::from_str(diff.lines().last().unwrap_or("[]")).unwrap()
}

fn applied(tree: &Tree, patch: &Patch, reverse: bool) -> Option<Tree> {
    let mut next = tree.clone();
    for (path, before, after) in patch {
        let (from, to) = if reverse { (after, before) } else { (before, after) };
        if next.get(path) != from.as_ref() {
            return None;
        }
        match to {
            Some(text) => next.insert(path.clone(), text.clone()),
            None => next.remove(path),
        };
    }
    Some(next)
}

impl Repository {
    fn new() -> Repository {
        let files = [(".gitignore", ".nuillu/\n"), ("tracked.txt", "base\n")];
        let parent: Tree =
            files.iter().map(|(path, text)| (path.to_string(), text.to_string())).collect();
        let mut repository = Repository {
            parent: parent.clone(),
            staged: parent.clone(),
            branch: "main".to_string(),
            config: Vec::new(),
            worktree: Tree::new(),
            known: BTreeSet::new(),
            head: "c0".to_string(),
            trees: BTreeMap::new(),
            parents: BTreeMap::new(),
            indexes: BTreeMap::new(),
            unmerged: Vec::new(),
            made: 0,
            broken: None,
            resolution: "resolved\n",
            runs: Vec::new(),
            places: Vec::new(),
            attributes: "",
            locks: Vec::new(),
            markers: "-",
        };
        repository.trees.insert("c0".to_string(), parent);
        repository
    }

    fn make(&mut self, tree: Tree, parent: &str) -> String {
        self.made += 1;
        let id = format!("c{}", self.made);
        self.trees.insert(id.clone(), tree);
        self.parents.insert(id.clone(), parent.to_string());
        id
    }

    fn tree(&self, id: &str) -> Tree {
        let id = if id == "HEAD" { self.head.as_str() } else { id };
        self.trees.get(id).cloned().unwrap_or_default()
    }

    /// The paths at which the parent's index differs from the user's last commit.
    fn staged_names(&self) -> Vec<String> {
        changes(&self.tree("c0"), &self.staged).into_iter().map(|(path, _, _)| path).collect()
    }

    /// Makes the tracked files those of the head; files that are not tracked stay.
    fn check_out(&mut self) {
        let tree = self.tree("HEAD");
        self.worktree.retain(|path, _| !self.known.contains(path));
        self.worktree.extend(tree.clone());
        self.known = tree.into_keys().collect();
        self.unmerged.clear();
    }

    fn commit_patch(&self, id: &str) -> Patch {
        changes(&self.tree(&self.parents[id]), &self.tree(id))
    }

    fn git(&mut self, run: &Invocation) -> Result<String, String> {
        let args = run.args.iter().map(String::as_str).collect::<Vec<_>>();
        let line = args.join(" ");
        self.runs.push(run.args.clone());
        self.places.push((run.cwd.clone(), run.index.is_some()));
        if let Some((prefix, left)) = &mut self.broken {
            if line.starts_with(*prefix) {
                if *left == 0 {
                    return Err("made to fail".to_string());
                }
                *left -= 1;
            }
        }
        let at_root = run.cwd == ROOT;
        match args.as_slice() {
            ["rev-parse", "HEAD"] if at_root => Ok("c0\n".to_string()),
            ["rev-parse", "HEAD"] => Ok(format!("{}\n", self.head)),
            ["rev-parse", "--show-toplevel"] => Ok("/repo\n".to_string()),
            ["rev-parse", "--is-bare-repository"] => Ok("false\n".to_string()),
            ["rev-parse", "--show-superproject-working-tree"] => Ok(String::new()),
            ["rev-parse", "--git-common-dir"] | ["rev-parse", "--git-dir"] => {
                Ok(".git\n".to_string())
            }
            ["rev-parse", tree] => {
                Ok(format!("{:?}", self.tree(tree.trim_end_matches("^{tree}"))))
            }
            ["symbolic-ref", ..] => Ok(format!("{}\n", self.branch)),
            ["ls-files", "-u"] => Ok(String::new()),
            ["config", "--local", "--get", name] => {
                let found = self.config.iter().find(|(key, _)| key == name);
                found.map(|(_, value)| value.clone()).ok_or_else(String::new)
            }
            ["config", "--local", "--get-regexp", pattern] => {
                let prefix = pattern.trim_start_matches('^').split('\\').next().unwrap();
                let found = self.config.iter().find(|(key, _)| {
                    key.starts_with(prefix) && (!pattern.contains("textconv") || key.ends_with("textconv"))
                });
                found.map(|(key, value)| format!("{key} {value}\n")).ok_or_else(String::new)
            }
            ["worktree", ..] | ["branch", "-D", _] => Ok(String::new()),
            ["read-tree", id] => {
                let tree = self.tree(id);
                self.indexes.insert(run.index.clone().unwrap(), tree);
                Ok(String::new())
            }
            ["add", "-A", "--", "."] if run.index.is_some() => {
                self.indexes.insert(run.index.clone().unwrap(), self.parent.clone());
                Ok(String::new())
            }
            ["add", "-A", "--", ..] if at_root => {
                self.staged = self.parent.clone();
                Ok(String::new())
            }
            ["add", "-A", "--", "."] => {
                self.unmerged.clear();
                self.known = self.worktree.keys().cloned().collect();
                Ok(String::new())
            }
            ["add", "-A", "--", paths @ ..] => {
                self.unmerged.clear();
                for path in paths {
                    if self.worktree.contains_key(*path) {
                        self.known.insert(path.to_string());
                    } else {
                        self.known.remove(*path);
                    }
                }
                Ok(String::new())
            }
            ["clean", "-f", "-d"] => {
                assert!(!at_root, "the parent is never cleaned");
                self.worktree.retain(|path, _| self.known.contains(path));
                Ok(String::new())
            }
            ["write-tree"] => {
                let id = format!("tree-{}", self.made);
                let tree = self.indexes[run.index.as_ref().unwrap()].clone();
                self.trees.insert(id.clone(), tree);
                Ok(format!("{id}\n"))
            }
            ["commit-tree", tree, "-p", parent, ..] => {
                assert!(run.as_agent);
                let tree = self.tree(tree);
                Ok(format!("{}\n", self.make(tree, parent)))
            }
            ["reset", "--hard", id] => {
                assert!(!at_root, "the parent is never reset");
                if *id != "HEAD" {
                    self.head = id.to_string();
                }
                self.check_out();
                Ok(String::new())
            }
            ["reset", "--soft", id] => {
                self.head = id.to_string();
                Ok(String::new())
            }
            ["commit", ..] => {
                assert!(!at_root && run.as_agent);
                let head = self.head.clone();
                let mut tree = self.worktree.clone();
                tree.retain(|path, _| self.known.contains(path));
                self.head = self.make(tree, &head);
                Ok(String::new())
            }
            ["cherry-pick", "--abort"] => {
                self.check_out();
                Ok(String::new())
            }
            ["cherry-pick", "--no-gpg-sign", id] => {
                let patch = self.commit_patch(id);
                match applied(&self.tree("HEAD"), &patch, false) {
                    Some(tree) => {
                        let head = self.head.clone();
                        self.head = self.make(tree, &head);
                        self.check_out();
                        Ok(String::new())
                    }
                    None => {
                        for (path, _, after) in &patch {
                            let ours = self.worktree.get(path).cloned().unwrap_or_default();
                            let theirs = after.clone().unwrap_or_default();
                            let both =
                                format!("<<<<<<< HEAD\n{ours}=======\n{theirs}>>>>>>> pick\n");
                            self.worktree.insert(path.clone(), both);
                            self.known.insert(path.clone());
                            self.unmerged.push(path.clone());
                        }
                        Err("could not apply".to_string())
                    }
                }
            }
            ["show", .., id] => Ok(render(&self.commit_patch(id))),
            ["diff", "--binary", _, _, old, new] => {
                Ok(render(&changes(&self.tree(old), &self.tree(new))))
            }
            ["diff", .., "--diff-filter=U"] => {
                Ok(self.unmerged.iter().map(|path| format!("{path}\n")).collect())
            }
            ["diff", .., "--check"] => Ok(String::new()),
            ["apply", options @ ..] => {
                let patch = parse(run.input.as_ref().unwrap());
                let reverse = options.contains(&"--reverse");
                let tree = match &run.index {
                    Some(index) => self.indexes[index].clone(),
                    None if at_root => self.parent.clone(),
                    None => self.worktree.clone(),
                };
                let next = applied(&tree, &patch, reverse).ok_or("patch does not apply")?;
                if at_root && run.index.is_none() {
                    assert!(!options.contains(&"--cached") && !options.contains(&"--index"));
                }
                if !options.contains(&"--check") {
                    match &run.index {
                        Some(index) => {
                            self.indexes.insert(index.clone(), next);
                        }
                        None if at_root => self.parent = next,
                        None => self.worktree = next,
                    }
                }
                Ok(String::new())
            }
            other => panic!("{other:?}"),
        }
    }

    fn worktree_file(&self, path: &str) -> Option<String> {
        path.split("/worktrees/").nth(1)?.split_once('/').map(|(_, file)| file.to_string())
    }

    fn answer(&mut self, request: &Request) -> Reply {
        match request {
            Request::Git(run) => {
                let result = self.git(run);
                let success = result.is_ok();
                let (stdout, stderr) = match result {
                    Ok(text) => (text, String::new()),
                    Err(text) => (String::new(), text),
                };
                Reply::Git(GitOutput {
                    success,
                    status: format!("exit status: {}", if success { 0 } else { 1 }),
                    stdout: stdout.into_bytes(),
                    stderr: stderr.into_bytes(),
                })
            }
            Request::FreshId => {
                self.made += 1;
                Reply::Id { nanos: 7, process: 8, counter: self.made }
            }
            Request::Exists(path) => {
                Reply::Flag(path == "/repo/.git" || path.ends_with(self.markers))
            }
            Request::Inspect(_) => Reply::Inspected { is_symlink: false, len: Some(9) },
            Request::ReadFile(path) => {
                if let Some(file) = self.worktree_file(path) {
                    return match self.worktree.get(&file) {
                        Some(text) => Reply::Bytes(text.clone().into_bytes()),
                        None => Reply::Missing,
                    };
                }
                match path.strip_prefix("/repo/") {
                    Some("deep/.gitattributes") => Reply::Bytes(self.attributes.into()),
                    Some(file) if self.parent.contains_key(file) => {
                        Reply::Bytes(self.parent[file].clone().into_bytes())
                    }
                    _ => Reply::Missing,
                }
            }
            Request::WriteFile { path, content } => {
                let file = self.worktree_file(path).unwrap();
                self.worktree.insert(file, content.clone());
                Reply::Done
            }
            Request::RemoveFile(path) => {
                self.indexes.remove(path);
                Reply::Done
            }
            Request::Lock | Request::MakeDirectory(_) | Request::TakeLock(_) => Reply::Done,
            Request::ListDirectory(path) => {
                let entry = |name: &str, is_directory: bool| DirectoryEntry {
                    name: name.to_string(),
                    is_directory,
                };
                Reply::Entries(if path == ROOT {
                    vec![
                        entry(".git", true),
                        entry(".nuillu", true),
                        entry("deep", true),
                        entry("tracked.txt", false),
                    ]
                } else {
                    vec![entry(".gitattributes", false)]
                })
            }
            Request::ListLocks(directory) => {
                let entries = self.locks.iter().enumerate().map(|(i, (age, _))| LockEntry {
                    path: format!("{directory}/s{i}.lock"),
                    stem: Some(format!("s{i}")),
                    age_seconds: *age,
                });
                Reply::Locks(entries.collect())
            }
            Request::TryLock(path) => {
                let i = path.trim_end_matches(".lock").chars().last().unwrap();
                Reply::Flag(self.locks[i.to_digit(10).unwrap() as usize].1)
            }
            Request::Canonicalize(path) => Reply::Text(path.clone()),
            Request::Resolve(conflict) => {
                assert!(contains_conflict_markers(conflict.files[0].content.as_deref().unwrap()));
                self.resolve(conflict)
            }
        }
    }

    fn resolve(&self, conflict: &ConflictCase) -> Reply {
        if self.resolution.is_empty() {
            return Reply::Failed("the resolver gave up".to_string());
        }
        let files = conflict.files.iter().map(|file| ConflictFile {
            path: file.path.clone(),
            content: Some(self.resolution.to_string()),
        });
        Reply::Resolved(files.collect())
    }

    /// Runs a piece of work to its end.
    fn drive<T>(&mut self, mut work: impl FnMut(&mut Session) -> Option<T>) -> T {
        let mut replies = Vec::new();
        loop {
            let mut io = Session::new(&replies);
            match work(&mut io) {
                Some(value) => return value,
                None => {
                    let request = io.wanted.unwrap();
                    let reply = self.answer(&request);
                    replies.push(reply);
                }
            }
        }
    }

    /// Runs a piece of a session's work to its end.
    fn with<T>(
        &mut self,
        git: &mut GitWorkspace,
        work: impl Fn(&mut GitWorkspace, &mut Session) -> Option<T>,
    ) -> T {
        let (next, value) = self.drive(|io| {
            let mut copy = git.copy();
            work(&mut copy, io).map(|value| (copy, value))
        });
        *git = next;
        value
    }

    fn open(&mut self) -> Result<GitWorkspace, Failure> {
        let identity = ExecutableIdentity {
            canonical_path: "/usr/bin/git".to_string(),
            len: 1,
            modified: None,
            device: 1,
            inode: 1,
        };
        let git = GitExecutable::discover(Some(ExecutableProbe { is_file: true, identity })).unwrap();
        self.drive(|io| GitWorkspace::open("/repo", &git, io))
    }

    fn control(&mut self, git: &mut GitWorkspace, command: GitControlCommand) -> Result<(), Failure> {
        self.with(git, |git, io| git.handle_control(&command, io))
    }

    fn control_resolved(
        &mut self,
        git: &mut GitWorkspace,
        command: GitControlCommand,
    ) -> Result<(), Failure> {
        self.with(git, |git, io| git.handle_control_with_resolver(&command, io))
    }

    fn patch(
        &mut self,
        git: &mut GitWorkspace,
        purpose: &str,
        path: &str,
        text: &str,
    ) -> Result<PatchDisposition, Failure> {
        self.worktree.insert(path.to_string(), text.to_string());
        let paths = vec![path.to_string()];
        self.with(git, |git, io| git.finish_patch(purpose, "rendered", &paths, io))
    }
}

fn mode(mode: WorkspaceMode) -> GitControlCommand {
    GitControlCommand::SetMode(mode)
}

fn sensory(git: &GitWorkspace) -> Vec<&str> {
    git.outbox
        .iter()
        .filter_map(|event| match event {
            GitUiEvent::Sensory(text) => Some(text.as_str()),
            _ => None,
        })
        .collect()
}

fn errors(git: &GitWorkspace) -> Vec<&str> {
    git.outbox
        .iter()
        .filter_map(|event| match event {
            GitUiEvent::Error(text) => Some(text.as_str()),
            _ => None,
        })
        .collect()
}

#[test]
fn generated_session_ids_are_distinct_and_ref_safe() {
    let first = unique_id(1_700_000_000_000_000_000, 4242, 1);
    let second = unique_id(1_700_000_000_000_000_000, 4242, 2);
    assert_ne!(first, second);
    assert!(first.bytes().all(|byte| byte.is_ascii_hexdigit() || byte == b'-'));
    assert_eq!(unique_id(255, 16, 1), "000000000000000000000000000000ff-00000010-0000000000000001");
}

#[test]
fn snapshot_includes_untracked_without_touching_parent_index() {
    let mut repository = Repository::new();
    repository.parent.insert("untracked.txt".to_string(), "outside\n".to_string());
    let git = repository.open().unwrap();
    assert_eq!(repository.worktree["untracked.txt"], "outside\n");
    // Staging happens in an index of its own, and that one is gone again.
    assert!(repository.indexes.is_empty());
    assert!(repository.staged_names().is_empty());
    assert!(
        sensory(&git).is_empty(),
        "the startup snapshot is the observation baseline"
    );
    assert_eq!(git.mode(), WorkspaceMode::ReadOnly);
    assert_eq!(git.outbox.len(), 1);
    assert!(git.worktree.starts_with("/repo/.nuillu/worktrees/"));
    assert!(git.session_branch.starts_with("nuillu/session/"));
}

#[test]
fn write_preserves_preexisting_staged_and_unstaged_state() {
    let mut repository = Repository::new();
    repository.staged.insert("tracked.txt".to_string(), "staged\n".to_string());
    repository.parent.insert("tracked.txt".to_string(), "unstaged\n".to_string());
    let cached_before = repository.staged.clone();
    let mut git = repository.open().unwrap();
    repository.control(&mut git, mode(WorkspaceMode::Write)).unwrap();
    repository.runs.clear();
    repository.places.clear();
    repository.patch(&mut git, "agent file", "agent.txt", "agent\n").unwrap();
    assert_eq!(repository.staged, cached_before);
    assert_eq!(repository.parent["tracked.txt"], "unstaged\n");
    assert_eq!(repository.parent["agent.txt"], "agent\n");
    assert!(repository.runs.iter().any(|run| run[..] == ["apply", "--binary", "-"]));
    // Nothing at the root stages, commits or resets without an index of its own.
    for (run, (cwd, has_index)) in repository.runs.iter().zip(&repository.places) {
        if cwd == ROOT && !has_index {
            let verb = run[0].as_str();
            assert!(!["add", "rm", "reset", "commit", "read-tree"].contains(&verb), "{run:?}");
            assert!(!run.iter().any(|word| word == "--cached" || word == "--index"), "{run:?}");
        }
    }
}

#[test]
fn review_waits_and_write_auto_applies_without_staging() {
    let mut repository = Repository::new();
    let mut git = repository.open().unwrap();
    repository.control(&mut git, mode(WorkspaceMode::Review)).unwrap();
    let review = repository.patch(&mut git, "review change", "tracked.txt", "review\n").unwrap();
    let PatchDisposition::Review { review_commit } = review else {
        panic!("Review mode must retain a commit")
    };
    assert_eq!(repository.parent["tracked.txt"], "base\n");
    repository.control(&mut git, GitControlCommand::Apply(review_commit)).unwrap();
    assert_eq!(repository.parent["tracked.txt"], "review\n");
    assert!(repository.staged_names().is_empty());
    assert!(git.commits.is_empty());

    repository.control(&mut git, mode(WorkspaceMode::Write)).unwrap();
    assert!(matches!(
        repository.patch(&mut git, "write change", "tracked.txt", "write\n").unwrap(),
        PatchDisposition::WriteApplied
    ));
    assert_eq!(repository.parent["tracked.txt"], "write\n");
    assert!(repository.staged_names().is_empty());
    assert!(git.commits.is_empty());
}

#[test]
fn conflicting_review_commit_is_resolved_and_recommitted() {
    let mut repository = Repository::new();
    let mut git = repository.open().unwrap();
    repository.control(&mut git, mode(WorkspaceMode::Review)).unwrap();
    repository.patch(&mut git, "agent change", "tracked.txt", "agent\n").unwrap();
    repository.parent.insert("tracked.txt".to_string(), "user\n".to_string());

    let changed = repository.with(&mut git, |git, io| git.sync_with_resolver(io)).unwrap();
    assert!(changed);
    assert_eq!(repository.worktree["tracked.txt"], "resolved\n");
    assert_eq!(git.commits.len(), 1);
    assert_eq!(repository.parent["tracked.txt"], "user\n");
    assert!(git.commits[0].diff.contains("+resolved"));
}

#[test]
fn apply_all_stops_after_conflict_resolution_for_review() {
    let mut repository = Repository::new();
    let mut git = repository.open().unwrap();
    repository.control(&mut git, mode(WorkspaceMode::Review)).unwrap();
    repository.patch(&mut git, "agent change", "tracked.txt", "agent\n").unwrap();
    repository.parent.insert("tracked.txt".to_string(), "user\n".to_string());

    repository.control_resolved(&mut git, GitControlCommand::ApplyAll).unwrap();
    assert_eq!(repository.parent["tracked.txt"], "user\n");
    assert_eq!(git.commits.len(), 1);
    assert!(errors(&git)[0].starts_with("review commits changed during synchronization"));

    repository.control_resolved(&mut git, GitControlCommand::ApplyAll).unwrap();
    assert_eq!(repository.parent["tracked.txt"], "resolved\n");
    assert!(git.commits.is_empty());
}

#[test]
fn own_apply_is_silent_but_later_external_change_is_sensory() {
    let mut repository = Repository::new();
    let mut git = repository.open().unwrap();
    repository.control(&mut git, mode(WorkspaceMode::Write)).unwrap();
    repository.patch(&mut git, "agent change", "tracked.txt", "agent\n").unwrap();
    assert!(sensory(&git).is_empty());

    repository.parent.insert("tracked.txt".to_string(), "external\n".to_string());
    repository.with(&mut git, |git, io| git.sync_with_resolver(io)).unwrap();
    assert_eq!(sensory(&git).len(), 1, "external change must produce sensory input");
    assert!(sensory(&git)[0].contains("+external"));
    assert!(sensory(&git)[0].starts_with("Observed external workspace changes on branch main.\n"));
    git.outbox.clear();
    repository.with(&mut git, |git, io| git.sync_with_resolver(io)).unwrap();
    assert!(sensory(&git).is_empty());
}

#[test]
fn dependent_patch_merges_only_its_git_replay_component() {
    let mut repository = Repository::new();
    let mut git = repository.open().unwrap();
    repository.control(&mut git, mode(WorkspaceMode::Review)).unwrap();

    repository.patch(&mut git, "first", "tracked.txt", "first\n").unwrap();
    repository.patch(&mut git, "independent", "independent.txt", "other\n").unwrap();
    assert_eq!(git.commits.len(), 2);

    repository.patch(&mut git, "second", "tracked.txt", "second\n").unwrap();
    assert_eq!(git.commits.len(), 2);
    assert_eq!(git.commits[0].purpose, "first; second");
    assert_eq!(git.commits[0].changed_paths, vec!["tracked.txt"]);
    assert_eq!(git.commits[1].purpose, "independent");
    let id = git.commits[1].id.clone();
    repository.control(&mut git, GitControlCommand::Apply(id)).unwrap();
    assert_eq!(repository.parent["independent.txt"], "other\n");
    assert_eq!(repository.parent["tracked.txt"], "base\n");
    assert_eq!(git.commits.len(), 1);
    let id = git.commits[0].id.clone();
    repository.control(&mut git, GitControlCommand::Discard(id)).unwrap();
    assert!(git.commits.is_empty());
    assert_eq!(repository.worktree["tracked.txt"], "base\n");
}

#[test]
fn parent_branch_change_blocks_controls() {
    let mut repository = Repository::new();
    let mut git = repository.open().unwrap();
    repository.branch = "other".to_string();
    let error = repository.control(&mut git, mode(WorkspaceMode::Review)).unwrap_err();
    assert!(error.message.contains("parent branch changed"));
    assert_eq!(
        error.message,
        "parent branch changed from main to other; restore it or restart Nuillu Code"
    );
    assert_eq!(git.mode(), WorkspaceMode::ReadOnly);
    repository.branch = "main".to_string();
    repository.control(&mut git, mode(WorkspaceMode::Review)).unwrap();
    assert_eq!(git.mode(), WorkspaceMode::Review);
}

#[test]
fn repository_filter_configuration_is_rejected() {
    let mut repository = Repository::new();
    repository.config.push(("filter.unsafe.clean".to_string(), "some-process".to_string()));
    let error = match repository.open() {
        Ok(_) => panic!("custom filter must be rejected"),
        Err(error) => error,
    };
    assert!(error.message.contains("clean/smudge filters"));
}

#[test]
fn unsafe_repositories_are_rejected() {
    let open = |change: &dyn Fn(&mut Repository)| {
        let mut repository = Repository::new();
        change(&mut repository);
        repository.open().unwrap_err()
    };
    let setting = |name: &'static str| {
        open(&move |r: &mut Repository| r.config.push((name.to_string(), "x".to_string()))).message
    };
    assert_eq!(setting("diff.external"), "repository-local external diff is not supported");
    assert_eq!(setting("diff.x.textconv"), "repository-local textconv is not supported");
    assert_eq!(
        setting("core.attributesfile"),
        "repository-local core.attributesFile is not supported"
    );
    let attributes = open(&|r: &mut Repository| r.attributes = "# x\n*.bin filter=lfs\n");
    assert_eq!(attributes.kind, FailureKind::UnsupportedFilter);
    assert_eq!(
        attributes.message,
        "custom Git filter attribute is not supported: /repo/deep/.gitattributes"
    );
    let ignore = open(&|r: &mut Repository| {
        r.parent.insert(".gitignore".to_string(), "target/\n".to_string());
    });
    assert_eq!(ignore.kind, FailureKind::StateDirNotIgnored);
    let missing = open(&|r: &mut Repository| {
        r.parent.remove(".gitignore");
    });
    assert!(missing.message.starts_with("read required /repo/.gitignore: "));
    let merging = open(&|r: &mut Repository| r.markers = "/repo/.git/MERGE_HEAD");
    assert_eq!(merging.kind, FailureKind::OperationInProgress);
    assert_eq!(merging.message, "repository has an in-progress Git operation (MERGE_HEAD)");
    let rebasing = open(&|r: &mut Repository| r.markers = "rebase-apply");
    assert_eq!(rebasing.message, "repository has an in-progress rebase");
    let detached = open(&|r: &mut Repository| r.broken = Some(("symbolic-ref", 0)));
    assert_eq!(
        detached.message,
        "cwd must have a checked-out branch: git failed with exit status: 1: made to fail"
    );
}

#[test]
fn a_worktree_that_cannot_be_filled_is_removed() {
    let mut repository = Repository::new();
    repository.broken = Some(("commit-tree", 0));
    assert!(repository.open().is_err());
    let last = &repository.runs[repository.runs.len() - 2..];
    assert_eq!(last[0][..3], ["worktree", "remove", "--force"]);
    assert_eq!(last[1][..2], ["branch", "-D"]);
    let mut repository = Repository::new();
    let mut git = repository.open().unwrap();
    repository.runs.clear();
    repository.with(&mut git, |git, io| git.cleanup(io));
    assert_eq!(repository.runs.len(), 2);
    repository.with(&mut git, |git, io| git.cleanup(io));
    assert_eq!(repository.runs.len(), 2);
    assert!(git.cleaned);
}

#[test]
fn old_sessions_are_cleared_away() {
    let mut repository = Repository::new();
    repository.locks = vec![(86_399, true), (86_400, false), (86_400, true)];
    repository.open().unwrap();
    let removed = repository
        .runs
        .iter()
        .filter(|run| run[0] == "branch")
        .map(|run| run[2].as_str())
        .collect::<Vec<_>>();
    assert_eq!(removed, vec!["nuillu/session/s2"]);
}

#[test]
fn read_only_takes_patches_back() {
    let mut repository = Repository::new();
    let mut git = repository.open().unwrap();
    let before = repository.worktree.clone();
    repository.worktree.insert("made/new.txt".to_string(), "agent\n".to_string());
    let failure = repository.patch(&mut git, "p", "tracked.txt", "agent\n").unwrap_err();
    assert_eq!(failure.kind, FailureKind::ReadOnly);
    assert_eq!(repository.worktree, before, "a file that the patch made is gone too");
    assert_eq!(repository.parent["tracked.txt"], "base\n");
    assert!(git.commits.is_empty());
    let last = &repository.runs[repository.runs.len() - 2..];
    assert_eq!(last[0][..], ["reset", "--hard", "HEAD"]);
    assert_eq!(last[1][..], ["clean", "-f", "-d"]);
    // So a later patch does not bring it in.
    repository.control(&mut git, mode(WorkspaceMode::Review)).unwrap();
    repository.patch(&mut git, "later", "other.txt", "x\n").unwrap();
    assert!(!git.commits[0].diff.contains("made/new.txt"));
    // A clean-up that fails is the answer.
    let mut repository = Repository::new();
    let mut git = repository.open().unwrap();
    repository.broken = Some(("clean", 0));
    let failure = repository.patch(&mut git, "p", "new.txt", "x\n").unwrap_err();
    assert_eq!(failure.kind, FailureKind::GitFailed);
}

#[test]
fn a_write_that_cannot_be_settled_is_reversed() {
    let mut repository = Repository::new();
    let mut git = repository.open().unwrap();
    repository.control(&mut git, mode(WorkspaceMode::Write)).unwrap();
    // The snapshot after the handed-over change fails.
    repository.broken = Some(("write-tree", 0));
    let failure = repository.patch(&mut git, "p", "tracked.txt", "agent\n").unwrap_err();
    assert_eq!(
        failure.message,
        "finalize automatic Write apply: git failed with exit status: 1: made to fail"
    );
    assert_eq!(repository.parent["tracked.txt"], "base\n");
    assert_eq!(repository.worktree["tracked.txt"], "base\n");
    // A change that does not fit the parent is not handed over at all.
    repository.broken = None;
    repository.parent.insert("tracked.txt".to_string(), "user\n".to_string());
    let failure = repository.patch(&mut git, "p", "tracked.txt", "agent\n").unwrap_err();
    assert_eq!(
        failure.message,
        "automatic Write apply failed; temporary commit discarded: \
         git failed with exit status: 1: patch does not apply"
    );
    assert_eq!(repository.parent["tracked.txt"], "user\n");
    assert!(git.commits.is_empty());
}

#[test]
fn an_apply_that_cannot_be_settled_is_reversed() {
    for whole in [false, true] {
        let mut repository = Repository::new();
        let mut git = repository.open().unwrap();
        repository.control(&mut git, mode(WorkspaceMode::Review)).unwrap();
        repository.patch(&mut git, "p", "tracked.txt", "agent\n").unwrap();
        let id = git.commits[0].id.clone();
        let command =
            if whole { GitControlCommand::ApplyAll } else { GitControlCommand::Apply(id) };
        // The first snapshot is the synchronization's.
        repository.broken = Some(("write-tree", 1));
        let failure = repository.control(&mut git, command).unwrap_err();
        let context = if whole { "finalize Apply-all" } else { "finalize individual Apply" };
        assert!(failure.message.starts_with(&format!("{context}: ")), "{}", failure.message);
        assert_eq!(repository.parent["tracked.txt"], "base\n");
        assert_eq!(git.commits.len(), 1);
        assert_eq!(repository.worktree["tracked.txt"], "agent\n");
        assert_eq!(errors(&git), vec![failure.message.as_str()]);
    }
}

#[test]
fn commits_are_found_under_their_earlier_identifiers() {
    let mut repository = Repository::new();
    let mut git = repository.open().unwrap();
    repository.control(&mut git, mode(WorkspaceMode::Review)).unwrap();
    repository.patch(&mut git, "p", "agent.txt", "agent\n").unwrap();
    let first = git.commits[0].id.clone();
    for text in ["one\n", "two\n"] {
        repository.parent.insert("tracked.txt".to_string(), text.to_string());
        repository.with(&mut git, |git, io| git.sync_from_parent(io)).unwrap();
    }
    assert_ne!(git.commits[0].id, first);
    assert_eq!(git.resolve_alias(&first), git.commits[0].id);
    assert_eq!(git.resolve_alias("unknown"), "unknown");
    let unknown =
        repository.control(&mut git, GitControlCommand::Apply("unknown".to_string())).unwrap_err();
    assert_eq!(unknown.kind, FailureKind::UnknownCommit);
    repository.control(&mut git, GitControlCommand::Apply(first)).unwrap();
    assert_eq!(repository.parent["agent.txt"], "agent\n");
    assert!(git.aliases.is_empty());
}

#[test]
fn a_plain_replay_drops_what_conflicts_and_keeps_the_order() {
    let mut repository = Repository::new();
    let mut git = repository.open().unwrap();
    repository.control(&mut git, mode(WorkspaceMode::Review)).unwrap();
    repository.patch(&mut git, "one", "one.txt", "1\n").unwrap();
    repository.patch(&mut git, "clash", "tracked.txt", "agent\n").unwrap();
    repository.patch(&mut git, "two", "two.txt", "2\n").unwrap();
    let clash = git.commits[1].id.clone();
    repository.parent.insert("tracked.txt".to_string(), "user\n".to_string());
    repository.with(&mut git, |git, io| git.sync_from_parent(io)).unwrap();
    let purposes = git.commits.iter().map(|c| c.purpose.as_str()).collect::<Vec<_>>();
    assert_eq!(purposes, vec!["one", "two"]);
    let words = sensory(&git);
    assert!(words[0].starts_with(&format!(
        "Discarded conflicting review commit {clash} (clash) because replay failed: "
    )));
    assert!(words[0].contains("+agent\n"));
    assert!(words[1].contains("+user\n"));
}

#[test]
fn conflicts_that_stay_unresolved_drop_one_commit() {
    for (resolution, reason) in [
        ("", "the resolver gave up"),
        ("<<<<<<< HEAD\n", "conflict markers remain in tracked.txt"),
    ] {
        let mut repository = Repository::new();
        let mut git = repository.open().unwrap();
        repository.control(&mut git, mode(WorkspaceMode::Review)).unwrap();
        repository.patch(&mut git, "clash", "tracked.txt", "agent\n").unwrap();
        repository.patch(&mut git, "fine", "fine.txt", "f\n").unwrap();
        repository.parent.insert("tracked.txt".to_string(), "user\n".to_string());
        repository.resolution = resolution;
        let changed = repository.with(&mut git, |git, io| git.sync_with_resolver(io)).unwrap();
        assert!(changed);
        assert_eq!(git.commits.len(), 1);
        assert_eq!(git.commits[0].purpose, "fine");
        assert!(sensory(&git)[0].contains(&format!("because conflict resolution failed: {reason}")));
        assert_eq!(repository.worktree["tracked.txt"], "user\n");
    }
}

#[test]
fn a_patch_that_depends_on_several_combines_the_queue() {
    let mut repository = Repository::new();
    let mut git = repository.open().unwrap();
    repository.control(&mut git, mode(WorkspaceMode::Review)).unwrap();
    repository.patch(&mut git, "one", "one.txt", "1\n").unwrap();
    repository.patch(&mut git, "two", "two.txt", "2\n").unwrap();
    repository.worktree.insert("one.txt".to_string(), "11\n".to_string());
    repository.patch(&mut git, "both", "two.txt", "22\n").unwrap();
    assert_eq!(git.commits.len(), 1);
    assert_eq!(git.commits[0].purpose, "one; two; both");
    assert_eq!(git.commits[0].changed_paths, vec!["one.txt", "two.txt"]);
    repository.control(&mut git, mode(WorkspaceMode::Write)).unwrap();
    assert_eq!(repository.parent["one.txt"], "11\n");
    assert_eq!(repository.parent["two.txt"], "22\n");
    assert!(git.commits.is_empty());
}

#[test]
fn a_merge_that_fails_keeps_the_queue() {
    let mut repository = Repository::new();
    let mut git = repository.open().unwrap();
    repository.control(&mut git, mode(WorkspaceMode::Review)).unwrap();
    repository.patch(&mut git, "first", "tracked.txt", "first\n").unwrap();
    repository.broken = Some(("commit ", 1));
    let failure = repository.patch(&mut git, "second", "tracked.txt", "second\n").unwrap_err();
    assert!(failure.message.starts_with("rebuild dependent review component: "));
    assert_eq!(git.commits.len(), 2);
    assert_eq!(repository.worktree["tracked.txt"], "second\n");
}

#[test]
fn merging_a_lone_commit_leaves_the_queue_empty() {
    let mut repository = Repository::new();
    let mut git = repository.open().unwrap();
    repository.control(&mut git, mode(WorkspaceMode::Review)).unwrap();
    repository.patch(&mut git, "lone", "tracked.txt", "agent\n").unwrap();
    repository.with(&mut git, |git, io| git.merge_dependency_component(0, io)).unwrap();
    assert!(git.commits.is_empty());
    assert_eq!(repository.worktree["tracked.txt"], "base\n");
}

#[test]
fn uncommitted_changes_can_be_taken_back() {
    let mut repository = Repository::new();
    let mut git = repository.open().unwrap();
    repository.worktree.insert("tracked.txt".to_string(), "half\n".to_string());
    repository.worktree.insert("new.txt".to_string(), "half\n".to_string());
    repository.runs.clear();
    repository.with(&mut git, |git, io| git.discard_uncommitted(io)).unwrap();
    assert_eq!(repository.worktree["tracked.txt"], "base\n");
    // One reset and nothing else: a file that Git does not know stays.
    assert_eq!(repository.runs, vec![vec!["reset", "--hard", "HEAD"]]);
    assert_eq!(repository.worktree["new.txt"], "half\n");
}

#[test]
fn a_half_stored_resolution_is_reset() {
    let mut repository = Repository::new();
    let mut git = repository.open().unwrap();
    repository.control(&mut git, mode(WorkspaceMode::Review)).unwrap();
    repository.patch(&mut git, "clash", "tracked.txt", "agent\n").unwrap();
    repository.parent.insert("tracked.txt".to_string(), "user\n".to_string());
    repository.broken = Some(("add -A -- tracked.txt", 0));
    assert!(repository.with(&mut git, |git, io| git.sync_with_resolver(io)).unwrap());
    assert!(git.commits.is_empty());
    assert_eq!(repository.worktree["tracked.txt"], "user\n");
    // The reset to the top of the queue is the last that is asked of Git.
    assert_eq!(repository.runs.last().unwrap()[..], ["reset", "--hard", git.baseline.as_str()]);
}

#[test]
fn opening_and_ending_keep_to_session_branches() {
    let mut repository = Repository::new();
    repository.locks = vec![(90_000, true)];
    let before = repository.staged.clone();
    let mut git = repository.open().unwrap();
    repository.with(&mut git, |git, io| git.cleanup(io));
    assert_eq!(repository.staged, before);
    for run in repository.runs.iter().filter(|run| run[0] == "branch") {
        assert!(run[1] == "-D" && run[2].starts_with("nuillu/session/"));
    }
    for (run, (cwd, has_index)) in repository.runs.iter().zip(&repository.places) {
        let quiet = ["rev-parse", "symbolic-ref", "ls-files", "config", "worktree", "branch"];
        let at_session = cwd.starts_with("/repo/.nuillu/worktrees/");
        let verb = run[0].as_str();
        assert!(*has_index || at_session || verb == "commit-tree" || quiet.contains(&verb), "{run:?}");
    }
}

#[test]
fn git_runs_without_outside_settings() {
    let run = git_commit("/work", "message");
    assert_eq!(run.args, vec!["commit", "--no-verify", "--no-gpg-sign", "-m", "message"]);
    assert_eq!(
        run.arguments()[..6],
        [
            "-c",
            "core.hooksPath=/dev/null",
            "-c",
            "commit.gpgSign=false",
            "-c",
            "core.fsmonitor=false"
        ]
    );
    let environment = run.environment();
    let value = |name: &str| {
        environment.iter().find(|(key, _)| key == name).map(|(_, value)| value.as_str())
    };
    assert_eq!(environment.len(), 7);
    assert_eq!(value("GIT_CONFIG_NOSYSTEM"), Some("1"));
    assert_eq!(value("GIT_CONFIG_GLOBAL"), Some("/dev/null"));
    assert_eq!(value("GIT_TERMINAL_PROMPT"), Some("0"));
    assert_eq!(value("GIT_AUTHOR_NAME"), Some("Nuillu Code"));
    assert_eq!(value("GIT_COMMITTER_EMAIL"), Some("agent@nuillu.invalid"));
    let run = read_tree("/repo", "/tmp/index", "HEAD");
    assert_eq!(run.environment()[3].1, "/tmp/index");
    assert_eq!(tree_of("/repo", "abc").args[1], "abc^{tree}");
    assert_eq!(
        commit_tree("/repo", "t", "p").args,
        vec!["commit-tree", "t", "-p", "p", "-m", "Nuillu parent snapshot"]
    );
    assert_eq!(stage_paths("/w", &vec!["a".to_string()]).args, vec!["add", "-A", "--", "a"]);
    assert!(cherry_pick_as_agent("/w", "x").as_agent);
    assert_eq!(config_value("/r", "n").args, vec!["config", "--local", "--get", "n"]);
}

#[test]
fn git_replies_are_read() {
    let output = |success: bool, stdout: &[u8]| {
        Reply::Git(GitOutput {
            success,
            status: "exit status: 128".to_string(),
            stdout: stdout.to_vec(),
            stderr: b" fatal: no \n".to_vec(),
        })
    };
    assert_eq!(command_text(&output(true, b"x\n")).unwrap(), "x\n");
    let failure = command_text(&output(false, b"")).unwrap_err();
    assert_eq!(failure.message, "git failed with exit status: 128: fatal: no");
    assert_eq!(command_text(&output(true, b"\xff")).unwrap_err().kind, FailureKind::NotUtf8);
    let unstarted = command_text(&Reply::Failed("start git".to_string())).unwrap_err();
    assert_eq!(unstarted.kind, FailureKind::GitFailed);
    assert_eq!(command_text(&Reply::Done).unwrap_err().kind, FailureKind::UnexpectedReply);
}

#[test]
fn markers_and_rules_are_found() {
    assert!(contains_conflict_markers("a\n<<<<<<< HEAD\nb\n"));
    assert!(contains_conflict_markers("=======\n"));
    assert!(contains_conflict_markers("x\n>>>>>>> pick"));
    assert!(!contains_conflict_markers("a <<<<<<< b\n======= \n<<<<<<<\n"));
    assert!(find_filter_line("*.x text\n*.bin filter=lfs"));
    assert!(!find_filter_line("*.x text\n"));
    assert!(find_state_rule("target\n /.nuillu/ \n"));
    assert!(!find_state_rule("/.nuillu/**\n"));
}
