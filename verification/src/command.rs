//! The Git commands: what is run, where, and with which settings.
use vstd::prelude::*;

use crate::text::{concat, copy, lemma_texts_push, opt_text, texts};

verus! {

/// Name under which the agent commits.
pub const AGENT_NAME: &'static str = "Nuillu Code";

/// Address under which the agent commits.
pub const AGENT_EMAIL: &'static str = "agent@nuillu.invalid";

/// One run of Git.
#[derive(Debug)]
pub struct Invocation {
    pub cwd: String,
    pub args: Vec<String>,
    /// Whether a commit that comes of it is the agent's.
    pub as_agent: bool,
    /// An index file to use in place of the worktree's own.
    pub index: Option<String>,
    /// What is written to its standard input, which is empty otherwise.
    pub input: Option<String>,
}

/// One run of Git over plain texts.
#[verifier::ext_equal]
pub struct InvocationView {
    pub cwd: Seq<char>,
    pub args: Seq<Seq<char>>,
    pub as_agent: bool,
    pub index: Option<Seq<char>>,
    pub input: Option<Seq<char>>,
}

impl View for Invocation {
    type V = InvocationView;

    open spec fn view(&self) -> InvocationView {
        InvocationView {
            cwd: self.cwd@,
            args: texts(self.args@),
            as_agent: self.as_agent,
            index: opt_text(self.index),
            input: opt_text(self.input),
        }
    }
}

/// The texts behind string slices.
pub open spec fn words(s: Seq<&str>) -> Seq<Seq<char>> {
    Seq::new(s.len(), |i: int| s[i]@)
}

/// Fresh strings with the same texts.
pub fn arguments(list: &[&str]) -> (r: Vec<String>)
    ensures
        texts(r@) == words(list@),
{
    let mut r: Vec<String> = Vec::new();
    let mut i: usize = 0;
    while i < list.len()
        invariant
            i <= list@.len(),
            texts(r@) == words(list@).take(i as int),
        decreases list@.len() - i,
    {
        let word = copy(list[i]);
        proof {
            lemma_texts_push(r@, word);
            assert(words(list@).take(i + 1) =~= words(list@).take(i as int).push(
                list@[i as int]@,
            ));
        }
        r.push(word);
        i = i + 1;
    }
    assert(words(list@).take(i as int) =~= words(list@));
    r
}

// ---------------------------------------------------------------------------------------------
// Settings
// ---------------------------------------------------------------------------------------------

/// The arguments in front of every command: no hooks, no signatures and no file system monitor.
pub open spec fn safe_settings() -> Seq<Seq<char>> {
    seq![
        "-c"@,
        "core.hooksPath=/dev/null"@,
        "-c"@,
        "commit.gpgSign=false"@,
        "-c"@,
        "core.fsmonitor=false"@,
    ]
}

/// The environment of a run, which is empty apart from this: no settings from outside the
/// repository, no prompts, and the agent's name and index where they are asked for.
pub open spec fn environment(run: InvocationView) -> Seq<(Seq<char>, Seq<char>)> {
    let base = seq![
        ("GIT_CONFIG_NOSYSTEM"@, "1"@),
        ("GIT_CONFIG_GLOBAL"@, "/dev/null"@),
        ("GIT_TERMINAL_PROMPT"@, "0"@),
    ];
    let indexed = match run.index {
        Some(path) => base.push(("GIT_INDEX_FILE"@, path)),
        None => base,
    };
    if run.as_agent {
        indexed + seq![
            ("GIT_AUTHOR_NAME"@, AGENT_NAME@),
            ("GIT_AUTHOR_EMAIL"@, AGENT_EMAIL@),
            ("GIT_COMMITTER_NAME"@, AGENT_NAME@),
            ("GIT_COMMITTER_EMAIL"@, AGENT_EMAIL@),
        ]
    } else {
        indexed
    }
}

/// The names and values behind pairs of strings.
pub open spec fn pairs(s: Seq<(String, String)>) -> Seq<(Seq<char>, Seq<char>)> {
    Seq::new(s.len(), |i: int| (s[i].0@, s[i].1@))
}

/// Appends a variable.
fn put(list: &mut Vec<(String, String)>, name: &str, value: &str)
    ensures
        pairs(final(list)@) == pairs(old(list)@).push((name@, value@)),
{
    let item = (copy(name), copy(value));
    assert(pairs(list@.push(item)) =~= pairs(list@).push((name@, value@)));
    list.push(item);
}

impl Invocation {
    /// All arguments of the run.
    pub fn arguments(&self) -> (r: Vec<String>)
        ensures
            texts(r@) == safe_settings() + self@.args,
    {
        let mut r = arguments(
            &[
                "-c",
                "core.hooksPath=/dev/null",
                "-c",
                "commit.gpgSign=false",
                "-c",
                "core.fsmonitor=false",
            ],
        );
        assert(texts(r@) =~= safe_settings());
        let mut i: usize = 0;
        assert(texts(r@) =~= safe_settings() + self@.args.take(0));
        while i < self.args.len()
            invariant
                i <= self.args@.len(),
                texts(r@) == safe_settings() + self@.args.take(i as int),
            decreases self.args@.len() - i,
        {
            let word = copy(self.args[i].as_str());
            proof {
                lemma_texts_push(r@, word);
                assert(safe_settings() + self@.args.take(i + 1) =~= (safe_settings()
                    + self@.args.take(i as int)).push(word@));
            }
            r.push(word);
            i = i + 1;
        }
        assert(self@.args.take(i as int) =~= self@.args);
        r
    }

    /// All variables of the run's environment.
    pub fn environment(&self) -> (r: Vec<(String, String)>)
        ensures
            pairs(r@) == environment(self@),
    {
        let mut r: Vec<(String, String)> = Vec::new();
        assert(pairs(r@) =~= Seq::empty());
        put(&mut r, "GIT_CONFIG_NOSYSTEM", "1");
        put(&mut r, "GIT_CONFIG_GLOBAL", "/dev/null");
        put(&mut r, "GIT_TERMINAL_PROMPT", "0");
        assert(pairs(r@) =~= seq![
            ("GIT_CONFIG_NOSYSTEM"@, "1"@),
            ("GIT_CONFIG_GLOBAL"@, "/dev/null"@),
            ("GIT_TERMINAL_PROMPT"@, "0"@),
        ]);
        match &self.index {
            Some(path) => put(&mut r, "GIT_INDEX_FILE", path.as_str()),
            None => {},
        }
        let ghost indexed = pairs(r@);
        if self.as_agent {
            put(&mut r, "GIT_AUTHOR_NAME", AGENT_NAME);
            put(&mut r, "GIT_AUTHOR_EMAIL", AGENT_EMAIL);
            put(&mut r, "GIT_COMMITTER_NAME", AGENT_NAME);
            put(&mut r, "GIT_COMMITTER_EMAIL", AGENT_EMAIL);
            assert(pairs(r@) =~= indexed + seq![
                ("GIT_AUTHOR_NAME"@, AGENT_NAME@),
                ("GIT_AUTHOR_EMAIL"@, AGENT_EMAIL@),
                ("GIT_COMMITTER_NAME"@, AGENT_NAME@),
                ("GIT_COMMITTER_EMAIL"@, AGENT_EMAIL@),
            ]);
        }
        r
    }
}

// ---------------------------------------------------------------------------------------------
// Commands
// ---------------------------------------------------------------------------------------------

/// Makes the worktree at `cwd` equal to a commit.
pub open spec fn reset_hard_run(cwd: Seq<char>, to: Seq<char>) -> InvocationView {
    InvocationView {
        cwd,
        args: seq!["reset"@, "--hard"@, to],
        as_agent: false,
        index: None,
        input: None,
    }
}

/// Makes the worktree at `cwd` equal to a commit.
pub fn reset_hard(cwd: &str, to: &str) -> (r: Invocation)
    ensures
        r@ == reset_hard_run(cwd@, to@),
{
    let args = arguments(&["reset", "--hard", to]);
    assert(texts(args@) =~= seq!["reset"@, "--hard"@, to@]);
    Invocation {
        cwd: copy(cwd),
        args,
        as_agent: false,
        index: None,
        input: None,
    }
}

/// Moves the branch at `cwd` to a commit and keeps what is staged.
pub open spec fn reset_soft_run(cwd: Seq<char>, to: Seq<char>) -> InvocationView {
    InvocationView {
        cwd,
        args: seq!["reset"@, "--soft"@, to],
        as_agent: false,
        index: None,
        input: None,
    }
}

/// Moves the branch at `cwd` to a commit and keeps what is staged.
pub fn reset_soft(cwd: &str, to: &str) -> (r: Invocation)
    ensures
        r@ == reset_soft_run(cwd@, to@),
{
    let args = arguments(&["reset", "--soft", to]);
    assert(texts(args@) =~= seq!["reset"@, "--soft"@, to@]);
    Invocation {
        cwd: copy(cwd),
        args,
        as_agent: false,
        index: None,
        input: None,
    }
}

/// Removes the files and directories at `cwd` that are neither tracked nor ignored.
pub open spec fn clean_untracked_run(cwd: Seq<char>) -> InvocationView {
    InvocationView {
        cwd,
        args: seq!["clean"@, "-f"@, "-d"@],
        as_agent: false,
        index: None,
        input: None,
    }
}

/// Removes the files and directories at `cwd` that are neither tracked nor ignored.
pub fn clean_untracked(cwd: &str) -> (r: Invocation)
    ensures
        r@ == clean_untracked_run(cwd@),
{
    let args = arguments(&["clean", "-f", "-d"]);
    assert(texts(args@) =~= seq!["clean"@, "-f"@, "-d"@]);
    Invocation {
        cwd: copy(cwd),
        args,
        as_agent: false,
        index: None,
        input: None,
    }
}

/// Stages everything at `cwd`.
pub open spec fn stage_all_run(cwd: Seq<char>) -> InvocationView {
    InvocationView {
        cwd,
        args: seq!["add"@, "-A"@, "--"@, "."@],
        as_agent: false,
        index: None,
        input: None,
    }
}

/// Stages everything at `cwd`.
pub fn stage_all(cwd: &str) -> (r: Invocation)
    ensures
        r@ == stage_all_run(cwd@),
{
    let args = arguments(&["add", "-A", "--", "."]);
    assert(texts(args@) =~= seq!["add"@, "-A"@, "--"@, "."@]);
    Invocation {
        cwd: copy(cwd),
        args,
        as_agent: false,
        index: None,
        input: None,
    }
}

/// Commits what is staged at `cwd`, as the agent.
pub open spec fn git_commit_run(cwd: Seq<char>, message: Seq<char>) -> InvocationView {
    InvocationView {
        cwd,
        args: seq!["commit"@, "--no-verify"@, "--no-gpg-sign"@, "-m"@, message],
        as_agent: true,
        index: None,
        input: None,
    }
}

/// Commits what is staged at `cwd`, as the agent.
pub fn git_commit(cwd: &str, message: &str) -> (r: Invocation)
    ensures
        r@ == git_commit_run(cwd@, message@),
{
    let args = arguments(&["commit", "--no-verify", "--no-gpg-sign", "-m", message]);
    assert(texts(args@) =~= seq!["commit"@, "--no-verify"@, "--no-gpg-sign"@, "-m"@, message@]);
    Invocation {
        cwd: copy(cwd),
        args,
        as_agent: true,
        index: None,
        input: None,
    }
}

/// Replays a commit at `cwd`, as the agent.
pub open spec fn cherry_pick_as_agent_run(cwd: Seq<char>, id: Seq<char>) -> InvocationView {
    InvocationView {
        cwd,
        args: seq!["cherry-pick"@, "--no-gpg-sign"@, id],
        as_agent: true,
        index: None,
        input: None,
    }
}

/// Replays a commit at `cwd`, as the agent.
pub fn cherry_pick_as_agent(cwd: &str, id: &str) -> (r: Invocation)
    ensures
        r@ == cherry_pick_as_agent_run(cwd@, id@),
{
    let args = arguments(&["cherry-pick", "--no-gpg-sign", id]);
    assert(texts(args@) =~= seq!["cherry-pick"@, "--no-gpg-sign"@, id@]);
    Invocation {
        cwd: copy(cwd),
        args,
        as_agent: true,
        index: None,
        input: None,
    }
}

/// Gives a replay at `cwd` up.
pub open spec fn abort_pick_run(cwd: Seq<char>) -> InvocationView {
    InvocationView {
        cwd,
        args: seq!["cherry-pick"@, "--abort"@],
        as_agent: false,
        index: None,
        input: None,
    }
}

/// Gives a replay at `cwd` up.
pub fn abort_pick(cwd: &str) -> (r: Invocation)
    ensures
        r@ == abort_pick_run(cwd@),
{
    let args = arguments(&["cherry-pick", "--abort"]);
    assert(texts(args@) =~= seq!["cherry-pick"@, "--abort"@]);
    Invocation {
        cwd: copy(cwd),
        args,
        as_agent: false,
        index: None,
        input: None,
    }
}

/// Asks for the commit that is checked out at `cwd`.
pub open spec fn head_run(cwd: Seq<char>) -> InvocationView {
    InvocationView {
        cwd,
        args: seq!["rev-parse"@, "HEAD"@],
        as_agent: false,
        index: None,
        input: None,
    }
}

/// Asks for the commit that is checked out at `cwd`.
pub fn head(cwd: &str) -> (r: Invocation)
    ensures
        r@ == head_run(cwd@),
{
    let args = arguments(&["rev-parse", "HEAD"]);
    assert(texts(args@) =~= seq!["rev-parse"@, "HEAD"@]);
    Invocation {
        cwd: copy(cwd),
        args,
        as_agent: false,
        index: None,
        input: None,
    }
}

/// Asks for the branch that is checked out at `cwd`.
pub open spec fn branch_name_run(cwd: Seq<char>) -> InvocationView {
    InvocationView {
        cwd,
        args: seq!["symbolic-ref"@, "--quiet"@, "--short"@, "HEAD"@],
        as_agent: false,
        index: None,
        input: None,
    }
}

/// Asks for the branch that is checked out at `cwd`.
pub fn branch_name(cwd: &str) -> (r: Invocation)
    ensures
        r@ == branch_name_run(cwd@),
{
    let args = arguments(&["symbolic-ref", "--quiet", "--short", "HEAD"]);
    assert(texts(args@) =~= seq!["symbolic-ref"@, "--quiet"@, "--short"@, "HEAD"@]);
    Invocation {
        cwd: copy(cwd),
        args,
        as_agent: false,
        index: None,
        input: None,
    }
}

/// Asks for the diff of a commit.
pub open spec fn git_show_run(cwd: Seq<char>, id: Seq<char>) -> InvocationView {
    InvocationView {
        cwd,
        args: seq!["show"@, "--format="@, "--binary"@, "--no-ext-diff"@, "--no-textconv"@, id],
        as_agent: false,
        index: None,
        input: None,
    }
}

/// Asks for the diff of a commit.
pub fn git_show(cwd: &str, id: &str) -> (r: Invocation)
    ensures
        r@ == git_show_run(cwd@, id@),
{
    let args = arguments(&["show", "--format=", "--binary", "--no-ext-diff", "--no-textconv", id]);
    assert(texts(args@) =~= seq![
        "show"@,
        "--format="@,
        "--binary"@,
        "--no-ext-diff"@,
        "--no-textconv"@,
        id@,
    ]);
    Invocation {
        cwd: copy(cwd),
        args,
        as_agent: false,
        index: None,
        input: None,
    }
}

/// Asks for the diff between two commits.
pub open spec fn git_diff_run(cwd: Seq<char>, old_commit: Seq<char>, new_commit: Seq<char>) -> InvocationView {
    InvocationView {
        cwd,
        args: seq![
            "diff"@,
            "--binary"@,
            "--no-ext-diff"@,
            "--no-textconv"@,
            old_commit,
            new_commit,
        ],
        as_agent: false,
        index: None,
        input: None,
    }
}

/// Asks for the diff between two commits.
pub fn git_diff(cwd: &str, old_commit: &str, new_commit: &str) -> (r: Invocation)
    ensures
        r@ == git_diff_run(cwd@, old_commit@, new_commit@),
{
    let args = arguments(
        &[
            "diff",
            "--binary",
            "--no-ext-diff",
            "--no-textconv",
            old_commit,
            new_commit,
        ],
    );
    assert(texts(args@) =~= seq![
        "diff"@,
        "--binary"@,
        "--no-ext-diff"@,
        "--no-textconv"@,
        old_commit@,
        new_commit@,
    ]);
    Invocation {
        cwd: copy(cwd),
        args,
        as_agent: false,
        index: None,
        input: None,
    }
}

/// Asks whether a diff applies at `cwd`.
pub open spec fn check_apply_run(cwd: Seq<char>, patch: Seq<char>) -> InvocationView {
    InvocationView {
        cwd,
        args: seq!["apply"@, "--check"@, "--binary"@, "-"@],
        as_agent: false,
        index: None,
        input: Some(patch),
    }
}

/// Asks whether a diff applies at `cwd`.
pub fn check_apply(cwd: &str, patch: &str) -> (r: Invocation)
    ensures
        r@ == check_apply_run(cwd@, patch@),
{
    let args = arguments(&["apply", "--check", "--binary", "-"]);
    assert(texts(args@) =~= seq!["apply"@, "--check"@, "--binary"@, "-"@]);
    Invocation {
        cwd: copy(cwd),
        args,
        as_agent: false,
        index: None,
        input: Some(copy(patch)),
    }
}

/// Applies a diff at `cwd`, without staging it.
pub open spec fn apply_run(cwd: Seq<char>, patch: Seq<char>) -> InvocationView {
    InvocationView {
        cwd,
        args: seq!["apply"@, "--binary"@, "-"@],
        as_agent: false,
        index: None,
        input: Some(patch),
    }
}

/// Applies a diff at `cwd`, without staging it.
pub fn apply(cwd: &str, patch: &str) -> (r: Invocation)
    ensures
        r@ == apply_run(cwd@, patch@),
{
    let args = arguments(&["apply", "--binary", "-"]);
    assert(texts(args@) =~= seq!["apply"@, "--binary"@, "-"@]);
    Invocation {
        cwd: copy(cwd),
        args,
        as_agent: false,
        index: None,
        input: Some(copy(patch)),
    }
}

/// Asks whether a diff can be taken back at `cwd`.
pub open spec fn check_reverse_run(cwd: Seq<char>, patch: Seq<char>) -> InvocationView {
    InvocationView {
        cwd,
        args: seq!["apply"@, "--check"@, "--reverse"@, "--binary"@, "-"@],
        as_agent: false,
        index: None,
        input: Some(patch),
    }
}

/// Asks whether a diff can be taken back at `cwd`.
pub fn check_reverse(cwd: &str, patch: &str) -> (r: Invocation)
    ensures
        r@ == check_reverse_run(cwd@, patch@),
{
    let args = arguments(&["apply", "--check", "--reverse", "--binary", "-"]);
    assert(texts(args@) =~= seq!["apply"@, "--check"@, "--reverse"@, "--binary"@, "-"@]);
    Invocation {
        cwd: copy(cwd),
        args,
        as_agent: false,
        index: None,
        input: Some(copy(patch)),
    }
}

/// Takes a diff back at `cwd`.
pub open spec fn apply_reverse_run(cwd: Seq<char>, patch: Seq<char>) -> InvocationView {
    InvocationView {
        cwd,
        args: seq!["apply"@, "--reverse"@, "--binary"@, "-"@],
        as_agent: false,
        index: None,
        input: Some(patch),
    }
}

/// Takes a diff back at `cwd`.
pub fn apply_reverse(cwd: &str, patch: &str) -> (r: Invocation)
    ensures
        r@ == apply_reverse_run(cwd@, patch@),
{
    let args = arguments(&["apply", "--reverse", "--binary", "-"]);
    assert(texts(args@) =~= seq!["apply"@, "--reverse"@, "--binary"@, "-"@]);
    Invocation {
        cwd: copy(cwd),
        args,
        as_agent: false,
        index: None,
        input: Some(copy(patch)),
    }
}

/// Fills an index of its own from a commit.
pub open spec fn read_tree_run(cwd: Seq<char>, index: Seq<char>, tree: Seq<char>) -> InvocationView {
    InvocationView {
        cwd,
        args: seq!["read-tree"@, tree],
        as_agent: false,
        index: Some(index),
        input: None,
    }
}

/// Fills an index of its own from a commit.
pub fn read_tree(cwd: &str, index: &str, tree: &str) -> (r: Invocation)
    ensures
        r@ == read_tree_run(cwd@, index@, tree@),
{
    let args = arguments(&["read-tree", tree]);
    assert(texts(args@) =~= seq!["read-tree"@, tree@]);
    Invocation {
        cwd: copy(cwd),
        args,
        as_agent: false,
        index: Some(copy(index)),
        input: None,
    }
}

/// Stages everything at `cwd` in an index of its own.
pub open spec fn stage_all_in_run(cwd: Seq<char>, index: Seq<char>) -> InvocationView {
    InvocationView {
        cwd,
        args: seq!["add"@, "-A"@, "--"@, "."@],
        as_agent: false,
        index: Some(index),
        input: None,
    }
}

/// Stages everything at `cwd` in an index of its own.
pub fn stage_all_in(cwd: &str, index: &str) -> (r: Invocation)
    ensures
        r@ == stage_all_in_run(cwd@, index@),
{
    let args = arguments(&["add", "-A", "--", "."]);
    assert(texts(args@) =~= seq!["add"@, "-A"@, "--"@, "."@]);
    Invocation {
        cwd: copy(cwd),
        args,
        as_agent: false,
        index: Some(copy(index)),
        input: None,
    }
}

/// Asks for the tree of an index of its own.
pub open spec fn write_tree_run(cwd: Seq<char>, index: Seq<char>) -> InvocationView {
    InvocationView {
        cwd,
        args: seq!["write-tree"@],
        as_agent: false,
        index: Some(index),
        input: None,
    }
}

/// Asks for the tree of an index of its own.
pub fn write_tree(cwd: &str, index: &str) -> (r: Invocation)
    ensures
        r@ == write_tree_run(cwd@, index@),
{
    let args = arguments(&["write-tree"]);
    assert(texts(args@) =~= seq!["write-tree"@]);
    Invocation {
        cwd: copy(cwd),
        args,
        as_agent: false,
        index: Some(copy(index)),
        input: None,
    }
}

/// Makes a commit of a tree on top of another commit, as the agent.
pub open spec fn commit_tree_run(cwd: Seq<char>, tree: Seq<char>, parent: Seq<char>) -> InvocationView {
    InvocationView {
        cwd,
        args: seq!["commit-tree"@, tree, "-p"@, parent, "-m"@, "Nuillu parent snapshot"@],
        as_agent: true,
        index: None,
        input: None,
    }
}

/// Makes a commit of a tree on top of another commit, as the agent.
pub fn commit_tree(cwd: &str, tree: &str, parent: &str) -> (r: Invocation)
    ensures
        r@ == commit_tree_run(cwd@, tree@, parent@),
{
    let args = arguments(&["commit-tree", tree, "-p", parent, "-m", "Nuillu parent snapshot"]);
    assert(texts(args@) =~= seq![
        "commit-tree"@,
        tree@,
        "-p"@,
        parent@,
        "-m"@,
        "Nuillu parent snapshot"@,
    ]);
    Invocation {
        cwd: copy(cwd),
        args,
        as_agent: true,
        index: None,
        input: None,
    }
}

/// Asks whether a diff applies to an index of its own.
pub open spec fn check_cached_run(cwd: Seq<char>, index: Seq<char>, patch: Seq<char>) -> InvocationView {
    InvocationView {
        cwd,
        args: seq!["apply"@, "--cached"@, "--check"@, "--binary"@, "-"@],
        as_agent: false,
        index: Some(index),
        input: Some(patch),
    }
}

/// Asks whether a diff applies to an index of its own.
pub fn check_cached(cwd: &str, index: &str, patch: &str) -> (r: Invocation)
    ensures
        r@ == check_cached_run(cwd@, index@, patch@),
{
    let args = arguments(&["apply", "--cached", "--check", "--binary", "-"]);
    assert(texts(args@) =~= seq!["apply"@, "--cached"@, "--check"@, "--binary"@, "-"@]);
    Invocation {
        cwd: copy(cwd),
        args,
        as_agent: false,
        index: Some(copy(index)),
        input: Some(copy(patch)),
    }
}

/// Applies a diff to an index of its own.
pub open spec fn apply_cached_run(cwd: Seq<char>, index: Seq<char>, patch: Seq<char>) -> InvocationView {
    InvocationView {
        cwd,
        args: seq!["apply"@, "--cached"@, "--binary"@, "-"@],
        as_agent: false,
        index: Some(index),
        input: Some(patch),
    }
}

/// Applies a diff to an index of its own.
pub fn apply_cached(cwd: &str, index: &str, patch: &str) -> (r: Invocation)
    ensures
        r@ == apply_cached_run(cwd@, index@, patch@),
{
    let args = arguments(&["apply", "--cached", "--binary", "-"]);
    assert(texts(args@) =~= seq!["apply"@, "--cached"@, "--binary"@, "-"@]);
    Invocation {
        cwd: copy(cwd),
        args,
        as_agent: false,
        index: Some(copy(index)),
        input: Some(copy(patch)),
    }
}

/// Asks for the paths in conflict at `cwd`.
pub open spec fn unmerged_names_run(cwd: Seq<char>) -> InvocationView {
    InvocationView {
        cwd,
        args: seq!["diff"@, "--no-ext-diff"@, "--no-textconv"@, "--name-only"@, "--diff-filter=U"@],
        as_agent: false,
        index: None,
        input: None,
    }
}

/// Asks for the paths in conflict at `cwd`.
pub fn unmerged_names(cwd: &str) -> (r: Invocation)
    ensures
        r@ == unmerged_names_run(cwd@),
{
    let args = arguments(
        &[
            "diff",
            "--no-ext-diff",
            "--no-textconv",
            "--name-only",
            "--diff-filter=U",
        ],
    );
    assert(texts(args@) =~= seq![
        "diff"@,
        "--no-ext-diff"@,
        "--no-textconv"@,
        "--name-only"@,
        "--diff-filter=U"@,
    ]);
    Invocation {
        cwd: copy(cwd),
        args,
        as_agent: false,
        index: None,
        input: None,
    }
}

/// Asks whether what is staged at `cwd` is free of leftover markers.
pub open spec fn check_staged_run(cwd: Seq<char>) -> InvocationView {
    InvocationView {
        cwd,
        args: seq!["diff"@, "--no-ext-diff"@, "--no-textconv"@, "--cached"@, "--check"@],
        as_agent: false,
        index: None,
        input: None,
    }
}

/// Asks whether what is staged at `cwd` is free of leftover markers.
pub fn check_staged(cwd: &str) -> (r: Invocation)
    ensures
        r@ == check_staged_run(cwd@),
{
    let args = arguments(&["diff", "--no-ext-diff", "--no-textconv", "--cached", "--check"]);
    assert(texts(args@) =~= seq![
        "diff"@,
        "--no-ext-diff"@,
        "--no-textconv"@,
        "--cached"@,
        "--check"@,
    ]);
    Invocation {
        cwd: copy(cwd),
        args,
        as_agent: false,
        index: None,
        input: None,
    }
}

/// Asks for the unmerged entries of the index at `cwd`.
pub open spec fn unmerged_entries_run(cwd: Seq<char>) -> InvocationView {
    InvocationView {
        cwd,
        args: seq!["ls-files"@, "-u"@],
        as_agent: false,
        index: None,
        input: None,
    }
}

/// Asks for the unmerged entries of the index at `cwd`.
pub fn unmerged_entries(cwd: &str) -> (r: Invocation)
    ensures
        r@ == unmerged_entries_run(cwd@),
{
    let args = arguments(&["ls-files", "-u"]);
    assert(texts(args@) =~= seq!["ls-files"@, "-u"@]);
    Invocation {
        cwd: copy(cwd),
        args,
        as_agent: false,
        index: None,
        input: None,
    }
}

/// Asks for the directory that all worktrees share.
pub open spec fn common_dir_run(cwd: Seq<char>) -> InvocationView {
    InvocationView {
        cwd,
        args: seq!["rev-parse"@, "--git-common-dir"@],
        as_agent: false,
        index: None,
        input: None,
    }
}

/// Asks for the directory that all worktrees share.
pub fn common_dir(cwd: &str) -> (r: Invocation)
    ensures
        r@ == common_dir_run(cwd@),
{
    let args = arguments(&["rev-parse", "--git-common-dir"]);
    assert(texts(args@) =~= seq!["rev-parse"@, "--git-common-dir"@]);
    Invocation {
        cwd: copy(cwd),
        args,
        as_agent: false,
        index: None,
        input: None,
    }
}

/// Asks for the directory of the worktree at `cwd`.
pub open spec fn git_dir_run(cwd: Seq<char>) -> InvocationView {
    InvocationView {
        cwd,
        args: seq!["rev-parse"@, "--git-dir"@],
        as_agent: false,
        index: None,
        input: None,
    }
}

/// Asks for the directory of the worktree at `cwd`.
pub fn git_dir(cwd: &str) -> (r: Invocation)
    ensures
        r@ == git_dir_run(cwd@),
{
    let args = arguments(&["rev-parse", "--git-dir"]);
    assert(texts(args@) =~= seq!["rev-parse"@, "--git-dir"@]);
    Invocation {
        cwd: copy(cwd),
        args,
        as_agent: false,
        index: None,
        input: None,
    }
}

/// Asks for the root of the worktree that holds `cwd`.
pub open spec fn top_level_run(cwd: Seq<char>) -> InvocationView {
    InvocationView {
        cwd,
        args: seq!["rev-parse"@, "--show-toplevel"@],
        as_agent: false,
        index: None,
        input: None,
    }
}

/// Asks for the root of the worktree that holds `cwd`.
pub fn top_level(cwd: &str) -> (r: Invocation)
    ensures
        r@ == top_level_run(cwd@),
{
    let args = arguments(&["rev-parse", "--show-toplevel"]);
    assert(texts(args@) =~= seq!["rev-parse"@, "--show-toplevel"@]);
    Invocation {
        cwd: copy(cwd),
        args,
        as_agent: false,
        index: None,
        input: None,
    }
}

/// Asks whether the repository has no worktree.
pub open spec fn is_bare_run(cwd: Seq<char>) -> InvocationView {
    InvocationView {
        cwd,
        args: seq!["rev-parse"@, "--is-bare-repository"@],
        as_agent: false,
        index: None,
        input: None,
    }
}

/// Asks whether the repository has no worktree.
pub fn is_bare(cwd: &str) -> (r: Invocation)
    ensures
        r@ == is_bare_run(cwd@),
{
    let args = arguments(&["rev-parse", "--is-bare-repository"]);
    assert(texts(args@) =~= seq!["rev-parse"@, "--is-bare-repository"@]);
    Invocation {
        cwd: copy(cwd),
        args,
        as_agent: false,
        index: None,
        input: None,
    }
}

/// Asks for the repository of which this one is a submodule.
pub open spec fn superproject_run(cwd: Seq<char>) -> InvocationView {
    InvocationView {
        cwd,
        args: seq!["rev-parse"@, "--show-superproject-working-tree"@],
        as_agent: false,
        index: None,
        input: None,
    }
}

/// Asks for the repository of which this one is a submodule.
pub fn superproject(cwd: &str) -> (r: Invocation)
    ensures
        r@ == superproject_run(cwd@),
{
    let args = arguments(&["rev-parse", "--show-superproject-working-tree"]);
    assert(texts(args@) =~= seq!["rev-parse"@, "--show-superproject-working-tree"@]);
    Invocation {
        cwd: copy(cwd),
        args,
        as_agent: false,
        index: None,
        input: None,
    }
}

/// Asks for one setting of the repository.
pub open spec fn config_value_run(cwd: Seq<char>, name: Seq<char>) -> InvocationView {
    InvocationView {
        cwd,
        args: seq!["config"@, "--local"@, "--get"@, name],
        as_agent: false,
        index: None,
        input: None,
    }
}

/// Asks for one setting of the repository.
pub fn config_value(cwd: &str, name: &str) -> (r: Invocation)
    ensures
        r@ == config_value_run(cwd@, name@),
{
    let args = arguments(&["config", "--local", "--get", name]);
    assert(texts(args@) =~= seq!["config"@, "--local"@, "--get"@, name@]);
    Invocation {
        cwd: copy(cwd),
        args,
        as_agent: false,
        index: None,
        input: None,
    }
}

/// Asks for the settings of the repository whose names match.
pub open spec fn config_matching_run(cwd: Seq<char>, pattern: Seq<char>) -> InvocationView {
    InvocationView {
        cwd,
        args: seq!["config"@, "--local"@, "--get-regexp"@, pattern],
        as_agent: false,
        index: None,
        input: None,
    }
}

/// Asks for the settings of the repository whose names match.
pub fn config_matching(cwd: &str, pattern: &str) -> (r: Invocation)
    ensures
        r@ == config_matching_run(cwd@, pattern@),
{
    let args = arguments(&["config", "--local", "--get-regexp", pattern]);
    assert(texts(args@) =~= seq!["config"@, "--local"@, "--get-regexp"@, pattern@]);
    Invocation {
        cwd: copy(cwd),
        args,
        as_agent: false,
        index: None,
        input: None,
    }
}

/// Makes a worktree with a branch of its own and leaves it empty.
pub open spec fn add_worktree_run(cwd: Seq<char>, branch: Seq<char>, path: Seq<char>) -> InvocationView {
    InvocationView {
        cwd,
        args: seq!["worktree"@, "add"@, "--no-checkout"@, "-b"@, branch, path, "HEAD"@],
        as_agent: false,
        index: None,
        input: None,
    }
}

/// Makes a worktree with a branch of its own and leaves it empty.
pub fn add_worktree(cwd: &str, branch: &str, path: &str) -> (r: Invocation)
    ensures
        r@ == add_worktree_run(cwd@, branch@, path@),
{
    let args = arguments(&["worktree", "add", "--no-checkout", "-b", branch, path, "HEAD"]);
    assert(texts(args@) =~= seq![
        "worktree"@,
        "add"@,
        "--no-checkout"@,
        "-b"@,
        branch@,
        path@,
        "HEAD"@,
    ]);
    Invocation {
        cwd: copy(cwd),
        args,
        as_agent: false,
        index: None,
        input: None,
    }
}

/// Removes a worktree.
pub open spec fn remove_worktree_run(cwd: Seq<char>, path: Seq<char>) -> InvocationView {
    InvocationView {
        cwd,
        args: seq!["worktree"@, "remove"@, "--force"@, path],
        as_agent: false,
        index: None,
        input: None,
    }
}

/// Removes a worktree.
pub fn remove_worktree(cwd: &str, path: &str) -> (r: Invocation)
    ensures
        r@ == remove_worktree_run(cwd@, path@),
{
    let args = arguments(&["worktree", "remove", "--force", path]);
    assert(texts(args@) =~= seq!["worktree"@, "remove"@, "--force"@, path@]);
    Invocation {
        cwd: copy(cwd),
        args,
        as_agent: false,
        index: None,
        input: None,
    }
}

/// Forgets the worktrees that are gone.
pub open spec fn prune_worktrees_run(cwd: Seq<char>) -> InvocationView {
    InvocationView {
        cwd,
        args: seq!["worktree"@, "prune"@],
        as_agent: false,
        index: None,
        input: None,
    }
}

/// Forgets the worktrees that are gone.
pub fn prune_worktrees(cwd: &str) -> (r: Invocation)
    ensures
        r@ == prune_worktrees_run(cwd@),
{
    let args = arguments(&["worktree", "prune"]);
    assert(texts(args@) =~= seq!["worktree"@, "prune"@]);
    Invocation {
        cwd: copy(cwd),
        args,
        as_agent: false,
        index: None,
        input: None,
    }
}

/// Deletes a branch.
pub open spec fn delete_branch_run(cwd: Seq<char>, branch: Seq<char>) -> InvocationView {
    InvocationView {
        cwd,
        args: seq!["branch"@, "-D"@, branch],
        as_agent: false,
        index: None,
        input: None,
    }
}

/// Deletes a branch.
pub fn delete_branch(cwd: &str, branch: &str) -> (r: Invocation)
    ensures
        r@ == delete_branch_run(cwd@, branch@),
{
    let args = arguments(&["branch", "-D", branch]);
    assert(texts(args@) =~= seq!["branch"@, "-D"@, branch@]);
    Invocation {
        cwd: copy(cwd),
        args,
        as_agent: false,
        index: None,
        input: None,
    }
}

/// Asks for the tree of a commit.
pub open spec fn tree_of_run(cwd: Seq<char>, id: Seq<char>) -> InvocationView {
    InvocationView {
        cwd,
        args: seq!["rev-parse"@, id + "^{tree}"@],
        as_agent: false,
        index: None,
        input: None,
    }
}

/// Asks for the tree of a commit.
pub fn tree_of(cwd: &str, id: &str) -> (r: Invocation)
    ensures
        r@ == tree_of_run(cwd@, id@),
{
    let tree = concat(id, "^{tree}");
    let args = arguments(&["rev-parse", tree.as_str()]);
    assert(texts(args@) =~= seq!["rev-parse"@, id@ + "^{tree}"@]);
    Invocation { cwd: copy(cwd), args, as_agent: false, index: None, input: None }
}

/// Stages some paths at `cwd`.
pub open spec fn stage_paths_run(cwd: Seq<char>, paths: Seq<Seq<char>>) -> InvocationView {
    InvocationView {
        cwd,
        args: seq!["add"@, "-A"@, "--"@] + paths,
        as_agent: false,
        index: None,
        input: None,
    }
}

/// Stages some paths at `cwd`.
pub fn stage_paths(cwd: &str, paths: &Vec<String>) -> (r: Invocation)
    ensures
        r@ == stage_paths_run(cwd@, texts(paths@)),
{
    let mut args = arguments(&["add", "-A", "--"]);
    let ghost start = seq!["add"@, "-A"@, "--"@];
    let ghost named = texts(paths@);
    assert(texts(args@) =~= start + named.take(0));
    let mut i: usize = 0;
    while i < paths.len()
        invariant
            named == texts(paths@),
            i <= paths@.len(),
            texts(args@) == start + named.take(i as int),
        decreases paths@.len() - i,
    {
        let word = copy(paths[i].as_str());
        proof {
            lemma_texts_push(args@, word);
            assert(start + named.take(i + 1) =~= (start + named.take(i as int)).push(word@));
        }
        args.push(word);
        i = i + 1;
    }
    assert(named.take(i as int) =~= named);
    Invocation { cwd: copy(cwd), args, as_agent: false, index: None, input: None }
}

} // verus!
