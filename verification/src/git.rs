//! The review queue: the agent's commits, and the session that holds them.
use vstd::prelude::*;

use crate::text::{copy, copy_all, opt_str, same_text, texts};

verus! {

/// What becomes of the agent's patches.
#[derive(Clone, Copy, Debug, PartialEq, Eq, Structural)]
pub enum WorkspaceMode {
    /// Patches are rejected.
    ReadOnly,
    /// Patches wait as commits.
    Review,
    /// Patches are applied at once.
    Write,
}

impl Default for WorkspaceMode {
    fn default() -> (r: WorkspaceMode)
        ensures
            r == WorkspaceMode::ReadOnly,
    {
        WorkspaceMode::ReadOnly
    }
}

/// A commit that waits for review.
#[derive(Clone, Debug, PartialEq, Eq)]
pub struct ReviewCommit {
    pub id: String,
    pub purpose: String,
    pub diff: String,
    pub changed_paths: Vec<String>,
}

/// A commit over plain texts.
#[verifier::ext_equal]
pub struct CommitView {
    pub id: Seq<char>,
    pub purpose: Seq<char>,
    pub diff: Seq<char>,
    pub changed_paths: Seq<Seq<char>>,
}

impl View for ReviewCommit {
    type V = CommitView;

    open spec fn view(&self) -> CommitView {
        CommitView {
            id: self.id@,
            purpose: self.purpose@,
            diff: self.diff@,
            changed_paths: texts(self.changed_paths@),
        }
    }
}

/// Commits over plain texts.
pub open spec fn commit_views(s: Seq<ReviewCommit>) -> Seq<CommitView> {
    Seq::new(s.len(), |i: int| s[i]@)
}

pub proof fn lemma_commit_views_push(s: Seq<ReviewCommit>, x: ReviewCommit)
    ensures
        commit_views(s.push(x)) == commit_views(s).push(x@),
{
    assert(commit_views(s.push(x)) =~= commit_views(s).push(x@));
}

impl ReviewCommit {
    /// The same commit again.
    pub fn copy(&self) -> (r: ReviewCommit)
        ensures
            r@ == self@,
    {
        ReviewCommit {
            id: copy(self.id.as_str()),
            purpose: copy(self.purpose.as_str()),
            diff: copy(self.diff.as_str()),
            changed_paths: copy_all(&self.changed_paths),
        }
    }
}

/// The same commits again.
pub fn copy_commits(commits: &[ReviewCommit]) -> (r: Vec<ReviewCommit>)
    ensures
        commit_views(r@) == commit_views(commits@),
{
    let mut r: Vec<ReviewCommit> = Vec::new();
    let mut i: usize = 0;
    while i < commits.len()
        invariant
            i <= commits@.len(),
            r@.len() == i,
            forall|k: int| 0 <= k < i ==> (#[trigger] r@[k])@ == commits@[k]@,
        decreases commits@.len() - i,
    {
        r.push(commits[i].copy());
        i = i + 1;
    }
    assert(commit_views(r@) =~= commit_views(commits@));
    r
}

/// The position of the commit with an identifier, if there is one.
pub open spec fn position(commits: Seq<CommitView>, id: Seq<char>, i: int) -> Option<int>
    decreases commits.len() - i,
{
    if i < 0 || i >= commits.len() {
        None
    } else if commits[i].id == id {
        Some(i)
    } else {
        position(commits, id, i + 1)
    }
}

/// The position of the commit with an identifier, if there is one.
pub fn find_commit(commits: &[ReviewCommit], id: &str) -> (r: Option<usize>)
    ensures
        (match r {
            Some(i) => Some(i as int),
            None => None,
        }) == position(commit_views(commits@), id@, 0),
        r matches Some(i) ==> i < commits@.len() && commits@[i as int].id@ == id@,
{
    let ghost views = commit_views(commits@);
    let mut i: usize = 0;
    while i < commits.len()
        invariant
            views == commit_views(commits@),
            i <= commits@.len(),
            position(views, id@, 0) == position(views, id@, i as int),
        decreases commits@.len() - i,
    {
        assert(views[i as int] == commits@[i as int]@);
        if same_text(commits[i].id.as_str(), id) {
            return Some(i);
        }
        i = i + 1;
    }
    None
}

/// The state of a session as it is shown.
#[derive(Clone, Debug, PartialEq, Eq)]
pub struct GitUiState {
    pub mode: WorkspaceMode,
    pub branch: String,
    pub commits: Vec<ReviewCommit>,
}

/// What there is to show or to notice about a session.
#[derive(Clone, Debug)]
pub enum GitUiEvent {
    State(GitUiState),
    Error(String),
    Sensory(String),
}

/// What there is to show or to notice, over plain texts.
pub enum UiView {
    State { mode: WorkspaceMode, branch: Seq<char>, commits: Seq<CommitView> },
    Error(Seq<char>),
    Sensory(Seq<char>),
}

impl View for GitUiEvent {
    type V = UiView;

    open spec fn view(&self) -> UiView {
        match *self {
            GitUiEvent::State(state) => UiView::State {
                mode: state.mode,
                branch: state.branch@,
                commits: commit_views(state.commits@),
            },
            GitUiEvent::Error(message) => UiView::Error(message@),
            GitUiEvent::Sensory(message) => UiView::Sensory(message@),
        }
    }
}

/// Events over plain texts.
pub open spec fn ui_views(s: Seq<GitUiEvent>) -> Seq<UiView> {
    Seq::new(s.len(), |i: int| s[i]@)
}

/// What the user asks of a session.
#[derive(Clone, Debug)]
pub enum GitControlCommand {
    SetMode(WorkspaceMode),
    Apply(String),
    Discard(String),
    ApplyAll,
}

/// What became of a patch.
#[derive(Clone, Debug, PartialEq, Eq)]
pub enum PatchDisposition {
    Review { review_commit: String },
    WriteApplied,
}

/// What became of a patch, over plain texts.
pub enum DispositionView {
    Review(Seq<char>),
    WriteApplied,
}

impl View for PatchDisposition {
    type V = DispositionView;

    open spec fn view(&self) -> DispositionView {
        match *self {
            PatchDisposition::Review { review_commit } => DispositionView::Review(review_commit@),
            PatchDisposition::WriteApplied => DispositionView::WriteApplied,
        }
    }
}

// ---------------------------------------------------------------------------------------------
// Aliases
// ---------------------------------------------------------------------------------------------

/// A commit's earlier identifier and the one it got when it was replayed.
#[derive(Debug)]
pub struct Alias {
    pub from: String,
    pub to: String,
}

/// The identifiers that stand for others; a later alias hides an earlier one.
pub open spec fn alias_map(s: Seq<Alias>) -> Map<Seq<char>, Seq<char>>
    decreases s.len(),
{
    if s.len() == 0 {
        Map::empty()
    } else {
        alias_map(s.drop_last()).insert(s.last().from@, s.last().to@)
    }
}

pub proof fn lemma_alias_map_finite(s: Seq<Alias>)
    ensures
        alias_map(s).dom().finite(),
    decreases s.len(),
{
    if s.len() > 0 {
        lemma_alias_map_finite(s.drop_last());
    }
}

/// Adds an alias.
pub fn add_alias(list: &mut Vec<Alias>, from: &str, to: &str)
    ensures
        alias_map(final(list)@) == alias_map(old(list)@).insert(from@, to@),
{
    let ghost before = list@;
    list.push(Alias { from: copy(from), to: copy(to) });
    assert(list@.drop_last() =~= before);
}

/// What an identifier stands for directly, if it stands for another.
pub fn find_alias<'a>(list: &'a Vec<Alias>, id: &str) -> (r: Option<&'a str>)
    ensures
        opt_str(r) == (if alias_map(list@).dom().contains(id@) {
            Some(alias_map(list@)[id@])
        } else {
            None
        }),
{
    let mut n: usize = list.len();
    let ghost aliases = alias_map(list@);
    assert(list@.take(n as int) =~= list@);
    while n > 0
        invariant
            n <= list@.len(),
            aliases == alias_map(list@),
            aliases.dom().contains(id@) == alias_map(list@.take(n as int)).dom().contains(id@),
            aliases.dom().contains(id@) ==> aliases[id@] == alias_map(list@.take(n as int))[id@],
        decreases n,
    {
        assert(list@.take(n as int).drop_last() =~= list@.take(n - 1));
        if same_text(list[n - 1].from.as_str(), id) {
            return Some(list[n - 1].to.as_str());
        }
        n = n - 1;
    }
    assert(list@.take(0) =~= Seq::empty());
    None
}

/// What an identifier stands for in the end: aliases are followed until there is none or one
/// comes up again.
pub open spec fn resolved_alias(
    aliases: Map<Seq<char>, Seq<char>>,
    seen: Set<Seq<char>>,
    id: Seq<char>,
) -> Seq<char>
    decreases aliases.dom().difference(seen).len(),
    when aliases.dom().finite()
    via resolving_ends
{
    if seen.contains(id) || !aliases.dom().contains(id) {
        id
    } else {
        resolved_alias(aliases, seen.insert(id), aliases[id])
    }
}

#[via_fn]
proof fn resolving_ends(aliases: Map<Seq<char>, Seq<char>>, seen: Set<Seq<char>>, id: Seq<char>) {
    if !seen.contains(id) && aliases.dom().contains(id) {
        assert(aliases.dom().difference(seen.insert(id)) =~= aliases.dom().difference(seen).remove(
            id,
        ));
    }
}

/// A commit that was replayed, however often, is found under each identifier that it ever had.
pub proof fn earlier_identifiers_lead_to_the_last(
    aliases: Map<Seq<char>, Seq<char>>,
    chain: Seq<Seq<char>>,
    i: int,
)
    requires
        aliases.dom().finite(),
        chain.no_duplicates(),
        0 <= i < chain.len(),
        forall|k: int|
            0 <= k < chain.len() - 1 ==> aliases.dom().contains(#[trigger] chain[k])
                && aliases[chain[k]] == chain[k + 1],
        !aliases.dom().contains(chain.last()),
    ensures
        resolved_alias(aliases, Set::empty(), chain[i]) == chain.last(),
{
    assert(chain.subrange(i, i).to_set() =~= Set::empty());
    lemma_alias_chain(aliases, chain, i, i);
}

proof fn lemma_alias_chain(
    aliases: Map<Seq<char>, Seq<char>>,
    chain: Seq<Seq<char>>,
    i: int,
    k: int,
)
    requires
        aliases.dom().finite(),
        chain.no_duplicates(),
        0 <= i <= k < chain.len(),
        forall|j: int|
            0 <= j < chain.len() - 1 ==> aliases.dom().contains(#[trigger] chain[j])
                && aliases[chain[j]] == chain[j + 1],
        !aliases.dom().contains(chain.last()),
    ensures
        resolved_alias(aliases, chain.subrange(i, k).to_set(), chain[k]) == chain.last(),
    decreases chain.len() - k,
{
    let seen = chain.subrange(i, k).to_set();
    if k < chain.len() - 1 {
        assert(!seen.contains(chain[k])) by {
            if chain.subrange(i, k).contains(chain[k]) {
                let j = chain.subrange(i, k).index_of(chain[k]);
                assert(chain[i + j] == chain[k]);
            }
        }
        assert(aliases.dom().contains(chain[k]));
        let longer = chain.subrange(i, k + 1);
        assert(longer =~= chain.subrange(i, k).push(chain[k]));
        assert(longer.to_set() =~= seen.insert(chain[k])) by {
            assert forall|p: Seq<char>|
                longer.to_set().contains(p) <==> seen.insert(chain[k]).contains(p) by {
                if chain.subrange(i, k).contains(p) {
                    let j = chain.subrange(i, k).index_of(p);
                    assert(longer[j] == p);
                }
                if p == chain[k] {
                    assert(longer[k - i] == p);
                }
                if longer.contains(p) && p != chain[k] {
                    let j = longer.index_of(p);
                    assert(chain.subrange(i, k)[j] == p);
                }
            }
        }
        lemma_alias_chain(aliases, chain, i, k + 1);
    }
}

/// An identifier that stands for no other resolves to itself.
pub proof fn current_identifiers_resolve_to_themselves(
    aliases: Map<Seq<char>, Seq<char>>,
    id: Seq<char>,
)
    requires
        aliases.dom().finite(),
        !aliases.dom().contains(id),
    ensures
        resolved_alias(aliases, Set::empty(), id) == id,
{
}

} // verus!
