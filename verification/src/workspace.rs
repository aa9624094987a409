//! The workspace boundary: which paths the tools may touch.
//!
//! The file system and ripgrep are consulted by the caller. What they showed comes in as evidence,
//! and everything that follows from it is decided here.
use vstd::prelude::*;

use crate::executable::RgExecutable;
use crate::failure::{fail_about, fail_in, outcome, refusal, Failure, FailureKind, Refusal};
use crate::glob::{glob_accepts, glob_matches};
use crate::paths::{bare_scope, join_path, joined_path, lies_within, path_contains, path_refusal,
    texts_outcome, validate_relative_path};
use crate::scan::{join, joined, pieces, split};
use crate::text::{concat, copy, lemma_texts_push, opt_str, opt_text, same_text, string_of, texts};

verus! {

// ---------------------------------------------------------------------------------------------
// Results
// ---------------------------------------------------------------------------------------------

/// What a tool call answers: a result or the reason why there is none.
#[derive(Clone, Debug, PartialEq, Eq)]
pub struct WorkspaceToolOutput<T> {
    pub ok: bool,
    pub result: Option<T>,
    pub error: Option<String>,
}

impl<T> WorkspaceToolOutput<T> {
    /// The answer of a call that worked.
    pub fn success(result: T) -> (r: Self)
        ensures
            r.ok,
            r.result == Some(result),
            r.error is None,
    {
        WorkspaceToolOutput { ok: true, result: Some(result), error: None }
    }

    /// The answer of a call that did not.
    pub fn failure(error: String) -> (r: Self)
        ensures
            !r.ok,
            r.result is None,
            r.error == Some(error),
    {
        WorkspaceToolOutput { ok: false, result: None, error: Some(error) }
    }
}

// ---------------------------------------------------------------------------------------------
// Paths and symbolic links
// ---------------------------------------------------------------------------------------------

/// What a look at one path, without following a link, found.
#[derive(Debug)]
pub enum PathProbe {
    /// Something that is no symbolic link.
    Entry,
    Symlink,
    /// Nothing; the error says so.
    Missing(String),
    /// The look itself failed.
    Failed(String),
}

/// A directory tree that the tools may look at, and the executable that lists it.
#[derive(Clone, Debug)]
pub struct Workspace {
    pub root: String,
    pub rg: RgExecutable,
}

/// The path of the first `n` segments below the root.
pub open spec fn prefix_path(root: Seq<char>, segments: Seq<Seq<char>>, n: int) -> Seq<char> {
    joined_path(root, joined(segments.take(n), "/"@))
}

/// The first thing on the way to a path that forbids the use of it, from segment `i` on. Every
/// segment has to be looked at, up to the first missing one where the path may be missing.
pub open spec fn way_refusal(
    root: Seq<char>,
    segments: Seq<Seq<char>>,
    allow_missing: bool,
    probes: Seq<PathProbe>,
    i: int,
) -> Option<Refusal>
    decreases segments.len() - i,
{
    let here = prefix_path(root, segments, i + 1);
    if i >= segments.len() {
        None
    } else if i >= probes.len() {
        Some((FailureKind::Uninspectable, "inspect "@ + here))
    } else {
        match probes[i] {
            PathProbe::Entry => way_refusal(root, segments, allow_missing, probes, i + 1),
            PathProbe::Symlink => Some(
                (FailureKind::SymbolicLink, "symbolic links are forbidden: "@ + here),
            ),
            PathProbe::Missing(error) => if allow_missing {
                None
            } else {
                Some((FailureKind::Uninspectable, "inspect "@ + here + ": "@ + error@))
            },
            PathProbe::Failed(error) => Some(
                (FailureKind::Uninspectable, "inspect "@ + here + ": "@ + error@),
            ),
        }
    }
}

/// Why a path may not be used, if it may not: it is no workspace path, or a link leads to it.
pub open spec fn reach_refusal(
    root: Seq<char>,
    path: Seq<char>,
    allow_missing: bool,
    probes: Seq<PathProbe>,
) -> Option<Refusal> {
    match path_refusal(path) {
        Some(refusal) => Some(refusal),
        None => way_refusal(root, pieces(path, '/'), allow_missing, probes, 0),
    }
}

/// The path below the root, or why it may not be used.
pub open spec fn reached(
    root: Seq<char>,
    path: Seq<char>,
    allow_missing: bool,
    probes: Seq<PathProbe>,
) -> Result<Seq<char>, Refusal> {
    match reach_refusal(root, path, allow_missing, probes) {
        Some(refusal) => Err(refusal),
        None => Ok(joined_path(root, path)),
    }
}

/// The scope that a request names; a missing scope and `.` both mean the whole workspace.
pub open spec fn scope_of(
    root: Seq<char>,
    path: Option<Seq<char>>,
    probes: Seq<PathProbe>,
) -> Result<Option<Seq<char>>, Refusal> {
    match path {
        None => Ok(None),
        Some(scope) => if scope == "."@ {
            Ok(None)
        } else {
            match reach_refusal(root, scope, false, probes) {
                Some(refusal) => Err(refusal),
                None => Ok(Some(scope)),
            }
        },
    }
}

/// Whether a path lies in the scope and fits the pattern.
pub open spec fn wanted(
    scope: Option<Seq<char>>,
    glob: Option<Seq<char>>,
    candidate: Seq<char>,
) -> bool {
    &&& scope matches Some(directory) ==> lies_within(directory, candidate)
    &&& glob matches Some(pattern) ==> glob_accepts(pattern, candidate)
}

/// Whether a path lies in the scope and fits the pattern.
pub(crate) fn is_wanted(scope: &Option<String>, glob: Option<&str>, candidate: &str) -> (r: bool)
    ensures
        r == wanted(opt_text(*scope), opt_str(glob), candidate@),
{
    let in_scope = match scope {
        Some(directory) => path_contains(directory.as_str(), candidate),
        None => true,
    };
    let fits = match glob {
        Some(pattern) => glob_matches(pattern, candidate),
        None => true,
    };
    in_scope && fits
}

impl Workspace {
    /// Takes a directory into use, with an executable that was accepted for it.
    pub fn open(root: String, is_directory: bool, rg: RgExecutable) -> (r: Result<Workspace, Failure>)
        ensures
            refusal(r) == (if is_directory {
                None
            } else {
                Some((FailureKind::NotADirectory, "cwd is not a directory: "@ + root@))
            }),
            r matches Ok(workspace) ==> workspace.root == root && workspace.rg == rg,
    {
        if !is_directory {
            return Err(
                fail_about(FailureKind::NotADirectory, "cwd is not a directory: ", root.as_str()),
            );
        }
        Ok(Workspace { root, rg })
    }

    /// The canonical root.
    pub fn root(&self) -> (r: &str)
        ensures
            r@ == self.root@,
    {
        self.root.as_str()
    }

    /// The directory of the agent's own state.
    pub fn state_dir(&self) -> (r: String)
        ensures
            r@ == joined_path(self.root@, ".nuillu"@),
    {
        join_path(self.root.as_str(), ".nuillu")
    }

    /// The path below the root that a workspace path names.
    pub fn resolve_relative(&self, path: &str) -> (r: Result<String, Failure>)
        ensures
            outcome(r) == (match path_refusal(path@) {
                Some(refusal) => Err::<Seq<char>, Refusal>(refusal),
                None => Ok(joined_path(self.root@, path@)),
            }),
    {
        match validate_relative_path(path) {
            Err(failure) => Err(failure),
            Ok(()) => Ok(join_path(self.root.as_str(), path)),
        }
    }

    /// The paths to look at, in order, before a workspace path is used.
    pub fn path_prefixes(&self, path: &str) -> (r: Result<Vec<String>, Failure>)
        ensures
            texts_outcome(r) == (match path_refusal(path@) {
                Some(refusal) => Err::<Seq<Seq<char>>, Refusal>(refusal),
                None => Ok(
                    Seq::new(
                        pieces(path@, '/').len(),
                        |i: int| prefix_path(self.root@, pieces(path@, '/'), i + 1),
                    ),
                ),
            }),
    {
        match validate_relative_path(path) {
            Err(failure) => return Err(failure),
            Ok(()) => {},
        }
        let parts = split(path, '/');
        let ghost segments = pieces(path@, '/');
        let mut seen: Vec<String> = Vec::new();
        let mut prefixes: Vec<String> = Vec::new();
        let mut i: usize = 0;
        while i < parts.len()
            invariant
                parts@.len() == segments.len(),
                forall|k: int| 0 <= k < parts@.len() ==> (#[trigger] parts@[k])@ == segments[k],
                i <= parts@.len(),
                texts(seen@) == segments.take(i as int),
                prefixes@.len() == i,
                forall|k: int|
                    0 <= k < i ==> (#[trigger] prefixes@[k])@ == prefix_path(
                        self.root@,
                        segments,
                        k + 1,
                    ),
            decreases parts@.len() - i,
        {
            let segment = string_of(parts[i].as_slice());
            proof {
                lemma_texts_push(seen@, segment);
                assert(segments.take(i + 1) =~= segments.take(i as int).push(segments[i as int]));
            }
            seen.push(segment);
            let relative = join(&seen, "/");
            prefixes.push(join_path(self.root.as_str(), relative.as_str()));
            i = i + 1;
        }
        assert(texts(prefixes@) =~= Seq::new(
            segments.len(),
            |k: int| prefix_path(self.root@, segments, k + 1),
        ));
        Ok(prefixes)
    }

    /// The path below the root, unless something on the way to it is a symbolic link or cannot be
    /// looked at. `probes` holds what the looks at [`Workspace::path_prefixes`] found, in order.
    pub fn validate_no_symlink_prefix(
        &self,
        path: &str,
        allow_missing: bool,
        probes: &[PathProbe],
    ) -> (r: Result<String, Failure>)
        ensures
            outcome(r) == reached(self.root@, path@, allow_missing, probes@),
    {
        let prefixes = match self.path_prefixes(path) {
            Err(failure) => return Err(failure),
            Ok(prefixes) => prefixes,
        };
        let ghost segments = pieces(path@, '/');
        let mut i: usize = 0;
        while i < prefixes.len()
            invariant
                texts(prefixes@) == Seq::new(
                    segments.len(),
                    |k: int| prefix_path(self.root@, segments, k + 1),
                ),
                segments == pieces(path@, '/'),
                path_refusal(path@) is None,
                i <= prefixes@.len(),
                way_refusal(self.root@, segments, allow_missing, probes@, 0) == way_refusal(
                    self.root@,
                    segments,
                    allow_missing,
                    probes@,
                    i as int,
                ),
            decreases prefixes@.len() - i,
        {
            assert(texts(prefixes@).len() == segments.len());
            assert(texts(prefixes@)[i as int] == prefix_path(self.root@, segments, i + 1));
            let here = concat("inspect ", prefixes[i].as_str());
            if i >= probes.len() {
                return Err(Failure { kind: FailureKind::Uninspectable, message: here });
            }
            match &probes[i] {
                PathProbe::Entry => {},
                PathProbe::Symlink => {
                    return Err(
                        fail_about(
                            FailureKind::SymbolicLink,
                            "symbolic links are forbidden: ",
                            prefixes[i].as_str(),
                        ),
                    );
                },
                PathProbe::Missing(error) => {
                    if allow_missing {
                        return Ok(join_path(self.root.as_str(), path));
                    }
                    return Err(fail_in(FailureKind::Uninspectable, here.as_str(), error.as_str()));
                },
                PathProbe::Failed(error) => {
                    return Err(fail_in(FailureKind::Uninspectable, here.as_str(), error.as_str()));
                },
            }
            i = i + 1;
        }
        assert(texts(prefixes@).len() == segments.len());
        Ok(join_path(self.root.as_str(), path))
    }

    /// The scope that a request names; a missing scope and `.` both mean the whole workspace.
    pub fn resolve_scope(&self, path: Option<&str>, probes: &[PathProbe]) -> (r: Result<
        Option<String>,
        Failure,
    >)
        ensures
            (match r {
                Ok(scope) => Ok::<Option<Seq<char>>, Refusal>(opt_text(scope)),
                Err(failure) => Err(failure@),
            }) == scope_of(self.root@, opt_str(path), probes@),
    {
        match path {
            None => Ok(None),
            Some(scope) => {
                if same_text(scope, ".") {
                    return Ok(None);
                }
                match self.validate_no_symlink_prefix(scope, false, probes) {
                    Err(failure) => Err(failure),
                    Ok(_) => Ok(Some(copy(scope))),
                }
            },
        }
    }

    /// The path of a file that is to be created. `exists` says whether something is there already.
    pub fn validate_new_path(&self, path: &str, probes: &[PathProbe], exists: bool) -> (r: Result<
        String,
        Failure,
    >)
        ensures
            outcome(r) == new_path(self.root@, path@, probes@, exists),
    {
        match self.validate_no_symlink_prefix(path, true, probes) {
            Err(failure) => Err(failure),
            Ok(resolved) => if exists {
                Err(
                    fail_about(
                        FailureKind::DestinationExists,
                        "destination already exists: ",
                        path,
                    ),
                )
            } else {
                Ok(resolved)
            },
        }
    }
}

/// The path below the root of a file that is to be created, or why it cannot be created.
pub open spec fn new_path(
    root: Seq<char>,
    path: Seq<char>,
    probes: Seq<PathProbe>,
    exists: bool,
) -> Result<Seq<char>, Refusal> {
    match reached(root, path, true, probes) {
        Err(refusal) => Err(refusal),
        Ok(resolved) => if exists {
            Err((FailureKind::DestinationExists, "destination already exists: "@ + path))
        } else {
            Ok(resolved)
        },
    }
}

// ---------------------------------------------------------------------------------------------
// Laws
// ---------------------------------------------------------------------------------------------

/// A path that may be used has been looked at segment by segment, and no look found a link or
/// failed. Only where the path may be missing does a missing segment end the looks.
pub proof fn usable_paths_lead_through_no_link(
    root: Seq<char>,
    path: Seq<char>,
    allow_missing: bool,
    probes: Seq<PathProbe>,
    i: int,
)
    requires
        reached(root, path, allow_missing, probes) is Ok,
        0 <= i < pieces(path, '/').len(),
        forall|j: int| 0 <= j < i ==> probes[j] is Entry,
    ensures
        path_refusal(path) is None,
        i < probes.len(),
        probes[i] is Entry || (allow_missing && probes[i] is Missing),
{
    lemma_way(root, pieces(path, '/'), allow_missing, probes, 0, i);
}

proof fn lemma_way(
    root: Seq<char>,
    segments: Seq<Seq<char>>,
    allow_missing: bool,
    probes: Seq<PathProbe>,
    from: int,
    i: int,
)
    requires
        0 <= from <= i < segments.len(),
        way_refusal(root, segments, allow_missing, probes, from) is None,
        forall|j: int| from <= j < i ==> probes[j] is Entry,
    ensures
        i < probes.len(),
        probes[i] is Entry || (allow_missing && probes[i] is Missing),
    decreases i - from,
{
    if from < i {
        assert(probes[from] is Entry);
        lemma_way(root, segments, allow_missing, probes, from + 1, i);
    }
}

/// A request for the scope `.` is a request for the whole workspace.
pub proof fn dot_means_the_whole_workspace(root: Seq<char>, probes: Seq<PathProbe>)
    ensures
        scope_of(root, Some("."@), probes) == scope_of(root, None, probes),
        scope_of(root, None, probes) == Ok::<Option<Seq<char>>, Refusal>(None),
{
}

/// A file that is to be created lies below the root at a workspace path, and nothing is there.
pub proof fn new_paths_are_free(
    root: Seq<char>,
    path: Seq<char>,
    probes: Seq<PathProbe>,
    exists: bool,
)
    requires
        new_path(root, path, probes, exists) is Ok,
    ensures
        !exists,
        path_refusal(path) is None,
        new_path(root, path, probes, exists) == Ok::<Seq<char>, Refusal>(joined_path(root, path)),
{
}

/// What a workspace path names lies below the root.
pub proof fn resolved_paths_lie_below_the_root(root: Seq<char>, path: Seq<char>)
    requires
        root.len() > 0,
        path_refusal(path) is None,
    ensures
        lies_within(root, joined_path(root, path)),
{
    lemma_bare_scope(root);
    let bare = bare_scope(root);
    let whole = joined_path(root, path);
    reveal_strlit("/");
    if root.last() == '/' {
        assert(root[bare.len() as int] == '/');
    }
    assert(whole.subrange(0, (bare.len() + 1) as int) =~= bare + seq!['/']);
}

proof fn lemma_bare_scope(root: Seq<char>)
    ensures
        bare_scope(root).len() <= root.len(),
        bare_scope(root) == root.take(bare_scope(root).len() as int),
        forall|i: int| bare_scope(root).len() <= i < root.len() ==> root[i] == '/',
        root.len() > 0 && root.last() != '/' ==> bare_scope(root) == root,
        root.len() > 0 && root.last() == '/' ==> bare_scope(root).len() < root.len(),
    decreases root.len(),
{
    if root.len() > 0 && root.last() == '/' {
        lemma_bare_scope(root.drop_last());
        assert(bare_scope(root) =~= root.take(bare_scope(root).len() as int));
        assert forall|i: int| bare_scope(root).len() <= i < root.len() implies root[i] == '/' by {
            if i < root.len() - 1 {
                assert(root[i] == root.drop_last()[i]);
            }
        }
    } else {
        assert(root.take(root.len() as int) =~= root);
    }
}

} // verus!
