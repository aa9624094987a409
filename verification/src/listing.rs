//! Listing: the files that the ignore rules leave visible.
use vstd::prelude::*;

use crate::executable::{error_text, RgOutput};
use crate::failure::{fail, fail_about, outcome, refusal, Failure, FailureKind, Refusal};
use crate::glob::{glob_refusal, is_glob, validate_glob};
use crate::paths::{complete_delimited_prefix, declares_state_dir_ignore, delimited_len,
    ignores_state_dir, lies_within, listings_hold_only_workspace_paths, nul_separated_paths,
    path_contains, path_refusal, split_nul_paths};
use crate::scan::{lines, lines_of};
use crate::sorted::{is_sorted, sort, sorted_order_keeps_the_texts, sorted_texts};
use crate::text::{contains_text, copy, lemma_texts_push, opt_str, opt_text, texts};
use crate::workspace::{is_wanted, reach_refusal, scope_of, wanted, PathProbe, Workspace};

verus! {

/// Paths that one listing returns at most.
pub const FILE_LIMIT: usize = 100;


/// The listed paths, and whether there are more.
#[derive(Clone, Debug, PartialEq, Eq)]
pub struct FileList {
    pub paths: Vec<String>,
    pub truncated: bool,
}

impl View for FileList {
    type V = (Seq<Seq<char>>, bool);

    open spec fn view(&self) -> (Seq<Seq<char>>, bool) {
        (texts(self.paths@), self.truncated)
    }
}

/// The part of an output that holds whole records: all of it, or what precedes the cut.
pub open spec fn whole_records(output: RgOutput, delimiter: u8) -> Seq<u8> {
    if output.truncated {
        output.stdout@.take(delimited_len(output.stdout@, delimiter) as int)
    } else {
        output.stdout@
    }
}

/// The records of an output that came out whole.
pub(crate) fn records<'a>(output: &'a RgOutput, delimiter: u8) -> (r: &'a [u8])
    ensures
        r@ == whole_records(*output, delimiter),
{
    if output.truncated {
        complete_delimited_prefix(output.stdout.as_slice(), delimiter)
    } else {
        output.stdout.as_slice()
    }
}

/// The scope of a listing, or why the listing is not even started.
pub open spec fn listing_scope(
    root: Seq<char>,
    glob: Option<Seq<char>>,
    path: Option<Seq<char>>,
    probes: Seq<PathProbe>,
) -> Result<Option<Seq<char>>, Refusal> {
    if glob matches Some(pattern) && !is_glob(pattern) {
        Err(glob_refusal())
    } else {
        scope_of(root, path, probes)
    }
}

/// The listed paths that are wanted, in sorted order and up to the limit.
pub open spec fn file_list(
    listed: Seq<Seq<char>>,
    scope: Option<Seq<char>>,
    glob: Option<Seq<char>>,
    limit: nat,
    cut: bool,
) -> (Seq<Seq<char>>, bool) {
    let found = sorted_texts(listed.filter(|candidate: Seq<char>| wanted(scope, glob, candidate)));
    if found.len() > limit {
        (found.take(limit as int), true)
    } else {
        (found, cut)
    }
}

/// What a listing request answers, given what the file system and ripgrep showed.
pub open spec fn files_answer(
    root: Seq<char>,
    glob: Option<Seq<char>>,
    path: Option<Seq<char>>,
    limit: nat,
    probes: Seq<PathProbe>,
    output: RgOutput,
) -> Result<(Seq<Seq<char>>, bool), Refusal> {
    match listing_scope(root, glob, path, probes) {
        Err(refusal) => Err(refusal),
        Ok(scope) => if !output.success {
            Err(
                (
                    FailureKind::ListingFailed,
                    "ripgrep file listing failed: "@ + error_text(output),
                ),
            )
        } else {
            match nul_separated_paths(whole_records(output, 0u8)) {
                Err(refusal) => Err(refusal),
                Ok(listed) => Ok(file_list(listed, scope, glob, limit, output.truncated)),
            }
        },
    }
}

/// The wanted paths of a list, in the order of the list.
fn keep_wanted(listed: &Vec<String>, scope: &Option<String>, glob: Option<&str>) -> (r: Vec<String>)
    ensures
        texts(r@) == texts(listed@).filter(
            |candidate: Seq<char>| wanted(opt_text(*scope), opt_str(glob), candidate),
        ),
{
    let ghost keep = |candidate: Seq<char>| wanted(opt_text(*scope), opt_str(glob), candidate);
    let ghost all = texts(listed@);
    let mut kept: Vec<String> = Vec::new();
    let mut i: usize = 0;
    proof {
        assert(all.take(0) =~= Seq::empty());
        reveal(Seq::filter);
        assert(texts(kept@) =~= all.take(0).filter(keep));
    }
    while i < listed.len()
        invariant
            keep == (|candidate: Seq<char>| wanted(opt_text(*scope), opt_str(glob), candidate)),
            all == texts(listed@),
            i <= listed@.len(),
            texts(kept@) == all.take(i as int).filter(keep),
        decreases listed@.len() - i,
    {
        proof {
            let grown = all.take(i + 1);
            assert(grown.drop_last() =~= all.take(i as int));
            assert(grown.last() == listed@[i as int]@);
            reveal(Seq::filter);
        }
        if is_wanted(scope, glob, listed[i].as_str()) {
            let item = copy(listed[i].as_str());
            proof {
                lemma_texts_push(kept@, item);
            }
            kept.push(item);
        }
        i = i + 1;
    }
    assert(all.take(i as int) =~= all);
    kept
}

impl Workspace {
    /// Settles the scope of a listing before ripgrep is run.
    pub fn admit_listing(
        &self,
        glob: Option<&str>,
        path: Option<&str>,
        probes: &[PathProbe],
    ) -> (r: Result<Option<String>, Failure>)
        ensures
            (match r {
                Ok(scope) => Ok::<Option<Seq<char>>, Refusal>(opt_text(scope)),
                Err(failure) => Err(failure@),
            }) == listing_scope(self.root@, opt_str(glob), opt_str(path), probes@),
    {
        match glob {
            Some(pattern) => {
                match validate_glob(pattern) {
                    Err(failure) => return Err(failure),
                    Ok(()) => {},
                }
            },
            None => {},
        }
        self.resolve_scope(path, probes)
    }

    /// Lists the visible files in a scope that fit a pattern, sorted and at most `limit` of them.
    /// `output` is what the run with [`crate::executable::files_args`] gave.
    pub fn visible_files(
        &self,
        glob: Option<&str>,
        path: Option<&str>,
        limit: usize,
        probes: &[PathProbe],
        output: &RgOutput,
    ) -> (r: Result<FileList, Failure>)
        ensures
            outcome(r) == files_answer(
                self.root@,
                opt_str(glob),
                opt_str(path),
                limit as nat,
                probes@,
                *output,
            ),
    {
        let scope = match self.admit_listing(glob, path, probes) {
            Err(failure) => return Err(failure),
            Ok(scope) => scope,
        };
        if !output.success {
            let reason = output.stderr_text();
            return Err(
                fail_about(
                    FailureKind::ListingFailed,
                    "ripgrep file listing failed: ",
                    reason.as_str(),
                ),
            );
        }
        let listed = match split_nul_paths(records(output, 0u8)) {
            Err(failure) => return Err(failure),
            Ok(listed) => listed,
        };
        let kept = keep_wanted(&listed, &scope, glob);
        let mut paths = sort(kept);
        let ghost found = texts(paths@);
        if paths.len() > limit {
            paths.truncate(limit);
            assert(texts(paths@) =~= found.take(limit as int));
            return Ok(FileList { paths, truncated: true });
        }
        Ok(FileList { paths, truncated: output.truncated })
    }

    /// Whether a path is a file that the ignore rules leave visible. `output` is what the run with
    /// [`crate::executable::files_args`] gave.
    pub fn is_visible_existing(&self, path: &str, probes: &[PathProbe], output: &RgOutput) -> (r:
        Result<bool, Failure>)
        ensures
            bool_outcome(r) == visibility(self.root@, path@, probes@, *output),
    {
        match self.validate_no_symlink_prefix(path, false, probes) {
            Err(failure) => return Err(failure),
            Ok(_) => {},
        }
        if !output.success {
            let reason = output.stderr_text();
            return Err(
                fail_about(
                    FailureKind::ListingFailed,
                    "ripgrep visibility check failed: ",
                    reason.as_str(),
                ),
            );
        }
        if output.truncated {
            return Err(
                fail(
                    FailureKind::ListingTooLong,
                    "workspace file listing exceeded the safety limit",
                ),
            );
        }
        match split_nul_paths(output.stdout.as_slice()) {
            Err(failure) => Err(failure),
            Ok(listed) => Ok(contains_text(&listed, path)),
        }
    }

    /// Accepts a workspace only where its own `.gitignore` names the state directory and no other
    /// ignore rule brings it back. `output` is what the run with
    /// [`crate::executable::files_args`] gave.
    pub fn verify_state_dir_is_ignored(&self, gitignore: &str, output: &RgOutput) -> (r: Result<
        (),
        Failure,
    >)
        ensures
            refusal(r) == state_dir_refusal(gitignore@, *output),
    {
        match Self::require_ignore_rule(gitignore) {
            Err(failure) => return Err(failure),
            Ok(()) => {},
        }
        if !output.success || output.truncated {
            return Err(
                fail(
                    FailureKind::ListingFailed,
                    "could not verify the complete workspace ignore boundary",
                ),
            );
        }
        let listed = match split_nul_paths(output.stdout.as_slice()) {
            Err(failure) => return Err(failure),
            Ok(listed) => listed,
        };
        let ghost all = texts(listed@);
        let mut i: usize = 0;
        while i < listed.len()
            invariant
                all == texts(listed@),
                i <= listed@.len(),
                has_ignore_rule(gitignore@),
                output.success,
                !output.truncated,
                nul_separated_paths(output.stdout@) == Ok::<Seq<Seq<char>>, Refusal>(all),
                forall|k: int| 0 <= k < i ==> !lies_within(".nuillu"@, #[trigger] all[k]),
            decreases listed@.len() - i,
        {
            assert(all.len() == listed@.len() && all[i as int] == listed@[i as int]@);
            if path_contains(".nuillu", listed[i].as_str()) {
                assert(shows_state_dir(all));
                return Err(
                    fail(
                        FailureKind::StateDirVisible,
                        ".nuillu is re-included by an ignore source",
                    ),
                );
            }
            i = i + 1;
        }
        Ok(())
    }

    /// Accepts a `.gitignore` that names the state directory at the root.
    pub fn require_ignore_rule(gitignore: &str) -> (r: Result<(), Failure>)
        ensures
            refusal(r) == (if has_ignore_rule(gitignore@) {
                None
            } else {
                Some(
                    (
                        FailureKind::StateDirNotIgnored,
                        "cwd/.gitignore must contain a root .nuillu ignore rule"@,
                    ),
                )
            }),
    {
        let all = lines_of(gitignore);
        let mut i: usize = 0;
        while i < all.len()
            invariant
                i <= all@.len(),
                texts(all@) == lines(gitignore@),
                forall|k: int| 0 <= k < i ==> !ignores_state_dir(#[trigger] lines(gitignore@)[k]),
            decreases all@.len() - i,
        {
            assert(texts(all@)[i as int] == all@[i as int]@);
            if declares_state_dir_ignore(all[i].as_str()) {
                return Ok(());
            }
            i = i + 1;
        }
        assert(texts(all@).len() == all@.len());
        Err(
            fail(
                FailureKind::StateDirNotIgnored,
                "cwd/.gitignore must contain a root .nuillu ignore rule",
            ),
        )
    }
}

/// Whether a `.gitignore` names the state directory at the root.
pub open spec fn has_ignore_rule(gitignore: Seq<char>) -> bool {
    exists|i: int|
        0 <= i < lines(gitignore).len() && ignores_state_dir(#[trigger] lines(gitignore)[i])
}

/// Whether a listing shows the state directory or something below it.
pub open spec fn shows_state_dir(listed: Seq<Seq<char>>) -> bool {
    exists|i: int| 0 <= i < listed.len() && lies_within(".nuillu"@, #[trigger] listed[i])
}

/// Why a workspace may not be used, if its state directory is not safely ignored.
pub open spec fn state_dir_refusal(gitignore: Seq<char>, output: RgOutput) -> Option<Refusal> {
    if !has_ignore_rule(gitignore) {
        Some(
            (
                FailureKind::StateDirNotIgnored,
                "cwd/.gitignore must contain a root .nuillu ignore rule"@,
            ),
        )
    } else if !output.success || output.truncated {
        Some(
            (
                FailureKind::ListingFailed,
                "could not verify the complete workspace ignore boundary"@,
            ),
        )
    } else {
        match nul_separated_paths(output.stdout@) {
            Err(refusal) => Some(refusal),
            Ok(listed) => if shows_state_dir(listed) {
                Some(
                    (FailureKind::StateDirVisible, ".nuillu is re-included by an ignore source"@),
                )
            } else {
                None
            },
        }
    }
}

/// Whether a path is a visible file, or why that cannot be told.
pub open spec fn visibility(
    root: Seq<char>,
    path: Seq<char>,
    probes: Seq<PathProbe>,
    output: RgOutput,
) -> Result<bool, Refusal> {
    match reach_refusal(root, path, false, probes) {
        Some(refusal) => Err(refusal),
        None => if !output.success {
            Err(
                (
                    FailureKind::ListingFailed,
                    "ripgrep visibility check failed: "@ + error_text(output),
                ),
            )
        } else if output.truncated {
            Err(
                (
                    FailureKind::ListingTooLong,
                    "workspace file listing exceeded the safety limit"@,
                ),
            )
        } else {
            match nul_separated_paths(output.stdout@) {
                Err(refusal) => Err(refusal),
                Ok(listed) => Ok(listed.contains(path)),
            }
        },
    }
}

/// A yes, a no or a refusal.
pub open spec fn bool_outcome(r: Result<bool, Failure>) -> Result<bool, Refusal> {
    match r {
        Ok(answer) => Ok(answer),
        Err(failure) => Err(failure@),
    }
}

// ---------------------------------------------------------------------------------------------
// Laws
// ---------------------------------------------------------------------------------------------

/// A listing returns sorted workspace paths that ripgrep listed and that are wanted, and no more
/// of them than the limit. A listing that does not count as truncated holds all of them.
pub proof fn listings_are_bounded_and_complete(
    root: Seq<char>,
    glob: Option<Seq<char>>,
    path: Option<Seq<char>>,
    limit: nat,
    probes: Seq<PathProbe>,
    output: RgOutput,
    listed: Seq<Seq<char>>,
    scope: Option<Seq<char>>,
    paths: Seq<Seq<char>>,
    truncated: bool,
)
    requires
        files_answer(root, glob, path, limit, probes, output) == Ok::<
            (Seq<Seq<char>>, bool),
            Refusal,
        >((paths, truncated)),
        scope_of(root, path, probes) == Ok::<Option<Seq<char>>, Refusal>(scope),
        nul_separated_paths(whole_records(output, 0u8)) == Ok::<Seq<Seq<char>>, Refusal>(listed),
    ensures
        paths.len() <= limit,
        is_sorted(paths),
        forall|p: Seq<char>| #[trigger]
            paths.contains(p) ==> listed.contains(p) && wanted(scope, glob, p) && path_refusal(p)
                is None,
        !truncated ==> !output.truncated,
        !truncated ==> forall|p: Seq<char>| #[trigger]
            listed.contains(p) && wanted(scope, glob, p) ==> paths.contains(p),
{
    broadcast use vstd::seq_lib::group_to_multiset_ensures;

    let keep = |candidate: Seq<char>| wanted(scope, glob, candidate);
    let kept = listed.filter(keep);
    let found = sorted_texts(kept);
    sorted_order_keeps_the_texts(kept);
    listings_hold_only_workspace_paths(whole_records(output, 0u8));
    assert forall|p: Seq<char>| #[trigger] found.contains(p) implies kept.contains(p) by {
        assert(found.to_multiset().contains(p));
    }
    assert forall|p: Seq<char>| #[trigger] kept.contains(p) implies found.contains(p) by {
        assert(kept.to_multiset().contains(p));
    }
    assert forall|p: Seq<char>| #[trigger] kept.contains(p) implies listed.contains(p)
        && wanted(scope, glob, p) by {
        lemma_filter_contains(listed, keep, p);
    }
    assert forall|p: Seq<char>| #[trigger]
        listed.contains(p) && wanted(scope, glob, p) implies kept.contains(p) by {
        lemma_filter_contains(listed, keep, p);
    }
    assert forall|p: Seq<char>| #[trigger] paths.contains(p) implies found.contains(p) by {
        let i = paths.index_of(p);
        assert(paths[i] == p);
        assert(found[i] == p);
    }
}

proof fn lemma_filter_contains(s: Seq<Seq<char>>, keep: spec_fn(Seq<char>) -> bool, p: Seq<char>)
    ensures
        s.filter(keep).contains(p) <==> s.contains(p) && keep(p),
    decreases s.len(),
{
    reveal(Seq::filter);
    if s.len() > 0 {
        let rest = s.drop_last();
        lemma_filter_contains(rest, keep, p);
        assert(s =~= rest.push(s.last()));
        if rest.contains(p) {
            let i = rest.index_of(p);
            assert(s[i] == p);
        }
        if s.contains(p) && p != s.last() {
            let i = s.index_of(p);
            assert(rest[i] == p);
        }
        if s.last() == p {
            assert(s[s.len() - 1] == p);
        }
        let inner = rest.filter(keep);
        if keep(s.last()) {
            assert(s.filter(keep) == inner.push(s.last()));
            if inner.contains(p) {
                let i = inner.index_of(p);
                assert(inner.push(s.last())[i] == p);
            }
            if s.last() == p {
                assert(inner.push(s.last())[inner.len() as int] == p);
            }
            if inner.push(s.last()).contains(p) && p != s.last() {
                let i = inner.push(s.last()).index_of(p);
                assert(inner[i] == p);
            }
        }
    }
}

/// In a workspace whose state directory was found to be ignored, nothing in that directory is
/// visible to a tool that goes by the same listing.
pub proof fn the_state_directory_is_invisible(
    gitignore: Seq<char>,
    root: Seq<char>,
    path: Seq<char>,
    probes: Seq<PathProbe>,
    output: RgOutput,
)
    requires
        state_dir_refusal(gitignore, output) is None,
        lies_within(".nuillu"@, path),
    ensures
        visibility(root, path, probes, output) != Ok::<bool, Refusal>(true),
{
    if visibility(root, path, probes, output) == Ok::<bool, Refusal>(true) {
        let listed = nul_separated_paths(output.stdout@)->Ok_0;
        let i = listed.index_of(path);
        assert(listed.contains(path));
        assert(lies_within(".nuillu"@, listed[i]));
        assert(shows_state_dir(listed));
    }
}

} // verus!
