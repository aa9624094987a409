//! The ripgrep executable: its identity, its arguments and the output that is kept of a run.
use vstd::prelude::*;

use crate::answers::{is_inside, scopes_hold_what_is_below_them};
use crate::encoding::{show_bytes, shown_text};
use crate::failure::{fail, fail_about, refusal, Failure, FailureKind, Refusal};
use crate::paths::{lies_within, path_contains};
use crate::scan::{trim, trimmed};
use crate::text::{copy, copy_bytes, same_text, texts};

verus! {

/// Retained bytes of one listing or search.
pub const RG_OUTPUT_BYTE_LIMIT: usize = 262144;

/// Retained bytes of a listing that has to be complete.
pub const VISIBILITY_OUTPUT_BYTE_LIMIT: usize = 2097152;

/// Retained bytes of what a run reports about itself.
pub const RG_ERROR_BYTE_LIMIT: usize = 16384;

/// Seconds after which a run is given up.
pub const RG_TIMEOUT_SECONDS: u64 = 10;

// ---------------------------------------------------------------------------------------------
// Identity
// ---------------------------------------------------------------------------------------------

/// What tells one executable file from another.
#[derive(Clone, Debug, PartialEq, Eq)]
pub struct ExecutableIdentity {
    pub canonical_path: String,
    pub len: u64,
    /// Nanoseconds from the epoch to the last modification, where the file system knows it.
    pub modified: Option<i128>,
    pub device: u64,
    pub inode: u64,
}

impl View for ExecutableIdentity {
    type V = (Seq<char>, u64, Option<i128>, u64, u64);

    open spec fn view(&self) -> (Seq<char>, u64, Option<i128>, u64, u64) {
        (self.canonical_path@, self.len, self.modified, self.device, self.inode)
    }
}

impl ExecutableIdentity {
    /// Whether two observations show the same file in the same state.
    pub fn is_same(&self, other: &ExecutableIdentity) -> (r: bool)
        ensures
            r == (self@ == other@),
    {
        let same_time = match (self.modified, other.modified) {
            (Some(a), Some(b)) => a == b,
            (None, None) => true,
            _ => false,
        };
        same_text(self.canonical_path.as_str(), other.canonical_path.as_str()) && self.len
            == other.len && same_time && self.device == other.device && self.inode == other.inode
    }

    /// The same identity again.
    pub fn copy(&self) -> (r: ExecutableIdentity)
        ensures
            r@ == self@,
    {
        ExecutableIdentity {
            canonical_path: copy(self.canonical_path.as_str()),
            len: self.len,
            modified: self.modified,
            device: self.device,
            inode: self.inode,
        }
    }
}

/// What a look at an executable's path found.
#[derive(Debug)]
pub struct ExecutableProbe {
    pub is_file: bool,
    pub identity: ExecutableIdentity,
}

/// A ripgrep executable outside the workspace.
#[derive(Clone, Debug)]
pub struct RgExecutable {
    pub identity: ExecutableIdentity,
}

/// Why a ripgrep executable cannot be taken into use, if it cannot.
pub open spec fn rg_discovery_refusal(
    root: Seq<char>,
    found: Option<ExecutableProbe>,
    again: ExecutableProbe,
    success: bool,
    banner: Seq<u8>,
) -> Option<Refusal> {
    match found {
        None => Some((FailureKind::MissingExecutable, "find `rg` in PATH"@)),
        Some(first) => if !first.is_file {
            Some(not_a_file(first))
        } else if lies_within(root, first.identity@.0) {
            Some((FailureKind::ExecutableInside, "ripgrep executable must be outside cwd"@))
        } else if rg_change_refusal(first.identity, again) is Some {
            rg_change_refusal(first.identity, again)
        } else if !success || !is_rg_banner(banner) {
            Some((FailureKind::NotRipgrep, "resolved `rg` did not report a ripgrep version"@))
        } else {
            None
        },
    }
}

/// The refusal of a path that is no regular file.
pub open spec fn not_a_file(probe: ExecutableProbe) -> Refusal {
    (
        FailureKind::NotAFile,
        "ripgrep executable is not a regular file: "@ + probe.identity@.0,
    )
}

/// Why an executable that was in use cannot be used again, if it cannot.
pub open spec fn rg_change_refusal(identity: ExecutableIdentity, now: ExecutableProbe) -> Option<
    Refusal,
> {
    if !now.is_file {
        Some(not_a_file(now))
    } else if now.identity@ != identity@ {
        Some((FailureKind::ExecutableChanged, "ripgrep executable changed after startup"@))
    } else {
        None
    }
}

/// Whether the first thing that a version report says is ripgrep's name.
pub open spec fn is_rg_banner(output: Seq<u8>) -> bool {
    rg_version_banner().is_prefix_of(output)
}

/// `ripgrep` and a space, in ASCII.
pub open spec fn rg_version_banner() -> Seq<u8> {
    seq![114u8, 105u8, 112u8, 103u8, 114u8, 101u8, 112u8, 32u8]
}

/// Whether a version report is ripgrep's. It shows what the executable does, not what it is.
pub fn reports_ripgrep(output: &[u8]) -> (r: bool)
    ensures
        r == is_rg_banner(output@),
{
    let banner: [u8; 8] = [114u8, 105u8, 112u8, 103u8, 114u8, 101u8, 112u8, 32u8];
    assert(banner@ =~= rg_version_banner());
    if output.len() < 8 {
        return false;
    }
    let mut i: usize = 0;
    while i < 8
        invariant
            i <= 8,
            output@.len() >= 8,
            banner@ == rg_version_banner(),
            forall|k: int| 0 <= k < i ==> output@[k] == banner@[k],
        decreases 8 - i,
    {
        if output[i] != banner[i] {
            assert(output@[i as int] != rg_version_banner()[i as int]);
            return false;
        }
        i = i + 1;
    }
    assert(output@.take(8) =~= rg_version_banner());
    true
}

impl RgExecutable {
    /// Takes the executable found in `PATH` into use, after a second look at it and the report of
    /// its version.
    pub fn discover(
        root: &str,
        found: Option<ExecutableProbe>,
        again: &ExecutableProbe,
        success: bool,
        banner: &[u8],
    ) -> (r: Result<RgExecutable, Failure>)
        ensures
            refusal(r) == rg_discovery_refusal(root@, found, *again, success, banner@),
            r matches Ok(rg) ==> found matches Some(first) && rg.identity@ == first.identity@,
    {
        let first = match found {
            None => return Err(fail(FailureKind::MissingExecutable, "find `rg` in PATH")),
            Some(first) => first,
        };
        if !first.is_file {
            return Err(
                fail_about(
                    FailureKind::NotAFile,
                    "ripgrep executable is not a regular file: ",
                    first.identity.canonical_path.as_str(),
                ),
            );
        }
        if path_contains(root, first.identity.canonical_path.as_str()) {
            return Err(
                fail(FailureKind::ExecutableInside, "ripgrep executable must be outside cwd"),
            );
        }
        let executable = RgExecutable { identity: first.identity };
        match executable.revalidate(again) {
            Err(failure) => return Err(failure),
            Ok(()) => {},
        }
        if !success || !reports_ripgrep(banner) {
            return Err(
                fail(FailureKind::NotRipgrep, "resolved `rg` did not report a ripgrep version"),
            );
        }
        Ok(executable)
    }

    /// Accepts the executable again only in the state in which it was taken into use.
    pub fn revalidate(&self, now: &ExecutableProbe) -> (r: Result<(), Failure>)
        ensures
            refusal(r) == rg_change_refusal(self.identity, *now),
    {
        if !now.is_file {
            return Err(
                fail_about(
                    FailureKind::NotAFile,
                    "ripgrep executable is not a regular file: ",
                    now.identity.canonical_path.as_str(),
                ),
            );
        }
        if !now.identity.is_same(&self.identity) {
            return Err(
                fail(FailureKind::ExecutableChanged, "ripgrep executable changed after startup"),
            );
        }
        Ok(())
    }
}

/// A Git executable.
#[derive(Clone, Debug)]
pub struct GitExecutable {
    pub identity: ExecutableIdentity,
}

/// Why a Git executable cannot be used, given what it was when it was taken into use.
pub open spec fn git_change_refusal(
    identity: Option<ExecutableIdentity>,
    now: ExecutableProbe,
) -> Option<Refusal> {
    if !now.is_file {
        Some(
            (
                FailureKind::NotAFile,
                "Git executable is not a regular file: "@ + now.identity@.0,
            ),
        )
    } else if identity matches Some(before) && now.identity@ != before@ {
        Some((FailureKind::ExecutableChanged, "Git executable changed after startup"@))
    } else {
        None
    }
}

impl GitExecutable {
    /// Takes the executable found in `PATH` into use.
    pub fn discover(found: Option<ExecutableProbe>) -> (r: Result<GitExecutable, Failure>)
        ensures
            refusal(r) == (match found {
                None => Some((FailureKind::MissingExecutable, "find git in PATH"@)),
                Some(probe) => git_change_refusal(None, probe),
            }),
            r matches Ok(git) ==> found matches Some(probe) && git.identity@ == probe.identity@,
    {
        match found {
            None => Err(fail(FailureKind::MissingExecutable, "find git in PATH")),
            Some(probe) => {
                if !probe.is_file {
                    return Err(
                        fail_about(
                            FailureKind::NotAFile,
                            "Git executable is not a regular file: ",
                            probe.identity.canonical_path.as_str(),
                        ),
                    );
                }
                Ok(GitExecutable { identity: probe.identity })
            },
        }
    }

    /// Accepts the executable only outside a directory.
    pub fn reject_inside(&self, root: &str) -> (r: Result<(), Failure>)
        ensures
            refusal(r) == inside_refusal(root@, self.identity@.0),
    {
        if path_contains(root, self.identity.canonical_path.as_str()) {
            return Err(
                fail(
                    FailureKind::ExecutableInside,
                    "Git executable must be outside the repository",
                ),
            );
        }
        Ok(())
    }

    /// Accepts the executable again only in the state in which it was taken into use.
    pub fn revalidate(&self, now: &ExecutableProbe) -> (r: Result<(), Failure>)
        ensures
            refusal(r) == git_change_refusal(Some(self.identity), *now),
    {
        if !now.is_file {
            return Err(
                fail_about(
                    FailureKind::NotAFile,
                    "Git executable is not a regular file: ",
                    now.identity.canonical_path.as_str(),
                ),
            );
        }
        if !now.identity.is_same(&self.identity) {
            return Err(
                fail(FailureKind::ExecutableChanged, "Git executable changed after startup"),
            );
        }
        Ok(())
    }
}

/// Why a Git executable cannot be used on a repository, if it lies in it.
pub open spec fn inside_refusal(root: Seq<char>, executable: Seq<char>) -> Option<Refusal> {
    if lies_within(root, executable) {
        Some((FailureKind::ExecutableInside, "Git executable must be outside the repository"@))
    } else {
        None
    }
}

// ---------------------------------------------------------------------------------------------
// Arguments
// ---------------------------------------------------------------------------------------------

/// The arguments that every run begins with: no configuration files, hidden files shown, ignore
/// rules obeyed outside repositories too, and neither Git's data nor transaction files.
pub open spec fn base_args() -> Seq<Seq<char>> {
    seq![
        "--no-config"@,
        "--no-require-git"@,
        "--hidden"@,
        "--path-separator"@,
        "/"@,
        "--glob"@,
        "!.git/**"@,
        "--glob"@,
        "!**/.nuillu-code-*.tmp"@,
    ]
}

/// The arguments that every run begins with.
pub fn base_rg_args() -> (r: Vec<String>)
    ensures
        texts(r@) == base_args(),
{
    let mut args: Vec<String> = Vec::new();
    args.push(copy("--no-config"));
    args.push(copy("--no-require-git"));
    args.push(copy("--hidden"));
    args.push(copy("--path-separator"));
    args.push(copy("/"));
    args.push(copy("--glob"));
    args.push(copy("!.git/**"));
    args.push(copy("--glob"));
    args.push(copy("!**/.nuillu-code-*.tmp"));
    assert(texts(args@) =~= base_args());
    args
}

/// The arguments of a listing of all visible files, separated by zero bytes.
pub open spec fn listing_args() -> Seq<Seq<char>> {
    base_args() + seq!["--files"@, "--null"@]
}

/// The arguments of a listing of all visible files.
pub fn files_args() -> (r: Vec<String>)
    ensures
        texts(r@) == listing_args(),
{
    let mut args = base_rg_args();
    args.push(copy("--files"));
    args.push(copy("--null"));
    assert(texts(args@) =~= listing_args());
    args
}

/// The arguments of a search below the root. The pattern stands behind the end of the options, so
/// that no pattern is taken for one.
pub open spec fn searching_args(pattern: Seq<char>) -> Seq<Seq<char>> {
    base_args() + seq!["--json"@, "--"@, pattern, "."@]
}

/// The arguments of a search below the root.
pub fn search_args(pattern: &str) -> (r: Vec<String>)
    ensures
        texts(r@) == searching_args(pattern@),
{
    let mut args = base_rg_args();
    args.push(copy("--json"));
    args.push(copy("--"));
    args.push(copy(pattern));
    args.push(copy("."));
    assert(texts(args@) =~= searching_args(pattern@));
    args
}

// ---------------------------------------------------------------------------------------------
// Output
// ---------------------------------------------------------------------------------------------

/// What is kept of one ripgrep run.
#[derive(Debug)]
pub struct RgOutput {
    pub success: bool,
    pub stdout: Vec<u8>,
    pub stderr: Vec<u8>,
    pub truncated: bool,
}

/// The first `limit` bytes of what was read.
pub open spec fn limited(bytes: Seq<u8>, limit: nat) -> Seq<u8> {
    if bytes.len() > limit {
        bytes.take(limit as int)
    } else {
        bytes
    }
}

/// Keeps at most `limit` bytes and tells whether there were more.
pub fn read_limited(bytes: &[u8], limit: usize) -> (r: (Vec<u8>, bool))
    ensures
        r.0@ == limited(bytes@, limit as nat),
        r.1 == (bytes@.len() > limit),
{
    if bytes.len() > limit {
        let kept = vstd::slice::slice_subrange(bytes, 0, limit);
        assert(kept@ =~= bytes@.take(limit as int));
        (copy_bytes(kept), true)
    } else {
        (copy_bytes(bytes), false)
    }
}

/// The trimmed text of what a run reported about itself.
pub open spec fn error_text(output: RgOutput) -> Seq<char> {
    trimmed(shown_text(output.stderr@))
}

impl RgOutput {
    /// Keeps what the limits allow of the bytes that a run wrote.
    pub fn collect(success: bool, stdout: &[u8], stderr: &[u8], byte_limit: usize) -> (r: RgOutput)
        ensures
            r.success == success,
            r.stdout@ == limited(stdout@, byte_limit as nat),
            r.stderr@ == limited(stderr@, RG_ERROR_BYTE_LIMIT as nat),
            r.truncated == (stdout@.len() > byte_limit || stderr@.len() > RG_ERROR_BYTE_LIMIT),
    {
        let (out, out_truncated) = read_limited(stdout, byte_limit);
        let (err, err_truncated) = read_limited(stderr, RG_ERROR_BYTE_LIMIT);
        RgOutput { success, stdout: out, stderr: err, truncated: out_truncated || err_truncated }
    }

    /// The trimmed text of what the run reported about itself.
    pub fn stderr_text(&self) -> (r: String)
        ensures
            r@ == error_text(*self),
    {
        let text = show_bytes(self.stderr.as_slice());
        trim(text.as_str())
    }
}

// ---------------------------------------------------------------------------------------------
// Laws
// ---------------------------------------------------------------------------------------------

/// A ripgrep executable is taken into use exactly if it is a regular file outside the workspace, a second look
/// finds the same file, and its version report worked and begins with the name and a space.
pub proof fn only_an_outside_ripgrep_is_used(
    root: Seq<char>,
    found: Option<ExecutableProbe>,
    again: ExecutableProbe,
    success: bool,
    banner: Seq<u8>,
)
    ensures
        rg_discovery_refusal(root, found, again, success, banner) is None <==> {
            &&& found matches Some(first) && {
                &&& first.is_file
                &&& !is_inside(root, first.identity.canonical_path@)
                &&& again.identity.canonical_path@ == first.identity.canonical_path@
                &&& again.identity.len == first.identity.len
                &&& again.identity.modified == first.identity.modified
                &&& again.identity.device == first.identity.device
                &&& again.identity.inode == first.identity.inode
            }
            &&& again.is_file
            &&& success
            &&& seq![114u8, 105u8, 112u8, 103u8, 114u8, 101u8, 112u8, 32u8].is_prefix_of(banner)
        },
{
    if found is Some {
        scopes_hold_what_is_below_them(root, found->Some_0.identity.canonical_path@);
    }
}

/// An executable that was taken into use is used again exactly if it is still the same regular file.
pub proof fn a_changed_executable_is_not_used(identity: ExecutableIdentity, now: ExecutableProbe)
    ensures
        ({
            let same = {
                &&& now.is_file
                &&& now.identity.canonical_path@ == identity.canonical_path@
                &&& now.identity.len == identity.len
                &&& now.identity.modified == identity.modified
                &&& now.identity.device == identity.device
                &&& now.identity.inode == identity.inode
            };
            &&& rg_change_refusal(identity, now) is None <==> same
            &&& git_change_refusal(Some(identity), now) is None <==> same
        }),
{
}

/// A Git executable may be used on a repository exactly if it does not lie in it.
pub proof fn only_an_outside_git_is_used(root: Seq<char>, executable: Seq<char>)
    ensures
        inside_refusal(root, executable) is None <==> !is_inside(root, executable),
{
    scopes_hold_what_is_below_them(root, executable);
}

/// What is kept of an output is its beginning, all of it where it keeps to the limit.
pub proof fn outputs_are_cut_at_the_limit(bytes: Seq<u8>, limit: nat)
    ensures
        limited(bytes, limit).is_prefix_of(bytes),
        limited(bytes, limit).len() == (if bytes.len() < limit { bytes.len() } else { limit }),
{
    assert(bytes =~= bytes.subrange(0, bytes.len() as int));
}

} // verus!
