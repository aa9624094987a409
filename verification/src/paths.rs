//! The workspace boundary: which paths and names a coding tool may speak of.
use vstd::prelude::*;
use vstd::slice::slice_subrange;

use crate::encoding::{decimal, decimal_text, decode_text, utf8_text};
use crate::failure::{fail, Failure, FailureKind};
use crate::scan::{begins_with, ends_with, is_at, pieces, split, split_bytes, stands_at, trim,
    trimmed};
use crate::text::{chars_of, concat, concat3, is_text, same_text, string_of, texts};

verus! {

/// The state directory, which must stay invisible to every coding tool.
pub const STATE_DIR_NAME: &'static str = ".nuillu";

/// What the names of in-progress transaction files begin with. No workspace path may use them.
pub const TRANSACTION_FILE_PREFIX: &'static str = ".nuillu-code-";

/// What the names of in-progress transaction files end with.
pub const TRANSACTION_FILE_SUFFIX: &'static str = ".tmp";

/// The name of the transaction file with this number.
pub open spec fn transaction_name(id: nat) -> Seq<char> {
    TRANSACTION_FILE_PREFIX@ + decimal(id) + TRANSACTION_FILE_SUFFIX@
}

/// Whether a path segment has the shape of a transaction file name.
pub open spec fn is_transaction_name(segment: Seq<char>) -> bool {
    stands_at(segment, TRANSACTION_FILE_PREFIX@, 0) && stands_at(
        segment,
        TRANSACTION_FILE_SUFFIX@,
        segment.len() - TRANSACTION_FILE_SUFFIX@.len(),
    )
}

/// The name of an in-progress transaction file, which no workspace path may use.
pub fn transaction_file_name(transaction_id: u64) -> (r: String)
    ensures
        r@ == transaction_name(transaction_id as nat),
{
    let id = decimal_text(transaction_id);
    concat3(TRANSACTION_FILE_PREFIX, id.as_str(), TRANSACTION_FILE_SUFFIX)
}

/// Whether a path segment has the shape of a transaction file name.
pub fn is_transaction_file_name(segment: &str) -> (r: bool)
    ensures
        r == is_transaction_name(segment@),
{
    begins_with(segment, TRANSACTION_FILE_PREFIX) && ends_with(segment, TRANSACTION_FILE_SUFFIX)
}

/// Every transaction file name is recognised as one, and two transactions never share a name.
pub proof fn transaction_names_are_reserved_and_distinct(a: nat, b: nat)
    ensures
        is_transaction_name(transaction_name(a)),
        transaction_name(a) == transaction_name(b) ==> a == b,
{
    let p = TRANSACTION_FILE_PREFIX@;
    let t = TRANSACTION_FILE_SUFFIX@;
    let name = transaction_name(a);
    assert(name.subrange(0, p.len() as int) =~= p);
    assert(name.subrange(name.len() - t.len(), name.len() as int) =~= t);
    if transaction_name(a) == transaction_name(b) {
        let other = transaction_name(b);
        assert(name.subrange(p.len() as int, name.len() - t.len()) =~= decimal(a));
        assert(other.subrange(p.len() as int, other.len() - t.len()) =~= decimal(b));
        crate::encoding::decimal_reads_back(a);
        crate::encoding::decimal_reads_back(b);
    }
}

// ---------------------------------------------------------------------------------------------
// Relative paths
// ---------------------------------------------------------------------------------------------

/// What is wrong with the segment at position `i` of a path, if anything.
pub open spec fn segment_failure(segments: Seq<Seq<char>>, i: int) -> Option<FailureKind> {
    let segment = segments[i];
    if segment == ".."@ || (i == 0 && (segment.len() == 0 || segment == "."@)) {
        Some(FailureKind::NotRelative)
    } else if segment == ".git"@ {
        Some(FailureKind::GitPath)
    } else if is_transaction_name(segment) {
        Some(FailureKind::ReservedPath)
    } else {
        None
    }
}

/// What is wrong with the first bad segment from position `i` on.
pub open spec fn first_segment_failure(segments: Seq<Seq<char>>, i: int) -> Option<FailureKind>
    decreases segments.len() - i,
{
    if i < 0 || i >= segments.len() {
        None
    } else if segment_failure(segments, i) is Some {
        segment_failure(segments, i)
    } else {
        first_segment_failure(segments, i + 1)
    }
}

/// Whether a segment is one that a canonical path leaves out.
pub open spec fn is_redundant(segment: Seq<char>) -> bool {
    segment.len() == 0 || segment == "."@
}

/// Why a text is no workspace path, if it is none.
pub open spec fn path_failure(path: Seq<char>) -> Option<FailureKind> {
    let segments = pieces(path, '/');
    if path.len() == 0 {
        Some(FailureKind::EmptyPath)
    } else if first_segment_failure(segments, 0) is Some {
        first_segment_failure(segments, 0)
    } else if exists|i: int| 0 <= i < segments.len() && is_redundant(#[trigger] segments[i]) {
        Some(FailureKind::NotCanonical)
    } else {
        None
    }
}

/// The message that goes with a refused path.
pub open spec fn path_message(kind: FailureKind) -> Seq<char> {
    match kind {
        FailureKind::EmptyPath => "path must not be empty"@,
        FailureKind::NotRelative => "absolute paths, `.` and `..` are forbidden"@,
        FailureKind::GitPath => ".git is always forbidden"@,
        FailureKind::ReservedPath => "reserved transaction paths are forbidden"@,
        _ => "path must use one canonical `/` separator between components"@,
    }
}

/// The refusal of a text that is no workspace path.
pub open spec fn path_refusal(path: Seq<char>) -> Option<(FailureKind, Seq<char>)> {
    match path_failure(path) {
        Some(kind) => Some((kind, path_message(kind))),
        None => None,
    }
}

/// Accepts a canonical relative path below the workspace root and nothing else.
pub fn validate_relative_path(path: &str) -> (r: Result<(), Failure>)
    ensures
        match path_refusal(path@) {
            Some(refusal) => r matches Err(failure) && failure@ == refusal,
            None => r is Ok,
        },
{
    if path.is_empty() {
        return Err(fail(FailureKind::EmptyPath, "path must not be empty"));
    }
    let parts = split(path, '/');
    let ghost segments = pieces(path@, '/');
    let mut redundant = false;
    let mut i: usize = 0;
    while i < parts.len()
        invariant
            parts@.len() == segments.len(),
            path@.len() > 0,
            segments == pieces(path@, '/'),
            forall|k: int| 0 <= k < parts@.len() ==> (#[trigger] parts@[k])@ == segments[k],
            i <= parts@.len(),
            first_segment_failure(segments, 0) == first_segment_failure(segments, i as int),
            redundant == exists|k: int| 0 <= k < i && is_redundant(#[trigger] segments[k]),
        decreases parts@.len() - i,
    {
        let part = parts[i].as_slice();
        let ghost segment = segments[i as int];
        let dot = is_text(part, ".");
        if is_text(part, "..") || (i == 0 && (part.len() == 0 || dot)) {
            return Err(fail(FailureKind::NotRelative, "absolute paths, `.` and `..` are forbidden"));
        }
        if is_text(part, ".git") {
            return Err(fail(FailureKind::GitPath, ".git is always forbidden"));
        }
        let name = string_of(part);
        if is_transaction_file_name(name.as_str()) {
            return Err(fail(FailureKind::ReservedPath, "reserved transaction paths are forbidden"));
        }
        if part.len() == 0 || dot {
            redundant = true;
            assert(is_redundant(segments[i as int]));
        }
        i = i + 1;
    }
    if redundant {
        return Err(
            fail(
                FailureKind::NotCanonical,
                "path must use one canonical `/` separator between components",
            ),
        );
    }
    Ok(())
}

proof fn lemma_first_segment_failure(segments: Seq<Seq<char>>, i: int)
    requires
        0 <= i,
    ensures
        first_segment_failure(segments, i) is None <==> (forall|k: int|
            i <= k < segments.len() ==> segment_failure(segments, k) is None),
    decreases segments.len() - i,
{
    if i < segments.len() {
        lemma_first_segment_failure(segments, i + 1);
    }
}

/// A path is accepted exactly if each of its segments is a plain name: not empty, not `.` or `..`,
/// not `.git`, and not the name of a transaction file. So an accepted path never leaves the root.
pub proof fn accepted_paths_consist_of_plain_names(path: Seq<char>)
    ensures
        path_failure(path) is None <==> (forall|i: int|
            0 <= i < pieces(path, '/').len() ==> {
                let segment = #[trigger] pieces(path, '/')[i];
                &&& segment.len() > 0
                &&& segment != "."@
                &&& segment != ".."@
                &&& segment != ".git"@
                &&& !is_transaction_name(segment)
            }),
{
    let segments = pieces(path, '/');
    crate::scan::lemma_pieces_nonempty(path, '/');
    lemma_first_segment_failure(segments, 0);
    if path_failure(path) is None {
        assert forall|i: int| 0 <= i < segments.len() implies {
            let segment = #[trigger] segments[i];
            &&& segment.len() > 0
            &&& segment != "."@
            &&& segment != ".."@
            &&& segment != ".git"@
            &&& !is_transaction_name(segment)
        } by {
            assert(segment_failure(segments, i) is None);
            assert(!is_redundant(segments[i]));
        }
    }
    if path.len() == 0 {
        assert(segments[0].len() == 0);
    }
    if path.len() > 0 && first_segment_failure(segments, 0) is Some {
        let i = choose|i: int| 0 <= i < segments.len() && segment_failure(segments, i) is Some;
        let segment = segments[i];
        assert(segment.len() == 0 || segment == "."@ || segment == ".."@ || segment == ".git"@
            || is_transaction_name(segment));
    }
}

// ---------------------------------------------------------------------------------------------
// Scopes and joins
// ---------------------------------------------------------------------------------------------

/// A scope without the separators at its end.
pub open spec fn bare_scope(scope: Seq<char>) -> Seq<char>
    decreases scope.len(),
{
    if scope.len() > 0 && scope.last() == '/' {
        bare_scope(scope.drop_last())
    } else {
        scope
    }
}

/// Whether `candidate` is `scope` itself or sits below it.
pub open spec fn lies_within(scope: Seq<char>, candidate: Seq<char>) -> bool {
    let bare = bare_scope(scope);
    candidate == bare || stands_at(candidate, bare + seq!['/'], 0)
}

/// Whether `candidate` is `scope` itself or sits below it.
pub fn path_contains(scope: &str, candidate: &str) -> (r: bool)
    ensures
        r == lies_within(scope@, candidate@),
{
    let mut bare = chars_of(scope);
    while bare.len() > 0 && bare[bare.len() - 1] == '/'
        invariant
            bare_scope(scope@) == bare_scope(bare@),
        decreases bare@.len(),
    {
        let ghost before = bare@;
        bare.pop();
        assert(bare@ =~= before.drop_last());
    }
    if is_text(bare.as_slice(), candidate) {
        return true;
    }
    let ghost kept = bare@;
    bare.push('/');
    assert(bare@ =~= kept + seq!['/']);
    let whole = chars_of(candidate);
    is_at(whole.as_slice(), bare.as_slice(), 0)
}

/// A relative path below a directory.
pub open spec fn joined_path(directory: Seq<char>, relative: Seq<char>) -> Seq<char> {
    if directory.len() == 0 || directory.last() == '/' {
        directory + relative
    } else {
        directory + "/"@ + relative
    }
}

/// The path of `relative` below `directory`.
pub fn join_path(directory: &str, relative: &str) -> (r: String)
    ensures
        r@ == joined_path(directory@, relative@),
{
    let chars = chars_of(directory);
    if chars.len() == 0 || chars[chars.len() - 1] == '/' {
        concat(directory, relative)
    } else {
        concat3(directory, "/", relative)
    }
}

// ---------------------------------------------------------------------------------------------
// Listings
// ---------------------------------------------------------------------------------------------

/// The path that one entry of a listing stands for, or why it stands for none.
pub open spec fn listed_path(entry: Seq<u8>) -> Result<Seq<char>, (FailureKind, Seq<char>)> {
    match utf8_text(entry) {
        None => Err((FailureKind::NonUtf8Path, "ripgrep returned a non-UTF-8 path"@)),
        Some(path) => match path_refusal(path) {
            Some(refusal) => Err(refusal),
            None => Ok(path),
        },
    }
}

/// The paths that the non-empty entries of a listing stand for, or the first refusal.
pub open spec fn listed_paths(entries: Seq<Seq<u8>>) -> Result<
    Seq<Seq<char>>,
    (FailureKind, Seq<char>),
>
    decreases entries.len(),
{
    if entries.len() == 0 {
        Ok(Seq::empty())
    } else {
        match listed_paths(entries.drop_last()) {
            Err(refusal) => Err(refusal),
            Ok(paths) => if entries.last().len() == 0 {
                Ok(paths)
            } else {
                match listed_path(entries.last()) {
                    Err(refusal) => Err(refusal),
                    Ok(path) => Ok(paths.push(path)),
                }
            },
        }
    }
}

/// The paths of a listing whose entries are separated by zero bytes.
pub open spec fn nul_separated_paths(bytes: Seq<u8>) -> Result<
    Seq<Seq<char>>,
    (FailureKind, Seq<char>),
> {
    listed_paths(pieces(bytes, 0u8))
}

/// A list of strings or a refusal, over texts.
pub open spec fn texts_outcome(r: Result<Vec<String>, Failure>) -> Result<
    Seq<Seq<char>>,
    (FailureKind, Seq<char>),
> {
    match r {
        Ok(list) => Ok(texts(list@)),
        Err(failure) => Err(failure@),
    }
}

proof fn lemma_listed_paths_failure(entries: Seq<Seq<u8>>, n: int)
    requires
        0 <= n <= entries.len(),
        listed_paths(entries.take(n)) is Err,
    ensures
        listed_paths(entries) == listed_paths(entries.take(n)),
    decreases entries.len() - n,
{
    if n < entries.len() {
        assert(entries.take(n + 1).drop_last() =~= entries.take(n));
        lemma_listed_paths_failure(entries, n + 1);
    } else {
        assert(entries.take(n) =~= entries);
    }
}

/// The paths of a listing whose entries are separated by zero bytes.
pub fn split_nul_paths(bytes: &[u8]) -> (r: Result<Vec<String>, Failure>)
    ensures
        texts_outcome(r) == nul_separated_paths(bytes@),
{
    let parts = split_bytes(bytes, 0u8);
    let ghost entries = pieces(bytes@, 0u8);
    let mut paths: Vec<String> = Vec::new();
    let mut i: usize = 0;
    assert(texts(paths@) =~= Seq::empty());
    while i < parts.len()
        invariant
            entries == pieces(bytes@, 0u8),
            parts@.len() == entries.len(),
            forall|k: int| 0 <= k < parts@.len() ==> (#[trigger] parts@[k])@ == entries[k],
            i <= parts@.len(),
            listed_paths(entries.take(i as int)) == Ok::<Seq<Seq<char>>, (FailureKind, Seq<char>)>(
                texts(paths@),
            ),
        decreases parts@.len() - i,
    {
        assert(entries.take(i + 1).drop_last() =~= entries.take(i as int));
        if parts[i].len() > 0 {
            match decode_text(parts[i].as_slice()) {
                None => {
                    proof {
                        lemma_listed_paths_failure(entries, i + 1);
                    }
                    return Err(
                        fail(FailureKind::NonUtf8Path, "ripgrep returned a non-UTF-8 path"),
                    );
                },
                Some(path) => {
                    match validate_relative_path(path.as_str()) {
                        Err(failure) => {
                            proof {
                                lemma_listed_paths_failure(entries, i + 1);
                            }
                            return Err(failure);
                        },
                        Ok(()) => {
                            proof {
                                crate::text::lemma_texts_push(paths@, path);
                            }
                            paths.push(path);
                        },
                    }
                },
            }
        }
        i = i + 1;
    }
    assert(entries.take(i as int) =~= entries);
    Ok(paths)
}

/// Every path of an accepted listing is one that the workspace boundary admits.
pub proof fn listings_hold_only_workspace_paths(bytes: Seq<u8>)
    ensures
        nul_separated_paths(bytes) matches Ok(paths) ==> forall|i: int|
            0 <= i < paths.len() ==> path_failure(#[trigger] paths[i]) is None,
{
    lemma_listed_paths_accepted(pieces(bytes, 0u8));
}

proof fn lemma_listed_paths_accepted(entries: Seq<Seq<u8>>)
    ensures
        listed_paths(entries) matches Ok(paths) ==> forall|i: int|
            0 <= i < paths.len() ==> path_failure(#[trigger] paths[i]) is None,
    decreases entries.len(),
{
    if entries.len() > 0 {
        lemma_listed_paths_accepted(entries.drop_last());
    }
}

/// How many bytes there are up to and with the last delimiter.
pub open spec fn delimited_len(bytes: Seq<u8>, delimiter: u8) -> nat
    decreases bytes.len(),
{
    if bytes.len() == 0 {
        0
    } else if bytes.last() == delimiter {
        bytes.len()
    } else {
        delimited_len(bytes.drop_last(), delimiter)
    }
}

/// The bytes up to and with the last delimiter; none where there is no delimiter.
pub fn complete_delimited_prefix(bytes: &[u8], delimiter: u8) -> (r: &[u8])
    ensures
        delimited_len(bytes@, delimiter) <= bytes@.len(),
        r@ == bytes@.take(delimited_len(bytes@, delimiter) as int),
{
    let mut end: usize = bytes.len();
    assert(bytes@.take(end as int) =~= bytes@);
    while end > 0 && bytes[end - 1] != delimiter
        invariant
            end <= bytes@.len(),
            delimited_len(bytes@, delimiter) == delimited_len(bytes@.take(end as int), delimiter),
        decreases end,
    {
        assert(bytes@.take(end as int).drop_last() =~= bytes@.take(end - 1));
        end = end - 1;
    }
    let kept = slice_subrange(bytes, 0, end);
    assert(kept@ =~= bytes@.take(end as int));
    kept
}

// ---------------------------------------------------------------------------------------------
// The state directory
// ---------------------------------------------------------------------------------------------

/// A text without a prefix, where it has it.
pub open spec fn without_prefix(s: Seq<char>, prefix: Seq<char>) -> Seq<char> {
    if stands_at(s, prefix, 0) {
        s.skip(prefix.len() as int)
    } else {
        s
    }
}

/// A text without a suffix, where it has it.
pub open spec fn without_suffix(s: Seq<char>, suffix: Seq<char>) -> Seq<char> {
    if stands_at(s, suffix, s.len() - suffix.len()) {
        s.take(s.len() - suffix.len())
    } else {
        s
    }
}

pub fn strip_prefix(s: &str, prefix: &str) -> (r: String)
    ensures
        r@ == without_prefix(s@, prefix@),
{
    let whole = chars_of(s);
    let part = chars_of(prefix);
    if is_at(whole.as_slice(), part.as_slice(), 0) {
        let rest = slice_subrange(whole.as_slice(), part.len(), whole.len());
        assert(rest@ =~= s@.skip(prefix@.len() as int));
        string_of(rest)
    } else {
        string_of(whole.as_slice())
    }
}

fn strip_suffix(s: &str, suffix: &str) -> (r: String)
    ensures
        r@ == without_suffix(s@, suffix@),
{
    let whole = chars_of(s);
    let part = chars_of(suffix);
    if part.len() <= whole.len() && is_at(whole.as_slice(), part.as_slice(), whole.len() - part.len()) {
        let rest = slice_subrange(whole.as_slice(), 0, whole.len() - part.len());
        assert(rest@ =~= s@.take(s@.len() - suffix@.len()));
        string_of(rest)
    } else {
        string_of(whole.as_slice())
    }
}

/// Whether one line of an ignore file ignores the state directory at the root.
pub open spec fn ignores_state_dir(line: Seq<char>) -> bool {
    let rule = trimmed(line);
    let bare = without_suffix(
        without_suffix(without_prefix(rule, "/"@), "/**"@),
        "/"@,
    );
    &&& rule.len() > 0
    &&& rule[0] != '#'
    &&& rule[0] != '!'
    &&& bare == STATE_DIR_NAME@
}

/// Whether one `.gitignore` line ignores the state directory at the root.
pub fn declares_state_dir_ignore(line: &str) -> (r: bool)
    ensures
        r == ignores_state_dir(line@),
{
    let rule = trim(line);
    let chars = chars_of(rule.as_str());
    if chars.len() == 0 || chars[0] == '#' || chars[0] == '!' {
        return false;
    }
    let unanchored = strip_prefix(rule.as_str(), "/");
    let shallow = strip_suffix(unanchored.as_str(), "/**");
    let bare = strip_suffix(shallow.as_str(), "/");
    same_text(bare.as_str(), STATE_DIR_NAME)
}

/// Why a path that Git reports as conflicted is not one to touch: it is empty, absolute, or climbs.
pub open spec fn is_conflict_path(path: Seq<char>) -> bool {
    let segments = pieces(path, '/');
    &&& path.len() > 0
    &&& !is_redundant(segments[0])
    &&& !segments.contains(".."@)
}

/// Whether a path that Git reports as conflicted stays inside the worktree.
pub fn conflict_path_is_valid(path: &str) -> (r: bool)
    ensures
        r == is_conflict_path(path@),
{
    let parts = split(path, '/');
    let ghost segments = pieces(path@, '/');
    if path.is_empty() || parts[0].len() == 0 || is_text(parts[0].as_slice(), ".") {
        return false;
    }
    let mut i: usize = 0;
    while i < parts.len()
        invariant
            parts@.len() == segments.len(),
            forall|k: int| 0 <= k < parts@.len() ==> (#[trigger] parts@[k])@ == segments[k],
            i <= parts@.len(),
            segments == pieces(path@, '/'),
            forall|k: int| 0 <= k < i ==> segments[k] != ".."@,
        decreases parts@.len() - i,
    {
        if is_text(parts[i].as_slice(), "..") {
            assert(segments[i as int] == ".."@);
            return false;
        }
        i = i + 1;
    }
    true
}

} // verus!
