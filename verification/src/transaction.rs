//! Carrying a prepared patch out: all of it, or back to what was there.
use vstd::prelude::*;

use crate::diff::{change_views, Change, ChangeView, PreparedOperation};
use crate::failure::{fail, fail_about, fail_in, Failure, FailureKind, Refusal};
use crate::listing::visibility;
use crate::executable::RgOutput;
use crate::paths::{join_path, joined_path};
use crate::scan::{join, joined, pieces, split};
use crate::sorted::{insert_unique, is_sorted_set, lemma_path_le_total, lemma_path_le_transitive,
    path_le, path_sorts_before};
use crate::text::{concat, contains_text, copy, copy_bytes, lemma_texts_push, opt_str, same_text,
    string_of, texts};
use crate::workspace::{new_path, reach_refusal, PathProbe, Workspace};

verus! {

// ---------------------------------------------------------------------------------------------
// Snapshots
// ---------------------------------------------------------------------------------------------

/// What was at a path before a patch: a file's bytes or nothing.
#[derive(Debug)]
pub struct Snapshot<T, B> {
    pub path: T,
    pub before: Option<B>,
}

/// A snapshot over plain texts.
pub type SnapshotView = Snapshot<Seq<char>, Seq<u8>>;

/// The bytes behind an optional byte vector.
pub open spec fn opt_bytes(bytes: Option<Vec<u8>>) -> Option<Seq<u8>> {
    match bytes {
        Some(found) => Some(found@),
        None => None,
    }
}

impl View for Snapshot<String, Vec<u8>> {
    type V = SnapshotView;

    open spec fn view(&self) -> SnapshotView {
        Snapshot { path: self.path@, before: opt_bytes(self.before) }
    }
}

/// The snapshots over plain texts.
pub open spec fn snapshot_views(s: Seq<Snapshot<String, Vec<u8>>>) -> Seq<SnapshotView> {
    Seq::new(s.len(), |i: int| s[i]@)
}

/// The paths that a change touches.
pub open spec fn change_paths(change: ChangeView) -> Seq<Seq<char>> {
    match change {
        Change::Create { path, after } => seq![path],
        Change::Update { path, before, after } => seq![path],
        Change::Delete { path, before } => seq![path],
        Change::Rename { from, to, before } => seq![from, to],
    }
}

/// The paths that changes touch, in order.
pub open spec fn touched_paths(changes: Seq<ChangeView>) -> Seq<Seq<char>>
    decreases changes.len(),
{
    if changes.len() == 0 {
        Seq::empty()
    } else {
        touched_paths(changes.drop_last()) + change_paths(changes.last())
    }
}

/// What a change found at a path, if it touches the path.
pub open spec fn change_preimage(change: ChangeView, p: Seq<char>) -> Option<Option<Seq<u8>>> {
    match change {
        Change::Create { path, after } => if p == path {
            Some(None)
        } else {
            None
        },
        Change::Update { path, before, after } => if p == path {
            Some(Some(before))
        } else {
            None
        },
        Change::Delete { path, before } => if p == path {
            Some(Some(before))
        } else {
            None
        },
        Change::Rename { from, to, before } => if p == to {
            Some(None)
        } else if p == from {
            Some(Some(before))
        } else {
            None
        },
    }
}

/// What the last change that touches a path found there.
pub open spec fn preimage(changes: Seq<ChangeView>, p: Seq<char>) -> Option<Option<Seq<u8>>>
    decreases changes.len(),
{
    if changes.len() == 0 {
        None
    } else {
        match change_preimage(changes.last(), p) {
            Some(found) => Some(found),
            None => preimage(changes.drop_last(), p),
        }
    }
}

/// The snapshots of a patch: one for each touched path, in sorted order, with what was found
/// there.
pub open spec fn are_snapshots(list: Seq<SnapshotView>, changes: Seq<ChangeView>) -> bool {
    let paths = Seq::new(list.len(), |i: int| list[i].path);
    &&& is_sorted_set(paths)
    &&& paths.to_set() == touched_paths(changes).to_set()
    &&& forall|i: int|
        0 <= i < list.len() ==> preimage(changes, #[trigger] list[i].path) == Some(list[i].before)
}

proof fn lemma_touched(changes: Seq<ChangeView>, p: Seq<char>)
    ensures
        touched_paths(changes).contains(p) <==> preimage(changes, p) is Some,
    decreases changes.len(),
{
    if changes.len() > 0 {
        let front = touched_paths(changes.drop_last());
        let back = change_paths(changes.last());
        lemma_touched(changes.drop_last(), p);
        lemma_change_paths(changes.last(), p);
        lemma_contains_concat(front, back, p);
    }
}

proof fn lemma_change_paths(change: ChangeView, p: Seq<char>)
    ensures
        change_paths(change).contains(p) <==> change_preimage(change, p) is Some,
{
    let paths = change_paths(change);
    match change {
        Change::Rename { from, to, before } => {
            assert(paths[0] == from && paths[1] == to);
        },
        Change::Create { path, after } => {
            assert(paths[0] == path);
        },
        Change::Update { path, before, after } => {
            assert(paths[0] == path);
        },
        Change::Delete { path, before } => {
            assert(paths[0] == path);
        },
    }
}

proof fn lemma_contains_concat(a: Seq<Seq<char>>, b: Seq<Seq<char>>, p: Seq<char>)
    ensures
        (a + b).contains(p) <==> a.contains(p) || b.contains(p),
{
    if a.contains(p) {
        let i = a.index_of(p);
        assert((a + b)[i] == p);
    }
    if b.contains(p) {
        let i = b.index_of(p);
        assert((a + b)[a.len() + i] == p);
    }
    if (a + b).contains(p) {
        let i = (a + b).index_of(p);
        if i < a.len() {
            assert(a[i] == p);
        } else {
            assert(b[i - a.len()] == p);
        }
    }
}

/// What a change found at a path, if it touches the path.
fn change_preimage_of(change: &PreparedOperation, p: &str) -> (r: Option<Option<Vec<u8>>>)
    ensures
        (match r {
            Some(found) => Some(opt_bytes(found)),
            None => None::<Option<Seq<u8>>>,
        }) == change_preimage(change@, p@),
{
    match change {
        Change::Create { path, after } => if same_text(p, path.as_str()) {
            Some(None)
        } else {
            None
        },
        Change::Update { path, before, after } => if same_text(p, path.as_str()) {
            Some(Some(copy_bytes(before.as_slice())))
        } else {
            None
        },
        Change::Delete { path, before } => if same_text(p, path.as_str()) {
            Some(Some(copy_bytes(before.as_slice())))
        } else {
            None
        },
        Change::Rename { from, to, before } => if same_text(p, to.as_str()) {
            Some(None)
        } else if same_text(p, from.as_str()) {
            Some(Some(copy_bytes(before.as_slice())))
        } else {
            None
        },
    }
}

/// What the last change that touches a path found there.
fn preimage_of(operations: &[PreparedOperation], p: &str) -> (r: Option<Vec<u8>>)
    requires
        preimage(change_views(operations@), p@) is Some,
    ensures
        preimage(change_views(operations@), p@) == Some(opt_bytes(r)),
{
    let ghost changes = change_views(operations@);
    let mut n: usize = operations.len();
    assert(changes.take(n as int) =~= changes);
    while n > 0
        invariant
            changes == change_views(operations@),
            n <= operations@.len(),
            preimage(changes, p@) == preimage(changes.take(n as int), p@),
        decreases n,
    {
        assert(changes.take(n as int).last() == operations@[n - 1]@);
        assert(changes.take(n as int).drop_last() =~= changes.take(n - 1));
        match change_preimage_of(&operations[n - 1], p) {
            Some(found) => return found,
            None => {},
        }
        n = n - 1;
    }
    assert(changes.take(0) =~= Seq::empty());
    None
}

/// Adds the paths that a change touches to a sorted list.
fn touch(paths: &mut Vec<String>, change: &PreparedOperation)
    requires
        is_sorted_set(texts(old(paths)@)),
    ensures
        is_sorted_set(texts(final(paths)@)),
        forall|p: Seq<char>| #[trigger]
            texts(final(paths)@).contains(p) <==> texts(old(paths)@).contains(p) || change_paths(
                change@,
            ).contains(p),
{
    let ghost start = texts(paths@);
    let ghost named = change_paths(change@);
    match change {
        Change::Create { path, after } => {
            assert(named[0] == path@);
            insert_unique(paths, path.as_str());
        },
        Change::Update { path, before, after } => {
            assert(named[0] == path@);
            insert_unique(paths, path.as_str());
        },
        Change::Delete { path, before } => {
            assert(named[0] == path@);
            insert_unique(paths, path.as_str());
        },
        Change::Rename { from, to, before } => {
            assert(named[0] == from@ && named[1] == to@);
            insert_unique(paths, from.as_str());
            insert_unique(paths, to.as_str());
        },
    }
    proof {
        assert forall|p: Seq<char>| #[trigger] texts(paths@).contains(p) <==> start.contains(p)
            || named.contains(p) by {
            assert(texts(paths@).to_set().contains(p) <==> texts(paths@).contains(p));
            assert(start.to_set().contains(p) <==> start.contains(p));
        }
    }
}

/// The paths that changes touch, in sorted order.
pub fn touched(operations: &[PreparedOperation]) -> (r: Vec<String>)
    ensures
        is_sorted_set(texts(r@)),
        texts(r@).to_set() == touched_paths(change_views(operations@)).to_set(),
{
    let ghost changes = change_views(operations@);
    let mut paths: Vec<String> = Vec::new();
    let mut i: usize = 0;
    proof {
        assert(texts(paths@) =~= Seq::empty());
        assert(changes.take(0) =~= Seq::empty());
    }
    while i < operations.len()
        invariant
            changes == change_views(operations@),
            i <= operations@.len(),
            is_sorted_set(texts(paths@)),
            forall|p: Seq<char>| #[trigger]
                texts(paths@).contains(p) <==> touched_paths(changes.take(i as int)).contains(p),
        decreases operations@.len() - i,
    {
        let ghost before = texts(paths@);
        touch(&mut paths, &operations[i]);
        proof {
            let grown = changes.take(i + 1);
            assert(grown.drop_last() =~= changes.take(i as int));
            assert(grown.last() == operations@[i as int]@);
            assert forall|p: Seq<char>| #[trigger] texts(paths@).contains(p) <==> touched_paths(
                grown,
            ).contains(p) by {
                lemma_contains_concat(
                    touched_paths(changes.take(i as int)),
                    change_paths(grown.last()),
                    p,
                );
                assert(before.contains(p) <==> touched_paths(changes.take(i as int)).contains(p));
            }
        }
        i = i + 1;
    }
    proof {
        assert(changes.take(i as int) =~= changes);
        assert(texts(paths@).to_set() =~= touched_paths(changes).to_set());
    }
    paths
}

/// The snapshots of a patch, in the order of their paths.
pub fn snapshots(operations: &[PreparedOperation]) -> (r: Vec<Snapshot<String, Vec<u8>>>)
    ensures
        are_snapshots(snapshot_views(r@), change_views(operations@)),
{
    let ghost changes = change_views(operations@);
    let paths = touched(operations);
    let mut list: Vec<Snapshot<String, Vec<u8>>> = Vec::new();
    let mut i: usize = 0;
    while i < paths.len()
        invariant
            changes == change_views(operations@),
            texts(paths@).to_set() == touched_paths(changes).to_set(),
            i <= paths@.len(),
            list@.len() == i,
            forall|k: int|
                0 <= k < i ==> (#[trigger] list@[k])@.path == texts(paths@)[k] && preimage(
                    changes,
                    list@[k]@.path,
                ) == Some(list@[k]@.before),
        decreases paths@.len() - i,
    {
        proof {
            assert(texts(paths@)[i as int] == paths@[i as int]@);
            assert(texts(paths@).to_set().contains(paths@[i as int]@));
            lemma_touched(changes, paths@[i as int]@);
        }
        let before = preimage_of(operations, paths[i].as_str());
        list.push(Snapshot { path: copy(paths[i].as_str()), before });
        i = i + 1;
    }
    proof {
        let views = snapshot_views(list@);
        assert(Seq::new(views.len(), |k: int| views[k].path) =~= texts(paths@));
        assert forall|k: int| 0 <= k < views.len() implies preimage(
            changes,
            #[trigger] views[k].path,
        ) == Some(views[k].before) by {
            assert(list@[k]@.path == texts(paths@)[k]);
        }
    }
    list
}

// ---------------------------------------------------------------------------------------------
// Directories
// ---------------------------------------------------------------------------------------------

/// The directory that holds a path, `up` levels above it.
pub open spec fn ancestor(path: Seq<char>, up: int) -> Seq<char> {
    joined(pieces(path, '/').take(pieces(path, '/').len() - up), "/"@)
}

/// The directories above a path and below the root, the nearest first.
pub open spec fn directories_above(path: Seq<char>) -> Seq<Seq<char>> {
    Seq::new((pieces(path, '/').len() - 1) as nat, |i: int| ancestor(path, i + 1))
}

/// The directories above a path and below the root, the nearest first.
pub fn parent_directories(path: &str) -> (r: Vec<String>)
    ensures
        texts(r@) == directories_above(path@),
{
    let parts = split(path, '/');
    let ghost segments = pieces(path@, '/');
    let mut names: Vec<String> = Vec::new();
    let mut i: usize = 0;
    while i < parts.len()
        invariant
            parts@.len() == segments.len(),
            forall|k: int| 0 <= k < parts@.len() ==> (#[trigger] parts@[k])@ == segments[k],
            i <= parts@.len(),
            texts(names@) == segments.take(i as int),
        decreases parts@.len() - i,
    {
        let name = string_of(parts[i].as_slice());
        proof {
            lemma_texts_push(names@, name);
            assert(segments.take(i + 1) =~= segments.take(i as int).push(segments[i as int]));
        }
        names.push(name);
        i = i + 1;
    }
    assert(segments.take(i as int) =~= segments);
    assert(texts(names@).len() == names@.len());
    let mut r: Vec<String> = Vec::new();
    while names.len() > 1
        invariant
            segments == pieces(path@, '/'),
            1 <= names@.len(),
            texts(names@) == segments.take(names@.len() as int),
            names@.len() + r@.len() == segments.len(),
            forall|k: int| 0 <= k < r@.len() ==> (#[trigger] r@[k])@ == ancestor(path@, k + 1),
        decreases names@.len(),
    {
        let ghost before = names@;
        names.pop();
        proof {
            assert(texts(names@) =~= segments.take(names@.len() as int)) by {
                assert forall|k: int| 0 <= k < names@.len() implies texts(names@)[k]
                    == segments.take(names@.len() as int)[k] by {
                    assert(texts(before)[k] == segments.take(before.len() as int)[k]);
                }
            }
        }
        r.push(join(&names, "/"));
    }
    assert(texts(r@) =~= directories_above(path@));
    r
}

/// The path at which a change makes a file, if it makes one.
pub open spec fn made_path(change: ChangeView) -> Option<Seq<char>> {
    match change {
        Change::Create { path, after } => Some(path),
        Change::Rename { from, to, before } => Some(to),
        _ => None,
    }
}

/// How many of the first directories are missing, if `n` are: up to the first existing one.
pub open spec fn missing_run(list: Seq<Seq<char>>, existing: Set<Seq<char>>, n: int) -> int
    decreases list.len() - n,
{
    if 0 <= n < list.len() && !existing.contains(list[n]) {
        missing_run(list, existing, n + 1)
    } else {
        n
    }
}

/// Whether carrying changes out makes a directory: it is above a made file, and so far up there
/// is no existing one.
pub open spec fn is_made_directory(
    changes: Seq<ChangeView>,
    existing: Set<Seq<char>>,
    directory: Seq<char>,
) -> bool {
    exists|i: int| 0 <= i < changes.len() && makes_directory(#[trigger] changes[i], existing, directory)
}

/// Whether carrying one change out makes a directory.
pub open spec fn makes_directory(
    change: ChangeView,
    existing: Set<Seq<char>>,
    directory: Seq<char>,
) -> bool {
    match made_path(change) {
        Some(path) => directories_above(path).take(
            missing_run(directories_above(path), existing, 0),
        ).contains(directory),
        None => false,
    }
}

/// How deep a directory lies.
pub open spec fn depth(directory: Seq<char>) -> nat {
    pieces(directory, '/').len()
}

/// Whether the directory `a` is removed no later than `b`: the deeper one first, equally deep ones
/// in the order of their paths.
pub open spec fn goes_before(a: Seq<char>, b: Seq<char>) -> bool {
    depth(a) > depth(b) || (depth(a) == depth(b) && path_le(a, b))
}

/// Whether no directory stands before a deeper one, and equally deep ones stand in the order of
/// their paths.
pub open spec fn deepest_first(list: Seq<Seq<char>>) -> bool {
    forall|i: int, j: int| 0 <= i <= j < list.len() ==> goes_before(list[i], list[j])
}

proof fn lemma_goes_before_total(a: Seq<char>, b: Seq<char>)
    ensures
        goes_before(a, b) || goes_before(b, a),
        goes_before(a, b) && goes_before(b, a) ==> a == b,
        goes_before(a, a),
{
    lemma_path_le_total(a, b);
}

proof fn lemma_goes_before_transitive(a: Seq<char>, b: Seq<char>, c: Seq<char>)
    requires
        goes_before(a, b),
        goes_before(b, c),
    ensures
        goes_before(a, c),
{
    if depth(a) == depth(b) && depth(b) == depth(c) {
        lemma_path_le_transitive(a, b, c);
    }
}

/// There is one order in which directories are removed: two lists of the same directories in that
/// order are equal.
pub proof fn the_removal_order_is_settled(s: Seq<Seq<char>>, t: Seq<Seq<char>>)
    requires
        deepest_first(s),
        deepest_first(t),
        s.no_duplicates(),
        t.no_duplicates(),
        s.to_set() == t.to_set(),
    ensures
        s == t,
{
    broadcast use vstd::seq_lib::group_to_multiset_ensures;

    let leq = |a: Seq<char>, b: Seq<char>| goes_before(a, b);
    assert(vstd::relations::total_ordering(leq)) by {
        assert forall|a: Seq<char>| #[trigger] leq(a, a) by {
            lemma_goes_before_total(a, a);
        }
        assert forall|a: Seq<char>, b: Seq<char>| #[trigger] leq(a, b) && #[trigger] leq(
            b,
            a,
        ) implies a == b by {
            lemma_goes_before_total(a, b);
        }
        assert forall|a: Seq<char>, b: Seq<char>, c: Seq<char>| #[trigger]
            leq(a, b) && #[trigger] leq(b, c) implies leq(a, c) by {
            lemma_goes_before_transitive(a, b, c);
        }
        assert forall|a: Seq<char>, b: Seq<char>| #[trigger] leq(a, b) || #[trigger] leq(b, a) by {
            lemma_goes_before_total(a, b);
        }
    }
    s.lemma_multiset_has_no_duplicates();
    t.lemma_multiset_has_no_duplicates();
    assert forall|x: Seq<char>| s.to_multiset().count(x) == t.to_multiset().count(x) by {
        assert(s.to_set().contains(x) <==> s.contains(x));
        assert(t.to_set().contains(x) <==> t.contains(x));
        assert(s.to_multiset().contains(x) <==> s.contains(x));
        assert(t.to_multiset().contains(x) <==> t.contains(x));
    }
    assert(s.to_multiset() =~= t.to_multiset());
    assert(vstd::relations::sorted_by(s, leq));
    assert(vstd::relations::sorted_by(t, leq));
    vstd::seq_lib::lemma_sorted_unique(s, t, leq);
}

/// Adds the directories that a change makes to a sorted list.
fn add_missing(list: &mut Vec<String>, path: &str, existing: &Vec<String>)
    requires
        is_sorted_set(texts(old(list)@)),
    ensures
        is_sorted_set(texts(final(list)@)),
        forall|d: Seq<char>| #[trigger]
            texts(final(list)@).contains(d) <==> texts(old(list)@).contains(d) || directories_above(
                path@,
            ).take(missing_run(directories_above(path@), texts(existing@).to_set(), 0)).contains(d),
{
    let parents = parent_directories(path);
    let ghost above = directories_above(path@);
    let ghost there = texts(existing@).to_set();
    let ghost start = texts(list@);
    let mut n: usize = 0;
    assert(above.take(0) =~= Seq::empty());
    while n < parents.len()
        invariant
            texts(parents@) == above,
            there == texts(existing@).to_set(),
            above == directories_above(path@),
            n <= parents@.len(),
            is_sorted_set(texts(list@)),
            missing_run(above, there, 0) == missing_run(above, there, n as int),
            forall|d: Seq<char>| #[trigger]
                texts(list@).contains(d) <==> start.contains(d) || above.take(n as int).contains(d),
        ensures
            n == missing_run(above, there, 0),
        decreases parents@.len() - n,
    {
        assert(above.len() == parents@.len() && above[n as int] == parents@[n as int]@);
        if contains_text(existing, parents[n].as_str()) {
            assert(there.contains(above[n as int]));
            break;
        }
        assert(!there.contains(above[n as int]));
        let ghost before = texts(list@);
        insert_unique(list, parents[n].as_str());
        proof {
            let grown = above.take(n + 1);
            assert(grown =~= above.take(n as int).push(above[n as int]));
            assert forall|d: Seq<char>| #[trigger] texts(list@).contains(d) <==> start.contains(d)
                || grown.contains(d) by {
                assert(texts(list@).to_set().contains(d) <==> texts(list@).contains(d));
                assert(before.to_set().contains(d) <==> before.contains(d));
                let shorter = above.take(n as int);
                if shorter.contains(d) {
                    let k = shorter.index_of(d);
                    assert(grown[k] == d);
                }
                if d == above[n as int] {
                    assert(grown[n as int] == d);
                }
                if grown.contains(d) && d != above[n as int] {
                    let k = grown.index_of(d);
                    assert(shorter[k] == d);
                }
            }
        }
        n = n + 1;
    }
}

/// How deep a directory lies.
fn depth_of(directory: &str) -> (r: usize)
    ensures
        r == depth(directory@),
{
    let parts = split(directory, '/');
    parts.len()
}

/// Whether the directory `a` is removed no later than `b`.
fn is_removed_before(a: &str, b: &str) -> (r: bool)
    ensures
        r == goes_before(a@, b@),
{
    let left: usize = depth_of(a);
    let right: usize = depth_of(b);
    left > right || (left == right && path_sorts_before(a, b))
}

/// Rearranges directories so that the deepest come first, equally deep ones in the order of their
/// paths.
fn by_depth(list: &Vec<String>) -> (r: Vec<String>)
    ensures
        deepest_first(texts(r@)),
        texts(r@).to_multiset() == texts(list@).to_multiset(),
{
    let ghost all = texts(list@);
    let mut r: Vec<String> = Vec::new();
    let mut i: usize = 0;
    assert(texts(r@) =~= Seq::empty());
    assert(all.take(0) =~= Seq::empty());
    while i < list.len()
        invariant
            all == texts(list@),
            i <= list@.len(),
            deepest_first(texts(r@)),
            texts(r@).to_multiset() == all.take(i as int).to_multiset(),
        decreases list@.len() - i,
    {
        let ghost sorted = texts(r@);
        let item = copy(list[i].as_str());
        assert(all[i as int] == item@);
        let mut p: usize = r.len();
        while p > 0 && !is_removed_before(r[p - 1].as_str(), item.as_str())
            invariant
                p <= r@.len(),
                sorted == texts(r@),
                forall|k: int| p <= k < r@.len() ==> goes_before(item@, #[trigger] sorted[k]),
            decreases p,
        {
            assert(sorted[p - 1] == r@[p - 1]@);
            proof {
                lemma_goes_before_total(sorted[p - 1], item@);
            }
            p = p - 1;
        }
        proof {
            if p > 0 {
                assert(sorted[p - 1] == r@[p - 1]@);
            }
            let grown = sorted.insert(p as int, item@);
            assert(texts(r@.insert(p as int, item)) =~= grown);
            sorted.insert_ensures(p as int, item@);
            vstd::seq_lib::to_multiset_insert(sorted, p as int, item@);
            lemma_goes_before_total(item@, item@);
            assert forall|a: int| 0 <= a < p implies goes_before(#[trigger] sorted[a], item@) by {
                lemma_goes_before_transitive(sorted[a], sorted[p - 1], item@);
            }
            assert forall|a: int, b: int| 0 <= a <= b < grown.len() implies goes_before(
                grown[a],
                grown[b],
            ) by {
                let left = if a < p { a } else { a - 1 };
                let right = if b < p { b } else { b - 1 };
                if a != p && b != p {
                    assert(goes_before(sorted[left], sorted[right]));
                }
            }
            assert(all.take(i + 1) =~= all.take(i as int).push(all[i as int]));
            vstd::seq_lib::to_multiset_build(all.take(i as int), all[i as int]);
        }
        r.insert(p, item);
        i = i + 1;
    }
    assert(all.take(i as int) =~= all);
    r
}

/// The directories that carrying changes out makes, the deepest first and equally deep ones in the
/// order of their paths. `existing` names the directories that are there already, relative to the
/// root.
pub fn created_directories(operations: &[PreparedOperation], existing: &Vec<String>) -> (r: Vec<
    String,
>)
    ensures
        deepest_first(texts(r@)),
        texts(r@).no_duplicates(),
        forall|d: Seq<char>| #[trigger]
            texts(r@).contains(d) <==> is_made_directory(
                change_views(operations@),
                texts(existing@).to_set(),
                d,
            ),
{
    let ghost changes = change_views(operations@);
    let ghost there = texts(existing@).to_set();
    let mut list: Vec<String> = Vec::new();
    let mut i: usize = 0;
    assert(texts(list@) =~= Seq::empty());
    while i < operations.len()
        invariant
            changes == change_views(operations@),
            there == texts(existing@).to_set(),
            i <= operations@.len(),
            is_sorted_set(texts(list@)),
            forall|d: Seq<char>| #[trigger]
                texts(list@).contains(d) <==> is_made_directory(changes.take(i as int), there, d),
        decreases operations@.len() - i,
    {
        let ghost before = texts(list@);
        assert(changes[i as int] == operations@[i as int]@);
        match &operations[i] {
            Change::Create { path, after } => add_missing(&mut list, path.as_str(), existing),
            Change::Rename { from, to, before } => add_missing(&mut list, to.as_str(), existing),
            _ => {},
        }
        proof {
            let grown = changes.take(i + 1);
            assert forall|d: Seq<char>| #[trigger] texts(list@).contains(d) <==> is_made_directory(
                grown,
                there,
                d,
            ) by {
                let shorter = changes.take(i as int);
                assert(before.contains(d) <==> is_made_directory(shorter, there, d));
                if is_made_directory(shorter, there, d) {
                    let k = choose|k: int|
                        0 <= k < shorter.len() && makes_directory(#[trigger] shorter[k], there, d);
                    assert(makes_directory(grown[k], there, d));
                }
                if makes_directory(changes[i as int], there, d) {
                    assert(makes_directory(grown[i as int], there, d));
                }
                if is_made_directory(grown, there, d) {
                    let k = choose|k: int|
                        0 <= k < grown.len() && makes_directory(#[trigger] grown[k], there, d);
                    if k < i {
                        assert(makes_directory(shorter[k], there, d));
                    }
                }
            }
        }
        i = i + 1;
    }
    let r = by_depth(&list);
    proof {
        broadcast use vstd::seq_lib::group_to_multiset_ensures;

        assert(changes.take(i as int) =~= changes);
        assert forall|d: Seq<char>| #[trigger] texts(r@).contains(d) <==> texts(list@).contains(
            d,
        ) by {
            assert(texts(r@).to_multiset().contains(d) <==> texts(r@).contains(d));
            assert(texts(list@).to_multiset().contains(d) <==> texts(list@).contains(d));
        }
        texts(list@).lemma_multiset_has_no_duplicates();
        texts(r@).lemma_multiset_has_no_duplicates_conv();
    }
    r
}

// ---------------------------------------------------------------------------------------------
// The course of a transaction
// ---------------------------------------------------------------------------------------------

/// Where a transaction stands. A number names a change, or how many snapshots are not restored
/// yet, or a directory.
#[derive(Clone, Copy, Debug, PartialEq, Eq, Structural)]
pub enum Stage {
    /// The change is about to be carried out.
    Writing(usize),
    /// The file that the change deletes may be deleted.
    Deleting(usize),
    /// The file that the change renames may get its second name.
    Linking(usize),
    /// The file that the change renames may lose its first name.
    Unlinking(usize),
    /// The file that the change left is about to be looked for among the visible ones.
    Checking(usize),
    /// Something failed; the last snapshot that is not restored yet is next.
    Undoing(usize),
    /// There is a file in the place of that snapshot.
    Removing(usize),
    /// There is nothing in the place of that snapshot, and there was a file.
    Restoring(usize),
    /// All snapshots are restored; the directory may be removed.
    Clearing(usize),
    /// The patch is applied.
    Applied,
    /// The patch failed, and everything is as it was.
    RolledBack,
    /// The patch failed, and so did the way back.
    Stuck,
}

/// What is to be done next. Paths are relative to the root.
#[derive(Debug)]
pub enum Step<T, B> {
    /// Make a file where there is none.
    Create { path: T, bytes: B },
    /// Put a file in the place of whatever file is there.
    Replace { path: T, bytes: B },
    /// Look at the way to a file.
    InspectSource { path: T },
    /// Look at the way to a file and at the place of a new one.
    InspectRename { from: T, to: T },
    /// Delete a file.
    Delete { path: T },
    /// Give a file a second name where there is no file.
    Link { from: T, to: T },
    /// Take the first name of a renamed file.
    Unlink { path: T },
    /// List the visible files.
    CheckVisible { path: T },
    /// Look at the place of a snapshot.
    InspectUndo { path: T },
    /// Remove the file in the place of a snapshot.
    Remove { path: T },
    /// Remove a directory that the patch made.
    RemoveDirectory { path: T },
    /// Nothing.
    Finished,
}

impl View for Step<String, Vec<u8>> {
    type V = Step<Seq<char>, Seq<u8>>;

    open spec fn view(&self) -> Step<Seq<char>, Seq<u8>> {
        match *self {
            Step::Create { path, bytes } => Step::Create { path: path@, bytes: bytes@ },
            Step::Replace { path, bytes } => Step::Replace { path: path@, bytes: bytes@ },
            Step::InspectSource { path } => Step::InspectSource { path: path@ },
            Step::InspectRename { from, to } => Step::InspectRename { from: from@, to: to@ },
            Step::Delete { path } => Step::Delete { path: path@ },
            Step::Link { from, to } => Step::Link { from: from@, to: to@ },
            Step::Unlink { path } => Step::Unlink { path: path@ },
            Step::CheckVisible { path } => Step::CheckVisible { path: path@ },
            Step::InspectUndo { path } => Step::InspectUndo { path: path@ },
            Step::Remove { path } => Step::Remove { path: path@ },
            Step::RemoveDirectory { path } => Step::RemoveDirectory { path: path@ },
            Step::Finished => Step::Finished,
        }
    }
}

/// What is in the place of a snapshot.
#[derive(Clone, Copy, Debug, PartialEq, Eq, Structural)]
pub enum Occupant {
    Nothing,
    RegularFile,
    /// A symbolic link, a directory or something else that is no regular file.
    Other,
}

/// What came of a step.
#[derive(Debug)]
pub enum Reply {
    Done,
    Failed(String),
    /// There was no directory to remove.
    Missing,
    Inspected(Vec<PathProbe>),
    InspectedRename { source: Vec<PathProbe>, target: Vec<PathProbe>, exists: bool },
    Listed { probes: Vec<PathProbe>, output: RgOutput },
    Found(Occupant),
}

/// A patch that is being carried out.
#[derive(Debug)]
pub struct Transaction {
    pub operations: Vec<PreparedOperation>,
    pub snapshots: Vec<Snapshot<String, Vec<u8>>>,
    pub directories: Vec<String>,
    pub changed: Vec<String>,
    pub stage: Stage,
    pub error: Option<Failure>,
}

/// A patch that is being carried out, over plain texts.
#[verifier::ext_equal]
pub struct TransactionView {
    pub changes: Seq<ChangeView>,
    pub snapshots: Seq<SnapshotView>,
    pub directories: Seq<Seq<char>>,
    pub changed: Set<Seq<char>>,
    pub stage: Stage,
    pub error: Option<Refusal>,
}

/// The refusal behind an optional failure.
pub open spec fn opt_failure(failure: Option<Failure>) -> Option<Refusal> {
    match failure {
        Some(found) => Some(found@),
        None => None,
    }
}

impl View for Transaction {
    type V = TransactionView;

    open spec fn view(&self) -> TransactionView {
        TransactionView {
            changes: change_views(self.operations@),
            snapshots: snapshot_views(self.snapshots@),
            directories: texts(self.directories@),
            changed: texts(self.changed@).to_set(),
            stage: self.stage,
            error: opt_failure(self.error),
        }
    }
}

/// The path at which a change leaves a file, if it leaves one.
pub open spec fn left_path(change: ChangeView) -> Option<Seq<char>> {
    match change {
        Change::Create { path, after } => Some(path),
        Change::Update { path, before, after } => Some(path),
        Change::Rename { from, to, before } => Some(to),
        Change::Delete { path, before } => None,
    }
}

/// The stage in which the first change from `k` on that leaves a file is checked.
pub open spec fn checking_from(changes: Seq<ChangeView>, k: int) -> Stage
    decreases changes.len() - k,
{
    if k < 0 || k >= changes.len() {
        Stage::Applied
    } else if left_path(changes[k]) is Some {
        Stage::Checking(k as usize)
    } else {
        checking_from(changes, k + 1)
    }
}

impl TransactionView {
    /// The same transaction at another stage.
    pub open spec fn at(self, stage: Stage) -> TransactionView {
        TransactionView { stage, ..self }
    }

    /// The stage after change `i` was carried out.
    pub open spec fn after_change(self, i: int) -> Stage {
        if i + 1 < self.changes.len() {
            Stage::Writing((i + 1) as usize)
        } else {
            checking_from(self.changes, 0)
        }
    }

    /// The transaction after change `i` was carried out.
    pub open spec fn changed_by(self, i: int) -> TransactionView {
        TransactionView {
            changed: self.changed.union(change_paths(self.changes[i]).to_set()),
            stage: self.after_change(i),
            ..self
        }
    }

    /// The stage in which `n` snapshots are left to restore.
    pub open spec fn undoing(self, n: int) -> Stage {
        if n > 0 {
            Stage::Undoing(n as usize)
        } else {
            self.clearing(0)
        }
    }

    /// The stage in which the directories from `k` on are left to remove.
    pub open spec fn clearing(self, k: int) -> Stage {
        if k < self.directories.len() {
            Stage::Clearing(k as usize)
        } else {
            Stage::RolledBack
        }
    }

    /// The transaction after something failed: the way back begins.
    pub open spec fn failing(self, refusal: Refusal) -> TransactionView {
        TransactionView {
            stage: self.undoing(self.snapshots.len() as int),
            error: Some(refusal),
            ..self
        }
    }

    /// The transaction after the way back failed too.
    pub open spec fn stuck(self, context: Seq<char>, reason: Seq<char>) -> TransactionView {
        TransactionView {
            stage: Stage::Stuck,
            error: Some((FailureKind::RollbackFailed, context + ": "@ + reason)),
            ..self
        }
    }

    /// The stage after the place of the last of `n` snapshots is empty.
    pub open spec fn emptied(self, n: int) -> Stage {
        if self.snapshots[n - 1].before is Some {
            Stage::Restoring(n as usize)
        } else {
            self.undoing(n - 1)
        }
    }

    /// Whether the stage fits the changes, snapshots and directories.
    pub open spec fn wf(self) -> bool {
        &&& are_snapshots(self.snapshots, self.changes)
        &&& match self.stage {
            Stage::Writing(i) => i < self.changes.len(),
            Stage::Deleting(i) => i < self.changes.len() && self.changes[i as int] is Delete,
            Stage::Linking(i) => i < self.changes.len() && self.changes[i as int] is Rename,
            Stage::Unlinking(i) => i < self.changes.len() && self.changes[i as int] is Rename,
            Stage::Checking(i) => i < self.changes.len() && left_path(
                self.changes[i as int],
            ) is Some,
            Stage::Undoing(n) => 0 < n <= self.snapshots.len(),
            Stage::Removing(n) => 0 < n <= self.snapshots.len(),
            Stage::Restoring(n) => 0 < n <= self.snapshots.len() && self.snapshots[n - 1].before
                is Some,
            Stage::Clearing(k) => k < self.directories.len(),
            _ => true,
        }
        &&& (self.stage is RolledBack || self.stage is Stuck) ==> self.error is Some
        &&& (self.stage is Undoing || self.stage is Removing || self.stage is Restoring
            || self.stage is Clearing) ==> self.error is Some
    }
}

/// What a transaction has to have done next.
pub open spec fn next_step(tx: TransactionView) -> Step<Seq<char>, Seq<u8>> {
    match tx.stage {
        Stage::Writing(i) => match tx.changes[i as int] {
            Change::Create { path, after } => Step::Create { path, bytes: after },
            Change::Update { path, before, after } => Step::Replace { path, bytes: after },
            Change::Delete { path, before } => Step::InspectSource { path },
            Change::Rename { from, to, before } => Step::InspectRename { from, to },
        },
        Stage::Deleting(i) => Step::Delete { path: tx.changes[i as int]->Delete_path },
        Stage::Linking(i) => Step::Link {
            from: tx.changes[i as int]->from,
            to: tx.changes[i as int]->to,
        },
        Stage::Unlinking(i) => Step::Unlink { path: tx.changes[i as int]->from },
        Stage::Checking(i) => Step::CheckVisible {
            path: left_path(tx.changes[i as int])->Some_0,
        },
        Stage::Undoing(n) => Step::InspectUndo { path: tx.snapshots[n - 1].path },
        Stage::Removing(n) => Step::Remove { path: tx.snapshots[n - 1].path },
        Stage::Restoring(n) => Step::Replace {
            path: tx.snapshots[n - 1].path,
            bytes: tx.snapshots[n - 1].before->Some_0,
        },
        Stage::Clearing(k) => Step::RemoveDirectory { path: tx.directories[k as int] },
        Stage::Applied => Step::Finished,
        Stage::RolledBack => Step::Finished,
        Stage::Stuck => Step::Finished,
    }
}

/// The reason that a reply gives for a failure, where it is no answer to the step.
pub open spec fn reply_failure(reply: Reply) -> Refusal {
    match reply {
        Reply::Failed(message) => (FailureKind::OperationFailed, message@),
        _ => (
            FailureKind::UnexpectedReply,
            "the reply does not answer the transaction step"@,
        ),
    }
}

/// Why a file cannot be renamed, if it cannot.
pub open spec fn rename_refusal(
    root: Seq<char>,
    from: Seq<char>,
    to: Seq<char>,
    source: Seq<PathProbe>,
    target: Seq<PathProbe>,
    exists: bool,
) -> Option<Refusal> {
    match reach_refusal(root, from, false, source) {
        Some(refusal) => Some(refusal),
        None => match new_path(root, to, target, exists) {
            Err(refusal) => Some(refusal),
            Ok(_) => None,
        },
    }
}

/// A transaction that is carrying change `i` out, after a reply.
pub open spec fn after_write_reply(
    tx: TransactionView,
    root: Seq<char>,
    i: int,
    reply: Reply,
) -> TransactionView {
    match tx.changes[i] {
        Change::Delete { path, before } => match reply {
            Reply::Inspected(probes) => match reach_refusal(root, path, false, probes@) {
                Some(refusal) => tx.failing(refusal),
                None => tx.at(Stage::Deleting(i as usize)),
            },
            _ => tx.failing(reply_failure(reply)),
        },
        Change::Rename { from, to, before } => match reply {
            Reply::InspectedRename { source, target, exists } => match rename_refusal(
                root,
                from,
                to,
                source@,
                target@,
                exists,
            ) {
                Some(refusal) => tx.failing(refusal),
                None => tx.at(Stage::Linking(i as usize)),
            },
            _ => tx.failing(reply_failure(reply)),
        },
        _ => if reply is Done {
            tx.changed_by(i)
        } else {
            tx.failing(reply_failure(reply))
        },
    }
}

/// A transaction that is checking what change `i` left, after a reply.
pub open spec fn after_check_reply(
    tx: TransactionView,
    root: Seq<char>,
    i: int,
    reply: Reply,
) -> TransactionView {
    let path = left_path(tx.changes[i])->Some_0;
    match reply {
        Reply::Listed { probes, output } => match visibility(root, path, probes@, output) {
            Err(refusal) => tx.failing(refusal),
            Ok(visible) => if visible {
                tx.at(checking_from(tx.changes, i + 1))
            } else {
                tx.failing(
                    (
                        FailureKind::IgnoredResult,
                        "resulting path is ignored by ripgrep: "@ + path,
                    ),
                )
            },
        },
        _ => tx.failing(reply_failure(reply)),
    }
}

/// A transaction that is looking at the place of the last of `n` snapshots, after a reply.
pub open spec fn after_undo_reply(tx: TransactionView, root: Seq<char>, n: int, reply: Reply) -> TransactionView {
    match reply {
        Reply::Found(occupant) => match occupant {
            Occupant::Nothing => tx.at(tx.emptied(n)),
            Occupant::RegularFile => tx.at(Stage::Removing(n as usize)),
            Occupant::Other => tx.stuck(
                "patch failed and rollback also failed"@,
                "rollback target became unsafe: "@ + joined_path(root, tx.snapshots[n - 1].path),
            ),
        },
        _ => tx.stuck("patch failed and rollback also failed"@, reply_failure(reply).1),
    }
}

/// A transaction after a reply to its next step.
pub open spec fn advanced(tx: TransactionView, root: Seq<char>, reply: Reply) -> TransactionView {
    match tx.stage {
        Stage::Writing(i) => after_write_reply(tx, root, i as int, reply),
        Stage::Deleting(i) => if reply is Done {
            tx.changed_by(i as int)
        } else {
            tx.failing(reply_failure(reply))
        },
        Stage::Linking(i) => if reply is Done {
            tx.at(Stage::Unlinking(i))
        } else {
            tx.failing(reply_failure(reply))
        },
        Stage::Unlinking(i) => if reply is Done {
            tx.changed_by(i as int)
        } else {
            tx.failing(reply_failure(reply))
        },
        Stage::Checking(i) => after_check_reply(tx, root, i as int, reply),
        Stage::Undoing(n) => after_undo_reply(tx, root, n as int, reply),
        Stage::Removing(n) => if reply is Done {
            tx.at(tx.emptied(n as int))
        } else {
            tx.stuck("patch failed and rollback also failed"@, reply_failure(reply).1)
        },
        Stage::Restoring(n) => if reply is Done {
            tx.at(tx.undoing(n - 1))
        } else {
            tx.stuck("patch failed and rollback also failed"@, reply_failure(reply).1)
        },
        Stage::Clearing(k) => if reply is Done || reply is Missing {
            tx.at(tx.clearing(k + 1))
        } else {
            tx.stuck("patch failed and directory rollback also failed"@, reply_failure(reply).1)
        },
        _ => tx,
    }
}

/// What came of a finished transaction: the changed paths in sorted order, or the failure.
pub open spec fn is_result(tx: TransactionView, r: Option<Result<Vec<String>, Failure>>) -> bool {
    match tx.stage {
        Stage::Applied => r matches Some(Ok(paths)) && is_sorted_set(texts(paths@)) && texts(
            paths@,
        ).to_set() == tx.changed,
        Stage::RolledBack => r matches Some(Err(failure)) && Some(failure@) == tx.error,
        Stage::Stuck => r matches Some(Err(failure)) && Some(failure@) == tx.error,
        _ => r is None,
    }
}

/// The failure that a reply stands for, where it is no answer to the step.
fn failure_of(reply: Reply) -> (r: Failure)
    ensures
        r@ == reply_failure(reply),
{
    match reply {
        Reply::Failed(message) => Failure { kind: FailureKind::OperationFailed, message },
        _ => fail(
            FailureKind::UnexpectedReply,
            "the reply does not answer the transaction step",
        ),
    }
}

impl Transaction {
    /// Whether the transaction is in order.
    pub open spec fn wf(&self) -> bool {
        self@.wf() && is_sorted_set(texts(self.changed@))
    }

    /// A transaction that has not done anything yet. `existing` names the directories that are
    /// there already, relative to the root.
    pub fn begin(operations: Vec<PreparedOperation>, existing: &Vec<String>) -> (r: Transaction)
        ensures
            r.wf(),
            r@.changes == change_views(operations@),
            r@.changed == Set::<Seq<char>>::empty(),
            r@.stage == (if operations@.len() > 0 { Stage::Writing(0) } else { Stage::Applied }),
            r@.error is None,
            deepest_first(r@.directories),
            r@.directories.no_duplicates(),
            forall|d: Seq<char>| #[trigger]
                r@.directories.contains(d) <==> is_made_directory(
                    r@.changes,
                    texts(existing@).to_set(),
                    d,
                ),
    {
        let list = snapshots(operations.as_slice());
        let directories = created_directories(operations.as_slice(), existing);
        let stage = if operations.len() > 0 {
            Stage::Writing(0)
        } else {
            Stage::Applied
        };
        let changed: Vec<String> = Vec::new();
        assert(texts(changed@) =~= Seq::empty());
        assert(texts(changed@).to_set() =~= Set::empty());
        Transaction { operations, snapshots: list, directories, changed, stage, error: None }
    }

    /// What has to be done next.
    pub fn step(&self) -> (r: Step<String, Vec<u8>>)
        requires
            self.wf(),
        ensures
            r@ == next_step(self@),
    {
        match self.stage {
            Stage::Writing(i) => {
                assert(self@.changes[i as int] == self.operations@[i as int]@);
                match &self.operations[i] {
                    Change::Create { path, after } => Step::Create {
                        path: copy(path.as_str()),
                        bytes: copy_bytes(after.as_slice()),
                    },
                    Change::Update { path, before, after } => Step::Replace {
                        path: copy(path.as_str()),
                        bytes: copy_bytes(after.as_slice()),
                    },
                    Change::Delete { path, before } => Step::InspectSource {
                        path: copy(path.as_str()),
                    },
                    Change::Rename { from, to, before } => Step::InspectRename {
                        from: copy(from.as_str()),
                        to: copy(to.as_str()),
                    },
                }
            },
            Stage::Deleting(i) => {
                assert(self@.changes[i as int] == self.operations@[i as int]@);
                match &self.operations[i] {
                    Change::Delete { path, before } => Step::Delete { path: copy(path.as_str()) },
                    _ => Step::Finished,
                }
            },
            Stage::Linking(i) => {
                assert(self@.changes[i as int] == self.operations@[i as int]@);
                match &self.operations[i] {
                    Change::Rename { from, to, before } => Step::Link {
                        from: copy(from.as_str()),
                        to: copy(to.as_str()),
                    },
                    _ => Step::Finished,
                }
            },
            Stage::Unlinking(i) => {
                assert(self@.changes[i as int] == self.operations@[i as int]@);
                match &self.operations[i] {
                    Change::Rename { from, to, before } => Step::Unlink {
                        path: copy(from.as_str()),
                    },
                    _ => Step::Finished,
                }
            },
            Stage::Checking(i) => {
                assert(self@.changes[i as int] == self.operations@[i as int]@);
                match left_path_of(&self.operations[i]) {
                    Some(path) => Step::CheckVisible { path: copy(path) },
                    None => Step::Finished,
                }
            },
            Stage::Undoing(n) => {
                assert(self@.snapshots[n - 1] == self.snapshots@[n - 1]@);
                Step::InspectUndo { path: copy(self.snapshots[n - 1].path.as_str()) }
            },
            Stage::Removing(n) => {
                assert(self@.snapshots[n - 1] == self.snapshots@[n - 1]@);
                Step::Remove { path: copy(self.snapshots[n - 1].path.as_str()) }
            },
            Stage::Restoring(n) => {
                assert(self@.snapshots[n - 1] == self.snapshots@[n - 1]@);
                let path = copy(self.snapshots[n - 1].path.as_str());
                match &self.snapshots[n - 1].before {
                    Some(bytes) => Step::Replace { path, bytes: copy_bytes(bytes.as_slice()) },
                    None => Step::Finished,
                }
            },
            Stage::Clearing(k) => {
                assert(self@.directories[k as int] == self.directories@[k as int]@);
                Step::RemoveDirectory { path: copy(self.directories[k].as_str()) }
            },
            Stage::Applied => Step::Finished,
            Stage::RolledBack => Step::Finished,
            Stage::Stuck => Step::Finished,
        }
    }

    /// The stage in which `n` snapshots are left to restore.
    fn undoing(&self, n: usize) -> (r: Stage)
        ensures
            r == self@.undoing(n as int),
    {
        if n > 0 {
            Stage::Undoing(n)
        } else if self.directories.len() > 0 {
            Stage::Clearing(0)
        } else {
            Stage::RolledBack
        }
    }

    /// The stage after the place of the last of `n` snapshots is empty.
    fn emptied(&self, n: usize) -> (r: Stage)
        requires
            0 < n <= self.snapshots@.len(),
        ensures
            r == self@.emptied(n as int),
    {
        assert(self@.snapshots[n - 1] == self.snapshots@[n - 1]@);
        if self.snapshots[n - 1].before.is_some() {
            Stage::Restoring(n)
        } else {
            self.undoing(n - 1)
        }
    }

    /// The stage in which the first change from `k` on that leaves a file is checked.
    fn checking_from(&self, k: usize) -> (r: Stage)
        ensures
            r == checking_from(self@.changes, k as int),
            self@.wf() ==> self@.at(r).wf(),
    {
        let mut i: usize = k;
        while i < self.operations.len()
            invariant
                k <= i,
                checking_from(self@.changes, k as int) == checking_from(self@.changes, i as int),
            decreases self.operations@.len() - i,
        {
            assert(self@.changes[i as int] == self.operations@[i as int]@);
            if left_path_of(&self.operations[i]).is_some() {
                return Stage::Checking(i);
            }
            i = i + 1;
        }
        Stage::Applied
    }

    /// Turns to the way back.
    fn fail(&mut self, failure: Failure)
        requires
            old(self).wf(),
        ensures
            final(self).wf(),
            final(self)@ == old(self)@.failing(failure@),
    {
        self.stage = self.undoing(self.snapshots.len());
        self.error = Some(failure);
    }

    /// Gives the way back up.
    fn give_up(&mut self, context: &str, reason: &str)
        requires
            old(self).wf(),
        ensures
            final(self).wf(),
            final(self)@ == old(self)@.stuck(context@, reason@),
    {
        self.stage = Stage::Stuck;
        self.error = Some(fail_in(FailureKind::RollbackFailed, context, reason));
    }

    /// Notes that change `i` is carried out.
    fn finish_change(&mut self, i: usize)
        requires
            old(self).wf(),
            i < old(self)@.changes.len(),
        ensures
            final(self).wf(),
            final(self)@ == old(self)@.changed_by(i as int),
    {
        let ghost before = self@;
        assert(self@.changes[i as int] == self.operations@[i as int]@);
        let ghost start = texts(self.changed@);
        touch(&mut self.changed, &self.operations[i]);
        assert(texts(self.changed@).to_set() =~= before.changed.union(
            change_paths(before.changes[i as int]).to_set(),
        )) by {
            assert forall|p: Seq<char>|
                texts(self.changed@).to_set().contains(p) <==> before.changed.union(
                    change_paths(before.changes[i as int]).to_set(),
                ).contains(p) by {
                assert(texts(self.changed@).contains(p) <==> start.contains(p) || change_paths(
                    before.changes[i as int],
                ).contains(p));
            }
        }
        let count: usize = self.operations.len();
        self.stage = if i + 1 < count {
            Stage::Writing(i + 1)
        } else {
            self.checking_from(0)
        };
    }

    /// Takes the reply to the step that was asked for.
    pub fn answer(&mut self, workspace: &Workspace, reply: Reply)
        requires
            old(self).wf(),
        ensures
            final(self).wf(),
            final(self)@ == advanced(old(self)@, workspace.root@, reply),
    {
        match self.stage {
            Stage::Writing(i) => self.answer_write(workspace, i, reply),
            Stage::Deleting(i) => {
                match reply {
                    Reply::Done => self.finish_change(i),
                    _ => self.fail(failure_of(reply)),
                }
            },
            Stage::Linking(i) => {
                match reply {
                    Reply::Done => {
                        self.stage = Stage::Unlinking(i);
                    },
                    _ => self.fail(failure_of(reply)),
                }
            },
            Stage::Unlinking(i) => {
                match reply {
                    Reply::Done => self.finish_change(i),
                    _ => self.fail(failure_of(reply)),
                }
            },
            Stage::Checking(i) => self.answer_check(workspace, i, reply),
            Stage::Undoing(n) => self.answer_undo(workspace, n, reply),
            Stage::Removing(n) => {
                match reply {
                    Reply::Done => {
                        self.stage = self.emptied(n);
                    },
                    _ => {
                        let failure = failure_of(reply);
                        self.give_up(
                            "patch failed and rollback also failed",
                            failure.message.as_str(),
                        );
                    },
                }
            },
            Stage::Restoring(n) => {
                match reply {
                    Reply::Done => {
                        self.stage = self.undoing(n - 1);
                    },
                    _ => {
                        let failure = failure_of(reply);
                        self.give_up(
                            "patch failed and rollback also failed",
                            failure.message.as_str(),
                        );
                    },
                }
            },
            Stage::Clearing(k) => {
                match reply {
                    Reply::Done | Reply::Missing => {
                        let count: usize = self.directories.len();
                        self.stage = if k + 1 < count {
                            Stage::Clearing(k + 1)
                        } else {
                            Stage::RolledBack
                        };
                    },
                    _ => {
                        let failure = failure_of(reply);
                        self.give_up(
                            "patch failed and directory rollback also failed",
                            failure.message.as_str(),
                        );
                    },
                }
            },
            Stage::Applied => {},
            Stage::RolledBack => {},
            Stage::Stuck => {},
        }
    }

    fn answer_write(&mut self, workspace: &Workspace, i: usize, reply: Reply)
        requires
            old(self).wf(),
            old(self)@.stage == Stage::Writing(i),
        ensures
            final(self).wf(),
            final(self)@ == after_write_reply(old(self)@, workspace.root@, i as int, reply),
    {
        assert(self@.changes[i as int] == self.operations@[i as int]@);
        match &self.operations[i] {
            Change::Delete { path, before } => {
                match reply {
                    Reply::Inspected(probes) => {
                        match workspace.validate_no_symlink_prefix(
                            path.as_str(),
                            false,
                            probes.as_slice(),
                        ) {
                            Err(failure) => self.fail(failure),
                            Ok(_) => {
                                self.stage = Stage::Deleting(i);
                            },
                        }
                    },
                    _ => self.fail(failure_of(reply)),
                }
            },
            Change::Rename { from, to, before } => {
                match reply {
                    Reply::InspectedRename { source, target, exists } => {
                        match workspace.validate_no_symlink_prefix(
                            from.as_str(),
                            false,
                            source.as_slice(),
                        ) {
                            Err(failure) => self.fail(failure),
                            Ok(_) => {
                                match workspace.validate_new_path(
                                    to.as_str(),
                                    target.as_slice(),
                                    exists,
                                ) {
                                    Err(failure) => self.fail(failure),
                                    Ok(_) => {
                                        self.stage = Stage::Linking(i);
                                    },
                                }
                            },
                        }
                    },
                    _ => self.fail(failure_of(reply)),
                }
            },
            _ => {
                match reply {
                    Reply::Done => self.finish_change(i),
                    _ => self.fail(failure_of(reply)),
                }
            },
        }
    }

    fn answer_check(&mut self, workspace: &Workspace, i: usize, reply: Reply)
        requires
            old(self).wf(),
            old(self)@.stage == Stage::Checking(i),
        ensures
            final(self).wf(),
            final(self)@ == after_check_reply(old(self)@, workspace.root@, i as int, reply),
    {
        assert(self@.changes[i as int] == self.operations@[i as int]@);
        let count: usize = self.operations.len();
        assert(i < count);
        let path = match left_path_of(&self.operations[i]) {
            Some(path) => copy(path),
            None => return ,
        };
        match reply {
            Reply::Listed { probes, output } => {
                match workspace.is_visible_existing(path.as_str(), probes.as_slice(), &output) {
                    Err(failure) => self.fail(failure),
                    Ok(visible) => {
                        if visible {
                            self.stage = self.checking_from(i + 1);
                        } else {
                            self.fail(
                                fail_about(
                                    FailureKind::IgnoredResult,
                                    "resulting path is ignored by ripgrep: ",
                                    path.as_str(),
                                ),
                            );
                        }
                    },
                }
            },
            _ => self.fail(failure_of(reply)),
        }
    }

    fn answer_undo(&mut self, workspace: &Workspace, n: usize, reply: Reply)
        requires
            old(self).wf(),
            old(self)@.stage == Stage::Undoing(n),
        ensures
            final(self).wf(),
            final(self)@ == after_undo_reply(old(self)@, workspace.root@, n as int, reply),
    {
        assert(self@.snapshots[n - 1] == self.snapshots@[n - 1]@);
        match reply {
            Reply::Found(occupant) => {
                match occupant {
                    Occupant::Nothing => {
                        self.stage = self.emptied(n);
                    },
                    Occupant::RegularFile => {
                        self.stage = Stage::Removing(n);
                    },
                    Occupant::Other => {
                        let place = join_path(
                            workspace.root.as_str(),
                            self.snapshots[n - 1].path.as_str(),
                        );
                        let reason = concat("rollback target became unsafe: ", place.as_str());
                        self.give_up("patch failed and rollback also failed", reason.as_str());
                    },
                }
            },
            _ => {
                let failure = failure_of(reply);
                self.give_up("patch failed and rollback also failed", failure.message.as_str());
            },
        }
    }

    /// What came of the transaction, once it is finished: the changed paths in sorted order, or
    /// the failure.
    pub fn result(self) -> (r: Option<Result<Vec<String>, Failure>>)
        requires
            self.wf(),
        ensures
            is_result(self@, r),
    {
        match self.stage {
            Stage::Applied => Some(Ok(self.changed)),
            Stage::RolledBack | Stage::Stuck => {
                match self.error {
                    Some(failure) => Some(Err(failure)),
                    None => None,
                }
            },
            _ => None,
        }
    }
}

/// The path at which a change leaves a file, if it leaves one.
fn left_path_of(change: &PreparedOperation) -> (r: Option<&str>)
    ensures
        opt_str(r) == left_path(change@),
{
    match change {
        Change::Create { path, after } => Some(path.as_str()),
        Change::Update { path, before, after } => Some(path.as_str()),
        Change::Rename { from, to, before } => Some(to.as_str()),
        Change::Delete { path, before } => None,
    }
}

} // verus!
