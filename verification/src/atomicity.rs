//! Why a transaction is all or nothing: what its steps do to the files, and what that comes to.
use vstd::prelude::*;

use crate::diff::{Change, ChangeView};
use crate::failure::Refusal;
use crate::listing::visibility;
use crate::transaction::{advanced, are_snapshots, change_paths, checking_from, left_path, next_step,
    preimage, touched_paths, Occupant, Reply, SnapshotView, Stage, Step, TransactionView};

verus! {

/// The regular files of a workspace, by path.
pub type Files = Map<Seq<char>, Seq<u8>>;

/// Whether two states of the files agree at a path.
pub open spec fn agree_at(a: Files, b: Files, path: Seq<char>) -> bool {
    &&& a.dom().contains(path) == b.dom().contains(path)
    &&& a.dom().contains(path) ==> a[path] == b[path]
}

/// Whether two states of the files agree except perhaps at the given paths.
pub open spec fn agree_outside(a: Files, b: Files, paths: Seq<Seq<char>>) -> bool {
    forall|p: Seq<char>| !paths.contains(p) ==> #[trigger] agree_at(a, b, p)
}

/// The paths at which a step may change a file.
pub open spec fn step_paths(step: Step<Seq<char>, Seq<u8>>) -> Seq<Seq<char>> {
    match step {
        Step::Create { path, bytes } => seq![path],
        Step::Replace { path, bytes } => seq![path],
        Step::Delete { path } => seq![path],
        Step::Link { from, to } => seq![to],
        Step::Unlink { path } => seq![path],
        Step::Remove { path } => seq![path],
        _ => Seq::empty(),
    }
}

/// What a step that was done did to the files.
pub open spec fn done(step: Step<Seq<char>, Seq<u8>>, before: Files, after: Files) -> bool {
    match step {
        Step::Create { path, bytes } => !before.dom().contains(path) && after == before.insert(
            path,
            bytes,
        ),
        Step::Replace { path, bytes } => after == before.insert(path, bytes),
        Step::Delete { path } => after == before.remove(path),
        Step::Link { from, to } => before.dom().contains(from) && !before.dom().contains(to)
            && after == before.insert(to, before[from]),
        Step::Unlink { path } => after == before.remove(path),
        Step::Remove { path } => after == before.remove(path),
        _ => after == before,
    }
}

/// What a step may have done to the files, given its reply. A step that was not done may have left
/// anything at its own path, and nothing elsewhere. A look that found nothing is true.
pub open spec fn possible(
    step: Step<Seq<char>, Seq<u8>>,
    reply: Reply,
    before: Files,
    after: Files,
) -> bool {
    &&& if reply is Done {
        done(step, before, after)
    } else {
        agree_outside(before, after, step_paths(step))
    }
    &&& match step {
        Step::InspectUndo { path } => reply == Reply::Found(Occupant::Nothing)
            ==> !before.dom().contains(path),
        _ => true,
    }
}

/// Whether the files are in the state that the snapshots hold.
pub open spec fn captured(files: Files, snapshots: Seq<SnapshotView>) -> bool {
    forall|i: int|
        0 <= i < snapshots.len() ==> holds_snapshot(files, #[trigger] snapshots[i])
}

/// Whether a file is in the state that its snapshot holds.
pub open spec fn holds_snapshot(files: Files, snapshot: SnapshotView) -> bool {
    match snapshot.before {
        Some(bytes) => files.dom().contains(snapshot.path) && files[snapshot.path] == bytes,
        None => !files.dom().contains(snapshot.path),
    }
}

/// The transaction after the first `n` replies.
pub open spec fn after_replies(
    start: TransactionView,
    root: Seq<char>,
    replies: Seq<Reply>,
    n: int,
) -> TransactionView
    decreases n,
{
    if n <= 0 {
        start
    } else {
        advanced(after_replies(start, root, replies, n - 1), root, replies[n - 1])
    }
}

/// Whether the files may have gone through these states while the replies came in.
pub open spec fn is_history(
    start: TransactionView,
    root: Seq<char>,
    replies: Seq<Reply>,
    files: Seq<Files>,
) -> bool {
    &&& files.len() == replies.len() + 1
    &&& forall|i: int|
        0 <= i < replies.len() ==> possible(
            next_step(after_replies(start, root, replies, i)),
            replies[i],
            #[trigger] files[i],
            files[i + 1],
        )
}

/// The files after a change.
pub open spec fn changed_files(files: Files, change: ChangeView) -> Files {
    match change {
        Change::Create { path, after } => files.insert(path, after),
        Change::Update { path, before, after } => files.insert(path, after),
        Change::Delete { path, before } => files.remove(path),
        Change::Rename { from, to, before } => files.insert(to, files[from]).remove(from),
    }
}

/// The files after the first `n` changes.
pub open spec fn files_after(files: Files, changes: Seq<ChangeView>, n: int) -> Files
    decreases n,
{
    if n <= 0 {
        files
    } else {
        changed_files(files_after(files, changes, n - 1), changes[n - 1])
    }
}

// ---------------------------------------------------------------------------------------------
// Nothing
// ---------------------------------------------------------------------------------------------

/// How many snapshots a transaction on the way back has not restored yet.
pub open spec fn unrestored(tx: TransactionView) -> Option<int> {
    match tx.stage {
        Stage::Undoing(n) => Some(n as int),
        Stage::Removing(n) => Some(n as int),
        Stage::Restoring(n) => Some(n as int),
        Stage::Clearing(k) => Some(0),
        Stage::RolledBack => Some(0),
        _ => None,
    }
}

/// The files differ from the start only at touched paths, and on the way back not at the paths of
/// the snapshots that are restored.
pub open spec fn on_track(tx: TransactionView, start: Files, files: Files) -> bool {
    &&& agree_outside(start, files, touched_paths(tx.changes))
    &&& unrestored(tx) matches Some(n) ==> forall|i: int|
        n <= i < tx.snapshots.len() ==> agree_at(start, files, #[trigger] tx.snapshots[i].path)
    &&& match tx.stage {
        Stage::Restoring(n) => !files.dom().contains(tx.snapshots[n - 1].path),
        _ => true,
    }
}

proof fn lemma_touched_by(changes: Seq<ChangeView>, i: int, p: Seq<char>)
    requires
        0 <= i < changes.len(),
        change_paths(changes[i]).contains(p),
    ensures
        touched_paths(changes).contains(p),
    decreases changes.len(),
{
    let front = touched_paths(changes.drop_last());
    let back = change_paths(changes.last());
    if i == changes.len() - 1 {
        let k = back.index_of(p);
        assert((front + back)[front.len() + k] == p);
    } else {
        assert(changes.drop_last()[i] == changes[i]);
        lemma_touched_by(changes.drop_last(), i, p);
        let k = front.index_of(p);
        assert((front + back)[k] == p);
    }
}

proof fn lemma_snapshot_touched(tx: TransactionView, i: int)
    requires
        are_snapshots(tx.snapshots, tx.changes),
        0 <= i < tx.snapshots.len(),
    ensures
        touched_paths(tx.changes).contains(tx.snapshots[i].path),
{
    let paths = Seq::new(tx.snapshots.len(), |k: int| tx.snapshots[k].path);
    assert(paths[i] == tx.snapshots[i].path);
    assert(paths.to_set().contains(tx.snapshots[i].path));
    assert(touched_paths(tx.changes).to_set().contains(tx.snapshots[i].path));
}

proof fn lemma_snapshots_distinct(tx: TransactionView, i: int, j: int)
    requires
        are_snapshots(tx.snapshots, tx.changes),
        0 <= i < tx.snapshots.len(),
        0 <= j < tx.snapshots.len(),
        i != j,
    ensures
        tx.snapshots[i].path != tx.snapshots[j].path,
{
    let paths = Seq::new(tx.snapshots.len(), |k: int| tx.snapshots[k].path);
    assert(paths[i] != paths[j]);
}

/// A step changes files only at touched paths.
proof fn lemma_step_paths(tx: TransactionView, p: Seq<char>)
    requires
        tx.wf(),
        step_paths(next_step(tx)).contains(p),
    ensures
        touched_paths(tx.changes).contains(p),
{
    let paths = step_paths(next_step(tx));
    match tx.stage {
        Stage::Writing(i) => {
            let named = change_paths(tx.changes[i as int]);
            assert(named[0] == p) by {
                match tx.changes[i as int] {
                    Change::Create { path, after } => {},
                    Change::Update { path, before, after } => {},
                    Change::Delete { path, before } => {},
                    Change::Rename { from, to, before } => {},
                }
            }
            lemma_touched_by(tx.changes, i as int, p);
        },
        Stage::Deleting(i) => {
            assert(change_paths(tx.changes[i as int])[0] == p);
            lemma_touched_by(tx.changes, i as int, p);
        },
        Stage::Linking(i) => {
            assert(change_paths(tx.changes[i as int])[1] == p);
            lemma_touched_by(tx.changes, i as int, p);
        },
        Stage::Unlinking(i) => {
            assert(change_paths(tx.changes[i as int])[0] == p);
            lemma_touched_by(tx.changes, i as int, p);
        },
        Stage::Removing(n) => {
            lemma_snapshot_touched(tx, n - 1);
        },
        Stage::Restoring(n) => {
            lemma_snapshot_touched(tx, n - 1);
        },
        _ => {},
    }
}

/// Whatever a step did, the files changed only at its own paths.
proof fn lemma_possible(
    step: Step<Seq<char>, Seq<u8>>,
    reply: Reply,
    before: Files,
    after: Files,
)
    requires
        possible(step, reply, before, after),
    ensures
        agree_outside(before, after, step_paths(step)),
{
    if reply is Done {
        assert forall|p: Seq<char>| !step_paths(step).contains(p) implies #[trigger] agree_at(
            before,
            after,
            p,
        ) by {
            match step {
                Step::Create { path, bytes } => {
                    assert(step_paths(step)[0] == path);
                },
                Step::Replace { path, bytes } => {
                    assert(step_paths(step)[0] == path);
                },
                Step::Delete { path } => {
                    assert(step_paths(step)[0] == path);
                },
                Step::Link { from, to } => {
                    assert(step_paths(step)[0] == to);
                },
                Step::Unlink { path } => {
                    assert(step_paths(step)[0] == path);
                },
                Step::Remove { path } => {
                    assert(step_paths(step)[0] == path);
                },
                _ => {},
            }
        }
    }
}

proof fn lemma_checking_from(tx: TransactionView, k: int)
    requires
        are_snapshots(tx.snapshots, tx.changes),
        tx.changes.len() <= usize::MAX,
        0 <= k,
    ensures
        checking_from(tx.changes, k) is Checking || checking_from(tx.changes, k) is Applied,
        match checking_from(tx.changes, k) {
            Stage::Checking(i) => k <= i < tx.changes.len() && left_path(tx.changes[i as int])
                is Some,
            _ => true,
        },
    decreases tx.changes.len() - k,
{
    if k < tx.changes.len() && left_path(tx.changes[k]) is None {
        lemma_checking_from(tx, k + 1);
    }
}

/// Whether the counts of a transaction fit in machine words.
pub open spec fn fits(tx: TransactionView) -> bool {
    &&& tx.changes.len() <= usize::MAX
    &&& tx.snapshots.len() <= usize::MAX
    &&& tx.directories.len() <= usize::MAX
}

proof fn lemma_advanced_wf(tx: TransactionView, root: Seq<char>, reply: Reply)
    requires
        tx.wf(),
        fits(tx),
    ensures
        advanced(tx, root, reply).wf(),
        fits(advanced(tx, root, reply)),
        advanced(tx, root, reply).changes == tx.changes,
        advanced(tx, root, reply).snapshots == tx.snapshots,
{
    lemma_checking_from(tx, 0);
    match tx.stage {
        Stage::Checking(i) => {
            lemma_checking_from(tx, i + 1);
        },
        _ => {},
    }
}

/// One step keeps the transaction on track.
proof fn lemma_on_track(
    tx: TransactionView,
    root: Seq<char>,
    reply: Reply,
    start: Files,
    before: Files,
    after: Files,
)
    requires
        tx.wf(),
        fits(tx),
        captured(start, tx.snapshots),
        on_track(tx, start, before),
        possible(next_step(tx), reply, before, after),
    ensures
        on_track(advanced(tx, root, reply), start, after),
{
    let next = advanced(tx, root, reply);
    let step = next_step(tx);
    lemma_advanced_wf(tx, root, reply);
    lemma_checking_from(tx, 0);
    match tx.stage {
        Stage::Checking(i) => {
            lemma_checking_from(tx, i + 1);
        },
        _ => {},
    }
    lemma_possible(step, reply, before, after);
    assert forall|p: Seq<char>| !touched_paths(tx.changes).contains(p) implies #[trigger] agree_at(
        start,
        after,
        p,
    ) by {
        if step_paths(step).contains(p) {
            lemma_step_paths(tx, p);
        }
        assert(agree_at(start, before, p));
        assert(agree_at(before, after, p));
    }
    if let Some(n) = unrestored(next) {
        assert forall|i: int| n <= i < tx.snapshots.len() implies agree_at(
            start,
            after,
            #[trigger] tx.snapshots[i].path,
        ) by {
            let p = tx.snapshots[i].path;
            assert(holds_snapshot(start, tx.snapshots[i]));
            match tx.stage {
                Stage::Undoing(m) => {
                    assert(step_paths(step) =~= Seq::empty());
                    assert(agree_at(before, after, p));
                    if i >= m {
                        assert(agree_at(start, before, p));
                    }
                },
                Stage::Removing(m) => {
                    if i >= m {
                        lemma_snapshots_distinct(tx, i, m - 1);
                        assert(agree_at(start, before, p));
                        assert(!step_paths(step).contains(p));
                        assert(agree_at(before, after, p));
                    }
                },
                Stage::Restoring(m) => {
                    if i >= m {
                        lemma_snapshots_distinct(tx, i, m - 1);
                        assert(agree_at(start, before, p));
                        assert(!step_paths(step).contains(p));
                        assert(agree_at(before, after, p));
                    }
                },
                Stage::Clearing(k) => {
                    assert(step_paths(step) =~= Seq::empty());
                    assert(agree_at(start, before, p));
                    assert(agree_at(before, after, p));
                },
                Stage::RolledBack => {
                    assert(step_paths(step) =~= Seq::empty());
                    assert(agree_at(start, before, p));
                    assert(agree_at(before, after, p));
                },
                _ => {
                    assert(tx.snapshots.len() == 0);
                },
            }
        }
    }
    match next.stage {
        Stage::Restoring(n) => {
            assert(step_paths(step).contains(tx.snapshots[n - 1].path) || agree_at(
                before,
                after,
                tx.snapshots[n - 1].path,
            ));
        },
        _ => {},
    }
}

proof fn lemma_history(
    start: TransactionView,
    root: Seq<char>,
    replies: Seq<Reply>,
    files: Seq<Files>,
    n: int,
)
    requires
        start.wf(),
        fits(start),
        start.stage is Writing || start.stage is Applied,
        captured(files[0], start.snapshots),
        is_history(start, root, replies, files),
        0 <= n <= replies.len(),
    ensures
        after_replies(start, root, replies, n).wf(),
        fits(after_replies(start, root, replies, n)),
        after_replies(start, root, replies, n).changes == start.changes,
        after_replies(start, root, replies, n).snapshots == start.snapshots,
        on_track(after_replies(start, root, replies, n), files[0], files[n]),
    decreases n,
{
    if n > 0 {
        lemma_history(start, root, replies, files, n - 1);
        let tx = after_replies(start, root, replies, n - 1);
        assert(possible(next_step(tx), replies[n - 1], files[n - 1], files[n - 1 + 1]));
        lemma_advanced_wf(tx, root, replies[n - 1]);
        lemma_on_track(tx, root, replies[n - 1], files[0], files[n - 1], files[n]);
    }
}

/// A transaction that fails and finds its way back leaves every file as it was, whatever its
/// failed steps had done.
pub proof fn a_rolled_back_transaction_leaves_no_trace(
    start: TransactionView,
    root: Seq<char>,
    replies: Seq<Reply>,
    files: Seq<Files>,
)
    requires
        start.wf(),
        fits(start),
        start.stage is Writing || start.stage is Applied,
        captured(files[0], start.snapshots),
        is_history(start, root, replies, files),
        after_replies(start, root, replies, replies.len() as int).stage is RolledBack,
    ensures
        files.last() == files[0],
{
    let n = replies.len() as int;
    lemma_history(start, root, replies, files, n);
    let tx = after_replies(start, root, replies, n);
    let first = files[0];
    let last = files[n];
    assert forall|p: Seq<char>| #[trigger] agree_at(first, last, p) by {
        if touched_paths(tx.changes).contains(p) {
            let paths = Seq::new(tx.snapshots.len(), |k: int| tx.snapshots[k].path);
            assert(touched_paths(tx.changes).to_set().contains(p));
            assert(paths.to_set().contains(p));
            let i = paths.index_of(p);
            assert(paths.contains(p));
            assert(tx.snapshots[i].path == p);
        }
    }
    assert(first.dom() =~= last.dom()) by {
        assert forall|p: Seq<char>| first.dom().contains(p) <==> last.dom().contains(p) by {
            assert(agree_at(first, last, p));
        }
    }
    assert(first =~= last) by {
        assert forall|p: Seq<char>| first.dom().contains(p) implies first[p] == last[p] by {
            assert(agree_at(first, last, p));
        }
    }
}

/// Whatever happens to a transaction, no file changes but at the paths that the patch names.
pub proof fn a_transaction_touches_only_its_own_paths(
    start: TransactionView,
    root: Seq<char>,
    replies: Seq<Reply>,
    files: Seq<Files>,
)
    requires
        start.wf(),
        fits(start),
        start.stage is Writing || start.stage is Applied,
        captured(files[0], start.snapshots),
        is_history(start, root, replies, files),
    ensures
        agree_outside(files[0], files.last(), touched_paths(start.changes)),
{
    lemma_history(start, root, replies, files, replies.len() as int);
}

// ---------------------------------------------------------------------------------------------
// All
// ---------------------------------------------------------------------------------------------

/// As long as nothing failed, the files are where the carried-out changes put them, and the paths
/// of those changes are noted.
pub open spec fn on_course(tx: TransactionView, start: Files, files: Files) -> bool {
    match tx.stage {
        Stage::Writing(i) => files == files_after(start, tx.changes, i as int) && tx.changed
            == touched_paths(tx.changes.take(i as int)).to_set(),
        Stage::Deleting(i) => files == files_after(start, tx.changes, i as int) && tx.changed
            == touched_paths(tx.changes.take(i as int)).to_set(),
        Stage::Linking(i) => files == files_after(start, tx.changes, i as int) && tx.changed
            == touched_paths(tx.changes.take(i as int)).to_set(),
        Stage::Unlinking(i) => {
            let before = files_after(start, tx.changes, i as int);
            &&& files == before.insert(
                tx.changes[i as int]->to,
                before[tx.changes[i as int]->from],
            )
            &&& tx.changed == touched_paths(tx.changes.take(i as int)).to_set()
        },
        Stage::Checking(k) => files == files_after(start, tx.changes, tx.changes.len() as int)
            && tx.changed == touched_paths(tx.changes).to_set(),
        Stage::Applied => files == files_after(start, tx.changes, tx.changes.len() as int)
            && tx.changed == touched_paths(tx.changes).to_set(),
        _ => true,
    }
}

proof fn lemma_changed_by(tx: TransactionView, i: int)
    requires
        0 <= i < tx.changes.len(),
        tx.changed == touched_paths(tx.changes.take(i)).to_set(),
    ensures
        tx.changed_by(i).changed == touched_paths(tx.changes.take(i + 1)).to_set(),
{
    let grown = tx.changes.take(i + 1);
    assert(grown.drop_last() =~= tx.changes.take(i));
    assert(grown.last() == tx.changes[i]);
    let front = touched_paths(tx.changes.take(i));
    let back = change_paths(tx.changes[i]);
    assert((front + back).to_set() =~= front.to_set().union(back.to_set())) by {
        assert forall|p: Seq<char>|
            (front + back).to_set().contains(p) <==> front.to_set().union(back.to_set()).contains(
                p,
            ) by {
            if front.contains(p) {
                assert((front + back)[front.index_of(p)] == p);
            }
            if back.contains(p) {
                assert((front + back)[front.len() + back.index_of(p)] == p);
            }
            if (front + back).contains(p) {
                let k = (front + back).index_of(p);
                if k < front.len() {
                    assert(front[k] == p);
                } else {
                    assert(back[k - front.len()] == p);
                }
            }
        }
    }
}

/// One step keeps the transaction on course.
proof fn lemma_on_course(
    tx: TransactionView,
    root: Seq<char>,
    reply: Reply,
    start: Files,
    before: Files,
    after: Files,
)
    requires
        tx.wf(),
        fits(tx),
        on_course(tx, start, before),
        possible(next_step(tx), reply, before, after),
    ensures
        on_course(advanced(tx, root, reply), start, after),
{
    let next = advanced(tx, root, reply);
    let step = next_step(tx);
    let whole = tx.changes.len() as int;
    lemma_checking_from(tx, 0);
    assert(tx.changes.take(whole) =~= tx.changes);
    lemma_unchanged(step, reply, before, after);
    match tx.stage {
        Stage::Writing(i) => {
            lemma_changed_by(tx, i as int);
        },
        Stage::Deleting(i) => {
            lemma_changed_by(tx, i as int);
        },
        Stage::Unlinking(i) => {
            lemma_changed_by(tx, i as int);
        },
        Stage::Checking(k) => {
            lemma_checking_from(tx, k + 1);
        },
        _ => {},
    }
}

/// A step that changes no file leaves the files as they are.
proof fn lemma_unchanged(
    step: Step<Seq<char>, Seq<u8>>,
    reply: Reply,
    before: Files,
    after: Files,
)
    requires
        possible(step, reply, before, after),
    ensures
        step_paths(step).len() == 0 ==> before == after,
{
    if step_paths(step).len() == 0 {
        lemma_possible(step, reply, before, after);
        assert forall|p: Seq<char>| #[trigger] agree_at(before, after, p) by {
            assert(!step_paths(step).contains(p));
        }
        assert(before.dom() =~= after.dom()) by {
            assert forall|p: Seq<char>| before.dom().contains(p) <==> after.dom().contains(p) by {
                assert(agree_at(before, after, p));
            }
        }
        assert(before =~= after) by {
            assert forall|p: Seq<char>| before.dom().contains(p) implies before[p] == after[p] by {
                assert(agree_at(before, after, p));
            }
        }
    }
}

proof fn lemma_course(
    start: TransactionView,
    root: Seq<char>,
    replies: Seq<Reply>,
    files: Seq<Files>,
    n: int,
)
    requires
        start.wf(),
        fits(start),
        start.stage == Stage::Writing(0),
        start.changed == Set::<Seq<char>>::empty(),
        is_history(start, root, replies, files),
        0 <= n <= replies.len(),
    ensures
        after_replies(start, root, replies, n).wf(),
        fits(after_replies(start, root, replies, n)),
        after_replies(start, root, replies, n).changes == start.changes,
        on_course(after_replies(start, root, replies, n), files[0], files[n]),
    decreases n,
{
    if n > 0 {
        lemma_course(start, root, replies, files, n - 1);
        let tx = after_replies(start, root, replies, n - 1);
        assert(possible(next_step(tx), replies[n - 1], files[n - 1], files[n - 1 + 1]));
        lemma_advanced_wf(tx, root, replies[n - 1]);
        lemma_on_course(tx, root, replies[n - 1], files[0], files[n - 1], files[n]);
    } else {
        assert(start.changes.take(0) =~= Seq::empty());
        assert(touched_paths(start.changes.take(0)).to_set() =~= Set::empty());
    }
}

/// A transaction that is applied has carried out every change, and the paths it reports are the
/// ones that the patch names.
pub proof fn an_applied_transaction_did_every_change(
    start: TransactionView,
    root: Seq<char>,
    replies: Seq<Reply>,
    files: Seq<Files>,
)
    requires
        start.wf(),
        fits(start),
        start.stage == Stage::Writing(0),
        start.changed == Set::<Seq<char>>::empty(),
        is_history(start, root, replies, files),
        after_replies(start, root, replies, replies.len() as int).stage is Applied,
    ensures
        files.last() == files_after(files[0], start.changes, start.changes.len() as int),
        after_replies(start, root, replies, replies.len() as int).changed == touched_paths(
            start.changes,
        ).to_set(),
{
    lemma_course(start, root, replies, files, replies.len() as int);
}

// ---------------------------------------------------------------------------------------------
// The start
// ---------------------------------------------------------------------------------------------

/// Whether a change found the files as they are.
pub open spec fn found(files: Files, change: ChangeView) -> bool {
    match change {
        Change::Create { path, after } => !files.dom().contains(path),
        Change::Update { path, before, after } => files.dom().contains(path) && files[path]
            == before,
        Change::Delete { path, before } => files.dom().contains(path) && files[path] == before,
        Change::Rename { from, to, before } => files.dom().contains(from) && files[from] == before
            && !files.dom().contains(to),
    }
}

/// The snapshots of a patch whose changes found the files as they are hold the state of the files.
pub proof fn snapshots_capture_the_files(
    files: Files,
    changes: Seq<ChangeView>,
    snapshots: Seq<SnapshotView>,
)
    requires
        are_snapshots(snapshots, changes),
        forall|i: int| 0 <= i < changes.len() ==> found(files, #[trigger] changes[i]),
    ensures
        captured(files, snapshots),
{
    assert forall|i: int| 0 <= i < snapshots.len() implies holds_snapshot(
        files,
        #[trigger] snapshots[i],
    ) by {
        assert(preimage(changes, snapshots[i].path) == Some(snapshots[i].before));
        lemma_preimage_found(files, changes, snapshots[i].path);
    }
}

proof fn lemma_preimage_found(files: Files, changes: Seq<ChangeView>, p: Seq<char>)
    requires
        forall|i: int| 0 <= i < changes.len() ==> found(files, #[trigger] changes[i]),
    ensures
        preimage(changes, p) matches Some(before) ==> match before {
            Some(bytes) => files.dom().contains(p) && files[p] == bytes,
            None => !files.dom().contains(p),
        },
    decreases changes.len(),
{
    if changes.len() > 0 {
        assert(found(files, changes.last()));
        assert forall|i: int| 0 <= i < changes.drop_last().len() implies found(
            files,
            #[trigger] changes.drop_last()[i],
        ) by {
            assert(found(files, changes[i]));
        }
        lemma_preimage_found(files, changes.drop_last(), p);
    }
}

// ---------------------------------------------------------------------------------------------
// The end
// ---------------------------------------------------------------------------------------------

/// Whether a reply shows a path among the visible files.
pub open spec fn shows(root: Seq<char>, reply: Reply, path: Seq<char>) -> bool {
    match reply {
        Reply::Listed { probes, output } => visibility(root, path, probes@, output) == Ok::<
            bool,
            Refusal,
        >(true),
        _ => false,
    }
}

/// Whether one of the first `n` replies shows what a change left, if it left something.
pub open spec fn seen(
    root: Seq<char>,
    replies: Seq<Reply>,
    n: int,
    change: ChangeView,
) -> bool {
    left_path(change) matches Some(path) ==> exists|i: int|
        0 <= i < n && shows(root, #[trigger] replies[i], path)
}

/// Whether what the first `k` changes left was seen.
pub open spec fn seen_up_to(
    root: Seq<char>,
    replies: Seq<Reply>,
    n: int,
    changes: Seq<ChangeView>,
    k: int,
) -> bool {
    forall|j: int| 0 <= j < k ==> seen(root, replies, n, #[trigger] changes[j])
}

proof fn lemma_checked(tx: TransactionView, k: int)
    requires
        tx.changes.len() <= usize::MAX,
        0 <= k <= tx.changes.len(),
    ensures
        match checking_from(tx.changes, k) {
            Stage::Checking(i) => k <= i < tx.changes.len() && forall|j: int|
                k <= j < i ==> left_path(#[trigger] tx.changes[j]) is None,
            Stage::Applied => forall|j: int|
                k <= j < tx.changes.len() ==> left_path(#[trigger] tx.changes[j]) is None,
            _ => false,
        },
    decreases tx.changes.len() - k,
{
    if k < tx.changes.len() && left_path(tx.changes[k]) is None {
        lemma_checked(tx, k + 1);
    }
}

/// Whether a transaction that checks, or is applied, has seen what its changes left so far.
pub open spec fn has_seen(
    tx: TransactionView,
    root: Seq<char>,
    replies: Seq<Reply>,
    n: int,
) -> bool {
    match tx.stage {
        Stage::Checking(k) => seen_up_to(root, replies, n, tx.changes, k as int),
        Stage::Applied => seen_up_to(root, replies, n, tx.changes, tx.changes.len() as int),
        _ => true,
    }
}

proof fn lemma_has_seen(start: TransactionView, root: Seq<char>, replies: Seq<Reply>, n: int)
    requires
        start.wf(),
        fits(start),
        start.stage is Writing,
        0 <= n <= replies.len(),
    ensures
        after_replies(start, root, replies, n).wf(),
        fits(after_replies(start, root, replies, n)),
        after_replies(start, root, replies, n).changes == start.changes,
        has_seen(after_replies(start, root, replies, n), root, replies, n),
    decreases n,
{
    if n > 0 {
        lemma_has_seen(start, root, replies, n - 1);
        let tx = after_replies(start, root, replies, n - 1);
        let next = after_replies(start, root, replies, n);
        let reply = replies[n - 1];
        lemma_advanced_wf(tx, root, reply);
        lemma_checked(tx, 0);
        assert forall|change: ChangeView| #[trigger] seen(root, replies, n - 1, change) implies seen(
            root,
            replies,
            n,
            change,
        ) by {
            if left_path(change) is Some {
                let path = left_path(change)->Some_0;
                let i = choose|i: int| 0 <= i < n - 1 && shows(root, #[trigger] replies[i], path);
                assert(0 <= i < n && shows(root, replies[i], path));
            }
        }
        match tx.stage {
            Stage::Checking(k) => {
                lemma_checked(tx, k + 1);
                if next.stage is Checking || next.stage is Applied {
                    let path = left_path(tx.changes[k as int])->Some_0;
                    assert(shows(root, replies[n - 1], path));
                    assert(seen(root, replies, n, tx.changes[k as int]));
                    assert forall|j: int| 0 <= j < k implies seen(
                        root,
                        replies,
                        n,
                        #[trigger] tx.changes[j],
                    ) by {
                        assert(seen(root, replies, n - 1, tx.changes[j]));
                    }
                }
            },
            Stage::Applied => {
                assert forall|j: int| 0 <= j < tx.changes.len() implies seen(
                    root,
                    replies,
                    n,
                    #[trigger] tx.changes[j],
                ) by {
                    assert(seen(root, replies, n - 1, tx.changes[j]));
                }
            },
            _ => {},
        }
    }
}

/// A transaction is applied only after every file that it left was seen among the visible ones: a
/// patch cannot leave a file that the ignore rules hide.
pub proof fn an_applied_transaction_left_visible_files(
    start: TransactionView,
    root: Seq<char>,
    replies: Seq<Reply>,
    change: int,
)
    requires
        start.wf(),
        fits(start),
        start.stage is Writing,
        after_replies(start, root, replies, replies.len() as int).stage is Applied,
        0 <= change < start.changes.len(),
    ensures
        seen(root, replies, replies.len() as int, start.changes[change]),
{
    lemma_has_seen(start, root, replies, replies.len() as int);
}

/// How many replies a transaction needs at most to come to its end.
pub open spec fn remaining_replies(tx: TransactionView) -> int {
    let changes = tx.changes.len();
    let undo = 3 * tx.snapshots.len() + tx.directories.len() + 1;
    match tx.stage {
        Stage::Writing(i) => 3 * (changes - i) + changes + undo,
        Stage::Deleting(i) => 3 * (changes - i) - 1 + changes + undo,
        Stage::Linking(i) => 3 * (changes - i) - 1 + changes + undo,
        Stage::Unlinking(i) => 3 * (changes - i) - 2 + changes + undo,
        Stage::Checking(k) => changes - k + undo,
        Stage::Undoing(n) => 3 * n + tx.directories.len(),
        Stage::Removing(n) => 3 * n - 1 + tx.directories.len(),
        Stage::Restoring(n) => 3 * n - 2 + tx.directories.len(),
        Stage::Clearing(k) => tx.directories.len() - k,
        _ => 0,
    }
}

/// Every reply brings a transaction nearer to its end.
pub proof fn a_transaction_comes_to_an_end(tx: TransactionView, root: Seq<char>, reply: Reply)
    requires
        tx.wf(),
        fits(tx),
    ensures
        next_step(tx) is Finished <==> remaining_replies(tx) == 0,
        !(next_step(tx) is Finished) ==> 0 <= remaining_replies(advanced(tx, root, reply))
            < remaining_replies(tx),
{
    lemma_advanced_wf(tx, root, reply);
    lemma_checking_from(tx, 0);
    match tx.stage {
        Stage::Checking(i) => {
            lemma_checking_from(tx, i + 1);
        },
        _ => {},
    }
}

} // verus!
