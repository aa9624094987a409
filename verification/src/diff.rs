//! The patch as it is shown: a diff made from the changes themselves, never parsed back.
use vstd::prelude::*;

use crate::encoding::{byte_len, byte_len_of, count_text, decimal, fitting_chars,
    fitting_chars_is_the_longest_prefix, fitting_prefix, show_bytes, shown_text};
use crate::scan::{chained, consists_of, lines, lines_are_the_whole_text, lines_of};
use crate::text::{concat, same_text, texts};

verus! {

/// Bytes of a shown diff, without the note that says it was cut.
pub const PATCH_DIFF_BYTE_LIMIT: usize = 262144;

/// Unchanged lines that are shown on each side of a change.
pub const DIFF_CONTEXT_LINES: usize = 3;

/// One change of a patch: its paths, what was there and what is to be there.
#[derive(Clone, Debug)]
pub enum Change<T, B> {
    Create { path: T, after: B },
    Update { path: T, before: B, after: B },
    Delete { path: T, before: B },
    Rename { from: T, to: T, before: B },
}

/// A change over strings and bytes.
pub type PreparedOperation = Change<String, Vec<u8>>;

/// A change over plain texts.
pub type ChangeView = Change<Seq<char>, Seq<u8>>;

impl<T: View, B: View> View for Change<T, B> {
    type V = Change<T::V, B::V>;

    open spec fn view(&self) -> Change<T::V, B::V> {
        match *self {
            Change::Create { path, after } => Change::Create { path: path@, after: after@ },
            Change::Update { path, before, after } => Change::Update {
                path: path@,
                before: before@,
                after: after@,
            },
            Change::Delete { path, before } => Change::Delete { path: path@, before: before@ },
            Change::Rename { from, to, before } => Change::Rename {
                from: from@,
                to: to@,
                before: before@,
            },
        }
    }
}

/// The changes over plain texts.
pub open spec fn change_views(s: Seq<PreparedOperation>) -> Seq<ChangeView> {
    Seq::new(s.len(), |i: int| s[i]@)
}

// ---------------------------------------------------------------------------------------------
// Lines
// ---------------------------------------------------------------------------------------------

/// Lines, each behind a mark and in front of a line feed.
pub open spec fn marked(s: Seq<Seq<char>>, mark: char) -> Seq<char>
    decreases s.len(),
{
    if s.len() == 0 {
        Seq::empty()
    } else {
        marked(s.drop_last(), mark).push(mark) + s.last().push('\n')
    }
}

/// Appends the lines from `from` to `to`, each behind a mark.
fn push_marked(rendered: &mut String, all: &Vec<String>, from: usize, to: usize, mark: char)
    requires
        from <= to <= all@.len(),
    ensures
        final(rendered)@ == old(rendered)@ + marked(
            texts(all@).subrange(from as int, to as int),
            mark,
        ),
{
    let ghost before = rendered@;
    let ghost views = texts(all@);
    let mut i: usize = from;
    assert(views.subrange(from as int, from as int) =~= Seq::empty());
    assert(rendered@ =~= before + marked(views.subrange(from as int, from as int), mark));
    while i < to
        invariant
            from <= i <= to <= all@.len(),
            views == texts(all@),
            rendered@ == before + marked(views.subrange(from as int, i as int), mark),
        decreases to - i,
    {
        let ghost shown = views.subrange(from as int, i + 1);
        assert(shown.drop_last() =~= views.subrange(from as int, i as int));
        assert(shown.last() == all@[i as int]@);
        rendered.push(mark);
        rendered.push_str(all[i].as_str());
        rendered.push('\n');
        i = i + 1;
        assert(rendered@ =~= before + marked(shown, mark));
    }
}

/// Appends the lines of a text, each behind a mark.
pub fn render_lines(rendered: &mut String, text: &str, prefix: char)
    ensures
        final(rendered)@ == old(rendered)@ + marked(lines(text@), prefix),
{
    let all = lines_of(text);
    push_marked(rendered, &all, 0, all.len(), prefix);
    assert(texts(all@).subrange(0, all@.len() as int) =~= texts(all@));
}

/// Appends the lines of a file, each behind a mark.
pub fn render_prefixed(rendered: &mut String, bytes: &[u8], prefix: char)
    ensures
        final(rendered)@ == old(rendered)@ + marked(lines(shown_text(bytes@)), prefix),
{
    let text = show_bytes(bytes);
    render_lines(rendered, text.as_str(), prefix);
}

/// How many lines two files have in common at the start, if they agree before line `n`.
pub open spec fn common_start(a: Seq<Seq<char>>, b: Seq<Seq<char>>, n: int) -> int
    decreases a.len() - n,
{
    if 0 <= n < a.len() && n < b.len() && a[n] == b[n] {
        common_start(a, b, n + 1)
    } else {
        n
    }
}

/// How many lines two files have in common at the end, without touching their first `start` lines,
/// if the last `n` agree.
pub open spec fn common_end(a: Seq<Seq<char>>, b: Seq<Seq<char>>, start: int, n: int) -> int
    decreases a.len() - start - n,
{
    if 0 <= n && start + n < a.len() && start + n < b.len() && a[a.len() - 1 - n] == b[b.len() - 1
        - n] {
        common_end(a, b, start, n + 1)
    } else {
        n
    }
}

/// The region in which two versions of a file differ: the lines in front of it, and where it ends
/// in each version.
#[verifier::ext_equal]
pub struct Region {
    pub start: int,
    pub before_end: int,
    pub after_end: int,
}

/// The region in which two versions of a file differ.
pub open spec fn changed_region(before: Seq<Seq<char>>, after: Seq<Seq<char>>) -> Region {
    let start = common_start(before, after, 0);
    let tail = common_end(before, after, start, 0);
    Region { start, before_end: before.len() - tail, after_end: after.len() - tail }
}

/// Where the shown context of a region starts.
pub open spec fn context_start(region: Region) -> int {
    if region.start < DIFF_CONTEXT_LINES {
        0
    } else {
        region.start - DIFF_CONTEXT_LINES
    }
}

/// Where the shown context of a region ends in the earlier version.
pub open spec fn context_end(region: Region, before: Seq<Seq<char>>) -> int {
    if region.before_end + DIFF_CONTEXT_LINES < before.len() {
        region.before_end + DIFF_CONTEXT_LINES
    } else {
        before.len() as int
    }
}

/// The line in front of a shown region, with where it starts and how many lines of each version it
/// shows.
pub open spec fn region_header(region: Region, before: Seq<Seq<char>>) -> Seq<char> {
    let from = context_start(region);
    let to = context_end(region, before);
    let position = decimal((from + 1) as nat);
    "@@ -"@ + position + ","@ + decimal((to - from) as nat) + " +"@ + position + ","@ + decimal(
        (to - region.before_end + region.after_end - from) as nat,
    ) + " @@\n"@
}

/// The changed region of an update between unchanged lines: what goes, then what comes.
pub open spec fn region_text(before: Seq<Seq<char>>, after: Seq<Seq<char>>) -> Seq<char> {
    let region = changed_region(before, after);
    region_header(region, before) + marked(
        before.subrange(context_start(region), region.start),
        ' ',
    ) + marked(before.subrange(region.start, region.before_end), '-') + marked(
        after.subrange(region.start, region.after_end),
        '+',
    ) + marked(before.subrange(region.before_end, context_end(region, before)), ' ')
}

proof fn lemma_common_start(a: Seq<Seq<char>>, b: Seq<Seq<char>>, n: int)
    requires
        0 <= n <= a.len(),
        n <= b.len(),
        forall|i: int| 0 <= i < n ==> a[i] == b[i],
    ensures
        n <= common_start(a, b, n) <= a.len(),
        common_start(a, b, n) <= b.len(),
        forall|i: int| 0 <= i < common_start(a, b, n) ==> a[i] == b[i],
        common_start(a, b, n) < a.len() && common_start(a, b, n) < b.len() ==> a[common_start(
            a,
            b,
            n,
        )] != b[common_start(a, b, n)],
    decreases a.len() - n,
{
    if n < a.len() && n < b.len() && a[n] == b[n] {
        lemma_common_start(a, b, n + 1);
    }
}

proof fn lemma_common_end(a: Seq<Seq<char>>, b: Seq<Seq<char>>, start: int, n: int)
    requires
        0 <= n,
        0 <= start,
        start + n <= a.len(),
        start + n <= b.len(),
        forall|i: int| 0 <= i < n ==> #[trigger] a[a.len() - 1 - i] == b[b.len() - 1 - i],
    ensures
        n <= common_end(a, b, start, n),
        start + common_end(a, b, start, n) <= a.len(),
        start + common_end(a, b, start, n) <= b.len(),
        forall|i: int|
            0 <= i < common_end(a, b, start, n) ==> #[trigger] a[a.len() - 1 - i] == b[b.len() - 1
                - i],
        start + common_end(a, b, start, n) < a.len() && start + common_end(a, b, start, n) < b.len()
            ==> a[a.len() - 1 - common_end(a, b, start, n)] != b[b.len() - 1 - common_end(
            a,
            b,
            start,
            n,
        )],
    decreases a.len() - start - n,
{
    if start + n < a.len() && start + n < b.len() && a[a.len() - 1 - n] == b[b.len() - 1 - n] {
        assert forall|i: int| 0 <= i < n + 1 implies #[trigger] a[a.len() - 1 - i] == b[b.len() - 1
            - i] by {
            if i < n {
                assert(a[a.len() - 1 - i] == b[b.len() - 1 - i]);
            }
        }
        lemma_common_end(a, b, start, n + 1);
    }
}

/// The two versions of a file agree in front of the changed region and behind it, and where both
/// have lines in it, the region's first lines differ and so do its last. So the shown lines and
/// the earlier version give the later one.
pub proof fn the_changed_region_is_exact(before: Seq<Seq<char>>, after: Seq<Seq<char>>)
    ensures
        ({
            let region = changed_region(before, after);
            &&& 0 <= region.start <= region.before_end <= before.len()
            &&& region.start <= region.after_end <= after.len()
            &&& after == before.take(region.start) + after.subrange(region.start, region.after_end)
                + before.skip(region.before_end)
            &&& region.start < region.before_end && region.start < region.after_end ==> {
                &&& before[region.start] != after[region.start]
                &&& before[region.before_end - 1] != after[region.after_end - 1]
            }
            &&& before == after ==> region.start == region.before_end && region.start
                == region.after_end
        }),
{
    let region = changed_region(before, after);
    let start = region.start;
    lemma_common_start(before, after, 0);
    lemma_common_end(before, after, start, 0);
    let tail = common_end(before, after, start, 0);
    let built = before.take(start) + after.subrange(start, region.after_end) + before.skip(
        region.before_end,
    );
    assert(built.len() == after.len());
    assert forall|i: int| 0 <= i < after.len() implies #[trigger] built[i] == after[i] by {
        if i >= region.after_end {
            let k = after.len() - 1 - i;
            assert(before[before.len() - 1 - k] == after[after.len() - 1 - k]);
        }
    }
    assert(built =~= after);
}

/// How many lines two files have in common at the start.
fn shared_start(a: &Vec<String>, b: &Vec<String>) -> (r: usize)
    ensures
        r == common_start(texts(a@), texts(b@), 0),
        r <= a@.len(),
        r <= b@.len(),
{
    let ghost left = texts(a@);
    let ghost right = texts(b@);
    let mut n: usize = 0;
    while n < a.len() && n < b.len()
        invariant
            left == texts(a@),
            right == texts(b@),
            n <= a@.len(),
            n <= b@.len(),
            common_start(left, right, 0) == common_start(left, right, n as int),
        decreases a@.len() - n,
    {
        assert(left[n as int] == a@[n as int]@ && right[n as int] == b@[n as int]@);
        assert(left.len() == a@.len() && right.len() == b@.len());
        if !same_text(a[n].as_str(), b[n].as_str()) {
            return n;
        }
        n = n + 1;
    }
    assert(left.len() == a@.len() && right.len() == b@.len());
    n
}

/// How many lines two files have in common at the end, without touching their first `start` lines.
fn shared_end(a: &Vec<String>, b: &Vec<String>, start: usize) -> (r: usize)
    requires
        start <= a@.len(),
        start <= b@.len(),
    ensures
        r == common_end(texts(a@), texts(b@), start as int, 0),
        start + r <= a@.len(),
        start + r <= b@.len(),
{
    let ghost left = texts(a@);
    let ghost right = texts(b@);
    let mut n: usize = 0;
    while n < a.len() - start && n < b.len() - start
        invariant
            left == texts(a@),
            right == texts(b@),
            start + n <= a@.len(),
            start + n <= b@.len(),
            common_end(left, right, start as int, 0) == common_end(
                left,
                right,
                start as int,
                n as int,
            ),
        decreases a@.len() - n,
    {
        let i: usize = a.len() - 1 - n;
        let j: usize = b.len() - 1 - n;
        assert(left[i as int] == a@[i as int]@ && right[j as int] == b@[j as int]@);
        assert(left.len() == a@.len() && right.len() == b@.len());
        if !same_text(a[i].as_str(), b[j].as_str()) {
            return n;
        }
        n = n + 1;
    }
    assert(left.len() == a@.len() && right.len() == b@.len());
    n
}

/// Appends the line in front of a shown region.
fn push_header(rendered: &mut String, from: usize, before_lines: usize, after_lines: usize)
    requires
        from < usize::MAX,
    ensures
        final(rendered)@ == old(rendered)@ + ("@@ -"@ + decimal((from + 1) as nat) + ","@ + decimal(
            before_lines as nat,
        ) + " +"@ + decimal((from + 1) as nat) + ","@ + decimal(after_lines as nat) + " @@\n"@),
{
    let position = count_text(from + 1);
    let ghost initial = rendered@;
    rendered.push_str("@@ -");
    rendered.push_str(position.as_str());
    rendered.push_str(",");
    rendered.push_str(count_text(before_lines).as_str());
    rendered.push_str(" +");
    rendered.push_str(position.as_str());
    rendered.push_str(",");
    rendered.push_str(count_text(after_lines).as_str());
    rendered.push_str(" @@\n");
    assert(rendered@ =~= initial + ("@@ -"@ + decimal((from + 1) as nat) + ","@ + decimal(
        before_lines as nat,
    ) + " +"@ + decimal((from + 1) as nat) + ","@ + decimal(after_lines as nat) + " @@\n"@));
}

/// Appends the changed region of an update with some context. Both versions in full would push a
/// change at the end of a large file out of what is shown.
pub fn render_changed_text(rendered: &mut String, before: &str, after: &str)
    ensures
        final(rendered)@ == old(rendered)@ + region_text(lines(before@), lines(after@)),
{
    let a = lines_of(before);
    let b = lines_of(after);
    let start: usize = shared_start(&a, &b);
    let tail: usize = shared_end(&a, &b, start);
    let before_end: usize = a.len() - tail;
    let after_end: usize = b.len() - tail;
    let from: usize = if start < DIFF_CONTEXT_LINES {
        0
    } else {
        start - DIFF_CONTEXT_LINES
    };
    let to: usize = if tail > DIFF_CONTEXT_LINES {
        before_end + DIFF_CONTEXT_LINES
    } else {
        a.len()
    };
    let ghost initial = rendered@;
    let ghost region = changed_region(texts(a@), texts(b@));
    assert(texts(a@).len() == a@.len() && texts(b@).len() == b@.len());
    assert(from == context_start(region) && to == context_end(region, texts(a@)));
    push_header(rendered, from, to - from, (to - before_end) + (after_end - from));
    push_marked(rendered, &a, from, start, ' ');
    push_marked(rendered, &a, start, before_end, '-');
    push_marked(rendered, &b, start, after_end, '+');
    push_marked(rendered, &a, before_end, to, ' ');
    proof {
        lemma_appended(
            initial,
            region_header(region, texts(a@)),
            marked(texts(a@).subrange(from as int, start as int), ' '),
            marked(texts(a@).subrange(start as int, before_end as int), '-'),
            marked(texts(b@).subrange(start as int, after_end as int), '+'),
            marked(texts(a@).subrange(before_end as int, to as int), ' '),
        );
    }
}

/// Appends the changed region of an update of a file.
pub fn render_changed_lines(rendered: &mut String, before: &[u8], after: &[u8])
    ensures
        final(rendered)@ == old(rendered)@ + region_text(
            lines(shown_text(before@)),
            lines(shown_text(after@)),
        ),
{
    let before_text = show_bytes(before);
    let after_text = show_bytes(after);
    render_changed_text(rendered, before_text.as_str(), after_text.as_str());
}

proof fn lemma_appended(
    initial: Seq<char>,
    a: Seq<char>,
    b: Seq<char>,
    c: Seq<char>,
    d: Seq<char>,
    e: Seq<char>,
)
    ensures
        initial + a + b + c + d + e == initial + (a + b + c + d + e),
{
    assert(initial + a + b + c + d + e =~= initial + (a + b + c + d + e));
}

proof fn lemma_four_appended(
    initial: Seq<char>,
    a: Seq<char>,
    b: Seq<char>,
    c: Seq<char>,
    d: Seq<char>,
)
    ensures
        initial + a + b + c + d == initial + (a + b + c + d),
{
    assert(initial + a + b + c + d =~= initial + (a + b + c + d));
}

// ---------------------------------------------------------------------------------------------
// The whole diff
// ---------------------------------------------------------------------------------------------

/// How one change is shown.
pub open spec fn change_text(change: ChangeView) -> Seq<char> {
    match change {
        Change::Create { path, after } => "--- /dev/null\n+++ "@ + path + "\n"@ + marked(
            lines(shown_text(after)),
            '+',
        ),
        Change::Update { path, before, after } => "--- "@ + path + "\n+++ "@ + path + "\n"@
            + region_text(lines(shown_text(before)), lines(shown_text(after))),
        Change::Delete { path, before } => "--- "@ + path + "\n+++ /dev/null\n"@ + marked(
            lines(shown_text(before)),
            '-',
        ),
        Change::Rename { from, to, before } => "rename from "@ + from + "\nrename to "@ + to
            + "\n"@,
    }
}

/// How changes are shown, one after another.
pub open spec fn changes_text(changes: Seq<ChangeView>) -> Seq<char>
    decreases changes.len(),
{
    if changes.len() == 0 {
        Seq::empty()
    } else {
        changes_text(changes.drop_last()) + change_text(changes.last())
    }
}

/// A diff that is no larger than the limit, with a note where it was cut.
pub open spec fn shown_diff(diff: Seq<char>) -> Seq<char> {
    if byte_len(diff) <= PATCH_DIFF_BYTE_LIMIT {
        diff
    } else {
        diff.take(fitting_chars(diff, PATCH_DIFF_BYTE_LIMIT as nat) as int)
            + "\n... diff display truncated ...\n"@
    }
}

/// The diff that stands for a patch.
pub open spec fn diff_text(changes: Seq<ChangeView>) -> Seq<char> {
    shown_diff(changes_text(changes))
}

/// Appends one change.
fn render_change(rendered: &mut String, change: &PreparedOperation)
    ensures
        final(rendered)@ == old(rendered)@ + change_text(change@),
{
    let ghost initial = rendered@;
    match change {
        Change::Create { path, after } => {
            rendered.push_str("--- /dev/null\n+++ ");
            rendered.push_str(path.as_str());
            rendered.push_str("\n");
            render_prefixed(rendered, after.as_slice(), '+');
        },
        Change::Update { path, before, after } => {
            rendered.push_str("--- ");
            rendered.push_str(path.as_str());
            rendered.push_str("\n+++ ");
            rendered.push_str(path.as_str());
            rendered.push_str("\n");
            render_changed_lines(rendered, before.as_slice(), after.as_slice());
        },
        Change::Delete { path, before } => {
            rendered.push_str("--- ");
            rendered.push_str(path.as_str());
            rendered.push_str("\n+++ /dev/null\n");
            render_prefixed(rendered, before.as_slice(), '-');
        },
        Change::Rename { from, to, before } => {
            rendered.push_str("rename from ");
            rendered.push_str(from.as_str());
            rendered.push_str("\nrename to ");
            rendered.push_str(to.as_str());
            rendered.push_str("\n");
        },
    }
    assert(rendered@ =~= initial + change_text(change@));
}

/// The diff that stands for a patch.
pub fn render_diff(operations: &[PreparedOperation]) -> (r: String)
    ensures
        r@ == diff_text(change_views(operations@)),
{
    let ghost changes = change_views(operations@);
    let mut rendered = String::new();
    let mut i: usize = 0;
    assert(changes.take(0) =~= Seq::empty());
    assert(rendered@ =~= changes_text(changes.take(0)));
    while i < operations.len()
        invariant
            changes == change_views(operations@),
            i <= operations@.len(),
            rendered@ == changes_text(changes.take(i as int)),
        decreases operations@.len() - i,
    {
        assert(changes.take(i + 1).drop_last() =~= changes.take(i as int));
        assert(changes.take(i + 1).last() == operations@[i as int]@);
        render_change(&mut rendered, &operations[i]);
        i = i + 1;
    }
    assert(changes.take(i as int) =~= changes);
    if byte_len_of(rendered.as_str()) <= PATCH_DIFF_BYTE_LIMIT {
        return rendered;
    }
    let kept = fitting_prefix(rendered.as_str(), PATCH_DIFF_BYTE_LIMIT);
    concat(kept.as_str(), "\n... diff display truncated ...\n")
}

/// A shown diff keeps to the limit, and what is shown of a cut one is its beginning.
pub proof fn shown_diffs_keep_the_limit(changes: Seq<ChangeView>)
    ensures
        ({
            let diff = changes_text(changes);
            let kept = fitting_chars(diff, PATCH_DIFF_BYTE_LIMIT as nat) as int;
            &&& byte_len(diff) <= PATCH_DIFF_BYTE_LIMIT ==> diff_text(changes) == diff
            &&& byte_len(diff) > PATCH_DIFF_BYTE_LIMIT ==> diff_text(changes) == diff.take(kept)
                + "\n... diff display truncated ...\n"@ && byte_len(diff.take(kept))
                <= PATCH_DIFF_BYTE_LIMIT
        }),
{
    fitting_chars_is_the_longest_prefix(changes_text(changes), PATCH_DIFF_BYTE_LIMIT as nat);
}

// ---------------------------------------------------------------------------------------------
// What the user can read off a diff
// ---------------------------------------------------------------------------------------------

/// Lines as they are shown: each behind its mark and in front of a line feed.
pub open spec fn written(shown: Seq<(char, Seq<char>)>) -> Seq<char>
    decreases shown.len(),
{
    if shown.len() == 0 {
        Seq::empty()
    } else {
        written(shown.drop_last()) + seq![shown.last().0] + shown.last().1 + seq!['\n']
    }
}

/// The shown lines that carry the given mark or none.
pub open spec fn read_off(shown: Seq<(char, Seq<char>)>, mark: char) -> Seq<Seq<char>>
    decreases shown.len(),
{
    if shown.len() == 0 {
        Seq::empty()
    } else if shown.last().0 == ' ' || shown.last().0 == mark {
        read_off(shown.drop_last(), mark).push(shown.last().1)
    } else {
        read_off(shown.drop_last(), mark)
    }
}

/// All lines behind one mark.
pub open spec fn all_marked(s: Seq<Seq<char>>, mark: char) -> Seq<(char, Seq<char>)> {
    Seq::new(s.len(), |i: int| (mark, s[i]))
}

/// Whether the shown lines tell the two versions of a file apart, from line `from` on and up to
/// `to` in the earlier and `to_after` in the later one: the lines that stay or go are the earlier
/// version there, those that stay or come are the later one, and elsewhere the two agree.
/// In front of the changed lines are `lead` unchanged ones and behind them `trail`: three, or as
/// many as there are. What goes is shown in front of what comes, and neither begins or ends with a
/// line that could have been shown as unchanged.
pub open spec fn tells_apart(
    before: Seq<Seq<char>>,
    after: Seq<Seq<char>>,
    shown: Seq<(char, Seq<char>)>,
    from: int,
    to: int,
    to_after: int,
    lead: int,
    trail: int,
) -> bool {
    &&& 0 <= from <= to <= before.len()
    &&& from <= to_after <= after.len()
    &&& read_off(shown, '-') == before.subrange(from, to)
    &&& read_off(shown, '+') == after.subrange(from, to_after)
    &&& before.take(from) == after.take(from)
    &&& before.skip(to) == after.skip(to_after)
    &&& 0 <= lead <= 3 && (lead < 3 ==> from == 0)
    &&& 0 <= trail <= 3 && (trail < 3 ==> to == before.len())
    &&& lead + trail <= shown.len()
    &&& forall|k: int|
        0 <= k < shown.len() ==> {
            let mark = (#[trigger] shown[k]).0;
            if k < lead || k >= shown.len() - trail {
                mark == ' '
            } else {
                mark == '-' || mark == '+'
            }
        }
    &&& forall|i: int, j: int|
        0 <= i < j < shown.len() && (#[trigger] shown[i]).0 == '+' ==> (#[trigger] shown[j]).0 != '-'
    &&& from + lead < to - trail && from + lead < to_after - trail ==> before[from + lead]
        != after[from + lead] && before[to - trail - 1] != after[to_after - trail - 1]
}

/// Whether a text is how the change from one version to another is shown: where it starts, how many
/// lines of each version follow, and those lines.
pub open spec fn is_hunk(before: Seq<Seq<char>>, after: Seq<Seq<char>>, text: Seq<char>) -> bool {
    exists|
        shown: Seq<(char, Seq<char>)>,
        from: int,
        to: int,
        to_after: int,
        lead: int,
        trail: int,
    | #[trigger]
        tells_apart(before, after, shown, from, to, to_after, lead, trail) && text == "@@ -"@
            + decimal((from + 1) as nat) + ","@ + decimal((to - from) as nat) + " +"@ + decimal(
            (from + 1) as nat,
        ) + ","@ + decimal((to_after - from) as nat) + " @@\n"@ + written(shown)
}

proof fn lemma_written_concat(a: Seq<(char, Seq<char>)>, b: Seq<(char, Seq<char>)>)
    ensures
        written(a + b) == written(a) + written(b),
        read_off(a + b, '-') == read_off(a, '-') + read_off(b, '-'),
        read_off(a + b, '+') == read_off(a, '+') + read_off(b, '+'),
    decreases b.len(),
{
    if b.len() == 0 {
        assert(a + b =~= a);
        assert(read_off(a, '-') + read_off(b, '-') =~= read_off(a, '-'));
        assert(read_off(a, '+') + read_off(b, '+') =~= read_off(a, '+'));
        assert(written(a) + written(b) =~= written(a));
    } else {
        lemma_written_concat(a, b.drop_last());
        assert((a + b).drop_last() =~= a + b.drop_last());
        assert((a + b).last() == b.last());
        assert(written(a + b) =~= written(a) + written(b));
        assert(read_off(a + b, '-') =~= read_off(a, '-') + read_off(b, '-'));
        assert(read_off(a + b, '+') =~= read_off(a, '+') + read_off(b, '+'));
    }
}

proof fn lemma_all_marked(s: Seq<Seq<char>>, mark: char)
    ensures
        written(all_marked(s, mark)) == marked(s, mark),
        read_off(all_marked(s, mark), '-') == (if mark == ' ' || mark == '-' { s } else { Seq::empty() }),
        read_off(all_marked(s, mark), '+') == (if mark == ' ' || mark == '+' { s } else { Seq::empty() }),
    decreases s.len(),
{
    if s.len() == 0 {
        assert(s =~= Seq::empty());
    } else {
        lemma_all_marked(s.drop_last(), mark);
        assert(all_marked(s, mark).drop_last() =~= all_marked(s.drop_last(), mark));
        assert(s =~= s.drop_last().push(s.last()));
        assert(written(all_marked(s, mark)) =~= marked(s, mark));
    }
}

/// The lines of a region as they are shown.
#[verifier::opaque]
pub open spec fn region_lines(
    kept: Seq<Seq<char>>,
    gone: Seq<Seq<char>>,
    come: Seq<Seq<char>>,
    rest: Seq<Seq<char>>,
) -> Seq<(char, Seq<char>)> {
    all_marked(kept, ' ') + all_marked(gone, '-') + all_marked(come, '+') + all_marked(rest, ' ')
}

proof fn lemma_region_lines(
    kept: Seq<Seq<char>>,
    gone: Seq<Seq<char>>,
    come: Seq<Seq<char>>,
    rest: Seq<Seq<char>>,
)
    ensures
        written(region_lines(kept, gone, come, rest)) == marked(kept, ' ') + marked(gone, '-')
            + marked(come, '+') + marked(rest, ' '),
        read_off(region_lines(kept, gone, come, rest), '-') == kept + gone + rest,
        read_off(region_lines(kept, gone, come, rest), '+') == kept + come + rest,
{
    reveal(region_lines);
    let a = all_marked(kept, ' ');
    let b = all_marked(gone, '-');
    let c = all_marked(come, '+');
    let d = all_marked(rest, ' ');
    lemma_written_concat(a, b);
    lemma_written_concat(a + b, c);
    lemma_written_concat(a + b + c, d);
    lemma_all_marked(kept, ' ');
    lemma_all_marked(gone, '-');
    lemma_all_marked(come, '+');
    lemma_all_marked(rest, ' ');
    assert(kept + gone + Seq::<Seq<char>>::empty() + rest =~= kept + gone + rest);
    assert(kept + Seq::<Seq<char>>::empty() + come + rest =~= kept + come + rest);
}

proof fn lemma_region_marks(
    kept: Seq<Seq<char>>,
    gone: Seq<Seq<char>>,
    come: Seq<Seq<char>>,
    rest: Seq<Seq<char>>,
)
    ensures
        ({
            let shown = region_lines(kept, gone, come, rest);
            &&& shown.len() == kept.len() + gone.len() + come.len() + rest.len()
            &&& forall|k: int|
                0 <= k < shown.len() ==> (#[trigger] shown[k]).0 == (if k < kept.len() {
                    ' '
                } else if k < kept.len() + gone.len() {
                    '-'
                } else if k < kept.len() + gone.len() + come.len() {
                    '+'
                } else {
                    ' '
                })
        }),
{
    reveal(region_lines);
}

proof fn lemma_region_versions(
    before: Seq<Seq<char>>,
    after: Seq<Seq<char>>,
    region: Region,
    from: int,
    to: int,
)
    requires
        0 <= from <= region.start <= region.before_end <= to <= before.len(),
        region.start <= region.after_end <= after.len(),
        after == before.take(region.start) + after.subrange(region.start, region.after_end)
            + before.skip(region.before_end),
    ensures
        ({
            let kept = before.subrange(from, region.start);
            let gone = before.subrange(region.start, region.before_end);
            let come = after.subrange(region.start, region.after_end);
            let rest = before.subrange(region.before_end, to);
            let to_after = to - region.before_end + region.after_end;
            &&& to_after <= after.len()
            &&& kept + gone + rest == before.subrange(from, to)
            &&& kept + come + rest == after.subrange(from, to_after)
            &&& before.take(from) == after.take(from)
            &&& before.skip(to) == after.skip(to_after)
        }),
{
    let kept = before.subrange(from, region.start);
    let gone = before.subrange(region.start, region.before_end);
    let come = after.subrange(region.start, region.after_end);
    let rest = before.subrange(region.before_end, to);
    let to_after = to - region.before_end + region.after_end;
    let built = before.take(region.start) + come + before.skip(region.before_end);
    assert(after.len() == built.len());
    assert(kept + gone + rest =~= before.subrange(from, to));
    assert(kept + come + rest =~= built.subrange(from, to_after));
    assert(before.take(from) =~= built.take(from));
    assert(before.skip(to) =~= built.skip(to_after));
}

/// A shown update can be read back: what stays or goes is the earlier version, what stays or comes
/// is the later one, the header counts both, and outside of what is shown nothing changes.
pub proof fn a_shown_region_reads_back(before: Seq<Seq<char>>, after: Seq<Seq<char>>)
    ensures
        is_hunk(before, after, region_text(before, after)),
{
    let region = changed_region(before, after);
    the_changed_region_is_exact(before, after);
    let from = context_start(region);
    let to = context_end(region, before);
    let to_after = to - region.before_end + region.after_end;
    let lead = region.start - from;
    let trail = to - region.before_end;
    let kept = before.subrange(from, region.start);
    let gone = before.subrange(region.start, region.before_end);
    let come = after.subrange(region.start, region.after_end);
    let rest = before.subrange(region.before_end, to);
    let shown = region_lines(kept, gone, come, rest);
    lemma_region_lines(kept, gone, come, rest);
    lemma_region_marks(kept, gone, come, rest);
    lemma_region_versions(before, after, region, from, to);
    assert(tells_apart(before, after, shown, from, to, to_after, lead, trail));
    lemma_four_appended(
        region_header(region, before),
        marked(kept, ' '),
        marked(gone, '-'),
        marked(come, '+'),
        marked(rest, ' '),
    );
    assert(region_text(before, after) == region_header(region, before) + written(shown));
}

/// Whether a text is how one change is shown.
pub open spec fn is_shown(change: ChangeView, text: Seq<char>) -> bool {
    match change {
        Change::Create { path, after } => exists|all: Seq<Seq<char>>, ends: Seq<Seq<char>>| #[trigger]
            consists_of(shown_text(after), all, ends) && text == "--- /dev/null\n+++ "@ + path + "\n"@
                + written(all_marked(all, '+')),
        Change::Delete { path, before } => exists|all: Seq<Seq<char>>, ends: Seq<Seq<char>>| #[trigger]
            consists_of(shown_text(before), all, ends) && text == "--- "@ + path
                + "\n+++ /dev/null\n"@ + written(all_marked(all, '-')),
        Change::Rename { from, to, before } => text == "rename from "@ + from + "\nrename to "@ + to
            + "\n"@,
        Change::Update { path, before, after } => exists|
            left: Seq<Seq<char>>,
            left_ends: Seq<Seq<char>>,
            right: Seq<Seq<char>>,
            right_ends: Seq<Seq<char>>,
            hunk: Seq<char>,
        |
            #[trigger] consists_of(shown_text(before), left, left_ends) && #[trigger] consists_of(
                shown_text(after),
                right,
                right_ends,
            ) && #[trigger] is_hunk(left, right, hunk) && text == "--- "@ + path + "\n+++ "@ + path
                + "\n"@ + hunk,
    }
}

proof fn lemma_change_is_shown(change: ChangeView)
    ensures
        is_shown(change, change_text(change)),
{
    match change {
        Change::Create { path, after } => {
            let text = shown_text(after);
            lines_are_the_whole_text(text);
            lemma_all_marked(lines(text), '+');
            let ends = choose|ends: Seq<Seq<char>>| #[trigger] consists_of(text, lines(text), ends);
            assert(consists_of(text, lines(text), ends));
        },
        Change::Delete { path, before } => {
            let text = shown_text(before);
            lines_are_the_whole_text(text);
            lemma_all_marked(lines(text), '-');
            let ends = choose|ends: Seq<Seq<char>>| #[trigger] consists_of(text, lines(text), ends);
            assert(consists_of(text, lines(text), ends));
        },
        Change::Rename { from, to, before } => {},
        Change::Update { path, before, after } => {
            let left = lines(shown_text(before));
            let right = lines(shown_text(after));
            lines_are_the_whole_text(shown_text(before));
            lines_are_the_whole_text(shown_text(after));
            a_shown_region_reads_back(left, right);
            let left_ends = choose|ends: Seq<Seq<char>>| #[trigger]
                consists_of(shown_text(before), left, ends);
            let right_ends = choose|ends: Seq<Seq<char>>| #[trigger]
                consists_of(shown_text(after), right, ends);
            assert(consists_of(shown_text(before), left, left_ends));
            assert(consists_of(shown_text(after), right, right_ends));
            assert(is_hunk(left, right, region_text(left, right)));
        },
    }
}

proof fn lemma_changes_are_shown(changes: Seq<ChangeView>) -> (parts: Seq<Seq<char>>)
    ensures
        parts.len() == changes.len(),
        forall|i: int| 0 <= i < parts.len() ==> is_shown(changes[i], #[trigger] parts[i]),
        changes_text(changes) == chained(parts),
    decreases changes.len(),
{
    if changes.len() == 0 {
        Seq::empty()
    } else {
        let fewer = lemma_changes_are_shown(changes.drop_last());
        let parts = fewer.push(change_text(changes.last()));
        lemma_change_is_shown(changes.last());
        assert(parts.drop_last() =~= fewer);
        assert forall|i: int| 0 <= i < parts.len() implies is_shown(
            changes[i],
            #[trigger] parts[i],
        ) by {
            if i < fewer.len() {
                assert(is_shown(changes.drop_last()[i], fewer[i]));
            }
        }
        parts
    }
}

/// The diff that stands for a patch shows each change of it, in order. Only where all of it is
/// larger than the limit is the end left out, as little of it as keeps to the limit, and then the
/// diff says so.
pub proof fn every_change_is_shown(changes: Seq<ChangeView>)
    ensures
        exists|parts: Seq<Seq<char>>|
            {
                &&& parts.len() == changes.len()
                &&& forall|i: int| 0 <= i < parts.len() ==> is_shown(changes[i], #[trigger] parts[i])
                &&& byte_len(#[trigger] chained(parts)) <= 262144 ==> diff_text(changes) == chained(
                    parts,
                )
                &&& byte_len(chained(parts)) > 262144 ==> exists|n: int|
                    0 <= n < chained(parts).len() && byte_len(#[trigger] chained(parts).take(n))
                        <= 262144 < byte_len(chained(parts).take(n + 1)) && diff_text(changes)
                        == chained(parts).take(n) + "\n... diff display truncated ...\n"@
            },
{
    let parts = lemma_changes_are_shown(changes);
    let diff = chained(parts);
    let n = fitting_chars(diff, PATCH_DIFF_BYTE_LIMIT as nat) as int;
    fitting_chars_is_the_longest_prefix(diff, PATCH_DIFF_BYTE_LIMIT as nat);
    if byte_len(diff) > 262144 {
        assert(diff.take(diff.len() as int) =~= diff);
        assert(0 <= n < diff.len() && byte_len(diff.take(n)) <= 262144 < byte_len(diff.take(n + 1)));
    }
}

} // verus!
