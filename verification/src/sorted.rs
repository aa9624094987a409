//! The order of texts, and lists that keep it.
use vstd::prelude::*;

use crate::scan::{pieces, pieces_partition_the_text, split};
use crate::text::{chars_of, copy, same_text, texts};

verus! {

/// The order in which strings are sorted: by the first character that differs, a prefix first.
pub open spec fn text_le(a: Seq<char>, b: Seq<char>) -> bool
    decreases a.len(),
{
    if a.len() == 0 {
        true
    } else if b.len() == 0 {
        false
    } else if a[0] != b[0] {
        (a[0] as u32) < (b[0] as u32)
    } else {
        text_le(a.skip(1), b.skip(1))
    }
}

pub proof fn lemma_text_le_total(a: Seq<char>, b: Seq<char>)
    ensures
        text_le(a, b) || text_le(b, a),
        text_le(a, b) && text_le(b, a) ==> a == b,
        a == b ==> text_le(a, b),
    decreases a.len(),
{
    if a.len() > 0 && b.len() > 0 {
        if a[0] == b[0] {
            lemma_text_le_total(a.skip(1), b.skip(1));
            if text_le(a, b) && text_le(b, a) {
                assert(a =~= seq![a[0]] + a.skip(1));
                assert(b =~= seq![b[0]] + b.skip(1));
            }
        } else {
            vstd::utf8::char_u32_cast(a[0], a[0] as u32);
            vstd::utf8::char_u32_cast(b[0], b[0] as u32);
        }
    } else {
        if text_le(a, b) && text_le(b, a) {
            assert(a =~= b);
        }
    }
}

pub proof fn lemma_text_le_transitive(a: Seq<char>, b: Seq<char>, c: Seq<char>)
    requires
        text_le(a, b),
        text_le(b, c),
    ensures
        text_le(a, c),
    decreases a.len(),
{
    if a.len() > 0 && b.len() > 0 && c.len() > 0 && a[0] == b[0] && b[0] == c[0] {
        lemma_text_le_transitive(a.skip(1), b.skip(1), c.skip(1));
    }
}

/// Whether the characters `x` sort no later than `y`.
fn chars_sort_before(x: &[char], y: &[char]) -> (r: bool)
    ensures
        r == text_le(x@, y@),
{
    let mut i: usize = 0;
    assert(x@.skip(0) =~= x@);
    assert(y@.skip(0) =~= y@);
    while i < x.len() && i < y.len()
        invariant
            i <= x@.len(),
            i <= y@.len(),
            text_le(x@, y@) == text_le(x@.skip(i as int), y@.skip(i as int)),
        decreases x@.len() - i,
    {
        if x[i] != y[i] {
            return (x[i] as u32) < (y[i] as u32);
        }
        assert(x@.skip(i as int).skip(1) =~= x@.skip(i + 1));
        assert(y@.skip(i as int).skip(1) =~= y@.skip(i + 1));
        i = i + 1;
    }
    i >= x.len()
}

/// Whether `a` sorts no later than `b`.
pub fn sorts_before(a: &str, b: &str) -> (r: bool)
    ensures
        r == text_le(a@, b@),
{
    chars_sort_before(chars_of(a).as_slice(), chars_of(b).as_slice())
}

/// The order of paths by their parts: by the first part that differs, a prefix first.
pub open spec fn parts_le(a: Seq<Seq<char>>, b: Seq<Seq<char>>) -> bool
    decreases a.len(),
{
    if a.len() == 0 {
        true
    } else if b.len() == 0 {
        false
    } else if a[0] != b[0] {
        text_le(a[0], b[0])
    } else {
        parts_le(a.skip(1), b.skip(1))
    }
}

/// The order in which paths are sorted: part by part. A separator counts as less than any other
/// character, so this is not the order of the texts.
pub open spec fn path_le(a: Seq<char>, b: Seq<char>) -> bool {
    parts_le(pieces(a, '/'), pieces(b, '/'))
}

proof fn lemma_parts_le_total(a: Seq<Seq<char>>, b: Seq<Seq<char>>)
    ensures
        parts_le(a, b) || parts_le(b, a),
        parts_le(a, b) && parts_le(b, a) ==> a == b,
        a == b ==> parts_le(a, b),
    decreases a.len(),
{
    if a.len() > 0 && b.len() > 0 {
        lemma_text_le_total(a[0], b[0]);
        if a[0] == b[0] {
            lemma_parts_le_total(a.skip(1), b.skip(1));
            if parts_le(a, b) && parts_le(b, a) {
                assert(a =~= seq![a[0]] + a.skip(1));
                assert(b =~= seq![b[0]] + b.skip(1));
            }
        }
    } else {
        if parts_le(a, b) && parts_le(b, a) {
            assert(a =~= b);
        }
    }
}

proof fn lemma_parts_le_transitive(a: Seq<Seq<char>>, b: Seq<Seq<char>>, c: Seq<Seq<char>>)
    requires
        parts_le(a, b),
        parts_le(b, c),
    ensures
        parts_le(a, c),
    decreases a.len(),
{
    if a.len() > 0 && b.len() > 0 && c.len() > 0 {
        if a[0] == b[0] && b[0] == c[0] {
            lemma_parts_le_transitive(a.skip(1), b.skip(1), c.skip(1));
        } else if a[0] != b[0] && b[0] != c[0] {
            lemma_text_le_transitive(a[0], b[0], c[0]);
            lemma_text_le_total(a[0], b[0]);
        }
    }
}

pub proof fn lemma_path_le_total(a: Seq<char>, b: Seq<char>)
    ensures
        path_le(a, b) || path_le(b, a),
        path_le(a, b) && path_le(b, a) ==> a == b,
        path_le(a, a),
{
    lemma_parts_le_total(pieces(a, '/'), pieces(b, '/'));
    lemma_parts_le_total(pieces(a, '/'), pieces(a, '/'));
    pieces_partition_the_text(a, '/');
    pieces_partition_the_text(b, '/');
}

pub proof fn lemma_path_le_transitive(a: Seq<char>, b: Seq<char>, c: Seq<char>)
    requires
        path_le(a, b),
        path_le(b, c),
    ensures
        path_le(a, c),
{
    lemma_parts_le_transitive(pieces(a, '/'), pieces(b, '/'), pieces(c, '/'));
}

/// Whether the path `a` sorts no later than the path `b`.
pub fn path_sorts_before(a: &str, b: &str) -> (r: bool)
    ensures
        r == path_le(a@, b@),
{
    let x = split(a, '/');
    let y = split(b, '/');
    let ghost left = pieces(a@, '/');
    let ghost right = pieces(b@, '/');
    let mut i: usize = 0;
    assert(left.skip(0) =~= left);
    assert(right.skip(0) =~= right);
    while i < x.len() && i < y.len()
        invariant
            left == pieces(a@, '/'),
            right == pieces(b@, '/'),
            x@.len() == left.len(),
            y@.len() == right.len(),
            forall|k: int| 0 <= k < x@.len() ==> (#[trigger] x@[k])@ == left[k],
            forall|k: int| 0 <= k < y@.len() ==> (#[trigger] y@[k])@ == right[k],
            i <= x@.len(),
            i <= y@.len(),
            parts_le(left, right) == parts_le(left.skip(i as int), right.skip(i as int)),
        decreases x@.len() - i,
    {
        assert(x@[i as int]@ == left[i as int] && y@[i as int]@ == right[i as int]);
        proof {
            lemma_text_le_total(left[i as int], right[i as int]);
        }
        let before = chars_sort_before(x[i].as_slice(), y[i].as_slice());
        if !before {
            return false;
        }
        if !chars_sort_before(y[i].as_slice(), x[i].as_slice()) {
            return true;
        }
        assert(left.skip(i as int).skip(1) =~= left.skip(i + 1));
        assert(right.skip(i as int).skip(1) =~= right.skip(i + 1));
        i = i + 1;
    }
    i >= x.len()
}

/// Every text sorts no later than the ones behind it.
pub open spec fn is_sorted(s: Seq<Seq<char>>) -> bool {
    forall|i: int, j: int| 0 <= i <= j < s.len() ==> text_le(s[i], s[j])
}

/// Sorted, and no text occurs twice.
pub open spec fn is_sorted_set(s: Seq<Seq<char>>) -> bool {
    is_sorted(s) && s.no_duplicates()
}

/// The same texts in sorted order.
pub open spec fn sorted_texts(s: Seq<Seq<char>>) -> Seq<Seq<char>> {
    s.sort_by(|a: Seq<char>, b: Seq<char>| text_le(a, b))
}

proof fn lemma_text_order()
    ensures
        vstd::relations::total_ordering(|a: Seq<char>, b: Seq<char>| text_le(a, b)),
{
    let leq = |a: Seq<char>, b: Seq<char>| text_le(a, b);
    assert forall|a: Seq<char>| #[trigger] leq(a, a) by {
        lemma_text_le_total(a, a);
    }
    assert forall|a: Seq<char>, b: Seq<char>| #[trigger] leq(a, b) && #[trigger] leq(b, a) implies a
        == b by {
        lemma_text_le_total(a, b);
    }
    assert forall|a: Seq<char>, b: Seq<char>, c: Seq<char>| #[trigger]
        leq(a, b) && #[trigger] leq(b, c) implies leq(a, c) by {
        lemma_text_le_transitive(a, b, c);
    }
    assert forall|a: Seq<char>, b: Seq<char>| #[trigger] leq(a, b) || #[trigger] leq(b, a) by {
        lemma_text_le_total(a, b);
    }
}

/// Sorted order rearranges the texts and sorts them.
pub proof fn sorted_order_keeps_the_texts(s: Seq<Seq<char>>)
    ensures
        is_sorted(sorted_texts(s)),
        sorted_texts(s).to_multiset() == s.to_multiset(),
        sorted_texts(s).len() == s.len(),
{
    let leq = |a: Seq<char>, b: Seq<char>| text_le(a, b);
    lemma_text_order();
    s.lemma_sort_by_ensures(leq);
    let r = sorted_texts(s);
    vstd::seq_lib::to_multiset_len(r);
    vstd::seq_lib::to_multiset_len(s);
    assert forall|i: int, j: int| 0 <= i <= j < r.len() implies text_le(r[i], r[j]) by {
        if i < j {
            assert(leq(r[i], r[j]));
        } else {
            lemma_text_le_total(r[i], r[i]);
        }
    }
}

/// A sorted rearrangement of texts is the sorted order of them.
pub proof fn sorted_order_is_unique(s: Seq<Seq<char>>, t: Seq<Seq<char>>)
    requires
        is_sorted(t),
        t.to_multiset() == s.to_multiset(),
    ensures
        t == sorted_texts(s),
{
    let leq = |a: Seq<char>, b: Seq<char>| text_le(a, b);
    lemma_text_order();
    s.lemma_sort_by_ensures(leq);
    assert(vstd::relations::sorted_by(t, leq)) by {
        assert forall|i: int, j: int| 0 <= i < j < t.len() implies #[trigger] leq(t[i], t[j]) by {}
    }
    vstd::seq_lib::lemma_sorted_unique(t, s.sort_by(leq), leq);
}

/// The texts of a set in sorted order.
pub open spec fn sorted_members(s: Set<Seq<char>>) -> Seq<Seq<char>> {
    choose|t: Seq<Seq<char>>| is_sorted_set(t) && t.to_set() == s
}

/// A set has one sorted order.
pub proof fn sorted_sets_are_unique(t: Seq<Seq<char>>)
    requires
        is_sorted_set(t),
    ensures
        t == sorted_members(t.to_set()),
{
    broadcast use vstd::seq_lib::group_to_multiset_ensures;

    let u = sorted_members(t.to_set());
    assert(is_sorted_set(u) && u.to_set() == t.to_set());
    t.lemma_multiset_has_no_duplicates();
    u.lemma_multiset_has_no_duplicates();
    assert forall|x: Seq<char>| t.to_multiset().count(x) == u.to_multiset().count(x) by {
        assert(t.to_set().contains(x) <==> t.contains(x));
        assert(u.to_set().contains(x) <==> u.contains(x));
        assert(t.to_multiset().contains(x) <==> t.contains(x));
        assert(u.to_multiset().contains(x) <==> u.contains(x));
    }
    assert(t.to_multiset() =~= u.to_multiset());
    sorted_order_is_unique(t, u);
    sorted_order_is_unique(t, t);
}

/// Puts a list of strings into sorted order.
pub fn sort(list: Vec<String>) -> (r: Vec<String>)
    ensures
        texts(r@) == sorted_texts(texts(list@)),
{
    let mut r: Vec<String> = Vec::new();
    let mut i: usize = 0;
    proof {
        assert(texts(r@) =~= Seq::empty());
        assert(texts(list@).take(0) =~= Seq::empty());
    }
    while i < list.len()
        invariant
            i <= list@.len(),
            is_sorted(texts(r@)),
            texts(r@).to_multiset() == texts(list@).take(i as int).to_multiset(),
        decreases list@.len() - i,
    {
        insert_sorted(&mut r, copy(list[i].as_str()));
        i = i + 1;
        proof {
            assert(texts(list@).take(i as int) =~= texts(list@).take(i - 1).push(texts(list@)[i - 1]));
            vstd::seq_lib::to_multiset_build(texts(list@).take(i - 1), texts(list@)[i - 1]);
        }
    }
    proof {
        assert(texts(list@).take(i as int) =~= texts(list@));
        sorted_order_is_unique(texts(list@), texts(r@));
    }
    r
}

/// The first position whose text does not sort strictly before `text`.
fn sorted_position(list: &Vec<String>, text: &str) -> (r: usize)
    requires
        is_sorted(texts(list@)),
    ensures
        r <= list@.len(),
        forall|k: int| 0 <= k < r ==> text_le(#[trigger] texts(list@)[k], text@) && texts(list@)[k] != text@,
        forall|k: int| r <= k < list@.len() ==> text_le(text@, #[trigger] texts(list@)[k]),
{
    let mut low: usize = 0;
    let mut high: usize = list.len();
    let ghost s = texts(list@);
    while low < high
        invariant
            low <= high <= list@.len(),
            s == texts(list@),
            is_sorted(s),
            forall|k: int| 0 <= k < low ==> text_le(#[trigger] s[k], text@) && s[k] != text@,
            forall|k: int| high <= k < list@.len() ==> text_le(text@, #[trigger] s[k]),
        decreases high - low,
    {
        let mid: usize = low + (high - low) / 2;
        if sorts_before(text, list[mid].as_str()) {
            proof {
                assert forall|k: int| mid <= k < list@.len() implies text_le(text@, #[trigger] s[k]) by {
                    assert(text_le(s[mid as int], s[k]));
                    lemma_text_le_transitive(text@, s[mid as int], s[k]);
                }
            }
            high = mid;
        } else {
            proof {
                assert forall|k: int| 0 <= k < mid + 1 implies text_le(#[trigger] s[k], text@) && s[k]
                    != text@ by {
                    assert(text_le(s[k], s[mid as int]));
                    lemma_text_le_total(s[mid as int], text@);
                    lemma_text_le_transitive(s[k], s[mid as int], text@);
                    if s[k] == text@ {
                        assert(text_le(text@, s[mid as int]));
                    }
                }
            }
            low = mid + 1;
        }
    }
    low
}

proof fn lemma_insert_sorted(s: Seq<Seq<char>>, p: int, x: Seq<char>)
    requires
        is_sorted(s),
        0 <= p <= s.len(),
        forall|k: int| 0 <= k < p ==> text_le(#[trigger] s[k], x),
        forall|k: int| p <= k < s.len() ==> text_le(x, #[trigger] s[k]),
    ensures
        is_sorted(s.insert(p, x)),
        s.insert(p, x).to_multiset() == s.to_multiset().insert(x),
        s.insert(p, x).to_set() == s.to_set().insert(x),
{
    let t = s.insert(p, x);
    s.insert_ensures(p, x);
    assert forall|i: int, j: int| 0 <= i <= j < t.len() implies text_le(t[i], t[j]) by {
        lemma_text_le_total(x, x);
        if i < p {
            if j > p {
                assert(text_le(s[i], s[j - 1]));
            }
        }
    }
    vstd::seq_lib::to_multiset_insert(s, p, x);
    assert(t.to_set() =~= s.to_set().insert(x)) by {
        assert forall|y: Seq<char>| t.to_set().contains(y) <==> s.to_set().insert(x).contains(y) by {
            if t.contains(y) {
                let i = choose|i: int| 0 <= i < t.len() && t[i] == y;
                if i < p {
                    assert(s[i] == y);
                } else if i > p {
                    assert(s[i - 1] == y);
                }
            }
            if s.contains(y) {
                let i = choose|i: int| 0 <= i < s.len() && s[i] == y;
                if i < p {
                    assert(t[i] == y);
                } else {
                    assert(t[i + 1] == y);
                }
            }
            if y == x {
                assert(t[p] == x);
            }
        }
    }
}

proof fn lemma_texts_insert(s: Seq<String>, p: int, x: String)
    requires
        0 <= p <= s.len(),
    ensures
        texts(s.insert(p, x)) == texts(s).insert(p, x@),
{
    assert(texts(s.insert(p, x)) =~= texts(s).insert(p, x@));
}

/// A text can be put into a sorted list that does not hold it.
pub proof fn lemma_sorted_insert(s: Seq<Seq<char>>, x: Seq<char>) -> (t: Seq<Seq<char>>)
    requires
        is_sorted_set(s),
        !s.contains(x),
    ensures
        is_sorted_set(t),
        t.to_set() == s.to_set().insert(x),
{
    let p = lemma_place(s, x, 0);
    lemma_insert_sorted(s, p, x);
    s.insert_ensures(p, x);
    let t = s.insert(p, x);
    assert forall|i: int, j: int| 0 <= i < t.len() && 0 <= j < t.len() && i != j implies t[i] != t[j] by {
        let a = if i < p { i } else { i - 1 };
        let b = if j < p { j } else { j - 1 };
        if i != p && j != p {
            assert(s[a] != s[b]);
        } else if i == p {
            assert(s.contains(s[b]));
        } else {
            assert(s.contains(s[a]));
        }
    }
    t
}

proof fn lemma_place(s: Seq<Seq<char>>, x: Seq<char>, i: int) -> (p: int)
    requires
        is_sorted(s),
        0 <= i <= s.len(),
        forall|k: int| 0 <= k < i ==> text_le(#[trigger] s[k], x),
    ensures
        0 <= p <= s.len(),
        forall|k: int| 0 <= k < p ==> text_le(#[trigger] s[k], x),
        forall|k: int| p <= k < s.len() ==> text_le(x, #[trigger] s[k]),
    decreases s.len() - i,
{
    if i == s.len() {
        i
    } else if text_le(s[i], x) {
        lemma_place(s, x, i + 1)
    } else {
        lemma_text_le_total(s[i], x);
        assert forall|k: int| i <= k < s.len() implies text_le(x, #[trigger] s[k]) by {
            assert(text_le(s[i], s[k]));
            lemma_text_le_transitive(x, s[i], s[k]);
        }
        i
    }
}

/// A text sorts no later than another exactly if it is the beginning of the other, or where the two first
/// differ its character is the lesser one.
pub proof fn texts_sort_by_their_first_difference(a: Seq<char>, b: Seq<char>)
    ensures
        text_le(a, b) <==> a.is_prefix_of(b) || exists|k: int|
            0 <= k < a.len() && k < b.len() && #[trigger] a.take(k) == b.take(k) && (a[k] as u32) < (
            b[k] as u32),
    decreases a.len(),
{
    if a.len() == 0 {
        assert(a =~= b.subrange(0, 0));
    } else if b.len() == 0 {
    } else if a[0] != b[0] {
        vstd::utf8::char_u32_cast(a[0], a[0] as u32);
        vstd::utf8::char_u32_cast(b[0], b[0] as u32);
        assert(a.take(0) =~= b.take(0));
        if a.is_prefix_of(b) {
            assert(a[0] == b.subrange(0, a.len() as int)[0]);
        }
        assert forall|k: int| 0 < k < a.len() && k < b.len() implies #[trigger] a.take(k) != b.take(k) by {
            if a.take(k) == b.take(k) {
                assert(a.take(k)[0] == b.take(k)[0]);
            }
        }
    } else {
        let x = a.skip(1);
        let y = b.skip(1);
        texts_sort_by_their_first_difference(x, y);
        if x.is_prefix_of(y) {
            assert(a =~= b.subrange(0, a.len() as int)) by {
                assert forall|i: int| 0 <= i < a.len() implies a[i] == b[i] by {
                    if i > 0 {
                        assert(x[i - 1] == y.subrange(0, x.len() as int)[i - 1]);
                    }
                }
            }
        }
        if a.is_prefix_of(b) {
            assert(x =~= y.subrange(0, x.len() as int)) by {
                assert forall|i: int| 0 <= i < x.len() implies x[i] == y[i] by {
                    assert(a[i + 1] == b.subrange(0, a.len() as int)[i + 1]);
                }
            }
        }
        assert forall|k: int| 0 <= k < x.len() && k < y.len() implies (#[trigger] x.take(k) == y.take(k)
            <==> a.take(k + 1) == b.take(k + 1)) by {
            if x.take(k) == y.take(k) {
                assert(a.take(k + 1) =~= seq![a[0]] + x.take(k));
                assert(b.take(k + 1) =~= seq![b[0]] + y.take(k));
            }
            if a.take(k + 1) == b.take(k + 1) {
                assert(x.take(k) =~= a.take(k + 1).skip(1));
                assert(y.take(k) =~= b.take(k + 1).skip(1));
            }
        }
        if text_le(x, y) && !x.is_prefix_of(y) {
            let k = choose|k: int|
                0 <= k < x.len() && k < y.len() && #[trigger] x.take(k) == y.take(k) && (x[k] as u32) < (
                y[k] as u32);
            assert(a.take(k + 1) == b.take(k + 1));
        }
        if exists|k: int|
            0 <= k < a.len() && k < b.len() && #[trigger] a.take(k) == b.take(k) && (a[k] as u32) < (
            b[k] as u32) {
            let k = choose|k: int|
                0 <= k < a.len() && k < b.len() && #[trigger] a.take(k) == b.take(k) && (a[k] as u32) < (
                b[k] as u32);
            assert(k > 0);
            assert(x.take(k - 1) == y.take(k - 1));
        }
    }
}

/// Puts a text into a sorted list, behind none of the texts that sort after it.
pub fn insert_sorted(list: &mut Vec<String>, text: String)
    requires
        is_sorted(texts(old(list)@)),
    ensures
        is_sorted(texts(final(list)@)),
        texts(final(list)@).to_multiset() == texts(old(list)@).to_multiset().insert(text@),
{
    let p: usize = sorted_position(list, text.as_str());
    proof {
        lemma_insert_sorted(texts(list@), p as int, text@);
        lemma_texts_insert(list@, p as int, text);
    }
    list.insert(p, text);
}

/// Puts a text into a sorted list unless it is there already; says whether it was new.
pub fn insert_unique(list: &mut Vec<String>, text: &str) -> (r: bool)
    requires
        is_sorted_set(texts(old(list)@)),
    ensures
        is_sorted_set(texts(final(list)@)),
        r == !texts(old(list)@).contains(text@),
        !r ==> final(list)@ == old(list)@,
        texts(final(list)@).to_set() == texts(old(list)@).to_set().insert(text@),
{
    let p: usize = sorted_position(list, text);
    let ghost s = texts(list@);
    if p < list.len() && same_text(list[p].as_str(), text) {
        proof {
            assert(s[p as int] == text@);
            assert(s.to_set().insert(text@) =~= s.to_set());
        }
        return false;
    }
    proof {
        assert forall|k: int| 0 <= k < s.len() implies s[k] != text@ by {
            if k >= p && s[k] == text@ {
                assert(text_le(text@, s[p as int]));
                assert(text_le(s[p as int], s[k]));
                lemma_text_le_total(s[p as int], text@);
            }
        }
        lemma_insert_sorted(s, p as int, text@);
        s.insert_ensures(p as int, text@);
        let t = s.insert(p as int, text@);
        assert forall|i: int, j: int| 0 <= i < t.len() && 0 <= j < t.len() && i != j implies t[i]
            != t[j] by {
            let a = if i < p { i } else { i - 1 };
            let b = if j < p { j } else { j - 1 };
            if i != p && j != p {
                assert(s[a] != s[b]);
            } else if i == p {
                assert(s[b] != text@);
            } else {
                assert(s[a] != text@);
            }
        }
    }
    let item = copy(text);
    proof {
        lemma_texts_insert(list@, p as int, item);
    }
    list.insert(p, item);
    true
}

} // verus!
