//! Splitting, trimming, searching and replacing in text.
use vstd::prelude::*;
use vstd::slice::slice_subrange;

use crate::text::{chars_of, string_of, texts};

verus! {

// ---------------------------------------------------------------------------------------------
// Prefixes and occurrences
// ---------------------------------------------------------------------------------------------

/// Whether `part` stands in `whole` at position `at`.
pub open spec fn stands_at(whole: Seq<char>, part: Seq<char>, at: int) -> bool {
    0 <= at && at + part.len() <= whole.len() && whole.subrange(at, at + part.len()) == part
}

/// Whether `part` stands anywhere in `whole`.
pub open spec fn holds_text(whole: Seq<char>, part: Seq<char>) -> bool {
    exists|at: int| stands_at(whole, part, at)
}

/// Whether `part` stands in `whole` at position `at`.
pub fn is_at(whole: &[char], part: &[char], at: usize) -> (r: bool)
    ensures
        r == stands_at(whole@, part@, at as int),
{
    if at > whole.len() || whole.len() - at < part.len() {
        return false;
    }
    let mut i: usize = 0;
    while i < part.len()
        invariant
            i <= part@.len(),
            at + part@.len() <= whole@.len() <= usize::MAX,
            forall|k: int| 0 <= k < i ==> whole@[at + k] == part@[k],
        decreases part@.len() - i,
    {
        if whole[at + i] != part[i] {
            assert(whole@.subrange(at as int, at + part@.len())[i as int] != part@[i as int]);
            return false;
        }
        i = i + 1;
    }
    assert(whole@.subrange(at as int, at + part@.len()) =~= part@);
    true
}

/// Whether the text begins with `prefix`.
pub fn begins_with(text: &str, prefix: &str) -> (r: bool)
    ensures
        r == stands_at(text@, prefix@, 0),
{
    let whole = chars_of(text);
    let part = chars_of(prefix);
    is_at(whole.as_slice(), part.as_slice(), 0)
}

/// Whether the text ends with `suffix`.
pub fn ends_with(text: &str, suffix: &str) -> (r: bool)
    ensures
        r == stands_at(text@, suffix@, text@.len() - suffix@.len()),
{
    let whole = chars_of(text);
    let part = chars_of(suffix);
    if part.len() > whole.len() {
        return false;
    }
    is_at(whole.as_slice(), part.as_slice(), whole.len() - part.len())
}

/// Whether `part` stands anywhere in `text`.
pub fn has_text(text: &str, wanted: &str) -> (r: bool)
    ensures
        r == holds_text(text@, wanted@),
{
    let whole = chars_of(text);
    let part = chars_of(wanted);
    let mut at: usize = 0;
    while at < whole.len()
        invariant
            whole@ == text@,
            part@ == wanted@,
            at <= whole@.len(),
            forall|k: int| 0 <= k < at ==> !stands_at(whole@, part@, k),
        decreases whole@.len() - at,
    {
        if is_at(whole.as_slice(), part.as_slice(), at) {
            return true;
        }
        at = at + 1;
    }
    let last = is_at(whole.as_slice(), part.as_slice(), at);
    proof {
        if !last && holds_text(whole@, part@) {
            let k = choose|k: int| stands_at(whole@, part@, k);
            assert(k <= whole@.len());
        }
    }
    last
}

/// Whether the text holds the character.
pub fn has_char(text: &str, c: char) -> (r: bool)
    ensures
        r == text@.contains(c),
{
    let chars = chars_of(text);
    let mut i: usize = 0;
    while i < chars.len()
        invariant
            chars@ == text@,
            i <= chars@.len(),
            forall|k: int| 0 <= k < i ==> chars@[k] != c,
        decreases chars@.len() - i,
    {
        if chars[i] == c {
            assert(text@[i as int] == c);
            return true;
        }
        i = i + 1;
    }
    false
}

/// How often `part` stands in `whole`, counting from the left without overlap.
pub open spec fn occurrences(whole: Seq<char>, part: Seq<char>) -> nat
    decreases whole.len(),
{
    if part.len() == 0 || whole.len() < part.len() {
        0
    } else if stands_at(whole, part, 0) {
        1 + occurrences(whole.skip(part.len() as int), part)
    } else {
        occurrences(whole.skip(1), part)
    }
}

/// `whole` with every occurrence of `part`, from the left without overlap, turned into `new`.
pub open spec fn replaced(whole: Seq<char>, part: Seq<char>, new: Seq<char>) -> Seq<char>
    decreases whole.len(),
{
    if part.len() == 0 || whole.len() < part.len() {
        whole
    } else if stands_at(whole, part, 0) {
        new + replaced(whole.skip(part.len() as int), part, new)
    } else {
        seq![whole[0]] + replaced(whole.skip(1), part, new)
    }
}

proof fn lemma_stands_at_skip(whole: Seq<char>, part: Seq<char>, at: int)
    requires
        0 <= at <= whole.len(),
    ensures
        stands_at(whole, part, at) == stands_at(whole.skip(at), part, 0),
{
    if at + part.len() <= whole.len() {
        assert(whole.skip(at).subrange(0, part.len() as int) =~= whole.subrange(at, at + part.len()));
    }
}

/// Counts the occurrences of `part` and turns each of them into `new`.
pub fn count_and_replace(whole: &[char], part: &[char], new: &[char]) -> (r: (usize, Vec<char>))
    requires
        part@.len() > 0,
    ensures
        r.0 == occurrences(whole@, part@),
        r.1@ == replaced(whole@, part@, new@),
{
    let mut count: usize = 0;
    let mut out: Vec<char> = Vec::new();
    let mut i: usize = 0;
    assert(whole@.skip(0) =~= whole@);
    while i < whole.len() && whole.len() - i >= part.len()
        invariant
            part@.len() > 0,
            i <= whole@.len(),
            count <= i,
            occurrences(whole@, part@) == count + occurrences(whole@.skip(i as int), part@),
            replaced(whole@, part@, new@) == out@ + replaced(whole@.skip(i as int), part@, new@),
        decreases whole@.len() - i,
    {
        proof {
            lemma_stands_at_skip(whole@, part@, i as int);
        }
        let ghost before = out@;
        if is_at(whole, part, i) {
            let mut k: usize = 0;
            while k < new.len()
                invariant
                    k <= new@.len(),
                    out@ == before + new@.take(k as int),
                decreases new@.len() - k,
            {
                out.push(new[k]);
                k = k + 1;
                assert(before + new@.take(k as int) =~= (before + new@.take(k - 1)).push(new@[k - 1]));
            }
            assert(new@.take(k as int) =~= new@);
            assert(whole@.skip(i as int).skip(part@.len() as int) =~= whole@.skip(i + part@.len()));
            count = count + 1;
            i = i + part.len();
            assert(before + (new@ + replaced(whole@.skip(i as int), part@, new@)) =~= out@ + replaced(
                whole@.skip(i as int),
                part@,
                new@,
            ));
        } else {
            out.push(whole[i]);
            assert(whole@.skip(i as int).skip(1) =~= whole@.skip(i + 1));
            i = i + 1;
            assert(before + (seq![whole@[i - 1]] + replaced(whole@.skip(i as int), part@, new@)) =~= out@
                + replaced(whole@.skip(i as int), part@, new@));
        }
    }
    let ghost before = out@;
    let ghost start = i as int;
    while i < whole.len()
        invariant
            start <= i <= whole@.len(),
            0 <= start,
            out@ == before + whole@.subrange(start, i as int),
        decreases whole@.len() - i,
    {
        out.push(whole[i]);
        i = i + 1;
        assert(before + whole@.subrange(start, i as int) =~= (before + whole@.subrange(start, i - 1)).push(
            whole@[i - 1],
        ));
    }
    assert(whole@.subrange(start, i as int) =~= whole@.skip(start));
    (count, out)
}

/// The pieces with `between` between each two of them.
pub open spec fn woven(cut: Seq<Seq<char>>, between: Seq<char>) -> Seq<char>
    decreases cut.len(),
{
    if cut.len() == 0 {
        Seq::empty()
    } else if cut.len() == 1 {
        cut[0]
    } else {
        cut[0] + between + woven(cut.skip(1), between)
    }
}

/// Whether `cut` is what is left of `whole` when a search from the left takes `part` out wherever it
/// finds it: in front of each place there is no earlier one, and behind the last there is none.
pub open spec fn is_cut(whole: Seq<char>, part: Seq<char>, cut: Seq<Seq<char>>) -> bool {
    &&& cut.len() >= 1
    &&& whole == woven(cut, part)
    &&& forall|k: int, at: int|
        0 <= k < cut.len() - 1 && 0 <= at < cut[k].len() ==> #[trigger] (cut[k] + part).subrange(
            at,
            at + part.len(),
        ) != part
    &&& forall|at: int|
        0 <= at <= cut.last().len() - part.len() ==> #[trigger] cut.last().subrange(
            at,
            at + part.len(),
        ) != part
}

/// There is only one way to take a text out from the left: it tells how often the text stands there
/// and what turning it into another one gives.
pub proof fn cuts_settle_the_replacement(
    whole: Seq<char>,
    part: Seq<char>,
    cut: Seq<Seq<char>>,
    new: Seq<char>,
)
    requires
        part.len() > 0,
        is_cut(whole, part, cut),
    ensures
        occurrences(whole, part) == cut.len() - 1,
        replaced(whole, part, new) == woven(cut, new),
    decreases whole.len(), cut.len(),
{
    let rest = cut.skip(1);
    let first = cut[0];
    if cut.len() == 1 && whole.len() < part.len() {
    } else if first.len() == 0 && cut.len() > 1 {
        assert(whole.subrange(0, part.len() as int) =~= part);
        assert(whole.skip(part.len() as int) =~= woven(rest, part));
        assert(rest.last() == cut.last());
        assert forall|k: int, at: int| 0 <= k < rest.len() - 1 && 0 <= at < rest[k].len() implies
            #[trigger] (rest[k] + part).subrange(at, at + part.len()) != part by {
            assert(rest[k] == cut[k + 1]);
            assert((cut[k + 1] + part).subrange(at, at + part.len()) != part);
        }
        cuts_settle_the_replacement(whole.skip(part.len() as int), part, rest, new);
        assert(woven(cut, new) =~= new + woven(rest, new));
    } else {
        let shorter = cut.update(0, first.skip(1));
        if cut.len() > 1 {
            let window = first + part;
            assert((cut[0] + part).subrange(0int, 0int + part.len()) != part);
            assert(whole.subrange(0, part.len() as int) =~= window.subrange(0, part.len() as int));
            assert(shorter.skip(1) =~= rest);
            assert(shorter.last() == cut.last());
        } else {
            assert(cut.last().subrange(0, part.len() as int) != part);
        }
        assert(!stands_at(whole, part, 0));
        assert(whole.skip(1) =~= woven(shorter, part));
        assert forall|k: int, at: int| 0 <= k < shorter.len() - 1 && 0 <= at < shorter[k].len()
            implies #[trigger] (shorter[k] + part).subrange(at, at + part.len()) != part by {
            if k == 0 {
                assert((cut[0] + part).subrange(at + 1, at + 1 + part.len()) != part);
                assert((shorter[0] + part).subrange(at, at + part.len()) =~= (cut[0] + part).subrange(
                    at + 1,
                    at + 1 + part.len(),
                ));
            } else {
                assert((cut[k] + part).subrange(at, at + part.len()) != part);
            }
        }
        assert forall|at: int| 0 <= at <= shorter.last().len() - part.len() implies
            #[trigger] shorter.last().subrange(at, at + part.len()) != part by {
            if cut.len() == 1 {
                assert(cut.last().subrange(at + 1, at + 1 + part.len()) != part);
                assert(shorter.last().subrange(at, at + part.len()) =~= cut.last().subrange(
                    at + 1,
                    at + 1 + part.len(),
                ));
            } else {
                assert(cut.last().subrange(at, at + part.len()) != part);
            }
        }
        cuts_settle_the_replacement(whole.skip(1), part, shorter, new);
        assert(woven(cut, new) =~= seq![whole[0]] + woven(shorter, new));
    }
}

/// Any text can be taken out of any other from the left.
pub proof fn every_text_can_be_cut(whole: Seq<char>, part: Seq<char>) -> (cut: Seq<Seq<char>>)
    requires
        part.len() > 0,
    ensures
        is_cut(whole, part, cut),
    decreases whole.len(),
{
    if whole.len() < part.len() {
        seq![whole]
    } else if whole.subrange(0, part.len() as int) == part {
        let rest = every_text_can_be_cut(whole.skip(part.len() as int), part);
        let cut = seq![Seq::<char>::empty()] + rest;
        assert(cut.skip(1) =~= rest);
        assert(cut.last() == rest.last());
        assert(whole =~= woven(cut, part));
        assert forall|k: int, at: int| 0 <= k < cut.len() - 1 && 0 <= at < cut[k].len() implies
            #[trigger] (cut[k] + part).subrange(at, at + part.len()) != part by {
            assert((rest[k - 1] + part).subrange(at, at + part.len()) != part);
        }
        cut
    } else {
        let rest = every_text_can_be_cut(whole.skip(1), part);
        let cut = rest.update(0, seq![whole[0]] + rest[0]);
        assert(cut.skip(1) =~= rest.skip(1));
        assert(woven(cut, part) =~= seq![whole[0]] + woven(rest, part));
        assert(whole =~= seq![whole[0]] + whole.skip(1));
        assert forall|k: int, at: int| 0 <= k < cut.len() - 1 && 0 <= at < cut[k].len() implies
            #[trigger] (cut[k] + part).subrange(at, at + part.len()) != part by {
            if k > 0 {
                assert((rest[k] + part).subrange(at, at + part.len()) != part);
            } else if at == 0 {
                assert((cut[0] + part).subrange(0, part.len() as int) =~= whole.subrange(
                    0,
                    part.len() as int,
                ));
            } else {
                assert((rest[0] + part).subrange(at - 1, at - 1 + part.len()) != part);
                assert((cut[0] + part).subrange(at, at + part.len()) =~= (rest[0] + part).subrange(
                    at - 1,
                    at - 1 + part.len(),
                ));
            }
        }
        assert forall|at: int| 0 <= at <= cut.last().len() - part.len() implies
            #[trigger] cut.last().subrange(at, at + part.len()) != part by {
            if cut.len() > 1 {
                assert(cut.last() == rest.last());
            } else if at > 0 {
                assert(rest.last().subrange(at - 1, at - 1 + part.len()) != part);
                assert(cut.last().subrange(at, at + part.len()) =~= rest.last().subrange(
                    at - 1,
                    at - 1 + part.len(),
                ));
            } else {
                assert(cut.last() =~= whole);
            }
        }
        cut
    }
}

/// Putting another text between the same pieces changes the length by as much at each place.
pub proof fn lemma_woven_len(cut: Seq<Seq<char>>, a: Seq<char>, b: Seq<char>)
    requires
        cut.len() >= 1,
    ensures
        woven(cut, b).len() == woven(cut, a).len() + (cut.len() - 1) * (b.len() - a.len()),
    decreases cut.len(),
{
    if cut.len() > 1 {
        lemma_woven_len(cut.skip(1), a, b);
        let d = b.len() - a.len();
        let n = cut.len() - 1;
        assert(n * d == (n - 1) * d + d) by (nonlinear_arith);
    } else {
        assert(0 * (b.len() - a.len()) == 0);
    }
}

// ---------------------------------------------------------------------------------------------
// Splitting and joining
// ---------------------------------------------------------------------------------------------

/// The pieces of `s` between its separators; a separator at an end leaves an empty piece there.
pub open spec fn pieces<T>(s: Seq<T>, separator: T) -> Seq<Seq<T>>
    decreases s.len(),
{
    if s.len() == 0 {
        seq![Seq::<T>::empty()]
    } else {
        let before = pieces(s.drop_last(), separator);
        if s.last() == separator {
            before.push(Seq::empty())
        } else {
            before.drop_last().push(before.last().push(s.last()))
        }
    }
}

/// The texts, with the separator text between each two of them.
pub open spec fn joined<T>(list: Seq<Seq<T>>, separator: Seq<T>) -> Seq<T>
    decreases list.len(),
{
    if list.len() == 0 {
        Seq::empty()
    } else if list.len() == 1 {
        list[0]
    } else {
        joined(list.drop_last(), separator) + separator + list.last()
    }
}

pub proof fn lemma_pieces_nonempty<T>(s: Seq<T>, separator: T)
    ensures
        pieces(s, separator).len() >= 1,
    decreases s.len(),
{
    if s.len() > 0 {
        lemma_pieces_nonempty(s.drop_last(), separator);
    }
}

/// Joining the pieces of a text gives the text back, and no piece holds a separator.
pub proof fn pieces_partition_the_text<T>(s: Seq<T>, separator: T)
    ensures
        joined(pieces(s, separator), seq![separator]) == s,
        forall|i: int| 0 <= i < pieces(s, separator).len() ==> !(#[trigger] pieces(s, separator)[i]).contains(
            separator,
        ),
    decreases s.len(),
{
    let all = pieces(s, separator);
    if s.len() == 0 {
        assert(all[0] =~= s);
    } else {
        let rest = s.drop_last();
        let before = pieces(rest, separator);
        pieces_partition_the_text(rest, separator);
        lemma_pieces_nonempty(rest, separator);
        if s.last() == separator {
            assert(all.drop_last() =~= before);
            assert(joined(all, seq![separator]) =~= s);
        } else {
            assert(all.drop_last() =~= before.drop_last());
            if before.len() == 1 {
                assert(all.len() == 1);
                assert(joined(all, seq![separator]) =~= s);
            } else {
                assert(joined(all, seq![separator]) =~= joined(before, seq![separator]).push(s.last()));
                assert(joined(all, seq![separator]) =~= s);
            }
            assert forall|i: int| 0 <= i < all.len() implies !(#[trigger] all[i]).contains(separator) by {
                if i < all.len() - 1 {
                    assert(all[i] == before[i]);
                } else {
                    assert(!before.last().contains(separator));
                    if all[i].contains(separator) {
                        let k = choose|k: int| 0 <= k < all[i].len() && all[i][k] == separator;
                        assert(before.last()[k] == separator);
                    }
                }
            }
        }
    }
}

/// The pieces of a text between its separators.
pub fn split(text: &str, separator: char) -> (r: Vec<Vec<char>>)
    ensures
        r@.len() == pieces(text@, separator).len(),
        forall|i: int| 0 <= i < r@.len() ==> (#[trigger] r@[i])@ == pieces(text@, separator)[i],
        r@.len() >= 1,
{
    let chars = chars_of(text);
    let mut done: Vec<Vec<char>> = Vec::new();
    let mut current: Vec<char> = Vec::new();
    let mut i: usize = 0;
    assert(chars@.take(0).len() == 0);
    while i < chars.len()
        invariant
            chars@ == text@,
            i <= chars@.len(),
            pieces(chars@.take(i as int), separator).len() == done@.len() + 1,
            forall|k: int|
                0 <= k < done@.len() ==> (#[trigger] done@[k])@ == pieces(chars@.take(i as int), separator)[k],
            current@ == pieces(chars@.take(i as int), separator).last(),
        decreases chars@.len() - i,
    {
        assert(chars@.take(i + 1).drop_last() =~= chars@.take(i as int));
        if chars[i] == separator {
            done.push(current);
            current = Vec::new();
        } else {
            current.push(chars[i]);
        }
        i = i + 1;
    }
    assert(chars@.take(i as int) =~= text@);
    done.push(current);
    done
}

/// The pieces of a byte string between its separators.
pub fn split_bytes(bytes: &[u8], separator: u8) -> (r: Vec<Vec<u8>>)
    ensures
        r@.len() == pieces(bytes@, separator).len(),
        forall|i: int| 0 <= i < r@.len() ==> (#[trigger] r@[i])@ == pieces(bytes@, separator)[i],
        r@.len() >= 1,
{
    let mut done: Vec<Vec<u8>> = Vec::new();
    let mut current: Vec<u8> = Vec::new();
    let mut i: usize = 0;
    assert(bytes@.take(0).len() == 0);
    while i < bytes.len()
        invariant
            i <= bytes@.len(),
            pieces(bytes@.take(i as int), separator).len() == done@.len() + 1,
            forall|k: int|
                0 <= k < done@.len() ==> (#[trigger] done@[k])@ == pieces(bytes@.take(i as int), separator)[k],
            current@ == pieces(bytes@.take(i as int), separator).last(),
        decreases bytes@.len() - i,
    {
        assert(bytes@.take(i + 1).drop_last() =~= bytes@.take(i as int));
        if bytes[i] == separator {
            done.push(current);
            current = Vec::new();
        } else {
            current.push(bytes[i]);
        }
        i = i + 1;
    }
    assert(bytes@.take(i as int) =~= bytes@);
    done.push(current);
    done
}

/// The texts with a separator text between each two of them.
pub fn join(list: &Vec<String>, separator: &str) -> (r: String)
    ensures
        r@ == joined(texts(list@), separator@),
{
    let mut r: String = String::new();
    let mut i: usize = 0;
    while i < list.len()
        invariant
            i <= list@.len(),
            r@ == joined(texts(list@).take(i as int), separator@),
        decreases list@.len() - i,
    {
        assert(texts(list@).take(i + 1).drop_last() =~= texts(list@).take(i as int));
        if i > 0 {
            r.push_str(separator);
        }
        r.push_str(list[i].as_str());
        i = i + 1;
        assert(r@ =~= joined(texts(list@).take(i as int), separator@));
    }
    assert(texts(list@).take(i as int) =~= texts(list@));
    r
}

// ---------------------------------------------------------------------------------------------
// Lines
// ---------------------------------------------------------------------------------------------

/// A line without the carriage return in front of its line feed.
pub open spec fn without_return(line: Seq<char>) -> Seq<char> {
    if line.len() > 0 && line.last() == '\r' {
        line.drop_last()
    } else {
        line
    }
}

/// The lines of a text: each ends at a line feed, or a carriage return and a line feed, and what
/// follows the last line feed is a line of its own unless it is empty.
pub open spec fn lines(s: Seq<char>) -> Seq<Seq<char>> {
    let all = pieces(s, '\n');
    let ended = Seq::new((all.len() - 1) as nat, |i: int| without_return(all[i]));
    if all.last().len() == 0 {
        ended
    } else {
        ended.push(all.last())
    }
}

/// The lines of a text.
pub fn lines_of(text: &str) -> (r: Vec<String>)
    ensures
        texts(r@) == lines(text@),
{
    let parts = split(text, '\n');
    let ghost all = pieces(text@, '\n');
    let mut r: Vec<String> = Vec::new();
    let mut i: usize = 0;
    while i < parts.len() - 1
        invariant
            parts@.len() == all.len(),
            parts@.len() >= 1,
            forall|k: int| 0 <= k < parts@.len() ==> (#[trigger] parts@[k])@ == all[k],
            i <= parts@.len() - 1,
            r@.len() == i,
            forall|k: int| 0 <= k < i ==> (#[trigger] r@[k])@ == without_return(all[k]),
        decreases parts@.len() - i,
    {
        let n: usize = parts[i].len();
        if n > 0 && parts[i][n - 1] == '\r' {
            let kept = slice_subrange(parts[i].as_slice(), 0, n - 1);
            assert(kept@ =~= all[i as int].drop_last());
            r.push(string_of(kept));
        } else {
            r.push(string_of(parts[i].as_slice()));
        }
        i = i + 1;
    }
    if parts[parts.len() - 1].len() > 0 {
        r.push(string_of(parts[parts.len() - 1].as_slice()));
    }
    assert(texts(r@) =~= lines(text@));
    r
}

/// Texts, one after another.
pub open spec fn chained(parts: Seq<Seq<char>>) -> Seq<char>
    decreases parts.len(),
{
    if parts.len() == 0 {
        Seq::empty()
    } else {
        chained(parts.drop_last()) + parts.last()
    }
}

/// Whether a text consists of the given lines, each in front of the ending beside it: a line feed,
/// with a carriage return in front of it or without, and nothing only behind a last line that is
/// not empty. A line holds no line feed, and a carriage return in front of one belongs to the
/// ending.
pub open spec fn consists_of(text: Seq<char>, all: Seq<Seq<char>>, ends: Seq<Seq<char>>) -> bool {
    &&& ends.len() == all.len()
    &&& text == chained(Seq::new(all.len(), |i: int| all[i] + ends[i]))
    &&& forall|i: int| 0 <= i < all.len() ==> !(#[trigger] all[i]).contains('\n')
    &&& forall|i: int|
        0 <= i < ends.len() ==> {
            ||| (#[trigger] ends[i]) == seq!['\r', '\n']
            ||| ends[i] == seq!['\n'] && !(all[i].len() > 0 && all[i].last() == '\r')
            ||| ends[i].len() == 0 && i == ends.len() - 1 && all[i].len() > 0
        }
}

/// The lines of a text are all of the text but for the line endings.
pub proof fn lines_are_the_whole_text(text: Seq<char>)
    ensures
        exists|ends: Seq<Seq<char>>| #[trigger] consists_of(text, lines(text), ends),
{
    let parts = pieces(text, '\n');
    let all = lines(text);
    let n = parts.len() - 1;
    lemma_pieces_nonempty(text, '\n');
    pieces_partition_the_text(text, '\n');
    let ends = Seq::new(
        all.len(),
        |i: int|
            if i == n {
                Seq::<char>::empty()
            } else if parts[i].len() > 0 && parts[i].last() == '\r' {
                seq!['\r', '\n']
            } else {
                seq!['\n']
            },
    );
    let whole = Seq::new(all.len(), |i: int| all[i] + ends[i]);
    assert forall|i: int| 0 <= i < n implies #[trigger] whole[i] == parts[i] + seq!['\n'] by {
        assert(whole[i] =~= parts[i] + seq!['\n']);
    }
    assert forall|i: int| 0 <= i < all.len() implies !(#[trigger] all[i]).contains('\n') by {
        assert(!parts[i].contains('\n'));
        if all[i].contains('\n') {
            let k = choose|k: int| 0 <= k < all[i].len() && all[i][k] == '\n';
            assert(parts[i][k] == '\n');
        }
    }
    lemma_ended_pieces(parts, whole, n);
    assert(parts.take(n + 1) =~= parts);
    assert(parts.take(n + 1).drop_last() =~= parts.take(n));
    let front = if n == 0 {
        Seq::<char>::empty()
    } else {
        joined(parts.take(n), seq!['\n']) + seq!['\n']
    };
    assert(text =~= front + parts[n]);
    if parts[n].len() == 0 {
        assert(whole.take(n) =~= whole);
        assert(chained(whole) =~= text);
    } else {
        assert(whole.drop_last() =~= whole.take(n));
        assert(whole.last() =~= parts[n]);
        assert(chained(whole) =~= text);
    }
    assert(consists_of(text, all, ends));
}

proof fn lemma_ended_pieces(parts: Seq<Seq<char>>, whole: Seq<Seq<char>>, m: int)
    requires
        0 <= m < parts.len(),
        m <= whole.len(),
        forall|i: int| 0 <= i < m ==> #[trigger] whole[i] == parts[i] + seq!['\n'],
    ensures
        chained(whole.take(m)) == (if m == 0 {
            Seq::<char>::empty()
        } else {
            joined(parts.take(m), seq!['\n']) + seq!['\n']
        }),
    decreases m,
{
    if m > 0 {
        lemma_ended_pieces(parts, whole, m - 1);
        assert(whole.take(m).drop_last() =~= whole.take(m - 1));
        assert(parts.take(m).drop_last() =~= parts.take(m - 1));
        assert(chained(whole.take(m)) =~= joined(parts.take(m), seq!['\n']) + seq!['\n']);
    }
}

// ---------------------------------------------------------------------------------------------
// Whitespace
// ---------------------------------------------------------------------------------------------

/// The characters that Unicode counts as white space.
pub open spec fn is_white(c: char) -> bool {
    let n = c as u32;
    ||| 0x09 <= n <= 0x0d
    ||| n == 0x20
    ||| n == 0x85
    ||| n == 0xa0
    ||| n == 0x1680
    ||| 0x2000 <= n <= 0x200a
    ||| n == 0x2028
    ||| n == 0x2029
    ||| n == 0x202f
    ||| n == 0x205f
    ||| n == 0x3000
}

fn white(c: char) -> (r: bool)
    ensures
        r == is_white(c),
{
    let n: u32 = c as u32;
    (0x09 <= n && n <= 0x0d) || n == 0x20 || n == 0x85 || n == 0xa0 || n == 0x1680 || (0x2000 <= n && n
        <= 0x200a) || n == 0x2028 || n == 0x2029 || n == 0x202f || n == 0x205f || n == 0x3000
}

/// A text without the white space at its start.
pub open spec fn trimmed_start(s: Seq<char>) -> Seq<char>
    decreases s.len(),
{
    if s.len() > 0 && is_white(s[0]) {
        trimmed_start(s.skip(1))
    } else {
        s
    }
}

/// A text without the white space at its end.
pub open spec fn trimmed_end(s: Seq<char>) -> Seq<char>
    decreases s.len(),
{
    if s.len() > 0 && is_white(s.last()) {
        trimmed_end(s.drop_last())
    } else {
        s
    }
}

/// A text without the white space at both ends.
pub open spec fn trimmed(s: Seq<char>) -> Seq<char> {
    trimmed_end(trimmed_start(s))
}

/// A text without the white space at both ends.
pub fn trim(text: &str) -> (r: String)
    ensures
        r@ == trimmed(text@),
{
    let chars = chars_of(text);
    let mut start: usize = 0;
    assert(text@.skip(0) =~= text@);
    while start < chars.len() && white(chars[start])
        invariant
            chars@ == text@,
            start <= chars@.len(),
            trimmed_start(text@) == trimmed_start(text@.skip(start as int)),
        decreases chars@.len() - start,
    {
        assert(text@.skip(start as int).skip(1) =~= text@.skip(start + 1));
        start = start + 1;
    }
    let ghost rest = text@.skip(start as int);
    let mut end: usize = chars.len();
    assert(text@.subrange(start as int, end as int) =~= rest);
    while end > start && white(chars[end - 1])
        invariant
            chars@ == text@,
            start <= end <= chars@.len(),
            trimmed_end(rest) == trimmed_end(text@.subrange(start as int, end as int)),
        decreases end,
    {
        assert(text@.subrange(start as int, end as int).drop_last() =~= text@.subrange(
            start as int,
            end - 1,
        ));
        end = end - 1;
    }
    string_of(slice_subrange(chars.as_slice(), start, end))
}

/// Whether a text is a word with white space around it: the word neither begins nor ends with white
/// space.
pub open spec fn is_around(text: Seq<char>, word: Seq<char>) -> bool {
    &&& word.len() > 0 ==> !is_white(word[0]) && !is_white(word.last())
    &&& exists|lead: Seq<char>, tail: Seq<char>|
        {
            &&& text == #[trigger] (lead + word + tail)
            &&& forall|i: int| 0 <= i < lead.len() ==> is_white(#[trigger] lead[i])
            &&& forall|i: int| 0 <= i < tail.len() ==> is_white(#[trigger] tail[i])
        }
}

proof fn lemma_trimmed_start(s: Seq<char>) -> (lead: Seq<char>)
    ensures
        s == lead + trimmed_start(s),
        forall|i: int| 0 <= i < lead.len() ==> is_white(#[trigger] lead[i]),
        trimmed_start(s).len() > 0 ==> !is_white(trimmed_start(s)[0]),
    decreases s.len(),
{
    if s.len() > 0 && is_white(s[0]) {
        let rest = lemma_trimmed_start(s.skip(1));
        let lead = seq![s[0]] + rest;
        assert(s =~= seq![s[0]] + s.skip(1));
        assert(s =~= lead + trimmed_start(s));
        lead
    } else {
        assert(s =~= Seq::<char>::empty() + s);
        Seq::empty()
    }
}

proof fn lemma_trimmed_end(s: Seq<char>) -> (tail: Seq<char>)
    ensures
        s == trimmed_end(s) + tail,
        forall|i: int| 0 <= i < tail.len() ==> is_white(#[trigger] tail[i]),
        trimmed_end(s).len() > 0 ==> !is_white(trimmed_end(s).last()),
    decreases s.len(),
{
    if s.len() > 0 && is_white(s.last()) {
        let fewer = lemma_trimmed_end(s.drop_last());
        let tail = fewer.push(s.last());
        assert(s =~= s.drop_last().push(s.last()));
        assert(s =~= trimmed_end(s) + tail);
        tail
    } else {
        assert(s =~= s + Seq::<char>::empty());
        Seq::empty()
    }
}

/// Trimming takes the white space off at both ends and nothing else.
pub proof fn trimming_takes_white_space_off(text: Seq<char>)
    ensures
        is_around(text, trimmed(text)),
{
    let lead = lemma_trimmed_start(text);
    let rest = trimmed_start(text);
    let tail = lemma_trimmed_end(rest);
    let word = trimmed(text);
    assert(text =~= lead + word + tail);
    if word.len() > 0 {
        assert(word[0] == rest[0]);
    }
}

/// A text is white space around at most one word.
pub proof fn words_are_unique(text: Seq<char>, a: Seq<char>, b: Seq<char>)
    requires
        is_around(text, a),
        is_around(text, b),
        a.len() > 0,
    ensures
        a == b,
{
    let (la, ta) = choose|lead: Seq<char>, tail: Seq<char>|
        {
            &&& text == #[trigger] (lead + a + tail)
            &&& forall|i: int| 0 <= i < lead.len() ==> is_white(#[trigger] lead[i])
            &&& forall|i: int| 0 <= i < tail.len() ==> is_white(#[trigger] tail[i])
        };
    let (lb, tb) = choose|lead: Seq<char>, tail: Seq<char>|
        {
            &&& text == #[trigger] (lead + b + tail)
            &&& forall|i: int| 0 <= i < lead.len() ==> is_white(#[trigger] lead[i])
            &&& forall|i: int| 0 <= i < tail.len() ==> is_white(#[trigger] tail[i])
        };
    let n = text.len();
    assert(n == la.len() + a.len() + ta.len() && n == lb.len() + b.len() + tb.len());
    assert(text[la.len() as int] == a[0]);
    assert(text[la.len() + a.len() - 1] == a.last());
    if b.len() == 0 {
        let k = la.len() as int;
        if k < lb.len() {
            assert(text[k] == lb[k]);
        } else {
            assert(text[k] == tb[k - lb.len()]);
        }
    } else {
        assert(text[lb.len() as int] == b[0]);
        assert(text[lb.len() + b.len() - 1] == b.last());
        if la.len() < lb.len() {
            assert(text[la.len() as int] == lb[la.len() as int]);
        }
        if lb.len() < la.len() {
            assert(text[lb.len() as int] == la[lb.len() as int]);
        }
        if la.len() + a.len() < lb.len() + b.len() {
            let k = lb.len() + b.len() - 1;
            assert(text[k] == ta[k - la.len() - a.len()]);
        }
        if lb.len() + b.len() < la.len() + a.len() {
            let k = la.len() + a.len() - 1;
            assert(text[k] == tb[k - lb.len() - b.len()]);
        }
        assert forall|i: int| 0 <= i < a.len() implies a[i] == b[i] by {
            assert(text[la.len() + i] == a[i]);
            assert(text[lb.len() + i] == b[i]);
        }
        assert(a =~= b);
    }
}

/// A text without the given characters at its end.
pub open spec fn trimmed_end_of(s: Seq<char>, drop: spec_fn(char) -> bool) -> Seq<char>
    decreases s.len(),
{
    if s.len() > 0 && drop(s.last()) {
        trimmed_end_of(s.drop_last(), drop)
    } else {
        s
    }
}

/// A line without the line-ending characters at its end.
pub fn trim_line_end(text: &str) -> (r: String)
    ensures
        r@ == trimmed_end_of(text@, |c: char| c == '\r' || c == '\n'),
{
    let ghost drop = |c: char| c == '\r' || c == '\n';
    let chars = chars_of(text);
    let mut end: usize = chars.len();
    assert(text@.take(end as int) =~= text@);
    while end > 0 && (chars[end - 1] == '\r' || chars[end - 1] == '\n')
        invariant
            chars@ == text@,
            end <= chars@.len(),
            drop == (|c: char| c == '\r' || c == '\n'),
            trimmed_end_of(text@, drop) == trimmed_end_of(text@.take(end as int), drop),
        decreases end,
    {
        assert(text@.take(end as int).drop_last() =~= text@.take(end - 1));
        end = end - 1;
    }
    let kept = slice_subrange(chars.as_slice(), 0, end);
    assert(kept@ =~= text@.take(end as int));
    string_of(kept)
}

} // verus!
