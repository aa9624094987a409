//! What the reading tools answer, told by what was asked for and what ripgrep showed.
use vstd::prelude::*;
use vstd::utf8::encode_utf8;

use crate::encoding::{byte_len, fitting_chars, fitting_chars_is_the_longest_prefix, hex_of_bytes,
    lemma_encode_utf8_concat, sha256, texts_read_back, utf8_text};
use crate::executable::RgOutput;
use crate::failure::Refusal;
use crate::glob::{glob_accepts, glob_subject, glob_tokens, is_glob, stands_for, tokens_match,
    GlobToken};
use crate::listing::{files_answer, whole_records};
use crate::paths::{bare_scope, delimited_len, lies_within, listed_path, listed_paths,
    nul_separated_paths, path_failure, path_refusal, without_prefix};
use crate::read::{first_line, fitting_lines, last_allowed_line, last_requested_line,
    lemma_fitting_lines, line_bytes, line_window, read_answer, read_lines, visible_file_refusal,
    FileEvidence, ReadInput, ReadView, READ_BYTE_LIMIT};
use crate::scan::{chained, consists_of, joined, lemma_pieces_nonempty, lines,
    lines_are_the_whole_text, pieces, pieces_partition_the_text, stands_at, trimmed_end_of};
use crate::search::{event_match, event_of, event_path, events_of, fragment_text, matches_from,
    search_answer, search_result, EventView, MatchView, SearchInput, SEARCH_MATCH_LIMIT};
use crate::sorted::{is_sorted, sorted_order_keeps_the_texts, sorted_texts};
use crate::text::opt_text;
use crate::workspace::{reach_refusal, scope_of, wanted, way_refusal, PathProbe};

verus! {

// ---------------------------------------------------------------------------------------------
// Scopes
// ---------------------------------------------------------------------------------------------

/// Whether a path is a directory itself or begins with it and a separator. Separators at the end of
/// the directory do not count.
pub open spec fn is_inside(directory: Seq<char>, path: Seq<char>) -> bool {
    exists|bare: Seq<char>, slashes: Seq<char>|
        {
            &&& directory == #[trigger] (bare + slashes)
            &&& forall|i: int| 0 <= i < slashes.len() ==> slashes[i] == '/'
            &&& bare.len() > 0 ==> bare.last() != '/'
            &&& path == bare || (bare + seq!['/']).is_prefix_of(path)
        }
}

proof fn lemma_bare(scope: Seq<char>) -> (slashes: Seq<char>)
    ensures
        scope == bare_scope(scope) + slashes,
        forall|i: int| 0 <= i < slashes.len() ==> slashes[i] == '/',
        bare_scope(scope).len() > 0 ==> bare_scope(scope).last() != '/',
    decreases scope.len(),
{
    if scope.len() > 0 && scope.last() == '/' {
        let fewer = lemma_bare(scope.drop_last());
        let slashes = fewer.push('/');
        assert(scope =~= scope.drop_last().push('/'));
        assert(scope =~= bare_scope(scope) + slashes);
        slashes
    } else {
        assert(scope =~= scope + Seq::<char>::empty());
        Seq::empty()
    }
}

proof fn lemma_bare_unique(a: Seq<char>, x: Seq<char>, b: Seq<char>, y: Seq<char>)
    requires
        a + x == b + y,
        forall|i: int| 0 <= i < x.len() ==> x[i] == '/',
        forall|i: int| 0 <= i < y.len() ==> y[i] == '/',
        a.len() > 0 ==> a.last() != '/',
        b.len() > 0 ==> b.last() != '/',
    ensures
        a == b,
{
    let s = a + x;
    assert(s.len() == a.len() + x.len() && s.len() == b.len() + y.len());
    assert(forall|i: int| 0 <= i < a.len() ==> s[i] == a[i]);
    assert(forall|i: int| 0 <= i < b.len() ==> s[i] == b[i]);
    if a.len() < b.len() {
        assert(s[b.len() - 1] == x[b.len() - 1 - a.len()]);
    }
    if b.len() < a.len() {
        assert(s[a.len() - 1] == y[a.len() - 1 - b.len()]);
    }
    assert forall|i: int| 0 <= i < a.len() implies a[i] == b[i] by {
        assert(s[i] == a[i]);
    }
    assert(a =~= b);
}

/// A scope holds a path exactly if the path is the scope or lies below it.
pub proof fn scopes_hold_what_is_below_them(scope: Seq<char>, path: Seq<char>)
    ensures
        lies_within(scope, path) <==> is_inside(scope, path),
{
    let slashes = lemma_bare(scope);
    let bare = bare_scope(scope);
    if (bare + seq!['/']).is_prefix_of(path) {
        assert(path.subrange(0, (bare + seq!['/']).len() as int) =~= bare + seq!['/']);
    }
    if stands_at(path, bare + seq!['/'], 0) {
        assert(path.subrange(0, (bare + seq!['/']).len() as int) =~= bare + seq!['/']);
        assert((bare + seq!['/']) =~= path.subrange(0, (bare + seq!['/']).len() as int));
        assert((bare + seq!['/']).is_prefix_of(path));
    }
    if lies_within(scope, path) {
        assert(scope == bare + slashes);
        assert(is_inside(scope, path));
    }
    if is_inside(scope, path) {
        let (other, more) = choose|other: Seq<char>, more: Seq<char>|
            {
                &&& scope == #[trigger] (other + more)
                &&& forall|i: int| 0 <= i < more.len() ==> more[i] == '/'
                &&& other.len() > 0 ==> other.last() != '/'
                &&& path == other || (other + seq!['/']).is_prefix_of(path)
            };
        lemma_bare_unique(bare, slashes, other, more);
    }
}

// ---------------------------------------------------------------------------------------------
// Patterns
// ---------------------------------------------------------------------------------------------

/// Whether one element of a pattern stands for a part of a path: two stars for anything, one star
/// for anything without a separator, a question mark for one character other than a separator, and
/// any other character for itself.
pub open spec fn element_fits(element: Seq<char>, part: Seq<char>) -> bool {
    if element == seq!['*', '*'] {
        true
    } else if element == seq!['*'] {
        !part.contains('/')
    } else if element == seq!['?'] {
        part.len() == 1 && part[0] != '/'
    } else {
        part == element
    }
}

/// Whether a pattern is read as these elements: single characters, and two stars together wherever
/// two stars in a row are met from the left.
pub open spec fn reads_as(pattern: Seq<char>, elements: Seq<Seq<char>>) -> bool {
    &&& pattern == chained(elements)
    &&& forall|i: int|
        0 <= i < elements.len() ==> (#[trigger] elements[i]).len() == 1 || elements[i] == seq!['*', '*']
    &&& forall|i: int|
        0 <= i < elements.len() - 1 && #[trigger] elements[i] == seq!['*'] ==> elements[i + 1][0] != '*'
}

/// Whether a text is the file name of a path: what follows the last separator.
pub open spec fn is_file_name(path: Seq<char>, name: Seq<char>) -> bool {
    &&& !name.contains('/')
    &&& path == name || (seq!['/'] + name).is_suffix_of(path)
}

/// Whether a path fits a pattern: a pattern with a separator is held against the whole path, another
/// one against the file name, and the text falls into parts, one for each element.
pub open spec fn fits(pattern: Seq<char>, path: Seq<char>) -> bool {
    exists|elements: Seq<Seq<char>>, parts: Seq<Seq<char>>|
        {
            &&& #[trigger] reads_as(pattern, elements)
            &&& parts.len() == elements.len()
            &&& forall|i: int| 0 <= i < parts.len() ==> element_fits(elements[i], #[trigger] parts[i])
            &&& if pattern.contains('/') {
                #[trigger] chained(parts) == path
            } else {
                is_file_name(path, chained(parts))
            }
        }
}

proof fn lemma_chained_first(parts: Seq<Seq<char>>)
    requires
        parts.len() > 0,
    ensures
        chained(parts) == parts[0] + chained(parts.skip(1)),
    decreases parts.len(),
{
    if parts.len() == 1 {
        assert(chained(parts.drop_last()) =~= Seq::empty());
        assert(chained(parts.skip(1)) =~= Seq::empty());
        assert(chained(parts) =~= parts[0] + chained(parts.skip(1)));
    } else {
        lemma_chained_first(parts.drop_last());
        assert(parts.drop_last().skip(1) =~= parts.skip(1).drop_last());
        assert(chained(parts) =~= parts[0] + chained(parts.skip(1)));
    }
}

/// The element of a pattern that some characters are.
spec fn token_of(element: Seq<char>) -> GlobToken {
    if element == seq!['*', '*'] {
        GlobToken::AnyPath
    } else if element == seq!['*'] {
        GlobToken::AnySegment
    } else if element == seq!['?'] {
        GlobToken::AnyChar
    } else {
        GlobToken::Literal(element[0])
    }
}

proof fn lemma_reading(pattern: Seq<char>, elements: Seq<Seq<char>>)
    requires
        reads_as(pattern, elements),
    ensures
        glob_tokens(pattern) == Seq::new(elements.len(), |i: int| token_of(elements[i])),
    decreases elements.len(),
{
    let tokens = Seq::new(elements.len(), |i: int| token_of(elements[i]));
    if elements.len() == 0 {
        assert(glob_tokens(pattern) =~= tokens);
    } else {
        let first = elements[0];
        let rest = elements.skip(1);
        lemma_chained_first(elements);
        assert(pattern == first + chained(rest));
        assert(pattern.skip(first.len() as int) =~= chained(rest));
        assert(pattern[0] == first[0]);
        assert forall|i: int| 0 <= i < rest.len() implies (#[trigger] rest[i]).len() == 1 || rest[i]
            == seq!['*', '*'] by {
            assert(rest[i] == elements[i + 1]);
        }
        assert forall|i: int| 0 <= i < rest.len() - 1 && #[trigger] rest[i] == seq!['*'] implies rest[i
            + 1][0] != '*' by {
            assert(elements[i + 1] == seq!['*']);
        }
        lemma_reading(chained(rest), rest);
        assert(tokens =~= seq![token_of(first)] + Seq::new(
            rest.len(),
            |i: int| token_of(rest[i]),
        ));
        if first == seq!['*', '*'] {
            assert(pattern[1] == first[1]);
        } else {
            assert(first =~= seq![first[0]]);
            if first[0] == '*' && pattern.len() > 1 {
                assert(elements[0] == seq!['*']);
                assert(rest.len() > 0);
                lemma_chained_first(rest);
                assert(pattern[1] == rest[0][0]);
            }
        }
    }
}

proof fn lemma_readable(pattern: Seq<char>) -> (elements: Seq<Seq<char>>)
    ensures
        reads_as(pattern, elements),
    decreases pattern.len(),
{
    if pattern.len() == 0 {
        assert(pattern =~= chained(Seq::empty()));
        Seq::empty()
    } else {
        let doubled = pattern[0] == '*' && pattern.len() > 1 && pattern[1] == '*';
        let first = if doubled { seq!['*', '*'] } else { seq![pattern[0]] };
        let behind = pattern.skip(first.len() as int);
        let rest = lemma_readable(behind);
        let elements = seq![first] + rest;
        lemma_chained_first(elements);
        assert(elements.skip(1) =~= rest);
        assert(pattern =~= first + behind);
        assert forall|i: int| 0 <= i < elements.len() implies (#[trigger] elements[i]).len() == 1
            || elements[i] == seq!['*', '*'] by {
            if i > 0 {
                assert(elements[i] == rest[i - 1]);
            }
        }
        assert forall|i: int|
            0 <= i < elements.len() - 1 && #[trigger] elements[i] == seq!['*'] implies elements[i
            + 1][0] != '*' by {
            if i > 0 {
                assert(rest[i - 1] == seq!['*']);
            } else {
                assert(seq!['*'].len() == 1);
                assert(!doubled);
                lemma_chained_first(rest);
                assert(rest[0].len() >= 1);
                assert(behind[0] == rest[0][0]);
                assert(pattern[0] == elements[0][0]);
                assert(pattern[1] == behind[0]);
            }
        }
        elements
    }
}

proof fn lemma_token_fits(element: Seq<char>, part: Seq<char>)
    requires
        element.len() == 1 || element == seq!['*', '*'],
    ensures
        stands_for(token_of(element), part) == element_fits(element, part),
{
    if element.len() == 1 {
        assert(element =~= seq![element[0]]);
        assert(seq!['*', '*'].len() == 2);
    }
}

proof fn lemma_parts_match(tokens: Seq<GlobToken>, parts: Seq<Seq<char>>)
    requires
        parts.len() == tokens.len(),
        forall|i: int| 0 <= i < parts.len() ==> stands_for(tokens[i], #[trigger] parts[i]),
    ensures
        tokens_match(tokens, chained(parts)),
    decreases tokens.len(),
{
    if tokens.len() > 0 {
        let s = chained(parts);
        let k = parts[0].len() as int;
        lemma_chained_first(parts);
        assert(s.take(k) =~= parts[0]);
        assert(s.skip(k) =~= chained(parts.skip(1)));
        assert forall|i: int| 0 <= i < parts.skip(1).len() implies stands_for(
            tokens.skip(1)[i],
            #[trigger] parts.skip(1)[i],
        ) by {
            assert(stands_for(tokens[i + 1], parts[i + 1]));
        }
        lemma_parts_match(tokens.skip(1), parts.skip(1));
        assert(stands_for(tokens[0], s.take(k)));
    }
}

proof fn lemma_match_parts(tokens: Seq<GlobToken>, s: Seq<char>) -> (parts: Seq<Seq<char>>)
    requires
        tokens_match(tokens, s),
    ensures
        parts.len() == tokens.len(),
        forall|i: int| 0 <= i < parts.len() ==> stands_for(tokens[i], #[trigger] parts[i]),
        chained(parts) == s,
    decreases tokens.len(),
{
    if tokens.len() == 0 {
        assert(s =~= Seq::empty());
        Seq::empty()
    } else {
        let k = choose|k: int|
            0 <= k <= s.len() && stands_for(tokens[0], #[trigger] s.take(k)) && tokens_match(
                tokens.skip(1),
                s.skip(k),
            );
        let rest = lemma_match_parts(tokens.skip(1), s.skip(k));
        let parts = seq![s.take(k)] + rest;
        lemma_chained_first(parts);
        assert(parts.skip(1) =~= rest);
        assert(s =~= s.take(k) + s.skip(k));
        assert forall|i: int| 0 <= i < parts.len() implies stands_for(
            tokens[i],
            #[trigger] parts[i],
        ) by {
            if i > 0 {
                assert(stands_for(tokens.skip(1)[i - 1], rest[i - 1]));
            }
        }
        parts
    }
}

proof fn lemma_file_name(path: Seq<char>)
    ensures
        is_file_name(path, pieces(path, '/').last()),
        forall|name: Seq<char>| #[trigger] is_file_name(path, name) ==> name == pieces(path, '/').last(),
{
    let all = pieces(path, '/');
    let last = all.last();
    lemma_pieces_nonempty(path, '/');
    pieces_partition_the_text(path, '/');
    if all.len() > 1 {
        let whole = joined(all.drop_last(), seq!['/']) + seq!['/'] + last;
        assert(path == whole);
        let tail = seq!['/'] + last;
        assert(tail =~= whole.subrange(whole.len() - tail.len(), whole.len() as int));
        assert(tail.is_suffix_of(path));
    }
    assert forall|name: Seq<char>| #[trigger] is_file_name(path, name) implies name == last by {
        lemma_tails(path, last, name);
    }
}

proof fn lemma_tails(path: Seq<char>, a: Seq<char>, b: Seq<char>)
    requires
        is_file_name(path, a),
        is_file_name(path, b),
    ensures
        a == b,
{
    let n = path.len() as int;
    if a.len() < b.len() {
        let tail = seq!['/'] + a;
        assert(path != a);
        assert(tail[0] == path[n - tail.len()]);
        if path == b {
            assert(b[n - a.len() - 1] == '/');
        } else {
            let other = seq!['/'] + b;
            assert(other[other.len() - tail.len()] == path[n - tail.len()]);
            assert(b[b.len() - a.len() - 1] == '/');
        }
    } else if b.len() < a.len() {
        let tail = seq!['/'] + b;
        assert(path != b);
        assert(tail[0] == path[n - tail.len()]);
        if path == a {
            assert(a[n - b.len() - 1] == '/');
        } else {
            let other = seq!['/'] + a;
            assert(other[other.len() - tail.len()] == path[n - tail.len()]);
            assert(a[a.len() - b.len() - 1] == '/');
        }
    } else {
        assert forall|i: int| 0 <= i < a.len() implies a[i] == b[i] by {
            let at = n - a.len() + i;
            if path != a {
                assert((seq!['/'] + a)[i + 1] == path[at]);
            }
            if path != b {
                assert((seq!['/'] + b)[i + 1] == path[at]);
            }
        }
        assert(a =~= b);
    }
}

/// A pattern accepts exactly the paths that fit it.
pub proof fn patterns_accept_what_fits(pattern: Seq<char>, path: Seq<char>)
    ensures
        glob_accepts(pattern, path) <==> fits(pattern, path),
{
    lemma_file_name(path);
    let subject = glob_subject(pattern, path);
    if glob_accepts(pattern, path) {
        let elements = lemma_readable(pattern);
        lemma_reading(pattern, elements);
        let tokens = glob_tokens(pattern);
        let parts = lemma_match_parts(tokens, subject);
        assert forall|i: int| 0 <= i < parts.len() implies element_fits(
            elements[i],
            #[trigger] parts[i],
        ) by {
            lemma_token_fits(elements[i], parts[i]);
            assert(stands_for(tokens[i], parts[i]));
        }
        assert(reads_as(pattern, elements) && chained(parts) == subject);
        assert(fits(pattern, path));
    }
    if fits(pattern, path) {
        let (elements, parts) = choose|elements: Seq<Seq<char>>, parts: Seq<Seq<char>>|
            {
                &&& #[trigger] reads_as(pattern, elements)
                &&& parts.len() == elements.len()
                &&& forall|i: int|
                    0 <= i < parts.len() ==> element_fits(elements[i], #[trigger] parts[i])
                &&& if pattern.contains('/') {
                    #[trigger] chained(parts) == path
                } else {
                    is_file_name(path, chained(parts))
                }
            };
        lemma_reading(pattern, elements);
        let tokens = glob_tokens(pattern);
        assert forall|i: int| 0 <= i < parts.len() implies stands_for(
            tokens[i],
            #[trigger] parts[i],
        ) by {
            lemma_token_fits(elements[i], parts[i]);
        }
        lemma_parts_match(tokens, parts);
        assert(chained(parts) == subject);
    }
}

/// Whether a path is one that a request for a scope and a pattern means.
pub open spec fn is_meant(
    scope: Option<Seq<char>>,
    glob: Option<Seq<char>>,
    path: Seq<char>,
) -> bool {
    &&& scope matches Some(directory) ==> is_inside(directory, path)
    &&& glob matches Some(pattern) ==> fits(pattern, path)
}

/// The paths that a request keeps are those that it means.
pub proof fn requests_keep_what_they_mean(
    scope: Option<Seq<char>>,
    glob: Option<Seq<char>>,
    path: Seq<char>,
)
    ensures
        wanted(scope, glob, path) <==> is_meant(scope, glob, path),
{
    if scope is Some {
        scopes_hold_what_is_below_them(scope->Some_0, path);
    }
    if glob is Some {
        patterns_accept_what_fits(glob->Some_0, path);
    }
}

// ---------------------------------------------------------------------------------------------
// Paths
// ---------------------------------------------------------------------------------------------

/// Whether looks along a path found the way clear: an entry that is no link at each segment, or, where
/// the path may be missing, up to a first segment at which there is nothing.
pub open spec fn is_clear(segments: int, allow_missing: bool, probes: Seq<PathProbe>) -> bool {
    exists|n: int|
        {
            &&& 0 <= n <= segments
            &&& n <= probes.len()
            &&& forall|j: int| 0 <= j < n ==> #[trigger] probes[j] is Entry
            &&& n == segments || (allow_missing && n < probes.len() && #[trigger] probes[n] is Missing)
        }
}

proof fn lemma_clear_way(
    root: Seq<char>,
    segments: Seq<Seq<char>>,
    allow_missing: bool,
    probes: Seq<PathProbe>,
    i: int,
)
    requires
        0 <= i <= segments.len(),
        i <= probes.len(),
        forall|j: int| 0 <= j < i ==> #[trigger] probes[j] is Entry,
    ensures
        way_refusal(root, segments, allow_missing, probes, i) is None <==> is_clear(
            segments.len() as int,
            allow_missing,
            probes,
        ),
    decreases segments.len() - i,
{
    let total = segments.len() as int;
    if i == total {
        assert(is_clear(total, allow_missing, probes)) by {
            if i < probes.len() {
                assert(probes[i] is Entry || !(probes[i] is Entry));
            }
            lemma_clear_at(total, allow_missing, probes, i);
        }
    } else if i < probes.len() && probes[i] is Entry {
        lemma_clear_way(root, segments, allow_missing, probes, i + 1);
    } else if i < probes.len() && probes[i] is Missing && allow_missing {
        lemma_clear_at(total, allow_missing, probes, i);
    } else {
        if is_clear(total, allow_missing, probes) {
            let n = choose|n: int|
                {
                    &&& 0 <= n <= total
                    &&& n <= probes.len()
                    &&& forall|j: int| 0 <= j < n ==> #[trigger] probes[j] is Entry
                    &&& n == total || (allow_missing && n < probes.len()
                        && #[trigger] probes[n] is Missing)
                };
            if i < n {
                assert(probes[i] is Entry);
            } else if n < i {
                assert(probes[n] is Entry);
            }
        }
    }
}

proof fn lemma_clear_at(segments: int, allow_missing: bool, probes: Seq<PathProbe>, n: int)
    requires
        0 <= n <= segments,
        n <= probes.len(),
        forall|j: int| 0 <= j < n ==> #[trigger] probes[j] is Entry,
        n == segments || (allow_missing && n < probes.len() && probes[n] is Missing),
    ensures
        is_clear(segments, allow_missing, probes),
{
    let found = probes[n];
}

/// A path may be used exactly if it is a workspace path and the way to it is clear.
pub proof fn usable_paths_have_a_clear_way(
    root: Seq<char>,
    path: Seq<char>,
    allow_missing: bool,
    probes: Seq<PathProbe>,
)
    ensures
        reach_refusal(root, path, allow_missing, probes) is None <==> path_failure(path) is None
            && is_clear(pieces(path, '/').len() as int, allow_missing, probes),
{
    lemma_clear_way(root, pieces(path, '/'), allow_missing, probes, 0);
}

/// Whether a scope is the one that a request names: none for the whole workspace, which is also what
/// a single dot means.
pub open spec fn is_named_scope(
    path: Option<Seq<char>>,
    probes: Seq<PathProbe>,
    scope: Option<Seq<char>>,
) -> bool {
    if path is None || path == Some("."@) {
        scope is None
    } else {
        &&& scope == path
        &&& path_failure(path->Some_0) is None
        &&& is_clear(pieces(path->Some_0, '/').len() as int, false, probes)
    }
}

/// A request has a scope exactly if it names one that may be used.
pub proof fn scopes_are_the_named_ones(
    root: Seq<char>,
    path: Option<Seq<char>>,
    probes: Seq<PathProbe>,
)
    ensures
        match scope_of(root, path, probes) {
            Ok(scope) => is_named_scope(path, probes, scope),
            Err(_) => forall|scope: Option<Seq<char>>| !#[trigger] is_named_scope(
                path,
                probes,
                scope,
            ),
        },
{
    if path is Some {
        usable_paths_have_a_clear_way(root, path->Some_0, false, probes);
    }
}

// ---------------------------------------------------------------------------------------------
// Records
// ---------------------------------------------------------------------------------------------

/// Whether bytes are what is used of an output: all of it, or, where it was cut, what comes up to and
/// with the last delimiter.
pub open spec fn is_used(output: RgOutput, delimiter: u8, used: Seq<u8>) -> bool {
    if output.truncated {
        &&& used.is_prefix_of(output.stdout@)
        &&& used.len() > 0 ==> used.last() == delimiter
        &&& forall|i: int| used.len() <= i < output.stdout@.len() ==> output.stdout@[i] != delimiter
    } else {
        used == output.stdout@
    }
}

proof fn lemma_delimited(bytes: Seq<u8>, delimiter: u8)
    ensures
        delimited_len(bytes, delimiter) <= bytes.len(),
        delimited_len(bytes, delimiter) > 0 ==> bytes[delimited_len(bytes, delimiter) - 1] == delimiter,
        forall|i: int| delimited_len(bytes, delimiter) <= i < bytes.len() ==> bytes[i] != delimiter,
    decreases bytes.len(),
{
    if bytes.len() > 0 && bytes.last() != delimiter {
        lemma_delimited(bytes.drop_last(), delimiter);
        assert forall|i: int| delimited_len(bytes, delimiter) <= i < bytes.len() implies bytes[i]
            != delimiter by {
            if i < bytes.len() - 1 {
                assert(bytes.drop_last()[i] == bytes[i]);
            }
        }
    }
}

/// Only whole records of an output are used, and of a complete output all of them.
pub proof fn whole_records_are_used(output: RgOutput, delimiter: u8)
    ensures
        is_used(output, delimiter, whole_records(output, delimiter)),
{
    lemma_delimited(output.stdout@, delimiter);
    let n = delimited_len(output.stdout@, delimiter) as int;
    assert(output.stdout@.take(n) =~= output.stdout@.subrange(0, n));
}

/// Whether a listing names these paths: the bytes fall into entries at their zero bytes, and the
/// paths are the texts that the entries hold, one for each entry that is not empty, in order; `picks`
/// says which entries those are.
pub open spec fn names_paths(
    bytes: Seq<u8>,
    entries: Seq<Seq<u8>>,
    picks: Seq<int>,
    paths: Seq<Seq<char>>,
) -> bool {
    &&& bytes == joined(entries, seq![0u8])
    &&& forall|i: int| 0 <= i < entries.len() ==> !(#[trigger] entries[i]).contains(0u8)
    &&& picks.len() == paths.len()
    &&& forall|k: int|
        0 <= k < picks.len() ==> 0 <= #[trigger] picks[k] < entries.len() && entries[picks[k]]
            == encode_utf8(paths[k]) && paths[k].len() > 0
    &&& forall|j: int, k: int| 0 <= j < k < picks.len() ==> #[trigger] picks[j] < #[trigger] picks[k]
    &&& forall|i: int|
        0 <= i < entries.len() && (#[trigger] entries[i]).len() > 0 ==> picks.contains(i)
}

proof fn lemma_listed(entries: Seq<Seq<u8>>) -> (picks: Seq<int>)
    ensures
        listed_paths(entries) matches Ok(paths) ==> {
            &&& picks.len() == paths.len()
            &&& forall|k: int|
                0 <= k < picks.len() ==> 0 <= #[trigger] picks[k] < entries.len() && entries[picks[k]]
                    == encode_utf8(paths[k]) && paths[k].len() > 0
            &&& forall|j: int, k: int|
                0 <= j < k < picks.len() ==> #[trigger] picks[j] < #[trigger] picks[k]
            &&& forall|i: int|
                0 <= i < entries.len() && (#[trigger] entries[i]).len() > 0 ==> picks.contains(i)
            &&& forall|k: int| 0 <= k < paths.len() ==> path_failure(#[trigger] paths[k]) is None
        },
        listed_paths(entries) is Err ==> exists|i: int|
            0 <= i < entries.len() && is_bad_entry(#[trigger] entries[i]),
    decreases entries.len(),
{
    if entries.len() == 0 {
        Seq::empty()
    } else {
        let rest = entries.drop_last();
        let n = entries.len() - 1;
        let fewer = lemma_listed(rest);
        texts_read_back(entries[n]);
        match listed_paths(rest) {
            Err(_) => {
                let i = choose|i: int| 0 <= i < rest.len() && is_bad_entry(#[trigger] rest[i]);
                assert(is_bad_entry(entries[i]));
                fewer
            },
            Ok(paths) => if entries[n].len() == 0 {
                assert forall|i: int|
                    0 <= i < entries.len() && (#[trigger] entries[i]).len() > 0 implies fewer.contains(
                    i,
                ) by {
                    assert(rest[i] == entries[i]);
                }
                assert forall|k: int| 0 <= k < fewer.len() implies 0 <= #[trigger] fewer[k]
                    < entries.len() && entries[fewer[k]] == encode_utf8(paths[k]) && paths[k].len()
                    > 0 by {
                    assert(rest[fewer[k]] == entries[fewer[k]]);
                }
                fewer
            } else {
                match listed_path(entries[n]) {
                    Err(_) => {
                        assert(is_bad_entry(entries[n])) by {
                            assert forall|path: Seq<char>|
                                entries[n] == #[trigger] encode_utf8(path) implies path_failure(path)
                                is Some by {
                                assert(utf8_text(entries[n]) == Some(path));
                            }
                        }
                        fewer
                    },
                    Ok(path) => {
                        let picks = fewer.push(n);
                        let all = paths.push(path);
                        assert(utf8_text(entries[n]) == Some(path));
                        assert(entries[n] == encode_utf8(path));
                        if path.len() == 0 {
                            assert(encode_utf8(path).len() == 0);
                        }
                        assert forall|k: int| 0 <= k < picks.len() implies 0 <= #[trigger] picks[k]
                            < entries.len() && entries[picks[k]] == encode_utf8(all[k])
                            && all[k].len() > 0 by {
                            if k < fewer.len() {
                                assert(picks[k] == fewer[k]);
                                assert(rest[fewer[k]] == entries[fewer[k]]);
                            }
                        }
                        assert forall|i: int|
                            0 <= i < entries.len() && (#[trigger] entries[i]).len()
                                > 0 implies picks.contains(i) by {
                            if i < n {
                                assert(rest[i] == entries[i]);
                                let k = fewer.index_of(i);
                                assert(picks[k] == i);
                            } else {
                                assert(picks[fewer.len() as int] == i);
                            }
                        }
                        picks
                    },
                }
            },
        }
    }
}

/// Whether an entry of a listing names no workspace path.
pub open spec fn is_bad_entry(entry: Seq<u8>) -> bool {
    &&& entry.len() > 0
    &&& forall|path: Seq<char>| entry == #[trigger] encode_utf8(path) ==> path_failure(path) is Some
}

/// A listing is refused only for an entry that names no workspace path. Otherwise it gives the path of
/// each entry.
pub proof fn listings_name_every_entry(bytes: Seq<u8>)
    ensures
        match nul_separated_paths(bytes) {
            Ok(paths) => exists|entries: Seq<Seq<u8>>, picks: Seq<int>|
                #[trigger] names_paths(bytes, entries, picks, paths),
            Err(_) => exists|entries: Seq<Seq<u8>>, i: int|
                bytes == joined(entries, seq![0u8]) && 0 <= i < entries.len() && is_bad_entry(
                    #[trigger] entries[i],
                ),
        },
        nul_separated_paths(bytes) matches Ok(paths) ==> forall|k: int|
            0 <= k < paths.len() ==> path_failure(#[trigger] paths[k]) is None,
{
    let entries = pieces(bytes, 0u8);
    pieces_partition_the_text(bytes, 0u8);
    let picks = lemma_listed(entries);
    match nul_separated_paths(bytes) {
        Ok(paths) => {
            assert(names_paths(bytes, entries, picks, paths));
        },
        Err(_) => {
            let i = choose|i: int| 0 <= i < entries.len() && is_bad_entry(#[trigger] entries[i]);
            assert(bytes == joined(entries, seq![0u8]) && is_bad_entry(entries[i]));
        },
    }
}

// ---------------------------------------------------------------------------------------------
// Listing
// ---------------------------------------------------------------------------------------------

/// Whether paths in sorted order are those of a listing that a request means, each as often as it is
/// listed.
pub open spec fn is_selection(
    listed: Seq<Seq<char>>,
    scope: Option<Seq<char>>,
    glob: Option<Seq<char>>,
    found: Seq<Seq<char>>,
) -> bool {
    &&& is_sorted(found)
    &&& forall|p: Seq<char>| #[trigger]
        found.to_multiset().count(p) == (if is_meant(scope, glob, p) {
            listed.to_multiset().count(p)
        } else {
            0
        })
}

proof fn lemma_filter_count(s: Seq<Seq<char>>, keep: spec_fn(Seq<char>) -> bool, p: Seq<char>)
    ensures
        s.filter(keep).to_multiset().count(p) == (if keep(p) { s.to_multiset().count(p) } else { 0 }),
    decreases s.len(),
{
    broadcast use vstd::seq_lib::group_to_multiset_ensures;

    reveal(Seq::filter);
    if s.len() > 0 {
        let rest = s.drop_last();
        lemma_filter_count(rest, keep, p);
        assert(s =~= rest.push(s.last()));
        vstd::seq_lib::to_multiset_build(rest, s.last());
        vstd::seq_lib::to_multiset_build(rest.filter(keep), s.last());
    }
}

/// A listing answers exactly if the pattern and the scope may be used, ripgrep worked and every entry
/// names a workspace path. It gives the meant files in sorted order, the first ones where there are
/// more than the limit, and says so where any are left out.
pub proof fn a_listing_gives_the_meant_files(
    root: Seq<char>,
    glob: Option<Seq<char>>,
    path: Option<Seq<char>>,
    limit: nat,
    probes: Seq<PathProbe>,
    output: RgOutput,
)
    ensures
        match files_answer(root, glob, path, limit, probes, output) {
            Ok((paths, truncated)) => {
                &&& glob matches Some(pattern) ==> is_glob(pattern)
                &&& output.success
                &&& exists|
                    scope: Option<Seq<char>>,
                    used: Seq<u8>,
                    listed: Seq<Seq<char>>,
                    found: Seq<Seq<char>>,
                |
                    {
                        &&& #[trigger] is_named_scope(path, probes, scope)
                        &&& #[trigger] is_used(output, 0u8, used)
                        &&& nul_separated_paths(used) == Ok::<Seq<Seq<char>>, Refusal>(listed)
                        &&& #[trigger] is_selection(listed, scope, glob, found)
                        &&& if found.len() > limit {
                            paths == found.take(limit as int) && truncated
                        } else {
                            paths == found && truncated == output.truncated
                        }
                    }
            },
            Err(_) => {
                ||| glob matches Some(pattern) && !is_glob(pattern)
                ||| scope_of(root, path, probes) is Err
                ||| !output.success
                ||| nul_separated_paths(whole_records(output, 0u8)) is Err
            },
        },
{
    scopes_are_the_named_ones(root, path, probes);
    whole_records_are_used(output, 0u8);
    if files_answer(root, glob, path, limit, probes, output) is Ok {
        let scope = scope_of(root, path, probes)->Ok_0;
        let used = whole_records(output, 0u8);
        let listed = nul_separated_paths(used)->Ok_0;
        let keep = |candidate: Seq<char>| wanted(scope, glob, candidate);
        let found = sorted_texts(listed.filter(keep));
        sorted_order_keeps_the_texts(listed.filter(keep));
        assert forall|p: Seq<char>| #[trigger]
            found.to_multiset().count(p) == (if is_meant(scope, glob, p) {
                listed.to_multiset().count(p)
            } else {
                0
            }) by {
            lemma_filter_count(listed, keep, p);
            requests_keep_what_they_mean(scope, glob, p);
        }
        assert(is_selection(listed, scope, glob, found));
        assert(is_named_scope(path, probes, scope) && is_used(output, 0u8, used));
    }
}

// ---------------------------------------------------------------------------------------------
// Searching
// ---------------------------------------------------------------------------------------------

/// Whether ripgrep says a path so: as it is, or behind a dot and a separator.
pub open spec fn says_path(raw: Seq<char>, path: Seq<char>) -> bool {
    raw == "./"@ + path || (raw == path && !"./"@.is_prefix_of(path))
}

/// Whether an event is a match in the file at a path that a request means. Which line matched, where
/// in it and what it says does not matter.
pub open spec fn hits(
    scope: Option<Seq<char>>,
    glob: Option<Seq<char>>,
    event: EventView,
    path: Seq<char>,
) -> bool {
    &&& event.kind == Some("match"@)
    &&& event.path matches Some(raw) && says_path(raw, path)
    &&& is_meant(scope, glob, path)
}

/// Whether a text is what is returned of a matched line: the line without the line ending, whole where
/// it takes up to 1024 bytes, and otherwise as much of its beginning as fits in front of an ellipsis.
pub open spec fn is_fragment(matched: Seq<char>, text: Seq<char>) -> bool {
    exists|line: Seq<char>, ending: Seq<char>|
        {
            &&& matched == #[trigger] (line + ending)
            &&& forall|i: int| 0 <= i < ending.len() ==> ending[i] == '\r' || ending[i] == '\n'
            &&& line.len() > 0 ==> line.last() != '\r' && line.last() != '\n'
            &&& byte_len(line) <= 1024 ==> text == line
            &&& byte_len(line) > 1024 ==> exists|n: int|
                0 <= n < line.len() && byte_len(#[trigger] line.take(n)) <= 1021 < byte_len(
                    line.take(n + 1),
                ) && text == line.take(n).push('\u{2026}')
        }
}

/// Whether a match is what an event tells: its line, its place counted from one, and its text.
pub open spec fn tells(event: EventView, hit: MatchView) -> bool {
    &&& hit.line == (match event.line_number {
        Some(number) => number,
        None => 0,
    })
    &&& match event.start {
        Some(at) => hit.column == at + 1 || (at == u64::MAX && hit.column == u64::MAX),
        None => hit.column == 0,
    }
    &&& event.text matches Some(matched) && is_fragment(matched, hit.text)
}

/// Whether an event can be made sense of: it is no match, or it names a workspace path, and where the
/// request means that path it holds a text.
pub open spec fn is_sound(
    scope: Option<Seq<char>>,
    glob: Option<Seq<char>>,
    event: Result<EventView, Seq<char>>,
) -> bool {
    event matches Ok(view) && (view.kind == Some("match"@) ==> {
        &&& view.has_data
        &&& view.path matches Some(raw) && exists|path: Seq<char>| #[trigger]
            says_path(raw, path) && path_failure(path) is None
        &&& (exists|path: Seq<char>| hits(scope, glob, view, path)) ==> view.text is Some
    })
}

/// Whether an event is a match in a file that a request means.
pub open spec fn is_hit(
    scope: Option<Seq<char>>,
    glob: Option<Seq<char>>,
    event: Result<EventView, Seq<char>>,
) -> bool {
    event matches Ok(view) && exists|path: Seq<char>| hits(scope, glob, view, path)
}

/// Whether the matches are those of the first `m` events, one for each event that is a hit, in order;
/// `picks` says which events those are.
pub open spec fn are_hits(
    events: Seq<Result<EventView, Seq<char>>>,
    scope: Option<Seq<char>>,
    glob: Option<Seq<char>>,
    m: int,
    picks: Seq<int>,
    matches: Seq<MatchView>,
) -> bool {
    &&& 0 <= m <= events.len()
    &&& picks.len() == matches.len() <= 20
    &&& forall|k: int|
        0 <= k < picks.len() ==> 0 <= #[trigger] picks[k] < m && (events[picks[k]] matches Ok(event)
            && hits(scope, glob, event, matches[k].path) && tells(event, matches[k]))
    &&& forall|j: int, k: int| 0 <= j < k < picks.len() ==> #[trigger] picks[j] < #[trigger] picks[k]
    &&& forall|i: int| 0 <= i < m ==> is_sound(scope, glob, #[trigger] events[i])
    &&& forall|i: int| 0 <= i < m && is_hit(scope, glob, #[trigger] events[i]) ==> picks.contains(i)
}

/// Whether matches, with the word that there are more or not, answer a search whose events these are:
/// they are all hits, or the first twenty of more.
pub open spec fn answers_search(
    events: Seq<Result<EventView, Seq<char>>>,
    scope: Option<Seq<char>>,
    glob: Option<Seq<char>>,
    cut: bool,
    matches: Seq<MatchView>,
    truncated: bool,
) -> bool {
    exists|m: int, picks: Seq<int>|
        {
            &&& #[trigger] are_hits(events, scope, glob, m, picks, matches)
            &&& truncated == (cut || m < events.len())
            &&& m < events.len() ==> matches.len() == 20 && is_hit(scope, glob, events[m])
        }
}

proof fn lemma_stripped(raw: Seq<char>, path: Seq<char>)
    ensures
        says_path(raw, path) <==> path == without_prefix(raw, "./"@),
{
    let dot = "./"@;
    assert(dot.is_prefix_of(raw) <==> stands_at(raw, dot, 0)) by {
        if stands_at(raw, dot, 0) {
            assert(dot =~= raw.subrange(0, dot.len() as int));
        }
        if dot.is_prefix_of(raw) {
            assert(raw.subrange(0, dot.len() as int) =~= dot);
        }
    }
    if raw == dot + path {
        assert(dot.is_prefix_of(raw));
        assert(raw.skip(dot.len() as int) =~= path);
    }
    if dot.is_prefix_of(raw) {
        assert(raw =~= dot + raw.skip(dot.len() as int));
    }
}

proof fn lemma_trimmed(text: Seq<char>) -> (ending: Seq<char>)
    ensures
        ({
            let line = trimmed_end_of(text, |c: char| c == '\r' || c == '\n');
            &&& text == line + ending
            &&& forall|i: int| 0 <= i < ending.len() ==> ending[i] == '\r' || ending[i] == '\n'
            &&& line.len() > 0 ==> line.last() != '\r' && line.last() != '\n'
        }),
    decreases text.len(),
{
    let drop = |c: char| c == '\r' || c == '\n';
    if text.len() > 0 && drop(text.last()) {
        let fewer = lemma_trimmed(text.drop_last());
        let ending = fewer.push(text.last());
        assert(text =~= text.drop_last().push(text.last()));
        assert(text =~= trimmed_end_of(text, drop) + ending);
        ending
    } else {
        assert(text =~= text + Seq::<char>::empty());
        Seq::empty()
    }
}

proof fn lemma_fragment(matched: Seq<char>)
    ensures
        is_fragment(
            matched,
            fragment_text(trimmed_end_of(matched, |c: char| c == '\r' || c == '\n')),
        ),
{
    let line = trimmed_end_of(matched, |c: char| c == '\r' || c == '\n');
    let ending = lemma_trimmed(matched);
    fitting_chars_is_the_longest_prefix(line, 1021);
    if byte_len(line) > 1024 {
        let n = fitting_chars(line, 1021) as int;
        assert(line.take(line.len() as int) =~= line);
        assert(0 <= n < line.len() && byte_len(line.take(n)) <= 1021 < byte_len(line.take(n + 1)));
    }
    assert(matched == line + ending);
}

/// What the code makes of one event, in the words of the laws.
proof fn lemma_event(scope: Option<Seq<char>>, glob: Option<Seq<char>>, event: EventView)
    ensures
        match event_path(event) {
            Err(_) => !is_sound(scope, glob, Ok(event)),
            Ok(None) => is_sound(scope, glob, Ok(event)) && forall|path: Seq<char>|
                !#[trigger] hits(scope, glob, event, path),
            Ok(Some(path)) => {
                &&& wanted(scope, glob, path) <==> hits(scope, glob, event, path)
                &&& forall|other: Seq<char>| #[trigger] hits(scope, glob, event, other) ==> other == path
                &&& is_sound(scope, glob, Ok(event)) <==> (wanted(scope, glob, path) ==> event.text
                    is Some)
                &&& event_match(event, path) matches Ok(hit) ==> tells(event, hit) && hit.path == path
                &&& event_match(event, path) is Ok <==> event.text is Some
            },
        },
{
    if event.kind == Some("match"@) && event.path is Some {
        let raw = event.path->Some_0;
        let path = without_prefix(raw, "./"@);
        lemma_stripped(raw, path);
        requests_keep_what_they_mean(scope, glob, path);
        assert forall|other: Seq<char>| #[trigger] says_path(raw, other) implies other == path by {
            lemma_stripped(raw, other);
        }
        if event.text is Some {
            lemma_fragment(event.text->Some_0);
        }
        assert(path_refusal(path) is None <==> path_failure(path) is None);
        assert(wanted(scope, glob, path) <==> hits(scope, glob, event, path));
        if event.text is Some {
            assert(event_match(event, path) is Ok);
            let hit = event_match(event, path)->Ok_0;
            assert(is_fragment(event.text->Some_0, hit.text));
            assert(tells(event, hit));
        }
        if path_failure(path) is None && event.has_data {
            assert(is_sound(scope, glob, Ok(event)) <==> (wanted(scope, glob, path) ==> event.text is Some));
        } else {
            assert(!is_sound(scope, glob, Ok(event)));
        }
    }
}

proof fn lemma_search(
    events: Seq<Result<EventView, Seq<char>>>,
    scope: Option<Seq<char>>,
    glob: Option<Seq<char>>,
    i: int,
    found: Seq<MatchView>,
    picks: Seq<int>,
)
    requires
        are_hits(events, scope, glob, i, picks, found),
    ensures
        match matches_from(events, scope, glob, i, found) {
            Ok((matches, more)) => answers_search(events, scope, glob, false, matches, more),
            Err(_) => exists|k: int|
                0 <= k < events.len() && !is_sound(scope, glob, #[trigger] events[k]),
        },
    decreases events.len() - i,
{
    if i == events.len() {
    } else {
        match events[i] {
            Err(_) => {
                assert(!is_sound(scope, glob, events[i]));
            },
            Ok(event) => {
                lemma_event(scope, glob, event);
                match event_path(event) {
                    Err(_) => {
                        assert(!is_sound(scope, glob, events[i]));
                    },
                    Ok(None) => {
                        assert(are_hits(events, scope, glob, i + 1, picks, found));
                        lemma_search(events, scope, glob, i + 1, found, picks);
                    },
                    Ok(Some(path)) => {
                        if !wanted(scope, glob, path) {
                            assert(are_hits(events, scope, glob, i + 1, picks, found));
                            lemma_search(events, scope, glob, i + 1, found, picks);
                        } else if found.len() >= SEARCH_MATCH_LIMIT {
                            assert(hits(scope, glob, event, path));
                            assert(are_hits(events, scope, glob, i, picks, found));
                        } else {
                            match event_match(event, path) {
                                Err(_) => {
                                    assert(!is_sound(scope, glob, events[i]));
                                },
                                Ok(hit) => {
                                    let more = picks.push(i);
                                    let all = found.push(hit);
                                    assert forall|k: int| 0 <= k < more.len() implies 0
                                        <= #[trigger] more[k] < i + 1 && (events[more[k]] matches Ok(
                                        event,
                                    ) && hits(scope, glob, event, all[k].path) && tells(
                                        event,
                                        all[k],
                                    )) by {
                                        if k < picks.len() {
                                            assert(more[k] == picks[k]);
                                        }
                                    }
                                    assert forall|e: int|
                                        0 <= e < i + 1 && is_hit(
                                            scope,
                                            glob,
                                            #[trigger] events[e],
                                        ) implies more.contains(e) by {
                                        if e < i {
                                            let k = picks.index_of(e);
                                            assert(picks.contains(e));
                                            assert(more[k] == e);
                                        } else {
                                            assert(more[picks.len() as int] == e);
                                        }
                                    }
                                    assert(are_hits(events, scope, glob, i + 1, more, all));
                                    lemma_search(events, scope, glob, i + 1, all, more);
                                },
                            }
                        }
                    },
                }
            },
        }
    }
}

/// A search is refused only for an event that cannot be made sense of. Otherwise it returns one match
/// for each event that is a hit, with what the event tells, or the first twenty of them and the word
/// that there are more.
pub proof fn a_search_returns_every_hit(
    events: Seq<Result<EventView, Seq<char>>>,
    scope: Option<Seq<char>>,
    glob: Option<Seq<char>>,
    cut: bool,
)
    ensures
        match search_result(events, scope, glob, cut) {
            Ok((matches, truncated)) => answers_search(events, scope, glob, cut, matches, truncated),
            Err(_) => exists|k: int|
                0 <= k < events.len() && !is_sound(scope, glob, #[trigger] events[k]),
        },
{
    let none = Seq::<int>::empty();
    assert(are_hits(events, scope, glob, 0, none, Seq::empty()));
    lemma_search(events, scope, glob, 0, Seq::empty(), none);
    if matches_from(events, scope, glob, 0, Seq::empty()) is Ok {
        let (matches, more) = matches_from(events, scope, glob, 0, Seq::empty())->Ok_0;
        let (m, picks) = choose|m: int, picks: Seq<int>|
            {
                &&& #[trigger] are_hits(events, scope, glob, m, picks, matches)
                &&& more == (false || m < events.len())
                &&& m < events.len() ==> matches.len() == 20 && is_hit(scope, glob, events[m])
            };
        assert(are_hits(events, scope, glob, m, picks, matches));
    }
}

/// A search of the workspace answers only for a pattern that is not empty, a glob that may be used, a
/// scope that the request names and a run of ripgrep that did not complain; and it answers by the
/// events that the lines of the output hold.
pub proof fn a_search_answers_by_the_lines(
    root: Seq<char>,
    input: SearchInput,
    probes: Seq<PathProbe>,
    output: RgOutput,
)
    ensures
        match search_answer(root, input, probes, output) {
            Ok((matches, truncated)) => {
                &&& input.pattern@.len() > 0
                &&& opt_text(input.glob) matches Some(pattern) ==> is_glob(pattern)
                &&& output.success || output.stderr@.len() == 0
                &&& exists|
                    scope: Option<Seq<char>>,
                    used: Seq<u8>,
                    text: Seq<char>,
                    all: Seq<Seq<char>>,
                    ends: Seq<Seq<char>>,
                |
                    {
                        &&& #[trigger] is_named_scope(opt_text(input.path), probes, scope)
                        &&& #[trigger] is_used(output, 10u8, used)
                        &&& used == encode_utf8(text)
                        &&& #[trigger] consists_of(text, all, ends)
                        &&& answers_search(
                            Seq::new(all.len(), |i: int| event_of(all[i])),
                            scope,
                            opt_text(input.glob),
                            output.truncated,
                            matches,
                            truncated,
                        )
                    }
            },
            Err(_) => {
                ||| input.pattern@.len() == 0
                ||| opt_text(input.glob) matches Some(pattern) && !is_glob(pattern)
                ||| scope_of(root, opt_text(input.path), probes) is Err
                ||| !output.success && output.stderr@.len() > 0
                ||| utf8_text(whole_records(output, 10u8)) is None
                ||| search_result(
                    events_of(lines(utf8_text(whole_records(output, 10u8))->Some_0)),
                    scope_of(root, opt_text(input.path), probes)->Ok_0,
                    opt_text(input.glob),
                    output.truncated,
                ) is Err
            },
        },
{
    let used = whole_records(output, 10u8);
    whole_records_are_used(output, 10u8);
    scopes_are_the_named_ones(root, opt_text(input.path), probes);
    if search_answer(root, input, probes, output) is Ok {
        let scope = scope_of(root, opt_text(input.path), probes)->Ok_0;
        let text = utf8_text(used)->Some_0;
        let all = lines(text);
        texts_read_back(used);
        assert(used == encode_utf8(text));
        lines_are_the_whole_text(text);
        let ends = choose|ends: Seq<Seq<char>>| #[trigger] consists_of(text, all, ends);
        let events = Seq::new(all.len(), |i: int| event_of(all[i]));
        assert(events =~= events_of(all));
        a_search_returns_every_hit(events, scope, opt_text(input.glob), output.truncated);
        assert(is_named_scope(opt_text(input.path), probes, scope) && is_used(output, 10u8, used)
            && consists_of(text, all, ends));
    }
}

// ---------------------------------------------------------------------------------------------
// Reading
// ---------------------------------------------------------------------------------------------

/// A file may be read or patched exactly if its path is a workspace path, looks before and after the
/// listing found the way to it clear, and the listing worked, is complete and names the path.
pub proof fn visible_files_are_the_listed_ones(
    root: Seq<char>,
    path: Seq<char>,
    probes: Seq<PathProbe>,
    output: RgOutput,
    again: Seq<PathProbe>,
)
    ensures
        visible_file_refusal(root, path, probes, output, again) is None <==> {
            &&& path_failure(path) is None
            &&& is_clear(pieces(path, '/').len() as int, false, probes)
            &&& is_clear(pieces(path, '/').len() as int, false, again)
            &&& output.success
            &&& !output.truncated
            &&& nul_separated_paths(output.stdout@) matches Ok(listed) && listed.contains(path)
        },
{
    usable_paths_have_a_clear_way(root, path, false, probes);
    usable_paths_have_a_clear_way(root, path, false, again);
}

proof fn lemma_line_bytes(s: Seq<Seq<char>>)
    ensures
        line_bytes(s) == byte_len(chained(s)),
    decreases s.len(),
{
    if s.len() == 0 {
        assert(encode_utf8(Seq::<char>::empty()).len() == 0);
    } else {
        lemma_line_bytes(s.drop_last());
        lemma_encode_utf8_concat(chained(s.drop_last()), s.last());
    }
}

/// Whether an answer gives the lines that were asked for: from the first one on, without a gap, up to
/// the last one, the fortieth, or the last of the file; or as many of them as hold 32 KiB together. It
/// counts as truncated where a line is missing that was asked for, or that follows where no end was
/// named.
pub open spec fn gives_lines(input: ReadInput, all: Seq<Seq<char>>, answer: ReadView) -> bool {
    let start = match input.start_line {
        Some(start) => start as int,
        None => 1,
    };
    let most = if start + 39 <= usize::MAX { start + 39 } else { usize::MAX as int };
    let last = match input.end_line {
        Some(end) => if end < most { end as int } else { most },
        None => most,
    };
    let available = if last < all.len() { last } else { all.len() as int };
    let wanted = if available < start { 0 } else { available - start + 1 };
    let n = answer.lines.len() as int;
    &&& start >= 1
    &&& input.end_line matches Some(end) ==> end >= start
    &&& answer.path == input.path@
    &&& answer.start_line == start
    &&& n <= wanted
    &&& forall|i: int| 0 <= i < n ==> #[trigger] answer.lines[i] == all[start - 1 + i]
    &&& byte_len(chained(answer.lines)) <= 32768
    &&& n < wanted ==> byte_len(chained(answer.lines.push(all[start - 1 + n]))) > 32768
    &&& answer.truncated <==> {
        ||| n < wanted
        ||| input.end_line matches Some(end) && end > most
        ||| input.end_line is None && all.len() > most
    }
}

proof fn lemma_read_lines(input: ReadInput, sha256: Seq<char>, text: Seq<char>)
    requires
        first_line(input) > 0,
        last_requested_line(input) >= first_line(input),
    ensures
        gives_lines(input, lines(text), read_lines(input, sha256, text)),
{
    let all = lines(text);
    let start = first_line(input);
    let requested = last_requested_line(input);
    let end = if requested < last_allowed_line(start) {
        requested
    } else {
        last_allowed_line(start)
    };
    let window = line_window(all, start, end);
    let n = fitting_lines(window, READ_BYTE_LIMIT as nat, 0);
    assert(window.take(0) =~= Seq::empty());
    lemma_fitting_lines(window, READ_BYTE_LIMIT as nat, 0);
    lemma_line_bytes(window.take(n));
    if n < window.len() {
        lemma_line_bytes(window.take(n + 1));
        assert(window.take(n + 1) =~= window.take(n).push(all[start - 1 + n]));
    }
    assert(line_bytes(Seq::<Seq<char>>::empty()) == 0);
}

/// A read answers exactly for a visible regular file of up to 16 MiB that holds UTF-8 text without a
/// NUL, and a range that makes sense. It gives the lines that were asked for and the hash of the file.
pub proof fn a_read_gives_the_lines_asked_for(
    root: Seq<char>,
    input: ReadInput,
    probes: Seq<PathProbe>,
    output: RgOutput,
    again: Seq<PathProbe>,
    file: FileEvidence,
)
    ensures
        ({
            let readable = {
                &&& visible_file_refusal(root, input.path@, probes, output, again) is None
                &&& file.is_file
                &&& file.len <= 16777216
                &&& !file.bytes@.contains(0u8)
                &&& input.start_line != Some(0usize)
                &&& input.end_line matches Some(end) ==> end >= (match input.start_line {
                    Some(start) => start,
                    None => 1,
                })
            };
            match read_answer(root, input, probes, output, again, file) {
                Ok(answer) => {
                    &&& readable
                    &&& answer.sha256 == hex_of_bytes(sha256(file.bytes@))
                    &&& exists|text: Seq<char>, all: Seq<Seq<char>>, ends: Seq<Seq<char>>|
                        file.bytes@ == encode_utf8(text) && #[trigger] consists_of(text, all, ends)
                            && gives_lines(input, all, answer)
                },
                Err(_) => !readable || forall|text: Seq<char>|
                    file.bytes@ != #[trigger] encode_utf8(text),
            }
        }),
{
    texts_read_back(file.bytes@);
    if read_answer(root, input, probes, output, again, file) is Ok {
        let text = utf8_text(file.bytes@)->Some_0;
        assert(file.bytes@ == encode_utf8(text));
        lines_are_the_whole_text(text);
        let ends = choose|ends: Seq<Seq<char>>| #[trigger] consists_of(text, lines(text), ends);
        lemma_read_lines(input, hex_of_bytes(sha256(file.bytes@)), text);
        assert(consists_of(text, lines(text), ends));
    }
}

} // verus!
