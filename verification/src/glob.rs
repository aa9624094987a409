//! Glob patterns: `**` matches anything, `*` anything within a segment, `?` one character of it.
use vstd::prelude::*;

use crate::failure::{fail, Failure, FailureKind};
use crate::scan::{has_char, has_text, holds_text, pieces, split};
use crate::text::chars_of;

verus! {

/// One element of a glob pattern.
#[derive(Clone, Copy, Debug, PartialEq, Eq, Structural)]
pub enum GlobToken {
    /// Any sequence, with separators too.
    AnyPath,
    /// Any sequence within one path segment.
    AnySegment,
    /// Exactly one character other than `/`.
    AnyChar,
    /// This very character.
    Literal(char),
}

/// The elements of a pattern.
pub open spec fn glob_tokens(pattern: Seq<char>) -> Seq<GlobToken>
    decreases pattern.len(),
{
    if pattern.len() == 0 {
        Seq::empty()
    } else if pattern[0] == '*' && pattern.len() > 1 && pattern[1] == '*' {
        seq![GlobToken::AnyPath] + glob_tokens(pattern.skip(2))
    } else if pattern[0] == '*' {
        seq![GlobToken::AnySegment] + glob_tokens(pattern.skip(1))
    } else if pattern[0] == '?' {
        seq![GlobToken::AnyChar] + glob_tokens(pattern.skip(1))
    } else {
        seq![GlobToken::Literal(pattern[0])] + glob_tokens(pattern.skip(1))
    }
}

proof fn lemma_tokens_step(
    before: Seq<GlobToken>,
    rest: Seq<char>,
    token: GlobToken,
    behind: Seq<GlobToken>,
)
    requires
        glob_tokens(rest) == seq![token] + behind,
    ensures
        before + glob_tokens(rest) == before.push(token) + behind,
{
    assert(before + glob_tokens(rest) =~= before.push(token) + behind);
}

/// The elements of a pattern.
pub fn tokenize_glob(pattern: &[char]) -> (r: Vec<GlobToken>)
    ensures
        r@ == glob_tokens(pattern@),
{
    let mut tokens: Vec<GlobToken> = Vec::new();
    let mut index: usize = 0;
    assert(pattern@.skip(0) =~= pattern@);
    while index < pattern.len()
        invariant
            index <= pattern@.len(),
            glob_tokens(pattern@) == tokens@ + glob_tokens(pattern@.skip(index as int)),
        decreases pattern@.len() - index,
    {
        let ghost rest = pattern@.skip(index as int);
        let ghost before = tokens@;
        assert(rest.skip(1) =~= pattern@.skip(index + 1));
        let doubled = pattern[index] == '*' && index + 1 < pattern.len() && pattern[index + 1] == '*';
        let token: GlobToken = if doubled {
            GlobToken::AnyPath
        } else if pattern[index] == '*' {
            GlobToken::AnySegment
        } else if pattern[index] == '?' {
            GlobToken::AnyChar
        } else {
            GlobToken::Literal(pattern[index])
        };
        if doubled {
            assert(rest.skip(2) =~= pattern@.skip(index + 2));
            index = index + 2;
        } else {
            index = index + 1;
        }
        tokens.push(token);
        let ghost behind = glob_tokens(pattern@.skip(index as int));
        proof {
            lemma_tokens_step(before, rest, token, behind);
        }
    }
    assert(pattern@.skip(index as int).len() == 0);
    assert(tokens@ + glob_tokens(pattern@.skip(index as int)) =~= tokens@);
    tokens
}

/// Whether one element of a pattern can stand for this text.
pub open spec fn stands_for(token: GlobToken, part: Seq<char>) -> bool {
    match token {
        GlobToken::AnyPath => true,
        GlobToken::AnySegment => !part.contains('/'),
        GlobToken::AnyChar => part.len() == 1 && part[0] != '/',
        GlobToken::Literal(c) => part == seq![c],
    }
}

/// Whether a text can be cut into parts that the elements stand for, one each, in order.
pub open spec fn tokens_match(tokens: Seq<GlobToken>, s: Seq<char>) -> bool
    decreases tokens.len(),
{
    if tokens.len() == 0 {
        s.len() == 0
    } else {
        exists|k: int|
            0 <= k <= s.len() && stands_for(tokens[0], #[trigger] s.take(k)) && tokens_match(
                tokens.skip(1),
                s.skip(k),
            )
    }
}

/// The part of a path that a pattern is held against: a pattern without a separator sees the file
/// name only.
pub open spec fn glob_subject(pattern: Seq<char>, candidate: Seq<char>) -> Seq<char> {
    if pattern.contains('/') {
        candidate
    } else {
        pieces(candidate, '/').last()
    }
}

/// Whether a pattern matches a path.
pub open spec fn glob_accepts(pattern: Seq<char>, candidate: Seq<char>) -> bool {
    tokens_match(glob_tokens(pattern), glob_subject(pattern, candidate))
}

/// The verdict on a text as it follows from verdicts on what is behind it.
spec fn match_step(tokens: Seq<GlobToken>, s: Seq<char>) -> bool {
    let rest = tokens.skip(1);
    let more = s.len() > 0;
    match tokens[0] {
        GlobToken::AnyPath => tokens_match(rest, s) || (more && tokens_match(tokens, s.skip(1))),
        GlobToken::AnySegment => tokens_match(rest, s) || (more && s[0] != '/' && tokens_match(
            tokens,
            s.skip(1),
        )),
        GlobToken::AnyChar => more && s[0] != '/' && tokens_match(rest, s.skip(1)),
        GlobToken::Literal(c) => more && s[0] == c && tokens_match(rest, s.skip(1)),
    }
}

proof fn lemma_match_cut(tokens: Seq<GlobToken>, s: Seq<char>, k: int)
    requires
        tokens.len() > 0,
        0 <= k <= s.len(),
        stands_for(tokens[0], s.take(k)),
        tokens_match(tokens.skip(1), s.skip(k)),
    ensures
        tokens_match(tokens, s),
{
}

proof fn lemma_segment_part(whole: Seq<char>, part: Seq<char>, shift: int)
    requires
        0 <= shift,
        part.len() + shift <= whole.len(),
        !whole.contains('/'),
        forall|i: int| 0 <= i < part.len() ==> part[i] == whole[i + shift],
    ensures
        !part.contains('/'),
{
    if part.contains('/') {
        let i = choose|i: int| 0 <= i < part.len() && part[i] == '/';
        assert(whole[i + shift] == '/');
    }
}

proof fn lemma_match_forward(tokens: Seq<GlobToken>, s: Seq<char>)
    requires
        tokens.len() > 0,
        tokens_match(tokens, s),
    ensures
        match_step(tokens, s),
{
    let rest = tokens.skip(1);
    let token = tokens[0];
    let k = choose|k: int|
        0 <= k <= s.len() && stands_for(token, #[trigger] s.take(k)) && tokens_match(rest, s.skip(k));
    if k == 0 {
        assert(s.skip(0) =~= s);
    } else {
        let t = s.skip(1);
        assert(s.take(k)[0] == s[0]);
        assert(t.skip(k - 1) =~= s.skip(k));
        if token is AnyPath {
            lemma_match_cut(tokens, t, k - 1);
        } else if token is AnySegment {
            assert(s.take(k).contains(s.take(k)[0]));
            lemma_segment_part(s.take(k), t.take(k - 1), 1);
            lemma_match_cut(tokens, t, k - 1);
        } else {
            assert(s.take(k).len() == 1);
        }
    }
}

proof fn lemma_match_backward(tokens: Seq<GlobToken>, s: Seq<char>)
    requires
        tokens.len() > 0,
        match_step(tokens, s),
    ensures
        tokens_match(tokens, s),
{
    let rest = tokens.skip(1);
    let token = tokens[0];
    assert(s.skip(0) =~= s);
    if (token is AnyPath || token is AnySegment) {
        if tokens_match(rest, s) {
            assert(s.take(0) =~= Seq::<char>::empty());
            lemma_match_cut(tokens, s, 0);
        } else {
            let t = s.skip(1);
            let k = choose|k: int|
                0 <= k <= t.len() && stands_for(token, #[trigger] t.take(k)) && tokens_match(
                    rest,
                    t.skip(k),
                );
            assert(t.skip(k) =~= s.skip(k + 1));
            if token is AnySegment {
                let part = s.take(k + 1);
                if part.contains('/') {
                    let i = choose|i: int| 0 <= i < part.len() && part[i] == '/';
                    assert(t.take(k)[i - 1] == '/');
                }
            }
            lemma_match_cut(tokens, s, k + 1);
        }
    } else {
        if token is Literal {
            assert(s.take(1) =~= seq![token->0]);
        }
        lemma_match_cut(tokens, s, 1);
    }
}

/// One step of matching: how the verdict on a text follows from verdicts on what is behind it.
proof fn lemma_tokens_match_step(tokens: Seq<GlobToken>, s: Seq<char>)
    requires
        tokens.len() > 0,
    ensures
        tokens_match(tokens, s) == match_step(tokens, s),
{
    if tokens_match(tokens, s) {
        lemma_match_forward(tokens, s);
    }
    if match_step(tokens, s) {
        lemma_match_backward(tokens, s);
    }
}

/// Whether a pattern matches a path. The work grows with the product of the two lengths only: one
/// row of verdicts per element, filled from the back.
pub fn glob_matches(pattern: &str, candidate: &str) -> (r: bool)
    ensures
        r == glob_accepts(pattern@, candidate@),
{
    let subject = if has_char(pattern, '/') {
        chars_of(candidate)
    } else {
        let mut parts = split(candidate, '/');
        match parts.pop() {
            Some(name) => name,
            None => chars_of(candidate),
        }
    };
    let ghost s = glob_subject(pattern@, candidate@);
    let n: usize = subject.len();
    let pattern_chars = chars_of(pattern);
    let tokens = tokenize_glob(pattern_chars.as_slice());
    let ghost all = glob_tokens(pattern@);
    // `row[j]` is the verdict of the elements from `index` on about `subject[j..]`.
    let mut row: Vec<bool> = Vec::new();
    let mut j: usize = 0;
    let mut index: usize = tokens.len();
    while j < n
        invariant
            n == s.len(),
            index == all.len(),
            j <= n,
            row@.len() == j,
            forall|k: int| 0 <= k < j ==> row@[k] == tokens_match(all.skip(index as int), #[trigger] s.skip(k)),
        decreases n - j,
    {
        row.push(false);
        assert(s.skip(j as int).len() > 0);
        j = j + 1;
    }
    row.push(true);
    assert(s.skip(n as int).len() == 0);
    let width: usize = row.len();
    while index > 0
        invariant
            subject@ == s,
            n == s.len(),
            width == n + 1,
            tokens@ == all,
            index <= all.len(),
            row@.len() == n + 1,
            forall|k: int| 0 <= k <= n ==> row@[k] == tokens_match(all.skip(index as int), #[trigger] s.skip(k)),
        decreases index,
    {
        let token: GlobToken = tokens[index - 1];
        let ghost here = all.skip(index - 1);
        assert(here[0] == token);
        assert(here.skip(1) =~= all.skip(index as int));
        let mut next: Vec<bool> = Vec::new();
        let mut filled: usize = 0;
        while filled < width
            invariant
                filled <= width,
                next@.len() == filled,
            decreases width - filled,
        {
            next.push(false);
            filled = filled + 1;
        }
        let mut k: usize = width;
        while k > 0
            invariant
                subject@ == s,
                n == s.len(),
                row@.len() == n + 1,
                next@.len() == n + 1,
                k <= n + 1,
                here.len() > 0,
                here[0] == token,
                forall|i: int| 0 <= i <= n ==> row@[i] == tokens_match(here.skip(1), #[trigger] s.skip(i)),
                forall|i: int| k <= i <= n ==> next@[i] == tokens_match(here, #[trigger] s.skip(i)),
            decreases k,
        {
            k = k - 1;
            let more = k < n;
            proof {
                lemma_tokens_match_step(here, s.skip(k as int));
                if more {
                    assert(s.skip(k as int).skip(1) =~= s.skip(k + 1));
                    assert(s.skip(k as int)[0] == s[k as int]);
                }
                assert(row@[k as int] == tokens_match(here.skip(1), s.skip(k as int)));
            }
            let verdict = match token {
                GlobToken::AnyPath => row[k] || (more && next[k + 1]),
                GlobToken::AnySegment => row[k] || (more && subject[k] != '/' && next[k + 1]),
                GlobToken::AnyChar => more && subject[k] != '/' && row[k + 1],
                GlobToken::Literal(c) => more && subject[k] == c && row[k + 1],
            };
            next.set(k, verdict);
        }
        row = next;
        index = index - 1;
    }
    assert(all.skip(0) =~= all);
    assert(s.skip(0) =~= s);
    assert(row@[0] == tokens_match(all.skip(0), s.skip(0)));
    row[0]
}

/// Whether a pattern may be used at all.
pub open spec fn is_glob(glob: Seq<char>) -> bool {
    &&& glob.len() > 0
    &&& glob[0] != '!'
    &&& glob[0] != '/'
    &&& !holds_text(glob, ".."@)
}

/// The refusal of a pattern.
pub open spec fn glob_refusal() -> (FailureKind, Seq<char>) {
    (FailureKind::BadGlob, "glob must be a non-negated workspace-relative pattern"@)
}

/// Accepts a non-negated pattern relative to the workspace.
pub fn validate_glob(glob: &str) -> (r: Result<(), Failure>)
    ensures
        is_glob(glob@) <==> r is Ok,
        r matches Err(failure) ==> failure@ == glob_refusal(),
{
    let chars = chars_of(glob);
    if chars.len() == 0 || chars[0] == '!' || chars[0] == '/' || has_text(glob, "..") {
        return Err(
            fail(FailureKind::BadGlob, "glob must be a non-negated workspace-relative pattern"),
        );
    }
    Ok(())
}

// ---------------------------------------------------------------------------------------------
// Laws
// ---------------------------------------------------------------------------------------------

/// How many separators a text holds.
pub open spec fn separators(s: Seq<char>) -> nat
    decreases s.len(),
{
    if s.len() == 0 {
        0
    } else {
        separators(s.drop_last()) + if s.last() == '/' { 1nat } else { 0nat }
    }
}

/// How many separators a pattern asks for.
pub open spec fn token_separators(tokens: Seq<GlobToken>) -> nat
    decreases tokens.len(),
{
    if tokens.len() == 0 {
        0
    } else {
        token_separators(tokens.skip(1)) + if tokens[0] == GlobToken::Literal('/') {
            1nat
        } else {
            0nat
        }
    }
}

proof fn lemma_separators_concat(a: Seq<char>, b: Seq<char>)
    ensures
        separators(a + b) == separators(a) + separators(b),
    decreases b.len(),
{
    if b.len() == 0 {
        assert(a + b =~= a);
    } else {
        assert((a + b).drop_last() =~= a + b.drop_last());
        lemma_separators_concat(a, b.drop_last());
    }
}

proof fn lemma_no_separators(s: Seq<char>)
    requires
        !s.contains('/'),
    ensures
        separators(s) == 0,
    decreases s.len(),
{
    if s.len() > 0 {
        assert(s.contains(s.last()));
        assert forall|i: int| 0 <= i < s.drop_last().len() implies s.drop_last()[i] != '/' by {
            assert(s.contains(s[i]));
        }
        lemma_no_separators(s.drop_last());
    }
}

/// Only `**` crosses a separator: without it, a match has exactly the separators of the pattern.
pub proof fn only_double_stars_cross_separators(tokens: Seq<GlobToken>, s: Seq<char>)
    requires
        !tokens.contains(GlobToken::AnyPath),
        tokens_match(tokens, s),
    ensures
        separators(s) == token_separators(tokens),
    decreases tokens.len(),
{
    if tokens.len() > 0 {
        let token = tokens[0];
        let rest = tokens.skip(1);
        let k = choose|k: int|
            0 <= k <= s.len() && stands_for(token, #[trigger] s.take(k)) && tokens_match(rest, s.skip(k));
        assert(tokens.contains(token));
        assert forall|i: int| 0 <= i < rest.len() implies rest[i] != GlobToken::AnyPath by {
            assert(tokens.contains(tokens[i + 1]));
        }
        only_double_stars_cross_separators(rest, s.skip(k));
        assert(s =~= s.take(k) + s.skip(k));
        lemma_separators_concat(s.take(k), s.skip(k));
        match token {
            GlobToken::AnyPath => {},
            GlobToken::AnySegment => {
                lemma_no_separators(s.take(k));
            },
            GlobToken::AnyChar => {
                let part = s.take(k);
                assert forall|i: int| 0 <= i < part.len() implies part[i] != '/' by {}
                lemma_no_separators(part);
            },
            GlobToken::Literal(c) => {
                let part = s.take(k);
                assert(part.drop_last() =~= Seq::<char>::empty());
                assert(separators(part.drop_last()) == 0);
                assert(part.last() == c);
            },
        }
    }
}

/// A pattern without a separator judges a path by its file name alone.
pub proof fn plain_patterns_see_the_file_name_only(pattern: Seq<char>, a: Seq<char>, b: Seq<char>)
    requires
        !pattern.contains('/'),
        pieces(a, '/').last() == pieces(b, '/').last(),
    ensures
        glob_accepts(pattern, a) == glob_accepts(pattern, b),
{
}

} // verus!
