//! Patches: what they ask for, and what they come to on the files that are there.
use vstd::prelude::*;
use vstd::utf8::encode_utf8;

use crate::diff::{change_views, ChangeView, PreparedOperation};
use crate::encoding::{all_hex, ascii_lowered, count_text, decimal, decode_text, hex_of_bytes,
    is_hex, sha256, sha256_hex, texts_read_back, to_ascii_lower, utf8_text};
use crate::failure::{fail, fail_about, outcome, refusal, Failure, FailureKind, Refusal};
use crate::read::has_byte;
use crate::scan::{count_and_replace, cuts_settle_the_replacement, every_text_can_be_cut, is_cut,
    lemma_woven_len, occurrences, replaced, woven};
use crate::sorted::{insert_unique, is_sorted_set};
use crate::text::{chars_of, concat3, copy_bytes, same_text, string_of, texts};

verus! {

/// Operations that one patch holds at most.
pub const MAX_OPERATIONS: usize = 32;

/// One exact replacement in a text.
#[derive(Clone, Debug, PartialEq, Eq)]
pub struct Replacement {
    pub old: String,
    pub new: String,
    pub expected_occurrences: usize,
}

/// One operation of a patch.
#[derive(Clone, Debug, PartialEq, Eq)]
pub enum PatchOperation {
    Create { path: String, content: String },
    Update { path: String, preimage_sha256: String, replacements: Vec<Replacement> },
    Delete { path: String, preimage_sha256: String },
    Rename { from: String, to: String, preimage_sha256: String },
}

/// A patch: operations that are applied together or not at all.
#[derive(Clone, Debug, PartialEq, Eq)]
pub struct PatchInput {
    pub operations: Vec<PatchOperation>,
    pub purpose: String,
}

/// What came of a patch.
#[derive(Clone, Debug, PartialEq, Eq)]
pub struct PatchOutput {
    pub applied: bool,
    pub rejected: bool,
    pub changed_paths: Vec<String>,
    pub message: String,
}

/// A patch that fits the files that are there.
#[derive(Clone, Debug)]
pub struct PreparedPatch {
    pub purpose: String,
    pub operations: Vec<PreparedOperation>,
    pub diff: String,
}

/// A prepared patch over plain texts.
#[verifier::ext_equal]
pub struct PreparedView {
    pub purpose: Seq<char>,
    pub changes: Seq<ChangeView>,
    pub diff: Seq<char>,
}

impl View for PreparedPatch {
    type V = PreparedView;

    open spec fn view(&self) -> PreparedView {
        PreparedView {
            purpose: self.purpose@,
            changes: change_views(self.operations@),
            diff: self.diff@,
        }
    }
}

// ---------------------------------------------------------------------------------------------
// Claims and hashes
// ---------------------------------------------------------------------------------------------

/// Claims a path for one operation. Paths that differ only in ASCII case are the same path on some
/// file systems, so they count as one.
pub fn claim_path(paths: &mut Vec<String>, path: &str) -> (r: Result<(), Failure>)
    requires
        is_sorted_set(texts(old(paths)@)),
    ensures
        is_sorted_set(texts(final(paths)@)),
        texts(final(paths)@).to_set() == texts(old(paths)@).to_set().insert(ascii_lowered(path@)),
        refusal(r) == claim_refusal(texts(old(paths)@).to_set(), path@),
{
    let lowered = to_ascii_lower(path);
    if !insert_unique(paths, lowered.as_str()) {
        return Err(
            fail_about(
                FailureKind::DuplicatePath,
                "a path may occur only once per transaction: ",
                path,
            ),
        );
    }
    Ok(())
}

/// Why a path cannot be claimed beside the ones that are, if it cannot.
pub open spec fn claim_refusal(claimed: Set<Seq<char>>, path: Seq<char>) -> Option<Refusal> {
    if claimed.contains(ascii_lowered(path)) {
        Some(
            (
                FailureKind::DuplicatePath,
                "a path may occur only once per transaction: "@ + path,
            ),
        )
    } else {
        None
    }
}

/// Whether a text has the form of a SHA-256 hash.
pub open spec fn is_hash(hash: Seq<char>) -> bool {
    hash.len() == 64 && forall|i: int| 0 <= i < hash.len() ==> is_hex(#[trigger] hash[i])
}

/// The refusal of a text that is no hash.
pub open spec fn hash_form_refusal(hash: Seq<char>) -> Option<Refusal> {
    if is_hash(hash) {
        None
    } else {
        Some(
            (
                FailureKind::BadHash,
                "preimage_sha256 must contain exactly 64 hexadecimal characters"@,
            ),
        )
    }
}

/// Accepts a text that has the form of a SHA-256 hash.
pub fn validate_hash(hash: &str) -> (r: Result<(), Failure>)
    ensures
        refusal(r) == hash_form_refusal(hash@),
{
    let chars = chars_of(hash);
    if chars.len() != 64 || !all_hex(hash) {
        return Err(
            fail(
                FailureKind::BadHash,
                "preimage_sha256 must contain exactly 64 hexadecimal characters",
            ),
        );
    }
    Ok(())
}

/// The refusal of a file that is not the one whose hash was given.
pub open spec fn preimage_refusal(
    path: Seq<char>,
    bytes: Seq<u8>,
    expected: Seq<char>,
) -> Option<Refusal> {
    if hex_of_bytes(sha256(bytes)) == ascii_lowered(expected) {
        None
    } else {
        Some(
            (
                FailureKind::StalePreimage,
                "preimage hash mismatch for "@ + path + "; read the file again"@,
            ),
        )
    }
}

/// Accepts the bytes whose hash was given, in either case of its digits.
pub fn verify_hash(path: &str, bytes: &[u8], expected: &str) -> (r: Result<(), Failure>)
    ensures
        refusal(r) == preimage_refusal(path@, bytes@, expected@),
{
    let actual = sha256_hex(bytes);
    let lowered = to_ascii_lower(expected);
    if !same_text(actual.as_str(), lowered.as_str()) {
        return Err(
            Failure {
                kind: FailureKind::StalePreimage,
                message: concat3("preimage hash mismatch for ", path, "; read the file again"),
            },
        );
    }
    Ok(())
}

// ---------------------------------------------------------------------------------------------
// Contents
// ---------------------------------------------------------------------------------------------

/// The bytes of a text that a file may hold.
pub open spec fn content_bytes(content: Seq<char>) -> Result<Seq<u8>, Refusal> {
    if encode_utf8(content).contains(0u8) {
        Err((FailureKind::NulByte, "NUL bytes are forbidden"@))
    } else {
        Ok(encode_utf8(content))
    }
}

/// The bytes of a text that a file may hold.
pub fn text_bytes(content: &str) -> (r: Result<Vec<u8>, Failure>)
    ensures
        outcome(r) == content_bytes(content@),
{
    let bytes = content.as_bytes();
    if has_byte(bytes, 0u8) {
        return Err(fail(FailureKind::NulByte, "NUL bytes are forbidden"));
    }
    Ok(copy_bytes(bytes))
}

/// What one replacement makes of a text.
pub open spec fn replacement_result(path: Seq<char>, text: Seq<char>, change: Replacement) -> Result<
    Seq<char>,
    Refusal,
> {
    let found = occurrences(text, change.old@);
    if change.old@.len() == 0 || change.expected_occurrences == 0 {
        Err(
            (
                FailureKind::BadReplacement,
                "replacement old text and expected_occurrences must be non-zero"@,
            ),
        )
    } else if found != change.expected_occurrences {
        Err(
            (
                FailureKind::WrongOccurrences,
                "replacement in "@ + path + " expected "@ + decimal(
                    change.expected_occurrences as nat,
                ) + " occurrences but found "@ + decimal(found),
            ),
        )
    } else {
        Ok(replaced(text, change.old@, change.new@))
    }
}

/// What the first `n` replacements make of a text, one after another, or the first refusal.
pub open spec fn replacements_result(
    path: Seq<char>,
    text: Seq<char>,
    changes: Seq<Replacement>,
    n: nat,
) -> Result<Seq<char>, Refusal>
    decreases n,
{
    if n == 0 {
        Ok(text)
    } else {
        match replacements_result(path, text, changes, (n - 1) as nat) {
            Err(refusal) => Err(refusal),
            Ok(so_far) => replacement_result(path, so_far, changes[n - 1]),
        }
    }
}

/// What replacements make of a file.
pub open spec fn edited_bytes(path: Seq<char>, before: Seq<u8>, changes: Seq<Replacement>) -> Result<
    Seq<u8>,
    Refusal,
> {
    if changes.len() == 0 {
        Err((FailureKind::NoReplacement, "update requires at least one replacement"@))
    } else {
        match utf8_text(before) {
            None => Err((FailureKind::NotUtf8, "update target is not UTF-8"@)),
            Some(text) => match replacements_result(path, text, changes, changes.len()) {
                Err(refusal) => Err(refusal),
                Ok(after) => content_bytes(after),
            },
        }
    }
}

proof fn lemma_replacements_refused(
    path: Seq<char>,
    text: Seq<char>,
    changes: Seq<Replacement>,
    n: nat,
    m: nat,
)
    requires
        n <= m,
        replacements_result(path, text, changes, n) is Err,
    ensures
        replacements_result(path, text, changes, m) == replacements_result(path, text, changes, n),
    decreases m,
{
    if n < m {
        lemma_replacements_refused(path, text, changes, n, (m - 1) as nat);
    }
}

/// Applies one replacement to a text.
fn apply_replacement(path: &str, text: &str, change: &Replacement) -> (r: Result<String, Failure>)
    ensures
        outcome(r) == replacement_result(path@, text@, *change),
{
    let old = chars_of(change.old.as_str());
    if old.len() == 0 || change.expected_occurrences == 0 {
        return Err(
            fail(
                FailureKind::BadReplacement,
                "replacement old text and expected_occurrences must be non-zero",
            ),
        );
    }
    let whole = chars_of(text);
    let new = chars_of(change.new.as_str());
    let (found, after) = count_and_replace(whole.as_slice(), old.as_slice(), new.as_slice());
    if found != change.expected_occurrences {
        let mut message = concat3("replacement in ", path, " expected ");
        message.push_str(count_text(change.expected_occurrences).as_str());
        message.push_str(" occurrences but found ");
        message.push_str(count_text(found).as_str());
        return Err(Failure { kind: FailureKind::WrongOccurrences, message });
    }
    Ok(string_of(after.as_slice()))
}

/// Applies replacements to a file, one after another. Each has to find its text exactly as often
/// as it says.
pub fn apply_replacements(path: &str, before: &[u8], replacements: &[Replacement]) -> (r: Result<
    Vec<u8>,
    Failure,
>)
    ensures
        outcome(r) == edited_bytes(path@, before@, replacements@),
{
    if replacements.len() == 0 {
        return Err(fail(FailureKind::NoReplacement, "update requires at least one replacement"));
    }
    let mut text = match decode_text(before) {
        None => return Err(fail(FailureKind::NotUtf8, "update target is not UTF-8")),
        Some(text) => text,
    };
    let ghost original = text@;
    let mut i: usize = 0;
    while i < replacements.len()
        invariant
            i <= replacements@.len(),
            replacements@.len() > 0,
            utf8_text(before@) == Some(original),
            replacements_result(path@, original, replacements@, i as nat) == Ok::<
                Seq<char>,
                Refusal,
            >(text@),
        decreases replacements@.len() - i,
    {
        match apply_replacement(path, text.as_str(), &replacements[i]) {
            Err(failure) => {
                proof {
                    lemma_replacements_refused(
                        path@,
                        original,
                        replacements@,
                        (i + 1) as nat,
                        replacements@.len(),
                    );
                }
                return Err(failure);
            },
            Ok(after) => {
                text = after;
            },
        }
        i = i + 1;
    }
    text_bytes(text.as_str())
}

// ---------------------------------------------------------------------------------------------
// Laws
// ---------------------------------------------------------------------------------------------

/// Whether a replacement turns one text into another: taking the old text out from the left leaves
/// as many places as expected, and the new text stands in each of them.
pub open spec fn turns(before: Seq<char>, change: Replacement, after: Seq<char>) -> bool {
    &&& change.old@.len() > 0
    &&& change.expected_occurrences > 0
    &&& exists|cut: Seq<Seq<char>>| #[trigger]
        is_cut(before, change.old@, cut) && cut.len() == change.expected_occurrences + 1 && after
            == woven(cut, change.new@)
}

/// A replacement is accepted exactly if a search from the left finds its old text as often as it
/// says, and then the new text, whatever it is, stands in each of the places and nothing else is
/// different.
pub proof fn a_replacement_turns_every_occurrence(
    path: Seq<char>,
    text: Seq<char>,
    change: Replacement,
)
    ensures
        match replacement_result(path, text, change) {
            Ok(after) => {
                &&& turns(text, change, after)
                &&& after.len() == text.len() + change.expected_occurrences * (change.new@.len()
                    - change.old@.len())
                &&& forall|other: Seq<char>| #[trigger] turns(text, change, other) ==> other == after
            },
            Err(_) => forall|other: Seq<char>| !#[trigger] turns(text, change, other),
        },
{
    let old = change.old@;
    let new = change.new@;
    if old.len() > 0 {
        let cut = every_text_can_be_cut(text, old);
        cuts_settle_the_replacement(text, old, cut, new);
        lemma_woven_len(cut, old, new);
        assert forall|other: Seq<char>| #[trigger] turns(text, change, other) implies other == replaced(
            text,
            old,
            new,
        ) && occurrences(text, old) == change.expected_occurrences by {
            let another = choose|another: Seq<Seq<char>>| #[trigger]
                is_cut(text, old, another) && another.len() == change.expected_occurrences + 1
                    && other == woven(another, new);
            cuts_settle_the_replacement(text, old, another, new);
        }
    }
}

/// Whether `steps` leads from one text to another, one replacement after another.
pub open spec fn leads(steps: Seq<Seq<char>>, changes: Seq<Replacement>) -> bool {
    &&& steps.len() == changes.len() + 1
    &&& forall|i: int|
        0 <= i < changes.len() ==> turns(#[trigger] steps[i], changes[i], steps[i + 1])
}

proof fn lemma_replacements_lead(
    path: Seq<char>,
    text: Seq<char>,
    changes: Seq<Replacement>,
    n: nat,
) -> (steps: Seq<Seq<char>>)
    requires
        n <= changes.len(),
    ensures
        replacements_result(path, text, changes, n) matches Ok(after) ==> {
            &&& leads(steps, changes.take(n as int))
            &&& steps[0] == text
            &&& steps.last() == after
        },
    decreases n,
{
    if n == 0 {
        seq![text]
    } else {
        let fewer = lemma_replacements_lead(path, text, changes, (n - 1) as nat);
        match replacements_result(path, text, changes, (n - 1) as nat) {
            Ok(so_far) => {
                a_replacement_turns_every_occurrence(path, so_far, changes[n - 1]);
                match replacement_result(path, so_far, changes[n - 1]) {
                    Ok(after) => {
                        let steps = fewer.push(after);
                        let taken = changes.take(n as int);
                        assert forall|i: int| 0 <= i < taken.len() implies turns(
                            #[trigger] steps[i],
                            taken[i],
                            steps[i + 1],
                        ) by {
                            if i < n - 1 {
                                assert(turns(
                                    fewer[i],
                                    changes.take(n - 1)[i],
                                    fewer[i + 1],
                                ));
                            }
                        }
                        steps
                    },
                    Err(_) => fewer,
                }
            },
            Err(_) => fewer,
        }
    }
}

proof fn lemma_leading_replacements(
    path: Seq<char>,
    steps: Seq<Seq<char>>,
    changes: Seq<Replacement>,
    n: nat,
)
    requires
        leads(steps, changes),
        n <= changes.len(),
    ensures
        replacements_result(path, steps[0], changes, n) == Ok::<Seq<char>, Refusal>(
            steps[n as int],
        ),
    decreases n,
{
    if n > 0 {
        lemma_leading_replacements(path, steps, changes, (n - 1) as nat);
        assert(turns(steps[n - 1], changes[n - 1], steps[n - 1 + 1]));
        a_replacement_turns_every_occurrence(path, steps[n - 1], changes[n - 1]);
    }
}

/// An update is accepted exactly if the file holds a text, there is a replacement, each replacement
/// turns what the ones before it left into a next text, and the last text holds no NUL; and then
/// the file gets exactly that text.
pub proof fn an_update_makes_its_replacements(
    path: Seq<char>,
    before: Seq<u8>,
    changes: Seq<Replacement>,
)
    ensures
        edited_bytes(path, before, changes) matches Ok(after) ==> changes.len() > 0 && !after.contains(
            0u8,
        ) && exists|steps: Seq<Seq<char>>| #[trigger]
            leads(steps, changes) && before == encode_utf8(steps[0]) && after == encode_utf8(
                steps.last(),
            ),
        forall|steps: Seq<Seq<char>>| #[trigger]
            leads(steps, changes) && changes.len() > 0 && before == encode_utf8(steps[0])
                && !encode_utf8(steps.last()).contains(0u8) ==> edited_bytes(path, before, changes)
                == Ok::<Seq<u8>, Refusal>(encode_utf8(steps.last())),
{
    if edited_bytes(path, before, changes) is Ok {
        let text = utf8_text(before)->Some_0;
        texts_read_back(before);
        assert(before == encode_utf8(text));
        let steps = lemma_replacements_lead(path, text, changes, changes.len());
        assert(changes.take(changes.len() as int) =~= changes);
        assert(leads(steps, changes));
    }
    assert forall|steps: Seq<Seq<char>>| #[trigger]
        leads(steps, changes) && changes.len() > 0 && before == encode_utf8(steps[0])
            && !encode_utf8(steps.last()).contains(0u8) implies edited_bytes(path, before, changes)
        == Ok::<Seq<u8>, Refusal>(encode_utf8(steps.last())) by {
        texts_read_back(before);
        assert(utf8_text(before) == Some(steps[0]));
        lemma_leading_replacements(path, steps, changes, changes.len());
    }
}

} // verus!
