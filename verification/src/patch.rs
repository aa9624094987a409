//! Preparing and authorizing patches.
use vstd::prelude::*;
use vstd::utf8::encode_utf8;

use crate::diff::{change_views, diff_text, render_diff, Change, ChangeView, PreparedOperation};
use crate::edit::{an_update_makes_its_replacements, apply_replacements, claim_path, claim_refusal,
    content_bytes, edited_bytes, hash_form_refusal, is_hash, leads, preimage_refusal, text_bytes,
    validate_hash, verify_hash, PatchInput, PatchOperation, PatchOutput, PreparedPatch, PreparedView,
    MAX_OPERATIONS};
use crate::encoding::{ascii_lowered, hex_of_bytes, sha256, utf8_text};
use crate::executable::RgOutput;
use crate::failure::{fail, fail_about, outcome, refusal, Failure, FailureKind, Refusal};
use crate::paths::{path_refusal, texts_outcome};
use crate::read::{visible_bytes, visible_file_refusal, FileEvidence};
use crate::scan::{is_around, is_white, trim, trimmed, trimming_takes_white_space_off};
use crate::sorted::is_sorted_set;
use crate::text::{copy, texts};
use crate::transaction::{change_paths, made_path, touched_paths};
use crate::workspace::{new_path, reach_refusal, PathProbe, Workspace};

verus! {

// ---------------------------------------------------------------------------------------------
// Evidence
// ---------------------------------------------------------------------------------------------

/// What was found at the path of a file that is to be changed.
#[derive(Debug)]
pub struct SourceEvidence {
    pub probes: Vec<PathProbe>,
    pub listing: RgOutput,
    pub again: Vec<PathProbe>,
    pub file: FileEvidence,
}

/// What was found at a path where a file is to be made.
#[derive(Debug)]
pub struct TargetEvidence {
    pub probes: Vec<PathProbe>,
    pub exists: bool,
}

/// What was found at the paths of one operation.
#[derive(Debug)]
pub struct OperationEvidence {
    pub source: Option<SourceEvidence>,
    pub target: Option<TargetEvidence>,
}

/// The refusal of an operation at whose path nobody looked.
pub open spec fn not_inspected(path: Seq<char>) -> Refusal {
    (FailureKind::Uninspectable, "inspect "@ + path)
}

/// The bytes of a file that is to be changed, or why it may not be.
pub open spec fn source_bytes(
    root: Seq<char>,
    path: Seq<char>,
    evidence: Option<SourceEvidence>,
) -> Result<Seq<u8>, Refusal> {
    match evidence {
        None => Err(not_inspected(path)),
        Some(found) => visible_bytes(
            root,
            path,
            found.probes@,
            found.listing,
            found.again@,
            found.file,
        ),
    }
}

/// Why a file cannot be made at a path, if it cannot.
pub open spec fn target_refusal(
    root: Seq<char>,
    path: Seq<char>,
    evidence: Option<TargetEvidence>,
) -> Option<Refusal> {
    match evidence {
        None => Some(not_inspected(path)),
        Some(found) => match new_path(root, path, found.probes@, found.exists) {
            Err(refusal) => Some(refusal),
            Ok(_) => None,
        },
    }
}

// ---------------------------------------------------------------------------------------------
// Preparation
// ---------------------------------------------------------------------------------------------

/// Why a patch is refused before anything is looked at, if it is.
pub open spec fn input_refusal(input: PatchInput) -> Option<Refusal> {
    if input.operations@.len() == 0 || input.operations@.len() > MAX_OPERATIONS {
        Some(
            (
                FailureKind::BadPatchSize,
                "patch must contain between 1 and 32 operations"@,
            ),
        )
    } else if trimmed(input.purpose@).len() == 0 {
        Some((FailureKind::EmptyPurpose, "patch purpose must not be empty"@))
    } else {
        None
    }
}

/// The paths that an operation claims.
pub open spec fn operation_paths(operation: PatchOperation) -> Seq<Seq<char>> {
    match operation {
        PatchOperation::Create { path, content } => seq![path@],
        PatchOperation::Update { path, preimage_sha256, replacements } => seq![path@],
        PatchOperation::Delete { path, preimage_sha256 } => seq![path@],
        PatchOperation::Rename { from, to, preimage_sha256 } => seq![from@, to@],
    }
}

/// The hash of the file that an operation changes.
pub open spec fn operation_hash(operation: PatchOperation) -> Option<Seq<char>> {
    match operation {
        PatchOperation::Create { path, content } => None,
        PatchOperation::Update { path, preimage_sha256, replacements } => Some(preimage_sha256@),
        PatchOperation::Delete { path, preimage_sha256 } => Some(preimage_sha256@),
        PatchOperation::Rename { from, to, preimage_sha256 } => Some(preimage_sha256@),
    }
}

/// The claims after some paths were claimed too.
pub open spec fn with_claims(claimed: Set<Seq<char>>, paths: Seq<Seq<char>>) -> Set<Seq<char>>
    decreases paths.len(),
{
    if paths.len() == 0 {
        claimed
    } else {
        with_claims(claimed, paths.drop_last()).insert(ascii_lowered(paths.last()))
    }
}

/// Why paths cannot be claimed one after another, if they cannot.
pub open spec fn claims_refusal(claimed: Set<Seq<char>>, paths: Seq<Seq<char>>) -> Option<Refusal>
    decreases paths.len(),
{
    if paths.len() == 0 {
        None
    } else {
        match claims_refusal(claimed, paths.drop_last()) {
            Some(refusal) => Some(refusal),
            None => claim_refusal(with_claims(claimed, paths.drop_last()), paths.last()),
        }
    }
}

/// Why an operation is refused before its files are looked at, if it is: a path was claimed
/// before, or the hash is none.
pub open spec fn operation_refusal(
    claimed: Set<Seq<char>>,
    operation: PatchOperation,
) -> Option<Refusal> {
    match claims_refusal(claimed, operation_paths(operation)) {
        Some(refusal) => Some(refusal),
        None => match operation_hash(operation) {
            Some(hash) => hash_form_refusal(hash),
            None => None,
        },
    }
}

/// The bytes of a file that is to be changed, if they are the ones whose hash was given.
pub open spec fn checked_source(
    root: Seq<char>,
    path: Seq<char>,
    hash: Seq<char>,
    evidence: Option<SourceEvidence>,
) -> Result<Seq<u8>, Refusal> {
    match source_bytes(root, path, evidence) {
        Err(refusal) => Err(refusal),
        Ok(before) => match preimage_refusal(path, before, hash) {
            Some(refusal) => Err(refusal),
            None => Ok(before),
        },
    }
}

/// The change that an operation comes to on the files that are there.
pub open spec fn prepared_change(
    root: Seq<char>,
    operation: PatchOperation,
    evidence: OperationEvidence,
) -> Result<ChangeView, Refusal> {
    match operation {
        PatchOperation::Create { path, content } => match target_refusal(
            root,
            path@,
            evidence.target,
        ) {
            Some(refusal) => Err(refusal),
            None => match content_bytes(content@) {
                Err(refusal) => Err(refusal),
                Ok(after) => Ok(Change::Create { path: path@, after }),
            },
        },
        PatchOperation::Update { path, preimage_sha256, replacements } => match checked_source(
            root,
            path@,
            preimage_sha256@,
            evidence.source,
        ) {
            Err(refusal) => Err(refusal),
            Ok(before) => match edited_bytes(path@, before, replacements@) {
                Err(refusal) => Err(refusal),
                Ok(after) => Ok(Change::Update { path: path@, before, after }),
            },
        },
        PatchOperation::Delete { path, preimage_sha256 } => match checked_source(
            root,
            path@,
            preimage_sha256@,
            evidence.source,
        ) {
            Err(refusal) => Err(refusal),
            Ok(before) => Ok(Change::Delete { path: path@, before }),
        },
        PatchOperation::Rename { from, to, preimage_sha256 } => match checked_source(
            root,
            from@,
            preimage_sha256@,
            evidence.source,
        ) {
            Err(refusal) => Err(refusal),
            Ok(before) => match target_refusal(root, to@, evidence.target) {
                Some(refusal) => Err(refusal),
                None => Ok(Change::Rename { from: from@, to: to@, before }),
            },
        },
    }
}

/// The claims and changes of the first `n` operations, or the first refusal.
pub open spec fn prepared_changes(
    root: Seq<char>,
    operations: Seq<PatchOperation>,
    evidence: Seq<OperationEvidence>,
    n: nat,
) -> Result<(Set<Seq<char>>, Seq<ChangeView>), Refusal>
    decreases n,
{
    if n == 0 {
        Ok((Set::empty(), Seq::empty()))
    } else {
        match prepared_changes(root, operations, evidence, (n - 1) as nat) {
            Err(refusal) => Err(refusal),
            Ok((claimed, changes)) => match operation_refusal(claimed, operations[n - 1]) {
                Some(refusal) => Err(refusal),
                None => if n > evidence.len() {
                    Err(not_inspected(operation_paths(operations[n - 1])[0]))
                } else {
                    match prepared_change(root, operations[n - 1], evidence[n - 1]) {
                        Err(refusal) => Err(refusal),
                        Ok(change) => Ok(
                            (
                                with_claims(claimed, operation_paths(operations[n - 1])),
                                changes.push(change),
                            ),
                        ),
                    }
                },
            },
        }
    }
}

/// What a patch comes to on the files that are there, or why it is refused.
pub open spec fn prepared_patch(
    root: Seq<char>,
    input: PatchInput,
    evidence: Seq<OperationEvidence>,
) -> Result<PreparedView, Refusal> {
    match input_refusal(input) {
        Some(refusal) => Err(refusal),
        None => match prepared_changes(root, input.operations@, evidence, input.operations@.len()) {
            Err(refusal) => Err(refusal),
            Ok((claimed, changes)) => Ok(
                PreparedView {
                    purpose: trimmed(input.purpose@),
                    changes,
                    diff: diff_text(changes),
                },
            ),
        },
    }
}

/// Accepts a patch of a reasonable size that says what it is for.
pub fn validate_input(input: &PatchInput) -> (r: Result<(), Failure>)
    ensures
        refusal(r) == input_refusal(*input),
{
    if input.operations.len() == 0 || input.operations.len() > MAX_OPERATIONS {
        return Err(
            fail(FailureKind::BadPatchSize, "patch must contain between 1 and 32 operations"),
        );
    }
    let purpose = trim(input.purpose.as_str());
    if purpose.as_str().is_empty() {
        return Err(fail(FailureKind::EmptyPurpose, "patch purpose must not be empty"));
    }
    Ok(())
}

/// Claims the paths of an operation and checks the form of its hash, before its files are looked
/// at.
pub fn claim_operation(claimed: &mut Vec<String>, operation: &PatchOperation) -> (r: Result<
    (),
    Failure,
>)
    requires
        is_sorted_set(texts(old(claimed)@)),
    ensures
        is_sorted_set(texts(final(claimed)@)),
        refusal(r) == operation_refusal(texts(old(claimed)@).to_set(), *operation),
        r is Ok ==> texts(final(claimed)@).to_set() == with_claims(
            texts(old(claimed)@).to_set(),
            operation_paths(*operation),
        ),
{
    let ghost before = texts(claimed@).to_set();
    let ghost paths = operation_paths(*operation);
    match operation {
        PatchOperation::Create { path, content } => {
            proof {
                lemma_claim_one(before, path@);
            }
            claim_path(claimed, path.as_str())
        },
        PatchOperation::Update { path, preimage_sha256, replacements } => {
            proof {
                lemma_claim_one(before, path@);
            }
            match claim_path(claimed, path.as_str()) {
                Err(failure) => Err(failure),
                Ok(()) => validate_hash(preimage_sha256.as_str()),
            }
        },
        PatchOperation::Delete { path, preimage_sha256 } => {
            proof {
                lemma_claim_one(before, path@);
            }
            match claim_path(claimed, path.as_str()) {
                Err(failure) => Err(failure),
                Ok(()) => validate_hash(preimage_sha256.as_str()),
            }
        },
        PatchOperation::Rename { from, to, preimage_sha256 } => {
            proof {
                lemma_claim_two(before, from@, to@);
            }
            match claim_path(claimed, from.as_str()) {
                Err(failure) => return Err(failure),
                Ok(()) => {},
            }
            match claim_path(claimed, to.as_str()) {
                Err(failure) => return Err(failure),
                Ok(()) => {},
            }
            validate_hash(preimage_sha256.as_str())
        },
    }
}

proof fn lemma_claim_one(claimed: Set<Seq<char>>, path: Seq<char>)
    ensures
        claims_refusal(claimed, seq![path]) == claim_refusal(claimed, path),
        with_claims(claimed, seq![path]) == claimed.insert(ascii_lowered(path)),
{
    assert(seq![path].drop_last() =~= Seq::empty());
    assert(claims_refusal(claimed, seq![path].drop_last()) is None);
    assert(with_claims(claimed, seq![path].drop_last()) == claimed);
}

proof fn lemma_claim_two(claimed: Set<Seq<char>>, from: Seq<char>, to: Seq<char>)
    ensures
        claims_refusal(claimed, seq![from, to]) == (match claim_refusal(claimed, from) {
            Some(refusal) => Some(refusal),
            None => claim_refusal(claimed.insert(ascii_lowered(from)), to),
        }),
        with_claims(claimed, seq![from, to]) == claimed.insert(ascii_lowered(from)).insert(
            ascii_lowered(to),
        ),
{
    lemma_claim_one(claimed, from);
    assert(seq![from, to].drop_last() =~= seq![from]);
}

/// Prepares the patches of one workspace.
#[derive(Debug)]
pub struct PatchExecutor {
    pub workspace: Workspace,
}

impl PatchExecutor {
    /// An executor for one workspace.
    pub fn new(workspace: Workspace) -> (r: PatchExecutor)
        ensures
            r.workspace == workspace,
    {
        PatchExecutor { workspace }
    }

    /// The bytes of a file that is to be changed, if they are the ones whose hash was given.
    fn checked_source(&self, path: &str, hash: &str, evidence: &Option<SourceEvidence>) -> (r:
        Result<Vec<u8>, Failure>)
        ensures
            outcome(r) == checked_source(self.workspace.root@, path@, hash@, *evidence),
    {
        let found = match evidence {
            None => return Err(fail_about(FailureKind::Uninspectable, "inspect ", path)),
            Some(found) => found,
        };
        let before = match self.workspace.read_visible_bytes(
            path,
            found.probes.as_slice(),
            &found.listing,
            found.again.as_slice(),
            &found.file,
        ) {
            Err(failure) => return Err(failure),
            Ok(before) => before,
        };
        match verify_hash(path, before.as_slice(), hash) {
            Err(failure) => Err(failure),
            Ok(()) => Ok(before),
        }
    }

    /// Accepts a path where a file is to be made.
    fn check_target(&self, path: &str, evidence: &Option<TargetEvidence>) -> (r: Result<
        (),
        Failure,
    >)
        ensures
            refusal(r) == target_refusal(self.workspace.root@, path@, *evidence),
    {
        match evidence {
            None => Err(fail_about(FailureKind::Uninspectable, "inspect ", path)),
            Some(found) => match self.workspace.validate_new_path(
                path,
                found.probes.as_slice(),
                found.exists,
            ) {
                Err(failure) => Err(failure),
                Ok(_) => Ok(()),
            },
        }
    }

    /// The change that an operation comes to on the files that are there.
    pub fn prepare_operation(
        &self,
        operation: &PatchOperation,
        evidence: &OperationEvidence,
    ) -> (r: Result<PreparedOperation, Failure>)
        ensures
            outcome(r) == prepared_change(self.workspace.root@, *operation, *evidence),
    {
        match operation {
            PatchOperation::Create { path, content } => {
                match self.check_target(path.as_str(), &evidence.target) {
                    Err(failure) => return Err(failure),
                    Ok(()) => {},
                }
                match text_bytes(content.as_str()) {
                    Err(failure) => Err(failure),
                    Ok(after) => Ok(Change::Create { path: copy(path.as_str()), after }),
                }
            },
            PatchOperation::Update { path, preimage_sha256, replacements } => {
                let before = match self.checked_source(
                    path.as_str(),
                    preimage_sha256.as_str(),
                    &evidence.source,
                ) {
                    Err(failure) => return Err(failure),
                    Ok(before) => before,
                };
                match apply_replacements(
                    path.as_str(),
                    before.as_slice(),
                    replacements.as_slice(),
                ) {
                    Err(failure) => Err(failure),
                    Ok(after) => Ok(Change::Update { path: copy(path.as_str()), before, after }),
                }
            },
            PatchOperation::Delete { path, preimage_sha256 } => {
                match self.checked_source(
                    path.as_str(),
                    preimage_sha256.as_str(),
                    &evidence.source,
                ) {
                    Err(failure) => Err(failure),
                    Ok(before) => Ok(Change::Delete { path: copy(path.as_str()), before }),
                }
            },
            PatchOperation::Rename { from, to, preimage_sha256 } => {
                let before = match self.checked_source(
                    from.as_str(),
                    preimage_sha256.as_str(),
                    &evidence.source,
                ) {
                    Err(failure) => return Err(failure),
                    Ok(before) => before,
                };
                match self.check_target(to.as_str(), &evidence.target) {
                    Err(failure) => Err(failure),
                    Ok(()) => Ok(
                        Change::Rename { from: copy(from.as_str()), to: copy(to.as_str()), before },
                    ),
                }
            },
        }
    }

    /// What a patch comes to on the files that are there. `evidence` holds what was found for
    /// each operation, in order.
    pub fn prepare(&self, input: &PatchInput, evidence: &[OperationEvidence]) -> (r: Result<
        PreparedPatch,
        Failure,
    >)
        ensures
            outcome(r) == prepared_patch(self.workspace.root@, *input, evidence@),
    {
        match validate_input(input) {
            Err(failure) => return Err(failure),
            Ok(()) => {},
        }
        let mut claimed: Vec<String> = Vec::new();
        let mut operations: Vec<PreparedOperation> = Vec::new();
        let ghost root = self.workspace.root@;
        let mut i: usize = 0;
        proof {
            assert(texts(claimed@) =~= Seq::empty());
            assert(texts(claimed@).to_set() =~= Set::empty());
            assert(change_views(operations@) =~= Seq::empty());
        }
        while i < input.operations.len()
            invariant
                root == self.workspace.root@,
                input_refusal(*input) is None,
                i <= input.operations@.len(),
                is_sorted_set(texts(claimed@)),
                prepared_changes(root, input.operations@, evidence@, i as nat) == Ok::<
                    (Set<Seq<char>>, Seq<ChangeView>),
                    Refusal,
                >((texts(claimed@).to_set(), change_views(operations@))),
            decreases input.operations@.len() - i,
        {
            let operation = &input.operations[i];
            let ghost next = prepared_changes(root, input.operations@, evidence@, (i + 1) as nat);
            match claim_operation(&mut claimed, operation) {
                Err(failure) => {
                    proof {
                        lemma_preparation_refused(
                            root,
                            input.operations@,
                            evidence@,
                            (i + 1) as nat,
                            input.operations@.len(),
                        );
                    }
                    return Err(failure);
                },
                Ok(()) => {},
            }
            if i >= evidence.len() {
                proof {
                    lemma_preparation_refused(
                        root,
                        input.operations@,
                        evidence@,
                        (i + 1) as nat,
                        input.operations@.len(),
                    );
                }
                return Err(
                    fail_about(FailureKind::Uninspectable, "inspect ", first_path(operation)),
                );
            }
            match self.prepare_operation(operation, &evidence[i]) {
                Err(failure) => {
                    proof {
                        lemma_preparation_refused(
                            root,
                            input.operations@,
                            evidence@,
                            (i + 1) as nat,
                            input.operations@.len(),
                        );
                    }
                    return Err(failure);
                },
                Ok(change) => {
                    proof {
                        assert(change_views(operations@.push(change)) =~= change_views(
                            operations@,
                        ).push(change@));
                    }
                    operations.push(change);
                },
            }
            i = i + 1;
        }
        let diff = render_diff(operations.as_slice());
        Ok(PreparedPatch { purpose: trim(input.purpose.as_str()), operations, diff })
    }
}

/// The first path that an operation names.
fn first_path(operation: &PatchOperation) -> (r: &str)
    ensures
        r@ == operation_paths(*operation)[0],
{
    match operation {
        PatchOperation::Create { path, content } => path.as_str(),
        PatchOperation::Update { path, preimage_sha256, replacements } => path.as_str(),
        PatchOperation::Delete { path, preimage_sha256 } => path.as_str(),
        PatchOperation::Rename { from, to, preimage_sha256 } => from.as_str(),
    }
}

proof fn lemma_preparation_refused(
    root: Seq<char>,
    operations: Seq<PatchOperation>,
    evidence: Seq<OperationEvidence>,
    n: nat,
    m: nat,
)
    requires
        n <= m,
        prepared_changes(root, operations, evidence, n) is Err,
    ensures
        prepared_changes(root, operations, evidence, m) == prepared_changes(
            root,
            operations,
            evidence,
            n,
        ),
    decreases m,
{
    if n < m {
        lemma_preparation_refused(root, operations, evidence, n, (m - 1) as nat);
    }
}

// ---------------------------------------------------------------------------------------------
// Consent
// ---------------------------------------------------------------------------------------------

/// What is decided about a patch.
#[derive(Clone, Copy, Debug, PartialEq, Eq, Structural)]
pub enum PatchDecision {
    Apply,
    Reject,
}

/// A patch that waits for a decision.
#[derive(Debug)]
pub struct PendingPatch {
    pub purpose: String,
    pub diff: String,
}

/// What there is to show about patches.
#[derive(Debug)]
pub enum PatchUiEvent {
    Pending(PendingPatch),
    Applied { purpose: String, diff: String },
    Failed { purpose: String, message: String },
}

/// Whether patches are applied without asking.
#[derive(Debug)]
pub struct PatchGate {
    pub write_enabled: bool,
}

/// Whether a patch may go ahead, or has to be shown first.
#[derive(Debug)]
pub enum Authorization {
    Granted,
    Ask(PendingPatch),
}

impl PatchGate {
    /// A gate that asks.
    pub fn new() -> (r: PatchGate)
        ensures
            !r.write_enabled,
    {
        PatchGate { write_enabled: false }
    }

    /// Whether patches are applied without asking.
    pub fn write_enabled(&self) -> (r: bool)
        ensures
            r == self.write_enabled,
    {
        self.write_enabled
    }

    /// Settles whether patches are applied without asking.
    pub fn set_write_enabled(&mut self, enabled: bool)
        ensures
            final(self).write_enabled == enabled,
    {
        self.write_enabled = enabled;
    }

    /// Lets a patch go ahead, or has it shown with its purpose and diff.
    pub fn authorize(&self, purpose: &str, diff: &str) -> (r: Authorization)
        ensures
            match r {
                Authorization::Granted => self.write_enabled,
                Authorization::Ask(pending) => !self.write_enabled && pending.purpose@ == purpose@
                    && pending.diff@ == diff@,
            },
    {
        if self.write_enabled {
            Authorization::Granted
        } else {
            Authorization::Ask(PendingPatch { purpose: copy(purpose), diff: copy(diff) })
        }
    }
}

// ---------------------------------------------------------------------------------------------
// A patch call
// ---------------------------------------------------------------------------------------------

/// How far a patch call has come.
#[derive(Clone, Copy, Debug, PartialEq, Eq, Structural)]
pub enum CallStage {
    /// The patch has to be prepared.
    Proposing,
    /// The prepared patch has been shown; a decision has to come.
    Asking,
    /// The patch has to be prepared again, from a new look at the files.
    Renewing,
    /// The patch has to be carried out.
    Applying,
    Finished,
}

/// A patch call on its way from the proposal to the answer.
#[derive(Debug)]
pub struct PatchCall {
    pub stage: CallStage,
    /// Whether the patch may be applied.
    pub consent: bool,
    /// The patch as it was prepared last.
    pub proposal: Option<PreparedPatch>,
    /// What there is to show.
    pub event: Option<PatchUiEvent>,
    pub answer: Option<Result<PatchOutput, Failure>>,
}

/// A patch output over plain texts.
#[verifier::ext_equal]
pub struct OutputView {
    pub applied: bool,
    pub rejected: bool,
    pub changed_paths: Seq<Seq<char>>,
    pub message: Seq<char>,
}

impl View for PatchOutput {
    type V = OutputView;

    open spec fn view(&self) -> OutputView {
        OutputView {
            applied: self.applied,
            rejected: self.rejected,
            changed_paths: texts(self.changed_paths@),
            message: self.message@,
        }
    }
}

/// What there is to show, over plain texts.
pub enum EventView {
    Pending { purpose: Seq<char>, diff: Seq<char> },
    Applied { purpose: Seq<char>, diff: Seq<char> },
    Failed { purpose: Seq<char>, message: Seq<char> },
}

/// What there is to show, over plain texts.
pub open spec fn event_view(event: Option<PatchUiEvent>) -> Option<EventView> {
    match event {
        None => None,
        Some(PatchUiEvent::Pending(pending)) => Some(
            EventView::Pending { purpose: pending.purpose@, diff: pending.diff@ },
        ),
        Some(PatchUiEvent::Applied { purpose, diff }) => Some(
            EventView::Applied { purpose: purpose@, diff: diff@ },
        ),
        Some(PatchUiEvent::Failed { purpose, message }) => Some(
            EventView::Failed { purpose: purpose@, message: message@ },
        ),
    }
}

/// A patch call over plain texts.
#[verifier::ext_equal]
pub struct CallView {
    pub stage: CallStage,
    pub consent: bool,
    pub proposal: Option<PreparedView>,
    pub event: Option<EventView>,
    pub answer: Option<Result<OutputView, Refusal>>,
}

impl View for PatchCall {
    type V = CallView;

    open spec fn view(&self) -> CallView {
        CallView {
            stage: self.stage,
            consent: self.consent,
            proposal: match self.proposal {
                Some(patch) => Some(patch@),
                None => None,
            },
            event: event_view(self.event),
            answer: match self.answer {
                Some(answer) => Some(outcome(answer)),
                None => None,
            },
        }
    }
}

/// The answer to a rejected patch.
pub open spec fn rejected_output() -> OutputView {
    OutputView {
        applied: false,
        rejected: true,
        changed_paths: Seq::empty(),
        message: "user rejected the pending patch"@,
    }
}

/// The answer to an applied patch.
pub open spec fn applied_output(changed_paths: Seq<Seq<char>>) -> OutputView {
    OutputView {
        applied: true,
        rejected: false,
        changed_paths,
        message: "patch transaction applied"@,
    }
}

impl CallView {
    /// The call with an answer.
    pub open spec fn answered(self, answer: Result<OutputView, Refusal>) -> CallView {
        CallView { stage: CallStage::Finished, answer: Some(answer), ..self }
    }
}

/// A call after the patch was prepared for the first time.
pub open spec fn proposed(
    call: CallView,
    prepared: Result<PreparedView, Refusal>,
    write_enabled: bool,
) -> CallView {
    match prepared {
        Err(refusal) => call.answered(Err(refusal)),
        Ok(patch) => if write_enabled {
            CallView {
                stage: CallStage::Renewing,
                consent: true,
                proposal: Some(patch),
                ..call
            }
        } else {
            CallView {
                stage: CallStage::Asking,
                proposal: Some(patch),
                event: Some(
                    EventView::Pending { purpose: patch.purpose, diff: patch.diff },
                ),
                ..call
            }
        },
    }
}

/// A call after a decision, or after nobody will decide any more.
pub open spec fn decided(call: CallView, decision: Option<PatchDecision>) -> CallView {
    match decision {
        None => call.answered(Err((FailureKind::Cancelled, "pending patch was cancelled"@))),
        Some(PatchDecision::Reject) => call.answered(Ok(rejected_output())),
        Some(PatchDecision::Apply) => CallView {
            stage: CallStage::Renewing,
            consent: true,
            ..call
        },
    }
}

/// A call after the patch was prepared again.
pub open spec fn renewed(call: CallView, prepared: Result<PreparedView, Refusal>) -> CallView {
    match prepared {
        Err(refusal) => call.answered(Err(refusal)),
        Ok(patch) => CallView { stage: CallStage::Applying, proposal: Some(patch), ..call },
    }
}

/// A call after the patch was carried out, or failed to be.
pub open spec fn concluded(call: CallView, result: Result<Seq<Seq<char>>, Refusal>) -> CallView {
    match call.proposal {
        None => call,
        Some(patch) => match result {
            Ok(changed_paths) => CallView {
                event: Some(EventView::Applied { purpose: patch.purpose, diff: patch.diff }),
                ..call.answered(Ok(applied_output(changed_paths)))
            },
            Err(refusal) => CallView {
                event: Some(EventView::Failed { purpose: patch.purpose, message: refusal.1 }),
                ..call.answered(Err(refusal))
            },
        },
    }
}

impl PatchCall {
    /// Whether the call is in order: a patch that is renewed or applied has consent, one that is
    /// applied is prepared, and a finished call has an answer.
    pub open spec fn wf(&self) -> bool {
        &&& self.stage == CallStage::Renewing || self.stage == CallStage::Applying ==> self.consent
        &&& self.stage == CallStage::Applying || self.stage == CallStage::Asking
            ==> self.proposal is Some
        &&& self.stage == CallStage::Proposing || self.stage == CallStage::Asking ==> !self.consent
        &&& self.stage == CallStage::Finished <==> self.answer is Some
    }

    /// A new call.
    pub fn new() -> (r: PatchCall)
        ensures
            r.wf(),
            r@.stage == CallStage::Proposing,
            !r@.consent,
            r@.proposal is None,
            r@.event is None,
            r@.answer is None,
    {
        PatchCall {
            stage: CallStage::Proposing,
            consent: false,
            proposal: None,
            event: None,
            answer: None,
        }
    }

    /// Prepares the patch for the first time and asks for consent where it is needed.
    pub fn propose(
        &mut self,
        executor: &PatchExecutor,
        gate: &PatchGate,
        input: &PatchInput,
        evidence: &[OperationEvidence],
    )
        requires
            old(self).wf(),
            old(self).stage == CallStage::Proposing,
        ensures
            final(self).wf(),
            final(self)@ == proposed(
                old(self)@,
                prepared_patch(executor.workspace.root@, *input, evidence@),
                gate.write_enabled,
            ),
    {
        match executor.prepare(input, evidence) {
            Err(failure) => {
                self.stage = CallStage::Finished;
                self.answer = Some(Err(failure));
            },
            Ok(patch) => {
                match gate.authorize(patch.purpose.as_str(), patch.diff.as_str()) {
                    Authorization::Granted => {
                        self.stage = CallStage::Renewing;
                        self.consent = true;
                    },
                    Authorization::Ask(pending) => {
                        self.stage = CallStage::Asking;
                        self.event = Some(PatchUiEvent::Pending(pending));
                    },
                }
                self.proposal = Some(patch);
            },
        }
    }

    /// Takes the decision about the shown patch; none comes where nobody will decide any more.
    pub fn decide(&mut self, decision: Option<PatchDecision>)
        requires
            old(self).wf(),
            old(self).stage == CallStage::Asking,
        ensures
            final(self).wf(),
            final(self)@ == decided(old(self)@, decision),
    {
        match decision {
            None => {
                self.stage = CallStage::Finished;
                self.answer = Some(
                    Err(fail(FailureKind::Cancelled, "pending patch was cancelled")),
                );
            },
            Some(PatchDecision::Reject) => {
                let output = PatchOutput {
                    applied: false,
                    rejected: true,
                    changed_paths: Vec::new(),
                    message: copy("user rejected the pending patch"),
                };
                assert(texts(output.changed_paths@) =~= Seq::empty());
                self.stage = CallStage::Finished;
                self.answer = Some(Ok(output));
            },
            Some(PatchDecision::Apply) => {
                self.stage = CallStage::Renewing;
                self.consent = true;
            },
        }
    }

    /// Prepares the patch again, from a new look at the files. A proposal that has gone stale in
    /// the meantime fails here.
    pub fn renew(
        &mut self,
        executor: &PatchExecutor,
        input: &PatchInput,
        evidence: &[OperationEvidence],
    )
        requires
            old(self).wf(),
            old(self).stage == CallStage::Renewing,
        ensures
            final(self).wf(),
            final(self)@ == renewed(
                old(self)@,
                prepared_patch(executor.workspace.root@, *input, evidence@),
            ),
    {
        match executor.prepare(input, evidence) {
            Err(failure) => {
                self.stage = CallStage::Finished;
                self.answer = Some(Err(failure));
            },
            Ok(patch) => {
                self.stage = CallStage::Applying;
                self.proposal = Some(patch);
            },
        }
    }

    /// Hands the changes out that have to be carried out.
    pub fn take_operations(&mut self) -> (r: Vec<PreparedOperation>)
        requires
            old(self).wf(),
            old(self).stage == CallStage::Applying,
        ensures
            final(self).wf(),
            change_views(r@) == old(self)@.proposal->Some_0.changes,
            final(self)@ == (CallView {
                proposal: Some(
                    PreparedView {
                        changes: Seq::empty(),
                        ..old(self)@.proposal->Some_0
                    },
                ),
                ..old(self)@
            }),
    {
        let mut operations: Vec<PreparedOperation> = Vec::new();
        assert(change_views(operations@) =~= Seq::empty());
        match &mut self.proposal {
            None => {},
            Some(patch) => {
                core::mem::swap(&mut patch.operations, &mut operations);
            },
        }
        operations
    }

    /// Takes what came of carrying the patch out.
    pub fn conclude(&mut self, result: Result<Vec<String>, Failure>)
        requires
            old(self).wf(),
            old(self).stage == CallStage::Applying,
        ensures
            final(self).wf(),
            final(self)@ == concluded(old(self)@, texts_outcome(result)),
    {
        match &self.proposal {
            None => {},
            Some(patch) => {
                let purpose = copy(patch.purpose.as_str());
                match result {
                    Ok(changed_paths) => {
                        let diff = copy(patch.diff.as_str());
                        self.event = Some(PatchUiEvent::Applied { purpose, diff });
                        self.answer = Some(
                            Ok(
                                PatchOutput {
                                    applied: true,
                                    rejected: false,
                                    changed_paths,
                                    message: copy("patch transaction applied"),
                                },
                            ),
                        );
                    },
                    Err(failure) => {
                        let message = copy(failure.message.as_str());
                        self.event = Some(PatchUiEvent::Failed { purpose, message });
                        self.answer = Some(Err(failure));
                    },
                }
                self.stage = CallStage::Finished;
            },
        }
    }
}

// ---------------------------------------------------------------------------------------------
// Laws
// ---------------------------------------------------------------------------------------------

/// The paths with their ASCII capitals made small.
pub open spec fn lowered(paths: Seq<Seq<char>>) -> Seq<Seq<char>> {
    paths.map_values(|p: Seq<char>| ascii_lowered(p))
}

proof fn lemma_claims(claimed: Set<Seq<char>>, before: Seq<Seq<char>>, paths: Seq<Seq<char>>)
    requires
        claims_refusal(claimed, paths) is None,
        claimed == before.to_set(),
        before.no_duplicates(),
    ensures
        with_claims(claimed, paths) == (before + lowered(paths)).to_set(),
        (before + lowered(paths)).no_duplicates(),
    decreases paths.len(),
{
    if paths.len() == 0 {
        assert(before + lowered(paths) =~= before);
    } else {
        lemma_claims(claimed, before, paths.drop_last());
        let so_far = before + lowered(paths.drop_last());
        let last = ascii_lowered(paths.last());
        let all = before + lowered(paths);
        assert(all =~= so_far.push(last));
        assert(!so_far.to_set().contains(last));
        assert(!so_far.contains(last));
        assert(all.to_set() =~= so_far.to_set().insert(last)) by {
            assert forall|p: Seq<char>|
                all.to_set().contains(p) <==> so_far.to_set().insert(last).contains(p) by {
                if so_far.contains(p) {
                    assert(all[so_far.index_of(p)] == p);
                }
                if p == last {
                    assert(all[so_far.len() as int] == p);
                }
                if all.contains(p) && p != last {
                    let i = all.index_of(p);
                    assert(so_far[i] == p);
                }
            }
        }
    }
}

/// All paths in one patch are distinct, also where only the case of ASCII letters tells them
/// apart, and there is one change for each operation, at the paths of the operation.
pub proof fn prepared_paths_are_distinct(
    root: Seq<char>,
    operations: Seq<PatchOperation>,
    evidence: Seq<OperationEvidence>,
    n: nat,
)
    requires
        n <= operations.len(),
        prepared_changes(root, operations, evidence, n) is Ok,
    ensures
        ({
            let (claimed, changes) = prepared_changes(root, operations, evidence, n)->Ok_0;
            &&& changes.len() == n
            &&& lowered(touched_paths(changes)).no_duplicates()
            &&& claimed == lowered(touched_paths(changes)).to_set()
            &&& forall|i: int|
                0 <= i < n ==> change_paths(#[trigger] changes[i]) == operation_paths(operations[i])
        }),
    decreases n,
{
    let (claimed, changes) = prepared_changes(root, operations, evidence, n)->Ok_0;
    if n == 0 {
        assert(touched_paths(changes) =~= Seq::empty());
        assert(lowered(touched_paths(changes)) =~= Seq::empty());
        assert(lowered(touched_paths(changes)).to_set() =~= Set::empty());
    } else {
        prepared_paths_are_distinct(root, operations, evidence, (n - 1) as nat);
        let (earlier, fewer) = prepared_changes(root, operations, evidence, (n - 1) as nat)->Ok_0;
        assert(changes.drop_last() =~= fewer);
        let paths = operation_paths(operations[n - 1]);
        assert(change_paths(changes.last()) == paths);
        lemma_claims(earlier, lowered(touched_paths(fewer)), paths);
        assert(lowered(touched_paths(changes)) =~= lowered(touched_paths(fewer)) + lowered(paths));
        assert forall|i: int| 0 <= i < n implies change_paths(#[trigger] changes[i])
            == operation_paths(operations[i]) by {
            if i < n - 1 {
                assert(changes[i] == fewer[i]);
            }
        }
    }
}

/// What a change found in a file that was there, if it found one.
pub open spec fn change_source(change: ChangeView) -> Option<(Seq<char>, Seq<u8>)> {
    match change {
        Change::Create { path, after } => None,
        Change::Update { path, before, after } => Some((path, before)),
        Change::Delete { path, before } => Some((path, before)),
        Change::Rename { from, to, before } => Some((from, before)),
    }
}

/// Every existing file that a prepared patch changes is visible text with the hash that the
/// operation named, and a file is made only at a free workspace path.
pub proof fn prepared_changes_fit_their_operations(
    root: Seq<char>,
    operation: PatchOperation,
    evidence: OperationEvidence,
)
    requires
        prepared_change(root, operation, evidence) is Ok,
    ensures
        ({
            let change = prepared_change(root, operation, evidence)->Ok_0;
            &&& change_source(change) is Some <==> operation_hash(operation) is Some
            &&& change_source(change) matches Some((path, before)) ==> {
                &&& hex_of_bytes(sha256(before)) == ascii_lowered(operation_hash(operation)->Some_0)
                &&& source_bytes(root, path, evidence.source) == Ok::<Seq<u8>, Refusal>(before)
            }
            &&& made_path(change) matches Some(path) ==> {
                &&& path_refusal(path) is None
                &&& evidence.target matches Some(found) && !found.exists
            }
        }),
{
}

/// A patch is refused as a whole: it holds between one and thirty-two operations, and each of them
/// fits, or nothing is prepared.
pub proof fn prepared_patches_are_whole(
    root: Seq<char>,
    input: PatchInput,
    evidence: Seq<OperationEvidence>,
)
    requires
        prepared_patch(root, input, evidence) is Ok,
    ensures
        1 <= input.operations@.len() <= MAX_OPERATIONS,
        prepared_patch(root, input, evidence)->Ok_0.changes.len() == input.operations@.len(),
        lowered(touched_paths(prepared_patch(root, input, evidence)->Ok_0.changes)).no_duplicates(),
        forall|i: int|
            0 <= i < input.operations@.len() ==> prepared_change(
                root,
                #[trigger] input.operations@[i],
                evidence[i],
            ) == Ok::<ChangeView, Refusal>(
                prepared_patch(root, input, evidence)->Ok_0.changes[i],
            ),
{
    prepared_paths_are_distinct(root, input.operations@, evidence, input.operations@.len());
    lemma_prepared_each(root, input.operations@, evidence, input.operations@.len());
}

proof fn lemma_prepared_each(
    root: Seq<char>,
    operations: Seq<PatchOperation>,
    evidence: Seq<OperationEvidence>,
    n: nat,
)
    requires
        n <= operations.len(),
        prepared_changes(root, operations, evidence, n) is Ok,
    ensures
        prepared_changes(root, operations, evidence, n)->Ok_0.1.len() == n,
        forall|i: int|
            0 <= i < n ==> prepared_change(root, #[trigger] operations[i], evidence[i]) == Ok::<
                ChangeView,
                Refusal,
            >(prepared_changes(root, operations, evidence, n)->Ok_0.1[i]),
    decreases n,
{
    if n > 0 {
        lemma_prepared_each(root, operations, evidence, (n - 1) as nat);
    }
}

/// Every path that a prepared patch touches is a workspace path.
pub proof fn prepared_paths_stay_inside_the_workspace(
    root: Seq<char>,
    operation: PatchOperation,
    evidence: OperationEvidence,
    path: Seq<char>,
)
    requires
        prepared_change(root, operation, evidence) is Ok,
        change_paths(prepared_change(root, operation, evidence)->Ok_0).contains(path),
    ensures
        path_refusal(path) is None,
{
}

/// A patch gets consent only from the write mode or from a decision to apply it, and without
/// consent it is never carried out.
pub proof fn patches_need_consent(
    call: CallView,
    prepared: Result<PreparedView, Refusal>,
    write_enabled: bool,
    decision: Option<PatchDecision>,
)
    requires
        !call.consent,
    ensures
        proposed(call, prepared, write_enabled).consent ==> write_enabled,
        proposed(call, prepared, write_enabled).stage != CallStage::Applying || call.stage
            == CallStage::Applying,
        decided(call, decision).consent ==> decision == Some(PatchDecision::Apply),
        decided(call, decision).stage == CallStage::Applying ==> call.stage == CallStage::Applying,
{
}

/// What is carried out is the patch as it was prepared from the last look at the files; a patch
/// that does not fit them any more is answered with the reason, and nothing is carried out.
pub proof fn stale_proposals_fail(call: CallView, prepared: Result<PreparedView, Refusal>)
    ensures
        renewed(call, prepared).consent == call.consent,
        match prepared {
            Ok(patch) => renewed(call, prepared).proposal == Some(patch),
            Err(refusal) => renewed(call, prepared).stage == CallStage::Finished && renewed(
                call,
                prepared,
            ).answer == Some(Err::<OutputView, Refusal>(refusal)),
        },
{
}

/// Whether a change is what an operation asks for on a file that holds `before`: a file is made with
/// exactly the given content; an update keeps the path and makes its replacements; what is deleted or
/// renamed is the file as it is.
pub open spec fn is_asked_for(operation: PatchOperation, before: Seq<u8>, change: ChangeView) -> bool {
    match operation {
        PatchOperation::Create { path, content } => change == Change::<Seq<char>, Seq<u8>>::Create {
            path: path@,
            after: encode_utf8(content@),
        } && !encode_utf8(content@).contains(0u8),
        PatchOperation::Update { path, preimage_sha256, replacements } => {
            exists|steps: Seq<Seq<char>>|
                {
                    &&& #[trigger] leads(steps, replacements@)
                    &&& replacements@.len() > 0
                    &&& before == encode_utf8(steps[0])
                    &&& !encode_utf8(steps.last()).contains(0u8)
                    &&& change == Change::<Seq<char>, Seq<u8>>::Update {
                        path: path@,
                        before,
                        after: encode_utf8(steps.last()),
                    }
                }
        },
        PatchOperation::Delete { path, preimage_sha256 } => change == Change::<
            Seq<char>,
            Seq<u8>,
        >::Delete { path: path@, before },
        PatchOperation::Rename { from, to, preimage_sha256 } => change == Change::<
            Seq<char>,
            Seq<u8>,
        >::Rename { from: from@, to: to@, before },
    }
}

/// Whether the files are there that an operation needs: the one that it changes is a visible text file
/// with the named hash, and where it makes one there is none yet.
pub open spec fn is_grounded(
    root: Seq<char>,
    operation: PatchOperation,
    evidence: OperationEvidence,
) -> bool {
    let source = match operation {
        PatchOperation::Create { path, content } => None,
        PatchOperation::Update { path, preimage_sha256, replacements } => Some(
            (path@, preimage_sha256@),
        ),
        PatchOperation::Delete { path, preimage_sha256 } => Some((path@, preimage_sha256@)),
        PatchOperation::Rename { from, to, preimage_sha256 } => Some((from@, preimage_sha256@)),
    };
    let target = match operation {
        PatchOperation::Create { path, content } => Some(path@),
        PatchOperation::Rename { from, to, preimage_sha256 } => Some(to@),
        _ => None,
    };
    &&& source matches Some((path, hash)) ==> (evidence.source matches Some(found) && {
        &&& visible_file_refusal(root, path, found.probes@, found.listing, found.again@) is None
        &&& found.file.is_file
        &&& found.file.len <= 16777216
        &&& !found.file.bytes@.contains(0u8)
        &&& utf8_text(found.file.bytes@) is Some
        &&& hex_of_bytes(sha256(found.file.bytes@)) == ascii_lowered(hash)
    })
    &&& target matches Some(path) ==> (evidence.target matches Some(found) && {
        &&& reach_refusal(root, path, true, found.probes@) is None
        &&& !found.exists
    })
}

/// An operation comes to the change that it asks for, and to nothing else; it is refused exactly if the
/// files that it needs are not there or no change is what it asks for.
pub proof fn an_operation_comes_to_what_it_asks_for(
    root: Seq<char>,
    operation: PatchOperation,
    evidence: OperationEvidence,
)
    ensures
        ({
            let before = match evidence.source {
                Some(found) => found.file.bytes@,
                None => Seq::empty(),
            };
            match prepared_change(root, operation, evidence) {
                Ok(change) => {
                    &&& is_grounded(root, operation, evidence)
                    &&& is_asked_for(operation, before, change)
                },
                Err(_) => !is_grounded(root, operation, evidence) || forall|change: ChangeView|
                    !#[trigger] is_asked_for(operation, before, change),
            }
        }),
{
    let before = match evidence.source {
        Some(found) => found.file.bytes@,
        None => Seq::empty(),
    };
    if let PatchOperation::Update { path, preimage_sha256, replacements } = operation {
        an_update_makes_its_replacements(path@, before, replacements@);
        if let Ok(after) = edited_bytes(path@, before, replacements@) {
            let steps = choose|steps: Seq<Seq<char>>| #[trigger]
                leads(steps, replacements@) && before == encode_utf8(steps[0]) && after
                    == encode_utf8(steps.last());
            assert(leads(steps, replacements@));
        }
        if is_grounded(root, operation, evidence) && edited_bytes(path@, before, replacements@) is Err {
            assert forall|change: ChangeView| !#[trigger] is_asked_for(operation, before, change) by {
                if is_asked_for(operation, before, change) {
                    let steps = choose|steps: Seq<Seq<char>>|
                        {
                            &&& #[trigger] leads(steps, replacements@)
                            &&& replacements@.len() > 0
                            &&& before == encode_utf8(steps[0])
                            &&& !encode_utf8(steps.last()).contains(0u8)
                            &&& change == Change::<Seq<char>, Seq<u8>>::Update {
                                path: path@,
                                before,
                                after: encode_utf8(steps.last()),
                            }
                        };
                    assert(leads(steps, replacements@));
                }
            }
        }
    }
}

/// The paths of the first `n` operations.
pub open spec fn claimed_paths(operations: Seq<PatchOperation>, n: int) -> Seq<Seq<char>>
    decreases n,
{
    if n <= 0 {
        Seq::empty()
    } else {
        claimed_paths(operations, n - 1) + match operations[n - 1] {
            PatchOperation::Create { path, content } => seq![path@],
            PatchOperation::Update { path, preimage_sha256, replacements } => seq![path@],
            PatchOperation::Delete { path, preimage_sha256 } => seq![path@],
            PatchOperation::Rename { from, to, preimage_sha256 } => seq![from@, to@],
        }
    }
}

proof fn lemma_free_claims(claimed: Set<Seq<char>>, before: Seq<Seq<char>>, paths: Seq<Seq<char>>)
    requires
        claimed == before.to_set(),
        (before + lowered(paths)).no_duplicates(),
    ensures
        claims_refusal(claimed, paths) is None,
        with_claims(claimed, paths) == (before + lowered(paths)).to_set(),
    decreases paths.len(),
{
    let all = before + lowered(paths);
    assert forall|i: int, j: int| 0 <= i < before.len() && 0 <= j < before.len() && i != j implies
        before[i] != before[j] by {
        assert(all[i] == before[i] && all[j] == before[j]);
    }
    if paths.len() > 0 {
        let fewer = before + lowered(paths.drop_last());
        let last = ascii_lowered(paths.last());
        assert(all =~= fewer.push(last));
        assert(fewer.no_duplicates()) by {
            assert forall|i: int, j: int|
                0 <= i < fewer.len() && 0 <= j < fewer.len() && i != j implies fewer[i] != fewer[j] by {
                assert(all[i] == fewer[i] && all[j] == fewer[j]);
            }
        }
        lemma_free_claims(claimed, before, paths.drop_last());
        assert(!fewer.contains(last)) by {
            if fewer.contains(last) {
                let i = fewer.index_of(last);
                assert(all[i] == all[fewer.len() as int]);
            }
        }
        lemma_claims(claimed, before, paths);
    } else {
        assert(all =~= before);
    }
}

proof fn lemma_preparable(
    root: Seq<char>,
    operations: Seq<PatchOperation>,
    evidence: Seq<OperationEvidence>,
    n: nat,
)
    requires
        n <= operations.len(),
        n <= evidence.len(),
        lowered(claimed_paths(operations, n as int)).no_duplicates(),
        forall|i: int|
            0 <= i < n ==> (operation_hash(#[trigger] operations[i]) matches Some(hash) ==> is_hash(
                hash,
            )) && prepared_change(root, operations[i], evidence[i]) is Ok,
    ensures
        prepared_changes(root, operations, evidence, n) matches Ok((claimed, _)) && claimed == lowered(
            claimed_paths(operations, n as int),
        ).to_set(),
    decreases n,
{
    let all = lowered(claimed_paths(operations, n as int));
    if n == 0 {
        assert(all =~= Seq::empty());
        assert(all.to_set() =~= Set::empty());
    } else {
        let fewer = lowered(claimed_paths(operations, n - 1));
        let paths = operation_paths(operations[n - 1]);
        assert(all =~= fewer + lowered(paths));
        assert(fewer.no_duplicates()) by {
            assert forall|i: int, j: int|
                0 <= i < fewer.len() && 0 <= j < fewer.len() && i != j implies fewer[i] != fewer[j] by {
                assert(all[i] == fewer[i] && all[j] == fewer[j]);
            }
        }
        lemma_preparable(root, operations, evidence, (n - 1) as nat);
        lemma_free_claims(fewer.to_set(), fewer, paths);
        assert(operations[n - 1] == operations[n - 1]);
    }
}

/// A patch of one to thirty-two operations that says what it is for is prepared whenever its paths are
/// distinct, its hashes have the form of hashes and each operation can be prepared. What is prepared has
/// the purpose without the white space around it, and the diff that shows its changes.
pub proof fn fitting_patches_are_prepared(
    root: Seq<char>,
    input: PatchInput,
    evidence: Seq<OperationEvidence>,
)
    ensures
        ({
            let operations = input.operations@;
            let fits = {
                &&& 1 <= operations.len() <= 32
                &&& operations.len() <= evidence.len()
                &&& exists|i: int| 0 <= i < input.purpose@.len() && !is_white(#[trigger] input.purpose@[i])
                &&& lowered(claimed_paths(operations, operations.len() as int)).no_duplicates()
                &&& forall|i: int|
                    0 <= i < operations.len() ==> (operation_hash(#[trigger] operations[i]) matches Some(
                        hash,
                    ) ==> is_hash(hash)) && prepared_change(root, operations[i], evidence[i]) is Ok
            };
            &&& fits ==> prepared_patch(root, input, evidence) is Ok
            &&& prepared_patch(root, input, evidence) matches Ok(patch) ==> is_around(
                input.purpose@,
                patch.purpose,
            ) && patch.purpose.len() > 0 && patch.diff == diff_text(patch.changes)
        }),
{
    let operations = input.operations@;
    trimming_takes_white_space_off(input.purpose@);
    let word = trimmed(input.purpose@);
    if word.len() == 0 {
        let (lead, tail) = choose|lead: Seq<char>, tail: Seq<char>|
            {
                &&& input.purpose@ == #[trigger] (lead + word + tail)
                &&& forall|i: int| 0 <= i < lead.len() ==> is_white(#[trigger] lead[i])
                &&& forall|i: int| 0 <= i < tail.len() ==> is_white(#[trigger] tail[i])
            };
        assert forall|i: int| 0 <= i < input.purpose@.len() implies is_white(
            #[trigger] input.purpose@[i],
        ) by {
            if i < lead.len() {
                assert(is_white(lead[i]));
            } else {
                assert(is_white(tail[i - lead.len()]));
            }
        }
    }
    if operations.len() <= evidence.len() && lowered(
        claimed_paths(operations, operations.len() as int),
    ).no_duplicates() && (forall|i: int|
        0 <= i < operations.len() ==> (operation_hash(#[trigger] operations[i]) matches Some(hash)
            ==> is_hash(hash)) && prepared_change(root, operations[i], evidence[i]) is Ok) {
        lemma_preparable(root, operations, evidence, operations.len());
    }
}

/// How a patch call goes: with the write mode on, or once the user has said so, the patch is prepared
/// again and carried out, and the answer says that it was applied and which paths it changed, or why it
/// failed. Without the write mode the user is shown the purpose and the diff. A rejected patch is
/// answered as rejected, and one that nobody decides about fails.
pub proof fn a_patch_call_takes_its_course(
    first: PreparedView,
    again: PreparedView,
    result: Result<Seq<Seq<char>>, Refusal>,
)
    ensures
        ({
            let start = CallView {
                stage: CallStage::Proposing,
                consent: false,
                proposal: None,
                event: None,
                answer: None,
            };
            let granted = proposed(start, Ok(first), true);
            let asked = proposed(start, Ok(first), false);
            let allowed = decided(asked, Some(PatchDecision::Apply));
            let rejected = decided(asked, Some(PatchDecision::Reject));
            let ready = renewed(granted, Ok(again));
            let done = concluded(ready, result);
            let done_later = concluded(renewed(allowed, Ok(again)), result);
            &&& granted.stage == CallStage::Renewing && granted.consent
            &&& asked.stage == CallStage::Asking && !asked.consent
            &&& asked.event == Some(EventView::Pending { purpose: first.purpose, diff: first.diff })
            &&& allowed.stage == CallStage::Renewing && allowed.consent
            &&& ready.stage == CallStage::Applying && ready.proposal == Some(again)
            &&& rejected.stage == CallStage::Finished && !rejected.consent
            &&& rejected.answer matches Some(Ok(output)) && !output.applied && output.rejected
                && output.changed_paths.len() == 0
            &&& decided(asked, None).stage == CallStage::Finished
            &&& decided(asked, None).answer matches Some(Err(_))
            &&& done.stage == CallStage::Finished && done_later.stage == CallStage::Finished
            &&& done.answer == done_later.answer && done.event == done_later.event
            &&& match result {
                Ok(paths) => {
                    &&& done.answer matches Some(Ok(output)) && output.applied && !output.rejected
                        && output.changed_paths == paths
                    &&& done.event == Some(
                        EventView::Applied { purpose: again.purpose, diff: again.diff },
                    )
                },
                Err(refusal) => {
                    &&& done.answer == Some(Err::<OutputView, Refusal>(refusal))
                    &&& done.event == Some(
                        EventView::Failed { purpose: again.purpose, message: refusal.1 },
                    )
                },
            }
        }),
{
}

} // verus!
