//! The patch panel: what the user sees of patches, and what the user decides about them.
use vstd::prelude::*;

use crate::patch::{PatchDecision, PatchGate, PatchUiEvent, PendingPatch};
use crate::text::copy;

verus! {

/// What became of a patch in the log.
#[derive(Clone, Copy, Debug, PartialEq, Eq, Structural)]
pub enum PatchLogKind {
    Applying,
    Approved,
    Applied,
    Rejected,
    Failed,
}

impl PatchLogKind {
    /// The word for it.
    pub fn label(self) -> (r: &'static str)
        ensures
            r@ == label_text(self),
    {
        match self {
            PatchLogKind::Applying => "Applying",
            PatchLogKind::Approved => "Approved",
            PatchLogKind::Applied => "Applied",
            PatchLogKind::Rejected => "Rejected",
            PatchLogKind::Failed => "Failed",
        }
    }
}

/// The word for what became of a patch.
pub open spec fn label_text(kind: PatchLogKind) -> Seq<char> {
    match kind {
        PatchLogKind::Applying => "Applying"@,
        PatchLogKind::Approved => "Approved"@,
        PatchLogKind::Applied => "Applied"@,
        PatchLogKind::Rejected => "Rejected"@,
        PatchLogKind::Failed => "Failed"@,
    }
}

/// One entry of the log.
#[derive(Debug)]
pub struct PatchLogEntry {
    pub kind: PatchLogKind,
    pub purpose: String,
    pub body: String,
}

impl View for PatchLogEntry {
    type V = (PatchLogKind, Seq<char>, Seq<char>);

    open spec fn view(&self) -> (PatchLogKind, Seq<char>, Seq<char>) {
        (self.kind, self.purpose@, self.body@)
    }
}

/// The entries over plain texts.
pub open spec fn entry_views(s: Seq<PatchLogEntry>) -> Seq<(PatchLogKind, Seq<char>, Seq<char>)> {
    Seq::new(s.len(), |i: int| s[i]@)
}

/// The panel: the patch that waits, the log, and the controls.
#[derive(Debug)]
pub struct PatchPanel {
    pub pending: Option<PendingPatch>,
    pub log: Vec<PatchLogEntry>,
    pub window_open: bool,
    pub gate: PatchGate,
    pub stopped: bool,
}

/// The panel over plain texts.
#[verifier::ext_equal]
pub struct PanelView {
    pub pending: Option<(Seq<char>, Seq<char>)>,
    pub log: Seq<(PatchLogKind, Seq<char>, Seq<char>)>,
    pub window_open: bool,
    pub write_enabled: bool,
    pub stopped: bool,
}

/// A waiting patch over plain texts.
pub open spec fn pending_view(pending: Option<PendingPatch>) -> Option<(Seq<char>, Seq<char>)> {
    match pending {
        Some(patch) => Some((patch.purpose@, patch.diff@)),
        None => None,
    }
}

impl View for PatchPanel {
    type V = PanelView;

    open spec fn view(&self) -> PanelView {
        PanelView {
            pending: pending_view(self.pending),
            log: entry_views(self.log@),
            window_open: self.window_open,
            write_enabled: self.gate.write_enabled,
            stopped: self.stopped,
        }
    }
}

impl PanelView {
    /// The panel with one more entry in its log.
    pub open spec fn logging(self, kind: PatchLogKind, purpose: Seq<char>, body: Seq<char>) -> PanelView {
        PanelView { log: self.log.push((kind, purpose, body)), ..self }
    }
}

/// The panel after an event, and the decision about the event's patch, if there is one already.
pub open spec fn after_event(panel: PanelView, event: PatchUiEvent) -> (
    PanelView,
    Option<PatchDecision>,
) {
    match event {
        PatchUiEvent::Pending(patch) => if panel.write_enabled {
            (
                panel.logging(PatchLogKind::Applying, patch.purpose@, patch.diff@),
                Some(PatchDecision::Apply),
            )
        } else {
            (
                PanelView {
                    pending: Some((patch.purpose@, patch.diff@)),
                    window_open: true,
                    ..panel
                },
                None,
            )
        },
        PatchUiEvent::Applied { purpose, diff } => (
            panel.logging(PatchLogKind::Applied, purpose@, diff@),
            None,
        ),
        PatchUiEvent::Failed { purpose, message } => (
            panel.logging(PatchLogKind::Failed, purpose@, message@),
            None,
        ),
    }
}

/// The panel after its waiting patch was settled, and the decision, if a patch was waiting.
pub open spec fn settled(panel: PanelView, kind: PatchLogKind, decision: PatchDecision) -> (
    PanelView,
    Option<PatchDecision>,
) {
    match panel.pending {
        None => (panel, None),
        Some((purpose, diff)) => (
            (PanelView { pending: None, ..panel }).logging(kind, purpose, diff),
            Some(decision),
        ),
    }
}

/// The panel after the write mode was set, and the decision about the waiting patch.
pub open spec fn after_toggle(panel: PanelView, enabled: bool) -> (PanelView, Option<PatchDecision>) {
    let set = PanelView { write_enabled: enabled, ..panel };
    if enabled {
        settled(set, PatchLogKind::Approved, PatchDecision::Apply)
    } else {
        (set, None)
    }
}

/// What the panel says about itself.
pub open spec fn status_text(panel: PanelView) -> Seq<char> {
    if panel.stopped {
        "stopped"@
    } else if panel.pending is Some {
        "waiting for write mode"@
    } else if panel.write_enabled {
        "automatic writes enabled"@
    } else {
        "read only"@
    }
}

impl PatchPanel {
    /// A panel on which nothing has happened; writing is off.
    pub fn new() -> (r: PatchPanel)
        ensures
            r@.pending is None,
            r@.log.len() == 0,
            !r@.window_open,
            !r@.write_enabled,
            !r@.stopped,
    {
        PatchPanel {
            pending: None,
            log: Vec::new(),
            window_open: false,
            gate: PatchGate::new(),
            stopped: false,
        }
    }

    /// Adds an entry to the log.
    fn push(&mut self, kind: PatchLogKind, purpose: String, body: String)
        ensures
            final(self)@ == old(self)@.logging(kind, purpose@, body@),
    {
        let entry = PatchLogEntry { kind, purpose, body };
        assert(entry_views(self.log@.push(entry)) =~= entry_views(self.log@).push(entry@));
        self.log.push(entry);
    }

    /// Takes an event and says what is decided about its patch, if it is decided already.
    pub fn take_event(&mut self, event: PatchUiEvent) -> (r: Option<PatchDecision>)
        ensures
            (final(self)@, r) == after_event(old(self)@, event),
    {
        match event {
            PatchUiEvent::Pending(patch) => {
                if self.gate.write_enabled() {
                    self.push(PatchLogKind::Applying, patch.purpose, patch.diff);
                    Some(PatchDecision::Apply)
                } else {
                    self.pending = Some(patch);
                    self.window_open = true;
                    None
                }
            },
            PatchUiEvent::Applied { purpose, diff } => {
                self.push(PatchLogKind::Applied, purpose, diff);
                None
            },
            PatchUiEvent::Failed { purpose, message } => {
                self.push(PatchLogKind::Failed, purpose, message);
                None
            },
        }
    }

    /// Settles the waiting patch.
    fn settle(&mut self, kind: PatchLogKind, decision: PatchDecision) -> (r: Option<PatchDecision>)
        ensures
            (final(self)@, r) == settled(old(self)@, kind, decision),
    {
        let found = match &self.pending {
            None => None,
            Some(patch) => Some((copy(patch.purpose.as_str()), copy(patch.diff.as_str()))),
        };
        match found {
            None => None,
            Some((purpose, diff)) => {
                self.pending = None;
                self.push(kind, purpose, diff);
                Some(decision)
            },
        }
    }

    /// Sets the write mode. Turned on, it lets the waiting patch go ahead.
    pub fn set_write_enabled(&mut self, enabled: bool) -> (r: Option<PatchDecision>)
        ensures
            (final(self)@, r) == after_toggle(old(self)@, enabled),
    {
        self.gate.set_write_enabled(enabled);
        if enabled {
            self.settle(PatchLogKind::Approved, PatchDecision::Apply)
        } else {
            None
        }
    }

    /// Rejects the waiting patch.
    pub fn reject_pending(&mut self) -> (r: Option<PatchDecision>)
        ensures
            (final(self)@, r) == settled(old(self)@, PatchLogKind::Rejected, PatchDecision::Reject),
    {
        self.settle(PatchLogKind::Rejected, PatchDecision::Reject)
    }

    /// Rejects the waiting patch, turns writing off, and stops.
    pub fn stop(&mut self) -> (r: Option<PatchDecision>)
        ensures
            ({
                let (next, decision) = settled(
                    old(self)@,
                    PatchLogKind::Rejected,
                    PatchDecision::Reject,
                );
                &&& r == decision
                &&& final(self)@ == PanelView { write_enabled: false, stopped: true, ..next }
            }),
    {
        let decision = self.reject_pending();
        self.gate.set_write_enabled(false);
        self.stopped = true;
        decision
    }

    /// What the panel says about itself.
    pub fn status(&self) -> (r: &'static str)
        ensures
            r@ == status_text(self@),
    {
        if self.stopped {
            "stopped"
        } else if self.pending.is_some() {
            "waiting for write mode"
        } else if self.gate.write_enabled() {
            "automatic writes enabled"
        } else {
            "read only"
        }
    }
}

/// A patch is let go ahead only while writing is on, or by turning it on; with writing off it
/// waits or is rejected.
pub proof fn consent_comes_with_the_write_mode(panel: PanelView, event: PatchUiEvent, enabled: bool)
    ensures
        after_event(panel, event).1 == Some(PatchDecision::Apply) ==> panel.write_enabled,
        after_toggle(panel, enabled).1 == Some(PatchDecision::Apply) ==> enabled,
        settled(panel, PatchLogKind::Rejected, PatchDecision::Reject).1 != Some(
            PatchDecision::Apply,
        ),
{
}

/// After turning writing on, or after a rejection, no patch waits any more.
pub proof fn decisions_settle_the_waiting_patch(panel: PanelView)
    ensures
        after_toggle(panel, true).0.pending is None,
        settled(panel, PatchLogKind::Rejected, PatchDecision::Reject).0.pending is None,
        after_toggle(panel, false).0.pending == panel.pending,
{
}

/// What the panel makes of events and of the user's switches: a patch that asks for consent goes ahead while
/// writing is on and waits in the open window while it is off; what was applied or failed is logged with its
/// purpose; turning writing on lets the waiting patch go ahead, a rejection turns it down, and each is logged
/// with the patch's purpose and diff. The log only ever grows.
pub proof fn the_panel_tells_of_every_patch(panel: PanelView, event: PatchUiEvent, enabled: bool)
    ensures
        ({
            let (next, decision) = after_event(panel, event);
            &&& panel.log.is_prefix_of(next.log)
            &&& next.write_enabled == panel.write_enabled && next.stopped == panel.stopped
            &&& match event {
                PatchUiEvent::Pending(patch) => if panel.write_enabled {
                    &&& decision == Some(PatchDecision::Apply)
                    &&& next.pending == panel.pending
                    &&& next.log.len() == panel.log.len() + 1
                    &&& next.log.last() == (PatchLogKind::Applying, patch.purpose@, patch.diff@)
                } else {
                    &&& decision is None
                    &&& next.pending == Some((patch.purpose@, patch.diff@))
                    &&& next.window_open
                    &&& next.log == panel.log
                },
                PatchUiEvent::Applied { purpose, diff } => {
                    &&& decision is None
                    &&& next.pending == panel.pending
                    &&& next.log.len() == panel.log.len() + 1
                    &&& next.log.last() == (PatchLogKind::Applied, purpose@, diff@)
                },
                PatchUiEvent::Failed { purpose, message } => {
                    &&& decision is None
                    &&& next.pending == panel.pending
                    &&& next.log.len() == panel.log.len() + 1
                    &&& next.log.last() == (PatchLogKind::Failed, purpose@, message@)
                },
            }
        }),
        ({
            let (next, decision) = after_toggle(panel, enabled);
            &&& next.write_enabled == enabled
            &&& panel.log.is_prefix_of(next.log)
            &&& if enabled && panel.pending is Some {
                let (purpose, diff) = panel.pending->Some_0;
                &&& decision == Some(PatchDecision::Apply)
                &&& next.pending is None
                &&& next.log.len() == panel.log.len() + 1
                &&& next.log.last() == (PatchLogKind::Approved, purpose, diff)
            } else {
                &&& decision is None
                &&& next.pending == panel.pending
                &&& next.log == panel.log
            }
        }),
        ({
            let (next, decision) = settled(panel, PatchLogKind::Rejected, PatchDecision::Reject);
            &&& next.write_enabled == panel.write_enabled
            &&& panel.log.is_prefix_of(next.log)
            &&& match panel.pending {
                Some((purpose, diff)) => {
                    &&& decision == Some(PatchDecision::Reject)
                    &&& next.pending is None
                    &&& next.log.len() == panel.log.len() + 1
                    &&& next.log.last() == (PatchLogKind::Rejected, purpose, diff)
                },
                None => decision is None && next == panel,
            }
        }),
{
    let n = panel.log.len() as int;
    let (a, _) = after_event(panel, event);
    let (b, _) = after_toggle(panel, enabled);
    let (c, _) = settled(panel, PatchLogKind::Rejected, PatchDecision::Reject);
    assert(panel.log =~= a.log.take(n));
    assert(panel.log =~= b.log.take(n));
    assert(panel.log =~= c.log.take(n));
}

} // verus!
