//! The order in which an operation's moves are undone: every selected item is checked
//! (its target still the published file, its source free) before anything changes,
//! the operation is marked for rollback before any file is moved back, each item is
//! moved back and recorded before the next, and a move that fails leaves the operation
//! for recovery. The caller touches the disk and the database and reports each outcome.
use vstd::prelude::*;

verus! {

/// Where an undo stands.
#[derive(Debug, Clone, Copy, PartialEq, Eq, Structural)]
pub enum UndoStage {
    /// Nothing checked yet.
    Ready,
    /// Checking item `done`.
    Checking,
    /// Every item is checked; the operation and its items are being marked for rollback.
    Marking,
    /// Moving item `done` back.
    Restoring,
    /// Item `done` is back; it is being recorded and the index reconciled.
    Recording,
    /// Every item is back; the operation is rolled back.
    RolledBack,
    /// The undo stopped.
    Stopped,
}

/// The state of an undo of `total` selected items: its stage and how many items are
/// checked (while checking) or back and recorded (afterwards).
#[derive(Debug, Clone, Copy, PartialEq, Eq, Structural)]
pub struct UndoState {
    pub stage: UndoStage,
    pub total: usize,
    pub done: usize,
}

/// What the caller reports.
#[derive(Debug, Clone, Copy, PartialEq, Eq, Structural)]
pub enum UndoEvent {
    Start,
    /// The item's target is still the published file and its source is free.
    ItemChecked,
    /// The item cannot be undone safely.
    CheckFailed,
    /// The operation and its items are marked for rollback.
    Marked,
    /// The item's file is back at its source.
    ItemRestored,
    /// The item was refused before its file was touched (no directory, preflight).
    ItemRefused,
    /// Moving the item's file back failed.
    ItemFailed,
    /// The item is recorded as rolled back and the index reconciled.
    ItemRecorded,
}

/// What the caller does next.
#[derive(Debug, Clone, Copy, PartialEq, Eq, Structural)]
pub enum UndoAction {
    /// Check the item at this index.
    CheckItem(usize),
    /// Refuse the undo; nothing was changed.
    Refuse,
    /// Mark the operation and every selected item for rollback.
    MarkRollback,
    /// Move the item at this index back to its source.
    RestoreItem(usize),
    /// Record the item at this index rolled back and reconcile the index.
    RecordItem(usize),
    /// Stop; the operation stays marked for rollback.
    Abandon(usize),
    /// Mark the operation for recovery after the item at this index failed.
    FailUndo(usize),
    /// Mark the operation rolled back.
    Complete,
    /// The event does not belong to this stage; nothing is done.
    OutOfOrder,
}

pub open spec fn undo_wf(s: UndoState) -> bool {
    &&& s.done <= s.total
    &&& match s.stage {
        UndoStage::Ready => s.done == 0,
        UndoStage::Checking | UndoStage::Restoring | UndoStage::Recording => s.done < s.total,
        UndoStage::Marking => s.done == 0,
        UndoStage::RolledBack => s.done == s.total,
        UndoStage::Stopped => true,
    }
}

pub open spec fn undo_start(total: usize) -> UndoState {
    UndoState { stage: UndoStage::Ready, total, done: 0 }
}

/// After `checked` items are checked: check the next, or mark for rollback.
pub open spec fn after_check(total: usize, checked: usize) -> (UndoState, UndoAction) {
    if checked < total {
        (UndoState { stage: UndoStage::Checking, total, done: checked }, UndoAction::CheckItem(checked))
    } else {
        (UndoState { stage: UndoStage::Marking, total, done: 0 }, UndoAction::MarkRollback)
    }
}

/// After `restored` items are back: move the next back, or complete.
pub open spec fn after_restore(total: usize, restored: usize) -> (UndoState, UndoAction) {
    if restored < total {
        (UndoState { stage: UndoStage::Restoring, total, done: restored }, UndoAction::RestoreItem(restored))
    } else {
        (UndoState { stage: UndoStage::RolledBack, total, done: restored }, UndoAction::Complete)
    }
}

/// One step of an undo: the next state and the action for an event.
pub open spec fn undo_next(s: UndoState, e: UndoEvent) -> (UndoState, UndoAction) {
    let stopped = UndoState { stage: UndoStage::Stopped, ..s };
    match (s.stage, e) {
        (UndoStage::Ready, UndoEvent::Start) => after_check(s.total, 0),
        (UndoStage::Checking, UndoEvent::ItemChecked) => after_check(s.total, (s.done + 1) as usize),
        (UndoStage::Checking, UndoEvent::CheckFailed) => (stopped, UndoAction::Refuse),
        (UndoStage::Marking, UndoEvent::Marked) => after_restore(s.total, 0),
        (UndoStage::Restoring, UndoEvent::ItemRestored) => (
            UndoState { stage: UndoStage::Recording, ..s },
            UndoAction::RecordItem(s.done),
        ),
        (UndoStage::Restoring, UndoEvent::ItemRefused) => (stopped, UndoAction::Abandon(s.done)),
        (UndoStage::Restoring, UndoEvent::ItemFailed) => (stopped, UndoAction::FailUndo(s.done)),
        (UndoStage::Recording, UndoEvent::ItemRecorded) => after_restore(s.total, (s.done + 1) as usize),
        _ => (s, UndoAction::OutOfOrder),
    }
}

impl UndoState {
    /// An undo of `total` selected items of an operation that may be undone.
    pub fn start(total: usize) -> (r: UndoState)
        ensures
            r == undo_start(total),
            undo_wf(r),
    {
        UndoState { stage: UndoStage::Ready, total, done: 0 }
    }
}

fn check_or_mark(total: usize, checked: usize) -> (r: (UndoState, UndoAction))
    requires
        checked <= total,
    ensures
        r == after_check(total, checked),
        undo_wf(r.0),
{
    if checked < total {
        (UndoState { stage: UndoStage::Checking, total, done: checked }, UndoAction::CheckItem(checked))
    } else {
        (UndoState { stage: UndoStage::Marking, total, done: 0 }, UndoAction::MarkRollback)
    }
}

fn restore_or_complete(total: usize, restored: usize) -> (r: (UndoState, UndoAction))
    requires
        restored <= total,
    ensures
        r == after_restore(total, restored),
        undo_wf(r.0),
{
    if restored < total {
        (UndoState { stage: UndoStage::Restoring, total, done: restored }, UndoAction::RestoreItem(restored))
    } else {
        (UndoState { stage: UndoStage::RolledBack, total, done: restored }, UndoAction::Complete)
    }
}

/// Advances an undo by the event that the caller reports, and says what to do next.
pub fn undo_step(state: UndoState, event: UndoEvent) -> (r: (UndoState, UndoAction))
    requires
        undo_wf(state),
    ensures
        r == undo_next(state, event),
        undo_wf(r.0),
{
    let stopped = UndoState { stage: UndoStage::Stopped, ..state };
    match (state.stage, event) {
        (UndoStage::Ready, UndoEvent::Start) => check_or_mark(state.total, 0),
        (UndoStage::Checking, UndoEvent::ItemChecked) => check_or_mark(state.total, state.done + 1),
        (UndoStage::Checking, UndoEvent::CheckFailed) => (stopped, UndoAction::Refuse),
        (UndoStage::Marking, UndoEvent::Marked) => restore_or_complete(state.total, 0),
        (UndoStage::Restoring, UndoEvent::ItemRestored) => (
            UndoState { stage: UndoStage::Recording, ..state },
            UndoAction::RecordItem(state.done),
        ),
        (UndoStage::Restoring, UndoEvent::ItemRefused) => (stopped, UndoAction::Abandon(state.done)),
        (UndoStage::Restoring, UndoEvent::ItemFailed) => (stopped, UndoAction::FailUndo(state.done)),
        (UndoStage::Recording, UndoEvent::ItemRecorded) => restore_or_complete(state.total, state.done + 1),
        _ => (state, UndoAction::OutOfOrder),
    }
}


/// The state reached and the actions asked for when the events are reported in turn,
/// from the start of an undo of `total` items.
pub open spec fn undo_run(total: usize, events: Seq<UndoEvent>) -> (UndoState, Seq<UndoAction>)
    decreases events.len(),
{
    if events.len() == 0 {
        (undo_start(total), Seq::empty())
    } else {
        let before = undo_run(total, events.drop_last());
        let step = undo_next(before.0, events.last());
        (step.0, before.1.push(step.1))
    }
}

/// Action `a` was asked for before position `k`.
pub open spec fn undo_before(acts: Seq<UndoAction>, a: UndoAction, k: int) -> bool {
    exists|j: int| 0 <= j < k && acts[j] == a
}

/// Every item was checked before position `k`.
pub open spec fn all_checked_before(acts: Seq<UndoAction>, total: usize, k: int) -> bool {
    forall|i: int| 0 <= i < total ==> #[trigger] undo_before(acts, UndoAction::CheckItem(i as usize), k)
}

/// Every item was moved back and recorded before position `k`.
pub open spec fn all_restored_before(acts: Seq<UndoAction>, total: usize, k: int) -> bool {
    forall|i: int| 0 <= i < total ==> #[trigger] undo_before(acts, UndoAction::RecordItem(i as usize), k)
}

pub open spec fn ends_undo(a: UndoAction) -> bool {
    a is Refuse || a is Abandon || a is FailUndo || a is Complete
}

/// The order of an undo's actions: the operation is marked for rollback only after
/// every item was checked; no file is moved back before that mark, and each item only
/// after the one before it was recorded; a refusal comes before any mark, so nothing
/// was changed; the rollback completes only after every item was recorded; and nothing
/// is done after the undo ended.
pub open spec fn undo_order(total: usize, acts: Seq<UndoAction>) -> bool {
    &&& forall|k: int| 0 <= k < acts.len() && #[trigger] acts[k] is MarkRollback ==> all_checked_before(acts, total, k)
    &&& forall|k: int| 0 <= k < acts.len() && #[trigger] acts[k] is RestoreItem ==> {
        &&& undo_before(acts, UndoAction::MarkRollback, k)
        &&& acts[k]->RestoreItem_0 > 0 ==> undo_before(acts, UndoAction::RecordItem((acts[k]->RestoreItem_0 - 1) as usize), k)
    }
    &&& forall|k: int| 0 <= k < acts.len() && #[trigger] acts[k] is Refuse ==> !undo_before(acts, UndoAction::MarkRollback, k)
    &&& forall|k: int| 0 <= k < acts.len() && #[trigger] acts[k] is Complete ==> undo_before(acts, UndoAction::MarkRollback, k)
        && all_restored_before(acts, total, k)
    &&& forall|j: int, k: int| #![trigger acts[j], acts[k]] 0 <= j < k < acts.len() && ends_undo(acts[j]) ==> acts[k] is OutOfOrder
}

spec fn undo_inv(total: usize, s: UndoState, acts: Seq<UndoAction>) -> bool {
    let n = acts.len() as int;
    &&& s.total == total
    &&& undo_wf(s)
    &&& undo_order(total, acts)
    &&& s.stage == UndoStage::Checking ==> undo_before(acts, UndoAction::CheckItem(s.done), n)
        && forall|i: int| 0 <= i < s.done ==> #[trigger] undo_before(acts, UndoAction::CheckItem(i as usize), n)
    &&& s.stage == UndoStage::Marking ==> all_checked_before(acts, total, n) && undo_before(acts, UndoAction::MarkRollback, n)
    &&& (s.stage == UndoStage::Ready || s.stage == UndoStage::Checking) ==> !undo_before(acts, UndoAction::MarkRollback, n)
    &&& (s.stage == UndoStage::Restoring || s.stage == UndoStage::Recording || s.stage == UndoStage::RolledBack)
        ==> undo_before(acts, UndoAction::MarkRollback, n)
        && forall|i: int| 0 <= i < s.done ==> #[trigger] undo_before(acts, UndoAction::RecordItem(i as usize), n)
    &&& s.stage == UndoStage::Recording ==> undo_before(acts, UndoAction::RecordItem(s.done), n)
    &&& forall|k: int| 0 <= k < n && ends_undo(#[trigger] acts[k]) ==> (s.stage == UndoStage::Stopped || s.stage
        == UndoStage::RolledBack)
}

proof fn lemma_undo_push(acts: Seq<UndoAction>, x: UndoAction)
    ensures
        forall|a: UndoAction, k: int| 0 <= k <= acts.len() ==> #[trigger] undo_before(acts.push(x), a, k) == undo_before(acts, a, k),
        forall|a: UndoAction| #[trigger] undo_before(acts.push(x), a, acts.len() as int + 1) == (undo_before(acts, a, acts.len() as int) || a == x),
{
    let acts2 = acts.push(x);
    let n = acts.len() as int;
    assert forall|a: UndoAction, k: int| 0 <= k <= n implies #[trigger] undo_before(acts2, a, k) == undo_before(acts, a, k) by {
        if undo_before(acts, a, k) {
            let j = choose|j: int| 0 <= j < k && acts[j] == a;
            assert(acts2[j] == a);
        }
        if undo_before(acts2, a, k) {
            let j = choose|j: int| 0 <= j < k && acts2[j] == a;
            assert(acts[j] == a);
        }
    }
    assert forall|a: UndoAction| #[trigger] undo_before(acts2, a, n + 1) == (undo_before(acts, a, n) || a == x) by {
        if undo_before(acts, a, n) {
            let j = choose|j: int| 0 <= j < n && acts[j] == a;
            assert(acts2[j] == a);
        }
        if a == x {
            assert(acts2[n] == a);
        }
        if undo_before(acts2, a, n + 1) {
            let j = choose|j: int| 0 <= j < n + 1 && acts2[j] == a;
            if j < n {
                assert(acts[j] == a);
            }
        }
    }
}

proof fn lemma_undo_run_in_order(total: usize, events: Seq<UndoEvent>)
    ensures
        undo_inv(total, undo_run(total, events).0, undo_run(total, events).1),
    decreases events.len(),
{
    if events.len() == 0 {
        return;
    }
    lemma_undo_run_in_order(total, events.drop_last());
    let before = undo_run(total, events.drop_last());
    let s = before.0;
    let acts = before.1;
    let e = events.last();
    let step = undo_next(s, e);
    let s2 = step.0;
    let x = step.1;
    let acts2 = acts.push(x);
    let n = acts.len() as int;
    assert(undo_run(total, events) == (s2, acts2));
    lemma_undo_push(acts, x);
    assert(acts2[n] == x);
    assert forall|k: int| 0 <= k < n implies #[trigger] acts2[k] == acts[k] by {}
    assert forall|k: int| 0 <= k < n && #[trigger] acts[k] is MarkRollback implies all_checked_before(acts2, total, k) by {
        assert forall|i: int| 0 <= i < total implies #[trigger] undo_before(acts2, UndoAction::CheckItem(i as usize), k) by {
            assert(undo_before(acts, UndoAction::CheckItem(i as usize), k));
        }
    }
    assert forall|k: int| 0 <= k < n && #[trigger] acts[k] is Complete implies all_restored_before(acts2, total, k) by {
        assert forall|i: int| 0 <= i < total implies #[trigger] undo_before(acts2, UndoAction::RecordItem(i as usize), k) by {
            assert(undo_before(acts, UndoAction::RecordItem(i as usize), k));
        }
    }
    if s.stage == UndoStage::Checking && e == UndoEvent::ItemChecked {
        assert forall|i: int| 0 <= i <= s.done implies #[trigger] undo_before(acts2, UndoAction::CheckItem(i as usize), n + 1) by {
            if i < s.done {
                assert(undo_before(acts, UndoAction::CheckItem(i as usize), n));
            }
        }
        if x is MarkRollback {
            assert forall|i: int| 0 <= i < total implies #[trigger] undo_before(acts2, UndoAction::CheckItem(i as usize), n) by {
                if i < s.done {
                    assert(undo_before(acts, UndoAction::CheckItem(i as usize), n));
                } else {
                    assert(i == s.done);
                }
            }
        }
    }
    if s.stage == UndoStage::Recording && e == UndoEvent::ItemRecorded {
        assert forall|i: int| 0 <= i <= s.done implies #[trigger] undo_before(acts2, UndoAction::RecordItem(i as usize), n + 1) by {
            if i < s.done {
                assert(undo_before(acts, UndoAction::RecordItem(i as usize), n));
            }
        }
        if x is Complete {
            assert forall|i: int| 0 <= i < total implies #[trigger] undo_before(acts2, UndoAction::RecordItem(i as usize), n) by {
                if i < s.done {
                    assert(undo_before(acts, UndoAction::RecordItem(i as usize), n));
                } else {
                    assert(i == s.done);
                }
            }
        }
    }
    if s.stage == UndoStage::Marking && e == UndoEvent::Marked && x is Complete {
        assert forall|i: int| 0 <= i < total implies #[trigger] undo_before(acts2, UndoAction::RecordItem(i as usize), n) by {
        }
    }
    assert forall|j: int, k: int| #![trigger acts2[j], acts2[k]] 0 <= j < k < acts2.len() && ends_undo(acts2[j]) implies acts2[k] is OutOfOrder by {
        if k == n {
            assert(ends_undo(acts[j]));
        } else {
            assert(acts[j] == acts2[j] && acts[k] == acts2[k]);
        }
    }
}

/// Whatever outcomes the caller reports, and in whatever order, an undo keeps its
/// order: every item is checked before the operation is marked for rollback, no file
/// moves back before that mark and each only after the one before it was recorded, a
/// refusal leaves everything unmarked, the rollback completes only after every item was
/// recorded, and nothing is done after the undo ended.
pub proof fn lemma_undo_keeps_its_order(total: usize, events: Seq<UndoEvent>)
    ensures
        undo_order(total, undo_run(total, events).1),
        undo_wf(undo_run(total, events).0),
{
    lemma_undo_run_in_order(total, events);
}

} // verus!
