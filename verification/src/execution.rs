//! The durable order in which a stored plan is carried out: the intent is logged
//! before any file is touched, each item is run and recorded before the next one
//! starts, and a failure after anything was published leaves the operation for
//! recovery. The steps that touch the disk and the database are performed by the
//! caller, which reports each outcome back as an event.
use vstd::prelude::*;
use crate::domain::OperationStatus;

verus! {

/// Where the execution of a stored plan stands.
#[derive(Debug, Clone, Copy, PartialEq, Eq, Structural)]
pub enum ExecutionStage {
    /// The plan passed its gate and every item its preflight; nothing is written yet.
    Checked,
    /// The operation's intent (every item, before any move) is being logged.
    LoggingIntent,
    /// The item at index `recorded` is being moved or copied.
    RunningItem,
    /// The item at index `recorded` was published and is being recorded.
    RecordingItem,
    /// Every item is recorded; the operation and its plan are complete.
    Completed,
    /// An item failed; the operation is stopped.
    Stopped,
}

/// The state of an execution: its stage, the number of items in the plan, and how
/// many of them were published and recorded.
#[derive(Debug, Clone, Copy, PartialEq, Eq, Structural)]
pub struct ExecutionState {
    pub stage: ExecutionStage,
    pub total: usize,
    pub recorded: usize,
}

/// What the caller reports after performing the last action.
#[derive(Debug, Clone, Copy, PartialEq, Eq, Structural)]
pub enum ExecutionEvent {
    /// Begin the execution.
    Start,
    /// The intent log was written, the plan marked executing and the operation executing.
    IntentLogged,
    /// The running item reached its target.
    ItemPublished,
    /// The running item failed.
    ItemFailed,
    /// The published item was recorded and the index reconciled.
    ItemRecorded,
}

/// What the caller performs next.
#[derive(Debug, Clone, Copy, PartialEq, Eq, Structural)]
pub enum ExecutionAction {
    /// Log the intent of every item, mark the plan and the operation executing.
    LogIntent,
    /// Check the item at this index again and move or copy it.
    RunItem(usize),
    /// Record the published item at this index and reconcile the index.
    RecordItem(usize),
    /// Mark the item at this index failed and the operation with this status.
    FailItem(usize, OperationStatus),
    /// Mark the operation and the plan completed.
    Complete,
    /// The event does not belong to this stage; nothing is done.
    OutOfOrder,
}

/// The states an execution can be in.
pub open spec fn execution_wf(s: ExecutionState) -> bool {
    &&& s.recorded <= s.total
    &&& match s.stage {
        ExecutionStage::Checked | ExecutionStage::LoggingIntent => s.recorded == 0,
        ExecutionStage::RunningItem | ExecutionStage::RecordingItem | ExecutionStage::Stopped => s.recorded
            < s.total,
        ExecutionStage::Completed => s.recorded == s.total,
    }
}

/// The first state of an execution of `total` items.
pub open spec fn execution_start(total: usize) -> ExecutionState {
    ExecutionState { stage: ExecutionStage::Checked, total, recorded: 0 }
}

pub open spec fn with_stage(s: ExecutionState, stage: ExecutionStage) -> ExecutionState {
    ExecutionState { stage, total: s.total, recorded: s.recorded }
}

/// One step of an execution: the next state and the action for an event.
pub open spec fn execution_next(s: ExecutionState, e: ExecutionEvent) -> (ExecutionState, ExecutionAction) {
    match (s.stage, e) {
        (ExecutionStage::Checked, ExecutionEvent::Start) => (
            with_stage(s, ExecutionStage::LoggingIntent),
            ExecutionAction::LogIntent,
        ),
        (ExecutionStage::LoggingIntent, ExecutionEvent::IntentLogged) => if s.total == 0 {
            (with_stage(s, ExecutionStage::Completed), ExecutionAction::Complete)
        } else {
            (with_stage(s, ExecutionStage::RunningItem), ExecutionAction::RunItem(s.recorded))
        },
        (ExecutionStage::RunningItem, ExecutionEvent::ItemPublished) => (
            with_stage(s, ExecutionStage::RecordingItem),
            ExecutionAction::RecordItem(s.recorded),
        ),
        (ExecutionStage::RunningItem, ExecutionEvent::ItemFailed) => (
            with_stage(s, ExecutionStage::Stopped),
            ExecutionAction::FailItem(
                s.recorded,
                if s.recorded == 0 {
                    OperationStatus::Failed
                } else {
                    OperationStatus::RecoveryNeeded
                },
            ),
        ),
        (ExecutionStage::RecordingItem, ExecutionEvent::ItemRecorded) => {
            let recorded = (s.recorded + 1) as usize;
            if recorded >= s.total {
                (
                    ExecutionState { stage: ExecutionStage::Completed, total: s.total, recorded },
                    ExecutionAction::Complete,
                )
            } else {
                (
                    ExecutionState { stage: ExecutionStage::RunningItem, total: s.total, recorded },
                    ExecutionAction::RunItem(recorded),
                )
            }
        },
        _ => (s, ExecutionAction::OutOfOrder),
    }
}

impl ExecutionState {
    /// An execution of `total` items whose gate and preflights passed.
    pub fn start(total: usize) -> (r: ExecutionState)
        ensures
            r == execution_start(total),
            execution_wf(r),
    {
        ExecutionState { stage: ExecutionStage::Checked, total, recorded: 0 }
    }
}

/// Advances an execution by the event that the caller reports, and says what to do next.
pub fn execution_step(state: ExecutionState, event: ExecutionEvent) -> (r: (
    ExecutionState,
    ExecutionAction,
))
    requires
        execution_wf(state),
    ensures
        r == execution_next(state, event),
        execution_wf(r.0),
{
    match (state.stage, event) {
        (ExecutionStage::Checked, ExecutionEvent::Start) => (
            ExecutionState { stage: ExecutionStage::LoggingIntent, total: state.total, recorded: state.recorded },
            ExecutionAction::LogIntent,
        ),
        (ExecutionStage::LoggingIntent, ExecutionEvent::IntentLogged) => if state.total == 0 {
            (
                ExecutionState { stage: ExecutionStage::Completed, total: state.total, recorded: state.recorded },
                ExecutionAction::Complete,
            )
        } else {
            (
                ExecutionState { stage: ExecutionStage::RunningItem, total: state.total, recorded: state.recorded },
                ExecutionAction::RunItem(state.recorded),
            )
        },
        (ExecutionStage::RunningItem, ExecutionEvent::ItemPublished) => (
            ExecutionState { stage: ExecutionStage::RecordingItem, total: state.total, recorded: state.recorded },
            ExecutionAction::RecordItem(state.recorded),
        ),
        (ExecutionStage::RunningItem, ExecutionEvent::ItemFailed) => {
            let status = crate::operations::failed_operation_status(state.recorded);
            (
                ExecutionState { stage: ExecutionStage::Stopped, total: state.total, recorded: state.recorded },
                ExecutionAction::FailItem(state.recorded, status),
            )
        },
        (ExecutionStage::RecordingItem, ExecutionEvent::ItemRecorded) => {
            let recorded = state.recorded + 1;
            if recorded >= state.total {
                (
                    ExecutionState { stage: ExecutionStage::Completed, total: state.total, recorded },
                    ExecutionAction::Complete,
                )
            } else {
                (
                    ExecutionState { stage: ExecutionStage::RunningItem, total: state.total, recorded },
                    ExecutionAction::RunItem(recorded),
                )
            }
        },
        _ => (state, ExecutionAction::OutOfOrder),
    }
}

/// The state reached and the actions asked for when the events are reported in turn,
/// from the start of an execution of `total` items.
pub open spec fn execution_run(total: usize, events: Seq<ExecutionEvent>) -> (ExecutionState, Seq<ExecutionAction>)
    decreases events.len(),
{
    if events.len() == 0 {
        (execution_start(total), Seq::empty())
    } else {
        let before = execution_run(total, events.drop_last());
        let step = execution_next(before.0, events.last());
        (step.0, before.1.push(step.1))
    }
}

/// Action `a` was asked for before position `k`.
pub open spec fn action_before(acts: Seq<ExecutionAction>, a: ExecutionAction, k: int) -> bool {
    exists|j: int| 0 <= j < k && acts[j] == a
}

/// Some item was recorded before position `k`.
pub open spec fn record_before(acts: Seq<ExecutionAction>, k: int) -> bool {
    exists|j: int| 0 <= j < k && #[trigger] acts[j] is RecordItem
}

/// Every item of the plan was recorded before position `k`.
pub open spec fn all_recorded_before(acts: Seq<ExecutionAction>, total: usize, k: int) -> bool {
    forall|i: int| 0 <= i < total ==> #[trigger] action_before(acts, ExecutionAction::RecordItem(i as usize), k)
}

/// The durable order of a trace of actions: no item runs before the intent is logged,
/// an item runs only after the one before it was recorded, a failure marks the
/// operation failed while nothing was recorded and for recovery once something was,
/// and completion comes only after every item was recorded.
pub open spec fn durable_order(total: usize, acts: Seq<ExecutionAction>) -> bool {
    &&& forall|k: int| 0 <= k < acts.len() && #[trigger] acts[k] is RunItem ==> {
        &&& action_before(acts, ExecutionAction::LogIntent, k)
        &&& acts[k]->RunItem_0 > 0 ==> action_before(acts, ExecutionAction::RecordItem((acts[k]->RunItem_0 - 1) as usize), k)
    }
    &&& forall|k: int| 0 <= k < acts.len() && #[trigger] acts[k] is FailItem ==> {
        &&& acts[k]->FailItem_1 == OperationStatus::RecoveryNeeded <==> record_before(acts, k)
        &&& acts[k]->FailItem_1 == OperationStatus::Failed <==> !record_before(acts, k)
    }
    &&& forall|k: int| 0 <= k < acts.len() && #[trigger] acts[k] is Complete ==> all_recorded_before(acts, total, k)
}


/// What a trace of actions shows of the state it led to.
spec fn run_inv(total: usize, s: ExecutionState, acts: Seq<ExecutionAction>) -> bool {
    let n = acts.len() as int;
    &&& s.total == total
    &&& execution_wf(s)
    &&& s.stage != ExecutionStage::Checked ==> action_before(acts, ExecutionAction::LogIntent, n)
    &&& forall|i: int| 0 <= i < s.recorded ==> #[trigger] action_before(acts, ExecutionAction::RecordItem(i as usize), n)
    &&& record_before(acts, n) <==> (s.recorded > 0 || s.stage == ExecutionStage::RecordingItem)
    &&& s.stage == ExecutionStage::RecordingItem ==> action_before(acts, ExecutionAction::RecordItem(s.recorded), n)
}

proof fn lemma_push_keeps_past(acts: Seq<ExecutionAction>, x: ExecutionAction)
    ensures
        forall|a: ExecutionAction, k: int| 0 <= k <= acts.len() ==> #[trigger] action_before(acts.push(x), a, k) == action_before(acts, a, k),
        forall|k: int| 0 <= k <= acts.len() ==> #[trigger] record_before(acts.push(x), k) == record_before(acts, k),
        forall|a: ExecutionAction| #[trigger] action_before(acts.push(x), a, acts.len() as int + 1) == (action_before(acts, a, acts.len() as int) || a == x),
        record_before(acts.push(x), acts.len() as int + 1) == (record_before(acts, acts.len() as int) || x is RecordItem),
{
    let acts2 = acts.push(x);
    let n = acts.len() as int;
    assert forall|a: ExecutionAction, k: int| 0 <= k <= n implies #[trigger] action_before(acts2, a, k) == action_before(acts, a, k) by {
        if action_before(acts, a, k) {
            let j = choose|j: int| 0 <= j < k && acts[j] == a;
            assert(acts2[j] == a);
        }
        if action_before(acts2, a, k) {
            let j = choose|j: int| 0 <= j < k && acts2[j] == a;
            assert(acts[j] == a);
        }
    }
    assert forall|k: int| 0 <= k <= n implies #[trigger] record_before(acts2, k) == record_before(acts, k) by {
        if record_before(acts, k) {
            let j = choose|j: int| 0 <= j < k && acts[j] is RecordItem;
            assert(acts2[j] is RecordItem);
        }
        if record_before(acts2, k) {
            let j = choose|j: int| 0 <= j < k && acts2[j] is RecordItem;
            assert(acts[j] is RecordItem);
        }
    }
    assert forall|a: ExecutionAction| #[trigger] action_before(acts2, a, n + 1) == (action_before(acts, a, n) || a == x) by {
        if action_before(acts, a, n) {
            let j = choose|j: int| 0 <= j < n && acts[j] == a;
            assert(acts2[j] == a);
        }
        if a == x {
            assert(acts2[n] == a);
        }
        if action_before(acts2, a, n + 1) {
            let j = choose|j: int| 0 <= j < n + 1 && acts2[j] == a;
            if j < n {
                assert(acts[j] == a);
            }
        }
    }
    if record_before(acts, n) {
        let j = choose|j: int| 0 <= j < n && acts[j] is RecordItem;
        assert(acts2[j] is RecordItem);
    }
    if x is RecordItem {
        assert(acts2[n] is RecordItem);
    }
    if record_before(acts2, n + 1) {
        let j = choose|j: int| 0 <= j < n + 1 && acts2[j] is RecordItem;
        if j < n {
            assert(acts[j] is RecordItem);
        }
    }
}

proof fn lemma_run_keeps_order(total: usize, events: Seq<ExecutionEvent>)
    ensures
        run_inv(total, execution_run(total, events).0, execution_run(total, events).1),
        durable_order(total, execution_run(total, events).1),
    decreases events.len(),
{
    if events.len() == 0 {
        return;
    }
    lemma_run_keeps_order(total, events.drop_last());
    let before = execution_run(total, events.drop_last());
    let s = before.0;
    let acts = before.1;
    let e = events.last();
    let step = execution_next(s, e);
    let x = step.1;
    let acts2 = acts.push(x);
    let n = acts.len() as int;
    assert(execution_run(total, events) == (step.0, acts2));
    lemma_push_keeps_past(acts, x);
    assert forall|k: int| 0 <= k < n && #[trigger] acts[k] is Complete implies all_recorded_before(acts2, total, k) by {
        assert forall|i: int| 0 <= i < total implies #[trigger] action_before(acts2, ExecutionAction::RecordItem(i as usize), k) by {
            assert(action_before(acts, ExecutionAction::RecordItem(i as usize), k));
        }
    }
    assert(acts2[n] == x);
    assert forall|k: int| 0 <= k < n implies #[trigger] acts2[k] == acts[k] by {}
    if x is Complete {
        assert forall|i: int| 0 <= i < total implies #[trigger] action_before(acts2, ExecutionAction::RecordItem(i as usize), n) by {
            if i < s.recorded {
                assert(action_before(acts, ExecutionAction::RecordItem(i as usize), n));
            } else {
                assert(i == s.recorded);
            }
        }
    }
    if step.0.stage == ExecutionStage::RunningItem && s.stage == ExecutionStage::RecordingItem {
        assert forall|i: int| 0 <= i < step.0.recorded implies #[trigger] action_before(acts2, ExecutionAction::RecordItem(i as usize), n + 1) by {
            if i < s.recorded {
                assert(action_before(acts, ExecutionAction::RecordItem(i as usize), n));
            } else {
                assert(i == s.recorded);
            }
        }
    }
    if step.0.stage == ExecutionStage::Completed && s.stage == ExecutionStage::RecordingItem {
        assert forall|i: int| 0 <= i < step.0.recorded implies #[trigger] action_before(acts2, ExecutionAction::RecordItem(i as usize), n + 1) by {
            if i < s.recorded {
                assert(action_before(acts, ExecutionAction::RecordItem(i as usize), n));
            } else {
                assert(i == s.recorded);
            }
        }
    }
}

/// Whatever outcomes the caller reports, and in whatever order, the actions asked for
/// keep the durable order: the intent is logged before any item runs, each item is
/// recorded before the next one runs, a failure leaves the operation failed while
/// nothing was recorded and needing recovery once something was, and completion comes
/// only after every item was recorded.
pub proof fn lemma_execution_keeps_durable_order(total: usize, events: Seq<ExecutionEvent>)
    ensures
        durable_order(total, execution_run(total, events).1),
        execution_wf(execution_run(total, events).0),
{
    lemma_run_keeps_order(total, events);
}

} // verus!
