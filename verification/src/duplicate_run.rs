//! The order of work in a controlled duplicate analysis: before each file of each tier
//! the caller is asked whether to go on, the sampled tier runs over every candidate
//! before the full tier starts, and an answer to stop ends the analysis. The caller
//! reads the files and answers; this module decides what comes next.
use vstd::prelude::*;
use crate::duplicates::{duplicate_progress, duplicate_total_work, DuplicatePhase, DuplicateProgress};

verus! {

/// Where a duplicate analysis stands.
#[derive(Debug, Clone, Copy, PartialEq, Eq, Structural)]
pub enum DuplicateStage {
    /// Waiting for the answer to go on before sampling candidate `probes`.
    AskQuick,
    /// Sampling candidate `probes`.
    Probing,
    /// Every candidate is sampled; waiting for the candidates of the full tier.
    Planning,
    /// Waiting for the answer to go on before fully hashing candidate `hashed`.
    AskFull,
    /// Fully hashing candidate `hashed` of the full tier.
    Hashing,
    /// The analysis ended.
    Finished,
}

/// The state of a duplicate analysis over `plan_len` candidates, of which `full_len`
/// go on to the full tier.
#[derive(Debug, Clone, Copy, PartialEq, Eq, Structural)]
pub struct DuplicateRun {
    pub stage: DuplicateStage,
    pub plan_len: usize,
    pub full_len: usize,
    pub probes: usize,
    pub hashed: usize,
}

/// What the caller reports.
#[derive(Debug, Clone, Copy, PartialEq, Eq, Structural)]
pub enum DuplicateEvent {
    /// The answer of the caller's `should_continue`.
    Answer(bool),
    /// The candidate was sampled (or found changed).
    Probed,
    /// The full tier has this many candidates.
    Planned(usize),
    /// The candidate was fully hashed (or found changed).
    Hashed,
}

/// What the caller does next.
#[derive(Debug, Clone, Copy, PartialEq, Eq, Structural)]
pub enum DuplicateAction {
    /// Ask `should_continue` with this progress.
    Ask(DuplicateProgress),
    /// Sample the candidate at this position of the plan.
    Probe(usize),
    /// Choose the candidates of the full tier from the samples.
    PlanFull,
    /// Fully hash the candidate at this position of the full tier.
    Hash(usize),
    /// Assemble the report; the flag says whether the analysis was stopped.
    Finish(bool),
    /// The event does not belong to this stage; nothing is done.
    OutOfOrder,
}

/// Total work of an analysis: each candidate is sampled once and hashed at most once.
pub open spec fn run_total_work(plan_len: usize) -> usize {
    if 2 * plan_len > usize::MAX {
        usize::MAX
    } else {
        (2 * plan_len) as usize
    }
}

/// The progress reported after `probes` samples and `hashed` full hashes.
pub open spec fn run_progress(s: DuplicateRun) -> DuplicateProgress {
    DuplicateProgress {
        phase: if s.probes < s.plan_len {
            DuplicatePhase::QuickFingerprint
        } else {
            DuplicatePhase::FullHash
        },
        processed_files: if s.probes + s.hashed > usize::MAX {
            usize::MAX
        } else {
            (s.probes + s.hashed) as usize
        },
        total_work: run_total_work(s.plan_len),
    }
}

pub open spec fn run_wf(s: DuplicateRun) -> bool {
    &&& s.probes <= s.plan_len
    &&& s.hashed <= s.full_len
    &&& s.full_len <= s.plan_len
    &&& match s.stage {
        DuplicateStage::AskQuick | DuplicateStage::Probing => s.probes < s.plan_len && s.full_len
            == 0,
        DuplicateStage::Planning => s.probes == s.plan_len && s.full_len == 0,
        DuplicateStage::AskFull | DuplicateStage::Hashing => s.probes == s.plan_len && s.hashed
            < s.full_len,
        DuplicateStage::Finished => true,
    }
}

pub open spec fn with_run_stage(s: DuplicateRun, stage: DuplicateStage) -> DuplicateRun {
    DuplicateRun { stage, ..s }
}

/// What follows in the sampled tier: ask before the next candidate, or plan the full tier.
pub open spec fn next_quick(s: DuplicateRun) -> (DuplicateRun, DuplicateAction) {
    if s.probes < s.plan_len {
        (with_run_stage(s, DuplicateStage::AskQuick), DuplicateAction::Ask(run_progress(s)))
    } else {
        (with_run_stage(s, DuplicateStage::Planning), DuplicateAction::PlanFull)
    }
}

/// What follows in the full tier: ask before the next candidate, or finish.
pub open spec fn next_full(s: DuplicateRun) -> (DuplicateRun, DuplicateAction) {
    if s.hashed < s.full_len {
        (with_run_stage(s, DuplicateStage::AskFull), DuplicateAction::Ask(run_progress(s)))
    } else {
        (with_run_stage(s, DuplicateStage::Finished), DuplicateAction::Finish(false))
    }
}

/// The first state and action of an analysis over `plan_len` candidates.
pub open spec fn run_start(plan_len: usize) -> (DuplicateRun, DuplicateAction) {
    next_quick(
        DuplicateRun { stage: DuplicateStage::AskQuick, plan_len, full_len: 0, probes: 0, hashed: 0 },
    )
}

/// One step of an analysis: the next state and action for an event.
pub open spec fn run_next(s: DuplicateRun, e: DuplicateEvent) -> (DuplicateRun, DuplicateAction) {
    match (s.stage, e) {
        (DuplicateStage::AskQuick, DuplicateEvent::Answer(go)) => if go {
            (with_run_stage(s, DuplicateStage::Probing), DuplicateAction::Probe(s.probes))
        } else {
            (with_run_stage(s, DuplicateStage::Finished), DuplicateAction::Finish(true))
        },
        (DuplicateStage::Probing, DuplicateEvent::Probed) => next_quick(
            DuplicateRun { probes: (s.probes + 1) as usize, ..s },
        ),
        (DuplicateStage::Planning, DuplicateEvent::Planned(n)) => if n <= s.plan_len {
            next_full(DuplicateRun { full_len: n, ..s })
        } else {
            (s, DuplicateAction::OutOfOrder)
        },
        (DuplicateStage::AskFull, DuplicateEvent::Answer(go)) => if go {
            (with_run_stage(s, DuplicateStage::Hashing), DuplicateAction::Hash(s.hashed))
        } else {
            (with_run_stage(s, DuplicateStage::Finished), DuplicateAction::Finish(true))
        },
        (DuplicateStage::Hashing, DuplicateEvent::Hashed) => next_full(
            DuplicateRun { hashed: (s.hashed + 1) as usize, ..s },
        ),
        _ => (s, DuplicateAction::OutOfOrder),
    }
}

fn progress_now(s: &DuplicateRun) -> (r: DuplicateProgress)
    requires
        run_wf(*s),
    ensures
        r == run_progress(*s),
{
    let total_work = duplicate_total_work(s.plan_len);
    duplicate_progress(s.plan_len, s.probes, s.hashed, total_work)
}

fn quick_or_plan(s: DuplicateRun) -> (r: (DuplicateRun, DuplicateAction))
    requires
        s.probes <= s.plan_len,
        s.full_len == 0,
        s.hashed == 0,
    ensures
        r == next_quick(s),
        run_wf(r.0),
{
    if s.probes < s.plan_len {
        let p = progress_now(&DuplicateRun { stage: DuplicateStage::AskQuick, ..s });
        (DuplicateRun { stage: DuplicateStage::AskQuick, ..s }, DuplicateAction::Ask(p))
    } else {
        (DuplicateRun { stage: DuplicateStage::Planning, ..s }, DuplicateAction::PlanFull)
    }
}

fn full_or_finish(s: DuplicateRun) -> (r: (DuplicateRun, DuplicateAction))
    requires
        s.probes == s.plan_len,
        s.hashed <= s.full_len,
        s.full_len <= s.plan_len,
    ensures
        r == next_full(s),
        run_wf(r.0),
{
    if s.hashed < s.full_len {
        let p = progress_now(&DuplicateRun { stage: DuplicateStage::AskFull, ..s });
        (DuplicateRun { stage: DuplicateStage::AskFull, ..s }, DuplicateAction::Ask(p))
    } else {
        (DuplicateRun { stage: DuplicateStage::Finished, ..s }, DuplicateAction::Finish(false))
    }
}

impl DuplicateRun {
    /// Starts an analysis over `plan_len` candidates: its state and first action.
    pub fn start(plan_len: usize) -> (r: (DuplicateRun, DuplicateAction))
        ensures
            r == run_start(plan_len),
            run_wf(r.0),
    {
        quick_or_plan(
            DuplicateRun { stage: DuplicateStage::AskQuick, plan_len, full_len: 0, probes: 0, hashed: 0 },
        )
    }
}

/// Advances an analysis by the event that the caller reports, and says what to do next.
pub fn duplicate_run_step(state: DuplicateRun, event: DuplicateEvent) -> (r: (DuplicateRun, DuplicateAction))
    requires
        run_wf(state),
    ensures
        r == run_next(state, event),
        run_wf(r.0),
{
    match (state.stage, event) {
        (DuplicateStage::AskQuick, DuplicateEvent::Answer(go)) => if go {
            (DuplicateRun { stage: DuplicateStage::Probing, ..state }, DuplicateAction::Probe(state.probes))
        } else {
            (DuplicateRun { stage: DuplicateStage::Finished, ..state }, DuplicateAction::Finish(true))
        },
        (DuplicateStage::Probing, DuplicateEvent::Probed) => quick_or_plan(
            DuplicateRun { probes: state.probes + 1, ..state },
        ),
        (DuplicateStage::Planning, DuplicateEvent::Planned(n)) => if n <= state.plan_len {
            full_or_finish(DuplicateRun { full_len: n, ..state })
        } else {
            (state, DuplicateAction::OutOfOrder)
        },
        (DuplicateStage::AskFull, DuplicateEvent::Answer(go)) => if go {
            (DuplicateRun { stage: DuplicateStage::Hashing, ..state }, DuplicateAction::Hash(state.hashed))
        } else {
            (DuplicateRun { stage: DuplicateStage::Finished, ..state }, DuplicateAction::Finish(true))
        },
        (DuplicateStage::Hashing, DuplicateEvent::Hashed) => full_or_finish(
            DuplicateRun { hashed: state.hashed + 1, ..state },
        ),
        _ => (state, DuplicateAction::OutOfOrder),
    }
}


/// The state reached and the actions asked for when the events are reported in turn:
/// the first action comes from the start, and action `k + 1` answers event `k`.
pub open spec fn duplicate_trace(plan_len: usize, events: Seq<DuplicateEvent>) -> (DuplicateRun, Seq<DuplicateAction>)
    decreases events.len(),
{
    if events.len() == 0 {
        let first = run_start(plan_len);
        (first.0, seq![first.1])
    } else {
        let before = duplicate_trace(plan_len, events.drop_last());
        let step = run_next(before.0, events.last());
        (step.0, before.1.push(step.1))
    }
}

/// A progress report counts against the total work of the analysis and stays within it,
/// strictly below it unless the total had to be cut to `usize::MAX`.
pub open spec fn ask_bounded(plan_len: usize, p: DuplicateProgress) -> bool {
    &&& p.total_work == run_total_work(plan_len)
    &&& p.processed_files <= p.total_work
    &&& 2 * plan_len <= usize::MAX ==> p.processed_files < p.total_work
}

/// The order of the questions in a trace: each progress is bounded by the total work,
/// progress never goes back, every question of the sampled tier comes before every
/// question of the full tier, nothing is asked or done after the analysis finished, and
/// an analysis without candidates asks nothing.
pub open spec fn asks_in_order(plan_len: usize, acts: Seq<DuplicateAction>) -> bool {
    &&& forall|k: int| 0 <= k < acts.len() && (#[trigger] acts[k]) is Ask ==> ask_bounded(plan_len, acts[k]->Ask_0)
    &&& forall|j: int, k: int|
        #![trigger acts[j], acts[k]]
        0 <= j < k < acts.len() && acts[j] is Ask && acts[k] is Ask ==> {
            &&& acts[j]->Ask_0.processed_files <= acts[k]->Ask_0.processed_files
            &&& acts[k]->Ask_0.phase == DuplicatePhase::QuickFingerprint ==> acts[j]->Ask_0.phase
                == DuplicatePhase::QuickFingerprint
        }
    &&& forall|j: int, k: int|
        #![trigger acts[j], acts[k]]
        0 <= j < k < acts.len() && acts[j] is Finish ==> acts[k] is OutOfOrder
    &&& plan_len == 0 ==> forall|k: int| 0 <= k < acts.len() ==> !((#[trigger] acts[k]) is Ask)
}

spec fn run_done(s: DuplicateRun) -> int {
    if s.probes + s.hashed > usize::MAX {
        usize::MAX as int
    } else {
        s.probes + s.hashed
    }
}

spec fn trace_inv(plan_len: usize, s: DuplicateRun, acts: Seq<DuplicateAction>) -> bool {
    &&& s.plan_len == plan_len
    &&& run_wf(s)
    &&& asks_in_order(plan_len, acts)
    &&& forall|k: int| 0 <= k < acts.len() && (#[trigger] acts[k]) is Ask ==> acts[k]->Ask_0.processed_files <= run_done(s)
    &&& forall|k: int|
        0 <= k < acts.len() && (#[trigger] acts[k]) is Ask && acts[k]->Ask_0.phase == DuplicatePhase::FullHash
            ==> s.probes == s.plan_len
    &&& forall|k: int| 0 <= k < acts.len() && (#[trigger] acts[k]) is Finish ==> s.stage == DuplicateStage::Finished
}

proof fn lemma_fresh_ask(s: DuplicateRun)
    requires
        run_wf(s),
        s.probes < s.plan_len || (s.probes == s.plan_len && s.hashed < s.full_len),
    ensures
        ask_bounded(s.plan_len, run_progress(s)),
        run_progress(s).processed_files == run_done(s),
        run_progress(s).phase == DuplicatePhase::FullHash <==> s.probes == s.plan_len,
{
}

proof fn lemma_trace_in_order(plan_len: usize, events: Seq<DuplicateEvent>)
    ensures
        trace_inv(plan_len, duplicate_trace(plan_len, events).0, duplicate_trace(plan_len, events).1),
        duplicate_trace(plan_len, events).1.len() == events.len() + 1,
    decreases events.len(),
{
    if events.len() == 0 {
        let first = run_start(plan_len);
        let s0 = DuplicateRun { stage: DuplicateStage::AskQuick, plan_len, full_len: 0, probes: 0, hashed: 0 };
        if 0 < plan_len {
            lemma_fresh_ask(with_run_stage(s0, DuplicateStage::AskQuick));
        }
        let acts = seq![first.1];
        assert(acts[0] == first.1);
        return;
    }
    lemma_trace_in_order(plan_len, events.drop_last());
    let before = duplicate_trace(plan_len, events.drop_last());
    let s = before.0;
    let acts = before.1;
    let e = events.last();
    let step = run_next(s, e);
    let s2 = step.0;
    let x = step.1;
    let acts2 = acts.push(x);
    let n = acts.len() as int;
    assert(duplicate_trace(plan_len, events) == (s2, acts2));
    assert(acts2[n] == x);
    assert forall|k: int| 0 <= k < n implies #[trigger] acts2[k] == acts[k] by {}
    assert(run_done(s) <= run_done(s2));
    assert(s.probes <= s2.probes);
    if x is Ask {
        if s2.stage == DuplicateStage::AskQuick {
            lemma_fresh_ask(s2);
        } else {
            lemma_fresh_ask(s2);
        }
        assert(x->Ask_0 == run_progress(s2));
    }
    if s.stage == DuplicateStage::Finished {
        assert(x is OutOfOrder);
    }
    assert forall|j: int, k: int|
        #![trigger acts2[j], acts2[k]]
        0 <= j < k < acts2.len() && acts2[j] is Finish implies acts2[k] is OutOfOrder by {
        if k < n {
            assert(acts[j] is Finish);
        } else {
            assert(acts[j] is Finish);
            assert(s.stage == DuplicateStage::Finished);
        }
    }
    assert forall|j: int, k: int|
        #![trigger acts2[j], acts2[k]]
        0 <= j < k < acts2.len() && acts2[j] is Ask && acts2[k] is Ask implies {
            &&& acts2[j]->Ask_0.processed_files <= acts2[k]->Ask_0.processed_files
            &&& acts2[k]->Ask_0.phase == DuplicatePhase::QuickFingerprint ==> acts2[j]->Ask_0.phase
                == DuplicatePhase::QuickFingerprint
        } by {
        if k < n {
            assert(acts[j] is Ask && acts[k] is Ask);
        } else {
            assert(acts[j] is Ask);
            assert(acts[j]->Ask_0.processed_files <= run_done(s));
        }
    }
}

/// Whatever the caller answers and reports, and in whatever order, the analysis asks in
/// order: each progress counts against a total of twice the candidates (cut to
/// `usize::MAX`) and stays below it, progress never goes back, the sampled tier is asked
/// about before the full tier, nothing is asked or done after the analysis finished,
/// and an analysis without candidates asks nothing. It finishes as stopped exactly when
/// the answer it acted on was to stop.
pub proof fn lemma_duplicate_run_asks_in_order(plan_len: usize, events: Seq<DuplicateEvent>)
    ensures
        asks_in_order(plan_len, duplicate_trace(plan_len, events).1),
        forall|k: int|
            0 <= k < events.len() && (#[trigger] duplicate_trace(plan_len, events).1[k + 1]) is Finish
                ==> (duplicate_trace(plan_len, events).1[k + 1]->Finish_0 <==> events[k]
                == DuplicateEvent::Answer(false)),
    decreases events.len(),
{
    lemma_trace_in_order(plan_len, events);
    if events.len() > 0 {
        lemma_duplicate_run_asks_in_order(plan_len, events.drop_last());
        lemma_trace_in_order(plan_len, events.drop_last());
        let acts = duplicate_trace(plan_len, events.drop_last()).1;
        let acts2 = duplicate_trace(plan_len, events).1;
        assert forall|k: int| 0 <= k < events.len() - 1 implies #[trigger] acts2[k + 1] == acts[k + 1] by {}
        assert forall|k: int| 0 <= k < events.len() - 1 implies #[trigger] events[k] == events.drop_last()[k] by {}
    }
}

} // verus!
