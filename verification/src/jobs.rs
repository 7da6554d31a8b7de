//! Decisions of the background job worker: which loop runs a claimed job, when a
//! running job reports progress, how the status it reads back steers it, and how a
//! run ends.
use vstd::prelude::*;
use crate::domain::JobStatus;
use crate::storage::JobTransferResult;
use crate::text::{chars_of, chars_eq_str, string_from_str};

verus! {

/// The loop that runs a claimed job.
#[derive(Debug, Clone, Copy, PartialEq, Eq, Structural)]
pub enum JobRoute {
    Scan,
    ExactDuplicates,
    Similarity,
    Unknown,
}

/// The loop for a job kind.
pub open spec fn job_route_of(kind: Seq<char>) -> JobRoute {
    if kind == "exact_duplicate_analysis"@ {
        JobRoute::ExactDuplicates
    } else if kind == "similar_text_analysis"@ || kind == "similar_image_analysis"@ {
        JobRoute::Similarity
    } else if kind == "library_scan"@ || kind == "snapshot_reconcile"@ {
        JobRoute::Scan
    } else {
        JobRoute::Unknown
    }
}

/// Picks the loop that runs a claimed job of the given kind.
pub fn job_route(kind: &str) -> (r: JobRoute)
    ensures
        r == job_route_of(kind@),
{
    let v = chars_of(kind);
    if chars_eq_str(&v, "exact_duplicate_analysis") {
        JobRoute::ExactDuplicates
    } else if chars_eq_str(&v, "similar_text_analysis") || chars_eq_str(&v, "similar_image_analysis") {
        JobRoute::Similarity
    } else if chars_eq_str(&v, "library_scan") || chars_eq_str(&v, "snapshot_reconcile") {
        JobRoute::Scan
    } else {
        JobRoute::Unknown
    }
}

/// The failure recorded for a job of a kind that no loop runs.
pub open spec fn unknown_job_message(kind: Seq<char>) -> Seq<char> {
    "未知任务类型："@ + kind
}

/// The failure message for a job of a kind that no loop runs.
pub fn unknown_job_detail(kind: &str) -> (r: String)
    ensures
        r@ == unknown_job_message(kind@),
{
    let mut m = string_from_str("未知任务类型：");
    m.append(kind);
    m
}

/// The work a running job does; each names its own failures.
#[derive(Debug, Clone, Copy, PartialEq, Eq, Structural)]
pub enum JobWork {
    Scan,
    ExactDuplicates,
    Similarity,
}

/// The start of the failure recorded when a running job finds an unexpected status.
pub open spec fn unexpected_status_prefix(work: JobWork) -> Seq<char> {
    match work {
        JobWork::Scan => "任务扫描时进入了意外状态："@,
        JobWork::ExactDuplicates => "重复分析进入了意外状态："@,
        JobWork::Similarity => "相似内容分析进入了意外状态："@,
    }
}

/// The failure recorded when a running job finds its record gone.
pub open spec fn vanished_message(work: JobWork) -> Seq<char> {
    match work {
        JobWork::Scan => "任务记录在扫描过程中消失"@,
        JobWork::ExactDuplicates => "重复分析任务记录消失"@,
        JobWork::Similarity => "相似内容分析任务记录消失"@,
    }
}

/// The name of a status as the `Debug` form writes it.
pub open spec fn job_status_debug(status: JobStatus) -> Seq<char> {
    match status {
        JobStatus::Queued => "Queued"@,
        JobStatus::Running => "Running"@,
        JobStatus::PauseRequested => "PauseRequested"@,
        JobStatus::Paused => "Paused"@,
        JobStatus::CancelRequested => "CancelRequested"@,
        JobStatus::Completed => "Completed"@,
        JobStatus::Failed => "Failed"@,
        JobStatus::Cancelled => "Cancelled"@,
    }
}

/// The `Debug` name of a job status.
pub fn job_status_debug_name(status: JobStatus) -> (r: &'static str)
    ensures
        r@ == job_status_debug(status),
{
    match status {
        JobStatus::Queued => "Queued",
        JobStatus::Running => "Running",
        JobStatus::PauseRequested => "PauseRequested",
        JobStatus::Paused => "Paused",
        JobStatus::CancelRequested => "CancelRequested",
        JobStatus::Completed => "Completed",
        JobStatus::Failed => "Failed",
        JobStatus::Cancelled => "Cancelled",
    }
}

/// A request from the user that a running job stops: pause or cancel.
pub open spec fn is_control_request(status: JobStatus) -> bool {
    status == JobStatus::PauseRequested || status == JobStatus::CancelRequested
}

/// What a running job does next.
#[derive(Debug, Clone, PartialEq, Eq)]
pub enum ControlStep {
    /// Keep working.
    Continue,
    /// Stop and leave the job to the request that was read.
    Yield(JobStatus),
    /// Stop and fail the job with this message.
    Fail(String),
}

/// Steers a running job by the status read back after a progress report: `Err` holds
/// the message of a failed read. Only `Running` lets the work go on; a pause or cancel
/// request stops it for that request; anything else fails it.
pub fn control_step(work: JobWork, observed: Result<Option<JobStatus>, String>) -> (r: ControlStep)
    ensures
        match observed {
            Err(e) => r matches ControlStep::Fail(m) && m@ == e@,
            Ok(None) => r matches ControlStep::Fail(m) && m@ == vanished_message(work),
            Ok(Some(s)) => if s == JobStatus::Running {
                r matches ControlStep::Continue
            } else if is_control_request(s) {
                r matches ControlStep::Yield(t) && t == s
            } else {
                r matches ControlStep::Fail(m) && m@ == unexpected_status_prefix(work) + job_status_debug(s)
            },
        },
{
    match observed {
        Err(e) => ControlStep::Fail(e),
        Ok(None) => {
            let m = match work {
                JobWork::Scan => "任务记录在扫描过程中消失",
                JobWork::ExactDuplicates => "重复分析任务记录消失",
                JobWork::Similarity => "相似内容分析任务记录消失",
            };
            ControlStep::Fail(string_from_str(m))
        },
        Ok(Some(s)) => match s {
            JobStatus::Running => ControlStep::Continue,
            JobStatus::PauseRequested => ControlStep::Yield(JobStatus::PauseRequested),
            JobStatus::CancelRequested => ControlStep::Yield(JobStatus::CancelRequested),
            _ => {
                let prefix = match work {
                    JobWork::Scan => "任务扫描时进入了意外状态：",
                    JobWork::ExactDuplicates => "重复分析进入了意外状态：",
                    JobWork::Similarity => "相似内容分析进入了意外状态：",
                };
                let mut m = string_from_str(prefix);
                m.append(job_status_debug_name(s));
                ControlStep::Fail(m)
            },
        },
    }
}

/// `current - last`, or 0 when `last` is ahead.
pub open spec fn progress_since(current: u64, last: u64) -> int {
    if current >= last {
        current - last
    } else {
        0
    }
}

/// A scan reports after 128 more entries or half a second, whichever comes first.
pub fn scan_progress_due(visited: u64, last_reported: u64, elapsed_ms: u128) -> (r: bool)
    ensures
        r <==> (progress_since(visited, last_reported) >= 128 || elapsed_ms >= 500),
{
    visited.saturating_sub(last_reported) >= 128 || elapsed_ms >= 500
}

/// A similarity analysis reports on its last file, after 16 more files, or after a
/// quarter of a second.
pub fn similarity_progress_due(current: u64, total: u64, last_reported: u64, elapsed_ms: u128) -> (r: bool)
    ensures
        r <==> (current == total || progress_since(current, last_reported) >= 16 || elapsed_ms >= 250),
{
    current == total || current.saturating_sub(last_reported) >= 16 || elapsed_ms >= 250
}

/// How a run of a job ends.
#[derive(Debug, Clone, PartialEq, Eq)]
pub enum JobEnding {
    /// Fail the job with this message.
    Fail(String),
    /// Acknowledge this pause or cancel request.
    Acknowledge(JobStatus),
    /// Leave the job as it is.
    Leave,
    /// Complete the job (with its result, for an analysis).
    Complete,
}

/// What `job_ending` decides: see there.
pub open spec fn is_job_ending(
    work: JobWork,
    control_error: Option<String>,
    interrupted: bool,
    requested: Option<JobStatus>,
    status_now: Option<JobStatus>,
    ending: JobEnding,
) -> bool {
        match control_error {
            Some(e) => ending matches JobEnding::Fail(m) && m@ == e@,
            None => if interrupted {
                match requested {
                    Some(s) => ending matches JobEnding::Acknowledge(t) && t == s,
                    None => match status_now {
                        Some(s) => if is_control_request(s) {
                            ending matches JobEnding::Acknowledge(t) && t == s
                        } else {
                            ending matches JobEnding::Leave
                        },
                        None => ending matches JobEnding::Leave,
                    },
                }
            } else {
                match status_now {
                    Some(s) => if work == JobWork::Scan && is_control_request(s) {
                        ending matches JobEnding::Acknowledge(t) && t == s
                    } else {
                        ending matches JobEnding::Complete
                    },
                    None => ending matches JobEnding::Complete,
                }
            },
        }
}

/// Ends a run whose work returned: `control_error` is the failure met while steering
/// it, `interrupted` whether the work stopped early, `requested` the request that
/// stopped it, and `status_now` the job's status read after the work.
///
/// A failure met while steering fails the job. An interrupted run acknowledges the
/// request that stopped it, or else a pause or cancel request found now, or else leaves
/// the job. A finished scan still yields to a pause or cancel request found now; any
/// other finished run completes.
pub fn job_ending(
    work: JobWork,
    control_error: Option<String>,
    interrupted: bool,
    requested: Option<JobStatus>,
    status_now: Option<JobStatus>,
) -> (r: JobEnding)
    ensures
        is_job_ending(work, control_error, interrupted, requested, status_now, r),
{
    if let Some(e) = control_error {
        return JobEnding::Fail(e);
    }
    let now_request = match status_now {
        Some(JobStatus::PauseRequested) => Some(JobStatus::PauseRequested),
        Some(JobStatus::CancelRequested) => Some(JobStatus::CancelRequested),
        _ => None,
    };
    if interrupted {
        match requested {
            Some(s) => JobEnding::Acknowledge(s),
            None => match now_request {
                Some(s) => JobEnding::Acknowledge(s),
                None => JobEnding::Leave,
            },
        }
    } else {
        match (work, now_request) {
            (JobWork::Scan, Some(s)) => JobEnding::Acknowledge(s),
            _ => JobEnding::Complete,
        }
    }
}

/// A run completes only when nothing stopped it, and a run whose stops all came from
/// `control_step` acknowledges nothing but a pause or cancel request.
pub proof fn lemma_job_ending_is_sound(
    work: JobWork,
    control_error: Option<String>,
    interrupted: bool,
    requested: Option<JobStatus>,
    status_now: Option<JobStatus>,
    ending: JobEnding,
)
    requires
        is_job_ending(work, control_error, interrupted, requested, status_now, ending),
    ensures
        ending is Complete ==> control_error is None && !interrupted,
        (requested matches Some(s) ==> is_control_request(s)) ==> (ending matches JobEnding::Acknowledge(t)
            ==> is_control_request(t)),
{
}

/// What a worker does after asking storage to complete or fail its job.
#[derive(Debug, Clone, PartialEq, Eq)]
pub enum FinishStep {
    /// The transfer applied, or the job is in a state that needs nothing more.
    Done,
    /// The job was asked to stop meanwhile: acknowledge that request.
    Acknowledge(JobStatus),
    /// The transfer failed: fail the job with this message.
    Fail(String),
}

/// Finishes a job after its final transfer: `Err` holds the message of a failed
/// transfer. A transfer refused because a pause or cancel request came in meanwhile
/// acknowledges that request, so that the job does not stay claimed.
pub fn finish_step(outcome: Result<JobTransferResult, String>) -> (r: FinishStep)
    ensures
        match outcome {
            Err(e) => r matches FinishStep::Fail(m) && m@ == e@,
            Ok(t) => if t.applied {
                r matches FinishStep::Done
            } else {
                match t.current_status {
                    Some(s) => if s@ == "cancel_requested"@ {
                        r matches FinishStep::Acknowledge(x) && x == JobStatus::CancelRequested
                    } else if s@ == "pause_requested"@ {
                        r matches FinishStep::Acknowledge(x) && x == JobStatus::PauseRequested
                    } else {
                        r matches FinishStep::Done
                    },
                    None => r matches FinishStep::Done,
                }
            },
        },
{
    match outcome {
        Err(e) => FinishStep::Fail(e),
        Ok(t) => {
            if t.applied {
                return FinishStep::Done;
            }
            match t.current_status {
                Some(s) => {
                    let v = chars_of(s.as_str());
                    if chars_eq_str(&v, "cancel_requested") {
                        FinishStep::Acknowledge(JobStatus::CancelRequested)
                    } else if chars_eq_str(&v, "pause_requested") {
                        FinishStep::Acknowledge(JobStatus::PauseRequested)
                    } else {
                        FinishStep::Done
                    }
                },
                None => FinishStep::Done,
            }
        },
    }
}

} // verus!
