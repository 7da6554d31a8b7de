//! The rules of the persistent job queue: which row a conditional update touches and
//! what it becomes, for claiming, leasing, reporting progress, pausing, cancelling,
//! finishing, resuming and recovering expired leases. Storage runs each rule as one
//! conditional update; the rules here decide it.
use vstd::prelude::*;
use crate::domain::JobStatus;
use crate::storage::{JobTransferResult, StorageError};
use crate::order::{key_lt, lemma_lex_irreflexive, lemma_lex_transitive, lex_lt};
use crate::similarity::{text_key, text_key_of};
use crate::text::{chars_of, seq_chars_eq};

verus! {

/// The lease columns of a job row.
#[derive(Debug, Clone, PartialEq, Eq)]
pub struct JobLease {
    pub status: JobStatus,
    pub lease_owner: Option<String>,
    pub lease_expires_at_ms: Option<i64>,
}

/// A finished job: completed, failed or cancelled.
pub open spec fn is_terminal(status: JobStatus) -> bool {
    status == JobStatus::Completed || status == JobStatus::Failed || status == JobStatus::Cancelled
}

/// A job that a new request of the same kind and payload reuses instead of queueing
/// another: one that is not finished.
pub fn is_reusable(status: JobStatus) -> (r: bool)
    ensures
        r == !is_terminal(status),
{
    match status {
        JobStatus::Completed | JobStatus::Failed | JobStatus::Cancelled => false,
        _ => true,
    }
}

/// When a lease taken at `now_ms` for `duration_ms` runs out: at least one millisecond
/// later, saturating.
pub open spec fn lease_end(now_ms: i64, duration_ms: i64) -> int {
    let d: int = if duration_ms < 1 {
        1
    } else {
        duration_ms as int
    };
    if now_ms + d > i64::MAX {
        i64::MAX as int
    } else {
        now_ms + d
    }
}

/// The expiry of a lease taken or renewed at `now_ms`.
pub fn lease_expiry(now_ms: i64, duration_ms: i64) -> (r: i64)
    ensures
        r == lease_end(now_ms, duration_ms),
{
    let d: i64 = if duration_ms < 1 {
        1
    } else {
        duration_ms
    };
    if now_ms > i64::MAX - d {
        i64::MAX
    } else {
        now_ms + d
    }
}

/// The statuses in which a worker still holds its job: running, or asked to stop.
pub open spec fn is_leased_status(status: JobStatus) -> bool {
    status == JobStatus::Running || status == JobStatus::PauseRequested || status
        == JobStatus::CancelRequested
}

/// The worker owns the row's lease and the lease has not run out at `now_ms`.
pub open spec fn owns_live_lease(row: JobLease, worker: Seq<char>, now_ms: i64) -> bool {
    &&& row.lease_owner matches Some(o) && o@ == worker
    &&& row.lease_expires_at_ms matches Some(e) && e >= now_ms
}

fn owns_lease(row: &JobLease, worker: &str, now_ms: i64) -> (r: bool)
    ensures
        r == owns_live_lease(*row, worker@, now_ms),
{
    let owner_matches = match &row.lease_owner {
        Some(o) => {
            let a = crate::text::chars_of(o.as_str());
            let b = crate::text::chars_of(worker);
            crate::text::seq_chars_eq(&a, &b)
        },
        None => false,
    };
    let live = match row.lease_expires_at_ms {
        Some(e) => e >= now_ms,
        None => false,
    };
    owner_matches && live
}

/// Whether a lease renewal or a progress report from `worker` applies to the row: the
/// worker holds a live lease on a job that is running or asked to stop.
pub fn lease_update_applies(row: &JobLease, worker: &str, now_ms: i64) -> (r: bool)
    ensures
        r == (owns_live_lease(*row, worker@, now_ms) && is_leased_status(row.status)),
{
    let leased = match row.status {
        JobStatus::Running | JobStatus::PauseRequested | JobStatus::CancelRequested => true,
        _ => false,
    };
    owns_lease(row, worker, now_ms) && leased
}

/// The stored progress values of a report: `current` and `total` as stored integers.
/// A report is refused when `current` exceeds the reported `total`; when no total is
/// reported but one is stored, when `current` exceeds the stored total or goes back
/// below the stored current; and when a value does not fit a stored integer.
pub fn progress_values(
    current: u64,
    total: Option<u64>,
    stored: Option<(i64, Option<i64>)>,
) -> (r: Result<(i64, Option<i64>), StorageError>)
    ensures
        match r {
            Ok((c, t)) => {
                &&& c == current
                &&& t == match total {
                    Some(x) => Some(x as i64),
                    None => None::<i64>,
                }
                &&& current <= i64::MAX
                &&& total matches Some(x) ==> current <= x && x <= i64::MAX
                &&& total is None ==> (stored matches Some((sc, Some(st))) ==> sc <= current <= st)
            },
            Err(e) => {
                &&& e is InvalidProgress
                &&& (current > i64::MAX
                    || (total matches Some(x) && (current > x || x > i64::MAX))
                    || (total is None && (stored matches Some((sc, Some(st))) && (current < sc
                    || current > st))))
            },
        },
{
    if let Some(t) = total {
        if current > t {
            return Err(StorageError::InvalidProgress);
        }
    }
    if current > i64::MAX as u64 {
        return Err(StorageError::InvalidProgress);
    }
    let c = current as i64;
    match total {
        None => {
            if let Some((stored_current, Some(stored_total))) = stored {
                if c > stored_total || c < stored_current {
                    return Err(StorageError::InvalidProgress);
                }
            }
            Ok((c, None))
        },
        Some(t) => {
            if t > i64::MAX as u64 {
                return Err(StorageError::InvalidProgress);
            }
            Ok((c, Some(t as i64)))
        },
    }
}

/// The progress of a claimed job read back from its stored integers; a negative value
/// is refused.
pub fn claimed_progress(current: i64, total: Option<i64>) -> (r: Result<(u64, Option<u64>), StorageError>)
    ensures
        match r {
            Ok((c, t)) => current >= 0 && c == current && match total {
                Some(x) => x >= 0 && t == Some(x as u64),
                None => t is None,
            },
            Err(e) => e is InvalidProgress && (current < 0 || (total matches Some(x) && x < 0)),
        },
{
    if current < 0 {
        return Err(StorageError::InvalidProgress);
    }
    match total {
        Some(x) => {
            if x < 0 {
                Err(StorageError::InvalidProgress)
            } else {
                Ok((current as u64, Some(x as u64)))
            }
        },
        None => Ok((current as u64, None)),
    }
}

/// A request from the user to stop a job.
#[derive(Debug, Clone, Copy, PartialEq, Eq, Structural)]
pub enum JobControl {
    Pause,
    Cancel,
}

/// What a stop request makes of a job: a running job is asked to stop and keeps its
/// lease until its worker acknowledges; a queued or paused one stops at once; any other
/// is not touched.
pub open spec fn control_outcome(control: JobControl, status: JobStatus) -> Option<JobStatus> {
    if status == JobStatus::Running {
        Some(
            match control {
                JobControl::Pause => JobStatus::PauseRequested,
                JobControl::Cancel => JobStatus::CancelRequested,
            },
        )
    } else if status == JobStatus::Queued || status == JobStatus::Paused {
        Some(
            match control {
                JobControl::Pause => JobStatus::Paused,
                JobControl::Cancel => JobStatus::Cancelled,
            },
        )
    } else {
        None
    }
}

/// Applies a stop request to a job row; a row in no state to stop is refused, as a lost
/// lease.
pub fn request_control(control: JobControl, row: JobLease) -> (r: Result<JobLease, StorageError>)
    ensures
        match control_outcome(control, row.status) {
            None => r matches Err(e) && e is LeaseLost,
            Some(s) => r matches Ok(n) && n.status == s && if row.status == JobStatus::Running {
                n.lease_owner == row.lease_owner && n.lease_expires_at_ms == row.lease_expires_at_ms
            } else {
                n.lease_owner is None && n.lease_expires_at_ms is None
            },
        },
{
    match row.status {
        JobStatus::Running => {
            let status = match control {
                JobControl::Pause => JobStatus::PauseRequested,
                JobControl::Cancel => JobStatus::CancelRequested,
            };
            Ok(JobLease { status, ..row })
        },
        JobStatus::Queued | JobStatus::Paused => {
            let status = match control {
                JobControl::Pause => JobStatus::Paused,
                JobControl::Cancel => JobStatus::Cancelled,
            };
            Ok(JobLease { status, lease_owner: None, lease_expires_at_ms: None })
        },
        _ => Err(StorageError::LeaseLost),
    }
}

/// The transfer that acknowledges a stop request: the status the job must be in, the
/// status it ends in, and the event recorded. Only a pause or cancel request can be
/// acknowledged; anything else is refused as a lost lease.
pub fn acknowledgement(requested: JobStatus) -> (r: Result<(JobStatus, JobStatus, &'static str), StorageError>)
    ensures
        requested == JobStatus::PauseRequested ==> (r matches Ok((a, b, e)) && a
            == JobStatus::PauseRequested && b == JobStatus::Paused && e@ == "paused"@),
        requested == JobStatus::CancelRequested ==> (r matches Ok((a, b, e)) && a
            == JobStatus::CancelRequested && b == JobStatus::Cancelled && e@ == "cancelled"@),
        requested != JobStatus::PauseRequested && requested != JobStatus::CancelRequested ==> (
        r matches Err(e) && e is LeaseLost),
{
    match requested {
        JobStatus::PauseRequested => Ok((JobStatus::PauseRequested, JobStatus::Paused, "paused")),
        JobStatus::CancelRequested => Ok(
            (JobStatus::CancelRequested, JobStatus::Cancelled, "cancelled"),
        ),
        _ => Err(StorageError::LeaseLost),
    }
}

/// Whether a worker's final transfer applies: it holds a live lease on the row and the
/// row is in the status the transfer expects.
pub fn finish_applies(row: &JobLease, worker: &str, expected: JobStatus, now_ms: i64) -> (r: bool)
    ensures
        r == (owns_live_lease(*row, worker@, now_ms) && row.status == expected),
{
    owns_lease(row, worker, now_ms) && row.status == expected
}

/// A row after a final transfer that applied: in its final status, with no lease.
pub fn finished_row(final_status: JobStatus) -> (r: JobLease)
    ensures
        r.status == final_status && r.lease_owner is None && r.lease_expires_at_ms is None,
{
    JobLease { status: final_status, lease_owner: None, lease_expires_at_ms: None }
}

/// The outcome of a conditional final transfer: applied when it changed one row, else
/// the status the job is in now; a job that cannot be read is a lost lease.
pub fn transfer_result(updated: usize, current: Option<String>) -> (r: Result<JobTransferResult, StorageError>)
    ensures
        updated == 1 ==> (r matches Ok(t) && t.applied && t.current_status is None),
        updated != 1 ==> match current {
            Some(s) => r matches Ok(t) && !t.applied && t.current_status == Some(s),
            None => r matches Err(e) && e is LeaseLost,
        },
{
    if updated == 1 {
        return Ok(JobTransferResult { applied: true, current_status: None });
    }
    match current {
        Some(s) => Ok(JobTransferResult { applied: false, current_status: Some(s) }),
        None => Err(StorageError::LeaseLost),
    }
}

/// What a lease that ran out before `now_ms` makes of a job, and the event recorded: a
/// stop request is taken as acknowledged, and a running job is queued again.
pub open spec fn expiry_outcome(status: JobStatus) -> Option<JobStatus> {
    if status == JobStatus::PauseRequested {
        Some(JobStatus::Paused)
    } else if status == JobStatus::CancelRequested {
        Some(JobStatus::Cancelled)
    } else if status == JobStatus::Running {
        Some(JobStatus::Queued)
    } else {
        None
    }
}

/// Recovers a row whose lease ran out before `now_ms`; a row with a live lease, or in
/// no leased status, is left alone (`None`).
pub fn recover_expired(row: &JobLease, now_ms: i64) -> (r: Option<(JobLease, &'static str)>)
    ensures
        match r {
            Some((n, event)) => {
                &&& row.lease_expires_at_ms matches Some(e) && e < now_ms
                &&& expiry_outcome(row.status) == Some(n.status)
                &&& n.lease_owner is None && n.lease_expires_at_ms is None
                &&& event@ == if row.status == JobStatus::Running {
                    "expired"@
                } else if row.status == JobStatus::PauseRequested {
                    "paused"@
                } else {
                    "cancelled"@
                }
            },
            None => !(row.lease_expires_at_ms matches Some(e) && e < now_ms) || expiry_outcome(
                row.status,
            ) is None,
        },
{
    let expired = match row.lease_expires_at_ms {
        Some(e) => e < now_ms,
        None => false,
    };
    if !expired {
        return None;
    }
    match row.status {
        JobStatus::PauseRequested => Some(
            (JobLease { status: JobStatus::Paused, lease_owner: None, lease_expires_at_ms: None }, "paused"),
        ),
        JobStatus::CancelRequested => Some(
            (
                JobLease { status: JobStatus::Cancelled, lease_owner: None, lease_expires_at_ms: None },
                "cancelled",
            ),
        ),
        JobStatus::Running => Some(
            (JobLease { status: JobStatus::Queued, lease_owner: None, lease_expires_at_ms: None }, "expired"),
        ),
        _ => None,
    }
}

/// Claims a queued job for `worker` until the lease taken at `now_ms` runs out; a row
/// that is no longer queued is a lost lease.
pub fn claim(row: &JobLease, worker: &str, now_ms: i64, duration_ms: i64) -> (r: Result<JobLease, StorageError>)
    ensures
        row.status == JobStatus::Queued ==> (r matches Ok(n) && n.status == JobStatus::Running
            && (n.lease_owner matches Some(o) && o@ == worker@) && n.lease_expires_at_ms == Some(
            lease_end(now_ms, duration_ms) as i64,
        )),
        row.status != JobStatus::Queued ==> (r matches Err(e) && e is LeaseLost),
{
    if row.status != JobStatus::Queued {
        return Err(StorageError::LeaseLost);
    }
    Ok(
        JobLease {
            status: JobStatus::Running,
            lease_owner: Some(crate::text::string_from_str(worker)),
            lease_expires_at_ms: Some(lease_expiry(now_ms, duration_ms)),
        },
    )
}

/// Resumes a paused job: it is queued again with no lease. A job that is not paused is
/// refused as a lost lease.
pub fn resume(row: &JobLease) -> (r: Result<JobLease, StorageError>)
    ensures
        row.status == JobStatus::Paused ==> (r matches Ok(n) && n.status == JobStatus::Queued
            && n.lease_owner is None && n.lease_expires_at_ms is None),
        row.status != JobStatus::Paused ==> (r matches Err(e) && e is LeaseLost),
{
    if row.status != JobStatus::Paused {
        return Err(StorageError::LeaseLost);
    }
    Ok(JobLease { status: JobStatus::Queued, lease_owner: None, lease_expires_at_ms: None })
}

/// A finished job stays finished: no stop request, expiry, claim or resume changes it,
/// and only a transfer that expects its status could (none of the queue's transfers
/// expects a finished status). A queued or paused job holds no lease after a stop
/// request, and every transfer out of a leased status ends the lease.
pub proof fn lemma_finished_jobs_stay_finished(status: JobStatus, control: JobControl)
    requires
        is_terminal(status),
    ensures
        control_outcome(control, status) is None,
        expiry_outcome(status) is None,
        status != JobStatus::Queued,
        status != JobStatus::Paused,
        !is_leased_status(status),
{
}

/// Every stop request and every expiry moves a job along the queue's order: a running
/// job is only ever asked to stop, stopped or queued again, and a stop request ends in
/// the matching stopped status.
pub proof fn lemma_stop_requests_end_in_their_status(control: JobControl, status: JobStatus)
    ensures
        control_outcome(control, status) matches Some(s) ==> (s == JobStatus::PauseRequested
            ==> expiry_outcome(s) == Some(JobStatus::Paused)) && (s == JobStatus::CancelRequested
            ==> expiry_outcome(s) == Some(JobStatus::Cancelled)),
        control == JobControl::Cancel ==> (control_outcome(control, status) matches Some(s) ==> (s
            == JobStatus::CancelRequested || s == JobStatus::Cancelled)),
        control == JobControl::Pause ==> (control_outcome(control, status) matches Some(s) ==> (s
            == JobStatus::PauseRequested || s == JobStatus::Paused)),
{
}

/// A stored job as the queue orders it.
#[derive(Debug, Clone, PartialEq, Eq)]
pub struct QueuedJob {
    pub id: String,
    pub kind: String,
    pub payload_json: String,
    pub status: JobStatus,
    pub priority: i64,
    pub created_at_ms: i64,
}

/// `a` was created before `b`, ids breaking ties.
pub open spec fn older(a: QueuedJob, b: QueuedJob) -> bool {
    a.created_at_ms < b.created_at_ms || (a.created_at_ms == b.created_at_ms && lex_lt(
        text_key(a.id@),
        text_key(b.id@),
    ))
}

/// `a` is claimed before `b`: higher priority first, then the older.
pub open spec fn claims_before(a: QueuedJob, b: QueuedJob) -> bool {
    a.priority > b.priority || (a.priority == b.priority && older(a, b))
}

proof fn lemma_older_transitive(a: QueuedJob, b: QueuedJob, c: QueuedJob)
    requires
        older(a, b),
        older(b, c),
    ensures
        older(a, c),
{
    if a.created_at_ms == b.created_at_ms && b.created_at_ms == c.created_at_ms {
        lemma_lex_transitive(text_key(a.id@), text_key(b.id@), text_key(c.id@));
    }
}

proof fn lemma_claims_before_transitive(a: QueuedJob, b: QueuedJob, c: QueuedJob)
    requires
        claims_before(a, b),
        claims_before(b, c),
    ensures
        claims_before(a, c),
{
    if a.priority == b.priority && b.priority == c.priority {
        lemma_older_transitive(a, b, c);
    }
}

fn older_exec(a: &QueuedJob, b: &QueuedJob) -> (r: bool)
    ensures
        r == older(*a, *b),
{
    if a.created_at_ms != b.created_at_ms {
        return a.created_at_ms < b.created_at_ms;
    }
    let ka = text_key_of(&a.id);
    let kb = text_key_of(&b.id);
    key_lt(&ka, &kb)
}

fn claims_before_exec(a: &QueuedJob, b: &QueuedJob) -> (r: bool)
    ensures
        r == claims_before(*a, *b),
{
    if a.priority != b.priority {
        return a.priority > b.priority;
    }
    older_exec(a, b)
}

/// The queued job to claim next: none is claimed before it. `None` when nothing is
/// queued.
pub fn next_job(jobs: &Vec<QueuedJob>) -> (r: Option<usize>)
    ensures
        match r {
            Some(i) => i < jobs@.len() && jobs@[i as int].status == JobStatus::Queued && forall|j: int|
                0 <= j < jobs@.len() && jobs@[j].status == JobStatus::Queued ==> !claims_before(
                    #[trigger] jobs@[j],
                    jobs@[i as int],
                ),
            None => forall|j: int| 0 <= j < jobs@.len() ==> #[trigger] jobs@[j].status != JobStatus::Queued,
        },
{
    let mut best: Option<usize> = None;
    let mut i: usize = 0;
    while i < jobs.len()
        invariant
            i <= jobs@.len(),
            match best {
                Some(b) => b < i && jobs@[b as int].status == JobStatus::Queued && forall|j: int|
                    0 <= j < i && jobs@[j].status == JobStatus::Queued ==> !claims_before(
                        #[trigger] jobs@[j],
                        jobs@[b as int],
                    ),
                None => forall|j: int| 0 <= j < i ==> #[trigger] jobs@[j].status != JobStatus::Queued,
            },
        decreases jobs@.len() - i,
    {
        if jobs[i].status == JobStatus::Queued {
            match best {
                None => {
                    best = Some(i);
                    proof {
                        lemma_lex_irreflexive(text_key(jobs@[i as int].id@));
                    }
                },
                Some(b) => {
                    if claims_before_exec(&jobs[i], &jobs[b]) {
                        proof {
                            assert forall|j: int|
                                0 <= j < i + 1 && jobs@[j].status == JobStatus::Queued implies !claims_before(
                                #[trigger] jobs@[j],
                                jobs@[i as int],
                            ) by {
                                if j == i {
                                    lemma_lex_irreflexive(text_key(jobs@[i as int].id@));
                                } else if claims_before(jobs@[j], jobs@[i as int]) {
                                    lemma_claims_before_transitive(jobs@[j], jobs@[i as int], jobs@[b as int]);
                                }
                            }
                        }
                        best = Some(i);
                    }
                },
            }
        }
        i += 1;
    }
    best
}

/// A job that a new request reuses: same kind and payload, not finished.
pub open spec fn reuses(job: QueuedJob, kind: Seq<char>, payload: Seq<char>) -> bool {
    job.kind@ == kind && job.payload_json@ == payload && !is_terminal(job.status)
}

/// The unfinished job of the same kind and payload that a new request reuses: the
/// oldest. `None` when there is none, and the request is queued as a new job.
pub fn reusable_job(jobs: &Vec<QueuedJob>, kind: &str, payload_json: &str) -> (r: Option<usize>)
    ensures
        match r {
            Some(i) => i < jobs@.len() && reuses(jobs@[i as int], kind@, payload_json@) && forall|j: int|
                0 <= j < jobs@.len() && reuses(jobs@[j], kind@, payload_json@) ==> !older(
                    #[trigger] jobs@[j],
                    jobs@[i as int],
                ),
            None => forall|j: int| 0 <= j < jobs@.len() ==> !reuses(#[trigger] jobs@[j], kind@, payload_json@),
        },
{
    let kv = chars_of(kind);
    let pv = chars_of(payload_json);
    let mut best: Option<usize> = None;
    let mut i: usize = 0;
    while i < jobs.len()
        invariant
            i <= jobs@.len(),
            kv@ == kind@,
            pv@ == payload_json@,
            match best {
                Some(b) => b < i && reuses(jobs@[b as int], kind@, payload_json@) && forall|j: int|
                    0 <= j < i && reuses(jobs@[j], kind@, payload_json@) ==> !older(
                        #[trigger] jobs@[j],
                        jobs@[b as int],
                    ),
                None => forall|j: int| 0 <= j < i ==> !reuses(#[trigger] jobs@[j], kind@, payload_json@),
            },
        decreases jobs@.len() - i,
    {
        let jk = chars_of(jobs[i].kind.as_str());
        let jp = chars_of(jobs[i].payload_json.as_str());
        if seq_chars_eq(&jk, &kv) && seq_chars_eq(&jp, &pv) && is_reusable(jobs[i].status) {
            match best {
                None => {
                    best = Some(i);
                    proof {
                        lemma_lex_irreflexive(text_key(jobs@[i as int].id@));
                    }
                },
                Some(b) => {
                    if older_exec(&jobs[i], &jobs[b]) {
                        proof {
                            assert forall|j: int|
                                0 <= j < i + 1 && reuses(jobs@[j], kind@, payload_json@) implies !older(
                                #[trigger] jobs@[j],
                                jobs@[i as int],
                            ) by {
                                if j == i {
                                    lemma_lex_irreflexive(text_key(jobs@[i as int].id@));
                                } else if older(jobs@[j], jobs@[i as int]) {
                                    lemma_older_transitive(jobs@[j], jobs@[i as int], jobs@[b as int]);
                                }
                            }
                        }
                        best = Some(i);
                    }
                },
            }
        }
        i += 1;
    }
    best
}

} // verus!
