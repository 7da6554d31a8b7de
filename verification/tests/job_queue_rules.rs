use guixu::domain::{FileIdentity, FileSnapshot, JobStatus, OperationStatus, Platform};
use guixu::job_queue::{
    acknowledgement, claim, claimed_progress, finish_applies, finished_row, is_reusable,
    lease_expiry, lease_update_applies, next_job, progress_values, recover_expired, request_control,
    resume, reusable_job, transfer_result, JobControl, JobLease, QueuedJob,
};
use guixu::storage::{
    awaits_recovery, ensure_identity_free, feature_is_current, finish_page, identity_differs, hash_cache_is_current, migration_plan,
    operation_status_update_allowed, page_limit, reconcile_action, FileFeature, FileHashCache,
    IndexedFile, KnownFile, ReconcileAction, ReconcileKind, StorageError, StoredIdentity,
    SCHEMA_VERSION,
};

fn leased(status: JobStatus, owner: &str, expires: i64) -> JobLease {
    JobLease { status, lease_owner: Some(owner.to_owned()), lease_expires_at_ms: Some(expires) }
}

fn idle(status: JobStatus) -> JobLease {
    JobLease { status, lease_owner: None, lease_expires_at_ms: None }
}

#[test]
fn only_unfinished_jobs_are_reused() {
    assert!(is_reusable(JobStatus::Queued));
    assert!(is_reusable(JobStatus::Paused));
    assert!(is_reusable(JobStatus::CancelRequested));
    assert!(!is_reusable(JobStatus::Completed));
    assert!(!is_reusable(JobStatus::Failed));
    assert!(!is_reusable(JobStatus::Cancelled));
}

#[test]
fn leases_last_at_least_a_millisecond() {
    assert_eq!(lease_expiry(1_000, 500), 1_500);
    assert_eq!(lease_expiry(1_000, 0), 1_001);
    assert_eq!(lease_expiry(1_000, -5), 1_001);
    assert_eq!(lease_expiry(i64::MAX - 1, 10), i64::MAX);
}

#[test]
fn claims_take_only_queued_jobs() {
    let claimed = claim(&idle(JobStatus::Queued), "w1", 100, 50).unwrap();
    assert_eq!(claimed, leased(JobStatus::Running, "w1", 150));
    assert!(matches!(claim(&idle(JobStatus::Paused), "w1", 100, 50), Err(StorageError::LeaseLost)));
}

#[test]
fn lease_updates_need_the_owner_and_a_live_lease() {
    let row = leased(JobStatus::Running, "w1", 200);
    assert!(lease_update_applies(&row, "w1", 200));
    assert!(!lease_update_applies(&row, "w1", 201));
    assert!(!lease_update_applies(&row, "w2", 100));
    assert!(lease_update_applies(&leased(JobStatus::CancelRequested, "w1", 200), "w1", 100));
    assert!(!lease_update_applies(&leased(JobStatus::Paused, "w1", 200), "w1", 100));
    assert!(finish_applies(&row, "w1", JobStatus::Running, 150));
    assert!(!finish_applies(&row, "w1", JobStatus::PauseRequested, 150));
    assert_eq!(finished_row(JobStatus::Completed), idle(JobStatus::Completed));
}

#[test]
fn progress_reports_cannot_overrun_or_go_back() {
    assert!(matches!(progress_values(5, Some(10), None), Ok((5, Some(10)))));
    assert!(matches!(progress_values(11, Some(10), None), Err(StorageError::InvalidProgress)));
    assert!(matches!(progress_values(7, None, Some((3, Some(9)))), Ok((7, None))));
    assert!(matches!(progress_values(2, None, Some((3, Some(9)))), Err(StorageError::InvalidProgress)));
    assert!(matches!(progress_values(10, None, Some((3, Some(9)))), Err(StorageError::InvalidProgress)));
    assert!(matches!(progress_values(2, None, Some((3, None))), Ok((2, None))));
    assert!(matches!(progress_values(u64::MAX, None, None), Err(StorageError::InvalidProgress)));
    assert!(matches!(claimed_progress(4, Some(8)), Ok((4, Some(8)))));
    assert!(matches!(claimed_progress(-1, None), Err(StorageError::InvalidProgress)));
    assert!(matches!(claimed_progress(1, Some(-8)), Err(StorageError::InvalidProgress)));
}

#[test]
fn stop_requests_follow_the_job() {
    let running = leased(JobStatus::Running, "w1", 200);
    assert_eq!(
        request_control(JobControl::Pause, running.clone()).unwrap(),
        leased(JobStatus::PauseRequested, "w1", 200)
    );
    assert_eq!(
        request_control(JobControl::Cancel, running).unwrap(),
        leased(JobStatus::CancelRequested, "w1", 200)
    );
    assert_eq!(request_control(JobControl::Cancel, idle(JobStatus::Queued)).unwrap(), idle(JobStatus::Cancelled));
    assert_eq!(request_control(JobControl::Pause, idle(JobStatus::Paused)).unwrap(), idle(JobStatus::Paused));
    assert!(matches!(request_control(JobControl::Pause, idle(JobStatus::Completed)), Err(StorageError::LeaseLost)));
    assert!(matches!(acknowledgement(JobStatus::PauseRequested), Ok((JobStatus::PauseRequested, JobStatus::Paused, "paused"))));
    assert!(matches!(acknowledgement(JobStatus::CancelRequested), Ok((JobStatus::CancelRequested, JobStatus::Cancelled, "cancelled"))));
    assert!(matches!(acknowledgement(JobStatus::Running), Err(StorageError::LeaseLost)));
    assert_eq!(resume(&idle(JobStatus::Paused)).unwrap(), idle(JobStatus::Queued));
    assert!(matches!(resume(&idle(JobStatus::Running)), Err(StorageError::LeaseLost)));
}

#[test]
fn expired_leases_are_recovered() {
    let (row, event) = recover_expired(&leased(JobStatus::Running, "w1", 99), 100).unwrap();
    assert_eq!((row, event), (idle(JobStatus::Queued), "expired"));
    let (row, event) = recover_expired(&leased(JobStatus::PauseRequested, "w1", 99), 100).unwrap();
    assert_eq!((row, event), (idle(JobStatus::Paused), "paused"));
    let (row, event) = recover_expired(&leased(JobStatus::CancelRequested, "w1", 5), 100).unwrap();
    assert_eq!((row, event), (idle(JobStatus::Cancelled), "cancelled"));
    assert_eq!(recover_expired(&leased(JobStatus::Running, "w1", 100), 100), None);
    assert_eq!(recover_expired(&idle(JobStatus::Running), 100), None);
    assert_eq!(recover_expired(&leased(JobStatus::Completed, "w1", 1), 100), None);
}

#[test]
fn final_transfers_report_the_current_status() {
    let applied = transfer_result(1, None).unwrap();
    assert!(applied.applied && applied.current_status.is_none());
    let raced = transfer_result(0, Some("cancel_requested".to_owned())).unwrap();
    assert!(!raced.applied);
    assert_eq!(raced.current_status.as_deref(), Some("cancel_requested"));
    assert!(matches!(transfer_result(0, None), Err(StorageError::LeaseLost)));
}

#[test]
fn finished_operations_are_not_reopened() {
    assert!(!operation_status_update_allowed(OperationStatus::Completed, OperationStatus::Executing));
    assert!(!operation_status_update_allowed(OperationStatus::Failed, OperationStatus::Planned));
    assert!(operation_status_update_allowed(OperationStatus::Completed, OperationStatus::RollbackPending));
    assert!(operation_status_update_allowed(OperationStatus::Executing, OperationStatus::Published));
    assert!(operation_status_update_allowed(OperationStatus::Planned, OperationStatus::PreflightPassed));
}

#[test]
fn file_pages_end_with_a_cursor_when_more_rows_follow() {
    assert_eq!(page_limit(0), 1);
    assert_eq!(page_limit(900), 500);
    assert_eq!(page_limit(20), 20);
    let file = |id: &str, path: &str| IndexedFile {
        id: id.to_owned(),
        current_path: path.to_owned(),
        size: 1,
        modified_at_ns: 0,
        changed_at_ns: 0,
    };
    let page = finish_page(vec![file("1", "/a"), file("2", "/b"), file("3", "/c")], 2);
    assert_eq!(page.items.len(), 2);
    let cursor = page.next_cursor.unwrap();
    assert_eq!((cursor.path.as_str(), cursor.id.as_str()), ("/b", "2"));
    let last = finish_page(vec![file("1", "/a")], 2);
    assert_eq!(last.items.len(), 1);
    assert!(last.next_cursor.is_none());
}

#[test]
fn migrations_bring_every_older_schema_to_the_current_one() {
    assert_eq!(migration_plan(0).unwrap(), (1..=12).collect::<Vec<i64>>());
    assert_eq!(migration_plan(10).unwrap(), vec![11, 12]);
    assert!(migration_plan(12).unwrap().is_empty());
    assert!(migration_plan(-3).unwrap().is_empty());
    assert!(matches!(
        migration_plan(13),
        Err(StorageError::UnsupportedSchema { found: 13, supported: 12 })
    ));
}

fn queued(id: &str, priority: i64, created_at_ms: i64) -> QueuedJob {
    QueuedJob {
        id: id.to_owned(),
        kind: "scan".to_owned(),
        payload_json: "{}".to_owned(),
        status: JobStatus::Queued,
        priority,
        created_at_ms,
    }
}

fn lease_of(job: &QueuedJob) -> JobLease {
    JobLease { status: job.status, lease_owner: None, lease_expires_at_ms: None }
}

#[test]
fn job_queue_claims_highest_priority_then_oldest() {
    let mut jobs = vec![queued("low", 10, 1), queued("new-high", 100, 3), queued("old-high", 100, 2)];
    let first = next_job(&jobs).expect("job");
    assert_eq!(jobs[first].id, "old-high");
    let running = claim(&lease_of(&jobs[first]), "worker", 10, 100).expect("claim");
    assert!(finish_applies(&running, "worker", JobStatus::Running, 11));
    jobs[first].status = finished_row(JobStatus::Completed).status;
    let second = next_job(&jobs).expect("job");
    assert_eq!(jobs[second].id, "new-high");
}

#[test]
fn active_equivalent_job_is_reused() {
    let mut jobs: Vec<QueuedJob> = Vec::new();
    let first = match reusable_job(&jobs, "scan", "{}") {
        Some(index) => jobs[index].id.clone(),
        None => {
            jobs.push(queued("scan-1", 100, 1));
            "scan-1".to_owned()
        }
    };
    let second = match reusable_job(&jobs, "scan", "{}") {
        Some(index) => jobs[index].id.clone(),
        None => {
            jobs.push(queued("scan-2", 100, 2));
            "scan-2".to_owned()
        }
    };
    assert_eq!(first, "scan-1");
    assert_eq!(second, "scan-1");
    assert_eq!(jobs.len(), 1);
}

#[test]
fn expired_worker_lease_returns_job_to_queue() {
    let job = queued("scan", 100, 1);
    let dead = claim(&lease_of(&job), "dead-worker", 10, 5).expect("first claim");
    let (recovered, _) = recover_expired(&dead, 16).expect("expired lease");
    let again = claim(&recovered, "new-worker", 16, 10).expect("recovery claim");
    assert_eq!(again.lease_owner.as_deref(), Some("new-worker"));
    assert!(!lease_update_applies(&again, "dead-worker", 17));
}

#[test]
fn invalid_progress_and_stale_completion_are_rejected() {
    let job = queued("scan", 100, 1);
    let running = claim(&lease_of(&job), "worker", 10, 5).expect("claim");
    assert!(matches!(progress_values(11, Some(10), None), Err(StorageError::InvalidProgress)));
    let applies = finish_applies(&running, "worker", JobStatus::Running, 16);
    assert!(!applies);
    let result = transfer_result(if applies { 1 } else { 0 }, Some("running".to_owned())).expect("transfer");
    assert!(!result.applied, "stale completion should be rejected");
}

#[test]
fn rejects_database_from_a_newer_application() {
    assert!(matches!(
        migration_plan(SCHEMA_VERSION + 1),
        Err(StorageError::UnsupportedSchema { .. })
    ));
}

fn indexed(path: &str, modified_at_ns: i64) -> IndexedFile {
    IndexedFile { id: "file".to_owned(), current_path: path.to_owned(), size: 7, modified_at_ns, changed_at_ns: 101 }
}

fn known(file: &IndexedFile) -> KnownFile {
    KnownFile {
        file_id: file.id.clone(),
        current_path: file.current_path.clone(),
        size: file.size as i64,
        modified_at_ns: file.modified_at_ns,
        changed_at_ns: file.changed_at_ns,
    }
}

fn observed(modified_at_ns: i64) -> FileSnapshot {
    FileSnapshot { size: 7, modified_at_ns, changed_at_ns: 101, created_at_ns: Some(99) }
}

#[test]
fn hash_cache_survives_moves_and_invalidates_on_snapshot_change() {
    let file = indexed("/library/a.bin", 100);
    let cache = FileHashCache {
        file_id: file.id.clone(),
        size: file.size,
        modified_at_ns: file.modified_at_ns,
        changed_at_ns: file.changed_at_ns,
        algorithm: "blake3-v1".to_owned(),
        quick_fingerprint: "quick".to_owned(),
        content_hash: Some("full".to_owned()),
        updated_at_ms: 3,
    };
    assert!(hash_cache_is_current(&cache, &file, "blake3-v1").unwrap());
    let moved_action = reconcile_action(Some(known(&file)), "/library/moved.bin", &observed(100)).unwrap();
    assert!(matches!(
        moved_action,
        ReconcileAction::UpdateKnown { moved: true, drop_hash_cache: false, kind: ReconcileKind::Moved, .. }
    ));
    let moved = indexed("/library/moved.bin", 100);
    assert!(hash_cache_is_current(&cache, &moved, "blake3-v1").unwrap());
    let changed_action = reconcile_action(Some(known(&moved)), "/library/moved.bin", &observed(101)).unwrap();
    assert!(matches!(changed_action, ReconcileAction::UpdateKnown { drop_hash_cache: true, .. }));
    let changed = indexed("/library/moved.bin", 101);
    assert!(!hash_cache_is_current(&cache, &changed, "blake3-v1").unwrap());
}

#[test]
fn similarity_features_are_snapshot_and_model_version_bound() {
    let file = indexed("/library/a.txt", 100);
    let feature = FileFeature {
        file_id: file.id.clone(),
        feature_kind: "text_simhash".to_owned(),
        model_version: "simhash-v1".to_owned(),
        size: file.size,
        modified_at_ns: file.modified_at_ns,
        changed_at_ns: file.changed_at_ns,
        dimensions: 64,
        quantization: "binary64".to_owned(),
        feature_blob: 42_u64.to_le_bytes().to_vec(),
        created_at_ms: 3,
    };
    assert!(feature_is_current(&feature, &file, "text_simhash", "simhash-v1").unwrap());
    assert!(!feature_is_current(&feature, &file, "text_simhash", "simhash-v2").unwrap());
    let changed = indexed("/library/a.txt", 101);
    assert!(!feature_is_current(&feature, &changed, "text_simhash", "simhash-v1").unwrap());
    let huge = IndexedFile { size: u64::MAX, ..file.clone() };
    assert!(matches!(feature_is_current(&feature, &huge, "text_simhash", "simhash-v1"), Err(StorageError::InvalidProgress)));
    assert!(matches!(hash_cache_is_current(&FileHashCache {
        file_id: "file".to_owned(), size: 7, modified_at_ns: 100, changed_at_ns: 101,
        algorithm: "blake3-v1".to_owned(), quick_fingerprint: String::new(), content_hash: None, updated_at_ms: 0,
    }, &huge, "blake3-v1"), Err(StorageError::FileTooLarge)));
}

#[test]
fn completed_operation_is_removed_from_recovery_queue() {
    assert!(awaits_recovery(OperationStatus::IntentLogged));
    assert!(operation_status_update_allowed(OperationStatus::IntentLogged, OperationStatus::Completed));
    assert!(!awaits_recovery(OperationStatus::Completed));
    assert!(awaits_recovery(OperationStatus::RollbackPending));
    assert!(!awaits_recovery(OperationStatus::Planned));
}

#[test]
fn progress_and_pause_are_cooperative_and_durable() {
    let job = queued("scan", 100, 1);
    let running = claim(&lease_of(&job), "worker", 10, 100).expect("claim");
    assert!(lease_update_applies(&running, "worker", 11));
    assert!(matches!(progress_values(4, Some(10), None), Ok((4, Some(10)))));
    let asked = request_control(JobControl::Pause, running).expect("pause request");
    assert_eq!(asked.status, JobStatus::PauseRequested);
    let (expected, final_status, event) = acknowledgement(JobStatus::PauseRequested).expect("pause acknowledgement");
    assert!(finish_applies(&asked, "worker", expected, 13));
    let paused = finished_row(final_status);
    assert_eq!(event, "paused");
    assert_eq!((paused.status, paused.lease_owner.clone()), (JobStatus::Paused, None));
    assert_eq!(resume(&paused).expect("resume job").status, JobStatus::Queued);
}

#[test]
fn reconcile_handles_identity_shift_for_existing_record_id() {
    let target_identity = FileIdentity {
        platform: Platform::MacOs,
        volume_id: "volume-dst".to_owned(),
        native_file_id: "inode-dst".to_owned(),
        generation: None,
    };
    let moved_snapshot = FileSnapshot { size: 7, modified_at_ns: 100, changed_at_ns: 2000, created_at_ns: Some(99) };
    assert!(matches!(
        reconcile_action(None, "/target/path.txt", &moved_snapshot),
        Ok(ReconcileAction::LookUpById)
    ));
    let stored = StoredIdentity {
        platform: "macos".to_owned(),
        volume_id: "volume-src".to_owned(),
        native_file_id: "inode-src".to_owned(),
        generation: None,
    };
    assert!(identity_differs(&stored, &target_identity));
    assert!(ensure_identity_free(None).is_ok());
    assert!(ensure_identity_free(Some("file-other".to_owned())).is_err());
}
