use guixu::domain::{FileIdentity, FileOperationKind, FileSnapshot, OperationStatus, Platform};
use guixu::operations::{
    copy_undo_step, failed_operation_status, plan_execution_gate, published_record_id_for,
    resolve_recovery, transition, undo_gate, undo_item_selected, validate_undo_target, CopyUndoObservation, CopyUndoStep, MoveError,
    RecoveryAudit, RecoveryItemCheck, RecoveryResolution, WorkflowError,
};
use guixu::platform::{ObservedFile, ObserveError};

fn identity(native: &str) -> FileIdentity {
    FileIdentity {
        platform: Platform::Linux,
        volume_id: "2049".to_owned(),
        native_file_id: native.to_owned(),
        generation: None,
    }
}

fn snapshot(size: u64) -> FileSnapshot {
    FileSnapshot { size, modified_at_ns: 1_000, changed_at_ns: 2_000, created_at_ns: None }
}

fn moved_item(source_there: bool, target_there: bool) -> RecoveryItemCheck {
    RecoveryItemCheck {
        source_identity: identity("1"),
        target_identity: None,
        observed_source: if source_there { Some(identity("1")) } else { None },
        observed_target: if target_there { Some(identity("1")) } else { None },
    }
}

#[test]
fn durability_stages_cannot_be_skipped() {
    assert_eq!(
        transition(OperationStatus::Planned, OperationStatus::PreflightPassed),
        Ok(OperationStatus::PreflightPassed)
    );
    let refused = transition(OperationStatus::Planned, OperationStatus::Completed).unwrap_err();
    assert_eq!(refused.from, OperationStatus::Planned);
    assert_eq!(refused.to, OperationStatus::Completed);
    assert!(transition(OperationStatus::Completed, OperationStatus::Planned).is_err());
}

#[test]
fn stored_plans_run_only_when_ready_fresh_and_non_empty() {
    assert!(matches!(
        plan_execution_gate("executing", 10, 5, 1),
        Err(WorkflowError::PlanNotReady(status)) if status == "executing"
    ));
    assert!(matches!(plan_execution_gate("ready", 4, 5, 1), Err(WorkflowError::PlanExpired)));
    assert!(matches!(plan_execution_gate("ready", 5, 5, 0), Err(WorkflowError::EmptyPlan)));
    assert!(plan_execution_gate("ready", 5, 5, 3).is_ok());
}

#[test]
fn failed_items_need_recovery_once_something_was_published() {
    assert_eq!(failed_operation_status(0), OperationStatus::Failed);
    assert_eq!(failed_operation_status(2), OperationStatus::RecoveryNeeded);
}

#[test]
fn published_records_are_named_by_kind() {
    assert_eq!(published_record_id_for(FileOperationKind::Trash, "op", 1, &Some("f".to_owned())), None);
    assert_eq!(
        published_record_id_for(FileOperationKind::Copy, "op", 3, &Some("f".to_owned())),
        Some("copy-op-3".to_owned())
    );
    assert_eq!(
        published_record_id_for(FileOperationKind::Move, "op", 2, &Some("f".to_owned())),
        Some("f".to_owned())
    );
    assert_eq!(
        published_record_id_for(FileOperationKind::Rename, "op", -4, &None),
        Some("moved-op--4".to_owned())
    );
}

#[test]
fn only_completed_or_recovering_operations_are_undone() {
    assert!(matches!(undo_gate("completed"), Ok(false)));
    assert!(matches!(undo_gate("recovery_needed"), Ok(true)));
    assert!(matches!(
        undo_gate("executing"),
        Err(WorkflowError::OperationNotUndoable(status)) if status == "executing"
    ));
    assert!(undo_item_selected(false, "planned"));
    assert!(undo_item_selected(true, "published"));
    assert!(undo_item_selected(true, "rollback_pending"));
    assert!(!undo_item_selected(true, "planned"));
}

#[test]
fn copy_undo_removes_only_the_unchanged_copy() {
    assert!(matches!(
        copy_undo_step(CopyUndoObservation::Missing, Some(&identity("5")), Some(&snapshot(3))),
        CopyUndoStep::AlreadyRemoved
    ));
    assert!(matches!(
        copy_undo_step(CopyUndoObservation::Unreadable(ObserveError::Symlink), None, None),
        CopyUndoStep::Unverifiable(ObserveError::Symlink)
    ));
    let replaced = ObservedFile { identity: identity("6"), snapshot: snapshot(3) };
    assert!(matches!(
        copy_undo_step(CopyUndoObservation::Present(replaced), Some(&identity("5")), Some(&snapshot(3))),
        CopyUndoStep::Changed("副本身份已变化，可能已被替换，终止撤销")
    ));
    let edited = ObservedFile { identity: identity("5"), snapshot: snapshot(4) };
    assert!(matches!(
        copy_undo_step(CopyUndoObservation::Present(edited), Some(&identity("5")), Some(&snapshot(3))),
        CopyUndoStep::Changed("副本已被修改，终止撤销")
    ));
    let same = ObservedFile { identity: identity("5"), snapshot: snapshot(3) };
    assert!(matches!(
        copy_undo_step(CopyUndoObservation::Present(same), Some(&identity("5")), Some(&snapshot(3))),
        CopyUndoStep::Remove
    ));
    let unrecorded = ObservedFile { identity: identity("9"), snapshot: snapshot(1) };
    assert!(matches!(
        copy_undo_step(CopyUndoObservation::Present(unrecorded), None, None),
        CopyUndoStep::Remove
    ));
}

#[test]
fn interrupted_moves_settle_only_unambiguous_states() {
    let kind = FileOperationKind::Move;
    let untouched = vec![moved_item(true, false), moved_item(true, false)];
    let done = vec![moved_item(false, true), moved_item(false, true)];
    let mixed = vec![moved_item(true, false), moved_item(false, true)];
    assert_eq!(resolve_recovery(kind, "executing", &untouched), RecoveryResolution::NotStarted);
    assert_eq!(resolve_recovery(kind, "executing", &done), RecoveryResolution::Completed);
    assert_eq!(resolve_recovery(kind, "executing", &mixed), RecoveryResolution::Ambiguous);
    assert_eq!(resolve_recovery(kind, "rollback_pending", &untouched), RecoveryResolution::RolledBack);
    assert_eq!(resolve_recovery(kind, "rollback_pending", &done), RecoveryResolution::RollbackNotStarted);
    assert_eq!(resolve_recovery(kind, "rollback_pending", &mixed), RecoveryResolution::AmbiguousRollback);
    let both = vec![moved_item(true, true)];
    assert_eq!(resolve_recovery(kind, "executing", &both), RecoveryResolution::Ambiguous);
}

#[test]
fn interrupted_copies_are_complete_when_every_copy_is_in_place() {
    let copied = RecoveryItemCheck {
        source_identity: identity("1"),
        target_identity: Some(identity("2")),
        observed_source: Some(identity("1")),
        observed_target: Some(identity("2")),
    };
    let foreign = RecoveryItemCheck { observed_target: Some(identity("3")), ..copied.clone() };
    assert_eq!(
        resolve_recovery(FileOperationKind::Copy, "executing", &vec![copied]),
        RecoveryResolution::Completed
    );
    assert_eq!(
        resolve_recovery(FileOperationKind::Copy, "executing", &vec![foreign]),
        RecoveryResolution::Ambiguous
    );
}

#[test]
fn recovery_audit_counts_each_resolution_once() {
    let mut audit = RecoveryAudit::default();
    audit.record(RecoveryResolution::NotStarted);
    audit.record(RecoveryResolution::RollbackNotStarted);
    audit.record(RecoveryResolution::Completed);
    audit.record(RecoveryResolution::AmbiguousRollback);
    assert_eq!(audit.not_started, 2);
    assert_eq!(audit.completed, 1);
    assert_eq!(audit.needs_attention, 1);
}

#[test]
fn recovery_marks_an_unambiguously_finished_copy_rollback_as_rolled_back() {
    let rolled_back = RecoveryItemCheck {
        source_identity: identity("1"),
        target_identity: Some(identity("2")),
        observed_source: Some(identity("1")),
        observed_target: None,
    };
    let resolution = resolve_recovery(FileOperationKind::Copy, "rollback_pending", &vec![rolled_back]);
    assert_eq!(resolution, RecoveryResolution::RolledBack);
    let mut audit = RecoveryAudit::default();
    audit.record(resolution);
    assert_eq!(audit.completed, 1);
}

#[test]
fn undo_rejects_a_replaced_target() {
    let published = identity("5");
    let replaced = Ok(ObservedFile { identity: identity("6"), snapshot: snapshot(3) });
    assert!(matches!(
        validate_undo_target(replaced, None, &published, Some(&snapshot(3)), None),
        Err(MoveError::Verification("目标已被其他文件替换，拒绝撤销"))
    ));
    let edited = Ok(ObservedFile { identity: identity("5"), snapshot: snapshot(4) });
    assert!(matches!(
        validate_undo_target(edited, None, &published, Some(&snapshot(3)), None),
        Err(MoveError::Verification("目标在发布后已被修改，拒绝撤销"))
    ));
    let same = || Ok(ObservedFile { identity: identity("5"), snapshot: snapshot(3) });
    let hash = [0xab_u8; 32];
    let hex = "ab".repeat(32);
    assert!(validate_undo_target(same(), Some(Ok(hash)), &published, Some(&snapshot(3)), Some(&hex)).is_ok());
    assert!(matches!(
        validate_undo_target(same(), Some(Ok([0; 32])), &published, Some(&snapshot(3)), Some(&hex)),
        Err(MoveError::Verification("目标内容与已发布记录不一致，拒绝撤销"))
    ));
    assert!(matches!(
        validate_undo_target(Err(ObserveError::NotAFile), None, &published, None, None),
        Err(MoveError::Observe(ObserveError::NotAFile))
    ));
}
