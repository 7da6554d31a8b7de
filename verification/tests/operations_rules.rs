use guixu::domain::{FileIdentity, FileOperationKind, FileSnapshot, Platform};
use guixu::operations::{
    classify_move_recovery, ensure_plan_kind, hex_hash, preflight, stable_file_id,
    validate_file_name, MoveIntent, PreflightError, PreflightFacts, RecoveryDecision,
};
use guixu::platform::{ObservedFile, ObserveError};

fn identity(native: &str) -> FileIdentity {
    FileIdentity {
        platform: Platform::Linux,
        volume_id: "2049".to_owned(),
        native_file_id: native.to_owned(),
        generation: None,
    }
}

fn snapshot(size: u64) -> FileSnapshot {
    FileSnapshot { size, modified_at_ns: 1_000, changed_at_ns: 2_000, created_at_ns: None }
}

fn intent(target: &str) -> MoveIntent {
    MoveIntent {
        root: "/lib".to_owned(),
        source: "/lib/source.txt".to_owned(),
        target: target.to_owned(),
        expected_identity: identity("12"),
        expected_snapshot: snapshot(8),
    }
}

fn facts(ancestor: &str, observed: Result<ObservedFile, ObserveError>) -> PreflightFacts {
    PreflightFacts {
        canonical_root: Ok("/lib".to_owned()),
        canonical_source: Ok("/lib/source.txt".to_owned()),
        target_ancestor: Ok(ancestor.to_owned()),
        target_exists: false,
        source_recheck: None,
        canonical_target: None,
        observed_source: observed,
    }
}

fn unchanged() -> Result<ObservedFile, ObserveError> {
    Ok(ObservedFile { identity: identity("12"), snapshot: snapshot(8) })
}

#[test]
fn plan_execution_commands_enforce_the_expected_operation_kind() {
    assert!(ensure_plan_kind(FileOperationKind::Rename, FileOperationKind::Rename).is_ok());
    assert!(ensure_plan_kind(FileOperationKind::Rename, FileOperationKind::Organize).is_err());
    assert!(ensure_plan_kind(FileOperationKind::Move, FileOperationKind::Move).is_ok());
    assert!(ensure_plan_kind(FileOperationKind::Copy, FileOperationKind::Move).is_err());
}

#[test]
fn plan_kind_mismatch_names_both_kinds() {
    assert_eq!(
        ensure_plan_kind(FileOperationKind::Copy, FileOperationKind::Move),
        Err("计划类型不匹配：期望 move，实际 copy".to_owned())
    );
}

#[test]
fn preflight_accepts_unchanged_source_and_free_target() {
    let intent = intent("/lib/target/source.txt");
    assert!(preflight(&intent, facts("/lib/target", unchanged())).is_ok());
}

#[test]
fn preflight_rejects_changed_source() {
    let intent = intent("/lib/target/source.txt");
    let changed = Ok(ObservedFile { identity: identity("12"), snapshot: snapshot(18) });
    assert!(matches!(
        preflight(&intent, facts("/lib/target", changed)),
        Err(PreflightError::SnapshotChanged)
    ));
    let replaced = Ok(ObservedFile { identity: identity("99"), snapshot: snapshot(8) });
    assert!(matches!(
        preflight(&intent, facts("/lib/target", replaced)),
        Err(PreflightError::IdentityChanged)
    ));
}

#[test]
fn preflight_never_accepts_an_existing_target() {
    let intent = intent("/lib/target/source.txt");
    let mut observed = facts("/lib/target", unchanged());
    observed.target_exists = true;
    observed.source_recheck = Some("/lib/source.txt".to_owned());
    observed.canonical_target = Some("/lib/target/source.txt".to_owned());
    assert!(matches!(preflight(&intent, observed), Err(PreflightError::TargetExists)));
}

#[test]
fn preflight_accepts_a_case_only_rename_onto_the_source_itself() {
    let intent = intent("/lib/SOURCE.txt");
    let mut observed = facts("/lib", unchanged());
    observed.target_exists = true;
    observed.source_recheck = Some("/lib/source.txt".to_owned());
    observed.canonical_target = Some("/lib/source.txt".to_owned());
    assert!(preflight(&intent, observed).is_ok());
}

#[test]
fn preflight_accepts_a_safe_target_with_missing_parent_directories() {
    let intent = intent("/lib/new/category/source.txt");
    assert!(preflight(&intent, facts("/lib", unchanged())).is_ok());
}

#[test]
fn preflight_rejects_a_missing_target_tree_outside_the_root() {
    let intent = intent("/outside/new/category/source.txt");
    assert!(matches!(
        preflight(&intent, facts("/", unchanged())),
        Err(PreflightError::OutsideRoot)
    ));
}

#[test]
fn preflight_rejects_a_symlinked_ancestor_that_leaves_the_root() {
    let intent = intent("/lib/link/source.txt");
    assert!(matches!(
        preflight(&intent, facts("/elsewhere", unchanged())),
        Err(PreflightError::OutsideRoot)
    ));
}

#[test]
fn preflight_reports_a_source_that_cannot_be_observed() {
    let intent = intent("/lib/target/source.txt");
    assert!(matches!(
        preflight(&intent, facts("/lib/target", Err(ObserveError::Symlink))),
        Err(PreflightError::Observe(ObserveError::Symlink))
    ));
}

#[test]
fn file_names_are_checked_for_portability() {
    assert_eq!(validate_file_name("报告.txt"), Ok(()));
    assert_eq!(validate_file_name(""), Err("名称不能为空"));
    assert_eq!(validate_file_name(" a.txt"), Err("名称首尾不能包含空白字符"));
    assert_eq!(validate_file_name("../escape.txt"), Err("名称不能包含路径分隔符或相对路径"));
    assert_eq!(validate_file_name("nested/file.txt"), Err("名称不能包含路径分隔符或相对路径"));
    assert_eq!(validate_file_name("a:b.txt"), Err("名称包含跨平台不安全字符"));
    assert_eq!(validate_file_name("tail."), Err("名称不能以句点结尾"));
    assert_eq!(validate_file_name("CON.txt"), Err("名称是系统保留名称"));
    assert_eq!(validate_file_name("lpt9"), Err("名称是系统保留名称"));
    assert_eq!(validate_file_name(&"x".repeat(256)), Err("名称超过 255 字节限制"));
    assert_eq!(validate_file_name(&"x".repeat(255)), Ok(()));
}

#[test]
fn recovery_distinguishes_resume_complete_and_ambiguous_states() {
    let intent = intent("/lib/target/source.txt");
    assert_eq!(
        classify_move_recovery(&intent, None, Some(identity("12")), None),
        RecoveryDecision::ResumeFromSource
    );
    assert_eq!(
        classify_move_recovery(&intent, None, None, Some(identity("12"))),
        RecoveryDecision::OperationCompleted
    );
    assert_eq!(
        classify_move_recovery(&intent, None, Some(identity("12")), Some(identity("12"))),
        RecoveryDecision::RemovePublishedSource
    );
    assert_eq!(
        classify_move_recovery(&intent, None, None, None),
        RecoveryDecision::ManualReview
    );
    assert_eq!(
        classify_move_recovery(&intent, None, Some(identity("12")), Some(identity("77"))),
        RecoveryDecision::ManualReview
    );
    let published = identity("40");
    assert_eq!(
        classify_move_recovery(&intent, Some(&published), None, Some(identity("40"))),
        RecoveryDecision::OperationCompleted
    );
}

#[test]
fn content_hashes_are_written_as_lowercase_hex() {
    let mut hash = [0_u8; 32];
    hash[0] = 0xab;
    hash[31] = 0x0f;
    let text = hex_hash(hash);
    assert_eq!(text.len(), 64);
    assert!(text.starts_with("ab00"));
    assert!(text.ends_with("000f"));
}

#[test]
fn stable_file_ids_depend_on_library_and_identity() {
    let first = stable_file_id("library", &identity("12"));
    assert_eq!(first, stable_file_id("library", &identity("12")));
    assert_ne!(first, stable_file_id("library", &identity("13")));
    assert_ne!(first, stable_file_id("other", &identity("12")));
    let mut material = Vec::new();
    for part in ["library", "linux", "2049", "12", ""] {
        material.extend_from_slice(part.as_bytes());
        material.push(0);
    }
    assert_eq!(first, format!("file_{}", blake3::hash(&material).to_hex()));
}
