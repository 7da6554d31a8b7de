use guixu::domain::{ConflictPolicy, FileOperationKind, Platform, RuntimeInfo};
use guixu::operations::{transition, InvalidTransition};
use guixu::domain::OperationStatus;

#[test]
fn runtime_contract_is_versioned_and_offline() {
    let runtime = RuntimeInfo::current();
    assert_eq!(runtime.api_version, 1);
    assert_eq!(runtime.name, "归序");
    assert!(runtime.offline);
}

#[test]
fn operation_kinds_and_policies_round_trip_through_their_names() {
    for kind in [
        FileOperationKind::Organize,
        FileOperationKind::Rename,
        FileOperationKind::Move,
        FileOperationKind::Copy,
        FileOperationKind::Trash,
    ] {
        assert_eq!(FileOperationKind::parse(kind.as_str()), Some(kind));
    }
    assert_eq!(FileOperationKind::parse("delete"), None);
    assert_eq!(FileOperationKind::parse("Rename"), None);
    for policy in [ConflictPolicy::Abort, ConflictPolicy::Skip, ConflictPolicy::KeepBoth] {
        assert_eq!(ConflictPolicy::parse(policy.as_str()), Some(policy));
    }
    assert_eq!(ConflictPolicy::KeepBoth.as_str(), "keep_both");
    assert_eq!(ConflictPolicy::parse("overwrite"), None);
    assert_eq!(Platform::MacOs.as_str(), "macos");
    assert_eq!(Platform::Windows.as_str(), "windows");
}

#[test]
fn operation_state_machine_rejects_skipped_durability_steps() {
    assert_eq!(
        transition(OperationStatus::Draft, OperationStatus::Executing),
        Err(InvalidTransition { from: OperationStatus::Draft, to: OperationStatus::Executing })
    );
    assert_eq!(
        transition(OperationStatus::Draft, OperationStatus::Planned),
        Ok(OperationStatus::Planned)
    );
}

#[test]
fn operation_state_machine_follows_the_durable_path() {
    let path = [
        OperationStatus::Draft,
        OperationStatus::Planned,
        OperationStatus::PreflightPassed,
        OperationStatus::IntentLogged,
        OperationStatus::Executing,
        OperationStatus::Published,
        OperationStatus::Verified,
        OperationStatus::Completed,
    ];
    for step in path.windows(2) {
        assert_eq!(transition(step[0], step[1]), Ok(step[1]));
    }
    assert!(transition(OperationStatus::Completed, OperationStatus::Executing).is_err());
    assert!(transition(OperationStatus::Verified, OperationStatus::Published).is_err());
}
