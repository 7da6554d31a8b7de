use guixu::domain::{FileIdentity, FileSnapshot, Platform};
use guixu::operations::{
    plan_copies, plan_renames, plan_trash, CopyFacts, CopyPlanError, CopyRequest, EntryKind,
    PreflightError, PreflightFacts, RenameFacts, RenamePlanError, RenameRequest, TrashPlanError,
};
use guixu::platform::{ObservedFile, ObserveError};

fn file_identity(native: &str) -> FileIdentity {
    FileIdentity {
        platform: Platform::Linux,
        volume_id: "2049".to_owned(),
        native_file_id: native.to_owned(),
        generation: None,
    }
}

fn file_snapshot(size: u64) -> FileSnapshot {
    FileSnapshot { size, modified_at_ns: 1_000, changed_at_ns: 2_000, created_at_ns: None }
}

fn seen(native: &str, size: u64) -> Result<ObservedFile, ObserveError> {
    Ok(ObservedFile { identity: file_identity(native), snapshot: file_snapshot(size) })
}

fn preflight_facts(source: &str, ancestor: &str, observed: Result<ObservedFile, ObserveError>) -> PreflightFacts {
    PreflightFacts {
        canonical_root: Ok("/lib".to_owned()),
        canonical_source: Ok(source.to_owned()),
        target_ancestor: Ok(ancestor.to_owned()),
        target_exists: false,
        source_recheck: None,
        canonical_target: None,
        observed_source: observed,
    }
}

fn rename(id: &str, source: &str, name: &str, native: &str) -> RenameRequest {
    RenameRequest {
        file_id: id.to_owned(),
        source: source.to_owned(),
        new_name: name.to_owned(),
        expected_identity: file_identity(native),
        expected_snapshot: file_snapshot(5),
    }
}

fn rename_facts(source: &str, native: &str) -> RenameFacts {
    let parent = source.rsplit_once('/').unwrap().0;
    RenameFacts {
        canonical_source: Ok(source.to_owned()),
        preflight: preflight_facts(source, parent, seen(native, 5)),
    }
}

fn copy_request(id: &str, source: &str, native: &str) -> CopyRequest {
    CopyRequest {
        file_id: id.to_owned(),
        source: source.to_owned(),
        expected_identity: file_identity(native),
        expected_snapshot: file_snapshot(5),
    }
}

fn copy_facts(source: &str, ancestor: &str, native: &str) -> CopyFacts {
    CopyFacts {
        canonical_source: Ok(source.to_owned()),
        preflight: preflight_facts(source, ancestor, seen(native, 5)),
    }
}

#[test]
fn rename_plans_come_back_sorted_by_source() {
    let requests = vec![
        rename("b", "/lib/z/old.txt", "new.txt", "2"),
        rename("a", "/lib/a/old.txt", "renamed.txt", "1"),
    ];
    let facts = vec![rename_facts("/lib/z/old.txt", "2"), rename_facts("/lib/a/old.txt", "1")];
    let planned = plan_renames(&requests, Ok("/lib".to_owned()), facts).unwrap();
    assert_eq!(planned.len(), 2);
    assert_eq!(planned[0].file_id, "a");
    assert_eq!(planned[0].target, "/lib/a/renamed.txt");
    assert_eq!(planned[1].source, "/lib/z/old.txt");
    assert_eq!(planned[1].target, "/lib/z/new.txt");
}

#[test]
fn rename_plans_refuse_bad_requests() {
    assert!(matches!(plan_renames(&vec![], Ok("/lib".to_owned()), vec![]), Err(RenamePlanError::Empty)));
    let bad = vec![rename("a", "/lib/a.txt", "x/y.txt", "1")];
    assert!(matches!(
        plan_renames(&bad, Ok("/lib".to_owned()), vec![rename_facts("/lib/a.txt", "1")]),
        Err(RenamePlanError::InvalidName { file_id, .. }) if file_id == "a"
    ));
    let same = vec![rename("a", "/lib/a.txt", "a.txt", "1")];
    assert!(matches!(
        plan_renames(&same, Ok("/lib".to_owned()), vec![rename_facts("/lib/a.txt", "1")]),
        Err(RenamePlanError::Unchanged { file_id }) if file_id == "a"
    ));
    let clash = vec![rename("a", "/lib/a.txt", "Report.txt", "1"), rename("b", "/lib/b.txt", "report.TXT", "2")];
    assert!(matches!(
        plan_renames(&clash, Ok("/lib".to_owned()), vec![rename_facts("/lib/a.txt", "1"), rename_facts("/lib/b.txt", "2")]),
        Err(RenamePlanError::DuplicateTarget { target }) if target == "/lib/report.TXT"
    ));
    let changed = vec![rename("a", "/lib/a.txt", "b.txt", "1")];
    assert!(matches!(
        plan_renames(&changed, Ok("/lib".to_owned()), vec![rename_facts("/lib/a.txt", "9")]),
        Err(RenamePlanError::Preflight { source: PreflightError::IdentityChanged, .. })
    ));
}

#[test]
fn copy_plans_need_a_real_folder_inside_the_library() {
    let requests = vec![copy_request("a", "/lib/docs/a.txt", "1")];
    let folder = EntryKind { is_dir: true, is_symlink: false };
    let link = EntryKind { is_dir: true, is_symlink: true };
    assert!(matches!(
        plan_copies(&requests, Ok("/lib".to_owned()), Ok(link), Ok("/lib/out".to_owned()), vec![copy_facts("/lib/docs/a.txt", "/lib/out", "1")]),
        Err(CopyPlanError::InvalidDestination)
    ));
    assert!(matches!(
        plan_copies(&requests, Ok("/lib".to_owned()), Ok(folder), Ok("/elsewhere".to_owned()), vec![copy_facts("/lib/docs/a.txt", "/elsewhere", "1")]),
        Err(CopyPlanError::InvalidDestination)
    ));
    let planned = plan_copies(&requests, Ok("/lib".to_owned()), Ok(folder), Ok("/lib/out".to_owned()), vec![copy_facts("/lib/docs/a.txt", "/lib/out", "1")]).unwrap();
    assert_eq!(planned.len(), 1);
    assert_eq!(planned[0].target, "/lib/out/a.txt");
}

#[test]
fn trash_plans_mirror_paths_under_their_namespace() {
    let requests = vec![copy_request("b", "/lib/x/b.txt", "2"), copy_request("a", "/lib/a.txt", "1")];
    let facts = vec![
        copy_facts("/lib/x/b.txt", "/lib", "2"),
        copy_facts("/lib/a.txt", "/lib", "1"),
    ];
    let planned = plan_trash(&requests, "plan-7", Ok("/lib".to_owned()), None, facts).unwrap();
    assert_eq!(planned[0].target, "/lib/.guixu-trash/plan-7/a.txt");
    assert_eq!(planned[1].target, "/lib/.guixu-trash/plan-7/x/b.txt");
    let not_a_folder = EntryKind { is_dir: false, is_symlink: false };
    assert!(matches!(
        plan_trash(&requests, "plan-7", Ok("/lib".to_owned()), Some(Ok(not_a_folder)), vec![copy_facts("/lib/x/b.txt", "/lib", "2"), copy_facts("/lib/a.txt", "/lib", "1")]),
        Err(TrashPlanError::InvalidQuarantine)
    ));
    assert!(matches!(plan_trash(&vec![], "plan-7", Ok("/lib".to_owned()), None, vec![]), Err(TrashPlanError::Empty)));
}

#[test]
fn rename_planner_rejects_invalid_and_reserved_names() {
    for invalid in ["", "../escape.txt", "nested/file.txt", "CON.txt", "tail."] {
        let requests = vec![rename("file", "/lib/source.txt", invalid, "1")];
        assert!(matches!(
            plan_renames(&requests, Ok("/lib".to_owned()), vec![rename_facts("/lib/source.txt", "1")]),
            Err(RenamePlanError::InvalidName { .. })
        ));
    }
}

#[test]
fn rename_planner_rejects_existing_and_duplicate_targets() {
    let occupied = RenameFacts {
        canonical_source: Ok("/lib/first.txt".to_owned()),
        preflight: PreflightFacts {
            target_exists: true,
            source_recheck: Some("/lib/first.txt".to_owned()),
            canonical_target: Some("/lib/occupied.txt".to_owned()),
            ..preflight_facts("/lib/first.txt", "/lib", seen("1", 5))
        },
    };
    assert!(matches!(
        plan_renames(&vec![rename("first", "/lib/first.txt", "occupied.txt", "1")], Ok("/lib".to_owned()), vec![occupied]),
        Err(RenamePlanError::Preflight { source: PreflightError::TargetExists, .. })
    ));
    assert!(matches!(
        plan_renames(
            &vec![rename("first", "/lib/first.txt", "same.txt", "1"), rename("second", "/lib/second.txt", "SAME.txt", "2")],
            Ok("/lib".to_owned()),
            vec![rename_facts("/lib/first.txt", "1"), rename_facts("/lib/second.txt", "2")]
        ),
        Err(RenamePlanError::DuplicateTarget { .. })
    ));
}

#[test]
fn rename_planner_is_read_only_and_returns_stable_targets() {
    let requests = vec![
        rename("file-b", "/lib/乙.txt", "新乙.txt", "1"),
        rename("file-a", "/lib/甲.txt", "新甲.txt", "2"),
    ];
    let facts = vec![rename_facts("/lib/乙.txt", "1"), rename_facts("/lib/甲.txt", "2")];
    let planned = plan_renames(&requests, Ok("/lib".to_owned()), facts).expect("rename plan");
    let mut expected_sources = vec!["/lib/乙.txt".to_owned(), "/lib/甲.txt".to_owned()];
    expected_sources.sort();
    assert_eq!(planned.iter().map(|item| item.source.clone()).collect::<Vec<_>>(), expected_sources);
    assert_eq!(planned.iter().find(|item| item.file_id == "file-a").expect("first planned item").target, "/lib/新甲.txt");
    assert_eq!(planned.iter().find(|item| item.file_id == "file-b").expect("second planned item").target, "/lib/新乙.txt");
}

#[test]
fn copy_planner_is_read_only_and_rejects_targets_outside_the_library() {
    let request = copy_request("file-1", "/lib/source.txt", "1");
    let folder = EntryKind { is_dir: true, is_symlink: false };
    let planned = plan_copies(
        &vec![request.clone()],
        Ok("/lib".to_owned()),
        Ok(folder),
        Ok("/lib/copies".to_owned()),
        vec![copy_facts("/lib/source.txt", "/lib/copies", "1")],
    )
    .expect("copy plan");
    assert_eq!(planned[0].target, "/lib/copies/source.txt");
    assert!(matches!(
        plan_copies(
            &vec![request],
            Ok("/lib".to_owned()),
            Ok(folder),
            Ok("/tmp/outside".to_owned()),
            vec![copy_facts("/lib/source.txt", "/tmp/outside", "1")],
        ),
        Err(CopyPlanError::InvalidDestination)
    ));
}

#[test]
fn trash_planner_preserves_relative_paths_inside_an_isolated_namespace() {
    let source = "/lib/documents/reports/annual.txt";
    let planned = plan_trash(
        &vec![copy_request("file-1", source, "1")],
        "trash-plan-1",
        Ok("/lib".to_owned()),
        None,
        vec![copy_facts(source, "/lib", "1")],
    )
    .expect("trash plan");
    assert_eq!(planned[0].target, "/lib/.guixu-trash/trash-plan-1/documents/reports/annual.txt");
}

#[test]
fn rename_planner_rejects_a_source_changed_after_selection() {
    let requests = vec![rename("file", "/lib/source.txt", "renamed.txt", "1")];
    let changed = RenameFacts {
        canonical_source: Ok("/lib/source.txt".to_owned()),
        preflight: preflight_facts("/lib/source.txt", "/lib", seen("1", 18)),
    };
    assert!(matches!(
        plan_renames(&requests, Ok("/lib".to_owned()), vec![changed]),
        Err(RenamePlanError::Preflight { source: PreflightError::SnapshotChanged, .. })
    ));
}
