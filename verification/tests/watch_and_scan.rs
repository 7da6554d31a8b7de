use guixu::indexer::{DirtyDirectorySet, ReconcileRequest};

#[test]
fn dirty_directories_coalesce_to_their_common_ancestor_event() {
    let mut dirty = DirtyDirectorySet::new(Ok("/tmp/t/root".to_owned())).expect("dirty set");
    dirty.mark_event_path("/tmp/t/root/a/b");
    dirty.mark_event_path("/tmp/t/root/a");
    assert_eq!(
        dirty.drain(),
        Some(ReconcileRequest::Directories(vec!["/tmp/t/root/a".to_owned()]))
    );
    assert_eq!(dirty.drain(), None);
}

#[test]
fn full_snapshot_overrides_pending_incremental_work() {
    let mut dirty = DirtyDirectorySet::new(Ok("/tmp/t/root".to_owned())).expect("dirty set");
    dirty.mark_event_path("/tmp/t/root");
    dirty.require_full_snapshot();
    assert_eq!(dirty.drain(), Some(ReconcileRequest::FullSnapshot));
    assert_eq!(dirty.drain(), None);
}

#[test]
fn events_outside_the_watched_region_are_ignored() {
    let mut dirty = DirtyDirectorySet::new(Ok("/tmp/t/root".to_owned())).expect("dirty set");
    dirty.mark_event_path("/var/log");
    assert_eq!(dirty.drain(), None);
    dirty.mark_event_path("/tmp/t/root/x");
    dirty.mark_event_path("/tmp/t/root/x/y");
    dirty.mark_event_path("/tmp/t/root/w");
    assert_eq!(
        dirty.drain(),
        Some(ReconcileRequest::Directories(vec![
            "/tmp/t/root/w".to_owned(),
            "/tmp/t/root/x".to_owned()
        ]))
    );
    dirty.mark_event_path("/tmp/t/root/x");
    dirty.mark_event_path("/tmp/t/root");
    assert_eq!(
        dirty.drain(),
        Some(ReconcileRequest::Directories(vec!["/tmp/t/root".to_owned()]))
    );
}

#[test]
fn a_root_that_cannot_be_resolved_is_an_error() {
    let missing = std::io::Error::new(std::io::ErrorKind::NotFound, "missing");
    assert!(DirtyDirectorySet::new(Err(missing)).is_err());
}
