use guixu::analysis::{quick_fingerprint_of, sample_reads};
use guixu::domain::{FileIdentity, FileSnapshot, Platform};
use guixu::indexer::{scan_entry_step, should_flush, EntryAction, EntryKind, ScanOptions, ScanState};
use guixu::platform::{observe_error_message, ObserveError, ObservedFile};

fn observed(native: &str) -> ObservedFile {
    ObservedFile {
        identity: FileIdentity {
            platform: Platform::Linux,
            volume_id: "2049".to_owned(),
            native_file_id: native.to_owned(),
            generation: None,
        },
        snapshot: FileSnapshot { size: 3, modified_at_ns: 1, changed_at_ns: 2, created_at_ns: None },
    }
}

fn options() -> ScanOptions {
    ScanOptions { batch_size: 2, max_depth: Some(2), excluded_directory_names: vec!["node_modules".to_owned()], max_reported_issues: 1 }
}

#[test]
fn symbolic_links_and_special_entries_are_skipped() {
    let mut state = ScanState::new();
    let action = scan_entry_step(&mut state, &options(), EntryKind::Symlink, 0, "link", "/lib/link", None, None, "lib");
    assert_eq!(action, EntryAction::Skip);
    let action = scan_entry_step(&mut state, &options(), EntryKind::Other, 0, "fifo", "/lib/fifo", None, None, "lib");
    assert_eq!(action, EntryAction::Skip);
    assert_eq!(state.progress.visited_entries, 2);
    assert_eq!(state.progress.skipped_entries, 2);
    assert!(state.batch.is_empty() && state.issues.is_empty());
}

#[test]
fn directories_are_entered_only_where_allowed() {
    let mut state = ScanState::new();
    assert_eq!(scan_entry_step(&mut state, &options(), EntryKind::Directory, 0, "docs", "/lib/docs", None, None, "lib"), EntryAction::Descend);
    assert_eq!(scan_entry_step(&mut state, &options(), EntryKind::Directory, 0, "node_modules", "/lib/node_modules", None, None, "lib"), EntryAction::Skip);
    assert_eq!(scan_entry_step(&mut state, &options(), EntryKind::Directory, 2, "deep", "/lib/a/b/deep", None, None, "lib"), EntryAction::Skip);
    assert_eq!((state.progress.visited_entries, state.progress.skipped_entries), (3, 2));
}

#[test]
fn files_are_admitted_or_skipped_with_an_issue() {
    let mut state = ScanState::new();
    let action = scan_entry_step(&mut state, &options(), EntryKind::File, 0, "a.txt", "/lib/a.txt", Some("/lib/a.txt".to_owned()), Some(Ok(observed("7"))), "lib");
    assert_eq!(action, EntryAction::Admit);
    assert_eq!(state.batch.len(), 1);
    assert!(!should_flush(&state, 2));
    let hard_link = scan_entry_step(&mut state, &options(), EntryKind::File, 0, "b.txt", "/lib/b.txt", Some("/lib/b.txt".to_owned()), Some(Ok(observed("7"))), "lib");
    assert_eq!(hard_link, EntryAction::Admit);
    assert_eq!((state.batch.len(), state.progress.skipped_entries), (1, 1));
    let action = scan_entry_step(&mut state, &options(), EntryKind::File, 0, "bad", "/lib/bad\u{fffd}", None, None, "lib");
    assert_eq!(action, EntryAction::Skip);
    assert_eq!(state.issues.len(), 1);
    assert_eq!(state.issues[0].path, "/lib/bad\u{fffd}");
    assert_eq!(state.issues[0].message, "文件名不是有效 UTF-8，当前版本不会以有损路径索引");
    let action = scan_entry_step(&mut state, &options(), EntryKind::File, 0, "c", "/lib/c", Some("/lib/c".to_owned()), Some(Err(ObserveError::NotAFile)), "lib");
    assert_eq!(action, EntryAction::Skip);
    assert_eq!(state.issues.len(), 1, "the issue cap holds");
    assert_eq!(state.progress.skipped_entries, 3);
    scan_entry_step(&mut state, &options(), EntryKind::File, 0, "d.txt", "/lib/d.txt", Some("/lib/d.txt".to_owned()), Some(Ok(observed("8"))), "lib");
    assert!(should_flush(&state, 2));
}

#[test]
fn unreadable_entries_are_reported() {
    let mut state = ScanState::new();
    let action = scan_entry_step(&mut state, &options(), EntryKind::Unreadable("denied".to_owned()), 0, "", "/lib", None, None, "lib");
    assert_eq!(action, EntryAction::Skip);
    assert_eq!(state.issues[0].message, "denied");
    assert_eq!(state.progress.skipped_entries, 1);
}

#[test]
fn observation_failures_have_fixed_messages() {
    assert_eq!(observe_error_message(&ObserveError::Symlink), "不跟随符号链接");
    assert_eq!(observe_error_message(&ObserveError::NotAFile), "该路径不是普通文件");
    let io = observe_error_message(&ObserveError::Io(std::io::Error::other("gone")));
    assert_eq!(io, "无法读取文件元数据：gone");
}

#[test]
fn quick_fingerprints_digest_the_size_then_each_sample() {
    assert_eq!(sample_reads(10), vec![(0, 10)]);
    assert_eq!(sample_reads(65536 + 10), vec![(0, 65536), (5, 65536), (10, 65536)]);
    assert_eq!(sample_reads(65537), vec![(0, 65536), (1, 65536)]);
    let samples = vec![(0_u64, b"abc".to_vec())];
    let mut layout = 3_u64.to_le_bytes().to_vec();
    layout.extend_from_slice(&0_u64.to_le_bytes());
    layout.extend_from_slice(b"abc");
    assert_eq!(quick_fingerprint_of(3, &samples), *blake3::hash(&layout).as_bytes());
    assert_ne!(quick_fingerprint_of(4, &samples), quick_fingerprint_of(3, &samples));
}

#[test]
fn issues_stay_within_the_maximum_and_keep_their_order() {
    let mut options = options();
    options.max_reported_issues = 2;
    let mut state = ScanState::new();
    for place in ["/lib/a", "/lib/b", "/lib/c", "/lib/d"] {
        scan_entry_step(&mut state, &options, EntryKind::Unreadable(format!("{place} denied")), 0, "", place, None, None, "lib");
        assert!(state.issues.len() <= 2);
    }
    let places: Vec<&str> = state.issues.iter().map(|issue| issue.path.as_str()).collect();
    assert_eq!(places, vec!["/lib/a", "/lib/b"]);
    assert_eq!(state.progress.skipped_entries, 4);
    assert!(state.finish(false).incomplete);
}
