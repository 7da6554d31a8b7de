use guixu::domain::FileSnapshot;
use guixu::duplicates::{
    assemble_duplicate_report, duplicate_candidates, duplicate_progress, duplicate_total_work,
    full_hash_candidates, DuplicateInput, DuplicatePhase, QuickProbe,
};

fn input(path: &str, size: u64) -> DuplicateInput {
    DuplicateInput {
        path: path.to_owned(),
        snapshot: FileSnapshot { size, modified_at_ns: 1, changed_at_ns: 1, created_at_ns: None },
        cached_quick_fingerprint: None,
        cached_content_hash: None,
    }
}

fn probe(tag: u8) -> QuickProbe {
    QuickProbe { snapshot_matches: true, fingerprint: Some([tag; 32]) }
}

#[test]
fn only_shared_sizes_and_shared_fingerprints_are_hashed() {
    let inputs = vec![
        input("/lib/a.txt", 10),
        input("/lib/b.txt", 10),
        input("/lib/c.txt", 20),
        input("/lib/d.txt", 10),
        input("/lib/e.txt", 5),
    ];
    let plan = duplicate_candidates(&inputs);
    assert_eq!(plan, vec![0, 1, 3]);
    assert_eq!(duplicate_total_work(plan.len()), 6);
    let probes = vec![probe(1), probe(1), probe(2)];
    let full_plan = full_hash_candidates(&inputs, &plan, &probes);
    assert_eq!(full_plan, vec![0, 1]);
    let report = assemble_duplicate_report(
        &inputs,
        &plan,
        &probes,
        &full_plan,
        &vec![Some([9; 32]), Some([9; 32])],
    );
    assert!(!report.interrupted);
    let groups = &report.result.report.groups;
    assert_eq!(groups.len(), 1);
    assert_eq!(groups[0].size, 10);
    assert_eq!(groups[0].content_hash, [9; 32]);
    assert_eq!(groups[0].paths, vec!["/lib/a.txt".to_owned(), "/lib/b.txt".to_owned()]);
    assert_eq!(report.result.report.stats.input_files, 5);
    assert_eq!(report.result.computed_hashes.len(), 3);
}

#[test]
fn different_content_hashes_form_no_group() {
    let inputs = vec![input("/x/a", 7), input("/x/b", 7)];
    let plan = duplicate_candidates(&inputs);
    let probes = vec![probe(3), probe(3)];
    let full_plan = full_hash_candidates(&inputs, &plan, &probes);
    let report =
        assemble_duplicate_report(&inputs, &plan, &probes, &full_plan, &vec![Some([1; 32]), Some([2; 32])]);
    assert!(report.result.report.groups.is_empty());
}

#[test]
fn a_stopped_analysis_is_reported_as_interrupted_with_no_groups() {
    let inputs = vec![input("/x/a", 7), input("/x/b", 7)];
    let plan = duplicate_candidates(&inputs);
    let probes = vec![probe(3)];
    let report = assemble_duplicate_report(&inputs, &plan, &probes, &vec![], &vec![]);
    assert!(report.interrupted);
    assert!(report.result.report.groups.is_empty());
    assert_eq!(report.result.computed_hashes.len(), 1);
}

#[test]
fn changed_files_are_skipped() {
    let inputs = vec![input("/x/a", 7), input("/x/b", 7)];
    let plan = duplicate_candidates(&inputs);
    let probes = vec![QuickProbe { snapshot_matches: false, fingerprint: None }, probe(3)];
    let full_plan = full_hash_candidates(&inputs, &plan, &probes);
    assert!(full_plan.is_empty());
    let report = assemble_duplicate_report(&inputs, &plan, &probes, &full_plan, &vec![]);
    assert!(!report.interrupted);
    assert_eq!(report.result.report.stats.skipped_files, 1);
}

#[test]
fn exact_duplicates_hash_only_size_and_quick_candidates() {
    let inputs = vec![input("/d/a.bin", 12), input("/d/b.bin", 12), input("/d/unique.bin", 1)];
    let plan = duplicate_candidates(&inputs);
    assert_eq!(plan, vec![0, 1]);
    let probes = vec![probe(4), probe(4)];
    let full_plan = full_hash_candidates(&inputs, &plan, &probes);
    let report = assemble_duplicate_report(&inputs, &plan, &probes, &full_plan, &vec![Some([5; 32]), Some([5; 32])]);
    let groups = &report.result.report.groups;
    assert_eq!(groups.len(), 1);
    assert_eq!(groups[0].paths, vec!["/d/a.bin".to_owned(), "/d/b.bin".to_owned()]);
    assert_eq!(report.result.report.stats.fully_hashed_files, 2);
}

#[test]
fn exact_duplicates_reuses_snapshot_bound_hashes() {
    let cached = |path: &str| DuplicateInput {
        cached_quick_fingerprint: Some([6; 32]),
        cached_content_hash: Some([7; 32]),
        ..input(path, 19)
    };
    let inputs = vec![cached("/d/a.bin"), cached("/d/b.bin")];
    let plan = duplicate_candidates(&inputs);
    let probes: Vec<QuickProbe> = plan
        .iter()
        .map(|_| QuickProbe { snapshot_matches: true, fingerprint: None })
        .collect();
    let full_plan = full_hash_candidates(&inputs, &plan, &probes);
    let full: Vec<Option<[u8; 32]>> = full_plan.iter().map(|_| None).collect();
    let second = assemble_duplicate_report(&inputs, &plan, &probes, &full_plan, &full);
    assert_eq!(second.result.report.groups.len(), 1);
    assert_eq!(second.result.report.stats.quick_cache_hits, 2);
    assert_eq!(second.result.report.stats.full_cache_hits, 2);
    assert_eq!(second.result.report.stats.quick_fingerprinted_files, 0);
    assert_eq!(second.result.report.stats.fully_hashed_files, 0);
    assert!(second.result.computed_hashes.is_empty());
}

#[test]
fn repeated_input_paths_are_planned_and_grouped_once() {
    let inputs = vec![input("/d/x.bin", 9), input("/d/x.bin", 9), input("/d/y.bin", 9)];
    let plan = duplicate_candidates(&inputs);
    assert_eq!(plan, vec![0, 2]);
    let probes = vec![probe(3), probe(3)];
    let full_plan = full_hash_candidates(&inputs, &plan, &probes);
    let report = assemble_duplicate_report(&inputs, &plan, &probes, &full_plan, &vec![Some([8; 32]), Some([8; 32])]);
    let groups = &report.result.report.groups;
    assert_eq!(groups.len(), 1);
    assert_eq!(groups[0].paths, vec!["/d/x.bin".to_owned(), "/d/y.bin".to_owned()]);
    let alone = vec![input("/d/x.bin", 9), input("/d/x.bin", 9)];
    assert!(duplicate_candidates(&alone).is_empty());
}

#[test]
fn computed_hashes_come_out_in_path_order() {
    let inputs = vec![input("/d/c.bin", 4), input("/d/a.bin", 4), input("/d/b.bin", 4)];
    let plan = duplicate_candidates(&inputs);
    let probes = vec![probe(1), probe(1), probe(2)];
    let full_plan = full_hash_candidates(&inputs, &plan, &probes);
    let full: Vec<Option<[u8; 32]>> = full_plan.iter().map(|_| Some([5; 32])).collect();
    let report = assemble_duplicate_report(&inputs, &plan, &probes, &full_plan, &full);
    let paths: Vec<&str> = report.result.computed_hashes.iter().map(|c| c.path.as_str()).collect();
    assert_eq!(paths, vec!["/d/a.bin", "/d/b.bin", "/d/c.bin"]);
}

#[test]
fn duplicate_progress_counts_each_piece_of_work_once() {
    let first = duplicate_progress(3, 0, 0, 6);
    assert_eq!((first.phase, first.processed_files, first.total_work), (DuplicatePhase::QuickFingerprint, 0, 6));
    let second = duplicate_progress(3, 3, 2, 6);
    assert_eq!((second.phase, second.processed_files), (DuplicatePhase::FullHash, 5));
    assert_eq!(duplicate_progress(1, 1, usize::MAX, 2).processed_files, usize::MAX);
}

#[test]
fn groups_come_largest_first_then_by_paths_with_paths_in_order() {
    let inputs = vec![
        input("/z/b", 5),
        input("/z/a", 5),
        input("/y/d", 9),
        input("/y/c", 9),
        input("/m/q", 5),
        input("/m/p", 5),
    ];
    let plan = duplicate_candidates(&inputs);
    let probes: Vec<QuickProbe> =
        plan.iter().map(|&index| probe(inputs[index].snapshot.size as u8)).collect();
    let full_plan = full_hash_candidates(&inputs, &plan, &probes);
    let hash_of = |path: &str| -> [u8; 32] {
        match &path[..2] {
            "/z" => [1; 32],
            "/m" => [2; 32],
            _ => [3; 32],
        }
    };
    let full: Vec<Option<[u8; 32]>> =
        full_plan.iter().map(|&index| Some(hash_of(&inputs[index].path))).collect();
    let report = assemble_duplicate_report(&inputs, &plan, &probes, &full_plan, &full);
    let groups = &report.result.report.groups;
    let listed: Vec<(u64, Vec<String>)> =
        groups.iter().map(|group| (group.size, group.paths.clone())).collect();
    assert_eq!(
        listed,
        vec![
            (9, vec!["/y/c".to_owned(), "/y/d".to_owned()]),
            (5, vec!["/m/p".to_owned(), "/m/q".to_owned()]),
            (5, vec!["/z/a".to_owned(), "/z/b".to_owned()]),
        ]
    );
}
