use guixu::analysis::{
    classify_category, cleanup_reasons, hamming_masks, image_dhash, rank_duplicate_retention,
    safe_filename, sample_offsets, unique_filename, CleanupPolicy, CleanupReason, FileCategory,
    RetentionInput, DAY_NS, SAMPLE_BYTES,
};

fn input(path: &str, modified_at_ns: i64) -> RetentionInput {
    RetentionInput { path: path.to_owned(), modified_at_ns }
}

#[test]
fn retention_ranking_penalizes_copy_markers_and_explains_the_choice() {
    let ranked = rank_duplicate_retention(&vec![
        input("/资料/合同.pdf", 10),
        input("/资料/合同 copy.pdf", 20),
        input("/资料/.cache/合同.pdf", 5),
    ]);
    assert_eq!(ranked[0].path, "/资料/合同.pdf");
    assert!(ranked[0].reasons.iter().any(|reason| reason == "名称无副本标记"));
    assert!(ranked[1].reasons.iter().any(|reason| reason == "名称包含副本标记"));
    assert!(ranked[2].reasons.iter().any(|reason| reason.contains("隐藏目录")));
}

#[test]
fn retention_scores_are_exact() {
    let ranked = rank_duplicate_retention(&vec![
        input("/a/b/report copy.txt", 30),
        input("/a/report.txt", 10),
    ]);
    assert_eq!(ranked.len(), 2);
    // shallow, no marker: 50 + 15 + 10
    assert_eq!(ranked[0].path, "/a/report.txt");
    assert_eq!(ranked[0].score, 75);
    assert_eq!(
        ranked[0].reasons,
        vec!["路径层级较浅".to_owned(), "名称无副本标记".to_owned()]
    );
    // newest, marker: 50 + 25 - 25
    assert_eq!(ranked[1].score, 50);
    assert_eq!(
        ranked[1].reasons,
        vec!["同组中最近修改".to_owned(), "名称包含副本标记".to_owned()]
    );
}

#[test]
fn retention_ties_keep_path_order() {
    let ranked = rank_duplicate_retention(&vec![input("/x/b.txt", 1), input("/x/a.txt", 1)]);
    assert_eq!(ranked[0].path, "/x/a.txt");
    assert_eq!(ranked[1].path, "/x/b.txt");
    assert!(rank_duplicate_retention(&vec![]).is_empty());
}

#[test]
fn cleanup_analysis_is_explainable_and_boundary_inclusive() {
    let now = 500 * DAY_NS;
    let reasons = cleanup_reasons(
        "/Users/test/Downloads/archive.tmp",
        100 * 1024 * 1024,
        now - 365 * DAY_NS,
        now,
        CleanupPolicy::default(),
    );
    assert_eq!(
        reasons,
        vec![
            CleanupReason::Large,
            CleanupReason::Old,
            CleanupReason::Temporary,
            CleanupReason::StaleDownload,
        ]
    );
    assert!(cleanup_reasons(
        "/Users/test/Documents/current.txt",
        1024,
        now - DAY_NS,
        now,
        CleanupPolicy::default(),
    )
    .is_empty());
}

#[test]
fn cleanup_analysis_does_not_treat_future_timestamps_as_old() {
    let now = 10 * DAY_NS;
    let reasons = cleanup_reasons(
        "/home/test/Downloads/future.txt",
        1024,
        now + DAY_NS,
        now,
        CleanupPolicy::default(),
    );
    assert!(reasons.is_empty());
}

#[test]
fn cleanup_thresholds_are_inclusive_and_just_below_is_not_flagged() {
    let now = 400 * DAY_NS;
    let policy = CleanupPolicy::default();
    assert!(cleanup_reasons("/d/a.bin", 100 * 1024 * 1024 - 1, now, now, policy).is_empty());
    assert_eq!(
        cleanup_reasons("/d/a.bin", 0, now - 365 * DAY_NS + 1, now, policy),
        vec![]
    );
    assert_eq!(
        cleanup_reasons("/home/u/Downloads/a.bin", 0, now - 180 * DAY_NS, now, policy),
        vec![CleanupReason::StaleDownload]
    );
    assert_eq!(
        cleanup_reasons("/d/x.TMP", 0, now, now, policy),
        vec![CleanupReason::Temporary]
    );
}

#[test]
fn names_are_safe_reserved_aware_and_case_insensitively_unique() {
    assert_eq!(safe_filename("  CON  ", Some("txt")), "_CON.txt");
    let existing = vec!["报告.PDF".to_owned(), "报告 (2).pdf".to_owned()];
    assert_eq!(unique_filename("报告.pdf", &existing), "报告 (3).pdf");
}

#[test]
fn safe_filename_replaces_forbidden_characters_and_trims() {
    assert_eq!(safe_filename("a/b:c", Some("txt")), "abc.txt");
    assert_eq!(safe_filename("  ...  ", None), "未命名文件");
    assert_eq!(safe_filename("report. ", Some(".PDF")), "report.PDF");
    assert_eq!(unique_filename("新文件.txt", &vec![]), "新文件.txt");
    assert_eq!(
        unique_filename("a.txt", &vec!["A.TXT".to_owned()]),
        "a (2).txt"
    );
}

#[test]
fn image_dhash_is_stable_and_distance_compatible() {
    let mut samples = [0_u8; 72];
    for row in 0..8 {
        for col in 0..9 {
            samples[row * 9 + col] = (8 - col) as u8;
        }
    }
    assert_eq!(image_dhash(&samples), u64::MAX);
    let distance = (image_dhash(&samples) ^ image_dhash(&samples)).count_ones();
    assert_eq!(1.0_f32 - (distance as f32 / 64.0), 1.0);
}

#[test]
fn image_dhash_of_a_flat_image_is_zero() {
    assert_eq!(image_dhash(&[7_u8; 72]), 0);
    let mut samples = [0_u8; 72];
    samples[1] = 1;
    assert_eq!(image_dhash(&samples), 2);
    samples[0] = 2;
    assert_eq!(image_dhash(&samples), 3);
    samples[71] = 9;
    assert_eq!(image_dhash(&samples), 3);
}

#[test]
fn magic_bytes_override_a_misleading_extension() {
    let (category, reason) = classify_category("photo.txt", b"\x89PNG\r\n\x1a\nrest");
    assert_eq!(category, FileCategory::Image);
    assert_eq!(reason, "magic_bytes");
}

#[test]
fn zip_container_documents_are_not_misclassified_as_archives() {
    let docx = classify_category("contract.docx", b"PK\x03\x04rest");
    assert_eq!(docx.0, FileCategory::Document);
    assert_eq!(docx.1, "container_format");

    let xlsx = classify_category("budget.xlsx", b"PK\x03\x04rest");
    assert_eq!(xlsx.0, FileCategory::Data);
    assert_eq!(xlsx.1, "container_format");

    let zip = classify_category("backup.zip", b"PK\x03\x04rest");
    assert_eq!(zip.0, FileCategory::Archive);
    assert_eq!(zip.1, "magic_bytes");
}

#[test]
fn classification_falls_back_to_the_extension() {
    assert_eq!(classify_category("notes.MD", b"plain"), (FileCategory::Document, "extension"));
    assert_eq!(classify_category("main.rs", b""), (FileCategory::Code, "extension"));
    assert_eq!(classify_category("noext", b""), (FileCategory::Other, "extension"));
}

#[test]
fn sampled_offsets_cover_start_middle_and_end() {
    assert_eq!(sample_offsets(10), vec![0]);
    assert_eq!(sample_offsets(SAMPLE_BYTES), vec![0]);
    assert_eq!(sample_offsets(SAMPLE_BYTES + 1), vec![0, 1]);
    assert_eq!(sample_offsets(SAMPLE_BYTES + 10), vec![0, 5, 10]);
}

#[test]
fn hamming_masks_enumerate_distance_two_neighbourhoods() {
    assert_eq!(hamming_masks(3, 0), vec![0]);
    assert_eq!(hamming_masks(3, 1), vec![0, 1, 2, 4]);
    assert_eq!(hamming_masks(3, 2), vec![0, 1, 2, 4, 3, 5, 6]);
    assert_eq!(hamming_masks(21, 2).len(), 1 + 21 + 210);
}
