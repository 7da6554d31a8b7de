use guixu::analysis::{FileCategory, TEXT_MINHASH_COMPONENTS};
use guixu::desktop::{
    category_label, duplicate_group_view, epoch_millis, hash_hex, minhash_blob, minhash_feature,
    operation_view, parse_hash_hex, u64_feature, IndexedPath,
};
use guixu::domain::{FileIdentity, FileOperationKind, Platform};
use guixu::duplicates::DuplicateGroup;
use guixu::storage::{FileFeature, IndexedFile, StoredOperation, StoredOperationItem};

fn feature(blob: Vec<u8>) -> FileFeature {
    FileFeature {
        file_id: "f".to_owned(),
        feature_kind: "text-simhash".to_owned(),
        model_version: "v1".to_owned(),
        size: 1,
        modified_at_ns: 2,
        changed_at_ns: 3,
        dimensions: 64,
        quantization: "bits".to_owned(),
        feature_blob: blob,
        created_at_ms: 4,
    }
}

#[test]
fn categories_have_chinese_labels() {
    assert_eq!(category_label(FileCategory::Document), "文档");
    assert_eq!(category_label(FileCategory::Archive), "压缩包");
    assert_eq!(category_label(FileCategory::Other), "其他");
}

#[test]
fn clock_readings_saturate_and_default_to_zero() {
    assert_eq!(epoch_millis(Some(1_700_000_000_000)), 1_700_000_000_000);
    assert_eq!(epoch_millis(Some(u128::MAX)), i64::MAX);
    assert_eq!(epoch_millis(Some(i64::MAX as u128)), i64::MAX);
    assert_eq!(epoch_millis(None), 0);
}

#[test]
fn hash_text_round_trips() {
    let mut hash = [0_u8; 32];
    for (index, byte) in hash.iter_mut().enumerate() {
        *byte = (index * 37 + 5) as u8;
    }
    let text = hash_hex(hash);
    assert_eq!(text.len(), 64);
    assert_eq!(&text[..4], "052a");
    assert_eq!(parse_hash_hex(&text), Some(hash));
    assert_eq!(parse_hash_hex(&text.to_uppercase()), Some(hash));
}

#[test]
fn hash_text_of_the_wrong_shape_is_refused() {
    assert_eq!(parse_hash_hex(""), None);
    assert_eq!(parse_hash_hex(&"0".repeat(63)), None);
    assert_eq!(parse_hash_hex(&"0".repeat(65)), None);
    assert_eq!(parse_hash_hex(&"zz".repeat(32)), None);
    assert_eq!(parse_hash_hex(&"-1".repeat(32)), None);
    // a sign before one digit is a number, as `u8::from_str_radix` reads it
    assert_eq!(parse_hash_hex(&"+a".repeat(32)), Some([10_u8; 32]));
    // two-byte characters make whole slices that are not numbers
    assert_eq!(parse_hash_hex(&"é".repeat(32)), None);
}

#[test]
fn single_word_features_read_eight_little_endian_bytes() {
    assert_eq!(u64_feature(Some(feature(vec![1, 0, 0, 0, 0, 0, 0, 0]))), Some(1));
    assert_eq!(
        u64_feature(Some(feature(0x0102_0304_0506_0708_u64.to_le_bytes().to_vec()))),
        Some(0x0102_0304_0506_0708)
    );
    assert_eq!(u64_feature(Some(feature(vec![1, 2, 3]))), None);
    assert_eq!(u64_feature(None), None);
}

#[test]
fn minhash_blobs_round_trip() {
    let mut signature = [0_u64; TEXT_MINHASH_COMPONENTS];
    for (index, component) in signature.iter_mut().enumerate() {
        *component = (index as u64) * 0x0101_0101_0101_0101 + 7;
    }
    let blob = minhash_blob(&signature);
    assert_eq!(blob.len(), 256);
    assert_eq!(&blob[8..16], &signature[1].to_le_bytes());
    assert_eq!(minhash_feature(Some(feature(blob))), Some(signature));
    assert_eq!(minhash_feature(Some(feature(vec![0; 255]))), None);
    assert_eq!(minhash_feature(None), None);
}

#[test]
fn operation_history_keeps_every_item() {
    let item = StoredOperationItem {
        ordinal: 0,
        status: "completed".to_owned(),
        source_path: "/lib/a.txt".to_owned(),
        target_path: "/lib/b.txt".to_owned(),
        source_identity: FileIdentity {
            platform: Platform::Linux,
            volume_id: "1".to_owned(),
            native_file_id: "2".to_owned(),
            generation: None,
        },
        target_identity: None,
        target_snapshot: None,
        content_hash: None,
        error_code: None,
        error_message: Some("note".to_owned()),
    };
    let view = operation_view(StoredOperation {
        id: "op-1".to_owned(),
        plan_id: "plan-1".to_owned(),
        library_id: "lib".to_owned(),
        operation_kind: FileOperationKind::Rename,
        status: "completed".to_owned(),
        created_at_ms: 10,
        completed_at_ms: Some(20),
        error_code: None,
        error_message: None,
        items: vec![item],
    });
    assert_eq!(view.id, "op-1");
    assert_eq!(view.operation_kind, "rename");
    assert_eq!(view.completed_at_ms, Some(20));
    assert_eq!(view.items.len(), 1);
    assert_eq!(view.items[0].target_path, "/lib/b.txt");
    assert_eq!(view.items[0].error_message.as_deref(), Some("note"));
}

fn indexed(path: &str, id: &str, modified_at_ns: i64) -> IndexedPath {
    IndexedPath {
        path: path.to_owned(),
        file: IndexedFile {
            id: id.to_owned(),
            current_path: path.to_owned(),
            size: 100,
            modified_at_ns,
            changed_at_ns: 0,
        },
    }
}

#[test]
fn duplicate_groups_suggest_the_best_ranked_copy() {
    let group = DuplicateGroup {
        content_hash: [0x11; 32],
        size: 100,
        paths: vec!["/lib/report copy.pdf".to_owned(), "/lib/report.pdf".to_owned()],
    };
    let files = vec![
        indexed("/lib/report.pdf", "stale", 1),
        indexed("/lib/report copy.pdf", "copy", 5),
        indexed("/lib/report.pdf", "original", 2),
    ];
    let view = duplicate_group_view(group, &files);
    assert_eq!(view.id, "11".repeat(32));
    assert_eq!(view.potential_savings, 100);
    assert_eq!(view.suggested_keep, "/lib/report.pdf");
    assert_eq!(view.files.len(), 2);
    assert_eq!(view.files[0].file_id, "original");
    assert!(view.files[0].suggested_keep);
    assert_eq!(view.files[1].file_id, "copy");
    assert!(!view.files[1].suggested_keep);
    assert_eq!(view.paths.len(), 2);
}

#[test]
fn duplicate_groups_without_indexed_files_keep_the_first_path() {
    let group = DuplicateGroup {
        content_hash: [0; 32],
        size: u64::MAX,
        paths: vec!["/a".to_owned(), "/b".to_owned(), "/c".to_owned()],
    };
    let view = duplicate_group_view(group, &vec![]);
    assert_eq!(view.suggested_keep, "/a");
    assert!(view.files.is_empty());
    assert_eq!(view.potential_savings, u64::MAX);
}

use guixu::desktop::{organize_request_ids, OrganizePlanner};

#[test]
fn organize_requests_are_bounded_deduplicated_and_sorted() {
    assert_eq!(organize_request_ids(&vec![]), Err("请先选择至少一个文件".to_owned()));
    let too_many = (0..501).map(|index| format!("f{index}")).collect::<Vec<_>>();
    assert_eq!(organize_request_ids(&too_many), Err("单次最多整理 500 个文件".to_owned()));
    let ids = vec!["b".to_owned(), "a".to_owned(), "b".to_owned(), "ab".to_owned(), "文".to_owned()];
    assert_eq!(
        organize_request_ids(&ids),
        Ok(vec!["a".to_owned(), "ab".to_owned(), "b".to_owned(), "文".to_owned()])
    );
}

#[test]
fn organize_planner_reserves_unique_names_per_category() {
    let mut planner = OrganizePlanner::new();
    assert!(!planner.has_inventory(FileCategory::Document));
    planner.add_inventory(FileCategory::Document, vec!["报告.pdf".to_owned()]);
    assert!(planner.has_inventory(FileCategory::Document));
    assert!(!planner.has_inventory(FileCategory::Image));
    assert_eq!(planner.reserve(FileCategory::Document, "报告.pdf"), "报告 (2).pdf");
    assert_eq!(planner.reserve(FileCategory::Document, "报告.PDF"), "报告 (3).PDF");
    assert_eq!(planner.reserve(FileCategory::Document, "其他.txt"), "其他.txt");
    planner.add_inventory(FileCategory::Image, vec![]);
    assert_eq!(planner.reserve(FileCategory::Image, "报告.pdf"), "报告.pdf");
}

use guixu::desktop::{authorize_path, AuthorizationError, PathKind};

fn regular() -> std::io::Result<PathKind> {
    Ok(PathKind { is_file: true, is_symlink: false })
}

#[test]
fn authorized_path_accepts_regular_files_only_inside_the_library() {
    let inside = authorize_path(
        Ok("/lib".to_owned()),
        regular(),
        Ok("/lib/inside.txt".to_owned()),
    );
    assert_eq!(inside.ok(), Some("/lib/inside.txt".to_owned()));
    let outside = authorize_path(Ok("/lib".to_owned()), regular(), Ok("/outside/outside.txt".to_owned()));
    assert!(matches!(outside, Err(AuthorizationError::OutsideRoot)));
    let directory = authorize_path(
        Ok("/lib".to_owned()),
        Ok(PathKind { is_file: false, is_symlink: false }),
        Ok("/lib/inside".to_owned()),
    );
    assert!(matches!(directory, Err(AuthorizationError::NotARegularFile)));
}

#[test]
fn authorized_path_rejects_symbolic_links_even_when_the_target_is_inside() {
    let link = authorize_path(
        Ok("/lib".to_owned()),
        Ok(PathKind { is_file: false, is_symlink: true }),
        Ok("/lib/inside.txt".to_owned()),
    );
    assert!(matches!(link, Err(AuthorizationError::NotARegularFile)));
    assert_eq!(
        AuthorizationError::NotARegularFile.message(),
        Some("文件已经离开授权根目录或类型发生变化")
    );
    assert_eq!(AuthorizationError::OutsideRoot.message(), Some("文件已经离开授权根目录"));
}
