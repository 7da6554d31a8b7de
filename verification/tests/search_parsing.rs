use guixu::storage::{
    fts_query, parse_search_query, plan_search, search_size_value, size_bounds,
    size_unit_exponent, split_size_amount, split_size_comparison, SearchSpec, SearchStrategy,
    SizeComparison, StorageError,
};

/// The size range of a `size:` value with a whole-number amount, read with the
/// library's own steps.
fn whole_size_filter(value: &str) -> Result<(Option<u64>, Option<u64>), StorageError> {
    let (comparison, amount) = split_size_comparison(value);
    let (number, unit) = split_size_amount(&amount);
    let number: u64 = number
        .parse()
        .map_err(|_| StorageError::InvalidSearch("size: 需要有效数字，例如 size:>10MB".to_owned()))?;
    let exponent = size_unit_exponent(&unit)
        .ok_or_else(|| StorageError::InvalidSearch("size: 仅支持 B、KB、MB、GB、TB".to_owned()))?;
    let bytes = number
        .checked_mul(1024_u64.pow(exponent))
        .ok_or(StorageError::FileTooLarge)?;
    size_bounds(comparison, bytes)
}

fn parse(query: &str) -> Result<SearchSpec, StorageError> {
    let filter = search_size_value(query).map(|value| whole_size_filter(&value));
    parse_search_query(query, filter)
}

#[test]
fn structured_search_parser_validates_extensions_and_binary_sizes() {
    assert_eq!(
        parse("合同 ext:PDF size:>10MB").expect("structured query"),
        SearchSpec {
            text: "合同".to_owned(),
            extension: Some("pdf".to_owned()),
            minimum_size: Some(10 * 1024 * 1024 + 1),
            maximum_size: None,
            has_truncated_text: false,
        }
    );
    assert!(matches!(parse("ext:pdf ext:txt"), Err(StorageError::InvalidSearch(_))));
    assert!(matches!(parse("size:huge"), Err(StorageError::InvalidSearch(_))));
    assert!(matches!(parse("size:<0B"), Err(StorageError::InvalidSearch(_))));
}

#[test]
fn size_values_split_into_comparison_amount_and_unit() {
    assert_eq!(split_size_comparison(">=2kb"), (SizeComparison::AtLeast, "2kb".to_owned()));
    assert_eq!(split_size_comparison("<=2"), (SizeComparison::AtMost, "2".to_owned()));
    assert_eq!(split_size_comparison("5"), (SizeComparison::Equal, "5".to_owned()));
    assert_eq!(split_size_amount("1.5MB"), ("1.5".to_owned(), "MB".to_owned()));
    assert_eq!(size_unit_exponent("TB"), Some(4));
    assert_eq!(size_unit_exponent(""), Some(0));
    assert_eq!(size_unit_exponent("PB"), None);
    assert_eq!(size_bounds(SizeComparison::Less, 10).ok(), Some((None, Some(9))));
    assert_eq!(size_bounds(SizeComparison::Equal, 7).ok(), Some((Some(7), Some(7))));
    assert_eq!(size_bounds(SizeComparison::Greater, u64::MAX).ok(), Some((Some(u64::MAX), None)));
    assert!(size_bounds(SizeComparison::Less, 0).is_err());
}

#[test]
fn search_queries_are_quoted_prefix_terms() {
    assert_eq!(fts_query("合同 2024"), "\"合同\"* AND \"2024\"*");
    assert_eq!(fts_query("a\"b"), "\"a\"\"b\"*");
    assert_eq!(fts_query("   "), "");
    let many = (0..20).map(|index| format!("w{index}")).collect::<Vec<_>>().join(" ");
    assert_eq!(fts_query(&many).matches(" AND ").count(), 11);
}

#[test]
fn search_plans_pick_the_index_by_word_length() {
    let short = parse("合同").expect("query");
    let plan = plan_search(&short, 500).expect("plan").expect("something to find");
    assert_eq!(plan.strategy, SearchStrategy::ShortTerms);
    assert_eq!(plan.like_patterns, vec!["%合同%".to_owned()]);
    assert_eq!(plan.limit, 200);

    let long = parse("contract ext:pdf").expect("query");
    let plan = plan_search(&long, 0).expect("plan").expect("something to find");
    assert_eq!(plan.strategy, SearchStrategy::Trigram);
    assert_eq!(plan.match_query, "\"contract\"");
    assert_eq!(plan.extension_pattern.as_deref(), Some("%.pdf"));
    assert_eq!(plan.limit, 1);

    let filters = parse("size:>=1KB").expect("query");
    let plan = plan_search(&filters, 20).expect("plan").expect("something to find");
    assert_eq!(plan.strategy, SearchStrategy::FiltersOnly);
    assert_eq!(plan.minimum_size, Some(1024));

    let nothing = parse("   ").expect("query");
    assert!(plan_search(&nothing, 20).expect("plan").is_none());
}

use guixu::domain::{FileIdentity, FileSnapshot, Platform};
use guixu::storage::{
    ensure_identity_free, identity_differs, reconcile_action, KnownFile, ReconcileAction,
    ReconcileKind, StoredIdentity,
};

fn snapshot(size: u64, modified_at_ns: i64) -> FileSnapshot {
    FileSnapshot { size, modified_at_ns, changed_at_ns: 5, created_at_ns: None }
}

fn known(path: &str) -> KnownFile {
    KnownFile {
        file_id: "file-1".to_owned(),
        current_path: path.to_owned(),
        size: 10,
        modified_at_ns: 1,
        changed_at_ns: 5,
    }
}

#[test]
fn reconciliation_classifies_moves_and_metadata_changes() {
    assert_eq!(
        reconcile_action(Some(known("/lib/a.txt")), "/lib/a.txt", &snapshot(10, 1)).ok(),
        Some(ReconcileAction::UpdateKnown {
            file_id: "file-1".to_owned(),
            moved: false,
            drop_hash_cache: false,
            kind: ReconcileKind::Unchanged,
        })
    );
    assert_eq!(
        reconcile_action(Some(known("/lib/a.txt")), "/lib/b.txt", &snapshot(11, 1)).ok(),
        Some(ReconcileAction::UpdateKnown {
            file_id: "file-1".to_owned(),
            moved: true,
            drop_hash_cache: true,
            kind: ReconcileKind::Moved,
        })
    );
    assert_eq!(
        reconcile_action(Some(known("/lib/a.txt")), "/lib/a.txt", &snapshot(10, 2)).ok(),
        Some(ReconcileAction::UpdateKnown {
            file_id: "file-1".to_owned(),
            moved: false,
            drop_hash_cache: true,
            kind: ReconcileKind::MetadataUpdated,
        })
    );
    assert_eq!(
        reconcile_action(None, "/lib/a.txt", &snapshot(10, 2)).ok(),
        Some(ReconcileAction::LookUpById)
    );
    assert!(matches!(
        reconcile_action(None, "/lib/a.txt", &snapshot(u64::MAX, 2)),
        Err(StorageError::FileTooLarge)
    ));
}

#[test]
fn identity_shifts_are_detected_and_guarded() {
    let identity = FileIdentity {
        platform: Platform::Linux,
        volume_id: "2049".to_owned(),
        native_file_id: "7".to_owned(),
        generation: None,
    };
    let stored = StoredIdentity {
        platform: "linux".to_owned(),
        volume_id: "2049".to_owned(),
        native_file_id: "7".to_owned(),
        generation: Some(String::new()),
    };
    assert!(!identity_differs(&stored, &identity));
    let moved = StoredIdentity { volume_id: "2050".to_owned(), ..stored.clone() };
    assert!(identity_differs(&moved, &identity));
    assert!(ensure_identity_free(None).is_ok());
    assert!(matches!(
        ensure_identity_free(Some("file-9".to_owned())),
        Err(StorageError::ConstraintViolation(message)) if message == "目标身份已被文件 file-9 占用，跨卷收敛中止"
    ));
}

#[test]
fn truncation_is_reported_for_words_and_full_text_terms() {
    let thirteen = parse("a b c d e f g h i j k l m").expect("plain words");
    assert_eq!(thirteen.text, "a b c d e f g h i j k l m");
    assert_eq!(thirteen.extension, None);
    assert!(thirteen.has_truncated_text);
    assert!(!parse("a b c d e f g h i j k l").expect("twelve words").has_truncated_text);
    assert!(!parse("ext:pdf a b c d e f g h i j k l").expect("twelve terms").has_truncated_text);
    let many = (0..30).map(|n| format!("w{n}")).collect::<Vec<_>>().join(" ");
    assert!(parse(&many).expect("many words").has_truncated_text);
}
