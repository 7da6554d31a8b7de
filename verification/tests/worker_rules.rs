use guixu::desktop::{cut_preview, name_or, page_request, smart_folder_fields, take_chars, trim_text};
use guixu::domain::JobStatus;
use guixu::indexer::{is_inside_quarantine, reconcile_targets, ReconcileRequest};
use guixu::jobs::{
    control_step, finish_step, job_ending, job_route, job_status_debug_name, scan_progress_due,
    similarity_progress_due, unknown_job_detail, ControlStep, FinishStep, JobEnding, JobRoute,
    JobWork,
};
use guixu::requests::{
    batch_size_check, missing_file_detail, plan_expiry, repeated_file_detail, repeats_earlier_at,
    BatchAction,
};
use guixu::similar_content::{
    has_text_signal, image_pair_distance, minhash_agreement, similar_content_kind,
    similarity_job_kind, similarity_work_kind, takes_part_in, text_pair_confirmed, text_signatures,
    SimilarContentKind,
};
use guixu::similarity::{text_minhash, text_simhash};
use guixu::storage::JobTransferResult;

#[test]
fn claimed_jobs_are_routed_by_kind() {
    assert_eq!(job_route("exact_duplicate_analysis"), JobRoute::ExactDuplicates);
    assert_eq!(job_route("similar_text_analysis"), JobRoute::Similarity);
    assert_eq!(job_route("similar_image_analysis"), JobRoute::Similarity);
    assert_eq!(job_route("library_scan"), JobRoute::Scan);
    assert_eq!(job_route("snapshot_reconcile"), JobRoute::Scan);
    assert_eq!(job_route("thumbnail"), JobRoute::Unknown);
    assert_eq!(unknown_job_detail("thumbnail"), "未知任务类型：thumbnail");
}

#[test]
fn only_running_lets_a_job_continue() {
    assert_eq!(control_step(JobWork::Scan, Ok(Some(JobStatus::Running))), ControlStep::Continue);
    assert_eq!(
        control_step(JobWork::Similarity, Ok(Some(JobStatus::PauseRequested))),
        ControlStep::Yield(JobStatus::PauseRequested)
    );
    assert_eq!(
        control_step(JobWork::ExactDuplicates, Ok(Some(JobStatus::CancelRequested))),
        ControlStep::Yield(JobStatus::CancelRequested)
    );
    assert_eq!(
        control_step(JobWork::Scan, Ok(Some(JobStatus::Completed))),
        ControlStep::Fail("任务扫描时进入了意外状态：Completed".to_owned())
    );
    assert_eq!(
        control_step(JobWork::ExactDuplicates, Ok(Some(JobStatus::Queued))),
        ControlStep::Fail("重复分析进入了意外状态：Queued".to_owned())
    );
    assert_eq!(
        control_step(JobWork::Similarity, Ok(None)),
        ControlStep::Fail("相似内容分析任务记录消失".to_owned())
    );
    assert_eq!(
        control_step(JobWork::Scan, Ok(None)),
        ControlStep::Fail("任务记录在扫描过程中消失".to_owned())
    );
    assert_eq!(
        control_step(JobWork::Scan, Err("disk I/O error".to_owned())),
        ControlStep::Fail("disk I/O error".to_owned())
    );
    assert_eq!(job_status_debug_name(JobStatus::CancelRequested), "CancelRequested");
    assert_eq!(job_status_debug_name(JobStatus::Cancelled), format!("{:?}", JobStatus::Cancelled));
}

#[test]
fn progress_reports_follow_their_cadence() {
    assert!(!scan_progress_due(127, 0, 499));
    assert!(scan_progress_due(128, 0, 0));
    assert!(scan_progress_due(10, 0, 500));
    assert!(!scan_progress_due(5, 200, 10));
    assert!(similarity_progress_due(7, 7, 6, 0));
    assert!(!similarity_progress_due(15, 100, 0, 249));
    assert!(similarity_progress_due(16, 100, 0, 0));
    assert!(similarity_progress_due(1, 100, 0, 250));
}

#[test]
fn runs_end_by_what_stopped_them() {
    assert_eq!(
        job_ending(JobWork::Scan, Some("lease lost".to_owned()), true, Some(JobStatus::PauseRequested), None),
        JobEnding::Fail("lease lost".to_owned())
    );
    assert_eq!(
        job_ending(JobWork::Similarity, None, true, Some(JobStatus::CancelRequested), Some(JobStatus::Running)),
        JobEnding::Acknowledge(JobStatus::CancelRequested)
    );
    assert_eq!(
        job_ending(JobWork::ExactDuplicates, None, true, None, Some(JobStatus::PauseRequested)),
        JobEnding::Acknowledge(JobStatus::PauseRequested)
    );
    assert_eq!(job_ending(JobWork::ExactDuplicates, None, true, None, Some(JobStatus::Running)), JobEnding::Leave);
    assert_eq!(
        job_ending(JobWork::Scan, None, false, None, Some(JobStatus::CancelRequested)),
        JobEnding::Acknowledge(JobStatus::CancelRequested)
    );
    assert_eq!(
        job_ending(JobWork::Similarity, None, false, None, Some(JobStatus::CancelRequested)),
        JobEnding::Complete
    );
    assert_eq!(job_ending(JobWork::Scan, None, false, None, Some(JobStatus::Running)), JobEnding::Complete);
}

#[test]
fn refused_final_transfers_acknowledge_requests() {
    let applied = JobTransferResult { applied: true, current_status: Some("cancel_requested".to_owned()) };
    assert_eq!(finish_step(Ok(applied)), FinishStep::Done);
    let raced = JobTransferResult { applied: false, current_status: Some("cancel_requested".to_owned()) };
    assert_eq!(finish_step(Ok(raced)), FinishStep::Acknowledge(JobStatus::CancelRequested));
    let paused = JobTransferResult { applied: false, current_status: Some("pause_requested".to_owned()) };
    assert_eq!(finish_step(Ok(paused)), FinishStep::Acknowledge(JobStatus::PauseRequested));
    let other = JobTransferResult { applied: false, current_status: Some("failed".to_owned()) };
    assert_eq!(finish_step(Ok(other)), FinishStep::Done);
    assert_eq!(finish_step(Err("locked".to_owned())), FinishStep::Fail("locked".to_owned()));
}

#[test]
fn similarity_requests_name_text_or_image() {
    assert_eq!(similar_content_kind("text"), Some(SimilarContentKind::Text));
    assert_eq!(similar_content_kind("image"), Some(SimilarContentKind::Image));
    assert_eq!(similar_content_kind("audio"), None);
    assert_eq!(similarity_job_kind("text"), Ok("similar_text_analysis"));
    assert_eq!(similarity_job_kind("image"), Ok("similar_image_analysis"));
    assert_eq!(similarity_job_kind("video"), Err("不支持的相似内容类型".to_owned()));
    assert_eq!(similarity_work_kind("image"), Ok(SimilarContentKind::Image));
    assert_eq!(similarity_work_kind("TEXT"), Err("不支持的相似内容任务类型".to_owned()));
}

#[test]
fn analyses_pick_files_by_extension() {
    assert!(takes_part_in(SimilarContentKind::Text, "/lib/notes/README.MD"));
    assert!(takes_part_in(SimilarContentKind::Text, "/lib/a.toml"));
    assert!(!takes_part_in(SimilarContentKind::Text, "/lib/photo.jpg"));
    assert!(!takes_part_in(SimilarContentKind::Text, "/lib/.txt"));
    assert!(!takes_part_in(SimilarContentKind::Text, "/lib/Makefile"));
    assert!(takes_part_in(SimilarContentKind::Image, "/lib/photo.JPEG"));
    assert!(takes_part_in(SimilarContentKind::Image, "/lib/a.b.webp"));
    assert!(!takes_part_in(SimilarContentKind::Image, "/lib/scan.gif"));
}

#[test]
fn short_texts_have_no_signatures() {
    assert!(!has_text_signal("only twenty three chars!"));
    assert!(!has_text_signal("abcdefghij klmnopqrstu vw"));
    assert!(has_text_signal("abcdefghij klmnopqrstu vwx"));
    assert!(has_text_signal("二十四个汉字在这里足够长了吗我们来数一数一共有多少个字"));
    assert_eq!(text_signatures("tiny"), None);
    let text = "The quick brown fox jumps over the lazy dog again and again";
    let (hash, signature) = text_signatures(text).unwrap();
    assert_eq!(Some(hash), text_simhash(text));
    assert_eq!(Some(signature), text_minhash(text));
}

#[test]
fn candidate_pairs_are_confirmed_by_second_signature() {
    let left = [7_u64; 32];
    let mut right = [9_u64; 32];
    assert_eq!(minhash_agreement(&left, &right), 0);
    assert!(!text_pair_confirmed(&left, &right));
    for slot in right.iter_mut().take(7) {
        *slot = 7;
    }
    assert_eq!(minhash_agreement(&left, &right), 7);
    assert!(!text_pair_confirmed(&left, &right));
    right[7] = 7;
    assert!(text_pair_confirmed(&left, &right));
    assert_eq!(minhash_agreement(&left, &left), 32);
    assert_eq!(image_pair_distance(0, 0b1111_1111_1111), Some(12));
    assert_eq!(image_pair_distance(0, 0b1_1111_1111_1111), None);
    assert_eq!(image_pair_distance(u64::MAX, u64::MAX - 1), Some(1));
}

#[test]
fn batch_requests_are_bounded() {
    assert_eq!(batch_size_check(BatchAction::Rename, 0), Err("请先选择至少一个文件".to_owned()));
    assert_eq!(batch_size_check(BatchAction::Copy, 501), Err("单次最多复制 500 个文件".to_owned()));
    assert_eq!(batch_size_check(BatchAction::Move, 501), Err("单次最多移动 500 个文件".to_owned()));
    assert_eq!(batch_size_check(BatchAction::Trash, 600), Err("单次最多移入废纸篓 500 个文件".to_owned()));
    assert_eq!(batch_size_check(BatchAction::Rename, 501), Err("单次最多重命名 500 个文件".to_owned()));
    assert_eq!(batch_size_check(BatchAction::Trash, 500), Ok(()));
    assert_eq!(repeated_file_detail(BatchAction::Trash, "f1"), "废纸篓请求包含重复文件：f1");
    assert_eq!(repeated_file_detail(BatchAction::Move, "f2"), "移动请求包含重复文件：f2");
    assert_eq!(missing_file_detail("f3"), "文件已不在当前索引中：f3");
    let ids = vec!["a".to_owned(), "b".to_owned(), "a".to_owned()];
    assert!(!repeats_earlier_at(&ids, 0));
    assert!(!repeats_earlier_at(&ids, 1));
    assert!(repeats_earlier_at(&ids, 2));
    assert_eq!(plan_expiry(1_000), 901_000);
    assert_eq!(plan_expiry(i64::MAX - 5), i64::MAX);
}

#[test]
fn smart_folder_fields_are_trimmed_and_bounded() {
    assert_eq!(trim_text("\u{3000} a b \n"), "a b");
    assert_eq!(take_chars("abcdef", 3), "abc");
    assert_eq!(take_chars("ab", 3), "ab");
    assert_eq!(smart_folder_fields("  ", "ext:pdf"), Err("名称和搜索条件不能为空".to_owned()));
    assert_eq!(smart_folder_fields("报告", " \t"), Err("名称和搜索条件不能为空".to_owned()));
    assert_eq!(
        smart_folder_fields("  报告 ", " ext:pdf "),
        Ok(("报告".to_owned(), "ext:pdf".to_owned()))
    );
    let long_name = "名".repeat(90);
    let (name, _) = smart_folder_fields(&long_name, "q").unwrap();
    assert_eq!(name.chars().count(), 80);
}

#[test]
fn names_and_previews() {
    assert_eq!(name_or("/lib/docs/a.txt", "未命名文件"), "a.txt");
    assert_eq!(name_or("/", "文件资料库"), "文件资料库");
    assert_eq!(name_or("/lib/..", "x"), "x");
    let mut short = vec![1_u8; 10];
    assert!(!cut_preview(&mut short));
    assert_eq!(short.len(), 10);
    let mut long = vec![1_u8; 256 * 1024 + 1];
    assert!(cut_preview(&mut long));
    assert_eq!(long.len(), 256 * 1024);
}

#[test]
fn watch_requests_skip_the_quarantine() {
    assert!(is_inside_quarantine("/lib/.guixu-trash/plan-1"));
    assert!(!is_inside_quarantine("/lib/guixu-trash"));
    assert_eq!(
        reconcile_targets("/lib", ReconcileRequest::FullSnapshot),
        vec!["/lib".to_owned()]
    );
    let request = ReconcileRequest::Directories(vec![
        "/lib/a".to_owned(),
        "/lib/.guixu-trash/p".to_owned(),
        "/lib/b/c".to_owned(),
    ]);
    assert_eq!(reconcile_targets("/lib", request), vec!["/lib/a".to_owned(), "/lib/b/c".to_owned()]);
}

#[test]
fn file_list_requests_name_a_bounded_page() {
    let (cursor, limit) = page_request(Some("/a".to_owned()), Some("1".to_owned()), None);
    let cursor = cursor.unwrap();
    assert_eq!((cursor.path.as_str(), cursor.id.as_str(), limit), ("/a", "1", 100));
    let (cursor, limit) = page_request(Some("/a".to_owned()), None, Some(0));
    assert!(cursor.is_none());
    assert_eq!(limit, 1);
    assert_eq!(page_request(None, None, Some(900)).1, 500);
}
