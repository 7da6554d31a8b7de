use guixu::analysis::{image_dhash, image_dhash_of_bytes};
use guixu::desktop::{preview_text, MAX_PREVIEW_BYTES};
use guixu::digest::ContentHasher;
use guixu::domain::OperationStatus;
use guixu::undo::{undo_step, UndoAction, UndoEvent, UndoStage, UndoState};
use guixu::duplicate_run::{duplicate_run_step, DuplicateAction, DuplicateEvent, DuplicateRun};
use guixu::duplicates::{DuplicatePhase, DuplicateProgress};
use guixu::execution::{execution_step, ExecutionAction, ExecutionEvent, ExecutionStage, ExecutionState};
use guixu::operations::{rename_fallback, RenameFailure, RenameFallback};
use guixu::similar_content::{text_signatures, text_signatures_of_bytes};

fn png_of(width: u32, height: u32, shade: impl Fn(u32, u32) -> u8) -> Vec<u8> {
    let buffer = image::ImageBuffer::from_fn(width, height, |x, y| image::Luma([shade(x, y)]));
    let mut bytes = Vec::new();
    image::DynamicImage::ImageLuma8(buffer)
        .write_to(&mut std::io::Cursor::new(&mut bytes), image::ImageFormat::Png)
        .expect("encode png");
    bytes
}

#[test]
fn content_hasher_in_pieces_matches_the_whole_hash() {
    let mut hasher = ContentHasher::new();
    hasher.update(b"hello ");
    hasher.update(b"");
    hasher.update(b"world");
    assert_eq!(hasher.finalize(), *blake3::hash(b"hello world").as_bytes());
}

#[test]
fn content_hasher_of_nothing_is_the_empty_hash() {
    let hasher = ContentHasher::new();
    assert_eq!(hasher.finalize(), *blake3::hash(b"").as_bytes());
    assert_ne!(hasher.finalize(), [0_u8; 32]);
}

#[test]
fn dhash_of_png_falling_to_the_right_sets_every_bit() {
    let bytes = png_of(9, 8, |x, _| 200 - 10 * x as u8);
    assert_eq!(image_dhash_of_bytes(&bytes), Some(u64::MAX));
}

#[test]
fn dhash_of_png_rising_to_the_right_sets_no_bit() {
    let bytes = png_of(9, 8, |x, y| 10 * x as u8 + y as u8);
    assert_eq!(image_dhash_of_bytes(&bytes), Some(0));
}

#[test]
fn dhash_of_png_matches_the_dhash_of_its_samples() {
    let shade = |x: u32, y: u32| ((x * 37 + y * 91) % 251) as u8;
    let bytes = png_of(9, 8, shade);
    let mut samples = [0_u8; 72];
    for y in 0..8 {
        for x in 0..9 {
            samples[(y * 9 + x) as usize] = shade(x, y);
        }
    }
    assert_eq!(image_dhash_of_bytes(&bytes), Some(image_dhash(&samples)));
}

#[test]
fn dhash_of_bytes_that_are_no_image_is_none() {
    assert_eq!(image_dhash_of_bytes(b"plain text, not an image"), None);
    assert_eq!(image_dhash_of_bytes(&[]), None);
}

#[test]
fn preview_text_keeps_short_text_whole() {
    assert_eq!(preview_text(b"hello".to_vec()), ("hello".to_owned(), false));
}

#[test]
fn preview_text_replaces_invalid_utf8() {
    assert_eq!(preview_text(vec![0xff, b'a']), ("\u{fffd}a".to_owned(), false));
}

#[test]
fn preview_text_cuts_what_goes_beyond_the_preview() {
    let (text, cut) = preview_text(vec![b'x'; MAX_PREVIEW_BYTES + 1]);
    assert!(cut);
    assert_eq!(text.len(), MAX_PREVIEW_BYTES);
}

#[test]
fn text_signatures_of_bytes_sign_the_decoded_text() {
    let text = "the quick brown fox jumps over the lazy dog again and again";
    assert!(text_signatures(text).is_some());
    assert_eq!(text_signatures_of_bytes(text.as_bytes()), text_signatures(text));
    assert_eq!(text_signatures_of_bytes(b"too short"), None);
}

#[test]
fn rename_falls_back_to_copy_only_where_the_volume_cannot_rename_exclusively() {
    assert_eq!(rename_fallback(RenameFailure::CrossDevice), RenameFallback::CopyInstead);
    assert_eq!(rename_fallback(RenameFailure::Unsupported), RenameFallback::CopyInstead);
    assert_eq!(rename_fallback(RenameFailure::NotPermitted), RenameFallback::CopyInstead);
    assert_eq!(rename_fallback(RenameFailure::AlreadyExists), RenameFallback::RefuseExistingTarget);
    assert_eq!(rename_fallback(RenameFailure::Other), RenameFallback::Fail);
}

fn drive(total: usize, events: &[ExecutionEvent]) -> (ExecutionState, Vec<ExecutionAction>) {
    let mut state = ExecutionState::start(total);
    let mut actions = Vec::new();
    for &event in events {
        let (next, action) = execution_step(state, event);
        state = next;
        actions.push(action);
    }
    (state, actions)
}

#[test]
fn execution_logs_intent_then_runs_and_records_each_item_in_turn() {
    let (state, actions) = drive(
        2,
        &[ExecutionEvent::Start, ExecutionEvent::IntentLogged, ExecutionEvent::ItemPublished, ExecutionEvent::ItemRecorded, ExecutionEvent::ItemPublished, ExecutionEvent::ItemRecorded],
    );
    assert_eq!(
        actions,
        vec![
            ExecutionAction::LogIntent,
            ExecutionAction::RunItem(0),
            ExecutionAction::RecordItem(0),
            ExecutionAction::RunItem(1),
            ExecutionAction::RecordItem(1),
            ExecutionAction::Complete,
        ]
    );
    assert_eq!(state.stage, ExecutionStage::Completed);
    assert_eq!(state.recorded, 2);
}

#[test]
fn execution_failure_before_any_publish_fails_the_operation() {
    let (state, actions) = drive(2, &[ExecutionEvent::Start, ExecutionEvent::IntentLogged, ExecutionEvent::ItemFailed]);
    assert_eq!(actions[2], ExecutionAction::FailItem(0, OperationStatus::Failed));
    assert_eq!(state.stage, ExecutionStage::Stopped);
}

#[test]
fn execution_failure_after_a_publish_needs_recovery() {
    let (_, actions) = drive(3, &[ExecutionEvent::Start, ExecutionEvent::IntentLogged, ExecutionEvent::ItemPublished, ExecutionEvent::ItemRecorded, ExecutionEvent::ItemFailed]);
    assert_eq!(actions[4], ExecutionAction::FailItem(1, OperationStatus::RecoveryNeeded));
}

#[test]
fn execution_refuses_events_out_of_order() {
    let (state, actions) = drive(1, &[ExecutionEvent::ItemPublished, ExecutionEvent::Start, ExecutionEvent::ItemRecorded]);
    assert_eq!(actions[0], ExecutionAction::OutOfOrder);
    assert_eq!(actions[2], ExecutionAction::OutOfOrder);
    assert_eq!(state.stage, ExecutionStage::LoggingIntent);
    assert_eq!(state.recorded, 0);
}

fn answer_all(plan_len: usize, full_len: usize, stop_at: Option<usize>) -> Vec<DuplicateAction> {
    let (mut state, mut action) = DuplicateRun::start(plan_len);
    let mut actions = vec![action];
    let mut asked = 0;
    loop {
        let event = match action {
            DuplicateAction::Ask(_) => {
                asked += 1;
                DuplicateEvent::Answer(stop_at != Some(asked))
            }
            DuplicateAction::Probe(_) => DuplicateEvent::Probed,
            DuplicateAction::PlanFull => DuplicateEvent::Planned(full_len),
            DuplicateAction::Hash(_) => DuplicateEvent::Hashed,
            DuplicateAction::Finish(_) | DuplicateAction::OutOfOrder => break,
        };
        let (next, next_action) = duplicate_run_step(state, event);
        state = next;
        action = next_action;
        actions.push(action);
    }
    actions
}

fn progress(phase: DuplicatePhase, processed_files: usize, total_work: usize) -> DuplicateAction {
    DuplicateAction::Ask(DuplicateProgress { phase, processed_files, total_work })
}

#[test]
fn duplicate_run_asks_before_each_file_sampled_tier_first() {
    let actions = answer_all(2, 1, None);
    assert_eq!(
        actions,
        vec![
            progress(DuplicatePhase::QuickFingerprint, 0, 4),
            DuplicateAction::Probe(0),
            progress(DuplicatePhase::QuickFingerprint, 1, 4),
            DuplicateAction::Probe(1),
            DuplicateAction::PlanFull,
            progress(DuplicatePhase::FullHash, 2, 4),
            DuplicateAction::Hash(0),
            DuplicateAction::Finish(false),
        ]
    );
}

#[test]
fn duplicate_run_stops_at_the_first_refusal() {
    let actions = answer_all(3, 3, Some(2));
    assert_eq!(
        actions,
        vec![
            progress(DuplicatePhase::QuickFingerprint, 0, 6),
            DuplicateAction::Probe(0),
            progress(DuplicatePhase::QuickFingerprint, 1, 6),
            DuplicateAction::Finish(true),
        ]
    );
}

#[test]
fn duplicate_run_without_candidates_asks_nothing() {
    assert_eq!(answer_all(0, 0, None), vec![DuplicateAction::PlanFull, DuplicateAction::Finish(false)]);
}

#[test]
fn duplicate_run_refuses_a_full_tier_larger_than_the_plan() {
    let (state, action) = DuplicateRun::start(0);
    assert_eq!(action, DuplicateAction::PlanFull);
    let (after, refused) = duplicate_run_step(state, DuplicateEvent::Planned(1));
    assert_eq!(refused, DuplicateAction::OutOfOrder);
    assert_eq!(after, state);
}

fn undo_drive(total: usize, events: &[UndoEvent]) -> (UndoState, Vec<UndoAction>) {
    let mut state = UndoState::start(total);
    let mut actions = Vec::new();
    for &event in events {
        let (next, action) = undo_step(state, event);
        state = next;
        actions.push(action);
    }
    (state, actions)
}

#[test]
fn undo_checks_every_item_before_marking_and_moving_back() {
    let (state, actions) = undo_drive(
        2,
        &[
            UndoEvent::Start,
            UndoEvent::ItemChecked,
            UndoEvent::ItemChecked,
            UndoEvent::Marked,
            UndoEvent::ItemRestored,
            UndoEvent::ItemRecorded,
            UndoEvent::ItemRestored,
            UndoEvent::ItemRecorded,
        ],
    );
    assert_eq!(
        actions,
        vec![
            UndoAction::CheckItem(0),
            UndoAction::CheckItem(1),
            UndoAction::MarkRollback,
            UndoAction::RestoreItem(0),
            UndoAction::RecordItem(0),
            UndoAction::RestoreItem(1),
            UndoAction::RecordItem(1),
            UndoAction::Complete,
        ]
    );
    assert_eq!(state.stage, UndoStage::RolledBack);
}

#[test]
fn undo_refused_at_a_check_changes_nothing() {
    let (state, actions) =
        undo_drive(3, &[UndoEvent::Start, UndoEvent::ItemChecked, UndoEvent::CheckFailed, UndoEvent::Marked]);
    assert_eq!(
        actions,
        vec![UndoAction::CheckItem(0), UndoAction::CheckItem(1), UndoAction::Refuse, UndoAction::OutOfOrder]
    );
    assert_eq!(state.stage, UndoStage::Stopped);
}

#[test]
fn undo_failing_to_move_back_needs_recovery() {
    let (_, actions) = undo_drive(
        2,
        &[
            UndoEvent::Start,
            UndoEvent::ItemChecked,
            UndoEvent::ItemChecked,
            UndoEvent::Marked,
            UndoEvent::ItemRestored,
            UndoEvent::ItemRecorded,
            UndoEvent::ItemFailed,
        ],
    );
    assert_eq!(actions.last(), Some(&UndoAction::FailUndo(1)));
}

#[test]
fn undo_refused_before_touching_a_file_abandons() {
    let (_, actions) =
        undo_drive(1, &[UndoEvent::Start, UndoEvent::ItemChecked, UndoEvent::Marked, UndoEvent::ItemRefused]);
    assert_eq!(actions.last(), Some(&UndoAction::Abandon(0)));
}
