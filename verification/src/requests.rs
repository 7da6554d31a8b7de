//! Checks on a batch request from the interface before any file is looked up: its
//! size, repeated files, and the life of the plan it becomes.
use vstd::prelude::*;
use crate::text::{seq_chars_eq, chars_of, string_from_str};

verus! {

/// The kind of change a batch request asks for.
#[derive(Debug, Clone, Copy, PartialEq, Eq, Structural)]
pub enum BatchAction {
    Rename,
    Copy,
    Move,
    Trash,
}

/// Most files one request may name.
pub const MAX_BATCH_FILES: usize = 500;

/// How long a plan stays executable after it is made: 15 minutes.
pub const PLAN_LIFETIME_MS: i64 = 900000;

/// The verb of an action in the size limit's message.
pub open spec fn limit_verb(action: BatchAction) -> Seq<char> {
    match action {
        BatchAction::Rename => "重命名"@,
        BatchAction::Copy => "复制"@,
        BatchAction::Move => "移动"@,
        BatchAction::Trash => "移入废纸篓"@,
    }
}

/// The name of a request in the message on a repeated file.
pub open spec fn request_noun(action: BatchAction) -> Seq<char> {
    match action {
        BatchAction::Rename => "重命名"@,
        BatchAction::Copy => "复制"@,
        BatchAction::Move => "移动"@,
        BatchAction::Trash => "废纸篓"@,
    }
}

pub open spec fn empty_request_message() -> Seq<char> {
    "请先选择至少一个文件"@
}

pub open spec fn too_many_message(action: BatchAction) -> Seq<char> {
    "单次最多"@ + limit_verb(action) + " 500 个文件"@
}

/// Refuses a request that names no file or more than 500.
pub fn batch_size_check(action: BatchAction, count: usize) -> (r: Result<(), String>)
    ensures
        count == 0 ==> (r matches Err(m) && m@ == empty_request_message()),
        count > MAX_BATCH_FILES ==> (r matches Err(m) && m@ == too_many_message(action)),
        0 < count <= MAX_BATCH_FILES ==> r is Ok,
{
    if count == 0 {
        return Err(string_from_str("请先选择至少一个文件"));
    }
    if count > MAX_BATCH_FILES {
        let verb = match action {
            BatchAction::Rename => "重命名",
            BatchAction::Copy => "复制",
            BatchAction::Move => "移动",
            BatchAction::Trash => "移入废纸篓",
        };
        let mut m = string_from_str("单次最多");
        m.append(verb);
        m.append(" 500 个文件");
        return Err(m);
    }
    Ok(())
}

/// Whether the file id at position `i` already came earlier in the request.
pub open spec fn repeats_earlier(ids: Seq<String>, i: int) -> bool {
    exists|j: int| 0 <= j < i && #[trigger] ids[j]@ == ids[i]@
}

/// Whether `ids[i]` repeats an id before it: the first such position is where a
/// request is refused, before the file there is looked up.
pub fn repeats_earlier_at(ids: &Vec<String>, i: usize) -> (r: bool)
    requires
        i < ids.len(),
    ensures
        r == repeats_earlier(ids@, i as int),
{
    let target = chars_of(ids[i].as_str());
    let mut j: usize = 0;
    while j < i
        invariant
            j <= i < ids.len(),
            target@ == ids@[i as int]@,
            forall|k: int| 0 <= k < j ==> ids@[k]@ != ids@[i as int]@,
        decreases i - j,
    {
        let other = chars_of(ids[j].as_str());
        if seq_chars_eq(&other, &target) {
            return true;
        }
        j += 1;
    }
    false
}

pub open spec fn repeated_file_message(action: BatchAction, file_id: Seq<char>) -> Seq<char> {
    request_noun(action) + "请求包含重复文件："@ + file_id
}

/// The refusal of a request that names a file twice.
pub fn repeated_file_detail(action: BatchAction, file_id: &str) -> (r: String)
    ensures
        r@ == repeated_file_message(action, file_id@),
{
    let noun = match action {
        BatchAction::Rename => "重命名",
        BatchAction::Copy => "复制",
        BatchAction::Move => "移动",
        BatchAction::Trash => "废纸篓",
    };
    let mut m = string_from_str(noun);
    m.append("请求包含重复文件：");
    m.append(file_id);
    m
}

pub open spec fn missing_file_message(file_id: Seq<char>) -> Seq<char> {
    "文件已不在当前索引中："@ + file_id
}

/// The refusal of a request that names a file no longer indexed.
pub fn missing_file_detail(file_id: &str) -> (r: String)
    ensures
        r@ == missing_file_message(file_id@),
{
    let mut m = string_from_str("文件已不在当前索引中：");
    m.append(file_id);
    m
}

/// When a plan made at `created_at_ms` stops being executable (saturating).
pub fn plan_expiry(created_at_ms: i64) -> (r: i64)
    ensures
        r == if created_at_ms + PLAN_LIFETIME_MS > i64::MAX {
            i64::MAX as int
        } else {
            created_at_ms + PLAN_LIFETIME_MS
        },
{
    if created_at_ms > i64::MAX - PLAN_LIFETIME_MS {
        i64::MAX
    } else {
        created_at_ms + PLAN_LIFETIME_MS
    }
}

} // verus!
