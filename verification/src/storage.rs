//! Records kept by the library index, its error vocabulary, and the pure parts of
//! its queries: search text parsing, full-text query building and status names.
use vstd::prelude::*;
use crate::domain::{opt_view, platform_name};
use crate::domain::{
    ConflictPolicy, FileIdentity, FileOperationKind, FileSnapshot, JobStatus, OperationStatus,
};
use crate::text::{
    append_chars, ascii_lowercase, chars_eq_str, chars_of, chars_views, is_ascii_alphanumeric,
    join_chars, join_with, seq_starts_with, split_words, starts_with_chars, string_from_chars,
    seq_chars_eq, string_from_str, to_ascii_lowercase, utf8_size, utf8_size_of, words,
};

verus! {

/// `rusqlite::Error`, carried through unchanged.
#[verifier::external_type_specification]
#[verifier::external_body]
pub struct ExSqliteError(rusqlite::Error);

/// `serde_json::Error`, carried through unchanged.
#[verifier::external_type_specification]
#[verifier::external_body]
pub struct ExJsonError(serde_json::Error);

pub const SCHEMA_VERSION: i64 = 12;

/// Why a storage request failed.
#[derive(Debug)]
pub enum StorageError {
    UnsupportedSchema { found: i64, supported: i64 },
    FileTooLarge,
    InvalidProgress,
    InvalidSearch(String),
    InvalidOperationKind(String),
    InvalidConflictPolicy(String),
    ConstraintViolation(String),
    LeaseLost,
    Json(serde_json::Error),
    Sqlite(rusqlite::Error),
}

/// How a reconciled observation changed the index.
#[derive(Debug, Clone, Copy, PartialEq, Eq, Structural)]
pub enum ReconcileKind {
    Inserted,
    Unchanged,
    Moved,
    MetadataUpdated,
}

#[derive(Debug, Clone, PartialEq, Eq)]
pub struct ReconcileResult {
    pub file_id: String,
    pub kind: ReconcileKind,
}

#[derive(Debug, Clone, PartialEq, Eq)]
pub struct FileObservation {
    pub new_file_id: String,
    pub path: String,
    pub identity: FileIdentity,
    pub snapshot: FileSnapshot,
}

#[derive(Debug, Clone, PartialEq, Eq)]
pub struct OperationItemIntent {
    pub ordinal: i64,
    pub source_path: String,
    pub target_path: String,
    pub source_identity: FileIdentity,
}

#[derive(Debug, Clone, PartialEq, Eq)]
pub struct NewPlanItem {
    pub ordinal: i64,
    pub file_id: String,
    pub source_path: String,
    pub target_path: String,
    pub expected_identity: FileIdentity,
    pub expected_snapshot: FileSnapshot,
}

#[derive(Debug, Clone, PartialEq, Eq)]
pub struct NewPlan<'a> {
    pub id: &'a str,
    pub library_id: &'a str,
    pub operation_kind: FileOperationKind,
    pub conflict_policy: ConflictPolicy,
    pub created_at_ms: i64,
    pub expires_at_ms: i64,
    pub items: &'a [NewPlanItem],
}

#[derive(Debug, Clone, PartialEq, Eq)]
pub struct StoredPlanItem {
    pub ordinal: i64,
    pub file_id: Option<String>,
    pub source_path: String,
    pub target_path: String,
    pub expected_identity: FileIdentity,
    pub expected_snapshot: FileSnapshot,
}

#[derive(Debug, Clone, PartialEq, Eq)]
pub struct StoredPlan {
    pub id: String,
    pub library_id: String,
    pub operation_kind: FileOperationKind,
    pub conflict_policy: ConflictPolicy,
    pub status: String,
    pub created_at_ms: i64,
    pub expires_at_ms: i64,
    pub items: Vec<StoredPlanItem>,
}

#[derive(Debug, Clone, PartialEq, Eq)]
pub struct StoredOperationItem {
    pub ordinal: i64,
    pub status: String,
    pub source_path: String,
    pub target_path: String,
    pub source_identity: FileIdentity,
    pub target_identity: Option<FileIdentity>,
    pub target_snapshot: Option<FileSnapshot>,
    pub content_hash: Option<String>,
    pub error_code: Option<String>,
    pub error_message: Option<String>,
}

#[derive(Debug, Clone, PartialEq, Eq)]
pub struct StoredOperation {
    pub id: String,
    pub plan_id: String,
    pub library_id: String,
    pub operation_kind: FileOperationKind,
    pub status: String,
    pub created_at_ms: i64,
    pub completed_at_ms: Option<i64>,
    pub error_code: Option<String>,
    pub error_message: Option<String>,
    pub items: Vec<StoredOperationItem>,
}

#[derive(Debug, Clone, PartialEq, Eq)]
pub struct RecoveryOperation {
    pub id: String,
    pub plan_id: String,
    pub status: String,
}

#[derive(Debug, Clone, PartialEq, Eq)]
pub struct NewJob {
    pub id: String,
    pub kind: String,
    pub payload_json: String,
    pub priority: i64,
    pub progress_total: Option<u64>,
    pub created_at_ms: i64,
}

#[derive(Debug, Clone, PartialEq, Eq)]
pub struct ClaimedJob {
    pub id: String,
    pub kind: String,
    pub payload_json: String,
    pub progress_current: u64,
    pub progress_total: Option<u64>,
    pub priority: i64,
    pub lease_expires_at_ms: i64,
}

#[derive(Debug, Clone, PartialEq, Eq)]
pub struct JobEvent {
    pub event: String,
    pub detail_json: Option<String>,
    pub created_at_ms: i64,
}

#[derive(Debug, Clone, PartialEq, Eq)]
pub struct IndexedFile {
    pub id: String,
    pub current_path: String,
    pub size: u64,
    pub modified_at_ns: i64,
    pub changed_at_ns: i64,
}

#[derive(Debug, Clone, PartialEq, Eq)]
pub struct FileHashCache {
    pub file_id: String,
    pub size: u64,
    pub modified_at_ns: i64,
    pub changed_at_ns: i64,
    pub algorithm: String,
    pub quick_fingerprint: String,
    pub content_hash: Option<String>,
    pub updated_at_ms: i64,
}

#[derive(Debug, Clone, PartialEq, Eq)]
pub struct FileFeature {
    pub file_id: String,
    pub feature_kind: String,
    pub model_version: String,
    pub size: u64,
    pub modified_at_ns: i64,
    pub changed_at_ns: i64,
    pub dimensions: u32,
    pub quantization: String,
    pub feature_blob: Vec<u8>,
    pub created_at_ms: i64,
}

#[derive(Debug, Clone, Copy, PartialEq, Eq, Structural)]
pub struct HashCacheOverview {
    pub cached_files: u64,
    pub fully_hashed_files: u64,
}

impl Default for HashCacheOverview {
    fn default() -> (r: Self)
        ensures
            r.cached_files == 0 && r.fully_hashed_files == 0,
    {
        HashCacheOverview { cached_files: 0, fully_hashed_files: 0 }
    }
}

#[derive(Debug, Clone, PartialEq, Eq)]
pub struct FilePageCursor {
    pub path: String,
    pub id: String,
}

#[derive(Debug, Clone, PartialEq, Eq)]
pub struct FilePage {
    pub items: Vec<IndexedFile>,
    pub next_cursor: Option<FilePageCursor>,
}

#[derive(Debug, Clone, PartialEq, Eq)]
pub struct LibraryOverview {
    pub total_files: u64,
    pub total_bytes: u64,
    pub latest_modified_at_ns: Option<i64>,
}

#[derive(Debug, Clone, PartialEq, Eq)]
pub struct LibraryRootRecord {
    pub library_id: String,
    pub name: String,
    pub root_path: String,
}

#[derive(Debug, Clone, PartialEq, Eq)]
pub struct JobSummary {
    pub id: String,
    pub kind: String,
    pub status: String,
    pub progress_current: u64,
    pub progress_total: Option<u64>,
    pub updated_at_ms: i64,
}

/// A parsed search: free text plus optional extension and size filters.
#[derive(Debug, Clone, PartialEq, Eq)]
pub struct SearchSpec {
    pub text: String,
    pub extension: Option<String>,
    pub minimum_size: Option<u64>,
    pub maximum_size: Option<u64>,
    /// True when the query held more words than are read (24), or more text terms
    /// than a full-text query keeps (12).
    pub has_truncated_text: bool,
}

#[derive(Debug, Clone, PartialEq, Eq)]
pub struct SmartFolder {
    pub id: String,
    pub library_id: String,
    pub name: String,
    pub query: String,
    pub created_at_ms: i64,
}

/// Outcome of a conditional job transfer: whether it applied, and if not, the status
/// the job is in.
#[derive(Debug, Clone, PartialEq, Eq)]
pub struct JobTransferResult {
    pub applied: bool,
    pub current_status: Option<String>,
}

/// Name under which an operation status is stored.
pub open spec fn operation_status_name(status: OperationStatus) -> Seq<char> {
    match status {
        OperationStatus::Draft => "draft"@,
        OperationStatus::Planned => "planned"@,
        OperationStatus::PreflightPassed => "preflight_passed"@,
        OperationStatus::IntentLogged => "intent_logged"@,
        OperationStatus::Executing => "executing"@,
        OperationStatus::Published => "published"@,
        OperationStatus::Verified => "verified"@,
        OperationStatus::Completed => "completed"@,
        OperationStatus::Conflict => "conflict"@,
        OperationStatus::Failed => "failed"@,
        OperationStatus::Cancelled => "cancelled"@,
        OperationStatus::RecoveryNeeded => "recovery_needed"@,
        OperationStatus::RollbackPending => "rollback_pending"@,
        OperationStatus::RolledBack => "rolled_back"@,
    }
}

pub fn operation_status_str(status: OperationStatus) -> (r: &'static str)
    ensures
        r@ == operation_status_name(status),
{
    match status {
        OperationStatus::Draft => "draft",
        OperationStatus::Planned => "planned",
        OperationStatus::PreflightPassed => "preflight_passed",
        OperationStatus::IntentLogged => "intent_logged",
        OperationStatus::Executing => "executing",
        OperationStatus::Published => "published",
        OperationStatus::Verified => "verified",
        OperationStatus::Completed => "completed",
        OperationStatus::Conflict => "conflict",
        OperationStatus::Failed => "failed",
        OperationStatus::Cancelled => "cancelled",
        OperationStatus::RecoveryNeeded => "recovery_needed",
        OperationStatus::RollbackPending => "rollback_pending",
        OperationStatus::RolledBack => "rolled_back",
    }
}

/// Name under which a job status is stored.
pub open spec fn job_status_name(status: JobStatus) -> Seq<char> {
    match status {
        JobStatus::Queued => "queued"@,
        JobStatus::Running => "running"@,
        JobStatus::PauseRequested => "pause_requested"@,
        JobStatus::Paused => "paused"@,
        JobStatus::CancelRequested => "cancel_requested"@,
        JobStatus::Completed => "completed"@,
        JobStatus::Failed => "failed"@,
        JobStatus::Cancelled => "cancelled"@,
    }
}

/// The job status stored under a name, if any.
pub open spec fn job_status_named(s: Seq<char>) -> Option<JobStatus> {
    if s == "queued"@ {
        Some(JobStatus::Queued)
    } else if s == "running"@ {
        Some(JobStatus::Running)
    } else if s == "pause_requested"@ {
        Some(JobStatus::PauseRequested)
    } else if s == "paused"@ {
        Some(JobStatus::Paused)
    } else if s == "cancel_requested"@ {
        Some(JobStatus::CancelRequested)
    } else if s == "completed"@ {
        Some(JobStatus::Completed)
    } else if s == "failed"@ {
        Some(JobStatus::Failed)
    } else if s == "cancelled"@ {
        Some(JobStatus::Cancelled)
    } else {
        None
    }
}

/// `rusqlite::Error::InvalidQuery`: the error reported for a stored value that the
/// schema does not allow. Nothing is claimed of the value beyond its type.
#[verifier::external_body]
fn invalid_query_error() -> (r: rusqlite::Error) {
    rusqlite::Error::InvalidQuery
}

/// Reads a stored job status; an unknown name is a storage error.
pub fn parse_job_status(status: &str) -> (r: Result<JobStatus, StorageError>)
    ensures
        match job_status_named(status@) {
            Some(s) => r == Ok::<JobStatus, StorageError>(s),
            None => r matches Err(StorageError::Sqlite(_)),
        },
{
    let v = chars_of(status);
    if chars_eq_str(&v, "queued") {
        Ok(JobStatus::Queued)
    } else if chars_eq_str(&v, "running") {
        Ok(JobStatus::Running)
    } else if chars_eq_str(&v, "pause_requested") {
        Ok(JobStatus::PauseRequested)
    } else if chars_eq_str(&v, "paused") {
        Ok(JobStatus::Paused)
    } else if chars_eq_str(&v, "cancel_requested") {
        Ok(JobStatus::CancelRequested)
    } else if chars_eq_str(&v, "completed") {
        Ok(JobStatus::Completed)
    } else if chars_eq_str(&v, "failed") {
        Ok(JobStatus::Failed)
    } else if chars_eq_str(&v, "cancelled") {
        Ok(JobStatus::Cancelled)
    } else {
        Err(StorageError::Sqlite(invalid_query_error()))
    }
}

/// Every job status reads back from the name it is stored under.
pub proof fn lemma_job_status_names_round_trip(status: JobStatus)
    ensures
        job_status_named(job_status_name(status)) == Some(status),
{
    reveal_strlit("queued");
    reveal_strlit("running");
    reveal_strlit("pause_requested");
    reveal_strlit("paused");
    reveal_strlit("cancel_requested");
    reveal_strlit("completed");
    reveal_strlit("failed");
    reveal_strlit("cancelled");
    assert("queued"@.len() == 6 && "paused"@.len() == 6 && "failed"@.len() == 6);
    assert("running"@.len() == 7);
    assert("pause_requested"@.len() == 15 && "cancel_requested"@.len() == 16);
    assert("completed"@.len() == 9 && "cancelled"@.len() == 9);
    assert("queued"@[0] != "paused"@[0] && "queued"@[0] != "failed"@[0] && "paused"@[0]
        != "failed"@[0]);
    assert("completed"@[1] != "cancelled"@[1]);
}

/// A guarded update must have touched exactly one row; otherwise the worker lost its lease.
pub fn ensure_updated(updated: usize) -> (r: Result<(), StorageError>)
    ensures
        updated == 1 ==> r is Ok,
        updated != 1 ==> r matches Err(StorageError::LeaseLost),
{
    if updated == 1 {
        Ok(())
    } else {
        Err(StorageError::LeaseLost)
    }
}


/// Value view of a storage error.
pub enum StorageFault {
    UnsupportedSchema(i64, i64),
    FileTooLarge,
    InvalidProgress,
    InvalidSearch(Seq<char>),
    InvalidOperationKind(Seq<char>),
    InvalidConflictPolicy(Seq<char>),
    ConstraintViolation(Seq<char>),
    LeaseLost,
    Json(serde_json::Error),
    Sqlite(rusqlite::Error),
}

impl View for StorageError {
    type V = StorageFault;

    open spec fn view(&self) -> StorageFault {
        match self {
            StorageError::UnsupportedSchema { found, supported } => StorageFault::UnsupportedSchema(
                *found,
                *supported,
            ),
            StorageError::FileTooLarge => StorageFault::FileTooLarge,
            StorageError::InvalidProgress => StorageFault::InvalidProgress,
            StorageError::InvalidSearch(m) => StorageFault::InvalidSearch(m@),
            StorageError::InvalidOperationKind(m) => StorageFault::InvalidOperationKind(m@),
            StorageError::InvalidConflictPolicy(m) => StorageFault::InvalidConflictPolicy(m@),
            StorageError::ConstraintViolation(m) => StorageFault::ConstraintViolation(m@),
            StorageError::LeaseLost => StorageFault::LeaseLost,
            StorageError::Json(e) => StorageFault::Json(*e),
            StorageError::Sqlite(e) => StorageFault::Sqlite(*e),
        }
    }
}

/// A term with each `"` doubled, as full-text query syntax escapes it.
pub open spec fn escape_quotes(t: Seq<char>) -> Seq<char>
    decreases t.len(),
{
    if t.len() == 0 {
        seq![]
    } else {
        escape_quotes(t.drop_last()) + if t.last() == '"' {
            seq!['"', '"']
        } else {
            seq![t.last()]
        }
    }
}

/// A quoted term, optionally marked as a prefix.
pub open spec fn quoted_term(t: Seq<char>, prefix: bool) -> Seq<char> {
    seq!['"'] + escape_quotes(t) + if prefix {
        seq!['"', '*']
    } else {
        seq!['"']
    }
}

/// At most the first `n` elements.
pub open spec fn first_n<A>(s: Seq<A>, n: nat) -> Seq<A> {
    if s.len() > n {
        s.take(n as int)
    } else {
        s
    }
}

/// The first twelve words of the query, each quoted, joined with ` AND `.
pub open spec fn match_query_text(q: Seq<char>, prefix: bool) -> Seq<char> {
    join_with(
        first_n(words(q), 12).map_values(|t: Seq<char>| quoted_term(t, prefix)),
        " AND "@,
    )
}

fn quote_term(t: &Vec<char>, prefix: bool) -> (r: Vec<char>)
    ensures
        r@ == quoted_term(t@, prefix),
{
    let mut out: Vec<char> = vec!['"'];
    let mut i: usize = 0;
    assert(t@.take(0) =~= seq![]);
    while i < t.len()
        invariant
            i <= t.len(),
            out@ == seq!['"'] + escape_quotes(t@.take(i as int)),
        decreases t.len() - i,
    {
        assert(t@.take(i + 1).drop_last() =~= t@.take(i as int));
        if t[i] == '"' {
            out.push('"');
            out.push('"');
        } else {
            out.push(t[i]);
        }
        i += 1;
        assert(out@ =~= seq!['"'] + escape_quotes(t@.take(i as int)));
    }
    assert(t@.take(t.len() as int) =~= t@);
    out.push('"');
    if prefix {
        out.push('*');
    }
    assert(out@ =~= quoted_term(t@, prefix));
    out
}

fn match_query(query: &str, prefix: bool) -> (r: String)
    ensures
        r@ == match_query_text(query@, prefix),
{
    let q = chars_of(query);
    let w = split_words(&q);
    let n: usize = if w.len() > 12 {
        12
    } else {
        w.len()
    };
    let ghost target = first_n(words(q@), 12).map_values(|t: Seq<char>| quoted_term(t, prefix));
    let mut terms: Vec<Vec<char>> = Vec::new();
    let mut i: usize = 0;
    while i < n
        invariant
            i <= n,
            n <= w.len(),
            n == first_n(words(q@), 12).len(),
            chars_views(w@) == words(q@),
            target == first_n(words(q@), 12).map_values(|t: Seq<char>| quoted_term(t, prefix)),
            chars_views(terms@) == target.take(i as int),
        decreases n - i,
    {
        let t = quote_term(&w[i], prefix);
        let ghost before = terms@;
        terms.push(t);
        assert(chars_views(terms@) =~= chars_views(before).push(t@));
        i += 1;
        assert(chars_views(terms@) =~= target.take(i as int));
    }
    assert(chars_views(terms@) =~= target);
    let sep = chars_of(" AND ");
    let joined = join_chars(&terms, &sep);
    string_from_chars(&joined)
}

/// The full-text prefix query for the first twelve words of `query`.
pub fn fts_query(query: &str) -> (r: String)
    ensures
        r@ == match_query_text(query@, true),
{
    match_query(query, true)
}

/// The trigram phrase query for the first twelve words of `query`.
pub fn trigram_query(query: &str) -> (r: String)
    ensures
        r@ == match_query_text(query@, false),
{
    match_query(query, false)
}

/// Leading `.` characters removed (`trim_start_matches('.')`).
pub open spec fn trim_leading_dots(s: Seq<char>) -> Seq<char>
    decreases s.len(),
{
    if s.len() > 0 && s[0] == '.' {
        trim_leading_dots(s.drop_first())
    } else {
        s
    }
}

/// The extension named by an `ext:` value: without leading dots, in ASCII lower case.
pub open spec fn extension_of(value: Seq<char>) -> Seq<char> {
    ascii_lowercase(trim_leading_dots(value))
}

/// An extension is one to sixteen ASCII letters and digits.
pub open spec fn is_valid_extension(e: Seq<char>) -> bool {
    e.len() > 0 && utf8_size(e) <= 16 && forall|i: int|
        0 <= i < e.len() ==> is_ascii_alphanumeric(#[trigger] e[i])
}

/// Filters read so far from a search query.
pub struct SearchState {
    pub text: Seq<Seq<char>>,
    pub extension: Option<Seq<char>>,
    pub minimum: Option<u64>,
    pub maximum: Option<u64>,
    pub size_seen: bool,
}

pub open spec fn ext_message() -> Seq<char> {
    "ext: 只能指定一个由字母和数字组成的扩展名"@
}

pub open spec fn size_twice_message() -> Seq<char> {
    "当前版本每次搜索只能使用一个 size: 条件"@
}

pub open spec fn empty_range_message() -> Seq<char> {
    "文件大小范围为空"@
}

/// The result of reading one word of a search query. `size` is what the value of
/// the query's first `size:` word reads as.
pub open spec fn search_step(
    st: SearchState,
    token: Seq<char>,
    size: Option<Result<(Option<u64>, Option<u64>), StorageError>>,
) -> Result<SearchState, StorageFault> {
    if seq_starts_with(token, "ext:"@) {
        let e = extension_of(token.skip(4));
        if !is_valid_extension(e) || st.extension is Some {
            Err(StorageFault::InvalidSearch(ext_message()))
        } else {
            Ok(SearchState { extension: Some(e), ..st })
        }
    } else if seq_starts_with(token, "size:"@) {
        if st.size_seen {
            Err(StorageFault::InvalidSearch(size_twice_message()))
        } else {
            match size {
                Some(Ok((lo, hi))) => Ok(
                    SearchState { minimum: lo, maximum: hi, size_seen: true, ..st },
                ),
                Some(Err(e)) => Err(e@),
                None => Ok(st),
            }
        }
    } else {
        Ok(SearchState { text: st.text.push(token), ..st })
    }
}

pub open spec fn empty_search_state() -> SearchState {
    SearchState { text: seq![], extension: None, minimum: None, maximum: None, size_seen: false }
}

/// The first `n` words read in order.
pub open spec fn search_fold(
    tokens: Seq<Seq<char>>,
    size: Option<Result<(Option<u64>, Option<u64>), StorageError>>,
    n: nat,
) -> Result<SearchState, StorageFault>
    decreases n,
{
    if n == 0 {
        Ok(empty_search_state())
    } else {
        match search_fold(tokens, size, (n - 1) as nat) {
            Err(e) => Err(e),
            Ok(st) => search_step(st, tokens[n - 1], size),
        }
    }
}

proof fn lemma_search_fold_err_stays(
    tokens: Seq<Seq<char>>,
    size: Option<Result<(Option<u64>, Option<u64>), StorageError>>,
    a: nat,
    b: nat,
)
    requires
        a <= b,
        search_fold(tokens, size, a) is Err,
    ensures
        search_fold(tokens, size, b) == search_fold(tokens, size, a),
    decreases b - a,
{
    if a < b {
        lemma_search_fold_err_stays(tokens, size, a, (b - 1) as nat);
    }
}

/// The words of a query that are read: the first twenty-four.
pub open spec fn read_words(q: Seq<char>) -> Seq<Seq<char>> {
    first_n(words(q), 24)
}

/// The value of the first `size:` word among the words read, if any.
pub open spec fn first_size_value(q: Seq<char>) -> Option<Seq<char>> {
    let w = read_words(q);
    if exists|i: int|
        0 <= i < w.len() && !seq_starts_with(w[i], "ext:"@) && seq_starts_with(
            #[trigger] w[i],
            "size:"@,
        ) {
        let i = choose|i: int|
            0 <= i < w.len() && !seq_starts_with(w[i], "ext:"@) && seq_starts_with(
                #[trigger] w[i],
                "size:"@,
            ) && forall|j: int|
                0 <= j < i ==> !(!seq_starts_with(w[j], "ext:"@) && seq_starts_with(
                    #[trigger] w[j],
                    "size:"@,
                ));
        Some(w[i].skip(5))
    } else {
        None
    }
}

/// A word of a query that is read as a size filter.
pub open spec fn is_size_word(w: Seq<char>) -> bool {
    !seq_starts_with(w, "ext:"@) && seq_starts_with(w, "size:"@)
}

proof fn lemma_fold_takes_the_size_filter(
    w: Seq<Seq<char>>,
    b: (Option<u64>, Option<u64>),
    n: nat,
)
    requires
        n <= w.len(),
    ensures
        search_fold(w, Some(Ok(b)), n) matches Ok(st) ==> {
            &&& st.size_seen <==> exists|i: int| 0 <= i < n && #[trigger] is_size_word(w[i])
            &&& st.size_seen ==> st.minimum == b.0 && st.maximum == b.1
            &&& !st.size_seen ==> st.minimum is None && st.maximum is None
        },
    decreases n,
{
    if n > 0 {
        lemma_fold_takes_the_size_filter(w, b, (n - 1) as nat);
        let last = w[n - 1];
        if search_fold(w, Some(Ok(b)), n) is Ok {
            if is_size_word(last) {
                assert(is_size_word(w[n - 1]));
            } else {
                assert forall|i: int| 0 <= i < n && #[trigger] is_size_word(w[i]) implies i < n - 1 by {}
            }
        }
    }
}

/// A search takes its size range from the size filter exactly when the words it reads
/// hold a `size:` word, and has no size range otherwise: the filter's lower bound becomes
/// its minimum size and the upper bound its maximum, never the other way round.
pub proof fn lemma_search_takes_the_size_filter(q: Seq<char>, b: (Option<u64>, Option<u64>))
    ensures
        search_result(q, Some(Ok(b))) matches Ok(v) ==> {
            &&& (exists|i: int| 0 <= i < read_words(q).len() && #[trigger] is_size_word(read_words(q)[i]))
                ==> v.minimum_size == b.0 && v.maximum_size == b.1
            &&& !(exists|i: int| 0 <= i < read_words(q).len() && #[trigger] is_size_word(read_words(q)[i]))
                ==> v.minimum_size is None && v.maximum_size is None
        },
{
    let w = read_words(q);
    lemma_fold_takes_the_size_filter(w, b, w.len());
}

/// A parsed search in value form.
pub struct SearchView {
    pub text: Seq<char>,
    pub extension: Option<Seq<char>>,
    pub minimum_size: Option<u64>,
    pub maximum_size: Option<u64>,
    pub has_truncated_text: bool,
}

impl View for SearchSpec {
    type V = SearchView;

    open spec fn view(&self) -> SearchView {
        SearchView {
            text: self.text@,
            extension: match self.extension {
                Some(e) => Some(e@),
                None => None,
            },
            minimum_size: self.minimum_size,
            maximum_size: self.maximum_size,
            has_truncated_text: self.has_truncated_text,
        }
    }
}

/// The search that a query asks for, or why it is refused.
pub open spec fn search_result(
    q: Seq<char>,
    size: Option<Result<(Option<u64>, Option<u64>), StorageError>>,
) -> Result<SearchView, StorageFault> {
    let w = read_words(q);
    match search_fold(w, size, w.len()) {
        Err(e) => Err(e),
        Ok(st) => if st.minimum is Some && st.maximum is Some && st.minimum->0
            > st.maximum->0 {
            Err(StorageFault::InvalidSearch(empty_range_message()))
        } else {
            Ok(
                SearchView {
                    text: join_with(st.text, " "@),
                    extension: st.extension,
                    minimum_size: st.minimum,
                    maximum_size: st.maximum,
                    has_truncated_text: words(q).len() > 24 || st.text.len() > 12,
                },
            )
        },
    }
}

fn extension_value(token: &Vec<char>) -> (r: Vec<char>)
    requires
        token.len() >= 4,
    ensures
        r@ == extension_of(token@.skip(4)),
{
    let mut k: usize = 4;
    while k < token.len() && token[k] == '.'
        invariant
            4 <= k <= token.len(),
            trim_leading_dots(token@.skip(4)) == trim_leading_dots(token@.skip(k as int)),
        decreases token.len() - k,
    {
        assert(token@.skip(k as int).drop_first() =~= token@.skip(k + 1));
        k += 1;
    }
    assert(trim_leading_dots(token@.skip(k as int)) == token@.skip(k as int));
    let mut rest: Vec<char> = Vec::new();
    let mut j: usize = k;
    while j < token.len()
        invariant
            k <= j <= token.len(),
            rest@ == token@.subrange(k as int, j as int),
        decreases token.len() - j,
    {
        rest.push(token[j]);
        j += 1;
        assert(rest@ =~= token@.subrange(k as int, j as int));
    }
    assert(rest@ =~= token@.skip(k as int));
    to_ascii_lowercase(&rest)
}

fn valid_extension(e: &Vec<char>) -> (r: bool)
    ensures
        r == is_valid_extension(e@),
{
    if e.len() == 0 || utf8_size_of(e) > 16 {
        return false;
    }
    let mut i: usize = 0;
    while i < e.len()
        invariant
            i <= e.len(),
            forall|j: int| 0 <= j < i ==> is_ascii_alphanumeric(#[trigger] e@[j]),
        decreases e.len() - i,
    {
        let c = e[i];
        if !(('0' <= c && c <= '9') || ('a' <= c && c <= 'z') || ('A' <= c && c <= 'Z')) {
            assert(!is_ascii_alphanumeric(e@[i as int]));
            return false;
        }
        i += 1;
    }
    true
}

/// The value of the first `size:` word of a query among the words that are read.
pub fn search_size_value(query: &str) -> (r: Option<String>)
    ensures
        match r {
            Some(v) => first_size_value(query@) == Some(v@),
            None => first_size_value(query@) is None,
        },
{
    let q = chars_of(query);
    let w = split_words(&q);
    let n: usize = if w.len() > 24 {
        24
    } else {
        w.len()
    };
    let ext = chars_of("ext:");
    let size = chars_of("size:");
    let ghost rw = read_words(query@);
    let mut i: usize = 0;
    while i < n
        invariant
            i <= n,
            n <= w.len(),
            chars_views(w@) == words(q@),
            q@ == query@,
            rw == read_words(query@),
            rw.len() == n,
            ext@ == "ext:"@,
            size@ == "size:"@,
            forall|j: int|
                0 <= j < i ==> !(!seq_starts_with(rw[j], "ext:"@) && seq_starts_with(
                    #[trigger] rw[j],
                    "size:"@,
                )),
        decreases n - i,
    {
        assert(rw[i as int] == w@[i as int]@);
        if !starts_with_chars(&w[i], &ext) && starts_with_chars(&w[i], &size) {
            let mut v: Vec<char> = Vec::new();
            let mut j: usize = 5;
            proof {
                reveal_strlit("size:");
            }
            while j < w[i].len()
                invariant
                    5 <= j <= w@[i as int].len(),
                    i < w.len(),
                    v@ == w@[i as int]@.subrange(5, j as int),
                decreases w@[i as int].len() - j,
            {
                v.push(w[i][j]);
                j += 1;
                assert(v@ =~= w@[i as int]@.subrange(5, j as int));
            }
            assert(v@ =~= rw[i as int].skip(5));
            proof {
                let k = choose|k: int|
                    0 <= k < rw.len() && !seq_starts_with(rw[k], "ext:"@) && seq_starts_with(
                        #[trigger] rw[k],
                        "size:"@,
                    ) && forall|j: int|
                        0 <= j < k ==> !(!seq_starts_with(rw[j], "ext:"@) && seq_starts_with(
                            #[trigger] rw[j],
                            "size:"@,
                        ));
                assert(k == i) by {
                    if k < i {
                    } else if k > i {
                        assert(!(!seq_starts_with(rw[i as int], "ext:"@) && seq_starts_with(
                            rw[i as int],
                            "size:"@,
                        )));
                    }
                }
            }
            return Some(string_from_chars(&v));
        }
        i += 1;
    }
    None
}

/// Parses a search query: free words, at most one `ext:` filter and at most one
/// `size:` filter, reading the first twenty-four words. `size` is what the value of
/// the first `size:` word reads as.
pub fn parse_search_query(
    query: &str,
    size_filter: Option<Result<(Option<u64>, Option<u64>), StorageError>>,
) -> (r: Result<SearchSpec, StorageError>)
    requires
        first_size_value(query@) is Some ==> size_filter is Some,
    ensures
        match r {
            Ok(spec) => search_result(query@, size_filter) == Ok::<SearchView, StorageFault>(
                spec@,
            ),
            Err(e) => search_result(query@, size_filter) == Err::<SearchView, StorageFault>(e@),
        },
{
    let q = chars_of(query);
    let w = split_words(&q);
    let n: usize = if w.len() > 24 {
        24
    } else {
        w.len()
    };
    let ext_prefix = chars_of("ext:");
    let size_prefix = chars_of("size:");
    proof {
        reveal_strlit("ext:");
        reveal_strlit("size:");
    }
    let ghost rw = read_words(query@);
    let mut size = size_filter;
    let ghost size0 = size;
    let mut text: Vec<Vec<char>> = Vec::new();
    assert(chars_views(text@) =~= Seq::<Seq<char>>::empty());
    assert(ext_prefix.len() == 4 && size_prefix.len() == 5);
    let mut extension: Option<Vec<char>> = None;
    let mut minimum: Option<u64> = None;
    let mut maximum: Option<u64> = None;
    let mut size_seen = false;
    let mut i: usize = 0;
    while i < n
        invariant
            i <= n,
            n <= w.len(),
            chars_views(w@) == words(q@),
            q@ == query@,
            rw == read_words(query@),
            rw.len() == n,
            ext_prefix@ == "ext:"@,
            size_prefix@ == "size:"@,
            ext_prefix.len() == 4,
            size_prefix.len() == 5,
            size0 == size_filter,
            first_size_value(query@) is Some ==> size0 is Some,
            !size_seen ==> size == size0,
            search_fold(rw, size0, i as nat) == Ok::<SearchState, StorageFault>(
                SearchState {
                    text: chars_views(text@),
                    extension: match extension {
                        Some(e) => Some(e@),
                        None => None,
                    },
                    minimum,
                    maximum,
                    size_seen,
                },
            ),
            !size_seen ==> forall|j: int|
                0 <= j < i ==> !(!seq_starts_with(rw[j], "ext:"@) && seq_starts_with(
                    #[trigger] rw[j],
                    "size:"@,
                )),
        decreases n - i,
    {
        let token = &w[i];
        assert(rw[i as int] == token@);
        if starts_with_chars(token, &ext_prefix) {
            let e = extension_value(token);
            if !valid_extension(&e) || extension.is_some() {
                proof {
                    lemma_search_fold_err_stays(rw, size0, (i + 1) as nat, n as nat);
                }
                return Err(
                    StorageError::InvalidSearch(
                        string_from_str("ext: 只能指定一个由字母和数字组成的扩展名"),
                    ),
                );
            }
            extension = Some(e);
        } else if starts_with_chars(token, &size_prefix) {
            if size_seen {
                proof {
                    lemma_search_fold_err_stays(rw, size0, (i + 1) as nat, n as nat);
                }
                return Err(
                    StorageError::InvalidSearch(
                        string_from_str("当前版本每次搜索只能使用一个 size: 条件"),
                    ),
                );
            }
            proof {
                assert(first_size_value(query@) is Some);
            }
            let taken = size.take();
            match taken {
                Some(Ok((lo, hi))) => {
                    minimum = lo;
                    maximum = hi;
                    size_seen = true;
                },
                Some(Err(e)) => {
                    proof {
                        lemma_search_fold_err_stays(rw, size0, (i + 1) as nat, n as nat);
                    }
                    return Err(e);
                },
                None => {},
            }
        } else {
            let ghost before = text@;
            text.push(token.clone());
            assert(chars_views(text@) =~= chars_views(before).push(token@));
        }
        i += 1;
    }
    match (minimum, maximum) {
        (Some(lo), Some(hi)) => {
            if lo > hi {
                return Err(StorageError::InvalidSearch(string_from_str("文件大小范围为空")));
            }
        },
        _ => {},
    }
    let space = vec![' '];
    assert(space@ == " "@) by {
        reveal_strlit(" ");
    }
    let joined = join_chars(&text, &space);
    let ext_out = match extension {
        Some(e) => Some(string_from_chars(&e)),
        None => None,
    };
    Ok(
        SearchSpec {
            text: string_from_chars(&joined),
            extension: ext_out,
            minimum_size: minimum,
            maximum_size: maximum,
            has_truncated_text: w.len() > 24 || text.len() > 12,
        },
    )
}


/// The comparison that a `size:` filter asks for.
#[derive(Debug, Clone, Copy, PartialEq, Eq, Structural)]
pub enum SizeComparison {
    Greater,
    AtLeast,
    Less,
    AtMost,
    Equal,
}

/// The comparison at the start of a `size:` value and the amount after it; a value
/// without a comparison asks for equality.
pub open spec fn size_comparison_of(value: Seq<char>) -> (SizeComparison, Seq<char>) {
    if seq_starts_with(value, ">="@) {
        (SizeComparison::AtLeast, value.skip(2))
    } else if seq_starts_with(value, "<="@) {
        (SizeComparison::AtMost, value.skip(2))
    } else if seq_starts_with(value, ">"@) {
        (SizeComparison::Greater, value.skip(1))
    } else if seq_starts_with(value, "<"@) {
        (SizeComparison::Less, value.skip(1))
    } else if seq_starts_with(value, "="@) {
        (SizeComparison::Equal, value.skip(1))
    } else {
        (SizeComparison::Equal, value)
    }
}

fn skip_chars(v: &Vec<char>, k: usize) -> (r: String)
    requires
        k <= v.len(),
    ensures
        r@ == v@.skip(k as int),
{
    let mut out: Vec<char> = Vec::new();
    let mut j: usize = k;
    while j < v.len()
        invariant
            k <= j <= v.len(),
            out@ == v@.subrange(k as int, j as int),
        decreases v.len() - j,
    {
        out.push(v[j]);
        j += 1;
        assert(out@ =~= v@.subrange(k as int, j as int));
    }
    assert(out@ =~= v@.skip(k as int));
    string_from_chars(&out)
}

/// Splits a `size:` value into its comparison and amount.
pub fn split_size_comparison(value: &str) -> (r: (SizeComparison, String))
    ensures
        (r.0, r.1@) == size_comparison_of(value@),
{
    let v = chars_of(value);
    proof {
        reveal_strlit(">=");
        reveal_strlit("<=");
        reveal_strlit(">");
        reveal_strlit("<");
        reveal_strlit("=");
    }
    if starts_with_chars(&v, &chars_of(">=")) {
        (SizeComparison::AtLeast, skip_chars(&v, 2))
    } else if starts_with_chars(&v, &chars_of("<=")) {
        (SizeComparison::AtMost, skip_chars(&v, 2))
    } else if starts_with_chars(&v, &chars_of(">")) {
        (SizeComparison::Greater, skip_chars(&v, 1))
    } else if starts_with_chars(&v, &chars_of("<")) {
        (SizeComparison::Less, skip_chars(&v, 1))
    } else if starts_with_chars(&v, &chars_of("=")) {
        (SizeComparison::Equal, skip_chars(&v, 1))
    } else {
        (SizeComparison::Equal, string_from_chars(&v))
    }
}

/// `k` is where the number at the start of a size amount ends: the first character
/// that is neither an ASCII digit nor `.`.
pub open spec fn is_number_end(amount: Seq<char>, k: int) -> bool {
    &&& 0 <= k <= amount.len()
    &&& forall|j: int|
        0 <= j < k ==> ('0' <= #[trigger] amount[j] && amount[j] <= '9') || amount[j] == '.'
    &&& (k == amount.len() || !(('0' <= amount[k] && amount[k] <= '9') || amount[k] == '.'))
}

/// Splits a size amount into its number and its unit.
pub fn split_size_amount(amount: &str) -> (r: (String, String))
    ensures
        exists|k: int| is_number_end(amount@, k) && r.0@ == amount@.take(k) && r.1@ == amount@.skip(k),
{
    let v = chars_of(amount);
    let mut k: usize = 0;
    while k < v.len() && (('0' <= v[k] && v[k] <= '9') || v[k] == '.')
        invariant
            k <= v.len(),
            forall|j: int| 0 <= j < k ==> ('0' <= #[trigger] v@[j] && v@[j] <= '9') || v@[j] == '.',
        decreases v.len() - k,
    {
        k += 1;
    }
    let mut head: Vec<char> = Vec::new();
    let mut j: usize = 0;
    while j < k
        invariant
            j <= k <= v.len(),
            head@ == v@.take(j as int),
        decreases k - j,
    {
        head.push(v[j]);
        j += 1;
        assert(head@ =~= v@.take(j as int));
    }
    let unit = skip_chars(&v, k);
    assert(is_number_end(amount@, k as int));
    (string_from_chars(&head), unit)
}

/// The power of 1024 that a size unit stands for: B (or none), KB, MB, GB, TB, in any case.
pub open spec fn unit_exponent(unit: Seq<char>) -> Option<u32> {
    let u = ascii_lowercase(unit);
    if u == ""@ || u == "b"@ {
        Some(0)
    } else if u == "kb"@ {
        Some(1)
    } else if u == "mb"@ {
        Some(2)
    } else if u == "gb"@ {
        Some(3)
    } else if u == "tb"@ {
        Some(4)
    } else {
        None
    }
}

/// Reads a size unit.
pub fn size_unit_exponent(unit: &str) -> (r: Option<u32>)
    ensures
        r == unit_exponent(unit@),
{
    let u = to_ascii_lowercase(&chars_of(unit));
    if chars_eq_str(&u, "") || chars_eq_str(&u, "b") {
        Some(0)
    } else if chars_eq_str(&u, "kb") {
        Some(1)
    } else if chars_eq_str(&u, "mb") {
        Some(2)
    } else if chars_eq_str(&u, "gb") {
        Some(3)
    } else if chars_eq_str(&u, "tb") {
        Some(4)
    } else {
        None
    }
}

/// The size range that a comparison with `bytes` selects; `<` with zero bytes selects
/// nothing and is refused.
pub open spec fn size_bounds_of(c: SizeComparison, bytes: u64) -> Option<(Option<u64>, Option<u64>)> {
    match c {
        SizeComparison::Greater => Some(
            (Some(if bytes == u64::MAX { u64::MAX } else { (bytes + 1) as u64 }), None),
        ),
        SizeComparison::AtLeast => Some((Some(bytes), None)),
        SizeComparison::Less => if bytes == 0 {
            None
        } else {
            Some((None, Some((bytes - 1) as u64)))
        },
        SizeComparison::AtMost => Some((None, Some(bytes))),
        SizeComparison::Equal => Some((Some(bytes), Some(bytes))),
    }
}

/// A size lies in a range with an optional lower and upper bound.
pub open spec fn size_in_range(bounds: (Option<u64>, Option<u64>), size: u64) -> bool {
    &&& bounds.0 matches Some(lo) ==> lo <= size
    &&& bounds.1 matches Some(hi) ==> size <= hi
}

/// A `size:` comparison selects exactly the sizes it names: `<=N` the sizes at most N,
/// `>=N` at least N, `>N` above N, `<N` below N (refused for N = 0, which selects
/// nothing), and `=N` exactly N. (`>` of the largest size, which no size exceeds, selects
/// that size itself.)
pub proof fn lemma_size_bounds_select_the_named_sizes(bytes: u64, size: u64)
    ensures
        size_bounds_of(SizeComparison::AtMost, bytes) matches Some(b) && (size_in_range(b, size)
            <==> size <= bytes),
        size_bounds_of(SizeComparison::AtLeast, bytes) matches Some(b) && (size_in_range(b, size)
            <==> size >= bytes),
        bytes < u64::MAX ==> (size_bounds_of(SizeComparison::Greater, bytes) matches Some(b) && (
        size_in_range(b, size) <==> size > bytes)),
        bytes > 0 ==> (size_bounds_of(SizeComparison::Less, bytes) matches Some(b) && (size_in_range(
            b,
            size,
        ) <==> size < bytes)),
        bytes == 0 ==> size_bounds_of(SizeComparison::Less, bytes) is None,
        size_bounds_of(SizeComparison::Equal, bytes) matches Some(b) && (size_in_range(b, size)
            <==> size == bytes),
{
}

/// The size range that a comparison with a byte count selects.
pub fn size_bounds(c: SizeComparison, bytes: u64) -> (r: Result<(Option<u64>, Option<u64>), StorageError>)
    ensures
        match size_bounds_of(c, bytes) {
            Some(b) => r == Ok::<(Option<u64>, Option<u64>), StorageError>(b),
            None => r matches Err(e) && e@ == StorageFault::InvalidSearch(empty_range_message()),
        },
{
    match c {
        SizeComparison::Greater => Ok((Some(bytes.saturating_add(1)), None)),
        SizeComparison::AtLeast => Ok((Some(bytes), None)),
        SizeComparison::Less => if bytes == 0 {
            Err(StorageError::InvalidSearch(string_from_str("文件大小范围为空")))
        } else {
            Ok((None, Some(bytes - 1)))
        },
        SizeComparison::AtMost => Ok((None, Some(bytes))),
        SizeComparison::Equal => Ok((Some(bytes), Some(bytes))),
    }
}


/// How a parsed search is run against the index.
#[derive(Debug, Clone, Copy, PartialEq, Eq, Structural)]
pub enum SearchStrategy {
    /// Some word is shorter than three characters: every word is matched as a substring.
    ShortTerms,
    /// No text to match: only the extension and size filters apply.
    FiltersOnly,
    /// Every word has at least three characters: trigram phrase search.
    Trigram,
    /// Full-text prefix search.
    FullText,
}

/// The parameters of an index search.
#[derive(Debug, Clone, PartialEq, Eq)]
pub struct SearchPlan {
    pub strategy: SearchStrategy,
    pub match_query: String,
    pub like_patterns: Vec<String>,
    pub extension_pattern: Option<String>,
    pub minimum_size: Option<i64>,
    pub maximum_size: Option<i64>,
    pub limit: i64,
}

/// Every word of the text has at least three characters, and there is text.
pub open spec fn uses_trigram(text: Seq<char>) -> bool {
    text.len() > 0 && forall|i: int| 0 <= i < words(text).len() ==> (#[trigger] words(text)[i]).len() >= 3
}

/// Some word of the text is shorter than three characters.
pub open spec fn has_short_terms(text: Seq<char>) -> bool {
    text.len() > 0 && !uses_trigram(text) && exists|i: int|
        0 <= i < words(text).len() && (#[trigger] words(text)[i]).len() < 3
}

/// The text query of a search: trigram phrases, full-text prefixes, or none when
/// short words are matched as substrings.
pub open spec fn search_match_query(text: Seq<char>) -> Seq<char> {
    if uses_trigram(text) {
        match_query_text(text, false)
    } else if !has_short_terms(text) {
        match_query_text(text, true)
    } else {
        seq![]
    }
}

pub open spec fn clamp_limit(requested: usize) -> int {
    if requested < 1 {
        1
    } else if requested > 200 {
        200
    } else {
        requested as int
    }
}

/// Value form of a search plan.
pub struct SearchPlanView {
    pub strategy: SearchStrategy,
    pub match_query: Seq<char>,
    pub like_patterns: Seq<Seq<char>>,
    pub extension_pattern: Option<Seq<char>>,
    pub minimum_size: Option<i64>,
    pub maximum_size: Option<i64>,
    pub limit: i64,
}

impl View for SearchPlan {
    type V = SearchPlanView;

    open spec fn view(&self) -> SearchPlanView {
        SearchPlanView {
            strategy: self.strategy,
            match_query: self.match_query@,
            like_patterns: self.like_patterns@.map_values(|p: String| p@),
            extension_pattern: match self.extension_pattern {
                Some(p) => Some(p@),
                None => None,
            },
            minimum_size: self.minimum_size,
            maximum_size: self.maximum_size,
            limit: self.limit,
        }
    }
}

/// The plan for running a parsed search, `None` when there is nothing to look for.
pub open spec fn search_plan_of(spec: SearchView, requested_limit: usize) -> Result<
    Option<SearchPlanView>,
    StorageFault,
> {
    let mq = search_match_query(spec.text);
    let short = has_short_terms(spec.text);
    if mq.len() == 0 && spec.extension is None && spec.minimum_size is None
        && spec.maximum_size is None && !short {
        Ok(None)
    } else if spec.minimum_size is Some && spec.minimum_size->0 > i64::MAX {
        Err(StorageFault::FileTooLarge)
    } else if spec.maximum_size is Some && spec.maximum_size->0 > i64::MAX {
        Err(StorageFault::FileTooLarge)
    } else {
        Ok(
            Some(
                SearchPlanView {
                    strategy: if short {
                        SearchStrategy::ShortTerms
                    } else if mq.len() == 0 {
                        SearchStrategy::FiltersOnly
                    } else if uses_trigram(spec.text) {
                        SearchStrategy::Trigram
                    } else {
                        SearchStrategy::FullText
                    },
                    match_query: mq,
                    like_patterns: if short {
                        words(spec.text).map_values(|t: Seq<char>| "%"@ + t + "%"@)
                    } else {
                        seq![]
                    },
                    extension_pattern: match spec.extension {
                        Some(e) => Some("%."@ + e),
                        None => None,
                    },
                    minimum_size: match spec.minimum_size {
                        Some(m) => Some(m as i64),
                        None => None,
                    },
                    maximum_size: match spec.maximum_size {
                        Some(m) => Some(m as i64),
                        None => None,
                    },
                    limit: clamp_limit(requested_limit) as i64,
                },
            ),
        )
    }
}

fn to_i64_size(v: Option<u64>) -> (r: Option<Option<i64>>)
    ensures
        match v {
            Some(x) => if x > i64::MAX {
                r is None
            } else {
                r == Some(Some(x as i64))
            },
            None => r == Some(None::<i64>),
        },
{
    match v {
        Some(x) => if x > i64::MAX as u64 {
            None
        } else {
            Some(Some(x as i64))
        },
        None => Some(None),
    }
}

/// Decides how to run a parsed search: which index to query with which text, the
/// substring patterns for short words, the filters and the clamped result limit.
pub fn plan_search(spec: &SearchSpec, requested_limit: usize) -> (r: Result<
    Option<SearchPlan>,
    StorageError,
>)
    ensures
        match r {
            Ok(None) => search_plan_of(spec@, requested_limit) == Ok::<
                Option<SearchPlanView>,
                StorageFault,
            >(None),
            Ok(Some(p)) => search_plan_of(spec@, requested_limit) == Ok::<
                Option<SearchPlanView>,
                StorageFault,
            >(Some(p@)),
            Err(e) => search_plan_of(spec@, requested_limit) == Err::<
                Option<SearchPlanView>,
                StorageFault,
            >(e@),
        },
{
    let text = chars_of(spec.text.as_str());
    let ws = split_words(&text);
    let mut all_long = true;
    let mut any_short = false;
    let mut i: usize = 0;
    while i < ws.len()
        invariant
            i <= ws.len(),
            chars_views(ws@) == words(text@),
            all_long == forall|j: int| 0 <= j < i ==> (#[trigger] ws@[j]@).len() >= 3,
            any_short == exists|j: int| 0 <= j < i && (#[trigger] ws@[j]@).len() < 3,
        decreases ws.len() - i,
    {
        if ws[i].len() < 3 {
            all_long = false;
            any_short = true;
        }
        i += 1;
    }
    proof {
        assert forall|j: int| 0 <= j < ws.len() implies words(text@)[j] == (#[trigger] ws@[j])@ by {}
    }
    let trigram = text.len() > 0 && all_long;
    let short = text.len() > 0 && !trigram && any_short;
    assert(trigram == uses_trigram(spec.text@));
    assert(short == has_short_terms(spec.text@)) by {
        if short {
            let j = choose|j: int| 0 <= j < ws.len() && (#[trigger] ws@[j]@).len() < 3;
            assert(words(text@)[j].len() < 3);
        }
    }
    let mq = if trigram {
        trigram_query(spec.text.as_str())
    } else if !short {
        fts_query(spec.text.as_str())
    } else {
        String::new()
    };
    if mq.as_str().is_empty() && spec.extension.is_none() && spec.minimum_size.is_none()
        && spec.maximum_size.is_none() && !short {
        return Ok(None);
    }
    let minimum = match to_i64_size(spec.minimum_size) {
        Some(m) => m,
        None => return Err(StorageError::FileTooLarge),
    };
    let maximum = match to_i64_size(spec.maximum_size) {
        Some(m) => m,
        None => return Err(StorageError::FileTooLarge),
    };
    let limit: i64 = if requested_limit < 1 {
        1
    } else if requested_limit > 200 {
        200
    } else {
        requested_limit as i64
    };
    let extension_pattern = match &spec.extension {
        Some(e) => {
            let mut p = chars_of("%.");
            append_chars(&mut p, &chars_of(e.as_str()));
            Some(string_from_chars(&p))
        },
        None => None,
    };
    let mut like_patterns: Vec<String> = Vec::new();
    if short {
        let mut k: usize = 0;
        while k < ws.len()
            invariant
                k <= ws.len(),
                chars_views(ws@) == words(text@),
                like_patterns@.map_values(|p: String| p@) == words(text@).take(k as int).map_values(
                    |t: Seq<char>| "%"@ + t + "%"@,
                ),
            decreases ws.len() - k,
        {
            let mut p = chars_of("%");
            append_chars(&mut p, &ws[k]);
            append_chars(&mut p, &chars_of("%"));
            let ghost before = like_patterns@;
            assert(words(text@)[k as int] == ws@[k as int]@);
            let ghost pv = p@;
            assert(pv == "%"@ + words(text@)[k as int] + "%"@);
            like_patterns.push(string_from_chars(&p));
            assert(like_patterns@.map_values(|p: String| p@) =~= before.map_values(|p: String| p@).push(pv));
            k += 1;
            assert(like_patterns@.map_values(|p: String| p@) =~= words(text@).take(k as int).map_values(
                |t: Seq<char>| "%"@ + t + "%"@,
            ));
        }
        assert(words(text@).take(ws.len() as int) =~= words(text@));
    } else {
        assert(like_patterns@.map_values(|p: String| p@) =~= Seq::<Seq<char>>::empty());
    }
    let strategy = if short {
        SearchStrategy::ShortTerms
    } else if mq.as_str().is_empty() {
        SearchStrategy::FiltersOnly
    } else if trigram {
        SearchStrategy::Trigram
    } else {
        SearchStrategy::FullText
    };
    Ok(
        Some(
            SearchPlan {
                strategy,
                match_query: mq,
                like_patterns,
                extension_pattern,
                minimum_size: minimum,
                maximum_size: maximum,
                limit,
            },
        ),
    )
}

/// The indexed record of a file found by its identity.
#[derive(Debug, Clone, PartialEq, Eq)]
pub struct KnownFile {
    pub file_id: String,
    pub current_path: String,
    pub size: i64,
    pub modified_at_ns: i64,
    pub changed_at_ns: i64,
}

/// The identity stored on a record found by its id.
#[derive(Debug, Clone, PartialEq, Eq)]
pub struct StoredIdentity {
    pub platform: String,
    pub volume_id: String,
    pub native_file_id: String,
    pub generation: Option<String>,
}

/// How an observation is written to the index.
#[derive(Debug, Clone, PartialEq, Eq)]
pub enum ReconcileAction {
    /// Update the record found by identity: `moved` closes its path history and
    /// records the new path, `drop_hash_cache` forgets the hashes of changed content.
    UpdateKnown { file_id: String, moved: bool, drop_hash_cache: bool, kind: ReconcileKind },
    /// Look the record up by its id next.
    LookUpById,
}


/// What to do with an observation given the record found by its identity, if any.
pub open spec fn reconcile_action_of(known: Option<KnownFile>, path: Seq<char>, snapshot: FileSnapshot) -> Option<(Seq<char>, bool, bool, ReconcileKind)> {
    match known {
        Some(k) => {
            let moved = k.current_path@ != path;
            let changed = snapshot.size > i64::MAX || k.size != snapshot.size as i64 || k.modified_at_ns
                != snapshot.modified_at_ns || k.changed_at_ns != snapshot.changed_at_ns;
            Some(
                (
                    k.file_id@,
                    moved,
                    changed,
                    if moved {
                        ReconcileKind::Moved
                    } else if changed {
                        ReconcileKind::MetadataUpdated
                    } else {
                        ReconcileKind::Unchanged
                    },
                ),
            )
        },
        None => None,
    }
}

/// Decides how an observation is written, given the record that its identity found:
/// a size beyond `i64::MAX` is refused; a known record is updated, and reported as
/// moved when its path changed, else as updated when its size or times changed.
pub fn reconcile_action(known: Option<KnownFile>, path: &str, snapshot: &FileSnapshot) -> (r: Result<ReconcileAction, StorageError>)
    ensures
        snapshot.size > i64::MAX ==> r matches Err(StorageError::FileTooLarge),
        snapshot.size <= i64::MAX ==> match reconcile_action_of(known, path@, *snapshot) {
            Some((id, moved, changed, kind)) => r matches Ok(ReconcileAction::UpdateKnown { file_id, moved: m, drop_hash_cache: d, kind: k })
                && file_id@ == id && m == moved && d == changed && k == kind,
            None => r matches Ok(ReconcileAction::LookUpById),
        },
{
    if snapshot.size > 0x7fff_ffff_ffff_ffffu64 {
        return Err(StorageError::FileTooLarge);
    }
    let size = snapshot.size as i64;
    match known {
        Some(k) => {
            let p = chars_of(path);
            let c = chars_of(k.current_path.as_str());
            let moved = !crate::text::seq_chars_eq(&c, &p);
            let changed = k.size != size || k.modified_at_ns != snapshot.modified_at_ns
                || k.changed_at_ns != snapshot.changed_at_ns;
            let kind = if moved {
                ReconcileKind::Moved
            } else if changed {
                ReconcileKind::MetadataUpdated
            } else {
                ReconcileKind::Unchanged
            };
            Ok(ReconcileAction::UpdateKnown { file_id: k.file_id, moved, drop_hash_cache: changed, kind })
        },
        None => Ok(ReconcileAction::LookUpById),
    }
}

/// The stored identity differs from the observed one (a generation that is absent
/// reads as empty).
pub open spec fn identity_differs_spec(stored: StoredIdentity, identity: FileIdentity) -> bool {
    stored.platform@ != platform_name(identity.platform) || stored.volume_id@ != identity.volume_id@
        || stored.native_file_id@ != identity.native_file_id@ || opt_or_empty(opt_view(stored.generation))
        != opt_or_empty(opt_view(identity.generation))
}

pub open spec fn opt_or_empty(o: Option<Seq<char>>) -> Seq<char> {
    match o {
        Some(s) => s,
        None => seq![],
    }
}

fn text_or_empty(o: &Option<String>) -> (r: Vec<char>)
    ensures
        r@ == opt_or_empty(opt_view(*o)),
{
    match o {
        Some(s) => chars_of(s.as_str()),
        None => Vec::new(),
    }
}

/// Whether a record found by its id carries another identity than the observed file
/// (a move across volumes, or a new generation).
pub fn identity_differs(stored: &StoredIdentity, identity: &FileIdentity) -> (r: bool)
    ensures
        r == identity_differs_spec(*stored, *identity),
{
    let platform = chars_of(identity.platform.as_str());
    let sp = chars_of(stored.platform.as_str());
    let sv = chars_of(stored.volume_id.as_str());
    let iv = chars_of(identity.volume_id.as_str());
    let sn = chars_of(stored.native_file_id.as_str());
    let inn = chars_of(identity.native_file_id.as_str());
    let sg = text_or_empty(&stored.generation);
    let ig = text_or_empty(&identity.generation);
    !crate::text::seq_chars_eq(&sp, &platform) || !crate::text::seq_chars_eq(&sv, &iv)
        || !crate::text::seq_chars_eq(&sn, &inn) || !crate::text::seq_chars_eq(&sg, &ig)
}

/// The refusal when the observed identity already belongs to another record.
pub open spec fn identity_taken_message(other: Seq<char>) -> Seq<char> {
    "目标身份已被文件 "@ + other + " 占用，跨卷收敛中止"@
}

/// Refuses to move a record onto an identity that another record holds.
pub fn ensure_identity_free(conflict: Option<String>) -> (r: Result<(), StorageError>)
    ensures
        match conflict {
            Some(other) => r matches Err(StorageError::ConstraintViolation(m)) && m@ == identity_taken_message(other@),
            None => r is Ok,
        },
{
    match conflict {
        Some(other) => {
            let mut m = string_from_str("目标身份已被文件 ");
            m.append(other.as_str());
            m.append(" 占用，跨卷收敛中止");
            Err(StorageError::ConstraintViolation(m))
        },
        None => Ok(()),
    }
}

/// Statuses on the way to executing an operation.
pub open spec fn is_forward_status(s: OperationStatus) -> bool {
    s == OperationStatus::Draft || s == OperationStatus::Planned || s
        == OperationStatus::PreflightPassed || s == OperationStatus::IntentLogged || s
        == OperationStatus::Executing
}

/// Statuses in which an operation is over, one way or another.
pub open spec fn is_finished_status(s: OperationStatus) -> bool {
    s == OperationStatus::Completed || s == OperationStatus::RolledBack || s
        == OperationStatus::Cancelled || s == OperationStatus::Failed || s
        == OperationStatus::RecoveryNeeded
}

/// Whether a stored operation may take a new status: a finished operation is never
/// pulled back onto the way to execution; every other change is left to the workflow
/// (undoing a completed operation, for one).
pub fn operation_status_update_allowed(stored: OperationStatus, new: OperationStatus) -> (r: bool)
    ensures
        r == !(is_forward_status(new) && is_finished_status(stored)),
{
    let forward = match new {
        OperationStatus::Draft | OperationStatus::Planned | OperationStatus::PreflightPassed
        | OperationStatus::IntentLogged | OperationStatus::Executing => true,
        _ => false,
    };
    let finished = match stored {
        OperationStatus::Completed | OperationStatus::RolledBack | OperationStatus::Cancelled
        | OperationStatus::Failed | OperationStatus::RecoveryNeeded => true,
        _ => false,
    };
    !(forward && finished)
}

/// The number of files on one page: the requested number, kept between 1 and 500.
pub fn page_limit(requested: usize) -> (r: usize)
    ensures
        r == if requested < 1 {
            1
        } else if requested > 500 {
            500
        } else {
            requested
        },
{
    if requested < 1 {
        1
    } else if requested > 500 {
        500
    } else {
        requested
    }
}

/// A page from up to `limit + 1` rows fetched in (path, id) order: the first `limit`
/// rows, and, when a further row came back, a cursor at the last row kept.
pub fn finish_page(items: Vec<IndexedFile>, limit: usize) -> (r: FilePage)
    requires
        limit >= 1,
    ensures
        r.items@ == if items@.len() > limit { items@.take(limit as int) } else { items@ },
        items@.len() > limit ==> (r.next_cursor matches Some(c) && c.path@
            == items@[limit - 1].current_path@ && c.id@ == items@[limit - 1].id@),
        items@.len() <= limit ==> r.next_cursor is None,
{
    let mut items = items;
    let has_more = items.len() > limit;
    items.truncate(limit);
    if has_more {
        let last = &items[limit - 1];
        let cursor = FilePageCursor {
            path: string_from_str(last.current_path.as_str()),
            id: string_from_str(last.id.as_str()),
        };
        FilePage { items, next_cursor: Some(cursor) }
    } else {
        FilePage { items, next_cursor: None }
    }
}

/// The schema versions that migrations bring a database at `version` through, in
/// order: each version after it up to the supported one. A database newer than this
/// build is refused; a negative version matches no migration.
pub fn migration_plan(version: i64) -> (r: Result<Vec<i64>, StorageError>)
    ensures
        version > SCHEMA_VERSION ==> (r matches Err(StorageError::UnsupportedSchema { found, supported })
            && found == version && supported == SCHEMA_VERSION),
        version < 0 ==> (r matches Ok(v) && v@.len() == 0),
        0 <= version <= SCHEMA_VERSION ==> (r matches Ok(v) && v@.len() == SCHEMA_VERSION - version
            && forall|i: int| 0 <= i < v@.len() ==> #[trigger] v@[i] == version + 1 + i),
{
    if version > SCHEMA_VERSION {
        return Err(StorageError::UnsupportedSchema { found: version, supported: SCHEMA_VERSION });
    }
    let mut steps: Vec<i64> = Vec::new();
    if version < 0 {
        return Ok(steps);
    }
    let mut next: i64 = version + 1;
    while next <= SCHEMA_VERSION
        invariant
            0 <= version <= SCHEMA_VERSION,
            version + 1 <= next <= SCHEMA_VERSION + 1,
            steps@.len() == next - version - 1,
            forall|i: int| 0 <= i < steps@.len() ==> #[trigger] steps@[i] == version + 1 + i,
        decreases SCHEMA_VERSION + 1 - next,
    {
        steps.push(next);
        next += 1;
    }
    Ok(steps)
}

/// A stored feature still describes a file: it was computed for this file, this kind
/// and model version, and the file's current size and times.
pub open spec fn feature_current(f: FileFeature, file: IndexedFile, kind: Seq<char>, version: Seq<char>) -> bool {
    &&& f.file_id@ == file.id@
    &&& f.feature_kind@ == kind
    &&& f.model_version@ == version
    &&& f.size == file.size
    &&& f.modified_at_ns == file.modified_at_ns
    &&& f.changed_at_ns == file.changed_at_ns
}

/// Whether a stored feature may be reused for a file; a file too large for a stored
/// size is refused.
pub fn feature_is_current(
    feature: &FileFeature,
    file: &IndexedFile,
    kind: &str,
    version: &str,
) -> (r: Result<bool, StorageError>)
    ensures
        file.size > i64::MAX ==> (r matches Err(e) && e is InvalidProgress),
        file.size <= i64::MAX ==> r == Ok::<bool, StorageError>(feature_current(*feature, *file, kind@, version@)),
{
    if file.size > i64::MAX as u64 {
        return Err(StorageError::InvalidProgress);
    }
    let same_file = seq_chars_eq(&chars_of(feature.file_id.as_str()), &chars_of(file.id.as_str()));
    let same_kind = seq_chars_eq(&chars_of(feature.feature_kind.as_str()), &chars_of(kind));
    let same_version = seq_chars_eq(&chars_of(feature.model_version.as_str()), &chars_of(version));
    Ok(same_file && same_kind && same_version && feature.size == file.size && feature.modified_at_ns
        == file.modified_at_ns && feature.changed_at_ns == file.changed_at_ns)
}

/// A cached hash still describes a file: it was computed for this file with this
/// algorithm, at the file's current size and times.
pub open spec fn hash_cache_current(c: FileHashCache, file: IndexedFile, algorithm: Seq<char>) -> bool {
    &&& c.file_id@ == file.id@
    &&& c.algorithm@ == algorithm
    &&& c.size == file.size
    &&& c.modified_at_ns == file.modified_at_ns
    &&& c.changed_at_ns == file.changed_at_ns
}

/// Whether a cached hash may be reused for an indexed file of the library; a file too
/// large for a stored size is refused.
pub fn hash_cache_is_current(
    cache: &FileHashCache,
    file: &IndexedFile,
    algorithm: &str,
) -> (r: Result<bool, StorageError>)
    ensures
        file.size > i64::MAX ==> (r matches Err(e) && e is FileTooLarge),
        file.size <= i64::MAX ==> r == Ok::<bool, StorageError>(hash_cache_current(*cache, *file, algorithm@)),
{
    if file.size > i64::MAX as u64 {
        return Err(StorageError::FileTooLarge);
    }
    let same_file = seq_chars_eq(&chars_of(cache.file_id.as_str()), &chars_of(file.id.as_str()));
    let same_algorithm = seq_chars_eq(&chars_of(cache.algorithm.as_str()), &chars_of(algorithm));
    Ok(same_file && same_algorithm && cache.size == file.size && cache.modified_at_ns
        == file.modified_at_ns && cache.changed_at_ns == file.changed_at_ns)
}

/// Statuses of an operation that the startup audit looks at: it logged its intent and
/// did not reach an end.
pub open spec fn awaits_recovery_spec(s: OperationStatus) -> bool {
    s == OperationStatus::IntentLogged || s == OperationStatus::Executing || s
        == OperationStatus::Published || s == OperationStatus::Verified || s
        == OperationStatus::RecoveryNeeded || s == OperationStatus::RollbackPending
}

/// Whether an operation in this status is in the recovery queue.
pub fn awaits_recovery(status: OperationStatus) -> (r: bool)
    ensures
        r == awaits_recovery_spec(status),
{
    match status {
        OperationStatus::IntentLogged | OperationStatus::Executing | OperationStatus::Published
        | OperationStatus::Verified | OperationStatus::RecoveryNeeded
        | OperationStatus::RollbackPending => true,
        _ => false,
    }
}

} // verus!
