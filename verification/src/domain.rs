//! Pure domain model shared by planning, execution and storage.
use vstd::prelude::*;
use crate::text::{chars_of, chars_eq_str, string_from_str};

verus! {

pub const API_VERSION: u32 = 1;

/// Minimal start-up contract between the desktop shell and the core.
#[derive(Debug, Clone, PartialEq, Eq)]
pub struct RuntimeInfo {
    pub api_version: u32,
    pub name: String,
    pub version: String,
    pub offline: bool,
}

impl RuntimeInfo {
    /// The runtime description: current API version, product name, package version, offline.
    pub fn current() -> (r: Self)
        ensures
            r.api_version == API_VERSION,
            r.name@ == "归序"@,
            r.version@ == "0.1.0"@,
            r.offline,
    {
        RuntimeInfo {
            api_version: API_VERSION,
            name: string_from_str("归序"),
            version: string_from_str("0.1.0"),
            offline: true,
        }
    }
}

/// Tagged command result handed to the user interface.
#[derive(Debug, Clone, PartialEq, Eq)]
pub enum CommandResult<T> {
    Success { data: T },
    Error { code: String, message: String },
}

#[derive(Debug, Clone, Copy, PartialEq, Eq, Hash, Structural)]
pub enum Platform {
    MacOs,
    Windows,
    Linux,
    Other,
}

pub open spec fn platform_name(p: Platform) -> Seq<char> {
    match p {
        Platform::MacOs => "macos"@,
        Platform::Windows => "windows"@,
        Platform::Linux => "linux"@,
        Platform::Other => "other"@,
    }
}

impl Platform {
    pub fn as_str(self) -> (s: &'static str)
        ensures
            s@ == platform_name(self),
    {
        match self {
            Platform::MacOs => "macos",
            Platform::Windows => "windows",
            Platform::Linux => "linux",
            Platform::Other => "other",
        }
    }
}

/// Stable identity of a file on a volume.
#[derive(Debug, Clone, PartialEq, Eq, Hash)]
pub struct FileIdentity {
    pub platform: Platform,
    pub volume_id: String,
    pub native_file_id: String,
    pub generation: Option<String>,
}

/// Value view of a file identity.
pub struct IdentityView {
    pub platform: Platform,
    pub volume_id: Seq<char>,
    pub native_file_id: Seq<char>,
    pub generation: Option<Seq<char>>,
}

pub open spec fn opt_view(o: Option<String>) -> Option<Seq<char>> {
    match o {
        Some(s) => Some(s@),
        None => None,
    }
}

impl View for FileIdentity {
    type V = IdentityView;

    open spec fn view(&self) -> IdentityView {
        IdentityView {
            platform: self.platform,
            volume_id: self.volume_id@,
            native_file_id: self.native_file_id@,
            generation: opt_view(self.generation),
        }
    }
}

fn opt_string_eq(a: &Option<String>, b: &Option<String>) -> (r: bool)
    ensures
        r == (opt_view(*a) == opt_view(*b)),
{
    match (a, b) {
        (Some(x), Some(y)) => {
            let xs = chars_of(x.as_str());
            chars_eq_str(&xs, y.as_str())
        },
        (None, None) => true,
        _ => false,
    }
}

impl FileIdentity {
    /// A copy of the identity with the same value.
    pub fn duplicate(&self) -> (r: FileIdentity)
        ensures
            r@ == self@,
    {
        FileIdentity {
            platform: self.platform,
            volume_id: self.volume_id.clone(),
            native_file_id: self.native_file_id.clone(),
            generation: match &self.generation {
                Some(g) => Some(g.clone()),
                None => None,
            },
        }
    }

    /// Compares two identities by value.
    pub fn same_as(&self, other: &FileIdentity) -> (r: bool)
        ensures
            r == (self@ == other@),
    {
        let a = chars_of(self.volume_id.as_str());
        let b = chars_of(self.native_file_id.as_str());
        self.platform == other.platform && chars_eq_str(&a, other.volume_id.as_str())
            && chars_eq_str(&b, other.native_file_id.as_str())
            && opt_string_eq(&self.generation, &other.generation)
    }
}

#[derive(Debug, Clone, PartialEq, Eq)]
pub struct Library {
    pub id: String,
    pub name: String,
    pub created_at_ms: i64,
}

#[derive(Debug, Clone, PartialEq, Eq)]
pub struct LibraryRoot {
    pub id: String,
    pub library_id: String,
    pub path: String,
    pub enabled: bool,
}

/// Size and timestamps observed for a file.
#[derive(Debug, Clone, Copy, PartialEq, Eq, Structural)]
pub struct FileSnapshot {
    pub size: u64,
    pub modified_at_ns: i64,
    pub changed_at_ns: i64,
    pub created_at_ns: Option<i64>,
}

#[derive(Debug, Clone, PartialEq, Eq)]
pub struct FileRecord {
    pub id: String,
    pub library_id: String,
    pub identity: FileIdentity,
    pub current_path: String,
    pub snapshot: FileSnapshot,
}

/// User-initiated file operation kinds.
#[derive(Debug, Clone, Copy, PartialEq, Eq, Hash, Structural)]
pub enum FileOperationKind {
    Organize,
    Rename,
    Move,
    Copy,
    Trash,
}

pub open spec fn operation_kind_name(k: FileOperationKind) -> Seq<char> {
    match k {
        FileOperationKind::Organize => "organize"@,
        FileOperationKind::Rename => "rename"@,
        FileOperationKind::Move => "move"@,
        FileOperationKind::Copy => "copy"@,
        FileOperationKind::Trash => "trash"@,
    }
}

pub open spec fn parse_operation_kind(s: Seq<char>) -> Option<FileOperationKind> {
    if s == "organize"@ {
        Some(FileOperationKind::Organize)
    } else if s == "rename"@ {
        Some(FileOperationKind::Rename)
    } else if s == "move"@ {
        Some(FileOperationKind::Move)
    } else if s == "copy"@ {
        Some(FileOperationKind::Copy)
    } else if s == "trash"@ {
        Some(FileOperationKind::Trash)
    } else {
        None
    }
}

impl FileOperationKind {
    pub fn as_str(self) -> (s: &'static str)
        ensures
            s@ == operation_kind_name(self),
    {
        match self {
            FileOperationKind::Organize => "organize",
            FileOperationKind::Rename => "rename",
            FileOperationKind::Move => "move",
            FileOperationKind::Copy => "copy",
            FileOperationKind::Trash => "trash",
        }
    }

    pub fn parse(value: &str) -> (r: Option<Self>)
        ensures
            r == parse_operation_kind(value@),
    {
        let v = chars_of(value);
        if chars_eq_str(&v, "organize") {
            Some(FileOperationKind::Organize)
        } else if chars_eq_str(&v, "rename") {
            Some(FileOperationKind::Rename)
        } else if chars_eq_str(&v, "move") {
            Some(FileOperationKind::Move)
        } else if chars_eq_str(&v, "copy") {
            Some(FileOperationKind::Copy)
        } else if chars_eq_str(&v, "trash") {
            Some(FileOperationKind::Trash)
        } else {
            None
        }
    }
}

/// Parsing the name of a kind gives the kind back, and a parsed kind prints as the parsed text.
pub proof fn lemma_operation_kind_round_trip(k: FileOperationKind, s: Seq<char>)
    ensures
        parse_operation_kind(operation_kind_name(k)) == Some(k),
        parse_operation_kind(s) == Some(k) ==> operation_kind_name(k) == s,
{
    reveal_strlit("organize");
    reveal_strlit("rename");
    reveal_strlit("move");
    reveal_strlit("copy");
    reveal_strlit("trash");
    assert("organize"@.len() == 8);
    assert("rename"@.len() == 6);
    assert("move"@.len() == 4);
    assert("copy"@.len() == 4);
    assert("trash"@.len() == 5);
    assert("move"@[0] != "copy"@[0]);
}

/// How a target conflict is handled.
#[derive(Debug, Clone, Copy, PartialEq, Eq, Hash, Structural)]
pub enum ConflictPolicy {
    Abort,
    Skip,
    KeepBoth,
}

pub open spec fn conflict_policy_name(p: ConflictPolicy) -> Seq<char> {
    match p {
        ConflictPolicy::Abort => "abort"@,
        ConflictPolicy::Skip => "skip"@,
        ConflictPolicy::KeepBoth => "keep_both"@,
    }
}

pub open spec fn parse_conflict_policy(s: Seq<char>) -> Option<ConflictPolicy> {
    if s == "abort"@ {
        Some(ConflictPolicy::Abort)
    } else if s == "skip"@ {
        Some(ConflictPolicy::Skip)
    } else if s == "keep_both"@ {
        Some(ConflictPolicy::KeepBoth)
    } else {
        None
    }
}

impl ConflictPolicy {
    pub fn as_str(self) -> (s: &'static str)
        ensures
            s@ == conflict_policy_name(self),
    {
        match self {
            ConflictPolicy::Abort => "abort",
            ConflictPolicy::Skip => "skip",
            ConflictPolicy::KeepBoth => "keep_both",
        }
    }

    pub fn parse(value: &str) -> (r: Option<Self>)
        ensures
            r == parse_conflict_policy(value@),
    {
        let v = chars_of(value);
        if chars_eq_str(&v, "abort") {
            Some(ConflictPolicy::Abort)
        } else if chars_eq_str(&v, "skip") {
            Some(ConflictPolicy::Skip)
        } else if chars_eq_str(&v, "keep_both") {
            Some(ConflictPolicy::KeepBoth)
        } else {
            None
        }
    }
}

/// Parsing the name of a policy gives the policy back, and a parsed policy prints as the parsed text.
pub proof fn lemma_conflict_policy_round_trip(p: ConflictPolicy, s: Seq<char>)
    ensures
        parse_conflict_policy(conflict_policy_name(p)) == Some(p),
        parse_conflict_policy(s) == Some(p) ==> conflict_policy_name(p) == s,
{
    reveal_strlit("abort");
    reveal_strlit("skip");
    reveal_strlit("keep_both");
    assert("abort"@.len() == 5);
    assert("skip"@.len() == 4);
    assert("keep_both"@.len() == 9);
}

#[derive(Debug, Clone, Copy, PartialEq, Eq, Structural)]
pub enum PlanStatus {
    Draft,
    Ready,
    Expired,
    Executing,
    Completed,
    Cancelled,
}

#[derive(Debug, Clone, PartialEq, Eq)]
pub struct Plan {
    pub id: String,
    pub library_id: String,
    pub operation_kind: FileOperationKind,
    pub conflict_policy: ConflictPolicy,
    pub status: PlanStatus,
    pub created_at_ms: i64,
    pub expires_at_ms: i64,
}

#[derive(Debug, Clone, Copy, PartialEq, Eq, Structural)]
pub enum OperationStatus {
    Draft,
    Planned,
    PreflightPassed,
    IntentLogged,
    Executing,
    Published,
    Verified,
    Completed,
    Conflict,
    Failed,
    Cancelled,
    RecoveryNeeded,
    RollbackPending,
    RolledBack,
}

#[derive(Debug, Clone, PartialEq, Eq)]
pub struct Operation {
    pub id: String,
    pub plan_id: String,
    pub status: OperationStatus,
    pub created_at_ms: i64,
}

#[derive(Debug, Clone, Copy, PartialEq, Eq, Structural)]
pub enum JobStatus {
    Queued,
    Running,
    PauseRequested,
    Paused,
    CancelRequested,
    Completed,
    Failed,
    Cancelled,
}

#[derive(Debug, Clone, PartialEq, Eq)]
pub struct Job {
    pub id: String,
    pub kind: String,
    pub status: JobStatus,
    pub progress_current: u64,
    pub progress_total: Option<u64>,
    pub created_at_ms: i64,
}

} // verus!
