//! Safe file-operation rules: the operation state machine, name validation,
//! preflight and rename planning over observed filesystem facts, and crash recovery
//! decisions.
use vstd::prelude::*;
use crate::domain::{
    operation_kind_name, FileIdentity, FileOperationKind, FileSnapshot, IdentityView,
    OperationStatus,
};
use crate::text::{
    char_is_control, char_is_whitespace, chars_eq_str, chars_of, is_control, is_white_space,
    seq_chars_eq, string_from_str, append_decimal, int_decimal, append_chars, string_from_chars, nfc_lower, nfc_lowercase, holds_chars, utf8_size, utf8_size_of, ascii_upper, char_ascii_upper,
    char_utf8_len,
};
use crate::paths::{
    components, contained, file_name, is_rooted, join_path, parent_of, path_components,
    path_contained, path_eq, path_join, path_key, path_key_of, path_parent, path_starts_with,
    same_path, starts_with, file_name_of, strip_prefix_of, path_strip_prefix, Component,
};
use crate::platform::{ObserveError, ObservedFile};
use crate::storage::StorageError;
use crate::digest::{blake3_digest, blake3_of};
use crate::domain::platform_name;
use crate::order::{is_stable_key_order, keys_view, sort_positions_by_key};

verus! {

/// A fault-injection point; a no-op in production builds.
pub fn fault_point(_name: &str) {
}

/// Legal steps of the durable operation state machine.
pub open spec fn valid_transition(current: OperationStatus, next: OperationStatus) -> bool {
    match (current, next) {
        (OperationStatus::Draft, OperationStatus::Planned) => true,
        (OperationStatus::Planned, OperationStatus::PreflightPassed) => true,
        (OperationStatus::Planned, OperationStatus::Conflict) => true,
        (OperationStatus::Planned, OperationStatus::Cancelled) => true,
        (OperationStatus::PreflightPassed, OperationStatus::IntentLogged) => true,
        (OperationStatus::PreflightPassed, OperationStatus::Conflict) => true,
        (OperationStatus::PreflightPassed, OperationStatus::Cancelled) => true,
        (OperationStatus::IntentLogged, OperationStatus::Executing) => true,
        (OperationStatus::IntentLogged, OperationStatus::RecoveryNeeded) => true,
        (OperationStatus::Executing, OperationStatus::Published) => true,
        (OperationStatus::Executing, OperationStatus::Failed) => true,
        (OperationStatus::Executing, OperationStatus::RecoveryNeeded) => true,
        (OperationStatus::Published, OperationStatus::Verified) => true,
        (OperationStatus::Published, OperationStatus::RecoveryNeeded) => true,
        (OperationStatus::Verified, OperationStatus::Completed) => true,
        (OperationStatus::Verified, OperationStatus::RollbackPending) => true,
        (OperationStatus::Completed, OperationStatus::RollbackPending) => true,
        (OperationStatus::RollbackPending, OperationStatus::RolledBack) => true,
        (OperationStatus::RollbackPending, OperationStatus::RecoveryNeeded) => true,
        (OperationStatus::RollbackPending, OperationStatus::Failed) => true,
        (OperationStatus::RecoveryNeeded, OperationStatus::Executing) => true,
        (OperationStatus::RecoveryNeeded, OperationStatus::RollbackPending) => true,
        (OperationStatus::RecoveryNeeded, OperationStatus::Failed) => true,
        _ => false,
    }
}

/// A refused state transition.
#[derive(Debug, Clone, Copy, PartialEq, Eq, Structural)]
pub struct InvalidTransition {
    pub from: OperationStatus,
    pub to: OperationStatus,
}

/// Advances the operation state machine, refusing any step that skips a durability stage.
pub fn transition(current: OperationStatus, next: OperationStatus) -> (r: Result<
    OperationStatus,
    InvalidTransition,
>)
    ensures
        valid_transition(current, next) ==> r == Ok::<OperationStatus, InvalidTransition>(next),
        !valid_transition(current, next) ==> r == Err::<OperationStatus, InvalidTransition>(
            InvalidTransition { from: current, to: next },
        ),
{
    let valid = match (current, next) {
        (OperationStatus::Draft, OperationStatus::Planned) => true,
        (OperationStatus::Planned, OperationStatus::PreflightPassed) => true,
        (OperationStatus::Planned, OperationStatus::Conflict) => true,
        (OperationStatus::Planned, OperationStatus::Cancelled) => true,
        (OperationStatus::PreflightPassed, OperationStatus::IntentLogged) => true,
        (OperationStatus::PreflightPassed, OperationStatus::Conflict) => true,
        (OperationStatus::PreflightPassed, OperationStatus::Cancelled) => true,
        (OperationStatus::IntentLogged, OperationStatus::Executing) => true,
        (OperationStatus::IntentLogged, OperationStatus::RecoveryNeeded) => true,
        (OperationStatus::Executing, OperationStatus::Published) => true,
        (OperationStatus::Executing, OperationStatus::Failed) => true,
        (OperationStatus::Executing, OperationStatus::RecoveryNeeded) => true,
        (OperationStatus::Published, OperationStatus::Verified) => true,
        (OperationStatus::Published, OperationStatus::RecoveryNeeded) => true,
        (OperationStatus::Verified, OperationStatus::Completed) => true,
        (OperationStatus::Verified, OperationStatus::RollbackPending) => true,
        (OperationStatus::Completed, OperationStatus::RollbackPending) => true,
        (OperationStatus::RollbackPending, OperationStatus::RolledBack) => true,
        (OperationStatus::RollbackPending, OperationStatus::RecoveryNeeded) => true,
        (OperationStatus::RollbackPending, OperationStatus::Failed) => true,
        (OperationStatus::RecoveryNeeded, OperationStatus::Executing) => true,
        (OperationStatus::RecoveryNeeded, OperationStatus::RollbackPending) => true,
        (OperationStatus::RecoveryNeeded, OperationStatus::Failed) => true,
        _ => false,
    };
    if valid {
        Ok(next)
    } else {
        Err(InvalidTransition { from: current, to: next })
    }
}

/// Terminal outcomes admit no further step: rolled-back, failed, cancelled and
/// conflicting operations stay where they are.
pub proof fn lemma_terminal_statuses_are_final(next: OperationStatus)
    ensures
        !valid_transition(OperationStatus::RolledBack, next),
        !valid_transition(OperationStatus::Failed, next),
        !valid_transition(OperationStatus::Cancelled, next),
        !valid_transition(OperationStatus::Conflict, next),
{
}

/// Durability steps cannot be skipped: execution starts only after the intent is
/// logged (or from recovery), the intent is logged only after preflight, and an
/// operation completes only from a verified state.
pub proof fn lemma_durability_steps_cannot_be_skipped(current: OperationStatus)
    ensures
        valid_transition(current, OperationStatus::Executing) ==> (current
            == OperationStatus::IntentLogged || current == OperationStatus::RecoveryNeeded),
        valid_transition(current, OperationStatus::IntentLogged) ==> current
            == OperationStatus::PreflightPassed,
        valid_transition(current, OperationStatus::Completed) ==> current
            == OperationStatus::Verified,
        valid_transition(current, OperationStatus::RolledBack) ==> current
            == OperationStatus::RollbackPending,
{
}

/// The steps of the operation lifecycle are accepted: a draft is planned, preflighted,
/// its intent logged, executed, published, verified and completed; a completed or
/// verified operation, or one that needs recovery, may be rolled back, and a pending
/// rollback may finish; an operation that needs recovery may resume executing.
pub proof fn lemma_lifecycle_steps_are_accepted()
    ensures
        valid_transition(OperationStatus::Draft, OperationStatus::Planned),
        valid_transition(OperationStatus::Planned, OperationStatus::PreflightPassed),
        valid_transition(OperationStatus::PreflightPassed, OperationStatus::IntentLogged),
        valid_transition(OperationStatus::IntentLogged, OperationStatus::Executing),
        valid_transition(OperationStatus::Executing, OperationStatus::Published),
        valid_transition(OperationStatus::Published, OperationStatus::Verified),
        valid_transition(OperationStatus::Verified, OperationStatus::Completed),
        valid_transition(OperationStatus::Completed, OperationStatus::RollbackPending),
        valid_transition(OperationStatus::Verified, OperationStatus::RollbackPending),
        valid_transition(OperationStatus::RecoveryNeeded, OperationStatus::RollbackPending),
        valid_transition(OperationStatus::RollbackPending, OperationStatus::RolledBack),
        valid_transition(OperationStatus::RecoveryNeeded, OperationStatus::Executing),
{
}

/// Every operation that an undo admits (its stored status is `completed` or
/// `recovery_needed`) may step to a pending rollback.
pub proof fn lemma_undoable_operations_may_roll_back(status: OperationStatus)
    requires
        crate::storage::operation_status_name(status) == "completed"@
            || crate::storage::operation_status_name(status) == "recovery_needed"@,
    ensures
        valid_transition(status, OperationStatus::RollbackPending),
{
    reveal_strlit("draft");
    reveal_strlit("planned");
    reveal_strlit("preflight_passed");
    reveal_strlit("intent_logged");
    reveal_strlit("executing");
    reveal_strlit("published");
    reveal_strlit("verified");
    reveal_strlit("completed");
    reveal_strlit("conflict");
    reveal_strlit("failed");
    reveal_strlit("cancelled");
    reveal_strlit("recovery_needed");
    reveal_strlit("rollback_pending");
    reveal_strlit("rolled_back");
    let name = crate::storage::operation_status_name(status);
    if status != OperationStatus::Completed && status != OperationStatus::RecoveryNeeded {
        assert(name != "completed"@ && name != "recovery_needed"@) by {
            assert(name.len() != "completed"@.len() || name[0] != "completed"@[0] || name[1]
                != "completed"@[1]);
            assert(name.len() != "recovery_needed"@.len() || name[0] != "recovery_needed"@[0] || name[2]
                != "recovery_needed"@[2]);
        }
    }
}

/// Every status but the four final ones (rolled back, failed, cancelled, conflict) has
/// a step onwards.
pub proof fn lemma_unfinished_statuses_can_advance(current: OperationStatus)
    requires
        current != OperationStatus::RolledBack,
        current != OperationStatus::Failed,
        current != OperationStatus::Cancelled,
        current != OperationStatus::Conflict,
    ensures
        exists|next: OperationStatus| #[trigger] valid_transition(current, next),
{
    let next = match current {
        OperationStatus::Draft => OperationStatus::Planned,
        OperationStatus::Planned => OperationStatus::PreflightPassed,
        OperationStatus::PreflightPassed => OperationStatus::IntentLogged,
        OperationStatus::IntentLogged => OperationStatus::Executing,
        OperationStatus::Executing => OperationStatus::Published,
        OperationStatus::Published => OperationStatus::Verified,
        OperationStatus::Verified => OperationStatus::Completed,
        OperationStatus::Completed => OperationStatus::RollbackPending,
        OperationStatus::RollbackPending => OperationStatus::RolledBack,
        _ => OperationStatus::Executing,
    };
    assert(valid_transition(current, next));
}

/// The error message of a plan whose kind differs from the command's.
pub open spec fn plan_kind_mismatch_message(
    actual: FileOperationKind,
    expected: FileOperationKind,
) -> Seq<char> {
    "计划类型不匹配：期望 "@ + operation_kind_name(expected) + "，实际 "@ + operation_kind_name(
        actual,
    )
}

/// Each plan-execution command accepts only plans of its own kind.
pub fn ensure_plan_kind(actual: FileOperationKind, expected: FileOperationKind) -> (r: Result<
    (),
    String,
>)
    ensures
        actual == expected ==> r is Ok,
        actual != expected ==> (r matches Err(m) && m@ == plan_kind_mismatch_message(actual, expected)),
{
    if actual == expected {
        Ok(())
    } else {
        let mut m = string_from_str("计划类型不匹配：期望 ");
        m.append(expected.as_str());
        m.append("，实际 ");
        m.append(actual.as_str());
        Err(m)
    }
}


/// Characters that are unsafe in a file name on at least one platform.
pub open spec fn is_unsafe_name_char(c: char) -> bool {
    is_control(c) || c == '<' || c == '>' || c == ':' || c == '"' || c == '/' || c == '\\' || c
        == '|' || c == '?' || c == '*'
}

/// `k` is where the part of `s` before its first `.` ends.
pub open spec fn is_base_end(s: Seq<char>, k: int) -> bool {
    &&& 0 <= k <= s.len()
    &&& forall|j: int| 0 <= j < k ==> s[j] != '.'
    &&& (k == s.len() || s[k] == '.')
}

/// The part of a name before its first `.`, in ASCII upper case.
pub open spec fn name_base(s: Seq<char>) -> Seq<char> {
    let k = choose|k: int| is_base_end(s, k);
    s.take(k).map_values(|c: char| ascii_upper(c))
}

/// Device names that Windows reserves.
pub open spec fn is_reserved_base(b: Seq<char>) -> bool {
    ||| b == "CON"@
    ||| b == "PRN"@
    ||| b == "AUX"@
    ||| b == "NUL"@
    ||| (b.len() == 4 && (b.take(3) == "COM"@ || b.take(3) == "LPT"@) && '1' <= b[3] && b[3] <= '9')
}

/// Some prefix of `s` takes exactly `n` bytes in UTF-8.
pub open spec fn has_byte_boundary(s: Seq<char>, n: nat) -> bool {
    exists|k: int| 0 <= k <= s.len() && utf8_size(#[trigger] s.take(k)) == n
}

/// What is wrong with a proposed file name, if anything.
pub open spec fn name_problem(name: Seq<char>) -> Option<Seq<char>> {
    if name.len() == 0 {
        Some("名称不能为空"@)
    } else if is_white_space(name[0]) || is_white_space(name.last()) {
        Some("名称首尾不能包含空白字符"@)
    } else if utf8_size(name) > 255 {
        Some("名称超过 255 字节限制"@)
    } else if file_name(name) != Some(name) || path_components(name).len() != 1 {
        Some("名称不能包含路径分隔符或相对路径"@)
    } else if exists|i: int| 0 <= i < name.len() && is_unsafe_name_char(#[trigger] name[i]) {
        Some("名称包含跨平台不安全字符"@)
    } else if name.last() == '.' {
        Some("名称不能以句点结尾"@)
    } else if is_reserved_base(name_base(name)) {
        Some("名称是系统保留名称"@)
    } else {
        None
    }
}

/// The name passes every check that comes before the reserved-name test.
pub open spec fn early_checks_pass(name: Seq<char>) -> bool {
    &&& name.len() > 0
    &&& !is_white_space(name[0]) && !is_white_space(name.last())
    &&& utf8_size(name) <= 255
    &&& file_name(name) == Some(name) && path_components(name).len() == 1
    &&& forall|i: int| 0 <= i < name.len() ==> !is_unsafe_name_char(#[trigger] name[i])
    &&& name.last() != '.'
}

/// The name passes every check before the reserved-name test, and that test would cut
/// its four-byte base inside a character.
pub open spec fn name_check_splits_char(name: Seq<char>) -> bool {
    &&& early_checks_pass(name)
    &&& utf8_size(name_base(name)) == 4
    &&& !has_byte_boundary(name_base(name), 3)
}

fn char_is_unsafe_in_name(c: char) -> (r: bool)
    ensures
        r == is_unsafe_name_char(c),
{
    char_is_control(c) || c == '<' || c == '>' || c == ':' || c == '"' || c == '/' || c == '\\'
        || c == '|' || c == '?' || c == '*'
}

fn has_unsafe_char(v: &Vec<char>) -> (r: bool)
    ensures
        r == exists|i: int| 0 <= i < v@.len() && is_unsafe_name_char(#[trigger] v@[i]),
{
    let mut i: usize = 0;
    while i < v.len()
        invariant
            i <= v.len(),
            forall|j: int| 0 <= j < i ==> !is_unsafe_name_char(#[trigger] v@[j]),
        decreases v.len() - i,
    {
        if char_is_unsafe_in_name(v[i]) {
            assert(is_unsafe_name_char(v@[i as int]));
            return true;
        }
        i += 1;
    }
    false
}

/// Whether some prefix of `s` is exactly `n` bytes long.
fn byte_boundary_at(s: &Vec<char>, n: usize) -> (r: bool)
    ensures
        r == has_byte_boundary(s@, n as nat),
{
    let mut total: usize = 0;
    let mut i: usize = 0;
    assert(s@.take(0) =~= seq![]);
    while i < s.len()
        invariant
            i <= s.len(),
            total as nat == utf8_size(s@.take(i as int)),
            total <= n,
            forall|k: int| 0 <= k < i ==> utf8_size(#[trigger] s@.take(k)) < n,
        decreases s.len() - i,
    {
        if total == n {
            assert(utf8_size(s@.take(i as int)) == n);
            return true;
        }
        proof {
            assert(s@.take(i + 1) =~= s@.take(i as int).push(s@[i as int]));
            crate::text::lemma_utf8_size_push(s@.take(i as int), s@[i as int]);
        }
        let l = char_utf8_len(s[i]);
        if l > n - total {
            assert forall|k: int| 0 <= k <= s.len() implies utf8_size(#[trigger] s@.take(k)) != n by {
                if k > i {
                    lemma_utf8_size_monotone(s@, i + 1, k);
                }
            }
            return false;
        }
        total = total + l;
        i += 1;
    }
    if total == n {
        assert(s@.take(s.len() as int) =~= s@.take(i as int));
        return true;
    }
    false
}

proof fn lemma_utf8_size_monotone(s: Seq<char>, a: int, b: int)
    requires
        0 <= a <= b <= s.len(),
    ensures
        utf8_size(s.take(a)) <= utf8_size(s.take(b)),
    decreases b - a,
{
    if a < b {
        lemma_utf8_size_monotone(s, a, b - 1);
        assert(s.take(b) =~= s.take(b - 1).push(s[b - 1]));
        crate::text::lemma_utf8_size_push(s.take(b - 1), s[b - 1]);
    }
}

/// The base of a name that passes the checks before the reserved-name test, or the
/// first check that it fails.
fn checked_name_base(name: &str) -> (r: Result<Vec<char>, &'static str>)
    ensures
        match r {
            Ok(b) => early_checks_pass(name@) && b@ == name_base(name@),
            Err(m) => !early_checks_pass(name@) && name_problem(name@) == Some(m@),
        },
{
    let v = chars_of(name);
    if v.len() == 0 {
        return Err("名称不能为空");
    }
    if char_is_whitespace(v[0]) || char_is_whitespace(v[v.len() - 1]) {
        return Err("名称首尾不能包含空白字符");
    }
    if utf8_size_of(&v) > 255 {
        return Err("名称超过 255 字节限制");
    }
    let comps = components(&v);
    proof {
        crate::paths::lemma_file_name_single(v@);
    }
    if comps.len() != 1 {
        return Err("名称不能包含路径分隔符或相对路径");
    }
    let single = match &comps[0] {
        Component::Normal(n) => seq_chars_eq(n, &v),
        _ => false,
    };
    assert(crate::paths::comps_view(comps@)[0] == comps@[0]@);
    if !single {
        return Err("名称不能包含路径分隔符或相对路径");
    }
    assert(file_name(v@) == Some(v@));
    assert(path_components(v@).len() == 1);
    if has_unsafe_char(&v) {
        return Err("名称包含跨平台不安全字符");
    }
    if v[v.len() - 1] == '.' {
        return Err("名称不能以句点结尾");
    }
    let mut k: usize = 0;
    while k < v.len() && v[k] != '.'
        invariant
            k <= v.len(),
            forall|j: int| 0 <= j < k ==> v@[j] != '.',
        decreases v.len() - k,
    {
        k += 1;
    }
    proof {
        assert(is_base_end(v@, k as int));
        let c = choose|c: int| is_base_end(v@, c);
        if c < k {
            assert(v@[c] != '.');
        }
        if c > k {
            assert(v@[k as int] == '.');
        }
        assert(c == k);
    }
    let mut base: Vec<char> = Vec::new();
    let mut j: usize = 0;
    while j < k
        invariant
            j <= k <= v.len(),
            base@ == v@.take(j as int).map_values(|c: char| ascii_upper(c)),
        decreases k - j,
    {
        base.push(char_ascii_upper(v[j]));
        j += 1;
        assert(v@.take(j as int).map_values(|c: char| ascii_upper(c)) =~= v@.take(j - 1).map_values(
            |c: char| ascii_upper(c),
        ).push(ascii_upper(v@[j - 1])));
    }
    assert(base@ == name_base(v@));
    Ok(base)
}

/// Whether checking the name would cut its four-byte base inside a character.
pub fn name_check_splits(name: &str) -> (r: bool)
    ensures
        r == name_check_splits_char(name@),
{
    match checked_name_base(name) {
        Err(_) => false,
        Ok(base) => utf8_size_of(&base) == 4 && !byte_boundary_at(&base, 3),
    }
}

/// Checks that a proposed file name is a single, portable path component.
pub fn validate_file_name(name: &str) -> (r: Result<(), &'static str>)
    requires
        !name_check_splits_char(name@),
    ensures
        match r {
            Ok(()) => name_problem(name@) is None,
            Err(m) => name_problem(name@) == Some(m@),
        },
{
    let base = match checked_name_base(name) {
        Ok(b) => b,
        Err(m) => return Err(m),
    };
    proof {
        reveal_strlit("CON");
        reveal_strlit("PRN");
        reveal_strlit("AUX");
        reveal_strlit("NUL");
        reveal_strlit("COM");
        reveal_strlit("LPT");
    }
    let mut reserved = chars_eq_str(&base, "CON") || chars_eq_str(&base, "PRN") || chars_eq_str(
        &base,
        "AUX",
    ) || chars_eq_str(&base, "NUL");
    if !reserved && utf8_size_of(&base) == 4 {
        let boundary = byte_boundary_at(&base, 3);
        assert(boundary);
        if base.len() == 4 {
            let head = vec![base[0], base[1], base[2]];
            assert(head@ =~= base@.take(3));
            reserved = (chars_eq_str(&head, "COM") || chars_eq_str(&head, "LPT")) && '1' <= base[3]
                && base[3] <= '9';
        }
    }
    proof {
        if base@.len() == 4 && (base@.take(3) == "COM"@ || base@.take(3) == "LPT"@) {
            assert(base@ =~= base@.take(3).push(base@[3]));
            crate::text::lemma_utf8_size_push(base@.take(3), base@[3]);
            assert(base@.take(3) =~= seq![base@[0], base@[1], base@[2]]);
            reveal_with_fuel(utf8_size, 4);
            assert(seq![base@[0], base@[1], base@[2]].drop_last() =~= seq![base@[0], base@[1]]);
            assert(seq![base@[0], base@[1]].drop_last() =~= seq![base@[0]]);
            assert(seq![base@[0]].drop_last() =~= Seq::<char>::empty());
            assert(utf8_size(base@.take(3)) == 3);
        }
    }
    if reserved {
        return Err("名称是系统保留名称");
    }
    Ok(())
}


/// A move or copy that was planned against an observed source.
#[derive(Debug, Clone, PartialEq, Eq)]
pub struct MoveIntent {
    pub root: String,
    pub source: String,
    pub target: String,
    pub expected_identity: FileIdentity,
    pub expected_snapshot: FileSnapshot,
}

/// Why a planned move may not run.
#[derive(Debug)]
pub enum PreflightError {
    OutsideRoot,
    TargetExists,
    IdentityChanged,
    SnapshotChanged,
    Observe(ObserveError),
    Io(std::io::Error),
}

/// What the filesystem showed when a move was checked: the canonical root and source,
/// the canonical form of the nearest existing ancestor of the target's parent, whether
/// the target exists (and, if so, the source and target canonicalized once more), and
/// the observed source file.
#[derive(Debug)]
pub struct PreflightFacts {
    pub canonical_root: Result<String, std::io::Error>,
    pub canonical_source: Result<String, std::io::Error>,
    pub target_ancestor: Result<String, std::io::Error>,
    pub target_exists: bool,
    pub source_recheck: Option<String>,
    pub canonical_target: Option<String>,
    pub observed_source: Result<ObservedFile, ObserveError>,
}

/// An existing target is accepted only when it is the source itself (a rename that
/// changes case or Unicode normalization only).
pub open spec fn same_existing_file(a: Option<String>, b: Option<String>) -> bool {
    a is Some && b is Some && path_eq(a->0@, b->0@)
}

/// The outcome of checking a move of a file with the given identity and snapshot to
/// `target` under `root`.
pub open spec fn preflight_result(
    root: Seq<char>,
    target: Seq<char>,
    identity: IdentityView,
    snapshot: FileSnapshot,
    facts: PreflightFacts,
) -> Result<(), PreflightError> {
    match facts.canonical_root {
        Err(e) => Err(PreflightError::Io(e)),
        Ok(croot) => match facts.canonical_source {
            Err(e) => Err(PreflightError::Io(e)),
            Ok(source) => if path_parent(target) is None || !is_rooted(target) || !path_starts_with(
                target,
                root,
            ) {
                Err(PreflightError::OutsideRoot)
            } else {
                match facts.target_ancestor {
                    Err(e) => Err(PreflightError::Io(e)),
                    Ok(ancestor) => if !path_contained(source@, croot@) || !path_contained(
                        ancestor@,
                        croot@,
                    ) {
                        Err(PreflightError::OutsideRoot)
                    } else if facts.target_exists && !same_existing_file(
                        facts.source_recheck,
                        facts.canonical_target,
                    ) {
                        Err(PreflightError::TargetExists)
                    } else {
                        match facts.observed_source {
                            Err(e) => Err(PreflightError::Observe(e)),
                            Ok(o) => if o.identity@ != identity {
                                Err(PreflightError::IdentityChanged)
                            } else if o.snapshot != snapshot {
                                Err(PreflightError::SnapshotChanged)
                            } else {
                                Ok(())
                            },
                        }
                    },
                }
            },
        },
    }
}

/// A move passes preflight only while its source is exactly the planned file: observed,
/// with the planned identity and a snapshot equal to the planned one in size,
/// modification, change and creation time. A move that would pass if planned against
/// what the source shows now, but was planned against any other snapshot (the same size
/// edited in place, say), is refused as a changed snapshot.
pub proof fn lemma_preflight_requires_an_unchanged_source(
    root: Seq<char>,
    target: Seq<char>,
    identity: IdentityView,
    snapshot: FileSnapshot,
    facts: PreflightFacts,
)
    ensures
        preflight_result(root, target, identity, snapshot, facts) is Ok ==> (facts.observed_source matches Ok(o)
            && o.identity@ == identity && o.snapshot.size == snapshot.size
            && o.snapshot.modified_at_ns == snapshot.modified_at_ns
            && o.snapshot.changed_at_ns == snapshot.changed_at_ns
            && o.snapshot.created_at_ns == snapshot.created_at_ns),
        facts.observed_source matches Ok(o) && preflight_result(root, target, identity, o.snapshot, facts) is Ok
            && (o.snapshot.size != snapshot.size || o.snapshot.modified_at_ns != snapshot.modified_at_ns
            || o.snapshot.changed_at_ns != snapshot.changed_at_ns || o.snapshot.created_at_ns
            != snapshot.created_at_ns) ==> preflight_result(root, target, identity, snapshot, facts) matches Err(
            PreflightError::SnapshotChanged,
        ),
{
}

/// A move passes preflight only with both ends inside the authorized root and a free
/// target: the target path is absolute, has a parent and lies under the root as
/// written; the canonical source and the nearest existing ancestor of the target lie
/// inside the canonical root; and an existing target is accepted only when it is the
/// source itself.
pub proof fn lemma_preflight_keeps_moves_inside_the_root(
    root: Seq<char>,
    target: Seq<char>,
    identity: IdentityView,
    snapshot: FileSnapshot,
    facts: PreflightFacts,
)
    ensures
        preflight_result(root, target, identity, snapshot, facts) is Ok ==> {
            &&& is_rooted(target)
            &&& path_parent(target) is Some
            &&& path_starts_with(target, root)
            &&& facts.canonical_root matches Ok(croot)
            &&& facts.canonical_source matches Ok(source)
            &&& facts.target_ancestor matches Ok(ancestor)
            &&& path_contained(source@, croot@)
            &&& path_contained(ancestor@, croot@)
            &&& facts.target_exists ==> same_existing_file(facts.source_recheck, facts.canonical_target)
        },
{
}

/// Checks a planned move against what the filesystem shows now: both ends inside the
/// authorized root, no existing target, and a source that is still the planned file.
pub fn preflight(intent: &MoveIntent, facts: PreflightFacts) -> (r: Result<(), PreflightError>)
    ensures
        r == preflight_result(
            intent.root@,
            intent.target@,
            intent.expected_identity@,
            intent.expected_snapshot,
            facts,
        ),
{
    let PreflightFacts {
        canonical_root,
        canonical_source,
        target_ancestor,
        target_exists,
        source_recheck,
        canonical_target,
        observed_source,
    } = facts;
    let croot = match canonical_root {
        Ok(r) => r,
        Err(e) => return Err(PreflightError::Io(e)),
    };
    let source = match canonical_source {
        Ok(s) => s,
        Err(e) => return Err(PreflightError::Io(e)),
    };
    let target = chars_of(intent.target.as_str());
    let root = chars_of(intent.root.as_str());
    let parent = parent_of(&target);
    if parent.is_none() || !(target.len() > 0 && target[0] == '/') || !starts_with(&target, &root) {
        return Err(PreflightError::OutsideRoot);
    }
    let ancestor = match target_ancestor {
        Ok(a) => a,
        Err(e) => return Err(PreflightError::Io(e)),
    };
    let croot_v = chars_of(croot.as_str());
    let source_v = chars_of(source.as_str());
    let ancestor_v = chars_of(ancestor.as_str());
    if !contained(&source_v, &croot_v) || !contained(&ancestor_v, &croot_v) {
        return Err(PreflightError::OutsideRoot);
    }
    if target_exists {
        let same = match (&source_recheck, &canonical_target) {
            (Some(a), Some(b)) => {
                let av = chars_of(a.as_str());
                let bv = chars_of(b.as_str());
                same_path(&av, &bv)
            },
            _ => false,
        };
        if !same {
            return Err(PreflightError::TargetExists);
        }
    }
    let observed = match observed_source {
        Ok(o) => o,
        Err(e) => return Err(PreflightError::Observe(e)),
    };
    if !observed.identity.same_as(&intent.expected_identity) {
        return Err(PreflightError::IdentityChanged);
    }
    if observed.snapshot != intent.expected_snapshot {
        return Err(PreflightError::SnapshotChanged);
    }
    Ok(())
}

/// A request to give one indexed file a new name in its directory.
#[derive(Debug, Clone, PartialEq, Eq)]
pub struct RenameRequest {
    pub file_id: String,
    pub source: String,
    pub new_name: String,
    pub expected_identity: FileIdentity,
    pub expected_snapshot: FileSnapshot,
}

/// One checked step of a rename plan.
#[derive(Debug, Clone, PartialEq, Eq)]
pub struct PlannedRename {
    pub file_id: String,
    pub source: String,
    pub target: String,
    pub expected_identity: FileIdentity,
    pub expected_snapshot: FileSnapshot,
}

/// Value view of a planned step.
pub struct PlannedView {
    pub file_id: Seq<char>,
    pub source: Seq<char>,
    pub target: Seq<char>,
    pub identity: IdentityView,
    pub snapshot: FileSnapshot,
}

impl View for PlannedRename {
    type V = PlannedView;

    open spec fn view(&self) -> PlannedView {
        PlannedView {
            file_id: self.file_id@,
            source: self.source@,
            target: self.target@,
            identity: self.expected_identity@,
            snapshot: self.expected_snapshot,
        }
    }
}

impl PlannedRename {
    pub fn duplicate(&self) -> (r: PlannedRename)
        ensures
            r@ == self@,
    {
        PlannedRename {
            file_id: self.file_id.clone(),
            source: self.source.clone(),
            target: self.target.clone(),
            expected_identity: self.expected_identity.duplicate(),
            expected_snapshot: self.expected_snapshot,
        }
    }
}

/// Why a rename plan was refused.
#[derive(Debug)]
pub enum RenamePlanError {
    Empty,
    InvalidName { file_id: String, reason: &'static str },
    Unchanged { file_id: String },
    DuplicateTarget { target: String },
    Preflight { file_id: String, source: PreflightError },
    Io(std::io::Error),
}

/// Value view of a rename plan refusal.
pub enum RenamePlanFault {
    Empty,
    InvalidName(Seq<char>, Seq<char>),
    Unchanged(Seq<char>),
    DuplicateTarget(Seq<char>),
    Preflight(Seq<char>, PreflightError),
    Io(std::io::Error),
}

impl View for RenamePlanError {
    type V = RenamePlanFault;

    open spec fn view(&self) -> RenamePlanFault {
        match self {
            RenamePlanError::Empty => RenamePlanFault::Empty,
            RenamePlanError::InvalidName { file_id, reason } => RenamePlanFault::InvalidName(
                file_id@,
                reason@,
            ),
            RenamePlanError::Unchanged { file_id } => RenamePlanFault::Unchanged(file_id@),
            RenamePlanError::DuplicateTarget { target } => RenamePlanFault::DuplicateTarget(
                target@,
            ),
            RenamePlanError::Preflight { file_id, source } => RenamePlanFault::Preflight(
                file_id@,
                *source,
            ),
            RenamePlanError::Io(e) => RenamePlanFault::Io(*e),
        }
    }
}

/// What the filesystem showed for one rename request: its canonical source and the
/// preflight facts for the move to the computed target.
#[derive(Debug)]
pub struct RenameFacts {
    pub canonical_source: Result<String, std::io::Error>,
    pub preflight: PreflightFacts,
}

/// The form in which planned targets are compared for collisions: NFC, then lowercase.
pub open spec fn target_key(t: Seq<char>) -> Seq<char> {
    nfc_lower(t)
}

/// The target of renaming `source` to `name`: the name joined to the source's parent.
pub open spec fn rename_target(source: Seq<char>, name: Seq<char>) -> Option<Seq<char>> {
    match path_parent(source) {
        Some(p) => Some(path_join(p, name)),
        None => None,
    }
}

/// One request of a rename plan, given the canonical root and the targets taken so far.
#[verifier::opaque]
pub open spec fn rename_step(
    croot: Seq<char>,
    q: RenameRequest,
    f: RenameFacts,
    reserved: Seq<Seq<char>>,
) -> Result<PlannedView, RenamePlanFault> {
    let fid = q.file_id@;
    if name_problem(q.new_name@) is Some {
        Err(RenamePlanFault::InvalidName(fid, name_problem(q.new_name@)->0))
    } else {
        match f.canonical_source {
            Err(e) => Err(RenamePlanFault::Preflight(fid, PreflightError::Io(e))),
            Ok(src) => if !path_contained(src@, croot) {
                Err(RenamePlanFault::Preflight(fid, PreflightError::OutsideRoot))
            } else {
                match rename_target(src@, q.new_name@) {
                    None => Err(RenamePlanFault::InvalidName(fid, "源文件没有可用的父目录"@)),
                    Some(t) => if path_eq(src@, t) {
                        Err(RenamePlanFault::Unchanged(fid))
                    } else if reserved.contains(target_key(t)) {
                        Err(RenamePlanFault::DuplicateTarget(t))
                    } else {
                        match preflight_result(
                            croot,
                            t,
                            q.expected_identity@,
                            q.expected_snapshot,
                            f.preflight,
                        ) {
                            Err(e) => Err(RenamePlanFault::Preflight(fid, e)),
                            Ok(()) => Ok(
                                PlannedView {
                                    file_id: fid,
                                    source: src@,
                                    target: t,
                                    identity: q.expected_identity@,
                                    snapshot: q.expected_snapshot,
                                },
                            ),
                        }
                    },
                }
            },
        }
    }
}

/// The first `n` requests of a rename plan, in order: the steps planned so far and the
/// target keys they took, or the first refusal.
pub open spec fn rename_fold(
    croot: Seq<char>,
    reqs: Seq<RenameRequest>,
    facts: Seq<RenameFacts>,
    n: nat,
) -> Result<(Seq<PlannedView>, Seq<Seq<char>>), RenamePlanFault>
    decreases n,
{
    if n == 0 {
        Ok((seq![], seq![]))
    } else {
        match rename_fold(croot, reqs, facts, (n - 1) as nat) {
            Err(e) => Err(e),
            Ok(acc) => match rename_step(croot, reqs[n - 1], facts[n - 1], acc.1) {
                Err(e) => Err(e),
                Ok(p) => Ok((acc.0.push(p), acc.1.push(target_key(p.target)))),
            },
        }
    }
}

/// The steps of a rename plan in request order, or its refusal.
pub open spec fn rename_plan_result(
    reqs: Seq<RenameRequest>,
    canonical_root: Result<String, std::io::Error>,
    facts: Seq<RenameFacts>,
) -> Result<Seq<PlannedView>, RenamePlanFault> {
    if reqs.len() == 0 {
        Err(RenamePlanFault::Empty)
    } else {
        match canonical_root {
            Err(e) => Err(RenamePlanFault::Io(e)),
            Ok(r) => match rename_fold(r@, reqs, facts, reqs.len()) {
                Err(e) => Err(e),
                Ok(acc) => Ok(acc.0),
            },
        }
    }
}

/// The name check of some request that the plan reaches would cut a character.
pub open spec fn rename_plan_splits_char(
    reqs: Seq<RenameRequest>,
    canonical_root: Result<String, std::io::Error>,
    facts: Seq<RenameFacts>,
) -> bool {
    &&& reqs.len() > 0
    &&& canonical_root is Ok
    &&& exists|i: int|
        0 <= i < reqs.len() && rename_fold(canonical_root->Ok_0@, reqs, facts, i as nat) is Ok
            && name_check_splits_char(#[trigger] reqs[i].new_name@)
}

/// Sort keys of planned steps: their sources, compared component by component.
pub open spec fn source_keys(planned: Seq<PlannedView>) -> Seq<Seq<u64>> {
    planned.map_values(|p: PlannedView| path_key(p.source))
}

/// `out` is `planned` stably sorted by source path.
pub open spec fn sorted_by_source(planned: Seq<PlannedView>, out: Seq<PlannedView>) -> bool {
    exists|order: Seq<usize>|
        is_stable_key_order(source_keys(planned), order) && out.len() == order.len() && forall|
            i: int,
        |
            0 <= i < out.len() ==> out[i] == planned[#[trigger] order[i] as int]
}

fn rename_item(
    croot: &String,
    croot_v: &Vec<char>,
    q: &RenameRequest,
    f: RenameFacts,
    reserved: &Vec<Vec<char>>,
) -> (r: Result<(PlannedRename, Vec<char>), RenamePlanError>)
    requires
        croot_v@ == croot@,
        !name_check_splits_char(q.new_name@),
    ensures
        match r {
            Ok((p, k)) => rename_step(
                croot@,
                *q,
                f,
                reserved@.map_values(|k: Vec<char>| k@),
            ) == Ok::<PlannedView, RenamePlanFault>(p@) && k@ == target_key(p@.target),
            Err(e) => rename_step(croot@, *q, f, reserved@.map_values(|k: Vec<char>| k@)) == Err::<
                PlannedView,
                RenamePlanFault,
            >(e@),
        },
{
    reveal(rename_step);
    let RenameFacts { canonical_source, preflight: pf } = f;
    match validate_file_name(q.new_name.as_str()) {
        Err(reason) => {
            return Err(RenamePlanError::InvalidName { file_id: q.file_id.clone(), reason });
        },
        Ok(()) => {},
    }
    let source = match canonical_source {
        Ok(s) => s,
        Err(e) => {
            return Err(
                RenamePlanError::Preflight { file_id: q.file_id.clone(), source: PreflightError::Io(e) },
            );
        },
    };
    let source_v = chars_of(source.as_str());
    if !contained(&source_v, croot_v) {
        return Err(
            RenamePlanError::Preflight {
                file_id: q.file_id.clone(),
                source: PreflightError::OutsideRoot,
            },
        );
    }
    let parent = match parent_of(&source_v) {
        Some(p) => p,
        None => {
            return Err(
                RenamePlanError::InvalidName {
                    file_id: q.file_id.clone(),
                    reason: "源文件没有可用的父目录",
                },
            );
        },
    };
    let name_v = chars_of(q.new_name.as_str());
    let target_v = join_path(&parent, &name_v);
    if same_path(&source_v, &target_v) {
        return Err(RenamePlanError::Unchanged { file_id: q.file_id.clone() });
    }
    let key = nfc_lowercase(&target_v);
    if holds_chars(reserved, &key) {
        return Err(RenamePlanError::DuplicateTarget { target: string_from_chars(&target_v) });
    }
    let target = string_from_chars(&target_v);
    let intent = MoveIntent {
        root: croot.clone(),
        source: source.clone(),
        target: target.clone(),
        expected_identity: q.expected_identity.duplicate(),
        expected_snapshot: q.expected_snapshot,
    };
    match preflight(&intent, pf) {
        Err(e) => {
            return Err(RenamePlanError::Preflight { file_id: q.file_id.clone(), source: e });
        },
        Ok(()) => {},
    }
    let planned = PlannedRename {
        file_id: q.file_id.clone(),
        source,
        target,
        expected_identity: q.expected_identity.duplicate(),
        expected_snapshot: q.expected_snapshot,
    };
    Ok((planned, key))
}

fn sort_planned_by_source(planned: &Vec<PlannedRename>) -> (r: Vec<PlannedRename>)
    ensures
        sorted_by_source(
            planned@.map_values(|p: PlannedRename| p@),
            r@.map_values(|p: PlannedRename| p@),
        ),
{
    let ghost pv = planned@.map_values(|p: PlannedRename| p@);
    let mut keys: Vec<Vec<u64>> = Vec::new();
    let mut j: usize = 0;
    while j < planned.len()
        invariant
            j <= planned.len(),
            pv == planned@.map_values(|p: PlannedRename| p@),
            keys_view(keys@) == source_keys(pv).take(j as int),
        decreases planned.len() - j,
    {
        let sv = chars_of(planned[j].source.as_str());
        let k = path_key_of(&sv);
        assert(pv[j as int].source == sv@);
        let ghost before = keys@;
        keys.push(k);
        assert(keys_view(keys@) =~= keys_view(before).push(k@));
        j += 1;
        assert(keys_view(keys@) =~= source_keys(pv).take(j as int));
    }
    assert(keys_view(keys@) =~= source_keys(pv));
    let order = sort_positions_by_key(&keys);
    let mut out: Vec<PlannedRename> = Vec::new();
    let mut m: usize = 0;
    while m < order.len()
        invariant
            m <= order.len(),
            pv == planned@.map_values(|p: PlannedRename| p@),
            is_stable_key_order(source_keys(pv), order@),
            out.len() == m,
            forall|x: int| 0 <= x < m ==> out@[x]@ == pv[#[trigger] order@[x] as int],
        decreases order.len() - m,
    {
        let item = planned[order[m]].duplicate();
        out.push(item);
        m += 1;
    }
    let ghost ov = out@.map_values(|p: PlannedRename| p@);
    assert(forall|x: int| 0 <= x < ov.len() ==> ov[x] == pv[#[trigger] order@[x] as int]);
    out
}

fn plan_renames_in_order(
    croot: &String,
    requests: &Vec<RenameRequest>,
    item_facts: Vec<RenameFacts>,
) -> (r: Result<Vec<PlannedRename>, RenamePlanError>)
    requires
        item_facts.len() == requests.len(),
        forall|i: int|
            0 <= i < requests.len() && rename_fold(croot@, requests@, item_facts@, i as nat) is Ok
                ==> !name_check_splits_char(#[trigger] requests@[i].new_name@),
    ensures
        match r {
            Ok(v) => rename_fold(croot@, requests@, item_facts@, requests.len() as nat) matches Ok(
                acc,
            ) && acc.0 == v@.map_values(|p: PlannedRename| p@),
            Err(e) => rename_fold(croot@, requests@, item_facts@, requests.len() as nat) == Err::<
                (Seq<PlannedView>, Seq<Seq<char>>),
                RenamePlanFault,
            >(e@),
        },
{
    let croot_v = chars_of(croot.as_str());
    let ghost all_facts = item_facts@;
    let mut facts = item_facts;
    let mut reserved: Vec<Vec<char>> = Vec::new();
    let mut planned: Vec<PlannedRename> = Vec::new();
    let mut i: usize = 0;
    assert(planned@.map_values(|p: PlannedRename| p@) =~= Seq::<PlannedView>::empty());
    assert(reserved@.map_values(|k: Vec<char>| k@) =~= Seq::<Seq<char>>::empty());
    assert(facts@ =~= all_facts.skip(0));
    while i < requests.len()
        invariant
            i <= requests.len(),
            croot_v@ == croot@,
            all_facts.len() == requests.len(),
            all_facts == item_facts@,
            facts@ == all_facts.skip(i as int),
            forall|k: int|
                0 <= k < requests.len() && rename_fold(croot@, requests@, all_facts, k as nat) is Ok
                    ==> !name_check_splits_char(#[trigger] requests@[k].new_name@),
            rename_fold(croot@, requests@, all_facts, i as nat) == Ok::<
                (Seq<PlannedView>, Seq<Seq<char>>),
                RenamePlanFault,
            >(
                (
                    planned@.map_values(|p: PlannedRename| p@),
                    reserved@.map_values(|k: Vec<char>| k@),
                ),
            ),
        decreases requests.len() - i,
    {
        assert(!name_check_splits_char(requests@[i as int].new_name@));
        let ghost prev = rename_fold(croot@, requests@, all_facts, i as nat)->Ok_0;
        let f = facts.remove(0);
        assert(f == all_facts[i as int]);
        assert(facts@ =~= all_facts.skip(i + 1));
        match rename_item(croot, &croot_v, &requests[i], f, &reserved) {
            Err(e) => {
                assert(rename_fold(croot@, requests@, all_facts, (i + 1) as nat) == Err::<
                    (Seq<PlannedView>, Seq<Seq<char>>),
                    RenamePlanFault,
                >(e@));
                proof {
                    lemma_rename_fold_err_stays(
                        croot@,
                        requests@,
                        all_facts,
                        (i + 1) as nat,
                        requests.len() as nat,
                    );
                    assert(rename_fold(croot@, requests@, all_facts, requests.len() as nat) == Err::<
                        (Seq<PlannedView>, Seq<Seq<char>>),
                        RenamePlanFault,
                    >(e@));
                }
                return Err(e);
            },
            Ok((p, k)) => {
                let ghost pv = p@;
                planned.push(p);
                reserved.push(k);
                assert(planned@.map_values(|p: PlannedRename| p@) =~= prev.0.push(pv));
                assert(reserved@.map_values(|k: Vec<char>| k@) =~= prev.1.push(
                    target_key(pv.target),
                ));
            },
        }
        i += 1;
    }
    Ok(planned)
}

/// Once the fold has refused, it keeps the same refusal.
proof fn lemma_rename_fold_err_stays(
    croot: Seq<char>,
    reqs: Seq<RenameRequest>,
    facts: Seq<RenameFacts>,
    a: nat,
    b: nat,
)
    requires
        a <= b,
        rename_fold(croot, reqs, facts, a) is Err,
    ensures
        rename_fold(croot, reqs, facts, b) == rename_fold(croot, reqs, facts, a),
    decreases b - a,
{
    if a < b {
        lemma_rename_fold_err_stays(croot, reqs, facts, a, (b - 1) as nat);
    }
}

/// Plans a batch of renames without touching the disk. Every request is checked in
/// order; the first refusal refuses the whole plan. The planned steps come back sorted
/// by source path.
pub fn plan_renames(
    requests: &Vec<RenameRequest>,
    canonical_root: Result<String, std::io::Error>,
    facts: Vec<RenameFacts>,
) -> (r: Result<Vec<PlannedRename>, RenamePlanError>)
    requires
        facts.len() == requests.len(),
        !rename_plan_splits_char(requests@, canonical_root, facts@),
    ensures
        match r {
            Ok(v) => match rename_plan_result(requests@, canonical_root, facts@) {
                Ok(planned) => sorted_by_source(planned, v@.map_values(|p: PlannedRename| p@)),
                Err(_) => false,
            },
            Err(e) => rename_plan_result(requests@, canonical_root, facts@) == Err::<
                Seq<PlannedView>,
                RenamePlanFault,
            >(e@),
        },
{
    if requests.len() == 0 {
        return Err(RenamePlanError::Empty);
    }
    let croot = match canonical_root {
        Ok(r) => r,
        Err(e) => return Err(RenamePlanError::Io(e)),
    };
    let planned = plan_renames_in_order(&croot, requests, facts)?;
    Ok(sort_planned_by_source(&planned))
}


/// A request to copy (or move to the trash) one indexed file.
#[derive(Debug, Clone, PartialEq, Eq)]
pub struct CopyRequest {
    pub file_id: String,
    pub source: String,
    pub expected_identity: FileIdentity,
    pub expected_snapshot: FileSnapshot,
}

/// One checked step of a copy or trash plan.
#[derive(Debug, Clone, PartialEq, Eq)]
pub struct PlannedCopy {
    pub file_id: String,
    pub source: String,
    pub target: String,
    pub expected_identity: FileIdentity,
    pub expected_snapshot: FileSnapshot,
}

impl View for PlannedCopy {
    type V = PlannedView;

    open spec fn view(&self) -> PlannedView {
        PlannedView {
            file_id: self.file_id@,
            source: self.source@,
            target: self.target@,
            identity: self.expected_identity@,
            snapshot: self.expected_snapshot,
        }
    }
}

impl PlannedCopy {
    pub fn duplicate(&self) -> (r: PlannedCopy)
        ensures
            r@ == self@,
    {
        PlannedCopy {
            file_id: self.file_id.clone(),
            source: self.source.clone(),
            target: self.target.clone(),
            expected_identity: self.expected_identity.duplicate(),
            expected_snapshot: self.expected_snapshot,
        }
    }
}

/// Kind of a directory entry, read without following links.
#[derive(Debug, Clone, Copy, PartialEq, Eq, Structural)]
pub struct EntryKind {
    pub is_dir: bool,
    pub is_symlink: bool,
}

/// What the filesystem showed for one copy or trash request.
#[derive(Debug)]
pub struct CopyFacts {
    pub canonical_source: Result<String, std::io::Error>,
    pub preflight: PreflightFacts,
}

/// Why a copy plan was refused.
#[derive(Debug)]
pub enum CopyPlanError {
    Empty,
    InvalidDestination,
    DuplicateTarget { target: String },
    Preflight { file_id: String, source: PreflightError },
    Io(std::io::Error),
}

/// Value view of a copy or trash plan refusal.
pub enum CopyPlanFault {
    Empty,
    InvalidDestination,
    InvalidQuarantine,
    DuplicateTarget(Seq<char>),
    Preflight(Seq<char>, PreflightError),
    Io(std::io::Error),
}

impl View for CopyPlanError {
    type V = CopyPlanFault;

    open spec fn view(&self) -> CopyPlanFault {
        match self {
            CopyPlanError::Empty => CopyPlanFault::Empty,
            CopyPlanError::InvalidDestination => CopyPlanFault::InvalidDestination,
            CopyPlanError::DuplicateTarget { target } => CopyPlanFault::DuplicateTarget(target@),
            CopyPlanError::Preflight { file_id, source } => CopyPlanFault::Preflight(
                file_id@,
                *source,
            ),
            CopyPlanError::Io(e) => CopyPlanFault::Io(*e),
        }
    }
}

/// Why a trash plan was refused.
#[derive(Debug)]
pub enum TrashPlanError {
    Empty,
    InvalidQuarantine,
    Preflight { file_id: String, source: PreflightError },
    Io(std::io::Error),
    DuplicateTarget { target: String },
}

impl View for TrashPlanError {
    type V = CopyPlanFault;

    open spec fn view(&self) -> CopyPlanFault {
        match self {
            TrashPlanError::Empty => CopyPlanFault::Empty,
            TrashPlanError::InvalidQuarantine => CopyPlanFault::InvalidQuarantine,
            TrashPlanError::DuplicateTarget { target } => CopyPlanFault::DuplicateTarget(target@),
            TrashPlanError::Preflight { file_id, source } => CopyPlanFault::Preflight(
                file_id@,
                *source,
            ),
            TrashPlanError::Io(e) => CopyPlanFault::Io(*e),
        }
    }
}

/// Where a copy or trash step puts its target, given the canonical source.
pub enum TargetRule {
    /// Next to the other copies in this directory, under the source's file name.
    IntoDirectory(Seq<char>),
    /// Under this namespace, at the source's path relative to the root.
    MirrorUnder(Seq<char>),
}

/// The target of one step, or the refusal that computing it gives.
pub open spec fn copy_target(
    rule: TargetRule,
    croot: Seq<char>,
    fid: Seq<char>,
    src: Seq<char>,
) -> Result<Seq<char>, CopyPlanFault> {
    match rule {
        TargetRule::IntoDirectory(dest) => match file_name(src) {
            Some(n) => Ok(path_join(dest, n)),
            None => Err(CopyPlanFault::InvalidDestination),
        },
        TargetRule::MirrorUnder(ns) => match path_strip_prefix(src, croot) {
            Some(rel) => Ok(path_join(ns, rel)),
            None => Err(CopyPlanFault::Preflight(fid, PreflightError::OutsideRoot)),
        },
    }
}

/// One request of a copy or trash plan, given the targets taken so far.
#[verifier::opaque]
pub open spec fn copy_step(
    rule: TargetRule,
    croot: Seq<char>,
    q: CopyRequest,
    f: CopyFacts,
    reserved: Seq<Seq<char>>,
) -> Result<PlannedView, CopyPlanFault> {
    let fid = q.file_id@;
    match f.canonical_source {
        Err(e) => Err(CopyPlanFault::Preflight(fid, PreflightError::Io(e))),
        Ok(src) => match copy_target(rule, croot, fid, src@) {
            Err(e) => Err(e),
            Ok(t) => if reserved.contains(target_key(t)) {
                Err(CopyPlanFault::DuplicateTarget(t))
            } else {
                match preflight_result(
                    croot,
                    t,
                    q.expected_identity@,
                    q.expected_snapshot,
                    f.preflight,
                ) {
                    Err(e) => Err(CopyPlanFault::Preflight(fid, e)),
                    Ok(()) => Ok(
                        PlannedView {
                            file_id: fid,
                            source: src@,
                            target: t,
                            identity: q.expected_identity@,
                            snapshot: q.expected_snapshot,
                        },
                    ),
                }
            },
        },
    }
}

/// The first `n` requests of a copy or trash plan, in order.
pub open spec fn copy_fold(
    rule: TargetRule,
    croot: Seq<char>,
    reqs: Seq<CopyRequest>,
    facts: Seq<CopyFacts>,
    n: nat,
) -> Result<(Seq<PlannedView>, Seq<Seq<char>>), CopyPlanFault>
    decreases n,
{
    if n == 0 {
        Ok((seq![], seq![]))
    } else {
        match copy_fold(rule, croot, reqs, facts, (n - 1) as nat) {
            Err(e) => Err(e),
            Ok(acc) => match copy_step(rule, croot, reqs[n - 1], facts[n - 1], acc.1) {
                Err(e) => Err(e),
                Ok(p) => Ok((acc.0.push(p), acc.1.push(target_key(p.target)))),
            },
        }
    }
}

proof fn lemma_copy_fold_err_stays(
    rule: TargetRule,
    croot: Seq<char>,
    reqs: Seq<CopyRequest>,
    facts: Seq<CopyFacts>,
    a: nat,
    b: nat,
)
    requires
        a <= b,
        copy_fold(rule, croot, reqs, facts, a) is Err,
    ensures
        copy_fold(rule, croot, reqs, facts, b) == copy_fold(rule, croot, reqs, facts, a),
    decreases b - a,
{
    if a < b {
        lemma_copy_fold_err_stays(rule, croot, reqs, facts, a, (b - 1) as nat);
    }
}

/// Exec form of a target rule.
enum TargetRuleExec {
    IntoDirectory(Vec<char>),
    MirrorUnder(Vec<char>),
}

impl View for TargetRuleExec {
    type V = TargetRule;

    closed spec fn view(&self) -> TargetRule {
        match self {
            TargetRuleExec::IntoDirectory(d) => TargetRule::IntoDirectory(d@),
            TargetRuleExec::MirrorUnder(n) => TargetRule::MirrorUnder(n@),
        }
    }
}

fn copy_item(
    rule: &TargetRuleExec,
    croot: &String,
    croot_v: &Vec<char>,
    q: &CopyRequest,
    f: CopyFacts,
    reserved: &Vec<Vec<char>>,
) -> (r: Result<(PlannedCopy, Vec<char>), CopyPlanFaultExec>)
    requires
        croot_v@ == croot@,
    ensures
        match r {
            Ok((p, k)) => copy_step(rule@, croot@, *q, f, reserved@.map_values(|k: Vec<char>| k@))
                == Ok::<PlannedView, CopyPlanFault>(p@) && k@ == target_key(p@.target),
            Err(e) => copy_step(rule@, croot@, *q, f, reserved@.map_values(|k: Vec<char>| k@))
                == Err::<PlannedView, CopyPlanFault>(e@),
        },
{
    reveal(copy_step);
    let CopyFacts { canonical_source, preflight: pf } = f;
    let source = match canonical_source {
        Ok(s) => s,
        Err(e) => {
            return Err(
                CopyPlanFaultExec::Preflight { file_id: q.file_id.clone(), source: PreflightError::Io(e) },
            );
        },
    };
    let source_v = chars_of(source.as_str());
    let target_v = match rule {
        TargetRuleExec::IntoDirectory(dest) => match file_name_of(&source_v) {
            Some(n) => join_path(dest, &n),
            None => {
                return Err(CopyPlanFaultExec::InvalidDestination);
            },
        },
        TargetRuleExec::MirrorUnder(ns) => match strip_prefix_of(&source_v, croot_v) {
            Some(rel) => join_path(ns, &rel),
            None => {
                return Err(
                    CopyPlanFaultExec::Preflight {
                        file_id: q.file_id.clone(),
                        source: PreflightError::OutsideRoot,
                    },
                );
            },
        },
    };
    let key = nfc_lowercase(&target_v);
    if holds_chars(reserved, &key) {
        return Err(CopyPlanFaultExec::DuplicateTarget { target: string_from_chars(&target_v) });
    }
    let target = string_from_chars(&target_v);
    let intent = MoveIntent {
        root: croot.clone(),
        source: source.clone(),
        target: target.clone(),
        expected_identity: q.expected_identity.duplicate(),
        expected_snapshot: q.expected_snapshot,
    };
    match preflight(&intent, pf) {
        Err(e) => {
            return Err(CopyPlanFaultExec::Preflight { file_id: q.file_id.clone(), source: e });
        },
        Ok(()) => {},
    }
    let planned = PlannedCopy {
        file_id: q.file_id.clone(),
        source,
        target,
        expected_identity: q.expected_identity.duplicate(),
        expected_snapshot: q.expected_snapshot,
    };
    Ok((planned, key))
}

/// A refusal met while planning the steps of a copy or trash plan.
enum CopyPlanFaultExec {
    InvalidDestination,
    DuplicateTarget { target: String },
    Preflight { file_id: String, source: PreflightError },
}

impl View for CopyPlanFaultExec {
    type V = CopyPlanFault;

    closed spec fn view(&self) -> CopyPlanFault {
        match self {
            CopyPlanFaultExec::InvalidDestination => CopyPlanFault::InvalidDestination,
            CopyPlanFaultExec::DuplicateTarget { target } => CopyPlanFault::DuplicateTarget(
                target@,
            ),
            CopyPlanFaultExec::Preflight { file_id, source } => CopyPlanFault::Preflight(
                file_id@,
                *source,
            ),
        }
    }
}

fn plan_copies_in_order(
    rule: &TargetRuleExec,
    croot: &String,
    requests: &Vec<CopyRequest>,
    item_facts: Vec<CopyFacts>,
) -> (r: Result<Vec<PlannedCopy>, CopyPlanFaultExec>)
    requires
        item_facts.len() == requests.len(),
    ensures
        match r {
            Ok(v) => copy_fold(rule@, croot@, requests@, item_facts@, requests.len() as nat)
                matches Ok(acc) && acc.0 == v@.map_values(|p: PlannedCopy| p@),
            Err(e) => copy_fold(rule@, croot@, requests@, item_facts@, requests.len() as nat)
                == Err::<(Seq<PlannedView>, Seq<Seq<char>>), CopyPlanFault>(e@),
        },
{
    let croot_v = chars_of(croot.as_str());
    let ghost all_facts = item_facts@;
    let mut facts = item_facts;
    let mut reserved: Vec<Vec<char>> = Vec::new();
    let mut planned: Vec<PlannedCopy> = Vec::new();
    let mut i: usize = 0;
    assert(planned@.map_values(|p: PlannedCopy| p@) =~= Seq::<PlannedView>::empty());
    assert(reserved@.map_values(|k: Vec<char>| k@) =~= Seq::<Seq<char>>::empty());
    assert(facts@ =~= all_facts.skip(0));
    while i < requests.len()
        invariant
            i <= requests.len(),
            croot_v@ == croot@,
            all_facts.len() == requests.len(),
            all_facts == item_facts@,
            facts@ == all_facts.skip(i as int),
            copy_fold(rule@, croot@, requests@, all_facts, i as nat) == Ok::<
                (Seq<PlannedView>, Seq<Seq<char>>),
                CopyPlanFault,
            >(
                (
                    planned@.map_values(|p: PlannedCopy| p@),
                    reserved@.map_values(|k: Vec<char>| k@),
                ),
            ),
        decreases requests.len() - i,
    {
        let ghost prev = copy_fold(rule@, croot@, requests@, all_facts, i as nat)->Ok_0;
        let f = facts.remove(0);
        assert(f == all_facts[i as int]);
        assert(facts@ =~= all_facts.skip(i + 1));
        match copy_item(rule, croot, &croot_v, &requests[i], f, &reserved) {
            Err(e) => {
                proof {
                    lemma_copy_fold_err_stays(
                        rule@,
                        croot@,
                        requests@,
                        all_facts,
                        (i + 1) as nat,
                        requests.len() as nat,
                    );
                }
                return Err(e);
            },
            Ok((p, k)) => {
                let ghost pv = p@;
                planned.push(p);
                reserved.push(k);
                assert(planned@.map_values(|p: PlannedCopy| p@) =~= prev.0.push(pv));
                assert(reserved@.map_values(|k: Vec<char>| k@) =~= prev.1.push(
                    target_key(pv.target),
                ));
            },
        }
        i += 1;
    }
    Ok(planned)
}

fn sort_copies_by_source(planned: &Vec<PlannedCopy>) -> (r: Vec<PlannedCopy>)
    ensures
        sorted_by_source(
            planned@.map_values(|p: PlannedCopy| p@),
            r@.map_values(|p: PlannedCopy| p@),
        ),
{
    let ghost pv = planned@.map_values(|p: PlannedCopy| p@);
    let mut keys: Vec<Vec<u64>> = Vec::new();
    let mut j: usize = 0;
    while j < planned.len()
        invariant
            j <= planned.len(),
            pv == planned@.map_values(|p: PlannedCopy| p@),
            keys_view(keys@) == source_keys(pv).take(j as int),
        decreases planned.len() - j,
    {
        let sv = chars_of(planned[j].source.as_str());
        let k = path_key_of(&sv);
        assert(pv[j as int].source == sv@);
        let ghost before = keys@;
        keys.push(k);
        assert(keys_view(keys@) =~= keys_view(before).push(k@));
        j += 1;
        assert(keys_view(keys@) =~= source_keys(pv).take(j as int));
    }
    assert(keys_view(keys@) =~= source_keys(pv));
    let order = sort_positions_by_key(&keys);
    let mut out: Vec<PlannedCopy> = Vec::new();
    let mut m: usize = 0;
    while m < order.len()
        invariant
            m <= order.len(),
            pv == planned@.map_values(|p: PlannedCopy| p@),
            is_stable_key_order(source_keys(pv), order@),
            out.len() == m,
            forall|x: int| 0 <= x < m ==> out@[x]@ == pv[#[trigger] order@[x] as int],
        decreases order.len() - m,
    {
        let item = planned[order[m]].duplicate();
        out.push(item);
        m += 1;
    }
    let ghost ov = out@.map_values(|p: PlannedCopy| p@);
    assert(forall|x: int| 0 <= x < ov.len() ==> ov[x] == pv[#[trigger] order@[x] as int]);
    out
}

/// The steps of a copy plan in request order, or its refusal.
pub open spec fn copy_plan_result(
    reqs: Seq<CopyRequest>,
    canonical_root: Result<String, std::io::Error>,
    destination: Result<EntryKind, std::io::Error>,
    canonical_destination: Result<String, std::io::Error>,
    facts: Seq<CopyFacts>,
) -> Result<Seq<PlannedView>, CopyPlanFault> {
    if reqs.len() == 0 {
        Err(CopyPlanFault::Empty)
    } else {
        match canonical_root {
            Err(e) => Err(CopyPlanFault::Io(e)),
            Ok(croot) => match destination {
                Err(e) => Err(CopyPlanFault::Io(e)),
                Ok(kind) => if !kind.is_dir || kind.is_symlink {
                    Err(CopyPlanFault::InvalidDestination)
                } else {
                    match canonical_destination {
                        Err(e) => Err(CopyPlanFault::Io(e)),
                        Ok(dest) => if !path_contained(dest@, croot@) {
                            Err(CopyPlanFault::InvalidDestination)
                        } else {
                            match copy_fold(
                                TargetRule::IntoDirectory(dest@),
                                croot@,
                                reqs,
                                facts,
                                reqs.len(),
                            ) {
                                Err(e) => Err(e),
                                Ok(acc) => Ok(acc.0),
                            }
                        },
                    }
                },
            },
        }
    }
}

fn copy_fault_into_copy_error(e: CopyPlanFaultExec) -> (r: CopyPlanError)
    ensures
        r@ == e@,
{
    match e {
        CopyPlanFaultExec::InvalidDestination => CopyPlanError::InvalidDestination,
        CopyPlanFaultExec::DuplicateTarget { target } => CopyPlanError::DuplicateTarget { target },
        CopyPlanFaultExec::Preflight { file_id, source } => CopyPlanError::Preflight {
            file_id,
            source,
        },
    }
}

/// Plans copies of indexed files into an existing, non-symlinked folder inside the
/// authorized library, without touching the disk. The steps come back sorted by source.
pub fn plan_copies(
    requests: &Vec<CopyRequest>,
    canonical_root: Result<String, std::io::Error>,
    destination: Result<EntryKind, std::io::Error>,
    canonical_destination: Result<String, std::io::Error>,
    facts: Vec<CopyFacts>,
) -> (r: Result<Vec<PlannedCopy>, CopyPlanError>)
    requires
        facts.len() == requests.len(),
    ensures
        match r {
            Ok(v) => match copy_plan_result(
                requests@,
                canonical_root,
                destination,
                canonical_destination,
                facts@,
            ) {
                Ok(planned) => sorted_by_source(planned, v@.map_values(|p: PlannedCopy| p@)),
                Err(_) => false,
            },
            Err(e) => copy_plan_result(
                requests@,
                canonical_root,
                destination,
                canonical_destination,
                facts@,
            ) == Err::<Seq<PlannedView>, CopyPlanFault>(e@),
        },
{
    if requests.len() == 0 {
        return Err(CopyPlanError::Empty);
    }
    let croot = match canonical_root {
        Ok(r) => r,
        Err(e) => return Err(CopyPlanError::Io(e)),
    };
    let kind = match destination {
        Ok(k) => k,
        Err(e) => return Err(CopyPlanError::Io(e)),
    };
    if !kind.is_dir || kind.is_symlink {
        return Err(CopyPlanError::InvalidDestination);
    }
    let dest = match canonical_destination {
        Ok(d) => d,
        Err(e) => return Err(CopyPlanError::Io(e)),
    };
    let dest_v = chars_of(dest.as_str());
    let croot_v = chars_of(croot.as_str());
    if !contained(&dest_v, &croot_v) {
        return Err(CopyPlanError::InvalidDestination);
    }
    let rule = TargetRuleExec::IntoDirectory(dest_v);
    match plan_copies_in_order(&rule, &croot, requests, facts) {
        Err(e) => Err(copy_fault_into_copy_error(e)),
        Ok(planned) => Ok(sort_copies_by_source(&planned)),
    }
}

/// Name of the quarantine folder under the library root.
pub open spec fn quarantine_dir_name() -> Seq<char> {
    ".guixu-trash"@
}

/// The steps of a trash plan in request order, or its refusal.
pub open spec fn trash_plan_result(
    reqs: Seq<CopyRequest>,
    namespace: Seq<char>,
    canonical_root: Result<String, std::io::Error>,
    quarantine: Option<Result<EntryKind, std::io::Error>>,
    facts: Seq<CopyFacts>,
) -> Result<Seq<PlannedView>, CopyPlanFault> {
    if reqs.len() == 0 {
        Err(CopyPlanFault::Empty)
    } else if name_problem(namespace) is Some {
        Err(CopyPlanFault::InvalidQuarantine)
    } else {
        match canonical_root {
            Err(e) => Err(CopyPlanFault::Io(e)),
            Ok(croot) => match quarantine {
                Some(Err(e)) => Err(CopyPlanFault::Io(e)),
                Some(Ok(kind)) if !kind.is_dir || kind.is_symlink => Err(
                    CopyPlanFault::InvalidQuarantine,
                ),
                _ => match copy_fold(
                    TargetRule::MirrorUnder(
                        path_join(path_join(croot@, quarantine_dir_name()), namespace),
                    ),
                    croot@,
                    reqs,
                    facts,
                    reqs.len(),
                ) {
                    Err(e) => Err(e),
                    Ok(acc) => Ok(acc.0),
                },
            },
        }
    }
}

fn copy_fault_into_trash_error(e: CopyPlanFaultExec) -> (r: TrashPlanError)
    requires
        !(e is InvalidDestination),
    ensures
        r@ == e@,
{
    match e {
        CopyPlanFaultExec::InvalidDestination => TrashPlanError::InvalidQuarantine,
        CopyPlanFaultExec::DuplicateTarget { target } => TrashPlanError::DuplicateTarget { target },
        CopyPlanFaultExec::Preflight { file_id, source } => TrashPlanError::Preflight {
            file_id,
            source,
        },
    }
}

proof fn lemma_mirror_fold_never_invalid_destination(
    ns: Seq<char>,
    croot: Seq<char>,
    reqs: Seq<CopyRequest>,
    facts: Seq<CopyFacts>,
    n: nat,
)
    ensures
        !(copy_fold(TargetRule::MirrorUnder(ns), croot, reqs, facts, n) matches Err(
            CopyPlanFault::InvalidDestination,
        )),
    decreases n,
{
    reveal(copy_step);
    if n > 0 {
        lemma_mirror_fold_never_invalid_destination(ns, croot, reqs, facts, (n - 1) as nat);
    }
}

/// Plans moving indexed files into an isolated namespace of the library's quarantine
/// folder, keeping each file's path relative to the root, without touching the disk.
/// The steps come back sorted by source.
pub fn plan_trash(
    requests: &Vec<CopyRequest>,
    namespace: &str,
    canonical_root: Result<String, std::io::Error>,
    quarantine: Option<Result<EntryKind, std::io::Error>>,
    facts: Vec<CopyFacts>,
) -> (r: Result<Vec<PlannedCopy>, TrashPlanError>)
    requires
        facts.len() == requests.len(),
        requests.len() > 0 ==> !name_check_splits_char(namespace@),
    ensures
        match r {
            Ok(v) => match trash_plan_result(
                requests@,
                namespace@,
                canonical_root,
                quarantine,
                facts@,
            ) {
                Ok(planned) => sorted_by_source(planned, v@.map_values(|p: PlannedCopy| p@)),
                Err(_) => false,
            },
            Err(e) => trash_plan_result(requests@, namespace@, canonical_root, quarantine, facts@)
                == Err::<Seq<PlannedView>, CopyPlanFault>(e@),
        },
{
    if requests.len() == 0 {
        return Err(TrashPlanError::Empty);
    }
    if validate_file_name(namespace).is_err() {
        return Err(TrashPlanError::InvalidQuarantine);
    }
    let croot = match canonical_root {
        Ok(r) => r,
        Err(e) => return Err(TrashPlanError::Io(e)),
    };
    match quarantine {
        Some(Err(e)) => {
            return Err(TrashPlanError::Io(e));
        },
        Some(Ok(kind)) => {
            if !kind.is_dir || kind.is_symlink {
                return Err(TrashPlanError::InvalidQuarantine);
            }
        },
        None => {},
    }
    let croot_v = chars_of(croot.as_str());
    let q = chars_of(".guixu-trash");
    let ns = chars_of(namespace);
    let quarantine_root = join_path(&croot_v, &q);
    let namespace_root = join_path(&quarantine_root, &ns);
    let rule = TargetRuleExec::MirrorUnder(namespace_root);
    match plan_copies_in_order(&rule, &croot, requests, facts) {
        Err(e) => {
            proof {
                lemma_mirror_fold_never_invalid_destination(
                    rule@->MirrorUnder_0,
                    croot@,
                    requests@,
                    facts@,
                    requests.len() as nat,
                );
            }
            Err(copy_fault_into_trash_error(e))
        },
        Ok(planned) => Ok(sort_copies_by_source(&planned)),
    }
}


/// How a move reached its target.
#[derive(Debug, Clone, Copy, PartialEq, Eq, Structural)]
pub enum TransferKind {
    AtomicRename,
    CrossVolumeCopy,
    VerifiedCopy,
}

/// What a successful move or copy published.
#[derive(Debug, Clone, PartialEq, Eq)]
pub struct MoveOutcome {
    pub transfer: TransferKind,
    pub target_identity: FileIdentity,
    pub target_snapshot: FileSnapshot,
    pub content_hash: [u8; 32],
}

/// Why a move, copy or undo step failed.
#[derive(Debug)]
pub enum MoveError {
    Preflight(PreflightError),
    TargetExists,
    Verification(&'static str),
    PublishedSourceRetained(std::io::Error),
    Observe(ObserveError),
    Io(std::io::Error),
}

/// Value view of a move failure.
pub enum MoveFault {
    Preflight(PreflightError),
    TargetExists,
    Verification(Seq<char>),
    PublishedSourceRetained(std::io::Error),
    Observe(ObserveError),
    Io(std::io::Error),
}

impl View for MoveError {
    type V = MoveFault;

    open spec fn view(&self) -> MoveFault {
        match self {
            MoveError::Preflight(e) => MoveFault::Preflight(*e),
            MoveError::TargetExists => MoveFault::TargetExists,
            MoveError::Verification(m) => MoveFault::Verification(m@),
            MoveError::PublishedSourceRetained(e) => MoveFault::PublishedSourceRetained(*e),
            MoveError::Observe(e) => MoveFault::Observe(*e),
            MoveError::Io(e) => MoveFault::Io(*e),
        }
    }
}

/// How an exclusive rename of a file failed, as far as the move decides on it.
#[derive(Debug, Clone, Copy, PartialEq, Eq, Structural)]
pub enum RenameFailure {
    /// The target lies on another volume (`EXDEV`).
    CrossDevice,
    /// The volume does not support an exclusive rename (`ENOTSUP`).
    Unsupported,
    /// The volume refuses the exclusive rename (`EPERM`, as exFAT and SMB volumes answer).
    NotPermitted,
    /// Something already exists at the target.
    AlreadyExists,
    /// Any other failure.
    Other,
}

/// What a move does after its exclusive rename failed.
#[derive(Debug, Clone, Copy, PartialEq, Eq, Structural)]
pub enum RenameFallback {
    /// Publish a verified copy instead, then remove the source.
    CopyInstead,
    /// Refuse: the target exists and is never overwritten.
    RefuseExistingTarget,
    /// Fail with the rename's own error.
    Fail,
}

/// A move falls back to a verified copy exactly when the rename could not be done
/// exclusively on these volumes; an existing target is refused; anything else fails.
pub fn rename_fallback(failure: RenameFailure) -> (r: RenameFallback)
    ensures
        r == RenameFallback::CopyInstead <==> (failure == RenameFailure::CrossDevice || failure
            == RenameFailure::Unsupported || failure == RenameFailure::NotPermitted),
        r == RenameFallback::RefuseExistingTarget <==> failure == RenameFailure::AlreadyExists,
        r == RenameFallback::Fail <==> failure == RenameFailure::Other,
{
    match failure {
        RenameFailure::CrossDevice | RenameFailure::Unsupported | RenameFailure::NotPermitted => {
            RenameFallback::CopyInstead
        },
        RenameFailure::AlreadyExists => RenameFallback::RefuseExistingTarget,
        RenameFailure::Other => RenameFallback::Fail,
    }
}

/// Progress of a plan execution or an undo.
#[derive(Debug, Clone, PartialEq, Eq)]
pub struct ExecutionReport {
    pub operation_id: String,
    pub completed_items: usize,
    pub total_items: usize,
}

/// Outcome counts of a start-up recovery audit.
#[derive(Debug, Clone, PartialEq, Eq)]
pub struct RecoveryAudit {
    pub not_started: usize,
    pub completed: usize,
    pub needs_attention: usize,
}

impl Default for RecoveryAudit {
    fn default() -> (r: Self)
        ensures
            r.not_started == 0 && r.completed == 0 && r.needs_attention == 0,
    {
        RecoveryAudit { not_started: 0, completed: 0, needs_attention: 0 }
    }
}

/// The safe recovery action for an interrupted move.
#[derive(Debug, Clone, Copy, PartialEq, Eq, Structural)]
pub enum RecoveryDecision {
    ResumeFromSource,
    OperationCompleted,
    RemovePublishedSource,
    ManualReview,
}

/// An observed file carries the expected identity.
pub open spec fn identity_matches(observed: Option<FileIdentity>, expected: IdentityView) -> bool {
    observed is Some && observed->0@ == expected
}

/// The recovery action for a move that expected `expected` at its source and
/// `published` (or, when none was logged, `expected`) at its target, given what now
/// exists at each end.
pub open spec fn recovery_decision(
    expected: IdentityView,
    published: Option<IdentityView>,
    source: Option<FileIdentity>,
    target: Option<FileIdentity>,
) -> RecoveryDecision {
    let source_matches = identity_matches(source, expected);
    let target_expected = match published {
        Some(p) => p,
        None => expected,
    };
    let target_matches = identity_matches(target, target_expected);
    if source_matches && !target_matches && source is Some && target is None {
        RecoveryDecision::ResumeFromSource
    } else if !source_matches && target_matches && source is None && target is Some {
        RecoveryDecision::OperationCompleted
    } else if source_matches && target_matches && source is Some && target is Some {
        RecoveryDecision::RemovePublishedSource
    } else {
        RecoveryDecision::ManualReview
    }
}

fn identity_is(observed: &Option<FileIdentity>, expected: &FileIdentity) -> (r: bool)
    ensures
        r == identity_matches(*observed, expected@),
{
    match observed {
        Some(o) => o.same_as(expected),
        None => false,
    }
}

/// Decides, from the identities logged for an interrupted move and the identities now
/// found at its source and target, which recovery is safe.
pub fn classify_move_recovery(
    intent: &MoveIntent,
    published_identity: Option<&FileIdentity>,
    source_identity: Option<FileIdentity>,
    target_identity: Option<FileIdentity>,
) -> (r: RecoveryDecision)
    ensures
        r == recovery_decision(
            intent.expected_identity@,
            match published_identity {
                Some(p) => Some(p@),
                None => None,
            },
            source_identity,
            target_identity,
        ),
{
    let source_matches = identity_is(&source_identity, &intent.expected_identity);
    let target_matches = match published_identity {
        Some(p) => identity_is(&target_identity, p),
        None => identity_is(&target_identity, &intent.expected_identity),
    };
    if source_matches && !target_matches && source_identity.is_some() && target_identity.is_none() {
        RecoveryDecision::ResumeFromSource
    } else if !source_matches && target_matches && source_identity.is_none()
        && target_identity.is_some() {
        RecoveryDecision::OperationCompleted
    } else if source_matches && target_matches && source_identity.is_some()
        && target_identity.is_some() {
        RecoveryDecision::RemovePublishedSource
    } else {
        RecoveryDecision::ManualReview
    }
}

/// Lowercase hexadecimal digit of a value below 16.
pub open spec fn hex_digit(n: u8) -> char {
    if n < 10 {
        (48 + n) as char
    } else {
        (87 + n) as char
    }
}

/// Lowercase hexadecimal form of a byte sequence, two digits per byte.
pub open spec fn hex_of(bytes: Seq<u8>) -> Seq<char>
    decreases bytes.len(),
{
    if bytes.len() == 0 {
        seq![]
    } else {
        hex_of(bytes.drop_last()) + seq![hex_digit(bytes.last() / 16), hex_digit(bytes.last() % 16)]
    }
}

fn hex_char(n: u8) -> (r: char)
    requires
        n < 16,
    ensures
        r == hex_digit(n),
{
    if n < 10 {
        (48u8 + n) as char
    } else {
        (87u8 + n) as char
    }
}

/// Lowercase hexadecimal form of a byte slice.
pub fn hex_of_bytes(bytes: &[u8]) -> (r: String)
    ensures
        r@ == hex_of(bytes@),
{
    let mut out = String::new();
    let mut i: usize = 0;
    assert(bytes@.take(0) =~= seq![]);
    while i < bytes.len()
        invariant
            i <= bytes.len(),
            out@ == hex_of(bytes@.take(i as int)),
        decreases bytes.len() - i,
    {
        let b = bytes[i];
        crate::text::string_push(&mut out, hex_char(b / 16));
        crate::text::string_push(&mut out, hex_char(b % 16));
        i += 1;
        assert(bytes@.take(i as int).drop_last() =~= bytes@.take(i - 1));
        assert(out@ =~= hex_of(bytes@.take(i - 1)) + seq![hex_digit(b / 16), hex_digit(b % 16)]);
    }
    assert(bytes@.take(bytes.len() as int) =~= bytes@);
    out
}

/// Lowercase hexadecimal form of a content hash.
pub fn hex_hash(hash: [u8; 32]) -> (r: String)
    ensures
        r@ == hex_of(hash@),
{
    hex_of_bytes(&hash)
}

pub open spec fn opt_str_view(o: Option<&str>) -> Option<Seq<char>> {
    match o {
        Some(s) => Some(s@),
        None => None,
    }
}

/// The verdict on undoing a move whose published target was recorded with `identity`,
/// optionally `snapshot` and optionally the hex `content_hash`, given what is at the
/// target now and, when a hash was recorded, the target's current hash.
pub open spec fn undo_target_result(
    observed: Result<ObservedFile, ObserveError>,
    target_hash: Option<Result<[u8; 32], std::io::Error>>,
    identity: IdentityView,
    snapshot: Option<FileSnapshot>,
    content_hash: Option<Seq<char>>,
) -> Result<(), MoveFault> {
    match observed {
        Err(e) => Err(MoveFault::Observe(e)),
        Ok(o) => if o.identity@ != identity {
            Err(MoveFault::Verification("目标已被其他文件替换，拒绝撤销"@))
        } else if snapshot is Some && o.snapshot != snapshot->0 {
            Err(MoveFault::Verification("目标在发布后已被修改，拒绝撤销"@))
        } else {
            match content_hash {
                None => Ok(()),
                Some(expected) => match target_hash {
                    Some(Err(e)) => Err(MoveFault::Io(e)),
                    Some(Ok(h)) => if hex_of(h@) != expected {
                        Err(MoveFault::Verification("目标内容与已发布记录不一致，拒绝撤销"@))
                    } else {
                        Ok(())
                    },
                    None => Ok(()),
                },
            }
        },
    }
}

/// An undo may proceed only while the target is still the file that the operation
/// published: same identity, and, where they were recorded, the same snapshot and
/// content hash.
pub fn validate_undo_target(
    observed: Result<ObservedFile, ObserveError>,
    target_hash: Option<Result<[u8; 32], std::io::Error>>,
    published_identity: &FileIdentity,
    published_snapshot: Option<&FileSnapshot>,
    content_hash: Option<&str>,
) -> (r: Result<(), MoveError>)
    requires
        content_hash is Some ==> target_hash is Some,
    ensures
        match r {
            Ok(()) => undo_target_result(
                observed,
                target_hash,
                published_identity@,
                match published_snapshot {
                    Some(s) => Some(*s),
                    None => None,
                },
                opt_str_view(content_hash),
            ) is Ok,
            Err(e) => undo_target_result(
                observed,
                target_hash,
                published_identity@,
                match published_snapshot {
                    Some(s) => Some(*s),
                    None => None,
                },
                opt_str_view(content_hash),
            ) == Err::<(), MoveFault>(e@),
        },
{
    let o = match observed {
        Ok(o) => o,
        Err(e) => return Err(MoveError::Observe(e)),
    };
    if !o.identity.same_as(published_identity) {
        return Err(MoveError::Verification("目标已被其他文件替换，拒绝撤销"));
    }
    match published_snapshot {
        Some(snapshot) => {
            if o.snapshot != *snapshot {
                return Err(MoveError::Verification("目标在发布后已被修改，拒绝撤销"));
            }
        },
        None => {},
    }
    match content_hash {
        None => Ok(()),
        Some(expected) => match target_hash {
            Some(Err(e)) => Err(MoveError::Io(e)),
            Some(Ok(h)) => {
                let hex = hex_hash(h);
                let hv = chars_of(hex.as_str());
                if !chars_eq_str(&hv, expected) {
                    Err(MoveError::Verification("目标内容与已发布记录不一致，拒绝撤销"))
                } else {
                    Ok(())
                }
            },
            None => Ok(()),
        },
    }
}

/// The verdict on removing a published copy: the target must still carry the
/// recorded identity, snapshot and content hash.
pub open spec fn published_target_result(
    observed: Result<ObservedFile, ObserveError>,
    target_hash: Result<[u8; 32], std::io::Error>,
    identity: IdentityView,
    snapshot: FileSnapshot,
    content_hash: Seq<char>,
) -> Result<(), MoveFault> {
    match observed {
        Err(e) => Err(MoveFault::Observe(e)),
        Ok(o) => if o.identity@ != identity {
            Err(MoveFault::Verification("目标已被其他文件替换，拒绝撤销"@))
        } else if o.snapshot != snapshot {
            Err(MoveFault::Verification("目标在复制后已被修改，拒绝撤销"@))
        } else {
            match target_hash {
                Err(e) => Err(MoveFault::Io(e)),
                Ok(h) => if hex_of(h@) != content_hash {
                    Err(MoveFault::Verification("目标内容与已发布副本不一致，拒绝撤销"@))
                } else {
                    Ok(())
                },
            }
        },
    }
}

/// A published copy may be removed only while it is exactly what was published.
pub fn validate_published_target(
    observed: Result<ObservedFile, ObserveError>,
    target_hash: Result<[u8; 32], std::io::Error>,
    published_identity: &FileIdentity,
    published_snapshot: &FileSnapshot,
    published_hash: &str,
) -> (r: Result<(), MoveError>)
    ensures
        match r {
            Ok(()) => published_target_result(
                observed,
                target_hash,
                published_identity@,
                *published_snapshot,
                published_hash@,
            ) is Ok,
            Err(e) => published_target_result(
                observed,
                target_hash,
                published_identity@,
                *published_snapshot,
                published_hash@,
            ) == Err::<(), MoveFault>(e@),
        },
{
    let o = match observed {
        Ok(o) => o,
        Err(e) => return Err(MoveError::Observe(e)),
    };
    if !o.identity.same_as(published_identity) {
        return Err(MoveError::Verification("目标已被其他文件替换，拒绝撤销"));
    }
    if o.snapshot != *published_snapshot {
        return Err(MoveError::Verification("目标在复制后已被修改，拒绝撤销"));
    }
    match target_hash {
        Err(e) => Err(MoveError::Io(e)),
        Ok(h) => {
            let hex = hex_hash(h);
            let hv = chars_of(hex.as_str());
            if !chars_eq_str(&hv, published_hash) {
                Err(MoveError::Verification("目标内容与已发布副本不一致，拒绝撤销"))
            } else {
                Ok(())
            }
        },
    }
}


/// Why a stored plan could not be executed or an operation could not be undone.
#[derive(Debug)]
pub enum WorkflowError {
    PlanNotFound,
    PlanNotReady(String),
    PlanExpired,
    EmptyPlan,
    UnsupportedOperationKind(String),
    OperationNotFound,
    OperationNotUndoable(String),
    MissingPublishedIdentity,
    MissingPublishedVerification,
    ItemFailed { ordinal: i64, message: String },
    Move(MoveError),
    Preflight(PreflightError),
    Storage(StorageError),
    Io(std::io::Error),
}

/// A stored plan runs only while it is ready, unexpired and non-empty.
pub fn plan_execution_gate(
    status: &str,
    expires_at_ms: i64,
    now_ms: i64,
    item_count: usize,
) -> (r: Result<(), WorkflowError>)
    ensures
        status@ != "ready"@ ==> (r matches Err(WorkflowError::PlanNotReady(s)) && s@ == status@),
        status@ == "ready"@ && expires_at_ms < now_ms ==> r matches Err(WorkflowError::PlanExpired),
        status@ == "ready"@ && expires_at_ms >= now_ms && item_count == 0 ==> r matches Err(
            WorkflowError::EmptyPlan,
        ),
        status@ == "ready"@ && expires_at_ms >= now_ms && item_count > 0 ==> r is Ok,
{
    let v = chars_of(status);
    if !chars_eq_str(&v, "ready") {
        return Err(WorkflowError::PlanNotReady(string_from_str(status)));
    }
    if expires_at_ms < now_ms {
        return Err(WorkflowError::PlanExpired);
    }
    if item_count == 0 {
        return Err(WorkflowError::EmptyPlan);
    }
    Ok(())
}

/// An operation whose item failed is simply failed while nothing was published yet,
/// and needs recovery once something was.
pub fn failed_operation_status(completed_items: usize) -> (r: OperationStatus)
    ensures
        completed_items == 0 ==> r == OperationStatus::Failed,
        completed_items > 0 ==> r == OperationStatus::RecoveryNeeded,
{
    if completed_items == 0 {
        OperationStatus::Failed
    } else {
        OperationStatus::RecoveryNeeded
    }
}

/// The index record that a published item is reconciled under: none for the trash
/// (the file is marked missing instead), a fresh copy record for copies, and for other
/// kinds the planned file's record or, when the plan has none, a fresh moved record.
pub open spec fn published_record_id(
    kind: FileOperationKind,
    operation_id: Seq<char>,
    ordinal: i64,
    file_id: Option<Seq<char>>,
) -> Option<Seq<char>> {
    if kind == FileOperationKind::Trash {
        None
    } else if kind == FileOperationKind::Copy {
        Some("copy-"@ + operation_id + "-"@ + int_decimal(ordinal as int))
    } else {
        match file_id {
            Some(f) => Some(f),
            None => Some("moved-"@ + operation_id + "-"@ + int_decimal(ordinal as int)),
        }
    }
}

/// The index record for a published item.
pub fn published_record_id_for(
    kind: FileOperationKind,
    operation_id: &str,
    ordinal: i64,
    file_id: &Option<String>,
) -> (r: Option<String>)
    ensures
        match r {
            Some(s) => published_record_id(
                kind,
                operation_id@,
                ordinal,
                match file_id {
                    Some(f) => Some(f@),
                    None => None,
                },
            ) == Some(s@),
            None => published_record_id(
                kind,
                operation_id@,
                ordinal,
                match file_id {
                    Some(f) => Some(f@),
                    None => None,
                },
            ) is None,
        },
{
    if kind == FileOperationKind::Trash {
        return None;
    }
    let prefix = if kind == FileOperationKind::Copy {
        "copy-"
    } else {
        match file_id {
            Some(f) => {
                return Some(f.clone());
            },
            None => "moved-",
        }
    };
    let mut out = chars_of(prefix);
    append_chars(&mut out, &chars_of(operation_id));
    out.push('-');
    append_decimal(&mut out, ordinal);
    proof {
        reveal_strlit("-");
    }
    assert(seq!['-'] == "-"@);
    Some(string_from_chars(&out))
}

/// Only completed or recovering operations may be undone; a recovering one rolls back
/// only its published items.
pub fn undo_gate(status: &str) -> (r: Result<bool, WorkflowError>)
    ensures
        status@ == "completed"@ ==> r == Ok::<bool, WorkflowError>(false),
        status@ == "recovery_needed"@ ==> r == Ok::<bool, WorkflowError>(true),
        status@ != "completed"@ && status@ != "recovery_needed"@ ==> (r matches Err(
            WorkflowError::OperationNotUndoable(s),
        ) && s@ == status@),
{
    let v = chars_of(status);
    let is_recovery = chars_eq_str(&v, "recovery_needed");
    if !chars_eq_str(&v, "completed") && !is_recovery {
        return Err(WorkflowError::OperationNotUndoable(string_from_str(status)));
    }
    proof {
        reveal_strlit("completed");
        reveal_strlit("recovery_needed");
        assert("completed"@.len() != "recovery_needed"@.len());
    }
    Ok(is_recovery)
}

/// Item statuses that mean the item was published.
pub open spec fn is_published_status(s: Seq<char>) -> bool {
    s == "completed"@ || s == "published"@ || s == "verified"@ || s == "rollback_pending"@
}

/// An undo of a recovering operation skips items that were never published.
pub fn undo_item_selected(is_recovery: bool, item_status: &str) -> (r: bool)
    ensures
        r == (!is_recovery || is_published_status(item_status@)),
{
    if !is_recovery {
        return true;
    }
    let v = chars_of(item_status);
    chars_eq_str(&v, "completed") || chars_eq_str(&v, "published") || chars_eq_str(&v, "verified")
        || chars_eq_str(&v, "rollback_pending")
}

/// What was found at a published copy just before removing it.
#[derive(Debug)]
pub enum CopyUndoObservation {
    Missing,
    Unreadable(ObserveError),
    Present(ObservedFile),
}

/// What undoing one published copy does.
#[derive(Debug)]
pub enum CopyUndoStep {
    /// The copy is already gone; the item counts as rolled back.
    AlreadyRemoved,
    /// The copy could not be checked; the undo stops.
    Unverifiable(ObserveError),
    /// The copy is no longer what was published; the undo stops.
    Changed(&'static str),
    /// The copy is still what was published and may be removed.
    Remove,
}

/// Value view of a copy undo step.
pub enum CopyUndoAction {
    AlreadyRemoved,
    Unverifiable(ObserveError),
    Changed(Seq<char>),
    Remove,
}

impl View for CopyUndoStep {
    type V = CopyUndoAction;

    open spec fn view(&self) -> CopyUndoAction {
        match self {
            CopyUndoStep::AlreadyRemoved => CopyUndoAction::AlreadyRemoved,
            CopyUndoStep::Unverifiable(e) => CopyUndoAction::Unverifiable(*e),
            CopyUndoStep::Changed(m) => CopyUndoAction::Changed(m@),
            CopyUndoStep::Remove => CopyUndoAction::Remove,
        }
    }
}

/// The step for one published copy, rechecked against the recorded identity and
/// snapshot where they were recorded.
pub open spec fn copy_undo_action(
    observation: CopyUndoObservation,
    identity: Option<IdentityView>,
    snapshot: Option<FileSnapshot>,
) -> CopyUndoAction {
    match observation {
        CopyUndoObservation::Missing => CopyUndoAction::AlreadyRemoved,
        CopyUndoObservation::Unreadable(e) => CopyUndoAction::Unverifiable(e),
        CopyUndoObservation::Present(o) => if identity is Some && o.identity@ != identity->0 {
            CopyUndoAction::Changed("副本身份已变化，可能已被替换，终止撤销"@)
        } else if snapshot is Some && o.snapshot != snapshot->0 {
            CopyUndoAction::Changed("副本已被修改，终止撤销"@)
        } else {
            CopyUndoAction::Remove
        },
    }
}

/// Decides what to do with one published copy when a copy operation is undone.
pub fn copy_undo_step(
    observation: CopyUndoObservation,
    recorded_identity: Option<&FileIdentity>,
    recorded_snapshot: Option<&FileSnapshot>,
) -> (r: CopyUndoStep)
    ensures
        r@ == copy_undo_action(
            observation,
            match recorded_identity {
                Some(i) => Some(i@),
                None => None,
            },
            match recorded_snapshot {
                Some(s) => Some(*s),
                None => None,
            },
        ),
{
    match observation {
        CopyUndoObservation::Missing => CopyUndoStep::AlreadyRemoved,
        CopyUndoObservation::Unreadable(e) => CopyUndoStep::Unverifiable(e),
        CopyUndoObservation::Present(o) => {
            match recorded_identity {
                Some(i) => {
                    if !o.identity.same_as(i) {
                        return CopyUndoStep::Changed("副本身份已变化，可能已被替换，终止撤销");
                    }
                },
                None => {},
            }
            match recorded_snapshot {
                Some(snap) => {
                    if o.snapshot != *snap {
                        return CopyUndoStep::Changed("副本已被修改，终止撤销");
                    }
                },
                None => {},
            }
            CopyUndoStep::Remove
        },
    }
}

fn same_hash(a: &[u8; 32], b: &[u8; 32]) -> (r: bool)
    ensures
        r == (a@ == b@),
{
    let mut i: usize = 0;
    while i < 32
        invariant
            i <= 32,
            a@.len() == 32,
            b@.len() == 32,
            forall|j: int| 0 <= j < i ==> a@[j] == b@[j],
        decreases 32 - i,
    {
        if a[i] != b[i] {
            return false;
        }
        i += 1;
    }
    assert(a@ =~= b@);
    true
}

/// What an atomic rename must show: the planned identity at the target, with the
/// planned size and the source's content hash.
pub open spec fn atomic_move_result(
    intent: MoveIntent,
    source_hash: Seq<u8>,
    observed: Result<ObservedFile, ObserveError>,
    target_hash: Result<[u8; 32], std::io::Error>,
) -> Result<(IdentityView, FileSnapshot), MoveFault> {
    match observed {
        Err(e) => Err(MoveFault::Observe(e)),
        Ok(o) => if o.identity@ != intent.expected_identity@ {
            Err(MoveFault::Verification("原子移动后文件身份发生变化"@))
        } else if o.snapshot.size != intent.expected_snapshot.size {
            Err(MoveFault::Verification("原子移动后文件内容发生变化"@))
        } else {
            match target_hash {
                Err(e) => Err(MoveFault::Io(e)),
                Ok(h) => if h@ != source_hash {
                    Err(MoveFault::Verification("原子移动后文件内容发生变化"@))
                } else {
                    Ok((o.identity@, o.snapshot))
                },
            }
        },
    }
}

/// Checks the target of an atomic rename and describes the finished move.
pub fn verify_atomic_move(
    intent: &MoveIntent,
    source_hash: [u8; 32],
    observed: Result<ObservedFile, ObserveError>,
    target_hash: Result<[u8; 32], std::io::Error>,
) -> (r: Result<MoveOutcome, MoveError>)
    ensures
        match r {
            Ok(out) => atomic_move_result(*intent, source_hash@, observed, target_hash) == Ok::<
                (IdentityView, FileSnapshot),
                MoveFault,
            >((out.target_identity@, out.target_snapshot)) && out.transfer
                == TransferKind::AtomicRename && out.content_hash@ == source_hash@,
            Err(e) => atomic_move_result(*intent, source_hash@, observed, target_hash) == Err::<
                (IdentityView, FileSnapshot),
                MoveFault,
            >(e@),
        },
{
    let o = match observed {
        Ok(o) => o,
        Err(e) => return Err(MoveError::Observe(e)),
    };
    if !o.identity.same_as(&intent.expected_identity) {
        return Err(MoveError::Verification("原子移动后文件身份发生变化"));
    }
    if o.snapshot.size != intent.expected_snapshot.size {
        return Err(MoveError::Verification("原子移动后文件内容发生变化"));
    }
    match target_hash {
        Err(e) => Err(MoveError::Io(e)),
        Ok(h) => if !same_hash(&h, &source_hash) {
            Err(MoveError::Verification("原子移动后文件内容发生变化"))
        } else {
            Ok(
                MoveOutcome {
                    transfer: TransferKind::AtomicRename,
                    target_identity: o.identity,
                    target_snapshot: o.snapshot,
                    content_hash: source_hash,
                },
            )
        },
    }
}

/// What a temporary copy must show before it is published: the source is still the
/// planned file and the copy has the source's hash.
pub open spec fn copy_source_result(
    intent: MoveIntent,
    source_hash: Seq<u8>,
    source_after_copy: Result<ObservedFile, ObserveError>,
    temporary_hash: Result<[u8; 32], std::io::Error>,
) -> Result<(), MoveFault> {
    match source_after_copy {
        Err(e) => Err(MoveFault::Observe(e)),
        Ok(o) => if o.identity@ != intent.expected_identity@ || o.snapshot
            != intent.expected_snapshot {
            Err(MoveFault::Verification("跨卷复制期间源文件发生变化"@))
        } else {
            match temporary_hash {
                Err(e) => Err(MoveFault::Io(e)),
                Ok(h) => if h@ != source_hash {
                    Err(MoveFault::Verification("临时副本哈希不一致"@))
                } else {
                    Ok(())
                },
            }
        },
    }
}

/// Checks a temporary copy before it is published.
pub fn verify_copy_source(
    intent: &MoveIntent,
    source_hash: [u8; 32],
    source_after_copy: Result<ObservedFile, ObserveError>,
    temporary_hash: Result<[u8; 32], std::io::Error>,
) -> (r: Result<(), MoveError>)
    ensures
        match r {
            Ok(()) => copy_source_result(*intent, source_hash@, source_after_copy, temporary_hash)
                is Ok,
            Err(e) => copy_source_result(*intent, source_hash@, source_after_copy, temporary_hash)
                == Err::<(), MoveFault>(e@),
        },
{
    let o = match source_after_copy {
        Ok(o) => o,
        Err(e) => return Err(MoveError::Observe(e)),
    };
    if !o.identity.same_as(&intent.expected_identity) || o.snapshot != intent.expected_snapshot {
        return Err(MoveError::Verification("跨卷复制期间源文件发生变化"));
    }
    match temporary_hash {
        Err(e) => Err(MoveError::Io(e)),
        Ok(h) => if !same_hash(&h, &source_hash) {
            Err(MoveError::Verification("临时副本哈希不一致"))
        } else {
            Ok(())
        },
    }
}

/// What a published copy must show: the planned size and the source's hash.
pub open spec fn published_copy_result(
    intent: MoveIntent,
    source_hash: Seq<u8>,
    observed: Result<ObservedFile, ObserveError>,
    target_hash: Result<[u8; 32], std::io::Error>,
) -> Result<(IdentityView, FileSnapshot), MoveFault> {
    match observed {
        Err(e) => Err(MoveFault::Observe(e)),
        Ok(o) => if o.snapshot.size != intent.expected_snapshot.size {
            Err(MoveFault::Verification("发布后的目标文件内容不一致"@))
        } else {
            match target_hash {
                Err(e) => Err(MoveFault::Io(e)),
                Ok(h) => if h@ != source_hash {
                    Err(MoveFault::Verification("发布后的目标文件内容不一致"@))
                } else {
                    Ok((o.identity@, o.snapshot))
                },
            }
        },
    }
}

/// Checks a published copy and describes the finished transfer: a cross-volume move
/// when the source is to be removed, a verified copy otherwise.
pub fn verify_published_copy(
    intent: &MoveIntent,
    source_hash: [u8; 32],
    observed: Result<ObservedFile, ObserveError>,
    target_hash: Result<[u8; 32], std::io::Error>,
    remove_source: bool,
) -> (r: Result<MoveOutcome, MoveError>)
    ensures
        match r {
            Ok(out) => published_copy_result(*intent, source_hash@, observed, target_hash) == Ok::<
                (IdentityView, FileSnapshot),
                MoveFault,
            >((out.target_identity@, out.target_snapshot)) && out.transfer == (if remove_source {
                TransferKind::CrossVolumeCopy
            } else {
                TransferKind::VerifiedCopy
            }) && out.content_hash@ == source_hash@,
            Err(e) => published_copy_result(*intent, source_hash@, observed, target_hash) == Err::<
                (IdentityView, FileSnapshot),
                MoveFault,
            >(e@),
        },
{
    let o = match observed {
        Ok(o) => o,
        Err(e) => return Err(MoveError::Observe(e)),
    };
    if o.snapshot.size != intent.expected_snapshot.size {
        return Err(MoveError::Verification("发布后的目标文件内容不一致"));
    }
    match target_hash {
        Err(e) => Err(MoveError::Io(e)),
        Ok(h) => if !same_hash(&h, &source_hash) {
            Err(MoveError::Verification("发布后的目标文件内容不一致"))
        } else {
            Ok(
                MoveOutcome {
                    transfer: if remove_source {
                        TransferKind::CrossVolumeCopy
                    } else {
                        TransferKind::VerifiedCopy
                    },
                    target_identity: o.identity,
                    target_snapshot: o.snapshot,
                    content_hash: source_hash,
                },
            )
        },
    }
}

/// The bytes hashed for a stable record id: each part in UTF-8 followed by a zero byte.
pub open spec fn record_id_material(parts: Seq<Seq<char>>) -> Seq<u8>
    decreases parts.len(),
{
    if parts.len() == 0 {
        seq![]
    } else {
        record_id_material(parts.drop_last()) + vstd::utf8::encode_utf8(parts.last()) + seq![0u8]
    }
}

/// The parts that identify a file within a library.
pub open spec fn file_id_parts(library_id: Seq<char>, identity: IdentityView) -> Seq<Seq<char>> {
    seq![
        library_id,
        platform_name(identity.platform),
        identity.volume_id,
        identity.native_file_id,
        match identity.generation {
            Some(g) => g,
            None => seq![],
        },
    ]
}

/// The stable index record id of a file: `file_` and the hex BLAKE3 digest of the
/// library id and the file's identity.
pub open spec fn stable_file_id_of(library_id: Seq<char>, identity: IdentityView) -> Seq<char> {
    "file_"@ + hex_of(blake3_of(record_id_material(file_id_parts(library_id, identity))))
}

/// Appends a part's UTF-8 bytes and a zero byte.
pub fn push_record_part(data: &mut Vec<u8>, part: &str)
    ensures
        final(data)@ == old(data)@ + vstd::utf8::encode_utf8(part@) + seq![0u8],
{
    let bytes = part.as_bytes();
    let mut i: usize = 0;
    let ghost start = data@;
    while i < bytes.len()
        invariant
            i <= bytes.len(),
            bytes@ == vstd::utf8::encode_utf8(part@),
            data@ == start + bytes@.take(i as int),
        decreases bytes.len() - i,
    {
        data.push(bytes[i]);
        i += 1;
        assert(bytes@.take(i as int) =~= bytes@.take(i - 1).push(bytes@[i - 1]));
    }
    assert(bytes@.take(bytes.len() as int) =~= bytes@);
    data.push(0u8);
}

/// The stable index record id of a file in a library.
pub fn stable_file_id(library_id: &str, identity: &FileIdentity) -> (r: String)
    ensures
        r@ == stable_file_id_of(library_id@, identity@),
{
    let mut data: Vec<u8> = Vec::new();
    push_record_part(&mut data, library_id);
    push_record_part(&mut data, identity.platform.as_str());
    push_record_part(&mut data, identity.volume_id.as_str());
    push_record_part(&mut data, identity.native_file_id.as_str());
    let generation: &str = match &identity.generation {
        Some(g) => g.as_str(),
        None => "",
    };
    push_record_part(&mut data, generation);
    proof {
        let parts = file_id_parts(library_id@, identity@);
        reveal_strlit("");
        assert(parts.drop_last().drop_last().drop_last().drop_last().drop_last() =~= Seq::<
            Seq<char>,
        >::empty());
        reveal_with_fuel(record_id_material, 6);
        assert(parts.drop_last().drop_last().drop_last().drop_last() =~= seq![library_id@]);
        assert(parts.drop_last().drop_last().drop_last() =~= seq![
            library_id@,
            platform_name(identity.platform),
        ]);
        assert(parts.drop_last().drop_last() =~= seq![
            library_id@,
            platform_name(identity.platform),
            identity.volume_id@,
        ]);
        assert(parts.drop_last() =~= seq![
            library_id@,
            platform_name(identity.platform),
            identity.volume_id@,
            identity.native_file_id@,
        ]);
        assert(data@ =~= record_id_material(parts));
    }
    let digest = blake3_digest(data.as_slice());
    let hex = hex_hash(digest);
    let mut out = string_from_str("file_");
    out.append(hex.as_str());
    out
}


/// What a start-up audit knows about one logged item of an interrupted operation: the
/// logged source identity, the logged published identity (if any), and the identities
/// now found at the source and target paths.
#[derive(Debug, Clone, PartialEq, Eq)]
pub struct RecoveryItemCheck {
    pub source_identity: FileIdentity,
    pub target_identity: Option<FileIdentity>,
    pub observed_source: Option<FileIdentity>,
    pub observed_target: Option<FileIdentity>,
}

/// How an audit settles one interrupted operation.
#[derive(Debug, Clone, Copy, PartialEq, Eq, Structural)]
pub enum RecoveryResolution {
    /// An undo had restored every source: the operation is rolled back.
    RolledBack,
    /// An undo had not moved anything back: the operation stays completed.
    RollbackNotStarted,
    /// An undo left a mixed state: manual review, nothing is touched.
    AmbiguousRollback,
    /// Nothing was moved yet: the operation failed and its plan is ready again.
    NotStarted,
    /// Every item reached its target: the operation is completed.
    Completed,
    /// A mixed state: manual review, nothing is touched.
    Ambiguous,
}

pub open spec fn opt_identity_view(o: Option<FileIdentity>) -> Option<IdentityView> {
    match o {
        Some(i) => Some(i@),
        None => None,
    }
}

/// The item is untouched: its source is still there and nothing is at its target.
pub open spec fn item_source_only(c: RecoveryItemCheck) -> bool {
    identity_matches(c.observed_source, c.source_identity@) && c.observed_target is None
}

/// The item finished: for a copy, the source is intact and the recorded copy is at the
/// target; otherwise the source is gone and the target holds the published identity
/// (or, when none was logged, the source identity).
pub open spec fn item_target_only(kind: FileOperationKind, c: RecoveryItemCheck) -> bool {
    if kind == FileOperationKind::Copy {
        identity_matches(c.observed_source, c.source_identity@) && c.target_identity is Some
            && opt_identity_view(c.observed_target) == opt_identity_view(c.target_identity)
    } else {
        let expected = match c.target_identity {
            Some(t) => t@,
            None => c.source_identity@,
        };
        c.observed_source is None && identity_matches(c.observed_target, expected)
    }
}

pub open spec fn all_source_only(items: Seq<RecoveryItemCheck>) -> bool {
    forall|i: int| 0 <= i < items.len() ==> item_source_only(#[trigger] items[i])
}

pub open spec fn all_target_only(kind: FileOperationKind, items: Seq<RecoveryItemCheck>) -> bool {
    forall|i: int| 0 <= i < items.len() ==> item_target_only(kind, #[trigger] items[i])
}

/// How an interrupted operation in `status` is settled from its items' checks.
pub open spec fn recovery_resolution(
    kind: FileOperationKind,
    status: Seq<char>,
    items: Seq<RecoveryItemCheck>,
) -> RecoveryResolution {
    if status == "rollback_pending"@ {
        if all_source_only(items) {
            RecoveryResolution::RolledBack
        } else if all_target_only(kind, items) {
            RecoveryResolution::RollbackNotStarted
        } else {
            RecoveryResolution::AmbiguousRollback
        }
    } else if all_source_only(items) {
        RecoveryResolution::NotStarted
    } else if all_target_only(kind, items) {
        RecoveryResolution::Completed
    } else {
        RecoveryResolution::Ambiguous
    }
}

fn opt_identity_eq(a: &Option<FileIdentity>, b: &Option<FileIdentity>) -> (r: bool)
    ensures
        r == (opt_identity_view(*a) == opt_identity_view(*b)),
{
    match (a, b) {
        (Some(x), Some(y)) => x.same_as(y),
        (None, None) => true,
        _ => false,
    }
}

fn check_source_only(c: &RecoveryItemCheck) -> (r: bool)
    ensures
        r == item_source_only(*c),
{
    identity_is(&c.observed_source, &c.source_identity) && c.observed_target.is_none()
}

fn check_target_only(kind: FileOperationKind, c: &RecoveryItemCheck) -> (r: bool)
    ensures
        r == item_target_only(kind, *c),
{
    if kind == FileOperationKind::Copy {
        identity_is(&c.observed_source, &c.source_identity) && c.target_identity.is_some()
            && opt_identity_eq(&c.observed_target, &c.target_identity)
    } else {
        let matches = match &c.target_identity {
            Some(t) => identity_is(&c.observed_target, t),
            None => identity_is(&c.observed_target, &c.source_identity),
        };
        c.observed_source.is_none() && matches
    }
}

/// Settles an interrupted operation from what its items' paths show now. Only states
/// that admit one reading are settled; anything else is left for manual review.
pub fn resolve_recovery(
    kind: FileOperationKind,
    status: &str,
    items: &Vec<RecoveryItemCheck>,
) -> (r: RecoveryResolution)
    ensures
        r == recovery_resolution(kind, status@, items@),
{
    let mut source_only = true;
    let mut target_only = true;
    let mut i: usize = 0;
    while i < items.len()
        invariant
            i <= items.len(),
            source_only == forall|j: int| 0 <= j < i ==> item_source_only(#[trigger] items@[j]),
            target_only == forall|j: int|
                0 <= j < i ==> item_target_only(kind, #[trigger] items@[j]),
        decreases items.len() - i,
    {
        let s = check_source_only(&items[i]);
        let t = check_target_only(kind, &items[i]);
        source_only = source_only && s;
        target_only = target_only && t;
        i += 1;
    }
    let v = chars_of(status);
    if chars_eq_str(&v, "rollback_pending") {
        if source_only {
            RecoveryResolution::RolledBack
        } else if target_only {
            RecoveryResolution::RollbackNotStarted
        } else {
            RecoveryResolution::AmbiguousRollback
        }
    } else if source_only {
        RecoveryResolution::NotStarted
    } else if target_only {
        RecoveryResolution::Completed
    } else {
        RecoveryResolution::Ambiguous
    }
}

impl RecoveryAudit {
    /// Counts one settled operation.
    pub fn record(&mut self, resolution: RecoveryResolution)
        requires
            old(self).not_started < usize::MAX,
            old(self).completed < usize::MAX,
            old(self).needs_attention < usize::MAX,
        ensures
            final(self).not_started == old(self).not_started + (if resolution
                == RecoveryResolution::NotStarted || resolution
                == RecoveryResolution::RollbackNotStarted {
                1int
            } else {
                0int
            }),
            final(self).completed == old(self).completed + (if resolution
                == RecoveryResolution::Completed || resolution == RecoveryResolution::RolledBack {
                1int
            } else {
                0int
            }),
            final(self).needs_attention == old(self).needs_attention + (if resolution
                == RecoveryResolution::Ambiguous || resolution
                == RecoveryResolution::AmbiguousRollback {
                1int
            } else {
                0int
            }),
    {
        match resolution {
            RecoveryResolution::NotStarted | RecoveryResolution::RollbackNotStarted => {
                self.not_started = self.not_started + 1;
            },
            RecoveryResolution::Completed | RecoveryResolution::RolledBack => {
                self.completed = self.completed + 1;
            },
            RecoveryResolution::Ambiguous | RecoveryResolution::AmbiguousRollback => {
                self.needs_attention = self.needs_attention + 1;
            },
        }
    }
}

/// Recovery settles only unambiguous states: an operation is treated as not started
/// (or rolled back) only when every source is intact and no target exists, and as
/// completed only when every item reached its target; an item that is neither leaves
/// the whole operation for manual review.
pub proof fn lemma_recovery_settles_only_unambiguous_states(
    kind: FileOperationKind,
    status: Seq<char>,
    items: Seq<RecoveryItemCheck>,
)
    ensures
        (recovery_resolution(kind, status, items) == RecoveryResolution::NotStarted
            || recovery_resolution(kind, status, items) == RecoveryResolution::RolledBack)
            ==> forall|i: int|
            0 <= i < items.len() ==> identity_matches(
                (#[trigger] items[i]).observed_source,
                items[i].source_identity@,
            ) && items[i].observed_target is None,
        (recovery_resolution(kind, status, items) == RecoveryResolution::Completed
            || recovery_resolution(kind, status, items) == RecoveryResolution::RollbackNotStarted)
            ==> forall|i: int| 0 <= i < items.len() ==> item_target_only(kind, #[trigger] items[i]),
        (exists|i: int|
            0 <= i < items.len() && !item_source_only(#[trigger] items[i]) && !item_target_only(
                kind,
                items[i],
            )) ==> (recovery_resolution(kind, status, items) == RecoveryResolution::Ambiguous
            || recovery_resolution(kind, status, items) == RecoveryResolution::AmbiguousRollback),
{
}


/// What every step planned by the rename fold satisfies.
pub open spec fn rename_fold_facts(
    croot: Seq<char>,
    reqs: Seq<RenameRequest>,
    planned: Seq<PlannedView>,
    reserved: Seq<Seq<char>>,
) -> bool {
    &&& planned.len() == reserved.len()
    &&& planned.len() <= reqs.len()
    &&& forall|i: int| 0 <= i < planned.len() ==> reserved[i] == target_key(#[trigger] planned[i].target)
    &&& forall|i: int, j: int|
        0 <= i < j < planned.len() ==> target_key(#[trigger] planned[i].target) != target_key(
            #[trigger] planned[j].target,
        )
    &&& forall|i: int|
        0 <= i < planned.len() ==> {
            &&& path_contained((#[trigger] planned[i]).source, croot)
            &&& planned[i].file_id == reqs[i].file_id@
            &&& rename_target(planned[i].source, reqs[i].new_name@) == Some(planned[i].target)
            &&& !path_eq(planned[i].source, planned[i].target)
            &&& name_problem(reqs[i].new_name@) is None
            &&& planned[i].identity == reqs[i].expected_identity@
            &&& planned[i].snapshot == reqs[i].expected_snapshot
        }
}

proof fn lemma_rename_fold_facts(
    croot: Seq<char>,
    reqs: Seq<RenameRequest>,
    facts: Seq<RenameFacts>,
    n: nat,
)
    requires
        n <= reqs.len(),
        rename_fold(croot, reqs, facts, n) is Ok,
    ensures
        rename_fold(croot, reqs, facts, n)->Ok_0.0.len() == n,
        rename_fold_facts(
            croot,
            reqs,
            rename_fold(croot, reqs, facts, n)->Ok_0.0,
            rename_fold(croot, reqs, facts, n)->Ok_0.1,
        ),
    decreases n,
{
    reveal(rename_step);
    if n > 0 {
        lemma_rename_fold_facts(croot, reqs, facts, (n - 1) as nat);
        let acc = rename_fold(croot, reqs, facts, (n - 1) as nat)->Ok_0;
        let p = rename_step(croot, reqs[n - 1], facts[n - 1], acc.1)->Ok_0;
        let planned = acc.0.push(p);
        let reserved = acc.1.push(target_key(p.target));
        assert forall|i: int, j: int| 0 <= i < j < planned.len() implies target_key(
            #[trigger] planned[i].target,
        ) != target_key(#[trigger] planned[j].target) by {
            if j == planned.len() - 1 {
                assert(acc.1[i] == target_key(planned[i].target));
                assert(acc.1.contains(target_key(planned[i].target)));
            }
        }
    }
}

proof fn lemma_rename_fold_preflight(
    croot: Seq<char>,
    reqs: Seq<RenameRequest>,
    facts: Seq<RenameFacts>,
    n: nat,
)
    requires
        n <= reqs.len(),
        rename_fold(croot, reqs, facts, n) is Ok,
    ensures
        forall|i: int|
            0 <= i < n ==> (#[trigger] facts[i]).canonical_source is Ok
                && rename_fold(croot, reqs, facts, n)->Ok_0.0[i].source == facts[i].canonical_source->Ok_0@
                && preflight_result(
                croot,
                rename_fold(croot, reqs, facts, n)->Ok_0.0[i].target,
                reqs[i].expected_identity@,
                reqs[i].expected_snapshot,
                facts[i].preflight,
            ) is Ok,
    decreases n,
{
    reveal(rename_step);
    if n > 0 {
        lemma_rename_fold_preflight(croot, reqs, facts, (n - 1) as nat);
        lemma_rename_fold_facts(croot, reqs, facts, (n - 1) as nat);
        let acc = rename_fold(croot, reqs, facts, (n - 1) as nat)->Ok_0;
        let p = rename_step(croot, reqs[n - 1], facts[n - 1], acc.1)->Ok_0;
        let planned = acc.0.push(p);
        assert forall|i: int| 0 <= i < n implies (#[trigger] facts[i]).canonical_source is Ok
            && planned[i].source == facts[i].canonical_source->Ok_0@ && preflight_result(
            croot,
            planned[i].target,
            reqs[i].expected_identity@,
            reqs[i].expected_snapshot,
            facts[i].preflight,
        ) is Ok by {
            if i < n - 1 {
                assert(planned[i] == acc.0[i]);
            }
        }
    }
}

/// A rename plan is all or nothing, and what it plans is safe: every step renames a
/// file inside the root to a valid new name in the same directory, no step leaves a
/// file where it is, and no two steps share a target, even up to case and Unicode
/// normalization; each step carries its request's file id, identity and snapshot, and
/// its move passed preflight. The steps come back one per request, sorted by source.
pub proof fn lemma_rename_plan_is_safe(
    reqs: Seq<RenameRequest>,
    canonical_root: Result<String, std::io::Error>,
    facts: Seq<RenameFacts>,
)
    requires
        rename_plan_result(reqs, canonical_root, facts) is Ok,
    ensures
        ({
            let planned = rename_plan_result(reqs, canonical_root, facts)->Ok_0;
            let croot = canonical_root->Ok_0@;
            &&& planned.len() == reqs.len()
            &&& forall|i: int, j: int|
                0 <= i < j < planned.len() ==> target_key(#[trigger] planned[i].target)
                    != target_key(#[trigger] planned[j].target)
            &&& forall|i: int|
                0 <= i < planned.len() ==> {
                    &&& path_contained((#[trigger] planned[i]).source, croot)
                    &&& rename_target(planned[i].source, reqs[i].new_name@) == Some(
                        planned[i].target,
                    )
                    &&& !path_eq(planned[i].source, planned[i].target)
                    &&& name_problem(reqs[i].new_name@) is None
                    &&& planned[i].file_id == reqs[i].file_id@
                    &&& planned[i].identity == reqs[i].expected_identity@
                    &&& planned[i].snapshot == reqs[i].expected_snapshot
                    &&& facts[i].canonical_source matches Ok(src) && planned[i].source == src@
                    &&& preflight_result(
                        croot,
                        planned[i].target,
                        reqs[i].expected_identity@,
                        reqs[i].expected_snapshot,
                        facts[i].preflight,
                    ) is Ok
                }
        }),
{
    let croot = canonical_root->Ok_0@;
    lemma_rename_fold_facts(croot, reqs, facts, reqs.len());
    lemma_rename_fold_preflight(croot, reqs, facts, reqs.len());
}

/// What every step planned by the copy fold satisfies.
pub open spec fn copy_fold_facts(
    rule: TargetRule,
    croot: Seq<char>,
    reqs: Seq<CopyRequest>,
    planned: Seq<PlannedView>,
    reserved: Seq<Seq<char>>,
) -> bool {
    &&& planned.len() == reserved.len()
    &&& forall|i: int| 0 <= i < planned.len() ==> reserved[i] == target_key(#[trigger] planned[i].target)
    &&& forall|i: int, j: int|
        0 <= i < j < planned.len() ==> target_key(#[trigger] planned[i].target) != target_key(
            #[trigger] planned[j].target,
        )
    &&& forall|i: int|
        0 <= i < planned.len() ==> {
            &&& copy_target(rule, croot, reqs[i].file_id@, (#[trigger] planned[i]).source) == Ok::<
                Seq<char>,
                CopyPlanFault,
            >(planned[i].target)
            &&& planned[i].file_id == reqs[i].file_id@
            &&& planned[i].identity == reqs[i].expected_identity@
            &&& planned[i].snapshot == reqs[i].expected_snapshot
        }
}

proof fn lemma_copy_fold_facts(
    rule: TargetRule,
    croot: Seq<char>,
    reqs: Seq<CopyRequest>,
    facts: Seq<CopyFacts>,
    n: nat,
)
    requires
        n <= reqs.len(),
        copy_fold(rule, croot, reqs, facts, n) is Ok,
    ensures
        copy_fold(rule, croot, reqs, facts, n)->Ok_0.0.len() == n,
        copy_fold_facts(
            rule,
            croot,
            reqs,
            copy_fold(rule, croot, reqs, facts, n)->Ok_0.0,
            copy_fold(rule, croot, reqs, facts, n)->Ok_0.1,
        ),
    decreases n,
{
    reveal(copy_step);
    if n > 0 {
        lemma_copy_fold_facts(rule, croot, reqs, facts, (n - 1) as nat);
        let acc = copy_fold(rule, croot, reqs, facts, (n - 1) as nat)->Ok_0;
        let p = copy_step(rule, croot, reqs[n - 1], facts[n - 1], acc.1)->Ok_0;
        let planned = acc.0.push(p);
        assert forall|i: int, j: int| 0 <= i < j < planned.len() implies target_key(
            #[trigger] planned[i].target,
        ) != target_key(#[trigger] planned[j].target) by {
            if j == planned.len() - 1 {
                assert(acc.1[i] == target_key(planned[i].target));
                assert(acc.1.contains(target_key(planned[i].target)));
            }
        }
    }
}

/// A copy plan puts every copy directly in the destination folder under its source's
/// file name, one step per request, and no two copies share a target, even up to case
/// and Unicode normalization.
pub proof fn lemma_copy_plan_targets_are_distinct(
    reqs: Seq<CopyRequest>,
    canonical_root: Result<String, std::io::Error>,
    destination: Result<EntryKind, std::io::Error>,
    canonical_destination: Result<String, std::io::Error>,
    facts: Seq<CopyFacts>,
)
    requires
        copy_plan_result(reqs, canonical_root, destination, canonical_destination, facts) is Ok,
    ensures
        ({
            let planned = copy_plan_result(
                reqs,
                canonical_root,
                destination,
                canonical_destination,
                facts,
            )->Ok_0;
            let dest = canonical_destination->Ok_0@;
            &&& planned.len() == reqs.len()
            &&& path_contained(dest, canonical_root->Ok_0@)
            &&& forall|i: int, j: int|
                0 <= i < j < planned.len() ==> target_key(#[trigger] planned[i].target)
                    != target_key(#[trigger] planned[j].target)
            &&& forall|i: int|
                0 <= i < planned.len() ==> file_name((#[trigger] planned[i]).source) is Some
                    && planned[i].target == path_join(dest, file_name(planned[i].source)->0)
        }),
{
    let croot = canonical_root->Ok_0@;
    let dest = canonical_destination->Ok_0@;
    lemma_copy_fold_facts(TargetRule::IntoDirectory(dest), croot, reqs, facts, reqs.len());
}

/// A trash plan keeps every file's path relative to the root inside the plan's own
/// namespace of the quarantine folder, one step per request, and no two steps share
/// a target, even up to case and Unicode normalization.
pub proof fn lemma_trash_plan_mirrors_relative_paths(
    reqs: Seq<CopyRequest>,
    namespace: Seq<char>,
    canonical_root: Result<String, std::io::Error>,
    quarantine: Option<Result<EntryKind, std::io::Error>>,
    facts: Seq<CopyFacts>,
)
    requires
        trash_plan_result(reqs, namespace, canonical_root, quarantine, facts) is Ok,
    ensures
        ({
            let planned = trash_plan_result(
                reqs,
                namespace,
                canonical_root,
                quarantine,
                facts,
            )->Ok_0;
            let croot = canonical_root->Ok_0@;
            let ns = path_join(path_join(croot, quarantine_dir_name()), namespace);
            &&& planned.len() == reqs.len()
            &&& name_problem(namespace) is None
            &&& forall|i: int, j: int|
                0 <= i < j < planned.len() ==> target_key(#[trigger] planned[i].target)
                    != target_key(#[trigger] planned[j].target)
            &&& forall|i: int|
                0 <= i < planned.len() ==> path_strip_prefix(
                    (#[trigger] planned[i]).source,
                    croot,
                ) is Some && planned[i].target == path_join(
                    ns,
                    path_strip_prefix(planned[i].source, croot)->0,
                )
        }),
{
    let croot = canonical_root->Ok_0@;
    let ns = path_join(path_join(croot, quarantine_dir_name()), namespace);
    lemma_copy_fold_facts(TargetRule::MirrorUnder(ns), croot, reqs, facts, reqs.len());
}

} // verus!
