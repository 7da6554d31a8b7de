//! Deterministic, fully local file-analysis rules: retention ranking, cleanup
//! candidates, exact-duplicate grouping, sampling and naming.
use vstd::prelude::*;
use vstd::bytes::{spec_u64_to_le_bytes, u64_to_le_bytes};
use crate::digest::{blake3_digest, blake3_of};
use crate::text::{
    chars_of, ends_with_chars, fold_name, folded, lower_fold, lowercase_chars, seq_chars_eq,
    seq_ends_with,
};
use crate::text::{chars_eq_str, contains_chars, seq_contains, string_from_chars, string_from_str, utf8_size};
use crate::text::{is_white_space, join_with, scan_words};
use crate::paths::{
    components, comps_view, file_name, file_name_of, path_components, path_key, path_key_of, Comp,
    Component,
};
use crate::order::{is_stable_key_order, keys_view, lemma_lex_le_head, lex_le, sort_positions_by_key};

verus! {

pub const DAY_NS: i64 = 86_400_000_000_000;

/// Thresholds for cleanup candidates.
#[derive(Debug, Clone, Copy, PartialEq, Eq, Structural)]
pub struct CleanupPolicy {
    pub large_file_bytes: u64,
    pub old_file_age_ns: i64,
    pub stale_download_age_ns: i64,
}

impl Default for CleanupPolicy {
    /// Defaults: 100 MiB, one year, 180 days.
    fn default() -> (r: Self)
        ensures
            r.large_file_bytes == 100 * 1024 * 1024,
            r.old_file_age_ns == 365 * DAY_NS,
            r.stale_download_age_ns == 180 * DAY_NS,
    {
        CleanupPolicy {
            large_file_bytes: 100 * 1024 * 1024,
            old_file_age_ns: 365 * DAY_NS,
            stale_download_age_ns: 180 * DAY_NS,
        }
    }
}

#[derive(Debug, Clone, Copy, PartialEq, Eq, Hash, Structural)]
pub enum CleanupReason {
    Large,
    Old,
    Temporary,
    StaleDownload,
}

/// The file name of a path, or the empty name.
pub open spec fn name_or_empty(path: Seq<char>) -> Seq<char> {
    match file_name(path) {
        Some(n) => n,
        None => seq![],
    }
}

pub open spec fn saturating_age(now_ns: i64, modified_at_ns: i64) -> int {
    let d = now_ns - modified_at_ns;
    let sat = if d > i64::MAX {
        i64::MAX as int
    } else if d < i64::MIN {
        i64::MIN as int
    } else {
        d
    };
    if sat < 0 {
        0
    } else {
        sat
    }
}

pub open spec fn temporary_suffixes() -> Seq<Seq<char>> {
    seq![".tmp"@, ".temp"@, ".cache"@, ".log"@, ".bak"@, ".old"@]
}

/// The folded name ends with a temporary-file suffix or with `~`.
pub open spec fn is_temporary_name(folded_name: Seq<char>) -> bool {
    (exists|i: int| 0 <= i < 6 && seq_ends_with(folded_name, #[trigger] temporary_suffixes()[i]))
        || seq_ends_with(folded_name, seq!['~'])
}

pub open spec fn is_download_dir_name(lowered: Seq<char>) -> bool {
    lowered == "downloads"@ || lowered == "download"@ || lowered == "下载"@
}

/// Some component of the path, lowercased, names a download directory.
pub open spec fn in_downloads(path: Seq<char>) -> bool {
    let c = path_components(path);
    exists|i: int|
        0 <= i < c.len() && (#[trigger] c[i]) is Normal && is_download_dir_name(
            lower_fold(c[i]->Normal_0),
        )
}

/// The reasons, in order, why a file is a cleanup candidate.
pub open spec fn cleanup_spec(
    path: Seq<char>,
    size: u64,
    modified_at_ns: i64,
    now_ns: i64,
    policy: CleanupPolicy,
) -> Seq<CleanupReason> {
    let age = saturating_age(now_ns, modified_at_ns);
    let r1: Seq<CleanupReason> = if size >= policy.large_file_bytes {
        seq![CleanupReason::Large]
    } else {
        seq![]
    };
    let r2 = if age >= policy.old_file_age_ns {
        r1.push(CleanupReason::Old)
    } else {
        r1
    };
    let r3 = if is_temporary_name(folded(name_or_empty(path))) {
        r2.push(CleanupReason::Temporary)
    } else {
        r2
    };
    if in_downloads(path) && age >= policy.stale_download_age_ns {
        r3.push(CleanupReason::StaleDownload)
    } else {
        r3
    }
}

fn name_chars(path: &Vec<char>) -> (r: Vec<char>)
    ensures
        r@ == name_or_empty(path@),
{
    match file_name_of(path) {
        Some(n) => n,
        None => Vec::new(),
    }
}

fn is_temporary(name: &Vec<char>) -> (r: bool)
    ensures
        r == is_temporary_name(name@),
{
    let suffixes = [".tmp", ".temp", ".cache", ".log", ".bak", ".old"];
    let mut i: usize = 0;
    while i < 6
        invariant
            i <= 6,
            forall|k: int| 0 <= k < i ==> !seq_ends_with(name@, #[trigger] temporary_suffixes()[k]),
            suffixes@[0]@ == ".tmp"@,
            suffixes@[1]@ == ".temp"@,
            suffixes@[2]@ == ".cache"@,
            suffixes@[3]@ == ".log"@,
            suffixes@[4]@ == ".bak"@,
            suffixes@[5]@ == ".old"@,
        decreases 6 - i,
    {
        let s = chars_of(suffixes[i]);
        assert(s@ == temporary_suffixes()[i as int]);
        if ends_with_chars(name, &s) {
            return true;
        }
        i += 1;
    }
    let mut tilde: Vec<char> = Vec::new();
    tilde.push('~');
    assert(tilde@ =~= seq!['~']);
    ends_with_chars(name, &tilde)
}

fn has_download_component(path: &Vec<char>) -> (r: bool)
    ensures
        r == in_downloads(path@),
{
    let c = components(path);
    let ghost cv = comps_view(c@);
    let a = chars_of("downloads");
    let b = chars_of("download");
    let d = chars_of("下载");
    let mut i: usize = 0;
    while i < c.len()
        invariant
            i <= c.len(),
            cv == comps_view(c@),
            cv == path_components(path@),
            a@ == "downloads"@,
            b@ == "download"@,
            d@ == "下载"@,
            forall|k: int|
                0 <= k < i ==> !((#[trigger] cv[k]) is Normal && is_download_dir_name(
                    lower_fold(cv[k]->Normal_0),
                )),
        decreases c.len() - i,
    {
        assert(cv[i as int] == c@[i as int]@);
        match &c[i] {
            Component::Normal(n) => {
                let low = lowercase_chars(n);
                if seq_chars_eq(&low, &a) || seq_chars_eq(&low, &b) || seq_chars_eq(&low, &d) {
                    return true;
                }
            },
            _ => {},
        }
        i += 1;
    }
    false
}

/// Explainable cleanup candidates from indexed metadata only; never reads content
/// and never touches the file.
pub fn cleanup_reasons(
    path: &str,
    size: u64,
    modified_at_ns: i64,
    now_ns: i64,
    policy: CleanupPolicy,
) -> (r: Vec<CleanupReason>)
    ensures
        r@ == cleanup_spec(path@, size, modified_at_ns, now_ns, policy),
{
    let p = chars_of(path);
    let mut reasons: Vec<CleanupReason> = Vec::new();
    if size >= policy.large_file_bytes {
        reasons.push(CleanupReason::Large);
    }
    let wide = now_ns as i128 - modified_at_ns as i128;
    let age: i64 = if wide < 0 {
        0
    } else if wide > i64::MAX as i128 {
        i64::MAX
    } else {
        wide as i64
    };
    assert(age == saturating_age(now_ns, modified_at_ns));
    if age >= policy.old_file_age_ns {
        reasons.push(CleanupReason::Old);
    }
    let name = name_chars(&p);
    let folded_name = fold_name(&name);
    if is_temporary(&folded_name) {
        reasons.push(CleanupReason::Temporary);
    }
    if has_download_component(&p) && age >= policy.stale_download_age_ns {
        reasons.push(CleanupReason::StaleDownload);
    }
    proof {
        let s = cleanup_spec(p@, size, modified_at_ns, now_ns, policy);
        assert(reasons@ =~= s);
    }
    reasons
}


/// One file of an exact-duplicate group, offered for retention ranking.
#[derive(Debug, Clone, PartialEq, Eq)]
pub struct RetentionInput {
    pub path: String,
    pub modified_at_ns: i64,
}

/// A ranked, explained retention suggestion.
#[derive(Debug, Clone, PartialEq, Eq)]
pub struct RetentionRecommendation {
    pub path: String,
    pub score: i32,
    pub reasons: Vec<String>,
}

pub open spec fn strings_view(v: Seq<String>) -> Seq<Seq<char>> {
    v.map_values(|s: String| s@)
}

pub open spec fn is_newest(inputs: Seq<RetentionInput>, i: int) -> bool {
    forall|j: int| 0 <= j < inputs.len() ==> inputs[j].modified_at_ns <= inputs[i].modified_at_ns
}

pub open spec fn depth(path: Seq<char>) -> nat {
    path_components(path).len()
}

pub open spec fn is_shallowest(inputs: Seq<RetentionInput>, i: int) -> bool {
    forall|j: int| 0 <= j < inputs.len() ==> depth(inputs[i].path@) <= depth(inputs[j].path@)
}

pub open spec fn copy_markers() -> Seq<Seq<char>> {
    seq!["副本"@, "复制"@, "copy"@, "duplicate"@]
}

/// The folded file name holds one of the copy markers.
pub open spec fn has_copy_marker(path: Seq<char>) -> bool {
    exists|k: int| 0 <= k < 4 && seq_contains(folded(name_or_empty(path)), #[trigger] copy_markers()[k])
}

/// The text of a component (`Component::as_os_str`).
pub open spec fn comp_text(c: Comp) -> Seq<char> {
    match c {
        Comp::Root => "/"@,
        Comp::Cur => "."@,
        Comp::Parent => ".."@,
        Comp::Normal(n) => n,
    }
}

pub open spec fn is_dot_text(t: Seq<char>) -> bool {
    t.len() > 0 && t[0] == '.' && t != "."@ && t != ".."@
}

/// Some component of the path starts with a dot (a hidden directory or file).
pub open spec fn is_hidden_path(path: Seq<char>) -> bool {
    let c = path_components(path);
    exists|k: int| 0 <= k < c.len() && is_dot_text(comp_text(#[trigger] c[k]))
}

pub open spec fn raw_retention_score(inputs: Seq<RetentionInput>, i: int) -> int {
    let p = inputs[i].path@;
    50 + (if is_newest(inputs, i) {
        25int
    } else {
        0
    }) + (if is_shallowest(inputs, i) {
        15int
    } else {
        0
    }) + (if has_copy_marker(p) {
        -25int
    } else {
        10
    }) + (if is_hidden_path(p) {
        -20int
    } else {
        0
    })
}

pub open spec fn retention_score(inputs: Seq<RetentionInput>, i: int) -> int {
    let s = raw_retention_score(inputs, i);
    if s < 0 {
        0
    } else if s > 100 {
        100
    } else {
        s
    }
}

pub open spec fn retention_reasons(inputs: Seq<RetentionInput>, i: int) -> Seq<Seq<char>> {
    let p = inputs[i].path@;
    let r1: Seq<Seq<char>> = if is_newest(inputs, i) {
        seq!["同组中最近修改"@]
    } else {
        seq![]
    };
    let r2 = if is_shallowest(inputs, i) {
        r1.push("路径层级较浅"@)
    } else {
        r1
    };
    let r3 = if has_copy_marker(p) {
        r2.push("名称包含副本标记"@)
    } else {
        r2.push("名称无副本标记"@)
    };
    if is_hidden_path(p) {
        r3.push("位于隐藏目录或以点开头的路径"@)
    } else {
        r3
    }
}

/// Sort key of the recommendation for input `i`: higher score first, then path order.
pub open spec fn retention_key(inputs: Seq<RetentionInput>, i: int) -> Seq<u64> {
    seq![(100 - retention_score(inputs, i)) as u64] + path_key(inputs[i].path@)
}

pub open spec fn retention_keys(inputs: Seq<RetentionInput>) -> Seq<Seq<u64>> {
    Seq::new(inputs.len(), |i: int| retention_key(inputs, i))
}

/// The recommendation at output position `k` is the one for input `i`.
pub open spec fn recommends_input(
    r: RetentionRecommendation,
    inputs: Seq<RetentionInput>,
    i: int,
) -> bool {
    &&& r.path@ == inputs[i].path@
    &&& r.score == retention_score(inputs, i)
    &&& strings_view(r.reasons@) == retention_reasons(inputs, i)
}

proof fn lemma_retention_key_parts(inputs: Seq<RetentionInput>, i: int)
    ensures
        retention_key(inputs, i).len() > 0,
        retention_key(inputs, i)[0] == 100 - retention_score(inputs, i),
        retention_key(inputs, i).drop_first() == path_key(inputs[i].path@),
        0 <= retention_score(inputs, i) <= 100,
{
    assert(retention_key(inputs, i).drop_first() =~= path_key(inputs[i].path@));
}

proof fn lemma_marker_reasons(inputs: Seq<RetentionInput>, i: int)
    ensures
        retention_reasons(inputs, i).contains("名称包含副本标记"@) == has_copy_marker(inputs[i].path@),
        retention_reasons(inputs, i).contains("名称无副本标记"@) == !has_copy_marker(inputs[i].path@),
{
    reveal_strlit("同组中最近修改");
    reveal_strlit("路径层级较浅");
    reveal_strlit("名称包含副本标记");
    reveal_strlit("名称无副本标记");
    reveal_strlit("位于隐藏目录或以点开头的路径");
    let rs = retention_reasons(inputs, i);
    let a = "名称包含副本标记"@;
    let b = "名称无副本标记"@;
    let m = if has_copy_marker(inputs[i].path@) { a } else { b };
    let other = if has_copy_marker(inputs[i].path@) { b } else { a };
    assert(rs.contains(m)) by {
        let r2len: int = (if is_newest(inputs, i) { 1int } else { 0 }) + (if is_shallowest(inputs, i) { 1int } else { 0 });
        assert(rs[r2len] == m);
    }
    assert forall|k: int| 0 <= k < rs.len() implies rs[k] != other by {
        assert(rs[k][0] != other[0] || rs[k] == m);
    }
}

/// The ranking lists every input exactly once (by position), each with a score between
/// 0 and 100; higher scores come first and equal scores in path order; and each
/// recommendation says whether or not its file name carries a copy marker.
pub proof fn lemma_retention_ranking(inputs: Seq<RetentionInput>, r: Seq<RetentionRecommendation>)
    requires
        r.len() == inputs.len(),
        exists|order: Seq<usize>|
            is_stable_key_order(retention_keys(inputs), order) && forall|k: int|
                0 <= k < r.len() ==> recommends_input(#[trigger] r[k], inputs, order[k] as int),
    ensures
        forall|k: int| 0 <= k < r.len() ==> 0 <= (#[trigger] r[k]).score <= 100,
        forall|j: int, k: int| 0 <= j < k < r.len() ==> (#[trigger] r[j]).score >= (#[trigger] r[k]).score,
        forall|j: int, k: int|
            0 <= j < k < r.len() && (#[trigger] r[j]).score == (#[trigger] r[k]).score ==> lex_le(
                path_key(r[j].path@),
                path_key(r[k].path@),
            ),
        forall|k: int|
            0 <= k < r.len() ==> (strings_view((#[trigger] r[k]).reasons@).contains("名称包含副本标记"@)
                <==> !strings_view(r[k].reasons@).contains("名称无副本标记"@)),
{
    let order = choose|order: Seq<usize>|
        is_stable_key_order(retention_keys(inputs), order) && forall|k: int|
            0 <= k < r.len() ==> recommends_input(#[trigger] r[k], inputs, order[k] as int);
    let keys = retention_keys(inputs);
    assert forall|k: int| 0 <= k < r.len() implies 0 <= (#[trigger] r[k]).score <= 100 && (strings_view(r[k].reasons@).contains("名称包含副本标记"@)
        <==> !strings_view(r[k].reasons@).contains("名称无副本标记"@)) by {
        assert(recommends_input(r[k], inputs, order[k] as int));
        lemma_retention_key_parts(inputs, order[k] as int);
        lemma_marker_reasons(inputs, order[k] as int);
    }
    assert forall|j: int, k: int| 0 <= j < k < r.len() implies (#[trigger] r[j]).score >= (#[trigger] r[k]).score
        && (r[j].score == r[k].score ==> lex_le(path_key(r[j].path@), path_key(r[k].path@))) by {
        let oj = order[j] as int;
        let ok = order[k] as int;
        assert(recommends_input(r[j], inputs, oj));
        assert(recommends_input(r[k], inputs, ok));
        assert(lex_le(keys[oj], keys[ok]));
        lemma_retention_key_parts(inputs, oj);
        lemma_retention_key_parts(inputs, ok);
        lemma_lex_le_head(keys[oj], keys[ok]);
    }
}

/// The folded file name of `path` holds one of the words that mark a copy: 副本, 复制,
/// copy or duplicate.
pub open spec fn names_a_copy(path: Seq<char>) -> bool {
    let name = folded(name_or_empty(path));
    ||| seq_contains(name, "副本"@)
    ||| seq_contains(name, "复制"@)
    ||| seq_contains(name, "copy"@)
    ||| seq_contains(name, "duplicate"@)
}

/// A path component that starts with a dot and is neither `.` nor `..`.
pub open spec fn starts_with_dot(c: Comp) -> bool {
    c matches Comp::Normal(n) && n.len() > 0 && n[0] == '.' && n != "."@ && n != ".."@
}

/// No file of the group was modified later than file `i`.
pub open spec fn modified_last(inputs: Seq<RetentionInput>, i: int) -> bool {
    forall|j: int| 0 <= j < inputs.len() ==> (#[trigger] inputs[j]).modified_at_ns <= inputs[i].modified_at_ns
}

/// No file of the group has fewer path components than file `i`.
pub open spec fn fewest_components(inputs: Seq<RetentionInput>, i: int) -> bool {
    forall|j: int|
        0 <= j < inputs.len() ==> path_components(inputs[i].path@).len() <= path_components(
            (#[trigger] inputs[j]).path@,
        ).len()
}

/// Some component of the path starts with a dot.
pub open spec fn has_dot_component(path: Seq<char>) -> bool {
    exists|k: int| 0 <= k < path_components(path).len() && starts_with_dot(#[trigger] path_components(path)[k])
}

/// The retention score before the name is looked at: 50, plus 25 for the file modified
/// last, plus 15 for the file with the fewest path components, minus 20 for a path with
/// a component that starts with a dot.
pub open spec fn score_before_name(inputs: Seq<RetentionInput>, i: int) -> int {
    50 + (if modified_last(inputs, i) { 25int } else { 0 }) + (if fewest_components(inputs, i) {
        15int
    } else {
        0
    }) - (if has_dot_component(inputs[i].path@) { 20int } else { 0 })
}

proof fn lemma_retention_flags(inputs: Seq<RetentionInput>, i: int)
    ensures
        is_newest(inputs, i) == modified_last(inputs, i),
        is_shallowest(inputs, i) == fewest_components(inputs, i),
        is_hidden_path(inputs[i].path@) == has_dot_component(inputs[i].path@),
        retention_reasons(inputs, i).contains("同组中最近修改"@) == modified_last(inputs, i),
        retention_reasons(inputs, i).contains("路径层级较浅"@) == fewest_components(inputs, i),
        retention_reasons(inputs, i).contains("位于隐藏目录或以点开头的路径"@) == has_dot_component(inputs[i].path@),
{
    reveal_strlit("/");
    reveal_strlit(".");
    reveal_strlit("..");
    reveal_strlit("同组中最近修改");
    reveal_strlit("路径层级较浅");
    reveal_strlit("名称包含副本标记");
    reveal_strlit("名称无副本标记");
    reveal_strlit("位于隐藏目录或以点开头的路径");
    let p = inputs[i].path@;
    let c = path_components(p);
    assert forall|k: int| 0 <= k < c.len() implies is_dot_text(comp_text(#[trigger] c[k])) == starts_with_dot(c[k]) by {
        match c[k] {
            Comp::Normal(n) => {},
            _ => {},
        }
    }
    if is_hidden_path(p) {
        let k = choose|k: int| 0 <= k < c.len() && is_dot_text(comp_text(#[trigger] c[k]));
        assert(starts_with_dot(c[k]));
    }
    if has_dot_component(p) {
        let k = choose|k: int| 0 <= k < c.len() && starts_with_dot(#[trigger] c[k]);
        assert(is_dot_text(comp_text(c[k])));
    }
    assert(is_shallowest(inputs, i) == fewest_components(inputs, i)) by {
        if is_shallowest(inputs, i) {
            assert forall|j: int| 0 <= j < inputs.len() implies path_components(inputs[i].path@).len()
                <= path_components((#[trigger] inputs[j]).path@).len() by {
                assert(depth(inputs[i].path@) <= depth(inputs[j].path@));
            }
        }
        if fewest_components(inputs, i) {
            assert forall|j: int| 0 <= j < inputs.len() implies depth(inputs[i].path@) <= depth(
                inputs[j].path@,
            ) by {
                assert(path_components(inputs[i].path@).len() <= path_components(inputs[j].path@).len());
            }
        }
    }
    let rs = retention_reasons(inputs, i);
    let newest = is_newest(inputs, i);
    let shallow = is_shallowest(inputs, i);
    let hidden = is_hidden_path(p);
    let a = "同组中最近修改"@;
    let b = "路径层级较浅"@;
    let h = "位于隐藏目录或以点开头的路径"@;
    if newest {
        assert(rs[0] == a);
    }
    if shallow {
        assert(rs[if newest { 1int } else { 0 }] == b);
    }
    if hidden {
        assert(rs[rs.len() - 1] == h);
    }
    assert forall|k: int| 0 <= k < rs.len() && #[trigger] rs[k] == a implies newest by {
        assert(rs[k][0] == a[0]);
    }
    assert forall|k: int| 0 <= k < rs.len() && #[trigger] rs[k] == b implies shallow by {
        assert(rs[k][0] == b[0]);
    }
    assert forall|k: int| 0 <= k < rs.len() && #[trigger] rs[k] == h implies hidden by {
        assert(rs[k][0] == h[0]);
    }
}

/// A file whose folded name holds 副本, 复制, copy or duplicate is marked as a copy in
/// its recommendation and scores 25 below the rest of its score; any other file is
/// marked as named without one and scores 10 above it, so a copy marker costs exactly
/// 35 points. Each other point of the score is explained too: a file modified last is
/// said to be the most recent, one with the fewest path components to lie shallowest,
/// and one with a component that starts with a dot to lie in a hidden place. Every
/// ranking of a group, in whatever order it lists the files, says so.
pub proof fn lemma_copy_marked_names_score_lower(
    inputs: Seq<RetentionInput>,
    r: Seq<RetentionRecommendation>,
    order: Seq<usize>,
)
    requires
        r.len() == inputs.len(),
        is_stable_key_order(retention_keys(inputs), order),
        forall|k: int| 0 <= k < r.len() ==> recommends_input(#[trigger] r[k], inputs, order[k] as int),
    ensures
        forall|k: int| 0 <= k < r.len() ==> {
            let i = order[k] as int;
            &&& names_a_copy(inputs[i].path@) ==> (#[trigger] r[k]).score == score_before_name(inputs, i)
                - 25 && strings_view(r[k].reasons@).contains("名称包含副本标记"@)
            &&& !names_a_copy(inputs[i].path@) ==> r[k].score == score_before_name(inputs, i) + 10
                && strings_view(r[k].reasons@).contains("名称无副本标记"@)
            &&& strings_view(r[k].reasons@).contains("同组中最近修改"@) == modified_last(inputs, i)
            &&& strings_view(r[k].reasons@).contains("路径层级较浅"@) == fewest_components(inputs, i)
            &&& strings_view(r[k].reasons@).contains("位于隐藏目录或以点开头的路径"@) == has_dot_component(
                inputs[i].path@,
            )
        },
{
    assert forall|k: int| 0 <= k < r.len() implies {
        let i = order[k] as int;
        &&& names_a_copy(inputs[i].path@) ==> (#[trigger] r[k]).score == score_before_name(inputs, i)
            - 25 && strings_view(r[k].reasons@).contains("名称包含副本标记"@)
        &&& !names_a_copy(inputs[i].path@) ==> r[k].score == score_before_name(inputs, i) + 10
            && strings_view(r[k].reasons@).contains("名称无副本标记"@)
        &&& strings_view(r[k].reasons@).contains("同组中最近修改"@) == modified_last(inputs, i)
        &&& strings_view(r[k].reasons@).contains("路径层级较浅"@) == fewest_components(inputs, i)
        &&& strings_view(r[k].reasons@).contains("位于隐藏目录或以点开头的路径"@) == has_dot_component(
            inputs[i].path@,
        )
    } by {
        let i = order[k] as int;
        assert(recommends_input(r[k], inputs, i));
        assert(0 <= i < inputs.len());
        let p = inputs[i].path@;
        let name = folded(name_or_empty(p));
        let m = copy_markers();
        if names_a_copy(p) {
            if seq_contains(name, "副本"@) {
                assert(seq_contains(name, m[0]));
            } else if seq_contains(name, "复制"@) {
                assert(seq_contains(name, m[1]));
            } else if seq_contains(name, "copy"@) {
                assert(seq_contains(name, m[2]));
            } else {
                assert(seq_contains(name, m[3]));
            }
            assert(has_copy_marker(p));
        } else {
            assert forall|j: int| 0 <= j < 4 implies !seq_contains(name, #[trigger] m[j]) by {
                if j == 0 {
                    assert(m[j] == "副本"@);
                } else if j == 1 {
                    assert(m[j] == "复制"@);
                } else if j == 2 {
                    assert(m[j] == "copy"@);
                } else {
                    assert(m[j] == "duplicate"@);
                }
            }
            assert(!has_copy_marker(p));
        }
        lemma_marker_reasons(inputs, i);
        lemma_retention_flags(inputs, i);
    }
}

fn has_marker(name: &Vec<char>) -> (r: bool)
    ensures
        r == exists|k: int| 0 <= k < 4 && seq_contains(name@, #[trigger] copy_markers()[k]),
{
    let markers = ["副本", "复制", "copy", "duplicate"];
    let mut i: usize = 0;
    while i < 4
        invariant
            i <= 4,
            forall|k: int| 0 <= k < i ==> !seq_contains(name@, #[trigger] copy_markers()[k]),
            markers@[0]@ == "副本"@,
            markers@[1]@ == "复制"@,
            markers@[2]@ == "copy"@,
            markers@[3]@ == "duplicate"@,
        decreases 4 - i,
    {
        let m = chars_of(markers[i]);
        assert(m@ == copy_markers()[i as int]);
        if contains_chars(name, &m) {
            return true;
        }
        i += 1;
    }
    false
}

fn is_dot_component(c: &Component) -> (r: bool)
    ensures
        r == is_dot_text(comp_text(c@)),
{
    proof {
        reveal_strlit("/");
        reveal_strlit(".");
        reveal_strlit("..");
    }
    match c {
        Component::Normal(n) => {
            if n.len() == 0 || n[0] != '.' {
                return false;
            }
            let dot = chars_of(".");
            let dotdot = chars_of("..");
            !seq_chars_eq(n, &dot) && !seq_chars_eq(n, &dotdot)
        },
        _ => false,
    }
}

fn hidden_path(path: &Vec<char>) -> (r: bool)
    ensures
        r == is_hidden_path(path@),
{
    let c = components(path);
    let ghost cv = comps_view(c@);
    let mut i: usize = 0;
    while i < c.len()
        invariant
            i <= c.len(),
            cv == comps_view(c@),
            cv == path_components(path@),
            forall|k: int| 0 <= k < i ==> !is_dot_text(comp_text(#[trigger] cv[k])),
        decreases c.len() - i,
    {
        assert(cv[i as int] == c@[i as int]@);
        if is_dot_component(&c[i]) {
            return true;
        }
        i += 1;
    }
    false
}

/// Ranks the files of one exact-duplicate group for retention. Deterministic and
/// explainable; it only suggests and never touches a file.
pub fn rank_duplicate_retention(inputs: &Vec<RetentionInput>) -> (r: Vec<RetentionRecommendation>)
    ensures
        r.len() == inputs.len(),
        exists|order: Seq<usize>|
            is_stable_key_order(retention_keys(inputs@), order) && forall|k: int|
                0 <= k < r.len() ==> recommends_input(
                    #[trigger] r@[k],
                    inputs@,
                    order[k] as int,
                ),
{
    let n = inputs.len();
    let mut depths: Vec<usize> = Vec::new();
    let mut i: usize = 0;
    while i < n
        invariant
            i <= n,
            n == inputs.len(),
            depths.len() == i,
            forall|k: int| 0 <= k < i ==> depths[k] == depth(#[trigger] inputs@[k].path@),
        decreases n - i,
    {
        let p = chars_of(inputs[i].path.as_str());
        let c = components(&p);
        depths.push(c.len());
        i += 1;
    }
    // newest modification time and shallowest depth
    let mut newest: i64 = i64::MIN;
    let mut shallowest: usize = usize::MAX;
    i = 0;
    while i < n
        invariant
            i <= n,
            n == inputs.len(),
            depths.len() == n,
            forall|k: int| 0 <= k < n ==> depths[k] == depth(#[trigger] inputs@[k].path@),
            forall|k: int| 0 <= k < i ==> inputs@[k].modified_at_ns <= newest,
            i > 0 ==> exists|k: int| 0 <= k < i && inputs@[k].modified_at_ns == newest,
            forall|k: int| 0 <= k < i ==> shallowest <= depths[k],
            i > 0 ==> exists|k: int| 0 <= k < i && depths[k] == shallowest,
        decreases n - i,
    {
        if i == 0 || inputs[i].modified_at_ns > newest {
            newest = inputs[i].modified_at_ns;
        }
        if i == 0 || depths[i] < shallowest {
            shallowest = depths[i];
        }
        i += 1;
    }
    let mut recs: Vec<RetentionRecommendation> = Vec::new();
    let mut keys: Vec<Vec<u64>> = Vec::new();
    i = 0;
    while i < n
        invariant
            i <= n,
            n == inputs.len(),
            depths.len() == n,
            forall|k: int| 0 <= k < n ==> depths[k] == depth(#[trigger] inputs@[k].path@),
            forall|k: int| 0 <= k < n ==> inputs@[k].modified_at_ns <= newest,
            n > 0 ==> exists|k: int| 0 <= k < n && inputs@[k].modified_at_ns == newest,
            forall|k: int| 0 <= k < n ==> shallowest <= depths[k],
            n > 0 ==> exists|k: int| 0 <= k < n && depths[k] == shallowest,
            recs.len() == i,
            keys.len() == i,
            forall|k: int| 0 <= k < i ==> recommends_input(#[trigger] recs@[k], inputs@, k),
            forall|k: int| 0 <= k < i ==> (#[trigger] keys@[k])@ == retention_key(inputs@, k),
        decreases n - i,
    {
        let p = chars_of(inputs[i].path.as_str());
        let mut score: i32 = 50;
        let mut reasons: Vec<String> = Vec::new();
        let ghost ii = i as int;
        let is_new = inputs[i].modified_at_ns == newest;
        assert(is_new == is_newest(inputs@, ii));
        let is_shallow = depths[i] == shallowest;
        proof {
            if !is_shallow {
                let w = choose|k: int| 0 <= k < n && depths[k] == shallowest;
                assert(depth(inputs@[w].path@) < depth(inputs@[ii].path@));
            }
            if !is_new {
                let w = choose|k: int| 0 <= k < n && inputs@[k].modified_at_ns == newest;
                assert(inputs@[w].modified_at_ns > inputs@[ii].modified_at_ns);
            }
        }
        assert(is_shallow == is_shallowest(inputs@, ii));
        if is_new {
            score += 25;
            reasons.push(string_from_str("同组中最近修改"));
        }
        if is_shallow {
            score += 15;
            reasons.push(string_from_str("路径层级较浅"));
        }
        let name = name_chars(&p);
        let folded_name = fold_name(&name);
        if has_marker(&folded_name) {
            score -= 25;
            reasons.push(string_from_str("名称包含副本标记"));
        } else {
            score += 10;
            reasons.push(string_from_str("名称无副本标记"));
        }
        if hidden_path(&p) {
            score -= 20;
            reasons.push(string_from_str("位于隐藏目录或以点开头的路径"));
        }
        assert(score == raw_retention_score(inputs@, ii));
        let clamped: i32 = if score < 0 {
            0
        } else if score > 100 {
            100
        } else {
            score
        };
        assert(strings_view(reasons@) =~= retention_reasons(inputs@, ii));
        let mut key: Vec<u64> = Vec::new();
        key.push((100 - clamped) as u64);
        let mut pk = path_key_of(&p);
        key.append(&mut pk);
        assert(key@ =~= retention_key(inputs@, ii));
        recs.push(RetentionRecommendation { path: string_from_str(inputs[i].path.as_str()), score: clamped, reasons });
        keys.push(key);
        i += 1;
    }
    assert(keys_view(keys@) =~= retention_keys(inputs@));
    let order = sort_positions_by_key(&keys);
    let mut out: Vec<RetentionRecommendation> = Vec::new();
    let mut slots: Vec<Option<RetentionRecommendation>> = Vec::new();
    i = 0;
    while i < n
        invariant
            i <= n,
            recs.len() == n,
            slots.len() == i,
        decreases n - i,
    {
        slots.push(None);
        i += 1;
    }
    let mut recs = recs;
    // move each recommendation into its slot, then read the slots in sorted order
    let mut j: usize = n;
    while j > 0
        invariant
            j <= n,
            recs.len() == j,
            slots.len() == n,
            forall|k: int| 0 <= k < j ==> recommends_input(#[trigger] recs@[k], inputs@, k),
            forall|k: int| j <= k < n ==> (#[trigger] slots@[k]) is Some && recommends_input(slots@[k]->Some_0, inputs@, k),
        decreases j,
    {
        let rec = recs.pop().unwrap();
        j -= 1;
        slots.set(j, Some(rec));
    }
    let mut k: usize = 0;
    while k < n
        invariant
            k <= n,
            n == inputs.len(),
            is_stable_key_order(keys_view(keys@), order@),
            keys.len() == n,
            slots.len() == n,
            out.len() == k,
            forall|q: int| 0 <= q < n ==> (#[trigger] slots@[q]) is Some ==> recommends_input(slots@[q]->Some_0, inputs@, q),
            forall|q: int| k <= q < n ==> (#[trigger] slots@[order@[q] as int]) is Some,
            forall|q: int| 0 <= q < k ==> recommends_input(#[trigger] out@[q], inputs@, order@[q] as int),
        decreases n - k,
    {
        let idx = order[k];
        let mut taken: Option<RetentionRecommendation> = None;
        slots.set_and_swap(idx, &mut taken);
        out.push(taken.unwrap());
        proof {
            assert forall|q: int| k + 1 <= q < n implies (#[trigger] slots@[order@[q] as int]) is Some by {
                assert(order@[q] != order@[k as int]);
            }
        }
        k += 1;
    }
    out
}


/// Bytes read at each sampled offset of a quick fingerprint.
pub const SAMPLE_BYTES: u64 = 65536;

/// Number of components of a text MinHash signature.
pub const TEXT_MINHASH_COMPONENTS: usize = 32;

/// Name of the exact-duplicate hashing scheme stored with cached hashes.
pub const EXACT_HASH_ALGORITHM: &'static str = "blake3-sampled-full-v1";

/// Offsets sampled by a quick fingerprint: the start, and for files larger than one
/// sample also the middle and the last sample, in increasing order without repeats.
pub open spec fn sample_offsets_of(size: u64) -> Seq<u64> {
    if size <= SAMPLE_BYTES {
        seq![0u64]
    } else if (size - SAMPLE_BYTES) / 2 == 0 {
        seq![0u64, (size - SAMPLE_BYTES) as u64]
    } else {
        seq![0u64, ((size - SAMPLE_BYTES) / 2) as u64, (size - SAMPLE_BYTES) as u64]
    }
}

pub fn sample_offsets(size: u64) -> (r: Vec<u64>)
    ensures
        r@ == sample_offsets_of(size),
{
    let mut offsets: Vec<u64> = vec![0];
    if size > SAMPLE_BYTES {
        let last = size - SAMPLE_BYTES;
        let middle = last / 2;
        if middle != 0 {
            offsets.push(middle);
        }
        offsets.push(last);
    }
    assert(offsets@ =~= sample_offsets_of(size));
    offsets
}

/// Single-bit masks of the low `width` bits, lowest first.
pub open spec fn single_bit_masks(width: nat) -> Seq<u64> {
    Seq::new(width, |b: int| (1u64 << (b as u64)) as u64)
}

/// Two-bit masks `(1 << left) | (1 << right)` for `from <= left < right < width`,
/// ordered by `left`, then `right`.
pub open spec fn pair_bit_masks(from: nat, width: nat) -> Seq<u64>
    decreases width - from,
{
    if from >= width {
        seq![]
    } else {
        Seq::new(
            (width - from - 1) as nat,
            |k: int| ((1u64 << (from as u64)) | (1u64 << ((from + 1 + k) as u64))) as u64,
        ) + pair_bit_masks(from + 1, width)
    }
}

/// Masks of all bit patterns of at most `radius` (capped at two) set bits within `width`.
pub open spec fn hamming_masks_of(width: nat, radius: nat) -> Seq<u64> {
    seq![0u64] + (if radius >= 1 {
        single_bit_masks(width)
    } else {
        seq![]
    }) + (if radius >= 2 {
        pair_bit_masks(0, width)
    } else {
        seq![]
    })
}

/// The masks that enumerate every value within Hamming distance `radius` (at most two)
/// of a `width`-bit value.
pub fn hamming_masks(width: usize, radius: usize) -> (r: Vec<u64>)
    requires
        width <= 64,
    ensures
        r@ == hamming_masks_of(width as nat, radius as nat),
{
    let mut masks: Vec<u64> = vec![0];
    if radius >= 1 {
        let mut bit: usize = 0;
        while bit < width
            invariant
                bit <= width <= 64,
                masks@ == seq![0u64] + single_bit_masks(width as nat).take(bit as int),
            decreases width - bit,
        {
            masks.push(1u64 << (bit as u64));
            bit += 1;
            assert(masks@ =~= seq![0u64] + single_bit_masks(width as nat).take(bit as int));
        }
        assert(single_bit_masks(width as nat).take(width as int) =~= single_bit_masks(width as nat));
    }
    let ghost head = masks@;
    assert(head == seq![0u64] + (if radius >= 1 {
        single_bit_masks(width as nat)
    } else {
        seq![]
    })) by {
        if radius < 1 {
            assert(head =~= seq![0u64] + Seq::<u64>::empty());
        }
    }
    if radius >= 2 {
        let mut left: usize = 0;
        while left < width
            invariant
                left <= width <= 64,
                masks@ + pair_bit_masks(left as nat, width as nat) == head + pair_bit_masks(
                    0,
                    width as nat,
                ),
            decreases width - left,
        {
            let ghost before = masks@;
            let ghost row = Seq::new(
                (width - left - 1) as nat,
                |k: int| ((1u64 << (left as u64)) | (1u64 << ((left + 1 + k) as u64))) as u64,
            );
            let mut right: usize = left + 1;
            while right < width
                invariant
                    left < right <= width <= 64,
                    masks@ == before + row.take(right - left - 1),
                    row == Seq::new(
                        (width - left - 1) as nat,
                        |k: int| ((1u64 << (left as u64)) | (1u64 << ((left + 1 + k) as u64))) as u64,
                    ),
                decreases width - right,
            {
                masks.push((1u64 << (left as u64)) | (1u64 << (right as u64)));
                right += 1;
                assert(masks@ =~= before + row.take(right - left - 1));
            }
            assert(row.take(width - left - 1) =~= row);
            assert(pair_bit_masks(left as nat, width as nat) == row + pair_bit_masks(
                (left + 1) as nat,
                width as nat,
            ));
            assert(masks@ + pair_bit_masks((left + 1) as nat, width as nat) =~= before
                + pair_bit_masks(left as nat, width as nat));
            left += 1;
        }
        assert(pair_bit_masks(width as nat, width as nat) =~= Seq::<u64>::empty());
        assert(masks@ =~= head + pair_bit_masks(0, width as nat));
    } else {
        assert(masks@ =~= head + Seq::<u64>::empty());
    }
    masks
}

/// Bit `k` of a dHash: in row `k / 8`, sample `k % 8` is brighter than its right neighbour.
pub open spec fn dhash_bit(samples: Seq<u8>, k: int) -> bool {
    samples[(k / 8) * 9 + k % 8] > samples[(k / 8) * 9 + k % 8 + 1]
}

pub open spec fn has_bit(h: u64, k: int) -> bool {
    (h >> (k as u64)) & 1u64 == 1u64
}

proof fn lemma_set_bit(h: u64, k: u64, j: u64)
    requires
        k < 64,
        j < 64,
    ensures
        has_bit(h | (1u64 << k), j as int) == (j == k || has_bit(h, j as int)),
{
    assert(((h | (1u64 << k)) >> j) & 1u64 == 1u64 <==> (j == k || (h >> j) & 1u64 == 1u64))
        by (bit_vector)
        requires
            k < 64,
            j < 64,
    ;
}

proof fn lemma_zero_has_no_bits(j: u64)
    requires
        j < 64,
    ensures
        !has_bit(0u64, j as int),
{
    assert((0u64 >> j) & 1u64 != 1u64) by (bit_vector);
}

/// The 64-bit difference hash of a 9 by 8 grayscale sampling (row-major, nine samples
/// per row): bit `row * 8 + column` is set when a sample is brighter than the next one
/// in its row.
pub fn image_dhash(samples: &[u8; 72]) -> (r: u64)
    ensures
        forall|k: int| 0 <= k < 64 ==> has_bit(r, k) == dhash_bit(samples@, k),
{
    let mut hash: u64 = 0;
    let mut k: usize = 0;
    proof {
        assert forall|j: int| 0 <= j < 64 implies !has_bit(0u64, j) by {
            lemma_zero_has_no_bits(j as u64);
        }
    }
    while k < 64
        invariant
            k <= 64,
            samples@.len() == 72,
            forall|j: int| 0 <= j < k ==> has_bit(hash, j) == dhash_bit(samples@, j),
            forall|j: int| k <= j < 64 ==> !has_bit(hash, j),
        decreases 64 - k,
    {
        let row = k / 8;
        let column = k % 8;
        let bright = samples[row * 9 + column] > samples[row * 9 + column + 1];
        let ghost old_hash = hash;
        if bright {
            hash = hash | (1u64 << (k as u64));
            proof {
                assert forall|j: int| 0 <= j < 64 implies has_bit(hash, j) == (j == k || has_bit(
                    old_hash,
                    j,
                )) by {
                    lemma_set_bit(old_hash, k as u64, j as u64);
                }
            }
        }
        assert(dhash_bit(samples@, k as int) == bright);
        k += 1;
    }
    hash
}


/// Characters that a generated file name never contains.
pub open spec fn is_forbidden_in_name(c: char) -> bool {
    crate::text::is_control(c) || c == '/' || c == '\\' || c == ':' || c == '*' || c == '?' || c
        == '"' || c == '<' || c == '>' || c == '|'
}

/// The characters of `s` that may stand in a file name, in order.
pub open spec fn drop_forbidden(s: Seq<char>) -> Seq<char>
    decreases s.len(),
{
    if s.len() == 0 {
        seq![]
    } else {
        drop_forbidden(s.drop_last()) + if is_forbidden_in_name(s.last()) {
            seq![]
        } else {
            seq![s.last()]
        }
    }
}

pub open spec fn is_name_edge(c: char) -> bool {
    c == ' ' || c == '.'
}

pub open spec fn trim_start_edges(s: Seq<char>) -> Seq<char>
    decreases s.len(),
{
    if s.len() > 0 && is_name_edge(s[0]) {
        trim_start_edges(s.drop_first())
    } else {
        s
    }
}

pub open spec fn trim_end_edges(s: Seq<char>) -> Seq<char>
    decreases s.len(),
{
    if s.len() > 0 && is_name_edge(s.last()) {
        trim_end_edges(s.drop_last())
    } else {
        s
    }
}

/// Windows device names, in lower case.
pub open spec fn is_device_name(l: Seq<char>) -> bool {
    ||| l == "con"@
    ||| l == "prn"@
    ||| l == "aux"@
    ||| l == "nul"@
    ||| (l.len() == 4 && (l.take(3) == "com"@ || l.take(3) == "lpt"@) && '1' <= l[3] && l[3] <= '9')
}

/// The name part of a safe file name before truncation.
pub open spec fn safe_stem(stem: Seq<char>) -> Seq<char> {
    let collapsed = crate::text::join_with(
        crate::text::words(drop_forbidden(crate::text::nfc_form(stem))),
        " "@,
    );
    let trimmed = trim_end_edges(trim_start_edges(collapsed));
    let named = if trimmed.len() == 0 {
        "未命名文件"@
    } else {
        trimmed
    };
    if is_device_name(crate::text::ascii_lowercase(named)) {
        seq!['_'] + named
    } else {
        named
    }
}

/// The extension of a safe file name: without leading dots, and none when empty.
pub open spec fn safe_extension(extension: Option<Seq<char>>) -> Option<Seq<char>> {
    match extension {
        Some(e) => if crate::storage::trim_leading_dots(e).len() > 0 {
            Some(crate::storage::trim_leading_dots(e))
        } else {
            None
        },
        None => None,
    }
}

/// The longest prefix of `s` (removing characters from the end) that, with `reserve`
/// more bytes, fits in 250 bytes; empty if none does.
pub open spec fn truncate_to_fit(s: Seq<char>, reserve: int) -> Seq<char>
    decreases s.len(),
{
    if s.len() == 0 || utf8_size(s) + reserve <= 250 {
        s
    } else {
        truncate_to_fit(s.drop_last(), reserve)
    }
}

/// A portable file name from a stem and an optional extension.
pub open spec fn safe_filename_of(stem: Seq<char>, extension: Option<Seq<char>>) -> Seq<char> {
    let ext = safe_extension(extension);
    let reserve = match ext {
        Some(e) => (utf8_size(e) + 1) as int,
        None => 0,
    };
    let name = truncate_to_fit(safe_stem(stem), reserve as int);
    match ext {
        Some(e) => name + seq!['.'] + e,
        None => name,
    }
}

/// No character of `s` is forbidden in a file name.
pub open spec fn all_allowed(s: Seq<char>) -> bool {
    forall|i: int| 0 <= i < s.len() ==> !is_forbidden_in_name(#[trigger] s[i])
}

proof fn lemma_drop_forbidden_allowed(s: Seq<char>)
    ensures
        all_allowed(drop_forbidden(s)),
    decreases s.len(),
{
    if s.len() > 0 {
        lemma_drop_forbidden_allowed(s.drop_last());
        let prev = drop_forbidden(s.drop_last());
        let tail: Seq<char> = if is_forbidden_in_name(s.last()) {
            seq![]
        } else {
            seq![s.last()]
        };
        assert forall|i: int| 0 <= i < (prev + tail).len() implies !is_forbidden_in_name(
            #[trigger] (prev + tail)[i],
        ) by {
            if i < prev.len() {
                assert((prev + tail)[i] == prev[i]);
            }
        }
    }
}

proof fn lemma_words_allowed(s: Seq<char>)
    requires
        all_allowed(s),
    ensures
        forall|k: int| 0 <= k < scan_words(s).0.len() ==> all_allowed(#[trigger] scan_words(s).0[k]),
        all_allowed(scan_words(s).1),
    decreases s.len(),
{
    if s.len() > 0 {
        assert(all_allowed(s.drop_last())) by {
            assert forall|i: int| 0 <= i < s.drop_last().len() implies !is_forbidden_in_name(
                #[trigger] s.drop_last()[i],
            ) by {
                assert(s.drop_last()[i] == s[i]);
            }
        }
        lemma_words_allowed(s.drop_last());
        let (done, cur) = scan_words(s.drop_last());
        assert(!is_forbidden_in_name(s[s.len() - 1]));
        if !is_white_space(s.last()) {
            assert forall|i: int| 0 <= i < cur.push(s.last()).len() implies !is_forbidden_in_name(
                #[trigger] cur.push(s.last())[i],
            ) by {
                if i < cur.len() {
                    assert(cur.push(s.last())[i] == cur[i]);
                }
            }
        } else if cur.len() > 0 {
            assert forall|k: int| 0 <= k < done.push(cur).len() implies all_allowed(
                #[trigger] done.push(cur)[k],
            ) by {
                if k < done.len() {
                    assert(done.push(cur)[k] == done[k]);
                }
            }
        }
    }
}

proof fn lemma_join_allowed(parts: Seq<Seq<char>>, sep: Seq<char>)
    requires
        forall|k: int| 0 <= k < parts.len() ==> all_allowed(#[trigger] parts[k]),
        all_allowed(sep),
    ensures
        all_allowed(join_with(parts, sep)),
    decreases parts.len(),
{
    if parts.len() > 1 {
        assert forall|k: int| 0 <= k < parts.drop_last().len() implies all_allowed(
            #[trigger] parts.drop_last()[k],
        ) by {
            assert(parts.drop_last()[k] == parts[k]);
        }
        lemma_join_allowed(parts.drop_last(), sep);
        let a = join_with(parts.drop_last(), sep);
        let whole = a + sep + parts.last();
        assert(all_allowed(parts[parts.len() - 1]));
        assert forall|i: int| 0 <= i < whole.len() implies !is_forbidden_in_name(#[trigger] whole[i]) by {
            if i < a.len() {
                assert(whole[i] == a[i]);
            } else if i < a.len() + sep.len() {
                assert(whole[i] == sep[i - a.len()]);
            } else {
                assert(whole[i] == parts.last()[i - a.len() - sep.len()]);
            }
        }
    } else if parts.len() == 1 {
        assert(all_allowed(parts[0]));
    }
}

proof fn lemma_trim_allowed(s: Seq<char>)
    requires
        all_allowed(s),
    ensures
        all_allowed(trim_start_edges(s)),
        all_allowed(trim_end_edges(s)),
    decreases s.len(),
{
    if s.len() > 0 {
        assert(all_allowed(s.drop_first())) by {
            assert forall|i: int| 0 <= i < s.drop_first().len() implies !is_forbidden_in_name(
                #[trigger] s.drop_first()[i],
            ) by {
                assert(s.drop_first()[i] == s[i + 1]);
            }
        }
        assert(all_allowed(s.drop_last())) by {
            assert forall|i: int| 0 <= i < s.drop_last().len() implies !is_forbidden_in_name(
                #[trigger] s.drop_last()[i],
            ) by {
                assert(s.drop_last()[i] == s[i]);
            }
        }
        lemma_trim_allowed(s.drop_first());
        lemma_trim_allowed(s.drop_last());
    }
}

proof fn lemma_truncate_allowed(s: Seq<char>, reserve: int)
    requires
        all_allowed(s),
    ensures
        all_allowed(truncate_to_fit(s, reserve)),
        truncate_to_fit(s, reserve).len() == 0 || utf8_size(truncate_to_fit(s, reserve)) + reserve
            <= 250,
    decreases s.len(),
{
    if s.len() > 0 && utf8_size(s) + reserve > 250 {
        assert(all_allowed(s.drop_last())) by {
            assert forall|i: int| 0 <= i < s.drop_last().len() implies !is_forbidden_in_name(
                #[trigger] s.drop_last()[i],
            ) by {
                assert(s.drop_last()[i] == s[i]);
            }
        }
        lemma_truncate_allowed(s.drop_last(), reserve);
    }
}

proof fn lemma_safe_stem_allowed(stem: Seq<char>)
    ensures
        all_allowed(safe_stem(stem)),
{
    let dropped = drop_forbidden(crate::text::nfc_form(stem));
    lemma_drop_forbidden_allowed(crate::text::nfc_form(stem));
    lemma_words_allowed(dropped);
    let ws = crate::text::words(dropped);
    assert forall|k: int| 0 <= k < ws.len() implies all_allowed(#[trigger] ws[k]) by {
        let (done, cur) = scan_words(dropped);
        if k < done.len() {
            assert(ws[k] == done[k]);
        }
    }
    reveal_strlit(" ");
    reveal_strlit("未命名文件");
    lemma_join_allowed(ws, " "@);
    let collapsed = crate::text::join_with(ws, " "@);
    lemma_trim_allowed(collapsed);
    lemma_trim_allowed(trim_start_edges(collapsed));
    let trimmed = trim_end_edges(trim_start_edges(collapsed));
    let named = if trimmed.len() == 0 {
        "未命名文件"@
    } else {
        trimmed
    };
    assert(all_allowed(named));
    assert forall|i: int| 0 <= i < (seq!['_'] + named).len() implies !is_forbidden_in_name(
        #[trigger] (seq!['_'] + named)[i],
    ) by {
        if i > 0 {
            assert((seq!['_'] + named)[i] == named[i - 1]);
        }
    }
}

proof fn lemma_utf8_size_concat(a: Seq<char>, b: Seq<char>)
    ensures
        utf8_size(a + b) == utf8_size(a) + utf8_size(b),
    decreases b.len(),
{
    if b.len() == 0 {
        assert(a + b =~= a);
    } else {
        lemma_utf8_size_concat(a, b.drop_last());
        assert((a + b).drop_last() =~= a + b.drop_last());
    }
}

/// No character of `s` is a control character or one of / \ : * ? " < > |.
pub open spec fn fits_any_file_system(s: Seq<char>) -> bool {
    forall|i: int|
        0 <= i < s.len() ==> {
            let c = #[trigger] s[i];
            &&& !crate::text::is_control(c)
            &&& c != '/' && c != '\\' && c != ':' && c != '*' && c != '?'
            &&& c != '"' && c != '<' && c != '>' && c != '|'
        }
}

/// A safe file name holds no control character and none of / \ : * ? " < > | in the
/// part made from the stem, and nowhere at all when the extension holds none of them
/// (or there is no extension); whatever the stem held is dropped.
pub proof fn lemma_safe_filename_drops_reserved_characters(
    stem: Seq<char>,
    extension: Option<Seq<char>>,
)
    ensures
        ({
            let ext = safe_extension(extension);
            let reserve: int = match ext {
                Some(e) => (utf8_size(e) + 1) as int,
                None => 0,
            };
            fits_any_file_system(truncate_to_fit(safe_stem(stem), reserve))
        }),
        match extension {
            Some(e) => fits_any_file_system(e) ==> fits_any_file_system(safe_filename_of(stem, extension)),
            None => fits_any_file_system(safe_filename_of(stem, extension)),
        },
{
    lemma_safe_filename_is_safe(stem, extension);
    let ext = safe_extension(extension);
    let reserve: int = match ext {
        Some(e) => (utf8_size(e) + 1) as int,
        None => 0,
    };
    let name = truncate_to_fit(safe_stem(stem), reserve);
    assert(all_allowed(name));
    assert forall|i: int| 0 <= i < name.len() implies !is_forbidden_in_name(#[trigger] name[i]) by {}
    match extension {
        Some(e) => {
            if fits_any_file_system(e) {
                assert forall|i: int| 0 <= i < e.len() implies !is_forbidden_in_name(#[trigger] e[i]) by {
                    assert(fits_any_file_system(e));
                }
                assert(all_allowed(e));
                let out = safe_filename_of(stem, extension);
                assert(all_allowed(out));
                assert forall|i: int| 0 <= i < out.len() implies {
                    let c = #[trigger] out[i];
                    &&& !crate::text::is_control(c)
                    &&& c != '/' && c != '\\' && c != ':' && c != '*' && c != '?'
                    &&& c != '"' && c != '<' && c != '>' && c != '|'
                } by {
                    assert(!is_forbidden_in_name(out[i]));
                }
            }
        },
        None => {
            let out = safe_filename_of(stem, extension);
            assert(all_allowed(out));
            assert forall|i: int| 0 <= i < out.len() implies {
                let c = #[trigger] out[i];
                &&& !crate::text::is_control(c)
                &&& c != '/' && c != '\\' && c != ':' && c != '*' && c != '?'
                &&& c != '"' && c != '<' && c != '>' && c != '|'
            } by {
                assert(!is_forbidden_in_name(out[i]));
            }
        },
    }
}

/// A generated file name holds no character that is forbidden in names (control
/// characters, path separators, `:*?"<>|`) in its name part, nor anywhere when the
/// extension holds none; and it takes at most 250 bytes of UTF-8 whenever its
/// extension, leading dots removed, takes at most 249.
pub proof fn lemma_safe_filename_is_safe(stem: Seq<char>, extension: Option<Seq<char>>)
    ensures
        ({
            let ext = safe_extension(extension);
            let reserve: int = match ext {
                Some(e) => (utf8_size(e) + 1) as int,
                None => 0,
            };
            all_allowed(truncate_to_fit(safe_stem(stem), reserve))
        }),
        match extension {
            Some(e) => all_allowed(e) ==> all_allowed(safe_filename_of(stem, extension)),
            None => all_allowed(safe_filename_of(stem, extension)),
        },
        match safe_extension(extension) {
            Some(e) => utf8_size(e) <= 249 ==> utf8_size(safe_filename_of(stem, extension)) <= 250,
            None => utf8_size(safe_filename_of(stem, extension)) <= 250,
        },
{
    let ext = safe_extension(extension);
    let reserve: int = match ext {
        Some(e) => (utf8_size(e) + 1) as int,
        None => 0,
    };
    lemma_safe_stem_allowed(stem);
    lemma_truncate_allowed(safe_stem(stem), reserve);
    let name = truncate_to_fit(safe_stem(stem), reserve);
    match ext {
        Some(e) => {
            let whole = name + seq!['.'] + e;
            lemma_utf8_size_concat(name + seq!['.'], e);
            lemma_utf8_size_concat(name, seq!['.']);
            assert(utf8_size(seq!['.']) == 1) by {
                let d = seq!['.'];
                assert(d.drop_last() =~= Seq::<char>::empty());
                assert(d.last() == '.');
                assert(utf8_size(Seq::<char>::empty()) == 0);
                assert(crate::text::utf8_len('.') == 1);
            }
            match extension {
                Some(x) => {
                    if all_allowed(x) {
                        lemma_trim_leading_dots_allowed(x);
                        assert forall|i: int| 0 <= i < whole.len() implies !is_forbidden_in_name(
                            #[trigger] whole[i],
                        ) by {
                            if i < name.len() {
                                assert(whole[i] == name[i]);
                            } else if i == name.len() {
                                assert(whole[i] == '.');
                            } else {
                                assert(whole[i] == e[i - name.len() - 1]);
                            }
                        }
                    }
                },
                None => {},
            }
        },
        None => {},
    }
}

proof fn lemma_trim_leading_dots_allowed(s: Seq<char>)
    requires
        all_allowed(s),
    ensures
        all_allowed(crate::storage::trim_leading_dots(s)),
    decreases s.len(),
{
    if s.len() > 0 {
        assert(all_allowed(s.drop_first())) by {
            assert forall|i: int| 0 <= i < s.drop_first().len() implies !is_forbidden_in_name(
                #[trigger] s.drop_first()[i],
            ) by {
                assert(s.drop_first()[i] == s[i + 1]);
            }
        }
        lemma_trim_leading_dots_allowed(s.drop_first());
    }
}

fn drop_forbidden_chars(s: &Vec<char>) -> (r: Vec<char>)
    ensures
        r@ == drop_forbidden(s@),
{
    let mut out: Vec<char> = Vec::new();
    let mut i: usize = 0;
    while i < s.len()
        invariant
            i <= s.len(),
            out@ == drop_forbidden(s@.take(i as int)),
        decreases s.len() - i,
    {
        let c = s[i];
        assert(s@.take(i + 1).drop_last() =~= s@.take(i as int));
        let forbidden = crate::text::char_is_control(c) || c == '/' || c == '\\' || c == ':' || c
            == '*' || c == '?' || c == '"' || c == '<' || c == '>' || c == '|';
        if !forbidden {
            out.push(c);
        }
        i += 1;
        assert(out@ =~= drop_forbidden(s@.take(i as int)));
    }
    assert(s@.take(s.len() as int) =~= s@);
    out
}

fn trim_name_edges(s: &Vec<char>) -> (r: Vec<char>)
    ensures
        r@ == trim_end_edges(trim_start_edges(s@)),
{
    let mut i: usize = 0;
    assert(s@.skip(0) =~= s@);
    while i < s.len() && (s[i] == ' ' || s[i] == '.')
        invariant
            i <= s.len(),
            trim_start_edges(s@) == trim_start_edges(s@.skip(i as int)),
        decreases s.len() - i,
    {
        assert(s@.skip(i as int).drop_first() =~= s@.skip(i + 1));
        i += 1;
    }
    assert(trim_start_edges(s@.skip(i as int)) == s@.skip(i as int));
    let ghost t = s@.skip(i as int);
    let mut j: usize = s.len();
    while j > i && (s[j - 1] == ' ' || s[j - 1] == '.')
        invariant
            i <= j <= s.len(),
            t == s@.skip(i as int),
            trim_end_edges(t) == trim_end_edges(s@.subrange(i as int, j as int)),
        decreases j,
    {
        assert(s@.subrange(i as int, j as int).drop_last() =~= s@.subrange(i as int, j - 1));
        j -= 1;
    }
    assert(trim_end_edges(s@.subrange(i as int, j as int)) == s@.subrange(i as int, j as int));
    let mut out: Vec<char> = Vec::new();
    let mut k: usize = i;
    while k < j
        invariant
            i <= k <= j <= s.len(),
            out@ == s@.subrange(i as int, k as int),
        decreases j - k,
    {
        out.push(s[k]);
        k += 1;
        assert(out@ =~= s@.subrange(i as int, k as int));
    }
    assert(s@.skip(i as int) =~= s@.subrange(i as int, s.len() as int));
    out
}

fn device_name(l: &Vec<char>) -> (r: bool)
    ensures
        r == is_device_name(l@),
{
    proof {
        reveal_strlit("com");
        reveal_strlit("lpt");
    }
    if chars_eq_str(l, "con") || chars_eq_str(l, "prn") || chars_eq_str(l, "aux")
        || chars_eq_str(l, "nul") {
        return true;
    }
    if l.len() == 4 {
        let head = vec![l[0], l[1], l[2]];
        assert(head@ =~= l@.take(3));
        return (chars_eq_str(&head, "com") || chars_eq_str(&head, "lpt")) && '1' <= l[3] && l[3]
            <= '9';
    }
    false
}

fn safe_stem_chars(stem: &str) -> (r: Vec<char>)
    ensures
        r@ == safe_stem(stem@),
{
    let v = chars_of(stem);
    let normalized = crate::text::nfc(&v);
    let kept = drop_forbidden_chars(&normalized);
    let ws = crate::text::split_words(&kept);
    let space = vec![' '];
    proof {
        reveal_strlit(" ");
    }
    assert(space@ == " "@);
    let joined = crate::text::join_chars(&ws, &space);
    let trimmed = trim_name_edges(&joined);
    let named = if trimmed.len() == 0 {
        chars_of("未命名文件")
    } else {
        trimmed
    };
    let lower = crate::text::to_ascii_lowercase(&named);
    if device_name(&lower) {
        let mut out = vec!['_'];
        crate::text::append_chars(&mut out, &named);
        out
    } else {
        named
    }
}

fn safe_extension_chars(extension: Option<&str>) -> (r: Option<Vec<char>>)
    ensures
        match r {
            Some(e) => safe_extension(
                match extension {
                    Some(x) => Some(x@),
                    None => None,
                },
            ) == Some(e@),
            None => safe_extension(
                match extension {
                    Some(x) => Some(x@),
                    None => None,
                },
            ) is None,
        },
{
    match extension {
        Some(e) => {
            let ev = chars_of(e);
            let mut k: usize = 0;
            assert(ev@.skip(0) =~= ev@);
            while k < ev.len() && ev[k] == '.'
                invariant
                    k <= ev.len(),
                    crate::storage::trim_leading_dots(ev@) == crate::storage::trim_leading_dots(
                        ev@.skip(k as int),
                    ),
                decreases ev.len() - k,
            {
                assert(ev@.skip(k as int).drop_first() =~= ev@.skip(k + 1));
                k += 1;
            }
            assert(crate::storage::trim_leading_dots(ev@.skip(k as int)) == ev@.skip(k as int));
            let mut rest: Vec<char> = Vec::new();
            let mut j: usize = k;
            while j < ev.len()
                invariant
                    k <= j <= ev.len(),
                    rest@ == ev@.subrange(k as int, j as int),
                decreases ev.len() - j,
            {
                rest.push(ev[j]);
                j += 1;
                assert(rest@ =~= ev@.subrange(k as int, j as int));
            }
            assert(rest@ =~= ev@.skip(k as int));
            if rest.len() > 0 {
                Some(rest)
            } else {
                None
            }
        },
        None => None,
    }
}

fn truncate_chars(name: &mut Vec<char>, reserve: u128)
    requires
        reserve <= 4 * usize::MAX + 1,
    ensures
        final(name)@ == truncate_to_fit(old(name)@, reserve as int),
{
    let mut size: u128 = crate::text::utf8_size_wide(name);
    let ghost full = name@;
    while size + reserve > 250 && name.len() > 0
        invariant
            size == utf8_size(name@),
            size <= 4 * name.len(),
            reserve <= 4 * usize::MAX + 1,
            truncate_to_fit(full, reserve as int) == truncate_to_fit(name@, reserve as int),
        decreases name.len(),
    {
        let ghost before = name@;
        let c = name.pop().unwrap();
        proof {
            assert(before.drop_last() =~= name@);
            crate::text::lemma_utf8_size_push(name@, c);
            assert(before =~= name@.push(c));
            crate::text::lemma_utf8_size_bound(name@);
        }
        size = size - crate::text::char_utf8_len(c) as u128;
    }
}

/// A portable file name: the stem in NFC without control or reserved characters, runs
/// of whitespace collapsed, leading and trailing spaces and dots removed (a default
/// name when nothing is left), Windows device names prefixed with `_`, and the whole
/// name, with its extension, kept within 250 bytes.
pub fn safe_filename(stem: &str, extension: Option<&str>) -> (r: String)
    ensures
        r@ == safe_filename_of(
            stem@,
            match extension {
                Some(e) => Some(e@),
                None => None,
            },
        ),
{
    let mut name = safe_stem_chars(stem);
    let ext = safe_extension_chars(extension);
    let reserve: u128 = match &ext {
        Some(e) => crate::text::utf8_size_wide(e) + 1,
        None => 0,
    };
    truncate_chars(&mut name, reserve);
    match ext {
        Some(e) => {
            name.push('.');
            crate::text::append_chars(&mut name, &e);
            string_from_chars(&name)
        },
        None => string_from_chars(&name),
    }
}


/// Position of the last `.` in `f`, if any.
pub open spec fn last_dot(f: Seq<char>) -> Option<int>
    decreases f.len(),
{
    if f.len() == 0 {
        None
    } else if f.last() == '.' {
        Some(f.len() - 1)
    } else {
        last_dot(f.drop_last())
    }
}

/// `Path::file_stem` and `Path::extension` of a name; a name without a file name is
/// its own stem.
pub open spec fn stem_and_extension(desired: Seq<char>) -> (Seq<char>, Option<Seq<char>>) {
    match file_name(desired) {
        None => (desired, None),
        Some(f) => match last_dot(f) {
            None => (f, None),
            Some(k) => if k == 0 {
                (f, None)
            } else {
                (f.take(k), Some(f.skip(k + 1)))
            },
        },
    }
}

/// A name is taken when some existing name has the same lowercase form.
pub open spec fn name_taken(existing: Seq<Seq<char>>, name: Seq<char>) -> bool {
    existing.map_values(|n: Seq<char>| crate::text::str_lowercase_of(n)).contains(
        crate::text::str_lowercase_of(name),
    )
}

/// The `index`-th alternative name: `stem (index)` made safe, with the extension.
pub open spec fn numbered_name(stem: Seq<char>, ext: Option<Seq<char>>, index: nat) -> Seq<char> {
    safe_filename_of(stem + " ("@ + crate::text::nat_decimal(index) + ")"@, ext)
}

/// The first index from `from` up to 100000 whose alternative name is free.
pub open spec fn first_free_index(
    existing: Seq<Seq<char>>,
    stem: Seq<char>,
    ext: Option<Seq<char>>,
    from: nat,
) -> Option<nat>
    decreases 100001 - from,
{
    if from > 100000 {
        None
    } else if !name_taken(existing, numbered_name(stem, ext, from)) {
        Some(from)
    } else {
        first_free_index(existing, stem, ext, from + 1)
    }
}

/// A file name that no existing name equals up to case: the desired name if free,
/// else the first free `stem (n)` for n from 2 to 100000, else the stem tagged with the
/// hex BLAKE3 digest of the desired name.
pub open spec fn unique_filename_of(desired: Seq<char>, existing: Seq<Seq<char>>) -> Seq<char> {
    if !name_taken(existing, desired) {
        desired
    } else {
        let (stem, ext) = stem_and_extension(desired);
        match first_free_index(existing, stem, ext, 2) {
            Some(i) => numbered_name(stem, ext, i),
            None => safe_filename_of(
                stem + "-"@ + crate::operations::hex_of(
                    crate::digest::blake3_of(vstd::utf8::encode_utf8(desired)),
                ),
                ext,
            ),
        }
    }
}

proof fn lemma_first_free_index_is_free(
    existing: Seq<Seq<char>>,
    stem: Seq<char>,
    ext: Option<Seq<char>>,
    from: nat,
)
    ensures
        first_free_index(existing, stem, ext, from) matches Some(i) ==> !name_taken(
            existing,
            numbered_name(stem, ext, i),
        ),
    decreases 100001 - from,
{
    if from <= 100000 && name_taken(existing, numbered_name(stem, ext, from)) {
        lemma_first_free_index_is_free(existing, stem, ext, from + 1);
    }
}

/// The chosen name is free among the existing names, compared case-insensitively,
/// unless every numbered alternative up to 100000 is taken as well.
pub proof fn lemma_unique_filename_is_free(desired: Seq<char>, existing: Seq<Seq<char>>)
    requires
        !name_taken(existing, desired) || first_free_index(
            existing,
            stem_and_extension(desired).0,
            stem_and_extension(desired).1,
            2,
        ) is Some,
    ensures
        !name_taken(existing, unique_filename_of(desired, existing)),
{
    let (stem, ext) = stem_and_extension(desired);
    lemma_first_free_index_is_free(existing, stem, ext, 2);
}

pub(crate) fn stem_and_extension_chars(desired: &Vec<char>) -> (r: (Vec<char>, Option<Vec<char>>))
    ensures
        (r.0@, match r.1 {
            Some(e) => Some(e@),
            None => None,
        }) == stem_and_extension(desired@),
{
    let f = match file_name_of(desired) {
        Some(f) => f,
        None => {
            return (desired.clone(), None);
        },
    };
    let mut k: usize = f.len();
    assert(f@.take(f.len() as int) =~= f@);
    while k > 0 && f[k - 1] != '.'
        invariant
            k <= f.len(),
            last_dot(f@) == last_dot(f@.take(k as int)),
        decreases k,
    {
        assert(f@.take(k as int).drop_last() =~= f@.take(k - 1));
        k -= 1;
    }
    proof {
        assert(f@.take(f.len() as int) =~= f@);
        if k > 0 {
            assert(f@.take(k as int).last() == '.');
        } else {
            assert(f@.take(0) =~= Seq::<char>::empty());
        }
    }
    if k <= 1 {
        return (f, None);
    }
    let dot = k - 1;
    let mut stem: Vec<char> = Vec::new();
    let mut i: usize = 0;
    while i < dot
        invariant
            i <= dot < f.len(),
            stem@ == f@.take(i as int),
        decreases dot - i,
    {
        stem.push(f[i]);
        i += 1;
        assert(stem@ =~= f@.take(i as int));
    }
    let mut ext: Vec<char> = Vec::new();
    let mut j: usize = dot + 1;
    while j < f.len()
        invariant
            dot < j <= f.len(),
            ext@ == f@.subrange(dot + 1, j as int),
        decreases f.len() - j,
    {
        ext.push(f[j]);
        j += 1;
        assert(ext@ =~= f@.subrange(dot + 1, j as int));
    }
    assert(ext@ =~= f@.skip(dot + 1));
    (stem, Some(ext))
}

fn taken(folded: &Vec<Vec<char>>, name: &str) -> (r: bool)
    requires
        crate::text::chars_views(folded@) == folded@.map_values(|v: Vec<char>| v@),
    ensures
        r == crate::text::chars_views(folded@).contains(crate::text::str_lowercase_of(name@)),
{
    let lower = crate::text::str_lowercase(name);
    let lv = chars_of(lower.as_str());
    crate::text::holds_chars(folded, &lv)
}

fn numbered_name_string(stem: &Vec<char>, ext: &Option<Vec<char>>, index: u64) -> (r: String)
    ensures
        r@ == numbered_name(
            stem@,
            match ext {
                Some(e) => Some(e@),
                None => None,
            },
            index as nat,
        ),
{
    let mut text = stem.clone();
    crate::text::append_chars(&mut text, &chars_of(" ("));
    crate::text::push_decimal(&mut text, index);
    text.push(')');
    proof {
        reveal_strlit(")");
    }
    assert(text@ =~= stem@ + " ("@ + crate::text::nat_decimal(index as nat) + ")"@);
    let candidate = string_from_chars(&text);
    match ext {
        Some(e) => {
            let es = string_from_chars(e);
            safe_filename(candidate.as_str(), Some(es.as_str()))
        },
        None => safe_filename(candidate.as_str(), None),
    }
}

proof fn lemma_first_free_skips(
    existing: Seq<Seq<char>>,
    stem: Seq<char>,
    ext: Option<Seq<char>>,
    from: nat,
)
    requires
        from <= 100000,
        name_taken(existing, numbered_name(stem, ext, from)),
    ensures
        first_free_index(existing, stem, ext, from) == first_free_index(existing, stem, ext, from + 1),
{
}

/// A name for a new file that differs, up to case, from every existing name.
pub fn unique_filename(desired: &str, existing: &Vec<String>) -> (r: String)
    ensures
        r@ == unique_filename_of(desired@, existing@.map_values(|s: String| s@)),
{
    let ghost ev = existing@.map_values(|s: String| s@);
    let mut folded: Vec<Vec<char>> = Vec::new();
    let mut i: usize = 0;
    while i < existing.len()
        invariant
            i <= existing.len(),
            ev == existing@.map_values(|s: String| s@),
            crate::text::chars_views(folded@) == ev.take(i as int).map_values(
                |n: Seq<char>| crate::text::str_lowercase_of(n),
            ),
        decreases existing.len() - i,
    {
        let lower = crate::text::str_lowercase(existing[i].as_str());
        let ghost before = folded@;
        let lc = chars_of(lower.as_str());
        assert(ev[i as int] == existing@[i as int]@);
        folded.push(lc);
        assert(crate::text::chars_views(folded@) =~= crate::text::chars_views(before).push(lc@));
        assert(crate::text::chars_views(folded@) =~= ev.take(i + 1).map_values(
            |n: Seq<char>| crate::text::str_lowercase_of(n),
        ));
        i += 1;
    }
    assert(ev.take(existing.len() as int) =~= ev);
    let ghost fv = ev.map_values(|n: Seq<char>| crate::text::str_lowercase_of(n));
    assert(crate::text::chars_views(folded@) == folded@.map_values(|v: Vec<char>| v@));
    if !taken(&folded, desired) {
        return crate::text::string_from_str(desired);
    }
    let dv = chars_of(desired);
    let (stem, ext) = stem_and_extension_chars(&dv);
    let ghost ext_view = match &ext {
        Some(e) => Some(e@),
        None => None,
    };
    let mut index: u64 = 2;
    while index <= 100000
        invariant
            2 <= index <= 100001,
            ev == existing@.map_values(|s: String| s@),
            name_taken(ev, desired@),
            crate::text::chars_views(folded@) == fv,
            crate::text::chars_views(folded@) == folded@.map_values(|v: Vec<char>| v@),
            fv == ev.map_values(|n: Seq<char>| crate::text::str_lowercase_of(n)),
            (stem@, ext_view) == stem_and_extension(desired@),
            ext_view == match &ext {
                Some(e) => Some(e@),
                None => None::<Seq<char>>,
            },
            first_free_index(ev, stem@, ext_view, 2) == first_free_index(
                ev,
                stem@,
                ext_view,
                index as nat,
            ),
        decreases 100001 - index,
    {
        let candidate = numbered_name_string(&stem, &ext, index);
        if !taken(&folded, candidate.as_str()) {
            return candidate;
        }
        proof {
            lemma_first_free_skips(ev, stem@, ext_view, index as nat);
        }
        index += 1;
    }
    let digest = crate::digest::blake3_digest(desired.as_bytes());
    let hex = crate::operations::hex_hash(digest);
    let mut text = stem.clone();
    text.push('-');
    crate::text::append_chars(&mut text, &chars_of(hex.as_str()));
    proof {
        reveal_strlit("-");
    }
    assert(text@ =~= stem@ + "-"@ + crate::operations::hex_of(
        crate::digest::blake3_of(vstd::utf8::encode_utf8(desired@)),
    ));
    let tagged = string_from_chars(&text);
    match &ext {
        Some(e) => {
            let es = string_from_chars(e);
            safe_filename(tagged.as_str(), Some(es.as_str()))
        },
        None => safe_filename(tagged.as_str(), None),
    }
}


/// Broad kinds of files.
#[derive(Debug, Clone, Copy, PartialEq, Eq, Structural)]
pub enum FileCategory {
    Document,
    Image,
    Audio,
    Video,
    Archive,
    Code,
    Data,
    Other,
}

pub open spec fn is_one_of(e: Seq<char>, names: Seq<Seq<char>>) -> bool {
    names.contains(e)
}

pub open spec fn document_containers() -> Seq<Seq<char>> {
    seq!["docx"@, "docm"@, "dotx"@, "dotm"@, "pptx"@, "pptm"@, "ppsx"@, "potx"@, "odt"@, "odp"@, "epub"@, "pages"@]
}

pub open spec fn data_containers() -> Seq<Seq<char>> {
    seq!["xlsx"@, "xlsm"@, "xltx"@, "ods"@, "numbers"@]
}

pub open spec fn document_extensions() -> Seq<Seq<char>> {
    seq![
        "md"@, "txt"@, "rtf"@, "pdf"@, "doc"@, "docx"@, "docm"@, "dotx"@, "ppt"@, "pptx"@, "pptm"@,
        "ppsx"@, "potx"@, "pages"@, "odt"@, "odp"@, "epub"@,
    ]
}

pub open spec fn image_extensions() -> Seq<Seq<char>> {
    seq!["png"@, "jpg"@, "jpeg"@, "gif"@, "webp"@, "heic"@]
}

pub open spec fn audio_extensions() -> Seq<Seq<char>> {
    seq!["mp3"@, "wav"@, "flac"@, "m4a"@, "aac"@]
}

pub open spec fn video_extensions() -> Seq<Seq<char>> {
    seq!["mp4"@, "mov"@, "mkv"@, "avi"@, "webm"@]
}

pub open spec fn archive_extensions() -> Seq<Seq<char>> {
    seq!["zip"@, "gz"@, "7z"@, "rar"@, "tar"@]
}

pub open spec fn code_extensions() -> Seq<Seq<char>> {
    seq!["rs"@, "py"@, "js"@, "ts"@, "go"@, "java"@, "c"@, "cpp"@, "swift"@]
}

pub open spec fn data_extensions() -> Seq<Seq<char>> {
    seq![
        "csv"@, "tsv"@, "json"@, "xml"@, "yaml"@, "yml"@, "toml"@, "xls"@, "xlsx"@, "xlsm"@,
        "xltx"@, "numbers"@, "ods"@,
    ]
}

pub open spec fn bytes_start_with(h: Seq<u8>, prefix: Seq<u8>) -> bool {
    prefix.len() <= h.len() && h.take(prefix.len() as int) == prefix
}

pub open spec fn zip_magic() -> Seq<u8> {
    seq![0x50u8, 0x4bu8, 0x03u8, 0x04u8]
}

pub open spec fn pdf_magic() -> Seq<u8> {
    seq![0x25u8, 0x50u8, 0x44u8, 0x46u8, 0x2du8]
}

pub open spec fn png_magic() -> Seq<u8> {
    seq![0x89u8, 0x50u8, 0x4eu8, 0x47u8, 0x0du8, 0x0au8, 0x1au8, 0x0au8]
}

pub open spec fn jpeg_magic() -> Seq<u8> {
    seq![0xffu8, 0xd8u8, 0xffu8]
}

pub open spec fn gzip_magic() -> Seq<u8> {
    seq![0x1fu8, 0x8bu8]
}

/// The lowercase extension of a path, empty when it has none.
pub open spec fn lowercase_extension(path: Seq<char>) -> Seq<char> {
    match stem_and_extension(path).1 {
        Some(e) => crate::text::ascii_lowercase(e),
        None => seq![],
    }
}

/// The category of a file from its header bytes and extension, and why: a ZIP
/// container whose extension names an office or e-book format, then magic bytes, then
/// the extension alone.
pub open spec fn category_of(path: Seq<char>, header: Seq<u8>) -> (FileCategory, Seq<char>) {
    let e = lowercase_extension(path);
    if bytes_start_with(header, zip_magic()) && is_one_of(e, document_containers()) {
        (FileCategory::Document, "container_format"@)
    } else if bytes_start_with(header, zip_magic()) && is_one_of(e, data_containers()) {
        (FileCategory::Data, "container_format"@)
    } else if bytes_start_with(header, pdf_magic()) {
        (FileCategory::Document, "magic_bytes"@)
    } else if bytes_start_with(header, png_magic()) || bytes_start_with(header, jpeg_magic()) {
        (FileCategory::Image, "magic_bytes"@)
    } else if bytes_start_with(header, zip_magic()) || bytes_start_with(header, gzip_magic()) {
        (FileCategory::Archive, "magic_bytes"@)
    } else if is_one_of(e, document_extensions()) {
        (FileCategory::Document, "extension"@)
    } else if is_one_of(e, image_extensions()) {
        (FileCategory::Image, "extension"@)
    } else if is_one_of(e, audio_extensions()) {
        (FileCategory::Audio, "extension"@)
    } else if is_one_of(e, video_extensions()) {
        (FileCategory::Video, "extension"@)
    } else if is_one_of(e, archive_extensions()) {
        (FileCategory::Archive, "extension"@)
    } else if is_one_of(e, code_extensions()) {
        (FileCategory::Code, "extension"@)
    } else if is_one_of(e, data_extensions()) {
        (FileCategory::Data, "extension"@)
    } else {
        (FileCategory::Other, "extension"@)
    }
}

fn starts_with_bytes(h: &[u8], prefix: &Vec<u8>) -> (r: bool)
    ensures
        r == bytes_start_with(h@, prefix@),
{
    if prefix.len() > h.len() {
        return false;
    }
    let mut i: usize = 0;
    while i < prefix.len()
        invariant
            i <= prefix.len() <= h@.len(),
            forall|j: int| 0 <= j < i ==> h@[j] == prefix@[j],
        decreases prefix.len() - i,
    {
        if h[i] != prefix[i] {
            assert(h@.take(prefix.len() as int)[i as int] != prefix@[i as int]);
            return false;
        }
        i += 1;
    }
    assert(h@.take(prefix.len() as int) =~= prefix@);
    true
}

pub(crate) fn one_of(e: &Vec<char>, names: &Vec<&str>) -> (r: bool)
    ensures
        r == names@.map_values(|n: &str| n@).contains(e@),
{
    let ghost nv = names@.map_values(|n: &str| n@);
    let mut i: usize = 0;
    while i < names.len()
        invariant
            i <= names.len(),
            nv == names@.map_values(|n: &str| n@),
            forall|j: int| 0 <= j < i ==> nv[j] != e@,
        decreases names.len() - i,
    {
        if chars_eq_str(e, names[i]) {
            assert(nv[i as int] == e@);
            return true;
        }
        i += 1;
    }
    false
}

/// The category of a file and the reason for it (`container_format`, `magic_bytes` or
/// `extension`).
pub fn classify_category(path: &str, header: &[u8]) -> (r: (FileCategory, &'static str))
    ensures
        (r.0, r.1@) == category_of(path@, header@),
{
    let pv = chars_of(path);
    let (_, ext) = stem_and_extension_chars(&pv);
    let e = match ext {
        Some(x) => crate::text::to_ascii_lowercase(&x),
        None => Vec::new(),
    };
    assert(e@ == lowercase_extension(path@));
    let zip = vec![0x50u8, 0x4bu8, 0x03u8, 0x04u8];
    let pdf = vec![0x25u8, 0x50u8, 0x44u8, 0x46u8, 0x2du8];
    let png = vec![0x89u8, 0x50u8, 0x4eu8, 0x47u8, 0x0du8, 0x0au8, 0x1au8, 0x0au8];
    let jpeg = vec![0xffu8, 0xd8u8, 0xffu8];
    let gzip = vec![0x1fu8, 0x8bu8];
    assert(zip@ == zip_magic() && pdf@ == pdf_magic() && png@ == png_magic() && jpeg@ == jpeg_magic() && gzip@ == gzip_magic());
    let is_zip = starts_with_bytes(header, &zip);
    let doc_c = vec!["docx", "docm", "dotx", "dotm", "pptx", "pptm", "ppsx", "potx", "odt", "odp", "epub", "pages"];
    assert(doc_c@.map_values(|n: &str| n@) =~= document_containers());
    let data_c = vec!["xlsx", "xlsm", "xltx", "ods", "numbers"];
    assert(data_c@.map_values(|n: &str| n@) =~= data_containers());
    if is_zip && one_of(&e, &doc_c) {
        return (FileCategory::Document, "container_format");
    }
    if is_zip && one_of(&e, &data_c) {
        return (FileCategory::Data, "container_format");
    }
    if starts_with_bytes(header, &pdf) {
        return (FileCategory::Document, "magic_bytes");
    }
    if starts_with_bytes(header, &png) || starts_with_bytes(header, &jpeg) {
        return (FileCategory::Image, "magic_bytes");
    }
    if is_zip || starts_with_bytes(header, &gzip) {
        return (FileCategory::Archive, "magic_bytes");
    }
    let docs = vec!["md", "txt", "rtf", "pdf", "doc", "docx", "docm", "dotx", "ppt", "pptx", "pptm", "ppsx", "potx", "pages", "odt", "odp", "epub"];
    assert(docs@.map_values(|n: &str| n@) =~= document_extensions());
    let images = vec!["png", "jpg", "jpeg", "gif", "webp", "heic"];
    assert(images@.map_values(|n: &str| n@) =~= image_extensions());
    let audio = vec!["mp3", "wav", "flac", "m4a", "aac"];
    assert(audio@.map_values(|n: &str| n@) =~= audio_extensions());
    let video = vec!["mp4", "mov", "mkv", "avi", "webm"];
    assert(video@.map_values(|n: &str| n@) =~= video_extensions());
    let archives = vec!["zip", "gz", "7z", "rar", "tar"];
    assert(archives@.map_values(|n: &str| n@) =~= archive_extensions());
    let code = vec!["rs", "py", "js", "ts", "go", "java", "c", "cpp", "swift"];
    assert(code@.map_values(|n: &str| n@) =~= code_extensions());
    let data = vec!["csv", "tsv", "json", "xml", "yaml", "yml", "toml", "xls", "xlsx", "xlsm", "xltx", "numbers", "ods"];
    assert(data@.map_values(|n: &str| n@) =~= data_extensions());
    if one_of(&e, &docs) {
        (FileCategory::Document, "extension")
    } else if one_of(&e, &images) {
        (FileCategory::Image, "extension")
    } else if one_of(&e, &audio) {
        (FileCategory::Audio, "extension")
    } else if one_of(&e, &video) {
        (FileCategory::Video, "extension")
    } else if one_of(&e, &archives) {
        (FileCategory::Archive, "extension")
    } else if one_of(&e, &code) {
        (FileCategory::Code, "extension")
    } else if one_of(&e, &data) {
        (FileCategory::Data, "extension")
    } else {
        (FileCategory::Other, "extension")
    }
}

/// How many bytes are sampled at `offset` of a file of `size` bytes: a full sample, or
/// what is left of the file.
pub open spec fn sample_length(size: u64, offset: u64) -> int {
    if size - offset < SAMPLE_BYTES {
        size - offset
    } else {
        SAMPLE_BYTES as int
    }
}

/// The reads of a quick fingerprint: each sampled offset with the number of bytes read
/// there.
pub fn sample_reads(size: u64) -> (r: Vec<(u64, usize)>)
    ensures
        r@.len() == sample_offsets_of(size).len(),
        forall|i: int|
            0 <= i < r@.len() ==> (#[trigger] r@[i]).0 == sample_offsets_of(size)[i] && r@[i].1
                == sample_length(size, sample_offsets_of(size)[i]),
{
    let offsets = sample_offsets(size);
    let mut reads: Vec<(u64, usize)> = Vec::new();
    let mut i: usize = 0;
    while i < offsets.len()
        invariant
            i <= offsets.len(),
            offsets@ == sample_offsets_of(size),
            reads@.len() == i,
            forall|k: int|
                0 <= k < i ==> (#[trigger] reads@[k]).0 == offsets@[k] && reads@[k].1 == sample_length(
                    size,
                    offsets@[k],
                ),
        decreases offsets.len() - i,
    {
        let offset = offsets[i];
        assert(offset <= size);
        let left = size - offset;
        let length: usize = if left < SAMPLE_BYTES {
            left as usize
        } else {
            SAMPLE_BYTES as usize
        };
        reads.push((offset, length));
        i += 1;
    }
    reads
}

/// The bytes that a quick fingerprint digests: the file size, then each sample's offset
/// followed by its bytes, integers in little-endian order.
pub open spec fn quick_layout(size: u64, samples: Seq<(u64, Seq<u8>)>) -> Seq<u8>
    decreases samples.len(),
{
    if samples.len() == 0 {
        spec_u64_to_le_bytes(size)
    } else {
        quick_layout(size, samples.drop_last()) + spec_u64_to_le_bytes(samples.last().0)
            + samples.last().1
    }
}

pub open spec fn samples_view(samples: Seq<(u64, Vec<u8>)>) -> Seq<(u64, Seq<u8>)> {
    samples.map_values(|s: (u64, Vec<u8>)| (s.0, s.1@))
}

/// The quick fingerprint of a file of `size` bytes from the samples read at its
/// sampled offsets: the BLAKE3 digest of the quick layout.
pub fn quick_fingerprint_of(size: u64, samples: &Vec<(u64, Vec<u8>)>) -> (r: [u8; 32])
    ensures
        r@ == blake3_of(quick_layout(size, samples_view(samples@))),
{
    let ghost sv = samples_view(samples@);
    let mut data = u64_to_le_bytes(size);
    let mut i: usize = 0;
    assert(sv.take(0) =~= Seq::<(u64, Seq<u8>)>::empty());
    while i < samples.len()
        invariant
            i <= samples.len(),
            sv == samples_view(samples@),
            data@ == quick_layout(size, sv.take(i as int)),
        decreases samples.len() - i,
    {
        let mut offset_bytes = u64_to_le_bytes(samples[i].0);
        data.append(&mut offset_bytes);
        let ghost before = data@;
        let bytes = &samples[i].1;
        let mut j: usize = 0;
        while j < bytes.len()
            invariant
                j <= bytes.len(),
                data@ == before + bytes@.take(j as int),
            decreases bytes.len() - j,
        {
            data.push(bytes[j]);
            j += 1;
            assert(data@ =~= before + bytes@.take(j as int));
        }
        assert(bytes@.take(bytes.len() as int) =~= bytes@);
        assert(sv.take(i + 1).drop_last() =~= sv.take(i as int));
        assert(sv[i as int] == (samples@[i as int].0, samples@[i as int].1@));
        i += 1;
    }
    assert(sv.take(samples.len() as int) =~= sv);
    blake3_digest(data.as_slice())
}

proof fn lemma_trim_start_edges_head(s: Seq<char>)
    ensures
        trim_start_edges(s).len() > 0 ==> !is_name_edge(trim_start_edges(s)[0]),
        trim_start_edges(s).len() <= s.len(),
    decreases s.len(),
{
    if s.len() > 0 && is_name_edge(s[0]) {
        lemma_trim_start_edges_head(s.drop_first());
    }
}

proof fn lemma_trim_end_edges_prefix(s: Seq<char>)
    ensures
        trim_end_edges(s).len() <= s.len(),
        trim_end_edges(s) == s.take(trim_end_edges(s).len() as int),
    decreases s.len(),
{
    if s.len() > 0 && is_name_edge(s.last()) {
        lemma_trim_end_edges_prefix(s.drop_last());
        assert(s.drop_last().take(trim_end_edges(s).len() as int) =~= s.take(trim_end_edges(s).len() as int));
    } else {
        assert(s.take(s.len() as int) =~= s);
    }
}

/// The name part of a safe name, before truncation, is non-empty, does not start with a
/// space or a dot, and is no reserved device name in any ASCII case.
proof fn lemma_safe_stem_shape(stem: Seq<char>)
    ensures
        safe_stem(stem).len() > 0,
        !is_name_edge(safe_stem(stem)[0]),
        !is_device_name(crate::text::ascii_lowercase(safe_stem(stem))),
{
    let collapsed = crate::text::join_with(
        crate::text::words(drop_forbidden(crate::text::nfc_form(stem))),
        " "@,
    );
    let front = trim_start_edges(collapsed);
    let trimmed = trim_end_edges(front);
    lemma_trim_start_edges_head(collapsed);
    lemma_trim_end_edges_prefix(front);
    let named = if trimmed.len() == 0 {
        "未命名文件"@
    } else {
        trimmed
    };
    reveal_strlit("未命名文件");
    reveal_strlit("con");
    reveal_strlit("prn");
    reveal_strlit("aux");
    reveal_strlit("nul");
    reveal_strlit("com");
    reveal_strlit("lpt");
    if trimmed.len() > 0 {
        assert(trimmed[0] == front[0]);
    }
    assert(named.len() > 0 && !is_name_edge(named[0]));
    let low = crate::text::ascii_lowercase(named);
    if is_device_name(low) {
        let prefixed = seq!['_'] + named;
        let pl = crate::text::ascii_lowercase(prefixed);
        assert(pl[0] == '_');
        assert(pl.len() == prefixed.len());
        if pl.len() == 4 {
            assert(pl.take(3)[0] == '_');
        }
        assert(!is_device_name(pl));
        assert(prefixed[0] == '_');
    }
}

/// Truncation keeps a prefix, and only cuts a name down to where one more character would
/// no longer fit.
proof fn lemma_truncate_prefix(s: Seq<char>, reserve: int)
    ensures
        truncate_to_fit(s, reserve).len() <= s.len(),
        truncate_to_fit(s, reserve) == s.take(truncate_to_fit(s, reserve).len() as int),
        truncate_to_fit(s, reserve) != s ==> utf8_size(truncate_to_fit(s, reserve)) + reserve > 246,
    decreases s.len(),
{
    if s.len() == 0 || utf8_size(s) + reserve <= 250 {
        assert(s.take(s.len() as int) =~= s);
    } else {
        let t = truncate_to_fit(s.drop_last(), reserve);
        lemma_truncate_prefix(s.drop_last(), reserve);
        assert(s.drop_last().take(t.len() as int) =~= s.take(t.len() as int));
        if t == s.drop_last() {
            assert(crate::text::utf8_len(s.last()) <= 4);
        }
    }
}

/// The name part of a generated file name, whenever the extension (leading dots
/// removed) takes at most 200 bytes, is non-empty, does not start with a space or a
/// dot, and is no reserved device name (`con`, `prn`, `aux`, `nul`, `com1`–`com9`,
/// `lpt1`–`lpt9`) in any ASCII case; the whole name is that part, then a dot and the
/// extension when there is one.
pub proof fn lemma_safe_filename_shape(stem: Seq<char>, extension: Option<Seq<char>>)
    requires
        match safe_extension(extension) {
            Some(e) => utf8_size(e) <= 200,
            None => true,
        },
    ensures
        ({
            let ext = safe_extension(extension);
            let reserve: int = match ext {
                Some(e) => (utf8_size(e) + 1) as int,
                None => 0,
            };
            let name = truncate_to_fit(safe_stem(stem), reserve);
            &&& name.len() > 0
            &&& !is_name_edge(name[0])
            &&& !is_device_name(crate::text::ascii_lowercase(name))
            &&& safe_filename_of(stem, extension) == match ext {
                Some(e) => name + seq!['.'] + e,
                None => name,
            }
        }),
{
    let ext = safe_extension(extension);
    let reserve: int = match ext {
        Some(e) => (utf8_size(e) + 1) as int,
        None => 0,
    };
    let full = safe_stem(stem);
    let name = truncate_to_fit(full, reserve);
    lemma_safe_stem_shape(stem);
    lemma_truncate_prefix(full, reserve);
    if name != full {
        crate::text::lemma_utf8_size_bound(name);
        assert(name.len() > 4);
        assert(name[0] == full[0]);
        let low = crate::text::ascii_lowercase(name);
        assert(low.len() == name.len());
        reveal_strlit("con");
        reveal_strlit("prn");
        reveal_strlit("aux");
        reveal_strlit("nul");
        assert(!is_device_name(low));
    }
}


/// Largest width and height of an image that is decoded for hashing.
pub const IMAGE_MAX_SIDE: u32 = 32_768;

/// Largest allocation (256 MiB) that decoding an image for hashing may make.
pub const IMAGE_MAX_ALLOC: u64 = 268_435_456;

/// Name for the grayscale samples (row-major, one byte per pixel) that the `image`
/// crate gives for encoded image bytes: decoded within the given limits, turned upright
/// by its orientation, resized to exactly `width` by `height` with a triangle filter;
/// `None` where the bytes are no image it can decode within the limits.
pub uninterp spec fn image_luma_of(
    bytes: Seq<u8>,
    width: u32,
    height: u32,
    max_side: u32,
    max_alloc: u64,
) -> Option<Seq<u8>>;

/// Decodes image bytes with the `image` crate (`ImageReader` with a format guessed
/// from the bytes, `Limits`, `DynamicImage::from_decoder`, `apply_orientation`,
/// `resize_exact` with `FilterType::Triangle`, `to_luma8`). The contract claims that
/// the result is a function of the arguments, named `image_luma_of`, and that a
/// decoded sampling has `width * height` bytes; the decoding itself is not stated.
#[verifier::external_body]
fn decode_luma(bytes: &[u8], width: u32, height: u32, max_side: u32, max_alloc: u64) -> (r:
    Option<Vec<u8>>)
    requires
        0 < width,
        0 < height,
    ensures
        match r {
            Some(v) => image_luma_of(bytes@, width, height, max_side, max_alloc) == Some(v@)
                && v@.len() == width * height,
            None => image_luma_of(bytes@, width, height, max_side, max_alloc) is None,
        },
{
    let reader = image::ImageReader::new(std::io::Cursor::new(bytes)).with_guessed_format();
    let mut reader = reader.ok()?;
    let mut limits = image::Limits::default();
    limits.max_image_width = Some(max_side);
    limits.max_image_height = Some(max_side);
    limits.max_alloc = Some(max_alloc);
    reader.limits(limits);
    let mut decoder = reader.into_decoder().ok()?;
    let orientation = image::ImageDecoder::orientation(&mut decoder).ok()?;
    let mut decoded = image::DynamicImage::from_decoder(decoder).ok()?;
    decoded.apply_orientation(orientation);
    let resized = decoded.resize_exact(width, height, image::imageops::FilterType::Triangle);
    Some(resized.to_luma8().into_raw())
}

/// The 9 by 8 grayscale sampling that the dHash of encoded image bytes is taken from.
pub open spec fn dhash_samples_of(bytes: Seq<u8>) -> Option<Seq<u8>> {
    image_luma_of(bytes, 9, 8, IMAGE_MAX_SIDE, IMAGE_MAX_ALLOC)
}

/// The dHash of an encoded image: decoded within the hashing limits, turned upright,
/// sampled 9 by 8 in grayscale; `None` when the bytes cannot be decoded so.
pub fn image_dhash_of_bytes(bytes: &[u8]) -> (r: Option<u64>)
    ensures
        match dhash_samples_of(bytes@) {
            Some(s) => r matches Some(h) && forall|k: int|
                0 <= k < 64 ==> has_bit(h, k) == dhash_bit(s, k),
            None => r is None,
        },
{
    match decode_luma(bytes, 9, 8, IMAGE_MAX_SIDE, IMAGE_MAX_ALLOC) {
        None => None,
        Some(luma) => {
            let mut samples = [0u8; 72];
            let mut i: usize = 0;
            while i < 72
                invariant
                    i <= 72,
                    luma@.len() == 72,
                    samples@.len() == 72,
                    forall|j: int| 0 <= j < i ==> samples@[j] == luma@[j],
                decreases 72 - i,
            {
                samples[i] = luma[i];
                i += 1;
            }
            assert(samples@ =~= luma@);
            Some(image_dhash(&samples))
        },
    }
}

} // verus!
