//! Exact-duplicate detection in three tiers: files are grouped by size, then by a
//! quick fingerprint of sampled bytes, and only then hashed in full. The reading of
//! files happens elsewhere; this module decides which files to read at each tier and
//! what the readings add up to.
use vstd::prelude::*;
use crate::domain::FileSnapshot;
use crate::order::{is_stable_key_order, keys_view, lemma_lex_le_head, lex_le, sort_positions_by_key};
use crate::paths::{path_key, path_key_of};
use crate::text::chars_of;

verus! {

/// A file to check, with the fingerprints cached for its snapshot, if any.
#[derive(Debug, Clone, PartialEq, Eq)]
pub struct DuplicateInput {
    pub path: String,
    pub snapshot: FileSnapshot,
    pub cached_quick_fingerprint: Option<[u8; 32]>,
    pub cached_content_hash: Option<[u8; 32]>,
}

/// Files with the same size and content.
#[derive(Debug, Clone, PartialEq, Eq)]
pub struct DuplicateGroup {
    pub content_hash: [u8; 32],
    pub size: u64,
    pub paths: Vec<String>,
}

/// Work counts of a duplicate analysis.
#[derive(Debug, Clone, Copy, PartialEq, Eq, Structural)]
pub struct DuplicateStats {
    pub input_files: usize,
    pub quick_fingerprinted_files: usize,
    pub fully_hashed_files: usize,
    pub quick_cache_hits: usize,
    pub full_cache_hits: usize,
    pub skipped_files: usize,
}

impl Default for DuplicateStats {
    fn default() -> (r: Self)
        ensures
            r == (DuplicateStats {
                input_files: 0,
                quick_fingerprinted_files: 0,
                fully_hashed_files: 0,
                quick_cache_hits: 0,
                full_cache_hits: 0,
                skipped_files: 0,
            }),
    {
        DuplicateStats {
            input_files: 0,
            quick_fingerprinted_files: 0,
            fully_hashed_files: 0,
            quick_cache_hits: 0,
            full_cache_hits: 0,
            skipped_files: 0,
        }
    }
}

#[derive(Debug, Clone, PartialEq, Eq)]
pub struct DuplicateReport {
    pub groups: Vec<DuplicateGroup>,
    pub stats: DuplicateStats,
}

/// A fingerprint computed during the analysis, for the caller to cache.
#[derive(Debug, Clone, PartialEq, Eq)]
pub struct ComputedFileHash {
    pub path: String,
    pub quick_fingerprint: [u8; 32],
    pub content_hash: Option<[u8; 32]>,
}

#[derive(Debug, Clone, PartialEq, Eq)]
pub struct CachedDuplicateReport {
    pub report: DuplicateReport,
    pub computed_hashes: Vec<ComputedFileHash>,
}

#[derive(Debug, Clone, Copy, PartialEq, Eq, Structural)]
pub enum DuplicatePhase {
    QuickFingerprint,
    FullHash,
}

#[derive(Debug, Clone, Copy, PartialEq, Eq, Structural)]
pub struct DuplicateProgress {
    pub phase: DuplicatePhase,
    pub processed_files: usize,
    pub total_work: usize,
}

#[derive(Debug, Clone, PartialEq, Eq)]
pub struct ControlledDuplicateReport {
    pub result: CachedDuplicateReport,
    pub interrupted: bool,
}

/// Input `i` is the first to name its path; a later input with the same path is a
/// repeat and takes no part.
pub open spec fn first_of_path(inputs: Seq<DuplicateInput>, i: int) -> bool {
    forall|j: int| 0 <= j < i ==> (#[trigger] inputs[j]).path@ != inputs[i].path@
}

/// Another input, first to name its path, has the same size as input `i`.
pub open spec fn shares_size(inputs: Seq<DuplicateInput>, i: int) -> bool {
    exists|j: int| 0 <= j < inputs.len() && j != i && first_of_path(inputs, j)
        && (#[trigger] inputs[j]).snapshot.size == inputs[i].snapshot.size
}

/// The inputs among the first `n` that are first to name their path and whose size
/// another such input shares, in input order.
pub open spec fn shared_size_inputs(inputs: Seq<DuplicateInput>, n: nat) -> Seq<usize>
    decreases n,
{
    if n == 0 {
        seq![]
    } else if first_of_path(inputs, n - 1) && shares_size(inputs, n - 1) {
        shared_size_inputs(inputs, (n - 1) as nat).push((n - 1) as usize)
    } else {
        shared_size_inputs(inputs, (n - 1) as nat)
    }
}

pub open spec fn size_keys(inputs: Seq<DuplicateInput>, list: Seq<usize>) -> Seq<Seq<u64>> {
    list.map_values(|i: usize| seq![inputs[i as int].snapshot.size])
}

/// `out` is `list` stably sorted by `keys`.
pub open spec fn is_stable_reordering(list: Seq<usize>, keys: Seq<Seq<u64>>, out: Seq<usize>) -> bool {
    exists|order: Seq<usize>|
        is_stable_key_order(keys, order) && out.len() == order.len() && forall|x: int|
            0 <= x < out.len() ==> out[x] == list[#[trigger] order[x] as int]
}

/// The first tier's work list: every input, once per path, whose size is shared,
/// ordered by size and, within a size, by input order.
pub open spec fn is_quick_plan(inputs: Seq<DuplicateInput>, plan: Seq<usize>) -> bool {
    let shared = shared_size_inputs(inputs, inputs.len());
    is_stable_reordering(shared, size_keys(inputs, shared), plan)
}

fn stable_reorder(list: &Vec<usize>, keys: &Vec<Vec<u64>>) -> (r: Vec<usize>)
    requires
        keys.len() == list.len(),
    ensures
        is_stable_reordering(list@, keys_view(keys@), r@),
{
    let order = sort_positions_by_key(keys);
    let mut out: Vec<usize> = Vec::new();
    let mut m: usize = 0;
    while m < order.len()
        invariant
            m <= order.len(),
            order.len() == list.len(),
            is_stable_key_order(keys_view(keys@), order@),
            out.len() == m,
            forall|x: int| 0 <= x < m ==> out@[x] == list@[#[trigger] order@[x] as int],
        decreases order.len() - m,
    {
        assert(order@[m as int] < keys_view(keys@).len());
        out.push(list[order[m]]);
        m += 1;
    }
    out
}

/// The first tier's work list.
pub fn duplicate_candidates(inputs: &Vec<DuplicateInput>) -> (r: Vec<usize>)
    ensures
        is_quick_plan(inputs@, r@),
        forall|x: int| 0 <= x < r.len() ==> r@[x] < inputs.len(),
        forall|x: int, y: int|
            0 <= x < y < r.len() ==> inputs@[#[trigger] r@[x] as int].path@ != inputs@[#[trigger] r@[y] as int].path@,
{
    let mut first: Vec<bool> = Vec::new();
    let mut i: usize = 0;
    while i < inputs.len()
        invariant
            i <= inputs.len(),
            first.len() == i,
            forall|x: int| 0 <= x < i ==> first@[x] == first_of_path(inputs@, x),
        decreases inputs.len() - i,
    {
        let mut is_first = true;
        let mut j: usize = 0;
        while j < i
            invariant
                j <= i < inputs.len(),
                is_first == forall|k: int| 0 <= k < j ==> (#[trigger] inputs@[k]).path@ != inputs@[i as int].path@,
            decreases i - j,
        {
            if same_path_text(&inputs[j].path, &inputs[i].path) {
                is_first = false;
            }
            j += 1;
        }
        first.push(is_first);
        i += 1;
    }
    let mut shared: Vec<usize> = Vec::new();
    let mut i: usize = 0;
    while i < inputs.len()
        invariant
            i <= inputs.len(),
            first.len() == inputs.len(),
            forall|x: int| 0 <= x < inputs.len() ==> first@[x] == first_of_path(inputs@, x),
            shared@ == shared_size_inputs(inputs@, i as nat),
            forall|x: int| 0 <= x < shared.len() ==> shared@[x] < i,
        decreases inputs.len() - i,
    {
        let mut found = false;
        let mut j: usize = 0;
        while j < inputs.len()
            invariant
                j <= inputs.len(),
                i < inputs.len(),
                first.len() == inputs.len(),
                forall|x: int| 0 <= x < inputs.len() ==> first@[x] == first_of_path(inputs@, x),
                found == exists|k: int|
                    0 <= k < j && k != i && first_of_path(inputs@, k) && (#[trigger] inputs@[k]).snapshot.size
                        == inputs@[i as int].snapshot.size,
            decreases inputs.len() - j,
        {
            if j != i && first[j] && inputs[j].snapshot.size == inputs[i].snapshot.size {
                found = true;
            }
            j += 1;
        }
        if first[i] && found {
            shared.push(i);
        }
        i += 1;
    }
    let mut keys: Vec<Vec<u64>> = Vec::new();
    let mut k: usize = 0;
    while k < shared.len()
        invariant
            k <= shared.len(),
            forall|x: int| 0 <= x < shared.len() ==> shared@[x] < inputs.len(),
            keys_view(keys@) == size_keys(inputs@, shared@).take(k as int),
        decreases shared.len() - k,
    {
        let ghost before = keys@;
        let kv = vec![inputs[shared[k]].snapshot.size];
        assert(kv@ =~= seq![inputs@[shared@[k as int] as int].snapshot.size]);
        keys.push(kv);
        assert(keys_view(keys@) =~= keys_view(before).push(seq![inputs@[shared@[k as int] as int].snapshot.size]));
        k += 1;
        assert(keys_view(keys@) =~= size_keys(inputs@, shared@).take(k as int));
    }
    assert(keys_view(keys@) =~= size_keys(inputs@, shared@));
    let r = stable_reorder(&shared, &keys);
    proof {
        let order = choose|order: Seq<usize>|
            is_stable_key_order(keys_view(keys@), order) && r@.len() == order.len() && forall|x: int|
                0 <= x < r@.len() ==> r@[x] == shared@[#[trigger] order[x] as int];
        assert forall|x: int| 0 <= x < r.len() implies r@[x] < inputs.len() by {
            assert(r@[x] == shared@[order[x] as int]);
        }
        lemma_quick_plan_paths_distinct(inputs@, r@);
    }
    r
}

/// The progress measure: each candidate is read once per tier.
pub fn duplicate_total_work(candidate_count: usize) -> (r: usize)
    ensures
        r == (if 2 * candidate_count > usize::MAX {
            usize::MAX as int
        } else {
            2 * candidate_count
        }),
{
    if candidate_count > usize::MAX / 2 {
        usize::MAX
    } else {
        candidate_count * 2
    }
}

/// What the first tier found for one candidate: whether its snapshot still matched,
/// and the quick fingerprint computed when no cached one existed (none if reading failed).
#[derive(Debug, Clone, Copy, PartialEq, Eq)]
pub struct QuickProbe {
    pub snapshot_matches: bool,
    pub fingerprint: Option<[u8; 32]>,
}

/// The first-tier outcome of one candidate.
pub enum QuickResult {
    /// The file changed since its snapshot.
    Skipped,
    /// The fingerprint could not be computed.
    Failed,
    /// The quick fingerprint, and whether it came from the cache.
    Fingerprint(Seq<u8>, bool),
}

pub open spec fn quick_result(input: DuplicateInput, probe: QuickProbe) -> QuickResult {
    if !probe.snapshot_matches {
        QuickResult::Skipped
    } else {
        match input.cached_quick_fingerprint {
            Some(h) => QuickResult::Fingerprint(h@, true),
            None => match probe.fingerprint {
                Some(h) => QuickResult::Fingerprint(h@, false),
                None => QuickResult::Failed,
            },
        }
    }
}

/// The quick fingerprint found for the `k`-th candidate, if any.
pub open spec fn quick_hash_at(
    inputs: Seq<DuplicateInput>,
    plan: Seq<usize>,
    probes: Seq<QuickProbe>,
    k: int,
) -> Option<Seq<u8>> {
    match quick_result(inputs[plan[k] as int], probes[k]) {
        QuickResult::Fingerprint(h, _) => Some(h),
        _ => None,
    }
}

/// Another checked candidate has the same size and quick fingerprint as the `k`-th.
pub open spec fn quick_key_shared(
    inputs: Seq<DuplicateInput>,
    plan: Seq<usize>,
    probes: Seq<QuickProbe>,
    k: int,
) -> bool {
    quick_hash_at(inputs, plan, probes, k) is Some && exists|k2: int|
        0 <= k2 < probes.len() && k2 != k && (#[trigger] quick_hash_at(inputs, plan, probes, k2))
            == quick_hash_at(inputs, plan, probes, k) && inputs[plan[k2] as int].snapshot.size
            == inputs[plan[k] as int].snapshot.size
}

/// Positions among the first `n` checked candidates whose quick key is shared.
pub open spec fn shared_quick_positions(
    inputs: Seq<DuplicateInput>,
    plan: Seq<usize>,
    probes: Seq<QuickProbe>,
    n: nat,
) -> Seq<usize>
    decreases n,
{
    if n == 0 {
        seq![]
    } else if quick_key_shared(inputs, plan, probes, n - 1) {
        shared_quick_positions(inputs, plan, probes, (n - 1) as nat).push((n - 1) as usize)
    } else {
        shared_quick_positions(inputs, plan, probes, (n - 1) as nat)
    }
}

pub open spec fn hash_key(h: Seq<u8>) -> Seq<u64> {
    h.map_values(|b: u8| b as u64)
}

/// Sort key of a checked candidate in the second tier: its size, then its quick fingerprint.
pub open spec fn quick_keys(
    inputs: Seq<DuplicateInput>,
    plan: Seq<usize>,
    probes: Seq<QuickProbe>,
    positions: Seq<usize>,
) -> Seq<Seq<u64>> {
    positions.map_values(
        |k: usize|
            seq![inputs[plan[k as int] as int].snapshot.size] + hash_key(
                quick_hash_at(inputs, plan, probes, k as int)->0,
            ),
    )
}

/// The second tier's work list: candidates whose size and quick fingerprint another
/// checked candidate shares, grouped by that key and in first-tier order within a group.
pub open spec fn is_full_plan(
    inputs: Seq<DuplicateInput>,
    plan: Seq<usize>,
    probes: Seq<QuickProbe>,
    full_plan: Seq<usize>,
) -> bool {
    let positions = shared_quick_positions(inputs, plan, probes, probes.len());
    exists|order: Seq<usize>|
        is_stable_key_order(quick_keys(inputs, plan, probes, positions), order) && full_plan.len()
            == order.len() && forall|x: int|
            0 <= x < full_plan.len() ==> full_plan[x] == plan[positions[#[trigger] order[x] as int] as int]
}

fn quick_value(input: &DuplicateInput, probe: &QuickProbe) -> (r: Option<[u8; 32]>)
    ensures
        match r {
            Some(h) => quick_result(*input, *probe) matches QuickResult::Fingerprint(x, _) && x
                == h@,
            None => !(quick_result(*input, *probe) is Fingerprint),
        },
{
    if !probe.snapshot_matches {
        return None;
    }
    match input.cached_quick_fingerprint {
        Some(h) => Some(h),
        None => probe.fingerprint,
    }
}

fn same_hash(a: &[u8; 32], b: &[u8; 32]) -> (r: bool)
    ensures
        r == (a@ == b@),
{
    let mut i: usize = 0;
    while i < 32
        invariant
            i <= 32,
            a@.len() == 32,
            b@.len() == 32,
            forall|j: int| 0 <= j < i ==> a@[j] == b@[j],
        decreases 32 - i,
    {
        if a[i] != b[i] {
            return false;
        }
        i += 1;
    }
    assert(a@ =~= b@);
    true
}

fn hash_key_of(h: &[u8; 32]) -> (r: Vec<u64>)
    ensures
        r@ == hash_key(h@),
{
    let mut out: Vec<u64> = Vec::new();
    let mut i: usize = 0;
    while i < 32
        invariant
            i <= 32,
            h@.len() == 32,
            out@ == hash_key(h@.take(i as int)),
        decreases 32 - i,
    {
        out.push(h[i] as u64);
        i += 1;
        assert(out@ =~= hash_key(h@.take(i as int)));
    }
    assert(h@.take(32) =~= h@);
    out
}

/// The second tier's work list, from the first tier's plan and what it found.
pub fn full_hash_candidates(
    inputs: &Vec<DuplicateInput>,
    plan: &Vec<usize>,
    probes: &Vec<QuickProbe>,
) -> (r: Vec<usize>)
    requires
        probes.len() <= plan.len(),
        forall|x: int| 0 <= x < plan.len() ==> plan@[x] < inputs.len(),
    ensures
        is_full_plan(inputs@, plan@, probes@, r@),
        forall|x: int| 0 <= x < r.len() ==> r@[x] < inputs.len(),
{
    let ghost hv = |k: int| quick_hash_at(inputs@, plan@, probes@, k);
    let mut values: Vec<Option<[u8; 32]>> = Vec::new();
    let mut k: usize = 0;
    while k < probes.len()
        invariant
            k <= probes.len() <= plan.len(),
            forall|x: int| 0 <= x < plan.len() ==> plan@[x] < inputs.len(),
            values.len() == k,
            forall|x: int|
                0 <= x < k ==> match #[trigger] values@[x] {
                    Some(h) => quick_hash_at(inputs@, plan@, probes@, x) == Some(h@),
                    None => quick_hash_at(inputs@, plan@, probes@, x) is None,
                },
        decreases probes.len() - k,
    {
        let v = quick_value(&inputs[plan[k]], &probes[k]);
        values.push(v);
        k += 1;
    }
    let mut positions: Vec<usize> = Vec::new();
    let mut p: usize = 0;
    while p < probes.len()
        invariant
            p <= probes.len() <= plan.len(),
            values.len() == probes.len(),
            forall|x: int| 0 <= x < plan.len() ==> plan@[x] < inputs.len(),
            forall|x: int|
                0 <= x < probes.len() ==> match #[trigger] values@[x] {
                    Some(h) => quick_hash_at(inputs@, plan@, probes@, x) == Some(h@),
                    None => quick_hash_at(inputs@, plan@, probes@, x) is None,
                },
            positions@ == shared_quick_positions(inputs@, plan@, probes@, p as nat),
            forall|x: int| 0 <= x < positions.len() ==> positions@[x] < p,
            forall|x: int|
                0 <= x < positions.len() ==> quick_key_shared(
                    inputs@,
                    plan@,
                    probes@,
                    #[trigger] positions@[x] as int,
                ),
        decreases probes.len() - p,
    {
        let mut shared = false;
        match &values[p] {
            Some(h) => {
                let mut q: usize = 0;
                while q < probes.len()
                    invariant
                        q <= probes.len() <= plan.len(),
                        p < probes.len(),
                        values.len() == probes.len(),
                        values@[p as int] == Some(*h),
                        forall|x: int| 0 <= x < plan.len() ==> plan@[x] < inputs.len(),
                        forall|x: int|
                            0 <= x < probes.len() ==> match #[trigger] values@[x] {
                                Some(h) => quick_hash_at(inputs@, plan@, probes@, x) == Some(h@),
                                None => quick_hash_at(inputs@, plan@, probes@, x) is None,
                            },
                        shared == exists|k2: int|
                            0 <= k2 < q && k2 != p && (#[trigger] quick_hash_at(
                                inputs@,
                                plan@,
                                probes@,
                                k2,
                            )) == quick_hash_at(inputs@, plan@, probes@, p as int)
                                && inputs@[plan@[k2] as int].snapshot.size
                                == inputs@[plan@[p as int] as int].snapshot.size,
                    decreases probes.len() - q,
                {
                    if q != p {
                        let matches = match &values[q] {
                            Some(h2) => same_hash(h2, h) && inputs[plan[q]].snapshot.size
                                == inputs[plan[p]].snapshot.size,
                            None => false,
                        };
                        proof {
                            let hq = values@[q as int];
                            assert(matches == (quick_hash_at(inputs@, plan@, probes@, q as int)
                                == quick_hash_at(inputs@, plan@, probes@, p as int)
                                && inputs@[plan@[q as int] as int].snapshot.size
                                == inputs@[plan@[p as int] as int].snapshot.size));
                        }
                        if matches {
                            shared = true;
                        }
                    }
                    q += 1;
                }
            },
            None => {},
        }
        assert(shared == quick_key_shared(inputs@, plan@, probes@, p as int));
        if shared {
            positions.push(p);
        }
        p += 1;
    }
    let ghost qk = quick_keys(inputs@, plan@, probes@, positions@);
    let mut keys: Vec<Vec<u64>> = Vec::new();
    let mut j: usize = 0;
    while j < positions.len()
        invariant
            j <= positions.len(),
            values.len() == probes.len(),
            probes.len() <= plan.len(),
            forall|x: int| 0 <= x < plan.len() ==> plan@[x] < inputs.len(),
            forall|x: int| 0 <= x < positions.len() ==> positions@[x] < probes.len(),
            forall|x: int|
                0 <= x < positions.len() ==> quick_key_shared(
                    inputs@,
                    plan@,
                    probes@,
                    #[trigger] positions@[x] as int,
                ),
            forall|x: int|
                0 <= x < probes.len() ==> match #[trigger] values@[x] {
                    Some(h) => quick_hash_at(inputs@, plan@, probes@, x) == Some(h@),
                    None => quick_hash_at(inputs@, plan@, probes@, x) is None,
                },
            qk == quick_keys(inputs@, plan@, probes@, positions@),
            keys_view(keys@) == qk.take(j as int),
        decreases positions.len() - j,
    {
        let pos = positions[j];
        assert(quick_key_shared(inputs@, plan@, probes@, pos as int));
        assert(values@[pos as int] is Some);
        let h = match &values[pos] {
            Some(h) => *h,
            None => [0u8; 32],
        };
        assert(quick_hash_at(inputs@, plan@, probes@, pos as int) == Some(h@));
        let mut key = vec![inputs[plan[pos]].snapshot.size];
        assert(key@ =~= seq![inputs@[plan@[pos as int] as int].snapshot.size]);
        let hk = hash_key_of(&h);
        crate::text::append_u64s(&mut key, &hk);
        assert(key@ == qk[j as int]);
        let ghost before = keys@;
        keys.push(key);
        assert(keys_view(keys@) =~= keys_view(before).push(qk[j as int]));
        j += 1;
        assert(keys_view(keys@) =~= qk.take(j as int));
    }
    assert(keys_view(keys@) =~= qk);
    let order = sort_positions_by_key(&keys);
    let mut out: Vec<usize> = Vec::new();
    let mut m: usize = 0;
    while m < order.len()
        invariant
            m <= order.len(),
            order.len() == positions.len(),
            is_stable_key_order(qk, order@),
            keys_view(keys@) == qk,
            probes.len() <= plan.len(),
            forall|x: int| 0 <= x < plan.len() ==> plan@[x] < inputs.len(),
            forall|x: int| 0 <= x < positions.len() ==> positions@[x] < probes.len(),
            out.len() == m,
            forall|x: int|
                0 <= x < m ==> out@[x] == plan@[positions@[#[trigger] order@[x] as int] as int],
            forall|x: int| 0 <= x < m ==> out@[x] < inputs.len(),
        decreases order.len() - m,
    {
        let o = order[m];
        assert(o < positions.len());
        out.push(plan[positions[o]]);
        m += 1;
    }
    out
}


/// The second-tier outcome of one candidate.
pub enum FullResult {
    Failed,
    /// The content hash, and whether it came from the cache.
    Hash(Seq<u8>, bool),
}

pub open spec fn full_result(input: DuplicateInput, probe: Option<[u8; 32]>) -> FullResult {
    match input.cached_content_hash {
        Some(h) => FullResult::Hash(h@, true),
        None => match probe {
            Some(h) => FullResult::Hash(h@, false),
            None => FullResult::Failed,
        },
    }
}

/// First-tier counts over the first `n` checked candidates: fingerprints computed,
/// fingerprints taken from the cache, and candidates skipped.
pub open spec fn quick_counts(
    inputs: Seq<DuplicateInput>,
    plan: Seq<usize>,
    probes: Seq<QuickProbe>,
    n: nat,
) -> (nat, nat, nat)
    decreases n,
{
    if n == 0 {
        (0, 0, 0)
    } else {
        let c = quick_counts(inputs, plan, probes, (n - 1) as nat);
        match quick_result(inputs[plan[n - 1] as int], probes[n - 1]) {
            QuickResult::Fingerprint(_, cached) => if cached {
                (c.0, c.1 + 1, c.2)
            } else {
                (c.0 + 1, c.1, c.2)
            },
            _ => (c.0, c.1, c.2 + 1),
        }
    }
}

/// Second-tier counts over the first `n` hashed candidates: hashes computed, hashes
/// taken from the cache, and candidates that could not be hashed.
pub open spec fn full_counts(
    inputs: Seq<DuplicateInput>,
    full_plan: Seq<usize>,
    full: Seq<Option<[u8; 32]>>,
    n: nat,
) -> (nat, nat, nat)
    decreases n,
{
    if n == 0 {
        (0, 0, 0)
    } else {
        let c = full_counts(inputs, full_plan, full, (n - 1) as nat);
        match full_result(inputs[full_plan[n - 1] as int], full[n - 1]) {
            FullResult::Hash(_, cached) => if cached {
                (c.0, c.1 + 1, c.2)
            } else {
                (c.0 + 1, c.1, c.2)
            },
            FullResult::Failed => (c.0, c.1, c.2 + 1),
        }
    }
}

/// A group of files with one size and content hash, in value form.
pub struct HashGroupView {
    pub size: u64,
    pub hash: Seq<u8>,
    pub paths: Seq<Seq<char>>,
}

/// Position of the group with this size and hash, or -1.
pub open spec fn find_group(groups: Seq<HashGroupView>, size: u64, hash: Seq<u8>) -> int
    decreases groups.len(),
{
    if groups.len() == 0 {
        -1
    } else {
        let k = find_group(groups.drop_last(), size, hash);
        if k >= 0 {
            k
        } else if groups.last().size == size && groups.last().hash == hash {
            groups.len() - 1
        } else {
            -1
        }
    }
}

/// Adds a path to the group of its size and hash, opening the group if needed; a path
/// that the group already lists is not listed again.
pub open spec fn add_member(
    groups: Seq<HashGroupView>,
    size: u64,
    hash: Seq<u8>,
    path: Seq<char>,
) -> Seq<HashGroupView> {
    let k = find_group(groups, size, hash);
    if k >= 0 {
        if groups[k].paths.contains(path) {
            groups
        } else {
            groups.update(k, HashGroupView { paths: groups[k].paths.push(path), ..groups[k] })
        }
    } else {
        groups.push(HashGroupView { size, hash, paths: seq![path] })
    }
}

/// Groups formed by the first `n` hashed candidates, in order of first appearance.
pub open spec fn exact_fold(
    inputs: Seq<DuplicateInput>,
    full_plan: Seq<usize>,
    full: Seq<Option<[u8; 32]>>,
    n: nat,
) -> Seq<HashGroupView>
    decreases n,
{
    if n == 0 {
        seq![]
    } else {
        let g = exact_fold(inputs, full_plan, full, (n - 1) as nat);
        let input = inputs[full_plan[n - 1] as int];
        match full_result(input, full[n - 1]) {
            FullResult::Hash(h, _) => add_member(g, input.snapshot.size, h, input.path@),
            FullResult::Failed => g,
        }
    }
}

/// Sort key of a list of paths: each path's key followed by a zero.
pub open spec fn paths_key(paths: Seq<Seq<char>>) -> Seq<u64>
    decreases paths.len(),
{
    if paths.len() == 0 {
        seq![]
    } else {
        paths_key(paths.drop_last()) + path_key(paths.last()) + seq![0u64]
    }
}

/// Sort key of a reported group: larger sizes first, then by the sorted paths.
pub open spec fn group_key(size: u64, paths: Seq<Seq<char>>) -> Seq<u64> {
    seq![(u64::MAX - size) as u64] + paths_key(paths)
}

pub open spec fn path_keys_of(paths: Seq<Seq<char>>) -> Seq<Seq<u64>> {
    paths.map_values(|p: Seq<char>| path_key(p))
}

/// `out` is `paths` stably sorted in path order.
pub open spec fn is_sorted_paths(paths: Seq<Seq<char>>, out: Seq<Seq<char>>) -> bool {
    exists|order: Seq<usize>|
        is_stable_key_order(path_keys_of(paths), order) && out.len() == order.len() && forall|
            x: int,
        | 0 <= x < out.len() ==> out[x] == paths[#[trigger] order[x] as int]
}

/// A reported group, in value form.
pub struct GroupView {
    pub hash: Seq<u8>,
    pub size: u64,
    pub paths: Seq<Seq<char>>,
}

impl View for DuplicateGroup {
    type V = GroupView;

    open spec fn view(&self) -> GroupView {
        GroupView {
            hash: self.content_hash@,
            size: self.size,
            paths: self.paths@.map_values(|p: String| p@),
        }
    }
}

/// The groups of at least two paths.
pub open spec fn kept_groups(groups: Seq<HashGroupView>) -> Seq<HashGroupView>
    decreases groups.len(),
{
    if groups.len() == 0 {
        seq![]
    } else if groups.last().paths.len() >= 2 {
        kept_groups(groups.drop_last()).push(groups.last())
    } else {
        kept_groups(groups.drop_last())
    }
}

/// `sorted` holds the kept groups' paths in path order, and `order` arranges the kept
/// groups as `report` lists them.
pub open spec fn is_group_report_by(
    groups: Seq<HashGroupView>,
    report: Seq<GroupView>,
    sorted: Seq<Seq<Seq<char>>>,
    order: Seq<usize>,
) -> bool {
    let kept = kept_groups(groups);
    &&& sorted.len() == kept.len()
    &&& forall|x: int| 0 <= x < kept.len() ==> is_sorted_paths(kept[x].paths, #[trigger] sorted[x])
    &&& is_stable_key_order(
        Seq::new(kept.len(), |x: int| group_key(kept[x].size, sorted[x])),
        order,
    )
    &&& report.len() == order.len()
    &&& forall|x: int|
        0 <= x < report.len() ==> {
            &&& (#[trigger] report[x]).size == kept[order[x] as int].size
            &&& report[x].hash == kept[order[x] as int].hash
            &&& report[x].paths == sorted[order[x] as int]
        }
}

/// `report` lists, for every group of at least two paths, its hash, size and sorted
/// paths, the groups ordered by size (largest first) and then by their paths.
pub open spec fn is_group_report(groups: Seq<HashGroupView>, report: Seq<GroupView>) -> bool {
    exists|sorted: Seq<Seq<Seq<char>>>, order: Seq<usize>|
        #[trigger] is_group_report_by(groups, report, sorted, order)
}


/// A computed fingerprint entry, in value form.
pub struct ComputedView {
    pub path: Seq<char>,
    pub quick: Seq<u8>,
    pub content: Option<Seq<u8>>,
}

impl View for ComputedFileHash {
    type V = ComputedView;

    open spec fn view(&self) -> ComputedView {
        ComputedView {
            path: self.path@,
            quick: self.quick_fingerprint@,
            content: match self.content_hash {
                Some(h) => Some(h@),
                None => None,
            },
        }
    }
}

pub open spec fn computed_views(v: Seq<ComputedFileHash>) -> Seq<ComputedView> {
    v.map_values(|c: ComputedFileHash| c@)
}

/// Position of the entry for `path`, or -1.
pub open spec fn find_computed(cs: Seq<ComputedView>, path: Seq<char>) -> int
    decreases cs.len(),
{
    if cs.len() == 0 {
        -1
    } else {
        let k = find_computed(cs.drop_last(), path);
        if k >= 0 {
            k
        } else if cs.last().path == path {
            cs.len() - 1
        } else {
            -1
        }
    }
}

/// Entries after the first `n` first-tier checks: each computed quick fingerprint
/// (re)sets its path's entry.
pub open spec fn quick_fold(
    inputs: Seq<DuplicateInput>,
    plan: Seq<usize>,
    probes: Seq<QuickProbe>,
    n: nat,
) -> Seq<ComputedView>
    decreases n,
{
    if n == 0 {
        seq![]
    } else {
        let cs = quick_fold(inputs, plan, probes, (n - 1) as nat);
        let input = inputs[plan[n - 1] as int];
        match quick_result(input, probes[n - 1]) {
            QuickResult::Fingerprint(h, cached) => if cached {
                cs
            } else {
                let entry = ComputedView { path: input.path@, quick: h, content: None };
                let k = find_computed(cs, input.path@);
                if k >= 0 {
                    cs.update(k, entry)
                } else {
                    cs.push(entry)
                }
            },
            _ => cs,
        }
    }
}

/// Entries after the first `n` second-tier hashes: each computed content hash is added
/// to its path's entry, or opens one with the cached quick fingerprint.
pub open spec fn full_fold(
    inputs: Seq<DuplicateInput>,
    full_plan: Seq<usize>,
    full: Seq<Option<[u8; 32]>>,
    start: Seq<ComputedView>,
    n: nat,
) -> Seq<ComputedView>
    decreases n,
{
    if n == 0 {
        start
    } else {
        let cs = full_fold(inputs, full_plan, full, start, (n - 1) as nat);
        let input = inputs[full_plan[n - 1] as int];
        match full_result(input, full[n - 1]) {
            FullResult::Hash(h, cached) => if cached {
                cs
            } else {
                let k = find_computed(cs, input.path@);
                if k >= 0 {
                    cs.update(k, ComputedView { content: Some(h), ..cs[k] })
                } else {
                    cs.push(
                        ComputedView {
                            path: input.path@,
                            quick: input.cached_quick_fingerprint->0@,
                            content: Some(h),
                        },
                    )
                }
            },
            FullResult::Failed => cs,
        }
    }
}

fn same_path_text(a: &String, b: &String) -> (r: bool)
    ensures
        r == (a@ == b@),
{
    let av = chars_of(a.as_str());
    crate::text::chars_eq_str(&av, b.as_str())
}

fn find_computed_exec(cs: &Vec<ComputedFileHash>, path: &String) -> (r: Option<usize>)
    ensures
        match r {
            Some(k) => k < cs.len() && find_computed(computed_views(cs@), path@) == k,
            None => find_computed(computed_views(cs@), path@) == -1,
        },
{
    let ghost cv = computed_views(cs@);
    let mut i: usize = 0;
    assert(cv.take(0) =~= Seq::<ComputedView>::empty());
    while i < cs.len()
        invariant
            i <= cs.len(),
            cv == computed_views(cs@),
            find_computed(cv.take(i as int), path@) == -1,
        decreases cs.len() - i,
    {
        assert(cv.take(i + 1).drop_last() =~= cv.take(i as int));
        if same_path_text(&cs[i].path, path) {
            proof {
                lemma_find_computed_prefix(cv, path@, i + 1);
            }
            return Some(i);
        }
        i += 1;
    }
    assert(cv.take(cs.len() as int) =~= cv);
    None
}

proof fn lemma_find_computed_prefix(cs: Seq<ComputedView>, path: Seq<char>, n: int)
    requires
        0 < n <= cs.len(),
        find_computed(cs.take(n - 1), path) == -1,
        cs[n - 1].path == path,
    ensures
        find_computed(cs, path) == n - 1,
    decreases cs.len() - n,
{
    assert(cs.take(n).drop_last() =~= cs.take(n - 1));
    if n < cs.len() {
        assert(find_computed(cs.take(n), path) == n - 1);
        lemma_find_computed_extend(cs, path, n);
    } else {
        assert(cs.take(n) =~= cs);
    }
}

proof fn lemma_find_computed_extend(cs: Seq<ComputedView>, path: Seq<char>, n: int)
    requires
        0 < n <= cs.len(),
        find_computed(cs.take(n), path) >= 0,
    ensures
        find_computed(cs, path) == find_computed(cs.take(n), path),
    decreases cs.len() - n,
{
    if n < cs.len() {
        assert(cs.take(n + 1).drop_last() =~= cs.take(n));
        lemma_find_computed_extend(cs, path, n + 1);
    } else {
        assert(cs.take(n) =~= cs);
    }
}

/// Positions found by `find_computed` hold the path.
proof fn lemma_find_computed_found(cs: Seq<ComputedView>, path: Seq<char>)
    ensures
        find_computed(cs, path) >= 0 ==> find_computed(cs, path) < cs.len() && cs[find_computed(
            cs,
            path,
        )].path == path,
        find_computed(cs, path) >= -1,
    decreases cs.len(),
{
    if cs.len() > 0 {
        lemma_find_computed_found(cs.drop_last(), path);
    }
}

/// Updating an entry in place keeps every path findable where it was.
proof fn lemma_find_computed_update(cs: Seq<ComputedView>, k: int, e: ComputedView, path: Seq<char>)
    requires
        0 <= k < cs.len(),
        e.path == cs[k].path,
    ensures
        find_computed(cs.update(k, e), path) == find_computed(cs, path),
    decreases cs.len(),
{
    let u = cs.update(k, e);
    if k < cs.len() - 1 {
        assert(u.drop_last() =~= cs.drop_last().update(k, e));
        lemma_find_computed_update(cs.drop_last(), k, e, path);
    } else {
        assert(u.drop_last() =~= cs.drop_last());
    }
}

/// Appending an entry keeps every path findable where it was.
proof fn lemma_find_computed_push(cs: Seq<ComputedView>, e: ComputedView, path: Seq<char>)
    ensures
        find_computed(cs, path) >= 0 ==> find_computed(cs.push(e), path) == find_computed(cs, path),
        find_computed(cs, path) < 0 && e.path == path ==> find_computed(cs.push(e), path) == cs.len(),
{
    assert(cs.push(e).drop_last() =~= cs);
}

/// Runs the first-tier effects on the computed entries and counts.
fn quick_phase(
    inputs: &Vec<DuplicateInput>,
    plan: &Vec<usize>,
    probes: &Vec<QuickProbe>,
) -> (r: (Vec<ComputedFileHash>, usize, usize, usize))
    requires
        probes.len() <= plan.len(),
        forall|x: int| 0 <= x < plan.len() ==> plan@[x] < inputs.len(),
    ensures
        computed_views(r.0@) == quick_fold(inputs@, plan@, probes@, probes.len() as nat),
        (r.1 as nat, r.2 as nat, r.3 as nat) == quick_counts(
            inputs@,
            plan@,
            probes@,
            probes.len() as nat,
        ),
        r.1 + r.2 + r.3 == probes.len(),
{
    let mut cs: Vec<ComputedFileHash> = Vec::new();
    let mut computed_count: usize = 0;
    let mut hits: usize = 0;
    let mut skipped: usize = 0;
    let mut k: usize = 0;
    while k < probes.len()
        invariant
            k <= probes.len() <= plan.len(),
            forall|x: int| 0 <= x < plan.len() ==> plan@[x] < inputs.len(),
            computed_views(cs@) == quick_fold(inputs@, plan@, probes@, k as nat),
            (computed_count as nat, hits as nat, skipped as nat) == quick_counts(
                inputs@,
                plan@,
                probes@,
                k as nat,
            ),
            computed_count + hits + skipped == k,
        decreases probes.len() - k,
    {
        let input = &inputs[plan[k]];
        let probe = &probes[k];
        let ghost before = computed_views(cs@);
        if !probe.snapshot_matches {
            skipped = skipped + 1;
        } else {
            match input.cached_quick_fingerprint {
                Some(_) => {
                    hits = hits + 1;
                },
                None => match probe.fingerprint {
                    Some(h) => {
                        computed_count = computed_count + 1;
                        let entry = ComputedFileHash {
                            path: input.path.clone(),
                            quick_fingerprint: h,
                            content_hash: None,
                        };
                        let ghost ev = entry@;
                        match find_computed_exec(&cs, &input.path) {
                            Some(i) => {
                                cs.set(i, entry);
                                assert(computed_views(cs@) =~= before.update(i as int, ev));
                            },
                            None => {
                                cs.push(entry);
                                assert(computed_views(cs@) =~= before.push(ev));
                            },
                        }
                    },
                    None => {
                        skipped = skipped + 1;
                    },
                },
            }
        }
        k += 1;
    }
    (cs, computed_count, hits, skipped)
}

/// A group being formed, in executable form.
struct ExactGroup {
    size: u64,
    hash: [u8; 32],
    paths: Vec<String>,
}

impl View for ExactGroup {
    type V = HashGroupView;

    closed spec fn view(&self) -> HashGroupView {
        HashGroupView {
            size: self.size,
            hash: self.hash@,
            paths: self.paths@.map_values(|p: String| p@),
        }
    }
}

spec fn exact_views(v: Seq<ExactGroup>) -> Seq<HashGroupView> {
    v.map_values(|g: ExactGroup| g@)
}

proof fn lemma_find_group_prefix(gs: Seq<HashGroupView>, size: u64, hash: Seq<u8>, n: int)
    requires
        0 < n <= gs.len(),
        find_group(gs.take(n - 1), size, hash) == -1,
        gs[n - 1].size == size && gs[n - 1].hash == hash,
    ensures
        find_group(gs, size, hash) == n - 1,
    decreases gs.len() - n,
{
    assert(gs.take(n).drop_last() =~= gs.take(n - 1));
    if n < gs.len() {
        lemma_find_group_extend(gs, size, hash, n);
    } else {
        assert(gs.take(n) =~= gs);
    }
}

proof fn lemma_find_group_extend(gs: Seq<HashGroupView>, size: u64, hash: Seq<u8>, n: int)
    requires
        0 < n <= gs.len(),
        find_group(gs.take(n), size, hash) >= 0,
    ensures
        find_group(gs, size, hash) == find_group(gs.take(n), size, hash),
    decreases gs.len() - n,
{
    if n < gs.len() {
        assert(gs.take(n + 1).drop_last() =~= gs.take(n));
        lemma_find_group_extend(gs, size, hash, n + 1);
    } else {
        assert(gs.take(n) =~= gs);
    }
}

/// Forms the exact groups from the second tier's results.
fn exact_groups(
    inputs: &Vec<DuplicateInput>,
    full_plan: &Vec<usize>,
    full: &Vec<Option<[u8; 32]>>,
) -> (r: Vec<ExactGroup>)
    requires
        full.len() <= full_plan.len(),
        forall|x: int| 0 <= x < full_plan.len() ==> full_plan@[x] < inputs.len(),
    ensures
        exact_views(r@) == exact_fold(inputs@, full_plan@, full@, full.len() as nat),
{
    let mut gs: Vec<ExactGroup> = Vec::new();
    let mut m: usize = 0;
    assert(exact_views(gs@) =~= Seq::<HashGroupView>::empty());
    while m < full.len()
        invariant
            m <= full.len() <= full_plan.len(),
            forall|x: int| 0 <= x < full_plan.len() ==> full_plan@[x] < inputs.len(),
            exact_views(gs@) == exact_fold(inputs@, full_plan@, full@, m as nat),
        decreases full.len() - m,
    {
        let input = &inputs[full_plan[m]];
        let h: Option<[u8; 32]> = match input.cached_content_hash {
            Some(c) => Some(c),
            None => full[m],
        };
        match h {
            Some(h) => {
                let ghost gv = exact_views(gs@);
                let mut i: usize = 0;
                let mut found: Option<usize> = None;
                assert(gv.take(0) =~= Seq::<HashGroupView>::empty());
                while i < gs.len()
                    invariant
                        i <= gs.len(),
                        gv == exact_views(gs@),
                        found is None ==> find_group(gv.take(i as int), input.snapshot.size, h@) == -1,
                        found matches Some(k) ==> k < gs.len() && find_group(gv, input.snapshot.size, h@) == k,
                    decreases gs.len() - i,
                {
                    if found.is_none() {
                        assert(gv.take(i + 1).drop_last() =~= gv.take(i as int));
                        if gs[i].size == input.snapshot.size && same_hash(&gs[i].hash, &h) {
                            proof {
                                lemma_find_group_prefix(gv, input.snapshot.size, h@, i + 1);
                            }
                            found = Some(i);
                        }
                    }
                    i += 1;
                }
                if found.is_none() {
                    assert(gv.take(gs.len() as int) =~= gv);
                }
                match found {
                    Some(k) => {
                        let mut present = false;
                        let mut j: usize = 0;
                        while j < gs[k].paths.len()
                            invariant
                                k < gs.len(),
                                gv == exact_views(gs@),
                                j <= gs@[k as int].paths.len(),
                                present == exists|x: int|
                                    0 <= x < j && #[trigger] gs@[k as int].paths@[x]@ == input.path@,
                            decreases gs@[k as int].paths.len() - j,
                        {
                            if same_path_text(&gs[k].paths[j], &input.path) {
                                present = true;
                            }
                            j += 1;
                        }
                        proof {
                            assert(gv[k as int].paths == gs@[k as int].paths@.map_values(|p: String| p@));
                            if present {
                                let x = choose|x: int|
                                    0 <= x < j && #[trigger] gs@[k as int].paths@[x]@ == input.path@;
                                assert(gv[k as int].paths[x] == input.path@);
                            } else {
                                assert forall|x: int| 0 <= x < gv[k as int].paths.len() implies gv[k as int].paths[x] != input.path@ by {
                                    assert(gv[k as int].paths[x] == gs@[k as int].paths@[x]@);
                                }
                            }
                        }
                        if present {
                            m += 1;
                            continue;
                        }
                        let mut g = gs.remove(k);
                        let ghost gk = g@;
                        g.paths.push(input.path.clone());
                        let ghost ng = g@;
                        gs.insert(k, g);
                        assert(ng.paths =~= gk.paths.push(input.path@));
                        assert(ng == HashGroupView { paths: gk.paths.push(input.path@), ..gk });
                        assert(exact_views(gs@) =~= gv.update(k as int, ng));
                    },
                    None => {
                        let g = ExactGroup { size: input.snapshot.size, hash: h, paths: vec![input.path.clone()] };
                        let ghost ng = g@;
                        assert(ng.paths =~= seq![input.path@]);
                        gs.push(g);
                        assert(exact_views(gs@) =~= gv.push(ng));
                    },
                }
            },
            None => {},
        }
        m += 1;
    }
    gs
}


proof fn lemma_shared_quick_positions(
    inputs: Seq<DuplicateInput>,
    plan: Seq<usize>,
    probes: Seq<QuickProbe>,
    n: nat,
)
    requires
        n <= usize::MAX,
    ensures
        forall|x: int|
            0 <= x < shared_quick_positions(inputs, plan, probes, n).len() ==> {
                &&& (#[trigger] shared_quick_positions(inputs, plan, probes, n)[x]) < n
                &&& quick_key_shared(
                    inputs,
                    plan,
                    probes,
                    shared_quick_positions(inputs, plan, probes, n)[x] as int,
                )
            },
    decreases n,
{
    if n > 0 {
        lemma_shared_quick_positions(inputs, plan, probes, (n - 1) as nat);
        let prev = shared_quick_positions(inputs, plan, probes, (n - 1) as nat);
        let cur = shared_quick_positions(inputs, plan, probes, n);
        let shared = quick_key_shared(inputs, plan, probes, n - 1);
        if shared {
            assert(cur == prev.push((n - 1) as usize));
        } else {
            assert(cur == prev);
        }
        assert forall|x: int| 0 <= x < cur.len() implies {
            &&& (#[trigger] cur[x]) < n
            &&& quick_key_shared(inputs, plan, probes, cur[x] as int)
        } by {
            if x < prev.len() {
                assert(cur[x] == prev[x]);
                assert(prev[x] < n - 1);
                assert(quick_key_shared(inputs, plan, probes, prev[x] as int));
            } else {
                assert(shared);
                assert(cur[x] == (n - 1) as usize);
            }
        }
    }
}

proof fn lemma_find_computed_upsert(cs: Seq<ComputedView>, e: ComputedView, path: Seq<char>)
    ensures
        ({
            let k = find_computed(cs, e.path);
            let u = if k >= 0 {
                cs.update(k, e)
            } else {
                cs.push(e)
            };
            &&& find_computed(u, e.path) >= 0
            &&& find_computed(cs, path) >= 0 ==> find_computed(u, path) >= 0
        }),
{
    lemma_find_computed_found(cs, e.path);
    let k = find_computed(cs, e.path);
    if k >= 0 {
        lemma_find_computed_update(cs, k, e, path);
        lemma_find_computed_update(cs, k, e, e.path);
    } else {
        lemma_find_computed_push(cs, e, path);
        lemma_find_computed_push(cs, e, e.path);
    }
}

/// A path whose quick fingerprint was computed has an entry.
proof fn lemma_quick_fold_has_path(
    inputs: Seq<DuplicateInput>,
    plan: Seq<usize>,
    probes: Seq<QuickProbe>,
    n: nat,
    k: int,
)
    requires
        0 <= k < n,
        quick_result(inputs[plan[k] as int], probes[k]) matches QuickResult::Fingerprint(_, c) && !c,
    ensures
        find_computed(quick_fold(inputs, plan, probes, n), inputs[plan[k] as int].path@) >= 0,
    decreases n,
{
    let path = inputs[plan[k] as int].path@;
    let cs = quick_fold(inputs, plan, probes, (n - 1) as nat);
    if k < n - 1 {
        lemma_quick_fold_has_path(inputs, plan, probes, (n - 1) as nat, k);
    }
    let input = inputs[plan[n - 1] as int];
    match quick_result(input, probes[n - 1]) {
        QuickResult::Fingerprint(h, cached) => if !cached {
            let entry = ComputedView { path: input.path@, quick: h, content: None };
            lemma_find_computed_upsert(cs, entry, path);
        },
        _ => {},
    }
}

/// The second tier never drops an entry.
proof fn lemma_full_fold_keeps_path(
    inputs: Seq<DuplicateInput>,
    full_plan: Seq<usize>,
    full: Seq<Option<[u8; 32]>>,
    start: Seq<ComputedView>,
    n: nat,
    path: Seq<char>,
)
    requires
        find_computed(start, path) >= 0,
    ensures
        find_computed(full_fold(inputs, full_plan, full, start, n), path) >= 0,
    decreases n,
{
    if n > 0 {
        lemma_full_fold_keeps_path(inputs, full_plan, full, start, (n - 1) as nat, path);
        let cs = full_fold(inputs, full_plan, full, start, (n - 1) as nat);
        let input = inputs[full_plan[n - 1] as int];
        match full_result(input, full[n - 1]) {
            FullResult::Hash(h, cached) => if !cached {
                let k = find_computed(cs, input.path@);
                lemma_find_computed_found(cs, input.path@);
                if k >= 0 {
                    lemma_find_computed_update(cs, k, ComputedView { content: Some(h), ..cs[k] }, path);
                } else {
                    lemma_find_computed_push(
                        cs,
                        ComputedView {
                            path: input.path@,
                            quick: input.cached_quick_fingerprint->0@,
                            content: Some(h),
                        },
                        path,
                    );
                }
            },
            FullResult::Failed => {},
        }
    }
}

/// Every second-tier candidate either has a cached quick fingerprint or an entry.
proof fn lemma_full_candidate_has_quick(
    inputs: Seq<DuplicateInput>,
    plan: Seq<usize>,
    probes: Seq<QuickProbe>,
    full_plan: Seq<usize>,
    full: Seq<Option<[u8; 32]>>,
    m: int,
)
    requires
        probes.len() <= plan.len(),
        probes.len() <= usize::MAX,
        is_full_plan(inputs, plan, probes, full_plan),
        0 <= m < full_plan.len(),
        m <= full.len(),
        inputs[full_plan[m] as int].cached_quick_fingerprint is None,
    ensures
        find_computed(
            full_fold(
                inputs,
                full_plan,
                full,
                quick_fold(inputs, plan, probes, probes.len()),
                m as nat,
            ),
            inputs[full_plan[m] as int].path@,
        ) >= 0,
{
    let positions = shared_quick_positions(inputs, plan, probes, probes.len());
    let order = choose|order: Seq<usize>|
        is_stable_key_order(quick_keys(inputs, plan, probes, positions), order) && full_plan.len()
            == order.len() && forall|x: int|
            0 <= x < full_plan.len() ==> full_plan[x] == plan[positions[#[trigger] order[x] as int] as int];
    assert(full_plan[m] == plan[positions[order[m] as int] as int]);
    lemma_shared_quick_positions(inputs, plan, probes, probes.len());
    let p = positions[order[m] as int] as int;
    assert(order[m] < quick_keys(inputs, plan, probes, positions).len());
    assert(quick_key_shared(inputs, plan, probes, p));
    lemma_quick_fold_has_path(inputs, plan, probes, probes.len(), p);
    lemma_full_fold_keeps_path(
        inputs,
        full_plan,
        full,
        quick_fold(inputs, plan, probes, probes.len()),
        m as nat,
        inputs[full_plan[m] as int].path@,
    );
}

/// Runs the second-tier effects on the computed entries and counts.
fn full_phase(
    inputs: &Vec<DuplicateInput>,
    plan: &Vec<usize>,
    probes: &Vec<QuickProbe>,
    full_plan: &Vec<usize>,
    full: &Vec<Option<[u8; 32]>>,
    start: Vec<ComputedFileHash>,
) -> (r: (Vec<ComputedFileHash>, usize, usize, usize))
    requires
        probes.len() <= plan.len(),
        full.len() <= full_plan.len(),
        forall|x: int| 0 <= x < plan.len() ==> plan@[x] < inputs.len(),
        forall|x: int| 0 <= x < full_plan.len() ==> full_plan@[x] < inputs.len(),
        full.len() > 0 ==> is_full_plan(inputs@, plan@, probes@, full_plan@),
        computed_views(start@) == quick_fold(inputs@, plan@, probes@, probes.len() as nat),
    ensures
        computed_views(r.0@) == full_fold(
            inputs@,
            full_plan@,
            full@,
            quick_fold(inputs@, plan@, probes@, probes.len() as nat),
            full.len() as nat,
        ),
        (r.1 as nat, r.2 as nat, r.3 as nat) == full_counts(
            inputs@,
            full_plan@,
            full@,
            full.len() as nat,
        ),
        r.1 + r.2 + r.3 == full.len(),
{
    let ghost q = quick_fold(inputs@, plan@, probes@, probes.len() as nat);
    let mut cs = start;
    let mut computed_count: usize = 0;
    let mut hits: usize = 0;
    let mut failed: usize = 0;
    let mut m: usize = 0;
    while m < full.len()
        invariant
            m <= full.len() <= full_plan.len(),
            probes.len() <= plan.len(),
            forall|x: int| 0 <= x < plan.len() ==> plan@[x] < inputs.len(),
            forall|x: int| 0 <= x < full_plan.len() ==> full_plan@[x] < inputs.len(),
            full.len() > 0 ==> is_full_plan(inputs@, plan@, probes@, full_plan@),
            q == quick_fold(inputs@, plan@, probes@, probes.len() as nat),
            computed_views(cs@) == full_fold(inputs@, full_plan@, full@, q, m as nat),
            (computed_count as nat, hits as nat, failed as nat) == full_counts(
                inputs@,
                full_plan@,
                full@,
                m as nat,
            ),
            computed_count + hits + failed == m,
        decreases full.len() - m,
    {
        let input = &inputs[full_plan[m]];
        let ghost before = computed_views(cs@);
        match input.cached_content_hash {
            Some(_) => {
                hits = hits + 1;
            },
            None => match full[m] {
                Some(h) => {
                    computed_count = computed_count + 1;
                    match find_computed_exec(&cs, &input.path) {
                        Some(i) => {
                            let mut entry = cs.remove(i);
                            let ghost old_entry = entry@;
                            entry.content_hash = Some(h);
                            let ghost ne = entry@;
                            cs.insert(i, entry);
                            assert(ne == ComputedView { content: Some(h@), ..old_entry });
                            assert(computed_views(cs@) =~= before.update(i as int, ne));
                        },
                        None => {
                            match input.cached_quick_fingerprint {
                                Some(qf) => {
                                    let entry = ComputedFileHash {
                                        path: input.path.clone(),
                                        quick_fingerprint: qf,
                                        content_hash: Some(h),
                                    };
                                    let ghost ne = entry@;
                                    cs.push(entry);
                                    assert(computed_views(cs@) =~= before.push(ne));
                                },
                                None => {
                                    proof {
                                        lemma_full_candidate_has_quick(
                                            inputs@,
                                            plan@,
                                            probes@,
                                            full_plan@,
                                            full@,
                                            m as int,
                                        );
                                        assert(false);
                                    }
                                },
                            }
                        },
                    }
                },
                None => {
                    failed = failed + 1;
                },
            },
        }
        m += 1;
    }
    (cs, computed_count, hits, failed)
}


fn sort_path_strings(paths: &Vec<String>) -> (r: Vec<String>)
    ensures
        is_sorted_paths(paths@.map_values(|p: String| p@), r@.map_values(|p: String| p@)),
{
    let ghost pv = paths@.map_values(|p: String| p@);
    let mut keys: Vec<Vec<u64>> = Vec::new();
    let mut j: usize = 0;
    while j < paths.len()
        invariant
            j <= paths.len(),
            pv == paths@.map_values(|p: String| p@),
            keys_view(keys@) == path_keys_of(pv).take(j as int),
        decreases paths.len() - j,
    {
        let sv = chars_of(paths[j].as_str());
        let k = path_key_of(&sv);
        let ghost before = keys@;
        keys.push(k);
        assert(keys_view(keys@) =~= keys_view(before).push(k@));
        j += 1;
        assert(keys_view(keys@) =~= path_keys_of(pv).take(j as int));
    }
    assert(keys_view(keys@) =~= path_keys_of(pv));
    let order = sort_positions_by_key(&keys);
    let mut out: Vec<String> = Vec::new();
    let mut m: usize = 0;
    while m < order.len()
        invariant
            m <= order.len(),
            order.len() == paths.len(),
            pv == paths@.map_values(|p: String| p@),
            is_stable_key_order(path_keys_of(pv), order@),
            out.len() == m,
            forall|x: int| 0 <= x < m ==> out@[x]@ == pv[#[trigger] order@[x] as int],
        decreases order.len() - m,
    {
        let o = order[m];
        assert(o < path_keys_of(pv).len());
        out.push(paths[o].clone());
        m += 1;
    }
    let ghost ov = out@.map_values(|p: String| p@);
    assert(forall|x: int| 0 <= x < ov.len() ==> ov[x] == pv[#[trigger] order@[x] as int]);
    out
}

fn paths_key_of(paths: &Vec<String>) -> (r: Vec<u64>)
    ensures
        r@ == paths_key(paths@.map_values(|p: String| p@)),
{
    let ghost pv = paths@.map_values(|p: String| p@);
    let mut out: Vec<u64> = Vec::new();
    let mut i: usize = 0;
    while i < paths.len()
        invariant
            i <= paths.len(),
            pv == paths@.map_values(|p: String| p@),
            out@ == paths_key(pv.take(i as int)),
        decreases paths.len() - i,
    {
        let sv = chars_of(paths[i].as_str());
        let k = path_key_of(&sv);
        crate::text::append_u64s(&mut out, &k);
        out.push(0u64);
        i += 1;
        assert(pv.take(i as int).drop_last() =~= pv.take(i - 1));
        assert(out@ =~= paths_key(pv.take(i as int)));
    }
    assert(pv.take(paths.len() as int) =~= pv);
    out
}

/// The reported groups: every group of at least two paths, its paths sorted, the
/// groups ordered by size, largest first, and then by their paths.
fn report_groups(groups: Vec<ExactGroup>) -> (r: Vec<DuplicateGroup>)
    ensures
        is_group_report(exact_views(groups@), r@.map_values(|g: DuplicateGroup| g@)),
{
    let ghost all = exact_views(groups@);
    let mut rest = groups;
    let mut kept: Vec<ExactGroup> = Vec::new();
    let mut i: usize = 0;
    let ghost total = all.len();
    assert(exact_views(kept@) =~= Seq::<HashGroupView>::empty());
    assert(exact_views(rest@) =~= all.skip(0));
    assert(all.len() == groups.len());
    while rest.len() > 0
        invariant
            i <= total,
            total == all.len(),
            total <= usize::MAX,
            exact_views(rest@) == all.skip(i as int),
            rest.len() == total - i,
            exact_views(kept@) == kept_groups(all.take(i as int)),
        decreases rest.len(),
    {
        assert(exact_views(rest@)[0] == rest@[0]@);
        assert(all.skip(i as int)[0] == all[i as int]);
        let ghost old_rest = rest@;
        let g = rest.remove(0);
        assert(rest@ =~= old_rest.skip(1));
        assert(exact_views(rest@) =~= exact_views(old_rest).skip(1));
        let ghost gv = g@;
        assert(gv == all[i as int]);
        assert(all.take(i + 1).drop_last() =~= all.take(i as int));
        assert(all.take(i + 1).last() == gv);
        if g.paths.len() >= 2 {
            let ghost before = exact_views(kept@);
            kept.push(g);
            assert(exact_views(kept@) =~= before.push(gv));
        }
        i += 1;
        assert(exact_views(rest@) =~= all.skip(i as int));
    }
    assert(all.take(total as int) =~= all);
    let ghost kv = kept_groups(all);
    let mut sorted_paths: Vec<Vec<String>> = Vec::new();
    let mut keys: Vec<Vec<u64>> = Vec::new();
    let mut j: usize = 0;
    while j < kept.len()
        invariant
            j <= kept.len(),
            kv == exact_views(kept@),
            sorted_paths.len() == j,
            keys.len() == j,
            forall|x: int|
                0 <= x < j ==> is_sorted_paths(
                    kv[x].paths,
                    (#[trigger] sorted_paths@[x])@.map_values(|p: String| p@),
                ),
            forall|x: int|
                0 <= x < j ==> (#[trigger] keys@[x])@ == group_key(
                    kv[x].size,
                    sorted_paths@[x]@.map_values(|p: String| p@),
                ),
        decreases kept.len() - j,
    {
        assert(kv[j as int].paths == kept@[j as int].paths@.map_values(|p: String| p@));
        let sp = sort_path_strings(&kept[j].paths);
        let pk = paths_key_of(&sp);
        let inverted = u64::MAX - kept[j].size;
        let mut key = vec![inverted];
        crate::text::append_u64s(&mut key, &pk);
        assert(key@ =~= group_key(kv[j as int].size, sp@.map_values(|p: String| p@)));
        sorted_paths.push(sp);
        keys.push(key);
        j += 1;
    }
    let ghost sorted = Seq::new(
        kv.len(),
        |x: int| sorted_paths@[x]@.map_values(|p: String| p@),
    );
    let ghost gk = Seq::new(kv.len(), |x: int| group_key(kv[x].size, sorted[x]));
    assert(keys_view(keys@) =~= gk);
    let order = sort_positions_by_key(&keys);
    let mut out: Vec<DuplicateGroup> = Vec::new();
    let mut m: usize = 0;
    while m < order.len()
        invariant
            m <= order.len(),
            order.len() == kept.len(),
            sorted_paths.len() == kept.len(),
            kv == exact_views(kept@),
            is_stable_key_order(gk, order@),
            sorted == Seq::new(kv.len(), |x: int| sorted_paths@[x]@.map_values(|p: String| p@)),
            out.len() == m,
            forall|x: int|
                0 <= x < m ==> {
                    &&& (#[trigger] out@[x])@.size == kv[order@[x] as int].size
                    &&& out@[x]@.hash == kv[order@[x] as int].hash
                    &&& out@[x]@.paths == sorted[order@[x] as int]
                },
        decreases order.len() - m,
    {
        let o = order[m];
        assert(o < gk.len());
        let mut ps: Vec<String> = Vec::new();
        let mut t: usize = 0;
        while t < sorted_paths[o].len()
            invariant
                o < sorted_paths.len(),
                t <= sorted_paths@[o as int].len(),
                ps@.map_values(|p: String| p@) == sorted_paths@[o as int]@.map_values(|p: String| p@).take(t as int),
            decreases sorted_paths@[o as int].len() - t,
        {
            let ghost before = ps@;
            let c = sorted_paths[o][t].clone();
            assert(c@ == sorted_paths@[o as int]@[t as int]@);
            ps.push(c);
            assert(ps@.map_values(|p: String| p@) =~= before.map_values(|p: String| p@).push(c@));
            assert(ps@.map_values(|p: String| p@) =~= sorted_paths@[o as int]@.map_values(|p: String| p@).take(t + 1));
            t += 1;
        }
        assert(sorted_paths@[o as int]@.map_values(|p: String| p@).take(t as int) =~= sorted_paths@[o as int]@.map_values(|p: String| p@));
        let g = DuplicateGroup { content_hash: kept[o].hash, size: kept[o].size, paths: ps };
        assert(g@.hash == kv[o as int].hash);
        out.push(g);
        m += 1;
    }
    proof {
        let report = out@.map_values(|g: DuplicateGroup| g@);
        assert(kv == kept_groups(all));
        assert(forall|x: int| 0 <= x < kv.len() ==> is_sorted_paths(kv[x].paths, #[trigger] sorted[x]));
        assert(Seq::new(kv.len(), |x: int| group_key(kv[x].size, sorted[x])) == gk);
        assert(report.len() == order@.len());
        assert(forall|x: int|
            0 <= x < report.len() ==> {
                &&& (#[trigger] report[x]).size == kv[order@[x] as int].size
                &&& report[x].hash == kv[order@[x] as int].hash
                &&& report[x].paths == sorted[order@[x] as int]
            });
        assert(is_group_report_by(all, report, sorted, order@));
    }
    out
}


/// A file still matches its snapshot when size, modification and change times agree.
pub open spec fn snapshot_still_matches(
    observed: Result<crate::platform::ObservedFile, crate::platform::ObserveError>,
    expected: FileSnapshot,
) -> bool {
    match observed {
        Ok(o) => o.snapshot.size == expected.size && o.snapshot.modified_at_ns
            == expected.modified_at_ns && o.snapshot.changed_at_ns == expected.changed_at_ns,
        Err(_) => false,
    }
}

/// Whether an observed file still matches the snapshot it was listed with.
pub fn snapshot_matches(
    observed: &Result<crate::platform::ObservedFile, crate::platform::ObserveError>,
    expected: &FileSnapshot,
) -> (r: bool)
    ensures
        r == snapshot_still_matches(*observed, *expected),
{
    match observed {
        Ok(o) => o.snapshot.size == expected.size && o.snapshot.modified_at_ns
            == expected.modified_at_ns && o.snapshot.changed_at_ns == expected.changed_at_ns,
        Err(_) => false,
    }
}

/// The statistics of an analysis that checked `probes` and hashed `full`.
pub open spec fn duplicate_stats_of(
    inputs: Seq<DuplicateInput>,
    plan: Seq<usize>,
    probes: Seq<QuickProbe>,
    full_plan: Seq<usize>,
    full: Seq<Option<[u8; 32]>>,
) -> DuplicateStats {
    let q = quick_counts(inputs, plan, probes, probes.len());
    let f = full_counts(inputs, full_plan, full, full.len());
    DuplicateStats {
        input_files: inputs.len() as usize,
        quick_fingerprinted_files: q.0 as usize,
        fully_hashed_files: f.0 as usize,
        quick_cache_hits: q.1 as usize,
        full_cache_hits: f.1 as usize,
        skipped_files: (q.2 + f.2) as usize,
    }
}

/// Puts together the outcome of a duplicate analysis from its two work lists and what
/// was found for the candidates that were checked before it finished or was stopped.
/// Groups hold only files whose content hashes agree, each path once; every computed
/// fingerprint is returned, once per path and in path order, also when the analysis
/// was stopped, so that it can be cached.
pub fn assemble_duplicate_report(
    inputs: &Vec<DuplicateInput>,
    plan: &Vec<usize>,
    probes: &Vec<QuickProbe>,
    full_plan: &Vec<usize>,
    full: &Vec<Option<[u8; 32]>>,
) -> (r: ControlledDuplicateReport)
    requires
        probes.len() <= plan.len(),
        full.len() <= full_plan.len(),
        probes.len() < plan.len() ==> full_plan.len() == 0,
        probes.len() == plan.len() ==> is_full_plan(inputs@, plan@, probes@, full_plan@),
        forall|x: int| 0 <= x < plan.len() ==> plan@[x] < inputs.len(),
        forall|x: int| 0 <= x < full_plan.len() ==> full_plan@[x] < inputs.len(),
        plan.len() + full_plan.len() <= usize::MAX,
    ensures
        r.interrupted == (probes.len() < plan.len() || full.len() < full_plan.len()),
        r.result.report.stats == duplicate_stats_of(inputs@, plan@, probes@, full_plan@, full@),
        is_group_report(
            exact_fold(inputs@, full_plan@, full@, full.len() as nat),
            r.result.report.groups@.map_values(|g: DuplicateGroup| g@),
        ),
        forall|x: int|
            0 <= x < r.result.report.groups@.len() ==> paths_distinct(
                (#[trigger] r.result.report.groups@[x])@.paths,
            ),
        is_sorted_by_path(
            full_fold(
                inputs@,
                full_plan@,
                full@,
                quick_fold(inputs@, plan@, probes@, probes.len() as nat),
                full.len() as nat,
            ),
            computed_views(r.result.computed_hashes@),
        ),
        computed_distinct(computed_views(r.result.computed_hashes@)),
        forall|i: int, j: int|
            0 <= i < j < r.result.computed_hashes@.len() ==> lex_le(
                path_key((#[trigger] r.result.computed_hashes@[i])@.path),
                path_key((#[trigger] r.result.computed_hashes@[j])@.path),
            ),
{
    let (cs, q0, q1, q2) = quick_phase(inputs, plan, probes);
    let (cs, f0, f1, f2) = full_phase(inputs, plan, probes, full_plan, full, cs);
    proof {
        lemma_quick_fold_distinct(inputs@, plan@, probes@, probes.len() as nat);
        lemma_full_fold_distinct(
            inputs@,
            full_plan@,
            full@,
            quick_fold(inputs@, plan@, probes@, probes.len() as nat),
            full.len() as nat,
        );
    }
    let cs = sort_computed_by_path(cs);
    proof {
        let ghost before = full_fold(
            inputs@,
            full_plan@,
            full@,
            quick_fold(inputs@, plan@, probes@, probes.len() as nat),
            full.len() as nat,
        );
        lemma_sorted_computed(before, computed_views(cs@));
        assert forall|i: int, j: int| 0 <= i < j < cs@.len() implies lex_le(
            path_key((#[trigger] cs@[i])@.path),
            path_key((#[trigger] cs@[j])@.path),
        ) by {
            assert(computed_views(cs@)[i] == cs@[i]@ && computed_views(cs@)[j] == cs@[j]@);
        }
    }
    let groups = exact_groups(inputs, full_plan, full);
    let reported = report_groups(groups);
    proof {
        lemma_duplicate_group_paths_are_distinct(
            inputs@,
            full_plan@,
            full@,
            reported@.map_values(|g: DuplicateGroup| g@),
        );
        assert forall|x: int| 0 <= x < reported@.len() implies paths_distinct(
            (#[trigger] reported@[x])@.paths,
        ) by {
            assert(reported@.map_values(|g: DuplicateGroup| g@)[x] == reported@[x]@);
        }
    }
    let stats = DuplicateStats {
        input_files: inputs.len(),
        quick_fingerprinted_files: q0,
        fully_hashed_files: f0,
        quick_cache_hits: q1,
        full_cache_hits: f1,
        skipped_files: q2 + f2,
    };
    ControlledDuplicateReport {
        result: CachedDuplicateReport {
            report: DuplicateReport { groups: reported, stats },
            computed_hashes: cs,
        },
        interrupted: probes.len() < plan.len() || full.len() < full_plan.len(),
    }
}


/// The second-tier outcome gave this content hash.
pub open spec fn hashed_to(r: FullResult, hash: Seq<u8>) -> bool {
    r matches FullResult::Hash(h, _) && h == hash
}

/// `p` is the path of a hashed candidate among the first `n` with this size and hash.
pub open spec fn hashed_as(
    inputs: Seq<DuplicateInput>,
    full_plan: Seq<usize>,
    full: Seq<Option<[u8; 32]>>,
    n: nat,
    p: Seq<char>,
    size: u64,
    hash: Seq<u8>,
) -> bool {
    exists|m: int|
        0 <= m < n && inputs[full_plan[m] as int].path@ == p && inputs[full_plan[m] as int].snapshot.size
            == size && hashed_to(#[trigger] full_result(inputs[full_plan[m] as int], full[m]), hash)
}

proof fn lemma_find_group_found(gs: Seq<HashGroupView>, size: u64, hash: Seq<u8>)
    ensures
        find_group(gs, size, hash) >= 0 ==> find_group(gs, size, hash) < gs.len() && gs[find_group(
            gs,
            size,
            hash,
        )].size == size && gs[find_group(gs, size, hash)].hash == hash,
        find_group(gs, size, hash) >= -1,
    decreases gs.len(),
{
    if gs.len() > 0 {
        lemma_find_group_found(gs.drop_last(), size, hash);
    }
}

proof fn lemma_exact_fold_members(
    inputs: Seq<DuplicateInput>,
    full_plan: Seq<usize>,
    full: Seq<Option<[u8; 32]>>,
    n: nat,
)
    ensures
        forall|g: int, j: int|
            0 <= g < exact_fold(inputs, full_plan, full, n).len() && 0 <= j < exact_fold(
                inputs,
                full_plan,
                full,
                n,
            )[g].paths.len() ==> hashed_as(
                inputs,
                full_plan,
                full,
                n,
                #[trigger] exact_fold(inputs, full_plan, full, n)[g].paths[j],
                exact_fold(inputs, full_plan, full, n)[g].size,
                exact_fold(inputs, full_plan, full, n)[g].hash,
            ),
    decreases n,
{
    if n > 0 {
        let prev = exact_fold(inputs, full_plan, full, (n - 1) as nat);
        let cur = exact_fold(inputs, full_plan, full, n);
        lemma_exact_fold_members(inputs, full_plan, full, (n - 1) as nat);
        let input = inputs[full_plan[n - 1] as int];
        assert forall|g: int, j: int|
            0 <= g < cur.len() && 0 <= j < cur[g].paths.len() implies hashed_as(
            inputs,
            full_plan,
            full,
            n,
            #[trigger] cur[g].paths[j],
            cur[g].size,
            cur[g].hash,
        ) by {
            match full_result(input, full[n - 1]) {
                FullResult::Hash(h, _) => {
                    let k = find_group(prev, input.snapshot.size, h);
                    lemma_find_group_found(prev, input.snapshot.size, h);
                    if k >= 0 && g == k && j == prev[k].paths.len() {
                        assert(cur[g].paths[j] == input.path@);
                        assert(hashed_to(full_result(inputs[full_plan[n - 1] as int], full[n - 1]), cur[g].hash));
                    } else if k < 0 && g == prev.len() {
                        assert(cur[g].paths[j] == input.path@);
                        assert(hashed_to(full_result(inputs[full_plan[n - 1] as int], full[n - 1]), cur[g].hash));
                    } else {
                        assert(cur[g].paths[j] == prev[g].paths[j]);
                        assert(hashed_as(inputs, full_plan, full, (n - 1) as nat, prev[g].paths[j], prev[g].size, prev[g].hash));
                        let m = choose|m: int|
                            0 <= m < n - 1 && inputs[full_plan[m] as int].path@ == prev[g].paths[j]
                                && inputs[full_plan[m] as int].snapshot.size == prev[g].size && hashed_to(
                                #[trigger] full_result(inputs[full_plan[m] as int], full[m]),
                                prev[g].hash,
                            );
                        assert(hashed_to(full_result(inputs[full_plan[m] as int], full[m]), cur[g].hash));
                    }
                },
                FullResult::Failed => {
                    assert(cur == prev);
                    let m = choose|m: int|
                        0 <= m < n - 1 && inputs[full_plan[m] as int].path@ == prev[g].paths[j]
                            && inputs[full_plan[m] as int].snapshot.size == prev[g].size && hashed_to(
                            #[trigger] full_result(inputs[full_plan[m] as int], full[m]),
                            prev[g].hash,
                        );
                    assert(hashed_to(full_result(inputs[full_plan[m] as int], full[m]), cur[g].hash));
                },
            }
        }
    }
}

proof fn lemma_kept_groups(groups: Seq<HashGroupView>)
    ensures
        forall|x: int|
            0 <= x < kept_groups(groups).len() ==> (#[trigger] kept_groups(groups)[x]).paths.len()
                >= 2 && exists|g: int| 0 <= g < groups.len() && groups[g] == kept_groups(groups)[x],
    decreases groups.len(),
{
    if groups.len() > 0 {
        lemma_kept_groups(groups.drop_last());
        let prev = kept_groups(groups.drop_last());
        let cur = kept_groups(groups);
        assert forall|x: int| 0 <= x < cur.len() implies (#[trigger] cur[x]).paths.len() >= 2
            && exists|g: int| 0 <= g < groups.len() && groups[g] == cur[x] by {
            if x < prev.len() {
                assert(cur[x] == prev[x]);
                let g = choose|g: int| 0 <= g < groups.drop_last().len() && groups.drop_last()[g] == prev[x];
                assert(groups[g] == cur[x]);
            } else {
                assert(cur[x] == groups.last());
                assert(groups[groups.len() - 1] == cur[x]);
            }
        }
    }
}

/// Every reported duplicate group holds at least two paths, and every path in it
/// belongs to a file that was hashed in full with the group's size and content hash.
pub proof fn lemma_duplicate_groups_share_content(
    inputs: Seq<DuplicateInput>,
    full_plan: Seq<usize>,
    full: Seq<Option<[u8; 32]>>,
    report: Seq<GroupView>,
)
    requires
        is_group_report(exact_fold(inputs, full_plan, full, full.len()), report),
    ensures
        forall|x: int|
            0 <= x < report.len() ==> (#[trigger] report[x]).paths.len() >= 2 && forall|j: int|
                0 <= j < report[x].paths.len() ==> hashed_as(
                    inputs,
                    full_plan,
                    full,
                    full.len(),
                    report[x].paths[j],
                    report[x].size,
                    report[x].hash,
                ),
{
    let groups = exact_fold(inputs, full_plan, full, full.len());
    let kept = kept_groups(groups);
    let (sorted, order) = choose|sorted: Seq<Seq<Seq<char>>>, order: Seq<usize>|
        #[trigger] is_group_report_by(groups, report, sorted, order);
    lemma_exact_fold_members(inputs, full_plan, full, full.len());
    lemma_kept_groups(groups);
    assert forall|x: int| 0 <= x < report.len() implies (#[trigger] report[x]).paths.len() >= 2
        && forall|j: int|
        0 <= j < report[x].paths.len() ==> hashed_as(
            inputs,
            full_plan,
            full,
            full.len(),
            report[x].paths[j],
            report[x].size,
            report[x].hash,
        ) by {
        let o = order[x] as int;
        assert(o < kept.len());
        let kg = kept[o];
        assert(is_sorted_paths(kg.paths, sorted[o]));
        let porder = choose|porder: Seq<usize>|
            is_stable_key_order(path_keys_of(kg.paths), porder) && sorted[o].len() == porder.len()
                && forall|y: int| 0 <= y < sorted[o].len() ==> sorted[o][y] == kg.paths[#[trigger] porder[y] as int];
        assert(report[x].paths == sorted[o]);
        let g = choose|g: int| 0 <= g < groups.len() && groups[g] == kept[o];
        assert forall|j: int| 0 <= j < report[x].paths.len() implies hashed_as(
            inputs,
            full_plan,
            full,
            full.len(),
            report[x].paths[j],
            report[x].size,
            report[x].hash,
        ) by {
            let pj = porder[j] as int;
            assert(report[x].paths[j] == kg.paths[pj]);
            assert(groups[g].paths[pj] == kg.paths[pj]);
        }
    }
}

/// No path is listed twice.
pub open spec fn paths_distinct(paths: Seq<Seq<char>>) -> bool {
    forall|i: int, j: int| 0 <= i < j < paths.len() ==> #[trigger] paths[i] != #[trigger] paths[j]
}

proof fn lemma_exact_fold_distinct(
    inputs: Seq<DuplicateInput>,
    full_plan: Seq<usize>,
    full: Seq<Option<[u8; 32]>>,
    n: nat,
)
    ensures
        forall|g: int|
            0 <= g < exact_fold(inputs, full_plan, full, n).len() ==> paths_distinct(
                #[trigger] exact_fold(inputs, full_plan, full, n)[g].paths,
            ),
    decreases n,
{
    if n > 0 {
        let prev = exact_fold(inputs, full_plan, full, (n - 1) as nat);
        let cur = exact_fold(inputs, full_plan, full, n);
        lemma_exact_fold_distinct(inputs, full_plan, full, (n - 1) as nat);
        let input = inputs[full_plan[n - 1] as int];
        match full_result(input, full[n - 1]) {
            FullResult::Hash(h, _) => {
                let k = find_group(prev, input.snapshot.size, h);
                lemma_find_group_found(prev, input.snapshot.size, h);
                assert forall|g: int| 0 <= g < cur.len() implies paths_distinct(#[trigger] cur[g].paths) by {
                    if k >= 0 && g == k && !prev[k].paths.contains(input.path@) {
                        let ps = cur[g].paths;
                        assert(ps == prev[k].paths.push(input.path@));
                        assert(paths_distinct(prev[k].paths));
                        assert forall|i: int, j: int| 0 <= i < j < ps.len() implies #[trigger] ps[i] != #[trigger] ps[j] by {
                            if j == ps.len() - 1 {
                                assert(ps[i] == prev[k].paths[i]);
                                if ps[i] == ps[j] {
                                    assert(prev[k].paths.contains(input.path@));
                                }
                            } else {
                                assert(ps[i] == prev[k].paths[i] && ps[j] == prev[k].paths[j]);
                            }
                        }
                    } else if k < 0 && g == prev.len() {
                        assert(cur[g].paths == seq![input.path@]);
                    } else {
                        assert(cur[g] == prev[g]);
                    }
                }
            },
            FullResult::Failed => {},
        }
    }
}

/// A report of groups that each list distinct paths lists distinct paths in every group.
proof fn lemma_report_paths_distinct(groups: Seq<HashGroupView>, report: Seq<GroupView>)
    requires
        is_group_report(groups, report),
        forall|g: int| 0 <= g < groups.len() ==> paths_distinct(#[trigger] groups[g].paths),
    ensures
        forall|x: int| 0 <= x < report.len() ==> paths_distinct(#[trigger] report[x].paths),
{
    let kept = kept_groups(groups);
    let (sorted, order) = choose|sorted: Seq<Seq<Seq<char>>>, order: Seq<usize>|
        #[trigger] is_group_report_by(groups, report, sorted, order);
    lemma_kept_groups(groups);
    assert forall|x: int| 0 <= x < report.len() implies paths_distinct(#[trigger] report[x].paths) by {
        let o = order[x] as int;
        let kg = kept[o];
        assert(is_sorted_paths(kg.paths, sorted[o]));
        let porder = choose|porder: Seq<usize>|
            is_stable_key_order(path_keys_of(kg.paths), porder) && sorted[o].len() == porder.len()
                && forall|y: int| 0 <= y < sorted[o].len() ==> sorted[o][y] == kg.paths[#[trigger] porder[y] as int];
        let g = choose|g: int| 0 <= g < groups.len() && groups[g] == kept[o];
        assert(paths_distinct(groups[g].paths));
        let ps = report[x].paths;
        assert(ps == sorted[o]);
        assert forall|i: int, j: int| 0 <= i < j < ps.len() implies #[trigger] ps[i] != #[trigger] ps[j] by {
            assert(ps[i] == kg.paths[porder[i] as int]);
            assert(ps[j] == kg.paths[porder[j] as int]);
            assert(porder[i] != porder[j]);
            if porder[i] < porder[j] {
            } else {
            }
        }
    }
}

/// No reported duplicate group lists a path twice, even when the same path was handed
/// in more than once.
pub proof fn lemma_duplicate_group_paths_are_distinct(
    inputs: Seq<DuplicateInput>,
    full_plan: Seq<usize>,
    full: Seq<Option<[u8; 32]>>,
    report: Seq<GroupView>,
)
    requires
        is_group_report(exact_fold(inputs, full_plan, full, full.len()), report),
    ensures
        forall|x: int| 0 <= x < report.len() ==> paths_distinct(#[trigger] report[x].paths),
{
    lemma_exact_fold_distinct(inputs, full_plan, full, full.len());
    lemma_report_paths_distinct(exact_fold(inputs, full_plan, full, full.len()), report);
}

proof fn lemma_group_key_first(size: u64, paths: Seq<Seq<char>>)
    ensures
        group_key(size, paths).len() > 0,
        group_key(size, paths)[0] == (u64::MAX - size) as u64,
{
}

/// Each reported group lists its paths in ascending path order, and the groups come
/// largest size first, groups of one size ordered by their path lists.
pub proof fn lemma_duplicate_groups_are_ordered(
    inputs: Seq<DuplicateInput>,
    full_plan: Seq<usize>,
    full: Seq<Option<[u8; 32]>>,
    report: Seq<GroupView>,
)
    requires
        is_group_report(exact_fold(inputs, full_plan, full, full.len()), report),
    ensures
        forall|x: int, i: int, j: int|
            0 <= x < report.len() && 0 <= i < j < report[x].paths.len() ==> lex_le(
                path_key(#[trigger] report[x].paths[i]),
                path_key(#[trigger] report[x].paths[j]),
            ),
        forall|x: int, y: int|
            0 <= x < y < report.len() ==> lex_le(
                group_key((#[trigger] report[x]).size, report[x].paths),
                group_key((#[trigger] report[y]).size, report[y].paths),
            ),
        forall|x: int, y: int|
            0 <= x < y < report.len() ==> (#[trigger] report[x]).size >= (#[trigger] report[y]).size,
{
    let groups = exact_fold(inputs, full_plan, full, full.len());
    let kept = kept_groups(groups);
    let (sorted, order) = choose|sorted: Seq<Seq<Seq<char>>>, order: Seq<usize>|
        #[trigger] is_group_report_by(groups, report, sorted, order);
    let keys = Seq::new(kept.len(), |x: int| group_key(kept[x].size, sorted[x]));
    assert forall|x: int, i: int, j: int|
        0 <= x < report.len() && 0 <= i < j < report[x].paths.len() implies lex_le(
            path_key(#[trigger] report[x].paths[i]),
            path_key(#[trigger] report[x].paths[j]),
        ) by {
        let o = order[x] as int;
        assert(report[x].paths == sorted[o]);
        assert(is_sorted_paths(kept[o].paths, sorted[o]));
        let inner = choose|inner: Seq<usize>|
            is_stable_key_order(path_keys_of(kept[o].paths), inner) && sorted[o].len()
                == inner.len() && forall|z: int|
                0 <= z < sorted[o].len() ==> sorted[o][z] == kept[o].paths[#[trigger] inner[z] as int];
        assert(sorted[o][i] == kept[o].paths[inner[i] as int]);
        assert(sorted[o][j] == kept[o].paths[inner[j] as int]);
        assert(lex_le(
            path_keys_of(kept[o].paths)[inner[i] as int],
            path_keys_of(kept[o].paths)[inner[j] as int],
        ));
    }
    assert forall|x: int, y: int| 0 <= x < y < report.len() implies lex_le(
        group_key((#[trigger] report[x]).size, report[x].paths),
        group_key((#[trigger] report[y]).size, report[y].paths),
    ) && report[x].size >= report[y].size by {
        assert(lex_le(keys[order[x] as int], keys[order[y] as int]));
        assert(keys[order[x] as int] == group_key(report[x].size, report[x].paths));
        assert(keys[order[y] as int] == group_key(report[y].size, report[y].paths));
        lemma_group_key_first(report[x].size, report[x].paths);
        lemma_group_key_first(report[y].size, report[y].paths);
        lemma_lex_le_head(
            group_key(report[x].size, report[x].paths),
            group_key(report[y].size, report[y].paths),
        );
    }
}

/// No path has two entries.
pub open spec fn computed_distinct(cs: Seq<ComputedView>) -> bool {
    forall|i: int, j: int| 0 <= i < j < cs.len() ==> (#[trigger] cs[i]).path != (#[trigger] cs[j]).path
}

proof fn lemma_find_computed_absent(cs: Seq<ComputedView>, path: Seq<char>)
    requires
        find_computed(cs, path) < 0,
    ensures
        forall|i: int| 0 <= i < cs.len() ==> (#[trigger] cs[i]).path != path,
    decreases cs.len(),
{
    if cs.len() > 0 {
        lemma_find_computed_absent(cs.drop_last(), path);
        assert forall|i: int| 0 <= i < cs.len() implies (#[trigger] cs[i]).path != path by {
            if i < cs.len() - 1 {
                assert(cs[i] == cs.drop_last()[i]);
            }
        }
    }
}

/// Setting the entry of a path, in place or at the end, keeps paths distinct.
proof fn lemma_upsert_distinct(cs: Seq<ComputedView>, e: ComputedView)
    requires
        computed_distinct(cs),
    ensures
        find_computed(cs, e.path) >= 0 ==> computed_distinct(cs.update(find_computed(cs, e.path), e)),
        find_computed(cs, e.path) < 0 ==> computed_distinct(cs.push(e)),
{
    lemma_find_computed_found(cs, e.path);
    let k = find_computed(cs, e.path);
    if k >= 0 {
        let u = cs.update(k, e);
        assert forall|i: int, j: int| 0 <= i < j < u.len() implies (#[trigger] u[i]).path != (#[trigger] u[j]).path by {
            assert(u[i].path == cs[i].path && u[j].path == cs[j].path);
        }
    } else {
        lemma_find_computed_absent(cs, e.path);
        let u = cs.push(e);
        assert forall|i: int, j: int| 0 <= i < j < u.len() implies (#[trigger] u[i]).path != (#[trigger] u[j]).path by {
            if j == cs.len() {
                assert(u[i] == cs[i]);
            } else {
                assert(u[i] == cs[i] && u[j] == cs[j]);
            }
        }
    }
}

proof fn lemma_quick_fold_distinct(
    inputs: Seq<DuplicateInput>,
    plan: Seq<usize>,
    probes: Seq<QuickProbe>,
    n: nat,
)
    ensures
        computed_distinct(quick_fold(inputs, plan, probes, n)),
    decreases n,
{
    if n > 0 {
        lemma_quick_fold_distinct(inputs, plan, probes, (n - 1) as nat);
        let cs = quick_fold(inputs, plan, probes, (n - 1) as nat);
        let input = inputs[plan[n - 1] as int];
        match quick_result(input, probes[n - 1]) {
            QuickResult::Fingerprint(h, cached) => {
                if !cached {
                    lemma_upsert_distinct(cs, ComputedView { path: input.path@, quick: h, content: None });
                }
            },
            _ => {},
        }
    }
}

proof fn lemma_full_fold_distinct(
    inputs: Seq<DuplicateInput>,
    full_plan: Seq<usize>,
    full: Seq<Option<[u8; 32]>>,
    start: Seq<ComputedView>,
    n: nat,
)
    requires
        computed_distinct(start),
    ensures
        computed_distinct(full_fold(inputs, full_plan, full, start, n)),
    decreases n,
{
    if n > 0 {
        lemma_full_fold_distinct(inputs, full_plan, full, start, (n - 1) as nat);
        let cs = full_fold(inputs, full_plan, full, start, (n - 1) as nat);
        let input = inputs[full_plan[n - 1] as int];
        match full_result(input, full[n - 1]) {
            FullResult::Hash(h, cached) => {
                if !cached {
                    let k = find_computed(cs, input.path@);
                    lemma_find_computed_found(cs, input.path@);
                    if k >= 0 {
                        lemma_upsert_distinct(cs, ComputedView { content: Some(h), ..cs[k] });
                    } else {
                        lemma_upsert_distinct(
                            cs,
                            ComputedView {
                                path: input.path@,
                                quick: input.cached_quick_fingerprint->0@,
                                content: Some(h),
                            },
                        );
                    }
                }
            },
            FullResult::Failed => {},
        }
    }
}

pub open spec fn computed_path_keys(cs: Seq<ComputedView>) -> Seq<Seq<u64>> {
    cs.map_values(|c: ComputedView| path_key(c.path))
}

/// `out` is `cs` stably sorted in path order.
pub open spec fn is_sorted_by_path(cs: Seq<ComputedView>, out: Seq<ComputedView>) -> bool {
    exists|order: Seq<usize>|
        is_stable_key_order(computed_path_keys(cs), order) && out.len() == order.len() && forall|
            x: int,
        | 0 <= x < out.len() ==> out[x] == cs[#[trigger] order[x] as int]
}

fn sort_computed_by_path(cs: Vec<ComputedFileHash>) -> (r: Vec<ComputedFileHash>)
    ensures
        is_sorted_by_path(computed_views(cs@), computed_views(r@)),
{
    let ghost cv = computed_views(cs@);
    let mut keys: Vec<Vec<u64>> = Vec::new();
    let mut j: usize = 0;
    while j < cs.len()
        invariant
            j <= cs.len(),
            cv == computed_views(cs@),
            keys_view(keys@) == computed_path_keys(cv).take(j as int),
        decreases cs.len() - j,
    {
        let sv = chars_of(cs[j].path.as_str());
        let k = path_key_of(&sv);
        let ghost before = keys@;
        keys.push(k);
        assert(keys_view(keys@) =~= keys_view(before).push(k@));
        j += 1;
        assert(keys_view(keys@) =~= computed_path_keys(cv).take(j as int));
    }
    assert(keys_view(keys@) =~= computed_path_keys(cv));
    let order = sort_positions_by_key(&keys);
    let mut out: Vec<ComputedFileHash> = Vec::new();
    let mut m: usize = 0;
    while m < order.len()
        invariant
            m <= order.len(),
            order.len() == cs.len(),
            cv == computed_views(cs@),
            is_stable_key_order(computed_path_keys(cv), order@),
            out.len() == m,
            forall|x: int| 0 <= x < m ==> out@[x]@ == cv[#[trigger] order@[x] as int],
        decreases order.len() - m,
    {
        let o = order[m];
        assert(o < computed_path_keys(cv).len());
        let entry = ComputedFileHash {
            path: cs[o].path.clone(),
            quick_fingerprint: cs[o].quick_fingerprint,
            content_hash: cs[o].content_hash,
        };
        proof {
            assert(entry@.content == cv[o as int].content);
        }
        out.push(entry);
        m += 1;
    }
    let ghost ov = computed_views(out@);
    assert(forall|x: int| 0 <= x < ov.len() ==> ov[x] == cv[#[trigger] order@[x] as int]);
    out
}

/// Entries sorted by path from distinct entries are in path order and distinct.
proof fn lemma_sorted_computed(cs: Seq<ComputedView>, out: Seq<ComputedView>)
    requires
        is_sorted_by_path(cs, out),
        computed_distinct(cs),
    ensures
        computed_distinct(out),
        forall|i: int, j: int|
            0 <= i < j < out.len() ==> lex_le(path_key((#[trigger] out[i]).path), path_key((#[trigger] out[j]).path)),
{
    let order = choose|order: Seq<usize>|
        is_stable_key_order(computed_path_keys(cs), order) && out.len() == order.len() && forall|x: int|
            0 <= x < out.len() ==> out[x] == cs[#[trigger] order[x] as int];
    assert forall|i: int, j: int| 0 <= i < j < out.len() implies (#[trigger] out[i]).path != (#[trigger] out[j]).path
        && lex_le(path_key(out[i].path), path_key(out[j].path)) by {
        assert(out[i] == cs[order[i] as int] && out[j] == cs[order[j] as int]);
        assert(order[i] != order[j]);
        assert(lex_le(computed_path_keys(cs)[order[i] as int], computed_path_keys(cs)[order[j] as int]));
        if order[i] < order[j] {
        } else {
        }
    }
}

proof fn lemma_shared_size_inputs(inputs: Seq<DuplicateInput>, n: nat)
    requires
        n <= usize::MAX,
    ensures
        forall|x: int|
            0 <= x < shared_size_inputs(inputs, n).len() ==> (#[trigger] shared_size_inputs(inputs, n)[x])
                < n && first_of_path(inputs, shared_size_inputs(inputs, n)[x] as int),
        forall|x: int, y: int|
            0 <= x < y < shared_size_inputs(inputs, n).len() ==> #[trigger] shared_size_inputs(inputs, n)[x]
                < #[trigger] shared_size_inputs(inputs, n)[y],
    decreases n,
{
    if n > 0 {
        lemma_shared_size_inputs(inputs, (n - 1) as nat);
        let prev = shared_size_inputs(inputs, (n - 1) as nat);
        let cur = shared_size_inputs(inputs, n);
        if first_of_path(inputs, n - 1) && shares_size(inputs, n - 1) {
            assert(cur == prev.push((n - 1) as usize));
            assert forall|x: int| 0 <= x < cur.len() implies (#[trigger] cur[x]) < n && first_of_path(
                inputs,
                cur[x] as int,
            ) by {
                if x < prev.len() {
                    assert(cur[x] == prev[x]);
                }
            }
            assert forall|x: int, y: int| 0 <= x < y < cur.len() implies #[trigger] cur[x] < #[trigger] cur[y] by {
                assert(cur[x] == prev[x]);
                if y < prev.len() {
                    assert(cur[y] == prev[y]);
                }
            }
        } else {
            assert(cur == prev);
        }
    }
}

/// The first tier's work list names every path at most once: an input whose path came
/// earlier takes no part.
pub proof fn lemma_quick_plan_paths_distinct(inputs: Seq<DuplicateInput>, plan: Seq<usize>)
    requires
        inputs.len() <= usize::MAX,
        is_quick_plan(inputs, plan),
    ensures
        forall|x: int, y: int|
            0 <= x < y < plan.len() ==> inputs[#[trigger] plan[x] as int].path@ != inputs[#[trigger] plan[y] as int].path@,
{
    let shared = shared_size_inputs(inputs, inputs.len());
    lemma_shared_size_inputs(inputs, inputs.len());
    let keys = size_keys(inputs, shared);
    let order = choose|order: Seq<usize>|
        is_stable_key_order(keys, order) && plan.len() == order.len() && forall|x: int|
            0 <= x < plan.len() ==> plan[x] == shared[#[trigger] order[x] as int];
    assert forall|x: int, y: int| 0 <= x < y < plan.len() implies inputs[#[trigger] plan[x] as int].path@
        != inputs[#[trigger] plan[y] as int].path@ by {
        let a = order[x] as int;
        let b = order[y] as int;
        assert(plan[x] == shared[a] && plan[y] == shared[b]);
        assert(a != b);
        if a < b {
            assert(shared[a] < shared[b]);
            assert(first_of_path(inputs, shared[b] as int));
        } else {
            assert(shared[b] < shared[a]);
            assert(first_of_path(inputs, shared[a] as int));
        }
    }
}

proof fn lemma_shared_quick_positions_found(
    inputs: Seq<DuplicateInput>,
    plan: Seq<usize>,
    probes: Seq<QuickProbe>,
    n: nat,
)
    requires
        n <= usize::MAX,
    ensures
        forall|x: int|
            0 <= x < shared_quick_positions(inputs, plan, probes, n).len() ==> (#[trigger] shared_quick_positions(
                inputs,
                plan,
                probes,
                n,
            )[x]) < n && quick_hash_at(
                inputs,
                plan,
                probes,
                shared_quick_positions(inputs, plan, probes, n)[x] as int,
            ) is Some,
    decreases n,
{
    if n > 0 {
        lemma_shared_quick_positions_found(inputs, plan, probes, (n - 1) as nat);
        let prev = shared_quick_positions(inputs, plan, probes, (n - 1) as nat);
        let cur = shared_quick_positions(inputs, plan, probes, n);
        if quick_key_shared(inputs, plan, probes, n - 1) {
            assert(cur == prev.push((n - 1) as usize));
            assert forall|x: int| 0 <= x < cur.len() implies (#[trigger] cur[x]) < n && quick_hash_at(
                inputs,
                plan,
                probes,
                cur[x] as int,
            ) is Some by {
                if x < prev.len() {
                    assert(cur[x] == prev[x]);
                }
            }
        } else {
            assert(cur == prev);
        }
    }
}

/// Every entry of the first-tier fold is for a candidate that got a quick fingerprint.
proof fn lemma_quick_fold_sources(
    inputs: Seq<DuplicateInput>,
    plan: Seq<usize>,
    probes: Seq<QuickProbe>,
    n: nat,
)
    ensures
        forall|e: int|
            0 <= e < quick_fold(inputs, plan, probes, n).len() ==> exists|k: int|
                0 <= k < n && (#[trigger] quick_fold(inputs, plan, probes, n)[e]).path == inputs[plan[k] as int].path@
                    && quick_hash_at(inputs, plan, probes, k) is Some,
    decreases n,
{
    if n > 0 {
        lemma_quick_fold_sources(inputs, plan, probes, (n - 1) as nat);
        let cs = quick_fold(inputs, plan, probes, (n - 1) as nat);
        let cur = quick_fold(inputs, plan, probes, n);
        let input = inputs[plan[n - 1] as int];
        assert forall|e: int| 0 <= e < cur.len() implies exists|k: int|
            0 <= k < n && (#[trigger] cur[e]).path == inputs[plan[k] as int].path@ && quick_hash_at(
                inputs,
                plan,
                probes,
                k,
            ) is Some by {
            match quick_result(input, probes[n - 1]) {
                QuickResult::Fingerprint(h, cached) => {
                    if cached || e < cs.len() && !(find_computed(cs, input.path@) == e) {
                        if !cached {
                            lemma_find_computed_found(cs, input.path@);
                        }
                        assert(cur[e].path == cs[e].path);
                        let k = choose|k: int|
                            0 <= k < n - 1 && (#[trigger] cs[e]).path == inputs[plan[k] as int].path@
                                && quick_hash_at(inputs, plan, probes, k) is Some;
                        assert(quick_hash_at(inputs, plan, probes, k) is Some);
                    } else {
                        lemma_find_computed_found(cs, input.path@);
                        assert(cur[e].path == input.path@);
                        assert(quick_hash_at(inputs, plan, probes, n - 1) is Some);
                    }
                },
                _ => {
                    assert(cur[e] == cs[e]);
                    let k = choose|k: int|
                        0 <= k < n - 1 && (#[trigger] cs[e]).path == inputs[plan[k] as int].path@
                            && quick_hash_at(inputs, plan, probes, k) is Some;
                    assert(quick_hash_at(inputs, plan, probes, k) is Some);
                },
            }
        }
    }
}

/// Every entry of the second-tier fold was in `start`, or is for a hashed candidate.
proof fn lemma_full_fold_sources(
    inputs: Seq<DuplicateInput>,
    full_plan: Seq<usize>,
    full: Seq<Option<[u8; 32]>>,
    start: Seq<ComputedView>,
    n: nat,
)
    ensures
        forall|e: int|
            0 <= e < full_fold(inputs, full_plan, full, start, n).len() ==> (exists|s: int|
                0 <= s < start.len() && (#[trigger] full_fold(inputs, full_plan, full, start, n)[e]).path
                    == start[s].path) || (exists|x: int|
                0 <= x < n && full_fold(inputs, full_plan, full, start, n)[e].path
                    == inputs[#[trigger] full_plan[x] as int].path@),
    decreases n,
{
    if n > 0 {
        lemma_full_fold_sources(inputs, full_plan, full, start, (n - 1) as nat);
        let cs = full_fold(inputs, full_plan, full, start, (n - 1) as nat);
        let cur = full_fold(inputs, full_plan, full, start, n);
        let input = inputs[full_plan[n - 1] as int];
        lemma_find_computed_found(cs, input.path@);
        assert forall|e: int| 0 <= e < cur.len() implies (exists|s: int|
            0 <= s < start.len() && (#[trigger] cur[e]).path == start[s].path) || (exists|x: int|
            0 <= x < n && cur[e].path == inputs[#[trigger] full_plan[x] as int].path@) by {
            if e < cs.len() {
                assert(cur[e].path == cs[e].path);
                if exists|s: int| 0 <= s < start.len() && (#[trigger] cs[e]).path == start[s].path {
                } else {
                    let x = choose|x: int| 0 <= x < n - 1 && cs[e].path == inputs[#[trigger] full_plan[x] as int].path@;
                    assert(cur[e].path == inputs[full_plan[x] as int].path@);
                }
            } else {
                assert(cur[e].path == input.path@);
                assert(cur[e].path == inputs[full_plan[n - 1] as int].path@);
            }
        }
    }
}

/// Candidates with a quick fingerprint, and second-tier candidates, are other files
/// than the `m`-th candidate when that one changed since its snapshot.
proof fn lemma_other_candidates(
    inputs: Seq<DuplicateInput>,
    plan: Seq<usize>,
    probes: Seq<QuickProbe>,
    full_plan: Seq<usize>,
    m: int,
)
    requires
        inputs.len() <= usize::MAX,
        plan.len() <= usize::MAX,
        is_quick_plan(inputs, plan),
        probes.len() <= plan.len(),
        probes.len() < plan.len() ==> full_plan.len() == 0,
        probes.len() == plan.len() ==> is_full_plan(inputs, plan, probes, full_plan),
        0 <= m < probes.len(),
        !probes[m].snapshot_matches,
    ensures
        forall|k: int|
            0 <= k < probes.len() && quick_hash_at(inputs, plan, probes, k) is Some
                ==> #[trigger] inputs[plan[k] as int].path@ != inputs[plan[m] as int].path@,
        forall|x: int|
            0 <= x < full_plan.len() ==> inputs[#[trigger] full_plan[x] as int].path@ != inputs[plan[m] as int].path@,
{
    let p = inputs[plan[m] as int].path@;
    lemma_quick_plan_paths_distinct(inputs, plan);
    assert(quick_hash_at(inputs, plan, probes, m) is None);
    assert forall|k: int| 0 <= k < probes.len() && quick_hash_at(inputs, plan, probes, k) is Some
        implies #[trigger] inputs[plan[k] as int].path@ != p by {
        assert(k != m);
        if k < m {
            assert(inputs[plan[k] as int].path@ != inputs[plan[m] as int].path@);
        } else {
            assert(inputs[plan[m] as int].path@ != inputs[plan[k] as int].path@);
        }
    }
    if full_plan.len() > 0 {
        let positions = shared_quick_positions(inputs, plan, probes, probes.len());
        lemma_shared_quick_positions_found(inputs, plan, probes, probes.len());
        let order = choose|order: Seq<usize>|
            is_stable_key_order(quick_keys(inputs, plan, probes, positions), order) && full_plan.len()
                == order.len() && forall|y: int|
                0 <= y < full_plan.len() ==> full_plan[y] == plan[positions[#[trigger] order[y] as int] as int];
        assert forall|x: int| 0 <= x < full_plan.len() implies inputs[#[trigger] full_plan[x] as int].path@ != p by {
            let k = positions[order[x] as int] as int;
            assert(order[x] < positions.len());
            assert(full_plan[x] == plan[k]);
            assert(quick_hash_at(inputs, plan, probes, k) is Some);
            assert(inputs[plan[k] as int].path@ != p);
        }
    }
}

proof fn lemma_groups_avoid(
    inputs: Seq<DuplicateInput>,
    full_plan: Seq<usize>,
    full: Seq<Option<[u8; 32]>>,
    p: Seq<char>,
)
    requires
        forall|x: int| 0 <= x < full_plan.len() ==> inputs[#[trigger] full_plan[x] as int].path@ != p,
        full.len() <= full_plan.len(),
    ensures
        forall|g: int, j: int|
            0 <= g < exact_fold(inputs, full_plan, full, full.len()).len() && 0 <= j < exact_fold(
                inputs,
                full_plan,
                full,
                full.len(),
            )[g].paths.len() ==> #[trigger] exact_fold(inputs, full_plan, full, full.len())[g].paths[j] != p,
{
    let n = full.len();
    let groups = exact_fold(inputs, full_plan, full, n);
    lemma_exact_fold_members(inputs, full_plan, full, n);
    assert forall|g: int, j: int| 0 <= g < groups.len() && 0 <= j < groups[g].paths.len() implies #[trigger] groups[g].paths[j] != p by {
        let q = groups[g].paths[j];
        assert(hashed_as(inputs, full_plan, full, n, q, groups[g].size, groups[g].hash));
        let x = choose|x: int|
            0 <= x < n && inputs[full_plan[x] as int].path@ == q && inputs[full_plan[x] as int].snapshot.size
                == groups[g].size && hashed_to(#[trigger] full_result(inputs[full_plan[x] as int], full[x]), groups[g].hash);
        assert(inputs[full_plan[x] as int].path@ != p);
    }
}

proof fn lemma_computed_avoid(
    inputs: Seq<DuplicateInput>,
    plan: Seq<usize>,
    probes: Seq<QuickProbe>,
    full_plan: Seq<usize>,
    full: Seq<Option<[u8; 32]>>,
    p: Seq<char>,
)
    requires
        forall|k: int|
            0 <= k < probes.len() && quick_hash_at(inputs, plan, probes, k) is Some
                ==> #[trigger] inputs[plan[k] as int].path@ != p,
        forall|x: int| 0 <= x < full_plan.len() ==> inputs[#[trigger] full_plan[x] as int].path@ != p,
        full.len() <= full_plan.len(),
    ensures
        forall|e: int|
            0 <= e < full_fold(
                inputs,
                full_plan,
                full,
                quick_fold(inputs, plan, probes, probes.len()),
                full.len(),
            ).len() ==> (#[trigger] full_fold(
                inputs,
                full_plan,
                full,
                quick_fold(inputs, plan, probes, probes.len()),
                full.len(),
            )[e]).path != p,
{
    let n = full.len();
    let start = quick_fold(inputs, plan, probes, probes.len());
    lemma_quick_fold_sources(inputs, plan, probes, probes.len());
    lemma_full_fold_sources(inputs, full_plan, full, start, n);
    let cs = full_fold(inputs, full_plan, full, start, n);
    assert forall|e: int| 0 <= e < cs.len() implies (#[trigger] cs[e]).path != p by {
        if exists|s: int| 0 <= s < start.len() && (#[trigger] cs[e]).path == start[s].path {
            let s = choose|s: int| 0 <= s < start.len() && (#[trigger] cs[e]).path == start[s].path;
            let k = choose|k: int|
                0 <= k < probes.len() && (#[trigger] start[s]).path == inputs[plan[k] as int].path@
                    && quick_hash_at(inputs, plan, probes, k) is Some;
            assert(inputs[plan[k] as int].path@ != p);
        } else {
            let x = choose|x: int| 0 <= x < n && cs[e].path == inputs[#[trigger] full_plan[x] as int].path@;
            assert(inputs[full_plan[x] as int].path@ != p);
        }
    }
}

/// A file that changed since its snapshot takes no part in the outcome: its path is in
/// no group and has no computed fingerprint, whatever was cached for it.
pub proof fn lemma_changed_files_take_no_part(
    inputs: Seq<DuplicateInput>,
    plan: Seq<usize>,
    probes: Seq<QuickProbe>,
    full_plan: Seq<usize>,
    full: Seq<Option<[u8; 32]>>,
    m: int,
)
    requires
        inputs.len() <= usize::MAX,
        plan.len() <= usize::MAX,
        is_quick_plan(inputs, plan),
        probes.len() <= plan.len(),
        full.len() <= full_plan.len(),
        probes.len() < plan.len() ==> full_plan.len() == 0,
        probes.len() == plan.len() ==> is_full_plan(inputs, plan, probes, full_plan),
        0 <= m < probes.len(),
        !probes[m].snapshot_matches,
    ensures
        forall|g: int, j: int|
            0 <= g < exact_fold(inputs, full_plan, full, full.len()).len() && 0 <= j < exact_fold(
                inputs,
                full_plan,
                full,
                full.len(),
            )[g].paths.len() ==> #[trigger] exact_fold(inputs, full_plan, full, full.len())[g].paths[j]
                != inputs[plan[m] as int].path@,
        forall|e: int|
            0 <= e < full_fold(
                inputs,
                full_plan,
                full,
                quick_fold(inputs, plan, probes, probes.len()),
                full.len(),
            ).len() ==> (#[trigger] full_fold(
                inputs,
                full_plan,
                full,
                quick_fold(inputs, plan, probes, probes.len()),
                full.len(),
            )[e]).path != inputs[plan[m] as int].path@,
{
    let p = inputs[plan[m] as int].path@;
    lemma_other_candidates(inputs, plan, probes, full_plan, m);
    lemma_groups_avoid(inputs, full_plan, full, p);
    lemma_computed_avoid(inputs, plan, probes, full_plan, full, p);
}

/// The progress reported before the next piece of work of a duplicate analysis, after
/// `probes_done` first-tier checks and `full_done` full hashes: the first tier runs
/// until every candidate is checked, then the second; each piece done counts once.
/// Progress never passes the total work while the second tier hashes no more than
/// the first checked.
pub fn duplicate_progress(
    plan_len: usize,
    probes_done: usize,
    full_done: usize,
    total_work: usize,
) -> (r: DuplicateProgress)
    requires
        probes_done <= plan_len,
    ensures
        r.phase == (if probes_done < plan_len {
            DuplicatePhase::QuickFingerprint
        } else {
            DuplicatePhase::FullHash
        }),
        r.processed_files == (if probes_done + full_done > usize::MAX {
            usize::MAX as int
        } else {
            probes_done + full_done
        }),
        r.total_work == total_work,
        full_done <= plan_len && total_work == (if 2 * plan_len > usize::MAX {
            usize::MAX as int
        } else {
            2 * plan_len
        }) ==> r.processed_files <= r.total_work,
{
    let phase = if probes_done < plan_len {
        DuplicatePhase::QuickFingerprint
    } else {
        DuplicatePhase::FullHash
    };
    let processed_files = if probes_done > usize::MAX - full_done {
        usize::MAX
    } else {
        probes_done + full_done
    };
    DuplicateProgress { phase, processed_files, total_work }
}

} // verus!
