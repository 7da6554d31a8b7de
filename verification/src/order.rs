//! Lexicographic order on integer keys, and a stable sort of positions by such keys.
use vstd::prelude::*;

verus! {

/// Strict lexicographic order of two key sequences (a proper prefix sorts first).
pub open spec fn lex_lt(a: Seq<u64>, b: Seq<u64>) -> bool
    decreases a.len(),
{
    if a.len() == 0 {
        b.len() > 0
    } else if b.len() == 0 {
        false
    } else if a[0] < b[0] {
        true
    } else if a[0] > b[0] {
        false
    } else {
        lex_lt(a.drop_first(), b.drop_first())
    }
}

pub open spec fn lex_le(a: Seq<u64>, b: Seq<u64>) -> bool {
    lex_lt(a, b) || a == b
}

pub proof fn lemma_lex_irreflexive(a: Seq<u64>)
    ensures
        !lex_lt(a, a),
    decreases a.len(),
{
    if a.len() > 0 {
        lemma_lex_irreflexive(a.drop_first());
    }
}

pub proof fn lemma_lex_total(a: Seq<u64>, b: Seq<u64>)
    ensures
        lex_lt(a, b) || a == b || lex_lt(b, a),
        !(lex_lt(a, b) && lex_lt(b, a)),
    decreases a.len(),
{
    if a.len() > 0 && b.len() > 0 && a[0] == b[0] {
        lemma_lex_total(a.drop_first(), b.drop_first());
        if a.drop_first() == b.drop_first() {
            assert(a =~= seq![a[0]] + a.drop_first());
            assert(b =~= seq![b[0]] + b.drop_first());
        }
    }
}

pub proof fn lemma_lex_transitive(a: Seq<u64>, b: Seq<u64>, c: Seq<u64>)
    requires
        lex_lt(a, b),
        lex_lt(b, c),
    ensures
        lex_lt(a, c),
    decreases a.len(),
{
    if a.len() > 0 && b.len() > 0 && c.len() > 0 && a[0] == b[0] && b[0] == c[0] {
        lemma_lex_transitive(a.drop_first(), b.drop_first(), c.drop_first());
    }
}

pub proof fn lemma_lex_le_transitive(a: Seq<u64>, b: Seq<u64>, c: Seq<u64>)
    requires
        lex_le(a, b),
        lex_le(b, c),
    ensures
        lex_le(a, c),
{
    if lex_lt(a, b) && lex_lt(b, c) {
        lemma_lex_transitive(a, b, c);
    }
}

/// Keys in order have their first entries in order, and keys with the same first
/// entry are ordered by the rest.
pub proof fn lemma_lex_le_head(a: Seq<u64>, b: Seq<u64>)
    requires
        lex_le(a, b),
        a.len() > 0,
        b.len() > 0,
    ensures
        a[0] <= b[0],
        a[0] == b[0] ==> lex_le(a.drop_first(), b.drop_first()),
{
}

/// Executable strict comparison of two keys.
pub fn key_lt(a: &Vec<u64>, b: &Vec<u64>) -> (r: bool)
    ensures
        r == lex_lt(a@, b@),
{
    let mut i: usize = 0;
    assert(a@.skip(0) =~= a@);
    assert(b@.skip(0) =~= b@);
    while i < a.len() && i < b.len()
        invariant
            i <= a.len(),
            i <= b.len(),
            lex_lt(a@, b@) == lex_lt(a@.skip(i as int), b@.skip(i as int)),
        decreases a.len() - i,
    {
        if a[i] < b[i] {
            return true;
        }
        if a[i] > b[i] {
            return false;
        }
        assert(a@.skip(i as int).drop_first() =~= a@.skip(i + 1));
        assert(b@.skip(i as int).drop_first() =~= b@.skip(i + 1));
        i += 1;
    }
    i == a.len() && i < b.len()
}

/// `order` lists the positions of `keys` sorted by key, ties in input order.
pub open spec fn is_stable_key_order(keys: Seq<Seq<u64>>, order: Seq<usize>) -> bool {
    &&& order.len() == keys.len()
    &&& forall|i: int| 0 <= i < order.len() ==> order[i] < keys.len()
    &&& forall|i: int, j: int| 0 <= i < j < order.len() ==> order[i] != order[j]
    &&& forall|i: int, j: int|
        0 <= i < j < order.len() ==> lex_le(
            #[trigger] keys[order[i] as int],
            #[trigger] keys[order[j] as int],
        )
    &&& forall|i: int, j: int|
        0 <= i < j < order.len() && keys[order[i] as int] == keys[order[j] as int] ==> order[i]
            < order[j]
    &&& forall|k: int| 0 <= k < keys.len() ==> #[trigger] position_listed(order, k)
}

/// Position `k` occurs in `order`.
pub open spec fn position_listed(order: Seq<usize>, k: int) -> bool {
    exists|i: int| 0 <= i < order.len() && order[i] == k
}

pub open spec fn keys_view(keys: Seq<Vec<u64>>) -> Seq<Seq<u64>> {
    keys.map_values(|k: Vec<u64>| k@)
}

/// Stable insertion sort of the positions `0..keys.len()` by their keys.
pub fn sort_positions_by_key(keys: &Vec<Vec<u64>>) -> (order: Vec<usize>)
    ensures
        is_stable_key_order(keys_view(keys@), order@),
{
    let ghost kv = keys_view(keys@);
    let mut order: Vec<usize> = Vec::new();
    let mut n: usize = 0;
    while n < keys.len()
        invariant
            n <= keys.len(),
            kv == keys_view(keys@),
            order.len() == n,
            forall|i: int| 0 <= i < order.len() ==> order[i] < n,
            forall|i: int, j: int| 0 <= i < j < order.len() ==> order[i] != order[j],
            forall|i: int, j: int|
                0 <= i < j < order.len() ==> lex_le(
                    #[trigger] kv[order[i] as int],
                    #[trigger] kv[order[j] as int],
                ),
            forall|i: int, j: int|
                0 <= i < j < order.len() && kv[order[i] as int] == kv[order[j] as int] ==> order[i]
                    < order[j],
            forall|k: int| 0 <= k < n ==> #[trigger] position_listed(order@, k),
        decreases keys.len() - n,
    {
        let mut p: usize = order.len();
        while p > 0 && key_lt(&keys[n], &keys[order[p - 1]])
            invariant
                p <= order.len(),
                n < keys.len(),
                kv == keys_view(keys@),
                forall|i: int| 0 <= i < order.len() ==> order[i] < n,
                forall|q: int| p <= q < order.len() ==> lex_lt(kv[n as int], #[trigger] kv[order[q] as int]),
            decreases p,
        {
            p -= 1;
        }
        let ghost old_order = order@;
        proof {
            if p > 0 {
                lemma_lex_total(kv[n as int], kv[order[p - 1] as int]);
                assert forall|q: int| 0 <= q < p implies lex_le(#[trigger] kv[old_order[q] as int], kv[n as int]) by {
                    if q < p - 1 {
                        lemma_lex_le_transitive(kv[old_order[q] as int], kv[old_order[p - 1] as int], kv[n as int]);
                    }
                }
            }
            old_order.insert_ensures(p as int, n);
        }
        order.insert(p, n);
        proof {
            assert forall|i: int, j: int| 0 <= i < j < order.len() implies lex_le(
                #[trigger] kv[order[i] as int],
                #[trigger] kv[order[j] as int],
            ) by {
                if i < p && j > p {
                    assert(order[j] == old_order[j - 1]);
                    assert(lex_lt(kv[n as int], kv[old_order[j - 1] as int]));
                    lemma_lex_le_transitive(kv[old_order[i] as int], kv[n as int], kv[old_order[j - 1] as int]);
                } else if i == p {
                    assert(order[j] == old_order[j - 1]);
                } else if j == p {
                } else if i > p {
                    assert(order[i] == old_order[i - 1]);
                    assert(order[j] == old_order[j - 1]);
                } else {
                }
            }
            assert forall|i: int, j: int|
                0 <= i < j < order.len() && kv[order[i] as int] == kv[order[j] as int] implies order[i]
                    < order[j] by {
                if i == p {
                    assert(order[j] == old_order[j - 1]);
                    lemma_lex_irreflexive(kv[n as int]);
                } else if j == p {
                } else if i > p {
                    assert(order[i] == old_order[i - 1]);
                    assert(order[j] == old_order[j - 1]);
                } else if j > p {
                    assert(order[j] == old_order[j - 1]);
                }
            }
            assert forall|i: int, j: int| 0 <= i < j < order.len() implies order[i] != order[j] by {
                if i == p {
                    assert(order[j] == old_order[j - 1]);
                } else if j == p {
                } else if i > p {
                    assert(order[i] == old_order[i - 1]);
                    assert(order[j] == old_order[j - 1]);
                } else if j > p {
                    assert(order[j] == old_order[j - 1]);
                }
            }
            assert forall|i: int| 0 <= i < order.len() implies order[i] < n + 1 by {
                if i > p {
                    assert(order[i] == old_order[i - 1]);
                }
            }
            assert forall|k: int| 0 <= k < n + 1 implies #[trigger] position_listed(order@, k) by {
                if k == n {
                    assert(order[p as int] == n);
                } else {
                    assert(position_listed(old_order, k));
                    let i0 = choose|i: int| 0 <= i < old_order.len() && old_order[i] == k;
                    if i0 < p {
                        assert(order[i0] == k);
                    } else {
                        assert(order[i0 + 1] == k);
                    }
                }
            }
        }
        n += 1;
    }
    order
}

/// The positions list keys in strictly increasing order.
pub open spec fn keys_increasing(keys: Seq<Seq<u64>>, ps: Seq<usize>) -> bool {
    &&& forall|x: int| 0 <= x < ps.len() ==> (#[trigger] ps[x]) < keys.len()
    &&& forall|x: int, y: int|
        0 <= x < y < ps.len() ==> lex_lt(#[trigger] keys[ps[x] as int], #[trigger] keys[ps[y] as int])
}

/// Some listed position holds key `k`.
pub open spec fn lists_key(keys: Seq<Seq<u64>>, ps: Seq<usize>, k: Seq<u64>) -> bool {
    exists|x: int| 0 <= x < ps.len() && #[trigger] keys[ps[x] as int] == k
}

/// Some position in `lo..hi` holds key `k`.
pub open spec fn range_has_key(keys: Seq<Seq<u64>>, lo: int, hi: int, k: Seq<u64>) -> bool {
    exists|j: int| lo <= j < hi && #[trigger] keys[j] == k
}

proof fn lemma_lists_key_skip(keys: Seq<Seq<u64>>, ps: Seq<usize>, i: int, k: Seq<u64>)
    requires
        0 <= i < ps.len(),
    ensures
        lists_key(keys, ps.skip(i), k) <==> (keys[ps[i] as int] == k || lists_key(keys, ps.skip(i + 1), k)),
{
    if lists_key(keys, ps.skip(i), k) {
        let x = choose|x: int| 0 <= x < ps.skip(i).len() && #[trigger] keys[ps.skip(i)[x] as int] == k;
        if x > 0 {
            assert(ps.skip(i + 1)[x - 1] == ps.skip(i)[x]);
        }
    }
    if keys[ps[i] as int] == k {
        assert(ps.skip(i)[0] == ps[i]);
    }
    if lists_key(keys, ps.skip(i + 1), k) {
        let x = choose|x: int| 0 <= x < ps.skip(i + 1).len() && #[trigger] keys[ps.skip(i + 1)[x] as int] == k;
        assert(ps.skip(i)[x + 1] == ps.skip(i + 1)[x]);
    }
}

proof fn lemma_lists_key_push(keys: Seq<Seq<u64>>, ps: Seq<usize>, p: usize, k: Seq<u64>)
    ensures
        lists_key(keys, ps.push(p), k) <==> (lists_key(keys, ps, k) || keys[p as int] == k),
{
    if lists_key(keys, ps.push(p), k) {
        let x = choose|x: int| 0 <= x < ps.push(p).len() && #[trigger] keys[ps.push(p)[x] as int] == k;
        if x < ps.len() {
            assert(ps[x] == ps.push(p)[x]);
        }
    }
    if lists_key(keys, ps, k) {
        let x = choose|x: int| 0 <= x < ps.len() && #[trigger] keys[ps[x] as int] == k;
        assert(ps.push(p)[x] == ps[x]);
    }
    if keys[p as int] == k {
        assert(ps.push(p)[ps.len() as int] == p);
    }
}

/// Appends position `p`, whose key is above every key listed so far.
proof fn lemma_increasing_push(keys: Seq<Seq<u64>>, ps: Seq<usize>, p: usize)
    requires
        keys_increasing(keys, ps),
        p < keys.len(),
        ps.len() > 0 ==> lex_lt(keys[ps.last() as int], keys[p as int]),
    ensures
        keys_increasing(keys, ps.push(p)),
{
    let q = ps.push(p);
    assert forall|x: int, y: int| 0 <= x < y < q.len() implies lex_lt(
        #[trigger] keys[q[x] as int],
        #[trigger] keys[q[y] as int],
    ) by {
        if y == ps.len() {
            if x < ps.len() - 1 {
                lemma_lex_transitive(keys[ps[x] as int], keys[ps.last() as int], keys[p as int]);
            }
        } else {
            assert(q[x] == ps[x] && q[y] == ps[y]);
        }
    }
}

/// Merges two strictly increasing position lists into one, keeping one position for
/// each key that both hold.
fn merge_positions(keys: &Vec<Vec<u64>>, a: &Vec<usize>, b: &Vec<usize>) -> (r: Vec<usize>)
    requires
        keys_increasing(keys_view(keys@), a@),
        keys_increasing(keys_view(keys@), b@),
    ensures
        keys_increasing(keys_view(keys@), r@),
        forall|k: Seq<u64>|
            lists_key(keys_view(keys@), r@, k) <==> (lists_key(keys_view(keys@), a@, k) || lists_key(
                keys_view(keys@),
                b@,
                k,
            )),
{
    let ghost kv = keys_view(keys@);
    let mut out: Vec<usize> = Vec::new();
    let mut i: usize = 0;
    let mut j: usize = 0;
    assert(a@.skip(0) =~= a@);
    assert(b@.skip(0) =~= b@);
    while i < a.len() || j < b.len()
        invariant
            kv == keys_view(keys@),
            keys_increasing(kv, a@),
            keys_increasing(kv, b@),
            i <= a.len(),
            j <= b.len(),
            keys_increasing(kv, out@),
            out.len() > 0 && i < a.len() ==> lex_lt(kv[out@.last() as int], kv[a@[i as int] as int]),
            out.len() > 0 && j < b.len() ==> lex_lt(kv[out@.last() as int], kv[b@[j as int] as int]),
            forall|k: Seq<u64>|
                (lists_key(kv, out@, k) || lists_key(kv, a@.skip(i as int), k) || lists_key(
                    kv,
                    b@.skip(j as int),
                    k,
                )) <==> (lists_key(kv, a@, k) || lists_key(kv, b@, k)),
        decreases a.len() + b.len() - i - j,
    {
        let ghost before = out@;
        if i < a.len() && j < b.len() {
            let pa = a[i];
            let pb = b[j];
            assert(kv[pa as int] == keys@[pa as int]@);
            assert(kv[pb as int] == keys@[pb as int]@);
            proof {
                lemma_lex_total(kv[pa as int], kv[pb as int]);
            }
            if key_lt(&keys[pa], &keys[pb]) {
                out.push(pa);
                proof {
                    lemma_increasing_push(kv, before, pa);
                    if i + 1 < a.len() {
                        assert(lex_lt(kv[a@[i as int] as int], kv[a@[i + 1] as int]));
                    }
                    assert forall|k: Seq<u64>|
                        (lists_key(kv, out@, k) || lists_key(kv, a@.skip(i + 1), k) || lists_key(
                            kv,
                            b@.skip(j as int),
                            k,
                        )) <==> (lists_key(kv, a@, k) || lists_key(kv, b@, k)) by {
                        lemma_lists_key_skip(kv, a@, i as int, k);
                        lemma_lists_key_push(kv, before, pa, k);
                    }
                }
                i += 1;
            } else if key_lt(&keys[pb], &keys[pa]) {
                out.push(pb);
                proof {
                    lemma_increasing_push(kv, before, pb);
                    if j + 1 < b.len() {
                        assert(lex_lt(kv[b@[j as int] as int], kv[b@[j + 1] as int]));
                    }
                    assert forall|k: Seq<u64>|
                        (lists_key(kv, out@, k) || lists_key(kv, a@.skip(i as int), k) || lists_key(
                            kv,
                            b@.skip(j + 1),
                            k,
                        )) <==> (lists_key(kv, a@, k) || lists_key(kv, b@, k)) by {
                        lemma_lists_key_skip(kv, b@, j as int, k);
                        lemma_lists_key_push(kv, before, pb, k);
                    }
                }
                j += 1;
            } else {
                out.push(pa);
                proof {
                    lemma_increasing_push(kv, before, pa);
                    if i + 1 < a.len() {
                        assert(lex_lt(kv[a@[i as int] as int], kv[a@[i + 1] as int]));
                    }
                    if j + 1 < b.len() {
                        assert(lex_lt(kv[b@[j as int] as int], kv[b@[j + 1] as int]));
                    }
                    assert forall|k: Seq<u64>|
                        (lists_key(kv, out@, k) || lists_key(kv, a@.skip(i + 1), k) || lists_key(
                            kv,
                            b@.skip(j + 1),
                            k,
                        )) <==> (lists_key(kv, a@, k) || lists_key(kv, b@, k)) by {
                        lemma_lists_key_skip(kv, a@, i as int, k);
                        lemma_lists_key_skip(kv, b@, j as int, k);
                        lemma_lists_key_push(kv, before, pa, k);
                    }
                }
                i += 1;
                j += 1;
            }
        } else if i < a.len() {
            let pa = a[i];
            out.push(pa);
            proof {
                lemma_increasing_push(kv, before, pa);
                if i + 1 < a.len() {
                    assert(lex_lt(kv[a@[i as int] as int], kv[a@[i + 1] as int]));
                }
                assert forall|k: Seq<u64>|
                    (lists_key(kv, out@, k) || lists_key(kv, a@.skip(i + 1), k) || lists_key(
                        kv,
                        b@.skip(j as int),
                        k,
                    )) <==> (lists_key(kv, a@, k) || lists_key(kv, b@, k)) by {
                    lemma_lists_key_skip(kv, a@, i as int, k);
                    lemma_lists_key_push(kv, before, pa, k);
                }
            }
            i += 1;
        } else {
            let pb = b[j];
            out.push(pb);
            proof {
                lemma_increasing_push(kv, before, pb);
                if j + 1 < b.len() {
                    assert(lex_lt(kv[b@[j as int] as int], kv[b@[j + 1] as int]));
                }
                assert forall|k: Seq<u64>|
                    (lists_key(kv, out@, k) || lists_key(kv, a@.skip(i as int), k) || lists_key(
                        kv,
                        b@.skip(j + 1),
                        k,
                    )) <==> (lists_key(kv, a@, k) || lists_key(kv, b@, k)) by {
                    lemma_lists_key_skip(kv, b@, j as int, k);
                    lemma_lists_key_push(kv, before, pb, k);
                }
            }
            j += 1;
        }
    }
    proof {
        assert forall|k: Seq<u64>| !lists_key(kv, a@.skip(i as int), k) by {}
        assert forall|k: Seq<u64>| !lists_key(kv, b@.skip(j as int), k) by {}
    }
    out
}

/// The positions `lo..hi` sorted by key, one position for each distinct key.
pub fn sort_distinct_positions(keys: &Vec<Vec<u64>>, lo: usize, hi: usize) -> (r: Vec<usize>)
    requires
        lo <= hi <= keys.len(),
    ensures
        keys_increasing(keys_view(keys@), r@),
        forall|k: Seq<u64>|
            lists_key(keys_view(keys@), r@, k) <==> range_has_key(keys_view(keys@), lo as int, hi as int, k),
    decreases hi - lo,
{
    let ghost kv = keys_view(keys@);
    if hi - lo == 0 {
        let r: Vec<usize> = Vec::new();
        assert forall|k: Seq<u64>| !range_has_key(kv, lo as int, hi as int, k) by {}
        r
    } else if hi - lo == 1 {
        let r: Vec<usize> = vec![lo];
        assert forall|k: Seq<u64>| lists_key(kv, r@, k) <==> range_has_key(kv, lo as int, hi as int, k) by {
            if range_has_key(kv, lo as int, hi as int, k) {
                let j = choose|j: int| lo <= j < hi && #[trigger] kv[j] == k;
                assert(kv[r@[0] as int] == k);
            }
            if lists_key(kv, r@, k) {
                assert(kv[lo as int] == k);
            }
        }
        r
    } else {
        let mid = lo + (hi - lo) / 2;
        let left = sort_distinct_positions(keys, lo, mid);
        let right = sort_distinct_positions(keys, mid, hi);
        let r = merge_positions(keys, &left, &right);
        assert forall|k: Seq<u64>| lists_key(kv, r@, k) <==> range_has_key(kv, lo as int, hi as int, k) by {
            if range_has_key(kv, lo as int, hi as int, k) {
                let j = choose|j: int| lo <= j < hi && #[trigger] kv[j] == k;
                if j < mid {
                    assert(range_has_key(kv, lo as int, mid as int, k));
                } else {
                    assert(range_has_key(kv, mid as int, hi as int, k));
                }
            }
            if range_has_key(kv, lo as int, mid as int, k) {
                let j = choose|j: int| lo <= j < mid && #[trigger] kv[j] == k;
                assert(range_has_key(kv, lo as int, hi as int, k));
            }
            if range_has_key(kv, mid as int, hi as int, k) {
                let j = choose|j: int| mid <= j < hi && #[trigger] kv[j] == k;
                assert(range_has_key(kv, lo as int, hi as int, k));
            }
        }
        r
    }
}

} // verus!
