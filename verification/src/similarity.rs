//! Content fingerprints of text for near-duplicate search: a 64-bit SimHash over
//! character trigrams.
use vstd::prelude::*;
use std::collections::{HashMap, HashSet};
use vstd::bytes::{spec_u64_from_le_bytes, u64_from_le_bytes};
use vstd::slice::slice_subrange;
use vstd::utf8::encode_utf8;
use crate::digest::{blake3_digest, blake3_of};
use crate::order::{
    is_stable_key_order, keys_increasing, keys_view, lex_lt, lists_key, range_has_key,
    sort_distinct_positions, sort_positions_by_key,
};
use crate::analysis::TEXT_MINHASH_COMPONENTS;
use crate::analysis::{hamming_masks, hamming_masks_of, pair_bit_masks, single_bit_masks};
use crate::text::{
    char_alphanumeric, char_is_alphanumeric, chars_of, fold_name, folded, string_from_chars,
};

verus! {

/// The characters of `s` that are alphanumeric, in order.
pub open spec fn keep_alphanumeric(s: Seq<char>) -> Seq<char>
    decreases s.len(),
{
    if s.len() == 0 {
        seq![]
    } else if char_alphanumeric(s.last()) {
        keep_alphanumeric(s.drop_last()).push(s.last())
    } else {
        keep_alphanumeric(s.drop_last())
    }
}

/// The characters that a text fingerprint reads: NFKC, lowercase, alphanumeric only.
pub open spec fn fingerprint_chars(text: Seq<char>) -> Seq<char> {
    keep_alphanumeric(folded(text))
}

/// The features of a SimHash: every run of three consecutive characters, or the
/// whole text when it is shorter than three characters.
pub open spec fn simhash_features(cs: Seq<char>) -> Seq<Seq<char>> {
    if cs.len() < 3 {
        seq![cs]
    } else {
        Seq::new((cs.len() - 2) as nat, |i: int| cs.subrange(i, i + 3))
    }
}

/// The 64-bit word of a feature: the first eight bytes of the BLAKE3 digest of its
/// UTF-8 encoding, read little-endian.
pub open spec fn feature_word(f: Seq<char>) -> u64 {
    spec_u64_from_le_bytes(blake3_of(encode_utf8(f)).subrange(0, 8))
}

/// The feature words of a text.
pub open spec fn simhash_words(text: Seq<char>) -> Seq<u64> {
    simhash_features(fingerprint_chars(text)).map_values(|f: Seq<char>| feature_word(f))
}

/// Bit `b` of `w` is set.
pub open spec fn bit_set(w: u64, b: u64) -> bool {
    (w >> b) & 1u64 == 1u64
}

/// How many words have bit `b` set, minus how many have it clear.
pub open spec fn bit_weight(words: Seq<u64>, b: u64) -> int
    decreases words.len(),
{
    if words.len() == 0 {
        0
    } else {
        bit_weight(words.drop_last(), b) + if bit_set(words.last(), b) {
            1int
        } else {
            -1int
        }
    }
}

proof fn lemma_bit_weight_bound(words: Seq<u64>, b: u64)
    ensures
        -words.len() <= bit_weight(words, b) <= words.len(),
    decreases words.len(),
{
    if words.len() > 0 {
        lemma_bit_weight_bound(words.drop_last(), b);
    }
}

proof fn lemma_mask_bit(w: u64, b: u64)
    by (bit_vector)
    requires
        b < 64,
    ensures
        (w & (1u64 << b) != 0u64) == ((w >> b) & 1u64 == 1u64),
{
}

proof fn lemma_or_bit(h: u64, b: u64, i: u64)
    by (bit_vector)
    requires
        b < 64,
        i < 64,
    ensures
        (((h | (1u64 << b)) >> i) & 1u64 == 1u64) == (i == b || (h >> i) & 1u64 == 1u64),
{
}

proof fn lemma_zero_bits(i: u64)
    by (bit_vector)
    requires
        i < 64,
    ensures
        (0u64 >> i) & 1u64 != 1u64,
{
}

fn keep_alphanumeric_chars(s: &Vec<char>) -> (r: Vec<char>)
    ensures
        r@ == keep_alphanumeric(s@),
{
    let mut r: Vec<char> = Vec::new();
    let mut i: usize = 0;
    assert(s@.take(0) =~= seq![]);
    while i < s.len()
        invariant
            i <= s.len(),
            r@ == keep_alphanumeric(s@.take(i as int)),
        decreases s.len() - i,
    {
        assert(s@.take(i + 1).drop_last() =~= s@.take(i as int));
        assert(s@.take(i + 1).last() == s@[i as int]);
        if char_is_alphanumeric(s[i]) {
            r.push(s[i]);
        }
        i += 1;
    }
    assert(s@.take(s.len() as int) =~= s@);
    r
}

/// The word of one feature.
fn feature_word_of(f: &Vec<char>) -> (r: u64)
    ensures
        r == feature_word(f@),
{
    let s = string_from_chars(f);
    let digest = blake3_digest(s.as_str().as_bytes());
    let head = slice_subrange(digest.as_slice(), 0, 8);
    u64_from_le_bytes(head)
}

/// `h` is the SimHash of `text`: bit `b` is set exactly when more feature words of
/// the text have bit `b` set than clear.
pub open spec fn is_text_simhash(text: Seq<char>, h: u64) -> bool {
    forall|b: u64| b < 64 ==> (#[trigger] bit_set(h, b) <==> bit_weight(simhash_words(text), b) > 0)
}

/// 64-bit SimHash of a text over character trigrams, so that Chinese and text without
/// spaces compare too; `None` when the text has no alphanumeric character. Bit `b` of
/// the hash is set exactly when more feature words have bit `b` set than clear.
pub fn text_simhash(text: &str) -> (r: Option<u64>)
    ensures
        r is None <==> fingerprint_chars(text@).len() == 0,
        r matches Some(h) ==> is_text_simhash(text@, h),
{
    let v = chars_of(text);
    let f = fold_name(&v);
    let cs = keep_alphanumeric_chars(&f);
    if cs.len() == 0 {
        return None;
    }
    let ghost words = simhash_words(text@);
    let ghost features = simhash_features(cs@);
    let count: usize = if cs.len() < 3 {
        1
    } else {
        cs.len() - 2
    };
    assert(features.len() == count);
    let mut weights: Vec<i128> = Vec::new();
    let mut b: usize = 0;
    while b < 64
        invariant
            b <= 64,
            weights.len() == b,
            forall|j: int| 0 <= j < b ==> weights@[j] == 0,
        decreases 64 - b,
    {
        weights.push(0);
        b += 1;
    }
    assert(words.take(0) =~= seq![]);
    let mut k: usize = 0;
    while k < count
        invariant
            k <= count,
            count == features.len(),
            words.len() == count,
            features == simhash_features(cs@),
            words == features.map_values(|f: Seq<char>| feature_word(f)),
            weights.len() == 64,
            forall|j: int| 0 <= j < 64 ==> weights@[j] == bit_weight(words.take(k as int), j as u64),
            k <= u64::MAX,
        decreases count - k,
    {
        let feature: Vec<char> = if cs.len() < 3 {
            cs.clone()
        } else {
            let t = vec![cs[k], cs[k + 1], cs[k + 2]];
            assert(t@ =~= cs@.subrange(k as int, k + 3));
            t
        };
        assert(feature@ == features[k as int]);
        let w = feature_word_of(&feature);
        assert(w == words[k as int]);
        assert(words.take(k + 1).drop_last() =~= words.take(k as int));
        assert(words.take(k + 1).last() == w);
        let mut j: usize = 0;
        while j < 64
            invariant
                j <= 64,
                k < count,
                words.len() == count,
                weights.len() == 64,
                words.take(k + 1).drop_last() == words.take(k as int),
                words.take(k + 1).last() == w,
                forall|x: int| 0 <= x < j ==> weights@[x] == bit_weight(words.take(k + 1), x as u64),
                forall|x: int| j <= x < 64 ==> weights@[x] == bit_weight(words.take(k as int), x as u64),
            decreases 64 - j,
        {
            proof {
                lemma_mask_bit(w, j as u64);
                lemma_bit_weight_bound(words.take(k as int), j as u64);
            }
            let old_weight = weights[j];
            if w & (1u64 << j) == 0 {
                weights.set(j, old_weight - 1);
            } else {
                weights.set(j, old_weight + 1);
            }
            j += 1;
        }
        k += 1;
    }
    assert(words.take(count as int) =~= words);
    let mut hash: u64 = 0;
    let mut b: u64 = 0;
    assert forall|i: u64| 0 <= i < 64 implies !#[trigger] bit_set(hash, i) by {
        lemma_zero_bits(i);
    }
    while b < 64
        invariant
            b <= 64,
            weights.len() == 64,
            forall|j: int| 0 <= j < 64 ==> weights@[j] == bit_weight(words, j as u64),
            forall|i: u64| i < b ==> (#[trigger] bit_set(hash, i) <==> bit_weight(words, i) > 0),
            forall|i: u64| b <= i < 64 ==> !#[trigger] bit_set(hash, i),
        decreases 64 - b,
    {
        let positive = weights[b as usize] > 0;
        let old_hash = hash;
        if positive {
            hash = hash | (1u64 << b);
        }
        assert forall|i: u64| i < 64 implies #[trigger] bit_set(hash, i) == (if i == b {
            positive
        } else {
            bit_set(old_hash, i)
        }) by {
            lemma_or_bit(old_hash, b, i);
        }
        b += 1;
    }
    Some(hash)
}

/// Number of set bits of `x` below bit `n`.
pub open spec fn ones_below(x: u64, n: nat) -> nat
    decreases n,
{
    if n == 0 {
        0
    } else {
        ones_below(x, (n - 1) as nat) + if bit_set(x, (n - 1) as u64) {
            1nat
        } else {
            0nat
        }
    }
}

/// Number of bit positions in which two hashes differ.
pub open spec fn hamming(a: u64, b: u64) -> nat {
    ones_below(a ^ b, 64)
}

/// Bit offset of index segment `s`: the hash is cut into bits 0..21, 21..42, 42..64.
pub open spec fn segment_offset(s: int) -> u64 {
    if s == 0 {
        0
    } else if s == 1 {
        21
    } else {
        42
    }
}

/// Bit width of index segment `s`.
pub open spec fn segment_width(s: int) -> u64 {
    if s == 2 {
        22
    } else {
        21
    }
}

/// The value of segment `s` of a hash.
pub open spec fn segment_value(h: u64, s: int) -> u64 {
    (h >> segment_offset(s)) & (((1u64 << segment_width(s)) - 1) as u64)
}

/// The index finds `a` and `b` as candidates: in some segment they differ in at most
/// the bits of one of that segment's neighbour masks.
pub open spec fn index_neighbours(a: u64, b: u64) -> bool {
    exists|s: int, m: int|
        0 <= s < 3 && 0 <= m < hamming_masks_of(segment_width(s) as nat, 2).len() && (
        segment_value(a, s) ^ segment_value(b, s)) == #[trigger] hamming_masks_of(
            segment_width(s) as nat,
            2,
        )[m]
}

proof fn lemma_segment_bit(x: u64, off: u64, w: u64, j: u64)
    by (bit_vector)
    requires
        w <= 22,
        off + w <= 64,
        j < w,
    ensures
        (((x >> off) & (((1u64 << w) - 1u64) as u64)) >> j) & 1u64 == (x >> ((off + j) as u64)) & 1u64,
{
}

proof fn lemma_segment_xor(a: u64, b: u64, off: u64, w: u64)
    by (bit_vector)
    requires
        w <= 22,
    ensures
        ((a >> off) & (((1u64 << w) - 1u64) as u64)) ^ ((b >> off) & (((1u64 << w) - 1u64) as u64)) == ((a ^ b)
            >> off) & (((1u64 << w) - 1u64) as u64),
{
}

proof fn lemma_segment_high_clear(x: u64, off: u64, w: u64)
    by (bit_vector)
    requires
        w <= 22,
    ensures
        ((x >> off) & (((1u64 << w) - 1u64) as u64)) >> w == 0u64,
{
}

/// The set bits of segment `s` of `x` are the set bits of `x` in the segment's range.
proof fn lemma_segment_ones(x: u64, s: int, j: nat)
    requires
        0 <= s < 3,
        j <= segment_width(s),
    ensures
        ones_below(segment_value(x, s), j) + ones_below(x, segment_offset(s) as nat) == ones_below(
            x,
            (segment_offset(s) + j) as nat,
        ),
    decreases j,
{
    if j > 0 {
        lemma_segment_ones(x, s, (j - 1) as nat);
        lemma_segment_bit(x, segment_offset(s), segment_width(s), (j - 1) as u64);
    }
}

proof fn lemma_shift_step(y: u64, n: u64)
    by (bit_vector)
    requires
        n < 64,
        y >> (n + 1) == 0u64,
    ensures
        (y >> n) & 1u64 == 0u64 ==> y >> n == 0u64,
        (y >> n) & 1u64 == 1u64 ==> (y & !(1u64 << n)) >> n == 0u64 && y == (y & !(1u64 << n)) | (
        1u64 << n),
        (y >> n) & 1u64 == 0u64 || (y >> n) & 1u64 == 1u64,
{
}

proof fn lemma_clear_bit_below(y: u64, n: u64, i: u64)
    by (bit_vector)
    requires
        i < n,
        n < 64,
    ensures
        ((y & !(1u64 << n)) >> i) & 1u64 == (y >> i) & 1u64,
{
}

proof fn lemma_ones_below_ext(a: u64, b: u64, n: nat)
    requires
        n <= 64,
        forall|i: u64| i < n ==> (#[trigger] bit_set(a, i) == bit_set(b, i)),
    ensures
        ones_below(a, n) == ones_below(b, n),
    decreases n,
{
    if n > 0 {
        lemma_ones_below_ext(a, b, (n - 1) as nat);
        assert(bit_set(a, (n - 1) as u64) == bit_set(b, (n - 1) as u64));
    }
}

proof fn lemma_zero_value(y: u64)
    by (bit_vector)
    requires
        y >> 0u64 == 0u64,
    ensures
        y == 0u64,
{
}

proof fn lemma_or_zero(n: u64)
    by (bit_vector)
    ensures
        0u64 | (1u64 << n) == (1u64 << n),
{
}

/// A value below `2^n` with at most two set bits is zero, one bit, or two bits.
proof fn lemma_few_bits_shape(y: u64, n: u64)
    requires
        n <= 64,
        n < 64 ==> y >> n == 0u64,
        ones_below(y, n as nat) <= 2,
    ensures
        ones_below(y, n as nat) == 0 ==> y == 0u64 || n == 64,
        ones_below(y, n as nat) == 1 && n < 64 ==> exists|p: u64| p < n && y == (1u64 << p),
        ones_below(y, n as nat) == 2 && n < 64 ==> exists|p: u64, q: u64|
            p < q < n && y == (1u64 << p) | (1u64 << q),
    decreases n,
{
    if n == 0 {
        lemma_zero_value(y);
    } else if n < 64 {
        let m = (n - 1) as u64;
        lemma_shift_step(y, m);
        if (y >> m) & 1u64 == 0u64 {
            assert(!bit_set(y, m));
            lemma_few_bits_shape(y, m);
        } else {
            let z = y & !(1u64 << m);
            assert forall|i: u64| i < m implies #[trigger] bit_set(z, i) == bit_set(y, i) by {
                lemma_clear_bit_below(y, m, i);
            }
            lemma_ones_below_ext(z, y, m as nat);
            assert(bit_set(y, m));
            lemma_few_bits_shape(z, m);
            if ones_below(y, n as nat) == 1 {
                assert(z == 0u64);
                lemma_or_zero(m);
                assert(y == (1u64 << m));
            } else if ones_below(y, n as nat) == 2 {
                let p = choose|p: u64| p < m && z == (1u64 << p);
                assert(y == (1u64 << p) | (1u64 << m));
            }
        }
    }
}

proof fn lemma_pair_mask_listed(from: nat, width: nat, p: nat, q: nat)
    requires
        from <= p < q < width,
        width <= 64,
    ensures
        pair_bit_masks(from, width).contains(((1u64 << (p as u64)) | (1u64 << (q as u64))) as u64),
    decreases p - from,
{
    let block = Seq::new(
        (width - from - 1) as nat,
        |k: int| ((1u64 << (from as u64)) | (1u64 << ((from + 1 + k) as u64))) as u64,
    );
    assert(pair_bit_masks(from, width) == block + pair_bit_masks(from + 1, width));
    if p == from {
        let k = q - from - 1;
        assert(block[k as int] == ((1u64 << (p as u64)) | (1u64 << (q as u64))) as u64);
        assert((block + pair_bit_masks(from + 1, width))[k as int] == block[k as int]);
    } else {
        lemma_pair_mask_listed(from + 1, width, p, q);
        let rest = pair_bit_masks(from + 1, width);
        let k = choose|k: int| 0 <= k < rest.len() && rest[k] == ((1u64 << (p as u64)) | (1u64 << (
        q as u64))) as u64;
        assert((block + rest)[block.len() + k] == rest[k]);
    }
}

/// Every value below `2^width` with at most two set bits is one of the neighbour masks.
proof fn lemma_few_bits_listed(y: u64, width: u64)
    requires
        0 < width < 64,
        y >> width == 0u64,
        ones_below(y, width as nat) <= 2,
    ensures
        hamming_masks_of(width as nat, 2).contains(y),
{
    let masks = hamming_masks_of(width as nat, 2);
    let singles = single_bit_masks(width as nat);
    let pairs = pair_bit_masks(0, width as nat);
    assert(masks == seq![0u64] + singles + pairs);
    lemma_few_bits_shape(y, width);
    if ones_below(y, width as nat) == 0 {
        assert(masks[0] == y);
    } else if ones_below(y, width as nat) == 1 {
        let p = choose|p: u64| p < width && y == (1u64 << p);
        assert(singles[p as int] == y);
        assert(masks[1 + p] == singles[p as int]);
    } else {
        let (p, q) = choose|p: u64, q: u64| p < q < width && y == (1u64 << p) | (1u64 << q);
        lemma_pair_mask_listed(0, width as nat, p as nat, q as nat);
        let k = choose|k: int| 0 <= k < pairs.len() && pairs[k] == y;
        assert(masks[1 + singles.len() + k] == pairs[k]);
    }
}

/// Two hashes within Hamming distance 8 differ in at most two bits of some segment,
/// so the three-segment index finds them.
pub proof fn lemma_close_hashes_are_index_neighbours(a: u64, b: u64)
    requires
        hamming(a, b) <= 8,
    ensures
        index_neighbours(a, b),
{
    let x = a ^ b;
    lemma_segment_ones(x, 0, 21);
    lemma_segment_ones(x, 1, 21);
    lemma_segment_ones(x, 2, 22);
    assert(ones_below(x, 0) == 0);
    let s: int = if ones_below(segment_value(x, 0), 21) <= 2 {
        0
    } else if ones_below(segment_value(x, 1), 21) <= 2 {
        1
    } else {
        2
    };
    let w = segment_width(s);
    let y = segment_value(x, s);
    assert(ones_below(y, w as nat) <= 2);
    lemma_segment_high_clear(x, segment_offset(s), w);
    lemma_segment_xor(a, b, segment_offset(s), w);
    lemma_few_bits_listed(y, w);
    let masks = hamming_masks_of(w as nat, 2);
    let m = choose|m: int| 0 <= m < masks.len() && masks[m] == y;
    assert(segment_value(a, s) ^ segment_value(b, s) == masks[m]);
}

/// A content hash of one file for near-duplicate search.
#[derive(Debug, Clone, PartialEq, Eq)]
pub struct SimilarityHashInput {
    pub id: String,
    pub hash: u64,
}

/// Two files whose hashes are close, with the number of differing bits.
#[derive(Debug, Clone, PartialEq, Eq)]
pub struct SimilarityCandidate {
    pub left_id: String,
    pub right_id: String,
    pub hamming_distance: u32,
}

impl View for SimilarityCandidate {
    type V = (Seq<char>, Seq<char>, u32);

    open spec fn view(&self) -> (Seq<char>, Seq<char>, u32) {
        (self.left_id@, self.right_id@, self.hamming_distance)
    }
}

/// Why an analysis could not run.
#[derive(Debug)]
pub enum AnalysisError {
    Io(std::io::Error),
    InvalidSimilarityDistance(u32),
}

pub open spec fn hashes_of(inputs: Seq<SimilarityHashInput>) -> Seq<u64> {
    inputs.map_values(|x: SimilarityHashInput| x.hash)
}

/// The earlier inputs (before position `k`) whose hashes lie within `max` bits of the
/// hash of input `i`, in increasing order.
pub open spec fn close_before(hs: Seq<u64>, max: u32, i: int, k: int) -> Seq<usize>
    decreases k,
{
    if k <= 0 {
        seq![]
    } else if hamming(hs[k - 1], hs[i]) <= max {
        close_before(hs, max, i, k - 1).push((k - 1) as usize)
    } else {
        close_before(hs, max, i, k - 1)
    }
}

/// All pairs of positions `(j, i)`, `j < i < n`, whose hashes lie within `max` bits,
/// ordered by `i`, then `j`.
pub open spec fn close_pairs(hs: Seq<u64>, max: u32, n: int) -> Seq<(usize, usize)>
    decreases n,
{
    if n <= 0 {
        seq![]
    } else {
        close_pairs(hs, max, n - 1) + close_before(hs, max, n - 1, n - 1).map_values(
            |j: usize| (j, (n - 1) as usize),
        )
    }
}

pub open spec fn candidate_of(inputs: Seq<SimilarityHashInput>, p: (usize, usize)) -> (
    Seq<char>,
    Seq<char>,
    u32,
) {
    (inputs[p.0 as int].id@, inputs[p.1 as int].id@, hamming(inputs[p.0 as int].hash, inputs[p.1 as int].hash) as u32)
}

/// Every pair of inputs within `max` bits, as candidates, before sorting.
pub open spec fn close_candidates(inputs: Seq<SimilarityHashInput>, max: u32) -> Seq<
    (Seq<char>, Seq<char>, u32),
> {
    close_pairs(hashes_of(inputs), max, inputs.len() as int).map_values(
        |p: (usize, usize)| candidate_of(inputs, p),
    )
}

/// Order key of a text: its characters in code-point order, ended so that a prefix
/// sorts first (the order of `String`).
pub open spec fn text_key(s: Seq<char>) -> Seq<u64> {
    Seq::new(s.len(), |k: int| ((s[k] as u32) as u64 + 1) as u64).push(0u64)
}

/// Candidates sort by distance, then left id, then right id.
pub open spec fn candidate_key(c: (Seq<char>, Seq<char>, u32)) -> Seq<u64> {
    seq![c.2 as u64] + text_key(c.0) + text_key(c.1)
}

pub open spec fn candidate_keys(cs: Seq<(Seq<char>, Seq<char>, u32)>) -> Seq<Seq<u64>> {
    cs.map_values(|c: (Seq<char>, Seq<char>, u32)| candidate_key(c))
}

pub open spec fn segment_hit(hs: Seq<u64>, k: int, i: int, s: int, m: int) -> bool {
    (segment_value(hs[k], s) ^ segment_value(hs[i], s)) == hamming_masks_of(
        segment_width(s) as nat,
        2,
    )[m]
}

/// Each bucket of segment `s` lists positions before `i` whose segment value is its
/// key, and every position before `i` is listed under its segment value.
pub open spec fn bucket_ok(bucket: Map<u64, Vec<usize>>, hs: Seq<u64>, s: int, i: int) -> bool {
    &&& forall|v: u64, x: int|
        bucket.contains_key(v) && 0 <= x < bucket[v].len() ==> (#[trigger] bucket[v]@[x]) < i
            && segment_value(hs[bucket[v]@[x] as int], s) == v
    &&& forall|k: int|
        0 <= k < i ==> bucket.contains_key(#[trigger] segment_value(hs[k], s)) && bucket[segment_value(
            hs[k],
            s,
        )]@.contains(k as usize)
}

/// The positions found so far for input `i` are distinct index neighbours of it, and
/// `seen` holds exactly them.
pub open spec fn found_ok(found: Seq<usize>, seen: Set<usize>, hs: Seq<u64>, i: int) -> bool {
    &&& found.no_duplicates()
    &&& forall|x: usize| seen.contains(x) <==> found.contains(x)
    &&& forall|j: int|
        0 <= j < found.len() ==> (#[trigger] found[j]) < i && index_neighbours(hs[found[j] as int], hs[i])
}

/// Every position before `i` that hits input `i` in segment `s2` through mask `m`,
/// for the segments and masks probed so far, has been found.
pub open spec fn covered(found: Seq<usize>, hs: Seq<u64>, i: int, s: int, t: int) -> bool {
    forall|k: int, s2: int, m: int|
        0 <= k < i && 0 <= s2 < 3 && 0 <= m < hamming_masks_of(segment_width(s2) as nat, 2).len()
            && (s2 < s || (s2 == s && m < t)) && #[trigger] segment_hit(hs, k, i, s2, m)
            ==> found.contains(k as usize)
}

proof fn lemma_low_mask(w: u64)
    by (bit_vector)
    requires
        1 <= w <= 22,
    ensures
        (1u64 << w) >= 1u64,
{
}

proof fn lemma_xor_solve(a: u64, b: u64, c: u64)
    by (bit_vector)
    ensures
        (a == b ^ c) == ((a ^ b) == c),
{
}

fn segment_of(h: u64, s: usize) -> (r: u64)
    requires
        s < 3,
    ensures
        r == segment_value(h, s as int),
{
    let off: u64 = if s == 0 {
        0
    } else if s == 1 {
        21
    } else {
        42
    };
    let w: u64 = if s == 2 {
        22
    } else {
        21
    };
    proof {
        lemma_low_mask(w);
    }
    (h >> off) & ((1u64 << w) - 1)
}

proof fn lemma_bit_is_zero_or_one(x: u64, j: u64)
    by (bit_vector)
    ensures
        (x >> j) & 1u64 == 0u64 || (x >> j) & 1u64 == 1u64,
{
}

/// Number of bit positions in which two hashes differ.
pub(crate) fn hamming_of(a: u64, b: u64) -> (r: u32)
    ensures
        r == hamming(a, b),
{
    let x = a ^ b;
    let mut count: u32 = 0;
    let mut j: u64 = 0;
    while j < 64
        invariant
            j <= 64,
            x == a ^ b,
            count == ones_below(x, j as nat),
            count <= j,
        decreases 64 - j,
    {
        proof {
            lemma_bit_is_zero_or_one(x, j);
        }
        if (x >> j) & 1 == 1 {
            count += 1;
        }
        j += 1;
    }
    count
}

/// Looks up input `i`'s neighbours in the buckets of segment `s`.
fn probe_segment(
    bucket: &HashMap<u64, Vec<usize>>,
    s: usize,
    h: u64,
    i: usize,
    found: &mut Vec<usize>,
    seen: &mut HashSet<usize>,
    Ghost(hs): Ghost<Seq<u64>>,
)
    requires
        s < 3,
        i < hs.len(),
        h == hs[i as int],
        bucket_ok(bucket@, hs, s as int, i as int),
        found_ok(old(found)@, old(seen)@, hs, i as int),
        covered(old(found)@, hs, i as int, s as int, 0),
    ensures
        found_ok(final(found)@, final(seen)@, hs, i as int),
        covered(final(found)@, hs, i as int, s as int + 1, 0),
{
    broadcast use vstd::std_specs::hash::group_hash_axioms;

    let width: usize = if s == 2 {
        22
    } else {
        21
    };
    let masks = hamming_masks(width, 2);
    let v = segment_of(h, s);
    let mut t: usize = 0;
    while t < masks.len()
        invariant
            s < 3,
            i < hs.len(),
            h == hs[i as int],
            v == segment_value(h, s as int),
            masks@ == hamming_masks_of(segment_width(s as int) as nat, 2),
            t <= masks.len(),
            bucket_ok(bucket@, hs, s as int, i as int),
            found_ok(found@, seen@, hs, i as int),
            covered(found@, hs, i as int, s as int, t as int),
        decreases masks.len() - t,
    {
        let key = v ^ masks[t];
        match bucket.get(&key) {
            Some(list) => {
                let mut x: usize = 0;
                while x < list.len()
                    invariant
                        s < 3,
                        i < hs.len(),
                        h == hs[i as int],
                        v == segment_value(h, s as int),
                        masks@ == hamming_masks_of(segment_width(s as int) as nat, 2),
                        t < masks.len(),
                        key == v ^ masks@[t as int],
                        bucket_ok(bucket@, hs, s as int, i as int),
                        bucket@.contains_key(key),
                        bucket@[key] == *list,
                        x <= list.len(),
                        found_ok(found@, seen@, hs, i as int),
                        covered(found@, hs, i as int, s as int, t as int),
                        forall|y: int| 0 <= y < x ==> found@.contains(#[trigger] list@[y]),
                    decreases list.len() - x,
                {
                    let k = list[x];
                    assert(bucket@[key]@[x as int] == k);
                    proof {
                        lemma_xor_solve(segment_value(hs[k as int], s as int), v, masks@[t as int]);
                        assert(segment_hit(hs, k as int, i as int, s as int, t as int));
                        assert(index_neighbours(hs[k as int], hs[i as int]));
                    }
                    if !seen.contains(&k) {
                        let ghost before = found@;
                        seen.insert(k);
                        found.push(k);
                        proof {
                            assert(!before.contains(k));
                            assert forall|a: int, b: int|
                                0 <= a < found@.len() && 0 <= b < found@.len() && a != b implies found@[a]
                                != found@[b] by {
                                if a < before.len() && b < before.len() {
                                } else if a == before.len() {
                                    assert(before[b] == found@[b]);
                                } else {
                                    assert(before[a] == found@[a]);
                                }
                            }
                            assert forall|y: usize| found@.contains(y) implies before.contains(y) || y == k by {
                                let w = choose|w: int| 0 <= w < found@.len() && found@[w] == y;
                                if w < before.len() {
                                    assert(before[w] == y);
                                }
                            }
                            assert forall|y: usize| before.contains(y) implies found@.contains(y) by {
                                let w = choose|w: int| 0 <= w < before.len() && before[w] == y;
                                assert(found@[w] == y);
                            }
                            assert(found@[before.len() as int] == k);
                        }
                    }
                    x += 1;
                }
                proof {
                    assert forall|k: int, s2: int, m: int|
                        0 <= k < i && 0 <= s2 < 3 && 0 <= m < hamming_masks_of(
                            segment_width(s2) as nat,
                            2,
                        ).len() && (s2 < s || (s2 == s && m < t + 1)) && #[trigger] segment_hit(
                            hs,
                            k,
                            i as int,
                            s2,
                            m,
                        ) implies found@.contains(k as usize) by {
                        if s2 == s && m == t {
                            lemma_xor_solve(segment_value(hs[k], s as int), v, masks@[t as int]);
                            assert(bucket@[segment_value(hs[k], s as int)]@.contains(k as usize));
                            let y = choose|y: int| 0 <= y < list@.len() && list@[y] == k as usize;
                            assert(found@.contains(list@[y]));
                        }
                    }
                }
            },
            None => {
                proof {
                    assert forall|k: int, s2: int, m: int|
                        0 <= k < i && 0 <= s2 < 3 && 0 <= m < hamming_masks_of(
                            segment_width(s2) as nat,
                            2,
                        ).len() && (s2 < s || (s2 == s && m < t + 1)) && #[trigger] segment_hit(
                            hs,
                            k,
                            i as int,
                            s2,
                            m,
                        ) implies found@.contains(k as usize) by {
                        if s2 == s && m == t {
                            lemma_xor_solve(segment_value(hs[k], s as int), v, masks@[t as int]);
                            assert(bucket@.contains_key(segment_value(hs[k], s as int)));
                        }
                    }
                }
            },
        }
        t += 1;
    }
}

/// Files input `i` under its segment-`s` value.
fn file_in_bucket(bucket: &mut HashMap<u64, Vec<usize>>, s: usize, h: u64, i: usize, Ghost(hs): Ghost<Seq<u64>>)
    requires
        s < 3,
        i < hs.len(),
        h == hs[i as int],
        bucket_ok(old(bucket)@, hs, s as int, i as int),
    ensures
        bucket_ok(final(bucket)@, hs, s as int, i + 1),
{
    broadcast use vstd::std_specs::hash::group_hash_axioms;

    let key = segment_of(h, s);
    let ghost before = bucket@;
    let mut list = match bucket.remove(&key) {
        Some(l) => l,
        None => Vec::new(),
    };
    let ghost old_list = list@;
    list.push(i);
    bucket.insert(key, list);
    proof {
        assert forall|v: u64, x: int|
            bucket@.contains_key(v) && 0 <= x < bucket@[v].len() implies (#[trigger] bucket@[v]@[x])
            < i + 1 && segment_value(hs[bucket@[v]@[x] as int], s as int) == v by {
            if v == key {
                if x < old_list.len() {
                    assert(before.contains_key(key));
                    assert(before[key]@[x] == old_list[x]);
                }
            } else {
                assert(before.contains_key(v) && before[v] == bucket@[v]);
            }
        }
        assert forall|k: int| 0 <= k < i + 1 implies bucket@.contains_key(
            #[trigger] segment_value(hs[k], s as int),
        ) && bucket@[segment_value(hs[k], s as int)]@.contains(k as usize) by {
            let kv = segment_value(hs[k], s as int);
            if k == i {
                assert(bucket@[key]@[old_list.len() as int] == i);
            } else if kv == key {
                let y = choose|y: int| 0 <= y < before[key]@.len() && before[key]@[y] == k as usize;
                assert(bucket@[key]@[y] == k as usize);
            } else {
                assert(bucket@[kv] == before[kv]);
            }
        }
    }
}

pub open spec fn increasing(a: Seq<usize>) -> bool {
    forall|x: int, y: int| 0 <= x < y < a.len() ==> a[x] < a[y]
}

proof fn lemma_increasing_same_members(a: Seq<usize>, b: Seq<usize>)
    requires
        increasing(a),
        increasing(b),
        forall|x: usize| a.contains(x) <==> b.contains(x),
    ensures
        a == b,
    decreases a.len(),
{
    if a.len() == 0 {
        if b.len() > 0 {
            assert(b.contains(b[0]));
        }
    } else {
        assert(a.contains(a[0]));
        assert(b.len() > 0);
        assert(b.contains(b[0]));
        let ia = choose|w: int| 0 <= w < a.len() && a[w] == b[0];
        let ib = choose|w: int| 0 <= w < b.len() && b[w] == a[0];
        assert(a[0] <= b[0]);
        assert(b[0] <= a[0]);
        assert forall|x: usize| a.drop_first().contains(x) <==> b.drop_first().contains(x) by {
            if a.drop_first().contains(x) {
                let w = choose|w: int| 0 <= w < a.drop_first().len() && a.drop_first()[w] == x;
                assert(a[w + 1] == x);
                assert(b.contains(x));
                let z = choose|z: int| 0 <= z < b.len() && b[z] == x;
                assert(z != 0);
                assert(b.drop_first()[z - 1] == x);
            }
            if b.drop_first().contains(x) {
                let w = choose|w: int| 0 <= w < b.drop_first().len() && b.drop_first()[w] == x;
                assert(b[w + 1] == x);
                assert(a.contains(x));
                let z = choose|z: int| 0 <= z < a.len() && a[z] == x;
                assert(z != 0);
                assert(a.drop_first()[z - 1] == x);
            }
        }
        lemma_increasing_same_members(a.drop_first(), b.drop_first());
        assert(a =~= seq![a[0]] + a.drop_first());
        assert(b =~= seq![b[0]] + b.drop_first());
    }
}

proof fn lemma_close_before_members(hs: Seq<u64>, max: u32, i: int, k: int)
    requires
        0 <= k <= hs.len(),
        hs.len() <= usize::MAX,
    ensures
        increasing(close_before(hs, max, i, k)),
        forall|x: usize| #[trigger] close_before(hs, max, i, k).contains(x) <==> (x < k && hamming(hs[x as int], hs[i]) <= max),
        forall|y: int| 0 <= y < close_before(hs, max, i, k).len() ==> (#[trigger] close_before(hs, max, i, k)[y]) < k,
    decreases k,
{
    if k > 0 {
        lemma_close_before_members(hs, max, i, k - 1);
        let prev = close_before(hs, max, i, k - 1);
        if hamming(hs[k - 1], hs[i]) <= max {
            let cur = prev.push((k - 1) as usize);
            assert(close_before(hs, max, i, k) == cur);
            assert forall|x: usize| cur.contains(x) <==> (x < k && hamming(hs[x as int], hs[i]) <= max) by {
                assert(prev.contains(x) <==> (x < k - 1 && hamming(hs[x as int], hs[i]) <= max));
                if cur.contains(x) {
                    let w = choose|w: int| 0 <= w < cur.len() && cur[w] == x;
                    if w < prev.len() {
                        assert(prev[w] == x);
                        assert(prev.contains(x));
                    } else {
                        assert(x as int == k - 1);
                    }
                }
                if x < k && hamming(hs[x as int], hs[i]) <= max {
                    if x as int == k - 1 {
                        assert(cur[prev.len() as int] == x);
                    } else {
                        assert(prev.contains(x));
                        let w = choose|w: int| 0 <= w < prev.len() && prev[w] == x;
                        assert(cur[w] == x);
                    }
                }
            }
            assert forall|y: int| 0 <= y < cur.len() implies (#[trigger] cur[y]) < k by {
                if y < prev.len() {
                    assert(cur[y] == prev[y]);
                }
            }
            assert forall|a: int, b: int| 0 <= a < b < cur.len() implies cur[a] < cur[b] by {
                if b < prev.len() {
                    assert(cur[a] == prev[a] && cur[b] == prev[b]);
                } else {
                    assert(cur[a] == prev[a]);
                }
            }
        } else {
            assert forall|x: usize| prev.contains(x) <==> (x < k && hamming(hs[x as int], hs[i]) <= max) by {
                if x == k - 1 {
                    if prev.contains(x) {
                        let w = choose|w: int| 0 <= w < prev.len() && prev[w] == x;
                    }
                }
            }
        }
    }
}

/// Sorts distinct positions into increasing order.
fn sort_increasing(v: &Vec<usize>) -> (r: Vec<usize>)
    requires
        v@.no_duplicates(),
    ensures
        increasing(r@),
        forall|x: usize| r@.contains(x) <==> v@.contains(x),
{
    let mut out: Vec<usize> = Vec::new();
    let mut i: usize = 0;
    while i < v.len()
        invariant
            i <= v.len(),
            v@.no_duplicates(),
            increasing(out@),
            forall|x: usize| out@.contains(x) <==> v@.take(i as int).contains(x),
        decreases v.len() - i,
    {
        let x = v[i];
        proof {
            if out@.contains(x) {
                let w = choose|w: int| 0 <= w < i && v@.take(i as int)[w] == x;
                assert(v@[w] == v@[i as int]);
            }
        }
        let mut p: usize = 0;
        while p < out.len() && out[p] < x
            invariant
                p <= out.len(),
                increasing(out@),
                forall|y: int| 0 <= y < p ==> out@[y] < x,
            decreases out.len() - p,
        {
            p += 1;
        }
        let ghost before = out@;
        out.insert(p, x);
        proof {
            assert(!before.contains(x));
            if p < before.len() {
                assert(before[p as int] != x);
                assert(before[p as int] > x);
            }
            assert forall|a: int, b: int| 0 <= a < b < out@.len() implies out@[a] < out@[b] by {
                if b < p {
                    assert(out@[a] == before[a] && out@[b] == before[b]);
                } else if b == p {
                    assert(out@[a] == before[a]);
                } else if a == p {
                    assert(out@[b] == before[b - 1]);
                    if p < before.len() {
                        assert(before[p as int] <= before[b - 1]);
                    }
                } else if a < p {
                    assert(out@[a] == before[a] && out@[b] == before[b - 1]);
                } else {
                    assert(out@[a] == before[a - 1] && out@[b] == before[b - 1]);
                }
            }
            let vt = v@.take(i + 1);
            assert(vt =~= v@.take(i as int).push(x));
            assert forall|y: usize| out@.contains(y) <==> vt.contains(y) by {
                if out@.contains(y) {
                    let w = choose|w: int| 0 <= w < out@.len() && out@[w] == y;
                    if w < p {
                        assert(before[w] == y);
                        assert(before.contains(y));
                    } else if w > p {
                        assert(before[w - 1] == y);
                        assert(before.contains(y));
                    }
                    if y != x {
                        let z = choose|z: int| 0 <= z < i && v@.take(i as int)[z] == y;
                        assert(vt[z] == y);
                    } else {
                        assert(vt[i as int] == y);
                    }
                }
                if vt.contains(y) {
                    let z = choose|z: int| 0 <= z < vt.len() && vt[z] == y;
                    if z < i {
                        assert(v@.take(i as int)[z] == y);
                        assert(before.contains(y));
                        let w = choose|w: int| 0 <= w < before.len() && before[w] == y;
                        if w < p {
                            assert(out@[w] == y);
                        } else {
                            assert(out@[w + 1] == y);
                        }
                    } else {
                        assert(out@[p as int] == y);
                    }
                }
            }
        }
        i += 1;
    }
    assert(v@.take(v.len() as int) =~= v@);
    out
}

/// The earlier positions among `found` whose hashes lie within `max` bits of input `i`.
fn keep_close(hashes: &Vec<u64>, found: &Vec<usize>, i: usize, max: u32) -> (r: Vec<usize>)
    requires
        i < hashes.len(),
        found@.no_duplicates(),
        forall|j: int| 0 <= j < found.len() ==> (#[trigger] found@[j]) < i,
    ensures
        r@.no_duplicates(),
        forall|x: usize| r@.contains(x) <==> (found@.contains(x) && hamming(hashes@[x as int], hashes@[i as int]) <= max),
{
    let mut r: Vec<usize> = Vec::new();
    let mut j: usize = 0;
    while j < found.len()
        invariant
            j <= found.len(),
            i < hashes.len(),
            found@.no_duplicates(),
            forall|y: int| 0 <= y < found.len() ==> (#[trigger] found@[y]) < i,
            r@.no_duplicates(),
            forall|x: usize| r@.contains(x) <==> (found@.take(j as int).contains(x) && hamming(hashes@[x as int], hashes@[i as int]) <= max),
        decreases found.len() - j,
    {
        let k = found[j];
        let d = hamming_of(hashes[k], hashes[i]);
        let ghost before = r@;
        assert(found@.take(j + 1) =~= found@.take(j as int).push(k));
        if d <= max {
            proof {
                if before.contains(k) {
                    let z = choose|z: int| 0 <= z < j && found@.take(j as int)[z] == k;
                    assert(found@[z] == found@[j as int]);
                }
            }
            r.push(k);
            proof {
                assert forall|a: int, b: int| 0 <= a < r@.len() && 0 <= b < r@.len() && a != b implies r@[a] != r@[b] by {
                    if a < before.len() && b < before.len() {
                    } else if a == before.len() {
                        assert(before.contains(before[b]));
                    } else {
                        assert(before.contains(before[a]));
                    }
                }
            }
        }
        proof {
            let ft = found@.take(j + 1);
            assert forall|x: usize| r@.contains(x) <==> (ft.contains(x) && hamming(hashes@[x as int], hashes@[i as int]) <= max) by {
                if r@.contains(x) {
                    let w = choose|w: int| 0 <= w < r@.len() && r@[w] == x;
                    if w < before.len() {
                        assert(before[w] == x);
                        assert(before.contains(x));
                        let z = choose|z: int| 0 <= z < j && found@.take(j as int)[z] == x;
                        assert(ft[z] == x);
                    } else {
                        assert(ft[j as int] == x);
                    }
                }
                if ft.contains(x) && hamming(hashes@[x as int], hashes@[i as int]) <= max {
                    let z = choose|z: int| 0 <= z < ft.len() && ft[z] == x;
                    if z < j {
                        assert(found@.take(j as int)[z] == x);
                        assert(before.contains(x));
                        let w = choose|w: int| 0 <= w < before.len() && before[w] == x;
                        assert(r@[w] == x);
                    } else {
                        assert(r@[before.len() as int] == x);
                    }
                }
            }
        }
        j += 1;
    }
    assert(found@.take(found.len() as int) =~= found@);
    r
}

proof fn lemma_close_pairs_bounds(hs: Seq<u64>, max: u32, n: int)
    requires
        0 <= n <= hs.len(),
        hs.len() <= usize::MAX,
    ensures
        forall|y: int|
            0 <= y < close_pairs(hs, max, n).len() ==> (#[trigger] close_pairs(hs, max, n)[y]).0
                < close_pairs(hs, max, n)[y].1 < n,
    decreases n,
{
    if n > 0 {
        lemma_close_pairs_bounds(hs, max, n - 1);
        lemma_close_before_members(hs, max, n - 1, n - 1);
        let prev = close_pairs(hs, max, n - 1);
        let block = close_before(hs, max, n - 1, n - 1).map_values(|j: usize| (j, (n - 1) as usize));
        assert forall|y: int| 0 <= y < (prev + block).len() implies (#[trigger] (prev + block)[y]).0
            < (prev + block)[y].1 < n by {
            if y >= prev.len() {
                assert((prev + block)[y] == block[y - prev.len()]);
            }
        }
    }
}

/// The order key of a string.
pub fn text_key_of(s: &String) -> (r: Vec<u64>)
    ensures
        r@ == text_key(s@),
{
    let cs = chars_of(s.as_str());
    let mut r: Vec<u64> = Vec::new();
    let mut i: usize = 0;
    while i < cs.len()
        invariant
            i <= cs.len(),
            cs@ == s@,
            r@ == Seq::new(i as nat, |k: int| ((cs@[k] as u32) as u64 + 1) as u64),
        decreases cs.len() - i,
    {
        let c = cs[i];
        let code = c as u32;
        r.push(code as u64 + 1);
        i += 1;
        assert(r@ =~= Seq::new(i as nat, |k: int| ((cs@[k] as u32) as u64 + 1) as u64));
    }
    r.push(0);
    assert(r@ =~= text_key(s@));
    r
}

/// Every pair of inputs whose hashes differ in at most `maximum_distance` bits (at
/// most 8), found through a three-segment multi-index without comparing all pairs;
/// the left input comes first in `inputs`. Candidates are sorted by distance, then
/// left id, then right id.
pub fn find_similarity_candidates(inputs: &Vec<SimilarityHashInput>, maximum_distance: u32) -> (r:
    Result<Vec<SimilarityCandidate>, AnalysisError>)
    ensures
        maximum_distance > 8 ==> (r matches Err(AnalysisError::InvalidSimilarityDistance(d)) && d
            == maximum_distance),
        maximum_distance <= 8 ==> (r matches Ok(v) && v.len() == close_candidates(
            inputs@,
            maximum_distance,
        ).len() && exists|order: Seq<usize>|
            #[trigger] is_stable_key_order(
                candidate_keys(close_candidates(inputs@, maximum_distance)),
                order,
            ) && forall|k: int|
                0 <= k < v.len() ==> (#[trigger] v@[k])@ == close_candidates(
                    inputs@,
                    maximum_distance,
                )[order[k] as int]),
{
    if maximum_distance > 8 {
        return Err(AnalysisError::InvalidSimilarityDistance(maximum_distance));
    }
    let n = inputs.len();
    let mut hashes: Vec<u64> = Vec::new();
    let mut i: usize = 0;
    while i < n
        invariant
            i <= n,
            n == inputs.len(),
            hashes@ == hashes_of(inputs@).take(i as int),
        decreases n - i,
    {
        hashes.push(inputs[i].hash);
        i += 1;
        assert(hashes@ =~= hashes_of(inputs@).take(i as int));
    }
    assert(hashes_of(inputs@).take(n as int) =~= hashes_of(inputs@));
    let ghost hs = hashes@;
    let ghost max = maximum_distance;
    let mut b0: HashMap<u64, Vec<usize>> = HashMap::new();
    let mut b1: HashMap<u64, Vec<usize>> = HashMap::new();
    let mut b2: HashMap<u64, Vec<usize>> = HashMap::new();
    proof {
        broadcast use vstd::std_specs::hash::group_hash_axioms;

    }
    let mut pairs: Vec<(usize, usize)> = Vec::new();
    let mut i: usize = 0;
    while i < n
        invariant
            i <= n,
            n == inputs.len(),
            hs == hashes@,
            hs == hashes_of(inputs@),
            hs.len() == n,
            max == maximum_distance,
            maximum_distance <= 8,
            bucket_ok(b0@, hs, 0, i as int),
            bucket_ok(b1@, hs, 1, i as int),
            bucket_ok(b2@, hs, 2, i as int),
            pairs@ == close_pairs(hs, max, i as int),
        decreases n - i,
    {
        broadcast use vstd::std_specs::hash::group_hash_axioms;

        let h = hashes[i];
        let mut found: Vec<usize> = Vec::new();
        let mut seen: HashSet<usize> = HashSet::new();
        assert(found@.no_duplicates());
        probe_segment(&b0, 0, h, i, &mut found, &mut seen, Ghost(hs));
        probe_segment(&b1, 1, h, i, &mut found, &mut seen, Ghost(hs));
        probe_segment(&b2, 2, h, i, &mut found, &mut seen, Ghost(hs));
        let close = keep_close(&hashes, &found, i, maximum_distance);
        let sorted = sort_increasing(&close);
        proof {
            lemma_close_before_members(hs, max, i as int, i as int);
            assert forall|x: usize| sorted@.contains(x) <==> close_before(hs, max, i as int, i as int).contains(x) by {
                if x < i && hamming(hs[x as int], hs[i as int]) <= max {
                    lemma_close_hashes_are_index_neighbours(hs[x as int], hs[i as int]);
                    let (s2, m) = choose|s2: int, m: int|
                        0 <= s2 < 3 && 0 <= m < hamming_masks_of(segment_width(s2) as nat, 2).len() && (
                        segment_value(hs[x as int], s2) ^ segment_value(hs[i as int], s2)) == #[trigger] hamming_masks_of(
                            segment_width(s2) as nat,
                            2,
                        )[m];
                    assert(segment_hit(hs, x as int, i as int, s2, m));
                    assert(found@.contains(x));
                }
                if found@.contains(x) {
                    let w = choose|w: int| 0 <= w < found@.len() && found@[w] == x;
                    assert(found@[w] < i);
                }
            }
            lemma_increasing_same_members(sorted@, close_before(hs, max, i as int, i as int));
        }
        let ghost start = pairs@;
        let mut t: usize = 0;
        while t < sorted.len()
            invariant
                t <= sorted.len(),
                pairs@ == start + sorted@.take(t as int).map_values(|j: usize| (j, i)),
            decreases sorted.len() - t,
        {
            pairs.push((sorted[t], i));
            t += 1;
            assert(pairs@ =~= start + sorted@.take(t as int).map_values(|j: usize| (j, i)));
        }
        assert(sorted@.take(sorted.len() as int) =~= sorted@);
        assert(pairs@ =~= close_pairs(hs, max, i + 1));
        file_in_bucket(&mut b0, 0, h, i, Ghost(hs));
        file_in_bucket(&mut b1, 1, h, i, Ghost(hs));
        file_in_bucket(&mut b2, 2, h, i, Ghost(hs));
        i += 1;
    }
    proof {
        lemma_close_pairs_bounds(hs, max, n as int);
    }
    let ghost expected = close_candidates(inputs@, maximum_distance);
    let ghost expected_keys = candidate_keys(expected);
    let mut cands: Vec<SimilarityCandidate> = Vec::new();
    let mut keys: Vec<Vec<u64>> = Vec::new();
    let mut j: usize = 0;
    while j < pairs.len()
        invariant
            j <= pairs.len(),
            n == inputs.len(),
            hs == hashes@,
            hs == hashes_of(inputs@),
            hs.len() == n,
            pairs@ == close_pairs(hs, max, n as int),
            max == maximum_distance,
            expected == close_candidates(inputs@, maximum_distance),
            expected_keys == candidate_keys(expected),
            forall|y: int| 0 <= y < pairs.len() ==> (#[trigger] pairs@[y]).0 < pairs@[y].1 < n,
            cands.len() == j,
            keys.len() == j,
            forall|y: int| 0 <= y < j ==> (#[trigger] cands@[y])@ == expected[y],
            forall|y: int| 0 <= y < j ==> (#[trigger] keys@[y])@ == expected_keys[y],
        decreases pairs.len() - j,
    {
        let (left, right) = pairs[j];
        assert(pairs@[j as int].0 < pairs@[j as int].1 < n);
        let d = hamming_of(hashes[left], hashes[right]);
        let c = SimilarityCandidate {
            left_id: inputs[left].id.clone(),
            right_id: inputs[right].id.clone(),
            hamming_distance: d,
        };
        let mut key: Vec<u64> = vec![d as u64];
        let lk = text_key_of(&c.left_id);
        let rk = text_key_of(&c.right_id);
        crate::text::append_u64s(&mut key, &lk);
        crate::text::append_u64s(&mut key, &rk);
        assert(c@ == expected[j as int]);
        assert(key@ =~= candidate_key(expected[j as int]));
        cands.push(c);
        keys.push(key);
        j += 1;
    }
    let order = sort_positions_by_key(&keys);
    assert(keys_view(keys@) =~= expected_keys);
    let mut out: Vec<SimilarityCandidate> = Vec::new();
    let mut k: usize = 0;
    while k < order.len()
        invariant
            k <= order.len(),
            order.len() == cands.len(),
            cands.len() == expected.len(),
            is_stable_key_order(expected_keys, order@),
            forall|y: int| 0 <= y < cands.len() ==> (#[trigger] cands@[y])@ == expected[y],
            out.len() == k,
            forall|y: int| 0 <= y < k ==> (#[trigger] out@[y])@ == expected[order@[y] as int],
        decreases order.len() - k,
    {
        let p = order[k];
        let c = &cands[p];
        out.push(
            SimilarityCandidate {
                left_id: c.left_id.clone(),
                right_id: c.right_id.clone(),
                hamming_distance: c.hamming_distance,
            },
        );
        k += 1;
    }
    Ok(out)
}

/// Largest number of distinct shingles that a MinHash signature reads.
pub const MAX_MINHASH_FEATURES: usize = 32768;

/// The shingles of a MinHash: every run of five consecutive characters, or the whole
/// text when it is shorter than five characters.
pub open spec fn minhash_shingles(cs: Seq<char>) -> Seq<Seq<char>> {
    if cs.len() < 5 {
        seq![cs]
    } else {
        Seq::new((cs.len() - 4) as nat, |i: int| cs.subrange(i, i + 5))
    }
}

/// The key of a shingle: the two little-endian words at the start of the BLAKE3
/// digest of its UTF-8 encoding (the second made odd), then the shingle itself.
pub open spec fn shingle_key(f: Seq<char>) -> Seq<u64> {
    let d = blake3_of(encode_utf8(f));
    seq![spec_u64_from_le_bytes(d.subrange(0, 8)), spec_u64_from_le_bytes(d.subrange(8, 16)) | 1u64]
        + text_key(f)
}

/// The shingle keys of a text, one for each shingle position.
pub open spec fn minhash_keys(text: Seq<char>) -> Seq<Seq<u64>> {
    minhash_shingles(fingerprint_chars(text)).map_values(|f: Seq<char>| shingle_key(f))
}

/// `u64::rotate_left` by `r` bits, `r < 64`.
pub open spec fn rotate_left_of(x: u64, r: u64) -> u64 {
    if r == 0 {
        x
    } else {
        ((x << r) | (x >> ((64 - r) as u64))) as u64
    }
}

/// Hash `i` of a shingle with words `first` and `second`.
pub open spec fn permuted(first: u64, second: u64, i: u64) -> u64 {
    rotate_left_of(first.wrapping_add(i.wrapping_mul(second)), i % 63)
}

/// The least hash `i` over the keys, `u64::MAX` for none.
pub open spec fn min_permuted(keys: Seq<Seq<u64>>, i: u64) -> u64
    decreases keys.len(),
{
    if keys.len() == 0 {
        u64::MAX
    } else {
        let m = min_permuted(keys.drop_last(), i);
        let v = permuted(keys.last()[0], keys.last()[1], i);
        if v < m {
            v
        } else {
            m
        }
    }
}

pub open spec fn strictly_sorted(s: Seq<Seq<u64>>) -> bool {
    forall|x: int, y: int| 0 <= x < y < s.len() ==> lex_lt(#[trigger] s[x], #[trigger] s[y])
}

pub open spec fn feature_limit(n: nat) -> int {
    if n < MAX_MINHASH_FEATURES {
        n as int
    } else {
        MAX_MINHASH_FEATURES as int
    }
}

fn permute(first: u64, second: u64, i: u64) -> (r: u64)
    ensures
        r == permuted(first, second, i),
{
    let x = first.wrapping_add(i.wrapping_mul(second));
    let rot = i % 63;
    if rot == 0 {
        x
    } else {
        (x << rot) | (x >> (64 - rot))
    }
}

fn shingle_key_of(f: &Vec<char>) -> (r: Vec<u64>)
    ensures
        r@ == shingle_key(f@),
{
    let s = string_from_chars(f);
    let digest = blake3_digest(s.as_str().as_bytes());
    let first = u64_from_le_bytes(slice_subrange(digest.as_slice(), 0, 8));
    let second = u64_from_le_bytes(slice_subrange(digest.as_slice(), 8, 16)) | 1;
    let mut key: Vec<u64> = vec![first, second];
    let text = text_key_of(&s);
    crate::text::append_u64s(&mut key, &text);
    assert(key@ =~= shingle_key(f@));
    key
}

/// `sig` is the MinHash signature of `text`: component `i` is the least image under
/// permutation `i` of the first 32768 distinct shingle keys, taken in key order.
pub open spec fn is_text_minhash(text: Seq<char>, sig: [u64; TEXT_MINHASH_COMPONENTS]) -> bool {
    exists|sorted: Seq<Seq<u64>>|
        #[trigger] strictly_sorted(sorted) && (forall|k: Seq<u64>|
            sorted.contains(k) <==> minhash_keys(text).contains(k)) && forall|i: int|
            0 <= i < 32 ==> sig@[i] == min_permuted(sorted.take(feature_limit(sorted.len())), i as u64)
}

/// MinHash signature of 32 components over the distinct character 5-grams of a
/// text, for checking SimHash candidates a second time; `None` when the text has no
/// alphanumeric character. The shingles are taken in the order of their keys and cut
/// off after the first 32768, so that huge texts cost bounded work.
pub fn text_minhash(text: &str) -> (r: Option<[u64; TEXT_MINHASH_COMPONENTS]>)
    ensures
        r is None <==> fingerprint_chars(text@).len() == 0,
        r matches Some(sig) ==> is_text_minhash(text@, sig),
{
    let v = chars_of(text);
    let f = fold_name(&v);
    let cs = keep_alphanumeric_chars(&f);
    if cs.len() == 0 {
        return None;
    }
    let ghost shingles = minhash_shingles(cs@);
    let ghost all_keys = minhash_keys(text@);
    let count: usize = if cs.len() < 5 {
        1
    } else {
        cs.len() - 4
    };
    assert(shingles.len() == count);
    let mut keys: Vec<Vec<u64>> = Vec::new();
    let mut k: usize = 0;
    while k < count
        invariant
            k <= count,
            count == shingles.len(),
            shingles == minhash_shingles(cs@),
            all_keys == shingles.map_values(|f: Seq<char>| shingle_key(f)),
            keys.len() == k,
            forall|y: int| 0 <= y < k ==> (#[trigger] keys@[y])@ == all_keys[y],
        decreases count - k,
    {
        let feature: Vec<char> = if cs.len() < 5 {
            cs.clone()
        } else {
            let t = vec![cs[k], cs[k + 1], cs[k + 2], cs[k + 3], cs[k + 4]];
            assert(t@ =~= cs@.subrange(k as int, k + 5));
            t
        };
        assert(feature@ == shingles[k as int]);
        keys.push(shingle_key_of(&feature));
        k += 1;
    }
    let ghost kv = keys_view(keys@);
    assert(kv =~= all_keys);
    let ps = sort_distinct_positions(&keys, 0, keys.len());
    let ghost sorted = ps@.map_values(|p: usize| kv[p as int]);
    proof {
        assert forall|x: int, y: int| 0 <= x < y < sorted.len() implies lex_lt(
            #[trigger] sorted[x],
            #[trigger] sorted[y],
        ) by {
            assert(lex_lt(kv[ps@[x] as int], kv[ps@[y] as int]));
        }
        assert forall|key: Seq<u64>| sorted.contains(key) <==> all_keys.contains(key) by {
            if sorted.contains(key) {
                let x = choose|x: int| 0 <= x < sorted.len() && sorted[x] == key;
                assert(lists_key(kv, ps@, key));
                let j = choose|j: int| 0 <= j < keys.len() && #[trigger] kv[j] == key;
                assert(all_keys[j] == key);
            }
            if all_keys.contains(key) {
                let j = choose|j: int| 0 <= j < all_keys.len() && all_keys[j] == key;
                assert(range_has_key(kv, 0, keys.len() as int, key));
                let x = choose|x: int| 0 <= x < ps@.len() && #[trigger] kv[ps@[x] as int] == key;
                assert(sorted[x] == key);
            }
        }
    }
    let limit: usize = if ps.len() < MAX_MINHASH_FEATURES {
        ps.len()
    } else {
        MAX_MINHASH_FEATURES
    };
    let mut sig = [u64::MAX; TEXT_MINHASH_COMPONENTS];
    let mut t: usize = 0;
    assert(sorted.take(0) =~= seq![]);
    while t < limit
        invariant
            t <= limit,
            limit <= ps.len(),
            kv == keys_view(keys@),
            sorted == ps@.map_values(|p: usize| kv[p as int]),
            keys_increasing(kv, ps@),
            forall|y: int| 0 <= y < keys.len() ==> (#[trigger] kv[y]).len() >= 2,
            sig@.len() == 32,
            forall|i: int| 0 <= i < 32 ==> sig@[i] == min_permuted(sorted.take(t as int), i as u64),
        decreases limit - t,
    {
        let p = ps[t];
        assert(kv[p as int] == keys@[p as int]@);
        let key = &keys[p];
        let first = key[0];
        let second = key[1];
        assert(sorted.take(t + 1).drop_last() =~= sorted.take(t as int));
        assert(sorted.take(t + 1).last() == kv[p as int]);
        let mut i: usize = 0;
        while i < 32
            invariant
                i <= 32,
                t < limit,
                limit <= sorted.len(),
                sig@.len() == 32,
                sorted.take(t + 1).drop_last() == sorted.take(t as int),
                sorted.take(t + 1).last()[0] == first,
                sorted.take(t + 1).last()[1] == second,
                forall|x: int| 0 <= x < i ==> sig@[x] == min_permuted(sorted.take(t + 1), x as u64),
                forall|x: int| i <= x < 32 ==> sig@[x] == min_permuted(sorted.take(t as int), x as u64),
            decreases 32 - i,
        {
            let value = permute(first, second, i as u64);
            let ghost before = sig@;
            if value < sig[i] {
                sig[i] = value;
            }
            proof {
                let whole = sorted.take(t + 1);
                assert(whole.len() > 0);
                assert(min_permuted(whole, i as u64) == {
                    let m = min_permuted(whole.drop_last(), i as u64);
                    let v = permuted(whole.last()[0], whole.last()[1], i as u64);
                    if v < m {
                        v
                    } else {
                        m
                    }
                });
                assert(before[i as int] == min_permuted(sorted.take(t as int), i as u64));
                assert(sig@[i as int] == min_permuted(whole, i as u64));
                assert forall|x: int| i < x < 32 implies sig@[x] == before[x] by {}
            }
            i += 1;
        }
        t += 1;
    }
    assert(limit as int == feature_limit(sorted.len()));
    assert(strictly_sorted(sorted));
    Some(sig)
}

proof fn lemma_close_before(hs: Seq<u64>, max: u32, i: int, k: int)
    requires
        k <= usize::MAX,
    ensures
        forall|x: int|
            0 <= x < close_before(hs, max, i, k).len() ==> 0 <= #[trigger] close_before(hs, max, i, k)[x] < k
                && hamming(hs[close_before(hs, max, i, k)[x] as int], hs[i]) <= max,
        forall|x: int, y: int|
            0 <= x < y < close_before(hs, max, i, k).len() ==> #[trigger] close_before(hs, max, i, k)[x]
                < #[trigger] close_before(hs, max, i, k)[y],
        forall|j: int|
            0 <= j < k && hamming(hs[j], hs[i]) <= max ==> #[trigger] close_before(hs, max, i, k).contains(
                j as usize,
            ),
    decreases k,
{
    if k > 0 {
        lemma_close_before(hs, max, i, k - 1);
        let prev = close_before(hs, max, i, k - 1);
        let cur = close_before(hs, max, i, k);
        if hamming(hs[k - 1], hs[i]) <= max {
            assert(cur == prev.push((k - 1) as usize));
            assert forall|x: int| 0 <= x < cur.len() implies 0 <= #[trigger] cur[x] < k && hamming(
                hs[cur[x] as int],
                hs[i],
            ) <= max by {
                if x < prev.len() {
                    assert(cur[x] == prev[x]);
                }
            }
            assert forall|x: int, y: int| 0 <= x < y < cur.len() implies #[trigger] cur[x] < #[trigger] cur[y] by {
                assert(cur[x] == prev[x]);
                if y < prev.len() {
                    assert(cur[y] == prev[y]);
                }
            }
            assert forall|j: int| 0 <= j < k && hamming(hs[j], hs[i]) <= max implies #[trigger] cur.contains(
                j as usize,
            ) by {
                if j < k - 1 {
                    assert(prev.contains(j as usize));
                    let x = choose|x: int| 0 <= x < prev.len() && prev[x] == j as usize;
                    assert(cur[x] == prev[x]);
                } else {
                    assert(cur[prev.len() as int] == j as usize);
                }
            }
        } else {
            assert(cur == prev);
        }
    }
}

/// The pairs behind the similarity candidates are exactly the index pairs `(j, i)`,
/// `j < i < n`, whose hashes lie within `max` bits of each other, each pair once.
pub proof fn lemma_close_pairs_are_exactly_the_close_index_pairs(hs: Seq<u64>, max: u32, n: int)
    requires
        0 <= n <= usize::MAX,
    ensures
        forall|x: int|
            0 <= x < close_pairs(hs, max, n).len() ==> (#[trigger] close_pairs(hs, max, n)[x]).0
                < close_pairs(hs, max, n)[x].1 < n && hamming(
                hs[close_pairs(hs, max, n)[x].0 as int],
                hs[close_pairs(hs, max, n)[x].1 as int],
            ) <= max,
        forall|j: int, i: int|
            0 <= j < i < n && hamming(hs[j], hs[i]) <= max ==> #[trigger] close_pairs(hs, max, n).contains(
                (j as usize, i as usize),
            ),
        forall|x: int, y: int|
            0 <= x < y < close_pairs(hs, max, n).len() ==> #[trigger] close_pairs(hs, max, n)[x]
                != #[trigger] close_pairs(hs, max, n)[y],
    decreases n,
{
    if n > 0 {
        lemma_close_pairs_are_exactly_the_close_index_pairs(hs, max, n - 1);
        lemma_close_before(hs, max, n - 1, n - 1);
        let prev = close_pairs(hs, max, n - 1);
        let cb = close_before(hs, max, n - 1, n - 1);
        let block = cb.map_values(|j: usize| (j, (n - 1) as usize));
        let cur = close_pairs(hs, max, n);
        assert(cur == prev + block);
        assert forall|x: int| 0 <= x < cur.len() implies (#[trigger] cur[x]).0 < cur[x].1 < n && hamming(
            hs[cur[x].0 as int],
            hs[cur[x].1 as int],
        ) <= max by {
            if x < prev.len() {
                assert(cur[x] == prev[x]);
            } else {
                assert(cur[x] == block[x - prev.len()]);
                assert(block[x - prev.len()] == (cb[x - prev.len()], (n - 1) as usize));
            }
        }
        assert forall|j: int, i: int| 0 <= j < i < n && hamming(hs[j], hs[i]) <= max implies #[trigger] cur.contains(
            (j as usize, i as usize),
        ) by {
            if i < n - 1 {
                assert(prev.contains((j as usize, i as usize)));
                let x = choose|x: int| 0 <= x < prev.len() && prev[x] == (j as usize, i as usize);
                assert(cur[x] == prev[x]);
            } else {
                assert(cb.contains(j as usize));
                let y = choose|y: int| 0 <= y < cb.len() && cb[y] == j as usize;
                assert(block[y] == (j as usize, i as usize));
                assert(cur[prev.len() + y] == block[y]);
            }
        }
        assert forall|x: int, y: int| 0 <= x < y < cur.len() implies #[trigger] cur[x] != #[trigger] cur[y] by {
            if y < prev.len() {
                assert(cur[x] == prev[x] && cur[y] == prev[y]);
            } else if x < prev.len() {
                assert(cur[x] == prev[x]);
                assert(cur[y] == block[y - prev.len()]);
                assert(prev[x].1 < n - 1);
            } else {
                assert(cur[x] == block[x - prev.len()] && cur[y] == block[y - prev.len()]);
                assert(cb[x - prev.len()] < cb[y - prev.len()]);
            }
        }
    }
}

} // verus!
