use guixu::similarity::{
    find_similarity_candidates, text_simhash, AnalysisError, SimilarityHashInput,
};

fn hash_similarity(left: u64, right: u64) -> f32 {
    1.0 - ((left ^ right).count_ones() as f32 / 64.0)
}

fn input(id: &str, hash: u64) -> SimilarityHashInput {
    SimilarityHashInput { id: id.to_owned(), hash }
}

#[test]
fn simhash_rates_small_chinese_edit_as_similar() {
    let left = text_simhash("项目计划和预算说明").expect("left feature");
    let right = text_simhash("项目计划与预算说明").expect("right feature");
    assert!(hash_similarity(left, right) > 0.70);
}

#[test]
fn simhash_rejects_text_without_features() {
    assert_eq!(text_simhash("  ——  "), None);
}

#[test]
fn simhash_is_case_and_width_insensitive() {
    assert_eq!(text_simhash("Hello World"), text_simhash("hello, world!"));
    assert_eq!(text_simhash("ＡＢＣ"), text_simhash("abc"));
    assert!(text_simhash("ab").is_some());
}

#[test]
fn simhash_bits_follow_the_majority_of_feature_words() {
    // one feature: the hash is exactly the feature word
    let digest = blake3::hash("abc".as_bytes());
    let word = u64::from_le_bytes(digest.as_bytes()[..8].try_into().expect("eight bytes"));
    assert_eq!(text_simhash("a-b-c"), Some(word));
}

#[test]
fn similarity_candidate_index_recalls_close_hashes_without_all_pairs() {
    let candidates = find_similarity_candidates(
        &vec![input("a", 0), input("b", 0b10101), input("far", u64::MAX)],
        5,
    )
    .expect("valid distance");
    assert_eq!(candidates.len(), 1);
    assert_eq!(candidates[0].left_id, "a");
    assert_eq!(candidates[0].right_id, "b");
    assert_eq!(candidates[0].hamming_distance, 3);
}

#[test]
fn similarity_candidate_index_rejects_unsupported_distance() {
    assert!(matches!(
        find_similarity_candidates(&vec![], 9),
        Err(AnalysisError::InvalidSimilarityDistance(9))
    ));
}

#[test]
fn similarity_multi_index_matches_exhaustive_hamming_search() {
    let inputs = (0..512_u64)
        .map(|index| {
            let mut value = index.wrapping_add(0x9e3779b97f4a7c15);
            value = (value ^ (value >> 30)).wrapping_mul(0xbf58476d1ce4e5b9);
            value = (value ^ (value >> 27)).wrapping_mul(0x94d049bb133111eb);
            input(&format!("item-{index:04}"), value ^ (value >> 31))
        })
        .collect::<Vec<_>>();
    let actual = find_similarity_candidates(&inputs, 8).expect("valid radius");
    let mut expected = Vec::new();
    for left in 0..inputs.len() {
        for right in left + 1..inputs.len() {
            let distance = (inputs[left].hash ^ inputs[right].hash).count_ones();
            if distance <= 8 {
                expected.push((inputs[left].id.clone(), inputs[right].id.clone(), distance));
            }
        }
    }
    let mut actual = actual
        .into_iter()
        .map(|candidate| (candidate.left_id, candidate.right_id, candidate.hamming_distance))
        .collect::<Vec<_>>();
    actual.sort();
    expected.sort();
    assert_eq!(actual, expected);
}

#[test]
fn close_pairs_in_every_segment_are_found_and_sorted() {
    let base = 0x0123_4567_89ab_cdef_u64;
    let inputs = vec![
        input("z", base),
        // eight bits apart, spread over all three segments
        input("y", base ^ 0b111 ^ (0b111 << 21) ^ (0b11 << 42)),
        // one bit apart in the top segment
        input("x", base ^ (1 << 63)),
        input("w", !base),
    ];
    let candidates = find_similarity_candidates(&inputs, 8).expect("valid radius");
    let found = candidates
        .iter()
        .map(|c| (c.left_id.as_str(), c.right_id.as_str(), c.hamming_distance))
        .collect::<Vec<_>>();
    assert_eq!(found, vec![("z", "x", 1), ("z", "y", 8)]);
    assert!(find_similarity_candidates(&inputs, 0).expect("radius").is_empty());
}

use guixu::similarity::text_minhash;

fn minhash_similarity(left: &[u64; 32], right: &[u64; 32]) -> f32 {
    let equal = left.iter().zip(right).filter(|(left, right)| left == right).count();
    equal as f32 / 32.0
}

#[test]
fn minhash_secondary_verification_distinguishes_related_text() {
    let original = text_minhash("项目计划包含预算、时间表、交付标准和风险说明").expect("original");
    let edited = text_minhash("项目计划包含预算、时间安排、交付标准以及风险说明").expect("edited");
    let unrelated = text_minhash("周末天气晴朗，适合徒步和拍摄城市风景").expect("unrelated");
    assert!(minhash_similarity(&original, &edited) > minhash_similarity(&original, &unrelated));
    assert_eq!(minhash_similarity(&original, &original), 1.0);
}

#[test]
fn minhash_reads_the_set_of_shingles() {
    assert_eq!(text_minhash("aaaaaaa"), text_minhash("aaaaaaaaaaaaaaa"));
    assert_eq!(text_minhash("  !! "), None);
    let short = text_minhash("ab").expect("short text");
    let digest = blake3::hash("ab".as_bytes());
    let first = u64::from_le_bytes(digest.as_bytes()[..8].try_into().expect("eight bytes"));
    let second = u64::from_le_bytes(digest.as_bytes()[8..16].try_into().expect("eight bytes")) | 1;
    for (index, component) in short.iter().enumerate() {
        let expected = first
            .wrapping_add((index as u64).wrapping_mul(second))
            .rotate_left((index % 63) as u32);
        assert_eq!(*component, expected);
    }
}
