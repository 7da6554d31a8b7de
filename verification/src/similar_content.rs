//! Per-file and per-pair decisions of the similar-content analyses: which files take
//! part, what a text contributes, and when a SimHash or dHash candidate pair is
//! confirmed by its second signature.
use vstd::prelude::*;
use crate::analysis::{lowercase_extension, one_of, stem_and_extension_chars, TEXT_MINHASH_COMPONENTS};
use crate::similarity::{
    fingerprint_chars, hamming, hamming_of, is_text_minhash, is_text_simhash, text_minhash,
    text_simhash,
};
use crate::text::{char_alphanumeric, char_is_alphanumeric, chars_eq_str, chars_of, string_from_str};
use crate::text::{lossy_text_of, utf8_lossy};

verus! {

/// The kind of content that a similarity analysis compares.
#[derive(Debug, Clone, Copy, PartialEq, Eq, Structural)]
pub enum SimilarContentKind {
    Text,
    Image,
}

/// The content kind a request names, if any.
pub open spec fn content_kind_named(kind: Seq<char>) -> Option<SimilarContentKind> {
    if kind == "text"@ {
        Some(SimilarContentKind::Text)
    } else if kind == "image"@ {
        Some(SimilarContentKind::Image)
    } else {
        None
    }
}

/// Reads the content kind of a similarity request.
pub fn similar_content_kind(kind: &str) -> (r: Option<SimilarContentKind>)
    ensures
        r == content_kind_named(kind@),
{
    let v = chars_of(kind);
    if chars_eq_str(&v, "text") {
        Some(SimilarContentKind::Text)
    } else if chars_eq_str(&v, "image") {
        Some(SimilarContentKind::Image)
    } else {
        None
    }
}

/// The job kind queued for a similarity request.
pub open spec fn similarity_job_kind_of(kind: SimilarContentKind) -> Seq<char> {
    match kind {
        SimilarContentKind::Text => "similar_text_analysis"@,
        SimilarContentKind::Image => "similar_image_analysis"@,
    }
}

/// The job kind to queue for a similarity request; a content kind other than `text`
/// or `image` is refused.
pub fn similarity_job_kind(content_kind: &str) -> (r: Result<&'static str, String>)
    ensures
        match content_kind_named(content_kind@) {
            Some(k) => r matches Ok(j) && j@ == similarity_job_kind_of(k),
            None => r matches Err(m) && m@ == "不支持的相似内容类型"@,
        },
{
    match similar_content_kind(content_kind) {
        Some(SimilarContentKind::Text) => Ok("similar_text_analysis"),
        Some(SimilarContentKind::Image) => Ok("similar_image_analysis"),
        None => Err(string_from_str("不支持的相似内容类型")),
    }
}

/// The content kind a queued similarity job works on; a stored payload with another
/// kind fails the job.
pub fn similarity_work_kind(content_kind: &str) -> (r: Result<SimilarContentKind, String>)
    ensures
        match content_kind_named(content_kind@) {
            Some(k) => r matches Ok(j) && j == k,
            None => r matches Err(m) && m@ == "不支持的相似内容任务类型"@,
        },
{
    match similar_content_kind(content_kind) {
        Some(k) => Ok(k),
        None => Err(string_from_str("不支持的相似内容任务类型")),
    }
}

/// Extensions of the plain-text files that the text analysis reads (and that a
/// preview shows as text).
pub open spec fn text_similarity_extensions() -> Seq<Seq<char>> {
    seq![
        "txt"@, "md"@, "log"@, "csv"@, "tsv"@, "json"@, "xml"@, "yaml"@, "yml"@, "toml"@,
        "rs"@, "py"@, "js"@, "ts"@, "css"@, "html"@,
    ]
}

/// Extensions of the images that the image analysis decodes.
pub open spec fn image_similarity_extensions() -> Seq<Seq<char>> {
    seq!["jpg"@, "jpeg"@, "png"@, "webp"@]
}

/// Whether a file takes part in an analysis of the given kind, by the ASCII lower case
/// form of its extension.
pub open spec fn takes_part(kind: SimilarContentKind, path: Seq<char>) -> bool {
    match kind {
        SimilarContentKind::Text => text_similarity_extensions().contains(lowercase_extension(path)),
        SimilarContentKind::Image => image_similarity_extensions().contains(lowercase_extension(path)),
    }
}

/// Whether the file at `path` takes part in an analysis of the given kind.
pub fn takes_part_in(kind: SimilarContentKind, path: &str) -> (r: bool)
    ensures
        r == takes_part(kind, path@),
{
    let pv = chars_of(path);
    let (_, ext) = stem_and_extension_chars(&pv);
    let e = match ext {
        Some(x) => crate::text::to_ascii_lowercase(&x),
        None => Vec::new(),
    };
    assert(e@ == lowercase_extension(path@));
    match kind {
        SimilarContentKind::Text => {
            let names = vec![
                "txt", "md", "log", "csv", "tsv", "json", "xml", "yaml", "yml", "toml", "rs",
                "py", "js", "ts", "css", "html",
            ];
            assert(names@.map_values(|n: &str| n@) =~= text_similarity_extensions());
            one_of(&e, &names)
        },
        SimilarContentKind::Image => {
            let names = vec!["jpg", "jpeg", "png", "webp"];
            assert(names@.map_values(|n: &str| n@) =~= image_similarity_extensions());
            one_of(&e, &names)
        },
    }
}

/// Number of alphanumeric characters in a text.
pub open spec fn alphanumeric_count(s: Seq<char>) -> nat
    decreases s.len(),
{
    if s.len() == 0 {
        0
    } else {
        alphanumeric_count(s.drop_last()) + if char_alphanumeric(s.last()) {
            1nat
        } else {
            0nat
        }
    }
}

/// The least number of alphanumeric characters of a text worth comparing.
pub const MIN_TEXT_SIGNAL: usize = 24;

/// Whether a text holds at least 24 alphanumeric characters.
pub fn has_text_signal(text: &str) -> (r: bool)
    ensures
        r <==> alphanumeric_count(text@) >= MIN_TEXT_SIGNAL,
{
    let v = chars_of(text);
    let mut count: usize = 0;
    let mut i: usize = 0;
    while i < v.len() && count < MIN_TEXT_SIGNAL
        invariant
            i <= v.len(),
            v@ == text@,
            count == alphanumeric_count(v@.take(i as int)),
            count <= MIN_TEXT_SIGNAL,
        decreases v.len() - i,
    {
        assert(v@.take(i + 1).drop_last() =~= v@.take(i as int));
        if char_is_alphanumeric(v[i]) {
            count += 1;
        }
        i += 1;
    }
    proof {
        if count >= MIN_TEXT_SIGNAL {
            lemma_alphanumeric_count_grows(v@, i as int);
        } else {
            assert(v@.take(i as int) =~= v@);
        }
    }
    count >= MIN_TEXT_SIGNAL
}

/// A prefix of a text has no more alphanumeric characters than the text.
proof fn lemma_alphanumeric_count_grows(s: Seq<char>, i: int)
    requires
        0 <= i <= s.len(),
    ensures
        alphanumeric_count(s.take(i)) <= alphanumeric_count(s),
    decreases s.len() - i,
{
    if i < s.len() {
        lemma_alphanumeric_count_grows(s, i + 1);
        assert(s.take(i + 1).drop_last() =~= s.take(i));
    } else {
        assert(s.take(i) =~= s);
    }
}

/// The signatures of a text that the text analysis compares: its SimHash and MinHash
/// signature, or `None` when the text holds fewer than 24 alphanumeric characters or
/// nothing to fingerprint.
pub fn text_signatures(text: &str) -> (r: Option<(u64, [u64; TEXT_MINHASH_COMPONENTS])>)
    ensures
        r is None <==> (alphanumeric_count(text@) < MIN_TEXT_SIGNAL || fingerprint_chars(text@).len() == 0),
        r matches Some((h, sig)) ==> is_text_simhash(text@, h) && is_text_minhash(text@, sig),
{
    if !has_text_signal(text) {
        return None;
    }
    let hash = match text_simhash(text) {
        Some(h) => h,
        None => return None,
    };
    let signature = match text_minhash(text) {
        Some(s) => s,
        None => return None,
    };
    Some((hash, signature))
}

/// Number of the first `n` components on which two signatures agree.
pub open spec fn agreement(left: Seq<u64>, right: Seq<u64>, n: nat) -> nat
    decreases n,
{
    if n == 0 {
        0
    } else {
        agreement(left, right, (n - 1) as nat) + if left[n - 1] == right[n - 1] {
            1nat
        } else {
            0nat
        }
    }
}

/// Number of components on which two MinHash signatures agree; their MinHash
/// similarity is this count over 32.
pub fn minhash_agreement(
    left: &[u64; TEXT_MINHASH_COMPONENTS],
    right: &[u64; TEXT_MINHASH_COMPONENTS],
) -> (r: usize)
    ensures
        r == agreement(left@, right@, 32),
        r <= 32,
{
    let mut count: usize = 0;
    let mut i: usize = 0;
    while i < 32
        invariant
            i <= 32,
            left@.len() == 32,
            right@.len() == 32,
            count == agreement(left@, right@, i as nat),
            count <= i,
        decreases 32 - i,
    {
        if left[i] == right[i] {
            count += 1;
        }
        i += 1;
    }
    count
}

/// A SimHash candidate pair of texts is kept when their MinHash similarity is at least
/// 0.25, that is when at least 8 of the 32 components agree.
pub fn text_pair_confirmed(
    left: &[u64; TEXT_MINHASH_COMPONENTS],
    right: &[u64; TEXT_MINHASH_COMPONENTS],
) -> (r: bool)
    ensures
        r <==> 4 * agreement(left@, right@, 32) >= 32,
{
    minhash_agreement(left, right) >= 8
}

/// The pHash distance of a dHash candidate pair of images, when it is at most 12 and
/// the pair is kept.
pub fn image_pair_distance(left_phash: u64, right_phash: u64) -> (r: Option<u32>)
    ensures
        match r {
            Some(d) => d == hamming(left_phash, right_phash) && d <= 12,
            None => hamming(left_phash, right_phash) > 12,
        },
{
    let d = hamming_of(left_phash, right_phash);
    if d > 12 {
        None
    } else {
        Some(d)
    }
}


/// Most bytes read from the start of a file for its text signatures (512 KiB).
pub const TEXT_SAMPLE_BYTES: u64 = 524_288;

/// The signatures of text read as bytes: the bytes are decoded leniently, each invalid
/// UTF-8 sequence standing for one replacement character, and signed as text.
pub fn text_signatures_of_bytes(bytes: &[u8]) -> (r: Option<(u64, [u64; TEXT_MINHASH_COMPONENTS])>)
    ensures
        r is None <==> (alphanumeric_count(lossy_text_of(bytes@)) < MIN_TEXT_SIGNAL
            || fingerprint_chars(lossy_text_of(bytes@)).len() == 0),
        r matches Some((h, sig)) ==> is_text_simhash(lossy_text_of(bytes@), h) && is_text_minhash(
            lossy_text_of(bytes@),
            sig,
        ),
{
    let text = utf8_lossy(bytes);
    text_signatures(text.as_str())
}

} // verus!
