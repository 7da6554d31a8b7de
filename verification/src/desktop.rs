//! Helpers of the desktop shell: category labels, the clock reading, hash text,
//! stored feature blobs and the records that the interface shows.
use vstd::prelude::*;
use vstd::bytes::{
    lemma_auto_spec_u64_to_from_le_bytes, spec_u64_from_le_bytes, spec_u64_to_le_bytes,
    u64_from_le_bytes, u64_to_le_bytes,
};
use vstd::slice::slice_subrange;
use crate::analysis::{FileCategory, TEXT_MINHASH_COMPONENTS};
use crate::operations::{hex_digit, hex_hash, hex_of};
use crate::storage::{FileFeature, FilePageCursor, IndexedFile, StoredOperation, StoredOperationItem};
use crate::domain::operation_kind_name;
use crate::duplicates::DuplicateGroup;
use crate::order::{
    is_stable_key_order, keys_increasing, keys_view, lex_lt, range_has_key, sort_distinct_positions,
};
use crate::similarity::{text_key, text_key_of};
use crate::paths::{file_name, file_name_of, path_eq, path_starts_with, same_path, starts_with};
use crate::analysis::{
    rank_duplicate_retention, recommends_input, retention_keys, retention_reasons, retention_score,
    strings_view, unique_filename, unique_filename_of, RetentionInput,
};
use crate::text::{lossy_text_of, utf8_lossy};
use crate::text::{char_is_whitespace, is_white_space, string_from_str, chars_of, char_utf8_len, utf8_len, utf8_size, utf8_size_of};

verus! {

/// Display label of a file category.
pub open spec fn category_label_text(category: FileCategory) -> Seq<char> {
    match category {
        FileCategory::Document => "文档"@,
        FileCategory::Image => "图片"@,
        FileCategory::Audio => "音频"@,
        FileCategory::Video => "视频"@,
        FileCategory::Archive => "压缩包"@,
        FileCategory::Code => "代码"@,
        FileCategory::Data => "数据"@,
        FileCategory::Other => "其他"@,
    }
}

/// Display label of a file category.
pub fn category_label(category: FileCategory) -> (r: &'static str)
    ensures
        r@ == category_label_text(category),
{
    match category {
        FileCategory::Document => "文档",
        FileCategory::Image => "图片",
        FileCategory::Audio => "音频",
        FileCategory::Video => "视频",
        FileCategory::Archive => "压缩包",
        FileCategory::Code => "代码",
        FileCategory::Data => "数据",
        FileCategory::Other => "其他",
    }
}

/// Stored timestamp of a clock reading: the milliseconds since the epoch,
/// `0` for a clock before the epoch, saturating at `i64::MAX`.
pub open spec fn epoch_millis_value(elapsed_ms: Option<u128>) -> i64 {
    match elapsed_ms {
        Some(m) => if m <= i64::MAX {
            m as i64
        } else {
            i64::MAX
        },
        None => 0,
    }
}

/// Stored timestamp of a clock reading (`None` when the clock is before the epoch).
pub fn epoch_millis(elapsed_ms: Option<u128>) -> (r: i64)
    ensures
        r == epoch_millis_value(elapsed_ms),
{
    match elapsed_ms {
        Some(m) => if m <= 0x7fff_ffff_ffff_ffffu128 {
            m as i64
        } else {
            i64::MAX
        },
        None => 0,
    }
}

/// Lowercase hexadecimal text of a content hash.
pub fn hash_hex(hash: [u8; 32]) -> (r: String)
    ensures
        r@ == hex_of(hash@),
{
    hex_hash(hash)
}

/// Value of one hexadecimal digit, either case.
pub open spec fn hex_value(c: char) -> Option<u8> {
    let u = c as u32;
    if 48 <= u <= 57 {
        Some((u - 48) as u8)
    } else if 97 <= u <= 102 {
        Some((u - 87) as u8)
    } else if 65 <= u <= 70 {
        Some((u - 55) as u8)
    } else {
        None
    }
}

/// Base-16 value of a two-character ASCII text as an unsigned byte: two digits,
/// or a plus sign before one digit.
pub open spec fn hex_pair(a: char, b: char) -> Option<u8> {
    if a == '+' {
        hex_value(b)
    } else {
        match (hex_value(a), hex_value(b)) {
            (Some(x), Some(y)) => Some((16 * x + y) as u8),
            _ => None,
        }
    }
}

/// Bytes of a text read as consecutive two-byte numbers; `None` as soon as one
/// two-byte slice is not a number.
pub open spec fn hex_pairs(cs: Seq<char>) -> Option<Seq<u8>>
    decreases cs.len(),
{
    if cs.len() == 0 {
        Some(seq![])
    } else if cs.len() >= 2 && utf8_len(cs[0]) == 1 && utf8_len(cs[1]) == 1 {
        match hex_pair(cs[0], cs[1]) {
            Some(b) => match hex_pairs(cs.skip(2)) {
                Some(rest) => Some(seq![b] + rest),
                None => None,
            },
            None => None,
        }
    } else {
        None
    }
}

/// Reading the text in two-byte slices reaches a slice boundary that falls
/// inside a character before any slice fails to parse.
pub open spec fn pairs_split_char(cs: Seq<char>) -> bool
    decreases cs.len(),
{
    if cs.len() == 0 {
        false
    } else if utf8_len(cs[0]) == 1 {
        if cs.len() >= 2 && utf8_len(cs[1]) == 1 {
            match hex_pair(cs[0], cs[1]) {
                Some(_) => pairs_split_char(cs.skip(2)),
                None => false,
            }
        } else {
            true
        }
    } else {
        utf8_len(cs[0]) != 2
    }
}

pub proof fn lemma_utf8_size_front(s: Seq<char>)
    requires
        s.len() > 0,
    ensures
        utf8_size(s) == utf8_len(s[0]) + utf8_size(s.skip(1)),
    decreases s.len(),
{
    if s.len() == 1 {
        assert(s.drop_last() =~= seq![]);
        assert(s.skip(1) =~= seq![]);
    } else {
        lemma_utf8_size_front(s.drop_last());
        assert(s.skip(1).drop_last() =~= s.drop_last().skip(1));
        assert(s.skip(1).last() == s.last());
    }
}

fn hex_value_of(c: char) -> (r: Option<u8>)
    ensures
        r == hex_value(c),
{
    let u = c as u32;
    if 48 <= u && u <= 57 {
        Some((u - 48) as u8)
    } else if 97 <= u && u <= 102 {
        Some((u - 87) as u8)
    } else if 65 <= u && u <= 70 {
        Some((u - 55) as u8)
    } else {
        None
    }
}

fn hex_pair_of(a: char, b: char) -> (r: Option<u8>)
    ensures
        r == hex_pair(a, b),
{
    if a == '+' {
        hex_value_of(b)
    } else {
        match (hex_value_of(a), hex_value_of(b)) {
            (Some(x), Some(y)) => Some(16 * x + y),
            _ => None,
        }
    }
}

/// Content hash written as 64 hexadecimal characters; `None` for a text of another
/// length or with a two-byte slice that is not a base-16 number.
pub fn parse_hash_hex(value: &str) -> (r: Option<[u8; 32]>)
    requires
        utf8_size(value@) == 64 ==> !pairs_split_char(value@),
    ensures
        r is Some <==> (utf8_size(value@) == 64 && hex_pairs(value@) is Some),
        r matches Some(h) ==> hex_pairs(value@) == Some(h@),
{
    let cs = chars_of(value);
    if utf8_size_of(&cs) != 64 {
        return None;
    }
    let mut hash = [0u8; 32];
    let mut i: usize = 0;
    let mut k: usize = 0;
    assert(cs@.skip(0) =~= cs@);
    assert(hash@.take(0) =~= seq![]);
    proof {
        match hex_pairs(cs@) {
            Some(rest) => assert(hash@.take(0) + rest =~= rest),
            None => {},
        }
    }
    while i < cs.len()
        invariant
            cs@ == value@,
            i <= cs.len(),
            k <= 32,
            utf8_size(cs@.skip(i as int)) + 2 * k == 64,
            !pairs_split_char(cs@.skip(i as int)),
            hex_pairs(cs@) == match hex_pairs(cs@.skip(i as int)) {
                Some(rest) => Some(hash@.take(k as int) + rest),
                None => None,
            },
        decreases cs.len() - i,
    {
        let ghost t = cs@.skip(i as int);
        assert(t[0] == cs@[i as int]);
        if char_utf8_len(cs[i]) != 1 {
            return None;
        }
        assert(t.len() >= 2 && utf8_len(t[1]) == 1);
        assert(t[1] == cs@[i + 1]);
        let b = match hex_pair_of(cs[i], cs[i + 1]) {
            None => return None,
            Some(b) => b,
        };
        proof {
            lemma_utf8_size_front(t);
            lemma_utf8_size_front(t.skip(1));
            assert(t.skip(1).skip(1) =~= cs@.skip(i + 2));
            assert(t.skip(2) =~= cs@.skip(i + 2));
        }
        let ghost old_hash = hash@;
        hash[k] = b;
        proof {
            assert(hash@.take(k + 1) =~= old_hash.take(k as int).push(b));
            match hex_pairs(cs@.skip(i + 2)) {
                Some(rest) => assert(old_hash.take(k as int) + (seq![b] + rest) =~= hash@.take(
                    k + 1,
                ) + rest),
                None => {},
            }
        }
        k += 1;
        i += 2;
    }
    assert(cs@.skip(i as int) =~= seq![]);
    assert(hash@.take(32) =~= hash@);
    assert(hash@.take(k as int) + seq![] =~= hash@);
    Some(hash)
}

pub proof fn lemma_hex_of_front(b: Seq<u8>)
    requires
        b.len() > 0,
    ensures
        hex_of(b) == seq![hex_digit(b[0] / 16), hex_digit(b[0] % 16)] + hex_of(b.skip(1)),
    decreases b.len(),
{
    if b.len() == 1 {
        assert(b.drop_last() =~= seq![]);
        assert(b.skip(1) =~= seq![]);
        assert(hex_of(b.skip(1)) == Seq::<char>::empty());
        assert(hex_of(b.drop_last()) == Seq::<char>::empty());
    } else {
        lemma_hex_of_front(b.drop_last());
        assert(b.skip(1).drop_last() =~= b.drop_last().skip(1));
        assert(b.skip(1).last() == b.last());
    }
}

proof fn lemma_hex_digit_value(n: u8)
    requires
        n < 16,
    ensures
        hex_value(hex_digit(n)) == Some(n),
        utf8_len(hex_digit(n)) == 1,
        hex_digit(n) != '+',
{
}

/// The hexadecimal text of a byte sequence reads back as those bytes, two
/// characters (and two bytes of UTF-8) per byte.
pub proof fn lemma_hex_pairs_of_hex(b: Seq<u8>)
    ensures
        utf8_size(hex_of(b)) == 2 * b.len(),
        !pairs_split_char(hex_of(b)),
        hex_pairs(hex_of(b)) == Some(b),
    decreases b.len(),
{
    if b.len() == 0 {
        assert(hex_of(b) =~= seq![]);
    } else {
        let h = hex_of(b);
        lemma_hex_of_front(b);
        lemma_hex_pairs_of_hex(b.skip(1));
        lemma_hex_digit_value(b[0] / 16);
        lemma_hex_digit_value(b[0] % 16);
        assert(h.skip(2) =~= hex_of(b.skip(1)));
        assert(h.skip(1).skip(1) =~= h.skip(2));
        lemma_utf8_size_front(h);
        lemma_utf8_size_front(h.skip(1));
        assert(16 * (b[0] / 16) + b[0] % 16 == b[0]);
        assert(seq![b[0]] + b.skip(1) =~= b);
    }
}

/// A content hash written by `hash_hex` is read back unchanged by `parse_hash_hex`.
pub proof fn lemma_hash_hex_round_trip(hash: [u8; 32])
    ensures
        utf8_size(hex_of(hash@)) == 64,
        !pairs_split_char(hex_of(hash@)),
        hex_pairs(hex_of(hash@)) == Some(hash@),
{
    lemma_hex_pairs_of_hex(hash@);
}

/// A stored single-word feature: its blob read as a little-endian `u64` when it
/// holds exactly eight bytes.
pub open spec fn u64_feature_value(feature: Option<FileFeature>) -> Option<u64> {
    match feature {
        Some(f) => if f.feature_blob@.len() == 8 {
            Some(spec_u64_from_le_bytes(f.feature_blob@))
        } else {
            None
        },
        None => None,
    }
}

/// Single-word feature (a SimHash or a dHash) read from its stored blob.
pub fn u64_feature(feature: Option<FileFeature>) -> (r: Option<u64>)
    ensures
        r == u64_feature_value(feature),
{
    match feature {
        Some(f) => if f.feature_blob.len() == 8 {
            Some(u64_from_le_bytes(f.feature_blob.as_slice()))
        } else {
            None
        },
        None => None,
    }
}

/// The components of a MinHash blob: component `i` is the little-endian word at
/// bytes `8 * i .. 8 * i + 8`.
pub open spec fn minhash_components(blob: Seq<u8>) -> Seq<u64> {
    Seq::new(32, |i: int| spec_u64_from_le_bytes(blob.subrange(8 * i, 8 * i + 8)))
}

pub open spec fn minhash_feature_value(feature: Option<FileFeature>) -> Option<Seq<u64>> {
    match feature {
        Some(f) => if f.feature_blob@.len() == 256 {
            Some(minhash_components(f.feature_blob@))
        } else {
            None
        },
        None => None,
    }
}

/// MinHash signature read from its stored blob of 32 little-endian words.
pub fn minhash_feature(feature: Option<FileFeature>) -> (r: Option<[u64; TEXT_MINHASH_COMPONENTS]>)
    ensures
        match r {
            Some(s) => minhash_feature_value(feature) == Some(s@),
            None => minhash_feature_value(feature) is None,
        },
{
    match feature {
        None => None,
        Some(f) => {
            if f.feature_blob.len() != 256 {
                return None;
            }
            let mut sig = [0u64; TEXT_MINHASH_COMPONENTS];
            let mut i: usize = 0;
            while i < 32
                invariant
                    i <= 32,
                    f.feature_blob@.len() == 256,
                    sig@.len() == 32,
                    forall|j: int|
                        0 <= j < i ==> sig@[j] == spec_u64_from_le_bytes(
                            f.feature_blob@.subrange(8 * j, 8 * j + 8),
                        ),
                decreases 32 - i,
            {
                let part = slice_subrange(f.feature_blob.as_slice(), 8 * i, 8 * i + 8);
                sig[i] = u64_from_le_bytes(part);
                i += 1;
            }
            assert(sig@ =~= minhash_components(f.feature_blob@));
            Some(sig)
        },
    }
}

/// Little-endian bytes of a sequence of words, word after word.
pub open spec fn le_blob(s: Seq<u64>) -> Seq<u8>
    decreases s.len(),
{
    if s.len() == 0 {
        seq![]
    } else {
        le_blob(s.drop_last()) + spec_u64_to_le_bytes(s.last())
    }
}

/// Stored blob of a MinHash signature.
pub fn minhash_blob(signature: &[u64; TEXT_MINHASH_COMPONENTS]) -> (r: Vec<u8>)
    ensures
        r@ == le_blob(signature@),
{
    let mut out: Vec<u8> = Vec::new();
    let mut i: usize = 0;
    assert(signature@.take(0) =~= seq![]);
    while i < 32
        invariant
            i <= 32,
            signature@.len() == 32,
            out@ == le_blob(signature@.take(i as int)),
        decreases 32 - i,
    {
        let mut bytes = u64_to_le_bytes(signature[i]);
        out.append(&mut bytes);
        i += 1;
        assert(signature@.take(i as int).drop_last() =~= signature@.take(i - 1));
    }
    assert(signature@.take(32) =~= signature@);
    out
}

proof fn lemma_le_blob_part(s: Seq<u64>, i: int)
    requires
        0 <= i < s.len(),
    ensures
        le_blob(s).len() == 8 * s.len(),
        le_blob(s).subrange(8 * i, 8 * i + 8) == spec_u64_to_le_bytes(s[i]),
    decreases s.len(),
{
    lemma_auto_spec_u64_to_from_le_bytes();
    if s.len() == 1 {
        assert(s.drop_last() =~= seq![]);
        assert(le_blob(s.drop_last()) == Seq::<u8>::empty());
        assert(le_blob(s) =~= spec_u64_to_le_bytes(s[0]));
    } else if i == s.len() - 1 {
        lemma_le_blob_part(s.drop_last(), 0);
        assert(le_blob(s).subrange(8 * i, 8 * i + 8) =~= spec_u64_to_le_bytes(s.last()));
    } else {
        lemma_le_blob_part(s.drop_last(), i);
        assert(le_blob(s).subrange(8 * i, 8 * i + 8) =~= le_blob(s.drop_last()).subrange(
            8 * i,
            8 * i + 8,
        ));
    }
}

/// A signature written by `minhash_blob` is read back unchanged by `minhash_feature`.
pub proof fn lemma_minhash_blob_round_trip(signature: [u64; TEXT_MINHASH_COMPONENTS])
    ensures
        le_blob(signature@).len() == 256,
        minhash_components(le_blob(signature@)) == signature@,
{
    lemma_auto_spec_u64_to_from_le_bytes();
    lemma_le_blob_part(signature@, 0);
    assert forall|i: int| 0 <= i < 32 implies #[trigger] minhash_components(le_blob(signature@))[i]
        == signature@[i] by {
        lemma_le_blob_part(signature@, i);
    }
    assert(minhash_components(le_blob(signature@)) =~= signature@);
}

/// One item of an operation as the history shows it.
#[derive(Debug, Clone, PartialEq, Eq)]
pub struct OperationItemView {
    pub ordinal: i64,
    pub status: String,
    pub source_path: String,
    pub target_path: String,
    pub error_message: Option<String>,
}

/// An operation as the history shows it.
#[derive(Debug, Clone, PartialEq, Eq)]
pub struct OperationView {
    pub id: String,
    pub operation_kind: String,
    pub status: String,
    pub created_at_ms: i64,
    pub completed_at_ms: Option<i64>,
    pub error_message: Option<String>,
    pub items: Vec<OperationItemView>,
}

pub open spec fn item_view_of(item: StoredOperationItem) -> OperationItemView {
    OperationItemView {
        ordinal: item.ordinal,
        status: item.status,
        source_path: item.source_path,
        target_path: item.target_path,
        error_message: item.error_message,
    }
}

fn clone_opt_string(o: &Option<String>) -> (r: Option<String>)
    ensures
        r == *o,
{
    match o {
        Some(s) => Some(s.clone()),
        None => None,
    }
}

fn clone_strings(v: &Vec<String>) -> (r: Vec<String>)
    ensures
        r@ == v@,
{
    let mut r: Vec<String> = Vec::new();
    let mut i: usize = 0;
    while i < v.len()
        invariant
            i <= v.len(),
            r@ == v@.take(i as int),
        decreases v.len() - i,
    {
        r.push(v[i].clone());
        i += 1;
        assert(r@ =~= v@.take(i as int));
    }
    assert(v@.take(v.len() as int) =~= v@);
    r
}

/// History record of a stored operation: its fields and items as stored, and the
/// kind by its name.
pub fn operation_view(operation: StoredOperation) -> (r: OperationView)
    ensures
        r.id == operation.id,
        r.operation_kind@ == operation_kind_name(operation.operation_kind),
        r.status == operation.status,
        r.created_at_ms == operation.created_at_ms,
        r.completed_at_ms == operation.completed_at_ms,
        r.error_message == operation.error_message,
        r.items@ == operation.items@.map_values(|item: StoredOperationItem| item_view_of(item)),
{
    let mut items: Vec<OperationItemView> = Vec::new();
    let mut i: usize = 0;
    while i < operation.items.len()
        invariant
            i <= operation.items.len(),
            items@ == operation.items@.take(i as int).map_values(
                |item: StoredOperationItem| item_view_of(item),
            ),
        decreases operation.items.len() - i,
    {
        let item = &operation.items[i];
        items.push(
            OperationItemView {
                ordinal: item.ordinal,
                status: item.status.clone(),
                source_path: item.source_path.clone(),
                target_path: item.target_path.clone(),
                error_message: clone_opt_string(&item.error_message),
            },
        );
        i += 1;
        assert(items@ =~= operation.items@.take(i as int).map_values(
            |item: StoredOperationItem| item_view_of(item),
        ));
    }
    assert(operation.items@.take(operation.items.len() as int) =~= operation.items@);
    OperationView {
        id: operation.id,
        operation_kind: string_from_str(operation.operation_kind.as_str()),
        status: operation.status,
        created_at_ms: operation.created_at_ms,
        completed_at_ms: operation.completed_at_ms,
        error_message: operation.error_message,
        items,
    }
}

/// An indexed file with the canonical path it was found under.
#[derive(Debug, Clone, PartialEq, Eq)]
pub struct IndexedPath {
    pub path: String,
    pub file: IndexedFile,
}

/// One file of a duplicate group as the interface shows it.
#[derive(Debug, Clone, PartialEq, Eq)]
pub struct DuplicateFileView {
    pub file_id: String,
    pub path: String,
    pub retention_score: i32,
    pub reasons: Vec<String>,
    pub suggested_keep: bool,
}

/// A duplicate group as the interface shows it.
#[derive(Debug, Clone, PartialEq, Eq)]
pub struct DuplicateGroupView {
    pub id: String,
    pub size: u64,
    pub potential_savings: u64,
    pub paths: Vec<String>,
    pub suggested_keep: String,
    pub files: Vec<DuplicateFileView>,
}

/// Position of the last indexed entry whose path equals `p` component by
/// component (the entry that a path-keyed map built from them keeps).
pub open spec fn last_match(entries: Seq<IndexedPath>, p: Seq<char>) -> Option<int>
    decreases entries.len(),
{
    if entries.len() == 0 {
        None
    } else if path_eq(entries.last().path@, p) {
        Some(entries.len() - 1)
    } else {
        last_match(entries.drop_last(), p)
    }
}

/// Retention inputs of a group: each path that is indexed, with the modification
/// time of its entry, in group order.
pub open spec fn retention_inputs(paths: Seq<String>, entries: Seq<IndexedPath>) -> Seq<RetentionInput>
    decreases paths.len(),
{
    if paths.len() == 0 {
        seq![]
    } else {
        let rest = retention_inputs(paths.drop_last(), entries);
        match last_match(entries, paths.last()@) {
            Some(k) => rest.push(
                RetentionInput { path: paths.last(), modified_at_ns: entries[k].file.modified_at_ns },
            ),
            None => rest,
        }
    }
}

/// Bytes freed by keeping one copy of a group: the size times the other copies,
/// saturating.
pub open spec fn potential_savings_of(size: u64, count: nat) -> u64 {
    let others: nat = if count == 0 {
        0
    } else {
        (count - 1) as nat
    };
    if size * others > u64::MAX {
        u64::MAX
    } else {
        (size * others) as u64
    }
}

/// The file view shows ranked input `i`: its path, score and reasons, the id of
/// its indexed entry, and whether it is the suggested copy.
pub open spec fn shows_ranked_file(
    v: DuplicateFileView,
    inputs: Seq<RetentionInput>,
    i: int,
    entries: Seq<IndexedPath>,
    keep: Seq<char>,
) -> bool {
    &&& v.path@ == inputs[i].path@
    &&& v.retention_score == retention_score(inputs, i)
    &&& strings_view(v.reasons@) == retention_reasons(inputs, i)
    &&& last_match(entries, inputs[i].path@) matches Some(e) && v.file_id == entries[e].file.id
    &&& v.suggested_keep == (v.path@ == keep)
}

fn find_indexed(entries: &Vec<IndexedPath>, p: &Vec<char>) -> (r: Option<usize>)
    ensures
        r matches Some(k) ==> last_match(entries@, p@) == Some(k as int) && k < entries.len(),
        r is None ==> last_match(entries@, p@) is None,
{
    let mut i: usize = entries.len();
    assert(entries@.take(i as int) =~= entries@);
    while i > 0
        invariant
            i <= entries.len(),
            last_match(entries@, p@) == last_match(entries@.take(i as int), p@),
        decreases i,
    {
        let q = chars_of(entries[i - 1].path.as_str());
        assert(entries@.take(i as int).drop_last() =~= entries@.take(i - 1));
        if same_path(&q, p) {
            return Some(i - 1);
        }
        i -= 1;
    }
    None
}

proof fn lemma_retention_inputs_indexed(paths: Seq<String>, entries: Seq<IndexedPath>, j: int)
    requires
        0 <= j < retention_inputs(paths, entries).len(),
    ensures
        last_match(entries, retention_inputs(paths, entries)[j].path@) is Some,
    decreases paths.len(),
{
    if paths.len() > 0 {
        let rest = retention_inputs(paths.drop_last(), entries);
        if j < rest.len() {
            lemma_retention_inputs_indexed(paths.drop_last(), entries, j);
        }
    }
}

/// The view of one exact-duplicate group: its hash as id, its paths, the
/// retention ranking of its indexed files, and the suggested copy to keep (the
/// best ranked file, else the first path).
pub fn duplicate_group_view(group: DuplicateGroup, indexed: &Vec<IndexedPath>) -> (r: DuplicateGroupView)
    ensures
        r.id@ == hex_of(group.content_hash@),
        r.size == group.size,
        r.potential_savings == potential_savings_of(group.size, group.paths.len() as nat),
        r.paths@ == group.paths@,
        ({
            let inputs = retention_inputs(group.paths@, indexed@);
            &&& r.files.len() == inputs.len()
            &&& exists|order: Seq<usize>|
                {
                    &&& is_stable_key_order(retention_keys(inputs), order)
                    &&& forall|k: int|
                        0 <= k < r.files.len() ==> shows_ranked_file(
                            #[trigger] r.files@[k],
                            inputs,
                            order[k] as int,
                            indexed@,
                            r.suggested_keep@,
                        )
                    &&& inputs.len() > 0 ==> r.suggested_keep@ == inputs[order[0] as int].path@
                }
            &&& inputs.len() == 0 ==> r.suggested_keep@ == if group.paths.len() > 0 {
                group.paths@[0]@
            } else {
                Seq::<char>::empty()
            }
        }),
{
    let ghost all_paths = group.paths@;
    let mut inputs: Vec<RetentionInput> = Vec::new();
    let mut i: usize = 0;
    assert(all_paths.take(0) =~= seq![]);
    while i < group.paths.len()
        invariant
            i <= group.paths.len(),
            all_paths == group.paths@,
            inputs@ == retention_inputs(all_paths.take(i as int), indexed@),
        decreases group.paths.len() - i,
    {
        let p = chars_of(group.paths[i].as_str());
        assert(all_paths.take(i + 1).drop_last() =~= all_paths.take(i as int));
        assert(all_paths.take(i + 1).last() == all_paths[i as int]);
        match find_indexed(indexed, &p) {
            Some(k) => {
                inputs.push(
                    RetentionInput {
                        path: group.paths[i].clone(),
                        modified_at_ns: indexed[k].file.modified_at_ns,
                    },
                );
            },
            None => {},
        }
        i += 1;
    }
    assert(all_paths.take(group.paths.len() as int) =~= all_paths);
    let ghost ins = inputs@;
    let ranked = rank_duplicate_retention(&inputs);
    let ghost order = choose|order: Seq<usize>|
        is_stable_key_order(retention_keys(ins), order) && forall|k: int|
            0 <= k < ranked.len() ==> recommends_input(#[trigger] ranked@[k], ins, order[k] as int);
    let suggested_keep = if ranked.len() > 0 {
        ranked[0].path.clone()
    } else if group.paths.len() > 0 {
        group.paths[0].clone()
    } else {
        String::new()
    };
    proof {
        if ranked.len() > 0 {
            assert(recommends_input(ranked@[0], ins, order[0] as int));
        }
    }
    let mut files: Vec<DuplicateFileView> = Vec::new();
    let mut j: usize = 0;
    while j < ranked.len()
        invariant
            j <= ranked.len(),
            ranked.len() == ins.len(),
            ins == retention_inputs(all_paths, indexed@),
            is_stable_key_order(retention_keys(ins), order),
            forall|k: int|
                0 <= k < ranked.len() ==> recommends_input(#[trigger] ranked@[k], ins, order[k] as int),
            files.len() == j,
            forall|k: int|
                0 <= k < j ==> shows_ranked_file(
                    #[trigger] files@[k],
                    ins,
                    order[k] as int,
                    indexed@,
                    suggested_keep@,
                ),
        decreases ranked.len() - j,
    {
        let rec = &ranked[j];
        assert(recommends_input(ranked@[j as int], ins, order[j as int] as int));
        let p = chars_of(rec.path.as_str());
        proof {
            lemma_retention_inputs_indexed(all_paths, indexed@, order[j as int] as int);
        }
        let k = match find_indexed(indexed, &p) {
            Some(k) => k,
            None => {
                assert(false);
                0
            },
        };
        let keep = rec.path == suggested_keep;
        files.push(
            DuplicateFileView {
                file_id: indexed[k].file.id.clone(),
                path: rec.path.clone(),
                retention_score: rec.score,
                reasons: clone_strings(&rec.reasons),
                suggested_keep: keep,
            },
        );
        j += 1;
    }
    let count = group.paths.len() as u64;
    let others: u64 = if count == 0 {
        0
    } else {
        count - 1
    };
    let savings: u64 = match group.size.checked_mul(others) {
        Some(v) => v,
        None => u64::MAX,
    };
    let mut paths: Vec<String> = Vec::new();
    let mut m: usize = 0;
    while m < group.paths.len()
        invariant
            m <= group.paths.len(),
            paths@ == group.paths@.take(m as int),
        decreases group.paths.len() - m,
    {
        paths.push(group.paths[m].clone());
        m += 1;
        assert(paths@ =~= group.paths@.take(m as int));
    }
    assert(group.paths@.take(group.paths.len() as int) =~= group.paths@);
    DuplicateGroupView {
        id: hash_hex(group.content_hash),
        size: group.size,
        potential_savings: savings,
        paths,
        suggested_keep,
        files,
    }
}

proof fn lemma_char_code_injective(a: char, b: char)
    requires
        a as u32 == b as u32,
    ensures
        a == b,
{
}

proof fn lemma_text_key_injective(a: Seq<char>, b: Seq<char>)
    requires
        text_key(a) == text_key(b),
    ensures
        a == b,
{
    assert(text_key(a).len() == a.len() + 1);
    assert(text_key(b).len() == b.len() + 1);
    assert forall|k: int| 0 <= k < a.len() implies a[k] == b[k] by {
        assert(text_key(a)[k] == text_key(b)[k]);
        assert(text_key(a)[k] == ((a[k] as u32) as u64 + 1) as u64);
        assert(text_key(b)[k] == ((b[k] as u32) as u64 + 1) as u64);
        assert((a[k] as u32) as u64 == (b[k] as u32) as u64);
        assert(a[k] as u32 == b[k] as u32);
        lemma_char_code_injective(a[k], b[k]);
    }
    assert(a =~= b);
}

pub open spec fn strings_sorted(v: Seq<String>) -> bool {
    forall|x: int, y: int| 0 <= x < y < v.len() ==> lex_lt(text_key(#[trigger] v[x]@), text_key(#[trigger] v[y]@))
}

pub open spec fn holds_text(v: Seq<String>, s: Seq<char>) -> bool {
    exists|x: int| 0 <= x < v.len() && #[trigger] v[x]@ == s
}

/// The file ids of an organize request: refused when there are none or more than
/// 500, else each id once, in `String` order.
pub fn organize_request_ids(file_ids: &Vec<String>) -> (r: Result<Vec<String>, String>)
    ensures
        file_ids.len() == 0 ==> (r matches Err(m) && m@ == "请先选择至少一个文件"@),
        file_ids.len() > 500 ==> (r matches Err(m) && m@ == "单次最多整理 500 个文件"@),
        0 < file_ids.len() <= 500 ==> (r matches Ok(v) && strings_sorted(v@) && forall|s: Seq<char>|
            holds_text(v@, s) <==> holds_text(file_ids@, s)),
{
    if file_ids.len() == 0 {
        return Err(string_from_str("请先选择至少一个文件"));
    }
    if file_ids.len() > 500 {
        return Err(string_from_str("单次最多整理 500 个文件"));
    }
    let mut keys: Vec<Vec<u64>> = Vec::new();
    let mut i: usize = 0;
    while i < file_ids.len()
        invariant
            i <= file_ids.len(),
            keys.len() == i,
            forall|y: int| 0 <= y < i ==> (#[trigger] keys@[y])@ == text_key(file_ids@[y]@),
        decreases file_ids.len() - i,
    {
        keys.push(text_key_of(&file_ids[i]));
        i += 1;
    }
    let ghost kv = keys_view(keys@);
    let ps = sort_distinct_positions(&keys, 0, keys.len());
    let mut out: Vec<String> = Vec::new();
    let mut t: usize = 0;
    while t < ps.len()
        invariant
            t <= ps.len(),
            kv == keys_view(keys@),
            keys.len() == file_ids.len(),
            forall|y: int| 0 <= y < keys.len() ==> (#[trigger] keys@[y])@ == text_key(file_ids@[y]@),
            keys_increasing(kv, ps@),
            out.len() == t,
            forall|y: int| 0 <= y < t ==> (#[trigger] out@[y]) == file_ids@[ps@[y] as int],
        decreases ps.len() - t,
    {
        out.push(file_ids[ps[t]].clone());
        t += 1;
    }
    proof {
        assert forall|x: int, y: int| 0 <= x < y < out.len() implies lex_lt(
            text_key(#[trigger] out@[x]@),
            text_key(#[trigger] out@[y]@),
        ) by {
            assert(lex_lt(kv[ps@[x] as int], kv[ps@[y] as int]));
        }
        assert forall|s: Seq<char>| holds_text(out@, s) <==> holds_text(file_ids@, s) by {
            if holds_text(out@, s) {
                let x = choose|x: int| 0 <= x < out.len() && #[trigger] out@[x]@ == s;
                assert(file_ids@[ps@[x] as int]@ == s);
            }
            if holds_text(file_ids@, s) {
                let y = choose|y: int| 0 <= y < file_ids.len() && #[trigger] file_ids@[y]@ == s;
                assert(kv[y] == text_key(s));
                assert(range_has_key(kv, 0, keys.len() as int, text_key(s)));
                let x = choose|x: int| 0 <= x < ps@.len() && #[trigger] kv[ps@[x] as int] == text_key(s);
                lemma_text_key_injective(file_ids@[ps@[x] as int]@, s);
                assert(out@[x]@ == s);
            }
        }
    }
    Ok(out)
}

/// Names reserved in each category directory while an organize plan is built.
pub struct OrganizePlanner {
    reserved: Vec<(FileCategory, Vec<String>)>,
}

pub open spec fn reserved_map(v: Seq<(FileCategory, Vec<String>)>) -> Map<FileCategory, Seq<Seq<char>>>
    decreases v.len(),
{
    if v.len() == 0 {
        Map::empty()
    } else {
        reserved_map(v.drop_last()).insert(v.last().0, v.last().1@.map_values(|s: String| s@))
    }
}

impl View for OrganizePlanner {
    type V = Map<FileCategory, Seq<Seq<char>>>;

    closed spec fn view(&self) -> Map<FileCategory, Seq<Seq<char>>> {
        reserved_map(self.reserved@)
    }
}

impl OrganizePlanner {
    #[verifier::type_invariant]
    closed spec fn distinct_categories(self) -> bool {
        forall|x: int, y: int|
            0 <= x < y < self.reserved@.len() ==> (#[trigger] self.reserved@[x]).0 != (#[trigger] self.reserved@[y]).0
    }

    /// A planner with no directory read yet.
    pub fn new() -> (r: Self)
        ensures
            r@ == Map::<FileCategory, Seq<Seq<char>>>::empty(),
    {
        OrganizePlanner { reserved: Vec::new() }
    }

    fn position(&self, category: FileCategory) -> (r: Option<usize>)
        ensures
            match r {
                Some(k) => k < self.reserved@.len() && self.reserved@[k as int].0 == category,
                None => forall|x: int| 0 <= x < self.reserved@.len() ==> (#[trigger] self.reserved@[x]).0 != category,
            },
    {
        let mut k: usize = 0;
        while k < self.reserved.len()
            invariant
                k <= self.reserved@.len(),
                forall|x: int| 0 <= x < k ==> (#[trigger] self.reserved@[x]).0 != category,
            decreases self.reserved.len() - k,
        {
            if self.reserved[k].0 == category {
                return Some(k);
            }
            k += 1;
        }
        None
    }

    proof fn lemma_view_at(v: Seq<(FileCategory, Vec<String>)>, k: int)
        requires
            0 <= k < v.len(),
            forall|x: int, y: int| 0 <= x < y < v.len() ==> (#[trigger] v[x]).0 != (#[trigger] v[y]).0,
        ensures
            reserved_map(v).contains_key(v[k].0),
            reserved_map(v)[v[k].0] == v[k].1@.map_values(|s: String| s@),
        decreases v.len(),
    {
        if k < v.len() - 1 {
            Self::lemma_view_at(v.drop_last(), k);
            assert(v.drop_last()[k] == v[k]);
            assert(v.last().0 != v[k].0);
        }
    }

    proof fn lemma_view_domain(v: Seq<(FileCategory, Vec<String>)>, c: FileCategory)
        ensures
            reserved_map(v).contains_key(c) <==> exists|x: int| 0 <= x < v.len() && (#[trigger] v[x]).0 == c,
        decreases v.len(),
    {
        if v.len() > 0 {
            Self::lemma_view_domain(v.drop_last(), c);
            if exists|x: int| 0 <= x < v.drop_last().len() && (#[trigger] v.drop_last()[x]).0 == c {
                let x = choose|x: int| 0 <= x < v.drop_last().len() && (#[trigger] v.drop_last()[x]).0 == c;
                assert(v[x] == v.drop_last()[x]);
            }
            if exists|x: int| 0 <= x < v.len() && (#[trigger] v[x]).0 == c {
                let x = choose|x: int| 0 <= x < v.len() && (#[trigger] v[x]).0 == c;
                if x < v.len() - 1 {
                    assert(v.drop_last()[x] == v[x]);
                }
            }
        }
    }

    /// Whether the names in the category's directory have been read already.
    pub fn has_inventory(&self, category: FileCategory) -> (r: bool)
        ensures
            r == self@.contains_key(category),
    {
        proof {
            Self::lemma_view_domain(self.reserved@, category);
        }
        self.position(category).is_some()
    }

    /// Records the names found in the category's directory.
    pub fn add_inventory(&mut self, category: FileCategory, names: Vec<String>)
        requires
            !old(self)@.contains_key(category),
        ensures
            final(self)@ == old(self)@.insert(category, names@.map_values(|s: String| s@)),
    {
        proof {
            use_type_invariant(&*self);
            Self::lemma_view_domain(self.reserved@, category);
        }
        let ghost before = self.reserved@;
        let mut all: Vec<(FileCategory, Vec<String>)> = Vec::new();
        std::mem::swap(&mut all, &mut self.reserved);
        all.push((category, names));
        proof {
            assert(all@.drop_last() == before);
            assert forall|x: int, y: int| 0 <= x < y < all@.len() implies (#[trigger] all@[x]).0 != (#[trigger] all@[y]).0 by {
                if y == before.len() {
                    assert(all@[x] == before[x]);
                } else {
                    assert(all@[x] == before[x] && all@[y] == before[y]);
                }
            }
        }
        self.reserved = all;
    }

    /// Reserves a name for a file in the category's directory: the desired name made
    /// unique against the names there and those reserved before.
    pub fn reserve(&mut self, category: FileCategory, desired: &str) -> (r: String)
        requires
            old(self)@.contains_key(category),
        ensures
            r@ == unique_filename_of(desired@, old(self)@[category]),
            final(self)@ == old(self)@.insert(category, old(self)@[category].push(r@)),
    {
        proof {
            use_type_invariant(&*self);
            Self::lemma_view_domain(self.reserved@, category);
        }
        let k = match self.position(category) {
            Some(k) => k,
            None => {
                assert(false);
                0
            },
        };
        proof {
            Self::lemma_view_at(self.reserved@, k as int);
        }
        let ghost before = self.reserved@;
        let name = unique_filename(desired, &self.reserved[k].1);
        let mut all: Vec<(FileCategory, Vec<String>)> = Vec::new();
        std::mem::swap(&mut all, &mut self.reserved);
        let mut names = clone_strings(&all[k].1);
        names.push(name.clone());
        let ghost new_names = names;
        all.set(k, (category, names));
        proof {
            assert(all@ == before.update(k as int, (category, new_names)));
            Self::lemma_update_view(before, k as int, new_names);
            assert(new_names@.map_values(|s: String| s@) =~= before[k as int].1@.map_values(|s: String| s@).push(name@));
            assert forall|x: int, y: int| 0 <= x < y < all@.len() implies (#[trigger] all@[x]).0 != (#[trigger] all@[y]).0 by {
                assert(all@[x].0 == before[x].0 && all@[y].0 == before[y].0);
            }
        }
        self.reserved = all;
        name
    }

    proof fn lemma_update_view(v: Seq<(FileCategory, Vec<String>)>, k: int, names: Vec<String>)
        requires
            0 <= k < v.len(),
            forall|x: int, y: int| 0 <= x < y < v.len() ==> (#[trigger] v[x]).0 != (#[trigger] v[y]).0,
        ensures
            reserved_map(v.update(k, (v[k].0, names))) == reserved_map(v).insert(v[k].0, names@.map_values(|s: String| s@)),
        decreases v.len(),
    {
        let u = v.update(k, (v[k].0, names));
        if k == v.len() - 1 {
            assert(u.drop_last() =~= v.drop_last());
            assert(reserved_map(u) =~= reserved_map(v).insert(v[k].0, names@.map_values(|s: String| s@)));
        } else {
            Self::lemma_update_view(v.drop_last(), k, names);
            assert(u.drop_last() =~= v.drop_last().update(k, (v[k].0, names)));
            assert(v.drop_last()[k] == v[k]);
            assert(v.last().0 != v[k].0);
            assert(reserved_map(u) =~= reserved_map(v).insert(v[k].0, names@.map_values(|s: String| s@)));
        }
    }
}

/// What the disk shows of an indexed path without following links.
#[derive(Debug, Clone, Copy, PartialEq, Eq, Structural)]
pub struct PathKind {
    pub is_file: bool,
    pub is_symlink: bool,
}

/// Why an indexed path may not be opened.
#[derive(Debug)]
pub enum AuthorizationError {
    Io(std::io::Error),
    NotARegularFile,
    OutsideRoot,
}

impl AuthorizationError {
    /// The message shown for a refusal other than an I/O failure.
    pub fn message(&self) -> (r: Option<&'static str>)
        ensures
            match self {
                AuthorizationError::Io(_) => r is None,
                AuthorizationError::NotARegularFile => r == Some("文件已经离开授权根目录或类型发生变化"),
                AuthorizationError::OutsideRoot => r == Some("文件已经离开授权根目录"),
            },
    {
        match self {
            AuthorizationError::Io(_) => None,
            AuthorizationError::NotARegularFile => Some("文件已经离开授权根目录或类型发生变化"),
            AuthorizationError::OutsideRoot => Some("文件已经离开授权根目录"),
        }
    }
}

/// Opens an indexed file only while it is a regular file, not a link, whose canonical
/// path lies under the library's canonical root; the canonical path is returned.
pub fn authorize_path(
    canonical_root: Result<String, std::io::Error>,
    kind: Result<PathKind, std::io::Error>,
    canonical_path: Result<String, std::io::Error>,
) -> (r: Result<String, AuthorizationError>)
    ensures
        match canonical_root {
            Err(e) => r matches Err(AuthorizationError::Io(x)) && x == e,
            Ok(root) => match kind {
                Err(e) => r matches Err(AuthorizationError::Io(x)) && x == e,
                Ok(k) => if !k.is_file || k.is_symlink {
                    r matches Err(AuthorizationError::NotARegularFile)
                } else {
                    match canonical_path {
                        Err(e) => r matches Err(AuthorizationError::Io(x)) && x == e,
                        Ok(path) => if path_starts_with(path@, root@) {
                            r matches Ok(p) && p@ == path@
                        } else {
                            r matches Err(AuthorizationError::OutsideRoot)
                        },
                    }
                },
            },
        },
{
    let root = match canonical_root {
        Ok(root) => root,
        Err(e) => return Err(AuthorizationError::Io(e)),
    };
    let k = match kind {
        Ok(k) => k,
        Err(e) => return Err(AuthorizationError::Io(e)),
    };
    if !k.is_file || k.is_symlink {
        return Err(AuthorizationError::NotARegularFile);
    }
    let path = match canonical_path {
        Ok(path) => path,
        Err(e) => return Err(AuthorizationError::Io(e)),
    };
    let pv = chars_of(path.as_str());
    let rv = chars_of(root.as_str());
    if starts_with(&pv, &rv) {
        Ok(path)
    } else {
        Err(AuthorizationError::OutsideRoot)
    }
}

/// `s` with Unicode white space removed from its start.
pub open spec fn trim_white_start(s: Seq<char>) -> Seq<char>
    decreases s.len(),
{
    if s.len() > 0 && is_white_space(s[0]) {
        trim_white_start(s.drop_first())
    } else {
        s
    }
}

/// `s` with Unicode white space removed from its end.
pub open spec fn trim_white_end(s: Seq<char>) -> Seq<char>
    decreases s.len(),
{
    if s.len() > 0 && is_white_space(s.last()) {
        trim_white_end(s.drop_last())
    } else {
        s
    }
}

/// `str::trim`: white space removed from both ends.
pub open spec fn trimmed(s: Seq<char>) -> Seq<char> {
    trim_white_end(trim_white_start(s))
}

/// A string with the white space at both of its ends removed.
pub fn trim_text(s: &str) -> (r: String)
    ensures
        r@ == trimmed(s@),
{
    let v = chars_of(s);
    let mut i: usize = 0;
    assert(v@.skip(0) =~= v@);
    while i < v.len() && char_is_whitespace(v[i])
        invariant
            i <= v.len(),
            v@ == s@,
            trim_white_start(s@) == trim_white_start(v@.skip(i as int)),
        decreases v.len() - i,
    {
        assert(v@.skip(i as int).drop_first() =~= v@.skip(i + 1));
        i += 1;
    }
    assert(trim_white_start(v@.skip(i as int)) == v@.skip(i as int));
    let ghost t = v@.skip(i as int);
    let mut j: usize = v.len();
    while j > i && char_is_whitespace(v[j - 1])
        invariant
            i <= j <= v.len(),
            t == v@.skip(i as int),
            trim_white_end(t) == trim_white_end(v@.subrange(i as int, j as int)),
        decreases j,
    {
        assert(v@.subrange(i as int, j as int).drop_last() =~= v@.subrange(i as int, j - 1));
        j -= 1;
    }
    assert(trim_white_end(v@.subrange(i as int, j as int)) == v@.subrange(i as int, j as int));
    assert(v@.skip(i as int) =~= v@.subrange(i as int, v.len() as int));
    let mut out = String::new();
    let mut k: usize = i;
    while k < j
        invariant
            i <= k <= j <= v.len(),
            out@ == v@.subrange(i as int, k as int),
        decreases j - k,
    {
        crate::text::string_push(&mut out, v[k]);
        k += 1;
        assert(out@ =~= v@.subrange(i as int, k as int));
    }
    out
}

/// The first `n` characters of a string, or all of it when it is shorter.
pub fn take_chars(s: &str, n: usize) -> (r: String)
    ensures
        r@ == if s@.len() <= n { s@ } else { s@.take(n as int) },
{
    let v = chars_of(s);
    let end = if v.len() <= n {
        v.len()
    } else {
        n
    };
    let mut out = String::new();
    let mut k: usize = 0;
    while k < end
        invariant
            k <= end <= v.len(),
            v@ == s@,
            out@ == v@.take(k as int),
        decreases end - k,
    {
        crate::text::string_push(&mut out, v[k]);
        k += 1;
        assert(out@ =~= v@.take(k as int));
    }
    assert(v@.take(v.len() as int) =~= v@);
    out
}

/// The name and query of a smart folder: both trimmed, refused when either is empty,
/// and kept to 80 and 300 characters. (The trimmed query must also parse as a search,
/// which is checked before the folder is saved.)
pub fn smart_folder_fields(name: &str, query: &str) -> (r: Result<(String, String), String>)
    ensures
        trimmed(name@).len() == 0 || trimmed(query@).len() == 0 ==> (r matches Err(m) && m@
            == "名称和搜索条件不能为空"@),
        trimmed(name@).len() > 0 && trimmed(query@).len() > 0 ==> (r matches Ok((n, q)) && n@
            == (if trimmed(name@).len() <= 80 {
            trimmed(name@)
        } else {
            trimmed(name@).take(80)
        }) && q@ == (if trimmed(query@).len() <= 300 {
            trimmed(query@)
        } else {
            trimmed(query@).take(300)
        })),
{
    let n = trim_text(name);
    let q = trim_text(query);
    if n.as_str().unicode_len() == 0 || q.as_str().unicode_len() == 0 {
        return Err(string_from_str("名称和搜索条件不能为空"));
    }
    Ok((take_chars(n.as_str(), 80), take_chars(q.as_str(), 300)))
}

/// The file name of a path, or `fallback` when the path has none.
pub fn name_or(path: &str, fallback: &str) -> (r: String)
    ensures
        r@ == match file_name(path@) {
            Some(n) => n,
            None => fallback@,
        },
{
    let pv = chars_of(path);
    match file_name_of(&pv) {
        Some(n) => crate::text::string_from_chars(&n),
        None => string_from_str(fallback),
    }
}

/// Most bytes of a text shown in a preview.
pub const MAX_PREVIEW_BYTES: usize = 262144;

/// Cuts the bytes read for a preview (at most one more than it shows) to the preview's
/// length, and tells whether anything was cut.
pub fn cut_preview(bytes: &mut Vec<u8>) -> (r: bool)
    ensures
        r == (old(bytes)@.len() > MAX_PREVIEW_BYTES),
        final(bytes)@ == if r { old(bytes)@.take(MAX_PREVIEW_BYTES as int) } else { old(bytes)@ },
{
    let cut = bytes.len() > MAX_PREVIEW_BYTES;
    bytes.truncate(MAX_PREVIEW_BYTES);
    cut
}

/// The page a file-list request asks for: a cursor only when both its path and id are
/// given, and 100 files unless another number is asked, kept between 1 and 500.
pub fn page_request(
    after_path: Option<String>,
    after_id: Option<String>,
    limit: Option<usize>,
) -> (r: (Option<FilePageCursor>, usize))
    ensures
        match (after_path, after_id) {
            (Some(p), Some(i)) => r.0 matches Some(c) && c.path@ == p@ && c.id@ == i@,
            _ => r.0 is None,
        },
        r.1 == match limit {
            None => 100,
            Some(n) => if n < 1 {
                1
            } else if n > 500 {
                500
            } else {
                n
            },
        },
{
    let cursor = match (after_path, after_id) {
        (Some(path), Some(id)) => Some(FilePageCursor { path, id }),
        _ => None,
    };
    let requested = match limit {
        Some(n) => n,
        None => 100,
    };
    (cursor, crate::storage::page_limit(requested))
}


/// The text of a preview from the bytes read for it (at most one more than it shows):
/// the first `MAX_PREVIEW_BYTES` decoded leniently, and whether anything was cut.
pub fn preview_text(bytes: Vec<u8>) -> (r: (String, bool))
    ensures
        r.1 == (bytes@.len() > MAX_PREVIEW_BYTES),
        r.0@ == lossy_text_of(
            if r.1 {
                bytes@.take(MAX_PREVIEW_BYTES as int)
            } else {
                bytes@
            },
        ),
{
    let mut kept = bytes;
    let cut = cut_preview(&mut kept);
    (utf8_lossy(kept.as_slice()), cut)
}

} // verus!
