//! BLAKE3 digests, whole and incremental, taken from the `blake3` crate.
use vstd::prelude::*;

verus! {

/// Name for the BLAKE3 digest (32 bytes) of a byte sequence.
pub uninterp spec fn blake3_of(data: Seq<u8>) -> Seq<u8>;

/// `blake3::hash`: the 32-byte BLAKE3 digest of `data`. The contract claims only that
/// the digest is a function of the input bytes; the hash function itself is not stated.
/// Feeding the same bytes to a `blake3::Hasher` in several `update` calls gives the
/// same digest, as the crate documents.
#[verifier::external_body]
pub(crate) fn blake3_digest(data: &[u8]) -> (r: [u8; 32])
    ensures
        r@ == blake3_of(data@),
{
    *blake3::hash(data).as_bytes()
}


#[verifier::external_type_specification]
#[verifier::external_body]
pub struct ExHasher(blake3::Hasher);

/// Name for the bytes fed so far to an incremental `blake3::Hasher`.
pub uninterp spec fn hasher_input(h: blake3::Hasher) -> Seq<u8>;

/// `blake3::Hasher::new`: a hasher that has been fed nothing.
#[verifier::external_body]
pub(crate) fn hasher_new() -> (h: blake3::Hasher)
    ensures
        hasher_input(h) == Seq::<u8>::empty(),
{
    blake3::Hasher::new()
}

/// `blake3::Hasher::update`: appends `data` to what the hasher has been fed.
#[verifier::external_body]
pub(crate) fn hasher_update(h: &mut blake3::Hasher, data: &[u8])
    ensures
        hasher_input(*final(h)) == hasher_input(*old(h)) + data@,
{
    h.update(data);
}

/// `blake3::Hasher::finalize`: the digest of everything fed so far. The crate documents
/// that incremental hashing gives the same digest as `blake3::hash` of the
/// concatenated input, which is what this contract claims.
#[verifier::external_body]
pub(crate) fn hasher_finalize(h: &blake3::Hasher) -> (r: [u8; 32])
    ensures
        r@ == blake3_of(hasher_input(*h)),
{
    *h.finalize().as_bytes()
}

/// Incremental BLAKE3 over content that arrives in pieces, such as a file read in
/// blocks. Its view is the bytes fed so far.
pub struct ContentHasher {
    inner: blake3::Hasher,
}

impl ContentHasher {
    pub closed spec fn input(&self) -> Seq<u8> {
        hasher_input(self.inner)
    }

    /// A hasher that has been fed nothing.
    pub fn new() -> (r: ContentHasher)
        ensures
            r.input() == Seq::<u8>::empty(),
    {
        ContentHasher { inner: hasher_new() }
    }

    /// Feeds the next piece of content.
    pub fn update(&mut self, data: &[u8])
        ensures
            final(self).input() == old(self).input() + data@,
    {
        hasher_update(&mut self.inner, data);
    }

    /// The digest of everything fed so far: the same as that of all the pieces
    /// concatenated and hashed at once.
    pub fn finalize(&self) -> (r: [u8; 32])
        ensures
            r@ == blake3_of(self.input()),
    {
        hasher_finalize(&self.inner)
    }
}

} // verus!
