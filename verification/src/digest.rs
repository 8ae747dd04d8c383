//! BLAKE3 digests.

use vstd::prelude::*;

verus! {

/// `blake3::Hasher`, the incremental hash state.
#[verifier::external_type_specification]
#[verifier::external_body]
pub struct ExBlake3Hasher(blake3::Hasher);

/// The BLAKE3 digest of some bytes, as `blake3::hash` computes it.
pub uninterp spec fn blake3_of(data: Seq<u8>) -> Seq<u8>;

/// The bytes that a hasher has taken in so far.
pub uninterp spec fn absorbed(h: blake3::Hasher) -> Seq<u8>;

/// `blake3::hash`: the digest of the bytes.
#[verifier::external_body]
fn blake3_hash(data: &[u8]) -> (digest: [u8; 32])
    ensures
        digest@ == blake3_of(data@),
{
    *blake3::hash(data).as_bytes()
}

/// `blake3::Hasher::new`: a hasher that has taken in nothing.
#[verifier::external_body]
fn hasher_new() -> (h: blake3::Hasher)
    ensures
        absorbed(h) == Seq::<u8>::empty(),
{
    blake3::Hasher::new()
}

/// `blake3::Hasher::update`: the bytes are taken in after those before.
#[verifier::external_body]
fn hasher_update(h: &mut blake3::Hasher, data: &[u8])
    ensures
        absorbed(*final(h)) == absorbed(*old(h)) + data@,
{
    h.update(data);
}

/// `blake3::Hasher::finalize`: the digest of all bytes taken in, the same that
/// `blake3::hash` gives for them at once.
#[verifier::external_body]
fn hasher_finalize(h: &blake3::Hasher) -> (digest: [u8; 32])
    ensures
        digest@ == blake3_of(absorbed(*h)),
{
    *h.finalize().as_bytes()
}

/// The digest of `data`.
pub fn digest(data: &[u8]) -> (r: [u8; 32])
    ensures
        r@ == blake3_of(data@),
{
    blake3_hash(data)
}

/// The digest of a file that comes in pieces.
pub struct FileHasher {
    inner: blake3::Hasher,
}

impl View for FileHasher {
    type V = Seq<u8>;

    /// The bytes taken in so far.
    closed spec fn view(&self) -> Seq<u8> {
        absorbed(self.inner)
    }
}

impl FileHasher {
    /// A hasher that has seen nothing.
    pub fn new() -> (h: FileHasher)
        ensures
            h@ == Seq::<u8>::empty(),
    {
        FileHasher { inner: hasher_new() }
    }

    /// Take in the next piece.
    pub fn update(&mut self, data: &[u8])
        ensures
            final(self)@ == old(self)@ + data@,
    {
        hasher_update(&mut self.inner, data);
    }

    /// The digest of everything taken in.
    pub fn finish(&self) -> (r: [u8; 32])
        ensures
            r@ == blake3_of(self@),
    {
        hasher_finalize(&self.inner)
    }
}

/// Whether two digests are the same.
pub fn same_digest(a: &[u8; 32], b: &[u8; 32]) -> (r: bool)
    ensures
        r == (a@ == b@),
{
    let mut i: usize = 0;
    while i < 32
        invariant
            i <= 32,
            forall|k: int| 0 <= k < i ==> a@[k] == b@[k],
        decreases 32 - i,
    {
        if a[i] != b[i] {
            return false;
        }
        i += 1;
    }
    assert(a@ =~= b@);
    true
}

} // verus!
