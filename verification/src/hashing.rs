//! Content digests through the blake2 crate.
//!
//! The digest itself is opaque: `blake2_of` names the 64-byte value that
//! blake2's `Blake2b` produces for a given byte stream, and every contract in
//! the crate speaks of digests through that name. What is verified here is the
//! streaming logic around the primitive: that feeding a byte stream in bounded
//! chunks digests exactly that stream.

use vstd::prelude::*;
use vstd::slice::slice_subrange;

verus! {

/// The digest that blake2's `Blake2b` computes for `data`: a function of the
/// bytes alone, never spelled out here.
pub uninterp spec fn blake2_of(data: Seq<u8>) -> Seq<u8>;

/// blake2's fixed-output hasher state, opaque to this crate.
#[verifier::external_type_specification]
#[verifier::external_body]
pub struct ExBlake2b(blake2::Blake2b);

/// How many bytes one incremental update feeds at most.
pub const CHUNK_SIZE: usize = 2048;

/// An incremental hasher over a byte stream. The ghost field records the
/// bytes fed so far, so that `finalize` can promise a digest of exactly that
/// stream.
pub struct StreamingHasher {
    inner: blake2::Blake2b,
    fed: Ghost<Seq<u8>>,
}

impl StreamingHasher {
    /// The byte stream fed into this hasher since it was created.
    pub closed spec fn bytes_fed(self) -> Seq<u8> {
        self.fed@
    }

    /// Relies on blake2::Blake2b::default: a fresh hasher, over the empty
    /// stream so far.
    #[verifier::external_body]
    fn new_inner() -> (h: Self)
        ensures
            h.bytes_fed() == Seq::<u8>::empty(),
    {
        StreamingHasher { inner: blake2::Blake2b::default(), fed: Ghost(Seq::empty()) }
    }

    /// Relies on digest::Digest::update for blake2::Blake2b: extends the
    /// hashed stream with `chunk`, nothing else.
    #[verifier::external_body]
    fn update_inner(&mut self, chunk: &[u8])
        ensures
            final(self).bytes_fed() == old(self).bytes_fed() + chunk@,
    {
        blake2::Digest::update(&mut self.inner, chunk);
    }

    /// Relies on digest::Digest::finalize for blake2::Blake2b: the 64-byte
    /// digest of exactly the bytes fed so far, depending on those bytes alone.
    #[verifier::external_body]
    fn finalize_inner(self) -> (d: Vec<u8>)
        ensures
            d@ == blake2_of(self.bytes_fed()),
            d@.len() == 64,
    {
        blake2::Digest::finalize(self.inner).to_vec()
    }

    /// A fresh hasher: no bytes fed yet.
    pub fn new() -> (h: Self)
        ensures
            h.bytes_fed() == Seq::<u8>::empty(),
    {
        Self::new_inner()
    }

    /// Feeds one more chunk of the stream into the hasher.
    pub fn update(&mut self, chunk: &[u8])
        ensures
            final(self).bytes_fed() == old(self).bytes_fed() + chunk@,
    {
        self.update_inner(chunk);
    }

    /// The 64-byte digest of exactly the stream fed so far.
    pub fn finalize(self) -> (d: Vec<u8>)
        ensures
            d@ == blake2_of(self.bytes_fed()),
            d@.len() == 64,
    {
        self.finalize_inner()
    }
}

/// Digests a byte string by feeding it through a `StreamingHasher` in
/// `CHUNK_SIZE` pieces, never holding more than one chunk beyond the input
/// itself.
pub fn hash_bytes(data: &[u8]) -> (d: Vec<u8>)
    ensures
        d@ == blake2_of(data@),
        d@.len() == 64,
{
    let mut h = StreamingHasher::new();
    let n = data.len();
    let mut i: usize = 0;
    while i < n
        invariant
            n == data@.len(),
            i <= n,
            h.bytes_fed() == data@.take(i as int),
        decreases n - i,
    {
        let j: usize = if n - i >= CHUNK_SIZE {
            i + CHUNK_SIZE
        } else {
            n
        };
        let chunk = slice_subrange(data, i, j);
        h.update(chunk);
        proof {
            assert(data@.take(j as int) =~= data@.take(i as int) + data@.subrange(
                i as int,
                j as int,
            ));
        }
        i = j;
    }
    proof {
        assert(data@.take(n as int) =~= data@);
    }
    h.finalize()
}

} // verus!
