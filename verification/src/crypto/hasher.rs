//! Cryptographic hashers and their digests.
use vstd::prelude::*;

verus! {

/// Fixed-size byte strings: digests and seeds.
pub trait Digest: Sized {
    /// The bytes of this digest.
    spec fn bytes(&self) -> Seq<u8>;

    /// The number of bytes of a digest.
    spec fn size() -> nat;

    /// The number of bytes of a digest.
    fn byte_len() -> (r: usize)
        ensures
            r == Self::size(),
    ;

    /// The all-zero digest.
    fn zeroed() -> (r: Self)
        ensures
            r.bytes().len() == Self::size(),
            forall|i: int| 0 <= i < Self::size() ==> #[trigger] r.bytes()[i] == 0,
    ;

    /// The bytes of this digest.
    fn as_slice(&self) -> (r: &[u8])
        ensures
            r@ == self.bytes(),
    ;

    /// A copy of this digest.
    fn duplicate(&self) -> (r: Self)
        ensures
            r.bytes() == self.bytes(),
    ;

    /// The digest with the given bytes.
    fn from_slice(bytes: &[u8]) -> (r: Self)
        requires
            bytes@.len() == Self::size(),
        ensures
            r.bytes() == bytes@,
    ;

    /// Digests are determined by their bytes.
    proof fn lemma_bytes_injective(a: Self, b: Self)
        requires
            a.bytes() == b.bytes(),
        ensures
            a == b,
    ;
}

impl Digest for [u8; 32] {
    open spec fn bytes(&self) -> Seq<u8> {
        self@
    }

    open spec fn size() -> nat {
        32
    }

    fn byte_len() -> (r: usize) {
        32
    }

    fn zeroed() -> (r: Self) {
        [0u8; 32]
    }

    fn as_slice(&self) -> (r: &[u8]) {
        self.as_slice()
    }

    fn duplicate(&self) -> (r: Self) {
        *self
    }

    fn from_slice(bytes: &[u8]) -> (r: Self) {
        let mut out = [0u8; 32];
        let mut i: usize = 0;
        while i < 32
            invariant
                i <= 32,
                bytes@.len() == 32,
                forall|k: int| 0 <= k < i ==> #[trigger] out@[k] == bytes@[k],
            decreases 32 - i,
        {
            out[i] = bytes[i];
            i = i + 1;
        }
        proof {
            assert(out@ =~= bytes@);
        }
        out
    }

    proof fn lemma_bytes_injective(a: Self, b: Self) {
        assert(a =~= b);
    }
}

/// Cryptographic hashers: the digest of everything absorbed since creation or the last
/// finalisation.
pub trait Hasher: Sized {
    /// The digest type.
    type Digest: Digest;

    /// The bytes absorbed since creation or the last finalisation.
    spec fn absorbed(&self) -> Seq<u8>;

    /// The digest of a byte string.
    spec fn digest_of(data: Seq<u8>) -> Seq<u8>;

    /// The number of bytes of a digest.
    fn digest_size() -> (r: usize)
        ensures
            r == <Self::Digest as Digest>::size(),
            r > 0,
    ;

    /// Creates a hasher that has absorbed nothing.
    fn new() -> (r: Self)
        ensures
            r.absorbed() == Seq::<u8>::empty(),
    ;

    /// Absorbs bytes.
    fn update(&mut self, data: &[u8])
        ensures
            final(self).absorbed() == old(self).absorbed() + data@,
    ;

    /// The digest of the absorbed bytes; the hasher then starts afresh.
    fn finalize(&mut self) -> (r: Self::Digest)
        ensures
            r.bytes() == Self::digest_of(old(self).absorbed()),
            r.bytes().len() == <Self::Digest as Digest>::size(),
            final(self).absorbed() == Seq::<u8>::empty(),
    ;
}

} // verus!
