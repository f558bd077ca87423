//! Keccak-256 hasher.
use crate::crypto::hasher::Hasher;
use tiny_keccak::Hasher as KeccakHasher;
use tiny_keccak::Keccak;
use vstd::prelude::*;

verus! {

/// The Keccak-256 digest of a byte string.
pub uninterp spec fn keccak256_digest(data: Seq<u8>) -> Seq<u8>;

/// Calls `tiny_keccak`'s Keccak-256 (`Keccak::v256`, `update`, `finalize`) on `data`; trusted
/// to return the digest of `data`, which depends on `data` alone.
#[verifier::external_body]
fn keccak256(data: &[u8]) -> (r: [u8; 32])
    ensures
        r@ == keccak256_digest(data@),
{
    let mut k = Keccak::v256();
    k.update(data);
    let mut out = [0u8; 32];
    k.finalize(&mut out);
    out
}

/// Keccak-256 hasher: collects the absorbed bytes and hashes them on finalisation.
#[derive(Debug)]
pub struct Keccak256Hasher {
    buffer: Vec<u8>,
}

impl Hasher for Keccak256Hasher {
    type Digest = [u8; 32];

    closed spec fn absorbed(&self) -> Seq<u8> {
        self.buffer@
    }

    open spec fn digest_of(data: Seq<u8>) -> Seq<u8> {
        keccak256_digest(data)
    }

    fn digest_size() -> (r: usize) {
        32
    }

    fn new() -> (r: Self) {
        Keccak256Hasher { buffer: Vec::new() }
    }

    fn update(&mut self, data: &[u8]) {
        let mut i: usize = 0;
        let ghost start = self.buffer@;
        while i < data.len()
            invariant
                i <= data@.len(),
                self.buffer@ == start + data@.subrange(0, i as int),
            decreases data@.len() - i,
        {
            self.buffer.push(data[i]);
            proof {
                assert(data@.subrange(0, i + 1) =~= data@.subrange(0, i as int).push(data@[i as int]));
            }
            i = i + 1;
        }
        proof {
            assert(data@.subrange(0, data@.len() as int) =~= data@);
        }
    }

    fn finalize(&mut self) -> (r: [u8; 32]) {
        let r = keccak256(self.buffer.as_slice());
        self.buffer = Vec::new();
        r
    }
}

} // verus!
