//! Domain separation of the hashed data.
use crate::crypto::hasher::Hasher;
use vstd::prelude::*;

verus! {

/// Tag of the challenge derivation.
pub const TAG_CHALLENGE: [u8; 15] = [90, 75, 66, 79, 79, 45, 67, 72, 65, 76, 76, 69, 78, 71, 69];

/// Tag of the view commitments.
pub const TAG_VIEW_COMMITMENT: [u8; 21] = [90, 75, 66, 79, 79, 45, 86, 73, 69, 87, 45, 67, 79, 77, 77, 73, 84, 77, 69, 78, 84];

/// Tag of the pseudo-random generators.
pub const TAG_PRG: [u8; 9] = [90, 75, 66, 79, 79, 45, 80, 82, 71];

/// The little-endian bytes of a 64-bit length.
pub open spec fn u64_le(x: nat) -> Seq<u8> {
    Seq::new(8, |k: int| ((x / vstd::arithmetic::power2::pow2((8 * k) as nat)) % 256) as u8)
}

/// Only the value modulo 2^64 matters to its 8 little-endian bytes.
pub proof fn lemma_u64_le_mod(x: nat)
    ensures
        u64_le(x) == u64_le(x % 0x1_0000_0000_0000_0000),
{
    let r = x % 0x1_0000_0000_0000_0000;
    assert forall|k: int| 0 <= k < 8 implies #[trigger] u64_le(x)[k] == u64_le(r)[k] by {
        let p = vstd::arithmetic::power2::pow2((8 * k) as nat);
        let q = vstd::arithmetic::power2::pow2((64 - 8 * k - 8) as nat);
        vstd::arithmetic::power2::lemma_pow2_pos((8 * k) as nat);
        vstd::arithmetic::power2::lemma_pow2_pos((64 - 8 * k - 8) as nat);
        vstd::arithmetic::power2::lemma2_to64();
        vstd::arithmetic::power2::lemma_pow2_adds((8 * k) as nat, 8);
        vstd::arithmetic::power2::lemma_pow2_adds((8 * k + 8) as nat, (64 - 8 * k - 8) as nat);
        assert(p * 256 * q == 0x1_0000_0000_0000_0000) by {
            assert(vstd::arithmetic::power2::pow2(64) == 0x1_0000_0000_0000_0000);
        }
        let m = p * 256;
        assert(m > 0) by (nonlinear_arith)
            requires
                p > 0,
                m == p * 256,
        ;
        // both sides reduce to the same digit of x modulo p * 256
        assert(m * q == 0x1_0000_0000_0000_0000 && p * (256 * q) == 0x1_0000_0000_0000_0000)
            by (nonlinear_arith)
            requires
                p * 256 * q == 0x1_0000_0000_0000_0000,
                m == p * 256,
        ;
        vstd::arithmetic::div_mod::lemma_mod_mod(x as int, m as int, q as int);
        vstd::arithmetic::div_mod::lemma_mod_mod(x as int, p as int, (256 * q) as int);
        assert(r % m == x % m);
        assert(r % p == x % p);
        vstd::arithmetic::div_mod::lemma_mod_breakdown(x as int, p as int, 256);
        vstd::arithmetic::div_mod::lemma_mod_breakdown(r as int, p as int, 256);
        let da = (x / p) % 256;
        let db = (r / p) % 256;
        assert(p * da == p * db);
        assert(da == db) by (nonlinear_arith)
            requires
                p > 0,
                p * da == p * db,
        ;
    }
    assert(u64_le(x) =~= u64_le(r));
}

/// The 8 little-endian bytes of a 64-bit value.
pub fn u64_to_le_bytes(x: u64) -> (r: Vec<u8>)
    ensures
        r@ == u64_le(x as nat),
{
    let mut out: Vec<u8> = Vec::new();
    let mut v = x;
    let mut k: usize = 0;
    proof {
        vstd::arithmetic::power2::lemma2_to64();
        assert(vstd::arithmetic::power2::pow2(0) == 1);
        assert(x as nat / 1 == x as nat);
    }
    while k < 8
        invariant
            k <= 8,
            out@.len() == k,
            v as nat == x as nat / vstd::arithmetic::power2::pow2((8 * k) as nat),
            forall|j: int| 0 <= j < k ==> #[trigger] out@[j] == u64_le(x as nat)[j],
        decreases 8 - k,
    {
        let b = (v % 256) as u8;
        proof {
            vstd::arithmetic::power2::lemma_pow2_adds((8 * k) as nat, 8);
            vstd::arithmetic::power2::lemma2_to64();
            vstd::arithmetic::power2::lemma_pow2_pos((8 * k) as nat);
            vstd::arithmetic::div_mod::lemma_div_denominator(
                x as int,
                vstd::arithmetic::power2::pow2((8 * k) as nat) as int,
                256,
            );
        }
        out.push(b);
        v = v / 256;
        k = k + 1;
    }
    proof {
        assert(out@ =~= u64_le(x as nat));
    }
    out
}

/// Absorbs a tag, then the length of the given bytes as 8 little-endian bytes, then the bytes.
pub fn absorb_framed<H: Hasher>(hasher: &mut H, tag: &[u8], bytes: &[u8])
    ensures
        final(hasher).absorbed() == old(hasher).absorbed() + tag@ + u64_le(bytes@.len()) + bytes@,
{
    hasher.update(tag);
    let len_bytes = u64_to_le_bytes(bytes.len() as u64);
    hasher.update(len_bytes.as_slice());
    hasher.update(bytes);
    proof {
        assert(bytes@.len() <= u64::MAX) by {
            assert(bytes@.len() <= usize::MAX);
        }
    }
}

} // verus!
