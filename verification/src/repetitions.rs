//! The number of repetitions a proof carries.
use vstd::prelude::*;

verus! {

/// Numerator of the approximation of `1 / log2(3/2)` used for the repetition count.
pub const PQ_NUM: u128 = 1_709_511_291_351_455;

/// Denominator of the approximation of `1 / log2(3/2)` used for the repetition count.
pub const PQ_DEN: u128 = 1_000_000_000_000_000;

/// The number of repetitions for `bits` of post-quantum security: `ceil(2 * bits * NUM / DEN)`
/// with `NUM / DEN` approximating `1 / log2(3/2)`, truncated to a machine word.
pub open spec fn pq_repetitions(bits: nat) -> usize {
    ((2 * bits * PQ_NUM + (PQ_DEN - 1)) / (PQ_DEN as int)) as usize
}

/// The number of repetitions a proof is required to carry.
///
/// Verification checks each response it is given and nothing about how many there are, so the
/// count is what ties a proof to a soundness level.
#[derive(Clone, Copy, PartialEq, Eq, Structural, Debug)]
pub struct Repetitions {
    count: usize,
}

impl Repetitions {
    /// The number of repetitions.
    pub closed spec fn spec_count(self) -> usize {
        self.count
    }

    /// The number of repetitions required for the given level of post-quantum security, in
    /// bits: each repetition leaves a cheating prover a 2/3 chance of going undetected, so
    /// reaching `2^-b` against a search over `2^(2b)` work takes `ceil(2b / log2(3/2))`.
    pub fn for_pq_security_bits(bits: usize) -> (r: Self)
        requires
            bits > 0,
        ensures
            r.spec_count() == pq_repetitions(bits as nat),
    {
        let two_b: u128 = 2 * (bits as u128);
        proof {
            assert(two_b <= 0x2_0000_0000_0000_0000);
            assert(two_b * PQ_NUM <= 0x2_0000_0000_0000_0000 * PQ_NUM) by (nonlinear_arith)
                requires
                    two_b <= 0x2_0000_0000_0000_0000,
            ;
        }
        let count = ((two_b * PQ_NUM + (PQ_DEN - 1)) / PQ_DEN) as usize;
        Repetitions { count }
    }

    /// Exactly the given number of repetitions.
    pub fn exactly(count: usize) -> (r: Self)
        requires
            count > 0,
        ensures
            r.spec_count() == count,
    {
        Repetitions { count }
    }

    /// The number of repetitions.
    pub fn count(self) -> (r: usize)
        ensures
            r == self.spec_count(),
    {
        self.count
    }
}

} // verus!
