//! Computation of the challenge entropy.
use crate::backend::hook::BackendHook;
use crate::circuit::circuit::Circuit;
use crate::crypto::domain::{absorb_framed, TAG_CHALLENGE};
use crate::crypto::hasher::{Digest, Hasher};
use crate::crypto::prg::{future_bytes, GeneratesRandom, PseudoRandomGenerator, Seed};
use crate::prover::proofs::functions::{lemma_drawn_seeds, seeded_seed_bytes};
use crate::prover::views::backend::ViewBuilderBackend;
use crate::backend::backend::Backend;
use crate::prover::challenge::builder::{challenge_prefix, ChallengeBuilder};
use crate::prover::challenge::options::ChallengeOptions;
use crate::prover::views::collectors::ViewCommitmentsRelayer;
use crate::prover::views::view::{commitments_bytes, ingest_commitments, ViewCommitment};
use crate::prover::views::word_pool::WordTriplePool;
use vstd::prelude::*;

verus! {

/// The bytes the commitments of a sequence of iterations contribute to the challenge, in order.
pub open spec fn all_commitments_bytes<D: Digest>(cs: Seq<[ViewCommitment<D>; 3]>) -> Seq<u8>
    decreases cs.len(),
{
    if cs.len() == 0 {
        Seq::empty()
    } else {
        all_commitments_bytes(cs.drop_last()) + commitments_bytes(cs.last())
    }
}

/// The commitments `cs` are those of the views of the view builders `bs` the circuit left, one
/// per iteration, and the builder of iteration `i` has seeds `3i`, `3i + 1` and `3i + 2` of the
/// stream of the seed entropy.
pub open spec fn views_committed<H: Hasher, PS: PseudoRandomGenerator, PV: PseudoRandomGenerator, S: Seed, WTP: WordTriplePool>(
    bs: Seq<ViewBuilderBackend<H, PV, S, ViewCommitmentsRelayer<H::Digest, S>, WTP>>,
    cs: Seq<[ViewCommitment<H::Digest>; 3]>,
    seed_entropy: Seq<u8>,
) -> bool {
    &&& bs.len() == cs.len()
    &&& forall|i: int| 0 <= i < bs.len() ==> #[trigger] bs[i].committed(cs[i])
    &&& forall|i: int, k: int| 0 <= i < bs.len() && 0 <= k < 3 ==> #[trigger] bs[i].key().0[k].bytes() == seeded_seed_bytes::<PS>(
        seed_entropy,
        (3 * i + k) as nat,
        S::size(),
    )
}

/// Computes the challenge entropy by running the circuit `num_iters` times on view builders
/// seeded from the seed entropy, with the hook of the options: the digest of the framed
/// binding followed by the commitments of the views of each iteration.
pub fn build_challenge_entropy<C: Circuit, H: Hasher, PS: PseudoRandomGenerator, PV: PseudoRandomGenerator, S: Seed, WTP: WordTriplePool, BH: BackendHook>(
    circuit: &C,
    seed_entropy: &[u8],
    binding: &[u8],
    num_iters: usize,
    options: ChallengeOptions<H::Digest, S, ViewCommitmentsRelayer<H::Digest, S>, BH>,
) -> (r: Vec<u8>)
    ensures
        exists|cs: Seq<[ViewCommitment<H::Digest>; 3]>, bs: Seq<ViewBuilderBackend<H, PV, S, ViewCommitmentsRelayer<H::Digest, S>, WTP>>|
            cs.len() == num_iters && r@ == H::digest_of(challenge_prefix(binding@) + all_commitments_bytes(cs))
                && #[trigger] views_committed::<H, PS, PV, S, WTP>(bs, cs, seed_entropy@),
{
    let mut builder = ChallengeBuilder::<H, PS, PV, S, WTP>::new(seed_entropy, binding);
    let ghost mut log: Seq<[ViewCommitment<H::Digest>; 3]> = Seq::empty();
    let ghost mut bs: Seq<ViewBuilderBackend<H, PV, S, ViewCommitmentsRelayer<H::Digest, S>, WTP>> = Seq::empty();
    let mut i: usize = 0;
    proof {
        assert forall|t: nat| #[trigger] builder.seed_prg().future(t) == PS::seeded(seed_entropy@, (3 * S::size() * i + t) as nat) by {
            assert(3 * S::size() * i == 0) by (nonlinear_arith)
                requires
                    i == 0,
            ;
        }
    }
    while i < num_iters
        invariant
            i <= num_iters,
            builder.seed_prg().wf(),
            log.len() == i,
            builder.absorbed() == challenge_prefix(binding@) + all_commitments_bytes(log),
            forall|t: nat| #[trigger] builder.seed_prg().future(t) == PS::seeded(seed_entropy@, (3 * S::size() * i + t) as nat),
            views_committed::<H, PS, PV, S, WTP>(bs, log, seed_entropy@),
        decreases num_iters - i,
    {
        let ghost sp = builder.seed_prg();
        let mut iter = builder.next_iter_hooked::<ViewCommitmentsRelayer<H::Digest, S>, BH>(options.collector_arg(), options.hook_arg());
        let ghost seeds = iter.view_builder_spec().spec_backend().key().0;
        proof {
            lemma_drawn_seeds::<PS, S>(sp, seeds, builder.seed_prg(), seed_entropy@, i as nat);
        }
        circuit.exec(iter.view_builder());
        let ghost b = iter.view_builder_spec().spec_backend().spec_inner();
        let cs = iter.finalize(&mut builder);
        proof {
            assert(b.key().0 == seeds);
            let bs0 = bs;
            let log0 = log;
            assert(log.push(cs).drop_last() =~= log);
            assert(builder.absorbed() =~= challenge_prefix(binding@) + all_commitments_bytes(log.push(cs)));
            log = log.push(cs);
            bs = bs.push(b);
            assert forall|k: int| 0 <= k < bs.len() implies #[trigger] bs[k].committed(log[k]) by {
                if k < bs0.len() {
                    assert(bs[k] == bs0[k]);
                    assert(log[k] == log0[k]);
                }
            }
            assert forall|k: int, q: int| 0 <= k < bs.len() && 0 <= q < 3 implies #[trigger] bs[k].key().0[q].bytes() == seeded_seed_bytes::<PS>(
                seed_entropy@,
                (3 * k + q) as nat,
                S::size(),
            ) by {
                if k < bs0.len() {
                    assert(bs[k] == bs0[k]);
                }
            }
        }
        i = i + 1;
    }
    let r = builder.finalize();
    proof {
        assert(views_committed::<H, PS, PV, S, WTP>(bs, log, seed_entropy@));
    }
    r
}

/// The challenge entropy of the given commitments of the iterations, in order: the digest of
/// the framed binding followed by the commitments.
pub fn challenge_entropy_of<H: Hasher>(binding: &[u8], commitments: &Vec<[ViewCommitment<H::Digest>; 3]>) -> (r: Vec<u8>)
    ensures
        r@ == H::digest_of(challenge_prefix(binding@) + all_commitments_bytes(commitments@)),
{
    let mut h = H::new();
    absorb_framed(&mut h, TAG_CHALLENGE.as_slice(), binding);
    let mut k: usize = 0;
    while k < commitments.len()
        invariant
            k <= commitments@.len(),
            h.absorbed() == challenge_prefix(binding@) + all_commitments_bytes(commitments@.take(k as int)),
        decreases commitments@.len() - k,
    {
        ingest_commitments(&mut h, &commitments[k]);
        proof {
            assert(commitments@.take(k + 1).drop_last() =~= commitments@.take(k as int));
            assert(h.absorbed() =~= challenge_prefix(binding@) + all_commitments_bytes(commitments@.take(k + 1)));
        }
        k = k + 1;
    }
    proof {
        assert(commitments@.take(k as int) =~= commitments@);
    }
    let d = h.finalize();
    let mut r: Vec<u8> = Vec::new();
    r.extend_from_slice(d.as_slice());
    proof {
        assert(r@ =~= d.bytes());
    }
    r
}

/// The seeds of the views of `num_iters` iterations, drawn in order from the seed generator
/// seeded with the seed entropy: seed `k` of iteration `i` is seed `3i + k` of its stream.
pub fn draw_seeds<PS: PseudoRandomGenerator, S: Seed>(seed_entropy: &[u8], num_iters: usize) -> (r: Vec<[S; 3]>)
    ensures
        r@.len() == num_iters,
        forall|i: int, k: int| 0 <= i < r@.len() && 0 <= k < 3 ==> #[trigger] r@[i][k].bytes() == seeded_seed_bytes::<PS>(
            seed_entropy@,
            (3 * i + k) as nat,
            S::size(),
        ),
{
    let mut prg = PS::new(seed_entropy);
    let mut r: Vec<[S; 3]> = Vec::new();
    let mut i: usize = 0;
    while i < num_iters
        invariant
            i <= num_iters,
            r@.len() == i,
            prg.wf(),
            forall|t: nat| #[trigger] prg.future(t) == PS::seeded(seed_entropy@, (3 * S::size() * i + t) as nat),
            forall|j: int, k: int| 0 <= j < r@.len() && 0 <= k < 3 ==> #[trigger] r@[j][k].bytes() == seeded_seed_bytes::<PS>(
                seed_entropy@,
                (3 * j + k) as nat,
                S::size(),
            ),
        decreases num_iters - i,
    {
        let ghost sp = prg;
        let ghost r0 = r@;
        let seeds: [S; 3] = prg.next();
        proof {
            let z = S::size();
            assert forall|k: int| 0 <= k < 3 implies #[trigger] seeds[k].bytes() == seeded_seed_bytes::<PS>(seed_entropy@, (3 * i + k) as nat, z) by {
                assert forall|b: int| 0 <= b < z implies #[trigger] seeds[k].bytes()[b] == PS::seeded(seed_entropy@, ((3 * i + k) * z + b) as nat) by {
                    assert(sp.future((k * z + b) as nat) == PS::seeded(seed_entropy@, (3 * z * i + k * z + b) as nat));
                    assert(3 * z * i + k * z + b == (3 * i + k) * z + b) by (nonlinear_arith);
                    if k == 0 {
                        assert(seeds[k].bytes() == future_bytes(sp, 0, z));
                    } else if k == 1 {
                        assert(seeds[k].bytes() == future_bytes(sp, z, z));
                    } else {
                        assert(seeds[k].bytes() == future_bytes(sp, 2 * z, z));
                    }
                }
                assert(seeds[k].bytes() =~= seeded_seed_bytes::<PS>(seed_entropy@, (3 * i + k) as nat, z));
            }
            assert forall|t: nat| #[trigger] prg.future(t) == PS::seeded(seed_entropy@, (3 * z * (i + 1) + t) as nat) by {
                assert(prg.future(t) == sp.future(t + 3 * z));
                assert(3 * z * i + (t + 3 * z) == 3 * z * (i + 1) + t) by (nonlinear_arith);
            }
        }
        r.push(seeds);
        proof {
            assert forall|j: int, k: int| 0 <= j < r@.len() && 0 <= k < 3 implies #[trigger] r@[j][k].bytes() == seeded_seed_bytes::<PS>(
                seed_entropy@,
                (3 * j + k) as nat,
                S::size(),
            ) by {
                if j < r0.len() {
                    assert(r@[j] == r0[j]);
                }
            }
        }
        i = i + 1;
    }
    r
}

} // verus!
