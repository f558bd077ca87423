//! Proving: computing the challenge entropy, then building the proof.
use crate::backend::hook::BackendHook;
use crate::circuit::circuit::Circuit;
use crate::crypto::hasher::Hasher;
use crate::crypto::prg::{PseudoRandomGenerator, Seed};
use crate::prover::challenge::builder::challenge_prefix;
use crate::prover::challenge::challenge::{seeded_pairs, stops_after};
use crate::prover::challenge::functions::{all_commitments_bytes, build_challenge_entropy, views_committed};
use crate::prover::views::view::ViewCommitment;
use crate::crypto::prg::HashPRG;
use crate::prover::challenge::options::ChallengeOptions;
use crate::prover::proofs::collectors::ResponseDataCollector;
use crate::prover::proofs::functions::{build_proof, built_proof};
use crate::prover::views::backend::ViewBuilderBackend;
use crate::prover::views::collectors::ResponseDataSelector;
use crate::prover::proofs::options::ProofOptions;
use crate::prover::views::collectors::ViewCommitmentsRelayer;
use crate::prover::views::word_pool::WordTriplePool;
use vstd::prelude::*;

verus! {

/// Proves the circuit with `num_iters` iterations: the challenge entropy is computed from the
/// commitments of the views of every iteration and the binding, then the views are rebuilt
/// from the same seeds and reduced to the responses to the challenges drawn from it. The
/// result is that of [build_proof] with the challenge entropy of [build_challenge_entropy],
/// both run on the seed entropy.
pub fn prove<C: Circuit, H: Hasher, PS: PseudoRandomGenerator, PV: PseudoRandomGenerator, S: Seed, RDC: ResponseDataCollector<H::Digest, S>, WTP: WordTriplePool, BH: BackendHook>(
    circuit: &C,
    num_iters: usize,
    seed_entropy: &[u8],
    binding: &[u8],
    options: ProofOptions<H::Digest, S, RDC, BH>,
) -> (r: Vec<RDC::FinalizeRes>)
    ensures
        r@.len() <= num_iters,
        exists|
            cs: Seq<[ViewCommitment<H::Digest>; 3]>,
            vbs: Seq<ViewBuilderBackend<H, PV, S, ViewCommitmentsRelayer<H::Digest, S>, WTP>>,
            pbs: Seq<ViewBuilderBackend<H, PV, S, ResponseDataSelector<H::Digest, S, RDC>, WTP>>,
        |
            #![trigger views_committed::<H, PS, PV, S, WTP>(vbs, cs, seed_entropy@), built_proof::<H, PS, PV, S, RDC, WTP>(pbs, r@, seed_entropy@, H::digest_of(challenge_prefix(binding@) + all_commitments_bytes(cs)))]
            {
                let ce = H::digest_of(challenge_prefix(binding@) + all_commitments_bytes(cs));
                &&& cs.len() == num_iters
                &&& views_committed::<H, PS, PV, S, WTP>(vbs, cs, seed_entropy@)
                &&& built_proof::<H, PS, PV, S, RDC, WTP>(pbs, r@, seed_entropy@, ce)
                &&& (r@.len() == num_iters || stops_after(seeded_pairs::<HashPRG<H>>(ce), r@.len()))
            },
{
    let challenge_options = ChallengeOptions::<H::Digest, S, ViewCommitmentsRelayer<H::Digest, S>, _>::new().with_hook_arg::<BH>(options.hook_arg());
    let challenge_entropy = build_challenge_entropy::<C, H, PS, PV, S, WTP, BH>(circuit, seed_entropy, binding, num_iters, challenge_options);
    let ghost ce = challenge_entropy@;
    let r = build_proof::<C, H, PS, PV, S, RDC, WTP, BH>(circuit, seed_entropy, challenge_entropy, num_iters, options);
    proof {
        let (cs, vbs) = choose|cs: Seq<[ViewCommitment<H::Digest>; 3]>, vbs: Seq<ViewBuilderBackend<H, PV, S, ViewCommitmentsRelayer<H::Digest, S>, WTP>>|
            cs.len() == num_iters && ce == H::digest_of(challenge_prefix(binding@) + all_commitments_bytes(cs))
                && #[trigger] views_committed::<H, PS, PV, S, WTP>(vbs, cs, seed_entropy@);
        let pbs = choose|pbs: Seq<ViewBuilderBackend<H, PV, S, ResponseDataSelector<H::Digest, S, RDC>, WTP>>|
            #[trigger] built_proof::<H, PS, PV, S, RDC, WTP>(pbs, r@, seed_entropy@, ce);
        assert(views_committed::<H, PS, PV, S, WTP>(vbs, cs, seed_entropy@));
        assert(built_proof::<H, PS, PV, S, RDC, WTP>(pbs, r@, seed_entropy@, H::digest_of(challenge_prefix(binding@) + all_commitments_bytes(cs))));
    }
    r
}

} // verus!
