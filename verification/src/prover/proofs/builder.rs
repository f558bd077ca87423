//! Iterative building of a proof: each iteration's challenge party is drawn from the challenge
//! entropy, and its views are built and reduced to the response to that challenge.
use crate::backend::frontend::Frontend;
use crate::backend::hook::{BackendHook, Hooked, NoHook, Reusable};
use crate::crypto::hasher::Hasher;
use crate::crypto::prg::{GeneratesRandom, HashPRG, PseudoRandomGenerator, RandomGenerator, Seed};
use crate::prover::challenge::challenge::{first_valid, seeded_pairs, ChallengeGenerator, Party};
use crate::prover::proofs::collectors::ResponseDataCollector;
use crate::prover::views::backend::ViewBuilderBackend;
use crate::prover::views::collectors::{ResponseDataSelector, ViewsDataCollector};
use crate::prover::views::view::ViewCommitment;
use crate::backend::backend::Backend;
use crate::prover::views::word_pool::WordTriplePool;
use crate::word::by_word_type::{ByWordType, Shape};
use vstd::prelude::*;

verus! {

/// Builder of a proof of `num_iters` iterations.
pub struct ProofBuilder<H: Hasher, PS: PseudoRandomGenerator, PV: PseudoRandomGenerator, S: Seed, RDC: ResponseDataCollector<H::Digest, S>, WTP: WordTriplePool, BH: BackendHook> {
    seed_prg: PS,
    challenge_generator: ChallengeGenerator<HashPRG<H>>,
    collector_init_arg: RDC::InitArg,
    hook_init_arg: BH::InitArg,
    capacity_hint: Shape,
    num_iters: usize,
    num_iters_yielded: usize,
    marker: Ghost<(PV, S, WTP)>,
}

impl<
    H: Hasher,
    PS: PseudoRandomGenerator,
    PV: PseudoRandomGenerator,
    S: Seed,
    RDC: ResponseDataCollector<H::Digest, S>,
    WTP: WordTriplePool,
    BH: BackendHook,
> ProofBuilder<H, PS, PV, S, RDC, WTP, BH> {
    /// The seed generator and the challenge generator are well formed, and no more iterations
    /// were yielded than the proof has.
    pub closed spec fn wf(self) -> bool {
        &&& self.seed_prg.wf()
        &&& self.challenge_generator.wf()
        &&& self.num_iters_yielded <= self.num_iters
    }

    /// The number of iterations of the proof.
    pub closed spec fn spec_num_iters(self) -> nat {
        self.num_iters as nat
    }

    /// The number of iterations yielded so far.
    pub closed spec fn spec_num_iters_yielded(self) -> nat {
        self.num_iters_yielded as nat
    }

    /// The challenge generator.
    pub closed spec fn spec_challenge_generator(self) -> ChallengeGenerator<HashPRG<H>> {
        self.challenge_generator
    }

    /// The seed generator.
    pub closed spec fn spec_seed_prg(self) -> PS {
        self.seed_prg
    }

    /// The capacity hint.
    pub closed spec fn spec_capacity_hint(self) -> Shape {
        self.capacity_hint
    }

    /// Creates a builder whose seed generator is seeded with the seed entropy and whose
    /// challenge generator draws from the generator seeded with the challenge entropy.
    pub fn new_with_arg_hooked(
        seed_entropy: &[u8],
        challenge_entropy: Vec<u8>,
        num_iters: usize,
        collector_init_arg: RDC::InitArg,
        hook_init_arg: BH::InitArg,
    ) -> (r: Self)
        ensures
            r.wf(),
            r.spec_num_iters() == num_iters,
            r.spec_num_iters_yielded() == 0,
            forall|t: nat| #[trigger] r.spec_seed_prg().future(t) == PS::seeded(seed_entropy@, t),
            forall|i: nat| #[trigger] r.spec_challenge_generator().spec_generator().future(i) == HashPRG::<H>::seeded(challenge_entropy@, i),
            r.spec_challenge_generator().pairs() == seeded_pairs::<HashPRG<H>>(challenge_entropy@),
    {
        let prg = HashPRG::<H>::new(challenge_entropy.as_slice());
        let challenge_generator = ChallengeGenerator::new(prg);
        proof {
            assert(challenge_generator.pairs() =~= seeded_pairs::<HashPRG<H>>(challenge_entropy@));
        }
        ProofBuilder {
            seed_prg: PS::new(seed_entropy),
            challenge_generator,
            collector_init_arg,
            hook_init_arg,
            capacity_hint: ByWordType::zero(),
            num_iters,
            num_iters_yielded: 0,
            marker: Ghost(vstd::pervasive::arbitrary()),
        }
    }

    /// The number of iterations of the proof.
    pub fn num_iters(&self) -> (r: usize)
        ensures
            r == self.spec_num_iters(),
    {
        self.num_iters
    }

    /// The number of iterations yielded so far.
    pub fn num_iters_yielded(&self) -> (r: usize)
        ensures
            r == self.spec_num_iters_yielded(),
    {
        self.num_iters_yielded
    }

    /// The next iteration, or `None` once all were yielded: its seeds are the next three seeds
    /// of the seed generator, and its challenge party the next party of the challenge
    /// generator. The challenge generator tries at most `usize::MAX` bit pairs; if all of them
    /// were rejected, no iteration is yielded.
    pub fn next_iter(&mut self) -> (r: Option<ProofBuildingIteration<H, PV, S, RDC, WTP, BH>>)
        requires
            old(self).wf(),
        ensures
            final(self).wf(),
            final(self).spec_num_iters() == old(self).spec_num_iters(),
            final(self).spec_num_iters_yielded() <= final(self).spec_num_iters(),
            old(self).spec_num_iters_yielded() == old(self).spec_num_iters() ==> r is None && *final(self) == *old(self),
            match r {
                Some(it) => {
                    &&& final(self).spec_num_iters_yielded() == old(self).spec_num_iters_yielded() + 1
                    &&& it.view_builder_spec().wf()
                    &&& first_valid(old(self).spec_challenge_generator()) < usize::MAX
                    &&& old(self).spec_challenge_generator().pair(first_valid(old(self).spec_challenge_generator())) != 3
                    &&& <ChallengeGenerator<HashPRG<H>> as GeneratesRandom<Party>>::generates(
                        old(self).spec_challenge_generator(),
                        it.spec_challenge(),
                        final(self).spec_challenge_generator(),
                    )
                    &&& <PS as GeneratesRandom<[S; 3]>>::generates(
                        old(self).spec_seed_prg(),
                        it.view_builder_spec().spec_backend().key().0,
                        final(self).spec_seed_prg(),
                    )
                    &&& it.view_builder_spec().spec_backend().key().1.0 == it.spec_challenge()
                },
                None => {
                    &&& final(self).spec_num_iters_yielded() == old(self).spec_num_iters_yielded()
                    &&& old(self).spec_num_iters_yielded() < old(self).spec_num_iters() ==> forall|t: nat|
                        t < usize::MAX ==> #[trigger] old(self).spec_challenge_generator().pair(t) == 3
                },
            },
    {
        if self.num_iters_yielded == self.num_iters {
            return None;
        }
        let seeds: [S; 3] = self.seed_prg.next();
        let challenge = match self.challenge_generator.try_next(usize::MAX) {
            Some(p) => p,
            None => {
                return None;
            },
        };
        self.num_iters_yielded = self.num_iters_yielded + 1;
        let backend = ViewBuilderBackend::<H, PV, S, ResponseDataSelector<H::Digest, S, RDC>, WTP>::new_with_arg(
            seeds,
            (challenge, self.collector_init_arg.duplicate()),
        );
        let view_builder = Frontend::wrap(Hooked::new(BH::new(self.hook_init_arg.duplicate()), backend));
        Some(ProofBuildingIteration { view_builder, challenge: Ghost(challenge) })
    }

    /// Whether all iterations were yielded; otherwise the builder is handed back.
    pub fn try_finalize(self) -> (r: Result<(), Self>)
        ensures
            r is Ok <==> self.spec_num_iters_yielded() == self.spec_num_iters(),
            r matches Err(b) ==> b == self,
    {
        if self.num_iters_yielded != self.num_iters {
            return Err(self);
        }
        Ok(())
    }

    /// Finalizes the builder, all of whose iterations were yielded.
    pub fn finalize(self)
        requires
            self.spec_num_iters_yielded() == self.spec_num_iters(),
    {
    }
}

impl<H: Hasher, PS: PseudoRandomGenerator, PV: PseudoRandomGenerator, S: Seed, RDC: ResponseDataCollector<H::Digest, S>, WTP: WordTriplePool> ProofBuilder<
    H,
    PS,
    PV,
    S,
    RDC,
    WTP,
    NoHook,
> {
    /// Creates a builder with no hook.
    pub fn new_with_arg(seed_entropy: &[u8], challenge_entropy: Vec<u8>, num_iters: usize, collector_init_arg: RDC::InitArg) -> (r: Self)
        ensures
            r.wf(),
            r.spec_num_iters() == num_iters,
            r.spec_num_iters_yielded() == 0,
            forall|t: nat| #[trigger] r.spec_seed_prg().future(t) == PS::seeded(seed_entropy@, t),
            forall|i: nat| #[trigger] r.spec_challenge_generator().spec_generator().future(i) == HashPRG::<H>::seeded(challenge_entropy@, i),
    {
        Self::new_with_arg_hooked(seed_entropy, challenge_entropy, num_iters, collector_init_arg, ())
    }

    /// Creates a builder with no hook and the given capacity hint.
    pub fn new_with_arg_reserved(
        seed_entropy: &[u8],
        challenge_entropy: Vec<u8>,
        num_iters: usize,
        collector_init_arg: RDC::InitArg,
        capacity: Shape,
    ) -> (r: Self)
        ensures
            r.wf(),
            r.spec_num_iters() == num_iters,
            r.spec_num_iters_yielded() == 0,
            forall|t: nat| #[trigger] r.spec_seed_prg().future(t) == PS::seeded(seed_entropy@, t),
            forall|i: nat| #[trigger] r.spec_challenge_generator().spec_generator().future(i) == HashPRG::<H>::seeded(challenge_entropy@, i),
            r.spec_capacity_hint() == capacity,
    {
        let mut b = Self::new_with_arg_hooked(seed_entropy, challenge_entropy, num_iters, collector_init_arg, ());
        let ghost b0 = b;
        b.capacity_hint = capacity;
        proof {
            assert(b.spec_challenge_generator() == b0.spec_challenge_generator());
            assert(b.spec_seed_prg() == b0.spec_seed_prg());
        }
        b
    }
}

/// An iteration of the building of a proof: a circuit is run on its view builder, then the
/// iteration is finalized into the response data.
pub struct ProofBuildingIteration<H: Hasher, PV: PseudoRandomGenerator, S: Seed, RDC: ResponseDataCollector<H::Digest, S>, WTP: WordTriplePool, BH: BackendHook> {
    view_builder: Frontend<Hooked<BH, ViewBuilderBackend<H, PV, S, ResponseDataSelector<H::Digest, S, RDC>, WTP>>>,
    challenge: Ghost<Party>,
}

impl<H: Hasher, PV: PseudoRandomGenerator, S: Seed, RDC: ResponseDataCollector<H::Digest, S>, WTP: WordTriplePool, BH: BackendHook> ProofBuildingIteration<
    H,
    PV,
    S,
    RDC,
    WTP,
    BH,
> {
    /// The view builder of this iteration.
    pub closed spec fn view_builder_spec(self) -> Frontend<Hooked<BH, ViewBuilderBackend<H, PV, S, ResponseDataSelector<H::Digest, S, RDC>, WTP>>> {
        self.view_builder
    }

    /// The challenge party of this iteration.
    pub closed spec fn spec_challenge(self) -> Party {
        self.challenge@
    }

    /// The view builder of this iteration, on which a circuit is run.
    pub fn view_builder(&mut self) -> (r: &mut Frontend<Hooked<BH, ViewBuilderBackend<H, PV, S, ResponseDataSelector<H::Digest, S, RDC>, WTP>>>)
        ensures
            *r == old(self).view_builder_spec(),
            final(self).view_builder_spec() == *final(r),
            final(self).spec_challenge() == old(self).spec_challenge(),
    {
        &mut self.view_builder
    }

    /// Finalizes this iteration into the response data for its challenge.
    pub fn finalize(self) -> (r: RDC::FinalizeRes)
        requires
            self.view_builder_spec().wf(),
        ensures
            exists|cs: [ViewCommitment<H::Digest>; 3]| #[trigger] self.view_builder_spec().spec_backend().spec_inner().committed(cs)
                && <ResponseDataSelector<H::Digest, S, RDC> as ViewsDataCollector<H::Digest, S>>::finalized(
                    self.view_builder_spec().spec_backend().spec_inner().spec_collector(),
                    cs,
                    r,
                ),
    {
        let ghost x = self.view_builder_spec().spec_backend().spec_inner();
        let b = self.view_builder.backend.into_inner();
        let ghost gb = b;
        assert(gb == x);
        let r = b.finalize(());
        proof {
            assert(exists|cs: [ViewCommitment<H::Digest>; 3]| #[trigger] gb.committed(cs)
                && <ResponseDataSelector<H::Digest, S, RDC> as ViewsDataCollector<H::Digest, S>>::finalized(gb.spec_collector(), cs, r));
            let cs = choose|cs: [ViewCommitment<H::Digest>; 3]| #[trigger] gb.committed(cs)
                && <ResponseDataSelector<H::Digest, S, RDC> as ViewsDataCollector<H::Digest, S>>::finalized(gb.spec_collector(), cs, r);
            assert(x.committed(cs));
        }
        r
    }
}

} // verus!
