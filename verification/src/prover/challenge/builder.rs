//! Iterative computation of the challenge entropy: the commitments of the views of each
//! iteration are absorbed by the challenge hasher.
use crate::backend::backend::{unreferenced, Backend};
use crate::backend::frontend::Frontend;
use crate::backend::hook::{BackendHook, Hooked, NoHook};
use crate::crypto::domain::{absorb_framed, u64_le, TAG_CHALLENGE};
use crate::crypto::hasher::{Digest, Hasher};
use crate::crypto::prg::{le8, lemma_le8_injective, GeneratesRandom, PseudoRandomGenerator, Seed};
use crate::prover::views::backend::ViewBuilderBackend;
use crate::prover::views::collectors::{ViewCommitmentsRelayer, ViewsDataCollector};
use crate::prover::views::view::{commitments_bytes, ingest_commitments, ViewCommitment};
use crate::prover::views::word_pool::WordTriplePool;
use vstd::prelude::*;

verus! {

/// The bytes the challenge hasher absorbs first: the challenge tag and the binding, framed.
pub open spec fn challenge_prefix(binding: Seq<u8>) -> Seq<u8> {
    TAG_CHALLENGE@ + u64_le(binding.len()) + binding
}

/// What the challenge hasher absorbs before the commitments, for a binding of fewer than 2^64
/// bytes: the 15 bytes of the tag `ZKBOO-CHALLENGE`, then the length of the binding as 8
/// little-endian bytes, then the binding itself.
pub proof fn lemma_challenge_prefix_layout(binding: Seq<u8>)
    requires
        binding.len() < 0x1_0000_0000_0000_0000,
    ensures
        challenge_prefix(binding).len() == 23 + binding.len(),
        challenge_prefix(binding).subrange(0, 15) == seq![90u8, 75, 66, 79, 79, 45, 67, 72, 65, 76, 76, 69, 78, 71, 69],
        challenge_prefix(binding).subrange(15, 23) == le8(binding.len()),
        challenge_prefix(binding).subrange(23, 23 + binding.len() as int) == binding,
{
    let p = challenge_prefix(binding);
    assert(TAG_CHALLENGE@ =~= seq![90u8, 75, 66, 79, 79, 45, 67, 72, 65, 76, 76, 69, 78, 71, 69]);
    assert(u64_le(binding.len()) =~= le8(binding.len()));
    assert(p.subrange(0, 15) =~= TAG_CHALLENGE@);
    assert(p.subrange(15, 23) =~= u64_le(binding.len()));
    assert(p.subrange(23, 23 + binding.len() as int) =~= binding);
}

/// The binding is framed in what the challenge hasher absorbs: the bytes absorbed for two
/// bindings, each followed by anything, coincide only when the bindings and what follows them
/// are equal.
pub proof fn lemma_challenge_prefix_frames(b1: Seq<u8>, x1: Seq<u8>, b2: Seq<u8>, x2: Seq<u8>)
    requires
        b1.len() < 0x1_0000_0000_0000_0000,
        b2.len() < 0x1_0000_0000_0000_0000,
        challenge_prefix(b1) + x1 == challenge_prefix(b2) + x2,
    ensures
        b1 == b2,
        x1 == x2,
{
    lemma_challenge_prefix_layout(b1);
    lemma_challenge_prefix_layout(b2);
    let s1 = challenge_prefix(b1) + x1;
    let s2 = challenge_prefix(b2) + x2;
    assert(s1.subrange(15, 23) =~= challenge_prefix(b1).subrange(15, 23));
    assert(s2.subrange(15, 23) =~= challenge_prefix(b2).subrange(15, 23));
    if b1.len() != b2.len() {
        lemma_le8_injective(b1.len(), b2.len());
    }
    assert(b1.len() == b2.len());
    assert(s1.subrange(23, 23 + b1.len() as int) =~= b1);
    assert(s2.subrange(23, 23 + b2.len() as int) =~= b2);
    assert(x1 =~= s1.subrange(23 + b1.len() as int, s1.len() as int));
    assert(x2 =~= s2.subrange(23 + b2.len() as int, s2.len() as int));
}

/// Builder of the challenge entropy: iterations draw the seeds of their views from the seed
/// generator, and their commitments are absorbed by the challenge hasher.
pub struct ChallengeBuilder<H: Hasher, PS: PseudoRandomGenerator, PV: PseudoRandomGenerator, S: Seed, WTP: WordTriplePool> {
    num_iters_ingested: usize,
    seed_prg: PS,
    challenge_hasher: H,
    marker: Ghost<(PV, S, WTP)>,
}

impl<H: Hasher, PS: PseudoRandomGenerator, PV: PseudoRandomGenerator, S: Seed, WTP: WordTriplePool> ChallengeBuilder<H, PS, PV, S, WTP> {
    /// The bytes absorbed by the challenge hasher.
    pub closed spec fn absorbed(self) -> Seq<u8> {
        self.challenge_hasher.absorbed()
    }

    /// The number of iterations whose commitments were absorbed.
    pub closed spec fn spec_num_iters_ingested(self) -> nat {
        self.num_iters_ingested as nat
    }

    /// The seed generator.
    pub closed spec fn seed_prg(self) -> PS {
        self.seed_prg
    }

    /// Creates a builder whose seed generator is seeded with the seed entropy and whose
    /// challenge hasher has absorbed the framed binding.
    pub fn new(seed_entropy: &[u8], binding: &[u8]) -> (r: Self)
        ensures
            r.absorbed() == challenge_prefix(binding@),
            r.spec_num_iters_ingested() == 0,
            r.seed_prg().wf(),
            forall|i: nat| #[trigger] r.seed_prg().future(i) == PS::seeded(seed_entropy@, i),
    {
        let mut challenge_hasher = H::new();
        absorb_framed(&mut challenge_hasher, TAG_CHALLENGE.as_slice(), binding);
        ChallengeBuilder {
            num_iters_ingested: 0,
            seed_prg: PS::new(seed_entropy),
            challenge_hasher,
            marker: Ghost(vstd::pervasive::arbitrary()),
        }
    }

    /// The number of iterations whose commitments were absorbed.
    pub fn num_iters_ingested(&self) -> (r: usize)
        ensures
            r == self.spec_num_iters_ingested(),
    {
        self.num_iters_ingested
    }

    /// The next iteration, relaying the commitments of its views, with no hook.
    pub fn next_iter(&mut self) -> (r: ChallengeBuildingIteration<H, PS, PV, S, ViewCommitmentsRelayer<H::Digest, S>, WTP, NoHook>)
        requires
            old(self).seed_prg().wf(),
        ensures
            r.view_builder_spec().wf(),
            unreferenced(r.view_builder_spec().model()),
            final(self).seed_prg().wf(),
            final(self).absorbed() == old(self).absorbed(),
            final(self).spec_num_iters_ingested() == old(self).spec_num_iters_ingested(),
    {
        self.next_iter_hooked::<ViewCommitmentsRelayer<H::Digest, S>, NoHook>((), ())
    }

    /// The next iteration, with the given views data collector, with no hook.
    pub fn next_iter_custom<VDC: ViewsDataCollector<H::Digest, S>>(&mut self, collector_init_arg: VDC::InitArg) -> (r: ChallengeBuildingIteration<
        H,
        PS,
        PV,
        S,
        VDC,
        WTP,
        NoHook,
    >)
        requires
            old(self).seed_prg().wf(),
        ensures
            r.view_builder_spec().wf(),
            unreferenced(r.view_builder_spec().model()),
            final(self).seed_prg().wf(),
            final(self).absorbed() == old(self).absorbed(),
            final(self).spec_num_iters_ingested() == old(self).spec_num_iters_ingested(),
    {
        self.next_iter_hooked::<VDC, NoHook>(collector_init_arg, ())
    }

    /// The next iteration: its seeds are the next three seeds of the seed generator, and its
    /// view builder has the given collector and hook.
    pub fn next_iter_hooked<VDC: ViewsDataCollector<H::Digest, S>, BH: BackendHook>(
        &mut self,
        collector_init_arg: VDC::InitArg,
        hook_init_arg: BH::InitArg,
    ) -> (r: ChallengeBuildingIteration<H, PS, PV, S, VDC, WTP, BH>)
        requires
            old(self).seed_prg().wf(),
        ensures
            r.view_builder_spec().wf(),
            unreferenced(r.view_builder_spec().model()),
            final(self).seed_prg().wf(),
            final(self).absorbed() == old(self).absorbed(),
            final(self).spec_num_iters_ingested() == old(self).spec_num_iters_ingested(),
            <PS as GeneratesRandom<[S; 3]>>::generates(old(self).seed_prg(), r.view_builder_spec().spec_backend().key().0, final(self).seed_prg()),
    {
        let seeds: [S; 3] = self.seed_prg.next();
        let backend = ViewBuilderBackend::<H, PV, S, VDC, WTP>::new_with_arg(seeds, collector_init_arg);
        let view_builder = Frontend::wrap(Hooked::new(BH::new(hook_init_arg), backend));
        ChallengeBuildingIteration { view_builder, marker: Ghost(vstd::pervasive::arbitrary()) }
    }

    /// The challenge entropy: the digest of the bytes absorbed by the challenge hasher.
    pub fn finalize(self) -> (r: Vec<u8>)
        ensures
            r@ == H::digest_of(self.absorbed()),
    {
        let mut h = self.challenge_hasher;
        let d = h.finalize();
        let mut r: Vec<u8> = Vec::new();
        r.extend_from_slice(d.as_slice());
        proof {
            assert(r@ =~= H::digest_of(self.absorbed()));
        }
        r
    }

    /// Absorbs the commitments of the views of an iteration.
    fn ingest_commitments(&mut self, commitments: &[ViewCommitment<H::Digest>; 3])
        ensures
            final(self).absorbed() == old(self).absorbed() + commitments_bytes(*commitments),
            final(self).seed_prg() == old(self).seed_prg(),
            final(self).spec_num_iters_ingested() == old(self).spec_num_iters_ingested() + 1
                || old(self).spec_num_iters_ingested() == usize::MAX,
    {
        ingest_commitments(&mut self.challenge_hasher, commitments);
        if self.num_iters_ingested < usize::MAX {
            self.num_iters_ingested = self.num_iters_ingested + 1;
        }
    }
}

/// An iteration of the computation of the challenge entropy: a circuit is run on its view
/// builder, then the iteration is finalized into its builder.
pub struct ChallengeBuildingIteration<
    H: Hasher,
    PS: PseudoRandomGenerator,
    PV: PseudoRandomGenerator,
    S: Seed,
    VDC: ViewsDataCollector<H::Digest, S>,
    WTP: WordTriplePool,
    BH: BackendHook,
> {
    view_builder: Frontend<Hooked<BH, ViewBuilderBackend<H, PV, S, VDC, WTP>>>,
    marker: Ghost<PS>,
}

impl<
    H: Hasher,
    PS: PseudoRandomGenerator,
    PV: PseudoRandomGenerator,
    S: Seed,
    VDC: ViewsDataCollector<H::Digest, S>,
    WTP: WordTriplePool,
    BH: BackendHook,
> ChallengeBuildingIteration<H, PS, PV, S, VDC, WTP, BH> {
    /// The view builder of this iteration.
    pub closed spec fn view_builder_spec(self) -> Frontend<Hooked<BH, ViewBuilderBackend<H, PV, S, VDC, WTP>>> {
        self.view_builder
    }

    /// The view builder of this iteration, on which a circuit is run.
    pub fn view_builder(&mut self) -> (r: &mut Frontend<Hooked<BH, ViewBuilderBackend<H, PV, S, VDC, WTP>>>)
        ensures
            *r == old(self).view_builder_spec(),
            final(self).view_builder_spec() == *final(r),
    {
        &mut self.view_builder
    }
}

impl<
    H: Hasher,
    PS: PseudoRandomGenerator,
    PV: PseudoRandomGenerator,
    S: Seed,
    WTP: WordTriplePool,
    BH: BackendHook,
> ChallengeBuildingIteration<H, PS, PV, S, ViewCommitmentsRelayer<H::Digest, S>, WTP, BH> {
    /// Finalizes this iteration: the commitments of its views are absorbed by the builder's
    /// challenge hasher.
    pub fn finalize(self, builder: &mut ChallengeBuilder<H, PS, PV, S, WTP>) -> (r: [ViewCommitment<H::Digest>; 3])
        requires
            self.view_builder_spec().wf(),
            unreferenced(self.view_builder_spec().model()),
        ensures
            final(builder).absorbed() == old(builder).absorbed() + commitments_bytes(r),
            final(builder).seed_prg() == old(builder).seed_prg(),
            self.view_builder_spec().spec_backend().spec_inner().committed(r),
    {
        let commitments = self.view_builder.finalize_with_arg(());
        builder.ingest_commitments(&commitments);
        commitments
    }
}

} // verus!
