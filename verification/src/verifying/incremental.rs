//! Iterative verification of a proof: each response is replayed, the commitments of the
//! replayed views are absorbed by the challenge hasher, and the challenges of the responses
//! are checked against those drawn from the resulting challenge entropy.
use crate::backend::backend::{unreferenced, Backend};
use crate::backend::frontend::Frontend;
use crate::crypto::hasher::{Digest, Hasher};
use crate::crypto::prg::{HashPRG, PseudoRandomGenerator, Seed};
use crate::prover::challenge::challenge::{
    draws_parties, first_valid_pair, lemma_generated_pair, seeded_pairs, ChallengeGenerator, PartyVec,
};
use crate::prover::proofs::response::Response;
use crate::prover::views::view::{commitments_bytes, ingest_commitments, ViewCommitment};
use crate::verifying::replay::backend::{ViewReplayError, ViewReplayerBackend};
use crate::verifying::replay::word_pool::WordPairPool;
use crate::word::by_word_type::ByWordType;
use crate::word::words::Words;
use crate::crypto::domain::{absorb_framed, TAG_CHALLENGE};
use crate::prover::challenge::builder::challenge_prefix;
use vstd::prelude::*;

verus! {

/// Verifier of a proof for an expected output: it absorbs the commitments of the replayed
/// views of each response and records the challenge parties of the responses.
pub struct Verifier<'a, H: Hasher, PV: PseudoRandomGenerator, S: Seed, WPP: WordPairPool> {
    expected_output: &'a Words,
    challenge_hasher: H,
    challenges: PartyVec,
    num_iters_ingested: usize,
    marker: Ghost<(PV, S, WPP)>,
}

impl<'a, H: Hasher, PV: PseudoRandomGenerator, S: Seed, WPP: WordPairPool> Verifier<'a, H, PV, S, WPP> {
    /// The vector of challenge parties is well formed.
    pub closed spec fn wf(self) -> bool {
        self.challenges.wf()
    }

    /// The expected output of the circuit.
    pub closed spec fn spec_expected_output(self) -> Words {
        *self.expected_output
    }

    /// The bytes absorbed by the challenge hasher.
    pub closed spec fn absorbed(self) -> Seq<u8> {
        self.challenge_hasher.absorbed()
    }

    /// The indices of the challenge parties of the responses, in order.
    pub closed spec fn spec_challenges(self) -> Seq<nat> {
        self.challenges.view()
    }

    /// The number of iterations whose commitments were absorbed.
    pub closed spec fn spec_num_iters_ingested(self) -> nat {
        self.num_iters_ingested as nat
    }

    /// Creates a verifier for the given expected output and the binding the proof was made
    /// with: the challenge hasher has absorbed the framed binding, as the prover's has, and no
    /// challenge is recorded.
    pub fn new(expected_output: &'a Words, binding: &[u8]) -> (r: Self)
        ensures
            r.wf(),
            r.spec_expected_output() == *expected_output,
            r.absorbed() == challenge_prefix(binding@),
            r.spec_challenges() == Seq::<nat>::empty(),
            r.spec_num_iters_ingested() == 0,
    {
        let mut challenge_hasher = H::new();
        absorb_framed(&mut challenge_hasher, TAG_CHALLENGE.as_slice(), binding);
        Verifier {
            expected_output,
            challenge_hasher,
            challenges: PartyVec::new(),
            num_iters_ingested: 0,
            marker: Ghost(vstd::pervasive::arbitrary()),
        }
    }

    /// The number of iterations whose commitments were absorbed.
    pub fn num_iters_ingested(&self) -> (r: usize)
        ensures
            r == self.spec_num_iters_ingested(),
    {
        self.num_iters_ingested
    }

    /// The next iteration, replaying the given response: its challenge party is recorded.
    pub fn next_iter<'b>(&mut self, response: &'b Response<H::Digest, S>) -> (r: VerifyingIteration<'b, H, PV, S, WPP>)
        requires
            old(self).wf(),
            old(self).spec_challenges().len() < usize::MAX,
        ensures
            final(self).wf(),
            final(self).spec_challenges() == old(self).spec_challenges().push(response.spec_challenge().spec_index()),
            final(self).spec_expected_output() == old(self).spec_expected_output(),
            final(self).absorbed() == old(self).absorbed(),
            final(self).spec_num_iters_ingested() == old(self).spec_num_iters_ingested(),
            r.view_replayer_spec().wf(),
            unreferenced(r.view_replayer_spec().model()),
            r.view_replayer_spec().spec_backend().spec_response() == *response,
            forall|p: nat| p < 2 ==> #[trigger] r.view_replayer_spec().spec_backend().absorbed(p) == Seq::<u8>::empty(),
            r.view_replayer_spec().spec_backend().and_cursor() == ByWordType::<usize>::spec_zero(),
            r.view_replayer_spec().spec_backend().input_cursor() == ByWordType::<usize>::spec_zero(),
    {
        self.challenges.push(response.challenge());
        let view_replayer = ViewReplayerBackend::<H, PV, S, WPP>::new(response).into_view_replayer();
        VerifyingIteration { view_replayer }
    }

    /// Whether the recorded challenge parties are those drawn, in order, from the generator
    /// seeded with the digest of the absorbed bytes.
    pub fn finalize(self) -> (r: bool)
        requires
            self.wf(),
        ensures
            r == draws_parties(seeded_pairs::<HashPRG<H>>(H::digest_of(self.absorbed())), self.spec_challenges()),
    {
        let mut h = self.challenge_hasher;
        let d = h.finalize();
        challenges_drawn::<H>(d.as_slice(), &self.challenges)
    }

    /// Absorbs the commitments of the replayed views of an iteration.
    fn ingest_commitments(&mut self, commitments: &[ViewCommitment<H::Digest>; 3])
        ensures
            final(self).absorbed() == old(self).absorbed() + commitments_bytes(*commitments),
            final(self).spec_challenges() == old(self).spec_challenges(),
            final(self).spec_expected_output() == old(self).spec_expected_output(),
            final(self).wf() == old(self).wf(),
            final(self).spec_num_iters_ingested() == old(self).spec_num_iters_ingested() + 1
                || old(self).spec_num_iters_ingested() == usize::MAX,
    {
        ingest_commitments(&mut self.challenge_hasher, commitments);
        if self.num_iters_ingested < usize::MAX {
            self.num_iters_ingested = self.num_iters_ingested + 1;
        }
    }
}

/// An iteration of a verification: a circuit is run on its view replayer, then the iteration
/// is finalized into its verifier.
pub struct VerifyingIteration<'b, H: Hasher, PV: PseudoRandomGenerator, S: Seed, WPP: WordPairPool> {
    view_replayer: Frontend<ViewReplayerBackend<'b, H, PV, S, WPP>>,
}

impl<'b, H: Hasher, PV: PseudoRandomGenerator, S: Seed, WPP: WordPairPool> VerifyingIteration<'b, H, PV, S, WPP> {
    /// The view replayer of this iteration.
    pub closed spec fn view_replayer_spec(self) -> Frontend<ViewReplayerBackend<'b, H, PV, S, WPP>> {
        self.view_replayer
    }

    /// The view replayer of this iteration, on which a circuit is run.
    pub fn view_replayer(&mut self) -> (r: &mut Frontend<ViewReplayerBackend<'b, H, PV, S, WPP>>)
        ensures
            *r == old(self).view_replayer_spec(),
            final(self).view_replayer_spec() == *final(r),
    {
        &mut self.view_replayer
    }

    /// Finalizes this iteration with the verifier's expected output: on success, the
    /// commitments of the replayed views are absorbed by the verifier's challenge hasher and
    /// returned; on a shape mismatch, the error is returned and the verifier is unchanged.
    pub fn finalize<'a>(self, verifier: &mut Verifier<'a, H, PV, S, WPP>) -> (r: Result<[ViewCommitment<H::Digest>; 3], ViewReplayError>)
        where 'a: 'b
        requires
            self.view_replayer_spec().wf(),
            unreferenced(self.view_replayer_spec().model()),
        ensures
            r is Ok <==> self.view_replayer_spec().spec_backend().finalizes(old(verifier).spec_expected_output()),
            final(verifier).spec_challenges() == old(verifier).spec_challenges(),
            final(verifier).spec_expected_output() == old(verifier).spec_expected_output(),
            final(verifier).wf() == old(verifier).wf(),
            match r {
                Ok(cs) => {
                    &&& self.view_replayer_spec().spec_backend().replayed(old(verifier).spec_expected_output(), cs)
                    &&& final(verifier).absorbed() == old(verifier).absorbed() + commitments_bytes(cs)
                },
                Err(e) => {
                    &&& self.view_replayer_spec().spec_backend().fails_with(old(verifier).spec_expected_output(), e)
                    &&& final(verifier).absorbed() == old(verifier).absorbed()
                },
            },
    {
        let expected: &'b Words = verifier.expected_output;
        match self.view_replayer.backend.finalize(expected) {
            Ok(cs) => {
                verifier.ingest_commitments(&cs);
                Ok(cs)
            },
            Err(e) => Err(e),
        }
    }
}


/// Whether the parties are those drawn, in order, by a challenge generator from the generator
/// seeded with the entropy. A party that is not found within `usize::MAX` bit pairs counts as
/// not drawn.
pub fn challenges_drawn<H: Hasher>(entropy: &[u8], challenges: &PartyVec) -> (r: bool)
    requires
        challenges.wf(),
    ensures
        r == draws_parties(seeded_pairs::<HashPRG<H>>(entropy@), challenges.view()),
{
    let ghost cs = challenges.view();
    let mut cg = ChallengeGenerator::new(HashPRG::<H>::new(entropy));
    let ghost s0 = seeded_pairs::<HashPRG<H>>(entropy@);
    proof {
        assert(cg.pairs() =~= s0);
        assert(cs.skip(0) =~= cs);
    }
    let n = challenges.len();
    let mut k: usize = 0;
    while k < n
        invariant
            k <= n,
            n == cs.len(),
            cs == challenges.view(),
            challenges.wf(),
            cg.wf(),
            draws_parties(s0, cs) == draws_parties(cg.pairs(), cs.skip(k as int)),
            s0 == seeded_pairs::<HashPRG<H>>(entropy@),
        decreases n - k,
    {
        let ghost before = cg;
        let e = match challenges.get(k) {
            Some(e) => e,
            None => {
                return false;
            },
        };
        let ghost rest = cs.skip(k as int);
        proof {
            assert(rest[0] == cs[k as int]);
            assert(rest.drop_first() =~= cs.skip(k + 1));
        }
        match cg.try_next(usize::MAX) {
            Some(p) => {
                proof {
                    lemma_generated_pair(before, p, cg);
                }
                if p.index() != e.index() {
                    return false;
                }
            },
            None => {
                proof {
                    let f = first_valid_pair(before.pairs());
                    if f < usize::MAX {
                        assert(before.pair(f) == 3);
                    }
                }
                return false;
            },
        }
        k = k + 1;
    }
    true
}

} // verus!
