//! Verifying proofs.
use crate::circuit::circuit::Circuit;
use crate::crypto::hasher::{Digest, Hasher};
use crate::crypto::prg::{HashPRG, PseudoRandomGenerator, Seed};
use crate::prover::challenge::challenge::{draws_parties, seeded_pairs};
use crate::prover::challenge::functions::all_commitments_bytes;
use crate::prover::proofs::response::Response;
use crate::prover::views::view::ViewCommitment;
use crate::backend::backend::Backend;
use crate::prover::challenge::challenge::PartyVec;
use crate::prover::views::view::ingest_commitments;
use crate::verifying::replay::backend::{ViewReplayError, ViewReplayerBackend};
use crate::verifying::replay::word_pool::WordPairPool;
use crate::verifying::incremental::{challenges_drawn, Verifier};
use crate::word::words::Words;
use crate::crypto::domain::{absorb_framed, TAG_CHALLENGE};
use crate::prover::challenge::builder::challenge_prefix;
use vstd::prelude::*;

verus! {

/// The indices of the challenge parties of the responses of a proof, in order.
pub open spec fn response_challenges<D: Digest, S: Seed>(proof: Seq<Response<D, S>>) -> Seq<nat> {
    proof.map_values(|r: Response<D, S>| r.spec_challenge().spec_index())
}

/// What a verification of `proof` against the expected output and binding returns, given the
/// view replayers the circuit left for the responses replayed, in order, and the commitments of
/// the successful replays: each replayer replays its response; all but possibly the last
/// succeed with their commitments. Either every response was replayed with success and the
/// result is whether the challenge parties of the responses are those drawn, as the prover
/// draws them, from the digest of the framed binding followed by the commitments; or the last
/// replay is the first to fail, and its error is returned.
pub open spec fn verification_outcome<'p, H: Hasher, PV: PseudoRandomGenerator, S: Seed, WPP: WordPairPool>(
    bs: Seq<ViewReplayerBackend<'p, H, PV, S, WPP>>,
    cs: Seq<[ViewCommitment<H::Digest>; 3]>,
    proof: Seq<Response<H::Digest, S>>,
    expected_output: Words,
    binding: Seq<u8>,
    r: Result<bool, ViewReplayError>,
) -> bool {
    &&& bs.len() <= proof.len()
    &&& forall|i: int| 0 <= i < bs.len() ==> #[trigger] bs[i].spec_response() == proof[i]
    &&& forall|i: int| 0 <= i < cs.len() ==> #[trigger] bs[i].finalizes(expected_output) && bs[i].replayed(expected_output, cs[i])
    &&& match r {
        Ok(b) => {
            &&& bs.len() == proof.len()
            &&& cs.len() == proof.len()
            &&& b == draws_parties(
                seeded_pairs::<HashPRG<H>>(H::digest_of(challenge_prefix(binding) + all_commitments_bytes(cs))),
                response_challenges(proof),
            )
        },
        Err(e) => {
            &&& bs.len() == cs.len() + 1
            &&& !bs[cs.len() as int].finalizes(expected_output)
            &&& bs[cs.len() as int].fails_with(expected_output, e)
        },
    }
}

/// Verifies a proof made with the given binding, for the circuit and the expected output: each
/// response is replayed by running the circuit, and the challenge parties of the responses are
/// checked against those drawn, as the prover draws them, from the digest of the framed binding
/// followed by the commitments of the replayed views. The first replay that does not succeed
/// ends the verification with its error.
pub fn verify<'p, C: Circuit, H: Hasher, PV: PseudoRandomGenerator, S: Seed, WPP: WordPairPool>(
    circuit: &C,
    expected_output: &Words,
    binding: &[u8],
    proof: &'p Vec<Response<H::Digest, S>>,
) -> (r: Result<bool, ViewReplayError>)
    ensures
        exists|bs: Seq<ViewReplayerBackend<'p, H, PV, S, WPP>>, cs: Seq<[ViewCommitment<H::Digest>; 3]>|
            #[trigger] verification_outcome(bs, cs, proof@, *expected_output, binding@, r),
        proof@.len() == 0 ==> r matches Ok(true),
{
    let mut verifier: Verifier<H, PV, S, WPP> = Verifier::new(expected_output, binding);
    let ghost mut log: Seq<[ViewCommitment<H::Digest>; 3]> = Seq::empty();
    let ghost mut bs: Seq<ViewReplayerBackend<'p, H, PV, S, WPP>> = Seq::empty();
    let mut i: usize = 0;
    while i < proof.len()
        invariant
            i <= proof@.len(),
            verifier.wf(),
            verifier.spec_expected_output() == *expected_output,
            log.len() == i,
            bs.len() == i,
            forall|k: int| 0 <= k < bs.len() ==> #[trigger] bs[k].spec_response() == proof@[k],
            forall|k: int| 0 <= k < log.len() ==> #[trigger] bs[k].finalizes(*expected_output) && bs[k].replayed(*expected_output, log[k]),
            verifier.absorbed() == challenge_prefix(binding@) + all_commitments_bytes(log),
            verifier.spec_challenges() == response_challenges(proof@.take(i as int)),
        decreases proof@.len() - i,
    {
        let response = &proof[i];
        let mut iter = verifier.next_iter(response);
        circuit.exec(iter.view_replayer());
        let ghost b = iter.view_replayer_spec().spec_backend();
        let res = iter.finalize(&mut verifier);
        let cs = match res {
            Ok(cs) => cs,
            Err(e) => {
                proof {
                    let bs2 = bs.push(b);
                    assert(bs2[log.len() as int] == b);
                    assert forall|k: int| 0 <= k < log.len() implies #[trigger] bs2[k].finalizes(*expected_output) && bs2[k].replayed(*expected_output, log[k]) by {
                        assert(bs2[k] == bs[k]);
                    }
                    assert forall|k: int| 0 <= k < bs2.len() implies #[trigger] bs2[k].spec_response() == proof@[k] by {
                        if k < bs.len() {
                            assert(bs2[k] == bs[k]);
                        }
                    }
                    assert(verification_outcome(bs2, log, proof@, *expected_output, binding@, Err(e)));
                }
                return Err(e);
            },
        };
        proof {
            let bs0 = bs;
            let log0 = log;
            assert(log.push(cs).drop_last() =~= log);
            assert(verifier.absorbed() =~= challenge_prefix(binding@) + all_commitments_bytes(log.push(cs)));
            log = log.push(cs);
            bs = bs.push(b);
            assert forall|k: int| 0 <= k < bs.len() implies #[trigger] bs[k].spec_response() == proof@[k] by {
                if k < bs0.len() {
                    assert(bs[k] == bs0[k]);
                }
            }
            assert forall|k: int| 0 <= k < log.len() implies #[trigger] bs[k].finalizes(*expected_output) && bs[k].replayed(*expected_output, log[k]) by {
                if k < log0.len() {
                    assert(bs[k] == bs0[k]);
                    assert(log[k] == log0[k]);
                }
            }
            assert(response_challenges(proof@.take(i + 1)) =~= response_challenges(proof@.take(i as int)).push(proof@[i as int].spec_challenge().spec_index()));
        }
        i = i + 1;
    }
    proof {
        assert(proof@.take(i as int) =~= proof@);
    }
    let r = verifier.finalize();
    proof {
        assert(verification_outcome(bs, log, proof@, *expected_output, binding@, Ok(r)));
    }
    Ok(r)
}


/// Replays one response: the circuit is run on a view replayer for the response, which is then
/// finalized with the expected output. The result is that of finalizing the replayer of the
/// response that the circuit left, whose state the circuit alone determines.
pub fn replay_response<C: Circuit, H: Hasher, PV: PseudoRandomGenerator, S: Seed, WPP: WordPairPool>(
    circuit: &C,
    expected_output: &Words,
    response: &Response<H::Digest, S>,
) -> (r: Result<[ViewCommitment<H::Digest>; 3], ViewReplayError>)
    ensures
        exists|b: ViewReplayerBackend<H, PV, S, WPP>| #![trigger b.finalizes(*expected_output)]
            b.spec_response() == *response
            && (r is Ok <==> b.finalizes(*expected_output))
            && (r matches Ok(cs) ==> b.replayed(*expected_output, cs))
            && (r matches Err(e) ==> b.fails_with(*expected_output, e)),
{
    let mut replayer = ViewReplayerBackend::<H, PV, S, WPP>::new(response).into_view_replayer();
    circuit.exec(&mut replayer);
    let ghost b = replayer.spec_backend();
    let r = replayer.backend.finalize(expected_output);
    proof {
        assert(b.spec_response() == *response);
    }
    r
}

/// Whether the challenge parties of the responses are those drawn, in order, from the digest of
/// the framed binding followed by the given commitments of the replayed views of each response.
pub fn check_challenges<H: Hasher, S: Seed>(binding: &[u8], commitments: &Vec<[ViewCommitment<H::Digest>; 3]>, proof: &Vec<Response<H::Digest, S>>) -> (r: bool)
    ensures
        r == draws_parties(
            seeded_pairs::<HashPRG<H>>(H::digest_of(challenge_prefix(binding@) + all_commitments_bytes(commitments@))),
            response_challenges(proof@),
        ),
{
    let mut h = H::new();
    absorb_framed(&mut h, TAG_CHALLENGE.as_slice(), binding);
    let mut k: usize = 0;
    while k < commitments.len()
        invariant
            k <= commitments@.len(),
            h.absorbed() == challenge_prefix(binding@) + all_commitments_bytes(commitments@.take(k as int)),
        decreases commitments@.len() - k,
    {
        ingest_commitments(&mut h, &commitments[k]);
        proof {
            assert(commitments@.take(k + 1).drop_last() =~= commitments@.take(k as int));
            assert(h.absorbed() =~= challenge_prefix(binding@) + all_commitments_bytes(commitments@.take(k + 1)));
        }
        k = k + 1;
    }
    proof {
        assert(commitments@.take(k as int) =~= commitments@);
    }
    let d = h.finalize();
    let mut challenges = PartyVec::new();
    let mut i: usize = 0;
    while i < proof.len()
        invariant
            i <= proof@.len(),
            challenges.wf(),
            challenges.view() == response_challenges(proof@.take(i as int)),
        decreases proof@.len() - i,
    {
        challenges.push(proof[i].challenge());
        proof {
            assert(response_challenges(proof@.take(i + 1)) =~= response_challenges(proof@.take(i as int)).push(proof@[i as int].spec_challenge().spec_index()));
        }
        i = i + 1;
    }
    proof {
        assert(proof@.take(i as int) =~= proof@);
    }
    challenges_drawn::<H>(d.as_slice(), &challenges)
}

} // verus!
