//! Building proofs.
use crate::backend::hook::BackendHook;
use crate::circuit::circuit::Circuit;
use crate::crypto::hasher::Hasher;
use crate::crypto::prg::{future_bytes, GeneratesRandom, HashPRG, PseudoRandomGenerator, Seed};
use crate::prover::challenge::challenge::{draws_parties, lemma_generated_pair, lemma_no_party, seeded_pairs, stops_after, ChallengeGenerator, Party};
use crate::prover::proofs::builder::ProofBuilder;
use crate::prover::proofs::collectors::ResponseDataCollector;
use crate::prover::proofs::options::ProofOptions;
use crate::prover::views::word_pool::WordTriplePool;
use crate::prover::views::backend::ViewBuilderBackend;
use crate::prover::views::collectors::{ResponseDataSelector, ViewsDataCollector};
use crate::backend::backend::Backend;
use vstd::prelude::*;

verus! {

/// The bytes of seed number `j` drawn from the stream of the generator created from `seed`: the
/// seeds of iteration `i` are seeds `3i`, `3i + 1` and `3i + 2`.
pub open spec fn seeded_seed_bytes<PS: PseudoRandomGenerator>(seed: Seq<u8>, j: nat, size: nat) -> Seq<u8> {
    Seq::new(size, |b: int| PS::seeded(seed, (j * size + b) as nat))
}

/// The indices of the challenge parties of a sequence of iterations.
pub open spec fn challenge_indices<S>(r: Seq<([S; 3], Party)>) -> Seq<nat> {
    r.map_values(|x: ([S; 3], Party)| x.1.spec_index())
}

/// The indices of the challenge parties of the view builders of a proof's iterations.
pub open spec fn builders_challenges<H: Hasher, PV: PseudoRandomGenerator, S: Seed, RDC: ResponseDataCollector<H::Digest, S>, WTP: WordTriplePool>(
    bs: Seq<ViewBuilderBackend<H, PV, S, ResponseDataSelector<H::Digest, S, RDC>, WTP>>,
) -> Seq<nat> {
    bs.map_values(|b: ViewBuilderBackend<H, PV, S, ResponseDataSelector<H::Digest, S, RDC>, WTP>| b.spec_collector().spec_inner().spec_challenge().spec_index())
}

/// The response data `rs` are those of the view builders `bs` the circuit left, one per
/// iteration: the challenge parties of the builders are drawn in order from the challenge
/// entropy; the collector of iteration `i`, for challenge party `j`, holds seeds `3i + j` and
/// `3i + j + 1` (mod 3 within the iteration) of the stream of the seed entropy, and its
/// finalization is the response data of the iteration.
pub open spec fn built_proof<H: Hasher, PS: PseudoRandomGenerator, PV: PseudoRandomGenerator, S: Seed, RDC: ResponseDataCollector<H::Digest, S>, WTP: WordTriplePool>(
    bs: Seq<ViewBuilderBackend<H, PV, S, ResponseDataSelector<H::Digest, S, RDC>, WTP>>,
    rs: Seq<RDC::FinalizeRes>,
    seed_entropy: Seq<u8>,
    challenge_entropy: Seq<u8>,
) -> bool {
    &&& bs.len() == rs.len()
    &&& draws_parties(seeded_pairs::<HashPRG<H>>(challenge_entropy), builders_challenges(bs))
    &&& forall|i: int| 0 <= i < bs.len() ==> #[trigger] seeds_as_drawn::<PS, PV, S, H, RDC, WTP>(bs[i], seed_entropy, i)
    &&& forall|i: int| 0 <= i < bs.len() ==> #[trigger] bs[i].finalized((), rs[i])
}

/// The collector of the view builder of iteration `i`, for challenge party `j`, holds seeds
/// `3i + j` and `3i + j + 1` (mod 3 within the iteration) of the stream of the seed entropy.
pub open spec fn seeds_as_drawn<PS: PseudoRandomGenerator, PV: PseudoRandomGenerator, S: Seed, H: Hasher, RDC: ResponseDataCollector<H::Digest, S>, WTP: WordTriplePool>(
    b: ViewBuilderBackend<H, PV, S, ResponseDataSelector<H::Digest, S, RDC>, WTP>,
    seed_entropy: Seq<u8>,
    i: int,
) -> bool {
    let c = b.spec_collector().spec_inner();
    let j = c.spec_challenge().spec_index();
    &&& c.spec_seed_challenge_party().bytes() == seeded_seed_bytes::<PS>(seed_entropy, (3 * i + j) as nat, S::size())
    &&& c.spec_seed_next_party().bytes() == seeded_seed_bytes::<PS>(seed_entropy, (3 * i + (j + 1) % 3) as nat, S::size())
}

/// The three seeds drawn from a seed generator at seed `3i` of the stream of the seed entropy
/// are seeds `3i`, `3i + 1` and `3i + 2`, and leave the generator at seed `3(i + 1)`.
pub proof fn lemma_drawn_seeds<PS: PseudoRandomGenerator, S: Seed>(sp: PS, seeds: [S; 3], np: PS, seed_entropy: Seq<u8>, i: nat)
    requires
        <PS as GeneratesRandom<[S; 3]>>::generates(sp, seeds, np),
        forall|t: nat| #[trigger] sp.future(t) == PS::seeded(seed_entropy, (3 * S::size() * i + t) as nat),
    ensures
        forall|k: int| 0 <= k < 3 ==> #[trigger] seeds[k].bytes() == seeded_seed_bytes::<PS>(seed_entropy, (3 * i + k) as nat, S::size()),
        forall|t: nat| #[trigger] np.future(t) == PS::seeded(seed_entropy, (3 * S::size() * (i + 1) + t) as nat),
{
    let z = S::size();
    assert forall|k: int| 0 <= k < 3 implies #[trigger] seeds[k].bytes() == seeded_seed_bytes::<PS>(seed_entropy, (3 * i + k) as nat, z) by {
        assert forall|b: int| 0 <= b < z implies #[trigger] seeds[k].bytes()[b] == PS::seeded(seed_entropy, ((3 * i + k) * z + b) as nat) by {
            assert(sp.future((k * z + b) as nat) == PS::seeded(seed_entropy, (3 * z * i + k * z + b) as nat));
            assert(3 * z * i + k * z + b == (3 * i + k) * z + b) by (nonlinear_arith);
            if k == 0 {
                assert(seeds[k].bytes() == future_bytes(sp, 0, z));
            } else if k == 1 {
                assert(seeds[k].bytes() == future_bytes(sp, z, z));
            } else {
                assert(seeds[k].bytes() == future_bytes(sp, 2 * z, z));
            }
        }
        assert(seeds[k].bytes() =~= seeded_seed_bytes::<PS>(seed_entropy, (3 * i + k) as nat, z));
    }
    assert forall|t: nat| #[trigger] np.future(t) == PS::seeded(seed_entropy, (3 * z * (i + 1) + t) as nat) by {
        assert(np.future(t) == sp.future(t + 3 * z));
        assert(3 * z * i + (t + 3 * z) == 3 * z * (i + 1) + t) by (nonlinear_arith);
    }
}

/// Builds a proof of `num_iters` iterations of the circuit, the challenge parties being drawn
/// from the challenge entropy: the response data of each iteration, in order. Fewer are
/// returned only if the challenge generator rejects `usize::MAX` bit pairs in a row.
#[verifier::rlimit(40)]
pub fn build_proof<C: Circuit, H: Hasher, PS: PseudoRandomGenerator, PV: PseudoRandomGenerator, S: Seed, RDC: ResponseDataCollector<H::Digest, S>, WTP: WordTriplePool, BH: BackendHook>(
    circuit: &C,
    seed_entropy: &[u8],
    challenge_entropy: Vec<u8>,
    num_iters: usize,
    options: ProofOptions<H::Digest, S, RDC, BH>,
) -> (r: Vec<RDC::FinalizeRes>)
    ensures
        r@.len() <= num_iters,
        r@.len() == num_iters || stops_after(seeded_pairs::<HashPRG<H>>(challenge_entropy@), r@.len()),
        exists|bs: Seq<ViewBuilderBackend<H, PV, S, ResponseDataSelector<H::Digest, S, RDC>, WTP>>|
            #[trigger] built_proof::<H, PS, PV, S, RDC, WTP>(bs, r@, seed_entropy@, challenge_entropy@),
{
    let ghost s0 = seeded_pairs::<HashPRG<H>>(challenge_entropy@);
    let ghost ce = challenge_entropy@;
    let mut builder = ProofBuilder::<H, PS, PV, S, RDC, WTP, BH>::new_with_arg_hooked(
        seed_entropy,
        challenge_entropy,
        num_iters,
        options.collector_arg(),
        options.hook_arg(),
    );
    let ghost mut ps: Seq<nat> = Seq::empty();
    proof {
        assert forall|qs: Seq<nat>| #[trigger] draws_parties(s0, ps + qs) == draws_parties(builder.spec_challenge_generator().pairs(), qs) by {
            assert(ps + qs =~= qs);
        }
    }
    let mut res: Vec<RDC::FinalizeRes> = Vec::new();
    proof {
        assert forall|t: nat| #[trigger] builder.spec_seed_prg().future(t) == PS::seeded(seed_entropy@, (3 * S::size() * res@.len() + t) as nat) by {
            assert(3 * S::size() * res@.len() == 0) by (nonlinear_arith)
                requires
                    res@.len() == 0,
            ;
        }
    }
    let ghost mut bs: Seq<ViewBuilderBackend<H, PV, S, ResponseDataSelector<H::Digest, S, RDC>, WTP>> = Seq::empty();
    loop
        invariant_except_break
            forall|qs: Seq<nat>| #[trigger] draws_parties(s0, ps + qs) == draws_parties(builder.spec_challenge_generator().pairs(), qs),
            forall|t: nat| #[trigger] builder.spec_seed_prg().future(t) == PS::seeded(seed_entropy@, (3 * S::size() * res@.len() + t) as nat),
        invariant
            builder.wf(),
            builder.spec_num_iters() == num_iters,
            res@.len() == builder.spec_num_iters_yielded(),
            builder.spec_num_iters_yielded() <= builder.spec_num_iters(),
            ps.len() == res@.len(),
            s0 == seeded_pairs::<HashPRG<H>>(ce),
            ce == challenge_entropy@,
            ps == builders_challenges(bs),
            bs.len() == res@.len(),
            forall|i: int| 0 <= i < bs.len() ==> #[trigger] seeds_as_drawn::<PS, PV, S, H, RDC, WTP>(bs[i], seed_entropy@, i),
            forall|i: int| 0 <= i < bs.len() ==> #[trigger] bs[i].finalized((), res@[i]),
        ensures
            res@.len() <= num_iters,
            res@.len() == num_iters || stops_after(s0, res@.len()),
            draws_parties(s0, ps),
        decreases builder.spec_num_iters() - builder.spec_num_iters_yielded(),
    {
        let ghost before = builder.spec_challenge_generator();
        let ghost yielded = builder.spec_num_iters_yielded();
        let ghost sp = builder.spec_seed_prg();
        match builder.next_iter() {
            Some(mut iter) => {
                let ghost seeds = iter.view_builder_spec().spec_backend().key().0;
                proof {
                    lemma_drawn_seeds::<PS, S>(sp, seeds, builder.spec_seed_prg(), seed_entropy@, res@.len());
                }
                proof {
                    let p = iter.spec_challenge();
                    lemma_generated_pair(before, p, builder.spec_challenge_generator());
                    assert forall|qs: Seq<nat>| #[trigger] draws_parties(s0, ps.push(p.spec_index()) + qs) == draws_parties(builder.spec_challenge_generator().pairs(), qs) by {
                        let q2 = seq![p.spec_index()] + qs;
                        assert(ps.push(p.spec_index()) + qs =~= ps + q2);
                        assert(q2.drop_first() =~= qs);
                        assert(draws_parties(s0, ps + q2) == draws_parties(before.pairs(), q2));
                    }
                    ps = ps.push(p.spec_index());
                }
                let ghost p = iter.spec_challenge();
                circuit.exec(iter.view_builder());
                let ghost b = iter.view_builder_spec().spec_backend().spec_inner();
                proof {
                    b.lemma_collector_inv();
                    b.spec_collector().lemma_set_up();
                    assert(b.key().0 == seeds);
                    assert(b.key().1.0 == p);
                }
                let ghost res0 = res@;
                let ghost bs0 = bs;
                let rr = iter.finalize();
                res.push(rr);
                proof {
                    assert(b.finalized((), rr));
                    bs = bs.push(b);
                    let i = res0.len() as int;
                    let j = p.spec_index();
                    p.lemma_index();
                    assert(seeds[j as int].bytes() == seeded_seed_bytes::<PS>(seed_entropy@, (3 * i + j) as nat, S::size()));
                    assert(seeds[((j + 1) % 3) as int].bytes() == seeded_seed_bytes::<PS>(seed_entropy@, (3 * i + (j + 1) % 3) as nat, S::size()));
                    assert(builders_challenges(bs) =~= builders_challenges(bs0).push(j));
                    assert forall|k: int| 0 <= k < bs.len() implies #[trigger] seeds_as_drawn::<PS, PV, S, H, RDC, WTP>(bs[k], seed_entropy@, k)
                        && bs[k].finalized((), res@[k]) by {
                        if k < i {
                            assert(bs[k] == bs0[k]);
                            assert(res@[k] == res0[k]);
                            assert(bs0[k].finalized((), res0[k]));
                            assert(seeds_as_drawn::<PS, PV, S, H, RDC, WTP>(bs0[k], seed_entropy@, k));
                        } else {
                            assert(bs[k] == b);
                            assert(res@[k] == rr);
                            let c = b.spec_collector().spec_inner();
                            assert(c.spec_challenge() == p);
                            assert(b.spec_collector().seeds() == seeds);
                            assert(c.spec_seed_challenge_party().bytes() == seeds[j as int].bytes());
                            assert(c.spec_seed_next_party().bytes() == seeds[((j + 1) % 3) as int].bytes());
                            assert(k == i);
                            assert(c.spec_seed_challenge_party().bytes() == seeded_seed_bytes::<PS>(seed_entropy@, (3 * k + j) as nat, S::size()));
                            assert(c.spec_seed_next_party().bytes() == seeded_seed_bytes::<PS>(seed_entropy@, (3 * k + (j + 1) % 3) as nat, S::size()));
                            assert(bs[k].finalized((), res@[k]));
                        }
                    }
                }
            },
            None => {
                proof {
                    if yielded < num_iters {
                        assert(draws_parties(s0, ps + Seq::<nat>::empty()) == draws_parties(before.pairs(), Seq::<nat>::empty()));
                        assert(ps + Seq::<nat>::empty() =~= ps);
                        assert forall|p: nat| !draws_parties(s0, #[trigger] ps.push(p)) by {
                            assert(ps.push(p) =~= ps + seq![p]);
                            assert(draws_parties(s0, ps + seq![p]) == draws_parties(before.pairs(), seq![p]));
                            assert forall|t: nat| t < usize::MAX implies #[trigger] before.pairs()(t) == 3 by {
                                assert(before.pair(t) == 3);
                            }
                            lemma_no_party(before.pairs(), p);
                        }
                    }
                }
                proof {
                    assert(ps + Seq::<nat>::empty() =~= ps);
                    assert(draws_parties(s0, ps + Seq::<nat>::empty()) == draws_parties(before.pairs(), Seq::<nat>::empty()));
                }
                break ;
            },
        }
    }
    proof {
        assert(built_proof::<H, PS, PV, S, RDC, WTP>(bs, res@, seed_entropy@, challenge_entropy@));
    }
    res
}

/// The seeds and challenge parties of `num_iters` iterations, drawn in order from the seed
/// generator seeded with the seed entropy and from the challenge generator drawing from the
/// challenge entropy; fewer only if the challenge generator rejects `usize::MAX` bit pairs in
/// a row.
pub fn seeds_and_challenges<H: Hasher, PS: PseudoRandomGenerator, S: Seed>(seed_entropy: &[u8], challenge_entropy: &[u8], num_iters: usize) -> (r: Vec<([S; 3], Party)>)
    ensures
        r@.len() <= num_iters,
        draws_parties(seeded_pairs::<HashPRG<H>>(challenge_entropy@), challenge_indices(r@)),
        r@.len() == num_iters || stops_after(seeded_pairs::<HashPRG<H>>(challenge_entropy@), r@.len()),
        forall|i: int, k: int| 0 <= i < r@.len() && 0 <= k < 3 ==> #[trigger] r@[i].0[k].bytes() == seeded_seed_bytes::<PS>(
            seed_entropy@,
            (3 * i + k) as nat,
            S::size(),
        ),
{
    let mut seed_prg = PS::new(seed_entropy);
    let mut challenge_generator = ChallengeGenerator::new(HashPRG::<H>::new(challenge_entropy));
    let ghost s0 = seeded_pairs::<HashPRG<H>>(challenge_entropy@);
    proof {
        assert(challenge_generator.pairs() =~= s0);
    }
    let mut r: Vec<([S; 3], Party)> = Vec::new();
    let ghost mut ps: Seq<nat> = Seq::empty();
    let mut i: usize = 0;
    while i < num_iters
        invariant
            i <= num_iters,
            r@.len() == i,
            seed_prg.wf(),
            challenge_generator.wf(),
            ps == challenge_indices(r@),
            s0 == seeded_pairs::<HashPRG<H>>(challenge_entropy@),
            forall|qs: Seq<nat>| #[trigger] draws_parties(s0, ps + qs) == draws_parties(challenge_generator.pairs(), qs),
            forall|t: nat| #[trigger] seed_prg.future(t) == PS::seeded(seed_entropy@, (3 * S::size() * i + t) as nat),
            forall|j: int, k: int| 0 <= j < r@.len() && 0 <= k < 3 ==> #[trigger] r@[j].0[k].bytes() == seeded_seed_bytes::<PS>(
                seed_entropy@,
                (3 * j + k) as nat,
                S::size(),
            ),
        decreases num_iters - i,
    {
        let ghost sp = seed_prg;
        let seeds: [S; 3] = seed_prg.next();
        proof {
            let z = S::size();
            assert forall|k: int| 0 <= k < 3 implies #[trigger] seeds[k].bytes() == seeded_seed_bytes::<PS>(seed_entropy@, (3 * i + k) as nat, z) by {
                assert forall|b: int| 0 <= b < z implies #[trigger] seeds[k].bytes()[b] == PS::seeded(seed_entropy@, ((3 * i + k) * z + b) as nat) by {
                    assert(sp.future((k * z + b) as nat) == PS::seeded(seed_entropy@, (3 * z * i + k * z + b) as nat));
                    assert(3 * z * i + k * z + b == (3 * i + k) * z + b) by (nonlinear_arith);
                    if k == 0 {
                        assert(seeds[k].bytes() == future_bytes(sp, 0, z));
                    } else if k == 1 {
                        assert(seeds[k].bytes() == future_bytes(sp, z, z));
                    } else {
                        assert(seeds[k].bytes() == future_bytes(sp, 2 * z, z));
                    }
                }
                assert(seeds[k].bytes() =~= seeded_seed_bytes::<PS>(seed_entropy@, (3 * i + k) as nat, z));
            }
            assert forall|t: nat| #[trigger] seed_prg.future(t) == PS::seeded(seed_entropy@, (3 * z * (i + 1) + t) as nat) by {
                assert(seed_prg.future(t) == sp.future(t + 3 * z));
                assert(3 * z * i + (t + 3 * z) == 3 * z * (i + 1) + t) by (nonlinear_arith);
            }
        }
        let ghost before = challenge_generator;
        match challenge_generator.try_next(usize::MAX) {
            Some(p) => {
                proof {
                    lemma_generated_pair(before, p, challenge_generator);
                    assert forall|qs: Seq<nat>| #[trigger] draws_parties(s0, ps.push(p.spec_index()) + qs) == draws_parties(challenge_generator.pairs(), qs) by {
                        let q2 = seq![p.spec_index()] + qs;
                        assert(ps.push(p.spec_index()) + qs =~= ps + q2);
                        assert(q2.drop_first() =~= qs);
                        assert(draws_parties(s0, ps + q2) == draws_parties(before.pairs(), q2));
                    }
                    ps = ps.push(p.spec_index());
                }
                let ghost r0 = r@;
                r.push((seeds, p));
                proof {
                    assert(ps =~= challenge_indices(r@));
                    assert forall|j: int, k: int| 0 <= j < r@.len() && 0 <= k < 3 implies #[trigger] r@[j].0[k].bytes() == seeded_seed_bytes::<PS>(
                        seed_entropy@,
                        (3 * j + k) as nat,
                        S::size(),
                    ) by {
                        if j < r0.len() {
                            assert(r@[j] == r0[j]);
                        }
                    }
                }
            },
            None => {
                proof {
                    assert(draws_parties(s0, ps + Seq::<nat>::empty()) == draws_parties(before.pairs(), Seq::<nat>::empty()));
                    assert(ps + Seq::<nat>::empty() =~= ps);
                    assert forall|p: nat| !draws_parties(s0, #[trigger] ps.push(p)) by {
                        assert(ps.push(p) =~= ps + seq![p]);
                        assert(draws_parties(s0, ps + seq![p]) == draws_parties(before.pairs(), seq![p]));
                        assert forall|t: nat| t < usize::MAX implies #[trigger] before.pairs()(t) == 3 by {
                            assert(before.pair(t) == 3);
                        }
                        lemma_no_party(before.pairs(), p);
                    }
                    assert(ps.len() == r@.len());
                }
                return r;
            },
        }
        i = i + 1;
    }
    proof {
        assert(draws_parties(s0, ps + Seq::<nat>::empty()) == draws_parties(challenge_generator.pairs(), Seq::<nat>::empty()));
        assert(ps + Seq::<nat>::empty() =~= ps);
    }
    r
}

} // verus!
