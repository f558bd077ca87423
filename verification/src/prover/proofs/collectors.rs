//! Collectors of the data of a response, fed by the view builder of an iteration.
use crate::crypto::hasher::Digest;
use crate::crypto::prg::Seed;
use crate::executor::backend::out_vals;
use crate::prover::challenge::challenge::Party;
use crate::prover::proofs::response::Response;
use crate::word::by_word_type::is_word_width;
use crate::word::collectors::{word_vals, OwnedWordCollector, WordCollector};
use crate::word::composite::CompositeWord;
use crate::word::word::Word;
use crate::word::words::Words;
use crate::backend::hook::Reusable;
use vstd::prelude::*;

verus! {

/// Collectors of the data of a response for a given challenge party: the input shares of
/// party 2 and the AND messages received by the party after the challenge party, in the order
/// the view builder produces them.
pub trait ResponseDataCollector<D: Digest, S: Seed>: Sized {
    /// Additional argument of the constructor.
    type InitArg: Reusable;

    /// Result of finalization.
    type FinalizeRes;

    /// Well-formedness.
    spec fn inv(&self) -> bool;

    /// The challenge party.
    spec fn spec_challenge(&self) -> Party;

    /// The seed of the challenge party.
    spec fn spec_seed_challenge_party(&self) -> S;

    /// The seed of the party after the challenge party.
    spec fn spec_seed_next_party(&self) -> S;

    /// The input shares of party 2 pushed so far, as pairs of a width and word values.
    spec fn input_log(&self) -> Seq<(nat, Seq<nat>)>;

    /// The AND messages pushed so far, as pairs of a width and word values.
    spec fn and_log(&self) -> Seq<(nat, Seq<nat>)>;

    /// Whether `r` is the result of finalizing `c` with the given digest of the unopened view.
    spec fn finalized(c: Self, digest: D, r: Self::FinalizeRes) -> bool;

    /// Creates a collector for the given challenge party and the seeds of the challenge party
    /// and of the next party.
    fn new(challenge: Party, seed_challenge_party: S, seed_next_party: S, arg: Self::InitArg) -> (r: Self)
        ensures
            r.inv(),
            r.spec_challenge() == challenge,
            r.spec_seed_challenge_party() == seed_challenge_party,
            r.spec_seed_next_party() == seed_next_party,
            r.input_log() == Seq::<(nat, Seq<nat>)>::empty(),
            r.and_log() == Seq::<(nat, Seq<nat>)>::empty(),
    ;

    /// Pushes an input share of party 2.
    fn push_input_share2<W: Word, const N: usize>(&mut self, word: CompositeWord<W, N>)
        requires
            old(self).inv(),
        ensures
            final(self).inv(),
            final(self).input_log() == old(self).input_log().push((W::spec_width(), word_vals(word))),
            final(self).and_log() == old(self).and_log(),
            final(self).spec_challenge() == old(self).spec_challenge(),
            final(self).spec_seed_challenge_party() == old(self).spec_seed_challenge_party(),
            final(self).spec_seed_next_party() == old(self).spec_seed_next_party(),
    ;

    /// Pushes an AND message received by the party after the challenge party.
    fn push_and_msg<W: Word, const N: usize>(&mut self, and_msg_next_party: CompositeWord<W, N>)
        requires
            old(self).inv(),
        ensures
            final(self).inv(),
            final(self).input_log() == old(self).input_log(),
            final(self).and_log() == old(self).and_log().push((W::spec_width(), word_vals(and_msg_next_party))),
            final(self).spec_challenge() == old(self).spec_challenge(),
            final(self).spec_seed_challenge_party() == old(self).spec_seed_challenge_party(),
            final(self).spec_seed_next_party() == old(self).spec_seed_next_party(),
    ;

    /// Finalizes the collector with the commitment digest of the unopened view.
    fn finalize(self, commitment_digest_unopened: D) -> (r: Self::FinalizeRes)
        requires
            self.inv(),
        ensures
            Self::finalized(self, commitment_digest_unopened, r),
    ;
}

/// Response data collector keeping the input shares of party 2 and the AND messages in two word
/// collectors.
pub struct ResponseDataCollectorAdapter<D: Digest, S: Seed, WCI: WordCollector, WCM: WordCollector> {
    challenge: Party,
    seed_challenge_party: S,
    seed_next_party: S,
    input_share_2: WCI,
    and_msgs_next_party: WCM,
    marker: Ghost<D>,
}

impl<D: Digest, S: Seed, WCI: WordCollector, WCM: WordCollector> ResponseDataCollectorAdapter<D, S, WCI, WCM> {
    /// The collector of the input shares of party 2.
    pub closed spec fn input_collector(self) -> WCI {
        self.input_share_2
    }

    /// The collector of the AND messages.
    pub closed spec fn and_collector(self) -> WCM {
        self.and_msgs_next_party
    }
}

impl<D: Digest, S: Seed, WCI: WordCollector, WCM: WordCollector> ResponseDataCollector<D, S> for ResponseDataCollectorAdapter<
    D,
    S,
    WCI,
    WCM,
> {
    type InitArg = ();

    type FinalizeRes = (Party, S, S, WCI::FinalizeResult, WCM::FinalizeResult, D);

    open spec fn inv(&self) -> bool {
        self.input_collector().inv() && self.and_collector().inv()
    }

    closed spec fn spec_challenge(&self) -> Party {
        self.challenge
    }

    closed spec fn spec_seed_challenge_party(&self) -> S {
        self.seed_challenge_party
    }

    closed spec fn spec_seed_next_party(&self) -> S {
        self.seed_next_party
    }

    open spec fn input_log(&self) -> Seq<(nat, Seq<nat>)> {
        self.input_collector().pushed()
    }

    open spec fn and_log(&self) -> Seq<(nat, Seq<nat>)> {
        self.and_collector().pushed()
    }

    /// The challenge party, the two seeds, the finalized collectors and the digest.
    open spec fn finalized(c: Self, digest: D, r: Self::FinalizeRes) -> bool {
        &&& r.0 == c.spec_challenge()
        &&& r.1 == c.spec_seed_challenge_party()
        &&& r.2 == c.spec_seed_next_party()
        &&& WCI::finalized(c.input_collector(), r.3)
        &&& WCM::finalized(c.and_collector(), r.4)
        &&& r.5 == digest
    }

    fn new(challenge: Party, seed_challenge_party: S, seed_next_party: S, arg: ()) -> (r: Self) {
        ResponseDataCollectorAdapter {
            challenge,
            seed_challenge_party,
            seed_next_party,
            input_share_2: WCI::empty(),
            and_msgs_next_party: WCM::empty(),
            marker: Ghost(vstd::pervasive::arbitrary()),
        }
    }

    fn push_input_share2<W: Word, const N: usize>(&mut self, word: CompositeWord<W, N>) {
        self.input_share_2.push(word);
    }

    fn push_and_msg<W: Word, const N: usize>(&mut self, and_msg_next_party: CompositeWord<W, N>) {
        self.and_msgs_next_party.push(and_msg_next_party);
    }

    fn finalize(self, commitment_digest_unopened: D) -> (r: Self::FinalizeRes) {
        let ResponseDataCollectorAdapter { challenge, seed_challenge_party, seed_next_party, input_share_2, and_msgs_next_party, marker } = self;
        (challenge, seed_challenge_party, seed_next_party, input_share_2.finalize(), and_msgs_next_party.finalize(), commitment_digest_unopened)
    }
}

/// Whether `r` is the response made of the collected data: the challenge party, the seeds, the
/// given digest, the AND messages collected, and the input shares of party 2 collected unless
/// the challenge party is party 0.
pub open spec fn response_of<D: Digest, S: Seed>(
    r: Response<D, S>,
    challenge: Party,
    seed_challenge_party: S,
    seed_next_party: S,
    input_log: Seq<(nat, Seq<nat>)>,
    and_log: Seq<(nat, Seq<nat>)>,
    digest: D,
) -> bool {
    &&& r.spec_challenge().spec_index() == challenge.spec_index()
    &&& r.spec_seed_challenge_party() == seed_challenge_party
    &&& r.spec_seed_next_party() == seed_next_party
    &&& r.spec_commitment_digest_unopened() == digest
    &&& forall|w: nat| is_word_width(w) ==> #[trigger] r.spec_and_msg_next_party().vals(w) == out_vals(and_log, w)
    &&& match r.spec_input_share_2() {
        None => challenge.spec_index() == 0,
        Some(x) => challenge.spec_index() != 0 && forall|w: nat| is_word_width(w) ==> #[trigger] x.vals(w) == out_vals(input_log, w),
    }
}

/// Response data collector collecting into owned word stores, and returning the response
/// on finalization.
pub struct OwnedResponseDataCollector<D: Digest, S: Seed> {
    inner: ResponseDataCollectorAdapter<D, S, OwnedWordCollector, OwnedWordCollector>,
}

impl<D: Digest, S: Seed> ResponseDataCollector<D, S> for OwnedResponseDataCollector<D, S> {
    type InitArg = ();

    type FinalizeRes = Response<D, S>;

    closed spec fn inv(&self) -> bool {
        self.inner.inv()
    }

    closed spec fn spec_challenge(&self) -> Party {
        self.inner.spec_challenge()
    }

    closed spec fn spec_seed_challenge_party(&self) -> S {
        self.inner.spec_seed_challenge_party()
    }

    closed spec fn spec_seed_next_party(&self) -> S {
        self.inner.spec_seed_next_party()
    }

    closed spec fn input_log(&self) -> Seq<(nat, Seq<nat>)> {
        self.inner.input_log()
    }

    closed spec fn and_log(&self) -> Seq<(nat, Seq<nat>)> {
        self.inner.and_log()
    }

    /// The response made of the collected data.
    open spec fn finalized(c: Self, digest: D, r: Response<D, S>) -> bool {
        response_of(r, c.spec_challenge(), c.spec_seed_challenge_party(), c.spec_seed_next_party(), c.input_log(), c.and_log(), digest)
    }

    fn new(challenge: Party, seed_challenge_party: S, seed_next_party: S, arg: ()) -> (r: Self) {
        OwnedResponseDataCollector { inner: ResponseDataCollectorAdapter::new(challenge, seed_challenge_party, seed_next_party, arg) }
    }

    fn push_input_share2<W: Word, const N: usize>(&mut self, word: CompositeWord<W, N>) {
        self.inner.push_input_share2(word);
    }

    fn push_and_msg<W: Word, const N: usize>(&mut self, and_msg_next_party: CompositeWord<W, N>) {
        self.inner.push_and_msg(and_msg_next_party);
    }

    /// The response for the challenge party: for party 0 it holds no input share of party 2.
    fn finalize(self, commitment_digest_unopened: D) -> (r: Response<D, S>) {
        let ghost c = self;
        let (challenge, seed_challenge_party, seed_next_party, input_share_2, and_msg_next_party, digest) = self.inner.finalize(
            commitment_digest_unopened,
        );
        let j = challenge.index();
        if j == 0 {
            Response::new_0(seed_challenge_party, seed_next_party, digest, and_msg_next_party)
        } else if j == 1 {
            Response::new_1(digest, seed_challenge_party, seed_next_party, and_msg_next_party, input_share_2)
        } else {
            Response::new_2(seed_next_party, digest, seed_challenge_party, and_msg_next_party, input_share_2)
        }
    }
}

} // verus!
