//! Collectors of the data of the views built by the view builder.
use crate::crypto::hasher::Digest;
use crate::crypto::prg::Seed;
use crate::executor::backend::out_vals;
use crate::prover::challenge::challenge::Party;
use crate::prover::proofs::collectors::ResponseDataCollector;
use crate::prover::views::view::{ViewCommitment, Views};
use crate::word::by_word_type::is_word_width;
use crate::word::collectors::{
    lemma_same_shape_push, lemma_same_shape_words, same_shape, word_vals, OwnedWordCollector, WordCollector,
};
use crate::word::composite::CompositeWord;
use crate::word::word::Word;
use crate::backend::hook::Reusable;
use vstd::prelude::*;

verus! {

/// The output shares of the three commitments have one shape.
pub open spec fn commitments_shaped<D: Digest>(c: [ViewCommitment<D>; 3]) -> bool {
    &&& c[0].spec_output_share().spec_shape() == c[1].spec_output_share().spec_shape()
    &&& c[1].spec_output_share().spec_shape() == c[2].spec_output_share().spec_shape()
}

/// Collectors of the data of a view triple: the input shares of party 2 and the AND messages
/// of the three parties, in the order the view builder produces them.
pub trait ViewsDataCollector<D: Digest, S: Seed>: Sized {
    /// Additional argument of the constructor.
    type InitArg: Reusable;

    /// Result of finalization.
    type FinalizeRes;

    /// Well-formedness.
    spec fn inv(&self) -> bool;

    /// The input shares of party 2 pushed so far, as pairs of a width and word values.
    spec fn input_log(&self) -> Seq<(nat, Seq<nat>)>;

    /// The AND messages of party `p` pushed so far, as pairs of a width and word values.
    spec fn and_log(&self, p: nat) -> Seq<(nat, Seq<nat>)>;

    /// Whether `r` is the result of finalizing `c` with the given commitments.
    spec fn finalized(c: Self, commitments: [ViewCommitment<D>; 3], r: Self::FinalizeRes) -> bool;

    /// The seeds of the three views the collector was created for.
    spec fn seeds(&self) -> [S; 3];

    /// The additional argument the collector was created with.
    spec fn init_arg(&self) -> Self::InitArg;

    /// Creates a collector for the view triple with the given seeds.
    fn new(seeds: &[S; 3], arg: Self::InitArg) -> (r: Self)
        ensures
            r.inv(),
            r.seeds() == *seeds,
            r.init_arg() == arg,
            r.input_log() == Seq::<(nat, Seq<nat>)>::empty(),
            forall|p: nat| p < 3 ==> #[trigger] r.and_log(p) == Seq::<(nat, Seq<nat>)>::empty(),
    ;

    /// Pushes an input share of party 2.
    fn push_input_share2<W: Word, const N: usize>(&mut self, word: CompositeWord<W, N>)
        requires
            old(self).inv(),
        ensures
            final(self).inv(),
            final(self).seeds() == old(self).seeds(),
            final(self).init_arg() == old(self).init_arg(),
            final(self).input_log() == old(self).input_log().push((W::spec_width(), word_vals(word))),
            forall|p: nat| p < 3 ==> #[trigger] final(self).and_log(p) == old(self).and_log(p),
    ;

    /// Pushes the AND messages of the three parties.
    fn push_and_msgs<W: Word, const N: usize>(&mut self, and_msgs: [CompositeWord<W, N>; 3])
        requires
            old(self).inv(),
        ensures
            final(self).inv(),
            final(self).seeds() == old(self).seeds(),
            final(self).init_arg() == old(self).init_arg(),
            final(self).input_log() == old(self).input_log(),
            forall|p: nat| p < 3 ==> #[trigger] final(self).and_log(p) == old(self).and_log(p).push(
                (W::spec_width(), word_vals(and_msgs[p as int])),
            ),
    ;

    /// Finalizes the collector with the commitments to the three views, whose output shares
    /// have one shape.
    fn finalize(self, commitments: [ViewCommitment<D>; 3]) -> (r: Self::FinalizeRes)
        requires
            self.inv(),
            commitments_shaped(commitments),
        ensures
            Self::finalized(self, commitments, r),
    ;
}

/// Collector keeping nothing but the commitments, which it returns.
pub struct ViewCommitmentsRelayer<D: Digest, S: Seed> {
    seeds: Ghost<[S; 3]>,
    input: Ghost<Seq<(nat, Seq<nat>)>>,
    and0: Ghost<Seq<(nat, Seq<nat>)>>,
    and1: Ghost<Seq<(nat, Seq<nat>)>>,
    and2: Ghost<Seq<(nat, Seq<nat>)>>,
    marker: Ghost<(D, S)>,
}

impl<D: Digest, S: Seed> ViewsDataCollector<D, S> for ViewCommitmentsRelayer<D, S> {
    type InitArg = ();

    type FinalizeRes = [ViewCommitment<D>; 3];

    open spec fn inv(&self) -> bool {
        true
    }

    closed spec fn input_log(&self) -> Seq<(nat, Seq<nat>)> {
        self.input@
    }

    closed spec fn and_log(&self, p: nat) -> Seq<(nat, Seq<nat>)> {
        if p == 0 {
            self.and0@
        } else if p == 1 {
            self.and1@
        } else {
            self.and2@
        }
    }

    /// The commitments, unchanged.
    open spec fn finalized(c: Self, commitments: [ViewCommitment<D>; 3], r: [ViewCommitment<D>; 3]) -> bool {
        r == commitments
    }

    closed spec fn seeds(&self) -> [S; 3] {
        self.seeds@
    }

    open spec fn init_arg(&self) -> () {
        ()
    }

    fn new(seeds: &[S; 3], arg: ()) -> (r: Self) {
        ViewCommitmentsRelayer {
            seeds: Ghost(*seeds),
            input: Ghost(Seq::empty()),
            and0: Ghost(Seq::empty()),
            and1: Ghost(Seq::empty()),
            and2: Ghost(Seq::empty()),
            marker: Ghost(vstd::pervasive::arbitrary()),
        }
    }

    fn push_input_share2<W: Word, const N: usize>(&mut self, word: CompositeWord<W, N>) {
        self.input = Ghost(self.input@.push((W::spec_width(), word_vals(word))));
    }

    fn push_and_msgs<W: Word, const N: usize>(&mut self, and_msgs: [CompositeWord<W, N>; 3]) {
        self.and0 = Ghost(self.and0@.push((W::spec_width(), word_vals(and_msgs[0]))));
        self.and1 = Ghost(self.and1@.push((W::spec_width(), word_vals(and_msgs[1]))));
        self.and2 = Ghost(self.and2@.push((W::spec_width(), word_vals(and_msgs[2]))));
    }

    fn finalize(self, commitments: [ViewCommitment<D>; 3]) -> (r: [ViewCommitment<D>; 3]) {
        commitments
    }
}

/// Views data collector keeping the input shares of party 2 in one word collector and the AND
/// messages of each party in another.
pub struct ViewsDataCollectorAdapter<D: Digest, S: Seed, WCI: WordCollector, WCM: WordCollector> {
    seeds: [S; 3],
    input_share_2: WCI,
    and_msgs_0: WCM,
    and_msgs_1: WCM,
    and_msgs_2: WCM,
    marker: Ghost<D>,
}

impl<D: Digest, S: Seed, WCI: WordCollector, WCM: WordCollector> ViewsDataCollectorAdapter<D, S, WCI, WCM> {
    /// The seeds of the three parties.
    pub closed spec fn spec_seeds(self) -> [S; 3] {
        self.seeds
    }

    /// The collector of the input shares of party 2.
    pub closed spec fn input_collector(self) -> WCI {
        self.input_share_2
    }

    /// The collector of the AND messages of party `p`.
    pub closed spec fn and_collector(self, p: nat) -> WCM {
        if p == 0 {
            self.and_msgs_0
        } else if p == 1 {
            self.and_msgs_1
        } else {
            self.and_msgs_2
        }
    }

    /// The seeds and the collectors of the input shares of party 2 and of the AND messages of
    /// parties 0, 1 and 2.
    pub fn into_parts(self) -> (r: ([S; 3], WCI, WCM, WCM, WCM))
        ensures
            r.0 == self.spec_seeds(),
            r.1 == self.input_collector(),
            r.2 == self.and_collector(0),
            r.3 == self.and_collector(1),
            r.4 == self.and_collector(2),
    {
        (self.seeds, self.input_share_2, self.and_msgs_0, self.and_msgs_1, self.and_msgs_2)
    }
}

/// A copy of each of the three seeds.
fn copy_seeds<S: Seed>(seeds: &[S; 3]) -> (r: [S; 3])
    ensures
        r@ == seeds@,
{
    let s0 = seeds[0].duplicate();
    let s1 = seeds[1].duplicate();
    let s2 = seeds[2].duplicate();
    proof {
        S::lemma_bytes_injective(s0, seeds[0]);
        S::lemma_bytes_injective(s1, seeds[1]);
        S::lemma_bytes_injective(s2, seeds[2]);
    }
    let r = [s0, s1, s2];
    proof {
        assert(r@ =~= seeds@);
    }
    r
}

impl<D: Digest, S: Seed, WCI: WordCollector, WCM: WordCollector> ViewsDataCollector<D, S> for ViewsDataCollectorAdapter<D, S, WCI, WCM> {
    type InitArg = ();

    type FinalizeRes = ([S; 3], WCI::FinalizeResult, [WCM::FinalizeResult; 3], [ViewCommitment<D>; 3]);

    open spec fn inv(&self) -> bool {
        &&& self.input_collector().inv()
        &&& self.and_collector(0).inv()
        &&& self.and_collector(1).inv()
        &&& self.and_collector(2).inv()
    }

    open spec fn input_log(&self) -> Seq<(nat, Seq<nat>)> {
        self.input_collector().pushed()
    }

    open spec fn and_log(&self, p: nat) -> Seq<(nat, Seq<nat>)> {
        self.and_collector(p).pushed()
    }

    /// The seeds, the finalized collectors and the commitments.
    open spec fn finalized(c: Self, commitments: [ViewCommitment<D>; 3], r: Self::FinalizeRes) -> bool {
        &&& r.0 == c.spec_seeds()
        &&& WCI::finalized(c.input_collector(), r.1)
        &&& forall|p: int| 0 <= p < 3 ==> WCM::finalized(c.and_collector(p as nat), #[trigger] r.2[p])
        &&& r.3 == commitments
    }

    open spec fn seeds(&self) -> [S; 3] {
        self.spec_seeds()
    }

    open spec fn init_arg(&self) -> () {
        ()
    }

    fn new(seeds: &[S; 3], arg: ()) -> (r: Self) {
        let r = ViewsDataCollectorAdapter {
            seeds: copy_seeds(seeds),
            input_share_2: WCI::empty(),
            and_msgs_0: WCM::empty(),
            and_msgs_1: WCM::empty(),
            and_msgs_2: WCM::empty(),
            marker: Ghost(vstd::pervasive::arbitrary()),
        };
        proof {
            assert(r.seeds@ =~= seeds@);
            assert(r.seeds =~= *seeds);
        }
        r
    }

    fn push_input_share2<W: Word, const N: usize>(&mut self, word: CompositeWord<W, N>) {
        self.input_share_2.push(word);
    }

    fn push_and_msgs<W: Word, const N: usize>(&mut self, and_msgs: [CompositeWord<W, N>; 3]) {
        self.and_msgs_0.push(and_msgs[0]);
        self.and_msgs_1.push(and_msgs[1]);
        self.and_msgs_2.push(and_msgs[2]);
    }

    fn finalize(self, commitments: [ViewCommitment<D>; 3]) -> (r: Self::FinalizeRes) {
        let ViewsDataCollectorAdapter { seeds, input_share_2, and_msgs_0, and_msgs_1, and_msgs_2, marker } = self;
        let m0 = and_msgs_0.finalize();
        let m1 = and_msgs_1.finalize();
        let m2 = and_msgs_2.finalize();
        (seeds, input_share_2.finalize(), [m0, m1, m2], commitments)
    }
}

/// Views data collector collecting into owned word stores, and returning the views on
/// finalization.
pub struct OwnedViewsDataCollector<D: Digest, S: Seed> {
    inner: ViewsDataCollectorAdapter<D, S, OwnedWordCollector, OwnedWordCollector>,
}

impl<D: Digest, S: Seed> OwnedViewsDataCollector<D, S> {
    /// The seeds of the three parties.
    pub closed spec fn spec_seeds(self) -> [S; 3] {
        self.inner.seeds()
    }
}

impl<D: Digest, S: Seed> ViewsDataCollector<D, S> for OwnedViewsDataCollector<D, S> {
    type InitArg = ();

    type FinalizeRes = Views<D, S>;

    /// The AND messages of the three parties come in words of the same types and numbers.
    closed spec fn inv(&self) -> bool {
        &&& self.inner.inv()
        &&& same_shape(self.inner.and_log(0), self.inner.and_log(1))
        &&& same_shape(self.inner.and_log(1), self.inner.and_log(2))
    }

    closed spec fn input_log(&self) -> Seq<(nat, Seq<nat>)> {
        self.inner.input_log()
    }

    closed spec fn and_log(&self, p: nat) -> Seq<(nat, Seq<nat>)> {
        self.inner.and_log(p)
    }

    /// The views made of the seeds, the collected words and the commitments.
    open spec fn finalized(c: Self, commitments: [ViewCommitment<D>; 3], r: Views<D, S>) -> bool {
        &&& r.spec_seeds() == c.spec_seeds()
        &&& forall|w: nat| is_word_width(w) ==> #[trigger] r.spec_input_share_2().vals(w) == out_vals(c.input_log(), w)
        &&& forall|p: nat, w: nat| p < 3 && is_word_width(w) ==> #[trigger] r.spec_and_msgs(p).vals(w) == out_vals(c.and_log(p), w)
        &&& r.spec_commitments() == commitments
    }

    open spec fn seeds(&self) -> [S; 3] {
        self.spec_seeds()
    }

    open spec fn init_arg(&self) -> () {
        ()
    }

    fn new(seeds: &[S; 3], arg: ()) -> (r: Self) {
        let inner = ViewsDataCollectorAdapter::new(seeds, arg);
        proof {
            assert(same_shape(inner.and_log(0), inner.and_log(1)));
            assert(same_shape(inner.and_log(1), inner.and_log(2)));
        }
        OwnedViewsDataCollector { inner }
    }

    fn push_input_share2<W: Word, const N: usize>(&mut self, word: CompositeWord<W, N>) {
        self.inner.push_input_share2(word);
    }

    fn push_and_msgs<W: Word, const N: usize>(&mut self, and_msgs: [CompositeWord<W, N>; 3]) {
        let ghost before = self.inner;
        self.inner.push_and_msgs(and_msgs);
        proof {
            and_msgs[0].lemma_words_len();
            and_msgs[1].lemma_words_len();
            and_msgs[2].lemma_words_len();
            let e0 = (W::spec_width(), word_vals(and_msgs[0]));
            let e1 = (W::spec_width(), word_vals(and_msgs[1]));
            let e2 = (W::spec_width(), word_vals(and_msgs[2]));
            assert(self.inner.and_log(0nat) == before.and_log(0nat).push(e0));
            assert(self.inner.and_log(1nat) == before.and_log(1nat).push(e1));
            assert(self.inner.and_log(2nat) == before.and_log(2nat).push(e2));
            lemma_same_shape_push(before.and_log(0), before.and_log(1), e0, e1);
            lemma_same_shape_push(before.and_log(1), before.and_log(2), e1, e2);
        }
    }

    fn finalize(self, commitments: [ViewCommitment<D>; 3]) -> (r: Views<D, S>) {
        let ghost c = self;
        let (seeds, ic, mc0, mc1, mc2) = self.inner.into_parts();
        let input_share_2 = ic.finalize();
        let m0 = mc0.finalize();
        let m1 = mc1.finalize();
        let m2 = mc2.finalize();
        proof {
            lemma_same_shape_words(m0, m1, c.inner.and_log(0), c.inner.and_log(1));
            lemma_same_shape_words(m1, m2, c.inner.and_log(1), c.inner.and_log(2));
        }
        Views::new(seeds, input_share_2, m0, m1, m2, commitments)
    }
}

/// Views data collector relaying the data of a response to a response data collector, for a
/// given challenge party `j`: the input shares of party 2, the AND messages of party `j + 1`,
/// and the digest of the view of party `j + 2` (mod 3).
pub struct ResponseDataSelector<D: Digest, S: Seed, RDC: ResponseDataCollector<D, S>> {
    seeds: Ghost<[S; 3]>,
    init: Ghost<(Party, RDC::InitArg)>,
    next_party: Party,
    inner: RDC,
    and0: Ghost<Seq<(nat, Seq<nat>)>>,
    and1: Ghost<Seq<(nat, Seq<nat>)>>,
    and2: Ghost<Seq<(nat, Seq<nat>)>>,
    marker: Ghost<(D, S)>,
}

impl<D: Digest, S: Seed, RDC: ResponseDataCollector<D, S>> ResponseDataSelector<D, S, RDC> {
    /// The response data collector fed by this selector.
    pub closed spec fn spec_inner(self) -> RDC {
        self.inner
    }

    /// The response data collector has the challenge party the selector was created with, and
    /// the seeds of that party and of the next one.
    pub open spec fn selects_as_set_up(self) -> bool {
        let j = self.init_arg().0.spec_index();
        &&& self.spec_inner().spec_challenge() == self.init_arg().0
        &&& self.spec_inner().spec_seed_challenge_party().bytes() == self.seeds()[j as int].bytes()
        &&& self.spec_inner().spec_seed_next_party().bytes() == self.seeds()[((j + 1) % 3) as int].bytes()
    }

    /// A well-formed selector is as set up.
    pub proof fn lemma_set_up(self)
        requires
            self.inv(),
        ensures
            self.selects_as_set_up(),
    {
    }
}

impl<D: Digest, S: Seed, RDC: ResponseDataCollector<D, S>> ViewsDataCollector<D, S> for ResponseDataSelector<D, S, RDC> {
    type InitArg = (Party, RDC::InitArg);

    type FinalizeRes = RDC::FinalizeRes;

    /// The inner collector is well formed, its challenge party precedes the next party, and it
    /// holds the input shares and the AND messages of the next party.
    closed spec fn inv(&self) -> bool {
        &&& self.inner.inv()
        &&& self.next_party.spec_index() == (self.inner.spec_challenge().spec_index() + 1) % 3
        &&& self.inner.and_log() == self.and_log(self.next_party.spec_index())
        &&& self.selects_as_set_up()
    }

    closed spec fn input_log(&self) -> Seq<(nat, Seq<nat>)> {
        self.inner.input_log()
    }

    closed spec fn and_log(&self, p: nat) -> Seq<(nat, Seq<nat>)> {
        if p == 0 {
            self.and0@
        } else if p == 1 {
            self.and1@
        } else {
            self.and2@
        }
    }

    /// The inner collector finalized with the digest of the view of party `j + 2` (mod 3).
    open spec fn finalized(c: Self, commitments: [ViewCommitment<D>; 3], r: RDC::FinalizeRes) -> bool {
        RDC::finalized(
            c.spec_inner(),
            commitments[((c.spec_inner().spec_challenge().spec_index() + 2) % 3) as int].spec_digest(),
            r,
        )
    }

    closed spec fn seeds(&self) -> [S; 3] {
        self.seeds@
    }

    closed spec fn init_arg(&self) -> (Party, RDC::InitArg) {
        self.init@
    }

    fn new(seeds: &[S; 3], collector_init_arg: (Party, RDC::InitArg)) -> (r: Self) {
        let (challenge_party, arg) = collector_init_arg;
        let next_party = challenge_party.next();
        let sj = seeds[challenge_party.index()].duplicate();
        let sq = seeds[next_party.index()].duplicate();
        proof {
            assert(sj.bytes() == seeds[challenge_party.spec_index() as int].bytes());
        }
        ResponseDataSelector {
            seeds: Ghost(*seeds),
            init: Ghost(collector_init_arg),
            next_party,
            inner: RDC::new(challenge_party, sj, sq, arg),
            and0: Ghost(Seq::empty()),
            and1: Ghost(Seq::empty()),
            and2: Ghost(Seq::empty()),
            marker: Ghost(vstd::pervasive::arbitrary()),
        }
    }

    fn push_input_share2<W: Word, const N: usize>(&mut self, word: CompositeWord<W, N>) {
        self.inner.push_input_share2(word);
    }

    fn push_and_msgs<W: Word, const N: usize>(&mut self, and_msgs: [CompositeWord<W, N>; 3]) {
        let q = self.next_party.index();
        self.inner.push_and_msg(and_msgs[q]);
        self.and0 = Ghost(self.and0@.push((W::spec_width(), word_vals(and_msgs[0]))));
        self.and1 = Ghost(self.and1@.push((W::spec_width(), word_vals(and_msgs[1]))));
        self.and2 = Ghost(self.and2@.push((W::spec_width(), word_vals(and_msgs[2]))));
    }

    fn finalize(self, commitments: [ViewCommitment<D>; 3]) -> (r: RDC::FinalizeRes) {
        let u = self.next_party.next().index();
        let d = commitments[u].digest().duplicate();
        proof {
            D::lemma_bytes_injective(d, commitments[u as int].spec_digest());
        }
        self.inner.finalize(d)
    }
}

} // verus!
