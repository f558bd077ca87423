//! Backend building the views of the three parties of the simulated protocol.
use crate::backend::backend::{unreferenced,
    allocates, lemma_allocates_writes, lemma_shape_ok, model_ok, recounts, shape_ok, uses, valid_idx, word_bits,
    writes_only, Backend, SlotModel,
};
use crate::crypto::hasher::{Digest, Hasher};
use crate::crypto::prg::{draws_words, GeneratesRandom, PseudoRandomGenerator, Seed};
use crate::prover::views::collectors::ViewsDataCollector;
use crate::prover::views::gates::{
    and_msg_bits, and_shares, carry_shares, cmsg, cshare, lemma_and_shares_reconstruct,
    lemma_carry_shares_reconstruct, reconstruct, xor3,
};
use crate::prover::views::view::ViewCommitment;
use crate::prover::views::word_pool::WordTriplePool;
use crate::word::bitseq::{
    bits_val, carries, lemma_bits_val_bound, lemma_bits_val_injective, lemma_nat_bits, nat_bits, seq_and,
    seq_not, seq_rotl, seq_rotr, seq_shl, seq_shr, seq_swap_bytes, seq_xor, lemma_swap_bytes_index,
};
use crate::word::by_word_type::{is_word_width, ByWordType};
use crate::word::collectors::{lemma_same_shape_push, lemma_same_shape_words, same_shape, word_vals, OwnedWordCollector, WordCollector};
use crate::word::composite::CompositeWord;
use crate::word::slots::{idx_in_range, lemma_slot_bits_single, lemma_slot_bits_vals, slot_bits};
use crate::word::word::{cast, lemma_cast_bit, nat_le_bytes, Word};
use vstd::arithmetic::power2::pow2;
use crate::word::word_idx::WordIdx;
use crate::word::words::Words;
use crate::executor::backend::{lemma_cbits_words_bits, out_vals, words_bits};
use vstd::prelude::*;

verus! {

/// The value of the word of width `w` whose shares have the values `a`, `b` and `c`.
pub open spec fn xor_val(a: nat, b: nat, c: nat, w: nat) -> nat {
    bits_val(xor3(nat_bits(a, w), nat_bits(b, w), nat_bits(c, w)))
}

/// The values of the words of width `w` whose shares have the given values.
pub open spec fn xor_vals(s0: Seq<nat>, s1: Seq<nat>, s2: Seq<nat>, w: nat) -> Seq<nat> {
    Seq::new(s0.len(), |i: int| xor_val(s0[i], s1[i], s2[i], w))
}

/// The values of the words whose shares are in the given share models.
pub open spec fn share_xor(m0: SlotModel, m1: SlotModel, m2: SlotModel) -> ByWordType<Seq<nat>> {
    ByWordType {
        u8: xor_vals(m0.vals.get(8), m1.vals.get(8), m2.vals.get(8), 8),
        u16: xor_vals(m0.vals.get(16), m1.vals.get(16), m2.vals.get(16), 16),
        u32: xor_vals(m0.vals.get(32), m1.vals.get(32), m2.vals.get(32), 32),
        u64: xor_vals(m0.vals.get(64), m1.vals.get(64), m2.vals.get(64), 64),
        u128: xor_vals(m0.vals.get(128), m1.vals.get(128), m2.vals.get(128), 128),
    }
}

/// The bits of a sequence of `w` bits are those of its value.
pub proof fn lemma_nat_bits_val(s: Seq<bool>, w: nat)
    requires
        s.len() == w,
    ensures
        nat_bits(bits_val(s), w) == s,
{
    lemma_bits_val_bound(s);
    lemma_nat_bits(bits_val(s), w);
    lemma_bits_val_injective(nat_bits(bits_val(s), w), s);
}

/// The bits of the words whose shares are at the given positions are the XOR of the bits of
/// the shares.
pub proof fn lemma_xor_slot_bits(s0: Seq<nat>, s1: Seq<nat>, s2: Seq<nat>, w: nat, idxs: Seq<usize>)
    requires
        w > 0,
        s1.len() == s0.len(),
        s2.len() == s0.len(),
        forall|k: int| 0 <= k < idxs.len() ==> #[trigger] idxs[k] < s0.len(),
    ensures
        slot_bits(xor_vals(s0, s1, s2, w), w, idxs) == xor3(slot_bits(s0, w, idxs), slot_bits(s1, w, idxs), slot_bits(s2, w, idxs)),
{
    let x = xor_vals(s0, s1, s2, w);
    assert forall|k: int| 0 <= k < idxs.len() * w implies #[trigger] slot_bits(x, w, idxs)[k] == xor3(
        slot_bits(s0, w, idxs),
        slot_bits(s1, w, idxs),
        slot_bits(s2, w, idxs),
    )[k] by {
        let j = k / (w as int);
        assert(0 <= j < idxs.len()) by (nonlinear_arith)
            requires
                0 <= k < idxs.len() * w,
                w > 0,
                j == k / (w as int),
        ;
        let i = idxs[j] as int;
        lemma_nat_bits_val(xor3(nat_bits(s0[i], w), nat_bits(s1[i], w), nat_bits(s2[i], w)), w);
    }
    assert(slot_bits(x, w, idxs) =~= xor3(slot_bits(s0, w, idxs), slot_bits(s1, w, idxs), slot_bits(s2, w, idxs)));
}

/// The value of a word given by its shares is below two to its width.
pub proof fn lemma_xor_val_bound(a: nat, b: nat, c: nat, w: nat)
    ensures
        xor_val(a, b, c, w) < pow2(w),
{
    lemma_bits_val_bound(xor3(nat_bits(a, w), nat_bits(b, w), nat_bits(c, w)));
}

/// Truncating the shares truncates the word they share.
pub proof fn lemma_xor_cast(a: nat, b: nat, c: nat, w: nat, t: nat)
    requires
        a < pow2(w),
        b < pow2(w),
        c < pow2(w),
    ensures
        xor_val(a % pow2(t), b % pow2(t), c % pow2(t), t) == xor_val(a, b, c, w) % pow2(t),
{
    vstd::arithmetic::power2::lemma_pow2_pos(t);
    let x = xor_val(a, b, c, w);
    let lhs = xor_val(a % pow2(t), b % pow2(t), c % pow2(t), t);
    lemma_xor_val_bound(a, b, c, w);
    lemma_xor_val_bound(a % pow2(t), b % pow2(t), c % pow2(t), t);
    let sx = xor3(nat_bits(a, w), nat_bits(b, w), nat_bits(c, w));
    let sl = xor3(nat_bits(a % pow2(t), t), nat_bits(b % pow2(t), t), nat_bits(c % pow2(t), t));
    lemma_nat_bits_val(sx, w);
    lemma_nat_bits_val(sl, t);
    assert forall|i: int| 0 <= i < t implies nat_bits(lhs, t)[i] == nat_bits(x % pow2(t), t)[i] by {
        lemma_cast_bit(x, w, t, i as nat);
        lemma_cast_bit(a, w, t, i as nat);
        lemma_cast_bit(b, w, t, i as nat);
        lemma_cast_bit(c, w, t, i as nat);
        if i < w {
            assert(nat_bits(x, w)[i] == sx[i]);
        }
    }
    assert(nat_bits(lhs, t) =~= nat_bits(x % pow2(t), t));
    lemma_nat_bits(lhs, t);
    vstd::arithmetic::div_mod::lemma_mod_pos_bound(x as int, pow2(t) as int);
    lemma_nat_bits(x % pow2(t), t);
}

/// The bytes of each word of a composite word, least significant word and byte first.
pub open spec fn cw_bytes<W: Word, const N: usize>(c: CompositeWord<W, N>) -> Seq<u8>
    decreases N,
{
    cw_bytes_prefix(c, N as nat)
}

/// The bytes of the first `k` words of a composite word.
pub open spec fn cw_bytes_prefix<W: Word, const N: usize>(c: CompositeWord<W, N>, k: nat) -> Seq<u8>
    decreases k,
{
    if k == 0 {
        Seq::empty()
    } else {
        cw_bytes_prefix(c, (k - 1) as nat) + nat_le_bytes(c.words()[k - 1].value(), W::spec_width() / 8)
    }
}

/// Absorbs the bytes of a composite word into a hasher.
pub(crate) fn absorb_word<H: Hasher, W: Word, const N: usize>(h: &mut H, c: CompositeWord<W, N>)
    ensures
        final(h).absorbed() == old(h).absorbed() + cw_bytes(c),
{
    let bs = c.to_le_bytes();
    let mut k: usize = 0;
    while k < N
        invariant
            k <= N,
            bs@.len() == N,
            forall|i: int| 0 <= i < N ==> #[trigger] bs@[i]@ == nat_le_bytes(c.words()[i].value(), W::spec_width() / 8),
            h.absorbed() == old(h).absorbed() + cw_bytes_prefix(c, k as nat),
        decreases N - k,
    {
        h.update(bs[k].as_slice());
        proof {
            assert(h.absorbed() =~= old(h).absorbed() + cw_bytes_prefix(c, (k + 1) as nat));
        }
        k = k + 1;
    }
}

/// Backend building the views of the three parties: each word is held as three XOR shares,
/// one per party; linear gates act on each share, AND and carry gates exchange messages masked
/// by the parties' random tapes, and each party's hasher absorbs every share it computes.
pub struct ViewBuilderBackend<H: Hasher, PV: PseudoRandomGenerator, S: Seed, VDC: ViewsDataCollector<H::Digest, S>, WTP: WordTriplePool> {
    prg0: PV,
    prg1: PV,
    prg2: PV,
    h0: H,
    h1: H,
    h2: H,
    states: WTP,
    collector: VDC,
    out0: OwnedWordCollector,
    out1: OwnedWordCollector,
    out2: OwnedWordCollector,
    outs: Ghost<Seq<(nat, Seq<bool>)>>,
    marker: Ghost<S>,
}

impl<H: Hasher, PV: PseudoRandomGenerator, S: Seed, VDC: ViewsDataCollector<H::Digest, S>, WTP: WordTriplePool> ViewBuilderBackend<
    H,
    PV,
    S,
    VDC,
    WTP,
> {
    /// The state of the shares of party `p`.
    pub closed spec fn share_model(self, p: nat) -> SlotModel {
        self.states.model(p)
    }

    /// The bytes absorbed by the hasher of party `p`.
    pub closed spec fn absorbed(self, p: nat) -> Seq<u8> {
        if p == 0 {
            self.h0.absorbed()
        } else if p == 1 {
            self.h1.absorbed()
        } else {
            self.h2.absorbed()
        }
    }

    /// The output shares pushed by party `p`.
    pub closed spec fn outputs_of(self, p: nat) -> Seq<(nat, Seq<nat>)> {
        if p == 0 {
            self.out0.pushed()
        } else if p == 1 {
            self.out1.pushed()
        } else {
            self.out2.pushed()
        }
    }

    /// The commitments of the three views: for each party, the digest of the bytes its hasher
    /// absorbed and the output shares it pushed.
    pub open spec fn committed(self, cs: [ViewCommitment<H::Digest>; 3]) -> bool {
        forall|p: nat| p < 3 ==> {
            &&& #[trigger] cs[p as int].spec_digest().bytes() == H::digest_of(self.absorbed(p))
            &&& forall|w: nat| is_word_width(w) ==> #[trigger] cs[p as int].spec_output_share().vals(w) == out_vals(self.outputs_of(p), w)
        }
    }

    /// The bits of the share of party `p` of the word at the given index.
    pub open spec fn share_bits<W: Word, const N: usize>(self, p: nat, idx: WordIdx<W, N>) -> Seq<bool> {
        word_bits(self.share_model(p), idx)
    }

    /// The random words `rands` are drawn, one from each party's generator, going from this
    /// state to `after`.
    pub open spec fn draws_rands<W: Word, const N: usize>(self, rands: [CompositeWord<W, N>; 3], after: Self) -> bool {
        forall|p: nat| p < 3 ==> <PV as GeneratesRandom<CompositeWord<W, N>>>::generates(
            self.prg(p),
            #[trigger] rands[p as int],
            after.prg(p),
        )
    }

    /// A gate with AND messages went from this state to `after`: the random words `rands` are
    /// drawn, the collector receives the AND messages `msgs` of the three parties, the new
    /// shares at `out` are `outs`, and each party's hasher absorbs its new share.
    pub open spec fn and_step<W: Word, const N: usize>(
        self,
        after: Self,
        out: WordIdx<W, N>,
        rands: [CompositeWord<W, N>; 3],
        msgs: [CompositeWord<W, N>; 3],
        outs: [CompositeWord<W, N>; 3],
    ) -> bool {
        &&& self.draws_rands(rands, after)
        &&& after.spec_collector().input_log() == self.spec_collector().input_log()
        &&& forall|p: nat| p < 3 ==> #[trigger] after.spec_collector().and_log(p) == self.spec_collector().and_log(p).push(
            (W::spec_width(), word_vals(msgs[p as int])),
        )
        &&& forall|p: nat| p < 3 ==> #[trigger] after.share_bits(p, out) == outs[p as int].cbits()
        &&& forall|p: nat| p < 3 ==> #[trigger] after.absorbed(p) == self.absorbed(p) + cw_bytes(outs[p as int])
    }

    /// An input word went from this state to `after` at index `r`: the shares of parties 0 and
    /// 1 are the words `s0` and `s1` drawn from their generators, the share of party 2 is `s2`,
    /// the XOR of the input with both, and it goes to the collector; nothing is absorbed.
    pub open spec fn input_step<W: Word, const N: usize>(
        self,
        after: Self,
        r: WordIdx<W, N>,
        word: CompositeWord<W, N>,
        s0: CompositeWord<W, N>,
        s1: CompositeWord<W, N>,
        s2: CompositeWord<W, N>,
    ) -> bool {
        &&& <PV as GeneratesRandom<CompositeWord<W, N>>>::generates(self.prg(0), s0, after.prg(0))
        &&& <PV as GeneratesRandom<CompositeWord<W, N>>>::generates(self.prg(1), s1, after.prg(1))
        &&& after.prg(2) == self.prg(2)
        &&& s2.cbits() == seq_xor(seq_xor(word.cbits(), s0.cbits()), s1.cbits())
        &&& after.share_bits(0, r) == s0.cbits()
        &&& after.share_bits(1, r) == s1.cbits()
        &&& after.share_bits(2, r) == s2.cbits()
        &&& after.spec_collector().input_log() == self.spec_collector().input_log().push((W::spec_width(), word_vals(s2)))
        &&& forall|p: nat| p < 3 ==> #[trigger] after.spec_collector().and_log(p) == self.spec_collector().and_log(p)
        &&& forall|p: nat| p < 3 ==> #[trigger] after.absorbed(p) == self.absorbed(p)
    }

    /// An input word of width `w` with word values `word` went from this state to `after` into
    /// the slots `idxs`, with shares of word values `s0`, `s1` and `s2`: `s0` and `s1` are the
    /// next words of the generators of parties 0 and 1, `s2` is the XOR of the input with both
    /// and goes to the collector; the generator of party 2, the AND messages collected and what
    /// the hashers absorbed are unchanged.
    pub open spec fn input_shares(self, after: Self, w: nat, word: Seq<nat>, idxs: Seq<usize>, s0: Seq<nat>, s1: Seq<nat>, s2: Seq<nat>) -> bool {
        &&& draws_words(self.prg(0), s0, w, after.prg(0))
        &&& draws_words(self.prg(1), s1, w, after.prg(1))
        &&& after.prg(2) == self.prg(2)
        &&& words_bits(s2, w) == seq_xor(seq_xor(words_bits(word, w), words_bits(s0, w)), words_bits(s1, w))
        &&& slot_bits(after.share_model(0).vals.get(w), w, idxs) == words_bits(s0, w)
        &&& slot_bits(after.share_model(1).vals.get(w), w, idxs) == words_bits(s1, w)
        &&& slot_bits(after.share_model(2).vals.get(w), w, idxs) == words_bits(s2, w)
        &&& after.spec_collector().input_log() == self.spec_collector().input_log().push((w, s2))
        &&& forall|p: nat| p < 3 ==> #[trigger] after.spec_collector().and_log(p) == self.spec_collector().and_log(p)
        &&& forall|p: nat| p < 3 ==> #[trigger] after.absorbed(p) == self.absorbed(p)
    }

    /// An operation went from this state to `after` drawing no random word, absorbing nothing
    /// and giving nothing to the collector.
    pub open spec fn quiet_step(self, after: Self) -> bool {
        &&& forall|p: nat| p < 3 ==> #[trigger] after.prg(p) == self.prg(p)
        &&& forall|p: nat| p < 3 ==> #[trigger] after.absorbed(p) == self.absorbed(p)
        &&& after.spec_collector() == self.spec_collector()
    }

    /// The collector of a well-formed view builder is well formed.
    pub proof fn lemma_collector_inv(self)
        requires
            self.wf(),
        ensures
            self.spec_collector().inv(),
    {
    }

    /// The random generator of party `p`.
    pub closed spec fn prg(self, p: nat) -> PV {
        if p == 0 {
            self.prg0
        } else if p == 1 {
            self.prg1
        } else {
            self.prg2
        }
    }

    /// The collector of the views' data.
    pub closed spec fn spec_collector(self) -> VDC {
        self.collector
    }

    /// Creates a view builder for the given seeds of the three parties.
    pub fn new_with_arg(seeds: [S; 3], collector_init_arg: VDC::InitArg) -> (r: Self)
        ensures
            r.wf(),
            r.spec_collector().seeds() == seeds,
            r.spec_collector().init_arg() == collector_init_arg,
            forall|p: nat, i: nat| p < 3 ==> #[trigger] r.prg(p).future(i) == PV::seeded(seeds[p as int].bytes(), i),
            forall|p: nat| p < 3 ==> #[trigger] r.absorbed(p) == Seq::<u8>::empty(),
            unreferenced(r.model()),
    {
        let collector = VDC::new(&seeds, collector_init_arg);
        let prg0 = PV::new(seeds[0].as_slice());
        let prg1 = PV::new(seeds[1].as_slice());
        let prg2 = PV::new(seeds[2].as_slice());
        let r = ViewBuilderBackend {
            prg0,
            prg1,
            prg2,
            h0: H::new(),
            h1: H::new(),
            h2: H::new(),
            states: WTP::new(),
            collector,
            out0: OwnedWordCollector::new(),
            out1: OwnedWordCollector::new(),
            out2: OwnedWordCollector::new(),
            outs: Ghost(Seq::empty()),
            marker: Ghost(vstd::pervasive::arbitrary()),
        };
        proof {
            r.states.lemma_model();
        }
        r
    }

    /// Wraps this view builder into a frontend.
    pub fn into_view_builder(self) -> (r: crate::backend::frontend::Frontend<Self>)
        ensures
            r.spec_backend() == self,
    {
        crate::backend::frontend::Frontend::wrap(self)
    }

    /// The three shares of the word at the given index.
    fn shares<W: Word, const N: usize>(&self, idx: WordIdx<W, N>) -> (r: [CompositeWord<W, N>; 3])
        requires
            self.wf(),
            valid_idx(self.model(), idx),
        ensures
            reconstruct(r) == word_bits(self.model(), idx),
            forall|p: int| 0 <= p < 3 ==> #[trigger] r[p].cbits() == slot_bits(self.share_model(p as nat).vals.get(W::spec_width()), W::spec_width(), idx.spec_idxs()),
    {
        proof {
            W::lemma_width();
            self.states.lemma_model();
            idx.lemma_len();
        }
        let r = self.states.read(idx);
        proof {
            self.lemma_word_bits(idx);
        }
        r
    }

    /// The bits of a word are the XOR of the bits of its shares.
    proof fn lemma_word_bits<W: Word, const N: usize>(self, idx: WordIdx<W, N>)
        requires
            self.wf(),
            forall|k: int| 0 <= k < N ==> #[trigger] idx.spec_idxs()[k] < self.model().refs.get(W::spec_width()).len(),
        ensures
            word_bits(self.model(), idx) == xor3(
                slot_bits(self.share_model(0).vals.get(W::spec_width()), W::spec_width(), idx.spec_idxs()),
                slot_bits(self.share_model(1).vals.get(W::spec_width()), W::spec_width(), idx.spec_idxs()),
                slot_bits(self.share_model(2).vals.get(W::spec_width()), W::spec_width(), idx.spec_idxs()),
            ),
    {
        let w = W::spec_width();
        W::lemma_width();
        self.states.lemma_model();
        idx.lemma_len();
        let m0 = self.states.model(0);
        let m1 = self.states.model(1);
        let m2 = self.states.model(2);
        assert(self.model().vals.get(w) == xor_vals(m0.vals.get(w), m1.vals.get(w), m2.vals.get(w), w));
        assert(m1.vals.get(w).len() == m0.vals.get(w).len());
        assert(m2.vals.get(w).len() == m0.vals.get(w).len());
        assert(m0.refs == self.model().refs);
        lemma_xor_slot_bits(m0.vals.get(w), m1.vals.get(w), m2.vals.get(w), w, idx.spec_idxs());
    }

    /// Allocating the same slots in the three share pools allocates them in the backend.
    proof fn lemma_alloc_model<W: Word, const N: usize>(self, start: Self, idx: WordIdx<W, N>)
        requires
            start.wf(),
            self.states.wf(),
            forall|p: nat| p < 3 ==> allocates(start.states.model(p), #[trigger] self.states.model(p), idx),
            self.outs == start.outs,
        ensures
            allocates(start.model(), self.model(), idx),
    {
        W::lemma_width();
        start.states.lemma_model();
        self.states.lemma_model();
        let a = start.model();
        let b = self.model();
        let w = W::spec_width();
        assert(allocates(start.states.model(0), self.states.model(0), idx));
        assert(allocates(start.states.model(1), self.states.model(1), idx));
        assert(allocates(start.states.model(2), self.states.model(2), idx));
        assert forall|v: nat|
            #![trigger b.vals.get(v)]
            #![trigger b.refs.get(v)]
            #![trigger b.allocated.get(v)]
            is_word_width(v) && v != w implies {
                &&& b.refs.get(v) == a.refs.get(v)
                &&& b.allocated.get(v) == a.allocated.get(v)
                &&& b.vals.get(v).len() == a.vals.get(v).len()
            } by {
            assert(self.states.model(0).vals.get(v).len() == start.states.model(0).vals.get(v).len());
        }
        assert forall|v: nat, i: int| is_word_width(v) && 0 <= i < a.vals.get(v).len() && !uses(idx, v, i)
            implies #[trigger] b.vals.get(v)[i] == a.vals.get(v)[i] by {
            assert(self.states.model(0).vals.get(v)[i] == start.states.model(0).vals.get(v)[i]);
            assert(self.states.model(1).vals.get(v)[i] == start.states.model(1).vals.get(v)[i]);
            assert(self.states.model(2).vals.get(v)[i] == start.states.model(2).vals.get(v)[i]);
        }
        assert(a.vals.get(w).len() <= b.vals.get(w).len());
    }

    /// Changing the reference counts of the same slots in the three share pools changes them
    /// in the backend.
    proof fn lemma_recount_model<W: Word, const N: usize>(self, start: Self, idx: WordIdx<W, N>, d: int)
        requires
            start.wf(),
            self.states.wf(),
            forall|p: nat| p < 3 ==> recounts(start.states.model(p), #[trigger] self.states.model(p), idx, d),
            self.outs == start.outs,
        ensures
            recounts(start.model(), self.model(), idx, d),
    {
        W::lemma_width();
        let a = start.model();
        let b = self.model();
        assert(recounts(start.states.model(0), self.states.model(0), idx, d));
        assert(recounts(start.states.model(1), self.states.model(1), idx, d));
        assert(recounts(start.states.model(2), self.states.model(2), idx, d));
        assert forall|v: nat|
            #![trigger b.vals.get(v)]
            #![trigger b.refs.get(v)]
            #![trigger b.allocated.get(v)]
            is_word_width(v) implies {
                &&& b.vals.get(v) == a.vals.get(v)
                &&& v != W::spec_width() ==> b.refs.get(v) == a.refs.get(v) && b.allocated.get(v) == a.allocated.get(v)
            } by {
            assert(self.states.model(0).vals.get(v) == start.states.model(0).vals.get(v));
            assert(self.states.model(1).vals.get(v) == start.states.model(1).vals.get(v));
            assert(self.states.model(2).vals.get(v) == start.states.model(2).vals.get(v));
        }
    }

    /// The word written from the shares read at `ins` has, slot by slot, the values of the
    /// word at `ins`.
    proof fn lemma_vals_of<W: Word, const N: usize>(
        self,
        before: Self,
        ins: WordIdx<W, N>,
        out: WordIdx<W, N>,
        a: [CompositeWord<W, N>; 3],
    )
        requires
            before.wf(),
            self.wf(),
            forall|k: int| 0 <= k < N ==> #[trigger] ins.spec_idxs()[k] < before.model().refs.get(W::spec_width()).len(),
            valid_idx(self.model(), out),
            forall|p: int| 0 <= p < 3 ==> #[trigger] a[p].cbits() == slot_bits(before.share_model(p as nat).vals.get(W::spec_width()), W::spec_width(), ins.spec_idxs()),
            word_bits(self.model(), out) == reconstruct(a),
        ensures
            forall|k: int| 0 <= k < N ==> #[trigger] self.model().vals.get(W::spec_width())[out.spec_idxs()[k] as int]
                == before.model().vals.get(W::spec_width())[ins.spec_idxs()[k] as int],
    {
        let w = W::spec_width();
        W::lemma_width();
        before.lemma_word_bits(ins);
        ins.lemma_len();
        out.lemma_len();
        self.lemma_model();
        before.lemma_model();
        self.states.lemma_model();
        before.states.lemma_model();
        assert(a[0].cbits() == slot_bits(before.share_model(0).vals.get(w), w, ins.spec_idxs()));
        assert(a[1].cbits() == slot_bits(before.share_model(1).vals.get(w), w, ins.spec_idxs()));
        assert(a[2].cbits() == slot_bits(before.share_model(2).vals.get(w), w, ins.spec_idxs()));
        assert forall|k: int| 0 <= k < N implies #[trigger] self.model().vals.get(w)[out.spec_idxs()[k] as int]
            == before.model().vals.get(w)[ins.spec_idxs()[k] as int] by {
            let bm = before.states;
            let sm = self.states;
            let i = ins.spec_idxs()[k] as int;
            let o = out.spec_idxs()[k] as int;
            lemma_xor_val_bound(bm.model(0).vals.get(w)[i], bm.model(1).vals.get(w)[i], bm.model(2).vals.get(w)[i], w);
            lemma_xor_val_bound(sm.model(0).vals.get(w)[o], sm.model(1).vals.get(w)[o], sm.model(2).vals.get(w)[o], w);
            lemma_slot_bits_vals(
                self.model().vals.get(w),
                out.spec_idxs(),
                before.model().vals.get(w),
                ins.spec_idxs(),
                w,
                k,
            );
        }
    }

    /// The value written from truncated shares is the truncated value of the word.
    proof fn lemma_cast<W: Word, T: Word, const N: usize>(
        self,
        before: Self,
        in_: WordIdx<W, N>,
        out: WordIdx<T, N>,
        a: [CompositeWord<W, N>; 3],
        outs: [CompositeWord<T, N>; 3],
    )
        requires
            N == 1,
            before.wf(),
            self.wf(),
            valid_idx(before.model(), in_),
            valid_idx(self.model(), out),
            forall|p: int| 0 <= p < 3 ==> #[trigger] a[p].cbits() == slot_bits(before.share_model(p as nat).vals.get(W::spec_width()), W::spec_width(), in_.spec_idxs()),
            forall|p: int| 0 <= p < 3 ==> #[trigger] outs[p].words()[0].value() == a[p].words()[0].value() % pow2(T::spec_width()),
            word_bits(self.model(), out) == reconstruct(outs),
        ensures
            self.model().vals.get(T::spec_width())[out.spec_idxs()[0] as int]
                == before.model().vals.get(W::spec_width())[in_.spec_idxs()[0] as int] % pow2(T::spec_width()),
    {
        let w = W::spec_width();
        let t = T::spec_width();
        W::lemma_width();
        T::lemma_width();
        in_.lemma_len();
        out.lemma_len();
        before.states.lemma_model();
        self.states.lemma_model();
        let i = in_.spec_idxs()[0] as int;
        let o = out.spec_idxs()[0] as int;
        let u0 = a[0].words()[0].value();
        let u1 = a[1].words()[0].value();
        let u2 = a[2].words()[0].value();
        let bm = before.states;
        assert forall|p: int| 0 <= p < 3 implies #[trigger] nat_bits(a[p].words()[0].value(), w) == nat_bits(bm.model(p as nat).vals.get(w)[i], w) by {
            lemma_slot_bits_single(bm.model(p as nat).vals.get(w), w, in_.spec_idxs());
            a[p].words()[0].lemma_word_bits();
            assert forall|j: int| 0 <= j < w implies a[p].words()[0].bits()[j] == nat_bits(bm.model(p as nat).vals.get(w)[i], w)[j] by {
                a[p].lemma_cbit(0, j);
            }
            assert(a[p].words()[0].bits() =~= nat_bits(bm.model(p as nat).vals.get(w)[i], w));
        }
        assert(nat_bits(u0, w) == nat_bits(bm.model(0).vals.get(w)[i], w));
        assert(nat_bits(u1, w) == nat_bits(bm.model(1).vals.get(w)[i], w));
        assert(nat_bits(u2, w) == nat_bits(bm.model(2).vals.get(w)[i], w));
        assert(before.model().vals.get(w)[i] == xor_val(u0, u1, u2, w));
        a[0].words()[0].lemma_word_bits();
        a[1].words()[0].lemma_word_bits();
        a[2].words()[0].lemma_word_bits();
        lemma_xor_cast(u0, u1, u2, w, t);
        assert forall|p: int| 0 <= p < 3 implies #[trigger] outs[p].cbits() == nat_bits(outs[p].words()[0].value(), t) by {
            outs[p].words()[0].lemma_word_bits();
            assert forall|j: int| 0 <= j < t implies outs[p].cbits()[j] == outs[p].words()[0].bits()[j] by {
                outs[p].lemma_cbit(0, j);
            }
            assert(outs[p].cbits() =~= outs[p].words()[0].bits());
        }
        let sl = xor3(
            nat_bits(u0 % pow2(t), t),
            nat_bits(u1 % pow2(t), t),
            nat_bits(u2 % pow2(t), t),
        );
        assert(reconstruct(outs) == sl);
        lemma_slot_bits_single(self.model().vals.get(t), t, out.spec_idxs());
        let v = self.model().vals.get(t)[o];
        lemma_xor_val_bound(self.states.model(0).vals.get(t)[o], self.states.model(1).vals.get(t)[o], self.states.model(2).vals.get(t)[o], t);
        lemma_nat_bits(v, t);
        assert(nat_bits(v, t) == sl);
    }

    /// Writes the three shares of a word at the given index, each party's hasher absorbing
    /// its share.
    fn commit<W: Word, const N: usize>(&mut self, out: WordIdx<W, N>, outs: [CompositeWord<W, N>; 3], hash: bool)
        requires
            old(self).wf(),
            valid_idx(old(self).model(), out),
        ensures
            final(self).wf(),
            writes_only(old(self).model(), final(self).model(), out),
            word_bits(final(self).model(), out) == reconstruct(outs),
            forall|p: nat| p < 3 ==> #[trigger] final(self).absorbed(p) == old(self).absorbed(p) + if hash {
                cw_bytes(outs[p as int])
            } else {
                Seq::<u8>::empty()
            },
            forall|p: nat| p < 3 ==> #[trigger] final(self).prg(p) == old(self).prg(p),
            final(self).spec_collector() == old(self).spec_collector(),
            forall|p: nat| p < 3 ==> #[trigger] final(self).share_bits(p, out) == outs[p as int].cbits(),
    {
        proof {
            W::lemma_width();
            self.states.lemma_model();
        }
        let ghost old_self = *self;
        proof {
            out.lemma_len();
        }
        if hash {
            absorb_word(&mut self.h0, outs[0]);
            absorb_word(&mut self.h1, outs[1]);
            absorb_word(&mut self.h2, outs[2]);
        } else {
            proof {
                assert(self.h0.absorbed() =~= old_self.h0.absorbed() + Seq::<u8>::empty());
                assert(self.h1.absorbed() =~= old_self.h1.absorbed() + Seq::<u8>::empty());
                assert(self.h2.absorbed() =~= old_self.h2.absorbed() + Seq::<u8>::empty());
            }
        }
        self.states.write(out, outs);
        proof {
            let w = W::spec_width();
            self.states.lemma_model();
            old_self.states.lemma_model();
            self.lemma_word_bits(out);
            assert(slot_bits(self.share_model(0).vals.get(w), w, out.spec_idxs()) == outs[0].cbits());
            assert(slot_bits(self.share_model(1).vals.get(w), w, out.spec_idxs()) == outs[1].cbits());
            assert(slot_bits(self.share_model(2).vals.get(w), w, out.spec_idxs()) == outs[2].cbits());
            let a = old_self.model();
            let b = self.model();
            assert forall|v: nat, i: int| is_word_width(v) && 0 <= i < a.vals.get(v).len() && !uses(out, v, i)
                implies #[trigger] b.vals.get(v)[i] == a.vals.get(v)[i] by {
                assert(writes_only(old_self.states.model(0), self.states.model(0), out));
                assert(writes_only(old_self.states.model(1), self.states.model(1), out));
                assert(writes_only(old_self.states.model(2), self.states.model(2), out));
                assert(a.vals.get(v)[i] == xor_val(old_self.states.model(0).vals.get(v)[i], old_self.states.model(1).vals.get(v)[i], old_self.states.model(2).vals.get(v)[i], v));
                assert(b.vals.get(v)[i] == xor_val(self.states.model(0).vals.get(v)[i], self.states.model(1).vals.get(v)[i], self.states.model(2).vals.get(v)[i], v));
            }
            assert forall|v: nat| is_word_width(v) implies {
                &&& #[trigger] b.refs.get(v) == a.refs.get(v)
                &&& b.allocated.get(v) == a.allocated.get(v)
                &&& b.vals.get(v).len() == a.vals.get(v).len()
            } by {
                assert(writes_only(old_self.states.model(0), self.states.model(0), out));
                assert(self.states.model(0).vals.get(v).len() == old_self.states.model(0).vals.get(v).len());
            }
        }
    }

    /// The next random words of the three parties.
    fn next_rand_words<W: Word, const N: usize>(&mut self) -> (r: [CompositeWord<W, N>; 3])
        requires
            old(self).wf(),
        ensures
            final(self).wf(),
            forall|p: nat| p < 3 ==> <PV as GeneratesRandom<CompositeWord<W, N>>>::generates(old(self).prg(p), #[trigger] r[p as int], final(self).prg(p)),
            final(self).states == old(self).states,
            final(self).outs == old(self).outs,
            forall|p: nat| p < 3 ==> #[trigger] final(self).absorbed(p) == old(self).absorbed(p),
            final(self).spec_collector() == old(self).spec_collector(),
    {
        let r0: CompositeWord<W, N> = self.prg0.next();
        let r1: CompositeWord<W, N> = self.prg1.next();
        let r2: CompositeWord<W, N> = self.prg2.next();
        [r0, r1, r2]
    }
}

impl<H: Hasher, PV: PseudoRandomGenerator, S: Seed, VDC: ViewsDataCollector<H::Digest, S>, WTP: WordTriplePool> Backend for ViewBuilderBackend<
    H,
    PV,
    S,
    VDC,
    WTP,
> {
    type FinalizeArg = ();

    type FinalizeResult = VDC::FinalizeRes;

    type Key = ([S; 3], VDC::InitArg);

    /// The seeds of the three parties and the argument of the collector.
    open spec fn key(&self) -> ([S; 3], VDC::InitArg) {
        (self.spec_collector().seeds(), self.spec_collector().init_arg())
    }

    /// No random word was drawn, nothing was absorbed and nothing given to the collector.
    open spec fn quiet(&self, after: Self) -> bool {
        self.quiet_step(after)
    }

    proof fn lemma_quiet_trans(&self, b: Self, c: Self) {
    }

    /// The three shares of the slots are the constant.
    open spec fn holds_constant(&self, w: nat, word: Seq<nat>, idxs: Seq<usize>) -> bool {
        forall|p: nat| p < 3 ==> #[trigger] slot_bits(self.share_model(p).vals.get(w), w, idxs) == words_bits(word, w)
    }

    /// The shares of parties 0 and 1 are the next words of their generators, that of party 2
    /// the XOR of the input with both, given to the collector.
    open spec fn inputs(&self, after: Self, w: nat, word: Seq<nat>, idxs: Seq<usize>) -> bool {
        exists|s0: Seq<nat>, s1: Seq<nat>, s2: Seq<nat>| #[trigger] self.input_shares(after, w, word, idxs, s0, s1, s2)
    }

    /// The pool, the random generators and the collectors are well formed, and the output
    /// collectors hold the outputs of the three parties.
    closed spec fn wf(&self) -> bool {
        &&& self.states.wf()
        &&& self.prg0.wf()
        &&& self.prg1.wf()
        &&& self.prg2.wf()
        &&& self.collector.inv()
        &&& self.out0.inv()
        &&& self.out1.inv()
        &&& self.out2.inv()
        &&& same_shape(self.out0.pushed(), self.out1.pushed())
        &&& same_shape(self.out1.pushed(), self.out2.pushed())
    }

    closed spec fn model(&self) -> SlotModel {
        SlotModel {
            refs: self.states.model(0).refs,
            allocated: self.states.model(0).allocated,
            vals: share_xor(self.states.model(0), self.states.model(1), self.states.model(2)),
            outputs: self.outs@,
        }
    }

    open spec fn tracks_values() -> bool {
        true
    }

    open spec fn max_ref() -> nat {
        WTP::max_ref()
    }

    proof fn lemma_model(&self) {
        self.states.lemma_model();
        assert forall|v: nat| is_word_width(v) implies #[trigger] self.model().vals.get(v).len() == self.model().refs.get(v).len() by {
            assert(self.states.model(0).vals.get(v).len() == self.states.model(0).refs.get(v).len());
        }
        assert forall|v: nat, i: int| is_word_width(v) && 0 <= i < self.model().vals.get(v).len() implies #[trigger] self.model().vals.get(v)[i] < pow2(v) by {
            let (m0, m1, m2) = (self.states.model(0), self.states.model(1), self.states.model(2));
            assert(self.model().vals.get(v) == xor_vals(m0.vals.get(v), m1.vals.get(v), m2.vals.get(v), v));
            lemma_xor_val_bound(m0.vals.get(v)[i], m1.vals.get(v)[i], m2.vals.get(v)[i], v);
        }
    }

    /// The result is the collector's result for the commitments of the three views.
    open spec fn finalized(&self, arg: (), r: VDC::FinalizeRes) -> bool {
        exists|cs: [ViewCommitment<H::Digest>; 3]| #[trigger] self.committed(cs) && VDC::finalized(self.spec_collector(), cs, r)
    }

    /// The commitments of the three views, handed to the collector.
    fn finalize(self, arg: ()) -> (r: VDC::FinalizeRes)
        ensures
            exists|cs: [ViewCommitment<H::Digest>; 3]| #[trigger] self.committed(cs) && VDC::finalized(self.spec_collector(), cs, r),
    {
        let ghost old_self = self;
        let mut h0 = self.h0;
        let mut h1 = self.h1;
        let mut h2 = self.h2;
        let d0 = h0.finalize();
        let d1 = h1.finalize();
        let d2 = h2.finalize();
        let ghost p0 = self.out0.pushed();
        let ghost p1 = self.out1.pushed();
        let ghost p2 = self.out2.pushed();
        let o0 = self.out0.finalize();
        let o1 = self.out1.finalize();
        let o2 = self.out2.finalize();
        proof {
            lemma_same_shape_words(o0, o1, p0, p1);
            lemma_same_shape_words(o1, o2, p1, p2);
        }
        let commitments = [ViewCommitment::new(d0, o0), ViewCommitment::new(d1, o1), ViewCommitment::new(d2, o2)];
        proof {
            assert forall|p: nat| p < 3 implies {
                &&& #[trigger] commitments[p as int].spec_digest().bytes() == H::digest_of(old_self.absorbed(p))
                &&& forall|w: nat| is_word_width(w) ==> #[trigger] commitments[p as int].spec_output_share().vals(w) == out_vals(old_self.outputs_of(p), w)
            } by {
                if p == 0 {
                    assert(commitments[0].spec_output_share() == o0);
                } else if p == 1 {
                    assert(commitments[1].spec_output_share() == o1);
                } else {
                    assert(commitments[2].spec_output_share() == o2);
                }
            }
            assert(old_self.committed(commitments));
        }
        self.collector.finalize(commitments)
    }

    /// Input shares of parties 0 and 1 are drawn from their tapes; that of party 2 completes
    /// the XOR to the input and goes to the collector.
    fn input<W: Word, const N: usize>(&mut self, word: CompositeWord<W, N>) -> (r: WordIdx<W, N>)
        ensures
            exists|s0: CompositeWord<W, N>, s1: CompositeWord<W, N>, s2: CompositeWord<W, N>|
                #[trigger] old(self).input_step(*final(self), r, word, s0, s1, s2),
    {
        let ghost start = *self;
        let s0: CompositeWord<W, N> = self.prg0.next();
        let s1: CompositeWord<W, N> = self.prg1.next();
        let s2 = word.bitxor(s0).bitxor(s1);
        self.collector.push_input_share2(s2);
        proof {
            self.states.lemma_model();
        }
        let idx = self.states.allocate::<W, N>();
        let ghost mid = *self;
        proof {
            W::lemma_width();
            self.states.lemma_model();
            assert(allocates(start.states.model(0), self.states.model(0), idx));
            assert(allocates(start.states.model(1), self.states.model(1), idx));
            assert(allocates(start.states.model(2), self.states.model(2), idx));
            self.lemma_alloc_model(start, idx);
        }
        self.commit(idx, [s0, s1, s2], false);
        proof {
            let w = W::spec_width();
            lemma_cbits_words_bits(word);
            lemma_cbits_words_bits(s0);
            lemma_cbits_words_bits(s1);
            lemma_cbits_words_bits(s2);
            s0.lemma_words_len();
            s1.lemma_words_len();
            assert(word_vals(s0).len() == N && word_vals(s1).len() == N);
            lemma_allocates_writes(start.model(), mid.model(), self.model(), idx);
            assert(reconstruct([s0, s1, s2]) =~= word.cbits());
            assert forall|p: nat| p < 3 implies #[trigger] self.absorbed(p) == start.absorbed(p) by {
                assert(self.absorbed(p) =~= mid.absorbed(p) + Seq::<u8>::empty());
            }
            assert(self.share_bits(0, idx) == [s0, s1, s2][0].cbits());
            assert(self.share_bits(1, idx) == [s0, s1, s2][1].cbits());
            assert(self.share_bits(2, idx) == [s0, s1, s2][2].cbits());
            assert(start.input_step(*self, idx, word, s0, s1, s2));
            assert(start.input_shares(*self, W::spec_width(), word_vals(word), idx.spec_idxs(), word_vals(s0), word_vals(s1), word_vals(s2)));
        }
        idx
    }

    fn allocate<W: Word, const N: usize>(&mut self) -> (r: WordIdx<W, N>)
        ensures
            old(self).quiet_step(*final(self)),
    {
        let ghost start = *self;
        proof {
            self.states.lemma_model();
        }
        let idx = self.states.allocate::<W, N>();
        proof {
            W::lemma_width();
            assert(allocates(start.states.model(0), self.states.model(0), idx));
            assert(allocates(start.states.model(1), self.states.model(1), idx));
            assert(allocates(start.states.model(2), self.states.model(2), idx));
            self.lemma_alloc_model(start, idx);
        }
        idx
    }

    fn constant<W: Word, const N: usize>(&mut self, word: CompositeWord<W, N>, out: WordIdx<W, N>)
        ensures
            old(self).quiet_step(*final(self)),
            forall|p: nat| p < 3 ==> #[trigger] final(self).share_bits(p, out) == word.cbits(),
    {
        self.commit(out, [word, word, word], false);
        proof {
            lemma_cbits_words_bits(word);
            assert forall|p: nat| p < 3 implies #[trigger] slot_bits(self.share_model(p).vals.get(W::spec_width()), W::spec_width(), out.spec_idxs()) == words_bits(word_vals(word), W::spec_width()) by {
                assert(self.share_bits(p, out) == [word, word, word][p as int].cbits());
            }
            assert(reconstruct([word, word, word]) =~= word.cbits());
            assert forall|p: nat| p < 3 implies #[trigger] self.absorbed(p) == old(self).absorbed(p) by {
                assert(self.absorbed(p) =~= old(self).absorbed(p) + Seq::<u8>::empty());
            }
        }
    }

    fn from_le_words<W: Word, const N: usize>(&mut self, ins: WordIdx<W, N>, out: WordIdx<W, N>) {
        proof {
            W::lemma_width();
            self.states.lemma_model();
        }
        let a = self.states.read(ins);
        let ghost before = *self;
        self.commit(out, a, false);
        proof {
            self.lemma_vals_of(before, ins, out, a);
        }
    }

    fn to_le_words<W: Word, const N: usize>(&mut self, in_: WordIdx<W, N>, outs: WordIdx<W, N>) {
        let a = self.shares(in_);
        let ghost before = *self;
        self.commit(outs, a, false);
        proof {
            W::lemma_width();
            assert(self.model().refs.get(W::spec_width()) == before.model().refs.get(W::spec_width()));
            in_.lemma_len();
            self.lemma_vals_of(before, in_, outs, a);
        }
    }

    fn output<W: Word, const N: usize>(&mut self, out: WordIdx<W, N>) {
        let a = self.shares(out);
        let ghost before = *self;
        self.out0.push(a[0]);
        self.out1.push(a[1]);
        self.out2.push(a[2]);
        self.outs = Ghost(self.outs@.push((W::spec_width(), reconstruct(a))));
        proof {
            a[0].lemma_words_len();
            a[1].lemma_words_len();
            a[2].lemma_words_len();
            let e0 = (W::spec_width(), word_vals(a[0]));
            let e1 = (W::spec_width(), word_vals(a[1]));
            let e2 = (W::spec_width(), word_vals(a[2]));
            lemma_same_shape_push(before.out0.pushed(), before.out1.pushed(), e0, e1);
            lemma_same_shape_push(before.out1.pushed(), before.out2.pushed(), e1, e2);
        }
    }

    fn increase_refcount<W: Word, const N: usize>(&mut self, idx: WordIdx<W, N>) {
        let ghost start = *self;
        proof {
            self.states.lemma_model();
        }
        self.states.increase_refcount(idx);
        proof {
            self.lemma_recount_model(start, idx, 1);
        }
    }

    fn decrease_refcount<W: Word, const N: usize>(&mut self, idx: WordIdx<W, N>) {
        let ghost start = *self;
        proof {
            self.states.lemma_model();
            idx.lemma_len();
        }
        self.states.decrease_refcount(idx);
        proof {
            self.lemma_recount_model(start, idx, -1);
        }
    }

    /// Party 0 negates its share.
    fn not<W: Word, const N: usize>(&mut self, in_: WordIdx<W, N>, out: WordIdx<W, N>) {
        let a = self.shares(in_);
        let outs = [a[0].not(), a[1], a[2]];
        self.commit(out, outs, true);
        proof {
            assert(reconstruct(outs) =~= seq_not(reconstruct(a)));
        }
    }

    fn bitxor<W: Word, const N: usize>(&mut self, inl: WordIdx<W, N>, inr: WordIdx<W, N>, out: WordIdx<W, N>) {
        let a = self.shares(inl);
        let b = self.shares(inr);
        let outs = [a[0].bitxor(b[0]), a[1].bitxor(b[1]), a[2].bitxor(b[2])];
        self.commit(out, outs, true);
        proof {
            assert(reconstruct(outs) =~= seq_xor(reconstruct(a), reconstruct(b)));
        }
    }

    /// The AND gate: each party sends the next one its AND message, masked by both parties'
    /// random words, and the collector receives the three messages.
    fn bitand<W: Word, const N: usize>(&mut self, inl: WordIdx<W, N>, inr: WordIdx<W, N>, out: WordIdx<W, N>)
        ensures
            exists|a: [CompositeWord<W, N>; 3], b: [CompositeWord<W, N>; 3], rands: [CompositeWord<W, N>; 3], msgs: [CompositeWord<W, N>; 3], outs: [CompositeWord<W, N>; 3]|
                #![trigger old(self).and_step(*final(self), out, rands, msgs, outs), a[0], b[0]]
                old(self).and_step(*final(self), out, rands, msgs, outs) && {
                    &&& forall|p: int| 0 <= p < 3 ==> #[trigger] a[p].cbits() == old(self).share_bits(p as nat, inl)
                    &&& forall|p: int| 0 <= p < 3 ==> #[trigger] b[p].cbits() == old(self).share_bits(p as nat, inr)
                    &&& forall|p: int| 0 <= p < 3 ==> #[trigger] msgs[p].cbits() == and_msg_bits(a, b, rands, p)
                    &&& forall|p: int| 0 <= p < 3 ==> #[trigger] outs[p].cbits() == seq_xor(seq_and(a[p].cbits(), b[p].cbits()), msgs[p].cbits())
                },
    {
        let ghost s0 = *self;
        let rands = self.next_rand_words::<W, N>();
        let a = self.shares(inl);
        let b = self.shares(inr);
        let (outs, and_msgs) = and_shares(a, b, rands);
        let ghost s1 = *self;
        self.collector.push_and_msgs(and_msgs);
        let ghost s2 = *self;
        self.commit(out, outs, true);
        proof {
            lemma_and_shares_reconstruct(a, b, rands, outs);
            assert(s0.draws_rands(rands, *self));
            assert forall|q: nat| q < 3 implies #[trigger] self.absorbed(q) == s0.absorbed(q) + cw_bytes(outs[q as int]) by {
                assert(s1.absorbed(q) == s0.absorbed(q));
                assert(s2.absorbed(q) == s1.absorbed(q));
            }
            assert(s1.spec_collector() == s0.spec_collector());
            assert(self.spec_collector() == s2.spec_collector());
            assert(s0.and_step(*self, out, rands, and_msgs, outs));
        }
    }

    /// Party 0 XORs the constant into its share.
    fn bitxor_const<W: Word, const N: usize>(&mut self, inl: WordIdx<W, N>, inr: CompositeWord<W, N>, out: WordIdx<W, N>) {
        let a = self.shares(inl);
        let outs = [a[0].bitxor(inr), a[1], a[2]];
        self.commit(out, outs, true);
        proof {
            assert(reconstruct(outs) =~= seq_xor(reconstruct(a), inr.cbits()));
        }
    }

    fn bitand_const<W: Word, const N: usize>(&mut self, inl: WordIdx<W, N>, inr: CompositeWord<W, N>, out: WordIdx<W, N>) {
        let a = self.shares(inl);
        let outs = [a[0].bitand(inr), a[1].bitand(inr), a[2].bitand(inr)];
        self.commit(out, outs, true);
        proof {
            assert(reconstruct(outs) =~= seq_and(reconstruct(a), inr.cbits()));
        }
    }

    fn unbounded_shl<W: Word, const N: usize>(&mut self, in_: WordIdx<W, N>, shift: usize, out: WordIdx<W, N>) {
        let a = self.shares(in_);
        proof {
            lemma_shape_ok::<W, N>();
        }
        let outs = [a[0].unbounded_shl(shift), a[1].unbounded_shl(shift), a[2].unbounded_shl(shift)];
        self.commit(out, outs, true);
        proof {
            assert(reconstruct(outs) =~= seq_shl(reconstruct(a), shift as int));
        }
    }

    fn unbounded_shr<W: Word, const N: usize>(&mut self, in_: WordIdx<W, N>, shift: usize, out: WordIdx<W, N>) {
        let a = self.shares(in_);
        proof {
            lemma_shape_ok::<W, N>();
        }
        let outs = [a[0].unbounded_shr(shift), a[1].unbounded_shr(shift), a[2].unbounded_shr(shift)];
        self.commit(out, outs, true);
        proof {
            assert(reconstruct(outs) =~= seq_shr(reconstruct(a), shift as int));
        }
    }

    fn rotate_left<W: Word, const N: usize>(&mut self, in_: WordIdx<W, N>, shift: usize, out: WordIdx<W, N>) {
        let a = self.shares(in_);
        proof {
            lemma_shape_ok::<W, N>();
        }
        let outs = [a[0].rotate_left(shift), a[1].rotate_left(shift), a[2].rotate_left(shift)];
        self.commit(out, outs, true);
        proof {
            assert(reconstruct(outs) =~= seq_rotl(reconstruct(a), shift as int));
        }
    }

    fn rotate_right<W: Word, const N: usize>(&mut self, in_: WordIdx<W, N>, shift: usize, out: WordIdx<W, N>) {
        let a = self.shares(in_);
        proof {
            lemma_shape_ok::<W, N>();
        }
        let outs = [a[0].rotate_right(shift), a[1].rotate_right(shift), a[2].rotate_right(shift)];
        self.commit(out, outs, true);
        proof {
            assert(reconstruct(outs) =~= seq_rotr(reconstruct(a), shift as int));
        }
    }

    fn reverse_bits<W: Word, const N: usize>(&mut self, in_: WordIdx<W, N>, out: WordIdx<W, N>) {
        let a = self.shares(in_);
        let outs = [a[0].reverse_bits(), a[1].reverse_bits(), a[2].reverse_bits()];
        self.commit(out, outs, true);
        proof {
            assert(reconstruct(outs) =~= reconstruct(a).reverse());
        }
    }

    fn swap_bytes<W: Word, const N: usize>(&mut self, in_: WordIdx<W, N>, out: WordIdx<W, N>) {
        let a = self.shares(in_);
        let outs = [a[0].swap_bytes(), a[1].swap_bytes(), a[2].swap_bytes()];
        self.commit(out, outs, true);
        proof {
            W::lemma_width();
            lemma_shape_ok::<W, N>();
            let cw = CompositeWord::<W, N>::spec_cwidth() as int;
            let q = (W::spec_width() / 8) as int;
            assert(cw == (q * N) * 8) by (nonlinear_arith)
                requires
                    cw == W::spec_width() * N,
                    W::spec_width() == 8 * q,
            ;
            vstd::arithmetic::div_mod::lemma_mod_multiples_basic(q * N, 8);
            assert forall|i: int| 0 <= i < cw implies #[trigger] reconstruct(outs)[i] == seq_swap_bytes(reconstruct(a))[i] by {
                lemma_swap_bytes_index(i, cw);
            }
            assert(reconstruct(outs) =~= seq_swap_bytes(reconstruct(a)));
        }
    }

    fn cast<W: Word, T: Word, const N: usize>(&mut self, in_: WordIdx<W, N>, out: WordIdx<T, N>) {
        let a = self.shares(in_);
        let x0: T = cast(a[0].lsw());
        let x1: T = cast(a[1].lsw());
        let x2: T = cast(a[2].lsw());
        let outs = [CompositeWord::<T, N>::from_le_words([x0; N]), CompositeWord::<T, N>::from_le_words([x1; N]), CompositeWord::<T, N>::from_le_words([x2; N])];
        let ghost before = *self;
        self.commit(out, outs, true);
        proof {
            T::lemma_width();
            assert(self.model().refs.get(T::spec_width()) == before.model().refs.get(T::spec_width()));
            self.lemma_cast(before, in_, out, a, outs);
        }
    }

    /// The carry gate: bit by bit, each party sends the next one the AND message of its carry
    /// and propagate shares, masked by both parties' random words; the collector receives the
    /// messages of the three parties.
    fn carry<W: Word, const N: usize>(&mut self, p: WordIdx<W, N>, g: WordIdx<W, N>, carry_in: bool, out: WordIdx<W, N>)
        ensures
            exists|ps: [CompositeWord<W, N>; 3], gs: [CompositeWord<W, N>; 3], rands: [CompositeWord<W, N>; 3], msgs: [CompositeWord<W, N>; 3], outs: [CompositeWord<W, N>; 3]|
                #![trigger old(self).and_step(*final(self), out, rands, msgs, outs), ps[0], gs[0]]
                old(self).and_step(*final(self), out, rands, msgs, outs) && {
                    &&& forall|i: int| 0 <= i < 3 ==> #[trigger] ps[i].cbits() == old(self).share_bits(i as nat, p)
                    &&& forall|i: int| 0 <= i < 3 ==> #[trigger] gs[i].cbits() == old(self).share_bits(i as nat, g)
                    &&& forall|i: int, k: int| 0 <= i < 3 && 0 <= k < CompositeWord::<W, N>::spec_cwidth() ==> #[trigger] outs[i].cbits()[k]
                        == cshare(ps, gs, rands, carry_in, k as nat, i)
                    &&& forall|i: int, k: int| 0 <= i < 3 && 0 <= k < CompositeWord::<W, N>::spec_cwidth() ==> #[trigger] msgs[i].cbits()[k]
                        == cmsg(ps, gs, rands, carry_in, k as nat, i)
                },
    {
        let ghost s0 = *self;
        let rands = self.next_rand_words::<W, N>();
        let ps = self.shares(p);
        let gs = self.shares(g);
        proof {
            lemma_shape_ok::<W, N>();
        }
        let (carries_out, and_msgs) = carry_shares(ps, gs, carry_in, rands);
        let ghost s1 = *self;
        self.collector.push_and_msgs(and_msgs);
        let ghost s2 = *self;
        self.commit(out, carries_out, true);
        proof {
            assert(s0.draws_rands(rands, *self));
            assert forall|q: nat| q < 3 implies #[trigger] self.absorbed(q) == s0.absorbed(q) + cw_bytes(carries_out[q as int]) by {
                assert(s1.absorbed(q) == s0.absorbed(q));
                assert(s2.absorbed(q) == s1.absorbed(q));
            }
            assert(s1.spec_collector() == s0.spec_collector());
            assert(self.spec_collector() == s2.spec_collector());
            assert(s0.and_step(*self, out, rands, and_msgs, carries_out));
            let cw = CompositeWord::<W, N>::spec_cwidth();
            assert forall|k: int| 0 <= k < cw implies #[trigger] reconstruct(carries_out)[k] == carries(
                reconstruct(ps),
                reconstruct(gs),
                carry_in,
                cw,
            )[k] by {
                lemma_carry_shares_reconstruct(ps, gs, rands, carry_in, k as nat);
            }
            assert(reconstruct(carries_out) =~= carries(reconstruct(ps), reconstruct(gs), carry_in, cw));
        }
    }
}

} // verus!
