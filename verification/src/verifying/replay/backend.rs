//! Backend replaying the two views opened by a response.
use crate::backend::backend::{unreferenced,
    allocates, lemma_allocates_writes, lemma_shape_ok, model_ok, recounts, shape_ok, uses, valid_idx, word_bits,
    writes_only, Backend, SlotModel,
};
use crate::crypto::hasher::{Digest, Hasher};
use crate::crypto::prg::{GeneratesRandom, PseudoRandomGenerator, Seed};
use crate::executor::backend::{lemma_cbits_words_bits, out_vals, words_bits};
use crate::prover::proofs::response::Response;
use crate::prover::views::backend::{absorb_word, cw_bytes};
use crate::prover::views::gates::{and_replay, carry_replay, rshare};
use crate::word::bitseq::{seq_and, seq_not, seq_rotl, seq_rotr, seq_shl, seq_shr, seq_swap_bytes, seq_xor};
use vstd::arithmetic::power2::pow2;
use crate::prover::views::view::ViewCommitment;
use crate::verifying::replay::word_pool::WordPairPool;
use crate::word::by_word_type::{is_word_width, ByWordType, Shape};
use crate::word::collectors::{
    lemma_same_shape_push, lemma_same_shape_words, same_shape, word_vals, OwnedWordCollector, WordCollector,
};
use crate::word::composite::CompositeWord;
use crate::word::slots::slot_bits;
use crate::word::word::{cast, Word};
use crate::word::word_idx::WordIdx;
use crate::word::words::{ShapeError, Words};
use vstd::prelude::*;

verus! {

/// Errors of a replay.
pub enum ViewReplayError {
    /// The expected output and the replayed output shares differ in shape.
    OutputShapeMismatch(ShapeError),
    /// The AND messages of the response were not consumed exactly by the replay.
    AndMsgShapeMismatch(ShapeError),
    /// The input share of party 2 in the response was not consumed exactly by the replay.
    InputShare2ShapeMismatch(ShapeError),
}

/// A response holds the input share of party 2 exactly when its challenge party is not party 0.
pub open spec fn response_wf<D: Digest, S: Seed>(r: Response<D, S>) -> bool {
    (r.spec_input_share_2() is Some) == (r.spec_challenge().spec_index() != 0)
}

/// Backend replaying the views of the two parties opened by a response: party `j` (the
/// challenge party) and party `j + 1` (mod 3). Each word is held as the two opened parties'
/// shares; AND and carry gates take the messages of party `j + 1` from the response, and each
/// party's hasher absorbs every share it computes, as the prover's does.
pub struct ViewReplayerBackend<'a, H: Hasher, PV: PseudoRandomGenerator, S: Seed, WPP: WordPairPool> {
    response: &'a Response<H::Digest, S>,
    prg0: PV,
    prg1: PV,
    h0: H,
    h1: H,
    states: WPP,
    out0: OwnedWordCollector,
    out1: OwnedWordCollector,
    and_msg_idx: Shape,
    input_share2_idx: Shape,
}

/// Whether the read cursors stay within the words of the response.
pub open spec fn cursors_ok<D: Digest, S: Seed>(r: Response<D, S>, and_idx: Shape, in_idx: Shape) -> bool {
    &&& forall|w: nat| is_word_width(w) ==> #[trigger] and_idx.get(w) <= r.spec_and_msg_next_party().vals(w).len()
    &&& forall|w: nat| is_word_width(w) ==> match r.spec_input_share_2() {
        Some(x) => #[trigger] in_idx.get(w) <= x.vals(w).len(),
        None => true,
    }
}

impl<'a, H: Hasher, PV: PseudoRandomGenerator, S: Seed, WPP: WordPairPool> ViewReplayerBackend<'a, H, PV, S, WPP> {
    /// The response replayed.
    pub closed spec fn spec_response(self) -> Response<H::Digest, S> {
        *self.response
    }

    /// The bytes absorbed by the hasher of opened party `p` (0 for party `j`, 1 for `j + 1`).
    pub closed spec fn absorbed(self, p: nat) -> Seq<u8> {
        if p == 0 {
            self.h0.absorbed()
        } else {
            self.h1.absorbed()
        }
    }

    /// The output shares pushed by opened party `p`.
    pub closed spec fn outputs_of(self, p: nat) -> Seq<(nat, Seq<nat>)> {
        if p == 0 {
            self.out0.pushed()
        } else {
            self.out1.pushed()
        }
    }

    /// The number of AND message words of each type consumed so far.
    pub closed spec fn and_cursor(self) -> Shape {
        self.and_msg_idx
    }

    /// The number of input share words of each type consumed so far.
    pub closed spec fn input_cursor(self) -> Shape {
        self.input_share2_idx
    }

    /// The shape of the output shares replayed.
    pub closed spec fn output_shape(self) -> Shape {
        self.out0.spec_words().spec_shape()
    }

    /// Whether finalization succeeds with the given expected output: it has the shape of the
    /// replayed output shares, and the AND messages and input shares of party 2 of the response
    /// were consumed exactly.
    pub open spec fn finalizes(self, expected: Words) -> bool {
        &&& expected.spec_shape() == self.output_shape()
        &&& self.and_cursor() == self.spec_response().spec_and_msg_next_party().spec_shape()
        &&& match self.spec_response().spec_input_share_2() {
            Some(x) => self.input_cursor() == x.spec_shape(),
            None => true,
        }
    }

    /// Whether `e` is the error of a finalization with the given expected output that does not
    /// succeed: the first of the output shape, the shape of the AND messages consumed and the
    /// shape of the input shares consumed that differs from what it should be.
    pub open spec fn fails_with(self, expected: Words, e: ViewReplayError) -> bool {
        if expected.spec_shape() != self.output_shape() {
            e matches ViewReplayError::OutputShapeMismatch(se) && se.spec_expected() == self.output_shape()
                && se.spec_actual() == expected.spec_shape()
        } else if self.and_cursor() != self.spec_response().spec_and_msg_next_party().spec_shape() {
            e matches ViewReplayError::AndMsgShapeMismatch(se) && se.spec_expected()
                == self.spec_response().spec_and_msg_next_party().spec_shape() && se.spec_actual() == self.and_cursor()
        } else {
            e matches ViewReplayError::InputShare2ShapeMismatch(se) && self.spec_response().spec_input_share_2() is Some
                && se.spec_expected() == self.spec_response().spec_input_share_2().unwrap().spec_shape()
                && se.spec_actual() == self.input_cursor()
        }
    }

    /// The commitments of a successful finalization, indexed by party: for the challenge party
    /// `j` and the next party, the digests of the bytes their hashers absorbed and their output
    /// shares; for party `j + 2`, the digest in the response and the output share completing the
    /// expected output.
    pub open spec fn replayed(self, expected: Words, cs: [ViewCommitment<H::Digest>; 3]) -> bool {
        let j = self.spec_response().spec_challenge().spec_index();
        let q = (j + 1) % 3;
        let u = (j + 2) % 3;
        &&& cs[j as int].spec_digest().bytes() == H::digest_of(self.absorbed(0))
        &&& cs[q as int].spec_digest().bytes() == H::digest_of(self.absorbed(1))
        &&& cs[u as int].spec_digest() == self.spec_response().spec_commitment_digest_unopened()
        &&& forall|w: nat| is_word_width(w) ==> #[trigger] cs[j as int].spec_output_share().vals(w) == out_vals(self.outputs_of(0), w)
        &&& forall|w: nat| is_word_width(w) ==> #[trigger] cs[q as int].spec_output_share().vals(w) == out_vals(self.outputs_of(1), w)
        &&& exists|x: Words| #[trigger] x.is_xor_of(expected, cs[j as int].spec_output_share())
            && cs[u as int].spec_output_share().is_xor_of(x, cs[q as int].spec_output_share())
    }

    /// The slots of the pool with the shares of opened party `p` (0 for party `j`, 1 for
    /// `j + 1`) as values.
    pub closed spec fn share_model(self, p: nat) -> SlotModel {
        self.states.model(p)
    }

    /// The random tape of opened party `p`.
    pub closed spec fn tape(self, p: nat) -> PV {
        if p == 0 {
            self.prg0
        } else {
            self.prg1
        }
    }

    /// The bits of the share of opened party `p` of the word at the given index.
    pub open spec fn share_bits<W: Word, const N: usize>(self, p: nat, idx: WordIdx<W, N>) -> Seq<bool> {
        word_bits(self.share_model(p), idx)
    }

    /// Whether opened party `p` is party 0, which alone applies NOT gates and XORs constants
    /// into its share.
    pub open spec fn is_party_zero(self, p: nat) -> bool {
        let j = self.spec_response().spec_challenge().spec_index();
        (j == 0 && p == 0) || (j == 2 && p == 1)
    }

    /// A gate went from this state to `after` writing the shares at `out` and nothing else,
    /// each opened party's hasher absorbing its new share when `hash` is set.
    pub open spec fn gate_step<W: Word, const N: usize>(self, after: Self, out: WordIdx<W, N>, hash: bool) -> bool {
        &&& forall|p: nat| p < 2 ==> writes_only(self.share_model(p), #[trigger] after.share_model(p), out)
        &&& after.spec_response() == self.spec_response()
        &&& after.input_cursor() == self.input_cursor()
        &&& after.outputs_of(0) == self.outputs_of(0)
        &&& after.outputs_of(1) == self.outputs_of(1)
        &&& forall|p: nat| p < 2 ==> exists|c: CompositeWord<W, N>| #![trigger c.cbits()]
            c.cbits() == after.share_bits(p, out) && #[trigger] after.absorbed(p) == self.absorbed(p) + if hash {
                cw_bytes(c)
            } else {
                Seq::<u8>::empty()
            }
    }

    /// The random tapes and the cursor of the AND messages are unchanged.
    pub open spec fn keeps_tapes(self, after: Self) -> bool {
        &&& after.tape(0) == self.tape(0)
        &&& after.tape(1) == self.tape(1)
        &&& after.and_cursor() == self.and_cursor()
    }

    /// `m` is the next AND message of party `j + 1` from the response, taken by going from
    /// this state to `after`: the next `N` words of its type, or zero once they are exhausted.
    pub open spec fn takes_and_msg<W: Word, const N: usize>(self, m: CompositeWord<W, N>, after: Self) -> bool {
        let vals = self.spec_response().spec_and_msg_next_party().vals(W::spec_width());
        let c = self.and_cursor().get(W::spec_width());
        if c + N <= vals.len() {
            &&& after.and_cursor() == self.and_cursor().set(W::spec_width(), (c + N) as usize)
            &&& forall|k: int| 0 <= k < N ==> #[trigger] m.words()[k].value() == vals[c + k]
        } else {
            &&& after.and_cursor() == self.and_cursor()
            &&& m.cvalue() == 0
        }
    }

    /// `x` is the next input share of party 2 from the response, taken by going from this
    /// state to `after`: the next `N` words of its type, or zero once they are exhausted.
    pub open spec fn takes_input_share<W: Word, const N: usize>(self, x: CompositeWord<W, N>, after: Self) -> bool {
        let vals = self.spec_response().spec_input_share_2()->0.vals(W::spec_width());
        let c = self.input_cursor().get(W::spec_width());
        if c + N <= vals.len() {
            &&& after.input_cursor() == self.input_cursor().set(W::spec_width(), (c + N) as usize)
            &&& forall|k: int| 0 <= k < N ==> #[trigger] x.words()[k].value() == vals[c + k]
        } else {
            &&& after.input_cursor() == self.input_cursor()
            &&& x.cvalue() == 0
        }
    }

    /// The input shares `a` and `b` of the two opened parties are drawn by going from this state
    /// to `after`: from the tapes of parties 0 and 1, and from the response for party 2.
    pub open spec fn draws_input<W: Word, const N: usize>(self, a: CompositeWord<W, N>, b: CompositeWord<W, N>, after: Self) -> bool {
        let j = self.spec_response().spec_challenge().spec_index();
        &&& after.and_cursor() == self.and_cursor()
        &&& if j == 0 {
            &&& <PV as GeneratesRandom<CompositeWord<W, N>>>::generates(self.tape(0), a, after.tape(0))
            &&& <PV as GeneratesRandom<CompositeWord<W, N>>>::generates(self.tape(1), b, after.tape(1))
            &&& after.input_cursor() == self.input_cursor()
        } else if j == 1 {
            &&& <PV as GeneratesRandom<CompositeWord<W, N>>>::generates(self.tape(0), a, after.tape(0))
            &&& after.tape(1) == self.tape(1)
            &&& self.takes_input_share(b, after)
        } else {
            &&& self.takes_input_share(a, after)
            &&& after.tape(0) == self.tape(0)
            &&& <PV as GeneratesRandom<CompositeWord<W, N>>>::generates(self.tape(1), b, after.tape(1))
        }
    }

    /// The random words `rs` are drawn from the opened parties' tapes by going from this state
    /// to `after`, and `m` is the next AND message from the response.
    pub open spec fn draws_gate_randomness<W: Word, const N: usize>(
        self,
        rs: [CompositeWord<W, N>; 2],
        m: CompositeWord<W, N>,
        after: Self,
    ) -> bool {
        &&& <PV as GeneratesRandom<CompositeWord<W, N>>>::generates(self.tape(0), rs[0], after.tape(0))
        &&& <PV as GeneratesRandom<CompositeWord<W, N>>>::generates(self.tape(1), rs[1], after.tape(1))
        &&& self.takes_and_msg(m, after)
    }

    /// Creates a replayer for the given response, seeding the random generators of the two
    /// opened parties with the response's seeds.
    pub fn new(response: &'a Response<H::Digest, S>) -> (r: Self)
        ensures
            r.wf(),
            r.spec_response() == *response,
            forall|p: nat| p < 2 ==> #[trigger] r.absorbed(p) == Seq::<u8>::empty(),
            r.and_cursor() == ByWordType::<usize>::spec_zero(),
            r.input_cursor() == ByWordType::<usize>::spec_zero(),
            unreferenced(r.model()),
    {
        response.lemma_input_share();
        let (s0, s1) = response.seeds();
        let r = ViewReplayerBackend {
            response,
            prg0: PV::new(s0.as_slice()),
            prg1: PV::new(s1.as_slice()),
            h0: H::new(),
            h1: H::new(),
            states: WPP::new(),
            out0: OwnedWordCollector::new(),
            out1: OwnedWordCollector::new(),
            and_msg_idx: ByWordType::zero(),
            input_share2_idx: ByWordType::zero(),
        };
        proof {
            r.states.lemma_model();
        }
        r
    }

    /// Wraps this replayer into a frontend.
    pub fn into_view_replayer(self) -> (r: crate::backend::frontend::Frontend<Self>)
        ensures
            r.spec_backend() == self,
    {
        crate::backend::frontend::Frontend::wrap(self)
    }

    /// Writes the two shares of a word, each opened party's hasher absorbing its share when
    /// `hash` is set.
    fn commit<W: Word, const N: usize>(&mut self, out: WordIdx<W, N>, outs: [CompositeWord<W, N>; 2], hash: bool)
        requires
            old(self).wf(),
            valid_idx(old(self).model(), out),
        ensures
            final(self).wf(),
            writes_only(old(self).model(), final(self).model(), out),
            final(self).spec_response() == old(self).spec_response(),
            final(self).and_cursor() == old(self).and_cursor(),
            final(self).input_cursor() == old(self).input_cursor(),
            forall|p: nat| p < 2 ==> #[trigger] final(self).absorbed(p) == old(self).absorbed(p) + if hash {
                cw_bytes(outs[p as int])
            } else {
                Seq::<u8>::empty()
            },
            old(self).gate_step(*final(self), out, hash),
            old(self).keeps_tapes(*final(self)),
            forall|p: nat| p < 2 ==> #[trigger] final(self).share_bits(p, out) == outs[p as int].cbits(),
    {
        let ghost old_self = *self;
        proof {
            W::lemma_width();
            self.states.lemma_model();
            out.lemma_len();
        }
        if hash {
            absorb_word(&mut self.h0, outs[0]);
            absorb_word(&mut self.h1, outs[1]);
        } else {
            proof {
                assert(self.h0.absorbed() =~= old_self.h0.absorbed() + Seq::<u8>::empty());
                assert(self.h1.absorbed() =~= old_self.h1.absorbed() + Seq::<u8>::empty());
            }
        }
        self.states.write(out, outs);
        proof {
            assert(writes_only(old_self.states.model(0), self.states.model(0), out));
            assert forall|p: nat| p < 2 implies writes_only(old_self.share_model(p), #[trigger] self.share_model(p), out) by {
                assert(writes_only(old_self.states.model(p), self.states.model(p), out));
            }
            assert(self.outputs_of(0) == old_self.outputs_of(0));
            assert(self.outputs_of(1) == old_self.outputs_of(1));
            assert forall|p: nat| p < 2 implies #[trigger] self.share_bits(p, out) == outs[p as int].cbits() by {
                assert(slot_bits(self.states.model(p).vals.get(W::spec_width()), W::spec_width(), out.spec_idxs()) == outs[p as int].cbits());
            }
            let c0 = outs[0];
            let c1 = outs[1];
            assert(c0.cbits() == self.share_bits(0, out));
            assert(c1.cbits() == self.share_bits(1, out));
            assert(self.absorbed(0) == old_self.absorbed(0) + if hash { cw_bytes(c0) } else { Seq::<u8>::empty() });
            assert(self.absorbed(1) == old_self.absorbed(1) + if hash { cw_bytes(c1) } else { Seq::<u8>::empty() });
            assert(self.spec_response() == old_self.spec_response());
            assert(self.input_cursor() == old_self.input_cursor());
            assert(old_self.gate_step(*self, out, hash));
        }
    }

    /// The two shares of the word at the given index.
    fn shares<W: Word, const N: usize>(&self, idx: WordIdx<W, N>) -> (r: [CompositeWord<W, N>; 2])
        requires
            self.wf(),
            forall|k: int| 0 <= k < N ==> #[trigger] idx.spec_idxs()[k] < self.model().refs.get(W::spec_width()).len(),
        ensures
            forall|p: int| 0 <= p < 2 ==> #[trigger] r[p].cbits() == self.share_bits(p as nat, idx),
    {
        proof {
            W::lemma_width();
            self.states.lemma_model();
        }
        self.states.read(idx)
    }

    /// The next AND message of party `j + 1` from the response, or zero once they are
    /// exhausted.
    fn next_and_msg<W: Word, const N: usize>(&mut self) -> (r: CompositeWord<W, N>)
        requires
            old(self).wf(),
        ensures
            final(self).wf(),
            final(self).model() == old(self).model(),
            final(self).spec_response() == old(self).spec_response(),
            final(self).input_cursor() == old(self).input_cursor(),
            forall|p: nat| p < 2 ==> #[trigger] final(self).absorbed(p) == old(self).absorbed(p),
            forall|p: nat| p < 2 ==> #[trigger] final(self).share_model(p) == old(self).share_model(p),
            final(self).tape(0) == old(self).tape(0),
            final(self).tape(1) == old(self).tape(1),
            final(self).outputs_of(0) == old(self).outputs_of(0),
            final(self).outputs_of(1) == old(self).outputs_of(1),
            old(self).takes_and_msg(r, *final(self)),
    {
        let v = self.response.and_msg_next_party().as_vec::<W>();
        proof {
            W::lemma_width();
            W::lemma_with_vec(self.response.spec_and_msg_next_party(), *v);
        }
        let c = *self.and_msg_idx.as_value::<W>();
        if N > v.len() - c {
            return CompositeWord::<W, N>::zero();
        }
        let r = read_words::<W, N>(v, c);
        let ghost before = *self;
        let cur = self.and_msg_idx.as_value_mut::<W>();
        *cur = c + N;
        proof {
            assert forall|w: nat| is_word_width(w) implies #[trigger] self.and_msg_idx.get(w) <= self.response.spec_and_msg_next_party().vals(w).len() by {
                assert(before.and_msg_idx.get(w) <= self.response.spec_and_msg_next_party().vals(w).len());
            }
        }
        r
    }

    /// The next input share of party 2 from the response, or zero once they are exhausted.
    fn next_input_share2<W: Word, const N: usize>(&mut self) -> (r: CompositeWord<W, N>)
        requires
            old(self).wf(),
            old(self).spec_response().spec_input_share_2() is Some,
        ensures
            final(self).wf(),
            final(self).model() == old(self).model(),
            final(self).spec_response() == old(self).spec_response(),
            final(self).and_cursor() == old(self).and_cursor(),
            forall|p: nat| p < 2 ==> #[trigger] final(self).absorbed(p) == old(self).absorbed(p),
            forall|p: nat| p < 2 ==> #[trigger] final(self).share_model(p) == old(self).share_model(p),
            final(self).tape(0) == old(self).tape(0),
            final(self).tape(1) == old(self).tape(1),
            final(self).outputs_of(0) == old(self).outputs_of(0),
            final(self).outputs_of(1) == old(self).outputs_of(1),
            old(self).takes_input_share(r, *final(self)),
    {
        let x = match self.response.input_share_2() {
            Some(x) => x,
            None => {
                return CompositeWord::<W, N>::zero();
            },
        };
        let v = x.as_vec::<W>();
        proof {
            W::lemma_width();
            W::lemma_with_vec(*x, *v);
        }
        let c = *self.input_share2_idx.as_value::<W>();
        if N > v.len() - c {
            return CompositeWord::<W, N>::zero();
        }
        let r = read_words::<W, N>(v, c);
        let ghost before = *self;
        let cur = self.input_share2_idx.as_value_mut::<W>();
        *cur = c + N;
        proof {
            assert forall|w: nat| is_word_width(w) implies match self.response.spec_input_share_2() {
                Some(y) => #[trigger] self.input_share2_idx.get(w) <= y.vals(w).len(),
                None => true,
            } by {
                assert(match before.response.spec_input_share_2() {
                    Some(y) => before.input_share2_idx.get(w) <= y.vals(w).len(),
                    None => true,
                });
            }
        }
        r
    }
}

/// The composite word made of the `N` words of the vector starting at position `c`.
fn read_words<W: Word, const N: usize>(v: &Vec<W>, c: usize) -> (r: CompositeWord<W, N>)
    requires
        c + N <= v.len(),
    ensures
        forall|k: int| 0 <= k < N ==> #[trigger] r.words()[k] == v@[c + k],
{
    let mut ws = [W::zero(); N];
    let mut k: usize = 0;
    while k < N
        invariant
            k <= N,
            c + N <= v.len(),
            ws@.len() == N,
            forall|i: int| 0 <= i < k ==> #[trigger] ws@[i] == v@[c + i],
        decreases N - k,
    {
        ws[k] = v[c + k];
        k = k + 1;
    }
    CompositeWord::<W, N>::from_le_words(ws)
}

impl<'a, H: Hasher, PV: PseudoRandomGenerator, S: Seed, WPP: WordPairPool> Backend for ViewReplayerBackend<'a, H, PV, S, WPP> {
    type FinalizeArg = &'a Words;

    type FinalizeResult = Result<[ViewCommitment<H::Digest>; 3], ViewReplayError>;

    type Key = Response<H::Digest, S>;

    /// The response replayed.
    open spec fn key(&self) -> Response<H::Digest, S> {
        self.spec_response()
    }

    /// The tapes, the cursors, what the hashers absorbed and the outputs are unchanged.
    open spec fn quiet(&self, after: Self) -> bool {
        &&& self.keeps_tapes(after)
        &&& after.input_cursor() == self.input_cursor()
        &&& forall|p: nat| p < 2 ==> #[trigger] after.absorbed(p) == self.absorbed(p)
        &&& after.outputs_of(0) == self.outputs_of(0)
        &&& after.outputs_of(1) == self.outputs_of(1)
    }

    proof fn lemma_quiet_trans(&self, b: Self, c: Self) {
    }

    /// Both shares of the slots are the constant.
    open spec fn holds_constant(&self, w: nat, word: Seq<nat>, idxs: Seq<usize>) -> bool {
        &&& slot_bits(self.share_model(0).vals.get(w), w, idxs) == words_bits(word, w)
        &&& slot_bits(self.share_model(1).vals.get(w), w, idxs) == words_bits(word, w)
    }

    /// The response, what the hashers absorbed and the outputs are unchanged; the shares come
    /// from the response, as the input's own contract says.
    open spec fn inputs(&self, after: Self, w: nat, word: Seq<nat>, idxs: Seq<usize>) -> bool {
        &&& after.spec_response() == self.spec_response()
        &&& forall|p: nat| p < 2 ==> #[trigger] after.absorbed(p) == self.absorbed(p)
        &&& after.outputs_of(0) == self.outputs_of(0)
        &&& after.outputs_of(1) == self.outputs_of(1)
    }

    /// The pool, the random generators and the output collectors are well formed, the output
    /// shares of the two parties have one shape, the response is well formed and the read
    /// cursors stay within its words.
    closed spec fn wf(&self) -> bool {
        &&& self.states.wf()
        &&& self.prg0.wf()
        &&& self.prg1.wf()
        &&& self.out0.inv()
        &&& self.out1.inv()
        &&& same_shape(self.out0.pushed(), self.out1.pushed())
        &&& response_wf(*self.response)
        &&& cursors_ok(*self.response, self.and_msg_idx, self.input_share2_idx)
    }

    /// The slots of the pool, with the shares of the challenge party as values.
    closed spec fn model(&self) -> SlotModel {
        SlotModel {
            refs: self.states.model(0).refs,
            allocated: self.states.model(0).allocated,
            vals: self.states.model(0).vals,
            outputs: Seq::empty(),
        }
    }

    open spec fn tracks_values() -> bool {
        false
    }

    open spec fn max_ref() -> nat {
        WPP::max_ref()
    }

    proof fn lemma_model(&self) {
        self.states.lemma_model();
        assert(self.model().vals == self.states.model(0).vals);
    }

    /// The commitments of the three views, indexed by party: those of the two opened views,
    /// from their hashers and output shares, and that of the unopened view, from the digest in
    /// the response and the output share that completes the expected output; or the error
    /// when shapes mismatch.
    /// The result is the commitments of the replay when its shapes match the expected output,
    /// and an error otherwise.
    open spec fn finalized(&self, expected_output: &'a Words, r: Result<[ViewCommitment<H::Digest>; 3], ViewReplayError>) -> bool {
        &&& (r is Ok <==> self.finalizes(*expected_output))
        &&& (r matches Ok(cs) ==> self.replayed(*expected_output, cs))
        &&& (r matches Err(e) ==> self.fails_with(*expected_output, e))
    }

    fn finalize(self, expected_output: &'a Words) -> (r: Result<[ViewCommitment<H::Digest>; 3], ViewReplayError>)
        ensures
            r is Ok <==> self.finalizes(*expected_output),
            r matches Ok(cs) ==> self.replayed(*expected_output, cs),
            r matches Err(e) ==> self.fails_with(*expected_output, e),
    {
        let ghost old_self = self;
        let ViewReplayerBackend { response, prg0, prg1, h0, h1, states, out0, out1, and_msg_idx, input_share2_idx } = self;
        let out_shape = out0.words().shape();
        let exp_shape = expected_output.shape();
        if !(exp_shape == out_shape) {
            return Err(ViewReplayError::OutputShapeMismatch(ShapeError::new(out_shape, exp_shape)));
        }
        let and_shape = response.and_msg_next_party().shape();
        if !(and_msg_idx == and_shape) {
            return Err(ViewReplayError::AndMsgShapeMismatch(ShapeError::new(and_shape, and_msg_idx)));
        }
        match response.input_share_2() {
            Some(x) => {
                let in_shape = x.shape();
                if !(input_share2_idx == in_shape) {
                    return Err(ViewReplayError::InputShare2ShapeMismatch(ShapeError::new(in_shape, input_share2_idx)));
                }
            },
            None => {},
        }
        let ghost p0 = out0.pushed();
        let ghost p1 = out1.pushed();
        let ghost w0 = out0.spec_words();
        let o0 = out0.finalize();
        let o1 = out1.finalize();
        proof {
            lemma_same_shape_words(o0, o1, p0, p1);
            assert(same_shape(p0, p0));
            old_self.out0.lemma_words();
            lemma_same_shape_words(o0, w0, p0, p0);
        }
        let x = match expected_output.bitxor(&o0) {
            Ok(x) => x,
            Err(_) => {
                return Err(ViewReplayError::OutputShapeMismatch(ShapeError::new(out_shape, exp_shape)));
            },
        };
        let o2 = match x.bitxor(&o1) {
            Ok(y) => y,
            Err(_) => {
                return Err(ViewReplayError::OutputShapeMismatch(ShapeError::new(out_shape, exp_shape)));
            },
        };
        let mut h0 = h0;
        let mut h1 = h1;
        let d0 = h0.finalize();
        let d1 = h1.finalize();
        let d2 = response.commitment_digest_unopened().duplicate();
        proof {
            <H::Digest as Digest>::lemma_bytes_injective(d2, response.spec_commitment_digest_unopened());
        }
        let c0 = ViewCommitment::new(d0, o0);
        let c1 = ViewCommitment::new(d1, o1);
        let c2 = ViewCommitment::new(d2, o2);
        let j = response.challenge().index();
        let cs = if j == 0 {
            [c0, c1, c2]
        } else if j == 1 {
            [c2, c0, c1]
        } else {
            [c1, c2, c0]
        };
        proof {
            assert(x.is_xor_of(*expected_output, cs[j as int].spec_output_share()));
        }
        Ok(cs)
    }

    /// The input shares of the two opened parties: drawn from their tapes for parties 0 and 1,
    /// taken from the response for party 2.
    fn input<W: Word, const N: usize>(&mut self, word: CompositeWord<W, N>) -> (r: WordIdx<W, N>)
        ensures
            final(self).spec_response() == old(self).spec_response(),
            forall|p: nat| p < 2 ==> #[trigger] final(self).absorbed(p) == old(self).absorbed(p),
            final(self).outputs_of(0) == old(self).outputs_of(0),
            final(self).outputs_of(1) == old(self).outputs_of(1),
            exists|a: CompositeWord<W, N>, b: CompositeWord<W, N>| #[trigger] old(self).draws_input(a, b, *final(self))
                && a.cbits() == final(self).share_bits(0, r) && b.cbits() == final(self).share_bits(1, r),
    {
        let ghost start = *self;
        let j = self.response.challenge().index();
        let (a, b): (CompositeWord<W, N>, CompositeWord<W, N>) = if j == 0 {
            let a: CompositeWord<W, N> = self.prg0.next();
            let b: CompositeWord<W, N> = self.prg1.next();
            proof {
                assert(self.absorbed(0) == start.absorbed(0));
                assert(self.absorbed(1) == start.absorbed(1));
                assert(start.draws_input(a, b, *self));
            }
            (a, b)
        } else if j == 1 {
            let a: CompositeWord<W, N> = self.prg0.next();
            let ghost s1 = *self;
            let b: CompositeWord<W, N> = self.next_input_share2();
            proof {
                assert(s1.absorbed(0) == start.absorbed(0));
                assert(s1.absorbed(1) == start.absorbed(1));
                assert(self.absorbed(0) == s1.absorbed(0));
                assert(self.absorbed(1) == s1.absorbed(1));
                assert(start.draws_input(a, b, *self));
            }
            (a, b)
        } else {
            let a: CompositeWord<W, N> = self.next_input_share2();
            let ghost s1 = *self;
            let b: CompositeWord<W, N> = self.prg1.next();
            proof {
                assert(s1.absorbed(0) == start.absorbed(0));
                assert(s1.absorbed(1) == start.absorbed(1));
                assert(self.absorbed(0) == s1.absorbed(0));
                assert(self.absorbed(1) == s1.absorbed(1));
                assert(start.draws_input(a, b, *self));
            }
            (a, b)
        };
        let ghost pre = *self;
        proof {
            self.states.lemma_model();
            start.states.lemma_model();
            assert(pre.states.model(0) == pre.model());
            assert(start.states.model(0) == start.model());
        }
        let idx = self.states.allocate::<W, N>();
        let ghost mid = *self;
        proof {
            W::lemma_width();
            self.states.lemma_model();
            assert(allocates(pre.states.model(0), self.states.model(0), idx));
            assert(self.states.model(0) == self.model());
        }
        self.commit(idx, [a, b], false);
        proof {
            lemma_allocates_writes(start.model(), mid.model(), self.model(), idx);
            assert(start.draws_input(a, b, pre));
            assert(start.draws_input(a, b, *self));
            assert(pre.absorbed(0) == start.absorbed(0));
            assert(pre.absorbed(1) == start.absorbed(1));
            assert(mid.absorbed(0) == pre.absorbed(0));
            assert(mid.absorbed(1) == pre.absorbed(1));
            assert(self.absorbed(0) == mid.absorbed(0) + Seq::<u8>::empty());
            assert(self.absorbed(1) == mid.absorbed(1) + Seq::<u8>::empty());
            assert(self.absorbed(0) =~= start.absorbed(0));
            assert(self.absorbed(1) =~= start.absorbed(1));
            assert(a.cbits() == self.share_bits(0, idx));
            assert(b.cbits() == self.share_bits(1, idx));
        }
        idx
    }

    fn allocate<W: Word, const N: usize>(&mut self) -> (r: WordIdx<W, N>) {
        let ghost start = *self;
        proof {
            self.states.lemma_model();
        }
        let idx = self.states.allocate::<W, N>();
        proof {
            W::lemma_width();
            assert(allocates(start.states.model(0), self.states.model(0), idx));
        }
        idx
    }

    fn constant<W: Word, const N: usize>(&mut self, word: CompositeWord<W, N>, out: WordIdx<W, N>)
        ensures
            old(self).gate_step(*final(self), out, false),
            old(self).keeps_tapes(*final(self)),
            forall|p: nat| p < 2 ==> #[trigger] final(self).share_bits(p, out) == word.cbits(),
    {
        self.commit(out, [word, word], false);
        proof {
            lemma_cbits_words_bits(word);
            assert(self.share_bits(0, out) == [word, word][0].cbits());
            assert(self.share_bits(1, out) == [word, word][1].cbits());
        }
    }

    fn from_le_words<W: Word, const N: usize>(&mut self, ins: WordIdx<W, N>, out: WordIdx<W, N>)
        ensures
            old(self).gate_step(*final(self), out, false),
            old(self).keeps_tapes(*final(self)),
            forall|p: nat| p < 2 ==> #[trigger] final(self).share_bits(p, out) == old(self).share_bits(p, ins),
    {
        let a = self.shares(ins);
        self.commit(out, a, false);
    }

    fn to_le_words<W: Word, const N: usize>(&mut self, in_: WordIdx<W, N>, outs: WordIdx<W, N>)
        ensures
            old(self).gate_step(*final(self), outs, false),
            old(self).keeps_tapes(*final(self)),
            forall|p: nat| p < 2 ==> #[trigger] final(self).share_bits(p, outs) == old(self).share_bits(p, in_),
    {
        proof {
            in_.lemma_len();
        }
        let a = self.shares(in_);
        self.commit(outs, a, false);
    }

    fn output<W: Word, const N: usize>(&mut self, out: WordIdx<W, N>)
        ensures
            forall|p: nat| p < 2 ==> #[trigger] final(self).share_model(p) == old(self).share_model(p),
            forall|p: nat| p < 2 ==> #[trigger] final(self).absorbed(p) == old(self).absorbed(p),
            old(self).keeps_tapes(*final(self)),
            final(self).spec_response() == old(self).spec_response(),
            final(self).input_cursor() == old(self).input_cursor(),
            forall|p: nat, c: CompositeWord<W, N>| #![trigger final(self).outputs_of(p), c.cbits()]
                p < 2 && c.cbits() == old(self).share_bits(p, out)
                    ==> final(self).outputs_of(p) == old(self).outputs_of(p).push((W::spec_width(), word_vals(c))),
    {
        proof {
            out.lemma_len();
        }
        let a = self.shares(out);
        let ghost before = *self;
        self.out0.push(a[0]);
        self.out1.push(a[1]);
        proof {
            assert forall|p: nat, c: CompositeWord<W, N>| #![trigger self.outputs_of(p), c.cbits()]
                p < 2 && c.cbits() == before.share_bits(p, out)
                    implies self.outputs_of(p) == before.outputs_of(p).push((W::spec_width(), word_vals(c))) by {
                CompositeWord::<W, N>::lemma_ext(c, a[p as int]);
            }
            a[0].lemma_words_len();
            a[1].lemma_words_len();
            lemma_same_shape_push(
                before.out0.pushed(),
                before.out1.pushed(),
                (W::spec_width(), word_vals(a[0])),
                (W::spec_width(), word_vals(a[1])),
            );
        }
    }

    fn increase_refcount<W: Word, const N: usize>(&mut self, idx: WordIdx<W, N>) {
        proof {
            self.states.lemma_model();
        }
        self.states.increase_refcount(idx);
        proof {
            assert(recounts(old(self).states.model(0), self.states.model(0), idx, 1));
        }
    }

    fn decrease_refcount<W: Word, const N: usize>(&mut self, idx: WordIdx<W, N>) {
        proof {
            self.states.lemma_model();
            idx.lemma_len();
        }
        self.states.decrease_refcount(idx);
        proof {
            assert(recounts(old(self).states.model(0), self.states.model(0), idx, -1));
        }
    }

    /// Party 0 negates its share; it is opened as the challenge party (challenge 0) or as the
    /// next party (challenge 2).
    fn not<W: Word, const N: usize>(&mut self, in_: WordIdx<W, N>, out: WordIdx<W, N>)
        ensures
            old(self).gate_step(*final(self), out, true),
            old(self).keeps_tapes(*final(self)),
            forall|p: nat| p < 2 ==> #[trigger] final(self).share_bits(p, out) == if old(self).is_party_zero(p) {
                seq_not(old(self).share_bits(p, in_))
            } else {
                old(self).share_bits(p, in_)
            },
    {
        proof {
            in_.lemma_len();
        }
        let a = self.shares(in_);
        let j = self.response.challenge().index();
        let outs = if j == 0 {
            [a[0].not(), a[1]]
        } else if j == 2 {
            [a[0], a[1].not()]
        } else {
            a
        };
        self.commit(out, outs, true);
    }

    fn bitxor<W: Word, const N: usize>(&mut self, inl: WordIdx<W, N>, inr: WordIdx<W, N>, out: WordIdx<W, N>)
        ensures
            old(self).gate_step(*final(self), out, true),
            old(self).keeps_tapes(*final(self)),
            forall|p: nat| p < 2 ==> #[trigger] final(self).share_bits(p, out) == seq_xor(old(self).share_bits(p, inl), old(self).share_bits(p, inr)),
    {
        proof {
            inl.lemma_len();
            inr.lemma_len();
        }
        let a = self.shares(inl);
        let b = self.shares(inr);
        self.commit(out, [a[0].bitxor(b[0]), a[1].bitxor(b[1])], true);
    }

    /// The AND gate: the AND message of the challenge party is computed from both shares and
    /// tapes, that of the next party is taken from the response.
    fn bitand<W: Word, const N: usize>(&mut self, inl: WordIdx<W, N>, inr: WordIdx<W, N>, out: WordIdx<W, N>)
        ensures
            old(self).gate_step(*final(self), out, true),
            exists|rs: [CompositeWord<W, N>; 2], m: CompositeWord<W, N>| #[trigger] old(self).draws_gate_randomness(rs, m, *final(self)) && {
                let a0 = old(self).share_bits(0, inl);
                let a1 = old(self).share_bits(1, inl);
                let b0 = old(self).share_bits(0, inr);
                let b1 = old(self).share_bits(1, inr);
                let msg = seq_xor(seq_xor(seq_xor(seq_and(a0, b1), seq_and(a1, b0)), rs[0].cbits()), rs[1].cbits());
                &&& final(self).share_bits(0, out) == seq_xor(seq_and(a0, b0), msg)
                &&& final(self).share_bits(1, out) == seq_xor(seq_and(a1, b1), m.cbits())
            },
    {
        proof {
            inl.lemma_len();
            inr.lemma_len();
        }
        let ghost s0 = *self;
        let r0: CompositeWord<W, N> = self.prg0.next();
        let r1: CompositeWord<W, N> = self.prg1.next();
        let ghost s1 = *self;
        let a = self.shares(inl);
        let b = self.shares(inr);
        let m = self.next_and_msg::<W, N>();
        let ghost s2 = *self;
        let (outs, _msg) = and_replay(a, b, [r0, r1], m);
        self.commit(out, outs, true);
        proof {
            assert(s1.share_model(0) == s0.share_model(0));
            assert(s1.share_model(1) == s0.share_model(1));
            assert(s2.share_model(0) == s0.share_model(0));
            assert(s2.share_model(1) == s0.share_model(1));
            assert(s2.absorbed(0) == s0.absorbed(0));
            assert(s2.absorbed(1) == s0.absorbed(1));
            assert(s1.takes_and_msg(m, s2));
            assert(s0.takes_and_msg(m, s2));
            assert(s0.takes_and_msg(m, *self));
            assert(s0.draws_gate_randomness([r0, r1], m, *self));
        }
    }

    /// Party 0 XORs the constant into its share.
    fn bitxor_const<W: Word, const N: usize>(&mut self, inl: WordIdx<W, N>, inr: CompositeWord<W, N>, out: WordIdx<W, N>)
        ensures
            old(self).gate_step(*final(self), out, true),
            old(self).keeps_tapes(*final(self)),
            forall|p: nat| p < 2 ==> #[trigger] final(self).share_bits(p, out) == if old(self).is_party_zero(p) {
                seq_xor(old(self).share_bits(p, inl), inr.cbits())
            } else {
                old(self).share_bits(p, inl)
            },
    {
        proof {
            inl.lemma_len();
        }
        let a = self.shares(inl);
        let j = self.response.challenge().index();
        let outs = if j == 0 {
            [a[0].bitxor(inr), a[1]]
        } else if j == 2 {
            [a[0], a[1].bitxor(inr)]
        } else {
            a
        };
        self.commit(out, outs, true);
    }

    fn bitand_const<W: Word, const N: usize>(&mut self, inl: WordIdx<W, N>, inr: CompositeWord<W, N>, out: WordIdx<W, N>)
        ensures
            old(self).gate_step(*final(self), out, true),
            old(self).keeps_tapes(*final(self)),
            forall|p: nat| p < 2 ==> #[trigger] final(self).share_bits(p, out) == seq_and(old(self).share_bits(p, inl), inr.cbits()),
    {
        proof {
            inl.lemma_len();
        }
        let a = self.shares(inl);
        self.commit(out, [a[0].bitand(inr), a[1].bitand(inr)], true);
    }

    fn unbounded_shl<W: Word, const N: usize>(&mut self, in_: WordIdx<W, N>, shift: usize, out: WordIdx<W, N>)
        ensures
            old(self).gate_step(*final(self), out, true),
            old(self).keeps_tapes(*final(self)),
            forall|p: nat| p < 2 ==> #[trigger] final(self).share_bits(p, out) == seq_shl(old(self).share_bits(p, in_), shift as int),
    {
        proof {
            in_.lemma_len();
            lemma_shape_ok::<W, N>();
        }
        let a = self.shares(in_);
        self.commit(out, [a[0].unbounded_shl(shift), a[1].unbounded_shl(shift)], true);
    }

    fn unbounded_shr<W: Word, const N: usize>(&mut self, in_: WordIdx<W, N>, shift: usize, out: WordIdx<W, N>)
        ensures
            old(self).gate_step(*final(self), out, true),
            old(self).keeps_tapes(*final(self)),
            forall|p: nat| p < 2 ==> #[trigger] final(self).share_bits(p, out) == seq_shr(old(self).share_bits(p, in_), shift as int),
    {
        proof {
            in_.lemma_len();
            lemma_shape_ok::<W, N>();
        }
        let a = self.shares(in_);
        self.commit(out, [a[0].unbounded_shr(shift), a[1].unbounded_shr(shift)], true);
    }

    fn rotate_left<W: Word, const N: usize>(&mut self, in_: WordIdx<W, N>, shift: usize, out: WordIdx<W, N>)
        ensures
            old(self).gate_step(*final(self), out, true),
            old(self).keeps_tapes(*final(self)),
            forall|p: nat| p < 2 ==> #[trigger] final(self).share_bits(p, out) == seq_rotl(old(self).share_bits(p, in_), shift as int),
    {
        proof {
            in_.lemma_len();
            lemma_shape_ok::<W, N>();
        }
        let a = self.shares(in_);
        self.commit(out, [a[0].rotate_left(shift), a[1].rotate_left(shift)], true);
    }

    fn rotate_right<W: Word, const N: usize>(&mut self, in_: WordIdx<W, N>, shift: usize, out: WordIdx<W, N>)
        ensures
            old(self).gate_step(*final(self), out, true),
            old(self).keeps_tapes(*final(self)),
            forall|p: nat| p < 2 ==> #[trigger] final(self).share_bits(p, out) == seq_rotr(old(self).share_bits(p, in_), shift as int),
    {
        proof {
            in_.lemma_len();
            lemma_shape_ok::<W, N>();
        }
        let a = self.shares(in_);
        self.commit(out, [a[0].rotate_right(shift), a[1].rotate_right(shift)], true);
    }

    fn reverse_bits<W: Word, const N: usize>(&mut self, in_: WordIdx<W, N>, out: WordIdx<W, N>)
        ensures
            old(self).gate_step(*final(self), out, true),
            old(self).keeps_tapes(*final(self)),
            forall|p: nat| p < 2 ==> #[trigger] final(self).share_bits(p, out) == old(self).share_bits(p, in_).reverse(),
    {
        proof {
            in_.lemma_len();
        }
        let a = self.shares(in_);
        self.commit(out, [a[0].reverse_bits(), a[1].reverse_bits()], true);
    }

    fn swap_bytes<W: Word, const N: usize>(&mut self, in_: WordIdx<W, N>, out: WordIdx<W, N>)
        ensures
            old(self).gate_step(*final(self), out, true),
            old(self).keeps_tapes(*final(self)),
            forall|p: nat| p < 2 ==> #[trigger] final(self).share_bits(p, out) == seq_swap_bytes(old(self).share_bits(p, in_)),
    {
        proof {
            in_.lemma_len();
        }
        let a = self.shares(in_);
        self.commit(out, [a[0].swap_bytes(), a[1].swap_bytes()], true);
    }

    fn cast<W: Word, T: Word, const N: usize>(&mut self, in_: WordIdx<W, N>, out: WordIdx<T, N>)
        ensures
            old(self).gate_step(*final(self), out, true),
            old(self).keeps_tapes(*final(self)),
            forall|p: nat, a: CompositeWord<W, N>, o: CompositeWord<T, N>|
                #![trigger final(self).share_bits(p, out), a.cbits(), o.cbits()]
                p < 2 && a.cbits() == old(self).share_bits(p, in_) && o.cbits() == final(self).share_bits(p, out)
                    ==> forall|k: int| 0 <= k < N ==> #[trigger] o.words()[k].value() == a.words()[0].value() % pow2(T::spec_width()),
    {
        proof {
            in_.lemma_len();
        }
        let a = self.shares(in_);
        let x0: T = cast(a[0].lsw());
        let x1: T = cast(a[1].lsw());
        let outs = [CompositeWord::<T, N>::from_le_words([x0; N]), CompositeWord::<T, N>::from_le_words([x1; N])];
        let ghost before = *self;
        self.commit(out, outs, true);
        proof {
            assert forall|p: nat, a2: CompositeWord<W, N>, o: CompositeWord<T, N>|
                #![trigger self.share_bits(p, out), a2.cbits(), o.cbits()]
                p < 2 && a2.cbits() == before.share_bits(p, in_) && o.cbits() == self.share_bits(p, out)
                    implies forall|k: int| 0 <= k < N ==> #[trigger] o.words()[k].value() == a2.words()[0].value() % pow2(T::spec_width()) by {
                CompositeWord::<W, N>::lemma_ext(a2, a[p as int]);
                CompositeWord::<T, N>::lemma_ext(o, outs[p as int]);
                assert forall|k: int| 0 <= k < N implies #[trigger] o.words()[k].value() == a2.words()[0].value() % pow2(T::spec_width()) by {
                    if p == 0 {
                        assert(o.words()[k] == x0);
                    } else {
                        assert(o.words()[k] == x1);
                    }
                }
            }
        }
    }

    /// The carry gate: bit by bit, the AND message of the challenge party is computed from both
    /// shares and tapes, that of the next party is taken from the response.
    fn carry<W: Word, const N: usize>(&mut self, p: WordIdx<W, N>, g: WordIdx<W, N>, carry_in: bool, out: WordIdx<W, N>)
        ensures
            old(self).gate_step(*final(self), out, true),
            exists|ps: [CompositeWord<W, N>; 2], gs: [CompositeWord<W, N>; 2], rs: [CompositeWord<W, N>; 2], m: CompositeWord<W, N>|
                #![trigger old(self).draws_gate_randomness(rs, m, *final(self)), ps[0].cbits(), gs[0].cbits()]
                old(self).draws_gate_randomness(rs, m, *final(self)) && ps[0].cbits() == old(self).share_bits(0, p)
                && ps[1].cbits() == old(self).share_bits(1, p) && gs[0].cbits() == old(self).share_bits(0, g)
                && gs[1].cbits() == old(self).share_bits(1, g)
                && forall|i: int, k: int| 0 <= i < 2 && 0 <= k < CompositeWord::<W, N>::spec_cwidth()
                    ==> #[trigger] final(self).share_bits(i as nat, out)[k] == rshare(ps, gs, rs, m.cbits(), carry_in, k as nat, i),
    {
        proof {
            p.lemma_len();
            g.lemma_len();
            lemma_shape_ok::<W, N>();
        }
        let ghost s0 = *self;
        let r0: CompositeWord<W, N> = self.prg0.next();
        let r1: CompositeWord<W, N> = self.prg1.next();
        let ghost s1 = *self;
        let ps = self.shares(p);
        let gs = self.shares(g);
        let m = self.next_and_msg::<W, N>();
        let ghost s2 = *self;
        let outs = carry_replay(ps, gs, carry_in, [r0, r1], m);
        self.commit(out, outs, true);
        proof {
            assert(s1.share_model(0) == s0.share_model(0));
            assert(s1.share_model(1) == s0.share_model(1));
            assert(s2.share_model(0) == s0.share_model(0));
            assert(s2.share_model(1) == s0.share_model(1));
            assert(s2.absorbed(0) == s0.absorbed(0));
            assert(s2.absorbed(1) == s0.absorbed(1));
            assert(s1.takes_and_msg(m, s2));
            assert(s0.takes_and_msg(m, s2));
            assert(s0.takes_and_msg(m, *self));
            assert(s0.draws_gate_randomness([r0, r1], m, *self));
            assert(ps[0].cbits() == s0.share_bits(0, p));
            assert(ps[1].cbits() == s0.share_bits(1, p));
            assert(gs[0].cbits() == s0.share_bits(0, g));
            assert(gs[1].cbits() == s0.share_bits(1, g));
            assert forall|i: int, k: int| 0 <= i < 2 && 0 <= k < CompositeWord::<W, N>::spec_cwidth()
                implies #[trigger] self.share_bits(i as nat, out)[k] == rshare(ps, gs, [r0, r1], m.cbits(), carry_in, k as nat, i) by {
                assert(self.share_bits(i as nat, out) == outs[i].cbits());
            }
        }
    }
}

} // verus!
