//! Backend executing circuits on plain words.
use crate::backend::backend::{unreferenced,
    allocates, lemma_allocates_writes, lemma_shape_ok, model_ok, recounts, shape_ok, valid_idx, word_bits, writes_only, Backend,
    SlotModel,
};
use crate::executor::word_pool::WordPool;
use crate::word::bitseq::{bits_val, lemma_nat_bits, nat_bits};
use vstd::arithmetic::power2::pow2;
use crate::word::by_word_type::is_word_width;
use crate::word::collectors::word_vals;
use crate::word::composite::CompositeWord;
use crate::word::slots::slot_bits;
use crate::word::word::{cast, Word};
use crate::word::word_idx::WordIdx;
use crate::word::words::Words;
use vstd::prelude::*;

verus! {

/// The bits of a sequence of words of width `w` with the given values, least significant first.
pub open spec fn words_bits(vs: Seq<nat>, w: nat) -> Seq<bool> {
    Seq::new(vs.len() * w, |k: int| nat_bits(vs[k / (w as int)], w)[k % (w as int)])
}

/// The values of the output words of width `w`, in order, given the outputs as pairs of a width
/// and the values of the words of a composite word.
pub open spec fn out_vals(outs: Seq<(nat, Seq<nat>)>, w: nat) -> Seq<nat>
    decreases outs.len(),
{
    if outs.len() == 0 {
        Seq::empty()
    } else {
        let last = outs.last();
        out_vals(outs.drop_last(), w) + if last.0 == w {
            last.1
        } else {
            Seq::empty()
        }
    }
}

/// The values of the `w`-bit words making up a sequence of bits, least significant word first.
pub open spec fn bits_words(bits: Seq<bool>, w: nat) -> Seq<nat> {
    Seq::new(bits.len() / w, |i: int| bits_val(bits.subrange(i * w, i * w + w)))
}

/// The values of the output words of width `w`, in order, read from the outputs of a backend's
/// model, each a width and the bits of a composite word.
pub open spec fn model_out_vals(outs: Seq<(nat, Seq<bool>)>, w: nat) -> Seq<nat>
    decreases outs.len(),
{
    if outs.len() == 0 {
        Seq::empty()
    } else {
        let last = outs.last();
        model_out_vals(outs.drop_last(), w) + if last.0 == w {
            bits_words(last.1, w)
        } else {
            Seq::empty()
        }
    }
}

/// Every entry has a positive width and values that fit in it.
pub open spec fn outs_fit(outs: Seq<(nat, Seq<nat>)>) -> bool {
    forall|i: int| 0 <= i < outs.len() ==> #[trigger] entry_fits(outs[i])
}

/// The entry has a positive width and values that fit in it.
pub open spec fn entry_fits(e: (nat, Seq<nat>)) -> bool {
    &&& e.0 > 0
    &&& forall|k: int| 0 <= k < e.1.len() ==> #[trigger] e.1[k] < pow2(e.0)
}

/// Reading `w`-bit words back from their bits gives their values.
proof fn lemma_bits_words(vs: Seq<nat>, w: nat)
    requires
        w > 0,
        forall|k: int| 0 <= k < vs.len() ==> #[trigger] vs[k] < pow2(w),
    ensures
        bits_words(words_bits(vs, w), w) == vs,
{
    let b = words_bits(vs, w);
    vstd::arithmetic::div_mod::lemma_div_multiples_vanish(vs.len() as int, w as int);
    assert(b.len() / w == vs.len()) by {
        vstd::arithmetic::mul::lemma_mul_is_commutative(vs.len() as int, w as int);
    }
    assert forall|i: int| 0 <= i < vs.len() implies #[trigger] bits_words(b, w)[i] == vs[i] by {
        assert(i * w + w <= vs.len() * w) by (nonlinear_arith)
            requires
                0 <= i < vs.len(),
                w > 0,
        ;
        assert(0 <= i * w) by (nonlinear_arith)
            requires
                0 <= i,
                w > 0,
        ;
        assert forall|j: int| 0 <= j < w implies #[trigger] b.subrange(i * w, i * w + w)[j] == nat_bits(vs[i], w)[j] by {
            vstd::arithmetic::div_mod::lemma_fundamental_div_mod_converse(i * w + j, w as int, i, j);
        }
        assert(b.subrange(i * w, i * w + w) =~= nat_bits(vs[i], w));
        lemma_nat_bits(vs[i], w);
    }
    assert(bits_words(b, w) =~= vs);
}

/// Read back from their bits, the output words of width `w` are those recorded with their values.
proof fn lemma_model_out_vals(outs: Seq<(nat, Seq<nat>)>, w: nat)
    requires
        outs_fit(outs),
    ensures
        model_out_vals(outs.map_values(|e: (nat, Seq<nat>)| (e.0, words_bits(e.1, e.0))), w) == out_vals(outs, w),
    decreases outs.len(),
{
    let m = outs.map_values(|e: (nat, Seq<nat>)| (e.0, words_bits(e.1, e.0)));
    if outs.len() > 0 {
        let last = outs.last();
        assert(m.drop_last() =~= outs.drop_last().map_values(|e: (nat, Seq<nat>)| (e.0, words_bits(e.1, e.0))));
        assert(outs_fit(outs.drop_last())) by {
            assert forall|i: int| 0 <= i < outs.drop_last().len() implies #[trigger] entry_fits(outs.drop_last()[i]) by {
                assert(outs.drop_last()[i] == outs[i]);
                assert(entry_fits(outs[i]));
            }
        }
        lemma_model_out_vals(outs.drop_last(), w);
        if last.0 == w {
            assert(entry_fits(outs[outs.len() - 1]));
            lemma_bits_words(last.1, w);
        }
    } else {
        assert(m =~= Seq::<(nat, Seq<bool>)>::empty());
    }
}

/// The bits of a composite word are those of the values of its words.
pub proof fn lemma_cbits_words_bits<W: Word, const N: usize>(c: CompositeWord<W, N>)
    ensures
        c.cbits() == words_bits(word_vals(c), W::spec_width()),
{
    let w = W::spec_width();
    c.lemma_words_len();
    W::lemma_width();
    assert forall|k: int| 0 <= k < N * w implies #[trigger] c.cbits()[k] == words_bits(word_vals(c), w)[k] by {
        assert(0 <= k / (w as int) < N) by (nonlinear_arith)
            requires
                0 <= k < N * w,
                w > 0,
        ;
        c.words()[k / (w as int)].lemma_word_bits();
    }
    vstd::arithmetic::mul::lemma_mul_is_commutative(N as int, w as int);
    assert(c.cbits() =~= words_bits(word_vals(c), w));
}

/// The values of the words at the given positions.
pub open spec fn vals_at(vals: Seq<nat>, idxs: Seq<usize>) -> Seq<nat> {
    idxs.map_values(|i: usize| vals[i as int])
}

/// The bits of the words at the given positions are those of their values.
pub proof fn lemma_slot_bits_vals_at(vals: Seq<nat>, w: nat, idxs: Seq<usize>)
    requires
        w > 0,
    ensures
        slot_bits(vals, w, idxs) == words_bits(vals_at(vals, idxs), w),
{
    assert forall|k: int| 0 <= k < idxs.len() * w implies #[trigger] slot_bits(vals, w, idxs)[k] == words_bits(vals_at(vals, idxs), w)[k] by {
        assert(0 <= k / (w as int) < idxs.len()) by (nonlinear_arith)
            requires
                0 <= k < idxs.len() * w,
                w > 0,
        ;
    }
    assert(slot_bits(vals, w, idxs) =~= words_bits(vals_at(vals, idxs), w));
}

/// Backend executing circuits on plain words held in a word pool, collecting the output words.
pub struct ExecutionBackend<WP: WordPool> {
    state: WP,
    outputs: Words,
    outs: Ghost<Seq<(nat, Seq<nat>)>>,
}

impl<WP: WordPool> ExecutionBackend<WP> {
    /// The output words, as pairs of a width and the values of the words of a composite word.
    pub closed spec fn out_words(self) -> Seq<(nat, Seq<nat>)> {
        self.outs@
    }

    /// Creates an execution backend with an empty pool and no outputs.
    pub fn new() -> (r: Self)
        ensures
            r.wf(),
            r.out_words() == Seq::<(nat, Seq<nat>)>::empty(),
            forall|v: nat| is_word_width(v) ==> #[trigger] r.model().refs.get(v).len() == 0,
            unreferenced(r.model()),
    {
        let r = ExecutionBackend { state: WP::new(), outputs: Words::new(), outs: Ghost(Seq::empty()) };
        proof {
            assert forall|v: nat| is_word_width(v) implies #[trigger] r.outputs.vals(v) == out_vals(r.outs@, v) by {
                assert(r.outputs.vals(v).len() == 0);
                assert(r.outputs.vals(v) =~= Seq::<nat>::empty());
            }
        }
        r
    }

    /// Writes the words of a composite word to the given index.
    fn put<W: Word, const N: usize>(&mut self, out: WordIdx<W, N>, c: CompositeWord<W, N>)
        requires
            old(self).wf(),
            valid_idx(old(self).model(), out),
        ensures
            final(self).wf(),
            writes_only(old(self).model(), final(self).model(), out),
            word_bits(final(self).model(), out) == c.cbits(),
            forall|k: int| 0 <= k < N ==> #[trigger] final(self).model().vals.get(W::spec_width())[out.spec_idxs()[k] as int] == c.words()[k].value(),
            final(self).out_words() == old(self).out_words(),
    {
        proof {
            W::lemma_width();
        }
        let ghost before = *self;
        self.state.write(out, c);
        proof {
            assert forall|v: nat, i: int| is_word_width(v) && 0 <= i < before.model().vals.get(v).len() && !crate::backend::backend::uses(out, v, i)
                implies #[trigger] self.model().vals.get(v)[i] == before.model().vals.get(v)[i] by {
                if v == W::spec_width() {
                    assert(!out.spec_idxs().contains(i as usize));
                }
            }
        }
    }

    /// Writes at `out` the word at `in_` converted to the word type of `out`.
    fn cast_word<W: Word, T: Word, const N: usize, const M: usize>(&mut self, in_: WordIdx<W, N>, out: WordIdx<T, M>)
        requires
            old(self).wf(),
            N == 1,
            M == 1,
            valid_idx(old(self).model(), in_),
            valid_idx(old(self).model(), out),
        ensures
            final(self).wf(),
            writes_only(old(self).model(), final(self).model(), out),
            final(self).model().vals.get(T::spec_width())[out.spec_idxs()[0] as int]
                == old(self).model().vals.get(W::spec_width())[in_.spec_idxs()[0] as int] % vstd::arithmetic::power2::pow2(T::spec_width()),
    {
        let a = self.get(in_);
        let x: T = cast(a.lsw());
        let mut ws = [x; M];
        self.put(out, CompositeWord::<T, M>::from_le_words(ws));
    }

    /// The composite word at the given index.
    fn get<W: Word, const N: usize>(&self, idx: WordIdx<W, N>) -> (r: CompositeWord<W, N>)
        requires
            self.wf(),
            valid_idx(self.model(), idx),
        ensures
            r.cbits() == word_bits(self.model(), idx),
            forall|k: int| 0 <= k < N ==> #[trigger] r.words()[k].value() == self.model().vals.get(W::spec_width())[idx.spec_idxs()[k] as int],
    {
        self.state.read(idx)
    }
}

impl<WP: WordPool> ExecutionBackend<WP> {
    /// Wraps this execution backend into a frontend.
    pub fn into_executor(self) -> (r: crate::backend::frontend::Frontend<Self>)
        ensures
            r.spec_backend() == self,
    {
        crate::backend::frontend::Frontend::wrap(self)
    }
}

impl<WP: WordPool> Backend for ExecutionBackend<WP> {
    type FinalizeArg = ();

    type FinalizeResult = Words;

    type Key = ();

    /// An executor is set up with nothing.
    open spec fn key(&self) -> () {
        ()
    }

    /// An executor has nothing besides its slots.
    open spec fn quiet(&self, after: Self) -> bool {
        true
    }

    /// An executor keeps one value per slot, which the constant's own contract gives.
    open spec fn holds_constant(&self, w: nat, word: Seq<nat>, idxs: Seq<usize>) -> bool {
        true
    }

    /// An executor has nothing besides its slots, whose values the input's own contract gives.
    open spec fn inputs(&self, after: Self, w: nat, word: Seq<nat>, idxs: Seq<usize>) -> bool {
        true
    }

    proof fn lemma_quiet_trans(&self, b: Self, c: Self) {
    }

    /// The pool is well formed and the output words are those recorded.
    closed spec fn wf(&self) -> bool {
        &&& self.state.wf()
        &&& forall|v: nat| is_word_width(v) ==> #[trigger] self.outputs.vals(v) == out_vals(self.outs@, v)
        &&& outs_fit(self.outs@)
    }

    closed spec fn model(&self) -> SlotModel {
        SlotModel {
            outputs: self.outs@.map_values(|e: (nat, Seq<nat>)| (e.0, words_bits(e.1, e.0))),
            ..self.state.model()
        }
    }

    open spec fn tracks_values() -> bool {
        true
    }

    open spec fn max_ref() -> nat {
        WP::max_ref()
    }

    proof fn lemma_model(&self) {
        self.state.lemma_model();
        assert(self.model().vals == self.state.model().vals);
        assert(self.model().refs == self.state.model().refs);
        assert(self.model().allocated == self.state.model().allocated);
    }

    /// The result is the store of the output words: for each word type, the words of the
    /// composite words output with that type, in order, as the model's outputs hold them.
    open spec fn finalized(&self, arg: (), r: Words) -> bool {
        forall|v: nat| is_word_width(v) ==> #[trigger] r.vals(v) == model_out_vals(self.model().outputs, v)
    }

    /// The output words.
    fn finalize(self, arg: ()) -> (r: Words) {
        proof {
            assert forall|v: nat| is_word_width(v) implies #[trigger] self.outputs.vals(v) == model_out_vals(self.model().outputs, v) by {
                lemma_model_out_vals(self.outs@, v);
            }
        }
        self.outputs
    }

    fn input<W: Word, const N: usize>(&mut self, word: CompositeWord<W, N>) -> (r: WordIdx<W, N>) {
        let ghost start = *self;
        let idx = self.state.allocate::<W, N>();
        let ghost mid = *self;
        self.put(idx, word);
        proof {
            lemma_allocates_writes(start.model(), mid.model(), self.model(), idx);
        }
        idx
    }

    fn allocate<W: Word, const N: usize>(&mut self) -> (r: WordIdx<W, N>) {
        self.state.allocate::<W, N>()
    }

    fn constant<W: Word, const N: usize>(&mut self, word: CompositeWord<W, N>, out: WordIdx<W, N>) {
        self.put(out, word);
    }

    fn from_le_words<W: Word, const N: usize>(&mut self, ins: WordIdx<W, N>, out: WordIdx<W, N>) {
        let slots = ins.into_array();
        proof {
            ins.lemma_len();
        }
        let mut ws = [W::zero(); N];
        let mut k: usize = 0;
        while k < N
            invariant
                k <= N,
                ws@.len() == N,
                slots@ == ins.spec_idxs(),
                self.wf(),
                forall|j: int| 0 <= j < N ==> #[trigger] ins.spec_idxs()[j] < self.model().refs.get(W::spec_width()).len(),
                forall|j: int| 0 <= j < k ==> #[trigger] ws@[j].value() == self.model().vals.get(W::spec_width())[ins.spec_idxs()[j] as int],
            decreases N - k,
        {
            ws[k] = self.state.read_word::<W>(slots[k]);
            k = k + 1;
        }
        let c = CompositeWord::<W, N>::from_le_words(ws);
        self.put(out, c);
    }

    fn to_le_words<W: Word, const N: usize>(&mut self, in_: WordIdx<W, N>, outs: WordIdx<W, N>) {
        let c = self.get(in_);
        self.put(outs, c);
    }

    fn output<W: Word, const N: usize>(&mut self, out: WordIdx<W, N>) {
        let c = self.get(out);
        let ws = c.to_le_words();
        let ghost start = *self;
        let ghost vs = vals_at(start.model().vals.get(W::spec_width()), out.spec_idxs());
        proof {
            out.lemma_len();
            W::lemma_width();
            W::lemma_with_vec(self.outputs, W::vec_in(self.outputs));
        }
        let mut k: usize = 0;
        while k < N
            invariant
                k <= N,
                ws@ == c.words(),
                out.spec_idxs().len() == N,
                vs == vals_at(start.model().vals.get(W::spec_width()), out.spec_idxs()),
                forall|j: int| 0 <= j < N ==> #[trigger] c.words()[j].value() == vs[j],
                is_word_width(W::spec_width()),
                self.state == start.state,
                self.outs == start.outs,
                self.outputs.vals(W::spec_width()) == start.outputs.vals(W::spec_width()) + vs.subrange(0, k as int),
                forall|v: nat| is_word_width(v) && v != W::spec_width() ==> #[trigger] self.outputs.vals(v) == start.outputs.vals(v),
                start.wf(),
            decreases N - k,
        {
            let ghost before = self.outputs;
            proof {
                W::lemma_with_vec(before, W::vec_in(before));
            }
            let v = self.outputs.as_vec_mut::<W>();
            v.push(ws[k]);
            proof {
                W::lemma_with_vec(before, *v);
                W::lemma_with_vec(self.outputs, W::vec_in(self.outputs));
                assert(self.outputs.vals(W::spec_width()) =~= before.vals(W::spec_width()).push(ws@[k as int].value()));
                assert(vs.subrange(0, k + 1) =~= vs.subrange(0, k as int).push(vs[k as int]));
            }
            k = k + 1;
        }
        self.outs = Ghost(self.outs@.push((W::spec_width(), vs)));
        proof {
            assert(entry_fits((W::spec_width(), vs))) by {
                assert forall|k: int| 0 <= k < vs.len() implies #[trigger] vs[k] < pow2(W::spec_width()) by {
                    c.words()[k].lemma_repr();
                }
            }
            assert forall|i: int| 0 <= i < self.outs@.len() implies #[trigger] entry_fits(self.outs@[i]) by {
                if i < start.outs@.len() {
                    assert(self.outs@[i] == start.outs@[i]);
                }
            }
            assert(vs.subrange(0, N as int) =~= vs);
            assert forall|v: nat| is_word_width(v) implies #[trigger] self.outputs.vals(v) == out_vals(self.outs@, v) by {
                assert(self.outs@.drop_last() =~= start.outs@);
                assert(start.outputs.vals(v) == out_vals(start.outs@, v));
            }
            lemma_slot_bits_vals_at(start.model().vals.get(W::spec_width()), W::spec_width(), out.spec_idxs());
            assert(self.model().outputs =~= start.model().outputs.push((W::spec_width(), word_bits(start.model(), out))));
        }
    }

    fn increase_refcount<W: Word, const N: usize>(&mut self, idx: WordIdx<W, N>) {
        self.state.increase_refcount(idx);
    }

    fn decrease_refcount<W: Word, const N: usize>(&mut self, idx: WordIdx<W, N>) {
        self.state.decrease_refcount(idx);
    }

    fn not<W: Word, const N: usize>(&mut self, in_: WordIdx<W, N>, out: WordIdx<W, N>) {
        let a = self.get(in_);
        self.put(out, a.not());
    }

    fn bitxor<W: Word, const N: usize>(&mut self, inl: WordIdx<W, N>, inr: WordIdx<W, N>, out: WordIdx<W, N>) {
        let a = self.get(inl);
        let b = self.get(inr);
        self.put(out, a.bitxor(b));
    }

    fn bitand<W: Word, const N: usize>(&mut self, inl: WordIdx<W, N>, inr: WordIdx<W, N>, out: WordIdx<W, N>) {
        let a = self.get(inl);
        let b = self.get(inr);
        self.put(out, a.bitand(b));
    }

    fn bitxor_const<W: Word, const N: usize>(&mut self, inl: WordIdx<W, N>, inr: CompositeWord<W, N>, out: WordIdx<W, N>) {
        let a = self.get(inl);
        self.put(out, a.bitxor(inr));
    }

    fn bitand_const<W: Word, const N: usize>(&mut self, inl: WordIdx<W, N>, inr: CompositeWord<W, N>, out: WordIdx<W, N>) {
        let a = self.get(inl);
        self.put(out, a.bitand(inr));
    }

    fn unbounded_shl<W: Word, const N: usize>(&mut self, in_: WordIdx<W, N>, shift: usize, out: WordIdx<W, N>) {
        let a = self.get(in_);
        proof {
            lemma_shape_ok::<W, N>();
        }
        self.put(out, a.unbounded_shl(shift));
    }

    fn unbounded_shr<W: Word, const N: usize>(&mut self, in_: WordIdx<W, N>, shift: usize, out: WordIdx<W, N>) {
        let a = self.get(in_);
        proof {
            lemma_shape_ok::<W, N>();
        }
        self.put(out, a.unbounded_shr(shift));
    }

    fn rotate_left<W: Word, const N: usize>(&mut self, in_: WordIdx<W, N>, shift: usize, out: WordIdx<W, N>) {
        let a = self.get(in_);
        proof {
            lemma_shape_ok::<W, N>();
        }
        self.put(out, a.rotate_left(shift));
    }

    fn rotate_right<W: Word, const N: usize>(&mut self, in_: WordIdx<W, N>, shift: usize, out: WordIdx<W, N>) {
        let a = self.get(in_);
        proof {
            lemma_shape_ok::<W, N>();
        }
        self.put(out, a.rotate_right(shift));
    }

    fn reverse_bits<W: Word, const N: usize>(&mut self, in_: WordIdx<W, N>, out: WordIdx<W, N>) {
        let a = self.get(in_);
        self.put(out, a.reverse_bits());
    }

    fn swap_bytes<W: Word, const N: usize>(&mut self, in_: WordIdx<W, N>, out: WordIdx<W, N>) {
        let a = self.get(in_);
        self.put(out, a.swap_bytes());
    }

    fn cast<W: Word, T: Word, const N: usize>(&mut self, in_: WordIdx<W, N>, out: WordIdx<T, N>) {
        self.cast_word(in_, out);
    }

    fn carry<W: Word, const N: usize>(&mut self, p: WordIdx<W, N>, g: WordIdx<W, N>, carry_in: bool, out: WordIdx<W, N>) {
        let a = self.get(p);
        let b = self.get(g);
        let (c, _) = a.carry(b, carry_in);
        self.put(out, c);
    }
}

} // verus!
