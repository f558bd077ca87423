//! Backends executing circuit operations on words held in reference-counted slots.
use crate::word::bitseq::{bits_val, carries, seq_and, seq_not, seq_rotl, seq_rotr, seq_shl, seq_shr, seq_swap_bytes, seq_xor};
use crate::word::by_word_type::{is_word_width, ByWordType};
use crate::word::collectors::word_vals;
use crate::word::composite::CompositeWord;
use crate::word::slots::{idx_in_range, slot_bits};
use crate::word::word::Word;
use crate::word::word_idx::WordIdx;
use vstd::arithmetic::power2::pow2;
use vstd::prelude::*;

verus! {

/// The observable state of a backend: for each word type, the reference counts, allocation
/// flags and plain values of its slots, and the bits of the output words in order.
pub struct SlotModel {
    /// Reference counts, per word type.
    pub refs: ByWordType<Seq<nat>>,
    /// Allocation flags, per word type.
    pub allocated: ByWordType<Seq<bool>>,
    /// Plain values, per word type.
    pub vals: ByWordType<Seq<nat>>,
    /// The output words, in order: the width of each word's type and the bits of the word.
    pub outputs: Seq<(nat, Seq<bool>)>,
}

/// The value of every slot fits in the width of its word type.
pub open spec fn vals_fit(m: SlotModel) -> bool {
    forall|v: nat, i: int| is_word_width(v) && 0 <= i < m.vals.get(v).len() ==> #[trigger] m.vals.get(v)[i] < pow2(v)
}

/// No slot of any word type is referenced: every word reference was consumed or released.
pub open spec fn unreferenced(m: SlotModel) -> bool {
    forall|v: nat, i: int| is_word_width(v) && 0 <= i < m.refs.get(v).len() ==> #[trigger] m.refs.get(v)[i] == 0
}

/// Whether slot `i` of the words of width `v` is one of the slots of the index.
pub open spec fn uses<W: Word, const N: usize>(idx: WordIdx<W, N>, v: nat, i: int) -> bool {
    v == W::spec_width() && idx.spec_idxs().contains(i as usize)
}

/// The slots of the index are distinct slots of the backend.
pub open spec fn valid_idx<W: Word, const N: usize>(b: SlotModel, idx: WordIdx<W, N>) -> bool {
    idx_in_range(idx.spec_idxs(), b.refs.get(W::spec_width()).len())
}

/// The slots of the index are distinct slots of the backend, referenced at least once.
pub open spec fn live_idx<W: Word, const N: usize>(b: SlotModel, idx: WordIdx<W, N>) -> bool {
    &&& valid_idx(b, idx)
    &&& forall|k: int| 0 <= k < N ==> #[trigger] b.refs.get(W::spec_width())[idx.spec_idxs()[k] as int] >= 1
}

/// The bits of the word at the given index, as tracked by the backend.
pub open spec fn word_bits<W: Word, const N: usize>(b: SlotModel, idx: WordIdx<W, N>) -> Seq<bool> {
    slot_bits(b.vals.get(W::spec_width()), W::spec_width(), idx.spec_idxs())
}

/// The value of the word at the given index, as tracked by the backend.
pub open spec fn word_val<W: Word, const N: usize>(b: SlotModel, idx: WordIdx<W, N>) -> nat {
    bits_val(word_bits(b, idx))
}

/// The bits of a composite word number its width.
pub proof fn lemma_word_bits_len<W: Word, const N: usize>(b: SlotModel, idx: WordIdx<W, N>)
    ensures
        word_bits(b, idx).len() == CompositeWord::<W, N>::spec_cwidth(),
{
    idx.lemma_len();
    vstd::arithmetic::mul::lemma_mul_is_commutative(N as int, W::spec_width() as int);
}

/// Composite words of `N` words of type `W` that operations can work on.
pub open spec fn shape_ok<W: Word, const N: usize>() -> bool {
    &&& N > 0
    &&& 2 * W::spec_width() * N <= usize::MAX
}

/// Consequences of [shape_ok].
pub proof fn lemma_shape_ok<W: Word, const N: usize>()
    requires
        shape_ok::<W, N>(),
    ensures
        W::spec_width() * N <= usize::MAX,
        CompositeWord::<W, N>::spec_cwidth() == W::spec_width() * N,
        W::spec_width() * N > 0,
{
    W::lemma_width();
    assert(W::spec_width() * N <= 2 * W::spec_width() * N) by (nonlinear_arith);
    assert(W::spec_width() * N > 0) by (nonlinear_arith)
        requires
            W::spec_width() > 0,
            N > 0,
    ;
}

/// The backend went from `a` to `b` writing only the slots of `out`: reference counts,
/// allocation flags and outputs are unchanged, and so are the values of the other slots.
pub open spec fn writes_only<W: Word, const N: usize>(a: SlotModel, b: SlotModel, out: WordIdx<W, N>) -> bool {
    &&& b.outputs == a.outputs
    &&& forall|v: nat|
        #![trigger b.vals.get(v)]
        #![trigger b.refs.get(v)]
        #![trigger b.allocated.get(v)]
        is_word_width(v) ==> {
            &&& b.refs.get(v) == a.refs.get(v)
            &&& b.allocated.get(v) == a.allocated.get(v)
            &&& b.vals.get(v).len() == a.vals.get(v).len()
        }
    &&& forall|v: nat, i: int| is_word_width(v) && 0 <= i < a.vals.get(v).len() && !uses(out, v, i)
        ==> #[trigger] b.vals.get(v)[i] == a.vals.get(v)[i]
}

/// The backend went from `a` to `b` allocating the slots of `r`: they were free, and are now
/// allocated with reference count one; other slots keep their counts and values, other new
/// slots beyond the old ones have count zero, and at most `N` allocation flags were added.
pub open spec fn allocates<W: Word, const N: usize>(a: SlotModel, b: SlotModel, r: WordIdx<W, N>) -> bool {
    let w = W::spec_width();
    &&& valid_idx(b, r)
    &&& forall|k: int| 0 <= k < N ==> {
        let i = #[trigger] r.spec_idxs()[k] as int;
        &&& b.allocated.get(w)[i]
        &&& b.refs.get(w)[i] == 1
        &&& (i < a.refs.get(w).len() ==> a.refs.get(w)[i] == 0)
    }
    &&& b.outputs == a.outputs
    &&& a.refs.get(w).len() <= b.refs.get(w).len()
    &&& a.vals.get(w).len() <= b.vals.get(w).len()
    &&& b.allocated.get(w).len() <= a.allocated.get(w).len() + N
    &&& forall|i: int| 0 <= i < a.refs.get(w).len() && !uses(r, w, i) ==> #[trigger] b.refs.get(w)[i] == a.refs.get(w)[i]
    &&& forall|i: int| a.refs.get(w).len() <= i < b.refs.get(w).len() && !uses(r, w, i) ==> #[trigger] b.refs.get(w)[i] == 0
    &&& forall|v: nat|
        #![trigger b.vals.get(v)]
        #![trigger b.refs.get(v)]
        #![trigger b.allocated.get(v)]
        is_word_width(v) && v != w ==> {
            &&& b.refs.get(v) == a.refs.get(v)
            &&& b.allocated.get(v) == a.allocated.get(v)
            &&& b.vals.get(v).len() == a.vals.get(v).len()
        }
    &&& forall|v: nat, i: int| is_word_width(v) && 0 <= i < a.vals.get(v).len() && !uses(r, v, i)
        ==> #[trigger] b.vals.get(v)[i] == a.vals.get(v)[i]
}

/// The backend went from `a` to `b` changing the reference counts of the slots of `idx` by
/// `d`, and nothing else but the allocation flags of slots whose count fell to zero.
pub open spec fn recounts<W: Word, const N: usize>(a: SlotModel, b: SlotModel, idx: WordIdx<W, N>, d: int) -> bool {
    let w = W::spec_width();
    &&& b.outputs == a.outputs
    &&& b.refs.get(w).len() == a.refs.get(w).len()
    &&& b.allocated.get(w).len() == a.allocated.get(w).len()
    &&& forall|i: int| 0 <= i < a.refs.get(w).len() ==> #[trigger] b.refs.get(w)[i] == a.refs.get(w)[i] + if uses(idx, w, i) { d } else { 0 }
    &&& forall|i: int| 0 <= i < a.allocated.get(w).len() ==> #[trigger] b.allocated.get(w)[i] == (a.allocated.get(w)[i] && !(
        d < 0 && uses(idx, w, i) && i < a.refs.get(w).len() && a.refs.get(w)[i] == 1))
    &&& forall|v: nat|
        #![trigger b.vals.get(v)]
        #![trigger b.refs.get(v)]
        #![trigger b.allocated.get(v)]
        is_word_width(v) ==> {
            &&& b.vals.get(v) == a.vals.get(v)
            &&& v != w ==> b.refs.get(v) == a.refs.get(v) && b.allocated.get(v) == a.allocated.get(v)
        }
}

/// Writing the slots of a fresh allocation keeps it an allocation.
pub proof fn lemma_allocates_writes<W: Word, const N: usize>(a: SlotModel, m: SlotModel, b: SlotModel, r: WordIdx<W, N>)
    requires
        allocates(a, m, r),
        writes_only(m, b, r),
    ensures
        allocates(a, b, r),
{
    W::lemma_width();
    assert(b.refs.get(W::spec_width()) == m.refs.get(W::spec_width()));
    assert(b.allocated.get(W::spec_width()) == m.allocated.get(W::spec_width()));
    assert forall|v: nat, i: int| is_word_width(v) && 0 <= i < a.vals.get(v).len() && !uses(r, v, i)
        implies #[trigger] b.vals.get(v)[i] == a.vals.get(v)[i] by {
        assert(b.refs.get(v) == m.refs.get(v));
        assert(i < m.vals.get(v).len());
        assert(b.vals.get(v)[i] == m.vals.get(v)[i]);
    }
}

/// The facts that every well-formed backend keeps.
pub open spec fn model_ok(b: SlotModel) -> bool {
    forall|v: nat|
        #![trigger b.refs.get(v)]
        #![trigger b.vals.get(v)]
        #![trigger b.allocated.get(v)]
        is_word_width(v) ==> {
        &&& b.vals.get(v).len() == b.refs.get(v).len()
        &&& b.refs.get(v).len() <= b.allocated.get(v).len()
        &&& b.allocated.get(v).len() <= usize::MAX
        &&& forall|i: int| 0 <= i < b.refs.get(v).len() && b.refs.get(v)[i] > 0 ==> #[trigger] b.allocated.get(v)[i]
    }
}

/// Backends executing circuit operations on words held in reference-counted slots, one array of
/// slots per word type; a composite word occupies one slot per word.
///
/// A backend that tracks values holds, for each slot, the plain value that the circuit computes
/// there, and each operation computes its result from the plain values of its inputs.
pub trait Backend: Sized {
    /// Data passed to the finalizer.
    type FinalizeArg;

    /// Result of the finalization.
    type FinalizeResult;

    /// What the backend was set up with (its seeds, the response it replays), which no
    /// operation changes.
    type Key;

    /// Well-formedness.
    spec fn wf(&self) -> bool;

    /// The observable state of the backend.
    spec fn model(&self) -> SlotModel;

    /// Whether the backend tracks plain values.
    spec fn tracks_values() -> bool;

    /// What the backend was set up with.
    spec fn key(&self) -> Self::Key;

    /// The largest reference count of a slot.
    spec fn max_ref() -> nat;

    /// Going from this state to `after` used none of the backend's own resources beyond its
    /// slots: for a view builder, no random word was drawn, nothing was absorbed by the hashers
    /// of the views and nothing was given to the collector.
    spec fn quiet(&self, after: Self) -> bool;

    /// Going from this state to `after`, an input word of width `w` with the given word values
    /// was placed in the slots `idxs`, with what the backend does besides: for a view builder,
    /// the shares drawn from the generators of parties 0 and 1 and the share of party 2 given
    /// to the collector.
    spec fn inputs(&self, after: Self, w: nat, word: Seq<nat>, idxs: Seq<usize>) -> bool;

    /// The slots `idxs` hold the constant word of width `w` with the given word values, in
    /// every share the backend keeps.
    spec fn holds_constant(&self, w: nat, word: Seq<nat>, idxs: Seq<usize>) -> bool;

    /// Quiet steps compose.
    proof fn lemma_quiet_trans(&self, b: Self, c: Self)
        requires
            self.quiet(b),
            b.quiet(c),
        ensures
            self.quiet(c),
    ;

    /// A well-formed backend satisfies [model_ok].
    proof fn lemma_model(&self)
        requires
            self.wf(),
        ensures
            Self::max_ref() >= 255,
            model_ok(self.model()),
            vals_fit(self.model()),
    ;

    /// Whether `r` is the result of finalizing this backend with the given argument.
    spec fn finalized(&self, arg: Self::FinalizeArg, r: Self::FinalizeResult) -> bool;

    /// Finalizes the backend, returning its result.
    fn finalize(self, arg: Self::FinalizeArg) -> (r: Self::FinalizeResult)
        requires
            self.wf(),
        ensures
            self.finalized(arg, r),
    ;

    /// Allocates an input word of the given value.
    fn input<W: Word, const N: usize>(&mut self, word: CompositeWord<W, N>) -> (r: WordIdx<W, N>)
        requires
            old(self).wf(),
            shape_ok::<W, N>(),
            old(self).model().allocated.get(W::spec_width()).len() + N < usize::MAX,
        ensures
            final(self).wf(),
            final(self).key() == old(self).key(),
            allocates(old(self).model(), final(self).model(), r),
            Self::tracks_values() ==> word_bits(final(self).model(), r) == word.cbits(),
            old(self).inputs(*final(self), W::spec_width(), word_vals(word), r.spec_idxs()),
    ;

    /// Allocates a word whose value is left as it is.
    fn allocate<W: Word, const N: usize>(&mut self) -> (r: WordIdx<W, N>)
        requires
            old(self).wf(),
            shape_ok::<W, N>(),
            old(self).model().allocated.get(W::spec_width()).len() + N < usize::MAX,
        ensures
            final(self).wf(),
            final(self).key() == old(self).key(),
            allocates(old(self).model(), final(self).model(), r),
            old(self).quiet(*final(self)),
    ;

    /// Writes a constant word at the given index.
    fn constant<W: Word, const N: usize>(&mut self, word: CompositeWord<W, N>, out: WordIdx<W, N>)
        requires
            old(self).wf(),
            shape_ok::<W, N>(),
            valid_idx(old(self).model(), out),
        ensures
            final(self).wf(),
            final(self).key() == old(self).key(),
            old(self).quiet(*final(self)),
            final(self).holds_constant(W::spec_width(), word_vals(word), out.spec_idxs()),
            writes_only(old(self).model(), final(self).model(), out),
            Self::tracks_values() ==> word_bits(final(self).model(), out) == word.cbits(),
    ;

    /// Allocates a constant word.
    fn alloc_constant<W: Word, const N: usize>(&mut self, word: CompositeWord<W, N>) -> (r: WordIdx<W, N>)
        requires
            old(self).wf(),
            shape_ok::<W, N>(),
            old(self).model().allocated.get(W::spec_width()).len() + N < usize::MAX,
        ensures
            final(self).wf(),
            final(self).key() == old(self).key(),
            allocates(old(self).model(), final(self).model(), r),
            Self::tracks_values() ==> word_bits(final(self).model(), r) == word.cbits(),
            old(self).quiet(*final(self)),
            final(self).holds_constant(W::spec_width(), word_vals(word), r.spec_idxs()),
    {
        let ghost start = *self;
        let idx = self.allocate::<W, N>();
        let ghost mid = *self;
        self.constant(word, idx);
        proof {
            start.lemma_quiet_trans(mid, *self);
            W::lemma_width();
            lemma_allocates_writes(start.model(), mid.model(), self.model(), idx);
        }
        idx
    }

    /// Packs words into a composite word, least significant first: word `k` of the result is
    /// the word in slot `ins[k]`, the slots of the input words being given as one index.
    fn from_le_words<W: Word, const N: usize>(&mut self, ins: WordIdx<W, N>, out: WordIdx<W, N>)
        requires
            old(self).wf(),
            shape_ok::<W, N>(),
            forall|k: int| 0 <= k < N ==> #[trigger] ins.spec_idxs()[k] < old(self).model().refs.get(W::spec_width()).len(),
            valid_idx(old(self).model(), out),
        ensures
            final(self).wf(),
            final(self).key() == old(self).key(),
            writes_only(old(self).model(), final(self).model(), out),
            Self::tracks_values() ==> forall|k: int| 0 <= k < N ==> #[trigger] final(self).model().vals.get(W::spec_width())[out.spec_idxs()[k] as int]
                == old(self).model().vals.get(W::spec_width())[ins.spec_idxs()[k] as int],
    ;

    /// Unpacks a composite word into its words, least significant first: the slot `outs[k]`
    /// receives word `k`, the slots of the output words being given as one index.
    fn to_le_words<W: Word, const N: usize>(&mut self, in_: WordIdx<W, N>, outs: WordIdx<W, N>)
        requires
            old(self).wf(),
            shape_ok::<W, N>(),
            valid_idx(old(self).model(), in_),
            valid_idx(old(self).model(), outs),
        ensures
            final(self).wf(),
            final(self).key() == old(self).key(),
            writes_only(old(self).model(), final(self).model(), outs),
            Self::tracks_values() ==> forall|k: int| 0 <= k < N ==> #[trigger] final(self).model().vals.get(W::spec_width())[outs.spec_idxs()[k] as int]
                == old(self).model().vals.get(W::spec_width())[in_.spec_idxs()[k] as int],
    ;

    /// Pushes the word at the given index onto the outputs.
    fn output<W: Word, const N: usize>(&mut self, out: WordIdx<W, N>)
        requires
            old(self).wf(),
            shape_ok::<W, N>(),
            valid_idx(old(self).model(), out),
        ensures
            final(self).wf(),
            final(self).key() == old(self).key(),
            forall|v: nat| is_word_width(v) ==> {
                &&& #[trigger] final(self).model().refs.get(v) == old(self).model().refs.get(v)
                &&& final(self).model().allocated.get(v) == old(self).model().allocated.get(v)
                &&& final(self).model().vals.get(v) == old(self).model().vals.get(v)
            },
            Self::tracks_values() ==> final(self).model().outputs == old(self).model().outputs.push((W::spec_width(), word_bits(old(self).model(), out))),
    ;

    /// Increments the reference counts of the slots of the index.
    fn increase_refcount<W: Word, const N: usize>(&mut self, idx: WordIdx<W, N>)
        requires
            old(self).wf(),
            valid_idx(old(self).model(), idx),
            forall|k: int| 0 <= k < N ==> {
                let i = #[trigger] idx.spec_idxs()[k] as int;
                &&& old(self).model().allocated.get(W::spec_width())[i]
                &&& old(self).model().refs.get(W::spec_width())[i] < Self::max_ref()
            },
        ensures
            final(self).wf(),
            final(self).key() == old(self).key(),
            recounts(old(self).model(), final(self).model(), idx, 1),
    ;

    /// Decrements the reference counts of the slots of the index, freeing those whose count
    /// falls to zero.
    fn decrease_refcount<W: Word, const N: usize>(&mut self, idx: WordIdx<W, N>)
        requires
            old(self).wf(),
            live_idx(old(self).model(), idx),
        ensures
            final(self).wf(),
            final(self).key() == old(self).key(),
            recounts(old(self).model(), final(self).model(), idx, -1),
    ;

    /// Bitwise NOT.
    fn not<W: Word, const N: usize>(&mut self, in_: WordIdx<W, N>, out: WordIdx<W, N>)
        requires
            old(self).wf(),
            shape_ok::<W, N>(),
            valid_idx(old(self).model(), in_),
            valid_idx(old(self).model(), out),
        ensures
            final(self).wf(),
            final(self).key() == old(self).key(),
            writes_only(old(self).model(), final(self).model(), out),
            Self::tracks_values() ==> word_bits(final(self).model(), out) == seq_not(word_bits(old(self).model(), in_)),
    ;

    /// Bitwise XOR.
    fn bitxor<W: Word, const N: usize>(&mut self, inl: WordIdx<W, N>, inr: WordIdx<W, N>, out: WordIdx<W, N>)
        requires
            old(self).wf(),
            shape_ok::<W, N>(),
            valid_idx(old(self).model(), inl),
            valid_idx(old(self).model(), inr),
            valid_idx(old(self).model(), out),
        ensures
            final(self).wf(),
            final(self).key() == old(self).key(),
            writes_only(old(self).model(), final(self).model(), out),
            Self::tracks_values() ==> word_bits(final(self).model(), out) == seq_xor(word_bits(old(self).model(), inl), word_bits(old(self).model(), inr)),
    ;

    /// Bitwise AND.
    fn bitand<W: Word, const N: usize>(&mut self, inl: WordIdx<W, N>, inr: WordIdx<W, N>, out: WordIdx<W, N>)
        requires
            old(self).wf(),
            shape_ok::<W, N>(),
            valid_idx(old(self).model(), inl),
            valid_idx(old(self).model(), inr),
            valid_idx(old(self).model(), out),
        ensures
            final(self).wf(),
            final(self).key() == old(self).key(),
            writes_only(old(self).model(), final(self).model(), out),
            Self::tracks_values() ==> word_bits(final(self).model(), out) == seq_and(word_bits(old(self).model(), inl), word_bits(old(self).model(), inr)),
    ;

    /// Bitwise XOR with a constant.
    fn bitxor_const<W: Word, const N: usize>(&mut self, inl: WordIdx<W, N>, inr: CompositeWord<W, N>, out: WordIdx<W, N>)
        requires
            old(self).wf(),
            shape_ok::<W, N>(),
            valid_idx(old(self).model(), inl),
            valid_idx(old(self).model(), out),
        ensures
            final(self).wf(),
            final(self).key() == old(self).key(),
            writes_only(old(self).model(), final(self).model(), out),
            Self::tracks_values() ==> word_bits(final(self).model(), out) == seq_xor(word_bits(old(self).model(), inl), inr.cbits()),
    ;

    /// Bitwise AND with a constant.
    fn bitand_const<W: Word, const N: usize>(&mut self, inl: WordIdx<W, N>, inr: CompositeWord<W, N>, out: WordIdx<W, N>)
        requires
            old(self).wf(),
            shape_ok::<W, N>(),
            valid_idx(old(self).model(), inl),
            valid_idx(old(self).model(), out),
        ensures
            final(self).wf(),
            final(self).key() == old(self).key(),
            writes_only(old(self).model(), final(self).model(), out),
            Self::tracks_values() ==> word_bits(final(self).model(), out) == seq_and(word_bits(old(self).model(), inl), inr.cbits()),
    ;

    /// Left shift, shifting in zeros.
    fn unbounded_shl<W: Word, const N: usize>(&mut self, in_: WordIdx<W, N>, shift: usize, out: WordIdx<W, N>)
        requires
            old(self).wf(),
            shape_ok::<W, N>(),
            valid_idx(old(self).model(), in_),
            valid_idx(old(self).model(), out),
        ensures
            final(self).wf(),
            final(self).key() == old(self).key(),
            writes_only(old(self).model(), final(self).model(), out),
            Self::tracks_values() ==> word_bits(final(self).model(), out) == seq_shl(word_bits(old(self).model(), in_), shift as int),
    ;

    /// Right shift, shifting in zeros.
    fn unbounded_shr<W: Word, const N: usize>(&mut self, in_: WordIdx<W, N>, shift: usize, out: WordIdx<W, N>)
        requires
            old(self).wf(),
            shape_ok::<W, N>(),
            valid_idx(old(self).model(), in_),
            valid_idx(old(self).model(), out),
        ensures
            final(self).wf(),
            final(self).key() == old(self).key(),
            writes_only(old(self).model(), final(self).model(), out),
            Self::tracks_values() ==> word_bits(final(self).model(), out) == seq_shr(word_bits(old(self).model(), in_), shift as int),
    ;

    /// Left rotation.
    fn rotate_left<W: Word, const N: usize>(&mut self, in_: WordIdx<W, N>, shift: usize, out: WordIdx<W, N>)
        requires
            old(self).wf(),
            shape_ok::<W, N>(),
            valid_idx(old(self).model(), in_),
            valid_idx(old(self).model(), out),
        ensures
            final(self).wf(),
            final(self).key() == old(self).key(),
            writes_only(old(self).model(), final(self).model(), out),
            Self::tracks_values() ==> word_bits(final(self).model(), out) == seq_rotl(word_bits(old(self).model(), in_), shift as int),
    ;

    /// Right rotation.
    fn rotate_right<W: Word, const N: usize>(&mut self, in_: WordIdx<W, N>, shift: usize, out: WordIdx<W, N>)
        requires
            old(self).wf(),
            shape_ok::<W, N>(),
            valid_idx(old(self).model(), in_),
            valid_idx(old(self).model(), out),
        ensures
            final(self).wf(),
            final(self).key() == old(self).key(),
            writes_only(old(self).model(), final(self).model(), out),
            Self::tracks_values() ==> word_bits(final(self).model(), out) == seq_rotr(word_bits(old(self).model(), in_), shift as int),
    ;

    /// Bit reversal.
    fn reverse_bits<W: Word, const N: usize>(&mut self, in_: WordIdx<W, N>, out: WordIdx<W, N>)
        requires
            old(self).wf(),
            shape_ok::<W, N>(),
            valid_idx(old(self).model(), in_),
            valid_idx(old(self).model(), out),
        ensures
            final(self).wf(),
            final(self).key() == old(self).key(),
            writes_only(old(self).model(), final(self).model(), out),
            Self::tracks_values() ==> word_bits(final(self).model(), out) == word_bits(old(self).model(), in_).reverse(),
    ;

    /// Byte reversal: the bytes of the composite word in reverse order.
    fn swap_bytes<W: Word, const N: usize>(&mut self, in_: WordIdx<W, N>, out: WordIdx<W, N>)
        requires
            old(self).wf(),
            shape_ok::<W, N>(),
            valid_idx(old(self).model(), in_),
            valid_idx(old(self).model(), out),
        ensures
            final(self).wf(),
            final(self).key() == old(self).key(),
            writes_only(old(self).model(), final(self).model(), out),
            Self::tracks_values() ==> word_bits(final(self).model(), out) == seq_swap_bytes(word_bits(old(self).model(), in_)),
    ;

    /// Conversion to another word type, truncating or zero-extending.
    fn cast<W: Word, T: Word, const N: usize>(&mut self, in_: WordIdx<W, N>, out: WordIdx<T, N>)
        requires
            old(self).wf(),
            N == 1,
            valid_idx(old(self).model(), in_),
            valid_idx(old(self).model(), out),
        ensures
            final(self).wf(),
            final(self).key() == old(self).key(),
            writes_only(old(self).model(), final(self).model(), out),
            Self::tracks_values() ==> final(self).model().vals.get(T::spec_width())[out.spec_idxs()[0] as int]
                == old(self).model().vals.get(W::spec_width())[in_.spec_idxs()[0] as int] % pow2(T::spec_width()),
    ;

    /// The carries of the addition with propagate bits `p`, generate bits `g` and the given
    /// carry-in, without the carry-out.
    fn carry<W: Word, const N: usize>(&mut self, p: WordIdx<W, N>, g: WordIdx<W, N>, carry_in: bool, out: WordIdx<W, N>)
        requires
            old(self).wf(),
            shape_ok::<W, N>(),
            valid_idx(old(self).model(), p),
            valid_idx(old(self).model(), g),
            valid_idx(old(self).model(), out),
        ensures
            final(self).wf(),
            final(self).key() == old(self).key(),
            writes_only(old(self).model(), final(self).model(), out),
            Self::tracks_values() ==> word_bits(final(self).model(), out) == carries(
                word_bits(old(self).model(), p),
                word_bits(old(self).model(), g),
                carry_in,
                CompositeWord::<W, N>::spec_cwidth(),
            ),
    ;
}

} // verus!
