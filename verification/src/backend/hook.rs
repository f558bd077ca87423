//! Hooks observing the operations of a backend.
use crate::backend::backend::{Backend, SlotModel};
use crate::word::composite::CompositeWord;
use crate::word::word::Word;
use crate::word::word_idx::WordIdx;
use vstd::prelude::*;

verus! {

/// Constructor arguments, handed to a constructor once per iteration: each can be duplicated.
pub trait Reusable: Sized {
    /// A duplicate of this argument.
    fn duplicate(&self) -> (r: Self)
        ensures
            r == *self,
    ;
}

impl Reusable for () {
    fn duplicate(&self) -> (r: Self) {
    }
}

impl<A: Reusable, B: Reusable> Reusable for (A, B) {
    fn duplicate(&self) -> (r: Self) {
        (self.0.duplicate(), self.1.duplicate())
    }
}

/// Hooks called before and after each operation of a backend; by default they do nothing.
pub trait BackendHook: Sized {
    /// Argument of the constructor.
    type InitArg: Reusable;

    /// Creates a hook.
    fn new(arg: Self::InitArg) -> Self;

    /// Called before each `input` operation.
    fn pre_input(&mut self) {
    }

    /// Called after each `input` operation.
    fn post_input(&mut self) {
    }

    /// Called before each `alloc` operation.
    fn pre_alloc(&mut self) {
    }

    /// Called after each `alloc` operation.
    fn post_alloc(&mut self) {
    }

    /// Called before each `constant` operation.
    fn pre_constant(&mut self) {
    }

    /// Called after each `constant` operation.
    fn post_constant(&mut self) {
    }

    /// Called before each `from_le_words` operation.
    fn pre_from_le_words(&mut self) {
    }

    /// Called after each `from_le_words` operation.
    fn post_from_le_words(&mut self) {
    }

    /// Called before each `to_le_words` operation.
    fn pre_to_le_words(&mut self) {
    }

    /// Called after each `to_le_words` operation.
    fn post_to_le_words(&mut self) {
    }

    /// Called before each `output` operation.
    fn pre_output(&mut self) {
    }

    /// Called after each `output` operation.
    fn post_output(&mut self) {
    }

    /// Called before each `increase_refcount` operation.
    fn pre_increase_refcount(&mut self) {
    }

    /// Called after each `increase_refcount` operation.
    fn post_increase_refcount(&mut self) {
    }

    /// Called before each `decrease_refcount` operation.
    fn pre_decrease_refcount(&mut self) {
    }

    /// Called after each `decrease_refcount` operation.
    fn post_decrease_refcount(&mut self) {
    }

    /// Called before each `not` operation.
    fn pre_not(&mut self) {
    }

    /// Called after each `not` operation.
    fn post_not(&mut self) {
    }

    /// Called before each `bitxor` operation.
    fn pre_bitxor(&mut self) {
    }

    /// Called after each `bitxor` operation.
    fn post_bitxor(&mut self) {
    }

    /// Called before each `bitand` operation.
    fn pre_bitand(&mut self) {
    }

    /// Called after each `bitand` operation.
    fn post_bitand(&mut self) {
    }

    /// Called before each `bitxor_const` operation.
    fn pre_bitxor_const(&mut self) {
    }

    /// Called after each `bitxor_const` operation.
    fn post_bitxor_const(&mut self) {
    }

    /// Called before each `bitand_const` operation.
    fn pre_bitand_const(&mut self) {
    }

    /// Called after each `bitand_const` operation.
    fn post_bitand_const(&mut self) {
    }

    /// Called before each `unbounded_shl` operation.
    fn pre_unbounded_shl(&mut self) {
    }

    /// Called after each `unbounded_shl` operation.
    fn post_unbounded_shl(&mut self) {
    }

    /// Called before each `unbounded_shr` operation.
    fn pre_unbounded_shr(&mut self) {
    }

    /// Called after each `unbounded_shr` operation.
    fn post_unbounded_shr(&mut self) {
    }

    /// Called before each `rotate_left` operation.
    fn pre_rotate_left(&mut self) {
    }

    /// Called after each `rotate_left` operation.
    fn post_rotate_left(&mut self) {
    }

    /// Called before each `rotate_right` operation.
    fn pre_rotate_right(&mut self) {
    }

    /// Called after each `rotate_right` operation.
    fn post_rotate_right(&mut self) {
    }

    /// Called before each `reverse_bits` operation.
    fn pre_reverse_bits(&mut self) {
    }

    /// Called after each `reverse_bits` operation.
    fn post_reverse_bits(&mut self) {
    }

    /// Called before each `swap_bytes` operation.
    fn pre_swap_bytes(&mut self) {
    }

    /// Called after each `swap_bytes` operation.
    fn post_swap_bytes(&mut self) {
    }

    /// Called before each `cast` operation.
    fn pre_cast(&mut self) {
    }

    /// Called after each `cast` operation.
    fn post_cast(&mut self) {
    }

    /// Called before each `carry` operation.
    fn pre_carry(&mut self) {
    }

    /// Called after each `carry` operation.
    fn post_carry(&mut self) {
    }
}

/// The hook that does nothing.
pub struct NoHook;

impl BackendHook for NoHook {
    type InitArg = ();

    fn new(arg: ()) -> (r: Self) {
        NoHook
    }
}

/// A backend whose operations call a hook before and after being performed by the inner backend.
pub struct Hooked<H: BackendHook, B: Backend> {
    hook: H,
    inner: B,
}

impl<H: BackendHook, B: Backend> Hooked<H, B> {
    /// The inner backend.
    pub closed spec fn spec_inner(self) -> B {
        self.inner
    }

    /// Wraps the inner backend with the hook.
    pub fn new(hook: H, inner: B) -> (r: Self)
        ensures
            r.spec_inner() == inner,
    {
        Hooked { hook, inner }
    }

    /// The inner backend.
    pub fn inner(&self) -> (r: &B)
        ensures
            *r == self.spec_inner(),
    {
        &self.inner
    }

    /// The inner backend, for a mutation.
    pub fn inner_mut(&mut self) -> (r: &mut B)
        ensures
            *r == old(self).spec_inner(),
            final(self).spec_inner() == *final(r),
    {
        &mut self.inner
    }

    /// Unwraps the inner backend.
    pub fn into_inner(self) -> (r: B)
        ensures
            r == self.spec_inner(),
    {
        self.inner
    }
}

impl<H: BackendHook, B: Backend> Backend for Hooked<H, B> {
    type FinalizeArg = B::FinalizeArg;

    type FinalizeResult = B::FinalizeResult;

    type Key = B::Key;

    open spec fn key(&self) -> B::Key {
        self.spec_inner().key()
    }

    /// The inner backend went a quiet step.
    open spec fn quiet(&self, after: Self) -> bool {
        self.spec_inner().quiet(after.spec_inner())
    }

    proof fn lemma_quiet_trans(&self, b: Self, c: Self) {
        self.spec_inner().lemma_quiet_trans(b.spec_inner(), c.spec_inner());
    }

    /// The inner backend holds the constant.
    open spec fn holds_constant(&self, w: nat, word: Seq<nat>, idxs: Seq<usize>) -> bool {
        self.spec_inner().holds_constant(w, word, idxs)
    }

    /// The inner backend took the input.
    open spec fn inputs(&self, after: Self, w: nat, word: Seq<nat>, idxs: Seq<usize>) -> bool {
        self.spec_inner().inputs(after.spec_inner(), w, word, idxs)
    }

    open spec fn wf(&self) -> bool {
        self.spec_inner().wf()
    }

    open spec fn model(&self) -> SlotModel {
        self.spec_inner().model()
    }

    open spec fn tracks_values() -> bool {
        B::tracks_values()
    }

    open spec fn max_ref() -> nat {
        B::max_ref()
    }

    proof fn lemma_model(&self) {
        self.inner.lemma_model();
    }

    /// The result is that of finalizing the inner backend.
    open spec fn finalized(&self, arg: B::FinalizeArg, r: B::FinalizeResult) -> bool {
        self.spec_inner().finalized(arg, r)
    }

    fn finalize(self, arg: B::FinalizeArg) -> (r: B::FinalizeResult) {
        self.inner.finalize(arg)
    }

    fn input<W: Word, const N: usize>(&mut self, word: CompositeWord<W, N>) -> (r: WordIdx<W, N>) {
        self.hook.pre_input();
        let r = self.inner.input(word);
        self.hook.post_input();
        r
    }

    fn allocate<W: Word, const N: usize>(&mut self) -> (r: WordIdx<W, N>) {
        self.hook.pre_alloc();
        let r = self.inner.allocate::<W, N>();
        self.hook.post_alloc();
        r
    }

    fn constant<W: Word, const N: usize>(&mut self, word: CompositeWord<W, N>, out: WordIdx<W, N>) {
        self.hook.pre_constant();
        self.inner.constant(word, out);
        self.hook.post_constant();
    }

    fn from_le_words<W: Word, const N: usize>(&mut self, ins: WordIdx<W, N>, out: WordIdx<W, N>) {
        self.hook.pre_from_le_words();
        self.inner.from_le_words(ins, out);
        self.hook.post_from_le_words();
    }

    fn to_le_words<W: Word, const N: usize>(&mut self, in_: WordIdx<W, N>, outs: WordIdx<W, N>) {
        self.hook.pre_to_le_words();
        self.inner.to_le_words(in_, outs);
        self.hook.post_to_le_words();
    }

    fn output<W: Word, const N: usize>(&mut self, out: WordIdx<W, N>) {
        self.hook.pre_output();
        self.inner.output(out);
        self.hook.post_output();
    }

    fn increase_refcount<W: Word, const N: usize>(&mut self, idx: WordIdx<W, N>) {
        self.hook.pre_increase_refcount();
        self.inner.increase_refcount(idx);
        self.hook.post_increase_refcount();
    }

    fn decrease_refcount<W: Word, const N: usize>(&mut self, idx: WordIdx<W, N>) {
        self.hook.pre_decrease_refcount();
        self.inner.decrease_refcount(idx);
        self.hook.post_decrease_refcount();
    }

    fn not<W: Word, const N: usize>(&mut self, in_: WordIdx<W, N>, out: WordIdx<W, N>) {
        self.hook.pre_not();
        self.inner.not(in_, out);
        self.hook.post_not();
    }

    fn bitxor<W: Word, const N: usize>(&mut self, inl: WordIdx<W, N>, inr: WordIdx<W, N>, out: WordIdx<W, N>) {
        self.hook.pre_bitxor();
        self.inner.bitxor(inl, inr, out);
        self.hook.post_bitxor();
    }

    fn bitand<W: Word, const N: usize>(&mut self, inl: WordIdx<W, N>, inr: WordIdx<W, N>, out: WordIdx<W, N>) {
        self.hook.pre_bitand();
        self.inner.bitand(inl, inr, out);
        self.hook.post_bitand();
    }

    fn bitxor_const<W: Word, const N: usize>(&mut self, inl: WordIdx<W, N>, inr: CompositeWord<W, N>, out: WordIdx<W, N>) {
        self.hook.pre_bitxor_const();
        self.inner.bitxor_const(inl, inr, out);
        self.hook.post_bitxor_const();
    }

    fn bitand_const<W: Word, const N: usize>(&mut self, inl: WordIdx<W, N>, inr: CompositeWord<W, N>, out: WordIdx<W, N>) {
        self.hook.pre_bitand_const();
        self.inner.bitand_const(inl, inr, out);
        self.hook.post_bitand_const();
    }

    fn unbounded_shl<W: Word, const N: usize>(&mut self, in_: WordIdx<W, N>, shift: usize, out: WordIdx<W, N>) {
        self.hook.pre_unbounded_shl();
        self.inner.unbounded_shl(in_, shift, out);
        self.hook.post_unbounded_shl();
    }

    fn unbounded_shr<W: Word, const N: usize>(&mut self, in_: WordIdx<W, N>, shift: usize, out: WordIdx<W, N>) {
        self.hook.pre_unbounded_shr();
        self.inner.unbounded_shr(in_, shift, out);
        self.hook.post_unbounded_shr();
    }

    fn rotate_left<W: Word, const N: usize>(&mut self, in_: WordIdx<W, N>, shift: usize, out: WordIdx<W, N>) {
        self.hook.pre_rotate_left();
        self.inner.rotate_left(in_, shift, out);
        self.hook.post_rotate_left();
    }

    fn rotate_right<W: Word, const N: usize>(&mut self, in_: WordIdx<W, N>, shift: usize, out: WordIdx<W, N>) {
        self.hook.pre_rotate_right();
        self.inner.rotate_right(in_, shift, out);
        self.hook.post_rotate_right();
    }

    fn reverse_bits<W: Word, const N: usize>(&mut self, in_: WordIdx<W, N>, out: WordIdx<W, N>) {
        self.hook.pre_reverse_bits();
        self.inner.reverse_bits(in_, out);
        self.hook.post_reverse_bits();
    }

    fn swap_bytes<W: Word, const N: usize>(&mut self, in_: WordIdx<W, N>, out: WordIdx<W, N>) {
        self.hook.pre_swap_bytes();
        self.inner.swap_bytes(in_, out);
        self.hook.post_swap_bytes();
    }

    fn cast<W: Word, T: Word, const N: usize>(&mut self, in_: WordIdx<W, N>, out: WordIdx<T, N>) {
        self.hook.pre_cast();
        self.inner.cast(in_, out);
        self.hook.post_cast();
    }

    fn carry<W: Word, const N: usize>(&mut self, p: WordIdx<W, N>, g: WordIdx<W, N>, carry_in: bool, out: WordIdx<W, N>) {
        self.hook.pre_carry();
        self.inner.carry(p, g, carry_in, out);
        self.hook.post_carry();
    }
}

} // verus!
