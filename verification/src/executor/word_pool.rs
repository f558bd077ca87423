//! Pools of allocated words: a word store with a memory manager.
use crate::backend::backend::{allocates, recounts, vals_fit, SlotModel};
use crate::memory::memory_manager::MemoryManager;
use crate::word::by_word_type::{is_word_width, ByWordType};
use crate::word::composite::CompositeWord;
use crate::word::slots::{idx_in_range, slot_bits};
use crate::word::word::Word;
use crate::word::word_idx::WordIdx;
use crate::word::words::Words;
use vstd::arithmetic::power2::pow2;
use vstd::prelude::*;

verus! {

/// The values of a slot model's slots for the word type of width `w` are those of the word
/// store, and its other slot values are those of `m`.
pub open spec fn store_vals(store: Words) -> ByWordType<Seq<nat>> {
    ByWordType { u8: store.vals(8), u16: store.vals(16), u32: store.vals(32), u64: store.vals(64), u128: store.vals(128) }
}

/// Stores of words of all word types.
pub trait WordSource: Sized {
    /// The words held.
    spec fn store(&self) -> Words;

    /// Creates an empty store.
    fn new_source() -> (r: Self)
        ensures
            forall|w: nat| is_word_width(w) ==> #[trigger] r.store().vals(w).len() == 0,
    ;

    /// The word of type `W` in slot `i`.
    fn read_word<W: Word>(&self, i: usize) -> (r: W)
        requires
            i < self.store().vals(W::spec_width()).len(),
        ensures
            r.value() == self.store().vals(W::spec_width())[i as int],
    ;

    /// The composite word at the given index.
    fn read<W: Word, const N: usize>(&self, idx: WordIdx<W, N>) -> (r: CompositeWord<W, N>)
        requires
            idx_in_range(idx.spec_idxs(), self.store().vals(W::spec_width()).len()),
        ensures
            forall|k: int| 0 <= k < N ==> #[trigger] r.words()[k].value() == self.store().vals(W::spec_width())[idx.spec_idxs()[k] as int],
            r.cbits() == slot_bits(self.store().vals(W::spec_width()), W::spec_width(), idx.spec_idxs()),
    ;

    /// Writes the composite word at the given index.
    fn write<W: Word, const N: usize>(&mut self, idx: WordIdx<W, N>, c: CompositeWord<W, N>)
        requires
            idx_in_range(idx.spec_idxs(), old(self).store().vals(W::spec_width()).len()),
        ensures
            final(self).store().vals(W::spec_width()).len() == old(self).store().vals(W::spec_width()).len(),
            forall|i: int| 0 <= i < old(self).store().vals(W::spec_width()).len() && !idx.spec_idxs().contains(i as usize)
                ==> #[trigger] final(self).store().vals(W::spec_width())[i] == old(self).store().vals(W::spec_width())[i],
            forall|k: int| 0 <= k < N ==> #[trigger] final(self).store().vals(W::spec_width())[idx.spec_idxs()[k] as int] == c.words()[k].value(),
            slot_bits(final(self).store().vals(W::spec_width()), W::spec_width(), idx.spec_idxs()) == c.cbits(),
            forall|w: nat| is_word_width(w) && w != W::spec_width() ==> #[trigger] final(self).store().vals(w) == old(self).store().vals(w),
    ;

    /// Extends the words of type `W` with zero words up to the given number of words.
    fn resize<W: Word>(&mut self, new_len: usize)
        requires
            old(self).store().vals(W::spec_width()).len() <= new_len,
        ensures
            final(self).store().vals(W::spec_width()).len() == new_len,
            forall|i: int| 0 <= i < old(self).store().vals(W::spec_width()).len() ==> #[trigger] final(self).store().vals(W::spec_width())[i] == old(self).store().vals(W::spec_width())[i],
            forall|w: nat| is_word_width(w) && w != W::spec_width() ==> #[trigger] final(self).store().vals(w) == old(self).store().vals(w),
    ;
}

/// Word source owning a word store.
pub struct WordSourceWrapper {
    words: Words,
}

impl WordSourceWrapper {
    /// Creates a word source holding the given words.
    pub fn new(words: Words) -> (r: Self)
        ensures
            r.store() == words,
    {
        WordSourceWrapper { words }
    }
}

impl WordSource for WordSourceWrapper {
    closed spec fn store(&self) -> Words {
        self.words
    }

    fn new_source() -> (r: Self) {
        WordSourceWrapper { words: Words::new() }
    }

    fn read_word<W: Word>(&self, i: usize) -> (r: W) {
        proof {
            W::lemma_with_vec(self.words, W::vec_in(self.words));
        }
        self.words.get_word::<W>(i)
    }

    fn read<W: Word, const N: usize>(&self, idx: WordIdx<W, N>) -> (r: CompositeWord<W, N>) {
        proof {
            W::lemma_with_vec(self.words, W::vec_in(self.words));
            idx.lemma_len();
        }
        self.words.read_composite(idx)
    }

    fn write<W: Word, const N: usize>(&mut self, idx: WordIdx<W, N>, c: CompositeWord<W, N>) {
        proof {
            W::lemma_with_vec(self.words, W::vec_in(self.words));
        }
        self.words.write_composite(idx, c);
    }

    fn resize<W: Word>(&mut self, new_len: usize) {
        proof {
            W::lemma_with_vec(self.words, W::vec_in(self.words));
        }
        self.words.grow_words::<W>(new_len);
    }
}

/// Pools of allocated words.
pub trait WordPool: Sized {
    /// Well-formedness.
    spec fn wf(&self) -> bool;

    /// The reference counts, allocation flags and values of the pool's slots (no outputs).
    spec fn model(&self) -> SlotModel;

    /// The largest reference count.
    spec fn max_ref() -> nat;

    /// Facts kept by well-formed pools.
    proof fn lemma_model(&self)
        requires
            self.wf(),
        ensures
            Self::max_ref() >= 255,
            self.model().outputs == Seq::<(nat, Seq<bool>)>::empty(),
            vals_fit(self.model()),
            forall|v: nat| is_word_width(v) ==> {
                &&& #[trigger] self.model().vals.get(v).len() == self.model().refs.get(v).len()
                &&& self.model().refs.get(v).len() <= self.model().allocated.get(v).len()
                &&& self.model().allocated.get(v).len() <= usize::MAX
                &&& forall|i: int| 0 <= i < self.model().refs.get(v).len() && self.model().refs.get(v)[i] > 0
                    ==> #[trigger] self.model().allocated.get(v)[i]
            },
    ;

    /// Creates an empty pool.
    fn new() -> (r: Self)
        ensures
            r.wf(),
            forall|v: nat| is_word_width(v) ==> #[trigger] r.model().refs.get(v).len() == 0,
    ;

    /// Allocates the slots of a composite word, with reference counts at one.
    fn allocate<W: Word, const N: usize>(&mut self) -> (r: WordIdx<W, N>)
        requires
            old(self).wf(),
            old(self).model().allocated.get(W::spec_width()).len() + N < usize::MAX,
        ensures
            final(self).wf(),
            allocates(old(self).model(), final(self).model(), r),
    ;

    /// Increments the reference counts of the slots of the index.
    fn increase_refcount<W: Word, const N: usize>(&mut self, idx: WordIdx<W, N>)
        requires
            old(self).wf(),
            idx_in_range(idx.spec_idxs(), old(self).model().refs.get(W::spec_width()).len()),
            forall|k: int| 0 <= k < N ==> {
                let i = #[trigger] idx.spec_idxs()[k] as int;
                &&& old(self).model().allocated.get(W::spec_width())[i]
                &&& old(self).model().refs.get(W::spec_width())[i] < Self::max_ref()
            },
        ensures
            final(self).wf(),
            recounts(old(self).model(), final(self).model(), idx, 1),
    ;

    /// Decrements the reference counts of the slots of the index, freeing those whose count
    /// falls to zero.
    fn decrease_refcount<W: Word, const N: usize>(&mut self, idx: WordIdx<W, N>)
        requires
            old(self).wf(),
            idx_in_range(idx.spec_idxs(), old(self).model().refs.get(W::spec_width()).len()),
            forall|k: int| 0 <= k < N ==> #[trigger] old(self).model().refs.get(W::spec_width())[idx.spec_idxs()[k] as int] >= 1,
        ensures
            final(self).wf(),
            recounts(old(self).model(), final(self).model(), idx, -1),
    ;

    /// The word of type `W` in slot `i`.
    fn read_word<W: Word>(&self, i: usize) -> (r: W)
        requires
            self.wf(),
            i < self.model().refs.get(W::spec_width()).len(),
        ensures
            r.value() == self.model().vals.get(W::spec_width())[i as int],
    ;

    /// The composite word at the given index.
    fn read<W: Word, const N: usize>(&self, idx: WordIdx<W, N>) -> (r: CompositeWord<W, N>)
        requires
            self.wf(),
            idx_in_range(idx.spec_idxs(), self.model().refs.get(W::spec_width()).len()),
        ensures
            forall|k: int| 0 <= k < N ==> #[trigger] r.words()[k].value() == self.model().vals.get(W::spec_width())[idx.spec_idxs()[k] as int],
            r.cbits() == slot_bits(self.model().vals.get(W::spec_width()), W::spec_width(), idx.spec_idxs()),
    ;

    /// Writes the composite word at the given index.
    fn write<W: Word, const N: usize>(&mut self, idx: WordIdx<W, N>, c: CompositeWord<W, N>)
        requires
            old(self).wf(),
            idx_in_range(idx.spec_idxs(), old(self).model().refs.get(W::spec_width()).len()),
        ensures
            final(self).wf(),
            final(self).model().refs == old(self).model().refs,
            final(self).model().allocated == old(self).model().allocated,
            final(self).model().outputs == old(self).model().outputs,
            final(self).model().vals.get(W::spec_width()).len() == old(self).model().vals.get(W::spec_width()).len(),
            forall|i: int| 0 <= i < old(self).model().vals.get(W::spec_width()).len() && !idx.spec_idxs().contains(i as usize)
                ==> #[trigger] final(self).model().vals.get(W::spec_width())[i] == old(self).model().vals.get(W::spec_width())[i],
            forall|k: int| 0 <= k < N ==> #[trigger] final(self).model().vals.get(W::spec_width())[idx.spec_idxs()[k] as int] == c.words()[k].value(),
            slot_bits(final(self).model().vals.get(W::spec_width()), W::spec_width(), idx.spec_idxs()) == c.cbits(),
            forall|w: nat| is_word_width(w) && w != W::spec_width() ==> #[trigger] final(self).model().vals.get(w) == old(self).model().vals.get(w),
    ;
}

/// Word pool made of a word source and a memory manager allocating its slots.
pub struct WordPoolWrapper<WS: WordSource, M: MemoryManager> {
    word_source: WS,
    memory_manager: M,
}

impl<WS: WordSource, M: MemoryManager> WordPoolWrapper<WS, M> {
    /// Creates a pool from a word source and a memory manager.
    pub fn new(word_source: WS, memory_manager: M) -> (r: Self)
        ensures
            r.word_source() == word_source,
            r.memory_manager() == memory_manager,
    {
        WordPoolWrapper { word_source, memory_manager }
    }

    /// The word source.
    pub closed spec fn word_source(self) -> WS {
        self.word_source
    }

    /// The memory manager.
    pub closed spec fn memory_manager(self) -> M {
        self.memory_manager
    }
}

impl<WS: WordSource, M: MemoryManager> WordPool for WordPoolWrapper<WS, M> {
    /// The memory manager is well formed and the store holds a word for each reference count.
    closed spec fn wf(&self) -> bool {
        &&& self.memory_manager.wf()
        &&& forall|v: nat| is_word_width(v) ==> #[trigger] self.word_source.store().vals(v).len()
            == self.memory_manager.refs(v).len()
    }

    closed spec fn model(&self) -> SlotModel {
        let m = self.memory_manager;
        SlotModel {
            refs: ByWordType { u8: m.refs(8), u16: m.refs(16), u32: m.refs(32), u64: m.refs(64), u128: m.refs(128) },
            allocated: ByWordType { u8: m.allocated(8), u16: m.allocated(16), u32: m.allocated(32), u64: m.allocated(64), u128: m.allocated(128) },
            vals: store_vals(self.word_source.store()),
            outputs: Seq::empty(),
        }
    }

    open spec fn max_ref() -> nat {
        M::max_ref()
    }

    proof fn lemma_model(&self) {
        self.memory_manager.lemma_model();
        self.word_source.store().lemma_vals_fit();
        assert forall|v: nat, i: int| is_word_width(v) && 0 <= i < self.model().vals.get(v).len() implies #[trigger] self.model().vals.get(v)[i] < pow2(v) by {
            assert(self.model().vals.get(v) == self.word_source.store().vals(v));
        }
    }

    fn new() -> (r: Self) {
        let r = WordPoolWrapper { word_source: WS::new_source(), memory_manager: M::new() };
        proof {
            assert forall|v: nat| is_word_width(v) implies #[trigger] r.word_source.store().vals(v).len()
                == r.memory_manager.refs(v).len() by {
                assert(r.memory_manager.allocated(v).len() == 0);
            }
            assert forall|v: nat| is_word_width(v) implies #[trigger] r.model().refs.get(v).len() == 0 by {
                assert(r.memory_manager.allocated(v).len() == 0);
            }
        }
        r
    }

    fn allocate<W: Word, const N: usize>(&mut self) -> (r: WordIdx<W, N>) {
        proof {
            W::lemma_width();
            self.memory_manager.lemma_model();
        }
        let ghost old_self = *self;
        let (idx, vec_len) = self.memory_manager.allocate::<W, N>();
        self.word_source.resize::<W>(vec_len);
        proof {
            idx.lemma_len();
            let w = W::spec_width();
            assert forall|k: int| 0 <= k < N implies {
                let i = #[trigger] idx.spec_idxs()[k] as int;
                i < old_self.memory_manager.refs(w).len() ==> old_self.memory_manager.refs(w)[i] == 0
            } by {
                let i = idx.spec_idxs()[k] as int;
                if i < old_self.memory_manager.refs(w).len() && old_self.memory_manager.refs(w)[i] > 0 {
                    assert(old_self.memory_manager.allocated(w)[i]);
                }
            }
            assert(old_self.model().refs.get(w) == old_self.memory_manager.refs(w));
            assert(self.model().refs.get(w) == self.memory_manager.refs(w));
            assert(old_self.model().allocated.get(w) == old_self.memory_manager.allocated(w));
            assert(self.model().allocated.get(w) == self.memory_manager.allocated(w));
            assert(old_self.model().vals.get(w) == old_self.word_source.store().vals(w));
            assert(self.model().vals.get(w) == self.word_source.store().vals(w));
        }
        idx
    }

    fn increase_refcount<W: Word, const N: usize>(&mut self, idx: WordIdx<W, N>) {
        proof {
            W::lemma_width();
            let w = W::spec_width();
            assert(self.model().refs.get(w) == self.memory_manager.refs(w));
            assert(self.model().allocated.get(w) == self.memory_manager.allocated(w));
        }
        let ghost old_self = *self;
        proof {
            idx.lemma_len();
            let w = W::spec_width();
            assert forall|k: int| 0 <= k < N implies {
                let i = #[trigger] idx.spec_idxs()[k] as int;
                &&& i < self.memory_manager.refs(w).len()
                &&& self.memory_manager.allocated(w)[i]
                &&& self.memory_manager.refs(w)[i] < M::max_ref()
            } by {
                let i = idx.spec_idxs()[k] as int;
                assert(old_self.model().allocated.get(w)[i]);
            }
        }
        self.memory_manager.increase_refcount::<W, N>(idx);
        proof {
            let w = W::spec_width();
            assert(self.model().refs.get(w) == self.memory_manager.refs(w));
            assert(self.model().allocated.get(w) == self.memory_manager.allocated(w));
        }
    }

    fn decrease_refcount<W: Word, const N: usize>(&mut self, idx: WordIdx<W, N>) {
        proof {
            W::lemma_width();
            let w = W::spec_width();
            assert(self.model().refs.get(w) == self.memory_manager.refs(w));
            assert(self.model().allocated.get(w) == self.memory_manager.allocated(w));
        }
        let ghost old_self = *self;
        proof {
            idx.lemma_len();
            let w = W::spec_width();
            assert forall|k: int| 0 <= k < N implies {
                let i = #[trigger] idx.spec_idxs()[k] as int;
                &&& i < self.memory_manager.refs(w).len()
                &&& self.memory_manager.refs(w)[i] > 0
            } by {
                let i = idx.spec_idxs()[k] as int;
                assert(old_self.model().refs.get(w)[i] >= 1);
            }
        }
        self.memory_manager.decrease_refcount::<W, N>(idx);
        proof {
            let w = W::spec_width();
            assert(self.model().refs.get(w) == self.memory_manager.refs(w));
            assert(self.model().allocated.get(w) == self.memory_manager.allocated(w));
        }
    }

    fn read_word<W: Word>(&self, i: usize) -> (r: W) {
        proof {
            W::lemma_width();
            let w = W::spec_width();
            assert(self.model().refs.get(w) == self.memory_manager.refs(w));
            assert(self.model().vals.get(w) == self.word_source.store().vals(w));
        }
        self.word_source.read_word::<W>(i)
    }

    fn read<W: Word, const N: usize>(&self, idx: WordIdx<W, N>) -> (r: CompositeWord<W, N>) {
        proof {
            W::lemma_width();
            let w = W::spec_width();
            assert(self.model().refs.get(w) == self.memory_manager.refs(w));
            assert(self.model().vals.get(w) == self.word_source.store().vals(w));
        }
        self.word_source.read(idx)
    }

    fn write<W: Word, const N: usize>(&mut self, idx: WordIdx<W, N>, c: CompositeWord<W, N>) {
        proof {
            W::lemma_width();
            let w = W::spec_width();
            assert(self.model().refs.get(w) == self.memory_manager.refs(w));
            assert(self.model().vals.get(w) == self.word_source.store().vals(w));
        }
        let ghost old_self = *self;
        self.word_source.write(idx, c);
        proof {
            let w = W::spec_width();
            assert(self.model().vals.get(w) == self.word_source.store().vals(w));
            assert forall|v: nat| is_word_width(v) && v != w implies #[trigger] self.model().vals.get(v) == old_self.model().vals.get(v) by {
                assert(self.word_source.store().vals(v) == old_self.word_source.store().vals(v));
            }
        }
    }
}

} // verus!
