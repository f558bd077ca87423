//! Pools of allocated word triples: the shares of the three parties of each word.
use crate::backend::backend::{allocates, recounts, writes_only, SlotModel};
use crate::executor::word_pool::store_vals;
use crate::memory::memory_manager::MemoryManager;
use crate::word::by_word_type::{is_word_width, ByWordType};
use crate::word::composite::CompositeWord;
use crate::word::slots::{idx_in_range, slot_bits};
use crate::word::word::Word;
use crate::word::word_idx::WordIdx;
use crate::word::words::Words;
use vstd::prelude::*;

verus! {

/// Stores of words of all word types, one per party.
pub trait WordTripleSource: Sized {
    /// The words of party `p`.
    spec fn store(&self, p: nat) -> Words;

    /// Creates three empty stores.
    fn new_source() -> (r: Self)
        ensures
            forall|p: nat, w: nat| p < 3 && is_word_width(w) ==> #[trigger] r.store(p).vals(w).len() == 0,
    ;

    /// The composite word of party `p` at the given index.
    fn read<W: Word, const N: usize>(&self, p: usize, idx: WordIdx<W, N>) -> (r: CompositeWord<W, N>)
        requires
            p < 3,
            forall|k: int| 0 <= k < N ==> #[trigger] idx.spec_idxs()[k] < self.store(p as nat).vals(W::spec_width()).len(),
        ensures
            r.cbits() == slot_bits(self.store(p as nat).vals(W::spec_width()), W::spec_width(), idx.spec_idxs()),
    ;

    /// Writes the composite word of party `p` at the given index.
    fn write<W: Word, const N: usize>(&mut self, p: usize, idx: WordIdx<W, N>, c: CompositeWord<W, N>)
        requires
            p < 3,
            idx_in_range(idx.spec_idxs(), old(self).store(p as nat).vals(W::spec_width()).len()),
        ensures
            forall|q: nat| q < 3 && q != p ==> #[trigger] final(self).store(q) == old(self).store(q),
            final(self).store(p as nat).vals(W::spec_width()).len() == old(self).store(p as nat).vals(W::spec_width()).len(),
            forall|i: int| 0 <= i < old(self).store(p as nat).vals(W::spec_width()).len() && !idx.spec_idxs().contains(i as usize)
                ==> #[trigger] final(self).store(p as nat).vals(W::spec_width())[i] == old(self).store(p as nat).vals(W::spec_width())[i],
            slot_bits(final(self).store(p as nat).vals(W::spec_width()), W::spec_width(), idx.spec_idxs()) == c.cbits(),
            forall|w: nat| is_word_width(w) && w != W::spec_width() ==> #[trigger] final(self).store(p as nat).vals(w) == old(self).store(p as nat).vals(w),
    ;

    /// Extends the words of type `W` of every party with zero words up to the given number.
    fn resize<W: Word>(&mut self, new_len: usize)
        requires
            forall|p: nat| p < 3 ==> #[trigger] old(self).store(p).vals(W::spec_width()).len() <= new_len,
        ensures
            forall|p: nat| p < 3 ==> #[trigger] final(self).store(p).vals(W::spec_width()).len() == new_len,
            forall|p: nat, i: int| p < 3 && 0 <= i < old(self).store(p).vals(W::spec_width()).len() ==> #[trigger] final(self).store(p).vals(W::spec_width())[i] == old(self).store(p).vals(W::spec_width())[i],
            forall|p: nat, w: nat| p < 3 && is_word_width(w) && w != W::spec_width() ==> #[trigger] final(self).store(p).vals(w) == old(self).store(p).vals(w),
    ;
}

/// Word triple source owning three word stores.
pub struct WordTripleSourceWrapper {
    w0: Words,
    w1: Words,
    w2: Words,
}

impl WordTripleSourceWrapper {
    /// Creates a source holding the given stores of parties 0, 1 and 2.
    pub fn new(w0: Words, w1: Words, w2: Words) -> (r: Self)
        ensures
            r.store(0) == w0,
            r.store(1) == w1,
            r.store(2) == w2,
    {
        WordTripleSourceWrapper { w0, w1, w2 }
    }

    /// The store of party `p`, for a mutation.
    fn store_mut(&mut self, p: usize) -> (r: &mut Words)
        requires
            p < 3,
        ensures
            *r == old(self).store(p as nat),
            forall|q: nat| q < 3 && q != p ==> #[trigger] final(self).store(q) == old(self).store(q),
            final(self).store(p as nat) == *final(r),
    {
        if p == 0 {
            &mut self.w0
        } else if p == 1 {
            &mut self.w1
        } else {
            &mut self.w2
        }
    }
}

impl WordTripleSource for WordTripleSourceWrapper {
    closed spec fn store(&self, p: nat) -> Words {
        if p == 0 {
            self.w0
        } else if p == 1 {
            self.w1
        } else {
            self.w2
        }
    }

    fn new_source() -> (r: Self) {
        WordTripleSourceWrapper { w0: Words::new(), w1: Words::new(), w2: Words::new() }
    }

    fn read<W: Word, const N: usize>(&self, p: usize, idx: WordIdx<W, N>) -> (r: CompositeWord<W, N>) {
        let s = if p == 0 {
            &self.w0
        } else if p == 1 {
            &self.w1
        } else {
            &self.w2
        };
        proof {
            W::lemma_with_vec(*s, W::vec_in(*s));
        }
        s.read_composite(idx)
    }

    fn write<W: Word, const N: usize>(&mut self, p: usize, idx: WordIdx<W, N>, c: CompositeWord<W, N>) {
        let s = self.store_mut(p);
        proof {
            W::lemma_with_vec(*s, W::vec_in(*s));
        }
        s.write_composite(idx, c);
    }

    fn resize<W: Word>(&mut self, new_len: usize) {
        proof {
            W::lemma_with_vec(self.w0, W::vec_in(self.w0));
            W::lemma_with_vec(self.w1, W::vec_in(self.w1));
            W::lemma_with_vec(self.w2, W::vec_in(self.w2));
            assert(self.store(0) == self.w0 && self.store(1) == self.w1 && self.store(2) == self.w2);
            assert(self.store(0).vals(W::spec_width()).len() <= new_len);
            assert(self.store(1).vals(W::spec_width()).len() <= new_len);
            assert(self.store(2).vals(W::spec_width()).len() <= new_len);
        }
        self.w0.grow_words::<W>(new_len);
        self.w1.grow_words::<W>(new_len);
        self.w2.grow_words::<W>(new_len);
        proof {
            assert(self.store(0) == self.w0 && self.store(1) == self.w1 && self.store(2) == self.w2);
        }
    }
}

/// Pools of allocated word triples.
pub trait WordTriplePool: Sized {
    /// Well-formedness.
    spec fn wf(&self) -> bool;

    /// The reference counts and allocation flags of the pool's slots, with the values of the
    /// shares of party `p` (no outputs).
    spec fn model(&self, p: nat) -> SlotModel;

    /// The largest reference count.
    spec fn max_ref() -> nat;

    /// Facts kept by well-formed pools.
    proof fn lemma_model(&self)
        requires
            self.wf(),
        ensures
            Self::max_ref() >= 255,
            forall|p: nat| #![trigger self.model(p)] p < 3 ==> {
                &&& self.model(p).outputs == Seq::<(nat, Seq<bool>)>::empty()
                &&& self.model(p).refs == self.model(0).refs
                &&& self.model(p).allocated == self.model(0).allocated
            },
            forall|p: nat, v: nat| p < 3 && is_word_width(v) ==> #[trigger] self.model(p).vals.get(v).len() == self.model(p).refs.get(v).len(),
            forall|v: nat| is_word_width(v) ==> {
                &&& #[trigger] self.model(0).refs.get(v).len() <= self.model(0).allocated.get(v).len()
                &&& self.model(0).allocated.get(v).len() <= usize::MAX
                &&& forall|i: int| 0 <= i < self.model(0).refs.get(v).len() && self.model(0).refs.get(v)[i] > 0
                    ==> #[trigger] self.model(0).allocated.get(v)[i]
            },
    ;

    /// Creates an empty pool.
    fn new() -> (r: Self)
        ensures
            r.wf(),
            forall|v: nat| is_word_width(v) ==> #[trigger] r.model(0).refs.get(v).len() == 0,
    ;

    /// Allocates the slots of a composite word, with reference counts at one.
    fn allocate<W: Word, const N: usize>(&mut self) -> (r: WordIdx<W, N>)
        requires
            old(self).wf(),
            old(self).model(0).allocated.get(W::spec_width()).len() + N < usize::MAX,
        ensures
            final(self).wf(),
            forall|p: nat| p < 3 ==> allocates(old(self).model(p), #[trigger] final(self).model(p), r),
    ;

    /// Increments the reference counts of the slots of the index.
    fn increase_refcount<W: Word, const N: usize>(&mut self, idx: WordIdx<W, N>)
        requires
            old(self).wf(),
            idx_in_range(idx.spec_idxs(), old(self).model(0).refs.get(W::spec_width()).len()),
            forall|k: int| 0 <= k < N ==> {
                let i = #[trigger] idx.spec_idxs()[k] as int;
                &&& old(self).model(0).allocated.get(W::spec_width())[i]
                &&& old(self).model(0).refs.get(W::spec_width())[i] < Self::max_ref()
            },
        ensures
            final(self).wf(),
            forall|p: nat| p < 3 ==> recounts(old(self).model(p), #[trigger] final(self).model(p), idx, 1),
    ;

    /// Decrements the reference counts of the slots of the index.
    fn decrease_refcount<W: Word, const N: usize>(&mut self, idx: WordIdx<W, N>)
        requires
            old(self).wf(),
            idx_in_range(idx.spec_idxs(), old(self).model(0).refs.get(W::spec_width()).len()),
            forall|k: int| 0 <= k < N ==> #[trigger] old(self).model(0).refs.get(W::spec_width())[idx.spec_idxs()[k] as int] >= 1,
        ensures
            final(self).wf(),
            forall|p: nat| p < 3 ==> recounts(old(self).model(p), #[trigger] final(self).model(p), idx, -1),
    ;

    /// The three shares at the given index.
    fn read<W: Word, const N: usize>(&self, idx: WordIdx<W, N>) -> (r: [CompositeWord<W, N>; 3])
        requires
            self.wf(),
            forall|k: int| 0 <= k < N ==> #[trigger] idx.spec_idxs()[k] < self.model(0).refs.get(W::spec_width()).len(),
        ensures
            forall|p: int| 0 <= p < 3 ==> #[trigger] r[p].cbits() == slot_bits(self.model(p as nat).vals.get(W::spec_width()), W::spec_width(), idx.spec_idxs()),
    ;

    /// Writes the three shares at the given index.
    fn write<W: Word, const N: usize>(&mut self, idx: WordIdx<W, N>, c: [CompositeWord<W, N>; 3])
        requires
            old(self).wf(),
            idx_in_range(idx.spec_idxs(), old(self).model(0).refs.get(W::spec_width()).len()),
        ensures
            final(self).wf(),
            forall|p: nat| p < 3 ==> writes_only(old(self).model(p), #[trigger] final(self).model(p), idx),
            forall|p: nat| p < 3 ==> #[trigger] slot_bits(final(self).model(p).vals.get(W::spec_width()), W::spec_width(), idx.spec_idxs()) == c[p as int].cbits(),
    ;
}

/// Word triple pool made of a word triple source and a memory manager allocating its slots.
pub struct WordTriplePoolWrapper<WS: WordTripleSource, M: MemoryManager> {
    word_triple_source: WS,
    memory_manager: M,
}

impl<WS: WordTripleSource, M: MemoryManager> WordTriplePoolWrapper<WS, M> {
    /// Creates a pool from a word triple source and a memory manager.
    pub fn new(word_triple_source: WS, memory_manager: M) -> (r: Self)
        ensures
            r.word_triple_source() == word_triple_source,
            r.memory_manager() == memory_manager,
    {
        WordTriplePoolWrapper { word_triple_source, memory_manager }
    }

    /// The word triple source.
    pub closed spec fn word_triple_source(self) -> WS {
        self.word_triple_source
    }

    /// The memory manager.
    pub closed spec fn memory_manager(self) -> M {
        self.memory_manager
    }
}

impl<WS: WordTripleSource, M: MemoryManager> WordTriplePool for WordTriplePoolWrapper<WS, M> {
    /// The memory manager is well formed and each store holds a word for each reference count.
    closed spec fn wf(&self) -> bool {
        &&& self.memory_manager.wf()
        &&& forall|p: nat, v: nat| p < 3 && is_word_width(v) ==> #[trigger] self.word_triple_source.store(p).vals(v).len()
            == self.memory_manager.refs(v).len()
    }

    closed spec fn model(&self, p: nat) -> SlotModel {
        let m = self.memory_manager;
        SlotModel {
            refs: ByWordType { u8: m.refs(8), u16: m.refs(16), u32: m.refs(32), u64: m.refs(64), u128: m.refs(128) },
            allocated: ByWordType { u8: m.allocated(8), u16: m.allocated(16), u32: m.allocated(32), u64: m.allocated(64), u128: m.allocated(128) },
            vals: store_vals(self.word_triple_source.store(p)),
            outputs: Seq::empty(),
        }
    }

    open spec fn max_ref() -> nat {
        M::max_ref()
    }

    proof fn lemma_model(&self) {
        self.memory_manager.lemma_model();
    }

    fn new() -> (r: Self) {
        let r = WordTriplePoolWrapper { word_triple_source: WS::new_source(), memory_manager: M::new() };
        proof {
            assert forall|p: nat, v: nat| p < 3 && is_word_width(v) implies #[trigger] r.word_triple_source.store(p).vals(v).len()
                == r.memory_manager.refs(v).len() by {
                assert(r.memory_manager.allocated(v).len() == 0);
            }
            assert forall|v: nat| is_word_width(v) implies #[trigger] r.model(0).refs.get(v).len() == 0 by {
                assert(r.memory_manager.allocated(v).len() == 0);
            }
        }
        r
    }

    fn allocate<W: Word, const N: usize>(&mut self) -> (r: WordIdx<W, N>) {
        proof {
            W::lemma_width();
            self.memory_manager.lemma_model();
        }
        let ghost old_self = *self;
        let (idx, vec_len) = self.memory_manager.allocate::<W, N>();
        proof {
            assert forall|p: nat| p < 3 implies #[trigger] self.word_triple_source.store(p).vals(W::spec_width()).len() <= vec_len by {
                assert(old_self.word_triple_source.store(p).vals(W::spec_width()).len() == old_self.memory_manager.refs(W::spec_width()).len());
            }
        }
        self.word_triple_source.resize::<W>(vec_len);
        proof {
            idx.lemma_len();
            let w = W::spec_width();
            assert forall|k: int| 0 <= k < N implies {
                let i = #[trigger] idx.spec_idxs()[k] as int;
                i < old_self.memory_manager.refs(w).len() ==> old_self.memory_manager.refs(w)[i] == 0
            } by {
                let i = idx.spec_idxs()[k] as int;
                if i < old_self.memory_manager.refs(w).len() && old_self.memory_manager.refs(w)[i] > 0 {
                    assert(old_self.memory_manager.allocated(w)[i]);
                }
            }
            assert forall|p: nat, v: nat| p < 3 && is_word_width(v) implies #[trigger] self.word_triple_source.store(p).vals(v).len()
                == self.memory_manager.refs(v).len() by {
                if v != w {
                    assert(self.word_triple_source.store(p).vals(v) == old_self.word_triple_source.store(p).vals(v));
                }
            }
            assert forall|p: nat| p < 3 implies allocates(old_self.model(p), #[trigger] self.model(p), idx) by {
                assert(old_self.model(p).refs.get(w) == old_self.memory_manager.refs(w));
                assert(self.model(p).refs.get(w) == self.memory_manager.refs(w));
                assert(old_self.model(p).allocated.get(w) == old_self.memory_manager.allocated(w));
                assert(self.model(p).allocated.get(w) == self.memory_manager.allocated(w));
                assert(old_self.model(p).vals.get(w) == old_self.word_triple_source.store(p).vals(w));
                assert(self.model(p).vals.get(w) == self.word_triple_source.store(p).vals(w));
                assert forall|v: nat, i: int| is_word_width(v) && 0 <= i < old_self.model(p).vals.get(v).len()
                    && !crate::backend::backend::uses(idx, v, i) implies #[trigger] self.model(p).vals.get(v)[i]
                    == old_self.model(p).vals.get(v)[i] by {
                    assert(self.model(p).vals.get(v) == self.word_triple_source.store(p).vals(v));
                    assert(old_self.model(p).vals.get(v) == old_self.word_triple_source.store(p).vals(v));
                }
            }
        }
        idx
    }

    fn increase_refcount<W: Word, const N: usize>(&mut self, idx: WordIdx<W, N>) {
        proof {
            W::lemma_width();
        }
        let ghost old_self = *self;
        proof {
            idx.lemma_len();
            let w = W::spec_width();
            assert(self.model(0).refs.get(w) == self.memory_manager.refs(w));
            assert(self.model(0).allocated.get(w) == self.memory_manager.allocated(w));
            assert forall|k: int| 0 <= k < N implies {
                let i = #[trigger] idx.spec_idxs()[k] as int;
                &&& i < self.memory_manager.refs(w).len()
                &&& self.memory_manager.allocated(w)[i]
                &&& self.memory_manager.refs(w)[i] < M::max_ref()
            } by {
                let i = idx.spec_idxs()[k] as int;
                assert(old_self.model(0).allocated.get(w)[i]);
            }
        }
        self.memory_manager.increase_refcount::<W, N>(idx);
        proof {
            let w = W::spec_width();
            assert forall|p: nat| p < 3 implies recounts(old_self.model(p), #[trigger] self.model(p), idx, 1) by {
                assert(self.model(p).refs.get(w) == self.memory_manager.refs(w));
                assert(self.model(p).allocated.get(w) == self.memory_manager.allocated(w));
                assert(old_self.model(p).refs.get(w) == old_self.memory_manager.refs(w));
                assert(old_self.model(p).allocated.get(w) == old_self.memory_manager.allocated(w));
            }
        }
    }

    fn decrease_refcount<W: Word, const N: usize>(&mut self, idx: WordIdx<W, N>) {
        proof {
            W::lemma_width();
        }
        let ghost old_self = *self;
        proof {
            idx.lemma_len();
            let w = W::spec_width();
            assert(self.model(0).refs.get(w) == self.memory_manager.refs(w));
            assert forall|k: int| 0 <= k < N implies {
                let i = #[trigger] idx.spec_idxs()[k] as int;
                &&& i < self.memory_manager.refs(w).len()
                &&& self.memory_manager.refs(w)[i] > 0
            } by {
                let i = idx.spec_idxs()[k] as int;
                assert(old_self.model(0).refs.get(w)[i] >= 1);
            }
        }
        self.memory_manager.decrease_refcount::<W, N>(idx);
        proof {
            let w = W::spec_width();
            assert forall|p: nat| p < 3 implies recounts(old_self.model(p), #[trigger] self.model(p), idx, -1) by {
                assert(self.model(p).refs.get(w) == self.memory_manager.refs(w));
                assert(self.model(p).allocated.get(w) == self.memory_manager.allocated(w));
                assert(old_self.model(p).refs.get(w) == old_self.memory_manager.refs(w));
                assert(old_self.model(p).allocated.get(w) == old_self.memory_manager.allocated(w));
            }
        }
    }

    fn read<W: Word, const N: usize>(&self, idx: WordIdx<W, N>) -> (r: [CompositeWord<W, N>; 3]) {
        proof {
            W::lemma_width();
            let w = W::spec_width();
            assert(self.model(0).refs.get(w) == self.memory_manager.refs(w));
            assert(self.word_triple_source.store(0).vals(w).len() == self.memory_manager.refs(w).len());
            assert(self.word_triple_source.store(1).vals(w).len() == self.memory_manager.refs(w).len());
            assert(self.word_triple_source.store(2).vals(w).len() == self.memory_manager.refs(w).len());
        }
        let c0 = self.word_triple_source.read(0, idx);
        let c1 = self.word_triple_source.read(1, idx);
        let c2 = self.word_triple_source.read(2, idx);
        proof {
            let w = W::spec_width();
            assert(self.model(0).vals.get(w) == self.word_triple_source.store(0).vals(w));
            assert(self.model(1).vals.get(w) == self.word_triple_source.store(1).vals(w));
            assert(self.model(2).vals.get(w) == self.word_triple_source.store(2).vals(w));
        }
        [c0, c1, c2]
    }

    fn write<W: Word, const N: usize>(&mut self, idx: WordIdx<W, N>, c: [CompositeWord<W, N>; 3]) {
        proof {
            W::lemma_width();
        }
        let ghost old_self = *self;
        let ghost w = W::spec_width();
        proof {
            assert(self.model(0).refs.get(w) == self.memory_manager.refs(w));
            assert(self.word_triple_source.store(0).vals(w).len() == self.memory_manager.refs(w).len());
        }
        self.word_triple_source.write(0, idx, c[0]);
        let ghost s1 = *self;
        proof {
            assert(self.word_triple_source.store(1).vals(w).len() == self.memory_manager.refs(w).len());
        }
        self.word_triple_source.write(1, idx, c[1]);
        let ghost s2 = *self;
        proof {
            assert(self.word_triple_source.store(2).vals(w).len() == self.memory_manager.refs(w).len());
        }
        self.word_triple_source.write(2, idx, c[2]);
        proof {
            assert(self.word_triple_source.store(0) == s1.word_triple_source.store(0));
            assert(self.word_triple_source.store(1) == s2.word_triple_source.store(1));
            assert forall|p: nat, v: nat| p < 3 && is_word_width(v) implies #[trigger] self.word_triple_source.store(p).vals(v).len()
                == self.memory_manager.refs(v).len() by {
                assert(old_self.word_triple_source.store(p).vals(v).len() == old_self.memory_manager.refs(v).len());
            }
            assert forall|p: nat| p < 3 implies writes_only(old_self.model(p), #[trigger] self.model(p), idx) by {
                assert forall|v: nat, i: int| is_word_width(v) && 0 <= i < old_self.model(p).vals.get(v).len()
                    && !crate::backend::backend::uses(idx, v, i) implies #[trigger] self.model(p).vals.get(v)[i]
                    == old_self.model(p).vals.get(v)[i] by {
                    assert(self.model(p).vals.get(v) == self.word_triple_source.store(p).vals(v));
                    assert(old_self.model(p).vals.get(v) == old_self.word_triple_source.store(p).vals(v));
                    if v == w {
                        assert(!idx.spec_idxs().contains(i as usize));
                    }
                }
                assert forall|v: nat| is_word_width(v) implies #[trigger] self.model(p).vals.get(v).len() == old_self.model(p).vals.get(v).len() by {
                    assert(self.model(p).vals.get(v) == self.word_triple_source.store(p).vals(v));
                    assert(old_self.model(p).vals.get(v) == old_self.word_triple_source.store(p).vals(v));
                }
            }
            assert forall|p: int| 0 <= p < 3 implies #[trigger] slot_bits(self.model(p as nat).vals.get(w), w, idx.spec_idxs()) == c[p].cbits() by {
                assert(self.model(p as nat).vals.get(w) == self.word_triple_source.store(p as nat).vals(w));
            }
        }
    }
}

} // verus!
