//! Reference-counted allocation of word indices, per word type.
use crate::memory::allocset::AllocSet;
use crate::word::by_word_type::{is_word_width, ByWordType, Shape};
use crate::word::word::Word;
use crate::word::word_idx::WordIdx;
use crate::word::words::vec_capacity;
use vstd::prelude::*;

verus! {

/// Reference counters.
pub trait RefCount: Sized + Copy {
    /// The count this counter holds.
    spec fn count(self) -> nat;

    /// The largest count this counter can hold.
    spec fn max_count() -> nat;

    /// A counter can count to 255 at least.
    proof fn lemma_max_count()
        ensures
            Self::max_count() >= 255,
    ;

    /// A counter at zero.
    fn zero() -> (r: Self)
        ensures
            r.count() == 0,
    ;

    /// Increments the counter.
    fn increase(&mut self)
        requires
            old(self).count() < Self::max_count(),
        ensures
            final(self).count() == old(self).count() + 1,
    ;

    /// Decrements the counter.
    fn decrease(&mut self)
        requires
            old(self).count() > 0,
        ensures
            final(self).count() == old(self).count() - 1,
    ;

    /// Whether the counter is at zero.
    fn is_zero(&self) -> (r: bool)
        ensures
            r == (self.count() == 0),
    ;
}

impl RefCount for u8 {
    open spec fn count(self) -> nat {
        self as nat
    }

    open spec fn max_count() -> nat {
        u8::MAX as nat
    }

    proof fn lemma_max_count() {
    }

    fn zero() -> (r: Self) {
        0
    }

    fn increase(&mut self) {
        *self = *self + 1;
    }

    fn decrease(&mut self) {
        *self = *self - 1;
    }

    fn is_zero(&self) -> (r: bool) {
        *self == 0
    }
}

impl RefCount for u16 {
    open spec fn count(self) -> nat {
        self as nat
    }

    open spec fn max_count() -> nat {
        u16::MAX as nat
    }

    proof fn lemma_max_count() {
    }

    fn zero() -> (r: Self) {
        0
    }

    fn increase(&mut self) {
        *self = *self + 1;
    }

    fn decrease(&mut self) {
        *self = *self - 1;
    }

    fn is_zero(&self) -> (r: bool) {
        *self == 0
    }
}

impl RefCount for u32 {
    open spec fn count(self) -> nat {
        self as nat
    }

    open spec fn max_count() -> nat {
        u32::MAX as nat
    }

    proof fn lemma_max_count() {
    }

    fn zero() -> (r: Self) {
        0
    }

    fn increase(&mut self) {
        *self = *self + 1;
    }

    fn decrease(&mut self) {
        *self = *self - 1;
    }

    fn is_zero(&self) -> (r: bool) {
        *self == 0
    }
}

impl RefCount for u64 {
    open spec fn count(self) -> nat {
        self as nat
    }

    open spec fn max_count() -> nat {
        u64::MAX as nat
    }

    proof fn lemma_max_count() {
    }

    fn zero() -> (r: Self) {
        0
    }

    fn increase(&mut self) {
        *self = *self + 1;
    }

    fn decrease(&mut self) {
        *self = *self - 1;
    }

    fn is_zero(&self) -> (r: bool) {
        *self == 0
    }
}

impl RefCount for u128 {
    open spec fn count(self) -> nat {
        self as nat
    }

    open spec fn max_count() -> nat {
        u128::MAX as nat
    }

    proof fn lemma_max_count() {
    }

    fn zero() -> (r: Self) {
        0
    }

    fn increase(&mut self) {
        *self = *self + 1;
    }

    fn decrease(&mut self) {
        *self = *self - 1;
    }

    fn is_zero(&self) -> (r: bool) {
        *self == 0
    }
}

impl RefCount for usize {
    open spec fn count(self) -> nat {
        self as nat
    }

    open spec fn max_count() -> nat {
        usize::MAX as nat
    }

    proof fn lemma_max_count() {
    }

    fn zero() -> (r: Self) {
        0
    }

    fn increase(&mut self) {
        *self = *self + 1;
    }

    fn decrease(&mut self) {
        *self = *self - 1;
    }

    fn is_zero(&self) -> (r: bool) {
        *self == 0
    }
}

/// The positions of a word index are pairwise distinct.
pub open spec fn distinct(s: Seq<usize>) -> bool {
    forall|a: int, b: int| 0 <= a < b < s.len() ==> s[a] != s[b]
}

/// Membership in a sequence extended by one element.
pub proof fn lemma_contains_push(s: Seq<usize>, x: usize, y: usize)
    ensures
        s.push(x).contains(y) == (s.contains(y) || x == y),
{
    if s.contains(y) {
        let j = choose|j: int| 0 <= j < s.len() && s[j] == y;
        assert(s.push(x)[j] == y);
    }
    if x == y {
        assert(s.push(x)[s.len() as int] == y);
    }
    if s.push(x).contains(y) {
        let j = choose|j: int| 0 <= j < s.push(x).len() && s.push(x)[j] == y;
        if j < s.len() {
            assert(s[j] == y);
        }
    }
}

/// Reference-counted allocation of word indices, per word type.
pub trait MemoryManager: Sized {
    /// The reference counts of the indices of the word type of width `w`.
    spec fn refs(&self, w: nat) -> Seq<nat>;

    /// The allocation flags of the indices of the word type of width `w`.
    spec fn allocated(&self, w: nat) -> Seq<bool>;

    /// The largest reference count.
    spec fn max_ref() -> nat;

    /// Well-formedness.
    spec fn wf(&self) -> bool;

    /// Positive reference counts are on allocated indices.
    proof fn lemma_model(&self)
        requires
            self.wf(),
        ensures
            Self::max_ref() >= 255,
            forall|w: nat| is_word_width(w) ==> #[trigger] self.refs(w).len() <= self.allocated(w).len(),
            forall|w: nat| is_word_width(w) ==> #[trigger] self.allocated(w).len() <= usize::MAX,
            forall|w: nat, i: int|
                is_word_width(w) && 0 <= i < self.refs(w).len() && #[trigger] self.refs(w)[i] > 0
                    ==> self.allocated(w)[i],
    ;

    /// Creates a manager with nothing allocated.
    fn new() -> (r: Self)
        ensures
            r.wf(),
            forall|w: nat| #[trigger] r.allocated(w).len() == 0 && r.refs(w).len() == 0,
    ;

    /// Allocates the `N` words of a composite word of word type `W` and returns their index
    /// with the number of counters of the word type. The reference counts of the allocated
    /// words are set to 1: the allocation is the first reference to them.
    fn allocate<W: Word, const N: usize>(&mut self) -> (r: (WordIdx<W, N>, usize))
        requires
            old(self).wf(),
            old(self).allocated(W::spec_width()).len() + N < usize::MAX,
        ensures
            final(self).wf(),
            r.1 == final(self).refs(W::spec_width()).len(),
            distinct(r.0.spec_idxs()),
            forall|k: int|
                0 <= k < N ==> {
                    let i = #[trigger] r.0.spec_idxs()[k] as int;
                    &&& i < r.1
                    &&& final(self).allocated(W::spec_width())[i]
                    &&& final(self).refs(W::spec_width())[i] == 1
                    &&& (i < old(self).allocated(W::spec_width()).len() ==> !old(self).allocated(W::spec_width())[i])
                },
            final(self).allocated(W::spec_width()).len() <= old(self).allocated(
                W::spec_width(),
            ).len() + N,
            old(self).refs(W::spec_width()).len() <= final(self).refs(W::spec_width()).len(),
            forall|i: int|
                0 <= i < old(self).refs(W::spec_width()).len() && !r.0.spec_idxs().contains(i as usize) ==> #[trigger] final(self).refs(W::spec_width())[i]
                    == old(self).refs(W::spec_width())[i],
            forall|i: int|
                old(self).refs(W::spec_width()).len() <= i < final(self).refs(W::spec_width()).len() && !r.0.spec_idxs().contains(i as usize)
                    ==> #[trigger] final(self).refs(W::spec_width())[i] == 0,
            forall|w: nat|
                is_word_width(w) && w != W::spec_width() ==> #[trigger] final(self).refs(w)
                    == old(self).refs(w) && final(self).allocated(w) == old(self).allocated(w),
    ;

    /// Increments the reference counts of the words of a composite word.
    fn increase_refcount<W: Word, const N: usize>(&mut self, idx: WordIdx<W, N>)
        requires
            old(self).wf(),
            distinct(idx.spec_idxs()),
            forall|k: int|
                0 <= k < N ==> {
                    let i = #[trigger] idx.spec_idxs()[k] as int;
                    &&& i < old(self).refs(W::spec_width()).len()
                    &&& old(self).allocated(W::spec_width())[i]
                    &&& old(self).refs(W::spec_width())[i] < Self::max_ref()
                },
        ensures
            final(self).wf(),
            final(self).refs(W::spec_width()).len() == old(self).refs(W::spec_width()).len(),
            forall|i: int|
                0 <= i < old(self).refs(W::spec_width()).len() ==> #[trigger] final(self).refs(
                    W::spec_width(),
                )[i] == old(self).refs(W::spec_width())[i] + if idx.spec_idxs().contains(
                    i as usize,
                ) {
                    1int
                } else {
                    0
                },
            final(self).allocated(W::spec_width()) == old(self).allocated(W::spec_width()),
            forall|w: nat|
                is_word_width(w) && w != W::spec_width() ==> #[trigger] final(self).refs(w)
                    == old(self).refs(w) && final(self).allocated(w) == old(self).allocated(w),
    ;

    /// Decrements the reference counts of the words of a composite word, freeing the words
    /// whose count reaches zero.
    fn decrease_refcount<W: Word, const N: usize>(&mut self, idx: WordIdx<W, N>)
        requires
            old(self).wf(),
            distinct(idx.spec_idxs()),
            forall|k: int|
                0 <= k < N ==> {
                    let i = #[trigger] idx.spec_idxs()[k] as int;
                    &&& i < old(self).refs(W::spec_width()).len()
                    &&& old(self).refs(W::spec_width())[i] > 0
                },
        ensures
            final(self).wf(),
            final(self).refs(W::spec_width()).len() == old(self).refs(W::spec_width()).len(),
            final(self).allocated(W::spec_width()).len() == old(self).allocated(
                W::spec_width(),
            ).len(),
            forall|i: int|
                0 <= i < old(self).refs(W::spec_width()).len() ==> #[trigger] final(self).refs(
                    W::spec_width(),
                )[i] == old(self).refs(W::spec_width())[i] - if idx.spec_idxs().contains(
                    i as usize,
                ) {
                    1int
                } else {
                    0
                },
            forall|i: int|
                0 <= i < old(self).allocated(W::spec_width()).len() ==> #[trigger] final(self).allocated(W::spec_width())[i]
                    == (old(self).allocated(W::spec_width())[i] && !(idx.spec_idxs().contains(
                    i as usize,
                ) && i < old(self).refs(W::spec_width()).len() && old(self).refs(
                    W::spec_width(),
                )[i] == 1)),
            forall|w: nat|
                is_word_width(w) && w != W::spec_width() ==> #[trigger] final(self).refs(w)
                    == old(self).refs(w) && final(self).allocated(w) == old(self).allocated(w),
    ;

    /// Releases every index of every word type.
    fn clear(&mut self)
        ensures
            final(self).wf(),
            forall|w: nat| #[trigger] final(self).allocated(w).len() == 0 && final(self).refs(w).len() == 0,
    ;
}

/// Memory manager with a vector of reference counters and a set of allocated indices for each
/// word type.
#[derive(Debug)]
pub struct FlexibleMemoryManager<RC: RefCount> {
    refcounts: ByWordType<Vec<RC>>,
    alloc_set: ByWordType<AllocSet>,
}

impl<RC: RefCount> FlexibleMemoryManager<RC> {
    /// The counts of a vector of reference counters.
    pub open spec fn counts(v: Vec<RC>) -> Seq<nat> {
        v@.map_values(|r: RC| r.count())
    }

    /// Well-formedness of the structures of one word type: counters only for allocated
    /// indices, and positive counts only on allocated indices.
    pub open spec fn wf_type(refcounts: Vec<RC>, alloc_set: AllocSet) -> bool {
        &&& alloc_set.wf()
        &&& refcounts@.len() <= alloc_set.view().len()
        &&& forall|i: int|
            0 <= i < refcounts@.len() && #[trigger] refcounts@[i].count() > 0 ==> alloc_set.view()[i]
    }

    /// Well-formedness holds when it holds for the changed word type and the others are
    /// unchanged.
    proof fn lemma_wf_update(old_m: Self, m: Self, w: nat)
        requires
            is_word_width(w),
            old_m.wf(),
            Self::wf_type(m.refcounts.get(w), m.alloc_set.get(w)),
            forall|v: nat|
                is_word_width(v) && v != w ==> #[trigger] m.refcounts.get(v) == old_m.refcounts.get(v)
                    && m.alloc_set.get(v) == old_m.alloc_set.get(v),
        ensures
            m.wf(),
    {
        assert(m.refcounts.get(8) == old_m.refcounts.get(8) || w == 8);
        assert(m.alloc_set.get(8) == old_m.alloc_set.get(8) || w == 8);
        assert(m.refcounts.get(16) == old_m.refcounts.get(16) || w == 16);
        assert(m.alloc_set.get(16) == old_m.alloc_set.get(16) || w == 16);
        assert(m.refcounts.get(32) == old_m.refcounts.get(32) || w == 32);
        assert(m.alloc_set.get(32) == old_m.alloc_set.get(32) || w == 32);
        assert(m.refcounts.get(64) == old_m.refcounts.get(64) || w == 64);
        assert(m.alloc_set.get(64) == old_m.alloc_set.get(64) || w == 64);
        assert(m.refcounts.get(128) == old_m.refcounts.get(128) || w == 128);
        assert(m.alloc_set.get(128) == old_m.alloc_set.get(128) || w == 128);
    }

    /// Well-formedness gives well-formedness of each word type.
    proof fn lemma_wf_type(m: Self, w: nat)
        requires
            is_word_width(w),
            m.wf(),
        ensures
            Self::wf_type(m.refcounts.get(w), m.alloc_set.get(w)),
    {
    }

    /// The reference counters of each word type.
    pub fn refcounts(&self) -> (r: &ByWordType<Vec<RC>>)
        ensures
            forall|w: nat| #[trigger] Self::counts(r.get(w)) == self.refs(w),
    {
        &self.refcounts
    }

    /// The sets of allocated indices of each word type.
    pub fn alloc_set(&self) -> (r: &ByWordType<AllocSet>)
        ensures
            forall|w: nat| #[trigger] r.get(w).view() == self.allocated(w),
    {
        &self.alloc_set
    }

    /// The number of reference counters of each word type.
    pub fn shape(&self) -> (r: Shape)
        ensures
            forall|w: nat| is_word_width(w) ==> #[trigger] r.get(w) == self.refs(w).len(),
    {
        self.refcounts.shape()
    }

    /// The capacity of the vector of reference counters of each word type.
    pub fn capacity(&self) -> (r: Shape)
        ensures
            forall|w: nat| is_word_width(w) ==> #[trigger] r.get(w) >= self.refs(w).len(),
    {
        ByWordType {
            u8: vec_capacity(&self.refcounts.u8),
            u16: vec_capacity(&self.refcounts.u16),
            u32: vec_capacity(&self.refcounts.u32),
            u64: vec_capacity(&self.refcounts.u64),
            u128: vec_capacity(&self.refcounts.u128),
        }
    }

    /// Allocates an index of word type `W`.
    fn allocate_index<W: Word>(&mut self) -> (r: usize)
        requires
            old(self).alloc_set.get(W::spec_width()).wf(),
            old(self).alloc_set.get(W::spec_width()).view().len() < usize::MAX,
        ensures
            final(self).refcounts == old(self).refcounts,
            final(self).alloc_set.get(W::spec_width()).wf(),
            r <= old(self).alloc_set.get(W::spec_width()).view().len(),
            r < old(self).alloc_set.get(W::spec_width()).view().len() ==> !old(self).alloc_set.get(
                W::spec_width(),
            ).view()[r as int] && final(self).alloc_set.get(W::spec_width()).view() == old(self).alloc_set.get(W::spec_width()).view().update(r as int, true),
            r == old(self).alloc_set.get(W::spec_width()).view().len() ==> final(self).alloc_set.get(W::spec_width()).view() == old(self).alloc_set.get(
                W::spec_width(),
            ).view().push(true),
            forall|v: nat|
                is_word_width(v) && v != W::spec_width() ==> #[trigger] final(self).alloc_set.get(v)
                    == old(self).alloc_set.get(v),
    {
        proof {
            W::lemma_width();
        }
        let w = W::width();
        if w == 8 {
            self.alloc_set.u8.allocate()
        } else if w == 16 {
            self.alloc_set.u16.allocate()
        } else if w == 32 {
            self.alloc_set.u32.allocate()
        } else if w == 64 {
            self.alloc_set.u64.allocate()
        } else {
            self.alloc_set.u128.allocate()
        }
    }

    /// Frees an allocated index of word type `W`.
    fn free_index<W: Word>(&mut self, i: usize)
        requires
            old(self).alloc_set.get(W::spec_width()).wf(),
            i < old(self).alloc_set.get(W::spec_width()).view().len(),
            old(self).alloc_set.get(W::spec_width()).view()[i as int],
        ensures
            final(self).refcounts == old(self).refcounts,
            final(self).alloc_set.get(W::spec_width()).wf(),
            final(self).alloc_set.get(W::spec_width()).view() == old(self).alloc_set.get(
                W::spec_width(),
            ).view().update(i as int, false),
            forall|v: nat|
                is_word_width(v) && v != W::spec_width() ==> #[trigger] final(self).alloc_set.get(v)
                    == old(self).alloc_set.get(v),
    {
        proof {
            W::lemma_width();
        }
        let w = W::width();
        if w == 8 {
            self.alloc_set.u8.free(i)
        } else if w == 16 {
            self.alloc_set.u16.free(i)
        } else if w == 32 {
            self.alloc_set.u32.free(i)
        } else if w == 64 {
            self.alloc_set.u64.free(i)
        } else {
            self.alloc_set.u128.free(i)
        }
    }

    /// The reference counter of an index of word type `W`.
    fn get_refcount<W: Word>(&self, i: usize) -> (r: RC)
        requires
            i < self.refcounts.get(W::spec_width())@.len(),
        ensures
            r == self.refcounts.get(W::spec_width())@[i as int],
    {
        proof {
            W::lemma_width();
        }
        let w = W::width();
        if w == 8 {
            self.refcounts.u8[i]
        } else if w == 16 {
            self.refcounts.u16[i]
        } else if w == 32 {
            self.refcounts.u32[i]
        } else if w == 64 {
            self.refcounts.u64[i]
        } else {
            self.refcounts.u128[i]
        }
    }

    /// Replaces the reference counter of an index of word type `W`.
    fn set_refcount<W: Word>(&mut self, i: usize, rc: RC)
        requires
            i < old(self).refcounts.get(W::spec_width())@.len(),
        ensures
            final(self).alloc_set == old(self).alloc_set,
            final(self).refcounts.get(W::spec_width())@ == old(self).refcounts.get(
                W::spec_width(),
            )@.update(i as int, rc),
            forall|v: nat|
                is_word_width(v) && v != W::spec_width() ==> #[trigger] final(self).refcounts.get(v)
                    == old(self).refcounts.get(v),
    {
        proof {
            W::lemma_width();
        }
        let w = W::width();
        if w == 8 {
            self.refcounts.u8.set(i, rc)
        } else if w == 16 {
            self.refcounts.u16.set(i, rc)
        } else if w == 32 {
            self.refcounts.u32.set(i, rc)
        } else if w == 64 {
            self.refcounts.u64.set(i, rc)
        } else {
            self.refcounts.u128.set(i, rc)
        }
    }

    /// Appends a reference counter for word type `W`.
    fn push_refcount<W: Word>(&mut self, rc: RC)
        ensures
            final(self).alloc_set == old(self).alloc_set,
            final(self).refcounts.get(W::spec_width())@ == old(self).refcounts.get(
                W::spec_width(),
            )@.push(rc),
            forall|v: nat|
                is_word_width(v) && v != W::spec_width() ==> #[trigger] final(self).refcounts.get(v)
                    == old(self).refcounts.get(v),
    {
        proof {
            W::lemma_width();
        }
        let w = W::width();
        if w == 8 {
            self.refcounts.u8.push(rc)
        } else if w == 16 {
            self.refcounts.u16.push(rc)
        } else if w == 32 {
            self.refcounts.u32.push(rc)
        } else if w == 64 {
            self.refcounts.u64.push(rc)
        } else {
            self.refcounts.u128.push(rc)
        }
    }

    /// The number of reference counters of word type `W`.
    fn refcounts_len<W: Word>(&self) -> (r: usize)
        ensures
            r == self.refcounts.get(W::spec_width())@.len(),
    {
        proof {
            W::lemma_width();
        }
        self.refcounts.as_vec::<W>().len()
    }

    /// Extends the reference counters of word type `W`, with counts at zero, to cover the
    /// largest position of the given index, and returns their number.
    fn extend_refcounts_vec_if_needed<W: Word, const N: usize>(
        &mut self,
        idx: WordIdx<W, N>,
    ) -> (r: usize)
        requires
            Self::wf_type(
                old(self).refcounts.get(W::spec_width()),
                old(self).alloc_set.get(W::spec_width()),
            ),
            forall|k: int|
                0 <= k < N ==> #[trigger] idx.spec_idxs()[k] < old(self).alloc_set.get(
                    W::spec_width(),
                ).view().len(),
        ensures
            Self::wf_type(
                final(self).refcounts.get(W::spec_width()),
                final(self).alloc_set.get(W::spec_width()),
            ),
            final(self).alloc_set == old(self).alloc_set,
            r == final(self).refcounts.get(W::spec_width())@.len(),
            forall|k: int| 0 <= k < N ==> #[trigger] idx.spec_idxs()[k] < r,
            old(self).refcounts.get(W::spec_width())@.len() <= r,
            forall|i: int|
                0 <= i < old(self).refcounts.get(W::spec_width())@.len() ==> #[trigger] final(self).refcounts.get(W::spec_width())@[i]
                    == old(self).refcounts.get(W::spec_width())@[i],
            forall|i: int|
                old(self).refcounts.get(W::spec_width())@.len() <= i < r ==> #[trigger] final(self).refcounts.get(W::spec_width())@[i].count() == 0,
            forall|v: nat|
                is_word_width(v) && v != W::spec_width() ==> #[trigger] final(self).refcounts.get(v)
                    == old(self).refcounts.get(v),
    {
        proof {
            W::lemma_width();
            idx.lemma_len();
            self.alloc_set.get(W::spec_width()).lemma_view_len();
        }
        let ghost w = W::spec_width();
        let ghost old_self = *self;
        let ghost alen = self.alloc_set.get(w).view().len();
        let idxs = idx.into_array();
        let mut max_idx: usize = 0;
        let mut k: usize = 0;
        while k < N
            invariant
                k <= N,
                idxs@ == idx.spec_idxs(),
                forall|j: int| 0 <= j < k ==> idxs@[j] <= max_idx,
                k > 0 ==> max_idx < alen,
                k == 0 ==> max_idx == 0,
                forall|j: int| 0 <= j < N ==> #[trigger] idxs@[j] < alen,
            decreases N - k,
        {
            if idxs[k] > max_idx {
                max_idx = idxs[k];
            }
            k = k + 1;
        }
        let len0 = self.refcounts_len::<W>();
        if N > 0 && max_idx >= len0 {
            let target = max_idx + 1;
            while self.refcounts_len::<W>() < target
                invariant
                    is_word_width(w),
                    w == W::spec_width(),
                    target <= alen,
                    self.alloc_set == old_self.alloc_set,
                    self.refcounts.get(w)@.len() <= target,
                    old_self.refcounts.get(w)@.len() <= self.refcounts.get(w)@.len(),
                    forall|i: int|
                        0 <= i < old_self.refcounts.get(w)@.len() ==> #[trigger] self.refcounts.get(
                            w,
                        )@[i] == old_self.refcounts.get(w)@[i],
                    forall|i: int|
                        old_self.refcounts.get(w)@.len() <= i < self.refcounts.get(w)@.len() ==> #[trigger] self.refcounts.get(
                            w,
                        )@[i].count() == 0,
                    forall|v: nat|
                        is_word_width(v) && v != w ==> #[trigger] self.refcounts.get(v)
                            == old_self.refcounts.get(v),
                decreases target - self.refcounts.get(w)@.len(),
            {
                self.push_refcount::<W>(RC::zero());
            }
        }
        self.refcounts_len::<W>()
    }
}

impl<RC: RefCount> MemoryManager for FlexibleMemoryManager<RC> {
    closed spec fn refs(&self, w: nat) -> Seq<nat> {
        Self::counts(self.refcounts.get(w))
    }

    closed spec fn allocated(&self, w: nat) -> Seq<bool> {
        self.alloc_set.get(w).view()
    }

    open spec fn max_ref() -> nat {
        RC::max_count()
    }

    closed spec fn wf(&self) -> bool {
        &&& Self::wf_type(self.refcounts.u8, self.alloc_set.u8)
        &&& Self::wf_type(self.refcounts.u16, self.alloc_set.u16)
        &&& Self::wf_type(self.refcounts.u32, self.alloc_set.u32)
        &&& Self::wf_type(self.refcounts.u64, self.alloc_set.u64)
        &&& Self::wf_type(self.refcounts.u128, self.alloc_set.u128)
    }

    proof fn lemma_model(&self) {
        RC::lemma_max_count();
        assert forall|w: nat| is_word_width(w) implies #[trigger] self.refs(w).len() <= self.allocated(w).len() by {
            Self::lemma_wf_type(*self, w);
        }
        assert forall|w: nat| is_word_width(w) implies #[trigger] self.allocated(w).len() <= usize::MAX by {
            self.alloc_set.get(w).lemma_view_len();
        }
        assert forall|w: nat, i: int|
            is_word_width(w) && 0 <= i < self.refs(w).len() && #[trigger] self.refs(w)[i] > 0
                implies self.allocated(w)[i] by {
            Self::lemma_wf_type(*self, w);
            assert(self.refcounts.get(w)@[i].count() > 0);
        }
    }

    fn new() -> (r: Self) {
        let r = FlexibleMemoryManager {
            refcounts: ByWordType::new(),
            alloc_set: ByWordType {
                u8: AllocSet::with_capacity(0),
                u16: AllocSet::with_capacity(0),
                u32: AllocSet::with_capacity(0),
                u64: AllocSet::with_capacity(0),
                u128: AllocSet::with_capacity(0),
            },
        };
        r
    }

    #[verifier::spinoff_prover]
    fn allocate<W: Word, const N: usize>(&mut self) -> (r: (WordIdx<W, N>, usize)) {
        let ghost old_self = *self;
        let (idx, vec_len) = self.allocate_uncounted::<W, N>();
        let ghost mid = *self;
        proof {
            W::lemma_width();
            idx.lemma_len();
            self.lemma_model();
        }
        self.increment_counts(idx);
        proof {
            let ww = W::spec_width();
            assert forall|k: int| 0 <= k < N implies {
                let i = #[trigger] idx.spec_idxs()[k] as int;
                &&& i < vec_len
                &&& self.allocated(ww)[i]
                &&& self.refs(ww)[i] == 1
                &&& (i < old_self.allocated(ww).len() ==> !old_self.allocated(ww)[i])
            } by {
                let i = idx.spec_idxs()[k] as int;
                assert(idx.spec_idxs().contains(i as usize));
                assert(mid.refs(ww)[i] == 0);
            }
            assert(old_self == *old(self));
            assert forall|i: int|
                0 <= i < old_self.refs(ww).len() && !idx.spec_idxs().contains(i as usize) implies #[trigger] self.refs(ww)[i]
                    == old_self.refs(ww)[i] by {
                assert(mid.refs(ww)[i] == old_self.refs(ww)[i]);
            }
            assert forall|i: int|
                old_self.refs(ww).len() <= i < self.refs(ww).len() && !idx.spec_idxs().contains(i as usize)
                    implies #[trigger] self.refs(ww)[i] == 0 by {
                assert(mid.refs(ww)[i] == 0);
            }
            assert(self.refcounts.get(8) == old_self.refcounts.get(8) || ww == 8);
            assert(self.alloc_set.get(8) == old_self.alloc_set.get(8) || ww == 8);
            assert(self.refcounts.get(16) == old_self.refcounts.get(16) || ww == 16);
            assert(self.alloc_set.get(16) == old_self.alloc_set.get(16) || ww == 16);
            assert(self.refcounts.get(32) == old_self.refcounts.get(32) || ww == 32);
            assert(self.alloc_set.get(32) == old_self.alloc_set.get(32) || ww == 32);
            assert(self.refcounts.get(64) == old_self.refcounts.get(64) || ww == 64);
            assert(self.alloc_set.get(64) == old_self.alloc_set.get(64) || ww == 64);
            assert(self.refcounts.get(128) == old_self.refcounts.get(128) || ww == 128);
            assert(self.alloc_set.get(128) == old_self.alloc_set.get(128) || ww == 128);
            assert forall|v: nat| is_word_width(v) && v != ww implies #[trigger] self.refs(v)
                == old_self.refs(v) && self.allocated(v) == old_self.allocated(v) by {
                assert(self.refcounts.get(v) == old_self.refcounts.get(v));
                assert(self.alloc_set.get(v) == old_self.alloc_set.get(v));
            }
        }
        let ghost fin = *self;
        proof {
            assert forall|v: nat| is_word_width(v) && v != W::spec_width() implies #[trigger] fin.refs(v)
                == old(self).refs(v) && fin.allocated(v) == old(self).allocated(v) by {
                assert(fin.refs(v) == old_self.refs(v));
            }
        }
        (idx, vec_len)
    }

    fn increase_refcount<W: Word, const N: usize>(&mut self, idx: WordIdx<W, N>) {
        self.increment_counts(idx);
    }

    #[verifier::spinoff_prover]
    #[verifier::rlimit(50)]
    fn decrease_refcount<W: Word, const N: usize>(&mut self, idx: WordIdx<W, N>) {
        proof {
            W::lemma_width();
            idx.lemma_len();
        }
        let ghost w = W::spec_width();
        let ghost old_self = *self;
        let idxs = idx.into_array();
        let mut k: usize = 0;
        proof {
            Self::lemma_wf_type(old_self, w);
            assert(idxs@.subrange(0, 0) =~= Seq::<usize>::empty());
        }
        while k < N
            invariant
                k <= N,
                w == W::spec_width(),
                is_word_width(w),
                old_self == *old(self),
                old_self.wf(),
                idxs@ == idx.spec_idxs(),
                distinct(idxs@),
                Self::wf_type(old_self.refcounts.get(w), old_self.alloc_set.get(w)),
                Self::wf_type(self.refcounts.get(w), self.alloc_set.get(w)),
                self.refcounts.get(w)@.len() == old_self.refcounts.get(w)@.len(),
                self.alloc_set.get(w).view().len() == old_self.alloc_set.get(w).view().len(),
                forall|j: int|
                    0 <= j < N ==> {
                        let i = #[trigger] idxs@[j] as int;
                        &&& i < old_self.refcounts.get(w)@.len()
                        &&& old_self.refcounts.get(w)@[i].count() > 0
                    },
                forall|i: int|
                    0 <= i < old_self.refcounts.get(w)@.len() ==> #[trigger] self.refcounts.get(
                        w,
                    )@[i].count() == old_self.refcounts.get(w)@[i].count() - if idxs@.subrange(
                        0,
                        k as int,
                    ).contains(i as usize) {
                        1int
                    } else {
                        0
                    },
                forall|i: int|
                    0 <= i < old_self.alloc_set.get(w).view().len() ==> #[trigger] self.alloc_set.get(
                        w,
                    ).view()[i] == (old_self.alloc_set.get(w).view()[i] && !(idxs@.subrange(
                        0,
                        k as int,
                    ).contains(i as usize) && i < old_self.refcounts.get(w)@.len()
                        && old_self.refcounts.get(w)@[i].count() == 1)),
                forall|v: nat|
                    is_word_width(v) && v != w ==> #[trigger] self.refcounts.get(v)
                        == old_self.refcounts.get(v) && self.alloc_set.get(v)
                        == old_self.alloc_set.get(v),
            decreases N - k,
        {
            let i = idxs[k];
            proof {
                if idxs@.subrange(0, k as int).contains(i) {
                    let t = choose|t: int| 0 <= t < k && idxs@.subrange(0, k as int)[t] == i;
                    assert(idxs@[t] == idxs@[k as int]);
                }
                assert(idxs@.subrange(0, (k + 1) as int) =~= idxs@.subrange(0, k as int).push(i));
                assert forall|y: usize| #[trigger] idxs@.subrange(0, (k + 1) as int).contains(y) == (
                idxs@.subrange(0, k as int).contains(y) || i == y) by {
                    lemma_contains_push(idxs@.subrange(0, k as int), i, y);
                }
            }
            let ghost prev = self.refcounts.get(w);
            let ghost prev_view = self.alloc_set.get(w).view();
            let mut rc = self.get_refcount::<W>(i);
            rc.decrease();
            self.set_refcount::<W>(i, rc);
            let ghost mid = *self;
            if rc.is_zero() {
                proof {
                    assert(old_self.refcounts.get(w)@[i as int].count() == 1);
                    assert(old_self.alloc_set.get(w).view()[i as int]);
                }
                self.free_index::<W>(i);
            }
            proof {
                assert(prev.len() == prev@.len());
                assert forall|v: nat|
                    is_word_width(v) && v != w implies #[trigger] self.refcounts.get(v)
                    == old_self.refcounts.get(v) && self.alloc_set.get(v) == old_self.alloc_set.get(
                    v,
                ) by {
                    assert(mid.refcounts.get(v) == self.refcounts.get(v));
                    assert(mid.alloc_set.get(v) == self.alloc_set.get(v));
                }
                assert forall|j: int|
                    0 <= j < old_self.refcounts.get(w)@.len() implies #[trigger] self.refcounts.get(
                    w,
                )@[j].count() == old_self.refcounts.get(w)@[j].count() - if idxs@.subrange(
                    0,
                    (k + 1) as int,
                ).contains(j as usize) {
                    1int
                } else {
                    0
                } by {
                    if j != i {
                        assert(self.refcounts.get(w)@[j] == prev@[j]);
                        assert(idxs@.subrange(0, (k + 1) as int).contains(j as usize) == idxs@.subrange(
                            0,
                            k as int,
                        ).contains(j as usize));
                    }
                }
                assert forall|j: int|
                    0 <= j < old_self.alloc_set.get(w).view().len() implies #[trigger] self.alloc_set.get(
                    w,
                ).view()[j] == (old_self.alloc_set.get(w).view()[j] && !(idxs@.subrange(
                    0,
                    (k + 1) as int,
                ).contains(j as usize) && j < old_self.refcounts.get(w)@.len()
                    && old_self.refcounts.get(w)@[j].count() == 1)) by {
                    old_self.alloc_set.get(w).lemma_view_len();
                    assert(prev_view[j] == (old_self.alloc_set.get(w).view()[j] && !(idxs@.subrange(
                        0,
                        k as int,
                    ).contains(j as usize) && j < old_self.refcounts.get(w)@.len()
                        && old_self.refcounts.get(w)@[j].count() == 1)));
                    if j != i {
                        assert(self.alloc_set.get(w).view()[j] == prev_view[j]);
                        assert(idxs@.subrange(0, (k + 1) as int).contains(j as usize) == idxs@.subrange(
                            0,
                            k as int,
                        ).contains(j as usize));
                    }
                }
                assert forall|j: int|
                    0 <= j < self.refcounts.get(w)@.len() && #[trigger] self.refcounts.get(
                        w,
                    )@[j].count() > 0 implies self.alloc_set.get(w).view()[j] by {
                    assert(old_self.refcounts.get(w)@[j].count() > 0);
                }
            }
            k = k + 1;
        }
        proof {
            assert(idxs@.subrange(0, N as int) =~= idxs@);
            assert(self.refcounts.get(8) == old_self.refcounts.get(8) || w == 8);
            assert(self.alloc_set.get(8) == old_self.alloc_set.get(8) || w == 8);
            assert(self.refcounts.get(16) == old_self.refcounts.get(16) || w == 16);
            assert(self.alloc_set.get(16) == old_self.alloc_set.get(16) || w == 16);
            assert(self.refcounts.get(32) == old_self.refcounts.get(32) || w == 32);
            assert(self.alloc_set.get(32) == old_self.alloc_set.get(32) || w == 32);
            assert(self.refcounts.get(64) == old_self.refcounts.get(64) || w == 64);
            assert(self.alloc_set.get(64) == old_self.alloc_set.get(64) || w == 64);
            assert(self.refcounts.get(128) == old_self.refcounts.get(128) || w == 128);
            assert(self.alloc_set.get(128) == old_self.alloc_set.get(128) || w == 128);
            Self::lemma_wf_update(old_self, *self, w);
            assert forall|v: nat|
                is_word_width(v) && v != w implies #[trigger] self.refs(v) == old_self.refs(v)
                && self.allocated(v) == old_self.allocated(v) by {
                assert(self.refcounts.get(v) == old_self.refcounts.get(v));
                assert(self.alloc_set.get(v) == old_self.alloc_set.get(v));
            }
        }
        let ghost fin = *self;
        proof {
            assert forall|v: nat|
                is_word_width(v) && v != W::spec_width() implies #[trigger] fin.refs(v) == old(self).refs(v)
                && fin.allocated(v) == old(self).allocated(v) by {
                assert(fin.refs(v) == old_self.refs(v));
            }
        }
    }

    fn clear(&mut self) {
        self.refcounts.u8.clear();
        self.refcounts.u16.clear();
        self.refcounts.u32.clear();
        self.refcounts.u64.clear();
        self.refcounts.u128.clear();
        self.alloc_set.u8.clear();
        self.alloc_set.u16.clear();
        self.alloc_set.u32.clear();
        self.alloc_set.u64.clear();
        self.alloc_set.u128.clear();
    }
}

impl<RC: RefCount> FlexibleMemoryManager<RC> {
    /// Increments the reference counts of the words of a composite word.
    fn increment_counts<W: Word, const N: usize>(&mut self, idx: WordIdx<W, N>)
        requires
            old(self).wf(),
            distinct(idx.spec_idxs()),
            forall|k: int|
                0 <= k < N ==> {
                    let i = #[trigger] idx.spec_idxs()[k] as int;
                    &&& i < old(self).refs(W::spec_width()).len()
                    &&& old(self).allocated(W::spec_width())[i]
                    &&& old(self).refs(W::spec_width())[i] < Self::max_ref()
                },
        ensures
            final(self).wf(),
            final(self).refs(W::spec_width()).len() == old(self).refs(W::spec_width()).len(),
            forall|i: int|
                0 <= i < old(self).refs(W::spec_width()).len() ==> #[trigger] final(self).refs(
                    W::spec_width(),
                )[i] == old(self).refs(W::spec_width())[i] + if idx.spec_idxs().contains(
                    i as usize,
                ) {
                    1int
                } else {
                    0
                },
            final(self).allocated(W::spec_width()) == old(self).allocated(W::spec_width()),
            forall|w: nat|
                is_word_width(w) && w != W::spec_width() ==> #[trigger] final(self).refs(w)
                    == old(self).refs(w) && final(self).allocated(w) == old(self).allocated(w),
            final(self).alloc_set == old(self).alloc_set,
            forall|v: nat|
                is_word_width(v) && v != W::spec_width() ==> #[trigger] final(self).refcounts.get(v)
                    == old(self).refcounts.get(v),
    {
        proof {
            W::lemma_width();
            idx.lemma_len();
        }
        let ghost w = W::spec_width();
        let ghost old_self = *self;
        let idxs = idx.into_array();
        let mut k: usize = 0;
        proof {
            assert(idxs@.subrange(0, 0) =~= Seq::<usize>::empty());
        }
        while k < N
            invariant
                k <= N,
                w == W::spec_width(),
                is_word_width(w),
                old_self == *old(self),
                old_self.wf(),
                idxs@ == idx.spec_idxs(),
                distinct(idxs@),
                self.alloc_set == old_self.alloc_set,
                self.refcounts.get(w)@.len() == old_self.refcounts.get(w)@.len(),
                forall|j: int|
                    0 <= j < N ==> {
                        let i = #[trigger] idxs@[j] as int;
                        &&& i < old_self.refcounts.get(w)@.len()
                        &&& old_self.alloc_set.get(w).view()[i]
                        &&& old_self.refcounts.get(w)@[i].count() < RC::max_count()
                    },
                forall|i: int|
                    0 <= i < old_self.refcounts.get(w)@.len() ==> #[trigger] self.refcounts.get(
                        w,
                    )@[i].count() == old_self.refcounts.get(w)@[i].count() + if idxs@.subrange(
                        0,
                        k as int,
                    ).contains(i as usize) {
                        1int
                    } else {
                        0
                    },
                forall|v: nat|
                    is_word_width(v) && v != w ==> #[trigger] self.refcounts.get(v)
                        == old_self.refcounts.get(v),
            decreases N - k,
        {
            let i = idxs[k];
            proof {
                if idxs@.subrange(0, k as int).contains(i) {
                    let t = choose|t: int| 0 <= t < k && idxs@.subrange(0, k as int)[t] == i;
                    assert(idxs@[t] == idxs@[k as int]);
                }
                assert(idxs@.subrange(0, (k + 1) as int) =~= idxs@.subrange(0, k as int).push(i));
                assert forall|y: usize| #[trigger] idxs@.subrange(0, (k + 1) as int).contains(y) == (
                idxs@.subrange(0, k as int).contains(y) || i == y) by {
                    lemma_contains_push(idxs@.subrange(0, k as int), i, y);
                }
            }
            let ghost prev = self.refcounts.get(w);
            let mut rc = self.get_refcount::<W>(i);
            rc.increase();
            self.set_refcount::<W>(i, rc);
            proof {
                assert forall|j: int|
                    0 <= j < old_self.refcounts.get(w)@.len() implies #[trigger] self.refcounts.get(
                    w,
                )@[j].count() == old_self.refcounts.get(w)@[j].count() + if idxs@.subrange(
                    0,
                    (k + 1) as int,
                ).contains(j as usize) {
                    1int
                } else {
                    0
                } by {
                    assert(prev.len() == prev@.len());
                    if j != i {
                        assert(self.refcounts.get(w)@[j] == prev@[j]);
                        assert(idxs@.subrange(0, (k + 1) as int).contains(j as usize) == idxs@.subrange(
                            0,
                            k as int,
                        ).contains(j as usize));
                    }
                }
            }
            k = k + 1;
        }
        proof {
            assert(idxs@.subrange(0, N as int) =~= idxs@);
            assert(Self::counts(self.refcounts.get(w)).len() == old_self.refs(w).len());
            Self::lemma_wf_type(old_self, w);
            assert forall|j: int|
                0 <= j < self.refcounts.get(w)@.len() && #[trigger] self.refcounts.get(w)@[j].count()
                    > 0 implies self.alloc_set.get(w).view()[j] by {
                assert(self.refcounts.get(w).len() == self.refcounts.get(w)@.len());
                if idxs@.contains(j as usize) {
                    let t = choose|t: int| 0 <= t < idxs@.len() && idxs@[t] == j as usize;
                    assert(idxs@[t] as int == j);
                } else {
                    assert(old_self.refcounts.get(w)@[j].count() > 0);
                }
            }
            Self::lemma_wf_update(old_self, *self, w);
            assert forall|v: nat|
                is_word_width(v) && v != w implies #[trigger] self.refs(v) == old_self.refs(v)
                && self.allocated(v) == old_self.allocated(v) by {}
        }
    }

    /// Allocates the `N` words of a composite word of word type `W`, leaving their reference
    /// counts at zero, and returns their index with the number of counters of the word type.
    fn allocate_uncounted<W: Word, const N: usize>(&mut self) -> (r: (WordIdx<W, N>, usize))
        requires
            old(self).wf(),
            old(self).allocated(W::spec_width()).len() + N < usize::MAX,
        ensures
            final(self).wf(),
            r.1 == final(self).refs(W::spec_width()).len(),
            distinct(r.0.spec_idxs()),
            forall|k: int|
                0 <= k < N ==> {
                    let i = #[trigger] r.0.spec_idxs()[k] as int;
                    &&& i < r.1
                    &&& final(self).allocated(W::spec_width())[i]
                    &&& final(self).refs(W::spec_width())[i] == 0
                    &&& (i < old(self).allocated(W::spec_width()).len() ==> !old(self).allocated(W::spec_width())[i])
                },
            final(self).allocated(W::spec_width()).len() <= old(self).allocated(
                W::spec_width(),
            ).len() + N,
            old(self).refs(W::spec_width()).len() <= final(self).refs(W::spec_width()).len(),
            forall|i: int|
                0 <= i < old(self).refs(W::spec_width()).len() ==> #[trigger] final(self).refs(W::spec_width())[i]
                    == old(self).refs(W::spec_width())[i],
            forall|i: int|
                old(self).refs(W::spec_width()).len() <= i < final(self).refs(W::spec_width()).len()
                    ==> #[trigger] final(self).refs(W::spec_width())[i] == 0,
            forall|w: nat|
                is_word_width(w) && w != W::spec_width() ==> #[trigger] final(self).refs(w)
                    == old(self).refs(w) && final(self).allocated(w) == old(self).allocated(w),
            forall|v: nat|
                is_word_width(v) && v != W::spec_width() ==> #[trigger] final(self).refcounts.get(v)
                    == old(self).refcounts.get(v) && final(self).alloc_set.get(v) == old(self).alloc_set.get(v),
    {
        proof {
            W::lemma_width();
        }
        let ghost w = W::spec_width();
        let ghost old_self = *self;
        let ghost old_view = self.alloc_set.get(w).view();
        proof {
            Self::lemma_wf_type(*self, w);
        }
        let mut idxs = [0usize; N];
        let mut k: usize = 0;
        while k < N
            invariant
                k <= N,
                w == W::spec_width(),
                is_word_width(w),
                old_self == *old(self),
                old_self.wf(),
                old_view == old_self.alloc_set.get(w).view(),
                old_view.len() + N < usize::MAX,
                self.refcounts == old_self.refcounts,
                Self::wf_type(self.refcounts.get(w), self.alloc_set.get(w)),
                self.alloc_set.get(w).view().len() <= old_view.len() + k,
                old_view.len() <= self.alloc_set.get(w).view().len(),
                forall|j: int|
                    0 <= j < old_view.len() && old_view[j] ==> #[trigger] self.alloc_set.get(
                        w,
                    ).view()[j],
                idxs@.len() == N,
                forall|a: int, b: int| 0 <= a < b < k ==> idxs@[a] != idxs@[b],
                forall|j: int|
                    0 <= j < k ==> {
                        let i = #[trigger] idxs@[j] as int;
                        &&& i < self.alloc_set.get(w).view().len()
                        &&& self.alloc_set.get(w).view()[i]
                        &&& (i < old_view.len() ==> !old_view[i])
                    },
                forall|v: nat|
                    is_word_width(v) && v != w ==> #[trigger] self.alloc_set.get(v)
                        == old_self.alloc_set.get(v),
            decreases N - k,
        {
            let ghost before = self.alloc_set.get(w).view();
            let i = self.allocate_index::<W>();
            proof {
                let after = self.alloc_set.get(w).view();
                assert forall|j: int| 0 <= j < k implies #[trigger] idxs@[j] != i by {
                    assert(before[idxs@[j] as int]);
                }
                assert forall|j: int| 0 <= j < before.len() && before[j] implies after[j] by {
                    if i < before.len() {
                        assert(after == before.update(i as int, true));
                    } else {
                        assert(after == before.push(true));
                    }
                }
                assert forall|j: int| 0 <= j < old_view.len() && old_view[j] implies #[trigger] after[j] by {
                    assert(before[j]);
                }
                assert(after.len() > i);
                assert(after[i as int]);
                assert(i < old_view.len() ==> !old_view[i as int]) by {
                    if i < old_view.len() && old_view[i as int] {
                        assert(before[i as int]);
                    }
                }
                assert forall|j: int| 0 <= j < k implies {
                    let ii = #[trigger] idxs@[j] as int;
                    &&& ii < after.len()
                    &&& after[ii]
                } by {
                    assert(before[idxs@[j] as int]);
                }
                assert forall|j: int|
                    0 <= j < self.refcounts.get(w)@.len() && #[trigger] self.refcounts.get(
                        w,
                    )@[j].count() > 0 implies after[j] by {
                    assert(before[j]);
                }
            }
            idxs[k] = i;
            k = k + 1;
        }
        let idx = WordIdx::new(idxs);
        proof {
            idx.lemma_len();
        }
        let vec_len = self.extend_refcounts_vec_if_needed(idx);
        proof {
            Self::lemma_wf_update(old_self, *self, w);
            assert forall|v: nat|
                is_word_width(v) && v != w implies #[trigger] self.refs(v) == old_self.refs(v)
                && self.allocated(v) == old_self.allocated(v) by {}
            assert forall|j: int| 0 <= j < N implies {
                let i = #[trigger] idx.spec_idxs()[j] as int;
                &&& i < vec_len
                &&& self.allocated(w)[i]
                &&& self.refs(w)[i] == 0
                &&& (i < old_self.allocated(w).len() ==> !old_self.allocated(w)[i])
            } by {
                let i = idx.spec_idxs()[j] as int;
                assert(idxs@[j] == idx.spec_idxs()[j]);
                if i < old_self.refcounts.get(w)@.len() {
                    assert(old_self.refcounts.get(w)@[i].count() == 0);
                }
            }
        }
        (idx, vec_len)
    }
}

} // verus!
