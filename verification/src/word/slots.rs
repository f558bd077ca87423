//! Word-level access to word stores, and the bits of composite words stored at given indices.
use crate::memory::memory_manager::distinct;
use crate::word::bitseq::{lemma_nat_bits, nat_bits};
use vstd::arithmetic::power2::pow2;
use crate::word::by_word_type::is_word_width;
use crate::word::composite::CompositeWord;
use crate::word::word::Word;
use crate::word::word_idx::WordIdx;
use crate::word::words::Words;
use vstd::prelude::*;

verus! {

/// The bits of the composite word made of the words of width `w` at positions `idxs`, where
/// `vals` are the values of the words of that width.
pub open spec fn slot_bits(vals: Seq<nat>, w: nat, idxs: Seq<usize>) -> Seq<bool> {
    Seq::new(idxs.len() * w, |k: int| nat_bits(vals[idxs[k / (w as int)] as int], w)[k % (w as int)])
}

/// Whether the positions of an index are distinct and below `len`.
pub open spec fn idx_in_range(idxs: Seq<usize>, len: nat) -> bool {
    &&& forall|k: int| 0 <= k < idxs.len() ==> #[trigger] idxs[k] < len
    &&& distinct(idxs)
}

/// The bits of a composite word are those of its words' values.
pub proof fn lemma_cbits_slots<W: Word, const N: usize>(c: CompositeWord<W, N>, vals: Seq<nat>, idxs: Seq<usize>)
    requires
        idxs.len() == N,
        forall|k: int| 0 <= k < N ==> #[trigger] c.words()[k].value() == vals[idxs[k] as int],
    ensures
        c.cbits() == slot_bits(vals, W::spec_width(), idxs),
{
    let w = W::spec_width() as int;
    W::lemma_width();
    assert forall|k: int| 0 <= k < N implies #[trigger] c.words()[k].bits() == nat_bits(
        vals[idxs[k] as int],
        W::spec_width(),
    ) by {
        c.words()[k].lemma_word_bits();
    }
    assert(c.cbits().len() == slot_bits(vals, W::spec_width(), idxs).len()) by {
        vstd::arithmetic::mul::lemma_mul_is_commutative(N as int, w);
    }
    assert forall|k: int| 0 <= k < c.cbits().len() implies c.cbits()[k] == slot_bits(
        vals,
        W::spec_width(),
        idxs,
    )[k] by {
        assert(0 <= k / w < N) by (nonlinear_arith)
            requires
                0 <= k < N * w,
                w > 0,
        ;
        assert(0 <= k % w < w) by (nonlinear_arith)
            requires
                w > 0,
        ;
    }
    assert(c.cbits() =~= slot_bits(vals, W::spec_width(), idxs));
}

/// Bit `j` of the `k`-th word of [slot_bits] is bit `j` of the value in slot `idxs[k]`.
pub proof fn lemma_slot_bits_word(vals: Seq<nat>, w: nat, idxs: Seq<usize>, k: int, j: int)
    requires
        0 <= k < idxs.len(),
        0 <= j < w,
    ensures
        0 <= k * w + j < slot_bits(vals, w, idxs).len(),
        slot_bits(vals, w, idxs)[k * w + j] == nat_bits(vals[idxs[k] as int], w)[j],
{
    crate::word::composite::lemma_limb_index(k, j, w as int);
    vstd::arithmetic::mul::lemma_mul_inequality(k + 1, idxs.len() as int, w as int);
    vstd::arithmetic::mul::lemma_mul_is_distributive_add_other_way(w as int, k, 1);
    vstd::arithmetic::mul::lemma_mul_is_commutative(w as int, idxs.len() as int);
}

/// Composite words with the same [slot_bits] have the same value in corresponding slots,
/// when the values are below `2^w`.
pub proof fn lemma_slot_bits_vals(v1: Seq<nat>, i1: Seq<usize>, v2: Seq<nat>, i2: Seq<usize>, w: nat, k: int)
    requires
        i1.len() == i2.len(),
        0 <= k < i1.len(),
        v1[i1[k] as int] < pow2(w),
        v2[i2[k] as int] < pow2(w),
        slot_bits(v1, w, i1) == slot_bits(v2, w, i2),
    ensures
        v1[i1[k] as int] == v2[i2[k] as int],
{
    let a = v1[i1[k] as int];
    let b = v2[i2[k] as int];
    assert forall|j: int| 0 <= j < w implies nat_bits(a, w)[j] == nat_bits(b, w)[j] by {
        lemma_slot_bits_word(v1, w, i1, k, j);
        lemma_slot_bits_word(v2, w, i2, k, j);
    }
    assert(nat_bits(a, w) =~= nat_bits(b, w));
    lemma_nat_bits(a, w);
    lemma_nat_bits(b, w);
}

/// The bits of a composite word held in one slot are those of the value in the slot.
pub proof fn lemma_slot_bits_single(vals: Seq<nat>, w: nat, idxs: Seq<usize>)
    requires
        idxs.len() == 1,
    ensures
        slot_bits(vals, w, idxs) == nat_bits(vals[idxs[0] as int], w),
{
    assert forall|j: int| 0 <= j < w implies slot_bits(vals, w, idxs)[j] == nat_bits(vals[idxs[0] as int], w)[j] by {
        lemma_slot_bits_word(vals, w, idxs, 0, j);
    }
    assert(slot_bits(vals, w, idxs) =~= nat_bits(vals[idxs[0] as int], w));
}

impl Words {
    /// The word of type `W` at position `i`.
    pub fn get_word<W: Word>(&self, i: usize) -> (r: W)
        requires
            i < W::vec_in(*self)@.len(),
        ensures
            r == W::vec_in(*self)@[i as int],
            r.value() == self.vals(W::spec_width())[i as int],
    {
        proof {
            W::lemma_with_vec(*self, W::vec_in(*self));
        }
        let v = self.as_vec::<W>();
        v[i]
    }

    /// Replaces the word of type `W` at position `i`.
    pub fn set_word<W: Word>(&mut self, i: usize, x: W)
        requires
            i < W::vec_in(*old(self))@.len(),
        ensures
            W::vec_in(*final(self))@ == W::vec_in(*old(self))@.update(i as int, x),
            final(self).vals(W::spec_width()) == old(self).vals(W::spec_width()).update(i as int, x.value()),
            forall|w: nat| is_word_width(w) && w != W::spec_width() ==> #[trigger] final(self).vals(w) == old(self).vals(w),
    {
        let ghost before = *self;
        let v = self.as_vec_mut::<W>();
        v.set(i, x);
        proof {
            W::lemma_with_vec(before, W::vec_in(before));
            W::lemma_with_vec(before, *v);
            W::lemma_with_vec(*self, W::vec_in(*self));
            assert(self.vals(W::spec_width()) =~= before.vals(W::spec_width()).update(i as int, x.value()));
        }
    }

    /// Extends the words of type `W` with zero words up to the given number of words.
    pub fn grow_words<W: Word>(&mut self, new_len: usize)
        requires
            W::vec_in(*old(self))@.len() <= new_len,
        ensures
            W::vec_in(*final(self))@.len() == new_len,
            final(self).vals(W::spec_width()).len() == new_len,
            forall|i: int| 0 <= i < W::vec_in(*old(self))@.len() ==> #[trigger] final(self).vals(W::spec_width())[i] == old(self).vals(W::spec_width())[i],
            forall|i: int| W::vec_in(*old(self))@.len() <= i < new_len ==> #[trigger] final(self).vals(W::spec_width())[i] == 0,
            forall|w: nat| is_word_width(w) && w != W::spec_width() ==> #[trigger] final(self).vals(w) == old(self).vals(w),
    {
        let ghost before = *self;
        let zero = W::zero();
        let v = self.as_vec_mut::<W>();
        let ghost start = v@;
        while v.len() < new_len
            invariant
                start.len() <= v@.len() <= new_len,
                forall|i: int| 0 <= i < start.len() ==> #[trigger] v@[i] == start[i],
                forall|i: int| start.len() <= i < v@.len() ==> #[trigger] v@[i] == zero,
            decreases new_len - v@.len(),
        {
            v.push(zero);
        }
        proof {
            W::lemma_with_vec(before, W::vec_in(before));
            W::lemma_with_vec(before, *v);
            W::lemma_with_vec(*self, W::vec_in(*self));
            zero.lemma_word_bits();
        }
    }

    /// The composite word at the given index.
    pub fn read_composite<W: Word, const N: usize>(&self, idx: WordIdx<W, N>) -> (r: CompositeWord<W, N>)
        requires
            forall|k: int| 0 <= k < N ==> #[trigger] idx.spec_idxs()[k] < W::vec_in(*self)@.len(),
        ensures
            forall|k: int| 0 <= k < N ==> #[trigger] r.words()[k].value() == self.vals(W::spec_width())[idx.spec_idxs()[k] as int],
            r.cbits() == slot_bits(self.vals(W::spec_width()), W::spec_width(), idx.spec_idxs()),
    {
        let idxs = idx.into_array();
        proof {
            idx.lemma_len();
        }
        let mut res = [W::zero(); N];
        let mut k: usize = 0;
        while k < N
            invariant
                k <= N,
                idxs@ == idx.spec_idxs(),
                idxs@.len() == N,
                res@.len() == N,
                forall|j: int| 0 <= j < N ==> #[trigger] idx.spec_idxs()[j] < W::vec_in(*self)@.len(),
                forall|j: int| 0 <= j < k ==> #[trigger] res@[j].value() == self.vals(W::spec_width())[idxs@[j] as int],
            decreases N - k,
        {
            res[k] = self.get_word::<W>(idxs[k]);
            k = k + 1;
        }
        let r = CompositeWord::<W, N>::from_le_words(res);
        proof {
            lemma_cbits_slots(r, self.vals(W::spec_width()), idx.spec_idxs());
        }
        r
    }

    /// Writes the composite word at the given index.
    pub fn write_composite<W: Word, const N: usize>(&mut self, idx: WordIdx<W, N>, c: CompositeWord<W, N>)
        requires
            idx_in_range(idx.spec_idxs(), W::vec_in(*old(self))@.len()),
        ensures
            W::vec_in(*final(self))@.len() == W::vec_in(*old(self))@.len(),
            final(self).vals(W::spec_width()).len() == old(self).vals(W::spec_width()).len(),
            forall|i: int| 0 <= i < old(self).vals(W::spec_width()).len() && !idx.spec_idxs().contains(i as usize)
                ==> #[trigger] final(self).vals(W::spec_width())[i] == old(self).vals(W::spec_width())[i],
            forall|k: int| 0 <= k < N ==> #[trigger] final(self).vals(W::spec_width())[idx.spec_idxs()[k] as int] == c.words()[k].value(),
            slot_bits(final(self).vals(W::spec_width()), W::spec_width(), idx.spec_idxs()) == c.cbits(),
            forall|w: nat| is_word_width(w) && w != W::spec_width() ==> #[trigger] final(self).vals(w) == old(self).vals(w),
    {
        let idxs = idx.into_array();
        let words = c.to_le_words();
        proof {
            idx.lemma_len();
            W::lemma_with_vec(*self, W::vec_in(*self));
        }
        let mut k: usize = 0;
        while k < N
            invariant
                k <= N,
                idxs@ == idx.spec_idxs(),
                idxs@.len() == N,
                words@ == c.words(),
                idx_in_range(idx.spec_idxs(), W::vec_in(*old(self))@.len()),
                W::vec_in(*self)@.len() == W::vec_in(*old(self))@.len(),
                self.vals(W::spec_width()).len() == old(self).vals(W::spec_width()).len(),
                forall|i: int| 0 <= i < old(self).vals(W::spec_width()).len() ==> #[trigger] self.vals(W::spec_width())[i]
                    == old(self).vals(W::spec_width())[i] || exists|j: int| 0 <= j < k && idxs@[j] as int == i,
                forall|j: int| 0 <= j < k ==> #[trigger] self.vals(W::spec_width())[idxs@[j] as int] == c.words()[j].value(),
                forall|w: nat| is_word_width(w) && w != W::spec_width() ==> #[trigger] self.vals(w) == old(self).vals(w),
            decreases N - k,
        {
            let ghost before = *self;
            self.set_word::<W>(idxs[k], words[k]);
            proof {
                W::lemma_with_vec(before, W::vec_in(before));
                assert(self.vals(W::spec_width()).len() == before.vals(W::spec_width()).len());
                assert forall|i: int| 0 <= i < old(self).vals(W::spec_width()).len() implies #[trigger] self.vals(W::spec_width())[i]
                    == old(self).vals(W::spec_width())[i] || exists|j: int| 0 <= j < k + 1 && idxs@[j] as int == i by {
                    if i != idxs@[k as int] as int {
                        assert(self.vals(W::spec_width())[i] == before.vals(W::spec_width())[i]);
                        if before.vals(W::spec_width())[i] != old(self).vals(W::spec_width())[i] {
                            let j = choose|j: int| 0 <= j < k && idxs@[j] as int == i;
                            assert(0 <= j < k + 1 && idxs@[j] as int == i);
                        }
                    }
                }
            }
            k = k + 1;
        }
        proof {
            assert forall|i: int| 0 <= i < old(self).vals(W::spec_width()).len() && !idx.spec_idxs().contains(i as usize)
                implies #[trigger] self.vals(W::spec_width())[i] == old(self).vals(W::spec_width())[i] by {
                if self.vals(W::spec_width())[i] != old(self).vals(W::spec_width())[i] {
                    let j = choose|j: int| 0 <= j < N && idxs@[j] as int == i;
                    assert(idx.spec_idxs()[j] == i as usize);
                }
            }
            lemma_cbits_slots(c, self.vals(W::spec_width()), idx.spec_idxs());
        }
    }
}

} // verus!
