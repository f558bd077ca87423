//! Conversions of words between word types.
use crate::backend::backend::{lemma_word_bits_len, live_idx, uses, word_bits, word_val, Backend, SlotModel};
use crate::backend::boolean_word_ref::{lemma_result_live, BooleanWordRef};
use crate::backend::frontend::{idx_count, lemma_live_fresh, lemma_produces_keeps, room, room_all, Frontend};
use crate::backend::mul_gadgets::{grows_by, lemma_grows_trans};
use crate::backend::word_ref::WordRef;
use crate::word::by_word_type::is_word_width;
use crate::word::bitseq::{bits_val, bool_nat, lemma_bits_val_lsb, lemma_nat_bits};
use crate::word::slots::lemma_slot_bits_single;
use crate::word::word::Word;
use crate::word::word_idx::WordIdx;
use vstd::arithmetic::power2::pow2;
use vstd::prelude::*;

verus! {

impl<B: Backend, W: Word> WordRef<B, W, 1> {
    /// Conversion to another word type, truncating to a narrower type and zero-extending to a
    /// wider one: the value of the result is that of this word modulo two to the width of the
    /// new type. The word is consumed.
    pub fn cast<T: Word>(self, fe: &mut Frontend<B>) -> (r: WordRef<B, T, 1>)
        requires
            old(fe).wf(),
            live_idx(old(fe).model(), self.spec_idx()),
            room::<T, 1>(old(fe).model()),
        ensures
            final(fe).wf(),
            final(fe).spec_backend().key() == old(fe).spec_backend().key(),
            live_idx(final(fe).model(), r.spec_idx()),
            B::tracks_values() ==> word_val(final(fe).model(), r.spec_idx()) == word_val(old(fe).model(), self.spec_idx()) % pow2(T::spec_width()),
            grows_by(old(fe).model(), final(fe).model(), 1),
    {
        let ghost m0 = fe.model();
        let ghost x = self.spec_idx();
        proof {
            W::lemma_width();
            T::lemma_width();
            fe.backend.lemma_model();
            x.lemma_len();
        }
        let out = fe.fresh::<T, 1>();
        let ghost m1 = fe.model();
        let ghost o = out.spec_idx();
        let ghost s = x.spec_idxs()[0] as int;
        proof {
            o.lemma_len();
            lemma_produces_keeps(m0, m1, Seq::<WordIdx<T, 1>>::empty(), o, x);
            assert(uses(x, W::spec_width(), s)) by {
                assert(x.spec_idxs()[0] == s as usize);
            }
            lemma_live_fresh(m0, x, o, s);
            assert(m1.refs.get(W::spec_width())[s] >= 1);
        }
        let xi = self.idx();
        let oi = out.idx();
        fe.backend.cast::<W, T, 1>(xi, oi);
        let ghost m2 = fe.model();
        proof {
            assert(m2.refs.get(W::spec_width()) == m1.refs.get(W::spec_width()));
            assert(live_idx(m2, x));
        }
        self.release(fe);
        proof {
            let m3 = fe.model();
            let t = T::spec_width();
            let oo = o.spec_idxs()[0] as int;
            assert(uses(o, t, oo)) by {
                assert(o.spec_idxs()[0] == oo as usize);
            }
            assert(m1.refs.get(t)[oo] == 1);
            assert(m2.refs.get(t) == m1.refs.get(t));
            if t == W::spec_width() {
                assert(!uses(x, t, oo)) by {
                    lemma_live_fresh(m0, x, o, s);
                    if uses(x, t, oo) {
                        assert(x.spec_idxs().contains(oo as usize));
                        assert(x.spec_idxs()[0] == oo as usize);
                    }
                }
                assert(m3.refs.get(t)[oo] == m2.refs.get(t)[oo]);
            } else {
                assert(m3.refs.get(t) == m2.refs.get(t));
            }
            assert(live_idx(m3, o));
            assert forall|v: nat| is_word_width(v) implies #[trigger] m3.allocated.get(v).len() <= m0.allocated.get(v).len() + 1 by {
                assert(m2.allocated.get(v) == m1.allocated.get(v));
            }
            if B::tracks_values() {
                let v = m0.vals.get(W::spec_width())[s];
                assert(m1.vals.get(W::spec_width())[s] == v);
                assert(v < pow2(W::spec_width()));
                assert(m3.vals.get(t) == m2.vals.get(t));
                assert(m2.vals.get(t)[oo] == v % pow2(t));
                vstd::arithmetic::power2::lemma_pow2_pos(t);
                lemma_slot_bits_single(m0.vals.get(W::spec_width()), W::spec_width(), x.spec_idxs());
                lemma_slot_bits_single(m3.vals.get(t), t, o.spec_idxs());
                lemma_nat_bits(v, W::spec_width());
                lemma_nat_bits(v % pow2(t), t);
            }
        }
        out
    }
}

impl<B: Backend, W: Word> WordRef<B, W, 1> {
    /// The lowest bit of this word, as a boolean: the word is cast to a byte, which is ANDed
    /// with one. The word is consumed.
    pub fn lsb(self, fe: &mut Frontend<B>) -> (r: BooleanWordRef<B>)
        requires
            old(fe).wf(),
            live_idx(old(fe).model(), self.spec_idx()),
            room_all(old(fe).model(), 2),
        ensures
            final(fe).wf(),
            final(fe).spec_backend().key() == old(fe).spec_backend().key(),
            r.holds(final(fe).model()),
            B::tracks_values() ==> r.value(final(fe).model()) == word_bits(old(fe).model(), self.spec_idx())[0],
            grows_by(old(fe).model(), final(fe).model(), 2),
    {
        let ghost m0 = fe.model();
        let b = self.cast::<u8>(fe);
        let ghost m1 = fe.model();
        proof {
            assert forall|v: nat| is_word_width(v) implies #[trigger] m1.allocated.get(v).len() + 1 < usize::MAX by {
                assert(m1.allocated.get(v).len() <= m0.allocated.get(v).len() + 1);
            }
            if B::tracks_values() {
                lemma_low_bit_cast(m0, self.spec_idx(), m1, b.spec_idx());
            }
        }
        let r = b.low_bit(fe);
        proof {
            lemma_grows_trans(m0, m1, fe.model(), 1, 1);
        }
        r
    }

    /// The highest bit of this word, as a boolean: the word is shifted right by its width less
    /// one, and the lowest bit of the result is taken. The word is consumed.
    pub fn msb(self, fe: &mut Frontend<B>) -> (r: BooleanWordRef<B>)
        requires
            old(fe).wf(),
            live_idx(old(fe).model(), self.spec_idx()),
            room_all(old(fe).model(), 3),
        ensures
            final(fe).wf(),
            final(fe).spec_backend().key() == old(fe).spec_backend().key(),
            r.holds(final(fe).model()),
            B::tracks_values() ==> r.value(final(fe).model()) == word_bits(old(fe).model(), self.spec_idx())[W::spec_width() - 1],
            grows_by(old(fe).model(), final(fe).model(), 3),
    {
        let ghost m0 = fe.model();
        let ghost x = self.spec_idx();
        proof {
            W::lemma_width();
        }
        let s = self.unbounded_shr(W::width() - 1, fe);
        let ghost m1 = fe.model();
        proof {
            lemma_result_live(m0, m1, idx_count(x), 1, s.spec_idx());
            assert forall|v: nat| is_word_width(v) implies #[trigger] m1.allocated.get(v).len() + 2 < usize::MAX by {
                assert(m1.allocated.get(v).len() <= m0.allocated.get(v).len() + 1);
            }
            if B::tracks_values() {
                lemma_word_bits_len(m0, x);
                assert(word_bits(m1, s.spec_idx())[0] == word_bits(m0, x)[W::spec_width() - 1]);
            }
        }
        let r = s.lsb(fe);
        proof {
            assert(grows_by(m0, m1, 1));
            lemma_grows_trans(m0, m1, fe.model(), 1, 2);
        }
        r
    }

    /// The bit at the given position, least significant first, as a boolean: the word is
    /// shifted right by the position and the lowest bit of the result is taken, so that a
    /// position beyond the width gives false. The word is consumed.
    pub fn bit_at(self, idx: usize, fe: &mut Frontend<B>) -> (r: BooleanWordRef<B>)
        requires
            old(fe).wf(),
            live_idx(old(fe).model(), self.spec_idx()),
            room_all(old(fe).model(), 3),
        ensures
            final(fe).wf(),
            final(fe).spec_backend().key() == old(fe).spec_backend().key(),
            r.holds(final(fe).model()),
            B::tracks_values() ==> r.value(final(fe).model()) == (idx < W::spec_width() && word_bits(old(fe).model(), self.spec_idx())[idx as int]),
            grows_by(old(fe).model(), final(fe).model(), 3),
    {
        let ghost m0 = fe.model();
        let ghost x = self.spec_idx();
        proof {
            W::lemma_width();
        }
        let s = self.unbounded_shr(idx, fe);
        let ghost m1 = fe.model();
        proof {
            lemma_result_live(m0, m1, idx_count(x), 1, s.spec_idx());
            assert forall|v: nat| is_word_width(v) implies #[trigger] m1.allocated.get(v).len() + 2 < usize::MAX by {
                assert(m1.allocated.get(v).len() <= m0.allocated.get(v).len() + 1);
            }
            if B::tracks_values() {
                lemma_word_bits_len(m0, x);
                assert(word_bits(m1, s.spec_idx())[0] == (idx < W::spec_width() && word_bits(m0, x)[idx as int]));
            }
        }
        let r = s.lsb(fe);
        proof {
            assert(grows_by(m0, m1, 1));
            lemma_grows_trans(m0, m1, fe.model(), 1, 2);
        }
        r
    }
}

/// Bit 0 of a word and of its cast to a byte agree.
proof fn lemma_low_bit_cast<W: Word>(m0: SlotModel, x: WordIdx<W, 1>, m1: SlotModel, b: WordIdx<u8, 1>)
    requires
        word_val(m1, b) == word_val(m0, x) % pow2(8),
    ensures
        word_bits(m1, b)[0] == word_bits(m0, x)[0],
{
    W::lemma_width();
    u8::lemma_width();
    x.lemma_len();
    b.lemma_len();
    lemma_word_bits_len(m0, x);
    lemma_word_bits_len(m1, b);
    let s0 = word_bits(m0, x);
    let s1 = word_bits(m1, b);
    lemma_bits_val_lsb(s0);
    lemma_bits_val_lsb(s1);
    crate::word::prim::lemma_pow2_widths();
    vstd::arithmetic::div_mod::lemma_mod_mod(bits_val(s0) as int, 2, 128);
    assert(bits_val(s1) % 2 == bool_nat(s1[0]));
    assert(bits_val(s0) % 2 == bool_nat(s0[0]));
}

} // verus!
