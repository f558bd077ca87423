//! Shift, multiplication, equality and comparison gadgets built from the word operations.
use crate::backend::backend::{lemma_word_bits_len, live_idx, model_ok, shape_ok, uses, word_bits, word_val, Backend, SlotModel};
use crate::backend::evolution::{apart, lemma_evolves_live, lemma_evolves_room, lemma_release_apart};
use crate::backend::frontend::{add_count, count_uses, evolves, fits, idx_count, kept, lemma_produces_evolves, room_all, seq_count, Frontend};
use crate::backend::boolean_word_ref::BooleanWordRef;
use crate::backend::word_ref::WordRef;
use crate::word::bitseq::{bits_val, bool_nat, carry_at, lemma_bits_val_lsb, lemma_bits_val_not, lemma_bits_val_injective, lemma_bits_val_zero_iff, lemma_bits_val_one, lemma_bits_val_zeros, seq_add_carry, lemma_bits_val_bound, lemma_bits_val_shl, lemma_bits_val_shr, seq_add, seq_and, seq_not, seq_rotl, seq_shl, seq_shr, seq_xor, seq_zeros};
use crate::backend::word_ref::{BinOp, UnOp};
use crate::word::by_word_type::is_word_width;
use crate::word::composite::{lemma_add_value, lemma_double_mod, lemma_mul_step, lemma_split_sum, CompositeWord};
use crate::word::word::Word;
use crate::word::word_idx::WordIdx;
use vstd::arithmetic::power2::pow2;
use vstd::prelude::*;

verus! {

/// Two live indices holding no common slot can both be consumed.
proof fn lemma_fits_pair<W: Word, const N: usize>(m: SlotModel, x: WordIdx<W, N>, y: WordIdx<W, N>)
    requires
        model_ok(m),
        live_idx(m, x),
        live_idx(m, y),
        apart(x, y),
    ensures
        fits(m, add_count(idx_count(x), idx_count(y))),
{
    W::lemma_width();
    x.lemma_len();
    y.lemma_len();
    assert forall|v: nat, i: int| is_word_width(v) && 0 <= i < m.refs.get(v).len() implies #[trigger] add_count(idx_count(x), idx_count(y))(v, i) <= m.refs.get(v)[i] by {
        assert(m.refs.get(v).len() <= m.allocated.get(v).len());
        if uses(x, v, i) {
            let k = choose|k: int| 0 <= k < x.spec_idxs().len() && x.spec_idxs()[k] == i as usize;
            assert(x.spec_idxs()[k] as int == i);
            assert(m.refs.get(W::spec_width())[x.spec_idxs()[k] as int] >= 1);
        } else if uses(y, v, i) {
            let k = choose|k: int| 0 <= k < y.spec_idxs().len() && y.spec_idxs()[k] == i as usize;
            assert(y.spec_idxs()[k] as int == i);
            assert(m.refs.get(W::spec_width())[y.spec_idxs()[k] as int] >= 1);
        }
    }
}

/// A live index and an index referenced at least twice, holding no common slot, can be
/// consumed with the second counted twice.
proof fn lemma_fits_pair_twice<W: Word, const N: usize>(m: SlotModel, x: WordIdx<W, N>, y: WordIdx<W, N>)
    requires
        model_ok(m),
        live_idx(m, x),
        live_idx(m, y),
        forall|k: int| 0 <= k < N ==> #[trigger] m.refs.get(W::spec_width())[y.spec_idxs()[k] as int] >= 2,
        apart(x, y),
    ensures
        fits(m, add_count(add_count(idx_count(x), idx_count(y)), idx_count(y))),
{
    W::lemma_width();
    x.lemma_len();
    y.lemma_len();
    assert forall|v: nat, i: int| is_word_width(v) && 0 <= i < m.refs.get(v).len() implies #[trigger] add_count(add_count(idx_count(x), idx_count(y)), idx_count(y))(v, i) <= m.refs.get(v)[i] by {
        assert(m.refs.get(v).len() <= m.allocated.get(v).len());
        if uses(x, v, i) {
            let k = choose|k: int| 0 <= k < x.spec_idxs().len() && x.spec_idxs()[k] == i as usize;
            assert(x.spec_idxs()[k] as int == i);
            assert(m.refs.get(W::spec_width())[x.spec_idxs()[k] as int] >= 1);
        } else if uses(y, v, i) {
            let k = choose|k: int| 0 <= k < y.spec_idxs().len() && y.spec_idxs()[k] == i as usize;
            assert(y.spec_idxs()[k] as int == i);
            assert(m.refs.get(W::spec_width())[y.spec_idxs()[k] as int] >= 2);
        }
    }
}

/// A live index can be consumed.
proof fn lemma_fits_single<W: Word, const N: usize>(m: SlotModel, x: WordIdx<W, N>)
    requires
        model_ok(m),
        live_idx(m, x),
    ensures
        fits(m, add_count(seq_count(Seq::<WordIdx<W, N>>::empty()), idx_count(x))),
{
    W::lemma_width();
    x.lemma_len();
    assert forall|v: nat, i: int| #[trigger] add_count(seq_count(Seq::<WordIdx<W, N>>::empty()), idx_count(x))(v, i) >= 0 by {
        assert(count_uses(Seq::<WordIdx<W, N>>::empty(), v, i) == 0);
    }
    assert forall|v: nat, i: int| is_word_width(v) && 0 <= i < m.refs.get(v).len() implies #[trigger] add_count(seq_count(Seq::<WordIdx<W, N>>::empty()), idx_count(x))(v, i) <= m.refs.get(v)[i] by {
        assert(count_uses(Seq::<WordIdx<W, N>>::empty(), v, i) == 0);
        assert(m.refs.get(v).len() <= m.allocated.get(v).len());
        if uses(x, v, i) {
            let k = choose|k: int| 0 <= k < x.spec_idxs().len() && x.spec_idxs()[k] == i as usize;
            assert(x.spec_idxs()[k] as int == i);
            assert(m.refs.get(W::spec_width())[x.spec_idxs()[k] as int] >= 1);
        }
    }
}

/// The slots of a live index kept through an evolution that drops `d` references lose `d`.
proof fn lemma_kept_refs<V: Word, const M: usize, U: Word, const L: usize>(
    a: SlotModel,
    b: SlotModel,
    d: spec_fn(nat, int) -> int,
    g: nat,
    r: WordIdx<U, L>,
    x: WordIdx<V, M>,
)
    requires
        evolves(a, b, d, g, r),
        live_idx(a, x),
        forall|k: int| 0 <= k < M ==> #[trigger] a.refs.get(V::spec_width())[x.spec_idxs()[k] as int] > d(V::spec_width(), x.spec_idxs()[k] as int),
    ensures
        forall|k: int| 0 <= k < M ==> #[trigger] b.refs.get(V::spec_width())[x.spec_idxs()[k] as int]
            == a.refs.get(V::spec_width())[x.spec_idxs()[k] as int] - d(V::spec_width(), x.spec_idxs()[k] as int),
{
    V::lemma_width();
    x.lemma_len();
    assert forall|k: int| 0 <= k < M implies #[trigger] b.refs.get(V::spec_width())[x.spec_idxs()[k] as int]
        == a.refs.get(V::spec_width())[x.spec_idxs()[k] as int] - d(V::spec_width(), x.spec_idxs()[k] as int) by {
        assert(kept(a, d, V::spec_width(), x.spec_idxs()[k] as int));
    }
}

/// A live index referenced at least twice can be consumed twice.
proof fn lemma_fits_twice<W: Word, const N: usize>(m: SlotModel, x: WordIdx<W, N>)
    requires
        model_ok(m),
        live_idx(m, x),
        forall|k: int| 0 <= k < N ==> #[trigger] m.refs.get(W::spec_width())[x.spec_idxs()[k] as int] >= 2,
    ensures
        fits(m, add_count(idx_count(x), idx_count(x))),
{
    W::lemma_width();
    x.lemma_len();
    assert forall|v: nat, i: int| is_word_width(v) && 0 <= i < m.refs.get(v).len() implies #[trigger] add_count(idx_count(x), idx_count(x))(v, i) <= m.refs.get(v)[i] by {
        assert(m.refs.get(v).len() <= m.allocated.get(v).len());
        if uses(x, v, i) {
            let k = choose|k: int| 0 <= k < x.spec_idxs().len() && x.spec_idxs()[k] == i as usize;
            assert(x.spec_idxs()[k] as int == i);
            assert(m.refs.get(W::spec_width())[x.spec_idxs()[k] as int] >= 2);
        }
    }
}

/// The result of an evolution is live, and referenced once.
proof fn lemma_fresh<V: Word, const M: usize>(a: SlotModel, b: SlotModel, cnt: spec_fn(nat, int) -> int, g: nat, r: WordIdx<V, M>)
    requires
        evolves(a, b, cnt, g, r),
    ensures
        live_idx(b, r),
        forall|k: int| 0 <= k < M ==> #[trigger] b.refs.get(V::spec_width())[r.spec_idxs()[k] as int] == 1,
{
    V::lemma_width();
    r.lemma_len();
    assert forall|k: int| 0 <= k < M implies #[trigger] b.refs.get(V::spec_width())[r.spec_idxs()[k] as int] >= 1 by {
        assert(b.refs.get(V::spec_width())[r.spec_idxs()[k] as int] == 1);
    }
}

/// A live index apart from a released one stays live.
proof fn lemma_release_live<V: Word, const M: usize, U: Word, const L: usize>(b: SlotModel, c: SlotModel, x: WordIdx<V, M>, y: WordIdx<U, L>)
    requires
        crate::backend::backend::recounts(b, c, x, -1),
        apart(x, y),
        live_idx(b, y),
    ensures
        live_idx(c, y),
{
    U::lemma_width();
    V::lemma_width();
    y.lemma_len();
    crate::backend::evolution::lemma_release_apart(b, c, x, y);
    assert forall|k: int| 0 <= k < L implies #[trigger] c.refs.get(U::spec_width())[y.spec_idxs()[k] as int] >= 1 by {
        let i = y.spec_idxs()[k] as int;
        assert(uses(y, U::spec_width(), i)) by {
            assert(y.spec_idxs()[k] == i as usize);
        }
        assert(!uses(x, U::spec_width(), i));
        assert(b.refs.get(U::spec_width())[i] >= 1);
        if U::spec_width() != V::spec_width() {
            assert(c.refs.get(U::spec_width()) == b.refs.get(U::spec_width()));
        }
    }
}

/// The bits shifted out of a word of width `n` by a left shift of `s`, brought down to the
/// low end: bit `k` is bit `k + n - s` of the word, where that is a bit of it.
pub open spec fn shifted_out(a: Seq<bool>, s: int) -> Seq<bool> {
    Seq::new(a.len(), |k: int| 0 <= k + a.len() - s < a.len() && a[k + a.len() - s])
}

impl<B: Backend, W: Word, const N: usize> WordRef<B, W, N> {
    /// Overflowing left shift: the shifted word and the bits shifted out of it, brought down
    /// to the low end. Below the width, the word is rotated and split by two masks; from the
    /// width, the low word is zero and the high one the word shifted by the excess; from twice
    /// the width, both are zero. The word is consumed.
    #[verifier::rlimit(40)]
    pub fn overflowing_shl(self, shift: usize, fe: &mut Frontend<B>) -> (r: (Self, Self))
        requires
            old(fe).wf(),
            shape_ok::<W, N>(),
            live_idx(old(fe).model(), self.spec_idx()),
            room_all(old(fe).model(), (3 * N) as nat),
        ensures
            final(fe).wf(),
            final(fe).spec_backend().key() == old(fe).spec_backend().key(),
            live_idx(final(fe).model(), r.0.spec_idx()),
            live_idx(final(fe).model(), r.1.spec_idx()),
            B::tracks_values() ==> word_bits(final(fe).model(), r.0.spec_idx()) == seq_shl(word_bits(old(fe).model(), self.spec_idx()), shift as int),
            B::tracks_values() ==> word_bits(final(fe).model(), r.1.spec_idx()) == shifted_out(word_bits(old(fe).model(), self.spec_idx()), shift as int),
    {
        let ghost m0 = fe.model();
        let ghost xb = word_bits(m0, self.spec_idx());
        proof {
            crate::backend::backend::lemma_shape_ok::<W, N>();
        }
        let cw = CompositeWord::<W, N>::width();
        proof {
            fe.backend.lemma_model();
            lemma_word_bits_len(m0, self.spec_idx());
            W::lemma_width();
        }
        let ghost n = cw as int;
        if shift >= cw {
            let zero = CompositeWord::<W, N>::zero();
            proof {
                assert(m0.allocated.get(W::spec_width()).len() + 3 * N < usize::MAX);
            }
            let lo = fe.allocate(zero);
            let ghost m1 = fe.model();
            proof {
                lemma_produces_evolves(m0, m1, Seq::<WordIdx<W, N>>::empty(), lo.spec_idx());
                lemma_fits_single(m0, self.spec_idx());
                lemma_evolves_live(m0, m1, seq_count(Seq::<WordIdx<W, N>>::empty()), N as nat, lo.spec_idx(), self.spec_idx());
                lemma_evolves_room(m0, m1, seq_count(Seq::<WordIdx<W, N>>::empty()), N as nat, lo.spec_idx(), (2 * N) as nat);
                lemma_fresh(m0, m1, seq_count(Seq::<WordIdx<W, N>>::empty()), N as nat, lo.spec_idx());
                fe.backend.lemma_model();
                lemma_fits_pair(m1, self.spec_idx(), lo.spec_idx());
            }
            let hi = if shift - cw >= cw {
                let z2 = CompositeWord::<W, N>::zero();
                proof {
                    assert(m1.allocated.get(W::spec_width()).len() + 2 * N < usize::MAX);
                }
                let h = fe.allocate(z2);
                let ghost m2 = fe.model();
                proof {
                    lemma_produces_evolves(m1, m2, Seq::<WordIdx<W, N>>::empty(), h.spec_idx());
                    lemma_fits_single(m1, lo.spec_idx());
                    lemma_evolves_live(m1, m2, seq_count(Seq::<WordIdx<W, N>>::empty()), N as nat, h.spec_idx(), lo.spec_idx());
                    lemma_fits_single(m1, self.spec_idx());
                    lemma_evolves_live(m1, m2, seq_count(Seq::<WordIdx<W, N>>::empty()), N as nat, h.spec_idx(), self.spec_idx());
                    lemma_fresh(m1, m2, seq_count(Seq::<WordIdx<W, N>>::empty()), N as nat, h.spec_idx());
                    fe.backend.lemma_model();
                }
                let ghost ms = fe.model();
                let ghost si = self.spec_idx();
                self.release(fe);
                proof {
                    let mt = fe.model();
                    crate::backend::evolution::lemma_release_apart(ms, mt, si, lo.spec_idx());
                    crate::backend::evolution::lemma_release_apart(ms, mt, si, h.spec_idx());
                    lemma_release_live(ms, mt, si, lo.spec_idx());
                    lemma_release_live(ms, mt, si, h.spec_idx());
                    if B::tracks_values() {
                        assert(word_bits(mt, h.spec_idx()) =~= shifted_out(xb, shift as int));
                    }
                }
                h
            } else {
                let ghost si = self.spec_idx();
                let h = self.unbounded_shl(shift - cw, fe);
                proof {
                    let m2 = fe.model();
                    lemma_evolves_live(m1, m2, idx_count(si), N as nat, h.spec_idx(), lo.spec_idx());
                    lemma_fresh(m1, m2, idx_count(si), N as nat, h.spec_idx());
                    if B::tracks_values() {
                        assert(word_bits(m2, h.spec_idx()) =~= shifted_out(xb, shift as int));
                    }
                }
                h
            };
            proof {
                if B::tracks_values() {
                    assert(word_bits(fe.model(), lo.spec_idx()) =~= seq_shl(xb, shift as int));
                }
            }
            return (lo, hi);
        }
        let ghost si = self.spec_idx();
        let pieces = self.rotate_left(shift, fe);
        let ghost m1 = fe.model();
        let mask_lo = CompositeWord::<W, N>::max_word().unbounded_shl(shift);
        let mask_hi = mask_lo.not();
        proof {
            lemma_fresh(m0, m1, idx_count(si), N as nat, pieces.spec_idx());
            lemma_evolves_room(m0, m1, idx_count(si), N as nat, pieces.spec_idx(), (2 * N) as nat);
            fe.backend.lemma_model();
        }
        let c = pieces.clone(fe);
        let ghost m2 = fe.model();
        proof {
            pieces.spec_idx().lemma_len();
            assert forall|k: int| 0 <= k < N implies #[trigger] m2.refs.get(W::spec_width())[pieces.spec_idx().spec_idxs()[k] as int] >= 2 by {
                let i = pieces.spec_idx().spec_idxs()[k] as int;
                assert(uses(pieces.spec_idx(), W::spec_width(), i)) by {
                    assert(pieces.spec_idx().spec_idxs()[k] == i as usize);
                }
            }
            fe.backend.lemma_model();
            lemma_fits_twice(m2, pieces.spec_idx());
        }
        let lo = c.bitand_const(mask_lo, fe);
        let ghost m3 = fe.model();
        proof {
            lemma_evolves_live(m2, m3, idx_count(pieces.spec_idx()), N as nat, lo.spec_idx(), pieces.spec_idx());
            lemma_evolves_room(m2, m3, idx_count(pieces.spec_idx()), N as nat, lo.spec_idx(), N as nat);
            lemma_fresh(m2, m3, idx_count(pieces.spec_idx()), N as nat, lo.spec_idx());
            fe.backend.lemma_model();
            lemma_fits_pair(m3, pieces.spec_idx(), lo.spec_idx());
        }
        let ghost pi = pieces.spec_idx();
        let hi = pieces.bitand_const(mask_hi, fe);
        proof {
            let m4 = fe.model();
            lemma_evolves_live(m3, m4, idx_count(pi), N as nat, hi.spec_idx(), lo.spec_idx());
            lemma_fresh(m3, m4, idx_count(pi), N as nat, hi.spec_idx());
            if B::tracks_values() {
                let rb = seq_rotl(xb, shift as int);
                assert forall|i: int| 0 <= i < n implies #[trigger] seq_and(rb, mask_lo.cbits())[i] == seq_shl(xb, shift as int)[i] by {
                    if i >= shift {
                        vstd::arithmetic::div_mod::lemma_small_mod((i - shift) as nat, n as nat);
                    }
                }
                assert(seq_and(rb, mask_lo.cbits()) =~= seq_shl(xb, shift as int));
                assert forall|k: int| 0 <= k < n implies #[trigger] seq_and(rb, mask_hi.cbits())[k] == shifted_out(xb, shift as int)[k] by {
                    if k < shift {
                        vstd::arithmetic::div_mod::lemma_mod_add_multiples_vanish(k - shift, n);
                        vstd::arithmetic::div_mod::lemma_small_mod((k - shift + n) as nat, n as nat);
                    }
                }
                assert(seq_and(rb, mask_hi.cbits()) =~= shifted_out(xb, shift as int));
            }
        }
        (lo, hi)
    }

    /// Wrapping multiplication by a constant, by shift and add over the bits of the constant,
    /// from the lowest: where a bit is set, the shifted word is added to the accumulator, which
    /// starts at zero; after each bit, the word is shifted left by one. The word is consumed.
    #[verifier::rlimit(60)]
    #[verifier::spinoff_prover]
    pub fn wrapping_mul_const(self, rhs: CompositeWord<W, N>, fe: &mut Frontend<B>) -> (r: Self)
        requires
            old(fe).wf(),
            shape_ok::<W, N>(),
            live_idx(old(fe).model(), self.spec_idx()),
            forall|k: int| 0 <= k < N ==> #[trigger] old(fe).model().refs.get(W::spec_width())[self.spec_idx().spec_idxs()[k] as int] < B::max_ref(),
            room_all(old(fe).model(), (N + 5 * N * CompositeWord::<W, N>::spec_cwidth()) as nat),
        ensures
            final(fe).wf(),
            final(fe).spec_backend().key() == old(fe).spec_backend().key(),
            live_idx(final(fe).model(), r.spec_idx()),
            B::tracks_values() ==> word_val(final(fe).model(), r.spec_idx()) == (word_val(old(fe).model(), self.spec_idx()) * rhs.cvalue())
                % pow2(CompositeWord::<W, N>::spec_cwidth()),
    {
        let ghost m0 = fe.model();
        let ghost x = word_val(m0, self.spec_idx());
        let ghost y = rhs.cvalue();
        let ghost cwn = CompositeWord::<W, N>::spec_cwidth();
        let ghost md = pow2(cwn);
        let ghost key0 = fe.spec_backend().key();
        proof {
            crate::backend::backend::lemma_shape_ok::<W, N>();
            fe.backend.lemma_model();
            vstd::arithmetic::power2::lemma_pow2_pos(cwn);
            lemma_word_bits_len(m0, self.spec_idx());
            lemma_bits_val_bound(word_bits(m0, self.spec_idx()));
            vstd::arithmetic::div_mod::lemma_small_mod(x, md);
            vstd::arithmetic::power2::lemma2_to64();
            assert(y % pow2(0) == 0) by {
                vstd::arithmetic::div_mod::lemma_fundamental_div_mod_converse(y as int, 1, y as int, 0);
            }
            assert(x * pow2(0) == x) by {
                vstd::arithmetic::power2::lemma2_to64();
            }
            assert(x * (y % pow2(0)) == 0);
        }
        let zero = CompositeWord::<W, N>::zero();
        proof {
            W::lemma_width();
            assert(m0.allocated.get(W::spec_width()).len() + (N + 5 * N * cwn) < usize::MAX);
            assert(5 * N * cwn >= 0) by (nonlinear_arith);
        }
        let mut acc = fe.allocate(zero);
        proof {
            let m1 = fe.model();
            lemma_produces_evolves(m0, m1, Seq::<WordIdx<W, N>>::empty(), acc.spec_idx());
            lemma_fits_single(m0, self.spec_idx());
            lemma_evolves_live(m0, m1, seq_count(Seq::<WordIdx<W, N>>::empty()), N as nat, acc.spec_idx(), self.spec_idx());
            lemma_evolves_room(m0, m1, seq_count(Seq::<WordIdx<W, N>>::empty()), N as nat, acc.spec_idx(), (5 * N * cwn) as nat);
            acc.spec_idx().lemma_len();
            assert forall|k: int| 0 <= k < N implies #[trigger] m1.refs.get(W::spec_width())[acc.spec_idx().spec_idxs()[k] as int] >= 1 by {
                assert(m1.refs.get(W::spec_width())[acc.spec_idx().spec_idxs()[k] as int] == 1);
            }
            if B::tracks_values() {
                crate::word::bitseq::lemma_bits_val_zeros(cwn);
                assert(zero.cbits() =~= crate::word::bitseq::seq_zeros(cwn));
            }
            self.spec_idx().lemma_len();
            lemma_kept_refs(m0, m1, seq_count(Seq::<WordIdx<W, N>>::empty()), N as nat, acc.spec_idx(), self.spec_idx());
            assert forall|k: int| 0 <= k < N implies #[trigger] m1.refs.get(W::spec_width())[self.spec_idx().spec_idxs()[k] as int] < B::max_ref() by {
                assert(count_uses(Seq::<WordIdx<W, N>>::empty(), W::spec_width(), self.spec_idx().spec_idxs()[k] as int) == 0);
            }
        }
        let mut a = self;
        let mut b = rhs;
        let cw = CompositeWord::<W, N>::width();
        let mut t: usize = 0;
        while t < cw
            invariant
                shape_ok::<W, N>(),
                cw == cwn,
                cwn == CompositeWord::<W, N>::spec_cwidth(),
                md == pow2(cwn),
                md > 0,
                t <= cw,
                fe.wf(),
                fe.spec_backend().key() == key0,
                live_idx(fe.model(), acc.spec_idx()),
                live_idx(fe.model(), a.spec_idx()),
                apart(acc.spec_idx(), a.spec_idx()),
                forall|k: int| 0 <= k < N ==> #[trigger] fe.model().refs.get(W::spec_width())[a.spec_idx().spec_idxs()[k] as int] < B::max_ref(),
                room_all(fe.model(), (5 * N * (cw - t)) as nat),
                B::tracks_values() ==> word_val(fe.model(), acc.spec_idx()) == (x * (y % pow2(t as nat))) % md,
                B::tracks_values() ==> word_val(fe.model(), a.spec_idx()) == (x * pow2(t as nat)) % md,
                b.cvalue() == y / pow2(t as nat),
            decreases cw - t,
        {
            let ghost m = fe.model();
            let bit = b.lsb();
            proof {
                fe.backend.lemma_model();
                b.lemma_lsb_value();
                crate::word::bitseq::lemma_pow2_succ(t as nat);
                vstd::arithmetic::power2::lemma_pow2_pos(t as nat);
                vstd::arithmetic::div_mod::lemma_div_denominator(y as int, pow2(t as nat) as int, 2);
                if B::tracks_values() {
                    lemma_mul_step(x, y, t as nat, md, word_val(m, acc.spec_idx()), word_val(m, a.spec_idx()), bit);
                    lemma_double_mod(x, t as nat, md);
                }
                assert(5 * N * (cw - t) == 5 * N * (cw - (t + 1)) + 5 * N) by (nonlinear_arith)
                    requires
                        t < cw,
                ;
            }
            if bit {
                let ghost ma = fe.model();
                let c = a.clone(fe);
                let ghost mb = fe.model();
                proof {
                    a.spec_idx().lemma_len();
                    acc.spec_idx().lemma_len();
                    W::lemma_width();
                    fe.backend.lemma_model();
                    assert forall|k: int| 0 <= k < N implies #[trigger] mb.refs.get(W::spec_width())[acc.spec_idx().spec_idxs()[k] as int]
                        == ma.refs.get(W::spec_width())[acc.spec_idx().spec_idxs()[k] as int] by {
                        let i = acc.spec_idx().spec_idxs()[k] as int;
                        assert(uses(acc.spec_idx(), W::spec_width(), i)) by {
                            assert(acc.spec_idx().spec_idxs()[k] == i as usize);
                        }
                    }
                    assert(word_bits(mb, acc.spec_idx()) == word_bits(ma, acc.spec_idx()));
                    assert(word_bits(mb, a.spec_idx()) == word_bits(ma, a.spec_idx()));
                    assert forall|k: int| 0 <= k < N implies #[trigger] mb.refs.get(W::spec_width())[a.spec_idx().spec_idxs()[k] as int] >= 2 by {
                        let i = a.spec_idx().spec_idxs()[k] as int;
                        assert(uses(a.spec_idx(), W::spec_width(), i)) by {
                            assert(a.spec_idx().spec_idxs()[k] == i as usize);
                        }
                    }
                    lemma_fits_pair(mb, acc.spec_idx(), c.spec_idx());
                    lemma_fits_pair_twice(mb, acc.spec_idx(), a.spec_idx());
                }
                let ghost acc_i = acc.spec_idx();
                let acc2 = acc.wrapping_add(c, fe);
                let ghost mc = fe.model();
                proof {
                    fe.backend.lemma_model();
                    let d = add_count(idx_count(acc_i), idx_count(a.spec_idx()));
                    lemma_evolves_live(mb, mc, d, 4 * N as nat, acc2.spec_idx(), a.spec_idx());
                    lemma_evolves_room(mb, mc, d, 4 * N as nat, acc2.spec_idx(), (5 * N * (cw - (t + 1)) + N) as nat);
                    assert forall|k: int| 0 <= k < N implies #[trigger] mb.refs.get(W::spec_width())[a.spec_idx().spec_idxs()[k] as int]
                        > d(W::spec_width(), a.spec_idx().spec_idxs()[k] as int) by {
                        let i = a.spec_idx().spec_idxs()[k] as int;
                        assert(uses(a.spec_idx(), W::spec_width(), i)) by {
                            assert(a.spec_idx().spec_idxs()[k] == i as usize);
                        }
                        assert(!uses(acc_i, W::spec_width(), i));
                    }
                    lemma_kept_refs(mb, mc, d, 4 * N as nat, acc2.spec_idx(), a.spec_idx());
                    assert forall|k: int| 0 <= k < N implies #[trigger] mc.refs.get(W::spec_width())[a.spec_idx().spec_idxs()[k] as int] < B::max_ref() by {
                        let i = a.spec_idx().spec_idxs()[k] as int;
                        assert(uses(a.spec_idx(), W::spec_width(), i)) by {
                            assert(a.spec_idx().spec_idxs()[k] == i as usize);
                        }
                        assert(!uses(acc_i, W::spec_width(), i));
                    }
                    lemma_fits_pair(mc, a.spec_idx(), acc2.spec_idx());
                    if B::tracks_values() {
                        assert(word_val(mb, c.spec_idx()) == word_val(m, a.spec_idx()));
                        assert(word_val(mb, acc_i) == word_val(m, acc_i));
                        assert(word_val(mc, acc2.spec_idx()) == (x * (y % pow2((t + 1) as nat))) % md);
                    }
                }
                acc = acc2;
            } else {
                proof {
                    if B::tracks_values() {
                        let acc0 = word_val(m, acc.spec_idx());
                        assert(acc0 < md) by {
                            vstd::arithmetic::div_mod::lemma_mod_pos_bound((x * (y % pow2(t as nat))) as int, md as int);
                        }
                        vstd::arithmetic::div_mod::lemma_small_mod(acc0, md);
                        assert(word_val(m, acc.spec_idx()) == (x * (y % pow2((t + 1) as nat))) % md);
                    }
                    lemma_fits_pair(m, a.spec_idx(), acc.spec_idx());
                }
            }
            let ghost md1 = fe.model();
            let ghost a_i = a.spec_idx();
            proof {
                fe.backend.lemma_model();
                assert(room_all(md1, (5 * N * (cw - (t + 1)) + N) as nat));
            }
            let a2 = a.unbounded_shl(1, fe);
            proof {
                let me = fe.model();
                lemma_evolves_live(md1, me, idx_count(a_i), N as nat, a2.spec_idx(), acc.spec_idx());
                lemma_evolves_room(md1, me, idx_count(a_i), N as nat, a2.spec_idx(), (5 * N * (cw - (t + 1))) as nat);
                a2.spec_idx().lemma_len();
                assert forall|k: int| 0 <= k < N implies #[trigger] me.refs.get(W::spec_width())[a2.spec_idx().spec_idxs()[k] as int] >= 1 by {
                    assert(me.refs.get(W::spec_width())[a2.spec_idx().spec_idxs()[k] as int] == 1);
                }
                assert forall|k: int| 0 <= k < N implies #[trigger] me.refs.get(W::spec_width())[a2.spec_idx().spec_idxs()[k] as int] < B::max_ref() by {
                    assert(me.refs.get(W::spec_width())[a2.spec_idx().spec_idxs()[k] as int] == 1);
                }
                if B::tracks_values() {
                    lemma_word_bits_len(md1, a_i);
                    lemma_bits_val_shl(word_bits(md1, a_i), 1);
                    vstd::arithmetic::power2::lemma2_to64();
                    assert(word_val(me, a2.spec_idx()) == (x * pow2((t + 1) as nat)) % md);
                    assert(word_val(me, acc.spec_idx()) == (x * (y % pow2((t + 1) as nat))) % md);
                }
            }
            let b1 = b.unbounded_shr(1);
            proof {
                lemma_bits_val_shr(b.cbits(), 1);
                vstd::arithmetic::power2::lemma2_to64();
            }
            a = a2;
            b = b1;
            t = t + 1;
        }
        proof {
            lemma_bits_val_bound(rhs.cbits());
            vstd::arithmetic::div_mod::lemma_small_mod(y, md);
            fe.backend.lemma_model();
        }
        let ghost mf = fe.model();
        let ghost a_f = a.spec_idx();
        a.release(fe);
        proof {
            let mg = fe.model();
            lemma_release_apart(mf, mg, a_f, acc.spec_idx());
            acc.spec_idx().lemma_len();
            W::lemma_width();
            assert forall|k: int| 0 <= k < N implies #[trigger] mg.refs.get(W::spec_width())[acc.spec_idx().spec_idxs()[k] as int] >= 1 by {
                let i = acc.spec_idx().spec_idxs()[k] as int;
                assert(uses(acc.spec_idx(), W::spec_width(), i)) by {
                    assert(acc.spec_idx().spec_idxs()[k] == i as usize);
                }
                assert(!uses(a_f, W::spec_width(), i));
                assert(mf.refs.get(W::spec_width())[i] >= 1);
            }
        }
        acc
    }
}

/// The words of `ws` are live in state `m` and hold pairwise no common slot.
pub open spec fn live_all<W: Word, const N: usize>(m: SlotModel, ws: Set<WordIdx<W, N>>) -> bool {
    &&& forall|y: WordIdx<W, N>| #[trigger] ws.contains(y) ==> live_idx(m, y)
    &&& forall|y: WordIdx<W, N>, z: WordIdx<W, N>| #[trigger] ws.contains(y) && #[trigger] ws.contains(z) && y != z ==> apart(y, z)
}

/// From `a` to `b`, at most `g` allocation flags were added per word type.
pub open spec fn grows_by(a: SlotModel, b: SlotModel, g: nat) -> bool {
    forall|v: nat| is_word_width(v) ==> #[trigger] b.allocated.get(v).len() <= a.allocated.get(v).len() + g
}

/// Growth adds up.
pub(crate) proof fn lemma_grows_trans(a: SlotModel, b: SlotModel, c: SlotModel, g1: nat, g2: nat)
    requires
        grows_by(a, b, g1),
        grows_by(b, c, g2),
    ensures
        grows_by(a, c, g1 + g2),
{
    assert forall|v: nat| is_word_width(v) implies #[trigger] c.allocated.get(v).len() <= a.allocated.get(v).len() + (g1 + g2) by {
        assert(b.allocated.get(v).len() <= a.allocated.get(v).len() + g1);
    }
}

/// Room shrinks by growth.
pub(crate) proof fn lemma_grows_room(a: SlotModel, b: SlotModel, g: nat, n: nat)
    requires
        grows_by(a, b, g),
        room_all(a, g + n),
    ensures
        room_all(b, n),
{
    assert forall|v: nat| is_word_width(v) implies #[trigger] b.allocated.get(v).len() + n < usize::MAX by {
        assert(a.allocated.get(v).len() + (g + n) < usize::MAX);
    }
}

/// A word produced by an evolution dropping no reference joins the live words, which keep
/// their bits.
proof fn lemma_live_step<W: Word, const N: usize>(
    m: SlotModel,
    m2: SlotModel,
    ws: Set<WordIdx<W, N>>,
    g: nat,
    r: WordIdx<W, N>,
)
    requires
        N > 0,
        model_ok(m),
        live_all(m, ws),
        evolves(m, m2, crate::backend::evolution::no_count(), g, r),
    ensures
        live_all(m2, ws.insert(r)),
        !ws.contains(r),
        forall|y: WordIdx<W, N>| #[trigger] ws.contains(y) ==> word_bits(m2, y) == word_bits(m, y),
        grows_by(m, m2, g),
{
    W::lemma_width();
    r.lemma_len();
    assert forall|y: WordIdx<W, N>| #[trigger] ws.contains(y) implies live_idx(m2, y) && word_bits(m2, y) == word_bits(m, y) && apart(y, r) by {
        crate::backend::word_ref::lemma_fits_one(m, y);
        lemma_evolves_live(m, m2, crate::backend::evolution::no_count(), g, r, y);
    }
    lemma_fresh(m, m2, crate::backend::evolution::no_count(), g, r);
    if ws.contains(r) {
        assert(apart(r, r));
        let i = r.spec_idxs()[0] as int;
        assert(uses(r, W::spec_width(), i)) by {
            assert(r.spec_idxs()[0] == i as usize);
        }
    }
    let ws2 = ws.insert(r);
    assert forall|y: WordIdx<W, N>, z: WordIdx<W, N>| #[trigger] ws2.contains(y) && #[trigger] ws2.contains(z) && y != z implies apart(y, z) by {
        if y == r {
            assert(apart(z, r));
            assert forall|v: nat, i: int| !(#[trigger] uses(y, v, i) && #[trigger] uses(z, v, i)) by {
                assert(!(uses(z, v, i) && uses(r, v, i)));
            }
        } else if z == r {
            assert(apart(y, r));
        }
    }
    assert forall|v: nat| is_word_width(v) implies #[trigger] m2.allocated.get(v).len() <= m.allocated.get(v).len() + g by {
        assert(m2.refs.get(v).len() >= 0);
    }
}

/// Releasing a live word leaves the others live, with their bits, and adds no flag.
proof fn lemma_live_release<W: Word, const N: usize>(m: SlotModel, m2: SlotModel, ws: Set<WordIdx<W, N>>, x: WordIdx<W, N>)
    requires
        live_all(m, ws),
        ws.contains(x),
        crate::backend::backend::recounts(m, m2, x, -1),
    ensures
        live_all(m2, ws.remove(x)),
        forall|y: WordIdx<W, N>| #[trigger] ws.remove(x).contains(y) ==> word_bits(m2, y) == word_bits(m, y),
        grows_by(m, m2, 0),
{
    W::lemma_width();
    assert forall|y: WordIdx<W, N>| #[trigger] ws.remove(x).contains(y) implies live_idx(m2, y) && word_bits(m2, y) == word_bits(m, y) by {
        assert(apart(x, y));
        lemma_release_live(m, m2, x, y);
        lemma_release_apart(m, m2, x, y);
    }
    assert forall|v: nat| is_word_width(v) implies #[trigger] m2.allocated.get(v).len() <= m.allocated.get(v).len() + 0 by {
        if v != W::spec_width() {
            assert(m2.allocated.get(v) == m.allocated.get(v));
        }
    }
}


/// The carry out of the sum of `a` and `b`, as the lowest bit of an otherwise clear word: the
/// top bit of `(a & b) ^ ((a ^ b) & !(a + b))`, shifted down.
pub open spec fn carry_bits(a: Seq<bool>, b: Seq<bool>) -> Seq<bool> {
    seq_shr(seq_xor(seq_and(a, b), seq_and(seq_xor(a, b), seq_not(seq_add(a, b, false)))), a.len() - 1)
}

/// The bits of one: the lowest bit set, the others clear.
pub open spec fn low_bit(n: nat) -> Seq<bool> {
    Seq::new(n, |k: int| k == 0)
}

/// All ones where the lowest bit of `b` is set, all zeros otherwise: the two's complement
/// negation of that bit.
pub open spec fn bit_mask(b: Seq<bool>) -> Seq<bool> {
    seq_add(seq_not(seq_and(b, low_bit(b.len()))), seq_zeros(b.len()), true)
}

impl<B: Backend, W: Word, const N: usize> WordRef<B, W, N> {
    /// Adds the double word `(al, ah)` to the double word `(lo, hi)`: the low word is the sum
    /// of the low words, the high word the sum of the high words and the carry out of the low
    /// sum. The given words stay referenced.
    #[verifier::rlimit(60)]
    #[verifier::spinoff_prover]
    fn acc_step(lo: &Self, hi: &Self, al: &Self, ah: &Self, fe: &mut Frontend<B>, Ghost(ws): Ghost<Set<WordIdx<W, N>>>) -> (r: (Self, Self))
        requires
            old(fe).wf(),
            shape_ok::<W, N>(),
            live_all(old(fe).model(), ws),
            ws.contains(lo.spec_idx()),
            ws.contains(hi.spec_idx()),
            ws.contains(al.spec_idx()),
            ws.contains(ah.spec_idx()),
            room_all(old(fe).model(), (18 * N) as nat),
        ensures
            final(fe).wf(),
            final(fe).spec_backend().key() == old(fe).spec_backend().key(),
            live_all(final(fe).model(), ws.insert(r.0.spec_idx()).insert(r.1.spec_idx())),
            !ws.contains(r.0.spec_idx()),
            !ws.contains(r.1.spec_idx()),
            r.0.spec_idx() != r.1.spec_idx(),
            forall|y: WordIdx<W, N>| #[trigger] ws.contains(y) ==> word_bits(final(fe).model(), y) == word_bits(old(fe).model(), y),
            grows_by(old(fe).model(), final(fe).model(), (18 * N) as nat),
            B::tracks_values() ==> word_bits(final(fe).model(), r.0.spec_idx()) == seq_add(word_bits(old(fe).model(), lo.spec_idx()), word_bits(old(fe).model(), al.spec_idx()), false),
            B::tracks_values() ==> word_bits(final(fe).model(), r.1.spec_idx()) == seq_add(word_bits(old(fe).model(), hi.spec_idx()), seq_add(word_bits(old(fe).model(), ah.spec_idx()), carry_bits(word_bits(old(fe).model(), lo.spec_idx()), word_bits(old(fe).model(), al.spec_idx())), false), false),
    {
        let ghost m0 = fe.model();
        let ghost ws0 = ws;
        proof {
            crate::backend::backend::lemma_shape_ok::<W, N>();
            fe.backend.lemma_model();
            W::lemma_width();
            assert(grows_by(m0, m0, 0));
        }
        let ghost lo_b = word_bits(m0, lo.spec_idx());
        let ghost hi_b = word_bits(m0, hi.spec_idx());
        let ghost al_b = word_bits(m0, al.spec_idx());
        let ghost ah_b = word_bits(m0, ah.spec_idx());
        let top: usize = CompositeWord::<W, N>::width() - 1;
        proof {
            lemma_word_bits_len(m0, lo.spec_idx());
        }
        proof { assert(ws0.contains(lo.spec_idx())); }
        proof { assert(ws0.contains(al.spec_idx())); }
        let s = lo.add_ref(al, false, fe);
        let ghost m1 = fe.model();
        let ghost ws1 = ws0.insert(s.spec_idx());
        let ghost s_b = word_bits(m1, s.spec_idx());
        proof {
            lemma_live_step::<W, N>(m0, m1, ws0, (4 * N) as nat, s.spec_idx());
            lemma_grows_trans(m0, m0, m1, (0 * N) as nat, (4 * N) as nat);
            lemma_grows_room(m0, m1, (4 * N) as nat, (14 * N) as nat);
            fe.backend.lemma_model();
            assert(ws0.contains(lo.spec_idx()));
            assert(word_bits(m1, lo.spec_idx()) == lo_b);
            assert(ws0.contains(hi.spec_idx()));
            assert(word_bits(m1, hi.spec_idx()) == hi_b);
            assert(ws0.contains(al.spec_idx()));
            assert(word_bits(m1, al.spec_idx()) == al_b);
            assert(ws0.contains(ah.spec_idx()));
            assert(word_bits(m1, ah.spec_idx()) == ah_b);
            assert(B::tracks_values() ==> s_b == seq_add(lo_b, al_b, false));
        }
        proof { assert(ws1.contains(lo.spec_idx())); }
        proof { assert(ws1.contains(al.spec_idx())); }
        let g = lo.binop_ref(al, fe, BinOp::And);
        let ghost m2 = fe.model();
        let ghost ws2 = ws1.insert(g.spec_idx());
        let ghost g_b = word_bits(m2, g.spec_idx());
        proof {
            lemma_live_step::<W, N>(m1, m2, ws1, (1 * N) as nat, g.spec_idx());
            lemma_grows_trans(m0, m1, m2, (4 * N) as nat, (1 * N) as nat);
            lemma_grows_room(m1, m2, (1 * N) as nat, (13 * N) as nat);
            fe.backend.lemma_model();
            assert(ws1.contains(lo.spec_idx()));
            assert(word_bits(m2, lo.spec_idx()) == lo_b);
            assert(ws1.contains(hi.spec_idx()));
            assert(word_bits(m2, hi.spec_idx()) == hi_b);
            assert(ws1.contains(al.spec_idx()));
            assert(word_bits(m2, al.spec_idx()) == al_b);
            assert(ws1.contains(ah.spec_idx()));
            assert(word_bits(m2, ah.spec_idx()) == ah_b);
            assert(ws1.contains(s.spec_idx()));
            assert(word_bits(m2, s.spec_idx()) == s_b);
            assert(B::tracks_values() ==> g_b == seq_and(lo_b, al_b));
        }
        proof { assert(ws2.contains(lo.spec_idx())); }
        proof { assert(ws2.contains(al.spec_idx())); }
        let p = lo.binop_ref(al, fe, BinOp::Xor);
        let ghost m3 = fe.model();
        let ghost ws3 = ws2.insert(p.spec_idx());
        let ghost p_b = word_bits(m3, p.spec_idx());
        proof {
            lemma_live_step::<W, N>(m2, m3, ws2, (1 * N) as nat, p.spec_idx());
            lemma_grows_trans(m0, m2, m3, (5 * N) as nat, (1 * N) as nat);
            lemma_grows_room(m2, m3, (1 * N) as nat, (12 * N) as nat);
            fe.backend.lemma_model();
            assert(ws2.contains(lo.spec_idx()));
            assert(word_bits(m3, lo.spec_idx()) == lo_b);
            assert(ws2.contains(hi.spec_idx()));
            assert(word_bits(m3, hi.spec_idx()) == hi_b);
            assert(ws2.contains(al.spec_idx()));
            assert(word_bits(m3, al.spec_idx()) == al_b);
            assert(ws2.contains(ah.spec_idx()));
            assert(word_bits(m3, ah.spec_idx()) == ah_b);
            assert(ws2.contains(s.spec_idx()));
            assert(word_bits(m3, s.spec_idx()) == s_b);
            assert(ws2.contains(g.spec_idx()));
            assert(word_bits(m3, g.spec_idx()) == g_b);
            assert(B::tracks_values() ==> p_b == seq_xor(lo_b, al_b));
        }
        proof { assert(ws3.contains(s.spec_idx())); }
        let ns = s.unop_ref(fe, UnOp::Not);
        let ghost m4 = fe.model();
        let ghost ws4 = ws3.insert(ns.spec_idx());
        let ghost ns_b = word_bits(m4, ns.spec_idx());
        proof {
            lemma_live_step::<W, N>(m3, m4, ws3, (1 * N) as nat, ns.spec_idx());
            lemma_grows_trans(m0, m3, m4, (6 * N) as nat, (1 * N) as nat);
            lemma_grows_room(m3, m4, (1 * N) as nat, (11 * N) as nat);
            fe.backend.lemma_model();
            assert(ws3.contains(lo.spec_idx()));
            assert(word_bits(m4, lo.spec_idx()) == lo_b);
            assert(ws3.contains(hi.spec_idx()));
            assert(word_bits(m4, hi.spec_idx()) == hi_b);
            assert(ws3.contains(al.spec_idx()));
            assert(word_bits(m4, al.spec_idx()) == al_b);
            assert(ws3.contains(ah.spec_idx()));
            assert(word_bits(m4, ah.spec_idx()) == ah_b);
            assert(ws3.contains(s.spec_idx()));
            assert(word_bits(m4, s.spec_idx()) == s_b);
            assert(ws3.contains(g.spec_idx()));
            assert(word_bits(m4, g.spec_idx()) == g_b);
            assert(ws3.contains(p.spec_idx()));
            assert(word_bits(m4, p.spec_idx()) == p_b);
            assert(B::tracks_values() ==> ns_b == seq_not(s_b));
        }
        proof { assert(ws4.contains(p.spec_idx())); }
        proof { assert(ws4.contains(ns.spec_idx())); }
        let q = p.binop_ref(&ns, fe, BinOp::And);
        let ghost m5 = fe.model();
        let ghost ws5 = ws4.insert(q.spec_idx());
        let ghost q_b = word_bits(m5, q.spec_idx());
        proof {
            lemma_live_step::<W, N>(m4, m5, ws4, (1 * N) as nat, q.spec_idx());
            lemma_grows_trans(m0, m4, m5, (7 * N) as nat, (1 * N) as nat);
            lemma_grows_room(m4, m5, (1 * N) as nat, (10 * N) as nat);
            fe.backend.lemma_model();
            assert(ws4.contains(lo.spec_idx()));
            assert(word_bits(m5, lo.spec_idx()) == lo_b);
            assert(ws4.contains(hi.spec_idx()));
            assert(word_bits(m5, hi.spec_idx()) == hi_b);
            assert(ws4.contains(al.spec_idx()));
            assert(word_bits(m5, al.spec_idx()) == al_b);
            assert(ws4.contains(ah.spec_idx()));
            assert(word_bits(m5, ah.spec_idx()) == ah_b);
            assert(ws4.contains(s.spec_idx()));
            assert(word_bits(m5, s.spec_idx()) == s_b);
            assert(ws4.contains(g.spec_idx()));
            assert(word_bits(m5, g.spec_idx()) == g_b);
            assert(ws4.contains(p.spec_idx()));
            assert(word_bits(m5, p.spec_idx()) == p_b);
            assert(ws4.contains(ns.spec_idx()));
            assert(word_bits(m5, ns.spec_idx()) == ns_b);
            assert(B::tracks_values() ==> q_b == seq_and(p_b, ns_b));
        }
        proof { assert(ws5.contains(g.spec_idx())); }
        proof { assert(ws5.contains(q.spec_idx())); }
        let t = g.binop_ref(&q, fe, BinOp::Xor);
        let ghost m6 = fe.model();
        let ghost ws6 = ws5.insert(t.spec_idx());
        let ghost t_b = word_bits(m6, t.spec_idx());
        proof {
            lemma_live_step::<W, N>(m5, m6, ws5, (1 * N) as nat, t.spec_idx());
            lemma_grows_trans(m0, m5, m6, (8 * N) as nat, (1 * N) as nat);
            lemma_grows_room(m5, m6, (1 * N) as nat, (9 * N) as nat);
            fe.backend.lemma_model();
            assert(ws5.contains(lo.spec_idx()));
            assert(word_bits(m6, lo.spec_idx()) == lo_b);
            assert(ws5.contains(hi.spec_idx()));
            assert(word_bits(m6, hi.spec_idx()) == hi_b);
            assert(ws5.contains(al.spec_idx()));
            assert(word_bits(m6, al.spec_idx()) == al_b);
            assert(ws5.contains(ah.spec_idx()));
            assert(word_bits(m6, ah.spec_idx()) == ah_b);
            assert(ws5.contains(s.spec_idx()));
            assert(word_bits(m6, s.spec_idx()) == s_b);
            assert(ws5.contains(g.spec_idx()));
            assert(word_bits(m6, g.spec_idx()) == g_b);
            assert(ws5.contains(p.spec_idx()));
            assert(word_bits(m6, p.spec_idx()) == p_b);
            assert(ws5.contains(ns.spec_idx()));
            assert(word_bits(m6, ns.spec_idx()) == ns_b);
            assert(ws5.contains(q.spec_idx()));
            assert(word_bits(m6, q.spec_idx()) == q_b);
            assert(B::tracks_values() ==> t_b == seq_xor(g_b, q_b));
        }
        proof { assert(ws6.contains(t.spec_idx())); }
        let c = t.unop_ref(fe, UnOp::Shr(top));
        let ghost m7 = fe.model();
        let ghost ws7 = ws6.insert(c.spec_idx());
        let ghost c_b = word_bits(m7, c.spec_idx());
        proof {
            lemma_live_step::<W, N>(m6, m7, ws6, (1 * N) as nat, c.spec_idx());
            lemma_grows_trans(m0, m6, m7, (9 * N) as nat, (1 * N) as nat);
            lemma_grows_room(m6, m7, (1 * N) as nat, (8 * N) as nat);
            fe.backend.lemma_model();
            assert(ws6.contains(lo.spec_idx()));
            assert(word_bits(m7, lo.spec_idx()) == lo_b);
            assert(ws6.contains(hi.spec_idx()));
            assert(word_bits(m7, hi.spec_idx()) == hi_b);
            assert(ws6.contains(al.spec_idx()));
            assert(word_bits(m7, al.spec_idx()) == al_b);
            assert(ws6.contains(ah.spec_idx()));
            assert(word_bits(m7, ah.spec_idx()) == ah_b);
            assert(ws6.contains(s.spec_idx()));
            assert(word_bits(m7, s.spec_idx()) == s_b);
            assert(ws6.contains(g.spec_idx()));
            assert(word_bits(m7, g.spec_idx()) == g_b);
            assert(ws6.contains(p.spec_idx()));
            assert(word_bits(m7, p.spec_idx()) == p_b);
            assert(ws6.contains(ns.spec_idx()));
            assert(word_bits(m7, ns.spec_idx()) == ns_b);
            assert(ws6.contains(q.spec_idx()));
            assert(word_bits(m7, q.spec_idx()) == q_b);
            assert(ws6.contains(t.spec_idx()));
            assert(word_bits(m7, t.spec_idx()) == t_b);
            assert(B::tracks_values() ==> c_b == seq_shr(t_b, top as int));
        }
        proof { assert(ws7.contains(ah.spec_idx())); }
        proof { assert(ws7.contains(c.spec_idx())); }
        let h1 = ah.add_ref(&c, false, fe);
        let ghost m8 = fe.model();
        let ghost ws8 = ws7.insert(h1.spec_idx());
        let ghost h1_b = word_bits(m8, h1.spec_idx());
        proof {
            lemma_live_step::<W, N>(m7, m8, ws7, (4 * N) as nat, h1.spec_idx());
            lemma_grows_trans(m0, m7, m8, (10 * N) as nat, (4 * N) as nat);
            lemma_grows_room(m7, m8, (4 * N) as nat, (4 * N) as nat);
            fe.backend.lemma_model();
            assert(ws7.contains(lo.spec_idx()));
            assert(word_bits(m8, lo.spec_idx()) == lo_b);
            assert(ws7.contains(hi.spec_idx()));
            assert(word_bits(m8, hi.spec_idx()) == hi_b);
            assert(ws7.contains(al.spec_idx()));
            assert(word_bits(m8, al.spec_idx()) == al_b);
            assert(ws7.contains(ah.spec_idx()));
            assert(word_bits(m8, ah.spec_idx()) == ah_b);
            assert(ws7.contains(s.spec_idx()));
            assert(word_bits(m8, s.spec_idx()) == s_b);
            assert(ws7.contains(g.spec_idx()));
            assert(word_bits(m8, g.spec_idx()) == g_b);
            assert(ws7.contains(p.spec_idx()));
            assert(word_bits(m8, p.spec_idx()) == p_b);
            assert(ws7.contains(ns.spec_idx()));
            assert(word_bits(m8, ns.spec_idx()) == ns_b);
            assert(ws7.contains(q.spec_idx()));
            assert(word_bits(m8, q.spec_idx()) == q_b);
            assert(ws7.contains(t.spec_idx()));
            assert(word_bits(m8, t.spec_idx()) == t_b);
            assert(ws7.contains(c.spec_idx()));
            assert(word_bits(m8, c.spec_idx()) == c_b);
            assert(B::tracks_values() ==> h1_b == seq_add(ah_b, c_b, false));
        }
        proof { assert(ws8.contains(hi.spec_idx())); }
        proof { assert(ws8.contains(h1.spec_idx())); }
        let h2 = hi.add_ref(&h1, false, fe);
        let ghost m9 = fe.model();
        let ghost ws9 = ws8.insert(h2.spec_idx());
        let ghost h2_b = word_bits(m9, h2.spec_idx());
        proof {
            lemma_live_step::<W, N>(m8, m9, ws8, (4 * N) as nat, h2.spec_idx());
            lemma_grows_trans(m0, m8, m9, (14 * N) as nat, (4 * N) as nat);
            lemma_grows_room(m8, m9, (4 * N) as nat, (0 * N) as nat);
            fe.backend.lemma_model();
            assert(ws8.contains(lo.spec_idx()));
            assert(word_bits(m9, lo.spec_idx()) == lo_b);
            assert(ws8.contains(hi.spec_idx()));
            assert(word_bits(m9, hi.spec_idx()) == hi_b);
            assert(ws8.contains(al.spec_idx()));
            assert(word_bits(m9, al.spec_idx()) == al_b);
            assert(ws8.contains(ah.spec_idx()));
            assert(word_bits(m9, ah.spec_idx()) == ah_b);
            assert(ws8.contains(s.spec_idx()));
            assert(word_bits(m9, s.spec_idx()) == s_b);
            assert(ws8.contains(g.spec_idx()));
            assert(word_bits(m9, g.spec_idx()) == g_b);
            assert(ws8.contains(p.spec_idx()));
            assert(word_bits(m9, p.spec_idx()) == p_b);
            assert(ws8.contains(ns.spec_idx()));
            assert(word_bits(m9, ns.spec_idx()) == ns_b);
            assert(ws8.contains(q.spec_idx()));
            assert(word_bits(m9, q.spec_idx()) == q_b);
            assert(ws8.contains(t.spec_idx()));
            assert(word_bits(m9, t.spec_idx()) == t_b);
            assert(ws8.contains(c.spec_idx()));
            assert(word_bits(m9, c.spec_idx()) == c_b);
            assert(ws8.contains(h1.spec_idx()));
            assert(word_bits(m9, h1.spec_idx()) == h1_b);
            assert(B::tracks_values() ==> h2_b == seq_add(hi_b, h1_b, false));
        }
        proof { assert(ws9.contains(g.spec_idx())); }
        g.release(fe);
        let ghost m10 = fe.model();
        let ghost ws10 = ws9.remove(g.spec_idx());
        proof {
            lemma_live_release::<W, N>(m9, m10, ws9, g.spec_idx());
            lemma_grows_trans(m0, m9, m10, (18 * N) as nat, 0);
            lemma_grows_room(m9, m10, 0, (0 * N) as nat);
            fe.backend.lemma_model();
            assert(ws9.remove(g.spec_idx()).contains(lo.spec_idx()));
            assert(word_bits(m10, lo.spec_idx()) == lo_b);
            assert(ws9.remove(g.spec_idx()).contains(hi.spec_idx()));
            assert(word_bits(m10, hi.spec_idx()) == hi_b);
            assert(ws9.remove(g.spec_idx()).contains(al.spec_idx()));
            assert(word_bits(m10, al.spec_idx()) == al_b);
            assert(ws9.remove(g.spec_idx()).contains(ah.spec_idx()));
            assert(word_bits(m10, ah.spec_idx()) == ah_b);
            assert(ws9.remove(g.spec_idx()).contains(s.spec_idx()));
            assert(word_bits(m10, s.spec_idx()) == s_b);
            assert(ws9.remove(g.spec_idx()).contains(p.spec_idx()));
            assert(word_bits(m10, p.spec_idx()) == p_b);
            assert(ws9.remove(g.spec_idx()).contains(ns.spec_idx()));
            assert(word_bits(m10, ns.spec_idx()) == ns_b);
            assert(ws9.remove(g.spec_idx()).contains(q.spec_idx()));
            assert(word_bits(m10, q.spec_idx()) == q_b);
            assert(ws9.remove(g.spec_idx()).contains(t.spec_idx()));
            assert(word_bits(m10, t.spec_idx()) == t_b);
            assert(ws9.remove(g.spec_idx()).contains(c.spec_idx()));
            assert(word_bits(m10, c.spec_idx()) == c_b);
            assert(ws9.remove(g.spec_idx()).contains(h1.spec_idx()));
            assert(word_bits(m10, h1.spec_idx()) == h1_b);
            assert(ws9.remove(g.spec_idx()).contains(h2.spec_idx()));
            assert(word_bits(m10, h2.spec_idx()) == h2_b);
        }
        proof { assert(ws10.contains(p.spec_idx())); }
        p.release(fe);
        let ghost m11 = fe.model();
        let ghost ws11 = ws10.remove(p.spec_idx());
        proof {
            lemma_live_release::<W, N>(m10, m11, ws10, p.spec_idx());
            lemma_grows_trans(m0, m10, m11, (18 * N) as nat, 0);
            lemma_grows_room(m10, m11, 0, (0 * N) as nat);
            fe.backend.lemma_model();
            assert(ws10.remove(p.spec_idx()).contains(lo.spec_idx()));
            assert(word_bits(m11, lo.spec_idx()) == lo_b);
            assert(ws10.remove(p.spec_idx()).contains(hi.spec_idx()));
            assert(word_bits(m11, hi.spec_idx()) == hi_b);
            assert(ws10.remove(p.spec_idx()).contains(al.spec_idx()));
            assert(word_bits(m11, al.spec_idx()) == al_b);
            assert(ws10.remove(p.spec_idx()).contains(ah.spec_idx()));
            assert(word_bits(m11, ah.spec_idx()) == ah_b);
            assert(ws10.remove(p.spec_idx()).contains(s.spec_idx()));
            assert(word_bits(m11, s.spec_idx()) == s_b);
            assert(ws10.remove(p.spec_idx()).contains(ns.spec_idx()));
            assert(word_bits(m11, ns.spec_idx()) == ns_b);
            assert(ws10.remove(p.spec_idx()).contains(q.spec_idx()));
            assert(word_bits(m11, q.spec_idx()) == q_b);
            assert(ws10.remove(p.spec_idx()).contains(t.spec_idx()));
            assert(word_bits(m11, t.spec_idx()) == t_b);
            assert(ws10.remove(p.spec_idx()).contains(c.spec_idx()));
            assert(word_bits(m11, c.spec_idx()) == c_b);
            assert(ws10.remove(p.spec_idx()).contains(h1.spec_idx()));
            assert(word_bits(m11, h1.spec_idx()) == h1_b);
            assert(ws10.remove(p.spec_idx()).contains(h2.spec_idx()));
            assert(word_bits(m11, h2.spec_idx()) == h2_b);
        }
        proof { assert(ws11.contains(ns.spec_idx())); }
        ns.release(fe);
        let ghost m12 = fe.model();
        let ghost ws12 = ws11.remove(ns.spec_idx());
        proof {
            lemma_live_release::<W, N>(m11, m12, ws11, ns.spec_idx());
            lemma_grows_trans(m0, m11, m12, (18 * N) as nat, 0);
            lemma_grows_room(m11, m12, 0, (0 * N) as nat);
            fe.backend.lemma_model();
            assert(ws11.remove(ns.spec_idx()).contains(lo.spec_idx()));
            assert(word_bits(m12, lo.spec_idx()) == lo_b);
            assert(ws11.remove(ns.spec_idx()).contains(hi.spec_idx()));
            assert(word_bits(m12, hi.spec_idx()) == hi_b);
            assert(ws11.remove(ns.spec_idx()).contains(al.spec_idx()));
            assert(word_bits(m12, al.spec_idx()) == al_b);
            assert(ws11.remove(ns.spec_idx()).contains(ah.spec_idx()));
            assert(word_bits(m12, ah.spec_idx()) == ah_b);
            assert(ws11.remove(ns.spec_idx()).contains(s.spec_idx()));
            assert(word_bits(m12, s.spec_idx()) == s_b);
            assert(ws11.remove(ns.spec_idx()).contains(q.spec_idx()));
            assert(word_bits(m12, q.spec_idx()) == q_b);
            assert(ws11.remove(ns.spec_idx()).contains(t.spec_idx()));
            assert(word_bits(m12, t.spec_idx()) == t_b);
            assert(ws11.remove(ns.spec_idx()).contains(c.spec_idx()));
            assert(word_bits(m12, c.spec_idx()) == c_b);
            assert(ws11.remove(ns.spec_idx()).contains(h1.spec_idx()));
            assert(word_bits(m12, h1.spec_idx()) == h1_b);
            assert(ws11.remove(ns.spec_idx()).contains(h2.spec_idx()));
            assert(word_bits(m12, h2.spec_idx()) == h2_b);
        }
        proof { assert(ws12.contains(q.spec_idx())); }
        q.release(fe);
        let ghost m13 = fe.model();
        let ghost ws13 = ws12.remove(q.spec_idx());
        proof {
            lemma_live_release::<W, N>(m12, m13, ws12, q.spec_idx());
            lemma_grows_trans(m0, m12, m13, (18 * N) as nat, 0);
            lemma_grows_room(m12, m13, 0, (0 * N) as nat);
            fe.backend.lemma_model();
            assert(ws12.remove(q.spec_idx()).contains(lo.spec_idx()));
            assert(word_bits(m13, lo.spec_idx()) == lo_b);
            assert(ws12.remove(q.spec_idx()).contains(hi.spec_idx()));
            assert(word_bits(m13, hi.spec_idx()) == hi_b);
            assert(ws12.remove(q.spec_idx()).contains(al.spec_idx()));
            assert(word_bits(m13, al.spec_idx()) == al_b);
            assert(ws12.remove(q.spec_idx()).contains(ah.spec_idx()));
            assert(word_bits(m13, ah.spec_idx()) == ah_b);
            assert(ws12.remove(q.spec_idx()).contains(s.spec_idx()));
            assert(word_bits(m13, s.spec_idx()) == s_b);
            assert(ws12.remove(q.spec_idx()).contains(t.spec_idx()));
            assert(word_bits(m13, t.spec_idx()) == t_b);
            assert(ws12.remove(q.spec_idx()).contains(c.spec_idx()));
            assert(word_bits(m13, c.spec_idx()) == c_b);
            assert(ws12.remove(q.spec_idx()).contains(h1.spec_idx()));
            assert(word_bits(m13, h1.spec_idx()) == h1_b);
            assert(ws12.remove(q.spec_idx()).contains(h2.spec_idx()));
            assert(word_bits(m13, h2.spec_idx()) == h2_b);
        }
        proof { assert(ws13.contains(t.spec_idx())); }
        t.release(fe);
        let ghost m14 = fe.model();
        let ghost ws14 = ws13.remove(t.spec_idx());
        proof {
            lemma_live_release::<W, N>(m13, m14, ws13, t.spec_idx());
            lemma_grows_trans(m0, m13, m14, (18 * N) as nat, 0);
            lemma_grows_room(m13, m14, 0, (0 * N) as nat);
            fe.backend.lemma_model();
            assert(ws13.remove(t.spec_idx()).contains(lo.spec_idx()));
            assert(word_bits(m14, lo.spec_idx()) == lo_b);
            assert(ws13.remove(t.spec_idx()).contains(hi.spec_idx()));
            assert(word_bits(m14, hi.spec_idx()) == hi_b);
            assert(ws13.remove(t.spec_idx()).contains(al.spec_idx()));
            assert(word_bits(m14, al.spec_idx()) == al_b);
            assert(ws13.remove(t.spec_idx()).contains(ah.spec_idx()));
            assert(word_bits(m14, ah.spec_idx()) == ah_b);
            assert(ws13.remove(t.spec_idx()).contains(s.spec_idx()));
            assert(word_bits(m14, s.spec_idx()) == s_b);
            assert(ws13.remove(t.spec_idx()).contains(c.spec_idx()));
            assert(word_bits(m14, c.spec_idx()) == c_b);
            assert(ws13.remove(t.spec_idx()).contains(h1.spec_idx()));
            assert(word_bits(m14, h1.spec_idx()) == h1_b);
            assert(ws13.remove(t.spec_idx()).contains(h2.spec_idx()));
            assert(word_bits(m14, h2.spec_idx()) == h2_b);
        }
        proof { assert(ws14.contains(c.spec_idx())); }
        c.release(fe);
        let ghost m15 = fe.model();
        let ghost ws15 = ws14.remove(c.spec_idx());
        proof {
            lemma_live_release::<W, N>(m14, m15, ws14, c.spec_idx());
            lemma_grows_trans(m0, m14, m15, (18 * N) as nat, 0);
            lemma_grows_room(m14, m15, 0, (0 * N) as nat);
            fe.backend.lemma_model();
            assert(ws14.remove(c.spec_idx()).contains(lo.spec_idx()));
            assert(word_bits(m15, lo.spec_idx()) == lo_b);
            assert(ws14.remove(c.spec_idx()).contains(hi.spec_idx()));
            assert(word_bits(m15, hi.spec_idx()) == hi_b);
            assert(ws14.remove(c.spec_idx()).contains(al.spec_idx()));
            assert(word_bits(m15, al.spec_idx()) == al_b);
            assert(ws14.remove(c.spec_idx()).contains(ah.spec_idx()));
            assert(word_bits(m15, ah.spec_idx()) == ah_b);
            assert(ws14.remove(c.spec_idx()).contains(s.spec_idx()));
            assert(word_bits(m15, s.spec_idx()) == s_b);
            assert(ws14.remove(c.spec_idx()).contains(h1.spec_idx()));
            assert(word_bits(m15, h1.spec_idx()) == h1_b);
            assert(ws14.remove(c.spec_idx()).contains(h2.spec_idx()));
            assert(word_bits(m15, h2.spec_idx()) == h2_b);
        }
        proof { assert(ws15.contains(h1.spec_idx())); }
        h1.release(fe);
        let ghost m16 = fe.model();
        let ghost ws16 = ws15.remove(h1.spec_idx());
        proof {
            lemma_live_release::<W, N>(m15, m16, ws15, h1.spec_idx());
            lemma_grows_trans(m0, m15, m16, (18 * N) as nat, 0);
            lemma_grows_room(m15, m16, 0, (0 * N) as nat);
            fe.backend.lemma_model();
            assert(ws15.remove(h1.spec_idx()).contains(lo.spec_idx()));
            assert(word_bits(m16, lo.spec_idx()) == lo_b);
            assert(ws15.remove(h1.spec_idx()).contains(hi.spec_idx()));
            assert(word_bits(m16, hi.spec_idx()) == hi_b);
            assert(ws15.remove(h1.spec_idx()).contains(al.spec_idx()));
            assert(word_bits(m16, al.spec_idx()) == al_b);
            assert(ws15.remove(h1.spec_idx()).contains(ah.spec_idx()));
            assert(word_bits(m16, ah.spec_idx()) == ah_b);
            assert(ws15.remove(h1.spec_idx()).contains(s.spec_idx()));
            assert(word_bits(m16, s.spec_idx()) == s_b);
            assert(ws15.remove(h1.spec_idx()).contains(h2.spec_idx()));
            assert(word_bits(m16, h2.spec_idx()) == h2_b);
        }
        proof {
            assert(ws16 =~= ws.insert(s.spec_idx()).insert(h2.spec_idx()));
            assert forall|y: WordIdx<W, N>| #[trigger] ws.contains(y) implies word_bits(m16, y) == word_bits(m0, y) && ws16.contains(y) && ws0.contains(y) && ws8.contains(y) by {
                assert(ws0.contains(y));
                assert(y != s.spec_idx());
                assert(ws1.contains(y));
                assert(y != g.spec_idx());
                assert(ws2.contains(y));
                assert(y != p.spec_idx());
                assert(ws3.contains(y));
                assert(y != ns.spec_idx());
                assert(ws4.contains(y));
                assert(y != q.spec_idx());
                assert(ws5.contains(y));
                assert(y != t.spec_idx());
                assert(ws6.contains(y));
                assert(y != c.spec_idx());
                assert(ws7.contains(y));
                assert(y != h1.spec_idx());
                assert(ws8.contains(y));
                assert(y != h2.spec_idx());
                assert(ws9.contains(y));
                assert(ws9.remove(g.spec_idx()).contains(y));
                assert(ws10.contains(y));
                assert(ws10.remove(p.spec_idx()).contains(y));
                assert(ws11.contains(y));
                assert(ws11.remove(ns.spec_idx()).contains(y));
                assert(ws12.contains(y));
                assert(ws12.remove(q.spec_idx()).contains(y));
                assert(ws13.contains(y));
                assert(ws13.remove(t.spec_idx()).contains(y));
                assert(ws14.contains(y));
                assert(ws14.remove(c.spec_idx()).contains(y));
                assert(ws15.contains(y));
                assert(ws15.remove(h1.spec_idx()).contains(y));
            }
            if ws.contains(s.spec_idx()) { assert(ws0.contains(s.spec_idx())); }
            if ws.contains(h2.spec_idx()) { assert(ws8.contains(h2.spec_idx())); }
            assert(ws8.contains(s.spec_idx()));
        }
        (s, h2)
    }
    /// Doubles the double word `(al, ah)`: the low word shifted left by one, and the high word
    /// shifted left by one with the top bit of the low word coming in. The given words stay
    /// referenced.
    #[verifier::spinoff_prover]
    fn shift_step(al: &Self, ah: &Self, fe: &mut Frontend<B>, Ghost(ws): Ghost<Set<WordIdx<W, N>>>) -> (r: (Self, Self))
        requires
            old(fe).wf(),
            shape_ok::<W, N>(),
            live_all(old(fe).model(), ws),
            ws.contains(al.spec_idx()),
            ws.contains(ah.spec_idx()),
            room_all(old(fe).model(), (4 * N) as nat),
        ensures
            final(fe).wf(),
            final(fe).spec_backend().key() == old(fe).spec_backend().key(),
            live_all(final(fe).model(), ws.insert(r.0.spec_idx()).insert(r.1.spec_idx())),
            !ws.contains(r.0.spec_idx()),
            !ws.contains(r.1.spec_idx()),
            r.0.spec_idx() != r.1.spec_idx(),
            forall|y: WordIdx<W, N>| #[trigger] ws.contains(y) ==> word_bits(final(fe).model(), y) == word_bits(old(fe).model(), y),
            grows_by(old(fe).model(), final(fe).model(), (4 * N) as nat),
            B::tracks_values() ==> word_bits(final(fe).model(), r.0.spec_idx()) == seq_shl(word_bits(old(fe).model(), al.spec_idx()), 1),
            B::tracks_values() ==> word_bits(final(fe).model(), r.1.spec_idx()) == seq_xor(seq_shl(word_bits(old(fe).model(), ah.spec_idx()), 1), seq_shr(word_bits(old(fe).model(), al.spec_idx()), word_bits(old(fe).model(), al.spec_idx()).len() - 1)),
    {
        let ghost m0 = fe.model();
        let ghost ws0 = ws;
        proof {
            crate::backend::backend::lemma_shape_ok::<W, N>();
            fe.backend.lemma_model();
            W::lemma_width();
            assert(grows_by(m0, m0, 0));
        }
        let ghost al_b = word_bits(m0, al.spec_idx());
        let ghost ah_b = word_bits(m0, ah.spec_idx());
        let top: usize = CompositeWord::<W, N>::width() - 1;
        proof {
            lemma_word_bits_len(m0, al.spec_idx());
        }
        proof { assert(ws0.contains(al.spec_idx())); }
        let t = al.unop_ref(fe, UnOp::Shr(top));
        let ghost m1 = fe.model();
        let ghost ws1 = ws0.insert(t.spec_idx());
        let ghost t_b = word_bits(m1, t.spec_idx());
        proof {
            lemma_live_step::<W, N>(m0, m1, ws0, (1 * N) as nat, t.spec_idx());
            lemma_grows_trans(m0, m0, m1, (0 * N) as nat, (1 * N) as nat);
            lemma_grows_room(m0, m1, (1 * N) as nat, (3 * N) as nat);
            fe.backend.lemma_model();
            assert(ws0.contains(al.spec_idx()));
            assert(word_bits(m1, al.spec_idx()) == al_b);
            assert(ws0.contains(ah.spec_idx()));
            assert(word_bits(m1, ah.spec_idx()) == ah_b);
            assert(B::tracks_values() ==> t_b == seq_shr(al_b, top as int));
        }
        proof { assert(ws1.contains(al.spec_idx())); }
        let nal = al.unop_ref(fe, UnOp::Shl(1));
        let ghost m2 = fe.model();
        let ghost ws2 = ws1.insert(nal.spec_idx());
        let ghost nal_b = word_bits(m2, nal.spec_idx());
        proof {
            lemma_live_step::<W, N>(m1, m2, ws1, (1 * N) as nat, nal.spec_idx());
            lemma_grows_trans(m0, m1, m2, (1 * N) as nat, (1 * N) as nat);
            lemma_grows_room(m1, m2, (1 * N) as nat, (2 * N) as nat);
            fe.backend.lemma_model();
            assert(ws1.contains(al.spec_idx()));
            assert(word_bits(m2, al.spec_idx()) == al_b);
            assert(ws1.contains(ah.spec_idx()));
            assert(word_bits(m2, ah.spec_idx()) == ah_b);
            assert(ws1.contains(t.spec_idx()));
            assert(word_bits(m2, t.spec_idx()) == t_b);
            assert(B::tracks_values() ==> nal_b == seq_shl(al_b, 1));
        }
        proof { assert(ws2.contains(ah.spec_idx())); }
        let u = ah.unop_ref(fe, UnOp::Shl(1));
        let ghost m3 = fe.model();
        let ghost ws3 = ws2.insert(u.spec_idx());
        let ghost u_b = word_bits(m3, u.spec_idx());
        proof {
            lemma_live_step::<W, N>(m2, m3, ws2, (1 * N) as nat, u.spec_idx());
            lemma_grows_trans(m0, m2, m3, (2 * N) as nat, (1 * N) as nat);
            lemma_grows_room(m2, m3, (1 * N) as nat, (1 * N) as nat);
            fe.backend.lemma_model();
            assert(ws2.contains(al.spec_idx()));
            assert(word_bits(m3, al.spec_idx()) == al_b);
            assert(ws2.contains(ah.spec_idx()));
            assert(word_bits(m3, ah.spec_idx()) == ah_b);
            assert(ws2.contains(t.spec_idx()));
            assert(word_bits(m3, t.spec_idx()) == t_b);
            assert(ws2.contains(nal.spec_idx()));
            assert(word_bits(m3, nal.spec_idx()) == nal_b);
            assert(B::tracks_values() ==> u_b == seq_shl(ah_b, 1));
        }
        proof { assert(ws3.contains(u.spec_idx())); }
        proof { assert(ws3.contains(t.spec_idx())); }
        let nah = u.binop_ref(&t, fe, BinOp::Xor);
        let ghost m4 = fe.model();
        let ghost ws4 = ws3.insert(nah.spec_idx());
        let ghost nah_b = word_bits(m4, nah.spec_idx());
        proof {
            lemma_live_step::<W, N>(m3, m4, ws3, (1 * N) as nat, nah.spec_idx());
            lemma_grows_trans(m0, m3, m4, (3 * N) as nat, (1 * N) as nat);
            lemma_grows_room(m3, m4, (1 * N) as nat, (0 * N) as nat);
            fe.backend.lemma_model();
            assert(ws3.contains(al.spec_idx()));
            assert(word_bits(m4, al.spec_idx()) == al_b);
            assert(ws3.contains(ah.spec_idx()));
            assert(word_bits(m4, ah.spec_idx()) == ah_b);
            assert(ws3.contains(t.spec_idx()));
            assert(word_bits(m4, t.spec_idx()) == t_b);
            assert(ws3.contains(nal.spec_idx()));
            assert(word_bits(m4, nal.spec_idx()) == nal_b);
            assert(ws3.contains(u.spec_idx()));
            assert(word_bits(m4, u.spec_idx()) == u_b);
            assert(B::tracks_values() ==> nah_b == seq_xor(u_b, t_b));
        }
        proof { assert(ws4.contains(t.spec_idx())); }
        t.release(fe);
        let ghost m5 = fe.model();
        let ghost ws5 = ws4.remove(t.spec_idx());
        proof {
            lemma_live_release::<W, N>(m4, m5, ws4, t.spec_idx());
            lemma_grows_trans(m0, m4, m5, (4 * N) as nat, 0);
            lemma_grows_room(m4, m5, 0, (0 * N) as nat);
            fe.backend.lemma_model();
            assert(ws4.remove(t.spec_idx()).contains(al.spec_idx()));
            assert(word_bits(m5, al.spec_idx()) == al_b);
            assert(ws4.remove(t.spec_idx()).contains(ah.spec_idx()));
            assert(word_bits(m5, ah.spec_idx()) == ah_b);
            assert(ws4.remove(t.spec_idx()).contains(nal.spec_idx()));
            assert(word_bits(m5, nal.spec_idx()) == nal_b);
            assert(ws4.remove(t.spec_idx()).contains(u.spec_idx()));
            assert(word_bits(m5, u.spec_idx()) == u_b);
            assert(ws4.remove(t.spec_idx()).contains(nah.spec_idx()));
            assert(word_bits(m5, nah.spec_idx()) == nah_b);
        }
        proof { assert(ws5.contains(u.spec_idx())); }
        u.release(fe);
        let ghost m6 = fe.model();
        let ghost ws6 = ws5.remove(u.spec_idx());
        proof {
            lemma_live_release::<W, N>(m5, m6, ws5, u.spec_idx());
            lemma_grows_trans(m0, m5, m6, (4 * N) as nat, 0);
            lemma_grows_room(m5, m6, 0, (0 * N) as nat);
            fe.backend.lemma_model();
            assert(ws5.remove(u.spec_idx()).contains(al.spec_idx()));
            assert(word_bits(m6, al.spec_idx()) == al_b);
            assert(ws5.remove(u.spec_idx()).contains(ah.spec_idx()));
            assert(word_bits(m6, ah.spec_idx()) == ah_b);
            assert(ws5.remove(u.spec_idx()).contains(nal.spec_idx()));
            assert(word_bits(m6, nal.spec_idx()) == nal_b);
            assert(ws5.remove(u.spec_idx()).contains(nah.spec_idx()));
            assert(word_bits(m6, nah.spec_idx()) == nah_b);
        }
        proof {
            assert(ws6 =~= ws.insert(nal.spec_idx()).insert(nah.spec_idx()));
            assert forall|y: WordIdx<W, N>| #[trigger] ws.contains(y) implies word_bits(m6, y) == word_bits(m0, y) && ws6.contains(y) && ws1.contains(y) && ws3.contains(y) by {
                assert(ws0.contains(y));
                assert(y != t.spec_idx());
                assert(ws1.contains(y));
                assert(y != nal.spec_idx());
                assert(ws2.contains(y));
                assert(y != u.spec_idx());
                assert(ws3.contains(y));
                assert(y != nah.spec_idx());
                assert(ws4.contains(y));
                assert(ws4.remove(t.spec_idx()).contains(y));
                assert(ws5.contains(y));
                assert(ws5.remove(u.spec_idx()).contains(y));
            }
            if ws.contains(nal.spec_idx()) { assert(ws1.contains(nal.spec_idx())); }
            if ws.contains(nah.spec_idx()) { assert(ws3.contains(nah.spec_idx())); }
            assert(ws3.contains(nal.spec_idx()));
        }
        (nal, nah)
    }
    /// The double word `(al, ah)` where the lowest bit of `b` is set, zero otherwise: both
    /// words ANDed with the negation of that bit. The given words stay referenced.
    #[verifier::rlimit(40)]
    #[verifier::spinoff_prover]
    fn select_step(b: &Self, al: &Self, ah: &Self, fe: &mut Frontend<B>, Ghost(ws): Ghost<Set<WordIdx<W, N>>>) -> (r: (Self, Self))
        requires
            old(fe).wf(),
            shape_ok::<W, N>(),
            live_all(old(fe).model(), ws),
            ws.contains(b.spec_idx()),
            ws.contains(al.spec_idx()),
            ws.contains(ah.spec_idx()),
            room_all(old(fe).model(), (8 * N) as nat),
        ensures
            final(fe).wf(),
            final(fe).spec_backend().key() == old(fe).spec_backend().key(),
            live_all(final(fe).model(), ws.insert(r.0.spec_idx()).insert(r.1.spec_idx())),
            !ws.contains(r.0.spec_idx()),
            !ws.contains(r.1.spec_idx()),
            r.0.spec_idx() != r.1.spec_idx(),
            forall|y: WordIdx<W, N>| #[trigger] ws.contains(y) ==> word_bits(final(fe).model(), y) == word_bits(old(fe).model(), y),
            grows_by(old(fe).model(), final(fe).model(), (8 * N) as nat),
            B::tracks_values() ==> word_bits(final(fe).model(), r.0.spec_idx()) == seq_and(word_bits(old(fe).model(), al.spec_idx()), bit_mask(word_bits(old(fe).model(), b.spec_idx()))),
            B::tracks_values() ==> word_bits(final(fe).model(), r.1.spec_idx()) == seq_and(word_bits(old(fe).model(), ah.spec_idx()), bit_mask(word_bits(old(fe).model(), b.spec_idx()))),
    {
        let ghost m0 = fe.model();
        let ghost ws0 = ws;
        proof {
            crate::backend::backend::lemma_shape_ok::<W, N>();
            fe.backend.lemma_model();
            W::lemma_width();
            assert(grows_by(m0, m0, 0));
        }
        let ghost b_b = word_bits(m0, b.spec_idx());
        let ghost al_b = word_bits(m0, al.spec_idx());
        let ghost ah_b = word_bits(m0, ah.spec_idx());
        let one = CompositeWord::<W, N>::one();
        let zero = CompositeWord::<W, N>::zero();
        proof {
            lemma_word_bits_len(m0, b.spec_idx());
            assert(one.cbits() =~= low_bit(b_b.len()));
        }
        proof { assert(ws0.contains(b.spec_idx())); }
        let bw = b.constop_ref(one, fe, BinOp::And);
        let ghost m1 = fe.model();
        let ghost ws1 = ws0.insert(bw.spec_idx());
        let ghost bw_b = word_bits(m1, bw.spec_idx());
        proof {
            lemma_live_step::<W, N>(m0, m1, ws0, (1 * N) as nat, bw.spec_idx());
            lemma_grows_trans(m0, m0, m1, (0 * N) as nat, (1 * N) as nat);
            lemma_grows_room(m0, m1, (1 * N) as nat, (7 * N) as nat);
            fe.backend.lemma_model();
            assert(ws0.contains(b.spec_idx()));
            assert(word_bits(m1, b.spec_idx()) == b_b);
            assert(ws0.contains(al.spec_idx()));
            assert(word_bits(m1, al.spec_idx()) == al_b);
            assert(ws0.contains(ah.spec_idx()));
            assert(word_bits(m1, ah.spec_idx()) == ah_b);
            assert(B::tracks_values() ==> bw_b == seq_and(b_b, one.cbits()));
        }
        proof { assert(ws1.contains(bw.spec_idx())); }
        let nb = bw.unop_ref(fe, UnOp::Not);
        let ghost m2 = fe.model();
        let ghost ws2 = ws1.insert(nb.spec_idx());
        let ghost nb_b = word_bits(m2, nb.spec_idx());
        proof {
            lemma_live_step::<W, N>(m1, m2, ws1, (1 * N) as nat, nb.spec_idx());
            lemma_grows_trans(m0, m1, m2, (1 * N) as nat, (1 * N) as nat);
            lemma_grows_room(m1, m2, (1 * N) as nat, (6 * N) as nat);
            fe.backend.lemma_model();
            assert(ws1.contains(b.spec_idx()));
            assert(word_bits(m2, b.spec_idx()) == b_b);
            assert(ws1.contains(al.spec_idx()));
            assert(word_bits(m2, al.spec_idx()) == al_b);
            assert(ws1.contains(ah.spec_idx()));
            assert(word_bits(m2, ah.spec_idx()) == ah_b);
            assert(ws1.contains(bw.spec_idx()));
            assert(word_bits(m2, bw.spec_idx()) == bw_b);
            assert(B::tracks_values() ==> nb_b == seq_not(bw_b));
        }
        proof { assert(ws2.contains(nb.spec_idx())); }
        let mk = nb.add_const_ref(zero, true, fe);
        let ghost m3 = fe.model();
        let ghost ws3 = ws2.insert(mk.spec_idx());
        let ghost mk_b = word_bits(m3, mk.spec_idx());
        proof {
            lemma_live_step::<W, N>(m2, m3, ws2, (4 * N) as nat, mk.spec_idx());
            lemma_grows_trans(m0, m2, m3, (2 * N) as nat, (4 * N) as nat);
            lemma_grows_room(m2, m3, (4 * N) as nat, (2 * N) as nat);
            fe.backend.lemma_model();
            assert(ws2.contains(b.spec_idx()));
            assert(word_bits(m3, b.spec_idx()) == b_b);
            assert(ws2.contains(al.spec_idx()));
            assert(word_bits(m3, al.spec_idx()) == al_b);
            assert(ws2.contains(ah.spec_idx()));
            assert(word_bits(m3, ah.spec_idx()) == ah_b);
            assert(ws2.contains(bw.spec_idx()));
            assert(word_bits(m3, bw.spec_idx()) == bw_b);
            assert(ws2.contains(nb.spec_idx()));
            assert(word_bits(m3, nb.spec_idx()) == nb_b);
            assert(B::tracks_values() ==> mk_b == seq_add(nb_b, zero.cbits(), true));
        }
        proof { assert(ws3.contains(al.spec_idx())); }
        proof { assert(ws3.contains(mk.spec_idx())); }
        let sl = al.binop_ref(&mk, fe, BinOp::And);
        let ghost m4 = fe.model();
        let ghost ws4 = ws3.insert(sl.spec_idx());
        let ghost sl_b = word_bits(m4, sl.spec_idx());
        proof {
            lemma_live_step::<W, N>(m3, m4, ws3, (1 * N) as nat, sl.spec_idx());
            lemma_grows_trans(m0, m3, m4, (6 * N) as nat, (1 * N) as nat);
            lemma_grows_room(m3, m4, (1 * N) as nat, (1 * N) as nat);
            fe.backend.lemma_model();
            assert(ws3.contains(b.spec_idx()));
            assert(word_bits(m4, b.spec_idx()) == b_b);
            assert(ws3.contains(al.spec_idx()));
            assert(word_bits(m4, al.spec_idx()) == al_b);
            assert(ws3.contains(ah.spec_idx()));
            assert(word_bits(m4, ah.spec_idx()) == ah_b);
            assert(ws3.contains(bw.spec_idx()));
            assert(word_bits(m4, bw.spec_idx()) == bw_b);
            assert(ws3.contains(nb.spec_idx()));
            assert(word_bits(m4, nb.spec_idx()) == nb_b);
            assert(ws3.contains(mk.spec_idx()));
            assert(word_bits(m4, mk.spec_idx()) == mk_b);
            assert(B::tracks_values() ==> sl_b == seq_and(al_b, mk_b));
        }
        proof { assert(ws4.contains(ah.spec_idx())); }
        proof { assert(ws4.contains(mk.spec_idx())); }
        let sh = ah.binop_ref(&mk, fe, BinOp::And);
        let ghost m5 = fe.model();
        let ghost ws5 = ws4.insert(sh.spec_idx());
        let ghost sh_b = word_bits(m5, sh.spec_idx());
        proof {
            lemma_live_step::<W, N>(m4, m5, ws4, (1 * N) as nat, sh.spec_idx());
            lemma_grows_trans(m0, m4, m5, (7 * N) as nat, (1 * N) as nat);
            lemma_grows_room(m4, m5, (1 * N) as nat, (0 * N) as nat);
            fe.backend.lemma_model();
            assert(ws4.contains(b.spec_idx()));
            assert(word_bits(m5, b.spec_idx()) == b_b);
            assert(ws4.contains(al.spec_idx()));
            assert(word_bits(m5, al.spec_idx()) == al_b);
            assert(ws4.contains(ah.spec_idx()));
            assert(word_bits(m5, ah.spec_idx()) == ah_b);
            assert(ws4.contains(bw.spec_idx()));
            assert(word_bits(m5, bw.spec_idx()) == bw_b);
            assert(ws4.contains(nb.spec_idx()));
            assert(word_bits(m5, nb.spec_idx()) == nb_b);
            assert(ws4.contains(mk.spec_idx()));
            assert(word_bits(m5, mk.spec_idx()) == mk_b);
            assert(ws4.contains(sl.spec_idx()));
            assert(word_bits(m5, sl.spec_idx()) == sl_b);
            assert(B::tracks_values() ==> sh_b == seq_and(ah_b, mk_b));
        }
        proof { assert(ws5.contains(bw.spec_idx())); }
        bw.release(fe);
        let ghost m6 = fe.model();
        let ghost ws6 = ws5.remove(bw.spec_idx());
        proof {
            lemma_live_release::<W, N>(m5, m6, ws5, bw.spec_idx());
            lemma_grows_trans(m0, m5, m6, (8 * N) as nat, 0);
            lemma_grows_room(m5, m6, 0, (0 * N) as nat);
            fe.backend.lemma_model();
            assert(ws5.remove(bw.spec_idx()).contains(b.spec_idx()));
            assert(word_bits(m6, b.spec_idx()) == b_b);
            assert(ws5.remove(bw.spec_idx()).contains(al.spec_idx()));
            assert(word_bits(m6, al.spec_idx()) == al_b);
            assert(ws5.remove(bw.spec_idx()).contains(ah.spec_idx()));
            assert(word_bits(m6, ah.spec_idx()) == ah_b);
            assert(ws5.remove(bw.spec_idx()).contains(nb.spec_idx()));
            assert(word_bits(m6, nb.spec_idx()) == nb_b);
            assert(ws5.remove(bw.spec_idx()).contains(mk.spec_idx()));
            assert(word_bits(m6, mk.spec_idx()) == mk_b);
            assert(ws5.remove(bw.spec_idx()).contains(sl.spec_idx()));
            assert(word_bits(m6, sl.spec_idx()) == sl_b);
            assert(ws5.remove(bw.spec_idx()).contains(sh.spec_idx()));
            assert(word_bits(m6, sh.spec_idx()) == sh_b);
        }
        proof { assert(ws6.contains(nb.spec_idx())); }
        nb.release(fe);
        let ghost m7 = fe.model();
        let ghost ws7 = ws6.remove(nb.spec_idx());
        proof {
            lemma_live_release::<W, N>(m6, m7, ws6, nb.spec_idx());
            lemma_grows_trans(m0, m6, m7, (8 * N) as nat, 0);
            lemma_grows_room(m6, m7, 0, (0 * N) as nat);
            fe.backend.lemma_model();
            assert(ws6.remove(nb.spec_idx()).contains(b.spec_idx()));
            assert(word_bits(m7, b.spec_idx()) == b_b);
            assert(ws6.remove(nb.spec_idx()).contains(al.spec_idx()));
            assert(word_bits(m7, al.spec_idx()) == al_b);
            assert(ws6.remove(nb.spec_idx()).contains(ah.spec_idx()));
            assert(word_bits(m7, ah.spec_idx()) == ah_b);
            assert(ws6.remove(nb.spec_idx()).contains(mk.spec_idx()));
            assert(word_bits(m7, mk.spec_idx()) == mk_b);
            assert(ws6.remove(nb.spec_idx()).contains(sl.spec_idx()));
            assert(word_bits(m7, sl.spec_idx()) == sl_b);
            assert(ws6.remove(nb.spec_idx()).contains(sh.spec_idx()));
            assert(word_bits(m7, sh.spec_idx()) == sh_b);
        }
        proof { assert(ws7.contains(mk.spec_idx())); }
        mk.release(fe);
        let ghost m8 = fe.model();
        let ghost ws8 = ws7.remove(mk.spec_idx());
        proof {
            lemma_live_release::<W, N>(m7, m8, ws7, mk.spec_idx());
            lemma_grows_trans(m0, m7, m8, (8 * N) as nat, 0);
            lemma_grows_room(m7, m8, 0, (0 * N) as nat);
            fe.backend.lemma_model();
            assert(ws7.remove(mk.spec_idx()).contains(b.spec_idx()));
            assert(word_bits(m8, b.spec_idx()) == b_b);
            assert(ws7.remove(mk.spec_idx()).contains(al.spec_idx()));
            assert(word_bits(m8, al.spec_idx()) == al_b);
            assert(ws7.remove(mk.spec_idx()).contains(ah.spec_idx()));
            assert(word_bits(m8, ah.spec_idx()) == ah_b);
            assert(ws7.remove(mk.spec_idx()).contains(sl.spec_idx()));
            assert(word_bits(m8, sl.spec_idx()) == sl_b);
            assert(ws7.remove(mk.spec_idx()).contains(sh.spec_idx()));
            assert(word_bits(m8, sh.spec_idx()) == sh_b);
        }
        proof {
            assert(ws8 =~= ws.insert(sl.spec_idx()).insert(sh.spec_idx()));
            assert forall|y: WordIdx<W, N>| #[trigger] ws.contains(y) implies word_bits(m8, y) == word_bits(m0, y) && ws8.contains(y) && ws3.contains(y) && ws4.contains(y) by {
                assert(ws0.contains(y));
                assert(y != bw.spec_idx());
                assert(ws1.contains(y));
                assert(y != nb.spec_idx());
                assert(ws2.contains(y));
                assert(y != mk.spec_idx());
                assert(ws3.contains(y));
                assert(y != sl.spec_idx());
                assert(ws4.contains(y));
                assert(y != sh.spec_idx());
                assert(ws5.contains(y));
                assert(ws5.remove(bw.spec_idx()).contains(y));
                assert(ws6.contains(y));
                assert(ws6.remove(nb.spec_idx()).contains(y));
                assert(ws7.contains(y));
                assert(ws7.remove(mk.spec_idx()).contains(y));
            }
            if ws.contains(sl.spec_idx()) { assert(ws3.contains(sl.spec_idx())); }
            if ws.contains(sh.spec_idx()) { assert(ws4.contains(sh.spec_idx())); }
            assert(ws4.contains(sl.spec_idx()));
        }
        (sl, sh)
    }
}

/// The carry word of a sum holds its carry out, and the sum with it makes up the two values.
#[verifier::spinoff_prover]
proof fn lemma_carry_bits(a: Seq<bool>, b: Seq<bool>)
    requires
        a.len() == b.len(),
        a.len() > 0,
    ensures
        bits_val(carry_bits(a, b)) == bool_nat(seq_add_carry(a, b, false)),
        bits_val(a) + bits_val(b) == bits_val(seq_add(a, b, false)) + pow2(a.len()) * bits_val(carry_bits(a, b)),
        carry_bits(a, b).len() == a.len(),
{
    let n = a.len();
    let p = seq_xor(a, b);
    let g = seq_and(a, b);
    let s = seq_add(a, b, false);
    let t = seq_xor(g, seq_and(p, seq_not(s)));
    let cb = carry_bits(a, b);
    assert(cb =~= Seq::new(n, |i: int| i == 0 && t[n - 1]));
    assert(s[n - 1] == (p[n - 1] != carry_at(p, g, false, (n - 1) as nat)));
    assert(carry_at(p, g, false, n) == ((carry_at(p, g, false, (n - 1) as nat) && p[n - 1]) != g[n - 1]));
    assert(t[n - 1] == seq_add_carry(a, b, false));
    if t[n - 1] {
        lemma_bits_val_one(cb);
    } else {
        assert(cb =~= seq_zeros(n));
        lemma_bits_val_zeros(n);
    }
    lemma_add_value(a, b, false);
    lemma_bits_val_bound(a);
    lemma_bits_val_bound(b);
    lemma_split_sum(bits_val(a), bits_val(b), pow2(n));
    assert(bits_val(a) + bits_val(b) + bool_nat(false) == bits_val(a) + bits_val(b));
}

/// Adding the double word `(c, d)` to `(a, h)`, with the carry `cv` out of `a + c`, gives the
/// double word `(s, h2)` when the total fits in a double word.
proof fn lemma_acc_values(a: nat, h: nat, c: nat, d: nat, s: nat, cv: nat, h1: nat, h2: nat, p: nat)
    requires
        p > 0,
        h < p,
        d < p,
        a + c == s + p * cv,
        h1 == (d + cv) % p,
        h2 == (h + h1) % p,
        a + p * h + c + p * d < p * p,
    ensures
        s + p * h2 == a + p * h + c + p * d,
{
    assert(cv + d + h < p) by (nonlinear_arith)
        requires
            a + c == s + p * cv,
            a + p * h + c + p * d < p * p,
            p > 0,
    ;
    vstd::arithmetic::div_mod::lemma_small_mod(d + cv, p);
    vstd::arithmetic::div_mod::lemma_small_mod(h + h1, p);
    assert(s + p * h2 == a + p * h + c + p * d) by (nonlinear_arith)
        requires
            a + c == s + p * cv,
            h2 == h + d + cv,
    ;
}

/// Doubling a double word: the low word shifted by one, the high word shifted by one with the
/// top bit of the low word coming in.
proof fn lemma_shift_values(al: Seq<bool>, ah: Seq<bool>)
    requires
        al.len() == ah.len(),
        al.len() > 0,
        2 * (bits_val(al) + pow2(al.len()) * bits_val(ah)) < pow2(al.len()) * pow2(al.len()),
    ensures
        bits_val(seq_shl(al, 1)) + pow2(al.len()) * bits_val(seq_xor(seq_shl(ah, 1), seq_shr(al, al.len() - 1)))
            == 2 * (bits_val(al) + pow2(al.len()) * bits_val(ah)),
{
    let n = al.len();
    let pp = pow2(n);
    let x1 = seq_shl(ah, 1);
    let x2 = seq_shr(al, n - 1);
    assert(seq_xor(x1, x2) =~= crate::word::bitseq::seq_or(x1, x2));
    crate::word::bitseq::lemma_bits_val_or_disjoint(x1, x2);
    lemma_bits_val_shl(ah, 1);
    lemma_bits_val_shl(al, 1);
    lemma_bits_val_shr(al, (n - 1) as nat);
    vstd::arithmetic::power2::lemma2_to64();
    lemma_bits_val_bound(al);
    lemma_bits_val_bound(ah);
    crate::word::composite::lemma_double_split(bits_val(al), n);
    let va = bits_val(al);
    let vh = bits_val(ah);
    assert(2 * vh < pp) by (nonlinear_arith)
        requires
            2 * (va + pp * vh) < pp * pp,
            pp > 0,
    ;
    vstd::arithmetic::div_mod::lemma_small_mod(2 * vh, pp);
    assert(bits_val(x1) == 2 * vh);
    assert(bits_val(seq_shl(al, 1)) + pp * (bits_val(x1) + bits_val(x2)) == 2 * (va + pp * vh)) by (nonlinear_arith)
        requires
            2 * va == (2 * va) % pp + (va / pow2((n - 1) as nat)) * pp,
            bits_val(seq_shl(al, 1)) == (va * 2) % pp,
            bits_val(x2) == va / pow2((n - 1) as nat),
            bits_val(x1) == 2 * vh,
    ;
}

/// A word ANDed with the mask of the lowest bit of `b` is the word where that bit is set, and
/// zero otherwise.
proof fn lemma_mask_values(b: Seq<bool>, x: Seq<bool>)
    requires
        b.len() == x.len(),
        b.len() > 0,
    ensures
        bits_val(seq_and(x, bit_mask(b))) == if b[0] { bits_val(x) } else { 0 },
        b[0] == (bits_val(b) % 2 == 1),
{
    let n = b.len();
    let bw = seq_and(b, low_bit(n));
    let nb = seq_not(bw);
    let mk = bit_mask(b);
    crate::word::bitseq::lemma_bits_val_lsb(b);
    assert(b[0] == (bits_val(b) % 2 == 1)) by (nonlinear_arith)
        requires
            bits_val(b) == bool_nat(b[0]) + 2 * bits_val(b.drop_first()),
            bool_nat(b[0]) == if b[0] { 1nat } else { 0nat },
    ;
    crate::word::bitseq::lemma_bits_val_not(bw);
    crate::word::bitseq::lemma_bits_val_not(mk);
    lemma_bits_val_zeros(n);
    lemma_add_value(nb, seq_zeros(n), true);
    crate::word::bitseq::lemma_bits_val_zero_iff(seq_not(mk));
    crate::word::bitseq::lemma_bits_val_zero_iff(mk);
    vstd::arithmetic::power2::lemma_pow2_pos(n);
    if b[0] {
        lemma_bits_val_one(bw);
        assert(bits_val(nb) + 2 == pow2(n));
        vstd::arithmetic::div_mod::lemma_small_mod((pow2(n) - 1) as nat, pow2(n));
        assert(bits_val(mk) == pow2(n) - 1);
        assert(bits_val(seq_not(mk)) == 0);
        assert forall|i: int| 0 <= i < n implies mk[i] by {
            assert(!seq_not(mk)[i]);
        }
        assert(seq_and(x, mk) =~= x);
    } else {
        assert(bw =~= seq_zeros(n));
        assert(bits_val(nb) + 1 == pow2(n));
        vstd::arithmetic::div_mod::lemma_mod_self_0(pow2(n) as int);
        assert(bits_val(mk) == 0);
        assert(seq_and(x, mk) =~= seq_zeros(n));
    }
}

/// One addition step of the shift-and-add multiplication, on values: the sum of two double
/// words, when it fits in a double word.
proof fn lemma_acc_iteration(lo: Seq<bool>, hi: Seq<bool>, al: Seq<bool>, ah: Seq<bool>, nlo: Seq<bool>, nhi: Seq<bool>)
    requires
        lo.len() > 0,
        hi.len() == lo.len(),
        al.len() == lo.len(),
        ah.len() == lo.len(),
        nlo == seq_add(lo, al, false),
        nhi == seq_add(hi, seq_add(ah, carry_bits(lo, al), false), false),
        bits_val(lo) + pow2(lo.len()) * bits_val(hi) + bits_val(al) + pow2(lo.len()) * bits_val(ah) < pow2(lo.len()) * pow2(lo.len()),
    ensures
        bits_val(nlo) + pow2(lo.len()) * bits_val(nhi) == bits_val(lo) + pow2(lo.len()) * bits_val(hi) + bits_val(al) + pow2(lo.len()) * bits_val(ah),
{
    let n = lo.len();
    let cb = carry_bits(lo, al);
    lemma_carry_bits(lo, al);
    lemma_add_value(ah, cb, false);
    let h1 = seq_add(ah, cb, false);
    lemma_add_value(hi, h1, false);
    lemma_bits_val_bound(hi);
    lemma_bits_val_bound(ah);
    vstd::arithmetic::power2::lemma_pow2_pos(n);
    lemma_acc_values(
        bits_val(lo),
        bits_val(hi),
        bits_val(al),
        bits_val(ah),
        bits_val(nlo),
        bits_val(cb),
        bits_val(h1),
        bits_val(nhi),
        pow2(n),
    );
}

/// `x * y` is below the square of `2^n` for `x`, `y` below `2^n`, and so is `x * 2^t` for
/// `t <= n`.
proof fn lemma_products_fit(x: nat, y: nat, t: nat, n: nat)
    requires
        x < pow2(n),
        y < pow2(n),
        t <= n,
    ensures
        x * y < pow2(n) * pow2(n),
        x * pow2(t) < pow2(n) * pow2(n),
{
    vstd::arithmetic::power2::lemma_pow2_pos(n);
    vstd::arithmetic::power2::lemma_pow2_pos(t);
    if t < n {
        vstd::arithmetic::power2::lemma_pow2_strictly_increases(t, n);
    }
    let p = pow2(n);
    let q = pow2(t);
    assert(x * y < p * p) by (nonlinear_arith)
        requires
            x < p,
            y < p,
    ;
    assert(x * q < p * p) by (nonlinear_arith)
        requires
            x < p,
            q <= p,
            q > 0,
    ;
}

impl<B: Backend, W: Word, const N: usize> WordRef<B, W, N> {
    /// Allocates a zero word, which joins the live words.
    fn alloc_zero_in(fe: &mut Frontend<B>, Ghost(ws): Ghost<Set<WordIdx<W, N>>>) -> (r: Self)
        requires
            old(fe).wf(),
            shape_ok::<W, N>(),
            live_all(old(fe).model(), ws),
            room_all(old(fe).model(), N as nat),
        ensures
            final(fe).wf(),
            final(fe).spec_backend().key() == old(fe).spec_backend().key(),
            live_all(final(fe).model(), ws.insert(r.spec_idx())),
            !ws.contains(r.spec_idx()),
            forall|y: WordIdx<W, N>| #[trigger] ws.contains(y) ==> word_bits(final(fe).model(), y) == word_bits(old(fe).model(), y),
            grows_by(old(fe).model(), final(fe).model(), N as nat),
            B::tracks_values() ==> word_bits(final(fe).model(), r.spec_idx()) == seq_zeros(CompositeWord::<W, N>::spec_cwidth()),
    {
        let ghost m0 = fe.model();
        let zero = CompositeWord::<W, N>::zero();
        proof {
            crate::backend::backend::lemma_shape_ok::<W, N>();
            fe.backend.lemma_model();
            W::lemma_width();
            assert(m0.allocated.get(W::spec_width()).len() + N < usize::MAX);
        }
        let z = fe.allocate(zero);
        proof {
            let m1 = fe.model();
            lemma_produces_evolves(m0, m1, Seq::<WordIdx<W, N>>::empty(), z.spec_idx());
            assert forall|v: nat, i: int| #[trigger] seq_count(Seq::<WordIdx<W, N>>::empty())(v, i) == crate::backend::evolution::no_count()(v, i) by {
                assert(count_uses(Seq::<WordIdx<W, N>>::empty(), v, i) == 0);
            }
            crate::backend::word_ref::lemma_evolves_count_eq(m0, m1, seq_count(Seq::<WordIdx<W, N>>::empty()), crate::backend::evolution::no_count(), N as nat, z.spec_idx());
            lemma_live_step::<W, N>(m0, m1, ws, N as nat, z.spec_idx());
        }
        z
    }

    /// Allocates a constant word, which joins the live words.
    fn alloc_const_in(c: CompositeWord<W, N>, fe: &mut Frontend<B>, Ghost(ws): Ghost<Set<WordIdx<W, N>>>) -> (r: Self)
        requires
            old(fe).wf(),
            shape_ok::<W, N>(),
            live_all(old(fe).model(), ws),
            room_all(old(fe).model(), N as nat),
        ensures
            final(fe).wf(),
            final(fe).spec_backend().key() == old(fe).spec_backend().key(),
            live_all(final(fe).model(), ws.insert(r.spec_idx())),
            !ws.contains(r.spec_idx()),
            forall|y: WordIdx<W, N>| #[trigger] ws.contains(y) ==> word_bits(final(fe).model(), y) == word_bits(old(fe).model(), y),
            grows_by(old(fe).model(), final(fe).model(), N as nat),
            B::tracks_values() ==> word_bits(final(fe).model(), r.spec_idx()) == c.cbits(),
    {
        let ghost m0 = fe.model();
        proof {
            crate::backend::backend::lemma_shape_ok::<W, N>();
            fe.backend.lemma_model();
            W::lemma_width();
            assert(m0.allocated.get(W::spec_width()).len() + N < usize::MAX);
        }
        let z = fe.allocate(c);
        proof {
            let m1 = fe.model();
            lemma_produces_evolves(m0, m1, Seq::<WordIdx<W, N>>::empty(), z.spec_idx());
            assert forall|v: nat, i: int| #[trigger] seq_count(Seq::<WordIdx<W, N>>::empty())(v, i) == crate::backend::evolution::no_count()(v, i) by {
                assert(count_uses(Seq::<WordIdx<W, N>>::empty(), v, i) == 0);
            }
            crate::backend::word_ref::lemma_evolves_count_eq(m0, m1, seq_count(Seq::<WordIdx<W, N>>::empty()), crate::backend::evolution::no_count(), N as nat, z.spec_idx());
            lemma_live_step::<W, N>(m0, m1, ws, N as nat, z.spec_idx());
        }
        z
    }

    /// Releases a live word, which leaves the live words.
    fn release_in(self, fe: &mut Frontend<B>, Ghost(ws): Ghost<Set<WordIdx<W, N>>>)
        requires
            old(fe).wf(),
            live_all(old(fe).model(), ws),
            ws.contains(self.spec_idx()),
        ensures
            final(fe).wf(),
            final(fe).spec_backend().key() == old(fe).spec_backend().key(),
            live_all(final(fe).model(), ws.remove(self.spec_idx())),
            forall|y: WordIdx<W, N>| #[trigger] ws.remove(self.spec_idx()).contains(y) ==> word_bits(final(fe).model(), y) == word_bits(old(fe).model(), y),
            grows_by(old(fe).model(), final(fe).model(), 0),
    {
        let ghost m0 = fe.model();
        let ghost x = self.spec_idx();
        self.release(fe);
        proof {
            lemma_live_release::<W, N>(m0, fe.model(), ws, x);
        }
    }
}

/// The four words of the double-word accumulator and addend, distinct.
pub open spec fn four<W: Word, const N: usize>(a: WordIdx<W, N>, b: WordIdx<W, N>, c: WordIdx<W, N>, d: WordIdx<W, N>) -> Set<WordIdx<W, N>> {
    Set::empty().insert(a).insert(b).insert(c).insert(d)
}

/// Four distinct indices.
pub open spec fn distinct4<W: Word, const N: usize>(a: WordIdx<W, N>, b: WordIdx<W, N>, c: WordIdx<W, N>, d: WordIdx<W, N>) -> bool {
    a != b && a != c && a != d && b != c && b != d && c != d
}

impl<B: Backend, W: Word, const N: usize> WordRef<B, W, N> {
    /// Wide multiplication by a constant, by shift and add over the bits of the constant, from
    /// the lowest: the double word `(lo, hi)` starts at zero, and the double word `(al, ah)` at
    /// this word; where a bit is set, `(al, ah)` is added to `(lo, hi)`; after each bit,
    /// `(al, ah)` is doubled. The result is `(lo, hi)`, the low and high halves of the product.
    /// The word is consumed.
    #[verifier::rlimit(100)]
    pub fn wide_mul_const(self, rhs: CompositeWord<W, N>, fe: &mut Frontend<B>) -> (r: (Self, Self))
        requires
            old(fe).wf(),
            shape_ok::<W, N>(),
            live_idx(old(fe).model(), self.spec_idx()),
            room_all(old(fe).model(), (3 * N + 22 * N * CompositeWord::<W, N>::spec_cwidth()) as nat),
        ensures
            final(fe).wf(),
            final(fe).spec_backend().key() == old(fe).spec_backend().key(),
            live_idx(final(fe).model(), r.0.spec_idx()),
            live_idx(final(fe).model(), r.1.spec_idx()),
            r.0.spec_idx() != r.1.spec_idx(),
            apart(r.0.spec_idx(), r.1.spec_idx()),
            B::tracks_values() ==> word_val(final(fe).model(), r.1.spec_idx()) * pow2(CompositeWord::<W, N>::spec_cwidth())
                + word_val(final(fe).model(), r.0.spec_idx()) == word_val(old(fe).model(), self.spec_idx()) * rhs.cvalue(),
    {
        let ghost m0 = fe.model();
        let ghost x = word_val(m0, self.spec_idx());
        let ghost y = rhs.cvalue();
        let ghost n = CompositeWord::<W, N>::spec_cwidth();
        let ghost md = pow2(n);
        proof {
            crate::backend::backend::lemma_shape_ok::<W, N>();
            fe.backend.lemma_model();
            W::lemma_width();
            vstd::arithmetic::power2::lemma_pow2_pos(n);
            lemma_word_bits_len(m0, self.spec_idx());
            lemma_bits_val_bound(word_bits(m0, self.spec_idx()));
            lemma_bits_val_bound(rhs.cbits());
            assert(5 * N * n >= 0) by (nonlinear_arith);
            assert(live_all(m0, Set::<WordIdx<W, N>>::empty().insert(self.spec_idx())));
        }
        let ghost w0 = Set::<WordIdx<W, N>>::empty().insert(self.spec_idx());
        let mut lo = Self::alloc_zero_in(fe, Ghost(w0));
        let ghost w1 = w0.insert(lo.spec_idx());
        let ghost m1 = fe.model();
        proof {
            lemma_grows_room(m0, m1, N as nat, (2 * N + 22 * N * n) as nat);
        }
        let mut hi = Self::alloc_zero_in(fe, Ghost(w1));
        let ghost w2 = w1.insert(hi.spec_idx());
        let ghost m2 = fe.model();
        proof {
            lemma_grows_room(m1, m2, N as nat, (N + 22 * N * n) as nat);
        }
        let mut ah = Self::alloc_zero_in(fe, Ghost(w2));
        let ghost m3 = fe.model();
        let mut al = self;
        proof {
            lemma_grows_room(m2, m3, N as nat, (22 * N * n) as nat);
            assert(w0.contains(al.spec_idx()));
            assert(w1.contains(al.spec_idx()));
            assert(w2.contains(al.spec_idx()));
            assert(w2.contains(lo.spec_idx()));
            assert(w1.contains(lo.spec_idx()));
            assert(w2.insert(ah.spec_idx()) =~= four(lo.spec_idx(), hi.spec_idx(), al.spec_idx(), ah.spec_idx()));
            assert(word_bits(m3, al.spec_idx()) == word_bits(m0, al.spec_idx()));
            lemma_bits_val_zeros(n);
            assert(y % pow2(0) == 0) by {
                vstd::arithmetic::power2::lemma2_to64();
                vstd::arithmetic::div_mod::lemma_fundamental_div_mod_converse(y as int, 1, y as int, 0);
            }
            vstd::arithmetic::power2::lemma2_to64();
            assert(x * pow2(0) == x) by (nonlinear_arith)
                requires
                    pow2(0) == 1,
            ;
            assert(x * (y % pow2(0)) == 0) by (nonlinear_arith)
                requires
                    y % pow2(0) == 0,
            ;
            assert(w2.contains(hi.spec_idx()));
            if B::tracks_values() {
                assert(word_bits(m3, lo.spec_idx()) == seq_zeros(n));
                assert(word_bits(m3, hi.spec_idx()) == seq_zeros(n));
                assert(word_bits(m3, ah.spec_idx()) == seq_zeros(n));
                assert(md * 0 == 0);
            }
        }
        let mut b = rhs;
        let cw = CompositeWord::<W, N>::width();
        let mut t: usize = 0;
        while t < cw
            invariant
                shape_ok::<W, N>(),
                cw == n,
                n == CompositeWord::<W, N>::spec_cwidth(),
                n > 0,
                md == pow2(n),
                md > 0,
                x < md,
                y < md,
                y == rhs.cvalue(),
                t <= cw,
                fe.wf(),
                fe.spec_backend().key() == old(fe).spec_backend().key(),
                live_all(fe.model(), four(lo.spec_idx(), hi.spec_idx(), al.spec_idx(), ah.spec_idx())),
                distinct4(lo.spec_idx(), hi.spec_idx(), al.spec_idx(), ah.spec_idx()),
                room_all(fe.model(), (22 * N * (cw - t)) as nat),
                B::tracks_values() ==> word_val(fe.model(), lo.spec_idx()) + md * word_val(fe.model(), hi.spec_idx()) == x * (y % pow2(t as nat)),
                B::tracks_values() ==> word_val(fe.model(), al.spec_idx()) + md * word_val(fe.model(), ah.spec_idx()) == x * pow2(t as nat),
                b.cvalue() == y / pow2(t as nat),
            decreases cw - t,
        {
            let ghost m = fe.model();
            let ghost ws = four(lo.spec_idx(), hi.spec_idx(), al.spec_idx(), ah.spec_idx());
            let ghost lob = word_bits(m, lo.spec_idx());
            let ghost hib = word_bits(m, hi.spec_idx());
            let ghost alb = word_bits(m, al.spec_idx());
            let ghost ahb = word_bits(m, ah.spec_idx());
            let bit = b.lsb();
            proof {
                fe.backend.lemma_model();
                b.lemma_lsb_value();
                crate::word::bitseq::lemma_pow2_succ(t as nat);
                vstd::arithmetic::power2::lemma_pow2_pos(t as nat);
                vstd::arithmetic::div_mod::lemma_div_denominator(y as int, pow2(t as nat) as int, 2);
                crate::word::composite::lemma_mul_bits_exact(x, y, t as nat, bit);
                lemma_word_bits_len(m, lo.spec_idx());
                lemma_word_bits_len(m, hi.spec_idx());
                lemma_word_bits_len(m, al.spec_idx());
                lemma_word_bits_len(m, ah.spec_idx());
                assert(22 * N * (cw - t) == 22 * N * (cw - (t + 1)) + 4 * N + 18 * N) by (nonlinear_arith)
                    requires
                        t < cw,
                ;
                vstd::arithmetic::div_mod::lemma_mod_decreases(y, pow2((t + 1) as nat));
                lemma_products_fit(x, y % pow2((t + 1) as nat), (t + 1) as nat, n);
                assert(ws.contains(lo.spec_idx()) && ws.contains(hi.spec_idx()) && ws.contains(al.spec_idx()) && ws.contains(ah.spec_idx()));
            }
            if bit {
                let (nlo, nhi) = Self::acc_step(&lo, &hi, &al, &ah, fe, Ghost(ws));
                let ghost ma = fe.model();
                let ghost s1 = ws.insert(nlo.spec_idx()).insert(nhi.spec_idx());
                proof {
                    lemma_grows_room(m, ma, (18 * N) as nat, (22 * N * (cw - (t + 1)) + 4 * N) as nat);
                    if B::tracks_values() {
                        assert(bool_nat(bit) == 1);
                        assert(x * (y % pow2((t + 1) as nat)) == x * (y % pow2(t as nat)) + x * pow2(t as nat));
                        assert(bits_val(lob) + md * bits_val(hib) == x * (y % pow2(t as nat)));
                        assert(bits_val(alb) + md * bits_val(ahb) == x * pow2(t as nat));
                        assert(lob.len() == n);
                        lemma_acc_iteration(lob, hib, alb, ahb, word_bits(ma, nlo.spec_idx()), word_bits(ma, nhi.spec_idx()));
                        assert(bits_val(word_bits(ma, nlo.spec_idx())) + md * bits_val(word_bits(ma, nhi.spec_idx())) == x * (y % pow2((t + 1) as nat)));
                    }
                    assert(s1.contains(lo.spec_idx()));
                }
                lo.release_in(fe, Ghost(s1));
                let ghost mb = fe.model();
                let ghost s2 = s1.remove(lo.spec_idx());
                proof {
                    lemma_grows_room(ma, mb, 0, (22 * N * (cw - (t + 1)) + 4 * N) as nat);
                    assert(s2.contains(hi.spec_idx()));
                    assert(s2.contains(nlo.spec_idx()) && s2.contains(nhi.spec_idx()));
                }
                hi.release_in(fe, Ghost(s2));
                let ghost mc = fe.model();
                proof {
                    lemma_grows_room(mb, mc, 0, (22 * N * (cw - (t + 1)) + 4 * N) as nat);
                    let s3 = s2.remove(hi.spec_idx());
                    assert(s3.contains(nlo.spec_idx()) && s3.contains(nhi.spec_idx()) && s3.contains(al.spec_idx()) && s3.contains(ah.spec_idx()));
                    assert(s2.contains(al.spec_idx()) && s2.contains(ah.spec_idx()));
                    assert(s3 =~= four(nlo.spec_idx(), nhi.spec_idx(), al.spec_idx(), ah.spec_idx()));
                    assert(word_bits(mc, nlo.spec_idx()) == word_bits(ma, nlo.spec_idx()));
                    assert(word_bits(mc, nhi.spec_idx()) == word_bits(ma, nhi.spec_idx()));
                    assert(word_bits(mc, al.spec_idx()) == alb);
                    assert(word_bits(mc, ah.spec_idx()) == ahb);
                }
                lo = nlo;
                hi = nhi;
            } else {
                proof {
                    assert(room_all(m, (22 * N * (cw - (t + 1)) + 4 * N) as nat));
                    assert(bool_nat(bit) == 0);
                    assert(x * (y % pow2((t + 1) as nat)) == x * (y % pow2(t as nat)));
                }
            }
            let ghost md1 = fe.model();
            let ghost ws1 = four(lo.spec_idx(), hi.spec_idx(), al.spec_idx(), ah.spec_idx());
            proof {
                assert(ws1.contains(lo.spec_idx()) && ws1.contains(hi.spec_idx()) && ws1.contains(al.spec_idx()) && ws1.contains(ah.spec_idx()));
                assert(word_bits(md1, al.spec_idx()) == alb);
                assert(word_bits(md1, ah.spec_idx()) == ahb);
                if B::tracks_values() {
                    assert(word_val(md1, lo.spec_idx()) + md * word_val(md1, hi.spec_idx()) == x * (y % pow2((t + 1) as nat)));
                }
            }
            let (nal, nah) = Self::shift_step(&al, &ah, fe, Ghost(ws1));
            let ghost me = fe.model();
            let ghost s1 = ws1.insert(nal.spec_idx()).insert(nah.spec_idx());
            proof {
                lemma_grows_room(md1, me, (4 * N) as nat, (22 * N * (cw - (t + 1))) as nat);
                assert(s1.contains(al.spec_idx()));
                if B::tracks_values() {
                    lemma_products_fit(x, y, (t + 1) as nat, n);
                    assert(x * pow2((t + 1) as nat) == 2 * (x * pow2(t as nat))) by (nonlinear_arith)
                        requires
                            pow2((t + 1) as nat) == 2 * pow2(t as nat),
                    ;
                    assert(2 * (bits_val(alb) + pow2(alb.len()) * bits_val(ahb)) < pow2(alb.len()) * pow2(alb.len()));
                    lemma_shift_values(alb, ahb);
                }
            }
            al.release_in(fe, Ghost(s1));
            let ghost mf = fe.model();
            let ghost s2 = s1.remove(al.spec_idx());
            proof {
                lemma_grows_room(me, mf, 0, (22 * N * (cw - (t + 1))) as nat);
                assert(s2.contains(ah.spec_idx()));
                assert(s2.contains(nal.spec_idx()) && s2.contains(nah.spec_idx()) && s2.contains(lo.spec_idx()) && s2.contains(hi.spec_idx()));
            }
            ah.release_in(fe, Ghost(s2));
            proof {
                let mg = fe.model();
                lemma_grows_room(mf, mg, 0, (22 * N * (cw - (t + 1))) as nat);
                let s3 = s2.remove(ah.spec_idx());
                assert(s3.contains(nal.spec_idx()) && s3.contains(nah.spec_idx()) && s3.contains(lo.spec_idx()) && s3.contains(hi.spec_idx()));
                assert(s3 =~= four(lo.spec_idx(), hi.spec_idx(), nal.spec_idx(), nah.spec_idx()));
            }
            al = nal;
            ah = nah;
            let b1 = b.unbounded_shr(1);
            proof {
                lemma_bits_val_shr(b.cbits(), 1);
                vstd::arithmetic::power2::lemma2_to64();
            }
            b = b1;
            t = t + 1;
        }
        proof {
            vstd::arithmetic::div_mod::lemma_small_mod(y, md);
            let ws = four(lo.spec_idx(), hi.spec_idx(), al.spec_idx(), ah.spec_idx());
            assert(ws.contains(lo.spec_idx()) && ws.contains(hi.spec_idx()) && ws.contains(al.spec_idx()) && ws.contains(ah.spec_idx()));
        }
        let ghost ws = four(lo.spec_idx(), hi.spec_idx(), al.spec_idx(), ah.spec_idx());
        al.release_in(fe, Ghost(ws));
        proof {
            assert(ws.remove(al.spec_idx()).contains(ah.spec_idx()));
            assert(ws.remove(al.spec_idx()).contains(lo.spec_idx()) && ws.remove(al.spec_idx()).contains(hi.spec_idx()));
        }
        ah.release_in(fe, Ghost(ws.remove(al.spec_idx())));
        proof {
            let w = ws.remove(al.spec_idx()).remove(ah.spec_idx());
            assert(w.contains(lo.spec_idx()) && w.contains(hi.spec_idx()));
            assert(md * word_val(fe.model(), hi.spec_idx()) == word_val(fe.model(), hi.spec_idx()) * md) by (nonlinear_arith);
        }
        (lo, hi)
    }

    /// Wrapping multiplication: the low half of the wide product, whose high half is
    /// released. Both words are consumed.
    pub fn wrapping_mul(self, rhs: Self, fe: &mut Frontend<B>) -> (r: Self)
        requires
            old(fe).wf(),
            shape_ok::<W, N>(),
            live_idx(old(fe).model(), self.spec_idx()),
            live_idx(old(fe).model(), rhs.spec_idx()),
            fits(old(fe).model(), add_count(idx_count(self.spec_idx()), idx_count(rhs.spec_idx()))),
            room_all(old(fe).model(), (4 * N + 31 * N * CompositeWord::<W, N>::spec_cwidth()) as nat),
        ensures
            final(fe).wf(),
            final(fe).spec_backend().key() == old(fe).spec_backend().key(),
            live_idx(final(fe).model(), r.spec_idx()),
            B::tracks_values() ==> word_val(final(fe).model(), r.spec_idx()) == (word_val(old(fe).model(), self.spec_idx())
                * word_val(old(fe).model(), rhs.spec_idx())) % pow2(CompositeWord::<W, N>::spec_cwidth()),
    {
        let ghost m0 = fe.model();
        let (lo, hi) = self.wide_mul(rhs, fe);
        let ghost m1 = fe.model();
        let ghost ws = Set::<WordIdx<W, N>>::empty().insert(lo.spec_idx()).insert(hi.spec_idx());
        proof {
            assert(live_all(m1, ws));
        }
        hi.release_in(fe, Ghost(ws));
        proof {
            assert(ws.remove(hi.spec_idx()).contains(lo.spec_idx()));
            let n = CompositeWord::<W, N>::spec_cwidth();
            lemma_word_bits_len(m1, lo.spec_idx());
            lemma_bits_val_bound(word_bits(m1, lo.spec_idx()));
            if B::tracks_values() {
                let p = word_val(m0, self.spec_idx()) * word_val(m0, rhs.spec_idx());
                vstd::arithmetic::div_mod::lemma_fundamental_div_mod_converse(
                    p as int,
                    pow2(n) as int,
                    word_val(m1, hi.spec_idx()) as int,
                    word_val(m1, lo.spec_idx()) as int,
                );
            }
        }
        lo
    }
}

/// An evolution dropping no reference keeps what two live words can be consumed for.
proof fn lemma_fits_kept<W: Word, const N: usize>(m0: SlotModel, m1: SlotModel, g: nat, r: WordIdx<W, N>, x: WordIdx<W, N>, y: WordIdx<W, N>)
    requires
        model_ok(m0),
        model_ok(m1),
        evolves(m0, m1, crate::backend::evolution::no_count(), g, r),
        live_idx(m0, x),
        live_idx(m0, y),
        fits(m0, add_count(idx_count(x), idx_count(y))),
    ensures
        fits(m1, add_count(idx_count(x), idx_count(y))),
{
    W::lemma_width();
    x.lemma_len();
    y.lemma_len();
    assert forall|v: nat, i: int| is_word_width(v) && 0 <= i < m1.refs.get(v).len() implies #[trigger] add_count(idx_count(x), idx_count(y))(v, i) <= m1.refs.get(v)[i] by {
        assert(m1.refs.get(v).len() <= m1.allocated.get(v).len());
        assert(m0.refs.get(v).len() <= m0.allocated.get(v).len());
        if uses(x, v, i) {
            let k = choose|k: int| 0 <= k < x.spec_idxs().len() && x.spec_idxs()[k] == i as usize;
            assert(x.spec_idxs()[k] as int == i);
            assert(m0.refs.get(W::spec_width())[x.spec_idxs()[k] as int] >= 1);
            assert(kept(m0, crate::backend::evolution::no_count(), v, i));
        } else if uses(y, v, i) {
            let k = choose|k: int| 0 <= k < y.spec_idxs().len() && y.spec_idxs()[k] == i as usize;
            assert(y.spec_idxs()[k] as int == i);
            assert(m0.refs.get(W::spec_width())[y.spec_idxs()[k] as int] >= 1);
            assert(kept(m0, crate::backend::evolution::no_count(), v, i));
        }
    }
}

/// Releasing one of two words that can be consumed together leaves the other live, with its
/// bits.
proof fn lemma_release_other<W: Word, const N: usize>(m: SlotModel, m2: SlotModel, x: WordIdx<W, N>, y: WordIdx<W, N>)
    requires
        crate::backend::backend::recounts(m, m2, x, -1),
        live_idx(m, y),
        fits(m, add_count(idx_count(y), idx_count(x))),
    ensures
        live_idx(m2, y),
        word_bits(m2, y) == word_bits(m, y),
{
    W::lemma_width();
    y.lemma_len();
    assert forall|k: int| 0 <= k < N implies #[trigger] m2.refs.get(W::spec_width())[y.spec_idxs()[k] as int] >= 1 by {
        let i = y.spec_idxs()[k] as int;
        assert(uses(y, W::spec_width(), i)) by {
            assert(y.spec_idxs()[k] == i as usize);
        }
        assert(add_count(idx_count(y), idx_count(x))(W::spec_width(), i) <= m.refs.get(W::spec_width())[i]);
    }
}

/// The double word selected by the lowest bit of the multiplier is the addend times that bit.
proof fn lemma_select_sum(bb: Seq<bool>, alb: Seq<bool>, ahb: Seq<bool>, slb: Seq<bool>, shb: Seq<bool>, x: nat, y: nat, t: nat)
    requires
        bb.len() > 0,
        alb.len() == bb.len(),
        ahb.len() == bb.len(),
        slb == seq_and(alb, bit_mask(bb)),
        shb == seq_and(ahb, bit_mask(bb)),
        bits_val(alb) + pow2(bb.len()) * bits_val(ahb) == x * pow2(t),
        bits_val(bb) == y / pow2(t),
    ensures
        bits_val(slb) + pow2(bb.len()) * bits_val(shb) == bool_nat(bb[0]) * (x * pow2(t)),
        bb[0] == ((y / pow2(t)) % 2 == 1),
{
    lemma_mask_values(bb, alb);
    lemma_mask_values(bb, ahb);
    let p = pow2(bb.len());
    if bb[0] {
        assert(bool_nat(bb[0]) * (x * pow2(t)) == x * pow2(t));
    } else {
        assert(bool_nat(bb[0]) == 0);
        assert(bool_nat(bb[0]) * (x * pow2(t)) == 0) by (nonlinear_arith)
            requires
                bool_nat(bb[0]) == 0,
        ;
        assert(p * 0 == 0);
    }
}

/// The five words of the double-word accumulator, the double-word addend and the multiplier.
pub open spec fn five<W: Word, const N: usize>(a: WordIdx<W, N>, b: WordIdx<W, N>, c: WordIdx<W, N>, d: WordIdx<W, N>, e: WordIdx<W, N>) -> Set<WordIdx<W, N>> {
    four(a, b, c, d).insert(e)
}

impl<B: Backend, W: Word, const N: usize> WordRef<B, W, N> {
    /// Wide multiplication, by shift and add over the bits of the multiplier `rhs`, from the
    /// lowest: the multiplier is first copied; the double word `(lo, hi)` starts at zero and the
    /// double word `(al, ah)` at this word; at each bit, `(al, ah)` ANDed with the mask of the
    /// lowest bit of the multiplier is added to `(lo, hi)`, then `(al, ah)` is doubled and the
    /// multiplier shifted right by one. The result is `(lo, hi)`, the low and high halves of
    /// the product. Both words are consumed.
    #[verifier::rlimit(100)]
    pub fn wide_mul(self, rhs: Self, fe: &mut Frontend<B>) -> (r: (Self, Self))
        requires
            old(fe).wf(),
            shape_ok::<W, N>(),
            live_idx(old(fe).model(), self.spec_idx()),
            live_idx(old(fe).model(), rhs.spec_idx()),
            fits(old(fe).model(), add_count(idx_count(self.spec_idx()), idx_count(rhs.spec_idx()))),
            room_all(old(fe).model(), (4 * N + 31 * N * CompositeWord::<W, N>::spec_cwidth()) as nat),
        ensures
            final(fe).wf(),
            final(fe).spec_backend().key() == old(fe).spec_backend().key(),
            live_idx(final(fe).model(), r.0.spec_idx()),
            live_idx(final(fe).model(), r.1.spec_idx()),
            r.0.spec_idx() != r.1.spec_idx(),
            apart(r.0.spec_idx(), r.1.spec_idx()),
            B::tracks_values() ==> word_val(final(fe).model(), r.1.spec_idx()) * pow2(CompositeWord::<W, N>::spec_cwidth())
                + word_val(final(fe).model(), r.0.spec_idx()) == word_val(old(fe).model(), self.spec_idx()) * word_val(old(fe).model(), rhs.spec_idx()),
    {
        let ghost m0 = fe.model();
        let ghost x = word_val(m0, self.spec_idx());
        let ghost y = word_val(m0, rhs.spec_idx());
        let ghost n = CompositeWord::<W, N>::spec_cwidth();
        let ghost md = pow2(n);
        proof {
            crate::backend::backend::lemma_shape_ok::<W, N>();
            fe.backend.lemma_model();
            W::lemma_width();
            vstd::arithmetic::power2::lemma_pow2_pos(n);
            lemma_word_bits_len(m0, self.spec_idx());
            lemma_word_bits_len(m0, rhs.spec_idx());
            lemma_bits_val_bound(word_bits(m0, self.spec_idx()));
            lemma_bits_val_bound(word_bits(m0, rhs.spec_idx()));
            assert(5 * N * n >= 0) by (nonlinear_arith);
            crate::backend::word_ref::lemma_fits_one(m0, rhs.spec_idx());
        }
        let b = rhs.unop_ref(fe, UnOp::Shr(0));
        let ghost m1 = fe.model();
        proof {
            lemma_evolves_live(m0, m1, crate::backend::evolution::no_count(), N as nat, b.spec_idx(), rhs.spec_idx());
            crate::backend::word_ref::lemma_fits_one(m0, self.spec_idx());
            lemma_evolves_live(m0, m1, crate::backend::evolution::no_count(), N as nat, b.spec_idx(), self.spec_idx());
            fe.backend.lemma_model();
            lemma_fits_kept(m0, m1, N as nat, b.spec_idx(), self.spec_idx(), rhs.spec_idx());
            lemma_fresh(m0, m1, crate::backend::evolution::no_count(), N as nat, b.spec_idx());
            lemma_evolves_room(m0, m1, crate::backend::evolution::no_count(), N as nat, b.spec_idx(), (3 * N + 31 * N * n) as nat);
            lemma_bits_val_shr(word_bits(m0, rhs.spec_idx()), 0);
            vstd::arithmetic::power2::lemma2_to64();
            fe.backend.lemma_model();
        }
        let ghost ri = rhs.spec_idx();
        rhs.release(fe);
        let ghost m2 = fe.model();
        proof {
            lemma_release_other(m1, m2, ri, self.spec_idx());
            crate::backend::evolution::lemma_release_apart(m1, m2, ri, b.spec_idx());
            lemma_release_live(m1, m2, ri, b.spec_idx());
            assert(room_all(m2, (3 * N + 31 * N * n) as nat)) by {
                assert forall|v: nat| is_word_width(v) implies #[trigger] m2.allocated.get(v).len() + (3 * N + 31 * N * n) < usize::MAX by {
                    assert(m2.allocated.get(v).len() == m1.allocated.get(v).len());
                }
            }
            assert(apart(self.spec_idx(), b.spec_idx()));
            let w = Set::<WordIdx<W, N>>::empty().insert(self.spec_idx()).insert(b.spec_idx());
            assert forall|u: WordIdx<W, N>, z: WordIdx<W, N>| #[trigger] w.contains(u) && #[trigger] w.contains(z) && u != z implies apart(u, z) by {
                if u == b.spec_idx() {
                    assert forall|v: nat, i: int| !(#[trigger] uses(u, v, i) && #[trigger] uses(z, v, i)) by {
                        assert(!(uses(self.spec_idx(), v, i) && uses(b.spec_idx(), v, i)));
                    }
                }
            }
            assert(live_all(m2, w));
            fe.backend.lemma_model();
        }
        let ghost w0 = Set::<WordIdx<W, N>>::empty().insert(self.spec_idx()).insert(b.spec_idx());
        let mut lo = Self::alloc_zero_in(fe, Ghost(w0));
        let ghost w1 = w0.insert(lo.spec_idx());
        let ghost m3 = fe.model();
        proof {
            lemma_grows_room(m2, m3, N as nat, (2 * N + 31 * N * n) as nat);
        }
        let mut hi = Self::alloc_zero_in(fe, Ghost(w1));
        let ghost w2 = w1.insert(hi.spec_idx());
        let ghost m4 = fe.model();
        proof {
            lemma_grows_room(m3, m4, N as nat, (N + 31 * N * n) as nat);
        }
        let mut ah = Self::alloc_zero_in(fe, Ghost(w2));
        let ghost m5 = fe.model();
        let mut al = self;
        let mut b = b;
        proof {
            lemma_grows_room(m4, m5, N as nat, (31 * N * n) as nat);
            assert(w0.contains(al.spec_idx()) && w0.contains(b.spec_idx()));
            assert(w1.contains(al.spec_idx()) && w1.contains(b.spec_idx()) && w1.contains(lo.spec_idx()));
            assert(w2.contains(al.spec_idx()) && w2.contains(b.spec_idx()) && w2.contains(lo.spec_idx()) && w2.contains(hi.spec_idx()));
            assert(w2.insert(ah.spec_idx()) =~= five(lo.spec_idx(), hi.spec_idx(), al.spec_idx(), ah.spec_idx(), b.spec_idx()));
            lemma_bits_val_zeros(n);
            vstd::arithmetic::power2::lemma2_to64();
            assert(y % pow2(0) == 0) by {
                vstd::arithmetic::div_mod::lemma_fundamental_div_mod_converse(y as int, 1, y as int, 0);
            }
            assert(x * pow2(0) == x) by (nonlinear_arith)
                requires
                    pow2(0) == 1,
            ;
            assert(x * (y % pow2(0)) == 0) by (nonlinear_arith)
                requires
                    y % pow2(0) == 0,
            ;
            if B::tracks_values() {
                assert(word_bits(m5, lo.spec_idx()) == seq_zeros(n));
                assert(word_bits(m5, hi.spec_idx()) == seq_zeros(n));
                assert(word_bits(m5, ah.spec_idx()) == seq_zeros(n));
                assert(md * 0 == 0);
                assert(y / pow2(0) == y);
            }
        }
        let cw = CompositeWord::<W, N>::width();
        let mut t: usize = 0;
        while t < cw
            invariant
                shape_ok::<W, N>(),
                cw == n,
                n == CompositeWord::<W, N>::spec_cwidth(),
                n > 0,
                md == pow2(n),
                md > 0,
                x < md,
                y < md,
                t <= cw,
                fe.wf(),
                fe.spec_backend().key() == old(fe).spec_backend().key(),
                live_all(fe.model(), five(lo.spec_idx(), hi.spec_idx(), al.spec_idx(), ah.spec_idx(), b.spec_idx())),
                distinct4(lo.spec_idx(), hi.spec_idx(), al.spec_idx(), ah.spec_idx()),
                b.spec_idx() != lo.spec_idx() && b.spec_idx() != hi.spec_idx() && b.spec_idx() != al.spec_idx() && b.spec_idx() != ah.spec_idx(),
                room_all(fe.model(), (31 * N * (cw - t)) as nat),
                B::tracks_values() ==> word_val(fe.model(), lo.spec_idx()) + md * word_val(fe.model(), hi.spec_idx()) == x * (y % pow2(t as nat)),
                B::tracks_values() ==> word_val(fe.model(), al.spec_idx()) + md * word_val(fe.model(), ah.spec_idx()) == x * pow2(t as nat),
                B::tracks_values() ==> word_val(fe.model(), b.spec_idx()) == y / pow2(t as nat),
            decreases cw - t,
        {
            let ghost mr = fe.model();
            proof {
                assert(31 * N * (cw - t) == 31 * N * (cw - (t + 1)) + 31 * N) by (nonlinear_arith)
                    requires
                        t < cw,
                ;
            }
            let (nlo, nhi, nal, nah, nb) = Self::mul_round(lo, hi, al, ah, b, fe, Ghost(x), Ghost(y), Ghost(t as nat));
            proof {
                lemma_grows_room(mr, fe.model(), (31 * N) as nat, (31 * N * (cw - (t + 1))) as nat);
            }
            lo = nlo;
            hi = nhi;
            al = nal;
            ah = nah;
            b = nb;
            t = t + 1;
        }
        proof {
            vstd::arithmetic::div_mod::lemma_small_mod(y, md);
        }
        let ghost ws = five(lo.spec_idx(), hi.spec_idx(), al.spec_idx(), ah.spec_idx(), b.spec_idx());
        proof {
            assert(ws.contains(lo.spec_idx()) && ws.contains(hi.spec_idx()) && ws.contains(al.spec_idx()) && ws.contains(ah.spec_idx()) && ws.contains(b.spec_idx()));
        }
        al.release_in(fe, Ghost(ws));
        let ghost ws1 = ws.remove(al.spec_idx());
        proof {
            assert(ws1.contains(ah.spec_idx()) && ws1.contains(b.spec_idx()) && ws1.contains(lo.spec_idx()) && ws1.contains(hi.spec_idx()));
        }
        ah.release_in(fe, Ghost(ws1));
        let ghost ws2 = ws1.remove(ah.spec_idx());
        proof {
            assert(ws2.contains(b.spec_idx()) && ws2.contains(lo.spec_idx()) && ws2.contains(hi.spec_idx()));
        }
        b.release_in(fe, Ghost(ws2));
        proof {
            let w = ws2.remove(b.spec_idx());
            assert(w.contains(lo.spec_idx()) && w.contains(hi.spec_idx()));
            assert(md * word_val(fe.model(), hi.spec_idx()) == word_val(fe.model(), hi.spec_idx()) * md) by (nonlinear_arith);
        }
        (lo, hi)
    }

    /// One round of the wide multiplication: the addend selected by the lowest bit of the
    /// multiplier is added to the accumulator, the addend is doubled and the multiplier halved;
    /// the words replaced are released.
    #[verifier::rlimit(100)]
    #[verifier::spinoff_prover]
    fn mul_round(lo: Self, hi: Self, al: Self, ah: Self, b: Self, fe: &mut Frontend<B>, Ghost(x): Ghost<nat>, Ghost(y): Ghost<nat>, Ghost(t): Ghost<nat>) -> (r: (Self, Self, Self, Self, Self))
        requires
            shape_ok::<W, N>(),
            old(fe).wf(),
            x < pow2(CompositeWord::<W, N>::spec_cwidth()),
            y < pow2(CompositeWord::<W, N>::spec_cwidth()),
            t < CompositeWord::<W, N>::spec_cwidth(),
            live_all(old(fe).model(), five(lo.spec_idx(), hi.spec_idx(), al.spec_idx(), ah.spec_idx(), b.spec_idx())),
            distinct4(lo.spec_idx(), hi.spec_idx(), al.spec_idx(), ah.spec_idx()),
            b.spec_idx() != lo.spec_idx() && b.spec_idx() != hi.spec_idx() && b.spec_idx() != al.spec_idx() && b.spec_idx() != ah.spec_idx(),
            room_all(old(fe).model(), (31 * N) as nat),
            B::tracks_values() ==> word_val(old(fe).model(), lo.spec_idx()) + pow2(CompositeWord::<W, N>::spec_cwidth()) * word_val(old(fe).model(), hi.spec_idx()) == x * (y % pow2(t)),
            B::tracks_values() ==> word_val(old(fe).model(), al.spec_idx()) + pow2(CompositeWord::<W, N>::spec_cwidth()) * word_val(old(fe).model(), ah.spec_idx()) == x * pow2(t),
            B::tracks_values() ==> word_val(old(fe).model(), b.spec_idx()) == y / pow2(t),
        ensures
            final(fe).wf(),
            final(fe).spec_backend().key() == old(fe).spec_backend().key(),
            live_all(final(fe).model(), five(r.0.spec_idx(), r.1.spec_idx(), r.2.spec_idx(), r.3.spec_idx(), r.4.spec_idx())),
            distinct4(r.0.spec_idx(), r.1.spec_idx(), r.2.spec_idx(), r.3.spec_idx()),
            r.4.spec_idx() != r.0.spec_idx() && r.4.spec_idx() != r.1.spec_idx() && r.4.spec_idx() != r.2.spec_idx() && r.4.spec_idx() != r.3.spec_idx(),
            grows_by(old(fe).model(), final(fe).model(), (31 * N) as nat),
            B::tracks_values() ==> word_val(final(fe).model(), r.0.spec_idx()) + pow2(CompositeWord::<W, N>::spec_cwidth()) * word_val(final(fe).model(), r.1.spec_idx()) == x * (y % pow2(t + 1)),
            B::tracks_values() ==> word_val(final(fe).model(), r.2.spec_idx()) + pow2(CompositeWord::<W, N>::spec_cwidth()) * word_val(final(fe).model(), r.3.spec_idx()) == x * pow2(t + 1),
            B::tracks_values() ==> word_val(final(fe).model(), r.4.spec_idx()) == y / pow2(t + 1),
    {
        let ghost m = fe.model();
        let ghost n = CompositeWord::<W, N>::spec_cwidth();
        let ghost md = pow2(n);
        let ghost ws = five(lo.spec_idx(), hi.spec_idx(), al.spec_idx(), ah.spec_idx(), b.spec_idx());
        let ghost lob = word_bits(m, lo.spec_idx());
        let ghost hib = word_bits(m, hi.spec_idx());
        let ghost alb = word_bits(m, al.spec_idx());
        let ghost ahb = word_bits(m, ah.spec_idx());
        let ghost bb = word_bits(m, b.spec_idx());
        proof {
            crate::backend::backend::lemma_shape_ok::<W, N>();
            fe.backend.lemma_model();
            W::lemma_width();
            vstd::arithmetic::power2::lemma_pow2_pos(n);
            lemma_word_bits_len(m, lo.spec_idx());
            lemma_word_bits_len(m, hi.spec_idx());
            lemma_word_bits_len(m, al.spec_idx());
            lemma_word_bits_len(m, ah.spec_idx());
            lemma_word_bits_len(m, b.spec_idx());
            assert(ws.contains(lo.spec_idx()) && ws.contains(hi.spec_idx()) && ws.contains(al.spec_idx()) && ws.contains(ah.spec_idx()) && ws.contains(b.spec_idx()));
            crate::word::bitseq::lemma_pow2_succ(t);
            vstd::arithmetic::power2::lemma_pow2_pos(t);
            vstd::arithmetic::div_mod::lemma_div_denominator(y as int, pow2(t) as int, 2);
        }
        let (sl, sh) = Self::select_step(&b, &al, &ah, fe, Ghost(ws));
        let ghost m1 = fe.model();
        let ghost s1 = ws.insert(sl.spec_idx()).insert(sh.spec_idx());
        let ghost bit = bb[0];
        proof {
            lemma_grows_room(m, m1, (8 * N) as nat, (23 * N) as nat);
            assert(s1.contains(lo.spec_idx()) && s1.contains(hi.spec_idx()) && s1.contains(sl.spec_idx()) && s1.contains(sh.spec_idx()));
            assert(word_bits(m1, lo.spec_idx()) == lob && word_bits(m1, hi.spec_idx()) == hib);
            if B::tracks_values() {
                lemma_select_sum(bb, alb, ahb, word_bits(m1, sl.spec_idx()), word_bits(m1, sh.spec_idx()), x, y, t);
                crate::word::composite::lemma_mul_bits_exact(x, y, t, bit);
                vstd::arithmetic::div_mod::lemma_mod_decreases(y, pow2(t + 1));
                lemma_products_fit(x, y % pow2(t + 1), t + 1, n);
            }
        }
        let (nlo, nhi) = Self::acc_step(&lo, &hi, &sl, &sh, fe, Ghost(s1));
        let ghost m2 = fe.model();
        let ghost s2 = s1.insert(nlo.spec_idx()).insert(nhi.spec_idx());
        proof {
            lemma_grows_room(m1, m2, (18 * N) as nat, (5 * N) as nat);
            lemma_grows_trans(m, m1, m2, (8 * N) as nat, (18 * N) as nat);
            if B::tracks_values() {
                lemma_word_bits_len(m1, sl.spec_idx());
                lemma_word_bits_len(m1, sh.spec_idx());
                lemma_acc_iteration(lob, hib, word_bits(m1, sl.spec_idx()), word_bits(m1, sh.spec_idx()), word_bits(m2, nlo.spec_idx()), word_bits(m2, nhi.spec_idx()));
            }
            assert(s2.contains(sl.spec_idx()));
        }
        let ghost r0 = fe.model();
        sl.release_in(fe, Ghost(s2));
        let ghost r1 = fe.model();
        let ghost s3 = s2.remove(sl.spec_idx());
        proof { assert(s3.contains(sh.spec_idx())); }
        sh.release_in(fe, Ghost(s3));
        let ghost r2 = fe.model();
        let ghost s4 = s3.remove(sh.spec_idx());
        proof { assert(s4.contains(lo.spec_idx())); lemma_grows_trans(r0, r1, r2, 0, 0); }
        lo.release_in(fe, Ghost(s4));
        let ghost r3 = fe.model();
        let ghost s5 = s4.remove(lo.spec_idx());
        proof { assert(s5.contains(hi.spec_idx())); lemma_grows_trans(r0, r2, r3, 0, 0); }
        hi.release_in(fe, Ghost(s5));
        let ghost s6 = s5.remove(hi.spec_idx());
        let ghost m3 = fe.model();
        proof {
            lemma_grows_trans(r0, r3, m3, 0, 0);
            lemma_grows_room(m2, m3, 0, (5 * N) as nat);
            assert(s2.contains(nlo.spec_idx()) && s2.contains(nhi.spec_idx()) && s2.contains(al.spec_idx()) && s2.contains(ah.spec_idx()) && s2.contains(b.spec_idx()));
            assert(s3.contains(nlo.spec_idx()) && s3.contains(nhi.spec_idx()) && s3.contains(al.spec_idx()) && s3.contains(ah.spec_idx()) && s3.contains(b.spec_idx()));
            assert(s4.contains(nlo.spec_idx()) && s4.contains(nhi.spec_idx()) && s4.contains(al.spec_idx()) && s4.contains(ah.spec_idx()) && s4.contains(b.spec_idx()));
            assert(s5.contains(nlo.spec_idx()) && s5.contains(nhi.spec_idx()) && s5.contains(al.spec_idx()) && s5.contains(ah.spec_idx()) && s5.contains(b.spec_idx()));
            assert(s6.contains(nlo.spec_idx()) && s6.contains(nhi.spec_idx()) && s6.contains(al.spec_idx()) && s6.contains(ah.spec_idx()) && s6.contains(b.spec_idx()));
            assert(s1.contains(al.spec_idx()) && s1.contains(ah.spec_idx()) && s1.contains(b.spec_idx()));
            assert(word_bits(m3, nlo.spec_idx()) == word_bits(m2, nlo.spec_idx()));
            assert(word_bits(m3, nhi.spec_idx()) == word_bits(m2, nhi.spec_idx()));
            assert(word_bits(m3, al.spec_idx()) == alb && word_bits(m3, ah.spec_idx()) == ahb && word_bits(m3, b.spec_idx()) == bb);
        }
        let (nal, nah) = Self::shift_step(&al, &ah, fe, Ghost(s6));
        let ghost m4 = fe.model();
        let ghost s7 = s6.insert(nal.spec_idx()).insert(nah.spec_idx());
        proof {
            lemma_grows_room(m3, m4, (4 * N) as nat, N as nat);
            if B::tracks_values() {
                lemma_products_fit(x, y, t + 1, n);
                assert(x * pow2(t + 1) == 2 * (x * pow2(t))) by (nonlinear_arith)
                    requires
                        pow2(t + 1) == 2 * pow2(t),
                ;
                assert(2 * (bits_val(alb) + pow2(alb.len()) * bits_val(ahb)) < pow2(alb.len()) * pow2(alb.len()));
                lemma_shift_values(alb, ahb);
            }
            assert(s7.contains(al.spec_idx()));
        }
        let ghost q0 = fe.model();
        al.release_in(fe, Ghost(s7));
        let ghost q1 = fe.model();
        let ghost s8 = s7.remove(al.spec_idx());
        proof { assert(s8.contains(ah.spec_idx())); }
        ah.release_in(fe, Ghost(s8));
        let ghost s9 = s8.remove(ah.spec_idx());
        let ghost m5 = fe.model();
        proof {
            lemma_grows_trans(q0, q1, m5, 0, 0);
            lemma_grows_room(m4, m5, 0, N as nat);
            assert(s7.contains(b.spec_idx()) && s7.contains(nal.spec_idx()) && s7.contains(nah.spec_idx()) && s7.contains(nlo.spec_idx()) && s7.contains(nhi.spec_idx()));
            assert(s8.contains(b.spec_idx()) && s8.contains(nal.spec_idx()) && s8.contains(nah.spec_idx()) && s8.contains(nlo.spec_idx()) && s8.contains(nhi.spec_idx()));
            assert(s9.contains(b.spec_idx()) && s9.contains(nal.spec_idx()) && s9.contains(nah.spec_idx()) && s9.contains(nlo.spec_idx()) && s9.contains(nhi.spec_idx()));
            assert(s6.contains(b.spec_idx()));
            assert(word_bits(m5, b.spec_idx()) == bb);
        }
        proof {
            fe.backend.lemma_model();
        }
        let nb = b.unop_ref(fe, UnOp::Shr(1));
        let ghost m6 = fe.model();
        proof {
            lemma_live_step::<W, N>(m5, m6, s9, N as nat, nb.spec_idx());
            lemma_bits_val_shr(bb, 1);
            vstd::arithmetic::power2::lemma2_to64();
            assert(s9.insert(nb.spec_idx()).contains(b.spec_idx()));
        }
        b.release_in(fe, Ghost(s9.insert(nb.spec_idx())));
        proof {
            let mf = fe.model();
            assert(s9.insert(nb.spec_idx()).remove(b.spec_idx()).contains(nlo.spec_idx()));
            let sf = s9.insert(nb.spec_idx()).remove(b.spec_idx());
            assert(sf.contains(nlo.spec_idx()) && sf.contains(nhi.spec_idx()) && sf.contains(nal.spec_idx()) && sf.contains(nah.spec_idx()) && sf.contains(nb.spec_idx()));
            assert(sf =~= five(nlo.spec_idx(), nhi.spec_idx(), nal.spec_idx(), nah.spec_idx(), nb.spec_idx()));
            lemma_grows_trans(m, m2, m3, (26 * N) as nat, 0);
            lemma_grows_trans(m, m3, m4, (26 * N) as nat, (4 * N) as nat);
            lemma_grows_trans(m, m4, m5, (30 * N) as nat, 0);
            lemma_grows_trans(m, m5, m6, (30 * N) as nat, N as nat);
            lemma_grows_trans(m, m6, mf, (31 * N) as nat, 0);
        }
        (nlo, nhi, nal, nah, nb)
    }
}

/// The highest bit of a non-empty bit sequence is set exactly when its value reaches half
/// the range.
proof fn lemma_top_bit(t: Seq<bool>)
    requires
        t.len() > 0,
    ensures
        t[t.len() - 1] <==> bits_val(t) >= pow2((t.len() - 1) as nat),
{
    lemma_bits_val_bound(t.drop_last());
    assert(bits_val(t) == bits_val(t.drop_last()) + bool_nat(t.last()) * pow2((t.len() - 1) as nat));
}

/// A word or its two's complement negation reaches half the range exactly when the word is
/// nonzero.
proof fn lemma_nonzero_halves(x: nat, y: nat, n: nat)
    requires
        n > 0,
        x < pow2(n),
        y == (pow2(n) - x) % (pow2(n) as int),
    ensures
        (x >= pow2((n - 1) as nat) || y >= pow2((n - 1) as nat)) <==> x != 0,
{
    vstd::arithmetic::power2::lemma_pow2_unfold(n);
    vstd::arithmetic::power2::lemma_pow2_pos((n - 1) as nat);
    if x == 0 {
        vstd::arithmetic::div_mod::lemma_mod_self_0(pow2(n) as int);
    } else {
        vstd::arithmetic::div_mod::lemma_small_mod((pow2(n) - x) as nat, pow2(n));
    }
}

impl<B: Backend, W: Word> WordRef<B, W, 1> {
    /// Whether this word is nonzero: the highest bit of the OR of the word with its two's
    /// complement negation. The word is consumed.
    #[verifier::spinoff_prover]
    pub fn is_nonzero(self, fe: &mut Frontend<B>) -> (r: BooleanWordRef<B>)
        requires
            old(fe).wf(),
            live_idx(old(fe).model(), self.spec_idx()),
            old(fe).model().refs.get(W::spec_width())[self.spec_idx().spec_idxs()[0] as int] < B::max_ref(),
            room_all(old(fe).model(), 12),
        ensures
            final(fe).wf(),
            final(fe).spec_backend().key() == old(fe).spec_backend().key(),
            r.holds(final(fe).model()),
            B::tracks_values() ==> r.value(final(fe).model()) == (word_val(old(fe).model(), self.spec_idx()) != 0),
            grows_by(old(fe).model(), final(fe).model(), 12),
    {
        let ghost m0 = fe.model();
        let ghost x = self.spec_idx();
        proof {
            W::lemma_width();
            fe.backend.lemma_model();
            x.lemma_len();
        }
        let c = self.clone(fe);
        let ghost m1 = fe.model();
        proof {
            fe.backend.lemma_model();
            lemma_fits_twice(m1, x);
            assert forall|v: nat| is_word_width(v) implies #[trigger] m1.allocated.get(v).len() + 12 < usize::MAX by {
                if v != W::spec_width() {
                    assert(m1.allocated.get(v) == m0.allocated.get(v));
                }
            }
        }
        let n = c.wrapping_neg(fe);
        let ghost m2 = fe.model();
        proof {
            lemma_evolves_live(m1, m2, idx_count(x), 5, n.spec_idx(), x);
            lemma_fresh(m1, m2, idx_count(x), 5, n.spec_idx());
            fe.backend.lemma_model();
            lemma_fits_pair(m2, x, n.spec_idx());
            assert forall|v: nat| is_word_width(v) implies #[trigger] m2.allocated.get(v).len() + 7 < usize::MAX by {
                assert(m2.allocated.get(v).len() <= m1.allocated.get(v).len() + 5);
            }
        }
        let o = self.bitor(n, fe);
        let ghost m3 = fe.model();
        proof {
            lemma_fresh(m2, m3, add_count(idx_count(x), idx_count(n.spec_idx())), 4, o.spec_idx());
            assert forall|v: nat| is_word_width(v) implies #[trigger] m3.allocated.get(v).len() + 3 < usize::MAX by {
                assert(m3.allocated.get(v).len() <= m2.allocated.get(v).len() + 4);
            }
        }
        let r = o.msb(fe);
        proof {
            assert forall|v: nat| is_word_width(v) implies #[trigger] fe.model().allocated.get(v).len() <= m0.allocated.get(v).len() + 12 by {
                assert(m1.allocated.get(v).len() <= m0.allocated.get(v).len());
                assert(m2.allocated.get(v).len() <= m1.allocated.get(v).len() + 5);
                assert(m3.allocated.get(v).len() <= m2.allocated.get(v).len() + 4);
            }
            if B::tracks_values() {
                let w = W::spec_width();
                let sb = word_bits(m0, x);
                let nb = word_bits(m2, n.spec_idx());
                lemma_word_bits_len(m0, x);
                lemma_word_bits_len(m2, n.spec_idx());
                lemma_bits_val_bound(sb);
                assert(word_bits(m1, x) == sb);
                assert(word_bits(m3, o.spec_idx())[w - 1] == (sb[w - 1] || nb[w - 1]));
                lemma_top_bit(sb);
                lemma_top_bit(nb);
                lemma_nonzero_halves(bits_val(sb), bits_val(nb), w);
            }
        }
        r
    }
}

/// Two bit sequences of the same length have a zero XOR exactly when their values are equal.
proof fn lemma_xor_zero(a: Seq<bool>, b: Seq<bool>)
    requires
        a.len() == b.len(),
    ensures
        (bits_val(seq_xor(a, b)) != 0) <==> (bits_val(a) != bits_val(b)),
{
    lemma_bits_val_zero_iff(seq_xor(a, b));
    if bits_val(a) == bits_val(b) {
        lemma_bits_val_injective(a, b);
        assert forall|i: int| 0 <= i < a.len() implies !seq_xor(a, b)[i] by {
            assert(a[i] == b[i]);
        }
    } else if bits_val(seq_xor(a, b)) == 0 {
        assert forall|i: int| 0 <= i < a.len() implies a[i] == b[i] by {
            assert(!seq_xor(a, b)[i]);
        }
        assert(a =~= b);
    }
}

impl<B: Backend, W: Word> WordRef<B, W, 1> {
    /// Whether this word is zero: the negation of [WordRef::is_nonzero]. The word is consumed.
    pub fn is_zero(self, fe: &mut Frontend<B>) -> (r: BooleanWordRef<B>)
        requires
            old(fe).wf(),
            live_idx(old(fe).model(), self.spec_idx()),
            old(fe).model().refs.get(W::spec_width())[self.spec_idx().spec_idxs()[0] as int] < B::max_ref(),
            room_all(old(fe).model(), 13),
        ensures
            final(fe).wf(),
            final(fe).spec_backend().key() == old(fe).spec_backend().key(),
            r.holds(final(fe).model()),
            B::tracks_values() ==> r.value(final(fe).model()) == (word_val(old(fe).model(), self.spec_idx()) == 0),
    {
        let ghost m0 = fe.model();
        let b = self.is_nonzero(fe);
        proof {
            lemma_grows_room(m0, fe.model(), 12, 1);
        }
        b.not(fe)
    }

    /// Whether this word and another differ: whether their XOR is nonzero. Both words are
    /// consumed.
    pub fn ne(self, rhs: Self, fe: &mut Frontend<B>) -> (r: BooleanWordRef<B>)
        requires
            old(fe).wf(),
            live_idx(old(fe).model(), self.spec_idx()),
            live_idx(old(fe).model(), rhs.spec_idx()),
            fits(old(fe).model(), add_count(idx_count(self.spec_idx()), idx_count(rhs.spec_idx()))),
            room_all(old(fe).model(), 13),
        ensures
            final(fe).wf(),
            final(fe).spec_backend().key() == old(fe).spec_backend().key(),
            r.holds(final(fe).model()),
            B::tracks_values() ==> r.value(final(fe).model()) == (word_val(old(fe).model(), self.spec_idx()) != word_val(old(fe).model(), rhs.spec_idx())),
            grows_by(old(fe).model(), final(fe).model(), 13),
    {
        let ghost m0 = fe.model();
        let ghost (a, b) = (self.spec_idx(), rhs.spec_idx());
        proof {
            W::lemma_width();
            lemma_word_bits_len(m0, a);
            lemma_word_bits_len(m0, b);
            lemma_xor_zero(word_bits(m0, a), word_bits(m0, b));
        }
        let d = self.bitxor(rhs, fe);
        let ghost m1 = fe.model();
        proof {
            lemma_fresh(m0, m1, add_count(idx_count(a), idx_count(b)), 1, d.spec_idx());
            fe.backend.lemma_model();
            d.spec_idx().lemma_len();
            assert(m1.refs.get(W::spec_width())[d.spec_idx().spec_idxs()[0] as int] == 1);
            lemma_grows_room(m0, m1, 1, 12);
        }
        let r = d.is_nonzero(fe);
        proof {
            lemma_grows_trans(m0, m1, fe.model(), 1, 12);
        }
        r
    }

    /// Whether this word and another are equal: the negation of [WordRef::ne]. Both words are
    /// consumed.
    pub fn eq(self, rhs: Self, fe: &mut Frontend<B>) -> (r: BooleanWordRef<B>)
        requires
            old(fe).wf(),
            live_idx(old(fe).model(), self.spec_idx()),
            live_idx(old(fe).model(), rhs.spec_idx()),
            fits(old(fe).model(), add_count(idx_count(self.spec_idx()), idx_count(rhs.spec_idx()))),
            room_all(old(fe).model(), 14),
        ensures
            final(fe).wf(),
            final(fe).spec_backend().key() == old(fe).spec_backend().key(),
            r.holds(final(fe).model()),
            B::tracks_values() ==> r.value(final(fe).model()) == (word_val(old(fe).model(), self.spec_idx()) == word_val(old(fe).model(), rhs.spec_idx())),
    {
        let ghost m0 = fe.model();
        let b = self.ne(rhs, fe);
        proof {
            lemma_grows_room(m0, fe.model(), 13, 1);
        }
        b.not(fe)
    }

    /// Whether this word differs from a constant: whether their XOR is nonzero. The word is
    /// consumed.
    pub fn ne_const(self, rhs: CompositeWord<W, 1>, fe: &mut Frontend<B>) -> (r: BooleanWordRef<B>)
        requires
            old(fe).wf(),
            live_idx(old(fe).model(), self.spec_idx()),
            room_all(old(fe).model(), 13),
        ensures
            final(fe).wf(),
            final(fe).spec_backend().key() == old(fe).spec_backend().key(),
            r.holds(final(fe).model()),
            B::tracks_values() ==> r.value(final(fe).model()) == (word_val(old(fe).model(), self.spec_idx()) != rhs.cvalue()),
            grows_by(old(fe).model(), final(fe).model(), 13),
    {
        let ghost m0 = fe.model();
        let ghost a = self.spec_idx();
        proof {
            W::lemma_width();
            lemma_word_bits_len(m0, a);
            lemma_xor_zero(word_bits(m0, a), rhs.cbits());
        }
        let d = self.bitxor_const(rhs, fe);
        let ghost m1 = fe.model();
        proof {
            lemma_fresh(m0, m1, idx_count(a), 1, d.spec_idx());
            fe.backend.lemma_model();
            d.spec_idx().lemma_len();
            assert(m1.refs.get(W::spec_width())[d.spec_idx().spec_idxs()[0] as int] == 1);
            lemma_grows_room(m0, m1, 1, 12);
        }
        let r = d.is_nonzero(fe);
        proof {
            lemma_grows_trans(m0, m1, fe.model(), 1, 12);
        }
        r
    }

    /// Whether this word equals a constant: the negation of [WordRef::ne_const]. The word is
    /// consumed.
    pub fn eq_const(self, rhs: CompositeWord<W, 1>, fe: &mut Frontend<B>) -> (r: BooleanWordRef<B>)
        requires
            old(fe).wf(),
            live_idx(old(fe).model(), self.spec_idx()),
            room_all(old(fe).model(), 14),
        ensures
            final(fe).wf(),
            final(fe).spec_backend().key() == old(fe).spec_backend().key(),
            r.holds(final(fe).model()),
            B::tracks_values() ==> r.value(final(fe).model()) == (word_val(old(fe).model(), self.spec_idx()) == rhs.cvalue()),
    {
        let ghost m0 = fe.model();
        let b = self.ne_const(rhs, fe);
        proof {
            lemma_grows_room(m0, fe.model(), 13, 1);
        }
        b.not(fe)
    }
}

/// The carry out of the sum of `a` and the complement of `b` is set exactly when `a` is
/// greater than `b`, and the double word holding it has that carry as its value.
proof fn lemma_gt_carry(a: Seq<bool>, b: Seq<bool>, h: Seq<bool>)
    requires
        a.len() == b.len(),
        a.len() > 0,
        h == seq_add(seq_zeros(a.len()), seq_add(seq_zeros(a.len()), carry_bits(a, seq_not(b)), false), false),
    ensures
        h.len() == a.len(),
        h[0] == (bits_val(a) > bits_val(b)),
{
    let n = a.len();
    let nb = seq_not(b);
    lemma_carry_bits(a, nb);
    lemma_bits_val_not(b);
    lemma_bits_val_bound(a);
    lemma_bits_val_bound(b);
    lemma_bits_val_bound(seq_add(a, nb, false));
    lemma_bits_val_zeros(n);
    let cb = carry_bits(a, nb);
    let c = bits_val(cb);
    lemma_add_value(a, nb, false);
    assert(c == bool_nat(seq_add_carry(a, nb, false)));
    assert((c == 1) == (bits_val(a) > bits_val(b)));
    vstd::arithmetic::power2::lemma_pow2_pos(n);
    vstd::arithmetic::power2::lemma_pow2_unfold(n);
    let inner = seq_add(seq_zeros(n), cb, false);
    lemma_add_value(seq_zeros(n), cb, false);
    vstd::arithmetic::div_mod::lemma_small_mod(c, pow2(n));
    assert(bits_val(inner) == c);
    lemma_add_value(seq_zeros(n), inner, false);
    assert(bits_val(h) == c);
    lemma_bits_val_lsb(h);
    assert(bits_val(h.drop_first()) == 0);
}

impl<B: Backend, W: Word> WordRef<B, W, 1> {
    /// Whether this word is greater than another: the carry out of the sum of this word and
    /// the complement of the other, computed over a double word. Both words are consumed.
    #[verifier::rlimit(100)]
    #[verifier::spinoff_prover]
    pub fn gt(self, rhs: Self, fe: &mut Frontend<B>) -> (r: BooleanWordRef<B>)
        requires
            old(fe).wf(),
            live_idx(old(fe).model(), self.spec_idx()),
            live_idx(old(fe).model(), rhs.spec_idx()),
            fits(old(fe).model(), add_count(idx_count(self.spec_idx()), idx_count(rhs.spec_idx()))),
            room_all(old(fe).model(), 24),
        ensures
            final(fe).wf(),
            final(fe).spec_backend().key() == old(fe).spec_backend().key(),
            r.holds(final(fe).model()),
            B::tracks_values() ==> r.value(final(fe).model()) == (word_val(old(fe).model(), self.spec_idx()) > word_val(old(fe).model(), rhs.spec_idx())),
            grows_by(old(fe).model(), final(fe).model(), 23),
    {
        let ghost m0 = fe.model();
        let ghost a = self.spec_idx();
        let ghost b = rhs.spec_idx();
        let ghost ab = word_bits(m0, a);
        let ghost bb = word_bits(m0, b);
        proof {
            W::lemma_width();
            fe.backend.lemma_model();
            crate::backend::backend::lemma_shape_ok::<W, 1>();
            lemma_word_bits_len(m0, a);
            lemma_word_bits_len(m0, b);
            assert(fits(m0, add_count(idx_count(b), idx_count(a)))) by {
                assert forall|v: nat, i: int| is_word_width(v) && 0 <= i < m0.refs.get(v).len() implies #[trigger] add_count(idx_count(b), idx_count(a))(v, i) <= m0.refs.get(v)[i] by {
                    assert(add_count(idx_count(a), idx_count(b))(v, i) <= m0.refs.get(v)[i]);
                }
            }
        }
        let nb = rhs.not(fe);
        let ghost m1 = fe.model();
        proof {
            lemma_evolves_live(m0, m1, idx_count(b), 1, nb.spec_idx(), a);
            lemma_fresh(m0, m1, idx_count(b), 1, nb.spec_idx());
            fe.backend.lemma_model();
            lemma_grows_room(m0, m1, 1, 23);
        }
        let ghost ws0 = Set::<WordIdx<W, 1>>::empty().insert(a).insert(nb.spec_idx());
        proof {
            assert(apart(nb.spec_idx(), a)) by {
                assert(apart(a, nb.spec_idx()));
            }
            assert(a != nb.spec_idx()) by {
                a.lemma_len();
                assert(uses(a, W::spec_width(), a.spec_idxs()[0] as int)) by {
                    assert(a.spec_idxs()[0] == (a.spec_idxs()[0] as int) as usize);
                }
            }
            assert(live_all(m1, ws0));
        }
        let z1 = Self::alloc_zero_in(fe, Ghost(ws0));
        let ghost ws1 = ws0.insert(z1.spec_idx());
        let ghost m2 = fe.model();
        proof {
            lemma_grows_room(m1, m2, 1, 22);
        }
        let z2 = Self::alloc_zero_in(fe, Ghost(ws1));
        let ghost ws2 = ws1.insert(z2.spec_idx());
        let ghost m3 = fe.model();
        proof {
            lemma_grows_room(m2, m3, 1, 21);
            assert(ws2.contains(a) && ws2.contains(nb.spec_idx()) && ws2.contains(z1.spec_idx()) && ws2.contains(z2.spec_idx()));
            assert(ws1.contains(a) && ws1.contains(nb.spec_idx()));
        }
        let (lo, hi) = Self::acc_step(&self, &z1, &nb, &z2, fe, Ghost(ws2));
        let ghost m4 = fe.model();
        let ghost ws3 = ws2.insert(lo.spec_idx()).insert(hi.spec_idx());
        proof {
            lemma_grows_room(m3, m4, 18, 3);
            if B::tracks_values() {
                assert(word_bits(m3, a) == ab);
                assert(word_bits(m3, nb.spec_idx()) == seq_not(bb));
                assert(word_bits(m3, z1.spec_idx()) == seq_zeros(ab.len()));
                assert(word_bits(m3, z2.spec_idx()) == seq_zeros(ab.len()));
                lemma_gt_carry(ab, bb, word_bits(m4, hi.spec_idx()));
            }
            assert(ws3.contains(lo.spec_idx()) && ws3.contains(hi.spec_idx()) && ws3.contains(a));
        }
        lo.release_in(fe, Ghost(ws3));
        let ghost ws4 = ws3.remove(lo.spec_idx());
        proof {
            assert(ws4.contains(a) && ws4.contains(hi.spec_idx()) && ws4.contains(z1.spec_idx()));
        }
        self.release_in(fe, Ghost(ws4));
        let ghost ws5 = ws4.remove(a);
        proof {
            assert(ws5.contains(z1.spec_idx()) && ws5.contains(hi.spec_idx()) && ws5.contains(z2.spec_idx()));
        }
        z1.release_in(fe, Ghost(ws5));
        let ghost ws6 = ws5.remove(z1.spec_idx());
        proof {
            assert(ws6.contains(z2.spec_idx()) && ws6.contains(hi.spec_idx()) && ws6.contains(nb.spec_idx()));
        }
        z2.release_in(fe, Ghost(ws6));
        let ghost ws7 = ws6.remove(z2.spec_idx());
        proof {
            assert(ws7.contains(nb.spec_idx()) && ws7.contains(hi.spec_idx()));
        }
        nb.release_in(fe, Ghost(ws7));
        let ghost m5 = fe.model();
        proof {
            let ws8 = ws7.remove(nb.spec_idx());
            assert(ws8.contains(hi.spec_idx()));
            assert(word_bits(m5, hi.spec_idx()) == word_bits(m4, hi.spec_idx()));
            lemma_grows_room(m4, m5, 0, 3);
        }
        let r = hi.lsb(fe);
        proof {
            assert forall|v: nat| is_word_width(v) implies #[trigger] fe.model().allocated.get(v).len() <= m0.allocated.get(v).len() + 23 by {
                assert(m1.allocated.get(v).len() <= m0.allocated.get(v).len() + 1);
                assert(m2.allocated.get(v).len() <= m1.allocated.get(v).len() + 1);
                assert(m3.allocated.get(v).len() <= m2.allocated.get(v).len() + 1);
                assert(m4.allocated.get(v).len() <= m3.allocated.get(v).len() + 18);
                assert(m5.allocated.get(v).len() <= m4.allocated.get(v).len());
            }
        }
        r
    }

    /// Whether this word is less than another: whether the other is greater. Both words are
    /// consumed.
    pub fn lt(self, rhs: Self, fe: &mut Frontend<B>) -> (r: BooleanWordRef<B>)
        requires
            old(fe).wf(),
            live_idx(old(fe).model(), self.spec_idx()),
            live_idx(old(fe).model(), rhs.spec_idx()),
            fits(old(fe).model(), add_count(idx_count(self.spec_idx()), idx_count(rhs.spec_idx()))),
            room_all(old(fe).model(), 24),
        ensures
            final(fe).wf(),
            final(fe).spec_backend().key() == old(fe).spec_backend().key(),
            r.holds(final(fe).model()),
            B::tracks_values() ==> r.value(final(fe).model()) == (word_val(old(fe).model(), self.spec_idx()) < word_val(old(fe).model(), rhs.spec_idx())),
            grows_by(old(fe).model(), final(fe).model(), 23),
    {
        let ghost m0 = fe.model();
        proof {
            let (a, b) = (self.spec_idx(), rhs.spec_idx());
            assert forall|v: nat, i: int| is_word_width(v) && 0 <= i < m0.refs.get(v).len() implies #[trigger] add_count(idx_count(b), idx_count(a))(v, i) <= m0.refs.get(v)[i] by {
                assert(add_count(idx_count(a), idx_count(b))(v, i) <= m0.refs.get(v)[i]);
            }
        }
        rhs.gt(self, fe)
    }

    /// Whether this word is at least another: the negation of [WordRef::lt]. Both words are
    /// consumed.
    pub fn ge(self, rhs: Self, fe: &mut Frontend<B>) -> (r: BooleanWordRef<B>)
        requires
            old(fe).wf(),
            live_idx(old(fe).model(), self.spec_idx()),
            live_idx(old(fe).model(), rhs.spec_idx()),
            fits(old(fe).model(), add_count(idx_count(self.spec_idx()), idx_count(rhs.spec_idx()))),
            room_all(old(fe).model(), 25),
        ensures
            final(fe).wf(),
            final(fe).spec_backend().key() == old(fe).spec_backend().key(),
            r.holds(final(fe).model()),
            B::tracks_values() ==> r.value(final(fe).model()) == (word_val(old(fe).model(), self.spec_idx()) >= word_val(old(fe).model(), rhs.spec_idx())),
    {
        let ghost m0 = fe.model();
        let b = self.lt(rhs, fe);
        proof {
            lemma_grows_room(m0, fe.model(), 23, 1);
        }
        b.not(fe)
    }

    /// Whether this word is at most another: the negation of [WordRef::gt]. Both words are
    /// consumed.
    pub fn le(self, rhs: Self, fe: &mut Frontend<B>) -> (r: BooleanWordRef<B>)
        requires
            old(fe).wf(),
            live_idx(old(fe).model(), self.spec_idx()),
            live_idx(old(fe).model(), rhs.spec_idx()),
            fits(old(fe).model(), add_count(idx_count(self.spec_idx()), idx_count(rhs.spec_idx()))),
            room_all(old(fe).model(), 25),
        ensures
            final(fe).wf(),
            final(fe).spec_backend().key() == old(fe).spec_backend().key(),
            r.holds(final(fe).model()),
            B::tracks_values() ==> r.value(final(fe).model()) == (word_val(old(fe).model(), self.spec_idx()) <= word_val(old(fe).model(), rhs.spec_idx())),
    {
        let ghost m0 = fe.model();
        let b = self.gt(rhs, fe);
        proof {
            lemma_grows_room(m0, fe.model(), 23, 1);
        }
        b.not(fe)
    }
}

impl<B: Backend, W: Word> WordRef<B, W, 1> {
    /// Whether this word is greater than a constant, held in a word allocated for it. The word is
    /// consumed.
    pub fn gt_const(self, rhs: CompositeWord<W, 1>, fe: &mut Frontend<B>) -> (r: BooleanWordRef<B>)
        requires
            old(fe).wf(),
            live_idx(old(fe).model(), self.spec_idx()),
            room_all(old(fe).model(), 25),
        ensures
            final(fe).wf(),
            final(fe).spec_backend().key() == old(fe).spec_backend().key(),
            r.holds(final(fe).model()),
            B::tracks_values() ==> r.value(final(fe).model()) == (word_val(old(fe).model(), self.spec_idx()) > rhs.cvalue()),
            grows_by(old(fe).model(), final(fe).model(), 24),
    {
        let ghost m0 = fe.model();
        let ghost a = self.spec_idx();
        let ghost ws = Set::<WordIdx<W, 1>>::empty().insert(a);
        proof {
            W::lemma_width();
            crate::backend::backend::lemma_shape_ok::<W, 1>();
            assert(live_all(m0, ws));
        }
        let k = Self::alloc_const_in(rhs, fe, Ghost(ws));
        let ghost m1 = fe.model();
        proof {
            let w1 = ws.insert(k.spec_idx());
            assert(w1.contains(a) && w1.contains(k.spec_idx()));
            assert(a != k.spec_idx());
            assert(ws.contains(a));
            fe.backend.lemma_model();
            lemma_fits_pair(m1, a, k.spec_idx());
            lemma_grows_room(m0, m1, 1, 24);
        }
        let r = self.gt(k, fe);
        proof {
            lemma_grows_trans(m0, m1, fe.model(), 1, 23);
        }
        r
    }

    /// Whether this word is less than a constant, held in a word allocated for it. The word is
    /// consumed.
    pub fn lt_const(self, rhs: CompositeWord<W, 1>, fe: &mut Frontend<B>) -> (r: BooleanWordRef<B>)
        requires
            old(fe).wf(),
            live_idx(old(fe).model(), self.spec_idx()),
            room_all(old(fe).model(), 25),
        ensures
            final(fe).wf(),
            final(fe).spec_backend().key() == old(fe).spec_backend().key(),
            r.holds(final(fe).model()),
            B::tracks_values() ==> r.value(final(fe).model()) == (word_val(old(fe).model(), self.spec_idx()) < rhs.cvalue()),
            grows_by(old(fe).model(), final(fe).model(), 24),
    {
        let ghost m0 = fe.model();
        let ghost a = self.spec_idx();
        let ghost ws = Set::<WordIdx<W, 1>>::empty().insert(a);
        proof {
            W::lemma_width();
            crate::backend::backend::lemma_shape_ok::<W, 1>();
            assert(live_all(m0, ws));
        }
        let k = Self::alloc_const_in(rhs, fe, Ghost(ws));
        let ghost m1 = fe.model();
        proof {
            let w1 = ws.insert(k.spec_idx());
            assert(w1.contains(a) && w1.contains(k.spec_idx()));
            assert(a != k.spec_idx());
            assert(ws.contains(a));
            fe.backend.lemma_model();
            lemma_fits_pair(m1, k.spec_idx(), a);
            lemma_grows_room(m0, m1, 1, 24);
        }
        let r = k.gt(self, fe);
        proof {
            lemma_grows_trans(m0, m1, fe.model(), 1, 23);
        }
        r
    }

    /// Whether this word is at least a constant: the negation of [WordRef::lt_const]. The word is
    /// consumed.
    pub fn ge_const(self, rhs: CompositeWord<W, 1>, fe: &mut Frontend<B>) -> (r: BooleanWordRef<B>)
        requires
            old(fe).wf(),
            live_idx(old(fe).model(), self.spec_idx()),
            room_all(old(fe).model(), 26),
        ensures
            final(fe).wf(),
            final(fe).spec_backend().key() == old(fe).spec_backend().key(),
            r.holds(final(fe).model()),
            B::tracks_values() ==> r.value(final(fe).model()) == (word_val(old(fe).model(), self.spec_idx()) >= rhs.cvalue()),
    {
        let ghost m0 = fe.model();
        let b = self.lt_const(rhs, fe);
        proof {
            lemma_grows_room(m0, fe.model(), 24, 1);
        }
        b.not(fe)
    }

    /// Whether this word is at most a constant: the negation of [WordRef::gt_const]. The word is
    /// consumed.
    pub fn le_const(self, rhs: CompositeWord<W, 1>, fe: &mut Frontend<B>) -> (r: BooleanWordRef<B>)
        requires
            old(fe).wf(),
            live_idx(old(fe).model(), self.spec_idx()),
            room_all(old(fe).model(), 26),
        ensures
            final(fe).wf(),
            final(fe).spec_backend().key() == old(fe).spec_backend().key(),
            r.holds(final(fe).model()),
            B::tracks_values() ==> r.value(final(fe).model()) == (word_val(old(fe).model(), self.spec_idx()) <= rhs.cvalue()),
    {
        let ghost m0 = fe.model();
        let b = self.gt_const(rhs, fe);
        proof {
            lemma_grows_room(m0, fe.model(), 24, 1);
        }
        b.not(fe)
    }
}

} // verus!
