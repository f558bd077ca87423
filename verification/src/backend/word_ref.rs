//! References to the words held by a backend, and the operations on them.
use crate::backend::backend::{
    lemma_shape_ok, lemma_word_bits_len, live_idx, model_ok, recounts, shape_ok, uses, valid_idx, word_bits, word_val,
    writes_only, Backend, SlotModel,
};
use crate::backend::evolution::{
    apart, lemma_evolves_chain, lemma_evolves_live, lemma_evolves_owned, lemma_evolves_release, lemma_evolves_room,
    lemma_owned_step, lemma_release_keeps_owned, lemma_release_owned, no_count, owned,
};
use crate::backend::frontend::{
    add_count, count_uses, evolves, fits, idx_count, kept, lemma_consumable_one, lemma_count_nonneg, lemma_evolves_keeps,
    lemma_produces_evolves, lemma_produces_keeps, lemma_produces_live, lemma_produces_release, lemma_produces_write,
    produces, room, room_all, seq_count, Frontend,
};
use crate::word::bitseq::{carries, lemma_bits_val_not, lemma_bits_val_zeros, seq_add, seq_and, seq_not, seq_or, seq_zeros, seq_rotl, seq_rotr, seq_shl, seq_shr, seq_swap_bytes, seq_xor};
use crate::word::composite::lemma_add_value;
use vstd::arithmetic::power2::pow2;
use crate::word::by_word_type::is_word_width;
use crate::word::composite::CompositeWord;
use crate::word::word::{le_bytes_val, nat_le_bytes, Word};
use crate::word::word_idx::WordIdx;
use vstd::prelude::*;

verus! {

/// Unary gates.
pub(crate) enum UnOp {
    Not,
    Shl(usize),
    Shr(usize),
    Rotl(usize),
    Rotr(usize),
    Rev,
    Swap,
}

/// The bits computed by a unary gate.
pub(crate) open spec fn unop_bits(op: UnOp, a: Seq<bool>) -> Seq<bool> {
    match op {
        UnOp::Not => seq_not(a),
        UnOp::Shl(s) => seq_shl(a, s as int),
        UnOp::Shr(s) => seq_shr(a, s as int),
        UnOp::Rotl(s) => seq_rotl(a, s as int),
        UnOp::Rotr(s) => seq_rotr(a, s as int),
        UnOp::Rev => a.reverse(),
        UnOp::Swap => seq_swap_bytes(a),
    }
}

/// Binary gates, with a word or a constant on the right; the carry gate takes propagate bits
/// on the left, generate bits on the right and a carry-in.
pub(crate) enum BinOp {
    Xor,
    And,
    Carry(bool),
}

/// The bits computed by a binary gate.
pub(crate) open spec fn binop_bits(op: BinOp, a: Seq<bool>, b: Seq<bool>) -> Seq<bool> {
    match op {
        BinOp::Xor => seq_xor(a, b),
        BinOp::And => seq_and(a, b),
        BinOp::Carry(c) => carries(a, b, c, a.len()),
    }
}

/// One slot count.
proof fn lemma_count_one<W: Word, const N: usize>(a: WordIdx<W, N>)
    ensures
        forall|v: nat, i: int| #[trigger] seq_count(Seq::<WordIdx<W, N>>::empty().push(a))(v, i) == idx_count(a)(v, i),
{
    assert forall|v: nat, i: int| #[trigger] seq_count(Seq::<WordIdx<W, N>>::empty().push(a))(v, i) == idx_count(a)(v, i) by {
        assert(Seq::<WordIdx<W, N>>::empty().push(a).drop_last() =~= Seq::<WordIdx<W, N>>::empty());
        assert(count_uses(Seq::<WordIdx<W, N>>::empty(), v, i) == 0);
    }
}

/// Two slot counts.
proof fn lemma_count_two<W: Word, const N: usize>(a: WordIdx<W, N>, b: WordIdx<W, N>)
    ensures
        forall|v: nat, i: int| #[trigger] seq_count(Seq::<WordIdx<W, N>>::empty().push(a).push(b))(v, i)
            == add_count(idx_count(a), idx_count(b))(v, i),
{
    assert forall|v: nat, i: int| #[trigger] seq_count(Seq::<WordIdx<W, N>>::empty().push(a).push(b))(v, i)
        == add_count(idx_count(a), idx_count(b))(v, i) by {
        let e = Seq::<WordIdx<W, N>>::empty();
        let s1 = e.push(a);
        let s2 = s1.push(b);
        assert(s2.drop_last() =~= s1);
        assert(s1.drop_last() =~= e);
        assert(s2.last() == b);
        assert(s1.last() == a);
        assert(count_uses(e, v, i) == 0);
        assert(count_uses(s1, v, i) == if uses(a, v, i) { 1int } else { 0int });
        assert(count_uses(s2, v, i) == count_uses(s1, v, i) + if uses(b, v, i) { 1int } else { 0int });
    }
}

/// A live index fits in the reference counts.
pub(crate) proof fn lemma_fits_one<W: Word, const N: usize>(m: SlotModel, a: WordIdx<W, N>)
    requires
        live_idx(m, a),
        model_ok(m),
    ensures
        fits(m, add_count(no_count(), idx_count(a))),
        fits(m, idx_count(a)),
{
    W::lemma_width();
    a.lemma_len();
    assert forall|v: nat, i: int| is_word_width(v) && 0 <= i < m.refs.get(v).len() implies #[trigger] idx_count(a)(v, i) <= m.refs.get(v)[i] by {
        if uses(a, v, i) {
            let k = choose|k: int| 0 <= k < a.spec_idxs().len() && a.spec_idxs()[k] == i as usize;
            assert(m.refs.get(v).len() <= m.allocated.get(v).len());
            assert(a.spec_idxs()[k] as int == i);
            assert(m.refs.get(W::spec_width())[a.spec_idxs()[k] as int] >= 1);
        }
    }
    assert forall|v: nat, i: int| is_word_width(v) && 0 <= i < m.refs.get(v).len() implies #[trigger] add_count(no_count(), idx_count(a))(v, i) <= m.refs.get(v)[i] by {
        assert(idx_count(a)(v, i) <= m.refs.get(v)[i]);
    }
}

/// Two indices that fit together fit when counted one after the other.
proof fn lemma_fits_two<W: Word, const N: usize, V: Word, const M: usize>(m: SlotModel, a: WordIdx<W, N>, b: WordIdx<V, M>)
    requires
        fits(m, add_count(idx_count(a), idx_count(b))),
    ensures
        fits(m, add_count(add_count(no_count(), idx_count(a)), idx_count(b))),
{
    assert forall|v: nat, i: int| is_word_width(v) && 0 <= i < m.refs.get(v).len() implies #[trigger] add_count(add_count(no_count(), idx_count(a)), idx_count(b))(v, i) <= m.refs.get(v)[i] by {
        assert(add_count(idx_count(a), idx_count(b))(v, i) <= m.refs.get(v)[i]);
    }
}

/// Evolutions with pointwise equal counts are the same.
pub(crate) proof fn lemma_evolves_count_eq<V: Word, const M: usize>(
    a: SlotModel,
    b: SlotModel,
    c1: spec_fn(nat, int) -> int,
    c2: spec_fn(nat, int) -> int,
    g: nat,
    r: WordIdx<V, M>,
)
    requires
        evolves(a, b, c1, g, r),
        forall|v: nat, i: int| #[trigger] c1(v, i) == c2(v, i),
    ensures
        evolves(a, b, c2, g, r),
{
    assert forall|v: nat, i: int| is_word_width(v) && #[trigger] kept(a, c2, v, i) implies {
        &&& b.refs.get(v)[i] == a.refs.get(v)[i] - c2(v, i)
        &&& b.vals.get(v)[i] == a.vals.get(v)[i]
    } by {
        assert(kept(a, c1, v, i));
    }
    assert forall|k: int| 0 <= k < M implies {
        let i = #[trigger] r.spec_idxs()[k] as int;
        &&& b.refs.get(V::spec_width())[i] == 1
        &&& !kept(a, c2, V::spec_width(), i)
    } by {
        let i = r.spec_idxs()[k] as int;
        assert(c1(V::spec_width(), i) == c2(V::spec_width(), i));
    }
}

/// Reference to a (composite) word held by a backend: `N` words of type `W`.
///
/// Operations consume the references they are given and return a reference to a fresh word;
/// a reference that is no longer needed is released with [WordRef::release].
pub struct WordRef<B: Backend, W: Word, const N: usize> {
    idx: WordIdx<W, N>,
    /// Marks the type of backend the reference belongs to; it carries no value.
    backend: Ghost<B>,
}

impl<B: Backend, W: Word, const N: usize> WordRef<B, W, N> {
    /// The index of the referenced word.
    pub closed spec fn spec_idx(self) -> WordIdx<W, N> {
        self.idx
    }

    /// A reference to the word at the given index.
    pub(crate) fn from_idx(idx: WordIdx<W, N>) -> (r: Self)
        ensures
            r.spec_idx() == idx,
    {
        WordRef { idx, backend: Ghost(vstd::pervasive::arbitrary()) }
    }

    /// The index of the referenced word.
    pub fn idx(&self) -> (r: WordIdx<W, N>)
        ensures
            r == self.spec_idx(),
    {
        self.idx
    }

    /// Releases this reference: the reference counts of its slots decrease by one.
    pub fn release(self, fe: &mut Frontend<B>)
        requires
            old(fe).wf(),
            live_idx(old(fe).model(), self.spec_idx()),
        ensures
            final(fe).wf(),
            final(fe).spec_backend().key() == old(fe).spec_backend().key(),
            recounts(old(fe).model(), final(fe).model(), self.spec_idx(), -1),
    {
        fe.backend.decrease_refcount(self.idx);
    }

    /// Another reference to the same word: the reference counts of its slots increase by one.
    pub fn clone(&self, fe: &mut Frontend<B>) -> (r: Self)
        requires
            old(fe).wf(),
            live_idx(old(fe).model(), self.spec_idx()),
            forall|k: int| 0 <= k < N ==> #[trigger] old(fe).model().refs.get(W::spec_width())[self.spec_idx().spec_idxs()[k] as int] < B::max_ref(),
        ensures
            final(fe).wf(),
            final(fe).spec_backend().key() == old(fe).spec_backend().key(),
            r.spec_idx() == self.spec_idx(),
            recounts(old(fe).model(), final(fe).model(), self.spec_idx(), 1),
    {
        proof {
            fe.backend.lemma_model();
            W::lemma_width();
            self.idx.lemma_len();
            assert forall|k: int| 0 <= k < N implies {
                let i = #[trigger] self.idx.spec_idxs()[k] as int;
                &&& fe.model().allocated.get(W::spec_width())[i]
                &&& fe.model().refs.get(W::spec_width())[i] < B::max_ref()
            } by {
                assert(fe.model().refs.get(W::spec_width())[self.idx.spec_idxs()[k] as int] >= 1);
            }
        }
        fe.backend.increase_refcount(self.idx);
        WordRef { idx: self.idx, backend: Ghost(self.backend@) }
    }

    /// A unary gate on this word, which stays referenced.
    pub(crate) fn unop_ref(&self, fe: &mut Frontend<B>, op: UnOp) -> (r: Self)
        requires
            old(fe).wf(),
            shape_ok::<W, N>(),
            room_all(old(fe).model(), N as nat),
            live_idx(old(fe).model(), self.spec_idx()),
        ensures
            final(fe).wf(),
            final(fe).spec_backend().key() == old(fe).spec_backend().key(),
            evolves(old(fe).model(), final(fe).model(), no_count(), N as nat, r.spec_idx()),
            B::tracks_values() ==> word_bits(final(fe).model(), r.spec_idx()) == unop_bits(op, word_bits(old(fe).model(), self.spec_idx())),
    {
        let ghost m0 = fe.model();
        let ghost e = Seq::<WordIdx<W, N>>::empty();
        proof {
            fe.backend.lemma_model();
            W::lemma_width();
        }
        let out = fe.fresh::<W, N>();
        let ghost m1 = fe.model();
        proof {
            lemma_consumable_one(m0, self.idx);
            lemma_produces_keeps(m0, m1, e, out.spec_idx(), self.idx);
            lemma_produces_live(m0, m1, e, out.spec_idx(), self.idx);
            fe.backend.lemma_model();
        }
        match op {
            UnOp::Not => fe.backend.not(self.idx, out.idx),
            UnOp::Shl(s) => fe.backend.unbounded_shl(self.idx, s, out.idx),
            UnOp::Shr(s) => fe.backend.unbounded_shr(self.idx, s, out.idx),
            UnOp::Rotl(s) => fe.backend.rotate_left(self.idx, s, out.idx),
            UnOp::Rotr(s) => fe.backend.rotate_right(self.idx, s, out.idx),
            UnOp::Rev => fe.backend.reverse_bits(self.idx, out.idx),
            UnOp::Swap => fe.backend.swap_bytes(self.idx, out.idx),
        }
        let ghost m2 = fe.model();
        proof {
            lemma_produces_write(m0, m1, m2, e, out.spec_idx());
            lemma_produces_evolves(m0, m2, e, out.spec_idx());
            lemma_evolves_count_eq(m0, m2, seq_count(e), no_count(), N as nat, out.spec_idx());
        }
        out
    }

    /// A binary gate on this word and another, which stay referenced.
    pub(crate) fn binop_ref(&self, rhs: &Self, fe: &mut Frontend<B>, op: BinOp) -> (r: Self)
        requires
            old(fe).wf(),
            shape_ok::<W, N>(),
            room_all(old(fe).model(), N as nat),
            live_idx(old(fe).model(), self.spec_idx()),
            live_idx(old(fe).model(), rhs.spec_idx()),
        ensures
            final(fe).wf(),
            final(fe).spec_backend().key() == old(fe).spec_backend().key(),
            evolves(old(fe).model(), final(fe).model(), no_count(), N as nat, r.spec_idx()),
            B::tracks_values() ==> word_bits(final(fe).model(), r.spec_idx()) == binop_bits(
                op,
                word_bits(old(fe).model(), self.spec_idx()),
                word_bits(old(fe).model(), rhs.spec_idx()),
            ),
    {
        let ghost m0 = fe.model();
        let ghost e = Seq::<WordIdx<W, N>>::empty();
        proof {
            fe.backend.lemma_model();
            W::lemma_width();
            lemma_consumable_one(m0, self.idx);
            lemma_consumable_one(m0, rhs.idx);
        }
        let out = fe.fresh::<W, N>();
        let ghost m1 = fe.model();
        proof {
            lemma_produces_keeps(m0, m1, e, out.spec_idx(), self.idx);
            lemma_produces_keeps(m0, m1, e, out.spec_idx(), rhs.idx);
            lemma_produces_live(m0, m1, e, out.spec_idx(), self.idx);
            lemma_produces_live(m0, m1, e, out.spec_idx(), rhs.idx);
            fe.backend.lemma_model();
        }
        match op {
            BinOp::Xor => fe.backend.bitxor(self.idx, rhs.idx, out.idx),
            BinOp::And => fe.backend.bitand(self.idx, rhs.idx, out.idx),
            BinOp::Carry(c) => fe.backend.carry(self.idx, rhs.idx, c, out.idx),
        }
        let ghost m2 = fe.model();
        proof {
            lemma_produces_write(m0, m1, m2, e, out.spec_idx());
            lemma_produces_evolves(m0, m2, e, out.spec_idx());
            lemma_evolves_count_eq(m0, m2, seq_count(e), no_count(), N as nat, out.spec_idx());
            lemma_shape_ok::<W, N>();
            self.idx.lemma_len();
            vstd::arithmetic::mul::lemma_mul_is_commutative(N as int, W::spec_width() as int);
        }
        out
    }

    /// A binary gate on this word, which stays referenced, and a constant.
    pub(crate) fn constop_ref(&self, c: CompositeWord<W, N>, fe: &mut Frontend<B>, op: BinOp) -> (r: Self)
        requires
            old(fe).wf(),
            shape_ok::<W, N>(),
            !(op is Carry),
            room_all(old(fe).model(), N as nat),
            live_idx(old(fe).model(), self.spec_idx()),
        ensures
            final(fe).wf(),
            final(fe).spec_backend().key() == old(fe).spec_backend().key(),
            evolves(old(fe).model(), final(fe).model(), no_count(), N as nat, r.spec_idx()),
            B::tracks_values() ==> word_bits(final(fe).model(), r.spec_idx()) == binop_bits(op, word_bits(old(fe).model(), self.spec_idx()), c.cbits()),
    {
        let ghost m0 = fe.model();
        let ghost e = Seq::<WordIdx<W, N>>::empty();
        proof {
            fe.backend.lemma_model();
            W::lemma_width();
            lemma_consumable_one(m0, self.idx);
        }
        let out = fe.fresh::<W, N>();
        let ghost m1 = fe.model();
        proof {
            lemma_produces_keeps(m0, m1, e, out.spec_idx(), self.idx);
            lemma_produces_live(m0, m1, e, out.spec_idx(), self.idx);
            fe.backend.lemma_model();
        }
        match op {
            BinOp::Xor => fe.backend.bitxor_const(self.idx, c, out.idx),
            _ => fe.backend.bitand_const(self.idx, c, out.idx),
        }
        let ghost m2 = fe.model();
        proof {
            lemma_produces_write(m0, m1, m2, e, out.spec_idx());
            lemma_produces_evolves(m0, m2, e, out.spec_idx());
            lemma_evolves_count_eq(m0, m2, seq_count(e), no_count(), N as nat, out.spec_idx());
        }
        out
    }

    /// Releases this reference, an input of a computation started in state `m0` whose result
    /// is `r` and which has dropped the references counted by `d` so far.
    fn consume<V: Word, const M: usize>(
        self,
        fe: &mut Frontend<B>,
        Ghost(m0): Ghost<SlotModel>,
        Ghost(d): Ghost<spec_fn(nat, int) -> int>,
        Ghost(g): Ghost<nat>,
        Ghost(r): Ghost<WordIdx<V, M>>,
    )
        requires
            old(fe).wf(),
            evolves(m0, old(fe).model(), d, g, r),
            live_idx(m0, self.spec_idx()),
            forall|v: nat, i: int| #[trigger] d(v, i) >= 0,
            fits(m0, add_count(d, idx_count(self.spec_idx()))),
        ensures
            final(fe).wf(),
            final(fe).spec_backend().key() == old(fe).spec_backend().key(),
            evolves(m0, final(fe).model(), add_count(d, idx_count(self.spec_idx())), g, r),
            word_bits(final(fe).model(), r) == word_bits(old(fe).model(), r),
    {
        let ghost m1 = fe.model();
        proof {
            lemma_evolves_live(m0, m1, d, g, r, self.idx);
        }
        let ghost x = self.idx;
        self.release(fe);
        proof {
            lemma_evolves_release(m0, m1, fe.model(), d, g, r, x);
        }
    }

    /// Releases this reference, a scratch word of a computation started in state `m0` whose
    /// result is `r`, holding none of its slots.
    pub(crate) fn discard<V: Word, const M: usize>(
        self,
        fe: &mut Frontend<B>,
        Ghost(m0): Ghost<SlotModel>,
        Ghost(g): Ghost<nat>,
        Ghost(r): Ghost<WordIdx<V, M>>,
    )
        requires
            old(fe).wf(),
            model_ok(m0),
            evolves(m0, old(fe).model(), no_count(), g, r),
            owned(m0, old(fe).model(), self.spec_idx()),
            apart(self.spec_idx(), r),
        ensures
            final(fe).wf(),
            final(fe).spec_backend().key() == old(fe).spec_backend().key(),
            evolves(m0, final(fe).model(), no_count(), g, r),
            word_bits(final(fe).model(), r) == word_bits(old(fe).model(), r),
            recounts(old(fe).model(), final(fe).model(), self.spec_idx(), -1),
    {
        let ghost m1 = fe.model();
        proof {
            W::lemma_width();
            self.idx.lemma_len();
            assert forall|k: int| 0 <= k < N implies #[trigger] m1.refs.get(W::spec_width())[self.idx.spec_idxs()[k] as int] >= 1 by {
                assert(m1.refs.get(W::spec_width())[self.idx.spec_idxs()[k] as int] == 1);
            }
        }
        let ghost x = self.idx;
        self.release(fe);
        proof {
            lemma_release_owned(m0, m1, fe.model(), g, r, x);
        }
    }

    /// A unary gate on this word, consumed.
    fn unop(self, fe: &mut Frontend<B>, op: UnOp) -> (r: Self)
        requires
            old(fe).wf(),
            shape_ok::<W, N>(),
            room_all(old(fe).model(), N as nat),
            live_idx(old(fe).model(), self.spec_idx()),
        ensures
            final(fe).wf(),
            final(fe).spec_backend().key() == old(fe).spec_backend().key(),
            evolves(old(fe).model(), final(fe).model(), idx_count(self.spec_idx()), N as nat, r.spec_idx()),
            B::tracks_values() ==> word_bits(final(fe).model(), r.spec_idx()) == unop_bits(op, word_bits(old(fe).model(), self.spec_idx())),
    {
        let ghost m0 = fe.model();
        proof {
            fe.backend.lemma_model();
            lemma_fits_one(m0, self.idx);
        }
        let out = self.unop_ref(fe, op);
        let ghost a = self.idx;
        self.consume::<W, N>(fe, Ghost(m0), Ghost(no_count()), Ghost(N as nat), Ghost(out.spec_idx()));
        proof {
            lemma_evolves_count_eq(m0, fe.model(), add_count(no_count(), idx_count(a)), idx_count(a), N as nat, out.spec_idx());
        }
        out
    }

    /// A binary gate on this word and another, both consumed.
    fn binop(self, rhs: Self, fe: &mut Frontend<B>, op: BinOp) -> (r: Self)
        requires
            old(fe).wf(),
            shape_ok::<W, N>(),
            room_all(old(fe).model(), N as nat),
            live_idx(old(fe).model(), self.spec_idx()),
            live_idx(old(fe).model(), rhs.spec_idx()),
            fits(old(fe).model(), add_count(idx_count(self.spec_idx()), idx_count(rhs.spec_idx()))),
        ensures
            final(fe).wf(),
            final(fe).spec_backend().key() == old(fe).spec_backend().key(),
            evolves(old(fe).model(), final(fe).model(), add_count(idx_count(self.spec_idx()), idx_count(rhs.spec_idx())), N as nat, r.spec_idx()),
            B::tracks_values() ==> word_bits(final(fe).model(), r.spec_idx()) == binop_bits(
                op,
                word_bits(old(fe).model(), self.spec_idx()),
                word_bits(old(fe).model(), rhs.spec_idx()),
            ),
    {
        let ghost m0 = fe.model();
        let ghost a = self.idx;
        let ghost b = rhs.idx;
        proof {
            fe.backend.lemma_model();
            lemma_fits_one(m0, a);
            lemma_fits_two(m0, a, b);
        }
        let out = self.binop_ref(&rhs, fe, op);
        self.consume::<W, N>(fe, Ghost(m0), Ghost(no_count()), Ghost(N as nat), Ghost(out.spec_idx()));
        rhs.consume::<W, N>(fe, Ghost(m0), Ghost(add_count(no_count(), idx_count(a))), Ghost(N as nat), Ghost(out.spec_idx()));
        proof {
            lemma_evolves_count_eq(
                m0,
                fe.model(),
                add_count(add_count(no_count(), idx_count(a)), idx_count(b)),
                add_count(idx_count(a), idx_count(b)),
                N as nat,
                out.spec_idx(),
            );
        }
        out
    }

    /// A binary gate on this word, consumed, and a constant.
    fn constop(self, c: CompositeWord<W, N>, fe: &mut Frontend<B>, op: BinOp) -> (r: Self)
        requires
            old(fe).wf(),
            shape_ok::<W, N>(),
            !(op is Carry),
            room_all(old(fe).model(), N as nat),
            live_idx(old(fe).model(), self.spec_idx()),
        ensures
            final(fe).wf(),
            final(fe).spec_backend().key() == old(fe).spec_backend().key(),
            evolves(old(fe).model(), final(fe).model(), idx_count(self.spec_idx()), N as nat, r.spec_idx()),
            B::tracks_values() ==> word_bits(final(fe).model(), r.spec_idx()) == binop_bits(op, word_bits(old(fe).model(), self.spec_idx()), c.cbits()),
    {
        let ghost m0 = fe.model();
        proof {
            fe.backend.lemma_model();
            lemma_fits_one(m0, self.idx);
        }
        let out = self.constop_ref(c, fe, op);
        let ghost a = self.idx;
        self.consume::<W, N>(fe, Ghost(m0), Ghost(no_count()), Ghost(N as nat), Ghost(out.spec_idx()));
        proof {
            lemma_evolves_count_eq(m0, fe.model(), add_count(no_count(), idx_count(a)), idx_count(a), N as nat, out.spec_idx());
        }
        out
    }

    /// Bitwise NOT.
    pub fn not(self, fe: &mut Frontend<B>) -> (r: Self)
        requires
            old(fe).wf(),
            shape_ok::<W, N>(),
            room_all(old(fe).model(), N as nat),
            live_idx(old(fe).model(), self.spec_idx()),
        ensures
            final(fe).wf(),
            final(fe).spec_backend().key() == old(fe).spec_backend().key(),
            evolves(old(fe).model(), final(fe).model(), idx_count(self.spec_idx()), N as nat, r.spec_idx()),
            B::tracks_values() ==> word_bits(final(fe).model(), r.spec_idx()) == seq_not(word_bits(old(fe).model(), self.spec_idx())),
    {
        self.unop(fe, UnOp::Not)
    }

    /// Bitwise XOR.
    pub fn bitxor(self, rhs: Self, fe: &mut Frontend<B>) -> (r: Self)
        requires
            old(fe).wf(),
            shape_ok::<W, N>(),
            room_all(old(fe).model(), N as nat),
            live_idx(old(fe).model(), self.spec_idx()),
            live_idx(old(fe).model(), rhs.spec_idx()),
            fits(old(fe).model(), add_count(idx_count(self.spec_idx()), idx_count(rhs.spec_idx()))),
        ensures
            final(fe).wf(),
            final(fe).spec_backend().key() == old(fe).spec_backend().key(),
            evolves(old(fe).model(), final(fe).model(), add_count(idx_count(self.spec_idx()), idx_count(rhs.spec_idx())), N as nat, r.spec_idx()),
            B::tracks_values() ==> word_bits(final(fe).model(), r.spec_idx()) == seq_xor(
                word_bits(old(fe).model(), self.spec_idx()),
                word_bits(old(fe).model(), rhs.spec_idx()),
            ),
    {
        self.binop(rhs, fe, BinOp::Xor)
    }

    /// Bitwise AND.
    pub fn bitand(self, rhs: Self, fe: &mut Frontend<B>) -> (r: Self)
        requires
            old(fe).wf(),
            shape_ok::<W, N>(),
            room_all(old(fe).model(), N as nat),
            live_idx(old(fe).model(), self.spec_idx()),
            live_idx(old(fe).model(), rhs.spec_idx()),
            fits(old(fe).model(), add_count(idx_count(self.spec_idx()), idx_count(rhs.spec_idx()))),
        ensures
            final(fe).wf(),
            final(fe).spec_backend().key() == old(fe).spec_backend().key(),
            evolves(old(fe).model(), final(fe).model(), add_count(idx_count(self.spec_idx()), idx_count(rhs.spec_idx())), N as nat, r.spec_idx()),
            B::tracks_values() ==> word_bits(final(fe).model(), r.spec_idx()) == seq_and(
                word_bits(old(fe).model(), self.spec_idx()),
                word_bits(old(fe).model(), rhs.spec_idx()),
            ),
    {
        self.binop(rhs, fe, BinOp::And)
    }

    /// Bitwise XOR with a constant.
    pub fn bitxor_const(self, rhs: CompositeWord<W, N>, fe: &mut Frontend<B>) -> (r: Self)
        requires
            old(fe).wf(),
            shape_ok::<W, N>(),
            room_all(old(fe).model(), N as nat),
            live_idx(old(fe).model(), self.spec_idx()),
        ensures
            final(fe).wf(),
            final(fe).spec_backend().key() == old(fe).spec_backend().key(),
            evolves(old(fe).model(), final(fe).model(), idx_count(self.spec_idx()), N as nat, r.spec_idx()),
            B::tracks_values() ==> word_bits(final(fe).model(), r.spec_idx()) == seq_xor(word_bits(old(fe).model(), self.spec_idx()), rhs.cbits()),
    {
        self.constop(rhs, fe, BinOp::Xor)
    }

    /// Bitwise AND with a constant.
    pub fn bitand_const(self, rhs: CompositeWord<W, N>, fe: &mut Frontend<B>) -> (r: Self)
        requires
            old(fe).wf(),
            shape_ok::<W, N>(),
            room_all(old(fe).model(), N as nat),
            live_idx(old(fe).model(), self.spec_idx()),
        ensures
            final(fe).wf(),
            final(fe).spec_backend().key() == old(fe).spec_backend().key(),
            evolves(old(fe).model(), final(fe).model(), idx_count(self.spec_idx()), N as nat, r.spec_idx()),
            B::tracks_values() ==> word_bits(final(fe).model(), r.spec_idx()) == seq_and(word_bits(old(fe).model(), self.spec_idx()), rhs.cbits()),
    {
        self.constop(rhs, fe, BinOp::And)
    }

    /// Left shift, shifting in zeros.
    pub fn unbounded_shl(self, shift: usize, fe: &mut Frontend<B>) -> (r: Self)
        requires
            old(fe).wf(),
            shape_ok::<W, N>(),
            room_all(old(fe).model(), N as nat),
            live_idx(old(fe).model(), self.spec_idx()),
        ensures
            final(fe).wf(),
            final(fe).spec_backend().key() == old(fe).spec_backend().key(),
            evolves(old(fe).model(), final(fe).model(), idx_count(self.spec_idx()), N as nat, r.spec_idx()),
            B::tracks_values() ==> word_bits(final(fe).model(), r.spec_idx()) == seq_shl(word_bits(old(fe).model(), self.spec_idx()), shift as int),
    {
        self.unop(fe, UnOp::Shl(shift))
    }

    /// Right shift, shifting in zeros.
    pub fn unbounded_shr(self, shift: usize, fe: &mut Frontend<B>) -> (r: Self)
        requires
            old(fe).wf(),
            shape_ok::<W, N>(),
            room_all(old(fe).model(), N as nat),
            live_idx(old(fe).model(), self.spec_idx()),
        ensures
            final(fe).wf(),
            final(fe).spec_backend().key() == old(fe).spec_backend().key(),
            evolves(old(fe).model(), final(fe).model(), idx_count(self.spec_idx()), N as nat, r.spec_idx()),
            B::tracks_values() ==> word_bits(final(fe).model(), r.spec_idx()) == seq_shr(word_bits(old(fe).model(), self.spec_idx()), shift as int),
    {
        self.unop(fe, UnOp::Shr(shift))
    }

    /// Left rotation.
    pub fn rotate_left(self, shift: usize, fe: &mut Frontend<B>) -> (r: Self)
        requires
            old(fe).wf(),
            shape_ok::<W, N>(),
            room_all(old(fe).model(), N as nat),
            live_idx(old(fe).model(), self.spec_idx()),
        ensures
            final(fe).wf(),
            final(fe).spec_backend().key() == old(fe).spec_backend().key(),
            evolves(old(fe).model(), final(fe).model(), idx_count(self.spec_idx()), N as nat, r.spec_idx()),
            B::tracks_values() ==> word_bits(final(fe).model(), r.spec_idx()) == seq_rotl(word_bits(old(fe).model(), self.spec_idx()), shift as int),
    {
        self.unop(fe, UnOp::Rotl(shift))
    }

    /// Right rotation.
    pub fn rotate_right(self, shift: usize, fe: &mut Frontend<B>) -> (r: Self)
        requires
            old(fe).wf(),
            shape_ok::<W, N>(),
            room_all(old(fe).model(), N as nat),
            live_idx(old(fe).model(), self.spec_idx()),
        ensures
            final(fe).wf(),
            final(fe).spec_backend().key() == old(fe).spec_backend().key(),
            evolves(old(fe).model(), final(fe).model(), idx_count(self.spec_idx()), N as nat, r.spec_idx()),
            B::tracks_values() ==> word_bits(final(fe).model(), r.spec_idx()) == seq_rotr(word_bits(old(fe).model(), self.spec_idx()), shift as int),
    {
        self.unop(fe, UnOp::Rotr(shift))
    }

    /// Bit reversal.
    pub fn reverse_bits(self, fe: &mut Frontend<B>) -> (r: Self)
        requires
            old(fe).wf(),
            shape_ok::<W, N>(),
            room_all(old(fe).model(), N as nat),
            live_idx(old(fe).model(), self.spec_idx()),
        ensures
            final(fe).wf(),
            final(fe).spec_backend().key() == old(fe).spec_backend().key(),
            evolves(old(fe).model(), final(fe).model(), idx_count(self.spec_idx()), N as nat, r.spec_idx()),
            B::tracks_values() ==> word_bits(final(fe).model(), r.spec_idx()) == word_bits(old(fe).model(), self.spec_idx()).reverse(),
    {
        self.unop(fe, UnOp::Rev)
    }

    /// Byte reversal.
    pub fn swap_bytes(self, fe: &mut Frontend<B>) -> (r: Self)
        requires
            old(fe).wf(),
            shape_ok::<W, N>(),
            room_all(old(fe).model(), N as nat),
            live_idx(old(fe).model(), self.spec_idx()),
        ensures
            final(fe).wf(),
            final(fe).spec_backend().key() == old(fe).spec_backend().key(),
            evolves(old(fe).model(), final(fe).model(), idx_count(self.spec_idx()), N as nat, r.spec_idx()),
            B::tracks_values() ==> word_bits(final(fe).model(), r.spec_idx()) == seq_swap_bytes(word_bits(old(fe).model(), self.spec_idx())),
    {
        self.unop(fe, UnOp::Swap)
    }

    /// The carries of the addition whose propagate bits are this word and generate bits the
    /// other, with the given carry-in, without the carry-out; both words are consumed.
    pub fn carry(self, g: Self, carry_in: bool, fe: &mut Frontend<B>) -> (r: Self)
        requires
            old(fe).wf(),
            shape_ok::<W, N>(),
            room_all(old(fe).model(), N as nat),
            live_idx(old(fe).model(), self.spec_idx()),
            live_idx(old(fe).model(), g.spec_idx()),
            fits(old(fe).model(), add_count(idx_count(self.spec_idx()), idx_count(g.spec_idx()))),
        ensures
            final(fe).wf(),
            final(fe).spec_backend().key() == old(fe).spec_backend().key(),
            evolves(old(fe).model(), final(fe).model(), add_count(idx_count(self.spec_idx()), idx_count(g.spec_idx())), N as nat, r.spec_idx()),
            B::tracks_values() ==> word_bits(final(fe).model(), r.spec_idx()) == carries(
                word_bits(old(fe).model(), self.spec_idx()),
                word_bits(old(fe).model(), g.spec_idx()),
                carry_in,
                CompositeWord::<W, N>::spec_cwidth(),
            ),
    {
        proof {
            lemma_shape_ok::<W, N>();
            W::lemma_width();
            self.idx.lemma_len();
            vstd::arithmetic::mul::lemma_mul_is_commutative(N as int, W::spec_width() as int);
        }
        self.binop(g, fe, BinOp::Carry(carry_in))
    }

    /// Ends a computation started in state `m0` whose result is `r` by releasing this input.
    fn finish1<V: Word, const M: usize>(
        self,
        fe: &mut Frontend<B>,
        Ghost(m0): Ghost<SlotModel>,
        Ghost(g): Ghost<nat>,
        Ghost(r): Ghost<WordIdx<V, M>>,
    )
        requires
            old(fe).wf(),
            model_ok(m0),
            evolves(m0, old(fe).model(), no_count(), g, r),
            live_idx(m0, self.spec_idx()),
        ensures
            final(fe).wf(),
            final(fe).spec_backend().key() == old(fe).spec_backend().key(),
            evolves(m0, final(fe).model(), idx_count(self.spec_idx()), g, r),
            word_bits(final(fe).model(), r) == word_bits(old(fe).model(), r),
    {
        proof {
            lemma_fits_one(m0, self.idx);
        }
        let ghost a = self.idx;
        self.consume::<V, M>(fe, Ghost(m0), Ghost(no_count()), Ghost(g), Ghost(r));
        proof {
            lemma_evolves_count_eq(m0, fe.model(), add_count(no_count(), idx_count(a)), idx_count(a), g, r);
        }
    }

    /// Ends a computation started in state `m0` whose result is `r` by releasing this input
    /// and another.
    fn finish2<V: Word, const M: usize>(
        self,
        rhs: Self,
        fe: &mut Frontend<B>,
        Ghost(m0): Ghost<SlotModel>,
        Ghost(g): Ghost<nat>,
        Ghost(r): Ghost<WordIdx<V, M>>,
    )
        requires
            old(fe).wf(),
            model_ok(m0),
            evolves(m0, old(fe).model(), no_count(), g, r),
            live_idx(m0, self.spec_idx()),
            live_idx(m0, rhs.spec_idx()),
            fits(m0, add_count(idx_count(self.spec_idx()), idx_count(rhs.spec_idx()))),
        ensures
            final(fe).wf(),
            final(fe).spec_backend().key() == old(fe).spec_backend().key(),
            evolves(m0, final(fe).model(), add_count(idx_count(self.spec_idx()), idx_count(rhs.spec_idx())), g, r),
            word_bits(final(fe).model(), r) == word_bits(old(fe).model(), r),
    {
        let ghost a = self.idx;
        let ghost b = rhs.idx;
        proof {
            lemma_fits_one(m0, a);
            lemma_fits_two(m0, a, b);
        }
        self.consume::<V, M>(fe, Ghost(m0), Ghost(no_count()), Ghost(g), Ghost(r));
        rhs.consume::<V, M>(fe, Ghost(m0), Ghost(add_count(no_count(), idx_count(a))), Ghost(g), Ghost(r));
        proof {
            lemma_evolves_count_eq(m0, fe.model(), add_count(add_count(no_count(), idx_count(a)), idx_count(b)), add_count(idx_count(a), idx_count(b)), g, r);
        }
    }

    /// The sum of the words whose propagate and generate bits are the (owned) words `p` and
    /// `gen`, with the given carry-in: `p` XOR the carries; `p` and `gen` are released.
    fn sum_from(p: Self, gen: Self, cin: bool, fe: &mut Frontend<B>, Ghost(m0): Ghost<SlotModel>, Ghost(g0): Ghost<nat>) -> (r: Self)
        requires
            old(fe).wf(),
            model_ok(m0),
            shape_ok::<W, N>(),
            room_all(old(fe).model(), 2 * N as nat),
            evolves(m0, old(fe).model(), no_count(), g0, gen.spec_idx()),
            owned(m0, old(fe).model(), p.spec_idx()),
            owned(m0, old(fe).model(), gen.spec_idx()),
            apart(p.spec_idx(), gen.spec_idx()),
        ensures
            final(fe).wf(),
            final(fe).spec_backend().key() == old(fe).spec_backend().key(),
            evolves(m0, final(fe).model(), no_count(), g0 + 2 * N as nat, r.spec_idx()),
            B::tracks_values() ==> word_bits(final(fe).model(), r.spec_idx()) == seq_xor(
                word_bits(old(fe).model(), p.spec_idx()),
                carries(
                    word_bits(old(fe).model(), p.spec_idx()),
                    word_bits(old(fe).model(), gen.spec_idx()),
                    cin,
                    word_bits(old(fe).model(), p.spec_idx()).len(),
                ),
            ),
    {
        let ghost m2 = fe.model();
        proof {
            fe.backend.lemma_model();
            assert(live_idx(m2, p.spec_idx())) by {
                p.idx.lemma_len();
                assert forall|k: int| 0 <= k < N implies #[trigger] m2.refs.get(W::spec_width())[p.idx.spec_idxs()[k] as int] >= 1 by {
                    assert(m2.refs.get(W::spec_width())[p.idx.spec_idxs()[k] as int] == 1);
                }
            }
            assert(live_idx(m2, gen.spec_idx())) by {
                gen.idx.lemma_len();
                assert forall|k: int| 0 <= k < N implies #[trigger] m2.refs.get(W::spec_width())[gen.idx.spec_idxs()[k] as int] >= 1 by {
                    assert(m2.refs.get(W::spec_width())[gen.idx.spec_idxs()[k] as int] == 1);
                }
            }
        }
        let c = p.binop_ref(&gen, fe, BinOp::Carry(cin));
        let ghost m3 = fe.model();
        proof {
            lemma_owned_step(m0, m2, m3, p.idx, N as nat, c.idx);
            lemma_owned_step(m0, m2, m3, gen.idx, N as nat, c.idx);
            lemma_evolves_chain(m0, m2, m3, g0, gen.idx, N as nat, c.idx);
            lemma_evolves_owned(m2, m3, N as nat, c.idx);
            lemma_evolves_owned(m0, m3, (g0 + N) as nat, c.idx);
            lemma_evolves_room(m2, m3, no_count(), N as nat, c.idx, N as nat);
            fe.backend.lemma_model();
        }
        let s = p.binop_ref(&c, fe, BinOp::Xor);
        let ghost m4 = fe.model();
        proof {
            lemma_owned_step(m0, m3, m4, p.idx, N as nat, s.idx);
            lemma_owned_step(m0, m3, m4, gen.idx, N as nat, s.idx);
            lemma_owned_step(m0, m3, m4, c.idx, N as nat, s.idx);
            lemma_evolves_chain(m0, m3, m4, (g0 + N) as nat, c.idx, N as nat, s.idx);
        }
        let ghost pi = p.idx;
        p.discard::<W, N>(fe, Ghost(m0), Ghost((g0 + 2 * N) as nat), Ghost(s.spec_idx()));
        let ghost m5 = fe.model();
        proof {
            lemma_release_keeps_owned(m0, m4, m5, pi, gen.idx);
            lemma_release_keeps_owned(m0, m4, m5, pi, c.idx);
        }
        let ghost gi = gen.idx;
        gen.discard::<W, N>(fe, Ghost(m0), Ghost((g0 + 2 * N) as nat), Ghost(s.spec_idx()));
        let ghost m6 = fe.model();
        proof {
            lemma_release_keeps_owned(m0, m5, m6, gi, c.idx);
        }
        c.discard::<W, N>(fe, Ghost(m0), Ghost((g0 + 2 * N) as nat), Ghost(s.spec_idx()));
        s
    }

    /// The sum of this word, the other and the carry-in; both words stay referenced.
    pub(crate) fn add_ref(&self, rhs: &Self, cin: bool, fe: &mut Frontend<B>) -> (r: Self)
        requires
            old(fe).wf(),
            shape_ok::<W, N>(),
            room_all(old(fe).model(), 4 * N as nat),
            live_idx(old(fe).model(), self.spec_idx()),
            live_idx(old(fe).model(), rhs.spec_idx()),
        ensures
            final(fe).wf(),
            final(fe).spec_backend().key() == old(fe).spec_backend().key(),
            evolves(old(fe).model(), final(fe).model(), no_count(), 4 * N as nat, r.spec_idx()),
            B::tracks_values() ==> word_bits(final(fe).model(), r.spec_idx()) == seq_add(
                word_bits(old(fe).model(), self.spec_idx()),
                word_bits(old(fe).model(), rhs.spec_idx()),
                cin,
            ),
    {
        let ghost m0 = fe.model();
        proof {
            fe.backend.lemma_model();
            lemma_fits_one(m0, self.idx);
            lemma_fits_one(m0, rhs.idx);
        }
        let p = self.binop_ref(rhs, fe, BinOp::Xor);
        let ghost m1 = fe.model();
        proof {
            lemma_evolves_live(m0, m1, no_count(), N as nat, p.idx, self.idx);
            lemma_evolves_live(m0, m1, no_count(), N as nat, p.idx, rhs.idx);
            lemma_evolves_owned(m0, m1, N as nat, p.idx);
            lemma_evolves_room(m0, m1, no_count(), N as nat, p.idx, 3 * N as nat);
            fe.backend.lemma_model();
        }
        let gen = self.binop_ref(rhs, fe, BinOp::And);
        let ghost m2 = fe.model();
        proof {
            lemma_owned_step(m0, m1, m2, p.idx, N as nat, gen.idx);
            lemma_evolves_chain(m0, m1, m2, N as nat, p.idx, N as nat, gen.idx);
            lemma_evolves_owned(m0, m2, 2 * N as nat, gen.idx);
            lemma_evolves_room(m1, m2, no_count(), N as nat, gen.idx, 2 * N as nat);
        }
        let s = Self::sum_from(p, gen, cin, fe, Ghost(m0), Ghost(2 * N as nat));
        s
    }

    /// The sum of this word, a constant and the carry-in; the word stays referenced.
    pub(crate) fn add_const_ref(&self, c: CompositeWord<W, N>, cin: bool, fe: &mut Frontend<B>) -> (r: Self)
        requires
            old(fe).wf(),
            shape_ok::<W, N>(),
            room_all(old(fe).model(), 4 * N as nat),
            live_idx(old(fe).model(), self.spec_idx()),
        ensures
            final(fe).wf(),
            final(fe).spec_backend().key() == old(fe).spec_backend().key(),
            evolves(old(fe).model(), final(fe).model(), no_count(), 4 * N as nat, r.spec_idx()),
            B::tracks_values() ==> word_bits(final(fe).model(), r.spec_idx()) == seq_add(word_bits(old(fe).model(), self.spec_idx()), c.cbits(), cin),
    {
        let ghost m0 = fe.model();
        proof {
            fe.backend.lemma_model();
            lemma_fits_one(m0, self.idx);
        }
        let p = self.constop_ref(c, fe, BinOp::Xor);
        let ghost m1 = fe.model();
        proof {
            lemma_evolves_live(m0, m1, no_count(), N as nat, p.idx, self.idx);
            lemma_evolves_owned(m0, m1, N as nat, p.idx);
            lemma_evolves_room(m0, m1, no_count(), N as nat, p.idx, 3 * N as nat);
            fe.backend.lemma_model();
        }
        let gen = self.constop_ref(c, fe, BinOp::And);
        let ghost m2 = fe.model();
        proof {
            lemma_owned_step(m0, m1, m2, p.idx, N as nat, gen.idx);
            lemma_evolves_chain(m0, m1, m2, N as nat, p.idx, N as nat, gen.idx);
            lemma_evolves_owned(m0, m2, 2 * N as nat, gen.idx);
            lemma_evolves_room(m1, m2, no_count(), N as nat, gen.idx, 2 * N as nat);
        }
        let s = Self::sum_from(p, gen, cin, fe, Ghost(m0), Ghost(2 * N as nat));
        s
    }

    /// Wrapping addition; both words are consumed.
    pub fn wrapping_add(self, rhs: Self, fe: &mut Frontend<B>) -> (r: Self)
        requires
            old(fe).wf(),
            shape_ok::<W, N>(),
            room_all(old(fe).model(), 4 * N as nat),
            live_idx(old(fe).model(), self.spec_idx()),
            live_idx(old(fe).model(), rhs.spec_idx()),
            fits(old(fe).model(), add_count(idx_count(self.spec_idx()), idx_count(rhs.spec_idx()))),
        ensures
            final(fe).wf(),
            final(fe).spec_backend().key() == old(fe).spec_backend().key(),
            evolves(old(fe).model(), final(fe).model(), add_count(idx_count(self.spec_idx()), idx_count(rhs.spec_idx())), 4 * N as nat, r.spec_idx()),
            B::tracks_values() ==> word_bits(final(fe).model(), r.spec_idx()) == seq_add(
                word_bits(old(fe).model(), self.spec_idx()),
                word_bits(old(fe).model(), rhs.spec_idx()),
                false,
            ),
            B::tracks_values() ==> word_val(final(fe).model(), r.spec_idx()) == (word_val(old(fe).model(), self.spec_idx())
                + word_val(old(fe).model(), rhs.spec_idx())) % pow2(CompositeWord::<W, N>::spec_cwidth()),
    {
        let ghost m0 = fe.model();
        proof {
            fe.backend.lemma_model();
        }
        let s = self.add_ref(&rhs, false, fe);
        self.finish2::<W, N>(rhs, fe, Ghost(m0), Ghost(4 * N as nat), Ghost(s.spec_idx()));
        proof {
            lemma_word_bits_len(m0, self.idx);
            lemma_word_bits_len(m0, rhs.idx);
            lemma_add_value(word_bits(m0, self.idx), word_bits(m0, rhs.idx), false);
        }
        s
    }

    /// Wrapping addition of a constant; the word is consumed.
    pub fn wrapping_add_const(self, rhs: CompositeWord<W, N>, fe: &mut Frontend<B>) -> (r: Self)
        requires
            old(fe).wf(),
            shape_ok::<W, N>(),
            room_all(old(fe).model(), 4 * N as nat),
            live_idx(old(fe).model(), self.spec_idx()),
        ensures
            final(fe).wf(),
            final(fe).spec_backend().key() == old(fe).spec_backend().key(),
            evolves(old(fe).model(), final(fe).model(), idx_count(self.spec_idx()), 4 * N as nat, r.spec_idx()),
            B::tracks_values() ==> word_bits(final(fe).model(), r.spec_idx()) == seq_add(word_bits(old(fe).model(), self.spec_idx()), rhs.cbits(), false),
            B::tracks_values() ==> word_val(final(fe).model(), r.spec_idx()) == (word_val(old(fe).model(), self.spec_idx()) + rhs.cvalue())
                % pow2(CompositeWord::<W, N>::spec_cwidth()),
    {
        let ghost m0 = fe.model();
        proof {
            fe.backend.lemma_model();
        }
        let s = self.add_const_ref(rhs, false, fe);
        self.finish1::<W, N>(fe, Ghost(m0), Ghost(4 * N as nat), Ghost(s.spec_idx()));
        proof {
            lemma_word_bits_len(m0, self.idx);
            lemma_add_value(word_bits(m0, self.idx), rhs.cbits(), false);
        }
        s
    }

    /// Wrapping subtraction; both words are consumed.
    pub fn wrapping_sub(self, rhs: Self, fe: &mut Frontend<B>) -> (r: Self)
        requires
            old(fe).wf(),
            shape_ok::<W, N>(),
            room_all(old(fe).model(), 5 * N as nat),
            live_idx(old(fe).model(), self.spec_idx()),
            live_idx(old(fe).model(), rhs.spec_idx()),
            fits(old(fe).model(), add_count(idx_count(self.spec_idx()), idx_count(rhs.spec_idx()))),
        ensures
            final(fe).wf(),
            final(fe).spec_backend().key() == old(fe).spec_backend().key(),
            evolves(old(fe).model(), final(fe).model(), add_count(idx_count(self.spec_idx()), idx_count(rhs.spec_idx())), 5 * N as nat, r.spec_idx()),
            B::tracks_values() ==> word_bits(final(fe).model(), r.spec_idx()) == seq_add(
                word_bits(old(fe).model(), self.spec_idx()),
                seq_not(word_bits(old(fe).model(), rhs.spec_idx())),
                true,
            ),
            B::tracks_values() ==> word_val(final(fe).model(), r.spec_idx()) == (word_val(old(fe).model(), self.spec_idx())
                + pow2(CompositeWord::<W, N>::spec_cwidth()) - word_val(old(fe).model(), rhs.spec_idx()))
                % (pow2(CompositeWord::<W, N>::spec_cwidth()) as int),
    {
        let ghost m0 = fe.model();
        proof {
            fe.backend.lemma_model();
            lemma_fits_one(m0, self.idx);
            lemma_fits_one(m0, rhs.idx);
        }
        let nb = rhs.unop_ref(fe, UnOp::Not);
        let ghost m1 = fe.model();
        proof {
            lemma_evolves_live(m0, m1, no_count(), N as nat, nb.idx, self.idx);
            lemma_evolves_live(m0, m1, no_count(), N as nat, nb.idx, rhs.idx);
            lemma_evolves_owned(m0, m1, N as nat, nb.idx);
            lemma_evolves_room(m0, m1, no_count(), N as nat, nb.idx, 4 * N as nat);
            fe.backend.lemma_model();
        }
        let s = self.add_ref(&nb, true, fe);
        let ghost m2 = fe.model();
        proof {
            lemma_owned_step(m0, m1, m2, nb.idx, 4 * N as nat, s.idx);
            lemma_evolves_chain(m0, m1, m2, N as nat, nb.idx, 4 * N as nat, s.idx);
        }
        nb.discard::<W, N>(fe, Ghost(m0), Ghost(5 * N as nat), Ghost(s.spec_idx()));
        self.finish2::<W, N>(rhs, fe, Ghost(m0), Ghost(5 * N as nat), Ghost(s.spec_idx()));
        proof {
            let a = word_bits(m0, self.idx);
            let b = word_bits(m0, rhs.idx);
            lemma_word_bits_len(m0, self.idx);
            lemma_word_bits_len(m0, rhs.idx);
            lemma_add_value(a, seq_not(b), true);
            lemma_bits_val_not(b);
        }
        s
    }

    /// Wrapping subtraction of a constant; the word is consumed.
    pub fn wrapping_sub_const(self, rhs: CompositeWord<W, N>, fe: &mut Frontend<B>) -> (r: Self)
        requires
            old(fe).wf(),
            shape_ok::<W, N>(),
            room_all(old(fe).model(), 4 * N as nat),
            live_idx(old(fe).model(), self.spec_idx()),
        ensures
            final(fe).wf(),
            final(fe).spec_backend().key() == old(fe).spec_backend().key(),
            evolves(old(fe).model(), final(fe).model(), idx_count(self.spec_idx()), 4 * N as nat, r.spec_idx()),
            B::tracks_values() ==> word_bits(final(fe).model(), r.spec_idx()) == seq_add(word_bits(old(fe).model(), self.spec_idx()), seq_not(rhs.cbits()), true),
            B::tracks_values() ==> word_val(final(fe).model(), r.spec_idx()) == (word_val(old(fe).model(), self.spec_idx())
                + pow2(CompositeWord::<W, N>::spec_cwidth()) - rhs.cvalue()) % (pow2(CompositeWord::<W, N>::spec_cwidth()) as int),
    {
        let ghost m0 = fe.model();
        proof {
            fe.backend.lemma_model();
        }
        let nc = rhs.not();
        let s = self.add_const_ref(nc, true, fe);
        self.finish1::<W, N>(fe, Ghost(m0), Ghost(4 * N as nat), Ghost(s.spec_idx()));
        proof {
            lemma_word_bits_len(m0, self.idx);
            lemma_add_value(word_bits(m0, self.idx), nc.cbits(), true);
            lemma_bits_val_not(rhs.cbits());
        }
        s
    }

    /// Two's complement negation; the word is consumed.
    pub fn wrapping_neg(self, fe: &mut Frontend<B>) -> (r: Self)
        requires
            old(fe).wf(),
            shape_ok::<W, N>(),
            room_all(old(fe).model(), 5 * N as nat),
            live_idx(old(fe).model(), self.spec_idx()),
        ensures
            final(fe).wf(),
            final(fe).spec_backend().key() == old(fe).spec_backend().key(),
            evolves(old(fe).model(), final(fe).model(), idx_count(self.spec_idx()), 5 * N as nat, r.spec_idx()),
            B::tracks_values() ==> word_bits(final(fe).model(), r.spec_idx()) == seq_add(
                seq_not(word_bits(old(fe).model(), self.spec_idx())),
                seq_zeros(CompositeWord::<W, N>::spec_cwidth()),
                true,
            ),
            B::tracks_values() ==> word_val(final(fe).model(), r.spec_idx()) == (pow2(CompositeWord::<W, N>::spec_cwidth())
                - word_val(old(fe).model(), self.spec_idx())) % (pow2(CompositeWord::<W, N>::spec_cwidth()) as int),
    {
        let ghost m0 = fe.model();
        proof {
            fe.backend.lemma_model();
            lemma_fits_one(m0, self.idx);
        }
        let na = self.unop_ref(fe, UnOp::Not);
        let ghost m1 = fe.model();
        proof {
            lemma_evolves_live(m0, m1, no_count(), N as nat, na.idx, self.idx);
            lemma_evolves_owned(m0, m1, N as nat, na.idx);
            lemma_evolves_room(m0, m1, no_count(), N as nat, na.idx, 4 * N as nat);
            fe.backend.lemma_model();
        }
        let z = CompositeWord::<W, N>::zero();
        let s = na.add_const_ref(z, true, fe);
        let ghost m2 = fe.model();
        proof {
            lemma_owned_step(m0, m1, m2, na.idx, 4 * N as nat, s.idx);
            lemma_evolves_chain(m0, m1, m2, N as nat, na.idx, 4 * N as nat, s.idx);
        }
        na.discard::<W, N>(fe, Ghost(m0), Ghost(5 * N as nat), Ghost(s.spec_idx()));
        self.finish1::<W, N>(fe, Ghost(m0), Ghost(5 * N as nat), Ghost(s.spec_idx()));
        proof {
            let a = word_bits(m0, self.idx);
            lemma_word_bits_len(m0, self.idx);
            lemma_add_value(seq_not(a), z.cbits(), true);
            lemma_bits_val_not(a);
            lemma_bits_val_zeros(CompositeWord::<W, N>::spec_cwidth());
        }
        s
    }

    /// Bitwise OR, as the complement of the AND of the complements; both words are consumed.
    pub fn bitor(self, rhs: Self, fe: &mut Frontend<B>) -> (r: Self)
        requires
            old(fe).wf(),
            shape_ok::<W, N>(),
            room_all(old(fe).model(), 4 * N as nat),
            live_idx(old(fe).model(), self.spec_idx()),
            live_idx(old(fe).model(), rhs.spec_idx()),
            fits(old(fe).model(), add_count(idx_count(self.spec_idx()), idx_count(rhs.spec_idx()))),
        ensures
            final(fe).wf(),
            final(fe).spec_backend().key() == old(fe).spec_backend().key(),
            evolves(old(fe).model(), final(fe).model(), add_count(idx_count(self.spec_idx()), idx_count(rhs.spec_idx())), 4 * N as nat, r.spec_idx()),
            B::tracks_values() ==> word_bits(final(fe).model(), r.spec_idx()) == seq_or(
                word_bits(old(fe).model(), self.spec_idx()),
                word_bits(old(fe).model(), rhs.spec_idx()),
            ),
    {
        let ghost m0 = fe.model();
        proof {
            fe.backend.lemma_model();
            lemma_fits_one(m0, self.idx);
            lemma_fits_one(m0, rhs.idx);
        }
        let na = self.unop_ref(fe, UnOp::Not);
        let ghost m1 = fe.model();
        proof {
            lemma_evolves_live(m0, m1, no_count(), N as nat, na.idx, rhs.idx);
            lemma_evolves_owned(m0, m1, N as nat, na.idx);
            lemma_evolves_room(m0, m1, no_count(), N as nat, na.idx, 3 * N as nat);
            fe.backend.lemma_model();
        }
        let nb = rhs.unop_ref(fe, UnOp::Not);
        let ghost m2 = fe.model();
        proof {
            lemma_owned_step(m0, m1, m2, na.idx, N as nat, nb.idx);
            lemma_evolves_chain(m0, m1, m2, N as nat, na.idx, N as nat, nb.idx);
            lemma_evolves_owned(m0, m2, 2 * N as nat, nb.idx);
            lemma_evolves_room(m1, m2, no_count(), N as nat, nb.idx, 2 * N as nat);
            fe.backend.lemma_model();
        }
        let t = na.binop_ref(&nb, fe, BinOp::And);
        let ghost m3 = fe.model();
        proof {
            lemma_owned_step(m0, m2, m3, na.idx, N as nat, t.idx);
            lemma_owned_step(m0, m2, m3, nb.idx, N as nat, t.idx);
            lemma_evolves_chain(m0, m2, m3, 2 * N as nat, nb.idx, N as nat, t.idx);
            lemma_evolves_owned(m0, m3, 3 * N as nat, t.idx);
            lemma_evolves_room(m2, m3, no_count(), N as nat, t.idx, N as nat);
            fe.backend.lemma_model();
        }
        let o = t.unop_ref(fe, UnOp::Not);
        let ghost m4 = fe.model();
        proof {
            lemma_owned_step(m0, m3, m4, na.idx, N as nat, o.idx);
            lemma_owned_step(m0, m3, m4, nb.idx, N as nat, o.idx);
            lemma_owned_step(m0, m3, m4, t.idx, N as nat, o.idx);
            lemma_evolves_chain(m0, m3, m4, 3 * N as nat, t.idx, N as nat, o.idx);
        }
        let ghost ia = na.idx;
        na.discard::<W, N>(fe, Ghost(m0), Ghost(4 * N as nat), Ghost(o.spec_idx()));
        let ghost m5 = fe.model();
        proof {
            lemma_release_keeps_owned(m0, m4, m5, ia, nb.idx);
            lemma_release_keeps_owned(m0, m4, m5, ia, t.idx);
        }
        let ghost ib = nb.idx;
        nb.discard::<W, N>(fe, Ghost(m0), Ghost(4 * N as nat), Ghost(o.spec_idx()));
        let ghost m6 = fe.model();
        proof {
            lemma_release_keeps_owned(m0, m5, m6, ib, t.idx);
        }
        t.discard::<W, N>(fe, Ghost(m0), Ghost(4 * N as nat), Ghost(o.spec_idx()));
        self.finish2::<W, N>(rhs, fe, Ghost(m0), Ghost(4 * N as nat), Ghost(o.spec_idx()));
        proof {
            let a = word_bits(m0, self.idx);
            let b = word_bits(m0, rhs.idx);
            lemma_word_bits_len(m0, self.idx);
            lemma_word_bits_len(m0, rhs.idx);
            assert(seq_not(seq_and(seq_not(a), seq_not(b))) =~= seq_or(a, b));
        }
        o
    }

    /// Bitwise OR with a constant; the word is consumed.
    pub fn bitor_const(self, rhs: CompositeWord<W, N>, fe: &mut Frontend<B>) -> (r: Self)
        requires
            old(fe).wf(),
            shape_ok::<W, N>(),
            room_all(old(fe).model(), 3 * N as nat),
            live_idx(old(fe).model(), self.spec_idx()),
        ensures
            final(fe).wf(),
            final(fe).spec_backend().key() == old(fe).spec_backend().key(),
            evolves(old(fe).model(), final(fe).model(), idx_count(self.spec_idx()), 3 * N as nat, r.spec_idx()),
            B::tracks_values() ==> word_bits(final(fe).model(), r.spec_idx()) == seq_or(word_bits(old(fe).model(), self.spec_idx()), rhs.cbits()),
    {
        let ghost m0 = fe.model();
        proof {
            fe.backend.lemma_model();
            lemma_fits_one(m0, self.idx);
        }
        let na = self.unop_ref(fe, UnOp::Not);
        let ghost m1 = fe.model();
        proof {
            lemma_evolves_owned(m0, m1, N as nat, na.idx);
            lemma_evolves_room(m0, m1, no_count(), N as nat, na.idx, 2 * N as nat);
            fe.backend.lemma_model();
        }
        let nc = rhs.not();
        let t = na.constop_ref(nc, fe, BinOp::And);
        let ghost m2 = fe.model();
        proof {
            lemma_owned_step(m0, m1, m2, na.idx, N as nat, t.idx);
            lemma_evolves_chain(m0, m1, m2, N as nat, na.idx, N as nat, t.idx);
            lemma_evolves_owned(m0, m2, 2 * N as nat, t.idx);
            lemma_evolves_room(m1, m2, no_count(), N as nat, t.idx, N as nat);
            fe.backend.lemma_model();
        }
        let o = t.unop_ref(fe, UnOp::Not);
        let ghost m3 = fe.model();
        proof {
            lemma_owned_step(m0, m2, m3, na.idx, N as nat, o.idx);
            lemma_owned_step(m0, m2, m3, t.idx, N as nat, o.idx);
            lemma_evolves_chain(m0, m2, m3, 2 * N as nat, t.idx, N as nat, o.idx);
        }
        let ghost ia = na.idx;
        na.discard::<W, N>(fe, Ghost(m0), Ghost(3 * N as nat), Ghost(o.spec_idx()));
        let ghost m4 = fe.model();
        proof {
            lemma_release_keeps_owned(m0, m3, m4, ia, t.idx);
        }
        t.discard::<W, N>(fe, Ghost(m0), Ghost(3 * N as nat), Ghost(o.spec_idx()));
        self.finish1::<W, N>(fe, Ghost(m0), Ghost(3 * N as nat), Ghost(o.spec_idx()));
        proof {
            let a = word_bits(m0, self.idx);
            lemma_word_bits_len(m0, self.idx);
            lemma_shape_ok::<W, N>();
            assert(seq_not(seq_and(seq_not(a), seq_not(rhs.cbits()))) =~= seq_or(a, rhs.cbits()));
        }
        o
    }
}

} // verus!
