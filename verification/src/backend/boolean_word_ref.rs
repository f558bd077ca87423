//! References to `u8` words holding a boolean.
use crate::backend::backend::{live_idx, word_bits, Backend, SlotModel};
use crate::backend::frontend::{add_count, evolves, fits, idx_count, room_all, Frontend};
use crate::backend::mul_gadgets::grows_by;
use crate::backend::word_ref::WordRef;
use crate::word::bitseq::{seq_and, seq_xor};
use crate::word::composite::CompositeWord;
use crate::word::word::Word;
use crate::word::word_idx::WordIdx;
use vstd::prelude::*;

verus! {

/// The bits of a `u8` word holding a boolean: its lowest bit is the boolean, the others are
/// clear, so that the word is 1 for true and 0 for false.
pub open spec fn bool_bits(b: bool) -> Seq<bool> {
    Seq::new(8, |k: int| k == 0 && b)
}

/// The constant one has the bits of true.
pub proof fn lemma_one_bits(one: CompositeWord<u8, 1>)
    requires
        one.cbits()[0],
        forall|k: int| 0 < k < CompositeWord::<u8, 1>::spec_cwidth() ==> !#[trigger] one.cbits()[k],
    ensures
        one.cbits() == bool_bits(true),
{
    u8::lemma_width();
    assert(one.cbits() =~= bool_bits(true));
}

/// The result of an evolution is live.
pub proof fn lemma_result_live<V: Word, const M: usize>(a: SlotModel, b: SlotModel, cnt: spec_fn(nat, int) -> int, g: nat, r: WordIdx<V, M>)
    requires
        evolves(a, b, cnt, g, r),
    ensures
        live_idx(b, r),
{
    V::lemma_width();
    r.lemma_len();
    assert forall|k: int| 0 <= k < M implies #[trigger] b.refs.get(V::spec_width())[r.spec_idxs()[k] as int] >= 1 by {
        assert(b.refs.get(V::spec_width())[r.spec_idxs()[k] as int] == 1);
    }
}

/// Reference to a `u8` word holding a boolean: 1 for true, 0 for false.
pub struct BooleanWordRef<B: Backend> {
    inner: WordRef<B, u8, 1>,
}

impl<B: Backend> BooleanWordRef<B> {
    /// The reference to the word.
    pub closed spec fn spec_ref(self) -> WordRef<B, u8, 1> {
        self.inner
    }

    /// The index of the word.
    pub open spec fn spec_idx(self) -> WordIdx<u8, 1> {
        self.spec_ref().spec_idx()
    }

    /// The boolean the word holds in state `m`: its lowest bit.
    pub open spec fn value(self, m: SlotModel) -> bool {
        word_bits(m, self.spec_idx())[0]
    }

    /// The word is referenced in state `m` and, where values are tracked, holds a boolean.
    pub open spec fn holds(self, m: SlotModel) -> bool {
        &&& live_idx(m, self.spec_idx())
        &&& B::tracks_values() ==> word_bits(m, self.spec_idx()) == bool_bits(self.value(m))
    }

    /// Wraps a reference to a word that holds a boolean.
    pub(crate) fn new(inner: WordRef<B, u8, 1>) -> (r: Self)
        ensures
            r.spec_ref() == inner,
    {
        BooleanWordRef { inner }
    }

    /// The reference to the word.
    pub fn into(self) -> (r: WordRef<B, u8, 1>)
        ensures
            r == self.spec_ref(),
    {
        self.inner
    }

    /// Logical negation, computed as the XOR of the word with one; this boolean is consumed.
    pub fn not(self, fe: &mut Frontend<B>) -> (r: Self)
        requires
            old(fe).wf(),
            self.holds(old(fe).model()),
            room_all(old(fe).model(), 1),
        ensures
            final(fe).wf(),
            final(fe).spec_backend().key() == old(fe).spec_backend().key(),
            evolves(old(fe).model(), final(fe).model(), idx_count(self.spec_idx()), 1, r.spec_idx()),
            r.holds(final(fe).model()),
            B::tracks_values() ==> r.value(final(fe).model()) == !self.value(old(fe).model()),
            grows_by(old(fe).model(), final(fe).model(), 1),
    {
        let ghost m0 = fe.model();
        let one = CompositeWord::<u8, 1>::one();
        proof {
            lemma_one_bits(one);
            u8::lemma_width();
        }
        let w = self.inner.bitxor_const(one, fe);
        proof {
            lemma_result_live(m0, fe.model(), idx_count(self.spec_idx()), 1, w.spec_idx());
            if B::tracks_values() {
                let b = self.value(m0);
                assert(seq_xor(bool_bits(b), bool_bits(true)) =~= bool_bits(!b));
                assert(word_bits(fe.model(), w.spec_idx()) == bool_bits(!b));
            }
        }
        BooleanWordRef { inner: w }
    }

    /// Logical AND, computed as the AND of the words; both booleans are consumed.
    pub fn bitand(self, rhs: Self, fe: &mut Frontend<B>) -> (r: Self)
        requires
            old(fe).wf(),
            self.holds(old(fe).model()),
            rhs.holds(old(fe).model()),
            room_all(old(fe).model(), 1),
            fits(old(fe).model(), add_count(idx_count(self.spec_idx()), idx_count(rhs.spec_idx()))),
        ensures
            final(fe).wf(),
            final(fe).spec_backend().key() == old(fe).spec_backend().key(),
            evolves(old(fe).model(), final(fe).model(), add_count(idx_count(self.spec_idx()), idx_count(rhs.spec_idx())), 1, r.spec_idx()),
            r.holds(final(fe).model()),
            B::tracks_values() ==> r.value(final(fe).model()) == (self.value(old(fe).model()) && rhs.value(old(fe).model())),
    {
        let ghost m0 = fe.model();
        proof {
            u8::lemma_width();
        }
        let w = self.inner.bitand(rhs.inner, fe);
        proof {
            lemma_result_live(m0, fe.model(), add_count(idx_count(self.spec_idx()), idx_count(rhs.spec_idx())), 1, w.spec_idx());
            if B::tracks_values() {
                let a = self.value(m0);
                let b = rhs.value(m0);
                assert(seq_and(bool_bits(a), bool_bits(b)) =~= bool_bits(a && b));
                assert(word_bits(fe.model(), w.spec_idx()) == bool_bits(a && b));
            }
        }
        BooleanWordRef { inner: w }
    }
}

impl<B: Backend> WordRef<B, u8, 1> {
    /// The lowest bit of this byte, as a boolean: the AND of the byte with one; the byte is
    /// consumed.
    pub(crate) fn low_bit(self, fe: &mut Frontend<B>) -> (r: BooleanWordRef<B>)
        requires
            old(fe).wf(),
            live_idx(old(fe).model(), self.spec_idx()),
            room_all(old(fe).model(), 1),
        ensures
            final(fe).wf(),
            final(fe).spec_backend().key() == old(fe).spec_backend().key(),
            evolves(old(fe).model(), final(fe).model(), idx_count(self.spec_idx()), 1, r.spec_idx()),
            r.holds(final(fe).model()),
            B::tracks_values() ==> r.value(final(fe).model()) == word_bits(old(fe).model(), self.spec_idx())[0],
            grows_by(old(fe).model(), final(fe).model(), 1),
    {
        let ghost m0 = fe.model();
        let one = CompositeWord::<u8, 1>::one();
        proof {
            lemma_one_bits(one);
            u8::lemma_width();
        }
        let ghost x = self.spec_idx();
        let w = self.bitand_const(one, fe);
        proof {
            lemma_result_live(m0, fe.model(), idx_count(x), 1, w.spec_idx());
            if B::tracks_values() {
                let s = word_bits(m0, x);
                crate::backend::backend::lemma_word_bits_len(m0, x);
                assert(seq_and(s, bool_bits(true)) =~= bool_bits(s[0]));
                assert(word_bits(fe.model(), w.spec_idx()) == bool_bits(s[0]));
            }
        }
        BooleanWordRef { inner: w }
    }
}

} // verus!
