//! Frontends: the public face of a backend, handing out references to the words it holds.
use crate::backend::backend::{
    allocates, live_idx, model_ok, recounts, shape_ok, unreferenced, uses, valid_idx, word_bits, writes_only, Backend, SlotModel,
};
use crate::backend::word_ref::WordRef;
use crate::word::by_word_type::is_word_width;
use crate::word::collectors::word_vals;
use crate::word::composite::{CompositeWord, WordLike};
use crate::word::slots::slot_bits;
use crate::word::word::Word;
use crate::word::word_idx::WordIdx;
use vstd::prelude::*;

verus! {

/// The number of the given indices that hold slot `i` of the words of width `v`.
pub open spec fn count_uses<W: Word, const N: usize>(ins: Seq<WordIdx<W, N>>, v: nat, i: int) -> int
    decreases ins.len(),
{
    if ins.len() == 0 {
        0
    } else {
        count_uses(ins.drop_last(), v, i) + if uses(ins.last(), v, i) {
            1int
        } else {
            0
        }
    }
}

/// Slot counts of indices are nonnegative.
pub proof fn lemma_count_nonneg<W: Word, const N: usize>(ins: Seq<WordIdx<W, N>>, v: nat, i: int)
    ensures
        count_uses(ins, v, i) >= 0,
    decreases ins.len(),
{
    if ins.len() > 0 {
        lemma_count_nonneg(ins.drop_last(), v, i);
    }
}

/// The given indices can all be consumed: each is live, and each slot is referenced at least
/// as many times as the indices hold it.
pub open spec fn consumable<W: Word, const N: usize>(m: SlotModel, ins: Seq<WordIdx<W, N>>) -> bool {
    &&& forall|k: int| 0 <= k < ins.len() ==> live_idx(m, #[trigger] ins[k])
    &&& forall|i: int| 0 <= i < m.refs.get(W::spec_width()).len() ==> count_uses(ins, W::spec_width(), i) <= #[trigger] m.refs.get(W::spec_width())[i]
}

/// There is room to allocate `M` more words of type `V`.
pub open spec fn room<V: Word, const M: usize>(m: SlotModel) -> bool {
    m.allocated.get(V::spec_width()).len() + M < usize::MAX
}

/// The state went from `a` to `b` by an operation that consumed the references `ins` and
/// produced the reference `r` to fresh slots: the slots of `r` were free and are now referenced
/// once, the other slots lost one reference for each consumed index holding them and kept
/// their values, and at most `M` allocation flags were added.
pub open spec fn produces<W: Word, const N: usize, V: Word, const M: usize>(
    a: SlotModel,
    b: SlotModel,
    ins: Seq<WordIdx<W, N>>,
    r: WordIdx<V, M>,
) -> bool {
    &&& valid_idx(b, r)
    &&& forall|k: int| 0 <= k < M ==> {
        let i = #[trigger] r.spec_idxs()[k] as int;
        &&& b.refs.get(V::spec_width())[i] == 1
        &&& (i < a.refs.get(V::spec_width()).len() ==> a.refs.get(V::spec_width())[i] == 0)
    }
    &&& b.outputs == a.outputs
    &&& forall|v: nat|
        #![trigger b.refs.get(v)]
        #![trigger b.vals.get(v)]
        #![trigger b.allocated.get(v)]
        is_word_width(v) ==> {
            &&& a.refs.get(v).len() <= b.refs.get(v).len()
            &&& a.vals.get(v).len() <= b.vals.get(v).len()
            &&& b.allocated.get(v).len() <= a.allocated.get(v).len() + M
        }
    &&& forall|v: nat, i: int| is_word_width(v) && 0 <= i < a.refs.get(v).len() && !uses(r, v, i)
        ==> #[trigger] b.refs.get(v)[i] == a.refs.get(v)[i] - count_uses(ins, v, i)
    &&& forall|v: nat, i: int| is_word_width(v) && 0 <= i < a.vals.get(v).len() && !uses(r, v, i)
        ==> #[trigger] b.vals.get(v)[i] == a.vals.get(v)[i]
}

/// Words whose slots keep their values keep their bits.
pub proof fn lemma_word_bits_frame<W: Word, const N: usize>(a: SlotModel, b: SlotModel, idx: WordIdx<W, N>)
    requires
        forall|k: int| 0 <= k < N ==> #[trigger] b.vals.get(W::spec_width())[idx.spec_idxs()[k] as int]
            == a.vals.get(W::spec_width())[idx.spec_idxs()[k] as int],
    ensures
        word_bits(b, idx) == word_bits(a, idx),
{
    let w = W::spec_width();
    W::lemma_width();
    idx.lemma_len();
    assert forall|j: int| 0 <= j < word_bits(a, idx).len() implies #[trigger] word_bits(b, idx)[j] == word_bits(a, idx)[j] by {
        assert(0 <= j / (w as int) < N) by (nonlinear_arith)
            requires
                0 <= j < N * w,
                w > 0,
        ;
    }
    assert(word_bits(b, idx) =~= word_bits(a, idx));
}

/// A live index holds no slot of an index to slots that were free.
pub proof fn lemma_live_fresh<W: Word, const N: usize, V: Word, const M: usize>(
    a: SlotModel,
    x: WordIdx<W, N>,
    r: WordIdx<V, M>,
    i: int,
)
    requires
        live_idx(a, x),
        forall|k: int| 0 <= k < M ==> {
            let j = #[trigger] r.spec_idxs()[k] as int;
            j < a.refs.get(V::spec_width()).len() ==> a.refs.get(V::spec_width())[j] == 0
        },
        uses(x, W::spec_width(), i),
    ensures
        !uses(r, W::spec_width(), i),
{
    if uses(r, W::spec_width(), i) {
        let k = choose|k: int| 0 <= k < r.spec_idxs().len() && r.spec_idxs()[k] == i as usize;
        let t = choose|t: int| 0 <= t < x.spec_idxs().len() && x.spec_idxs()[t] == i as usize;
        r.lemma_len();
        x.lemma_len();
        assert(a.refs.get(W::spec_width())[x.spec_idxs()[t] as int] >= 1);
    }
}

/// The words of a live index keep their values through an operation producing fresh slots.
pub proof fn lemma_produces_keeps<W: Word, const N: usize, V: Word, const M: usize, U: Word, const L: usize>(
    a: SlotModel,
    b: SlotModel,
    ins: Seq<WordIdx<W, N>>,
    r: WordIdx<V, M>,
    x: WordIdx<U, L>,
)
    requires
        produces(a, b, ins, r),
        live_idx(a, x),
        model_ok(a),
    ensures
        word_bits(b, x) == word_bits(a, x),
        forall|k: int| 0 <= k < L ==> #[trigger] b.vals.get(U::spec_width())[x.spec_idxs()[k] as int]
            == a.vals.get(U::spec_width())[x.spec_idxs()[k] as int],
{
    U::lemma_width();
    x.lemma_len();
    assert forall|k: int| 0 <= k < L implies #[trigger] b.vals.get(U::spec_width())[x.spec_idxs()[k] as int]
        == a.vals.get(U::spec_width())[x.spec_idxs()[k] as int] by {
        let i = x.spec_idxs()[k] as int;
        assert(uses(x, U::spec_width(), i)) by {
            assert(x.spec_idxs()[k] == i as usize);
        }
        lemma_live_fresh(a, x, r, i);
        assert(a.vals.get(U::spec_width()).len() == a.refs.get(U::spec_width()).len());
    }
    lemma_word_bits_frame(a, b, x);
}

/// An index live before an operation producing fresh slots, that still has a reference once
/// the consumed indices and itself are counted, is live after it.
pub proof fn lemma_produces_live<W: Word, const N: usize, V: Word, const M: usize>(
    a: SlotModel,
    b: SlotModel,
    ins: Seq<WordIdx<W, N>>,
    r: WordIdx<V, M>,
    x: WordIdx<W, N>,
)
    requires
        produces(a, b, ins, r),
        live_idx(a, x),
        forall|i: int| 0 <= i < a.refs.get(W::spec_width()).len() ==> count_uses(ins.push(x), W::spec_width(), i)
            <= #[trigger] a.refs.get(W::spec_width())[i],
    ensures
        live_idx(b, x),
{
    W::lemma_width();
    x.lemma_len();
    assert(ins.push(x).drop_last() =~= ins);
    assert(b.refs.get(W::spec_width()).len() >= a.refs.get(W::spec_width()).len());
    assert forall|k: int| 0 <= k < N implies #[trigger] b.refs.get(W::spec_width())[x.spec_idxs()[k] as int] >= 1 by {
        let i = x.spec_idxs()[k] as int;
        assert(uses(x, W::spec_width(), i)) by {
            assert(x.spec_idxs()[k] == i as usize);
        }
        lemma_live_fresh(a, x, r, i);
        assert(count_uses(ins.push(x), W::spec_width(), i) == count_uses(ins, W::spec_width(), i) + 1);
    }
}

/// A live index can be consumed once.
pub proof fn lemma_consumable_one<W: Word, const N: usize>(m: SlotModel, x: WordIdx<W, N>)
    requires
        live_idx(m, x),
        model_ok(m),
    ensures
        forall|i: int| 0 <= i < m.refs.get(W::spec_width()).len() ==> count_uses(Seq::<WordIdx<W, N>>::empty().push(x), W::spec_width(), i)
            <= #[trigger] m.refs.get(W::spec_width())[i],
        consumable(m, seq![x]),
{
    x.lemma_len();
    assert(Seq::<WordIdx<W, N>>::empty().push(x).drop_last() =~= Seq::<WordIdx<W, N>>::empty());
    assert(Seq::<WordIdx<W, N>>::empty().push(x) =~= seq![x]);
    assert forall|i: int| #[trigger] count_uses(Seq::<WordIdx<W, N>>::empty().push(x), W::spec_width(), i)
        == if uses(x, W::spec_width(), i) { 1int } else { 0int } by {
        assert(Seq::<WordIdx<W, N>>::empty().push(x).last() == x);
        assert(count_uses(Seq::<WordIdx<W, N>>::empty(), W::spec_width(), i) == 0);
    }
    assert forall|i: int| 0 <= i < m.refs.get(W::spec_width()).len() implies count_uses(Seq::<WordIdx<W, N>>::empty().push(x), W::spec_width(), i)
        <= #[trigger] m.refs.get(W::spec_width())[i] by {
        W::lemma_width();
        assert(m.refs.get(W::spec_width()).len() <= m.allocated.get(W::spec_width()).len());
        if uses(x, W::spec_width(), i) {
            let t = choose|t: int| 0 <= t < x.spec_idxs().len() && x.spec_idxs()[t] == i as usize;
            assert(x.spec_idxs()[t] as int == i);
            assert(m.refs.get(W::spec_width())[x.spec_idxs()[t] as int] >= 1);
        }
    }
}

/// Writing the produced slots keeps the production.
pub proof fn lemma_produces_write<W: Word, const N: usize, V: Word, const M: usize>(
    a: SlotModel,
    b: SlotModel,
    c: SlotModel,
    ins: Seq<WordIdx<W, N>>,
    r: WordIdx<V, M>,
)
    requires
        produces(a, b, ins, r),
        writes_only(b, c, r),
    ensures
        produces(a, c, ins, r),
{
    V::lemma_width();
    assert forall|v: nat, i: int| is_word_width(v) && 0 <= i < a.vals.get(v).len() && !uses(r, v, i)
        implies #[trigger] c.vals.get(v)[i] == a.vals.get(v)[i] by {
        assert(c.refs.get(v) == b.refs.get(v));
        assert(i < b.vals.get(v).len());
    }
    assert forall|v: nat| is_word_width(v) implies {
        &&& a.refs.get(v).len() <= #[trigger] c.refs.get(v).len()
        &&& a.vals.get(v).len() <= c.vals.get(v).len()
        &&& c.allocated.get(v).len() <= a.allocated.get(v).len() + M
    } by {
        assert(c.refs.get(v) == b.refs.get(v));
    }
    assert(c.refs.get(V::spec_width()) == b.refs.get(V::spec_width()));
}

/// Releasing a consumed index extends the production.
pub proof fn lemma_produces_release<W: Word, const N: usize, V: Word, const M: usize>(
    a: SlotModel,
    b: SlotModel,
    c: SlotModel,
    ins: Seq<WordIdx<W, N>>,
    r: WordIdx<V, M>,
    x: WordIdx<W, N>,
)
    requires
        produces(a, b, ins, r),
        recounts(b, c, x, -1),
        live_idx(a, x),
    ensures
        produces(a, c, ins.push(x), r),
{
    W::lemma_width();
    V::lemma_width();
    r.lemma_len();
    assert(ins.push(x).drop_last() =~= ins);
    assert forall|v: nat, i: int| is_word_width(v) && 0 <= i < a.refs.get(v).len() && !uses(r, v, i)
        implies #[trigger] c.refs.get(v)[i] == a.refs.get(v)[i] - count_uses(ins.push(x), v, i) by {
        assert(i < b.refs.get(v).len());
        if v == W::spec_width() {
            assert(c.refs.get(v)[i] == b.refs.get(v)[i] + if uses(x, W::spec_width(), i) { -1int } else { 0 });
        } else {
            assert(c.refs.get(v) == b.refs.get(v));
        }
    }
    assert forall|v: nat, i: int| is_word_width(v) && 0 <= i < a.vals.get(v).len() && !uses(r, v, i)
        implies #[trigger] c.vals.get(v)[i] == a.vals.get(v)[i] by {
        assert(c.vals.get(v) == b.vals.get(v));
    }
    assert forall|v: nat| is_word_width(v) implies {
        &&& a.refs.get(v).len() <= #[trigger] c.refs.get(v).len()
        &&& a.vals.get(v).len() <= c.vals.get(v).len()
        &&& c.allocated.get(v).len() <= a.allocated.get(v).len() + M
    } by {
        assert(c.vals.get(v) == b.vals.get(v));
        if v != W::spec_width() {
            assert(c.refs.get(v) == b.refs.get(v));
            assert(c.allocated.get(v) == b.allocated.get(v));
        }
    }
    assert forall|k: int| 0 <= k < M implies {
        let i = #[trigger] r.spec_idxs()[k] as int;
        &&& c.refs.get(V::spec_width())[i] == 1
        &&& (i < a.refs.get(V::spec_width()).len() ==> a.refs.get(V::spec_width())[i] == 0)
    } by {
        let i = r.spec_idxs()[k] as int;
        assert(i < b.refs.get(V::spec_width()).len());
        if V::spec_width() == W::spec_width() && uses(x, W::spec_width(), i) {
            lemma_live_fresh(a, x, r, i);
            assert(uses(r, W::spec_width(), i)) by {
                assert(r.spec_idxs()[k] == i as usize);
            }
        }
        if V::spec_width() != W::spec_width() {
            assert(c.refs.get(V::spec_width()) == b.refs.get(V::spec_width()));
        }
    }
}

/// The number of times slot `i` of the words of width `v` is held by the given index (0 or 1).
pub open spec fn idx_count<W: Word, const N: usize>(x: WordIdx<W, N>) -> spec_fn(nat, int) -> int {
    |v: nat, i: int| if uses(x, v, i) { 1int } else { 0int }
}

/// The sum of two slot counts.
pub open spec fn add_count(c1: spec_fn(nat, int) -> int, c2: spec_fn(nat, int) -> int) -> spec_fn(nat, int) -> int {
    |v: nat, i: int| c1(v, i) + c2(v, i)
}

/// The counts of slots held by the given indices.
pub open spec fn seq_count<W: Word, const N: usize>(ins: Seq<WordIdx<W, N>>) -> spec_fn(nat, int) -> int {
    |v: nat, i: int| count_uses(ins, v, i)
}

/// Slot `i` of the words of width `v` keeps a reference once `cnt` references are dropped.
pub open spec fn kept(a: SlotModel, cnt: spec_fn(nat, int) -> int, v: nat, i: int) -> bool {
    0 <= i < a.refs.get(v).len() && a.refs.get(v)[i] > cnt(v, i)
}

/// The slot counts are nonnegative, and fit in the reference counts of the slots.
pub open spec fn fits(a: SlotModel, cnt: spec_fn(nat, int) -> int) -> bool {
    &&& forall|v: nat, i: int| #[trigger] cnt(v, i) >= 0
    &&& forall|v: nat, i: int| is_word_width(v) && 0 <= i < a.refs.get(v).len() ==> #[trigger] cnt(v, i) <= a.refs.get(v)[i]
}

/// There is room to allocate `n` more words of every word type.
pub open spec fn room_all(m: SlotModel, n: nat) -> bool {
    forall|v: nat| is_word_width(v) ==> #[trigger] m.allocated.get(v).len() + n < usize::MAX
}

/// The state went from `a` to `b` by operations that dropped `cnt(v, i)` references to each
/// slot and produced the reference `r`, referenced once: slots that keep references keep their
/// values and lose exactly `cnt` references, the slots of `r` are not among them, the outputs
/// are unchanged, and at most `grow` allocation flags were added per word type.
pub open spec fn evolves<V: Word, const M: usize>(
    a: SlotModel,
    b: SlotModel,
    cnt: spec_fn(nat, int) -> int,
    grow: nat,
    r: WordIdx<V, M>,
) -> bool {
    &&& valid_idx(b, r)
    &&& forall|k: int| 0 <= k < M ==> {
        let i = #[trigger] r.spec_idxs()[k] as int;
        &&& b.refs.get(V::spec_width())[i] == 1
        &&& !kept(a, cnt, V::spec_width(), i)
    }
    &&& b.outputs == a.outputs
    &&& forall|v: nat|
        #![trigger b.refs.get(v)]
        #![trigger b.allocated.get(v)]
        is_word_width(v) ==> {
            &&& a.refs.get(v).len() <= b.refs.get(v).len()
            &&& b.allocated.get(v).len() <= a.allocated.get(v).len() + grow
        }
    &&& forall|v: nat, i: int| is_word_width(v) && #[trigger] kept(a, cnt, v, i) ==> {
        &&& b.refs.get(v)[i] == a.refs.get(v)[i] - cnt(v, i)
        &&& b.vals.get(v)[i] == a.vals.get(v)[i]
    }
}

/// A primitive production is an evolution.
pub proof fn lemma_produces_evolves<W: Word, const N: usize, V: Word, const M: usize>(
    a: SlotModel,
    b: SlotModel,
    ins: Seq<WordIdx<W, N>>,
    r: WordIdx<V, M>,
)
    requires
        produces(a, b, ins, r),
        model_ok(a),
    ensures
        evolves(a, b, seq_count(ins), M as nat, r),
{
    assert forall|v: nat, i: int| is_word_width(v) && #[trigger] kept(a, seq_count(ins), v, i) implies {
        &&& b.refs.get(v)[i] == a.refs.get(v)[i] - seq_count(ins)(v, i)
        &&& b.vals.get(v)[i] == a.vals.get(v)[i]
    } by {
        lemma_count_nonneg(ins, v, i);
        if uses(r, v, i) {
            let k = choose|k: int| 0 <= k < r.spec_idxs().len() && r.spec_idxs()[k] == i as usize;
            r.lemma_len();
            assert(a.refs.get(V::spec_width())[r.spec_idxs()[k] as int] == 0);
        }
        assert(a.vals.get(v).len() == a.refs.get(v).len());
    }
    assert forall|k: int| 0 <= k < M implies {
        let i = #[trigger] r.spec_idxs()[k] as int;
        &&& b.refs.get(V::spec_width())[i] == 1
        &&& !kept(a, seq_count(ins), V::spec_width(), i)
    } by {
        lemma_count_nonneg(ins, V::spec_width(), r.spec_idxs()[k] as int);
    }
}

/// Two evolutions in a row, the second consuming the result of the first (once) besides
/// the references counted by `c2o`, make one evolution.
pub proof fn lemma_evolves_compose<V: Word, const M: usize, U: Word, const L: usize>(
    a: SlotModel,
    b: SlotModel,
    c: SlotModel,
    c1: spec_fn(nat, int) -> int,
    g1: nat,
    x: WordIdx<V, M>,
    c2: spec_fn(nat, int) -> int,
    c2o: spec_fn(nat, int) -> int,
    g2: nat,
    y: WordIdx<U, L>,
)
    requires
        evolves(a, b, c1, g1, x),
        evolves(b, c, c2, g2, y),
        forall|v: nat, i: int| #[trigger] c2o(v, i) >= 0,
        forall|v: nat, i: int| #[trigger] c1(v, i) >= 0,
        forall|v: nat, i: int| #[trigger] c2(v, i) == c2o(v, i) + if uses(x, v, i) { 1int } else { 0int },
        model_ok(a),
    ensures
        evolves(a, c, add_count(c1, c2o), g1 + g2, y),
{
    V::lemma_width();
    U::lemma_width();
    x.lemma_len();
    y.lemma_len();
    let c12 = add_count(c1, c2o);
    // kept slots at a stay kept at b, and are not slots of x
    assert forall|v: nat, i: int| is_word_width(v) && #[trigger] kept(a, c12, v, i) implies {
        &&& kept(a, c1, v, i)
        &&& !uses(x, v, i)
        &&& kept(b, c2, v, i)
    } by {
        assert(c1(v, i) >= 0 && c2o(v, i) >= 0);
        assert(c12(v, i) == c1(v, i) + c2o(v, i));
        assert(kept(a, c1, v, i));
        assert(a.allocated.get(v).len() <= usize::MAX);
        assert(a.refs.get(v).len() <= a.allocated.get(v).len());
        if uses(x, v, i) {
            let k = choose|k: int| 0 <= k < x.spec_idxs().len() && x.spec_idxs()[k] == i as usize;
            assert(x.spec_idxs()[k] as int == i);
            assert(!kept(a, c1, V::spec_width(), x.spec_idxs()[k] as int));
        }
        assert(!uses(x, v, i));
        assert(c2(v, i) == c2o(v, i));
        assert(b.refs.get(v).len() >= a.refs.get(v).len());
        assert(b.refs.get(v)[i] == a.refs.get(v)[i] - c1(v, i));
    }
    assert forall|v: nat, i: int| is_word_width(v) && #[trigger] kept(a, c12, v, i) implies {
        &&& c.refs.get(v)[i] == a.refs.get(v)[i] - c12(v, i)
        &&& c.vals.get(v)[i] == a.vals.get(v)[i]
    } by {
        assert(kept(a, c1, v, i));
        assert(kept(b, c2, v, i));
    }
    assert forall|k: int| 0 <= k < L implies {
        let i = #[trigger] y.spec_idxs()[k] as int;
        &&& c.refs.get(U::spec_width())[i] == 1
        &&& !kept(a, c12, U::spec_width(), i)
    } by {
        let i = y.spec_idxs()[k] as int;
        if kept(a, c12, U::spec_width(), i) {
            assert(kept(b, c2, U::spec_width(), i));
        }
    }
    assert forall|v: nat| is_word_width(v) implies {
        &&& a.refs.get(v).len() <= #[trigger] c.refs.get(v).len()
        &&& c.allocated.get(v).len() <= a.allocated.get(v).len() + (g1 + g2)
    } by {
        assert(b.refs.get(v).len() <= c.refs.get(v).len());
        assert(b.allocated.get(v).len() <= a.allocated.get(v).len() + g1);
    }
}

/// A reference that keeps its references through an evolution keeps its bits and liveness.
pub proof fn lemma_evolves_keeps<V: Word, const M: usize, U: Word, const L: usize>(
    a: SlotModel,
    b: SlotModel,
    cnt: spec_fn(nat, int) -> int,
    g: nat,
    r: WordIdx<V, M>,
    x: WordIdx<U, L>,
)
    requires
        evolves(a, b, cnt, g, r),
        valid_idx(a, x),
        forall|k: int| 0 <= k < L ==> #[trigger] kept(a, cnt, U::spec_width(), x.spec_idxs()[k] as int),
    ensures
        word_bits(b, x) == word_bits(a, x),
        valid_idx(b, x),
        forall|k: int| 0 <= k < L ==> #[trigger] b.refs.get(U::spec_width())[x.spec_idxs()[k] as int]
            == a.refs.get(U::spec_width())[x.spec_idxs()[k] as int] - cnt(U::spec_width(), x.spec_idxs()[k] as int),
        forall|k: int| 0 <= k < L ==> #[trigger] b.vals.get(U::spec_width())[x.spec_idxs()[k] as int]
            == a.vals.get(U::spec_width())[x.spec_idxs()[k] as int],
{
    U::lemma_width();
    x.lemma_len();
    assert forall|k: int| 0 <= k < L implies #[trigger] b.vals.get(U::spec_width())[x.spec_idxs()[k] as int]
        == a.vals.get(U::spec_width())[x.spec_idxs()[k] as int] by {
        assert(kept(a, cnt, U::spec_width(), x.spec_idxs()[k] as int));
    }
    assert forall|k: int| 0 <= k < L implies #[trigger] b.refs.get(U::spec_width())[x.spec_idxs()[k] as int]
        == a.refs.get(U::spec_width())[x.spec_idxs()[k] as int] - cnt(U::spec_width(), x.spec_idxs()[k] as int) by {
        assert(kept(a, cnt, U::spec_width(), x.spec_idxs()[k] as int));
    }
    assert(b.refs.get(U::spec_width()).len() >= a.refs.get(U::spec_width()).len());
    lemma_word_bits_frame(a, b, x);
}

/// Frontend wrapping a backend: circuits allocate input and constant words through it and
/// push output words to it, and operate on the words through [WordRef]s.
pub struct Frontend<B: Backend> {
    /// The wrapped backend.
    pub backend: B,
}

impl<B: Backend> Frontend<B> {
    /// Well-formedness of the wrapped backend.
    pub open spec fn wf(self) -> bool {
        self.backend.wf()
    }

    /// The observable state of the wrapped backend.
    pub open spec fn model(self) -> SlotModel {
        self.backend.model()
    }

    /// The wrapped backend.
    pub open spec fn spec_backend(self) -> B {
        self.backend
    }

    /// Wraps the given backend.
    pub fn wrap(backend: B) -> (r: Self)
        ensures
            r.spec_backend() == backend,
    {
        Frontend { backend }
    }

    /// Finalizes the wrapped backend, returning its result. Every word reference obtained from
    /// this frontend must have been consumed or released by then.
    pub fn finalize_with_arg(self, arg: B::FinalizeArg) -> (r: B::FinalizeResult)
        requires
            self.wf(),
            unreferenced(self.model()),
        ensures
            self.spec_backend().finalized(arg, r),
    {
        self.backend.finalize(arg)
    }

    /// A reference to fresh slots for a composite word, referenced once, with no value set.
    pub(crate) fn fresh<V: Word, const M: usize>(&mut self) -> (r: WordRef<B, V, M>)
        requires
            old(self).wf(),
            shape_ok::<V, M>(),
            room::<V, M>(old(self).model()),
        ensures
            final(self).wf(),
            final(self).spec_backend().key() == old(self).spec_backend().key(),
            produces(old(self).model(), final(self).model(), Seq::<WordIdx<V, M>>::empty(), r.spec_idx()),
    {
        let ghost m0 = self.model();
        proof {
            self.backend.lemma_model();
            V::lemma_width();
        }
        let idx = self.backend.allocate::<V, M>();
        let ghost m1 = self.model();
        proof {
            idx.lemma_len();
            let m2 = self.model();
            let w = V::spec_width();
            assert forall|v: nat, i: int| is_word_width(v) && 0 <= i < m0.refs.get(v).len() && !uses(idx, v, i)
                implies #[trigger] m2.refs.get(v)[i] == m0.refs.get(v)[i] - count_uses(Seq::<WordIdx<V, M>>::empty(), v, i) by {
                if v == w {
                    assert(m2.refs.get(w)[i] == m1.refs.get(w)[i]);
                } else {
                    assert(m2.refs.get(v) == m1.refs.get(v));
                }
            }
            assert forall|v: nat, i: int| is_word_width(v) && 0 <= i < m0.vals.get(v).len() && !uses(idx, v, i)
                implies #[trigger] m2.vals.get(v)[i] == m0.vals.get(v)[i] by {
                assert(m2.vals.get(v) == m1.vals.get(v));
            }
            assert forall|v: nat| is_word_width(v) implies {
                &&& m0.refs.get(v).len() <= #[trigger] m2.refs.get(v).len()
                &&& m0.vals.get(v).len() <= m2.vals.get(v).len()
                &&& m2.allocated.get(v).len() <= m0.allocated.get(v).len() + M
            } by {
                assert(m2.vals.get(v) == m1.vals.get(v));
                if v != w {
                    assert(m2.refs.get(v) == m1.refs.get(v));
                    assert(m2.allocated.get(v) == m1.allocated.get(v));
                }
            }
            assert forall|k: int| 0 <= k < M implies {
                let i = #[trigger] idx.spec_idxs()[k] as int;
                &&& m2.refs.get(w)[i] == 1
                &&& (i < m0.refs.get(w).len() ==> m0.refs.get(w)[i] == 0)
            } by {
                let i = idx.spec_idxs()[k] as int;
                assert(uses(idx, w, i)) by {
                    assert(idx.spec_idxs()[k] == i as usize);
                }
            }
        }
        WordRef::from_idx(idx)
    }

    /// Takes the first reference to a word just allocated from state `m0`: the allocation
    /// counted it.
    fn hold<W: Word, const N: usize>(&mut self, idx: WordIdx<W, N>, Ghost(m0): Ghost<SlotModel>) -> (r: WordRef<B, W, N>)
        requires
            old(self).wf(),
            model_ok(m0),
            allocates(m0, old(self).model(), idx),
        ensures
            final(self).wf(),
            final(self).spec_backend().key() == old(self).spec_backend().key(),
            r.spec_idx() == idx,
            produces(m0, final(self).model(), Seq::<WordIdx<W, N>>::empty(), idx),
            word_bits(final(self).model(), idx) == word_bits(old(self).model(), idx),
            final(self).spec_backend() == old(self).spec_backend(),
    {
        let ghost m1 = self.model();
        proof {
            idx.lemma_len();
            W::lemma_width();
            self.backend.lemma_model();
            let m2 = self.model();
            let w = W::spec_width();
            assert forall|v: nat, i: int| is_word_width(v) && 0 <= i < m0.refs.get(v).len() && !uses(idx, v, i)
                implies #[trigger] m2.refs.get(v)[i] == m0.refs.get(v)[i] - count_uses(Seq::<WordIdx<W, N>>::empty(), v, i) by {
                if v == w {
                    assert(m2.refs.get(w)[i] == m1.refs.get(w)[i]);
                } else {
                    assert(m2.refs.get(v) == m1.refs.get(v));
                }
            }
            assert forall|v: nat, i: int| is_word_width(v) && 0 <= i < m0.vals.get(v).len() && !uses(idx, v, i)
                implies #[trigger] m2.vals.get(v)[i] == m0.vals.get(v)[i] by {
                assert(m2.vals.get(v) == m1.vals.get(v));
            }
            assert forall|v: nat| is_word_width(v) implies {
                &&& m0.refs.get(v).len() <= #[trigger] m2.refs.get(v).len()
                &&& m0.vals.get(v).len() <= m2.vals.get(v).len()
                &&& m2.allocated.get(v).len() <= m0.allocated.get(v).len() + N
            } by {
                assert(m2.vals.get(v) == m1.vals.get(v));
                if v != w {
                    assert(m2.refs.get(v) == m1.refs.get(v));
                    assert(m2.allocated.get(v) == m1.allocated.get(v));
                }
            }
            assert forall|k: int| 0 <= k < N implies {
                let i = #[trigger] idx.spec_idxs()[k] as int;
                &&& m2.refs.get(w)[i] == 1
                &&& (i < m0.refs.get(w).len() ==> m0.refs.get(w)[i] == 0)
            } by {
                let i = idx.spec_idxs()[k] as int;
                assert(uses(idx, w, i)) by {
                    assert(idx.spec_idxs()[k] == i as usize);
                }
            }
            assert(m2.vals.get(w) == m1.vals.get(w));
        }
        WordRef::from_idx(idx)
    }

    /// Allocates an input word of the given value, returning a reference to it.
    pub fn input<W: Word, const N: usize, C: WordLike<W, N>>(&mut self, word: C) -> (r: WordRef<B, W, N>)
        requires
            old(self).wf(),
            shape_ok::<W, N>(),
            room::<W, N>(old(self).model()),
        ensures
            final(self).wf(),
            final(self).spec_backend().key() == old(self).spec_backend().key(),
            produces(old(self).model(), final(self).model(), Seq::<WordIdx<W, N>>::empty(), r.spec_idx()),
            B::tracks_values() ==> word_bits(final(self).model(), r.spec_idx()) == word.as_word().cbits(),
            old(self).spec_backend().inputs(final(self).spec_backend(), W::spec_width(), word_vals(word.as_word()), r.spec_idx().spec_idxs()),
    {
        let ghost m0 = self.model();
        proof {
            self.backend.lemma_model();
            W::lemma_width();
        }
        let idx = self.backend.input(word.to_word());
        self.hold(idx, Ghost(m0))
    }

    /// Allocates a constant word of the given value, returning a reference to it.
    pub fn allocate<W: Word, const N: usize, C: WordLike<W, N>>(&mut self, word: C) -> (r: WordRef<B, W, N>)
        requires
            old(self).wf(),
            shape_ok::<W, N>(),
            room::<W, N>(old(self).model()),
        ensures
            final(self).wf(),
            final(self).spec_backend().key() == old(self).spec_backend().key(),
            produces(old(self).model(), final(self).model(), Seq::<WordIdx<W, N>>::empty(), r.spec_idx()),
            B::tracks_values() ==> word_bits(final(self).model(), r.spec_idx()) == word.as_word().cbits(),
            old(self).spec_backend().quiet(final(self).spec_backend()),
            final(self).spec_backend().holds_constant(W::spec_width(), word_vals(word.as_word()), r.spec_idx().spec_idxs()),
    {
        let ghost m0 = self.model();
        proof {
            self.backend.lemma_model();
            W::lemma_width();
        }
        let idx = self.backend.alloc_constant(word.to_word());
        self.hold(idx, Ghost(m0))
    }

    /// Pushes the referenced word onto the outputs, the reference being consumed: the
    /// reference counts of its slots decrease by one.
    pub fn output<W: Word, const N: usize>(&mut self, word_ref: WordRef<B, W, N>)
        requires
            old(self).wf(),
            shape_ok::<W, N>(),
            live_idx(old(self).model(), word_ref.spec_idx()),
        ensures
            final(self).wf(),
            final(self).spec_backend().key() == old(self).spec_backend().key(),
            B::tracks_values() ==> final(self).model().outputs == old(self).model().outputs.push((W::spec_width(), word_bits(old(self).model(), word_ref.spec_idx()))),
            recounts(
                (SlotModel { outputs: final(self).model().outputs, ..old(self).model() }),
                final(self).model(),
                word_ref.spec_idx(),
                -1,
            ),
    {
        let ghost m0 = self.model();
        proof {
            W::lemma_width();
        }
        self.backend.output(word_ref.idx());
        let ghost m1 = self.model();
        proof {
            let w = W::spec_width();
            assert(m1.refs.get(w) == m0.refs.get(w));
            assert(m1.allocated.get(w) == m0.allocated.get(w));
        }
        word_ref.release(self);
        proof {
            let ms = SlotModel { outputs: m1.outputs, ..m0 };
            assert forall|v: nat| is_word_width(v) implies {
                &&& #[trigger] ms.refs.get(v) == m1.refs.get(v)
                &&& ms.allocated.get(v) == m1.allocated.get(v)
                &&& ms.vals.get(v) == m1.vals.get(v)
            } by {}
        }
    }
}

impl<B: Backend<FinalizeArg = ()>> Frontend<B> {
    /// Finalizes the wrapped backend, whose finalization takes no argument, returning its
    /// result. Every word reference obtained from this frontend must have been consumed or
    /// released by then.
    pub fn finalize(self) -> (r: B::FinalizeResult)
        requires
            self.wf(),
            unreferenced(self.model()),
        ensures
            self.spec_backend().finalized((), r),
    {
        self.finalize_with_arg(())
    }
}

} // verus!
