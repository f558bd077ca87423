//! Composing evolutions of a backend's state: computations that allocate scratch words, read
//! their inputs without consuming them, and release the scratch words and inputs at the end.
use crate::backend::backend::{live_idx, model_ok, recounts, uses, valid_idx, word_bits, SlotModel};
use crate::backend::frontend::{add_count, evolves, fits, idx_count, kept, lemma_evolves_keeps, room_all};
use crate::word::by_word_type::is_word_width;
use crate::word::word::Word;
use crate::word::word_idx::WordIdx;
use vstd::prelude::*;

verus! {

/// No reference dropped.
pub open spec fn no_count() -> spec_fn(nat, int) -> int {
    |v: nat, i: int| 0int
}

/// The two indices hold no common slot.
pub open spec fn apart<V: Word, const M: usize, U: Word, const L: usize>(x: WordIdx<V, M>, y: WordIdx<U, L>) -> bool {
    forall|v: nat, i: int| !(#[trigger] uses(x, v, i) && #[trigger] uses(y, v, i))
}

/// The slots of `x` belong to a computation started in state `a`: they are referenced once in
/// state `b`, and were not referenced in `a`.
pub open spec fn owned<V: Word, const M: usize>(a: SlotModel, b: SlotModel, x: WordIdx<V, M>) -> bool {
    &&& valid_idx(b, x)
    &&& forall|k: int| 0 <= k < M ==> {
        let i = #[trigger] x.spec_idxs()[k] as int;
        &&& b.refs.get(V::spec_width())[i] == 1
        &&& !kept(a, no_count(), V::spec_width(), i)
    }
}

/// The result of an evolution that drops no reference is owned.
pub proof fn lemma_evolves_owned<V: Word, const M: usize>(a: SlotModel, b: SlotModel, g: nat, x: WordIdx<V, M>)
    requires
        evolves(a, b, no_count(), g, x),
    ensures
        owned(a, b, x),
        live_idx(b, x),
{
    V::lemma_width();
    x.lemma_len();
    assert forall|k: int| 0 <= k < M implies #[trigger] b.refs.get(V::spec_width())[x.spec_idxs()[k] as int] >= 1 by {
        assert(b.refs.get(V::spec_width())[x.spec_idxs()[k] as int] == 1);
    }
}

/// Two evolutions dropping no reference make one.
pub proof fn lemma_evolves_chain<V: Word, const M: usize, U: Word, const L: usize>(
    a: SlotModel,
    b: SlotModel,
    c: SlotModel,
    g1: nat,
    x: WordIdx<V, M>,
    g2: nat,
    y: WordIdx<U, L>,
)
    requires
        evolves(a, b, no_count(), g1, x),
        evolves(b, c, no_count(), g2, y),
    ensures
        evolves(a, c, no_count(), g1 + g2, y),
{
    let z = no_count();
    assert forall|v: nat, i: int| is_word_width(v) && #[trigger] kept(a, z, v, i) implies {
        &&& c.refs.get(v)[i] == a.refs.get(v)[i] - z(v, i)
        &&& c.vals.get(v)[i] == a.vals.get(v)[i]
    } by {
        assert(kept(b, z, v, i));
    }
    assert forall|k: int| 0 <= k < L implies {
        let i = #[trigger] y.spec_idxs()[k] as int;
        &&& c.refs.get(U::spec_width())[i] == 1
        &&& !kept(a, z, U::spec_width(), i)
    } by {
        let i = y.spec_idxs()[k] as int;
        U::lemma_width();
        if kept(a, z, U::spec_width(), i) {
            assert(kept(b, z, U::spec_width(), i));
        }
    }
    assert forall|v: nat| is_word_width(v) implies {
        &&& a.refs.get(v).len() <= #[trigger] c.refs.get(v).len()
        &&& c.allocated.get(v).len() <= a.allocated.get(v).len() + (g1 + g2)
    } by {
        assert(b.refs.get(v).len() <= c.refs.get(v).len());
        assert(b.allocated.get(v).len() <= a.allocated.get(v).len() + g1);
    }
}

/// An owned word stays owned, with its bits, through an evolution dropping no reference,
/// and holds no slot of its result.
pub proof fn lemma_owned_step<V: Word, const M: usize, U: Word, const L: usize>(
    a: SlotModel,
    b: SlotModel,
    c: SlotModel,
    x: WordIdx<V, M>,
    g: nat,
    y: WordIdx<U, L>,
)
    requires
        owned(a, b, x),
        evolves(b, c, no_count(), g, y),
    ensures
        owned(a, c, x),
        live_idx(c, x),
        word_bits(c, x) == word_bits(b, x),
        apart(x, y),
{
    V::lemma_width();
    U::lemma_width();
    x.lemma_len();
    y.lemma_len();
    assert forall|k: int| 0 <= k < M implies #[trigger] kept(b, no_count(), V::spec_width(), x.spec_idxs()[k] as int) by {
        assert(b.refs.get(V::spec_width())[x.spec_idxs()[k] as int] == 1);
    }
    lemma_evolves_keeps(b, c, no_count(), g, y, x);
    assert forall|v: nat, i: int| !(#[trigger] uses(x, v, i) && #[trigger] uses(y, v, i)) by {
        if uses(x, v, i) && uses(y, v, i) {
            let k = choose|k: int| 0 <= k < x.spec_idxs().len() && x.spec_idxs()[k] == i as usize;
            let t = choose|t: int| 0 <= t < y.spec_idxs().len() && y.spec_idxs()[t] == i as usize;
            assert(kept(b, no_count(), V::spec_width(), x.spec_idxs()[k] as int));
            assert(!kept(b, no_count(), U::spec_width(), y.spec_idxs()[t] as int));
        }
    }
    assert forall|k: int| 0 <= k < M implies #[trigger] c.refs.get(V::spec_width())[x.spec_idxs()[k] as int] >= 1 by {
        assert(c.refs.get(V::spec_width())[x.spec_idxs()[k] as int] == b.refs.get(V::spec_width())[x.spec_idxs()[k] as int] - 0);
    }
}

/// Releasing a word keeps the bits, liveness and counts of a word that holds none of its
/// slots.
pub proof fn lemma_release_apart<V: Word, const M: usize, U: Word, const L: usize>(
    b: SlotModel,
    c: SlotModel,
    x: WordIdx<V, M>,
    y: WordIdx<U, L>,
)
    requires
        recounts(b, c, x, -1),
        apart(x, y),
        valid_idx(b, y),
    ensures
        valid_idx(c, y),
        word_bits(c, y) == word_bits(b, y),
        forall|k: int| 0 <= k < L ==> #[trigger] c.refs.get(U::spec_width())[y.spec_idxs()[k] as int]
            == b.refs.get(U::spec_width())[y.spec_idxs()[k] as int],
{
    U::lemma_width();
    y.lemma_len();
    assert(c.vals.get(U::spec_width()) == b.vals.get(U::spec_width()));
    if U::spec_width() == V::spec_width() {
        assert forall|k: int| 0 <= k < L implies #[trigger] c.refs.get(U::spec_width())[y.spec_idxs()[k] as int]
            == b.refs.get(U::spec_width())[y.spec_idxs()[k] as int] by {
            let i = y.spec_idxs()[k] as int;
            assert(uses(y, U::spec_width(), i)) by {
                assert(y.spec_idxs()[k] == i as usize);
            }
            assert(!uses(x, V::spec_width(), i));
        }
    } else {
        assert(c.refs.get(U::spec_width()) == b.refs.get(U::spec_width()));
    }
}

/// Releasing an owned scratch word keeps an evolution dropping no reference, whose result
/// holds none of its slots.
pub proof fn lemma_release_owned<V: Word, const M: usize, U: Word, const L: usize>(
    a: SlotModel,
    b: SlotModel,
    c: SlotModel,
    g: nat,
    y: WordIdx<U, L>,
    x: WordIdx<V, M>,
)
    requires
        evolves(a, b, no_count(), g, y),
        owned(a, b, x),
        apart(x, y),
        recounts(b, c, x, -1),
        model_ok(a),
    ensures
        evolves(a, c, no_count(), g, y),
        word_bits(c, y) == word_bits(b, y),
{
    V::lemma_width();
    U::lemma_width();
    x.lemma_len();
    lemma_release_apart(b, c, x, y);
    let z = no_count();
    assert forall|v: nat, i: int| is_word_width(v) && #[trigger] kept(a, z, v, i) implies {
        &&& c.refs.get(v)[i] == a.refs.get(v)[i] - z(v, i)
        &&& c.vals.get(v)[i] == a.vals.get(v)[i]
    } by {
        assert(c.vals.get(v) == b.vals.get(v));
        assert(b.refs.get(v).len() >= a.refs.get(v).len());
        assert(a.refs.get(v).len() <= a.allocated.get(v).len());
        if v == V::spec_width() {
            if uses(x, v, i) {
                let k = choose|k: int| 0 <= k < x.spec_idxs().len() && x.spec_idxs()[k] == i as usize;
                assert(x.spec_idxs()[k] as int == i);
                assert(!kept(a, z, V::spec_width(), x.spec_idxs()[k] as int));
            }
            assert(c.refs.get(v)[i] == b.refs.get(v)[i] + if uses(x, V::spec_width(), i) { -1int } else { 0 });
            assert(c.refs.get(v)[i] == b.refs.get(v)[i]);
        } else {
            assert(c.refs.get(v) == b.refs.get(v));
        }
    }
    assert forall|v: nat| is_word_width(v) implies {
        &&& a.refs.get(v).len() <= #[trigger] c.refs.get(v).len()
        &&& c.allocated.get(v).len() <= a.allocated.get(v).len() + g
    } by {
        assert(b.refs.get(v).len() <= c.refs.get(v).len());
        if v != V::spec_width() {
            assert(c.allocated.get(v) == b.allocated.get(v));
        }
    }
}

/// Releasing an owned scratch word keeps another owned word, which holds none of its slots.
pub proof fn lemma_release_keeps_owned<V: Word, const M: usize, U: Word, const L: usize>(
    a: SlotModel,
    b: SlotModel,
    c: SlotModel,
    x: WordIdx<V, M>,
    y: WordIdx<U, L>,
)
    requires
        owned(a, b, y),
        apart(x, y),
        recounts(b, c, x, -1),
    ensures
        owned(a, c, y),
        live_idx(c, y),
        word_bits(c, y) == word_bits(b, y),
{
    U::lemma_width();
    y.lemma_len();
    lemma_release_apart(b, c, x, y);
    assert forall|k: int| 0 <= k < L implies #[trigger] c.refs.get(U::spec_width())[y.spec_idxs()[k] as int] >= 1 by {
        assert(c.refs.get(U::spec_width())[y.spec_idxs()[k] as int] == b.refs.get(U::spec_width())[y.spec_idxs()[k] as int]);
    }
}

/// An input still referenced after the references counted by `d` and its own are dropped is
/// live after an evolution dropping the references counted by `d`.
pub proof fn lemma_evolves_live<V: Word, const M: usize, U: Word, const L: usize>(
    a: SlotModel,
    b: SlotModel,
    d: spec_fn(nat, int) -> int,
    g: nat,
    y: WordIdx<U, L>,
    x: WordIdx<V, M>,
)
    requires
        evolves(a, b, d, g, y),
        live_idx(a, x),
        fits(a, add_count(d, idx_count(x))),
    ensures
        live_idx(b, x),
        word_bits(b, x) == word_bits(a, x),
        apart(x, y),
{
    V::lemma_width();
    x.lemma_len();
    assert forall|k: int| 0 <= k < M implies #[trigger] kept(a, d, V::spec_width(), x.spec_idxs()[k] as int) by {
        let i = x.spec_idxs()[k] as int;
        assert(uses(x, V::spec_width(), i)) by {
            assert(x.spec_idxs()[k] == i as usize);
        }
        assert(add_count(d, idx_count(x))(V::spec_width(), i) == d(V::spec_width(), i) + 1);
        assert(add_count(d, idx_count(x))(V::spec_width(), i) <= a.refs.get(V::spec_width())[i]);
    }
    lemma_evolves_keeps(a, b, d, g, y, x);
    assert forall|k: int| 0 <= k < M implies #[trigger] b.refs.get(V::spec_width())[x.spec_idxs()[k] as int] >= 1 by {
        let i = x.spec_idxs()[k] as int;
        assert(uses(x, V::spec_width(), i)) by {
            assert(x.spec_idxs()[k] == i as usize);
        }
        assert(add_count(d, idx_count(x))(V::spec_width(), i) <= a.refs.get(V::spec_width())[i]);
    }
    assert forall|v: nat, i: int| !(#[trigger] uses(x, v, i) && #[trigger] uses(y, v, i)) by {
        if uses(x, v, i) && uses(y, v, i) {
            let k = choose|k: int| 0 <= k < x.spec_idxs().len() && x.spec_idxs()[k] == i as usize;
            let t = choose|t: int| 0 <= t < y.spec_idxs().len() && y.spec_idxs()[t] == i as usize;
            assert(kept(a, d, V::spec_width(), x.spec_idxs()[k] as int));
            y.lemma_len();
            assert(!kept(a, d, U::spec_width(), y.spec_idxs()[t] as int));
        }
    }
}

/// Releasing an input extends an evolution with the references that the input held.
pub proof fn lemma_evolves_release<V: Word, const M: usize, U: Word, const L: usize>(
    a: SlotModel,
    b: SlotModel,
    c: SlotModel,
    d: spec_fn(nat, int) -> int,
    g: nat,
    y: WordIdx<U, L>,
    x: WordIdx<V, M>,
)
    requires
        evolves(a, b, d, g, y),
        live_idx(a, x),
        forall|v: nat, i: int| #[trigger] d(v, i) >= 0,
        fits(a, add_count(d, idx_count(x))),
        recounts(b, c, x, -1),
    ensures
        evolves(a, c, add_count(d, idx_count(x)), g, y),
        word_bits(c, y) == word_bits(b, y),
{
    V::lemma_width();
    U::lemma_width();
    x.lemma_len();
    y.lemma_len();
    lemma_evolves_live(a, b, d, g, y, x);
    lemma_release_apart(b, c, x, y);
    let d2 = add_count(d, idx_count(x));
    assert forall|v: nat, i: int| is_word_width(v) && #[trigger] kept(a, d2, v, i) implies {
        &&& c.refs.get(v)[i] == a.refs.get(v)[i] - d2(v, i)
        &&& c.vals.get(v)[i] == a.vals.get(v)[i]
    } by {
        assert(d2(v, i) >= 0 && idx_count(x)(v, i) >= 0);
        assert(d(v, i) >= 0);
        assert(kept(a, d, v, i));
        assert(c.vals.get(v) == b.vals.get(v));
        assert(b.refs.get(v).len() >= a.refs.get(v).len());
        if v == V::spec_width() {
            assert(c.refs.get(v)[i] == b.refs.get(v)[i] + if uses(x, V::spec_width(), i) { -1int } else { 0 });
        } else {
            assert(c.refs.get(v) == b.refs.get(v));
        }
    }
    assert forall|k: int| 0 <= k < L implies {
        let i = #[trigger] y.spec_idxs()[k] as int;
        &&& c.refs.get(U::spec_width())[i] == 1
        &&& !kept(a, d2, U::spec_width(), i)
    } by {
        let i = y.spec_idxs()[k] as int;
        assert(d(U::spec_width(), i) >= 0);
        assert(idx_count(x)(U::spec_width(), i) >= 0);
        if kept(a, d2, U::spec_width(), i) {
            assert(kept(a, d, U::spec_width(), i));
        }
    }
    assert forall|v: nat| is_word_width(v) implies {
        &&& a.refs.get(v).len() <= #[trigger] c.refs.get(v).len()
        &&& c.allocated.get(v).len() <= a.allocated.get(v).len() + g
    } by {
        assert(b.refs.get(v).len() <= c.refs.get(v).len());
        if v != V::spec_width() {
            assert(c.allocated.get(v) == b.allocated.get(v));
        }
    }
}

/// Room left after an evolution that added at most `g` allocation flags.
pub proof fn lemma_evolves_room<U: Word, const L: usize>(
    a: SlotModel,
    b: SlotModel,
    d: spec_fn(nat, int) -> int,
    g: nat,
    y: WordIdx<U, L>,
    n: nat,
)
    requires
        evolves(a, b, d, g, y),
        room_all(a, g + n),
    ensures
        room_all(b, n),
{
    assert forall|v: nat| is_word_width(v) implies #[trigger] b.allocated.get(v).len() + n < usize::MAX by {
        assert(b.allocated.get(v).len() <= a.allocated.get(v).len() + g);
        assert(a.allocated.get(v).len() + (g + n) < usize::MAX);
    }
}

} // verus!
