//! In-circuit assertions: a running conjunction of booleans, built from ordinary gates and
//! emitted as one output word.
use crate::backend::backend::{live_idx, word_bits, Backend, SlotModel};
use crate::backend::boolean_word_ref::{bool_bits, lemma_one_bits, BooleanWordRef};
use crate::backend::frontend::{add_count, evolves, fits, idx_count, room, room_all, Frontend};
use crate::backend::word_ref::WordRef;
use crate::word::composite::CompositeWord;
use crate::word::word::Word;
use crate::word::word_idx::WordIdx;
use vstd::prelude::*;

verus! {

/// Accumulator of the assertions of a circuit: the conjunction of the booleans asserted so far,
/// held in a `u8` word once something was asserted.
pub struct Assertions<B: Backend> {
    acc: Option<WordRef<B, u8, 1>>,
    held: Ghost<bool>,
}

/// What the body of [Assertions::scope] leaves, run on frontend `before`: a well-formed
/// frontend on the same key, with an accumulator that agrees with it and room for the flag.
pub open spec fn scope_body_done<B: Backend>(before: Frontend<B>, a: Assertions<B>, after: Frontend<B>) -> bool {
    &&& after.wf()
    &&& after.spec_backend().key() == before.spec_backend().key()
    &&& a.inv(after.model())
    &&& room::<u8, 1>(after.model())
}

impl<B: Backend> Assertions<B> {
    /// The index of the word holding the conjunction, once something was asserted.
    pub closed spec fn spec_acc(self) -> Option<WordIdx<u8, 1>> {
        match self.acc {
            Some(a) => Some(a.spec_idx()),
            None => None,
        }
    }

    /// Whether every boolean asserted so far was true.
    pub closed spec fn all_held(self) -> bool {
        self.held@
    }

    /// The accumulator agrees with state `m`: with nothing asserted, every assertion held;
    /// otherwise the word of the conjunction is referenced and, where values are tracked,
    /// holds the boolean [Assertions::all_held].
    pub open spec fn inv(self, m: SlotModel) -> bool {
        match self.spec_acc() {
            None => self.all_held(),
            Some(a) => {
                &&& live_idx(m, a)
                &&& B::tracks_values() ==> word_bits(m, a) == bool_bits(self.all_held())
            },
        }
    }

    /// Runs `body` with a fresh accumulator, then emits the flag of what it asserted as the
    /// next output word, a `u8`: 1 if every asserted boolean was true or nothing was asserted,
    /// 0 otherwise. The body's result is handed back. An accumulator is had only here, so every
    /// assertion made is emitted.
    pub fn scope<R, F: FnOnce(&mut Assertions<B>, &mut Frontend<B>) -> R>(fe: &mut Frontend<B>, body: F) -> (r: R)
        requires
            old(fe).wf(),
            forall|a: &mut Assertions<B>, f: &mut Frontend<B>|
                (*a).spec_acc() is None && (*a).all_held() && *f == *old(fe) ==> call_requires(body, (a, f)),
            forall|a: &mut Assertions<B>, f: &mut Frontend<B>, x: R|
                #![trigger call_ensures(body, (a, f), x)]
                call_ensures(body, (a, f), x) && (*a).spec_acc() is None && (*a).all_held() && *f == *old(fe)
                    ==> scope_body_done(*old(fe), *final(a), *final(f)),
        ensures
            final(fe).wf(),
            final(fe).spec_backend().key() == old(fe).spec_backend().key(),
            exists|a: &mut Assertions<B>, f: &mut Frontend<B>|
                #![trigger call_ensures(body, (a, f), r)]
                (*a).spec_acc() is None && (*a).all_held() && *f == *old(fe) && call_ensures(body, (a, f), r)
                    && (B::tracks_values()
                    ==> final(fe).model().outputs == final(f).model().outputs.push((8, bool_bits(final(a).all_held())))),
    {
        let mut assertions = Assertions::new();
        let r = body(&mut assertions, fe);
        assertions.finish(fe);
        r
    }

    /// An accumulator with nothing asserted.
    fn new() -> (r: Self)
        ensures
            r.spec_acc() is None,
            r.all_held(),
    {
        Assertions { acc: None, held: Ghost(true) }
    }

    /// Whether nothing has been asserted yet.
    pub fn is_empty(&self) -> (r: bool)
        ensures
            r == self.spec_acc() is None,
    {
        self.acc.is_none()
    }

    /// Conjoins a boolean into the accumulator, consuming it: the first boolean becomes the
    /// accumulator, each later one is combined with it by an AND gate.
    pub fn assert_holds(&mut self, condition: BooleanWordRef<B>, fe: &mut Frontend<B>)
        requires
            old(fe).wf(),
            old(self).inv(old(fe).model()),
            condition.holds(old(fe).model()),
            room_all(old(fe).model(), 1),
            old(self).spec_acc() matches Some(a) ==> fits(old(fe).model(), add_count(idx_count(a), idx_count(condition.spec_idx()))),
        ensures
            final(fe).wf(),
            final(fe).spec_backend().key() == old(fe).spec_backend().key(),
            final(self).inv(final(fe).model()),
            final(self).all_held() == (old(self).all_held() && condition.value(old(fe).model())),
            final(self).spec_acc() is Some,
            old(self).spec_acc() is None ==> *final(fe) == *old(fe) && final(self).spec_acc() == Some(condition.spec_idx()),
            old(self).spec_acc() matches Some(a) ==> evolves(
                old(fe).model(),
                final(fe).model(),
                add_count(idx_count(a), idx_count(condition.spec_idx())),
                1,
                final(self).spec_acc().unwrap(),
            ),
    {
        let ghost m0 = fe.model();
        let ghost h = self.held@ && condition.value(m0);
        let prev = self.acc.take();
        match prev {
            None => {
                self.acc = Some(condition.into());
            },
            Some(p) => {
                let c = BooleanWordRef::new(p);
                proof {
                    assert(c.spec_idx() == p.spec_idx());
                    if B::tracks_values() {
                        assert(word_bits(m0, p.spec_idx()) == bool_bits(self.held@));
                        assert(c.value(m0) == self.held@);
                    }
                }
                let r = c.bitand(condition, fe);
                self.acc = Some(r.into());
            },
        }
        self.held = Ghost(h);
    }

    /// Emits the flag of the assertions as the next output word, a `u8`: 1 if every asserted
    /// boolean was true or nothing was asserted, 0 otherwise. Without an assertion, the flag
    /// is a constant one allocated here.
    fn finish(self, fe: &mut Frontend<B>)
        requires
            old(fe).wf(),
            self.inv(old(fe).model()),
            room::<u8, 1>(old(fe).model()),
        ensures
            final(fe).wf(),
            final(fe).spec_backend().key() == old(fe).spec_backend().key(),
            B::tracks_values() ==> final(fe).model().outputs == old(fe).model().outputs.push((8, bool_bits(self.all_held()))),
    {
        let ghost held = self.held@;
        proof {
            u8::lemma_width();
        }
        match self.acc {
            Some(a) => {
                fe.output(a);
            },
            None => {
                let ghost m0 = fe.model();
                let one = CompositeWord::<u8, 1>::one();
                proof {
                    lemma_one_bits(one);
                    fe.backend.lemma_model();
                }
                let w = fe.allocate(one);
                proof {
                    let m1 = fe.model();
                    w.spec_idx().lemma_len();
                    assert forall|k: int| 0 <= k < 1 implies #[trigger] m1.refs.get(u8::spec_width())[w.spec_idx().spec_idxs()[k] as int] >= 1 by {
                        assert(m1.refs.get(u8::spec_width())[w.spec_idx().spec_idxs()[k] as int] == 1);
                    }
                }
                fe.output(w);
            },
        }
    }
}

impl<B: Backend> BooleanWordRef<B> {
    /// Conjoins this boolean into an assertion accumulator, consuming it.
    pub fn assert_into(self, assertions: &mut Assertions<B>, fe: &mut Frontend<B>)
        requires
            old(fe).wf(),
            old(assertions).inv(old(fe).model()),
            self.holds(old(fe).model()),
            room_all(old(fe).model(), 1),
            old(assertions).spec_acc() matches Some(a) ==> fits(old(fe).model(), add_count(idx_count(a), idx_count(self.spec_idx()))),
        ensures
            final(fe).wf(),
            final(fe).spec_backend().key() == old(fe).spec_backend().key(),
            final(assertions).inv(final(fe).model()),
            final(assertions).all_held() == (old(assertions).all_held() && self.value(old(fe).model())),
            final(assertions).spec_acc() is Some,
    {
        assertions.assert_holds(self, fe);
    }
}

} // verus!
