//! Collectors of words.
use crate::executor::backend::out_vals;
use crate::word::by_word_type::is_word_width;
use crate::word::composite::{CompositeWord, WordLike};
use crate::word::word::Word;
use crate::word::words::Words;
use vstd::prelude::*;

verus! {

/// The values of the words of a composite word.
pub open spec fn word_vals<W: Word, const N: usize>(c: CompositeWord<W, N>) -> Seq<nat> {
    c.words().map_values(|x: W| x.value())
}

/// The two logs of pushed words have the same shape: entry by entry, the same width and the
/// same number of words.
pub open spec fn same_shape(l1: Seq<(nat, Seq<nat>)>, l2: Seq<(nat, Seq<nat>)>) -> bool {
    &&& l1.len() == l2.len()
    &&& forall|i: int| #![trigger l1[i], l2[i]] 0 <= i < l1.len() ==> l1[i].0 == l2[i].0 && l1[i].1.len() == l2[i].1.len()
}

/// Logs of the same shape hold as many words of each width.
pub proof fn lemma_same_shape_len(l1: Seq<(nat, Seq<nat>)>, l2: Seq<(nat, Seq<nat>)>, w: nat)
    requires
        same_shape(l1, l2),
    ensures
        out_vals(l1, w).len() == out_vals(l2, w).len(),
    decreases l1.len(),
{
    if l1.len() > 0 {
        assert(same_shape(l1.drop_last(), l2.drop_last())) by {
            assert forall|i: int| #![trigger l1.drop_last()[i], l2.drop_last()[i]] 0 <= i < l1.drop_last().len() implies l1.drop_last()[i].0 == l2.drop_last()[i].0
                && l1.drop_last()[i].1.len() == l2.drop_last()[i].1.len() by {
                assert(l1[i].0 == l2[i].0 && l1[i].1.len() == l2[i].1.len());
            }
        }
        lemma_same_shape_len(l1.drop_last(), l2.drop_last(), w);
        assert(l1.last().0 == l2.last().0 && l1.last().1.len() == l2.last().1.len()) by {
            assert(l1[l1.len() - 1].0 == l2[l1.len() - 1].0);
        }
    }
}

/// Word stores holding the words of logs of the same shape have the same shape.
pub proof fn lemma_same_shape_words(a: Words, b: Words, l1: Seq<(nat, Seq<nat>)>, l2: Seq<(nat, Seq<nat>)>)
    requires
        same_shape(l1, l2),
        forall|w: nat| is_word_width(w) ==> #[trigger] a.vals(w) == out_vals(l1, w),
        forall|w: nat| is_word_width(w) ==> #[trigger] b.vals(w) == out_vals(l2, w),
    ensures
        a.spec_shape() == b.spec_shape(),
{
    lemma_same_shape_len(l1, l2, 8);
    lemma_same_shape_len(l1, l2, 16);
    lemma_same_shape_len(l1, l2, 32);
    lemma_same_shape_len(l1, l2, 64);
    lemma_same_shape_len(l1, l2, 128);
    assert(a.vals(8).len() == b.vals(8).len());
    assert(a.vals(16).len() == b.vals(16).len());
    assert(a.vals(32).len() == b.vals(32).len());
    assert(a.vals(64).len() == b.vals(64).len());
    assert(a.vals(128).len() == b.vals(128).len());
}

/// Pushing words of one type and number on logs of the same shape keeps them so.
pub proof fn lemma_same_shape_push(l1: Seq<(nat, Seq<nat>)>, l2: Seq<(nat, Seq<nat>)>, e1: (nat, Seq<nat>), e2: (nat, Seq<nat>))
    requires
        same_shape(l1, l2),
        e1.0 == e2.0,
        e1.1.len() == e2.1.len(),
    ensures
        same_shape(l1.push(e1), l2.push(e2)),
{
    assert forall|i: int| #![trigger l1.push(e1)[i], l2.push(e2)[i]] 0 <= i < l1.push(e1).len() implies l1.push(e1)[i].0 == l2.push(e2)[i].0 && l1.push(e1)[i].1.len() == l2.push(e2)[i].1.len() by {
        if i < l1.len() {
            assert(l1[i].0 == l2[i].0 && l1[i].1.len() == l2[i].1.len());
        }
    }
}

/// Collectors of words, in the order they are pushed.
pub trait WordCollector: Sized {
    /// The result of finalization.
    type FinalizeResult;

    /// The words pushed so far, as pairs of a width and the values of the words of a
    /// composite word.
    spec fn pushed(&self) -> Seq<(nat, Seq<nat>)>;

    /// Well-formedness.
    spec fn inv(&self) -> bool;

    /// Whether `r` is the result of finalizing the collector `c`.
    spec fn finalized(c: Self, r: Self::FinalizeResult) -> bool;

    /// A collector with nothing collected.
    fn empty() -> (r: Self)
        ensures
            r.inv(),
            r.pushed() == Seq::<(nat, Seq<nat>)>::empty(),
    ;

    /// Pushes a (composite) word.
    fn push<W: Word, const N: usize, U: WordLike<W, N>>(&mut self, word: U)
        requires
            old(self).inv(),
        ensures
            final(self).inv(),
            final(self).pushed() == old(self).pushed().push((W::spec_width(), word_vals(word.as_word()))),
    ;

    /// Finalizes the collector.
    fn finalize(self) -> (r: Self::FinalizeResult)
        requires
            self.inv(),
        ensures
            Self::finalized(self, r),
    ;
}

/// Collector pushing the words into an owned word store, composite words flattened into their
/// words, least significant first.
pub struct OwnedWordCollector {
    words: Words,
    log: Ghost<Seq<(nat, Seq<nat>)>>,
}

impl OwnedWordCollector {
    /// The store holds the values of the words pushed, per word type, in order.
    pub closed spec fn wf(self) -> bool {
        forall|w: nat| is_word_width(w) ==> #[trigger] self.words.vals(w) == out_vals(self.log@, w)
    }

    /// The words collected.
    pub closed spec fn spec_words(self) -> Words {
        self.words
    }

    /// The store of a well-formed collector holds the words pushed.
    pub proof fn lemma_words(self)
        requires
            self.wf(),
        ensures
            forall|w: nat| is_word_width(w) ==> #[trigger] self.spec_words().vals(w) == out_vals(self.pushed(), w),
    {
    }

    /// Creates a collector with nothing collected.
    pub fn new() -> (r: Self)
        ensures
            r.wf(),
            r.pushed() == Seq::<(nat, Seq<nat>)>::empty(),
    {
        let r = OwnedWordCollector { words: Words::new(), log: Ghost(Seq::empty()) };
        proof {
            assert forall|w: nat| is_word_width(w) implies #[trigger] r.words.vals(w) == out_vals(r.log@, w) by {
                assert(r.words.vals(w) =~= Seq::<nat>::empty());
            }
        }
        r
    }

    /// Creates a collector whose store starts with the given words.
    pub fn wrap(words: Words) -> (r: Self)
        ensures
            r.spec_words() == words,
            r.pushed() == Seq::<(nat, Seq<nat>)>::empty(),
    {
        OwnedWordCollector { words, log: Ghost(Seq::empty()) }
    }

    /// The words collected.
    pub fn words(&self) -> (r: &Words)
        ensures
            *r == self.spec_words(),
    {
        &self.words
    }
}

impl WordCollector for OwnedWordCollector {
    type FinalizeResult = Words;

    closed spec fn pushed(&self) -> Seq<(nat, Seq<nat>)> {
        self.log@
    }

    open spec fn inv(&self) -> bool {
        self.wf()
    }

    /// For each word type, the values of the words of that type pushed, in order.
    open spec fn finalized(c: Self, r: Words) -> bool {
        forall|w: nat| is_word_width(w) ==> #[trigger] r.vals(w) == out_vals(c.pushed(), w)
    }

    fn empty() -> (r: Self) {
        Self::new()
    }

    fn push<W: Word, const N: usize, U: WordLike<W, N>>(&mut self, word: U) {
        let c = word.to_word();
        let ws = c.to_le_words();
        let ghost start = *self;
        let ghost vs = word_vals(c);
        proof {
            W::lemma_width();
            W::lemma_with_vec(self.words, W::vec_in(self.words));
        }
        let mut k: usize = 0;
        while k < N
            invariant
                k <= N,
                ws@ == c.words(),
                vs == word_vals(c),
                vs.len() == N,
                is_word_width(W::spec_width()),
                self.log == start.log,
                self.words.vals(W::spec_width()) == start.words.vals(W::spec_width()) + vs.subrange(0, k as int),
                forall|v: nat| is_word_width(v) && v != W::spec_width() ==> #[trigger] self.words.vals(v) == start.words.vals(v),
            decreases N - k,
        {
            let ghost before = self.words;
            proof {
                W::lemma_with_vec(before, W::vec_in(before));
            }
            let v = self.words.as_vec_mut::<W>();
            v.push(ws[k]);
            proof {
                W::lemma_with_vec(before, *v);
                W::lemma_with_vec(self.words, W::vec_in(self.words));
                assert(self.words.vals(W::spec_width()) =~= before.vals(W::spec_width()).push(ws@[k as int].value()));
                assert(vs.subrange(0, k + 1) =~= vs.subrange(0, k as int).push(vs[k as int]));
            }
            k = k + 1;
        }
        self.log = Ghost(self.log@.push((W::spec_width(), vs)));
        proof {
            assert(vs.subrange(0, N as int) =~= vs);
            assert forall|v: nat| is_word_width(v) implies #[trigger] self.words.vals(v) == out_vals(self.log@, v) by {
                assert(self.log@.drop_last() =~= start.log@);
                assert(start.words.vals(v) == out_vals(start.log@, v));
            }
        }
    }

    /// The collected words.
    fn finalize(self) -> (r: Words) {
        self.words
    }
}

/// Collector discarding the words pushed.
pub struct WordDiscarder {
    log: Ghost<Seq<(nat, Seq<nat>)>>,
}

impl WordDiscarder {
    /// Creates a discarder.
    pub fn new() -> (r: Self)
        ensures
            r.pushed() == Seq::<(nat, Seq<nat>)>::empty(),
    {
        WordDiscarder { log: Ghost(Seq::empty()) }
    }
}

impl WordCollector for WordDiscarder {
    type FinalizeResult = ();

    closed spec fn pushed(&self) -> Seq<(nat, Seq<nat>)> {
        self.log@
    }

    open spec fn inv(&self) -> bool {
        true
    }

    open spec fn finalized(c: Self, r: ()) -> bool {
        true
    }

    fn empty() -> (r: Self) {
        Self::new()
    }

    fn push<W: Word, const N: usize, U: WordLike<W, N>>(&mut self, word: U) {
        self.log = Ghost(self.log@.push((W::spec_width(), word_vals(word.as_word()))));
    }

    /// Nothing.
    fn finalize(self) {
    }
}

} // verus!
