//! Typed indices of words in a backend's state.
use crate::word::word::Word;
use vstd::prelude::*;

verus! {

/// Index of a (composite) word of `N` words of type `W` in a backend's state: the positions
/// of its words among the words of the same type, least significant first.
#[derive(Clone, Copy)]
pub struct WordIdx<W: Word, const N: usize> {
    idxs: [usize; N],
    _marker: Ghost<W>,
}

impl<W: Word, const N: usize> WordIdx<W, N> {
    /// The positions of the words of this index.
    pub closed spec fn spec_idxs(self) -> Seq<usize> {
        self.idxs@
    }

    /// The positions of an index are `N` in number.
    pub proof fn lemma_len(self)
        ensures
            self.spec_idxs().len() == N,
    {
    }

    /// Creates an index from the positions of its words.
    pub fn new(idxs: [usize; N]) -> (r: Self)
        ensures
            r.spec_idxs() == idxs@,
    {
        WordIdx { idxs, _marker: Ghost(vstd::pervasive::arbitrary()) }
    }

    /// The positions of the words of this index.
    pub fn as_array(&self) -> (r: &[usize; N])
        ensures
            r@ == self.spec_idxs(),
    {
        &self.idxs
    }

    /// The positions of the words of this index.
    pub fn into_array(self) -> (r: [usize; N])
        ensures
            r@ == self.spec_idxs(),
    {
        self.idxs
    }
}

} // verus!
