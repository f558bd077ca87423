//! Circuits: programs run on the words of a backend through a frontend.
use crate::backend::backend::{unreferenced, Backend};
use crate::backend::frontend::Frontend;
use vstd::prelude::*;

verus! {

/// Circuits, implemented by the users of the library: a circuit runs its operations on the
/// words of a backend through the given frontend, leaving the backend well formed and, where
/// no word was referenced before, every word reference it obtained consumed or released.
pub trait Circuit {
    /// Runs the circuit on the given frontend.
    fn exec<B: Backend>(&self, frontend: &mut Frontend<B>)
        requires
            old(frontend).wf(),
        ensures
            final(frontend).wf(),
            final(frontend).spec_backend().key() == old(frontend).spec_backend().key(),
            unreferenced(old(frontend).model()) ==> unreferenced(final(frontend).model()),
    ;
}

} // verus!
