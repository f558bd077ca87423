//! Building the views of the three parties for a circuit.
use crate::backend::backend::Backend;
use crate::circuit::circuit::Circuit;
use crate::crypto::hasher::Hasher;
use crate::crypto::prg::{PseudoRandomGenerator, Seed};
use crate::prover::views::backend::ViewBuilderBackend;
use crate::prover::views::collectors::{OwnedViewsDataCollector, ViewCommitmentsRelayer, ViewsDataCollector};
use crate::prover::views::view::{ViewCommitment, Views};
use crate::prover::views::word_pool::WordTriplePool;
use vstd::prelude::*;

verus! {

/// Runs the circuit on a view builder with the given seeds and collector, and returns what the
/// collector makes of the views: the finalization of a view builder set up with those seeds.
pub fn build_views_custom<C: Circuit, H: Hasher, PV: PseudoRandomGenerator, S: Seed, VDC: ViewsDataCollector<H::Digest, S>, WTP: WordTriplePool>(
    circuit: &C,
    seeds: [S; 3],
    collector_init_arg: VDC::InitArg,
) -> (r: VDC::FinalizeRes)
    ensures
        exists|b: ViewBuilderBackend<H, PV, S, VDC, WTP>| b.key() == (seeds, collector_init_arg) && #[trigger] b.finalized((), r),
{
    let ghost arg = collector_init_arg;
    let mut view_builder = ViewBuilderBackend::<H, PV, S, VDC, WTP>::new_with_arg(seeds, collector_init_arg).into_view_builder();
    circuit.exec(&mut view_builder);
    let ghost b = view_builder.spec_backend();
    let r = view_builder.finalize_with_arg(());
    proof {
        assert(b.key() == (seeds, arg) && b.finalized((), r));
    }
    r
}

/// Runs the circuit on a view builder with the given seeds, and returns the views, which carry
/// those seeds.
pub fn build_views<C: Circuit, H: Hasher, PV: PseudoRandomGenerator, S: Seed, WTP: WordTriplePool>(circuit: &C, seeds: [S; 3]) -> (r: Views<H::Digest, S>)
    ensures
        r.spec_seeds() == seeds,
        exists|b: ViewBuilderBackend<H, PV, S, OwnedViewsDataCollector<H::Digest, S>, WTP>| b.key().0 == seeds && #[trigger] b.finalized((), r),
{
    build_views_custom::<C, H, PV, S, OwnedViewsDataCollector<H::Digest, S>, WTP>(circuit, seeds, ())
}

/// Runs the circuit on a view builder with the given seeds, and returns the commitments of the
/// views.
pub fn build_view_commitments<C: Circuit, H: Hasher, PV: PseudoRandomGenerator, S: Seed, WTP: WordTriplePool>(circuit: &C, seeds: [S; 3]) -> (r: [ViewCommitment<H::Digest>; 3])
    ensures
        exists|b: ViewBuilderBackend<H, PV, S, ViewCommitmentsRelayer<H::Digest, S>, WTP>| b.key().0 == seeds && #[trigger] b.committed(r),
{
    build_views_custom::<C, H, PV, S, ViewCommitmentsRelayer<H::Digest, S>, WTP>(circuit, seeds, ())
}

} // verus!
