//! Options of the building of proofs.
use crate::backend::hook::{BackendHook, NoHook, Reusable};
use crate::crypto::hasher::Digest;
use crate::crypto::prg::Seed;
use crate::prover::proofs::collectors::{OwnedResponseDataCollector, ResponseDataCollector};
use crate::word::by_word_type::{ByWordType, Shape};
use vstd::prelude::*;

verus! {

/// Options of the building of a proof: the constructor arguments of the response data
/// collector and of the hook of each iteration, and a hint of the number of words of each type
/// that the views hold.
pub struct ProofOptions<D: Digest, S: Seed, RDC: ResponseDataCollector<D, S>, BH: BackendHook> {
    collector_init_arg: RDC::InitArg,
    hook_init_arg: BH::InitArg,
    capacity: Shape,
    marker: Ghost<(D, S)>,
}

impl<D: Digest, S: Seed> ProofOptions<D, S, OwnedResponseDataCollector<D, S>, NoHook> {
    /// Options collecting responses, with no hook and no capacity hint.
    pub fn new() -> (r: Self)
        ensures
            r.spec_capacity() == ByWordType::<usize>::spec_zero(),
    {
        ProofOptions { collector_init_arg: (), hook_init_arg: (), capacity: ByWordType::zero(), marker: Ghost(vstd::pervasive::arbitrary()) }
    }
}

impl<D: Digest, S: Seed, RDC: ResponseDataCollector<D, S>, BH: BackendHook> ProofOptions<D, S, RDC, BH> {
    /// The constructor argument of the collector.
    pub closed spec fn spec_collector_arg(self) -> RDC::InitArg {
        self.collector_init_arg
    }

    /// The constructor argument of the hook.
    pub closed spec fn spec_hook_arg(self) -> BH::InitArg {
        self.hook_init_arg
    }

    /// The capacity hint.
    pub closed spec fn spec_capacity(self) -> Shape {
        self.capacity
    }

    /// These options with another collector, of the given constructor argument.
    pub fn with_collector_arg<RDC2: ResponseDataCollector<D, S>>(self, arg: RDC2::InitArg) -> (r: ProofOptions<D, S, RDC2, BH>)
        ensures
            r.spec_collector_arg() == arg,
            r.spec_hook_arg() == self.spec_hook_arg(),
            r.spec_capacity() == self.spec_capacity(),
    {
        ProofOptions { collector_init_arg: arg, hook_init_arg: self.hook_init_arg, capacity: self.capacity, marker: Ghost(vstd::pervasive::arbitrary()) }
    }

    /// These options with another hook, of the given constructor argument.
    pub fn with_hook_arg<BH2: BackendHook>(self, arg: BH2::InitArg) -> (r: ProofOptions<D, S, RDC, BH2>)
        ensures
            r.spec_collector_arg() == self.spec_collector_arg(),
            r.spec_hook_arg() == arg,
            r.spec_capacity() == self.spec_capacity(),
    {
        ProofOptions { collector_init_arg: self.collector_init_arg, hook_init_arg: arg, capacity: self.capacity, marker: Ghost(vstd::pervasive::arbitrary()) }
    }

    /// These options with the given capacity hint.
    pub fn with_capacity(self, capacity: Shape) -> (r: Self)
        ensures
            r.spec_collector_arg() == self.spec_collector_arg(),
            r.spec_hook_arg() == self.spec_hook_arg(),
            r.spec_capacity() == capacity,
    {
        ProofOptions { collector_init_arg: self.collector_init_arg, hook_init_arg: self.hook_init_arg, capacity, marker: self.marker }
    }

    /// The constructor argument of the collector.
    pub fn collector_arg(&self) -> (r: RDC::InitArg)
        ensures
            r == self.spec_collector_arg(),
    {
        self.collector_init_arg.duplicate()
    }

    /// The constructor argument of the hook.
    pub fn hook_arg(&self) -> (r: BH::InitArg)
        ensures
            r == self.spec_hook_arg(),
    {
        self.hook_init_arg.duplicate()
    }

    /// The capacity hint.
    pub fn capacity(&self) -> (r: &Shape)
        ensures
            *r == self.spec_capacity(),
    {
        &self.capacity
    }
}

} // verus!
