//! Options of the computation of the challenge.
use crate::backend::hook::{BackendHook, NoHook, Reusable};
use crate::crypto::hasher::Digest;
use crate::crypto::prg::Seed;
use crate::prover::views::collectors::{ViewCommitmentsRelayer, ViewsDataCollector};
use vstd::prelude::*;

verus! {

/// Options of the computation of the challenge: the constructor arguments of the views data
/// collector and of the hook of each iteration.
pub struct ChallengeOptions<D: Digest, S: Seed, VDC: ViewsDataCollector<D, S>, BH: BackendHook> {
    collector_init_arg: VDC::InitArg,
    hook_init_arg: BH::InitArg,
    marker: Ghost<(D, S)>,
}

impl<D: Digest, S: Seed> ChallengeOptions<D, S, ViewCommitmentsRelayer<D, S>, NoHook> {
    /// Options relaying the commitments, with no hook.
    pub fn new() -> (r: Self) {
        ChallengeOptions { collector_init_arg: (), hook_init_arg: (), marker: Ghost(vstd::pervasive::arbitrary()) }
    }
}

impl<D: Digest, S: Seed, VDC: ViewsDataCollector<D, S>, BH: BackendHook> ChallengeOptions<D, S, VDC, BH> {
    /// The constructor argument of the collector.
    pub closed spec fn spec_collector_arg(self) -> VDC::InitArg {
        self.collector_init_arg
    }

    /// The constructor argument of the hook.
    pub closed spec fn spec_hook_arg(self) -> BH::InitArg {
        self.hook_init_arg
    }

    /// These options with another collector, of the given constructor argument.
    pub fn with_collector_arg<VDC2: ViewsDataCollector<D, S>>(self, arg: VDC2::InitArg) -> (r: ChallengeOptions<D, S, VDC2, BH>)
        ensures
            r.spec_collector_arg() == arg,
            r.spec_hook_arg() == self.spec_hook_arg(),
    {
        ChallengeOptions { collector_init_arg: arg, hook_init_arg: self.hook_init_arg, marker: Ghost(vstd::pervasive::arbitrary()) }
    }

    /// These options with another hook, of the given constructor argument.
    pub fn with_hook_arg<BH2: BackendHook>(self, arg: BH2::InitArg) -> (r: ChallengeOptions<D, S, VDC, BH2>)
        ensures
            r.spec_collector_arg() == self.spec_collector_arg(),
            r.spec_hook_arg() == arg,
    {
        ChallengeOptions { collector_init_arg: self.collector_init_arg, hook_init_arg: arg, marker: Ghost(vstd::pervasive::arbitrary()) }
    }

    /// The constructor argument of the collector.
    pub fn collector_arg(&self) -> (r: VDC::InitArg)
        ensures
            r == self.spec_collector_arg(),
    {
        self.collector_init_arg.duplicate()
    }

    /// The constructor argument of the hook.
    pub fn hook_arg(&self) -> (r: BH::InitArg)
        ensures
            r == self.spec_hook_arg(),
    {
        self.hook_init_arg.duplicate()
    }
}

} // verus!
