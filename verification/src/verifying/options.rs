//! Options of the verification of proofs.
use crate::backend::hook::{BackendHook, NoHook, Reusable};
use vstd::prelude::*;

verus! {

/// Options of a verification: the argument of the hook's constructor.
pub struct VerifyOptions<BH: BackendHook> {
    hook_init_arg: BH::InitArg,
}

impl VerifyOptions<NoHook> {
    /// Options with no hook.
    pub fn new() -> (r: Self) {
        VerifyOptions { hook_init_arg: () }
    }
}

impl<BH: BackendHook> VerifyOptions<BH> {
    /// The argument of the hook's constructor.
    pub closed spec fn spec_hook_arg(self) -> BH::InitArg {
        self.hook_init_arg
    }

    /// These options with another hook, of the given constructor argument.
    pub fn with_hook_arg<BH2: BackendHook>(self, arg: BH2::InitArg) -> (r: VerifyOptions<BH2>)
        ensures
            r.spec_hook_arg() == arg,
    {
        VerifyOptions { hook_init_arg: arg }
    }

    /// The argument of the hook's constructor.
    pub fn hook_arg(&self) -> (r: BH::InitArg)
        ensures
            r == self.spec_hook_arg(),
    {
        self.hook_init_arg.duplicate()
    }
}

} // verus!
