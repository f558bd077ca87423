//! Execution of circuits on plain words.
use crate::backend::frontend::Frontend;
use crate::backend::hook::{BackendHook, Hooked};
use crate::backend::backend::Backend;
use crate::circuit::circuit::Circuit;
use crate::executor::backend::ExecutionBackend;
use crate::executor::options::ExecOptions;
use crate::executor::word_pool::WordPool;
use crate::word::words::Words;
use vstd::prelude::*;

verus! {

/// Executes the circuit on plain words, with the hook of the options, and returns the output
/// words it pushed, per word type in order.
pub fn exec<C: Circuit, WP: WordPool, BH: BackendHook>(circuit: &C, options: ExecOptions<BH>) -> (r: Words)
    ensures
        exists|b: ExecutionBackend<WP>| #[trigger] b.finalized((), r),
{
    let hook = BH::new(options.hook_arg());
    let mut executor = Frontend::wrap(Hooked::new(hook, ExecutionBackend::<WP>::new()));
    circuit.exec(&mut executor);
    let ghost b = executor.spec_backend().spec_inner();
    executor.finalize_with_arg(())
}

} // verus!
