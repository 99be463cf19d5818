//! The configurations that a benchmark sweep runs.

use crate::def::Context;
use vstd::prelude::*;

verus! {

/// How often a benchmark sweep builds the tree of each configuration.
pub const BENCHMARK_RUNS: usize = 10;

/// The colour and pin counts of a benchmark sweep, in the order they run.
pub open spec fn benchmark_sizes() -> Seq<(u8, u8)> {
    seq![(2u8, 2u8), (4u8, 2u8), (4u8, 4u8), (6u8, 2u8), (6u8, 4u8)]
}

/// The configuration of a benchmark sweep with the given sizes.
pub open spec fn benchmark_context(context: &Context, sizes: (u8, u8)) -> Context {
    Context {
        color_num: sizes.0,
        pin_num: sizes.1,
        duplicate: context.duplicate,
        policy: context.policy,
        mode: context.mode,
    }
}

/// Lists the configurations of a benchmark sweep: the fixed sizes, each
/// with the duplicate rule, the policy and the mode of `context`.
pub fn benchmark_contexts(context: &Context) -> (contexts: Vec<Context>)
    ensures
        contexts.len() == benchmark_sizes().len(),
        forall|i: int|
            0 <= i < contexts.len() ==> contexts[i] == benchmark_context(
                context,
                benchmark_sizes()[i],
            ),
{
    let sizes: [(u8, u8); 5] = [(2, 2), (4, 2), (4, 4), (6, 2), (6, 4)];
    let mut contexts: Vec<Context> = Vec::new();
    let mut i: usize = 0;
    while i < 5
        invariant
            i <= 5,
            contexts.len() == i,
            sizes@ == benchmark_sizes(),
            forall|j: int|
                0 <= j < i ==> contexts[j] == benchmark_context(context, benchmark_sizes()[j]),
        decreases 5 - i,
    {
        contexts.push(
            Context {
                color_num: sizes[i].0,
                pin_num: sizes[i].1,
                duplicate: context.duplicate,
                policy: context.policy,
                mode: context.mode,
            },
        );
        i = i + 1;
    }
    contexts
}

} // verus!
