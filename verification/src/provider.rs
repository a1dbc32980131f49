//! Provider of block executors sharing one strategy-factory configuration.

use vstd::prelude::*;

verus! {

/// A factory for block executors: every executor it creates shares the same
/// strategy-factory configuration.
#[derive(Debug, Clone)]
pub struct AltiusBlockExecutorProvider<F> {
    /// The strategy factory applied to every executor created here.
    strategy_factory: F,
}

impl<F> AltiusBlockExecutorProvider<F> {
    /// The strategy factory this provider was built with.
    pub closed spec fn factory(&self) -> F {
        self.strategy_factory
    }

    /// Creates a provider that will configure every executor with the given
    /// strategy factory.
    pub fn new(strategy_factory: F) -> (r: Self)
        ensures
            r.factory() == strategy_factory,
    {
        AltiusBlockExecutorProvider { strategy_factory }
    }
}

} // verus!
