//! A piece of work that can be run once: the unit that deferred computations store.
use vstd::prelude::*;

verus! {

/// Work that yields a `Result` when run, once.
///
/// Its only implementation is the one below, for closures; `ready` and `outcome`
/// are then the closure's own precondition and postcondition.
pub trait Task<T, E>: Send {
    /// The work may be started.
    spec fn ready(&self) -> bool;

    /// `r` is a result that running the work can give.
    spec fn outcome(&self, r: Result<T, E>) -> bool;

    /// Runs the work.
    fn run(self: Box<Self>) -> (r: Result<T, E>)
        requires
            self.ready(),
        ensures
            self.outcome(r),
    ;
}

impl<T, E, F: FnOnce() -> Result<T, E> + Send> Task<T, E> for F {
    open spec fn ready(&self) -> bool {
        call_requires(*self, ())
    }

    open spec fn outcome(&self, r: Result<T, E>) -> bool {
        call_ensures(*self, (), r)
    }

    fn run(self: Box<Self>) -> (r: Result<T, E>) {
        (*self)()
    }
}

} // verus!
