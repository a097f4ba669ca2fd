//! Parallel traversal and construction on top of the sequential table.
use vstd::prelude::*;

pub mod map;
pub mod set;
pub mod table;

verus! {

/// `rayon::join` runs both closures, possibly on two threads, and returns the
/// pair of their results; the contract claims nothing else of it.
pub assume_specification<A, B, RA, RB>[ rayon::join::<A, B, RA, RB> ](oper_a: A, oper_b: B) -> (r: (
    RA,
    RB,
))
    where
        A: FnOnce() -> RA + Send,
        B: FnOnce() -> RB + Send,
        RA: Send,
        RB: Send,
    requires
        call_requires(oper_a, ()),
        call_requires(oper_b, ()),
    ensures
        call_ensures(oper_a, (), r.0),
        call_ensures(oper_b, (), r.1),
;

/// `rayon::current_num_threads` reports the size of the thread pool in use; the
/// number depends on the machine, so nothing is claimed of it.
pub assume_specification[ rayon::current_num_threads ]() -> (n: usize)
;

/// `num_cpus::get` reports how many processors the machine offers to this process;
/// the number depends on the machine, so nothing is claimed of it.
pub assume_specification[ num_cpus::get ]() -> (n: usize)
;

} // verus!
