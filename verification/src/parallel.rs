//! The process-wide worker pool, and the tasks the engine submits to it.
//!
//! The pool is configured at most once per process; a later request is
//! answered with a typed status and leaves the live pool untouched. The one
//! kind of task the engine submits is an independent elementwise division,
//! used to derive coefficient matrices.

use vstd::prelude::*;
use crate::rational::Rat;
use crate::rational::pdiv;
use crate::rational::fits;
use crate::rational::peq;
use rayon::iter::IntoParallelRefIterator;
use rayon::iter::ParallelIterator;

verus! {

/// Configuration state of the process-wide worker pool.
#[derive(Clone, Copy, Debug, PartialEq, Eq, Structural)]
pub enum PoolState {
    Uninitialized,
    Configured(usize),
}

/// Typed outcome of a configuration request.
#[derive(Clone, Copy, Debug, PartialEq, Eq, Structural)]
pub enum PoolStatus {
    /// The pool was installed with this many threads.
    Installed(usize),
    /// The pool had already been configured with this many threads; the
    /// request changed nothing.
    AlreadyConfigured(usize),
    /// The host process already holds a global pool this engine did not
    /// install; the request changed nothing.
    Unavailable,
}

/// Relies on num_cpus::get: the number of logical processors, at least 1.
#[verifier::external_body]
fn available_parallelism() -> (r: usize)
    ensures
        r >= 1,
{
    num_cpus::get()
}

/// Relies on rayon's ThreadPoolBuilder::build_global: installs the global
/// pool with the given thread count, reporting failure if a global pool was
/// already initialized. Nothing is assumed of the outcome.
#[verifier::external_body]
fn install_global_pool(threads: usize) -> (r: bool) {
    rayon::ThreadPoolBuilder::new().num_threads(threads).build_global().is_ok()
}

/// Configure the worker pool: the one transition of the state machine
/// `Uninitialized -> Configured(threads)`.
///
/// Requesting `0` threads asks for every available processor. The first call
/// installs the pool and reports the thread count; any later call leaves the
/// configuration untouched and reports the count that is already live.
pub fn set_max_threads(state: PoolState, max_threads: usize) -> (r: (PoolState, PoolStatus))
    ensures
        state matches PoolState::Configured(t) ==> r.0 == state && r.1
            == PoolStatus::AlreadyConfigured(t),
        state is Uninitialized ==> ((r.1 matches PoolStatus::Installed(t) && r.0
            == PoolState::Configured(t) && t >= 1 && (max_threads != 0 ==> t == max_threads)) || (
        r.1 is Unavailable && r.0 == state)),
{
    match state {
        PoolState::Uninitialized => {
            let threads: usize = if max_threads == 0 {
                available_parallelism()
            } else {
                max_threads
            };
            if install_global_pool(threads) {
                (PoolState::Configured(threads), PoolStatus::Installed(threads))
            } else {
                (PoolState::Uninitialized, PoolStatus::Unavailable)
            }
        },
        PoolState::Configured(t) => (PoolState::Configured(t), PoolStatus::AlreadyConfigured(t)),
    }
}

/// Report the live thread count, or `None` before any configuration.
pub fn get_parallelism_settings(state: PoolState) -> (r: Option<usize>)
    ensures
        (state is Uninitialized) <==> (r is None),
        state matches PoolState::Configured(t) ==> r == Some(t),
{
    match state {
        PoolState::Uninitialized => None,
        PoolState::Configured(t) => Some(t),
    }
}

/// What one checked division hands back, exactly as `Rat::checked_div`
/// promises it: a returned value denotes the exact quotient, a zero divisor
/// fails, and a quotient whose pair fits the scalar range is returned.
pub open spec fn div_outcome(a: Rat, b: Rat, r: Option<Rat>) -> bool {
    &&& (r matches Some(v) ==> v.wf() && peq(v@, pdiv(a@, b@)))
    &&& (b@.0 == 0 ==> r is None)
    &&& (b@.0 != 0 && fits(pdiv(a@, b@)) ==> r is Some)
}

/// Relies on rayon's `par_iter().map(..).collect()`: the closure is applied
/// to each element on the worker pool and the results are collected in the
/// input's order. The closure only calls the verified `Rat::checked_div`.
#[verifier::external_body]
pub(crate) fn par_div_by(nums: &Vec<Rat>, d: &Rat) -> (r: Vec<Option<Rat>>)
    requires
        crate::matrix::rats_wf(nums@),
        d.wf(),
    ensures
        r@.len() == nums@.len(),
        forall|i: int| 0 <= i < r@.len() ==> div_outcome(nums@[i], *d, #[trigger] r@[i]),
{
    nums.par_iter().map(|a| a.checked_div(d)).collect()
}

} // verus!
