//! How many processor slots each conversion task may use.

use vstd::prelude::*;

verus! {

/// The budget of one task when `total` slots are shared by `tasks` tasks:
/// the whole part of `total / tasks`, and never less than one slot.
pub open spec fn budget_of(total: nat, tasks: nat) -> nat
    recommends
        tasks > 0,
{
    if total / tasks == 0 {
        1
    } else {
        total / tasks
    }
}

/// Divides `total` parallel slots evenly among `tasks` conversion tasks.
///
/// A task is never left without a slot: where there are more tasks than slots
/// each task still gets one, and the machine is oversubscribed.
pub fn per_task_budget(total: usize, tasks: usize) -> (budget: usize)
    requires
        tasks > 0,
    ensures
        budget == budget_of(total as nat, tasks as nat),
        budget >= 1,
        budget * tasks <= total || budget == 1,
{
    let share = total / tasks;
    if share == 0 {
        1
    } else {
        proof {
            vstd::arithmetic::div_mod::lemma_fundamental_div_mod(total as int, tasks as int);
            vstd::arithmetic::mul::lemma_mul_is_commutative(share as int, tasks as int);
        }
        share
    }
}

/// Calls `rayon::current_num_threads`: the number of worker threads of the
/// thread pool that the caller runs in, or of the global pool otherwise.
///
/// The number depends on the machine and on how the pool was set up, so nothing is
/// stated of it. The call starts the global pool where none runs yet, and
/// rayon panics if that pool cannot be started.
#[verifier::external_body]
fn pool_threads() -> usize {
    rayon::current_num_threads()
}

/// The budget of one of `tasks` tasks on this machine, with the slots that
/// the thread pool offers.
pub fn available_budget(tasks: usize) -> (budget: usize)
    requires
        tasks > 0,
    ensures
        exists|total: nat| budget == #[trigger] budget_of(total, tasks as nat),
        budget >= 1,
{
    let total = pool_threads();
    let budget = per_task_budget(total, tasks);
    assert(budget == budget_of(total as nat, tasks as nat));
    budget
}

} // verus!
