//! Carrying out the plan of a realization, step by step.

use crate::failure::{failure, failure_of, Fault, RealizeError};
use crate::wiring::Step;
use vstd::prelude::*;

verus! {

/// Whether carrying out the first `n` steps one after the other, starting
/// from `initial`, may succeed and lead to `state`.
pub open spec fn carried_out<S, F: Fn(S, &Step) -> Result<S, Fault>>(
    perform: F,
    initial: S,
    steps: Seq<Step>,
    n: int,
    state: S,
) -> bool
    decreases n,
{
    if n <= 0 {
        state == initial
    } else {
        exists|before: S|
            carried_out(perform, initial, steps, n - 1, before) && #[trigger] call_ensures(
                perform,
                (before, &steps[n - 1]),
                Ok::<S, Fault>(state),
            )
    }
}

/// Whether carrying out the steps one after the other, starting from
/// `initial`, may succeed up to step `i`, which then fails with `fault`.
pub open spec fn fails_at<S, F: Fn(S, &Step) -> Result<S, Fault>>(
    perform: F,
    initial: S,
    steps: Seq<Step>,
    i: int,
    fault: Fault,
) -> bool {
    exists|before: S|
        carried_out(perform, initial, steps, i, before) && #[trigger] call_ensures(
            perform,
            (before, &steps[i]),
            Err::<S, Fault>(fault),
        )
}

/// Realizes a plan: `perform` carries out the steps in their order, each on
/// what the steps before it have built, starting from `initial`.
///
/// What stands after the last step is returned. The first fault ends the
/// realization: no further step is carried out, and the fault is reported
/// as the failure of its step. What had been built by then was handed to
/// the failing step and is gone with it.
pub fn realize<S, F: Fn(S, &Step) -> Result<S, Fault>>(
    initial: S,
    steps: &Vec<Step>,
    perform: F,
) -> (result: Result<S, RealizeError>)
    requires
        forall|state: S, step: &Step| #[trigger] call_requires(perform, (state, step)),
    ensures
        match result {
            Ok(state) => carried_out(perform, initial, steps@, steps@.len() as int, state),
            Err(error) => exists|i: int, fault: Fault|
                #![trigger fails_at(perform, initial, steps@, i, fault)]
                {
                    &&& 0 <= i < steps@.len()
                    &&& fails_at(perform, initial, steps@, i, fault)
                    &&& error@ == failure_of(steps@[i]@, fault@)
                },
        },
        steps@.len() == 0 ==> result == Ok::<S, RealizeError>(initial),
        (forall|state: S, step: &Step, outcome: Result<S, Fault>| #[trigger]
            call_ensures(perform, (state, step), outcome) ==> outcome is Ok) ==> result is Ok,
{
    let mut state = initial;
    let mut i: usize = 0;
    while i < steps.len()
        invariant
            i <= steps@.len(),
            forall|state: S, step: &Step| #[trigger] call_requires(perform, (state, step)),
            carried_out(perform, initial, steps@, i as int, state),
        decreases steps@.len() - i,
    {
        let step = &steps[i];
        let ghost before = state;
        match perform(state, step) {
            Ok(next) => {
                state = next;
                assert(call_ensures(perform, (before, &steps@[i + 1 - 1]), Ok::<S, Fault>(state)));
                assert(carried_out(perform, initial, steps@, i + 1, state));
            },
            Err(fault) => {
                let error = failure(step, fault);
                assert(fails_at(perform, initial, steps@, i as int, fault));
                return Err(error);
            },
        }
        i += 1;
    }
    Ok(state)
}

} // verus!
