//! Stop criteria: stateful objects consulted once per outer iteration of a
//! metaheuristic with the incumbent cost and the newest cost; they decide
//! when the search stops and reset themselves upon firing so that one
//! instance can drive several searches in a row.

use vstd::prelude::*;

verus! {

/// A trait that specifies how a stop criterion should behave.
pub trait StopCriterion: Sized + Clone {
    /// The internal invariant of the criterion's state.
    spec fn inv(self) -> bool;

    /// Whether a call with these costs fires the criterion.
    spec fn fires(self, actual: int, new: int) -> bool;

    /// The state after a call with these costs.
    spec fn next(self, actual: int, new: int) -> Self;

    /// A measure that strictly shrinks on every non-firing, non-improving
    /// call: the loops driven by the criterion terminate on it.
    spec fn fuel(self) -> nat;

    /// The call to stop receives two costs, the actual and the new, and
    /// returns whether it is time to stop.  It resets itself when it fires,
    /// so it can be used several times in a row.
    fn stop(&mut self, actual: usize, new: usize) -> (r: bool)
        requires
            old(self).inv(),
        ensures
            final(self).inv(),
            r == old(self).fires(actual as int, new as int),
            *final(self) == old(self).next(actual as int, new as int),
            !r && new >= actual ==> final(self).fuel() < old(self).fuel(),
    ;
}

/// A stop criterion that fires after a fixed number of calls, irrespective
/// of the costs passed.
#[derive(Clone, Copy)]
pub struct TotalIterations {
    pub total_iterations: usize,
    pub max_iterations: usize,
}

impl StopCriterion for TotalIterations {
    open spec fn inv(self) -> bool {
        self.total_iterations == 0 || self.total_iterations < self.max_iterations
    }

    /// Fires exactly on every `max_iterations`-th call.
    open spec fn fires(self, actual: int, new: int) -> bool {
        self.total_iterations + 1 >= self.max_iterations
    }

    open spec fn next(self, actual: int, new: int) -> Self {
        TotalIterations {
            total_iterations: if self.total_iterations + 1 >= self.max_iterations {
                0
            } else {
                (self.total_iterations + 1) as usize
            },
            max_iterations: self.max_iterations,
        }
    }

    open spec fn fuel(self) -> nat {
        if self.total_iterations < self.max_iterations {
            (self.max_iterations - self.total_iterations) as nat
        } else {
            0
        }
    }

    fn stop(&mut self, actual: usize, new: usize) -> (r: bool) {
        self.total_iterations = self.total_iterations + 1;
        if self.total_iterations >= self.max_iterations {
            self.total_iterations = 0;
            return true;
        }
        false
    }
}

impl TotalIterations {
    /// Creates a new instance with the specified number of iterations.
    pub fn new(max_iterations: usize) -> (r: Self)
        ensures
            r.inv(),
            r.total_iterations == 0,
            r.max_iterations == max_iterations,
    {
        TotalIterations { total_iterations: 0, max_iterations }
    }
}

/// A stop criterion that fires once a given number of consecutive calls
/// have not improved on the incumbent cost.
#[derive(Clone, Copy)]
pub struct IterationsWithoutChange {
    pub iterations_without_change: usize,
    pub max_iterations_without_change: usize,
}

impl StopCriterion for IterationsWithoutChange {
    open spec fn inv(self) -> bool {
        self.iterations_without_change == 0 || self.iterations_without_change
            < self.max_iterations_without_change
    }

    /// Fires exactly when the run of consecutive non-improving calls,
    /// counting this one, reaches the maximum; an improving call resets the
    /// run first.
    open spec fn fires(self, actual: int, new: int) -> bool {
        if new < actual {
            0 >= self.max_iterations_without_change
        } else {
            self.iterations_without_change + 1 >= self.max_iterations_without_change
        }
    }

    open spec fn next(self, actual: int, new: int) -> Self {
        let run: int = if new < actual {
            0
        } else {
            self.iterations_without_change + 1
        };
        IterationsWithoutChange {
            iterations_without_change: if run >= self.max_iterations_without_change {
                0
            } else {
                run as usize
            },
            max_iterations_without_change: self.max_iterations_without_change,
        }
    }

    open spec fn fuel(self) -> nat {
        if self.iterations_without_change < self.max_iterations_without_change {
            (self.max_iterations_without_change - self.iterations_without_change) as nat
        } else {
            0
        }
    }

    fn stop(&mut self, actual: usize, new: usize) -> (r: bool) {
        if new < actual {
            self.iterations_without_change = 0;
        } else {
            self.iterations_without_change = self.iterations_without_change + 1;
        }
        if self.iterations_without_change >= self.max_iterations_without_change {
            self.iterations_without_change = 0;
            return true;
        }
        false
    }
}

impl IterationsWithoutChange {
    /// Creates a new instance specifying the maximum number of consecutive
    /// iterations without improvement that are allowed.
    pub fn new(max_iterations_without_change: usize) -> (r: Self)
        ensures
            r.inv(),
            r.iterations_without_change == 0,
            r.max_iterations_without_change == max_iterations_without_change,
    {
        IterationsWithoutChange { iterations_without_change: 0, max_iterations_without_change }
    }
}

} // verus!
