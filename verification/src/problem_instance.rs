//! The immutable data of one problem instance and its cost model.

use vstd::prelude::*;

pub mod cost;
mod parse;
mod solve_greedy;

pub use parse::ProblemInstanceError;

verus! {

/// An instance of the problem: a matrix of setup times, a vector with the
/// processing time of each task and the number of machines.  With `n` tasks
/// the matrix is `(n+1) x (n+1)`; its row and column 0 stand for the idle
/// state in which every machine starts.
pub struct ProblemInstance {
    pub setup_times: Vec<Vec<usize>>,
    pub task_times: Vec<usize>,
    pub number_of_machines: usize,
}

impl ProblemInstance {
    /// Builds an instance after checking the shape invariants: the setup
    /// matrix must be square of size one more than the number of tasks.
    pub fn new(
        setup_times: Vec<Vec<usize>>,
        task_times: Vec<usize>,
        number_of_machines: usize,
    ) -> (r: Option<ProblemInstance>)
        ensures
            r is Some ==> {
                &&& r.unwrap().wf()
                &&& r.unwrap().setup_times@.map_values(|v: Vec<usize>| v@) =~= setup_times@.map_values(|v: Vec<usize>| v@)
                &&& r.unwrap().task_times@ == task_times@
                &&& r.unwrap().number_of_machines == number_of_machines
            },
            r is None ==> !(ProblemInstance {
                setup_times,
                task_times,
                number_of_machines,
            }).wf(),
    {
        if task_times.len() == usize::MAX {
            proof {
                assert(setup_times@.len() == setup_times.len());
                assert(setup_times@.len() <= usize::MAX);
            }
            return None;
        }
        let side = task_times.len() + 1;
        if setup_times.len() != side {
            return None;
        }
        let mut i: usize = 0;
        while i < setup_times.len()
            invariant
                i <= setup_times@.len(),
                forall|j: int| 0 <= j < i ==> (#[trigger] setup_times@[j]@.len()) == setup_times@.len(),
                side == setup_times@.len(),
            decreases setup_times@.len() - i,
        {
            if setup_times[i].len() != side {
                return None;
            }
            i = i + 1;
        }
        Some(ProblemInstance { setup_times, task_times, number_of_machines })
    }

    /// Allows to get the number of machines.
    pub fn number_of_machines(&self) -> (r: usize)
        ensures
            r == self.number_of_machines,
    {
        self.number_of_machines
    }

    /// Allows to get the vector of task times.
    pub fn task_times(&self) -> (r: &Vec<usize>)
        ensures
            r == &self.task_times,
    {
        &self.task_times
    }

    /// Allows to get the setup times matrix.
    pub fn setup_times(&self) -> (r: &Vec<Vec<usize>>)
        ensures
            r == &self.setup_times,
    {
        &self.setup_times
    }

    /// Calculates the total completion time (TCT) of an order of tasks
    /// according to the times in the instance: the sum, over the positions of
    /// the list, of the completion time of the task at that position.  It is
    /// computed as the equivalent weighted sum in which the segment entering
    /// position `i` counts once for every task completed at or after `i`.
    pub fn calculate_total_completion_time(&self, task_list: &Vec<usize>) -> (r: usize)
        requires
            self.wf(),
            self.valid_tasks(task_list@),
            self.cost(task_list@) <= usize::MAX as int,
        ensures
            r as int == self.cost(task_list@),
    {
        let len = task_list.len();
        let n_tasks = self.task_times.len();
        let mut acc: usize = 0;
        let mut i: usize = 0;
        while i < len
            invariant
                self.wf(),
                self.valid_tasks(task_list@),
                self.cost(task_list@) <= usize::MAX as int,
                i <= len,
                len == task_list@.len(),
                n_tasks as int == self.task_count(),
                acc as int == self.weighted_sum(task_list@, len as int, i as int),
            decreases len - i,
        {
            let ghost s = task_list@;
            let ghost seg = self.seg_at(s, i as int);
            let ghost term = (len - i) * seg;
            proof {
                self.lemma_weighted_sum_nonneg_mono(s, len as int, 0, i as int);
                self.lemma_weighted_sum_nonneg_mono(s, len as int, i + 1, len as int);
                assert(self.weighted_sum(s, len as int, i + 1) == self.weighted_sum(
                    s,
                    len as int,
                    i as int,
                ) + term);
                assert(seg <= term && 0 <= term) by (nonlinear_arith)
                    requires
                        len - i >= 1,
                        seg >= 0,
                        term == (len - i) * seg,
                ;
                assert(term <= usize::MAX as int);
            }
            let t = task_list[i];
            let prev_row = if i == 0 { 0 } else { task_list[i - 1] + 1 };
            let seg_val = self.task_times[t] + self.setup_times[prev_row][t + 1];
            assert(seg_val as int == seg);
            let weighted = (len - i) * seg_val;
            acc = acc + weighted;
            i = i + 1;
        }
        acc
    }
}

} // verus!
