//! Mathematical model of the objective: the total completion time of one
//! machine's task sequence, its brute-force characterisation, and the bounds
//! that keep every computation inside `usize`.

use vstd::prelude::*;
use vstd::multiset::Multiset;

use crate::problem_instance::ProblemInstance;

verus! {

impl ProblemInstance {
    /// Number of tasks of the instance.
    pub open spec fn task_count(self) -> int {
        self.task_times@.len() as int
    }

    /// Number of machines of the instance.
    pub open spec fn machine_count(self) -> int {
        self.number_of_machines as int
    }

    /// Shape invariant: the setup matrix is square of size `task_count + 1`.
    pub open spec fn wf(self) -> bool {
        &&& self.setup_times@.len() == self.task_count() + 1
        &&& forall|i: int|
            0 <= i < self.setup_times@.len() ==> (#[trigger] self.setup_times@[i]@.len())
                == self.task_count() + 1
    }

    /// Processing time of task `t`.
    pub open spec fn task_time_of(self, t: int) -> int {
        self.task_times@[t] as int
    }

    /// Raw entry of the setup matrix (row and column 0 are the idle state).
    pub open spec fn setup_entry(self, row: int, col: int) -> int {
        self.setup_times@[row]@[col] as int
    }

    /// Every entry of `s` is the index of a task of this instance.
    pub open spec fn valid_tasks(self, s: Seq<usize>) -> bool {
        forall|i: int| 0 <= i < s.len() ==> (#[trigger] s[i]) < self.task_count()
    }

    /// The segment entering position `i` of the sequence `s`: the processing
    /// time of the task at `i` plus the setup from its predecessor, or from
    /// the idle state for `i == 0`.
    pub open spec fn seg_at(self, s: Seq<usize>, i: int) -> int {
        self.task_time_of(s[i] as int) + if i == 0 {
            self.setup_entry(0, s[0] as int + 1)
        } else {
            self.setup_entry(s[i - 1] as int + 1, s[i] as int + 1)
        }
    }

    /// Sum of the first `k` segments of `s`, each weighted by how many of the
    /// first `top` completion times it contributes to: segment `i` counts
    /// `top - i` times.
    pub open spec fn weighted_sum(self, s: Seq<usize>, top: int, k: int) -> int
        decreases k,
    {
        if k <= 0 {
            0
        } else {
            self.weighted_sum(s, top, k - 1) + (top - (k - 1)) * self.seg_at(s, k - 1)
        }
    }

    /// Total completion time of one machine's sequence `s`.  The empty
    /// sequence costs 0.
    pub open spec fn cost(self, s: Seq<usize>) -> int {
        self.weighted_sum(s, s.len() as int, s.len() as int)
    }

    /// Completion time of the task at position `i` of `s`: the plain sum of
    /// the segments up to and including `i`.
    pub open spec fn completion_at(self, s: Seq<usize>, i: int) -> int
        decreases i,
    {
        if i <= 0 {
            self.seg_at(s, 0)
        } else {
            self.completion_at(s, i - 1) + self.seg_at(s, i)
        }
    }

    /// Sum of the first `k` completion times of `s`: the brute-force
    /// definition of the total completion time.
    pub open spec fn completion_sum(self, s: Seq<usize>, k: int) -> int
        decreases k,
    {
        if k <= 0 {
            0
        } else {
            self.completion_sum(s, k - 1) + self.completion_at(s, k - 1)
        }
    }

    /// Plain (unweighted) sum of the first `k` segments of `s`; for a
    /// non-empty prefix it equals the completion time of its last task.
    pub open spec fn seg_sum(self, s: Seq<usize>, k: int) -> int
        decreases k,
    {
        if k <= 0 {
            0
        } else {
            self.seg_sum(s, k - 1) + self.seg_at(s, k - 1)
        }
    }

    /// The weighted sum grows with the number of segments taken, and it is
    /// never negative, as long as every weight in range is non-negative.
    pub proof fn lemma_weighted_sum_nonneg_mono(self, s: Seq<usize>, top: int, k1: int, k2: int)
        requires
            0 <= k1 <= k2 <= top,
        ensures
            0 <= self.weighted_sum(s, top, k1) <= self.weighted_sum(s, top, k2),
        decreases k2,
    {
        if k2 > 0 {
            assert((top - (k2 - 1)) * self.seg_at(s, k2 - 1) >= 0) by (nonlinear_arith)
                requires
                    top - (k2 - 1) >= 1,
                    self.seg_at(s, k2 - 1) >= 0,
            ;
            if k1 == k2 {
                self.lemma_weighted_sum_nonneg_mono(s, top, k2 - 1, k2 - 1);
            } else {
                self.lemma_weighted_sum_nonneg_mono(s, top, k1, k2 - 1);
            }
        }
    }

    /// Raising the weight base by one adds one plain copy of each segment.
    proof fn lemma_weighted_sum_step(self, s: Seq<usize>, top: int, k: int)
        ensures
            self.weighted_sum(s, top + 1, k) == self.weighted_sum(s, top, k) + self.seg_sum(s, k),
        decreases k,
    {
        if k > 0 {
            self.lemma_weighted_sum_step(s, top, k - 1);
            assert((top + 1 - (k - 1)) * self.seg_at(s, k - 1) == (top - (k - 1)) * self.seg_at(
                s,
                k - 1,
            ) + self.seg_at(s, k - 1)) by (nonlinear_arith);
        }
    }

    /// The completion time at `i` is the plain sum of the first `i + 1`
    /// segments.
    proof fn lemma_completion_is_seg_sum(self, s: Seq<usize>, i: int)
        requires
            i >= 0,
        ensures
            self.completion_at(s, i) == self.seg_sum(s, i + 1),
        decreases i,
    {
        if i > 0 {
            self.lemma_completion_is_seg_sum(s, i - 1);
            assert(self.completion_at(s, i) == self.completion_at(s, i - 1) + self.seg_at(s, i));
            assert(self.seg_sum(s, i + 1) == self.seg_sum(s, i) + self.seg_at(s, i));
        } else {
            assert(self.completion_at(s, 0) == self.seg_at(s, 0));
            assert(self.seg_sum(s, 0) == 0);
            assert(self.seg_sum(s, 1) == self.seg_sum(s, 0) + self.seg_at(s, 0));
        }
    }

    /// The sum of the first `k` completion times equals the weighted sum of
    /// the first `k` segments with weight base `k`.
    proof fn lemma_completion_sum_is_weighted(self, s: Seq<usize>, k: int)
        requires
            k >= 0,
        ensures
            self.completion_sum(s, k) == self.weighted_sum(s, k, k),
        decreases k,
    {
        if k > 0 {
            self.lemma_completion_sum_is_weighted(s, k - 1);
            self.lemma_weighted_sum_step(s, k - 1, k - 1);
            self.lemma_completion_is_seg_sum(s, k - 1);
            assert(self.weighted_sum(s, k, k) == self.weighted_sum(s, k, k - 1) + (k - (k - 1))
                * self.seg_at(s, k - 1));
            assert((k - (k - 1)) * self.seg_at(s, k - 1) == self.seg_at(s, k - 1))
                by (nonlinear_arith);
            assert(self.seg_sum(s, k) == self.seg_sum(s, k - 1) + self.seg_at(s, k - 1));
            assert(self.completion_sum(s, k) == self.completion_sum(s, k - 1)
                + self.completion_at(s, k - 1));
        }
    }

    /// The cost of a sequence is exactly the sum of the completion times of
    /// all its positions: the weighted implementation of the cost function
    /// agrees with the brute-force summation, for every sequence.
    pub proof fn lemma_cost_matches_completion_times(self, s: Seq<usize>)
        ensures
            self.cost(s) == self.completion_sum(s, s.len() as int),
    {
        self.lemma_completion_sum_is_weighted(s, s.len() as int);
    }

    /// The plain segment sum is bounded by the weighted sum, since every
    /// weight in range is at least one.
    pub proof fn lemma_seg_sum_le_weighted(self, s: Seq<usize>, top: int, k: int)
        requires
            0 <= k <= top,
        ensures
            0 <= self.seg_sum(s, k) <= self.weighted_sum(s, top, k),
        decreases k,
    {
        if k > 0 {
            self.lemma_seg_sum_le_weighted(s, top, k - 1);
            assert((top - (k - 1)) * self.seg_at(s, k - 1) >= self.seg_at(s, k - 1)) by (nonlinear_arith)
                requires
                    top - (k - 1) >= 1,
                    self.seg_at(s, k - 1) >= 0,
            ;
        }
    }

    /// The cost of any sequence is non-negative.
    pub proof fn lemma_cost_nonneg(self, s: Seq<usize>)
        ensures
            0 <= self.cost(s),
    {
        self.lemma_weighted_sum_nonneg_mono(s, s.len() as int, 0, s.len() as int);
    }

    /// Summed cost of a whole assignment, one sequence per machine.
    pub open spec fn rows_cost(self, rows: Seq<Seq<usize>>) -> int
        decreases rows.len(),
    {
        if rows.len() == 0 {
            0
        } else {
            self.rows_cost(rows.drop_last()) + self.cost(rows.last())
        }
    }

    /// Every sequence of the assignment holds only valid task indices.
    pub open spec fn rows_valid(self, rows: Seq<Seq<usize>>) -> bool {
        forall|k: int| 0 <= k < rows.len() ==> self.valid_tasks(#[trigger] rows[k])
    }

    /// The instance is small enough that the cost of any assignment without
    /// repeated tasks fits in a machine word.  Every arithmetic step of the
    /// solvers stays below this bound.
    pub open spec fn fits(self) -> bool {
        forall|rows: Seq<Seq<usize>>|
            self.rows_valid(rows) && rows_no_dup(rows) ==> #[trigger] self.rows_cost(rows)
                <= usize::MAX as int
    }

    pub proof fn lemma_rows_cost_nonneg(self, rows: Seq<Seq<usize>>)
        ensures
            0 <= self.rows_cost(rows),
        decreases rows.len(),
    {
        if rows.len() > 0 {
            self.lemma_rows_cost_nonneg(rows.drop_last());
            self.lemma_cost_nonneg(rows.last());
        }
    }

    /// Replacing one sequence of an assignment changes its summed cost by
    /// exactly the difference of the two sequence costs.
    pub proof fn lemma_rows_cost_update(self, rows: Seq<Seq<usize>>, k: int, r: Seq<usize>)
        requires
            0 <= k < rows.len(),
        ensures
            self.rows_cost(rows.update(k, r)) == self.rows_cost(rows) - self.cost(rows[k])
                + self.cost(r),
        decreases rows.len(),
    {
        let upd = rows.update(k, r);
        if k == rows.len() - 1 {
            assert(upd.drop_last() =~= rows.drop_last());
        } else {
            assert(upd.drop_last() =~= rows.drop_last().update(k, r));
            self.lemma_rows_cost_update(rows.drop_last(), k, r);
        }
    }

    /// The cost of one sequence never exceeds the summed cost of the whole
    /// assignment it belongs to.
    pub proof fn lemma_cost_le_rows_cost(self, rows: Seq<Seq<usize>>, k: int)
        requires
            0 <= k < rows.len(),
        ensures
            self.cost(rows[k]) <= self.rows_cost(rows),
        decreases rows.len(),
    {
        self.lemma_cost_nonneg(rows.last());
        if k == rows.len() - 1 {
            self.lemma_rows_cost_nonneg(rows.drop_last());
        } else {
            self.lemma_cost_le_rows_cost(rows.drop_last(), k);
        }
    }

    /// Two different sequences of an assignment together cost no more than
    /// the whole assignment.
    pub proof fn lemma_two_costs_le_rows_cost(self, rows: Seq<Seq<usize>>, a: int, b: int)
        requires
            0 <= a < rows.len(),
            0 <= b < rows.len(),
            a != b,
        ensures
            self.cost(rows[a]) + self.cost(rows[b]) <= self.rows_cost(rows),
        decreases rows.len(),
    {
        if a == rows.len() - 1 {
            self.lemma_cost_le_rows_cost(rows.drop_last(), b);
        } else if b == rows.len() - 1 {
            self.lemma_cost_le_rows_cost(rows.drop_last(), a);
        } else {
            self.lemma_cost_nonneg(rows.last());
            self.lemma_two_costs_le_rows_cost(rows.drop_last(), a, b);
        }
    }
}

impl ProblemInstance {
    /// Every time of the instance is at most `b`.
    pub open spec fn cells_bounded(self, b: int) -> bool {
        &&& forall|t: int| 0 <= t < self.task_count() ==> self.task_time_of(t) <= b
        &&& forall|i: int, j: int|
            0 <= i <= self.task_count() && 0 <= j <= self.task_count() ==> self.setup_entry(i, j)
                <= b
    }

    proof fn lemma_seg_at_bound(self, s: Seq<usize>, i: int, b: int)
        requires
            self.wf(),
            self.valid_tasks(s),
            self.cells_bounded(b),
            0 <= i < s.len(),
        ensures
            self.seg_at(s, i) <= 2 * b,
    {
    }

    proof fn lemma_weighted_sum_bound(self, s: Seq<usize>, b: int, k: int)
        requires
            self.wf(),
            self.valid_tasks(s),
            self.cells_bounded(b),
            b >= 0,
            0 <= k <= s.len(),
        ensures
            self.weighted_sum(s, s.len() as int, k) <= 2 * b * s.len() * k,
        decreases k,
    {
        let len = s.len() as int;
        if k == 0 {
            assert(2 * b * len * 0 == 0) by (nonlinear_arith);
        } else {
            self.lemma_weighted_sum_bound(s, b, k - 1);
            self.lemma_seg_at_bound(s, k - 1, b);
            assert((len - (k - 1)) * self.seg_at(s, k - 1) <= len * (2 * b)) by (nonlinear_arith)
                requires
                    0 <= len - (k - 1) <= len,
                    0 <= self.seg_at(s, k - 1) <= 2 * b,
            ;
            assert(2 * b * len * (k - 1) + len * (2 * b) == 2 * b * len * k) by (nonlinear_arith);
        }
    }

    proof fn lemma_rows_cost_bound(self, rows: Seq<Seq<usize>>, b: int)
        requires
            self.wf(),
            self.rows_valid(rows),
            self.cells_bounded(b),
            b >= 0,
        ensures
            self.rows_cost(rows) <= 2 * b * rows_len_sum(rows) * rows_len_sum(rows),
        decreases rows.len(),
    {
        lemma_rows_len_sum_nonneg(rows);
        if rows.len() == 0 {
        } else {
            let front = rows.drop_last();
            let last = rows.last();
            let sf = rows_len_sum(front);
            let ll = last.len() as int;
            self.lemma_rows_cost_bound(front, b);
            self.lemma_weighted_sum_bound(last, b, ll);
            lemma_rows_len_sum_nonneg(front);
            assert(2 * b * ll * ll <= 2 * b * (sf + ll) * (sf + ll) - 2 * b * sf * sf)
                by (nonlinear_arith)
                requires
                    b >= 0,
                    sf >= 0,
                    ll >= 0,
            ;
        }
    }

    proof fn lemma_rows_mset_elems(self, rows: Seq<Seq<usize>>)
        requires
            self.rows_valid(rows),
        ensures
            forall|x: usize|
                rows_mset(rows).count(x) > 0 ==> (x as int) < self.task_count(),
        decreases rows.len(),
    {
        broadcast use vstd::multiset::group_multiset_axioms;
        broadcast use vstd::seq_lib::group_to_multiset_ensures;

        if rows.len() > 0 {
            assert(self.rows_valid(rows.drop_last())) by {
                assert forall|k: int|
                    0 <= k < rows.drop_last().len() implies self.valid_tasks(
                    #[trigger] rows.drop_last()[k]) by {
                    assert(rows.drop_last()[k] == rows[k]);
                }
            }
            self.lemma_rows_mset_elems(rows.drop_last());
            assert forall|x: usize|
                rows_mset(rows).count(x) > 0 implies (x as int) < self.task_count() by {
                assert(rows_mset(rows).count(x) == rows_mset(rows.drop_last()).count(x)
                    + rows.last().to_multiset().count(x));
                if rows.last().to_multiset().count(x) > 0 {
                    assert(rows.last().contains(x));
                    let idx = choose|idx: int|
                        0 <= idx < rows.last().len() && rows.last()[idx] == x;
                    assert(self.valid_tasks(rows[rows.len() - 1]));
                    assert(rows[rows.len() - 1][idx] == x);
                } else {
                    assert(rows_mset(rows.drop_last()).count(x) > 0);
                }
            }
        }
    }

    /// If every time of the instance is at most `b` and `2 * b * n * n` fits
    /// in a machine word, then so does the cost of every assignment without
    /// repeated tasks.
    pub proof fn lemma_fits_from_cell_bound(self, b: int)
        requires
            self.wf(),
            self.cells_bounded(b),
            b >= 0,
            2 * b * self.task_count() * self.task_count() <= usize::MAX as int,
        ensures
            self.fits(),
    {
        let n = self.task_count();
        assert(self.task_times.len() == self.task_times@.len());
        assert(n <= usize::MAX as int);
        assert forall|rows: Seq<Seq<usize>>|
            self.rows_valid(rows) && rows_no_dup(rows) implies #[trigger] self.rows_cost(rows)
            <= usize::MAX as int by {
            lemma_rows_mset_len(rows);
            self.lemma_rows_mset_elems(rows);
            lemma_bounded_mset_len(rows_mset(rows), n);
            let s = rows_len_sum(rows);
            lemma_rows_len_sum_nonneg(rows);
            self.lemma_rows_cost_bound(rows, b);
            assert(2 * b * s * s <= 2 * b * n * n) by (nonlinear_arith)
                requires
                    b >= 0,
                    0 <= s <= n,
            ;
        }
    }

    /// Checks, conservatively, that the instance is small enough for every
    /// cost the solvers may compute to fit in a machine word: it bounds every
    /// time of the instance by their maximum `b` and tests `2 * b * n * n`
    /// with checked arithmetic.  `true` establishes `fits`; `false` only
    /// means the conservative bound failed.
    pub fn check_fits(&self) -> (r: bool)
        requires
            self.wf(),
        ensures
            r ==> self.fits(),
    {
        let n = self.task_times.len();
        let mut big: usize = 0;
        let mut t: usize = 0;
        while t < n
            invariant
                n == self.task_times@.len(),
                t <= n,
                forall|q: int| 0 <= q < t ==> (#[trigger] self.task_times@[q]) <= big,
            decreases n - t,
        {
            if self.task_times[t] > big {
                big = self.task_times[t];
            }
            t = t + 1;
        }
        let mut i: usize = 0;
        while i < self.setup_times.len()
            invariant
                self.wf(),
                i <= self.setup_times@.len(),
                forall|q: int| 0 <= q < self.task_times@.len() ==> (#[trigger] self.task_times@[q]) <= big,
                forall|q: int, w: int|
                    0 <= q < i && 0 <= w < self.setup_times@[q]@.len() ==> (
                    #[trigger] self.setup_times@[q]@[w]) <= big,
            decreases self.setup_times@.len() - i,
        {
            let mut j: usize = 0;
            while j < self.setup_times[i].len()
                invariant
                    self.wf(),
                    i < self.setup_times@.len(),
                    j <= self.setup_times@[i as int]@.len(),
                    forall|q: int| 0 <= q < self.task_times@.len() ==> (#[trigger] self.task_times@[q]) <= big,
                    forall|q: int, w: int|
                        0 <= q < i && 0 <= w < self.setup_times@[q]@.len() ==> (
                        #[trigger] self.setup_times@[q]@[w]) <= big,
                    forall|w: int|
                        0 <= w < j ==> (#[trigger] self.setup_times@[i as int]@[w]) <= big,
                decreases self.setup_times@[i as int]@.len() - j,
            {
                if self.setup_times[i][j] > big {
                    big = self.setup_times[i][j];
                }
                j = j + 1;
            }
            i = i + 1;
        }
        let p1 = match big.checked_mul(2) {
            Some(v) => v,
            None => {
                return false;
            },
        };
        let p2 = match p1.checked_mul(n) {
            Some(v) => v,
            None => {
                return false;
            },
        };
        match p2.checked_mul(n) {
            Some(_) => {
                proof {
                    assert(self.cells_bounded(big as int));
                    self.lemma_fits_from_cell_bound(big as int);
                }
                true
            },
            None => false,
        }
    }
}

impl ProblemInstance {
    /// The segment sums of two sequences agree on any prefix on which the
    /// sequences agree.
    pub proof fn lemma_sums_congruent(self, s1: Seq<usize>, s2: Seq<usize>, top: int, k: int)
        requires
            forall|i: int| 0 <= i < k ==> s1[i] == s2[i],
            k >= 0,
        ensures
            self.weighted_sum(s1, top, k) == self.weighted_sum(s2, top, k),
            self.seg_sum(s1, k) == self.seg_sum(s2, k),
        decreases k,
    {
        if k > 0 {
            self.lemma_sums_congruent(s1, s2, top, k - 1);
            assert(self.seg_at(s1, k - 1) == self.seg_at(s2, k - 1));
        }
    }

    /// Appending one task adds the full chain of the old sequence plus the
    /// new segment: every earlier completion gains nothing, the new task
    /// completes after everything before it.
    pub proof fn lemma_cost_push(self, s: Seq<usize>, x: usize)
        ensures
            self.cost(s.push(x)) == self.cost(s) + self.seg_sum(s, s.len() as int) + self.seg_at(
                s.push(x),
                s.len() as int,
            ),
    {
        let len = s.len() as int;
        let s2 = s.push(x);
        assert(s2.len() == len + 1);
        assert(self.cost(s2) == self.weighted_sum(s2, len + 1, len + 1));
        assert(self.weighted_sum(s2, len + 1, len + 1) == self.weighted_sum(s2, len + 1, len) + (
        len + 1 - len) * self.seg_at(s2, len));
        assert((len + 1 - len) * self.seg_at(s2, len) == self.seg_at(s2, len)) by (nonlinear_arith);
        self.lemma_weighted_sum_step(s2, len, len);
        self.lemma_sums_congruent(s, s2, len, len);
    }
}

/// A multiset of distinct values below `n` with `n` elements holds each of
/// the values `0 .. n` exactly once.
pub proof fn lemma_complete_from_len(m: Multiset<usize>, n: int)
    requires
        0 <= n <= usize::MAX as int,
        forall|x: usize| m.count(x) <= 1,
        forall|x: usize| m.count(x) > 0 ==> (x as int) < n,
        m.len() == n,
    ensures
        m == full_task_mset(n),
{
    broadcast use vstd::multiset::group_multiset_axioms;

    let full = full_task_mset(n);
    lemma_full_task_mset_len(n);
    assert forall|x: usize| m.count(x) <= full.count(x) by {
        lemma_full_task_mset_count(n, x);
    }
    assert(m.subset_of(full));
    assert(full.sub(m).len() == full.len() - m.len());
    assert(full.sub(m).len() == 0);
    assert forall|x: usize| m.count(x) == full.count(x) by {
        lemma_full_task_mset_count(n, x);
        assert(full.sub(m).count(x) == 0) by {
            if full.sub(m).count(x) > 0 {
                assert(full.sub(m).len() > 0);
            }
        }
    }
    assert(m =~= full);
}

/// A multiset of distinct values below `n` with fewer than `n` elements
/// misses some value below `n`.
pub proof fn lemma_missing_task(m: Multiset<usize>, n: int) -> (x: usize)
    requires
        0 <= n <= usize::MAX as int,
        forall|t: usize| m.count(t) <= 1,
        forall|t: usize| m.count(t) > 0 ==> (t as int) < n,
        m.len() < n,
    ensures
        (x as int) < n,
        m.count(x) == 0,
{
    broadcast use vstd::multiset::group_multiset_axioms;

    if exists|t: usize| (t as int) < n && m.count(t) == 0 {
        let t = choose|t: usize| (t as int) < n && m.count(t) == 0;
        t
    } else {
        let full = full_task_mset(n);
        lemma_full_task_mset_len(n);
        assert forall|t: usize| full.count(t) <= m.count(t) by {
            lemma_full_task_mset_count(n, t);
            if (t as int) < n {
                assert(m.count(t) != 0);
            }
        }
        assert(full.subset_of(m));
        assert(m.sub(full).len() == m.len() - full.len());
        assert(false);
        0
    }
}

/// Sum of sequence lengths is non-negative.
pub proof fn lemma_rows_len_sum_nonneg(rows: Seq<Seq<usize>>)
    ensures
        0 <= rows_len_sum(rows),
    decreases rows.len(),
{
    if rows.len() > 0 {
        lemma_rows_len_sum_nonneg(rows.drop_last());
    }
}

/// Multiset of all tasks placed in an assignment.
pub open spec fn rows_mset(rows: Seq<Seq<usize>>) -> Multiset<usize>
    decreases rows.len(),
{
    if rows.len() == 0 {
        Multiset::empty()
    } else {
        rows_mset(rows.drop_last()).add(rows.last().to_multiset())
    }
}

/// No task appears twice anywhere in the assignment.
pub open spec fn rows_no_dup(rows: Seq<Seq<usize>>) -> bool {
    forall|x: usize| rows_mset(rows).count(x) <= 1
}

/// The multiset holding each of the tasks `0 .. n` exactly once: what a
/// complete assignment must place.
pub open spec fn full_task_mset(n: int) -> Multiset<usize>
    decreases n,
{
    if n <= 0 {
        Multiset::empty()
    } else {
        full_task_mset(n - 1).insert((n - 1) as usize)
    }
}

/// Total number of task slots used by an assignment.
pub open spec fn rows_len_sum(rows: Seq<Seq<usize>>) -> int
    decreases rows.len(),
{
    if rows.len() == 0 {
        0
    } else {
        rows_len_sum(rows.drop_last()) + rows.last().len()
    }
}

/// Replacing one sequence replaces exactly its tasks in the assignment's
/// multiset, stated without multiset subtraction.
pub proof fn lemma_rows_mset_update(rows: Seq<Seq<usize>>, k: int, r: Seq<usize>)
    requires
        0 <= k < rows.len(),
    ensures
        forall|x: usize|
            #![all_triggers]
            rows_mset(rows.update(k, r)).count(x) + rows[k].to_multiset().count(x) == rows_mset(
                rows,
            ).count(x) + r.to_multiset().count(x),
    decreases rows.len(),
{
    broadcast use vstd::multiset::group_multiset_axioms;

    let upd = rows.update(k, r);
    if k == rows.len() - 1 {
        assert(upd.drop_last() =~= rows.drop_last());
    } else {
        assert(upd.drop_last() =~= rows.drop_last().update(k, r));
        lemma_rows_mset_update(rows.drop_last(), k, r);
    }
}

/// Each sequence's tasks are contained in the assignment's multiset.
pub proof fn lemma_row_mset_le_rows_mset(rows: Seq<Seq<usize>>, k: int)
    requires
        0 <= k < rows.len(),
    ensures
        forall|x: usize|
            #![all_triggers]
            rows[k].to_multiset().count(x) <= rows_mset(rows).count(x),
    decreases rows.len(),
{
    broadcast use vstd::multiset::group_multiset_axioms;

    if k < rows.len() - 1 {
        lemma_row_mset_le_rows_mset(rows.drop_last(), k);
        assert(rows.drop_last()[k] == rows[k]);
        assert forall|x: usize| rows[k].to_multiset().count(x) <= rows_mset(rows).count(x) by {
            assert(rows[k].to_multiset().count(x) <= rows_mset(rows.drop_last()).count(x));
            assert(rows_mset(rows).count(x) == rows_mset(rows.drop_last()).count(x)
                + rows.last().to_multiset().count(x));
        }
    }
}

/// Two different sequences together are contained in the assignment's
/// multiset.
pub proof fn lemma_two_row_msets_le(rows: Seq<Seq<usize>>, a: int, b: int)
    requires
        0 <= a < rows.len(),
        0 <= b < rows.len(),
        a != b,
    ensures
        forall|x: usize|
            #![all_triggers]
            rows[a].to_multiset().count(x) + rows[b].to_multiset().count(x) <= rows_mset(
                rows,
            ).count(x),
    decreases rows.len(),
{
    broadcast use vstd::multiset::group_multiset_axioms;

    if a == rows.len() - 1 {
        lemma_row_mset_le_rows_mset(rows.drop_last(), b);
        assert(rows.drop_last()[b] == rows[b]);
    } else if b == rows.len() - 1 {
        lemma_row_mset_le_rows_mset(rows.drop_last(), a);
        assert(rows.drop_last()[a] == rows[a]);
    } else {
        lemma_two_row_msets_le(rows.drop_last(), a, b);
        assert(rows.drop_last()[a] == rows[a]);
        assert(rows.drop_last()[b] == rows[b]);
    }
}

impl ProblemInstance {
    /// The cost of one valid sequence without repeats fits in a machine word
    /// whenever the instance fits.
    pub proof fn lemma_single_seq_fits(self, s: Seq<usize>)
        requires
            self.fits(),
            self.valid_tasks(s),
            s.no_duplicates(),
        ensures
            0 <= self.cost(s) <= usize::MAX as int,
    {
        broadcast use vstd::multiset::group_multiset_axioms;
        broadcast use vstd::seq_lib::group_to_multiset_ensures;

        self.lemma_cost_nonneg(s);
        let rows = seq![s];
        assert(rows.len() == 1);
        assert(rows.drop_last() =~= Seq::<Seq<usize>>::empty());
        assert(rows.drop_last().len() == 0);
        assert(self.rows_cost(rows.drop_last()) == 0);
        assert(rows_mset(rows.drop_last()) =~= Multiset::<usize>::empty());
        assert(rows.last() == s);
        assert(self.rows_cost(rows) == self.cost(s));
        assert(self.rows_valid(rows));
        s.lemma_multiset_has_no_duplicates();
        assert forall|x: usize| rows_mset(rows).count(x) <= 1 by {
            assert(rows_mset(rows).count(x) == s.to_multiset().count(x));
            if s.to_multiset().count(x) > 0 {
                assert(s.contains(x));
            }
        }
        assert(self.rows_cost(rows) <= usize::MAX as int);
    }
}

/// The number of tasks placed is the sum of the sequence lengths.
pub proof fn lemma_rows_mset_len(rows: Seq<Seq<usize>>)
    ensures
        rows_mset(rows).len() == rows_len_sum(rows),
    decreases rows.len(),
{
    broadcast use vstd::multiset::group_multiset_axioms;
    broadcast use vstd::seq_lib::group_to_multiset_ensures;

    if rows.len() > 0 {
        lemma_rows_mset_len(rows.drop_last());
    }
}

/// What the complete multiset holds: each task below `n`, exactly once.
pub proof fn lemma_full_task_mset_count(n: int, x: usize)
    requires
        n <= usize::MAX as int + 1,
    ensures
        full_task_mset(n).count(x) == if 0 <= x < n {
            1int
        } else {
            0int
        },
    decreases n,
{
    broadcast use vstd::multiset::group_multiset_axioms;
    broadcast use vstd::multiset::group_multiset_properties;

    if n > 0 {
        lemma_full_task_mset_count(n - 1, x);
    }
}

pub proof fn lemma_full_task_mset_len(n: int)
    requires
        0 <= n <= usize::MAX as int + 1,
    ensures
        full_task_mset(n).len() == n,
    decreases n,
{
    broadcast use vstd::multiset::group_multiset_axioms;
    broadcast use vstd::multiset::group_multiset_properties;

    if n > 0 {
        lemma_full_task_mset_len(n - 1);
    }
}

/// A multiset of distinct values below `n` has at most `n` elements.
pub proof fn lemma_bounded_mset_len(m: Multiset<usize>, n: int)
    requires
        0 <= n <= usize::MAX as int + 1,
        forall|x: usize| m.count(x) <= 1,
        forall|x: usize| m.count(x) > 0 ==> (x as int) < n,
    ensures
        m.len() <= n,
{
    broadcast use vstd::multiset::group_multiset_axioms;

    let full = full_task_mset(n);
    assert forall|x: usize| m.count(x) <= full.count(x) by {
        lemma_full_task_mset_count(n, x);
    }
    assert(m.subset_of(full));
    lemma_full_task_mset_len(n);
    assert(full.sub(m).len() == full.len() - m.len());
}

} // verus!
