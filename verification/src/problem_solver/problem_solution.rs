//! The mutable solution representation: one ordered task sequence per
//! machine, with the cost of each machine's sequence kept alongside it.

use vstd::prelude::*;
use vstd::multiset::Multiset;

use crate::problem_instance::ProblemInstance;
use crate::problem_instance::cost::{full_task_mset, lemma_rows_mset_update, rows_mset, rows_no_dup};

verus! {

/// A solution to the problem: a vector with the total completion time of
/// each machine and a matrix with the tasks assigned to each machine.
pub struct ProblemSolution {
    pub tcts_by_machine: Vec<usize>,
    pub task_assignment_matrix: Vec<Vec<usize>>,
}

/// `s` with the values at positions `i` and `j` exchanged.
pub open spec fn swap_seq(s: Seq<usize>, i: int, j: int) -> Seq<usize> {
    s.update(i, s[j]).update(j, s[i])
}

/// `s` with the value at position `from` moved so that it ends up at
/// position `to` of the result.
pub open spec fn reinsert_seq(s: Seq<usize>, from: int, to: int) -> Seq<usize> {
    s.remove(from).insert(to, s[from])
}

/// Sum of a sequence of machine words, as an unbounded integer.
pub open spec fn usize_seq_sum(s: Seq<usize>) -> int
    decreases s.len(),
{
    if s.len() == 0 {
        0
    } else {
        usize_seq_sum(s.drop_last()) + s.last()
    }
}

impl ProblemSolution {
    /// The task sequences, one per machine.
    pub open spec fn rows(self) -> Seq<Seq<usize>> {
        self.task_assignment_matrix@.map_values(|v: Vec<usize>| v@)
    }

    /// The cached per-machine costs.
    pub open spec fn caches(self) -> Seq<usize> {
        self.tcts_by_machine@
    }

    /// The multiset of all tasks the solution places.
    pub open spec fn task_mset(self) -> Multiset<usize> {
        rows_mset(self.rows())
    }

    /// Well-formedness: one cached cost per machine, each equal to the cost
    /// of that machine's sequence; only valid task indices; and no task
    /// placed twice.
    pub open spec fn wf(self, instance: ProblemInstance) -> bool {
        &&& self.caches().len() == self.rows().len()
        &&& instance.rows_valid(self.rows())
        &&& forall|k: int|
            0 <= k < self.rows().len() ==> (#[trigger] self.caches()[k]) as int == instance.cost(
                self.rows()[k],
            )
        &&& rows_no_dup(self.rows())
    }

    /// The objective value: the summed cost of all machines.
    pub open spec fn total(self, instance: ProblemInstance) -> int {
        instance.rows_cost(self.rows())
    }

    /// Every task of the instance is placed exactly once.
    pub open spec fn complete(self, instance: ProblemInstance) -> bool {
        self.task_mset() == full_task_mset(instance.task_count())
    }

    /// Allows getting the total completion time of the solution.
    pub fn get_total_completion_time(&self) -> (r: usize)
        requires
            usize_seq_sum(self.caches()) <= usize::MAX as int,
        ensures
            r as int == usize_seq_sum(self.caches()),
    {
        let mut acc: usize = 0;
        let mut i: usize = 0;
        while i < self.tcts_by_machine.len()
            invariant
                i <= self.caches().len(),
                usize_seq_sum(self.caches()) <= usize::MAX as int,
                acc as int == usize_seq_sum(self.caches().take(i as int)),
            decreases self.caches().len() - i,
        {
            proof {
                lemma_usize_seq_sum_take_step(self.caches(), i as int);
                lemma_usize_seq_sum_take_le(self.caches(), i + 1);
            }
            acc = acc + self.tcts_by_machine[i];
            i = i + 1;
        }
        proof {
            assert(self.caches().take(i as int) =~= self.caches());
        }
        acc
    }

    /// Allows getting the total completion time of each machine.
    pub fn get_tcts_by_machine(&self) -> (r: &Vec<usize>)
        ensures
            r == &self.tcts_by_machine,
    {
        &self.tcts_by_machine
    }

    /// Allows getting the task assignment matrix.
    pub fn get_tasks_by_machine(&self) -> (r: &Vec<Vec<usize>>)
        ensures
            r == &self.task_assignment_matrix,
    {
        &self.task_assignment_matrix
    }

    /// The sum of the per-machine costs reported by `get_tcts_by_machine` is
    /// exactly the objective value of the solution, for any well-formed
    /// solution.
    pub proof fn lemma_cache_sum_is_total(self, instance: ProblemInstance)
        requires
            self.wf(instance),
        ensures
            usize_seq_sum(self.caches()) == self.total(instance),
    {
        lemma_pointwise_sum_is_rows_cost(instance, self.rows(), self.caches());
    }

    /// A well-formed solution of an instance whose costs fit in a machine
    /// word has its total and its cache sum below `usize::MAX`.
    pub proof fn lemma_total_fits(self, instance: ProblemInstance)
        requires
            self.wf(instance),
            instance.fits(),
        ensures
            0 <= self.total(instance) <= usize::MAX as int,
            usize_seq_sum(self.caches()) == self.total(instance),
    {
        instance.lemma_rows_cost_nonneg(self.rows());
        self.lemma_cache_sum_is_total(instance);
        assert(instance.rows_cost(self.rows()) <= usize::MAX as int);
    }
}

proof fn lemma_pointwise_sum_is_rows_cost(
    instance: ProblemInstance,
    rows: Seq<Seq<usize>>,
    caches: Seq<usize>,
)
    requires
        caches.len() == rows.len(),
        forall|k: int| 0 <= k < rows.len() ==> (#[trigger] caches[k]) as int == instance.cost(rows[k]),
    ensures
        usize_seq_sum(caches) == instance.rows_cost(rows),
    decreases rows.len(),
{
    if rows.len() > 0 {
        lemma_pointwise_sum_is_rows_cost(instance, rows.drop_last(), caches.drop_last());
    }
}

proof fn lemma_usize_seq_sum_take_step(s: Seq<usize>, i: int)
    requires
        0 <= i < s.len(),
    ensures
        usize_seq_sum(s.take(i + 1)) == usize_seq_sum(s.take(i)) + s[i],
{
    assert(s.take(i + 1).drop_last() =~= s.take(i));
    assert(s.take(i + 1).last() == s[i]);
}

proof fn lemma_usize_seq_sum_take_le(s: Seq<usize>, i: int)
    requires
        0 <= i <= s.len(),
    ensures
        usize_seq_sum(s.take(i)) <= usize_seq_sum(s),
    decreases s.len() - i,
{
    if i == s.len() {
        assert(s.take(i) =~= s);
    } else {
        lemma_usize_seq_sum_take_step(s, i);
        lemma_usize_seq_sum_take_le(s, i + 1);
    }
}

impl Clone for ProblemSolution {
    /// A deep copy: the copy has the same sequences and the same cached
    /// costs.
    fn clone(&self) -> (r: Self)
        ensures
            r.rows() == self.rows(),
            r.caches() == self.caches(),
    {
        let mut matrix: Vec<Vec<usize>> = Vec::new();
        let mut i: usize = 0;
        while i < self.task_assignment_matrix.len()
            invariant
                i <= self.task_assignment_matrix@.len(),
                matrix@.len() == i,
                forall|k: int| 0 <= k < i ==> (#[trigger] matrix@[k]@) == self.task_assignment_matrix@[k]@,
            decreases self.task_assignment_matrix@.len() - i,
        {
            matrix.push(clone_row(&self.task_assignment_matrix[i]));
            i = i + 1;
        }
        let r = ProblemSolution {
            tcts_by_machine: clone_row(&self.tcts_by_machine),
            task_assignment_matrix: matrix,
        };
        proof {
            assert(r.rows() =~= self.rows());
        }
        r
    }
}

/// A sequence whose multiset holds nothing twice has no duplicates.
pub proof fn lemma_no_dup_from_counts(s: Seq<usize>)
    requires
        forall|x: usize| s.to_multiset().count(x) <= 1,
    ensures
        s.no_duplicates(),
{
    broadcast use vstd::seq_lib::group_to_multiset_ensures;

    assert forall|x: usize| s.to_multiset().contains(x) implies s.to_multiset().count(x) == 1 by {}
    s.lemma_multiset_has_no_duplicates_conv();
}

/// Exchanging two positions leaves the multiset of a sequence unchanged.
pub proof fn lemma_swap_seq_multiset(s: Seq<usize>, i: int, j: int)
    requires
        0 <= i < s.len(),
        0 <= j < s.len(),
        i != j,
    ensures
        swap_seq(s, i, j).to_multiset() == s.to_multiset(),
        swap_seq(s, i, j).len() == s.len(),
{
    broadcast use vstd::multiset::group_multiset_axioms;
    broadcast use vstd::seq_lib::group_to_multiset_ensures;

    let s1 = s.update(i, s[j]);
    assert(s.contains(s[i]));
    assert(s1[j] == s[j]);
    assert(s1.contains(s1[j]));
    assert(s1.to_multiset() == s.to_multiset().insert(s[j]).remove(s[i]));
    assert(swap_seq(s, i, j).to_multiset() == s1.to_multiset().insert(s[i]).remove(s1[j]));
    assert(swap_seq(s, i, j).to_multiset() =~= s.to_multiset());
}

/// Moving one element to another position leaves the multiset unchanged.
pub proof fn lemma_reinsert_seq_multiset(s: Seq<usize>, from: int, to: int)
    requires
        0 <= from < s.len(),
        0 <= to < s.len(),
    ensures
        reinsert_seq(s, from, to).to_multiset() == s.to_multiset(),
        reinsert_seq(s, from, to).len() == s.len(),
{
    broadcast use vstd::multiset::group_multiset_axioms;
    broadcast use vstd::seq_lib::group_to_multiset_ensures;

    assert(s.contains(s[from]));
    assert(s.remove(from).to_multiset() == s.to_multiset().remove(s[from]));
    assert(reinsert_seq(s, from, to).to_multiset() == s.to_multiset().remove(s[from]).insert(
        s[from],
    ));
    assert(reinsert_seq(s, from, to).to_multiset() =~= s.to_multiset());
}

impl ProblemSolution {
    /// Well-formedness without the no-duplicates part: used across the two
    /// steps of a move that touches two machines.
    pub open spec fn consistent(self, instance: ProblemInstance) -> bool {
        &&& self.caches().len() == self.rows().len()
        &&& instance.rows_valid(self.rows())
        &&& forall|k: int|
            0 <= k < self.rows().len() ==> (#[trigger] self.caches()[k]) as int == instance.cost(
                self.rows()[k],
            )
    }

    /// Each machine's sequence of a well-formed solution has no repeats.
    pub proof fn lemma_row_no_dup(self, instance: ProblemInstance, k: int)
        requires
            self.wf(instance),
            0 <= k < self.rows().len(),
        ensures
            self.rows()[k].no_duplicates(),
            forall|x: usize| self.rows()[k].to_multiset().count(x) <= 1,
    {
        crate::problem_instance::cost::lemma_row_mset_le_rows_mset(self.rows(), k);
        lemma_no_dup_from_counts(self.rows()[k]);
    }

    /// Two machines of a well-formed solution share no task.
    pub proof fn lemma_rows_disjoint(self, instance: ProblemInstance, a: int, b: int)
        requires
            self.wf(instance),
            0 <= a < self.rows().len(),
            0 <= b < self.rows().len(),
            a != b,
        ensures
            forall|x: usize|
                #![all_triggers]
                self.rows()[a].to_multiset().count(x) + self.rows()[b].to_multiset().count(x) <= 1,
    {
        crate::problem_instance::cost::lemma_two_row_msets_le(self.rows(), a, b);
    }

    /// Copy of machine `k`'s sequence with positions `i` and `j` exchanged.
    fn row_swapped(&self, k: usize, i: usize, j: usize) -> (r: Vec<usize>)
        requires
            (k as int) < self.rows().len(),
            (i as int) < self.rows()[k as int].len(),
            (j as int) < self.rows()[k as int].len(),
        ensures
            r@ == swap_seq(self.rows()[k as int], i as int, j as int),
    {
        let mut row = clone_row(&self.task_assignment_matrix[k]);
        let a = row[i];
        let b = row[j];
        row[i] = b;
        row[j] = a;
        row
    }

    /// Copy of machine `k`'s sequence with the task at `from` moved to
    /// position `to`.
    fn row_reinserted(&self, k: usize, from: usize, to: usize) -> (r: Vec<usize>)
        requires
            (k as int) < self.rows().len(),
            (from as int) < self.rows()[k as int].len(),
            (to as int) < self.rows()[k as int].len(),
        ensures
            r@ == reinsert_seq(self.rows()[k as int], from as int, to as int),
    {
        let mut row = clone_row(&self.task_assignment_matrix[k]);
        let task = row.remove(from);
        row.insert(to, task);
        row
    }

    /// Copy of machine `k`'s sequence with position `i` replaced by `val`.
    fn row_replaced(&self, k: usize, i: usize, val: usize) -> (r: Vec<usize>)
        requires
            (k as int) < self.rows().len(),
            (i as int) < self.rows()[k as int].len(),
        ensures
            r@ == self.rows()[k as int].update(i as int, val),
    {
        let mut row = clone_row(&self.task_assignment_matrix[k]);
        row[i] = val;
        row
    }

    /// Copy of machine `k`'s sequence with position `i` removed.
    fn row_removed(&self, k: usize, i: usize) -> (r: Vec<usize>)
        requires
            (k as int) < self.rows().len(),
            (i as int) < self.rows()[k as int].len(),
        ensures
            r@ == self.rows()[k as int].remove(i as int),
    {
        let mut row = clone_row(&self.task_assignment_matrix[k]);
        row.remove(i);
        row
    }

    /// Copy of machine `k`'s sequence with `val` inserted at `pos`.
    fn row_inserted(&self, k: usize, pos: usize, val: usize) -> (r: Vec<usize>)
        requires
            (k as int) < self.rows().len(),
            (pos as int) <= self.rows()[k as int].len(),
            self.rows()[k as int].len() < usize::MAX,
        ensures
            r@ == self.rows()[k as int].insert(pos as int, val),
    {
        let mut row = clone_row(&self.task_assignment_matrix[k]);
        row.insert(pos, val);
        row
    }

    /// Replaces machine `k`'s sequence and refreshes its cached cost.
    fn commit_row(&mut self, instance: &ProblemInstance, k: usize, row: Vec<usize>)
        requires
            old(self).consistent(*instance),
            instance.wf(),
            (k as int) < old(self).rows().len(),
            instance.valid_tasks(row@),
            instance.cost(row@) <= usize::MAX as int,
        ensures
            final(self).consistent(*instance),
            final(self).rows() == old(self).rows().update(k as int, row@),
            final(self).caches().len() == old(self).caches().len(),
    {
        let c = instance.calculate_total_completion_time(&row);
        self.task_assignment_matrix[k] = row;
        self.tcts_by_machine[k] = c;
        proof {
            assert(self.rows() =~= old(self).rows().update(k as int, row@));
            assert forall|q: int|
                0 <= q < self.rows().len() implies (#[trigger] self.caches()[q]) as int
                == instance.cost(self.rows()[q]) by {
                if q != k as int {
                    assert(self.rows()[q] == old(self).rows()[q]);
                    assert(self.caches()[q] == old(self).caches()[q]);
                }
            }
        }
    }
}

impl ProblemSolution {
    /// Facts about the sequence a swap inside machine `k` would produce.
    pub proof fn lemma_intra_swap_row_ok(
        self,
        instance: ProblemInstance,
        k: int,
        i: int,
        j: int,
    )
        requires
            self.wf(instance),
            instance.fits(),
            0 <= k < self.rows().len(),
            0 <= i < self.rows()[k].len(),
            0 <= j < self.rows()[k].len(),
            i != j,
        ensures
            instance.valid_tasks(swap_seq(self.rows()[k], i, j)),
            swap_seq(self.rows()[k], i, j).to_multiset() == self.rows()[k].to_multiset(),
            swap_seq(self.rows()[k], i, j).no_duplicates(),
            0 <= instance.cost(swap_seq(self.rows()[k], i, j)) <= usize::MAX as int,
    {
        let s = self.rows()[k];
        let r = swap_seq(s, i, j);
        lemma_swap_seq_multiset(s, i, j);
        assert forall|q: int| 0 <= q < r.len() implies (#[trigger] r[q]) < instance.task_count() by {
            assert(r[q] == s[q] || r[q] == s[i] || r[q] == s[j]);
        }
        self.lemma_row_no_dup(instance, k);
        lemma_no_dup_from_counts(r);
        instance.lemma_single_seq_fits(r);
    }

    /// Facts about the sequence a reinsertion inside machine `k` would
    /// produce.
    pub proof fn lemma_intra_reinsert_row_ok(
        self,
        instance: ProblemInstance,
        k: int,
        from: int,
        to: int,
    )
        requires
            self.wf(instance),
            instance.fits(),
            0 <= k < self.rows().len(),
            0 <= from < self.rows()[k].len(),
            0 <= to < self.rows()[k].len(),
        ensures
            instance.valid_tasks(reinsert_seq(self.rows()[k], from, to)),
            reinsert_seq(self.rows()[k], from, to).to_multiset() == self.rows()[k].to_multiset(),
            reinsert_seq(self.rows()[k], from, to).no_duplicates(),
            0 <= instance.cost(reinsert_seq(self.rows()[k], from, to)) <= usize::MAX as int,
    {
        let s = self.rows()[k];
        let r = reinsert_seq(s, from, to);
        lemma_reinsert_seq_multiset(s, from, to);
        assert forall|q: int| 0 <= q < r.len() implies (#[trigger] r[q]) < instance.task_count() by {
            let removed = s.remove(from);
            assert(forall|w: int| 0 <= w < removed.len() ==> (#[trigger] removed[w]) == s[w] || removed[w] == s[w + 1]);
            assert(r == removed.insert(to, s[from]));
            assert(r[q] == s[from] || (q < to && r[q] == removed[q]) || (q > to && r[q]
                == removed[q - 1]));
        }
        self.lemma_row_no_dup(instance, k);
        lemma_no_dup_from_counts(r);
        instance.lemma_single_seq_fits(r);
    }

    /// Facts about the two sequences an exchange between machines `a` and
    /// `b` would produce.
    pub proof fn lemma_inter_swap_rows_ok(
        self,
        instance: ProblemInstance,
        a: int,
        i: int,
        b: int,
        j: int,
    )
        requires
            self.wf(instance),
            instance.fits(),
            0 <= a < self.rows().len(),
            0 <= b < self.rows().len(),
            a != b,
            0 <= i < self.rows()[a].len(),
            0 <= j < self.rows()[b].len(),
        ensures
            self.rows()[a][i] != self.rows()[b][j],
            instance.valid_tasks(self.rows()[a].update(i, self.rows()[b][j])),
            instance.valid_tasks(self.rows()[b].update(j, self.rows()[a][i])),
            self.rows()[a].update(i, self.rows()[b][j]).no_duplicates(),
            self.rows()[b].update(j, self.rows()[a][i]).no_duplicates(),
            0 <= instance.cost(self.rows()[a].update(i, self.rows()[b][j])) <= usize::MAX as int,
            0 <= instance.cost(self.rows()[b].update(j, self.rows()[a][i])) <= usize::MAX as int,
            forall|t: usize|
                #![all_triggers]
                self.rows()[a].update(i, self.rows()[b][j]).to_multiset().count(t)
                    + self.rows()[b].update(j, self.rows()[a][i]).to_multiset().count(t)
                    == self.rows()[a].to_multiset().count(t)
                    + self.rows()[b].to_multiset().count(t),
    {
        broadcast use vstd::multiset::group_multiset_axioms;
        broadcast use vstd::seq_lib::group_to_multiset_ensures;

        let sa = self.rows()[a];
        let sb = self.rows()[b];
        let x = sa[i];
        let y = sb[j];
        let ra = sa.update(i, y);
        let rb = sb.update(j, x);
        self.lemma_row_no_dup(instance, a);
        self.lemma_row_no_dup(instance, b);
        self.lemma_rows_disjoint(instance, a, b);
        assert(sa.contains(x));
        assert(sb.contains(y));
        assert(sa.to_multiset().count(x) >= 1);
        assert(sb.to_multiset().count(y) >= 1);
        assert(x != y);
        assert(ra.to_multiset() == sa.to_multiset().insert(y).remove(x));
        assert(rb.to_multiset() == sb.to_multiset().insert(x).remove(y));
        assert forall|q: int| 0 <= q < ra.len() implies (#[trigger] ra[q]) < instance.task_count() by {
            assert(ra[q] == sa[q] || ra[q] == y);
        }
        assert forall|q: int| 0 <= q < rb.len() implies (#[trigger] rb[q]) < instance.task_count() by {
            assert(rb[q] == sb[q] || rb[q] == x);
        }
        assert forall|t: usize| ra.to_multiset().count(t) <= 1 by {
            assert(sa.to_multiset().count(y) == 0);
        }
        assert forall|t: usize| rb.to_multiset().count(t) <= 1 by {
            assert(sb.to_multiset().count(x) == 0);
        }
        lemma_no_dup_from_counts(ra);
        lemma_no_dup_from_counts(rb);
        instance.lemma_single_seq_fits(ra);
        instance.lemma_single_seq_fits(rb);
    }

    /// Facts about the two sequences a relocation from machine `a` to
    /// machine `b` would produce.
    pub proof fn lemma_inter_reinsert_rows_ok(
        self,
        instance: ProblemInstance,
        a: int,
        i: int,
        b: int,
        pos: int,
    )
        requires
            self.wf(instance),
            instance.fits(),
            0 <= a < self.rows().len(),
            0 <= b < self.rows().len(),
            a != b,
            0 <= i < self.rows()[a].len(),
            0 <= pos <= self.rows()[b].len(),
            instance.task_count() <= usize::MAX as int,
        ensures
            instance.valid_tasks(self.rows()[a].remove(i)),
            instance.valid_tasks(self.rows()[b].insert(pos, self.rows()[a][i])),
            self.rows()[a].remove(i).no_duplicates(),
            self.rows()[b].insert(pos, self.rows()[a][i]).no_duplicates(),
            self.rows()[b].len() < instance.task_count(),
            0 <= instance.cost(self.rows()[a].remove(i)) <= usize::MAX as int,
            0 <= instance.cost(self.rows()[b].insert(pos, self.rows()[a][i])) <= usize::MAX as int,
            forall|t: usize|
                #![all_triggers]
                self.rows()[a].remove(i).to_multiset().count(t)
                    + self.rows()[b].insert(pos, self.rows()[a][i]).to_multiset().count(t)
                    == self.rows()[a].to_multiset().count(t)
                    + self.rows()[b].to_multiset().count(t),
    {
        broadcast use vstd::multiset::group_multiset_axioms;
        broadcast use vstd::seq_lib::group_to_multiset_ensures;

        let sa = self.rows()[a];
        let sb = self.rows()[b];
        let x = sa[i];
        let ra = sa.remove(i);
        let rb = sb.insert(pos, x);
        self.lemma_row_no_dup(instance, a);
        self.lemma_row_no_dup(instance, b);
        self.lemma_rows_disjoint(instance, a, b);
        assert(sa.contains(x));
        assert(sa.to_multiset().count(x) >= 1);
        assert(sb.to_multiset().count(x) == 0);
        assert(ra.to_multiset() == sa.to_multiset().remove(x));
        assert(rb.to_multiset() == sb.to_multiset().insert(x));
        assert forall|q: int| 0 <= q < ra.len() implies (#[trigger] ra[q]) < instance.task_count() by {
            assert(ra[q] == sa[q] || ra[q] == sa[q + 1]);
        }
        assert forall|q: int| 0 <= q < rb.len() implies (#[trigger] rb[q]) < instance.task_count() by {
            assert(rb[q] == x || (q < pos && rb[q] == sb[q]) || (q > pos && rb[q] == sb[q - 1]));
        }
        lemma_no_dup_from_counts(ra);
        lemma_no_dup_from_counts(rb);
        assert forall|t: usize| rb.to_multiset().count(t) > 0 implies (t as int)
            < instance.task_count() by {
            if t == x {
                assert((x as int) < instance.task_count());
            } else {
                assert(sb.to_multiset().count(t) > 0);
                assert(sb.contains(t));
                let w = choose|w: int| 0 <= w < sb.len() && sb[w] == t;
            }
        }
        crate::problem_instance::cost::lemma_bounded_mset_len(
            rb.to_multiset(),
            instance.task_count(),
        );
        assert(rb.to_multiset().len() == rb.len());
        instance.lemma_single_seq_fits(ra);
        instance.lemma_single_seq_fits(rb);
    }

    /// A machine different from one that holds some task cannot hold every
    /// task of the instance: there is room to insert into it.
    pub proof fn lemma_other_row_not_full(
        self,
        instance: ProblemInstance,
        a: int,
        b: int,
        i: int,
    )
        requires
            self.wf(instance),
            0 <= a < self.rows().len(),
            0 <= b < self.rows().len(),
            a != b,
            0 <= i < self.rows()[a].len(),
            instance.task_count() <= usize::MAX as int,
        ensures
            self.rows()[b].len() < instance.task_count(),
    {
        broadcast use vstd::multiset::group_multiset_axioms;
        broadcast use vstd::seq_lib::group_to_multiset_ensures;

        let sa = self.rows()[a];
        let sb = self.rows()[b];
        let x = sa[i];
        self.lemma_row_no_dup(instance, b);
        self.lemma_rows_disjoint(instance, a, b);
        assert(sa.contains(x));
        assert(sa.to_multiset().count(x) >= 1);
        assert(sb.to_multiset().count(x) == 0);
        let mb = sb.to_multiset().insert(x);
        assert forall|t: usize| mb.count(t) > 0 implies (t as int) < instance.task_count() by {
            if t != x {
                assert(sb.to_multiset().count(t) > 0);
                assert(sb.contains(t));
                let w = choose|w: int| 0 <= w < sb.len() && sb[w] == t;
            } else {
                assert((sa[i] as usize) < instance.task_count());
            }
        }
        crate::problem_instance::cost::lemma_bounded_mset_len(mb, instance.task_count());
        assert(mb.len() == sb.to_multiset().len() + 1);
        assert(sb.to_multiset().len() == sb.len());
    }

    /// Cost of machine `k`'s sequence after an exchange of positions `i` and
    /// `j`, without changing the solution.
    pub(crate) fn eval_intra_swap(
        &self,
        instance: &ProblemInstance,
        k: usize,
        i: usize,
        j: usize,
    ) -> (c: usize)
        requires
            self.wf(*instance),
            instance.wf(),
            instance.fits(),
            (k as int) < self.rows().len(),
            (i as int) < self.rows()[k as int].len(),
            (j as int) < self.rows()[k as int].len(),
            i != j,
        ensures
            c as int == instance.cost(swap_seq(self.rows()[k as int], i as int, j as int)),
    {
        proof {
            self.lemma_intra_swap_row_ok(*instance, k as int, i as int, j as int);
        }
        let row = self.row_swapped(k, i, j);
        instance.calculate_total_completion_time(&row)
    }

    /// Cost of machine `k`'s sequence after moving the task at `from` to
    /// position `to`, without changing the solution.
    pub(crate) fn eval_intra_reinsert(
        &self,
        instance: &ProblemInstance,
        k: usize,
        from: usize,
        to: usize,
    ) -> (c: usize)
        requires
            self.wf(*instance),
            instance.wf(),
            instance.fits(),
            (k as int) < self.rows().len(),
            (from as int) < self.rows()[k as int].len(),
            (to as int) < self.rows()[k as int].len(),
        ensures
            c as int == instance.cost(reinsert_seq(self.rows()[k as int], from as int, to as int)),
    {
        proof {
            self.lemma_intra_reinsert_row_ok(*instance, k as int, from as int, to as int);
        }
        let row = self.row_reinserted(k, from, to);
        instance.calculate_total_completion_time(&row)
    }

    /// Costs of the two sequences after exchanging position `i` of machine
    /// `a` with position `j` of machine `b`, without changing the solution.
    pub(crate) fn eval_inter_swap(
        &self,
        instance: &ProblemInstance,
        a: usize,
        i: usize,
        b: usize,
        j: usize,
    ) -> (c: (usize, usize))
        requires
            self.wf(*instance),
            instance.wf(),
            instance.fits(),
            (a as int) < self.rows().len(),
            (b as int) < self.rows().len(),
            a != b,
            (i as int) < self.rows()[a as int].len(),
            (j as int) < self.rows()[b as int].len(),
        ensures
            c.0 as int == instance.cost(
                self.rows()[a as int].update(i as int, self.rows()[b as int][j as int]),
            ),
            c.1 as int == instance.cost(
                self.rows()[b as int].update(j as int, self.rows()[a as int][i as int]),
            ),
    {
        proof {
            self.lemma_inter_swap_rows_ok(*instance, a as int, i as int, b as int, j as int);
        }
        let x = self.task_assignment_matrix[a][i];
        let y = self.task_assignment_matrix[b][j];
        let row_a = self.row_replaced(a, i, y);
        let row_b = self.row_replaced(b, j, x);
        let ca = instance.calculate_total_completion_time(&row_a);
        let cb = instance.calculate_total_completion_time(&row_b);
        (ca, cb)
    }

    /// Costs of the two sequences after moving the task at position `i` of
    /// machine `a` to position `pos` of machine `b`, without changing the
    /// solution.
    pub(crate) fn eval_inter_reinsert(
        &self,
        instance: &ProblemInstance,
        a: usize,
        i: usize,
        b: usize,
        pos: usize,
    ) -> (c: (usize, usize))
        requires
            self.wf(*instance),
            instance.wf(),
            instance.fits(),
            (a as int) < self.rows().len(),
            (b as int) < self.rows().len(),
            a != b,
            (i as int) < self.rows()[a as int].len(),
            (pos as int) <= self.rows()[b as int].len(),
            instance.task_count() <= usize::MAX as int,
        ensures
            c.0 as int == instance.cost(self.rows()[a as int].remove(i as int)),
            c.1 as int == instance.cost(
                self.rows()[b as int].insert(pos as int, self.rows()[a as int][i as int]),
            ),
    {
        proof {
            self.lemma_inter_reinsert_rows_ok(*instance, a as int, i as int, b as int, pos as int);
        }
        let x = self.task_assignment_matrix[a][i];
        let row_a = self.row_removed(a, i);
        let row_b = self.row_inserted(b, pos, x);
        let ca = instance.calculate_total_completion_time(&row_a);
        let cb = instance.calculate_total_completion_time(&row_b);
        (ca, cb)
    }

    /// Facts about inserting a task that the solution does not hold yet
    /// into machine `k`.
    pub proof fn lemma_fresh_insert_row_ok(
        self,
        instance: ProblemInstance,
        k: int,
        pos: int,
        x: usize,
    )
        requires
            self.wf(instance),
            instance.fits(),
            0 <= k < self.rows().len(),
            0 <= pos <= self.rows()[k].len(),
            (x as int) < instance.task_count(),
            self.task_mset().count(x) == 0,
            instance.task_count() <= usize::MAX as int,
        ensures
            instance.valid_tasks(self.rows()[k].insert(pos, x)),
            self.rows()[k].insert(pos, x).no_duplicates(),
            self.rows()[k].len() < instance.task_count(),
            0 <= instance.cost(self.rows()[k].insert(pos, x)) <= usize::MAX as int,
            forall|t: usize|
                #![all_triggers]
                self.rows()[k].insert(pos, x).to_multiset().count(t)
                    == self.rows()[k].to_multiset().count(t) + if t == x {
                    1int
                } else {
                    0int
                },
    {
        broadcast use vstd::multiset::group_multiset_axioms;
        broadcast use vstd::seq_lib::group_to_multiset_ensures;

        let sk = self.rows()[k];
        let rk = sk.insert(pos, x);
        self.lemma_row_no_dup(instance, k);
        crate::problem_instance::cost::lemma_row_mset_le_rows_mset(self.rows(), k);
        assert(sk.to_multiset().count(x) == 0);
        assert(rk.to_multiset() == sk.to_multiset().insert(x));
        assert forall|q: int| 0 <= q < rk.len() implies (#[trigger] rk[q]) < instance.task_count() by {
            assert(rk[q] == x || (q < pos && rk[q] == sk[q]) || (q > pos && rk[q] == sk[q - 1]));
        }
        lemma_no_dup_from_counts(rk);
        assert forall|t: usize| rk.to_multiset().count(t) > 0 implies (t as int)
            < instance.task_count() by {
            if t != x {
                assert(sk.to_multiset().count(t) > 0);
                assert(sk.contains(t));
                let w = choose|w: int| 0 <= w < sk.len() && sk[w] == t;
            }
        }
        crate::problem_instance::cost::lemma_bounded_mset_len(
            rk.to_multiset(),
            instance.task_count(),
        );
        assert(rk.to_multiset().len() == rk.len());
        instance.lemma_single_seq_fits(rk);
    }

    /// Cost of machine `k`'s sequence after inserting the fresh task `x` at
    /// `pos`, without changing the solution.
    pub(crate) fn eval_insert(
        &self,
        instance: &ProblemInstance,
        k: usize,
        pos: usize,
        x: usize,
    ) -> (c: usize)
        requires
            self.wf(*instance),
            instance.wf(),
            instance.fits(),
            (k as int) < self.rows().len(),
            (pos as int) <= self.rows()[k as int].len(),
            (x as int) < instance.task_count(),
            self.task_mset().count(x) == 0,
            instance.task_count() <= usize::MAX as int,
        ensures
            c as int == instance.cost(self.rows()[k as int].insert(pos as int, x)),
    {
        proof {
            self.lemma_fresh_insert_row_ok(*instance, k as int, pos as int, x);
        }
        let row = self.row_inserted(k, pos, x);
        instance.calculate_total_completion_time(&row)
    }

    /// Inserts the fresh task `x` at position `pos` of machine `k` and
    /// refreshes that machine's cached cost.
    pub(crate) fn apply_insert(
        &mut self,
        instance: &ProblemInstance,
        k: usize,
        pos: usize,
        x: usize,
    )
        requires
            old(self).wf(*instance),
            instance.wf(),
            instance.fits(),
            (k as int) < old(self).rows().len(),
            (pos as int) <= old(self).rows()[k as int].len(),
            (x as int) < instance.task_count(),
            old(self).task_mset().count(x) == 0,
            instance.task_count() <= usize::MAX as int,
        ensures
            final(self).wf(*instance),
            final(self).rows() == old(self).rows().update(
                k as int,
                old(self).rows()[k as int].insert(pos as int, x),
            ),
            final(self).caches().len() == old(self).caches().len(),
            forall|t: usize|
                #![all_triggers]
                final(self).task_mset().count(t) == old(self).task_mset().count(t) + if t == x {
                    1int
                } else {
                    0int
                },
    {
        proof {
            self.lemma_fresh_insert_row_ok(*instance, k as int, pos as int, x);
        }
        let row = self.row_inserted(k, pos, x);
        self.commit_row(instance, k, row);
        proof {
            lemma_rows_mset_update(
                old(self).rows(),
                k as int,
                old(self).rows()[k as int].insert(pos as int, x),
            );
        }
    }

    /// Appends a one-task sequence as a new machine, with its cached cost.
    pub(crate) fn push_singleton_row(&mut self, instance: &ProblemInstance, x: usize, c: usize)
        requires
            old(self).wf(*instance),
            instance.wf(),
            (x as int) < instance.task_count(),
            old(self).task_mset().count(x) == 0,
            c as int == instance.cost(seq![x]),
        ensures
            final(self).wf(*instance),
            final(self).rows() == old(self).rows().push(seq![x]),
            final(self).caches().len() == old(self).caches().len() + 1,
            forall|t: usize|
                #![all_triggers]
                final(self).task_mset().count(t) == old(self).task_mset().count(t) + if t == x {
                    1int
                } else {
                    0int
                },
    {
        broadcast use vstd::multiset::group_multiset_axioms;
        broadcast use vstd::seq_lib::group_to_multiset_ensures;

        let mut row: Vec<usize> = Vec::new();
        row.push(x);
        proof {
            assert(row@ =~= seq![x]);
        }
        self.task_assignment_matrix.push(row);
        self.tcts_by_machine.push(c);
        proof {
            let rows2 = self.rows();
            let rows1 = old(self).rows();
            assert(rows2 =~= rows1.push(seq![x]));
            assert(rows2.drop_last() =~= rows1);
            assert(rows2.last() == seq![x]);
            assert(seq![x].to_multiset() =~= Multiset::empty().insert(x));
            assert forall|q: int|
                0 <= q < rows2.len() implies instance.valid_tasks(#[trigger] rows2[q]) by {
                if q < rows1.len() {
                    assert(rows2[q] == rows1[q]);
                } else {
                    assert(rows2[q] =~= seq![x]);
                    assert(forall|w: int| 0 <= w < rows2[q].len() ==> rows2[q][w] == x);
                }
            }
            assert forall|q: int|
                0 <= q < rows2.len() implies (#[trigger] self.caches()[q]) as int == instance.cost(
                rows2[q]) by {
                if q < rows1.len() {
                    assert(rows2[q] == rows1[q]);
                    assert(self.caches()[q] == old(self).caches()[q]);
                }
            }
        }
    }

    /// Exchanges the tasks at positions `i` and `j` of machine `k` and
    /// refreshes that machine's cached cost.
    pub(crate) fn apply_intra_swap(
        &mut self,
        instance: &ProblemInstance,
        k: usize,
        i: usize,
        j: usize,
    )
        requires
            old(self).wf(*instance),
            instance.wf(),
            instance.fits(),
            (k as int) < old(self).rows().len(),
            (i as int) < old(self).rows()[k as int].len(),
            (j as int) < old(self).rows()[k as int].len(),
            i != j,
        ensures
            final(self).wf(*instance),
            final(self).rows() == old(self).rows().update(
                k as int,
                swap_seq(old(self).rows()[k as int], i as int, j as int),
            ),
            final(self).task_mset() == old(self).task_mset(),
            final(self).caches().len() == old(self).caches().len(),
    {
        proof {
            self.lemma_intra_swap_row_ok(*instance, k as int, i as int, j as int);
        }
        let row = self.row_swapped(k, i, j);
        self.commit_row(instance, k, row);
        proof {
            lemma_rows_mset_update(
                old(self).rows(),
                k as int,
                swap_seq(old(self).rows()[k as int], i as int, j as int),
            );
            assert(self.task_mset() =~= old(self).task_mset());
        }
    }

    /// Moves the task at position `from` of machine `k` to position `to` of
    /// the same machine and refreshes that machine's cached cost.
    pub(crate) fn apply_intra_reinsert(
        &mut self,
        instance: &ProblemInstance,
        k: usize,
        from: usize,
        to: usize,
    )
        requires
            old(self).wf(*instance),
            instance.wf(),
            instance.fits(),
            (k as int) < old(self).rows().len(),
            (from as int) < old(self).rows()[k as int].len(),
            (to as int) < old(self).rows()[k as int].len(),
        ensures
            final(self).wf(*instance),
            final(self).rows() == old(self).rows().update(
                k as int,
                reinsert_seq(old(self).rows()[k as int], from as int, to as int),
            ),
            final(self).task_mset() == old(self).task_mset(),
            final(self).caches().len() == old(self).caches().len(),
    {
        proof {
            self.lemma_intra_reinsert_row_ok(*instance, k as int, from as int, to as int);
        }
        let row = self.row_reinserted(k, from, to);
        self.commit_row(instance, k, row);
        proof {
            lemma_rows_mset_update(
                old(self).rows(),
                k as int,
                reinsert_seq(old(self).rows()[k as int], from as int, to as int),
            );
            assert(self.task_mset() =~= old(self).task_mset());
        }
    }

    /// Exchanges the task at position `i` of machine `a` with the task at
    /// position `j` of machine `b` and refreshes both cached costs.
    pub(crate) fn apply_inter_swap(
        &mut self,
        instance: &ProblemInstance,
        a: usize,
        i: usize,
        b: usize,
        j: usize,
    )
        requires
            old(self).wf(*instance),
            instance.wf(),
            instance.fits(),
            (a as int) < old(self).rows().len(),
            (b as int) < old(self).rows().len(),
            a != b,
            (i as int) < old(self).rows()[a as int].len(),
            (j as int) < old(self).rows()[b as int].len(),
        ensures
            final(self).wf(*instance),
            final(self).rows() == old(self).rows().update(
                a as int,
                old(self).rows()[a as int].update(i as int, old(self).rows()[b as int][j as int]),
            ).update(
                b as int,
                old(self).rows()[b as int].update(j as int, old(self).rows()[a as int][i as int]),
            ),
            final(self).task_mset() == old(self).task_mset(),
            final(self).caches().len() == old(self).caches().len(),
    {
        proof {
            self.lemma_inter_swap_rows_ok(*instance, a as int, i as int, b as int, j as int);
        }
        let ghost rows0 = self.rows();
        let ghost ra = rows0[a as int].update(i as int, rows0[b as int][j as int]);
        let ghost rb = rows0[b as int].update(j as int, rows0[a as int][i as int]);
        let x = self.task_assignment_matrix[a][i];
        let y = self.task_assignment_matrix[b][j];
        let row_a = self.row_replaced(a, i, y);
        let row_b = self.row_replaced(b, j, x);
        self.commit_row(instance, a, row_a);
        proof {
            assert(self.rows()[b as int] == rows0[b as int]);
            assert(self.rows()[b as int].update(j as int, x) == rb);
        }
        self.commit_row(instance, b, row_b);
        proof {
            assert(self.rows() =~= rows0.update(a as int, ra).update(b as int, rb));
            lemma_rows_mset_update(rows0, a as int, ra);
            lemma_rows_mset_update(rows0.update(a as int, ra), b as int, rb);
            assert(rows0.update(a as int, ra)[b as int] == rows0[b as int]);
            assert forall|t: usize| self.task_mset().count(t) == old(self).task_mset().count(t) by {
                assert(rows_mset(rows0.update(a as int, ra)).count(t) + rows0[a as int].to_multiset().count(t)
                    == rows_mset(rows0).count(t) + ra.to_multiset().count(t));
                assert(rows_mset(rows0.update(a as int, ra).update(b as int, rb)).count(t)
                    + rows0[b as int].to_multiset().count(t)
                    == rows_mset(rows0.update(a as int, ra)).count(t) + rb.to_multiset().count(t));
            }
            assert(self.task_mset() =~= old(self).task_mset());
            assert(rows_no_dup(self.rows()));
        }
    }

    /// Removes the task at position `i` of machine `a`, inserts it at
    /// position `pos` of machine `b` and refreshes both cached costs.
    pub(crate) fn apply_inter_reinsert(
        &mut self,
        instance: &ProblemInstance,
        a: usize,
        i: usize,
        b: usize,
        pos: usize,
    )
        requires
            old(self).wf(*instance),
            instance.wf(),
            instance.fits(),
            (a as int) < old(self).rows().len(),
            (b as int) < old(self).rows().len(),
            a != b,
            (i as int) < old(self).rows()[a as int].len(),
            (pos as int) <= old(self).rows()[b as int].len(),
            instance.task_count() <= usize::MAX as int,
        ensures
            final(self).wf(*instance),
            final(self).rows() == old(self).rows().update(
                a as int,
                old(self).rows()[a as int].remove(i as int),
            ).update(
                b as int,
                old(self).rows()[b as int].insert(pos as int, old(self).rows()[a as int][i as int]),
            ),
            final(self).task_mset() == old(self).task_mset(),
            final(self).caches().len() == old(self).caches().len(),
    {
        proof {
            self.lemma_inter_reinsert_rows_ok(*instance, a as int, i as int, b as int, pos as int);
        }
        let ghost rows0 = self.rows();
        let ghost ra = rows0[a as int].remove(i as int);
        let ghost rb = rows0[b as int].insert(pos as int, rows0[a as int][i as int]);
        let x = self.task_assignment_matrix[a][i];
        let row_a = self.row_removed(a, i);
        let row_b = self.row_inserted(b, pos, x);
        self.commit_row(instance, a, row_a);
        proof {
            assert(self.rows()[b as int] == rows0[b as int]);
        }
        self.commit_row(instance, b, row_b);
        proof {
            assert(self.rows() =~= rows0.update(a as int, ra).update(b as int, rb));
            lemma_rows_mset_update(rows0, a as int, ra);
            lemma_rows_mset_update(rows0.update(a as int, ra), b as int, rb);
            assert(rows0.update(a as int, ra)[b as int] == rows0[b as int]);
            assert forall|t: usize| self.task_mset().count(t) == old(self).task_mset().count(t) by {
                assert(rows_mset(rows0.update(a as int, ra)).count(t) + rows0[a as int].to_multiset().count(t)
                    == rows_mset(rows0).count(t) + ra.to_multiset().count(t));
                assert(rows_mset(rows0.update(a as int, ra).update(b as int, rb)).count(t)
                    + rows0[b as int].to_multiset().count(t)
                    == rows_mset(rows0.update(a as int, ra)).count(t) + rb.to_multiset().count(t));
            }
            assert(self.task_mset() =~= old(self).task_mset());
            assert(rows_no_dup(self.rows()));
        }
    }
}

/// A verified element-wise copy of a vector of machine words.
pub fn clone_row(v: &Vec<usize>) -> (r: Vec<usize>)
    ensures
        r@ == v@,
{
    let mut r: Vec<usize> = Vec::new();
    let mut i: usize = 0;
    while i < v.len()
        invariant
            i <= v@.len(),
            r@ == v@.take(i as int),
        decreases v@.len() - i,
    {
        r.push(v[i]);
        proof {
            assert(r@ =~= v@.take(i + 1));
        }
        i = i + 1;
    }
    proof {
        assert(r@ =~= v@);
    }
    r
}

} // verus!
