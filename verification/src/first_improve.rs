//! First-improvement search: take the earliest move that lowers the makespan,
//! and scan again from the start.

use crate::allocator::Allocator;
use crate::model::{
    counts, grand_total, lemma_loads_bounded, lemma_migration_conserves, lemma_put_back,
    lemma_sum_pointwise, lemma_sum_scaled, lemma_sum_update, lemma_take_back, lemma_without_last,
    lemma_without_last_valid, max_load, migrated, sum, task_count, with_task, without_last,
};
use vstd::prelude::*;

verus! {

/// Moving the newest task of machine `i` to machine `j` lowers the makespan.
pub open spec fn improves(ms: Seq<Seq<i32>>, i: int, j: int) -> bool {
    ms[i].len() > 0 && max_load(migrated(ms, i, j)) < max_load(ms)
}

/// The pair `(a, b)` comes before the pair `(i, j)` in the scan.
pub open spec fn scanned_before(a: int, b: int, i: int, j: int) -> bool {
    a < i || (a == i && b < j)
}

/// The move from `i` to a later machine `j` lowers the makespan, and no move
/// that the scan tries before it does.
pub open spec fn first_improving(ms: Seq<Seq<i32>>, i: int, j: int) -> bool {
    &&& 0 <= i < j < ms.len()
    &&& improves(ms, i, j)
    &&& forall|a: int, b: int|
        0 <= a < b < ms.len() && scanned_before(a, b, i, j) ==> !#[trigger] improves(ms, a, b)
}

/// No move from a machine to a later one lowers the makespan.
pub open spec fn local_optimum(ms: Seq<Seq<i32>>) -> bool {
    forall|a: int, b: int| 0 <= a < b < ms.len() ==> !#[trigger] improves(ms, a, b)
}

/// There is one first improving move at most.
pub proof fn lemma_first_improving_unique(ms: Seq<Seq<i32>>, i: int, j: int, a: int, b: int)
    requires
        first_improving(ms, i, j),
        first_improving(ms, a, b),
    ensures
        a == i,
        b == j,
{
    if scanned_before(a, b, i, j) {
        assert(improves(ms, a, b));
    } else if scanned_before(i, j, a, b) {
        assert(improves(ms, i, j));
    }
}

/// Schedule `b` is schedule `a` after its first improving move.
pub open spec fn first_improve_step(a: Seq<Seq<i32>>, b: Seq<Seq<i32>>) -> bool {
    exists|i: int, j: int| #[trigger] first_improving(a, i, j) && b == migrated(a, i, j)
}

/// Each schedule of the trace but the first is the one before it after its
/// first improving move.
pub open spec fn first_improve_trace(trace: Seq<Seq<Seq<i32>>>) -> bool {
    forall|k: int|
        0 <= k < trace.len() - 1 ==> first_improve_step(#[trigger] trace[k], trace[k + 1])
}

/// For each machine, the number of its tasks times the number of machines
/// after it: the moves to a later machine that its tasks can still make.
pub open spec fn moves_ahead_of(ms: Seq<Seq<i32>>) -> Seq<int> {
    Seq::new(ms.len(), |i: int| (ms.len() - 1 - i) * ms[i].len())
}

/// The moves to a later machine that the tasks of a schedule can still make.
pub open spec fn moves_ahead(ms: Seq<Seq<i32>>) -> int {
    sum(moves_ahead_of(ms))
}

/// A move to a later machine uses up as many of the moves ahead as it skips
/// machines.
pub proof fn lemma_move_uses_moves_ahead(ms: Seq<Seq<i32>>, i: int, j: int)
    requires
        0 <= i < j < ms.len(),
        ms[i].len() > 0,
    ensures
        moves_ahead(migrated(ms, i, j)) == moves_ahead(ms) - (j - i),
{
    let n = ms.len() as int;
    let held = without_last(ms, i);
    let done = with_task(held, j, ms[i].last());
    let li = ms[i].len() as int;
    let lj = ms[j].len() as int;
    assert(moves_ahead_of(held) =~= moves_ahead_of(ms).update(i, (n - 1 - i) * (li - 1)));
    lemma_sum_update(moves_ahead_of(ms), i, (n - 1 - i) * (li - 1));
    assert((n - 1 - i) * (li - 1) == (n - 1 - i) * li - (n - 1 - i)) by (nonlinear_arith);
    assert(held[j] == ms[j]);
    assert(moves_ahead_of(done) =~= moves_ahead_of(held).update(j, (n - 1 - j) * (lj + 1)));
    lemma_sum_update(moves_ahead_of(held), j, (n - 1 - j) * (lj + 1));
    assert((n - 1 - j) * (lj + 1) == (n - 1 - j) * lj + (n - 1 - j)) by (nonlinear_arith);
}

/// The moves ahead are at most one for each pair of a task and a machine
/// but the first.
pub proof fn lemma_moves_ahead_bounded(ms: Seq<Seq<i32>>)
    requires
        ms.len() >= 1,
    ensures
        0 <= moves_ahead(ms) <= (ms.len() - 1) * task_count(ms),
{
    let n = ms.len() as int;
    let w = moves_ahead_of(ms);
    let c = counts(ms);
    let scaled = c.map_values(|v: int| (n - 1) * v);
    let zeros = c.map_values(|v: int| 0 * v);
    assert forall|k: int| 0 <= k < n implies zeros[k] <= w[k] && w[k] <= scaled[k] by {
        let l = ms[k].len() as int;
        assert(c[k] == l);
        assert(0 * l <= (n - 1 - k) * l && (n - 1 - k) * l <= (n - 1) * l) by (nonlinear_arith)
            requires
                0 <= k < n,
                0 <= l,
        ;
    }
    lemma_sum_pointwise(zeros, w);
    lemma_sum_pointwise(w, scaled);
    lemma_sum_scaled(c, 0);
    lemma_sum_scaled(c, n - 1);
    assert(0 * sum(c) == 0);
}

impl Allocator {
    /// Scans the pairs of a machine and a later one in order and makes the
    /// first move that lowers the makespan. Where there is none the schedule
    /// is left as it was.
    pub fn first_improving_move(&mut self) -> (found: bool)
        requires
            old(self).wf(),
        ensures
            final(self).wf(),
            found ==> first_improve_step(old(self)@, final(self)@),
            found ==> final(self).cached_makespan() < old(self).cached_makespan(),
            found ==> moves_ahead(final(self)@) < moves_ahead(old(self)@),
            !found ==> final(self)@ == old(self)@ && local_optimum(old(self)@),
            final(self)@.len() == old(self)@.len(),
            grand_total(final(self)@) == grand_total(old(self)@),
            task_count(final(self)@) == task_count(old(self)@),
    {
        let n = self.machine_count();
        let best = self.get_makespan();
        let ghost start = self@;
        let mut i: usize = 0;
        while i < n
            invariant
                i <= n,
                n == start.len(),
                self.wf(),
                self@ == start,
                best == max_load(start),
                best == old(self).cached_makespan(),
                start == old(self)@,
                forall|a: int, b: int|
                    0 <= a < b < n && a < i ==> !#[trigger] improves(start, a, b),
            decreases n - i,
        {
            match self.pop_task(i) {
                None => {},
                Some(task) => {
                    let ghost held = self@;
                    proof {
                        lemma_without_last(start, i as int);
                        lemma_without_last_valid(start, i as int);
                    }
                    let mut j: usize = i + 1;
                    while j < n
                        invariant
                            i < j <= n,
                            n == start.len(),
                            self.wf(),
                            self@ == held,
                            held == without_last(start, i as int),
                            start[i as int].len() > 0,
                            task == start[i as int].last(),
                            task >= 0,
                            grand_total(held) + task == grand_total(start),
                            grand_total(start) <= i32::MAX,
                            best == max_load(start),
                            best == old(self).cached_makespan(),
                            start == old(self)@,
                            forall|b: int| i < b < j ==> !#[trigger] improves(start, i as int, b),
                            forall|a: int, b: int|
                                0 <= a < b < n && a < i ==> !#[trigger] improves(start, a, b),
                        decreases n - j,
                    {
                        self.push_task(j, task);
                        if self.get_makespan() < best {
                            proof {
                                lemma_migration_conserves(start, i as int, j as int);
                                lemma_move_uses_moves_ahead(start, i as int, j as int);
                                assert(improves(start, i as int, j as int));
                                assert(first_improving(start, i as int, j as int));
                            }
                            return true;
                        }
                        proof {
                            lemma_take_back(held, j as int, task);
                        }
                        self.pop_task(j);
                        j += 1;
                    }
                    proof {
                        lemma_put_back(start, i as int);
                    }
                    self.push_task(i, task);
                },
            }
            i += 1;
        }
        false
    }

    /// Makes first-improving moves until none is left, and counts them.
    ///
    /// The schedule goes through a trace of first improving moves, one per
    /// count, and ends where no move from a machine to a later one lowers
    /// the makespan. Every move lowers the makespan and takes a task to a
    /// later machine, so the count is at most the drop of the makespan, and
    /// at most one for each pair of a task and a machine but the first.
    pub fn search_by_first_improve(&mut self) -> (count: i32)
        requires
            old(self).wf(),
        ensures
            final(self).wf(),
            local_optimum(final(self)@),
            exists|trace: Seq<Seq<Seq<i32>>>|
                #![trigger first_improve_trace(trace)]
                {
                    &&& first_improve_trace(trace)
                    &&& trace.len() == count + 1
                    &&& trace[0] == old(self)@
                    &&& trace[count as int] == final(self)@
                },
            0 <= count <= old(self).cached_makespan() - final(self).cached_makespan(),
            count <= moves_ahead(old(self)@) - moves_ahead(final(self)@),
            count <= (old(self)@.len() - 1) * task_count(old(self)@),
            count == 0 ==> final(self)@ == old(self)@,
            final(self)@.len() == old(self)@.len(),
            grand_total(final(self)@) == grand_total(old(self)@),
            task_count(final(self)@) == task_count(old(self)@),
    {
        let mut n_melhorias: i32 = 0;
        let ghost start = self@;
        let ghost start_makespan = self.cached_makespan();
        let ghost mut trace: Seq<Seq<Seq<i32>>> = seq![start];
        proof {
            lemma_loads_bounded(self@);
        }
        loop
            invariant
                self.wf(),
                first_improve_trace(trace),
                trace.len() == n_melhorias + 1,
                trace[0] == start,
                trace[n_melhorias as int] == self@,
                0 <= n_melhorias <= start_makespan - self.cached_makespan(),
                0 <= self.cached_makespan(),
                start_makespan <= i32::MAX,
                n_melhorias <= moves_ahead(start) - moves_ahead(self@),
                n_melhorias == 0 ==> self@ == start,
                self@.len() == start.len(),
                grand_total(self@) == grand_total(start),
                task_count(self@) == task_count(start),
            ensures
                local_optimum(self@),
            decreases self.cached_makespan(),
        {
            if !self.first_improving_move() {
                break;
            }
            proof {
                lemma_loads_bounded(self@);
                trace = trace.push(self@);
            }
            n_melhorias += 1;
        }
        proof {
            lemma_moves_ahead_bounded(start);
            lemma_moves_ahead_bounded(self@);
        }
        n_melhorias
    }
}

} // verus!
