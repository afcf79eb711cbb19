//! Best-improvement search: the first machine hands its newest task to the
//! least loaded machine for as long as that lowers the makespan.

use crate::allocator::{first_least_loaded, Allocator};
use crate::model::{
    grand_total, lemma_loads_bounded, lemma_migration_conserves, lemma_put_back, lemma_take_back,
    lemma_without_last, lemma_without_last_valid, max_load, migrated, task_count, without_last,
};
use vstd::prelude::*;

verus! {

/// Machine `j` is where the first machine's newest task is offered: the
/// first of the least loaded machines once that task is off the first machine.
pub open spec fn offered_to(ms: Seq<Seq<i32>>, j: int) -> bool {
    ms[0].len() > 0 && first_least_loaded(without_last(ms, 0), j)
}

/// The first machine has no task, or handing its newest task to the least
/// loaded machine does not lower the makespan.
pub open spec fn stalled(ms: Seq<Seq<i32>>) -> bool {
    ms[0].len() == 0 || exists|j: int| #[trigger]
        offered_to(ms, j) && max_load(migrated(ms, 0, j)) >= max_load(ms)
}

/// Schedule `b` is schedule `a` after the first machine has handed its
/// newest task to the least loaded machine, and the makespan is lower.
pub open spec fn best_improve_step(a: Seq<Seq<i32>>, b: Seq<Seq<i32>>) -> bool {
    &&& exists|j: int| #[trigger] offered_to(a, j) && b == migrated(a, 0, j)
    &&& max_load(b) < max_load(a)
}

/// Each schedule of the trace but the first is the one before it after a
/// best-improving move.
pub open spec fn best_improve_trace(trace: Seq<Seq<Seq<i32>>>) -> bool {
    forall|k: int|
        0 <= k < trace.len() - 1 ==> best_improve_step(#[trigger] trace[k], trace[k + 1])
}

impl Allocator {
    /// Hands the newest task of the first machine to the least loaded machine
    /// where that lowers the makespan, and leaves the schedule as it was
    /// where it does not.
    pub fn best_improving_move(&mut self) -> (found: bool)
        requires
            old(self).wf(),
        ensures
            final(self).wf(),
            found ==> best_improve_step(old(self)@, final(self)@),
            found ==> final(self).cached_makespan() < old(self).cached_makespan(),
            found ==> final(self)@[0].len() == old(self)@[0].len() - 1,
            !found ==> final(self)@ == old(self)@ && stalled(old(self)@),
            final(self)@.len() == old(self)@.len(),
            grand_total(final(self)@) == grand_total(old(self)@),
            task_count(final(self)@) == task_count(old(self)@),
    {
        let best = self.get_makespan();
        let ghost start = self@;
        match self.pop_task(0) {
            None => false,
            Some(task) => {
                let ghost held = self@;
                proof {
                    lemma_without_last(start, 0);
                    lemma_without_last_valid(start, 0);
                }
                let stand_by_machine = self.get_lower_makespan_machine_index();
                self.push_task(stand_by_machine, task);
                proof {
                    lemma_migration_conserves(start, 0, stand_by_machine as int);
                    assert(offered_to(start, stand_by_machine as int));
                }
                if self.get_makespan() < best {
                    proof {
                        if stand_by_machine == 0 {
                            lemma_put_back(start, 0);
                        }
                    }
                    true
                } else {
                    proof {
                        lemma_take_back(held, stand_by_machine as int, task);
                        lemma_put_back(start, 0);
                    }
                    self.pop_task(stand_by_machine);
                    self.push_task(0, task);
                    false
                }
            },
        }
    }

    /// Makes best-improving moves until one fails to lower the makespan, and
    /// counts them.
    ///
    /// The schedule goes through a trace of best-improving moves, one per
    /// count. Only the first machine gives tasks away, one per move, so the
    /// count is the number of tasks it lost, and at most the drop of the
    /// makespan.
    pub fn search_by_best_improve(&mut self) -> (count: i32)
        requires
            old(self).wf(),
        ensures
            final(self).wf(),
            stalled(final(self)@),
            exists|trace: Seq<Seq<Seq<i32>>>|
                #![trigger best_improve_trace(trace)]
                {
                    &&& best_improve_trace(trace)
                    &&& trace.len() == count + 1
                    &&& trace[0] == old(self)@
                    &&& trace[count as int] == final(self)@
                },
            0 <= count <= old(self).cached_makespan() - final(self).cached_makespan(),
            count == old(self)@[0].len() - final(self)@[0].len(),
            count == 0 ==> final(self)@ == old(self)@,
            final(self)@.len() == old(self)@.len(),
            grand_total(final(self)@) == grand_total(old(self)@),
            task_count(final(self)@) == task_count(old(self)@),
    {
        let mut n_melhorias: i32 = 0;
        let ghost start = self@;
        let ghost start_makespan = self.cached_makespan();
        let ghost mut trace: Seq<Seq<Seq<i32>>> = seq![start];
        proof {
            lemma_loads_bounded(self@);
        }
        loop
            invariant
                self.wf(),
                best_improve_trace(trace),
                trace.len() == n_melhorias + 1,
                trace[0] == start,
                trace[n_melhorias as int] == self@,
                0 <= n_melhorias <= start_makespan - self.cached_makespan(),
                0 <= self.cached_makespan(),
                start_makespan <= i32::MAX,
                n_melhorias == 0 ==> self@ == start,
                n_melhorias == start[0].len() - self@[0].len(),
                self@.len() == start.len(),
                grand_total(self@) == grand_total(start),
                task_count(self@) == task_count(start),
            ensures
                stalled(self@),
            decreases self.cached_makespan(),
        {
            if !self.best_improving_move() {
                break;
            }
            proof {
                lemma_loads_bounded(self@);
                trace = trace.push(self@);
            }
            n_melhorias += 1;
        }
        n_melhorias
    }
}

} // verus!
