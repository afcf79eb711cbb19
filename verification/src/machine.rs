//! One machine: a stack of task durations and their cached sum.

use crate::model::{lemma_total_drop_last, lemma_total_non_negative, lemma_total_push, non_negative, total};
use vstd::prelude::*;

verus! {

/// A machine holds its tasks in the order in which they arrived, and the sum
/// of their durations.
#[derive(Debug)]
pub struct Machine {
    makespan: i32,
    tasks: Vec<i32>,
}

impl View for Machine {
    type V = Seq<i32>;

    /// The durations of the machine's tasks, oldest first.
    closed spec fn view(&self) -> Seq<i32> {
        self.tasks@
    }
}

impl Machine {
    /// The cached load.
    pub closed spec fn load(&self) -> int {
        self.makespan as int
    }

    /// The cached load is the sum of the durations, none of them negative.
    pub open spec fn wf(&self) -> bool {
        &&& self.load() == total(self@)
        &&& non_negative(self@)
    }

    /// A machine without tasks.
    pub fn new() -> (m: Self)
        ensures
            m@ == Seq::<i32>::empty(),
            m.load() == 0,
            m.wf(),
    {
        let m = Self { makespan: 0, tasks: Vec::<i32>::new() };
        assert(m@.map_values(|d: i32| d as int) =~= Seq::<int>::empty());
        m
    }

    /// The cached load.
    pub fn get_makespan(&self) -> (load: i32)
        ensures
            load == self.load(),
    {
        self.makespan
    }

    /// The machine's tasks, oldest first.
    pub fn tasks(&self) -> (tasks: &Vec<i32>)
        ensures
            tasks@ == self@,
    {
        &self.tasks
    }

    /// Adds `i` to the cached load and leaves the tasks alone. After this the
    /// load is no longer the sum of the durations, unless `i` is zero.
    pub fn add_to_makespan(&mut self, i: i32)
        requires
            i32::MIN <= old(self).load() + i <= i32::MAX,
        ensures
            final(self).load() == old(self).load() + i,
            final(self)@ == old(self)@,
    {
        self.makespan = self.makespan + i;
    }

    /// Puts a task on top of the stack.
    pub fn push_task(&mut self, task: i32)
        requires
            old(self).wf(),
            task >= 0,
            old(self).load() + task <= i32::MAX,
        ensures
            final(self)@ == old(self)@.push(task),
            final(self).load() == old(self).load() + task,
            final(self).wf(),
    {
        proof {
            lemma_total_push(self@, task);
            lemma_total_non_negative(self@);
        }
        self.tasks.push(task);
        self.add_to_makespan(task);
    }

    /// Takes the newest task off the stack, if there is one.
    pub fn pop_tasks(&mut self) -> (task: Option<i32>)
        requires
            old(self).wf(),
        ensures
            final(self).wf(),
            old(self)@.len() == 0 ==> task.is_none() && final(self)@ == old(self)@,
            old(self)@.len() > 0 ==> task == Some(old(self)@.last()) && final(self)@ == old(
                self,
            )@.drop_last() && final(self).load() == old(self).load() - old(self)@.last(),
    {
        proof {
            if self@.len() > 0 {
                lemma_total_drop_last(self@);
                lemma_total_non_negative(self@.drop_last());
            }
        }
        match self.tasks.pop() {
            Some(d) => {
                self.makespan = self.makespan - d;
                Some(d)
            },
            None => None,
        }
    }
}

impl Clone for Machine {
    /// A copy with the same tasks and the same cached load.
    fn clone(&self) -> (copy: Self)
        ensures
            copy@ == self@,
            copy.load() == self.load(),
    {
        let mut tk: Vec<i32> = Vec::new();
        let mut k: usize = 0;
        while k < self.tasks.len()
            invariant
                k <= self.tasks.len(),
                tk@ == self.tasks@.subrange(0, k as int),
            decreases self.tasks.len() - k,
        {
            tk.push(self.tasks[k]);
            proof {
                assert(tk@ =~= self.tasks@.subrange(0, k + 1));
            }
            k += 1;
        }
        proof {
            assert(self.tasks@.subrange(0, k as int) =~= self.tasks@);
        }
        Machine { makespan: self.makespan, tasks: tk }
    }
}

} // verus!
