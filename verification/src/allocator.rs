//! The schedule: a fixed row of machines and the cached makespan.

use crate::error::ScheduleError;
use crate::machine::Machine;
use crate::model::{
    grand_total, idle, largest, lemma_idle, lemma_largest, lemma_loads_bounded, lemma_sum_prefix,
    lemma_sum_prefix_step, lemma_total_non_negative, lemma_total_prefix, lemma_total_prefix_step,
    lemma_with_task, lemma_with_task_valid, lemma_without_last, lemma_without_last_valid, loads,
    max_load, migrated, moved, non_negative, sum, task_count, total, valid_schedule, with_task,
    without_last,
};
use crate::random::random_in_range;
use rand::rngs::StdRng;
use vstd::prelude::*;

verus! {

/// The longest duration that a constructor draws, and one more.
pub const DURATION_END: i32 = 100;

/// The largest number of drawn tasks whose work is sure to fit a load.
pub const MAX_DRAWN_TASKS: i32 = 21691754;

/// Every duration is one that a constructor draws: at least one, and below
/// `DURATION_END`.
pub open spec fn drawn_durations(ms: Seq<Seq<i32>>) -> bool {
    forall|i: int, k: int|
        0 <= i < ms.len() && 0 <= k < ms[i].len() ==> 1 <= #[trigger] ms[i][k] < DURATION_END
}

/// The task lists of a row of machines.
pub open spec fn tasks_of(machines: Seq<Machine>) -> Seq<Seq<i32>> {
    machines.map_values(|m: Machine| m@)
}

/// The task lists that a caller hands to `Allocator::from_tasks`.
pub open spec fn lists(tasks: Seq<Vec<i32>>) -> Seq<Seq<i32>> {
    tasks.map_values(|v: Vec<i32>| v@)
}

/// Every machine's cached load is the sum of its durations.
pub open spec fn all_wf(machines: Seq<Machine>) -> bool {
    forall|i: int| 0 <= i < machines.len() ==> (#[trigger] machines[i]).wf()
}

/// Machine `i` is the first of the least loaded machines.
pub open spec fn first_least_loaded(ms: Seq<Seq<i32>>, i: int) -> bool {
    &&& 0 <= i < ms.len()
    &&& forall|k: int| 0 <= k < ms.len() ==> total(ms[i]) <= total(#[trigger] ms[k])
    &&& forall|k: int| 0 <= k < i ==> total(ms[i]) < total(#[trigger] ms[k])
}

/// There is one first of the least loaded machines.
pub proof fn lemma_first_least_loaded_unique(ms: Seq<Seq<i32>>, i: int, j: int)
    requires
        first_least_loaded(ms, i),
        first_least_loaded(ms, j),
    ensures
        i == j,
{
    if i < j {
        assert(total(ms[j]) < total(ms[i]));
    } else if j < i {
        assert(total(ms[i]) < total(ms[j]));
    }
}

/// The largest cached load of a row of machines.
fn scan_max(machines: &Vec<Machine>) -> (max: i32)
    requires
        machines.len() >= 1,
        all_wf(machines@),
    ensures
        max == max_load(tasks_of(machines@)),
{
    let ghost l = loads(tasks_of(machines@));
    let mut max: i32 = machines[0].get_makespan();
    let mut k: usize = 1;
    assert(l[0] == total(machines@[0]@));
    while k < machines.len()
        invariant
            1 <= k <= machines.len(),
            all_wf(machines@),
            l == loads(tasks_of(machines@)),
            max == largest(l.subrange(0, k as int)),
        decreases machines.len() - k,
    {
        let load = machines[k].get_makespan();
        proof {
            assert(l[k as int] == total(machines@[k as int]@));
            assert(l.subrange(0, k + 1).drop_last() =~= l.subrange(0, k as int));
        }
        if load > max {
            max = load;
        }
        k += 1;
    }
    proof {
        assert(l.subrange(0, k as int) =~= l);
    }
    max
}

/// A schedule of machines, each a stack of task durations, with the largest
/// machine load cached.
#[derive(Debug)]
pub struct Allocator {
    machines: Vec<Machine>,
    makespan: i32,
}

impl View for Allocator {
    type V = Seq<Seq<i32>>;

    /// The durations on each machine, oldest first.
    closed spec fn view(&self) -> Seq<Seq<i32>> {
        tasks_of(self.machines@)
    }
}

impl Allocator {
    /// The cached makespan.
    pub closed spec fn cached_makespan(&self) -> int {
        self.makespan as int
    }

    /// Every machine's cached load is the sum of its durations.
    pub closed spec fn loads_cached(&self) -> bool {
        all_wf(self.machines@)
    }

    /// The schedule is valid, and the cached loads and the cached makespan
    /// are the true ones.
    pub open spec fn wf(&self) -> bool {
        &&& valid_schedule(self@)
        &&& self.loads_cached()
        &&& self.cached_makespan() == max_load(self@)
    }

    /// Puts the makespan beside a row of machines.
    fn assemble(machines: Vec<Machine>) -> (a: Self)
        requires
            all_wf(machines@),
            valid_schedule(tasks_of(machines@)),
        ensures
            a.wf(),
            a@ == tasks_of(machines@),
    {
        let makespan = scan_max(&machines);
        Allocator { machines, makespan }
    }

    /// A schedule of `count` machines without tasks.
    fn idle_machines(count: usize) -> (a: Self)
        requires
            count >= 1,
        ensures
            a.wf(),
            a@ == idle(count as int),
    {
        let mut machines: Vec<Machine> = Vec::new();
        let mut k: usize = 0;
        while k < count
            invariant
                k <= count,
                machines@.len() == k,
                all_wf(machines@),
                tasks_of(machines@) == idle(k as int),
            decreases count - k,
        {
            let ghost earlier = machines@;
            machines.push(Machine::new());
            k += 1;
            proof {
                assert forall|a: int| 0 <= a < k implies tasks_of(machines@)[a]
                    == Seq::<i32>::empty() by {
                    if a < k - 1 {
                        assert(tasks_of(earlier)[a] == idle(k - 1)[a]);
                    }
                }
                assert(tasks_of(machines@) =~= idle(k as int));
            }
        }
        proof {
            lemma_idle(count as int);
            assert forall|i: int| 0 <= i < count implies non_negative(
                #[trigger] idle(count as int)[i],
            ) by {}
        }
        Self::assemble(machines)
    }

    /// Builds the schedule that holds the given tasks, machine by machine.
    ///
    /// Fails with `InvalidParameter` where there is no machine or a duration
    /// is negative, and with `LoadOverflow` where the durations together are
    /// beyond the range of a load.
    pub fn from_tasks(tasks: &Vec<Vec<i32>>) -> (made: Result<Self, ScheduleError>)
        ensures
            (tasks.len() == 0 || exists|i: int|
                0 <= i < tasks.len() && !non_negative(#[trigger] lists(tasks@)[i])) <==> made
                == Err::<Self, ScheduleError>(ScheduleError::InvalidParameter),
            valid_schedule(lists(tasks@)) <==> made.is_ok(),
            (tasks.len() >= 1 && (forall|i: int|
                0 <= i < tasks.len() ==> non_negative(#[trigger] lists(tasks@)[i])) && grand_total(
                lists(tasks@),
            ) > i32::MAX) <==> made == Err::<Self, ScheduleError>(ScheduleError::LoadOverflow),
            made.is_ok() ==> made.unwrap().wf() && made.unwrap()@ == lists(tasks@),
    {
        let ghost want = lists(tasks@);
        if tasks.len() == 0 {
            return Err(ScheduleError::InvalidParameter);
        }
        let mut i: usize = 0;
        while i < tasks.len()
            invariant
                i <= tasks.len(),
                want == lists(tasks@),
                forall|a: int| 0 <= a < i ==> non_negative(#[trigger] want[a]),
            decreases tasks.len() - i,
        {
            let mut k: usize = 0;
            while k < tasks[i].len()
                invariant
                    i < tasks.len(),
                    k <= tasks[i as int].len(),
                    want == lists(tasks@),
                    forall|b: int| 0 <= b < k ==> want[i as int][b] >= 0,
                decreases tasks[i as int].len() - k,
            {
                if tasks[i][k] < 0 {
                    proof {
                        assert(want[i as int][k as int] < 0);
                        assert(!non_negative(want[i as int]));
                    }
                    return Err(ScheduleError::InvalidParameter);
                }
                k += 1;
            }
            i += 1;
        }
        let ghost l = loads(want);
        proof {
            assert forall|a: int| 0 <= a < l.len() implies l[a] >= 0 by {
                lemma_total_non_negative(want[a]);
            }
        }
        let mut machines: Vec<Machine> = Vec::new();
        let mut running: i32 = 0;
        let mut i: usize = 0;
        while i < tasks.len()
            invariant
                i <= tasks.len(),
                want == lists(tasks@),
                l == loads(want),
                forall|a: int| 0 <= a < want.len() ==> non_negative(#[trigger] want[a]),
                forall|a: int| 0 <= a < l.len() ==> l[a] >= 0,
                machines@.len() == i,
                all_wf(machines@),
                tasks_of(machines@) == want.subrange(0, i as int),
                running == sum(l.subrange(0, i as int)),
                0 <= running,
            decreases tasks.len() - i,
        {
            let mut m = Machine::new();
            let mut k: usize = 0;
            let ghost before = running;
            proof {
                assert(want[i as int].subrange(0, 0) =~= Seq::<i32>::empty());
            }
            while k < tasks[i].len()
                invariant
                    i < tasks.len(),
                    k <= tasks[i as int].len(),
                    want == lists(tasks@),
                    forall|a: int| 0 <= a < want.len() ==> non_negative(#[trigger] want[a]),
                    m.wf(),
                    m@ == want[i as int].subrange(0, k as int),
                    running == before + m.load(),
                    0 <= before,
                    0 <= m.load(),
                    before == sum(l.subrange(0, i as int)),
                    l == loads(want),
                    forall|a: int| 0 <= a < l.len() ==> l[a] >= 0,
                decreases tasks[i as int].len() - k,
            {
                let d = tasks[i][k];
                proof {
                    assert(d == want[i as int][k as int]);
                    lemma_total_prefix_step(want[i as int], k as int);
                }
                if d > i32::MAX - running {
                    proof {
                        lemma_total_prefix(want[i as int], k + 1);
                        lemma_sum_prefix_step(l, i as int);
                        lemma_sum_prefix(l, i + 1);
                    }
                    return Err(ScheduleError::LoadOverflow);
                }
                m.push_task(d);
                running = running + d;
                k += 1;
            }
            proof {
                assert(want[i as int].subrange(0, k as int) =~= want[i as int]);
                lemma_sum_prefix_step(l, i as int);
            }
            machines.push(m);
            i += 1;
            proof {
                assert(tasks_of(machines@) =~= want.subrange(0, i as int));
            }
        }
        proof {
            assert(want.subrange(0, i as int) =~= want);
            assert(l.subrange(0, i as int) =~= l);
        }
        Ok(Self::assemble(machines))
    }

    /// Builds a schedule of `m` machines with `task_count` tasks of drawn
    /// durations, all of them on the first machine.
    ///
    /// `task_count` is the machine count raised to the caller's exponent and
    /// rounded down. An exponent of at least one gives at least one task per
    /// machine, so fewer tasks than machines are refused like a missing
    /// machine, with `InvalidParameter`. More than `MAX_DRAWN_TASKS` tasks
    /// fail with `LoadOverflow`.
    pub fn new(rng: &mut StdRng, m: i32, task_count: i32) -> (made: Result<Self, ScheduleError>)
        ensures
            (m < 1 || task_count < m) <==> made == Err::<Self, ScheduleError>(
                ScheduleError::InvalidParameter,
            ),
            (1 <= m <= task_count && task_count > MAX_DRAWN_TASKS) <==> made == Err::<
                Self,
                ScheduleError,
            >(ScheduleError::LoadOverflow),
            made.is_ok() ==> {
                let a = made.unwrap();
                &&& a.wf()
                &&& a@.len() == m
                &&& a@[0].len() == task_count
                &&& forall|i: int| 1 <= i < m ==> (#[trigger] a@[i]).len() == 0
                &&& drawn_durations(a@)
                &&& a.cached_makespan() == total(a@[0])
            },
    {
        if m < 1 || task_count < m {
            return Err(ScheduleError::InvalidParameter);
        }
        if task_count > MAX_DRAWN_TASKS {
            return Err(ScheduleError::LoadOverflow);
        }
        let mut a = Self::idle_machines(m as usize);
        proof {
            lemma_idle(m as int);
        }
        let mut k: i32 = 0;
        while k < task_count
            invariant
                0 <= k <= task_count <= MAX_DRAWN_TASKS,
                a.wf(),
                a@.len() == m,
                a@[0].len() == k,
                forall|i: int| 1 <= i < m ==> (#[trigger] a@[i]).len() == 0,
                drawn_durations(a@),
                grand_total(a@) <= 99 * k,
                grand_total(a@) == total(a@[0]),
            decreases task_count - k,
        {
            let d = random_in_range(rng, 1, DURATION_END);
            proof {
                lemma_with_task(a@, 0, d);
                crate::model::lemma_total_push(a@[0], d);
            }
            a.push_task(0, d);
            k += 1;
        }
        proof {
            lemma_loads_bounded(a@);
            lemma_largest(loads(a@));
            assert(loads(a@)[0] == total(a@[0]));
        }
        Ok(a)
    }

    /// Builds a schedule of `m` machines with `task_count` tasks of drawn
    /// durations, each on a machine drawn for it. The parameters are held to
    /// the same rules as in `new`.
    pub fn new_randonly_distributed(rng: &mut StdRng, m: i32, task_count: i32) -> (made: Result<
        Self,
        ScheduleError,
    >)
        ensures
            (m < 1 || task_count < m) <==> made == Err::<Self, ScheduleError>(
                ScheduleError::InvalidParameter,
            ),
            (1 <= m <= task_count && task_count > MAX_DRAWN_TASKS) <==> made == Err::<
                Self,
                ScheduleError,
            >(ScheduleError::LoadOverflow),
            made.is_ok() ==> {
                let a = made.unwrap();
                &&& a.wf()
                &&& a@.len() == m
                &&& crate::model::task_count(a@) == task_count
                &&& drawn_durations(a@)
            },
    {
        if m < 1 || task_count < m {
            return Err(ScheduleError::InvalidParameter);
        }
        if task_count > MAX_DRAWN_TASKS {
            return Err(ScheduleError::LoadOverflow);
        }
        let mut a = Self::idle_machines(m as usize);
        proof {
            lemma_idle(m as int);
        }
        let mut k: i32 = 0;
        while k < task_count
            invariant
                0 <= k <= task_count <= MAX_DRAWN_TASKS,
                1 <= m,
                a.wf(),
                a@.len() == m,
                crate::model::task_count(a@) == k,
                drawn_durations(a@),
                grand_total(a@) <= 99 * k,
            decreases task_count - k,
        {
            let j = random_in_range(rng, 0, m) as usize;
            let d = random_in_range(rng, 1, DURATION_END);
            proof {
                lemma_with_task(a@, j as int, d);
            }
            a.push_task(j, d);
            k += 1;
        }
        Ok(a)
    }

    /// The cached makespan of a well-formed schedule is the load of one of
    /// its machines, and no machine's load is above it.
    pub proof fn lemma_makespan_is_largest_load(&self)
        requires
            self.wf(),
        ensures
            forall|i: int|
                0 <= i < self@.len() ==> total(#[trigger] self@[i]) <= self.cached_makespan(),
            exists|i: int|
                0 <= i < self@.len() && total(#[trigger] self@[i]) == self.cached_makespan(),
            0 <= self.cached_makespan() <= grand_total(self@),
    {
        let l = loads(self@);
        lemma_largest(l);
        lemma_loads_bounded(self@);
        assert forall|i: int| 0 <= i < self@.len() implies total(#[trigger] self@[i])
            <= self.cached_makespan() by {
            assert(l[i] == total(self@[i]));
        }
        let w = choose|k: int| 0 <= k < l.len() && l[k] == largest(l);
        assert(total(self@[w]) == self.cached_makespan());
    }

    /// Two scans of one schedule give one value: a scan reads the task lists
    /// and changes nothing.
    pub proof fn lemma_scan_repeats(&self, first: i32, second: i32)
        requires
            first == max_load(self@),
            second == max_load(self@),
        ensures
            first == second,
    {
    }

    /// The cached makespan.
    pub fn get_makespan(&self) -> (makespan: i32)
        ensures
            makespan == self.cached_makespan(),
    {
        self.makespan
    }

    /// The largest machine load, found by a scan over the machines.
    pub fn calculate_makespan(&self) -> (makespan: i32)
        requires
            self.wf(),
        ensures
            makespan == max_load(self@),
            makespan == self.cached_makespan(),
    {
        proof {
            assert(self@.len() >= 1);
        }
        scan_max(&self.machines)
    }

    /// The number of machines.
    pub fn machine_count(&self) -> (count: usize)
        ensures
            count == self@.len(),
    {
        self.machines.len()
    }

    /// The machines, in order, for reading.
    pub fn machines(&self) -> (machines: &Vec<Machine>)
        ensures
            tasks_of(machines@) == self@,
            self.loads_cached() ==> all_wf(machines@),
    {
        &self.machines
    }

    /// The load of machine `i`.
    pub fn load_of(&self, i: usize) -> (load: i32)
        requires
            self.wf(),
            i < self@.len(),
        ensures
            load == total(self@[i as int]),
    {
        self.machines[i].get_makespan()
    }

    /// The number of tasks on machine `i`.
    pub fn tasks_on(&self, i: usize) -> (count: usize)
        requires
            i < self@.len(),
        ensures
            count == self@[i as int].len(),
    {
        self.machines[i].tasks().len()
    }

    /// Takes the newest task from machine `i`, if it has one.
    pub fn pop_task(&mut self, i: usize) -> (task: Option<i32>)
        requires
            old(self).wf(),
            i < old(self)@.len(),
        ensures
            final(self).wf(),
            old(self)@[i as int].len() == 0 ==> task.is_none() && final(self)@ == old(self)@,
            old(self)@[i as int].len() > 0 ==> task == Some(old(self)@[i as int].last())
                && final(self)@ == without_last(old(self)@, i as int),
    {
        let ghost before = self@;
        let task = self.machines[i].pop_tasks();
        proof {
            if before[i as int].len() > 0 {
                assert(self@ =~= without_last(before, i as int));
                lemma_without_last_valid(before, i as int);
            } else {
                assert(self@ =~= before);
            }
        }
        self.makespan = scan_max(&self.machines);
        task
    }

    /// Puts a task of duration `d` on machine `j`.
    pub fn push_task(&mut self, j: usize, d: i32)
        requires
            old(self).wf(),
            j < old(self)@.len(),
            d >= 0,
            grand_total(old(self)@) + d <= i32::MAX,
        ensures
            final(self).wf(),
            final(self)@ == with_task(old(self)@, j as int, d),
    {
        let ghost before = self@;
        proof {
            lemma_loads_bounded(before);
            assert(self.machines@[j as int].wf());
            assert(before[j as int] == self.machines@[j as int]@);
        }
        self.machines[j].push_task(d);
        proof {
            assert(self@ =~= with_task(before, j as int, d));
            lemma_with_task_valid(before, j as int, d);
        }
        self.makespan = scan_max(&self.machines);
    }

    /// Moves the newest task of machine `src` to machine `dst` and gives its
    /// duration, or does nothing where machine `src` has no task.
    pub fn migrate_task(&mut self, src: usize, dst: usize) -> (task: Option<i32>)
        requires
            old(self).wf(),
            src < old(self)@.len(),
            dst < old(self)@.len(),
        ensures
            final(self).wf(),
            old(self)@[src as int].len() == 0 ==> task.is_none() && final(self)@ == old(self)@,
            old(self)@[src as int].len() > 0 ==> task == Some(old(self)@[src as int].last())
                && final(self)@ == migrated(old(self)@, src as int, dst as int),
            final(self)@ == moved(old(self)@, src as int, dst as int),
            grand_total(final(self)@) == grand_total(old(self)@),
            task_count(final(self)@) == task_count(old(self)@),
            final(self)@.len() == old(self)@.len(),
    {
        let ghost before = self@;
        match self.pop_task(src) {
            Some(d) => {
                proof {
                    lemma_without_last(before, src as int);
                    lemma_without_last_valid(before, src as int);
                    lemma_with_task(without_last(before, src as int), dst as int, d);
                }
                self.push_task(dst, d);
                Some(d)
            },
            None => None,
        }
    }

    /// The first of the least loaded machines.
    pub fn get_lower_makespan_machine_index(&self) -> (index: usize)
        requires
            self.wf(),
        ensures
            first_least_loaded(self@, index as int),
    {
        let mut lower_makespan: i32 = self.machines[0].get_makespan();
        let mut lower_makespan_machine: usize = 0;
        let mut i: usize = 1;
        while i < self.machines.len()
            invariant
                self.wf(),
                1 <= i <= self.machines.len(),
                lower_makespan_machine < i,
                lower_makespan == total(self@[lower_makespan_machine as int]),
                forall|k: int| 0 <= k < i ==> lower_makespan <= total(#[trigger] self@[k]),
                forall|k: int|
                    0 <= k < lower_makespan_machine ==> lower_makespan < total(
                        #[trigger] self@[k],
                    ),
            decreases self.machines.len() - i,
        {
            let current_machine_makespan = self.machines[i].get_makespan();
            if current_machine_makespan < lower_makespan {
                lower_makespan_machine = i;
                lower_makespan = current_machine_makespan;
            }
            i += 1;
        }
        lower_makespan_machine
    }

    /// A copy of the schedule, which stays as it is while the schedule changes.
    pub fn snapshot(&self) -> (copy: Self)
        ensures
            copy@ == self@,
            copy.cached_makespan() == self.cached_makespan(),
            self.wf() ==> copy.wf(),
    {
        let mut machines: Vec<Machine> = Vec::new();
        let mut k: usize = 0;
        while k < self.machines.len()
            invariant
                k <= self.machines.len(),
                machines@.len() == k,
                forall|a: int|
                    0 <= a < k ==> (#[trigger] machines@[a])@ == self.machines@[a]@
                        && machines@[a].load() == self.machines@[a].load(),
            decreases self.machines.len() - k,
        {
            machines.push(self.machines[k].clone());
            k += 1;
        }
        proof {
            assert(tasks_of(machines@) =~= tasks_of(self.machines@));
        }
        Allocator { machines, makespan: self.makespan }
    }
}

} // verus!
