//! Annealing search, one step at a time.
//!
//! The search keeps the best schedule it has seen, the elite, and works on a
//! live schedule. A step either moves one task off a bottleneck machine so
//! that the makespan falls below the elite's, or deals the whole bottleneck
//! machine out to the others. Whether a reshuffle that raised the makespan is
//! kept depends on a temperature that the caller holds: the caller hands in
//! the acceptance threshold, in percent, and cools the temperature after
//! every reshuffle.

use crate::allocator::Allocator;
use crate::model::{
    grand_total, lemma_loads_bounded, lemma_migration_conserves, lemma_put_back, lemma_take_back,
    lemma_without_last, lemma_without_last_valid, max_load, migrated, task_count, total,
    valid_schedule, without_last,
};
use crate::random::random_u64;
use rand::rngs::StdRng;
use vstd::prelude::*;

verus! {

/// Where a search stands between two steps.
#[derive(Debug, Clone, Copy, PartialEq, Eq, Structural)]
pub enum Phase {
    /// The next step is `explore`.
    Exploring,
    /// A reshuffle raised the makespan; the next step is `settle`.
    Deciding,
    /// The search is over.
    Done,
}

/// What a step did.
#[derive(Debug, Clone, Copy, PartialEq, Eq, Structural)]
pub enum Step {
    /// A task moved and the makespan fell below the elite's. The live
    /// schedule is the new elite.
    Improved,
    /// The bottleneck machine was dealt out and the makespan rose by `delta`.
    /// The caller owes the acceptance threshold for `delta` at its
    /// temperature.
    Worsened { delta: i32 },
    /// A reshuffle was refused. The caller cools its temperature.
    Refused,
    /// A reshuffle that raised the makespan was accepted. The caller cools
    /// its temperature.
    Accepted,
    /// The search is over and the live schedule is the elite.
    Finished,
}

/// The state of a search as the contracts see it.
pub struct AnnealingView {
    /// The task lists of the elite.
    pub elite: Seq<Seq<i32>>,
    /// The makespan of the schedule that the search began with.
    pub first_makespan: int,
    /// How many refused reshuffles in a row end the search.
    pub budget: int,
    /// The accepted moves and reshuffles so far.
    pub improvements: int,
    /// The reshuffles refused since the last accepted step.
    pub attempts: int,
    /// The machine that the next reshuffle deals to first.
    pub rotation: int,
    /// What the next step is.
    pub phase: Phase,
}

/// A step's result: the search, the live schedule and what the step did.
pub struct Explored {
    pub session: AnnealingView,
    pub live: Seq<Seq<i32>>,
    pub step: Step,
}

/// Machine `i` is a bottleneck with a task to give.
pub open spec fn is_candidate(ms: Seq<Seq<i32>>, i: int) -> bool {
    0 <= i < ms.len() && total(ms[i]) == max_load(ms) && ms[i].len() > 0
}

/// Machine `i` is the first bottleneck with a task to give.
pub open spec fn first_candidate(ms: Seq<Seq<i32>>, i: int) -> bool {
    is_candidate(ms, i) && forall|a: int| 0 <= a < i ==> !#[trigger] is_candidate(ms, a)
}

/// Moving the newest task of machine `i` to another machine `j` brings the
/// makespan below `elite`.
pub open spec fn beats(ms: Seq<Seq<i32>>, i: int, j: int, elite: int) -> bool {
    0 <= j < ms.len() && j != i && max_load(migrated(ms, i, j)) < elite
}

/// Machine `j` is the first that `beats` holds of.
pub open spec fn first_beating(ms: Seq<Seq<i32>>, i: int, j: int, elite: int) -> bool {
    beats(ms, i, j, elite) && forall|b: int| 0 <= b < j ==> !#[trigger] beats(ms, i, b, elite)
}

/// The machine after `idx` in a round of `n`.
pub open spec fn after(idx: int, n: int) -> int {
    if idx + 1 >= n {
        0
    } else {
        idx + 1
    }
}

/// The machine that gets the next task of a reshuffle of machine `src`:
/// `idx`, or the one after it where `idx` is `src` itself.
pub open spec fn slot(idx: int, src: int, n: int) -> int {
    if idx == src {
        after(idx, n)
    } else {
        idx
    }
}

/// The schedule after the newest `left` tasks of machine `src` have been
/// dealt one by one to the other machines in turn, starting at `idx`.
pub open spec fn dealt(ms: Seq<Seq<i32>>, src: int, idx: int, left: nat) -> Seq<Seq<i32>>
    decreases left,
{
    if left == 0 {
        ms
    } else {
        let to = slot(idx, src, ms.len() as int);
        dealt(migrated(ms, src, to), src, after(to, ms.len() as int), (left - 1) as nat)
    }
}

/// The machine at which the next reshuffle starts, after `left` tasks of
/// machine `src` have been dealt in a round of `n` starting at `idx`.
pub open spec fn rotated(n: int, src: int, idx: int, left: nat) -> int
    decreases left,
{
    if left == 0 {
        idx
    } else {
        rotated(n, src, after(slot(idx, src, n), n), (left - 1) as nat)
    }
}

/// The end of a search: the live schedule goes back to the elite.
pub open spec fn finished(s: AnnealingView, attempts: int) -> Explored {
    Explored {
        session: AnnealingView { attempts: attempts, phase: Phase::Done, ..s },
        live: s.elite,
        step: Step::Finished,
    }
}

/// A refused reshuffle: one more attempt, which ends the search where the
/// budget is used up.
pub open spec fn refused(s: AnnealingView, live: Seq<Seq<i32>>) -> Explored {
    if s.attempts + 1 >= s.budget {
        finished(s, s.attempts + 1)
    } else {
        Explored {
            session: AnnealingView { attempts: s.attempts + 1, phase: Phase::Exploring, ..s },
            live: live,
            step: Step::Refused,
        }
    }
}

/// An accepted reshuffle counts as an improvement and clears the attempts.
pub open spec fn accepted(s: AnnealingView, live: Seq<Seq<i32>>) -> Explored {
    Explored {
        session: AnnealingView {
            improvements: s.improvements + 1,
            attempts: 0,
            phase: Phase::Exploring,
            ..s
        },
        live: live,
        step: Step::Accepted,
    }
}

/// A reshuffle is accepted where the threshold, in percent, is above the
/// draw reduced to a percentage.
pub open spec fn verdict(threshold: u64, draw: u64) -> bool {
    threshold > draw % 100
}

/// What `settle` does for a threshold and a draw.
pub open spec fn settled(s: AnnealingView, live: Seq<Seq<i32>>, threshold: u64, draw: u64)
    -> Explored {
    if verdict(threshold, draw) {
        accepted(s, live)
    } else {
        refused(s, live)
    }
}

/// What `explore` does.
///
/// Without a bottleneck machine that has a task, or with a single machine,
/// the search ends. Else the first such machine offers its newest task to
/// every other machine in order, and the first move that brings the makespan
/// below the elite's is kept and becomes the elite. Where no move does, the
/// machine is dealt out: a reshuffle that does not raise the makespan is
/// refused at once, and one that raises it waits for the caller's verdict.
pub open spec fn explored(s: AnnealingView, ms: Seq<Seq<i32>>) -> Explored {
    if ms.len() < 2 || !exists|i: int| first_candidate(ms, i) {
        finished(s, s.attempts)
    } else {
        let i = choose|i: int| first_candidate(ms, i);
        let elite = max_load(s.elite);
        if exists|j: int| first_beating(ms, i, j, elite) {
            let j = choose|j: int| first_beating(ms, i, j, elite);
            Explored {
                session: AnnealingView {
                    elite: migrated(ms, i, j),
                    improvements: s.improvements + 1,
                    attempts: 0,
                    ..s
                },
                live: migrated(ms, i, j),
                step: Step::Improved,
            }
        } else {
            let n = ms.len() as int;
            let shuffled = dealt(ms, i, s.rotation, ms[i].len());
            let turned = AnnealingView { rotation: rotated(n, i, s.rotation, ms[i].len()), ..s };
            let delta = max_load(shuffled) - max_load(ms);
            if delta <= 0 {
                refused(turned, shuffled)
            } else {
                Explored {
                    session: AnnealingView { phase: Phase::Deciding, ..turned },
                    live: shuffled,
                    step: Step::Worsened { delta: delta as i32 },
                }
            }
        }
    }
}

/// Dealing out a machine moves tasks and nothing else: the machines, the
/// tasks and the summed duration stay, and a valid schedule stays valid.
pub proof fn lemma_dealt_conserves(ms: Seq<Seq<i32>>, src: int, idx: int, left: nat)
    requires
        ms.len() >= 2,
        0 <= src < ms.len(),
        0 <= idx < ms.len(),
        left <= ms[src].len(),
    ensures
        dealt(ms, src, idx, left).len() == ms.len(),
        grand_total(dealt(ms, src, idx, left)) == grand_total(ms),
        task_count(dealt(ms, src, idx, left)) == task_count(ms),
        dealt(ms, src, idx, left)[src].len() == ms[src].len() - left,
        valid_schedule(ms) ==> valid_schedule(dealt(ms, src, idx, left)),
        0 <= rotated(ms.len() as int, src, idx, left) < ms.len(),
    decreases left,
{
    if left > 0 {
        let n = ms.len() as int;
        let to = slot(idx, src, n);
        lemma_migration_conserves(ms, src, to);
        let next = migrated(ms, src, to);
        assert(next[src] =~= ms[src].drop_last());
        lemma_dealt_conserves(next, src, after(to, n), (left - 1) as nat);
    }
}

impl Allocator {
    /// Deals every task of machine `src`, newest first, to the other machines
    /// in turn, starting at machine `start`, and gives the machine at which
    /// the next reshuffle starts.
    pub fn reshuffle(&mut self, src: usize, start: usize) -> (next: usize)
        requires
            old(self).wf(),
            old(self)@.len() >= 2,
            src < old(self)@.len(),
            start < old(self)@.len(),
        ensures
            final(self).wf(),
            final(self)@ == dealt(old(self)@, src as int, start as int, old(self)@[src as int].len()),
            next == rotated(
                old(self)@.len() as int,
                src as int,
                start as int,
                old(self)@[src as int].len(),
            ),
            next < final(self)@.len(),
            final(self)@.len() == old(self)@.len(),
            final(self)@[src as int].len() == 0,
            grand_total(final(self)@) == grand_total(old(self)@),
            task_count(final(self)@) == task_count(old(self)@),
    {
        let n = self.machine_count();
        let mut ct = self.tasks_on(src);
        let mut idx = start;
        let ghost first = self@;
        let ghost all = first[src as int].len();
        proof {
            lemma_dealt_conserves(first, src as int, start as int, all);
        }
        while ct > 0
            invariant
                self.wf(),
                n == self@.len(),
                n == first.len(),
                n >= 2,
                src < n,
                idx < n,
                ct == self@[src as int].len(),
                dealt(self@, src as int, idx as int, ct as nat) == dealt(
                    first,
                    src as int,
                    start as int,
                    all,
                ),
                rotated(n as int, src as int, idx as int, ct as nat) == rotated(
                    n as int,
                    src as int,
                    start as int,
                    all,
                ),
            decreases ct,
        {
            let ghost turn = idx;
            if idx == src {
                idx = idx + 1;
                if idx >= n {
                    idx = 0;
                }
            }
            proof {
                assert(idx == slot(turn as int, src as int, n as int));
            }
            let ghost now = self@;
            self.migrate_task(src, idx);
            proof {
                assert(self@[src as int] =~= now[src as int].drop_last());
            }
            idx = idx + 1;
            ct = ct - 1;
            if idx >= n {
                idx = 0;
            }
        }
        idx
    }
}

/// An annealing search on a live schedule: the elite, the budget of refused
/// reshuffles, and the counters.
#[derive(Debug)]
pub struct Annealing {
    elite: Allocator,
    first_makespan: i32,
    budget: u32,
    improvements: i32,
    attempts: u32,
    shuffle_idx: usize,
    phase: Phase,
}

impl View for Annealing {
    type V = AnnealingView;

    closed spec fn view(&self) -> AnnealingView {
        AnnealingView {
            elite: self.elite@,
            first_makespan: self.first_makespan as int,
            budget: self.budget as int,
            improvements: self.improvements as int,
            attempts: self.attempts as int,
            rotation: self.shuffle_idx as int,
            phase: self.phase,
        }
    }
}

impl Annealing {
    /// The elite is a well-formed schedule.
    pub closed spec fn elite_wf(&self) -> bool {
        self.elite.wf()
    }

    /// The elite is well formed and no worse than the schedule that the
    /// search began with, and the counters are within their bounds.
    pub open spec fn wf(&self) -> bool {
        &&& self.elite_wf()
        &&& max_load(self@.elite) <= self@.first_makespan
        &&& self@.budget >= 1
        &&& 0 <= self@.attempts <= self@.budget
        &&& self@.phase != Phase::Done ==> self@.attempts < self@.budget
        &&& 0 <= self@.improvements
        &&& 0 <= self@.rotation < self@.elite.len()
    }

    /// The live schedule is well formed and holds the elite's tasks on as
    /// many machines: the same number of tasks, with the same summed
    /// duration.
    pub open spec fn tracks(&self, live: &Allocator) -> bool {
        &&& live.wf()
        &&& live@.len() == self@.elite.len()
        &&& grand_total(live@) == grand_total(self@.elite)
        &&& task_count(live@) == task_count(self@.elite)
    }

    /// Begins a search on `live`, whose state becomes the first elite.
    /// `budget` is the number of refused reshuffles in a row that ends the
    /// search.
    pub fn begin(live: &Allocator, budget: u32) -> (search: Self)
        requires
            live.wf(),
            budget >= 1,
        ensures
            search.wf(),
            search.tracks(live),
            search@ == (AnnealingView {
                elite: live@,
                first_makespan: live.cached_makespan(),
                budget: budget as int,
                improvements: 0,
                attempts: 0,
                rotation: 0,
                phase: Phase::Exploring,
            }),
    {
        Annealing {
            elite: live.snapshot(),
            first_makespan: live.get_makespan(),
            budget,
            improvements: 0,
            attempts: 0,
            shuffle_idx: 0,
            phase: Phase::Exploring,
        }
    }

    /// The accepted moves and reshuffles so far.
    pub fn improvement_count(&self) -> (count: i32)
        ensures
            count == self@.improvements,
    {
        self.improvements
    }

    /// The reshuffles refused since the last accepted step.
    pub fn attempt_count(&self) -> (count: u32)
        ensures
            count == self@.attempts,
    {
        self.attempts
    }

    /// Where the search stands.
    pub fn phase(&self) -> (phase: Phase)
        ensures
            phase == self@.phase,
    {
        self.phase
    }

    /// The elite's makespan.
    pub fn elite_makespan(&self) -> (makespan: i32)
        requires
            self.wf(),
        ensures
            makespan == max_load(self@.elite),
    {
        self.elite.get_makespan()
    }

    /// Makes the live schedule the elite.
    fn shadow(&mut self, live: &Allocator)
        requires
            live.wf(),
        ensures
            final(self)@ == (AnnealingView { elite: live@, ..old(self)@ }),
            final(self).elite_wf(),
    {
        self.elite = live.snapshot();
    }

    /// Puts the elite back in place of the live schedule.
    fn unshadow(&self, live: &mut Allocator)
        requires
            self.elite_wf(),
        ensures
            final(live)@ == self@.elite,
            final(live).wf(),
    {
        *live = self.elite.snapshot();
    }

    /// Counts a refused reshuffle, and ends the search where the budget is
    /// used up.
    fn refuse(&mut self, live: &mut Allocator) -> (step: Step)
        requires
            old(self).wf(),
            old(self).tracks(old(live)),
            old(self)@.phase != Phase::Done,
        ensures
            final(self).wf(),
            final(self).tracks(final(live)),
            (Explored { session: final(self)@, live: final(live)@, step: step }) == refused(
                old(self)@,
                old(live)@,
            ),
    {
        self.attempts = self.attempts + 1;
        if self.attempts >= self.budget {
            self.unshadow(live);
            self.phase = Phase::Done;
            Step::Finished
        } else {
            self.phase = Phase::Exploring;
            Step::Refused
        }
    }

    /// Takes the verdict on a reshuffle that raised the makespan.
    ///
    /// `threshold` is the chance of acceptance in percent, which the caller
    /// computes from the rise and its temperature; `draw` is a random number.
    /// An accepted reshuffle counts as an improvement. A refused one counts
    /// against the budget, and the search ends with the elite in place of
    /// the live schedule where the budget is used up.
    pub fn settle(&mut self, live: &mut Allocator, threshold: u64, draw: u64) -> (step: Step)
        requires
            old(self).wf(),
            old(self).tracks(old(live)),
            old(self)@.phase == Phase::Deciding,
            old(self)@.improvements < i32::MAX,
        ensures
            final(self).wf(),
            final(self).tracks(final(live)),
            (Explored { session: final(self)@, live: final(live)@, step: step }) == settled(
                old(self)@,
                old(live)@,
                threshold,
                draw,
            ),
            final(self)@.first_makespan == old(self)@.first_makespan,
            max_load(final(self)@.elite) <= max_load(old(self)@.elite),
            step == Step::Finished ==> final(live).cached_makespan() <= old(self)@.first_makespan,
    {
        if threshold > draw % 100 {
            self.improvements = self.improvements + 1;
            self.attempts = 0;
            self.phase = Phase::Exploring;
            Step::Accepted
        } else {
            self.refuse(live)
        }
    }

    /// Takes the verdict on a reshuffle that raised the makespan, with a draw
    /// from `rng`: what `settle` does for some draw.
    pub fn settle_drawn(&mut self, live: &mut Allocator, threshold: u64, rng: &mut StdRng) -> (step:
        Step)
        requires
            old(self).wf(),
            old(self).tracks(old(live)),
            old(self)@.phase == Phase::Deciding,
            old(self)@.improvements < i32::MAX,
        ensures
            final(self).wf(),
            final(self).tracks(final(live)),
            exists|draw: u64|
                (Explored { session: final(self)@, live: final(live)@, step: step })
                    == #[trigger] settled(old(self)@, old(live)@, threshold, draw),
            final(self)@.first_makespan == old(self)@.first_makespan,
            max_load(final(self)@.elite) <= max_load(old(self)@.elite),
            step == Step::Finished ==> final(live).cached_makespan() <= old(self)@.first_makespan,
    {
        let draw = random_u64(rng);
        self.settle(live, threshold, draw)
    }

    /// One step of the search on the live schedule: see `explored`.
    pub fn explore(&mut self, live: &mut Allocator) -> (step: Step)
        requires
            old(self).wf(),
            old(self).tracks(old(live)),
            old(self)@.phase == Phase::Exploring,
            old(self)@.improvements < i32::MAX,
        ensures
            final(self).wf(),
            final(self).tracks(final(live)),
            (Explored { session: final(self)@, live: final(live)@, step: step }) == explored(
                old(self)@,
                old(live)@,
            ),
            final(self)@.first_makespan == old(self)@.first_makespan,
            max_load(final(self)@.elite) <= max_load(old(self)@.elite),
            step == Step::Finished ==> final(live).cached_makespan() <= old(self)@.first_makespan,
    {
        let n = live.machine_count();
        let makespan = live.get_makespan();
        let ghost ms = live@;
        let ghost s = self@;
        let mut i: usize = 0;
        while i < n
            invariant
                i <= n,
                n == ms.len(),
                live.wf(),
                live@ == ms,
                makespan == max_load(ms),
                forall|a: int| 0 <= a < i ==> !#[trigger] is_candidate(ms, a),
            ensures
                i <= n,
                i < n ==> first_candidate(ms, i as int),
                i == n ==> forall|a: int| 0 <= a < n ==> !#[trigger] is_candidate(ms, a),
            decreases n - i,
        {
            if live.load_of(i) == makespan && live.tasks_on(i) > 0 {
                break;
            }
            i += 1;
        }
        if i >= n || n < 2 {
            self.unshadow(live);
            self.phase = Phase::Done;
            return Step::Finished;
        }
        proof {
            lemma_first_candidate_unique(ms, i as int);
        }
        let elite_makespan = self.elite.get_makespan();
        let task = live.pop_task(i).unwrap();
        let ghost held = live@;
        proof {
            lemma_without_last(ms, i as int);
            lemma_without_last_valid(ms, i as int);
        }
        let mut j: usize = 0;
        while j < n
            invariant
                j <= n,
                i < n,
                n == ms.len(),
                live.wf(),
                live@ == held,
                held == without_last(ms, i as int),
                ms[i as int].len() > 0,
                task == ms[i as int].last(),
                task >= 0,
                grand_total(held) + task == grand_total(ms),
                grand_total(ms) <= i32::MAX,
                elite_makespan == max_load(s.elite),
                self@ == s,
                self.wf(),
                s == old(self)@,
                ms == old(live)@,
                old(self).wf(),
                old(self).tracks(old(live)),
                s.improvements < i32::MAX,
                n >= 2,
                first_candidate(ms, i as int),
                i == choose|a: int| first_candidate(ms, a),
                forall|b: int| 0 <= b < j ==> !#[trigger] beats(ms, i as int, b, elite_makespan as int),
            decreases n - j,
        {
            if j != i {
                live.push_task(j, task);
                if live.get_makespan() < elite_makespan {
                    proof {
                        lemma_migration_conserves(ms, i as int, j as int);
                        assert(first_beating(ms, i as int, j as int, elite_makespan as int));
                        lemma_first_beating_unique(ms, i as int, j as int, elite_makespan as int);
                    }
                    self.shadow(live);
                    self.improvements = self.improvements + 1;
                    self.attempts = 0;
                    return Step::Improved;
                }
                proof {
                    lemma_take_back(held, j as int, task);
                }
                live.pop_task(j);
            }
            j += 1;
        }
        proof {
            lemma_put_back(ms, i as int);
            lemma_dealt_conserves(ms, i as int, s.rotation, ms[i as int].len());
            lemma_loads_bounded(ms);
        }
        live.push_task(i, task);
        self.shuffle_idx = live.reshuffle(i, self.shuffle_idx);
        proof {
            lemma_loads_bounded(live@);
        }
        let delta = live.get_makespan() - makespan;
        if delta <= 0 {
            self.refuse(live)
        } else {
            self.phase = Phase::Deciding;
            Step::Worsened { delta }
        }
    }
}

/// There is one first candidate at most.
pub proof fn lemma_first_candidate_unique(ms: Seq<Seq<i32>>, i: int)
    requires
        first_candidate(ms, i),
    ensures
        forall|a: int| first_candidate(ms, a) ==> a == i,
        i == choose|a: int| first_candidate(ms, a),
{
    assert forall|a: int| first_candidate(ms, a) implies a == i by {
        if a < i {
            assert(is_candidate(ms, a));
        } else if i < a {
            assert(is_candidate(ms, i));
        }
    }
}

/// There is one first machine at most that `beats` holds of.
pub proof fn lemma_first_beating_unique(ms: Seq<Seq<i32>>, i: int, j: int, elite: int)
    requires
        first_beating(ms, i, j, elite),
    ensures
        forall|b: int| first_beating(ms, i, b, elite) ==> b == j,
        j == choose|b: int| first_beating(ms, i, b, elite),
{
    assert forall|b: int| first_beating(ms, i, b, elite) implies b == j by {
        if b < j {
            assert(beats(ms, i, b, elite));
        } else if j < b {
            assert(beats(ms, i, j, elite));
        }
    }
}

} // verus!
