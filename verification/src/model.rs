//! The mathematical model of a schedule: one sequence of task durations per
//! machine, with the sums and maxima that the contracts speak of.

use vstd::prelude::*;

verus! {

/// The sum of a sequence of integers.
pub open spec fn sum(s: Seq<int>) -> int
    decreases s.len(),
{
    if s.len() == 0 {
        0
    } else {
        sum(s.drop_last()) + s.last()
    }
}

/// The largest entry of a sequence of integers; zero for the empty sequence.
pub open spec fn largest(s: Seq<int>) -> int
    decreases s.len(),
{
    if s.len() == 0 {
        0
    } else if s.len() == 1 {
        s.last()
    } else if largest(s.drop_last()) >= s.last() {
        largest(s.drop_last())
    } else {
        s.last()
    }
}

/// The summed duration of a machine's tasks.
pub open spec fn total(tasks: Seq<i32>) -> int {
    sum(tasks.map_values(|d: i32| d as int))
}

/// No task has a negative duration.
pub open spec fn non_negative(tasks: Seq<i32>) -> bool {
    forall|k: int| 0 <= k < tasks.len() ==> tasks[k] >= 0
}

/// The load of each machine.
pub open spec fn loads(ms: Seq<Seq<i32>>) -> Seq<int> {
    ms.map_values(|t: Seq<i32>| total(t))
}

/// The number of tasks on each machine.
pub open spec fn counts(ms: Seq<Seq<i32>>) -> Seq<int> {
    ms.map_values(|t: Seq<i32>| t.len() as int)
}

/// The makespan: the largest machine load.
pub open spec fn max_load(ms: Seq<Seq<i32>>) -> int {
    largest(loads(ms))
}

/// The summed duration of all tasks on all machines.
pub open spec fn grand_total(ms: Seq<Seq<i32>>) -> int {
    sum(loads(ms))
}

/// The number of tasks on all machines together.
pub open spec fn task_count(ms: Seq<Seq<i32>>) -> int {
    sum(counts(ms))
}

/// A schedule that the library works on: at least one machine, no negative
/// duration, and all work together within the range of a load.
pub open spec fn valid_schedule(ms: Seq<Seq<i32>>) -> bool {
    &&& ms.len() >= 1
    &&& forall|i: int| 0 <= i < ms.len() ==> non_negative(#[trigger] ms[i])
    &&& grand_total(ms) <= i32::MAX
}

/// The schedule after the last task of machine `i` has been taken away.
pub open spec fn without_last(ms: Seq<Seq<i32>>, i: int) -> Seq<Seq<i32>> {
    ms.update(i, ms[i].drop_last())
}

/// The schedule after a task of duration `d` has been put on machine `j`.
pub open spec fn with_task(ms: Seq<Seq<i32>>, j: int, d: i32) -> Seq<Seq<i32>> {
    ms.update(j, ms[j].push(d))
}

/// The schedule after the last task of machine `src` has moved to machine
/// `dst`. Moving a task onto its own machine changes nothing.
pub open spec fn migrated(ms: Seq<Seq<i32>>, src: int, dst: int) -> Seq<Seq<i32>> {
    with_task(without_last(ms, src), dst, ms[src].last())
}

/// One more entry adds itself to the sum.
pub proof fn lemma_sum_push(s: Seq<int>, v: int)
    ensures
        sum(s.push(v)) == sum(s) + v,
{
    assert(s.push(v).drop_last() =~= s);
}

/// Replacing an entry changes the sum by the difference.
pub proof fn lemma_sum_update(s: Seq<int>, i: int, v: int)
    requires
        0 <= i < s.len(),
    ensures
        sum(s.update(i, v)) == sum(s) - s[i] + v,
    decreases s.len(),
{
    if i == s.len() - 1 {
        assert(s.update(i, v).drop_last() =~= s.drop_last());
    } else {
        lemma_sum_update(s.drop_last(), i, v);
        assert(s.update(i, v).drop_last() =~= s.drop_last().update(i, v));
    }
}

/// Where no entry is negative, the sum is not negative and no entry is
/// above it.
pub proof fn lemma_sum_non_negative(s: Seq<int>)
    requires
        forall|k: int| 0 <= k < s.len() ==> s[k] >= 0,
    ensures
        sum(s) >= 0,
        forall|k: int| 0 <= k < s.len() ==> s[k] <= sum(s),
    decreases s.len(),
{
    if s.len() > 0 {
        lemma_sum_non_negative(s.drop_last());
        assert forall|k: int| 0 <= k < s.len() implies s[k] <= sum(s) by {
            if k < s.len() - 1 {
                assert(s.drop_last()[k] == s[k]);
            }
        }
    }
}

/// The largest entry is an entry, and no entry is above it.
pub proof fn lemma_largest(s: Seq<int>)
    requires
        s.len() >= 1,
    ensures
        forall|k: int| 0 <= k < s.len() ==> s[k] <= largest(s),
        exists|k: int| 0 <= k < s.len() && s[k] == largest(s),
    decreases s.len(),
{
    if s.len() == 1 {
        assert(s[0] == largest(s));
    } else {
        let t = s.drop_last();
        lemma_largest(t);
        let w = choose|k: int| 0 <= k < t.len() && t[k] == largest(t);
        assert(t[w] == s[w]);
        assert forall|k: int| 0 <= k < s.len() implies s[k] <= largest(s) by {
            if k < s.len() - 1 {
                assert(t[k] == s[k]);
            }
        }
        if largest(t) >= s.last() {
            assert(s[w] == largest(s));
        } else {
            assert(s[s.len() - 1] == largest(s));
        }
    }
}

/// One more task adds its duration to the machine's work.
pub proof fn lemma_total_push(tasks: Seq<i32>, d: i32)
    ensures
        total(tasks.push(d)) == total(tasks) + d,
{
    let f = |d: i32| d as int;
    assert(tasks.push(d).map_values(f) =~= tasks.map_values(f).push(d as int));
    lemma_sum_push(tasks.map_values(f), d as int);
}

/// Without its newest task a machine's work is less by that duration.
pub proof fn lemma_total_drop_last(tasks: Seq<i32>)
    requires
        tasks.len() > 0,
    ensures
        total(tasks.drop_last()) == total(tasks) - tasks.last(),
{
    assert(tasks.drop_last().push(tasks.last()) =~= tasks);
    lemma_total_push(tasks.drop_last(), tasks.last());
}

/// Without negative durations a machine's work is not negative.
pub proof fn lemma_total_non_negative(tasks: Seq<i32>)
    requires
        non_negative(tasks),
    ensures
        total(tasks) >= 0,
{
    lemma_sum_non_negative(tasks.map_values(|d: i32| d as int));
}

/// In a valid schedule every load lies between zero and the grand total, and
/// so does the makespan.
pub proof fn lemma_loads_bounded(ms: Seq<Seq<i32>>)
    requires
        ms.len() >= 1,
        forall|i: int| 0 <= i < ms.len() ==> non_negative(#[trigger] ms[i]),
    ensures
        forall|i: int| 0 <= i < ms.len() ==> 0 <= total(#[trigger] ms[i]) <= grand_total(ms),
        0 <= max_load(ms) <= grand_total(ms),
{
    let l = loads(ms);
    assert forall|k: int| 0 <= k < l.len() implies l[k] >= 0 by {
        lemma_total_non_negative(ms[k]);
    }
    lemma_sum_non_negative(l);
    assert forall|i: int| 0 <= i < ms.len() implies 0 <= total(#[trigger] ms[i]) <= grand_total(
        ms,
    ) by {
        assert(l[i] == total(ms[i]));
    }
    lemma_largest(l);
}

/// What putting a task on a machine does to the sums.
pub proof fn lemma_with_task(ms: Seq<Seq<i32>>, j: int, d: i32)
    requires
        0 <= j < ms.len(),
    ensures
        grand_total(with_task(ms, j, d)) == grand_total(ms) + d,
        task_count(with_task(ms, j, d)) == task_count(ms) + 1,
        loads(with_task(ms, j, d)) == loads(ms).update(j, total(ms[j]) + d),
{
    let r = with_task(ms, j, d);
    lemma_total_push(ms[j], d);
    assert(loads(r) =~= loads(ms).update(j, total(ms[j]) + d));
    assert(counts(r) =~= counts(ms).update(j, (ms[j].len() + 1) as int));
    lemma_sum_update(loads(ms), j, total(ms[j]) + d);
    lemma_sum_update(counts(ms), j, (ms[j].len() + 1) as int);
}

/// What taking the last task from a machine does to the sums.
pub proof fn lemma_without_last(ms: Seq<Seq<i32>>, i: int)
    requires
        0 <= i < ms.len(),
        ms[i].len() > 0,
    ensures
        grand_total(without_last(ms, i)) == grand_total(ms) - ms[i].last(),
        task_count(without_last(ms, i)) == task_count(ms) - 1,
        loads(without_last(ms, i)) == loads(ms).update(i, total(ms[i]) - ms[i].last()),
{
    let r = without_last(ms, i);
    lemma_total_drop_last(ms[i]);
    assert(loads(r) =~= loads(ms).update(i, total(ms[i]) - ms[i].last()));
    assert(counts(r) =~= counts(ms).update(i, (ms[i].len() - 1) as int));
    lemma_sum_update(loads(ms), i, total(ms[i]) - ms[i].last());
    lemma_sum_update(counts(ms), i, (ms[i].len() - 1) as int);
}

/// Taking the last task from a machine of a valid schedule leaves a valid
/// schedule.
pub proof fn lemma_without_last_valid(ms: Seq<Seq<i32>>, i: int)
    requires
        valid_schedule(ms),
        0 <= i < ms.len(),
        ms[i].len() > 0,
    ensures
        valid_schedule(without_last(ms, i)),
        ms[i].last() >= 0,
{
    lemma_without_last(ms, i);
    let r = without_last(ms, i);
    assert(non_negative(ms[i]));
    assert forall|k: int| 0 <= k < r.len() implies non_negative(#[trigger] r[k]) by {
        assert(non_negative(ms[k]));
    }
}

/// Putting a task on a machine of a valid schedule leaves a valid schedule
/// where the work still fits.
pub proof fn lemma_with_task_valid(ms: Seq<Seq<i32>>, j: int, d: i32)
    requires
        valid_schedule(ms),
        0 <= j < ms.len(),
        d >= 0,
        grand_total(ms) + d <= i32::MAX,
    ensures
        valid_schedule(with_task(ms, j, d)),
{
    lemma_with_task(ms, j, d);
    let r = with_task(ms, j, d);
    assert forall|k: int| 0 <= k < r.len() implies non_negative(#[trigger] r[k]) by {
        assert(non_negative(ms[k]));
    }
}

/// Taking back the task that was just put on a machine restores the schedule.
pub proof fn lemma_take_back(ms: Seq<Seq<i32>>, j: int, d: i32)
    requires
        0 <= j < ms.len(),
    ensures
        without_last(with_task(ms, j, d), j) == ms,
        with_task(ms, j, d)[j].last() == d,
        with_task(ms, j, d)[j].len() > 0,
{
    assert(ms[j].push(d).drop_last() =~= ms[j]);
    assert(without_last(with_task(ms, j, d), j) =~= ms);
}

/// Putting back the task that was just taken from a machine restores the
/// schedule.
pub proof fn lemma_put_back(ms: Seq<Seq<i32>>, i: int)
    requires
        0 <= i < ms.len(),
        ms[i].len() > 0,
    ensures
        with_task(without_last(ms, i), i, ms[i].last()) == ms,
{
    assert(ms[i].drop_last().push(ms[i].last()) =~= ms[i]);
    assert(with_task(without_last(ms, i), i, ms[i].last()) =~= ms);
}

/// A schedule of `n` machines without tasks.
pub open spec fn idle(n: int) -> Seq<Seq<i32>> {
    Seq::new(n as nat, |i: int| Seq::<i32>::empty())
}

/// A sequence of zeros sums to zero, and zero is its largest entry.
pub proof fn lemma_zeros(s: Seq<int>)
    requires
        forall|k: int| 0 <= k < s.len() ==> s[k] == 0,
    ensures
        sum(s) == 0,
        largest(s) == 0,
    decreases s.len(),
{
    if s.len() > 0 {
        lemma_zeros(s.drop_last());
    }
}

/// Machines without tasks hold no work.
pub proof fn lemma_idle(n: int)
    requires
        n >= 0,
    ensures
        grand_total(idle(n)) == 0,
        task_count(idle(n)) == 0,
        max_load(idle(n)) == 0,
{
    assert forall|k: int| 0 <= k < n implies #[trigger] loads(idle(n))[k] == 0 by {
        assert(idle(n)[k].map_values(|d: i32| d as int) =~= Seq::<int>::empty());
    }
    lemma_zeros(loads(idle(n)));
    lemma_zeros(counts(idle(n)));
}

/// The first `k + 1` entries sum to the first `k` and the entry at `k`.
pub proof fn lemma_sum_prefix_step(s: Seq<int>, k: int)
    requires
        0 <= k < s.len(),
    ensures
        sum(s.subrange(0, k + 1)) == sum(s.subrange(0, k)) + s[k],
{
    assert(s.subrange(0, k + 1).drop_last() =~= s.subrange(0, k));
}

/// Where no entry is negative, a prefix sums to no more than the whole.
pub proof fn lemma_sum_prefix(s: Seq<int>, k: int)
    requires
        0 <= k <= s.len(),
        forall|a: int| 0 <= a < s.len() ==> s[a] >= 0,
    ensures
        sum(s.subrange(0, k)) <= sum(s),
    decreases s.len() - k,
{
    if k == s.len() {
        assert(s.subrange(0, k) =~= s);
    } else {
        lemma_sum_prefix_step(s, k);
        lemma_sum_prefix(s, k + 1);
    }
}

/// The first `k + 1` tasks weigh as much as the first `k` and the task at `k`.
pub proof fn lemma_total_prefix_step(tasks: Seq<i32>, k: int)
    requires
        0 <= k < tasks.len(),
    ensures
        total(tasks.subrange(0, k + 1)) == total(tasks.subrange(0, k)) + tasks[k],
{
    assert(tasks.subrange(0, k + 1) =~= tasks.subrange(0, k).push(tasks[k]));
    lemma_total_push(tasks.subrange(0, k), tasks[k]);
}

/// Where no duration is negative, the first tasks weigh no more than all.
pub proof fn lemma_total_prefix(tasks: Seq<i32>, k: int)
    requires
        0 <= k <= tasks.len(),
        non_negative(tasks),
    ensures
        total(tasks.subrange(0, k)) <= total(tasks),
{
    let f = |d: i32| d as int;
    assert(tasks.subrange(0, k).map_values(f) =~= tasks.map_values(f).subrange(0, k));
    lemma_sum_prefix(tasks.map_values(f), k);
}

/// Moving a task keeps the number of machines, the number of tasks and the
/// summed duration, and a valid schedule stays valid.
pub proof fn lemma_migration_conserves(ms: Seq<Seq<i32>>, src: int, dst: int)
    requires
        0 <= src < ms.len(),
        0 <= dst < ms.len(),
        ms[src].len() > 0,
    ensures
        migrated(ms, src, dst).len() == ms.len(),
        grand_total(migrated(ms, src, dst)) == grand_total(ms),
        task_count(migrated(ms, src, dst)) == task_count(ms),
        valid_schedule(ms) ==> valid_schedule(migrated(ms, src, dst)),
{
    lemma_without_last(ms, src);
    lemma_with_task(without_last(ms, src), dst, ms[src].last());
    if valid_schedule(ms) {
        lemma_without_last_valid(ms, src);
        lemma_with_task_valid(without_last(ms, src), dst, ms[src].last());
    }
}

/// A move names a source and a destination machine of the schedule.
pub open spec fn moves_in_range(n: int, moves: Seq<(int, int)>) -> bool {
    forall|k: int|
        0 <= k < moves.len() ==> 0 <= (#[trigger] moves[k]).0 < n && 0 <= moves[k].1 < n
}

/// The schedule after one move: the newest task of the source goes to the
/// destination, and nothing happens where the source has no task.
pub open spec fn moved(ms: Seq<Seq<i32>>, src: int, dst: int) -> Seq<Seq<i32>> {
    if ms[src].len() > 0 {
        migrated(ms, src, dst)
    } else {
        ms
    }
}

/// The schedule after a sequence of moves, made in order.
pub open spec fn moved_all(ms: Seq<Seq<i32>>, moves: Seq<(int, int)>) -> Seq<Seq<i32>>
    decreases moves.len(),
{
    if moves.len() == 0 {
        ms
    } else {
        let before = moved_all(ms, moves.drop_last());
        moved(before, moves.last().0, moves.last().1)
    }
}

/// Any sequence of moves keeps the number of machines, the number of tasks
/// and the summed duration, and a valid schedule stays valid.
pub proof fn lemma_moves_conserve(ms: Seq<Seq<i32>>, moves: Seq<(int, int)>)
    requires
        moves_in_range(ms.len() as int, moves),
    ensures
        moved_all(ms, moves).len() == ms.len(),
        grand_total(moved_all(ms, moves)) == grand_total(ms),
        task_count(moved_all(ms, moves)) == task_count(ms),
        valid_schedule(ms) ==> valid_schedule(moved_all(ms, moves)),
    decreases moves.len(),
{
    if moves.len() > 0 {
        let earlier = moves.drop_last();
        assert forall|k: int| 0 <= k < earlier.len() implies 0 <= (#[trigger] earlier[k]).0
            < ms.len() && 0 <= earlier[k].1 < ms.len() by {
            assert(earlier[k] == moves[k]);
        }
        lemma_moves_conserve(ms, earlier);
        let before = moved_all(ms, earlier);
        let last = moves[moves.len() - 1];
        if before[last.0].len() > 0 {
            lemma_migration_conserves(before, last.0, last.1);
        }
    }
}

/// Where each entry of one sequence is at most the entry of the other at
/// its place, so are the sums.
pub proof fn lemma_sum_pointwise(a: Seq<int>, b: Seq<int>)
    requires
        a.len() == b.len(),
        forall|k: int| 0 <= k < a.len() ==> a[k] <= b[k],
    ensures
        sum(a) <= sum(b),
    decreases a.len(),
{
    if a.len() > 0 {
        lemma_sum_pointwise(a.drop_last(), b.drop_last());
    }
}

/// A sum of multiples is the multiple of the sum.
pub proof fn lemma_sum_scaled(s: Seq<int>, c: int)
    ensures
        sum(s.map_values(|v: int| c * v)) == c * sum(s),
    decreases s.len(),
{
    let f = |v: int| c * v;
    if s.len() > 0 {
        lemma_sum_scaled(s.drop_last(), c);
        assert(s.map_values(f).drop_last() =~= s.drop_last().map_values(f));
        assert(c * (sum(s.drop_last()) + s.last()) == c * sum(s.drop_last()) + c * s.last())
            by (nonlinear_arith);
    } else {
        assert(c * 0 == 0);
    }
}

} // verus!
