use rand::rngs::StdRng;
use rand::SeedableRng;
use task_allocator::allocator::{Allocator, MAX_DRAWN_TASKS};
use task_allocator::error::ScheduleError;
use task_allocator::machine::Machine;

fn schedule(tasks: Vec<Vec<i32>>) -> Allocator {
    Allocator::from_tasks(&tasks).unwrap()
}

fn loads(a: &Allocator) -> Vec<i32> {
    a.machines().iter().map(|m| m.get_makespan()).collect()
}

fn task_lists(a: &Allocator) -> Vec<Vec<i32>> {
    a.machines().iter().map(|m| m.tasks().clone()).collect()
}

fn holds_invariant(a: &Allocator) -> bool {
    a.machines().iter().all(|m| m.get_makespan() == m.tasks().iter().sum::<i32>())
        && a.get_makespan() == *loads(a).iter().max().unwrap()
}

#[test]
fn machine_starts_empty() {
    let m = Machine::new();
    assert_eq!(m.get_makespan(), 0);
    assert!(m.tasks().is_empty());
}

#[test]
fn machine_push_and_pop_keep_the_load() {
    let mut m = Machine::new();
    m.push_task(4);
    m.push_task(9);
    assert_eq!(m.get_makespan(), 13);
    assert_eq!(m.tasks(), &vec![4, 9]);
    assert_eq!(m.pop_tasks(), Some(9));
    assert_eq!(m.get_makespan(), 4);
    assert_eq!(m.pop_tasks(), Some(4));
    assert_eq!(m.get_makespan(), 0);
}

#[test]
fn machine_pop_on_empty_gives_nothing() {
    let mut m = Machine::new();
    assert_eq!(m.pop_tasks(), None);
    assert_eq!(m.get_makespan(), 0);
    assert!(m.tasks().is_empty());
}

#[test]
fn machine_add_to_makespan_leaves_the_tasks() {
    let mut m = Machine::new();
    m.push_task(3);
    m.add_to_makespan(5);
    assert_eq!(m.get_makespan(), 8);
    assert_eq!(m.tasks(), &vec![3]);
    m.add_to_makespan(-5);
    assert_eq!(m.get_makespan(), 3);
}

#[test]
fn machine_clone_is_a_copy_of_its_own() {
    let mut m = Machine::new();
    m.push_task(2);
    m.push_task(6);
    let copy = m.clone();
    m.pop_tasks();
    assert_eq!(copy.tasks(), &vec![2, 6]);
    assert_eq!(copy.get_makespan(), 8);
    assert_eq!(m.tasks(), &vec![2]);
}

#[test]
fn from_tasks_holds_what_it_was_given() {
    let a = schedule(vec![vec![10, 1], vec![], vec![7]]);
    assert_eq!(a.machine_count(), 3);
    assert_eq!(task_lists(&a), vec![vec![10, 1], vec![], vec![7]]);
    assert_eq!(loads(&a), vec![11, 0, 7]);
    assert_eq!(a.get_makespan(), 11);
    assert_eq!(a.load_of(2), 7);
    assert_eq!(a.tasks_on(0), 2);
}

#[test]
fn from_tasks_refuses_no_machine() {
    assert_eq!(Allocator::from_tasks(&vec![]).err(), Some(ScheduleError::InvalidParameter));
}

#[test]
fn from_tasks_refuses_a_negative_duration() {
    let tasks = vec![vec![1, 2], vec![3, -1]];
    assert_eq!(Allocator::from_tasks(&tasks).err(), Some(ScheduleError::InvalidParameter));
    // A negative duration counts before too much work.
    let tasks = vec![vec![i32::MAX, i32::MAX], vec![-1]];
    assert_eq!(Allocator::from_tasks(&tasks).err(), Some(ScheduleError::InvalidParameter));
}

#[test]
fn from_tasks_refuses_work_beyond_a_load() {
    let tasks = vec![vec![i32::MAX], vec![1]];
    assert_eq!(Allocator::from_tasks(&tasks).err(), Some(ScheduleError::LoadOverflow));
    let tasks = vec![vec![i32::MAX - 1], vec![1]];
    let a = Allocator::from_tasks(&tasks).unwrap();
    assert_eq!(a.get_makespan(), i32::MAX - 1);
}

#[test]
fn from_tasks_takes_zero_durations() {
    let a = schedule(vec![vec![0, 0], vec![]]);
    assert_eq!(a.get_makespan(), 0);
    assert_eq!(a.tasks_on(0), 2);
}

#[test]
fn construction_refuses_no_machine() {
    let mut rng = StdRng::seed_from_u64(7);
    let n = (0f64).powf(1.5).floor() as i32;
    assert_eq!(Allocator::new(&mut rng, 0, n).err(), Some(ScheduleError::InvalidParameter));
    assert_eq!(Allocator::new(&mut rng, -3, 0).err(), Some(ScheduleError::InvalidParameter));
    assert_eq!(
        Allocator::new_randonly_distributed(&mut rng, 0, n).err(),
        Some(ScheduleError::InvalidParameter)
    );
}

#[test]
fn construction_refuses_an_exponent_below_one() {
    let mut rng = StdRng::seed_from_u64(7);
    let n = (5f64).powf(0.5).floor() as i32;
    assert_eq!(n, 2);
    assert_eq!(Allocator::new(&mut rng, 5, n).err(), Some(ScheduleError::InvalidParameter));
    assert_eq!(
        Allocator::new_randonly_distributed(&mut rng, 5, n).err(),
        Some(ScheduleError::InvalidParameter)
    );
}

#[test]
fn construction_refuses_more_tasks_than_fit() {
    let mut rng = StdRng::seed_from_u64(7);
    assert_eq!(MAX_DRAWN_TASKS, i32::MAX / 99);
    assert_eq!(
        Allocator::new(&mut rng, 2, MAX_DRAWN_TASKS + 1).err(),
        Some(ScheduleError::LoadOverflow)
    );
    assert_eq!(
        Allocator::new_randonly_distributed(&mut rng, 2, MAX_DRAWN_TASKS + 1).err(),
        Some(ScheduleError::LoadOverflow)
    );
}

#[test]
fn new_puts_every_task_on_the_first_machine() {
    let mut rng = StdRng::seed_from_u64(11);
    let m = 10;
    let n = (m as f64).powf(1.5).floor() as i32;
    assert_eq!(n, 31);
    let a = Allocator::new(&mut rng, m, n).unwrap();
    assert_eq!(a.machine_count(), 10);
    assert_eq!(a.tasks_on(0), 31);
    for i in 1..10 {
        assert_eq!(a.tasks_on(i), 0);
    }
    let first = a.machines()[0].tasks().clone();
    assert!(first.iter().all(|d| 1 <= *d && *d <= 99));
    assert!(first.iter().any(|d| *d != first[0]));
    assert_eq!(a.get_makespan(), first.iter().sum::<i32>());
    assert!(holds_invariant(&a));
}

#[test]
fn new_with_one_machine_and_one_task() {
    let mut rng = StdRng::seed_from_u64(3);
    let a = Allocator::new(&mut rng, 1, 1).unwrap();
    assert_eq!(a.machine_count(), 1);
    assert_eq!(a.tasks_on(0), 1);
    assert!(1 <= a.get_makespan() && a.get_makespan() <= 99);
}

#[test]
fn new_gives_the_same_schedule_for_the_same_seed() {
    let a = Allocator::new(&mut StdRng::seed_from_u64(5), 4, 16).unwrap();
    let b = Allocator::new(&mut StdRng::seed_from_u64(5), 4, 16).unwrap();
    assert_eq!(task_lists(&a), task_lists(&b));
}

#[test]
fn new_randonly_distributed_spreads_the_tasks() {
    let mut rng = StdRng::seed_from_u64(13);
    let a = Allocator::new_randonly_distributed(&mut rng, 5, 500).unwrap();
    assert_eq!(a.machine_count(), 5);
    let lists = task_lists(&a);
    assert_eq!(lists.iter().map(|t| t.len()).sum::<usize>(), 500);
    assert!(lists.iter().flatten().all(|d| 1 <= *d && *d <= 99));
    assert!(lists.iter().filter(|t| !t.is_empty()).count() > 1);
    assert!(holds_invariant(&a));
}

#[test]
fn makespan_is_the_largest_load_after_every_operation() {
    let mut a = schedule(vec![vec![5, 6], vec![20], vec![]]);
    assert!(holds_invariant(&a));
    assert_eq!(a.pop_task(1), Some(20));
    assert_eq!(a.get_makespan(), 11);
    assert!(holds_invariant(&a));
    a.push_task(2, 30);
    assert_eq!(a.get_makespan(), 30);
    assert!(holds_invariant(&a));
    assert_eq!(a.migrate_task(2, 0), Some(30));
    assert_eq!(a.get_makespan(), 41);
    assert!(holds_invariant(&a));
    assert_eq!(a.pop_task(1), None);
    assert!(holds_invariant(&a));
}

#[test]
fn migrate_task_moves_the_newest_task() {
    let mut a = schedule(vec![vec![10, 1], vec![4]]);
    assert_eq!(a.migrate_task(0, 1), Some(1));
    assert_eq!(task_lists(&a), vec![vec![10], vec![4, 1]]);
    assert_eq!(a.get_makespan(), 10);
    assert_eq!(a.migrate_task(1, 0), Some(1));
    assert_eq!(task_lists(&a), vec![vec![10, 1], vec![4]]);
    assert_eq!(a.get_makespan(), 11);
}

#[test]
fn migrate_task_from_an_empty_machine_does_nothing() {
    let mut a = schedule(vec![vec![], vec![4]]);
    assert_eq!(a.migrate_task(0, 1), None);
    assert_eq!(task_lists(&a), vec![vec![], vec![4]]);
    assert_eq!(a.get_makespan(), 4);
}

#[test]
fn migrate_task_onto_its_own_machine_changes_nothing() {
    let mut a = schedule(vec![vec![3, 8], vec![4]]);
    assert_eq!(a.migrate_task(0, 0), Some(8));
    assert_eq!(task_lists(&a), vec![vec![3, 8], vec![4]]);
    assert_eq!(a.get_makespan(), 11);
}

#[test]
fn migrations_keep_the_tasks_and_their_sum() {
    let mut a = schedule(vec![vec![9, 2, 7], vec![4], vec![], vec![1, 1]]);
    let moves = [(0, 1), (0, 2), (2, 3), (1, 0), (2, 0), (3, 3), (3, 1), (0, 2)];
    for (src, dst) in moves {
        a.migrate_task(src, dst);
        let lists = task_lists(&a);
        assert_eq!(lists.len(), 4);
        assert_eq!(lists.iter().map(|t| t.len()).sum::<usize>(), 6);
        assert_eq!(lists.iter().flatten().sum::<i32>(), 24);
        assert!(holds_invariant(&a));
    }
}

#[test]
fn calculate_makespan_gives_the_same_value_twice() {
    let a = schedule(vec![vec![9, 2, 7], vec![4], vec![30]]);
    let first = a.calculate_makespan();
    let second = a.calculate_makespan();
    assert_eq!(first, 30);
    assert_eq!(second, 30);
    assert_eq!(a.get_makespan(), 30);
}

#[test]
fn lower_makespan_machine_is_the_first_of_the_least_loaded() {
    let a = schedule(vec![vec![3], vec![1], vec![2], vec![1]]);
    assert_eq!(a.get_lower_makespan_machine_index(), 1);
    let b = schedule(vec![vec![], vec![]]);
    assert_eq!(b.get_lower_makespan_machine_index(), 0);
}

#[test]
fn snapshot_does_not_follow_the_schedule() {
    let mut a = schedule(vec![vec![3, 8], vec![4]]);
    let copy = a.snapshot();
    a.migrate_task(0, 1);
    assert_eq!(task_lists(&copy), vec![vec![3, 8], vec![4]]);
    assert_eq!(copy.get_makespan(), 11);
    assert_eq!(a.get_makespan(), 12);
}
