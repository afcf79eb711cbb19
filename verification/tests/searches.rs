use task_allocator::allocator::Allocator;

fn schedule(tasks: Vec<Vec<i32>>) -> Allocator {
    Allocator::from_tasks(&tasks).unwrap()
}

fn loads(a: &Allocator) -> Vec<i32> {
    a.machines().iter().map(|m| m.get_makespan()).collect()
}

fn task_lists(a: &Allocator) -> Vec<Vec<i32>> {
    a.machines().iter().map(|m| m.tasks().clone()).collect()
}

fn sorted_durations(a: &Allocator) -> Vec<i32> {
    let mut all: Vec<i32> = task_lists(a).into_iter().flatten().collect();
    all.sort();
    all
}

#[test]
fn first_improve_moves_the_newest_task() {
    let mut a = schedule(vec![vec![10, 1], vec![]]);
    assert_eq!(loads(&a), vec![11, 0]);
    assert_eq!(a.get_makespan(), 11);
    let count = a.search_by_first_improve();
    assert_eq!(count, 1);
    assert_eq!(a.get_makespan(), 10);
    assert_eq!(task_lists(&a), vec![vec![10], vec![1]]);
}

#[test]
fn first_improving_move_takes_the_earliest_pair() {
    // Both 0 -> 1 and 0 -> 2 lower the makespan; the scan meets 0 -> 1 first.
    let mut a = schedule(vec![vec![4, 4], vec![], vec![]]);
    assert!(a.first_improving_move());
    assert_eq!(task_lists(&a), vec![vec![4], vec![4], vec![]]);
    assert_eq!(a.get_makespan(), 4);
    assert!(!a.first_improving_move());
    assert_eq!(task_lists(&a), vec![vec![4], vec![4], vec![]]);
}

#[test]
fn first_improving_move_skips_pairs_that_do_not_help() {
    // 0 -> 1 gives loads [0, 9, 2]; 0 -> 2 gives [0, 6, 5], which is lower.
    let mut a = schedule(vec![vec![3], vec![6], vec![2]]);
    assert_eq!(a.get_makespan(), 6);
    assert!(!a.first_improving_move());
    let mut b = schedule(vec![vec![7, 3], vec![9], vec![2]]);
    assert_eq!(b.get_makespan(), 10);
    assert!(b.first_improving_move());
    assert_eq!(task_lists(&b), vec![vec![7], vec![9], vec![2, 3]]);
    assert_eq!(b.get_makespan(), 9);
}

#[test]
fn first_improve_never_moves_a_task_to_an_earlier_machine() {
    let mut a = schedule(vec![vec![], vec![6, 6]]);
    assert_eq!(a.search_by_first_improve(), 0);
    assert_eq!(task_lists(&a), vec![vec![], vec![6, 6]]);
    assert_eq!(a.get_makespan(), 12);
}

#[test]
fn first_improve_lowers_the_makespan_with_every_move() {
    let mut a = schedule(vec![vec![9, 8, 7, 6, 5, 4, 3, 2, 1], vec![], vec![], vec![]]);
    let before = sorted_durations(&a);
    let mut last = a.get_makespan();
    let mut moves = 0;
    while a.first_improving_move() {
        assert!(a.get_makespan() < last);
        last = a.get_makespan();
        moves += 1;
    }
    assert!(moves <= 3 * 9);
    assert_eq!(sorted_durations(&a), before);
    assert_eq!(a.get_makespan(), *loads(&a).iter().max().unwrap());

    let mut b = schedule(vec![vec![9, 8, 7, 6, 5, 4, 3, 2, 1], vec![], vec![], vec![]]);
    assert_eq!(b.search_by_first_improve(), moves);
    assert_eq!(task_lists(&b), task_lists(&a));
    assert_eq!(b.get_makespan(), last);
}

#[test]
fn first_improve_on_one_machine_does_nothing() {
    let mut a = schedule(vec![vec![3, 4]]);
    assert_eq!(a.search_by_first_improve(), 0);
    assert_eq!(task_lists(&a), vec![vec![3, 4]]);
    assert_eq!(a.get_makespan(), 7);
}

#[test]
fn best_improve_spreads_three_equal_tasks() {
    let mut a = schedule(vec![vec![5, 5, 5], vec![], vec![]]);
    let count = a.search_by_best_improve();
    assert_eq!(count, 2);
    assert_eq!(loads(&a), vec![5, 5, 5]);
    assert_eq!(task_lists(&a), vec![vec![5], vec![5], vec![5]]);
    assert_eq!(a.get_makespan(), 5);
}

#[test]
fn best_improve_only_takes_from_the_first_machine() {
    let mut a = schedule(vec![vec![1], vec![9, 9]]);
    assert_eq!(a.search_by_best_improve(), 0);
    assert_eq!(task_lists(&a), vec![vec![1], vec![9, 9]]);
    assert_eq!(a.get_makespan(), 18);
}

#[test]
fn best_improve_stops_on_an_empty_first_machine() {
    let mut a = schedule(vec![vec![], vec![4], vec![]]);
    assert_eq!(a.search_by_best_improve(), 0);
    assert_eq!(task_lists(&a), vec![vec![], vec![4], vec![]]);
    assert_eq!(a.get_makespan(), 4);
}

#[test]
fn best_improve_takes_back_a_move_that_does_not_help() {
    // The 9 goes to the empty machine, but machine 2 keeps the makespan at 10.
    let mut a = schedule(vec![vec![1, 9], vec![], vec![10]]);
    assert!(!a.best_improving_move());
    assert_eq!(task_lists(&a), vec![vec![1, 9], vec![], vec![10]]);
    assert_eq!(a.search_by_best_improve(), 0);
    assert_eq!(task_lists(&a), vec![vec![1, 9], vec![], vec![10]]);
    assert_eq!(a.get_makespan(), 10);
}

#[test]
fn best_improve_offers_to_the_first_of_the_least_loaded() {
    let mut a = schedule(vec![vec![8, 2], vec![3], vec![1], vec![1]]);
    assert!(a.best_improving_move());
    assert_eq!(task_lists(&a), vec![vec![8], vec![3], vec![1, 2], vec![1]]);
    assert_eq!(a.get_makespan(), 8);
    assert!(!a.best_improving_move());
    assert_eq!(task_lists(&a), vec![vec![8], vec![3], vec![1, 2], vec![1]]);
}

#[test]
fn best_improve_counts_the_tasks_that_left_the_first_machine() {
    let mut a = schedule(vec![vec![2, 2, 2, 2, 2, 2], vec![], vec![]]);
    let count = a.search_by_best_improve();
    assert_eq!(count, 4);
    assert_eq!(task_lists(&a), vec![vec![2, 2], vec![2, 2], vec![2, 2]]);
    assert_eq!(a.get_makespan(), 4);
}
