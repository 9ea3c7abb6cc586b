use spikenorm::planner::{available_budget, per_task_budget};

#[test]
fn eight_slots_for_three_tasks_give_two_each() {
    assert_eq!(per_task_budget(8, 3), 2);
}

#[test]
fn the_budget_is_the_whole_part_of_the_share() {
    assert_eq!(per_task_budget(8, 1), 8);
    assert_eq!(per_task_budget(8, 2), 4);
    assert_eq!(per_task_budget(8, 4), 2);
    assert_eq!(per_task_budget(8, 5), 1);
    assert_eq!(per_task_budget(8, 8), 1);
    assert_eq!(per_task_budget(64, 7), 9);
    assert_eq!(per_task_budget(usize::MAX, 1), usize::MAX);
}

#[test]
fn no_task_is_left_without_a_slot() {
    assert_eq!(per_task_budget(8, 9), 1);
    assert_eq!(per_task_budget(2, 5), 1);
    assert_eq!(per_task_budget(1, 1000), 1);
    assert_eq!(per_task_budget(0, 3), 1);
}

#[test]
fn the_budget_on_this_machine_is_at_least_one() {
    assert!(available_budget(1) >= 1);
    assert!(available_budget(3) >= 1);
    assert_eq!(available_budget(usize::MAX), 1);
    assert!(available_budget(2) <= available_budget(1));
}
