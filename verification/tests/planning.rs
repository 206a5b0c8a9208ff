//! The analyzer and the scheduler on concrete batches.

use purtel::PurtelParamUsageKind::{READ, WRITE};
use purtel::{PurtelError, PurtelExecutor, PurtelParamUsage};

type Executor = PurtelExecutor<Box<dyn FnOnce() + Send>>;

#[test]
pub fn test_calc_dependencies_simple() {
    let param_usages = vec![
        // for first task
        vec![PurtelParamUsage::new("data1", READ)],
        // for second task
        vec![PurtelParamUsage::new("data1", WRITE), PurtelParamUsage::new("data2", WRITE)],
        // for third task
        vec![PurtelParamUsage::new("data1", READ)],
        // for fourth task
        vec![PurtelParamUsage::new("data2", READ)],
    ];

    let dependencies = Executor::calc_task_dependencies(&param_usages);
    assert_eq!(4, dependencies.len(), "Must generate dependencies for each task!");

    assert_eq!(dependencies[0], vec![], "first task has no dependencies");
    assert_eq!(dependencies[1], vec![0], "second task is dependent on first; Write After Read");
    assert_eq!(dependencies[2], vec![1], "third task is dependent on second; Read after Write");
    assert_eq!(dependencies[3], vec![1], "fourth task is dependent on second; Read after Write");
}

#[test]
pub fn test_calc_dependencies_complex() {
    let param_usages = vec![
        vec![PurtelParamUsage::new("data1", WRITE), PurtelParamUsage::new("data2", WRITE)],
        vec![PurtelParamUsage::new("data1", WRITE), PurtelParamUsage::new("data2", WRITE)],
        vec![PurtelParamUsage::new("data1", WRITE), PurtelParamUsage::new("data2", WRITE)],
        vec![PurtelParamUsage::new("data1", WRITE), PurtelParamUsage::new("data2", WRITE)],
    ];

    let dependencies = Executor::calc_task_dependencies(&param_usages);
    assert_eq!(4, dependencies.len(), "Must generate dependencies for each task!");

    assert_eq!(dependencies[0], vec![], "first task has no dependencies");
    assert_eq!(dependencies[1], vec![0], "second task is dependent on first; Write After Write");
    assert_eq!(
        dependencies[2],
        vec![0, 1],
        "third task is dependent on second, and first; Write after Write"
    );
    assert_eq!(
        dependencies[3],
        vec![0, 1, 2],
        "fourth task is dependent on third, second, and first; Write after Write"
    );
}

#[test]
pub fn test_calc_execution_levels() {
    let param_usages = vec![
        vec![PurtelParamUsage::new("data1", READ)],
        vec![PurtelParamUsage::new("data1", WRITE), PurtelParamUsage::new("data2", WRITE)],
        vec![PurtelParamUsage::new("data1", READ)],
        vec![PurtelParamUsage::new("data2", READ)],
    ];

    let deps = Executor::calc_task_dependencies(&param_usages);
    let order = Executor::calc_execution_levels(deps);
    assert_eq!(3, order.len(), "should only need 3 execution levels");

    assert_eq!(vec![0], order[0], "in first iteration only first task can run");
    assert_eq!(vec![1], order[1], "in second iteration only second task can run");
    assert_eq!(vec![2, 3], order[2], "in third iteration only third and fourth task can run");
}

#[test]
pub fn test_calc_execution_levels_complex() {
    let deps = vec![
        vec![], // first task
        vec![], // second task
        vec![0],
        vec![1],
        vec![],
        vec![],
        vec![2, 0, 3, 1, 4, 5], // seventh task; order is irrelevant
    ];
    let execution_levels = Executor::calc_execution_levels(deps);
    assert_eq!(3, execution_levels.len(), "should only need 3 execution levels");

    assert_eq!(vec![0, 1, 4, 5], execution_levels[0]);
    assert_eq!(vec![2, 3], execution_levels[1]);
    assert_eq!(vec![6], execution_levels[2]);
}

#[test]
#[should_panic]
pub fn test_assert_no_duplicates_panic() {
    let param_usages =
        vec![vec![PurtelParamUsage::new("data1", READ), PurtelParamUsage::new("data1", WRITE)]];
    Executor::assert_no_duplicates(&param_usages).unwrap();
}

#[test]
fn duplicate_is_reported_with_task_and_name() {
    let param_usages =
        vec![vec![PurtelParamUsage::new("d1", READ), PurtelParamUsage::new("d1", WRITE)]];
    assert_eq!(
        Executor::assert_no_duplicates(&param_usages),
        Err(PurtelError::DuplicateIdentifier { task: 0, identifier: "d1".to_string() })
    );
}

fn plan_of(param_usages: Vec<Vec<PurtelParamUsage>>) -> Vec<Vec<usize>> {
    Executor::assert_no_duplicates(&param_usages).unwrap();
    let deps = Executor::calc_task_dependencies(&param_usages);
    Executor::calc_execution_levels(deps)
}

fn linear_then_fan_out() -> Vec<Vec<PurtelParamUsage>> {
    vec![
        vec![PurtelParamUsage::new("data1", READ)],
        vec![PurtelParamUsage::new("data1", WRITE), PurtelParamUsage::new("data2", WRITE)],
        vec![PurtelParamUsage::new("data1", READ)],
        vec![PurtelParamUsage::new("data2", READ)],
    ]
}

fn writer_between_readers() -> Vec<Vec<PurtelParamUsage>> {
    let mut param_usages = vec![
        vec![PurtelParamUsage::new("d1", READ)],
        vec![PurtelParamUsage::new("d1", WRITE), PurtelParamUsage::new("d2", WRITE)],
        vec![PurtelParamUsage::new("d1", READ)],
    ];
    for _ in 3..9 {
        param_usages.push(vec![PurtelParamUsage::new("d2", READ)]);
    }
    param_usages
}

#[test]
fn chain_of_writers_runs_one_by_one() {
    let mut param_usages = Vec::new();
    for _ in 0..4 {
        param_usages
            .push(vec![PurtelParamUsage::new("d1", WRITE), PurtelParamUsage::new("d2", WRITE)]);
    }
    let deps = Executor::calc_task_dependencies(&param_usages);
    assert_eq!(deps, vec![vec![], vec![0], vec![0, 1], vec![0, 1, 2]]);
    assert_eq!(Executor::calc_execution_levels(deps), vec![vec![0], vec![1], vec![2], vec![3]]);
}

#[test]
fn readers_after_a_writer_wait_for_it() {
    // a task waits for earlier tasks only: the readers of `d2` come after its
    // writer in the batch, so they run after it
    let param_usages = writer_between_readers();
    let deps = Executor::calc_task_dependencies(&param_usages);
    assert_eq!(deps[0], vec![]);
    assert_eq!(deps[1], vec![0]);
    assert_eq!(deps[2], vec![1]);
    for task in 3..9 {
        assert_eq!(deps[task], vec![1]);
    }
    assert_eq!(plan_of(writer_between_readers()), vec![vec![0], vec![1], vec![2, 3, 4, 5, 6, 7, 8]]);
}

#[test]
fn readers_before_a_writer_share_the_first_level() {
    // the writer of `d2` comes last, so every reader of `d2` may start at once
    let mut param_usages = vec![vec![PurtelParamUsage::new("d1", READ)]];
    for _ in 0..6 {
        param_usages.push(vec![PurtelParamUsage::new("d2", READ)]);
    }
    param_usages
        .push(vec![PurtelParamUsage::new("d1", WRITE), PurtelParamUsage::new("d2", WRITE)]);
    param_usages.push(vec![PurtelParamUsage::new("d1", READ)]);
    assert_eq!(plan_of(param_usages), vec![vec![0, 1, 2, 3, 4, 5, 6], vec![7], vec![8]]);
}

#[test]
fn sea_of_readers_is_one_level() {
    for n in 1..20usize {
        let mut param_usages = Vec::new();
        for _ in 0..n {
            param_usages.push(vec![PurtelParamUsage::new("d", READ)]);
        }
        let all: Vec<usize> = (0..n).collect();
        assert_eq!(plan_of(param_usages), vec![all]);
    }
}

#[test]
fn empty_batch_has_empty_plan() {
    let deps = Executor::calc_task_dependencies(&Vec::new());
    assert!(deps.is_empty());
    assert!(Executor::calc_execution_levels(deps).is_empty());
}

#[test]
fn single_task_is_one_level_of_one() {
    assert_eq!(plan_of(vec![vec![PurtelParamUsage::new("x", WRITE)]]), vec![vec![0]]);
}

#[test]
fn task_without_declarations_starts_at_once() {
    let param_usages = vec![
        vec![PurtelParamUsage::new("x", WRITE)],
        vec![PurtelParamUsage::new("x", WRITE)],
        vec![],
        vec![PurtelParamUsage::new("x", READ)],
    ];
    assert_eq!(plan_of(param_usages), vec![vec![0, 2], vec![1], vec![3]]);
}

#[test]
fn conflict_table_has_three_yes_and_one_no() {
    for (later, earlier, expected) in
        [(WRITE, WRITE, true), (WRITE, READ, true), (READ, WRITE, true), (READ, READ, false)]
    {
        assert_eq!(purtel::analyze::conflicting_kinds(later, earlier), expected);
        let param_usages =
            vec![vec![PurtelParamUsage::new("n", earlier)], vec![PurtelParamUsage::new("n", later)]];
        let deps = Executor::calc_task_dependencies(&param_usages);
        assert_eq!(deps[1].is_empty(), !expected);
    }
}

#[test]
fn names_are_compared_exactly() {
    let param_usages = vec![
        vec![PurtelParamUsage::new("data", WRITE)],
        vec![PurtelParamUsage::new("Data", WRITE)],
        vec![PurtelParamUsage::new(" data", WRITE)],
        vec![PurtelParamUsage::new("", WRITE)],
        vec![PurtelParamUsage::new("", READ)],
    ];
    let deps = Executor::calc_task_dependencies(&param_usages);
    assert_eq!(deps, vec![vec![], vec![], vec![], vec![], vec![3]]);
}

#[test]
fn predecessors_are_listed_once_and_in_order_of_discovery() {
    let param_usages = vec![
        vec![PurtelParamUsage::new("b", WRITE)],
        vec![PurtelParamUsage::new("a", WRITE), PurtelParamUsage::new("b", WRITE)],
        vec![PurtelParamUsage::new("a", WRITE), PurtelParamUsage::new("b", WRITE)],
    ];
    let deps = Executor::calc_task_dependencies(&param_usages);
    assert_eq!(deps, vec![vec![], vec![0], vec![1, 0]]);
}

#[test]
fn every_task_has_exactly_one_place() {
    for param_usages in [linear_then_fan_out(), writer_between_readers()] {
        let n = param_usages.len();
        let plan = plan_of(param_usages);
        let mut seen = vec![0usize; n];
        for level in &plan {
            assert!(!level.is_empty());
            for &task in level {
                seen[task] += 1;
            }
            for pair in level.windows(2) {
                assert!(pair[0] < pair[1]);
            }
        }
        assert_eq!(seen, vec![1usize; n]);
        assert!(plan.len() <= n);
    }
}

#[test]
fn predecessors_come_in_earlier_levels() {
    for param_usages in [linear_then_fan_out(), writer_between_readers()] {
        let deps = Executor::calc_task_dependencies(&param_usages);
        let plan = Executor::calc_execution_levels(deps.clone());
        let level_of = |task: usize| plan.iter().position(|level| level.contains(&task)).unwrap();
        for (task, waits) in deps.iter().enumerate() {
            for &earlier in waits {
                assert!(earlier < task);
                assert!(level_of(earlier) < level_of(task));
            }
        }
        for level in &plan {
            for &a in level {
                for &b in level {
                    assert!(!deps[a].contains(&b));
                }
            }
        }
    }
}

#[test]
fn levels_are_as_many_as_the_longest_chain() {
    // 0 <- 1 <- 2 <- 5 is the longest chain; 3 and 4 hang on 0
    let deps = vec![vec![], vec![0], vec![1], vec![0], vec![0], vec![2, 4]];
    let plan = Executor::calc_execution_levels(deps);
    assert_eq!(plan, vec![vec![0], vec![1, 3, 4], vec![2], vec![5]]);
}

#[test]
fn order_of_listed_predecessors_does_not_matter() {
    let one = vec![vec![], vec![], vec![0, 1], vec![2, 0], vec![3, 1, 0]];
    let other = vec![vec![], vec![], vec![1, 0], vec![0, 2], vec![0, 1, 3]];
    assert_eq!(Executor::calc_execution_levels(one), Executor::calc_execution_levels(other));
}

#[test]
fn readiness_is_judged_by_the_finished_levels() {
    let deps = vec![vec![], vec![0], vec![0, 1]];
    let none: Vec<Vec<usize>> = vec![];
    assert!(Executor::all_deps_already_assigned(0, &none, &deps));
    assert!(!Executor::all_deps_already_assigned(1, &none, &deps));
    let first = vec![vec![0]];
    assert!(Executor::all_deps_already_assigned(1, &first, &deps));
    assert!(!Executor::all_deps_already_assigned(2, &first, &deps));
    let two = vec![vec![0], vec![1]];
    assert!(Executor::all_deps_already_assigned(2, &two, &deps));
}

#[test]
fn first_duplicate_is_the_one_reported() {
    let param_usages = vec![
        vec![PurtelParamUsage::new("a", READ), PurtelParamUsage::new("b", READ)],
        vec![
            PurtelParamUsage::new("x", READ),
            PurtelParamUsage::new("y", WRITE),
            PurtelParamUsage::new("z", READ),
            PurtelParamUsage::new("z", READ),
            PurtelParamUsage::new("y", READ),
        ],
        vec![PurtelParamUsage::new("q", WRITE), PurtelParamUsage::new("q", WRITE)],
    ];
    assert_eq!(
        Executor::assert_no_duplicates(&param_usages),
        Err(PurtelError::DuplicateIdentifier { task: 1, identifier: "y".to_string() })
    );
    assert_eq!(Executor::assert_no_duplicates(&linear_then_fan_out()), Ok(()));
    assert_eq!(Executor::assert_no_duplicates(&Vec::new()), Ok(()));
}

#[test]
fn usage_keeps_what_it_was_made_of() {
    let usage = PurtelParamUsage::new("data1", WRITE);
    assert_eq!(usage.identifier(), "data1");
    assert_eq!(usage.kind(), WRITE);
    assert!(usage.same_identifier(&PurtelParamUsage::new("data1", READ)));
    assert!(!usage.same_identifier(&PurtelParamUsage::new("data2", WRITE)));
    assert_eq!(usage.identifier_owned(), "data1".to_string());
}

#[test]
fn rounds_give_the_levels_of_a_well_formed_table() {
    let deps = vec![vec![], vec![], vec![0], vec![1], vec![], vec![], vec![2, 0, 3, 1, 4, 5]];
    assert_eq!(
        Executor::build_plan(deps.clone()),
        Ok(vec![vec![0, 1, 4, 5], vec![2, 3], vec![6]])
    );
    assert_eq!(Executor::build_plan(deps.clone()), Ok(Executor::calc_execution_levels(deps)));
    assert_eq!(Executor::build_plan(Vec::new()), Ok(Vec::new()));
}

#[test]
fn tasks_that_wait_for_later_ones_are_placed_after_them() {
    assert_eq!(Executor::build_plan(vec![vec![1], vec![]]), Ok(vec![vec![1], vec![0]]));
    assert_eq!(
        Executor::build_plan(vec![vec![2], vec![0], vec![]]),
        Ok(vec![vec![2], vec![0], vec![1]])
    );
}

#[test]
fn circle_of_waiting_tasks_is_a_deadlock() {
    assert_eq!(
        Executor::build_plan(vec![vec![1], vec![0]]),
        Err(PurtelError::WavePlanningDeadlock)
    );
    assert_eq!(Executor::build_plan(vec![vec![0]]), Err(PurtelError::WavePlanningDeadlock));
    // the first task can run, the two others wait for each other
    assert_eq!(
        Executor::build_plan(vec![vec![], vec![0, 2], vec![1]]),
        Err(PurtelError::WavePlanningDeadlock)
    );
}

#[test]
fn waiting_for_a_task_outside_the_batch_is_a_deadlock() {
    assert_eq!(
        Executor::build_plan(vec![vec![], vec![5]]),
        Err(PurtelError::WavePlanningDeadlock)
    );
}
