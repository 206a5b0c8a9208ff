//! The executor's bookkeeping, driven without worker threads.

use purtel::PurtelParamUsageKind::{READ, WRITE};
use purtel::{PurtelError, PurtelExecutor, PurtelParamUsage, PurtelTask, PurtelTaskState};
use std::sync::{Arc, Mutex};

type Action = Box<dyn FnOnce() + Send>;

/// `n` tasks, each of which writes its id to `log` when run.
fn logging_tasks(n: usize, log: &Arc<Mutex<Vec<usize>>>) -> Vec<PurtelTask<Action>> {
    let mut tasks = Vec::new();
    for id in 0..n {
        let log = log.clone();
        let action: Action = Box::new(move || log.lock().unwrap().push(id));
        tasks.push(PurtelTask::new(action));
    }
    tasks
}

fn linear_then_fan_out() -> Vec<Vec<PurtelParamUsage>> {
    vec![
        vec![PurtelParamUsage::new("data1", READ)],
        vec![PurtelParamUsage::new("data1", WRITE), PurtelParamUsage::new("data2", WRITE)],
        vec![PurtelParamUsage::new("data1", READ)],
        vec![PurtelParamUsage::new("data2", READ)],
    ]
}

#[test]
fn task_gives_its_action_once() {
    let log = Arc::new(Mutex::new(Vec::new()));
    let mut task = logging_tasks(1, &log).pop().unwrap();
    assert_eq!(task.state(), PurtelTaskState::WAITING);
    let action = task.take_task().ok().unwrap();
    assert_eq!(task.state(), PurtelTaskState::DISPATCHED);
    action();
    assert_eq!(*log.lock().unwrap(), vec![0]);
    assert!(matches!(task.take_task(), Err(PurtelError::AlreadyDispatched)));
    assert_eq!(task.state(), PurtelTaskState::DISPATCHED);
}

#[test]
fn construction_wants_a_declaration_for_every_task() {
    let log = Arc::new(Mutex::new(Vec::new()));
    let made = PurtelExecutor::new(logging_tasks(3, &log), linear_then_fan_out());
    assert!(matches!(made, Err(PurtelError::SizeMismatch { tasks: 3, declarations: 4 })));
    let made = PurtelExecutor::new(logging_tasks(4, &log), linear_then_fan_out());
    assert!(made.is_ok());
}

#[test]
fn nothing_is_handed_out_before_planning() {
    let log = Arc::new(Mutex::new(Vec::new()));
    let mut executor = PurtelExecutor::new(logging_tasks(4, &log), linear_then_fan_out()).ok().unwrap();
    assert!(executor.has_declarations());
    assert!(!executor.is_planned());
    assert!(executor.execution_levels().is_none());
    assert!(matches!(executor.dispatch_level(), Err(PurtelError::PlanNotBuilt)));
}

#[test]
fn planning_rejects_a_name_declared_twice() {
    let log = Arc::new(Mutex::new(Vec::new()));
    let declarations =
        vec![vec![PurtelParamUsage::new("d1", READ), PurtelParamUsage::new("d1", WRITE)]];
    let mut executor = PurtelExecutor::new(logging_tasks(1, &log), declarations).ok().unwrap();
    assert_eq!(
        executor.calc_and_verify_exe_order(),
        Err(PurtelError::DuplicateIdentifier { task: 0, identifier: "d1".to_string() })
    );
    assert!(!executor.is_planned());
    assert!(!executor.has_declarations());
    assert!(matches!(executor.dispatch_level(), Err(PurtelError::PlanNotBuilt)));
}

#[test]
fn levels_are_handed_out_in_order() {
    let log = Arc::new(Mutex::new(Vec::new()));
    let mut executor = PurtelExecutor::new(logging_tasks(4, &log), linear_then_fan_out()).ok().unwrap();
    assert_eq!(executor.calc_and_verify_exe_order(), Ok(()));
    assert!(executor.is_planned());
    assert!(!executor.has_declarations());
    assert_eq!(executor.execution_levels(), Some(&vec![vec![0], vec![1], vec![2, 3]]));

    let mut sizes = Vec::new();
    loop {
        assert!(!executor.is_joining());
        match executor.dispatch_level() {
            Ok(Some(actions)) => {
                assert!(executor.is_joining());
                sizes.push(actions.len());
                let mut outcomes = Vec::new();
                for action in actions {
                    action();
                    outcomes.push(true);
                }
                assert_eq!(executor.join_level(&outcomes), Ok(()));
            }
            Ok(None) => break,
            Err(error) => panic!("run failed: {:?}", error),
        }
    }
    assert_eq!(sizes, vec![1, 1, 2]);
    assert_eq!(*log.lock().unwrap(), vec![0, 1, 2, 3]);
    assert!(matches!(executor.dispatch_level(), Ok(None)));
}

#[test]
fn failed_worker_stops_the_run_after_its_level() {
    let log = Arc::new(Mutex::new(Vec::new()));
    // level 0 holds the tasks 0, 1 and 2; task 3 waits for all of them
    let declarations = vec![
        vec![PurtelParamUsage::new("a", READ)],
        vec![PurtelParamUsage::new("a", READ)],
        vec![PurtelParamUsage::new("a", READ)],
        vec![PurtelParamUsage::new("a", WRITE)],
    ];
    let mut executor = PurtelExecutor::new(logging_tasks(4, &log), declarations).ok().unwrap();
    assert_eq!(executor.calc_and_verify_exe_order(), Ok(()));
    assert_eq!(executor.execution_levels(), Some(&vec![vec![0, 1, 2], vec![3]]));

    let actions = executor.dispatch_level().ok().unwrap().unwrap();
    assert_eq!(actions.len(), 3);
    // the worker of task 1 ends abnormally; the two others are run and joined
    let mut outcomes = Vec::new();
    for (position, action) in actions.into_iter().enumerate() {
        if position == 1 {
            outcomes.push(false);
        } else {
            action();
            outcomes.push(true);
        }
    }
    assert_eq!(executor.join_level(&outcomes), Err(PurtelError::TaskFailed { wave: 0, task: 1 }));
    assert!(!executor.is_joining());
    assert_eq!(*log.lock().unwrap(), vec![0, 2]);
    // no task of the next level is started, now or later
    assert!(matches!(executor.dispatch_level(), Err(PurtelError::TaskFailed { wave: 0, task: 1 })));
    assert!(matches!(executor.dispatch_level(), Err(PurtelError::TaskFailed { wave: 0, task: 1 })));
    assert_eq!(*log.lock().unwrap(), vec![0, 2]);
}

#[test]
fn first_failed_worker_of_a_later_level_is_named() {
    let log = Arc::new(Mutex::new(Vec::new()));
    let mut executor = PurtelExecutor::new(logging_tasks(4, &log), linear_then_fan_out()).ok().unwrap();
    assert_eq!(executor.calc_and_verify_exe_order(), Ok(()));
    for _ in 0..2 {
        let actions = executor.dispatch_level().ok().unwrap().unwrap();
        assert_eq!(executor.join_level(&vec![true; actions.len()]), Ok(()));
    }
    let actions = executor.dispatch_level().ok().unwrap().unwrap();
    assert_eq!(actions.len(), 2);
    assert_eq!(
        executor.join_level(&vec![false, false]),
        Err(PurtelError::TaskFailed { wave: 2, task: 2 })
    );
}

#[test]
fn task_taken_beforehand_blocks_its_level() {
    let log = Arc::new(Mutex::new(Vec::new()));
    let mut tasks = logging_tasks(4, &log);
    assert!(tasks[1].take_task().is_ok());
    let mut executor = PurtelExecutor::new(tasks, linear_then_fan_out()).ok().unwrap();
    assert_eq!(executor.calc_and_verify_exe_order(), Ok(()));
    let actions = executor.dispatch_level().ok().unwrap().unwrap();
    assert_eq!(executor.join_level(&vec![true; actions.len()]), Ok(()));
    assert!(matches!(executor.dispatch_level(), Err(PurtelError::AlreadyDispatched)));
    assert!(!executor.is_joining());
}

#[test]
fn empty_batch_is_done_at_once() {
    let tasks: Vec<PurtelTask<Action>> = Vec::new();
    let mut executor = PurtelExecutor::new(tasks, Vec::new()).ok().unwrap();
    assert_eq!(executor.calc_and_verify_exe_order(), Ok(()));
    assert_eq!(executor.execution_levels(), Some(&Vec::new()));
    assert!(matches!(executor.dispatch_level(), Ok(None)));
}
