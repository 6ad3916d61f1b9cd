use orderbook_aggregator::configuration::BackoffConfig;
use orderbook_aggregator::supervisor::{backoff_step, ended_cleanly, single_shot_step, TaskAction, TaskEnd, TaskEvent};

#[test]
fn backoff_exhaustion() {
    let config = BackoffConfig { retries: 2, min: 10, max: 40 };
    for failures in 0..2 {
        match backoff_step(&config, failures, TaskEvent::Failed) {
            TaskAction::RetryAfter(delay) => assert!((10..=40).contains(&delay), "delay {delay}"),
            other => panic!("expected a retry, got {other:?}"),
        }
    }
    assert_eq!(TaskAction::Shutdown(TaskEnd::RetriesExhausted), backoff_step(&config, 2, TaskEvent::Failed));
}

#[test]
fn backoff_with_no_retries_gives_up_at_once() {
    let config = BackoffConfig { retries: 0, min: 10, max: 40 };
    assert_eq!(TaskAction::Shutdown(TaskEnd::RetriesExhausted), backoff_step(&config, 0, TaskEvent::Failed));
}

#[test]
fn first_delay_is_at_least_min() {
    let config = BackoffConfig { retries: 3, min: 250, max: 250 };
    assert_eq!(TaskAction::RetryAfter(250), backoff_step(&config, 0, TaskEvent::Failed));
}

#[test]
fn completion_and_cancellation_end_the_task() {
    let config = BackoffConfig { retries: 2, min: 10, max: 40 };
    assert_eq!(TaskAction::Shutdown(TaskEnd::Completed), backoff_step(&config, 0, TaskEvent::Completed));
    assert_eq!(TaskAction::Shutdown(TaskEnd::Cancelled), backoff_step(&config, 1, TaskEvent::Cancelled));
    assert_eq!(TaskEnd::Completed, single_shot_step(TaskEvent::Completed));
    assert_eq!(TaskEnd::Failed, single_shot_step(TaskEvent::Failed));
    assert_eq!(TaskEnd::Cancelled, single_shot_step(TaskEvent::Cancelled));
}

#[test]
fn exit_status_reflects_task_ends() {
    assert!(ended_cleanly(&[]));
    assert!(ended_cleanly(&[TaskEnd::Completed, TaskEnd::Cancelled]));
    assert!(!ended_cleanly(&[TaskEnd::Cancelled, TaskEnd::RetriesExhausted]));
    assert!(!ended_cleanly(&[TaskEnd::Failed]));
}
