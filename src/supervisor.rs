use vstd::prelude::*;

use crate::configuration::BackoffConfig;

verus! {

/// How one run of a supervised task ended.
#[derive(Debug, Clone, Copy, PartialEq, Eq, Structural)]
pub enum TaskEvent {
    /// The task returned successfully.
    Completed,
    /// The task returned a recoverable failure.
    Failed,
    /// The shared cancellation signal fired while the task ran.
    Cancelled,
}

/// How a supervised task is over.
#[derive(Debug, Clone, Copy, PartialEq, Eq, Structural)]
pub enum TaskEnd {
    Completed,
    Cancelled,
    /// A single-shot task failed.
    Failed,
    /// A task with backoff failed once more than its retries allow.
    RetriesExhausted,
}

/// What the supervisor does after one run of a task.
#[derive(Debug, Clone, Copy, PartialEq, Eq, Structural)]
pub enum TaskAction {
    /// Wait this many milliseconds, then run the task again.
    RetryAfter(u64),
    /// The task is over: raise the shared cancellation so that its peers
    /// drain, and report how it ended.
    Shutdown(TaskEnd),
}

/// Relies on `exponential_backoff::Backoff::new` and `Backoff::next`: `new`
/// panics on a retry count of zero; `next(attempt)` gives a delay for every
/// attempt below the retry count, and clamps each delay first to at most
/// `max` and then to at least `min`. Attempts up to the retry count do not
/// overflow its attempt counter.
#[verifier::external_body]
fn backoff_delay(retries: u32, min: u64, max: u64, attempt: u32) -> (r: Option<u64>)
    requires
        retries >= 1,
        attempt <= retries,
    ensures
        attempt < retries ==> r.is_some(),
        r.is_some() ==> min <= r.unwrap(),
        r.is_some() && min <= max ==> r.unwrap() <= max,
{
    let backoff = exponential_backoff::Backoff::new(
        retries,
        std::time::Duration::from_millis(min),
        Some(std::time::Duration::from_millis(max)),
    );
    match backoff.next(attempt) {
        Some(delay) => Some(delay.as_millis() as u64),
        None => None,
    }
}

/// Decision of the supervisor for a task with backoff that has failed
/// `failures` times in a row before this run ended with `event`.
pub fn backoff_step(config: &BackoffConfig, failures: u32, event: TaskEvent) -> (r: TaskAction)
    ensures
        event == TaskEvent::Completed ==> r == TaskAction::Shutdown(TaskEnd::Completed),
        event == TaskEvent::Cancelled ==> r == TaskAction::Shutdown(TaskEnd::Cancelled),
        event == TaskEvent::Failed && failures >= config.retries ==> r == TaskAction::Shutdown(
            TaskEnd::RetriesExhausted,
        ),
        event == TaskEvent::Failed && failures < config.retries ==> (match r {
            TaskAction::RetryAfter(delay) => config.min <= delay && (config.min <= config.max
                ==> delay <= config.max),
            TaskAction::Shutdown(_) => false,
        }),
{
    match event {
        TaskEvent::Completed => TaskAction::Shutdown(TaskEnd::Completed),
        TaskEvent::Cancelled => TaskAction::Shutdown(TaskEnd::Cancelled),
        TaskEvent::Failed => {
            if failures >= config.retries {
                TaskAction::Shutdown(TaskEnd::RetriesExhausted)
            } else {
                match backoff_delay(config.retries, config.min, config.max, failures) {
                    Some(delay) => TaskAction::RetryAfter(delay),
                    None => TaskAction::Shutdown(TaskEnd::RetriesExhausted),
                }
            }
        },
    }
}

/// Decision of the supervisor for a single-shot task: whatever way it ends,
/// it is over and its peers are cancelled.
pub fn single_shot_step(event: TaskEvent) -> (r: TaskEnd)
    ensures
        r == match event {
            TaskEvent::Completed => TaskEnd::Completed,
            TaskEvent::Failed => TaskEnd::Failed,
            TaskEvent::Cancelled => TaskEnd::Cancelled,
        },
{
    match event {
        TaskEvent::Completed => TaskEnd::Completed,
        TaskEvent::Failed => TaskEnd::Failed,
        TaskEvent::Cancelled => TaskEnd::Cancelled,
    }
}

/// A task that ended in success or cancellation ended cleanly.
pub open spec fn clean(end: TaskEnd) -> bool {
    end == TaskEnd::Completed || end == TaskEnd::Cancelled
}

/// Whether the process exits successfully: every task ended cleanly.
pub fn ended_cleanly(ends: &[TaskEnd]) -> (r: bool)
    ensures
        r == forall|i: int| 0 <= i < ends@.len() ==> clean(#[trigger] ends@[i]),
{
    let mut i: usize = 0;
    while i < ends.len()
        invariant
            i <= ends@.len(),
            forall|t: int| 0 <= t < i ==> clean(#[trigger] ends@[t]),
        decreases ends@.len() - i,
    {
        let end = ends[i];
        if end != TaskEnd::Completed && end != TaskEnd::Cancelled {
            return false;
        }
        i = i + 1;
    }
    true
}

} // verus!
