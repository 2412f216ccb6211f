//! Unit tests of the yield gate, the wake flag, the instrumented poll and
//! the world slot.

use frame_runtime::container::Container;
use frame_runtime::queue::merge_wait_tasks;
use frame_runtime::queue::process_tasks;
use frame_runtime::queue::split_tasks;
use frame_runtime::task::Job;
use frame_runtime::task::PolledJob;
use frame_runtime::task::StepEffects;
use frame_runtime::task::WakeFlag;
use frame_runtime::task::poll_job;
use frame_runtime::wait_next_frame_future::Poll;
use frame_runtime::wait_next_frame_future::next_frame;

#[test]
fn gate_pends_once_then_is_ready() {
    let mut gate = next_frame();
    assert_eq!(gate.probe(), Poll::Pending);
    assert_eq!(gate.probe(), Poll::Ready);
    assert_eq!(gate.probe(), Poll::Ready);
}

#[test]
fn wake_flag_starts_unraised() {
    let mut flag = WakeFlag::new();
    assert!(!flag.is_waked());
    flag.wake();
    assert!(flag.is_waked());
}

#[test]
fn awaiting_task_suspends_without_wake() {
    let job: Job<u64> = Job::Await { gate: next_frame(), then: Box::new(Job::Finish) };
    let mut flag = WakeFlag::new();
    let mut fx: StepEffects<u64> = StepEffects::new();
    let polled = poll_job(job, 0, &mut flag, &mut fx);
    assert!(matches!(polled, PolledJob::Pending(_)));
    assert!(!flag.is_waked());
}

#[test]
fn yielding_task_suspends_with_wake() {
    let job: Job<u64> = Job::Yield { then: Box::new(Job::Finish) };
    let mut flag = WakeFlag::new();
    let mut fx: StepEffects<u64> = StepEffects::new();
    let polled = poll_job(job, 0, &mut flag, &mut fx);
    assert!(matches!(polled, PolledJob::Pending(_)));
    assert!(flag.is_waked());
}

#[test]
fn emitting_task_completes_in_one_poll() {
    let job: Job<u64> = Job::Emit { command: 9, then: Box::new(Job::Finish) };
    let mut flag = WakeFlag::new();
    let mut fx: StepEffects<u64> = StepEffects::new();
    let polled = poll_job(job, 0, &mut flag, &mut fx);
    assert!(matches!(polled, PolledJob::Ready));
    assert_eq!(fx.commands.len(), 1);
    assert_eq!(fx.commands[0], 9);
    assert!(!fx.faulted);
}

#[test]
fn drain_keeps_only_awaiting_tasks() {
    let tasks: Vec<Job<u64>> = vec![
        Job::Finish,
        Job::Await { gate: next_frame(), then: Box::new(Job::Finish) },
        Job::Emit { command: 4, then: Box::new(Job::Finish) },
    ];
    let mut fx: StepEffects<u64> = StepEffects::new();
    let wait_tasks = process_tasks(tasks, 0, &mut fx);
    assert_eq!(wait_tasks.len(), 1);
    assert_eq!(fx.commands.len(), 1);
}

#[test]
fn shards_split_evenly_and_rejoin() {
    let tasks: Vec<Job<u64>> = vec![
        Job::Emit { command: 1, then: Box::new(Job::Finish) },
        Job::Emit { command: 2, then: Box::new(Job::Finish) },
        Job::Emit { command: 3, then: Box::new(Job::Finish) },
        Job::Emit { command: 4, then: Box::new(Job::Finish) },
        Job::Emit { command: 5, then: Box::new(Job::Finish) },
    ];
    let (first, second) = split_tasks(tasks);
    assert_eq!(first.len(), 2);
    assert_eq!(second.len(), 3);

    // Draining the rejoined shards submits every command, in shard order.
    let mut fx: StepEffects<u64> = StepEffects::new();
    let merged = merge_wait_tasks(first, second);
    assert_eq!(merged.len(), 5);
    let wait_tasks = process_tasks(merged, 0, &mut fx);
    assert_eq!(wait_tasks.len(), 0);
    assert_eq!(fx.commands, vec![5, 4, 3, 2, 1]);
}

#[test]
fn container_holds_and_replaces() {
    let mut slot = Container::new(11u64);
    assert_eq!(*slot.read(), 11);
    let prev = slot.write(25);
    assert_eq!(prev, 11);
    assert_eq!(slot.into_inner(), 25);
}
