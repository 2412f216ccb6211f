//! Scenario tests for the runtime's stated guarantees: command round
//! trips, idempotent done, same-frame wakes, dynamic spawn and faults.

use frame_runtime::runtime::Runtime;
use frame_runtime::runtime::RuntimeIsDone;
use frame_runtime::task::Job;
use frame_runtime::wait_next_frame_future::next_frame;
use frame_runtime::world::TallyCommand;
use frame_runtime::world::TallyWorld;

#[test]
fn add_then_sub_leaves_world_unchanged() {
    let mut runtime = Runtime::new(TallyWorld { total: 100 });
    runtime.activate_phase(1, 0);
    // Add(7) then Sub(7), submitted within the same phase.
    runtime.spawn(
        1,
        Job::Emit {
            command: TallyCommand::Add(7),
            then: Box::new(Job::Emit { command: TallyCommand::Sub(7), then: Box::new(Job::Finish) }),
        },
    );

    assert!(matches!(runtime.update(), RuntimeIsDone::Done));
    assert_eq!(runtime.world().total, 100);
}

#[test]
fn done_is_idempotent() {
    let mut runtime = Runtime::new(TallyWorld { total: 3 });
    runtime.activate_phase(1, 0);
    runtime.spawn(
        1,
        Job::Await {
            gate: next_frame(),
            then: Box::new(Job::Emit { command: TallyCommand::Add(1), then: Box::new(Job::Finish) }),
        },
    );

    loop {
        match runtime.update() {
            RuntimeIsDone::Done => break,
            RuntimeIsDone::NotDone => (),
        }
    }
    let frames = runtime.frame_counter();
    let total = runtime.world().total;

    // Further frames report done again and change nothing.
    assert!(matches!(runtime.update(), RuntimeIsDone::Done));
    assert!(matches!(runtime.update(), RuntimeIsDone::Done));
    assert_eq!(runtime.frame_counter(), frames);
    assert_eq!(runtime.world().total, total);
}

#[test]
fn same_frame_wake_costs_no_frame() {
    let mut runtime = Runtime::new(TallyWorld { total: 0 });
    runtime.activate_phase(1, 0);
    // The task suspends once with a wake raised: it is re-run within the
    // same frame, so the whole computation costs zero frames.
    runtime.spawn(
        1,
        Job::Yield {
            then: Box::new(Job::Emit { command: TallyCommand::Add(1), then: Box::new(Job::Finish) }),
        },
    );

    assert!(matches!(runtime.update(), RuntimeIsDone::Done));
    assert_eq!(runtime.frame_counter(), 0);
    assert_eq!(runtime.world().total, 1);
}

#[test]
fn same_frame_wake_consumes_a_siblings_gate() {
    let mut runtime = Runtime::new(TallyWorld { total: 0 });
    runtime.activate_phase(1, 0);
    // The joined task is re-polled within the frame because its sibling
    // raised a wake; the re-poll finds the one-shot gate already probed, so
    // the await completes without costing a frame.
    runtime.spawn(
        1,
        Job::Join {
            left: Box::new(Job::Yield { then: Box::new(Job::Finish) }),
            right: Box::new(Job::Await { gate: next_frame(), then: Box::new(Job::Finish) }),
        },
    );

    assert!(matches!(runtime.update(), RuntimeIsDone::Done));
    assert_eq!(runtime.frame_counter(), 0);
}

#[test]
fn dynamic_spawn_runs_next_frame() {
    let mut runtime = Runtime::new(TallyWorld { total: 0 });
    runtime.activate_phase(1, 0);
    runtime.spawn(
        1,
        Job::Spawn {
            phase: 1,
            child: Box::new(
                Job::Emit { command: TallyCommand::Add(1), then: Box::new(Job::Finish) },
            ),
            then: Box::new(Job::Finish),
        },
    );

    // The spawner completes in frame zero, but the spawned task runs no
    // earlier than the next frame.
    assert!(matches!(runtime.update(), RuntimeIsDone::NotDone));
    assert_eq!(runtime.world().total, 0);
    assert!(matches!(runtime.update(), RuntimeIsDone::Done));
    assert_eq!(runtime.world().total, 1);
    assert_eq!(runtime.frame_counter(), 1);
}

#[test]
fn spawn_into_inactive_phase_never_runs() {
    let mut runtime = Runtime::new(TallyWorld { total: 0 });
    runtime.activate_phase(1, 0);
    // A task in the active phase spawns a faulting task into a phase that
    // is never activated: the runtime still reaches done, silently.
    runtime.spawn(
        1,
        Job::Spawn { phase: 2, child: Box::new(Job::Fault), then: Box::new(Job::Finish) },
    );

    assert!(matches!(runtime.update(), RuntimeIsDone::Done));
    assert!(!runtime.has_fault());
    assert_eq!(runtime.frame_counter(), 0);
}

#[test]
fn failed_expectation_records_fault() {
    let mut runtime = Runtime::new(TallyWorld { total: 0 });
    runtime.activate_phase(1, 0);
    runtime.spawn(1, Job::Expect { expected: 5, then: Box::new(Job::Finish) });

    assert!(matches!(runtime.update(), RuntimeIsDone::Done));
    assert!(runtime.has_fault());
}

#[test]
fn join_waits_for_the_longer_task() {
    let mut runtime = Runtime::new(TallyWorld { total: 0 });
    runtime.activate_phase(1, 0);
    let mut short = Job::Finish;
    let mut i = 0u64;
    while i < 3 {
        short = Job::Await { gate: next_frame(), then: Box::new(short) };
        i += 1;
    }
    let mut long = Job::Finish;
    let mut j = 0u64;
    while j < 10 {
        long = Job::Await { gate: next_frame(), then: Box::new(long) };
        j += 1;
    }
    runtime.spawn(1, Job::Join { left: Box::new(short), right: Box::new(long) });

    loop {
        match runtime.update() {
            RuntimeIsDone::Done => break,
            RuntimeIsDone::NotDone => (),
        }
    }
    assert_eq!(runtime.frame_counter(), 10);
}

#[test]
fn subtraction_wraps_around_zero() {
    let mut runtime = Runtime::new(TallyWorld { total: 0 });
    runtime.activate_phase(1, 0);
    runtime.spawn(
        1,
        Job::Emit { command: TallyCommand::Sub(1), then: Box::new(Job::Finish) },
    );

    assert!(matches!(runtime.update(), RuntimeIsDone::Done));
    assert_eq!(runtime.world().total, u64::MAX);
}

#[test]
fn same_phase_key_may_take_two_orders() {
    let mut runtime = Runtime::new(TallyWorld { total: 0 });
    runtime.activate_phase(1, 0);
    runtime.activate_phase(1, 5);
    runtime.spawn(1, Job::Emit { command: TallyCommand::Add(2), then: Box::new(Job::Finish) });

    assert!(matches!(runtime.update(), RuntimeIsDone::Done));
    assert_eq!(runtime.world().total, 2);
}

#[test]
fn registered_at_names_the_prior_key() {
    let mut runtime = Runtime::new(TallyWorld { total: 0 });
    assert_eq!(runtime.registered_at(0), None);
    runtime.activate_phase(7, 0);
    assert_eq!(runtime.registered_at(0), Some(7));
    assert_eq!(runtime.registered_at(3), None);
}
