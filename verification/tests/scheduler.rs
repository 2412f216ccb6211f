//! End-to-end tests of the runtime: frame accounting, phase ordering,
//! inactive phases and duplicate activation orders.

use frame_runtime::runtime::Runtime;
use frame_runtime::runtime::RuntimeIsDone;
use frame_runtime::task::Job;
use frame_runtime::wait_next_frame_future::next_frame;
use frame_runtime::world::TallyCommand;
use frame_runtime::world::TallyWorld;

/// A task that awaits the next frame `n` times, then completes.
fn frame_loop(n: u64) -> Job<TallyCommand> {
    let mut job = Job::Finish;
    let mut i: u64 = 0;
    while i < n {
        job = Job::Await { gate: next_frame(), then: Box::new(job) };
        i += 1;
    }
    job
}

/// Drive the runtime until it reports done.
fn run_to_done(runtime: &mut Runtime<TallyWorld>) {
    loop {
        match runtime.update() {
            RuntimeIsDone::Done => break,
            RuntimeIsDone::NotDone => (),
        }
    }
}

#[test]
fn runtime_ten_frame_single_task() {
    let mut runtime = Runtime::new(TallyWorld { total: 0 });
    runtime.activate_phase(1, 0);
    runtime.spawn(1, frame_loop(10));

    assert_eq!(runtime.frame_counter(), 0);

    run_to_done(&mut runtime);

    assert_eq!(runtime.frame_counter(), 10);
}

#[test]
fn runtime_ten_frame_concurrent_multi_task() {
    let mut runtime = Runtime::new(TallyWorld { total: 0 });
    runtime.activate_phase(1, 0);
    runtime.spawn(
        1,
        Job::Join { left: Box::new(frame_loop(10)), right: Box::new(frame_loop(10)) },
    );

    assert_eq!(runtime.frame_counter(), 0);

    run_to_done(&mut runtime);

    assert_eq!(runtime.frame_counter(), 10);
}

#[test]
fn runtime_await_0_frame_task_should_cost_0_frame() {
    let mut runtime = Runtime::new(TallyWorld { total: 0 });
    runtime.activate_phase(1, 0);
    // Two immediately-ready steps, no next-frame await.
    runtime.spawn(
        1,
        Job::Emit {
            command: TallyCommand::Add(21),
            then: Box::new(Job::Emit { command: TallyCommand::Add(21), then: Box::new(Job::Finish) }),
        },
    );

    assert_eq!(runtime.frame_counter(), 0);

    run_to_done(&mut runtime);

    assert_eq!(runtime.frame_counter(), 0);
    assert_eq!(runtime.world().total, 42);
}

#[test]
fn not_activated_task_should_not_call() {
    let mut runtime = Runtime::new(TallyWorld { total: 0 });
    runtime.activate_phase(1, 0);

    // An unconditional fatal assertion, spawned into a phase that is never
    // activated: it must never run.
    runtime.spawn(2, Job::Fault);

    run_to_done(&mut runtime);

    assert!(!runtime.has_fault());
}

#[test]
fn call_task_in_the_order_of_phase() {
    let mut runtime = Runtime::new(TallyWorld { total: 0 });
    runtime.activate_phase(1, 0);
    runtime.activate_phase(2, 1);

    // The spawned task checks that the earlier phase's command is already visible.
    runtime.spawn(2, Job::Expect { expected: 1, then: Box::new(Job::Finish) });

    runtime.spawn(
        1,
        Job::Emit { command: TallyCommand::Add(1), then: Box::new(Job::Finish) },
    );

    run_to_done(&mut runtime);

    assert!(!runtime.has_fault());
}

/// Activate a phase as an embedder does: a duplicate order is a fatal,
/// unrecoverable misuse, aborted with a diagnostic naming the key that was
/// registered there first.
fn activate_or_abort(runtime: &mut Runtime<TallyWorld>, key: u64, order: u16) {
    if let Some(existing) = runtime.registered_at(order) {
        panic!("Another PHASE has already been registered in this order: {:?}", existing);
    }
    runtime.activate_phase(key, order);
}

#[test]
#[should_panic(expected = "Another PHASE has already been registered in this order: 1")]
fn phase_order_num_should_different_from_other_phases() {
    let mut runtime = Runtime::new(TallyWorld { total: 0 });
    activate_or_abort(&mut runtime, 1, 0);

    // this line should panic
    activate_or_abort(&mut runtime, 2, 0);
}
