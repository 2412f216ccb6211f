//! Tasks and the wake-instrumented poll.
//!
//! A task is an explicit suspendable state machine: a [`Job`] value that the
//! runtime drives one ready step at a time. Polling a job either completes
//! it, or suspends it; a suspension is accompanied by a wake signal exactly
//! when the job is still runnable within the same frame. The wake signal is
//! carried by a [`WakeFlag`] created fresh for every poll.

use vstd::prelude::*;

use crate::wait_next_frame_future::Poll;
use crate::wait_next_frame_future::WaitNextFrame;

verus! {

broadcast use WaitNextFrame::lemma_spent_is_polled;

/// The per-poll wake signal. A fresh flag is handed to every poll; a task
/// that raises it while suspending announces that it is still runnable in
/// the current frame.
pub struct WakeFlag {
    waked: bool,
}

impl WakeFlag {
    /// Whether the flag has been raised.
    pub closed spec fn is_waked_spec(self) -> bool {
        self.waked
    }

    /// A fresh, unraised flag.
    pub fn new() -> (s: Self)
        ensures
            !s.is_waked_spec(),
    {
        Self { waked: false }
    }

    /// Raise the flag.
    pub fn wake(&mut self)
        ensures
            final(self).is_waked_spec(),
    {
        self.waked = true;
    }

    /// Read the flag.
    pub fn is_waked(&self) -> (r: bool)
        ensures
            r == self.is_waked_spec(),
    {
        self.waked
    }
}

/// A suspendable unit computation, written as an explicit state machine.
///
/// Each poll runs the job forward until it completes, suspends on a
/// [`WaitNextFrame`] gate, or suspends with a wake. The non-suspending
/// steps (emitting a command, observing the world, requesting a spawn)
/// never end a poll on their own.
pub enum Job<C> {
    /// Complete immediately.
    Finish,
    /// Suspend until the next frame through a one-shot gate, then continue.
    Await { gate: WaitNextFrame, then: Box<Job<C>> },
    /// Suspend once with a wake raised: the runtime re-runs the job within
    /// the same frame. This models a task whose producer has signalled that
    /// more input is already available.
    Yield { then: Box<Job<C>> },
    /// Send a command to the world and continue within the same step.
    Emit { command: C, then: Box<Job<C>> },
    /// Observe the world; if the observation differs from `expected`,
    /// record a fault and complete, else continue. A fault stands for a
    /// failed assertion inside a task; the runtime isolates it rather than
    /// aborting.
    Expect { expected: u64, then: Box<Job<C>> },
    /// Fail unconditionally: record a fault and complete.
    Fault,
    /// Run two sub-jobs concurrently; complete when both have completed.
    /// Every poll of the join polls both incomplete sub-jobs once.
    Join { left: Box<Job<C>>, right: Box<Job<C>> },
    /// Ask the runtime to spawn `child` into the phase with key `phase`
    /// (it will first run in the next frame), then continue.
    Spawn { phase: u64, child: Box<Job<C>>, then: Box<Job<C>> },
}

/// A spawn requested by a running task, to be enqueued for the next frame.
pub struct SpawnRequest<C> {
    /// Key of the phase the new task belongs to.
    pub phase: u64,
    /// The new task.
    pub job: Job<C>,
}

/// Everything a poll produces besides the task's own fate: commands sent,
/// spawns requested, and whether a task fault was recorded.
pub struct StepEffects<C> {
    /// Commands, in submission order.
    pub commands: Vec<C>,
    /// Spawn requests, in submission order.
    pub spawns: Vec<SpawnRequest<C>>,
    /// Whether any task failed an expectation.
    pub faulted: bool,
}

impl<C> StepEffects<C> {
    /// An empty effect record.
    pub fn new() -> (s: Self)
        ensures
            s.commands@ == Seq::<C>::empty(),
            s.spawns@ == Seq::<SpawnRequest<C>>::empty(),
            !s.faulted,
    {
        Self { commands: Vec::new(), spawns: Vec::new(), faulted: false }
    }
}

/// The fate of a polled job.
pub enum PolledJob<C> {
    /// The job completed and is discarded.
    Ready,
    /// The job suspended in the given state.
    Pending(Job<C>),
}

/// The specification-level outcome of polling a job once against an
/// observation `obs` of the world.
pub ghost struct PollModel<C> {
    /// Whether the job completed.
    pub done: bool,
    /// The suspended job when not done ([`Job::Finish`] when done).
    pub rest: Job<C>,
    /// Whether the wake flag was raised during the poll.
    pub woke: bool,
    /// Commands emitted, in order.
    pub commands: Seq<C>,
    /// Spawns requested, in order.
    pub spawns: Seq<SpawnRequest<C>>,
    /// Whether a fault was recorded.
    pub faulted: bool,
}

/// What one poll of `j` does, when the world observes as `obs`.
pub open spec fn poll_model<C>(j: Job<C>, obs: u64) -> PollModel<C>
    decreases j,
{
    match j {
        Job::Finish => PollModel {
            done: true,
            rest: Job::Finish,
            woke: false,
            commands: Seq::empty(),
            spawns: Seq::empty(),
            faulted: false,
        },
        Job::Await { gate, then } => {
            if gate.is_polled() {
                poll_model(*then, obs)
            } else {
                PollModel {
                    done: false,
                    rest: Job::Await { gate: WaitNextFrame::spent(), then },
                    woke: false,
                    commands: Seq::empty(),
                    spawns: Seq::empty(),
                    faulted: false,
                }
            }
        },
        Job::Yield { then } => PollModel {
            done: false,
            rest: *then,
            woke: true,
            commands: Seq::empty(),
            spawns: Seq::empty(),
            faulted: false,
        },
        Job::Emit { command, then } => {
            let m = poll_model(*then, obs);
            PollModel { commands: seq![command] + m.commands, ..m }
        },
        Job::Expect { expected, then } => {
            if obs == expected {
                poll_model(*then, obs)
            } else {
                PollModel {
                    done: true,
                    rest: Job::Finish,
                    woke: false,
                    commands: Seq::empty(),
                    spawns: Seq::empty(),
                    faulted: true,
                }
            }
        },
        Job::Fault => PollModel {
            done: true,
            rest: Job::Finish,
            woke: false,
            commands: Seq::empty(),
            spawns: Seq::empty(),
            faulted: true,
        },
        Job::Join { left, right } => {
            let ml = poll_model(*left, obs);
            let mr = poll_model(*right, obs);
            PollModel {
                done: ml.done && mr.done,
                rest: if ml.done && mr.done {
                    Job::Finish
                } else {
                    Job::Join {
                        left: Box::new(if ml.done { Job::Finish } else { ml.rest }),
                        right: Box::new(if mr.done { Job::Finish } else { mr.rest }),
                    }
                },
                woke: ml.woke || mr.woke,
                commands: ml.commands + mr.commands,
                spawns: ml.spawns + mr.spawns,
                faulted: ml.faulted || mr.faulted,
            }
        },
        Job::Spawn { phase, child, then } => {
            let m = poll_model(*then, obs);
            PollModel { spawns: seq![SpawnRequest { phase, job: *child }] + m.spawns, ..m }
        },
    }
}

/// The size of a job, counting an unprobed gate twice. Every suspending
/// poll strictly shrinks it, which bounds both the same-frame re-runs and
/// the number of frames a set of tasks can need.
pub open spec fn weight<C>(j: Job<C>) -> nat
    decreases j,
{
    match j {
        Job::Finish => 1,
        Job::Await { gate, then } => (if gate.is_polled() {
            1nat
        } else {
            2nat
        }) + weight(*then),
        Job::Yield { then } => 1 + weight(*then),
        Job::Emit { command, then } => 1 + weight(*then),
        Job::Expect { expected, then } => 1 + weight(*then),
        Job::Fault => 1,
        Job::Join { left, right } => 1 + weight(*left) + weight(*right),
        Job::Spawn { phase, child, then } => 1 + weight(*child) + weight(*then),
    }
}

/// Total weight of the jobs carried by a sequence of spawn requests.
pub open spec fn spawns_weight<C>(s: Seq<SpawnRequest<C>>) -> nat
    decreases s.len(),
{
    if s.len() == 0 {
        0
    } else {
        weight(s.first().job) + spawns_weight(s.drop_first())
    }
}

/// Weight is additive over concatenation of spawn requests.
pub proof fn lemma_spawns_weight_add<C>(a: Seq<SpawnRequest<C>>, b: Seq<SpawnRequest<C>>)
    ensures
        spawns_weight(a + b) == spawns_weight(a) + spawns_weight(b),
    decreases a.len(),
{
    if a.len() == 0 {
        assert(a + b =~= b);
    } else {
        assert((a + b).drop_first() =~= a.drop_first() + b);
        lemma_spawns_weight_add(a.drop_first(), b);
    }
}

/// One poll strictly shrinks a task's footprint: the survivor (if any)
/// together with everything it spawned weighs less than the task did.
pub proof fn lemma_poll_shrinks<C>(j: Job<C>, obs: u64)
    ensures
        ({
            let m = poll_model(j, obs);
            (if m.done {
                0nat
            } else {
                weight(m.rest)
            }) + spawns_weight(m.spawns) < weight(j)
        }),
    decreases j,
{
    let m = poll_model(j, obs);
    match j {
        Job::Finish => {
        },
        Job::Await { gate, then } => {
            if gate.is_polled() {
                lemma_poll_shrinks(*then, obs);
            }
        },
        Job::Yield { then } => {
        },
        Job::Emit { command, then } => {
            lemma_poll_shrinks(*then, obs);
        },
        Job::Expect { expected, then } => {
            if obs == expected {
                lemma_poll_shrinks(*then, obs);
            }
        },
        Job::Fault => {
        },
        Job::Join { left, right } => {
            lemma_poll_shrinks(*left, obs);
            lemma_poll_shrinks(*right, obs);
            let ml = poll_model(*left, obs);
            let mr = poll_model(*right, obs);
            lemma_spawns_weight_add(ml.spawns, mr.spawns);
        },
        Job::Spawn { phase, child, then } => {
            lemma_poll_shrinks(*then, obs);
            let mt = poll_model(*then, obs);
            assert(m.spawns.drop_first() =~= mt.spawns);
        },
    }
}

/// Poll a job for one step. The world is read-only during a poll; commands
/// and spawn requests are collected in `fx`, and a raised wake lands in
/// `flag`, which the caller creates fresh per poll.
pub fn poll_job<C>(job: Job<C>, obs: u64, flag: &mut WakeFlag, fx: &mut StepEffects<C>) -> (r:
    PolledJob<C>)
    ensures
        ({
            let m = poll_model(job, obs);
            &&& (match r {
                PolledJob::Ready => m.done,
                PolledJob::Pending(j2) => !m.done && j2 == m.rest,
            })
            &&& final(flag).is_waked_spec() == (old(flag).is_waked_spec() || m.woke)
            &&& final(fx).commands@ == old(fx).commands@ + m.commands
            &&& final(fx).spawns@ == old(fx).spawns@ + m.spawns
            &&& final(fx).faulted == (old(fx).faulted || m.faulted)
        }),
    decreases job,
{
    match job {
        Job::Finish => PolledJob::Ready,
        Job::Await { mut gate, then } => {
            match gate.probe() {
                Poll::Pending => PolledJob::Pending(Job::Await { gate, then }),
                Poll::Ready => poll_job(*then, obs, flag, fx),
            }
        },
        Job::Yield { then } => {
            flag.wake();
            PolledJob::Pending(*then)
        },
        Job::Emit { command, then } => {
            fx.commands.push(command);
            poll_job(*then, obs, flag, fx)
        },
        Job::Expect { expected, then } => {
            if obs == expected {
                poll_job(*then, obs, flag, fx)
            } else {
                fx.faulted = true;
                PolledJob::Ready
            }
        },
        Job::Fault => {
            fx.faulted = true;
            PolledJob::Ready
        },
        Job::Join { left, right } => {
            let rl = poll_job(*left, obs, flag, fx);
            let rr = poll_job(*right, obs, flag, fx);
            match (rl, rr) {
                (PolledJob::Ready, PolledJob::Ready) => PolledJob::Ready,
                (rl, rr) => {
                    let l2 = match rl {
                        PolledJob::Ready => Job::Finish,
                        PolledJob::Pending(j) => j,
                    };
                    let r2 = match rr {
                        PolledJob::Ready => Job::Finish,
                        PolledJob::Pending(j) => j,
                    };
                    PolledJob::Pending(Job::Join { left: Box::new(l2), right: Box::new(r2) })
                },
            }
        },
        Job::Spawn { phase, child, then } => {
            fx.spawns.push(SpawnRequest { phase, job: *child });
            poll_job(*then, obs, flag, fx)
        },
    }
}

} // verus!
