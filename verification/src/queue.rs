//! Draining one phase's current-frame queue.
//!
//! The drain pops tasks one at a time and polls each with a fresh wake
//! flag. A completed task is discarded; a suspended task that raised the
//! wake goes back into the current queue (it runs again within this frame);
//! a suspended task that stayed silent survives into the next frame.

use vstd::prelude::*;

use crate::task::Job;
use crate::task::PolledJob;
use crate::task::SpawnRequest;
use crate::task::StepEffects;
use crate::task::WakeFlag;
use crate::task::lemma_poll_shrinks;
use crate::task::poll_job;
use crate::task::poll_model;
use crate::task::weight;

verus! {

/// Total weight of the jobs in a queue.
pub open spec fn queue_weight<C>(q: Seq<Job<C>>) -> nat
    decreases q.len(),
{
    if q.len() == 0 {
        0
    } else {
        queue_weight(q.drop_last()) + weight(q.last())
    }
}

/// Every job weighs at least one.
pub proof fn lemma_weight_pos<C>(j: Job<C>)
    ensures
        weight(j) >= 1,
{
    match j {
        Job::Finish => {},
        Job::Await { gate, then } => {},
        Job::Yield { then } => {},
        Job::Emit { command, then } => {},
        Job::Expect { expected, then } => {},
        Job::Fault => {},
        Job::Join { left, right } => {},
        Job::Spawn { phase, child, then } => {},
    }
}

/// The specification-level outcome of draining one queue against a fixed
/// observation `obs` of the world: which tasks survive into the next frame,
/// and every effect the polls produced, each in chronological order.
pub ghost struct DrainModel<C> {
    /// Tasks that suspended without a wake, in the order they were set aside.
    pub survivors: Seq<Job<C>>,
    /// Commands emitted, in submission order.
    pub commands: Seq<C>,
    /// Spawns requested, in submission order.
    pub spawns: Seq<SpawnRequest<C>>,
    /// Whether any task faulted.
    pub faulted: bool,
}

/// What draining the queue `q` does. Tasks are taken from the back; a task
/// that suspends with a wake is put back and re-polled within the same
/// drain.
pub open spec fn drain_model<C>(q: Seq<Job<C>>, obs: u64) -> DrainModel<C>
    decreases queue_weight(q),
    via drain_model_decreases::<C>
{
    if q.len() == 0 {
        DrainModel {
            survivors: Seq::empty(),
            commands: Seq::empty(),
            spawns: Seq::empty(),
            faulted: false,
        }
    } else {
        let m = poll_model(q.last(), obs);
        let d = if m.done {
            drain_model(q.drop_last(), obs)
        } else if m.woke {
            drain_model(q.drop_last().push(m.rest), obs)
        } else {
            drain_model(q.drop_last(), obs)
        };
        DrainModel {
            survivors: if !m.done && !m.woke {
                seq![m.rest] + d.survivors
            } else {
                d.survivors
            },
            commands: m.commands + d.commands,
            spawns: m.spawns + d.spawns,
            faulted: m.faulted || d.faulted,
        }
    }
}

#[via_fn]
proof fn drain_model_decreases<C>(q: Seq<Job<C>>, obs: u64) {
    if q.len() > 0 {
        let m = poll_model(q.last(), obs);
        lemma_weight_pos(q.last());
        lemma_poll_shrinks(q.last(), obs);
        if !m.done && m.woke {
            let q2 = q.drop_last().push(m.rest);
            assert(q2.drop_last() =~= q.drop_last());
            assert(queue_weight(q2) == queue_weight(q.drop_last()) + weight(m.rest));
        }
    }
}

/// Queue weight is additive over concatenation.
pub proof fn lemma_queue_weight_concat<C>(a: Seq<Job<C>>, b: Seq<Job<C>>)
    ensures
        queue_weight(a + b) == queue_weight(a) + queue_weight(b),
    decreases b.len(),
{
    if b.len() == 0 {
        assert(a + b =~= a);
    } else {
        assert((a + b).drop_last() =~= a + b.drop_last());
        lemma_queue_weight_concat(a, b.drop_last());
        assert((a + b).last() == b.last());
    }
}

/// A drain strictly shrinks the tasks' total footprint: what survives,
/// together with everything that was spawned, weighs less than the queue
/// did — the runtime always runs down.
pub proof fn lemma_drain_shrinks<C>(q: Seq<Job<C>>, obs: u64)
    ensures
        ({
            let d = drain_model(q, obs);
            &&& queue_weight(d.survivors) + crate::task::spawns_weight(d.spawns) <= queue_weight(q)
            &&& (q.len() > 0 ==> queue_weight(d.survivors) + crate::task::spawns_weight(d.spawns)
                < queue_weight(q))
        }),
    decreases queue_weight(q),
{
    if q.len() != 0 {
        let m = poll_model(q.last(), obs);
        let d = drain_model(q, obs);
        lemma_weight_pos(q.last());
        lemma_poll_shrinks(q.last(), obs);
        if m.done {
            lemma_drain_shrinks(q.drop_last(), obs);
            let d0 = drain_model(q.drop_last(), obs);
            crate::task::lemma_spawns_weight_add(m.spawns, d0.spawns);
        } else if m.woke {
            let q2 = q.drop_last().push(m.rest);
            assert(q2.drop_last() =~= q.drop_last());
            assert(queue_weight(q2) == queue_weight(q.drop_last()) + weight(m.rest));
            lemma_drain_shrinks(q2, obs);
            let d0 = drain_model(q2, obs);
            crate::task::lemma_spawns_weight_add(m.spawns, d0.spawns);
        } else {
            lemma_drain_shrinks(q.drop_last(), obs);
            let d0 = drain_model(q.drop_last(), obs);
            crate::task::lemma_spawns_weight_add(m.spawns, d0.spawns);
            assert(d.survivors == seq![m.rest] + d0.survivors);
            lemma_queue_weight_concat(seq![m.rest], d0.survivors);
            assert(queue_weight(seq![m.rest]) == weight(m.rest)) by {
                assert(seq![m.rest].len() == 1);
                assert(seq![m.rest].drop_last() =~= Seq::<Job<C>>::empty());
                assert(queue_weight(Seq::<Job<C>>::empty()) == 0);
                assert(seq![m.rest].last() == m.rest);
            }
        }
    }
}

/// Partition a queue into two shards of equal count (the second holds the
/// extra task when the count is odd), for a fixed pool of two workers.
/// Together the shards are exactly the queue, in order.
pub fn split_tasks<C>(tasks: Vec<Job<C>>) -> (shards: (Vec<Job<C>>, Vec<Job<C>>))
    ensures
        shards.0@ == tasks@.subrange(0, tasks@.len() as int / 2),
        shards.1@ == tasks@.subrange(tasks@.len() as int / 2, tasks@.len() as int),
        shards.0@ + shards.1@ == tasks@,
{
    let mut first = tasks;
    let ghost orig = first@;
    let half = first.len() / 2;
    let second = first.split_off(half);
    proof {
        assert(first@ + second@ =~= orig);
    }
    (first, second)
}

/// Rejoin the next-frame remainders of two shards, in shard order: the
/// concatenation becomes the phase's next-frame queue.
pub fn merge_wait_tasks<C>(first: Vec<Job<C>>, second: Vec<Job<C>>) -> (merged: Vec<Job<C>>)
    ensures
        merged@ == first@ + second@,
{
    let mut merged = first;
    let mut second = second;
    merged.append(&mut second);
    merged
}

/// Drain one phase's current-frame queue, returning the tasks that run in
/// the next frame. Commands, spawn requests and faults land in `fx`.
pub fn process_tasks<C>(tasks: Vec<Job<C>>, obs: u64, fx: &mut StepEffects<C>) -> (wait_tasks: Vec<
    Job<C>,
>)
    ensures
        ({
            let d = drain_model(tasks@, obs);
            &&& wait_tasks@ == d.survivors
            &&& final(fx).commands@ == old(fx).commands@ + d.commands
            &&& final(fx).spawns@ == old(fx).spawns@ + d.spawns
            &&& final(fx).faulted == (old(fx).faulted || d.faulted)
        }),
{
    let ghost d0 = drain_model(tasks@, obs);
    let ghost cmds0 = fx.commands@;
    let ghost spawns0 = fx.spawns@;
    let ghost faulted0 = fx.faulted;
    let mut tasks = tasks;
    let mut wait_tasks: Vec<Job<C>> = Vec::new();
    while tasks.len() != 0
        invariant
            ({
                let d = drain_model(tasks@, obs);
                &&& d0.survivors == wait_tasks@ + d.survivors
                &&& cmds0 + d0.commands == fx.commands@ + d.commands
                &&& spawns0 + d0.spawns == fx.spawns@ + d.spawns
                &&& (faulted0 || d0.faulted) == (fx.faulted || d.faulted)
            }),
        decreases queue_weight(tasks@),
    {
        let ghost q_pre = tasks@;
        let task = match tasks.pop() {
            Some(t) => t,
            None => {
                proof {
                    assert(false);
                }
                Job::Finish
            },
        };
        proof {
            lemma_weight_pos(q_pre.last());
            lemma_poll_shrinks(q_pre.last(), obs);
        }
        let mut flag = WakeFlag::new();
        match poll_job(task, obs, &mut flag, fx) {
            PolledJob::Ready => {},
            PolledJob::Pending(rest) => {
                if flag.is_waked() {
                    tasks.push(rest);
                    proof {
                        assert(tasks@.drop_last() =~= q_pre.drop_last());
                        assert(queue_weight(tasks@) == queue_weight(q_pre.drop_last()) + weight(
                            poll_model(q_pre.last(), obs).rest,
                        ));
                    }
                } else {
                    wait_tasks.push(rest);
                }
            },
        }
        proof {
            let m = poll_model(q_pre.last(), obs);
            let d_pre = drain_model(q_pre, obs);
            let d = drain_model(tasks@, obs);
            assert(d0.survivors =~= wait_tasks@ + d.survivors);
            assert(cmds0 + d0.commands =~= fx.commands@ + d.commands);
            assert(spawns0 + d0.spawns =~= fx.spawns@ + d.spawns);
        }
    }
    proof {
        assert(wait_tasks@ =~= d0.survivors);
        assert(fx.commands@ =~= cmds0 + d0.commands);
        assert(fx.spawns@ =~= spawns0 + d0.spawns);
    }
    wait_tasks
}

} // verus!
