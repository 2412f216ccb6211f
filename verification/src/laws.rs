//! Laws of the runtime.
//!
//! Each public proof function here states a guarantee of the scheduler over
//! its specification-level model, so the guarantees hold for every embedder
//! and every set of tasks, not just the ones exercised by tests:
//!
//! - [`lemma_frame_accounting`] and [`lemma_frame_horizon`]: driving the
//!   runtime to done advances the frame counter by exactly the most frames
//!   any activated task awaits, spawned tasks included.
//! - [`lemma_zero_frame_computation`]: tasks that never await the next
//!   frame cost no frame at all.
//! - [`lemma_phase_ordering`]: phases run in ascending order and each
//!   observes the world with every earlier phase's commands of the same
//!   frame already applied.
//! - [`lemma_inactive_phase_silent`]: tasks of phases never activated are
//!   never polled.
//! - [`lemma_done_is_idempotent`]: after done, further frames report done
//!   and change nothing.
//! - [`lemma_drain_no_duplication`]: a drain never duplicates a task.
//! - [`lemma_frame_terminates`]: every frame that is not done strictly
//!   decreases the pair (activated footprint, pending count), whatever the
//!   tasks do — an embedder loop always terminates.

use vstd::prelude::*;

use crate::queue::drain_model;
use crate::runtime::RuntimeModel;
use crate::runtime::active_next_empty;
use crate::runtime::ensure_slot;
use crate::runtime::slots_wf;
use crate::runtime::frame_model;
use crate::runtime::has_slot;
use crate::runtime::key_active;
use crate::runtime::lemma_phase_model_frame;
use crate::runtime::phase_current;
use crate::runtime::phase_model;
use crate::runtime::phase_next;
use crate::runtime::phases_model;
use crate::runtime::rotate_slots;
use crate::runtime::slot_index;
use crate::runtime::SlotModel;
use crate::task::Job;
use crate::task::SpawnRequest;
use crate::task::poll_model;
use crate::world::World;
use crate::world::apply_all;

verus! {

broadcast use crate::wait_next_frame_future::WaitNextFrame::lemma_spent_is_polled;

/// Whether `key` is activated at some position in `reg[i..]`.
pub open spec fn key_active_from(reg: Seq<(u16, u64)>, i: int, key: u64) -> bool {
    exists|j: int| i <= j < reg.len() && reg[j].1 == key
}

/// What processing the phases from position `i` on does to the phase `k2`:
/// if `k2` is among them its current queue is drained empty, otherwise its
/// current queue is untouched; in either case its next queue only grows.
pub proof fn lemma_phases_frame<W: World>(m: RuntimeModel<W>, i: int, k2: u64)
    requires
        m.wf(),
        0 <= i <= m.registry.len(),
    ensures
        ({
            let r = phases_model(m, i);
            &&& r.wf()
            &&& r.registry == m.registry
            &&& r.frame_counter == m.frame_counter
            &&& (has_slot(m.slots, k2) ==> has_slot(r.slots, k2))
            &&& (key_active_from(m.registry, i, k2) ==> has_slot(r.slots, k2) && phase_current(
                r.slots,
                k2,
            ) == Seq::<Job<W::Command>>::empty())
            &&& (!key_active_from(m.registry, i, k2) ==> phase_current(r.slots, k2)
                == phase_current(m.slots, k2))
            &&& phase_next(m.slots, k2).is_prefix_of(phase_next(r.slots, k2))
        }),
    decreases m.registry.len() - i,
{
    if i < m.registry.len() {
        let key = m.registry[i].1;
        let m2 = phase_model(m, key);
        lemma_phase_model_frame(m, key, k2);
        lemma_phases_frame(m2, i + 1, k2);
        let r = phases_model(m, i);
        assert(r == phases_model(m2, i + 1));
        if key_active_from(m.registry, i, k2) {
            if k2 == key && !key_active_from(m.registry, i + 1, k2) {
                assert(phase_current(r.slots, k2) == phase_current(m2.slots, k2));
            } else {
                let j = choose|j: int| i <= j < m.registry.len() && m.registry[j].1 == k2;
                if j == i {
                    if !key_active_from(m.registry, i + 1, k2) {
                        assert(k2 == key);
                    }
                } else {
                    assert(key_active_from(m.registry, i + 1, k2));
                }
            }
        }
        // The next queue of `k2` only grows across both steps.
        let a = phase_next(m.slots, k2);
        let b = phase_next(m2.slots, k2);
        let c = phase_next(r.slots, k2);
        assert(a.is_prefix_of(c)) by {
            assert(b.subrange(0, a.len() as int) =~= a);
            assert(c.subrange(0, b.len() as int) =~= b);
            assert(c.subrange(0, a.len() as int) =~= a);
        }
    }
}

/// A phase whose queues exist and whose current queue is empty is left
/// exactly as it stands by one phase step.
pub proof fn lemma_phase_model_noop<W: World>(m: RuntimeModel<W>, key: u64)
    requires
        m.wf(),
        has_slot(m.slots, key),
        phase_current(m.slots, key).len() == 0,
    ensures
        phase_model(m, key) == m,
{
    let i = slot_index(m.slots, key);
    let d = drain_model(phase_current(m.slots, key), m.world.observe_spec());
    assert(phase_current(m.slots, key) =~= Seq::<Job<W::Command>>::empty());
    let drained = SlotModel {
        key: m.slots[i].key,
        current: Seq::empty(),
        next: m.slots[i].next + d.survivors,
    };
    assert(drained == m.slots[i]) by {
        assert(m.slots[i].next + d.survivors =~= m.slots[i].next);
        assert(drained.current =~= m.slots[i].current);
    }
    assert(m.slots.update(i, drained) =~= m.slots);
    assert(apply_all(m.world, d.commands) == m.world);
}

/// A runtime in which every activated phase has empty queues: the state in
/// which the runtime reports done.
pub open spec fn settled<W: World>(m: RuntimeModel<W>) -> bool {
    forall|j: int|
        0 <= j < m.registry.len() ==> {
            let k = (#[trigger] m.registry[j]).1;
            &&& has_slot(m.slots, k)
            &&& phase_current(m.slots, k).len() == 0
        }
}

/// Processing phases in a settled runtime changes nothing.
pub proof fn lemma_phases_fixpoint<W: World>(m: RuntimeModel<W>, i: int)
    requires
        m.wf(),
        settled(m),
        0 <= i <= m.registry.len(),
    ensures
        phases_model(m, i) == m,
    decreases m.registry.len() - i,
{
    if i < m.registry.len() {
        lemma_phase_model_noop(m, m.registry[i].1);
        lemma_phases_fixpoint(m, i + 1);
    }
}

/// Once the runtime reports done, every further frame reports done again
/// and changes nothing: not the queues, not the world, and not the frame
/// counter.
pub proof fn lemma_done_is_idempotent<W: World>(m: RuntimeModel<W>)
    requires
        m.wf(),
        frame_model(m).1,
    ensures
        frame_model(frame_model(m).0).0 == frame_model(m).0,
        frame_model(frame_model(m).0).1,
{
    let m1 = phases_model(m, 0);
    lemma_phases_frame(m, 0, 0);
    assert(settled(m1)) by {
        assert forall|j: int| 0 <= j < m1.registry.len() implies {
            let k = (#[trigger] m1.registry[j]).1;
            has_slot(m1.slots, k) && phase_current(m1.slots, k).len() == 0
        } by {
            let k = m1.registry[j].1;
            assert(key_active_from(m.registry, 0, k)) by {
                assert(0 <= j < m.registry.len() && m.registry[j].1 == k);
            }
            lemma_phases_frame(m, 0, k);
        }
    }
    lemma_phases_fixpoint(m1, 0);
    assert(phases_model(m1, 0) == m1);
}

/// Tasks spawned into a phase that is never activated are never polled:
/// a frame leaves such a phase's current queue exactly as it stands, and
/// its next queue only receives (and never runs) spawned tasks.
pub proof fn lemma_inactive_phase_silent<W: World>(m: RuntimeModel<W>, key: u64)
    requires
        m.wf(),
        !key_active(m.registry, key),
    ensures
        ({
            let m2 = frame_model(m).0;
            &&& phase_current(m2.slots, key) == phase_current(m.slots, key)
            &&& phase_next(m.slots, key).is_prefix_of(phase_next(m2.slots, key))
        }),
{
    let m1 = phases_model(m, 0);
    lemma_phases_frame(m, 0, key);
    assert(!key_active_from(m.registry, 0, key));
    if !frame_model(m).1 {
        let rotated = rotate_slots(m1.registry, m1.slots);
        assert(forall|j: int| 0 <= j < m1.slots.len() ==> (#[trigger] rotated[j]).key
            == m1.slots[j].key && (!key_active(m1.registry, m1.slots[j].key) ==> rotated[j]
            == m1.slots[j]));
        if has_slot(m1.slots, key) {
            let i = slot_index(m1.slots, key);
            crate::runtime::lemma_slot_index_unique(rotated, key, i);
        } else {
            if has_slot(rotated, key) {
                let i = slot_index(rotated, key);
                assert(m1.slots[i].key == key);
            }
        }
    }
}

/// Registry keys pairwise distinct: each phase activated at one order.
pub open spec fn keys_distinct(reg: Seq<(u16, u64)>) -> bool {
    forall|i: int, j: int| 0 <= i < j < reg.len() ==> reg[i].1 != reg[j].1
}

/// The world as the phase at registry position `i` observes it during a
/// frame: the frame's initial world with the commands of every
/// earlier-ordered phase already applied, each earlier phase drained
/// against the world it observed in turn.
pub open spec fn phase_world<W: World>(m: RuntimeModel<W>, i: int) -> W
    decreases i,
{
    if i <= 0 {
        m.world
    } else {
        let prev = phase_world(m, i - 1);
        let d = drain_model(phase_current(m.slots, m.registry[i - 1].1), prev.observe_spec());
        apply_all(prev, d.commands)
    }
}

/// Whether any of the first `i` phases records a fault, each phase's
/// expectations judged against the world that phase observes.
pub open spec fn phase_fault<W: World>(m: RuntimeModel<W>, i: int) -> bool
    decreases i,
{
    if i <= 0 {
        false
    } else {
        let d = drain_model(
            phase_current(m.slots, m.registry[i - 1].1),
            phase_world(m, i - 1).observe_spec(),
        );
        phase_fault(m, i - 1) || d.faulted
    }
}

/// The runtime after the first `i` phases of a frame have been processed.
spec fn prefix_state<W: World>(m: RuntimeModel<W>, i: int) -> RuntimeModel<W>
    decreases i,
{
    if i <= 0 {
        m
    } else {
        phase_model(prefix_state(m, i - 1), m.registry[i - 1].1)
    }
}

/// Processing the first `i` phases evolves the world and the fault flag
/// exactly as [`phase_world`] and [`phase_fault`] give them, and leaves
/// the current queues of the phases still to come untouched.
proof fn lemma_prefix<W: World>(m: RuntimeModel<W>, i: int)
    requires
        m.wf(),
        keys_distinct(m.registry),
        0 <= i <= m.registry.len(),
    ensures
        ({
            let p = prefix_state(m, i);
            &&& p.wf()
            &&& p.registry == m.registry
            &&& p.world == phase_world(m, i)
            &&& p.faulted == (m.faulted || phase_fault(m, i))
            &&& forall|j: int|
                i <= j < m.registry.len() ==> phase_current(
                    p.slots,
                    (#[trigger] m.registry[j]).1,
                ) == phase_current(m.slots, m.registry[j].1)
            &&& phases_model(m, 0) == phases_model(p, i)
        }),
    decreases i,
{
    if i > 0 {
        lemma_prefix(m, i - 1);
        let p0 = prefix_state(m, i - 1);
        let key = m.registry[i - 1].1;
        let p = phase_model(p0, key);
        lemma_phase_model_frame(p0, key, 0);
        assert(phase_current(p0.slots, key) == phase_current(m.slots, key)) by {
            assert(i - 1 <= i - 1 < m.registry.len());
        }
        assert forall|j: int|
            i <= j < m.registry.len() implies phase_current(
            p.slots,
            (#[trigger] m.registry[j]).1,
        ) == phase_current(m.slots, m.registry[j].1) by {
            let k2 = m.registry[j].1;
            assert(k2 != key);
            lemma_phase_model_frame(p0, key, k2);
        }
        assert(phases_model(p0, i - 1) == phases_model(p, i));
    }
}

/// Phase ordering, for any number of activated phases: phases are
/// processed in strictly ascending order, and the commands a phase submits
/// are applied to the world before any later phase's tasks are polled in
/// the same frame — every phase observes the world exactly as
/// [`phase_world`] gives it (the writes of all earlier phases included),
/// every expectation is judged against that world, and the frame ends on
/// the world with all phases' commands applied in phase order.
pub proof fn lemma_phase_ordering<W: World>(m: RuntimeModel<W>)
    requires
        m.wf(),
        keys_distinct(m.registry),
    ensures
        frame_model(m).0.world == phase_world(m, m.registry.len() as int),
        frame_model(m).0.faulted == (m.faulted || phase_fault(m, m.registry.len() as int)),
{
    let n = m.registry.len() as int;
    lemma_prefix(m, n);
    let p = prefix_state(m, n);
    assert(phases_model(p, n) == p);
}

/// The larger of two counts.
pub open spec fn nmax(a: nat, b: nat) -> nat {
    if a >= b {
        a
    } else {
        b
    }
}

/// A task that neither wakes nor faults: it is built from completion,
/// one-shot gates, commands, joins and spawns alone. Frame accounting is
/// stated for these tasks: a same-frame wake can consume a sibling's gate
/// without costing a frame, and a fault ends a task before its remaining
/// gates are reached.
pub open spec fn frame_pure<C>(j: Job<C>) -> bool
    decreases j,
{
    match j {
        Job::Finish => true,
        Job::Await { gate, then } => frame_pure(*then),
        Job::Emit { command, then } => frame_pure(*then),
        Job::Join { left, right } => frame_pure(*left) && frame_pure(*right),
        Job::Spawn { phase, child, then } => frame_pure(*child) && frame_pure(*then),
        Job::Yield { then } => false,
        Job::Expect { expected, then } => false,
        Job::Fault => false,
    }
}

/// How many frames a task still needs under the registry `reg`: the number
/// of unprobed gates along its longest path — for a task that awaits the
/// next frame `k` more times, this is `k`. A task spawned into an
/// activated phase first runs in the following frame, so it adds one to
/// its own need; one spawned into an inactive phase never runs and needs
/// nothing.
pub open spec fn frames_of<C>(reg: Seq<(u16, u64)>, j: Job<C>) -> nat
    decreases j,
{
    match j {
        Job::Finish => 0,
        Job::Await { gate, then } => (if gate.is_polled() {
            0nat
        } else {
            1nat
        }) + frames_of(reg, *then),
        Job::Yield { then } => frames_of(reg, *then),
        Job::Emit { command, then } => frames_of(reg, *then),
        Job::Expect { expected, then } => frames_of(reg, *then),
        Job::Fault => 0,
        Job::Join { left, right } => nmax(frames_of(reg, *left), frames_of(reg, *right)),
        Job::Spawn { phase, child, then } => if key_active(reg, phase) {
            nmax(frames_of(reg, *then), 1 + frames_of(reg, *child))
        } else {
            frames_of(reg, *then)
        },
    }
}

/// Every spawned task in the batch is frame-pure.
pub open spec fn spawn_pure<C>(s: Seq<SpawnRequest<C>>) -> bool {
    forall|i: int| 0 <= i < s.len() ==> frame_pure((#[trigger] s[i]).job)
}

/// The frames a batch of spawn requests still needs: a spawned task runs
/// no earlier than the next frame, so it costs one more than it needs
/// itself; spawns into inactive phases never run and cost nothing.
pub open spec fn spawn_horizon<C>(reg: Seq<(u16, u64)>, s: Seq<SpawnRequest<C>>) -> nat
    decreases s.len(),
{
    if s.len() == 0 {
        0
    } else {
        nmax(
            if key_active(reg, s.first().phase) {
                1 + frames_of(reg, s.first().job)
            } else {
                0nat
            },
            spawn_horizon(reg, s.drop_first()),
        )
    }
}

/// Spawn horizons distribute over concatenation as a maximum.
pub proof fn lemma_spawn_horizon_concat<C>(
    reg: Seq<(u16, u64)>,
    a: Seq<SpawnRequest<C>>,
    b: Seq<SpawnRequest<C>>,
)
    ensures
        spawn_horizon(reg, a + b) == nmax(spawn_horizon(reg, a), spawn_horizon(reg, b)),
    decreases a.len(),
{
    if a.len() == 0 {
        assert(a + b =~= b);
    } else {
        assert((a + b).drop_first() =~= a.drop_first() + b);
        lemma_spawn_horizon_concat(reg, a.drop_first(), b);
    }
}

/// One poll of a frame-pure task converts its frame need exactly: the need
/// was the larger of what its survivor will need one frame hence and what
/// its spawned tasks will need.
pub proof fn lemma_poll_frames<C>(reg: Seq<(u16, u64)>, j: Job<C>, obs: u64)
    requires
        frame_pure(j),
    ensures
        ({
            let mp = poll_model(j, obs);
            &&& !mp.woke
            &&& !mp.faulted
            &&& spawn_pure(mp.spawns)
            &&& (!mp.done ==> frame_pure(mp.rest))
            &&& frames_of(reg, j) == nmax(
                if mp.done {
                    0nat
                } else {
                    1 + frames_of(reg, mp.rest)
                },
                spawn_horizon(reg, mp.spawns),
            )
        }),
    decreases j,
{
    let mp = poll_model(j, obs);
    match j {
        Job::Finish => {
            assert(mp.spawns =~= Seq::<SpawnRequest<C>>::empty());
        },
        Job::Await { gate, then } => {
            if gate.is_polled() {
                lemma_poll_frames(reg, *then, obs);
            } else {
                assert(mp.spawns =~= Seq::<SpawnRequest<C>>::empty());
            }
        },
        Job::Emit { command, then } => {
            lemma_poll_frames(reg, *then, obs);
        },
        Job::Join { left, right } => {
            lemma_poll_frames(reg, *left, obs);
            lemma_poll_frames(reg, *right, obs);
            let ml = poll_model(*left, obs);
            let mr = poll_model(*right, obs);
            lemma_spawn_horizon_concat(reg, ml.spawns, mr.spawns);
            assert(spawn_pure(mp.spawns)) by {
                assert(forall|i: int|
                    0 <= i < mp.spawns.len() ==> mp.spawns[i] == (if i < ml.spawns.len() {
                        ml.spawns[i]
                    } else {
                        mr.spawns[i - ml.spawns.len()]
                    }));
            }
            if !mp.done {
                let lslot = if ml.done {
                    Job::Finish
                } else {
                    ml.rest
                };
                let rslot = if mr.done {
                    Job::Finish
                } else {
                    mr.rest
                };
                assert(frame_pure(lslot));
                assert(frame_pure(rslot));
                assert(mp.rest == (Job::Join { left: Box::new(lslot), right: Box::new(rslot) }));
                assert(frame_pure(mp.rest));
                assert(frames_of(reg, mp.rest) == nmax(
                    frames_of(reg, lslot),
                    frames_of(reg, rslot),
                ));
            }
        },
        Job::Spawn { phase, child, then } => {
            lemma_poll_frames(reg, *then, obs);
            let mt = poll_model(*then, obs);
            let req = SpawnRequest { phase, job: *child };
            assert(mp.spawns == seq![req] + mt.spawns);
            lemma_spawn_horizon_concat(reg, seq![req], mt.spawns);
            assert(spawn_horizon(reg, seq![req]) == (if key_active(reg, phase) {
                1 + frames_of(reg, *child)
            } else {
                0nat
            })) by {
                assert(seq![req].len() == 1);
                assert(seq![req].first() == req);
                assert(seq![req].drop_first() =~= Seq::<SpawnRequest<C>>::empty());
                assert(spawn_horizon(reg, Seq::<SpawnRequest<C>>::empty()) == 0);
            }
            assert(spawn_pure(mp.spawns)) by {
                assert(forall|i: int|
                    0 <= i < mp.spawns.len() ==> mp.spawns[i] == (if i == 0 {
                        req
                    } else {
                        mt.spawns[i - 1]
                    }));
            }
        },
        Job::Yield { then } => {
        },
        Job::Expect { expected, then } => {
        },
        Job::Fault => {
        },
    }
}

/// Every task of the queue is frame-pure.
pub open spec fn queue_pure<C>(q: Seq<Job<C>>) -> bool {
    forall|i: int| 0 <= i < q.len() ==> frame_pure(#[trigger] q[i])
}

/// The frames the queue still needs: the most any of its tasks needs.
pub open spec fn queue_frames<C>(reg: Seq<(u16, u64)>, q: Seq<Job<C>>) -> nat
    decreases q.len(),
{
    if q.len() == 0 {
        0
    } else {
        nmax(queue_frames(reg, q.drop_last()), frames_of(reg, q.last()))
    }
}

/// The frames a queue still needs when its tasks run only from the next
/// frame on: one more than the queue itself needs, unless it is empty.
pub open spec fn next_part<C>(reg: Seq<(u16, u64)>, q: Seq<Job<C>>) -> nat {
    if q.len() == 0 {
        0
    } else {
        1 + queue_frames(reg, q)
    }
}

/// Queue frames distribute over concatenation as a maximum.
pub proof fn lemma_queue_frames_concat<C>(reg: Seq<(u16, u64)>, a: Seq<Job<C>>, b: Seq<Job<C>>)
    ensures
        queue_frames(reg, a + b) == nmax(queue_frames(reg, a), queue_frames(reg, b)),
    decreases b.len(),
{
    if b.len() == 0 {
        assert(a + b =~= a);
    } else {
        assert((a + b).drop_last() =~= a + b.drop_last());
        lemma_queue_frames_concat(reg, a, b.drop_last());
        assert((a + b).last() == b.last());
    }
}

/// So do next-frame costs.
pub proof fn lemma_next_part_concat<C>(reg: Seq<(u16, u64)>, a: Seq<Job<C>>, b: Seq<Job<C>>)
    ensures
        next_part(reg, a + b) == nmax(next_part(reg, a), next_part(reg, b)),
{
    lemma_queue_frames_concat(reg, a, b);
    if a.len() == 0 {
        assert(a + b =~= b);
    } else if b.len() == 0 {
        assert(a + b =~= a);
    }
}

/// A prefix never needs more frames than the whole queue.
pub proof fn lemma_next_part_prefix<C>(reg: Seq<(u16, u64)>, a: Seq<Job<C>>, b: Seq<Job<C>>)
    requires
        a.is_prefix_of(b),
    ensures
        next_part(reg, a) <= next_part(reg, b),
{
    let tail = b.subrange(a.len() as int, b.len() as int);
    assert(b =~= a + tail);
    lemma_next_part_concat(reg, a, tail);
}

/// Draining a frame-pure queue wakes nothing and faults nothing, and
/// converts the queue's frame need exactly: the survivors and the spawned
/// tasks, all bound for next-frame queues, together need precisely what
/// the queue needed.
pub proof fn lemma_drain_frames<C>(reg: Seq<(u16, u64)>, q: Seq<Job<C>>, obs: u64)
    requires
        queue_pure(q),
    ensures
        ({
            let d = drain_model(q, obs);
            &&& !d.faulted
            &&& queue_pure(d.survivors)
            &&& spawn_pure(d.spawns)
            &&& nmax(next_part(reg, d.survivors), spawn_horizon(reg, d.spawns)) == queue_frames(
                reg,
                q,
            )
        }),
    decreases q.len(),
{
    let d = drain_model(q, obs);
    if q.len() == 0 {
        assert(d.survivors =~= Seq::<Job<C>>::empty());
        assert(d.spawns =~= Seq::<SpawnRequest<C>>::empty());
    } else {
        assert(frame_pure(q.last()));
        lemma_poll_frames(reg, q.last(), obs);
        let mp = poll_model(q.last(), obs);
        assert(queue_pure(q.drop_last())) by {
            assert(forall|i: int| 0 <= i < q.len() - 1 ==> q.drop_last()[i] == q[i]);
        }
        lemma_drain_frames(reg, q.drop_last(), obs);
        let d0 = drain_model(q.drop_last(), obs);
        lemma_spawn_horizon_concat(reg, mp.spawns, d0.spawns);
        assert(spawn_pure(d.spawns)) by {
            assert(forall|i: int|
                0 <= i < d.spawns.len() ==> d.spawns[i] == (if i < mp.spawns.len() {
                    mp.spawns[i]
                } else {
                    d0.spawns[i - mp.spawns.len()]
                }));
        }
        if mp.done {
            assert(d.survivors == d0.survivors);
        } else {
            assert(d.survivors == seq![mp.rest] + d0.survivors);
            assert(queue_pure(d.survivors)) by {
                assert(forall|i: int|
                    0 <= i < d.survivors.len() ==> d.survivors[i] == (if i == 0 {
                        mp.rest
                    } else {
                        d0.survivors[i - 1]
                    }));
            }
            lemma_next_part_concat(reg, seq![mp.rest], d0.survivors);
            assert(next_part(reg, seq![mp.rest]) == 1 + frames_of(reg, mp.rest)) by {
                assert(seq![mp.rest].drop_last() =~= Seq::<Job<C>>::empty());
                assert(queue_frames(reg, Seq::<Job<C>>::empty()) == 0);
                assert(seq![mp.rest].last() == mp.rest);
            }
        }
    }
}

/// The frames a phase's queue pair still needs: its current-frame tasks at
/// their own need, its next-frame tasks at one more.
pub open spec fn slot_frames<C>(reg: Seq<(u16, u64)>, s: SlotModel<C>) -> nat {
    nmax(queue_frames(reg, s.current), next_part(reg, s.next))
}

/// [`slot_frames`] looked up by phase key; zero for a phase with no queues.
pub open spec fn key_frames<C>(reg: Seq<(u16, u64)>, slots: Seq<SlotModel<C>>, k: u64) -> nat {
    nmax(
        queue_frames(reg, phase_current(slots, k)),
        next_part(reg, phase_next(slots, k)),
    )
}

/// The frames the whole runtime still needs: the most any activated
/// phase's queues need. Phases never activated contribute nothing — their
/// tasks never run.
pub open spec fn slots_horizon<C>(reg: Seq<(u16, u64)>, slots: Seq<SlotModel<C>>) -> nat
    decreases slots.len(),
{
    if slots.len() == 0 {
        0
    } else {
        nmax(
            slots_horizon(reg, slots.drop_last()),
            if key_active(reg, slots.last().key) {
                slot_frames(reg, slots.last())
            } else {
                0
            },
        )
    }
}

/// The frames the runtime still needs (see [`slots_horizon`]).
pub open spec fn horizon<W: World>(m: RuntimeModel<W>) -> nat {
    slots_horizon(m.registry, m.slots)
}

/// Every task of every activated phase is frame-pure.
pub open spec fn runtime_pure<W: World>(m: RuntimeModel<W>) -> bool {
    forall|j: int|
        0 <= j < m.registry.len() ==> {
            let k = (#[trigger] m.registry[j]).1;
            &&& queue_pure(phase_current(m.slots, k))
            &&& queue_pure(phase_next(m.slots, k))
        }
}

/// An upper bound on every activated slot bounds the horizon.
proof fn lemma_slots_horizon_le<C>(reg: Seq<(u16, u64)>, slots: Seq<SlotModel<C>>, b: nat)
    requires
        forall|j: int|
            0 <= j < slots.len() ==> (key_active(reg, (#[trigger] slots[j]).key) ==> slot_frames(
                reg,
                slots[j],
            ) <= b),
    ensures
        slots_horizon(reg, slots) <= b,
    decreases slots.len(),
{
    if slots.len() != 0 {
        assert(forall|j: int| 0 <= j < slots.len() - 1 ==> slots.drop_last()[j] == slots[j]);
        lemma_slots_horizon_le(reg, slots.drop_last(), b);
        assert(slots[slots.len() - 1] == slots.last());
    }
}

/// The horizon is at least any activated slot's frames.
proof fn lemma_slots_horizon_ge<C>(reg: Seq<(u16, u64)>, slots: Seq<SlotModel<C>>, j: int)
    requires
        0 <= j < slots.len(),
        key_active(reg, slots[j].key),
    ensures
        slots_horizon(reg, slots) >= slot_frames(reg, slots[j]),
    decreases slots.len(),
{
    if j == slots.len() - 1 {
        assert(slots[j] == slots.last());
    } else {
        assert(slots.drop_last()[j] == slots[j]);
        lemma_slots_horizon_ge(reg, slots.drop_last(), j);
    }
}

/// A positive horizon is achieved by some activated slot.
proof fn lemma_slots_horizon_witness<C>(reg: Seq<(u16, u64)>, slots: Seq<SlotModel<C>>)
    requires
        slots_horizon(reg, slots) > 0,
    ensures
        exists|j: int|
            0 <= j < slots.len() && key_active(reg, (#[trigger] slots[j]).key) && slot_frames(
                reg,
                slots[j],
            ) == slots_horizon(reg, slots),
    decreases slots.len(),
{
    let h = slots_horizon(reg, slots);
    if key_active(reg, slots.last().key) && slot_frames(reg, slots.last()) == h {
        assert(slots[slots.len() - 1] == slots.last());
    } else {
        lemma_slots_horizon_witness(reg, slots.drop_last());
        let j = choose|j: int|
            0 <= j < slots.drop_last().len() && key_active(
                reg,
                (#[trigger] slots.drop_last()[j]).key,
            ) && slot_frames(reg, slots.drop_last()[j]) == slots_horizon(reg, slots.drop_last());
        assert(slots.drop_last()[j] == slots[j]);
    }
}

/// Keyed and indexed slot frames agree.
proof fn lemma_key_frames_index<C>(reg: Seq<(u16, u64)>, slots: Seq<SlotModel<C>>, j: int)
    requires
        slots_wf(slots),
        0 <= j < slots.len(),
    ensures
        key_frames(reg, slots, slots[j].key) == slot_frames(reg, slots[j]),
{
    crate::runtime::lemma_slot_index_unique(slots, slots[j].key, j);
}

/// The horizon bounds the frames of any activated phase's queues.
proof fn lemma_horizon_ge_key<C>(reg: Seq<(u16, u64)>, slots: Seq<SlotModel<C>>, k: u64)
    requires
        slots_wf(slots),
        key_active(reg, k),
    ensures
        key_frames(reg, slots, k) <= slots_horizon(reg, slots),
{
    if has_slot(slots, k) {
        let j = slot_index(slots, k);
        lemma_key_frames_index(reg, slots, j);
        lemma_slots_horizon_ge(reg, slots, j);
    } else {
        assert(queue_frames(reg, Seq::<Job<C>>::empty()) == 0);
    }
}

/// A positive spawn horizon is achieved by some request into an activated
/// phase.
proof fn lemma_spawn_horizon_witness<C>(reg: Seq<(u16, u64)>, s: Seq<SpawnRequest<C>>)
    requires
        spawn_horizon(reg, s) > 0,
    ensures
        exists|w: int|
            0 <= w < s.len() && key_active(reg, (#[trigger] s[w]).phase) && 1 + frames_of(
                reg,
                s[w].job,
            ) == spawn_horizon(reg, s),
    decreases s.len(),
{
    let h = spawn_horizon(reg, s);
    if key_active(reg, s.first().phase) && 1 + frames_of(reg, s.first().job) == h {
        assert(s[0] == s.first());
    } else {
        lemma_spawn_horizon_witness(reg, s.drop_first());
        let w = choose|w: int|
            0 <= w < s.drop_first().len() && key_active(reg, (#[trigger] s.drop_first()[w]).phase)
                && 1 + frames_of(reg, s.drop_first()[w].job) == spawn_horizon(reg, s.drop_first());
        assert(s.drop_first()[w] == s[w + 1]);
    }
}

/// Filing spawn requests into activated phases adds at most the batch's
/// own frame need to any activated next queue, and keeps it frame-pure.
proof fn lemma_place_spawns_next_le<C>(
    reg: Seq<(u16, u64)>,
    s: Seq<SlotModel<C>>,
    reqs: Seq<SpawnRequest<C>>,
    k: u64,
)
    requires
        slots_wf(s),
        key_active(reg, k),
        spawn_pure(reqs),
        queue_pure(phase_next(s, k)),
    ensures
        ({
            let s2 = crate::runtime::place_spawns(s, reqs);
            &&& next_part(reg, phase_next(s2, k)) <= nmax(
                next_part(reg, phase_next(s, k)),
                spawn_horizon(reg, reqs),
            )
            &&& queue_pure(phase_next(s2, k))
        }),
    decreases reqs.len(),
{
    if reqs.len() != 0 {
        let r0 = reqs.first();
        crate::runtime::lemma_place_spawn_frame(s, r0, k);
        let s1 = crate::runtime::place_spawn(s, r0);
        if r0.phase == k {
            let nq = phase_next(s, k);
            assert(phase_next(s1, k) == nq.push(r0.job));
            assert(nq.push(r0.job) =~= nq + seq![r0.job]);
            lemma_next_part_concat(reg, nq, seq![r0.job]);
            assert(next_part(reg, seq![r0.job]) == 1 + frames_of(reg, r0.job)) by {
                assert(seq![r0.job].drop_last() =~= Seq::<Job<C>>::empty());
                assert(queue_frames(reg, Seq::<Job<C>>::empty()) == 0);
                assert(seq![r0.job].last() == r0.job);
            }
            assert(frame_pure(r0.job)) by {
                assert(reqs[0] == r0);
            }
            assert(queue_pure(phase_next(s1, k))) by {
                assert(forall|i: int|
                    0 <= i < nq.push(r0.job).len() ==> nq.push(r0.job)[i] == (if i < nq.len() {
                        nq[i]
                    } else {
                        r0.job
                    }));
            }
        }
        assert(spawn_pure(reqs.drop_first())) by {
            assert(forall|i: int|
                0 <= i < reqs.len() - 1 ==> reqs.drop_first()[i] == reqs[i + 1]);
        }
        lemma_place_spawns_next_le(reg, s1, reqs.drop_first(), k);
    }
}

/// Once a spawn request is filed, its task stands in its phase's next
/// queue: that queue then needs at least what the spawned task costs.
proof fn lemma_place_spawns_reach<C>(
    reg: Seq<(u16, u64)>,
    s: Seq<SlotModel<C>>,
    reqs: Seq<SpawnRequest<C>>,
    w: int,
)
    requires
        slots_wf(s),
        0 <= w < reqs.len(),
    ensures
        next_part(reg, phase_next(crate::runtime::place_spawns(s, reqs), reqs[w].phase)) >= 1
            + frames_of(reg, reqs[w].job),
    decreases reqs.len(),
{
    let r0 = reqs.first();
    crate::runtime::lemma_place_spawn_frame(s, r0, r0.phase);
    let s1 = crate::runtime::place_spawn(s, r0);
    if w == 0 {
        let nq = phase_next(s, r0.phase);
        assert(phase_next(s1, r0.phase) == nq.push(r0.job));
        assert(nq.push(r0.job) =~= nq + seq![r0.job]);
        lemma_next_part_concat(reg, nq, seq![r0.job]);
        assert(next_part(reg, seq![r0.job]) == 1 + frames_of(reg, r0.job)) by {
            assert(seq![r0.job].drop_last() =~= Seq::<Job<C>>::empty());
            assert(queue_frames(reg, Seq::<Job<C>>::empty()) == 0);
            assert(seq![r0.job].last() == r0.job);
        }
        // Later requests only extend next queues further.
        crate::runtime::lemma_place_spawns_frame(s1, reqs.drop_first(), r0.phase);
        lemma_next_part_prefix(
            reg,
            phase_next(s1, r0.phase),
            phase_next(crate::runtime::place_spawns(s1, reqs.drop_first()), r0.phase),
        );
    } else {
        assert(reqs.drop_first()[w - 1] == reqs[w]);
        lemma_place_spawns_reach(reg, s1, reqs.drop_first(), w - 1);
    }
}

/// Updating one slot leaves every other phase's queues untouched.
proof fn lemma_update_other<C>(s: Seq<SlotModel<C>>, i: int, x: SlotModel<C>, k2: u64)
    requires
        slots_wf(s),
        0 <= i < s.len(),
        x.key == s[i].key,
        k2 != s[i].key,
    ensures
        slots_wf(s.update(i, x)),
        phase_current(s.update(i, x), k2) == phase_current(s, k2),
        phase_next(s.update(i, x), k2) == phase_next(s, k2),
{
    let s2 = s.update(i, x);
    assert(forall|j: int| 0 <= j < s.len() ==> s2[j].key == s[j].key);
    if has_slot(s, k2) {
        let jj = slot_index(s, k2);
        assert(jj != i) by {
            assert(s[i].key != k2);
        }
        crate::runtime::lemma_slot_index_unique(s2, k2, jj);
    } else {
        if has_slot(s2, k2) {
            let jj = slot_index(s2, k2);
            assert(s[jj].key == k2);
        }
    }
}

/// One phase step keeps the runtime's frame need exactly as it stands: the
/// drained queue's need reappears, one frame later, as the need of its
/// survivors and of the tasks it spawned. It also keeps the runtime
/// frame-pure and fault-free.
proof fn lemma_phase_model_horizon<W: World>(m: RuntimeModel<W>, key: u64)
    requires
        m.wf(),
        key_active(m.registry, key),
        runtime_pure(m),
    ensures
        ({
            let m2 = phase_model(m, key);
            &&& horizon(m2) == horizon(m)
            &&& runtime_pure(m2)
            &&& m2.faulted == m.faulted
        }),
{
    let reg = m.registry;
    let h = horizon(m);
    let obs = m.world.observe_spec();
    let slots = ensure_slot(m.slots, key);
    crate::runtime::lemma_ensure_slot_wf(m.slots, key);
    crate::runtime::lemma_ensure_slot_frame(m.slots, key, key);
    let i = slot_index(slots, key);
    let cq = phase_current(m.slots, key);
    let nq = phase_next(m.slots, key);
    assert(slots[i].current == cq);
    assert(slots[i].next == nq);

    assert(queue_pure(cq) && queue_pure(nq)) by {
        let j = choose|j: int| 0 <= j < reg.len() && reg[j].1 == key;
        assert(0 <= j < m.registry.len());
    }

    let d = drain_model(cq, obs);
    lemma_drain_frames(reg, cq, obs);
    let drained = SlotModel { key: slots[i].key, current: Seq::empty(), next: nq + d.survivors };
    let s2 = slots.update(i, drained);
    assert(forall|j: int| 0 <= j < slots.len() ==> s2[j].key == slots[j].key);
    assert(slots_wf(s2));
    let s3 = crate::runtime::place_spawns(s2, d.spawns);
    let m2 = phase_model(m, key);
    assert(m2.slots == s3);
    assert(m2.faulted == m.faulted);
    crate::runtime::lemma_place_spawns_frame(s2, d.spawns, key);

    crate::runtime::lemma_slot_index_unique(s2, key, i);
    assert(phase_next(s2, key) == nq + d.survivors);
    assert(phase_current(s2, key) =~= Seq::<Job<W::Command>>::empty());
    lemma_next_part_concat(reg, nq, d.survivors);
    assert(queue_pure(nq + d.survivors)) by {
        assert(forall|x: int|
            0 <= x < (nq + d.survivors).len() ==> (nq + d.survivors)[x] == (if x < nq.len() {
                nq[x]
            } else {
                d.survivors[x - nq.len()]
            }));
    }
    lemma_horizon_ge_key(reg, m.slots, key);
    assert(key_frames(reg, m.slots, key) == nmax(queue_frames(reg, cq), next_part(reg, nq)));

    // No activated slot needs more than before the step.
    assert forall|j3: int|
        0 <= j3 < s3.len() && key_active(reg, (#[trigger] s3[j3]).key) implies slot_frames(
        reg,
        s3[j3],
    ) <= h by {
        let k2 = s3[j3].key;
        lemma_key_frames_index(reg, s3, j3);
        crate::runtime::lemma_place_spawns_frame(s2, d.spawns, k2);
        if k2 == key {
            lemma_place_spawns_next_le(reg, s2, d.spawns, key);
        } else {
            lemma_update_other(slots, i, drained, k2);
            crate::runtime::lemma_ensure_slot_frame(m.slots, key, k2);
            assert(queue_pure(phase_next(s2, k2))) by {
                let j = choose|j: int| 0 <= j < reg.len() && reg[j].1 == k2;
                assert(0 <= j < m.registry.len());
            }
            lemma_place_spawns_next_le(reg, s2, d.spawns, k2);
            lemma_horizon_ge_key(reg, m.slots, k2);
        }
    }
    lemma_slots_horizon_le(reg, s3, h);

    // And the need is still achieved.
    if h > 0 {
        lemma_slots_horizon_witness(reg, m.slots);
        let j = choose|j: int|
            0 <= j < m.slots.len() && key_active(reg, (#[trigger] m.slots[j]).key) && slot_frames(
                reg,
                m.slots[j],
            ) == h;
        let k0 = m.slots[j].key;
        lemma_key_frames_index(reg, m.slots, j);
        assert(key_frames(reg, m.slots, k0) == h);
        if k0 != key {
            lemma_update_other(slots, i, drained, k0);
            crate::runtime::lemma_ensure_slot_frame(m.slots, key, k0);
            crate::runtime::lemma_place_spawns_frame(s2, d.spawns, k0);
            assert(phase_current(s3, k0) == phase_current(m.slots, k0));
            lemma_next_part_prefix(reg, phase_next(s2, k0), phase_next(s3, k0));
            lemma_horizon_ge_key(reg, s3, k0);
            assert(slots_horizon(reg, s3) >= h);
        } else {
            lemma_next_part_prefix(reg, phase_next(s2, key), phase_next(s3, key));
            if next_part(reg, nq) == h || next_part(reg, d.survivors) == h {
                lemma_horizon_ge_key(reg, s3, key);
                assert(slots_horizon(reg, s3) >= h);
            } else {
                assert(queue_frames(reg, cq) == h);
                assert(spawn_horizon(reg, d.spawns) == h);
                lemma_spawn_horizon_witness(reg, d.spawns);
                let w = choose|w: int|
                    0 <= w < d.spawns.len() && key_active(reg, (#[trigger] d.spawns[w]).phase) && 1
                        + frames_of(reg, d.spawns[w].job) == spawn_horizon(reg, d.spawns);
                lemma_place_spawns_reach(reg, s2, d.spawns, w);
                lemma_horizon_ge_key(reg, s3, d.spawns[w].phase);
                assert(slots_horizon(reg, s3) >= h);
            }
        }
    }
    assert(horizon(m2) == h);

    // The step keeps every activated phase frame-pure.
    assert(runtime_pure(m2)) by {
        assert forall|j: int| 0 <= j < m2.registry.len() implies {
            let k2 = (#[trigger] m2.registry[j]).1;
            queue_pure(phase_current(m2.slots, k2)) && queue_pure(phase_next(m2.slots, k2))
        } by {
            let k2 = m2.registry[j].1;
            assert(key_active(reg, k2)) by {
                assert(0 <= j < reg.len() && reg[j].1 == k2);
            }
            crate::runtime::lemma_place_spawns_frame(s2, d.spawns, k2);
            if k2 == key {
                lemma_place_spawns_next_le(reg, s2, d.spawns, key);
                assert(queue_pure(phase_current(s3, key))) by {
                    assert(phase_current(s3, key) == phase_current(s2, key));
                }
            } else {
                lemma_update_other(slots, i, drained, k2);
                crate::runtime::lemma_ensure_slot_frame(m.slots, key, k2);
                assert(queue_pure(phase_next(s2, k2)) && queue_pure(phase_current(s2, k2))) by {
                    assert(0 <= j < m.registry.len());
                }
                lemma_place_spawns_next_le(reg, s2, d.spawns, k2);
            }
        }
    }
}

/// Processing every phase of a frame leaves the runtime's frame need
/// exactly as it stood, and keeps it frame-pure and fault-free.
proof fn lemma_phases_horizon<W: World>(m: RuntimeModel<W>, i: int)
    requires
        m.wf(),
        runtime_pure(m),
        0 <= i <= m.registry.len(),
    ensures
        ({
            let r = phases_model(m, i);
            &&& horizon(r) == horizon(m)
            &&& runtime_pure(r)
            &&& r.faulted == m.faulted
        }),
    decreases m.registry.len() - i,
{
    if i < m.registry.len() {
        let key = m.registry[i].1;
        assert(key_active(m.registry, key)) by {
            assert(0 <= i < m.registry.len() && m.registry[i].1 == key);
        }
        lemma_phase_model_horizon(m, key);
        lemma_phase_model_frame(m, key, 0);
        lemma_phases_horizon(phase_model(m, key), i + 1);
    }
}

/// Frame accounting, one frame at a time: over frame-pure tasks, a frame
/// reports done exactly when no activated task needs a frame, leaving the
/// counter untouched; otherwise it advances the counter by one and the
/// runtime then needs exactly one frame fewer. No fault ever arises.
pub proof fn lemma_frame_horizon<W: World>(m: RuntimeModel<W>)
    requires
        m.wf(),
        runtime_pure(m),
    ensures
        frame_model(m).1 <==> horizon(m) == 0,
        frame_model(m).0.faulted == m.faulted,
        frame_model(m).1 ==> frame_model(m).0.frame_counter == m.frame_counter,
        !frame_model(m).1 ==> {
            &&& frame_model(m).0.frame_counter == (m.frame_counter + 1) as u64
            &&& horizon(frame_model(m).0) == (horizon(m) - 1) as nat
            &&& frame_model(m).0.wf()
            &&& runtime_pure(frame_model(m).0)
        },
{
    let reg = m.registry;
    let h = horizon(m);
    let m1 = phases_model(m, 0);
    lemma_phases_frame(m, 0, 0);
    lemma_phases_horizon(m, 0);

    // After the phases, every activated phase's current queue is empty.
    assert forall|j: int|
        0 <= j < m1.slots.len() && key_active(reg, (#[trigger] m1.slots[j]).key) implies {
        &&& m1.slots[j].current == Seq::<Job<W::Command>>::empty()
        &&& m1.slots[j].next == phase_next(m1.slots, m1.slots[j].key)
    } by {
        let k = m1.slots[j].key;
        assert(key_active_from(reg, 0, k));
        lemma_phases_frame(m, 0, k);
        crate::runtime::lemma_slot_index_unique(m1.slots, k, j);
    }

    // The frame is done exactly when no activated task needs a frame.
    if h > 0 {
        lemma_slots_horizon_witness(reg, m1.slots);
        let j = choose|j: int|
            0 <= j < m1.slots.len() && key_active(reg, (#[trigger] m1.slots[j]).key)
                && slot_frames(reg, m1.slots[j]) == horizon(m1);
        let k = m1.slots[j].key;
        assert(queue_frames(reg, m1.slots[j].current) == 0);
        assert(next_part(reg, m1.slots[j].next) == h);
        assert(m1.slots[j].next.len() > 0);
        assert(!active_next_empty(m1)) by {
            let w = choose|w: int| 0 <= w < reg.len() && reg[w].1 == k;
            crate::runtime::lemma_slot_index_unique(m1.slots, k, j);
            assert(crate::runtime::phase_next_len(m1.slots, m1.registry[w].1) != 0);
        }
    } else {
        assert(active_next_empty(m1)) by {
            assert forall|w: int|
                0 <= w < m1.registry.len() implies crate::runtime::phase_next_len(
                m1.slots,
                (#[trigger] m1.registry[w]).1,
            ) == 0 by {
                let k = m1.registry[w].1;
                assert(key_active(reg, k)) by {
                    assert(0 <= w < reg.len() && reg[w].1 == k);
                }
                lemma_horizon_ge_key(reg, m1.slots, k);
                assert(next_part(reg, phase_next(m1.slots, k)) == 0);
            }
        }
    }

    if !frame_model(m).1 {
        let rotated = rotate_slots(reg, m1.slots);
        let m2 = frame_model(m).0;
        assert(m2.slots == rotated);
        assert(forall|j: int|
            0 <= j < m1.slots.len() ==> (#[trigger] rotated[j]).key == m1.slots[j].key && (
            key_active(reg, m1.slots[j].key) ==> rotated[j] == (SlotModel {
                key: m1.slots[j].key,
                current: m1.slots[j].next,
                next: m1.slots[j].current,
            })) && (!key_active(reg, m1.slots[j].key) ==> rotated[j] == m1.slots[j]));
        assert(slots_wf(rotated)) by {
            assert forall|a: int, b: int|
                0 <= a < b < rotated.len() implies rotated[a].key != rotated[b].key by {
                assert(rotated[a].key == m1.slots[a].key);
                assert(rotated[b].key == m1.slots[b].key);
            }
        }

        // Every activated slot of the rotated runtime needs one fewer frame,
        // and the one that achieved the horizon still achieves it.
        assert forall|j: int|
            0 <= j < rotated.len() && key_active(reg, (#[trigger] rotated[j]).key) implies {
            &&& slot_frames(reg, rotated[j]) <= (h - 1) as nat
            &&& (slot_frames(reg, m1.slots[j]) == h ==> slot_frames(reg, rotated[j]) == (h
                - 1) as nat)
        } by {
            lemma_slots_horizon_ge(reg, m1.slots, j);
            assert(queue_frames(reg, m1.slots[j].current) == 0);
            assert(queue_frames(reg, Seq::<Job<W::Command>>::empty()) == 0);
        }
        lemma_slots_horizon_le(reg, rotated, (h - 1) as nat);
        lemma_slots_horizon_witness(reg, m1.slots);
        let j = choose|j: int|
            0 <= j < m1.slots.len() && key_active(reg, (#[trigger] m1.slots[j]).key)
                && slot_frames(reg, m1.slots[j]) == horizon(m1);
        lemma_slots_horizon_ge(reg, rotated, j);
        assert(horizon(m2) == (h - 1) as nat);

        // The rotated runtime is still frame-pure.
        assert(runtime_pure(m2)) by {
            assert forall|w: int| 0 <= w < m2.registry.len() implies {
                let k = (#[trigger] m2.registry[w]).1;
                queue_pure(phase_current(m2.slots, k)) && queue_pure(phase_next(m2.slots, k))
            } by {
                let k = m2.registry[w].1;
                assert(key_active(reg, k)) by {
                    assert(0 <= w < reg.len() && reg[w].1 == k);
                }
                assert(key_active_from(reg, 0, k));
                lemma_phases_frame(m, 0, k);
                let j1 = slot_index(m1.slots, k);
                assert(0 <= j1 < m1.slots.len() && m1.slots[j1].key == k);
                crate::runtime::lemma_slot_index_unique(rotated, k, j1);
                assert(phase_current(m2.slots, k) == phase_next(m1.slots, k));
            }
        }
    }
}

/// How a runtime evolves over at most `fuel` frames: frames are run until
/// one reports done; that final frame's state is kept.
pub open spec fn run_model<W: World>(m: RuntimeModel<W>, fuel: nat) -> RuntimeModel<W>
    decreases fuel,
{
    if fuel == 0 {
        m
    } else if frame_model(m).1 {
        frame_model(m).0
    } else {
        run_model(frame_model(m).0, (fuel - 1) as nat)
    }
}

/// Frame accounting over a whole run: driving a runtime of frame-pure
/// tasks to done advances the frame counter by exactly the horizon — the
/// most frames any task of an activated phase awaits, spawned tasks
/// included — and the final frame and all later ones report done.
pub proof fn lemma_frame_accounting<W: World>(m: RuntimeModel<W>, fuel: nat)
    requires
        m.wf(),
        runtime_pure(m),
        fuel > horizon(m),
        m.frame_counter + horizon(m) <= u64::MAX,
    ensures
        run_model(m, fuel).frame_counter == m.frame_counter + horizon(m),
        run_model(m, fuel).faulted == m.faulted,
        frame_model(run_model(m, fuel)).1,
    decreases fuel,
{
    lemma_frame_horizon(m);
    if horizon(m) == 0 {
        lemma_done_is_idempotent(m);
    } else {
        lemma_frame_accounting(frame_model(m).0, (fuel - 1) as nat);
    }
}

/// A runtime none of whose tasks awaits the next frame reports done on its
/// first frame, with the frame counter untouched: computations that never
/// yield cost no frame.
pub proof fn lemma_zero_frame_computation<W: World>(m: RuntimeModel<W>)
    requires
        m.wf(),
        runtime_pure(m),
        horizon(m) == 0,
    ensures
        frame_model(m).1,
        frame_model(m).0.frame_counter == m.frame_counter,
{
    lemma_frame_horizon(m);
}

/// The footprint one phase adds to the runtime: the weight of its queues,
/// counted only when the phase is activated — tasks of inactive phases
/// never run.
pub open spec fn slot_load<C>(reg: Seq<(u16, u64)>, s: SlotModel<C>) -> nat {
    if key_active(reg, s.key) {
        crate::queue::queue_weight(s.current) + crate::queue::queue_weight(s.next)
    } else {
        0
    }
}

/// The total footprint of the activated tasks.
pub open spec fn slots_load<C>(reg: Seq<(u16, u64)>, slots: Seq<SlotModel<C>>) -> nat
    decreases slots.len(),
{
    if slots.len() == 0 {
        0
    } else {
        slots_load(reg, slots.drop_last()) + slot_load(reg, slots.last())
    }
}

/// The total footprint of the runtime's activated tasks.
pub open spec fn active_load<W: World>(m: RuntimeModel<W>) -> nat {
    slots_load(m.registry, m.slots)
}

/// How many activated tasks sit in next-frame queues.
pub open spec fn slot_pending<C>(reg: Seq<(u16, u64)>, s: SlotModel<C>) -> nat {
    if key_active(reg, s.key) {
        s.next.len()
    } else {
        0
    }
}

/// Their total.
pub open spec fn slots_pending<C>(reg: Seq<(u16, u64)>, slots: Seq<SlotModel<C>>) -> nat
    decreases slots.len(),
{
    if slots.len() == 0 {
        0
    } else {
        slots_pending(reg, slots.drop_last()) + slot_pending(reg, slots.last())
    }
}

/// How many of the runtime's activated tasks await the next frame.
pub open spec fn active_pending<W: World>(m: RuntimeModel<W>) -> nat {
    slots_pending(m.registry, m.slots)
}

/// Replacing one slot changes the load by that slot's difference.
proof fn lemma_slots_load_update<C>(
    reg: Seq<(u16, u64)>,
    slots: Seq<SlotModel<C>>,
    i: int,
    x: SlotModel<C>,
)
    requires
        0 <= i < slots.len(),
    ensures
        slots_load(reg, slots.update(i, x)) + slot_load(reg, slots[i]) == slots_load(reg, slots)
            + slot_load(reg, x),
        slots_pending(reg, slots.update(i, x)) + slot_pending(reg, slots[i]) == slots_pending(
            reg,
            slots,
        ) + slot_pending(reg, x),
    decreases slots.len(),
{
    let s2 = slots.update(i, x);
    if i == slots.len() - 1 {
        assert(s2.drop_last() =~= slots.drop_last());
        assert(s2.last() == x);
    } else {
        assert(s2.drop_last() =~= slots.drop_last().update(i, x));
        assert(s2.last() == slots.last());
        lemma_slots_load_update(reg, slots.drop_last(), i, x);
        assert(slots.drop_last()[i] == slots[i]);
    }
}

/// Appending a slot adds its load.
proof fn lemma_slots_load_push<C>(reg: Seq<(u16, u64)>, slots: Seq<SlotModel<C>>, x: SlotModel<C>)
    ensures
        slots_load(reg, slots.push(x)) == slots_load(reg, slots) + slot_load(reg, x),
        slots_pending(reg, slots.push(x)) == slots_pending(reg, slots) + slot_pending(reg, x),
{
    assert(slots.push(x).drop_last() =~= slots);
    assert(slots.push(x).last() == x);
}

/// The pending count is at least any one slot's contribution.
proof fn lemma_slots_pending_ge<C>(reg: Seq<(u16, u64)>, slots: Seq<SlotModel<C>>, j: int)
    requires
        0 <= j < slots.len(),
    ensures
        slots_pending(reg, slots) >= slot_pending(reg, slots[j]),
    decreases slots.len(),
{
    if j == slots.len() - 1 {
        assert(slots[j] == slots.last());
    } else {
        assert(slots.drop_last()[j] == slots[j]);
        lemma_slots_pending_ge(reg, slots.drop_last(), j);
    }
}

/// When no activated slot holds a pending task the count is zero.
proof fn lemma_slots_pending_zero<C>(reg: Seq<(u16, u64)>, slots: Seq<SlotModel<C>>)
    requires
        forall|j: int|
            0 <= j < slots.len() ==> slot_pending(reg, #[trigger] slots[j]) == 0,
    ensures
        slots_pending(reg, slots) == 0,
    decreases slots.len(),
{
    if slots.len() != 0 {
        assert(forall|j: int| 0 <= j < slots.len() - 1 ==> slots.drop_last()[j] == slots[j]);
        lemma_slots_pending_zero(reg, slots.drop_last());
        assert(slots[slots.len() - 1] == slots.last());
    }
}

/// Rotation moves weight between a slot's queues but neither adds nor
/// drops any.
proof fn lemma_rotate_load<C>(reg: Seq<(u16, u64)>, slots: Seq<SlotModel<C>>)
    ensures
        slots_load(reg, rotate_slots(reg, slots)) == slots_load(reg, slots),
    decreases slots.len(),
{
    if slots.len() != 0 {
        let r = rotate_slots(reg, slots);
        assert(r.drop_last() =~= rotate_slots(reg, slots.drop_last()));
        lemma_rotate_load(reg, slots.drop_last());
        assert(r.last() == (if key_active(reg, slots.last().key) {
            SlotModel {
                key: slots.last().key,
                current: slots.last().next,
                next: slots.last().current,
            }
        } else {
            slots.last()
        }));
    }
}

/// Filing one spawn request adds at most the spawned task's weight.
proof fn lemma_place_spawn_load<C>(reg: Seq<(u16, u64)>, s: Seq<SlotModel<C>>, req: SpawnRequest<C>)
    requires
        slots_wf(s),
    ensures
        slots_load(reg, crate::runtime::place_spawn(s, req)) <= slots_load(reg, s) + crate::task::weight(
            req.job,
        ),
{
    let se = ensure_slot(s, req.phase);
    crate::runtime::lemma_ensure_slot_wf(s, req.phase);
    if !has_slot(s, req.phase) {
        lemma_slots_load_push(
            reg,
            s,
            SlotModel { key: req.phase, current: Seq::empty(), next: Seq::empty() },
        );
        assert(crate::queue::queue_weight(Seq::<Job<C>>::empty()) == 0);
    }
    let i = slot_index(se, req.phase);
    let x = SlotModel {
        key: se[i].key,
        current: se[i].current,
        next: se[i].next.push(req.job),
    };
    lemma_slots_load_update(reg, se, i, x);
    assert(se[i].next.push(req.job) =~= se[i].next + seq![req.job]);
    crate::queue::lemma_queue_weight_concat(se[i].next, seq![req.job]);
    assert(crate::queue::queue_weight(seq![req.job]) == crate::task::weight(req.job)) by {
        assert(seq![req.job].drop_last() =~= Seq::<Job<C>>::empty());
        assert(crate::queue::queue_weight(Seq::<Job<C>>::empty()) == 0);
        assert(seq![req.job].last() == req.job);
    }
}

/// Filing a batch of spawn requests adds at most the batch's weight.
proof fn lemma_place_spawns_load<C>(
    reg: Seq<(u16, u64)>,
    s: Seq<SlotModel<C>>,
    reqs: Seq<SpawnRequest<C>>,
)
    requires
        slots_wf(s),
    ensures
        slots_load(reg, crate::runtime::place_spawns(s, reqs)) <= slots_load(reg, s)
            + crate::task::spawns_weight(reqs),
    decreases reqs.len(),
{
    if reqs.len() != 0 {
        lemma_place_spawn_load(reg, s, reqs.first());
        crate::runtime::lemma_place_spawn_frame(s, reqs.first(), 0);
        lemma_place_spawns_load(reg, crate::runtime::place_spawn(s, reqs.first()), reqs.drop_first());
    }
}

/// One phase step never adds to the activated tasks' footprint, and a
/// phase whose current queue holds a task strictly shrinks it.
proof fn lemma_phase_model_load<W: World>(m: RuntimeModel<W>, key: u64)
    requires
        m.wf(),
        key_active(m.registry, key),
    ensures
        active_load(phase_model(m, key)) <= active_load(m),
        phase_current(m.slots, key).len() > 0 ==> active_load(phase_model(m, key)) < active_load(
            m,
        ),
{
    let reg = m.registry;
    let obs = m.world.observe_spec();
    let slots = ensure_slot(m.slots, key);
    crate::runtime::lemma_ensure_slot_wf(m.slots, key);
    crate::runtime::lemma_ensure_slot_frame(m.slots, key, key);
    if !has_slot(m.slots, key) {
        lemma_slots_load_push(
            reg,
            m.slots,
            SlotModel { key, current: Seq::empty(), next: Seq::empty() },
        );
        assert(crate::queue::queue_weight(Seq::<Job<W::Command>>::empty()) == 0);
    }
    let i = slot_index(slots, key);
    let cq = phase_current(m.slots, key);
    let nq = phase_next(m.slots, key);
    assert(slots[i].current == cq);
    assert(slots[i].next == nq);
    let d = drain_model(cq, obs);
    crate::queue::lemma_drain_shrinks(cq, obs);
    let drained = SlotModel { key: slots[i].key, current: Seq::empty(), next: nq + d.survivors };
    lemma_slots_load_update(reg, slots, i, drained);
    crate::queue::lemma_queue_weight_concat(nq, d.survivors);
    assert(crate::queue::queue_weight(Seq::<Job<W::Command>>::empty()) == 0);
    let s2 = slots.update(i, drained);
    assert(forall|j: int| 0 <= j < slots.len() ==> s2[j].key == slots[j].key);
    assert(slots_wf(s2));
    lemma_place_spawns_load(reg, s2, d.spawns);
    if cq.len() > 0 {
        crate::queue::lemma_weight_pos(cq.last());
        assert(crate::queue::queue_weight(cq) >= 1);
    }
}

/// Processing the phases of a frame never adds to the activated tasks'
/// footprint; it strictly shrinks it when any activated phase has work,
/// and changes neither the footprint nor the pending count when none has.
proof fn lemma_phases_load<W: World>(m: RuntimeModel<W>, i: int)
    requires
        m.wf(),
        0 <= i <= m.registry.len(),
    ensures
        ({
            let r = phases_model(m, i);
            &&& active_load(r) <= active_load(m)
            &&& ((exists|j: int|
                i <= j < m.registry.len() && phase_current(
                    m.slots,
                    (#[trigger] m.registry[j]).1,
                ).len() > 0) ==> active_load(r) < active_load(m))
            &&& ((forall|j: int|
                i <= j < m.registry.len() ==> phase_current(
                    m.slots,
                    (#[trigger] m.registry[j]).1,
                ).len() == 0) ==> active_load(r) == active_load(m) && active_pending(r)
                == active_pending(m))
        }),
    decreases m.registry.len() - i,
{
    if i < m.registry.len() {
        let key = m.registry[i].1;
        assert(key_active(m.registry, key)) by {
            assert(0 <= i < m.registry.len() && m.registry[i].1 == key);
        }
        let m2 = phase_model(m, key);
        lemma_phase_model_frame(m, key, 0);
        lemma_phase_model_load(m, key);
        lemma_phases_load(m2, i + 1);
        if phase_current(m.slots, key).len() == 0 {
            if has_slot(m.slots, key) {
                lemma_phase_model_noop(m, key);
                assert(m2 == m);
            } else {
                lemma_phase_model_creates(m, key);
                let empty_slot = SlotModel {
                    key,
                    current: Seq::<Job<W::Command>>::empty(),
                    next: Seq::<Job<W::Command>>::empty(),
                };
                lemma_slots_load_push(m.registry, m.slots, empty_slot);
                assert(crate::queue::queue_weight(Seq::<Job<W::Command>>::empty()) == 0);
                assert forall|k2: u64| true implies phase_current(m2.slots, k2) == phase_current(
                    m.slots,
                    k2,
                ) && phase_next(m2.slots, k2) == phase_next(m.slots, k2) by {
                    if k2 == key {
                        crate::runtime::lemma_slot_index_unique(
                            m2.slots,
                            key,
                            m.slots.len() as int,
                        );
                        assert(phase_current(m.slots, k2) =~= Seq::<Job<W::Command>>::empty());
                        assert(phase_next(m.slots, k2) =~= Seq::<Job<W::Command>>::empty());
                    } else {
                        if has_slot(m.slots, k2) {
                            let jj = slot_index(m.slots, k2);
                            crate::runtime::lemma_slot_index_unique(m2.slots, k2, jj);
                        } else {
                            if has_slot(m2.slots, k2) {
                                let jj = slot_index(m2.slots, k2);
                                assert(jj < m.slots.len() ==> m.slots[jj].key == k2);
                            }
                        }
                    }
                }
            }
        }
    }
}

/// A phase with no queues yet is merely given empty ones by its step.
proof fn lemma_phase_model_creates<W: World>(m: RuntimeModel<W>, key: u64)
    requires
        m.wf(),
        !has_slot(m.slots, key),
    ensures
        phase_model(m, key) == (RuntimeModel {
            slots: m.slots.push(
                SlotModel {
                    key,
                    current: Seq::<Job<W::Command>>::empty(),
                    next: Seq::<Job<W::Command>>::empty(),
                },
            ),
            ..m
        }),
{
    let slots = ensure_slot(m.slots, key);
    crate::runtime::lemma_ensure_slot_wf(m.slots, key);
    let i = slot_index(slots, key);
    crate::runtime::lemma_slot_index_unique(slots, key, m.slots.len() as int);
    assert(slots[i].current =~= Seq::<Job<W::Command>>::empty());
    let d = drain_model(slots[i].current, m.world.observe_spec());
    let drained = SlotModel {
        key: slots[i].key,
        current: Seq::empty(),
        next: slots[i].next + d.survivors,
    };
    assert(drained == slots[i]) by {
        assert(slots[i].next + d.survivors =~= slots[i].next);
        assert(drained.current =~= slots[i].current);
    }
    assert(slots.update(i, drained) =~= slots);
    assert(slots_wf(slots));
    crate::runtime::lemma_place_spawns_frame(slots, d.spawns, key);
    assert(apply_all(m.world, d.commands) == m.world);
}

/// The runtime always runs down: a frame that does not report done
/// strictly decreases the pair (activated footprint, pending count) — so
/// any embedder loop that updates until done terminates, whatever the
/// tasks do.
pub proof fn lemma_frame_terminates<W: World>(m: RuntimeModel<W>)
    requires
        m.wf(),
    ensures
        active_load(frame_model(m).0) <= active_load(m),
        !frame_model(m).1 ==> (active_load(frame_model(m).0) < active_load(m) || active_pending(
            frame_model(m).0,
        ) < active_pending(m)),
{
    let reg = m.registry;
    let m1 = phases_model(m, 0);
    lemma_phases_frame(m, 0, 0);
    lemma_phases_load(m, 0);

    // After the phases, every activated slot's current queue is empty.
    assert forall|j: int|
        0 <= j < m1.slots.len() && key_active(reg, (#[trigger] m1.slots[j]).key) implies m1.slots[j].current
        == Seq::<Job<W::Command>>::empty() by {
        let k = m1.slots[j].key;
        assert(key_active_from(reg, 0, k));
        lemma_phases_frame(m, 0, k);
        crate::runtime::lemma_slot_index_unique(m1.slots, k, j);
    }

    if !frame_model(m).1 {
        let rotated = rotate_slots(reg, m1.slots);
        let m2 = frame_model(m).0;
        assert(m2.slots == rotated);
        lemma_rotate_load(reg, m1.slots);

        // After the rotation no activated task is pending: every activated
        // next queue took over an emptied current queue.
        assert(active_pending(m2) == 0) by {
            assert forall|j: int|
                0 <= j < rotated.len() implies slot_pending(reg, #[trigger] rotated[j]) == 0 by {
                assert(rotated[j].key == m1.slots[j].key);
                if key_active(reg, m1.slots[j].key) {
                    assert(rotated[j].next == m1.slots[j].current);
                }
            }
            lemma_slots_pending_zero(reg, rotated);
        }

        if exists|j: int|
            0 <= j < reg.len() && phase_current(m.slots, (#[trigger] reg[j]).1).len() > 0 {
            assert(active_load(m1) < active_load(m));
        } else {
            assert(forall|j: int|
                0 <= j < reg.len() ==> phase_current(m.slots, (#[trigger] reg[j]).1).len() == 0);
            assert(active_load(m1) == active_load(m) && active_pending(m1) == active_pending(m));
            // Not done, so some activated next queue is occupied.
            assert(!active_next_empty(m1));
            let w = choose|w: int|
                0 <= w < reg.len() && crate::runtime::phase_next_len(m1.slots, (#[trigger] m1.registry[w]).1)
                    != 0;
            let k = reg[w].1;
            assert(has_slot(m1.slots, k));
            let jj = slot_index(m1.slots, k);
            assert(key_active(reg, k)) by {
                assert(0 <= w < reg.len() && reg[w].1 == k);
            }
            lemma_slots_pending_ge(reg, m1.slots, jj);
            assert(active_pending(m1) >= 1);
            assert(active_pending(m2) < active_pending(m));
        }
    }
}

/// No task is ever duplicated: draining a queue leaves at most as many
/// suspended tasks as it started with, so together with the exact queue
/// accounting of a frame, every task occupies exactly one queue slot.
pub proof fn lemma_drain_no_duplication<C>(q: Seq<Job<C>>, obs: u64)
    ensures
        drain_model(q, obs).survivors.len() <= q.len(),
    decreases crate::queue::queue_weight(q),
{
    if q.len() != 0 {
        let mp = poll_model(q.last(), obs);
        crate::queue::lemma_weight_pos(q.last());
        crate::task::lemma_poll_shrinks(q.last(), obs);
        if mp.done {
            lemma_drain_no_duplication(q.drop_last(), obs);
        } else if mp.woke {
            let q2 = q.drop_last().push(mp.rest);
            assert(q2.drop_last() =~= q.drop_last());
            lemma_drain_no_duplication(q2, obs);
        } else {
            lemma_drain_no_duplication(q.drop_last(), obs);
        }
    }
}

} // verus!
