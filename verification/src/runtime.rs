//! The frame-paced runtime.
//!
//! A [`Runtime`] owns the world, the phase registry and, for every phase
//! key it has seen, a pair of task queues: the current-frame queue and the
//! next-frame queue. One call to [`Runtime::update`] runs one frame: the
//! activated phases are visited in ascending order; each drains its
//! current-frame queue, then the commands submitted during the phase are
//! applied to the world, so later phases of the same frame observe them.
//! When every activated phase's next-frame queue is empty the runtime
//! reports [`RuntimeIsDone::Done`]; otherwise the queues rotate, the frame
//! counter advances by one, and it reports [`RuntimeIsDone::NotDone`].

use vstd::prelude::*;

use crate::queue::DrainModel;
use crate::queue::drain_model;
use crate::queue::process_tasks;
use crate::task::Job;
use crate::task::SpawnRequest;
use crate::task::StepEffects;
use crate::world::World;
use crate::world::apply_all;

verus! {

/// Whether every suspended task has completed.
#[derive(Clone, Copy, PartialEq, Eq, Structural, Debug)]
pub enum RuntimeIsDone {
    /// Every task of every activated phase has run to completion.
    Done,
    /// At least one task of an activated phase runs in the next frame.
    NotDone,
}

/// The queues of one phase key.
struct PhaseQueues<C> {
    key: u64,
    current: Vec<Job<C>>,
    next: Vec<Job<C>>,
}

/// The specification-level image of one phase's queues.
pub ghost struct SlotModel<C> {
    /// The phase key the queues belong to.
    pub key: u64,
    /// Tasks eligible to run in the frame being processed.
    pub current: Seq<Job<C>>,
    /// Tasks that run in the following frame.
    pub next: Seq<Job<C>>,
}

/// The specification-level image of a whole runtime.
pub ghost struct RuntimeModel<W: World> {
    /// Frames completed so far.
    pub frame_counter: u64,
    /// The shared application state.
    pub world: W,
    /// Activated phases as (order, key) pairs, strictly ascending by order.
    pub registry: Seq<(u16, u64)>,
    /// One queue pair per phase key ever spawned into or processed.
    pub slots: Seq<SlotModel<W::Command>>,
    /// Whether any task has faulted.
    pub faulted: bool,
}

/// Registry orders are strictly ascending (hence pairwise distinct).
pub open spec fn registry_wf(r: Seq<(u16, u64)>) -> bool {
    forall|i: int, j: int| 0 <= i < j < r.len() ==> r[i].0 < r[j].0
}

/// Phase keys own at most one queue pair.
pub open spec fn slots_wf<C>(s: Seq<SlotModel<C>>) -> bool {
    forall|i: int, j: int| 0 <= i < j < s.len() ==> s[i].key != s[j].key
}

/// Whether some queue pair belongs to `key`.
pub open spec fn has_slot<C>(s: Seq<SlotModel<C>>, key: u64) -> bool {
    exists|i: int| 0 <= i < s.len() && s[i].key == key
}

/// The index of the queue pair belonging to `key`.
pub open spec fn slot_index<C>(s: Seq<SlotModel<C>>, key: u64) -> int {
    choose|i: int| 0 <= i < s.len() && s[i].key == key
}

/// The slots, extended with an empty queue pair for `key` if none exists.
pub open spec fn ensure_slot<C>(s: Seq<SlotModel<C>>, key: u64) -> Seq<SlotModel<C>> {
    if has_slot(s, key) {
        s
    } else {
        s.push(SlotModel { key, current: Seq::empty(), next: Seq::empty() })
    }
}

impl<W: World> RuntimeModel<W> {
    /// Well-formedness: ascending registry and unique queue ownership.
    pub open spec fn wf(self) -> bool {
        registry_wf(self.registry) && slots_wf(self.slots)
    }
}

impl<W: World> View for Runtime<W> {
    type V = RuntimeModel<W>;

    closed spec fn view(&self) -> RuntimeModel<W> {
        RuntimeModel {
            frame_counter: self.frame_counter,
            world: self.world,
            registry: self.registry@,
            slots: slots_view(self.slots),
            faulted: self.faulted,
        }
    }
}

/// Whether some phase is already registered at `order`.
pub open spec fn order_taken(reg: Seq<(u16, u64)>, order: u16) -> bool {
    exists|i: int| 0 <= i < reg.len() && reg[i].0 == order
}

/// The runtime: world, phase registry, queues, frame counter.
pub struct Runtime<W: World> {
    frame_counter: u64,
    world: W,
    registry: Vec<(u16, u64)>,
    slots: Vec<PhaseQueues<W::Command>>,
    faulted: bool,
}

impl<W: World> Runtime<W> {
    /// A fresh runtime owning `world`: no phases, no tasks, frame zero.
    pub fn new(world: W) -> (r: Self)
        ensures
            r@.wf(),
            r@.frame_counter == 0,
            r@.world == world,
            r@.registry == Seq::<(u16, u64)>::empty(),
            r@.slots == Seq::<SlotModel<W::Command>>::empty(),
            !r@.faulted,
    {
        let r = Runtime {
            frame_counter: 0,
            world,
            registry: Vec::new(),
            slots: Vec::new(),
            faulted: false,
        };
        proof {
            assert(r@.registry =~= Seq::<(u16, u64)>::empty());
            assert(r@.slots =~= Seq::<SlotModel<W::Command>>::empty());
        }
        r
    }

    /// Frames completed so far; zero at construction, incremented once per
    /// frame that ended in [`RuntimeIsDone::NotDone`].
    pub fn frame_counter(&self) -> (r: u64)
        ensures
            r == self@.frame_counter,
    {
        self.frame_counter
    }

    /// Whether any task has failed an expectation so far.
    pub fn has_fault(&self) -> (r: bool)
        ensures
            r == self@.faulted,
    {
        self.faulted
    }

    /// Read the world.
    pub fn world(&self) -> (r: &W)
        ensures
            *r == self@.world,
    {
        &self.world
    }

    /// The key of the phase registered at `order`, if any.
    ///
    /// Activating a phase at a taken order is a fatal misuse
    /// ([`Runtime::activate_phase`] forbids it outright); the embedder uses
    /// this query to detect the misuse and abort with a diagnostic naming
    /// the key this function returns.
    pub fn registered_at(&self, order: u16) -> (r: Option<u64>)
        ensures
            (r is Some) == order_taken(self@.registry, order),
            match r {
                Some(k) => exists|i: int|
                    0 <= i < self@.registry.len() && self@.registry[i] == (order, k),
                None => !order_taken(self@.registry, order),
            },
    {
        let ghost reg = self.registry@;
        let n = self.registry.len();
        let mut i: usize = 0;
        while i < n
            invariant
                n == self.registry.len(),
                self.registry@ == reg,
                0 <= i <= n,
                forall|j: int| 0 <= j < i ==> reg[j].0 != order,
            decreases n - i,
        {
            if self.registry[i].0 == order {
                proof {
                    assert(order_taken(reg, order)) by {
                        assert(0 <= i < reg.len() && reg[i as int].0 == order);
                    }
                }
                return Some(self.registry[i].1);
            }
            i = i + 1;
        }
        proof {
            assert(!order_taken(reg, order));
        }
        None
    }

    /// Activate the phase `key` at `order`. Phases run each frame in
    /// ascending order of activation order.
    ///
    /// Registering two phases at one order is a fatal, unrecoverable
    /// misuse and is excluded by precondition: the embedder checks with
    /// [`Runtime::registered_at`] and aborts, reporting the key registered
    /// there first. Deactivation is not supported; the registry only grows.
    pub fn activate_phase(&mut self, key: u64, order: u16)
        requires
            old(self)@.wf(),
            !order_taken(old(self)@.registry, order),
        ensures
            final(self)@.wf(),
            final(self)@.frame_counter == old(self)@.frame_counter,
            final(self)@.world == old(self)@.world,
            final(self)@.slots == old(self)@.slots,
            final(self)@.faulted == old(self)@.faulted,
            exists|i: int|
                0 <= i <= old(self)@.registry.len() && final(self)@.registry == old(
                    self,
                )@.registry.insert(i, (order, key)),
    {
        let ghost reg0 = self.registry@;
        let mut i: usize = 0;
        while i < self.registry.len() && self.registry[i].0 < order
            invariant
                self.registry@ == reg0,
                0 <= i <= reg0.len(),
                forall|j: int| 0 <= j < i ==> reg0[j].0 < order,
            decreases reg0.len() - i,
        {
            i = i + 1;
        }
        proof {
            // No registered order equals `order` (the precondition), so the
            // entry at position `i`, if any, strictly exceeds it.
            assert forall|j: int| 0 <= j < reg0.len() implies reg0[j].0 != order by {
                if reg0[j].0 == order {
                    assert(order_taken(reg0, order)) by {
                        assert(0 <= j < reg0.len() && reg0[j].0 == order);
                    }
                }
            }
        }
        self.registry.insert(i, (order, key));
        proof {
            let regv = self@.registry;
            assert(regv == reg0.insert(i as int, (order, key)));
            assert forall|a: int, b: int| 0 <= a < b < regv.len() implies regv[a].0 < regv[b].0 by {
                if a < i && b > i {
                    assert(reg0[a].0 < order);
                    assert(regv[b] == reg0[b - 1]);
                } else if a == i && b > i {
                    assert(regv[b] == reg0[b - 1]);
                    assert(reg0[b - 1].0 >= reg0[i as int].0);
                } else if b == i {
                    assert(regv[a] == reg0[a]);
                }
            }
        }
    }

    /// Spawn a task into the phase `key`: it joins the phase's
    /// current-frame queue and runs the next time that phase is processed
    /// (frame zero when spawned before the first update). The phase need
    /// not be activated; tasks spawned into an inactive phase rest
    /// untouched until the phase is activated.
    pub fn spawn(&mut self, key: u64, job: Job<W::Command>)
        requires
            old(self)@.wf(),
        ensures
            final(self)@.wf(),
            final(self)@ == (RuntimeModel {
                slots: spawn_model(old(self)@.slots, key, job),
                ..old(self)@
            }),
    {
        let ghost slots0 = self@.slots;
        let i = slot_position(&mut self.slots, key);
        proof {
            assert(self@ == RuntimeModel { slots: ensure_slot(slots0, key), ..old(self)@ });
        }
        let ghost slots1 = self@.slots;
        let slot = &mut self.slots[i];
        slot.current.push(job);
        proof {
            let target = SlotModel {
                key: slots1[i as int].key,
                current: slots1[i as int].current.push(job),
                next: slots1[i as int].next,
            };
            assert(self@.slots =~= slots1.update(i as int, target));
            lemma_ensure_slot_wf(slots0, key);
        }
    }

    /// Run one frame. Phases are processed in ascending activation order:
    /// each drains its current-frame queue, routing every polled task by
    /// its outcome, and then the commands submitted during the phase are
    /// applied to the world. Returns [`RuntimeIsDone::Done`], changing
    /// nothing further, when every activated phase's next-frame queue
    /// is empty; otherwise rotates the activated phases' queues,
    /// increments the frame counter and returns [`RuntimeIsDone::NotDone`].
    pub fn update(&mut self) -> (r: RuntimeIsDone)
        requires
            old(self)@.wf(),
            old(self)@.frame_counter < u64::MAX,
        ensures
            final(self)@.wf(),
            final(self)@ == frame_model(old(self)@).0,
            (r is Done) == frame_model(old(self)@).1,
    {
        let ghost m0 = self@;
        let mut idx: usize = 0;
        while idx < self.registry.len()
            invariant
                self@.wf(),
                self@.registry == m0.registry,
                self@.frame_counter == m0.frame_counter,
                0 <= idx <= m0.registry.len(),
                phases_model(self@, idx as int) == phases_model(m0, 0),
            decreases m0.registry.len() - idx,
        {
            let key = self.registry[idx].1;
            let ghost m_pre = self@;

            // Bring the phase's queues into being and take its current queue.
            let si = slot_position(&mut self.slots, key);
            let ghost slots_e = ensure_slot(m_pre.slots, key);
            let mut taken: Vec<Job<W::Command>> = Vec::new();
            let slot = &mut self.slots[si];
            core::mem::swap(&mut taken, &mut slot.current);
            proof {
                assert(slots_view(self.slots) =~= slots_e.update(
                    si as int,
                    SlotModel {
                        key: slots_e[si as int].key,
                        current: Seq::empty(),
                        next: slots_e[si as int].next,
                    },
                ));
            }

            // Drain it against the world as it stands.
            let ghost obs_spec = m_pre.world.observe_spec();
            let obs = self.world.observe();
            let mut fx = StepEffects::new();
            let mut survivors = process_tasks(taken, obs, &mut fx);
            let ghost d = drain_model(slots_e[si as int].current, obs_spec);

            // Survivors run in the next frame.
            let slot = &mut self.slots[si];
            slot.next.append(&mut survivors);
            let ghost slots_drained = slots_e.update(
                si as int,
                SlotModel {
                    key: slots_e[si as int].key,
                    current: Seq::empty(),
                    next: slots_e[si as int].next + d.survivors,
                },
            );
            proof {
                assert(slots_view(self.slots) =~= slots_drained);
            }

            let StepEffects { mut commands, mut spawns, faulted } = fx;

            // File the spawn requests: each task joins the next-frame queue
            // of its phase.
            let ghost all_spawns = spawns@;
            while spawns.len() != 0
                invariant
                    slots_wf(slots_view(self.slots)),
                    place_spawns(slots_view(self.slots), spawns@) == place_spawns(
                        slots_drained,
                        all_spawns,
                    ),
                    self@.registry == m_pre.registry,
                    self@.frame_counter == m_pre.frame_counter,
                    self@.world == m_pre.world,
                    self@.faulted == m_pre.faulted,
                decreases spawns.len(),
            {
                let ghost pre_slots = slots_view(self.slots);
                let ghost pre_spawns = spawns@;
                let req = spawns.remove(0);
                let ti = slot_position(&mut self.slots, req.phase);
                let ghost with_slot = ensure_slot(pre_slots, req.phase);
                let slot = &mut self.slots[ti];
                slot.next.push(req.job);
                proof {
                    assert(spawns@ =~= pre_spawns.drop_first());
                    assert(slots_view(self.slots) =~= place_spawn(pre_slots, req));
                    lemma_ensure_slot_wf(pre_slots, req.phase);
                }
            }
            proof {
                assert(slots_view(self.slots) == place_spawns(slots_drained, all_spawns));
                lemma_place_spawns_wf(slots_drained, all_spawns);
            }

            // Apply the commands submitted during this phase, in order.
            let ghost all_commands = commands@;
            let ghost w_pre = m_pre.world;
            while commands.len() != 0
                invariant
                    apply_all(self@.world, commands@) == apply_all(w_pre, all_commands),
                    slots_view(self.slots) == place_spawns(slots_drained, all_spawns),
                    self@.registry == m_pre.registry,
                    self@.frame_counter == m_pre.frame_counter,
                    self@.faulted == m_pre.faulted,
                decreases commands.len(),
            {
                let ghost pre_commands = commands@;
                let cmd = commands.remove(0);
                proof {
                    assert(commands@ =~= pre_commands.drop_first());
                }
                self.world.apply(cmd);
            }

            if faulted {
                self.faulted = true;
            }
            proof {
                assert(self@ == phase_model(m_pre, key)) by {
                    assert(apply_all(self@.world, Seq::<W::Command>::empty()) == self@.world);
                    assert(self@.world == apply_all(w_pre, d.commands));
                }
                lemma_phase_model_wf(m_pre, key);
                assert(phases_model(self@, idx + 1) == phases_model(m_pre, idx as int));
            }
            idx = idx + 1;
        }
        let ghost m1 = phases_model(m0, 0);
        proof {
            assert(self@ == m1);
        }

        // Termination test: is every activated phase's next-frame queue empty?
        let mut all_empty = true;
        let mut k: usize = 0;
        while k < self.registry.len()
            invariant
                self@ == m1,
                self@.wf(),
                0 <= k <= m1.registry.len(),
                all_empty == (forall|i: int|
                    0 <= i < k ==> phase_next_len(m1.slots, (#[trigger] m1.registry[i]).1) == 0),
            decreases m1.registry.len() - k,
        {
            let key = self.registry[k].1;
            match find_slot(&self.slots, key) {
                None => {},
                Some(i) => {
                    let slot_next_len = self.slots[i].next.len();
                    if slot_next_len != 0 {
                        proof {
                            assert(phase_next_len(m1.slots, m1.registry[k as int].1) != 0);
                        }
                        all_empty = false;
                    }
                },
            }
            k = k + 1;
        }
        if all_empty {
            proof {
                assert(active_next_empty(m1));
            }
            return RuntimeIsDone::Done;
        }

        // Rotate: next-frame tasks become the coming frame's work.
        proof {
            assert(!active_next_empty(m1));
        }
        let ghost rotated = rotate_slots(m1.registry, m1.slots);
        let n = self.slots.len();
        let mut i: usize = 0;
        while i < n
            invariant
                n == self.slots.len(),
                m1.slots.len() == n,
                rotated == rotate_slots(m1.registry, m1.slots),
                self@.registry == m1.registry,
                self@.frame_counter == m1.frame_counter,
                self@.world == m1.world,
                self@.faulted == m1.faulted,
                0 <= i <= n,
                forall|j: int| 0 <= j < i ==> slots_view(self.slots)[j] == rotated[j],
                forall|j: int| i <= j < n ==> slots_view(self.slots)[j] == m1.slots[j],
            decreases n - i,
        {
            let ghost pre_view = slots_view(self.slots);
            let key = self.slots[i].key;
            proof {
                assert(pre_view[i as int] == m1.slots[i as int]);
            }
            if is_registered(&self.registry, key) {
                let slot = &mut self.slots[i];
                core::mem::swap(&mut slot.current, &mut slot.next);
            }
            proof {
                let s = m1.slots[i as int];
                assert(rotated.len() == m1.slots.len());
                assert(rotated[i as int] == (if key_active(m1.registry, s.key) {
                    SlotModel { key: s.key, current: s.next, next: s.current }
                } else {
                    s
                }));
                assert(slots_view(self.slots)[i as int] == rotated[i as int]);
                assert(forall|j: int|
                    0 <= j < n && j != i ==> slots_view(self.slots)[j] == pre_view[j]);
            }
            i = i + 1;
        }
        proof {
            assert(slots_view(self.slots) =~= rotated);
            assert(slots_wf(slots_view(self.slots))) by {
                assert forall|a: int, b: int|
                    0 <= a < b < rotated.len() implies rotated[a].key != rotated[b].key by {
                    assert(rotated[a].key == m1.slots[a].key);
                    assert(rotated[b].key == m1.slots[b].key);
                }
            }
        }
        self.frame_counter = self.frame_counter + 1;
        RuntimeIsDone::NotDone
    }
}

/// Whether `key` is activated in the registry `reg`.
pub open spec fn key_active(reg: Seq<(u16, u64)>, key: u64) -> bool {
    exists|i: int| 0 <= i < reg.len() && reg[i].1 == key
}

/// The slots after one dynamic spawn request is filed: the task joins the
/// next-frame queue of its phase, so it runs no earlier than the next frame.
pub open spec fn place_spawn<C>(slots: Seq<SlotModel<C>>, req: SpawnRequest<C>) -> Seq<
    SlotModel<C>,
> {
    let s = ensure_slot(slots, req.phase);
    let i = slot_index(s, req.phase);
    s.update(i, SlotModel { key: s[i].key, current: s[i].current, next: s[i].next.push(req.job) })
}

/// The slots after filing every spawn request, in order.
pub open spec fn place_spawns<C>(slots: Seq<SlotModel<C>>, reqs: Seq<SpawnRequest<C>>) -> Seq<
    SlotModel<C>,
>
    decreases reqs.len(),
{
    if reqs.len() == 0 {
        slots
    } else {
        place_spawns(place_spawn(slots, reqs.first()), reqs.drop_first())
    }
}

/// Filing spawn requests preserves key uniqueness.
pub proof fn lemma_place_spawns_wf<C>(slots: Seq<SlotModel<C>>, reqs: Seq<SpawnRequest<C>>)
    requires
        slots_wf(slots),
    ensures
        slots_wf(place_spawns(slots, reqs)),
    decreases reqs.len(),
{
    if reqs.len() != 0 {
        lemma_ensure_slot_wf(slots, reqs.first().phase);
        lemma_place_spawns_wf(place_spawn(slots, reqs.first()), reqs.drop_first());
    }
}

/// Process one phase: drain its current-frame queue against the world as it
/// stands, move the survivors to its next-frame queue, file the spawn
/// requests, and apply the emitted commands to the world in order.
pub open spec fn phase_model<W: World>(m: RuntimeModel<W>, key: u64) -> RuntimeModel<W> {
    let slots = ensure_slot(m.slots, key);
    let i = slot_index(slots, key);
    let d = drain_model(slots[i].current, m.world.observe_spec());
    let drained = SlotModel {
        key: slots[i].key,
        current: Seq::empty(),
        next: slots[i].next + d.survivors,
    };
    RuntimeModel {
        world: apply_all(m.world, d.commands),
        slots: place_spawns(slots.update(i, drained), d.spawns),
        faulted: m.faulted || d.faulted,
        ..m
    }
}

/// One phase step keeps the model well-formed and the registry and frame
/// counter untouched.
pub proof fn lemma_phase_model_wf<W: World>(m: RuntimeModel<W>, key: u64)
    requires
        m.wf(),
    ensures
        phase_model(m, key).wf(),
        phase_model(m, key).registry == m.registry,
        phase_model(m, key).frame_counter == m.frame_counter,
{
    lemma_ensure_slot_wf(m.slots, key);
    let slots = ensure_slot(m.slots, key);
    let i = slot_index(slots, key);
    let d = drain_model(slots[i].current, m.world.observe_spec());
    let drained = SlotModel {
        key: slots[i].key,
        current: Seq::empty(),
        next: slots[i].next + d.survivors,
    };
    lemma_place_spawns_wf(slots.update(i, drained), d.spawns);
}

/// Process the phases of the registry from position `i` on, in order.
pub open spec fn phases_model<W: World>(m: RuntimeModel<W>, i: int) -> RuntimeModel<W>
    decreases m.registry.len() - i,
{
    if 0 <= i < m.registry.len() {
        phases_model(phase_model(m, m.registry[i].1), i + 1)
    } else {
        m
    }
}

/// Length of the next-frame queue of `key`'s phase (zero when the phase has
/// no queues yet).
pub open spec fn phase_next_len<C>(slots: Seq<SlotModel<C>>, key: u64) -> nat {
    if has_slot(slots, key) {
        slots[slot_index(slots, key)].next.len()
    } else {
        0
    }
}

/// Whether the next-frame queue of every activated phase is empty: the
/// termination condition of the runtime.
pub open spec fn active_next_empty<W: World>(m: RuntimeModel<W>) -> bool {
    forall|i: int|
        0 <= i < m.registry.len() ==> phase_next_len(m.slots, (#[trigger] m.registry[i]).1) == 0
}

/// Swap the current and next queues of every activated phase; inactive
/// phases are untouched.
pub open spec fn rotate_slots<C>(reg: Seq<(u16, u64)>, slots: Seq<SlotModel<C>>) -> Seq<
    SlotModel<C>,
> {
    slots.map(
        |i: int, s: SlotModel<C>|
            if key_active(reg, s.key) {
                SlotModel { key: s.key, current: s.next, next: s.current }
            } else {
                s
            },
    )
}

/// One whole frame: process the phases in order; if every activated
/// phase's next-frame queue then stands empty, report done and change
/// nothing else; otherwise rotate the activated phases' queues and advance
/// the frame counter.
pub open spec fn frame_model<W: World>(m: RuntimeModel<W>) -> (RuntimeModel<W>, bool) {
    let m1 = phases_model(m, 0);
    if active_next_empty(m1) {
        (m1, true)
    } else {
        (
            RuntimeModel {
                frame_counter: (m1.frame_counter + 1) as u64,
                slots: rotate_slots(m1.registry, m1.slots),
                ..m1
            },
            false,
        )
    }
}

/// The slots after an embedder spawn of `job` into phase `key`.
pub open spec fn spawn_model<C>(slots: Seq<SlotModel<C>>, key: u64, job: Job<C>) -> Seq<
    SlotModel<C>,
> {
    let s = ensure_slot(slots, key);
    let i = slot_index(s, key);
    s.update(
        i,
        SlotModel { key: s[i].key, current: s[i].current.push(job), next: s[i].next },
    )
}

/// Find the queue pair for `key` without creating one.
fn find_slot<C>(slots: &Vec<PhaseQueues<C>>, key: u64) -> (r: Option<usize>)
    requires
        slots_wf(slots_view(*slots)),
    ensures
        match r {
            None => !has_slot(slots_view(*slots), key),
            Some(i) => {
                &&& has_slot(slots_view(*slots), key)
                &&& i == slot_index(slots_view(*slots), key)
                &&& i < slots.len()
                &&& slots_view(*slots)[i as int].key == key
            },
        },
{
    let ghost v = slots_view(*slots);
    let n = slots.len();
    let mut i: usize = 0;
    while i < n
        invariant
            n == slots.len(),
            v == slots_view(*slots),
            slots_wf(v),
            0 <= i <= n,
            forall|j: int| 0 <= j < i ==> v[j].key != key,
        decreases n - i,
    {
        if slots[i].key == key {
            proof {
                assert(has_slot(v, key)) by {
                    assert(0 <= i < v.len() && v[i as int].key == key);
                }
                assert(slot_index(v, key) == i) by {
                    let w = slot_index(v, key);
                    assert(0 <= w < v.len() && v[w].key == key);
                    if w < i {
                        assert(v[w].key != v[i as int].key);
                    } else if w > i {
                        assert(v[i as int].key != v[w].key);
                    }
                }
            }
            return Some(i);
        }
        i = i + 1;
    }
    None
}

/// Whether `key` is activated.
fn is_registered(registry: &Vec<(u16, u64)>, key: u64) -> (r: bool)
    ensures
        r == key_active(registry@, key),
{
    let n = registry.len();
    let mut i: usize = 0;
    while i < n
        invariant
            n == registry.len(),
            0 <= i <= n,
            forall|j: int| 0 <= j < i ==> registry@[j].1 != key,
        decreases n - i,
    {
        if registry[i].1 == key {
            proof {
                assert(key_active(registry@, key)) by {
                    assert(0 <= i < registry@.len() && registry@[i as int].1 == key);
                }
            }
            return true;
        }
        i = i + 1;
    }
    false
}

/// `ensure_slot` preserves key uniqueness and owns `key`.
pub proof fn lemma_ensure_slot_wf<C>(s: Seq<SlotModel<C>>, key: u64)
    requires
        slots_wf(s),
    ensures
        slots_wf(ensure_slot(s, key)),
        has_slot(ensure_slot(s, key), key),
        ensure_slot(s, key)[slot_index(ensure_slot(s, key), key)].key == key,
        0 <= slot_index(ensure_slot(s, key), key) < ensure_slot(s, key).len(),
{
    let s2 = ensure_slot(s, key);
    if has_slot(s, key) {
    } else {
        assert(s2[s.len() as int].key == key);
    }
}

/// Find the queue pair for `key`, creating an empty one if none exists,
/// and return its index.
fn slot_position<C>(slots: &mut Vec<PhaseQueues<C>>, key: u64) -> (i: usize)
    requires
        slots_wf(slots_view(*old(slots))),
    ensures
        slots_view(*final(slots)) == ensure_slot(slots_view(*old(slots)), key),
        i == slot_index(slots_view(*final(slots)), key),
        i < final(slots).len(),
        final(slots)@[i as int].key == key,
        slots_wf(slots_view(*final(slots))),
{
    let ghost v0 = slots_view(*slots);
    proof {
        lemma_ensure_slot_wf(v0, key);
    }
    let n = slots.len();
    let mut i: usize = 0;
    while i < n
        invariant
            n == slots.len(),
            slots_view(*slots) == v0,
            slots_wf(v0),
            0 <= i <= n,
            forall|j: int| 0 <= j < i ==> v0[j].key != key,
        decreases n - i,
    {
        if slots[i].key == key {
            proof {
                assert(v0[i as int].key == key);
                assert(has_slot(v0, key)) by {
                    assert(0 <= i < v0.len() && v0[i as int].key == key);
                }
                assert(slot_index(v0, key) == i) by {
                    let w = slot_index(v0, key);
                    assert(0 <= w < v0.len() && v0[w].key == key);
                    if w < i {
                        assert(v0[w].key != v0[i as int].key);
                    } else if w > i {
                        assert(v0[i as int].key != v0[w].key);
                    }
                }
            }
            return i;
        }
        i = i + 1;
    }
    proof {
        assert(!has_slot(v0, key));
    }
    slots.push(PhaseQueues { key, current: Vec::new(), next: Vec::new() });
    proof {
        let v1 = slots_view(*slots);
        assert(v1 =~= v0.push(SlotModel { key, current: Seq::empty(), next: Seq::empty() }));
        assert(v1[n as int].key == key);
        assert(slot_index(v1, key) == n) by {
            let w = slot_index(v1, key);
            assert(0 <= w < v1.len() && v1[w].key == key);
            lemma_ensure_slot_wf(v0, key);
        }
    }
    n
}

/// The queue pair of `key` (meaningful when `has_slot` holds).
pub open spec fn slot_of<C>(slots: Seq<SlotModel<C>>, key: u64) -> SlotModel<C> {
    slots[slot_index(slots, key)]
}

/// The current-frame queue of `key`'s phase (empty when the phase has no
/// queues yet).
pub open spec fn phase_current<C>(slots: Seq<SlotModel<C>>, key: u64) -> Seq<Job<C>> {
    if has_slot(slots, key) {
        slot_of(slots, key).current
    } else {
        Seq::empty()
    }
}

/// The next-frame queue of `key`'s phase (empty when the phase has no
/// queues yet).
pub open spec fn phase_next<C>(slots: Seq<SlotModel<C>>, key: u64) -> Seq<Job<C>> {
    if has_slot(slots, key) {
        slot_of(slots, key).next
    } else {
        Seq::empty()
    }
}

/// With unique keys, any index holding `key` is the slot index of `key`.
pub proof fn lemma_slot_index_unique<C>(s: Seq<SlotModel<C>>, key: u64, i: int)
    requires
        slots_wf(s),
        0 <= i < s.len(),
        s[i].key == key,
    ensures
        has_slot(s, key),
        slot_index(s, key) == i,
{
    assert(has_slot(s, key)) by {
        assert(0 <= i < s.len() && s[i].key == key);
    }
    let w = slot_index(s, key);
    assert(0 <= w < s.len() && s[w].key == key);
    if w < i {
        assert(s[w].key != s[i].key);
    } else if w > i {
        assert(s[i].key != s[w].key);
    }
}

/// `ensure_slot` leaves every existing phase's queues as they are.
pub proof fn lemma_ensure_slot_frame<C>(s: Seq<SlotModel<C>>, key: u64, k2: u64)
    requires
        slots_wf(s),
    ensures
        has_slot(ensure_slot(s, key), k2) == (has_slot(s, k2) || k2 == key),
        phase_current(ensure_slot(s, key), k2) == phase_current(s, k2),
        phase_next(ensure_slot(s, key), k2) == phase_next(s, k2),
{
    let s2 = ensure_slot(s, key);
    lemma_ensure_slot_wf(s, key);
    if has_slot(s, key) {
    } else {
        if has_slot(s, k2) {
            let i = slot_index(s, k2);
            lemma_slot_index_unique(s2, k2, i);
        } else if k2 == key {
            lemma_slot_index_unique(s2, k2, s.len() as int);
        } else {
            if has_slot(s2, k2) {
                let i = slot_index(s2, k2);
                if i < s.len() {
                    assert(s[i].key == k2);
                }
            }
        }
    }
}

/// Filing one spawn request touches only the target phase's next queue.
pub proof fn lemma_place_spawn_frame<C>(s: Seq<SlotModel<C>>, req: SpawnRequest<C>, k2: u64)
    requires
        slots_wf(s),
    ensures
        slots_wf(place_spawn(s, req)),
        has_slot(place_spawn(s, req), k2) == (has_slot(s, k2) || k2 == req.phase),
        phase_current(place_spawn(s, req), k2) == phase_current(s, k2),
        phase_next(place_spawn(s, req), k2) == (if k2 == req.phase {
            phase_next(s, k2).push(req.job)
        } else {
            phase_next(s, k2)
        }),
{
    let se = ensure_slot(s, req.phase);
    lemma_ensure_slot_wf(s, req.phase);
    lemma_ensure_slot_frame(s, req.phase, k2);
    let i = slot_index(se, req.phase);
    let s2 = place_spawn(s, req);
    assert(s2 == se.update(
        i,
        SlotModel { key: se[i].key, current: se[i].current, next: se[i].next.push(req.job) },
    ));
    assert(forall|j: int| 0 <= j < se.len() ==> s2[j].key == se[j].key);
    if k2 == req.phase {
        lemma_slot_index_unique(s2, k2, i);
        lemma_slot_index_unique(se, k2, i);
    } else {
        if has_slot(se, k2) {
            let j = slot_index(se, k2);
            assert(j != i) by {
                assert(se[i].key == req.phase);
            }
            lemma_slot_index_unique(s2, k2, j);
        } else {
            if has_slot(s2, k2) {
                let j = slot_index(s2, k2);
                assert(se[j].key == k2);
            }
        }
    }
}

/// Filing spawn requests never touches any phase's current queue, and only
/// appends to next queues.
pub proof fn lemma_place_spawns_frame<C>(s: Seq<SlotModel<C>>, reqs: Seq<SpawnRequest<C>>, k2: u64)
    requires
        slots_wf(s),
    ensures
        slots_wf(place_spawns(s, reqs)),
        has_slot(s, k2) ==> has_slot(place_spawns(s, reqs), k2),
        phase_current(place_spawns(s, reqs), k2) == phase_current(s, k2),
        phase_next(s, k2).is_prefix_of(phase_next(place_spawns(s, reqs), k2)),
        reqs.len() == 0 ==> place_spawns(s, reqs) == s,
    decreases reqs.len(),
{
    if reqs.len() == 0 {
    } else {
        lemma_place_spawn_frame(s, reqs.first(), k2);
        lemma_place_spawns_frame(place_spawn(s, reqs.first()), reqs.drop_first(), k2);
    }
}

/// What one phase step does to each phase: the processed phase's current
/// queue empties and its survivors join its next queue; every other phase's
/// current queue is untouched and its next queue only gains spawned tasks.
pub proof fn lemma_phase_model_frame<W: World>(m: RuntimeModel<W>, key: u64, k2: u64)
    requires
        m.wf(),
    ensures
        ({
            let m2 = phase_model(m, key);
            let d = drain_model(phase_current(m.slots, key), m.world.observe_spec());
            &&& m2.wf()
            &&& m2.registry == m.registry
            &&& m2.frame_counter == m.frame_counter
            &&& m2.world == apply_all(m.world, d.commands)
            &&& m2.faulted == (m.faulted || d.faulted)
            &&& has_slot(m2.slots, key)
            &&& (has_slot(m.slots, k2) ==> has_slot(m2.slots, k2))
            &&& phase_current(m2.slots, key) == Seq::<Job<W::Command>>::empty()
            &&& (k2 != key ==> phase_current(m2.slots, k2) == phase_current(m.slots, k2))
            &&& phase_next(m.slots, k2).is_prefix_of(phase_next(m2.slots, k2))
        }),
{
    let slots = ensure_slot(m.slots, key);
    lemma_ensure_slot_wf(m.slots, key);
    lemma_ensure_slot_frame(m.slots, key, key);
    lemma_ensure_slot_frame(m.slots, key, k2);
    let i = slot_index(slots, key);
    let d = drain_model(slots[i].current, m.world.observe_spec());
    assert(slots[i].current == phase_current(m.slots, key));
    let drained = SlotModel {
        key: slots[i].key,
        current: Seq::empty(),
        next: slots[i].next + d.survivors,
    };
    let s2 = slots.update(i, drained);
    assert(forall|j: int| 0 <= j < slots.len() ==> s2[j].key == slots[j].key);
    assert(slots_wf(s2));
    lemma_slot_index_unique(s2, key, i);
    assert(phase_current(s2, key) == Seq::<Job<W::Command>>::empty());
    if k2 != key {
        if has_slot(slots, k2) {
            let j = slot_index(slots, k2);
            assert(j != i) by {
                assert(slots[i].key == key);
            }
            lemma_slot_index_unique(s2, k2, j);
        } else {
            if has_slot(s2, k2) {
                let j = slot_index(s2, k2);
                assert(slots[j].key == k2);
            }
        }
    }
    lemma_place_spawns_frame(s2, d.spawns, k2);
    lemma_place_spawns_frame(s2, d.spawns, key);
    if k2 == key {
        assert(slots[i].next == phase_next(m.slots, key));
        assert(phase_next(s2, key) == slots[i].next + d.survivors);
        assert(phase_next(m.slots, k2).is_prefix_of(phase_next(s2, k2))) by {
            let a = phase_next(m.slots, k2);
            let b = phase_next(s2, k2);
            assert(b.subrange(0, a.len() as int) =~= a);
        }
        let b = phase_next(s2, k2);
        let c = phase_next(place_spawns(s2, d.spawns), k2);
        let a = phase_next(m.slots, k2);
        assert(a.is_prefix_of(c)) by {
            assert(b.subrange(0, a.len() as int) =~= a);
            assert(c.subrange(0, b.len() as int) =~= b);
            assert(c.subrange(0, a.len() as int) =~= a);
        }
    }
}

/// The specification-level image of a queue vector.
spec fn slots_view<C>(slots: Vec<PhaseQueues<C>>) -> Seq<SlotModel<C>> {
    slots@.map(|i: int, s: PhaseQueues<C>| SlotModel { key: s.key, current: s.current@, next: s.next@ })
}

} // verus!
