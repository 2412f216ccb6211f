//! The shared application state and its command bus.
//!
//! Tasks hold read-only access to the world; every mutation travels as a
//! command that the runtime applies serially between phases. An embedder
//! supplies the world by implementing [`World`]: an `apply` operation that
//! carries out one command, together with its specification, and an
//! `observe` operation through which tasks read the state.

use vstd::prelude::*;

verus! {

/// An embedder-defined application state driven by commands.
///
/// `apply_spec` is the mathematical meaning of applying one command;
/// `apply` must realize it. `observe_spec` is the read-only view a task
/// sees; `observe` must realize that, so that what a task observes is
/// pinned by the sequence of commands applied so far.
pub trait World: Sized {
    /// The tagged variant describing one mutation of the world.
    type Command;

    /// The meaning of applying one command.
    spec fn apply_spec(self, command: Self::Command) -> Self;

    /// The read-only view of the world a task observes.
    spec fn observe_spec(self) -> u64;

    /// Carry out one command.
    fn apply(&mut self, command: Self::Command)
        ensures
            *final(self) == old(self).apply_spec(command),
    ;

    /// Read the world without changing it.
    fn observe(&self) -> (r: u64)
        ensures
            r == self.observe_spec(),
    ;
}

/// The world after applying every command of `commands` in order.
pub open spec fn apply_all<W: World>(w: W, commands: Seq<W::Command>) -> W
    decreases commands.len(),
{
    if commands.len() == 0 {
        w
    } else {
        apply_all(w.apply_spec(commands.first()), commands.drop_first())
    }
}

/// A small world for exercising the runtime: a running total that commands
/// add to or subtract from, with wrap-around on overflow. Its observation
/// is the total itself.
pub struct TallyWorld {
    /// The running total.
    pub total: u64,
}

/// Commands understood by [`TallyWorld`].
pub enum TallyCommand {
    /// Add the amount to the total, wrapping.
    Add(u64),
    /// Subtract the amount from the total, wrapping.
    Sub(u64),
}

impl World for TallyWorld {
    type Command = TallyCommand;

    open spec fn apply_spec(self, command: TallyCommand) -> Self {
        match command {
            TallyCommand::Add(v) => TallyWorld {
                total: vstd::wrapping::u64_specs::wrapping_add(self.total, v),
            },
            TallyCommand::Sub(v) => TallyWorld {
                total: vstd::wrapping::u64_specs::wrapping_sub(self.total, v),
            },
        }
    }

    open spec fn observe_spec(self) -> u64 {
        self.total
    }

    fn apply(&mut self, command: TallyCommand) {
        match command {
            TallyCommand::Add(v) => {
                self.total = self.total.wrapping_add(v);
            },
            TallyCommand::Sub(v) => {
                self.total = self.total.wrapping_sub(v);
            },
        }
    }

    fn observe(&self) -> (r: u64) {
        self.total
    }
}

/// Adding an amount and then subtracting it leaves the tally unchanged —
/// in particular, a command drain that applies `Add(v)` then `Sub(v)`
/// returns the world to where it stood.
pub proof fn lemma_tally_add_sub_round_trip(w: TallyWorld, v: u64)
    ensures
        w.apply_spec(TallyCommand::Add(v)).apply_spec(TallyCommand::Sub(v)) == w,
        apply_all(w, seq![TallyCommand::Add(v), TallyCommand::Sub(v)]) == w,
{
    let cmds = seq![TallyCommand::Add(v), TallyCommand::Sub(v)];
    let w1 = w.apply_spec(TallyCommand::Add(v));
    assert(cmds.first() == TallyCommand::Add(v));
    assert(cmds.drop_first() =~= seq![TallyCommand::Sub(v)]);
    assert(apply_all(w, cmds) == apply_all(w1, seq![TallyCommand::Sub(v)]));
    assert(seq![TallyCommand::Sub(v)].first() == TallyCommand::Sub(v));
    assert(seq![TallyCommand::Sub(v)].drop_first() =~= Seq::<TallyCommand>::empty());
    assert(apply_all(w1, seq![TallyCommand::Sub(v)]) == apply_all(
        w1.apply_spec(TallyCommand::Sub(v)),
        Seq::<TallyCommand>::empty(),
    ));
}

} // verus!
