//! The yield primitive: a one-shot suspension gate.
//!
//! A [`WaitNextFrame`] reports `Pending` the first time it is probed and
//! `Ready` on every later probe, and it never signals a wake. A suspension
//! through an unprobed gate is the sole `Pending` the runtime reads as
//! "defer the task to the next frame"; every other `Pending` must be
//! accompanied by a wake and is re-run within the same frame.

use vstd::prelude::*;

verus! {

/// The outcome of probing a suspendable computation for one step.
#[derive(Clone, Copy, PartialEq, Eq, Structural, Debug)]
pub enum Poll {
    /// The computation has completed.
    Ready,
    /// The computation suspended and must be probed again later.
    Pending,
}

/// A one-shot suspension gate: not ready on the first probe, ready after.
pub struct WaitNextFrame {
    polled: bool,
}

impl WaitNextFrame {
    /// Whether this gate has already been probed once.
    pub closed spec fn is_polled(self) -> bool {
        self.polled
    }

    /// A gate as it stands after its first probe.
    pub closed spec fn spent() -> WaitNextFrame {
        WaitNextFrame { polled: true }
    }

    fn new() -> (s: Self)
        ensures
            !s.is_polled(),
    {
        Self { polled: false }
    }

    /// Probe once: `Pending` on the first probe, `Ready` after.
    pub fn probe(&mut self) -> (r: Poll)
        ensures
            *final(self) == Self::spent(),
            r == (if old(self).is_polled() {
                Poll::Ready
            } else {
                Poll::Pending
            }),
    {
        if self.polled {
            Poll::Ready
        } else {
            self.polled = true;
            Poll::Pending
        }
    }

    /// A spent gate reports itself probed.
    pub broadcast proof fn lemma_spent_is_polled()
        ensures
            #[trigger] Self::spent().is_polled(),
    {
    }

}

/// A fresh gate: awaiting it suspends the task until the next frame.
pub fn next_frame() -> (r: WaitNextFrame)
    ensures
        !r.is_polled(),
{
    WaitNextFrame::new()
}

} // verus!
