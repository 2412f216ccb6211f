//! A frame-paced cooperative task runtime.
//!
//! The runtime executes suspendable computations across discrete frames.
//! Each call to [`runtime::Runtime::update`] advances every live task by one
//! ready step: tasks are grouped into totally ordered phases, each phase
//! drains its current-frame queue, and a task that suspends is routed either
//! back into the current frame (when it signalled a wake) or into the
//! next-frame queue (when it suspended through the one-shot yield gate).
//! Commands emitted by tasks are applied to the shared world between phases,
//! so later phases observe the writes of earlier ones within the same frame.

pub mod container;
pub mod laws;
pub mod queue;
pub mod runtime;
pub mod task;
pub mod wait_next_frame_future;
pub mod world;
