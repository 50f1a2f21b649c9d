//! An unbounded FIFO queue built as a linked chain of nodes behind a sentinel,
//! driven by compare-and-swap on a head pointer, a tail pointer and the links.
//!
//! An enqueue or a dequeue is a short sequence of atomic actions: one read or
//! one compare-and-swap each. [`LockFreeQueue::step`] performs one action of
//! one operation, so that any number of operations can be in flight and a
//! caller can interleave their actions in any order; [`LockFreeQueue::offer`]
//! and [`LockFreeQueue::take`] run one operation from start to end.
//!
//! `model` states what every action does to the shared state and what holds
//! in every state that can be reached, `schedule` what holds of every
//! interleaving, and `queue` implements the protocol on an arena of nodes.
mod chain;
pub mod model;
mod node;
pub mod queue;
pub mod schedule;

pub use model::Progress;
pub use queue::LockFreeQueue;
