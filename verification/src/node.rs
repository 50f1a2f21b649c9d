//! The element of the chain.
use vstd::prelude::*;

verus! {

/// One element of the chain: a payload and the handle of the node behind it.
///
/// A handle is the index of a node in the arena that holds all nodes. The
/// sentinel, and every node that has given its value away, holds no payload.
pub struct Node<T> {
    pub payload: Option<T>,
    pub next: Option<usize>,
}

impl<T> Node<T> {
    /// A node that is linked to nothing.
    pub fn new(payload: Option<T>) -> (node: Self)
        ensures
            node.payload == payload,
            node.next is None,
    {
        Node { payload, next: None }
    }
}

} // verus!
