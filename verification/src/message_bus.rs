//! The transport abstraction the core's effects are enacted through: a
//! real network transport and the in-process simulator bus both fit it.

use crate::message::{dup_message, Message};
use vstd::prelude::*;

verus! {

/// A point-to-point message carrier between replicas. Implementations
/// live with their I/O, outside this crate; `broadcast` is the one
/// piece of shared logic, and sends a copy to every listed replica.
pub trait MessageBus {
    /// Carry `message` to the replica with index `to`.
    fn send(&self, to: u64, message: Message);

    /// Send a copy of `message` to every replica in `to`.
    fn broadcast(&self, to: Vec<u64>, message: Message) {
        let mut i: usize = 0;
        while i < to.len()
            decreases to@.len() - i,
        {
            self.send(to[i], dup_message(&message));
            i = i + 1;
        }
    }
}

} // verus!
