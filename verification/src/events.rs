//! What a node finds in its inbox: a message from the wire, or a timer
//! that fired.

use crate::effect::TimerKind;
use crate::message::Message;
use vstd::prelude::*;

verus! {

/// One inbound event for a node.
#[derive(Clone, Debug, PartialEq)]
pub enum Event {
    /// A protocol message arrived.
    Msg(Message),
    /// The named timer fired.
    TimerFired(TimerKind),
}

} // verus!
