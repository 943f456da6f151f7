//! The outbound-intent vocabulary: everything a replica wants done to the
//! outside world, produced as plain values and enacted by whoever drives
//! the replica (the simulator here, a network transport elsewhere).

use crate::message::Message;
use vstd::prelude::*;

verus! {

/// The two timers of the Normal-case protocol.
#[derive(Clone, Copy, Debug, PartialEq, Eq, Structural)]
pub enum TimerKind {
    /// The primary must show liveness: broadcast a `Commit` when idle.
    PrimaryIdleCommit,
    /// A backup suspects the primary when this one expires.
    BackupWatchdog,
}

/// One intended side effect of a state transition.
#[derive(Debug)]
pub enum Effect {
    /// Point-to-point to the peer replica with this index.
    Send { to: u64, message: Message },
    /// Send to every listed replica; the transport treats a send to the
    /// producing replica itself as a no-op.
    Broadcast { to: Vec<u64>, message: Message },
    /// Arm (or re-arm) the named timer to fire at absolute time `at`.
    SetTimer { kind: TimerKind, at: u64 },
    /// Disarm the named timer.
    CancelTimer { kind: TimerKind },
    /// Run the state machine for the named log position (backups only;
    /// the primary applies inline before replying).
    ApplyCommitted { op_number: u64 },
    /// Deliver a `Reply` to the originating client.
    Reply { client_id: u64, message: Message },
}

} // verus!
