//! The per-transfer state machine, shared by both roles.  A process runs
//! exactly one transfer: it connects once, exchanges metadata, moves the
//! payload, and closes; any read or write error drops it straight into the
//! terminal `Failed` phase.  There is no branch back to `Idle`, so a
//! listener never accepts a second peer within one invocation.

use vstd::prelude::*;

verus! {

/// The phases of one transfer, in order; `Closed` and `Failed` are
/// terminal.
#[derive(Clone, Copy, Debug, PartialEq, Eq, Structural)]
pub enum Phase {
    Idle,
    Connected,
    MetadataExchanged,
    PayloadTransferred,
    Closed,
    Failed,
}

/// What the surrounding process observes: each step of the transfer
/// finishing, or a read/write error.
#[derive(Clone, Copy, Debug, PartialEq, Eq, Structural)]
pub enum Event {
    PeerConnected,
    MetadataDone,
    PayloadDone,
    ConnectionClosed,
    IoError,
}

/// The transition relation: phases advance strictly in order, any error
/// from a live phase is fatal, terminal phases absorb every event, and an
/// out-of-order event is itself a protocol failure.
pub open spec fn step_spec(p: Phase, e: Event) -> Phase {
    match p {
        Phase::Closed => Phase::Closed,
        Phase::Failed => Phase::Failed,
        _ => match (p, e) {
            (Phase::Idle, Event::PeerConnected) => Phase::Connected,
            (Phase::Connected, Event::MetadataDone) => Phase::MetadataExchanged,
            (Phase::MetadataExchanged, Event::PayloadDone) => Phase::PayloadTransferred,
            (Phase::PayloadTransferred, Event::ConnectionClosed) => Phase::Closed,
            _ => Phase::Failed,
        },
    }
}

/// Advance one transfer by one observed event.
pub fn step(p: Phase, e: Event) -> (r: Phase)
    ensures
        r == step_spec(p, e),
{
    match p {
        Phase::Closed => Phase::Closed,
        Phase::Failed => Phase::Failed,
        _ => match (p, e) {
            (Phase::Idle, Event::PeerConnected) => Phase::Connected,
            (Phase::Connected, Event::MetadataDone) => Phase::MetadataExchanged,
            (Phase::MetadataExchanged, Event::PayloadDone) => Phase::PayloadTransferred,
            (Phase::PayloadTransferred, Event::ConnectionClosed) => Phase::Closed,
            _ => Phase::Failed,
        },
    }
}

/// A transfer is single-shot: no event ever brings it back to `Idle`, and
/// the only phase from which a connection can be accepted is `Idle` — so
/// once one transfer has started, completed, or failed, the process never
/// accepts a second peer.
pub proof fn lemma_single_connection_lifetime(p: Phase, e: Event)
    ensures
        step_spec(p, e) != Phase::Idle,
        step_spec(p, e) == Phase::Connected ==> p == Phase::Idle,
{
}

/// `Closed` and `Failed` are terminal: every further event is absorbed.
pub proof fn lemma_terminal_phases(p: Phase, e: Event)
    requires
        p == Phase::Closed || p == Phase::Failed,
    ensures
        step_spec(p, e) == p,
{
}

/// An error from any live phase is fatal at the point it occurs: it goes
/// straight to `Failed`, never to a degraded-but-continuing phase.
pub proof fn lemma_error_is_fatal(p: Phase)
    requires
        p != Phase::Closed && p != Phase::Failed,
    ensures
        step_spec(p, Event::IoError) == Phase::Failed,
{
}

} // verus!
