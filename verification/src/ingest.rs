//! What a connection does with each thing that arrives on it. Connections
//! do not know of each other: two of them may write to one region at the
//! same time.

use vstd::prelude::*;

verus! {

/// What arrived on a connection.
#[derive(Debug, Clone, Copy, PartialEq, Eq, Structural)]
pub enum Inbound {
    /// A text or binary message that holds a chunk packet.
    Packet,
    /// A text or binary message that holds no chunk packet.
    Malformed,
    /// A message of another kind, such as a close.
    Control,
    /// The transport failed.
    Failure,
}

/// What the connection does next.
#[derive(Debug, Clone, Copy, PartialEq, Eq, Structural)]
pub enum Step {
    /// Write the chunk to the store, then go on reading.
    Apply,
    /// Report the message and go on reading.
    Skip,
    /// Stop reading; the connection is over.
    Close,
}

/// The step that an arrival calls for.
pub open spec fn step_for(event: Inbound) -> Step {
    match event {
        Inbound::Packet => Step::Apply,
        Inbound::Malformed => Step::Skip,
        Inbound::Control => Step::Close,
        Inbound::Failure => Step::Close,
    }
}

/// Decides what to do with an arrival: a packet is applied, a malformed
/// message is passed over and the connection stays open, anything else
/// ends the connection.
pub fn on_message(event: Inbound) -> (step: Step)
    ensures
        step == step_for(event),
        step is Close <==> (event is Control || event is Failure),
{
    match event {
        Inbound::Packet => Step::Apply,
        Inbound::Malformed => Step::Skip,
        Inbound::Control => Step::Close,
        Inbound::Failure => Step::Close,
    }
}

/// Whether a connection is still open after the arrivals `events`, in
/// order.
pub open spec fn open_after(events: Seq<Inbound>) -> bool {
    forall|i: int| 0 <= i < events.len() ==> !(step_for(#[trigger] events[i]) is Close)
}

/// Malformed messages do not end a connection: after any number of them,
/// and of packets, the connection is open and the next packet is applied.
pub proof fn lemma_malformed_keeps_open(events: Seq<Inbound>)
    requires
        forall|i: int|
            0 <= i < events.len() ==> (#[trigger] events[i]) is Malformed || events[i] is Packet,
    ensures
        open_after(events),
        step_for(Inbound::Packet) == Step::Apply,
{
}

} // verus!
