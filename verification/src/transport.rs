//! The transport-facing model: the events the protocol loop hands back,
//! the transport errors, and the acknowledgement gate that a subscriber
//! runs after sending a subscribe request.

use vstd::prelude::*;

verus! {

/// One outcome of polling the transport protocol loop.
#[derive(Debug, Clone, PartialEq)]
pub enum TransportEvent {
    /// A message delivered on a subscribed topic.
    Publish { payload: String },
    /// The broker acknowledged a subscription request.
    SubAck,
    /// Any other protocol event: keep-alives, outgoing confirmations and
    /// the like. Observed and otherwise ignored.
    Other,
}

/// A transport failure.
#[derive(Debug, Clone, Copy, PartialEq, Eq, Structural)]
pub enum TransportError {
    /// The subscribe request could not be sent: fatal to pipeline startup.
    Subscribe,
    /// The connection failed while polling: terminal, no reconnection.
    Connection,
}

/// Connection settings for the subscribing transport client.
#[derive(Debug, Clone, PartialEq)]
pub struct SubscriberParams {
    pub broker_address: String,
    pub broker_port: u16,
}

pub open spec fn poll_is_suback(e: Result<TransportEvent, TransportError>) -> bool {
    e matches Ok(TransportEvent::SubAck)
}

pub open spec fn poll_is_err(e: Result<TransportEvent, TransportError>) -> bool {
    e matches Err(_)
}

/// What the acknowledgement wait does with one polled event.
#[derive(Debug, Clone, Copy, PartialEq, Eq, Structural)]
pub enum AckStep {
    /// The subscription acknowledgement arrived: the handshake is done.
    Acked,
    /// An unrelated event: discard it and keep draining the loop.
    KeepWaiting,
    /// A connection error: the wait ends in failure.
    Failed,
}

/// Decide one step of the acknowledgement handshake: only a subscription
/// acknowledgement completes it, only a connection error aborts it, and
/// every other event is discarded.
pub fn ack_step(e: &Result<TransportEvent, TransportError>) -> (r: AckStep)
    ensures
        r == AckStep::Acked <==> poll_is_suback(*e),
        r == AckStep::Failed <==> poll_is_err(*e),
        r == AckStep::KeepWaiting <==> (!poll_is_suback(*e) && !poll_is_err(*e)),
{
    match e {
        Ok(TransportEvent::SubAck) => AckStep::Acked,
        Ok(_) => AckStep::KeepWaiting,
        Err(_) => AckStep::Failed,
    }
}

/// How a finite drain of the event loop ends.
#[derive(Debug, Clone, Copy, PartialEq, Eq, Structural)]
pub enum AckOutcome {
    /// The acknowledgement was seen after consuming `consumed` events.
    Acked { consumed: usize },
    /// A connection error ended the wait after `consumed` events.
    Failed { consumed: usize },
    /// The events ran out without an acknowledgement or an error.
    Exhausted,
}

/// The acknowledgement gate over a finite prefix of the event stream:
/// drains events in order and returns only when a subscription
/// acknowledgement is observed or a connection error terminates the wait.
/// Events unrelated to the subscription never cause an early return: on
/// every path, each event before the deciding one is neither an
/// acknowledgement nor an error.
pub fn drain_until_ack(events: &Vec<Result<TransportEvent, TransportError>>) -> (r: AckOutcome)
    ensures
        match r {
            AckOutcome::Acked { consumed } => 1 <= consumed <= events@.len() && poll_is_suback(
                events@[consumed - 1],
            ) && forall|j: int|
                0 <= j < consumed - 1 ==> !poll_is_suback(#[trigger] events@[j]) && !poll_is_err(
                    events@[j],
                ),
            AckOutcome::Failed { consumed } => 1 <= consumed <= events@.len() && poll_is_err(
                events@[consumed - 1],
            ) && forall|j: int|
                0 <= j < consumed - 1 ==> !poll_is_suback(#[trigger] events@[j]) && !poll_is_err(
                    events@[j],
                ),
            AckOutcome::Exhausted => forall|j: int|
                0 <= j < events@.len() ==> !poll_is_suback(#[trigger] events@[j]) && !poll_is_err(
                    events@[j],
                ),
        },
{
    let mut i: usize = 0;
    while i < events.len()
        invariant
            i <= events@.len(),
            forall|j: int|
                0 <= j < i ==> !poll_is_suback(#[trigger] events@[j]) && !poll_is_err(events@[j]),
        decreases events@.len() - i,
    {
        match ack_step(&events[i]) {
            AckStep::Acked => {
                return AckOutcome::Acked { consumed: i + 1 };
            },
            AckStep::Failed => {
                return AckOutcome::Failed { consumed: i + 1 };
            },
            AckStep::KeepWaiting => {
                i = i + 1;
            },
        }
    }
    AckOutcome::Exhausted
}

} // verus!
