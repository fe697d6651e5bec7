//! The peer-protocol state machine: the prelude handshake → bitfield →
//! interested → unchoke, then the request/piece loop. Events out of this
//! order are fatal; the driver performs the I/O and feeds what happened back
//! into `step`.

use vstd::prelude::*;

use crate::peer::PeerMessageType;

verus! {

/// Where the session stands.
#[derive(Debug, Clone, Copy, PartialEq, Eq, Structural)]
pub enum PeerState {
    /// Connected, nothing exchanged.
    Fresh,
    /// The 68-byte handshake went through.
    Handshaken,
    /// The peer's `bitfield` arrived (its contents are not interpreted).
    BitfieldSeen,
    /// Our `interested` went out.
    Interested,
    /// The peer's `unchoke` arrived.
    Unchoked,
    /// At least one `request` went out.
    Downloading,
}

/// What just happened on the connection.
#[derive(Debug, Clone, Copy, PartialEq, Eq, Structural)]
pub enum PeerEvent {
    /// The 68-byte exchange completed with a matching info hash.
    HandshakeCompleted,
    /// A typed message arrived (keep-alives are dropped at the framing
    /// layer and never reach the state machine).
    MessageReceived(PeerMessageType),
    /// Our `interested` message was written.
    InterestedSent,
    /// One of our `request` messages was written.
    RequestSent,
}

/// An event that the protocol does not allow in the state it met.
#[derive(Debug, Clone, Copy, PartialEq, Eq, Structural)]
pub struct ProtocolViolation {
    pub state: PeerState,
    pub event: PeerEvent,
}

/// The transition table: the state after `event` in `state`, or nothing
/// where the protocol forbids the pair. The prelude is strictly ordered;
/// while downloading, only further requests and `piece` messages may occur.
pub open spec fn spec_step(state: PeerState, event: PeerEvent) -> Option<PeerState> {
    match (state, event) {
        (PeerState::Fresh, PeerEvent::HandshakeCompleted) => Some(PeerState::Handshaken),
        (PeerState::Handshaken, PeerEvent::MessageReceived(PeerMessageType::BitField)) => Some(
            PeerState::BitfieldSeen,
        ),
        (PeerState::BitfieldSeen, PeerEvent::InterestedSent) => Some(PeerState::Interested),
        (PeerState::Interested, PeerEvent::MessageReceived(PeerMessageType::Unchoke)) => Some(
            PeerState::Unchoked,
        ),
        (PeerState::Unchoked, PeerEvent::RequestSent) => Some(PeerState::Downloading),
        (PeerState::Downloading, PeerEvent::RequestSent) => Some(PeerState::Downloading),
        (PeerState::Downloading, PeerEvent::MessageReceived(PeerMessageType::Piece)) => Some(
            PeerState::Downloading,
        ),
        _ => None,
    }
}

/// Drives the state machine one event forward; a forbidden pair is fatal
/// and names itself.
pub fn step(state: PeerState, event: PeerEvent) -> (r: Result<PeerState, ProtocolViolation>)
    ensures
        match r {
            Ok(next) => spec_step(state, event) == Some(next),
            Err(v) => spec_step(state, event) is None && v.state == state && v.event == event,
        },
{
    let next = match (state, event) {
        (PeerState::Fresh, PeerEvent::HandshakeCompleted) => Some(PeerState::Handshaken),
        (PeerState::Handshaken, PeerEvent::MessageReceived(PeerMessageType::BitField)) => Some(
            PeerState::BitfieldSeen,
        ),
        (PeerState::BitfieldSeen, PeerEvent::InterestedSent) => Some(PeerState::Interested),
        (PeerState::Interested, PeerEvent::MessageReceived(PeerMessageType::Unchoke)) => Some(
            PeerState::Unchoked,
        ),
        (PeerState::Unchoked, PeerEvent::RequestSent) => Some(PeerState::Downloading),
        (PeerState::Downloading, PeerEvent::RequestSent) => Some(PeerState::Downloading),
        (PeerState::Downloading, PeerEvent::MessageReceived(PeerMessageType::Piece)) => Some(
            PeerState::Downloading,
        ),
        _ => None,
    };
    match next {
        Some(s) => Ok(s),
        None => Err(ProtocolViolation { state, event }),
    }
}

/// The prelude in full: from a fresh connection, the only event order the
/// machine accepts up to the first request is handshake, bitfield,
/// interested, unchoke, request — and it accepts exactly that order.
pub proof fn lemma_prelude_order()
    ensures
        spec_step(PeerState::Fresh, PeerEvent::HandshakeCompleted) == Some(PeerState::Handshaken),
        spec_step(
            PeerState::Handshaken,
            PeerEvent::MessageReceived(PeerMessageType::BitField),
        ) == Some(PeerState::BitfieldSeen),
        spec_step(PeerState::BitfieldSeen, PeerEvent::InterestedSent) == Some(
            PeerState::Interested,
        ),
        spec_step(PeerState::Interested, PeerEvent::MessageReceived(PeerMessageType::Unchoke))
            == Some(PeerState::Unchoked),
        spec_step(PeerState::Unchoked, PeerEvent::RequestSent) == Some(PeerState::Downloading),
        forall|e: PeerEvent|
            #[trigger] spec_step(PeerState::Fresh, e) is Some ==> e
                == PeerEvent::HandshakeCompleted,
        forall|e: PeerEvent|
            #[trigger] spec_step(PeerState::Handshaken, e) is Some ==> e
                == PeerEvent::MessageReceived(PeerMessageType::BitField),
        forall|e: PeerEvent|
            #[trigger] spec_step(PeerState::BitfieldSeen, e) is Some ==> e
                == PeerEvent::InterestedSent,
        forall|e: PeerEvent|
            #[trigger] spec_step(PeerState::Interested, e) is Some ==> e
                == PeerEvent::MessageReceived(PeerMessageType::Unchoke),
        forall|e: PeerEvent|
            #[trigger] spec_step(PeerState::Unchoked, e) is Some ==> e == PeerEvent::RequestSent,
{
}

} // verus!
