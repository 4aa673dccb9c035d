//! The course of one peer connection, from dialing to the piece downloads.

use vstd::prelude::*;
use crate::wire::{PeerMessage, WireError};

verus! {

/// Where a peer session stands.
#[derive(Debug, Clone, Copy, PartialEq, Eq, Structural)]
pub enum SessionState {
    /// The connection is being opened.
    Dialing,
    /// The handshakes are being exchanged.
    Handshaking,
    /// The peer's first message, its bitfield, is awaited.
    AwaitingBitfield,
    /// `interested` is being sent.
    SignalingInterest,
    /// The peer's `unchoke` is awaited.
    AwaitingUnchoke,
    /// Pieces can be asked for.
    Ready,
    /// The session is over.
    Closing,
}

/// What happened on the connection.
#[derive(Debug, Clone, Copy, PartialEq, Eq, Structural)]
pub enum SessionEvent {
    /// The connection stands.
    Connected,
    /// This client's handshake went out and the peer's came back, naming the
    /// same protocol and torrent.
    HandshakeAccepted,
    /// The peer's handshake names another protocol or torrent.
    HandshakeRefused,
    /// The peer sent its bitfield.
    Bitfield,
    /// `interested` went out.
    InterestedSent,
    /// The peer sent `unchoke`.
    Unchoke,
    /// The peer sent `choke`, `have` or `piece`.
    Other,
    /// An error, or the end of the stream.
    Failed,
}

/// What to do next on the connection.
#[derive(Debug, Clone, Copy, PartialEq, Eq, Structural)]
pub enum SessionAction {
    /// Send this client's handshake and read the peer's.
    ExchangeHandshakes,
    /// Read the next message.
    ReadMessage,
    /// Send `interested`.
    SendInterested,
    /// Take piece jobs and download them.
    Download,
    /// Close the connection.
    Close,
    /// Close the connection and report the error.
    Fail(WireError),
}

/// The state after `event`. From `Dialing` a session passes, one event each,
/// through the handshakes, the peer's bitfield, this client's `interested`
/// and the peer's `unchoke` to `Ready`, where messages keep it. Any failure,
/// and any event out of this order, ends it; once over it stays over.
pub open spec fn next_state(state: SessionState, event: SessionEvent) -> SessionState {
    match (state, event) {
        (SessionState::Dialing, SessionEvent::Connected) => SessionState::Handshaking,
        (SessionState::Handshaking, SessionEvent::HandshakeAccepted) => SessionState::AwaitingBitfield,
        (SessionState::AwaitingBitfield, SessionEvent::Bitfield) => SessionState::SignalingInterest,
        (SessionState::SignalingInterest, SessionEvent::InterestedSent) => SessionState::AwaitingUnchoke,
        (SessionState::AwaitingUnchoke, SessionEvent::Unchoke) => SessionState::Ready,
        (SessionState::Ready, SessionEvent::Bitfield) => SessionState::Ready,
        (SessionState::Ready, SessionEvent::Unchoke) => SessionState::Ready,
        (SessionState::Ready, SessionEvent::Other) => SessionState::Ready,
        _ => SessionState::Closing,
    }
}

/// What to do after `event` in `state`.
pub open spec fn next_action(state: SessionState, event: SessionEvent) -> SessionAction {
    match next_state(state, event) {
        SessionState::Dialing => SessionAction::Close,
        SessionState::Handshaking => SessionAction::ExchangeHandshakes,
        SessionState::AwaitingBitfield => SessionAction::ReadMessage,
        SessionState::SignalingInterest => SessionAction::SendInterested,
        SessionState::AwaitingUnchoke => SessionAction::ReadMessage,
        SessionState::Ready => SessionAction::Download,
        SessionState::Closing => if state == SessionState::Closing || event == SessionEvent::Failed {
            SessionAction::Close
        } else if event == SessionEvent::HandshakeRefused {
            SessionAction::Fail(WireError::HandshakeMismatch)
        } else {
            SessionAction::Fail(WireError::ProtocolSequence)
        },
    }
}

/// The state after all of `events`, in their order.
pub open spec fn run(state: SessionState, events: Seq<SessionEvent>) -> SessionState
    decreases events.len(),
{
    if events.len() == 0 {
        state
    } else {
        next_state(run(state, events.drop_last()), events.last())
    }
}

/// The five events that lead from dialing to the piece downloads.
pub open spec fn opening() -> Seq<SessionEvent> {
    seq![
        SessionEvent::Connected,
        SessionEvent::HandshakeAccepted,
        SessionEvent::Bitfield,
        SessionEvent::InterestedSent,
        SessionEvent::Unchoke,
    ]
}

/// A session that is over stays over.
pub proof fn law_closing_is_final(events: Seq<SessionEvent>)
    ensures
        run(SessionState::Closing, events) == SessionState::Closing,
    decreases events.len(),
{
    if events.len() > 0 {
        law_closing_is_final(events.drop_last());
    }
}

/// How far the opening has come after `events`: the state that `k` events of
/// the opening lead to.
spec fn stage(k: int) -> SessionState {
    if k == 0 {
        SessionState::Dialing
    } else if k == 1 {
        SessionState::Handshaking
    } else if k == 2 {
        SessionState::AwaitingBitfield
    } else if k == 3 {
        SessionState::SignalingInterest
    } else if k == 4 {
        SessionState::AwaitingUnchoke
    } else {
        SessionState::Ready
    }
}

proof fn lemma_run_follows_opening(events: Seq<SessionEvent>)
    ensures
        run(SessionState::Dialing, events) != SessionState::Closing ==> {
            &&& forall|k: int| 0 <= k < events.len() && k < 5 ==> events[k] == opening()[k]
            &&& run(SessionState::Dialing, events) == stage(events.len() as int)
        },
    decreases events.len(),
{
    if events.len() > 0 {
        let front = events.drop_last();
        lemma_run_follows_opening(front);
        if run(SessionState::Dialing, events) != SessionState::Closing {
            assert(run(SessionState::Dialing, front) != SessionState::Closing);
            assert forall|k: int| 0 <= k < events.len() && k < 5 implies events[k]
                == opening()[k] by {
                if k < front.len() {
                    assert(front[k] == events[k]);
                }
            }
        }
    }
}

/// A session is ready for piece downloads only after the five events of the
/// opening, in their order: connection, handshakes, bitfield, `interested`,
/// `unchoke`.
pub proof fn law_ready_after_opening(events: Seq<SessionEvent>)
    requires
        run(SessionState::Dialing, events) == SessionState::Ready,
    ensures
        events.len() >= 5,
        events.subrange(0, 5) == opening(),
{
    lemma_run_follows_opening(events);
    assert(events.subrange(0, 5) =~= opening());
}

/// The event that a received message is.
pub fn event_of(message: &PeerMessage) -> (event: SessionEvent)
    ensures
        event == match message {
            PeerMessage::Bitfield => SessionEvent::Bitfield,
            PeerMessage::Unchoke => SessionEvent::Unchoke,
            _ => SessionEvent::Other,
        },
{
    match message {
        PeerMessage::Bitfield => SessionEvent::Bitfield,
        PeerMessage::Unchoke => SessionEvent::Unchoke,
        _ => SessionEvent::Other,
    }
}

/// One step of a session: the state after `event`, and what to do next.
pub fn step(state: SessionState, event: SessionEvent) -> (next: (SessionState, SessionAction))
    ensures
        next.0 == next_state(state, event),
        next.1 == next_action(state, event),
{
    let to = match (state, event) {
        (SessionState::Dialing, SessionEvent::Connected) => SessionState::Handshaking,
        (SessionState::Handshaking, SessionEvent::HandshakeAccepted) => SessionState::AwaitingBitfield,
        (SessionState::AwaitingBitfield, SessionEvent::Bitfield) => SessionState::SignalingInterest,
        (SessionState::SignalingInterest, SessionEvent::InterestedSent) => SessionState::AwaitingUnchoke,
        (SessionState::AwaitingUnchoke, SessionEvent::Unchoke) => SessionState::Ready,
        (SessionState::Ready, SessionEvent::Bitfield) => SessionState::Ready,
        (SessionState::Ready, SessionEvent::Unchoke) => SessionState::Ready,
        (SessionState::Ready, SessionEvent::Other) => SessionState::Ready,
        _ => SessionState::Closing,
    };
    let action = match to {
        SessionState::Dialing => SessionAction::Close,
        SessionState::Handshaking => SessionAction::ExchangeHandshakes,
        SessionState::AwaitingBitfield => SessionAction::ReadMessage,
        SessionState::SignalingInterest => SessionAction::SendInterested,
        SessionState::AwaitingUnchoke => SessionAction::ReadMessage,
        SessionState::Ready => SessionAction::Download,
        SessionState::Closing => {
            if matches!(state, SessionState::Closing) || matches!(event, SessionEvent::Failed) {
                SessionAction::Close
            } else if matches!(event, SessionEvent::HandshakeRefused) {
                SessionAction::Fail(WireError::HandshakeMismatch)
            } else {
                SessionAction::Fail(WireError::ProtocolSequence)
            }
        },
    };
    (to, action)
}

} // verus!
