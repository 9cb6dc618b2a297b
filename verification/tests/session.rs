//! The session state machine, transition by transition.

use frame_relay::protocol::Message;
use frame_relay::session::{session_step, SessionAction, SessionEvent, SessionState};

#[test]
fn handshake_is_welcomed_once() {
    let (state, actions) = session_step(SessionState::Connecting, SessionEvent::HandshakeOk);
    assert_eq!(state, SessionState::Active);
    assert_eq!(actions.len(), 1);
    assert_eq!(
        actions[0],
        SessionAction::SendText(String::from("{\"WelcomeClient\":null}"))
    );
}

#[test]
fn handshake_failure_is_fatal_to_this_session() {
    let (state, actions) = session_step(SessionState::Connecting, SessionEvent::HandshakeFailed);
    assert_eq!(state, SessionState::Closed);
    assert!(actions.is_empty());
}

#[test]
fn outbound_message_is_encoded_to_the_socket() {
    let m = Message::DataLocation(String::from("/dev/shm/blender_bevy_frame"));
    let (state, actions) = session_step(SessionState::Active, SessionEvent::Outbound(m));
    assert_eq!(state, SessionState::Active);
    assert_eq!(actions.len(), 1);
    assert_eq!(
        actions[0],
        SessionAction::SendText(String::from(
            "{\"DataLocation\":\"/dev/shm/blender_bevy_frame\"}"
        ))
    );
}

#[test]
fn good_text_is_delivered_to_the_producer() {
    let (state, actions) = session_step(
        SessionState::Active,
        SessionEvent::SocketText(String::from("{\"Data\":[7,8]}")),
    );
    assert_eq!(state, SessionState::Active);
    assert_eq!(actions.len(), 1);
    assert_eq!(actions[0], SessionAction::Deliver(Message::Data(vec![7, 8])));
}

#[test]
fn malformed_text_closes_only_this_session() {
    let (state, actions) = session_step(
        SessionState::Active,
        SessionEvent::SocketText(String::from("not a message")),
    );
    assert_eq!(state, SessionState::Closed);
    assert!(actions.is_empty());
}

#[test]
fn ping_gets_exactly_one_pong() {
    let (state, actions) = session_step(SessionState::Active, SessionEvent::SocketPing);
    assert_eq!(state, SessionState::Active);
    assert_eq!(actions.len(), 1);
    assert_eq!(actions[0], SessionAction::SendPong);
}

#[test]
fn binary_frames_are_discarded() {
    let (state, actions) = session_step(SessionState::Active, SessionEvent::SocketBinary);
    assert_eq!(state, SessionState::Active);
    assert!(actions.is_empty());
}

#[test]
fn socket_close_ends_the_session() {
    let (state, actions) = session_step(SessionState::Active, SessionEvent::SocketClosed);
    assert_eq!(state, SessionState::Closed);
    assert!(actions.is_empty());
}

#[test]
fn write_failure_ends_the_session() {
    let (state, actions) = session_step(SessionState::Active, SessionEvent::WriteFailed);
    assert_eq!(state, SessionState::Closed);
    assert!(actions.is_empty());
}

#[test]
fn channel_close_ends_the_session() {
    let (state, actions) = session_step(SessionState::Active, SessionEvent::OutboundClosed);
    assert_eq!(state, SessionState::Closed);
    assert!(actions.is_empty());
}

#[test]
fn closed_sessions_stay_closed() {
    let (state, actions) = session_step(SessionState::Closed, SessionEvent::SocketPing);
    assert_eq!(state, SessionState::Closed);
    assert!(actions.is_empty());
}
