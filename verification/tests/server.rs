//! The broadcast server's registry and fan-out planning.

use frame_relay::protocol::Message;
use frame_relay::relay::{relay, staging_path, StagingWriteError};
use frame_relay::server::BroadcastServer;
use frame_relay::session::{session_step, SessionAction, SessionEvent, SessionState};
use frame_relay::util::{NoneError, OptionIntoResult};

#[test]
fn staging_path_is_fixed() {
    assert_eq!(staging_path(), "/dev/shm/blender_bevy_frame");
}

#[test]
fn relay_substitutes_a_pointer() {
    let m = relay(true).unwrap();
    assert_eq!(m, Message::DataLocation(String::from("/dev/shm/blender_bevy_frame")));
}

#[test]
fn relay_reports_a_failed_write() {
    assert_eq!(relay(false), Err(StagingWriteError));
}

#[test]
fn accepted_clients_get_fresh_ids() {
    let mut server = BroadcastServer::new();
    assert_eq!(server.client_count(), 0);
    assert!(server.can_accept());
    let a = server.on_accept();
    let b = server.on_accept();
    let c = server.on_accept();
    assert_eq!((a, b, c), (0, 1, 2));
    assert_eq!(server.client_count(), 3);
}

#[test]
fn data_broadcast_reaches_every_client() {
    let mut server = BroadcastServer::new();
    let a = server.on_accept();
    let b = server.on_accept();
    let plan = server.on_producer_message(Message::Data(vec![1, 2, 3]), true).unwrap();
    assert_eq!(
        plan.message,
        Message::DataLocation(String::from("/dev/shm/blender_bevy_frame"))
    );
    assert_eq!(plan.targets, vec![a, b]);
}

#[test]
fn failed_staging_write_abandons_the_cycle() {
    let mut server = BroadcastServer::new();
    server.on_accept();
    let r = server.on_producer_message(Message::Data(vec![1]), false);
    assert_eq!(r.unwrap_err(), StagingWriteError);
    // the registry is untouched; the next cycle still reaches the client
    let plan = server.on_producer_message(Message::Data(vec![2]), true).unwrap();
    assert_eq!(plan.targets.len(), 1);
}

#[test]
fn non_data_messages_pass_through_unchanged() {
    let mut server = BroadcastServer::new();
    let a = server.on_accept();
    let plan = server.on_producer_message(Message::WelcomeClient, true).unwrap();
    assert_eq!(plan.message, Message::WelcomeClient);
    assert_eq!(plan.targets, vec![a]);
}

#[test]
fn failed_send_drops_exactly_that_client() {
    let mut server = BroadcastServer::new();
    let a = server.on_accept();
    let b = server.on_accept();
    let c = server.on_accept();
    let plan = server.on_producer_message(Message::Data(vec![9]), true).unwrap();
    assert_eq!(plan.targets, vec![a, b, c]);
    server.apply_send_results(&vec![true, false, true]);
    assert_eq!(server.client_count(), 2);
    let next = server.on_producer_message(Message::Data(vec![10]), true).unwrap();
    assert_eq!(next.targets, vec![a, c]);
}

#[test]
fn frame_with_no_clients_then_connect_then_frame() {
    // One broadcast cycle with nobody connected: the payload is staged, no
    // pointer is delivered, and no error comes back.
    let mut server = BroadcastServer::new();
    let plan = server.on_producer_message(Message::Data(vec![1, 2, 3]), true).unwrap();
    assert!(plan.targets.is_empty());
    // A client connects: it is welcomed exactly once and the earlier frame
    // is not replayed (the registry was empty when that cycle ran).
    let id = server.on_accept();
    let (state, actions) = session_step(SessionState::Connecting, SessionEvent::HandshakeOk);
    assert_eq!(state, SessionState::Active);
    assert_eq!(
        actions,
        vec![SessionAction::SendText(String::from("{\"WelcomeClient\":null}"))]
    );
    // The next frame reaches the connected client as a pointer to the
    // staging path, whose content is by then the new payload.
    let plan = server.on_producer_message(Message::Data(vec![4, 5, 6]), true).unwrap();
    assert_eq!(plan.targets, vec![id]);
    assert_eq!(
        plan.message,
        Message::DataLocation(String::from("/dev/shm/blender_bevy_frame"))
    );
}

#[test]
fn option_into_result() {
    let some: Option<u32> = Some(5);
    assert_eq!(some.into_result().unwrap(), 5);
    let none: Option<u32> = None;
    assert_eq!(*none.into_result().unwrap_err(), NoneError);
}
