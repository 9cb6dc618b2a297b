//! Per-connection session state machine.
//!
//! A session owns exactly one client connection from transport upgrade to
//! termination. The step function here is pure: the surrounding task reads
//! one event from its channel or its socket, applies [`session_step`], and
//! performs the returned actions (socket writes, a pong, or delivery to the
//! producer's inbound queue). A session never touches the broadcast server's
//! registry or any other session's state, so whatever ends one session —
//! malformed input, a closed socket, a failed write — is structurally unable
//! to affect the others.

use crate::protocol::{
    decode, encode, lemma_encode_injective, spec_decodable, spec_decoded, spec_encode, Message,
    MessageModel,
};
use vstd::prelude::*;

verus! {

/// The lifecycle of one client connection.
#[derive(Clone, Copy, Debug, PartialEq, Eq, Structural)]
pub enum SessionState {
    /// The transport upgrade has not completed yet.
    Connecting,
    /// The session exchanges messages.
    Active,
    /// The session is over; its task ends.
    Closed,
}

/// One event a session task can observe.
#[derive(Clone, Debug)]
pub enum SessionEvent {
    /// The transport handshake completed.
    HandshakeOk,
    /// The transport handshake failed; fatal only to this session.
    HandshakeFailed,
    /// The broadcast server put a message on this session's channel.
    Outbound(Message),
    /// This session's channel was closed.
    OutboundClosed,
    /// A text frame arrived on the socket.
    SocketText(String),
    /// A ping frame arrived on the socket.
    SocketPing,
    /// A binary frame arrived on the socket; an irrelevant heartbeat.
    SocketBinary,
    /// The socket closed or failed while reading.
    SocketClosed,
    /// A socket write failed.
    WriteFailed,
}

/// Mathematical model of a [`SessionEvent`].
pub enum SessionEventModel {
    HandshakeOk,
    HandshakeFailed,
    Outbound(MessageModel),
    OutboundClosed,
    SocketText(Seq<char>),
    SocketPing,
    SocketBinary,
    SocketClosed,
    WriteFailed,
}

impl View for SessionEvent {
    type V = SessionEventModel;

    open spec fn view(&self) -> SessionEventModel {
        match self {
            SessionEvent::HandshakeOk => SessionEventModel::HandshakeOk,
            SessionEvent::HandshakeFailed => SessionEventModel::HandshakeFailed,
            SessionEvent::Outbound(m) => SessionEventModel::Outbound(m@),
            SessionEvent::OutboundClosed => SessionEventModel::OutboundClosed,
            SessionEvent::SocketText(t) => SessionEventModel::SocketText(t@),
            SessionEvent::SocketPing => SessionEventModel::SocketPing,
            SessionEvent::SocketBinary => SessionEventModel::SocketBinary,
            SessionEvent::SocketClosed => SessionEventModel::SocketClosed,
            SessionEvent::WriteFailed => SessionEventModel::WriteFailed,
        }
    }
}

/// One action a session task must perform after a step.
#[derive(Clone, Debug, PartialEq, Eq)]
pub enum SessionAction {
    /// Write this text frame to the socket.
    SendText(String),
    /// Answer a ping with a pong frame.
    SendPong,
    /// Hand this decoded client message to the producer's inbound queue.
    Deliver(Message),
}

/// Mathematical model of a [`SessionAction`].
pub enum SessionActionModel {
    SendText(Seq<char>),
    SendPong,
    Deliver(MessageModel),
}

impl View for SessionAction {
    type V = SessionActionModel;

    open spec fn view(&self) -> SessionActionModel {
        match self {
            SessionAction::SendText(t) => SessionActionModel::SendText(t@),
            SessionAction::SendPong => SessionActionModel::SendPong,
            SessionAction::Deliver(m) => SessionActionModel::Deliver(m@),
        }
    }
}

/// The session transition relation: next state and the actions owed, for
/// every state and event.
pub open spec fn spec_session_step(s: SessionState, e: SessionEventModel) -> (
    SessionState,
    Seq<SessionActionModel>,
) {
    match (s, e) {
        (SessionState::Closed, _) => (SessionState::Closed, Seq::empty()),
        (SessionState::Connecting, SessionEventModel::HandshakeOk) => (
            SessionState::Active,
            seq![SessionActionModel::SendText(spec_encode(MessageModel::WelcomeClient))],
        ),
        (SessionState::Connecting, _) => (SessionState::Closed, Seq::empty()),
        (SessionState::Active, SessionEventModel::Outbound(m)) => (
            SessionState::Active,
            seq![SessionActionModel::SendText(spec_encode(m))],
        ),
        (SessionState::Active, SessionEventModel::SocketText(t)) => if spec_decodable(t) {
            (SessionState::Active, seq![SessionActionModel::Deliver(spec_decoded(t))])
        } else {
            (SessionState::Closed, Seq::empty())
        },
        (SessionState::Active, SessionEventModel::SocketPing) => (
            SessionState::Active,
            seq![SessionActionModel::SendPong],
        ),
        (SessionState::Active, SessionEventModel::SocketBinary) => (
            SessionState::Active,
            Seq::empty(),
        ),
        (SessionState::Active, _) => (SessionState::Closed, Seq::empty()),
    }
}

/// Performs one session step: encodes outbound messages for the socket,
/// decodes incoming text, answers pings, and closes on any failure of this
/// connection alone.
pub fn session_step(state: SessionState, event: SessionEvent) -> (r: (
    SessionState,
    Vec<SessionAction>,
))
    ensures
        r.0 == spec_session_step(state, event@).0,
        r.1@.map_values(|a: SessionAction| a@) == spec_session_step(state, event@).1,
{
    match (state, event) {
        (SessionState::Closed, _) => {
            let acts: Vec<SessionAction> = Vec::new();
            proof {
                assert(acts@.map_values(|a: SessionAction| a@) =~= Seq::<
                    SessionActionModel,
                >::empty());
            }
            (SessionState::Closed, acts)
        },
        (SessionState::Connecting, SessionEvent::HandshakeOk) => {
            let mut acts: Vec<SessionAction> = Vec::new();
            acts.push(SessionAction::SendText(encode(&Message::WelcomeClient)));
            proof {
                assert(acts@.map_values(|a: SessionAction| a@) =~= seq![
                    SessionActionModel::SendText(spec_encode(MessageModel::WelcomeClient)),
                ]);
            }
            (SessionState::Active, acts)
        },
        (SessionState::Connecting, _) => {
            let acts: Vec<SessionAction> = Vec::new();
            proof {
                assert(acts@.map_values(|a: SessionAction| a@) =~= Seq::<
                    SessionActionModel,
                >::empty());
            }
            (SessionState::Closed, acts)
        },
        (SessionState::Active, SessionEvent::Outbound(m)) => {
            let mut acts: Vec<SessionAction> = Vec::new();
            let text = encode(&m);
            acts.push(SessionAction::SendText(text));
            proof {
                assert(acts@.map_values(|a: SessionAction| a@) =~= seq![
                    SessionActionModel::SendText(spec_encode(m@)),
                ]);
            }
            (SessionState::Active, acts)
        },
        (SessionState::Active, SessionEvent::SocketText(t)) => {
            match decode(t.as_str()) {
                Ok(m) => {
                    proof {
                        assert(spec_decodable(t@));
                        assert(t@ == spec_encode(spec_decoded(t@)));
                        lemma_encode_injective(m@, spec_decoded(t@));
                    }
                    let mut acts: Vec<SessionAction> = Vec::new();
                    acts.push(SessionAction::Deliver(m));
                    proof {
                        assert(acts@.map_values(|a: SessionAction| a@) =~= seq![
                            SessionActionModel::Deliver(spec_decoded(t@)),
                        ]);
                    }
                    (SessionState::Active, acts)
                },
                Err(_) => {
                    let acts: Vec<SessionAction> = Vec::new();
                    proof {
                        assert(acts@.map_values(|a: SessionAction| a@) =~= Seq::<
                            SessionActionModel,
                        >::empty());
                    }
                    (SessionState::Closed, acts)
                },
            }
        },
        (SessionState::Active, SessionEvent::SocketPing) => {
            let mut acts: Vec<SessionAction> = Vec::new();
            acts.push(SessionAction::SendPong);
            proof {
                assert(acts@.map_values(|a: SessionAction| a@) =~= seq![
                    SessionActionModel::SendPong,
                ]);
            }
            (SessionState::Active, acts)
        },
        (SessionState::Active, SessionEvent::SocketBinary) => {
            let acts: Vec<SessionAction> = Vec::new();
            proof {
                assert(acts@.map_values(|a: SessionAction| a@) =~= Seq::<
                    SessionActionModel,
                >::empty());
            }
            (SessionState::Active, acts)
        },
        (SessionState::Active, _) => {
            let acts: Vec<SessionAction> = Vec::new();
            proof {
                assert(acts@.map_values(|a: SessionAction| a@) =~= Seq::<
                    SessionActionModel,
                >::empty());
            }
            (SessionState::Closed, acts)
        },
    }
}

/// Folds a whole event trace through the step relation, collecting every
/// action the session owes, from the initial `Connecting` state onward.
pub open spec fn spec_session_run(s: SessionState, events: Seq<SessionEventModel>) -> (
    SessionState,
    Seq<SessionActionModel>,
)
    decreases events.len(),
{
    if events.len() == 0 {
        (s, Seq::empty())
    } else {
        let prev = spec_session_run(s, events.drop_last());
        let last = spec_session_step(prev.0, events.last());
        (last.0, prev.1 + last.1)
    }
}

/// Whether an action sends the welcome text.
pub open spec fn is_welcome_send(a: SessionActionModel) -> bool {
    a == SessionActionModel::SendText(spec_encode(MessageModel::WelcomeClient))
}

/// No step returns to `Connecting`: the handshake happens at most once.
proof fn lemma_step_leaves_connecting(s: SessionState, e: SessionEventModel)
    ensures
        spec_session_step(s, e).0 != SessionState::Connecting,
{
}

/// Past the handshake, a session sends the welcome text only if the producer
/// itself broadcast a `WelcomeClient` message.
proof fn lemma_step_no_welcome(s: SessionState, e: SessionEventModel)
    requires
        s != SessionState::Connecting,
        e != SessionEventModel::Outbound(MessageModel::WelcomeClient),
    ensures
        forall|k: int|
            0 <= k < spec_session_step(s, e).1.len() ==> !is_welcome_send(
                #[trigger] spec_session_step(s, e).1[k],
            ),
{
    if s is Active {
        match e {
            SessionEventModel::Outbound(m) => {
                if spec_encode(m) == spec_encode(MessageModel::WelcomeClient) {
                    lemma_encode_injective(m, MessageModel::WelcomeClient);
                    assert(false);
                }
            },
            _ => {},
        }
    }
}

/// A run that starts past the handshake sends no welcome and never returns to
/// `Connecting`.
proof fn lemma_run_no_welcome(s: SessionState, events: Seq<SessionEventModel>)
    requires
        s != SessionState::Connecting,
        forall|i: int|
            0 <= i < events.len() ==> #[trigger] events[i] != SessionEventModel::Outbound(
                MessageModel::WelcomeClient,
            ),
    ensures
        spec_session_run(s, events).0 != SessionState::Connecting,
        forall|k: int|
            0 <= k < spec_session_run(s, events).1.len() ==> !is_welcome_send(
                #[trigger] spec_session_run(s, events).1[k],
            ),
    decreases events.len(),
{
    if events.len() > 0 {
        assert(forall|i: int|
            0 <= i < events.drop_last().len() ==> #[trigger] events.drop_last()[i]
                != SessionEventModel::Outbound(MessageModel::WelcomeClient));
        lemma_run_no_welcome(s, events.drop_last());
        let prev = spec_session_run(s, events.drop_last());
        lemma_step_leaves_connecting(prev.0, events.last());
        lemma_step_no_welcome(prev.0, events.last());
        let last = spec_session_step(prev.0, events.last());
        assert forall|k: int|
            0 <= k < spec_session_run(s, events).1.len() implies !is_welcome_send(
            #[trigger] spec_session_run(s, events).1[k],
        ) by {
            if k < prev.1.len() {
                assert(spec_session_run(s, events).1[k] == prev.1[k]);
            } else {
                assert(spec_session_run(s, events).1[k] == last.1[k - prev.1.len()]);
            }
        }
    }
}

/// Splitting a trace splits its fold.
proof fn lemma_run_append(s: SessionState, a: Seq<SessionEventModel>, b: Seq<SessionEventModel>)
    ensures
        spec_session_run(s, a + b).0 == spec_session_run(spec_session_run(s, a).0, b).0,
        spec_session_run(s, a + b).1 == spec_session_run(s, a).1 + spec_session_run(
            spec_session_run(s, a).0,
            b,
        ).1,
    decreases b.len(),
{
    if b.len() == 0 {
        assert(a + b =~= a);
        assert(spec_session_run(s, a).1 + Seq::<SessionActionModel>::empty() =~= spec_session_run(
            s,
            a,
        ).1);
    } else {
        assert((a + b).drop_last() =~= a + b.drop_last());
        assert((a + b).last() == b.last());
        lemma_run_append(s, a, b.drop_last());
        let mid = spec_session_run(s, a);
        let prev = spec_session_run(mid.0, b.drop_last());
        let last = spec_session_step(prev.0, b.last());
        assert(spec_session_run(s, a + b).1 =~= mid.1 + (prev.1 + last.1));
    }
}

/// Every accepted connection is welcomed exactly once: in any event trace
/// that opens with a completed handshake, and in which the producer itself
/// never broadcasts a `WelcomeClient`, the very first action the session
/// performs is the one welcome send, and no later action repeats it.
pub proof fn lemma_welcome_exactly_once(events: Seq<SessionEventModel>)
    requires
        events.len() >= 1,
        events[0] == SessionEventModel::HandshakeOk,
        forall|i: int|
            0 <= i < events.len() ==> #[trigger] events[i] != SessionEventModel::Outbound(
                MessageModel::WelcomeClient,
            ),
    ensures
        spec_session_run(SessionState::Connecting, events).1.len() >= 1,
        spec_session_run(SessionState::Connecting, events).1[0] == SessionActionModel::SendText(
            spec_encode(MessageModel::WelcomeClient),
        ),
        forall|k: int|
            1 <= k < spec_session_run(SessionState::Connecting, events).1.len()
                ==> !is_welcome_send(
                #[trigger] spec_session_run(SessionState::Connecting, events).1[k],
            ),
{
    let first = events.subrange(0, 1);
    let rest = events.skip(1);
    assert(events =~= first + rest);
    lemma_run_append(SessionState::Connecting, first, rest);
    assert(first.drop_last() =~= Seq::<SessionEventModel>::empty());
    assert(first.last() == events[0]);
    assert(spec_session_run(SessionState::Connecting, Seq::<SessionEventModel>::empty()) == (
    SessionState::Connecting,
    Seq::<SessionActionModel>::empty(),
    ));
    let head_run = spec_session_run(SessionState::Connecting, first);
    assert(head_run.0 == spec_session_step(SessionState::Connecting, events[0]).0);
    assert(head_run.1 =~= spec_session_step(SessionState::Connecting, events[0]).1);
    assert(head_run.0 == SessionState::Active);
    assert(head_run.1 =~= seq![
        SessionActionModel::SendText(spec_encode(MessageModel::WelcomeClient)),
    ]);
    assert(forall|i: int|
        0 <= i < rest.len() ==> #[trigger] rest[i] != SessionEventModel::Outbound(
            MessageModel::WelcomeClient,
        ));
    lemma_run_no_welcome(SessionState::Active, rest);
    let tail_run = spec_session_run(SessionState::Active, rest);
    let whole = spec_session_run(SessionState::Connecting, events);
    assert(whole.1 == head_run.1 + tail_run.1);
    assert(whole.1[0] == head_run.1[0]);
    assert forall|k: int| 1 <= k < whole.1.len() implies !is_welcome_send(
        #[trigger] whole.1[k],
    ) by {
        assert(whole.1[k] == tail_run.1[k - 1]);
    }
}

/// A malformed text frame ends only the session it arrived on: the step
/// closes this session and performs no action at all, so nothing reaches the
/// registry, the producer, or any other session's channel — those are not
/// even inputs of the step.
pub proof fn lemma_malformed_input_isolated(t: Seq<char>)
    requires
        !spec_decodable(t),
    ensures
        spec_session_step(SessionState::Active, SessionEventModel::SocketText(t)).0
            == SessionState::Closed,
        spec_session_step(SessionState::Active, SessionEventModel::SocketText(t)).1
            == Seq::<SessionActionModel>::empty(),
{
}

/// A ping is answered with exactly one pong and changes nothing else: the
/// session stays `Active` and owes no other action, so neither the registry
/// nor any other session is affected.
pub proof fn lemma_ping_answered_in_place()
    ensures
        spec_session_step(SessionState::Active, SessionEventModel::SocketPing).0
            == SessionState::Active,
        spec_session_step(SessionState::Active, SessionEventModel::SocketPing).1 == seq![
            SessionActionModel::SendPong,
        ],
{
}

} // verus!
