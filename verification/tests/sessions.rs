use chat_relay::server::ChatServer;
use chat_relay::session::ChatSession;
use chat_relay::session::InboundEvent;
use chat_relay::session::SessionAction;
use chat_relay::session::SessionState;
use chat_relay::session::CLIENT_TIMEOUT_MS;
use chat_relay::session::HEARTBEAT_INTERVAL_MS;

#[test]
fn session_life_cycle_states() {
    let mut c = ChatSession::new(String::from("lobby"), 100);
    assert_eq!(c.state, SessionState::Connecting);
    assert_eq!(c.id, 0);
    assert_eq!(c.room, "lobby");
    assert_eq!(c.hb, 100);
    c.on_registered(7);
    assert_eq!(c.id, 7);
    assert_eq!(c.state, SessionState::Active);
    let d = c.stopped();
    assert_eq!(d.id, 7);
    assert_eq!(d.room, "lobby");
    assert_eq!(c.state, SessionState::Closed);
}

#[test]
fn failed_registration_closes_the_session() {
    let mut c = ChatSession::new(String::from("lobby"), 0);
    c.on_register_failed();
    assert_eq!(c.state, SessionState::Closing);
}

#[test]
fn ping_refreshes_heartbeat_and_is_answered() {
    let mut c = ChatSession::new(String::from("r"), 0);
    c.on_registered(1);
    let a = c.handle_event(InboundEvent::Ping(vec![1, 2]), 42);
    assert_eq!(c.hb, 42);
    assert_eq!(c.state, SessionState::Active);
    match a {
        SessionAction::ReplyPong(payload) => assert_eq!(payload, vec![1, 2]),
        _ => panic!("a ping must be answered with a pong"),
    }
}

#[test]
fn pong_refreshes_heartbeat_silently() {
    let mut c = ChatSession::new(String::from("r"), 0);
    c.on_registered(1);
    let a = c.handle_event(InboundEvent::Pong, 37);
    assert_eq!(c.hb, 37);
    assert!(matches!(a, SessionAction::Ignore));
}

#[test]
fn text_becomes_a_trimmed_broadcast_request() {
    let mut c = ChatSession::new(String::from("lobby"), 0);
    c.on_registered(1);
    let a = c.handle_event(InboundEvent::Text(String::from("  hello \n")), 5);
    match a {
        SessionAction::Publish(m) => {
            assert_eq!(m.room, "lobby");
            assert_eq!(m.message, "hello");
        }
        _ => panic!("a text frame must become a broadcast request"),
    }
    // text does not count as a liveness signal
    assert_eq!(c.hb, 0);
    assert_eq!(c.state, SessionState::Active);
}

#[test]
fn binary_is_ignored() {
    let mut c = ChatSession::new(String::from("r"), 0);
    c.on_registered(1);
    let a = c.handle_event(InboundEvent::Binary(vec![0xde, 0xad]), 5);
    assert!(matches!(a, SessionAction::Ignore));
    assert_eq!(c.state, SessionState::Active);
}

#[test]
fn close_is_echoed_and_turns_to_teardown() {
    let mut c = ChatSession::new(String::from("r"), 0);
    c.on_registered(1);
    let a = c.handle_event(InboundEvent::Close(Some(String::from("bye"))), 5);
    match a {
        SessionAction::CloseTransport(reason) => assert_eq!(reason, Some(String::from("bye"))),
        _ => panic!("a close frame must close the transport"),
    }
    assert_eq!(c.state, SessionState::Closing);
}

#[test]
fn malformed_frame_stops_the_session() {
    let mut c = ChatSession::new(String::from("r"), 0);
    c.on_registered(1);
    let a = c.handle_event(InboundEvent::Malformed, 5);
    assert!(matches!(a, SessionAction::Stop));
    assert_eq!(c.state, SessionState::Closing);
}

#[test]
fn heartbeat_timeout_boundary() {
    let mut c = ChatSession::new(String::from("r"), 1000);
    c.on_registered(1);
    // silent for exactly the window: still alive, a probe goes out
    assert!(!c.heartbeat_tick(1000 + CLIENT_TIMEOUT_MS));
    assert_eq!(c.state, SessionState::Active);
    // one millisecond past the window: expired
    assert!(c.heartbeat_tick(1000 + CLIENT_TIMEOUT_MS + 1));
    assert_eq!(c.state, SessionState::Closing);
}

#[test]
fn timeout_window_is_twice_the_probe_interval() {
    assert_eq!(CLIENT_TIMEOUT_MS, 2 * HEARTBEAT_INTERVAL_MS);
}

#[test]
fn silent_session_is_evicted_from_both_registries() {
    // a connection goes silent; the heartbeat probe expires it and the
    // teardown removes it everywhere, with no close frame ever received
    let mut s: ChatServer<String> = ChatServer::new();
    let lobby = String::from("lobby");
    let mut c = ChatSession::new(lobby.clone(), 0);
    let id = s.connect(String::from("h"), &lobby);
    c.on_registered(id);
    let other = s.connect(String::from("h2"), &lobby);

    let expired = c.heartbeat_tick(CLIENT_TIMEOUT_MS + 1);
    assert!(expired);
    let d = c.stopped();
    s.disconnect(d.id, &d.room);

    assert_eq!(s.lookup(id), None);
    assert_eq!(s.members(&lobby), vec![other]);
    let plan = s.broadcast(&lobby, &String::from("anyone?"), None);
    let recipients: Vec<usize> = plan.iter().map(|p| p.0).collect();
    assert_eq!(recipients, vec![other]);
}

#[test]
fn heartbeat_refresh_keeps_the_session_alive() {
    let mut c = ChatSession::new(String::from("r"), 0);
    c.on_registered(1);
    let _ = c.handle_event(InboundEvent::Pong, CLIENT_TIMEOUT_MS);
    // the old start time is long past, but the pong reset the clock
    assert!(!c.heartbeat_tick(CLIENT_TIMEOUT_MS + HEARTBEAT_INTERVAL_MS));
    assert_eq!(c.state, SessionState::Active);
}
