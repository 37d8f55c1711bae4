//! Life cycle of one connection: `Connecting -> Active -> Closing -> Closed`,
//! with heartbeat supervision. The session decides; the transport performs.
//! Time reaches the session only as `now` arguments (milliseconds on an
//! arbitrary monotone clock), so every rule here is a pure function of the
//! session state and the event.

use vstd::prelude::*;

verus! {

/// Interval between two heartbeat probes, in milliseconds.
pub const HEARTBEAT_INTERVAL_MS: u64 = 5000;

/// A connection silent for longer than this window is considered dead,
/// in milliseconds (twice the probe interval).
pub const CLIENT_TIMEOUT_MS: u64 = 10000;

/// Where one session stands in its life cycle.
#[derive(Clone, Copy, Debug, PartialEq, Eq, Structural)]
pub enum SessionState {
    /// Transport handshake accepted, registration not answered yet.
    Connecting,
    /// Registered and under heartbeat supervision.
    Active,
    /// Teardown requested; the registries are to be notified.
    Closing,
    /// Terminal.
    Closed,
}

/// Notice that a closing session owes the registries: remove `id` from
/// `room` and drop its delivery handle.
pub struct Disconnect {
    pub id: usize,
    pub room: String,
}

/// A broadcast request a session hands the relay: the payload, bound for
/// the session's own room (the protocol allows no cross-room posting).
pub struct ClientMessage {
    pub room: String,
    pub message: String,
}

/// One inbound protocol frame, as the transport hands it over.
pub enum InboundEvent {
    /// Liveness probe from the peer, with its payload to echo.
    Ping(Vec<u8>),
    /// Liveness reply from the peer.
    Pong,
    /// A chat payload.
    Text(String),
    /// Binary payload: not part of the protocol, ignored.
    Binary(Vec<u8>),
    /// The peer closes, possibly with a reason to echo.
    Close(Option<String>),
    /// A malformed or unsupported frame, or a transport error: fatal to
    /// this one session.
    Malformed,
}

/// What the transport is to do after one inbound frame.
pub enum SessionAction {
    /// Echo the ping payload back as a pong.
    ReplyPong(Vec<u8>),
    /// Hand this broadcast request to the relay.
    Publish(ClientMessage),
    /// Nothing.
    Ignore,
    /// Close the transport, echoing the peer's reason, then stop.
    CloseTransport(Option<String>),
    /// Stop the session without a close handshake.
    Stop,
}

/// What `str::trim` returns for a given sequence of characters; the
/// argument alone decides it.
pub uninterp spec fn trim_of(s: Seq<char>) -> Seq<char>;

/// Relies on `str::trim`: returns the input without leading and trailing
/// whitespace, a function of the characters alone.
#[verifier::external_body]
fn trim_owned(s: &String) -> (r: String)
    ensures
        r@ == trim_of(s@),
{
    s.trim().to_owned()
}

/// One live connection as the relay sees it: its identifier, the room it
/// joined for its whole life, and the timestamp of the last liveness signal.
pub struct ChatSession {
    pub id: usize,
    pub room: String,
    pub hb: u64,
    pub state: SessionState,
}

impl ChatSession {
    /// A session fresh from the transport handshake: no identifier yet
    /// (the placeholder `0` until registration answers), heartbeat clock
    /// started at `now`.
    pub fn new(room: String, now: u64) -> (s: Self)
        ensures
            s.id == 0,
            s.room@ == room@,
            s.hb == now,
            s.state is Connecting,
    {
        ChatSession { id: 0, room, hb: now, state: SessionState::Connecting }
    }

    /// Registration answered with a fresh identifier: the session turns
    /// active and keeps that identifier for its whole life.
    pub fn on_registered(&mut self, id: usize)
        requires
            old(self).state is Connecting,
        ensures
            final(self).id == id,
            final(self).room@ == old(self).room@,
            final(self).hb == old(self).hb,
            final(self).state is Active,
    {
        self.id = id;
        self.state = SessionState::Active;
    }

    /// Registration failed: the one connecting session is torn down;
    /// nothing else is touched.
    pub fn on_register_failed(&mut self)
        requires
            old(self).state is Connecting,
        ensures
            final(self).id == old(self).id,
            final(self).room@ == old(self).room@,
            final(self).hb == old(self).hb,
            final(self).state is Closing,
    {
        self.state = SessionState::Closing;
    }

    /// Whether the connection has been silent past the timeout window at
    /// time `now`: strictly longer than `CLIENT_TIMEOUT_MS` since the last
    /// liveness signal.
    pub open spec fn spec_expired(self, now: u64) -> bool {
        now - self.hb > CLIENT_TIMEOUT_MS
    }

    /// The recurring heartbeat probe: either the connection is past the
    /// timeout window and the session is cancelled unconditionally, or a
    /// probe is owed to the peer.
    pub fn heartbeat_tick(&mut self, now: u64) -> (expired: bool)
        requires
            old(self).state is Active,
            old(self).hb <= now,
        ensures
            expired == old(self).spec_expired(now),
            final(self).id == old(self).id,
            final(self).room@ == old(self).room@,
            final(self).hb == old(self).hb,
            final(self).state == if expired {
                SessionState::Closing
            } else {
                SessionState::Active
            },
    {
        if now - self.hb > CLIENT_TIMEOUT_MS {
            self.state = SessionState::Closing;
            true
        } else {
            false
        }
    }

    /// One inbound frame while active: a ping or pong refreshes the
    /// heartbeat clock (and a ping is answered at once); a text frame
    /// becomes a broadcast request for the session's own room, its payload
    /// trimmed; binary is ignored; a close frame or a malformed one turns
    /// the session towards teardown.
    pub fn handle_event(&mut self, event: InboundEvent, now: u64) -> (a: SessionAction)
        requires
            old(self).state is Active,
            old(self).hb <= now,
        ensures
            final(self).id == old(self).id,
            final(self).room@ == old(self).room@,
            old(self).hb <= final(self).hb <= now,
            match event {
                InboundEvent::Ping(payload) => {
                    &&& final(self).hb == now
                    &&& final(self).state is Active
                    &&& a == SessionAction::ReplyPong(payload)
                },
                InboundEvent::Pong => {
                    &&& final(self).hb == now
                    &&& final(self).state is Active
                    &&& a is Ignore
                },
                InboundEvent::Text(text) => {
                    &&& final(self).hb == old(self).hb
                    &&& final(self).state is Active
                    &&& a matches SessionAction::Publish(m) && m.room@ == old(self).room@
                        && m.message@ == trim_of(text@)
                },
                InboundEvent::Binary(_) => {
                    &&& final(self).hb == old(self).hb
                    &&& final(self).state is Active
                    &&& a is Ignore
                },
                InboundEvent::Close(reason) => {
                    &&& final(self).hb == old(self).hb
                    &&& final(self).state is Closing
                    &&& a == SessionAction::CloseTransport(reason)
                },
                InboundEvent::Malformed => {
                    &&& final(self).hb == old(self).hb
                    &&& final(self).state is Closing
                    &&& a is Stop
                },
            },
    {
        match event {
            InboundEvent::Ping(payload) => {
                self.hb = now;
                SessionAction::ReplyPong(payload)
            }
            InboundEvent::Pong => {
                self.hb = now;
                SessionAction::Ignore
            }
            InboundEvent::Text(text) => {
                let trimmed = trim_owned(&text);
                SessionAction::Publish(
                    ClientMessage { room: self.room.clone(), message: trimmed },
                )
            }
            InboundEvent::Binary(_) => SessionAction::Ignore,
            InboundEvent::Close(reason) => {
                self.state = SessionState::Closing;
                SessionAction::CloseTransport(reason)
            }
            InboundEvent::Malformed => {
                self.state = SessionState::Closing;
                SessionAction::Stop
            }
        }
    }

    /// The session has stopped: it owes the registries its removal. The
    /// session is terminal afterwards; no further operation is permitted.
    pub fn stopped(&mut self) -> (d: Disconnect)
        ensures
            d.id == old(self).id,
            d.room@ == old(self).room@,
            final(self).id == old(self).id,
            final(self).room@ == old(self).room@,
            final(self).hb == old(self).hb,
            final(self).state is Closed,
    {
        self.state = SessionState::Closed;
        Disconnect { id: self.id, room: self.room.clone() }
    }
}

} // verus!
