//! In-memory chat relay: a connection registry, a room registry, a broadcast
//! engine, and the per-connection session life cycle (heartbeat supervision
//! included). The registries and the broadcast plan are verified against a
//! map-and-sequence model; the transport itself lives outside this crate and
//! only hands plain values in and out.

pub mod laws;
pub mod query;
pub mod server;
pub mod session;

pub use server::BroadcastMessage;
pub use server::ChatServer;
pub use server::ServerView;
pub use session::ChatSession;
pub use session::SessionState;
