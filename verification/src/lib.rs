//! A WebSocket fan-out server's core: publish once, every subscriber gets it.
//!
//! Clients connect, present a token, subscribe to channels by name, and receive every
//! message published on those channels as JSON text frames. Channels are strings and
//! payloads are opaque JSON, embedded verbatim and serialised once per publish.
//!
//! This crate holds the parts of the server that decide things: the wire protocol and
//! how its frames are written ([`protocol`]), the registry of connections and their
//! subscriptions ([`registry`]), token validation and per-channel authorisation
//! ([`auth`]), snapshots ([`snapshot`]), the per-connection state machine
//! ([`server`]) and the shared-memory input ([`outcry_source`]). Sockets, tasks,
//! locks and timers belong to whatever runs these functions.

pub mod auth;
pub mod error;
pub mod json;
pub mod outbox;
pub mod outcry_source;
pub mod protocol;
pub mod registry;
pub mod server;
pub mod snapshot;

pub use auth::{AllowAll, Authorizer, ClaimValue, Claims, HmacJwt, StaticToken, TokenValidator};
pub use error::{Error, Result};
pub use protocol::{ClientMessage, Frame, RawJson, Rejected, ServerMessage};
pub use registry::{ConnectionId, Metrics, Registry};
pub use server::Config;
pub use snapshot::{LastValue, NoSnapshots, SnapshotSource};
