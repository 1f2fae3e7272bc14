//! Relay and session core for a MIDI control-change relay.
//!
//! One authoritative endpoint logs in behind a shared secret and publishes a
//! table of exposed controller mappings; any number of viewers render that
//! table and send control-change events back. This crate holds the verified
//! core: session admission, the canonical exposure table, message routing,
//! the authority-side frame handling with its passthrough flag, and the
//! decision logic of the long-running tasks. Transports (HTTP, WebSocket,
//! channels, clipboard, hardware ports) live outside and hand the core plain
//! values.

pub mod client;
pub mod devices;
pub mod exposed_state;
pub mod listing;
pub mod router;
pub mod session;
pub mod store;
pub mod tasks;
pub mod text;

pub use client::parse_message;
