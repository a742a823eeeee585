//! Core coordination layer of a peer-to-peer group chat: tickets that invite
//! peers into a room, the wire protocol for the two message kinds exchanged
//! inside a room, the registry of joined rooms, and the logic that turns the
//! inbound event stream of a room into user-visible chat state.
//!
//! The network transport, the clipboard and the window shell live outside this
//! crate; they hand plain values (strings, byte vectors) in and out.

pub mod errors;
pub mod hexfmt;
pub mod message;
pub mod peer;
pub mod registry;
pub mod session;
pub mod ticket;
pub mod wire;
pub mod workflow;
