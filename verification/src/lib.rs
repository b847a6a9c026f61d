//! Core of a real-time text broadcast relay: a peer registry with per-peer
//! FIFO mailboxes, and the routing rules that fan one sender's text out to
//! every other registered peer.
//!
//! The registry ([`registry::PeerRegistry`]) is the single source of truth for
//! which peers are reachable; [`actor::handle_frame`] is the decision taken by
//! a connection's inbound loop for each frame it reads. The surrounding
//! network transport (accepting connections, the frame handshake, the
//! per-peer outbound writer) performs the actions these functions decide on.

pub mod actor;
pub mod laws;
pub mod registry;
