//! Rendezvous relay: registry, pairing handshake and port matchmaking on the
//! relay side, and the decisions of the client side (replies, hole punching).
use vstd::prelude::*;

pub mod packets;
pub mod registry;
pub mod handshake;
pub mod matchmaking;
pub mod directory;
pub mod relay;
pub mod traversal;
pub mod client;
pub mod codec;
