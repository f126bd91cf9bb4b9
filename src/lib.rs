//! Peer-wire networking core of a BitTorrent-style client: token ranges and
//! generation-tagged slot tables, bounded byte buffers with drain loops, the
//! handshake and peer-session state machines, the torrent registry and the
//! reactor that routes readiness events between them.
use vstd::prelude::*;

pub mod buffer;
pub mod drain;
pub mod wire;
pub mod slab;
pub mod registry;
pub mod handshake;
pub mod peer;
pub mod tracker;
pub mod reactor;

verus! {

} // verus!
