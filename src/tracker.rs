//! The tracker session: a connection that coordinates one torrent with a
//! tracker. Only its place in the reactor is settled here.
use vstd::prelude::*;
use crate::registry::Torrent;

verus! {

/// Why a tracker session fails.
#[derive(Debug, Clone, Copy, PartialEq, Eq, Structural)]
pub enum TrackerError {
    /// The session's torrent is not registered.
    UnknownTorrent,
}

/// A connection to a tracker on behalf of one torrent.
pub struct TrackerSession {
    pub info_hash: Vec<u8>,
}

impl TrackerSession {
    pub fn new(info_hash: Vec<u8>) -> (r: TrackerSession)
        ensures
            r.info_hash@ == info_hash@,
    {
        TrackerSession { info_hash }
    }

    /// Handles one readiness event for the torrent this session serves. The
    /// tracker exchange is not part of this library: the event succeeds and
    /// the torrent is left as it was.
    pub fn ready(&mut self, torrent: &mut Torrent, readable: bool, writable: bool) -> (r: Result<(), TrackerError>)
        ensures
            r is Ok,
            *final(torrent) == *old(torrent),
            *final(self) == *old(self),
    {
        Ok(())
    }
}

} // verus!
