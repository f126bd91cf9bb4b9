//! The reactor: the token space, the three slot tables, the registry, and
//! the routing of each readiness event to the session that owns its token.
use vstd::prelude::*;
use crate::handshake::{HandshakeError, HandshakeSession};
use crate::peer::{PeerError, PeerSession};
use crate::registry::{lemma_routed_keeps_known, Registry, RegistryError, Torrent};
use crate::slab::{lemma_same_except_refl, lemma_same_except_trans, Key, SlotError, SlotTable};
use crate::tracker::{TrackerError, TrackerSession};
use crate::registry::routed;
use crate::drain::min_nat;
use crate::peer::sat_add;
use crate::wire::{
    handshake_bytes, copy_range, encode_frame, encode_frames, frame_oversized, handshake_complete, handshake_hash, handshake_malformed,
    lemma_frames_round_trip, min_int, protocol_prefix, split_frames, HANDSHAKE_LEN, ID_LEN, MAX_FRAME_LEN,
    PREFIX_LEN,
};

verus! {

/// First token of the peer-connection range.
pub const PEER_BASE: usize = 4096;
/// Slots for peer connections.
pub const PEER_CAP: usize = 4096;
/// First token of the handshake range.
pub const HANDSHAKE_BASE: usize = 8192;
/// Slots for handshakes.
pub const HANDSHAKE_CAP: usize = 128;
/// First token of the tracker range.
pub const TRACKER_BASE: usize = 8320;
/// Slots for trackers.
pub const TRACKER_CAP: usize = 128;

/// Which kind of connection a token range holds.
#[derive(Debug, Clone, Copy, PartialEq, Eq, Structural)]
pub enum ConnKind {
    Peer,
    Handshake,
    Tracker,
}

/// The range a token falls in, if any. The ranges do not overlap.
pub open spec fn kind_of(token: int) -> Option<ConnKind> {
    if PEER_BASE <= token < PEER_BASE + PEER_CAP {
        Some(ConnKind::Peer)
    } else if HANDSHAKE_BASE <= token < HANDSHAKE_BASE + HANDSHAKE_CAP {
        Some(ConnKind::Handshake)
    } else if TRACKER_BASE <= token < TRACKER_BASE + TRACKER_CAP {
        Some(ConnKind::Tracker)
    } else {
        None
    }
}

/// Classifies a token by the range it falls in.
pub fn classify(token: usize) -> (r: Option<ConnKind>)
    ensures
        r == kind_of(token as int),
{
    if PEER_BASE <= token && token < PEER_BASE + PEER_CAP {
        Some(ConnKind::Peer)
    } else if HANDSHAKE_BASE <= token && token < HANDSHAKE_BASE + HANDSHAKE_CAP {
        Some(ConnKind::Handshake)
    } else if TRACKER_BASE <= token && token < TRACKER_BASE + TRACKER_CAP {
        Some(ConnKind::Tracker)
    } else {
        None
    }
}

/// Why a connection was torn down.
#[derive(Debug, Clone, Copy, PartialEq, Eq, Structural)]
pub enum Teardown {
    Handshake(HandshakeError),
    Peer(PeerError),
    Tracker(TrackerError),
    /// The peer table was full when the handshake was to be promoted.
    CapacityExceeded,
}

/// What the reactor did with one readiness event.
#[derive(Debug)]
pub enum Outcome {
    /// The key names no live connection; nothing was done.
    Unknown,
    /// The session handled the event and goes on.
    Progress { consumed: usize, sent: Vec<u8> },
    /// The handshake finished: it now lives on as a peer session under a new key.
    Promoted { peer: Key, consumed: usize, sent: Vec<u8> },
    /// The session failed: its slot is freed and its socket is to be closed.
    Closed { reason: Teardown },
}

/// What a readiness event on a live peer session did: it either failed on an
/// oversized frame and was freed, or routed every complete frame, in stream
/// order, to its torrent; either way the frames before the failure are routed
/// and no other peer slot changes.
pub open spec fn peer_step(
    before: TorrentClient,
    after: TorrentClient,
    key: Key,
    readable: bool,
    incoming: Seq<u8>,
    writable: bool,
    window: usize,
    r: Outcome,
) -> bool {
    before.connections.resolves(key) ==> ({
        let s = before.connections.value_at(key);
        let stream = s.ingress@ + if readable { incoming } else { Seq::<u8>::empty() };
        let n = if writable { min_nat(s.egress@.len(), window as nat) } else { 0 };
        &&& (r is Closed || r is Progress)
        &&& (r is Closed <==> frame_oversized(split_frames(stream).1))
        &&& before.connections.same_except(&after.connections, key.token as int)
        &&& routed(before.torrents, after.torrents, s.info_hash@, split_frames(stream).0)
        &&& (r is Closed ==> r == (Outcome::Closed { reason: Teardown::Peer(PeerError::Malformed) })
            && !after.connections.resolves(key) && after.connections.stale(key))
        &&& (r matches Outcome::Progress { consumed, sent } ==> {
            &&& after.connections.resolves(key)
            &&& consumed == if readable { incoming.len() } else { 0 }
            &&& sent@ == s.egress@.subrange(0, n as int)
            &&& after.connections.value_at(key).ingress@ == split_frames(stream).1
            &&& after.connections.value_at(key).egress@ == s.egress@.subrange(n as int, s.egress@.len() as int)
            &&& after.connections.value_at(key).info_hash@ == s.info_hash@
            &&& after.connections.value_at(key).local.received == sat_add(s.local.received, split_frames(stream).0.len())
        })
    })
}

/// What a readiness event on a live handshake did: a malformed handshake or
/// one naming an unregistered torrent closes it; one naming a registered
/// torrent promotes it to a fresh peer session for that torrent when a peer
/// slot is free, and closes it for want of capacity otherwise; an incomplete
/// one stays live. A closed or promoted handshake's key is stale, and no other
/// handshake slot changes.
pub open spec fn handshake_step(
    before: TorrentClient,
    after: TorrentClient,
    key: Key,
    readable: bool,
    incoming: Seq<u8>,
    writable: bool,
    window: usize,
    r: Outcome,
) -> bool {
    before.handshakes.resolves(key) ==> ({
        let s = before.handshakes.value_at(key);
        let consumed = if readable { min_nat(incoming.len(), s.ingress.room_spec()) } else { 0 };
        let stream = s.ingress@ + incoming.subrange(0, consumed as int);
        let identifies = s.info_hash is None && handshake_complete(stream);
        let queued = if identifies { handshake_bytes(handshake_hash(stream), before.local_id@) } else { s.egress@ };
        let n = if writable { min_nat(queued.len(), window as nat) } else { 0 };
        &&& (r is Closed || r is Progress || r is Promoted)
        &&& before.handshakes.same_except(&after.handshakes, key.token as int)
        &&& ((r is Closed || r is Promoted) ==> !after.handshakes.resolves(key)
            && after.handshakes.stale(key))
        &&& (r is Closed ==> after.connections == before.connections)
        &&& (r matches Outcome::Progress { consumed: c, sent } ==> {
            &&& after.handshakes.resolves(key)
            &&& after.connections == before.connections
            &&& c == consumed
            &&& sent@ == queued.subrange(0, n as int)
            &&& after.handshakes.value_at(key).ingress@ == stream
            &&& after.handshakes.value_at(key).egress@ == queued.subrange(n as int, queued.len() as int)
        })
        &&& (handshake_malformed(stream) ==> r == (Outcome::Closed { reason: Teardown::Handshake(HandshakeError::Malformed) }))
        &&& (!handshake_malformed(stream) && !handshake_complete(stream) ==> r is Progress)
        &&& (identifies && !before.torrents.knows(handshake_hash(stream))
            ==> r == (Outcome::Closed { reason: Teardown::Handshake(HandshakeError::UnknownTorrent) }))
        &&& (identifies && before.torrents.knows(handshake_hash(stream)) && before.connections.has_vacancy()
            ==> r is Promoted)
        &&& (identifies && before.torrents.knows(handshake_hash(stream)) && !before.connections.has_vacancy()
            ==> r == (Outcome::Closed { reason: Teardown::CapacityExceeded }))
        &&& (r matches Outcome::Promoted { peer, consumed: c, sent } ==> {
            &&& before.connections.allocated(&after.connections, after.connections.value_at(peer), peer)
            &&& kind_of(peer.token as int) == Some(ConnKind::Peer)
            &&& c == consumed
            &&& sent@ == queued.subrange(0, n as int)
            &&& (identifies ==> after.connections.value_at(peer).info_hash@ == handshake_hash(stream))
            &&& (s.info_hash matches Some(h) ==> after.connections.value_at(peer).info_hash@ == h@)
            &&& after.connections.value_at(peer).ingress@.len() == 0
            &&& after.connections.value_at(peer).egress@ == queued.subrange(n as int, queued.len() as int)
            &&& after.connections.value_at(peer).local.received == 0
        })
    })
}

/// What a readiness event on a live tracker session did: it goes on when its
/// torrent is registered, and is closed and freed otherwise; no other tracker
/// slot changes.
pub open spec fn tracker_step(before: TorrentClient, after: TorrentClient, key: Key, r: Outcome) -> bool {
    before.trackers.resolves(key) ==> {
        &&& (r is Closed || r is Progress)
        &&& (r is Closed <==> !before.torrents.knows(before.trackers.value_at(key).info_hash@))
        &&& (r is Progress ==> after.trackers.resolves(key))
        &&& (r is Closed ==> r == (Outcome::Closed { reason: Teardown::Tracker(TrackerError::UnknownTorrent) })
            && !after.trackers.resolves(key) && after.trackers.stale(key))
        &&& before.trackers.same_except(&after.trackers, key.token as int)
    }
}

/// The client: one listening socket's worth of connections, in three tables,
/// and the torrents they serve.
pub struct TorrentClient {
    pub connections: SlotTable<PeerSession>,
    pub handshakes: SlotTable<HandshakeSession>,
    pub trackers: SlotTable<TrackerSession>,
    pub torrents: Registry,
    /// The peer identifier this side announces.
    pub local_id: Vec<u8>,
}

impl TorrentClient {
    /// Each table covers its range; every live session is well formed; every
    /// peer session's torrent is registered.
    pub open spec fn wf(&self) -> bool {
        &&& self.connections.wf()
        &&& self.handshakes.wf()
        &&& self.trackers.wf()
        &&& self.torrents.wf()
        &&& self.connections.base_spec() == PEER_BASE
        &&& self.connections.capacity_spec() == PEER_CAP
        &&& self.handshakes.base_spec() == HANDSHAKE_BASE
        &&& self.handshakes.capacity_spec() == HANDSHAKE_CAP
        &&& self.trackers.base_spec() == TRACKER_BASE
        &&& self.trackers.capacity_spec() == TRACKER_CAP
        &&& self.local_id@.len() == ID_LEN
        &&& forall|k: Key| #[trigger] self.connections.resolves(k) ==> self.connections.value_at(k).wf()
            && self.torrents.knows(self.connections.value_at(k).info_hash@)
        &&& forall|k: Key| #[trigger] self.handshakes.resolves(k) ==> self.handshakes.value_at(k).wf()
            && (self.handshakes.value_at(k).info_hash matches Some(h) ==> self.torrents.knows(h@))
    }

    /// A client with empty tables and no torrent.
    pub fn new(local_id: Vec<u8>) -> (r: TorrentClient)
        requires
            local_id@.len() == ID_LEN,
        ensures
            r.wf(),
            r.torrents.entries().len() == 0,
            r.connections.occupied() == 0,
            r.handshakes.occupied() == 0,
            r.trackers.occupied() == 0,
            r.local_id@ == local_id@,
    {
        TorrentClient {
            connections: SlotTable::new(PEER_BASE, PEER_CAP),
            handshakes: SlotTable::new(HANDSHAKE_BASE, HANDSHAKE_CAP),
            trackers: SlotTable::new(TRACKER_BASE, TRACKER_CAP),
            torrents: Registry::new(),
            local_id,
        }
    }

    /// Routes a message to the torrent named `ih`.
    pub fn handle(&mut self, ih: &[u8], msg: &[u8]) -> (r: Result<(), RegistryError>)
        requires
            old(self).wf(),
        ensures
            final(self).wf(),
            r is Ok <==> old(self).torrents.knows(ih@),
            r is Ok ==> crate::registry::routed(old(self).torrents, final(self).torrents, ih@, seq![msg@]),
            r is Err ==> final(self).torrents.entries() == old(self).torrents.entries(),
            final(self).connections == old(self).connections,
            final(self).handshakes == old(self).handshakes,
            final(self).trackers == old(self).trackers,
            final(self).local_id == old(self).local_id,
    {
        let ghost before = self.torrents;
        let r = self.torrents.handle(ih, msg);
        proof {
            if r is Ok {
                lemma_routed_keeps_known(before, self.torrents, ih@, seq![msg@]);
            }
        }
        r
    }

    /// Registers a torrent.
    pub fn add_torrent(&mut self, t: Torrent) -> (r: Result<(), RegistryError>)
        requires
            old(self).wf(),
        ensures
            final(self).wf(),
            r == Ok::<(), RegistryError>(()) <==> (!old(self).torrents.knows(crate::registry::hash_of(t))
                && crate::registry::hash_of(t).len() == ID_LEN),
            r is Ok ==> final(self).torrents.entries() == old(self).torrents.entries().push(t),
            r is Err ==> final(self).torrents.entries() == old(self).torrents.entries(),
    {
        let ghost before = self.torrents;
        let r = self.torrents.insert(t);
        proof {
            assert forall|g: Seq<u8>| before.knows(g) implies self.torrents.knows(g) by {
                let i = choose|i: int| 0 <= i < before.entries().len() && crate::registry::hash_of(#[trigger] before.entries()[i]) == g;
                assert(self.torrents.entries()[i] == before.entries()[i]);
            }
            assert forall|k: Key| #[trigger] self.handshakes.resolves(k) implies
                (self.handshakes.value_at(k).info_hash matches Some(h) ==> self.torrents.knows(h@)) by {
                if let Some(h) = self.handshakes.value_at(k).info_hash {
                    assert(before.knows(h@));
                }
            }
        }
        r
    }

    /// Takes a newly accepted connection: a fresh handshake session gets a
    /// token in the handshake range, unless that range is full.
    pub fn accept(&mut self) -> (r: Result<Key, SlotError>)
        requires
            old(self).wf(),
        ensures
            final(self).wf(),
            r is Err <==> !old(self).handshakes.has_vacancy(),
            r matches Ok(k) ==> kind_of(k.token as int) == Some(ConnKind::Handshake)
                && final(self).handshakes.resolves(k) && final(self).handshakes.value_at(k).is_fresh()
                && !old(self).handshakes.resolves(k),
            r matches Ok(k) ==> old(self).handshakes.allocated(&final(self).handshakes, final(self).handshakes.value_at(k), k),
            r is Err ==> final(self).handshakes == old(self).handshakes,
            final(self).connections == old(self).connections,
            final(self).trackers == old(self).trackers,
            final(self).torrents == old(self).torrents,
            final(self).local_id == old(self).local_id,
    {
        let ghost before = self.handshakes;
        let r = self.handshakes.allocate(HandshakeSession::new());
        proof {
            assert forall|k: Key| #[trigger] self.handshakes.resolves(k) implies self.handshakes.value_at(k).wf()
                && (self.handshakes.value_at(k).info_hash matches Some(h) ==> self.torrents.knows(h@)) by {
                if r is Ok && k.token == r->Ok_0.token {
                    assert(k == r->Ok_0);
                } else if r is Ok {
                    assert(before.in_range(k.token as int));
                    assert(before.resolves(k));
                }
            }
        }
        r
    }

    /// Opens a tracker connection for a torrent, unless the tracker range is full.
    pub fn add_tracker(&mut self, info_hash: Vec<u8>) -> (r: Result<Key, SlotError>)
        requires
            old(self).wf(),
        ensures
            final(self).wf(),
            r is Err <==> !old(self).trackers.has_vacancy(),
            r matches Ok(k) ==> kind_of(k.token as int) == Some(ConnKind::Tracker)
                && final(self).trackers.resolves(k) && final(self).trackers.value_at(k).info_hash@ == info_hash@
                && old(self).trackers.allocated(&final(self).trackers, final(self).trackers.value_at(k), k),
            r is Err ==> final(self).trackers == old(self).trackers,
            final(self).connections == old(self).connections,
            final(self).handshakes == old(self).handshakes,
            final(self).torrents == old(self).torrents,
            final(self).local_id == old(self).local_id,
    {
        let r = self.trackers.allocate(TrackerSession::new(info_hash));
        r
    }

    /// Handles a readiness event for a token of the peer range. A key that
    /// names no live peer session is ignored; a session that fails is freed.
    fn ready_peer(&mut self, key: Key, readable: bool, incoming: &[u8], writable: bool, window: usize) -> (r: Outcome)
        requires
            old(self).wf(),
        ensures
            final(self).wf(),
            final(self).handshakes == old(self).handshakes,
            final(self).trackers == old(self).trackers,
            !old(self).connections.resolves(key) ==> r is Unknown && *final(self) == *old(self),
            peer_step(*old(self), *final(self), key, readable, incoming@, writable, window, r),
            final(self).local_id == old(self).local_id,
    {
        if !self.connections.contains(key) {
            return Outcome::Unknown;
        }
        let ghost reg0 = self.torrents;
        let ghost conn0 = self.connections;
        let ghost s0 = self.connections.value_at(key);
        let r = {
            let s = self.connections.get_mut(key);
            s.ready(&mut self.torrents, readable, incoming, writable, window)
        };
        let ghost conn1 = self.connections;
        proof {
            let m = choose|m: Seq<Seq<u8>>| routed(reg0, self.torrents, s0.info_hash@, m);
            lemma_routed_keeps_known(reg0, self.torrents, s0.info_hash@, m);
            assert forall|k: Key| #[trigger] conn1.resolves(k) && k != key implies conn0.resolves(k)
                && conn1.value_at(k) == conn0.value_at(k) by {
                assert(conn0.in_range(k.token as int));
                if k.token == key.token {
                    assert(conn1.slot_of(k.token as int).generation == key.generation);
                }
            }
        }
        match r {
            Ok(p) => {
                Outcome::Progress { consumed: p.consumed, sent: p.sent }
            },
            Err(e) => {
                let _ = self.connections.free(key);
                proof {
                    assert forall|k: Key| #[trigger] self.connections.resolves(k) implies conn1.resolves(k) && k != key
                        && self.connections.value_at(k) == conn1.value_at(k) by {
                        assert(conn1.in_range(k.token as int));
                    }
                    lemma_same_except_trans(conn0, conn1, self.connections, key.token as int);
                }
                Outcome::Closed { reason: Teardown::Peer(e) }
            },
        }
    }

    /// Handles a readiness event for a token of the handshake range. A key
    /// that names no live handshake is ignored; a handshake that fails is
    /// freed. Once the torrent is known, a peer session for it is made with
    /// whatever of the handshake is still unsent, and only after it holds a
    /// slot is the handshake's slot freed.
    fn ready_handshake(&mut self, key: Key, readable: bool, incoming: &[u8], writable: bool, window: usize) -> (r: Outcome)
        requires
            old(self).wf(),
        ensures
            final(self).wf(),
            final(self).trackers == old(self).trackers,
            final(self).torrents == old(self).torrents,
            !old(self).handshakes.resolves(key) ==> r is Unknown && *final(self) == *old(self),
            handshake_step(*old(self), *final(self), key, readable, incoming@, writable, window, r),
            final(self).local_id == old(self).local_id,
    {
        if !self.handshakes.contains(key) {
            return Outcome::Unknown;
        }
        let ghost hs0 = self.handshakes;
        let ghost s0 = self.handshakes.value_at(key);
        let r = {
            let s = self.handshakes.get_mut(key);
            s.ready(&self.torrents, self.local_id.as_slice(), readable, incoming, writable, window)
        };
        let ghost hs1 = self.handshakes;
        proof {
            if r is Ok {
                assert(hs1.value_at(key).info_hash matches Some(h) ==> self.torrents.knows(h@));
            }
            assert forall|k: Key| #[trigger] hs1.resolves(k) && k != key implies hs0.resolves(k)
                && hs1.value_at(k) == hs0.value_at(k) by {
                assert(hs0.in_range(k.token as int));
                if k.token == key.token {
                    assert(hs1.slot_of(k.token as int).generation == key.generation);
                }
            }
        }
        match r {
            Err(e) => {
                let _ = self.handshakes.free(key);
                proof {
                    lemma_same_except_trans(hs0, hs1, self.handshakes, key.token as int);
                    assert forall|k: Key| #[trigger] self.handshakes.resolves(k) implies hs1.resolves(k) && k != key
                        && self.handshakes.value_at(k) == hs1.value_at(k) by {
                        assert(hs1.in_range(k.token as int));
                    }
                }
                Outcome::Closed { reason: Teardown::Handshake(e) }
            },
            Ok(p) => {
                if !p.promotable {
                    return Outcome::Progress { consumed: p.consumed, sent: p.sent };
                }
                let (hash, pending) = match self.handshakes.get(key) {
                    Some(s) => {
                        let pending = copy_range(s.egress.as_slice(), 0, s.egress.len());
                        assert(pending@ =~= s.egress@);
                        match &s.info_hash {
                            Some(h) => {
                                assert(h@.subrange(0, h@.len() as int) =~= h@);
                                (copy_range(h.as_slice(), 0, h.len()), pending)
                            },
                            None => {
                                return Outcome::Progress { consumed: p.consumed, sent: p.sent };
                            },
                        }
                    },
                    None => {
                        return Outcome::Progress { consumed: p.consumed, sent: p.sent };
                    },
                };
                let peer = PeerSession::new(hash, pending.as_slice());
                let ghost conn0 = self.connections;
                let ghost pv = peer;
                assert(self.torrents.knows(pv.info_hash@));
                match self.connections.allocate(peer) {
                    Err(_) => {
                        let _ = self.handshakes.free(key);
                        proof {
                            lemma_same_except_trans(hs0, hs1, self.handshakes, key.token as int);
                            assert forall|k: Key| #[trigger] self.handshakes.resolves(k) implies hs1.resolves(k) && k != key
                                && self.handshakes.value_at(k) == hs1.value_at(k) by {
                                assert(hs1.in_range(k.token as int));
                            }
                        }
                        Outcome::Closed { reason: Teardown::CapacityExceeded }
                    },
                    Ok(pk) => {
                        let _ = self.handshakes.free(key);
                        proof {
                            lemma_same_except_trans(hs0, hs1, self.handshakes, key.token as int);
                            assert forall|k: Key| #[trigger] self.handshakes.resolves(k) implies hs1.resolves(k) && k != key
                                && self.handshakes.value_at(k) == hs1.value_at(k) by {
                                assert(hs1.in_range(k.token as int));
                            }
                            assert forall|k: Key| #[trigger] self.connections.resolves(k) && k != pk implies conn0.resolves(k)
                                && self.connections.value_at(k) == conn0.value_at(k) by {
                                assert(conn0.in_range(k.token as int));
                                if k.token == pk.token {
                                    assert(self.connections.slot_of(k.token as int).generation == pk.generation);
                                }
                            }
                        }
                        Outcome::Promoted { peer: pk, consumed: p.consumed, sent: p.sent }
                    },
                }
            },
        }
    }

    /// Handles a readiness event for a token of the tracker range. A key
    /// that names no live tracker session is ignored; one whose torrent is
    /// not registered is freed.
    fn ready_tracker(&mut self, key: Key, readable: bool, writable: bool) -> (r: Outcome)
        requires
            old(self).wf(),
        ensures
            final(self).wf(),
            final(self).connections == old(self).connections,
            final(self).handshakes == old(self).handshakes,
            final(self).torrents.entries() == old(self).torrents.entries(),
            !old(self).trackers.resolves(key) ==> r is Unknown && *final(self) == *old(self),
            tracker_step(*old(self), *final(self), key, r),
            final(self).local_id == old(self).local_id,
    {
        if !self.trackers.contains(key) {
            return Outcome::Unknown;
        }
        let ghost before = self.torrents;
        let found = match self.trackers.get(key) {
            Some(t) => self.torrents.find(t.info_hash.as_slice()),
            None => None,
        };
        match found {
            None => {
                let ghost tr0 = self.trackers;
                let _ = self.trackers.free(key);
                proof {
                    assert forall|k: Key| #[trigger] self.trackers.resolves(k) implies tr0.resolves(k) by {
                        assert(tr0.in_range(k.token as int));
                    }
                }
                Outcome::Closed { reason: Teardown::Tracker(TrackerError::UnknownTorrent) }
            },
            Some(i) => {
                let ghost tr0 = self.trackers;
                let res = {
                    let t = self.trackers.get_mut(key);
                    let torrent = self.torrents.torrent_mut(i);
                    t.ready(torrent, readable, writable)
                };
                proof {
                    assert(self.torrents.entries() =~= before.entries());
                    assert forall|k: Key| #[trigger] self.trackers.resolves(k) implies tr0.resolves(k) by {
                        assert(tr0.in_range(k.token as int));
                    }
                }
                match res {
                    Ok(()) => Outcome::Progress { consumed: 0, sent: Vec::new() },
                    Err(e) => {
                        let _ = self.trackers.free(key);
                        Outcome::Closed { reason: Teardown::Tracker(e) }
                    },
                }
            },
        }
    }

    /// Tears down the connection that `key` names, whatever its kind: its
    /// slot is freed and the key is stale from then on. Returns whether the
    /// key named a live connection.
    pub fn close(&mut self, key: Key) -> (r: bool)
        requires
            old(self).wf(),
        ensures
            final(self).wf(),
            final(self).torrents == old(self).torrents,
            r == match kind_of(key.token as int) {
                None => false,
                Some(ConnKind::Peer) => old(self).connections.resolves(key),
                Some(ConnKind::Handshake) => old(self).handshakes.resolves(key),
                Some(ConnKind::Tracker) => old(self).trackers.resolves(key),
            },
            !final(self).connections.resolves(key),
            !final(self).handshakes.resolves(key),
            !final(self).trackers.resolves(key),
            !r ==> *final(self) == *old(self),
            final(self).local_id == old(self).local_id,
            kind_of(key.token as int) == Some(ConnKind::Peer) ==> final(self).handshakes == old(self).handshakes
                && final(self).trackers == old(self).trackers
                && (r ==> old(self).connections.freed(&final(self).connections, key)),
            kind_of(key.token as int) == Some(ConnKind::Handshake) ==> final(self).connections == old(self).connections
                && final(self).trackers == old(self).trackers
                && (r ==> old(self).handshakes.freed(&final(self).handshakes, key)),
            kind_of(key.token as int) == Some(ConnKind::Tracker) ==> final(self).connections == old(self).connections
                && final(self).handshakes == old(self).handshakes
                && (r ==> old(self).trackers.freed(&final(self).trackers, key)),
    {
        match classify(key.token) {
            Some(ConnKind::Peer) => {
                let ghost before = self.connections;
                let r = self.connections.free(key).is_some();
                proof {
                    assert forall|k: Key| #[trigger] self.connections.resolves(k) implies before.resolves(k)
                        && self.connections.value_at(k) == before.value_at(k) by {
                        assert(before.in_range(k.token as int));
                    }
                    assert(!self.handshakes.in_range(key.token as int));
                    assert(!self.trackers.in_range(key.token as int));
                }
                r
            },
            Some(ConnKind::Handshake) => {
                let ghost before = self.handshakes;
                let r = self.handshakes.free(key).is_some();
                proof {
                    assert forall|k: Key| #[trigger] self.handshakes.resolves(k) implies before.resolves(k)
                        && self.handshakes.value_at(k) == before.value_at(k) by {
                        assert(before.in_range(k.token as int));
                    }
                    assert(!self.connections.in_range(key.token as int));
                    assert(!self.trackers.in_range(key.token as int));
                }
                r
            },
            Some(ConnKind::Tracker) => {
                let r = self.trackers.free(key).is_some();
                proof {
                    assert(!self.connections.in_range(key.token as int));
                    assert(!self.handshakes.in_range(key.token as int));
                }
                r
            },
            None => {
                proof {
                    assert(!self.connections.in_range(key.token as int));
                    assert(!self.handshakes.in_range(key.token as int));
                    assert(!self.trackers.in_range(key.token as int));
                }
                false
            },
        }
    }

    /// Routes one readiness event to the session that owns `key`, found by
    /// the range its token falls in. `incoming` holds the bytes the socket
    /// has (read when `readable`), `window` how many it takes before it would
    /// block (written when `writable`). A key in no range, or one that names
    /// no live session, changes nothing. A session that fails is freed, and
    /// its socket is to be closed: the outcome says so.
    pub fn ready(&mut self, key: Key, readable: bool, incoming: &[u8], writable: bool, window: usize) -> (r: Outcome)
        requires
            old(self).wf(),
        ensures
            final(self).wf(),
            r is Unknown <==> match kind_of(key.token as int) {
                None => true,
                Some(ConnKind::Peer) => !old(self).connections.resolves(key),
                Some(ConnKind::Handshake) => !old(self).handshakes.resolves(key),
                Some(ConnKind::Tracker) => !old(self).trackers.resolves(key),
            },
            r is Unknown ==> *final(self) == *old(self),
            r is Closed ==> match kind_of(key.token as int) {
                Some(ConnKind::Peer) => !final(self).connections.resolves(key),
                Some(ConnKind::Handshake) => !final(self).handshakes.resolves(key),
                _ => !final(self).trackers.resolves(key),
            },
            r is Promoted ==> kind_of(key.token as int) == Some(ConnKind::Handshake),
            final(self).local_id == old(self).local_id,
            kind_of(key.token as int) == Some(ConnKind::Peer) ==> peer_step(*old(self), *final(self), key, readable, incoming@, writable, window, r)
                && final(self).handshakes == old(self).handshakes
                && final(self).trackers == old(self).trackers,
            kind_of(key.token as int) == Some(ConnKind::Handshake) ==> handshake_step(*old(self), *final(self), key, readable, incoming@, writable, window, r)
                && final(self).torrents == old(self).torrents
                && final(self).trackers == old(self).trackers,
            kind_of(key.token as int) == Some(ConnKind::Tracker) ==> tracker_step(*old(self), *final(self), key, r)
                && final(self).torrents.entries() == old(self).torrents.entries()
                && final(self).connections == old(self).connections
                && final(self).handshakes == old(self).handshakes,
    {
        match classify(key.token) {
            Some(ConnKind::Peer) => self.ready_peer(key, readable, incoming, writable, window),
            Some(ConnKind::Handshake) => self.ready_handshake(key, readable, incoming, writable, window),
            Some(ConnKind::Tracker) => self.ready_tracker(key, readable, writable),
            None => {
                proof {
                    assert(!self.connections.in_range(key.token as int));
                }
                Outcome::Unknown
            },
        }
    }
}

/// A fresh handshake that receives a whole, well-formed handshake naming a
/// registered torrent is promoted, while a peer slot is free: the new peer
/// session is bound to that same torrent, and the handshake's key is stale.
pub proof fn lemma_valid_handshake_promotes(
    before: TorrentClient,
    after: TorrentClient,
    key: Key,
    incoming: Seq<u8>,
    writable: bool,
    window: usize,
    r: Outcome,
)
    requires
        before.wf(),
        before.handshakes.resolves(key),
        before.handshakes.value_at(key).is_fresh(),
        handshake_complete(incoming),
        before.torrents.knows(handshake_hash(incoming)),
        before.connections.has_vacancy(),
        handshake_step(before, after, key, true, incoming, writable, window, r),
    ensures
        r matches Outcome::Promoted { peer, .. } ==> after.connections.resolves(peer)
            && after.connections.value_at(peer).info_hash@ == handshake_hash(incoming)
            && !before.connections.resolves(peer),
        r is Promoted,
        !after.handshakes.resolves(key),
{
    let s = before.handshakes.value_at(key);
    let stream = s.ingress@ + incoming.subrange(0, min_nat(incoming.len(), s.ingress.room_spec()) as int);
    assert(stream =~= incoming.subrange(0, HANDSHAKE_LEN as int));
    assert(!handshake_malformed(stream)) by {
        if handshake_malformed(stream) {
            let i = choose|i: int| 0 <= i < min_int(stream.len() as int, PREFIX_LEN as int) && stream[i] != protocol_prefix()[i];
            assert(stream[i] == incoming[i]);
        }
    }
    assert(handshake_hash(stream) =~= handshake_hash(incoming));
}

/// A fresh handshake that receives a whole handshake naming a torrent that is
/// not registered is closed for that reason, and no peer session is made.
pub proof fn lemma_unknown_handshake_fails(
    before: TorrentClient,
    after: TorrentClient,
    key: Key,
    incoming: Seq<u8>,
    writable: bool,
    window: usize,
    r: Outcome,
)
    requires
        before.wf(),
        before.handshakes.resolves(key),
        before.handshakes.value_at(key).is_fresh(),
        handshake_complete(incoming),
        !before.torrents.knows(handshake_hash(incoming)),
        handshake_step(before, after, key, true, incoming, writable, window, r),
    ensures
        r == (Outcome::Closed { reason: Teardown::Handshake(HandshakeError::UnknownTorrent) }),
        after.connections == before.connections,
        !after.handshakes.resolves(key),
{
    let s = before.handshakes.value_at(key);
    let stream = s.ingress@ + incoming.subrange(0, min_nat(incoming.len(), s.ingress.room_spec()) as int);
    assert(stream =~= incoming.subrange(0, HANDSHAKE_LEN as int));
    assert(!handshake_malformed(stream)) by {
        if handshake_malformed(stream) {
            let i = choose|i: int| 0 <= i < min_int(stream.len() as int, PREFIX_LEN as int) && stream[i] != protocol_prefix()[i];
            assert(stream[i] == incoming[i]);
        }
    }
    assert(handshake_hash(stream) =~= handshake_hash(incoming));
}

/// Frames written back to back into a peer session with an empty incoming
/// buffer, in one readiness event, are routed to the session's torrent one
/// each, in the order they appear in the stream, and leave nothing behind.
pub proof fn lemma_back_to_back_frames_dispatch(
    before: TorrentClient,
    after: TorrentClient,
    key: Key,
    fs: Seq<Seq<u8>>,
    writable: bool,
    window: usize,
    r: Outcome,
)
    requires
        before.wf(),
        before.connections.resolves(key),
        before.connections.value_at(key).ingress@.len() == 0,
        forall|i: int| 0 <= i < fs.len() ==> #[trigger] fs[i].len() <= MAX_FRAME_LEN,
        peer_step(before, after, key, true, encode_frames(fs), writable, window, r),
    ensures
        r is Progress,
        routed(before.torrents, after.torrents, before.connections.value_at(key).info_hash@, fs),
        after.connections.value_at(key).ingress@.len() == 0,
{
    let s = before.connections.value_at(key);
    lemma_frames_round_trip(fs, Seq::empty());
    assert(s.ingress@ + encode_frames(fs) =~= encode_frames(fs) + Seq::<u8>::empty());
}

/// A connection accepted while the handshake range has room, which then
/// sends a valid handshake for a registered torrent while the peer range has
/// room, is promoted; one framed message that follows on the new peer
/// session is routed once, to that torrent alone.
pub proof fn lemma_accept_promote_dispatch(
    c0: TorrentClient,
    c1: TorrentClient,
    c2: TorrentClient,
    c3: TorrentClient,
    hk: Key,
    handshake: Seq<u8>,
    msg: Seq<u8>,
    w1: bool,
    win1: usize,
    w2: bool,
    win2: usize,
    r1: Outcome,
    r2: Outcome,
)
    requires
        c0.wf(),
        c1.wf(),
        c2.wf(),
        c0.handshakes.allocated(&c1.handshakes, c1.handshakes.value_at(hk), hk),
        c1.handshakes.value_at(hk).is_fresh(),
        c1.connections == c0.connections,
        c1.torrents == c0.torrents,
        handshake_complete(handshake),
        c0.torrents.knows(handshake_hash(handshake)),
        c0.connections.has_vacancy(),
        handshake_step(c1, c2, hk, true, handshake, w1, win1, r1),
        c2.torrents == c1.torrents,
        msg.len() <= MAX_FRAME_LEN,
        r1 matches Outcome::Promoted { peer, .. } ==> peer_step(c2, c3, peer, true, encode_frame(msg), w2, win2, r2),
    ensures
        r1 is Promoted,
        r2 is Progress,
        routed(c0.torrents, c3.torrents, handshake_hash(handshake), seq![msg]),
{
    lemma_valid_handshake_promotes(c1, c2, hk, handshake, w1, win1, r1);
    let peer = r1->peer;
    let fs = seq![msg];
    assert(fs[0] == msg);
    lemma_frames_round_trip(fs, Seq::empty());
    assert(fs.subrange(1, 1) =~= Seq::<Seq<u8>>::empty());
    assert(encode_frames(Seq::<Seq<u8>>::empty()) == Seq::<u8>::empty());
    assert(encode_frames(fs) == encode_frame(msg) + encode_frames(fs.subrange(1, 1)));
    assert(encode_frames(fs) =~= encode_frame(msg));
    assert(c2.connections.value_at(peer).ingress@ + encode_frame(msg) =~= encode_frames(fs) + Seq::<u8>::empty());
}

} // verus!
