//! The handshake session: gathers the peer's handshake, checks that it names a
//! registered torrent, and answers with this side's handshake.
use vstd::prelude::*;
use crate::buffer::ByteRing;
use crate::drain::{drain_read, drain_write, min_nat};
use crate::registry::Registry;
use crate::wire::{
    handshake_bytes, handshake_complete, handshake_hash, handshake_malformed, make_handshake,
    parse_handshake, HandshakeParse, HANDSHAKE_LEN, ID_LEN,
};

verus! {

/// Bytes moved per transfer attempt.
pub const CHUNK: usize = 4096;

/// Why a handshake session ends in failure.
#[derive(Debug, Clone, Copy, PartialEq, Eq, Structural)]
pub enum HandshakeError {
    /// The bytes received contradict the handshake shape.
    Malformed,
    /// The handshake names a torrent that is not registered.
    UnknownTorrent,
}

/// Where a live handshake session stands. A session that fails is closed,
/// and one that is promoted lives on as a peer session.
#[derive(Debug, Clone, Copy, PartialEq, Eq, Structural)]
pub enum HandshakePhase {
    /// The peer's handshake is not complete yet.
    AwaitingBytes,
    /// The peer named a registered torrent.
    IdentifierKnown,
}

/// What one readiness event did to a handshake session.
pub struct HandshakeProgress {
    /// Bytes taken from the socket.
    pub consumed: usize,
    /// Bytes written to the socket.
    pub sent: Vec<u8>,
    /// The torrent is known: the session can become a peer session, which
    /// takes over whatever of this side's handshake is still unsent.
    pub promotable: bool,
}

/// One inbound connection that has not finished its handshake.
pub struct HandshakeSession {
    pub ingress: ByteRing,
    pub egress: ByteRing,
    /// The identifier the peer named, once it is known to be registered.
    pub info_hash: Option<Vec<u8>>,
    /// The identifier the peer gave for itself, once known.
    pub remote_id: Option<Vec<u8>>,
}

/// What the session's identifier is, as bytes.
pub open spec fn opt_view(o: Option<Vec<u8>>) -> Option<Seq<u8>> {
    match o {
        Some(v) => Some(v@),
        None => None,
    }
}

impl HandshakeSession {
    /// Both buffers hold one handshake; before the torrent is known nothing is
    /// queued to send, and once it is known the identifier is that of the
    /// handshake received.
    pub open spec fn wf(&self) -> bool {
        &&& self.ingress.wf()
        &&& self.egress.wf()
        &&& self.ingress.capacity() == HANDSHAKE_LEN
        &&& self.egress.capacity() == HANDSHAKE_LEN
        &&& !handshake_malformed(self.ingress@)
        &&& self.info_hash is None ==> self.egress@.len() == 0 && self.remote_id is None
        &&& self.info_hash matches Some(h) ==> handshake_complete(self.ingress@) && h@ == handshake_hash(self.ingress@)
        &&& self.info_hash is Some ==> self.remote_id is Some
    }

    /// Nothing received, nothing known.
    pub open spec fn is_fresh(&self) -> bool {
        &&& self.wf()
        &&& self.ingress@.len() == 0
        &&& self.info_hash is None
    }

    pub fn new() -> (r: HandshakeSession)
        ensures
            r.is_fresh(),
    {
        HandshakeSession {
            ingress: ByteRing::new(HANDSHAKE_LEN),
            egress: ByteRing::new(HANDSHAKE_LEN),
            info_hash: None,
            remote_id: None,
        }
    }

    pub fn phase(&self) -> (r: HandshakePhase)
        ensures
            r == HandshakePhase::AwaitingBytes <==> self.info_hash is None,
    {
        if self.info_hash.is_some() {
            HandshakePhase::IdentifierKnown
        } else {
            HandshakePhase::AwaitingBytes
        }
    }

    /// Handles one readiness event. When `readable`, `incoming` holds the
    /// bytes the socket has (after them it would block) and as many as fit
    /// are taken. A malformed handshake, or one naming an unregistered
    /// torrent, fails the session. Once the torrent is known, this side's
    /// handshake (carrying `local_id`) is queued, and when `writable` up to
    /// `window` queued bytes are sent.
    pub fn ready(
        &mut self,
        registry: &Registry,
        local_id: &[u8],
        readable: bool,
        incoming: &[u8],
        writable: bool,
        window: usize,
    ) -> (r: Result<HandshakeProgress, HandshakeError>)
        requires
            old(self).wf(),
            registry.wf(),
            local_id@.len() == ID_LEN,
        ensures
            ({
                let consumed = if readable { min_nat(incoming@.len(), old(self).ingress.room_spec()) } else { 0 };
                let stream = old(self).ingress@ + incoming@.subrange(0, consumed as int);
                let identifies = old(self).info_hash is None && handshake_complete(stream);
                &&& (r == Err::<HandshakeProgress, HandshakeError>(HandshakeError::Malformed)
                    <==> handshake_malformed(stream))
                &&& (r == Err::<HandshakeProgress, HandshakeError>(HandshakeError::UnknownTorrent)
                    <==> (identifies && !registry.knows(handshake_hash(stream))))
                &&& r matches Ok(p) ==> {
                    &&& final(self).wf()
                    &&& p.consumed == consumed
                    &&& final(self).ingress@ == stream
                    &&& (old(self).info_hash is Some ==> opt_view(final(self).info_hash) == opt_view(old(self).info_hash))
                    &&& (identifies ==> opt_view(final(self).info_hash) == Some(handshake_hash(stream)))
                    &&& (!identifies && old(self).info_hash is None ==> final(self).info_hash is None)
                    &&& ({
                        let queued = if identifies { handshake_bytes(handshake_hash(stream), local_id@) } else { old(self).egress@ };
                        let n = if writable { min_nat(queued.len(), window as nat) } else { 0 };
                        &&& p.sent@ == queued.subrange(0, n as int)
                        &&& final(self).egress@ == queued.subrange(n as int, queued.len() as int)
                    })
                    &&& p.promotable == final(self).info_hash is Some
                }
            }),
    {
        let mut consumed: usize = 0;
        if readable {
            consumed = drain_read(&mut self.ingress, incoming, CHUNK);
        }
        let ghost stream = self.ingress@;
        let parsed = parse_handshake(self.ingress.as_slice());
        match parsed {
            HandshakeParse::Malformed => {
                return Err(HandshakeError::Malformed);
            },
            HandshakeParse::Incomplete => {},
            HandshakeParse::Complete { info_hash, peer_id } => {
                if self.info_hash.is_none() {
                    if registry.find(info_hash.as_slice()).is_none() {
                        return Err(HandshakeError::UnknownTorrent);
                    }
                    let answer = make_handshake(info_hash.as_slice(), local_id);
                    let n = self.egress.push_slice(answer.as_slice());
                    assert(answer@.subrange(0, n as int) =~= answer@);
                    assert(self.egress@ =~= answer@);
                    self.info_hash = Some(info_hash);
                    self.remote_id = Some(peer_id);
                }
            },
        }
        let mut sent: Vec<u8> = Vec::new();
        if writable {
            sent = drain_write(&mut self.egress, window, CHUNK);
        } else {
            assert(self.egress@.subrange(0, 0) =~= Seq::<u8>::empty());
            assert(self.egress@.subrange(0, self.egress@.len() as int) =~= self.egress@);
        }
        let promotable = self.info_hash.is_some();
        Ok(HandshakeProgress { consumed, sent, promotable })
    }
}

} // verus!
