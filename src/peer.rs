//! The peer session: reads framed messages off an established connection,
//! routes each to the torrent registry and to the connection's own state, and
//! sends what is queued.
use vstd::prelude::*;
use vstd::slice::slice_subrange;
use crate::buffer::ByteRing;
use crate::drain::{drain_write, min_nat};
use crate::handshake::CHUNK;
use crate::registry::{lemma_routed_none, lemma_routed_trans, routed, Registry};
use crate::wire::{
    encode_frame, extract_frames, frame_bytes, frame_oversized, has_frame, is_oversized,
    lemma_oversized_stays, lemma_split_append, lemma_split_rest_shorter, payloads, split_frames,
    ID_LEN, MAX_FRAME_LEN,
};

verus! {

/// Capacity of a peer session's incoming buffer: room for the largest frame.
pub const INGRESS_CAP: usize = 32768;
/// Capacity of a peer session's outgoing buffer.
pub const EGRESS_CAP: usize = 32768;

/// `x + n`, held at the largest `u64`.
pub open spec fn sat_add(x: u64, n: nat) -> u64 {
    if x + n > u64::MAX { u64::MAX } else { (x + n) as u64 }
}

/// Bookkeeping that one connection keeps for itself.
pub struct LocalState {
    /// Messages received on this connection (held at the largest `u64`).
    pub received: u64,
}

impl LocalState {
    /// Records one received message; what it means is for the message layer.
    pub fn handle(&mut self, _msg: &[u8])
        ensures
            final(self).received == sat_add(old(self).received, 1),
    {
        if self.received < u64::MAX {
            self.received = self.received + 1;
        }
    }
}

/// Why a peer session ends in failure.
#[derive(Debug, Clone, Copy, PartialEq, Eq, Structural)]
pub enum PeerError {
    /// A frame header announces more than a frame may hold.
    Malformed,
    /// The session's torrent is not registered.
    UnknownTorrent,
    /// A message to send is longer than a frame may hold.
    TooLarge,
    /// The outgoing buffer has no room for a message.
    EgressFull,
}

/// What one readiness event did to a peer session.
pub struct PeerProgress {
    /// Bytes taken from the socket.
    pub consumed: usize,
    /// Messages routed.
    pub dispatched: usize,
    /// Bytes written to the socket.
    pub sent: Vec<u8>,
}

/// An established connection to a peer, bound to one torrent.
pub struct PeerSession {
    pub ingress: ByteRing,
    pub egress: ByteRing,
    pub info_hash: Vec<u8>,
    pub local: LocalState,
}

impl PeerSession {
    /// The buffers have their capacities, and the incoming one holds only the
    /// unfinished start of a frame.
    pub open spec fn wf(&self) -> bool {
        &&& self.ingress.wf()
        &&& self.egress.wf()
        &&& self.ingress.capacity() == INGRESS_CAP
        &&& self.egress.capacity() == EGRESS_CAP
        &&& !has_frame(self.ingress@)
        &&& !frame_oversized(self.ingress@)
        &&& self.info_hash@.len() == ID_LEN
    }

    /// A session for the torrent `info_hash` with fresh state; `pending` holds
    /// bytes still to be sent (the rest of this side's handshake).
    pub fn new(info_hash: Vec<u8>, pending: &[u8]) -> (r: PeerSession)
        requires
            info_hash@.len() == ID_LEN,
            pending@.len() <= EGRESS_CAP,
        ensures
            r.wf(),
            r.info_hash@ == info_hash@,
            r.ingress@.len() == 0,
            r.egress@ == pending@,
            r.local.received == 0,
    {
        let mut egress = ByteRing::new(EGRESS_CAP);
        let n = egress.push_slice(pending);
        assert(pending@.subrange(0, n as int) =~= pending@);
        assert(egress@ =~= pending@);
        PeerSession { ingress: ByteRing::new(INGRESS_CAP), egress, info_hash, local: LocalState { received: 0 } }
    }

    /// Queues one message to send, framed.
    pub fn queue(&mut self, payload: &[u8]) -> (r: Result<(), PeerError>)
        requires
            old(self).wf(),
        ensures
            final(self).wf(),
            r == Err::<(), PeerError>(PeerError::TooLarge) <==> payload@.len() > MAX_FRAME_LEN,
            r == Err::<(), PeerError>(PeerError::EgressFull)
                <==> (payload@.len() <= MAX_FRAME_LEN && old(self).egress.room_spec() < payload@.len() + 4),
            r is Ok ==> final(self).egress@ == old(self).egress@ + encode_frame(payload@),
            r is Err ==> *final(self) == *old(self),
            final(self).ingress == old(self).ingress,
            final(self).info_hash == old(self).info_hash,
            final(self).local == old(self).local,
    {
        if payload.len() > MAX_FRAME_LEN {
            return Err(PeerError::TooLarge);
        }
        if self.egress.room() < payload.len() + 4 {
            return Err(PeerError::EgressFull);
        }
        let f = frame_bytes(payload);
        let n = self.egress.push_slice(f.as_slice());
        assert(f@.subrange(0, n as int) =~= f@);
        Ok(())
    }

    /// Routes each message, in order, to the registry under this session's
    /// torrent and records it in the local state.
    fn dispatch_all(&mut self, registry: &mut Registry, frames: &Vec<Vec<u8>>) -> (r: Result<(), PeerError>)
        requires
            old(registry).wf(),
            old(registry).knows(old(self).info_hash@),
        ensures
            r is Ok,
            routed(*old(registry), *final(registry), old(self).info_hash@, payloads(frames@)),
            final(registry).knows(old(self).info_hash@),
            final(self).local.received == sat_add(old(self).local.received, frames@.len()),
            final(self).ingress == old(self).ingress,
            final(self).egress == old(self).egress,
            final(self).info_hash == old(self).info_hash,
    {
        let ghost reg0 = *registry;
        let ghost h = self.info_hash@;
        proof {
            lemma_routed_none(reg0, h);
            assert(payloads(frames@).subrange(0, 0) =~= Seq::<Seq<u8>>::empty());
        }
        let mut j: usize = 0;
        while j < frames.len()
            invariant
                j <= frames@.len(),
                routed(reg0, *registry, h, payloads(frames@).subrange(0, j as int)),
                registry.wf(),
                registry.knows(h),
                reg0.wf(),
                self.info_hash@ == h,
                self.ingress == old(self).ingress,
                self.egress == old(self).egress,
                self.info_hash == old(self).info_hash,
                self.local.received == sat_add(old(self).local.received, j as nat),
            decreases frames@.len() - j,
        {
            let ghost before = *registry;
            match registry.handle(self.info_hash.as_slice(), frames[j].as_slice()) {
                Ok(()) => {},
                Err(_) => {
                    return Err(PeerError::UnknownTorrent);
                },
            }
            self.local.handle(frames[j].as_slice());
            proof {
                let m1 = payloads(frames@).subrange(0, j as int);
                lemma_routed_trans(reg0, before, *registry, h, m1, seq![frames@[j as int]@]);
                assert(m1 + seq![frames@[j as int]@] =~= payloads(frames@).subrange(0, j + 1));
            }
            j = j + 1;
        }
        assert(payloads(frames@).subrange(0, frames@.len() as int) =~= payloads(frames@));
        Ok(())
    }

    /// One read attempt: takes as much of `part` as fits, extracts the
    /// complete frames and routes them. Returns the bytes taken and the
    /// messages routed; fails when what is left announces an oversized frame.
    fn absorb(&mut self, registry: &mut Registry, part: &[u8]) -> (r: Result<(usize, usize), PeerError>)
        requires
            old(self).wf(),
            old(registry).wf(),
            old(registry).knows(old(self).info_hash@),
            part@.len() > 0,
        ensures
            ({
                let n = min_nat(part@.len(), old(self).ingress.room_spec());
                let s = old(self).ingress@ + part@.subrange(0, n as int);
                &&& routed(*old(registry), *final(registry), old(self).info_hash@, split_frames(s).0)
                &&& final(registry).knows(old(self).info_hash@)
                &&& final(self).info_hash == old(self).info_hash
                &&& (r is Err <==> frame_oversized(split_frames(s).1))
                &&& (r is Err ==> r == Err::<(usize, usize), PeerError>(PeerError::Malformed))
                &&& r matches Ok((taken, k)) ==> {
                    &&& taken == n
                    &&& k == split_frames(s).0.len()
                    &&& final(self).wf()
                    &&& final(self).ingress@ == split_frames(s).1
                    &&& final(self).egress == old(self).egress
                    &&& final(self).info_hash@ == old(self).info_hash@
                    &&& final(self).local.received == sat_add(old(self).local.received, k as nat)
                    &&& (taken == 0 ==> final(self).ingress@.len() < old(self).ingress@.len())
                }
            }),
    {
        let ghost held = self.ingress@;
        let n = self.ingress.push_slice(part);
        let ghost filled = self.ingress@;
        proof {
            if n == 0 {
                assert(filled =~= held);
                assert(filled.len() == INGRESS_CAP);
                assert(!frame_oversized(filled));
                assert(has_frame(filled));
            }
        }
        let frames = extract_frames(&mut self.ingress);
        proof {
            lemma_split_rest_shorter(filled);
        }
        let _ = self.dispatch_all(registry, &frames);
        if is_oversized(self.ingress.as_slice()) {
            return Err(PeerError::Malformed);
        }
        Ok((n, frames.len()))
    }

    /// Handles one readiness event. When `readable`, `incoming` holds the
    /// bytes the socket has (after them it would block): they are read in
    /// turns with the extraction of every complete frame, and each frame, in
    /// stream order, is routed to the registry under this session's torrent
    /// and recorded in the local state. A frame header announcing an
    /// oversized frame fails the session. When `writable`, up to `window`
    /// queued bytes are sent.
    pub fn ready(
        &mut self,
        registry: &mut Registry,
        readable: bool,
        incoming: &[u8],
        writable: bool,
        window: usize,
    ) -> (r: Result<PeerProgress, PeerError>)
        requires
            old(self).wf(),
            old(registry).wf(),
            old(registry).knows(old(self).info_hash@),
        ensures
            ({
                let stream = old(self).ingress@ + if readable { incoming@ } else { Seq::<u8>::empty() };
                let frames = split_frames(stream).0;
                let rest = split_frames(stream).1;
                &&& final(registry).wf()
                &&& (r is Err <==> frame_oversized(rest))
                &&& (r is Err ==> r == Err::<PeerProgress, PeerError>(PeerError::Malformed)
                    && routed(*old(registry), *final(registry), old(self).info_hash@, frames)
                    && final(self).info_hash@ == old(self).info_hash@)
                &&& r matches Ok(p) ==> {
                    &&& final(self).wf()
                    &&& p.consumed == if readable { incoming@.len() } else { 0 }
                    &&& p.dispatched == frames.len()
                    &&& routed(*old(registry), *final(registry), old(self).info_hash@, frames)
                    &&& final(self).ingress@ == rest
                    &&& final(self).info_hash@ == old(self).info_hash@
                    &&& final(self).local.received == sat_add(old(self).local.received, frames.len())
                    &&& ({
                        let n = if writable { min_nat(old(self).egress@.len(), window as nat) } else { 0 };
                        &&& p.sent@ == old(self).egress@.subrange(0, n as int)
                        &&& final(self).egress@ == old(self).egress@.subrange(n as int, old(self).egress@.len() as int)
                    })
                }
            }),
    {
        let ghost reg0 = *registry;
        let ghost h = self.info_hash@;
        let ghost ing0 = self.ingress@;
        let ghost mut dispatched: Seq<Seq<u8>> = Seq::empty();
        proof {
            lemma_routed_none(reg0, h);
            assert(split_frames(ing0) == (Seq::<Seq<u8>>::empty(), ing0));
            assert(ing0 + incoming@.subrange(0, 0) =~= ing0);
        }
        let mut pos: usize = 0;
        let mut count: usize = 0;
        if readable {
            loop
                invariant
                    readable,
                    reg0 == *old(registry),
                    h == old(self).info_hash@,
                    pos <= incoming@.len(),
                    self.wf(),
                    self.info_hash@ == h,
                    self.egress == old(self).egress,
                    split_frames(ing0 + incoming@.subrange(0, pos as int)) == (dispatched, self.ingress@),
                    routed(reg0, *registry, h, dispatched),
                    registry.wf(),
                    registry.knows(h),
                    self.local.received == sat_add(old(self).local.received, dispatched.len()),
                    count == dispatched.len(),
                    4 * count <= pos + ing0.len(),
                    ing0.len() <= INGRESS_CAP,
                    reg0.wf(),
                    ing0 == old(self).ingress@,
                ensures
                    pos == incoming@.len(),
                    self.wf(),
                    self.info_hash@ == h,
                    self.egress == old(self).egress,
                    split_frames(ing0 + incoming@.subrange(0, pos as int)) == (dispatched, self.ingress@),
                    routed(reg0, *registry, h, dispatched),
                    registry.wf(),
                    self.local.received == sat_add(old(self).local.received, dispatched.len()),
                    count == dispatched.len(),
                decreases incoming@.len() - pos, self.ingress@.len(),
            {
                if pos == incoming.len() {
                    break;
                }
                let ghost prefix = ing0 + incoming@.subrange(0, pos as int);
                let ghost held = self.ingress@;
                let ghost reg1 = *registry;
                let part = slice_subrange(incoming, pos, incoming.len());
                let res = self.absorb(registry, part);
                let ghost chunk = part@.subrange(0, min_nat(part@.len(), (INGRESS_CAP - held.len()) as nat) as int);
                proof {
                    assert(prefix + chunk =~= ing0 + incoming@.subrange(0, pos + chunk.len()));
                    lemma_split_append(prefix, chunk);
                    lemma_routed_trans(reg0, reg1, *registry, h, dispatched, split_frames(held + chunk).0);
                    lemma_split_rest_shorter(prefix + chunk);
                }
                match res {
                    Err(e) => {
                        proof {
                            let full = ing0 + incoming@;
                            let rem = incoming@.subrange(pos + chunk.len(), incoming@.len() as int);
                            assert(prefix + chunk + rem =~= full);
                            lemma_split_append(prefix + chunk, rem);
                            lemma_oversized_stays(split_frames(prefix + chunk).1, rem);
                            assert(split_frames(full).0 =~= dispatched + split_frames(held + chunk).0);
                            assert(routed(reg0, *registry, h, dispatched + split_frames(held + chunk).0));
                        }
                        return Err(e);
                    },
                    Ok((taken, k)) => {
                        proof {
                            dispatched = dispatched + split_frames(held + chunk).0;
                        }
                        pos = pos + taken;
                        count = count + k;
                    },
                }
            }
            proof {
                assert(incoming@.subrange(0, pos as int) =~= incoming@);
            }
        } else {
            proof {
                assert(ing0 + Seq::<u8>::empty() =~= ing0);
            }
        }
        let mut sent: Vec<u8> = Vec::new();
        if writable {
            sent = drain_write(&mut self.egress, window, CHUNK);
        } else {
            assert(self.egress@.subrange(0, 0) =~= Seq::<u8>::empty());
            assert(self.egress@.subrange(0, self.egress@.len() as int) =~= self.egress@);
        }
        Ok(PeerProgress { consumed: pos, dispatched: count, sent })
    }
}

} // verus!
