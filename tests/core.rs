use metorrent::buffer::ByteRing;
use metorrent::drain::{do_read, do_write, drain_read, drain_write, IoFailure};
use metorrent::handshake::HandshakeError;
use metorrent::reactor::{classify, ConnKind, Outcome, Teardown, TorrentClient};
use metorrent::registry::{RegistryError, Torrent};
use metorrent::slab::{Key, SlotError, SlotTable};

fn id(b: u8) -> Vec<u8> {
    vec![b; 20]
}

fn handshake(hash: &[u8], peer: &[u8]) -> Vec<u8> {
    let mut v = vec![19u8];
    v.extend_from_slice(b"BitTorrent protocol");
    v.extend_from_slice(&[0u8; 8]);
    v.extend_from_slice(hash);
    v.extend_from_slice(peer);
    v
}

fn frame(payload: &[u8]) -> Vec<u8> {
    let n = payload.len() as u32;
    let mut v = n.to_be_bytes().to_vec();
    v.extend_from_slice(payload);
    v
}

#[test]
fn token_ranges() {
    assert_eq!(classify(0), None);
    assert_eq!(classify(4095), None);
    assert_eq!(classify(4096), Some(ConnKind::Peer));
    assert_eq!(classify(8191), Some(ConnKind::Peer));
    assert_eq!(classify(8192), Some(ConnKind::Handshake));
    assert_eq!(classify(8319), Some(ConnKind::Handshake));
    assert_eq!(classify(8320), Some(ConnKind::Tracker));
    assert_eq!(classify(8447), Some(ConnKind::Tracker));
    assert_eq!(classify(8448), None);
}

#[test]
fn slot_capacity_enforced() {
    let mut t: SlotTable<u32> = SlotTable::new(100, 2);
    let a = t.allocate(1).unwrap();
    let b = t.allocate(2).unwrap();
    assert_ne!(a, b);
    assert_eq!(t.allocate(3), Err(SlotError::CapacityExceeded));
    assert_eq!(t.get(a), Some(&1));
    assert_eq!(t.get(b), Some(&2));
    assert_eq!(a.token, 100);
    assert_eq!(b.token, 101);
}

#[test]
fn slot_stale_key_after_reuse() {
    let mut t: SlotTable<u32> = SlotTable::new(100, 1);
    let a = t.allocate(1).unwrap();
    assert_eq!(t.free(a), Some(1));
    assert_eq!(t.free(a), None);
    let c = t.allocate(5).unwrap();
    assert_eq!(c.token, a.token);
    assert_ne!(c, a);
    assert_eq!(t.get(a), None);
    assert!(!t.contains(a));
    assert_eq!(t.get(c), Some(&5));
    *t.get_mut(c) = 6;
    assert_eq!(t.get(c), Some(&6));
    assert_eq!(t.get(Key { token: 3, generation: 0 }), None);
}

#[test]
fn continuation_flag() {
    let mut cont = true;
    assert_eq!(do_read(Ok(Some(5)), &mut cont), Ok(Some(5)));
    assert!(cont);
    assert_eq!(do_read(Ok(Some(0)), &mut cont), Ok(Some(0)));
    assert!(!cont);
    let mut cont = true;
    assert_eq!(do_read(Ok(None), &mut cont), Ok(None));
    assert!(!cont);
    let mut cont = true;
    let err = IoFailure { code: 104 };
    assert_eq!(do_write(Err(err), &mut cont), Err(err));
    assert!(!cont);
    let mut cont = true;
    assert_eq!(do_write(Ok(Some(1)), &mut cont), Ok(Some(1)));
    assert!(cont);
}

#[test]
fn drain_read_stops_at_would_block() {
    let mut ring = ByteRing::new(100);
    let avail: Vec<u8> = (0..10).collect();
    assert_eq!(drain_read(&mut ring, &avail, 3), 10);
    assert_eq!(ring.as_slice(), &avail[..]);
    let mut small = ByteRing::new(4);
    assert_eq!(drain_read(&mut small, &avail, 3), 4);
    assert_eq!(small.as_slice(), &avail[..4]);
    assert_eq!(small.room(), 0);
}

#[test]
fn drain_write_stops_at_window() {
    let mut ring = ByteRing::new(100);
    ring.push_slice(b"abcdefgh");
    assert_eq!(drain_write(&mut ring, 5, 2), b"abcde".to_vec());
    assert_eq!(ring.as_slice(), b"fgh");
    assert_eq!(drain_write(&mut ring, 50, 2), b"fgh".to_vec());
    assert_eq!(ring.len(), 0);
}

#[test]
fn ring_push_and_take() {
    let mut ring = ByteRing::new(5);
    assert_eq!(ring.push_slice(b"abc"), 3);
    assert_eq!(ring.push_slice(b"defg"), 2);
    assert_eq!(ring.take_front(2), b"ab".to_vec());
    assert_eq!(ring.as_slice(), b"cde");
    assert_eq!(ring.cap(), 5);
}

fn client_with(hashes: &[u8]) -> TorrentClient {
    let mut c = TorrentClient::new(id(1));
    for h in hashes {
        assert_eq!(c.add_torrent(Torrent::new(id(*h), 10, 16384)), Ok(()));
    }
    c
}

#[test]
fn end_to_end_promotion_and_dispatch() {
    let mut c = client_with(&[7, 8]);
    let hk = c.accept().unwrap();
    assert_eq!(classify(hk.token), Some(ConnKind::Handshake));
    let out = c.ready(hk, true, &handshake(&id(7), &id(9)), true, 1000);
    let peer = match out {
        Outcome::Promoted { peer, consumed, sent } => {
            assert_eq!(consumed, 68);
            assert_eq!(sent, handshake(&id(7), &id(1)));
            peer
        }
        other => panic!("expected promotion, got {:?}", other),
    };
    assert_eq!(classify(peer.token), Some(ConnKind::Peer));
    assert!(!c.handshakes.contains(hk));
    assert_eq!(c.connections.get(peer).unwrap().info_hash, id(7));
    assert!(c.torrents.get(&id(7)).unwrap().pieces.iter().all(|p| !p));
    let out = c.ready(peer, true, &frame(b"\x02"), false, 0);
    assert!(matches!(out, Outcome::Progress { .. }));
    assert_eq!(c.torrents.get(&id(7)).unwrap().inbox, vec![vec![2u8]]);
    assert!(c.torrents.get(&id(8)).unwrap().inbox.is_empty());
    assert!(matches!(c.ready(hk, true, &[], false, 0), Outcome::Unknown));
}

#[test]
fn unknown_torrent_closes_handshake() {
    let mut c = client_with(&[7]);
    let hk = c.accept().unwrap();
    let out = c.ready(hk, true, &handshake(&id(3), &id(9)), true, 1000);
    assert!(matches!(out, Outcome::Closed { reason: Teardown::Handshake(HandshakeError::UnknownTorrent) }));
    assert!(!c.handshakes.contains(hk));
    assert!(matches!(c.ready(hk, true, &[], true, 0), Outcome::Unknown));
}

#[test]
fn malformed_frame_closes_peer() {
    let mut c = client_with(&[7]);
    let hk = c.accept().unwrap();
    let peer = match c.ready(hk, true, &handshake(&id(7), &id(9)), true, 1000) {
        Outcome::Promoted { peer, .. } => peer,
        other => panic!("expected promotion, got {:?}", other),
    };
    let out = c.ready(peer, true, &[0xff, 0xff, 0xff, 0xff], false, 0);
    assert!(matches!(out, Outcome::Closed { .. }));
    assert!(!c.connections.contains(peer));
}

#[test]
fn handshake_range_capacity() {
    let mut c = client_with(&[]);
    for _ in 0..128 {
        assert!(c.accept().is_ok());
    }
    assert_eq!(c.accept(), Err(SlotError::CapacityExceeded));
}

#[test]
fn token_outside_every_range() {
    let mut c = client_with(&[7]);
    let out = c.ready(Key { token: 12, generation: 0 }, true, b"abc", true, 10);
    assert!(matches!(out, Outcome::Unknown));
}

#[test]
fn tracker_events() {
    let mut c = client_with(&[7]);
    let known = c.add_tracker(id(7)).unwrap();
    let unknown = c.add_tracker(id(4)).unwrap();
    assert_eq!(classify(known.token), Some(ConnKind::Tracker));
    assert!(matches!(c.ready(known, true, &[], true, 0), Outcome::Progress { .. }));
    assert!(matches!(c.ready(unknown, true, &[], true, 0), Outcome::Closed { .. }));
    assert!(!c.trackers.contains(unknown));
}

#[test]
fn client_routes_messages() {
    let mut c = client_with(&[7]);
    assert_eq!(c.handle(&id(7), b"m"), Ok(()));
    assert_eq!(c.handle(&id(6), b"m"), Err(RegistryError::UnknownTorrent));
    assert_eq!(c.torrents.get(&id(7)).unwrap().inbox, vec![b"m".to_vec()]);
}

#[test]
fn close_frees_any_kind() {
    let mut c = client_with(&[7]);
    let hk = c.accept().unwrap();
    let tk = c.add_tracker(id(7)).unwrap();
    assert!(c.close(hk));
    assert!(!c.close(hk));
    assert!(c.close(tk));
    assert!(!c.trackers.contains(tk));
    assert!(!c.close(Key { token: 1, generation: 0 }));
    assert!(matches!(c.ready(hk, true, &[], true, 0), Outcome::Unknown));
    let again = c.accept().unwrap();
    assert_eq!(again.token, hk.token);
    assert_ne!(again, hk);
}

#[test]
fn promotion_with_full_peer_table() {
    let mut c = client_with(&[7]);
    for _ in 0..4096 {
        let hk = c.accept().unwrap();
        let out = c.ready(hk, true, &handshake(&id(7), &id(9)), true, 1000);
        assert!(matches!(out, Outcome::Promoted { .. }));
    }
    let hk = c.accept().unwrap();
    let out = c.ready(hk, true, &handshake(&id(7), &id(9)), true, 1000);
    assert!(matches!(out, Outcome::Closed { reason: Teardown::CapacityExceeded }));
    assert!(!c.handshakes.contains(hk));
    assert_eq!(c.connections.capacity(), 4096);
}
