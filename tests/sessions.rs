use metorrent::buffer::ByteRing;
use metorrent::handshake::{HandshakeError, HandshakePhase, HandshakeSession};
use metorrent::peer::{PeerError, PeerSession};
use metorrent::registry::{Registry, RegistryError, Torrent};
use metorrent::wire::{extract_frames, frame_bytes, make_handshake, parse_handshake, HandshakeParse};

fn id(b: u8) -> Vec<u8> {
    vec![b; 20]
}

fn handshake(hash: &[u8], peer: &[u8]) -> Vec<u8> {
    let mut v = vec![19u8];
    v.extend_from_slice(b"BitTorrent protocol");
    v.extend_from_slice(&[0u8; 8]);
    v.extend_from_slice(hash);
    v.extend_from_slice(peer);
    v
}

fn frame(payload: &[u8]) -> Vec<u8> {
    let n = payload.len() as u32;
    let mut v = n.to_be_bytes().to_vec();
    v.extend_from_slice(payload);
    v
}

fn registry_with(hashes: &[u8]) -> Registry {
    let mut r = Registry::new();
    for h in hashes {
        assert_eq!(r.insert(Torrent::new(id(*h), 10, 16384)), Ok(()));
    }
    r
}

#[test]
fn parse_handshake_complete() {
    let hs = handshake(&id(7), &id(9));
    match parse_handshake(&hs) {
        HandshakeParse::Complete { info_hash, peer_id } => {
            assert_eq!(info_hash, id(7));
            assert_eq!(peer_id, id(9));
        }
        _ => panic!("expected a complete handshake"),
    }
}

#[test]
fn parse_handshake_incomplete_and_malformed() {
    let hs = handshake(&id(7), &id(9));
    assert!(matches!(parse_handshake(&hs[..30]), HandshakeParse::Incomplete));
    assert!(matches!(parse_handshake(&[]), HandshakeParse::Incomplete));
    assert!(matches!(parse_handshake(&[18u8]), HandshakeParse::Malformed));
    let mut bad = hs.clone();
    bad[5] = b'x';
    assert!(matches!(parse_handshake(&bad[..6]), HandshakeParse::Malformed));
    assert!(matches!(parse_handshake(&bad), HandshakeParse::Malformed));
}

#[test]
fn make_handshake_layout() {
    let hs = make_handshake(&id(1), &id(2));
    assert_eq!(hs, handshake(&id(1), &id(2)));
    assert_eq!(hs.len(), 68);
}

#[test]
fn frames_back_to_back_in_order() {
    let mut ring = ByteRing::new(1000);
    let mut bytes = frame(b"one");
    bytes.extend(frame(b""));
    bytes.extend(frame(b"three"));
    bytes.extend(&[0u8, 0, 0, 5, b'p']);
    assert_eq!(ring.push_slice(&bytes), bytes.len());
    let frames = extract_frames(&mut ring);
    assert_eq!(frames, vec![b"one".to_vec(), Vec::new(), b"three".to_vec()]);
    assert_eq!(ring.as_slice(), &[0u8, 0, 0, 5, b'p']);
}

#[test]
fn frame_bytes_header() {
    assert_eq!(frame_bytes(b"abc"), vec![0, 0, 0, 3, b'a', b'b', b'c']);
    let big = vec![1u8; 300];
    let f = frame_bytes(&big);
    assert_eq!(&f[..4], &[0u8, 0, 1, 44]);
    assert_eq!(f.len(), 304);
}

#[test]
fn registry_insert_and_route() {
    let mut r = registry_with(&[1, 2]);
    assert_eq!(r.insert(Torrent::new(id(1), 3, 10)), Err(RegistryError::Duplicate));
    assert_eq!(r.insert(Torrent::new(vec![1, 2, 3], 3, 10)), Err(RegistryError::BadIdentifier));
    assert_eq!(r.handle(&id(3), b"x"), Err(RegistryError::UnknownTorrent));
    assert_eq!(r.handle(&id(2), b"hello"), Ok(()));
    assert_eq!(r.get(&id(2)).unwrap().inbox, vec![b"hello".to_vec()]);
    assert!(r.get(&id(1)).unwrap().inbox.is_empty());
    assert_eq!(r.len(), 2);
    assert_eq!(r.find(&id(2)), Some(1));
    assert_eq!(r.find(&id(4)), None);
}

#[test]
fn torrent_starts_with_no_piece_complete() {
    let mut t = Torrent::new(id(5), 10, 16384);
    assert_eq!(t.pieces.len(), 10);
    assert_eq!(t.completed(), 0);
    t.pieces[3] = true;
    t.pieces[7] = true;
    assert_eq!(t.completed(), 2);
}

#[test]
fn handshake_session_known_torrent() {
    let reg = registry_with(&[7]);
    let mut s = HandshakeSession::new();
    let hs = handshake(&id(7), &id(9));
    let p = s.ready(&reg, &id(1), true, &hs, true, 1000).unwrap();
    assert_eq!(p.consumed, 68);
    assert!(p.promotable);
    assert_eq!(p.sent, handshake(&id(7), &id(1)));
    assert_eq!(s.info_hash, Some(id(7)));
    assert_eq!(s.remote_id, Some(id(9)));
}

#[test]
fn handshake_session_in_pieces() {
    let reg = registry_with(&[7]);
    let mut s = HandshakeSession::new();
    let hs = handshake(&id(7), &id(9));
    assert_eq!(s.phase(), HandshakePhase::AwaitingBytes);
    let p = s.ready(&reg, &id(1), true, &hs[..40], true, 1000).unwrap();
    assert_eq!(p.consumed, 40);
    assert_eq!(s.phase(), HandshakePhase::AwaitingBytes);
    assert!(!p.promotable);
    assert!(p.sent.is_empty());
    let p = s.ready(&reg, &id(1), true, &hs[40..], true, 10).unwrap();
    assert_eq!(p.consumed, 28);
    assert!(p.promotable);
    assert_eq!(s.phase(), HandshakePhase::IdentifierKnown);
    assert_eq!(p.sent, handshake(&id(7), &id(1))[..10].to_vec());
    assert_eq!(s.egress.len(), 58);
}

#[test]
fn handshake_session_unknown_torrent() {
    let reg = registry_with(&[7]);
    let mut s = HandshakeSession::new();
    let hs = handshake(&id(8), &id(9));
    assert!(matches!(s.ready(&reg, &id(1), true, &hs, true, 1000), Err(HandshakeError::UnknownTorrent)));
}

#[test]
fn handshake_session_malformed() {
    let reg = registry_with(&[7]);
    let mut s = HandshakeSession::new();
    let mut hs = handshake(&id(7), &id(9));
    hs[0] = 20;
    assert!(matches!(s.ready(&reg, &id(1), true, &hs, true, 1000), Err(HandshakeError::Malformed)));
}

#[test]
fn peer_session_dispatches_each_frame() {
    let mut reg = registry_with(&[7, 8]);
    let mut s = PeerSession::new(id(7), &[]);
    let mut bytes = frame(b"a");
    bytes.extend(frame(b"bb"));
    bytes.extend(frame(b"ccc"));
    let p = s.ready(&mut reg, true, &bytes, false, 0).unwrap();
    assert_eq!(p.consumed, bytes.len());
    assert_eq!(p.dispatched, 3);
    assert_eq!(s.local.received, 3);
    assert_eq!(reg.get(&id(7)).unwrap().inbox, vec![b"a".to_vec(), b"bb".to_vec(), b"ccc".to_vec()]);
    assert!(reg.get(&id(8)).unwrap().inbox.is_empty());
}

#[test]
fn peer_session_frame_split_across_events() {
    let mut reg = registry_with(&[7]);
    let mut s = PeerSession::new(id(7), &[]);
    let bytes = frame(b"hello");
    let p = s.ready(&mut reg, true, &bytes[..6], false, 0).unwrap();
    assert_eq!(p.dispatched, 0);
    let p = s.ready(&mut reg, true, &bytes[6..], false, 0).unwrap();
    assert_eq!(p.dispatched, 1);
    assert_eq!(reg.get(&id(7)).unwrap().inbox, vec![b"hello".to_vec()]);
}

#[test]
fn peer_session_more_than_buffer_holds() {
    let mut reg = registry_with(&[7]);
    let mut s = PeerSession::new(id(7), &[]);
    let payload = vec![5u8; 10000];
    let mut bytes = Vec::new();
    for _ in 0..10 {
        bytes.extend(frame(&payload));
    }
    let p = s.ready(&mut reg, true, &bytes, false, 0).unwrap();
    assert_eq!(p.consumed, bytes.len());
    assert_eq!(p.dispatched, 10);
}

#[test]
fn peer_session_oversized_frame() {
    let mut reg = registry_with(&[7]);
    let mut s = PeerSession::new(id(7), &[]);
    let mut bytes = frame(b"ok");
    bytes.extend(&[0u8, 1, 0, 0]);
    assert!(matches!(s.ready(&mut reg, true, &bytes, false, 0), Err(PeerError::Malformed)));
    assert_eq!(reg.get(&id(7)).unwrap().inbox, vec![b"ok".to_vec()]);
}

#[test]
fn peer_session_queue_and_send() {
    let mut reg = registry_with(&[7]);
    let mut s = PeerSession::new(id(7), b"xy");
    assert_eq!(s.queue(b"msg"), Ok(()));
    assert_eq!(s.queue(&vec![0u8; 20000]), Err(PeerError::TooLarge));
    let p = s.ready(&mut reg, false, &[], true, 4).unwrap();
    assert_eq!(p.sent, vec![b'x', b'y', 0, 0]);
    let p = s.ready(&mut reg, false, &[], true, 100).unwrap();
    assert_eq!(p.sent, vec![0, 3, b'm', b's', b'g']);
    assert_eq!(p.consumed, 0);
}

#[test]
fn peer_session_egress_full() {
    let mut s = PeerSession::new(id(7), &[]);
    let payload = vec![0u8; 16000];
    assert_eq!(s.queue(&payload), Ok(()));
    assert_eq!(s.queue(&payload), Ok(()));
    assert_eq!(s.queue(&payload), Err(PeerError::EgressFull));
}
