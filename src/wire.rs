//! The peer-wire byte formats: the fixed-shape handshake and the
//! length-prefixed message frames.
use vstd::prelude::*;
use crate::buffer::ByteRing;

verus! {

/// Length of a handshake: length byte, protocol name, reserved bytes,
/// torrent identifier and peer identifier.
pub const HANDSHAKE_LEN: usize = 68;
/// Length of a torrent identifier and of a peer identifier.
pub const ID_LEN: usize = 20;
/// Offset of the torrent identifier inside a handshake.
pub const HASH_AT: usize = 28;
/// Offset of the peer identifier inside a handshake.
pub const PEER_ID_AT: usize = 48;
/// Length of the prefix every handshake starts with: the name's length, then the name.
pub const PREFIX_LEN: usize = 20;
/// Largest payload a frame may announce.
pub const MAX_FRAME_LEN: usize = 16393;

/// The protocol prefix: the length 19, then "BitTorrent protocol" in ASCII.
pub open spec fn protocol_prefix() -> Seq<u8> {
    seq![19u8, 66u8, 105u8, 116u8, 84u8, 111u8, 114u8, 114u8, 101u8, 110u8, 116u8,
         32u8, 112u8, 114u8, 111u8, 116u8, 111u8, 99u8, 111u8, 108u8]
}

/// The byte of the protocol prefix at `i`.
fn prefix_byte(i: usize) -> (b: u8)
    requires
        i < PREFIX_LEN,
    ensures
        b == protocol_prefix()[i as int],
{
    let p: [u8; 20] = [19u8, 66u8, 105u8, 116u8, 84u8, 111u8, 114u8, 114u8, 101u8, 110u8, 116u8,
         32u8, 112u8, 114u8, 111u8, 116u8, 111u8, 99u8, 111u8, 108u8];
    assert(p@ =~= protocol_prefix());
    p[i]
}

/// The smaller of two integers.
pub open spec fn min_int(a: int, b: int) -> int {
    if a <= b { a } else { b }
}

/// The bytes received so far contradict the protocol prefix.
pub open spec fn handshake_malformed(s: Seq<u8>) -> bool {
    exists|i: int| 0 <= i < min_int(s.len() as int, PREFIX_LEN as int) && s[i] != protocol_prefix()[i]
}

/// The bytes hold a whole, well-formed handshake at their front.
pub open spec fn handshake_complete(s: Seq<u8>) -> bool {
    !handshake_malformed(s) && s.len() >= HANDSHAKE_LEN
}

/// The torrent identifier that a handshake at the front of `s` names.
pub open spec fn handshake_hash(s: Seq<u8>) -> Seq<u8> {
    s.subrange(HASH_AT as int, (HASH_AT + ID_LEN) as int)
}

/// The peer identifier that a handshake at the front of `s` carries.
pub open spec fn handshake_peer_id(s: Seq<u8>) -> Seq<u8> {
    s.subrange(PEER_ID_AT as int, (PEER_ID_AT + ID_LEN) as int)
}

/// The handshake bytes this side sends: the prefix, zero reserved bytes, the
/// torrent identifier and the local peer identifier.
pub open spec fn handshake_bytes(hash: Seq<u8>, peer_id: Seq<u8>) -> Seq<u8> {
    protocol_prefix() + Seq::new(8, |i: int| 0u8) + hash + peer_id
}

/// What the front of a handshake stream holds.
pub enum HandshakeParse {
    /// Not yet enough bytes, none of them wrong so far.
    Incomplete,
    /// A byte contradicts the protocol prefix.
    Malformed,
    /// A whole handshake naming this torrent and this peer.
    Complete { info_hash: Vec<u8>, peer_id: Vec<u8> },
}

/// Copies `s[lo..lo + len]`.
pub fn copy_range(s: &[u8], lo: usize, len: usize) -> (r: Vec<u8>)
    requires
        lo + len <= s@.len(),
    ensures
        r@ == s@.subrange(lo as int, lo + len),
{
    let total = s.len();
    let mut r: Vec<u8> = Vec::new();
    let mut i: usize = 0;
    while i < len
        invariant
            total == s@.len(),
            lo + len <= s@.len(),
            i <= len,
            r@ == s@.subrange(lo as int, lo + i),
        decreases len - i,
    {
        r.push(s[lo + i]);
        i += 1;
        assert(r@ =~= s@.subrange(lo as int, lo + i));
    }
    r
}

/// Reads the handshake at the front of `s`, if the bytes allow.
pub fn parse_handshake(s: &[u8]) -> (r: HandshakeParse)
    ensures
        handshake_malformed(s@) <==> r is Malformed,
        (!handshake_malformed(s@) && s@.len() < HANDSHAKE_LEN) <==> r is Incomplete,
        handshake_complete(s@) <==> r is Complete,
        r matches HandshakeParse::Complete { info_hash, peer_id } ==> info_hash@ == handshake_hash(s@)
            && peer_id@ == handshake_peer_id(s@),
{
    let n: usize = if s.len() < PREFIX_LEN { s.len() } else { PREFIX_LEN };
    let mut i: usize = 0;
    while i < n
        invariant
            n == min_int(s@.len() as int, PREFIX_LEN as int),
            i <= n,
            forall|j: int| 0 <= j < i ==> s@[j] == protocol_prefix()[j],
        decreases n - i,
    {
        if s[i] != prefix_byte(i) {
            return HandshakeParse::Malformed;
        }
        i += 1;
    }
    if s.len() < HANDSHAKE_LEN {
        return HandshakeParse::Incomplete;
    }
    let info_hash = copy_range(s, HASH_AT, ID_LEN);
    let peer_id = copy_range(s, PEER_ID_AT, ID_LEN);
    HandshakeParse::Complete { info_hash, peer_id }
}

/// Builds the handshake this side sends for a torrent.
pub fn make_handshake(hash: &[u8], peer_id: &[u8]) -> (r: Vec<u8>)
    ensures
        r@ == handshake_bytes(hash@, peer_id@),
{
    let mut r: Vec<u8> = Vec::new();
    let mut i: usize = 0;
    while i < PREFIX_LEN
        invariant
            i <= PREFIX_LEN,
            r@ == protocol_prefix().subrange(0, i as int),
        decreases PREFIX_LEN - i,
    {
        r.push(prefix_byte(i));
        i += 1;
        assert(r@ =~= protocol_prefix().subrange(0, i as int));
    }
    let mut k: usize = 0;
    while k < 8
        invariant
            k <= 8,
            r@ == protocol_prefix() + Seq::new(k as nat, |j: int| 0u8),
        decreases 8 - k,
    {
        r.push(0u8);
        k += 1;
        assert(r@ =~= protocol_prefix() + Seq::new(k as nat, |j: int| 0u8));
    }
    let mut tail: Vec<u8> = Vec::new();
    tail.extend_from_slice(hash);
    tail.extend_from_slice(peer_id);
    r.append(&mut tail);
    assert(r@ =~= handshake_bytes(hash@, peer_id@));
    r
}

/// The length that a frame header at the front of `s` announces, read big-endian.
pub open spec fn be32(s: Seq<u8>) -> int {
    s[0] as int * 16777216 + s[1] as int * 65536 + s[2] as int * 256 + s[3] as int
}

/// The four big-endian header bytes that announce a payload of `n` bytes.
pub open spec fn be32_bytes(n: nat) -> Seq<u8> {
    seq![(n / 16777216 % 256) as u8, (n / 65536 % 256) as u8, (n / 256 % 256) as u8, (n % 256) as u8]
}

/// A frame starts at the front of `s` and all of it is there.
pub open spec fn has_frame(s: Seq<u8>) -> bool {
    s.len() >= 4 && be32(s) <= MAX_FRAME_LEN && s.len() >= 4 + be32(s)
}

/// The front of `s` announces a frame longer than any frame may be.
pub open spec fn frame_oversized(s: Seq<u8>) -> bool {
    s.len() >= 4 && be32(s) > MAX_FRAME_LEN
}

/// The payloads of the complete frames at the front of `s`, in stream order,
/// and the bytes after them.
pub open spec fn split_frames(s: Seq<u8>) -> (Seq<Seq<u8>>, Seq<u8>)
    decreases s.len(),
{
    if has_frame(s) {
        let rest = split_frames(s.subrange(4 + be32(s), s.len() as int));
        (seq![s.subrange(4, 4 + be32(s))] + rest.0, rest.1)
    } else {
        (Seq::empty(), s)
    }
}

/// One frame: its header, then its payload.
pub open spec fn encode_frame(p: Seq<u8>) -> Seq<u8> {
    be32_bytes(p.len()) + p
}

/// Frames written back to back.
pub open spec fn encode_frames(fs: Seq<Seq<u8>>) -> Seq<u8>
    decreases fs.len(),
{
    if fs.len() == 0 {
        Seq::empty()
    } else {
        encode_frame(fs[0]) + encode_frames(fs.subrange(1, fs.len() as int))
    }
}

/// The payloads held by a list of byte vectors.
pub open spec fn payloads(v: Seq<Vec<u8>>) -> Seq<Seq<u8>> {
    v.map_values(|x: Vec<u8>| x@)
}

/// Bytes appended after a stream never change the frames already complete
/// in it: splitting `x + y` yields the frames of `x`, then the frames found in
/// the unsplit rest of `x` followed by `y`.
pub proof fn lemma_split_append(x: Seq<u8>, y: Seq<u8>)
    ensures
        split_frames(x + y) == (split_frames(x).0 + split_frames(split_frames(x).1 + y).0,
            split_frames(split_frames(x).1 + y).1),
    decreases x.len(),
{
    if has_frame(x) {
        let k = 4 + be32(x);
        assert((x + y).subrange(0, 4) =~= x.subrange(0, 4));
        assert(be32(x + y) == be32(x));
        assert(has_frame(x + y));
        let xr = x.subrange(k, x.len() as int);
        assert((x + y).subrange(k, (x + y).len() as int) =~= xr + y);
        assert((x + y).subrange(4, k) =~= x.subrange(4, k));
        lemma_split_append(xr, y);
        assert(split_frames(x + y).0 =~= split_frames(x).0 + split_frames(split_frames(x).1 + y).0);
    } else {
        assert(split_frames(x).0 + split_frames(x + y).0 =~= split_frames(x + y).0);
    }
}

/// A header announces back the length it was made from.
pub proof fn lemma_be32_round_trip(n: nat)
    requires
        n <= MAX_FRAME_LEN,
    ensures
        be32(be32_bytes(n)) == n,
{
    assert(n / 16777216 == 0);
    assert(n / 65536 == 0);
    assert((n / 256) % 256 == n / 256);
    assert((n / 256) * 256 + n % 256 == n);
}

/// Frames written back to back, followed by bytes that hold no complete frame,
/// split back into exactly those payloads, in the order they were written,
/// with the trailing bytes left over.
pub proof fn lemma_frames_round_trip(fs: Seq<Seq<u8>>, tail: Seq<u8>)
    requires
        forall|i: int| 0 <= i < fs.len() ==> #[trigger] fs[i].len() <= MAX_FRAME_LEN,
        !has_frame(tail),
    ensures
        split_frames(encode_frames(fs) + tail) == (fs, tail),
    decreases fs.len(),
{
    if fs.len() == 0 {
        assert(encode_frames(fs) + tail =~= tail);
        assert(split_frames(tail).0 =~= fs);
    } else {
        let p = fs[0];
        let rest = fs.subrange(1, fs.len() as int);
        let s = encode_frames(fs) + tail;
        let after = encode_frames(rest) + tail;
        assert(s =~= be32_bytes(p.len()) + p + after);
        lemma_be32_round_trip(p.len());
        assert(s.subrange(0, 4) =~= be32_bytes(p.len()));
        assert(be32(s) == p.len());
        assert(has_frame(s));
        assert(s.subrange(4, 4 + be32(s)) =~= p);
        assert(s.subrange(4 + be32(s), s.len() as int) =~= after);
        assert forall|i: int| 0 <= i < rest.len() implies #[trigger] rest[i].len() <= MAX_FRAME_LEN by {
            assert(rest[i] == fs[i + 1]);
        }
        lemma_frames_round_trip(rest, tail);
        assert(seq![p] + rest =~= fs);
    }
}

/// What follows the complete frames holds no complete frame, is never longer
/// than the stream, and is shorter when the stream starts with a complete
/// frame; each frame takes at least four bytes of the stream.
pub proof fn lemma_split_rest_shorter(s: Seq<u8>)
    ensures
        split_frames(s).1.len() <= s.len(),
        has_frame(s) ==> split_frames(s).1.len() < s.len(),
        !has_frame(split_frames(s).1),
        4 * split_frames(s).0.len() + split_frames(s).1.len() <= s.len(),
    decreases s.len(),
{
    if has_frame(s) {
        lemma_split_rest_shorter(s.subrange(4 + be32(s), s.len() as int));
    }
}

/// A stream whose front announces an oversized frame keeps that front, and
/// splits into no frames, whatever bytes follow.
pub proof fn lemma_oversized_stays(x: Seq<u8>, y: Seq<u8>)
    requires
        frame_oversized(x),
    ensures
        frame_oversized(x + y),
        split_frames(x + y) == (Seq::<Seq<u8>>::empty(), x + y),
{
    assert((x + y).subrange(0, 4) =~= x.subrange(0, 4));
    assert((x + y)[0] == x[0] && (x + y)[1] == x[1] && (x + y)[2] == x[2] && (x + y)[3] == x[3]);
}

/// Whether the front of `s` announces an oversized frame.
pub fn is_oversized(s: &[u8]) -> (r: bool)
    ensures
        r == frame_oversized(s@),
{
    if s.len() < 4 {
        return false;
    }
    let n = read_be32(s, 0);
    assert(s@.subrange(0, s@.len() as int) =~= s@);
    n > MAX_FRAME_LEN
}

/// One frame carrying `p`.
pub fn frame_bytes(p: &[u8]) -> (r: Vec<u8>)
    requires
        p@.len() <= MAX_FRAME_LEN,
    ensures
        r@ == encode_frame(p@),
{
    let n = p.len();
    let mut r: Vec<u8> = Vec::new();
    r.push(0u8);
    r.push(0u8);
    r.push((n / 256) as u8);
    r.push((n % 256) as u8);
    r.extend_from_slice(p);
    assert(n / 16777216 % 256 == 0);
    assert(n / 65536 % 256 == 0);
    assert(n / 256 % 256 == n / 256);
    assert(r@ =~= encode_frame(p@));
    r
}

/// Reads the big-endian length at the front of `s`.
fn read_be32(s: &[u8], at: usize) -> (n: usize)
    requires
        at + 4 <= s@.len(),
    ensures
        n == be32(s@.subrange(at as int, s@.len() as int)),
{
    let b0 = s[at] as u64;
    let b1 = s[at + 1] as u64;
    let b2 = s[at + 2] as u64;
    let b3 = s[at + 3] as u64;
    let v: u64 = b0 * 16777216 + b1 * 65536 + b2 * 256 + b3;
    if v > usize::MAX as u64 {
        // a usize is at least 32 bits wide
        assert(v <= 0xffff_ffff);
    }
    v as usize
}

/// Takes every complete frame off the front of `ingress`, in stream order,
/// and returns their payloads; the bytes after them stay in the buffer.
pub fn extract_frames(ingress: &mut ByteRing) -> (r: Vec<Vec<u8>>)
    requires
        old(ingress).wf(),
    ensures
        final(ingress).wf(),
        final(ingress).capacity() == old(ingress).capacity(),
        payloads(r@) == split_frames(old(ingress)@).0,
        final(ingress)@ == split_frames(old(ingress)@).1,
{
    let ghost s = ingress@;
    let mut out: Vec<Vec<u8>> = Vec::new();
    let mut pos: usize = 0;
    let len = ingress.len();
    assert(s.subrange(0, len as int) =~= s);
    assert(payloads(out@) + split_frames(s).0 =~= split_frames(s).0);
    loop
        invariant
            ingress@ == s,
            len == s.len(),
            pos <= len,
            split_frames(s) == (payloads(out@) + split_frames(s.subrange(pos as int, len as int)).0,
                split_frames(s.subrange(pos as int, len as int)).1),
        ensures
            pos <= len,
            !has_frame(s.subrange(pos as int, len as int)),
            split_frames(s) == (payloads(out@) + split_frames(s.subrange(pos as int, len as int)).0,
                split_frames(s.subrange(pos as int, len as int)).1),
        decreases len - pos,
    {
        let ghost t = s.subrange(pos as int, len as int);
        let buf = ingress.as_slice();
        if len - pos < 4 {
            break;
        }
        let n = read_be32(buf, pos);
        assert(n == be32(t));
        if n > MAX_FRAME_LEN || len - pos - 4 < n {
            break;
        }
        let payload = copy_range(buf, pos + 4, n);
        assert(payload@ =~= t.subrange(4, 4 + be32(t)));
        assert(t.subrange(4 + be32(t), t.len() as int) =~= s.subrange((pos + 4 + n) as int, len as int));
        let ghost before = out@;
        out.push(payload);
        assert(payloads(out@) =~= payloads(before) + seq![payload@]);
        assert(split_frames(t).0 =~= seq![payload@] + split_frames(s.subrange((pos + 4 + n) as int, len as int)).0);
        assert(payloads(out@) + split_frames(s.subrange((pos + 4 + n) as int, len as int)).0
            =~= payloads(before) + split_frames(t).0);
        pos = pos + 4 + n;
    }
    assert(payloads(out@) + Seq::<Seq<u8>>::empty() =~= payloads(out@));
    let _ = ingress.take_front(pos);
    out
}

} // verus!
