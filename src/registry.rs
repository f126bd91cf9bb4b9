//! The torrent registry: torrents keyed by their identifier, and the routing of
//! decoded peer messages to the torrent they concern.
use vstd::prelude::*;
use crate::wire::ID_LEN;

verus! {

/// A torrent's static metadata.
pub struct TorrentInfo {
    /// The 20-byte content hash that names the torrent.
    pub info_hash: Vec<u8>,
    pub piece_count: u32,
    pub piece_len: u32,
}

/// A torrent being served or fetched.
pub struct Torrent {
    pub info: TorrentInfo,
    /// Which pieces are complete locally, one flag per piece.
    pub pieces: Vec<bool>,
    /// The peer messages routed to this torrent, in the order they came.
    pub inbox: Vec<Vec<u8>>,
}

/// The identifier that names a torrent.
pub open spec fn hash_of(t: Torrent) -> Seq<u8> {
    t.info.info_hash@
}

/// Two byte strings are equal.
pub fn bytes_eq(a: &[u8], b: &[u8]) -> (r: bool)
    ensures
        r == (a@ == b@),
{
    if a.len() != b.len() {
        return false;
    }
    let mut i: usize = 0;
    while i < a.len()
        invariant
            a@.len() == b@.len(),
            i <= a@.len(),
            forall|j: int| 0 <= j < i ==> a@[j] == b@[j],
        decreases a@.len() - i,
    {
        if a[i] != b[i] {
            return false;
        }
        i += 1;
    }
    assert(a@ =~= b@);
    true
}

impl Torrent {
    /// A torrent with no piece complete and nothing routed to it yet.
    pub fn new(info_hash: Vec<u8>, piece_count: u32, piece_len: u32) -> (r: Torrent)
        ensures
            r.info.info_hash@ == info_hash@,
            r.info.piece_count == piece_count,
            r.info.piece_len == piece_len,
            r.pieces@ == Seq::new(piece_count as nat, |i: int| false),
            r.inbox@.len() == 0,
    {
        let mut pieces: Vec<bool> = Vec::new();
        let mut i: u32 = 0;
        while i < piece_count
            invariant
                i <= piece_count,
                pieces@ == Seq::new(i as nat, |j: int| false),
            decreases piece_count - i,
        {
            pieces.push(false);
            i += 1;
            assert(pieces@ =~= Seq::new(i as nat, |j: int| false));
        }
        Torrent { info: TorrentInfo { info_hash, piece_count, piece_len }, pieces, inbox: Vec::new() }
    }

    /// How many pieces are complete.
    pub fn completed(&self) -> (r: usize)
        ensures
            r == self.pieces@.filter(|b: bool| b).len(),
    {
        let mut n: usize = 0;
        let mut i: usize = 0;
        while i < self.pieces.len()
            invariant
                i <= self.pieces@.len(),
                n == self.pieces@.subrange(0, i as int).filter(|b: bool| b).len(),
                n <= i,
            decreases self.pieces@.len() - i,
        {
            let ghost before = self.pieces@.subrange(0, i as int);
            assert(self.pieces@.subrange(0, i + 1) =~= before.push(self.pieces@[i as int]));
            proof {
                before.lemma_filter_push(self.pieces@[i as int], |b: bool| b);
            }
            if self.pieces[i] {
                n += 1;
            }
            i += 1;
        }
        assert(self.pieces@.subrange(0, i as int) =~= self.pieces@);
        n
    }
}

/// Why a registry operation failed.
#[derive(Debug, Clone, Copy, PartialEq, Eq, Structural)]
pub enum RegistryError {
    /// No torrent with that identifier is registered.
    UnknownTorrent,
    /// A torrent with that identifier is registered already.
    Duplicate,
    /// An identifier is not 20 bytes long.
    BadIdentifier,
}

/// The registered torrents, identifiers unique.
pub struct Registry {
    torrents: Vec<Torrent>,
}

impl Registry {
    /// The registered torrents, in the order they were added.
    pub closed spec fn entries(&self) -> Seq<Torrent> {
        self.torrents@
    }

    /// Identifiers are unique and 20 bytes long.
    pub open spec fn wf(&self) -> bool {
        &&& forall|i: int, j: int| 0 <= i < j < self.entries().len()
            ==> hash_of(#[trigger] self.entries()[i]) != hash_of(#[trigger] self.entries()[j])
        &&& forall|i: int| 0 <= i < self.entries().len() ==> hash_of(#[trigger] self.entries()[i]).len() == ID_LEN
    }

    /// A torrent with identifier `h` is registered.
    pub open spec fn knows(&self, h: Seq<u8>) -> bool {
        exists|i: int| 0 <= i < self.entries().len() && hash_of(#[trigger] self.entries()[i]) == h
    }

    pub fn new() -> (r: Registry)
        ensures
            r.wf(),
            r.entries().len() == 0,
    {
        Registry { torrents: Vec::new() }
    }

    pub fn len(&self) -> (r: usize)
        ensures
            r == self.entries().len(),
    {
        self.torrents.len()
    }

    /// The place of the torrent named `h`, if it is registered.
    pub fn find(&self, h: &[u8]) -> (r: Option<usize>)
        requires
            self.wf(),
        ensures
            r is Some <==> self.knows(h@),
            r matches Some(i) ==> i < self.entries().len() && hash_of(self.entries()[i as int]) == h@,
    {
        let mut i: usize = 0;
        while i < self.torrents.len()
            invariant
                i <= self.torrents@.len(),
                forall|j: int| 0 <= j < i ==> hash_of(#[trigger] self.torrents@[j]) != h@,
            decreases self.torrents@.len() - i,
        {
            if bytes_eq(self.torrents[i].info.info_hash.as_slice(), h) {
                assert(hash_of(self.entries()[i as int]) == h@);
                return Some(i);
            }
            i += 1;
        }
        None
    }

    /// The torrent registered as `h`, if any.
    pub fn get(&self, h: &[u8]) -> (r: Option<&Torrent>)
        requires
            self.wf(),
        ensures
            r is Some <==> self.knows(h@),
            r matches Some(t) ==> hash_of(*t) == h@,
    {
        match self.find(h) {
            Some(i) => Some(&self.torrents[i]),
            None => None,
        }
    }

    /// Registers a torrent, unless one with its identifier is registered
    /// already or its identifier is not 20 bytes long.
    pub fn insert(&mut self, t: Torrent) -> (r: Result<(), RegistryError>)
        requires
            old(self).wf(),
        ensures
            final(self).wf(),
            r == Ok::<(), RegistryError>(()) <==> (!old(self).knows(hash_of(t)) && hash_of(t).len() == ID_LEN),
            r == Err::<(), RegistryError>(RegistryError::BadIdentifier) <==> hash_of(t).len() != ID_LEN,
            r == Err::<(), RegistryError>(RegistryError::Duplicate) <==> (hash_of(t).len() == ID_LEN && old(self).knows(hash_of(t))),
            r is Ok ==> final(self).entries() == old(self).entries().push(t),
            r is Err ==> final(self).entries() == old(self).entries(),
    {
        if t.info.info_hash.len() != ID_LEN {
            return Err(RegistryError::BadIdentifier);
        }
        if self.find(t.info.info_hash.as_slice()).is_some() {
            return Err(RegistryError::Duplicate);
        }
        self.torrents.push(t);
        assert(self.entries().last() == t);
        Ok(())
    }

    /// The torrent at place `i`, to change in place. The caller must leave its
    /// identifier as it was.
    pub fn torrent_mut(&mut self, i: usize) -> (r: &mut Torrent)
        requires
            i < old(self).entries().len(),
        ensures
            *r == old(self).entries()[i as int],
            final(self).entries() == old(self).entries().update(i as int, *final(r)),
    {
        &mut self.torrents[i]
    }

    /// Routes a message to the torrent named `h`: it is added to that
    /// torrent's inbox, and no other torrent changes.
    pub fn handle(&mut self, h: &[u8], msg: &[u8]) -> (r: Result<(), RegistryError>)
        requires
            old(self).wf(),
        ensures
            final(self).wf(),
            r is Ok <==> old(self).knows(h@),
            r is Ok ==> routed(*old(self), *final(self), h@, seq![msg@]),
            r is Err ==> r == Err::<(), RegistryError>(RegistryError::UnknownTorrent) && final(self).entries() == old(self).entries(),
            final(self).entries().len() == old(self).entries().len(),
            forall|i: int| 0 <= i < old(self).entries().len() && hash_of(#[trigger] old(self).entries()[i]) != h@
                ==> final(self).entries()[i] == old(self).entries()[i],
            forall|i: int| 0 <= i < old(self).entries().len() && hash_of(#[trigger] old(self).entries()[i]) == h@
                ==> hash_of(final(self).entries()[i]) == h@
                && final(self).entries()[i].pieces@ == old(self).entries()[i].pieces@
                && final(self).entries()[i].info.piece_count == old(self).entries()[i].info.piece_count
                && final(self).entries()[i].info.piece_len == old(self).entries()[i].info.piece_len
                && inbox_view(final(self).entries()[i]) == inbox_view(old(self).entries()[i]).push(msg@),
    {
        match self.find(h) {
            None => Err(RegistryError::UnknownTorrent),
            Some(i) => {
                let ghost before = self.torrents@;
                let mut t = self.torrents.remove(i);
                let ghost t0 = t;
                let mut m: Vec<u8> = Vec::new();
                m.extend_from_slice(msg);
                assert(m@ == msg@);
                t.inbox.push(m);
                assert(t.inbox@ == t0.inbox@.push(m));
                assert(inbox_view(t) =~= inbox_view(t0).push(msg@));
                assert(inbox_view(t) =~= inbox_view(t0) + seq![msg@]);
                self.torrents.insert(i, t);
                assert(self.torrents@ =~= before.update(i as int, t));
                Ok(())
            },
        }
    }
}

/// `after` is `before` with `msgs` added, in order, to the inbox of the
/// torrent named `h`, and every other torrent as it was.
pub open spec fn routed(before: Registry, after: Registry, h: Seq<u8>, msgs: Seq<Seq<u8>>) -> bool {
    &&& after.wf()
    &&& after.entries().len() == before.entries().len()
    &&& forall|i: int| 0 <= i < before.entries().len() && hash_of(#[trigger] before.entries()[i]) != h
        ==> after.entries()[i] == before.entries()[i]
    &&& forall|i: int| 0 <= i < before.entries().len() && hash_of(#[trigger] before.entries()[i]) == h
        ==> hash_of(after.entries()[i]) == h
        && after.entries()[i].pieces@ == before.entries()[i].pieces@
        && after.entries()[i].info.piece_count == before.entries()[i].info.piece_count
        && after.entries()[i].info.piece_len == before.entries()[i].info.piece_len
        && inbox_view(after.entries()[i]) == inbox_view(before.entries()[i]) + msgs
}

/// Routing nothing leaves a registry as it is.
pub proof fn lemma_routed_none(r: Registry, h: Seq<u8>)
    requires
        r.wf(),
    ensures
        routed(r, r, h, Seq::empty()),
{
    assert forall|i: int| 0 <= i < r.entries().len() && hash_of(#[trigger] r.entries()[i]) == h
        implies inbox_view(r.entries()[i]) == inbox_view(r.entries()[i]) + Seq::<Seq<u8>>::empty() by {
        assert(inbox_view(r.entries()[i]) =~= inbox_view(r.entries()[i]) + Seq::<Seq<u8>>::empty());
    }
}

/// Routing one batch after another routes the two, in order, and keeps the
/// set of registered identifiers.
pub proof fn lemma_routed_trans(a: Registry, b: Registry, c: Registry, h: Seq<u8>, m1: Seq<Seq<u8>>, m2: Seq<Seq<u8>>)
    requires
        a.wf(),
        routed(a, b, h, m1),
        routed(b, c, h, m2),
    ensures
        routed(a, c, h, m1 + m2),
        forall|g: Seq<u8>| a.knows(g) <==> c.knows(g),
{
    assert forall|i: int| 0 <= i < a.entries().len() && hash_of(#[trigger] a.entries()[i]) == h
        implies inbox_view(c.entries()[i]) == inbox_view(a.entries()[i]) + (m1 + m2) by {
        assert(hash_of(b.entries()[i]) == h);
        assert(inbox_view(a.entries()[i]) + (m1 + m2) =~= inbox_view(a.entries()[i]) + m1 + m2);
    }
    assert forall|g: Seq<u8>| a.knows(g) implies c.knows(g) by {
        let i = choose|i: int| 0 <= i < a.entries().len() && hash_of(#[trigger] a.entries()[i]) == g;
        if hash_of(a.entries()[i]) != h {
            assert(hash_of(b.entries()[i]) != h);
        }
        assert(hash_of(c.entries()[i]) == g);
    }
    assert forall|g: Seq<u8>| c.knows(g) implies a.knows(g) by {
        let i = choose|i: int| 0 <= i < c.entries().len() && hash_of(#[trigger] c.entries()[i]) == g;
        if hash_of(a.entries()[i]) != h {
            assert(hash_of(b.entries()[i]) != h);
        }
        assert(hash_of(a.entries()[i]) == g);
    }
}

/// Routing changes no identifier: the same torrents stay registered.
pub proof fn lemma_routed_keeps_known(a: Registry, b: Registry, h: Seq<u8>, m: Seq<Seq<u8>>)
    requires
        routed(a, b, h, m),
    ensures
        forall|g: Seq<u8>| a.knows(g) <==> b.knows(g),
{
    assert forall|g: Seq<u8>| a.knows(g) implies b.knows(g) by {
        let i = choose|i: int| 0 <= i < a.entries().len() && hash_of(#[trigger] a.entries()[i]) == g;
        assert(hash_of(b.entries()[i]) == g);
    }
    assert forall|g: Seq<u8>| b.knows(g) implies a.knows(g) by {
        let i = choose|i: int| 0 <= i < b.entries().len() && hash_of(#[trigger] b.entries()[i]) == g;
        assert(hash_of(a.entries()[i]) == g);
    }
}

/// The messages routed to a torrent, as byte strings.
pub open spec fn inbox_view(t: Torrent) -> Seq<Seq<u8>> {
    t.inbox@.map_values(|m: Vec<u8>| m@)
}

} // verus!
