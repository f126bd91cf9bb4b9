//! A bounded byte buffer: bytes enter at the back and leave at the front.
use vstd::prelude::*;

verus! {

/// A FIFO byte buffer whose capacity is fixed at construction.
pub struct ByteRing {
    bytes: Vec<u8>,
    cap: usize,
}

impl View for ByteRing {
    type V = Seq<u8>;

    closed spec fn view(&self) -> Seq<u8> {
        self.bytes@
    }
}

impl ByteRing {
    /// The capacity the buffer was made with.
    pub closed spec fn capacity(&self) -> nat {
        self.cap as nat
    }

    /// The buffer never holds more than its capacity.
    pub open spec fn wf(&self) -> bool {
        self@.len() <= self.capacity()
    }

    /// Free room left in the buffer.
    pub open spec fn room_spec(&self) -> nat {
        (self.capacity() - self@.len()) as nat
    }

    pub fn new(cap: usize) -> (r: ByteRing)
        ensures
            r.wf(),
            r@ == Seq::<u8>::empty(),
            r.capacity() == cap,
    {
        ByteRing { bytes: Vec::new(), cap }
    }

    pub fn len(&self) -> (r: usize)
        ensures
            r == self@.len(),
    {
        self.bytes.len()
    }

    pub fn cap(&self) -> (r: usize)
        ensures
            r == self.capacity(),
    {
        self.cap
    }

    pub fn room(&self) -> (r: usize)
        requires
            self.wf(),
        ensures
            r == self.room_spec(),
    {
        self.cap - self.bytes.len()
    }

    /// The buffered bytes, front first.
    pub fn as_slice(&self) -> (r: &[u8])
        ensures
            r@ == self@,
    {
        self.bytes.as_slice()
    }

    /// Appends as many of `src` as there is room for; returns how many.
    pub fn push_slice(&mut self, src: &[u8]) -> (n: usize)
        requires
            old(self).wf(),
        ensures
            final(self).wf(),
            final(self).capacity() == old(self).capacity(),
            n == if src@.len() <= old(self).room_spec() { src@.len() } else { old(self).room_spec() },
            final(self)@ == old(self)@ + src@.subrange(0, n as int),
    {
        let room = self.cap - self.bytes.len();
        let n: usize = if src.len() <= room { src.len() } else { room };
        let mut i: usize = 0;
        while i < n
            invariant
                n <= src@.len(),
                self.cap == old(self).cap,
                self.bytes@.len() + (n - i) <= self.cap,
                i <= n,
                self.bytes@ == old(self)@ + src@.subrange(0, i as int),
            decreases n - i,
        {
            self.bytes.push(src[i]);
            i += 1;
            assert(self.bytes@ =~= old(self)@ + src@.subrange(0, i as int));
        }
        n
    }

    /// Removes the first `n` bytes and returns them.
    pub fn take_front(&mut self, n: usize) -> (r: Vec<u8>)
        requires
            old(self).wf(),
            n <= old(self)@.len(),
        ensures
            final(self).wf(),
            final(self).capacity() == old(self).capacity(),
            r@ == old(self)@.subrange(0, n as int),
            final(self)@ == old(self)@.subrange(n as int, old(self)@.len() as int),
    {
        let mut head: Vec<u8> = Vec::new();
        let mut tail: Vec<u8> = Vec::new();
        let mut i: usize = 0;
        while i < self.bytes.len()
            invariant
                n <= self.bytes@.len(),
                i <= self.bytes@.len(),
                head@ == self.bytes@.subrange(0, if i < n { i as int } else { n as int }),
                tail@ == if i <= n { Seq::<u8>::empty() } else { self.bytes@.subrange(n as int, i as int) },
            decreases self.bytes@.len() - i,
        {
            if i < n {
                head.push(self.bytes[i]);
            } else {
                tail.push(self.bytes[i]);
            }
            i += 1;
            assert(head@ =~= self.bytes@.subrange(0, if i < n { i as int } else { n as int }));
            assert(tail@ =~= if i <= n { Seq::<u8>::empty() } else { self.bytes@.subrange(n as int, i as int) });
        }
        if n == self.bytes.len() {
            assert(tail@ =~= self.bytes@.subrange(n as int, self.bytes@.len() as int));
        }
        self.bytes = tail;
        head
    }
}

} // verus!
