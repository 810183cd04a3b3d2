//! A fixed-capacity byte buffer with a length that can be set within its
//! capacity.
//!
//! It models the anonymous mapped region the in-memory store uses for large
//! file chunks: the capacity is fixed at creation, growing the length within
//! the capacity exposes zero bytes (a fresh mapping reads as zeroes), and
//! the backing pages stay in place until the buffer is dropped.

use vstd::prelude::*;

verus! {

/// Semantically a byte vector whose capacity is fixed at creation.
pub struct MmapBuf {
    data: Vec<u8>,
    capacity: usize,
}

impl MmapBuf {
    /// The bytes currently held, in order.
    pub closed spec fn view(&self) -> Seq<u8> {
        self.data@
    }

    pub closed spec fn spec_capacity(&self) -> usize {
        self.capacity
    }

    /// The length never exceeds the fixed capacity.
    pub open spec fn wf(&self) -> bool {
        self@.len() <= self.spec_capacity()
    }

    pub fn with_capacity(capacity: usize) -> (r: MmapBuf)
        ensures
            r.wf(),
            r@ == Seq::<u8>::empty(),
            r.spec_capacity() == capacity,
    {
        MmapBuf { data: Vec::new(), capacity }
    }

    /// Sets the length. Growing exposes zero bytes, as a fresh anonymous
    /// mapping would; shrinking keeps the prefix.
    pub fn resize(&mut self, len: usize)
        requires
            old(self).wf(),
            len <= old(self).spec_capacity(),
        ensures
            final(self).wf(),
            final(self).spec_capacity() == old(self).spec_capacity(),
            final(self)@.len() == len,
            len <= old(self)@.len() ==> final(self)@ == old(self)@.subrange(0, len as int),
            len > old(self)@.len() ==> final(self)@ == old(self)@ + Seq::<u8>::new(
                (len - old(self)@.len()) as nat,
                |i: int| 0u8,
            ),
    {
        if len <= self.data.len() {
            self.data.truncate(len);
            assert(final(self)@ =~= old(self)@.subrange(0, len as int));
        } else {
            let ghost orig = self.data@;
            while self.data.len() < len
                invariant
                    self.capacity == old(self).spec_capacity(),
                    orig.len() < len <= self.capacity,
                    orig.len() <= self.data.len() <= len,
                    self.data@ == orig + Seq::<u8>::new((self.data@.len() - orig.len()) as nat, |i: int| 0u8),
                decreases len - self.data.len(),
            {
                self.data.push(0u8);
                assert(self.data@ =~= orig + Seq::<u8>::new((self.data@.len() - orig.len()) as nat, |i: int| 0u8));
            }
        }
    }

    pub fn len(&self) -> (r: usize)
        ensures
            r == self@.len(),
    {
        self.data.len()
    }

    pub fn capacity(&self) -> (r: usize)
        ensures
            r == self.spec_capacity(),
    {
        self.capacity
    }

    /// Appends `count` bytes of `src` starting at `start`. The buffer must
    /// have room within its capacity.
    pub fn push_bytes(&mut self, src: &Vec<u8>, start: usize, count: usize)
        requires
            old(self).wf(),
            start + count <= src@.len(),
            old(self)@.len() + count <= old(self).spec_capacity(),
        ensures
            final(self).wf(),
            final(self).spec_capacity() == old(self).spec_capacity(),
            final(self)@ == old(self)@ + src@.subrange(start as int, (start + count) as int),
    {
        let n = src.len();
        let mut i: usize = 0;
        while i < count
            invariant
                start + count <= n == src@.len(),
                i <= count,
                self.capacity == old(self).spec_capacity(),
                old(self)@.len() + count <= self.capacity,
                self.data@ == old(self)@ + src@.subrange(start as int, (start + i) as int),
            decreases count - i,
        {
            self.data.push(src[start + i]);
            i = i + 1;
            assert(self.data@ =~= old(self)@ + src@.subrange(start as int, (start + i) as int));
        }
    }

    /// Hands out the bytes, consuming the buffer. Callers that transfer the
    /// content onward (such as a gift-splice into a pipe) take ownership
    /// here so the backing cannot be reused while the transfer is in
    /// flight.
    pub fn into_vec(self) -> (r: Vec<u8>)
        ensures
            r@ == self@,
    {
        self.data
    }

    /// The byte at `i`.
    pub fn byte_at(&self, i: usize) -> (r: u8)
        requires
            i < self@.len(),
        ensures
            r == self@[i as int],
    {
        self.data[i]
    }
}

} // verus!
