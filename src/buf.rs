//! A fixed-capacity byte buffer whose first `len` bytes are in use.
use vstd::prelude::*;

verus! {

/// A byte buffer of fixed capacity; the first `len` bytes hold data.
#[derive(Clone, Debug)]
pub struct Buf {
    buf: Vec<u8>,
    len: usize,
}

impl Buf {
    /// The bytes in use.
    pub closed spec fn used(&self) -> Seq<u8> {
        self.buf@.subrange(0, self.len as int)
    }

    /// How many bytes the buffer can hold.
    pub closed spec fn capacity(&self) -> nat {
        self.buf@.len()
    }

    pub closed spec fn spec_len(&self) -> nat {
        self.len as nat
    }

    /// The whole storage, used part first.
    pub closed spec fn storage(&self) -> Seq<u8> {
        self.buf@
    }

    pub closed spec fn wf(&self) -> bool {
        self.len <= self.buf@.len() <= usize::MAX
    }

    /// An empty buffer that can hold `capacity` bytes.
    pub fn new(capacity: usize) -> (r: Self)
        ensures
            r.wf(),
            r.used() == Seq::<u8>::empty(),
            r.capacity() == capacity,
            r.spec_len() == 0,
            r.storage() == Seq::new(capacity as nat, |i: int| 0u8),
    {
        let r = Self { buf: vec![0u8; capacity], len: 0 };
        assert(r.storage() =~= Seq::new(capacity as nat, |i: int| 0u8));
        r
    }

    /// The used bytes are the first `len` bytes of the storage, which holds
    /// `capacity` bytes.
    pub proof fn lemma_layout(&self)
        requires
            self.wf(),
        ensures
            self.used() == self.storage().subrange(0, self.spec_len() as int),
            self.capacity() == self.storage().len(),
            self.spec_len() <= self.capacity(),
            self.used().len() == self.spec_len(),
    {
    }

    pub fn len(&self) -> (r: usize)
        ensures
            r == self.spec_len(),
    {
        self.len
    }

    /// Marks `len` more bytes, already written after the used part, as in use.
    pub fn add_len(&mut self, len: usize)
        requires
            old(self).wf(),
            old(self).spec_len() + len <= old(self).capacity(),
        ensures
            final(self).wf(),
            final(self).spec_len() == old(self).spec_len() + len,
            final(self).storage() == old(self).storage(),
    {
        self.len = self.len + len;
    }

    pub fn get_used(&self) -> (r: &[u8])
        requires
            self.wf(),
        ensures
            r@ == self.used(),
    {
        &self.buf.as_slice()[0..self.len]
    }

    /// The bytes in use, for writing in place.
    pub fn get_used_mut(&mut self) -> (r: &mut [u8])
        requires
            old(self).wf(),
        ensures
            r@ == old(self).used(),
            final(self).spec_len() == old(self).spec_len(),
            final(self).storage() == final(r)@ + old(self).storage().subrange(
                old(self).spec_len() as int,
                old(self).capacity() as int,
            ),
    {
        let len = self.len;
        let (used, _rest) = self.buf.as_mut_slice().split_at_mut(len);
        used
    }

    /// Copies as much of `data` as fits after the used bytes and marks it as
    /// in use; returns how many bytes were taken.
    pub fn write_unused(&mut self, data: &[u8]) -> (n: usize)
        requires
            old(self).wf(),
        ensures
            final(self).wf(),
            final(self).capacity() == old(self).capacity(),
            n == vstd::math::min(data@.len() as int, old(self).capacity() - old(self).spec_len()),
            final(self).spec_len() == old(self).spec_len() + n,
            final(self).used() == old(self).used() + data@.subrange(0, n as int),
    {
        let room = self.buf.len() - self.len;
        let n: usize = if data.len() < room { data.len() } else { room };
        let start = self.len;
        let mut i: usize = 0;
        while i < n
            invariant
                0 <= i <= n,
                n <= data@.len(),
                start + n <= self.buf@.len() <= usize::MAX,
                self.buf@.len() == old(self).buf@.len(),
                self.len == start,
                start == old(self).len,
                self.buf@.subrange(0, start as int) == old(self).used(),
                forall|k: int| 0 <= k < i ==> self.buf@[start + k] == data@[k],
            decreases n - i,
        {
            self.buf.set(start + i, data[i]);
            i = i + 1;
        }
        self.len = start + n;
        assert(self.used() =~= old(self).used() + data@.subrange(0, n as int));
        n
    }

    /// Removes the used bytes in `start..end`, moving the bytes after them down.
    pub fn drain(&mut self, start: usize, end: usize)
        requires
            old(self).wf(),
            start <= end <= old(self).spec_len(),
        ensures
            final(self).wf(),
            final(self).capacity() == old(self).capacity(),
            final(self).spec_len() == old(self).spec_len() - (end - start),
            final(self).used() == old(self).used().subrange(0, start as int) + old(self).used().subrange(
                end as int,
                old(self).spec_len() as int,
            ),
    {
        let len = self.len;
        let gap = end - start;
        let mut i: usize = start;
        while i + gap < len
            invariant
                start <= i <= len - gap,
                gap == end - start,
                len == old(self).len,
                len <= self.buf@.len(),
                self.buf@.len() == old(self).buf@.len(),
                self.len == len,
                forall|k: int| 0 <= k < start ==> self.buf@[k] == old(self).buf@[k],
                forall|k: int| start <= k < i ==> self.buf@[k] == old(self).buf@[k + gap],
                forall|k: int| i + gap <= k < len ==> self.buf@[k] == old(self).buf@[k],
            decreases len - gap - i,
        {
            let b = self.buf[i + gap];
            self.buf.set(i, b);
            i = i + 1;
        }
        self.len = len - gap;
        assert(self.used() =~= old(self).used().subrange(0, start as int) + old(self).used().subrange(
            end as int,
            len as int,
        ));
    }
}

} // verus!
