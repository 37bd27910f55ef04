//! A byte buffer with the position/limit cursor discipline of the binary
//! graph loader: fill up to `limit`, `flip`, read up to the old position,
//! `compact` or `clear`, and repeat. All cursor arithmetic is verified; the
//! raw typed reads and writes over the storage are the loader's affair and
//! live outside the library, on top of [`ByteBuffer::array`] and
//! [`ByteBuffer::put_bytes`].

use vstd::pervasive::VecAdditionalExecFns;
use vstd::prelude::*;

verus! {

/// Fixed-capacity byte storage with a read/write position and a limit.
pub struct ByteBuffer {
    data: Vec<u8>,
    pos: usize,
    limit: usize,
}

impl ByteBuffer {
    /// The stored bytes.
    pub closed spec fn bytes(&self) -> Seq<u8> {
        self.data@
    }

    /// The cursor position.
    pub closed spec fn spec_position(&self) -> int {
        self.pos as int
    }

    /// The read/write limit.
    pub closed spec fn spec_limit(&self) -> int {
        self.limit as int
    }

    /// The bytes still readable or writable: from position up to limit.
    pub open spec fn spec_remaining(&self) -> int {
        if self.spec_limit() <= self.spec_position() {
            0
        } else {
            self.spec_limit() - self.spec_position()
        }
    }

    /// A zero-filled buffer of the given capacity, position at the start,
    /// limit at the end.
    pub fn new(size: usize) -> (r: Self)
        ensures
            r.bytes().len() == size,
            forall|i: int| 0 <= i < size ==> r.bytes()[i] == 0u8,
            r.spec_position() == 0,
            r.spec_limit() == size,
    {
        let data = vec![0u8; size];
        ByteBuffer { data, pos: 0, limit: size }
    }

    /// The fixed capacity: how many bytes the buffer stores in all.
    pub fn capacity(&self) -> (r: usize)
        ensures
            r == self.bytes().len(),
    {
        self.data.len()
    }

    /// The cursor position.
    pub fn position(&self) -> (r: usize)
        ensures
            r == self.spec_position(),
    {
        self.pos
    }

    /// The read/write limit.
    pub fn limit(&self) -> (r: usize)
        ensures
            r == self.spec_limit(),
    {
        self.limit
    }

    /// Move the cursor.
    pub fn set_position(&mut self, position: usize)
        ensures
            final(self).spec_position() == position,
            final(self).spec_limit() == old(self).spec_limit(),
            final(self).bytes() == old(self).bytes(),
    {
        self.pos = position;
    }

    /// Move the limit.
    pub fn set_limit(&mut self, limit: usize)
        ensures
            final(self).spec_limit() == limit,
            final(self).spec_position() == old(self).spec_position(),
            final(self).bytes() == old(self).bytes(),
    {
        self.limit = limit;
    }

    /// How many bytes lie between the position and the limit; zero when the
    /// position has run past the limit.
    pub fn remaining(&self) -> (r: usize)
        ensures
            r == self.spec_remaining(),
    {
        if self.limit <= self.pos {
            0
        } else {
            self.limit - self.pos
        }
    }

    /// Whether anything lies between the position and the limit.
    pub fn has_remaining(&self) -> (r: bool)
        ensures
            r == (self.spec_remaining() > 0),
    {
        self.remaining() > 0
    }

    /// Switch from filling to draining: the limit falls to the position, the
    /// position returns to the start.
    pub fn flip(&mut self)
        ensures
            final(self).spec_limit() == old(self).spec_position(),
            final(self).spec_position() == 0,
            final(self).bytes() == old(self).bytes(),
    {
        self.limit = self.pos;
        self.pos = 0;
    }

    /// Reset for filling from scratch: position to the start, limit to the
    /// capacity; the stored bytes stay as they are.
    pub fn clear(&mut self)
        ensures
            final(self).spec_position() == 0,
            final(self).spec_limit() == old(self).bytes().len(),
            final(self).bytes() == old(self).bytes(),
    {
        self.pos = 0;
        self.limit = self.data.len();
    }

    /// Read access to the whole storage.
    pub fn array(&self) -> (r: &Vec<u8>)
        ensures
            r@ == self.bytes(),
    {
        &self.data
    }

    /// Write `src` at the position and advance it: the filling half of the
    /// cursor discipline, within the limit.
    pub fn put_bytes(&mut self, src: &Vec<u8>)
        requires
            old(self).spec_position() + src@.len() <= old(self).spec_limit(),
            old(self).spec_limit() <= old(self).bytes().len(),
        ensures
            final(self).bytes().len() == old(self).bytes().len(),
            forall|i: int|
                0 <= i < old(self).spec_position() ==> final(self).bytes()[i] == old(self).bytes()[i],
            forall|i: int|
                0 <= i < src@.len() ==> final(self).bytes()[old(self).spec_position() + i]
                    == src@[i],
            forall|i: int|
                old(self).spec_position() + src@.len() <= i < old(self).bytes().len() ==> final(self).bytes()[i] == old(self).bytes()[i],
            final(self).spec_position() == old(self).spec_position() + src@.len(),
            final(self).spec_limit() == old(self).spec_limit(),
    {
        let mut i: usize = 0;
        while i < src.len()
            invariant
                0 <= i <= src@.len(),
                self.pos == old(self).pos,
                self.limit == old(self).limit,
                self.pos + src@.len() <= self.limit <= self.data@.len(),
                self.data@.len() == old(self).data@.len(),
                forall|x: int| 0 <= x < self.pos ==> self.data@[x] == old(self).data@[x],
                forall|x: int| 0 <= x < i ==> self.data@[self.pos + x] == src@[x],
                forall|x: int|
                    self.pos + src@.len() <= x < self.data@.len() ==> self.data@[x] == old(self).data@[x],
            decreases src@.len() - i,
        {
            self.data.set(self.pos + i, src[i]);
            i = i + 1;
        }
        self.pos = self.pos + src.len();
    }

    /// Move the unread bytes (position up to limit) to the front, set the
    /// position just after them and the limit to the capacity: switch back
    /// from draining to filling without losing what is left.
    pub fn compact(&mut self)
        requires
            old(self).spec_limit() <= old(self).bytes().len(),
        ensures
            final(self).bytes().len() == old(self).bytes().len(),
            forall|i: int|
                0 <= i < old(self).spec_remaining() ==> final(self).bytes()[i] == old(self).bytes()[old(self).spec_position() + i],
            final(self).spec_position() == old(self).spec_remaining(),
            final(self).spec_limit() == old(self).bytes().len(),
    {
        let rem = self.remaining();
        let mut i: usize = 0;
        while i < rem
            invariant
                0 <= i <= rem,
                rem == old(self).spec_remaining(),
                self.pos == old(self).pos,
                self.limit == old(self).limit,
                rem > 0 ==> self.pos + rem <= self.data@.len(),
                self.data@.len() == old(self).data@.len(),
                forall|x: int| 0 <= x < i ==> self.data@[x] == old(self).data@[old(self).pos + x],
                forall|x: int|
                    self.pos + i <= x < self.data@.len() ==> self.data@[x] == old(self).data@[x],
                rem > 0 ==> self.pos < self.limit,
            decreases rem - i,
        {
            let b = self.data[self.pos + i];
            self.data.set(i, b);
            i = i + 1;
        }
        self.pos = rem;
        self.limit = self.data.len();
    }
}

} // verus!
