//! Storage blocks for frames in reassembly, and the pool that lends them.
//!
//! The pool never allocates. Its owner registers blocks up to a number fixed
//! at construction; from then on a block is either free in the pool or lent
//! to exactly one holder, and comes back by `release`.

use vstd::prelude::*;

verus! {

/// A block of byte storage of fixed size, filled from the front.
#[derive(Debug)]
pub struct Buffer {
    data: Vec<u8>,
    size: usize,
}

impl View for Buffer {
    type V = Seq<u8>;

    /// The bytes written so far.
    closed spec fn view(&self) -> Seq<u8> {
        self.data@
    }
}

impl Buffer {
    /// The number of bytes the block can hold.
    pub closed spec fn size(&self) -> nat {
        self.size as nat
    }

    /// The block holds no more than its size.
    pub closed spec fn wf(&self) -> bool {
        self.data@.len() <= self.size
    }

    /// Makes an empty buffer of a storage block. The block's length is the
    /// buffer's size; what the block held is forgotten.
    pub fn new(storage: Vec<u8>) -> (b: Buffer)
        ensures
            b.wf(),
            b@ == Seq::<u8>::empty(),
            b.size() == storage@.len(),
    {
        let size: usize = storage.len();
        let mut data = storage;
        data.clear();
        Buffer { data, size }
    }

    /// The number of bytes written so far.
    pub fn len(&self) -> (n: usize)
        ensures
            n == self@.len(),
    {
        self.data.len()
    }

    /// The number of bytes the block can hold.
    pub fn capacity(&self) -> (n: usize)
        ensures
            n == self.size(),
    {
        self.size
    }

    /// Forgets what was written.
    pub fn clear(&mut self)
        ensures
            final(self)@ == Seq::<u8>::empty(),
            final(self).size() == old(self).size(),
            final(self).wf(),
    {
        self.data.clear();
    }

    /// Writes `bytes[from..to]` behind what was written so far.
    pub fn append(&mut self, bytes: &[u8], from: usize, to: usize)
        requires
            old(self).wf(),
            from <= to <= bytes@.len(),
            old(self)@.len() + (to - from) <= old(self).size(),
        ensures
            final(self).wf(),
            final(self).size() == old(self).size(),
            final(self)@ == old(self)@ + bytes@.subrange(from as int, to as int),
    {
        let mut i: usize = from;
        assert(self.data@ =~= old(self).data@ + bytes@.subrange(from as int, i as int));
        while i < to
            invariant
                from <= i <= to <= bytes@.len(),
                self.size == old(self).size,
                old(self).data@.len() + (to - from) <= self.size,
                self.data@ == old(self).data@ + bytes@.subrange(from as int, i as int),
            decreases to - i,
        {
            self.data.push(bytes[i]);
            i = i + 1;
            assert(self.data@ =~= old(self).data@ + bytes@.subrange(from as int, i as int));
        }
    }

    /// The bytes written so far.
    pub fn as_slice(&self) -> (s: &[u8])
        ensures
            s@ == self@,
    {
        self.data.as_slice()
    }

    /// A copy of the bytes written so far.
    pub fn to_vec(&self) -> (v: Vec<u8>)
        ensures
            v@ == self@,
    {
        let mut v: Vec<u8> = Vec::with_capacity(self.data.len());
        let mut i: usize = 0;
        while i < self.data.len()
            invariant
                i <= self.data@.len(),
                v@ == self.data@.subrange(0, i as int),
            decreases self.data@.len() - i,
        {
            v.push(self.data[i]);
            i = i + 1;
            assert(v@ =~= self.data@.subrange(0, i as int));
        }
        assert(v@ =~= self.data@);
        v
    }
}

/// Why the pool refused.
#[derive(Clone, Copy, Debug, PartialEq, Eq, Structural)]
pub enum PoolError {
    /// Every slot already has a block registered.
    PoolFull,
    /// No block is free.
    PoolExhausted,
    /// No block is lent, so none can come back.
    NotLent,
}

/// What a pool is, for contracts.
pub struct PoolModel {
    /// The number of blocks that may be registered.
    pub slots: nat,
    /// The sizes of the free blocks; the last is lent next.
    pub free: Seq<nat>,
    /// The number of blocks that are lent.
    pub lent: nat,
}

impl PoolModel {
    /// No more blocks than slots.
    pub open spec fn wf(self) -> bool {
        self.free.len() + self.lent <= self.slots
    }

    /// The pool after a block of `size` bytes was registered.
    pub open spec fn provisioned(self, size: nat) -> PoolModel {
        PoolModel { free: self.free.push(size), ..self }
    }

    /// The pool after its next free block was lent.
    pub open spec fn acquired(self) -> PoolModel {
        PoolModel { free: self.free.drop_last(), lent: self.lent + 1, ..self }
    }

    /// The pool after a lent block of `size` bytes came back.
    pub open spec fn released(self, size: nat) -> PoolModel {
        PoolModel { free: self.free.push(size), lent: (self.lent - 1) as nat, ..self }
    }
}

/// A fixed number of slots for storage blocks.
#[derive(Debug)]
pub struct BufferPool {
    slots: usize,
    free: Vec<Buffer>,
    lent: usize,
}

impl View for BufferPool {
    type V = PoolModel;

    closed spec fn view(&self) -> PoolModel {
        PoolModel {
            slots: self.slots as nat,
            free: Seq::new(self.free@.len(), |i: int| self.free@[i].size()),
            lent: self.lent as nat,
        }
    }
}

impl BufferPool {
    /// No more blocks than slots, and every free block is sound and empty.
    pub closed spec fn wf(&self) -> bool {
        &&& self.free@.len() + self.lent <= self.slots
        &&& forall|i: int|
            0 <= i < self.free@.len() ==> (#[trigger] self.free@[i]).wf() && self.free@[i]@.len()
                == 0
    }

    /// What `wf` says of the model.
    pub proof fn lemma_wf(&self)
        requires
            self.wf(),
        ensures
            self@.wf(),
            self@.slots <= usize::MAX,
    {
    }

    /// A pool of `slots` slots with no block registered.
    pub fn new(slots: usize) -> (pool: BufferPool)
        ensures
            pool.wf(),
            pool@ == (PoolModel { slots: slots as nat, free: Seq::empty(), lent: 0 }),
    {
        let pool = BufferPool { slots, free: Vec::new(), lent: 0 };
        assert(pool@.free =~= Seq::<nat>::empty());
        pool
    }

    /// The number of slots.
    pub fn slots(&self) -> (n: usize)
        ensures
            n == self@.slots,
    {
        self.slots
    }

    /// The number of free blocks.
    pub fn free_count(&self) -> (n: usize)
        ensures
            n == self@.free.len(),
    {
        self.free.len()
    }

    /// The number of lent blocks.
    pub fn lent_count(&self) -> (n: usize)
        ensures
            n == self@.lent,
    {
        self.lent
    }

    /// The size of the block that would be lent next, if one is free.
    pub fn next_size(&self) -> (r: Option<usize>)
        ensures
            match r {
                Some(n) => self@.free.len() > 0 && n == self@.free.last(),
                None => self@.free.len() == 0,
            },
    {
        let n: usize = self.free.len();
        if n == 0 {
            None
        } else {
            Some(self.free[n - 1].capacity())
        }
    }

    /// Registers one storage block. Refused with `PoolFull`, and the pool left
    /// as it was, exactly when every slot is taken.
    pub fn provision(&mut self, storage: Vec<u8>) -> (r: Result<(), PoolError>)
        requires
            old(self).wf(),
        ensures
            final(self).wf(),
            old(self)@.free.len() + old(self)@.lent < old(self)@.slots ==> r is Ok && final(self)@
                == old(self)@.provisioned(storage@.len()),
            old(self)@.free.len() + old(self)@.lent >= old(self)@.slots ==> r == Err::<
                (),
                PoolError,
            >(PoolError::PoolFull) && final(self)@ == old(self)@,
    {
        if self.free.len() >= self.slots - self.lent {
            return Err(PoolError::PoolFull);
        }
        let buffer = Buffer::new(storage);
        self.free.push(buffer);
        assert(self@.free =~= old(self)@.free.push(storage@.len() as nat));
        Ok(())
    }

    /// Lends the free block that came in last, empty. Refused with
    /// `PoolExhausted`, and the pool left as it was, exactly when none is free.
    pub fn acquire(&mut self) -> (r: Result<Buffer, PoolError>)
        requires
            old(self).wf(),
        ensures
            final(self).wf(),
            match r {
                Ok(b) => {
                    &&& old(self)@.free.len() > 0
                    &&& b.wf()
                    &&& b@ == Seq::<u8>::empty()
                    &&& b.size() == old(self)@.free.last()
                    &&& final(self)@ == old(self)@.acquired()
                },
                Err(e) => {
                    &&& old(self)@.free.len() == 0
                    &&& e == PoolError::PoolExhausted
                    &&& final(self)@ == old(self)@
                },
            },
    {
        match self.free.pop() {
            Some(b) => {
                self.lent = self.lent + 1;
                assert(self@.free =~= old(self)@.free.drop_last());
                assert(b == old(self).free@[old(self).free@.len() - 1]);
                Ok(b)
            },
            None => Err(PoolError::PoolExhausted),
        }
    }

    /// Takes a lent block back and empties it. Refused with `NotLent`, and the
    /// pool left as it was, exactly when no block is lent.
    pub fn release(&mut self, buffer: Buffer) -> (r: Result<(), PoolError>)
        requires
            old(self).wf(),
            buffer.wf(),
        ensures
            final(self).wf(),
            old(self)@.lent > 0 ==> r is Ok && final(self)@ == old(self)@.released(buffer.size()),
            old(self)@.lent == 0 ==> r == Err::<(), PoolError>(PoolError::NotLent) && final(self)@
                == old(self)@,
    {
        if self.lent == 0 {
            return Err(PoolError::NotLent);
        }
        let mut buffer = buffer;
        buffer.clear();
        self.lent = self.lent - 1;
        self.free.push(buffer);
        assert(self@.free =~= old(self)@.free.push(buffer.size()));
        Ok(())
    }
}

} // verus!
