//! A sharded free list of reusable byte buffers for the hot path.  A
//! buffer's shard is chosen by `id mod shard_count`, so unrelated
//! connections contend on different shards.
//!
//! Every buffer handed out has length zero and a provisioned capacity of
//! at least `MAX_BUF_SIZE`, whatever sequence of acquisitions and returns
//! came before; a buffer given back is recorded in its shard with length
//! zero, and both operations keep the pool well formed.
use vstd::prelude::*;

use crate::packet::MAX_BUF_SIZE;

verus! {

/// Buffers a shard keeps at most.
pub const POOL_SIZE: usize = 200;

/// One reusable byte buffer and the capacity it was provisioned with.
pub struct PoolBuffer {
    pub data: Vec<u8>,
    pub cap: usize,
}

impl PoolBuffer {
    /// A freshly provisioned, empty buffer of the full frame size.
    pub fn with_max_capacity() -> (r: PoolBuffer)
        ensures
            r.data@.len() == 0,
            r.cap == MAX_BUF_SIZE,
    {
        PoolBuffer { data: Vec::with_capacity(MAX_BUF_SIZE), cap: MAX_BUF_SIZE }
    }

    /// Empties the buffer for reuse; the provisioned capacity is kept.
    pub fn clear(&mut self)
        ensures
            final(self).data@.len() == 0,
            final(self).cap == old(self).cap,
    {
        self.data.clear();
    }
}

/// The free list, one independently locked list per shard at runtime.
pub struct ShardedBufferPool {
    pub shards: Vec<Vec<PoolBuffer>>,
}

impl ShardedBufferPool {
    pub open spec fn wf(self) -> bool {
        self.shards@.len() > 0
    }

    /// Builds `num_shards` shards, each pre-filled with `pool_size`
    /// buffers of the full frame size.
    pub fn new(num_shards: usize, pool_size: usize) -> (r: ShardedBufferPool)
        requires
            num_shards > 0,
        ensures
            r.wf(),
            r.shards@.len() == num_shards,
            forall|i: int|
                0 <= i < num_shards ==> (#[trigger] r.shards@[i])@.len() == pool_size,
            forall|i: int, j: int|
                0 <= i < num_shards && 0 <= j < pool_size ==> {
                    &&& (#[trigger] r.shards@[i]@[j]).cap == MAX_BUF_SIZE
                    &&& r.shards@[i]@[j].data@.len() == 0
                },
    {
        let mut shards: Vec<Vec<PoolBuffer>> = Vec::new();
        while shards.len() < num_shards
            invariant
                shards@.len() <= num_shards,
                forall|i: int|
                    0 <= i < shards@.len() ==> (#[trigger] shards@[i])@.len() == pool_size,
                forall|i: int, j: int|
                    0 <= i < shards@.len() && 0 <= j < pool_size ==> {
                        &&& (#[trigger] shards@[i]@[j]).cap == MAX_BUF_SIZE
                        &&& shards@[i]@[j].data@.len() == 0
                    },
            decreases num_shards - shards@.len(),
        {
            let mut shard: Vec<PoolBuffer> = Vec::new();
            while shard.len() < pool_size
                invariant
                    shard@.len() <= pool_size,
                    forall|j: int|
                        0 <= j < shard@.len() ==> {
                            &&& (#[trigger] shard@[j]).cap == MAX_BUF_SIZE
                            &&& shard@[j].data@.len() == 0
                        },
                decreases pool_size - shard@.len(),
            {
                shard.push(PoolBuffer::with_max_capacity());
            }
            shards.push(shard);
        }
        ShardedBufferPool { shards }
    }

    /// The shard serving `id`.
    pub open spec fn spec_shard_index(self, id: usize) -> int {
        id as int % self.shards@.len() as int
    }

    /// Draws a buffer for `id`: the head of its shard when one is there
    /// and still of full capacity, else a fresh allocation.  Whatever the
    /// pool's history, the result is empty and holds a whole frame.
    pub fn get_buffer(&mut self, id: usize) -> (r: PoolBuffer)
        requires
            old(self).wf(),
        ensures
            final(self).wf(),
            r.data@.len() == 0,
            r.cap >= MAX_BUF_SIZE,
            final(self).shards@.len() == old(self).shards@.len(),
            ({
                let k = old(self).spec_shard_index(id);
                let shard = old(self).shards@[k]@;
                &&& (forall|i: int|
                    0 <= i < old(self).shards@.len() && i != k ==> final(self).shards@[i]
                        == old(self).shards@[i])
                &&& (shard.len() == 0 ==> final(self).shards@[k]@ =~= shard && r.cap
                    == MAX_BUF_SIZE)
                &&& (shard.len() > 0 ==> {
                    &&& final(self).shards@[k]@ =~= shard.drop_first()
                    &&& (shard[0].cap >= MAX_BUF_SIZE ==> r.cap == shard[0].cap)
                    &&& (shard[0].cap < MAX_BUF_SIZE ==> r.cap == MAX_BUF_SIZE)
                })
            }),
    {
        let shard_index = id % self.shards.len();
        let mut shard = self.shards.remove(shard_index);
        let r = if shard.len() > 0 {
            let mut buffer = shard.remove(0);
            if buffer.cap < MAX_BUF_SIZE {
                buffer = PoolBuffer::with_max_capacity();
            } else {
                buffer.clear();
            }
            buffer
        } else {
            PoolBuffer::with_max_capacity()
        };
        self.shards.insert(shard_index, shard);
        r
    }

    /// Hands a buffer back to `id`'s shard; a full shard drops it instead.
    /// A buffer returned to the pool is recorded with length zero, its
    /// provisioned capacity kept.  Never blocks a producer and never
    /// fails.
    pub fn return_buffer(&mut self, id: usize, buffer: PoolBuffer)
        requires
            old(self).wf(),
        ensures
            final(self).wf(),
            final(self).shards@.len() == old(self).shards@.len(),
            ({
                let k = old(self).spec_shard_index(id);
                let shard = old(self).shards@[k]@;
                &&& (forall|i: int|
                    0 <= i < old(self).shards@.len() && i != k ==> final(self).shards@[i]
                        == old(self).shards@[i])
                &&& (shard.len() < POOL_SIZE ==> {
                    &&& final(self).shards@[k]@.len() == shard.len() + 1
                    &&& final(self).shards@[k]@.take(shard.len() as int) =~= shard
                    &&& final(self).shards@[k]@.last().data@.len() == 0
                    &&& final(self).shards@[k]@.last().cap == buffer.cap
                })
                &&& (shard.len() >= POOL_SIZE ==> final(self).shards@[k]@ =~= shard)
            }),
    {
        let shard_index = id % self.shards.len();
        let mut shard = self.shards.remove(shard_index);
        if shard.len() < POOL_SIZE {
            let mut buffer = buffer;
            buffer.clear();
            shard.push(buffer);
        }
        self.shards.insert(shard_index, shard);
    }
}

} // verus!
