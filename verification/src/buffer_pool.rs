//! Pools of reusable buffers.
//!
//! Buffers are kept by size, rounded up to a power of two.  A buffer that was checked out
//! goes back to its pool, which keeps a bounded number of each size.

use crate::utils::pow2_u64;
use std::collections::HashMap;
use vstd::arithmetic::power2::*;
use vstd::prelude::*;

verus! {

broadcast use vstd::std_specs::hash::group_hash_axioms;

/// The most buffers of one size that a pool keeps.
pub const MAX_PER_BUCKET: usize = 16;

/// The size of a buffer, as a power of two.
#[derive(Debug, Clone, Copy, PartialEq, Eq, Structural)]
pub struct SizeBucket {
    /// Binary logarithm of the size in bytes.
    pub log_size: u32,
}

/// The least exponent whose power of two is at least the size.
pub open spec fn is_bucket_log(size: int, log_size: int) -> bool {
    &&& 0 <= log_size
    &&& size <= pow2(log_size as nat)
    &&& log_size > 0 ==> pow2((log_size - 1) as nat) < size
}

impl SizeBucket {
    /// The bucket for a size in bytes.
    pub fn for_size(size: u64) -> (r: SizeBucket)
        ensures
            is_bucket_log(size as int, r.log_size as int),
            r.log_size <= 64,
            r.log_size < 64 <==> size <= pow2(63),
    {
        proof {
            lemma2_to64();
            lemma2_to64_rest();
            lemma_pow2_unfold(64);
        }
        let mut log_size: u32 = 0;
        let mut power: u64 = 1;
        while power < size
            invariant
                log_size <= 63,
                power == pow2(log_size as nat),
                log_size > 0 ==> pow2((log_size - 1) as nat) < size,
                pow2(63) == 0x8000_0000_0000_0000,
                pow2(64) == 0x1_0000_0000_0000_0000,
            decreases 64 - log_size,
        {
            proof {
                lemma_pow2_unfold((log_size + 1) as nat);
                if log_size < 63 {
                    lemma_pow2_unfold(63);
                    if log_size < 62 {
                        lemma_pow2_strictly_increases(log_size as nat, 62);
                    }
                }
            }
            if log_size == 63 {
                return SizeBucket { log_size: 64 };
            }
            power = power * 2;
            log_size = log_size + 1;
        }
        proof {
            if log_size < 63 {
                lemma_pow2_strictly_increases(log_size as nat, 63);
            }
        }
        SizeBucket { log_size }
    }

    /// The size of the buffers in the bucket.
    pub fn size(&self) -> (r: u64)
        requires
            self.log_size < 64,
        ensures
            r == pow2(self.log_size as nat),
    {
        pow2_u64(self.log_size)
    }
}

/// What a pool has done so far.
#[derive(Debug, Clone, Copy, PartialEq, Eq, Structural)]
pub struct PoolStats {
    /// Buffers that were allocated.
    pub allocations: u64,
    /// Buffers that were taken from the pool.
    pub reuses: u64,
    /// Buffers that were put back.
    pub returns: u64,
}

/// A pool of reusable buffers.
#[verifier::reject_recursive_types(B)]
pub struct BufferPool<B> {
    /// The buffers at hand, by the logarithm of their size.
    pub available: HashMap<u32, Vec<B>>,
    /// What the pool has done.
    pub stats: PoolStats,
}

/// A buffer that was checked out of a pool.
pub struct PooledBuffer<B> {
    /// The buffer.
    pub buffer: B,
    /// The bucket that it belongs to.
    pub bucket: SizeBucket,
}

/// The buffers of a size once one more was put back.
pub open spec fn kept_after_return<B>(before: Seq<B>, buffer: B) -> Seq<B> {
    if before.len() < MAX_PER_BUCKET {
        before.push(buffer)
    } else {
        before
    }
}

impl<B> BufferPool<B> {
    /// The buffers of a size, in the order in which they were put back.
    pub open spec fn kept(self, log_size: u32) -> Seq<B> {
        if self.available@.contains_key(log_size) {
            self.available@[log_size]@
        } else {
            Seq::empty()
        }
    }

    /// No size has too many buffers.
    pub open spec fn wf(self) -> bool {
        forall|log_size: u32| (#[trigger] self.kept(log_size)).len() <= MAX_PER_BUCKET
    }

    /// The pool has the same buffers as another, but for one size.
    pub open spec fn same_but(self, other: BufferPool<B>, log_size: u32) -> bool {
        forall|k: u32| k != log_size ==> #[trigger] self.kept(k) == other.kept(k)
    }

    /// An empty pool.
    pub fn new() -> (r: BufferPool<B>)
        ensures
            r.wf(),
            forall|log_size: u32| (#[trigger] r.kept(log_size)).len() == 0,
            r.stats == (PoolStats { allocations: 0, reuses: 0, returns: 0 }),
    {
        BufferPool {
            available: HashMap::new(),
            stats: PoolStats { allocations: 0, reuses: 0, returns: 0 },
        }
    }

    /// Checks out a buffer of at least `size` bytes: the one that was put back last in its
    /// bucket, or a new one where the bucket is empty.
    pub fn checkout<N: FnOnce(u64) -> B>(&mut self, size: u64, new_buffer: N) -> (r: PooledBuffer<
        B,
    >)
        requires
            old(self).wf(),
            size <= pow2(63),
            old(self).stats.allocations < u64::MAX,
            old(self).stats.reuses < u64::MAX,
            forall|log_size: u32|
                log_size < 64 && #[trigger] is_bucket_log(size as int, log_size as int) && old(
                    self,
                ).kept(log_size).len() == 0 ==> call_requires(
                    new_buffer,
                    (pow2(log_size as nat) as u64,),
                ),
        ensures
            final(self).wf(),
            is_bucket_log(size as int, r.bucket.log_size as int),
            r.bucket.log_size < 64,
            final(self).same_but(*old(self), r.bucket.log_size),
            ({
                let log_size = r.bucket.log_size;
                let before = old(self).kept(log_size);
                if before.len() > 0 {
                    &&& r.buffer == before.last()
                    &&& final(self).kept(log_size) == before.drop_last()
                    &&& final(self).stats == (PoolStats {
                        reuses: (old(self).stats.reuses + 1) as u64,
                        ..old(self).stats
                    })
                } else {
                    &&& call_ensures(new_buffer, (pow2(log_size as nat) as u64,), r.buffer)
                    &&& final(self).kept(log_size) == before
                    &&& final(self).stats == (PoolStats {
                        allocations: (old(self).stats.allocations + 1) as u64,
                        ..old(self).stats
                    })
                }
            }),
    {
        let bucket = SizeBucket::for_size(size);
        let actual_size: u64 = bucket.size();
        let mut buffers: Vec<B> = match self.available.remove(&bucket.log_size) {
            Some(buffers) => buffers,
            None => Vec::new(),
        };
        assert(buffers@ == old(self).kept(bucket.log_size));
        let reused = buffers.pop();
        self.available.insert(bucket.log_size, buffers);
        proof {
            assert forall|k: u32| k != bucket.log_size implies #[trigger] self.kept(k) == old(
                self,
            ).kept(k) by {}
            assert forall|k: u32| (#[trigger] self.kept(k)).len() <= MAX_PER_BUCKET by {
                assert(old(self).kept(k).len() <= MAX_PER_BUCKET);
            }
        }
        let buffer: B = match reused {
            Some(buffer) => {
                self.stats.reuses = self.stats.reuses + 1;
                buffer
            },
            None => {
                self.stats.allocations = self.stats.allocations + 1;
                new_buffer(actual_size)
            },
        };
        proof {
            assert forall|k: u32| (#[trigger] self.kept(k)).len() <= MAX_PER_BUCKET by {
                assert(old(self).kept(k).len() <= MAX_PER_BUCKET);
            }
        }
        PooledBuffer { buffer, bucket }
    }

    /// Puts a buffer back, unless its bucket is full.
    pub fn return_buffer(&mut self, bucket: SizeBucket, buffer: B)
        requires
            old(self).wf(),
            old(self).stats.returns < u64::MAX,
        ensures
            final(self).wf(),
            final(self).same_but(*old(self), bucket.log_size),
            ({
                let before = old(self).kept(bucket.log_size);
                &&& final(self).kept(bucket.log_size) == kept_after_return(before, buffer)
                &&& final(self).stats == if before.len() < MAX_PER_BUCKET {
                    PoolStats {
                        returns: (old(self).stats.returns + 1) as u64,
                        ..old(self).stats
                    }
                } else {
                    old(self).stats
                }
            }),
    {
        let mut buffers: Vec<B> = match self.available.remove(&bucket.log_size) {
            Some(buffers) => buffers,
            None => Vec::new(),
        };
        assert(buffers@ == old(self).kept(bucket.log_size));
        if buffers.len() < MAX_PER_BUCKET {
            buffers.push(buffer);
            self.stats.returns = self.stats.returns + 1;
        }
        self.available.insert(bucket.log_size, buffers);
        proof {
            assert forall|k: u32| k != bucket.log_size implies #[trigger] self.kept(k) == old(
                self,
            ).kept(k) by {}
            assert forall|k: u32| (#[trigger] self.kept(k)).len() <= MAX_PER_BUCKET by {
                assert(old(self).kept(k).len() <= MAX_PER_BUCKET);
            }
        }
    }

    /// Drops all buffers of the pool.
    pub fn clear(&mut self)
        ensures
            final(self).wf(),
            forall|log_size: u32| (#[trigger] final(self).kept(log_size)).len() == 0,
            final(self).stats == old(self).stats,
    {
        self.available.clear();
    }

    /// The numbers of allocations, reuses and returns.
    pub fn stats(&self) -> (r: (u64, u64, u64))
        ensures
            r == (self.stats.allocations, self.stats.reuses, self.stats.returns),
    {
        (self.stats.allocations, self.stats.reuses, self.stats.returns)
    }
}

impl<B> PooledBuffer<B> {
    /// The underlying buffer.
    pub fn buffer(&self) -> (r: &B)
        ensures
            *r == self.buffer,
    {
        &self.buffer
    }

    /// The size of the buffer, which may be larger than requested.
    pub fn size(&self) -> (r: u64)
        requires
            self.bucket.log_size < 64,
        ensures
            r == pow2(self.bucket.log_size as nat),
    {
        self.bucket.size()
    }
}

/// Pools for the two kinds of memory.
#[verifier::reject_recursive_types(B)]
pub struct GlobalPools<B> {
    /// Buffers that both processors see.
    pub shared: BufferPool<B>,
    /// Buffers that the device alone sees.
    pub private: BufferPool<B>,
}

impl<B> GlobalPools<B> {
    /// Two empty pools.
    pub fn new() -> (r: GlobalPools<B>)
        ensures
            r.shared.wf(),
            r.private.wf(),
            forall|log_size: u32| (#[trigger] r.shared.kept(log_size)).len() == 0,
            forall|log_size: u32| (#[trigger] r.private.kept(log_size)).len() == 0,
            r.shared.stats == (PoolStats { allocations: 0, reuses: 0, returns: 0 }),
            r.private.stats == (PoolStats { allocations: 0, reuses: 0, returns: 0 }),
    {
        GlobalPools { shared: BufferPool::new(), private: BufferPool::new() }
    }
}

/// A bucket's buffers hold the requested size, and waste less than half of theirs.
pub proof fn law_bucket_fits(size: int, log_size: int)
    requires
        size >= 1,
        is_bucket_log(size, log_size),
    ensures
        size <= pow2(log_size as nat) < 2 * size,
{
    lemma2_to64();
    if log_size > 0 {
        lemma_pow2_unfold(log_size as nat);
    }
}

/// A buffer that was put back where there was room is the next to be checked out of its
/// bucket, and the buffers before it are untouched.
pub proof fn law_returned_buffer_is_next<B>(before: Seq<B>, buffer: B)
    requires
        before.len() < MAX_PER_BUCKET,
    ensures
        kept_after_return(before, buffer).last() == buffer,
        kept_after_return(before, buffer).drop_last() == before,
{
    assert(kept_after_return(before, buffer).drop_last() =~= before);
}

/// A size has one bucket.
pub proof fn law_bucket_is_unique(size: int, a: int, b: int)
    requires
        is_bucket_log(size, a),
        is_bucket_log(size, b),
    ensures
        a == b,
{
    if a < b {
        if a < b - 1 {
            lemma_pow2_strictly_increases(a as nat, (b - 1) as nat);
        }
    } else if b < a {
        if b < a - 1 {
            lemma_pow2_strictly_increases(b as nat, (a - 1) as nat);
        }
    }
}

/// A full bucket keeps the buffers that it has, and no bucket gets more than its bound.
pub proof fn law_full_bucket_keeps_its_buffers<B>(before: Seq<B>, buffer: B)
    requires
        before.len() <= MAX_PER_BUCKET,
    ensures
        kept_after_return(before, buffer).len() <= MAX_PER_BUCKET,
        before.len() == MAX_PER_BUCKET ==> kept_after_return(before, buffer) == before,
        before.len() < MAX_PER_BUCKET ==> kept_after_return(before, buffer).len() == before.len()
            + 1,
{
}

/// A request for nothing gets the smallest bucket.
pub proof fn law_smallest_bucket(log_size: int)
    requires
        is_bucket_log(0, log_size),
    ensures
        log_size == 0,
{
    if log_size > 0 {
        lemma_pow2_pos((log_size - 1) as nat);
    }
}

} // verus!
