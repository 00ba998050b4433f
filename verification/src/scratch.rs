//! Pools of recycled buffers.

use vstd::prelude::*;
use crate::cov_cache::CovCache;
use crate::dirty;

verus! {

/// Bound on pooled buffers of each kind.
pub const SCRATCH_POOL_CAP: usize = 4;

/// Buffers and caches that outlive a frame.
pub struct RenderScratch {
    /// Pixel planes.
    pub bufs_u32: Vec<Vec<u32>>,
    /// Byte planes.
    pub bufs_u8: Vec<Vec<u8>>,
    /// Cached coverage and source planes.
    pub cov_cache: CovCache,
}

impl RenderScratch {
    /// The pools stay within their bound, and the cache keeps its invariant.
    pub open spec fn wf(self) -> bool {
        &&& self.bufs_u32@.len() <= SCRATCH_POOL_CAP
        &&& self.bufs_u8@.len() <= SCRATCH_POOL_CAP
        &&& self.cov_cache.wf()
    }

    /// Empty pools and an empty cache.
    pub fn new() -> (s: RenderScratch)
        ensures
            s.wf(),
            s.bufs_u32@.len() == 0,
            s.bufs_u8@.len() == 0,
            s.cov_cache.resident() == Map::<u128, crate::plane::EntryView>::empty(),
            !s.cov_cache.frozen,
    {
        RenderScratch { bufs_u32: Vec::new(), bufs_u8: Vec::new(), cov_cache: CovCache::with_budget(0) }
    }

    /// A clear plane of `n` pixels.
    pub fn take_u32(&mut self, n: usize) -> (b: Vec<u32>)
        requires
            old(self).wf(),
        ensures
            final(self).wf(),
            b@ == dirty::constant(n as nat, 0u32),
            final(self).cov_cache == old(self).cov_cache,
            final(self).bufs_u8@ == old(self).bufs_u8@,
            final(self).bufs_u32@ == pool_after_take(old(self).bufs_u32@),
    {
        let mut b: Vec<u32> = match self.bufs_u32.pop() {
            Some(b) => b,
            None => Vec::new(),
        };
        b.clear();
        b.resize(n, 0);
        assert(b@ =~= dirty::constant(n as nat, 0u32));
        b
    }

    /// Gives a pixel plane back; a full pool lets it go.
    pub fn put_u32(&mut self, b: Vec<u32>)
        requires
            old(self).wf(),
        ensures
            final(self).wf(),
            final(self).cov_cache == old(self).cov_cache,
            final(self).bufs_u8@ == old(self).bufs_u8@,
            final(self).bufs_u32@ == pool_after_put(old(self).bufs_u32@, b),
    {
        if self.bufs_u32.len() < SCRATCH_POOL_CAP {
            self.bufs_u32.push(b);
        }
    }

    /// A byte plane of `n` bytes. A pooled plane of that length comes as it was left; any other is
    /// clear.
    pub fn take_u8_uninit(&mut self, n: usize) -> (b: Vec<u8>)
        requires
            old(self).wf(),
        ensures
            final(self).wf(),
            b@.len() == n,
            ({
                let pool = old(self).bufs_u8@;
                b@ == if pool.len() > 0 && pool.last()@.len() == n {
                    pool.last()@
                } else {
                    dirty::constant(n as nat, 0u8)
                }
            }),
            final(self).cov_cache == old(self).cov_cache,
            final(self).bufs_u32@ == old(self).bufs_u32@,
            final(self).bufs_u8@ == pool_after_take(old(self).bufs_u8@),
    {
        let mut b: Vec<u8> = match self.bufs_u8.pop() {
            Some(b) => b,
            None => Vec::new(),
        };
        if b.len() != n {
            b.clear();
            b.resize(n, 0);
            assert(b@ =~= dirty::constant(n as nat, 0u8));
        } else if n == 0 {
            assert(b@ =~= dirty::constant(n as nat, 0u8));
        }
        b
    }

    /// A byte plane of `n` bytes that all are `v`.
    pub fn take_u8(&mut self, n: usize, v: u8) -> (b: Vec<u8>)
        requires
            old(self).wf(),
        ensures
            final(self).wf(),
            b@ == dirty::constant(n as nat, v),
            final(self).cov_cache == old(self).cov_cache,
            final(self).bufs_u32@ == old(self).bufs_u32@,
            final(self).bufs_u8@ == pool_after_take(old(self).bufs_u8@),
    {
        let mut b: Vec<u8> = match self.bufs_u8.pop() {
            Some(b) => b,
            None => Vec::new(),
        };
        b.clear();
        b.resize(n, v);
        assert(b@ =~= dirty::constant(n as nat, v));
        b
    }

    /// Gives a byte plane back; a full pool lets it go.
    pub fn put_u8(&mut self, b: Vec<u8>)
        requires
            old(self).wf(),
        ensures
            final(self).wf(),
            final(self).cov_cache == old(self).cov_cache,
            final(self).bufs_u32@ == old(self).bufs_u32@,
            final(self).bufs_u8@ == pool_after_put(old(self).bufs_u8@, b),
    {
        if self.bufs_u8.len() < SCRATCH_POOL_CAP {
            self.bufs_u8.push(b);
        }
    }
}

/// A pool without its last buffer.
pub open spec fn pool_after_take<T>(pool: Seq<Vec<T>>) -> Seq<Vec<T>> {
    if pool.len() == 0 {
        pool
    } else {
        pool.drop_last()
    }
}

/// A pool with one more buffer, up to its bound.
pub open spec fn pool_after_put<T>(pool: Seq<Vec<T>>, b: Vec<T>) -> Seq<Vec<T>> {
    if pool.len() < SCRATCH_POOL_CAP {
        pool.push(b)
    } else {
        pool
    }
}

/// A pool keeps up to four buffers and hands out the one that came last.
pub proof fn law_pools_hand_out_what_came_last<T>(pool: Seq<Vec<T>>, b: Vec<T>)
    ensures
        pool.len() < 4 ==> pool_after_put(pool, b).last() == b && pool_after_take(
            pool_after_put(pool, b),
        ) == pool,
        pool.len() >= 4 ==> pool_after_put(pool, b) == pool,
        pool_after_take(Seq::<Vec<T>>::empty()).len() == 0,
        pool.len() > 0 ==> pool_after_take(pool).len() == pool.len() - 1,
{
    if pool.len() < 4 {
        assert(pool.push(b).drop_last() =~= pool);
    }
}

} // verus!
