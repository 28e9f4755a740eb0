use vstd::prelude::*;

verus! {

/// A counting permit pool: `permits` of at most `max` are free.
pub struct ChunkSemaphore {
    permits: usize,
    max: usize,
}

impl ChunkSemaphore {
    /// Free permits.
    pub closed spec fn free(&self) -> nat {
        self.permits as nat
    }

    /// Size of the pool.
    pub closed spec fn capacity(&self) -> nat {
        self.max as nat
    }

    /// Never more permits free than the pool holds.
    pub open spec fn wf(&self) -> bool {
        self.free() <= self.capacity()
    }

    /// A pool of `max` permits, all free.
    pub fn new(max: usize) -> (r: ChunkSemaphore)
        ensures
            r.wf(),
            r.free() == max,
            r.capacity() == max,
    {
        ChunkSemaphore { permits: max, max }
    }

    /// Takes a permit if one is free; returns whether it did.
    pub fn try_acquire(&mut self) -> (r: bool)
        requires
            old(self).wf(),
        ensures
            final(self).wf(),
            final(self).capacity() == old(self).capacity(),
            r == (old(self).free() > 0),
            r ==> final(self).free() == old(self).free() - 1,
            !r ==> final(self).free() == old(self).free(),
    {
        if self.permits > 0 {
            self.permits = self.permits - 1;
            true
        } else {
            false
        }
    }

    /// Gives a permit back; the free count never exceeds the pool's size.
    pub fn release(&mut self)
        requires
            old(self).wf(),
        ensures
            final(self).wf(),
            final(self).capacity() == old(self).capacity(),
            final(self).free() == if old(self).free() < old(self).capacity() {
                old(self).free() + 1
            } else {
                old(self).capacity()
            },
    {
        if self.permits < self.max {
            self.permits = self.permits + 1;
        } else {
            self.permits = self.max;
        }
    }
}

} // verus!
