//! The physical frame allocator: a bump counter over the never-yet-used
//! part of the pool plus a LIFO free list of released frames.

use crate::MmError;
use crate::address::PPN_LIMIT;
use vstd::prelude::*;

verus! {

/// Manages the pool of free physical page frames `[base, end)`.
///
/// `current` is the next never-yet-allocated frame; `recycled` holds
/// released frames, reused most-recently-pushed first.
pub struct FrameAllocator {
    pub base: usize,
    pub current: usize,
    pub end: usize,
    pub recycled: Vec<usize>,
}

impl FrameAllocator {
    /// Internal consistency: the bump counter stays inside the pool and the
    /// free list holds distinct frames already handed out at least once.
    pub open spec fn wf(self) -> bool {
        &&& self.base <= self.current <= self.end <= PPN_LIMIT
        &&& self.recycled@.no_duplicates()
        &&& forall|i: int|
            0 <= i < self.recycled@.len() ==> self.base <= #[trigger] self.recycled@[i]
                < self.current
    }

    /// A frame is allocated when it has been handed out and not released.
    pub open spec fn allocated(self, p: usize) -> bool {
        self.base <= p < self.current && !self.recycled@.contains(p)
    }

    /// How many frames the pool can still hand out.
    pub open spec fn free_count(self) -> int {
        self.end - self.current + self.recycled@.len()
    }

    pub open spec fn spec_base(self) -> int {
        self.base as int
    }

    pub open spec fn spec_end(self) -> int {
        self.end as int
    }

    /// A fresh pool over the physical frames `[base, end)`, none allocated.
    pub fn new(base: usize, end: usize) -> (fa: FrameAllocator)
        requires
            base <= end <= PPN_LIMIT,
        ensures
            fa.wf(),
            fa.spec_base() == base,
            fa.spec_end() == end,
            fa.current == base,
            fa.recycled@ == Seq::<usize>::empty(),
            fa.free_count() == end - base,
            forall|p: usize| !fa.allocated(p),
    {
        FrameAllocator { base, current: base, end, recycled: Vec::new() }
    }

    /// How many never-yet-used frames remain: a conservative lower bound
    /// on the free count that ignores the recycled list.
    pub open spec fn untouched_count(self) -> int {
        self.end - self.current
    }

    pub fn untouched_frames(&self) -> (n: usize)
        requires
            self.wf(),
        ensures
            n == self.untouched_count(),
            n <= self.free_count(),
    {
        self.end - self.current
    }

    /// The exact number of free frames: the untouched span plus the
    /// recycled list.
    pub fn free_frames(&self) -> (n: u128)
        requires
            self.wf(),
        ensures
            n == self.free_count(),
    {
        (self.end - self.current) as u128 + self.recycled.len() as u128
    }

    /// Whether the free list currently holds `p`.
    fn recycled_contains(&self, p: usize) -> (b: bool)
        ensures
            b == self.recycled@.contains(p),
    {
        let mut i: usize = 0;
        while i < self.recycled.len()
            invariant
                i <= self.recycled@.len(),
                forall|j: int| 0 <= j < i ==> self.recycled@[j] != p,
            decreases self.recycled@.len() - i,
        {
            if self.recycled[i] == p {
                return true;
            }
            i = i + 1;
        }
        proof {
            if self.recycled@.contains(p) {
                let j = choose|j: int| 0 <= j < self.recycled@.len() && self.recycled@[j] == p;
                assert(self.recycled@[j] != p);
            }
        }
        false
    }

    /// Hand out one free frame: the most recently released one if any
    /// (LIFO reuse), otherwise the next never-yet-used frame. Fails with
    /// `OutOfMemory` exactly when the pool is exhausted.
    pub fn frame_alloc(&mut self) -> (r: Result<usize, MmError>)
        requires
            old(self).wf(),
        ensures
            final (self).wf(),
            final (self).spec_base() == old(self).spec_base(),
            final (self).spec_end() == old(self).spec_end(),
            r is Err <==> old(self).free_count() == 0,
            r is Err ==> r == Err::<usize, MmError>(MmError::OutOfMemory) && final (self).current
                == old(self).current && final (self).recycled@ == old(self).recycled@,
            old(self).current <= final (self).current <= old(self).current + 1,
            r is Ok ==> {
                let p = r->Ok_0;
                &&& old(self).spec_base() <= p < old(self).spec_end()
                &&& !old(self).allocated(p)
                &&& final (self).allocated(p)
                &&& forall|q: usize|
                    q != p ==> final (self).allocated(q) == old(self).allocated(q)
                &&& final (self).free_count() == old(self).free_count() - 1
                &&& (old(self).recycled@.len() > 0 ==> p == old(self).recycled@.last())
                &&& (old(self).recycled@.len() == 0 ==> p == old(self).current)
            },
    {
        if let Some(p) = self.recycled.pop() {
            proof {
                let r0 = old(self).recycled@;
                assert(r0[r0.len() - 1] == p);
                assert(r0.contains(p));
                assert forall|q: usize| q != p implies final (self).allocated(q) == old(
                    self,
                ).allocated(q) by {
                    if r0.contains(q) {
                        let j = choose|j: int| 0 <= j < r0.len() && r0[j] == q;
                        assert(j < r0.len() - 1);
                        assert(self.recycled@[j] == q);
                    } else {
                        assert(!self.recycled@.contains(q)) by {
                            if self.recycled@.contains(q) {
                                let j = choose|j: int|
                                    0 <= j < self.recycled@.len() && self.recycled@[j] == q;
                                assert(r0[j] == q);
                            }
                        }
                    }
                }
                assert(!self.recycled@.contains(p)) by {
                    if self.recycled@.contains(p) {
                        let j = choose|j: int|
                            0 <= j < self.recycled@.len() && self.recycled@[j] == p;
                        assert(r0[j] == p && r0[r0.len() - 1] == p);
                    }
                }
            }
            Ok(p)
        } else if self.current < self.end {
            let p = self.current;
            self.current = self.current + 1;
            Ok(p)
        } else {
            Err(MmError::OutOfMemory)
        }
    }

    /// Return frame `p` to the free list. Fails with `InvalidFrame` exactly
    /// when `p` is not currently allocated (a double free or a frame from
    /// outside the pool), in which case nothing changes.
    pub fn frame_dealloc(&mut self, p: usize) -> (r: Result<(), MmError>)
        requires
            old(self).wf(),
        ensures
            final (self).wf(),
            final (self).spec_base() == old(self).spec_base(),
            final (self).spec_end() == old(self).spec_end(),
            final (self).current == old(self).current,
            r is Ok <==> old(self).allocated(p),
            r is Err ==> r == Err::<(), MmError>(MmError::InvalidFrame) && final (self).current
                == old(self).current && final (self).recycled@ == old(self).recycled@,
            r is Ok ==> {
                &&& !final (self).allocated(p)
                &&& forall|q: usize|
                    q != p ==> final (self).allocated(q) == old(self).allocated(q)
                &&& final (self).free_count() == old(self).free_count() + 1
                &&& final (self).recycled@ == old(self).recycled@.push(p)
            },
    {
        if p < self.base || p >= self.current {
            return Err(MmError::InvalidFrame);
        }
        if self.recycled_contains(p) {
            return Err(MmError::InvalidFrame);
        }
        self.recycled.push(p);
        proof {
            let r1 = self.recycled@;
            let r0 = old(self).recycled@;
            assert(r1 == r0.push(p));
            assert forall|q: usize| q != p implies final (self).allocated(q) == old(
                self,
            ).allocated(q) by {
                if r0.contains(q) {
                    let j = choose|j: int| 0 <= j < r0.len() && r0[j] == q;
                    assert(r1[j] == q);
                } else if r1.contains(q) {
                    let j = choose|j: int| 0 <= j < r1.len() && r1[j] == q;
                    assert(j == r1.len() - 1 || r0[j] == q);
                }
            }
            assert(r1[r1.len() - 1] == p);
            assert(r1.contains(p));
        }
        Ok(())
    }
}

} // verus!
