//! Address spaces: an owning page table plus a list of non-overlapping
//! mapped regions, with `mmap`/`munmap` over page-aligned ranges.

use crate::MmError;
use crate::address::{PAGE_SIZE, PPN_LIMIT, VPN_LIMIT};
use crate::frame_allocator::FrameAllocator;
use crate::page_table::{translate_spec, PageTable, PageTableEntry, PhysMem, SATP_MODE_SV39};
use vstd::prelude::*;

verus! {

/// Region is readable.
pub const MAP_PERM_R: u8 = 2;

/// Region is writable.
pub const MAP_PERM_W: u8 = 4;

/// Region is executable.
pub const MAP_PERM_X: u8 = 8;

/// Region is user-accessible.
pub const MAP_PERM_U: u8 = 16;

/// How a region's virtual pages find their physical frames.
#[derive(Clone, Copy, PartialEq, Eq, Structural)]
pub enum MapType {
    /// Each virtual page maps to the physical page of equal number
    /// (kernel code and data).
    Identity,
    /// Each virtual page is backed by an allocator-supplied frame owned by
    /// the region.
    Framed,
}

/// A contiguous page-aligned range of virtual pages with uniform
/// permissions; a framed region owns one frame per page, in page order.
pub struct MapArea {
    pub start: usize,
    pub end: usize,
    pub map_type: MapType,
    pub perm: u8,
    pub frames: Vec<usize>,
}

impl MapArea {
    pub open spec fn contains_vpn(self, v: int) -> bool {
        self.start <= v < self.end
    }

    pub open spec fn num_pages(self) -> int {
        self.end - self.start
    }

    /// The physical page backing virtual page `v` of this region.
    pub open spec fn page_ppn(self, v: int) -> int {
        match self.map_type {
            MapType::Identity => v,
            MapType::Framed => self.frames@[v - self.start] as int,
        }
    }

    pub open spec fn wf_basic(self) -> bool {
        &&& self.start <= self.end <= VPN_LIMIT
        &&& self.perm % 2 == 0
        &&& self.perm < 32
        &&& (match self.map_type {
            MapType::Framed => self.frames@.len() == self.num_pages(),
            MapType::Identity => self.frames@.len() == 0,
        })
    }

    pub open spec fn overlaps(self, other: MapArea) -> bool {
        exists|v: int| self.contains_vpn(v) && other.contains_vpn(v)
    }
}

/// An address space: regions realized against one owning page table.
pub struct MemorySet {
    pub page_table: PageTable,
    pub areas: Vec<MapArea>,
}

impl MemorySet {
    pub open spec fn root(self) -> int {
        self.page_table.root_ppn as int
    }

    /// What this space's table maps `v` to.
    pub open spec fn spec_translate(self, mem: PhysMem, v: int) -> Option<PageTableEntry> {
        translate_spec(mem, self.root(), v)
    }

    /// The region descriptors: start page, end page, permissions. Two calls
    /// that leave this sequence unchanged leave the space's region set
    /// unchanged.
    pub open spec fn regions(self) -> Seq<(usize, usize, u8)> {
        self.areas@.map_values(|a: MapArea| (a.start, a.end, a.perm))
    }

    /// Frame `x` belongs to this space: a page-table node or a region's
    /// backing frame.
    pub open spec fn owned_frame(self, x: int) -> bool {
        self.page_table.nodes().contains(x) || (exists|i: int, k: int|
            0 <= i < self.areas@.len() && 0 <= k < self.areas@[i].frames@.len() && (
            #[trigger] self.areas@[i].frames@[k]) as int == x)
    }

    /// `v` lies in some region.
    pub open spec fn covered(self, v: int) -> bool {
        exists|i: int| 0 <= i < self.areas@.len() && (#[trigger] self.areas@[i]).contains_vpn(v)
    }

    /// Every page of region `a` translates to its backing frame with the
    /// region's permissions plus the valid bit.
    pub open spec fn area_mapped(self, mem: PhysMem, a: MapArea) -> bool {
        forall|v: int| #![trigger translate_spec(mem, self.root(), v)]
            a.contains_vpn(v) ==> {
                let o = translate_spec(mem, self.root(), v);
                &&& o is Some
                &&& o->0.spec_ppn() == a.page_ppn(v)
                &&& o->0.spec_flags() == a.perm + 1
            }
    }

    /// The address-space invariant: a well-formed owning table whose
    /// mappings realize exactly the regions; regions do not overlap; framed
    /// regions own distinct allocated data frames disjoint from the table's
    /// node frames; identity regions sit below the frame pool; and every
    /// frame below the pool stays a plain data page.
    pub open spec fn inv(self, mem: PhysMem, fa: FrameAllocator) -> bool {
        &&& self.page_table.wf(mem)
        &&& self.page_table.owned
        &&& fa.wf()
        &&& self.page_table.nodes_allocated(fa)
        &&& fa.spec_end() <= mem.spec_len()
        &&& (forall|i: int|
            0 <= i < self.areas@.len() ==> (#[trigger] self.areas@[i]).wf_basic())
        &&& (forall|i: int|
            0 <= i < self.areas@.len() ==> self.area_mapped(mem, #[trigger] self.areas@[i]))
        &&& (forall|i: int, j: int|
            0 <= i < self.areas@.len() && 0 <= j < self.areas@.len() && i != j ==> !(
            #[trigger] self.areas@[i]).overlaps(#[trigger] self.areas@[j]))
        &&& (forall|v: int|
            0 <= v < VPN_LIMIT && !self.covered(v) ==> self.spec_translate(mem, v) is None)
        &&& (forall|i: int, k: int|
            0 <= i < self.areas@.len() && 0 <= k < (#[trigger] self.areas@[i]).frames@.len() ==> {
                let p = #[trigger] self.areas@[i].frames@[k];
                &&& fa.allocated(p)
                &&& !self.page_table.nodes().contains(p as int)
                &&& mem.is_data(p as int)
            })
        &&& (forall|i: int, k1: int, k2: int|
            0 <= i < self.areas@.len() && 0 <= k1 < self.areas@[i].frames@.len() && 0 <= k2
                < self.areas@[i].frames@.len() && k1 != k2 ==> #[trigger] self.areas@[i].frames@[k1]
                != #[trigger] self.areas@[i].frames@[k2])
        &&& (forall|i: int, j: int, k1: int, k2: int|
            0 <= i < self.areas@.len() && 0 <= j < self.areas@.len() && i != j && 0 <= k1
                < self.areas@[i].frames@.len() && 0 <= k2 < self.areas@[j].frames@.len()
                ==> #[trigger] self.areas@[i].frames@[k1] != #[trigger] self.areas@[j].frames@[k2])
        &&& (forall|i: int|
            0 <= i < self.areas@.len() && (#[trigger] self.areas@[i]).map_type is Identity
                ==> self.areas@[i].end <= fa.spec_base())
        &&& (forall|p: int| 0 <= p < fa.spec_base() ==> mem.is_data(p))
    }

    /// A fresh address space with no regions and an empty table.
    pub fn new_bare(mem: &mut PhysMem, fa: &mut FrameAllocator) -> (r: Result<MemorySet, MmError>)
        requires
            old(mem).wf(),
            old(fa).wf(),
            old(fa).spec_end() <= old(mem).spec_len(),
            forall|p: int| 0 <= p < old(fa).spec_base() ==> old(mem).is_data(p),
        ensures
            final (mem).wf(),
            final (fa).wf(),
            final (fa).spec_base() == old(fa).spec_base(),
            final (fa).spec_end() == old(fa).spec_end(),
            final (mem).spec_len() == old(mem).spec_len(),
            r is Err <==> old(fa).free_count() == 0,
            old(fa).current <= final (fa).current <= old(fa).current + 1,
            r is Err ==> r == Err::<MemorySet, MmError>(MmError::OutOfMemory) && final (mem).pages@
                == old(mem).pages@ && final (fa).current == old(fa).current && final (fa).recycled@
                == old(fa).recycled@,
            r is Ok ==> {
                let ms = r->Ok_0;
                &&& ms.inv(*final (mem), *final (fa))
                &&& ms.areas@.len() == 0
                &&& ms.page_table.l1s@ == Set::<int>::empty()
                &&& ms.page_table.l2s@ == Set::<int>::empty()
                &&& !old(fa).allocated(ms.page_table.root_ppn)
                &&& final (fa).free_count() == old(fa).free_count() - 1
                &&& (forall|v: int| ms.spec_translate(*final (mem), v) is None)
                &&& (forall|q: usize|
                    old(fa).allocated(q) ==> final (fa).allocated(q) && final (mem).pages@[q as int]
                        == old(mem).pages@[q as int])
                &&& (forall|p: int|
                    0 <= p < old(fa).spec_base() ==> final (mem).pages@[p] == old(mem).pages@[p])
            },
    {
        let pt = match PageTable::new(mem, fa) {
            Ok(pt) => pt,
            Err(e) => {
                return Err(e);
            },
        };
        let ms = MemorySet { page_table: pt, areas: Vec::new() };
        proof {
            assert forall|p: int| 0 <= p < fa.spec_base() implies mem.is_data(p) by {
                assert(p != ms.page_table.root_ppn as int);
                assert(mem.pages@[p] == old(mem).pages@[p]);
                assert(old(mem).is_data(p));
            }
            assert forall|q: usize| old(fa).allocated(q) implies fa.allocated(q)
                && mem.pages@[q as int] == old(mem).pages@[q as int] by {
                assert(q != ms.page_table.root_ppn);
            }
            assert(ms.inv(*mem, *fa));
            assert forall|p: int| 0 <= p < old(fa).spec_base() implies mem.pages@[p] == old(
                mem,
            ).pages@[p] by {
                assert(p != ms.page_table.root_ppn as int);
            }
        }
        Ok(ms)
    }

    /// The activation token for this space.
    pub fn token(&self, mem: &PhysMem) -> (t: u64)
        requires
            self.page_table.wf(*mem),
        ensures
            t == SATP_MODE_SV39 + self.root(),
            crate::page_table::spec_decode_root(t) == self.root(),
    {
        self.page_table.token()
    }

    /// Read-only lookup in this space's table.
    pub fn translate(&self, mem: &PhysMem, vpn: usize) -> (r: Option<PageTableEntry>)
        requires
            mem.wf(),
            self.page_table.wf(*mem),
        ensures
            r == self.spec_translate(*mem, vpn as int),
    {
        proof {
            assert(crate::page_table::pt_wf_ex(*mem, self.root()));
        }
        self.page_table.translate(mem, vpn)
    }

    /// Whether `[start, end)` overlaps some existing region.
    fn overlaps_existing(&self, start: usize, end: usize) -> (b: bool)
        ensures
            b == exists|i: int|
                0 <= i < self.areas@.len() && start < self.areas@[i].end && (
                #[trigger] self.areas@[i]).start < end && start < end,
    {
        if start >= end {
            return false;
        }
        let mut i: usize = 0;
        while i < self.areas.len()
            invariant
                i <= self.areas@.len(),
                start < end,
                forall|j: int|
                    0 <= j < i ==> !(start < self.areas@[j].end && (
                    #[trigger] self.areas@[j]).start < end),
            decreases self.areas@.len() - i,
        {
            let a = &self.areas[i];
            if start < a.end && a.start < end {
                return true;
            }
            i = i + 1;
        }
        false
    }
}

impl MemorySet {
    /// Create an anonymous framed region over `[start, end)`: allocate one
    /// zeroed frame per page in ascending order and map each with `perm`
    /// plus the valid bit. Rejects a range overlapping any existing region
    /// with `Overlap`; reserves three frames per page (page plus worst-case
    /// intermediate nodes) and fails with `OutOfMemory`, changing nothing,
    /// when the pool's untouched span cannot cover that.
    #[verifier::rlimit(100)]
    #[verifier::spinoff_prover]
    pub fn push_framed(
        &mut self,
        mem: &mut PhysMem,
        fa: &mut FrameAllocator,
        start: usize,
        end: usize,
        perm: u8,
    ) -> (r: Result<(), MmError>)
        requires
            old(self).inv(*old(mem), *old(fa)),
            start <= end <= VPN_LIMIT,
            perm % 2 == 0,
            perm < 32,
        ensures
            final (fa).spec_base() == old(fa).spec_base(),
            final (fa).spec_end() == old(fa).spec_end(),
            final (mem).spec_len() == old(mem).spec_len(),
            final (self).root() == old(self).root(),
            r == Err::<(), MmError>(MmError::Overlap) <==> (exists|i: int|
                0 <= i < old(self).areas@.len() && start < old(self).areas@[i].end && (
                #[trigger] old(self).areas@[i]).start < end && start < end),
            r == Err::<(), MmError>(MmError::OutOfMemory) <==> (!(exists|i: int|
                0 <= i < old(self).areas@.len() && start < old(self).areas@[i].end && (
                #[trigger] old(self).areas@[i]).start < end && start < end) && old(
                fa,
            ).free_count() < 3 * (end - start)),
            final (fa).untouched_count() >= old(fa).untouched_count() - 3 * (end - start),
            r is Err ==> (r == Err::<(), MmError>(MmError::Overlap) || r == Err::<(), MmError>(
                MmError::OutOfMemory,
            )) && final (mem).pages@ == old(mem).pages@ && final (fa).current == old(
                fa,
            ).current && final (fa).recycled@ == old(fa).recycled@ && final (self).areas@ == old(
                self,
            ).areas@ && final (self).page_table == old(self).page_table && final (self).inv(
                *final (mem),
                *final (fa),
            ),
            r is Ok ==> {
                &&& final (self).inv(*final (mem), *final (fa))
                &&& final (self).regions() =~= old(self).regions().push((start, end, perm))
                &&& final (self).areas@.len() == old(self).areas@.len() + 1
                &&& (forall|i: int|
                    0 <= i < old(self).areas@.len() ==> final (self).areas@[i] == old(
                        self,
                    ).areas@[i])
                &&& final (self).areas@.last().start == start
                &&& final (self).areas@.last().end == end
                &&& final (self).areas@.last().perm == perm
                &&& final (self).areas@.last().map_type is Framed
                &&& final (self).areas@.last().frames@.len() == end - start
                &&& (forall|k: int|
                    0 <= k < end - start ==> !old(fa).allocated(
                        #[trigger] final (self).areas@.last().frames@[k],
                    ) && old(fa).spec_base() <= final (self).areas@.last().frames@[k] < old(
                        fa,
                    ).spec_end())
                &&& (forall|q: usize| old(fa).allocated(q) ==> final (fa).allocated(q))
                &&& (forall|q: int| #![trigger final(mem).pages@[q]]
                    0 <= q < old(mem).spec_len() && final (mem).pages@[q] != old(mem).pages@[q]
                        ==> old(self).page_table.nodes().contains(q) || (!old(fa).allocated(
                        q as usize,
                    ) && old(fa).spec_base() <= q < old(fa).spec_end()))
                &&& (forall|x: int| #![trigger final(self).page_table.nodes().contains(x)]
                    final (self).page_table.nodes().contains(x) ==> old(
                        self,
                    ).page_table.nodes().contains(x) || (!old(fa).allocated(x as usize) && old(
                        fa,
                    ).spec_base() <= x < old(fa).spec_end()))
            },
    {
        if self.overlaps_existing(start, end) {
            return Err(MmError::Overlap);
        }
        let npages = end - start;
        if fa.free_frames() < 3 * npages as u128 {
            return Err(MmError::OutOfMemory);
        }
        proof {
            assert forall|v: int| start <= v < end implies !old(self).covered(v) by {
                if old(self).covered(v) {
                    let i = choose|i: int|
                        0 <= i < old(self).areas@.len() && (#[trigger] old(
                            self,
                        ).areas@[i]).contains_vpn(v);
                    assert(start < old(self).areas@[i].end && old(self).areas@[i].start < end
                        && start < end);
                }
            }
        }
        let mut frames: Vec<usize> = Vec::new();
        let mut v = start;
        while v < end
            invariant
                start <= v <= end,
                end <= VPN_LIMIT,
                perm % 2 == 0,
                perm < 32,
                frames@.len() == v - start,
                self.areas@ == old(self).areas@,
                self.page_table.owned,
                self.page_table.root_ppn == old(self).page_table.root_ppn,
                self.page_table.wf(*mem),
                self.page_table.nodes_allocated(*fa),
                fa.wf(),
                fa.spec_base() == old(fa).spec_base(),
                fa.spec_end() == old(fa).spec_end(),
                fa.spec_end() <= mem.spec_len(),
                mem.spec_len() == old(mem).spec_len(),
                fa.untouched_count() >= old(fa).untouched_count() - 3 * (v - start),
                fa.free_count() >= 3 * (end - v),
                forall|v2: int| start <= v2 < end ==> !old(self).covered(v2),
                forall|i: int|
                    0 <= i < self.areas@.len() ==> (#[trigger] self.areas@[i]).wf_basic(),
                forall|i: int|
                    0 <= i < self.areas@.len() ==> self.area_mapped(*mem, #[trigger] self.areas@[i]),
                forall|w: int|
                    0 <= w < VPN_LIMIT && !old(self).covered(w) && !(start <= w < v)
                        ==> self.spec_translate(*mem, w) is None,
                forall|w: int| #![trigger translate_spec(*mem, self.root(), w)]
                    start <= w < v ==> {
                        let o = translate_spec(*mem, self.root(), w);
                        &&& o is Some
                        &&& o->0.spec_ppn() == frames@[w - start] as int
                        &&& o->0.spec_flags() == perm + 1
                    },
                forall|i: int, k: int|
                    0 <= i < self.areas@.len() && 0 <= k < (
                    #[trigger] self.areas@[i]).frames@.len() ==> {
                        let p = #[trigger] self.areas@[i].frames@[k];
                        &&& fa.allocated(p)
                        &&& !self.page_table.nodes().contains(p as int)
                        &&& mem.is_data(p as int)
                    },
                forall|k: int|
                    0 <= k < frames@.len() ==> {
                        let p = #[trigger] frames@[k];
                        &&& fa.allocated(p)
                        &&& !self.page_table.nodes().contains(p as int)
                        &&& mem.is_data(p as int)
                        &&& !old(fa).allocated(p)
                        &&& old(fa).spec_base() <= p < old(fa).spec_end()
                    },
                forall|k1: int, k2: int|
                    0 <= k1 < frames@.len() && 0 <= k2 < frames@.len() && k1 != k2
                        ==> #[trigger] frames@[k1] != #[trigger] frames@[k2],
                forall|i: int, k1: int, k2: int|
                    0 <= i < self.areas@.len() && 0 <= k1 < self.areas@[i].frames@.len() && 0 <= k2
                        < frames@.len() ==> #[trigger] self.areas@[i].frames@[k1]
                        != #[trigger] frames@[k2],
                forall|q: usize| old(fa).allocated(q) ==> fa.allocated(q),
                forall|q: int| #![trigger mem.pages@[q]]
                    0 <= q < old(mem).spec_len() && mem.pages@[q] != old(mem).pages@[q] ==> old(
                        self,
                    ).page_table.nodes().contains(q) || (!old(fa).allocated(q as usize) && old(
                        fa,
                    ).spec_base() <= q < old(fa).spec_end()),
                forall|x: int| #![trigger self.page_table.nodes().contains(x)]
                    self.page_table.nodes().contains(x) ==> old(self).page_table.nodes().contains(
                        x,
                    ) || (!old(fa).allocated(x as usize) && old(fa).spec_base() <= x < old(
                        fa,
                    ).spec_end()),
                forall|p: int| 0 <= p < fa.spec_base() ==> mem.is_data(p),
            decreases end - v,
        {
            let ghost fa_it = *fa;
            let ghost mem_it = *mem;
            let ghost pt_it = self.page_table;
            let p = match fa.frame_alloc() {
                Ok(p) => p,
                Err(_) => {
                    proof {
                        assert(fa_it.free_count() >= 3 * (end - v) >= 3);
                        assert(false);
                    }
                    return Err(MmError::OutOfMemory);
                },
            };
            proof {
                assert(!self.page_table.nodes().contains(p as int)) by {
                    if self.page_table.nodes().contains(p as int) {
                        assert(self.page_table.frames@.contains(p));
                        assert(fa_it.allocated(p));
                    }
                }
            }
            mem.make_data(p);
            proof {
                crate::page_table::lemma_translate_frames_only(
                    mem_it,
                    *mem,
                    self.root(),
                    self.page_table.l1s@,
                    self.page_table.l2s@,
                );
            }
            let ghost mem_d = *mem;
            let ghost fa_d = *fa;
            let res = self.page_table.map(mem, fa, v, p, perm);
            proof {
                assert(!old(self).covered(v as int));
                assert(res is Ok) by {
                    assert(translate_spec(mem_d, self.root(), v as int) is None);
                    assert(fa_d.free_count() >= 2);
                }
            }
            match res {
                Ok(()) => {},
                Err(_) => {
                    proof {
                        assert(false);
                    }
                    return Err(MmError::OutOfMemory);
                },
            }
            frames.push(p);
            v = v + 1;
            proof {
                assert(fa.untouched_count() >= fa_it.untouched_count() - 3);
                assert forall|pp: int| 0 <= pp < fa.spec_base() implies mem.is_data(pp) by {
                    assert(mem_it.is_data(pp));
                    assert(pp != p as int);
                    if mem.pages@[pp] != mem_d.pages@[pp] {
                        assert(self.page_table.nodes().contains(pp));
                        let q = pp as usize;
                        assert(self.page_table.frames@.contains(q));
                        assert(fa.allocated(q));
                        assert(false);
                    } else {
                        assert(mem_d.pages@[pp] == mem_it.pages@[pp]);
                    }
                }
                assert forall|w: int| #![trigger translate_spec(*mem, self.root(), w)]
                    start <= w < v implies {
                    let o = translate_spec(*mem, self.root(), w);
                    &&& o is Some
                    &&& o->0.spec_ppn() == frames@[w - start] as int
                    &&& o->0.spec_flags() == perm + 1
                } by {
                    if w < v - 1 {
                        assert(translate_spec(*mem, self.root(), w) == translate_spec(
                            mem_d,
                            self.root(),
                            w,
                        ));
                        assert(frames@[w - start] == frames@.subrange(
                            0,
                            frames@.len() - 1,
                        )[w - start]);
                    }
                }
                assert forall|i: int|
                    0 <= i < self.areas@.len() implies self.area_mapped(
                    *mem,
                    #[trigger] self.areas@[i],
                ) by {
                    let a = self.areas@[i];
                    assert forall|w: int| #![trigger translate_spec(*mem, self.root(), w)]
                        a.contains_vpn(w) implies {
                        let o = translate_spec(*mem, self.root(), w);
                        &&& o is Some
                        &&& o->0.spec_ppn() == a.page_ppn(w)
                        &&& o->0.spec_flags() == a.perm + 1
                    } by {
                        assert(self.areas@[i].contains_vpn(w));
                        assert(old(self).covered(w));
                        assert(0 <= w < VPN_LIMIT);
                        assert(w != v - 1);
                        assert(translate_spec(mem_d, self.root(), w) == translate_spec(
                            mem_it,
                            self.root(),
                            w,
                        ));
                        assert(translate_spec(*mem, self.root(), w) == translate_spec(
                            mem_d,
                            self.root(),
                            w,
                        ));
                    }
                }
            }
        }
        let area = MapArea { start, end, map_type: MapType::Framed, perm, frames };
        self.areas.push(area);
        proof {
            let n = old(self).areas@.len() as int;
            assert(self.areas@.len() == n + 1);
            assert(self.areas@.last().contains_vpn(start as int) ==> true);
            assert forall|i: int| 0 <= i < n implies self.areas@[i] == old(self).areas@[i] by {}
            assert forall|i: int, j: int|
                0 <= i < self.areas@.len() && 0 <= j < self.areas@.len() && i != j implies !(
            #[trigger] self.areas@[i]).overlaps(#[trigger] self.areas@[j]) by {
                if i == n || j == n {
                    let oi = if i == n {
                        j
                    } else {
                        i
                    };
                    lemma_overlap_iff(self.areas@[i], self.areas@[j]);
                    assert(!(start < old(self).areas@[oi].end && old(self).areas@[oi].start < end
                        && start < end));
                } else {
                    assert(!(#[trigger] old(self).areas@[i]).overlaps(
                        #[trigger] old(self).areas@[j],
                    ));
                }
            }
            assert forall|w: int|
                0 <= w < VPN_LIMIT && !self.covered(w) implies self.spec_translate(
                *mem,
                w,
            ) is None by {
                if old(self).covered(w) {
                    let i = choose|i: int|
                        0 <= i < old(self).areas@.len() && (#[trigger] old(
                            self,
                        ).areas@[i]).contains_vpn(w);
                    assert(self.areas@[i].contains_vpn(w));
                    assert(self.covered(w));
                } else {
                    assert(!(start <= w < end)) by {
                        if start <= w < end {
                            assert(self.areas@[self.areas@.len() - 1].contains_vpn(w));
                        }
                    }
                }
            }
            assert(self.regions() =~= old(self).regions().push((start, end, perm)));
            assert(self.inv(*mem, *fa));
        }
        Ok(())
    }
}

impl MemorySet {
    /// Map `[start, end)` one-to-one onto the physical pages of equal
    /// numbers (kernel code and data). The range must lie below the frame
    /// pool. Rejects an overlapping range with `Overlap` and reserves two
    /// frames per page for intermediate nodes, failing with `OutOfMemory`
    /// when the pool's untouched span cannot cover that.
    #[verifier::rlimit(100)]
    #[verifier::spinoff_prover]
    pub fn push_identity(
        &mut self,
        mem: &mut PhysMem,
        fa: &mut FrameAllocator,
        start: usize,
        end: usize,
        perm: u8,
    ) -> (r: Result<(), MmError>)
        requires
            old(self).inv(*old(mem), *old(fa)),
            start <= end,
            end <= old(fa).spec_base(),
            end <= VPN_LIMIT,
            perm % 2 == 0,
            perm < 32,
        ensures
            final (fa).spec_base() == old(fa).spec_base(),
            final (fa).spec_end() == old(fa).spec_end(),
            final (mem).spec_len() == old(mem).spec_len(),
            final (self).root() == old(self).root(),
            r == Err::<(), MmError>(MmError::Overlap) <==> (exists|i: int|
                0 <= i < old(self).areas@.len() && start < old(self).areas@[i].end && (
                #[trigger] old(self).areas@[i]).start < end && start < end),
            r == Err::<(), MmError>(MmError::OutOfMemory) <==> (!(exists|i: int|
                0 <= i < old(self).areas@.len() && start < old(self).areas@[i].end && (
                #[trigger] old(self).areas@[i]).start < end && start < end) && old(
                fa,
            ).free_count() < 2 * (end - start)),
            final (fa).untouched_count() >= old(fa).untouched_count() - 2 * (end - start),
            r is Err ==> (r == Err::<(), MmError>(MmError::Overlap) || r == Err::<(), MmError>(
                MmError::OutOfMemory,
            )) && final (mem).pages@ == old(mem).pages@ && final (fa).current == old(
                fa,
            ).current && final (fa).recycled@ == old(fa).recycled@ && final (self).areas@ == old(
                self,
            ).areas@ && final (self).page_table == old(self).page_table && final (self).inv(
                *final (mem),
                *final (fa),
            ),
            r is Ok ==> {
                &&& final (self).inv(*final (mem), *final (fa))
                &&& final (self).regions() =~= old(self).regions().push((start, end, perm))
                &&& final (self).areas@.len() == old(self).areas@.len() + 1
                &&& (forall|i: int|
                    0 <= i < old(self).areas@.len() ==> final (self).areas@[i] == old(
                        self,
                    ).areas@[i])
                &&& final (self).areas@.last().start == start
                &&& final (self).areas@.last().end == end
                &&& final (self).areas@.last().perm == perm
                &&& final (self).areas@.last().map_type is Identity
                &&& (forall|q: usize| old(fa).allocated(q) ==> final (fa).allocated(q))
                &&& (forall|q: int| #![trigger final(mem).pages@[q]]
                    0 <= q < old(mem).spec_len() && final (mem).pages@[q] != old(mem).pages@[q]
                        ==> old(self).page_table.nodes().contains(q) || (!old(fa).allocated(
                        q as usize,
                    ) && old(fa).spec_base() <= q < old(fa).spec_end()))
                &&& (forall|x: int| #![trigger final(self).page_table.nodes().contains(x)]
                    final (self).page_table.nodes().contains(x) ==> old(
                        self,
                    ).page_table.nodes().contains(x) || (!old(fa).allocated(x as usize) && old(
                        fa,
                    ).spec_base() <= x < old(fa).spec_end()))
            },
    {
        if self.overlaps_existing(start, end) {
            return Err(MmError::Overlap);
        }
        let npages = end - start;
        if fa.free_frames() < 2 * npages as u128 {
            return Err(MmError::OutOfMemory);
        }
        proof {
            assert forall|v: int| start <= v < end implies !old(self).covered(v) by {
                if old(self).covered(v) {
                    let i = choose|i: int|
                        0 <= i < old(self).areas@.len() && (#[trigger] old(
                            self,
                        ).areas@[i]).contains_vpn(v);
                    assert(start < old(self).areas@[i].end && old(self).areas@[i].start < end
                        && start < end);
                }
            }
        }
        let mut v = start;
        while v < end
            invariant
                start <= v <= end,
                end <= VPN_LIMIT,
                end <= old(fa).spec_base(),
                perm % 2 == 0,
                perm < 32,
                self.areas@ == old(self).areas@,
                self.page_table.owned,
                self.page_table.root_ppn == old(self).page_table.root_ppn,
                self.page_table.wf(*mem),
                self.page_table.nodes_allocated(*fa),
                fa.wf(),
                fa.spec_base() == old(fa).spec_base(),
                fa.spec_end() == old(fa).spec_end(),
                fa.spec_end() <= mem.spec_len(),
                mem.spec_len() == old(mem).spec_len(),
                fa.untouched_count() >= old(fa).untouched_count() - 2 * (v - start),
                fa.free_count() >= 2 * (end - v),
                forall|v2: int| start <= v2 < end ==> !old(self).covered(v2),
                forall|i: int|
                    0 <= i < self.areas@.len() ==> (#[trigger] self.areas@[i]).wf_basic(),
                forall|i: int|
                    0 <= i < self.areas@.len() ==> self.area_mapped(*mem, #[trigger] self.areas@[i]),
                forall|w: int|
                    0 <= w < VPN_LIMIT && !old(self).covered(w) && !(start <= w < v)
                        ==> self.spec_translate(*mem, w) is None,
                forall|w: int| #![trigger translate_spec(*mem, self.root(), w)]
                    start <= w < v ==> {
                        let o = translate_spec(*mem, self.root(), w);
                        &&& o is Some
                        &&& o->0.spec_ppn() == w
                        &&& o->0.spec_flags() == perm + 1
                    },
                forall|i: int, k: int|
                    0 <= i < self.areas@.len() && 0 <= k < (
                    #[trigger] self.areas@[i]).frames@.len() ==> {
                        let p = #[trigger] self.areas@[i].frames@[k];
                        &&& fa.allocated(p)
                        &&& !self.page_table.nodes().contains(p as int)
                        &&& mem.is_data(p as int)
                    },
                forall|q: usize| old(fa).allocated(q) ==> fa.allocated(q),
                forall|q: int| #![trigger mem.pages@[q]]
                    0 <= q < old(mem).spec_len() && mem.pages@[q] != old(mem).pages@[q] ==> old(
                        self,
                    ).page_table.nodes().contains(q) || (!old(fa).allocated(q as usize) && old(
                        fa,
                    ).spec_base() <= q < old(fa).spec_end()),
                forall|x: int| #![trigger self.page_table.nodes().contains(x)]
                    self.page_table.nodes().contains(x) ==> old(self).page_table.nodes().contains(
                        x,
                    ) || (!old(fa).allocated(x as usize) && old(fa).spec_base() <= x < old(
                        fa,
                    ).spec_end()),
                forall|p: int| 0 <= p < fa.spec_base() ==> mem.is_data(p),
            decreases end - v,
        {
            let ghost fa_it = *fa;
            let ghost mem_it = *mem;
            let res = self.page_table.map(mem, fa, v, v, perm);
            proof {
                assert(!old(self).covered(v as int));
                assert(res is Ok) by {
                    assert(translate_spec(mem_it, self.root(), v as int) is None);
                    assert(fa_it.free_count() >= 2);
                }
            }
            match res {
                Ok(()) => {},
                Err(_) => {
                    proof {
                        assert(false);
                    }
                    return Err(MmError::OutOfMemory);
                },
            }
            v = v + 1;
            proof {
                assert forall|w: int| #![trigger translate_spec(*mem, self.root(), w)]
                    start <= w < v implies {
                    let o = translate_spec(*mem, self.root(), w);
                    &&& o is Some
                    &&& o->0.spec_ppn() == w
                    &&& o->0.spec_flags() == perm + 1
                } by {
                    if w < v - 1 {
                        assert(translate_spec(*mem, self.root(), w) == translate_spec(
                            mem_it,
                            self.root(),
                            w,
                        ));
                    }
                }
                assert forall|i: int|
                    0 <= i < self.areas@.len() implies self.area_mapped(
                    *mem,
                    #[trigger] self.areas@[i],
                ) by {
                    let a = self.areas@[i];
                    assert forall|w: int| #![trigger translate_spec(*mem, self.root(), w)]
                        a.contains_vpn(w) implies {
                        let o = translate_spec(*mem, self.root(), w);
                        &&& o is Some
                        &&& o->0.spec_ppn() == a.page_ppn(w)
                        &&& o->0.spec_flags() == a.perm + 1
                    } by {
                        assert(self.areas@[i].contains_vpn(w));
                        assert(old(self).covered(w));
                        assert(0 <= w < VPN_LIMIT);
                        assert(w != v - 1);
                        assert(translate_spec(*mem, self.root(), w) == translate_spec(
                            mem_it,
                            self.root(),
                            w,
                        ));
                    }
                }
                assert forall|pp: int| 0 <= pp < fa.spec_base() implies mem.is_data(pp) by {
                    assert(mem_it.is_data(pp));
                    if mem.pages@[pp] != mem_it.pages@[pp] {
                        assert(self.page_table.nodes().contains(pp));
                        let q = pp as usize;
                        assert(self.page_table.frames@.contains(q));
                        assert(fa.allocated(q));
                        assert(false);
                    }
                }
            }
        }
        let area = MapArea { start, end, map_type: MapType::Identity, perm, frames: Vec::new() };
        self.areas.push(area);
        proof {
            let n = old(self).areas@.len() as int;
            assert forall|i: int, j: int|
                0 <= i < self.areas@.len() && 0 <= j < self.areas@.len() && i != j implies !(
            #[trigger] self.areas@[i]).overlaps(#[trigger] self.areas@[j]) by {
                if i == n || j == n {
                    let oi = if i == n {
                        j
                    } else {
                        i
                    };
                    lemma_overlap_iff(self.areas@[i], self.areas@[j]);
                    assert(!(start < old(self).areas@[oi].end && old(self).areas@[oi].start < end
                        && start < end));
                } else {
                    assert(!(#[trigger] old(self).areas@[i]).overlaps(
                        #[trigger] old(self).areas@[j],
                    ));
                }
            }
            assert forall|w: int|
                0 <= w < VPN_LIMIT && !self.covered(w) implies self.spec_translate(
                *mem,
                w,
            ) is None by {
                if old(self).covered(w) {
                    let i = choose|i: int|
                        0 <= i < old(self).areas@.len() && (#[trigger] old(
                            self,
                        ).areas@[i]).contains_vpn(w);
                    assert(self.areas@[i].contains_vpn(w));
                    assert(self.covered(w));
                } else {
                    assert(!(start <= w < end)) by {
                        if start <= w < end {
                            assert(self.areas@[self.areas@.len() - 1].contains_vpn(w));
                        }
                    }
                }
            }
            assert(self.regions() =~= old(self).regions().push((start, end, perm)));
            assert(self.inv(*mem, *fa));
        }
        Ok(())
    }

    /// The page range `[start, start + len)` occupies, rounding the end up
    /// to the next page boundary: `munmap(start, len)` matches exactly what
    /// `mmap(start, len, ..)` created.
    pub open spec fn spec_range_vpns(start: int, len: int) -> (int, int) {
        (
            start / (PAGE_SIZE as int),
            (start + len) / (PAGE_SIZE as int) + (if (start + len) % (PAGE_SIZE as int) == 0 {
                0int
            } else {
                1int
            }),
        )
    }

    /// A `(start, len)` request is rejected as `Misaligned` when the start
    /// is not on a page boundary, the length is zero, or the range exceeds
    /// the address width.
    pub open spec fn spec_misaligned(start: int, len: int) -> bool {
        ||| start % (PAGE_SIZE as int) != 0
        ||| len == 0
        ||| start + len > usize::MAX
        ||| Self::spec_range_vpns(start, len).1 > VPN_LIMIT
    }

    /// Create an anonymous framed region over `[start, start + len)` with
    /// permissions `perm`, rounding the length up to whole pages. Fails
    /// with `Misaligned` for an invalid range, `Overlap` when the range
    /// touches an existing region, and `OutOfMemory` when the pool cannot
    /// cover the reservation; nothing changes on failure.
    #[verifier::rlimit(100)]
    #[verifier::spinoff_prover]
    pub fn mmap(
        &mut self,
        mem: &mut PhysMem,
        fa: &mut FrameAllocator,
        start: usize,
        len: usize,
        perm: u8,
    ) -> (r: Result<(), MmError>)
        requires
            old(self).inv(*old(mem), *old(fa)),
            perm % 2 == 0,
            perm < 32,
        ensures
            final (fa).spec_base() == old(fa).spec_base(),
            final (fa).spec_end() == old(fa).spec_end(),
            final (mem).spec_len() == old(mem).spec_len(),
            final (self).root() == old(self).root(),
            r is Err ==> r == Err::<(), MmError>(MmError::Misaligned) || r == Err::<(), MmError>(
                MmError::Overlap,
            ) || r == Err::<(), MmError>(MmError::OutOfMemory),
            r == Err::<(), MmError>(MmError::Misaligned) <==> Self::spec_misaligned(
                start as int,
                len as int,
            ),
            ({
                let (sv, ev) = Self::spec_range_vpns(start as int, len as int);
                &&& (r == Err::<(), MmError>(MmError::OutOfMemory) <==> (!Self::spec_misaligned(
                    start as int,
                    len as int,
                ) && !(exists|i: int|
                    0 <= i < old(self).areas@.len() && sv < old(self).areas@[i].end && (
                    #[trigger] old(self).areas@[i]).start < ev) && old(fa).free_count() < 3 * (
                ev - sv)))
                &&& (r == Err::<(), MmError>(MmError::Overlap) <==> (!Self::spec_misaligned(
                    start as int,
                    len as int,
                ) && (exists|i: int|
                    0 <= i < old(self).areas@.len() && sv < old(self).areas@[i].end && (
                    #[trigger] old(self).areas@[i]).start < ev)))
                &&& (r is Ok ==> final (self).inv(*final (mem), *final (fa)) && final (
                self).regions() =~= old(self).regions().push(
                    (sv as usize, ev as usize, perm),
                ) && final (self).areas@.last().map_type is Framed && final (
                self).areas@.last().frames@.len() == ev - sv && final (self).areas@.len() == old(
                    self,
                ).areas@.len() + 1 && (forall|i: int|
                    0 <= i < old(self).areas@.len() ==> final (self).areas@[i] == old(
                        self,
                    ).areas@[i]) && (forall|k: int|
                    0 <= k < ev - sv ==> !old(fa).allocated(
                        #[trigger] final (self).areas@.last().frames@[k],
                    ) && old(fa).spec_base() <= final (self).areas@.last().frames@[k] < old(
                        fa,
                    ).spec_end()))
            }),
            r is Err ==> final (mem).pages@ == old(mem).pages@ && final (fa).current == old(
                fa,
            ).current && final (fa).recycled@ == old(fa).recycled@ && final (self).areas@ == old(
                self,
            ).areas@ && final (self).page_table == old(self).page_table && final (self).inv(
                *final (mem),
                *final (fa),
            ),
            r is Ok ==> (forall|q: int| #![trigger final(mem).pages@[q]]
                0 <= q < old(mem).spec_len() && final (mem).pages@[q] != old(mem).pages@[q]
                    ==> old(self).page_table.nodes().contains(q) || (!old(fa).allocated(q as usize)
                    && old(fa).spec_base() <= q < old(fa).spec_end())) && (forall|q: usize|
                old(fa).allocated(q) ==> final (fa).allocated(q)) && (forall|x: int|
                #![trigger final(self).page_table.nodes().contains(x)]
                final (self).page_table.nodes().contains(x) ==> old(
                    self,
                ).page_table.nodes().contains(x) || (!old(fa).allocated(x as usize) && old(
                    fa,
                ).spec_base() <= x < old(fa).spec_end())),
    {
        if start % PAGE_SIZE != 0 || len == 0 || len > usize::MAX - start {
            return Err(MmError::Misaligned);
        }
        let end_addr = start + len;
        let sv = start / PAGE_SIZE;
        let ev = end_addr / PAGE_SIZE + (if end_addr % PAGE_SIZE == 0 {
            0
        } else {
            1
        });
        if ev > VPN_LIMIT {
            return Err(MmError::Misaligned);
        }
        proof {
            assert(sv <= ev) by {
                assert(start as int / (PAGE_SIZE as int) <= end_addr as int / (PAGE_SIZE as int))
                    by {
                    vstd::arithmetic::div_mod::lemma_div_is_ordered(
                        start as int,
                        end_addr as int,
                        PAGE_SIZE as int,
                    );
                }
            }
        }
        let res = self.push_framed(mem, fa, sv, ev, perm);
        proof {
            if res is Ok {
                assert forall|k: int| 0 <= k < ev as int - sv as int implies !old(fa).allocated(
                    #[trigger] self.areas@.last().frames@[k],
                ) && old(fa).spec_base() <= self.areas@.last().frames@[k] < old(
                    fa,
                ).spec_end() by {}
                assert forall|i: int|
                    0 <= i < old(self).areas@.len() implies self.areas@[i] == old(
                    self,
                ).areas@[i] by {}
            }
        }
        match res {
            Ok(()) => Ok(()),
            Err(e) => Err(e),
        }
    }

    /// Remove the region that exactly matches `[start, start + len)`,
    /// unmapping each of its pages and returning its frames to the pool.
    /// Fails with `Misaligned` for an invalid range and with
    /// `NoSuchMapping` when no region matches the range exactly — a
    /// sub-range of a region never matches. Nothing changes on failure.
    #[verifier::rlimit(100)]
    #[verifier::spinoff_prover]
    pub fn munmap(
        &mut self,
        mem: &mut PhysMem,
        fa: &mut FrameAllocator,
        start: usize,
        len: usize,
    ) -> (r: Result<(), MmError>)
        requires
            old(self).inv(*old(mem), *old(fa)),
        ensures
            final (fa).spec_base() == old(fa).spec_base(),
            final (fa).spec_end() == old(fa).spec_end(),
            final (mem).spec_len() == old(mem).spec_len(),
            final (self).root() == old(self).root(),
            final (self).page_table == old(self).page_table,
            final (self).inv(*final (mem), *final (fa)),
            r is Err ==> r == Err::<(), MmError>(MmError::Misaligned) || r == Err::<(), MmError>(
                MmError::NoSuchMapping,
            ),
            r == Err::<(), MmError>(MmError::Misaligned) <==> Self::spec_misaligned(
                start as int,
                len as int,
            ),
            ({
                let (sv, ev) = Self::spec_range_vpns(start as int, len as int);
                &&& (r == Err::<(), MmError>(MmError::NoSuchMapping) <==> (!Self::spec_misaligned(
                    start as int,
                    len as int,
                ) && !(exists|i: int|
                    0 <= i < old(self).areas@.len() && (#[trigger] old(self).areas@[i]).start == sv
                        && old(self).areas@[i].end == ev)))
                &&& (r is Ok ==> (forall|i: int|
                    0 <= i < old(self).areas@.len() && (#[trigger] old(self).areas@[i]).start == sv
                        && old(self).areas@[i].end == ev ==> final (self).areas@ == old(
                        self,
                    ).areas@.remove(i) && final (fa).free_count() == old(fa).free_count() + old(
                        self,
                    ).areas@[i].frames@.len()))
                &&& (r is Ok ==> forall|w: int|
                    sv <= w < ev ==> final (self).spec_translate(*final (mem), w) is None)
            }),
            r is Err ==> final (mem).pages@ == old(mem).pages@ && final (fa).current == old(
                fa,
            ).current && final (fa).recycled@ == old(fa).recycled@ && final (self).areas@ == old(
                self,
            ).areas@,
            r is Ok ==> (forall|q: int| #![trigger final(mem).pages@[q]]
                0 <= q < old(mem).spec_len() && final (mem).pages@[q] != old(mem).pages@[q]
                    ==> old(self).page_table.nodes().contains(q)) && (forall|q: usize|
                final (fa).allocated(q) ==> old(fa).allocated(q)) && (forall|q: usize|
                old(fa).allocated(q) && !final (fa).allocated(q) ==> old(self).owned_frame(
                    q as int,
                )),
    {
        if start % PAGE_SIZE != 0 || len == 0 || len > usize::MAX - start {
            return Err(MmError::Misaligned);
        }
        let end_addr = start + len;
        let sv = start / PAGE_SIZE;
        let ev = end_addr / PAGE_SIZE + (if end_addr % PAGE_SIZE == 0 {
            0
        } else {
            1
        });
        if ev > VPN_LIMIT {
            return Err(MmError::Misaligned);
        }
        proof {
            assert(sv < ev) by {
                vstd::arithmetic::div_mod::lemma_div_is_ordered(
                    start as int,
                    end_addr as int,
                    PAGE_SIZE as int,
                );
                if start as int / (PAGE_SIZE as int) == end_addr as int / (PAGE_SIZE as int)
                    && end_addr % PAGE_SIZE == 0 {
                    vstd::arithmetic::div_mod::lemma_fundamental_div_mod(
                        start as int,
                        PAGE_SIZE as int,
                    );
                    vstd::arithmetic::div_mod::lemma_fundamental_div_mod(
                        end_addr as int,
                        PAGE_SIZE as int,
                    );
                }
            }
        }
        // find the region whose range matches exactly
        let mut idx: usize = 0;
        let mut found = false;
        while idx < self.areas.len() && !found
            invariant
                idx <= self.areas@.len(),
                found ==> idx < self.areas@.len() && self.areas@[idx as int].start == sv
                    && self.areas@[idx as int].end == ev,
                !found ==> forall|j: int|
                    0 <= j < idx ==> !((#[trigger] self.areas@[j]).start == sv && self.areas@[j].end
                        == ev),
            decreases self.areas@.len() - idx, (if found {
                0int
            } else {
                1int
            }),
        {
            let a = &self.areas[idx];
            if a.start == sv && a.end == ev {
                found = true;
            } else {
                idx = idx + 1;
            }
        }
        if !found {
            return Err(MmError::NoSuchMapping);
        }
        proof {
            // the exact match is unique: two distinct regions on the same
            // non-empty range would overlap
            assert forall|i: int|
                0 <= i < self.areas@.len() && (#[trigger] self.areas@[i]).start == sv
                    && self.areas@[i].end == ev implies i == idx by {
                if i != idx {
                    lemma_overlap_iff(self.areas@[i], self.areas@[idx as int]);
                }
            }
        }
        let ghost m0 = *old(mem);
        let ghost fa0 = *old(fa);
        let npages = ev - sv;
        let mut k: usize = 0;
        while k < npages
            invariant
                0 <= k <= npages,
                npages == ev - sv,
                sv < ev <= VPN_LIMIT,
                idx < self.areas@.len(),
                self.areas@ == old(self).areas@,
                self.page_table == old(self).page_table,
                self.areas@[idx as int].start == sv,
                self.areas@[idx as int].end == ev,
                old(self).inv(m0, fa0),
                self.page_table.wf(*mem),
                fa.wf(),
                fa.spec_base() == fa0.spec_base(),
                fa.spec_end() == fa0.spec_end(),
                mem.spec_len() == m0.spec_len(),
                fa.free_count() == fa0.free_count() + (if self.areas@[idx as int].map_type
                    is Framed {
                    k as int
                } else {
                    0int
                }),
                // pages of the area before sv + k are now unmapped; all
                // other translations are what they were
                forall|w: int|
                    sv <= w < sv + k ==> self.spec_translate(*mem, w) is None,
                forall|w: int|
                    0 <= w < VPN_LIMIT && !(sv <= w < sv + k) ==> self.spec_translate(*mem, w)
                        == old(self).spec_translate(m0, w),
                // the area's leading frames are back in the pool; the rest
                // of the allocator is untouched
                forall|q: usize|
                    #[trigger] fa.allocated(q) ==> fa0.allocated(q),
                forall|q: usize|
                    fa0.allocated(q) && !fa.allocated(q) ==> (self.areas@[idx as int].map_type
                        is Framed && exists|k2: int|
                        0 <= k2 < k && (#[trigger] self.areas@[idx as int].frames@[k2]) == q),
                self.areas@[idx as int].map_type is Framed ==> forall|k2: int|
                    k <= k2 < npages ==> fa.allocated(
                        #[trigger] self.areas@[idx as int].frames@[k2],
                    ),
                // only node frames of this table changed in memory
                forall|q: int| #![trigger mem.pages@[q]]
                    0 <= q < m0.spec_len() && mem.pages@[q] != m0.pages@[q]
                        ==> self.page_table.nodes().contains(q),
            decreases npages - k,
        {
            let ghost mem_it = *mem;
            let ghost fa_it = *fa;
            let v = sv + k;
            proof {
                assert(self.areas@[idx as int].contains_vpn(v as int));
                assert(old(self).area_mapped(m0, self.areas@[idx as int]));
                assert(old(self).spec_translate(m0, v as int) is Some);
                assert(self.spec_translate(*mem, v as int) is Some);
            }
            let res = self.page_table.unmap(mem, v);
            proof {
                assert(res is Ok);
            }
            match res {
                Ok(()) => {},
                Err(_) => {
                    proof {
                        assert(false);
                    }
                    return Err(MmError::NotMapped);
                },
            }
            let a_is_framed = match self.areas[idx].map_type {
                MapType::Framed => true,
                MapType::Identity => false,
            };
            if a_is_framed {
                let p = self.areas[idx].frames[k];
                proof {
                    assert(fa.allocated(p));
                }
                let dres = fa.frame_dealloc(p);
                proof {
                    assert(dres is Ok);
                    assert forall|q: usize|
                        fa0.allocated(q) && !fa.allocated(q) implies (self.areas@[idx
                        as int].map_type is Framed && exists|k2: int|
                        0 <= k2 < k + 1 && (#[trigger] self.areas@[idx as int].frames@[k2])
                            == q) by {
                        if q == p {
                            assert(self.areas@[idx as int].frames@[k as int] == q);
                        } else {
                            assert(!fa_it.allocated(q));
                        }
                    }
                }
                match dres {
                    Ok(()) => {},
                    Err(_) => {
                        proof {
                            assert(false);
                        }
                        return Err(MmError::InvalidFrame);
                    },
                }
            }
            k = k + 1;
            proof {
                assert forall|w: int|
                    0 <= w < VPN_LIMIT && !(sv <= w < sv + k) implies self.spec_translate(*mem, w)
                    == old(self).spec_translate(m0, w) by {
                    assert(translate_spec(*mem, self.root(), w) == translate_spec(
                        mem_it,
                        self.root(),
                        w,
                    ));
                }
                assert forall|w: int| sv <= w < sv + k implies self.spec_translate(
                    *mem,
                    w,
                ) is None by {
                    if w != v {
                        assert(self.spec_translate(mem_it, w) is None);
                        assert(translate_spec(*mem, self.root(), w) == translate_spec(
                            mem_it,
                            self.root(),
                            w,
                        ));
                    } else {
                        assert(self.page_table.spec_translate(*mem, v as int) is None);
                    }
                }
            }
        }
        let ghost pre_remove = *self;
        let _ = self.areas.remove(idx);
        proof {
            assert(self.page_table == pre_remove.page_table);
            assert forall|w: int| sv as int <= w < ev as int implies self.spec_translate(
                *mem,
                w,
            ) is None by {
                assert(pre_remove.spec_translate(*mem, w) is None);
            }
            assert forall|w: int|
                0 <= w < VPN_LIMIT && !(sv as int <= w < ev as int) implies self.spec_translate(
                *mem,
                w,
            ) == old(self).spec_translate(m0, w) by {
                assert(pre_remove.spec_translate(*mem, w) == old(self).spec_translate(m0, w));
            }
            lemma_munmap_reestablish(pre_remove, *self, m0, *mem, fa0, *fa, idx as int, sv as int, ev as int);
            assert(self.areas@ == old(self).areas@.remove(idx as int));
            assert forall|i: int|
                0 <= i < old(self).areas@.len() && (#[trigger] old(self).areas@[i]).start == sv
                    && old(self).areas@[i].end == ev implies i == idx by {
                if i != idx {
                    lemma_overlap_iff(old(self).areas@[i], old(self).areas@[idx as int]);
                }
            }
        }
        Ok(())
    }
}

/// After unmapping and releasing every page of one region and dropping it
/// from the list, the address-space invariant holds again.
#[verifier::rlimit(100)]
#[verifier::spinoff_prover]
proof fn lemma_munmap_reestablish(
    ms0: MemorySet,
    ms: MemorySet,
    m0: PhysMem,
    mem: PhysMem,
    fa0: FrameAllocator,
    fa: FrameAllocator,
    i0: int,
    sv: int,
    ev: int,
)
    requires
        ms0.inv(m0, fa0),
        0 <= i0 < ms0.areas@.len(),
        ms0.areas@[i0].start == sv,
        ms0.areas@[i0].end == ev,
        sv < ev,
        ms.page_table == ms0.page_table,
        ms.areas@ == ms0.areas@.remove(i0),
        ms.page_table.wf(mem),
        fa.wf(),
        fa.spec_base() == fa0.spec_base(),
        fa.spec_end() == fa0.spec_end(),
        mem.spec_len() == m0.spec_len(),
        forall|w: int| sv <= w < ev ==> ms.spec_translate(mem, w) is None,
        forall|w: int|
            0 <= w < VPN_LIMIT && !(sv <= w < ev) ==> ms.spec_translate(mem, w) == ms0.spec_translate(
                m0,
                w,
            ),
        forall|q: usize| #[trigger] fa.allocated(q) ==> fa0.allocated(q),
        forall|q: usize|
            fa0.allocated(q) && !fa.allocated(q) ==> exists|k2: int|
                0 <= k2 < ms0.areas@[i0].frames@.len() && (#[trigger] ms0.areas@[i0].frames@[k2])
                    == q,
        forall|q: int| #![trigger mem.pages@[q]]
            0 <= q < m0.spec_len() && mem.pages@[q] != m0.pages@[q]
                ==> ms.page_table.nodes().contains(q),
    ensures
        ms.inv(mem, fa),
{
    let n = ms0.areas@.len() as int;
    assert forall|j: int| 0 <= j < n - 1 implies #[trigger] ms.areas@[j] == (if j < i0 {
        ms0.areas@[j]
    } else {
        ms0.areas@[j + 1]
    }) by {}
    assert forall|q: usize| #[trigger] ms.page_table.frames@.contains(q) implies fa.allocated(
        q,
    ) by {
        assert(fa0.allocated(q));
        if !fa.allocated(q) {
            let k2 = choose|k2: int|
                0 <= k2 < ms0.areas@[i0].frames@.len() && (#[trigger] ms0.areas@[i0].frames@[k2])
                    == q;
            assert(!ms0.page_table.nodes().contains(q as int));
        }
    }
    assert forall|w: int|
        0 <= w < VPN_LIMIT && !ms.covered(w) implies ms.spec_translate(mem, w) is None by {
        if !(sv <= w < ev) {
            assert(ms.spec_translate(mem, w) == ms0.spec_translate(m0, w));
            assert(!ms0.covered(w)) by {
                if ms0.covered(w) {
                    let i = choose|i: int|
                        0 <= i < n && (#[trigger] ms0.areas@[i]).contains_vpn(w);
                    assert(i != i0);
                    let j = if i < i0 {
                        i
                    } else {
                        i - 1
                    };
                    assert(ms.areas@[j] == ms0.areas@[i]);
                    assert(ms.covered(w));
                }
            }
        }
    }
    assert forall|i: int|
        0 <= i < ms.areas@.len() implies ms.area_mapped(mem, #[trigger] ms.areas@[i]) by {
        let a = ms.areas@[i];
        let iorig = if i < i0 {
            i
        } else {
            i + 1
        };
        assert(a == ms0.areas@[iorig]);
        assert(ms0.area_mapped(m0, a));
        assert forall|w: int| #![trigger translate_spec(mem, ms.root(), w)]
            a.contains_vpn(w) implies {
            let o = translate_spec(mem, ms.root(), w);
            &&& o is Some
            &&& o->0.spec_ppn() == a.page_ppn(w)
            &&& o->0.spec_flags() == a.perm + 1
        } by {
            assert(!(sv <= w < ev)) by {
                if sv <= w < ev {
                    lemma_overlap_iff(a, ms0.areas@[i0]);
                    assert(a.contains_vpn(w) && ms0.areas@[i0].contains_vpn(w));
                }
            }
            assert(ms.spec_translate(mem, w) == ms0.spec_translate(m0, w));
        }
    }
    assert forall|i: int, k2: int|
        0 <= i < ms.areas@.len() && 0 <= k2 < (#[trigger] ms.areas@[i]).frames@.len() implies {
        let p = #[trigger] ms.areas@[i].frames@[k2];
        &&& fa.allocated(p)
        &&& !ms.page_table.nodes().contains(p as int)
        &&& mem.is_data(p as int)
    } by {
        let iorig = if i < i0 {
            i
        } else {
            i + 1
        };
        assert(ms.areas@[i] == ms0.areas@[iorig]);
        let p = ms.areas@[i].frames@[k2];
        assert(fa0.allocated(p));
        assert(fa.allocated(p)) by {
            if !fa.allocated(p) {
                let k3 = choose|k3: int|
                    0 <= k3 < ms0.areas@[i0].frames@.len() && (
                    #[trigger] ms0.areas@[i0].frames@[k3]) == p;
                assert(ms0.areas@[i0].frames@[k3] == ms0.areas@[iorig].frames@[k2]);
            }
        }
        assert(mem.is_data(p as int)) by {
            assert(m0.is_data(p as int));
            if mem.pages@[p as int] != m0.pages@[p as int] {
                assert(ms.page_table.nodes().contains(p as int));
            }
        }
    }
    assert forall|p: int| 0 <= p < fa.spec_base() implies mem.is_data(p) by {
        assert(m0.is_data(p));
        if mem.pages@[p] != m0.pages@[p] {
            assert(ms.page_table.nodes().contains(p));
            let q = p as usize;
            assert(ms.page_table.frames@.contains(q));
            assert(fa0.allocated(q));
            assert(false);
        }
    }
}

/// An address space's invariant survives a change that touches neither
/// its allocated frames nor anything below the pool base.
pub proof fn lemma_inv_untouched(
    ms: MemorySet,
    m1: PhysMem,
    m2: PhysMem,
    fa1: FrameAllocator,
    fa2: FrameAllocator,
)
    requires
        ms.inv(m1, fa1),
        m2.wf(),
        m2.spec_len() == m1.spec_len(),
        fa2.wf(),
        fa2.spec_base() == fa1.spec_base(),
        fa2.spec_end() == fa1.spec_end(),
        forall|q: usize|
            fa1.allocated(q) ==> fa2.allocated(q) && m2.pages@[q as int] == m1.pages@[q as int],
        forall|p: int| 0 <= p < fa1.spec_base() ==> m2.pages@[p] == m1.pages@[p],
    ensures
        ms.inv(m2, fa2),
        forall|w: int|
            #[trigger] ms.spec_translate(m2, w) == ms.spec_translate(m1, w),
{
    assert forall|n: int|
        ms.page_table.l1s@.contains(n) || ms.page_table.l2s@.contains(n) || n == ms.root() implies
        m2.pages@[n] == m1.pages@[n] by {
        assert(ms.page_table.nodes().contains(n));
        let q = n as usize;
        assert(ms.page_table.frames@.contains(q));
        assert(fa1.allocated(q));
    }
    crate::page_table::lemma_translate_frames_only(
        m1,
        m2,
        ms.root(),
        ms.page_table.l1s@,
        ms.page_table.l2s@,
    );
    assert forall|i: int, k: int|
        0 <= i < ms.areas@.len() && 0 <= k < (#[trigger] ms.areas@[i]).frames@.len() implies {
        let p = #[trigger] ms.areas@[i].frames@[k];
        &&& fa2.allocated(p)
        &&& !ms.page_table.nodes().contains(p as int)
        &&& m2.is_data(p as int)
    } by {
        let p = ms.areas@[i].frames@[k];
        assert(fa1.allocated(p));
        assert(m2.pages@[p as int] == m1.pages@[p as int]);
    }
    assert forall|p: int| 0 <= p < fa2.spec_base() implies m2.is_data(p) by {
        assert(m1.is_data(p));
        assert(m2.pages@[p] == m1.pages@[p]);
    }
}

/// An address space's invariant survives any change that leaves its own
/// frames — page-table nodes and region frames — untouched and allocated,
/// and everything below the pool base untouched.
pub proof fn lemma_inv_owned_preserved(
    ms: MemorySet,
    m1: PhysMem,
    m2: PhysMem,
    fa1: FrameAllocator,
    fa2: FrameAllocator,
)
    requires
        ms.inv(m1, fa1),
        m2.wf(),
        m2.spec_len() == m1.spec_len(),
        fa2.wf(),
        fa2.spec_base() == fa1.spec_base(),
        fa2.spec_end() == fa1.spec_end(),
        forall|x: int|
            #[trigger] ms.owned_frame(x) ==> m2.pages@[x] == m1.pages@[x] && 0 <= x <= usize::MAX
                && fa2.allocated(x as usize),
        forall|p: int| 0 <= p < fa1.spec_base() ==> m2.pages@[p] == m1.pages@[p],
    ensures
        ms.inv(m2, fa2),
        forall|w: int|
            #[trigger] ms.spec_translate(m2, w) == ms.spec_translate(m1, w),
{
    assert forall|n: int|
        ms.page_table.l1s@.contains(n) || ms.page_table.l2s@.contains(n) || n == ms.root() implies
        m2.pages@[n] == m1.pages@[n] by {
        assert(ms.page_table.nodes().contains(n));
        assert(ms.owned_frame(n));
    }
    crate::page_table::lemma_translate_frames_only(
        m1,
        m2,
        ms.root(),
        ms.page_table.l1s@,
        ms.page_table.l2s@,
    );
    assert forall|q: usize| #[trigger] ms.page_table.frames@.contains(q) implies fa2.allocated(
        q,
    ) by {
        assert(ms.page_table.nodes().contains(q as int));
        assert(ms.owned_frame(q as int));
    }
    assert forall|i: int, k: int|
        0 <= i < ms.areas@.len() && 0 <= k < (#[trigger] ms.areas@[i]).frames@.len() implies {
        let p = #[trigger] ms.areas@[i].frames@[k];
        &&& fa2.allocated(p)
        &&& !ms.page_table.nodes().contains(p as int)
        &&& m2.is_data(p as int)
    } by {
        let p = ms.areas@[i].frames@[k];
        assert(ms.owned_frame(p as int));
        assert(m2.pages@[p as int] == m1.pages@[p as int]);
    }
    assert forall|p: int| 0 <= p < fa2.spec_base() implies m2.is_data(p) by {
        assert(m1.is_data(p));
        assert(m2.pages@[p] == m1.pages@[p]);
    }
}

/// An address space's invariant survives writes that only change the
/// contents of data pages.
pub proof fn lemma_inv_data_write(ms: MemorySet, m1: PhysMem, m2: PhysMem, fa: FrameAllocator)
    requires
        ms.inv(m1, fa),
        m2.wf(),
        m2.spec_len() == m1.spec_len(),
        forall|q: int| #![trigger m2.pages@[q]]
            0 <= q < m1.spec_len() && m2.pages@[q] != m1.pages@[q] ==> m1.is_data(q) && m2.is_data(
                q,
            ),
    ensures
        ms.inv(m2, fa),
        forall|w: int|
            #[trigger] ms.spec_translate(m2, w) == ms.spec_translate(m1, w),
{
    assert forall|n: int|
        ms.page_table.l1s@.contains(n) || ms.page_table.l2s@.contains(n) || n == ms.root() implies
        m2.pages@[n] == m1.pages@[n] by {
        assert(ms.page_table.nodes().contains(n));
        assert(m1.is_table(n));
    }
    crate::page_table::lemma_translate_frames_only(
        m1,
        m2,
        ms.root(),
        ms.page_table.l1s@,
        ms.page_table.l2s@,
    );
    assert forall|i: int, k: int|
        0 <= i < ms.areas@.len() && 0 <= k < (#[trigger] ms.areas@[i]).frames@.len() implies {
        let p = #[trigger] ms.areas@[i].frames@[k];
        &&& fa.allocated(p)
        &&& !ms.page_table.nodes().contains(p as int)
        &&& m2.is_data(p as int)
    } by {
        let p = ms.areas@[i].frames@[k];
        assert(m1.is_data(p as int));
        if m2.pages@[p as int] != m1.pages@[p as int] {
            assert(m2.is_data(p as int));
        }
    }
    assert forall|p: int| 0 <= p < fa.spec_base() implies m2.is_data(p) by {
        assert(m1.is_data(p));
        if m2.pages@[p] != m1.pages@[p] {
            assert(m2.is_data(p));
        }
    }
}

/// Creating a region and then unmapping the identical range restores the
/// region list: on a list whose ranges do not overlap the new range, the
/// fresh region is the unique exact match for that range, and removing it
/// yields exactly the original descriptors. With `mmap`'s and `munmap`'s
/// contracts this is the `mmap`/`munmap` round trip.
pub proof fn lemma_mmap_munmap_roundtrip(
    regions: Seq<(usize, usize, u8)>,
    sv: usize,
    ev: usize,
    perm: u8,
)
    requires
        sv < ev,
        forall|j: int|
            0 <= j < regions.len() ==> !(sv < (#[trigger] regions[j]).1 && regions[j].0 < ev),
    ensures
        ({
            let pushed = regions.push((sv, ev, perm));
            &&& pushed[regions.len() as int].0 == sv
            &&& pushed[regions.len() as int].1 == ev
            &&& (forall|i: int|
                0 <= i < pushed.len() && (#[trigger] pushed[i]).0 == sv && pushed[i].1 == ev ==> i
                    == regions.len())
            &&& pushed.remove(regions.len() as int) =~= regions
        }),
{
    let pushed = regions.push((sv, ev, perm));
    assert forall|i: int|
        0 <= i < pushed.len() && (#[trigger] pushed[i]).0 == sv && pushed[i].1 == ev implies i
        == regions.len() by {
        if i < regions.len() {
            assert(!(sv < regions[i].1 && regions[i].0 < ev));
        }
    }
}

/// Two distinct mapped virtual pages of one address space are backed by
/// two distinct physical frames: within a region frames are distinct (or
/// the identity), across regions the frame sets are disjoint, and
/// identity pages lie below the pool while region frames lie inside it.
pub proof fn lemma_distinct_mapped_ppns(
    ms: MemorySet,
    mem: PhysMem,
    fa: FrameAllocator,
    v1: int,
    v2: int,
)
    requires
        ms.inv(mem, fa),
        0 <= v1 < VPN_LIMIT,
        0 <= v2 < VPN_LIMIT,
        v1 != v2,
        ms.spec_translate(mem, v1) is Some,
        ms.spec_translate(mem, v2) is Some,
    ensures
        ms.spec_translate(mem, v1)->0.spec_ppn() != ms.spec_translate(mem, v2)->0.spec_ppn(),
{
    assert(ms.covered(v1)) by {
        if !ms.covered(v1) {
            assert(ms.spec_translate(mem, v1) is None);
        }
    }
    assert(ms.covered(v2)) by {
        if !ms.covered(v2) {
            assert(ms.spec_translate(mem, v2) is None);
        }
    }
    let i1 = choose|i: int| 0 <= i < ms.areas@.len() && (#[trigger] ms.areas@[i]).contains_vpn(v1);
    let i2 = choose|i: int| 0 <= i < ms.areas@.len() && (#[trigger] ms.areas@[i]).contains_vpn(v2);
    let a1 = ms.areas@[i1];
    let a2 = ms.areas@[i2];
    assert(ms.area_mapped(mem, a1));
    assert(ms.area_mapped(mem, a2));
    let p1 = ms.spec_translate(mem, v1)->0.spec_ppn();
    let p2 = ms.spec_translate(mem, v2)->0.spec_ppn();
    assert(p1 == a1.page_ppn(v1));
    assert(p2 == a2.page_ppn(v2));
    if i1 == i2 {
        match a1.map_type {
            MapType::Identity => {},
            MapType::Framed => {
                assert(a1.frames@[v1 - a1.start] != a1.frames@[v2 - a1.start]);
            },
        }
    } else {
        assert(!a1.overlaps(a2));
        match (a1.map_type, a2.map_type) {
            (MapType::Identity, MapType::Identity) => {},
            (MapType::Framed, MapType::Framed) => {
                assert(a1.frames@[v1 - a1.start] != a2.frames@[v2 - a2.start]);
            },
            (MapType::Identity, MapType::Framed) => {
                assert(p1 < fa.spec_base());
                assert(fa.allocated(a2.frames@[v2 - a2.start]));
            },
            (MapType::Framed, MapType::Identity) => {
                assert(p2 < fa.spec_base());
                assert(fa.allocated(a1.frames@[v1 - a1.start]));
            },
        }
    }
}

/// Interval overlap in bound arithmetic coincides with sharing a page.
pub proof fn lemma_overlap_iff(a: MapArea, b: MapArea)
    ensures
        a.overlaps(b) <==> (a.start < a.end && b.start < b.end && a.start < b.end && b.start
            < a.end),
{
    if a.start < a.end && b.start < b.end && a.start < b.end && b.start < a.end {
        let w = if a.start >= b.start {
            a.start as int
        } else {
            b.start as int
        };
        assert(a.contains_vpn(w) && b.contains_vpn(w));
    }
    if a.overlaps(b) {
        let v = choose|v: int| a.contains_vpn(v) && b.contains_vpn(v);
    }
}

} // verus!
