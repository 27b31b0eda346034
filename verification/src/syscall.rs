//! The kernel context and the pointer-taking system calls: boot
//! initialization, user-pointer resolution, and file reads and writes
//! through the translation layer.

use crate::MmError;
use crate::address::{PAGE_SIZE, VPN_LIMIT};
use crate::frame_allocator::FrameAllocator;
use crate::memory_set::{lemma_inv_data_write, lemma_inv_owned_preserved, lemma_inv_untouched, MapType, MemorySet};
use crate::page_table::{pt_wf_ex, spec_decode_root, PhysMem};
use crate::translate::{
    lemma_concat_is_user_bytes,
    mapped_data_page,
    read_buffer,
    translated_byte_buffer,
    user_range_bytes,
    write_buffer,
};
use vstd::prelude::*;

verus! {

/// One open file: a descriptor's view of an inode plus a read cursor.
pub struct OpenFile {
    pub readable: bool,
    pub writable: bool,
    pub ino: usize,
    pub pos: usize,
}

/// The in-memory byte store an open file reads and writes.
pub struct Inode {
    pub data: Vec<u8>,
}

/// The boot-time services and the single current process: explicit
/// physical memory, the frame pool, the kernel's identity-mapped space,
/// one user address space, its descriptor table, and the file store the
/// descriptors point into.
pub struct Kernel {
    pub mem: PhysMem,
    pub fa: FrameAllocator,
    pub kernel_space: MemorySet,
    pub user_space: MemorySet,
    pub active_token: u64,
    pub fd_table: Vec<Option<OpenFile>>,
    pub inodes: Vec<Inode>,
}

impl Kernel {
    /// Both address spaces hold their invariants against the shared
    /// physical memory and pool, and every open descriptor points at an
    /// existing inode.
    pub open spec fn inv(self) -> bool {
        &&& self.kernel_space.inv(self.mem, self.fa)
        &&& self.user_space.inv(self.mem, self.fa)
        &&& (forall|x: int|
            #[trigger] self.kernel_space.owned_frame(x) ==> !self.user_space.owned_frame(x))
        &&& (forall|i: int|
            0 <= i < self.fd_table@.len() && (#[trigger] self.fd_table@[i]) is Some
                ==> self.fd_table@[i]->0.ino < self.inodes@.len())
    }

    /// The root of the currently executing process's address space.
    pub open spec fn user_root(self) -> int {
        self.user_space.root()
    }

    /// The activation token of the current process's space.
    pub fn current_user_token(&self) -> (t: u64)
        requires
            self.inv(),
        ensures
            spec_decode_root(t) == self.user_root(),
    {
        self.user_space.token(&self.mem)
    }
}

/// Total pages the identity segments ask for.
pub open spec fn seg_pages(segments: Seq<(usize, usize, u8)>) -> int
    decreases segments.len(),
{
    if segments.len() == 0 {
        0
    } else {
        seg_pages(segments.drop_last()) + (segments.last().1 - segments.last().0)
    }
}

/// One more segment adds its page count.
proof fn lemma_seg_pages_step(s: Seq<(usize, usize, u8)>, i: int)
    requires
        0 <= i < s.len(),
    ensures
        seg_pages(s.subrange(0, i + 1)) == seg_pages(s.subrange(0, i)) + (s[i].1 - s[i].0),
{
    let pre = s.subrange(0, i + 1);
    assert(pre.drop_last() =~= s.subrange(0, i));
    assert(pre.last() == s[i]);
}

/// Prefix sums of non-negative page counts are monotone.
proof fn lemma_seg_pages_mono(s: Seq<(usize, usize, u8)>, a: int, b: int)
    requires
        0 <= a <= b <= s.len(),
        forall|j: int| 0 <= j < s.len() ==> (#[trigger] s[j]).0 <= s[j].1,
    ensures
        seg_pages(s.subrange(0, a)) <= seg_pages(s.subrange(0, b)),
    decreases b - a,
{
    if a < b {
        lemma_seg_pages_step(s, b - 1);
        lemma_seg_pages_mono(s, a, b - 1);
    }
}

/// Initialize the memory subsystem: build physical memory of
/// `total_pages` frames, hand the frames `[pool_base, total_pages)` to the
/// allocator, construct the kernel's address space by identity-mapping
/// each `(start_vpn, end_vpn, perm)` segment, build one empty user space,
/// and activate the kernel space. Fails with `Overlap` when segments
/// collide and `OutOfMemory` when the pool is too small.
pub fn init(total_pages: usize, pool_base: usize, segments: &Vec<(usize, usize, u8)>) -> (r: Result<
    Kernel,
    MmError,
>)
    requires
        pool_base <= total_pages <= VPN_LIMIT,
        forall|i: int|
            0 <= i < segments@.len() ==> {
                let (s, e, p) = #[trigger] segments@[i];
                s <= e <= pool_base && p % 2 == 0 && p < 32
            },
    ensures
        r is Ok ==> {
            let k = r->Ok_0;
            &&& k.inv()
            &&& k.mem.spec_len() == total_pages
            &&& k.fa.spec_base() == pool_base
            &&& k.fa.spec_end() == total_pages
            &&& k.kernel_space.areas@.len() == segments@.len()
            &&& (forall|i: int|
                0 <= i < segments@.len() ==> {
                    let a = #[trigger] k.kernel_space.areas@[i];
                    &&& a.start == segments@[i].0
                    &&& a.end == segments@[i].1
                    &&& a.perm == segments@[i].2
                    &&& a.map_type is Identity
                })
            &&& k.user_space.areas@.len() == 0
            &&& k.fd_table@.len() == 0
            &&& k.inodes@.len() == 0
            &&& k.active_token == crate::page_table::SATP_MODE_SV39 + k.kernel_space.root()
        },
        r is Err ==> r == Err::<Kernel, MmError>(MmError::OutOfMemory) || r == Err::<
            Kernel,
            MmError,
        >(MmError::Overlap),
        r == Err::<Kernel, MmError>(MmError::Overlap) ==> exists|i: int, j: int|
            0 <= i < segments@.len() && 0 <= j < segments@.len() && i != j && (
            #[trigger] segments@[i]).0 < (#[trigger] segments@[j]).1 && segments@[j].0
                < segments@[i].1 && segments@[i].0 < segments@[i].1,
        // success is owed to disjoint segments and a large enough pool
        (forall|i: int, j: int|
            0 <= i < segments@.len() && 0 <= j < segments@.len() && i != j ==> !((
            #[trigger] segments@[i]).0 < (#[trigger] segments@[j]).1 && segments@[j].0
                < segments@[i].1 && segments@[i].0 < segments@[i].1)) && total_pages - pool_base
            >= 2 + 2 * seg_pages(segments@) ==> r is Ok,
{
    let ghost big = total_pages - pool_base >= 2 + 2 * seg_pages(segments@);
    let ghost disjoint = forall|i: int, j: int|
        0 <= i < segments@.len() && 0 <= j < segments@.len() && i != j ==> !((
        #[trigger] segments@[i]).0 < (#[trigger] segments@[j]).1 && segments@[j].0
            < segments@[i].1 && segments@[i].0 < segments@[i].1);
    let mut mem = PhysMem::new(total_pages);
    let mut fa = FrameAllocator::new(pool_base, total_pages);
    let mut kernel_space = match MemorySet::new_bare(&mut mem, &mut fa) {
        Ok(ms) => ms,
        Err(e) => {
            proof {
                if big {
                    lemma_seg_pages_mono(segments@, 0, segments@.len() as int);
                    assert(segments@.subrange(0, 0) =~= Seq::<(usize, usize, u8)>::empty());
                    assert(segments@.subrange(0, segments@.len() as int) =~= segments@);
                    assert(seg_pages(segments@) >= 0);
                    assert(false);
                }
            }
            return Err(e);
        },
    };
    proof {
        assert(segments@.subrange(0, 0) =~= Seq::<(usize, usize, u8)>::empty());
    }
    let mut i: usize = 0;
    while i < segments.len()
        invariant
            0 <= i <= segments@.len(),
            kernel_space.inv(mem, fa),
            fa.spec_base() == pool_base,
            fa.spec_end() == total_pages,
            mem.spec_len() == total_pages,
            pool_base <= total_pages <= VPN_LIMIT,
            kernel_space.areas@.len() == i,
            big == (total_pages - pool_base >= 2 + 2 * seg_pages(segments@)),
            disjoint == (forall|i2: int, j: int|
                0 <= i2 < segments@.len() && 0 <= j < segments@.len() && i2 != j ==> !((
                #[trigger] segments@[i2]).0 < (#[trigger] segments@[j]).1 && segments@[j].0
                    < segments@[i2].1 && segments@[i2].0 < segments@[i2].1)),
            fa.untouched_count() >= (total_pages - pool_base) - 1 - 2 * seg_pages(
                segments@.subrange(0, i as int),
            ),
            forall|j: int|
                0 <= j < i ==> {
                    let a = #[trigger] kernel_space.areas@[j];
                    &&& a.start == segments@[j].0
                    &&& a.end == segments@[j].1
                    &&& a.perm == segments@[j].2
                    &&& a.map_type is Identity
                },
            forall|j: int|
                0 <= j < segments@.len() ==> {
                    let (s, e, p) = #[trigger] segments@[j];
                    s <= e <= pool_base && p % 2 == 0 && p < 32
                },
        decreases segments@.len() - i,
    {
        let (s, e, p) = segments[i];
        let res = kernel_space.push_identity(&mut mem, &mut fa, s, e, p);
        match res {
            Ok(()) => {},
            Err(err) => {
                proof {
                    if err == MmError::Overlap {
                        let j = choose|j: int|
                            0 <= j < kernel_space.areas@.len() && s
                                < kernel_space.areas@[j].end && (
                            #[trigger] kernel_space.areas@[j]).start < e && s < e;
                        assert(segments@[i as int].0 < segments@[j].1 && segments@[j].0
                            < segments@[i as int].1 && segments@[i as int].0 < segments@[i
                            as int].1);
                        assert(i as int != j);
                    } else {
                        // the reservation sufficed under the stated pool bound
                        if big && disjoint {
                            lemma_seg_pages_step(segments@, i as int);
                            lemma_seg_pages_mono(
                                segments@,
                                i as int + 1,
                                segments@.len() as int,
                            );
                            assert(segments@.subrange(0, segments@.len() as int) =~= segments@);
                            assert(false);
                        }
                    }
                }
                return Err(if err == MmError::Overlap {
                    MmError::Overlap
                } else {
                    MmError::OutOfMemory
                });
            },
        }
        i = i + 1;
        proof {
            lemma_seg_pages_step(segments@, i as int - 1);
        }
    }
    proof {
        assert(segments@.subrange(0, segments@.len() as int) =~= segments@);
    }
    let ghost mem_k = mem;
    let ghost fa_k = fa;
    let user_space = match MemorySet::new_bare(&mut mem, &mut fa) {
        Ok(ms) => ms,
        Err(e) => {
            proof {
                if big && disjoint {
                    assert(fa.free_count() >= fa.untouched_count());
                    assert(false);
                }
            }
            return Err(e);
        },
    };
    proof {
        lemma_inv_untouched(kernel_space, mem_k, mem, fa_k, fa);
        // the fresh user root is no frame of the kernel's space
        assert forall|x: int| #[trigger]
            kernel_space.owned_frame(x) implies !user_space.owned_frame(x) by {
            assert(fa_k.allocated(x as usize)) by {
                if kernel_space.page_table.nodes().contains(x) {
                    let q = x as usize;
                    assert(kernel_space.page_table.frames@.contains(q));
                }
            }
            if user_space.owned_frame(x) {
                assert(user_space.page_table.nodes().contains(x)) by {
                    if !user_space.page_table.nodes().contains(x) {
                        let (i, k) = choose|i: int, k: int|
                            0 <= i < user_space.areas@.len() && 0 <= k
                                < user_space.areas@[i].frames@.len() && (
                            #[trigger] user_space.areas@[i].frames@[k]) as int == x;
                    }
                }
                assert(x == user_space.page_table.root_ppn as int);
                assert(!fa_k.allocated(user_space.page_table.root_ppn));
            }
        }
    }
    let active_token = kernel_space.token(&mem);
    Ok(
        Kernel {
            mem,
            fa,
            kernel_space,
            user_space,
            active_token,
            fd_table: Vec::new(),
            inodes: Vec::new(),
        },
    )
}

impl Kernel {
    /// Resolve a user pointer to a single value of `size` bytes: the
    /// physical frame and offset holding it. The whole value must lie
    /// within one page; returns nothing when the pointer's page is
    /// unmapped or the value would straddle a page boundary.
    pub fn get_slice_buffer(&self, start: usize, size: usize) -> (r: Option<(usize, usize)>)
        requires
            self.inv(),
        ensures
            r is Some <==> (size > 0 && start % PAGE_SIZE + size <= PAGE_SIZE && start + size
                <= usize::MAX && start as int / (PAGE_SIZE as int) < VPN_LIMIT && mapped_data_page(
                self.mem,
                self.user_root(),
                start as int / (PAGE_SIZE as int),
            ) is Some),
            r is Some ==> {
                let (ppn, off) = r->0;
                &&& Some(ppn as int) == mapped_data_page(
                    self.mem,
                    self.user_root(),
                    start as int / (PAGE_SIZE as int),
                )
                &&& off == start % PAGE_SIZE
            },
    {
        if size == 0 || size > PAGE_SIZE || start % PAGE_SIZE > PAGE_SIZE - size {
            return None;
        }
        if size > usize::MAX - start {
            return None;
        }
        let token = self.current_user_token();
        proof {
            assert(pt_wf_ex(self.mem, self.user_root())) by {
                assert(crate::page_table::pt_wf(
                    self.mem,
                    self.user_root(),
                    self.user_space.page_table.l1s@,
                    self.user_space.page_table.l2s@,
                ));
            }
        }
        match translated_byte_buffer(&self.mem, token, start, size) {
            Ok(buf) => {
                proof {
                    vstd::arithmetic::div_mod::lemma_div_is_ordered(
                        start as int,
                        (start + size - 1) as int,
                        PAGE_SIZE as int,
                    );
                    vstd::arithmetic::div_mod::lemma_fundamental_div_mod(
                        start as int,
                        PAGE_SIZE as int,
                    );
                    assert((start + size - 1) as int / (PAGE_SIZE as int) == start as int / (
                    PAGE_SIZE as int)) by {
                        vstd::arithmetic::div_mod::lemma_fundamental_div_mod_converse_div(
                            (start + size - 1) as int,
                            PAGE_SIZE as int,
                            start as int / (PAGE_SIZE as int),
                            start as int % (PAGE_SIZE as int) + size - 1,
                        );
                    }
                    assert(buf.segs@.len() == 1);
                }
                let seg = buf.segs[0];
                Some((seg.ppn, seg.off))
            },
            Err(_) => {
                proof {
                    vstd::arithmetic::div_mod::lemma_div_is_ordered(
                        start as int,
                        (start + size - 1) as int,
                        PAGE_SIZE as int,
                    );
                    vstd::arithmetic::div_mod::lemma_fundamental_div_mod(
                        start as int,
                        PAGE_SIZE as int,
                    );
                    assert((start + size - 1) as int / (PAGE_SIZE as int) == start as int / (
                    PAGE_SIZE as int)) by {
                        vstd::arithmetic::div_mod::lemma_fundamental_div_mod_converse_div(
                            (start + size - 1) as int,
                            PAGE_SIZE as int,
                            start as int / (PAGE_SIZE as int),
                            start as int % (PAGE_SIZE as int) + size - 1,
                        );
                    }
                }
                None
            },
        }
    }

    /// Every frame of the kernel's space is a live allocation.
    proof fn lemma_kernel_owned_allocated(self, x: int)
        requires
            self.kernel_space.inv(self.mem, self.fa),
            self.kernel_space.owned_frame(x),
        ensures
            0 <= x <= usize::MAX,
            self.fa.allocated(x as usize),
    {
        if self.kernel_space.page_table.nodes().contains(x) {
            let q = x as usize;
            assert(self.kernel_space.page_table.frames@.contains(q));
        } else {
            let (i, k) = choose|i: int, k: int|
                0 <= i < self.kernel_space.areas@.len() && 0 <= k
                    < self.kernel_space.areas@[i].frames@.len() && (
                #[trigger] self.kernel_space.areas@[i].frames@[k]) as int == x;
        }
    }

    /// Map a fresh anonymous region into the current process's space; the
    /// kernel's space, the descriptor table and the files are untouched.
    /// Fails exactly as the space's own region creation does.
    #[verifier::rlimit(100)]
    #[verifier::spinoff_prover]
    pub fn mmap(&mut self, start: usize, len: usize, perm: u8) -> (r: Result<(), MmError>)
        requires
            old(self).inv(),
            perm % 2 == 0,
            perm < 32,
        ensures
            final (self).inv(),
            final (self).fd_table@ == old(self).fd_table@,
            final (self).inodes@ == old(self).inodes@,
            final (self).kernel_space == old(self).kernel_space,
            final (self).user_root() == old(self).user_root(),
            r == Err::<(), MmError>(MmError::Misaligned) <==> MemorySet::spec_misaligned(
                start as int,
                len as int,
            ),
            ({
                let (sv, ev) = MemorySet::spec_range_vpns(start as int, len as int);
                &&& (r == Err::<(), MmError>(MmError::Overlap) <==> (!MemorySet::spec_misaligned(
                    start as int,
                    len as int,
                ) && (exists|i: int|
                    0 <= i < old(self).user_space.areas@.len() && sv
                        < old(self).user_space.areas@[i].end && (
                    #[trigger] old(self).user_space.areas@[i]).start < ev)))
                &&& (r == Err::<(), MmError>(MmError::OutOfMemory) <==> (
                !MemorySet::spec_misaligned(start as int, len as int) && !(exists|i: int|
                    0 <= i < old(self).user_space.areas@.len() && sv
                        < old(self).user_space.areas@[i].end && (
                    #[trigger] old(self).user_space.areas@[i]).start < ev) && old(
                    self,
                ).fa.free_count() < 3 * (ev - sv)))
                &&& (r is Ok ==> final (self).user_space.regions() =~= old(
                    self,
                ).user_space.regions().push((sv as usize, ev as usize, perm)))
            }),
            r is Err ==> final (self).mem.pages@ == old(self).mem.pages@ && final (
            self).user_space.areas@ == old(self).user_space.areas@,
    {
        let ghost mem0 = self.mem;
        let ghost fa0 = self.fa;
        let ghost us0 = self.user_space;
        let r = self.user_space.mmap(&mut self.mem, &mut self.fa, start, len, perm);
        proof {
            // the kernel's frames are disjoint from everything the call
            // touched: its own old nodes and freshly allocated frames
            assert forall|x: int| #[trigger]
                self.kernel_space.owned_frame(x) implies self.mem.pages@[x] == mem0.pages@[x] && 0
                <= x <= usize::MAX && self.fa.allocated(x as usize) by {
                old(self).lemma_kernel_owned_allocated(x);
                assert(!us0.owned_frame(x));
                if r is Ok {
                    if self.mem.pages@[x] != mem0.pages@[x] {
                        assert(us0.page_table.nodes().contains(x) || !fa0.allocated(x as usize));
                    }
                }
            }
            assert forall|p: int| 0 <= p < fa0.spec_base() implies self.mem.pages@[p]
                == mem0.pages@[p] by {
                if r is Ok && self.mem.pages@[p] != mem0.pages@[p] {
                    if us0.page_table.nodes().contains(p) {
                        let q = p as usize;
                        assert(us0.page_table.frames@.contains(q));
                        assert(fa0.allocated(q));
                    }
                }
            }
            lemma_inv_owned_preserved(self.kernel_space, mem0, self.mem, fa0, self.fa);
            assert forall|x: int| #[trigger]
                self.kernel_space.owned_frame(x) implies !self.user_space.owned_frame(x) by {
                old(self).lemma_kernel_owned_allocated(x);
                assert(!us0.owned_frame(x));
                if self.user_space.owned_frame(x) {
                    if self.user_space.page_table.nodes().contains(x) {
                        assert(us0.page_table.nodes().contains(x) || !fa0.allocated(x as usize));
                    } else {
                        let (i, k) = choose|i: int, k: int|
                            0 <= i < self.user_space.areas@.len() && 0 <= k
                                < self.user_space.areas@[i].frames@.len() && (
                            #[trigger] self.user_space.areas@[i].frames@[k]) as int == x;
                        if r is Ok && i == self.user_space.areas@.len() - 1 {
                            assert(!fa0.allocated(self.user_space.areas@.last().frames@[k]));
                        } else {
                            assert(self.user_space.areas@[i] == us0.areas@[i]);
                            assert(us0.owned_frame(x));
                        }
                    }
                }
            }
        }
        r
    }

    /// Remove the region of the current process's space that exactly
    /// matches `[start, start + len)`, returning its frames to the pool;
    /// the kernel's space, the descriptor table and the files are
    /// untouched. Fails exactly as the space's own removal does.
    #[verifier::rlimit(100)]
    #[verifier::spinoff_prover]
    pub fn munmap(&mut self, start: usize, len: usize) -> (r: Result<(), MmError>)
        requires
            old(self).inv(),
        ensures
            final (self).inv(),
            final (self).fd_table@ == old(self).fd_table@,
            final (self).inodes@ == old(self).inodes@,
            final (self).kernel_space == old(self).kernel_space,
            final (self).user_root() == old(self).user_root(),
            r is Err ==> r == Err::<(), MmError>(MmError::Misaligned) || r == Err::<(), MmError>(
                MmError::NoSuchMapping,
            ),
            r == Err::<(), MmError>(MmError::Misaligned) <==> MemorySet::spec_misaligned(
                start as int,
                len as int,
            ),
            ({
                let (sv, ev) = MemorySet::spec_range_vpns(start as int, len as int);
                &&& (r == Err::<(), MmError>(MmError::NoSuchMapping) <==> (
                !MemorySet::spec_misaligned(start as int, len as int) && !(exists|i: int|
                    0 <= i < old(self).user_space.areas@.len() && (#[trigger] old(
                        self,
                    ).user_space.areas@[i]).start == sv && old(self).user_space.areas@[i].end
                        == ev)))
                &&& (r is Ok ==> (forall|i: int|
                    0 <= i < old(self).user_space.areas@.len() && (#[trigger] old(
                        self,
                    ).user_space.areas@[i]).start == sv && old(self).user_space.areas@[i].end == ev
                        ==> final (self).user_space.areas@ == old(self).user_space.areas@.remove(
                        i,
                    ) && final (self).fa.free_count() == old(self).fa.free_count() + old(
                        self,
                    ).user_space.areas@[i].frames@.len()))
                &&& (r is Ok ==> forall|w: int|
                    sv <= w < ev ==> final (self).user_space.spec_translate(
                        final (self).mem,
                        w,
                    ) is None)
            }),
            r is Err ==> final (self).mem.pages@ == old(self).mem.pages@ && final (
            self).user_space.areas@ == old(self).user_space.areas@,
    {
        let ghost mem0 = self.mem;
        let ghost fa0 = self.fa;
        let ghost us0 = self.user_space;
        let r = self.user_space.munmap(&mut self.mem, &mut self.fa, start, len);
        proof {
            assert forall|x: int| #[trigger]
                self.kernel_space.owned_frame(x) implies self.mem.pages@[x] == mem0.pages@[x] && 0
                <= x <= usize::MAX && self.fa.allocated(x as usize) by {
                old(self).lemma_kernel_owned_allocated(x);
                assert(!us0.owned_frame(x));
                if r is Ok {
                    if self.mem.pages@[x] != mem0.pages@[x] {
                        assert(us0.page_table.nodes().contains(x));
                    }
                    if !self.fa.allocated(x as usize) {
                        assert(us0.owned_frame(x));
                    }
                }
            }
            assert forall|p: int| 0 <= p < fa0.spec_base() implies self.mem.pages@[p]
                == mem0.pages@[p] by {
                if r is Ok && self.mem.pages@[p] != mem0.pages@[p] {
                    assert(us0.page_table.nodes().contains(p));
                    let q = p as usize;
                    assert(us0.page_table.frames@.contains(q));
                    assert(fa0.allocated(q));
                }
            }
            lemma_inv_owned_preserved(self.kernel_space, mem0, self.mem, fa0, self.fa);
            assert forall|x: int| #[trigger]
                self.kernel_space.owned_frame(x) implies !self.user_space.owned_frame(x) by {
                assert(!us0.owned_frame(x));
                if self.user_space.owned_frame(x) {
                    if self.user_space.page_table.nodes().contains(x) {
                        assert(us0.page_table.nodes().contains(x));
                    } else {
                        let (i, k) = choose|i: int, k: int|
                            0 <= i < self.user_space.areas@.len() && 0 <= k
                                < self.user_space.areas@[i].frames@.len() && (
                            #[trigger] self.user_space.areas@[i].frames@[k]) as int == x;
                        if r is Ok {
                            // every remaining area is one of the old areas
                            assert(us0.owned_frame(x)) by {
                                assert(exists|i0: int|
                                    0 <= i0 < us0.areas@.len() && us0.areas@[i0]
                                        == self.user_space.areas@[i]);
                                let i0 = choose|i0: int|
                                    0 <= i0 < us0.areas@.len() && us0.areas@[i0]
                                        == self.user_space.areas@[i];
                                assert(us0.areas@[i0].frames@[k] as int == x);
                            }
                        } else {
                            assert(us0.owned_frame(x));
                        }
                    }
                }
            }
        }
        r
    }

    /// Write `len` bytes from the user buffer at `buf` to the open file
    /// `fd`: the translated user bytes are appended to the file's inode.
    /// Returns `len`, or -1 when the descriptor is out of range or closed,
    /// the file is not writable, the length does not fit the result type,
    /// or any page of the buffer is unmapped.
    pub fn sys_write(&mut self, fd: usize, buf: usize, len: usize) -> (r: isize)
        requires
            old(self).inv(),
        ensures
            final (self).inv(),
            final (self).mem.pages@ == old(self).mem.pages@,
            final (self).fd_table@ == old(self).fd_table@,
            final (self).user_space == old(self).user_space,
            r == -1 ==> final (self).inodes@ == old(self).inodes@,
            r == -1 <==> !(fd < old(self).fd_table@.len() && old(self).fd_table@[fd as int] is Some
                && old(self).fd_table@[fd as int]->0.writable && len <= isize::MAX && buf + len
                <= usize::MAX && user_range_bytes(
                old(self).mem,
                old(self).user_root(),
                buf as int,
                len as int,
            ) is Some),
            r != -1 ==> {
                let ino = old(self).fd_table@[fd as int]->0.ino as int;
                &&& r == len
                &&& final (self).inodes@.len() == old(self).inodes@.len()
                &&& final (self).inodes@[ino].data@ == old(self).inodes@[ino].data@
                    + user_range_bytes(old(self).mem, old(self).user_root(), buf as int, len as int)->0
                &&& (forall|j: int|
                    0 <= j < old(self).inodes@.len() && j != ino ==> final (self).inodes@[j].data@
                        == old(self).inodes@[j].data@)
            },
    {
        if fd >= self.fd_table.len() {
            return -1;
        }
        let (writable, ino) = match &self.fd_table[fd] {
            Some(f) => (f.writable, f.ino),
            None => {
                return -1;
            },
        };
        if !writable {
            return -1;
        }
        if len > isize::MAX as usize {
            return -1;
        }
        if len > usize::MAX - buf {
            return -1;
        }
        let token = self.current_user_token();
        proof {
            assert(pt_wf_ex(self.mem, self.user_root())) by {
                assert(crate::page_table::pt_wf(
                    self.mem,
                    self.user_root(),
                    self.user_space.page_table.l1s@,
                    self.user_space.page_table.l2s@,
                ));
            }
        }
        let ubuf = match translated_byte_buffer(&self.mem, token, buf, len) {
            Ok(b) => b,
            Err(_) => {
                proof {
                    if len > 0 {
                        let fp = buf as int / (PAGE_SIZE as int);
                        let lp = (buf + len - 1) as int / (PAGE_SIZE as int);
                        let v = choose|v: int|
                            fp <= v <= lp && mapped_data_page(
                                self.mem,
                                self.user_root(),
                                v,
                            ) is None;
                        assert(user_range_bytes(
                            self.mem,
                            self.user_root(),
                            buf as int,
                            len as int,
                        ) is None);
                    }
                }
                return -1;
            },
        };
        let bytes = match read_buffer(&self.mem, &ubuf) {
            Ok(b) => b,
            Err(_) => {
                proof {
                    assert(false);
                }
                return -1;
            },
        };
        proof {
            if len > 0 {
                lemma_concat_is_user_bytes(
                    self.mem,
                    self.user_root(),
                    buf as int,
                    len as int,
                    ubuf.segs@,
                    bytes@,
                );
            } else {
                assert(bytes@ =~= Seq::<u8>::empty());
                assert(user_range_bytes(self.mem, self.user_root(), buf as int, len as int)
                    == Some(Seq::<u8>::empty()));
            }
        }
        let mut bytes = bytes;
        let inode = &mut self.inodes[ino];
        inode.data.append(&mut bytes);
        len as isize
    }

    /// Read up to `len` bytes from the open file `fd` into the user buffer
    /// at `buf`, advancing the file's cursor: after a successful call the
    /// translated user range of that length holds exactly the file bytes
    /// from the old cursor, and nothing else in memory changed. Returns
    /// the number of bytes read (what remained of the file, at most
    /// `len`), or -1 — changing nothing — when the descriptor is out of
    /// range or closed, the file is not readable, the length does not fit
    /// the result type, or any page of the written range is unmapped.
    #[verifier::rlimit(100)]
    #[verifier::spinoff_prover]
    pub fn sys_read(&mut self, fd: usize, buf: usize, len: usize) -> (r: isize)
        requires
            old(self).inv(),
        ensures
            final (self).inv(),
            final (self).user_space == old(self).user_space,
            final (self).kernel_space == old(self).kernel_space,
            final (self).inodes@ == old(self).inodes@,
            r == -1 ==> final (self).mem.pages@ == old(self).mem.pages@ && final (self).fd_table@
                == old(self).fd_table@,
            r == -1 <==> !(fd < old(self).fd_table@.len() && old(self).fd_table@[fd as int] is Some
                && old(self).fd_table@[fd as int]->0.readable && len <= isize::MAX && buf + len
                <= usize::MAX && user_range_bytes(
                old(self).mem,
                old(self).user_root(),
                buf as int,
                Self::spec_read_count(*old(self), fd as int, len as int),
            ) is Some),
            r != -1 ==> {
                let f = old(self).fd_table@[fd as int]->0;
                let n = Self::spec_read_count(*old(self), fd as int, len as int);
                &&& r == n
                &&& final (self).fd_table@[fd as int]->0.pos == f.pos + n
                &&& final (self).fd_table@[fd as int]->0.ino == f.ino
                &&& final (self).fd_table@[fd as int]->0.readable == f.readable
                &&& final (self).fd_table@[fd as int]->0.writable == f.writable
                &&& (forall|j: int|
                    0 <= j < old(self).fd_table@.len() && j != fd ==> final (self).fd_table@[j]
                        == old(self).fd_table@[j])
                &&& final (self).fd_table@.len() == old(self).fd_table@.len()
                // the translated range now holds the file bytes [pos, pos+n)
                &&& user_range_bytes(final (self).mem, old(self).user_root(), buf as int, n)
                    == Some(
                    if n == 0 {
                        Seq::<u8>::empty()
                    } else {
                        old(self).inodes@[f.ino as int].data@.subrange(f.pos as int, f.pos + n)
                    },
                )
                // nothing outside the written data pages changed
                &&& (n == 0 ==> final (self).mem.pages@ == old(self).mem.pages@)
                &&& (forall|q: int| #![trigger final(self).mem.pages@[q]]
                    0 <= q < old(self).mem.spec_len() && final (self).mem.pages@[q] != old(
                        self,
                    ).mem.pages@[q] ==> old(self).mem.is_data(q) && final (self).mem.is_data(q)
                        && (exists|v: int|
                        buf as int / (PAGE_SIZE as int) <= v <= (buf + n - 1) as int / (
                        PAGE_SIZE as int) && mapped_data_page(
                            old(self).mem,
                            old(self).user_root(),
                            v,
                        ) == Some(q)))
            },
    {
        if fd >= self.fd_table.len() {
            return -1;
        }
        let (readable, writable, ino, pos) = match &self.fd_table[fd] {
            Some(f) => (f.readable, f.writable, f.ino, f.pos),
            None => {
                return -1;
            },
        };
        if !readable {
            return -1;
        }
        if len > isize::MAX as usize {
            return -1;
        }
        if len > usize::MAX - buf {
            return -1;
        }
        let size = self.inodes[ino].data.len();
        let n = if pos >= size {
            0
        } else if size - pos <= len {
            size - pos
        } else {
            len
        };
        let token = self.current_user_token();
        let ghost root = self.user_root();
        let ghost mem0 = self.mem;
        proof {
            assert(pt_wf_ex(self.mem, root)) by {
                assert(crate::page_table::pt_wf(
                    self.mem,
                    root,
                    self.user_space.page_table.l1s@,
                    self.user_space.page_table.l2s@,
                ));
            }
        }
        let ubuf = match translated_byte_buffer(&self.mem, token, buf, n) {
            Ok(b) => b,
            Err(_) => {
                proof {
                    if n > 0 {
                        let fp = buf as int / (PAGE_SIZE as int);
                        let lp = (buf + n - 1) as int / (PAGE_SIZE as int);
                        let v = choose|v: int|
                            fp <= v <= lp && mapped_data_page(self.mem, root, v) is None;
                        assert(user_range_bytes(self.mem, root, buf as int, n as int) is None);
                    }
                }
                return -1;
            },
        };
        // copy the file slice out and scatter it across the views
        let mut chunk: Vec<u8> = Vec::new();
        let mut t: usize = 0;
        while t < n
            invariant
                0 <= t <= n,
                n > 0 ==> pos + n <= self.inodes@[ino as int].data@.len() && pos + n
                    <= usize::MAX,
                ino < self.inodes@.len(),
                chunk@.len() == t,
                forall|t2: int|
                    0 <= t2 < t ==> chunk@[t2] == self.inodes@[ino as int].data@[pos + t2],
            decreases n - t,
        {
            chunk.push(self.inodes[ino].data[pos + t]);
            t = t + 1;
        }
        proof {
            // consecutive virtual pages of one space sit on distinct frames,
            // so the scattered write lands exactly
            if n > 0 {
                let fp = buf as int / (PAGE_SIZE as int);
                assert forall|i1: int, i2: int|
                    0 <= i1 < ubuf.segs@.len() && 0 <= i2 < ubuf.segs@.len() && i1 != i2 implies (
                #[trigger] ubuf.segs@[i1]).ppn != (#[trigger] ubuf.segs@[i2]).ppn by {
                    assert(mapped_data_page(self.mem, root, fp + i1) == Some(
                        ubuf.segs@[i1].ppn as int,
                    ));
                    assert(mapped_data_page(self.mem, root, fp + i2) == Some(
                        ubuf.segs@[i2].ppn as int,
                    ));
                    crate::memory_set::lemma_distinct_mapped_ppns(
                        self.user_space,
                        self.mem,
                        self.fa,
                        fp + i1,
                        fp + i2,
                    );
                }
            }
        }
        let wres = write_buffer(&mut self.mem, &ubuf, &chunk);
        proof {
            if n > 0 {
                assert(wres is Ok) by {
                    assert(crate::translate::total_len(ubuf.segs@) == n);
                }
            } else {
                assert(ubuf.segs@.len() == 0);
                assert(crate::translate::total_len(ubuf.segs@) == 0);
                assert(wres is Ok);
                assert forall|q: int|
                    0 <= q < mem0.spec_len() implies self.mem.pages@[q] == mem0.pages@[q] by {
                    if self.mem.pages@[q] != mem0.pages@[q] {
                        let i = choose|i: int|
                            0 <= i < ubuf.segs@.len() && (#[trigger] ubuf.segs@[i]).ppn == q;
                    }
                }
                assert(self.mem.pages@ =~= mem0.pages@);
            }
            lemma_inv_data_write(self.kernel_space, mem0, self.mem, self.fa);
            lemma_inv_data_write(self.user_space, mem0, self.mem, self.fa);
            if n > 0 {
                let fp = buf as int / (PAGE_SIZE as int);
                let lp = (buf + n - 1) as int / (PAGE_SIZE as int);
                // the segment facts carry over to the written memory
                assert forall|i: int| 0 <= i < ubuf.segs@.len() implies mapped_data_page(
                    self.mem,
                    root,
                    fp + i,
                ) == Some((#[trigger] ubuf.segs@[i]).ppn as int) by {
                    assert(mapped_data_page(mem0, root, fp + i) == Some(ubuf.segs@[i].ppn as int));
                    assert(crate::page_table::translate_spec(self.mem, root, fp + i)
                        == crate::page_table::translate_spec(mem0, root, fp + i));
                    assert(self.mem.is_data(ubuf.segs@[i].ppn as int) == mem0.is_data(
                        ubuf.segs@[i].ppn as int,
                    ));
                }
                assert forall|i: int, j: int|
                    #![trigger self.mem.byte(ubuf.segs@[i].ppn as int, ubuf.segs@[i].off + j)]
                    0 <= i < ubuf.segs@.len() && 0 <= j < ubuf.segs@[i].len implies chunk@[
                    crate::translate::total_len(ubuf.segs@.subrange(0, i)) + j] == self.mem.byte(
                    ubuf.segs@[i].ppn as int,
                    ubuf.segs@[i].off + j,
                ) by {}
                lemma_concat_is_user_bytes(
                    self.mem,
                    root,
                    buf as int,
                    n as int,
                    ubuf.segs@,
                    chunk@,
                );
                assert(chunk@.len() == n);
                assert(pos + n <= self.inodes@[ino as int].data@.len());
                assert forall|t2: int|
                    0 <= t2 < n implies chunk@[t2] == self.inodes@[ino as int].data@[pos + t2] by {}
                assert(chunk@ =~= self.inodes@[ino as int].data@.subrange(
                    pos as int,
                    pos + n,
                ));
            } else {
                assert(user_range_bytes(self.mem, root, buf as int, 0) == Some(Seq::<u8>::empty()));
            }
        }
        let cell = &mut self.fd_table[fd];
        *cell = Some(OpenFile { readable, writable, ino, pos: pos + n });
        n as isize
    }

    /// How many bytes a read of `len` from descriptor `fd` returns: what
    /// remains of the file past the cursor, capped at `len`.
    pub open spec fn spec_read_count(self, fd: int, len: int) -> int {
        let f = self.fd_table@[fd]->0;
        let sz = self.inodes@[f.ino as int].data@.len();
        if f.pos as int >= sz {
            0int
        } else if sz - f.pos <= len {
            sz - f.pos
        } else {
            len
        }
    }

    /// Close descriptor `fd`. Returns 0, or -1 when the descriptor is out
    /// of range or already closed; the slot is cleared and nothing else
    /// changes.
    pub fn sys_close(&mut self, fd: usize) -> (r: isize)
        requires
            old(self).inv(),
        ensures
            final (self).inv(),
            final (self).mem.pages@ == old(self).mem.pages@,
            final (self).inodes@ == old(self).inodes@,
            r == -1 <==> !(fd < old(self).fd_table@.len() && old(self).fd_table@[fd as int]
                is Some),
            r != -1 ==> r == 0 && final (self).fd_table@ == old(self).fd_table@.update(
                fd as int,
                None,
            ),
            r == -1 ==> final (self).fd_table@ == old(self).fd_table@,
    {
        if fd >= self.fd_table.len() {
            return -1;
        }
        let cell = &mut self.fd_table[fd];
        match cell {
            Some(_) => {
                *cell = None;
                0
            },
            None => -1,
        }
    }

    /// Open a fresh file backed by a new empty inode, with the given
    /// access rights, in the lowest free descriptor slot (or a new one).
    pub fn open_new(&mut self, readable: bool, writable: bool) -> (fd: usize)
        requires
            old(self).inv(),
        ensures
            final (self).inv(),
            final (self).mem.pages@ == old(self).mem.pages@,
            final (self).inodes@.len() == old(self).inodes@.len() + 1,
            forall|j: int|
                0 <= j < old(self).inodes@.len() ==> final (self).inodes@[j] == old(
                    self,
                ).inodes@[j],
            fd < final (self).fd_table@.len(),
            final (self).fd_table@[fd as int] == Some(
                OpenFile {
                    readable,
                    writable,
                    ino: (final (self).inodes@.len() - 1) as usize,
                    pos: 0,
                },
            ),
            final (self).inodes@.last().data@ == Seq::<u8>::empty(),
            // the lowest free slot is chosen; every other slot is untouched
            forall|j: int|
                0 <= j < old(self).fd_table@.len() && j != fd ==> final (self).fd_table@[j] == old(
                    self,
                ).fd_table@[j],
            forall|j: int| 0 <= j < fd ==> (#[trigger] old(self).fd_table@[j]) is Some,
            fd < old(self).fd_table@.len() ==> old(self).fd_table@[fd as int] is None && final (
            self).fd_table@.len() == old(self).fd_table@.len(),
            fd == old(self).fd_table@.len() ==> final (self).fd_table@.len() == old(
                self,
            ).fd_table@.len() + 1,
    {
        let ino = self.inodes.len();
        self.inodes.push(Inode { data: Vec::new() });
        let mut fd: usize = 0;
        let f = OpenFile { readable, writable, ino, pos: 0 };
        while fd < self.fd_table.len()
            invariant
                0 <= fd <= self.fd_table@.len(),
                forall|j: int| 0 <= j < fd ==> (#[trigger] self.fd_table@[j]) is Some,
                self.kernel_space.inv(self.mem, self.fa),
                self.user_space.inv(self.mem, self.fa),
                forall|x: int|
                    #[trigger] self.kernel_space.owned_frame(x) ==> !self.user_space.owned_frame(
                        x,
                    ),
                self.mem.pages@ == old(self).mem.pages@,
                self.fd_table@ == old(self).fd_table@,
                self.inodes@.len() == old(self).inodes@.len() + 1,
                forall|j: int|
                    0 <= j < old(self).inodes@.len() ==> self.inodes@[j] == old(self).inodes@[j],
                self.inodes@.last().data@ == Seq::<u8>::empty(),
                f == (OpenFile {
                    readable,
                    writable,
                    ino: (self.inodes@.len() - 1) as usize,
                    pos: 0,
                }),
                forall|i: int|
                    0 <= i < self.fd_table@.len() && (#[trigger] self.fd_table@[i]) is Some
                        ==> self.fd_table@[i]->0.ino < self.inodes@.len(),
            decreases self.fd_table@.len() - fd,
        {
            let free = match &self.fd_table[fd] {
                None => true,
                Some(_) => false,
            };
            if free {
                let cell = &mut self.fd_table[fd];
                *cell = Some(f);
                return fd;
            }
            fd = fd + 1;
        }
        self.fd_table.push(Some(f));
        fd
    }
}

} // verus!
