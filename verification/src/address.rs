//! Typed physical/virtual addresses and page numbers, with the alignment
//! and conversion arithmetic of the SV39 scheme (4 KiB pages, 27-bit
//! virtual page numbers, 44-bit physical page numbers).

use vstd::prelude::*;

verus! {

/// Bytes per page.
pub const PAGE_SIZE: usize = 4096;
/// log2 of the page size.
pub const PAGE_SIZE_BITS: usize = 12;
/// One past the largest SV39 virtual page number (2^27).
pub const VPN_LIMIT: usize = 0x8000000;
/// One past the largest SV39 physical page number (2^44).
pub const PPN_LIMIT: u64 = 0x100000000000;

/// A virtual byte address.
#[derive(Clone, Copy, PartialEq, Eq, Structural)]
pub struct VirtAddr(pub usize);

/// A physical byte address.
#[derive(Clone, Copy, PartialEq, Eq, Structural)]
pub struct PhysAddr(pub usize);

/// A virtual page number: a virtual address shifted right by the page-offset width.
#[derive(Clone, Copy, PartialEq, Eq, Structural)]
pub struct VirtPageNum(pub usize);

/// A physical page number.
#[derive(Clone, Copy, PartialEq, Eq, Structural)]
pub struct PhysPageNum(pub usize);

impl VirtAddr {
    /// The page containing this address.
    pub fn floor(self) -> (r: VirtPageNum)
        ensures
            r.0 == self.0 / PAGE_SIZE,
    {
        VirtPageNum(self.0 / PAGE_SIZE)
    }

    /// The first page boundary at or above this address, as a page number.
    pub fn ceil(self) -> (r: VirtPageNum)
        ensures
            r.0 == self.0 / PAGE_SIZE + (if self.0 % PAGE_SIZE == 0 { 0int } else { 1int }),
            r.0 == (self.0 + PAGE_SIZE - 1) as int / PAGE_SIZE as int,
    {
        proof {
            lemma_ceil_form(self.0 as int);
        }
        if self.0 % PAGE_SIZE == 0 {
            VirtPageNum(self.0 / PAGE_SIZE)
        } else {
            VirtPageNum(self.0 / PAGE_SIZE + 1)
        }
    }

    /// The offset of this address within its page.
    pub fn page_offset(self) -> (r: usize)
        ensures
            r == self.0 % PAGE_SIZE,
    {
        self.0 % PAGE_SIZE
    }

    /// Whether this address sits exactly on a page boundary.
    pub fn aligned(self) -> (r: bool)
        ensures
            r == (self.0 % PAGE_SIZE == 0),
    {
        self.0 % PAGE_SIZE == 0
    }
}

/// `(a + PAGE_SIZE - 1) / PAGE_SIZE` rounds up to the next page count.
proof fn lemma_ceil_form(a: int)
    requires
        a >= 0,
    ensures
        (a + PAGE_SIZE - 1) / (PAGE_SIZE as int) == a / (PAGE_SIZE as int) + (
        if a % (PAGE_SIZE as int) == 0 {
            0int
        } else {
            1int
        }),
{
    let p = PAGE_SIZE as int;
    vstd::arithmetic::div_mod::lemma_fundamental_div_mod(a, p);
    let q = a / p;
    let r = a % p;
    vstd::arithmetic::div_mod::lemma_mod_bound(a, p);
    if r == 0 {
        assert((a + p - 1) / p == (q * p + (p - 1)) / p);
        vstd::arithmetic::div_mod::lemma_div_multiples_vanish_fancy(q, p - 1, p);
    } else {
        assert(a + p - 1 == (q + 1) * p + (r - 1)) by (nonlinear_arith)
            requires
                a == q * p + r,
        ;
        vstd::arithmetic::div_mod::lemma_div_multiples_vanish_fancy(q + 1, r - 1, p);
    }
}

impl PhysAddr {
    /// The physical page containing this address.
    pub fn floor(self) -> (r: PhysPageNum)
        ensures
            r.0 == self.0 / PAGE_SIZE,
    {
        PhysPageNum(self.0 / PAGE_SIZE)
    }

    /// The offset of this address within its page.
    pub fn page_offset(self) -> (r: usize)
        ensures
            r == self.0 % PAGE_SIZE,
    {
        self.0 % PAGE_SIZE
    }
}

impl VirtPageNum {
    /// The first byte address of this page.
    pub fn addr(self) -> (r: VirtAddr)
        requires
            self.0 < VPN_LIMIT,
            self.0 * PAGE_SIZE <= usize::MAX,
        ensures
            r.0 == self.0 * PAGE_SIZE,
    {
        VirtAddr(self.0 * PAGE_SIZE)
    }

    /// Advance to the next consecutive page number.
    pub fn step(&mut self)
        requires
            old(self).0 < VPN_LIMIT,
        ensures
            final (self).0 == old(self).0 + 1,
    {
        self.0 = self.0 + 1;
    }
}

impl PhysPageNum {
    /// The first byte address of this page.
    pub fn addr(self) -> (r: PhysAddr)
        requires
            self.0 * PAGE_SIZE <= usize::MAX,
        ensures
            r.0 == self.0 * PAGE_SIZE,
    {
        PhysAddr(self.0 * PAGE_SIZE)
    }
}

/// A finite range of consecutive virtual page numbers, lower bound
/// inclusive, upper bound exclusive; drives the per-page loops of the
/// mapping and copy operations.
#[derive(Clone, Copy, PartialEq, Eq, Structural)]
pub struct VPNRange {
    pub l: usize,
    pub r: usize,
}

impl VPNRange {
    /// Whether `vpn` lies inside the range.
    pub open spec fn spec_contains(self, vpn: int) -> bool {
        self.l <= vpn < self.r
    }

    /// Whether two ranges share at least one page.
    pub open spec fn spec_overlaps(self, other: VPNRange) -> bool {
        exists|v: int| self.spec_contains(v) && other.spec_contains(v)
    }

    /// Number of pages in the range.
    pub open spec fn spec_len(self) -> int {
        if self.l <= self.r {
            self.r - self.l
        } else {
            0
        }
    }

    pub fn new(l: usize, r: usize) -> (rng: VPNRange)
        ensures
            rng.l == l && rng.r == r,
    {
        VPNRange { l, r }
    }

    pub fn contains(self, vpn: usize) -> (b: bool)
        ensures
            b == self.spec_contains(vpn as int),
    {
        self.l <= vpn && vpn < self.r
    }

    /// Two non-empty ranges overlap exactly when each starts below the
    /// other's end.
    pub fn overlaps(self, other: VPNRange) -> (b: bool)
        ensures
            b == self.spec_overlaps(other),
    {
        let b = self.l < self.r && other.l < other.r && self.l < other.r && other.l < self.r;
        proof {
            if b {
                let w = if self.l >= other.l {
                    self.l as int
                } else {
                    other.l as int
                };
                assert(self.spec_contains(w) && other.spec_contains(w));
            }
        }
        b
    }

    pub fn len(self) -> (n: usize)
        ensures
            n == self.spec_len(),
    {
        if self.l <= self.r {
            self.r - self.l
        } else {
            0
        }
    }
}

} // verus!
