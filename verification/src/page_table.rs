//! The SV39 three-level radix page table, stored in an explicit model of
//! physical memory.
//!
//! `PhysMem` stands for the machine's physical page frames: each frame is
//! either a page-table node of 512 entries or a plain 4 KiB data page.
//! `PageTable` owns a root frame and the frames of its intermediate nodes
//! and realizes a partial map from virtual page numbers to leaf entries,
//! written `translate_spec` below. A non-owning view of a foreign table can
//! be rebuilt from an activation token; it only reads.

use crate::MmError;
use crate::address::{PAGE_SIZE, PPN_LIMIT, VPN_LIMIT};
use crate::frame_allocator::FrameAllocator;
use vstd::arithmetic::div_mod::{
    lemma_breakdown,
    lemma_fundamental_div_mod,
    lemma_fundamental_div_mod_converse_div,
    lemma_fundamental_div_mod_converse_mod,
    lemma_small_mod,
};
use vstd::prelude::*;

verus! {

/// Valid bit of a page-table entry.
pub const PTE_V: u8 = 1;

/// Readable bit.
pub const PTE_R: u8 = 2;

/// Writable bit.
pub const PTE_W: u8 = 4;

/// Executable bit.
pub const PTE_X: u8 = 8;

/// User-accessible bit.
pub const PTE_U: u8 = 16;

/// Global bit.
pub const PTE_G: u8 = 32;

/// Accessed bit.
pub const PTE_A: u8 = 64;

/// Dirty bit.
pub const PTE_D: u8 = 128;

/// The SV39 paging-mode selector, already shifted into the top bits of an
/// activation token.
pub const SATP_MODE_SV39: u64 = 0x8000000000000000;

/// Entries per page-table node (the 9-bit index width).
pub const ENTRIES: usize = 512;

/// A page-table entry: a 44-bit physical page number in bits 53..10 and
/// the flag bits {V,R,W,X,U,G,A,D} in bits 7..0.
#[derive(Clone, Copy, PartialEq, Eq, Structural)]
pub struct PageTableEntry {
    pub bits: u64,
}

impl PageTableEntry {
    /// The physical page number field, bits 53..10.
    pub open spec fn spec_ppn(self) -> int {
        (self.bits as int / 1024) % 0x100000000000
    }

    /// The flag bits 7..0.
    pub open spec fn spec_flags(self) -> u8 {
        (self.bits % 256) as u8
    }

    /// The valid bit, bit 0.
    pub open spec fn spec_valid(self) -> bool {
        self.bits % 2 == 1
    }

    /// Build an entry from a page number and flag bits.
    pub fn new(ppn: usize, flags: u8) -> (r: PageTableEntry)
        requires
            ppn < PPN_LIMIT,
        ensures
            r.spec_ppn() == ppn,
            r.spec_flags() == flags,
            r.spec_valid() == (flags % 2 == 1),
            r.bits == ppn * 1024 + flags,
    {
        let bits: u64 = (ppn as u64) * 1024 + (flags as u64);
        proof {
            lemma_pte_fields(ppn as int, flags as int);
        }
        PageTableEntry { bits }
    }

    /// The all-zero entry: invalid, as a freshly zeroed node holds.
    pub fn empty() -> (r: PageTableEntry)
        ensures
            r.bits == 0,
            !r.spec_valid(),
            r.spec_ppn() == 0,
            r.spec_flags() == 0,
    {
        PageTableEntry { bits: 0 }
    }

    /// Extract the physical page number.
    pub fn ppn(&self) -> (r: usize)
        requires
            self.spec_ppn() <= usize::MAX,
        ensures
            r == self.spec_ppn(),
    {
        ((self.bits / 1024) % 0x100000000000u64) as usize
    }

    /// Extract the flag bits.
    pub fn flags(&self) -> (r: u8)
        ensures
            r == self.spec_flags(),
    {
        (self.bits % 256) as u8
    }

    /// Whether the entry is valid.
    pub fn valid(&self) -> (r: bool)
        ensures
            r == self.spec_valid(),
    {
        self.bits % 2 == 1
    }

    /// Whether the entry permits reads (bit 1).
    pub fn readable(&self) -> (r: bool)
        ensures
            r == (self.spec_flags() / 2 % 2 == 1),
    {
        (self.bits % 256) / 2 % 2 == 1
    }

    /// Whether the entry permits writes (bit 2).
    pub fn writable(&self) -> (r: bool)
        ensures
            r == (self.spec_flags() / 4 % 2 == 1),
    {
        (self.bits % 256) / 4 % 2 == 1
    }

    /// Whether the entry permits execution (bit 3).
    pub fn executable(&self) -> (r: bool)
        ensures
            r == (self.spec_flags() / 8 % 2 == 1),
    {
        (self.bits % 256) / 8 % 2 == 1
    }
}

/// Field extraction inverts the arithmetic encoding `ppn * 1024 + flags`.
proof fn lemma_pte_fields(ppn: int, flags: int)
    requires
        0 <= ppn < 0x100000000000,
        0 <= flags < 256,
    ensures
        (ppn * 1024 + flags) / 1024 == ppn,
        (ppn * 1024 + flags) % 256 == flags,
        (ppn * 1024 + flags) % 2 == flags % 2,
        ppn % 0x100000000000 == ppn,
{
    let bits = ppn * 1024 + flags;
    lemma_fundamental_div_mod_converse_div(bits, 1024, ppn, flags);
    assert(ppn * 1024 + flags == (4 * ppn) * 256 + flags) by (nonlinear_arith);
    lemma_fundamental_div_mod_converse_mod(bits, 256, 4 * ppn, flags);
    lemma_fundamental_div_mod(flags, 2);
    assert(ppn * 1024 + flags == (512 * ppn + flags / 2) * 2 + flags % 2) by (nonlinear_arith)
        requires
            flags == 2 * (flags / 2) + flags % 2,
    ;
    lemma_fundamental_div_mod_converse_mod(bits, 2, 512 * ppn + flags / 2, flags % 2);
    lemma_small_mod(ppn as nat, 0x100000000000);
}

/// One physical page frame: either a page-table node or a data page.
pub enum PageKind {
    Table(Vec<PageTableEntry>),
    Data(Vec<u8>),
}

/// The model of physical memory: the frame with physical page number `p`
/// is `pages[p]`. Every read and write of physical memory in the crate
/// goes through this bounds-checked accessor.
pub struct PhysMem {
    pub pages: Vec<PageKind>,
}

impl PhysMem {
    /// Number of physical page frames.
    pub open spec fn spec_len(self) -> int {
        self.pages@.len() as int
    }

    /// A table node holds exactly 512 entries; a data page exactly 4096 bytes.
    pub open spec fn page_kind_wf(k: PageKind) -> bool {
        match k {
            PageKind::Table(t) => t@.len() == 512,
            PageKind::Data(d) => d@.len() == PAGE_SIZE,
        }
    }

    pub open spec fn wf(self) -> bool {
        &&& self.spec_len() <= PPN_LIMIT
        &&& forall|p: int|
            0 <= p < self.spec_len() ==> Self::page_kind_wf(#[trigger] self.pages@[p])
    }

    /// Frame `p` exists and is a page-table node.
    pub open spec fn is_table(self, p: int) -> bool {
        0 <= p < self.spec_len() && self.pages@[p] is Table
    }

    /// Frame `p` exists and is a data page.
    pub open spec fn is_data(self, p: int) -> bool {
        0 <= p < self.spec_len() && self.pages@[p] is Data
    }

    /// Entry `i` of table node `p`.
    pub open spec fn entry(self, p: int, i: int) -> PageTableEntry {
        self.pages@[p]->Table_0@[i]
    }

    /// Byte `i` of data page `p`.
    pub open spec fn byte(self, p: int, i: int) -> u8 {
        self.pages@[p]->Data_0@[i]
    }

    /// `n` frames of zeroed data pages.
    pub fn new(n: usize) -> (m: PhysMem)
        requires
            n <= PPN_LIMIT,
        ensures
            m.wf(),
            m.spec_len() == n,
            forall|p: int| 0 <= p < n ==> m.is_data(p),
            forall|p: int, i: int| 0 <= p < n && 0 <= i < PAGE_SIZE ==> m.byte(p, i) == 0,
    {
        let mut pages: Vec<PageKind> = Vec::new();
        let mut k: usize = 0;
        while k < n
            invariant
                k <= n,
                pages@.len() == k,
                forall|p: int|
                    0 <= p < k ==> (#[trigger] pages@[p]) is Data && pages@[p]->Data_0@.len()
                        == PAGE_SIZE && (forall|i: int|
                        0 <= i < PAGE_SIZE ==> pages@[p]->Data_0@[i] == 0),
            decreases n - k,
        {
            pages.push(PageKind::Data(zero_page()));
            k = k + 1;
        }
        PhysMem { pages }
    }

    pub fn len(&self) -> (n: usize)
        ensures
            n == self.spec_len(),
    {
        self.pages.len()
    }

    /// Whether frame `p` is a page-table node.
    pub fn table_at(&self, p: usize) -> (b: bool)
        ensures
            b == self.is_table(p as int),
    {
        if p >= self.pages.len() {
            return false;
        }
        match &self.pages[p] {
            PageKind::Table(_) => true,
            PageKind::Data(_) => false,
        }
    }

    /// Whether frame `p` is a data page.
    pub fn data_at(&self, p: usize) -> (b: bool)
        ensures
            b == self.is_data(p as int),
    {
        if p >= self.pages.len() {
            return false;
        }
        match &self.pages[p] {
            PageKind::Table(_) => false,
            PageKind::Data(_) => true,
        }
    }

    /// Read entry `i` of table node `p`.
    pub fn read_entry(&self, p: usize, i: usize) -> (r: PageTableEntry)
        requires
            self.wf(),
            self.is_table(p as int),
            i < 512,
        ensures
            r == self.entry(p as int, i as int),
    {
        match &self.pages[p] {
            PageKind::Table(t) => t[i],
            PageKind::Data(_) => {
                proof {
                    assert(false);
                }
                PageTableEntry::empty()
            },
        }
    }

    /// Write entry `i` of table node `p`; every other frame and every other
    /// entry of `p` keeps its value.
    pub fn write_entry(&mut self, p: usize, i: usize, e: PageTableEntry)
        requires
            old(self).wf(),
            old(self).is_table(p as int),
            i < 512,
        ensures
            final (self).wf(),
            final (self).spec_len() == old(self).spec_len(),
            forall|q: int|
                0 <= q < old(self).spec_len() && q != p ==> final (self).pages@[q] == old(
                    self,
                ).pages@[q],
            final (self).is_table(p as int),
            final (self).entry(p as int, i as int) == e,
            forall|j: int|
                0 <= j < 512 && j != i ==> final (self).entry(p as int, j) == old(self).entry(
                    p as int,
                    j,
                ),
    {
        let slot = &mut self.pages[p];
        match slot {
            PageKind::Table(t) => {
                let cell = &mut t[i];
                *cell = e;
            },
            PageKind::Data(_) => {
                proof {
                    assert(false);
                }
            },
        }
    }

    /// Turn frame `p` into a zeroed page-table node (all entries invalid).
    pub fn make_table(&mut self, p: usize)
        requires
            old(self).wf(),
            0 <= p < old(self).spec_len(),
        ensures
            final (self).wf(),
            final (self).spec_len() == old(self).spec_len(),
            forall|q: int|
                0 <= q < old(self).spec_len() && q != p ==> final (self).pages@[q] == old(
                    self,
                ).pages@[q],
            final (self).is_table(p as int),
            forall|j: int| 0 <= j < 512 ==> final (self).entry(p as int, j).bits == 0,
    {
        let mut t: Vec<PageTableEntry> = Vec::new();
        let mut k: usize = 0;
        while k < 512
            invariant
                k <= 512,
                t@.len() == k,
                forall|j: int| 0 <= j < k ==> t@[j].bits == 0,
            decreases 512 - k,
        {
            t.push(PageTableEntry::empty());
            k = k + 1;
        }
        let slot = &mut self.pages[p];
        *slot = PageKind::Table(t);
    }

    /// Turn frame `p` back into a zeroed data page, as a freshly allocated
    /// frame is handed to a region.
    pub fn make_data(&mut self, p: usize)
        requires
            old(self).wf(),
            0 <= p < old(self).spec_len(),
        ensures
            final (self).wf(),
            final (self).spec_len() == old(self).spec_len(),
            forall|q: int|
                0 <= q < old(self).spec_len() && q != p ==> final (self).pages@[q] == old(
                    self,
                ).pages@[q],
            final (self).is_data(p as int),
            forall|i: int| 0 <= i < PAGE_SIZE ==> final (self).byte(p as int, i) == 0,
    {
        let slot = &mut self.pages[p];
        *slot = PageKind::Data(zero_page());
    }

    /// Read byte `i` of data page `p`.
    pub fn read_byte(&self, p: usize, i: usize) -> (r: u8)
        requires
            self.wf(),
            self.is_data(p as int),
            i < PAGE_SIZE,
        ensures
            r == self.byte(p as int, i as int),
    {
        match &self.pages[p] {
            PageKind::Data(d) => d[i],
            PageKind::Table(_) => {
                proof {
                    assert(false);
                }
                0
            },
        }
    }

    /// Write byte `i` of data page `p`; every other frame and every other
    /// byte of `p` keeps its value.
    pub fn write_byte(&mut self, p: usize, i: usize, b: u8)
        requires
            old(self).wf(),
            old(self).is_data(p as int),
            i < PAGE_SIZE,
        ensures
            final (self).wf(),
            final (self).spec_len() == old(self).spec_len(),
            forall|q: int|
                0 <= q < old(self).spec_len() && q != p ==> final (self).pages@[q] == old(
                    self,
                ).pages@[q],
            final (self).is_data(p as int),
            final (self).byte(p as int, i as int) == b,
            forall|j: int|
                0 <= j < PAGE_SIZE && j != i ==> final (self).byte(p as int, j) == old(self).byte(
                    p as int,
                    j,
                ),
    {
        let slot = &mut self.pages[p];
        match slot {
            PageKind::Data(d) => {
                let cell = &mut d[i];
                *cell = b;
            },
            PageKind::Table(_) => {
                proof {
                    assert(false);
                }
            },
        }
    }
}

/// A zeroed 4 KiB page.
fn zero_page() -> (v: Vec<u8>)
    ensures
        v@.len() == PAGE_SIZE,
        forall|i: int| 0 <= i < PAGE_SIZE ==> v@[i] == 0,
{
    let mut v: Vec<u8> = Vec::new();
    let mut k: usize = 0;
    while k < PAGE_SIZE
        invariant
            k <= PAGE_SIZE,
            v@.len() == k,
            forall|i: int| 0 <= i < k ==> v@[i] == 0,
        decreases PAGE_SIZE - k,
    {
        v.push(0);
        k = k + 1;
    }
    v
}

/// Bits 26..18 of a virtual page number: the root-level index.
pub open spec fn idx0(vpn: int) -> int {
    (vpn / 0x40000) % 512
}

/// Bits 17..9: the middle-level index.
pub open spec fn idx1(vpn: int) -> int {
    (vpn / 512) % 512
}

/// Bits 8..0: the leaf-level index.
pub open spec fn idx2(vpn: int) -> int {
    vpn % 512
}

/// The three 9-bit indexes determine an SV39 virtual page number.
pub proof fn lemma_vpn_index_identity(vpn: int)
    requires
        0 <= vpn < VPN_LIMIT,
    ensures
        vpn == idx0(vpn) * 0x40000 + idx1(vpn) * 512 + idx2(vpn),
        0 <= idx0(vpn) < 512,
        0 <= idx1(vpn) < 512,
        0 <= idx2(vpn) < 512,
{
    lemma_fundamental_div_mod(vpn, 0x40000);
    assert(vpn / 0x40000 < 512) by (nonlinear_arith)
        requires
            0 <= vpn < 0x8000000,
    ;
    lemma_small_mod((vpn / 0x40000) as nat, 512);
    lemma_breakdown(vpn, 512, 512);
}

/// The middle-level node the walk for `vpn` reaches, if the root entry is
/// valid.
pub open spec fn walk1_spec(mem: PhysMem, root: int, vpn: int) -> Option<int> {
    let e0 = mem.entry(root, idx0(vpn));
    if e0.spec_valid() {
        Some(e0.spec_ppn())
    } else {
        None
    }
}

/// The leaf-level node the walk for `vpn` reaches.
pub open spec fn walk2_spec(mem: PhysMem, root: int, vpn: int) -> Option<int> {
    match walk1_spec(mem, root, vpn) {
        None => None,
        Some(n1) => {
            let e1 = mem.entry(n1, idx1(vpn));
            if e1.spec_valid() {
                Some(e1.spec_ppn())
            } else {
                None
            }
        },
    }
}

/// What the table rooted at `root` maps `vpn` to: the leaf entry if the
/// full walk succeeds and the leaf is valid, otherwise nothing.
pub open spec fn translate_spec(mem: PhysMem, root: int, vpn: int) -> Option<PageTableEntry> {
    match walk2_spec(mem, root, vpn) {
        None => None,
        Some(n2) => {
            let e2 = mem.entry(n2, idx2(vpn));
            if e2.spec_valid() {
                Some(e2)
            } else {
                None
            }
        },
    }
}

/// Well-formedness of the radix structure rooted at `root`, with `l1s` and
/// `l2s` the frames of the middle and leaf-level nodes:
/// every node is a distinct table frame, a valid non-leaf entry is a pure
/// pointer (flags exactly V) into the next level, and no two distinct
/// non-leaf slots point at the same node, so distinct walks never share a
/// node below their divergence point.
pub open spec fn pt_wf(mem: PhysMem, root: int, l1s: Set<int>, l2s: Set<int>) -> bool {
    &&& mem.wf()
    &&& mem.is_table(root)
    &&& !l1s.contains(root)
    &&& !l2s.contains(root)
    &&& l1s.disjoint(l2s)
    &&& (forall|n: int| l1s.contains(n) ==> mem.is_table(n))
    &&& (forall|n: int| l2s.contains(n) ==> mem.is_table(n))
    &&& (forall|i: int|
        0 <= i < 512 && (#[trigger] mem.entry(root, i)).spec_valid() ==> l1s.contains(
            mem.entry(root, i).spec_ppn(),
        ) && mem.entry(root, i).spec_flags() == 1)
    &&& (forall|i: int, j: int|
        0 <= i < 512 && 0 <= j < 512 && i != j && mem.entry(root, i).spec_valid() && mem.entry(
            root,
            j,
        ).spec_valid() ==> mem.entry(root, i).spec_ppn() != mem.entry(root, j).spec_ppn())
    &&& (forall|n: int, i: int|
        l1s.contains(n) && 0 <= i < 512 && (#[trigger] mem.entry(n, i)).spec_valid()
            ==> l2s.contains(mem.entry(n, i).spec_ppn()) && mem.entry(n, i).spec_flags() == 1)
    &&& (forall|n1: int, i1: int, n2: int, i2: int|
        l1s.contains(n1) && l1s.contains(n2) && 0 <= i1 < 512 && 0 <= i2 < 512 && !(n1 == n2 && i1
            == i2) && mem.entry(n1, i1).spec_valid() && mem.entry(n2, i2).spec_valid()
            ==> mem.entry(n1, i1).spec_ppn() != mem.entry(n2, i2).spec_ppn())
}

/// Whether some middle/leaf node sets witness a well-formed table at `root`.
/// A view rebuilt from a bare token can rely on this without knowing the
/// witness sets.
pub open spec fn pt_wf_ex(mem: PhysMem, root: int) -> bool {
    exists|l1s: Set<int>, l2s: Set<int>| pt_wf(mem, root, l1s, l2s)
}

/// The root page number encoded in an activation token.
pub open spec fn spec_decode_root(token: u64) -> int {
    (token as int) % 0x100000000000
}

/// An SV39 page table: the root frame plus all owned node frames.
///
/// An owning table (`owned == true`) holds in `frames` every frame backing
/// the structure, root included, and may create or release them; a
/// non-owning view rebuilt by `from_token` has `owned == false`, owns
/// nothing, and only translates.
pub struct PageTable {
    pub root_ppn: usize,
    pub frames: Vec<usize>,
    pub owned: bool,
    pub l1s: Ghost<Set<int>>,
    pub l2s: Ghost<Set<int>>,
}

impl PageTable {
    /// The set of frames backing this table's nodes.
    pub open spec fn nodes(self) -> Set<int> {
        self.l1s@.union(self.l2s@).insert(self.root_ppn as int)
    }

    /// Structural well-formedness against a physical memory, plus the
    /// owned-frame list naming exactly the node frames.
    pub open spec fn wf(self, mem: PhysMem) -> bool {
        &&& pt_wf(mem, self.root_ppn as int, self.l1s@, self.l2s@)
        &&& self.frames@.no_duplicates()
        &&& (forall|p: usize| #[trigger]
            self.frames@.contains(p) <==> self.nodes().contains(p as int))
        &&& (forall|x: int| self.nodes().contains(x) ==> 0 <= x <= usize::MAX)
    }

    /// All node frames are live allocations of the pool.
    pub open spec fn nodes_allocated(self, fa: FrameAllocator) -> bool {
        forall|p: usize| #[trigger] self.frames@.contains(p) ==> fa.allocated(p)
    }

    /// What `vpn` translates to under this table's root.
    pub open spec fn spec_translate(self, mem: PhysMem, vpn: int) -> Option<PageTableEntry> {
        translate_spec(mem, self.root_ppn as int, vpn)
    }

    /// An owning table over a freshly allocated, zeroed root frame; it maps
    /// nothing. Fails with `OutOfMemory` exactly when the pool is empty.
    pub fn new(mem: &mut PhysMem, fa: &mut FrameAllocator) -> (r: Result<PageTable, MmError>)
        requires
            old(mem).wf(),
            old(fa).wf(),
            old(fa).spec_end() <= old(mem).spec_len(),
        ensures
            final (mem).wf(),
            final (fa).wf(),
            final (fa).spec_base() == old(fa).spec_base(),
            final (fa).spec_end() == old(fa).spec_end(),
            final (mem).spec_len() == old(mem).spec_len(),
            r is Err <==> old(fa).free_count() == 0,
            old(fa).current <= final (fa).current <= old(fa).current + 1,
            r is Err ==> r == Err::<PageTable, MmError>(MmError::OutOfMemory) && final (mem).pages@
                == old(mem).pages@ && final (fa).current == old(fa).current && final (fa).recycled@
                == old(fa).recycled@,
            r is Ok ==> {
                let pt = r->Ok_0;
                &&& pt.wf(*final (mem))
                &&& pt.owned
                &&& pt.l1s@ == Set::<int>::empty()
                &&& pt.l2s@ == Set::<int>::empty()
                &&& pt.frames@ =~= seq![pt.root_ppn]
                &&& old(fa).spec_base() <= pt.root_ppn < old(fa).spec_end()
                &&& !old(fa).allocated(pt.root_ppn)
                &&& final (fa).allocated(pt.root_ppn)
                &&& (forall|q: usize|
                    q != pt.root_ppn ==> final (fa).allocated(q) == old(fa).allocated(q))
                &&& final (fa).free_count() == old(fa).free_count() - 1
                &&& (forall|q: int|
                    0 <= q < old(mem).spec_len() && q != pt.root_ppn ==> final (mem).pages@[q]
                        == old(mem).pages@[q])
                &&& (forall|vpn: int| pt.spec_translate(*final (mem), vpn) is None)
            },
    {
        let root = match fa.frame_alloc() {
            Ok(p) => p,
            Err(e) => {
                return Err(e);
            },
        };
        mem.make_table(root);
        let mut frames: Vec<usize> = Vec::new();
        frames.push(root);
        let pt = PageTable {
            root_ppn: root,
            frames,
            owned: true,
            l1s: Ghost(Set::empty()),
            l2s: Ghost(Set::empty()),
        };
        proof {
            assert forall|vpn: int| pt.spec_translate(*mem, vpn) is None by {
                assert(mem.entry(root as int, idx0(vpn)).bits == 0);
            }
            assert forall|p: usize| #[trigger]
                pt.frames@.contains(p) <==> pt.nodes().contains(p as int) by {
                assert(pt.nodes() =~= Set::<int>::empty().insert(root as int));
                if pt.frames@.contains(p) {
                    let j = choose|j: int| 0 <= j < pt.frames@.len() && pt.frames@[j] == p;
                    assert(p == root);
                }
                if pt.nodes().contains(p as int) {
                    assert(pt.frames@[0] == root);
                }
            }
        }
        Ok(pt)
    }

    /// A non-owning view of the table whose root page number is encoded in
    /// `token`; it owns no frames and must only be used to translate.
    pub fn from_token(token: u64) -> (pt: PageTable)
        ensures
            !pt.owned,
            pt.frames@ =~= Seq::<usize>::empty(),
            spec_decode_root(token) <= usize::MAX ==> pt.root_ppn as int == spec_decode_root(
                token,
            ),
    {
        let root64: u64 = token % 0x100000000000u64;
        let root: usize = if root64 <= usize::MAX as u64 {
            root64 as usize
        } else {
            0
        };
        PageTable {
            root_ppn: root,
            frames: Vec::new(),
            owned: false,
            l1s: Ghost(Set::empty()),
            l2s: Ghost(Set::empty()),
        }
    }

    /// The activation value for this table: the SV39 mode selector plus the
    /// root page number.
    pub fn token(&self) -> (t: u64)
        requires
            self.root_ppn < PPN_LIMIT,
        ensures
            t == SATP_MODE_SV39 + self.root_ppn as u64,
            spec_decode_root(t) == self.root_ppn,
    {
        let t = SATP_MODE_SV39 + (self.root_ppn as u64);
        proof {
            let r = self.root_ppn as int;
            assert(t as int == 0x100000000000 * 0x80000 + r);
            vstd::arithmetic::div_mod::lemma_mod_multiples_vanish(0x80000, r, 0x100000000000);
            lemma_small_mod(r as nat, 0x100000000000);
        }
        t
    }

    /// Read-only lookup: the leaf entry for `vpn`, or nothing when any step
    /// of the walk is invalid. On a well-formed table this equals
    /// `translate_spec`; on arbitrary memory it still returns without
    /// touching anything out of bounds.
    pub fn translate(&self, mem: &PhysMem, vpn: usize) -> (r: Option<PageTableEntry>)
        requires
            mem.wf(),
        ensures
            pt_wf_ex(*mem, self.root_ppn as int) ==> r == translate_spec(
                *mem,
                self.root_ppn as int,
                vpn as int,
            ),
    {
        let ghost root = self.root_ppn as int;
        if !mem.table_at(self.root_ppn) {
            proof {
                lemma_wf_ex_root_is_table(*mem, root);
            }
            return None;
        }
        let i0 = (vpn / 0x40000) % 512;
        let e0 = mem.read_entry(self.root_ppn, i0);
        if !e0.valid() {
            return None;
        }
        let n1_64: u64 = (e0.bits / 1024) % 0x100000000000u64;
        if n1_64 >= mem.len() as u64 {
            proof {
                lemma_wf_ex_l1_is_table(*mem, root, vpn as int);
            }
            return None;
        }
        let n1 = n1_64 as usize;
        if !mem.table_at(n1) {
            proof {
                lemma_wf_ex_l1_is_table(*mem, root, vpn as int);
            }
            return None;
        }
        let i1 = (vpn / 512) % 512;
        let e1 = mem.read_entry(n1, i1);
        if !e1.valid() {
            return None;
        }
        let n2_64: u64 = (e1.bits / 1024) % 0x100000000000u64;
        if n2_64 >= mem.len() as u64 {
            proof {
                lemma_wf_ex_l2_is_table(*mem, root, vpn as int);
            }
            return None;
        }
        let n2 = n2_64 as usize;
        if !mem.table_at(n2) {
            proof {
                lemma_wf_ex_l2_is_table(*mem, root, vpn as int);
            }
            return None;
        }
        let i2 = vpn % 512;
        let e2 = mem.read_entry(n2, i2);
        if !e2.valid() {
            return None;
        }
        Some(e2)
    }

    /// Ensure the middle-level node on `vpn`'s path exists, allocating and
    /// installing a zeroed one under the root when the slot is invalid.
    #[verifier::rlimit(60)]
    #[verifier::spinoff_prover]
    fn ensure_l1(&mut self, mem: &mut PhysMem, fa: &mut FrameAllocator, vpn: usize) -> (r: Result<
        usize,
        MmError,
    >)
        requires
            old(self).wf(*old(mem)),
            old(self).owned,
            old(fa).wf(),
            old(self).nodes_allocated(*old(fa)),
            old(fa).spec_end() <= old(mem).spec_len(),
            vpn < VPN_LIMIT,
        ensures
            final (self).wf(*final (mem)),
            final (self).owned,
            final (self).root_ppn == old(self).root_ppn,
            final (self).l2s@ == old(self).l2s@,
            final (fa).wf(),
            final (fa).spec_base() == old(fa).spec_base(),
            final (fa).spec_end() == old(fa).spec_end(),
            final (self).nodes_allocated(*final (fa)),
            final (mem).spec_len() == old(mem).spec_len(),
            forall|q: usize| old(fa).allocated(q) ==> final (fa).allocated(q),
            final (fa).free_count() >= old(fa).free_count() - 1,
            old(fa).current <= final (fa).current <= old(fa).current + 1,
            forall|x: int| old(self).nodes().contains(x) ==> final (self).nodes().contains(x),
            forall|q: int| #![trigger final(mem).pages@[q]]
                0 <= q < old(mem).spec_len() && final (mem).pages@[q] != old(mem).pages@[q]
                    ==> final (self).nodes().contains(q),
            forall|x: int| #![trigger final(self).nodes().contains(x)]
                final (self).nodes().contains(x) ==> old(self).nodes().contains(x) || (0 <= x
                    <= usize::MAX && !old(fa).allocated(x as usize) && old(fa).spec_base() <= x
                    < old(fa).spec_end() && final (fa).allocated(x as usize)),
            forall|w: int|
                #[trigger] translate_spec(*final (mem), old(self).root_ppn as int, w)
                    == translate_spec(*old(mem), old(self).root_ppn as int, w),
            walk1_spec(*old(mem), old(self).root_ppn as int, vpn as int) is Some ==> final (
            mem).pages@ == old(mem).pages@ && final (fa).current == old(fa).current && final (
            fa).recycled@ == old(fa).recycled@ && final (self).frames@ == old(self).frames@
                && final (self).l1s@ == old(self).l1s@,
            old(fa).free_count() >= 1 ==> r is Ok,
            r is Err ==> r == Err::<usize, MmError>(MmError::OutOfMemory) && walk1_spec(
                *old(mem),
                old(self).root_ppn as int,
                vpn as int,
            ) is None && old(fa).free_count() == 0,
            r is Ok ==> {
                let n1 = r->Ok_0;
                &&& walk1_spec(*final (mem), old(self).root_ppn as int, vpn as int) == Some(
                    n1 as int,
                )
                &&& final (self).l1s@.contains(n1 as int)
                &&& (old(self).nodes().contains(n1 as int) || (!old(fa).allocated(n1) && old(
                    fa,
                ).spec_base() <= n1 < old(fa).spec_end()))
            },
    {
        let root = self.root_ppn;
        let ghost m0 = *old(mem);
        proof {
            lemma_vpn_index_identity(vpn as int);
        }
        let i0 = (vpn / 0x40000) % 512;
        let e0 = mem.read_entry(root, i0);
        if e0.valid() {
            proof {
                assert(self.l1s@.contains(e0.spec_ppn()));
                assert(self.nodes().contains(e0.spec_ppn()));
            }
            let n1 = e0.ppn();
            proof {
                assert(self.frames@.contains(n1));
            }
            return Ok(n1);
        }
        let p = match fa.frame_alloc() {
            Ok(p) => p,
            Err(e) => {
                return Err(e);
            },
        };
        proof {
            assert(self.frames@.contains(root));
            assert(!self.nodes().contains(p as int)) by {
                if self.nodes().contains(p as int) {
                    assert(self.frames@.contains(p));
                }
            }
            assert(p != root);
        }
        mem.make_table(p);
        let ghost mmid = *mem;
        mem.write_entry(root, i0, PageTableEntry::new(p, PTE_V));
        self.frames.push(p);
        proof {
            assert forall|j: int| 0 <= j < 512 implies mem.entry(p as int, j).bits == 0 by {
                assert(mmid.entry(p as int, j).bits == 0);
                assert(mem.pages@[p as int] == mmid.pages@[p as int]);
            }
            lemma_install_l1(m0, *mem, root as int, self.l1s@, self.l2s@, i0 as int, p as int);
        }
        self.l1s = Ghost(self.l1s@.insert(p as int));
        proof {
            assert forall|q: usize| #[trigger]
                self.frames@.contains(q) <==> self.nodes().contains(q as int) by {
                lemma_push_contains(old(self).frames@, p, q);
            }
            assert(self.frames@.no_duplicates()) by {
                assert(!old(self).frames@.contains(p));
                assert(forall|i: int, j: int|
                    0 <= i < self.frames@.len() && 0 <= j < self.frames@.len() && i != j
                        ==> self.frames@[i] != self.frames@[j]);
            }
            assert forall|x: int| self.nodes().contains(x) implies 0 <= x <= usize::MAX by {
                if x != p {
                    assert(old(self).nodes().contains(x));
                }
            }
            assert forall|q: usize| #[trigger] self.frames@.contains(q) implies fa.allocated(
                q,
            ) by {
                lemma_push_contains(old(self).frames@, p, q);
                if q != p {
                    assert(old(self).frames@.contains(q));
                    assert(old(fa).allocated(q));
                }
            }
            assert(pt_wf(*mem, self.root_ppn as int, self.l1s@, self.l2s@));
            assert(self.wf(*mem));
        }
        Ok(p)
    }

    /// Walk to the leaf-level node for `vpn`, allocating and installing
    /// zeroed intermediate nodes where the path is missing.
    #[verifier::rlimit(60)]
    #[verifier::spinoff_prover]
    fn find_node_create(
        &mut self,
        mem: &mut PhysMem,
        fa: &mut FrameAllocator,
        vpn: usize,
    ) -> (r: Result<usize, MmError>)
        requires
            old(self).wf(*old(mem)),
            old(self).owned,
            old(fa).wf(),
            old(self).nodes_allocated(*old(fa)),
            old(fa).spec_end() <= old(mem).spec_len(),
            vpn < VPN_LIMIT,
        ensures
            final (self).wf(*final (mem)),
            final (self).owned,
            final (self).root_ppn == old(self).root_ppn,
            final (fa).wf(),
            final (fa).spec_base() == old(fa).spec_base(),
            final (fa).spec_end() == old(fa).spec_end(),
            final (self).nodes_allocated(*final (fa)),
            final (mem).spec_len() == old(mem).spec_len(),
            forall|q: usize| old(fa).allocated(q) ==> final (fa).allocated(q),
            final (fa).free_count() >= old(fa).free_count() - 2,
            old(fa).current <= final (fa).current <= old(fa).current + 2,
            forall|x: int| old(self).nodes().contains(x) ==> final (self).nodes().contains(x),
            forall|q: int| #![trigger final(mem).pages@[q]]
                0 <= q < old(mem).spec_len() && final (mem).pages@[q] != old(mem).pages@[q]
                    ==> final (self).nodes().contains(q),
            forall|x: int| #![trigger final(self).nodes().contains(x)]
                final (self).nodes().contains(x) ==> old(self).nodes().contains(x) || (0 <= x
                    <= usize::MAX && !old(fa).allocated(x as usize) && old(fa).spec_base() <= x
                    < old(fa).spec_end() && final (fa).allocated(x as usize)),
            forall|w: int|
                #[trigger] translate_spec(*final (mem), old(self).root_ppn as int, w)
                    == translate_spec(*old(mem), old(self).root_ppn as int, w),
            walk2_spec(*old(mem), old(self).root_ppn as int, vpn as int) is Some ==> final (
            mem).pages@ == old(mem).pages@ && final (fa).current == old(fa).current && final (
            fa).recycled@ == old(fa).recycled@ && final (self).frames@ == old(self).frames@
                && final (self).l1s@ == old(self).l1s@ && final (self).l2s@ == old(self).l2s@,
            old(fa).free_count() >= 2 ==> r is Ok,
            r is Err ==> r == Err::<usize, MmError>(MmError::OutOfMemory) && walk2_spec(
                *old(mem),
                old(self).root_ppn as int,
                vpn as int,
            ) is None && old(fa).free_count() < 2,
            r is Ok ==> {
                let n2 = r->Ok_0;
                &&& walk2_spec(*final (mem), old(self).root_ppn as int, vpn as int) == Some(
                    n2 as int,
                )
                &&& final (self).l2s@.contains(n2 as int)
                &&& (old(self).nodes().contains(n2 as int) || !old(fa).allocated(n2))
            },
    {
        let root = self.root_ppn;
        let ghost m0 = *old(mem);
        let ghost fa0 = *old(fa);
        proof {
            lemma_vpn_index_identity(vpn as int);
        }
        let n1 = match self.ensure_l1(mem, fa, vpn) {
            Ok(n) => n,
            Err(e) => {
                proof {
                    assert(walk2_spec(m0, root as int, vpn as int) is None);
                }
                return Err(e);
            },
        };
        let ghost m1 = *mem;
        let ghost self1 = *self;
        let ghost fa1 = *fa;
        let i1 = (vpn / 512) % 512;
        let e1 = mem.read_entry(n1, i1);
        if e1.valid() {
            proof {
                assert(self.l2s@.contains(e1.spec_ppn()));
                assert(old(self).l2s@ == self.l2s@);
                assert(old(self).nodes().contains(e1.spec_ppn()));
                assert(self.nodes().contains(e1.spec_ppn()));
                assert(walk2_spec(m1, root as int, vpn as int) == Some(e1.spec_ppn()));
                if walk2_spec(m0, root as int, vpn as int) is Some {
                    assert(walk1_spec(m0, root as int, vpn as int) is Some);
                    assert(m1.pages@ == m0.pages@);
                }
            }
            let n2 = e1.ppn();
            return Ok(n2);
        }
        let p = match fa.frame_alloc() {
            Ok(p) => p,
            Err(e) => {
                proof {
                    assert(walk2_spec(m1, root as int, vpn as int) is None);
                    if walk1_spec(m0, root as int, vpn as int) is Some {
                        assert(m1.pages@ == m0.pages@);
                        assert(walk2_spec(m0, root as int, vpn as int) == walk2_spec(
                            m1,
                            root as int,
                            vpn as int,
                        ));
                    }
                    assert(fa1.free_count() == 0);
                    assert(fa0.free_count() <= 1);
                }
                return Err(e);
            },
        };
        proof {
            assert(self.frames@.contains(n1));
            assert(self.frames@.contains(root));
            assert(!self.nodes().contains(p as int)) by {
                if self.nodes().contains(p as int) {
                    assert(self.frames@.contains(p));
                }
            }
            assert(p != n1 && p != root);
        }
        mem.make_table(p);
        let ghost mmid = *mem;
        mem.write_entry(n1, i1, PageTableEntry::new(p, PTE_V));
        self.frames.push(p);
        proof {
            assert forall|j: int| 0 <= j < 512 implies mem.entry(p as int, j).bits == 0 by {
                assert(mmid.entry(p as int, j).bits == 0);
                assert(mem.pages@[p as int] == mmid.pages@[p as int]);
            }
            lemma_install_l2(
                m1,
                *mem,
                root as int,
                self.l1s@,
                self.l2s@,
                n1 as int,
                i1 as int,
                p as int,
            );
        }
        self.l2s = Ghost(self.l2s@.insert(p as int));
        proof {
            assert forall|q: usize| #[trigger]
                self.frames@.contains(q) <==> self.nodes().contains(q as int) by {
                lemma_push_contains(self1.frames@, p, q);
            }
            assert(self.frames@.no_duplicates()) by {
                assert(!self1.frames@.contains(p));
                assert(forall|i: int, j: int|
                    0 <= i < self.frames@.len() && 0 <= j < self.frames@.len() && i != j
                        ==> self.frames@[i] != self.frames@[j]);
            }
            assert forall|x: int| self.nodes().contains(x) implies 0 <= x <= usize::MAX by {
                if x != p {
                    assert(self1.nodes().contains(x));
                }
            }
            assert forall|q: usize| #[trigger] self.frames@.contains(q) implies fa.allocated(
                q,
            ) by {
                lemma_push_contains(self1.frames@, p, q);
                if q != p {
                    assert(self1.frames@.contains(q));
                    assert(fa1.allocated(q));
                }
            }
            assert(pt_wf(*mem, self.root_ppn as int, self.l1s@, self.l2s@));
            assert(self.wf(*mem));
            assert(walk2_spec(*mem, root as int, vpn as int) == Some(p as int));
            assert forall|x: int| self.nodes().contains(x) implies old(self).nodes().contains(x)
                || (0 <= x <= usize::MAX && !old(fa).allocated(x as usize) && old(fa).spec_base()
                <= x < old(fa).spec_end() && fa.allocated(x as usize)) by {
                if x != p {
                    assert(self1.nodes().contains(x));
                } else {
                    assert(!fa1.allocated(p));
                }
            }
        }
        Ok(p)
    }

    #[verifier::rlimit(100)]
    pub fn map(
        &mut self,
        mem: &mut PhysMem,
        fa: &mut FrameAllocator,
        vpn: usize,
        ppn: usize,
        flags: u8,
    ) -> (r: Result<(), MmError>)
        requires
            old(self).wf(*old(mem)),
            old(self).owned,
            old(fa).wf(),
            old(self).nodes_allocated(*old(fa)),
            old(fa).spec_end() <= old(mem).spec_len(),
            vpn < VPN_LIMIT,
            ppn < PPN_LIMIT,
            flags % 2 == 0,
        ensures
            final (self).wf(*final (mem)),
            final (self).owned,
            final (self).root_ppn == old(self).root_ppn,
            final (fa).wf(),
            final (fa).spec_base() == old(fa).spec_base(),
            final (fa).spec_end() == old(fa).spec_end(),
            final (self).nodes_allocated(*final (fa)),
            final (mem).spec_len() == old(mem).spec_len(),
            forall|q: usize| old(fa).allocated(q) ==> final (fa).allocated(q),
            final (fa).free_count() >= old(fa).free_count() - 2,
            old(fa).current <= final (fa).current <= old(fa).current + 2,
            forall|x: int| old(self).nodes().contains(x) ==> final (self).nodes().contains(x),
            forall|q: int| #![trigger final(mem).pages@[q]]
                0 <= q < old(mem).spec_len() && final (mem).pages@[q] != old(mem).pages@[q]
                    ==> final (self).nodes().contains(q),
            forall|x: int| #![trigger final(self).nodes().contains(x)]
                final (self).nodes().contains(x) ==> old(self).nodes().contains(x) || (0 <= x
                    <= usize::MAX && !old(fa).allocated(x as usize) && old(fa).spec_base() <= x
                    < old(fa).spec_end() && final (fa).allocated(x as usize)),
            r == Err::<(), MmError>(MmError::AlreadyMapped) <==> old(self).spec_translate(
                *old(mem),
                vpn as int,
            ) is Some,
            r == Err::<(), MmError>(MmError::AlreadyMapped) ==> final (mem).pages@ == old(
                mem,
            ).pages@ && final (fa).current == old(fa).current && final (fa).recycled@ == old(
                fa,
            ).recycled@ && final (self).frames@ == old(self).frames@ && final (self).l1s@ == old(
                self,
            ).l1s@ && final (self).l2s@ == old(self).l2s@,
            old(self).spec_translate(*old(mem), vpn as int) is None && old(fa).free_count() >= 2
                ==> r is Ok,
            r == Err::<(), MmError>(MmError::OutOfMemory) ==> old(self).spec_translate(
                *old(mem),
                vpn as int,
            ) is None && old(fa).free_count() < 2 && (forall|w: int|
                #[trigger] translate_spec(*final (mem), old(self).root_ppn as int, w)
                    == translate_spec(*old(mem), old(self).root_ppn as int, w)),
            r is Err ==> r == Err::<(), MmError>(MmError::AlreadyMapped) || r == Err::<
                (),
                MmError,
            >(MmError::OutOfMemory),
            r is Ok ==> {
                let o = final (self).spec_translate(*final (mem), vpn as int);
                &&& o is Some
                &&& o->0.spec_ppn() == ppn
                &&& o->0.spec_flags() == flags + 1
                &&& o->0.spec_valid()
                &&& forall|w: int|
                    0 <= w < VPN_LIMIT && w != vpn ==> #[trigger] translate_spec(
                        *final (mem),
                        old(self).root_ppn as int,
                        w,
                    ) == translate_spec(*old(mem), old(self).root_ppn as int, w)
            },
    {
        let ghost m0 = *old(mem);
        let n2 = match self.find_node_create(mem, fa, vpn) {
            Ok(n) => n,
            Err(e) => {
                return Err(e);
            },
        };
        let ghost m1 = *mem;
        proof {
            lemma_vpn_index_identity(vpn as int);
        }
        let i2 = vpn % 512;
        let e2 = mem.read_entry(n2, i2);
        if e2.valid() {
            proof {
                assert(translate_spec(m1, self.root_ppn as int, vpn as int) is Some);
                assert(old(self).spec_translate(m0, vpn as int) is Some);
                assert(walk2_spec(m0, self.root_ppn as int, vpn as int) is Some);
            }
            return Err(MmError::AlreadyMapped);
        }
        let pte = PageTableEntry::new(ppn, if flags % 2 == 0 {
            flags + 1
        } else {
            flags
        });
        mem.write_entry(n2, i2, pte);
        proof {
            assert(translate_spec(m1, self.root_ppn as int, vpn as int) is None);
            assert(old(self).spec_translate(m0, vpn as int) is None);
            lemma_leaf_write(
                m1,
                *mem,
                self.root_ppn as int,
                self.l1s@,
                self.l2s@,
                vpn as int,
                n2 as int,
                pte,
            );
            assert(self.wf(*mem)) by {
                assert(pt_wf(*mem, self.root_ppn as int, self.l1s@, self.l2s@));
            }
            assert forall|q: int|
                0 <= q < old(mem).spec_len() && mem.pages@[q] != old(mem).pages@[q]
                    implies self.nodes().contains(q) by {
                if q != n2 {
                    assert(mem.pages@[q] == m1.pages@[q]);
                } else {
                    assert(self.l2s@.contains(n2 as int));
                    assert(self.nodes().contains(n2 as int));
                }
            }
        }
        Ok(())
    }

    /// Clear the leaf mapping for `vpn`. Fails with `NotMapped` exactly
    /// when `vpn` does not currently translate (nothing changes then).
    /// Every other virtual page keeps its translation, and only this
    /// table's node frames change.
    pub fn unmap(&self, mem: &mut PhysMem, vpn: usize) -> (r: Result<(), MmError>)
        requires
            self.wf(*old(mem)),
            vpn < VPN_LIMIT,
        ensures
            self.wf(*final (mem)),
            final (mem).spec_len() == old(mem).spec_len(),
            r is Ok <==> self.spec_translate(*old(mem), vpn as int) is Some,
            r is Err ==> r == Err::<(), MmError>(MmError::NotMapped) && final (mem).pages@ == old(
                mem,
            ).pages@,
            r is Ok ==> {
                &&& self.spec_translate(*final (mem), vpn as int) is None
                &&& forall|w: int|
                    0 <= w < VPN_LIMIT && w != vpn ==> #[trigger] translate_spec(
                        *final (mem),
                        self.root_ppn as int,
                        w,
                    ) == translate_spec(*old(mem), self.root_ppn as int, w)
                &&& forall|q: int| #![trigger final(mem).pages@[q]]
                    0 <= q < old(mem).spec_len() && final (mem).pages@[q] != old(mem).pages@[q]
                        ==> self.nodes().contains(q)
            },
    {
        let root = self.root_ppn;
        proof {
            lemma_vpn_index_identity(vpn as int);
        }
        let i0 = (vpn / 0x40000) % 512;
        let e0 = mem.read_entry(root, i0);
        if !e0.valid() {
            return Err(MmError::NotMapped);
        }
        proof {
            assert(self.l1s@.contains(e0.spec_ppn()));
            assert(self.nodes().contains(e0.spec_ppn()));
        }
        let n1 = e0.ppn();
        let i1 = (vpn / 512) % 512;
        let e1 = mem.read_entry(n1, i1);
        if !e1.valid() {
            return Err(MmError::NotMapped);
        }
        proof {
            assert(self.l2s@.contains(e1.spec_ppn()));
            assert(self.nodes().contains(e1.spec_ppn()));
        }
        let n2 = e1.ppn();
        let i2 = vpn % 512;
        let e2 = mem.read_entry(n2, i2);
        if !e2.valid() {
            return Err(MmError::NotMapped);
        }
        let ghost m1 = *mem;
        let cleared = PageTableEntry::empty();
        mem.write_entry(n2, i2, cleared);
        proof {
            lemma_leaf_write(
                m1,
                *mem,
                root as int,
                self.l1s@,
                self.l2s@,
                vpn as int,
                n2 as int,
                cleared,
            );
        }
        Ok(())
    }
}

/// Pushing onto a sequence adds exactly one membership.
pub proof fn lemma_push_contains(s: Seq<usize>, p: usize, q: usize)
    ensures
        s.push(p).contains(q) <==> (s.contains(q) || q == p),
{
    if s.push(p).contains(q) {
        let i = choose|i: int| 0 <= i < s.push(p).len() && s.push(p)[i] == q;
        if i < s.len() {
            assert(s[i] == q);
        }
    }
    if s.contains(q) {
        let i = choose|i: int| 0 <= i < s.len() && s[i] == q;
        assert(s.push(p)[i] == q);
    }
    if q == p {
        assert(s.push(p)[s.len() as int] == q);
    }
}

/// A memory change that leaves every node frame of a well-formed table
/// untouched preserves well-formedness and every translation.
pub proof fn lemma_translate_frames_only(
    m1: PhysMem,
    m2: PhysMem,
    root: int,
    l1s: Set<int>,
    l2s: Set<int>,
)
    requires
        pt_wf(m1, root, l1s, l2s),
        m2.wf(),
        m2.spec_len() == m1.spec_len(),
        m2.pages@[root] == m1.pages@[root],
        forall|n: int| l1s.contains(n) ==> m2.pages@[n] == m1.pages@[n],
        forall|n: int| l2s.contains(n) ==> m2.pages@[n] == m1.pages@[n],
    ensures
        pt_wf(m2, root, l1s, l2s),
        forall|w: int|
            #[trigger] translate_spec(m2, root, w) == translate_spec(m1, root, w),
        forall|w: int| #[trigger] walk2_spec(m2, root, w) == walk2_spec(m1, root, w),
{
    assert forall|n: int, i: int| l1s.contains(n) || l2s.contains(n) || n
        == root implies #[trigger] m2.entry(n, i) == m1.entry(n, i) by {
        assert(m2.pages@[n] == m1.pages@[n]);
    }
    assert forall|w: int| #[trigger]
        walk2_spec(m2, root, w) == walk2_spec(m1, root, w) && translate_spec(m2, root, w)
        == translate_spec(m1, root, w) by {
        let e0 = m1.entry(root, idx0(w));
        assert(m2.entry(root, idx0(w)) == e0);
        if e0.spec_valid() {
            let n1 = e0.spec_ppn();
            assert(l1s.contains(n1));
            let e1 = m1.entry(n1, idx1(w));
            assert(m2.entry(n1, idx1(w)) == e1);
            if e1.spec_valid() {
                let n2 = e1.spec_ppn();
                assert(l2s.contains(n2));
                assert(m2.entry(n2, idx2(w)) == m1.entry(n2, idx2(w)));
            }
        }
    }
}

/// Installing a fresh zeroed middle-level node under an invalid root slot
/// keeps the table well formed and changes no translation.
proof fn lemma_install_l1(
    m1: PhysMem,
    m2: PhysMem,
    root: int,
    l1s: Set<int>,
    l2s: Set<int>,
    i0v: int,
    p: int,
)
    requires
        pt_wf(m1, root, l1s, l2s),
        0 <= i0v < 512,
        !m1.entry(root, i0v).spec_valid(),
        0 <= p < m1.spec_len(),
        p != root,
        !l1s.contains(p),
        !l2s.contains(p),
        m2.wf(),
        m2.spec_len() == m1.spec_len(),
        forall|q: int| 0 <= q < m1.spec_len() && q != root && q != p ==> m2.pages@[q] == m1.pages@[q],
        m2.is_table(root),
        forall|j: int| 0 <= j < 512 && j != i0v ==> m2.entry(root, j) == m1.entry(root, j),
        m2.entry(root, i0v).spec_ppn() == p,
        m2.entry(root, i0v).spec_flags() == 1,
        m2.entry(root, i0v).spec_valid(),
        m2.is_table(p),
        forall|j: int| 0 <= j < 512 ==> m2.entry(p, j).bits == 0,
    ensures
        pt_wf(m2, root, l1s.insert(p), l2s),
        forall|w: int|
            #[trigger] translate_spec(m2, root, w) == translate_spec(m1, root, w),
{
    let l1b = l1s.insert(p);
    assert forall|n: int, i: int| (l1s.contains(n) || l2s.contains(n)) implies #[trigger] m2.entry(
        n,
        i,
    ) == m1.entry(n, i) by {
        assert(m2.pages@[n] == m1.pages@[n]);
    }
    assert forall|n: int| l1b.contains(n) implies m2.is_table(n) by {
        if n != p {
            assert(m2.pages@[n] == m1.pages@[n]);
        }
    }
    assert forall|n: int| l2s.contains(n) implies m2.is_table(n) by {
        assert(m2.pages@[n] == m1.pages@[n]);
    }
    assert(pt_wf(m2, root, l1b, l2s)) by {
        assert forall|i: int|
            0 <= i < 512 && (#[trigger] m2.entry(root, i)).spec_valid() implies l1b.contains(
            m2.entry(root, i).spec_ppn(),
        ) && m2.entry(root, i).spec_flags() == 1 by {
            if i != i0v {
                assert(m2.entry(root, i) == m1.entry(root, i));
            }
        }
        assert forall|i: int, j: int|
            0 <= i < 512 && 0 <= j < 512 && i != j && m2.entry(root, i).spec_valid() && m2.entry(
                root,
                j,
            ).spec_valid() implies m2.entry(root, i).spec_ppn() != m2.entry(root, j).spec_ppn() by {
            if i != i0v && j != i0v {
                assert(m2.entry(root, i) == m1.entry(root, i));
                assert(m2.entry(root, j) == m1.entry(root, j));
            } else if i == i0v {
                assert(m2.entry(root, j) == m1.entry(root, j));
                assert(l1s.contains(m1.entry(root, j).spec_ppn()));
            } else {
                assert(m2.entry(root, i) == m1.entry(root, i));
                assert(l1s.contains(m1.entry(root, i).spec_ppn()));
            }
        }
        assert forall|n: int, i: int|
            l1b.contains(n) && 0 <= i < 512 && (#[trigger] m2.entry(n, i)).spec_valid() implies
            l2s.contains(m2.entry(n, i).spec_ppn()) && m2.entry(n, i).spec_flags() == 1 by {
            if n == p {
                assert(m2.entry(n, i).bits == 0);
            } else {
                assert(m2.entry(n, i) == m1.entry(n, i));
            }
        }
        assert forall|n1: int, i1: int, n2: int, i2: int|
            l1b.contains(n1) && l1b.contains(n2) && 0 <= i1 < 512 && 0 <= i2 < 512 && !(n1 == n2
                && i1 == i2) && m2.entry(n1, i1).spec_valid() && m2.entry(
                n2,
                i2,
            ).spec_valid() implies m2.entry(n1, i1).spec_ppn() != m2.entry(n2, i2).spec_ppn() by {
            if n1 == p {
                assert(m2.entry(n1, i1).bits == 0);
            } else if n2 == p {
                assert(m2.entry(n2, i2).bits == 0);
            } else {
                assert(m2.entry(n1, i1) == m1.entry(n1, i1));
                assert(m2.entry(n2, i2) == m1.entry(n2, i2));
            }
        }
    }
    assert forall|w: int| #[trigger]
        translate_spec(m2, root, w) == translate_spec(m1, root, w) by {
        if idx0(w) != i0v {
            assert(m2.entry(root, idx0(w)) == m1.entry(root, idx0(w)));
            let e0 = m1.entry(root, idx0(w));
            if e0.spec_valid() {
                let n1 = e0.spec_ppn();
                assert(l1s.contains(n1));
                assert(m2.entry(n1, idx1(w)) == m1.entry(n1, idx1(w)));
                let e1 = m1.entry(n1, idx1(w));
                if e1.spec_valid() {
                    let n2 = e1.spec_ppn();
                    assert(l2s.contains(n2));
                    assert(m2.entry(n2, idx2(w)) == m1.entry(n2, idx2(w)));
                }
            }
        } else {
            assert(!m1.entry(root, idx0(w)).spec_valid());
            assert(translate_spec(m1, root, w) is None);
            assert(m2.entry(root, idx0(w)).spec_ppn() == p);
            assert(m2.entry(p, idx1(w)).bits == 0) by {
                vstd::arithmetic::div_mod::lemma_mod_division_less_than_divisor(w / 512, 512);
            }
            assert(translate_spec(m2, root, w) is None);
        }
    }
}

/// Installing a fresh zeroed leaf-level node under an invalid middle-level
/// slot keeps the table well formed and changes no translation.
proof fn lemma_install_l2(
    m1: PhysMem,
    m2: PhysMem,
    root: int,
    l1s: Set<int>,
    l2s: Set<int>,
    n1v: int,
    i1v: int,
    p: int,
)
    requires
        pt_wf(m1, root, l1s, l2s),
        l1s.contains(n1v),
        0 <= i1v < 512,
        !m1.entry(n1v, i1v).spec_valid(),
        0 <= p < m1.spec_len(),
        p != root,
        !l1s.contains(p),
        !l2s.contains(p),
        m2.wf(),
        m2.spec_len() == m1.spec_len(),
        forall|q: int| 0 <= q < m1.spec_len() && q != n1v && q != p ==> m2.pages@[q] == m1.pages@[q],
        m2.is_table(n1v),
        forall|j: int| 0 <= j < 512 && j != i1v ==> m2.entry(n1v, j) == m1.entry(n1v, j),
        m2.entry(n1v, i1v).spec_ppn() == p,
        m2.entry(n1v, i1v).spec_flags() == 1,
        m2.entry(n1v, i1v).spec_valid(),
        m2.is_table(p),
        forall|j: int| 0 <= j < 512 ==> m2.entry(p, j).bits == 0,
    ensures
        pt_wf(m2, root, l1s, l2s.insert(p)),
        forall|w: int|
            #[trigger] translate_spec(m2, root, w) == translate_spec(m1, root, w),
{
    let l2b = l2s.insert(p);
    assert(m2.pages@[root] == m1.pages@[root]);
    assert forall|n: int, i: int| (l1s.contains(n) && n != n1v) || l2s.contains(
        n,
    ) implies #[trigger] m2.entry(n, i) == m1.entry(n, i) by {
        assert(m2.pages@[n] == m1.pages@[n]);
    }
    assert forall|i: int| true implies #[trigger] m2.entry(root, i) == m1.entry(root, i) by {
        assert(m2.pages@[root] == m1.pages@[root]);
    }
    assert(pt_wf(m2, root, l1s, l2b)) by {
        assert forall|n: int| l1s.contains(n) implies m2.is_table(n) by {
            if n != n1v {
                assert(m2.pages@[n] == m1.pages@[n]);
            }
        }
        assert forall|n: int| l2b.contains(n) implies m2.is_table(n) by {
            if n != p {
                assert(m2.pages@[n] == m1.pages@[n]);
            }
        }
        assert forall|n: int, i: int|
            l1s.contains(n) && 0 <= i < 512 && (#[trigger] m2.entry(n, i)).spec_valid() implies
            l2b.contains(m2.entry(n, i).spec_ppn()) && m2.entry(n, i).spec_flags() == 1 by {
            if n == n1v && i == i1v {
            } else if n == n1v {
                assert(m2.entry(n, i) == m1.entry(n, i));
            } else {
                assert(m2.entry(n, i) == m1.entry(n, i));
            }
        }
        assert forall|na: int, ia: int, nb: int, ib: int|
            l1s.contains(na) && l1s.contains(nb) && 0 <= ia < 512 && 0 <= ib < 512 && !(na == nb
                && ia == ib) && m2.entry(na, ia).spec_valid() && m2.entry(
                nb,
                ib,
            ).spec_valid() implies m2.entry(na, ia).spec_ppn() != m2.entry(nb, ib).spec_ppn() by {
            let a_new = na == n1v && ia == i1v;
            let b_new = nb == n1v && ib == i1v;
            if a_new && !b_new {
                assert(m2.entry(nb, ib) == m1.entry(nb, ib));
                assert(l2s.contains(m1.entry(nb, ib).spec_ppn()));
            } else if !a_new && b_new {
                assert(m2.entry(na, ia) == m1.entry(na, ia));
                assert(l2s.contains(m1.entry(na, ia).spec_ppn()));
            } else if !a_new && !b_new {
                assert(m2.entry(na, ia) == m1.entry(na, ia));
                assert(m2.entry(nb, ib) == m1.entry(nb, ib));
            }
        }
    }
    assert forall|w: int| #[trigger]
        translate_spec(m2, root, w) == translate_spec(m1, root, w) by {
        let e0 = m1.entry(root, idx0(w));
        assert(m2.entry(root, idx0(w)) == e0);
        if e0.spec_valid() {
            let m = e0.spec_ppn();
            assert(l1s.contains(m));
            if m != n1v {
                assert(m2.entry(m, idx1(w)) == m1.entry(m, idx1(w)));
                let e1 = m1.entry(m, idx1(w));
                if e1.spec_valid() {
                    let n2 = e1.spec_ppn();
                    assert(l2s.contains(n2));
                    assert(m2.entry(n2, idx2(w)) == m1.entry(n2, idx2(w)));
                }
            } else {
                if idx1(w) != i1v {
                    assert(m2.entry(n1v, idx1(w)) == m1.entry(n1v, idx1(w)));
                    let e1 = m1.entry(n1v, idx1(w));
                    if e1.spec_valid() {
                        let n2 = e1.spec_ppn();
                        assert(l2s.contains(n2));
                        assert(m2.entry(n2, idx2(w)) == m1.entry(n2, idx2(w)));
                    }
                } else {
                    assert(!m1.entry(n1v, i1v).spec_valid());
                    assert(translate_spec(m1, root, w) is None);
                    assert(m2.entry(p, idx2(w)).bits == 0) by {
                        vstd::arithmetic::div_mod::lemma_mod_division_less_than_divisor(w, 512);
                    }
                    assert(translate_spec(m2, root, w) is None);
                }
            }
        }
    }
}

/// Writing the leaf entry for `vpn` changes only `vpn`'s translation: the
/// injectivity conditions of `pt_wf` make the leaf slots of distinct
/// virtual page numbers distinct.
proof fn lemma_leaf_write(
    m1: PhysMem,
    m2: PhysMem,
    root: int,
    l1s: Set<int>,
    l2s: Set<int>,
    vpn: int,
    n2v: int,
    e: PageTableEntry,
)
    requires
        pt_wf(m1, root, l1s, l2s),
        0 <= vpn < VPN_LIMIT,
        walk2_spec(m1, root, vpn) == Some(n2v),
        m2.wf(),
        m2.spec_len() == m1.spec_len(),
        forall|q: int| 0 <= q < m1.spec_len() && q != n2v ==> m2.pages@[q] == m1.pages@[q],
        m2.is_table(n2v),
        forall|j: int| 0 <= j < 512 && j != idx2(vpn) ==> m2.entry(n2v, j) == m1.entry(n2v, j),
        m2.entry(n2v, idx2(vpn)) == e,
    ensures
        pt_wf(m2, root, l1s, l2s),
        translate_spec(m2, root, vpn) == (if e.spec_valid() {
            Some(e)
        } else {
            None::<PageTableEntry>
        }),
        forall|w: int|
            0 <= w < VPN_LIMIT && w != vpn ==> #[trigger] translate_spec(m2, root, w)
                == translate_spec(m1, root, w),
        forall|w: int| #[trigger] walk2_spec(m2, root, w) == walk2_spec(m1, root, w),
{
    let e0v = m1.entry(root, idx0(vpn));
    let n1v = e0v.spec_ppn();
    assert(e0v.spec_valid() && l1s.contains(n1v));
    assert(l2s.contains(n2v));
    assert(n2v != root && !l1s.contains(n2v));
    assert forall|n: int, i: int| (n == root || l1s.contains(n) || (l2s.contains(n) && n
        != n2v)) implies #[trigger] m2.entry(n, i) == m1.entry(n, i) by {
        assert(m2.pages@[n] == m1.pages@[n]);
    }
    assert(pt_wf(m2, root, l1s, l2s)) by {
        assert forall|n: int| l2s.contains(n) implies m2.is_table(n) by {
            if n != n2v {
                assert(m2.pages@[n] == m1.pages@[n]);
            }
        }
    }
    assert forall|w: int| #[trigger] walk2_spec(m2, root, w) == walk2_spec(m1, root, w) by {
        assert(m2.entry(root, idx0(w)) == m1.entry(root, idx0(w)));
        let e0 = m1.entry(root, idx0(w));
        if e0.spec_valid() {
            assert(l1s.contains(e0.spec_ppn()));
            assert(m2.entry(e0.spec_ppn(), idx1(w)) == m1.entry(e0.spec_ppn(), idx1(w)));
        }
    }
    lemma_vpn_index_identity(vpn);
    assert(translate_spec(m2, root, vpn) == (if e.spec_valid() {
        Some(e)
    } else {
        None::<PageTableEntry>
    }));
    assert forall|w: int| 0 <= w < VPN_LIMIT && w != vpn implies #[trigger] translate_spec(
        m2,
        root,
        w,
    ) == translate_spec(m1, root, w) by {
        lemma_vpn_index_identity(w);
        let e0w = m1.entry(root, idx0(w));
        if e0w.spec_valid() {
            let n1w = e0w.spec_ppn();
            let e1w = m1.entry(n1w, idx1(w));
            if e1w.spec_valid() {
                let n2w = e1w.spec_ppn();
                if n2w != n2v {
                    assert(m2.entry(n2w, idx2(w)) == m1.entry(n2w, idx2(w)));
                } else {
                    // same leaf node: the paths must agree on both upper
                    // indexes, so the leaf slots differ
                    if idx0(w) != idx0(vpn) {
                        assert(n1w != n1v);
                        assert(m1.entry(n1w, idx1(w)).spec_ppn() != m1.entry(
                            n1v,
                            idx1(vpn),
                        ).spec_ppn());
                        assert(false);
                    } else if idx1(w) != idx1(vpn) {
                        assert(n1w == n1v);
                        assert(m1.entry(n1w, idx1(w)).spec_ppn() != m1.entry(
                            n1v,
                            idx1(vpn),
                        ).spec_ppn());
                        assert(false);
                    } else {
                        assert(idx2(w) != idx2(vpn));
                        assert(m2.entry(n2v, idx2(w)) == m1.entry(n2v, idx2(w)));
                    }
                }
            }
        }
    }
}

/// Under some witness of well-formedness, the root is a table frame.
proof fn lemma_wf_ex_root_is_table(mem: PhysMem, root: int)
    ensures
        pt_wf_ex(mem, root) ==> mem.is_table(root),
{
    if pt_wf_ex(mem, root) {
        let (l1s, l2s) = choose|l1s: Set<int>, l2s: Set<int>| pt_wf(mem, root, l1s, l2s);
    }
}

/// Under some witness, a valid root entry points at a table frame.
proof fn lemma_wf_ex_l1_is_table(mem: PhysMem, root: int, vpn: int)
    ensures
        pt_wf_ex(mem, root) && mem.entry(root, idx0(vpn)).spec_valid() ==> mem.is_table(
            mem.entry(root, idx0(vpn)).spec_ppn(),
        ),
{
    if pt_wf_ex(mem, root) {
        let (l1s, l2s) = choose|l1s: Set<int>, l2s: Set<int>| pt_wf(mem, root, l1s, l2s);
        vstd::arithmetic::div_mod::lemma_mod_division_less_than_divisor(vpn / 0x40000, 512);
    }
}

/// Under some witness, a valid middle-level entry points at a table frame.
proof fn lemma_wf_ex_l2_is_table(mem: PhysMem, root: int, vpn: int)
    ensures
        (pt_wf_ex(mem, root) && mem.entry(root, idx0(vpn)).spec_valid() && mem.entry(
            mem.entry(root, idx0(vpn)).spec_ppn(),
            idx1(vpn),
        ).spec_valid()) ==> mem.is_table(
            mem.entry(mem.entry(root, idx0(vpn)).spec_ppn(), idx1(vpn)).spec_ppn(),
        ),
{
    if pt_wf_ex(mem, root) {
        let (l1s, l2s) = choose|l1s: Set<int>, l2s: Set<int>| pt_wf(mem, root, l1s, l2s);
        vstd::arithmetic::div_mod::lemma_mod_division_less_than_divisor(vpn / 0x40000, 512);
        vstd::arithmetic::div_mod::lemma_mod_division_less_than_divisor(vpn / 512, 512);
    }
}

} // verus!
