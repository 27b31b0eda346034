//! The syscall-facing translation layer: resolve a user pointer range
//! against the address space named by an activation token into
//! kernel-accessible views of physical memory.

use crate::MmError;
use crate::address::{PAGE_SIZE, VPN_LIMIT};
use crate::page_table::{
    pt_wf_ex,
    spec_decode_root,
    translate_spec,
    PageTable,
    PhysMem,
};
use vstd::prelude::*;

verus! {

/// One physical view: `len` bytes starting `off` bytes into frame `ppn`.
#[derive(Clone, Copy, PartialEq, Eq, Structural)]
pub struct BufSeg {
    pub ppn: usize,
    pub off: usize,
    pub len: usize,
}

/// A scatter/gather buffer: an ordered sequence of physical byte views
/// whose concatenation stands for one contiguous user byte range.
pub struct UserBuffer {
    pub segs: Vec<BufSeg>,
}

/// Total bytes covered by the views.
pub open spec fn total_len(s: Seq<BufSeg>) -> int
    decreases s.len(),
{
    if s.len() == 0 {
        0
    } else {
        total_len(s.drop_last()) + s.last().len
    }
}

/// A view lies inside an existing data page.
pub open spec fn seg_valid(mem: PhysMem, s: BufSeg) -> bool {
    mem.is_data(s.ppn as int) && s.off + s.len <= PAGE_SIZE
}

pub open spec fn buf_valid(mem: PhysMem, segs: Seq<BufSeg>) -> bool {
    forall|i: int| 0 <= i < segs.len() ==> seg_valid(mem, #[trigger] segs[i])
}

/// The byte the address space rooted at `root` shows at virtual address
/// `addr`, or nothing when the page is unmapped or malformed.
pub open spec fn byte_at(mem: PhysMem, root: int, addr: int) -> Option<u8> {
    let v = addr / (PAGE_SIZE as int);
    if 0 <= addr && v < VPN_LIMIT {
        match translate_spec(mem, root, v) {
            Option::None => None,
            Option::Some(pte) => {
                if mem.is_data(pte.spec_ppn()) {
                    Some(mem.byte(pte.spec_ppn(), addr % (PAGE_SIZE as int)))
                } else {
                    None
                }
            },
        }
    } else {
        None
    }
}

/// The data frame that virtual page `v` maps to, or nothing when `v` is
/// out of range, unmapped, or mapped to something other than a data page.
pub open spec fn mapped_data_page(mem: PhysMem, root: int, v: int) -> Option<int> {
    if 0 <= v < VPN_LIMIT {
        match translate_spec(mem, root, v) {
            Option::None => None,
            Option::Some(pte) => {
                if mem.is_data(pte.spec_ppn()) {
                    Some(pte.spec_ppn())
                } else {
                    None
                }
            },
        }
    } else {
        None
    }
}

impl UserBuffer {
    pub open spec fn spec_total(self) -> int {
        total_len(self.segs@)
    }

    pub fn new(segs: Vec<BufSeg>) -> (b: UserBuffer)
        ensures
            b.segs@ == segs@,
    {
        UserBuffer { segs }
    }
}

/// A prefix one longer adds the next view's length.
pub proof fn lemma_prefix_len_step(s: Seq<BufSeg>, i: int)
    requires
        0 <= i < s.len(),
    ensures
        total_len(s.subrange(0, i + 1)) == total_len(s.subrange(0, i)) + s[i].len,
    decreases s.len(),
{
    let pre = s.subrange(0, i + 1);
    assert(pre.drop_last() =~= s.subrange(0, i));
    assert(pre.last() == s[i]);
}

/// Prefix sums of view lengths are monotone.
pub proof fn lemma_prefix_len_mono(s: Seq<BufSeg>, a: int, b: int)
    requires
        0 <= a <= b <= s.len(),
    ensures
        total_len(s.subrange(0, a)) <= total_len(s.subrange(0, b)),
    decreases b - a,
{
    if a < b {
        lemma_prefix_len_step(s, b - 1);
        lemma_prefix_len_mono(s, a, b - 1);
    }
}

/// The whole sequence is its own prefix.
pub proof fn lemma_prefix_len_all(s: Seq<BufSeg>)
    ensures
        total_len(s.subrange(0, s.len() as int)) == total_len(s),
{
    assert(s.subrange(0, s.len() as int) =~= s);
}

/// Split `[ptr, ptr + len)` at page boundaries in the address space that
/// `token` names: each resulting view covers exactly the part of the range
/// that falls on one page, in order, and their lengths sum to `len`. An
/// empty range yields an empty buffer; if any page of the range is
/// unmapped (or not a plain data page) the whole call fails with
/// `UnmappedAccess` and returns nothing.
#[verifier::rlimit(100)]
#[verifier::spinoff_prover]
pub fn translated_byte_buffer(mem: &PhysMem, token: u64, ptr: usize, len: usize) -> (r: Result<
    UserBuffer,
    MmError,
>)
    requires
        mem.wf(),
        ptr + len <= usize::MAX,
    ensures
        r is Err ==> r == Err::<UserBuffer, MmError>(MmError::UnmappedAccess),
        len == 0 ==> r is Ok && r->Ok_0.segs@.len() == 0,
        pt_wf_ex(*mem, spec_decode_root(token)) ==> {
            let root = spec_decode_root(token);
            let fp = ptr as int / (PAGE_SIZE as int);
            let lp = (ptr + len - 1) as int / (PAGE_SIZE as int);
            &&& (r is Err <==> len > 0 && exists|v: int|
                fp <= v <= lp && mapped_data_page(*mem, root, v) is None)
            &&& (r is Ok && len > 0 ==> {
                let segs = r->Ok_0.segs@;
                &&& segs.len() == lp - fp + 1
                &&& total_len(segs) == len
                &&& buf_valid(*mem, segs)
                &&& (forall|i: int|
                    0 <= i < segs.len() ==> {
                        let first = if i == 0 {
                            ptr as int
                        } else {
                            (fp + i) * PAGE_SIZE
                        };
                        let past = if fp + i == lp {
                            ptr + len
                        } else {
                            (fp + i + 1) * PAGE_SIZE
                        };
                        &&& mapped_data_page(*mem, root, fp + i) == Some(
                            (#[trigger] segs[i]).ppn as int,
                        )
                        &&& segs[i].off == first - (fp + i) * PAGE_SIZE
                        &&& segs[i].len == past - first
                        &&& segs[i].len <= PAGE_SIZE
                        &&& total_len(segs.subrange(0, i + 1)) == past - ptr
                    })
            })
        },
{
    if len == 0 {
        return Ok(UserBuffer { segs: Vec::new() });
    }
    let pt = PageTable::from_token(token);
    let fp = ptr / PAGE_SIZE;
    let lp = (ptr + (len - 1)) / PAGE_SIZE;
    let ghost root = spec_decode_root(token);
    proof {
        vstd::arithmetic::div_mod::lemma_div_is_ordered(
            ptr as int,
            (ptr + len - 1) as int,
            PAGE_SIZE as int,
        );
        if pt_wf_ex(*mem, root) {
            let (l1s, l2s) = choose|l1s: Set<int>, l2s: Set<int>|
                crate::page_table::pt_wf(*mem, root, l1s, l2s);
            assert(mem.is_table(root));
            assert(mem.pages@.len() == mem.pages.len());
            assert(root <= usize::MAX);
            assert(pt.root_ppn as int == root);
        }
    }
    let mut segs: Vec<BufSeg> = Vec::new();
    let mut i: usize = 0;
    let n = lp - fp + 1;
    while i < n
        invariant
            mem.wf(),
            0 <= i <= n,
            n == lp - fp + 1,
            fp == ptr as int / (PAGE_SIZE as int),
            lp == (ptr + len - 1) as int / (PAGE_SIZE as int),
            root == spec_decode_root(token),
            fp <= lp,
            len > 0,
            ptr + len <= usize::MAX,
            pt_wf_ex(*mem, root) ==> pt.root_ppn as int == root,
            segs@.len() == i,
            pt_wf_ex(*mem, root) ==> {
                &&& (forall|j: int|
                    0 <= j < i ==> {
                        let first = if j == 0 {
                            ptr as int
                        } else {
                            (fp + j) * PAGE_SIZE
                        };
                        let past = if fp + j == lp {
                            ptr + len
                        } else {
                            (fp + j + 1) * PAGE_SIZE
                        };
                        &&& mapped_data_page(*mem, root, fp + j) == Some(
                            (#[trigger] segs@[j]).ppn as int,
                        )
                        &&& segs@[j].off == first - (fp + j) * PAGE_SIZE
                        &&& segs@[j].len == past - first
                        &&& segs@[j].len <= PAGE_SIZE
                        &&& seg_valid(*mem, segs@[j])
                        &&& total_len(segs@.subrange(0, j + 1)) == past - ptr
                    })
            },
        decreases n - i,
    {
        let v = fp + i;
        if v >= VPN_LIMIT {
            proof {
                if pt_wf_ex(*mem, root) {
                    assert(fp as int <= v as int <= lp as int);
                    assert(mapped_data_page(*mem, root, v as int) is None);
                    assert(exists|w: int|
                        fp as int <= w <= lp as int && mapped_data_page(*mem, root, w) is None);
                }
            }
            return Err(MmError::UnmappedAccess);
        }
        let pte = match pt.translate(mem, v) {
            Some(pte) => pte,
            None => {
                proof {
                    if pt_wf_ex(*mem, root) {
                        assert(fp as int <= v as int <= lp as int);
                        assert(mapped_data_page(*mem, root, v as int) is None);
                        assert(exists|w: int|
                            fp as int <= w <= lp as int && mapped_data_page(*mem, root, w)
                                is None);
                    }
                }
                return Err(MmError::UnmappedAccess);
            },
        };
        let p64 = (pte.bits / 1024) % 0x100000000000u64;
        if p64 >= mem.len() as u64 {
            proof {
                if pt_wf_ex(*mem, root) {
                    assert(fp as int <= v as int <= lp as int);
                    assert(!mem.is_data(translate_spec(*mem, root, v as int)->0.spec_ppn()));
                    assert(mapped_data_page(*mem, root, v as int) is None);
                    assert(exists|w: int|
                        fp as int <= w <= lp as int && mapped_data_page(*mem, root, w) is None);
                }
            }
            return Err(MmError::UnmappedAccess);
        }
        let ppn = p64 as usize;
        if !mem.data_at(ppn) {
            proof {
                if pt_wf_ex(*mem, root) {
                    assert(fp as int <= v as int <= lp as int);
                    assert(mapped_data_page(*mem, root, v as int) is None);
                    assert(exists|w: int|
                        fp as int <= w <= lp as int && mapped_data_page(*mem, root, w) is None);
                }
            }
            return Err(MmError::UnmappedAccess);
        }
        let first = if i == 0 {
            ptr
        } else {
            v * PAGE_SIZE
        };
        let past = if v == lp {
            ptr + len
        } else {
            (v + 1) * PAGE_SIZE
        };
        proof {
            lemma_page_bounds(ptr as int, len as int, fp as int, lp as int, i as int);
        }
        let seg = BufSeg { ppn, off: first - v * PAGE_SIZE, len: past - first };
        let ghost segs_pre = segs@;
        segs.push(seg);
        i = i + 1;
        proof {
            if pt_wf_ex(*mem, root) {
                assert(mapped_data_page(*mem, root, v as int) == Some(ppn as int));
                assert(segs@.drop_last() =~= segs_pre);
                assert forall|j: int|
                    #![trigger segs_pre.subrange(0, j + 1)]
                    0 <= j < i as int - 1 implies segs@.subrange(0, j + 1) =~= segs_pre.subrange(
                    0,
                    j + 1,
                ) by {}
                lemma_prefix_len_step(segs@, i as int - 1);
                assert(segs@.subrange(0, i as int - 1) =~= segs_pre);
                assert(total_len(segs_pre) == first - ptr) by {
                    if i as int - 1 > 0 {
                        assert(segs_pre.subrange(0, i as int - 1) =~= segs_pre);
                    }
                }
            }
        }
    }
    proof {
        if pt_wf_ex(*mem, root) {
            lemma_prefix_len_all(segs@);
            assert(total_len(segs@.subrange(0, n as int)) == (ptr + len) - ptr);
            assert forall|w: int| fp as int <= w <= lp as int implies mapped_data_page(
                *mem,
                root,
                w,
            ) is Some by {
                let j = w - fp;
                assert(mapped_data_page(*mem, root, fp + j) == Some(segs@[j].ppn as int));
            }
        }
    }
    Ok(UserBuffer { segs })
}

/// Extract a leaf entry's physical page number, bounded by the size of
/// physical memory so that it indexes `mem` safely.
fn pte_ppn_checked(mem: &PhysMem, pte: crate::page_table::PageTableEntry) -> (r: usize)
    ensures
        pte.spec_ppn() < mem.spec_len() ==> r == pte.spec_ppn(),
{
    let p64 = (pte.bits / 1024) % 0x100000000000u64;
    if p64 < mem.pages.len() as u64 {
        p64 as usize
    } else {
        0
    }
}

/// The per-page split points of `[ptr, ptr + len)` stay inside one page.
proof fn lemma_page_bounds(ptr: int, len: int, fp: int, lp: int, i: int)
    requires
        0 <= ptr,
        0 < len,
        ptr + len <= usize::MAX,
        fp == ptr / (PAGE_SIZE as int),
        lp == (ptr + len - 1) / (PAGE_SIZE as int),
        0 <= i <= lp - fp,
    ensures
        ({
            let first = if i == 0 {
                ptr
            } else {
                (fp + i) * PAGE_SIZE
            };
            let past = if fp + i == lp {
                ptr + len
            } else {
                (fp + i + 1) * PAGE_SIZE
            };
            &&& (fp + i) * PAGE_SIZE <= first
            &&& first < past <= (fp + i) * PAGE_SIZE + PAGE_SIZE
            &&& (i == 0 ==> first == ptr)
            &&& (fp + i == lp ==> past == ptr + len)
        }),
{
    let ps = PAGE_SIZE as int;
    vstd::arithmetic::div_mod::lemma_fundamental_div_mod(ptr, ps);
    vstd::arithmetic::div_mod::lemma_fundamental_div_mod(ptr + len - 1, ps);
    vstd::arithmetic::div_mod::lemma_mod_bound(ptr, ps);
    vstd::arithmetic::div_mod::lemma_mod_bound(ptr + len - 1, ps);
    assert(fp * ps <= ptr < fp * ps + ps);
    assert(lp * ps <= ptr + len - 1 < lp * ps + ps);
    assert((fp + i) * ps == fp * ps + i * ps) by (nonlinear_arith);
    assert((fp + i + 1) * ps == fp * ps + i * ps + ps) by (nonlinear_arith);
    assert(i * ps >= 0) by (nonlinear_arith)
        requires
            i >= 0,
            ps > 0,
    ;
    if i > 0 {
        assert(i * ps >= ps) by (nonlinear_arith)
            requires
                i >= 1,
                ps > 0,
        ;
    }
    if fp + i < lp {
        assert((fp + i + 1) * ps <= lp * ps) by (nonlinear_arith)
            requires
                fp + i + 1 <= lp,
                ps > 0,
        ;
    }
}

/// Concatenate the views into one owned byte vector: the single logical
/// byte stream the views stand for. Fails with `UnmappedAccess` when some
/// view does not point into a data page.
#[verifier::rlimit(100)]
#[verifier::spinoff_prover]
pub fn read_buffer(mem: &PhysMem, buf: &UserBuffer) -> (r: Result<Vec<u8>, MmError>)
    requires
        mem.wf(),
    ensures
        r is Ok <==> buf_valid(*mem, buf.segs@),
        r is Err ==> r == Err::<Vec<u8>, MmError>(MmError::UnmappedAccess),
        r is Ok ==> {
            let out = r->Ok_0@;
            &&& out.len() == total_len(buf.segs@)
            &&& (forall|i: int, j: int|
                #![trigger mem.byte(buf.segs@[i].ppn as int, buf.segs@[i].off + j)]
                0 <= i < buf.segs@.len() && 0 <= j < buf.segs@[i].len ==> out[total_len(
                    buf.segs@.subrange(0, i),
                ) + j] == mem.byte(buf.segs@[i].ppn as int, buf.segs@[i].off + j))
        },
{
    let mut out: Vec<u8> = Vec::new();
    let mut i: usize = 0;
    while i < buf.segs.len()
        invariant
            mem.wf(),
            0 <= i <= buf.segs@.len(),
            forall|k: int| 0 <= k < i ==> seg_valid(*mem, #[trigger] buf.segs@[k]),
            out@.len() == total_len(buf.segs@.subrange(0, i as int)),
            forall|k: int, j: int|
                #![trigger mem.byte(buf.segs@[k].ppn as int, buf.segs@[k].off + j)]
                0 <= k < i && 0 <= j < buf.segs@[k].len ==> out@[total_len(
                    buf.segs@.subrange(0, k),
                ) + j] == mem.byte(buf.segs@[k].ppn as int, buf.segs@[k].off + j),
        decreases buf.segs@.len() - i,
    {
        let s = buf.segs[i];
        if s.off > PAGE_SIZE || s.len > PAGE_SIZE - s.off || !mem.data_at(s.ppn) {
            return Err(MmError::UnmappedAccess);
        }
        let ghost out_pre = out@;
        let mut j: usize = 0;
        while j < s.len
            invariant
                mem.wf(),
                seg_valid(*mem, s),
                0 <= j <= s.len,
                out@.len() == out_pre.len() + j,
                forall|k: int| #![trigger out@[k]] 0 <= k < out_pre.len() ==> out@[k] == out_pre[k],
                forall|k: int|
                    #![trigger mem.byte(s.ppn as int, s.off + k)]
                    0 <= k < j ==> out@[out_pre.len() + k] == mem.byte(s.ppn as int, s.off + k),
            decreases s.len - j,
        {
            out.push(mem.read_byte(s.ppn, s.off + j));
            j = j + 1;
        }
        proof {
            assert(out@.len() == out_pre.len() + s.len);
            assert(forall|k2: int| 0 <= k2 < out_pre.len() ==> #[trigger] out@[k2] == out_pre[k2]);
        }
        i = i + 1;
        proof {
            lemma_prefix_len_step(buf.segs@, i as int - 1);
            assert forall|k: int, j: int|
                #![trigger mem.byte(buf.segs@[k].ppn as int, buf.segs@[k].off + j)]
                0 <= k < i && 0 <= j < buf.segs@[k].len implies out@[total_len(
                buf.segs@.subrange(0, k),
            ) + j] == mem.byte(buf.segs@[k].ppn as int, buf.segs@[k].off + j) by {
                if k < i - 1 {
                    lemma_prefix_len_step(buf.segs@, k);
                    lemma_prefix_len_mono(buf.segs@, k + 1, i - 1);
                    lemma_prefix_len_mono(buf.segs@, 0, k);
                    assert(buf.segs@.subrange(0, 0) =~= Seq::<BufSeg>::empty());
                    let idx = total_len(buf.segs@.subrange(0, k)) + j;
                    assert(idx >= 0);
                    assert(idx < total_len(buf.segs@.subrange(0, k + 1)));
                    assert(idx < out_pre.len());
                    assert(out_pre[idx] == mem.byte(buf.segs@[k].ppn as int, buf.segs@[k].off + j));
                    assert(out@[idx] == out_pre[idx]);
                }
            }
        }
    }
    proof {
        assert(buf.segs@.subrange(0, buf.segs@.len() as int) =~= buf.segs@);
    }
    Ok(out)
}

/// Check every view points into a data page with room for its bytes.
fn check_buffer(mem: &PhysMem, buf: &UserBuffer) -> (b: bool)
    requires
        mem.wf(),
    ensures
        b == buf_valid(*mem, buf.segs@),
{
    let mut i: usize = 0;
    while i < buf.segs.len()
        invariant
            mem.wf(),
            0 <= i <= buf.segs@.len(),
            forall|k: int| 0 <= k < i ==> seg_valid(*mem, #[trigger] buf.segs@[k]),
        decreases buf.segs@.len() - i,
    {
        let s = buf.segs[i];
        if s.off > PAGE_SIZE || s.len > PAGE_SIZE - s.off || !mem.data_at(s.ppn) {
            proof {
                assert(!seg_valid(*mem, buf.segs@[i as int]));
            }
            return false;
        }
        i = i + 1;
    }
    true
}

/// Scatter `data` across the views, in order: the reverse of
/// `read_buffer`. Fails, writing nothing, when a view is invalid or the
/// data does not exactly fill the views.
#[verifier::rlimit(100)]
#[verifier::spinoff_prover]
pub fn write_buffer(mem: &mut PhysMem, buf: &UserBuffer, data: &Vec<u8>) -> (r: Result<
    (),
    MmError,
>)
    requires
        old(mem).wf(),
    ensures
        final (mem).wf(),
        final (mem).spec_len() == old(mem).spec_len(),
        r is Ok <==> buf_valid(*old(mem), buf.segs@) && data@.len() == total_len(buf.segs@),
        r is Err ==> final (mem).pages@ == old(mem).pages@ && (r == Err::<(), MmError>(
            MmError::UnmappedAccess,
        ) || r == Err::<(), MmError>(MmError::CrossPageValue)),
        forall|q: int| #![trigger final(mem).pages@[q]]
            0 <= q < old(mem).spec_len() && final (mem).pages@[q] != old(mem).pages@[q] ==> old(
                mem,
            ).is_data(q) && final (mem).is_data(q) && (exists|i: int|
                0 <= i < buf.segs@.len() && (#[trigger] buf.segs@[i]).ppn == q),
        forall|q: int|
            0 <= q < old(mem).spec_len() ==> (final (mem).is_data(q) == old(mem).is_data(q)
                && final (mem).is_table(q) == old(mem).is_table(q)),
        r is Ok && (forall|i1: int, i2: int|
            0 <= i1 < buf.segs@.len() && 0 <= i2 < buf.segs@.len() && i1 != i2 ==> (
            #[trigger] buf.segs@[i1]).ppn != (#[trigger] buf.segs@[i2]).ppn) ==> {
            &&& (forall|i: int, j: int|
                #![trigger final(mem).byte(buf.segs@[i].ppn as int, buf.segs@[i].off + j)]
                0 <= i < buf.segs@.len() && 0 <= j < buf.segs@[i].len ==> final (mem).byte(
                    buf.segs@[i].ppn as int,
                    buf.segs@[i].off + j,
                ) == data@[total_len(buf.segs@.subrange(0, i)) + j])
            &&& (forall|i: int, j: int|
                #![trigger final(mem).byte(buf.segs@[i].ppn as int, j)]
                0 <= i < buf.segs@.len() && 0 <= j < PAGE_SIZE && !(buf.segs@[i].off <= j
                    < buf.segs@[i].off + buf.segs@[i].len) ==> final (mem).byte(
                    buf.segs@[i].ppn as int,
                    j,
                ) == old(mem).byte(buf.segs@[i].ppn as int, j))
        },
{
    let data_len = data.len();
    if !check_buffer(mem, buf) {
        return Err(MmError::UnmappedAccess);
    }
    let mut total: usize = 0;
    let mut i: usize = 0;
    while i < buf.segs.len()
        invariant
            0 <= i <= buf.segs@.len(),
            total == total_len(buf.segs@.subrange(0, i as int)),
            data_len == data@.len(),
            forall|k: int| 0 <= k < buf.segs@.len() ==> seg_valid(*mem, #[trigger] buf.segs@[k]),
            mem.wf(),
        decreases buf.segs@.len() - i,
    {
        let s = buf.segs[i];
        if s.len > usize::MAX - total {
            proof {
                lemma_prefix_len_step(buf.segs@, i as int);
                lemma_prefix_len_mono(buf.segs@, i as int + 1, buf.segs@.len() as int);
                assert(buf.segs@.subrange(0, buf.segs@.len() as int) =~= buf.segs@);
                assert(total_len(buf.segs@) > usize::MAX);
            }
            return Err(MmError::CrossPageValue);
        }
        total = total + s.len;
        i = i + 1;
        proof {
            lemma_prefix_len_step(buf.segs@, i as int - 1);
        }
    }
    proof {
        assert(buf.segs@.subrange(0, buf.segs@.len() as int) =~= buf.segs@);
    }
    if data_len != total {
        return Err(MmError::CrossPageValue);
    }
    let mut pos: usize = 0;
    let mut k: usize = 0;
    let ghost distinct = forall|i1: int, i2: int|
        0 <= i1 < buf.segs@.len() && 0 <= i2 < buf.segs@.len() && i1 != i2 ==> (
        #[trigger] buf.segs@[i1]).ppn != (#[trigger] buf.segs@[i2]).ppn;
    while k < buf.segs.len()
        invariant
            mem.wf(),
            mem.spec_len() == old(mem).spec_len(),
            0 <= k <= buf.segs@.len(),
            pos == total_len(buf.segs@.subrange(0, k as int)),
            data@.len() == total_len(buf.segs@),
            data@.len() <= usize::MAX,
            0 <= pos <= data@.len(),
            distinct == (forall|i1: int, i2: int|
                0 <= i1 < buf.segs@.len() && 0 <= i2 < buf.segs@.len() && i1 != i2 ==> (
                #[trigger] buf.segs@[i1]).ppn != (#[trigger] buf.segs@[i2]).ppn),
            forall|kk: int|
                0 <= kk < buf.segs@.len() ==> seg_valid(*old(mem), #[trigger] buf.segs@[kk]),
            forall|q: int| #![trigger mem.pages@[q]]
                0 <= q < old(mem).spec_len() && mem.pages@[q] != old(mem).pages@[q] ==> old(
                    mem,
                ).is_data(q) && mem.is_data(q) && (exists|i: int|
                    0 <= i < k && (#[trigger] buf.segs@[i]).ppn == q),
            forall|q: int|
                0 <= q < old(mem).spec_len() ==> (mem.is_data(q) == old(mem).is_data(q)
                    && mem.is_table(q) == old(mem).is_table(q)),
            distinct ==> (forall|i: int, j: int|
                #![trigger mem.byte(buf.segs@[i].ppn as int, buf.segs@[i].off + j)]
                0 <= i < k && 0 <= j < buf.segs@[i].len ==> mem.byte(
                    buf.segs@[i].ppn as int,
                    buf.segs@[i].off + j,
                ) == data@[total_len(buf.segs@.subrange(0, i)) + j]),
            distinct ==> (forall|i: int, j: int|
                #![trigger mem.byte(buf.segs@[i].ppn as int, j)]
                0 <= i < k && 0 <= j < PAGE_SIZE && !(buf.segs@[i].off <= j < buf.segs@[i].off
                    + buf.segs@[i].len) ==> mem.byte(buf.segs@[i].ppn as int, j) == old(mem).byte(
                    buf.segs@[i].ppn as int,
                    j,
                )),
        decreases buf.segs@.len() - k,
    {
        let s = buf.segs[k];
        proof {
            lemma_prefix_len_step(buf.segs@, k as int);
            lemma_prefix_len_mono(buf.segs@, k as int + 1, buf.segs@.len() as int);
            assert(buf.segs@.subrange(0, buf.segs@.len() as int) =~= buf.segs@);
        }
        let ghost mem_k = *mem;
        let mut j: usize = 0;
        while j < s.len
            invariant
                mem.wf(),
                mem.spec_len() == mem_k.spec_len(),
                0 <= j <= s.len,
                seg_valid(*mem, s),
                seg_valid(mem_k, s),
                pos + s.len <= data@.len(),
                data@.len() <= usize::MAX,
                forall|q: int| #![trigger mem.pages@[q]]
                    0 <= q < mem_k.spec_len() && q != s.ppn ==> mem.pages@[q] == mem_k.pages@[q],
                mem.is_data(s.ppn as int),
                forall|jj: int|
                    #![trigger mem.byte(s.ppn as int, s.off + jj)]
                    0 <= jj < j ==> mem.byte(s.ppn as int, s.off + jj) == data@[pos + jj],
                forall|jj: int|
                    #![trigger mem.byte(s.ppn as int, jj)]
                    0 <= jj < PAGE_SIZE && !(s.off <= jj < s.off + j) ==> mem.byte(s.ppn as int, jj)
                        == mem_k.byte(s.ppn as int, jj),
            decreases s.len - j,
        {
            mem.write_byte(s.ppn, s.off + j, data[pos + j]);
            j = j + 1;
        }
        pos = pos + s.len;
        k = k + 1;
        proof {
            assert forall|q: int| #![trigger mem.pages@[q]]
                0 <= q < old(mem).spec_len() && mem.pages@[q] != old(mem).pages@[q] implies old(
                mem,
            ).is_data(q) && mem.is_data(q) && (exists|i: int|
                0 <= i < k && (#[trigger] buf.segs@[i]).ppn == q) by {
                if q != s.ppn {
                    assert(mem.pages@[q] == mem_k.pages@[q]);
                } else {
                    assert(buf.segs@[k as int - 1].ppn == q);
                }
            }
            if distinct {
                assert forall|i: int, j2: int|
                    #![trigger mem.byte(buf.segs@[i].ppn as int, buf.segs@[i].off + j2)]
                    0 <= i < k && 0 <= j2 < buf.segs@[i].len implies mem.byte(
                    buf.segs@[i].ppn as int,
                    buf.segs@[i].off + j2,
                ) == data@[total_len(buf.segs@.subrange(0, i)) + j2] by {
                    if i < k - 1 {
                        assert(buf.segs@[i].ppn != s.ppn);
                        assert(mem.pages@[buf.segs@[i].ppn as int] == mem_k.pages@[buf.segs@[i].ppn
                            as int]);
                        assert(mem_k.byte(buf.segs@[i].ppn as int, buf.segs@[i].off + j2)
                            == data@[total_len(buf.segs@.subrange(0, i)) + j2]);
                    }
                }
                assert forall|i: int, j2: int|
                    #![trigger mem.byte(buf.segs@[i].ppn as int, j2)]
                    0 <= i < k && 0 <= j2 < PAGE_SIZE && !(buf.segs@[i].off <= j2 < buf.segs@[i].off
                        + buf.segs@[i].len) implies mem.byte(buf.segs@[i].ppn as int, j2) == old(
                    mem,
                ).byte(buf.segs@[i].ppn as int, j2) by {
                    if i < k - 1 {
                        assert(buf.segs@[i].ppn != s.ppn);
                        assert(mem.pages@[buf.segs@[i].ppn as int] == mem_k.pages@[buf.segs@[i].ppn
                            as int]);
                        assert(mem_k.byte(buf.segs@[i].ppn as int, j2) == old(mem).byte(
                            buf.segs@[i].ppn as int,
                            j2,
                        ));
                        assert(mem.byte(buf.segs@[i].ppn as int, j2) == mem_k.byte(
                            buf.segs@[i].ppn as int,
                            j2,
                        ));
                    } else {
                        assert(buf.segs@[i] == s);
                        assert(mem.byte(s.ppn as int, j2) == mem_k.byte(s.ppn as int, j2));
                        assert(mem_k.byte(s.ppn as int, j2) == old(mem).byte(s.ppn as int, j2))
                            by {
                            if mem_k.pages@[s.ppn as int] != old(mem).pages@[s.ppn as int] {
                                let i0 = choose|i0: int|
                                    0 <= i0 < k - 1 && (#[trigger] buf.segs@[i0]).ppn == s.ppn;
                                assert(false);
                            }
                        }
                    }
                }
            }
        }
    }
    Ok(())
}

/// Read bytes at `ptr` in the space `token` names until a NUL terminator,
/// re-translating at each page crossing, and return them without the
/// terminator. Fails with `UnmappedAccess` when a page is unmapped before
/// the terminator, and with `UnterminatedString` once `max` bytes have
/// been read without finding one — the length cap that keeps the scan
/// bounded.
#[verifier::rlimit(100)]
#[verifier::spinoff_prover]
pub fn translated_str(mem: &PhysMem, token: u64, ptr: usize, max: usize) -> (r: Result<
    Vec<u8>,
    MmError,
>)
    requires
        mem.wf(),
    ensures
        r is Err ==> r == Err::<Vec<u8>, MmError>(MmError::UnmappedAccess) || r == Err::<
            Vec<u8>,
            MmError,
        >(MmError::UnterminatedString),
        pt_wf_ex(*mem, spec_decode_root(token)) ==> {
            let root = spec_decode_root(token);
            &&& (r is Ok ==> {
                let s = r->Ok_0@;
                &&& s.len() <= max
                &&& (forall|t: int|
                    0 <= t < s.len() ==> ptr + t <= usize::MAX && #[trigger] byte_at(
                        *mem,
                        root,
                        ptr + t,
                    ) == Some(s[t]) && s[t] != 0)
                &&& (s.len() < max ==> ptr + s.len() <= usize::MAX && byte_at(
                    *mem,
                    root,
                    ptr + s.len(),
                ) == Some(0u8))
            })
            &&& (r == Err::<Vec<u8>, MmError>(MmError::UnterminatedString) ==> forall|t: int|
                0 <= t < max ==> ptr + t <= usize::MAX && (#[trigger] byte_at(*mem, root, ptr + t))
                    is Some && byte_at(*mem, root, ptr + t)->0 != 0)
            &&& (r == Err::<Vec<u8>, MmError>(MmError::UnmappedAccess) ==> exists|k: int|
                0 <= k < max && (ptr + k > usize::MAX || (#[trigger] byte_at(*mem, root, ptr + k))
                    is None) && (forall|t: int|
                    0 <= t < k ==> ptr + t <= usize::MAX && (#[trigger] byte_at(*mem, root, ptr + t))
                        is Some && byte_at(*mem, root, ptr + t)->0 != 0))
        },
{
    let pt = PageTable::from_token(token);
    let ghost root = spec_decode_root(token);
    proof {
        if pt_wf_ex(*mem, root) {
            let (l1s, l2s) = choose|l1s: Set<int>, l2s: Set<int>|
                crate::page_table::pt_wf(*mem, root, l1s, l2s);
            assert(mem.is_table(root));
            assert(mem.pages@.len() == mem.pages.len());
            assert(pt.root_ppn as int == root);
        }
    }
    let mut acc: Vec<u8> = Vec::new();
    let mut i: usize = 0;
    while i < max
        invariant
            mem.wf(),
            0 <= i <= max,
            acc@.len() == i,
            root == spec_decode_root(token),
            pt_wf_ex(*mem, root) ==> pt.root_ppn as int == root,
            pt_wf_ex(*mem, root) ==> forall|t: int|
                0 <= t < i ==> ptr + t <= usize::MAX && #[trigger] byte_at(*mem, root, ptr + t)
                    == Some(acc@[t]) && acc@[t] != 0,
        decreases max - i,
    {
        if i > usize::MAX - ptr {
            return Err(MmError::UnmappedAccess);
        }
        let addr = ptr + i;
        let v = addr / PAGE_SIZE;
        if v >= VPN_LIMIT {
            proof {
                if pt_wf_ex(*mem, root) {
                    assert(byte_at(*mem, root, ptr + i) is None);
                }
            }
            return Err(MmError::UnmappedAccess);
        }
        let pte = match pt.translate(mem, v) {
            Some(pte) => pte,
            None => {
                proof {
                    if pt_wf_ex(*mem, root) {
                        assert(byte_at(*mem, root, ptr + i) is None);
                    }
                }
                return Err(MmError::UnmappedAccess);
            },
        };
        let p64 = (pte.bits / 1024) % 0x100000000000u64;
        if p64 >= mem.len() as u64 {
            proof {
                if pt_wf_ex(*mem, root) {
                    assert(!mem.is_data(translate_spec(*mem, root, v as int)->0.spec_ppn()));
                    assert(byte_at(*mem, root, ptr + i) is None);
                }
            }
            return Err(MmError::UnmappedAccess);
        }
        let ppn = p64 as usize;
        if !mem.data_at(ppn) {
            proof {
                if pt_wf_ex(*mem, root) {
                    assert(byte_at(*mem, root, ptr + i) is None);
                }
            }
            return Err(MmError::UnmappedAccess);
        }
        let b = mem.read_byte(ppn, addr % PAGE_SIZE);
        proof {
            if pt_wf_ex(*mem, root) {
                assert(byte_at(*mem, root, ptr + i) == Some(b));
            }
        }
        if b == 0 {
            return Ok(acc);
        }
        acc.push(b);
        i = i + 1;
    }
    Err(MmError::UnterminatedString)
}

/// The bytes a user range shows, when every page of it is mapped to a
/// data page; nothing otherwise.
pub open spec fn user_range_bytes(mem: PhysMem, root: int, ptr: int, len: int) -> Option<Seq<u8>> {
    if len == 0 {
        Some(Seq::empty())
    } else if forall|v: int|
        ptr / (PAGE_SIZE as int) <= v <= (ptr + len - 1) / (PAGE_SIZE as int)
            ==> (#[trigger] mapped_data_page(mem, root, v)) is Some {
        Some(Seq::new(len as nat, |t: int| byte_at(mem, root, ptr + t)->0))
    } else {
        None
    }
}

/// Concatenating the views that `translated_byte_buffer` produced yields
/// exactly the bytes of the user range, in order.
#[verifier::rlimit(100)]
#[verifier::spinoff_prover]
pub proof fn lemma_concat_is_user_bytes(
    mem: PhysMem,
    root: int,
    ptr: int,
    len: int,
    segs: Seq<BufSeg>,
    out: Seq<u8>,
)
    requires
        0 < len,
        0 <= ptr,
        ptr + len <= usize::MAX,
        ({
            let fp = ptr / (PAGE_SIZE as int);
            let lp = (ptr + len - 1) / (PAGE_SIZE as int);
            &&& segs.len() == lp - fp + 1
            &&& (forall|i: int|
                0 <= i < segs.len() ==> {
                    let first = if i == 0 {
                        ptr
                    } else {
                        (fp + i) * PAGE_SIZE
                    };
                    let past = if fp + i == lp {
                        ptr + len
                    } else {
                        (fp + i + 1) * PAGE_SIZE
                    };
                    &&& mapped_data_page(mem, root, fp + i) == Some((#[trigger] segs[i]).ppn as int)
                    &&& segs[i].off == first - (fp + i) * PAGE_SIZE
                    &&& segs[i].len == past - first
                    &&& total_len(segs.subrange(0, i + 1)) == past - ptr
                })
        }),
        out.len() == total_len(segs),
        forall|i: int, j: int|
            #![trigger mem.byte(segs[i].ppn as int, segs[i].off + j)]
            0 <= i < segs.len() && 0 <= j < segs[i].len ==> out[total_len(segs.subrange(0, i)) + j]
                == mem.byte(segs[i].ppn as int, segs[i].off + j),
    ensures
        user_range_bytes(mem, root, ptr, len) == Some(out),
{
    let ps = PAGE_SIZE as int;
    let fp = ptr / ps;
    let lp = (ptr + len - 1) / ps;
    assert forall|v: int| fp <= v <= lp implies (#[trigger] mapped_data_page(mem, root, v))
        is Some by {
        let i = v - fp;
        assert(mapped_data_page(mem, root, fp + i) == Some(segs[i].ppn as int));
    }
    let ub = user_range_bytes(mem, root, ptr, len)->0;
    assert(out.len() == len) by {
        assert(segs.subrange(0, segs.len() as int) =~= segs);
        assert(total_len(segs.subrange(0, segs.len() as int)) == (ptr + len) - ptr);
    }
    assert forall|t: int| 0 <= t < len implies out[t] == ub[t] by {
        vstd::arithmetic::div_mod::lemma_div_is_ordered(ptr, ptr + t, ps);
        vstd::arithmetic::div_mod::lemma_div_is_ordered(ptr + t, ptr + len - 1, ps);
        let i = (ptr + t) / ps - fp;
        vstd::arithmetic::div_mod::lemma_fundamental_div_mod(ptr + t, ps);
        vstd::arithmetic::div_mod::lemma_mod_bound(ptr + t, ps);
        vstd::arithmetic::div_mod::lemma_fundamental_div_mod(ptr, ps);
        vstd::arithmetic::div_mod::lemma_mod_bound(ptr, ps);
        vstd::arithmetic::div_mod::lemma_fundamental_div_mod(ptr + len - 1, ps);
        vstd::arithmetic::div_mod::lemma_mod_bound(ptr + len - 1, ps);
        assert((fp + i) * ps == (ptr + t) / ps * ps) by (nonlinear_arith)
            requires
                fp + i == (ptr + t) / ps,
        ;
        let first = if i == 0 {
            ptr
        } else {
            (fp + i) * ps
        };
        let past = if fp + i == lp {
            ptr + len
        } else {
            (fp + i + 1) * ps
        };
        assert((fp + i + 1) * ps == (fp + i) * ps + ps) by (nonlinear_arith);
        assert(first <= ptr + t < past);
        let j = ptr + t - first;
        assert(0 <= j < segs[i].len);
        assert(total_len(segs.subrange(0, i)) == first - ptr) by {
            if i == 0 {
                assert(segs.subrange(0, 0) =~= Seq::<BufSeg>::empty());
            } else {
                let pasti = if fp + (i - 1) == lp {
                    ptr + len
                } else {
                    (fp + i) * ps
                };
                assert(total_len(segs.subrange(0, i)) == pasti - ptr);
                assert(fp + (i - 1) != lp);
            }
        }
        assert(out[total_len(segs.subrange(0, i)) + j] == mem.byte(
            segs[i].ppn as int,
            segs[i].off + j,
        ));
        assert(total_len(segs.subrange(0, i)) + j == t);
        assert(segs[i].off + j == (ptr + t) % ps) by {
            vstd::arithmetic::div_mod::lemma_fundamental_div_mod_converse_mod(
                ptr + t,
                ps,
                fp + i,
                ptr + t - (fp + i) * ps,
            );
        }
        assert(ub[t] == byte_at(mem, root, ptr + t)->0);
        assert((ptr + t) / ps == fp + i);
        assert(mapped_data_page(mem, root, fp + i) == Some(segs[i].ppn as int));
        assert(byte_at(mem, root, ptr + t) == Some(
            mem.byte(segs[i].ppn as int, (ptr + t) % ps),
        ));
    }
    assert(ub =~= out);
}

} // verus!
