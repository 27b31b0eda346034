use sv39_mm::address::{VirtAddr, PAGE_SIZE};
use sv39_mm::frame_allocator::FrameAllocator;
use sv39_mm::memory_set::{MemorySet, MAP_PERM_R, MAP_PERM_W};
use sv39_mm::page_table::{PageTable, PhysMem};
use sv39_mm::syscall::init;
use sv39_mm::translate::{read_buffer, translated_byte_buffer, translated_str, write_buffer};
use sv39_mm::MmError;

#[test]
fn frame_pool_lifo_reuse() {
    // pool seeded with physical pages [100..110)
    let mut fa = FrameAllocator::new(100, 110);
    assert_eq!(fa.frame_alloc(), Ok(100));
    assert_eq!(fa.frame_alloc(), Ok(101));
    assert_eq!(fa.frame_alloc(), Ok(102));
    assert_eq!(fa.frame_dealloc(101), Ok(()));
    assert_eq!(fa.frame_alloc(), Ok(101));
    assert_eq!(fa.frame_alloc(), Ok(103));
}

#[test]
fn frame_pool_round_trip_and_exhaustion() {
    let mut fa = FrameAllocator::new(100, 110);
    let a = fa.frame_alloc().unwrap();
    let b = fa.frame_alloc().unwrap();
    let c = fa.frame_alloc().unwrap();
    assert_eq!(fa.frame_dealloc(a), Ok(()));
    assert_eq!(fa.frame_dealloc(b), Ok(()));
    assert_eq!(fa.frame_dealloc(c), Ok(()));
    // all ten frames available again: ten allocations succeed, the next fails
    let mut got = Vec::new();
    for _ in 0..10 {
        got.push(fa.frame_alloc().unwrap());
    }
    assert_eq!(fa.frame_alloc(), Err(MmError::OutOfMemory));
    got.sort();
    got.dedup();
    assert_eq!(got.len(), 10);
}

#[test]
fn frame_pool_double_free_rejected() {
    let mut fa = FrameAllocator::new(100, 110);
    let a = fa.frame_alloc().unwrap();
    assert_eq!(fa.frame_dealloc(a), Ok(()));
    assert_eq!(fa.frame_dealloc(a), Err(MmError::InvalidFrame));
    assert_eq!(fa.frame_dealloc(999), Err(MmError::InvalidFrame));
}

#[test]
fn map_then_translate_returns_same_entry() {
    let mut mem = PhysMem::new(64);
    let mut fa = FrameAllocator::new(8, 64);
    let mut pt = PageTable::new(&mut mem, &mut fa).unwrap();
    let flags = MAP_PERM_R | MAP_PERM_W;
    pt.map(&mut mem, &mut fa, 5, 9, flags).unwrap();
    let pte = pt.translate(&mem, 5).unwrap();
    assert_eq!(pte.ppn(), 9);
    assert_eq!(pte.flags(), flags + 1); // the valid bit is set on top
    assert!(pte.valid());
    assert!(pte.readable());
    assert!(pte.writable());
    assert!(!pte.executable());
}

#[test]
fn map_unmap_translate_not_found() {
    let mut mem = PhysMem::new(64);
    let mut fa = FrameAllocator::new(8, 64);
    let mut pt = PageTable::new(&mut mem, &mut fa).unwrap();
    pt.map(&mut mem, &mut fa, 7, 12, MAP_PERM_R).unwrap();
    assert!(pt.translate(&mem, 7).is_some());
    pt.unmap(&mut mem, 7).unwrap();
    assert!(pt.translate(&mem, 7).is_none());
}

#[test]
fn double_map_and_stray_unmap_rejected() {
    let mut mem = PhysMem::new(64);
    let mut fa = FrameAllocator::new(8, 64);
    let mut pt = PageTable::new(&mut mem, &mut fa).unwrap();
    pt.map(&mut mem, &mut fa, 3, 10, MAP_PERM_R).unwrap();
    assert_eq!(pt.map(&mut mem, &mut fa, 3, 11, MAP_PERM_R), Err(MmError::AlreadyMapped));
    assert_eq!(pt.unmap(&mut mem, 4), Err(MmError::NotMapped));
    pt.unmap(&mut mem, 3).unwrap();
    assert_eq!(pt.unmap(&mut mem, 3), Err(MmError::NotMapped));
}

#[test]
fn mmap_two_pages_and_munmap_returns_frames() {
    // a 4 KiB page size region of 8192 bytes at 0x10000: pages 0x10 and 0x11
    let mut mem = PhysMem::new(128);
    let mut fa = FrameAllocator::new(64, 128);
    let mut ms = MemorySet::new_bare(&mut mem, &mut fa).unwrap();
    ms.mmap(&mut mem, &mut fa, 0x10000, 8192, MAP_PERM_R | MAP_PERM_W).unwrap();
    assert_eq!(ms.areas.len(), 1);
    assert_eq!(ms.areas[0].start, 0x10);
    assert_eq!(ms.areas[0].end, 0x12);
    assert_eq!(ms.areas[0].frames.len(), 2);
    assert!(ms.translate(&mem, 0x10).is_some());
    assert!(ms.translate(&mem, 0x11).is_some());
    assert!(ms.translate(&mem, 0x12).is_none());
    let before = fa.untouched_frames();
    let recycled_before = fa.recycled.len();
    ms.munmap(&mut mem, &mut fa, 0x10000, 8192).unwrap();
    // both data frames are back in the pool
    assert_eq!(fa.recycled.len(), recycled_before + 2);
    assert_eq!(fa.untouched_frames(), before);
    assert_eq!(ms.areas.len(), 0);
    assert!(ms.translate(&mem, 0x10).is_none());
    assert!(ms.translate(&mem, 0x11).is_none());
}

#[test]
fn mmap_munmap_round_trip_and_partial_unmap_fails() {
    let mut mem = PhysMem::new(128);
    let mut fa = FrameAllocator::new(64, 128);
    let mut ms = MemorySet::new_bare(&mut mem, &mut fa).unwrap();
    ms.mmap(&mut mem, &mut fa, 0x4000, 4096, MAP_PERM_R).unwrap();
    let regions_before: Vec<(usize, usize, u8)> =
        ms.areas.iter().map(|a| (a.start, a.end, a.perm)).collect();
    ms.mmap(&mut mem, &mut fa, 0x10000, 8192, MAP_PERM_R | MAP_PERM_W).unwrap();
    // a sub-range of the region does not match exactly
    assert_eq!(
        ms.munmap(&mut mem, &mut fa, 0x10000, 4096),
        Err(MmError::NoSuchMapping)
    );
    ms.munmap(&mut mem, &mut fa, 0x10000, 8192).unwrap();
    let regions_after: Vec<(usize, usize, u8)> =
        ms.areas.iter().map(|a| (a.start, a.end, a.perm)).collect();
    assert_eq!(regions_before, regions_after);
}

#[test]
fn mmap_rejects_overlap_including_kernel_regions() {
    let mut mem = PhysMem::new(128);
    let mut fa = FrameAllocator::new(64, 128);
    let mut ms = MemorySet::new_bare(&mut mem, &mut fa).unwrap();
    // a fixed identity region such as kernel code, pages [2, 4)
    ms.push_identity(&mut mem, &mut fa, 2, 4, MAP_PERM_R).unwrap();
    assert_eq!(
        ms.mmap(&mut mem, &mut fa, 0x3000, 4096, MAP_PERM_R),
        Err(MmError::Overlap)
    );
    ms.mmap(&mut mem, &mut fa, 0x10000, 8192, MAP_PERM_R).unwrap();
    assert_eq!(
        ms.mmap(&mut mem, &mut fa, 0x11000, 4096, MAP_PERM_R),
        Err(MmError::Overlap)
    );
    assert_eq!(
        ms.mmap(&mut mem, &mut fa, 0x10001, 4096, MAP_PERM_R),
        Err(MmError::Misaligned)
    );
    assert_eq!(ms.mmap(&mut mem, &mut fa, 0x10000, 0, MAP_PERM_R), Err(MmError::Misaligned));
}

#[test]
fn translate_bytes_splits_at_page_boundaries() {
    let mut mem = PhysMem::new(128);
    let mut fa = FrameAllocator::new(64, 128);
    let mut ms = MemorySet::new_bare(&mut mem, &mut fa).unwrap();
    ms.mmap(&mut mem, &mut fa, 0x1000, 3 * 4096, MAP_PERM_R | MAP_PERM_W).unwrap();
    let token = ms.token(&mem);
    // empty request: empty sequence
    let empty = translated_byte_buffer(&mem, token, 0x1000, 0).unwrap();
    assert_eq!(empty.segs.len(), 0);
    // a 6000-byte buffer starting 100 bytes before a page boundary spans
    // three pages: 100 bytes, one full page, and the tail
    let ptr = 2 * 4096 - 100;
    let buf = translated_byte_buffer(&mem, token, ptr, 6000).unwrap();
    assert_eq!(buf.segs.len(), 3);
    assert_eq!(buf.segs[0].len, 100);
    assert_eq!(buf.segs[1].len, 4096);
    assert_eq!(buf.segs[2].len, 1804);
    let total: usize = buf.segs.iter().map(|s| s.len).sum();
    assert_eq!(total, 6000);
    assert!(buf.segs.iter().all(|s| s.len <= PAGE_SIZE));
    // a 6000-byte buffer starting 100 bytes after a boundary: two views
    let buf2 = translated_byte_buffer(&mem, token, 4096 + 100, 6000).unwrap();
    assert_eq!(buf2.segs.len(), 2);
    assert_eq!(buf2.segs[0].len, 4096 - 100);
    assert_eq!(buf2.segs[1].len, 6000 - (4096 - 100));
    // an unmapped page in the range fails the whole call
    assert!(matches!(
        translated_byte_buffer(&mem, token, 3 * 4096, 8192),
        Err(MmError::UnmappedAccess)
    ));
    assert!(matches!(
        translated_byte_buffer(&mem, token, 0x100000, 1),
        Err(MmError::UnmappedAccess)
    ));
}

#[test]
fn buffer_write_read_round_trip() {
    let mut mem = PhysMem::new(128);
    let mut fa = FrameAllocator::new(64, 128);
    let mut ms = MemorySet::new_bare(&mut mem, &mut fa).unwrap();
    ms.mmap(&mut mem, &mut fa, 0x1000, 3 * 4096, MAP_PERM_R | MAP_PERM_W).unwrap();
    let token = ms.token(&mem);
    let ptr = 2 * 4096 - 100;
    let data: Vec<u8> = (0..6000u32).map(|i| (i % 251) as u8).collect();
    let buf = translated_byte_buffer(&mem, token, ptr, 6000).unwrap();
    write_buffer(&mut mem, &buf, &data).unwrap();
    let buf2 = translated_byte_buffer(&mem, token, ptr, 6000).unwrap();
    let back = read_buffer(&mem, &buf2).unwrap();
    assert_eq!(back, data);
}

#[test]
fn address_arithmetic() {
    let a = VirtAddr(0x10000 + 123);
    assert_eq!(a.floor().0, 0x10);
    assert_eq!(a.ceil().0, 0x11);
    assert_eq!(a.page_offset(), 123);
    assert!(!a.aligned());
    let b = VirtAddr(0x10000);
    assert_eq!(b.ceil().0, 0x10);
    assert!(b.aligned());
}

#[test]
fn kernel_init_and_file_syscalls() {
    // kernel image on pages [0, 8), frame pool above it
    let segments = vec![(0usize, 8usize, MAP_PERM_R | MAP_PERM_W)];
    let mut k = init(256, 8, &segments).unwrap();
    assert_eq!(k.kernel_space.areas.len(), 1);
    // give the user space one writable region and fill it with bytes
    k.mmap(0x10000, 4096, MAP_PERM_R | MAP_PERM_W).unwrap();
    let (ppn, off) = k.get_slice_buffer(0x10000, 5).unwrap();
    for (i, b) in [104u8, 101, 108, 108, 111].iter().enumerate() {
        k.mem.write_byte(ppn, off + i, *b);
    }
    let fd = k.open_new(true, true);
    assert_eq!(k.sys_write(fd, 0x10000, 5), 5);
    assert_eq!(k.inodes[0].data, vec![104, 101, 108, 108, 111]);
    // read the file back into a different part of the page
    assert_eq!(k.sys_read(fd, 0x10800, 5), 5);
    let (ppn2, off2) = k.get_slice_buffer(0x10800, 5).unwrap();
    for (i, b) in [104u8, 101, 108, 108, 111].iter().enumerate() {
        assert_eq!(k.mem.read_byte(ppn2, off2 + i), *b);
    }
    // a second read starts where the first stopped: end of file
    assert_eq!(k.sys_read(fd, 0x10800, 5), 0);
    // failure cases
    assert_eq!(k.sys_write(fd + 1, 0x10000, 5), -1);
    assert_eq!(k.sys_write(fd, 0xdead000, 5), -1); // unmapped buffer
    assert_eq!(k.sys_close(fd), 0);
    assert_eq!(k.sys_close(fd), -1);
    assert_eq!(k.sys_write(fd, 0x10000, 5), -1);
}

#[test]
fn get_slice_buffer_single_page_contract() {
    let segments: Vec<(usize, usize, u8)> = Vec::new();
    let mut k = init(256, 8, &segments).unwrap();
    k.mmap(0x10000, 8192, MAP_PERM_R | MAP_PERM_W).unwrap();
    assert!(k.get_slice_buffer(0x10000, 8).is_some());
    // a value straddling the page boundary is refused
    assert!(k.get_slice_buffer(0x10000 + 4090, 8).is_none());
    // an unmapped pointer is refused
    assert!(k.get_slice_buffer(0x40000, 8).is_none());
    let (_, off) = k.get_slice_buffer(0x10123, 4).unwrap();
    assert_eq!(off, 0x123);
}

#[test]
fn kernel_mmap_munmap_round_trip() {
    let segments: Vec<(usize, usize, u8)> = Vec::new();
    let mut k = init(256, 8, &segments).unwrap();
    k.mmap(0x10000, 8192, MAP_PERM_R | MAP_PERM_W).unwrap();
    assert_eq!(k.mmap(0x11000, 4096, MAP_PERM_R), Err(MmError::Overlap));
    assert!(k.get_slice_buffer(0x10000, 8).is_some());
    k.munmap(0x10000, 8192).unwrap();
    assert!(k.get_slice_buffer(0x10000, 8).is_none());
    assert_eq!(k.munmap(0x10000, 8192), Err(MmError::NoSuchMapping));
    assert_eq!(k.user_space.areas.len(), 0);
}

#[test]
fn init_builds_requested_kernel_regions() {
    let segments = vec![(0usize, 2usize, MAP_PERM_R), (4usize, 6usize, MAP_PERM_R | MAP_PERM_W)];
    let k = init(256, 8, &segments).unwrap();
    assert_eq!(k.kernel_space.areas.len(), 2);
    assert_eq!(k.kernel_space.areas[0].start, 0);
    assert_eq!(k.kernel_space.areas[0].end, 2);
    assert_eq!(k.kernel_space.areas[1].start, 4);
    assert_eq!(k.kernel_space.areas[1].end, 6);
    assert_eq!(k.kernel_space.areas[1].perm, MAP_PERM_R | MAP_PERM_W);
    // a pair of overlapping segments is rejected distinctly
    let bad = vec![(0usize, 3usize, MAP_PERM_R), (2usize, 6usize, MAP_PERM_R)];
    assert!(matches!(init(256, 8, &bad), Err(MmError::Overlap)));
}

#[test]
fn translated_str_reads_until_nul() {
    let segments: Vec<(usize, usize, u8)> = Vec::new();
    let mut k = init(256, 8, &segments).unwrap();
    k.mmap(0x10000, 8192, MAP_PERM_R | MAP_PERM_W).unwrap();
    // place a string straddling the page boundary at 0x11000
    let text = [104u8, 101, 108, 108, 111, 0];
    let base = 0x11000 - 3;
    for (i, b) in text.iter().enumerate() {
        let (ppn, off) = k.get_slice_buffer(base + i, 1).unwrap();
        k.mem.write_byte(ppn, off, *b);
    }
    let token = k.current_user_token();
    let s = translated_str(&k.mem, token, base, 64).unwrap();
    assert_eq!(s, vec![104, 101, 108, 108, 111]);
    // no terminator within the cap
    assert!(matches!(
        translated_str(&k.mem, token, base, 3),
        Err(MmError::UnterminatedString)
    ));
    // an unmapped page before the terminator
    assert!(matches!(
        translated_str(&k.mem, token, 0x40000, 16),
        Err(MmError::UnmappedAccess)
    ));
}

#[test]
fn open_new_takes_lowest_free_slot() {
    let segments: Vec<(usize, usize, u8)> = Vec::new();
    let mut k = init(64, 8, &segments).unwrap();
    let a = k.open_new(true, true);
    let b = k.open_new(true, true);
    assert_eq!((a, b), (0, 1));
    assert_eq!(k.sys_close(a), 0);
    let c = k.open_new(true, false);
    assert_eq!(c, 0);
    assert_eq!(k.fd_table.len(), 2);
}
