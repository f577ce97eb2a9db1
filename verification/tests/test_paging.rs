use kernel::paging::{
    addr_to_frame_idx, copy_page_table_cow, create_address_space, frame_idx_to_addr, free_page_table_tree,
    handle_cow_fault, is_valid_user_buffer, is_valid_user_vaddr, map_phys_page, munmap_range, MemoryRegion,
    PageTableEntry, PhysicalMemory, PHYS_MEM_START, USER_VADDR_END,
};

fn entry_addr(e: u64) -> u64 {
    e & 0x000F_FFFF_FFFF_F000
}

#[test]
fn test_frame_index_conversion() {
    assert_eq!(addr_to_frame_idx(PHYS_MEM_START), 0);
    assert_eq!(addr_to_frame_idx(PHYS_MEM_START + 3 * 4096 + 5), 3);
    assert_eq!(frame_idx_to_addr(3), 0x103000);
}

#[test]
fn test_alloc_lowest_and_free_round_trip() {
    let mut mem = PhysicalMemory::new();
    let a = mem.alloc_frame();
    let b = mem.alloc_frame();
    assert_eq!(a, 0x100000);
    assert_eq!(b, 0x101000);
    assert!(!mem.is_frame_free(a));
    mem.free_frame(a);
    assert!(mem.is_frame_free(a));
    assert_eq!(mem.alloc_frame(), 0x100000);
    assert_eq!(mem.alloc_frame(), 0x102000);
}

#[test]
fn test_alloc_zeroes_frame() {
    let mut mem = PhysicalMemory::new();
    let a = mem.alloc_frame();
    mem.write_bytes(a, &[9, 8, 7]);
    assert_eq!(mem.read_byte(a + 1), 8);
    mem.free_frame(a);
    let again = mem.alloc_zeroed_frame();
    assert_eq!(again, a);
    assert_eq!(mem.read_byte(a + 1), 0);
}

#[test]
fn test_free_outside_range_ignored() {
    let mut mem = PhysicalMemory::new();
    mem.free_frame(0x1000);
    mem.mark_frame_in_use(0x0900_0000);
    assert_eq!(mem.alloc_frame(), 0x100000);
}

#[test]
fn test_init_frame_allocator() {
    let mut mem = PhysicalMemory::new();
    mem.init_frame_allocator(0x200000);
    assert!(!mem.is_frame_free(0x100000));
    assert!(!mem.is_frame_free(0x1FF000));
    assert!(mem.is_frame_free(0x200000));
    assert_eq!(mem.alloc_frame(), 0x200000);
}

#[test]
fn test_exhaustion_returns_zero() {
    let mut mem = PhysicalMemory::new();
    let mut count: usize = 0;
    while mem.alloc_frame() != 0 {
        count += 1;
    }
    assert_eq!(count, 32512);
    assert_eq!(mem.alloc_frame(), 0);
}

#[test]
fn test_page_table_entry_rw() {
    let mut mem = PhysicalMemory::new();
    let t = mem.alloc_frame();
    mem.write_pt_entry(t, 5, 0xABCD);
    assert_eq!(mem.read_pt_entry(t, 5), 0xABCD);
    assert_eq!(mem.read_pt_entry(t, 4), 0);
    mem.zero_pt_frame(t);
    assert_eq!(mem.read_pt_entry(t, 5), 0);
}

#[test]
fn test_copy_frame() {
    let mut mem = PhysicalMemory::new();
    let a = mem.alloc_frame();
    let b = mem.alloc_frame();
    mem.write_bytes(a + 100, &[1, 2, 3]);
    mem.copy_frame(b, a);
    assert_eq!(mem.read_byte(b + 101), 2);
}

#[test]
fn test_create_address_space_layout() {
    let mut mem = PhysicalMemory::new();
    let code = mem.alloc_frame();
    let pml4 = create_address_space(&mut mem, code);
    assert_eq!(pml4, 0x101000);
    assert_eq!(mem.read_pt_entry(pml4, 0), 0x102007);
    assert_eq!(mem.read_pt_entry(pml4, 1), 0);
    assert_eq!(mem.read_pt_entry(0x102000, 0), 0x103007);
    assert_eq!(mem.read_pt_entry(0x103000, 0), 0x83);
    assert_eq!(mem.read_pt_entry(0x103000, 1), 0x200083);
    assert_eq!(mem.read_pt_entry(0x103000, 2), 0x104007);
    assert_eq!(mem.read_pt_entry(0x103000, 7), 0xE00087);
    assert_eq!(mem.read_pt_entry(0x103000, 3), 0);
    assert_eq!(mem.read_pt_entry(0x104000, 0), code | 7);
}

#[test]
fn test_map_phys_page_builds_walk() {
    let mut mem = PhysicalMemory::new();
    let pml4 = mem.alloc_zeroed_frame();
    map_phys_page(&mut mem, pml4, 0x600000, 0xB8000, 0x17);
    let pdpt = entry_addr(mem.read_pt_entry(pml4, 0));
    let pd = entry_addr(mem.read_pt_entry(pdpt, 0));
    let pt = entry_addr(mem.read_pt_entry(pd, 3));
    assert_eq!(mem.read_pt_entry(pml4, 0), 0x101007);
    assert_eq!(mem.read_pt_entry(pdpt, 0), 0x102007);
    assert_eq!(mem.read_pt_entry(pd, 3), 0x103007);
    assert_eq!(mem.read_pt_entry(pt, 0), 0xB8017);
    // A second page in the same table reuses the walk.
    map_phys_page(&mut mem, pml4, 0x601000, 0xB9000, 0x3);
    assert_eq!(mem.read_pt_entry(pt, 1), 0xB9003);
    assert_eq!(mem.alloc_frame(), 0x104000);
}

#[test]
fn test_copy_page_table_cow() {
    let mut mem = PhysicalMemory::new();
    let code = mem.alloc_frame();
    let pml4 = create_address_space(&mut mem, code);
    let dst = copy_page_table_cow(&mut mem, pml4);
    assert_eq!(dst, 0x105000);
    assert_eq!(mem.read_pt_entry(dst, 0), 0x106007);
    assert_eq!(mem.read_pt_entry(dst, 1), 0);
    assert_eq!(mem.read_pt_entry(0x106000, 0), 0x107007);
    // Large pages lose WRITABLE and gain COW.
    assert_eq!(mem.read_pt_entry(0x107000, 0), 0x281);
    assert_eq!(mem.read_pt_entry(0x107000, 1), 0x200281);
    assert_eq!(mem.read_pt_entry(0x107000, 7), 0xE00285);
    assert_eq!(mem.read_pt_entry(0x107000, 2), 0x108007);
    // The user code page becomes read-only and COW, sharing the frame.
    assert_eq!(mem.read_pt_entry(0x108000, 0), code | 0x205);
    // The parent's user page and large pages are read-only COW too.
    assert_eq!(mem.read_pt_entry(0x104000, 0), code | 0x205);
    assert_eq!(mem.read_pt_entry(0x103000, 0), 0x281);
    assert_eq!(mem.read_pt_entry(0x103000, 7), 0xE00285);
    // Links are kept.
    assert_eq!(mem.read_pt_entry(pml4, 0), 0x102007);
    assert_eq!(mem.read_pt_entry(0x103000, 2), 0x104007);
    // The copy took exactly four frames, one per table of the source tree.
    assert!(!mem.is_frame_free(0x108000));
    assert!(mem.is_frame_free(0x109000));
}

#[test]
fn test_copy_keeps_kernel_leaf() {
    let mut mem = PhysicalMemory::new();
    let pml4 = mem.alloc_zeroed_frame();
    map_phys_page(&mut mem, pml4, 0x600000, 0xB8000, 0x3);
    let dst = copy_page_table_cow(&mut mem, pml4);
    let pdpt = entry_addr(mem.read_pt_entry(dst, 0));
    let pd = entry_addr(mem.read_pt_entry(pdpt, 0));
    let pt = entry_addr(mem.read_pt_entry(pd, 3));
    assert_eq!(mem.read_pt_entry(pt, 0), 0xB8003);
}

#[test]
fn test_handle_cow_fault() {
    let mut mem = PhysicalMemory::new();
    let code = mem.alloc_frame();
    mem.write_bytes(code, &[0xAA, 0xBB]);
    let pml4 = create_address_space(&mut mem, code);
    let child = copy_page_table_cow(&mut mem, pml4);
    assert!(handle_cow_fault(&mut mem, child, 0x400010));
    let leaf = mem.read_pt_entry(0x108000, 0);
    assert_eq!(leaf, 0x109007);
    assert_eq!(mem.read_byte(0x109001), 0xBB);
    // Resolved: a second fault is not a COW fault any more.
    assert!(!handle_cow_fault(&mut mem, child, 0x400010));
    // The parent faults too and gets its own copy.
    assert!(handle_cow_fault(&mut mem, pml4, 0x400000));
    assert_eq!(mem.read_pt_entry(0x104000, 0), 0x10A007);
    assert_eq!(mem.read_byte(0x10A000), 0xAA);
}

#[test]
fn test_munmap_range_frees_leaf() {
    let mut mem = PhysicalMemory::new();
    let code = mem.alloc_frame();
    let pml4 = create_address_space(&mut mem, code);
    munmap_range(&mut mem, pml4, 0x400000, 0x1000);
    assert_eq!(mem.read_pt_entry(0x104000, 0), 0);
    assert!(mem.is_frame_free(code));
    // Tables are kept.
    assert!(!mem.is_frame_free(0x104000));
}

#[test]
fn test_munmap_range_large_page() {
    let mut mem = PhysicalMemory::new();
    mem.init_frame_allocator(0x400000);
    let code = mem.alloc_frame();
    let pml4 = create_address_space(&mut mem, code);
    let pd = entry_addr(mem.read_pt_entry(entry_addr(mem.read_pt_entry(pml4, 0)), 0));
    // PD[1] maps 0x200000..0x400000 with a 2 MiB page.
    munmap_range(&mut mem, pml4, 0x200000, 0x1000);
    assert_eq!(mem.read_pt_entry(pd, 1), 0);
    assert!(mem.is_frame_free(0x200000));
    assert!(mem.is_frame_free(0x3FF000));
}

#[test]
fn test_free_page_table_tree() {
    let mut mem = PhysicalMemory::new();
    let code = mem.alloc_frame();
    let pml4 = create_address_space(&mut mem, code);
    free_page_table_tree(&mut mem, pml4);
    assert!(mem.is_frame_free(0x101000));
    assert!(mem.is_frame_free(0x102000));
    assert!(mem.is_frame_free(0x103000));
    assert!(mem.is_frame_free(0x104000));
    assert!(!mem.is_frame_free(code));
    assert_eq!(mem.alloc_frame(), 0x101000);
}

#[test]
fn test_user_address_checks() {
    assert!(is_valid_user_vaddr(0x400000));
    assert!(!is_valid_user_vaddr(0x3FFFFF));
    assert!(!is_valid_user_vaddr(USER_VADDR_END));
    assert!(is_valid_user_buffer(0x400000, 16));
    assert!(!is_valid_user_buffer(USER_VADDR_END - 1, 2));
    assert!(!is_valid_user_buffer(0x1000, 16));
    // An empty buffer is checked at its start and one byte before it.
    assert!(!is_valid_user_buffer(0x400000, 0));
    assert!(is_valid_user_buffer(0x400001, 0));
}

#[test]
fn test_page_table_entry_helper() {
    let e = PageTableEntry::new(0x1234567, 0x5);
    assert_eq!(e.raw, 0x1234005);
    assert!(e.present());
    assert!(!e.writable());
    assert!(e.user_accessible());
}

#[test]
fn test_memory_region_new() {
    let r = MemoryRegion::new(0x400000, 0x1000, 3);
    assert_eq!(r.start, 0x400000);
    assert_eq!(r.size, 0x1000);
    assert_eq!(r.flags, 3);
}
