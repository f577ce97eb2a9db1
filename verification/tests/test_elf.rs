use kernel::elf::{check_header, load_elf, load_page, parse_elf_header, parse_program_header, ElfError, PT_LOAD};
use kernel::paging::{PhysicalMemory, USER_STACK_VADDR};

fn put_u16(v: &mut Vec<u8>, off: usize, x: u16) {
    v[off..off + 2].copy_from_slice(&x.to_le_bytes());
}

fn put_u32(v: &mut Vec<u8>, off: usize, x: u32) {
    v[off..off + 4].copy_from_slice(&x.to_le_bytes());
}

fn put_u64(v: &mut Vec<u8>, off: usize, x: u64) {
    v[off..off + 8].copy_from_slice(&x.to_le_bytes());
}

/// A little ELF-64 executable: the header, one program header at 64 and
/// `payload` right after it (offset 120).
fn build_elf(entry: u64, vaddr: u64, memsz: u64, flags: u32, payload: &[u8]) -> Vec<u8> {
    let mut v = vec![0u8; 120];
    v[0] = 0x7f;
    v[1] = b'E';
    v[2] = b'L';
    v[3] = b'F';
    v[4] = 2;
    v[5] = 1;
    v[6] = 1;
    put_u16(&mut v, 16, 2);
    put_u16(&mut v, 18, 0x3E);
    put_u64(&mut v, 24, entry);
    put_u64(&mut v, 32, 64);
    put_u16(&mut v, 52, 64);
    put_u16(&mut v, 54, 56);
    put_u16(&mut v, 56, 1);
    put_u32(&mut v, 64, PT_LOAD);
    put_u32(&mut v, 68, flags);
    put_u64(&mut v, 72, 120);
    put_u64(&mut v, 80, vaddr);
    put_u64(&mut v, 96, payload.len() as u64);
    put_u64(&mut v, 104, memsz);
    v.extend_from_slice(payload);
    v
}

fn entry_addr(e: u64) -> u64 {
    e & 0x000F_FFFF_FFFF_F000
}

#[test]
fn test_parse_headers() {
    let img = build_elf(0x401000, 0x401000, 4, 5, &[1, 2, 3, 4]);
    let h = parse_elf_header(&img);
    assert_eq!(h.magic, [0x7f, b'E', b'L', b'F']);
    assert_eq!(h.class, 2);
    assert_eq!(h.e_type, 2);
    assert_eq!(h.e_machine, 0x3E);
    assert_eq!(h.e_entry, 0x401000);
    assert_eq!(h.e_phoff, 64);
    assert_eq!(h.e_phentsize, 56);
    assert_eq!(h.e_phnum, 1);
    let p = parse_program_header(&img, 64);
    assert_eq!(p.p_type, PT_LOAD);
    assert_eq!(p.p_flags, 5);
    assert_eq!(p.p_offset, 120);
    assert_eq!(p.p_vaddr, 0x401000);
    assert_eq!(p.p_filesz, 4);
    assert_eq!(p.p_memsz, 4);
}

#[test]
fn test_load_elf_maps_segment() {
    let mut mem = PhysicalMemory::new();
    let pml4 = mem.alloc_zeroed_frame();
    let img = build_elf(0x401000, 0x401000, 4, 5, &[0xDE, 0xAD, 0xBE, 0xEF]);
    let r = load_elf(&img, &mut mem, pml4).ok().unwrap();
    assert_eq!(r.entry, 0x401000);
    assert_eq!(r.stack_top, USER_STACK_VADDR);
    let pdpt = entry_addr(mem.read_pt_entry(pml4, 0));
    let pd = entry_addr(mem.read_pt_entry(pdpt, 0));
    let pt = entry_addr(mem.read_pt_entry(pd, 2));
    let leaf = mem.read_pt_entry(pt, 1);
    // Present and user-accessible, not writable: the segment is R+X.
    assert_eq!(leaf & 0xFFF, 0x5);
    let frame = entry_addr(leaf);
    assert_eq!(frame, 0x101000);
    assert_eq!(mem.read_byte(frame), 0xDE);
    assert_eq!(mem.read_byte(frame + 3), 0xEF);
    assert_eq!(mem.read_byte(frame + 4), 0);
}

#[test]
fn test_load_elf_writable_multi_page() {
    let mut mem = PhysicalMemory::new();
    let pml4 = mem.alloc_zeroed_frame();
    let img = build_elf(0x400000, 0x400800, 0x1000, 6, &[7, 7]);
    let r = load_elf(&img, &mut mem, pml4);
    assert!(r.is_ok());
    let pdpt = entry_addr(mem.read_pt_entry(pml4, 0));
    let pd = entry_addr(mem.read_pt_entry(pdpt, 0));
    let pt = entry_addr(mem.read_pt_entry(pd, 2));
    // 0x400800 + 0x1000 spans two pages, both writable.
    assert_eq!(mem.read_pt_entry(pt, 0) & 0xFFF, 0x7);
    assert_eq!(mem.read_pt_entry(pt, 1) & 0xFFF, 0x7);
    assert_eq!(mem.read_pt_entry(pt, 2), 0);
}

#[test]
fn test_elf_errors() {
    let mut mem = PhysicalMemory::new();
    let pml4 = mem.alloc_zeroed_frame();
    let good = build_elf(0x401000, 0x401000, 4, 5, &[1, 2, 3, 4]);

    assert!(matches!(load_elf(&good[..63], &mut mem, pml4), Err(ElfError::BadMagic)));

    let mut bad = good.clone();
    bad[1] = b'X';
    assert!(matches!(load_elf(&bad, &mut mem, pml4), Err(ElfError::BadMagic)));

    let mut bad = good.clone();
    bad[4] = 1;
    assert!(matches!(load_elf(&bad, &mut mem, pml4), Err(ElfError::Not64Bit)));

    let mut bad = good.clone();
    put_u16(&mut bad, 16, 3);
    assert!(matches!(load_elf(&bad, &mut mem, pml4), Err(ElfError::NotExecutable)));

    let mut bad = good.clone();
    put_u16(&mut bad, 56, 0);
    assert!(matches!(load_elf(&bad, &mut mem, pml4), Err(ElfError::NoLoadSegments)));

    let mut bad = good.clone();
    put_u64(&mut bad, 32, 0);
    assert!(matches!(load_elf(&bad, &mut mem, pml4), Err(ElfError::NoLoadSegments)));

    let mut bad = good.clone();
    put_u16(&mut bad, 54, 55);
    assert!(matches!(load_elf(&bad, &mut mem, pml4), Err(ElfError::NoLoadSegments)));

    let mut bad = good.clone();
    put_u16(&mut bad, 56, 2);
    assert!(matches!(load_elf(&bad, &mut mem, pml4), Err(ElfError::NoLoadSegments)));

    let mut bad = good.clone();
    put_u64(&mut bad, 32, u64::MAX - 10);
    assert!(matches!(load_elf(&bad, &mut mem, pml4), Err(ElfError::NoLoadSegments)));

    // Nothing was mapped by the refused images.
    assert_eq!(mem.read_pt_entry(pml4, 0), 0);
}

#[test]
fn test_elf_out_of_memory() {
    let mut mem = PhysicalMemory::new();
    let pml4 = mem.alloc_zeroed_frame();
    while mem.alloc_frame() != 0 {}
    let img = build_elf(0x401000, 0x401000, 4, 5, &[1, 2, 3, 4]);
    assert!(matches!(load_elf(&img, &mut mem, pml4), Err(ElfError::OutOfMemory)));
}

#[test]
fn test_non_load_segment_skipped() {
    let mut mem = PhysicalMemory::new();
    let pml4 = mem.alloc_zeroed_frame();
    let mut img = build_elf(0x401000, 0x401000, 4, 5, &[1, 2, 3, 4]);
    put_u32(&mut img, 64, 4);
    let r = load_elf(&img, &mut mem, pml4).ok().unwrap();
    assert_eq!(r.entry, 0x401000);
    assert_eq!(mem.read_pt_entry(pml4, 0), 0);
}

#[test]
fn test_check_header_ok() {
    let img = build_elf(0x401234, 0x401000, 4, 5, &[1, 2, 3, 4]);
    let h = check_header(&img).ok().unwrap();
    assert_eq!(h.e_entry, 0x401234);
}

#[test]
fn test_load_page_copy_window() {
    let mut mem = PhysicalMemory::new();
    let pml4 = mem.alloc_zeroed_frame();
    let data: Vec<u8> = (0..200u32).map(|x| x as u8).collect();
    // A segment at 0x400000 with 5 file bytes at offset 10.
    assert!(load_page(&mut mem, pml4, &data, 0x400000, 0x400000, 10, 5, true));
    let frame = 0x101000u64;
    assert_eq!(mem.read_byte(frame), 10);
    assert_eq!(mem.read_byte(frame + 4), 14);
    assert_eq!(mem.read_byte(frame + 5), 0);
    // File bytes past the end of the image read as zero.
    assert!(load_page(&mut mem, pml4, &data, 0x401000, 0x401000, 198, 5, false));
    let pt = entry_addr(mem.read_pt_entry(entry_addr(mem.read_pt_entry(entry_addr(mem.read_pt_entry(pml4, 0)), 0)), 2));
    let leaf = mem.read_pt_entry(pt, 1);
    assert_eq!(leaf & 0xFFF, 0x5);
    assert_eq!(mem.read_byte(entry_addr(leaf)), 198);
    assert_eq!(mem.read_byte(entry_addr(leaf) + 1), 199);
    assert_eq!(mem.read_byte(entry_addr(leaf) + 2), 0);
}

#[test]
fn test_load_elf_unaligned_segment_bytes() {
    let mut mem = PhysicalMemory::new();
    let pml4 = mem.alloc_zeroed_frame();
    let payload: Vec<u8> = (1..=10u8).collect();
    // The segment starts 0x800 into its page and spans into the next one.
    let img = build_elf(0x400800, 0x400FFC, 10, 6, &payload);
    assert!(load_elf(&img, &mut mem, pml4).is_ok());
    let pdpt = entry_addr(mem.read_pt_entry(pml4, 0));
    let pd = entry_addr(mem.read_pt_entry(pdpt, 0));
    let pt = entry_addr(mem.read_pt_entry(pd, 2));
    let f0 = entry_addr(mem.read_pt_entry(pt, 0));
    let f1 = entry_addr(mem.read_pt_entry(pt, 1));
    // Bytes at 0x400FFC..0x401000 in the first page, the rest in the next.
    assert_eq!(mem.read_byte(f0 + 0xFFC), 1);
    assert_eq!(mem.read_byte(f0 + 0xFFF), 4);
    assert_eq!(mem.read_byte(f1), 5);
    assert_eq!(mem.read_byte(f1 + 5), 10);
    assert_eq!(mem.read_byte(f1 + 6), 0);
}
