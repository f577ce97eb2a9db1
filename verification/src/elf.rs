//! The ELF-64 loader: validates a little-endian executable image and maps
//! each page of its LOAD segments into an address space.

use vstd::prelude::*;
use vstd::bytes::{spec_u16_from_le_bytes, spec_u32_from_le_bytes, spec_u64_from_le_bytes,
    u16_from_le_bytes, u32_from_le_bytes, u64_from_le_bytes};
use vstd::slice::slice_subrange;
use vstd::bytes::spec_u64_to_le_bytes_to_open;
use crate::paging::{PhysicalMemory, map_phys_page, valid_path, leaf_entry, path_present, entry_addr,
    spec_frame_idx, spec_frame_addr, word_frame, word_bytes, lemma_valid_path_kept, lemma_entry_bits,
    lemma_mask_aligned, lemma_table_word_frame, lemma_index_bound, table_in_use, is_present, pml4_idx, pdpt_idx, pd_idx, pt_idx, PHYS_MEM_START, PHYS_MEM_END, USER_STACK_VADDR, NUM_FRAMES};
use crate::paging::page_flags;
use crate::image::{image_fits, is_seg_page, page_in_place, seg_page_va, loaded_before, loader_inv, lemma_loader_inv_start,
    lemma_next_walk_valid, lemma_loader_step, lemma_loader_inv_moved, lemma_loader_done};
use crate::paging::{map_changes_only, lemma_map_changes_only, leaf_word, upper_walk_word, map_fresh_zero, map_tables_origin};

verus! {

/// LOAD segment type.
pub const PT_LOAD: u32 = 1;

/// The ELF magic: `0x7f 'E' 'L' 'F'`.
pub const ELF_MAGIC: [u8; 4] = [0x7f, 0x45, 0x4c, 0x46];

/// The ELF magic as a sequence.
pub open spec fn elf_magic() -> Seq<u8> {
    seq![0x7fu8, 0x45u8, 0x4cu8, 0x46u8]
}

/// The ELF-64 file header (the first 64 bytes of an image).
#[derive(Clone, Copy)]
pub struct ElfHeader {
    pub magic: [u8; 4],
    /// 1 = 32-bit, 2 = 64-bit.
    pub class: u8,
    /// 1 = little endian, 2 = big endian.
    pub encoding: u8,
    pub version: u8,
    pub osabi: u8,
    pub padding: [u8; 8],
    /// 2 = executable.
    pub e_type: u16,
    /// 0x3E = x86-64.
    pub e_machine: u16,
    pub e_version: u32,
    /// Entry point virtual address.
    pub e_entry: u64,
    /// Offset of the program headers.
    pub e_phoff: u64,
    /// Offset of the section headers (unused).
    pub e_shoff: u64,
    pub e_flags: u32,
    /// Size of this header.
    pub e_ehsize: u16,
    /// Size of one program header.
    pub e_phentsize: u16,
    /// Number of program headers.
    pub e_phnum: u16,
    pub e_shentsize: u16,
    pub e_shnum: u16,
    pub e_shstrndx: u16,
}

/// An ELF-64 program header (56 bytes).
#[derive(Clone, Copy)]
pub struct ProgramHeader {
    /// 1 = LOAD.
    pub p_type: u32,
    /// Execute = 1, write = 2, read = 4.
    pub p_flags: u32,
    /// Offset of the segment in the file.
    pub p_offset: u64,
    /// Virtual address to load at.
    pub p_vaddr: u64,
    /// Physical address (unused).
    pub p_paddr: u64,
    /// Size in the file.
    pub p_filesz: u64,
    /// Size in memory (more than in the file for `.bss`).
    pub p_memsz: u64,
    /// Alignment.
    pub p_align: u64,
}

/// Why an image could not be loaded.
#[derive(Debug, Clone, Copy, PartialEq, Eq, Structural)]
pub enum ElfError {
    BadMagic,
    Not64Bit,
    NotExecutable,
    NoLoadSegments,
    OutOfMemory,
    SegmentOverlap,
}

/// Where a loaded image starts and where its stack begins.
#[derive(Clone, Copy)]
pub struct LoadResult {
    pub entry: u64,
    pub stack_top: u64,
}

/// Little-endian 16-bit value at offset `o` of `d`.
pub open spec fn le16(d: Seq<u8>, o: int) -> u16 {
    spec_u16_from_le_bytes(d.subrange(o, o + 2))
}

/// Little-endian 32-bit value at offset `o` of `d`.
pub open spec fn le32(d: Seq<u8>, o: int) -> u32 {
    spec_u32_from_le_bytes(d.subrange(o, o + 4))
}

/// Little-endian 64-bit value at offset `o` of `d`.
pub open spec fn le64(d: Seq<u8>, o: int) -> u64 {
    spec_u64_from_le_bytes(d.subrange(o, o + 8))
}

/// The header's field `e_entry`.
pub open spec fn elf_entry(d: Seq<u8>) -> u64 {
    le64(d, 24)
}

/// The header's field `e_phoff`.
pub open spec fn elf_phoff(d: Seq<u8>) -> u64 {
    le64(d, 32)
}

/// The header's field `e_phentsize`.
pub open spec fn elf_phentsize(d: Seq<u8>) -> u16 {
    le16(d, 54)
}

/// The header's field `e_phnum`.
pub open spec fn elf_phnum(d: Seq<u8>) -> u16 {
    le16(d, 56)
}

/// What is wrong with the header of image `d`, checked in this order:
/// shorter than a header or wrong magic, not 64-bit, not an executable,
/// and no program headers or a table that does not fit in the image.
pub open spec fn header_error(d: Seq<u8>) -> Option<ElfError> {
    if d.len() < 64 || d.subrange(0, 4) != elf_magic() {
        Some(ElfError::BadMagic)
    } else if d[4] != 2 {
        Some(ElfError::Not64Bit)
    } else if le16(d, 16) != 2 {
        Some(ElfError::NotExecutable)
    } else if elf_phoff(d) == 0 || elf_phentsize(d) < 56 || elf_phnum(d) == 0 {
        Some(ElfError::NoLoadSegments)
    } else if elf_phoff(d) + elf_phnum(d) * elf_phentsize(d) > d.len() {
        Some(ElfError::NoLoadSegments)
    } else {
        None
    }
}

/// Offset of program header `i` of image `d`.
pub open spec fn ph_offset(d: Seq<u8>, i: int) -> int {
    elf_phoff(d) + i * elf_phentsize(d)
}

/// Program header `i` of image `d` is a LOAD segment.
pub open spec fn ph_is_load(d: Seq<u8>, i: int) -> bool {
    le32(d, ph_offset(d, i)) == PT_LOAD
}

/// `p_vaddr` of program header `i`.
pub open spec fn ph_vaddr(d: Seq<u8>, i: int) -> u64 {
    le64(d, ph_offset(d, i) + 16)
}

/// `p_memsz` of program header `i`.
pub open spec fn ph_mem_size(d: Seq<u8>, i: int) -> u64 {
    le64(d, ph_offset(d, i) + 40)
}

/// `p_flags` of program header `i`.
pub open spec fn ph_flags(d: Seq<u8>, i: int) -> u32 {
    le32(d, ph_offset(d, i) + 4)
}

/// `p_offset` of program header `i`: where its file bytes start in the image.
pub open spec fn ph_file_offset(d: Seq<u8>, i: int) -> u64 {
    le64(d, ph_offset(d, i) + 8)
}

/// `p_filesz` of program header `i`.
pub open spec fn ph_file_size(d: Seq<u8>, i: int) -> u64 {
    le64(d, ph_offset(d, i) + 32)
}

/// Bits 12..63: an address rounded down to its page.
pub open spec fn page_mask() -> u64 {
    0xFFFF_FFFF_FFFF_F000u64
}

/// First page of segment `i`.
pub open spec fn seg_start(d: Seq<u8>, i: int) -> u64 {
    ph_vaddr(d, i) & page_mask()
}

/// End of the last page of segment `i` (its memory size rounded up).
pub open spec fn seg_end(d: Seq<u8>, i: int) -> u64 {
    ((ph_vaddr(d, i) + ph_mem_size(d, i) + 0xFFF) as u64) & page_mask()
}

/// The end of every LOAD segment of `d` can be computed without overflow.
pub open spec fn segments_fit(d: Seq<u8>) -> bool {
    forall|i: int| 0 <= i < elf_phnum(d) && ph_is_load(d, i) ==>
        ph_vaddr(d, i) + ph_mem_size(d, i) + 0xFFF <= u64::MAX
}

/// Number of pages that segment `i` maps (none unless it is LOAD).
pub open spec fn seg_pages(d: Seq<u8>, i: int) -> int {
    if ph_is_load(d, i) { (seg_end(d, i) - seg_start(d, i)) / 4096 } else { 0 }
}

/// Number of pages that the first `n` segments map.
pub open spec fn pages_before(d: Seq<u8>, n: int) -> int
    decreases n,
{
    if n <= 0 { 0 } else { pages_before(d, n - 1) + seg_pages(d, n - 1) }
}

/// Number of pages that image `d` maps.
pub open spec fn total_pages(d: Seq<u8>) -> int {
    pages_before(d, elf_phnum(d) as int)
}

/// Read the file header at the start of `data`.
pub fn parse_elf_header(data: &[u8]) -> (h: ElfHeader)
    requires
        data@.len() >= 64,
    ensures
        h.magic@ == data@.subrange(0, 4),
        h.class == data@[4],
        h.encoding == data@[5],
        h.version == data@[6],
        h.osabi == data@[7],
        h.padding@ == data@.subrange(8, 16),
        h.e_type == le16(data@, 16),
        h.e_machine == le16(data@, 18),
        h.e_version == le32(data@, 20),
        h.e_entry == le64(data@, 24),
        h.e_phoff == le64(data@, 32),
        h.e_shoff == le64(data@, 40),
        h.e_flags == le32(data@, 48),
        h.e_ehsize == le16(data@, 52),
        h.e_phentsize == le16(data@, 54),
        h.e_phnum == le16(data@, 56),
        h.e_shentsize == le16(data@, 58),
        h.e_shnum == le16(data@, 60),
        h.e_shstrndx == le16(data@, 62),
{
    let n: usize = data.len();
    let magic = [data[0], data[1], data[2], data[3]];
    let padding = [data[8], data[9], data[10], data[11], data[12], data[13], data[14], data[15]];
    assert(magic@ =~= data@.subrange(0, 4));
    assert(padding@ =~= data@.subrange(8, 16));
    ElfHeader {
        magic,
        class: data[4],
        encoding: data[5],
        version: data[6],
        osabi: data[7],
        padding,
        e_type: read_u16(data, 16),
        e_machine: read_u16(data, 18),
        e_version: read_u32(data, 20),
        e_entry: read_u64(data, 24),
        e_phoff: read_u64(data, 32),
        e_shoff: read_u64(data, 40),
        e_flags: read_u32(data, 48),
        e_ehsize: read_u16(data, 52),
        e_phentsize: read_u16(data, 54),
        e_phnum: read_u16(data, 56),
        e_shentsize: read_u16(data, 58),
        e_shnum: read_u16(data, 60),
        e_shstrndx: read_u16(data, 62),
    }
}

/// Read the program header at offset `off` of `data`.
pub fn parse_program_header(data: &[u8], off: usize) -> (p: ProgramHeader)
    requires
        off + 56 <= data@.len(),
    ensures
        p.p_type == le32(data@, off as int),
        p.p_flags == le32(data@, off + 4),
        p.p_offset == le64(data@, off + 8),
        p.p_vaddr == le64(data@, off + 16),
        p.p_paddr == le64(data@, off + 24),
        p.p_filesz == le64(data@, off + 32),
        p.p_memsz == le64(data@, off + 40),
        p.p_align == le64(data@, off + 48),
{
    let n: usize = data.len();
    assert(off + 56 <= n);
    ProgramHeader {
        p_type: read_u32(data, off),
        p_flags: read_u32(data, off + 4),
        p_offset: read_u64(data, off + 8),
        p_vaddr: read_u64(data, off + 16),
        p_paddr: read_u64(data, off + 24),
        p_filesz: read_u64(data, off + 32),
        p_memsz: read_u64(data, off + 40),
        p_align: read_u64(data, off + 48),
    }
}

fn read_u16(data: &[u8], off: usize) -> (v: u16)
    requires
        off + 2 <= data@.len(),
    ensures
        v == le16(data@, off as int),
{
    let n: usize = data.len();
    assert(off + 2 <= n);
    u16_from_le_bytes(slice_subrange(data, off, off + 2))
}

fn read_u32(data: &[u8], off: usize) -> (v: u32)
    requires
        off + 4 <= data@.len(),
    ensures
        v == le32(data@, off as int),
{
    let n: usize = data.len();
    assert(off + 4 <= n);
    u32_from_le_bytes(slice_subrange(data, off, off + 4))
}

fn read_u64(data: &[u8], off: usize) -> (v: u64)
    requires
        off + 8 <= data@.len(),
    ensures
        v == le64(data@, off as int),
{
    let n: usize = data.len();
    assert(off + 8 <= n);
    u64_from_le_bytes(slice_subrange(data, off, off + 8))
}

/// Check the header of `data` (see `header_error`).
pub fn check_header(data: &[u8]) -> (r: Result<ElfHeader, ElfError>)
    ensures
        header_error(data@) matches Some(e) ==> r == Err::<ElfHeader, ElfError>(e),
        header_error(data@) is None ==> (r matches Ok(h) && h.e_entry == elf_entry(data@)
            && h.e_phoff == elf_phoff(data@) && h.e_phentsize == elf_phentsize(data@) && h.e_phnum == elf_phnum(data@)),
{
    if data.len() < 64 {
        return Err(ElfError::BadMagic);
    }
    let h = parse_elf_header(data);
    if h.magic[0] != 0x7f || h.magic[1] != 0x45 || h.magic[2] != 0x4c || h.magic[3] != 0x46 {
        assert(data@.subrange(0, 4) != elf_magic()) by {
            if data@.subrange(0, 4) == elf_magic() {
                assert(h.magic@[0] == elf_magic()[0]);
                assert(h.magic@[1] == elf_magic()[1]);
                assert(h.magic@[2] == elf_magic()[2]);
                assert(h.magic@[3] == elf_magic()[3]);
            }
        }
        return Err(ElfError::BadMagic);
    }
    assert(data@.subrange(0, 4) =~= elf_magic()) by {
        assert(h.magic@[0] == data@[0]);
        assert(h.magic@[1] == data@[1]);
        assert(h.magic@[2] == data@[2]);
        assert(h.magic@[3] == data@[3]);
    }
    if h.class != 2 {
        return Err(ElfError::Not64Bit);
    }
    if h.e_type != 2 {
        return Err(ElfError::NotExecutable);
    }
    let phoff = h.e_phoff;
    let phentsize = h.e_phentsize as u64;
    let phnum = h.e_phnum as u64;
    if phoff == 0 || phentsize < 56 || phnum == 0 {
        return Err(ElfError::NoLoadSegments);
    }
    assert(phnum * phentsize <= 0xFFFF * 0xFFFF) by (nonlinear_arith)
        requires phnum <= 0xFFFF, phentsize <= 0xFFFF;
    let table = phnum * phentsize;
    let len = data.len() as u64;
    if phoff > len || table > len - phoff {
        return Err(ElfError::NoLoadSegments);
    }
    Ok(h)
}

/// Flags of a segment page: present and user-accessible, and writable
/// when the segment is.
pub open spec fn segment_page_flags(writable: bool) -> u64 {
    if writable { 0x7 } else { 0x5 }
}

/// Byte `j` of the segment page at `page_va`, of a segment loaded at
/// `seg_vaddr` from `file_size` bytes at `file_offset` of image `d`: the
/// image byte for its address while that lies within the segment's file
/// bytes (and within the image), zero otherwise.
pub open spec fn page_byte(d: Seq<u8>, page_va: u64, seg_vaddr: u64, file_offset: u64, file_size: u64, j: int) -> u8 {
    let k = page_va + j - seg_vaddr;
    if 0 <= k < file_size && file_offset + k < d.len() { d[file_offset + k] } else { 0 }
}

proof fn lemma_zero_word_bytes()
    ensures
        forall|i: int| 0 <= i < 8 ==> #[trigger] word_bytes(0)[i] == 0,
{
    spec_u64_to_le_bytes_to_open(0);
    assert({
        &&& 0u64 & 0xff == 0
        &&& (0u64 >> 8u64) & 0xff == 0
        &&& (0u64 >> 16u64) & 0xff == 0
        &&& (0u64 >> 24u64) & 0xff == 0
        &&& (0u64 >> 32u64) & 0xff == 0
        &&& (0u64 >> 40u64) & 0xff == 0
        &&& (0u64 >> 48u64) & 0xff == 0
        &&& (0u64 >> 56u64) & 0xff == 0
    }) by (bit_vector);
}

/// A word of a table that was in use, or that lay in a frame still free
/// after frame `k` was taken, is not a word of frame `k`.
proof fn lemma_walk_table_not_frame(m0: &PhysicalMemory, m2: &PhysicalMemory, t: u64, i: int, k: int)
    requires
        m0.is_free(k),
        !m2.is_free(k),
        t % 4096 == 0,
        0 <= i < 512,
    ensures
        table_in_use(m0, t) || m2.is_free(spec_frame_idx(t as int)) ==> word_frame(t / 8 + i) != k,
{
    m2.lemma_free_in_range(spec_frame_idx(t as int));
    if table_in_use(m0, t) || m2.is_free(spec_frame_idx(t as int)) {
        lemma_table_word_frame(t, i);
    }
}

/// `m1` is `m0` after the page at `page_va` of a segment (see
/// `page_byte`) was loaded into a fresh frame and mapped with
/// `segment_page_flags(writable)`: at least one frame was taken and none
/// freed, and when the walk was valid with four frames free, the page maps
/// the frame that was lowest free, which holds the page's bytes, and RAM
/// changed no more than mapping it may (`map_changes_only`): in frames that
/// were free, in the page's leaf entry and in walk entries that were not
/// present.
pub open spec fn page_loaded(
    m0: PhysicalMemory, m1: PhysicalMemory, pml4_phys: u64, data: Seq<u8>,
    page_va: u64, seg_vaddr: u64, file_offset: u64, file_size: u64, writable: bool,
) -> bool {
    &&& m1.wf()
    &&& forall|j: int| #[trigger] m1.is_free(j) ==> m0.is_free(j)
    &&& m1.free_count() < m0.free_count()
    &&& valid_path(&m0, pml4_phys, page_va) && m0.free_count() >= 4 ==> {
        let frame = entry_addr(leaf_entry(&m1, pml4_phys, page_va));
        &&& path_present(&m1, pml4_phys, page_va)
        &&& valid_path(&m1, pml4_phys, page_va)
        &&& leaf_entry(&m1, pml4_phys, page_va) == frame | segment_page_flags(writable)
        &&& frame == spec_frame_addr(spec_frame_idx(frame as int))
        &&& m0.lowest_free(spec_frame_idx(frame as int))
        &&& forall|j: int| 0 <= j < 4096 ==> #[trigger] m1.byte(frame + j)
                == page_byte(data, page_va, seg_vaddr, file_offset, file_size, j)
        &&& map_changes_only(&m0, &m1, pml4_phys, page_va)
        &&& map_fresh_zero(&m0, &m1, pml4_phys, page_va)
        &&& map_tables_origin(&m0, &m1, pml4_phys, page_va)
        &&& !m1.is_free(spec_frame_idx(frame as int))
        &&& forall|l: int| 1 <= l <= 3 ==> #[trigger] walk_frame(&m1, pml4_phys, page_va, l) != frame
    }
}

/// The table of level `level` on the walk for `va` in `m` (3 for the PDPT,
/// 2 for the PD, 1 for the page table), or, for level 0, the frame that its
/// leaf entry maps.
pub open spec fn walk_frame(m: &PhysicalMemory, pml4: u64, va: u64, level: int) -> u64 {
    let t3 = entry_addr(m.entry(pml4, pml4_idx(va) as int));
    let t2 = entry_addr(m.entry(t3, pdpt_idx(va) as int));
    let t1 = entry_addr(m.entry(t2, pd_idx(va) as int));
    if level == 3 {
        t3
    } else if level == 2 {
        t2
    } else if level == 1 {
        t1
    } else {
        entry_addr(m.entry(t1, pt_idx(va) as int))
    }
}

/// Where the bytes of a segment page come from: with `lo`..`hi` the part
/// of the page's addresses inside the segment's file bytes and `s_lo`..`s_hi`
/// the image bytes for it (cut at the image's end), byte `j` is the image
/// byte at `s_lo + j - (lo - page_va)` within that window and zero outside.
proof fn lemma_page_byte_window(
    d: Seq<u8>, page_va: u64, seg_vaddr: u64, file_offset: u64, file_size: u64,
    lo: int, hi: int, s_lo: int, s_hi: int, j: int,
)
    requires
        0 <= j < 4096,
        lo == if page_va > seg_vaddr { page_va as int } else { seg_vaddr as int },
        hi == if page_va + 4096 < seg_vaddr + file_size { page_va + 4096 } else { seg_vaddr + file_size },
        lo < hi ==> s_lo == file_offset + (lo - seg_vaddr),
        lo < hi ==> s_hi == if file_offset + (hi - seg_vaddr) < d.len() { file_offset + (hi - seg_vaddr) } else { d.len() as int },
    ensures
        page_byte(d, page_va, seg_vaddr, file_offset, file_size, j)
            == if lo < hi && s_lo < s_hi && lo - page_va <= j < lo - page_va + (s_hi - s_lo) {
                d[s_lo + j - (lo - page_va)]
            } else {
                0u8
            },
{
}

/// Fill the zeroed frame at `frame` with the bytes of the segment page at
/// `page_va` (see `page_byte`): the segment's file bytes that fall in the
/// page, zero elsewhere. Only words of that frame change.
#[verifier::spinoff_prover]
#[verifier::rlimit(100)]
fn fill_segment_page(
    mem: &mut PhysicalMemory,
    frame: u64,
    data: &[u8],
    page_va: u64,
    seg_vaddr: u64,
    file_offset: u64,
    file_size: u64,
)
    requires
        old(mem).wf(),
        frame == spec_frame_addr(spec_frame_idx(frame as int)),
        0 <= spec_frame_idx(frame as int) < NUM_FRAMES,
        old(mem).frame_zeroed(spec_frame_idx(frame as int)),
    ensures
        final(mem).wf(),
        forall|j: int| #[trigger] final(mem).is_free(j) == old(mem).is_free(j),
        final(mem).same_words_except_frame(old(mem), spec_frame_idx(frame as int)),
        forall|j: int| 0 <= j < 4096 ==> #[trigger] final(mem).byte(frame + j)
            == page_byte(data@, page_va, seg_vaddr, file_offset, file_size, j),
{
    let ghost k = spec_frame_idx(frame as int);
    let ghost m1 = *mem;
    proof {
        lemma_zero_word_bytes();
        assert(frame / 8 == spec_frame_addr(k) / 8);
        assert forall|j: int| 0 <= j < 4096 implies #[trigger] m1.byte(frame + j) == 0 by {
            assert(m1.word((frame + j) / 8) == 0);
        }
    }
    let pv = page_va as u128;
    let sv = seg_vaddr as u128;
    let lo: u128 = if pv > sv { pv } else { sv };
    let hi: u128 = if pv + 4096 < sv + file_size as u128 { pv + 4096 } else { sv + file_size as u128 };
    let len = data.len() as u128;
    let s_lo: u128 = if lo < hi { file_offset as u128 + (lo - sv) } else { 0 };
    let s_hi0: u128 = if lo < hi { file_offset as u128 + (hi - sv) } else { 0 };
    let s_hi: u128 = if s_hi0 < len { s_hi0 } else { len };
    if lo < hi && s_lo < s_hi {
        let src = slice_subrange(data, s_lo as usize, s_hi as usize);
        let start: u64 = frame + (lo - pv) as u64;
        mem.write_bytes(start, src);
        proof {
            assert forall|j: int| 0 <= j < 4096 implies #[trigger] mem.byte(frame + j)
                == page_byte(data@, page_va, seg_vaddr, file_offset, file_size, j) by {
                let a = frame + j;
                lemma_page_byte_window(data@, page_va, seg_vaddr, file_offset, file_size,
                    lo as int, hi as int, s_lo as int, s_hi as int, j);
                if start <= a < start + src@.len() {
                    assert(src@[a - start] == data@[s_lo + (a - start)]);
                } else {
                    assert(mem.byte(a) == m1.byte(a));
                }
            }
        }
    } else {
        proof {
            assert forall|j: int| 0 <= j < 4096 implies #[trigger] mem.byte(frame + j)
                == page_byte(data@, page_va, seg_vaddr, file_offset, file_size, j) by {
                lemma_page_byte_window(data@, page_va, seg_vaddr, file_offset, file_size,
                    lo as int, hi as int, s_lo as int, s_hi as int, j);
                assert(mem.byte(frame + j) == 0);
            }
        }
    }
}

/// Load the page at `page_va` of a segment loaded at `seg_vaddr`: take the
/// lowest free frame (zeroed), copy the segment's file bytes that fall in
/// the page into it (see `page_byte`) and map it with
/// `segment_page_flags(writable)`. `false`, changing nothing, when no frame
/// is free.
///
/// When the walk for `page_va` is valid and at least four frames are free,
/// afterwards the page is mapped to that frame and the frame holds the
/// page's bytes.
#[verifier::rlimit(100)]
pub fn load_page(
    mem: &mut PhysicalMemory,
    pml4_phys: u64,
    data: &[u8],
    page_va: u64,
    seg_vaddr: u64,
    file_offset: u64,
    file_size: u64,
    writable: bool,
) -> (ok: bool)
    requires
        old(mem).wf(),
        pml4_phys % 4096 == 0,
    ensures
        final(mem).wf(),
        ok == !old(mem).exhausted(),
        !ok ==> *final(mem) == *old(mem),
        forall|j: int| #[trigger] final(mem).is_free(j) ==> old(mem).is_free(j),
        final(mem).free_count() + 4 >= old(mem).free_count(),
        ok ==> final(mem).free_count() < old(mem).free_count(),
        ok ==> page_loaded(*old(mem), *final(mem), pml4_phys, data@, page_va, seg_vaddr, file_offset, file_size, writable),
{
    let ghost m0 = *mem;
    let frame = mem.alloc_frame();
    if frame == 0 {
        return false;
    }
    let ghost m1 = *mem;
    let ghost k = spec_frame_idx(frame as int);
    fill_segment_page(mem, frame, data, page_va, seg_vaddr, file_offset, file_size);
    let ghost m2 = *mem;
    let flags: u64 = if writable {
        page_flags::PRESENT | page_flags::USER_ACCESS | page_flags::WRITABLE
    } else {
        page_flags::PRESENT | page_flags::USER_ACCESS
    };
    assert(flags == segment_page_flags(writable)) by {
        crate::bitops::lemma_flag_constants();
    }
    proof {
        assert forall|w: int| #[trigger] m2.word(w) != m0.word(w) implies
            spec_frame_addr(k) / 8 <= w < spec_frame_addr(k) / 8 + 512 by {
            if !(spec_frame_addr(k) / 8 <= w < spec_frame_addr(k) / 8 + 512) {
                assert(m1.word(w) == m0.word(w));
            }
        }
        assert(m2.free_count() == m1.free_count()) by {
            PhysicalMemory::lemma_free_count_same(&m2, &m1);
        }
        if valid_path(&m0, pml4_phys, page_va) && m0.free_count() >= 4 {
            lemma_valid_path_kept(&m0, &m2, pml4_phys, page_va, k);
        }
    }
    map_phys_page(mem, pml4_phys, page_va, frame, flags);
    proof {
        PhysicalMemory::lemma_free_count_subset(&m2, mem);
        lemma_entry_bits(frame, flags);
        if valid_path(&m0, pml4_phys, page_va) && m0.free_count() >= 4 {
            let fin = *mem;
            assert forall|j: int| 0 <= j < 4096 implies #[trigger] fin.byte(frame + j)
                == page_byte(data@, page_va, seg_vaddr, file_offset, file_size, j) by {
                let w = (frame + j) / 8;
                assert(word_frame(w) == k);
                if fin.word(w) != m2.word(w) {
                    let o4 = m0.entry(pml4_phys, pml4_idx(page_va) as int);
                    let t3 = entry_addr(fin.entry(pml4_phys, pml4_idx(page_va) as int));
                    let t2 = entry_addr(fin.entry(t3, pdpt_idx(page_va) as int));
                    let t1 = entry_addr(fin.entry(t2, pd_idx(page_va) as int));
                    lemma_index_bound(page_va, 39);
                    lemma_index_bound(page_va, 30);
                    lemma_index_bound(page_va, 21);
                    lemma_index_bound(page_va, 12);
                    lemma_walk_table_not_frame(&m0, &m2, pml4_phys, pml4_idx(page_va) as int, k);
                    lemma_mask_aligned(fin.entry(pml4_phys, pml4_idx(page_va) as int));
                    lemma_mask_aligned(fin.entry(t3, pdpt_idx(page_va) as int));
                    lemma_mask_aligned(fin.entry(t2, pd_idx(page_va) as int));
                    lemma_walk_table_not_frame(&m0, &m2, t3, pdpt_idx(page_va) as int, k);
                    lemma_walk_table_not_frame(&m0, &m2, t2, pd_idx(page_va) as int, k);
                    lemma_walk_table_not_frame(&m0, &m2, t1, pt_idx(page_va) as int, k);
                    assert(false);
                }
                assert(m2.byte(frame + j) == page_byte(data@, page_va, seg_vaddr, file_offset, file_size, j));
            }
            lemma_map_changes_only(&m2, &fin, pml4_phys, page_va);
            lemma_load_changes(&m0, &m2, &fin, pml4_phys, page_va, k);
            assert(map_fresh_zero(&m0, &fin, pml4_phys, page_va));
            assert(map_tables_origin(&m0, &fin, pml4_phys, page_va)) by {
                assert forall|j: int| #[trigger] m2.is_free(j) implies m0.is_free(j) by {}
            }
            assert(!fin.is_free(k));
            assert forall|l: int| 1 <= l <= 3 implies #[trigger] walk_frame(&fin, pml4_phys, page_va, l) != frame by {
                let t3 = entry_addr(fin.entry(pml4_phys, pml4_idx(page_va) as int));
                let t2 = entry_addr(fin.entry(t3, pdpt_idx(page_va) as int));
                let t1 = entry_addr(fin.entry(t2, pd_idx(page_va) as int));
                lemma_index_bound(page_va, 39);
                lemma_index_bound(page_va, 30);
                lemma_index_bound(page_va, 21);
                lemma_mask_aligned(fin.entry(pml4_phys, pml4_idx(page_va) as int));
                lemma_mask_aligned(fin.entry(t3, pdpt_idx(page_va) as int));
                lemma_mask_aligned(fin.entry(t2, pd_idx(page_va) as int));
                lemma_walk_table_not_frame(&m0, &m2, t3, 0, k);
                lemma_walk_table_not_frame(&m0, &m2, t2, 0, k);
                lemma_walk_table_not_frame(&m0, &m2, t1, 0, k);
            }
        }
    }
    true
}

/// Filling a frame that was free and then mapping a page changes no more
/// than the mapping may (see `map_changes_only`).
#[verifier::spinoff_prover]
proof fn lemma_load_changes(m0: &PhysicalMemory, m2: &PhysicalMemory, fin: &PhysicalMemory, pml4: u64, va: u64, k: int)
    requires
        m0.is_free(k),
        forall|j: int| #[trigger] m2.is_free(j) ==> m0.is_free(j),
        forall|w: int| #[trigger] m2.word(w) != m0.word(w) ==> spec_frame_addr(k) / 8 <= w < spec_frame_addr(k) / 8 + 512,
        map_changes_only(m2, fin, pml4, va),
    ensures
        map_changes_only(m0, fin, pml4, va),
{
    assert forall|w: int| #[trigger] fin.word(w) != m0.word(w) implies {
        ||| m0.is_free(word_frame(w))
        ||| w == leaf_word(fin, pml4, va)
        ||| !is_present(m0.word(w)) && upper_walk_word(fin, pml4, va, w)
    } by {
        if m2.word(w) != m0.word(w) {
            assert(word_frame(w) == k);
        } else {
            assert(fin.word(w) != m2.word(w));
            if m2.is_free(word_frame(w)) {
                assert(m0.is_free(word_frame(w)));
            }
        }
    }
}

/// Rounding to pages: a start rounded down and an end rounded up stay in
/// order, and both are page-aligned.
pub proof fn lemma_segment_bounds(v: u64, m: u64)
    requires
        v + m + 0xFFF <= u64::MAX,
    ensures
        (v & page_mask()) % 4096 == 0,
        (((v + m + 0xFFF) as u64) & page_mask()) % 4096 == 0,
        v & page_mask() <= ((v + m + 0xFFF) as u64) & page_mask(),
{
    let y = (v + m + 0xFFF) as u64;
    assert({
        &&& (v & 0xFFFF_FFFF_FFFF_F000u64) % 4096 == 0
        &&& (y & 0xFFFF_FFFF_FFFF_F000u64) % 4096 == 0
        &&& v & 0xFFFF_FFFF_FFFF_F000u64 <= v
        &&& (y >= 0xFFF ==> (y & 0xFFFF_FFFF_FFFF_F000u64) >= y - 0xFFF)
    }) by (bit_vector);
}

/// A LOAD segment that fits maps a whole, non-negative number of pages.
proof fn lemma_seg_pages_nonneg(d: Seq<u8>, i: int)
    requires
        0 <= i < elf_phnum(d),
        segments_fit(d),
    ensures
        seg_pages(d, i) >= 0,
{
    if ph_is_load(d, i) {
        lemma_segment_bounds(ph_vaddr(d, i), ph_mem_size(d, i));
    }
}

/// The pages of the first segments are never negative in number.
proof fn lemma_pages_before_nonneg(d: Seq<u8>, n: int)
    requires
        0 <= n <= elf_phnum(d),
        segments_fit(d),
    ensures
        0 <= pages_before(d, n),
    decreases n,
{
    if n > 0 {
        lemma_pages_before_nonneg(d, n - 1);
        lemma_seg_pages_nonneg(d, n - 1);
    }
}

/// The pages of the first segments never outnumber those of more.
proof fn lemma_pages_before_monotonic(d: Seq<u8>, a: int, b: int)
    requires
        0 <= a <= b <= elf_phnum(d),
        segments_fit(d),
    ensures
        0 <= pages_before(d, a) <= pages_before(d, b),
    decreases b - a,
{
    lemma_pages_before_nonneg(d, a);
    if a < b {
        lemma_pages_before_monotonic(d, a, b - 1);
        lemma_seg_pages_nonneg(d, b - 1);
    }
}

/// Page `p` of segment `i` of image `d` was loaded (see `page_loaded`) in
/// step `pages_before(d, i) + p` of `states`: from that state to the next,
/// writable when the segment's write flag is set.
pub open spec fn segment_page_loaded(d: Seq<u8>, pml4_phys: u64, states: Seq<PhysicalMemory>, i: int, p: int) -> bool {
    let s = pages_before(d, i) + p;
    page_loaded(states[s], states[s + 1], pml4_phys, d, (seg_start(d, i) + p * 4096) as u64,
        ph_vaddr(d, i), ph_file_offset(d, i), ph_file_size(d, i), ph_flags(d, i) & 2 != 0)
}

/// `m1` is `m0` after every page of every LOAD segment of `d` was loaded,
/// segment after segment and page after page, through the states of
/// `states`: one step per page, each as `segment_page_loaded` says.
pub open spec fn image_loaded(d: Seq<u8>, pml4_phys: u64, m0: PhysicalMemory, m1: PhysicalMemory, states: Seq<PhysicalMemory>) -> bool {
    &&& states.len() == total_pages(d) + 1
    &&& states[0] == m0
    &&& states[total_pages(d)] == m1
    &&& forall|i: int, p: int| 0 <= i < elf_phnum(d) && ph_is_load(d, i) && 0 <= p < seg_pages(d, i)
        ==> #[trigger] segment_page_loaded(d, pml4_phys, states, i, p)
}

/// Load executable image `data` into the address space rooted at
/// `pml4_phys`: check its header (see `header_error`), then load each page
/// of each LOAD segment in order with `load_page`, writable when the
/// segment's write flag is set. Returns the entry point and the user stack
/// top.
///
/// A header error is returned with nothing changed. Otherwise the result
/// is `Ok` unless a frame was wanted when none was free (`OutOfMemory`,
/// with memory exhausted), and it is `Ok` whenever four frames per page
/// (one for the page and three for tables on its walk) are free at the
/// start. No frame is freed, and on success at least one frame was taken
/// for each page of the segments, and the pages were loaded one after the
/// other as `image_loaded` says: each mapped to the frame that was lowest
/// free at its step, holding its bytes (`page_byte`), with
/// `segment_page_flags` of its segment's write flag.
///
/// When the image fits the address space (`image::image_fits`: the PML4 in
/// use, the segments in the lower half and sharing no page, and no PML4
/// entry yet where they go) and four frames per page are free, the whole
/// image stands in the final memory: every page of every LOAD segment is
/// mapped with its segment's flags to a frame holding its bytes
/// (`image::page_in_place`).
pub fn load_elf(data: &[u8], mem: &mut PhysicalMemory, pml4_phys: u64) -> (r: Result<LoadResult, ElfError>)
    requires
        old(mem).wf(),
        pml4_phys % 4096 == 0,
        header_error(data@) is None ==> segments_fit(data@),
    ensures
        final(mem).wf(),
        forall|j: int| #[trigger] final(mem).is_free(j) ==> old(mem).is_free(j),
        header_error(data@) matches Some(e) ==> r == Err::<LoadResult, ElfError>(e) && *final(mem) == *old(mem),
        header_error(data@) is None ==> {
            &&& (r matches Ok(res) ==> res.entry == elf_entry(data@) && res.stack_top == USER_STACK_VADDR)
            &&& (r matches Err(e) ==> e == ElfError::OutOfMemory && final(mem).exhausted())
            &&& old(mem).free_count() >= 4 * total_pages(data@) ==> r is Ok
            &&& (r is Ok ==> final(mem).free_count() + total_pages(data@) <= old(mem).free_count())
            &&& (r is Ok ==> exists|states: Seq<PhysicalMemory>| image_loaded(data@, pml4_phys, *old(mem), *final(mem), states))
            &&& image_fits(data@, old(mem), pml4_phys) && old(mem).free_count() >= 4 * total_pages(data@) ==>
                    forall|i: int, p: int| #[trigger] is_seg_page(data@, i, p) ==> page_in_place(final(mem), pml4_phys, data@, i, p)
        },
{
    let h = match check_header(data) {
        Ok(h) => h,
        Err(e) => { return Err(e); },
    };
    let ghost d = data@;
    let phoff = h.e_phoff;
    let phentsize = h.e_phentsize as u64;
    let phnum = h.e_phnum as u64;
    let ghost enough = old(mem).free_count() >= 4 * total_pages(d);
    let ghost mut states: Seq<PhysicalMemory> = seq![*mem];
    let ghost fits = image_fits(d, old(mem), pml4_phys) && enough;
    proof {
        if fits {
            lemma_loader_inv_start(old(mem), pml4_phys, d);
        }
    }
    let mut i: u64 = 0;
    while i < phnum
        invariant
            mem.wf(),
            d == data@,
            header_error(d) is None,
            segments_fit(d),
            phoff == elf_phoff(d),
            phentsize == elf_phentsize(d),
            phnum == elf_phnum(d),
            pml4_phys % 4096 == 0,
            i <= phnum,
            enough == (old(mem).free_count() >= 4 * total_pages(d)),
            forall|j: int| #[trigger] mem.is_free(j) ==> old(mem).is_free(j),
            mem.free_count() + 4 * pages_before(d, i as int) >= old(mem).free_count(),
            mem.free_count() + pages_before(d, i as int) <= old(mem).free_count(),
            states.len() == pages_before(d, i as int) + 1,
            states[0] == *old(mem),
            states[pages_before(d, i as int)] == *mem,
            forall|i2: int, p: int| 0 <= i2 < i && ph_is_load(d, i2) && 0 <= p < seg_pages(d, i2)
                ==> #[trigger] segment_page_loaded(d, pml4_phys, states, i2, p),
            fits == (image_fits(d, old(mem), pml4_phys) && enough),
            fits ==> loader_inv(old(mem), mem, pml4_phys, d, i as int, 0),
        decreases phnum - i,
    {
        assert(phoff + (i + 1) * phentsize <= phoff + phnum * phentsize) by (nonlinear_arith)
            requires i + 1 <= phnum, phentsize >= 0;
        assert((i + 1) * phentsize == i * phentsize + phentsize) by (nonlinear_arith);
        let n: usize = data.len();
        assert(i * phentsize + phentsize + phoff <= n);
        let off = phoff + i * phentsize;
        let ph = parse_program_header(data, off as usize);
        assert(off == ph_offset(d, i as int));
        proof { lemma_pages_before_monotonic(d, i + 1, phnum as int); }
        if ph.p_type == PT_LOAD {
            proof { lemma_segment_bounds(ph.p_vaddr, ph.p_memsz); }
            let vaddr = ph.p_vaddr & 0xFFFF_FFFF_FFFF_F000u64;
            let end = (ph.p_vaddr + ph.p_memsz + 0xFFF) & 0xFFFF_FFFF_FFFF_F000u64;
            let writable = ph.p_flags & 2 != 0;
            let mut cur = vaddr;
            while cur < end
                invariant
                    mem.wf(),
                    d == data@,
                    header_error(d) is None,
                    pml4_phys % 4096 == 0,
                    vaddr == seg_start(d, i as int),
                    end == seg_end(d, i as int),
                    vaddr % 4096 == 0,
                    end % 4096 == 0,
                    cur % 4096 == 0,
                    vaddr <= cur <= end,
                    ph_is_load(d, i as int),
                    0 <= pages_before(d, i as int + 1) <= total_pages(d),
                    enough == (old(mem).free_count() >= 4 * total_pages(d)),
                    forall|j: int| #[trigger] mem.is_free(j) ==> old(mem).is_free(j),
                    mem.free_count() + 4 * (pages_before(d, i as int) + (cur - vaddr) / 4096) >= old(mem).free_count(),
                    mem.free_count() + (pages_before(d, i as int) + (cur - vaddr) / 4096) <= old(mem).free_count(),
                    i < phnum,
                    phnum == elf_phnum(d),
                    segments_fit(d),
                    ph.p_vaddr == ph_vaddr(d, i as int),
                    ph.p_offset == ph_file_offset(d, i as int),
                    ph.p_filesz == ph_file_size(d, i as int),
                    writable == (ph_flags(d, i as int) & 2 != 0),
                    states.len() == pages_before(d, i as int) + (cur - vaddr) / 4096 + 1,
                    states[0] == *old(mem),
                    states[pages_before(d, i as int) + (cur - vaddr) / 4096] == *mem,
                    forall|i2: int, p: int| 0 <= i2 < i && ph_is_load(d, i2) && 0 <= p < seg_pages(d, i2)
                        ==> #[trigger] segment_page_loaded(d, pml4_phys, states, i2, p),
                    forall|p: int| 0 <= p < (cur - vaddr) / 4096
                        ==> #[trigger] segment_page_loaded(d, pml4_phys, states, i as int, p),
                    fits == (image_fits(d, old(mem), pml4_phys) && enough),
                    fits ==> loader_inv(old(mem), mem, pml4_phys, d, i as int, (cur - vaddr) / 4096),
                decreases end - cur,
            {
                assert((cur - vaddr) / 4096 < (end - vaddr) / 4096) by {
                    assert(cur + 4096 <= end);
                }
                let ghost before = *mem;
                let ghost q = (cur - vaddr) / 4096;
                proof {
                    if fits {
                        assert(q * 4096 == cur - vaddr) by {
                            assert((cur - vaddr) % 4096 == 0);
                        }
                        assert(seg_page_va(d, i as int, q) == cur);
                        assert(is_seg_page(d, i as int, q));
                        lemma_next_walk_valid(old(mem), mem, pml4_phys, d, i as int, q);
                        lemma_pages_before_nonneg(d, i as int);
                    }
                }
                let ok = load_page(mem, pml4_phys, data, cur, ph.p_vaddr, ph.p_offset, ph.p_filesz, writable);
                if !ok {
                    proof {
                        if enough {
                            before.lemma_exhausted_iff_no_free();
                            assert(before.free_count() > 0);
                        }
                    }
                    return Err(ElfError::OutOfMemory);
                }
                assert((cur + 4096 - vaddr) / 4096 == (cur - vaddr) / 4096 + 1);
                proof {
                    if fits {
                        lemma_loader_step(old(mem), &before, mem, pml4_phys, d, i as int, q);
                    }
                }
                proof {
                    let ghost q = (cur - vaddr) / 4096;
                    lemma_pages_before_nonneg(d, i as int);
                    let ghost prev = states;
                    states = states.push(*mem);
                    assert(q * 4096 == cur - vaddr) by {
                        assert((cur - vaddr) % 4096 == 0);
                    }
                    assert(segment_page_loaded(d, pml4_phys, states, i as int, q));
                    assert forall|i2: int, p: int| 0 <= i2 < i && ph_is_load(d, i2) && 0 <= p < seg_pages(d, i2)
                        implies #[trigger] segment_page_loaded(d, pml4_phys, states, i2, p) by {
                        assert(segment_page_loaded(d, pml4_phys, prev, i2, p));
                        lemma_pages_before_monotonic(d, i2 + 1, i as int);
                        lemma_pages_before_nonneg(d, i2);
                        assert(pages_before(d, i2 + 1) == pages_before(d, i2) + seg_pages(d, i2));
                        assert(states[pages_before(d, i2) + p] == prev[pages_before(d, i2) + p]);
                        assert(states[pages_before(d, i2) + p + 1] == prev[pages_before(d, i2) + p + 1]);
                    }
                    assert forall|p: int| 0 <= p < q + 1
                        implies #[trigger] segment_page_loaded(d, pml4_phys, states, i as int, p) by {
                        if p < q {
                            assert(segment_page_loaded(d, pml4_phys, prev, i as int, p));
                            assert(states[pages_before(d, i as int) + p] == prev[pages_before(d, i as int) + p]);
                            assert(states[pages_before(d, i as int) + p + 1] == prev[pages_before(d, i as int) + p + 1]);
                        }
                    }
                }
                cur = cur + 4096;
            }
            assert(pages_before(d, i as int + 1) == pages_before(d, i as int) + (end - vaddr) / 4096);
            proof {
                if fits {
                    assert forall|k: int, p: int| #[trigger] loaded_before(d, i as int, (cur - vaddr) / 4096, k, p)
                        == loaded_before(d, i as int + 1, 0, k, p) by {}
                    lemma_loader_inv_moved(old(mem), mem, pml4_phys, d, i as int, (cur - vaddr) / 4096, i as int + 1, 0);
                }
            }
            assert forall|i2: int, p: int| 0 <= i2 < i + 1 && ph_is_load(d, i2) && 0 <= p < seg_pages(d, i2)
                implies #[trigger] segment_page_loaded(d, pml4_phys, states, i2, p) by {
                if i2 == i {
                    assert(segment_page_loaded(d, pml4_phys, states, i as int, p));
                }
            }
        } else {
            assert(pages_before(d, i as int + 1) == pages_before(d, i as int));
            proof {
                if fits {
                    assert forall|k: int, p: int| #[trigger] loaded_before(d, i as int, 0, k, p)
                        == loaded_before(d, i as int + 1, 0, k, p) by {}
                    lemma_loader_inv_moved(old(mem), mem, pml4_phys, d, i as int, 0, i as int + 1, 0);
                }
            }
            assert forall|i2: int, p: int| 0 <= i2 < i + 1 && ph_is_load(d, i2) && 0 <= p < seg_pages(d, i2)
                implies #[trigger] segment_page_loaded(d, pml4_phys, states, i2, p) by {
                if i2 == i {
                    assert(!ph_is_load(d, i2));
                }
            }
        }
        i += 1;
    }
    assert(image_loaded(d, pml4_phys, *old(mem), *mem, states));
    proof {
        if fits {
            lemma_loader_done(old(mem), mem, pml4_phys, d);
        }
    }
    Ok(LoadResult { entry: h.e_entry, stack_top: USER_STACK_VADDR })
}

} // verus!
