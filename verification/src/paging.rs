//! Physical memory, the bitmap frame allocator and 4-level page tables.
//!
//! The machine's RAM (`PHYS_MEM_END` bytes from physical address 0) is held
//! as 64-bit words; page-table entries are the words of page-aligned
//! frames. Frames in `[PHYS_MEM_START, PHYS_MEM_END)` are handed out by a
//! bitmap allocator in which a set bit means "free". Addresses beyond the
//! end of RAM read as zero and writes to them are dropped.

use vstd::prelude::*;
use vstd::bytes::{spec_u64_to_le_bytes, spec_u64_from_le_bytes, u64_to_le_bytes, u64_from_le_bytes, lemma_auto_spec_u64_to_from_le_bytes};
use vstd::std_specs::bits::{u64_trailing_zeros, axiom_u64_trailing_zeros};
use crate::bitops::{bit_of, lemma_set_bit, lemma_clear_bit, lemma_zero_and_full_words};

pub mod page_flags;
pub mod cow;
pub mod cow_mark;

pub use cow::copy_page_table_cow;



verus! {

/// First physical address managed by the frame allocator (1 MiB).
pub const PHYS_MEM_START: u64 = 0x0010_0000;
/// End of physical RAM and of the managed range (128 MiB).
pub const PHYS_MEM_END: u64 = 0x0800_0000;
/// Number of 4 KiB frames managed: `(PHYS_MEM_END - PHYS_MEM_START) / 4096`.
pub const NUM_FRAMES: usize = 32512;
/// Number of 64-bit words in the allocation bitmap: `NUM_FRAMES / 64`.
pub const BITMAP_WORDS: usize = 508;
/// Number of 64-bit words of RAM: `PHYS_MEM_END / 8`.
pub const RAM_WORDS: usize = 0x0100_0000;

/// User process code load address.
pub const USER_VADDR_LOAD: u64 = 0x0000_0000_0040_0000;
/// First user virtual address.
pub const USER_VADDR_START: u64 = 0x0000_0000_0040_0000;
/// User virtual address limit.
pub const USER_VADDR_END: u64 = 0x0000_7FFF_FFFF_FFFF;
/// Top of the user stack (grows down), inside the user-accessible 2 MiB page PD[7].
pub const USER_STACK_VADDR: u64 = 0x0000_0000_00FF_F000;
/// Virtual address of the VGA text buffer in a user-space driver.
pub const VGA_BUFFER_VADDR: u64 = 0x0000_0000_0060_0000;
/// Physical address of the VGA text buffer.
pub const VGA_PHYS_ADDR: u64 = 0xB8000;
/// User stack size (8 KiB).
pub const USER_STACK_SIZE: u64 = 0x2000;
/// Page size (4 KiB).
pub const PAGE_SIZE: u64 = 4096;
/// Entries per page table.
pub const PT_ENTRIES: usize = 512;
/// Bits 12..51 of an entry: the physical frame address.
pub const ADDR_MASK: u64 = 0x000F_FFFF_FFFF_F000;
/// Flags of a user page: present, writable, user-accessible.
pub const PTE_USER: u64 = 0x7;
/// Flags of a kernel page: present, writable.
pub const PTE_KERNEL: u64 = 0x3;

/// Physical address of frame `idx` of the managed range.
pub open spec fn spec_frame_addr(idx: int) -> int {
    PHYS_MEM_START + idx * 4096
}

/// Frame index of physical address `addr` in the managed range.
pub open spec fn spec_frame_idx(addr: int) -> int {
    (addr - PHYS_MEM_START) / 4096
}

/// Convert a physical address to a bitmap frame index.
pub fn addr_to_frame_idx(addr: u64) -> (idx: usize)
    requires
        PHYS_MEM_START <= addr < PHYS_MEM_END,
    ensures
        idx == spec_frame_idx(addr as int),
        idx < NUM_FRAMES,
{
    ((addr - PHYS_MEM_START) / 4096) as usize
}

/// Convert a bitmap frame index back to a physical address.
pub fn frame_idx_to_addr(idx: usize) -> (addr: u64)
    requires
        idx < NUM_FRAMES,
    ensures
        addr == spec_frame_addr(idx as int),
        PHYS_MEM_START <= addr < PHYS_MEM_END,
        addr % 4096 == 0,
{
    PHYS_MEM_START + (idx as u64) * 4096
}

/// The bytes of a little-endian word.
pub open spec fn word_bytes(w: u64) -> Seq<u8> {
    spec_u64_to_le_bytes(w)
}

/// The machine's RAM together with the bitmap of free frames.
pub struct PhysicalMemory {
    bitmap: Vec<u64>,
    words: Vec<u64>,
}

impl PhysicalMemory {
    /// The bitmap covers every managed frame and RAM has its full size.
    pub closed spec fn wf(&self) -> bool {
        &&& self.bitmap@.len() == BITMAP_WORDS
        &&& self.words@.len() == RAM_WORDS
    }

    /// Whether managed frame `idx` is free.
    pub closed spec fn is_free(&self, idx: int) -> bool {
        0 <= idx < NUM_FRAMES && bit_of(self.bitmap@[idx / 64], idx % 64)
    }

    /// Word `w` of RAM (word `w` holds bytes `8w .. 8w+8`); zero past the end.
    pub closed spec fn word(&self, w: int) -> u64 {
        if 0 <= w < self.words@.len() {
            self.words@[w]
        } else {
            0
        }
    }

    /// Byte at physical address `a`.
    pub open spec fn byte(&self, a: int) -> u8 {
        word_bytes(self.word(a / 8))[a % 8]
    }

    /// Entry `i` of the page table at physical address `table`.
    pub open spec fn entry(&self, table: u64, i: int) -> u64 {
        self.word(table / 8 + i)
    }

    /// RAM of `self` and `other` holds the same words.
    pub open spec fn same_ram(&self, other: &Self) -> bool {
        forall|w: int| #[trigger] self.word(w) == other.word(w)
    }

    /// `k` is the lowest free frame.
    pub open spec fn lowest_free(&self, k: int) -> bool {
        &&& self.is_free(k)
        &&& forall|j: int| 0 <= j < k ==> !#[trigger] self.is_free(j)
    }

    /// No managed frame is free.
    pub open spec fn exhausted(&self) -> bool {
        forall|j: int| 0 <= j < NUM_FRAMES ==> !#[trigger] self.is_free(j)
    }

    /// Number of free frames among the first `n`.
    pub closed spec fn free_below(&self, n: int) -> nat
        decreases n,
    {
        if n <= 0 {
            0
        } else {
            self.free_below(n - 1) + if self.is_free(n - 1) { 1nat } else { 0nat }
        }
    }

    /// Number of free frames.
    pub open spec fn free_count(&self) -> nat {
        self.free_below(NUM_FRAMES as int)
    }

    /// The free frames of `self` and `other` differ at most at frame `k`.
    pub open spec fn same_free_except(&self, other: &Self, k: int) -> bool {
        forall|j: int| j != k ==> #[trigger] self.is_free(j) == other.is_free(j)
    }

    /// RAM of `self` and `other` agrees except in the words of frame `k`.
    pub open spec fn same_words_except_frame(&self, other: &Self, k: int) -> bool {
        forall|w: int|
            !(spec_frame_addr(k) / 8 <= w < spec_frame_addr(k) / 8 + 512) ==> #[trigger] self.word(w) == other.word(w)
    }

    /// Every word of frame `k` is zero.
    pub open spec fn frame_zeroed(&self, k: int) -> bool {
        forall|w: int| spec_frame_addr(k) / 8 <= w < spec_frame_addr(k) / 8 + 512 ==> #[trigger] self.word(w) == 0
    }

    proof fn lemma_free_below_one_less(a: &Self, b: &Self, k: int, n: int)
        requires
            a.same_free_except(b, k),
            a.is_free(k),
            !b.is_free(k),
        ensures
            n > k ==> a.free_below(n) == b.free_below(n) + 1,
            n <= k ==> a.free_below(n) == b.free_below(n),
        decreases n,
    {
        if n > 0 {
            Self::lemma_free_below_one_less(a, b, k, n - 1);
        }
    }

    proof fn lemma_free_below_same(a: &Self, b: &Self, n: int)
        requires
            forall|j: int| #[trigger] a.is_free(j) == b.is_free(j),
        ensures
            a.free_below(n) == b.free_below(n),
        decreases n,
    {
        if n > 0 {
            Self::lemma_free_below_same(a, b, n - 1);
        }
    }

    proof fn lemma_free_below_zero(&self, n: int)
        requires
            forall|j: int| 0 <= j < n ==> !#[trigger] self.is_free(j),
        ensures
            self.free_below(n) == 0,
        decreases n,
    {
        if n > 0 {
            self.lemma_free_below_zero(n - 1);
        }
    }

    proof fn lemma_free_below_positive(&self, n: int, k: int)
        requires
            0 <= k < n,
            self.is_free(k),
        ensures
            self.free_below(n) > 0,
        decreases n,
    {
        if n - 1 != k {
            self.lemma_free_below_positive(n - 1, k);
        }
    }

    proof fn lemma_free_below_all(&self, n: int)
        requires
            0 <= n <= NUM_FRAMES,
            forall|j: int| 0 <= j < NUM_FRAMES ==> #[trigger] self.is_free(j),
        ensures
            self.free_below(n) == n,
        decreases n,
    {
        if n > 0 {
            self.lemma_free_below_all(n - 1);
        }
    }

    /// Only managed frames are free.
    pub proof fn lemma_free_in_range(&self, idx: int)
        ensures
            self.is_free(idx) ==> 0 <= idx < NUM_FRAMES,
    {
    }

    /// A state whose free frames are among another's has no more of them.
    pub proof fn lemma_free_count_subset(a: &Self, b: &Self)
        requires
            forall|j: int| #[trigger] b.is_free(j) ==> a.is_free(j),
        ensures
            b.free_count() <= a.free_count(),
    {
        Self::lemma_free_below_subset(a, b, NUM_FRAMES as int);
    }

    proof fn lemma_free_below_subset(a: &Self, b: &Self, n: int)
        requires
            forall|j: int| #[trigger] b.is_free(j) ==> a.is_free(j),
        ensures
            b.free_below(n) <= a.free_below(n),
        decreases n,
    {
        if n > 0 {
            Self::lemma_free_below_subset(a, b, n - 1);
        }
    }

    /// Two states with the same free frames have the same free count.
    pub proof fn lemma_free_count_same(a: &Self, b: &Self)
        requires
            forall|j: int| #[trigger] a.is_free(j) == b.is_free(j),
        ensures
            a.free_count() == b.free_count(),
    {
        Self::lemma_free_below_same(a, b, NUM_FRAMES as int);
    }

    /// No free frame means a free count of zero, and the other way round.
    pub proof fn lemma_exhausted_iff_no_free(&self)
        ensures
            self.exhausted() <==> self.free_count() == 0,
    {
        if self.exhausted() {
            self.lemma_free_below_zero(NUM_FRAMES as int);
        } else {
            let k = choose|j: int| 0 <= j < NUM_FRAMES && #[trigger] self.is_free(j);
            self.lemma_free_below_positive(NUM_FRAMES as int, k);
        }
    }

    /// A machine with all RAM zeroed and every managed frame free.
    pub fn new() -> (m: Self)
        ensures
            m.wf(),
            forall|j: int| 0 <= j < NUM_FRAMES ==> #[trigger] m.is_free(j),
            forall|w: int| #[trigger] m.word(w) == 0,
            m.free_count() == NUM_FRAMES,
    {
        let m = PhysicalMemory {
            bitmap: vec![0xffff_ffff_ffff_ffffu64; BITMAP_WORDS],
            words: vec![0u64; RAM_WORDS],
        };
        assert forall|j: int| 0 <= j < NUM_FRAMES implies #[trigger] m.is_free(j) by {
            assert(m.bitmap@[j / 64] == 0xffff_ffff_ffff_ffffu64);
            lemma_zero_and_full_words((j % 64) as u64);
        }
        proof { m.lemma_free_below_all(NUM_FRAMES as int); }
        m
    }

    /// Set or clear the bit of managed frame `idx` in the bitmap.
    fn set_frame_bit(&mut self, idx: usize, free: bool)
        requires
            old(self).wf(),
            idx < NUM_FRAMES,
        ensures
            final(self).wf(),
            final(self).words@ == old(self).words@,
            final(self).is_free(idx as int) == free,
            final(self).same_free_except(old(self), idx as int),
    {
        let w = idx / 64;
        let b = (idx % 64) as u64;
        let old_word = self.bitmap[w];
        let new_word = if free { old_word | (1u64 << b) } else { old_word & !(1u64 << b) };
        self.bitmap.set(w, new_word);
        assert forall|j: int| j != idx implies #[trigger] self.is_free(j) == old(self).is_free(j) by {
            if 0 <= j < NUM_FRAMES && j / 64 == w as int {
                if free {
                    lemma_set_bit(old_word, b, (j % 64) as u64);
                } else {
                    lemma_clear_bit(old_word, b, (j % 64) as u64);
                }
            }
        }
        proof {
            if free {
                lemma_set_bit(old_word, b, b);
            } else {
                lemma_clear_bit(old_word, b, b);
            }
        }
    }

    /// Mark the frame holding `phys` as in use; addresses outside the
    /// managed range are ignored.
    pub fn mark_frame_in_use(&mut self, phys: u64)
        requires
            old(self).wf(),
        ensures
            final(self).wf(),
            final(self).same_ram(old(self)),
            PHYS_MEM_START <= phys < PHYS_MEM_END ==> {
                &&& !final(self).is_free(spec_frame_idx(phys as int))
                &&& final(self).same_free_except(old(self), spec_frame_idx(phys as int))
            },
            !(PHYS_MEM_START <= phys < PHYS_MEM_END) ==> *final(self) == *old(self),
    {
        if phys < PHYS_MEM_START || phys >= PHYS_MEM_END {
            return;
        }
        let idx = addr_to_frame_idx(phys);
        self.set_frame_bit(idx, false);
    }

    /// Free the frame holding `phys`, returning it to the pool; addresses
    /// outside the managed range are ignored. RAM is left as it is.
    pub fn free_frame(&mut self, phys: u64)
        requires
            old(self).wf(),
        ensures
            final(self).wf(),
            final(self).same_ram(old(self)),
            PHYS_MEM_START <= phys < PHYS_MEM_END ==> {
                &&& final(self).is_free(spec_frame_idx(phys as int))
                &&& final(self).same_free_except(old(self), spec_frame_idx(phys as int))
                &&& final(self).free_count() == old(self).free_count()
                    + if old(self).is_free(spec_frame_idx(phys as int)) { 0nat } else { 1nat }
            },
            !(PHYS_MEM_START <= phys < PHYS_MEM_END) ==> *final(self) == *old(self),
    {
        if phys < PHYS_MEM_START || phys >= PHYS_MEM_END {
            return;
        }
        let idx = addr_to_frame_idx(phys);
        let ghost was_free = self.is_free(idx as int);
        self.set_frame_bit(idx, true);
        proof {
            if was_free {
                Self::lemma_free_below_same(self, old(self), NUM_FRAMES as int);
            } else {
                Self::lemma_free_below_one_less(self, old(self), idx as int, NUM_FRAMES as int);
            }
        }
    }

    /// Mark every managed frame whose address lies below `kernel_end` as in
    /// use (the kernel image occupies them); the others keep their state.
    pub fn init_frame_allocator(&mut self, kernel_end: u64)
        requires
            old(self).wf(),
            kernel_end <= u64::MAX - 4096,
        ensures
            final(self).wf(),
            final(self).same_ram(old(self)),
            forall|j: int| #[trigger] final(self).is_free(j)
                == (old(self).is_free(j) && !(spec_frame_addr(j) < kernel_end)),
    {
        let mut addr: u64 = PHYS_MEM_START;
        while addr < kernel_end
            invariant
                self.wf(),
                self.same_ram(old(self)),
                kernel_end <= u64::MAX - 4096,
                PHYS_MEM_START <= addr,
                (addr - PHYS_MEM_START) % 4096 == 0,
                addr == PHYS_MEM_START || addr < kernel_end + 4096,
                forall|j: int| #[trigger] self.is_free(j)
                    == (old(self).is_free(j) && !(spec_frame_addr(j) < addr)),
            decreases kernel_end + 4096 - addr,
        {
            let ghost prev = *self;
            self.mark_frame_in_use(addr);
            assert forall|j: int| #[trigger] self.is_free(j)
                == (old(self).is_free(j) && !(spec_frame_addr(j) < addr + 4096)) by {
                if 0 <= j < NUM_FRAMES && spec_frame_addr(j) == addr {
                    assert(spec_frame_idx(addr as int) == j);
                }
                if addr < PHYS_MEM_END && j == spec_frame_idx(addr as int) {
                    assert(spec_frame_addr(j) == addr);
                }
            }
            addr = addr + 4096;
        }
        assert forall|j: int| #[trigger] self.is_free(j)
            == (old(self).is_free(j) && !(spec_frame_addr(j) < kernel_end)) by {
            if 0 <= j < NUM_FRAMES {
                assert((spec_frame_addr(j) - PHYS_MEM_START) % 4096 == 0);
            }
        }
    }

    /// Allocate the lowest free frame: mark it in use, zero it and return
    /// its physical address; 0 when no frame is free.
    pub fn alloc_frame(&mut self) -> (addr: u64)
        requires
            old(self).wf(),
        ensures
            final(self).wf(),
            (addr == 0) == old(self).exhausted(),
            (addr == 0) == (old(self).free_count() == 0),
            addr == 0 ==> *final(self) == *old(self),
            addr != 0 ==> {
                let k = spec_frame_idx(addr as int);
                &&& addr == spec_frame_addr(k)
                &&& addr % 4096 == 0
                &&& 0 <= k < NUM_FRAMES
                &&& PHYS_MEM_START <= addr < PHYS_MEM_END
                &&& old(self).lowest_free(k)
                &&& !final(self).is_free(k)
                &&& final(self).same_free_except(old(self), k)
                &&& final(self).frame_zeroed(k)
                &&& final(self).same_words_except_frame(old(self), k)
                &&& final(self).free_count() + 1 == old(self).free_count()
            },
    {
        proof { old(self).lemma_exhausted_iff_no_free(); }
        let mut w: usize = 0;
        while w < BITMAP_WORDS
            invariant
                self.wf(),
                *self == *old(self),
                w <= BITMAP_WORDS,
                forall|j: int| 0 <= j < w * 64 ==> !#[trigger] self.is_free(j),
            decreases BITMAP_WORDS - w,
        {
            let word = self.bitmap[w];
            if word != 0 {
                let tz = word.trailing_zeros();
                proof { axiom_u64_trailing_zeros(word); }
                let bit = tz as usize;
                let frame_idx = w * 64 + bit;
                assert(self.lowest_free(frame_idx as int)) by {
                    assert(frame_idx as int / 64 == w as int);
                    assert(frame_idx as int % 64 == bit as int);
                    assert forall|j: int| 0 <= j < frame_idx implies !#[trigger] self.is_free(j) by {
                        if j >= w * 64 {
                            assert(j / 64 == w as int);
                            assert((word >> ((j % 64) as u64)) & 1u64 == 0u64);
                        }
                    }
                }
                self.set_frame_bit(frame_idx, false);
                let ghost mid = *self;
                let addr = frame_idx_to_addr(frame_idx);
                self.zero_frame(frame_idx);
                proof {
                    assert forall|j: int| j != frame_idx implies #[trigger] old(self).is_free(j) == self.is_free(j) by {
                        assert(mid.is_free(j) == old(self).is_free(j));
                    }
                    assert(!self.is_free(frame_idx as int)) by {
                        assert(!mid.is_free(frame_idx as int));
                    }
                    assert(spec_frame_idx(addr as int) == frame_idx);
                    Self::lemma_free_below_one_less(old(self), self, frame_idx as int, NUM_FRAMES as int);
                }
                return addr;
            }
            assert forall|j: int| 0 <= j < (w + 1) * 64 implies !#[trigger] self.is_free(j) by {
                if j >= w * 64 {
                    assert(j / 64 == w as int);
                    lemma_zero_and_full_words((j % 64) as u64);
                }
            }
            w += 1;
        }
        0
    }

    /// Allocate and zero a 4 KiB frame (every frame is zeroed on allocation).
    pub fn alloc_zeroed_frame(&mut self) -> (addr: u64)
        requires
            old(self).wf(),
        ensures
            final(self).wf(),
            (addr == 0) == old(self).exhausted(),
            (addr == 0) == (old(self).free_count() == 0),
            addr == 0 ==> *final(self) == *old(self),
            addr != 0 ==> {
                let k = spec_frame_idx(addr as int);
                &&& addr == spec_frame_addr(k)
                &&& addr % 4096 == 0
                &&& 0 <= k < NUM_FRAMES
                &&& PHYS_MEM_START <= addr < PHYS_MEM_END
                &&& old(self).lowest_free(k)
                &&& !final(self).is_free(k)
                &&& final(self).same_free_except(old(self), k)
                &&& final(self).frame_zeroed(k)
                &&& final(self).same_words_except_frame(old(self), k)
                &&& final(self).free_count() + 1 == old(self).free_count()
            },
    {
        self.alloc_frame()
    }

    /// Read entry `index` of the page table at `table_phys`.
    pub fn read_pt_entry(&self, table_phys: u64, index: usize) -> (e: u64)
        requires
            self.wf(),
            table_phys % 4096 == 0,
            index < 512,
        ensures
            e == self.entry(table_phys, index as int),
    {
        let w = table_phys / 8 + index as u64;
        if w < RAM_WORDS as u64 {
            self.words[w as usize]
        } else {
            0
        }
    }

    /// Write entry `index` of the page table at `table_phys`; every other
    /// word of RAM keeps its value.
    pub fn write_pt_entry(&mut self, table_phys: u64, index: usize, value: u64)
        requires
            old(self).wf(),
            table_phys % 4096 == 0,
            index < 512,
        ensures
            final(self).wf(),
            forall|j: int| #[trigger] final(self).is_free(j) == old(self).is_free(j),
            forall|w: int| #[trigger] final(self).word(w) ==
                if w == table_phys / 8 + index && table_phys + 8 * index < PHYS_MEM_END { value } else { old(self).word(w) },
    {
        let w = table_phys / 8 + index as u64;
        if w < RAM_WORDS as u64 {
            self.write_word(w as usize, value);
        }
    }

    /// Zero all 512 entries of the page table at `table_phys`.
    pub fn zero_pt_frame(&mut self, table_phys: u64)
        requires
            old(self).wf(),
            table_phys % 4096 == 0,
        ensures
            final(self).wf(),
            forall|j: int| #[trigger] final(self).is_free(j) == old(self).is_free(j),
            forall|w: int| #[trigger] final(self).word(w) ==
                if table_phys / 8 <= w < table_phys / 8 + 512 && w < RAM_WORDS { 0 } else { old(self).word(w) },
    {
        let mut i: usize = 0;
        while i < 512
            invariant
                self.wf(),
                table_phys % 4096 == 0,
                i <= 512,
                forall|j: int| #[trigger] self.is_free(j) == old(self).is_free(j),
                forall|w: int| #[trigger] self.word(w) ==
                    if table_phys / 8 <= w < table_phys / 8 + i && w < RAM_WORDS { 0 } else { old(self).word(w) },
            decreases 512 - i,
        {
            self.write_pt_entry(table_phys, i, 0);
            i += 1;
        }
    }

    /// The byte at physical address `addr` (zero past the end of RAM).
    pub fn read_byte(&self, addr: u64) -> (b: u8)
        requires
            self.wf(),
        ensures
            b == self.byte(addr as int),
    {
        let wi = addr / 8;
        let w = if wi < RAM_WORDS as u64 { self.words[wi as usize] } else { 0 };
        let bytes = u64_to_le_bytes(w);
        bytes[(addr % 8) as usize]
    }

    /// Whether the frame holding `phys` is a managed frame that is free.
    pub fn is_frame_free(&self, phys: u64) -> (b: bool)
        requires
            self.wf(),
        ensures
            b == (PHYS_MEM_START <= phys < PHYS_MEM_END && self.is_free(spec_frame_idx(phys as int))),
    {
        if phys < PHYS_MEM_START || phys >= PHYS_MEM_END {
            return false;
        }
        let idx = addr_to_frame_idx(phys);
        let w = self.bitmap[idx / 64];
        (w >> ((idx % 64) as u64)) & 1 == 1
    }

    /// Write byte `b` at physical address `addr`; every other byte keeps its
    /// value (a write past the end of RAM is dropped).
    pub fn write_byte(&mut self, addr: u64, b: u8)
        requires
            old(self).wf(),
        ensures
            final(self).wf(),
            forall|j: int| #[trigger] final(self).is_free(j) == old(self).is_free(j),
            forall|a: int| 0 <= a ==> #[trigger] final(self).byte(a)
                == if a == addr && addr < PHYS_MEM_END { b } else { old(self).byte(a) },
            forall|w: int| w != addr / 8 ==> #[trigger] final(self).word(w) == old(self).word(w),
    {
        let w = addr / 8;
        if w >= RAM_WORDS as u64 {
            return;
        }
        let old_word = self.read_word(w as usize);
        let mut bytes = u64_to_le_bytes(old_word);
        let pos = (addr % 8) as usize;
        bytes.set(pos, b);
        proof { lemma_auto_spec_u64_to_from_le_bytes(); }
        let new_word = u64_from_le_bytes(bytes.as_slice());
        assert(word_bytes(new_word) == bytes@);
        self.write_word(w as usize, new_word);
        assert forall|a: int| 0 <= a implies #[trigger] self.byte(a)
            == if a == addr && addr < PHYS_MEM_END { b } else { old(self).byte(a) } by {
            if a / 8 == w as int {
                assert(self.word(a / 8) == new_word);
            }
        }
    }

    /// Copy `data` to physical memory starting at `addr`.
    pub fn write_bytes(&mut self, addr: u64, data: &[u8])
        requires
            old(self).wf(),
            addr + data@.len() <= u64::MAX,
        ensures
            final(self).wf(),
            forall|j: int| #[trigger] final(self).is_free(j) == old(self).is_free(j),
            forall|a: int| 0 <= a ==> #[trigger] final(self).byte(a)
                == if addr <= a < addr + data@.len() && a < PHYS_MEM_END { data@[a - addr] } else { old(self).byte(a) },
            forall|w: int| (w + 1) * 8 <= addr || addr + data@.len() <= w * 8 ==> #[trigger] final(self).word(w) == old(self).word(w),
    {
        let mut i: usize = 0;
        while i < data.len()
            invariant
                self.wf(),
                addr + data@.len() <= u64::MAX,
                i <= data@.len(),
                forall|j: int| #[trigger] self.is_free(j) == old(self).is_free(j),
                forall|a: int| 0 <= a ==> #[trigger] self.byte(a)
                    == if addr <= a < addr + i && a < PHYS_MEM_END { data@[a - addr] } else { old(self).byte(a) },
                forall|w: int| (w + 1) * 8 <= addr || addr + data@.len() <= w * 8 ==> #[trigger] self.word(w) == old(self).word(w),
            decreases data@.len() - i,
        {
            self.write_byte(addr + i as u64, data[i]);
            i += 1;
        }
    }

    /// Copy the 512 words of the frame at `src` into the frame at `dst`
    /// (a source past the end of RAM reads as zeros).
    pub fn copy_frame(&mut self, dst: u64, src: u64)
        requires
            old(self).wf(),
            dst % 4096 == 0,
            src % 4096 == 0,
            dst < PHYS_MEM_END,
        ensures
            final(self).wf(),
            forall|j: int| #[trigger] final(self).is_free(j) == old(self).is_free(j),
            forall|w: int| #[trigger] final(self).word(w) ==
                if dst / 8 <= w < dst / 8 + 512 { old(self).word(src / 8 + (w - dst / 8)) } else { old(self).word(w) },
    {
        let mut i: usize = 0;
        while i < 512
            invariant
                self.wf(),
                dst % 4096 == 0,
                src % 4096 == 0,
                dst < PHYS_MEM_END,
                i <= 512,
                forall|j: int| #[trigger] self.is_free(j) == old(self).is_free(j),
                dst == src || src / 8 + 512 <= dst / 8 || dst / 8 + 512 <= src / 8,
                forall|w: int| #[trigger] self.word(w) ==
                    if dst / 8 <= w < dst / 8 + i { old(self).word(src / 8 + (w - dst / 8)) } else { old(self).word(w) },
            decreases 512 - i,
        {
            let v = self.read_pt_entry(src, i);
            self.write_pt_entry(dst, i, v);
            i += 1;
        }
    }

    /// Read word `w` of RAM (zero past the end).
    fn read_word(&self, w: usize) -> (r: u64)
        requires
            self.wf(),
        ensures
            r == self.word(w as int),
    {
        if w < self.words.len() {
            self.words[w]
        } else {
            0
        }
    }

    /// Write word `w` of RAM (dropped past the end).
    fn write_word(&mut self, w: usize, v: u64)
        requires
            old(self).wf(),
        ensures
            final(self).wf(),
            final(self).bitmap@ == old(self).bitmap@,
            forall|j: int| #[trigger] final(self).word(j) == if j == w && w < RAM_WORDS { v } else { old(self).word(j) },
    {
        if w < self.words.len() {
            self.words.set(w, v);
        }
    }

    /// Zero the 512 words of managed frame `k`.
    fn zero_frame(&mut self, k: usize)
        requires
            old(self).wf(),
            k < NUM_FRAMES,
        ensures
            final(self).wf(),
            final(self).bitmap@ == old(self).bitmap@,
            final(self).frame_zeroed(k as int),
            final(self).same_words_except_frame(old(self), k as int),
    {
        let base: usize = (frame_idx_to_addr(k) / 8) as usize;
        let mut i: usize = 0;
        while i < 512
            invariant
                self.wf(),
                self.bitmap@ == old(self).bitmap@,
                base == spec_frame_addr(k as int) / 8,
                base + 512 <= RAM_WORDS,
                i <= 512,
                forall|w: int| base <= w < base + i ==> #[trigger] self.word(w) == 0,
                forall|w: int| !(base <= w < base + i) ==> #[trigger] self.word(w) == old(self).word(w),
            decreases 512 - i,
        {
            let ghost prev = *self;
            self.words.set(base + i, 0);
            assert forall|w: int| #[trigger] self.word(w) == if w == base + i { 0 } else { prev.word(w) } by {
                if 0 <= w < self.words@.len() {
                    assert(self.words@[w] == prev.words@.update(base + i, 0u64)[w]);
                }
            }
            i += 1;
        }
    }
}

} // verus!

verus! {

/// An entry's physical frame address (bits 12..51).
pub open spec fn entry_addr(e: u64) -> u64 {
    e & ADDR_MASK
}

/// A page-aligned address below 2^52 survives the address mask, and the
/// flag bits of an entry built from it can be read back.
pub proof fn lemma_entry_bits(a: u64, f: u64)
    requires
        a % 4096 == 0,
        a < 0x0010_0000_0000_0000,
        f < 4096,
    ensures
        a & ADDR_MASK == a,
        (a | f) & ADDR_MASK == a,
        (a | f) & 0xfff == f,
{
    assert({
        &&& a & 0x000F_FFFF_FFFF_F000u64 == a
        &&& (a | f) & 0x000F_FFFF_FFFF_F000u64 == a
        &&& (a | f) & 0xfffu64 == f
    }) by (bit_vector)
        requires a % 4096 == 0, a < 0x0010_0000_0000_0000u64, f < 4096;
}

/// Or-ing the present, writable and user bits one after the other is
/// or-ing `0x7`.
pub proof fn lemma_or_pwu(x: u64)
    ensures
        x | 0x1u64 | 0x2u64 | 0x4u64 == x | 0x7u64,
{
    assert(x | 0x1u64 | 0x2u64 | 0x4u64 == x | 0x7u64) by (bit_vector);
}

/// A masked address is page-aligned and below 2^52.
pub proof fn lemma_mask_aligned(e: u64)
    ensures
        (e & ADDR_MASK) % 4096 == 0,
        e & ADDR_MASK < 0x0010_0000_0000_0000,
{
    assert((e & 0x000F_FFFF_FFFF_F000u64) % 4096 == 0 && e & 0x000F_FFFF_FFFF_F000u64 < 0x0010_0000_0000_0000u64) by (bit_vector);
}

/// Present | writable | user-accessible.
pub open spec fn pwu() -> u64 {
    0x7
}

/// Present | writable | user-accessible | large page.
pub open spec fn pwu_large() -> u64 {
    0x87
}

/// Present | writable | large page, kernel only (user bit clear).
pub open spec fn pw_large() -> u64 {
    0x83
}

/// The page tables of a fresh address space rooted at `pml4`: PML4[0]
/// points to a PDPT whose entry 0 points to a PD; PD[0] and PD[1] map the
/// kernel's first 4 MiB with 2 MiB pages for ring 0 only, PD[2] points to a page table whose
/// entry 0 maps `code_phys`, and PD[7] maps the user stack with a 2 MiB
/// page. Every other entry of the four tables is zero.
pub open spec fn address_space_layout(m: &PhysicalMemory, pml4: u64, code_phys: u64) -> bool {
    let pdpt = entry_addr(m.entry(pml4, 0));
    let pd = entry_addr(m.entry(pdpt, 0));
    let pt = entry_addr(m.entry(pd, 2));
    &&& forall|i: int| 0 <= i < 512 ==> #[trigger] m.entry(pml4, i) == if i == 0 { pdpt | pwu() } else { 0 }
    &&& forall|i: int| 0 <= i < 512 ==> #[trigger] m.entry(pdpt, i) == if i == 0 { pd | pwu() } else { 0 }
    &&& forall|i: int| 0 <= i < 512 ==> #[trigger] m.entry(pd, i) ==
            if i == 0 { pw_large() }
            else if i == 1 { 0x200000 | pw_large() }
            else if i == 2 { pt | pwu() }
            else if i == 7 { 0xE00000 | pwu_large() }
            else { 0 }
    &&& forall|i: int| 0 <= i < 512 ==> #[trigger] m.entry(pt, i) == if i == 0 { entry_addr(code_phys) | pwu() } else { 0 }
}

/// The four tables of a fresh address space rooted at `pml4` (its PML4,
/// the PDPT and PD that entry 0 leads to, and the page table under PD[2])
/// are distinct frames held in use.
pub open spec fn space_tables_in_use(m: &PhysicalMemory, pml4: u64) -> bool {
    let pdpt = entry_addr(m.entry(pml4, 0));
    let pd = entry_addr(m.entry(pdpt, 0));
    let pt = entry_addr(m.entry(pd, 2));
    &&& table_in_use(m, pml4) && table_in_use(m, pdpt) && table_in_use(m, pd) && table_in_use(m, pt)
    &&& pml4 != pdpt && pml4 != pd && pml4 != pt && pdpt != pd && pdpt != pt && pd != pt
}

/// Create the page tables of a new process whose code frame is
/// `code_phys` (see `address_space_layout`), taking four frames from the
/// allocator; returns the physical address of the PML4.
#[verifier::spinoff_prover]
#[verifier::rlimit(100)]
pub fn create_address_space(mem: &mut PhysicalMemory, code_phys: u64) -> (pml4: u64)
    requires
        old(mem).wf(),
    ensures
        final(mem).wf(),
        forall|j: int| #[trigger] final(mem).is_free(j) ==> old(mem).is_free(j),
        (pml4 == 0) == (old(mem).free_count() == 0),
        pml4 % 4096 == 0,
        old(mem).free_count() >= 4 ==> {
            let pdpt = entry_addr(final(mem).entry(pml4, 0));
            let pd = entry_addr(final(mem).entry(pdpt, 0));
            let pt = entry_addr(final(mem).entry(pd, 2));
            &&& address_space_layout(final(mem), pml4, code_phys)
            &&& space_tables_in_use(final(mem), pml4)
            &&& pml4 != pdpt && pml4 != pd && pml4 != pt && pdpt != pd && pdpt != pt && pd != pt
            &&& forall|a: u64| (a == pml4 || a == pdpt || a == pd || a == pt) ==> {
                    &&& PHYS_MEM_START <= a < PHYS_MEM_END
                    &&& a % 4096 == 0
                    &&& old(mem).is_free(spec_frame_idx(a as int))
                }
            &&& forall|j: int| #[trigger] final(mem).is_free(j) == (old(mem).is_free(j)
                    && j != spec_frame_idx(pml4 as int) && j != spec_frame_idx(pdpt as int)
                    && j != spec_frame_idx(pd as int) && j != spec_frame_idx(pt as int))
            &&& final(mem).free_count() + 4 == old(mem).free_count()
            &&& forall|w: int| #[trigger] final(mem).word(w) != old(mem).word(w) ==> old(mem).is_free(word_frame(w))
        },
{
    let ghost m0 = *old(mem);
    proof { crate::bitops::lemma_flag_constants(); }
    let pml4 = mem.alloc_zeroed_frame();
    let ghost m1 = *mem;
    let pdpt = mem.alloc_zeroed_frame();
    let ghost m2 = *mem;
    let pdpt_ent = (pdpt & ADDR_MASK) | page_flags::PRESENT | page_flags::WRITABLE | page_flags::USER_ACCESS;
    proof { lemma_or_pwu(pdpt & ADDR_MASK); }
    mem.write_pt_entry(pml4, 0, pdpt_ent);
    let ghost m3 = *mem;
    let pd = mem.alloc_zeroed_frame();
    let ghost m4 = *mem;
    let pd_ent = (pd & ADDR_MASK) | page_flags::PRESENT | page_flags::WRITABLE | page_flags::USER_ACCESS;
    proof { lemma_or_pwu(pd & ADDR_MASK); }
    mem.write_pt_entry(pdpt, 0, pd_ent);
    mem.write_pt_entry(pd, 0, 0x000000 | (page_flags::PRESENT | page_flags::WRITABLE | page_flags::LARGE));
    mem.write_pt_entry(pd, 1, 0x200000 | (page_flags::PRESENT | page_flags::WRITABLE | page_flags::LARGE));
    let ghost m5 = *mem;
    let pt_code = mem.alloc_zeroed_frame();
    let ghost m6 = *mem;
    let code_flags = page_flags::PRESENT | page_flags::WRITABLE | page_flags::USER_ACCESS;
    mem.write_pt_entry(pt_code, 0, (code_phys & ADDR_MASK) | code_flags);
    proof { lemma_or_pwu(pt_code & ADDR_MASK); }
    mem.write_pt_entry(pd, 2, (pt_code & ADDR_MASK) | page_flags::PRESENT | page_flags::WRITABLE | page_flags::USER_ACCESS);
    mem.write_pt_entry(pd, 7, 0xE00000 | (page_flags::PRESENT | page_flags::WRITABLE | page_flags::USER_ACCESS | page_flags::LARGE));
    proof {
        if m0.free_count() >= 4 {
            PhysicalMemory::lemma_free_below_same(&m3, &m2, NUM_FRAMES as int);
            PhysicalMemory::lemma_free_below_same(&m5, &m4, NUM_FRAMES as int);
            let k0 = spec_frame_idx(pml4 as int);
            let k1 = spec_frame_idx(pdpt as int);
            let k2 = spec_frame_idx(pd as int);
            let k3 = spec_frame_idx(pt_code as int);
            assert(!m1.is_free(k0));
            assert(!m2.is_free(k0) && !m2.is_free(k1));
            assert(!m4.is_free(k0) && !m4.is_free(k1) && !m4.is_free(k2));
            assert(k0 != k1 && k0 != k2 && k0 != k3 && k1 != k2 && k1 != k3 && k2 != k3);
            lemma_entry_bits(pdpt, 7);
            lemma_entry_bits(pd, 7);
            lemma_entry_bits(pt_code, 7);
            lemma_mask_aligned(code_phys);
            lemma_entry_bits(code_phys & ADDR_MASK, 7);
            crate::bitops::lemma_flag_constants();
            assert(pml4 / 8 == spec_frame_addr(k0) / 8);
            assert(pdpt / 8 == spec_frame_addr(k1) / 8);
            assert(pd / 8 == spec_frame_addr(k2) / 8);
            assert(pt_code / 8 == spec_frame_addr(k3) / 8);
            assert(m3.entry(pml4, 0) == pdpt | 7);
            assert(m4.word(pml4 as int / 8) == m3.word(pml4 as int / 8));
            assert(m5.entry(pml4, 0) == pdpt | 7);
            assert(m6.word(pml4 as int / 8) == m5.word(pml4 as int / 8));
            assert(mem.entry(pml4, 0) == pdpt | 7);
            assert(m5.entry(pdpt, 0) == pd | 7);
            assert(m6.word(pdpt as int / 8) == m5.word(pdpt as int / 8));
            assert(mem.entry(pdpt, 0) == pd | 7);
            assert(mem.entry(pd, 2) == pt_code | 7);
            assert(entry_addr(mem.entry(pml4, 0)) == pdpt);
            assert(entry_addr(mem.entry(pdpt, 0)) == pd);
            assert(entry_addr(mem.entry(pd, 2)) == pt_code);
            assert forall|i: int| 0 <= i < 512 implies #[trigger] mem.entry(pml4, i) == if i == 0 { pdpt | pwu() } else { 0 } by {
                assert(m1.word(pml4 / 8 + i) == 0);
            }
            assert forall|i: int| 0 <= i < 512 implies #[trigger] mem.entry(pdpt, i) == if i == 0 { pd | pwu() } else { 0 } by {
                assert(m2.word(pdpt / 8 + i) == 0);
            }
            assert forall|i: int| 0 <= i < 512 implies #[trigger] mem.entry(pd, i) ==
                    if i == 0 { pw_large() }
                    else if i == 1 { 0x200000 | pw_large() }
                    else if i == 2 { pt_code | pwu() }
                    else if i == 7 { 0xE00000 | pwu_large() }
                    else { 0 } by {
                assert(m4.word(pd / 8 + i) == 0);
            }
            assert forall|i: int| 0 <= i < 512 implies #[trigger] mem.entry(pt_code, i) == if i == 0 { entry_addr(code_phys) | pwu() } else { 0 } by {
                assert(m6.word(pt_code / 8 + i) == 0);
            }
            assert forall|j: int| #[trigger] mem.is_free(j) == (m0.is_free(j)
                    && j != k0 && j != k1 && j != k2 && j != k3) by {
                assert(mem.is_free(j) == m6.is_free(j));
                assert(m5.is_free(j) == m4.is_free(j));
                assert(m3.is_free(j) == m2.is_free(j));
            }
            PhysicalMemory::lemma_free_below_same(mem, &m6, NUM_FRAMES as int);
            assert forall|w: int| #[trigger] mem.word(w) != m0.word(w) implies m0.is_free(word_frame(w)) by {
                let in0 = spec_frame_addr(k0) / 8 <= w < spec_frame_addr(k0) / 8 + 512;
                let in1 = spec_frame_addr(k1) / 8 <= w < spec_frame_addr(k1) / 8 + 512;
                let in2 = spec_frame_addr(k2) / 8 <= w < spec_frame_addr(k2) / 8 + 512;
                let in3 = spec_frame_addr(k3) / 8 <= w < spec_frame_addr(k3) / 8 + 512;
                if in0 {
                    assert(word_frame(w) == k0);
                } else if in1 {
                    assert(word_frame(w) == k1);
                } else if in2 {
                    assert(word_frame(w) == k2);
                } else if in3 {
                    assert(word_frame(w) == k3);
                } else {
                    assert(m1.word(w) == m0.word(w));
                    assert(m2.word(w) == m1.word(w));
                    assert(m3.word(w) == m2.word(w));
                    assert(m4.word(w) == m3.word(w));
                    assert(m5.word(w) == m4.word(w));
                    assert(m6.word(w) == m5.word(w));
                    assert(mem.word(w) == m6.word(w));
                }
            }
        }
    }
    pml4
}

} // verus!

verus! {

/// Whether an entry has its present bit set.
pub open spec fn is_present(e: u64) -> bool {
    e & 0x1u64 != 0
}

/// The zero entry is not present.
pub proof fn lemma_zero_entry_absent()
    ensures
        !is_present(0),
{
    assert(0u64 & 0x1u64 == 0u64) by (bit_vector);
}

/// Index into the PML4 selected by virtual address `va` (bits 39..47).
pub open spec fn pml4_idx(va: u64) -> u64 {
    (va >> 39u64) & 0x1FFu64
}

/// Index into the PDPT selected by `va` (bits 30..38).
pub open spec fn pdpt_idx(va: u64) -> u64 {
    (va >> 30u64) & 0x1FFu64
}

/// Index into the PD selected by `va` (bits 21..29).
pub open spec fn pd_idx(va: u64) -> u64 {
    (va >> 21u64) & 0x1FFu64
}

/// Index into the PT selected by `va` (bits 12..20).
pub open spec fn pt_idx(va: u64) -> u64 {
    (va >> 12u64) & 0x1FFu64
}

pub proof fn lemma_index_bound(va: u64, s: u64)
    ensures
        (va >> s) & 0x1FFu64 < 512,
{
    assert((va >> s) & 0x1FFu64 < 512) by (bit_vector);
}

/// The managed frame that holds word `w` of RAM.
pub open spec fn word_frame(w: int) -> int {
    (w * 8 - PHYS_MEM_START) / 4096
}

/// `t` is a page table in a managed frame that the allocator holds as in use.
pub open spec fn table_in_use(m: &PhysicalMemory, t: u64) -> bool {
    &&& PHYS_MEM_START <= t < PHYS_MEM_END
    &&& t % 4096 == 0
    &&& !m.is_free(spec_frame_idx(t as int))
}

/// The tables that the walk for `va` from `pml4` reaches are in use and
/// pairwise distinct, as far as their entries are present.
pub open spec fn valid_path(m: &PhysicalMemory, pml4: u64, va: u64) -> bool {
    let e4 = m.entry(pml4, pml4_idx(va) as int);
    let t3 = entry_addr(e4);
    let e3 = m.entry(t3, pdpt_idx(va) as int);
    let t2 = entry_addr(e3);
    let e2 = m.entry(t2, pd_idx(va) as int);
    let t1 = entry_addr(e2);
    &&& table_in_use(m, pml4)
    &&& is_present(e4) ==> {
        &&& table_in_use(m, t3) && t3 != pml4
        &&& is_present(e3) ==> {
            &&& table_in_use(m, t2) && t2 != pml4 && t2 != t3
            &&& is_present(e2) ==> table_in_use(m, t1) && t1 != pml4 && t1 != t3 && t1 != t2
        }
    }
}

/// A word of a table in use lies in that table's frame.
pub proof fn lemma_table_word_frame(t: u64, i: int)
    requires
        t % 4096 == 0,
        0 <= i < 512,
    ensures
        word_frame(t / 8 + i) == spec_frame_idx(t as int),
{
}

/// A walk that was valid stays valid, with the same entries, when RAM only
/// changes in the words of a frame that was free and no frame becomes free.
pub proof fn lemma_valid_path_kept(a: &PhysicalMemory, b: &PhysicalMemory, pml4: u64, va: u64, k: int)
    requires
        valid_path(a, pml4, va),
        a.is_free(k),
        forall|j: int| #[trigger] b.is_free(j) ==> a.is_free(j),
        forall|w: int| #[trigger] b.word(w) != a.word(w) ==>
            spec_frame_addr(k) / 8 <= w < spec_frame_addr(k) / 8 + 512,
    ensures
        valid_path(b, pml4, va),
        b.entry(pml4, pml4_idx(va) as int) == a.entry(pml4, pml4_idx(va) as int),
        is_present(a.entry(pml4, pml4_idx(va) as int)) ==> {
            let t3 = entry_addr(a.entry(pml4, pml4_idx(va) as int));
            &&& b.entry(t3, pdpt_idx(va) as int) == a.entry(t3, pdpt_idx(va) as int)
            &&& is_present(a.entry(t3, pdpt_idx(va) as int)) ==> {
                let t2 = entry_addr(a.entry(t3, pdpt_idx(va) as int));
                b.entry(t2, pd_idx(va) as int) == a.entry(t2, pd_idx(va) as int)
            }
        },
{
    lemma_index_bound(va, 39);
    lemma_index_bound(va, 30);
    lemma_index_bound(va, 21);
    assert forall|t: u64, i: int| table_in_use(a, t) && 0 <= i < 512 implies #[trigger] b.entry(t, i) == a.entry(t, i) by {
        lemma_table_word_frame(t, i);
        if b.word(t / 8 + i) != a.word(t / 8 + i) {
            assert(word_frame(t / 8 + i) == k);
        }
    }
}

/// RAM of `b` differs from `a` only in frames free in `a`, and no frame
/// became free.
pub open spec fn only_free_frames_changed(a: &PhysicalMemory, b: &PhysicalMemory) -> bool {
    &&& forall|j: int| #[trigger] b.is_free(j) ==> a.is_free(j)
    &&& forall|w: int| #[trigger] b.word(w) != a.word(w) ==> a.is_free(word_frame(w))
}

/// The entries of a table in use are kept when only free frames change.
pub proof fn lemma_table_kept(a: &PhysicalMemory, b: &PhysicalMemory, t: u64, i: int)
    requires
        only_free_frames_changed(a, b),
        table_in_use(a, t),
        0 <= i < 512,
    ensures
        b.entry(t, i) == a.entry(t, i),
        table_in_use(b, t),
{
    lemma_table_word_frame(t, i);
}

/// A present, valid walk keeps its entries, its leaf and its validity when
/// only free frames change.
pub proof fn lemma_walk_kept(a: &PhysicalMemory, b: &PhysicalMemory, pml4: u64, va: u64)
    requires
        only_free_frames_changed(a, b),
        valid_path(a, pml4, va),
        path_present(a, pml4, va),
    ensures
        valid_path(b, pml4, va),
        path_present(b, pml4, va),
        leaf_entry(b, pml4, va) == leaf_entry(a, pml4, va),
{
    lemma_index_bound(va, 39);
    lemma_index_bound(va, 30);
    lemma_index_bound(va, 21);
    lemma_index_bound(va, 12);
    let t3 = entry_addr(a.entry(pml4, pml4_idx(va) as int));
    let t2 = entry_addr(a.entry(t3, pdpt_idx(va) as int));
    let t1 = entry_addr(a.entry(t2, pd_idx(va) as int));
    lemma_table_kept(a, b, pml4, pml4_idx(va) as int);
    lemma_table_kept(a, b, t3, pdpt_idx(va) as int);
    lemma_table_kept(a, b, t2, pd_idx(va) as int);
    lemma_table_kept(a, b, t1, pt_idx(va) as int);
}

/// A fresh address space keeps its layout and its tables when only free
/// frames change.
pub proof fn lemma_space_kept(a: &PhysicalMemory, b: &PhysicalMemory, pml4: u64, code: u64)
    requires
        only_free_frames_changed(a, b),
        address_space_layout(a, pml4, code),
        space_tables_in_use(a, pml4),
    ensures
        address_space_layout(b, pml4, code),
        space_tables_in_use(b, pml4),
{
    assert forall|t: u64, i: int| table_in_use(a, t) && 0 <= i < 512 implies #[trigger] b.entry(t, i) == a.entry(t, i) by {
        lemma_table_kept(a, b, t, i);
    }
}

/// In a fresh address space the walk for the VGA buffer page is valid: it
/// goes through the PML4 and the PDPT to the PD, whose entry for it is
/// empty.
pub proof fn lemma_fresh_space_vga_walk(m: &PhysicalMemory, pml4: u64, code: u64)
    requires
        address_space_layout(m, pml4, code),
        space_tables_in_use(m, pml4),
    ensures
        valid_path(m, pml4, VGA_BUFFER_VADDR),
{
    let pdpt = entry_addr(m.entry(pml4, 0));
    let pd = entry_addr(m.entry(pdpt, 0));
    assert(pml4_idx(0x0000_0000_0060_0000u64) == 0 && pdpt_idx(0x0000_0000_0060_0000u64) == 0
        && pd_idx(0x0000_0000_0060_0000u64) == 3) by (bit_vector);
    assert(is_present(pdpt | pwu()) && is_present(pd | pwu())) by {
        assert(forall|x: u64| #[trigger] (x | 0x7u64) & 0x1u64 != 0) by (bit_vector);
    }
    lemma_zero_entry_absent();
    assert(m.entry(pd, 3) == 0);
}

/// Index of the RAM word holding the leaf (PT) entry of the walk for `va`.
pub open spec fn leaf_word(m: &PhysicalMemory, pml4: u64, va: u64) -> int {
    let t3 = entry_addr(m.entry(pml4, pml4_idx(va) as int));
    let t2 = entry_addr(m.entry(t3, pdpt_idx(va) as int));
    let t1 = entry_addr(m.entry(t2, pd_idx(va) as int));
    t1 / 8 + pt_idx(va)
}

/// Word `w` holds, in `m`, one of the PML4, PDPT and PD entries of the walk
/// for `va`.
pub open spec fn upper_walk_word(m: &PhysicalMemory, pml4: u64, va: u64, w: int) -> bool {
    let t3 = entry_addr(m.entry(pml4, pml4_idx(va) as int));
    let t2 = entry_addr(m.entry(t3, pdpt_idx(va) as int));
    w == pml4 / 8 + pml4_idx(va) || w == t3 / 8 + pdpt_idx(va) || w == t2 / 8 + pd_idx(va)
}

/// What mapping the page at `va` may change from `m0` to `m1`: words of
/// frames that were free, the leaf entry of the walk, and PML4, PDPT and
/// PD entries of the walk that were not present.
pub open spec fn map_changes_only(m0: &PhysicalMemory, m1: &PhysicalMemory, pml4: u64, va: u64) -> bool {
    forall|w: int| #[trigger] m1.word(w) != m0.word(w) ==> {
        ||| m0.is_free(word_frame(w))
        ||| w == leaf_word(m1, pml4, va)
        ||| !is_present(m0.word(w)) && upper_walk_word(m1, pml4, va, w)
    }
}

/// The changes that `map_phys_page` states, read as `map_changes_only`.
pub proof fn lemma_map_changes_only(m0: &PhysicalMemory, m1: &PhysicalMemory, pml4: u64, virt: u64)
    requires
        pml4 % 4096 == 0,
        ({
            let e4 = m1.entry(pml4, pml4_idx(virt) as int);
            let t3 = entry_addr(e4);
            let e3 = m1.entry(t3, pdpt_idx(virt) as int);
            let t2 = entry_addr(e3);
            let e2 = m1.entry(t2, pd_idx(virt) as int);
            let t1 = entry_addr(e2);
            let o4 = m0.entry(pml4, pml4_idx(virt) as int);
            let o3 = m0.entry(entry_addr(o4), pdpt_idx(virt) as int);
            let o2 = m0.entry(entry_addr(o3), pd_idx(virt) as int);
            &&& is_present(o4) ==> e4 == o4
            &&& is_present(o4) && is_present(o3) ==> e3 == o3
            &&& is_present(o4) && is_present(o3) && is_present(o2) ==> e2 == o2
            &&& (is_present(o4) && t3 == entry_addr(o4)) || m0.is_free(spec_frame_idx(t3 as int))
            &&& (is_present(o4) && is_present(o3) && t2 == entry_addr(o3)) || m0.is_free(spec_frame_idx(t2 as int))
            &&& forall|w: int| #[trigger] m1.word(w) != m0.word(w) ==> {
                ||| w == pml4 / 8 + pml4_idx(virt)
                ||| w == t3 / 8 + pdpt_idx(virt)
                ||| w == t2 / 8 + pd_idx(virt)
                ||| w == t1 / 8 + pt_idx(virt)
                ||| m0.is_free(word_frame(w))
            }
        }),
    ensures
        map_changes_only(m0, m1, pml4, virt),
{
    lemma_index_bound(virt, 39);
    lemma_index_bound(virt, 30);
    lemma_index_bound(virt, 21);
    let e4 = m1.entry(pml4, pml4_idx(virt) as int);
    let t3 = entry_addr(e4);
    let e3 = m1.entry(t3, pdpt_idx(virt) as int);
    let t2 = entry_addr(e3);
    lemma_mask_aligned(e4);
    lemma_mask_aligned(e3);
    lemma_table_word_frame(t3, pdpt_idx(virt) as int);
    lemma_table_word_frame(t2, pd_idx(virt) as int);
    assert forall|w: int| #[trigger] m1.word(w) != m0.word(w) implies {
        ||| m0.is_free(word_frame(w))
        ||| w == leaf_word(m1, pml4, virt)
        ||| !is_present(m0.word(w)) && upper_walk_word(m1, pml4, virt, w)
    } by {
        if w == pml4 / 8 + pml4_idx(virt) {
        } else if w == t3 / 8 + pdpt_idx(virt) {
        } else if w == t2 / 8 + pd_idx(virt) {
        }
    }
}

/// Flags of an intermediate entry created for a mapping with `flags`:
/// present, writable, and user-accessible when the mapping is.
pub open spec fn intermediate_flags(flags: u64) -> u64 {
    0x1u64 | 0x2u64 | (flags & 0x4u64)
}

/// The entry that the walk reaches at the last level: the PT entry for `va`.
pub open spec fn leaf_entry(m: &PhysicalMemory, pml4: u64, va: u64) -> u64 {
    let t3 = entry_addr(m.entry(pml4, pml4_idx(va) as int));
    let t2 = entry_addr(m.entry(t3, pdpt_idx(va) as int));
    let t1 = entry_addr(m.entry(t2, pd_idx(va) as int));
    m.entry(t1, pt_idx(va) as int)
}

/// The walk for `va` finds present PML4, PDPT and PD entries.
pub open spec fn path_present(m: &PhysicalMemory, pml4: u64, va: u64) -> bool {
    let e4 = m.entry(pml4, pml4_idx(va) as int);
    let e3 = m.entry(entry_addr(e4), pdpt_idx(va) as int);
    let e2 = m.entry(entry_addr(e3), pd_idx(va) as int);
    is_present(e4) && is_present(e3) && is_present(e2)
}

proof fn lemma_intermediate_entry(frame: u64, flags: u64)
    requires
        frame % 4096 == 0,
        frame < 0x0010_0000_0000_0000,
    ensures
        is_present((frame & ADDR_MASK) | intermediate_flags(flags)),
        entry_addr((frame & ADDR_MASK) | intermediate_flags(flags)) == frame,
        (frame & ADDR_MASK) | 0x1u64 | 0x2u64 | (flags & 0x4u64) == (frame & ADDR_MASK) | intermediate_flags(flags),
{
    assert({
        &&& frame & 0x000F_FFFF_FFFF_F000u64 == frame
        &&& ((frame | (0x1u64 | 0x2u64 | (flags & 0x4u64))) & 0x1u64) != 0
        &&& (frame | (0x1u64 | 0x2u64 | (flags & 0x4u64))) & 0x000F_FFFF_FFFF_F000u64 == frame
        &&& (frame | 0x1u64 | 0x2u64 | (flags & 0x4u64)) == (frame | (0x1u64 | 0x2u64 | (flags & 0x4u64)))
    }) by (bit_vector)
        requires frame % 4096 == 0, frame < 0x0010_0000_0000_0000u64;
}

/// Follow entry `idx` of `table`; when it is not present, allocate a zeroed
/// frame for the next-level table and link it with `intermediate_flags`.
fn walk_or_alloc(mem: &mut PhysicalMemory, table: u64, idx: usize, flags: u64) -> (next: u64)
    requires
        old(mem).wf(),
        table % 4096 == 0,
        idx < 512,
    ensures
        final(mem).wf(),
        next % 4096 == 0,
        next < 0x0010_0000_0000_0000,
        final(mem).free_count() + 1 >= old(mem).free_count(),
        is_present(old(mem).entry(table, idx as int)) ==> {
            &&& next == entry_addr(old(mem).entry(table, idx as int))
            &&& *final(mem) == *old(mem)
        },
        !is_present(old(mem).entry(table, idx as int)) ==> {
            &&& (next == 0) == old(mem).exhausted()
            &&& next == 0 ==> forall|j: int| #[trigger] final(mem).is_free(j) == old(mem).is_free(j)
            &&& next == 0 ==> old(mem).free_count() == 0
            &&& next != 0 ==> {
                let k = spec_frame_idx(next as int);
                &&& next == spec_frame_addr(k)
                &&& 0 <= k < NUM_FRAMES
                &&& PHYS_MEM_START <= next < PHYS_MEM_END
                &&& old(mem).is_free(k)
                &&& !final(mem).is_free(k)
                &&& final(mem).same_free_except(old(mem), k)
                &&& final(mem).free_count() + 1 == old(mem).free_count()
            }
            &&& forall|w: int| #[trigger] final(mem).word(w) ==
                if w == table / 8 + idx && table + 8 * idx < PHYS_MEM_END { (next & ADDR_MASK) | intermediate_flags(flags) }
                else if next != 0 && next / 8 <= w < next / 8 + 512 { 0 }
                else { old(mem).word(w) }
        },
{
    let e = mem.read_pt_entry(table, idx);
    if e & page_flags::PRESENT != 0 {
        proof { lemma_mask_aligned(e); }
        e & ADDR_MASK
    } else {
        let ghost m0 = *mem;
        let frame = mem.alloc_zeroed_frame();
        let ghost m1 = *mem;
        let iflags = page_flags::PRESENT | page_flags::WRITABLE | (flags & page_flags::USER_ACCESS);
        proof {
            m0.lemma_exhausted_iff_no_free();
            if frame != 0 {
                assert(frame / 8 == spec_frame_addr(spec_frame_idx(frame as int)) / 8);
            }
            lemma_intermediate_entry(frame, flags);
        }
        mem.write_pt_entry(table, idx, (frame & ADDR_MASK) | iflags);
        proof {
            assert forall|j: int| #[trigger] mem.is_free(j) == m1.is_free(j) by {}
            PhysicalMemory::lemma_free_below_same(mem, &m1, NUM_FRAMES as int);
            if frame == 0 {
                assert forall|j: int| #[trigger] m1.is_free(j) == m0.is_free(j) by {}
                PhysicalMemory::lemma_free_below_same(&m1, &m0, NUM_FRAMES as int);
            }
        }
        frame
    }
}

} // verus!

verus! {

/// Map the 4 KiB page at `virt` to physical frame `phys` with `flags` in the
/// address space rooted at `pml4_phys`, allocating any missing
/// intermediate table (linked with `intermediate_flags(flags)`).
///
/// When the walk is valid (see `valid_path`) and at least three frames are
/// free, afterwards the walk for `virt` is present down to the PT, the PT
/// entry is `(phys & ADDR_MASK) | flags`, intermediate tables that existed
/// are kept, and RAM only changed in the four entries of the walk and in
/// frames that were free. Frames only ever go from free to in use.
#[verifier::spinoff_prover]
#[verifier::rlimit(80)]
pub fn map_phys_page(mem: &mut PhysicalMemory, pml4_phys: u64, virt: u64, phys: u64, flags: u64)
    requires
        old(mem).wf(),
        pml4_phys % 4096 == 0,
    ensures
        final(mem).wf(),
        forall|j: int| #[trigger] final(mem).is_free(j) ==> old(mem).is_free(j),
        final(mem).free_count() + 3 >= old(mem).free_count(),
        valid_path(old(mem), pml4_phys, virt) && old(mem).free_count() >= 3 ==> {
            let e4 = final(mem).entry(pml4_phys, pml4_idx(virt) as int);
            let t3 = entry_addr(e4);
            let e3 = final(mem).entry(t3, pdpt_idx(virt) as int);
            let t2 = entry_addr(e3);
            let e2 = final(mem).entry(t2, pd_idx(virt) as int);
            let t1 = entry_addr(e2);
            let o4 = old(mem).entry(pml4_phys, pml4_idx(virt) as int);
            let o3 = old(mem).entry(entry_addr(o4), pdpt_idx(virt) as int);
            let o2 = old(mem).entry(entry_addr(o3), pd_idx(virt) as int);
            &&& path_present(final(mem), pml4_phys, virt)
            &&& leaf_entry(final(mem), pml4_phys, virt) == (phys & ADDR_MASK) | flags
            &&& valid_path(final(mem), pml4_phys, virt)
            &&& is_present(o4) ==> e4 == o4
            &&& is_present(o4) && is_present(o3) ==> e3 == o3
            &&& is_present(o4) && is_present(o3) && is_present(o2) ==> e2 == o2
            &&& (is_present(o4) && t3 == entry_addr(o4)) || old(mem).is_free(spec_frame_idx(t3 as int))
            &&& (is_present(o4) && is_present(o3) && t2 == entry_addr(o3)) || old(mem).is_free(spec_frame_idx(t2 as int))
            &&& (is_present(o4) && is_present(o3) && is_present(o2) && t1 == entry_addr(o2))
                || old(mem).is_free(spec_frame_idx(t1 as int))
            &&& map_fresh_zero(old(mem), final(mem), pml4_phys, virt)
            &&& forall|w: int| #[trigger] final(mem).word(w) != old(mem).word(w) ==> {
                ||| w == pml4_phys / 8 + pml4_idx(virt)
                ||| w == t3 / 8 + pdpt_idx(virt)
                ||| w == t2 / 8 + pd_idx(virt)
                ||| w == t1 / 8 + pt_idx(virt)
                ||| old(mem).is_free(word_frame(w))
            }
        },
{
    proof {
        lemma_index_bound(virt, 39);
        lemma_index_bound(virt, 30);
        lemma_index_bound(virt, 21);
        lemma_index_bound(virt, 12);
    }
    let i4 = ((virt >> 39) & 0x1FF) as usize;
    let i3 = ((virt >> 30) & 0x1FF) as usize;
    let i2 = ((virt >> 21) & 0x1FF) as usize;
    let i1 = ((virt >> 12) & 0x1FF) as usize;
    let ghost m0 = *mem;
    let pdpt = walk_or_alloc(mem, pml4_phys, i4, flags);
    let ghost m1 = *mem;
    let pd = walk_or_alloc(mem, pdpt, i3, flags);
    let ghost m2 = *mem;
    let pt = walk_or_alloc(mem, pd, i2, flags);
    let ghost m3 = *mem;
    let pte = (phys & ADDR_MASK) | flags;
    mem.write_pt_entry(pt, i1, pte);
    proof {
        PhysicalMemory::lemma_free_below_same(mem, &m3, NUM_FRAMES as int);
        assert forall|j: int| #[trigger] mem.is_free(j) implies m0.is_free(j) by {
            assert(mem.is_free(j) == m3.is_free(j));
            if !is_present(m2.entry(pd, i2 as int)) && pt != 0 { assert(m3.is_free(j) ==> m2.is_free(j)); }
            if !is_present(m1.entry(pdpt, i3 as int)) && pd != 0 { assert(m2.is_free(j) ==> m1.is_free(j)); }
            if !is_present(m0.entry(pml4_phys, i4 as int)) && pdpt != 0 { assert(m1.is_free(j) ==> m0.is_free(j)); }
        }
        if valid_path(&m0, pml4_phys, virt) && m0.free_count() >= 3 {
            lemma_map_path(m0, m1, m2, m3, *mem, pml4_phys, virt, phys, flags, pdpt, pd, pt);
            lemma_map_path_tables(m0, m1, m2, m3, *mem, pml4_phys, virt, phys, flags, pdpt, pd, pt);
            lemma_map_fresh_zero(m0, m1, m2, m3, *mem, pml4_phys, virt, phys, flags, pdpt, pd, pt);
        }
    }
}

#[verifier::spinoff_prover]
#[verifier::rlimit(100)]
proof fn lemma_map_path(
    m0: PhysicalMemory, m1: PhysicalMemory, m2: PhysicalMemory, m3: PhysicalMemory, m4: PhysicalMemory,
    pml4: u64, virt: u64, phys: u64, flags: u64, pdpt: u64, pd: u64, pt: u64,
)
    requires
        valid_path(&m0, pml4, virt),
        m0.free_count() >= 3,
        pml4 % 4096 == 0,
        pml4_idx(virt) < 512, pdpt_idx(virt) < 512, pd_idx(virt) < 512, pt_idx(virt) < 512,
        pdpt % 4096 == 0, pdpt < 0x0010_0000_0000_0000,
        pd % 4096 == 0, pd < 0x0010_0000_0000_0000,
        pt % 4096 == 0, pt < 0x0010_0000_0000_0000,
        walk_step(m0, m1, pml4, pml4_idx(virt) as int, flags, pdpt),
        walk_step(m1, m2, pdpt, pdpt_idx(virt) as int, flags, pd),
        walk_step(m2, m3, pd, pd_idx(virt) as int, flags, pt),
        forall|j: int| #[trigger] m4.is_free(j) == m3.is_free(j),
        forall|w: int| #[trigger] m4.word(w) ==
            if w == pt / 8 + pt_idx(virt) && pt + 8 * pt_idx(virt) < PHYS_MEM_END { (phys & ADDR_MASK) | flags } else { m3.word(w) },
    ensures
        ({
            let e4 = m4.entry(pml4, pml4_idx(virt) as int);
            let t3 = entry_addr(e4);
            let e3 = m4.entry(t3, pdpt_idx(virt) as int);
            let t2 = entry_addr(e3);
            let e2 = m4.entry(t2, pd_idx(virt) as int);
            let t1 = entry_addr(e2);
            let o4 = m0.entry(pml4, pml4_idx(virt) as int);
            let o3 = m0.entry(entry_addr(o4), pdpt_idx(virt) as int);
            let o2 = m0.entry(entry_addr(o3), pd_idx(virt) as int);
            &&& path_present(&m4, pml4, virt)
            &&& leaf_entry(&m4, pml4, virt) == (phys & ADDR_MASK) | flags
            &&& valid_path(&m4, pml4, virt)
            &&& is_present(o4) ==> e4 == o4
            &&& is_present(o4) && is_present(o3) ==> e3 == o3
            &&& is_present(o4) && is_present(o3) && is_present(o2) ==> e2 == o2
            &&& forall|w: int| #[trigger] m4.word(w) != m0.word(w) ==> {
                ||| w == pml4 / 8 + pml4_idx(virt)
                ||| w == t3 / 8 + pdpt_idx(virt)
                ||| w == t2 / 8 + pd_idx(virt)
                ||| w == t1 / 8 + pt_idx(virt)
                ||| m0.is_free(word_frame(w))
            }
        }),
{
    let i4 = pml4_idx(virt) as int;
    let i3 = pdpt_idx(virt) as int;
    let i2 = pd_idx(virt) as int;
    let i1 = pt_idx(virt) as int;
    lemma_walk_step(m0, m1, pml4, i4, flags, pdpt);
    assert(table_in_use(&m1, pdpt) && pdpt != pml4);
    lemma_zero_entry_absent();
    let p4 = is_present(m0.entry(pml4, i4));
    let p3 = p4 && is_present(m0.entry(pdpt, i3));
    let p2 = p3 && is_present(m0.entry(pd, i2));
    if !p4 {
        assert(m1.entry(pdpt, i3) == 0);
    }
    assert(is_present(m1.entry(pdpt, i3)) == p3);
    lemma_walk_step(m1, m2, pdpt, i3, flags, pd);
    assert(table_in_use(&m2, pd) && pd != pml4 && pd != pdpt);
    if p3 {
        assert(m2 == m1);
    } else {
        assert(m2.entry(pd, i2) == 0);
    }
    assert(is_present(m2.entry(pd, i2)) == p2);
    lemma_walk_step(m2, m3, pd, i2, flags, pt);
    assert(table_in_use(&m3, pt) && pt != pml4 && pt != pdpt && pt != pd);
    assert(m3.entry(pml4, i4) == m2.entry(pml4, i4));
    assert(m3.entry(pml4, i4) == m1.entry(pml4, i4));
    assert(m3.entry(pdpt, i3) == m2.entry(pdpt, i3));
    assert(m4.entry(pml4, i4) == m3.entry(pml4, i4));
    assert(m4.entry(pdpt, i3) == m3.entry(pdpt, i3));
    assert(m4.entry(pd, i2) == m3.entry(pd, i2));
    assert(m4.entry(pt, i1) == (phys & ADDR_MASK) | flags);
    assert forall|t: u64| table_in_use(&m3, t) implies table_in_use(&m4, t) by {}
    assert forall|w: int| #[trigger] m4.word(w) != m0.word(w) implies {
        ||| w == pml4 / 8 + i4
        ||| w == pdpt / 8 + i3
        ||| w == pd / 8 + i2
        ||| w == pt / 8 + i1
        ||| m0.is_free(word_frame(w))
    } by {
        if m4.word(w) == m3.word(w) {
            if m3.word(w) != m2.word(w) && w != pd / 8 + i2 {
                assert(m2.is_free(word_frame(w)));
            } else if m2.word(w) != m1.word(w) && w != pdpt / 8 + i3 {
                assert(m1.is_free(word_frame(w)));
            }
        }
    }
}

#[verifier::spinoff_prover]
#[verifier::rlimit(100)]
proof fn lemma_map_path_tables(
    m0: PhysicalMemory, m1: PhysicalMemory, m2: PhysicalMemory, m3: PhysicalMemory, m4: PhysicalMemory,
    pml4: u64, virt: u64, phys: u64, flags: u64, pdpt: u64, pd: u64, pt: u64,
)
    requires
        valid_path(&m0, pml4, virt),
        m0.free_count() >= 3,
        pml4 % 4096 == 0,
        pml4_idx(virt) < 512, pdpt_idx(virt) < 512, pd_idx(virt) < 512, pt_idx(virt) < 512,
        pdpt % 4096 == 0, pdpt < 0x0010_0000_0000_0000,
        pd % 4096 == 0, pd < 0x0010_0000_0000_0000,
        pt % 4096 == 0, pt < 0x0010_0000_0000_0000,
        walk_step(m0, m1, pml4, pml4_idx(virt) as int, flags, pdpt),
        walk_step(m1, m2, pdpt, pdpt_idx(virt) as int, flags, pd),
        walk_step(m2, m3, pd, pd_idx(virt) as int, flags, pt),
        forall|j: int| #[trigger] m4.is_free(j) == m3.is_free(j),
        forall|w: int| #[trigger] m4.word(w) ==
            if w == pt / 8 + pt_idx(virt) && pt + 8 * pt_idx(virt) < PHYS_MEM_END { (phys & ADDR_MASK) | flags } else { m3.word(w) },
    ensures
        ({
            let t3 = entry_addr(m4.entry(pml4, pml4_idx(virt) as int));
            let t2 = entry_addr(m4.entry(t3, pdpt_idx(virt) as int));
            let t1 = entry_addr(m4.entry(t2, pd_idx(virt) as int));
            let o4 = m0.entry(pml4, pml4_idx(virt) as int);
            let o3 = m0.entry(entry_addr(o4), pdpt_idx(virt) as int);
            let o2 = m0.entry(entry_addr(o3), pd_idx(virt) as int);
            &&& (is_present(o4) && t3 == entry_addr(o4)) || m0.is_free(spec_frame_idx(t3 as int))
            &&& (is_present(o4) && is_present(o3) && t2 == entry_addr(o3)) || m0.is_free(spec_frame_idx(t2 as int))
            &&& (is_present(o4) && is_present(o3) && is_present(o2) && t1 == entry_addr(o2))
                || m0.is_free(spec_frame_idx(t1 as int))
        }),
{
    let i4 = pml4_idx(virt) as int;
    let i3 = pdpt_idx(virt) as int;
    let i2 = pd_idx(virt) as int;
    lemma_walk_step(m0, m1, pml4, i4, flags, pdpt);
    lemma_zero_entry_absent();
    let p4 = is_present(m0.entry(pml4, i4));
    let p3 = p4 && is_present(m0.entry(pdpt, i3));
    if !p4 {
        assert(m1.entry(pdpt, i3) == 0);
    }
    assert(is_present(m1.entry(pdpt, i3)) == p3);
    lemma_walk_step(m1, m2, pdpt, i3, flags, pd);
    if !p3 {
        assert(m2.entry(pd, i2) == 0);
    }
    lemma_walk_step(m2, m3, pd, i2, flags, pt);
    assert(m3.entry(pml4, i4) == m2.entry(pml4, i4));
    assert(m3.entry(pml4, i4) == m1.entry(pml4, i4));
    assert(m3.entry(pdpt, i3) == m2.entry(pdpt, i3));
    assert(m4.entry(pml4, i4) == m3.entry(pml4, i4));
    assert(m4.entry(pdpt, i3) == m3.entry(pdpt, i3));
    assert(m4.entry(pd, i2) == m3.entry(pd, i2));
    let t3 = entry_addr(m4.entry(pml4, i4));
    let t2 = entry_addr(m4.entry(t3, i3));
    let t1 = entry_addr(m4.entry(t2, i2));
    assert(t3 == pdpt);
    assert(t2 == pd);
    assert(t1 == pt);
    let o4 = m0.entry(pml4, i4);
    if p4 {
        assert(m1 == m0);
        assert(pdpt == entry_addr(o4));
        let o3 = m0.entry(pdpt, i3);
        if is_present(o3) {
            assert(m2 == m1);
            assert(pd == entry_addr(o3));
        } else {
            assert(m0.is_free(spec_frame_idx(pd as int)));
        }
    } else {
        assert(m0.is_free(spec_frame_idx(pdpt as int)));
        assert(m1.is_free(spec_frame_idx(pd as int)));
        assert(m0.is_free(spec_frame_idx(pd as int)));
    }
    assert(m2.is_free(spec_frame_idx(pt as int)) ==> m0.is_free(spec_frame_idx(pt as int)));
}

/// Each table of the walk for `va` in `m1` is the one the walk in `m0`
/// reached through present entries, or a frame that was free in `m0`.
pub open spec fn map_tables_origin(m0: &PhysicalMemory, m1: &PhysicalMemory, pml4: u64, va: u64) -> bool {
    let o4 = m0.entry(pml4, pml4_idx(va) as int);
    let o3 = m0.entry(entry_addr(o4), pdpt_idx(va) as int);
    let o2 = m0.entry(entry_addr(o3), pd_idx(va) as int);
    let t3 = entry_addr(m1.entry(pml4, pml4_idx(va) as int));
    let t2 = entry_addr(m1.entry(t3, pdpt_idx(va) as int));
    let t1 = entry_addr(m1.entry(t2, pd_idx(va) as int));
    &&& if is_present(o4) { t3 == entry_addr(o4) } else { m0.is_free(spec_frame_idx(t3 as int)) }
    &&& if is_present(o4) && is_present(o3) { t2 == entry_addr(o3) } else { m0.is_free(spec_frame_idx(t2 as int)) }
    &&& if is_present(o4) && is_present(o3) && is_present(o2) { t1 == entry_addr(o2) } else { m0.is_free(spec_frame_idx(t1 as int)) }
}

/// Tables that mapping the page at `va` created from `m0` to `m1` are
/// empty but for their entry on the walk: the PDPT when the PML4 entry was
/// not present, the PD when the walk stopped before it, and the page table
/// when the walk stopped before the PD entry.
pub open spec fn map_fresh_zero(m0: &PhysicalMemory, m1: &PhysicalMemory, pml4: u64, va: u64) -> bool {
    let o4 = m0.entry(pml4, pml4_idx(va) as int);
    let o3 = m0.entry(entry_addr(o4), pdpt_idx(va) as int);
    let o2 = m0.entry(entry_addr(o3), pd_idx(va) as int);
    let t3 = entry_addr(m1.entry(pml4, pml4_idx(va) as int));
    let t2 = entry_addr(m1.entry(t3, pdpt_idx(va) as int));
    let t1 = entry_addr(m1.entry(t2, pd_idx(va) as int));
    &&& !is_present(o4) ==> forall|i: int| 0 <= i < 512 && i != pdpt_idx(va) ==> #[trigger] m1.entry(t3, i) == 0
    &&& !(is_present(o4) && is_present(o3)) ==>
            forall|i: int| 0 <= i < 512 && i != pd_idx(va) ==> #[trigger] m1.entry(t2, i) == 0
    &&& !(is_present(o4) && is_present(o3) && is_present(o2)) ==>
            forall|i: int| 0 <= i < 512 && i != pt_idx(va) ==> #[trigger] m1.entry(t1, i) == 0
}

#[verifier::spinoff_prover]
#[verifier::rlimit(100)]
proof fn lemma_map_fresh_zero(
    m0: PhysicalMemory, m1: PhysicalMemory, m2: PhysicalMemory, m3: PhysicalMemory, m4: PhysicalMemory,
    pml4: u64, virt: u64, phys: u64, flags: u64, pdpt: u64, pd: u64, pt: u64,
)
    requires
        valid_path(&m0, pml4, virt),
        m0.free_count() >= 3,
        pml4 % 4096 == 0,
        pml4_idx(virt) < 512, pdpt_idx(virt) < 512, pd_idx(virt) < 512, pt_idx(virt) < 512,
        pdpt % 4096 == 0, pdpt < 0x0010_0000_0000_0000,
        pd % 4096 == 0, pd < 0x0010_0000_0000_0000,
        pt % 4096 == 0, pt < 0x0010_0000_0000_0000,
        walk_step(m0, m1, pml4, pml4_idx(virt) as int, flags, pdpt),
        walk_step(m1, m2, pdpt, pdpt_idx(virt) as int, flags, pd),
        walk_step(m2, m3, pd, pd_idx(virt) as int, flags, pt),
        forall|j: int| #[trigger] m4.is_free(j) == m3.is_free(j),
        forall|w: int| #[trigger] m4.word(w) ==
            if w == pt / 8 + pt_idx(virt) && pt + 8 * pt_idx(virt) < PHYS_MEM_END { (phys & ADDR_MASK) | flags } else { m3.word(w) },
    ensures
        map_fresh_zero(&m0, &m4, pml4, virt),
{
    let i4 = pml4_idx(virt) as int;
    let i3 = pdpt_idx(virt) as int;
    let i2 = pd_idx(virt) as int;
    let i1 = pt_idx(virt) as int;
    lemma_walk_step(m0, m1, pml4, i4, flags, pdpt);
    lemma_zero_entry_absent();
    let p4 = is_present(m0.entry(pml4, i4));
    let p3 = p4 && is_present(m0.entry(pdpt, i3));
    let p2 = p3 && is_present(m0.entry(pd, i2));
    if !p4 {
        assert(m1.entry(pdpt, i3) == 0);
    }
    lemma_walk_step(m1, m2, pdpt, i3, flags, pd);
    if p3 {
        assert(m2 == m1);
    } else {
        assert(m2.entry(pd, i2) == 0);
    }
    lemma_walk_step(m2, m3, pd, i2, flags, pt);
    assert(m4.entry(pml4, i4) == m3.entry(pml4, i4));
    assert(m4.entry(pdpt, i3) == m3.entry(pdpt, i3));
    assert(m4.entry(pd, i2) == m3.entry(pd, i2));
    assert(entry_addr(m4.entry(pml4, i4)) == pdpt);
    assert(entry_addr(m4.entry(pdpt, i3)) == pd);
    assert(entry_addr(m4.entry(pd, i2)) == pt);
    if p4 {
        assert(m1 == m0);
    }
    if !p4 {
        assert forall|i: int| 0 <= i < 512 && i != i3 implies #[trigger] m4.entry(pdpt, i) == 0 by {
            assert(m1.entry(pdpt, i) == 0);
            assert(m2.entry(pdpt, i) == m1.entry(pdpt, i));
            assert(m3.entry(pdpt, i) == m2.entry(pdpt, i));
            lemma_table_word_frame(pdpt, i);
            lemma_table_word_frame(pt, i1);
        }
    }
    if !p3 {
        assert forall|i: int| 0 <= i < 512 && i != i2 implies #[trigger] m4.entry(pd, i) == 0 by {
            assert(m2.entry(pd, i) == 0);
            assert(m3.entry(pd, i) == m2.entry(pd, i));
            lemma_table_word_frame(pd, i);
            lemma_table_word_frame(pt, i1);
        }
    }
    if !p2 {
        assert forall|i: int| 0 <= i < 512 && i != i1 implies #[trigger] m4.entry(pt, i) == 0 by {
            assert(m3.entry(pt, i) == 0);
        }
    }
}

/// What one `walk_or_alloc` step does to a table in use, when a frame is free.
#[verifier::spinoff_prover]
#[verifier::rlimit(40)]
proof fn lemma_walk_step(a: PhysicalMemory, b: PhysicalMemory, table: u64, idx: int, flags: u64, next: u64)
    requires
        walk_step(a, b, table, idx, flags, next),
        table_in_use(&a, table),
        0 <= idx < 512,
        a.free_count() >= 1,
        next % 4096 == 0,
        next < 0x0010_0000_0000_0000,
    ensures
        is_present(b.entry(table, idx)),
        entry_addr(b.entry(table, idx)) == next,
        is_present(a.entry(table, idx)) ==> b.entry(table, idx) == a.entry(table, idx),
        forall|t: u64| table_in_use(&a, t) ==> table_in_use(&b, t),
        !is_present(a.entry(table, idx)) ==> table_in_use(&b, next) && a.is_free(spec_frame_idx(next as int)),
        !is_present(a.entry(table, idx)) ==> forall|i: int| 0 <= i < 512 ==> #[trigger] b.entry(next, i) == 0,
        forall|t: u64, i: int| #![trigger b.entry(t, i)]
            table_in_use(&a, t) && 0 <= i < 512 && !(t == table && i == idx) ==> b.entry(t, i) == a.entry(t, i),
        b.free_count() + 1 >= a.free_count(),
        forall|j: int| #[trigger] b.is_free(j) ==> a.is_free(j),
        forall|w: int| #[trigger] b.word(w) != a.word(w) ==> w == table / 8 + idx
            || (!is_present(a.entry(table, idx)) && a.is_free(word_frame(w))),
{
    a.lemma_exhausted_iff_no_free();
    if !is_present(a.entry(table, idx)) {
        lemma_intermediate_entry(next, flags);
        assert(next != 0);
        let k = spec_frame_idx(next as int);
        assert(next / 8 == spec_frame_addr(k) / 8);
        assert forall|t: u64| table_in_use(&a, t) implies table_in_use(&b, t) by {
            assert(spec_frame_idx(t as int) != k);
        }
        assert forall|t: u64, i: int| #![trigger b.entry(t, i)]
            table_in_use(&a, t) && 0 <= i < 512 && !(t == table && i == idx) implies b.entry(t, i) == a.entry(t, i) by {
            assert(spec_frame_idx(t as int) != k);
            assert(t / 8 + i != table / 8 + idx);
        }
        assert forall|i: int| 0 <= i < 512 implies #[trigger] b.entry(next, i) == 0 by {
            assert(spec_frame_idx(table as int) != k);
        }
        assert forall|w: int| #[trigger] b.word(w) != a.word(w) implies w == table / 8 + idx
            || a.is_free(word_frame(w)) by {
            if next / 8 <= w < next / 8 + 512 {
                assert(word_frame(w) == k);
            }
        }
    }
}

/// One step of `walk_or_alloc` from `a` to `b` following entry `idx` of
/// `table` and yielding `next`.
spec fn walk_step(a: PhysicalMemory, b: PhysicalMemory, table: u64, idx: int, flags: u64, next: u64) -> bool {
    &&& b.wf()
    &&& is_present(a.entry(table, idx)) ==> {
        &&& next == entry_addr(a.entry(table, idx))
        &&& b == a
    }
    &&& !is_present(a.entry(table, idx)) ==> {
        &&& (next == 0) == a.exhausted()
        &&& next == 0 ==> a.free_count() == 0
        &&& next != 0 ==> {
            let k = spec_frame_idx(next as int);
            &&& next == spec_frame_addr(k)
            &&& 0 <= k < NUM_FRAMES
            &&& PHYS_MEM_START <= next < PHYS_MEM_END
            &&& a.is_free(k)
            &&& !b.is_free(k)
            &&& b.same_free_except(&a, k)
            &&& b.free_count() + 1 == a.free_count()
        }
        &&& forall|w: int| #[trigger] b.word(w) ==
            if w == table / 8 + idx && table + 8 * idx < PHYS_MEM_END { (next & ADDR_MASK) | intermediate_flags(flags) }
            else if next != 0 && next / 8 <= w < next / 8 + 512 { 0 }
            else { a.word(w) }
    }
}

} // verus!

verus! {

/// The PT address and leaf entry of a present 4 KiB copy-on-write page at
/// `va` in the address space rooted at `cr3`: the walk must find present
/// entries at every level, no large page, and the COW bit in the leaf.
pub open spec fn cow_leaf(m: &PhysicalMemory, cr3: u64, va: u64) -> Option<(u64, u64)> {
    let e4 = m.entry(cr3, pml4_idx(va) as int);
    let e3 = m.entry(entry_addr(e4), pdpt_idx(va) as int);
    let e2 = m.entry(entry_addr(e3), pd_idx(va) as int);
    let t1 = entry_addr(e2);
    let e1 = m.entry(t1, pt_idx(va) as int);
    if !is_present(e4) {
        None
    } else if !is_present(e3) || e3 & 0x80u64 != 0 {
        None
    } else if !is_present(e2) || e2 & 0x80u64 != 0 {
        None
    } else if !is_present(e1) || e1 & 0x200u64 == 0 {
        None
    } else {
        Some((t1, e1))
    }
}

/// The leaf entry after resolving a COW fault into the private frame
/// `new_frame`: its address, the present, user, global, cache-disable and
/// write-through bits of the old entry, and writable; COW is dropped.
pub open spec fn resolved_cow_entry(new_frame: u64, pte: u64) -> u64 {
    (new_frame & ADDR_MASK) | (pte & (0x1u64 | 0x4u64 | 0x100u64 | 0x10u64 | 0x8u64)) | 0x2u64
}

/// Resolve a write fault at `fault_addr` on a copy-on-write page of the
/// address space rooted at `cr3`: give the page a private copy in the
/// lowest free frame and map it writable without the COW bit. Returns
/// `false`, changing nothing, when the walk does not end in a present
/// 4 KiB COW page or no frame is free. (The caller flushes the TLB entry
/// of `fault_addr` after a `true`.)
pub fn handle_cow_fault(mem: &mut PhysicalMemory, cr3: u64, fault_addr: u64) -> (handled: bool)
    requires
        old(mem).wf(),
        cr3 % 4096 == 0,
    ensures
        final(mem).wf(),
        handled == (cow_leaf(old(mem), cr3, fault_addr) is Some && !old(mem).exhausted()),
        !handled ==> *final(mem) == *old(mem),
        handled ==> {
            let (pt, pte) = cow_leaf(old(mem), cr3, fault_addr)->0;
            let src = entry_addr(pte);
            exists|k: int| {
                let new_frame = spec_frame_addr(k) as u64;
                &&& #[trigger] old(mem).lowest_free(k)
                &&& !final(mem).is_free(k)
                &&& final(mem).same_free_except(old(mem), k)
                &&& final(mem).free_count() + 1 == old(mem).free_count()
                &&& forall|w: int| #[trigger] final(mem).word(w) ==
                    if w == pt / 8 + pt_idx(fault_addr) && pt + 8 * pt_idx(fault_addr) < PHYS_MEM_END {
                        resolved_cow_entry(new_frame, pte)
                    } else if new_frame / 8 <= w < new_frame / 8 + 512 {
                        if src == new_frame { 0 } else { old(mem).word(src / 8 + (w - new_frame / 8)) }
                    } else {
                        old(mem).word(w)
                    }
            }
        },
{
    proof {
        lemma_index_bound(fault_addr, 39);
        lemma_index_bound(fault_addr, 30);
        lemma_index_bound(fault_addr, 21);
        lemma_index_bound(fault_addr, 12);
    }
    let i4 = ((fault_addr >> 39) & 0x1FF) as usize;
    let i3 = ((fault_addr >> 30) & 0x1FF) as usize;
    let i2 = ((fault_addr >> 21) & 0x1FF) as usize;
    let i1 = ((fault_addr >> 12) & 0x1FF) as usize;

    let pml4e = mem.read_pt_entry(cr3, i4);
    if pml4e & page_flags::PRESENT == 0 {
        return false;
    }
    proof { lemma_mask_aligned(pml4e); }
    let pdpt = pml4e & ADDR_MASK;

    let pdpte = mem.read_pt_entry(pdpt, i3);
    if pdpte & page_flags::PRESENT == 0 {
        return false;
    }
    if pdpte & page_flags::LARGE != 0 {
        return false;
    }
    proof { lemma_mask_aligned(pdpte); }
    let pd = pdpte & ADDR_MASK;

    let pde = mem.read_pt_entry(pd, i2);
    if pde & page_flags::PRESENT == 0 {
        return false;
    }
    if pde & page_flags::LARGE != 0 {
        return false;
    }
    proof { lemma_mask_aligned(pde); }
    let pt = pde & ADDR_MASK;

    let pte = mem.read_pt_entry(pt, i1);
    if pte & page_flags::PRESENT == 0 {
        return false;
    }
    if pte & page_flags::COW == 0 {
        return false;
    }

    let old_phys = pte & ADDR_MASK;
    proof { lemma_mask_aligned(pte); }
    let ghost m0 = *mem;
    let new_frame = mem.alloc_frame();
    if new_frame == 0 {
        return false;
    }
    let ghost m1 = *mem;
    mem.copy_frame(new_frame, old_phys);
    let ghost m2 = *mem;
    let new_pte = (new_frame & ADDR_MASK)
        | (pte & (page_flags::PRESENT | page_flags::USER_ACCESS | page_flags::GLOBAL
                  | page_flags::CACHE_DISABLE | page_flags::WRITE_THROUGH))
        | page_flags::WRITABLE;
    mem.write_pt_entry(pt, i1, new_pte);
    proof {
        let k = spec_frame_idx(new_frame as int);
        assert(new_frame / 8 == spec_frame_addr(k) / 8);
        assert forall|j: int| #[trigger] mem.is_free(j) == m1.is_free(j) by {}
        PhysicalMemory::lemma_free_below_same(mem, &m1, NUM_FRAMES as int);
        assert forall|w: int| #[trigger] mem.word(w) ==
            if w == pt / 8 + i1 && pt + 8 * i1 < PHYS_MEM_END {
                resolved_cow_entry(new_frame, pte)
            } else if new_frame / 8 <= w < new_frame / 8 + 512 {
                if old_phys == new_frame { 0 } else { m0.word(old_phys / 8 + (w - new_frame / 8)) }
            } else {
                m0.word(w)
            } by {
            if new_frame / 8 <= w < new_frame / 8 + 512 && old_phys != new_frame {
                let v = old_phys / 8 + (w - new_frame / 8);
                assert(!(new_frame / 8 <= v < new_frame / 8 + 512));
            }
        }
        assert(m0.lowest_free(k));
    }
    true
}

} // verus!

verus! {

/// A region of a process's virtual memory.
#[derive(Clone, Copy)]
pub struct MemoryRegion {
    pub start: u64,
    pub size: u64,
    pub flags: u64,
}

impl MemoryRegion {
    /// A region with the given start, size and flags.
    pub fn new(start: u64, size: u64, flags: u64) -> (r: Self)
        ensures
            r == (MemoryRegion { start, size, flags }),
    {
        MemoryRegion { start, size, flags }
    }
}

} // verus!

verus! {

/// A page-table entry.
#[derive(Clone, Copy)]
pub struct PageTableEntry {
    pub raw: u64,
}

impl PageTableEntry {
    /// The entry for frame address `addr` (bits 12..51 kept) with `flags`.
    pub fn new(addr: u64, flags: u64) -> (e: Self)
        ensures
            e.raw == (addr & ADDR_MASK) | flags,
    {
        PageTableEntry { raw: (addr & ADDR_MASK) | flags }
    }

    /// Whether the present bit is set.
    pub fn present(&self) -> (b: bool)
        ensures
            b == (self.raw & 0x1u64 != 0),
    {
        self.raw & page_flags::PRESENT != 0
    }

    /// Whether the writable bit is set.
    pub fn writable(&self) -> (b: bool)
        ensures
            b == (self.raw & 0x2u64 != 0),
    {
        self.raw & page_flags::WRITABLE != 0
    }

    /// Whether the user-access bit is set.
    pub fn user_accessible(&self) -> (b: bool)
        ensures
            b == (self.raw & 0x4u64 != 0),
    {
        self.raw & page_flags::USER_ACCESS != 0
    }
}

/// Whether `addr` lies in the user half of the address space.
pub open spec fn spec_is_valid_user_vaddr(addr: u64) -> bool {
    USER_VADDR_START <= addr < USER_VADDR_END
}

/// Whether `addr` is a user virtual address.
pub fn is_valid_user_vaddr(addr: u64) -> (b: bool)
    ensures
        b == spec_is_valid_user_vaddr(addr),
{
    addr >= USER_VADDR_START && addr < USER_VADDR_END
}

/// Whether the buffer of `size` bytes at `addr` lies in user space: its
/// first and its last byte are user addresses (the end saturating at
/// `u64::MAX`; an empty buffer is checked at `addr` and `addr - 1`).
pub fn is_valid_user_buffer(addr: u64, size: usize) -> (b: bool)
    ensures
        b == ({
            let end = if addr + size > u64::MAX { u64::MAX as int } else { addr + size };
            let last = if end > 0 { end - 1 } else { 0 };
            spec_is_valid_user_vaddr(addr) && spec_is_valid_user_vaddr(last as u64)
        }),
{
    let sz = size as u64;
    let end: u64 = if sz > u64::MAX - addr { u64::MAX } else { addr + sz };
    let last: u64 = if end > 0 { end - 1 } else { 0 };
    is_valid_user_vaddr(addr) && is_valid_user_vaddr(last)
}

} // verus!

verus! {

/// Address `a` is mapped by a 4 KiB or a 2 MiB page in the address space
/// rooted at `pml4`: the walk finds present PML4 and PDPT entries (no
/// 1 GiB page), a present PD entry, and either a 2 MiB page there or a
/// present PT entry.
pub open spec fn mapped_small(m: &PhysicalMemory, pml4: u64, a: u64) -> bool {
    let e4 = m.entry(pml4, pml4_idx(a) as int);
    let e3 = m.entry(entry_addr(e4), pdpt_idx(a) as int);
    let e2 = m.entry(entry_addr(e3), pd_idx(a) as int);
    let e1 = m.entry(entry_addr(e2), pt_idx(a) as int);
    &&& is_present(e4)
    &&& is_present(e3) && !is_large(e3)
    &&& is_present(e2)
    &&& is_large(e2) || is_present(e1)
}

/// Addresses that agree above bit 39, 30, 21 or 12 share the indices of
/// the levels above it.
proof fn lemma_same_region(x: u64, y: u64)
    ensures
        x >> 39u64 == y >> 39u64 ==> pml4_idx(x) == pml4_idx(y),
        x >> 30u64 == y >> 30u64 ==> pml4_idx(x) == pml4_idx(y) && pdpt_idx(x) == pdpt_idx(y),
        x >> 21u64 == y >> 21u64 ==> pml4_idx(x) == pml4_idx(y) && pdpt_idx(x) == pdpt_idx(y) && pd_idx(x) == pd_idx(y),
        x >> 12u64 == y >> 12u64 ==> pml4_idx(x) == pml4_idx(y) && pdpt_idx(x) == pdpt_idx(y)
            && pd_idx(x) == pd_idx(y) && pt_idx(x) == pt_idx(y),
{
    assert({
        &&& (x >> 39u64 == y >> 39u64 ==> ((x >> 39u64) & 0x1FFu64) == ((y >> 39u64) & 0x1FFu64))
        &&& (x >> 30u64 == y >> 30u64 ==> ((x >> 39u64) & 0x1FFu64) == ((y >> 39u64) & 0x1FFu64)
                && ((x >> 30u64) & 0x1FFu64) == ((y >> 30u64) & 0x1FFu64))
        &&& (x >> 21u64 == y >> 21u64 ==> ((x >> 39u64) & 0x1FFu64) == ((y >> 39u64) & 0x1FFu64)
                && ((x >> 30u64) & 0x1FFu64) == ((y >> 30u64) & 0x1FFu64)
                && ((x >> 21u64) & 0x1FFu64) == ((y >> 21u64) & 0x1FFu64))
        &&& (x >> 12u64 == y >> 12u64 ==> ((x >> 39u64) & 0x1FFu64) == ((y >> 39u64) & 0x1FFu64)
                && ((x >> 30u64) & 0x1FFu64) == ((y >> 30u64) & 0x1FFu64)
                && ((x >> 21u64) & 0x1FFu64) == ((y >> 21u64) & 0x1FFu64)
                && ((x >> 12u64) & 0x1FFu64) == ((y >> 12u64) & 0x1FFu64))
    }) by (bit_vector);
}

/// The start of the next 4 KiB page, 2 MiB, 1 GiB and 512 GiB region lies
/// past `va`, and every address from `va` up to it agrees with `va` above
/// that region's bit.
proof fn lemma_region_steps(va: u64, a: u64)
    requires
        va < 0x8000_0000_0000,
    ensures
        (va & 0xFFFF_FFFF_FFFF_F000u64) + 0x1000 > va,
        (va & 0xFFFF_FFFF_FFE0_0000u64) + 0x20_0000 > va,
        (va & 0xFFFF_FFFF_C000_0000u64) + 0x4000_0000 > va,
        (va & 0xFFFF_FF80_0000_0000u64) + 0x80_0000_0000 > va,
        (va & 0xFFFF_FF80_0000_0000u64) + 0x80_0000_0000 <= 0x8000_0000_0000,
        (va & 0xFFFF_FFFF_C000_0000u64) + 0x4000_0000 <= 0x8000_0000_0000,
        (va & 0xFFFF_FFFF_FFE0_0000u64) + 0x20_0000 <= 0x8000_0000_0000,
        va <= a < (va & 0xFFFF_FFFF_FFFF_F000u64) + 0x1000 ==> a >> 12u64 == va >> 12u64,
        va <= a < (va & 0xFFFF_FFFF_FFE0_0000u64) + 0x20_0000 ==> a >> 21u64 == va >> 21u64,
        va <= a < (va & 0xFFFF_FFFF_C000_0000u64) + 0x4000_0000 ==> a >> 30u64 == va >> 30u64,
        va <= a < (va & 0xFFFF_FF80_0000_0000u64) + 0x80_0000_0000 ==> a >> 39u64 == va >> 39u64,
        ((va & 0xFFFF_FFFF_FFE0_0000u64) + 0x20_0000) % 4096 == 0,
        ((va & 0xFFFF_FFFF_C000_0000u64) + 0x4000_0000) % 4096 == 0,
        ((va & 0xFFFF_FF80_0000_0000u64) + 0x80_0000_0000) % 4096 == 0,
        va % 4096 == 0 ==> (va & 0xFFFF_FFFF_FFFF_F000u64) == va,
{
    assert({
        &&& (va & 0xFFFF_FFFF_FFFF_F000u64) + 0x1000 > va
        &&& (va & 0xFFFF_FFFF_FFE0_0000u64) + 0x20_0000 > va
        &&& (va & 0xFFFF_FFFF_C000_0000u64) + 0x4000_0000 > va
        &&& (va & 0xFFFF_FF80_0000_0000u64) + 0x80_0000_0000 > va
        &&& (va & 0xFFFF_FF80_0000_0000u64) + 0x80_0000_0000 <= 0x8000_0000_0000u64
        &&& (va & 0xFFFF_FFFF_C000_0000u64) + 0x4000_0000 <= 0x8000_0000_0000u64
        &&& (va & 0xFFFF_FFFF_FFE0_0000u64) + 0x20_0000 <= 0x8000_0000_0000u64
        &&& (va <= a && a < (va & 0xFFFF_FFFF_FFFF_F000u64) + 0x1000 ==> a >> 12u64 == va >> 12u64)
        &&& (va <= a && a < (va & 0xFFFF_FFFF_FFE0_0000u64) + 0x20_0000 ==> a >> 21u64 == va >> 21u64)
        &&& (va <= a && a < (va & 0xFFFF_FFFF_C000_0000u64) + 0x4000_0000 ==> a >> 30u64 == va >> 30u64)
        &&& (va <= a && a < (va & 0xFFFF_FF80_0000_0000u64) + 0x80_0000_0000 ==> a >> 39u64 == va >> 39u64)
        &&& ((va & 0xFFFF_FFFF_FFE0_0000u64) + 0x20_0000) % 4096 == 0
        &&& ((va & 0xFFFF_FFFF_C000_0000u64) + 0x4000_0000) % 4096 == 0
        &&& ((va & 0xFFFF_FF80_0000_0000u64) + 0x80_0000_0000) % 4096 == 0
        &&& (va % 4096 == 0 ==> (va & 0xFFFF_FFFF_FFFF_F000u64) == va)
    }) by (bit_vector)
        requires va < 0x8000_0000_0000u64;
}

/// Clearing entries never maps an address that was not mapped.
proof fn lemma_unmapped_kept(a: &PhysicalMemory, b: &PhysicalMemory, pml4: u64, x: u64)
    requires
        forall|w: int| #[trigger] b.word(w) != a.word(w) ==> b.word(w) == 0,
        !mapped_small(a, pml4, x),
    ensures
        !mapped_small(b, pml4, x),
{
    lemma_zero_entry_absent();
}

/// Present entries are ones that unmapping has not changed, so a walk
/// through present PML4, PDPT and PD entries in `m` is the walk in `m0`.
proof fn lemma_walk_from_old(m0: &PhysicalMemory, m: &PhysicalMemory, pml4: u64, a: u64)
    requires
        forall|w: int| #[trigger] m.word(w) != m0.word(w) ==> m.word(w) == 0,
    ensures
        ({
            let e4 = m.entry(pml4, pml4_idx(a) as int);
            let e3 = m.entry(entry_addr(e4), pdpt_idx(a) as int);
            let e2 = m.entry(entry_addr(e3), pd_idx(a) as int);
            &&& is_present(e4) ==> m0.entry(pml4, pml4_idx(a) as int) == e4
            &&& is_present(e4) && is_present(e3) ==> m0.entry(entry_addr(e4), pdpt_idx(a) as int) == e3
            &&& is_present(e4) && is_present(e3) && is_present(e2) ==> m0.entry(entry_addr(e3), pd_idx(a) as int) == e2
        }),
{
    lemma_zero_entry_absent();
}

/// What unmapping did to word `w` of RAM: it held a present leaf (a PT
/// entry, or a PD entry of a 2 MiB page) that is now cleared, and the frame
/// at the address it mapped is free in `m1`.
pub open spec fn leaf_unmapped(m0: &PhysicalMemory, m1: &PhysicalMemory, w: int) -> bool {
    let e = m0.word(w);
    &&& is_present(e)
    &&& m1.word(w) == 0
    &&& frame_freed(m1, entry_addr(e))
}

/// `m1` is `m0` after unmapping `[vaddr, vaddr + len)` in the address
/// space rooted at `pml4` (see `munmap_range`): only present leaves were
/// cleared, each the leaf entry of the walk of a visited address, their
/// frames are free (all 512 for the PD entry of a 2 MiB page that is no
/// visited address's PT entry), only frames of cleared leaves became free,
/// no frame became in use, and no address of the range below
/// `USER_VADDR_END` is mapped by a 4 KiB or 2 MiB page.
pub open spec fn unmapped_from(m0: PhysicalMemory, m1: PhysicalMemory, pml4: u64, vaddr: u64, len: u64) -> bool {
    &&& m1.wf()
    &&& forall|j: int| #[trigger] m0.is_free(j) ==> m1.is_free(j)
    &&& forall|w: int| #[trigger] m1.word(w) != m0.word(w) ==> leaf_unmapped(&m0, &m1, w)
    &&& forall|a: u64| vaddr <= a && a < vaddr + len && a < USER_VADDR_END ==> !#[trigger] mapped_small(&m1, pml4, a)
    &&& forall|w: int| #[trigger] m1.word(w) != m0.word(w) ==> leaf_of_range(&m0, pml4, vaddr, len, w)
    &&& forall|j: int| #[trigger] m1.is_free(j) && !m0.is_free(j) ==> freed_from_leaves(&m0, &m1, j)
    &&& forall|w: int| #[trigger] m1.word(w) != m0.word(w) && only_large_leaf(&m0, pml4, vaddr, len, w)
            ==> large_page_freed(&m1, m0.word(w))
}

/// Word `w` holds, in `m`, the PT entry of the walk for `a` through present
/// PML4, PDPT and PD entries, none of them a large page.
pub open spec fn walk_pt_word(m: &PhysicalMemory, pml4: u64, a: u64, w: int) -> bool {
    walk_leaf_word(m, pml4, a, w) && !is_large(
        m.entry(entry_addr(m.entry(entry_addr(m.entry(pml4, pml4_idx(a) as int)), pdpt_idx(a) as int)), pd_idx(a) as int))
}

/// Word `w` is, in `m`, the PD entry of a 2 MiB page on the walk of an
/// address that unmapping `[vaddr, vaddr + len)` visits, and the PT entry
/// of the walk of none of them.
pub open spec fn only_large_leaf(m: &PhysicalMemory, pml4: u64, vaddr: u64, len: u64, w: int) -> bool {
    &&& exists|a: u64| page_floor(vaddr) <= a && a < munmap_end(vaddr, len) && a < USER_VADDR_END
            && #[trigger] walk_leaf_word(m, pml4, a, w) && !walk_pt_word(m, pml4, a, w)
    &&& !exists|a: u64| page_floor(vaddr) <= a && a < munmap_end(vaddr, len) && a < USER_VADDR_END
            && #[trigger] walk_pt_word(m, pml4, a, w)
}

/// Each of the 512 frames of the 2 MiB page that entry `e` maps is free
/// in `m` (as far as it is a managed frame).
pub open spec fn large_page_freed(m: &PhysicalMemory, e: u64) -> bool {
    forall|k: int| 0 <= k < 512 ==> #[trigger] frame_freed(m, (entry_addr(e) + k * 4096) as u64)
}

/// The first page that unmapping `[vaddr, vaddr + len)` visits.
pub open spec fn page_floor(vaddr: u64) -> u64 {
    vaddr & 0xFFFF_FFFF_FFFF_F000u64
}

/// Where unmapping `[vaddr, vaddr + len)` stops: `vaddr` plus `len` rounded
/// up to pages, or the top of the address space where that overflows.
pub open spec fn munmap_end(vaddr: u64, len: u64) -> u64 {
    let rounded = ((len + 4095) as u64) & 0xFFFF_FFFF_FFFF_F000u64;
    if rounded > u64::MAX - vaddr { u64::MAX } else { (vaddr + rounded) as u64 }
}

/// Frame `j` is a frame that the leaf entry `e` maps: the one at its
/// address, or, with the large-page bit set, one of the 512 frames of a
/// 2 MiB page.
pub open spec fn leaf_frame(e: u64, j: int) -> bool {
    let f = spec_frame_idx(entry_addr(e) as int);
    j == f || (is_large(e) && f <= j < f + 512)
}

/// Word `w` is the leaf entry that the walk for `a` in `m` reaches through
/// present PML4, PDPT (not a 1 GiB page) and PD entries: the PD entry when
/// it maps a 2 MiB page, the PT entry otherwise.
pub open spec fn walk_leaf_word(m: &PhysicalMemory, pml4: u64, a: u64, w: int) -> bool {
    let e4 = m.entry(pml4, pml4_idx(a) as int);
    let t3 = entry_addr(e4);
    let e3 = m.entry(t3, pdpt_idx(a) as int);
    let t2 = entry_addr(e3);
    let e2 = m.entry(t2, pd_idx(a) as int);
    let t1 = entry_addr(e2);
    &&& is_present(e4)
    &&& is_present(e3) && !is_large(e3)
    &&& is_present(e2)
    &&& if is_large(e2) { w == t2 / 8 + pd_idx(a) } else { w == t1 / 8 + pt_idx(a) }
}

/// Word `w` is, in `m`, the leaf entry of the walk for an address that
/// unmapping `[vaddr, vaddr + len)` visits (below `USER_VADDR_END`).
pub open spec fn leaf_of_range(m: &PhysicalMemory, pml4: u64, vaddr: u64, len: u64, w: int) -> bool {
    exists|a: u64| page_floor(vaddr) <= a && a < munmap_end(vaddr, len) && a < USER_VADDR_END
        && #[trigger] walk_leaf_word(m, pml4, a, w)
}

/// Frame `j` was freed from `m0` to `m1` as a frame of a leaf entry that
/// was cleared.
pub open spec fn freed_from_leaves(m0: &PhysicalMemory, m1: &PhysicalMemory, j: int) -> bool {
    exists|w: int| #[trigger] m1.word(w) != m0.word(w) && leaf_frame(m0.word(w), j)
}

/// Unmap the user pages of `[vaddr, vaddr + len)` (rounded out to pages) in
/// the address space rooted at `pml4_phys`, below `USER_VADDR_END`: a
/// present 4 KiB leaf has its frame freed and its entry cleared; a 2 MiB
/// page has its 512 frames freed and its PD entry cleared. Where the walk
/// finds no PML4, PDPT or PD entry, the address moves on to the start of
/// that entry's next region (512 GiB, 1 GiB, 2 MiB); 1 GiB pages are
/// skipped the same way. Page-table frames themselves are kept.
///
/// RAM only changes by present leaves being cleared, each the leaf entry
/// of the walk for a page that was visited, whose frames are then free;
/// frames only become free, and only frames of the leaves that were
/// cleared. Afterwards no address of the range below `USER_VADDR_END` is
/// mapped by a 4 KiB or 2 MiB page.
pub fn munmap_range(mem: &mut PhysicalMemory, pml4_phys: u64, vaddr: u64, len: u64)
    requires
        old(mem).wf(),
        pml4_phys % 4096 == 0,
        len <= u64::MAX - 4095,
    ensures
        final(mem).wf(),
        forall|j: int| #[trigger] old(mem).is_free(j) ==> final(mem).is_free(j),
        forall|w: int| #[trigger] final(mem).word(w) != old(mem).word(w) ==> leaf_unmapped(old(mem), final(mem), w),
        forall|a: u64| vaddr <= a && a < vaddr + len && a < USER_VADDR_END ==> !#[trigger] mapped_small(final(mem), pml4_phys, a),
        unmapped_from(*old(mem), *final(mem), pml4_phys, vaddr, len),
{
    let rounded = (len + 4095) & 0xFFFF_FFFF_FFFF_F000u64;
    let end = if rounded > u64::MAX - vaddr { u64::MAX } else { vaddr + rounded };
    let mut va = vaddr & 0xFFFF_FFFF_FFFF_F000u64;
    proof {
        assert((vaddr & 0xFFFF_FFFF_FFFF_F000u64) % 4096 == 0 && vaddr & 0xFFFF_FFFF_FFFF_F000u64 <= vaddr
            && ((len + 4095) as u64) & 0xFFFF_FFFF_FFFF_F000u64 >= len) by (bit_vector)
            requires len <= 0xFFFF_FFFF_FFFF_F000u64;
    }
    while va < end && va < USER_VADDR_END
        invariant
            mem.wf(),
            pml4_phys % 4096 == 0,
            forall|j: int| #[trigger] old(mem).is_free(j) ==> mem.is_free(j),
            forall|w: int| #[trigger] mem.word(w) != old(mem).word(w) ==> leaf_unmapped(old(mem), mem, w),
            va % 4096 == 0,
            end >= vaddr + len || end == u64::MAX,
            forall|a: u64| vaddr <= a && a < va && a < vaddr + len && a < USER_VADDR_END ==> !#[trigger] mapped_small(mem, pml4_phys, a),
            end == munmap_end(vaddr, len),
            page_floor(vaddr) <= va,
            forall|w: int| #[trigger] mem.word(w) != old(mem).word(w) ==> exists|a: u64| page_floor(vaddr) <= a && a < end
                && a < va && a < USER_VADDR_END && #[trigger] walk_leaf_word(old(mem), pml4_phys, a, w),
            forall|j: int| #[trigger] mem.is_free(j) && !old(mem).is_free(j) ==> freed_from_leaves(old(mem), mem, j),
            forall|w: int| #[trigger] mem.word(w) != old(mem).word(w) && only_large_leaf(old(mem), pml4_phys, vaddr, len, w)
                ==> large_page_freed(mem, old(mem).word(w)),
        decreases u64::MAX - va,
    {
        proof {
            lemma_index_bound(va, 39);
            lemma_index_bound(va, 30);
            lemma_index_bound(va, 21);
            lemma_index_bound(va, 12);
            lemma_zero_entry_absent();
            lemma_region_steps(va, va);
        }
        let ghost m0 = *mem;
        let i4 = ((va >> 39) & 0x1FF) as usize;
        let i3 = ((va >> 30) & 0x1FF) as usize;
        let i2 = ((va >> 21) & 0x1FF) as usize;
        let i1 = ((va >> 12) & 0x1FF) as usize;

        let pml4e = mem.read_pt_entry(pml4_phys, i4);
        if pml4e & page_flags::PRESENT == 0 {
            let next = (va & 0xFFFF_FF80_0000_0000u64) + 0x80_0000_0000;
            proof {
                assert forall|a: u64| vaddr <= a && a < next && a < vaddr + len && a < USER_VADDR_END implies !#[trigger] mapped_small(mem, pml4_phys, a) by {
                    if a >= va {
                        lemma_region_steps(va, a);
                        lemma_same_region(a, va);
                    }
                }
            }
            va = next;
            continue;
        }
        proof { lemma_mask_aligned(pml4e); }
        let pdpt = pml4e & ADDR_MASK;

        let pdpte = mem.read_pt_entry(pdpt, i3);
        if pdpte & page_flags::PRESENT == 0 || pdpte & page_flags::LARGE != 0 {
            let next = (va & 0xFFFF_FFFF_C000_0000u64) + 0x4000_0000;
            proof {
                assert forall|a: u64| vaddr <= a && a < next && a < vaddr + len && a < USER_VADDR_END implies !#[trigger] mapped_small(mem, pml4_phys, a) by {
                    if a >= va {
                        lemma_region_steps(va, a);
                        lemma_same_region(a, va);
                    }
                }
            }
            va = next;
            continue;
        }
        proof { lemma_mask_aligned(pdpte); }
        let pd = pdpte & ADDR_MASK;

        let pde = mem.read_pt_entry(pd, i2);
        if pde & page_flags::PRESENT == 0 {
            let next = (va & 0xFFFF_FFFF_FFE0_0000u64) + 0x20_0000;
            proof {
                assert forall|a: u64| vaddr <= a && a < next && a < vaddr + len && a < USER_VADDR_END implies !#[trigger] mapped_small(mem, pml4_phys, a) by {
                    if a >= va {
                        lemma_region_steps(va, a);
                        lemma_same_region(a, va);
                    }
                }
            }
            va = next;
            continue;
        }
        if pde & page_flags::LARGE != 0 {
            proof { lemma_mask_aligned(pde); }
            let base = pde & ADDR_MASK;
            let mut i: u64 = 0;
            while i < 512
                invariant
                    mem.wf(),
                    base < 0x0010_0000_0000_0000,
                    i <= 512,
                    forall|j: int| #[trigger] old(mem).is_free(j) ==> mem.is_free(j),
                    forall|w: int| #[trigger] mem.word(w) == m0.word(w),
                    forall|j: int| #[trigger] m0.is_free(j) ==> mem.is_free(j),
                    forall|k: int| 0 <= k < i ==> #[trigger] frame_freed(mem, (base + k * 4096) as u64),
                    base % 4096 == 0,
                    forall|j: int| #[trigger] mem.is_free(j) && !m0.is_free(j) ==>
                        spec_frame_idx(base as int) <= j < spec_frame_idx(base as int) + i,
                decreases 512 - i,
            {
                let ghost prev = *mem;
                mem.free_frame(base + i * 4096);
                proof {
                    assert(spec_frame_idx(base + i * 4096) == spec_frame_idx(base as int) + i);
                    assert forall|j: int| #[trigger] mem.is_free(j) && !m0.is_free(j) implies
                        spec_frame_idx(base as int) <= j < spec_frame_idx(base as int) + i + 1 by {
                        assert(prev.is_free(j) || j == spec_frame_idx(base + i * 4096));
                    }
                    assert forall|j: int| #[trigger] old(mem).is_free(j) implies mem.is_free(j) by {
                        assert(prev.is_free(j));
                    }
                    assert forall|j: int| #[trigger] m0.is_free(j) implies mem.is_free(j) by {
                        assert(prev.is_free(j));
                    }
                    assert forall|w: int| #[trigger] mem.word(w) == m0.word(w) by {
                        assert(mem.word(w) == prev.word(w));
                    }
                    assert forall|k: int| 0 <= k < i + 1 implies #[trigger] frame_freed(mem, (base + k * 4096) as u64) by {
                        if k < i {
                            assert(frame_freed(&prev, (base + k * 4096) as u64));
                        }
                    }
                }
                i += 1;
            }
            let ghost freed = *mem;
            mem.write_pt_entry(pd, i2, 0);
            let next = (va & 0xFFFF_FFFF_FFE0_0000u64) + 0x20_0000;
            proof {
                let w0 = pd / 8 + i2;
                assert(m0.word(w0) == pde);
                assert(old(mem).word(w0) == pde) by {
                    if m0.word(w0) != old(mem).word(w0) {
                        assert(leaf_unmapped(old(mem), &m0, w0));
                    }
                }
                assert forall|w: int| #[trigger] mem.word(w) != old(mem).word(w) implies leaf_unmapped(old(mem), mem, w) by {
                    if w == w0 {
                        assert(frame_freed(&freed, (base + 0 * 4096) as u64));
                    } else {
                        assert(mem.word(w) == m0.word(w));
                        assert(leaf_unmapped(old(mem), &m0, w));
                    }
                }
                assert forall|w: int| #[trigger] mem.word(w) != m0.word(w) implies mem.word(w) == 0 by {}
                assert forall|a: u64| vaddr <= a && a < next && a < vaddr + len && a < USER_VADDR_END implies !#[trigger] mapped_small(mem, pml4_phys, a) by {
                    if a >= va {
                        lemma_region_steps(va, a);
                        lemma_same_region(a, va);
                    } else {
                        lemma_unmapped_kept(&m0, mem, pml4_phys, a);
                    }
                }
                lemma_walk_from_old(old(mem), &m0, pml4_phys, va);
                assert(walk_leaf_word(old(mem), pml4_phys, va, w0));
                assert(va < next);
                assert forall|w: int| #[trigger] mem.word(w) != old(mem).word(w) implies exists|a: u64| page_floor(vaddr) <= a && a < end
                    && a < next && a < USER_VADDR_END && #[trigger] walk_leaf_word(old(mem), pml4_phys, a, w) by {
                    if w != w0 {
                        assert(m0.word(w) != old(mem).word(w));
                    }
                }
                assert forall|j: int| #[trigger] mem.is_free(j) && !old(mem).is_free(j) implies freed_from_leaves(old(mem), mem, j) by {
                    if m0.is_free(j) {
                        let w = choose|w: int| #[trigger] m0.word(w) != old(mem).word(w) && leaf_frame(old(mem).word(w), j);
                        assert(w != w0);
                        assert(mem.word(w) != old(mem).word(w));
                    } else {
                        assert(freed.is_free(j));
                        assert(mem.word(w0) != old(mem).word(w0) && leaf_frame(old(mem).word(w0), j));
                    }
                }
                assert forall|w: int| #[trigger] mem.word(w) != old(mem).word(w) && only_large_leaf(old(mem), pml4_phys, vaddr, len, w)
                    implies large_page_freed(mem, old(mem).word(w)) by {
                    if w == w0 {
                        assert forall|k: int| 0 <= k < 512 implies #[trigger] frame_freed(mem, (entry_addr(pde) + k * 4096) as u64) by {
                            assert(frame_freed(&freed, (base + k * 4096) as u64));
                        }
                    } else {
                        assert(m0.word(w) != old(mem).word(w));
                        assert(large_page_freed(&m0, old(mem).word(w)));
                        assert forall|k: int| 0 <= k < 512 implies #[trigger] frame_freed(mem, (entry_addr(old(mem).word(w)) + k * 4096) as u64) by {
                            assert(frame_freed(&m0, (entry_addr(old(mem).word(w)) + k * 4096) as u64));
                        }
                    }
                }
            }
            va = next;
            continue;
        }
        proof { lemma_mask_aligned(pde); }
        let pt = pde & ADDR_MASK;

        let pte = mem.read_pt_entry(pt, i1);
        if pte & page_flags::PRESENT != 0 {
            let frame = pte & ADDR_MASK;
            let ghost prev = *mem;
            mem.free_frame(frame);
            let ghost mid = *mem;
            assert forall|j: int| #[trigger] old(mem).is_free(j) implies mem.is_free(j) by {
                assert(prev.is_free(j));
            }
            mem.write_pt_entry(pt, i1, 0);
            proof {
                let w0 = pt / 8 + i1;
                assert(old(mem).word(w0) == pte) by {
                    if m0.word(w0) != old(mem).word(w0) {
                        assert(leaf_unmapped(old(mem), &m0, w0));
                    }
                }
                assert forall|w: int| #[trigger] mem.word(w) != old(mem).word(w) implies leaf_unmapped(old(mem), mem, w) by {
                    if w != w0 {
                        assert(mid.word(w) == prev.word(w));
                        assert(leaf_unmapped(old(mem), &m0, w));
                    } else {
                        assert(frame_freed(&mid, frame));
                    }
                }
                lemma_walk_from_old(old(mem), &m0, pml4_phys, va);
                assert(walk_leaf_word(old(mem), pml4_phys, va, w0));
                assert forall|w: int| #[trigger] mem.word(w) != old(mem).word(w) implies exists|a: u64| page_floor(vaddr) <= a && a < end
                    && a < va + 4096 && a < USER_VADDR_END && #[trigger] walk_leaf_word(old(mem), pml4_phys, a, w) by {
                    if w != w0 {
                        assert(mid.word(w) == prev.word(w));
                        assert(m0.word(w) != old(mem).word(w));
                    }
                }
                assert forall|j: int| #[trigger] mem.is_free(j) && !old(mem).is_free(j) implies freed_from_leaves(old(mem), mem, j) by {
                    if m0.is_free(j) {
                        let w = choose|w: int| #[trigger] m0.word(w) != old(mem).word(w) && leaf_frame(old(mem).word(w), j);
                        assert(w != w0);
                        assert(mid.word(w) == prev.word(w));
                        assert(mem.word(w) != old(mem).word(w));
                    } else {
                        assert(j == spec_frame_idx(frame as int));
                        assert(mem.word(w0) != old(mem).word(w0) && leaf_frame(old(mem).word(w0), j));
                    }
                }
                assert(walk_pt_word(old(mem), pml4_phys, va, w0));
                assert forall|w: int| #[trigger] mem.word(w) != old(mem).word(w) && only_large_leaf(old(mem), pml4_phys, vaddr, len, w)
                    implies large_page_freed(mem, old(mem).word(w)) by {
                    if w == w0 {
                        assert(page_floor(vaddr) <= va && va < munmap_end(vaddr, len) && va < USER_VADDR_END);
                    } else {
                        assert(mid.word(w) == prev.word(w));
                        assert(m0.word(w) != old(mem).word(w));
                        assert(large_page_freed(&m0, old(mem).word(w)));
                        assert forall|k: int| 0 <= k < 512 implies #[trigger] frame_freed(mem, (entry_addr(old(mem).word(w)) + k * 4096) as u64) by {
                            assert(frame_freed(&m0, (entry_addr(old(mem).word(w)) + k * 4096) as u64));
                        }
                    }
                }
            }
        }
        proof {
            assert forall|w: int| #[trigger] mem.word(w) != m0.word(w) implies mem.word(w) == 0 by {}
            assert forall|a: u64| vaddr <= a && a < va + 4096 && a < vaddr + len && a < USER_VADDR_END implies !#[trigger] mapped_small(mem, pml4_phys, a) by {
                if a >= va {
                    lemma_region_steps(va, a);
                    lemma_same_region(a, va);
                } else {
                    lemma_unmapped_kept(&m0, mem, pml4_phys, a);
                }
            }
        }
        va = va + 4096;
    }
}

} // verus!

verus! {

/// Whether an entry maps a large page (bit 7).
pub open spec fn is_large(e: u64) -> bool {
    e & 0x80u64 != 0
}

/// The frame at `a` is free in `m`, if `a` is a managed address.
pub open spec fn frame_freed(m: &PhysicalMemory, a: u64) -> bool {
    PHYS_MEM_START <= a < PHYS_MEM_END ==> m.is_free(spec_frame_idx(a as int))
}

/// Every page table that the first `n` entries of the PD at `pd` (as
/// `src` holds it) point to is free in `m`.
pub open spec fn pd_tables_freed(src: &PhysicalMemory, m: &PhysicalMemory, pd: u64, n: int) -> bool {
    forall|i: int| 0 <= i < n ==> {
        let e = #[trigger] src.entry(pd, i);
        is_present(e) && !is_large(e) ==> frame_freed(m, entry_addr(e))
    }
}

/// Every table below the first `n` entries of the PDPT at `pdpt` is free
/// in `m`.
pub open spec fn pdpt_tables_freed(src: &PhysicalMemory, m: &PhysicalMemory, pdpt: u64, n: int) -> bool {
    forall|i: int| 0 <= i < n ==> {
        let e = #[trigger] src.entry(pdpt, i);
        is_present(e) && !is_large(e) ==> frame_freed(m, entry_addr(e)) && pd_tables_freed(src, m, entry_addr(e), 512)
    }
}

/// Every table below the first `n` entries of the PML4 at `pml4` is free
/// in `m`.
pub open spec fn pml4_tables_freed(src: &PhysicalMemory, m: &PhysicalMemory, pml4: u64, n: int) -> bool {
    forall|i: int| 0 <= i < n ==> {
        let e = #[trigger] src.entry(pml4, i);
        is_present(e) ==> frame_freed(m, entry_addr(e)) && pdpt_tables_freed(src, m, entry_addr(e), 512)
    }
}

/// Frame `j` holds a table of the tree rooted at `pml4` in `m`: the PML4,
/// a PDPT, or a PD or PT reached through entries that are present and not
/// large pages.
pub open spec fn tree_frame(m: &PhysicalMemory, pml4: u64, j: int) -> bool {
    ||| j == spec_frame_idx(pml4 as int)
    ||| exists|i4: int| 0 <= i4 < 512 && #[trigger] is_present(m.entry(pml4, i4)) && {
            let t3 = entry_addr(m.entry(pml4, i4));
            ||| j == spec_frame_idx(t3 as int)
            ||| exists|i3: int| 0 <= i3 < 512 && is_present(#[trigger] m.entry(t3, i3)) && !is_large(m.entry(t3, i3)) && {
                    let t2 = entry_addr(m.entry(t3, i3));
                    ||| j == spec_frame_idx(t2 as int)
                    ||| exists|i2: int| 0 <= i2 < 512 && is_present(#[trigger] m.entry(t2, i2)) && !is_large(m.entry(t2, i2))
                            && j == spec_frame_idx(entry_addr(m.entry(t2, i2)) as int)
                }
        }
}

proof fn lemma_tables_freed_grow(src: &PhysicalMemory, a: &PhysicalMemory, b: &PhysicalMemory, pml4: u64, n4: int)
    requires
        forall|j: int| #[trigger] a.is_free(j) ==> b.is_free(j),
        pml4_tables_freed(src, a, pml4, n4),
    ensures
        pml4_tables_freed(src, b, pml4, n4),
{
    assert forall|i: int| 0 <= i < n4 implies {
        let e = #[trigger] src.entry(pml4, i);
        is_present(e) ==> frame_freed(b, entry_addr(e)) && pdpt_tables_freed(src, b, entry_addr(e), 512)
    } by {
        let e = src.entry(pml4, i);
        if is_present(e) {
            lemma_pdpt_freed_grow(src, a, b, entry_addr(e), 512);
        }
    }
}

proof fn lemma_pdpt_freed_grow(src: &PhysicalMemory, a: &PhysicalMemory, b: &PhysicalMemory, pdpt: u64, n3: int)
    requires
        forall|j: int| #[trigger] a.is_free(j) ==> b.is_free(j),
        pdpt_tables_freed(src, a, pdpt, n3),
    ensures
        pdpt_tables_freed(src, b, pdpt, n3),
{
    assert forall|i: int| 0 <= i < n3 implies {
        let e = #[trigger] src.entry(pdpt, i);
        is_present(e) && !is_large(e) ==> frame_freed(b, entry_addr(e)) && pd_tables_freed(src, b, entry_addr(e), 512)
    } by {
        let e = src.entry(pdpt, i);
        if is_present(e) && !is_large(e) {
            lemma_pd_freed_grow(src, a, b, entry_addr(e), 512);
        }
    }
}

proof fn lemma_pd_freed_grow(src: &PhysicalMemory, a: &PhysicalMemory, b: &PhysicalMemory, pd: u64, n2: int)
    requires
        forall|j: int| #[trigger] a.is_free(j) ==> b.is_free(j),
        pd_tables_freed(src, a, pd, n2),
    ensures
        pd_tables_freed(src, b, pd, n2),
{
}

/// Free the frame at `a` in `mem`, keeping the facts that free only grows
/// and that every frame freed since `m0` holds a table of the tree.
fn free_tree_frame(mem: &mut PhysicalMemory, Ghost(m0): Ghost<PhysicalMemory>, pml4: u64, a: u64)
    requires
        old(mem).wf(),
        old(mem).same_ram(&m0),
        forall|j: int| #[trigger] m0.is_free(j) ==> old(mem).is_free(j),
        forall|j: int| #[trigger] old(mem).is_free(j) ==> m0.is_free(j) || tree_frame(&m0, pml4, j),
        tree_frame(&m0, pml4, spec_frame_idx(a as int)),
    ensures
        final(mem).wf(),
        final(mem).same_ram(&m0),
        forall|j: int| #[trigger] old(mem).is_free(j) ==> final(mem).is_free(j),
        forall|j: int| #[trigger] final(mem).is_free(j) ==> m0.is_free(j) || tree_frame(&m0, pml4, j),
        frame_freed(final(mem), a),
{
    mem.free_frame(a);
}

/// Free every page-table frame of the address space rooted at `pml4_phys`:
/// the PML4, each PDPT, and each PD and PT reached through entries that are
/// present and not large pages. The frames that they map are left alone,
/// and so is RAM.
///
/// Afterwards every such table's frame is free, and every frame that became
/// free holds one of them.
pub fn free_page_table_tree(mem: &mut PhysicalMemory, pml4_phys: u64)
    requires
        old(mem).wf(),
        pml4_phys % 4096 == 0,
    ensures
        final(mem).wf(),
        final(mem).same_ram(old(mem)),
        forall|j: int| #[trigger] old(mem).is_free(j) ==> final(mem).is_free(j),
        forall|j: int| #[trigger] final(mem).is_free(j) ==> old(mem).is_free(j) || tree_frame(old(mem), pml4_phys, j),
        frame_freed(final(mem), pml4_phys),
        pml4_tables_freed(old(mem), final(mem), pml4_phys, 512),
{
    let ghost m0 = *old(mem);
    let mut i4: usize = 0;
    while i4 < PT_ENTRIES
        invariant
            mem.wf(),
            pml4_phys % 4096 == 0,
            i4 <= PT_ENTRIES,
            mem.same_ram(&m0),
            forall|j: int| #[trigger] m0.is_free(j) ==> mem.is_free(j),
            forall|j: int| #[trigger] mem.is_free(j) ==> m0.is_free(j) || tree_frame(&m0, pml4_phys, j),
            pml4_tables_freed(&m0, mem, pml4_phys, i4 as int),
        decreases PT_ENTRIES - i4,
    {
        let pml4e = mem.read_pt_entry(pml4_phys, i4);
        assert(pml4e == m0.entry(pml4_phys, i4 as int));
        if pml4e & page_flags::PRESENT == 0 {
            i4 += 1;
            continue;
        }
        proof { lemma_mask_aligned(pml4e); }
        let pdpt = pml4e & ADDR_MASK;
        let ghost at4 = *mem;
        let mut i3: usize = 0;
        while i3 < PT_ENTRIES
            invariant
                mem.wf(),
                pml4_phys % 4096 == 0,
                pdpt % 4096 == 0,
                i4 < PT_ENTRIES,
                pml4e == m0.entry(pml4_phys, i4 as int),
                is_present(pml4e),
                pdpt == entry_addr(pml4e),
                i3 <= PT_ENTRIES,
                mem.same_ram(&m0),
                forall|j: int| #[trigger] m0.is_free(j) ==> mem.is_free(j),
                forall|j: int| #[trigger] at4.is_free(j) ==> mem.is_free(j),
                forall|j: int| #[trigger] mem.is_free(j) ==> m0.is_free(j) || tree_frame(&m0, pml4_phys, j),
                pml4_tables_freed(&m0, &at4, pml4_phys, i4 as int),
                pdpt_tables_freed(&m0, mem, pdpt, i3 as int),
            decreases PT_ENTRIES - i3,
        {
            let pdpte = mem.read_pt_entry(pdpt, i3);
            assert(pdpte == m0.entry(pdpt, i3 as int));
            if pdpte & page_flags::PRESENT == 0 || pdpte & page_flags::LARGE != 0 {
                i3 += 1;
                continue;
            }
            proof { lemma_mask_aligned(pdpte); }
            let pd = pdpte & ADDR_MASK;
            let ghost at3 = *mem;
            let mut i2: usize = 0;
            while i2 < PT_ENTRIES
                invariant
                    mem.wf(),
                    pd % 4096 == 0,
                    i4 < PT_ENTRIES,
                    i3 < PT_ENTRIES,
                    pml4e == m0.entry(pml4_phys, i4 as int),
                    is_present(pml4e),
                    pdpt == entry_addr(pml4e),
                    pdpte == m0.entry(pdpt, i3 as int),
                    is_present(pdpte) && !is_large(pdpte),
                    pd == entry_addr(pdpte),
                    i2 <= PT_ENTRIES,
                    mem.same_ram(&m0),
                    forall|j: int| #[trigger] m0.is_free(j) ==> mem.is_free(j),
                    forall|j: int| #[trigger] at3.is_free(j) ==> mem.is_free(j),
                    forall|j: int| #[trigger] mem.is_free(j) ==> m0.is_free(j) || tree_frame(&m0, pml4_phys, j),
                    pdpt_tables_freed(&m0, &at3, pdpt, i3 as int),
                    pd_tables_freed(&m0, mem, pd, i2 as int),
                decreases PT_ENTRIES - i2,
            {
                let pde = mem.read_pt_entry(pd, i2);
                assert(pde == m0.entry(pd, i2 as int));
                if pde & page_flags::PRESENT == 0 || pde & page_flags::LARGE != 0 {
                    i2 += 1;
                    continue;
                }
                proof { lemma_mask_aligned(pde); }
                let pt = pde & ADDR_MASK;
                let ghost before = *mem;
                proof {
                    assert(is_present(m0.entry(pml4_phys, i4 as int)));
                    assert(is_present(m0.entry(pdpt, i3 as int)));
                    assert(is_present(m0.entry(pd, i2 as int)));
                    assert(tree_frame(&m0, pml4_phys, spec_frame_idx(pt as int)));
                }
                free_tree_frame(mem, Ghost(m0), pml4_phys, pt);
                proof { lemma_pd_freed_grow(&m0, &before, mem, pd, i2 as int); }
                i2 += 1;
            }
            let ghost before = *mem;
            proof {
                assert(is_present(m0.entry(pml4_phys, i4 as int)));
                assert(is_present(m0.entry(pdpt, i3 as int)));
                assert(tree_frame(&m0, pml4_phys, spec_frame_idx(pd as int)));
            }
            free_tree_frame(mem, Ghost(m0), pml4_phys, pd);
            proof {
                lemma_pd_freed_grow(&m0, &before, mem, pd, 512);
                lemma_pdpt_freed_grow(&m0, &at3, mem, pdpt, i3 as int);
            }
            i3 += 1;
        }
        let ghost before = *mem;
        proof {
            assert(is_present(m0.entry(pml4_phys, i4 as int)));
            assert(tree_frame(&m0, pml4_phys, spec_frame_idx(pdpt as int)));
        }
        free_tree_frame(mem, Ghost(m0), pml4_phys, pdpt);
        proof {
            lemma_pdpt_freed_grow(&m0, &before, mem, pdpt, 512);
            lemma_tables_freed_grow(&m0, &at4, mem, pml4_phys, i4 as int);
        }
        i4 += 1;
    }
    let ghost before = *mem;
    free_tree_frame(mem, Ghost(m0), pml4_phys, pml4_phys);
    proof { lemma_tables_freed_grow(&m0, &before, mem, pml4_phys, 512); }
}

} // verus!

verus! {

/// Below any free frame there is a lowest free frame.
pub proof fn lemma_lowest_free_exists(m: &PhysicalMemory, j: int)
    requires
        m.is_free(j),
    ensures
        exists|k: int| #[trigger] m.lowest_free(k),
    decreases j,
{
    if !m.lowest_free(j) {
        let i = choose|i: int| 0 <= i < j && #[trigger] m.is_free(i);
        lemma_lowest_free_exists(m, i);
    }
}

/// There is at most one lowest free frame.
pub proof fn lemma_lowest_free_unique(m: &PhysicalMemory, k0: int)
    requires
        m.lowest_free(k0),
    ensures
        forall|k: int| #[trigger] m.lowest_free(k) ==> k == k0,
{
    assert forall|k: int| #[trigger] m.lowest_free(k) implies k == k0 by {
        if k < k0 {
            assert(!m.is_free(k));
        }
        if k0 < k {
            assert(!m.is_free(k0));
        }
    }
}

/// The layout of a fresh address space survives a change of RAM confined
/// to a frame that was free, as its four tables were in use.
pub proof fn lemma_layout_kept(a: &PhysicalMemory, b: &PhysicalMemory, pml4: u64, code: u64, k: int)
    requires
        address_space_layout(a, pml4, code),
        table_in_use(a, pml4),
        table_in_use(a, entry_addr(a.entry(pml4, 0))),
        table_in_use(a, entry_addr(a.entry(entry_addr(a.entry(pml4, 0)), 0))),
        table_in_use(a, entry_addr(a.entry(entry_addr(a.entry(entry_addr(a.entry(pml4, 0)), 0)), 2))),
        a.is_free(k),
        b.same_words_except_frame(a, k),
    ensures
        address_space_layout(b, pml4, code),
{
    let pdpt = entry_addr(a.entry(pml4, 0));
    let pd = entry_addr(a.entry(pdpt, 0));
    let pt = entry_addr(a.entry(pd, 2));
    assert forall|t: u64, i: int| table_in_use(a, t) && 0 <= i < 512 implies #[trigger] b.entry(t, i) == a.entry(t, i) by {
        lemma_table_word_frame(t, i);
        assert(spec_frame_idx(t as int) != k);
        assert(t / 8 == spec_frame_addr(spec_frame_idx(t as int)) / 8);
    }
}

} // verus!

verus! {

/// Freeing the frame that an allocation took gives back the free frames,
/// and their number, as they were before the allocation.
pub proof fn law_alloc_free_round_trip(a: &PhysicalMemory, b: &PhysicalMemory, c: &PhysicalMemory, k: int)
    requires
        a.lowest_free(k),
        !b.is_free(k),
        b.same_free_except(a, k),
        c.is_free(k),
        c.same_free_except(b, k),
    ensures
        forall|j: int| #[trigger] c.is_free(j) == a.is_free(j),
        c.free_count() == a.free_count(),
{
    assert forall|j: int| #[trigger] c.is_free(j) == a.is_free(j) by {
        if j != k {
            assert(c.is_free(j) == b.is_free(j));
        }
    }
    PhysicalMemory::lemma_free_count_same(c, a);
}

} // verus!
