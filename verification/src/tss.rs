//! The 64-bit Task State Segment: the kernel stack (RSP0) and the
//! double-fault stack (IST1) the CPU switches to on entry from ring 3, the
//! I/O permission map base, and its 16-byte GDT descriptor.

use vstd::prelude::*;
use vstd::bytes::{spec_u64_to_le_bytes, spec_u64_from_le_bytes, u64_to_le_bytes, u64_from_le_bytes,
    spec_u16_to_le_bytes, u16_to_le_bytes, lemma_auto_spec_u64_to_from_le_bytes};

verus! {

/// Size of a 64-bit TSS in bytes.
pub const TSS_SIZE: usize = 104;

/// Byte offset of RSP0.
pub const RSP0_OFFSET: usize = 4;
/// Byte offset of IST1.
pub const IST1_OFFSET: usize = 36;
/// Byte offset of the I/O map base.
pub const IOPB_OFFSET: usize = 102;

/// The raw bytes of a TSS.
pub struct TaskStateSegment {
    data: [u8; 104],
}

/// `s` with the bytes at `off..off + b.len()` replaced by `b`.
pub open spec fn splice(s: Seq<u8>, off: int, b: Seq<u8>) -> Seq<u8> {
    s.subrange(0, off) + b + s.subrange(off + b.len(), s.len() as int)
}

impl TaskStateSegment {
    /// The bytes of the TSS.
    pub closed spec fn view(&self) -> Seq<u8> {
        self.data@
    }

    /// A TSS always holds `TSS_SIZE` bytes.
    pub proof fn lemma_len(&self)
        ensures
            self@.len() == TSS_SIZE,
    {
    }

    /// A zeroed TSS.
    pub fn new() -> (t: Self)
        ensures
            t@ == Seq::new(TSS_SIZE as nat, |i: int| 0u8),
    {
        let t = TaskStateSegment { data: [0u8; 104] };
        assert(t@ =~= Seq::new(TSS_SIZE as nat, |i: int| 0u8));
        t
    }

    /// Write `b` at byte offset `off`.
    fn write_bytes(&mut self, off: usize, b: &Vec<u8>)
        requires
            off + b@.len() <= TSS_SIZE,
        ensures
            final(self)@ == splice(old(self)@, off as int, b@),
    {
        let mut i: usize = 0;
        while i < b.len()
            invariant
                off + b@.len() <= TSS_SIZE,
                i <= b@.len(),
                self.data@.len() == TSS_SIZE,
                forall|k: int| 0 <= k < TSS_SIZE ==> #[trigger] self.data@[k] ==
                    if off <= k < off + i { b@[k - off] } else { old(self).data@[k] },
            decreases b@.len() - i,
        {
            self.data[off + i] = b[i];
            i += 1;
        }
        assert(self@ =~= splice(old(self)@, off as int, b@));
    }

    /// Read the 8 bytes at offset `off` as a little-endian word.
    fn read_u64(&self, off: usize) -> (v: u64)
        requires
            off + 8 <= TSS_SIZE,
        ensures
            v == spec_u64_from_le_bytes(self@.subrange(off as int, off + 8)),
    {
        let mut bytes: Vec<u8> = Vec::new();
        let mut i: usize = 0;
        while i < 8
            invariant
                off + 8 <= TSS_SIZE,
                i <= 8,
                bytes@ == self@.subrange(off as int, off + i),
            decreases 8 - i,
        {
            bytes.push(self.data[off + i]);
            assert(bytes@ =~= self@.subrange(off as int, off + i + 1));
            i += 1;
        }
        u64_from_le_bytes(bytes.as_slice())
    }

    /// Set RSP0, the stack for ring 3 to ring 0 transitions (bytes 4..12,
    /// little-endian).
    pub fn set_kernel_stack(&mut self, rsp: u64)
        ensures
            final(self)@ == splice(old(self)@, RSP0_OFFSET as int, spec_u64_to_le_bytes(rsp)),
    {
        let bytes = u64_to_le_bytes(rsp);
        self.write_bytes(RSP0_OFFSET, &bytes);
    }

    /// Point RSP0 at a process's kernel stack (same field as
    /// `set_kernel_stack`).
    pub fn set_rsp0(&mut self, rsp0: u64)
        ensures
            final(self)@ == splice(old(self)@, RSP0_OFFSET as int, spec_u64_to_le_bytes(rsp0)),
    {
        let bytes = u64_to_le_bytes(rsp0);
        self.write_bytes(RSP0_OFFSET, &bytes);
    }

    /// Set the I/O map base (bytes 102..104, little-endian).
    pub fn set_iopb(&mut self, offset: u16)
        ensures
            final(self)@ == splice(old(self)@, IOPB_OFFSET as int, spec_u16_to_le_bytes(offset)),
    {
        let bytes = u16_to_le_bytes(offset);
        self.write_bytes(IOPB_OFFSET, &bytes);
    }

    /// Set IST1, the double-fault stack (bytes 36..44, little-endian).
    pub fn set_ist1(&mut self, stack_top: u64)
        ensures
            final(self)@ == splice(old(self)@, IST1_OFFSET as int, spec_u64_to_le_bytes(stack_top)),
    {
        let bytes = u64_to_le_bytes(stack_top);
        self.write_bytes(IST1_OFFSET, &bytes);
    }

    /// RSP0 as stored.
    pub fn rsp0(&self) -> (v: u64)
        ensures
            v == spec_u64_from_le_bytes(self@.subrange(RSP0_OFFSET as int, RSP0_OFFSET + 8)),
    {
        self.read_u64(RSP0_OFFSET)
    }

    /// IST1 as stored.
    pub fn ist1(&self) -> (v: u64)
        ensures
            v == spec_u64_from_le_bytes(self@.subrange(IST1_OFFSET as int, IST1_OFFSET + 8)),
    {
        self.read_u64(IST1_OFFSET)
    }
}

/// A stored stack pointer reads back as written: RSP0 after setting RSP0,
/// IST1 after setting IST1, whatever else the TSS holds.
pub proof fn law_tss_round_trip(t: Seq<u8>, x: u64)
    requires
        t.len() == TSS_SIZE,
    ensures
        spec_u64_from_le_bytes(splice(t, RSP0_OFFSET as int, spec_u64_to_le_bytes(x)).subrange(4, 12)) == x,
        spec_u64_from_le_bytes(splice(t, IST1_OFFSET as int, spec_u64_to_le_bytes(x)).subrange(36, 44)) == x,
{
    lemma_auto_spec_u64_to_from_le_bytes();
    assert(splice(t, RSP0_OFFSET as int, spec_u64_to_le_bytes(x)).subrange(4, 12) =~= spec_u64_to_le_bytes(x));
    assert(splice(t, IST1_OFFSET as int, spec_u64_to_le_bytes(x)).subrange(36, 44) =~= spec_u64_to_le_bytes(x));
}

/// Setting IST1 or the I/O map base leaves RSP0 alone, and setting RSP0
/// leaves IST1 alone.
pub proof fn law_tss_fields_independent(t: Seq<u8>, x: u64, o: u16)
    requires
        t.len() == TSS_SIZE,
    ensures
        splice(t, IST1_OFFSET as int, spec_u64_to_le_bytes(x)).subrange(4, 12) == t.subrange(4, 12),
        splice(t, IOPB_OFFSET as int, spec_u16_to_le_bytes(o)).subrange(4, 12) == t.subrange(4, 12),
        splice(t, RSP0_OFFSET as int, spec_u64_to_le_bytes(x)).subrange(36, 44) == t.subrange(36, 44),
{
    lemma_auto_spec_u64_to_from_le_bytes();
    vstd::bytes::lemma_auto_spec_u16_to_from_le_bytes();
    assert(splice(t, IST1_OFFSET as int, spec_u64_to_le_bytes(x)).subrange(4, 12) =~= t.subrange(4, 12));
    assert(splice(t, IOPB_OFFSET as int, spec_u16_to_le_bytes(o)).subrange(4, 12) =~= t.subrange(4, 12));
    assert(splice(t, RSP0_OFFSET as int, spec_u64_to_le_bytes(x)).subrange(36, 44) =~= t.subrange(36, 44));
}

/// Access byte of an available 64-bit TSS descriptor: present, DPL 0.
pub const TSS_ACCESS: u8 = 0x89;

/// The 16 bytes of the GDT descriptor of a TSS at `base` with limit
/// `TSS_SIZE - 1`.
pub open spec fn tss_descriptor_bytes(base: u64) -> Seq<u8> {
    seq![
        103u8, 0u8,
        (base & 0xff) as u8, ((base >> 8u64) & 0xff) as u8, ((base >> 16u64) & 0xff) as u8,
        TSS_ACCESS, 0u8,
        ((base >> 24u64) & 0xff) as u8,
        ((base >> 32u64) & 0xff) as u8, ((base >> 40u64) & 0xff) as u8,
        ((base >> 48u64) & 0xff) as u8, ((base >> 56u64) & 0xff) as u8,
        0u8, 0u8, 0u8, 0u8,
    ]
}

/// The two GDT words (entries 5 and 6) of the descriptor of a TSS at
/// `tss_base`: their little-endian bytes are `tss_descriptor_bytes`.
pub fn tss_descriptor(tss_base: u64) -> (r: (u64, u64))
    ensures
        spec_u64_to_le_bytes(r.0) + spec_u64_to_le_bytes(r.1) == tss_descriptor_bytes(tss_base),
{
    let limit: u64 = (TSS_SIZE - 1) as u64;
    let mut desc: Vec<u8> = Vec::new();
    desc.push((limit & 0xff) as u8);
    desc.push(((limit >> 8) & 0xff) as u8);
    desc.push((tss_base & 0xff) as u8);
    desc.push(((tss_base >> 8) & 0xff) as u8);
    desc.push(((tss_base >> 16) & 0xff) as u8);
    desc.push(TSS_ACCESS);
    desc.push((((limit >> 16) & 0xff) as u8) & 0x0F);
    desc.push(((tss_base >> 24) & 0xff) as u8);
    desc.push(((tss_base >> 32) & 0xff) as u8);
    desc.push(((tss_base >> 40) & 0xff) as u8);
    desc.push(((tss_base >> 48) & 0xff) as u8);
    desc.push(((tss_base >> 56) & 0xff) as u8);
    desc.push(0u8);
    desc.push(0u8);
    desc.push(0u8);
    desc.push(0u8);
    proof { crate::bitops::lemma_flag_constants(); }
    assert(desc@ =~= tss_descriptor_bytes(tss_base));
    let low = u64_from_le_bytes(&desc.as_slice()[0..8]);
    let high = u64_from_le_bytes(&desc.as_slice()[8..16]);
    proof {
        lemma_auto_spec_u64_to_from_le_bytes();
        assert(desc@.subrange(0, 8) + desc@.subrange(8, 16) =~= desc@);
    }
    (low, high)
}

/// Set up `tss` for entries from ring 3 and build its GDT descriptor:
/// RSP0 is the kernel stack top, the I/O map base is `TSS_SIZE` (no I/O
/// port is open to user code), IST1 is the double-fault stack top; returns
/// the two GDT words of the descriptor of a TSS at `tss_base`.
pub fn init(tss: &mut TaskStateSegment, kernel_stack_top: u64, double_fault_stack_top: u64, tss_base: u64) -> (gdt: (u64, u64))
    ensures
        final(tss)@ == splice(
            splice(
                splice(old(tss)@, RSP0_OFFSET as int, spec_u64_to_le_bytes(kernel_stack_top)),
                IOPB_OFFSET as int, spec_u16_to_le_bytes(TSS_SIZE as u16)),
            IST1_OFFSET as int, spec_u64_to_le_bytes(double_fault_stack_top)),
        spec_u64_to_le_bytes(gdt.0) + spec_u64_to_le_bytes(gdt.1) == tss_descriptor_bytes(tss_base),
{
    tss.set_kernel_stack(kernel_stack_top);
    tss.set_iopb(TSS_SIZE as u16);
    tss.set_ist1(double_fault_stack_top);
    tss_descriptor(tss_base)
}

/// After `init`, RSP0 reads back the kernel stack top and IST1 the
/// double-fault stack top.
pub proof fn law_tss_init_reads_back(t: Seq<u8>, kernel_stack_top: u64, double_fault_stack_top: u64)
    requires
        t.len() == TSS_SIZE,
    ensures
        ({
            let after = splice(
                splice(
                    splice(t, RSP0_OFFSET as int, spec_u64_to_le_bytes(kernel_stack_top)),
                    IOPB_OFFSET as int, spec_u16_to_le_bytes(TSS_SIZE as u16)),
                IST1_OFFSET as int, spec_u64_to_le_bytes(double_fault_stack_top));
            &&& spec_u64_from_le_bytes(after.subrange(4, 12)) == kernel_stack_top
            &&& spec_u64_from_le_bytes(after.subrange(36, 44)) == double_fault_stack_top
        }),
{
    lemma_auto_spec_u64_to_from_le_bytes();
    vstd::bytes::lemma_auto_spec_u16_to_from_le_bytes();
    let t1 = splice(t, RSP0_OFFSET as int, spec_u64_to_le_bytes(kernel_stack_top));
    let t2 = splice(t1, IOPB_OFFSET as int, spec_u16_to_le_bytes(TSS_SIZE as u16));
    law_tss_round_trip(t, kernel_stack_top);
    law_tss_fields_independent(t1, double_fault_stack_top, TSS_SIZE as u16);
    law_tss_fields_independent(t2, double_fault_stack_top, TSS_SIZE as u16);
    law_tss_round_trip(t2, double_fault_stack_top);
}

/// Bytes of the kernel stack and of the double-fault stack.
pub const STACK_BYTES: usize = 4096;

/// The stack the CPU switches to (through RSP0) when user code traps into
/// the kernel, so that the kernel never runs on a user stack.
pub struct KernelStack {
    data: [u8; 4096],
}

impl KernelStack {
    /// A zeroed stack.
    pub fn new() -> (s: Self)
        ensures
            s@ == Seq::new(STACK_BYTES as nat, |i: int| 0u8),
    {
        let s = KernelStack { data: [0u8; 4096] };
        assert(s.data@ =~= Seq::new(STACK_BYTES as nat, |i: int| 0u8));
        s
    }
}

impl View for KernelStack {
    type V = Seq<u8>;

    closed spec fn view(&self) -> Seq<u8> {
        self.data@
    }
}

/// The stack of the double-fault handler (through IST1), so that a fault
/// caused by a corrupt stack pointer does not fault again.
pub struct DoubleFaultStack {
    data: [u8; 4096],
}

impl DoubleFaultStack {
    /// A zeroed stack.
    pub fn new() -> (s: Self)
        ensures
            s@ == Seq::new(STACK_BYTES as nat, |i: int| 0u8),
    {
        let s = DoubleFaultStack { data: [0u8; 4096] };
        assert(s.data@ =~= Seq::new(STACK_BYTES as nat, |i: int| 0u8));
        s
    }
}

impl View for DoubleFaultStack {
    type V = Seq<u8>;

    closed spec fn view(&self) -> Seq<u8> {
        self.data@
    }
}

} // verus!
