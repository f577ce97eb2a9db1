//! Marking a parent's page tables copy-on-write for fork: every present
//! user page of the tree and every large page loses its writable bit and
//! gains the COW bit in place, so that the first write by the parent
//! faults as the child's does.

use vstd::prelude::*;
use crate::paging::{PhysicalMemory, page_flags, ADDR_MASK, PT_ENTRIES, entry_addr, is_present, is_large,
    lemma_mask_aligned, lemma_table_word_frame, spec_frame_idx};
use crate::paging::cow::{cow_entry, pd_need, pdpt_need, pml4_need, tree_tables, src_pt_ok, src_pd_ok, src_pdpt_ok, src_tree_ok, only_free_changed,
    pt_copied, pd_copied, pdpt_copied, pml4_copied, pd_entry_copied, pdpt_entry_copied, pml4_entry_copied};

verus! {

/// Marking keeps what a walk reads of an entry: present and large bits,
/// the address and the user bit; and marking twice is marking once.
pub proof fn lemma_cow_shape(e: u64)
    ensures
        is_present(cow_entry(e)) == is_present(e),
        is_large(cow_entry(e)) == is_large(e),
        entry_addr(cow_entry(e)) == entry_addr(e),
        cow_entry(e) & 0x4u64 == e & 0x4u64,
        cow_entry(cow_entry(e)) == cow_entry(e),
        (e & !0x2u64) | 0x200u64 == cow_entry(e),
{
    assert({
        &&& (((e & 0xFFFF_FFFF_FFFF_FFFDu64) | 0x200u64) & 0x1u64 != 0) == (e & 0x1u64 != 0)
        &&& (((e & 0xFFFF_FFFF_FFFF_FFFDu64) | 0x200u64) & 0x80u64 != 0) == (e & 0x80u64 != 0)
        &&& ((e & 0xFFFF_FFFF_FFFF_FFFDu64) | 0x200u64) & 0x000F_FFFF_FFFF_F000u64 == e & 0x000F_FFFF_FFFF_F000u64
        &&& ((e & 0xFFFF_FFFF_FFFF_FFFDu64) | 0x200u64) & 0x4u64 == e & 0x4u64
        &&& ((((e & 0xFFFF_FFFF_FFFF_FFFDu64) | 0x200u64) & 0xFFFF_FFFF_FFFF_FFFDu64) | 0x200u64)
                == (e & 0xFFFF_FFFF_FFFF_FFFDu64) | 0x200u64
        &&& (e & !0x2u64) | 0x200u64 == (e & 0xFFFF_FFFF_FFFF_FFFDu64) | 0x200u64
    }) by (bit_vector);
}

/// From `a` to `b` no frame's state changed and RAM only changed by
/// present entries being marked copy-on-write.
pub open spec fn only_cow_marks(a: &PhysicalMemory, b: &PhysicalMemory) -> bool {
    &&& forall|j: int| #[trigger] b.is_free(j) == a.is_free(j)
    &&& forall|w: int| #[trigger] b.word(w) != a.word(w) ==> is_present(a.word(w)) && b.word(w) == cow_entry(a.word(w))
}

/// Every present user entry of the page table at `t` (as `m0` holds it)
/// is copy-on-write in `m`.
pub open spec fn pt_marked(m0: &PhysicalMemory, m: &PhysicalMemory, t: u64) -> bool {
    forall|i: int| 0 <= i < 512 ==> {
        let e = #[trigger] m0.entry(t, i);
        is_present(e) && e & 0x4u64 != 0 ==> m.entry(t, i) == cow_entry(e)
    }
}

/// Below the first `n` entries of the PD at `t`: large pages are
/// copy-on-write, and so are the user pages of the page tables it links.
pub open spec fn pd_marked(m0: &PhysicalMemory, m: &PhysicalMemory, t: u64, n: int) -> bool {
    forall|i: int| 0 <= i < n ==> {
        let e = #[trigger] m0.entry(t, i);
        is_present(e) ==> if is_large(e) { m.entry(t, i) == cow_entry(e) } else { pt_marked(m0, m, entry_addr(e)) }
    }
}

/// Below the first `n` entries of the PDPT at `t`, as for a PD.
pub open spec fn pdpt_marked(m0: &PhysicalMemory, m: &PhysicalMemory, t: u64, n: int) -> bool {
    forall|i: int| 0 <= i < n ==> {
        let e = #[trigger] m0.entry(t, i);
        is_present(e) ==> if is_large(e) { m.entry(t, i) == cow_entry(e) } else { pd_marked(m0, m, entry_addr(e), 512) }
    }
}

/// Below the first `n` entries of the PML4 at `t`, every large page and
/// every user page of the tree is copy-on-write in `m`.
pub open spec fn pml4_marked(m0: &PhysicalMemory, m: &PhysicalMemory, t: u64, n: int) -> bool {
    forall|i: int| 0 <= i < n ==> {
        let e = #[trigger] m0.entry(t, i);
        is_present(e) ==> pdpt_marked(m0, m, entry_addr(e), 512)
    }
}

proof fn lemma_marks_trans(a: &PhysicalMemory, b: &PhysicalMemory, c: &PhysicalMemory)
    requires
        only_cow_marks(a, b),
        only_cow_marks(b, c),
    ensures
        only_cow_marks(a, c),
{
    assert forall|w: int| #[trigger] c.word(w) != a.word(w) implies is_present(a.word(w)) && c.word(w) == cow_entry(a.word(w)) by {
        lemma_cow_shape(a.word(w));
        if c.word(w) != b.word(w) {
            lemma_cow_shape(b.word(w));
            if b.word(w) != a.word(w) {
                assert(b.word(w) == cow_entry(a.word(w)));
            }
        }
    }
}

/// A word marked copy-on-write stays so under further marking.
proof fn lemma_marked_word_kept(a: &PhysicalMemory, b: &PhysicalMemory, w: int, e: u64)
    requires
        only_cow_marks(a, b),
        a.word(w) == cow_entry(e),
    ensures
        b.word(w) == cow_entry(e),
{
    lemma_cow_shape(e);
}

/// An entry read under marking has the shape it had.
proof fn lemma_read_shape(m0: &PhysicalMemory, m: &PhysicalMemory, t: u64, i: int)
    requires
        only_cow_marks(m0, m),
    ensures
        is_present(m.entry(t, i)) == is_present(m0.entry(t, i)),
        is_large(m.entry(t, i)) == is_large(m0.entry(t, i)),
        entry_addr(m.entry(t, i)) == entry_addr(m0.entry(t, i)),
        m.entry(t, i) & 0x4u64 == m0.entry(t, i) & 0x4u64,
        cow_entry(m.entry(t, i)) == cow_entry(m0.entry(t, i)),
{
    lemma_cow_shape(m0.entry(t, i));
}

proof fn lemma_pt_marked_kept(m0: &PhysicalMemory, a: &PhysicalMemory, b: &PhysicalMemory, t: u64)
    requires
        only_cow_marks(a, b),
        pt_marked(m0, a, t),
    ensures
        pt_marked(m0, b, t),
{
    assert forall|i: int| 0 <= i < 512 implies {
        let e = #[trigger] m0.entry(t, i);
        is_present(e) && e & 0x4u64 != 0 ==> b.entry(t, i) == cow_entry(e)
    } by {
        let e = m0.entry(t, i);
        if is_present(e) && e & 0x4u64 != 0 {
            lemma_marked_word_kept(a, b, t / 8 + i, e);
        }
    }
}

proof fn lemma_pd_marked_kept(m0: &PhysicalMemory, a: &PhysicalMemory, b: &PhysicalMemory, t: u64, n: int)
    requires
        only_cow_marks(a, b),
        pd_marked(m0, a, t, n),
    ensures
        pd_marked(m0, b, t, n),
{
    assert forall|i: int| 0 <= i < n implies {
        let e = #[trigger] m0.entry(t, i);
        is_present(e) ==> if is_large(e) { b.entry(t, i) == cow_entry(e) } else { pt_marked(m0, b, entry_addr(e)) }
    } by {
        let e = m0.entry(t, i);
        if is_present(e) {
            if is_large(e) {
                lemma_marked_word_kept(a, b, t / 8 + i, e);
            } else {
                lemma_pt_marked_kept(m0, a, b, entry_addr(e));
            }
        }
    }
}

proof fn lemma_pdpt_marked_kept(m0: &PhysicalMemory, a: &PhysicalMemory, b: &PhysicalMemory, t: u64, n: int)
    requires
        only_cow_marks(a, b),
        pdpt_marked(m0, a, t, n),
    ensures
        pdpt_marked(m0, b, t, n),
{
    assert forall|i: int| 0 <= i < n implies {
        let e = #[trigger] m0.entry(t, i);
        is_present(e) ==> if is_large(e) { b.entry(t, i) == cow_entry(e) } else { pd_marked(m0, b, entry_addr(e), 512) }
    } by {
        let e = m0.entry(t, i);
        if is_present(e) {
            if is_large(e) {
                lemma_marked_word_kept(a, b, t / 8 + i, e);
            } else {
                lemma_pd_marked_kept(m0, a, b, entry_addr(e), 512);
            }
        }
    }
}

proof fn lemma_pml4_marked_kept(m0: &PhysicalMemory, a: &PhysicalMemory, b: &PhysicalMemory, t: u64, n: int)
    requires
        only_cow_marks(a, b),
        pml4_marked(m0, a, t, n),
    ensures
        pml4_marked(m0, b, t, n),
{
    assert forall|i: int| 0 <= i < n implies {
        let e = #[trigger] m0.entry(t, i);
        is_present(e) ==> pdpt_marked(m0, b, entry_addr(e), 512)
    } by {
        let e = m0.entry(t, i);
        if is_present(e) {
            lemma_pdpt_marked_kept(m0, a, b, entry_addr(e), 512);
        }
    }
}

/// Mark entry `i` of the table at `t` copy-on-write.
fn mark_entry(mem: &mut PhysicalMemory, Ghost(m0): Ghost<PhysicalMemory>, t: u64, i: usize, e: u64)
    requires
        old(mem).wf(),
        t % 4096 == 0,
        i < 512,
        e == old(mem).entry(t, i as int),
        is_present(e),
        only_cow_marks(&m0, old(mem)),
    ensures
        final(mem).wf(),
        only_cow_marks(old(mem), final(mem)),
        only_cow_marks(&m0, final(mem)),
        final(mem).entry(t, i as int) == cow_entry(m0.entry(t, i as int)),
{
    let v = (e & !page_flags::WRITABLE) | page_flags::COW;
    proof {
        lemma_cow_shape(e);
        lemma_read_shape(&m0, old(mem), t, i as int);
        crate::paging::lemma_zero_entry_absent();
    }
    mem.write_pt_entry(t, i, v);
    proof {
        lemma_marks_trans(&m0, old(mem), mem);
    }
}

/// Mark the present user entries of the page table at `t`.
fn mark_pt(mem: &mut PhysicalMemory, Ghost(m0): Ghost<PhysicalMemory>, t: u64)
    requires
        old(mem).wf(),
        t % 4096 == 0,
        only_cow_marks(&m0, old(mem)),
    ensures
        final(mem).wf(),
        only_cow_marks(old(mem), final(mem)),
        only_cow_marks(&m0, final(mem)),
        pt_marked(&m0, final(mem), t),
{
    let mut i: usize = 0;
    while i < PT_ENTRIES
        invariant
            mem.wf(),
            t % 4096 == 0,
            i <= PT_ENTRIES,
            only_cow_marks(old(mem), mem),
            only_cow_marks(&m0, mem),
            forall|k: int| 0 <= k < i ==> {
                let e = #[trigger] m0.entry(t, k);
                is_present(e) && e & 0x4u64 != 0 ==> mem.entry(t, k) == cow_entry(e)
            },
        decreases PT_ENTRIES - i,
    {
        let ghost prev = *mem;
        let e = mem.read_pt_entry(t, i);
        proof { lemma_read_shape(&m0, &prev, t, i as int); }
        if e & page_flags::PRESENT != 0 && e & page_flags::USER_ACCESS != 0 {
            mark_entry(mem, Ghost(m0), t, i, e);
            proof {
                lemma_marks_trans(old(mem), &prev, mem);
                assert forall|k: int| 0 <= k < i implies {
                    let e = #[trigger] m0.entry(t, k);
                    is_present(e) && e & 0x4u64 != 0 ==> mem.entry(t, k) == cow_entry(e)
                } by {
                    let ek = m0.entry(t, k);
                    if is_present(ek) && ek & 0x4u64 != 0 {
                        lemma_marked_word_kept(&prev, mem, t / 8 + k, ek);
                    }
                }
            }
        }
        i += 1;
    }
}

/// Mark the large pages of the PD at `t` and the user pages of its page
/// tables.
fn mark_pd(mem: &mut PhysicalMemory, Ghost(m0): Ghost<PhysicalMemory>, t: u64)
    requires
        old(mem).wf(),
        t % 4096 == 0,
        only_cow_marks(&m0, old(mem)),
    ensures
        final(mem).wf(),
        only_cow_marks(old(mem), final(mem)),
        only_cow_marks(&m0, final(mem)),
        pd_marked(&m0, final(mem), t, 512),
{
    let mut i: usize = 0;
    while i < PT_ENTRIES
        invariant
            mem.wf(),
            t % 4096 == 0,
            i <= PT_ENTRIES,
            only_cow_marks(old(mem), mem),
            only_cow_marks(&m0, mem),
            pd_marked(&m0, mem, t, i as int),
        decreases PT_ENTRIES - i,
    {
        let ghost prev = *mem;
        let e = mem.read_pt_entry(t, i);
        proof { lemma_read_shape(&m0, &prev, t, i as int); }
        if e & page_flags::PRESENT != 0 {
            if e & page_flags::LARGE != 0 {
                mark_entry(mem, Ghost(m0), t, i, e);
            } else {
                proof { lemma_mask_aligned(e); }
                mark_pt(mem, Ghost(m0), e & ADDR_MASK);
            }
            proof {
                lemma_marks_trans(old(mem), &prev, mem);
                lemma_pd_marked_kept(&m0, &prev, mem, t, i as int);
            }
        }
        i += 1;
    }
}

/// Mark the large pages of the PDPT at `t` and everything below it.
fn mark_pdpt(mem: &mut PhysicalMemory, Ghost(m0): Ghost<PhysicalMemory>, t: u64)
    requires
        old(mem).wf(),
        t % 4096 == 0,
        only_cow_marks(&m0, old(mem)),
    ensures
        final(mem).wf(),
        only_cow_marks(old(mem), final(mem)),
        only_cow_marks(&m0, final(mem)),
        pdpt_marked(&m0, final(mem), t, 512),
{
    let mut i: usize = 0;
    while i < PT_ENTRIES
        invariant
            mem.wf(),
            t % 4096 == 0,
            i <= PT_ENTRIES,
            only_cow_marks(old(mem), mem),
            only_cow_marks(&m0, mem),
            pdpt_marked(&m0, mem, t, i as int),
        decreases PT_ENTRIES - i,
    {
        let ghost prev = *mem;
        let e = mem.read_pt_entry(t, i);
        proof { lemma_read_shape(&m0, &prev, t, i as int); }
        if e & page_flags::PRESENT != 0 {
            if e & page_flags::LARGE != 0 {
                mark_entry(mem, Ghost(m0), t, i, e);
            } else {
                proof { lemma_mask_aligned(e); }
                mark_pd(mem, Ghost(m0), e & ADDR_MASK);
            }
            proof {
                lemma_marks_trans(old(mem), &prev, mem);
                lemma_pdpt_marked_kept(&m0, &prev, mem, t, i as int);
            }
        }
        i += 1;
    }
}

/// Mark the tree rooted at the PML4 `pml4` copy-on-write in place: every
/// present user page and every large page loses its writable bit and
/// gains the COW bit (see `pml4_marked`); links and the allocator are
/// unchanged, and nothing else in RAM changes (`only_cow_marks`).
pub fn mark_tree_cow(mem: &mut PhysicalMemory, pml4: u64)
    requires
        old(mem).wf(),
        pml4 % 4096 == 0,
    ensures
        final(mem).wf(),
        only_cow_marks(old(mem), final(mem)),
        pml4_marked(old(mem), final(mem), pml4, 512),
{
    let ghost m0 = *mem;
    let mut i: usize = 0;
    while i < PT_ENTRIES
        invariant
            mem.wf(),
            pml4 % 4096 == 0,
            i <= PT_ENTRIES,
            only_cow_marks(&m0, mem),
            m0 == *old(mem),
            pml4_marked(&m0, mem, pml4, i as int),
        decreases PT_ENTRIES - i,
    {
        let ghost prev = *mem;
        let e = mem.read_pt_entry(pml4, i);
        proof { lemma_read_shape(&m0, &prev, pml4, i as int); }
        if e & page_flags::PRESENT != 0 {
            proof { lemma_mask_aligned(e); }
            mark_pdpt(mem, Ghost(m0), e & ADDR_MASK);
            proof {
                lemma_pml4_marked_kept(&m0, &prev, mem, pml4, i as int);
            }
        }
        i += 1;
    }
}

/// The tables of the tree at `t` hold the same entries in `a` and `b`
/// (page table level).
pub open spec fn pt_same(a: &PhysicalMemory, b: &PhysicalMemory, t: u64) -> bool {
    forall|i: int| 0 <= i < 512 ==> #[trigger] b.entry(t, i) == a.entry(t, i)
}

/// As `pt_same`, for a PD and the page tables it links.
pub open spec fn pd_same(a: &PhysicalMemory, b: &PhysicalMemory, t: u64) -> bool {
    &&& pt_same(a, b, t)
    &&& forall|i: int| 0 <= i < 512 ==> {
            let e = #[trigger] a.entry(t, i);
            is_present(e) && !is_large(e) ==> pt_same(a, b, entry_addr(e))
        }
}

/// As `pt_same`, for a PDPT and the tables below it.
pub open spec fn pdpt_same(a: &PhysicalMemory, b: &PhysicalMemory, t: u64) -> bool {
    &&& pt_same(a, b, t)
    &&& forall|i: int| 0 <= i < 512 ==> {
            let e = #[trigger] a.entry(t, i);
            is_present(e) && !is_large(e) ==> pd_same(a, b, entry_addr(e))
        }
}

/// As `pt_same`, for the tree rooted at the PML4 `t`.
pub open spec fn tree_same(a: &PhysicalMemory, b: &PhysicalMemory, t: u64) -> bool {
    &&& pt_same(a, b, t)
    &&& forall|i: int| 0 <= i < 512 ==> {
            let e = #[trigger] a.entry(t, i);
            is_present(e) ==> pdpt_same(a, b, entry_addr(e))
        }
}

proof fn lemma_pt_same(a: &PhysicalMemory, b: &PhysicalMemory, t: u64)
    requires
        only_free_changed(a, b),
        t % 4096 == 0,
        !a.is_free(spec_frame_idx(t as int)),
    ensures
        pt_same(a, b, t),
{
    assert forall|i: int| 0 <= i < 512 implies #[trigger] b.entry(t, i) == a.entry(t, i) by {
        lemma_table_word_frame(t, i);
    }
}

/// Changes confined to free frames keep a tree whose tables are in use,
/// and its entries.
pub proof fn lemma_tree_same(a: &PhysicalMemory, b: &PhysicalMemory, s: u64)
    requires
        only_free_changed(a, b),
        s % 4096 == 0,
        src_tree_ok(a, s),
    ensures
        tree_same(a, b, s),
        src_tree_ok(b, s),
{
    lemma_pt_same(a, b, s);
    assert forall|i: int| 0 <= i < 512 implies {
        let e = #[trigger] a.entry(s, i);
        is_present(e) ==> pdpt_same(a, b, entry_addr(e)) && src_pdpt_ok(b, entry_addr(e))
    } by {
        let e = a.entry(s, i);
        if is_present(e) {
            let t3 = entry_addr(e);
            lemma_mask_aligned(e);
            lemma_pt_same(a, b, t3);
            assert forall|i3: int| 0 <= i3 < 512 implies {
                let e3 = #[trigger] a.entry(t3, i3);
                is_present(e3) && !is_large(e3) ==> pd_same(a, b, entry_addr(e3)) && src_pd_ok(b, entry_addr(e3))
            } by {
                let e3 = a.entry(t3, i3);
                if is_present(e3) && !is_large(e3) {
                    let t2 = entry_addr(e3);
                    lemma_mask_aligned(e3);
                    lemma_pt_same(a, b, t2);
                    assert forall|i2: int| 0 <= i2 < 512 implies {
                        let e2 = #[trigger] a.entry(t2, i2);
                        is_present(e2) && !is_large(e2) ==> pt_same(a, b, entry_addr(e2)) && src_pt_ok(b, entry_addr(e2))
                    } by {
                        let e2 = a.entry(t2, i2);
                        if is_present(e2) && !is_large(e2) {
                            lemma_mask_aligned(e2);
                            lemma_pt_same(a, b, entry_addr(e2));
                        }
                    }
                }
            }
        }
    }
}

/// Marking keeps a tree's tables in use and what its walks read.
pub proof fn lemma_marks_keep_tree_ok(a: &PhysicalMemory, b: &PhysicalMemory, s: u64)
    requires
        only_cow_marks(a, b),
        src_tree_ok(a, s),
    ensures
        src_tree_ok(b, s),
{
    assert forall|i: int| 0 <= i < 512 implies {
        let e = #[trigger] b.entry(s, i);
        is_present(e) ==> src_pdpt_ok(b, entry_addr(e))
    } by {
        lemma_read_shape(a, b, s, i);
        let e = a.entry(s, i);
        if is_present(e) {
            let t3 = entry_addr(e);
            assert forall|i3: int| 0 <= i3 < 512 implies {
                let e3 = #[trigger] b.entry(t3, i3);
                is_present(e3) && !is_large(e3) ==> src_pd_ok(b, entry_addr(e3))
            } by {
                lemma_read_shape(a, b, t3, i3);
                let e3 = a.entry(t3, i3);
                if is_present(e3) && !is_large(e3) {
                    let t2 = entry_addr(e3);
                    assert forall|i2: int| 0 <= i2 < 512 implies {
                        let e2 = #[trigger] b.entry(t2, i2);
                        is_present(e2) && !is_large(e2) ==> src_pt_ok(b, entry_addr(e2))
                    } by {
                        lemma_read_shape(a, b, t2, i2);
                    }
                }
            }
        }
    }
}

/// Marks made in `m1` survive changes confined to frames free in `m1`,
/// when the marked tree's tables are in use.
pub proof fn lemma_marked_survive(m0: &PhysicalMemory, m1: &PhysicalMemory, m2: &PhysicalMemory, s: u64)
    requires
        pml4_marked(m0, m1, s, 512),
        src_tree_ok(m0, s),
        only_cow_marks(m0, m1),
        only_free_changed(m1, m2),
    ensures
        pml4_marked(m0, m2, s, 512),
{
    assert forall|i: int| 0 <= i < 512 implies {
        let e = #[trigger] m0.entry(s, i);
        is_present(e) ==> pdpt_marked(m0, m2, entry_addr(e), 512)
    } by {
        let e = m0.entry(s, i);
        if is_present(e) {
            let t3 = entry_addr(e);
            lemma_mask_aligned(e);
            assert(pdpt_marked(m0, m1, t3, 512));
            assert forall|i3: int| 0 <= i3 < 512 implies {
                let e3 = #[trigger] m0.entry(t3, i3);
                is_present(e3) ==> if is_large(e3) { m2.entry(t3, i3) == cow_entry(e3) } else { pd_marked(m0, m2, entry_addr(e3), 512) }
            } by {
                let e3 = m0.entry(t3, i3);
                lemma_table_word_frame(t3, i3);
                if is_present(e3) && !is_large(e3) {
                    let t2 = entry_addr(e3);
                    lemma_mask_aligned(e3);
                    assert(pd_marked(m0, m1, t2, 512));
                    assert forall|i2: int| 0 <= i2 < 512 implies {
                        let e2 = #[trigger] m0.entry(t2, i2);
                        is_present(e2) ==> if is_large(e2) { m2.entry(t2, i2) == cow_entry(e2) } else { pt_marked(m0, m2, entry_addr(e2)) }
                    } by {
                        let e2 = m0.entry(t2, i2);
                        lemma_table_word_frame(t2, i2);
                        if is_present(e2) && !is_large(e2) {
                            let t1 = entry_addr(e2);
                            lemma_mask_aligned(e2);
                            assert(pt_marked(m0, m1, t1));
                            assert forall|i1: int| 0 <= i1 < 512 implies {
                                let e1 = #[trigger] m0.entry(t1, i1);
                                is_present(e1) && e1 & 0x4u64 != 0 ==> m2.entry(t1, i1) == cow_entry(e1)
                            } by {
                                lemma_table_word_frame(t1, i1);
                            }
                        }
                    }
                }
            }
        }
    }
}

/// The tree being marked is the same tree when read from states whose
/// tree entries agree.
pub proof fn lemma_marked_same_source(a: &PhysicalMemory, b: &PhysicalMemory, m: &PhysicalMemory, s: u64)
    requires
        tree_same(a, b, s),
        pml4_marked(b, m, s, 512),
    ensures
        pml4_marked(a, m, s, 512),
{
    assert forall|i: int| 0 <= i < 512 implies {
        let e = #[trigger] a.entry(s, i);
        is_present(e) ==> pdpt_marked(a, m, entry_addr(e), 512)
    } by {
        let e = a.entry(s, i);
        assert(b.entry(s, i) == e);
        if is_present(e) {
            let t3 = entry_addr(e);
            assert(pdpt_marked(b, m, t3, 512));
            assert forall|i3: int| 0 <= i3 < 512 implies {
                let e3 = #[trigger] a.entry(t3, i3);
                is_present(e3) ==> if is_large(e3) { m.entry(t3, i3) == cow_entry(e3) } else { pd_marked(a, m, entry_addr(e3), 512) }
            } by {
                let e3 = a.entry(t3, i3);
                assert(b.entry(t3, i3) == e3);
                if is_present(e3) && !is_large(e3) {
                    let t2 = entry_addr(e3);
                    assert(pd_marked(b, m, t2, 512));
                    assert forall|i2: int| 0 <= i2 < 512 implies {
                        let e2 = #[trigger] a.entry(t2, i2);
                        is_present(e2) ==> if is_large(e2) { m.entry(t2, i2) == cow_entry(e2) } else { pt_marked(a, m, entry_addr(e2)) }
                    } by {
                        let e2 = a.entry(t2, i2);
                        assert(b.entry(t2, i2) == e2);
                        if is_present(e2) && !is_large(e2) {
                            let t1 = entry_addr(e2);
                            assert(pt_marked(b, m, t1));
                            assert forall|i1: int| 0 <= i1 < 512 implies {
                                let e1 = #[trigger] a.entry(t1, i1);
                                is_present(e1) && e1 & 0x4u64 != 0 ==> m.entry(t1, i1) == cow_entry(e1)
                            } by {
                                assert(b.entry(t1, i1) == a.entry(t1, i1));
                            }
                        }
                    }
                }
            }
        }
    }
}

/// A copy of the tree as `a` holds it is a copy of the tree as `b` holds
/// it, when their tree entries agree.
pub proof fn lemma_copied_same_source(a: &PhysicalMemory, b: &PhysicalMemory, m: &PhysicalMemory, s: u64, d: u64)
    requires
        tree_same(a, b, s),
        pml4_copied(a, m, s, d),
    ensures
        pml4_copied(b, m, s, d),
{
    assert forall|i: int| 0 <= i < 512 implies pml4_entry_copied(b, m, b.entry(s, i), #[trigger] m.entry(d, i)) by {
        let e = a.entry(s, i);
        let f = m.entry(d, i);
        assert(pml4_entry_copied(a, m, e, f));
        assert(b.entry(s, i) == e);
        if is_present(e) {
            let t3 = entry_addr(e);
            let u3 = entry_addr(f);
            assert(pdpt_copied(a, m, t3, u3));
            assert forall|i3: int| 0 <= i3 < 512 implies pdpt_entry_copied(b, m, b.entry(t3, i3), #[trigger] m.entry(u3, i3)) by {
                let e3 = a.entry(t3, i3);
                let f3 = m.entry(u3, i3);
                assert(pdpt_entry_copied(a, m, e3, f3));
                assert(b.entry(t3, i3) == e3);
                if is_present(e3) && !is_large(e3) {
                    let t2 = entry_addr(e3);
                    let u2 = entry_addr(f3);
                    assert(pd_copied(a, m, t2, u2));
                    assert forall|i2: int| 0 <= i2 < 512 implies pd_entry_copied(b, m, b.entry(t2, i2), #[trigger] m.entry(u2, i2)) by {
                        let e2 = a.entry(t2, i2);
                        let f2 = m.entry(u2, i2);
                        assert(pd_entry_copied(a, m, e2, f2));
                        assert(b.entry(t2, i2) == e2);
                        if is_present(e2) && !is_large(e2) {
                            let t1 = entry_addr(e2);
                            let u1 = entry_addr(f2);
                            assert(pt_copied(a, m, t1, u1));
                            assert forall|i1: int| 0 <= i1 < 512 implies #[trigger] m.entry(u1, i1) == crate::paging::cow::leaf_copy(b.entry(t1, i1)) by {
                                assert(b.entry(t1, i1) == a.entry(t1, i1));
                            }
                        }
                    }
                }
            }
        }
    }
}

proof fn lemma_pd_need_marked(m0: &PhysicalMemory, m1: &PhysicalMemory, s: u64, n: int)
    requires
        only_cow_marks(m0, m1),
    ensures
        pd_need(m1, s, n) == pd_need(m0, s, n),
    decreases n,
{
    if n > 0 {
        lemma_pd_need_marked(m0, m1, s, n - 1);
        lemma_read_shape(m0, m1, s, n - 1);
    }
}

proof fn lemma_pdpt_need_marked(m0: &PhysicalMemory, m1: &PhysicalMemory, s: u64, n: int)
    requires
        only_cow_marks(m0, m1),
    ensures
        pdpt_need(m1, s, n) == pdpt_need(m0, s, n),
    decreases n,
{
    if n > 0 {
        lemma_pdpt_need_marked(m0, m1, s, n - 1);
        lemma_read_shape(m0, m1, s, n - 1);
        lemma_pd_need_marked(m0, m1, entry_addr(m0.entry(s, n - 1)), 512);
    }
}

proof fn lemma_pml4_need_marked(m0: &PhysicalMemory, m1: &PhysicalMemory, s: u64, n: int)
    requires
        only_cow_marks(m0, m1),
    ensures
        pml4_need(m1, s, n) == pml4_need(m0, s, n),
    decreases n,
{
    if n > 0 {
        lemma_pml4_need_marked(m0, m1, s, n - 1);
        lemma_read_shape(m0, m1, s, n - 1);
        lemma_pdpt_need_marked(m0, m1, entry_addr(m0.entry(s, n - 1)), 512);
    }
}

/// Marking keeps the number of tables that a copy of the tree takes, as
/// it keeps which entries are present, large and where they point.
pub proof fn lemma_marks_keep_tables(m0: &PhysicalMemory, m1: &PhysicalMemory, s: u64)
    requires
        only_cow_marks(m0, m1),
    ensures
        tree_tables(m1, s) == tree_tables(m0, s),
{
    lemma_pml4_need_marked(m0, m1, s, 512);
}

proof fn lemma_pd_need_same(a: &PhysicalMemory, b: &PhysicalMemory, s: u64, n: int)
    requires
        pt_same(a, b, s),
        n <= 512,
    ensures
        pd_need(b, s, n) == pd_need(a, s, n),
    decreases n,
{
    if n > 0 {
        lemma_pd_need_same(a, b, s, n - 1);
        assert(b.entry(s, n - 1) == a.entry(s, n - 1));
    }
}

proof fn lemma_pdpt_need_same(a: &PhysicalMemory, b: &PhysicalMemory, s: u64, n: int)
    requires
        pdpt_same(a, b, s),
        n <= 512,
    ensures
        pdpt_need(b, s, n) == pdpt_need(a, s, n),
    decreases n,
{
    if n > 0 {
        lemma_pdpt_need_same(a, b, s, n - 1);
        let e = a.entry(s, n - 1);
        assert(b.entry(s, n - 1) == e);
        if is_present(e) && !is_large(e) {
            lemma_pd_need_same(a, b, entry_addr(e), 512);
        }
    }
}

proof fn lemma_pml4_need_same(a: &PhysicalMemory, b: &PhysicalMemory, s: u64, n: int)
    requires
        tree_same(a, b, s),
        n <= 512,
    ensures
        pml4_need(b, s, n) == pml4_need(a, s, n),
    decreases n,
{
    if n > 0 {
        lemma_pml4_need_same(a, b, s, n - 1);
        let e = a.entry(s, n - 1);
        assert(b.entry(s, n - 1) == e);
        if is_present(e) {
            lemma_pdpt_need_same(a, b, entry_addr(e), 512);
        }
    }
}

/// A tree with the same entries needs as many tables for its copy.
pub proof fn lemma_same_tree_tables(a: &PhysicalMemory, b: &PhysicalMemory, s: u64)
    requires
        tree_same(a, b, s),
    ensures
        tree_tables(b, s) == tree_tables(a, s),
{
    lemma_pml4_need_same(a, b, s, 512);
}

} // verus!
